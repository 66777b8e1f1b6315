use cosmonaut::install::{EngineError, Event, LogStream, Step};
use cosmonaut::osprobe::{
    attempts, judge, on_esp, probe_dir, probe_esp, probe_mount, read_composefs, read_os_release,
    read_windows, should_probe, Verdict,
};
use cosmonaut::probe::{DetectedOs, OsKind, PartitionInfo};
use cosmonaut::service::{idle_decision, IdleEvent, Installer, RunState};
use cosmonaut::wifi::{
    connect, connect_failure, device_list, failure_text, first_wireless_device, get_networks,
    is_online, is_tpm2_available, parse_networks, scan, WifiNetwork,
};

// ---------- wifi ----------

#[test]
fn parses_get_networks_output() {
    let sample = "\
                              Available networks\n\
--------------------------------------------------------------------------------\n  \
  Network name                          Security              Signal\n\
--------------------------------------------------------------------------------\n\
> homewifi                              psk                   ****\n  \
  homewifi 5g                           psk                   ***\n  \
  guestwifi                             open                  **\n";
    let nets = parse_networks(sample);
    assert_eq!(nets.len(), 3);
    assert_eq!(nets[0].ssid, "homewifi");
    assert_eq!(nets[0].security, "psk");
    assert_eq!(nets[0].signal, 4);
    assert!(nets[0].connected);
    assert_eq!(nets[1].ssid, "homewifi 5g"); // SSID with space
    assert_eq!(nets[2].security, "open");
}

#[test]
fn parses_no_networks() {
    let sample = "                              Available networks\n----\n  Network name  Security  Signal\n----\n";
    assert!(parse_networks(sample).is_empty());
}

#[test]
fn malformed_rows_are_skipped() {
    let sample = "---\n---\n\n  short psk\n  net psk none\n  loud net  psk  ******\n   --- x y ****\n";
    let nets = parse_networks(sample);
    assert_eq!(nets.len(), 1);
    assert_eq!(nets[0].ssid, "loud net");
    assert_eq!(nets[0].signal, 4);
    assert!(!nets[0].connected);
}

#[test]
fn the_first_station_that_is_on_is_used() {
    let out = "  Devices\n----\n  eth0   phy0  station  on\n  wlan0  phy0  station  off\n \
               > wlan1  phy1  station  on\n";
    assert_eq!(first_wireless_device(out).as_deref(), Some("wlan1"));
    assert_eq!(first_wireless_device("nothing here\n"), None);
}

#[test]
fn networks_come_over_the_wire_with_a_bounded_signal() {
    let n = WifiNetwork::from_wire(String::from("a"), String::from("psk"), 300, true);
    assert_eq!(n.signal, 255);
    let n = WifiNetwork::from_wire(String::from("a"), String::from("psk"), 3, false);
    assert_eq!((n.signal, n.connected), (3, false));
}

#[test]
fn wifi_commands_and_failures() {
    assert_eq!(device_list().log_line(), "+ iwctl device list");
    assert_eq!(scan("wlan0").log_line(), "+ iwctl station wlan0 scan");
    let get = get_networks("wlan0");
    assert_eq!(get.log_line(), "+ iwctl station wlan0 get-networks");
    assert_eq!(
        failure_text(&get, "exit status: 1", " no station\n"),
        "iwctl station wlan0 get-networks exited with exit status: 1; stderr: no station"
    );
    assert_eq!(
        connect("wlan0", "my net", "pw").args,
        vec!["--dont-ask", "--passphrase=pw", "station", "wlan0", "connect", "my net"]
    );
    assert_eq!(
        connect_failure("exit status: 1", "nope\n"),
        "iwctl connect failed: exit status: 1\nstderr: nope"
    );
}

#[test]
fn machine_probes() {
    let entry = |n: &str, v: Option<&str>| (String::from(n), v.map(str::to_owned));
    assert!(is_tpm2_available(&vec![
        entry("tpm0", Some("1\n")),
        entry("tpmrm0", None),
        entry("tpm1", Some("2\n")),
    ]));
    assert!(!is_tpm2_available(&vec![entry("xtpm0", Some("2"))]));
    assert!(!is_tpm2_available(&Vec::new()));
    assert!(is_online(&vec![b'd']));
    assert!(!is_online(&Vec::new()));
}

// ---------- service ----------

#[test]
fn one_install_at_a_time() {
    let mut s = Installer::new();
    assert_eq!(s.state.as_str(), "idle");
    assert!(!s.cancel() && s.idle);
    assert_eq!(s.may_probe(), Ok(()));
    assert_eq!(s.begin(), Ok(()));
    assert_eq!(s.state, RunState::Running);
    assert!(s.cancel() && !s.idle);
    assert_eq!(s.step_name(), "");
    assert_eq!(s.begin(), Err(String::from("install already in progress")));
    assert_eq!(
        s.may_probe(),
        Err(String::from("install in progress; probe refused"))
    );
    s.observe(&Event::StepChanged { step: Step::Bootc, detail: String::from("x") });
    s.observe(&Event::Log { stream: LogStream::Stdout, line: String::from("y") });
    assert_eq!(s.step_name(), "bootc");
    let end = s.finish(&Ok(()));
    assert!(end.success && end.error.is_empty());
    assert_eq!(end.reply, Ok(()));
    assert_eq!(s.state.as_str(), "done");
    assert!(s.idle && !s.cancel());
    assert_eq!(s.begin(), Ok(()));
}

#[test]
fn failed_installs_are_reported() {
    let mut s = Installer::new();
    s.begin().unwrap();
    let end = s.finish(&Err(EngineError::Mkfs(String::from("mkfs.btrfs"))));
    assert!(!end.success);
    assert_eq!(end.error, "mkfs: mkfs.btrfs");
    assert_eq!(end.reply, Err(String::from("mkfs: mkfs.btrfs")));
    assert_eq!(s.state.as_str(), "error");
    s.begin().unwrap();
    let end = s.finish(&Err(EngineError::Cancelled));
    assert_eq!(end.error, "cancelled by user");
    assert_eq!(end.reply, Err(String::from("install cancelled by Cancel()")));
}

#[test]
fn only_a_change_keeps_the_daemon_alive() {
    assert!(idle_decision(true, IdleEvent::Elapsed));
    assert!(!idle_decision(false, IdleEvent::Elapsed));
    for idle in [false, true] {
        assert!(idle_decision(idle, IdleEvent::Closed));
        assert!(!idle_decision(idle, IdleEvent::Changed));
    }
}

// ---------- systems ----------

fn some(s: &str) -> Option<String> {
    Some(String::from(s))
}

fn linux(name: &str) -> DetectedOs {
    DetectedOs { pretty_name: String::from(name), kind: OsKind::Linux }
}

#[test]
fn mounts_are_tried_in_order() {
    assert_eq!(attempts(&some("vfat"), true).len(), 1);
    assert!(attempts(&some("vfat"), false).is_empty());
    assert!(attempts(&None, true).is_empty());
    assert!(attempts(&some("swap"), false).is_empty());
    let btrfs = attempts(&some("btrfs"), false);
    let lines: Vec<String> = btrfs
        .iter()
        .map(|a| probe_mount("/dev/sda2", a, "/m").log_line())
        .collect();
    assert_eq!(
        lines,
        vec![
            "+ mount -t btrfs -o ro /dev/sda2 /m",
            "+ mount -t btrfs -o ro,subvol=@ /dev/sda2 /m",
            "+ mount -t btrfs -o ro,subvol=root /dev/sda2 /m",
            "+ mount -t btrfs -o ro /dev/sda2 /m",
        ]
    );
    assert_eq!(attempts(&some("ntfs"), false)[0].fstype, "ntfs3");
    assert_eq!(attempts(&some("xfs"), false)[0].fstype, "xfs");
}

#[test]
fn the_first_system_found_settles_it() {
    let btrfs = some("btrfs");
    assert_eq!(judge(&btrfs, false, 0, None), Verdict::TryNext);
    assert_eq!(judge(&btrfs, false, 1, Some(None)), Verdict::TryNext);
    assert_eq!(
        judge(&btrfs, false, 1, Some(Some(linux("Fedora")))),
        Verdict::Settled(Some(linux("Fedora")))
    );
    assert_eq!(judge(&btrfs, false, 3, Some(None)), Verdict::Settled(None));
    assert_eq!(judge(&some("ext4"), false, 0, None), Verdict::Settled(None));
    let ntfs = some("ntfs");
    assert_eq!(judge(&ntfs, false, 0, Some(None)), Verdict::Settled(None));
    assert_eq!(
        judge(&ntfs, false, 0, None),
        Verdict::Settled(Some(DetectedOs {
            pretty_name: String::from("Windows (NTFS)"),
            kind: OsKind::Windows,
        }))
    );
}

#[test]
fn boot_loaders_of_an_esp() {
    let entry = |t: &str| format!("# c\ntitle {t}\nlinux /v\n");
    assert_eq!(probe_esp(false, &None), None);
    assert_eq!(probe_esp(false, &Some(vec![String::from("linux /v\n")])), None);
    let windows = probe_esp(true, &None).unwrap();
    assert_eq!(windows.pretty_name, "Windows Boot Manager");
    assert_eq!(windows.kind, OsKind::Windows);
    let one = probe_esp(false, &Some(vec![entry(" COSMIC "), entry("COSMIC")])).unwrap();
    assert_eq!(one, linux("COSMIC"));
    let many = probe_esp(
        true,
        &Some(vec![entry("b"), entry("c"), entry("a"), entry("b")]),
    )
    .unwrap();
    assert_eq!(many.pretty_name, "Windows Boot Manager + a + b");
    assert_eq!(many.kind, OsKind::Unknown);
}

#[test]
fn systems_are_read_from_their_files() {
    let release = some("NAME=x\nPRETTY_NAME=\"Fedora Linux 44\"\n");
    assert_eq!(
        read_os_release(&vec![None, release]),
        Some(linux("Fedora Linux 44"))
    );
    assert_eq!(
        read_os_release(&vec![some("PRETTY_NAME=\"\"\n"), some("PRETTY_NAME=Arch\n")]),
        Some(linux("Arch"))
    );
    assert_eq!(read_os_release(&vec![None, None]), None);
    assert_eq!(read_composefs(true, true), Some(linux("Linux (bootc)")));
    assert_eq!(read_composefs(true, false), None);
    assert!(read_windows(true).is_some());
    assert_eq!(read_windows(false), None);
}

#[test]
fn partitions_in_use_are_not_probed() {
    let mut p = PartitionInfo {
        path: String::from("/dev/sda1"),
        number: 1,
        start_bytes: 0,
        size_bytes: 0,
        fstype: None,
        label: None,
        part_type: some("c12a7328-f81f-11d2-ba4b-00a0c93ec93b"),
        part_uuid: None,
        fs_uuid: None,
        mounted: false,
        detected_os: None,
    };
    assert!(should_probe(&p) && on_esp(&p));
    p.mounted = true;
    p.part_type = None;
    assert!(!should_probe(&p) && !on_esp(&p));
    assert_eq!(probe_dir(42, "/dev/sda1"), "/run/cosmonaut/probe/42-sda1");
    assert_eq!(probe_dir(42, "/"), "/run/cosmonaut/probe/42-dev");
}
