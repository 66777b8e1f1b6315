use cosmonaut::bls;
use cosmonaut::bootc::{layer_count, skopeo_source, CopyProgress};
use cosmonaut::bootc;
use cosmonaut::command::{Command, Mishap, Work};
use cosmonaut::install::{
    validate_spec, Encryption, EngineError, Event, InstallSpec, LogStream, PartitionAction,
    PartitionPlan, Step, ESP_BYTES, ROOT_MIN_BYTES,
};
use cosmonaut::luks;
use cosmonaut::mount;
use cosmonaut::partition::{
    begin, belongs, part_path, partition_at, proceed, PartitionSet, PartitionSetInfo, Request, Stage,
};
use cosmonaut::pipeline::{Order, Phase, Pipeline, Reply};
use cosmonaut::probe::{DiskInfo, Gap, PartitionInfo};
use cosmonaut::steps;

const GIB: u64 = 1024 * 1024 * 1024;
const MIB: u64 = 1024 * 1024;
const ESP_GUID: &str = "c12a7328-f81f-11d2-ba4b-00a0c93ec93b";
const ROOT_GUID: &str = "4f68bce3-e8cd-4db1-96e7-fbcaf984b709";

fn spec(encryption: Encryption, plan: PartitionPlan) -> InstallSpec {
    InstallSpec {
        disk: String::from("/dev/vdb"),
        image: String::from("ngcr.io/razorfinos/cosmic:nightly"),
        hostname: String::from("cosmic"),
        encryption,
        plan,
    }
}

fn part(path: &str, number: u32, start_bytes: u64, size_bytes: u64) -> PartitionInfo {
    PartitionInfo {
        path: String::from(path),
        number,
        start_bytes,
        size_bytes,
        fstype: None,
        label: None,
        part_type: None,
        part_uuid: None,
        fs_uuid: None,
        mounted: false,
        detected_os: None,
    }
}

fn disk(partitions: Vec<PartitionInfo>, gaps: Vec<Gap>) -> DiskInfo {
    DiskInfo {
        path: String::from("/dev/vdb"),
        model: String::from("virtio-disk"),
        size_bytes: 64 * GIB,
        removable: false,
        rotational: false,
        table: Some(String::from("gpt")),
        sector_size: 512,
        partitions,
        gaps,
    }
}

fn shown(c: &Command) -> String {
    let mut s = c.program.clone();
    for a in &c.args {
        s.push(' ');
        s.push_str(a);
    }
    s
}

fn all_shown(list: &Vec<Command>) -> Vec<String> {
    list.iter().map(shown).collect()
}

fn work_shown(list: &Vec<Work>) -> Vec<String> {
    list.iter()
        .map(|w| match w {
            Work::Run(c) => format!("run {}", shown(c)),
            Work::Attempt(c, _) => format!("try {}", shown(c)),
            Work::Quiet(c) => format!("quiet {}", shown(c)),
            Work::Note(l) => format!("note {l}"),
            Work::MakeDir { path, .. } => format!("mkdir {path}"),
            Work::WriteFile { path, content, .. } => format!("write {path} {content:?}"),
        })
        .collect()
}

// ---------- images ----------

#[test]
fn bare_ref_gets_docker_prefix() {
    assert_eq!(
        skopeo_source("ngcr.io/foo/bar:nightly"),
        "docker://ngcr.io/foo/bar:nightly"
    );
    assert_eq!(
        skopeo_source("ghcr.io/example/image:v1.2.3"),
        "docker://ghcr.io/example/image:v1.2.3"
    );
}

#[test]
fn explicit_transport_passes_through() {
    for s in [
        "docker://ngcr.io/foo:1",
        "oci:/tmp/foo",
        "containers-storage:localhost/foo:latest",
        "oci-archive:/tmp/foo.tar",
    ] {
        assert_eq!(skopeo_source(s), s);
    }
}

#[test]
fn every_transport_is_stable() {
    for t in [
        "docker://", "docker-archive:", "docker-daemon:", "oci:", "oci-archive:",
        "containers-storage:", "dir:", "tarball:", "ostree:",
    ] {
        let s = format!("{t}x");
        assert_eq!(skopeo_source(&s), s);
    }
    let once = skopeo_source("docker:/x");
    assert_eq!(once, "docker://docker:/x");
    assert_eq!(skopeo_source(&once), once);
}

#[test]
fn layers_are_counted_in_the_manifest() {
    assert_eq!(layer_count(Some(r#"{"layers":[{},{},{}]}"#)), Some(3));
    assert_eq!(layer_count(Some(r#"{"layers":[]}"#)), Some(0));
    assert_eq!(layer_count(Some(r#"{"manifests":[{}]}"#)), None);
    assert_eq!(layer_count(Some(r#"{"layers":7}"#)), None);
    assert_eq!(layer_count(Some("[1,2]")), None);
    assert_eq!(layer_count(Some("no json")), None);
    assert_eq!(layer_count(None), None);
}

fn copied(line: &str) -> Event {
    Event::Log {
        stream: LogStream::Stdout,
        line: String::from(line),
    }
}

#[test]
fn copied_layers_move_the_progress() {
    for total in 1usize..90 {
        let mut progress = CopyProgress::new(Some(total));
        for done in 1usize..(total + 3) {
            let span = f64::from(75u8 - 10u8);
            let frac = (done.min(total) as f64) / (total as f64);
            let percent = 10 + (span * frac) as u8;
            assert_eq!(
                progress.observe(&copied("Copying blob sha256:0")),
                Some(Event::Progress { percent, step: Step::Bootc }),
                "{done} of {total}"
            );
        }
    }
}

#[test]
fn other_lines_do_not_move_the_progress() {
    let mut progress = CopyProgress::new(Some(2));
    assert_eq!(progress.observe(&copied("Getting image source signatures")), None);
    assert_eq!(
        progress.observe(&Event::Log {
            stream: LogStream::Stderr,
            line: String::from("Copying blob x"),
        }),
        None
    );
    assert_eq!(progress.copied, 0);
    let mut unknown = CopyProgress::new(None);
    assert_eq!(unknown.observe(&copied("Copying blob x")), None);
    let mut empty = CopyProgress::new(Some(0));
    assert_eq!(empty.observe(&copied("Copying blob x")), None);
}

#[test]
fn the_image_is_copied_and_installed() {
    assert_eq!(
        shown(&bootc::copy("x/y:1")),
        "skopeo copy docker://x/y:1 oci:/run/cosmonaut/scratch/oci-cache"
    );
    assert_eq!(
        shown(&bootc::inspect("oci:/a")),
        "skopeo inspect --raw oci:/a"
    );
    assert_eq!(
        shown(&bootc::install("x/y:1")),
        "bootc install to-filesystem --target-imgref x/y:1 --composefs-backend --source-imgref \
         oci:/run/cosmonaut/scratch/oci-cache --bootloader systemd --skip-finalize \
         /run/cosmonaut/target"
    );
}

// ---------- requests ----------

fn invalid(s: &InstallSpec) -> String {
    match validate_spec(s) {
        Err(EngineError::InvalidSpec(m)) => m,
        other => panic!("unexpected {other:?}"),
    }
}

#[test]
fn plain_requests_are_valid() {
    let s = spec(Encryption::Unencrypted, PartitionPlan::default());
    assert_eq!(validate_spec(&s), Ok(()));
    let s = spec(
        Encryption::Tpm2Luks,
        PartitionPlan::FreeSpace { gap_start_bytes: MIB, gap_size_bytes: ROOT_MIN_BYTES },
    );
    assert_eq!(validate_spec(&s), Ok(()));
}

#[test]
fn bad_requests_are_named() {
    let mut s = spec(Encryption::Unencrypted, PartitionPlan::EraseDisk);
    s.disk = String::from("home/\"x\"");
    assert_eq!(invalid(&s), "disk must be a /dev/ path, got \"home/\\\"x\\\"\"");
    s.disk = String::from("/devices/x");
    assert_eq!(invalid(&s), "disk must be a /dev/ path, got \"/devices/x\"");
    let mut s = spec(Encryption::Unencrypted, PartitionPlan::EraseDisk);
    s.image = String::from(" \t\u{2003}");
    assert_eq!(invalid(&s), "image must be non-empty");
    let mut s = spec(Encryption::Unencrypted, PartitionPlan::EraseDisk);
    s.hostname = String::new();
    assert_eq!(invalid(&s), "hostname must be non-empty");
    let s = spec(
        Encryption::Unencrypted,
        PartitionPlan::FreeSpace { gap_start_bytes: 0, gap_size_bytes: 8589934591 },
    );
    assert_eq!(
        invalid(&s),
        "free-space gap too small: 8589934591 < 8589934592 minimum"
    );
}

fn device(path: &str) -> String {
    String::from(path)
}

fn custom(actions: Vec<PartitionAction>) -> InstallSpec {
    spec(Encryption::Unencrypted, PartitionPlan::Custom { actions })
}

#[test]
fn bad_custom_plans_are_named() {
    let root = || PartitionAction::UseAsRoot { device: device("/dev/vdb3") };
    let esp = || PartitionAction::UseAsEsp { device: device("/dev/vdb1"), format: false };
    assert_eq!(validate_spec(&custom(vec![root(), esp()])), Ok(()));
    assert_eq!(
        invalid(&custom(vec![esp()])),
        "plan must have exactly one root, got 0"
    );
    assert_eq!(
        invalid(&custom(vec![root(), root(), esp()])),
        "plan must have exactly one root, got 2"
    );
    assert_eq!(
        invalid(&custom(vec![root(), esp(), PartitionAction::CreateEsp { start_bytes: 0 }])),
        "plan must have exactly one ESP, got 2"
    );
    assert_eq!(
        invalid(&custom(vec![
            PartitionAction::CreateRoot { start_bytes: 0, size_bytes: Some(5) },
            esp()
        ])),
        "root partition too small: 5 < 8589934592 minimum"
    );
    assert_eq!(
        invalid(&custom(vec![
            root(),
            esp(),
            PartitionAction::Delete { device: device("/dev//vdb3/.") }
        ])),
        "device referenced twice in plan: /dev//vdb3/."
    );
    assert_eq!(
        invalid(&custom(vec![
            root(),
            esp(),
            PartitionAction::Delete { device: device("/dev/sda2") }
        ])),
        "plan references /dev/sda2 which is not on /dev/vdb"
    );
}

#[test]
fn errors_read_as_text() {
    let m = || String::from("why");
    let all = [
        (Step::Partition, "partition: why"),
        (Step::Format, "format: why"),
        (Step::Luks, "luks: why"),
        (Step::Mkfs, "mkfs: why"),
        (Step::Mount, "mount: why"),
        (Step::Bootc, "bootc: why"),
        (Step::Hostname, "hostname: why"),
        (Step::Bls, "bls: why"),
        (Step::Finalize, "finalize: why"),
    ];
    let mut last = 0;
    for (step, shown) in all {
        assert_eq!(EngineError::in_step(step, m()).message(), shown);
        assert!(shown.starts_with(step.as_str()));
        assert!(step.start_percent() > last);
        last = step.start_percent();
    }
    assert_eq!(EngineError::InvalidSpec(m()).message(), "invalid spec: why");
    assert_eq!(EngineError::Cancelled.message(), "cancelled by user");
    assert_eq!(PartitionPlan::EraseDisk.describe(), "erase whole disk");
    assert_eq!(LogStream::Engine.as_str(), "engine");
    assert_eq!(LogStream::Stderr.as_str(), "stderr");
}

// ---------- partitioning ----------

#[test]
fn part_paths_for_sata_and_nvme() {
    assert_eq!(part_path("/dev/sda", 1), "/dev/sda1");
    assert_eq!(part_path("/dev/vdb", 3), "/dev/vdb3");
    assert_eq!(part_path("/dev/nvme0n1", 2), "/dev/nvme0n1p2");
    assert_eq!(part_path("/dev/mmcblk0", 1), "/dev/mmcblk0p1");
}

fn set_of(request: Request) -> Result<PartitionSet, String> {
    match request {
        Request::Conclude(_, outcome) => outcome,
        Request::Probe(_) => panic!("another probe"),
    }
}

fn refused(r: (Option<Stage>, Request)) -> String {
    assert!(r.0.is_none());
    match r.1 {
        Request::Conclude(commands, Err(m)) => {
            assert!(commands.is_empty());
            m
        }
        other => panic!("unexpected {other:?}"),
    }
}

#[test]
fn erasing_makes_three_partitions() {
    let (stage, request) = begin("/dev/nvme0n1", &PartitionPlan::EraseDisk);
    assert!(stage.is_none());
    match request {
        Request::Conclude(commands, outcome) => {
            assert_eq!(
                all_shown(&commands),
                vec![
                    "wipefs --all /dev/nvme0n1",
                    "sfdisk --wipe always /dev/nvme0n1",
                    &format!("sfdisk --part-type /dev/nvme0n1 3 {ROOT_GUID}"),
                    "udevadm settle",
                ]
            );
            assert_eq!(
                commands[1].stdin.as_deref(),
                Some(
                    "label: gpt\nsize=512MiB, type=uefi, name=ESP\nsize=1GiB,   type=linux, \
                     name=boot\ntype=linux, name=root\n"
                )
            );
            let info = PartitionSetInfo::from_set(outcome.unwrap());
            assert_eq!(info.esp, "/dev/nvme0n1p1");
            assert!(info.format_esp);
            assert_eq!(info.boot.as_deref(), Some("/dev/nvme0n1p2"));
            assert_eq!(info.root, "/dev/nvme0n1p3");
        }
        other => panic!("unexpected {other:?}"),
    }
}

fn with_esp(mut p: PartitionInfo) -> PartitionInfo {
    p.part_type = Some(String::from(ESP_GUID));
    p
}

#[test]
fn free_space_reuses_the_esp() {
    let plan = PartitionPlan::FreeSpace { gap_start_bytes: 3 * GIB, gap_size_bytes: 20 * GIB };
    let gap = || Gap { start_bytes: 3 * GIB, size_bytes: 20 * GIB };
    let before = disk(
        vec![with_esp(part("/dev/vdb1", 1, MIB, 512 * MIB)), part("/dev/vdb2", 2, GIB, 2 * GIB)],
        vec![gap()],
    );
    let (stage, request) = begin("/dev/vdb", &plan);
    assert_eq!(request, Request::Probe(Vec::new()));
    let (stage, request) = proceed("/dev/vdb", &plan, &stage.unwrap(), Ok(&before));
    match request {
        Request::Probe(commands) => {
            assert_eq!(
                all_shown(&commands),
                vec!["sfdisk --append /dev/vdb", "udevadm settle"]
            );
            assert_eq!(
                commands[0].stdin.as_deref(),
                Some(&*format!(
                    "start=6291456, size=41943040, type={ROOT_GUID}, name=root\n"
                ))
            );
        }
        other => panic!("unexpected {other:?}"),
    }
    let after = disk(
        vec![
            with_esp(part("/dev/vdb1", 1, MIB, 512 * MIB)),
            part("/dev/vdb2", 2, GIB, 2 * GIB),
            part("/dev/vdb3", 3, 3 * GIB, 20 * GIB),
        ],
        Vec::new(),
    );
    let (stage, request) = proceed("/dev/vdb", &plan, &stage.unwrap(), Ok(&after));
    assert!(stage.is_none());
    assert_eq!(
        set_of(request),
        Ok(PartitionSet {
            esp: String::from("/dev/vdb1"),
            format_esp: false,
            boot: None,
            root: String::from("/dev/vdb3"),
        })
    );
    assert_eq!(partition_at(&after, 7), None);
}

#[test]
fn free_space_makes_an_esp_where_there_is_none() {
    let plan = PartitionPlan::FreeSpace { gap_start_bytes: MIB, gap_size_bytes: 20 * GIB };
    let before = disk(Vec::new(), vec![Gap { start_bytes: MIB, size_bytes: 30 * GIB }]);
    let (stage, _) = begin("/dev/vdb", &plan);
    let (stage, request) = proceed("/dev/vdb", &plan, &stage.unwrap(), Ok(&before));
    match request {
        Request::Probe(commands) => assert_eq!(
            commands[0].stdin.as_deref(),
            Some(&*format!(
                "start=2048, size=1048576, type=uefi, name=ESP\n\
                 start=1050624, size=40894464, type={ROOT_GUID}, name=root\n"
            ))
        ),
        other => panic!("unexpected {other:?}"),
    }
    let stage = stage.unwrap();
    let after = disk(
        vec![
            part("/dev/vdb1", 1, MIB, ESP_BYTES),
            part("/dev/vdb2", 2, MIB + ESP_BYTES, 20 * GIB - ESP_BYTES),
        ],
        Vec::new(),
    );
    let set = set_of(proceed("/dev/vdb", &plan, &stage, Ok(&after)).1).unwrap();
    assert!(set.format_esp);
    assert_eq!((set.esp.as_str(), set.root.as_str()), ("/dev/vdb1", "/dev/vdb2"));
    let nothing = disk(Vec::new(), Vec::new());
    assert_eq!(
        set_of(proceed("/dev/vdb", &plan, &stage, Ok(&nothing)).1),
        Err(String::from("created root partition not found after append"))
    );
    let half = disk(vec![part("/dev/vdb2", 2, MIB + ESP_BYTES, 20 * GIB - ESP_BYTES)], Vec::new());
    assert_eq!(
        set_of(proceed("/dev/vdb", &plan, &stage, Ok(&half)).1),
        Err(String::from("created ESP not found after append"))
    );
}

#[test]
fn free_space_rejects_what_it_cannot_use() {
    let plan = PartitionPlan::FreeSpace { gap_start_bytes: MIB, gap_size_bytes: 19 * GIB };
    let stage = || begin("/dev/vdb", &plan).0.unwrap();
    // A gap that doesn't exist (overlaps the ESP).
    let taken = disk(
        vec![with_esp(part("/dev/vdb1", 1, MIB, 512 * MIB))],
        vec![Gap { start_bytes: 513 * MIB, size_bytes: 19 * GIB }],
    );
    let m = refused(proceed("/dev/vdb", &plan, &stage(), Ok(&taken)));
    assert_eq!(
        m,
        "requested gap (1048576..+20401094656) is not free space on /dev/vdb — the disk changed \
         since it was scanned; rescan and retry"
    );
    let mut blank = disk(Vec::new(), vec![Gap { start_bytes: MIB, size_bytes: 30 * GIB }]);
    blank.table = None;
    assert_eq!(
        refused(proceed("/dev/vdb", &plan, &stage(), Ok(&blank))),
        "free-space install requires an existing GPT table on /dev/vdb (found None); use erase \
         mode for blank/MBR disks"
    );
    blank.table = Some(String::from("dos"));
    assert_eq!(
        refused(proceed("/dev/vdb", &plan, &stage(), Ok(&blank))),
        "free-space install requires an existing GPT table on /dev/vdb (found Some(\"dos\")); use \
         erase mode for blank/MBR disks"
    );
    let small = PartitionPlan::FreeSpace { gap_start_bytes: MIB, gap_size_bytes: ROOT_MIN_BYTES };
    let free = disk(Vec::new(), vec![Gap { start_bytes: MIB, size_bytes: 30 * GIB }]);
    assert_eq!(
        refused(proceed("/dev/vdb", &small, &stage(), Ok(&free))),
        "free space too small for root: 8053063680 < 8589934592"
    );
    assert_eq!(
        refused(proceed("/dev/vdb", &plan, &stage(), Err(String::from("probe task join")))),
        "probe task join"
    );
}

#[test]
fn custom_plans_delete_create_and_reuse() {
    let plan = PartitionPlan::Custom {
        actions: vec![
            PartitionAction::UseAsEsp { device: device("/dev/vdb1"), format: false },
            PartitionAction::Delete { device: device("/dev/vdb2") },
            PartitionAction::CreateRoot { start_bytes: 4 * GIB, size_bytes: None },
        ],
    };
    let esp = || with_esp(part("/dev/vdb1", 1, MIB, 512 * MIB));
    let keeper = || part("/dev/vdb3", 3, 2 * GIB, 2 * GIB);
    let tail = || Gap { start_bytes: 4 * GIB, size_bytes: 20 * GIB };
    let info = disk(vec![esp(), part("/dev/vdb2", 2, GIB, GIB), keeper()], vec![tail()]);
    let (stage, request) = begin("/dev/vdb", &plan);
    assert_eq!(request, Request::Probe(Vec::new()));
    let (stage, request) = proceed("/dev/vdb", &plan, &stage.unwrap(), Ok(&info));
    match request {
        Request::Probe(commands) => assert_eq!(
            all_shown(&commands),
            vec!["sfdisk --delete /dev/vdb 2", "udevadm settle"]
        ),
        other => panic!("unexpected {other:?}"),
    }
    let gone = disk(vec![esp(), keeper()], vec![Gap { start_bytes: GIB, size_bytes: GIB }, tail()]);
    let (stage, request) = proceed("/dev/vdb", &plan, &stage.unwrap(), Ok(&gone));
    match request {
        Request::Probe(commands) => {
            assert_eq!(shown(&commands[0]), "sfdisk --append /dev/vdb");
            assert_eq!(
                commands[0].stdin.as_deref(),
                Some(&*format!(
                    "start=8388608, size=41943040, type={ROOT_GUID}, name=root\n"
                ))
            );
        }
        other => panic!("unexpected {other:?}"),
    }
    let made = disk(vec![esp(), keeper(), part("/dev/vdb2", 2, 4 * GIB, 20 * GIB)], Vec::new());
    let (stage, request) = proceed("/dev/vdb", &plan, &stage.unwrap(), Ok(&made));
    assert!(stage.is_none());
    match &request {
        Request::Conclude(commands, _) => assert_eq!(all_shown(commands), vec!["udevadm settle"]),
        other => panic!("unexpected {other:?}"),
    }
    assert_eq!(
        set_of(request),
        Ok(PartitionSet {
            esp: String::from("/dev/vdb1"),
            format_esp: false,
            boot: None,
            root: String::from("/dev/vdb2"),
        })
    );
}

#[test]
fn custom_plans_stamp_and_wipe_what_they_reuse() {
    let plan = PartitionPlan::Custom {
        actions: vec![
            PartitionAction::UseAsRoot { device: device("/dev/vdb2") },
            PartitionAction::UseAsEsp { device: device("/dev/vdb1"), format: true },
        ],
    };
    let info = disk(
        vec![part("/dev/vdb1", 1, MIB, 512 * MIB), part("/dev/vdb2", 2, GIB, 9 * GIB)],
        Vec::new(),
    );
    let mut stage = begin("/dev/vdb", &plan).0;
    for _ in 0..2 {
        let (next, request) = proceed("/dev/vdb", &plan, &stage.unwrap(), Ok(&info));
        assert_eq!(request, Request::Probe(Vec::new()));
        stage = next;
    }
    let (_, request) = proceed("/dev/vdb", &plan, &stage.unwrap(), Ok(&info));
    match &request {
        Request::Conclude(commands, _) => assert_eq!(
            all_shown(commands),
            vec![
                format!("sfdisk --part-type /dev/vdb 2 {ROOT_GUID}"),
                String::from("wipefs --all /dev/vdb2"),
                format!("sfdisk --part-type /dev/vdb 1 {ESP_GUID}"),
                String::from("wipefs --all /dev/vdb1"),
                String::from("udevadm settle"),
            ]
        ),
        other => panic!("unexpected {other:?}"),
    }
    let set = set_of(request).unwrap();
    assert!(set.format_esp);
    assert_eq!(set.root, "/dev/vdb2");
}

fn outcome_of(actions: Vec<PartitionAction>, probes: Vec<DiskInfo>) -> String {
    let plan = PartitionPlan::Custom { actions };
    let mut stage = begin("/dev/vdb", &plan).0;
    for info in &probes {
        let (next, request) = proceed("/dev/vdb", &plan, &stage.unwrap(), Ok(info));
        if let Request::Conclude(_, outcome) = request {
            return match outcome {
                Ok(set) => set.root,
                Err(m) => m,
            };
        }
        stage = next;
    }
    panic!("not concluded")
}

#[test]
fn custom_plans_reject_what_they_cannot_use() {
    let small = || part("/dev/vdb2", 2, GIB, 2 * GIB);
    let esp = || with_esp(part("/dev/vdb1", 1, MIB, 512 * MIB));
    let use_esp = || PartitionAction::UseAsEsp { device: device("/dev/vdb1"), format: false };
    let use_root = || PartitionAction::UseAsRoot { device: device("/dev/vdb2") };
    let delete = || PartitionAction::Delete { device: device("/dev/vdb2") };
    let same = |d: fn() -> DiskInfo| vec![d(), d(), d()];
    fn plain() -> DiskInfo {
        disk(
            vec![with_esp(part("/dev/vdb1", 1, MIB, 512 * MIB)), part("/dev/vdb2", 2, GIB, 2 * GIB)],
            vec![Gap { start_bytes: 3 * GIB, size_bytes: 4 * GIB }],
        )
    }
    fn busy() -> DiskInfo {
        let mut d = plain();
        d.partitions[0].mounted = true;
        d.partitions[1].mounted = true;
        d
    }
    fn empty() -> DiskInfo {
        disk(Vec::new(), Vec::new())
    }
    fn mbr() -> DiskInfo {
        let mut d = plain();
        d.table = Some(String::from("dos"));
        d
    }
    assert_eq!((small().number, esp().number), (2, 1));
    assert_eq!(
        outcome_of(vec![use_esp(), use_root()], same(plain)),
        "/dev/vdb2 too small for root: 2147483648 < 8589934592"
    );
    assert_eq!(
        outcome_of(vec![use_root()], same(busy)),
        "/dev/vdb2 is mounted; refusing to use as root"
    );
    assert_eq!(
        outcome_of(vec![use_esp()], same(busy)),
        "/dev/vdb1 is mounted; refusing to use as ESP"
    );
    assert_eq!(outcome_of(vec![use_root()], same(empty)), "/dev/vdb2 vanished mid-plan");
    assert_eq!(
        outcome_of(vec![delete()], same(empty)),
        "/dev/vdb2 does not exist on /dev/vdb"
    );
    assert_eq!(
        outcome_of(vec![delete()], same(busy)),
        "/dev/vdb2 is mounted; refusing to delete"
    );
    assert_eq!(
        outcome_of(vec![delete()], same(mbr)),
        "custom layout requires an existing GPT table on /dev/vdb (found Some(\"dos\"))"
    );
    assert_eq!(outcome_of(Vec::new(), same(plain)), "plan produced no ESP");
    assert_eq!(outcome_of(vec![use_esp()], same(plain)), "plan produced no root");
    let create = |start: u64, size: Option<u64>| PartitionAction::CreateRoot {
        start_bytes: start,
        size_bytes: size,
    };
    assert_eq!(
        outcome_of(vec![create(GIB, None)], same(plain)),
        "create-root start is not inside a free gap"
    );
    assert_eq!(
        outcome_of(vec![create(3 * GIB, None)], same(plain)),
        "root partition too small: 4294967296 < 8589934592"
    );
    assert_eq!(
        outcome_of(vec![create(3 * GIB, Some(9 * GIB))], same(plain)),
        "create-root range is not free space after deletes"
    );
    assert_eq!(
        outcome_of(vec![PartitionAction::CreateEsp { start_bytes: 0 }], same(plain)),
        "create-esp range is not free space after deletes"
    );
    assert_eq!(
        outcome_of(vec![PartitionAction::CreateEsp { start_bytes: 3 * GIB }], same(plain)),
        "created ESP not found after append"
    );
    fn roomy() -> DiskInfo {
        disk(Vec::new(), vec![Gap { start_bytes: 0, size_bytes: 60 * GIB }])
    }
    assert_eq!(
        outcome_of(vec![create(0, Some(9 * GIB))], same(roomy)),
        "created root not found after append"
    );
}

// ---------- steps ----------

fn parts(boot: Option<&str>, format_esp: bool) -> PartitionSet {
    PartitionSet {
        esp: String::from("/dev/vdb1"),
        format_esp,
        boot: boot.map(str::to_owned),
        root: String::from("/dev/vdb3"),
    }
}

#[test]
fn boot_filesystems_are_formatted() {
    assert_eq!(
        work_shown(&steps::format(&parts(Some("/dev/vdb2"), true))),
        vec![
            "run mkfs.fat -F32 -n ESP /dev/vdb1",
            "run mkfs.ext4 -F -L boot /dev/vdb2",
        ]
    );
    assert_eq!(
        work_shown(&steps::format(&parts(None, false))),
        vec!["note keeping existing ESP /dev/vdb1 unformatted"]
    );
}

#[test]
fn the_target_is_mounted_with_and_without_boot() {
    assert_eq!(
        work_shown(&mount::run("/dev/vdb3", &parts(Some("/dev/vdb2"), true))),
        vec![
            "mkdir /run/cosmonaut/target",
            "run mount -t btrfs /dev/vdb3 /run/cosmonaut/target",
            "mkdir /run/cosmonaut/target/boot",
            "run mount -t ext4 /dev/vdb2 /run/cosmonaut/target/boot",
            "mkdir /run/cosmonaut/target/boot/efi",
            "run mount -t vfat -o umask=0077 /dev/vdb1 /run/cosmonaut/target/boot/efi",
        ]
    );
    let without = mount::run("/dev/vdb3", &parts(None, true));
    assert_eq!(without.len(), 5);
    match &without[1] {
        Work::Run(c) => assert_eq!(c.context, "mount /dev/vdb3 → /run/cosmonaut/target"),
        other => panic!("unexpected {other:?}"),
    }
}

#[test]
fn the_hostname_is_written_bare() {
    assert_eq!(
        work_shown(&steps::hostname("  my host \n")),
        vec![
            "mkdir /run/cosmonaut/target/etc",
            "write /run/cosmonaut/target/etc/hostname \"my host\\n\"",
        ]
    );
}

#[test]
fn finalizing_trims_and_tears_down() {
    assert_eq!(
        work_shown(&steps::finalize(true)),
        vec![
            "try fstrim -v /run/cosmonaut/target",
            "quiet umount -R /run/cosmonaut/target",
            "quiet umount -Rl /run/cosmonaut/target",
            "quiet cryptsetup luksClose cosmonaut-root",
        ]
    );
    assert_eq!(steps::finalize(false).len(), 3);
    assert_eq!(
        work_shown(&steps::preflight()),
        vec![
            "quiet umount -R /run/cosmonaut/target",
            "quiet umount -Rl /run/cosmonaut/target",
            "quiet cryptsetup luksClose cosmonaut-root",
            "try udevadm settle",
        ]
    );
}

#[test]
fn failures_show_their_context() {
    let c = Command::new("sfdisk", Vec::new(), "sfdisk --append");
    assert_eq!(c.failure(&Mishap::NotStarted), "sfdisk --append");
    let bare = Command::new("fstrim", vec![String::from("-v")], "");
    assert_eq!(bare.log_line(), "+ fstrim -v");
    assert_eq!(bare.failure(&Mishap::NotStarted), "spawning fstrim");
    assert_eq!(
        bare.failure(&Mishap::Broken(String::from("waiting for child"))),
        "waiting for child"
    );
    assert_eq!(
        bare.failure(&Mishap::Exited(String::from("exit status: 1"))),
        "fstrim exited with exit status: 1"
    );
    assert_eq!(
        bare.failure(&Mishap::Complained {
            status: String::from("exit status: 2"),
            stderr: String::from("\n no such device \n"),
        }),
        "fstrim exited with exit status: 2; stderr: no such device"
    );
}

#[test]
fn passphrases_go_in_over_stdin() {
    let e = Encryption::LuksPassphrase { passphrase: String::from("s3cret") };
    let commands = luks::open("/dev/vdb3", &e).unwrap();
    assert_eq!(
        all_shown(&commands),
        vec![
            "cryptsetup luksFormat --type luks2 --batch-mode --key-file - /dev/vdb3",
            "cryptsetup luksOpen --allow-discards --key-file - /dev/vdb3 cosmonaut-root",
        ]
    );
    for c in &commands {
        assert_eq!(c.stdin.as_deref(), Some("s3cret"));
        assert!(!c.log_line().contains("s3cret"));
    }
    let e = Encryption::Tpm2LuksPassphrase { passphrase: String::from("s3cret") };
    let commands = luks::open("/dev/vdb3", &e).unwrap();
    assert_eq!(
        shown(&commands[2]),
        "systemd-cryptenroll --tpm2-device=auto --tpm2-pcrs=7 /dev/vdb3"
    );
    assert_eq!(commands.len(), 3);
    assert_eq!(
        luks::open("/dev/vdb3", &Encryption::Unencrypted),
        Err(String::from("luks::open called with Encryption::None"))
    );
}

#[test]
fn tpm_only_volumes_lose_their_throwaway_key() {
    let first = luks::open("/dev/vdb3", &Encryption::Tpm2Luks).unwrap();
    let second = luks::open("/dev/vdb3", &Encryption::Tpm2Luks).unwrap();
    let key = first[0].stdin.clone().unwrap();
    assert_eq!(key.len(), 36);
    for (i, c) in key.chars().enumerate() {
        if i == 8 || i == 13 || i == 18 || i == 23 {
            assert_eq!(c, '-');
        } else {
            assert!(c.is_ascii_hexdigit() && !c.is_ascii_uppercase());
        }
    }
    assert_eq!(key.as_bytes()[14], b'4');
    assert!(matches!(key.as_bytes()[19], b'8' | b'9' | b'a' | b'b'));
    assert_eq!(shown(&first[3]), "cryptsetup luksRemoveKey --key-file - /dev/vdb3");
    assert!(first.iter().all(|c| c.stdin.as_deref() == Some(&*key)));
    assert_ne!(second[0].stdin, first[0].stdin);
}

// ---------- boot entries ----------

#[test]
fn the_argument_is_added_to_options() {
    let karg = bls::karg("1234-5678");
    assert_eq!(karg, "rd.luks.name=1234-5678=root");
    let entry = "title COSMIC\noptions quiet  rw\nlinux /vmlinuz\n";
    let once = bls::inject(entry, &karg);
    assert_eq!(
        once,
        "title COSMIC\noptions quiet  rw rd.luks.name=1234-5678=root\nlinux /vmlinuz\n"
    );
    assert_eq!(bls::inject(&once, &karg), once);
}

#[test]
fn entries_without_options_get_a_line() {
    let karg = bls::karg("u");
    assert_eq!(
        bls::inject("title X\r\nlinux /v", &karg),
        "title X\nlinux /v\noptions rd.luks.name=u=root\n"
    );
    assert_eq!(bls::inject("", &karg), "options rd.luks.name=u=root\n");
    // Only whole words count, and only lines that start with the key.
    assert_eq!(
        bls::inject("options rd.luks.name=u=rootfs\n options x\n", &karg),
        "options rd.luks.name=u=rootfs rd.luks.name=u=root\n options x\n"
    );
}

#[test]
fn entries_are_found_on_the_esp_first() {
    assert_eq!(
        bls::entries_dir(true, true),
        Ok("/run/cosmonaut/target/boot/efi/loader/entries")
    );
    assert_eq!(
        bls::entries_dir(false, true),
        Ok("/run/cosmonaut/target/boot/loader/entries")
    );
    assert_eq!(
        bls::entries_dir(false, false),
        Err(String::from(
            "no BLS entries directory at /run/cosmonaut/target/boot/efi/loader/entries or \
             /run/cosmonaut/target/boot/loader/entries — bootc install may not have written \
             entries yet"
        ))
    );
    assert!(bls::is_entry("bootc_cosmic-1.conf"));
    assert!(!bls::is_entry(".conf"));
    assert!(!bls::is_entry("x.conf.bak"));
    assert_eq!(bls::check_touched(1, "/d"), Ok(()));
    assert_eq!(
        bls::check_touched(0, "/d"),
        Err(String::from("no BLS entries found under /d"))
    );
}

// ---------- the pipeline ----------

fn answer(order: &Order) -> Reply {
    match order {
        Order::Partition => Reply::Partitioned(parts(Some("/dev/vdb2"), true)),
        Order::Capture(c) if c.program == "skopeo" => {
            Reply::Captured(String::from("{\"layers\":[1,2]}\n"))
        }
        Order::Capture(_) => Reply::Captured(String::from("dead-beef\n")),
        _ => Reply::Done,
    }
}

struct Run {
    phases: Vec<Phase>,
    steps: Vec<(Step, String)>,
    percents: Vec<u8>,
    logs: Vec<String>,
    teardowns: usize,
    end: Result<(), EngineError>,
}

fn run(spec: InstallSpec, fail_at: Option<Phase>, cancel_at: Option<Phase>) -> Run {
    let (mut p, mut turn) = Pipeline::start(spec);
    let mut r = Run {
        phases: Vec::new(),
        steps: Vec::new(),
        percents: Vec::new(),
        logs: Vec::new(),
        teardowns: 0,
        end: Ok(()),
    };
    loop {
        for e in turn.events {
            match e {
                Event::StepChanged { step, detail } => r.steps.push((step, detail)),
                Event::Progress { percent, .. } => r.percents.push(percent),
                Event::Log { line, .. } => r.logs.push(line),
            }
        }
        r.phases.push(p.phase);
        if p.phase == Phase::Teardown {
            r.teardowns += 1;
        }
        if let Order::Finish(end) = turn.order {
            r.end = end;
            return r;
        }
        let cancelled = cancel_at == Some(p.phase);
        let reply = if fail_at == Some(p.phase) {
            Reply::Failed(String::from("broke"))
        } else if cancelled && (p.phase == Phase::Copy || p.phase == Phase::Install) {
            Reply::Interrupted
        } else {
            answer(&turn.order)
        };
        turn = p.next(reply, cancelled);
    }
}

#[test]
fn a_plain_install_runs_through() {
    let r = run(spec(Encryption::Unencrypted, PartitionPlan::EraseDisk), None, None);
    assert_eq!(r.end, Ok(()));
    assert_eq!(r.teardowns, 1);
    let details: Vec<String> = r
        .steps
        .iter()
        .map(|(s, d)| format!("{}: {d}", s.as_str()))
        .collect();
    assert_eq!(
        details,
        vec![
            "partition: partitioning /dev/vdb (erase whole disk)",
            "format: formatting boot filesystems",
            "mkfs: mkfs.btrfs on /dev/vdb3",
            "mount: mounting target",
            "bootc: installing ngcr.io/razorfinos/cosmic:nightly",
            "hostname: setting hostname to cosmic",
            "finalize: fstrim + unmount",
        ]
    );
    assert_eq!(r.percents, vec![2, 4, 8, 9, 10, 75, 90, 95]);
    assert_eq!(r.logs, vec!["preflight: clearing stale mounts/mappers"]);
}

#[test]
fn an_encrypted_install_unlocks_at_boot() {
    let r = run(spec(Encryption::Tpm2Luks, PartitionPlan::EraseDisk), None, None);
    assert_eq!(r.end, Ok(()));
    let details: Vec<&str> = r.steps.iter().map(|(_, d)| d.as_str()).collect();
    assert!(details.contains(&"mkfs.btrfs on /dev/mapper/cosmonaut-root"));
    assert!(details.contains(&"injecting rd.luks.name=dead-beef=root"));
    let steps: Vec<Step> = r.steps.iter().map(|(s, _)| *s).collect();
    assert_eq!(
        steps,
        vec![
            Step::Partition,
            Step::Format,
            Step::Luks,
            Step::Mkfs,
            Step::Mount,
            Step::Bootc,
            Step::Hostname,
            Step::Bls,
            Step::Finalize,
        ]
    );
    assert_eq!(r.percents, vec![2, 4, 6, 8, 9, 10, 75, 90, 93, 95]);
}

#[test]
fn every_failure_tears_down_and_names_its_step() {
    let cases = [
        (Phase::Partition, "partition: broke"),
        (Phase::Format, "format: broke"),
        (Phase::Luks, "luks: broke"),
        (Phase::Mkfs, "mkfs: broke"),
        (Phase::Mount, "mount: broke"),
        (Phase::Scratch, "bootc: broke"),
        (Phase::Copy, "bootc: broke"),
        (Phase::Install, "bootc: broke"),
        (Phase::Hostname, "hostname: broke"),
        (Phase::Uuid, "luks: broke"),
        (Phase::Bls, "bls: broke"),
        (Phase::Finalize, "finalize: broke"),
    ];
    for (phase, shown) in cases {
        let e = Encryption::LuksPassphrase { passphrase: String::from("p") };
        let r = run(spec(e, PartitionPlan::EraseDisk), Some(phase), None);
        assert_eq!(r.end.unwrap_err().message(), shown);
        assert_eq!(r.teardowns, 1);
        assert_eq!(
            r.logs[1],
            format!("pipeline failed: {shown}; running cleanup")
        );
    }
    // An image that cannot be inspected only hides the progress.
    let r = run(
        spec(Encryption::Unencrypted, PartitionPlan::EraseDisk),
        Some(Phase::Inspect),
        None,
    );
    assert_eq!(r.end, Ok(()));
}

#[test]
fn cancelling_ends_as_cancelled() {
    for phase in [
        Phase::Preflight,
        Phase::Partition,
        Phase::Format,
        Phase::Luks,
        Phase::Mkfs,
        Phase::Mount,
        Phase::Copy,
        Phase::Install,
        Phase::Hostname,
        Phase::Bls,
    ] {
        let e = Encryption::LuksPassphrase { passphrase: String::from("p") };
        let r = run(spec(e, PartitionPlan::EraseDisk), None, Some(phase));
        assert_eq!(r.end, Err(EngineError::Cancelled), "{phase:?}");
        assert_eq!(r.teardowns, 1);
    }
    // Too late: the last step has run.
    let r = run(
        spec(Encryption::Unencrypted, PartitionPlan::EraseDisk),
        None,
        Some(Phase::Finalize),
    );
    assert_eq!(r.end, Ok(()));
}

#[test]
fn an_invalid_request_does_nothing() {
    let mut s = spec(Encryption::Unencrypted, PartitionPlan::EraseDisk);
    s.image = String::new();
    let r = run(s, None, None);
    assert_eq!(r.phases, vec![Phase::Over]);
    assert!(r.logs.is_empty());
    assert_eq!(
        r.end,
        Err(EngineError::InvalidSpec(String::from("image must be non-empty")))
    );
}

#[test]
fn replies_and_stages_are_told_apart() {
    let custom = PartitionPlan::Custom { actions: vec![] };
    assert!(!belongs(&PartitionPlan::EraseDisk, &Stage::FreeProbed));
    assert!(!belongs(&custom, &Stage::FreeProbed));
    assert!(belongs(&custom, &Stage::CustomProbed));
    assert!(belongs(&custom, &Stage::CustomDeleted { sector_size: 512 }));
    assert!(!belongs(&custom, &Stage::CustomDeleted { sector_size: 0 }));
    assert!(belongs(
        &PartitionPlan::FreeSpace { gap_start_bytes: GIB, gap_size_bytes: 20 * GIB },
        &Stage::FreeProbed
    ));

    let (p, _) = Pipeline::start(spec(Encryption::Unencrypted, PartitionPlan::EraseDisk));
    assert_eq!(p.phase, Phase::Preflight);
    assert!(p.accepts(&Reply::Done));
    assert!(!p.accepts(&Reply::Interrupted));
    assert!(!p.accepts(&Reply::Captured(String::new())));
}

fn refused_without_a_command(actions: Vec<PartitionAction>, info: &DiskInfo) -> String {
    let plan = PartitionPlan::Custom { actions };
    let stage = begin("/dev/vdb", &plan).0.unwrap();
    match proceed("/dev/vdb", &plan, &stage, Ok(info)) {
        (None, Request::Conclude(commands, Err(m))) => {
            assert_eq!(commands, Vec::new());
            m
        }
        other => panic!("unexpected {other:?}"),
    }
}

#[test]
fn custom_plans_are_checked_before_anything_is_deleted() {
    let delete = || PartitionAction::Delete { device: device("/dev/vdb2") };
    let use_root = |d: &str| PartitionAction::UseAsRoot { device: device(d) };
    let mut mounted = part("/dev/vdb3", 3, 4 * GIB, 10 * GIB);
    mounted.mounted = true;
    let info = disk(
        vec![
            with_esp(part("/dev/vdb1", 1, MIB, 512 * MIB)),
            part("/dev/vdb2", 2, GIB, 3 * GIB),
            mounted,
            part("/dev/vdb4", 4, 14 * GIB, 2 * GIB),
        ],
        vec![Gap { start_bytes: 16 * GIB, size_bytes: 40 * GIB }],
    );
    assert_eq!(
        refused_without_a_command(vec![delete(), use_root("/dev/vdb9")], &info),
        "/dev/vdb9 vanished mid-plan"
    );
    assert_eq!(
        refused_without_a_command(vec![delete(), use_root("/dev/vdb3")], &info),
        "/dev/vdb3 is mounted; refusing to use as root"
    );
    assert_eq!(
        refused_without_a_command(vec![delete(), use_root("/dev/vdb4")], &info),
        "/dev/vdb4 too small for root: 2147483648 < 8589934592"
    );
    assert_eq!(
        refused_without_a_command(
            vec![
                delete(),
                PartitionAction::UseAsEsp { device: device("/dev/vdb3"), format: true },
            ],
            &info
        ),
        "/dev/vdb3 is mounted; refusing to use as ESP"
    );
    let create = |start_bytes: u64, size_bytes: Option<u64>| PartitionAction::CreateRoot {
        start_bytes,
        size_bytes,
    };
    assert_eq!(
        refused_without_a_command(vec![delete(), create(GIB, Some(10 * GIB))], &info),
        "create-root range is not free space after deletes"
    );
    assert_eq!(
        refused_without_a_command(vec![delete(), create(5 * GIB, None)], &info),
        "create-root start is not inside a free gap"
    );
    assert_eq!(
        refused_without_a_command(vec![delete(), create(60 * GIB, Some(10 * GIB))], &info),
        "create-root range is not free space after deletes"
    );
    assert_eq!(
        refused_without_a_command(
            vec![delete(), PartitionAction::CreateEsp { start_bytes: 64 * GIB }],
            &info
        ),
        "create-esp range is not free space after deletes"
    );
    // What a deletion frees can be used.
    let plan = PartitionPlan::Custom {
        actions: vec![delete(), PartitionAction::CreateEsp { start_bytes: 2 * GIB }],
    };
    let stage = begin("/dev/vdb", &plan).0.unwrap();
    match proceed("/dev/vdb", &plan, &stage, Ok(&info)).1 {
        Request::Probe(commands) => assert_eq!(
            all_shown(&commands),
            vec!["sfdisk --delete /dev/vdb 2", "udevadm settle"]
        ),
        other => panic!("unexpected {other:?}"),
    }
}

#[test]
fn a_late_refusal_stamps_and_wipes_nothing() {
    let plan = PartitionPlan::Custom {
        actions: vec![
            PartitionAction::UseAsEsp { device: device("/dev/vdb1"), format: true },
            PartitionAction::UseAsRoot { device: device("/dev/vdb2") },
        ],
    };
    let before = disk(
        vec![part("/dev/vdb1", 1, MIB, 512 * MIB), part("/dev/vdb2", 2, GIB, 9 * GIB)],
        Vec::new(),
    );
    let mut after = disk(
        vec![part("/dev/vdb1", 1, MIB, 512 * MIB), part("/dev/vdb2", 2, GIB, 9 * GIB)],
        Vec::new(),
    );
    after.partitions[1].mounted = true;
    let mut stage = begin("/dev/vdb", &plan).0;
    for _ in 0..2 {
        stage = proceed("/dev/vdb", &plan, &stage.unwrap(), Ok(&before)).0;
    }
    assert_eq!(
        proceed("/dev/vdb", &plan, &stage.unwrap(), Ok(&after)),
        (
            None,
            Request::Conclude(
                Vec::new(),
                Err(String::from("/dev/vdb2 is mounted; refusing to use as root"))
            )
        )
    );
}

#[test]
fn injecting_again_changes_nothing() {
    let karg = bls::karg("abcd");
    for content in [
        "title A\noptions quiet\n",
        "title A\r\noptions quiet\r\r\n",
        "title A\n",
        "options quiet\r",
        "",
    ] {
        let once = bls::inject(content, &karg);
        assert_eq!(bls::inject(&once, &karg), once);
    }
    // A kept line that ends in a carriage return loses it the second time.
    let once = bls::inject("title A\r\r\noptions quiet\n", &karg);
    assert_ne!(bls::inject(&once, &karg), once);
}

#[test]
fn progress_rises_through_the_copy() {
    let (mut p, mut turn) =
        Pipeline::start(spec(Encryption::Unencrypted, PartitionPlan::EraseDisk));
    let mut percents: Vec<u8> = Vec::new();
    loop {
        for e in &turn.events {
            if let Event::Progress { percent, .. } = e {
                percents.push(*percent);
            }
        }
        let reply = match &turn.order {
            Order::Finish(end) => {
                assert_eq!(*end, Ok(()));
                break;
            }
            Order::Capture(_) if p.phase == Phase::Inspect => {
                Reply::Captured(String::from("{\"layers\": [{}, {}, {}]}\n"))
            }
            Order::Copy(_, counter) => {
                assert_eq!(*counter, CopyProgress { copied: 0, total: Some(3) });
                let mut counter = *counter;
                for _ in 0..5 {
                    let line = String::from("Copying blob sha256:0");
                    let e = Event::Log { stream: LogStream::Stdout, line };
                    if let Some(Event::Progress { percent, .. }) = counter.observe(&e) {
                        percents.push(percent);
                    }
                }
                Reply::Done
            }
            order => answer(order),
        };
        turn = p.next(reply, false);
    }
    assert_eq!(percents, vec![2, 4, 8, 9, 10, 31, 53, 75, 75, 75, 75, 90, 95]);
}
