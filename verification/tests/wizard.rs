use cosmonaut::app::{
    install_outcome, App, DaemonEvent, Effect, LinkStage, Message, REBOOT_COUNTDOWN_SECS,
};
use cosmonaut::branding::{self, Branding, BrandingFile, Slide};
use cosmonaut::choices::{EncryptionChoice, PartitionModeChoice};
use cosmonaut::cli::{closing_line, derive_encryption, requested_spec, Options, Signal};
use cosmonaut::disk_bar::{
    bar, legend, segments_current, segments_erase, sizes_fit, weight, BarSegment, SegRole,
};
use cosmonaut::images_json::{self, Catalog, ImageOption, Node};
use cosmonaut::install::{
    validate_spec, Encryption, InstallSpec, PartitionAction, PartitionPlan, ESP_BYTES,
};
use cosmonaut::layout::{label_of, LayoutMsg, LayoutUiState, RowRole};
use cosmonaut::logbuf::push_log;
use cosmonaut::pages::{
    confirm_description, countdown_caption, disk_caption, disk_detail, disk_icon,
    encryption_complete, eyebrow, failure_caption, free_space_hint, free_space_offered, gap_option,
    image_caption, layout_caption, mode_description, partition_row, percent_label,
    planned_preview, progress_caption, rail_index, rail_label, rail_mark, report_path,
    saved_caption, segments_free_space, step_blurb, DiskExt, Page, RailMark, RAIL_LEN,
};
use cosmonaut::path::{file_name, paths_equal, under_dev};
use cosmonaut::probe::{DetectedOs, DiskInfo, Gap, OsKind, PartitionInfo};
use cosmonaut::wifi_page::{
    connection_settings, network_row, network_sections, nothing_visible, wifi_icon, AccessPoint,
    NetworkState, NetworkType, NmRequest, RowAction, StoredConnection, WifiDialog, WifiEffect,
    WifiMsg, WifiUiState,
};
use secure_string::SecureString;

const GIB: u64 = 1024 * 1024 * 1024;
const MIB: u64 = 1024 * 1024;
const ESP_GUID: &str = "c12a7328-f81f-11d2-ba4b-00a0c93ec93b";

fn some(s: &str) -> Option<String> {
    Some(String::from(s))
}

fn part(path: &str, number: u32, start_bytes: u64, size_bytes: u64) -> PartitionInfo {
    PartitionInfo {
        path: String::from(path),
        number,
        start_bytes,
        size_bytes,
        fstype: None,
        label: None,
        part_type: None,
        part_uuid: None,
        fs_uuid: None,
        mounted: false,
        detected_os: None,
    }
}

fn disk(partitions: Vec<PartitionInfo>, gaps: Vec<Gap>) -> DiskInfo {
    DiskInfo {
        path: String::from("/dev/vdb"),
        model: String::from("virtio-disk"),
        size_bytes: 64 * GIB,
        removable: false,
        rotational: false,
        table: some("gpt"),
        sector_size: 512,
        partitions,
        gaps,
    }
}

fn esp() -> PartitionInfo {
    let mut p = part("/dev/vdb1", 1, MIB, 512 * MIB);
    p.part_type = some(ESP_GUID);
    p.fstype = some("vfat");
    p
}

fn sample_disk() -> DiskInfo {
    let mut data = part("/dev/vdb2", 2, GIB, 10 * GIB);
    data.label = some("data");
    disk(
        vec![esp(), data],
        vec![
            Gap { start_bytes: 11 * GIB, size_bytes: 2 * GIB },
            Gap { start_bytes: 20 * GIB, size_bytes: 40 * GIB },
        ],
    )
}

// ---------- paths and logs ----------

#[test]
fn paths_compare_by_component() {
    assert!(paths_equal("/dev/vdb3", "/dev//vdb3/"));
    assert!(paths_equal("/dev/./vdb3", "/dev/vdb3"));
    assert!(!paths_equal("/dev/vdb3", "dev/vdb3"));
    assert!(!paths_equal("/dev/../vdb3", "/vdb3"));
    assert!(under_dev("/dev/sda") && under_dev("/dev"));
    assert!(!under_dev("dev/sda") && !under_dev("/device"));
    assert_eq!(file_name("/dev/sda1/"), some("sda1"));
    assert_eq!(file_name("/"), None);
    assert_eq!(file_name("a/.."), None);
}

#[test]
fn logs_are_cut_by_whole_lines() {
    let mut log = String::new();
    push_log(&mut log, "stdout", "one");
    push_log(&mut log, "stderr", "two");
    assert_eq!(log, "[stdout] one\n[stderr] two\n");
    let mut last = String::new();
    for i in 0..3000 {
        let line = format!("line {i} — zwölf Boxkämpfer");
        push_log(&mut log, "stdout", &line);
        last = line;
    }
    assert!(log.len() <= 32 * 1024);
    assert!(log.len() > 32 * 1024 - 64);
    assert!(log.starts_with("[stdout] line "));
    assert!(log.ends_with(&format!("[stdout] {last}\n")));
    // A line longer than the buffer leaves nothing.
    push_log(&mut log, "stdout", &"x".repeat(40000));
    assert!(log.is_empty());
}

#[test]
fn the_cut_is_behind_the_first_newline_that_is_far_enough() {
    let mut log = format!("{}\n{}\n", "a".repeat(100), "b".repeat(32768 - 103));
    assert_eq!(log.len(), 32767);
    push_log(&mut log, "s", "t");
    // Five bytes too many: the whole first line goes.
    assert!(log.starts_with("bbb"));
    assert!(log.ends_with("b\n[s] t\n"));
}

// ---------- catalog and branding ----------

fn leaf(name: &str, imgref: &str) -> Node {
    Node { name: String::from(name), desc: None, imgref: some(imgref), children: None }
}

fn catalog(default_image: Option<&str>) -> Catalog {
    Catalog {
        default_image: default_image.map(str::to_owned),
        images: vec![
            leaf("a", "ref/a"),
            Node {
                name: String::from("branch"),
                desc: some("both"),
                imgref: some("ref/branch"),
                children: Some(vec![leaf("b", "ref/b"), leaf("c", "ref/c")]),
            },
        ],
    }
}

#[test]
fn leaves_come_in_source_order() {
    let images = catalog(None).leaves();
    let refs: Vec<&str> = images.iter().map(|i| i.imgref.as_str()).collect();
    assert_eq!(refs, vec!["ref/a", "ref/branch", "ref/b", "ref/c"]);
    assert_eq!(images[0].label(), "a");
    assert_eq!(images[1].label(), "branch\nboth");
    assert_eq!(images_json::find_image(&images, "ref/b"), Some(2));
    assert_eq!(images_json::find_image(&images, "ref/z"), None);
    assert_eq!(
        images_json::search_paths(&some("/x.json")),
        vec![
            "/x.json",
            "/etc/cosmonaut-installer/images.json",
            "/etc/bootc-installer/images.json"
        ]
    );
    assert_eq!(images_json::search_paths(&some("")).len(), 2);
}

#[test]
fn branding_falls_back_to_the_default() {
    let b = Branding::choose_file(vec![None, None]);
    assert_eq!(b, Branding::default());
    assert_eq!(b.installer_title, "COSMIC Installer");
    assert_eq!(b.welcome_title, "Welcome to COSMIC");
    assert_eq!(
        b.welcome_body,
        "This installer will set up COSMIC on the disk you choose. Existing data on that disk \
         will be erased."
    );
    let file = |name: Option<&str>| BrandingFile {
        name: name.map(str::to_owned),
        slides: vec![Slide { title: String::from("t"), body: String::from("b") }],
    };
    let b = Branding::choose_file(vec![None, Some(file(Some("RazorfinOS"))), Some(file(None))]);
    assert_eq!(b.name, "RazorfinOS");
    assert_eq!(b.slides.len(), 1);
    assert_eq!(Branding::from_file(file(Some("  "))).name, "COSMIC");
    assert_eq!(
        branding::search_paths(&None),
        vec![
            "/etc/cosmonaut-installer/branding.json",
            "/usr/share/cosmonaut-installer/branding.json"
        ]
    );
    assert_eq!(eyebrow("Razorfin os"), "RAZORFIN OS INSTALLER");
    assert_eq!(eyebrow("straße"), "STRASSE INSTALLER");
}

// ---------- disk bar ----------

#[test]
fn weights_match_floating_point() {
    let mut seed: u64 = 7;
    for i in 0..3000u32 {
        seed = seed.wrapping_mul(6364136223846793005).wrapping_add(1442695040888963407);
        let total = (seed >> (i % 60)).max(1);
        seed = seed.wrapping_mul(6364136223846793005).wrapping_add(1442695040888963407);
        let size = seed % total.saturating_add(1).max(1);
        let expected = (((size as f64 / total as f64) * 1000.0) as u16).max(18);
        assert_eq!(weight(size, total), expected, "{size} of {total}");
    }
    assert_eq!(weight(0, 5), 18);
    assert_eq!(weight(5, 5), 1000);
}

#[test]
fn the_disk_is_shown_in_order_with_its_rest() {
    let d = sample_disk();
    let segments = segments_current(&d);
    let labels: Vec<&str> = segments.iter().map(|s| s.label.as_str()).collect();
    assert_eq!(labels, vec!["vfat", "data", "free space", "free space"]);
    let strip = bar(&segments, d.size_bytes);
    assert_eq!(strip.len(), 5);
    assert_eq!(strip[4].0, SegRole::Free);
    let chips = legend(&segments, d.size_bytes);
    assert_eq!(chips[1].text, "data · 10 GiB");
    assert_eq!(chips[4].text, "unallocated · 11.5 GiB");
    let full = vec![BarSegment {
        label: String::from("x"),
        size_bytes: 64 * GIB - 8 * MIB,
        role: SegRole::Root,
    }];
    assert_eq!(bar(&full, 64 * GIB).len(), 1);
}

#[test]
fn erasing_is_previewed_with_saturation() {
    let mut d = sample_disk();
    let s = segments_erase(&d);
    assert_eq!(s[0].size_bytes, 512 * MIB);
    assert_eq!(s[1].size_bytes, GIB);
    assert_eq!(s[2].size_bytes, 64 * GIB - GIB - 512 * MIB);
    assert_eq!(s[2].label, "new system");
    d.size_bytes = GIB;
    assert_eq!(segments_erase(&d)[2].size_bytes, 0);
}

// ---------- layout ----------

fn layout_for(d: &DiskInfo) -> LayoutUiState {
    let mut l = LayoutUiState::default();
    l.reset_for(d);
    l
}

#[test]
fn a_layout_starts_with_the_esp_and_the_largest_gap() {
    let l = layout_for(&sample_disk());
    assert_eq!(l.roles, vec![RowRole::EspKeep, RowRole::Leave]);
    assert_eq!(l.gap_idx, Some(1));
    assert_eq!(
        l.validate(),
        Ok(String::from("new 40 GiB root in free space, ESP on /dev/vdb1 (kept)"))
    );
    assert_eq!(
        l.to_actions(),
        vec![
            PartitionAction::UseAsEsp { device: String::from("/dev/vdb1"), format: false },
            PartitionAction::CreateRoot {
                start_bytes: 20 * GIB,
                size_bytes: Some(40 * GIB),
            },
        ]
    );
}

#[test]
fn picked_roles_are_single() {
    let mut l = layout_for(&sample_disk());
    l.update(LayoutMsg::RoleSelected(1, RowRole::EspFormat.index()));
    assert_eq!(l.roles, vec![RowRole::Leave, RowRole::EspFormat]);
    l.update(LayoutMsg::RoleSelected(0, RowRole::Root.index()));
    assert_eq!(l.gap_idx, None);
    l.update(LayoutMsg::RoleSelected(1, RowRole::Root.index()));
    assert_eq!(l.roles, vec![RowRole::Leave, RowRole::Root]);
    l.update(LayoutMsg::GapSelected(Some(1)));
    assert_eq!(l.roles, vec![RowRole::Leave, RowRole::Leave]);
    l.update(LayoutMsg::RoleSelected(9, 1));
    assert_eq!(l.gap_idx, None);
    l.update(LayoutMsg::RootSizeChanged(String::from("12")));
    l.update(LayoutMsg::RootSizeChanged(String::from("12x")));
    l.update(LayoutMsg::RootSizeChanged(String::from("1234567")));
    assert_eq!(l.root_size_gib, "12");
    for i in 0..7 {
        assert_eq!(RowRole::from_index(RowRole::from_index(i).index()), RowRole::from_index(i));
    }
    assert_eq!(label_of(RowRole::Delete), "Delete");
}

#[test]
fn an_esp_is_carved_out_of_the_gap() {
    let mut d = sample_disk();
    d.partitions[0].part_type = None;
    let mut l = layout_for(&d);
    l.update(LayoutMsg::RootSizeChanged(String::from("30")));
    assert_eq!(
        l.validate(),
        Ok(String::from("new 30 GiB root in free space, new 512 MiB ESP"))
    );
    assert_eq!(
        l.to_actions(),
        vec![
            PartitionAction::CreateEsp { start_bytes: 20 * GIB },
            PartitionAction::CreateRoot {
                start_bytes: 20 * GIB + ESP_BYTES,
                size_bytes: Some(30 * GIB),
            },
        ]
    );
    let planned = l.planned_segments();
    let shown: Vec<(&str, u64)> = planned.iter().map(|s| (s.label.as_str(), s.size_bytes)).collect();
    assert_eq!(
        shown,
        vec![
            ("vfat", 512 * MIB),
            ("data", 10 * GIB),
            ("free space", 2 * GIB),
            ("EFI", ESP_BYTES),
            ("root", 30 * GIB),
            ("free space", 10 * GIB - ESP_BYTES),
        ]
    );
}

#[test]
fn a_gap_without_room_for_an_esp_is_told_apart() {
    let mut d = sample_disk();
    d.gaps[0].size_bytes = ESP_BYTES - 1;
    let mut l = layout_for(&d);
    assert!(l.holds_esp());
    l.update(LayoutMsg::GapSelected(Some(0)));
    assert!(l.holds_esp());
    l.update(LayoutMsg::RoleSelected(0, RowRole::Leave.index()));
    assert!(!l.holds_esp());
    l.update(LayoutMsg::GapSelected(Some(1)));
    assert!(l.holds_esp());
    assert!(LayoutUiState::default().holds_esp());
}

#[test]
fn sizes_that_overflow_are_told_apart() {
    let seg = |size_bytes: u64| BarSegment {
        label: String::from("x"),
        size_bytes,
        role: SegRole::Existing,
    };
    assert!(sizes_fit(&vec![]));
    assert!(sizes_fit(&vec![seg(u64::MAX - 1), seg(1)]));
    assert!(!sizes_fit(&vec![seg(u64::MAX - 1), seg(1), seg(1)]));
}

#[test]
fn bad_layouts_are_named() {
    let problem = |l: &LayoutUiState| l.validate().unwrap_err();
    assert_eq!(problem(&LayoutUiState::default()), "no disk selected");
    let mut l = layout_for(&sample_disk());
    l.update(LayoutMsg::GapSelected(None));
    assert_eq!(
        problem(&l),
        "Choose a root: assign \"Use as root\" to a partition or pick a free-space gap"
    );
    l.update(LayoutMsg::RoleSelected(1, 1));
    assert_eq!(
        l.validate(),
        Ok(String::from("root on /dev/vdb2 (formatted), ESP on /dev/vdb1 (kept)"))
    );
    l.gap_idx = Some(1);
    assert_eq!(problem(&l), "Only one root allowed");
    l.gap_idx = None;
    l.update(LayoutMsg::RoleSelected(0, 0));
    assert_eq!(
        problem(&l),
        "No ESP: assign \"Use as ESP\" to a partition (or create root in a gap so one can be \
         created alongside it)"
    );
    let mut l = layout_for(&sample_disk());
    l.update(LayoutMsg::GapSelected(Some(0)));
    assert_eq!(
        problem(&l),
        "Selected gap is too small (2 GiB; need at least 8 GiB)"
    );
    l.update(LayoutMsg::GapSelected(Some(7)));
    assert_eq!(problem(&l), "selected gap no longer exists");
    l.update(LayoutMsg::GapSelected(Some(1)));
    l.update(LayoutMsg::RootSizeChanged(String::from("3")));
    assert_eq!(problem(&l), "Root size too small (minimum 8 GiB)");
    let mut d = sample_disk();
    d.partitions[1].mounted = true;
    let mut l = layout_for(&d);
    l.update(LayoutMsg::RoleSelected(1, 4));
    assert_eq!(problem(&l), "/dev/vdb2 is mounted and can't be modified");
    l.update(LayoutMsg::RoleSelected(1, 1));
    assert_eq!(problem(&l), "/dev/vdb2 is mounted");
    let mut d = sample_disk();
    d.partitions[1].size_bytes = 7 * GIB;
    let mut l = layout_for(&d);
    l.update(LayoutMsg::RoleSelected(1, 1));
    assert_eq!(problem(&l), "/dev/vdb2 is too small for root (minimum 8 GiB)");
    assert_eq!(layout_caption(&l), (problem(&l), false));
    let mut l = layout_for(&sample_disk());
    l.update(LayoutMsg::RoleSelected(1, 4));
    assert_eq!(
        layout_caption(&l),
        (
            String::from(
                "Plan: new 40 GiB root in free space, ESP on /dev/vdb1 (kept), 1 partition(s) \
                 deleted"
            ),
            true
        )
    );
}

// ---------- pages ----------

#[test]
fn the_rail_tracks_the_decisions() {
    assert_eq!(RAIL_LEN, 5);
    assert_eq!(rail_index(Page::Image), Some(0));
    assert_eq!(rail_index(Page::CustomLayout), Some(2));
    assert_eq!(rail_index(Page::Confirm), Some(4));
    assert_eq!(rail_index(Page::Done), None);
    assert_eq!(rail_label(1), "Network");
    assert_eq!(step_blurb(1), "Get online (or skip)");
    assert_eq!(rail_mark(0, 1), RailMark::Past);
    assert_eq!(rail_mark(1, 1), RailMark::Current);
    assert_eq!(rail_mark(2, 1), RailMark::Ahead);
    assert_eq!(Page::Progress.label(), "Installing");
}

#[test]
fn disks_are_described() {
    let mut d = sample_disk();
    assert_eq!(d.label(), "/dev/vdb  (64 GiB, virtio-disk)");
    assert_eq!(disk_caption(Some(&d)), d.label());
    assert_eq!(disk_caption(None), "?");
    assert_eq!(disk_detail(&d), "2 partition(s): vfat, data — 40 GiB free");
    assert!(free_space_offered(&d));
    d.model = String::new();
    assert_eq!(d.label(), "/dev/vdb  (64 GiB)");
    d.gaps = Vec::new();
    d.partitions[1].detected_os = Some(DetectedOs {
        pretty_name: String::from("Fedora"),
        kind: OsKind::Linux,
    });
    assert_eq!(disk_detail(&d), "2 partition(s): vfat, Fedora");
    assert!(!free_space_offered(&d));
    assert_eq!(disk_detail(&disk(Vec::new(), Vec::new())), "blank disk");
    assert_eq!(disk_icon(true), "drive-removable-media-symbolic");
    assert_eq!(disk_icon(false), "drive-harddisk-system-symbolic");
    assert_eq!(partition_row(&d.partitions[0]), "/dev/vdb1  512 MiB  vfat");
    let mut bare = part("/dev/vdb9", 9, 0, 5);
    bare.mounted = true;
    assert_eq!(partition_row(&bare), "/dev/vdb9  5 B  —  (mounted)");
    assert_eq!(
        gap_option(&Gap { start_bytes: GIB, size_bytes: 2 * GIB }),
        "Create in free space at 1 GiB (2 GiB available)"
    );
    assert_eq!(
        free_space_hint(),
        "Install into free space: unavailable (needs a 8 GiB+ gap)"
    );
    assert_eq!(
        mode_description(PartitionModeChoice::EraseDisk),
        "All data on the chosen disk will be erased."
    );
}

#[test]
fn the_confirmation_names_what_is_lost() {
    let mut d = sample_disk();
    let erase = PartitionModeChoice::EraseDisk;
    assert_eq!(
        confirm_description(erase, Some(&d)),
        "Clicking Install will erase the chosen disk and write the chosen image. This cannot be \
         undone."
    );
    d.partitions[0].detected_os = Some(DetectedOs {
        pretty_name: String::from("Windows Boot Manager"),
        kind: OsKind::Windows,
    });
    d.partitions[1].detected_os = Some(DetectedOs {
        pretty_name: String::from("Fedora"),
        kind: OsKind::Linux,
    });
    assert_eq!(
        confirm_description(erase, Some(&d)),
        "Clicking Install will erase the chosen disk — including Windows Boot Manager, Fedora — \
         and write the chosen image. This cannot be undone."
    );
    assert_eq!(
        confirm_description(PartitionModeChoice::FreeSpace, None),
        "Only the shown free space will be used; existing partitions are not modified."
    );
    let image = ImageOption { name: String::from("n"), desc: None, imgref: String::from("r") };
    assert_eq!(image_caption(Some(&image)), "n");
    assert_eq!(image_caption(None), "?");
}

#[test]
fn free_space_is_previewed() {
    let d = sample_disk();
    let shown: Vec<(String, u64, SegRole)> = segments_free_space(&d)
        .into_iter()
        .map(|s| (s.label, s.size_bytes, s.role))
        .collect();
    assert_eq!(
        shown,
        vec![
            (String::from("vfat"), 512 * MIB, SegRole::Esp),
            (String::from("data"), 10 * GIB, SegRole::Existing),
            (String::from("free space"), 2 * GIB, SegRole::Free),
            (String::from("root"), 40 * GIB, SegRole::Root),
        ]
    );
    let layout = LayoutUiState::default();
    assert_eq!(planned_preview(&d, PartitionModeChoice::EraseDisk, &layout).len(), 3);
    assert!(planned_preview(&d, PartitionModeChoice::Custom, &layout).is_empty());
    let small = disk(Vec::new(), vec![Gap { start_bytes: MIB, size_bytes: GIB }]);
    assert!(segments_free_space(&small).is_empty());
    let fresh = disk(Vec::new(), vec![Gap { start_bytes: MIB, size_bytes: 20 * GIB }]);
    let sizes: Vec<u64> = segments_free_space(&fresh).iter().map(|s| s.size_bytes).collect();
    assert_eq!(sizes, vec![ESP_BYTES, 20 * GIB - ESP_BYTES]);
}

#[test]
fn captions_of_the_last_pages() {
    assert_eq!(progress_caption(&some("bootc"), "x"), "bootc — x");
    assert_eq!(progress_caption(&None, ""), "starting — ");
    assert_eq!(percent_label(Some(7)), "7%");
    assert_eq!(percent_label(None), "…");
    assert_eq!(
        failure_caption(&some("mkfs")),
        "It failed during the “mkfs” step. Nothing has been left mounted; retrying is safe."
    );
    assert_eq!(saved_caption(&None), None);
    assert_eq!(
        saved_caption(&Some(Err(String::from("full")))),
        some("Saving logs failed: full")
    );
    assert_eq!(
        saved_caption(&Some(Ok(String::from("/tmp/x")))),
        some(
            "Logs saved to /tmp/x. The live session is temporary — copy the file to a USB stick \
             or another machine before rebooting."
        )
    );
    assert_eq!(countdown_caption(30), "Restarting in 30 seconds");
    assert_eq!(report_path(1700000000), "/tmp/cosmonaut-install-1700000000.log");
    assert!(encryption_complete(EncryptionChoice::Tpm2Luks, ""));
    assert!(!encryption_complete(EncryptionChoice::LuksPassphrase, ""));
    assert!(encryption_complete(EncryptionChoice::LuksPassphrase, "p"));
}

// ---------- command line ----------

fn options() -> Options {
    Options {
        image: String::from("i"),
        disk: String::from("/dev/vdb"),
        hostname: String::from("h"),
        luks_passphrase: None,
        tpm2_luks: false,
        tpm2_luks_passphrase: None,
        plan: None,
    }
}

#[test]
fn options_make_a_request() {
    let s = requested_spec(options()).unwrap();
    assert_eq!(s.plan, PartitionPlan::EraseDisk);
    assert_eq!(s.encryption, Encryption::Unencrypted);
    assert_eq!((s.image.as_str(), s.disk.as_str(), s.hostname.as_str()), ("i", "/dev/vdb", "h"));
    let mut o = options();
    o.luks_passphrase = some("p");
    o.plan = Some(PartitionPlan::FreeSpace { gap_start_bytes: 1, gap_size_bytes: 2 });
    let s = requested_spec(o).unwrap();
    assert_eq!(s.encryption, Encryption::LuksPassphrase { passphrase: String::from("p") });
    assert_eq!(s.plan, PartitionPlan::FreeSpace { gap_start_bytes: 1, gap_size_bytes: 2 });
    assert_eq!(
        derive_encryption(&some(""), false, &None),
        Err(String::from("--luks-passphrase must be non-empty"))
    );
    assert_eq!(
        derive_encryption(&None, false, &some("")),
        Err(String::from("--tpm2-luks-passphrase must be non-empty"))
    );
    assert_eq!(derive_encryption(&None, true, &None), Ok(Encryption::Tpm2Luks));
    assert_eq!(
        derive_encryption(&None, false, &some("q")),
        Ok(Encryption::Tpm2LuksPassphrase { passphrase: String::from("q") })
    );
}

#[test]
fn signals_are_printed() {
    let s = |t: &str| String::from(t);
    let step = Signal::StepChanged { step: s("mkfs"), detail: s("d") };
    assert_eq!(step.line(), "== step: mkfs :: d");
    assert!(!step.on_stdout());
    let log = Signal::LogLine { stream: s("stdout"), line: s("l") };
    assert_eq!(log.line(), "[stdout] l");
    assert!(log.on_stdout());
    let progress = Signal::Progress { percent: 75, step: s("bootc") };
    assert_eq!(progress.line(), "== progress: 75% (bootc)");
    let ok = Signal::Completed { success: true, error: String::new() };
    assert_eq!(ok.line(), "== completed: ok");
    let bad = Signal::Completed { success: false, error: s("e") };
    assert_eq!(bad.line(), "== completed: error -- e");
    assert_eq!(closing_line(&Ok(())), "== install ok ==");
    assert_eq!(closing_line(&Err(s("e"))), "== install error: e");
}

// ---------- the wizard ----------

fn wizard() -> App {
    App::new(Branding::default(), true, None)
}

fn no_effects(e: &Vec<Effect>) -> bool {
    e.is_empty()
}

fn ready() -> App {
    let mut a = wizard();
    a.update(Message::CatalogLoaded(Ok(Some(catalog(Some("ref/b"))))));
    a.update(Message::DisksLoaded(Ok(vec![sample_disk()])));
    a
}

#[test]
fn pages_follow_each_other() {
    let mut a = ready();
    assert!(no_effects(&a.update(Message::Next)));
    assert_eq!(a.page, Page::Image);
    let e = a.update(Message::Next);
    assert_eq!(a.page, Page::Wifi);
    assert!(matches!(e[0], Effect::Wifi(WifiEffect::LoadSettings)));
    a.update(Message::Back);
    assert_eq!(a.page, Page::Image);
    // The network page asks only once.
    assert!(no_effects(&a.update(Message::Next)));
    a.update(Message::WifiSkip);
    assert_eq!(a.page, Page::Disk);
    a.update(Message::PartitionModeSelected(PartitionModeChoice::Custom));
    a.update(Message::Next);
    assert_eq!(a.page, Page::CustomLayout);
    assert_eq!(a.layout.gap_idx, Some(1));
    a.update(Message::Next);
    assert_eq!(a.page, Page::Encryption);
    a.update(Message::Back);
    assert_eq!(a.page, Page::CustomLayout);
    a.update(Message::Back);
    a.update(Message::PartitionModeSelected(PartitionModeChoice::EraseDisk));
    a.update(Message::Next);
    assert_eq!(a.page, Page::Encryption);
    a.update(Message::Next);
    assert_eq!(a.page, Page::Confirm);
}

#[test]
fn an_empty_catalog_shows_the_image_page() {
    for loaded in [None, Some(Catalog { default_image: None, images: vec![] })] {
        for online in [false, true] {
            let mut a = wizard();
            a.update(Message::WifiOnlineProbed(Ok(online)));
            a.update(Message::CatalogLoaded(Ok(loaded.as_ref().map(|_| Catalog {
                default_image: None,
                images: vec![],
            }))));
            a.update(Message::Next);
            assert_eq!(a.page, Page::Image);
        }
    }
}

#[test]
fn the_first_catalog_file_counts() {
    let chosen = |r: Result<Option<Catalog>, String>| {
        r.map(|c| c.map(|c| c.leaves().iter().map(|l| l.imgref.clone()).collect::<Vec<_>>()))
    };
    let one = |imgref: &str| Catalog { default_image: None, images: vec![leaf("x", imgref)] };
    let bad = || Some(Err(String::from("malformed")));
    assert_eq!(chosen(images_json::choose_catalog(vec![])), Ok(None));
    assert_eq!(chosen(images_json::choose_catalog(vec![None, None])), Ok(None));
    assert_eq!(
        chosen(images_json::choose_catalog(vec![None, Some(Ok(one("a"))), Some(Ok(one("b")))])),
        Ok(Some(vec![String::from("a")]))
    );
    assert_eq!(
        chosen(images_json::choose_catalog(vec![None, bad(), Some(Ok(one("b")))])),
        Err(String::from("malformed"))
    );
}

#[test]
fn one_image_and_a_cable_lead_to_the_disk() {
    let mut a = wizard();
    a.update(Message::CatalogLoaded(Ok(Some(Catalog {
        default_image: None,
        images: vec![leaf("only", "ref/only")],
    }))));
    assert_eq!(a.image_idx, Some(0));
    a.update(Message::WifiOnlineProbed(Ok(true)));
    a.update(Message::Next);
    assert_eq!(a.page, Page::Disk);
    a.update(Message::WifiOnlineProbed(Err(String::from("x"))));
    assert_eq!(a.wifi_online, Some(false));
    a.update(Message::Tpm2Probed(Err(String::from("x"))));
    assert_eq!(a.tpm2_available, Some(false));
    a.update(Message::CatalogLoaded(Ok(None)));
    assert!(a.catalog_loaded);
}

#[test]
fn the_default_image_is_preselected() {
    let a = ready();
    assert_eq!(a.image_idx, Some(2));
    assert_eq!(a.disk_idx, Some(0));
    let mut a = wizard();
    a.update(Message::CatalogLoaded(Ok(Some(catalog(Some("ref/nowhere"))))));
    assert_eq!(a.image_idx, None);
}

#[test]
fn another_disk_drops_the_layout() {
    let mut a = ready();
    a.update(Message::PartitionModeSelected(PartitionModeChoice::Custom));
    a.page = Page::Disk;
    a.update(Message::Next);
    assert!(a.layout.disk.is_some());
    a.update(Message::DiskSelected(0));
    assert!(a.layout.disk.is_some());
    a.update(Message::DiskSelected(1));
    assert!(a.layout.disk.is_none());
    // No such disk: nothing is built and nothing is installed.
    a.page = Page::Disk;
    a.update(Message::Next);
    assert!(a.layout.disk.is_none());
    assert!(no_effects(&a.update(Message::StartInstall)));
    assert!(a.last_spec.is_none());
}

#[test]
fn plans_come_from_the_choices() {
    let mut a = ready();
    assert_eq!(a.build_plan(), Some(PartitionPlan::EraseDisk));
    a.update(Message::PartitionModeSelected(PartitionModeChoice::FreeSpace));
    assert_eq!(
        a.build_plan(),
        Some(PartitionPlan::FreeSpace { gap_start_bytes: 20 * GIB, gap_size_bytes: 40 * GIB })
    );
    a.update(Message::PartitionModeSelected(PartitionModeChoice::Custom));
    assert_eq!(a.build_plan(), None);
    a.page = Page::Disk;
    a.update(Message::Next);
    assert!(matches!(a.build_plan(), Some(PartitionPlan::Custom { .. })));
    a.update(Message::EncryptionSelected(EncryptionChoice::LuksPassphrase));
    a.update(Message::PassphraseChanged(String::from("pw")));
    let s = a.build_install_spec().unwrap();
    assert_eq!(s.encryption, Encryption::LuksPassphrase { passphrase: String::from("pw") });
    assert_eq!(s.image, "ref/b");
    assert_eq!(s.disk, "/dev/vdb");
    assert_eq!(s.hostname, "cosmic");
    a.update(Message::EncryptionSelected(EncryptionChoice::Tpm2Luks));
    assert_eq!(a.passphrase, "");
    assert_eq!(EncryptionChoice::Tpm2Luks.label(), "LUKS — TPM2 only");
}

fn step(name: &str) -> Message {
    Message::DaemonEvent(DaemonEvent::Step {
        step: String::from(name),
        detail: String::from("d"),
    })
}

#[test]
fn a_successful_install_counts_down() {
    let mut a = ready();
    let e = a.update(Message::StartInstall);
    assert!(matches!(e[0], Effect::BeginInstall));
    assert_eq!(e.len(), 1);
    assert_eq!(a.page, Page::Progress);
    assert!(a.cancel_enabled());
    a.update(step("mount"));
    assert!(a.cancel_enabled());
    a.update(step("bootc"));
    assert!(!a.cancel_enabled());
    for p in [10, 40, 20, 75, 74] {
        a.update(Message::DaemonEvent(DaemonEvent::Progress { percent: p }));
    }
    assert_eq!(a.install_percent, Some(75));
    a.update(Message::DaemonEvent(DaemonEvent::Log {
        stream: String::from("stdout"),
        line: String::from("hi"),
    }));
    assert_eq!(a.install_log, "[stdout] hi\n");
    let e = a.update(Message::DaemonEvent(install_outcome(Ok(Ok(())))));
    assert!(matches!(e[0], Effect::RebootTimer));
    assert_eq!((a.page, a.install_percent), (Page::Done, Some(100)));
    assert_eq!(a.reboot_countdown, Some(REBOOT_COUNTDOWN_SECS));
    for _ in 1..REBOOT_COUNTDOWN_SECS {
        assert!(matches!(a.update(Message::RebootTick)[0], Effect::RebootTimer));
    }
    assert_eq!(a.reboot_countdown, Some(1));
    assert!(matches!(a.update(Message::RebootTick)[0], Effect::Reboot));
    assert_eq!(a.reboot_countdown, Some(0));
    assert!(matches!(a.update(Message::RebootNow)[0], Effect::Reboot));
    assert!(matches!(a.update(Message::Quit)[0], Effect::Exit));
}

#[test]
fn a_failed_install_is_reported_and_retried() {
    let mut a = ready();
    a.update(Message::EncryptionSelected(EncryptionChoice::LuksPassphrase));
    a.update(Message::PassphraseChanged(String::from("hunter2")));
    a.update(Message::StartInstall);
    let e = a.update(Message::CancelInstall);
    assert!(matches!(e[0], Effect::SendCancel));
    assert!(no_effects(&a.update(Message::CancelInstall)));
    a.update(step("mkfs"));
    a.update(Message::DaemonEvent(DaemonEvent::Log {
        stream: String::from("stderr"),
        line: String::from("bad"),
    }));
    let e = a.update(Message::DaemonEvent(install_outcome(Ok(Err(String::from("mkfs: x"))))));
    assert!(no_effects(&e));
    assert_eq!(a.page, Page::Done);
    assert_eq!(a.failed_step, some("mkfs"));
    let report = "cosmonaut-installer failure report\nimage: ref/b\ndisk: /dev/vdb\nhostname: \
                  cosmic\nencryption: LUKS — passphrase\nfailed step: mkfs\nerror: mkfs: x\n\n--- \
                  log (tail) ---\n[stderr] bad\n";
    assert_eq!(a.failure_report(), report);
    assert!(!report.contains("hunter2"));
    match &a.update(Message::CopyLogs)[0] {
        Effect::CopyText(t) => assert_eq!(t, report),
        other => panic!("unexpected {other:?}"),
    }
    match &a.update(Message::SaveLogs)[0] {
        Effect::SaveText(t) => assert_eq!(t, report),
        other => panic!("unexpected {other:?}"),
    }
    a.update(Message::LogsSaved(Ok(String::from("/tmp/x"))));
    assert_eq!(a.logs_saved, Some(Ok(String::from("/tmp/x"))));
    let e = a.update(Message::RetryInstall);
    assert!(matches!(e[0], Effect::BeginInstall));
    assert_eq!(a.page, Page::Progress);
    assert_eq!(a.install_log, "");
    assert_eq!((a.failed_step.clone(), a.logs_saved.clone()), (None, None));
    assert_eq!(a.last_spec.as_ref().unwrap().image, "ref/b");
    a.update(Message::DaemonEvent(LinkStage::Bus.failure("gone")));
    assert_eq!(a.install_error, "DBus: connecting to system bus: gone");
    assert_eq!(a.failed_step, None);
    assert!(a.failure_report().contains("failed step: (before first step)\n"));
}

#[test]
fn retrying_without_an_install_does_nothing() {
    let mut a = wizard();
    assert!(no_effects(&a.update(Message::RetryInstall)));
    assert!(no_effects(&a.update(Message::RebootTick)));
    assert!(matches!(a.update(Message::RefreshDisks)[0], Effect::ProbeDisks));
    assert_eq!(
        install_outcome(Err(String::from("panic"))),
        DaemonEvent::Completed {
            success: false,
            error: String::from("install task join: panic"),
        }
    );
}

#[test]
fn slides_turn_while_an_install_runs() {
    let slide = |t: &str| Slide { title: String::from(t), body: String::new() };
    let mut a = ready();
    a.branding.slides = vec![slide("one"), slide("two")];
    let e = a.update(Message::StartInstall);
    assert!(matches!(e[1], Effect::SlideTimer));
    assert_eq!(a.current_slide().unwrap().title, "one");
    assert!(matches!(a.update(Message::SlideTick)[0], Effect::SlideTimer));
    assert_eq!(a.current_slide().unwrap().title, "two");
    a.update(Message::SlideTick);
    assert_eq!(a.slide_idx, 0);
    a.update(Message::ToggleLogView);
    assert!(a.show_log);
    a.page = Page::Done;
    assert!(no_effects(&a.update(Message::SlideTick)));
    a.branding.slides = Vec::new();
    assert!(a.current_slide().is_none());
}

#[test]
fn development_pages_come_with_state() {
    let jump = |page: &str| {
        let mut a = App::new(Branding::default(), false, some(page));
        a.update(Message::CatalogLoaded(Ok(Some(catalog(None)))));
        a.update(Message::DisksLoaded(Ok(vec![sample_disk(), sample_disk()])));
        a
    };
    let a = jump("progress");
    assert_eq!((a.page, a.install_percent), (Page::Progress, Some(47)));
    assert_eq!((a.image_idx, a.disk_idx), (Some(0), Some(0)));
    assert_eq!(a.install_log.lines().count(), 14);
    assert_eq!(
        a.install_log.lines().last(),
        Some(&*format!("[stdout] Copying blob sha256:{:064x}", 14))
    );
    let a = jump("done-fail");
    assert_eq!(a.install_log.lines().nth(2), Some(&*format!("[stderr] Copying blob sha256:{:064x}", 3)));
    assert_eq!(a.install_log.lines().count(), 10);
    let a = jump("done-ok");
    assert_eq!((a.page, a.reboot_countdown), (Page::Done, Some(23)));
    let a = jump("layout");
    assert_eq!(a.page, Page::CustomLayout);
    assert!(a.layout.disk.is_some());
    assert_eq!(jump("image").page, Page::Image);
    assert_eq!(jump("disk").page, Page::Disk);
    assert_eq!(jump("encryption").page, Page::Encryption);
    assert_eq!(jump("confirm").page, Page::Confirm);
    assert_eq!(jump("welcome").page, Page::Welcome);
}

// ---------- network page ----------

fn ap(ssid: &str, network_type: NetworkType) -> AccessPoint {
    AccessPoint { ssid: String::from(ssid), network_type, strength: 50 }
}

fn network() -> NetworkState {
    NetworkState {
        wireless_access_points: vec![
            ap("home", NetworkType::Psk),
            ap("cafe", NetworkType::Open),
            ap("work", NetworkType::Eap),
        ],
        known_access_points: vec![ap("work", NetworkType::Eap)],
        active: vec![String::from("cafe")],
        wifi_enabled: true,
        airplane_mode: false,
    }
}

fn online() -> WifiUiState {
    let mut w = WifiUiState::default();
    let e = w.update(WifiMsg::Init(network()));
    assert!(matches!(e[0], WifiEffect::RefreshDevices));
    w
}

#[test]
fn unknown_networks_ask_for_a_password() {
    let mut w = online();
    let e = w.update(WifiMsg::PasswordRequest(String::from("home")));
    assert!(matches!(e[0], WifiEffect::AskFocus));
    assert!(matches!(w.update(WifiMsg::FocusSecureInput)[0], WifiEffect::FocusPassword));
    w.update(WifiMsg::PasswordUpdate(SecureString::from("pw")));
    w.update(WifiMsg::TogglePasswordVisibility);
    match &w.dialog {
        Some(WifiDialog::Password { identity, password_hidden, .. }) => {
            assert!(identity.is_none() && !password_hidden);
        }
        other => panic!("unexpected {other:?}"),
    }
    w.update(WifiMsg::SelectDevice(String::from("wlan0")));
    match &w.update(WifiMsg::ConnectWithPassword)[0] {
        WifiEffect::Authenticate { ssid, password, interface, .. } => {
            assert_eq!(ssid, "home");
            assert_eq!(password.as_ref().unwrap().unsecure(), "pw");
            assert_eq!(interface.as_deref(), Some("wlan0"));
        }
        other => panic!("unexpected {other:?}"),
    }
    assert!(w.dialog.is_none());
    assert_eq!(network_row(&w, &network(), "home").action, RowAction::Connecting);
    // A failure asks again, a success ends it.
    w.update(WifiMsg::Response {
        request: NmRequest::Authenticate { ssid: String::from("home"), identity: None },
        state: network(),
        success: false,
    });
    assert!(w.dialog.is_some());
    w.update(WifiMsg::CancelDialog);
    w.update(WifiMsg::Response {
        request: NmRequest::Authenticate { ssid: String::from("home"), identity: None },
        state: network(),
        success: true,
    });
    assert!(w.dialog.is_none());
    assert_eq!(network_row(&w, &network(), "home").action, RowAction::AskPassword);
}

#[test]
fn secrets_go_back_to_the_agent() {
    let mut w = online();
    let stored = |s: &[u8], u: &str| StoredConnection { ssid: Some(s.to_vec()), uuid: some(u) };
    let settings = connection_settings(vec![
        stored(b"work", "u-1"),
        stored(b"caf\xc3\xa9", "u-2"),
        stored(b"\xff\xfe", "u-3"),
        StoredConnection { ssid: None, uuid: some("u-4") },
        StoredConnection { ssid: Some(b"x".to_vec()), uuid: None },
        stored(b"work", "u-5"),
    ]);
    let shown: Vec<(&str, &str)> = settings.iter().map(|(a, b)| (a.as_str(), b.as_str())).collect();
    assert_eq!(shown, vec![("café", "u-2"), ("work", "u-5")]);
    w.update(WifiMsg::ConnectionSettings(settings));
    assert!(w
        .update(WifiMsg::SecretRequested {
            name: String::from("u-1"),
            previous: SecureString::from("old"),
            ticket: 7,
        })
        .is_empty());
    let e = w.update(WifiMsg::SecretRequested {
        name: String::from("u-5"),
        previous: SecureString::from("old"),
        ticket: 8,
    });
    assert!(matches!(e[0], WifiEffect::AskFocus));
    match &w.dialog {
        Some(WifiDialog::Password { ssid, identity, .. }) => {
            assert_eq!(ssid, "work");
            assert_eq!(identity.as_deref(), Some(""));
        }
        other => panic!("unexpected {other:?}"),
    }
    w.update(WifiMsg::IdentityUpdate(String::from("me")));
    assert!(matches!(w.update(WifiMsg::SubmitIdentity)[0], WifiEffect::FocusNext));
    match &w.update(WifiMsg::ConnectWithPassword)[0] {
        WifiEffect::AnswerAgent { ticket, password } => {
            assert_eq!(*ticket, 8);
            assert_eq!(password.as_ref().unwrap().unsecure(), "old");
        }
        other => panic!("unexpected {other:?}"),
    }
    w.update(WifiMsg::ForgetRequest(String::from("work")));
    w.update(WifiMsg::SecretCancelled);
    assert!(w.dialog.is_some());
    w.update(WifiMsg::SecretFailed(String::from("x")));
    assert!(w.dialog.is_none());
}

#[test]
fn updates_wait_for_the_popup() {
    let mut w = online();
    w.update(WifiMsg::ViewMore(some("work")));
    let mut later = network();
    later.airplane_mode = true;
    let e = w.update(WifiMsg::UpdateState(later));
    assert!(matches!(e[0], WifiEffect::LoadSettings));
    w.update(WifiMsg::UpdateDevices(vec![String::from("wlan0")]));
    let nm = w.nm.as_ref().unwrap();
    assert!(!nm.state.airplane_mode && nm.devices.is_empty());
    w.update(WifiMsg::ViewMore(None));
    let nm = w.nm.as_ref().unwrap();
    assert!(nm.state.airplane_mode);
    assert_eq!(nm.devices, vec!["wlan0"]);
    assert!(matches!(&w.update(WifiMsg::Forget(String::from("work")))[0], WifiEffect::Forget(s) if s == "work"));
    assert!(matches!(&w.update(WifiMsg::Disconnect(String::from("cafe")))[0], WifiEffect::Disconnect(s) if s == "cafe"));
    let e = w.update(WifiMsg::WiFiEnable(false));
    assert!(matches!(e[0], WifiEffect::SetWifi(false)));
    assert!(matches!(e[1], WifiEffect::Reload));
    assert_eq!(w.update(WifiMsg::Changed).len(), 2);
    assert!(w.update(WifiMsg::Credentials).is_empty());
    assert!(WifiUiState::default().update(WifiMsg::Changed).is_empty());
}

#[test]
fn networks_are_listed_by_what_is_known() {
    let w = online();
    let s = network();
    assert_eq!(network_sections(&s), (vec![1, 2], vec![0]));
    let cafe = network_row(&w, &s, "cafe");
    assert!(cafe.connected && cafe.known);
    assert_eq!(cafe.action, RowAction::Connected);
    assert_eq!(network_row(&w, &s, "work").action, RowAction::Connect);
    assert!(!nothing_visible(&s));
    let none = NetworkState {
        wireless_access_points: Vec::new(),
        known_access_points: Vec::new(),
        active: Vec::new(),
        wifi_enabled: true,
        airplane_mode: false,
    };
    assert!(nothing_visible(&none));
    assert_eq!(wifi_icon(24), "network-wireless-signal-weak-symbolic");
    assert_eq!(wifi_icon(25), "network-wireless-signal-ok-symbolic");
    assert_eq!(wifi_icon(50), "network-wireless-signal-good-symbolic");
    assert_eq!(wifi_icon(75), "network-wireless-signal-excellent-symbolic");
}

#[test]
fn known_networks_are_selected() {
    let mut w = online();
    match &w.update(WifiMsg::Connect(String::from("work")))[0] {
        WifiEffect::Select { ssid, network_type, interface } => {
            assert_eq!(ssid, "work");
            assert_eq!(*network_type, NetworkType::Eap);
            assert!(interface.is_none());
        }
        other => panic!("unexpected {other:?}"),
    }
    assert!(w.update(WifiMsg::Connect(String::from("nowhere"))).is_empty());
    // A refused secured network asks for a password, an open one does not.
    let e = w.update(WifiMsg::Response {
        request: NmRequest::SelectAccessPoint {
            ssid: String::from("work"),
            network_type: NetworkType::Eap,
        },
        state: network(),
        success: false,
    });
    assert!(matches!(e[0], WifiEffect::AskFocus));
    assert!(w.dialog.is_some());
    w.update(WifiMsg::CancelDialog);
    let e = w.update(WifiMsg::Response {
        request: NmRequest::SelectAccessPoint {
            ssid: String::from("cafe"),
            network_type: NetworkType::Open,
        },
        state: network(),
        success: false,
    });
    assert!(matches!(e[0], WifiEffect::RefreshDevices));
    assert!(w.dialog.is_none());
}

#[test]
fn stored_settings_come_in_the_order_of_their_names() {
    let stored = |ssid: &str, uuid: &str| StoredConnection {
        ssid: Some(ssid.as_bytes().to_vec()),
        uuid: some(uuid),
    };
    let list = connection_settings(vec![
        stored("home", "1"),
        stored("cafe", "2"),
        stored("work", "3"),
        stored("home", "4"),
        stored("ca", "5"),
    ]);
    let shown: Vec<(&str, &str)> = list.iter().map(|(k, v)| (k.as_str(), v.as_str())).collect();
    assert_eq!(shown, vec![("ca", "5"), ("cafe", "2"), ("home", "4"), ("work", "3")]);
}

#[test]
fn a_network_is_connected_to_once() {
    let mut ui = online();
    let ssid = ui.nm.as_ref().unwrap().state.wireless_access_points[0].ssid.clone();
    ui.update(WifiMsg::Connect(ssid.clone()));
    ui.update(WifiMsg::Connect(ssid.clone()));
    assert_eq!(ui.connecting, vec![ssid]);
}

#[test]
fn previews_add_up_to_the_disk() {
    let total = |segments: &Vec<BarSegment>| segments.iter().map(|s| s.size_bytes).sum::<u64>();
    for keep_esp in [true, false] {
        let mut d = sample_disk();
        if !keep_esp {
            d.partitions[0].part_type = None;
        }
        let known = 512 * MIB + 10 * GIB + 2 * GIB + 40 * GIB;
        assert_eq!(total(&segments_current(&d)), known);
        assert_eq!(total(&segments_free_space(&d)), known);
        let mut l = layout_for(&d);
        assert_eq!(total(&l.planned_segments()), known);
        l.update(LayoutMsg::RootSizeChanged(String::from("30")));
        assert_eq!(total(&l.planned_segments()), known);
        l.update(LayoutMsg::RoleSelected(1, RowRole::Delete.index()));
        assert_eq!(total(&l.planned_segments()), known);
        l.update(LayoutMsg::RoleSelected(1, RowRole::Root.index()));
        assert_eq!(total(&l.planned_segments()), known);
    }
}

#[test]
fn checked_layouts_make_plans_that_the_engine_takes() {
    let runs: Vec<Vec<LayoutMsg>> = vec![
        vec![],
        vec![LayoutMsg::RoleSelected(0, RowRole::Leave.index())],
        vec![
            LayoutMsg::RoleSelected(1, RowRole::EspFormat.index()),
            LayoutMsg::RoleSelected(0, RowRole::Delete.index()),
        ],
        vec![
            LayoutMsg::GapSelected(Some(0)),
            LayoutMsg::RoleSelected(1, RowRole::Root.index()),
        ],
        vec![
            LayoutMsg::RoleSelected(1, RowRole::Root.index()),
            LayoutMsg::GapSelected(Some(1)),
            LayoutMsg::RootSizeChanged(String::from("20")),
        ],
    ];
    for msgs in runs {
        let mut l = layout_for(&sample_disk());
        for m in msgs {
            l.update(m);
        }
        assert!(l.validate().is_ok());
        let spec = InstallSpec {
            disk: String::from("/dev/vdb"),
            image: String::from("ref"),
            hostname: String::from("cosmic"),
            encryption: Encryption::Unencrypted,
            plan: PartitionPlan::Custom { actions: l.to_actions() },
        };
        assert!(validate_spec(&spec).is_ok());
    }
}
