//! The short pipeline steps: formatting the boot filesystems, making the
//! root filesystem, the hostname, and the final trim and unmount.
use vstd::prelude::*;

use crate::command::{args2, args4, no_work, plain, push_work, Command, CommandView, Work, WorkView};
use crate::luks;
use crate::mount::{self, unmount_work, TARGET_ROOT};
use crate::partition::{PartitionSet, PartitionSetView};
use crate::text::{self, trimmed, views, CharClass};

verus! {

/// Formats the boot filesystems that the plan calls for: the ESP, unless
/// one is reused as it is, and a separate boot partition.
pub open spec fn format_work(parts: PartitionSetView) -> Seq<WorkView> {
    seq![
        if parts.format_esp {
            WorkView::Run(
                plain("mkfs.fat"@, seq!["-F32"@, "-n"@, "ESP"@, parts.esp], "mkfs.fat ESP"@),
            )
        } else {
            WorkView::Note("keeping existing ESP "@ + parts.esp + " unformatted"@)
        },
    ] + (match parts.boot {
        Some(b) => seq![
            WorkView::Run(
                plain("mkfs.ext4"@, seq!["-F"@, "-L"@, "boot"@, b], "mkfs.ext4 /boot"@),
            ),
        ],
        None => Seq::empty(),
    })
}

pub fn format(parts: &PartitionSet) -> (r: Vec<Work>)
    ensures
        views(r@) == format_work(parts@),
{
    let mut list = no_work();
    if parts.format_esp {
        push_work(
            &mut list,
            Work::Run(
                Command::new(
                    "mkfs.fat",
                    args4("-F32", "-n", "ESP", parts.esp.as_str()),
                    "mkfs.fat ESP",
                ),
            ),
        );
    } else {
        push_work(
            &mut list,
            Work::Note(text::cat3("keeping existing ESP ", parts.esp.as_str(), " unformatted")),
        );
    }
    if let Some(boot) = &parts.boot {
        push_work(
            &mut list,
            Work::Run(
                Command::new(
                    "mkfs.ext4",
                    args4("-F", "-L", "boot", boot.as_str()),
                    "mkfs.ext4 /boot",
                ),
            ),
        );
    }
    assert(views(list@) =~= format_work(parts@));
    list
}

/// A reused ESP that keeps its contents is not formatted.
pub proof fn law_kept_esp_is_not_formatted(parts: PartitionSetView, k: int)
    requires
        !parts.format_esp,
        0 <= k < format_work(parts).len(),
    ensures
        format_work(parts)[k] matches WorkView::Run(c) ==> c.program == "mkfs.ext4"@ && parts.boot
            is Some && c.args.last() == parts.boot->0,
{
}

pub open spec fn mkfs_command(root: Seq<char>) -> CommandView {
    plain("mkfs.btrfs"@, seq!["-f"@, "-L"@, "cosmic-root"@, root], "mkfs.btrfs"@)
}

/// Makes the root filesystem.
pub fn mkfs(root: &str) -> (r: Command)
    ensures
        r@ == mkfs_command(root@),
{
    Command::new("mkfs.btrfs", args4("-f", "-L", "cosmic-root", root), "mkfs.btrfs")
}

pub open spec fn hostname_work(hostname: Seq<char>) -> Seq<WorkView> {
    seq![
        WorkView::MakeDir {
            path: "/run/cosmonaut/target/etc"@,
            context: "mkdir \"/run/cosmonaut/target/etc\""@,
        },
        WorkView::WriteFile {
            path: "/run/cosmonaut/target/etc/hostname"@,
            content: trimmed(hostname, CharClass::White) + "\n"@,
            context: "write \"/run/cosmonaut/target/etc/hostname\""@,
        },
    ]
}

/// Writes the hostname into the deployed system, without white space
/// around it.
pub fn hostname(name: &str) -> (r: Vec<Work>)
    ensures
        views(r@) == hostname_work(name@),
{
    let chars = text::chars_of(name);
    let bare = text::trim(&chars, CharClass::White);
    let bare = text::string_of(&bare);
    let mut list = no_work();
    push_work(
        &mut list,
        Work::MakeDir {
            path: "/run/cosmonaut/target/etc".to_owned(),
            context: "mkdir \"/run/cosmonaut/target/etc\"".to_owned(),
        },
    );
    push_work(
        &mut list,
        Work::WriteFile {
            path: "/run/cosmonaut/target/etc/hostname".to_owned(),
            content: text::cat2(bare.as_str(), "\n"),
            context: "write \"/run/cosmonaut/target/etc/hostname\"".to_owned(),
        },
    );
    assert(views(list@) =~= hostname_work(name@));
    list
}

/// Unmounts the target and closes the LUKS mapping where there is one.
pub open spec fn teardown_work(luks_in_use: bool) -> Seq<WorkView> {
    unmount_work() + (if luks_in_use {
        seq![WorkView::Quiet(luks::close_command())]
    } else {
        Seq::empty()
    })
}

pub fn teardown(list: &mut Vec<Work>, luks_in_use: bool)
    ensures
        views(final(list)@) == views(old(list)@) + teardown_work(luks_in_use),
{
    let ghost before = views(list@);
    mount::unmount_all(list);
    if luks_in_use {
        push_work(list, Work::Quiet(luks::close()));
    }
    assert(views(list@) =~= before + teardown_work(luks_in_use));
}

pub open spec fn finalize_work(luks_in_use: bool) -> Seq<WorkView> {
    seq![
        WorkView::Attempt(
            plain("fstrim"@, seq!["-v"@, TARGET_ROOT@], ""@),
            Some("fstrim skipped: "@),
        ),
    ] + teardown_work(luks_in_use)
}

/// Trims the root, unmounts everything, closes LUKS if open. The device may
/// not support trimming, so a failed trim never fails the install.
pub fn finalize(luks_in_use: bool) -> (r: Vec<Work>)
    ensures
        views(r@) == finalize_work(luks_in_use),
{
    let mut list = no_work();
    push_work(
        &mut list,
        Work::Attempt(
            Command::new("fstrim", args2("-v", TARGET_ROOT), ""),
            Some("fstrim skipped: ".to_owned()),
        ),
    );
    teardown(&mut list, luks_in_use);
    assert(views(list@) =~= finalize_work(luks_in_use));
    list
}

pub open spec fn preflight_work() -> Seq<WorkView> {
    unmount_work() + seq![
        WorkView::Quiet(luks::close_command()),
        WorkView::Attempt(plain("udevadm"@, seq!["settle"@], ""@), None),
    ]
}

/// Clears what an earlier failed or cancelled install may have left behind:
/// all of it is a no-op on a clean first run.
pub fn preflight() -> (r: Vec<Work>)
    ensures
        views(r@) == preflight_work(),
{
    let mut list = no_work();
    mount::unmount_all(&mut list);
    push_work(&mut list, Work::Quiet(luks::close()));
    push_work(
        &mut list,
        Work::Attempt(Command::new("udevadm", crate::command::args1("settle"), ""), None),
    );
    assert(views(list@) =~= preflight_work());
    list
}

/// The work makes this filesystem on the device.
pub open spec fn makes_filesystem(w: WorkView, program: Seq<char>, device: Seq<char>) -> bool {
    w matches WorkView::Run(c) && c.program == program && c.args.len() > 0 && c.args.last()
        == device && c.stdin is None
}

/// The ESP gets a FAT32 filesystem exactly where it is to be formatted, and
/// the boot partition gets an ext4 one exactly where there is one. Nothing
/// else is formatted.
pub proof fn law_boot_filesystems_are_made(parts: PartitionSetView)
    ensures
        ({
            let w = format_work(parts);
            &&& w.len() == if parts.boot is Some {
                2int
            } else {
                1
            }
            &&& parts.format_esp ==> makes_filesystem(w[0], "mkfs.fat"@, parts.esp)
                && w[0]->Run_0.args.contains("-F32"@)
            &&& !parts.format_esp ==> w[0] is Note
            &&& parts.boot matches Some(boot) ==> makes_filesystem(w[1], "mkfs.ext4"@, boot)
                && w[1]->Run_0.args.contains("-F"@)
        }),
{
    let w = format_work(parts);
    if parts.format_esp {
        assert(w[0]->Run_0.args[0] == "-F32"@);
    }
    if parts.boot is Some {
        assert(w[1]->Run_0.args[0] == "-F"@);
    }
}

/// The root filesystem is made on the device that is named, over what may
/// be there, and bears its label.
pub proof fn law_root_filesystem_is_made(device: Seq<char>)
    ensures
        makes_filesystem(WorkView::Run(mkfs_command(device)), "mkfs.btrfs"@, device),
        mkfs_command(device).args.contains("-f"@),
        exists|i: int|
            0 <= i < mkfs_command(device).args.len() - 1 && #[trigger] mkfs_command(device).args[i]
                == "-L"@ && mkfs_command(device).args[i + 1] == "cosmic-root"@,
{
    let args = mkfs_command(device).args;
    assert(args[0] == "-f"@);
    assert(args[1] == "-L"@ && args[2] == "cosmic-root"@);
}

/// The hostname goes into `etc/hostname` below the target, on a line of its
/// own and without the white space around it; its directory is made first.
pub proof fn law_hostname_is_written_below_the_target(name: Seq<char>)
    ensures
        ({
            let w = hostname_work(name);
            &&& w.len() == 2
            &&& w[0] matches WorkView::MakeDir { path, .. } && path == TARGET_ROOT@ + "/etc"@
            &&& w[1] matches WorkView::WriteFile { path, content, .. } && path == TARGET_ROOT@
                + "/etc/hostname"@ && content.len() > 0 && content.last() == '\n'
                && text::is_stripped(name, content.drop_last())
        }),
{
    reveal_strlit("/run/cosmonaut/target");
    reveal_strlit("/run/cosmonaut/target/etc");
    reveal_strlit("/run/cosmonaut/target/etc/hostname");
    reveal_strlit("/etc");
    reveal_strlit("/etc/hostname");
    reveal_strlit("\n");
    assert("/run/cosmonaut/target/etc"@ =~= TARGET_ROOT@ + "/etc"@);
    assert("/run/cosmonaut/target/etc/hostname"@ =~= TARGET_ROOT@ + "/etc/hostname"@);
    let bare = trimmed(name, CharClass::White);
    assert((bare + "\n"@).drop_last() =~= bare);
    text::law_trimming_strips(name);
}

/// The command releases what an install holds: the mounted tree, or the
/// mapping.
pub open spec fn releases(w: WorkView, program: Seq<char>, what: Seq<char>) -> bool {
    w matches WorkView::Quiet(c) && c.program == program && c.args.len() == 2 && c.args[1] == what
}

/// Tearing down lets go of the tree first and of the encrypted volume after
/// it, where there is one; nothing else is done, and no failure counts.
pub proof fn law_teardown_releases_everything(luks_in_use: bool)
    ensures
        ({
            let w = teardown_work(luks_in_use);
            &&& w.len() == if luks_in_use {
                3int
            } else {
                2
            }
            &&& releases(w[0], "umount"@, "/run/cosmonaut/target"@) && w[0]->Quiet_0.args[0]
                == "-R"@
            &&& releases(w[1], "umount"@, "/run/cosmonaut/target"@) && w[1]->Quiet_0.args[0]
                == "-Rl"@
            &&& luks_in_use ==> releases(w[2], "cryptsetup"@, "cosmonaut-root"@)
                && w[2]->Quiet_0.args[0] == "luksClose"@
        }),
{
}

/// The last step trims the mounted root, which may fail, and only then lets
/// go of everything.
pub proof fn law_finalizing_trims_first(luks_in_use: bool)
    ensures
        ({
            let w = finalize_work(luks_in_use);
            &&& w.len() == 1 + teardown_work(luks_in_use).len()
            &&& w[0] matches WorkView::Attempt(c, note) && c.program == "fstrim"@ && c.args.len()
                == 2 && c.args[1] == "/run/cosmonaut/target"@ && note is Some
            &&& forall|k: int|
                1 <= k < w.len() ==> #[trigger] w[k] == teardown_work(luks_in_use)[k - 1]
        }),
{
}

/// Another try starts clean: before anything else, what an earlier install
/// may hold is let go of, whether or not it was encrypted, and the kernel
/// catches up. None of it can fail the install.
pub proof fn law_preflight_releases_everything()
    ensures
        ({
            let w = preflight_work();
            &&& w.len() == 4
            &&& forall|k: int| 0 <= k < 3 ==> #[trigger] w[k] == teardown_work(true)[k]
            &&& w[3] matches WorkView::Attempt(c, note) && c.program == "udevadm"@ && c.args
                == seq!["settle"@] && note is None
        }),
{
}

} // verus!
