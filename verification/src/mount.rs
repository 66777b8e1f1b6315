//! Mounting and unmounting the install target.
//!
//! The root goes to the target directory, a separate boot partition (where
//! the layout has one) to `boot` below it, and the ESP to `boot/efi`.
use vstd::prelude::*;

use crate::command::{
    args2, args4, no_work, plain, push_work, Command, CommandView, Work, WorkView,
};
use crate::partition::{PartitionSet, PartitionSetView};
use crate::text::{self, views};

verus! {

/// Where the target root is mounted: a path that vanishes on reboot.
pub const TARGET_ROOT: &'static str = "/run/cosmonaut/target";

pub open spec fn mount_command(
    src: Seq<char>,
    dst: Seq<char>,
    fstype: Seq<char>,
    options: Option<Seq<char>>,
) -> CommandView {
    plain(
        "mount"@,
        match options {
            None => seq!["-t"@, fstype, src, dst],
            Some(o) => seq!["-t"@, fstype, "-o"@, o, src, dst],
        },
        "mount "@ + src + " → "@ + dst,
    )
}

/// Where the target's boot directory and ESP lie.
pub open spec fn boot_dir() -> Seq<char> {
    "/run/cosmonaut/target/boot"@
}

pub open spec fn efi_dir() -> Seq<char> {
    "/run/cosmonaut/target/boot/efi"@
}

pub open spec fn mount_work(root: Seq<char>, parts: PartitionSetView) -> Seq<WorkView> {
    seq![
        WorkView::MakeDir { path: TARGET_ROOT@, context: "mkdir target"@ },
        WorkView::Run(mount_command(root, TARGET_ROOT@, "btrfs"@, None)),
        WorkView::MakeDir { path: boot_dir(), context: "mkdir target/boot"@ },
    ] + (match parts.boot {
        Some(b) => seq![WorkView::Run(mount_command(b, boot_dir(), "ext4"@, None))],
        None => Seq::empty(),
    }) + seq![
        WorkView::MakeDir { path: efi_dir(), context: "mkdir target/boot/efi"@ },
        WorkView::Run(mount_command(parts.esp, efi_dir(), "vfat"@, Some("umask=0077"@))),
    ]
}

fn mount_one(src: &str, dst: &str, fstype: &str) -> (r: Command)
    ensures
        r@ == mount_command(src@, dst@, fstype@, None),
{
    let context = text::cat4("mount ", src, " → ", dst);
    Command::new("mount", args4("-t", fstype, src, dst), context.as_str())
}

/// The work of mounting the target.
pub fn run(root: &str, parts: &PartitionSet) -> (r: Vec<Work>)
    ensures
        views(r@) == mount_work(root@, parts@),
{
    let mut list = no_work();
    push_work(
        &mut list,
        Work::MakeDir { path: TARGET_ROOT.to_owned(), context: "mkdir target".to_owned() },
    );
    push_work(&mut list, Work::Run(mount_one(root, TARGET_ROOT, "btrfs")));
    push_work(
        &mut list,
        Work::MakeDir {
            path: "/run/cosmonaut/target/boot".to_owned(),
            context: "mkdir target/boot".to_owned(),
        },
    );
    if let Some(boot) = &parts.boot {
        push_work(
            &mut list,
            Work::Run(mount_one(boot.as_str(), "/run/cosmonaut/target/boot", "ext4")),
        );
    }
    push_work(
        &mut list,
        Work::MakeDir {
            path: "/run/cosmonaut/target/boot/efi".to_owned(),
            context: "mkdir target/boot/efi".to_owned(),
        },
    );
    let efi: &str = "/run/cosmonaut/target/boot/efi";
    let context = text::cat4("mount ", parts.esp.as_str(), " → ", efi);
    let args = crate::command::chained(
        args4("-t", "vfat", "-o", "umask=0077"),
        args2(parts.esp.as_str(), efi),
    );
    assert(views(args@) =~= seq!["-t"@, "vfat"@, "-o"@, "umask=0077"@, parts.esp@, efi@]);
    push_work(&mut list, Work::Run(Command::new("mount", args, context.as_str())));
    assert(views(list@) =~= mount_work(root@, parts@));
    list
}

pub open spec fn unmount_work() -> Seq<WorkView> {
    seq![
        WorkView::Quiet(plain("umount"@, seq!["-R"@, TARGET_ROOT@], ""@)),
        WorkView::Quiet(plain("umount"@, seq!["-Rl"@, TARGET_ROOT@], ""@)),
    ]
}

/// Best-effort recursive unmount of the target tree, lazy where something
/// is still busy. Nothing is mounted in the best of cases, so how the
/// commands end does not matter.
pub fn unmount_all(list: &mut Vec<Work>)
    ensures
        views(final(list)@) == views(old(list)@) + unmount_work(),
{
    let ghost before = views(list@);
    push_work(list, Work::Quiet(Command::new("umount", args2("-R", TARGET_ROOT), "")));
    push_work(list, Work::Quiet(Command::new("umount", args2("-Rl", TARGET_ROOT), "")));
    assert(views(list@) =~= before + unmount_work());
}

/// The command mounts `src` at `dst` as this kind of filesystem.
pub open spec fn mounts(w: WorkView, src: Seq<char>, dst: Seq<char>, fstype: Seq<char>) -> bool {
    w matches WorkView::Run(c) && {
        &&& c.program == "mount"@
        &&& c.args.len() >= 4
        &&& c.args[0] == "-t"@ && c.args[1] == fstype
        &&& c.args[c.args.len() - 2] == src
        &&& c.args.last() == dst
        &&& c.stdin is None
    }
}

pub open spec fn makes_dir(w: WorkView, dir: Seq<char>) -> bool {
    w matches WorkView::MakeDir { path, .. } && path == dir
}

/// Each device ends up in its place below the target, in the order in which
/// the places contain each other: the root first, then the boot partition
/// where there is one, and the ESP last. Each place is made right before.
/// Only the owner can read the ESP.
pub proof fn law_devices_are_mounted_in_their_places(root: Seq<char>, parts: PartitionSetView)
    ensures
        ({
            let w = mount_work(root, parts);
            let target = "/run/cosmonaut/target"@;
            let n = w.len();
            &&& n == if parts.boot is Some {
                6int
            } else {
                5
            }
            &&& makes_dir(w[0], target) && mounts(w[1], root, target, "btrfs"@)
            &&& makes_dir(w[2], target + "/boot"@)
            &&& parts.boot matches Some(boot) ==> mounts(w[3], boot, target + "/boot"@, "ext4"@)
            &&& makes_dir(w[n - 2], target + "/boot/efi"@)
            &&& mounts(w[n - 1], parts.esp, target + "/boot/efi"@, "vfat"@)
            &&& w[n - 1]->Run_0.args[2] == "-o"@ && w[n - 1]->Run_0.args[3] == "umask=0077"@
        }),
{
    reveal_strlit("/run/cosmonaut/target");
    reveal_strlit("/run/cosmonaut/target/boot");
    reveal_strlit("/run/cosmonaut/target/boot/efi");
    reveal_strlit("/boot");
    reveal_strlit("/boot/efi");
    assert(boot_dir() =~= "/run/cosmonaut/target"@ + "/boot"@);
    assert(efi_dir() =~= "/run/cosmonaut/target"@ + "/boot/efi"@);
}

/// What is unmounted is the place where the root was mounted, with all that
/// is mounted below it; where something is busy, lazily.
pub proof fn law_unmounting_undoes_mounting(root: Seq<char>, parts: PartitionSetView)
    ensures
        ({
            let place = mount_work(root, parts)[1]->Run_0.args.last();
            let w = unmount_work();
            &&& w.len() == 2
            &&& w[0] matches WorkView::Quiet(c) && c.program == "umount"@ && c.args == seq![
                "-R"@,
                place,
            ]
            &&& w[1] matches WorkView::Quiet(c) && c.program == "umount"@ && c.args == seq![
                "-Rl"@,
                place,
            ]
        }),
{
}

} // verus!
