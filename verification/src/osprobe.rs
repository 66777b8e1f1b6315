//! What runs from a partition: which read-only mounts to try, and what
//! their contents say.
//!
//! A partition that cannot be read has no detected system; nothing here is
//! an error.
use vstd::prelude::*;

use crate::command::{args2, args4, chained, plain, Command, CommandView};
use crate::partition::{esp_guid, is_esp};
use crate::path::{self, last_name};
use crate::probe::{DetectedOs, OsKind, PartitionInfo};
use crate::text::{
    self, after_prefix, decimal, has_prefix, inserted, joined, lines, opt_view, sorted_by, text_le,
    trimmed, views, CharClass,
};

verus! {

/// How the contents of a mount are read.
#[derive(Debug, Clone, Copy, PartialEq, Eq, Structural)]
pub enum Reading {
    /// Boot managers and boot entries of an ESP.
    Esp,
    /// The os-release file.
    OsRelease,
    /// The directories of a composefs deployment.
    Composefs,
    /// The Windows directory.
    Windows,
}

/// One read-only mount to try.
#[derive(Debug, PartialEq, Eq)]
pub struct Attempt {
    pub fstype: String,
    pub option: Option<String>,
    pub reading: Reading,
}

#[verifier::ext_equal]
pub struct AttemptView {
    pub fstype: Seq<char>,
    pub option: Option<Seq<char>>,
    pub reading: Reading,
}

impl View for Attempt {
    type V = AttemptView;

    open spec fn view(&self) -> AttemptView {
        AttemptView {
            fstype: self.fstype@,
            option: opt_view(self.option),
            reading: self.reading,
        }
    }
}

pub open spec fn attempt(fstype: Seq<char>, option: Option<Seq<char>>, reading: Reading) -> AttemptView {
    AttemptView { fstype, option, reading }
}

/// The mounts to try, in order. A btrfs root may be at the top level or in
/// one of the usual subvolumes; one without an os-release may be a
/// composefs deployment, whose name is in the boot entries.
pub open spec fn attempts_for(fstype: Option<Seq<char>>, on_esp: bool) -> Seq<AttemptView> {
    if fstype == Some("vfat"@) && on_esp {
        seq![attempt("vfat"@, None, Reading::Esp)]
    } else if fstype == Some("ext4"@) || fstype == Some("xfs"@) {
        seq![attempt(fstype->0, None, Reading::OsRelease)]
    } else if fstype == Some("btrfs"@) {
        seq![
            attempt("btrfs"@, None, Reading::OsRelease),
            attempt("btrfs"@, Some("subvol=@"@), Reading::OsRelease),
            attempt("btrfs"@, Some("subvol=root"@), Reading::OsRelease),
            attempt("btrfs"@, None, Reading::Composefs),
        ]
    } else if fstype == Some("ntfs"@) {
        seq![attempt("ntfs3"@, None, Reading::Windows)]
    } else {
        Seq::empty()
    }
}

fn make_attempt(fstype: &str, option: Option<&str>, reading: Reading) -> (r: Attempt)
    ensures
        r@ == attempt(
            fstype@,
            match option {
                Some(o) => Some(o@),
                None => None,
            },
            reading,
        ),
{
    Attempt {
        fstype: fstype.to_owned(),
        option: match option {
            Some(o) => Some(o.to_owned()),
            None => None,
        },
        reading,
    }
}

/// The mounts to try for a partition, in order.
pub fn attempts(fstype: &Option<String>, on_esp: bool) -> (r: Vec<Attempt>)
    ensures
        views(r@) == attempts_for(opt_view(*fstype), on_esp),
{
    let ghost goal = attempts_for(opt_view(*fstype), on_esp);
    let mut out: Vec<Attempt> = Vec::new();
    if text::same_opt(fstype, "vfat") && on_esp {
        out.push(make_attempt("vfat", None, Reading::Esp));
    } else if text::same_opt(fstype, "ext4") {
        out.push(make_attempt("ext4", None, Reading::OsRelease));
    } else if text::same_opt(fstype, "xfs") {
        out.push(make_attempt("xfs", None, Reading::OsRelease));
    } else if text::same_opt(fstype, "btrfs") {
        out.push(make_attempt("btrfs", None, Reading::OsRelease));
        out.push(make_attempt("btrfs", Some("subvol=@"), Reading::OsRelease));
        out.push(make_attempt("btrfs", Some("subvol=root"), Reading::OsRelease));
        out.push(make_attempt("btrfs", None, Reading::Composefs));
    } else if text::same_opt(fstype, "ntfs") {
        out.push(make_attempt("ntfs3", None, Reading::Windows));
    }
    proof {
        reveal_strlit("vfat");
        reveal_strlit("ext4");
        reveal_strlit("xfs");
        reveal_strlit("btrfs");
        reveal_strlit("ntfs");
        assert("vfat"@[0] != "ext4"@[0]);
        assert("vfat"@[0] != "xfs"@[0]);
        assert("vfat"@[0] != "btrfs"@[0]);
        assert("vfat"@[0] != "ntfs"@[0]);
    }
    assert(views(out@) =~= goal);
    out
}

/// What to do after an attempt.
#[derive(Debug, PartialEq, Eq)]
pub enum Verdict {
    TryNext,
    Settled(Option<DetectedOs>),
}

pub enum VerdictView {
    TryNext,
    Settled(Option<(Seq<char>, OsKind)>),
}

impl View for Verdict {
    type V = VerdictView;

    open spec fn view(&self) -> VerdictView {
        match *self {
            Verdict::TryNext => VerdictView::TryNext,
            Verdict::Settled(os) => VerdictView::Settled(opt_view(os)),
        }
    }
}

/// An outcome of `None` is a mount that failed. An NTFS partition that
/// cannot be mounted is still labelled by its type.
pub open spec fn verdict(
    fstype: Option<Seq<char>>,
    on_esp: bool,
    index: int,
    outcome: Option<Option<(Seq<char>, OsKind)>>,
) -> VerdictView {
    if fstype == Some("ntfs"@) && outcome is None {
        VerdictView::Settled(Some(("Windows (NTFS)"@, OsKind::Windows)))
    } else if outcome is Some && outcome->0 is Some {
        VerdictView::Settled(outcome->0)
    } else if index + 1 < attempts_for(fstype, on_esp).len() {
        VerdictView::TryNext
    } else {
        VerdictView::Settled(None)
    }
}

/// What an attempt comes to.
pub fn judge(
    fstype: &Option<String>,
    on_esp: bool,
    index: usize,
    outcome: Option<Option<DetectedOs>>,
) -> (r: Verdict)
    requires
        index < attempts_for(opt_view(*fstype), on_esp).len(),
    ensures
        r@ == verdict(
            opt_view(*fstype),
            on_esp,
            index as int,
            match outcome {
                Some(os) => Some(opt_view(os)),
                None => None,
            },
        ),
{
    let list = attempts(fstype, on_esp);
    assert(views(list@).len() == list@.len());
    match outcome {
        None => {
            if text::same_opt(fstype, "ntfs") {
                return Verdict::Settled(
                    Some(
                        DetectedOs {
                            pretty_name: "Windows (NTFS)".to_owned(),
                            kind: OsKind::Windows,
                        },
                    ),
                );
            }
        },
        Some(Some(os)) => return Verdict::Settled(Some(os)),
        Some(None) => {},
    }
    if index + 1 < list.len() {
        Verdict::TryNext
    } else {
        Verdict::Settled(None)
    }
}

/// Detection settles after at most as many attempts as there are.
pub proof fn law_detection_ends(
    fstype: Option<Seq<char>>,
    on_esp: bool,
    outcome: Option<Option<(Seq<char>, OsKind)>>,
)
    requires
        attempts_for(fstype, on_esp).len() > 0,
    ensures
        verdict(fstype, on_esp, attempts_for(fstype, on_esp).len() - 1, outcome) is Settled,
{
}

/// Whether a partition is probed at all: what is mounted is in use.
pub fn should_probe(p: &PartitionInfo) -> (r: bool)
    ensures
        r == !p.mounted,
{
    !p.mounted
}

/// Whether a partition is an ESP by its type.
pub fn on_esp(p: &PartitionInfo) -> (r: bool)
    ensures
        r == (p@.part_type == Some(esp_guid())),
{
    is_esp(p)
}

/// Where a device is mounted for probing.
pub open spec fn probe_path(pid: nat, device: Seq<char>) -> Seq<char> {
    "/run/cosmonaut/probe/"@ + decimal(pid) + "-"@ + (match last_name(device) {
        Some(n) => n,
        None => "dev"@,
    })
}

pub fn probe_dir(pid: u64, device: &str) -> (r: String)
    ensures
        r@ == probe_path(pid as nat, device@),
{
    let n = text::decimal_string(pid);
    match path::file_name(device) {
        Some(name) => text::cat4("/run/cosmonaut/probe/", n.as_str(), "-", name.as_str()),
        None => text::cat4("/run/cosmonaut/probe/", n.as_str(), "-", "dev"),
    }
}

pub open spec fn probe_mount_command(device: Seq<char>, a: AttemptView, dir: Seq<char>) -> CommandView {
    plain(
        "mount"@,
        seq![
            "-t"@,
            a.fstype,
            "-o"@,
            match a.option {
                Some(o) => "ro"@ + ","@ + o,
                None => "ro"@,
            },
            device,
            dir,
        ],
        ""@,
    )
}

/// The read-only mount of an attempt.
pub fn probe_mount(device: &str, a: &Attempt, dir: &str) -> (r: Command)
    ensures
        r@ == probe_mount_command(device@, a@, dir@),
{
    let options = match &a.option {
        Some(o) => text::cat3("ro", ",", o.as_str()),
        None => "ro".to_owned(),
    };
    let args = chained(
        args4("-t", a.fstype.as_str(), "-o", options.as_str()),
        args2(device, dir),
    );
    assert(views(args@) =~= probe_mount_command(device@, a@, dir@).args);
    Command::new("mount", args, "")
}

/// Probing never mounts anything writable.
pub proof fn law_probes_are_read_only(device: Seq<char>, a: AttemptView, dir: Seq<char>)
    ensures
        has_prefix(probe_mount_command(device, a, dir).args[3], "ro"@),
        probe_mount_command(device, a, dir).args[2] == "-o"@,
{
    let o = probe_mount_command(device, a, dir).args[3];
    assert(o.take("ro"@.len() as int) =~= "ro"@);
}

// ---------- readings ----------

/// The title of a boot entry, if it has one.
pub open spec fn title_from(ls: Seq<Seq<char>>, i: int) -> Option<Seq<char>>
    decreases ls.len() - i,
{
    if i < 0 || i >= ls.len() {
        None
    } else if after_prefix(ls[i], "title "@) is Some {
        Some(trimmed(after_prefix(ls[i], "title "@)->0, CharClass::White))
    } else {
        title_from(ls, i + 1)
    }
}

pub open spec fn titles(contents: Seq<String>) -> Seq<Seq<char>>
    decreases contents.len(),
{
    if contents.len() == 0 {
        Seq::empty()
    } else {
        match title_from(lines(contents.last()@), 0) {
            Some(t) => titles(contents.drop_last()).push(t),
            None => titles(contents.drop_last()),
        }
    }
}

pub open spec fn title_le() -> spec_fn(Seq<char>, Seq<char>) -> bool {
    |a: Seq<char>, b: Seq<char>| text_le(a, b)
}

/// Neighbours that are equal become one.
pub open spec fn deduped(s: Seq<Seq<char>>) -> Seq<Seq<char>>
    decreases s.len(),
{
    if s.len() == 0 {
        s
    } else {
        let front = deduped(s.drop_last());
        if front.len() > 0 && front.last() == s.last() {
            front
        } else {
            front.push(s.last())
        }
    }
}

pub open spec fn first_two(s: Seq<Seq<char>>) -> Seq<Seq<char>> {
    if s.len() <= 2 {
        s
    } else {
        s.take(2)
    }
}

/// What boots from an ESP: the Windows boot manager, and the titles of up
/// to two boot entries.
pub open spec fn esp_names(boot_manager: bool, entries: Option<Seq<String>>) -> Seq<Seq<char>> {
    (if boot_manager {
        seq!["Windows Boot Manager"@]
    } else {
        Seq::empty()
    }) + (match entries {
        Some(contents) => first_two(deduped(sorted_by(titles(contents), title_le()))),
        None => Seq::empty(),
    })
}

pub open spec fn esp_system(boot_manager: bool, entries: Option<Seq<String>>) -> Option<
    (Seq<char>, OsKind),
> {
    let names = esp_names(boot_manager, entries);
    if names.len() == 0 {
        None
    } else {
        Some(
            (
                joined(names, " + "@),
                if names.len() > 1 {
                    OsKind::Unknown
                } else if boot_manager {
                    OsKind::Windows
                } else {
                    OsKind::Linux
                },
            ),
        )
    }
}

fn find_title(content: &str) -> (r: Option<String>)
    ensures
        opt_view(r) == title_from(lines(content@), 0),
{
    let chars = text::chars_of(content);
    let list = text::split_lines(&chars);
    let ghost ls = lines(content@);
    let mut i: usize = 0;
    while i < list.len()
        invariant
            i <= list@.len(),
            views(list@) == ls,
            ls == lines(content@),
            title_from(ls, 0) == title_from(ls, i as int),
        decreases list@.len() - i,
    {
        assert(ls[i as int] == list@[i as int]@);
        if let Some(rest) = text::strip_prefix(&list[i], "title ") {
            let t = text::trim(&rest, CharClass::White);
            return Some(text::string_of(&t));
        }
        i += 1;
    }
    None
}

pub open spec fn string_le() -> spec_fn(String, String) -> bool {
    |a: String, b: String| text_le(a@, b@)
}

fn insert_title(list: &mut Vec<String>, t: String)
    ensures
        final(list)@ == inserted(old(list)@, t, string_le()),
{
    let ghost before = list@;
    let mut pos: usize = list.len();
    while pos > 0 && !text::text_before(list[pos - 1].as_str(), t.as_str())
        invariant
            pos <= list@.len(),
            list@ == before,
            forall|j: int| pos <= j < list@.len() ==> !string_le()(#[trigger] list@[j], t),
        decreases pos,
    {
        pos -= 1;
    }
    proof {
        text::lemma_inserted_at(before, t, string_le(), pos as int);
    }
    list.insert(pos, t);
}

fn sorted_titles(contents: &Vec<String>) -> (r: Vec<String>)
    ensures
        views(r@) == sorted_by(titles(contents@), title_le()),
{
    let ghost view_of = |s: String| s@;
    let ghost mut found: Seq<String> = Seq::empty();
    let mut out: Vec<String> = Vec::new();
    let mut i: usize = 0;
    assert(contents@.take(0) =~= Seq::empty());
    assert(views(found) =~= Seq::empty());
    while i < contents.len()
        invariant
            i <= contents@.len(),
            views(found) == titles(contents@.take(i as int)),
            out@ == sorted_by(found, string_le()),
        decreases contents@.len() - i,
    {
        let ghost next = contents@.take(i + 1);
        assert(next.drop_last() =~= contents@.take(i as int));
        assert(next.last() == contents@[i as int]);
        if let Some(t) = find_title(contents[i].as_str()) {
            proof {
                let more = found.push(t);
                assert(more.drop_last() =~= found);
                assert(views(more) =~= views(found).push(t@));
                found = more;
            }
            insert_title(&mut out, t);
        }
        i += 1;
    }
    proof {
        assert(contents@.take(contents@.len() as int) =~= contents@);
        assert forall|x: String, y: String| #[trigger]
            string_le()(x, y) == title_le()(view_of(x), view_of(y)) by {}
        text::lemma_sorted_by_map(found, view_of, string_le(), title_le());
        assert(views(found) =~= found.map_values(view_of));
        assert(views(out@) =~= out@.map_values(view_of));
    }
    out
}

fn dedup(list: &Vec<String>) -> (r: Vec<String>)
    ensures
        views(r@) == deduped(views(list@)),
{
    let ghost all = views(list@);
    let mut out: Vec<String> = Vec::new();
    let mut i: usize = 0;
    assert(all.take(0) =~= Seq::empty());
    assert(views(out@) =~= Seq::empty());
    while i < list.len()
        invariant
            i <= list@.len(),
            all == views(list@),
            views(out@) == deduped(all.take(i as int)),
        decreases list@.len() - i,
    {
        let ghost before = out@;
        assert(all.take(i + 1).drop_last() =~= all.take(i as int));
        assert(all.take(i + 1).last() == list@[i as int]@);
        assert(views(out@).len() == out@.len());
        let n = out.len();
        if n > 0 {
            assert(views(out@).last() == out@[n - 1]@);
        }
        if n == 0 || !text::same(out[n - 1].as_str(), list[i].as_str()) {
            out.push(list[i].clone());
            assert(views(out@) =~= views(before).push(list@[i as int]@));
        }
        i += 1;
    }
    assert(all.take(all.len() as int) =~= all);
    out
}

/// What boots from an ESP, going by whether it holds the Windows boot
/// manager, and by the texts of its boot entries.
pub fn probe_esp(boot_manager: bool, entries: &Option<Vec<String>>) -> (r: Option<DetectedOs>)
    ensures
        opt_view(r) == esp_system(
            boot_manager,
            match entries {
                Some(c) => Some(c@),
                None => None,
            },
        ),
{
    let ghost contents: Option<Seq<String>> = match entries {
        Some(c) => Some(c@),
        None => None,
    };
    let mut names: Vec<String> = Vec::new();
    if boot_manager {
        names.push("Windows Boot Manager".to_owned());
    }
    let ghost lead = views(names@);
    assert(lead =~= (if boot_manager {
        seq!["Windows Boot Manager"@]
    } else {
        Seq::empty()
    }));
    if let Some(c) = entries {
        let sorted = sorted_titles(c);
        let unique = dedup(&sorted);
        let ghost u = views(unique@);
        assert(u.len() == unique@.len());
        let mut i: usize = 0;
        while i < unique.len() && i < 2
            invariant
                i <= unique@.len(),
                i <= 2,
                u == views(unique@),
                views(names@) == lead + u.take(i as int),
            decreases unique@.len() - i,
        {
            let ghost before = names@;
            names.push(unique[i].clone());
            assert(views(names@) =~= views(before).push(unique@[i as int]@));
            assert(u.take(i + 1) =~= u.take(i as int).push(u[i as int]));
            assert(views(names@) =~= lead + u.take(i + 1));
            i += 1;
        }
        assert(u.take(i as int) =~= first_two(u));
    }
    assert(views(names@) =~= esp_names(boot_manager, contents));
    assert(views(names@).len() == names@.len());
    if names.len() == 0 {
        return None;
    }
    let kind = if names.len() > 1 {
        OsKind::Unknown
    } else if boot_manager {
        OsKind::Windows
    } else {
        OsKind::Linux
    };
    Some(DetectedOs { pretty_name: text::join(&names, " + "), kind })
}

/// The name in one line of an os-release file, if it gives one.
pub open spec fn pretty_name(line: Seq<char>) -> Option<Seq<char>> {
    match after_prefix(line, "PRETTY_NAME="@) {
        Some(v) => {
            let name = trimmed(trimmed(v, CharClass::White), CharClass::Is('"'));
            if name.len() > 0 {
                Some(name)
            } else {
                None
            }
        },
        None => None,
    }
}

pub open spec fn pretty_from(ls: Seq<Seq<char>>, i: int) -> Option<Seq<char>>
    decreases ls.len() - i,
{
    if i < 0 || i >= ls.len() {
        None
    } else if pretty_name(ls[i]) is Some {
        pretty_name(ls[i])
    } else {
        pretty_from(ls, i + 1)
    }
}

/// The first name in the files that could be read.
pub open spec fn release_from(files: Seq<Option<String>>, i: int) -> Option<Seq<char>>
    decreases files.len() - i,
{
    if i < 0 || i >= files.len() {
        None
    } else if files[i] is Some && pretty_from(lines(files[i]->0@), 0) is Some {
        pretty_from(lines(files[i]->0@), 0)
    } else {
        release_from(files, i + 1)
    }
}

fn find_pretty(content: &str) -> (r: Option<String>)
    ensures
        opt_view(r) == pretty_from(lines(content@), 0),
{
    let chars = text::chars_of(content);
    let list = text::split_lines(&chars);
    let ghost ls = lines(content@);
    let mut i: usize = 0;
    while i < list.len()
        invariant
            i <= list@.len(),
            views(list@) == ls,
            ls == lines(content@),
            pretty_from(ls, 0) == pretty_from(ls, i as int),
        decreases list@.len() - i,
    {
        assert(ls[i as int] == list@[i as int]@);
        if let Some(v) = text::strip_prefix(&list[i], "PRETTY_NAME=") {
            let bare = text::trim(&v, CharClass::White);
            let name = text::trim(&bare, CharClass::Is('"'));
            if name.len() > 0 {
                return Some(text::string_of(&name));
            }
        }
        i += 1;
    }
    None
}

/// The system that the os-release files of a mounted root name, in order;
/// `None` stands for a file that could not be read.
pub fn read_os_release(files: &Vec<Option<String>>) -> (r: Option<DetectedOs>)
    ensures
        opt_view(r) == (match release_from(files@, 0) {
            Some(n) => Some((n, OsKind::Linux)),
            None => None,
        }),
{
    let mut i: usize = 0;
    while i < files.len()
        invariant
            i <= files@.len(),
            release_from(files@, 0) == release_from(files@, i as int),
        decreases files@.len() - i,
    {
        if let Some(content) = &files[i] {
            if let Some(name) = find_pretty(content.as_str()) {
                return Some(DetectedOs { pretty_name: name, kind: OsKind::Linux });
            }
        }
        i += 1;
    }
    None
}

/// A composefs deployment: both of its directories are there.
pub fn read_composefs(composefs: bool, state: bool) -> (r: Option<DetectedOs>)
    ensures
        opt_view(r) == (if composefs && state {
            Some(("Linux (bootc)"@, OsKind::Linux))
        } else {
            None
        }),
{
    if composefs && state {
        Some(DetectedOs { pretty_name: "Linux (bootc)".to_owned(), kind: OsKind::Linux })
    } else {
        None
    }
}

/// A Windows system: its directory is there.
pub fn read_windows(windows: bool) -> (r: Option<DetectedOs>)
    ensures
        opt_view(r) == (if windows {
            Some(("Windows"@, OsKind::Windows))
        } else {
            None
        }),
{
    if windows {
        Some(DetectedOs { pretty_name: "Windows".to_owned(), kind: OsKind::Windows })
    } else {
        None
    }
}

/// Every attempt mounts the filesystem that the partition has, NTFS by the
/// kernel's driver, and what is read follows from it: boot entries on an ESP,
/// the release file on a Linux filesystem, and for Btrfs also in the usual
/// subvolumes and at last the directories of a deployment.
pub proof fn law_attempts_follow_the_filesystem(fstype: Option<Seq<char>>, on_esp: bool, i: int)
    requires
        0 <= i < attempts_for(fstype, on_esp).len(),
    ensures
        ({
            let list = attempts_for(fstype, on_esp);
            &&& fstype is Some
            &&& list[i].fstype == (if fstype == Some("ntfs"@) {
                "ntfs3"@
            } else {
                fstype->0
            })
            &&& list[i].reading is Esp ==> fstype == Some("vfat"@) && on_esp
            &&& list[i].reading is Windows ==> fstype == Some("ntfs"@)
            &&& list[i].reading is Composefs ==> fstype == Some("btrfs"@) && i == list.len() - 1
            &&& list[i].option is Some ==> fstype == Some("btrfs"@) && list[i].reading is OsRelease
        }),
{
    reveal_strlit("ext4");
    reveal_strlit("xfs");
    reveal_strlit("ntfs");
    reveal_strlit("btrfs");
    reveal_strlit("vfat");
    assert("ext4"@[0] == 'e' && "xfs"@[0] == 'x' && "ntfs"@[0] == 'n' && "btrfs"@[0] == 'b'
        && "vfat"@[0] == 'v');
}

/// The filesystems that are looked into are those that a system is found on.
pub proof fn law_known_filesystems_are_tried(on_esp: bool)
    ensures
        attempts_for(Some("ext4"@), on_esp).len() == 1,
        attempts_for(Some("ext4"@), on_esp)[0].reading is OsRelease,
        attempts_for(Some("xfs"@), on_esp).len() == 1,
        attempts_for(Some("xfs"@), on_esp)[0].reading is OsRelease,
        attempts_for(Some("ntfs"@), on_esp).len() == 1,
        attempts_for(Some("ntfs"@), on_esp)[0].reading is Windows,
        attempts_for(Some("btrfs"@), on_esp).len() == 4,
        attempts_for(Some("btrfs"@), on_esp)[0].option is None,
        attempts_for(Some("btrfs"@), on_esp)[1].option == Some("subvol=@"@),
        attempts_for(Some("btrfs"@), on_esp)[2].option == Some("subvol=root"@),
        attempts_for(Some("btrfs"@), on_esp)[3].reading is Composefs,
        attempts_for(Some("vfat"@), true).len() == 1,
        attempts_for(Some("vfat"@), true)[0].reading is Esp,
        attempts_for(Some("vfat"@), false).len() == 0,
        attempts_for(None, on_esp).len() == 0,
{
    reveal_strlit("ext4");
    reveal_strlit("xfs");
    reveal_strlit("ntfs");
    reveal_strlit("btrfs");
    reveal_strlit("vfat");
    assert("ext4"@[0] == 'e' && "xfs"@[0] == 'x' && "ntfs"@[0] == 'n' && "btrfs"@[0] == 'b'
        && "vfat"@[0] == 'v');
}

/// The first attempt that finds a system settles it, with what was found;
/// nothing is settled without a find before all attempts were made. Only an
/// NTFS partition that cannot be mounted is taken for Windows unseen.
pub proof fn law_the_first_find_settles(
    fstype: Option<Seq<char>>,
    on_esp: bool,
    index: int,
    os: (Seq<char>, OsKind),
)
    requires
        0 <= index < attempts_for(fstype, on_esp).len(),
    ensures
        verdict(fstype, on_esp, index, Some(Some(os))) == VerdictView::Settled(Some(os)),
        verdict(fstype, on_esp, index, Some(None)) is TryNext <==> index < attempts_for(
            fstype,
            on_esp,
        ).len() - 1,
        verdict(fstype, on_esp, index, Some(None)) matches VerdictView::Settled(found)
            ==> found is None,
        fstype != Some("ntfs"@) ==> verdict(fstype, on_esp, index, None) == verdict(
            fstype,
            on_esp,
            index,
            Some(None),
        ),
        fstype == Some("ntfs"@) ==> verdict(fstype, on_esp, index, None) == VerdictView::Settled(
            Some(("Windows (NTFS)"@, OsKind::Windows)),
        ),
{
}

/// A probe mounts the device that it is about at its own directory, with the
/// type and the option of the attempt, read-only.
pub proof fn law_probes_mount_the_device(device: Seq<char>, a: AttemptView, dir: Seq<char>)
    ensures
        ({
            let c = probe_mount_command(device, a, dir);
            &&& c.program == "mount"@ && c.args.len() == 6
            &&& c.args[0] == "-t"@ && c.args[1] == a.fstype
            &&& c.args[2] == "-o"@
            &&& a.option is None ==> c.args[3] == "ro"@
            &&& a.option matches Some(o) ==> c.args[3] == "ro,"@ + o
            &&& c.args[4] == device && c.args[5] == dir
        }),
{
    reveal_strlit("ro");
    reveal_strlit(",");
    reveal_strlit("ro,");
    assert("ro"@ + ","@ =~= "ro,"@);
}

/// Where a probe mounts is named after the process and the device, so that
/// probes of different devices do not meet.
pub proof fn law_probes_have_their_own_place(pid: nat, device: Seq<char>, other: Seq<char>)
    ensures
        last_name(device) matches Some(n) ==> probe_path(pid, device) == "/run/cosmonaut/probe/"@
            + decimal(pid) + "-"@ + n,
        last_name(device) is Some && last_name(other) is Some && probe_path(pid, device)
            == probe_path(pid, other) ==> last_name(device) == last_name(other),
{
    if last_name(device) is Some && last_name(other) is Some && probe_path(pid, device)
        == probe_path(pid, other) {
        let front = "/run/cosmonaut/probe/"@ + decimal(pid) + "-"@;
        let a = last_name(device)->0;
        let b = last_name(other)->0;
        assert(a =~= (front + a).skip(front.len() as int));
        assert(b =~= (front + b).skip(front.len() as int));
    }
}

/// The title of a boot entry is what its first title line says, without the
/// blanks around it; an entry without such a line has none.
pub proof fn law_titles_are_read(ls: Seq<Seq<char>>, i: int, rest: Seq<char>)
    requires
        0 <= i < ls.len(),
        ls[i] == "title "@ + rest,
        forall|j: int| 0 <= j < i ==> !has_prefix(#[trigger] ls[j], "title "@),
    ensures
        title_from(ls, 0) is Some,
        text::is_stripped(rest, title_from(ls, 0)->0),
{
    text::law_prefixes_are_cut_off("title "@, rest, rest);
    text::law_trimming_strips(rest);
    lemma_title(ls, 0, i);
}

proof fn lemma_title(ls: Seq<Seq<char>>, from: int, i: int)
    requires
        0 <= from <= i < ls.len(),
        has_prefix(ls[i], "title "@),
        forall|j: int| from <= j < i ==> !has_prefix(#[trigger] ls[j], "title "@),
    ensures
        title_from(ls, from) == Some(trimmed(after_prefix(ls[i], "title "@)->0, CharClass::White)),
    decreases i - from,
{
    if from < i {
        lemma_title(ls, from + 1, i);
    }
}

/// Each entry with a title line adds its title, and the others add none.
pub proof fn law_each_entry_adds_its_title(contents: Seq<String>, entry: String)
    ensures
        titles(Seq::empty()).len() == 0,
        (forall|j: int|
            0 <= j < lines(entry@).len() ==> !has_prefix(#[trigger] lines(entry@)[j], "title "@))
            ==> titles(contents.push(entry)) == titles(contents),
        (exists|j: int|
            0 <= j < lines(entry@).len() && has_prefix(#[trigger] lines(entry@)[j], "title "@))
            ==> titles(contents.push(entry)).len() == titles(contents).len() + 1,
{
    assert(contents.push(entry).drop_last() =~= contents);
    lemma_no_title(lines(entry@), 0);
}

proof fn lemma_no_title(ls: Seq<Seq<char>>, i: int)
    requires
        0 <= i <= ls.len(),
    ensures
        title_from(ls, i) is None <==> forall|j: int|
            i <= j < ls.len() ==> !has_prefix(#[trigger] ls[j], "title "@),
    decreases ls.len() - i,
{
    if i < ls.len() {
        lemma_no_title(ls, i + 1);
    }
}

proof fn lemma_title_order()
    ensures
        text::is_total_preorder(title_le()),
{
    let le = title_le();
    assert forall|a: Seq<char>, b: Seq<char>| #[trigger] le(a, b) || le(b, a) by {
        text::lemma_text_total(a, b);
    }
    assert forall|a: Seq<char>, b: Seq<char>, c: Seq<char>| #[trigger] le(a, b) && #[trigger] le(
        b,
        c,
    ) implies le(a, c) by {
        text::lemma_text_transitive(a, b, c);
    }
}

/// Dropping repeats from a sorted list leaves each of its members once.
#[verifier::spinoff_prover]
proof fn lemma_deduped(s: Seq<Seq<char>>)
    requires
        text::is_sorted(s, title_le()),
    ensures
        forall|x: Seq<char>| #[trigger] deduped(s).contains(x) <==> s.contains(x),
        forall|i: int, j: int|
            0 <= i < j < deduped(s).len() ==> text_le(#[trigger] deduped(s)[i], #[trigger] deduped(
                s,
            )[j]) && deduped(s)[i] != deduped(s)[j],
        s.len() > 0 ==> deduped(s).len() > 0 && deduped(s).last() == s.last(),
    decreases s.len(),
{
    if s.len() > 0 {
        let t = s.drop_last();
        let front = deduped(t);
        let all = deduped(s);
        let x = s.last();
        assert forall|i: int, j: int| 0 <= i < j < t.len() implies title_le()(
            #[trigger] t[i],
            #[trigger] t[j],
        ) by {
            assert(s[i] == t[i] && s[j] == t[j]);
        }
        lemma_deduped(t);
        assert(s =~= t.push(x));
        assert forall|y: Seq<char>| #[trigger] all.contains(y) <==> s.contains(y) by {
            if front.contains(y) {
                let m = front.index_of(y);
                assert(all[m] == y);
                let n = t.index_of(y);
                assert(s[n] == y);
            }
            if s.contains(y) {
                let n = s.index_of(y);
                if n < t.len() {
                    assert(t[n] == y);
                    assert(t.contains(y));
                    assert(front.contains(y));
                } else {
                    assert(all[all.len() - 1] == x);
                }
            }
            if all.contains(y) && !front.contains(y) {
                let m = all.index_of(y);
                if m < front.len() {
                    assert(front[m] == y);
                }
                assert(y == x);
                assert(s[s.len() - 1] == x);
            }
        }
        if !(front.len() > 0 && front.last() == x) {
            assert forall|i: int, j: int| 0 <= i < j < all.len() implies text_le(
                #[trigger] all[i],
                #[trigger] all[j],
            ) && all[i] != all[j] by {
                if j < front.len() {
                    assert(front[i] == all[i] && front[j] == all[j]);
                } else {
                    let y = front[i];
                    assert(front.contains(y));
                    assert(t.contains(y));
                    let n = t.index_of(y);
                    assert(s[n] == y && s[s.len() - 1] == x);
                    assert(title_le()(s[n], s[s.len() - 1]));
                    let z = front.last();
                    if y == x {
                        assert(t.last() == z && t.len() > 0);
                        assert(s[t.len() - 1] == z);
                        assert(title_le()(s[t.len() - 1], s[s.len() - 1]));
                        if i < front.len() - 1 {
                            assert(text_le(front[i], front[front.len() - 1]));
                            text::lemma_text_antisymmetric(z, x);
                        }
                    }
                }
            }
        }
    }
}

/// What an ESP starts is told in full when it is one system: the Windows boot
/// manager alone is Windows, one boot entry title alone is a Linux system of
/// that name, and without either there is nothing. When there is more, the
/// names are all told, with a plus sign between them.
#[verifier::spinoff_prover]
pub proof fn law_esp_systems_are_named(boot_manager: bool, entries: Option<Seq<String>>, t: Seq<char>)
    ensures
        ({
            let none = entries is None || titles(entries->0).len() == 0;
            let one = entries is Some && titles(entries->0).len() > 0 && forall|i: int|
                0 <= i < titles(entries->0).len() ==> #[trigger] titles(entries->0)[i] == t;
            let system = esp_system(boot_manager, entries);
            &&& !boot_manager && none ==> system is None
            &&& boot_manager && none ==> system == Some(
                ("Windows Boot Manager"@, OsKind::Windows),
            )
            &&& !boot_manager && one ==> system == Some((t, OsKind::Linux))
            &&& boot_manager && one ==> system == Some(
                ("Windows Boot Manager"@ + " + "@ + t, OsKind::Unknown),
            )
        }),
{
    let windows = "Windows Boot Manager"@;
    let some = Seq::<Seq<char>>::empty();
    if entries is Some {
        let all = titles(entries->0);
        let sorted = sorted_by(all, title_le());
        lemma_title_order();
        text::lemma_sorted_by(all, title_le());
        lemma_deduped(sorted);
        let kept = deduped(sorted);
        let one = all.len() > 0 && forall|i: int| 0 <= i < all.len() ==> #[trigger] all[i] == t;
        if one {
            lemma_same_members(all);
            assert forall|i: int| 0 <= i < kept.len() implies #[trigger] kept[i] == t by {
                assert(kept.contains(kept[i]));
                assert(sorted.contains(kept[i]));
                assert(all.contains(kept[i]));
            }
            if kept.len() > 1 {
                assert(kept[0] == kept[1]);
            }
            assert(kept =~= seq![t]);
            assert(esp_names(false, entries) =~= seq![t]);
            assert(esp_names(true, entries) =~= seq![windows, t]);
            assert(seq![windows, t].drop_last() =~= seq![windows]);
            text::law_joining_separates(seq![windows], t, " + "@);
            text::law_joining_separates(some, windows, " + "@);
            text::law_joining_separates(some, t, " + "@);
            assert(seq![windows].push(t) =~= seq![windows, t]);
        }
        if all.len() == 0 {
            assert(kept.len() == 0);
            assert(first_two(kept).len() == 0);
        }
    }
    let none = entries is None || titles(entries->0).len() == 0;
    if none {
        assert(esp_names(false, entries) =~= some);
        assert(esp_names(true, entries) =~= seq![windows]);
        text::law_joining_separates(some, windows, " + "@);
    }
}

proof fn lemma_same_members(all: Seq<Seq<char>>)
    ensures
        forall|x: Seq<char>| #[trigger] sorted_by(all, title_le()).contains(x) <==> all.contains(x),
{
    broadcast use vstd::seq_lib::group_to_multiset_ensures;

    lemma_title_order();
    text::lemma_sorted_by(all, title_le());
    let sorted = sorted_by(all, title_le());
    assert forall|x: Seq<char>| #[trigger] sorted.contains(x) <==> all.contains(x) by {
        assert(sorted.contains(x) <==> sorted.to_multiset().count(x) > 0);
        assert(all.contains(x) <==> all.to_multiset().count(x) > 0);
    }
}

/// The titles that are told are among those that were found, no two of them
/// alike and in order, and all of them are told if there are no more than
/// two.
pub proof fn law_told_titles_were_found(contents: Seq<String>, i: int, j: int)
    ensures
        ({
            let told = esp_names(false, Some(contents));
            let found = titles(contents);
            &&& told.len() <= 2
            &&& 0 <= i < told.len() ==> found.contains(told[i])
            &&& 0 <= i < j < told.len() ==> told[i] != told[j] && text_le(told[i], told[j])
            &&& told.len() < 2 && 0 <= i < found.len() ==> told.contains(found[i])
        }),
{
    let found = titles(contents);
    let sorted = sorted_by(found, title_le());
    lemma_title_order();
    text::lemma_sorted_by(found, title_le());
    lemma_deduped(sorted);
    lemma_same_members(found);
    let kept = deduped(sorted);
    let told = esp_names(false, Some(contents));
    assert(told =~= first_two(kept));
    if 0 <= i < told.len() {
        assert(told[i] == kept[i]);
        assert(kept.contains(kept[i]));
    }
    if 0 <= i < j < told.len() {
        assert(told[j] == kept[j]);
    }
    if told.len() < 2 && 0 <= i < found.len() {
        assert(found.contains(found[i]));
        assert(sorted.contains(found[i]));
        assert(kept.contains(found[i]));
    }
}

/// A release file names its system in the line for it: a name in quotes is
/// read without them.
#[verifier::spinoff_prover]
pub proof fn law_pretty_names_are_read(name: Seq<char>)
    requires
        name.len() > 0,
        name[0] != '"' && !text::is_white(name[0]),
        name.last() != '"' && !text::is_white(name.last()),
    ensures
        pretty_name("PRETTY_NAME="@ + name) == Some(name),
        pretty_name("PRETTY_NAME="@ + seq!['"'] + name + seq!['"']) == Some(name),
{
    let quoted = seq!['"'] + name + seq!['"'];
    text::law_prefixes_are_cut_off("PRETTY_NAME="@, name, name);
    text::law_prefixes_are_cut_off("PRETTY_NAME="@, quoted, name);
    assert("PRETTY_NAME="@ + seq!['"'] + name + seq!['"'] =~= "PRETTY_NAME="@ + quoted);
    text::lemma_not_trimmed(name, CharClass::White);
    text::lemma_not_trimmed(name, CharClass::Is('"'));
    lemma_quotes(name);
}

#[verifier::spinoff_prover]
proof fn lemma_quotes(name: Seq<char>)
    requires
        name.len() > 0,
        name[0] != '"',
        name.last() != '"',
    ensures
        ({
            let quoted = seq!['"'] + name + seq!['"'];
            &&& trimmed(quoted, CharClass::White) == quoted
            &&& trimmed(quoted, CharClass::Is('"')) == name
        }),
{
    let quoted = seq!['"'] + name + seq!['"'];
    let mark = CharClass::Is('"');
    text::law_ascii_classes('"');
    assert(quoted[0] == '"' && quoted.last() == '"');
    text::lemma_not_trimmed(quoted, CharClass::White);
    assert(quoted[1] == name[0]);
    text::lemma_leading(quoted, mark, 1);
    let rest = name + seq!['"'];
    assert(text::trimmed_start(quoted, mark) =~= rest);
    assert(rest[rest.len() - 2] == name.last());
    assert(rest[rest.len() - 1] == '"');
    text::lemma_trailing(rest, mark, 1);
    assert(trimmed(quoted, mark) =~= name);
}

/// Of the release files the first that names a system is believed, and in it
/// the first line that does.
pub proof fn law_the_first_release_file_counts(files: Seq<Option<String>>, i: int, k: int)
    requires
        0 <= i < files.len(),
        files[i] is Some,
        0 <= k < lines(files[i]->0@).len(),
        pretty_name(lines(files[i]->0@)[k]) is Some,
        forall|m: int| 0 <= m < k ==> pretty_name(#[trigger] lines(files[i]->0@)[m]) is None,
        forall|j: int, m: int|
            #![trigger lines(files[j]->0@)[m]]
            0 <= j < i && files[j] is Some && 0 <= m < lines(files[j]->0@).len() ==> pretty_name(
                lines(files[j]->0@)[m],
            ) is None,
    ensures
        release_from(files, 0) == pretty_name(lines(files[i]->0@)[k]),
{
    lemma_pretty(lines(files[i]->0@), 0, k);
    assert forall|j: int| 0 <= j < i && (#[trigger] files[j]) is Some implies pretty_from(
        lines(files[j]->0@),
        0,
    ) is None by {
        assert forall|m: int| 0 <= m < lines(files[j]->0@).len() implies pretty_name(
            #[trigger] lines(files[j]->0@)[m],
        ) is None by {}
        lemma_not_pretty(lines(files[j]->0@), 0);
    }
    lemma_release(files, 0, i);
}

proof fn lemma_pretty(ls: Seq<Seq<char>>, from: int, k: int)
    requires
        0 <= from <= k < ls.len(),
        pretty_name(ls[k]) is Some,
        forall|m: int| from <= m < k ==> pretty_name(#[trigger] ls[m]) is None,
    ensures
        pretty_from(ls, from) == pretty_name(ls[k]),
    decreases k - from,
{
    if from < k {
        lemma_pretty(ls, from + 1, k);
    }
}

proof fn lemma_not_pretty(ls: Seq<Seq<char>>, from: int)
    requires
        0 <= from <= ls.len(),
        forall|m: int| from <= m < ls.len() ==> pretty_name(#[trigger] ls[m]) is None,
    ensures
        pretty_from(ls, from) is None,
    decreases ls.len() - from,
{
    if from < ls.len() {
        lemma_not_pretty(ls, from + 1);
    }
}

proof fn lemma_release(files: Seq<Option<String>>, from: int, i: int)
    requires
        0 <= from <= i < files.len(),
        files[i] is Some,
        pretty_from(lines(files[i]->0@), 0) is Some,
        forall|j: int|
            from <= j < i && (#[trigger] files[j]) is Some ==> pretty_from(
                lines(files[j]->0@),
                0,
            ) is None,
    ensures
        release_from(files, from) == pretty_from(lines(files[i]->0@), 0),
    decreases i - from,
{
    if from < i {
        lemma_release(files, from + 1, i);
    }
}

} // verus!
