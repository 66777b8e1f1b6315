//! The wizard's pages: their order on the step rail, and the texts that
//! they show.
use vstd::prelude::*;

use crate::choices::{EncryptionChoice, PartitionModeChoice};
use crate::disk_bar::{
    arrange, arranged, covered, erase_segments, free_segment, gaps_total, known_total,
    law_arranging_keeps_the_total, lemma_total_add, lemma_total_of_partitions, partition_name,
    place, placed_total, plain_name, segments_erase, BarSegment, Placed, SegRole, SegView,
};
use crate::install::{ESP_BYTES, ROOT_MIN_BYTES};
use crate::images_json::ImageOption;
use crate::layout::{layout_error, layout_summary, planned_items, LayoutUiState};
use crate::partition::{esp_guid, is_esp};
use crate::probe::{
    human_size, is_last_largest, largest_index, lemma_last_largest_unique, size_text, DiskInfo, Gap,
    PartitionInfo, PartitionView,
};
use crate::text::{self, decimal, joined, opt_view, uppercase, views};

verus! {

#[derive(Debug, Clone, Copy, PartialEq, Eq, Structural)]
pub enum Page {
    Welcome,
    Image,
    Wifi,
    Disk,
    CustomLayout,
    Encryption,
    Confirm,
    Progress,
    Done,
}

impl Page {
    pub open spec fn text(self) -> Seq<char> {
        match self {
            Page::Welcome => "Welcome"@,
            Page::Image => "Image"@,
            Page::Wifi => "Wifi"@,
            Page::Disk => "Disk"@,
            Page::CustomLayout => "Custom layout"@,
            Page::Encryption => "Encryption"@,
            Page::Confirm => "Confirm"@,
            Page::Progress => "Installing"@,
            Page::Done => "Done"@,
        }
    }

    /// The page's name.
    pub fn label(self) -> (r: &'static str)
        ensures
            r@ == self.text(),
    {
        match self {
            Page::Welcome => "Welcome",
            Page::Image => "Image",
            Page::Wifi => "Wifi",
            Page::Disk => "Disk",
            Page::CustomLayout => "Custom layout",
            Page::Encryption => "Encryption",
            Page::Confirm => "Confirm",
            Page::Progress => "Installing",
            Page::Done => "Done",
        }
    }
}

/// The number of decisions on the step rail.
pub const RAIL_LEN: usize = 5;

/// The names on the step rail. The custom layout is a part of Disk.
pub open spec fn rail_text(i: int) -> Seq<char> {
    if i == 0 {
        "Image"@
    } else if i == 1 {
        "Network"@
    } else if i == 2 {
        "Disk"@
    } else if i == 3 {
        "Encryption"@
    } else {
        "Confirm"@
    }
}

pub fn rail_label(i: usize) -> (r: &'static str)
    requires
        i < RAIL_LEN,
    ensures
        r@ == rail_text(i as int),
{
    match i {
        0 => "Image",
        1 => "Network",
        2 => "Disk",
        3 => "Encryption",
        _ => "Confirm",
    }
}

pub open spec fn rail_place(page: Page) -> Option<usize> {
    match page {
        Page::Image => Some(0),
        Page::Wifi => Some(1),
        Page::Disk => Some(2),
        Page::CustomLayout => Some(2),
        Page::Encryption => Some(3),
        Page::Confirm => Some(4),
        _ => None,
    }
}

/// A page's place on the step rail, when it is on it.
pub fn rail_index(page: Page) -> (r: Option<usize>)
    ensures
        r == rail_place(page),
        r matches Some(i) ==> i < RAIL_LEN,
{
    match page {
        Page::Image => Some(0),
        Page::Wifi => Some(1),
        Page::Disk => Some(2),
        Page::CustomLayout => Some(2),
        Page::Encryption => Some(3),
        Page::Confirm => Some(4),
        _ => None,
    }
}

/// How a step of the rail looks from the current one.
#[derive(Debug, Clone, Copy, PartialEq, Eq, Structural)]
pub enum RailMark {
    Past,
    Current,
    Ahead,
}

pub fn rail_mark(i: usize, current: usize) -> (r: RailMark)
    ensures
        r == if i < current {
            RailMark::Past
        } else if i == current {
            RailMark::Current
        } else {
            RailMark::Ahead
        },
{
    if i < current {
        RailMark::Past
    } else if i == current {
        RailMark::Current
    } else {
        RailMark::Ahead
    }
}

// ---------- disk labels ----------

/// How a disk is shown.
pub trait DiskExt {
    spec fn label_text(&self) -> Seq<char>;

    fn label(&self) -> (r: String)
        ensures
            r@ == self.label_text(),
    ;
}

impl DiskExt for DiskInfo {
    open spec fn label_text(&self) -> Seq<char> {
        self.path@ + "  ("@ + size_text(self.size_bytes as nat) + (if self.model@.len() == 0 {
            ")"@
        } else {
            ", "@ + self.model@ + ")"@
        })
    }

    fn label(&self) -> (r: String) {
        let size = human_size(self.size_bytes);
        let mut r = text::cat3(self.path.as_str(), "  (", size.as_str());
        if text::chars_of(self.model.as_str()).len() == 0 {
            r.append(")");
        } else {
            let tail = text::cat3(", ", self.model.as_str(), ")");
            r.append(tail.as_str());
        }
        r
    }
}

// ---------- disk page ----------

/// What a partition is best known by, if by anything.
pub open spec fn known_name(p: PartitionView) -> Option<Seq<char>> {
    match p.os {
        Some(os) => Some(os.0),
        None => match p.label {
            Some(l) => Some(l),
            None => p.fstype,
        },
    }
}

/// The first known names, at most `limit` of them.
pub open spec fn known_names(parts: Seq<PartitionView>, limit: nat) -> Seq<Seq<char>>
    decreases parts.len(),
{
    if parts.len() == 0 {
        Seq::empty()
    } else {
        let front = known_names(parts.drop_last(), limit);
        match known_name(parts.last()) {
            Some(n) => if front.len() < limit {
                front.push(n)
            } else {
                front
            },
            None => front,
        }
    }
}

pub open spec fn free_text(gaps: Seq<Gap>) -> Seq<char> {
    if gaps.len() == 0 {
        Seq::empty()
    } else {
        " — "@ + size_text(
            gaps[choose|i: int| is_last_largest(gaps, i)].size_bytes as nat,
        ) + " free"@
    }
}

/// The line below a disk: what is on it, and how much is free.
pub open spec fn disk_detail_text(d: DiskInfo) -> Seq<char> {
    if d.partitions@.len() == 0 {
        "blank disk"@
    } else {
        let names = known_names(d@.partitions, 4);
        decimal(d.partitions@.len()) + " partition(s)"@ + (if names.len() > 0 {
            ": "@ + joined(names, ", "@)
        } else {
            Seq::empty()
        }) + free_text(d.gaps@)
    }
}

fn find_name(p: &PartitionInfo) -> (r: Option<String>)
    ensures
        opt_view(r) == known_name(p@),
{
    if let Some(os) = &p.detected_os {
        return Some(os.pretty_name.clone());
    }
    if let Some(l) = &p.label {
        return Some(l.clone());
    }
    text::clone_opt(&p.fstype)
}

fn find_names(d: &DiskInfo) -> (r: Vec<String>)
    ensures
        views(r@) == known_names(d@.partitions, 4),
{
    let ghost parts = d@.partitions;
    let mut names: Vec<String> = Vec::new();
    let mut i: usize = 0;
    assert(parts.take(0) =~= Seq::empty());
    assert(views(names@) =~= Seq::empty());
    while i < d.partitions.len()
        invariant
            i <= d.partitions@.len(),
            parts == d@.partitions,
            views(names@) == known_names(parts.take(i as int), 4),
        decreases d.partitions@.len() - i,
    {
        let ghost before = names@;
        assert(parts.take(i + 1).drop_last() =~= parts.take(i as int));
        assert(parts.take(i + 1).last() == d.partitions@[i as int]@);
        assert(views(names@).len() == names@.len());
        if let Some(n) = find_name(&d.partitions[i]) {
            if names.len() < 4 {
                let ghost nv = n@;
                names.push(n);
                assert(views(names@) =~= views(before).push(nv));
            }
        }
        i += 1;
    }
    assert(parts.take(parts.len() as int) =~= parts);
    names
}

pub fn disk_detail(d: &DiskInfo) -> (r: String)
    ensures
        r@ == disk_detail_text(*d),
{
    if d.partitions.len() == 0 {
        return "blank disk".to_owned();
    }
    let names = find_names(d);
    assert(views(names@).len() == names@.len());
    let n = text::decimal_string(d.partitions.len() as u64);
    let mut s = text::cat2(n.as_str(), " partition(s)");
    if names.len() > 0 {
        let list = text::join(&names, ", ");
        let tail = text::cat2(": ", list.as_str());
        s.append(tail.as_str());
    }
    assert(s@ =~= decimal(d.partitions@.len()) + " partition(s)"@ + (if names@.len() > 0 {
        ": "@ + joined(views(names@), ", "@)
    } else {
        Seq::empty()
    }));
    match largest_index(&d.gaps) {
        Some(i) => {
            proof {
                let j = choose|j: int| is_last_largest(d.gaps@, j);
                assert(is_last_largest(d.gaps@, i as int));
                lemma_last_largest_unique(d.gaps@, i as int, j);
            }
            let size = human_size(d.gaps[i].size_bytes);
            let tail = text::cat3(" — ", size.as_str(), " free");
            s.append(tail.as_str());
        },
        None => {
            assert(s@ =~= s@ + free_text(d.gaps@));
        },
    }
    s
}

/// The icon of a disk.
pub fn disk_icon(removable: bool) -> (r: &'static str)
    ensures
        r@ == (if removable {
            "drive-removable-media-symbolic"@
        } else {
            "drive-harddisk-system-symbolic"@
        }),
{
    if removable {
        "drive-removable-media-symbolic"
    } else {
        "drive-harddisk-system-symbolic"
    }
}

/// Whether installing into free space is offered for a disk.
pub fn free_space_offered(d: &DiskInfo) -> (r: bool)
    ensures
        r == exists|i: int|
            0 <= i < d.gaps@.len() && (#[trigger] d.gaps@[i]).size_bytes >= ROOT_MIN_BYTES,
{
    match largest_index(&d.gaps) {
        Some(i) => d.gaps[i].size_bytes >= ROOT_MIN_BYTES,
        None => false,
    }
}

/// What the disk page says about a mode.
pub fn mode_description(mode: PartitionModeChoice) -> (r: &'static str)
    ensures
        r@ == (match mode {
            PartitionModeChoice::EraseDisk => "All data on the chosen disk will be erased."@,
            PartitionModeChoice::FreeSpace => "The system installs into unallocated space; existing partitions are kept."@,
            PartitionModeChoice::Custom => "Choose per-partition roles on the next page."@,
        }),
{
    match mode {
        PartitionModeChoice::EraseDisk => "All data on the chosen disk will be erased.",
        PartitionModeChoice::FreeSpace => "The system installs into unallocated space; existing partitions are kept.",
        PartitionModeChoice::Custom => "Choose per-partition roles on the next page.",
    }
}

// ---------- encryption page ----------

/// Whether the encryption page lets the user go on: a passphrase that is
/// needed must be there.
pub fn encryption_complete(choice: EncryptionChoice, passphrase: &str) -> (r: bool)
    ensures
        r == (!choice.wants_passphrase() || passphrase@.len() > 0),
{
    !choice.needs_passphrase() || text::chars_of(passphrase).len() > 0
}

// ---------- confirm page ----------

pub open spec fn kept_segment(p: PartitionView) -> (int, SegView) {
    (
        p.start,
        SegView {
            label: plain_name(p),
            size: p.size,
            role: if p.part_type == Some(esp_guid()) {
                SegRole::Esp
            } else {
                SegRole::Existing
            },
        },
    )
}

pub open spec fn has_esp(parts: Seq<PartitionView>) -> bool {
    exists|i: int| 0 <= i < parts.len() && (#[trigger] parts[i]).part_type == Some(esp_guid())
}

/// The gaps of the first `n` that do not start where the chosen one does.
pub open spec fn other_gaps(gaps: Seq<Gap>, chosen: Gap, n: int) -> Seq<(int, SegView)>
    decreases n,
{
    if n <= 0 {
        Seq::empty()
    } else if gaps[n - 1].start_bytes != chosen.start_bytes {
        other_gaps(gaps, chosen, n - 1).push(
            free_segment(gaps[n - 1].start_bytes as int, gaps[n - 1].size_bytes as int),
        )
    } else {
        other_gaps(gaps, chosen, n - 1)
    }
}

/// What becomes of a disk when a gap takes the new system.
pub open spec fn free_space_items(d: DiskInfo, gap: Gap) -> Seq<(int, SegView)> {
    let start = gap.start_bytes as int;
    let size = gap.size_bytes as int;
    d@.partitions.map_values(|p: PartitionView| kept_segment(p)) + (if has_esp(d@.partitions) {
        seq![(start, SegView { label: "root"@, size, role: SegRole::Root })]
    } else {
        seq![
            (start, SegView { label: "EFI"@, size: ESP_BYTES as int, role: SegRole::Esp }),
            (
                start + ESP_BYTES,
                SegView { label: "root"@, size: size - ESP_BYTES, role: SegRole::Root },
            ),
        ]
    }) + other_gaps(d.gaps@, gap, d.gaps@.len() as int)
}

proof fn lemma_other_gaps(gaps: Seq<Gap>, c: int, n: int)
    requires
        0 <= c < gaps.len(),
        0 <= n <= gaps.len(),
        forall|j: int|
            0 <= j < gaps.len() && j != c && (#[trigger] gaps[j]).start_bytes
                == gaps[c].start_bytes ==> gaps[j].size_bytes == 0,
    ensures
        placed_total(other_gaps(gaps, gaps[c], n)) == gaps_total(views(gaps).take(n)) - (if c < n {
            gaps[c].size_bytes as int
        } else {
            0
        }),
    decreases n,
{
    if n > 0 {
        lemma_other_gaps(gaps, c, n - 1);
        let front = other_gaps(gaps, gaps[c], n - 1);
        let g = gaps[n - 1];
        let shown = views(gaps).take(n);
        assert(shown.drop_last() =~= views(gaps).take(n - 1));
        assert(shown.last() == g@);
        if g.start_bytes != gaps[c].start_bytes {
            let item = free_segment(g.start_bytes as int, g.size_bytes as int);
            assert(front.push(item).drop_last() =~= front);
        }
    }
}

/// The preview of a free-space install adds up to the partitions and gaps of
/// the disk, unless another gap that holds something starts where the chosen
/// one does.
pub proof fn law_free_space_segments_add_up(d: DiskInfo, c: int)
    requires
        0 <= c < d.gaps@.len(),
        forall|j: int|
            0 <= j < d.gaps@.len() && j != c && (#[trigger] d.gaps@[j]).start_bytes
                == d.gaps@[c].start_bytes ==> d.gaps@[j].size_bytes == 0,
    ensures
        covered(arranged(free_space_items(d, d.gaps@[c]))) == known_total(d@),
{
    let gap = d.gaps@[c];
    let start = gap.start_bytes as int;
    let size = gap.size_bytes as int;
    let kept = d@.partitions.map_values(|p: PartitionView| kept_segment(p));
    let new = if has_esp(d@.partitions) {
        seq![(start, SegView { label: "root"@, size, role: SegRole::Root })]
    } else {
        seq![
            (start, SegView { label: "EFI"@, size: ESP_BYTES as int, role: SegRole::Esp }),
            (
                start + ESP_BYTES,
                SegView { label: "root"@, size: size - ESP_BYTES, role: SegRole::Root },
            ),
        ]
    };
    let free = other_gaps(d.gaps@, gap, d.gaps@.len() as int);
    law_arranging_keeps_the_total(free_space_items(d, gap));
    assert(free_space_items(d, gap) =~= kept + new + free);
    lemma_total_add(kept + new, free);
    lemma_total_add(kept, new);
    lemma_total_of_partitions(kept, d@.partitions);
    lemma_other_gaps(d.gaps@, c, d.gaps@.len() as int);
    assert(views(d.gaps@).take(d.gaps@.len() as int) =~= d@.gaps);
    assert(placed_total(new) == size) by {
        reveal_with_fuel(placed_total, 3);
        if new.len() == 2 {
            assert(new.drop_last().last() == new[0]);
        }
    }
}

/// Planned segments for free-space mode: existing partitions kept, the
/// largest gap becomes the root, behind an ESP where there is none. Empty
/// when no gap is large enough.
pub fn segments_free_space(d: &DiskInfo) -> (r: Vec<BarSegment>)
    requires
        d.wf(),
    ensures
        (exists|i: int|
            0 <= i < d.gaps@.len() && (#[trigger] d.gaps@[i]).size_bytes >= ROOT_MIN_BYTES)
            ==> exists|i: int| #[trigger]
            is_last_largest(d.gaps@, i) && views(r@) == arranged(
                free_space_items(*d, d.gaps@[i]),
            ),
        !(exists|i: int|
            0 <= i < d.gaps@.len() && (#[trigger] d.gaps@[i]).size_bytes >= ROOT_MIN_BYTES)
            ==> r@.len() == 0,
{
    let chosen = match largest_index(&d.gaps) {
        Some(i) => i,
        None => return Vec::new(),
    };
    let gap = d.gaps[chosen];
    if gap.size_bytes < ROOT_MIN_BYTES {
        return Vec::new();
    }
    assert(d.gaps@[chosen as int].start_bytes + d.gaps@[chosen as int].size_bytes <= u64::MAX);
    let ghost kept = d@.partitions.map_values(|p: PartitionView| kept_segment(p));
    let mut items: Vec<Placed> = Vec::new();
    let mut esp = false;
    let mut i: usize = 0;
    assert(views(items@) =~= kept.take(0));
    while i < d.partitions.len()
        invariant
            i <= d.partitions@.len(),
            kept == d@.partitions.map_values(|p: PartitionView| kept_segment(p)),
            views(items@) == kept.take(i as int),
            esp <==> exists|k: int|
                0 <= k < i && (#[trigger] d@.partitions[k]).part_type == Some(esp_guid()),
        decreases d.partitions@.len() - i,
    {
        let p = &d.partitions[i];
        assert(d@.partitions[i as int] == p@);
        let role = if is_esp(p) {
            esp = true;
            SegRole::Esp
        } else {
            SegRole::Existing
        };
        place(&mut items, p.start_bytes, partition_name(p), p.size_bytes, role);
        assert(kept.take(i + 1) =~= kept.take(i as int).push(kept[i as int]));
        i += 1;
    }
    assert(kept.take(kept.len() as int) =~= kept);
    assert(esp == has_esp(d@.partitions));
    if esp {
        place(&mut items, gap.start_bytes, "root".to_owned(), gap.size_bytes, SegRole::Root);
    } else {
        place(&mut items, gap.start_bytes, "EFI".to_owned(), ESP_BYTES, SegRole::Esp);
        place(
            &mut items,
            gap.start_bytes + ESP_BYTES,
            "root".to_owned(),
            gap.size_bytes - ESP_BYTES,
            SegRole::Root,
        );
    }
    let ghost front = views(items@);
    let mut k: usize = 0;
    assert(front + Seq::empty() =~= front);
    while k < d.gaps.len()
        invariant
            k <= d.gaps@.len(),
            views(items@) == front + other_gaps(d.gaps@, gap, k as int),
        decreases d.gaps@.len() - k,
    {
        let g = d.gaps[k];
        if g.start_bytes != gap.start_bytes {
            place(&mut items, g.start_bytes, "free space".to_owned(), g.size_bytes, SegRole::Free);
        }
        assert(views(items@) =~= front + other_gaps(d.gaps@, gap, k + 1));
        k += 1;
    }
    assert(views(items@) =~= free_space_items(*d, gap));
    assert(is_last_largest(d.gaps@, chosen as int));
    arrange(&items)
}

/// The preview of the confirm page.
pub fn planned_preview(d: &DiskInfo, mode: PartitionModeChoice, layout: &LayoutUiState) -> (r: Vec<
    BarSegment,
>)
    requires
        d.wf(),
        layout.wf(),
        mode is Custom ==> layout.gap_holds_esp(),
    ensures
        mode is EraseDisk ==> views(r@) == erase_segments(d.size_bytes as int),
        mode is Custom ==> views(r@) == arranged(planned_items(*layout)),
        mode is FreeSpace && (exists|i: int|
            0 <= i < d.gaps@.len() && (#[trigger] d.gaps@[i]).size_bytes >= ROOT_MIN_BYTES)
            ==> exists|i: int| #[trigger]
            is_last_largest(d.gaps@, i) && views(r@) == arranged(
                free_space_items(*d, d.gaps@[i]),
            ),
        mode is FreeSpace && !(exists|i: int|
            0 <= i < d.gaps@.len() && (#[trigger] d.gaps@[i]).size_bytes >= ROOT_MIN_BYTES)
            ==> r@.len() == 0,
{
    match mode {
        PartitionModeChoice::EraseDisk => segments_erase(d),
        PartitionModeChoice::FreeSpace => segments_free_space(d),
        PartitionModeChoice::Custom => layout.planned_segments(),
    }
}

/// The systems found on the partitions.
pub open spec fn system_names(parts: Seq<PartitionView>) -> Seq<Seq<char>>
    decreases parts.len(),
{
    if parts.len() == 0 {
        Seq::empty()
    } else {
        match parts.last().os {
            Some(os) => system_names(parts.drop_last()).push(os.0),
            None => system_names(parts.drop_last()),
        }
    }
}

/// The warning of the confirm page. Erasing names what is lost when it is
/// known.
pub open spec fn confirm_text(mode: PartitionModeChoice, names: Seq<Seq<char>>) -> Seq<char> {
    match mode {
        PartitionModeChoice::EraseDisk => if names.len() == 0 {
            "Clicking Install will erase the chosen disk and write the chosen image. This cannot be undone."@
        } else {
            "Clicking Install will erase the chosen disk — including "@ + joined(names, ", "@)
                + " — and write the chosen image. This cannot be undone."@
        },
        PartitionModeChoice::FreeSpace => "Only the shown free space will be used; existing partitions are not modified."@,
        PartitionModeChoice::Custom => "Partitions will be modified as shown. Deleted and formatted partitions cannot be recovered."@,
    }
}

fn find_systems(d: &DiskInfo) -> (r: Vec<String>)
    ensures
        views(r@) == system_names(d@.partitions),
{
    let ghost parts = d@.partitions;
    let mut names: Vec<String> = Vec::new();
    let mut i: usize = 0;
    assert(parts.take(0) =~= Seq::empty());
    assert(views(names@) =~= Seq::empty());
    while i < d.partitions.len()
        invariant
            i <= d.partitions@.len(),
            parts == d@.partitions,
            views(names@) == system_names(parts.take(i as int)),
        decreases d.partitions@.len() - i,
    {
        let ghost before = names@;
        assert(parts.take(i + 1).drop_last() =~= parts.take(i as int));
        assert(parts.take(i + 1).last() == d.partitions@[i as int]@);
        if let Some(os) = &d.partitions[i].detected_os {
            names.push(os.pretty_name.clone());
            assert(views(names@) =~= views(before).push(os.pretty_name@));
        }
        i += 1;
    }
    assert(parts.take(parts.len() as int) =~= parts);
    names
}

pub fn confirm_description(mode: PartitionModeChoice, disk: Option<&DiskInfo>) -> (r: String)
    ensures
        r@ == confirm_text(
            mode,
            match disk {
                Some(d) => system_names(d@.partitions),
                None => Seq::empty(),
            },
        ),
{
    match mode {
        PartitionModeChoice::EraseDisk => {
            let names: Vec<String> = match disk {
                Some(d) => find_systems(d),
                None => Vec::new(),
            };
            assert(views(names@) =~= (match disk {
                Some(d) => system_names(d@.partitions),
                None => Seq::empty(),
            }));
            assert(views(names@).len() == names@.len());
            if names.len() == 0 {
                "Clicking Install will erase the chosen disk and write the chosen image. This cannot be undone.".to_owned()
            } else {
                let list = text::join(&names, ", ");
                text::cat3(
                    "Clicking Install will erase the chosen disk — including ",
                    list.as_str(),
                    " — and write the chosen image. This cannot be undone.",
                )
            }
        },
        PartitionModeChoice::FreeSpace => "Only the shown free space will be used; existing partitions are not modified.".to_owned(),
        PartitionModeChoice::Custom => "Partitions will be modified as shown. Deleted and formatted partitions cannot be recovered.".to_owned(),
    }
}

// ---------- progress and done pages ----------

pub open spec fn step_or(step: Option<Seq<char>>, other: Seq<char>) -> Seq<char> {
    match step {
        Some(s) => s,
        None => other,
    }
}

/// The caption of the progress page: the step, and what it is doing.
pub fn progress_caption(step: &Option<String>, detail: &str) -> (r: String)
    ensures
        r@ == step_or(opt_view(*step), "starting"@) + " — "@ + detail@,
{
    match step {
        Some(s) => text::cat3(s.as_str(), " — ", detail),
        None => text::cat3("starting", " — ", detail),
    }
}

/// The percentage of the progress page, open until the first report.
pub fn percent_label(percent: Option<u8>) -> (r: String)
    ensures
        r@ == (match percent {
            Some(p) => decimal(p as nat) + "%"@,
            None => "…"@,
        }),
{
    match percent {
        Some(p) => {
            let n = text::decimal_string(p as u64);
            text::cat2(n.as_str(), "%")
        },
        None => "…".to_owned(),
    }
}

/// What the failure page says about the step.
pub fn failure_caption(step: &Option<String>) -> (r: String)
    ensures
        r@ == "It failed during the “"@ + step_or(opt_view(*step), "starting"@)
            + "” step. Nothing has been left mounted; retrying is safe."@,
{
    let tail: &str = "” step. Nothing has been left mounted; retrying is safe.";
    match step {
        Some(s) => text::cat3("It failed during the “", s.as_str(), tail),
        None => text::cat3("It failed during the “", "starting", tail),
    }
}

/// What the failure page says about saved logs.
pub fn saved_caption(saved: &Option<Result<String, String>>) -> (r: Option<String>)
    ensures
        opt_view(r) == (match saved {
            None => None,
            Some(Ok(path)) => Some(
                "Logs saved to "@ + path@
                    + ". The live session is temporary — copy the file to a USB stick or another machine before rebooting."@,
            ),
            Some(Err(e)) => Some("Saving logs failed: "@ + e@),
        }),
{
    match saved {
        None => None,
        Some(Ok(path)) => Some(
            text::cat3(
                "Logs saved to ",
                path.as_str(),
                ". The live session is temporary — copy the file to a USB stick or another machine before rebooting.",
            ),
        ),
        Some(Err(e)) => Some(text::cat2("Saving logs failed: ", e.as_str())),
    }
}

/// The countdown of the success page.
pub fn countdown_caption(seconds: u8) -> (r: String)
    ensures
        r@ == "Restarting in "@ + decimal(seconds as nat) + " seconds"@,
{
    let n = text::decimal_string(seconds as u64);
    text::cat3("Restarting in ", n.as_str(), " seconds")
}

// ---------- welcome page ----------

/// The line above the welcome title.
pub fn eyebrow(name: &str) -> (r: String)
    ensures
        r@ == uppercase(name@) + " INSTALLER"@,
{
    let loud = text::to_uppercase(name);
    text::cat2(loud.as_str(), " INSTALLER")
}

/// What the steps of the rail are about.
pub open spec fn blurb_text(i: int) -> Seq<char> {
    if i == 0 {
        "Pick the system image"@
    } else if i == 1 {
        "Get online (or skip)"@
    } else if i == 2 {
        "Choose where it lives"@
    } else if i == 3 {
        "Encrypt it, or don't"@
    } else {
        "Review and install"@
    }
}

/// What a step of the rail is about.
pub fn step_blurb(i: usize) -> (r: &'static str)
    requires
        i < RAIL_LEN,
    ensures
        r@ == blurb_text(i as int),
{
    if i == 0 {
        "Pick the system image"
    } else if i == 1 {
        "Get online (or skip)"
    } else if i == 2 {
        "Choose where it lives"
    } else if i == 3 {
        "Encrypt it, or don't"
    } else {
        "Review and install"
    }
}

// ---------- layout page ----------

/// The row of a partition: node, size, filesystem, and whether it is in
/// use.
pub open spec fn partition_row_text(p: PartitionInfo) -> Seq<char> {
    p.path@ + "  "@ + size_text(p.size_bytes as nat) + "  "@ + step_or(opt_view(p.fstype), "—"@)
        + (if p.mounted {
        "  (mounted)"@
    } else {
        Seq::empty()
    })
}

/// The row of a partition.
pub fn partition_row(p: &PartitionInfo) -> (r: String)
    ensures
        r@ == partition_row_text(*p),
{
    let size = human_size(p.size_bytes);
    let mut r = text::cat4(p.path.as_str(), "  ", size.as_str(), "  ");
    match &p.fstype {
        Some(f) => r.append(f.as_str()),
        None => r.append("—"),
    }
    let ghost so_far = r@;
    if p.mounted {
        r.append("  (mounted)");
    } else {
        assert(so_far + Seq::<char>::empty() =~= so_far);
    }
    r
}

/// The option of creating the root in a gap.
pub fn gap_option(g: &Gap) -> (r: String)
    ensures
        r@ == "Create in free space at "@ + size_text(g.start_bytes as nat) + " ("@ + size_text(
            g.size_bytes as nat,
        ) + " available)"@,
{
    let start = human_size(g.start_bytes);
    let size = human_size(g.size_bytes);
    text::cat5("Create in free space at ", start.as_str(), " (", size.as_str(), " available)")
}

/// The line below the layout, and whether the wizard may go on: what the
/// plan comes to, or what is wrong with it.
pub fn layout_caption(layout: &LayoutUiState) -> (r: (String, bool))
    requires
        layout.wf(),
    ensures
        r.1 == (layout_error(*layout) is None),
        r.0@ == (match layout_error(*layout) {
            None => "Plan: "@ + layout_summary(*layout),
            Some(problem) => problem,
        }),
{
    match layout.validate() {
        Ok(summary) => (text::cat2("Plan: ", summary.as_str()), true),
        Err(problem) => (problem, false),
    }
}

/// Why installing into free space is not offered.
pub fn free_space_hint() -> (r: String)
    ensures
        r@ == "Install into free space: unavailable (needs a "@ + size_text(ROOT_MIN_BYTES as nat)
            + "+ gap)"@,
{
    let least = human_size(ROOT_MIN_BYTES);
    text::cat3("Install into free space: unavailable (needs a ", least.as_str(), "+ gap)")
}

// ---------- confirm page ----------

/// The chosen image's name.
pub fn image_caption(image: Option<&ImageOption>) -> (r: String)
    ensures
        r@ == (match image {
            Some(i) => i.name@,
            None => "?"@,
        }),
{
    match image {
        Some(i) => i.name.clone(),
        None => "?".to_owned(),
    }
}

/// The chosen disk's label.
pub fn disk_caption(disk: Option<&DiskInfo>) -> (r: String)
    ensures
        r@ == (match disk {
            Some(d) => d.label_text(),
            None => "?"@,
        }),
{
    match disk {
        Some(d) => d.label(),
        None => "?".to_owned(),
    }
}

// ---------- done page ----------

/// The file that a report is saved to, by the time in seconds.
pub fn report_path(seconds: u64) -> (r: String)
    ensures
        r@ == "/tmp/cosmonaut-install-"@ + decimal(seconds as nat) + ".log"@,
{
    let n = text::decimal_string(seconds);
    text::cat3("/tmp/cosmonaut-install-", n.as_str(), ".log")
}

/// The pages stand on the rail in their order; the layout belongs to the disk
/// and the first and the last pages to none of its places.
pub proof fn law_rail_follows_the_pages()
    ensures
        rail_place(Page::Image) == Some(0usize) && rail_text(0) == "Image"@,
        rail_place(Page::Wifi) == Some(1usize) && rail_text(1) == "Network"@,
        rail_place(Page::Disk) == Some(2usize) && rail_text(2) == "Disk"@,
        rail_place(Page::CustomLayout) == rail_place(Page::Disk),
        rail_place(Page::Encryption) == Some(3usize) && rail_text(3) == "Encryption"@,
        rail_place(Page::Confirm) == Some(4usize) && rail_text(4) == "Confirm"@,
        rail_place(Page::Welcome) is None && rail_place(Page::Progress) is None && rail_place(
            Page::Done,
        ) is None,
{
}

/// Before a disk is erased, every system on it is named.
pub proof fn law_erased_systems_are_named(parts: Seq<PartitionView>, i: int)
    requires
        0 <= i < parts.len(),
        parts[i].os is Some,
    ensures
        system_names(parts).contains((parts[i].os->0).0),
        confirm_text(PartitionModeChoice::EraseDisk, system_names(parts))
            == "Clicking Install will erase the chosen disk — including "@ + joined(
            system_names(parts),
            ", "@,
        ) + " — and write the chosen image. This cannot be undone."@,
    decreases parts.len(),
{
    let front = parts.drop_last();
    let all = system_names(parts);
    if i < front.len() {
        law_erased_systems_are_named(front, i);
        let m = system_names(front).index_of((parts[i].os->0).0);
        assert(all[m] == (parts[i].os->0).0);
    } else {
        assert(all[all.len() - 1] == (parts[i].os->0).0);
    }
}

/// Only systems that are on the disk are named.
pub proof fn law_named_systems_are_there(parts: Seq<PartitionView>, n: int)
    requires
        0 <= n < system_names(parts).len(),
    ensures
        exists|i: int|
            0 <= i < parts.len() && (#[trigger] parts[i]).os is Some && (parts[i].os->0).0
                == system_names(parts)[n],
    decreases parts.len(),
{
    let front = parts.drop_last();
    if n < system_names(front).len() {
        law_named_systems_are_there(front, n);
        let i = choose|i: int|
            0 <= i < front.len() && (#[trigger] front[i]).os is Some && (front[i].os->0).0
                == system_names(front)[n];
        assert(parts[i] == front[i]);
    } else {
        assert(parts[parts.len() - 1].os is Some);
    }
}

/// The preview of a free-space install shows the partitions as they are and
/// the gap as it will be: all root where the disk has an ESP, and else an ESP
/// of 512 MiB with the root behind it, which together fill the gap.
pub proof fn law_previews_fill_the_gap(d: DiskInfo, gap: Gap, i: int)
    ensures
        ({
            let items = free_space_items(d, gap);
            let n = d.partitions@.len() as int;
            let efi = exists|k: int|
                0 <= k < n && crate::partition::is_efi((#[trigger] d.partitions@[k])@);
            &&& 0 <= i < n ==> items[i].0 == d.partitions@[i].start_bytes && items[i].1.size
                == d.partitions@[i].size_bytes && (items[i].1.role is Esp
                <==> crate::partition::is_efi(d.partitions@[i]@))
            &&& efi ==> items[n].0 == gap.start_bytes && items[n].1.size == gap.size_bytes
                && items[n].1.role is Root
            &&& !efi ==> items[n].0 == gap.start_bytes && items[n].1.size == 536870912
                && items[n].1.role is Esp && items[n + 1].0 == gap.start_bytes + 536870912
                && items[n].1.size + items[n + 1].1.size == gap.size_bytes && items[n
                + 1].1.role is Root
        }),
{
    let parts = d@.partitions;
    let n = d.partitions@.len() as int;
    let items = free_space_items(d, gap);
    let head = parts.map_values(|p: PartitionView| kept_segment(p));
    assert(head.len() == n);
    if 0 <= i < n {
        assert(items[i] == head[i]);
        assert(parts[i] == d.partitions@[i]@);
    }
    if has_esp(parts) {
        let k = choose|k: int|
            0 <= k < parts.len() && (#[trigger] parts[k]).part_type == Some(esp_guid());
        assert(parts[k] == d.partitions@[k]@);
        assert(crate::partition::is_efi(d.partitions@[k]@));
    } else {
        assert forall|k: int| 0 <= k < n implies !crate::partition::is_efi(
            (#[trigger] d.partitions@[k])@,
        ) by {
            assert(parts[k] == d.partitions@[k]@);
        }
    }
}

/// A row shows its partition by path and size, and that it is mounted.
pub proof fn law_rows_show_their_partition(p: PartitionInfo)
    ensures
        text::has_prefix(partition_row_text(p), p.path@ + "  "@ + size_text(p.size_bytes as nat)),
        p.mounted && p.fstype is Some ==> partition_row_text(p) == p.path@ + "  "@ + size_text(
            p.size_bytes as nat,
        ) + "  "@ + p.fstype->0@ + "  (mounted)"@,
        !p.mounted && p.fstype is Some ==> partition_row_text(p) == p.path@ + "  "@ + size_text(
            p.size_bytes as nat,
        ) + "  "@ + p.fstype->0@,
{
    let r = partition_row_text(p);
    let head = p.path@ + "  "@ + size_text(p.size_bytes as nat);
    assert(r.take(head.len() as int) =~= head);
    if !p.mounted && p.fstype is Some {
        assert(r =~= head + "  "@ + p.fstype->0@);
    }
}

/// A disk with partitions is described by their number, by the names of those
/// that are known and by the largest gap; one without is blank.
pub proof fn law_disks_are_described_by_their_contents(d: DiskInfo, i: int)
    requires
        is_last_largest(d.gaps@, i),
        d.partitions@.len() > 0,
    ensures
        ({
            let names = known_names(d@.partitions, 4);
            let told = if names.len() > 0 {
                ": "@ + joined(names, ", "@)
            } else {
                Seq::empty()
            };
            &&& names.len() <= 4
            &&& disk_detail_text(d) == decimal(d.partitions@.len()) + " partition(s)"@ + told + (
            " — "@ + size_text(d.gaps@[i].size_bytes as nat) + " free"@)
        }),
{
    let m = choose|m: int| is_last_largest(d.gaps@, m);
    lemma_last_largest_unique(d.gaps@, i, m);
    lemma_known_names(d@.partitions, 4);
}

proof fn lemma_known_names(parts: Seq<PartitionView>, limit: nat)
    ensures
        known_names(parts, limit).len() <= limit,
    decreases parts.len(),
{
    if parts.len() > 0 {
        lemma_known_names(parts.drop_last(), limit);
    }
}

/// A partition is known by the system on it, or else by its label or its
/// filesystem; the first known ones are named, up to the limit.
pub proof fn law_known_partitions_are_named(
    parts: Seq<PartitionView>,
    p: PartitionView,
    limit: nat,
)
    ensures
        p.os is Some ==> known_name(p) == Some((p.os->0).0),
        p.os is None && p.label is Some ==> known_name(p) == p.label,
        p.os is None && p.label is None ==> known_name(p) == p.fstype,
        known_name(p) is Some && known_names(parts, limit).len() < limit ==> known_names(
            parts.push(p),
            limit,
        ) == known_names(parts, limit).push(known_name(p)->0),
        known_name(p) is None || known_names(parts, limit).len() >= limit ==> known_names(
            parts.push(p),
            limit,
        ) == known_names(parts, limit),
{
    assert(parts.push(p).drop_last() =~= parts);
}

} // verus!
