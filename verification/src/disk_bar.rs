//! The disk map: a proportional, role-coloured strip of the whole device
//! with a legend. Space that the segments don't cover is drawn as an
//! unallocated filler, so proportions are honest even without gap data.
use vstd::prelude::*;

use crate::measure::{law_scaled_bounded, scale_ratio, scaled};
use crate::probe::{human_size, size_text, DiskInfo, DiskView, PartitionInfo, PartitionView};
use crate::text::{self, decimal, inserted, sorted_by, views};

verus! {

/// What a bar segment will be (or is), which drives its colour.
#[derive(Debug, Clone, Copy, PartialEq, Eq, Structural)]
pub enum SegRole {
    /// EFI system partition, new or kept.
    Esp,
    /// The new root filesystem.
    Root,
    /// An existing partition left untouched.
    Existing,
    /// Unallocated space.
    Free,
}

#[derive(Debug, PartialEq, Eq)]
pub struct BarSegment {
    pub label: String,
    pub size_bytes: u64,
    pub role: SegRole,
}

#[verifier::ext_equal]
pub struct SegView {
    pub label: Seq<char>,
    pub size: int,
    pub role: SegRole,
}

impl View for BarSegment {
    type V = SegView;

    open spec fn view(&self) -> SegView {
        SegView { label: self.label@, size: self.size_bytes as int, role: self.role }
    }
}

impl Clone for BarSegment {
    fn clone(&self) -> (r: Self)
        ensures
            r == *self,
    {
        BarSegment { label: self.label.clone(), size_bytes: self.size_bytes, role: self.role }
    }
}

/// A segment with its position on the disk.
#[derive(Debug, PartialEq, Eq)]
pub struct Placed {
    pub start: u64,
    pub segment: BarSegment,
}

impl View for Placed {
    type V = (int, SegView);

    open spec fn view(&self) -> (int, SegView) {
        (self.start as int, self.segment@)
    }
}

impl Clone for Placed {
    fn clone(&self) -> (r: Self)
        ensures
            r == *self,
    {
        Placed { start: self.start, segment: self.segment.clone() }
    }
}

pub open spec fn placed_le() -> spec_fn((int, SegView), (int, SegView)) -> bool {
    |a: (int, SegView), b: (int, SegView)| a.0 <= b.0
}

/// Segments in the order of their positions.
pub open spec fn arranged(items: Seq<(int, SegView)>) -> Seq<SegView> {
    sorted_by(items, placed_le()).map_values(|p: (int, SegView)| p.1)
}

pub open spec fn item_le() -> spec_fn(Placed, Placed) -> bool {
    |a: Placed, b: Placed| a.start <= b.start
}

fn insert_item(list: &mut Vec<Placed>, p: Placed)
    ensures
        final(list)@ == inserted(old(list)@, p, item_le()),
{
    let ghost before = list@;
    let mut pos: usize = list.len();
    while pos > 0 && list[pos - 1].start > p.start
        invariant
            pos <= list@.len(),
            list@ == before,
            forall|j: int| pos <= j < list@.len() ==> !item_le()(#[trigger] list@[j], p),
        decreases pos,
    {
        pos -= 1;
    }
    proof {
        text::lemma_inserted_at(before, p, item_le(), pos as int);
    }
    list.insert(pos, p);
}

/// Puts segments in the order of their positions.
pub fn arrange(items: &Vec<Placed>) -> (r: Vec<BarSegment>)
    ensures
        views(r@) == arranged(views(items@)),
{
    let mut sorted: Vec<Placed> = Vec::new();
    let mut i: usize = 0;
    assert(items@.take(0) =~= Seq::empty());
    while i < items.len()
        invariant
            i <= items@.len(),
            sorted@ == sorted_by(items@.take(i as int), item_le()),
        decreases items@.len() - i,
    {
        let ghost next = items@.take(i + 1);
        assert(next.drop_last() =~= items@.take(i as int));
        insert_item(&mut sorted, items[i].clone());
        i += 1;
    }
    assert(items@.take(items@.len() as int) =~= items@);
    let ghost view_of = |p: Placed| p@;
    proof {
        assert forall|x: Placed, y: Placed| #[trigger]
            item_le()(x, y) == placed_le()(view_of(x), view_of(y)) by {}
        text::lemma_sorted_by_map(items@, view_of, item_le(), placed_le());
        assert(items@.map_values(view_of) =~= views(items@));
    }
    let mut out: Vec<BarSegment> = Vec::new();
    let mut k: usize = 0;
    let ghost goal = arranged(views(items@));
    assert(goal.len() == sorted@.len());
    while k < sorted.len()
        invariant
            k <= sorted@.len(),
            goal.len() == sorted@.len(),
            forall|j: int| 0 <= j < sorted@.len() ==> goal[j] == #[trigger] sorted@[j].segment@,
            views(out@) == goal.take(k as int),
        decreases sorted@.len() - k,
    {
        let ghost before = out@;
        out.push(sorted[k].segment.clone());
        assert(views(out@) =~= views(before).push(sorted@[k as int].segment@));
        assert(goal.take(k + 1) =~= goal.take(k as int).push(goal[k as int]));
        k += 1;
    }
    assert(goal.take(sorted@.len() as int) =~= goal);
    out
}

/// Adds one placed segment.
pub fn place(list: &mut Vec<Placed>, start: u64, label: String, size_bytes: u64, role: SegRole)
    ensures
        views(final(list)@) == views(old(list)@).push(
            (start as int, (SegView { label: label@, size: size_bytes as int, role })),
        ),
{
    let ghost before = list@;
    let item = Placed { start, segment: BarSegment { label, size_bytes, role } };
    list.push(item);
    assert(views(list@) =~= views(before).push(item@));
}

pub open spec fn free_segment(start: int, size: int) -> (int, SegView) {
    (start, SegView { label: "free space"@, size, role: SegRole::Free })
}

// ---------- names ----------

/// A partition's label, else its filesystem, else its number.
pub open spec fn plain_name(p: PartitionView) -> Seq<char> {
    match p.label {
        Some(l) => l,
        None => match p.fstype {
            Some(f) => f,
            None => "partition "@ + decimal(p.number as nat),
        },
    }
}

/// The operating system found on a partition, else its plain name.
pub open spec fn current_name(p: PartitionView) -> Seq<char> {
    match p.os {
        Some(os) => os.0,
        None => plain_name(p),
    }
}

pub fn partition_name(p: &PartitionInfo) -> (r: String)
    ensures
        r@ == plain_name(p@),
{
    if let Some(l) = &p.label {
        return l.clone();
    }
    if let Some(f) = &p.fstype {
        return f.clone();
    }
    let n = text::decimal_string(p.number as u64);
    text::cat2("partition ", n.as_str())
}

// ---------- layouts ----------

pub open spec fn current_items(disk: DiskView) -> Seq<(int, SegView)> {
    disk.partitions.map_values(
        |p: PartitionView|
            (
                p.start,
                SegView { label: current_name(p), size: p.size, role: SegRole::Existing },
            ),
    ) + disk.gaps.map_values(|g: (int, int)| free_segment(g.0, g.1))
}

/// The disk as it is now: partitions interleaved with known free-space
/// gaps, in the order of their positions.
pub fn segments_current(disk: &DiskInfo) -> (r: Vec<BarSegment>)
    ensures
        views(r@) == arranged(current_items(disk@)),
{
    let ghost goal = current_items(disk@);
    let ghost np = disk.partitions@.len() as int;
    let mut items: Vec<Placed> = Vec::new();
    let mut i: usize = 0;
    assert(views(items@) =~= goal.take(0));
    while i < disk.partitions.len()
        invariant
            i <= disk.partitions@.len(),
            goal == current_items(disk@),
            views(items@) == goal.take(i as int),
        decreases disk.partitions@.len() - i,
    {
        let p = &disk.partitions[i];
        assert(disk@.partitions[i as int] == p@);
        let name = match &p.detected_os {
            Some(os) => os.pretty_name.clone(),
            None => partition_name(p),
        };
        place(&mut items, p.start_bytes, name, p.size_bytes, SegRole::Existing);
        assert(goal.take(i + 1) =~= goal.take(i as int).push(goal[i as int]));
        i += 1;
    }
    let mut k: usize = 0;
    while k < disk.gaps.len()
        invariant
            k <= disk.gaps@.len(),
            np == disk.partitions@.len(),
            goal == current_items(disk@),
            views(items@) == goal.take(np + k),
        decreases disk.gaps@.len() - k,
    {
        let g = disk.gaps[k];
        assert(disk@.gaps[k as int] == g@);
        assert(goal[np + k] == free_segment(g@.0, g@.1));
        place(&mut items, g.start_bytes, "free space".to_owned(), g.size_bytes, SegRole::Free);
        assert(goal.take(np + k + 1) =~= goal.take(np + k).push(goal[np + k]));
        k += 1;
    }
    assert(goal.take(goal.len() as int) =~= goal);
    arrange(&items)
}

pub open spec fn erase_segments(size: int) -> Seq<SegView> {
    let fixed = 1610612736int;
    seq![
        SegView { label: "EFI"@, size: 536870912, role: SegRole::Esp },
        SegView { label: "boot"@, size: 1073741824, role: SegRole::Existing },
        SegView {
            label: "new system"@,
            size: if size >= fixed {
                size - fixed
            } else {
                0
            },
            role: SegRole::Root,
        },
    ]
}

/// The layout that erasing the disk creates.
pub fn segments_erase(disk: &DiskInfo) -> (r: Vec<BarSegment>)
    ensures
        views(r@) == erase_segments(disk.size_bytes as int),
{
    let esp: u64 = 512 * 1024 * 1024;
    let boot: u64 = 1024 * 1024 * 1024;
    let root: u64 = if disk.size_bytes >= esp + boot {
        disk.size_bytes - (esp + boot)
    } else {
        0
    };
    let mut out: Vec<BarSegment> = Vec::new();
    out.push(BarSegment { label: "EFI".to_owned(), size_bytes: esp, role: SegRole::Esp });
    out.push(BarSegment { label: "boot".to_owned(), size_bytes: boot, role: SegRole::Existing });
    out.push(BarSegment { label: "new system".to_owned(), size_bytes: root, role: SegRole::Root });
    assert(views(out@) =~= erase_segments(disk.size_bytes as int));
    out
}

// ---------- the strip ----------

pub open spec fn covered(segments: Seq<SegView>) -> int
    decreases segments.len(),
{
    if segments.len() == 0 {
        0
    } else {
        covered(segments.drop_last()) + segments.last().size
    }
}

/// The sizes of placed segments, added up.
pub open spec fn placed_total(items: Seq<(int, SegView)>) -> int
    decreases items.len(),
{
    if items.len() == 0 {
        0
    } else {
        placed_total(items.drop_last()) + items.last().1.size
    }
}

/// The sizes of partitions, added up.
pub open spec fn partitions_total(parts: Seq<PartitionView>) -> int
    decreases parts.len(),
{
    if parts.len() == 0 {
        0
    } else {
        partitions_total(parts.drop_last()) + parts.last().size
    }
}

/// The sizes of gaps, added up.
pub open spec fn gaps_total(gaps: Seq<(int, int)>) -> int
    decreases gaps.len(),
{
    if gaps.len() == 0 {
        0
    } else {
        gaps_total(gaps.drop_last()) + gaps.last().1
    }
}

/// What is known of a disk: its partitions and its gaps.
pub open spec fn known_total(disk: DiskView) -> int {
    partitions_total(disk.partitions) + gaps_total(disk.gaps)
}

pub proof fn lemma_total_add(a: Seq<(int, SegView)>, b: Seq<(int, SegView)>)
    ensures
        placed_total(a + b) == placed_total(a) + placed_total(b),
    decreases b.len(),
{
    if b.len() == 0 {
        assert(a + b =~= a);
    } else {
        lemma_total_add(a, b.drop_last());
        assert((a + b).drop_last() =~= a + b.drop_last());
        assert((a + b).last() == b.last());
    }
}

/// Segments that stand for partitions one by one add up to them.
pub proof fn lemma_total_of_partitions(items: Seq<(int, SegView)>, parts: Seq<PartitionView>)
    requires
        items.len() == parts.len(),
        forall|i: int| 0 <= i < parts.len() ==> (#[trigger] items[i]).1.size == parts[i].size,
    ensures
        placed_total(items) == partitions_total(parts),
    decreases parts.len(),
{
    if parts.len() > 0 {
        assert forall|i: int| 0 <= i < parts.len() - 1 implies (
        #[trigger] items.drop_last()[i]).1.size == parts.drop_last()[i].size by {
            assert(items.drop_last()[i] == items[i]);
        }
        lemma_total_of_partitions(items.drop_last(), parts.drop_last());
        assert(items[parts.len() - 1].1.size == parts[parts.len() - 1].size);
    }
}

proof fn lemma_inserted_total(t: Seq<(int, SegView)>, x: (int, SegView))
    ensures
        placed_total(inserted(t, x, placed_le())) == placed_total(t) + x.1.size,
    decreases t.len(),
{
    if t.len() == 0 || placed_le()(t.last(), x) {
        assert(t.push(x).drop_last() =~= t);
    } else {
        lemma_inserted_total(t.drop_last(), x);
        let shorter = inserted(t.drop_last(), x, placed_le());
        assert(shorter.push(t.last()).drop_last() =~= shorter);
    }
}

proof fn lemma_sorted_total(items: Seq<(int, SegView)>)
    ensures
        placed_total(sorted_by(items, placed_le())) == placed_total(items),
    decreases items.len(),
{
    if items.len() > 0 {
        lemma_sorted_total(items.drop_last());
        lemma_inserted_total(sorted_by(items.drop_last(), placed_le()), items.last());
    }
}

proof fn lemma_covered_total(items: Seq<(int, SegView)>)
    ensures
        covered(items.map_values(|p: (int, SegView)| p.1)) == placed_total(items),
    decreases items.len(),
{
    let shown = items.map_values(|p: (int, SegView)| p.1);
    if items.len() > 0 {
        lemma_covered_total(items.drop_last());
        assert(shown.drop_last() =~= items.drop_last().map_values(|p: (int, SegView)| p.1));
        assert(shown.last() == items.last().1);
    }
}

/// Putting segments in order changes nothing about what they add up to.
pub proof fn law_arranging_keeps_the_total(items: Seq<(int, SegView)>)
    ensures
        covered(arranged(items)) == placed_total(items),
{
    lemma_sorted_total(items);
    lemma_covered_total(sorted_by(items, placed_le()));
}

proof fn lemma_gap_items(gaps: Seq<(int, int)>)
    ensures
        placed_total(gaps.map_values(|g: (int, int)| free_segment(g.0, g.1))) == gaps_total(gaps),
    decreases gaps.len(),
{
    let items = gaps.map_values(|g: (int, int)| free_segment(g.0, g.1));
    if gaps.len() > 0 {
        lemma_gap_items(gaps.drop_last());
        assert(items.drop_last() =~= gaps.drop_last().map_values(
            |g: (int, int)| free_segment(g.0, g.1),
        ));
    }
}

/// The map of a disk as it is now adds up to its partitions and gaps.
pub proof fn law_current_segments_add_up(disk: DiskView)
    ensures
        covered(arranged(current_items(disk))) == known_total(disk),
{
    let kept = disk.partitions.map_values(
        |p: PartitionView|
            (
                p.start,
                SegView { label: current_name(p), size: p.size, role: SegRole::Existing },
            ),
    );
    let free = disk.gaps.map_values(|g: (int, int)| free_segment(g.0, g.1));
    law_arranging_keeps_the_total(current_items(disk));
    assert(current_items(disk) =~= kept + free);
    lemma_total_add(kept, free);
    lemma_total_of_partitions(kept, disk.partitions);
    lemma_gap_items(disk.gaps);
}

/// What the strip is scaled against: the device, or more where the segments
/// cover more.
pub open spec fn strip_total(segments: Seq<SegView>, total_bytes: int) -> int {
    if covered(segments) > total_bytes && covered(segments) > 1 {
        covered(segments)
    } else if total_bytes > 1 {
        total_bytes
    } else {
        1
    }
}

/// The uncovered rest, where it is large enough to be worth showing:
/// alignment slack is not.
pub open spec fn filler(segments: Seq<SegView>, total_bytes: int) -> Option<int> {
    let total = strip_total(segments, total_bytes);
    let rest = total - covered(segments);
    let floor = if total / 100 > 67108864int {
        total / 100
    } else {
        67108864int
    };
    if rest >= floor {
        Some(rest)
    } else {
        None
    }
}

/// Weight per mille of the device, floored so slivers stay visible.
pub open spec fn weight_of(size: int, total: int) -> int {
    let w = scaled(size as nat, total as nat, 1000) as int;
    if w > 65535 {
        65535
    } else if w > 18 {
        w
    } else {
        18
    }
}

pub fn weight(size: u64, total: u64) -> (r: u16)
    requires
        total > 0,
    ensures
        r == weight_of(size as int, total as int),
{
    let w = scale_ratio(size, total, 1000);
    if w > 65535 {
        65535
    } else if w > 18 {
        w as u16
    } else {
        18
    }
}

/// A part of the device weighs between the floor and the whole.
pub proof fn law_weights_stay_visible(size: int, total: int)
    requires
        0 <= size <= total,
        total > 0,
    ensures
        18 <= weight_of(size, total) <= 1000,
{
    law_scaled_bounded(size as nat, total as nat, 1000);
}

pub proof fn lemma_covered_parts(segments: Seq<SegView>, i: int)
    requires
        0 <= i <= segments.len(),
        forall|k: int| 0 <= k < segments.len() ==> (#[trigger] segments[k]).size >= 0,
    ensures
        0 <= covered(segments.take(i)) <= covered(segments),
    decreases segments.len() - i, i,
{
    if i == segments.len() {
        assert(segments.take(i) =~= segments);
        if i > 0 {
            lemma_covered_front(segments);
        }
    } else {
        lemma_covered_parts(segments, i + 1);
        assert(segments.take(i + 1).drop_last() =~= segments.take(i));
        lemma_covered_front(segments.take(i));
    }
}

proof fn lemma_covered_front(segments: Seq<SegView>)
    requires
        forall|k: int| 0 <= k < segments.len() ==> (#[trigger] segments[k]).size >= 0,
    ensures
        covered(segments) >= 0,
    decreases segments.len(),
{
    if segments.len() > 0 {
        lemma_covered_front(segments.drop_last());
        assert(segments[segments.len() - 1].size >= 0);
    }
}

/// Whether the sizes of the segments add up to a 64 bit number.
pub fn sizes_fit(segments: &Vec<BarSegment>) -> (r: bool)
    ensures
        r == (covered(views(segments@)) <= u64::MAX),
{
    let ghost segs = views(segments@);
    let mut sum: u128 = 0;
    let mut i: usize = 0;
    assert(segs.take(0) =~= Seq::empty());
    while i < segments.len()
        invariant
            i <= segments@.len(),
            segs == views(segments@),
            sum == covered(segs.take(i as int)),
            sum <= i * u64::MAX,
        decreases segments@.len() - i,
    {
        assert(segs.take(i + 1).drop_last() =~= segs.take(i as int));
        assert(i * u64::MAX + u64::MAX == (i + 1) * u64::MAX && (i + 1) * u64::MAX <= u128::MAX)
            by (nonlinear_arith)
            requires
                i < usize::MAX,
        ;
        sum = sum + segments[i].size_bytes as u128;
        i += 1;
    }
    assert(segs.take(segs.len() as int) =~= segs);
    sum <= u64::MAX as u128
}

fn sum_sizes(segments: &Vec<BarSegment>) -> (r: u64)
    requires
        covered(views(segments@)) <= u64::MAX,
    ensures
        r == covered(views(segments@)),
{
    let ghost segs = views(segments@);
    let mut sum: u64 = 0;
    let mut i: usize = 0;
    assert(segs.take(0) =~= Seq::empty());
    while i < segments.len()
        invariant
            i <= segments@.len(),
            segs == views(segments@),
            covered(segs) <= u64::MAX,
            sum == covered(segs.take(i as int)),
        decreases segments@.len() - i,
    {
        proof {
            assert(segs.take(i + 1).drop_last() =~= segs.take(i as int));
            lemma_covered_parts(segs, i + 1);
        }
        sum = sum + segments[i].size_bytes;
        i += 1;
    }
    assert(segs.take(segs.len() as int) =~= segs);
    sum
}

fn filler_size(sum: u64, total_bytes: u64) -> (r: (u64, Option<u64>))
    ensures
        forall|segs: Seq<SegView>| #[trigger]
            covered(segs) == sum ==> r.0 == strip_total(segs, total_bytes as int) && match r.1 {
                Some(n) => filler(segs, total_bytes as int) == Some(n as int),
                None => filler(segs, total_bytes as int) is None,
            },
        r.0 > 0,
        r.0 >= sum,
{
    let total: u64 = if sum > total_bytes && sum > 1 {
        sum
    } else if total_bytes > 1 {
        total_bytes
    } else {
        1
    };
    let rest = total - sum;
    let floor: u64 = if total / 100 > 64 * 1024 * 1024 {
        total / 100
    } else {
        64 * 1024 * 1024
    };
    if rest >= floor {
        (total, Some(rest))
    } else {
        (total, None)
    }
}

pub open spec fn strip_of(segments: Seq<SegView>, total_bytes: int) -> Seq<(SegRole, u16)> {
    let total = strip_total(segments, total_bytes);
    segments.map_values(|s: SegView| (s.role, weight_of(s.size, total) as u16)) + (match filler(
        segments,
        total_bytes,
    ) {
        Some(rest) => seq![(SegRole::Free, weight_of(rest, total) as u16)],
        None => Seq::empty(),
    })
}

/// The disk map strip: one coloured portion per segment, plus the filler.
pub fn bar(segments: &Vec<BarSegment>, total_bytes: u64) -> (r: Vec<(SegRole, u16)>)
    requires
        covered(views(segments@)) <= u64::MAX,
    ensures
        r@ == strip_of(views(segments@), total_bytes as int),
{
    let ghost segs = views(segments@);
    let ghost goal = strip_of(segs, total_bytes as int);
    let sum = sum_sizes(segments);
    let (total, rest) = filler_size(sum, total_bytes);
    let mut out: Vec<(SegRole, u16)> = Vec::new();
    let mut i: usize = 0;
    while i < segments.len()
        invariant
            i <= segments@.len(),
            segs == views(segments@),
            total > 0,
            total == strip_total(segs, total_bytes as int),
            goal == strip_of(segs, total_bytes as int),
            out@ == goal.take(i as int),
        decreases segments@.len() - i,
    {
        assert(segs[i as int] == segments@[i as int]@);
        out.push((segments[i].role, weight(segments[i].size_bytes, total)));
        assert(goal.take(i + 1) =~= goal.take(i as int).push(goal[i as int]));
        i += 1;
    }
    if let Some(n) = rest {
        out.push((SegRole::Free, weight(n, total)));
    }
    assert(out@ =~= goal);
    out
}

pub open spec fn chip_text(label: Seq<char>, size: int) -> Seq<char> {
    label + " · "@ + size_text(size as nat)
}

pub open spec fn legend_of(segments: Seq<SegView>, total_bytes: int) -> Seq<(SegRole, Seq<char>)> {
    segments.map_values(|s: SegView| (s.role, chip_text(s.label, s.size))) + (match filler(
        segments,
        total_bytes,
    ) {
        Some(rest) => seq![(SegRole::Free, chip_text("unallocated"@, rest))],
        None => Seq::empty(),
    })
}

/// One entry of the legend.
#[derive(Debug, PartialEq, Eq)]
pub struct Chip {
    pub role: SegRole,
    pub text: String,
}

impl View for Chip {
    type V = (SegRole, Seq<char>);

    open spec fn view(&self) -> (SegRole, Seq<char>) {
        (self.role, self.text@)
    }
}

fn chip(role: SegRole, label: &str, size: u64) -> (r: Chip)
    ensures
        r@ == (role, chip_text(label@, size as int)),
{
    let shown = human_size(size);
    Chip { role, text: text::cat3(label, " · ", shown.as_str()) }
}

/// The legend: a chip with label and size per segment, plus the filler when
/// it is drawn in the bar.
pub fn legend(segments: &Vec<BarSegment>, total_bytes: u64) -> (r: Vec<Chip>)
    requires
        covered(views(segments@)) <= u64::MAX,
    ensures
        views(r@) == legend_of(views(segments@), total_bytes as int),
{
    let ghost segs = views(segments@);
    let ghost goal = legend_of(segs, total_bytes as int);
    let sum = sum_sizes(segments);
    let (_total, rest) = filler_size(sum, total_bytes);
    let mut out: Vec<Chip> = Vec::new();
    let mut i: usize = 0;
    assert(views(out@) =~= goal.take(0));
    while i < segments.len()
        invariant
            i <= segments@.len(),
            segs == views(segments@),
            goal == legend_of(segs, total_bytes as int),
            views(out@) == goal.take(i as int),
        decreases segments@.len() - i,
    {
        let ghost before = out@;
        assert(segs[i as int] == segments@[i as int]@);
        let c = chip(segments[i].role, segments[i].label.as_str(), segments[i].size_bytes);
        let ghost cv = c@;
        out.push(c);
        assert(views(out@) =~= views(before).push(cv));
        assert(goal.take(i + 1) =~= goal.take(i as int).push(goal[i as int]));
        i += 1;
    }
    if let Some(n) = rest {
        let ghost before = out@;
        let c = chip(SegRole::Free, "unallocated", n);
        let ghost cv = c@;
        out.push(c);
        assert(views(out@) =~= views(before).push(cv));
    }
    assert(views(out@) =~= goal);
    out
}

/// The bar of a disk shows each partition and each gap, as large as it is,
/// a gap as free and a partition as one that exists, under the name of the
/// system on it, or else its label, its filesystem or its number.
pub proof fn law_bars_show_what_is_there(disk: DiskView, i: int)
    ensures
        ({
            let items = current_items(disk);
            let n = disk.partitions.len();
            &&& items.len() == n + disk.gaps.len()
            &&& 0 <= i < n ==> {
                let p = disk.partitions[i];
                let s = items[i];
                &&& s.0 == p.start && s.1.size == p.size && s.1.role is Existing
                &&& p.os is Some ==> s.1.label == (p.os->0).0
                &&& p.os is None && p.label is Some ==> s.1.label == p.label->0
                &&& p.os is None && p.label is None && p.fstype is Some ==> s.1.label
                    == p.fstype->0
                &&& p.os is None && p.label is None && p.fstype is None ==> s.1.label
                    == "partition "@ + decimal(p.number as nat)
            }
            &&& 0 <= i < disk.gaps.len() ==> items[n + i].0 == disk.gaps[i].0 && items[n
                + i].1.size == disk.gaps[i].1 && items[n + i].1.role is Free
        }),
{
}

/// Arranging puts the segments in the order of their places and neither
/// loses nor adds any.
pub proof fn law_arranging_orders_by_place(items: Seq<(int, SegView)>)
    ensures
        exists|sorted: Seq<(int, SegView)>|
            {
                &&& (#[trigger] sorted.to_multiset()) == items.to_multiset()
                &&& forall|i: int, j: int|
                    0 <= i < j < sorted.len() ==> (#[trigger] sorted[i]).0 <= (
                    #[trigger] sorted[j]).0
                &&& arranged(items).len() == sorted.len()
                &&& forall|i: int|
                    0 <= i < sorted.len() ==> #[trigger] arranged(items)[i] == sorted[i].1
            },
{
    let sorted = sorted_by(items, placed_le());
    assert(text::is_total_preorder(placed_le()));
    text::lemma_sorted_by(items, placed_le());
    assert forall|i: int, j: int| 0 <= i < j < sorted.len() implies (#[trigger] sorted[i]).0 <= (
    #[trigger] sorted[j]).0 by {
        assert(placed_le()(sorted[i], sorted[j]));
    }
    assert(sorted.to_multiset() == items.to_multiset());
}

/// The bar of an erased disk shows all of it: an ESP of 512 MiB, a boot
/// partition of 1 GiB, and the rest for the new system.
pub proof fn law_erased_disks_are_shown_in_full(size: int)
    requires
        size >= 1610612736,
    ensures
        ({
            let s = erase_segments(size);
            &&& s.len() == 3
            &&& s[0].size == 536870912 && s[0].role is Esp
            &&& s[1].size == 1073741824 && s[2].role is Root
            &&& s[0].size + s[1].size + s[2].size == size
        }),
{
}

/// The widths on a bar are proportional: a segment that is wide enough to be
/// seen takes its share of a thousand, up to rounding.
pub proof fn law_widths_are_proportional(size: int, total: int)
    requires
        0 <= size <= total,
        0 < total <= 9007199254740992,
    ensures
        weight_of(size, total) >= 18,
        weight_of(size, total) > 18 ==> weight_of(size, total) * total < size * 1000 + total
            && size * 1000 < (weight_of(size, total) + 2) * total,
        weight_of(size, total) == 18 ==> size * 1000 < 20 * total,
{
    crate::measure::law_scaled_is_proportional(size as nat, total as nat, 1000);
    crate::measure::law_scaled_bounded(size as nat, total as nat, 1000);
    let w = scaled(size as nat, total as nat, 1000) as int;
    if w <= 18 {
        assert((w + 2) * total <= 20 * total) by (nonlinear_arith)
            requires
                w <= 18,
                total > 0,
        ;
    }
}

/// Bar and legend go together: one entry for each segment, of its role and
/// with its label and size, and one more for space that no segment covers,
/// if there is much of it.
pub proof fn law_legends_explain_the_bar(segments: Seq<SegView>, total_bytes: int, i: int)
    ensures
        ({
            let strip = strip_of(segments, total_bytes);
            let legend = legend_of(segments, total_bytes);
            &&& strip.len() == legend.len()
            &&& segments.len() <= strip.len() <= segments.len() + 1
            &&& 0 <= i < strip.len() ==> strip[i].0 == legend[i].0
            &&& 0 <= i < segments.len() ==> legend[i].0 == segments[i].role && legend[i].1
                == segments[i].label + " · "@ + size_text(segments[i].size as nat)
            &&& strip.len() > segments.len() ==> strip.last().0 is Free
            &&& total_bytes > 1 && total_bytes - covered(segments) >= 67108864 && 100 * (total_bytes
                - covered(segments)) >= total_bytes ==> strip.len() == segments.len() + 1
            &&& covered(segments) >= total_bytes >= 0 ==> strip.len() == segments.len()
        }),
{
}

} // verus!
