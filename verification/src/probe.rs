//! What a disk holds: partitions, free-space gaps, sizes. The readings of
//! `lsblk` and `sfdisk` come in as parsed values and are merged here.
use vstd::prelude::*;

use crate::measure::{double_of, nearest_double, round_half_even};
use crate::path::{self, same_path};
use crate::text::{
    self, after_prefix, decimal, inserted, lowercase, opt_view, parsed_unsigned, sorted_by,
    tail_of, trimmed, trimmed_start, views, CharClass,
};

verus! {

/// 1 MiB. All created partitions are aligned to this, so gaps are reported
/// pre-shrunk to aligned bounds.
pub const ALIGNMENT_BYTES: u64 = 1024 * 1024;

/// One whole disk.
#[derive(Debug, PartialEq, Eq)]
pub struct DiskInfo {
    pub path: String,
    pub model: String,
    pub size_bytes: u64,
    pub removable: bool,
    pub rotational: bool,
    /// Kind of partition table, e.g. "gpt"; `None` for a blank disk.
    pub table: Option<String>,
    /// Logical sector size.
    pub sector_size: u64,
    pub partitions: Vec<PartitionInfo>,
    /// Aligned free-space gaps, ordered by position on the disk.
    pub gaps: Vec<Gap>,
}

#[derive(Debug, PartialEq, Eq)]
pub struct PartitionInfo {
    pub path: String,
    pub number: u32,
    pub start_bytes: u64,
    pub size_bytes: u64,
    pub fstype: Option<String>,
    pub label: Option<String>,
    /// Partition type, in lower case.
    pub part_type: Option<String>,
    pub part_uuid: Option<String>,
    /// Filesystem UUID.
    pub fs_uuid: Option<String>,
    pub mounted: bool,
    /// Filled by the OS probe.
    pub detected_os: Option<DetectedOs>,
}

#[derive(Debug, PartialEq, Eq)]
pub struct DetectedOs {
    pub pretty_name: String,
    pub kind: OsKind,
}

#[derive(Debug, Clone, Copy, PartialEq, Eq, Structural)]
pub enum OsKind {
    Linux,
    Windows,
    Unknown,
}

#[derive(Debug, Clone, Copy, PartialEq, Eq, Structural)]
pub struct Gap {
    pub start_bytes: u64,
    pub size_bytes: u64,
}

impl View for Gap {
    type V = (int, int);

    /// Start and size.
    open spec fn view(&self) -> (int, int) {
        (self.start_bytes as int, self.size_bytes as int)
    }
}

impl View for DetectedOs {
    type V = (Seq<char>, OsKind);

    open spec fn view(&self) -> (Seq<char>, OsKind) {
        (self.pretty_name@, self.kind)
    }
}

impl Clone for DetectedOs {
    fn clone(&self) -> (r: Self)
        ensures
            r == *self,
    {
        DetectedOs { pretty_name: self.pretty_name.clone(), kind: self.kind }
    }
}

#[verifier::ext_equal]
pub struct PartitionView {
    pub path: Seq<char>,
    pub number: int,
    pub start: int,
    pub size: int,
    pub fstype: Option<Seq<char>>,
    pub label: Option<Seq<char>>,
    pub part_type: Option<Seq<char>>,
    pub part_uuid: Option<Seq<char>>,
    pub fs_uuid: Option<Seq<char>>,
    pub mounted: bool,
    pub os: Option<(Seq<char>, OsKind)>,
}

impl View for PartitionInfo {
    type V = PartitionView;

    open spec fn view(&self) -> PartitionView {
        PartitionView {
            path: self.path@,
            number: self.number as int,
            start: self.start_bytes as int,
            size: self.size_bytes as int,
            fstype: opt_view(self.fstype),
            label: opt_view(self.label),
            part_type: opt_view(self.part_type),
            part_uuid: opt_view(self.part_uuid),
            fs_uuid: opt_view(self.fs_uuid),
            mounted: self.mounted,
            os: opt_view(self.detected_os),
        }
    }
}

#[verifier::ext_equal]
pub struct DiskView {
    pub path: Seq<char>,
    pub model: Seq<char>,
    pub size: int,
    pub removable: bool,
    pub rotational: bool,
    pub table: Option<Seq<char>>,
    pub sector: int,
    pub partitions: Seq<PartitionView>,
    pub gaps: Seq<(int, int)>,
}

impl View for DiskInfo {
    type V = DiskView;

    open spec fn view(&self) -> DiskView {
        DiskView {
            path: self.path@,
            model: self.model@,
            size: self.size_bytes as int,
            removable: self.removable,
            rotational: self.rotational,
            table: opt_view(self.table),
            sector: self.sector_size as int,
            partitions: views(self.partitions@),
            gaps: views(self.gaps@),
        }
    }
}

impl Clone for PartitionInfo {
    fn clone(&self) -> (r: Self)
        ensures
            r == *self,
    {
        PartitionInfo {
            path: self.path.clone(),
            number: self.number,
            start_bytes: self.start_bytes,
            size_bytes: self.size_bytes,
            fstype: text::clone_opt(&self.fstype),
            label: text::clone_opt(&self.label),
            part_type: text::clone_opt(&self.part_type),
            part_uuid: text::clone_opt(&self.part_uuid),
            fs_uuid: text::clone_opt(&self.fs_uuid),
            mounted: self.mounted,
            detected_os: match &self.detected_os {
                Some(os) => Some(os.clone()),
                None => None,
            },
        }
    }
}

impl Clone for DiskInfo {
    fn clone(&self) -> (r: Self)
        ensures
            r@ == self@,
            r.partitions@ == self.partitions@,
            r.gaps@ == self.gaps@,
    {
        let mut partitions: Vec<PartitionInfo> = Vec::new();
        let mut i: usize = 0;
        while i < self.partitions.len()
            invariant
                i <= self.partitions@.len(),
                partitions@ == self.partitions@.take(i as int),
            decreases self.partitions@.len() - i,
        {
            partitions.push(self.partitions[i].clone());
            assert(self.partitions@.take(i + 1) =~= self.partitions@.take(i as int).push(
                self.partitions@[i as int],
            ));
            i += 1;
        }
        assert(self.partitions@.take(self.partitions@.len() as int) =~= self.partitions@);
        let mut gaps: Vec<Gap> = Vec::new();
        let mut k: usize = 0;
        while k < self.gaps.len()
            invariant
                k <= self.gaps@.len(),
                gaps@ == self.gaps@.take(k as int),
            decreases self.gaps@.len() - k,
        {
            gaps.push(self.gaps[k]);
            assert(self.gaps@.take(k + 1) =~= self.gaps@.take(k as int).push(self.gaps@[k as int]));
            k += 1;
        }
        assert(self.gaps@.take(self.gaps@.len() as int) =~= self.gaps@);
        DiskInfo {
            path: self.path.clone(),
            model: self.model.clone(),
            size_bytes: self.size_bytes,
            removable: self.removable,
            rotational: self.rotational,
            table: text::clone_opt(&self.table),
            sector_size: self.sector_size,
            partitions,
            gaps,
        }
    }
}

/// Every gap ends at a 64 bit byte position.
pub open spec fn gaps_in_range(gaps: Seq<Gap>) -> bool {
    forall|i: int|
        0 <= i < gaps.len() ==> (#[trigger] gaps[i]).start_bytes + gaps[i].size_bytes <= u64::MAX
}

impl DiskInfo {
    /// Sectors have a size and gaps lie on the disk's address range.
    pub open spec fn wf(self) -> bool {
        self.sector_size > 0 && gaps_in_range(self.gaps@)
    }

    /// Whether sectors have a size and gaps lie on the address range.
    pub fn is_wf(&self) -> (r: bool)
        ensures
            r == self.wf(),
    {
        let mut i: usize = 0;
        while i < self.gaps.len()
            invariant
                i <= self.gaps@.len(),
                forall|j: int|
                    0 <= j < i ==> (#[trigger] self.gaps@[j]).start_bytes + self.gaps@[j].size_bytes
                        <= u64::MAX,
            decreases self.gaps@.len() - i,
        {
            if self.gaps[i].start_bytes > u64::MAX - self.gaps[i].size_bytes {
                return false;
            }
            i += 1;
        }
        self.sector_size > 0
    }

    /// Largest usable gap, if any; of several largest the last one.
    pub fn largest_gap(&self) -> (r: Option<Gap>)
        ensures
            r is None <==> self.gaps@.len() == 0,
            r matches Some(g) ==> exists|i: int|
                #[trigger] is_last_largest(self.gaps@, i) && self.gaps@[i] == g,
    {
        match largest_index(&self.gaps) {
            Some(i) => Some(self.gaps[i]),
            None => None,
        }
    }
}

/// The last of the largest gaps.
pub open spec fn is_last_largest(gaps: Seq<Gap>, i: int) -> bool {
    &&& 0 <= i < gaps.len()
    &&& forall|j: int|
        0 <= j < gaps.len() ==> (#[trigger] gaps[j]).size_bytes <= gaps[i].size_bytes
    &&& forall|j: int| i < j < gaps.len() ==> (#[trigger] gaps[j]).size_bytes < gaps[i].size_bytes
}

/// There is only one last of the largest gaps.
pub proof fn lemma_last_largest_unique(gaps: Seq<Gap>, i: int, j: int)
    requires
        is_last_largest(gaps, i),
        is_last_largest(gaps, j),
    ensures
        i == j,
{
    assert(gaps[i].size_bytes <= gaps[j].size_bytes);
    assert(gaps[j].size_bytes <= gaps[i].size_bytes);
}

/// Index of the largest gap; of several largest the last one.
pub fn largest_index(gaps: &Vec<Gap>) -> (r: Option<usize>)
    ensures
        match r {
            Some(i) => is_last_largest(gaps@, i as int),
            None => gaps@.len() == 0,
        },
{
    if gaps.len() == 0 {
        return None;
    }
    let mut best: usize = 0;
    let mut i: usize = 1;
    while i < gaps.len()
        invariant
            best < i <= gaps@.len(),
            forall|j: int|
                0 <= j < i ==> (#[trigger] gaps@[j]).size_bytes <= gaps@[best as int].size_bytes,
            forall|j: int|
                best < j < i ==> (#[trigger] gaps@[j]).size_bytes < gaps@[best as int].size_bytes,
        decreases gaps@.len() - i,
    {
        if gaps[i].size_bytes >= gaps[best].size_bytes {
            best = i;
        }
        i += 1;
    }
    Some(best)
}

// ---------- sizes for people ----------

/// The binary unit that a size is shown in: 0 for bytes, up to 4 for TiB.
pub open spec fn size_unit(v: nat) -> nat {
    if v < 0x400 {
        0
    } else if v < 0x10_0000 {
        1
    } else if v < 0x4000_0000 {
        2
    } else if v < 0x100_0000_0000 {
        3
    } else {
        4
    }
}

pub open spec fn unit_bytes(unit: nat) -> nat {
    if unit == 0 {
        1
    } else if unit == 1 {
        0x400
    } else if unit == 2 {
        0x10_0000
    } else if unit == 3 {
        0x4000_0000
    } else {
        0x100_0000_0000
    }
}

pub open spec fn unit_name(unit: nat) -> Seq<char> {
    if unit == 0 {
        "B"@
    } else if unit == 1 {
        "KiB"@
    } else if unit == 2 {
        "MiB"@
    } else if unit == 3 {
        "GiB"@
    } else {
        "TiB"@
    }
}

/// A size in binary units. `v` is the double nearest to the byte count,
/// shown without decimals within a twentieth of a whole number of units and
/// with one decimal otherwise.
pub open spec fn size_text(bytes: nat) -> Seq<char> {
    let v = double_of(bytes);
    let unit = size_unit(v);
    let d = unit_bytes(unit);
    let whole = (v + d / 2) / d;
    let off = if v >= whole * d {
        v - whole * d
    } else {
        whole * d - v
    };
    if unit == 0 {
        decimal(bytes) + " "@ + "B"@
    } else if 20 * off < d {
        decimal(whole) + " "@ + unit_name(unit)
    } else {
        let tenths = round_half_even(10 * v, d);
        decimal(tenths / 10) + "."@ + decimal(tenths % 10) + " "@ + unit_name(unit)
    }
}

/// Human-readable size, binary units ("931.5 GiB").
pub fn human_size(bytes: u64) -> (r: String)
    ensures
        r@ == size_text(bytes as nat),
{
    let v = nearest_double(bytes as u128);
    let unit: u8 = if v < 0x400 {
        0
    } else if v < 0x10_0000 {
        1
    } else if v < 0x4000_0000 {
        2
    } else if v < 0x100_0000_0000 {
        3
    } else {
        4
    };
    let d: u128 = if unit == 0 {
        1
    } else if unit == 1 {
        0x400
    } else if unit == 2 {
        0x10_0000
    } else if unit == 3 {
        0x4000_0000
    } else {
        0x100_0000_0000
    };
    let name: &str = if unit == 0 {
        "B"
    } else if unit == 1 {
        "KiB"
    } else if unit == 2 {
        "MiB"
    } else if unit == 3 {
        "GiB"
    } else {
        "TiB"
    };
    if unit == 0 {
        let n = text::decimal_string(bytes);
        return text::cat3(n.as_str(), " ", "B");
    }
    assert(v <= 0x2_0000_0000_0000_0000);
    let whole = (v + d / 2) / d;
    assert(whole * d <= v + d / 2 && v + d / 2 < whole * d + d) by (nonlinear_arith)
        requires
            whole == (v + d / 2) / (d as int),
            d > 0,
    ;
    assert(whole <= 0x1_0000_0000_0000_0000) by (nonlinear_arith)
        requires
            whole * d <= v + d / 2,
            d >= 0x400,
            d <= 0x100_0000_0000,
            v <= 0x2_0000_0000_0000_0000,
    ;
    let exact: u128 = whole * d;
    let off: u128 = if v >= exact {
        v - exact
    } else {
        exact - v
    };
    if 20 * off < d {
        assert(whole < 0x1_0000_0000_0000_0000) by (nonlinear_arith)
            requires
                whole * d <= v + d / 2,
                d >= 0x400,
                d <= 0x100_0000_0000,
                v <= 0x2_0000_0000_0000_0000,
        ;
        let n = text::decimal_string(whole as u64);
        text::cat3(n.as_str(), " ", name)
    } else {
        let tenths = crate::measure::rounded(10 * v, d);
        assert(tenths < 0x1_0000_0000_0000_0000) by (nonlinear_arith)
            requires
                tenths <= (10 * v) / (d as int) + 1,
                d >= 0x400,
                v <= 0x2_0000_0000_0000_0000,
        ;
        let units = text::decimal_string((tenths / 10) as u64);
        let tenth = text::decimal_string((tenths % 10) as u64);
        text::cat5(units.as_str(), ".", tenth.as_str(), " ", name)
    }
}

// ---------- readings ----------

/// One row of `lsblk` output.
#[derive(Debug, PartialEq, Eq)]
pub struct LsblkDevice {
    pub path: String,
    pub size: u64,
    pub dev_type: String,
    pub fstype: Option<String>,
    pub label: Option<String>,
    pub parttype: Option<String>,
    pub partuuid: Option<String>,
    pub uuid: Option<String>,
    pub model: Option<String>,
    pub rm: bool,
    pub rota: bool,
    pub mountpoints: Vec<Option<String>>,
}

/// The partition table that `sfdisk` reports.
#[derive(Debug, PartialEq, Eq)]
pub struct SfdiskTable {
    pub label: String,
    pub firstlba: Option<u64>,
    pub lastlba: Option<u64>,
    pub sectorsize: u64,
    pub partitions: Vec<SfdiskPartition>,
}

#[derive(Debug, PartialEq, Eq)]
pub struct SfdiskPartition {
    pub node: String,
    pub start: u64,
    pub size: u64,
}

/// A reading whose text was not the expected JSON.
#[derive(Debug, Clone, Copy, PartialEq, Eq, Structural)]
pub struct BadJson;

/// Why a disk could not be described.
#[derive(Debug, Clone, Copy, PartialEq, Eq, Structural)]
pub enum ProbeError {
    LsblkJson,
    NoDisk,
    SfdiskJson,
}

impl ProbeError {
    pub open spec fn text(self) -> Seq<char> {
        match self {
            ProbeError::LsblkJson => "parsing lsblk JSON"@,
            ProbeError::NoDisk => "lsblk output does not start with a disk device"@,
            ProbeError::SfdiskJson => "parsing sfdisk JSON"@,
        }
    }

    /// The error as text for people.
    pub fn message(self) -> (r: &'static str)
        ensures
            r@ == self.text(),
    {
        match self {
            ProbeError::LsblkJson => "parsing lsblk JSON",
            ProbeError::NoDisk => "lsblk output does not start with a disk device",
            ProbeError::SfdiskJson => "parsing sfdisk JSON",
        }
    }
}

/// The columns that `lsblk` is asked for.
pub fn lsblk_columns() -> (r: &'static str)
    ensures
        r@ == "PATH,SIZE,TYPE,FSTYPE,LABEL,PARTTYPE,PARTUUID,UUID,MODEL,RM,ROTA,MOUNTPOINTS"@,
{
    "PATH,SIZE,TYPE,FSTYPE,LABEL,PARTTYPE,PARTUUID,UUID,MODEL,RM,ROTA,MOUNTPOINTS"
}

/// What identifies a partition on its disk: the rest of its node behind the
/// disk's path, or else the digits at the end of the node.
pub open spec fn number_part(disk: Seq<char>, node: Seq<char>) -> Seq<char> {
    match after_prefix(node, disk) {
        Some(s) => s,
        None => tail_of(node, CharClass::Digit),
    }
}

pub open spec fn node_number(disk: Seq<char>, node: Seq<char>) -> Option<nat> {
    parsed_unsigned(trimmed_start(number_part(disk, node), CharClass::Is('p')), u32::MAX as nat)
}

/// Partition number from its device node relative to the parent disk:
/// `/dev/sda3` is 3, `/dev/nvme0n1p2` is 2. Falls back to trailing digits
/// when the node doesn't start with the disk path.
pub fn partition_number(disk: &str, node: &str) -> (r: Option<u32>)
    ensures
        r matches Some(n) ==> node_number(disk@, node@) == Some(n as nat),
        r is None ==> node_number(disk@, node@) is None,
{
    let chars = text::chars_of(node);
    let suffix = match text::strip_prefix(&chars, disk) {
        Some(s) => s,
        None => text::keep_tail(&chars, CharClass::Digit),
    };
    let digits = text::trim_start(&suffix, CharClass::Is('p'));
    match text::parse_unsigned(&digits, u32::MAX as u64) {
        Some(n) => Some(n as u32),
        None => None,
    }
}

// ---------- gaps ----------

pub open spec fn round_up(v: int, align: int) -> int {
    if v % align == 0 {
        v
    } else {
        v - v % align + align
    }
}

pub open spec fn round_down(v: int, align: int) -> int {
    v - v % align
}

/// The smallest multiple of `align` that is at least `v`.
pub fn align_up(v: u64, align: u64) -> (r: u64)
    requires
        align > 0,
        round_up(v as int, align as int) <= u64::MAX,
    ensures
        r == round_up(v as int, align as int),
{
    assert(v % align <= v) by (nonlinear_arith)
        requires
            align > 0,
    ;
    let rest = v % align;
    if rest == 0 {
        v
    } else {
        v - rest + align
    }
}

/// The largest multiple of `align` that is at most `v`.
pub fn align_down(v: u64, align: u64) -> (r: u64)
    requires
        align > 0,
    ensures
        r == round_down(v as int, align as int),
{
    assert(v % align <= v) by (nonlinear_arith)
        requires
            align > 0,
    ;
    v - v % align
}

/// The aligned gap between two sectors, where there is one.
pub open spec fn gap_between(from: int, to: int, sector: int) -> Seq<(int, int)> {
    let start = round_up(from * sector, ALIGNMENT_BYTES as int);
    let end = round_down(to * sector, ALIGNMENT_BYTES as int);
    if end > start && end - start >= ALIGNMENT_BYTES {
        seq![(start, end - start)]
    } else {
        Seq::empty()
    }
}

/// The sector ranges that partitions cover, end exclusive.
pub open spec fn spans_of(parts: Seq<SfdiskPartition>) -> Seq<(u64, u64)> {
    parts.map_values(|p: SfdiskPartition| (p.start, (p.start + p.size) as u64))
}

pub open spec fn span_le() -> spec_fn((u64, u64), (u64, u64)) -> bool {
    |a: (u64, u64), b: (u64, u64)| a.0 < b.0 || (a.0 == b.0 && a.1 <= b.1)
}

/// The first sector behind `first` and behind all of `spans`.
pub open spec fn cursor_after(spans: Seq<(u64, u64)>, first: int) -> int
    decreases spans.len(),
{
    if spans.len() == 0 {
        first
    } else {
        let c = cursor_after(spans.drop_last(), first);
        if spans.last().1 > c {
            spans.last().1 as int
        } else {
            c
        }
    }
}

/// The gaps in front of each of `spans`.
pub open spec fn gaps_among(spans: Seq<(u64, u64)>, first: int, sector: int) -> Seq<(int, int)>
    decreases spans.len(),
{
    if spans.len() == 0 {
        Seq::empty()
    } else {
        let c = cursor_after(spans.drop_last(), first);
        gaps_among(spans.drop_last(), first, sector) + (if spans.last().0 > c {
            gap_between(c, spans.last().0 as int, sector)
        } else {
            Seq::empty()
        })
    }
}

/// The aligned free-space gaps of a table whose usable sectors are
/// `first` to `last`, in order of position.
pub open spec fn free_gaps(
    first: int,
    last: int,
    sector: int,
    parts: Seq<SfdiskPartition>,
) -> Seq<(int, int)> {
    let spans = sorted_by(spans_of(parts), span_le());
    let c = cursor_after(spans, first);
    gaps_among(spans, first, sector) + (if last + 1 > c {
        gap_between(c, last + 1, sector)
    } else {
        Seq::empty()
    })
}

/// The byte position of a sector, aligned up, is a 64 bit number.
pub open spec fn fits(x: int, sector: int) -> bool {
    0 <= x && round_up(x * sector, ALIGNMENT_BYTES as int) <= u64::MAX
}

/// Both ends of the space between two sectors are 64 bit byte positions.
pub open spec fn gap_fits(from: int, to: int, sector: int) -> bool {
    fits(from, sector) && to * sector <= u64::MAX
}

/// The space in front of each of `spans`, where there is any, has 64 bit
/// byte positions.
pub open spec fn spans_fit(spans: Seq<(u64, u64)>, first: int, sector: int) -> bool
    decreases spans.len(),
{
    if spans.len() == 0 {
        true
    } else {
        let c = cursor_after(spans.drop_last(), first);
        &&& spans_fit(spans.drop_last(), first, sector)
        &&& spans.last().0 > c ==> gap_fits(c, spans.last().0 as int, sector)
    }
}

/// The sector numbers are 64 bit numbers, and so are the byte positions
/// wherever there is space between partitions.
pub open spec fn geometry_fits(
    first: int,
    last: int,
    sector: int,
    parts: Seq<SfdiskPartition>,
) -> bool {
    let spans = sorted_by(spans_of(parts), span_le());
    let c = cursor_after(spans, first);
    &&& sector > 0
    &&& 0 <= first
    &&& 0 <= last + 1 <= u64::MAX
    &&& forall|i: int|
        0 <= i < parts.len() ==> (#[trigger] parts[i]).start + parts[i].size <= u64::MAX
    &&& spans_fit(spans, first, sector)
    &&& last + 1 > c ==> gap_fits(c, last + 1, sector)
}

proof fn lemma_spans_prefix(spans: Seq<(u64, u64)>, first: int, sector: int, i: int)
    requires
        0 <= i <= spans.len(),
        spans_fit(spans, first, sector),
    ensures
        spans_fit(spans.take(i), first, sector),
    decreases spans.len(),
{
    if i == spans.len() {
        assert(spans.take(i) =~= spans);
    } else {
        lemma_spans_prefix(spans.drop_last(), first, sector, i);
        assert(spans.drop_last().take(i) =~= spans.take(i));
    }
}

proof fn lemma_fits(x: int, y: int, sector: int)
    requires
        0 <= x <= y,
        fits(y, sector),
        sector > 0,
    ensures
        fits(x, sector),
        x * sector <= y * sector <= u64::MAX,
        x <= u64::MAX,
        0 <= x * sector,
{
    assert(x * sector <= y * sector && x <= x * sector && 0 <= x * sector) by (nonlinear_arith)
        requires
            0 <= x <= y,
            sector > 0,
    ;
}

fn push_gap(gaps: &mut Vec<Gap>, start_sector: u64, end_sector: u64, sector_size: u64)
    requires
        gaps_in_range(old(gaps)@),
        sector_size > 0,
        fits(start_sector as int, sector_size as int),
        end_sector * sector_size <= u64::MAX,
    ensures
        gaps_in_range(final(gaps)@),
        views(final(gaps)@) == views(old(gaps)@) + gap_between(
            start_sector as int,
            end_sector as int,
            sector_size as int,
        ),
{
    proof {
        lemma_fits(start_sector as int, start_sector as int, sector_size as int);
    }
    let start = align_up(start_sector * sector_size, ALIGNMENT_BYTES);
    let end = align_down(end_sector * sector_size, ALIGNMENT_BYTES);
    let ghost before = gaps@;
    if end > start && end - start >= ALIGNMENT_BYTES {
        let gap = Gap { start_bytes: start, size_bytes: end - start };
        gaps.push(gap);
        assert(views(gaps@) =~= views(before) + seq![(start as int, end - start)]);
    } else {
        assert(views(gaps@) =~= views(before) + Seq::empty());
    }
}

/// Puts a span into its place among sorted spans.
fn insert_span(spans: &mut Vec<(u64, u64)>, span: (u64, u64))
    ensures
        final(spans)@ == inserted(old(spans)@, span, span_le()),
{
    let ghost before = spans@;
    let mut pos: usize = spans.len();
    while pos > 0 && !(spans[pos - 1].0 < span.0 || (spans[pos - 1].0 == span.0 && spans[pos
        - 1].1 <= span.1))
        invariant
            pos <= spans@.len(),
            spans@ == before,
            forall|j: int| pos <= j < spans@.len() ==> !span_le()(#[trigger] spans@[j], span),
        decreases pos,
    {
        pos -= 1;
    }
    proof {
        text::lemma_inserted_at(before, span, span_le(), pos as int);
    }
    spans.insert(pos, span);
}

fn sorted_spans(parts: &Vec<SfdiskPartition>) -> (r: Vec<(u64, u64)>)
    requires
        forall|i: int|
            0 <= i < parts@.len() ==> (#[trigger] parts@[i]).start + parts@[i].size <= u64::MAX,
    ensures
        r@ == sorted_by(spans_of(parts@), span_le()),
{
    let mut spans: Vec<(u64, u64)> = Vec::new();
    let mut i: usize = 0;
    let ghost all = spans_of(parts@);
    assert(sorted_by(all.take(0), span_le()) =~= Seq::empty());
    while i < parts.len()
        invariant
            i <= parts@.len(),
            all == spans_of(parts@),
            spans@ == sorted_by(all.take(i as int), span_le()),
            forall|i: int|
                0 <= i < parts@.len() ==> (#[trigger] parts@[i]).start + parts@[i].size <= u64::MAX,
        decreases parts@.len() - i,
    {
        let ghost next = all.take(i + 1);
        assert(next.drop_last() =~= all.take(i as int));
        insert_span(&mut spans, (parts[i].start, parts[i].start + parts[i].size));
        i += 1;
    }
    assert(all.take(parts@.len() as int) =~= all);
    spans
}

/// Aligned free-space gaps from sector data. `first_lba` and `last_lba` are
/// the usable range; partitions may be listed in any order.
pub fn compute_gaps(
    first_lba: u64,
    last_lba: u64,
    sector_size: u64,
    parts: &Vec<SfdiskPartition>,
) -> (r: Vec<Gap>)
    requires
        geometry_fits(first_lba as int, last_lba as int, sector_size as int, parts@),
    ensures
        gaps_in_range(r@),
        views(r@) == free_gaps(
            first_lba as int,
            last_lba as int,
            sector_size as int,
            parts@,
        ),
{
    let ghost sector = sector_size as int;
    let spans = sorted_spans(parts);
    let mut gaps: Vec<Gap> = Vec::new();
    let mut cursor: u64 = first_lba;
    let mut i: usize = 0;
    assert(spans@.take(0) =~= Seq::empty());
    assert(views(gaps@) =~= Seq::empty());
    while i < spans.len()
        invariant
            i <= spans@.len(),
            sector == sector_size,
            sector > 0,
            cursor == cursor_after(spans@.take(i as int), first_lba as int),
            spans_fit(spans@, first_lba as int, sector),
            gaps_in_range(gaps@),
            views(gaps@) == gaps_among(spans@.take(i as int), first_lba as int, sector),
        decreases spans@.len() - i,
    {
        let ghost next = spans@.take(i + 1);
        assert(next.drop_last() =~= spans@.take(i as int));
        assert(next.last() == spans@[i as int]);
        let (start, end) = spans[i];
        proof {
            lemma_spans_prefix(spans@, first_lba as int, sector, i + 1);
        }
        if start > cursor {
            push_gap(&mut gaps, cursor, start, sector_size);
        } else {
            assert(gaps_among(next, first_lba as int, sector) =~= gaps_among(
                spans@.take(i as int),
                first_lba as int,
                sector,
            ));
        }
        if end > cursor {
            cursor = end;
        }
        i += 1;
    }
    assert(spans@.take(spans@.len() as int) =~= spans@);
    if last_lba + 1 > cursor {
        push_gap(&mut gaps, cursor, last_lba + 1, sector_size);
    } else {
        assert(views(gaps@) =~= views(gaps@) + Seq::empty());
    }
    gaps
}

pub proof fn lemma_span_order()
    ensures
        text::is_total_preorder(span_le()),
{
}

/// Every span of the sorted list is a partition's span.
proof fn lemma_span_source(parts: Seq<SfdiskPartition>, k: int) -> (i: int)
    requires
        0 <= k < sorted_by(spans_of(parts), span_le()).len(),
    ensures
        0 <= i < parts.len(),
        sorted_by(spans_of(parts), span_le())[k] == (
            parts[i].start,
            (parts[i].start + parts[i].size) as u64,
        ),
{
    broadcast use vstd::seq_lib::group_to_multiset_ensures;

    let all = spans_of(parts);
    let sorted = sorted_by(all, span_le());
    lemma_span_order();
    text::lemma_sorted_by(all, span_le());
    assert(sorted.contains(sorted[k]));
    assert(sorted.to_multiset().count(sorted[k]) > 0);
    assert(all.to_multiset().count(sorted[k]) > 0);
    assert(all.contains(sorted[k]));
    let i = choose|i: int| 0 <= i < all.len() && all[i] == sorted[k];
    i
}

proof fn lemma_spans_ordered(parts: Seq<SfdiskPartition>)
    requires
        forall|i: int|
            0 <= i < parts.len() ==> (#[trigger] parts[i]).start + parts[i].size <= u64::MAX,
    ensures
        forall|k: int|
            0 <= k < sorted_by(spans_of(parts), span_le()).len() ==> (#[trigger] sorted_by(
                spans_of(parts),
                span_le(),
            )[k]).0 <= sorted_by(spans_of(parts), span_le())[k].1,
{
    let sorted = sorted_by(spans_of(parts), span_le());
    assert forall|k: int| 0 <= k < sorted.len() implies (#[trigger] sorted[k]).0 <= sorted[k].1 by {
        let i = lemma_span_source(parts, k);
        assert(parts[i].start + parts[i].size <= u64::MAX);
    }
}

/// Every partition's span is in the sorted list.
proof fn lemma_span_target(parts: Seq<SfdiskPartition>, i: int) -> (k: int)
    requires
        0 <= i < parts.len(),
    ensures
        0 <= k < sorted_by(spans_of(parts), span_le()).len(),
        sorted_by(spans_of(parts), span_le())[k] == (
            parts[i].start,
            (parts[i].start + parts[i].size) as u64,
        ),
{
    broadcast use vstd::seq_lib::group_to_multiset_ensures;

    let all = spans_of(parts);
    let sorted = sorted_by(all, span_le());
    lemma_span_order();
    text::lemma_sorted_by(all, span_le());
    assert(all.contains(all[i]));
    assert(all.to_multiset().count(all[i]) > 0);
    assert(sorted.to_multiset().count(all[i]) > 0);
    assert(sorted.contains(all[i]));
    choose|k: int| 0 <= k < sorted.len() && sorted[k] == all[i]
}

/// A byte range and a sector range have no byte in common.
pub open spec fn clear_of(gap: (int, int), from: int, to: int, sector: int) -> bool {
    gap.0 + gap.1 <= from * sector || to * sector <= gap.0
}

/// Start and size are aligned, and the gap holds something.
pub open spec fn is_aligned_gap(gap: (int, int)) -> bool {
    gap.0 % (ALIGNMENT_BYTES as int) == 0 && gap.1 % (ALIGNMENT_BYTES as int) == 0 && gap.1
        >= ALIGNMENT_BYTES
}

proof fn lemma_scale(x: int, y: int, sector: int)
    requires
        x <= y,
        sector > 0,
    ensures
        x * sector <= y * sector,
{
    assert(x * sector <= y * sector) by (nonlinear_arith)
        requires
            x <= y,
            sector > 0,
    ;
}

proof fn lemma_gap_between(from: int, to: int, sector: int)
    ensures
        gap_between(from, to, sector).len() <= 1,
        gap_between(from, to, sector).len() == 1 ==> {
            let g = gap_between(from, to, sector)[0];
            is_aligned_gap(g) && from * sector <= g.0 && g.0 + g.1 <= to * sector
        },
        forall|b: int|
            #![trigger b % (ALIGNMENT_BYTES as int)]
            b % (ALIGNMENT_BYTES as int) == 0 && from * sector <= b && b + ALIGNMENT_BYTES <= to
                * sector ==> gap_between(from, to, sector).len() == 1 && gap_between(
                from,
                to,
                sector,
            )[0].0 <= b && b + ALIGNMENT_BYTES <= gap_between(from, to, sector)[0].0 + gap_between(
                from,
                to,
                sector,
            )[0].1,
{
}

proof fn lemma_gaps_among(spans: Seq<(u64, u64)>, first: int, sector: int)
    requires
        sector > 0,
        text::is_sorted(spans, span_le()),
        forall|k: int| 0 <= k < spans.len() ==> (#[trigger] spans[k]).0 <= spans[k].1,
    ensures
        cursor_after(spans, first) >= first,
        forall|k: int| 0 <= k < spans.len() ==> (#[trigger] spans[k]).1 <= cursor_after(spans, first),
        forall|i: int|
            0 <= i < gaps_among(spans, first, sector).len() ==> {
                let g = #[trigger] gaps_among(spans, first, sector)[i];
                &&& is_aligned_gap(g)
                &&& first * sector <= g.0
                &&& spans.len() > 0
                &&& g.0 + g.1 <= spans.last().0 * sector
            },
        forall|i: int, k: int|
            0 <= i < gaps_among(spans, first, sector).len() && 0 <= k < spans.len() ==> clear_of(
                #[trigger] gaps_among(spans, first, sector)[i],
                (#[trigger] spans[k]).0 as int,
                spans[k].1 as int,
                sector,
            ),
        forall|i: int, j: int|
            0 <= i < j < gaps_among(spans, first, sector).len() ==> (#[trigger] gaps_among(
                spans,
                first,
                sector,
            )[i]).0 + gaps_among(spans, first, sector)[i].1 <= (#[trigger] gaps_among(
                spans,
                first,
                sector,
            )[j]).0,
    decreases spans.len(),
{
    if spans.len() > 0 {
        let front = spans.drop_last();
        let last = spans.last();
        assert forall|i: int, j: int| 0 <= i < j < front.len() implies span_le()(
            #[trigger] front[i],
            #[trigger] front[j],
        ) by {
            assert(span_le()(spans[i], spans[j]));
        }
        assert forall|k: int| 0 <= k < front.len() implies (#[trigger] front[k]).0
            <= front[k].1 by {
            assert(front[k] == spans[k]);
        }
        lemma_gaps_among(front, first, sector);
        let c = cursor_after(front, first);
        let old_gaps = gaps_among(front, first, sector);
        let gs = gaps_among(spans, first, sector);
        lemma_scale(first, c, sector);
        assert(spans[spans.len() - 1] == last);
        assert forall|k: int| 0 <= k < spans.len() implies (#[trigger] spans[k]).1 <= cursor_after(
            spans,
            first,
        ) by {
            if k < front.len() {
                assert(front[k] == spans[k]);
            }
        }
        if front.len() > 0 {
            assert(span_le()(spans[front.len() - 1], spans[spans.len() - 1]));
            assert(front.last() == spans[front.len() - 1]);
            assert(front[front.len() - 1] == front.last());
            lemma_scale(front.last().0 as int, last.0 as int, sector);
            lemma_scale(front.last().0 as int, c, sector);
        }
        lemma_gap_between(c, last.0 as int, sector);
        assert forall|i: int, k: int|
            0 <= i < gs.len() && 0 <= k < spans.len() implies clear_of(
            #[trigger] gs[i],
            (#[trigger] spans[k]).0 as int,
            spans[k].1 as int,
            sector,
        ) by {
            if i < old_gaps.len() {
                assert(gs[i] == old_gaps[i]);
                if k < front.len() {
                    assert(front[k] == spans[k]);
                }
            } else if k < front.len() {
                assert(front[k] == spans[k]);
                lemma_scale(spans[k].1 as int, c, sector);
            }
        }
        assert forall|i: int| 0 <= i < gs.len() implies {
            let g = #[trigger] gs[i];
            &&& is_aligned_gap(g)
            &&& first * sector <= g.0
            &&& g.0 + g.1 <= spans.last().0 * sector
        } by {
            if i < old_gaps.len() {
                assert(gs[i] == old_gaps[i]);
            }
        }
        assert forall|i: int, j: int| 0 <= i < j < gs.len() implies (#[trigger] gs[i]).0 + gs[i].1
            <= (#[trigger] gs[j]).0 by {
            assert(gs[i] == old_gaps[i]);
            if j < old_gaps.len() {
                assert(gs[j] == old_gaps[j]);
            }
        }
    }
}

/// Every reported gap is aligned, starts inside the usable range and shares
/// no byte with any partition; gaps come in order of position and do not
/// overlap. Where no partition starts behind the usable range, no gap ends
/// behind it.
pub proof fn law_gaps_are_free(
    first: int,
    last: int,
    sector: int,
    parts: Seq<SfdiskPartition>,
)
    requires
        geometry_fits(first, last, sector, parts),
    ensures
        forall|i: int|
            0 <= i < free_gaps(first, last, sector, parts).len() ==> is_aligned_gap(
                #[trigger] free_gaps(first, last, sector, parts)[i],
            ) && first * sector <= free_gaps(first, last, sector, parts)[i].0,
        forall|i: int, k: int|
            0 <= i < free_gaps(first, last, sector, parts).len() && 0 <= k < parts.len()
                ==> clear_of(
                #[trigger] free_gaps(first, last, sector, parts)[i],
                (#[trigger] parts[k]).start as int,
                parts[k].start + parts[k].size,
                sector,
            ),
        forall|i: int, j: int|
            0 <= i < j < free_gaps(first, last, sector, parts).len() ==> (#[trigger] free_gaps(
                first,
                last,
                sector,
                parts,
            )[i]).0 + free_gaps(first, last, sector, parts)[i].1 <= (#[trigger] free_gaps(
                first,
                last,
                sector,
                parts,
            )[j]).0,
        (forall|k: int| 0 <= k < parts.len() ==> (#[trigger] parts[k]).start <= last + 1)
            ==> forall|i: int|
            0 <= i < free_gaps(first, last, sector, parts).len() ==> (#[trigger] free_gaps(
                first,
                last,
                sector,
                parts,
            )[i]).0 + free_gaps(first, last, sector, parts)[i].1 <= (last + 1) * sector,
{
    let spans = sorted_by(spans_of(parts), span_le());
    lemma_span_order();
    text::lemma_sorted_by(spans_of(parts), span_le());
    lemma_spans_ordered(parts);
    lemma_gaps_among(spans, first, sector);
    let c = cursor_after(spans, first);
    let old_gaps = gaps_among(spans, first, sector);
    let gs = free_gaps(first, last, sector, parts);
    lemma_scale(first, c, sector);
    lemma_gap_between(c, last + 1, sector);
    assert forall|i: int, k: int| 0 <= i < gs.len() && 0 <= k < parts.len() implies clear_of(
        #[trigger] gs[i],
        (#[trigger] parts[k]).start as int,
        parts[k].start + parts[k].size,
        sector,
    ) by {
        let e = parts[k].start + parts[k].size;
        let m = lemma_span_target(parts, k);
        if i < old_gaps.len() {
            assert(gs[i] == old_gaps[i]);
            assert(clear_of(old_gaps[i], spans[m].0 as int, spans[m].1 as int, sector));
        } else {
            assert(spans[m].1 <= c);
            lemma_scale(e, c, sector);
        }
    }
    assert forall|i: int| 0 <= i < gs.len() implies is_aligned_gap(#[trigger] gs[i]) && first
        * sector <= gs[i].0 by {
        if i < old_gaps.len() {
            assert(gs[i] == old_gaps[i]);
        }
    }
    if spans.len() > 0 {
        lemma_scale(spans.last().0 as int, c, sector);
        assert(spans[spans.len() - 1] == spans.last());
    }
    assert forall|i: int, j: int| 0 <= i < j < gs.len() implies (#[trigger] gs[i]).0 + gs[i].1 <= (
    #[trigger] gs[j]).0 by {
        assert(gs[i] == old_gaps[i]);
        if j < old_gaps.len() {
            assert(gs[j] == old_gaps[j]);
        }
    }
    if forall|k: int| 0 <= k < parts.len() ==> (#[trigger] parts[k]).start <= last + 1 {
        assert forall|i: int| 0 <= i < gs.len() implies (#[trigger] gs[i]).0 + gs[i].1 <= (last + 1)
            * sector by {
            if i < old_gaps.len() {
                assert(gs[i] == old_gaps[i]);
                let m = lemma_span_source(parts, spans.len() - 1);
                lemma_scale(spans.last().0 as int, last + 1, sector);
            }
        }
    }
}

/// A byte range lies inside one of the gaps.
pub open spec fn inside_a_gap(gaps: Seq<(int, int)>, from: int, to: int) -> bool {
    exists|i: int|
        0 <= i < gaps.len() && (#[trigger] gaps[i]).0 <= from && to <= gaps[i].0 + gaps[i].1
}

proof fn lemma_block_found(spans: Seq<(u64, u64)>, first: int, sector: int, b: int)
    requires
        sector > 0,
        b % (ALIGNMENT_BYTES as int) == 0,
        first * sector <= b,
        forall|k: int|
            0 <= k < spans.len() ==> clear_of(
                (b, ALIGNMENT_BYTES as int),
                (#[trigger] spans[k]).0 as int,
                spans[k].1 as int,
                sector,
            ),
    ensures
        inside_a_gap(gaps_among(spans, first, sector), b, b + ALIGNMENT_BYTES) || cursor_after(
            spans,
            first,
        ) * sector <= b,
    decreases spans.len(),
{
    if spans.len() > 0 {
        let front = spans.drop_last();
        let last = spans.last();
        assert forall|k: int| 0 <= k < front.len() implies clear_of(
            (b, ALIGNMENT_BYTES as int),
            (#[trigger] front[k]).0 as int,
            front[k].1 as int,
            sector,
        ) by {
            assert(front[k] == spans[k]);
        }
        lemma_block_found(front, first, sector, b);
        assert(spans[spans.len() - 1] == last);
        let c = cursor_after(front, first);
        let old_gaps = gaps_among(front, first, sector);
        let gs = gaps_among(spans, first, sector);
        if inside_a_gap(old_gaps, b, b + ALIGNMENT_BYTES) {
            let i = choose|i: int|
                0 <= i < old_gaps.len() && (#[trigger] old_gaps[i]).0 <= b && b + ALIGNMENT_BYTES
                    <= old_gaps[i].0 + old_gaps[i].1;
            assert(gs[i] == old_gaps[i]);
        } else if b + ALIGNMENT_BYTES <= last.0 * sector {
            if last.0 <= c {
                lemma_scale(last.0 as int, c, sector);
            }
            lemma_gap_between(c, last.0 as int, sector);
            assert(b % (ALIGNMENT_BYTES as int) == 0);
            assert(gs[old_gaps.len() as int] == gap_between(c, last.0 as int, sector)[0]);
        }
    }
}

/// Nothing usable is missed: every aligned 1 MiB block of the usable range
/// that shares no byte with a partition lies inside a reported gap.
pub proof fn law_gaps_are_complete(
    first: int,
    last: int,
    sector: int,
    parts: Seq<SfdiskPartition>,
    b: int,
)
    requires
        geometry_fits(first, last, sector, parts),
        b % (ALIGNMENT_BYTES as int) == 0,
        first * sector <= b,
        b + ALIGNMENT_BYTES <= (last + 1) * sector,
        forall|k: int|
            0 <= k < parts.len() ==> clear_of(
                (b, ALIGNMENT_BYTES as int),
                (#[trigger] parts[k]).start as int,
                parts[k].start + parts[k].size,
                sector,
            ),
    ensures
        inside_a_gap(free_gaps(first, last, sector, parts), b, b + ALIGNMENT_BYTES),
{
    let spans = sorted_by(spans_of(parts), span_le());
    assert forall|k: int| 0 <= k < spans.len() implies clear_of(
        (b, ALIGNMENT_BYTES as int),
        (#[trigger] spans[k]).0 as int,
        spans[k].1 as int,
        sector,
    ) by {
        let i = lemma_span_source(parts, k);
        let e = parts[i].start + parts[i].size;
        assert(clear_of((b, ALIGNMENT_BYTES as int), parts[i].start as int, e, sector));
    }
    lemma_block_found(spans, first, sector, b);
    let c = cursor_after(spans, first);
    let old_gaps = gaps_among(spans, first, sector);
    let gs = free_gaps(first, last, sector, parts);
    if inside_a_gap(old_gaps, b, b + ALIGNMENT_BYTES) {
        let i = choose|i: int|
            0 <= i < old_gaps.len() && (#[trigger] old_gaps[i]).0 <= b && b + ALIGNMENT_BYTES
                <= old_gaps[i].0 + old_gaps[i].1;
        assert(gs[i] == old_gaps[i]);
    } else {
        if last + 1 <= c {
            lemma_scale(last + 1, c, sector);
        }
        lemma_gap_between(c, last + 1, sector);
        assert(gs[old_gaps.len() as int] == gap_between(c, last + 1, sector)[0]);
    }
}

// ---------- merging the readings ----------

pub open spec fn first_lba(t: SfdiskTable) -> int {
    match t.firstlba {
        Some(f) => f as int,
        None => ALIGNMENT_BYTES as int / t.sectorsize as int,
    }
}

pub open spec fn last_lba(t: SfdiskTable, disk_size: int) -> int {
    match t.lastlba {
        Some(l) => l as int,
        None => disk_size / t.sectorsize as int - 1,
    }
}

/// The byte positions of the partitions that are both listed and in the
/// table are 64 bit numbers.
pub open spec fn places_fit(devs: Seq<LsblkDevice>, t: SfdiskTable) -> bool {
    forall|k: int| 1 <= k < devs.len() ==> place_fits(#[trigger] devs[k], t)
}

/// The byte position of a listed partition is a 64 bit number.
pub open spec fn place_fits(dev: LsblkDevice, t: SfdiskTable) -> bool {
    dev.dev_type@ == "part"@ ==> (node_at(t.partitions@, dev.path@, 0) matches Some(p) ==> p.start
        * t.sectorsize <= u64::MAX && p.size * t.sectorsize <= u64::MAX)
}

/// The table's sector numbers make sense as 64 bit byte positions, for the
/// disk that leads the listing.
pub open spec fn table_fits(t: SfdiskTable, devs: Seq<LsblkDevice>) -> bool {
    let size = devs[0].size as int;
    &&& t.sectorsize > 0
    &&& last_lba(t, size) >= 0
    &&& geometry_fits(first_lba(t), last_lba(t, size), t.sectorsize as int, t.partitions@)
    &&& places_fit(devs, t)
}

fn sector_fits(x: u128, sector: u64) -> (r: bool)
    requires
        sector > 0,
    ensures
        r == fits(x as int, sector as int),
{
    let limit: u128 = 0xFFFF_FFFF_FFF0_0000;
    assert(x * sector >= x) by (nonlinear_arith)
        requires
            x >= 0,
            sector > 0,
    ;
    if x > limit {
        return false;
    }
    assert(x * sector <= 0xFFFF_FFFF_FFFF_FFFF * 0xFFFF_FFFF_FFFF_FFFF) by (nonlinear_arith)
        requires
            x <= 0xFFFF_FFFF_FFFF_FFFF,
            0 <= sector <= 0xFFFF_FFFF_FFFF_FFFF,
    ;
    x * sector as u128 <= limit
}

fn end_fits(x: u128, sector: u64) -> (r: bool)
    requires
        x <= 0x1_0000_0000_0000_0000,
    ensures
        r == (x * sector <= u64::MAX),
{
    assert(x * sector <= 0x1_0000_0000_0000_0000 * 0xFFFF_FFFF_FFFF_FFFF) by (nonlinear_arith)
        requires
            x <= 0x1_0000_0000_0000_0000,
            0 <= sector <= 0xFFFF_FFFF_FFFF_FFFF,
    ;
    x * sector as u128 <= u64::MAX as u128
}

/// Whether gaps can be computed from these sectors.
fn check_geometry(first: u64, last: u64, sector: u64, parts: &Vec<SfdiskPartition>) -> (r: bool)
    requires
        sector > 0,
    ensures
        r == geometry_fits(first as int, last as int, sector as int, parts@),
{
    if last == u64::MAX {
        return false;
    }
    let mut n: usize = 0;
    while n < parts.len()
        invariant
            n <= parts@.len(),
            forall|k: int|
                0 <= k < n ==> (#[trigger] parts@[k]).start + parts@[k].size <= u64::MAX,
        decreases parts@.len() - n,
    {
        if parts[n].start > u64::MAX - parts[n].size {
            assert(parts@[n as int].start + parts@[n as int].size > u64::MAX);
            return false;
        }
        n += 1;
    }
    let spans = sorted_spans(parts);
    let mut cursor: u64 = first;
    let mut i: usize = 0;
    assert(spans@.take(0) =~= Seq::empty());
    while i < spans.len()
        invariant
            i <= spans@.len(),
            sector > 0,
            spans@ == sorted_by(spans_of(parts@), span_le()),
            cursor == cursor_after(spans@.take(i as int), first as int),
            spans_fit(spans@.take(i as int), first as int, sector as int),
        decreases spans@.len() - i,
    {
        let ghost next = spans@.take(i + 1);
        assert(next.drop_last() =~= spans@.take(i as int));
        assert(next.last() == spans@[i as int]);
        let (start, end) = spans[i];
        if start > cursor && !(sector_fits(cursor as u128, sector) && end_fits(
            start as u128,
            sector,
        )) {
            proof {
                if spans_fit(spans@, first as int, sector as int) {
                    lemma_spans_prefix(spans@, first as int, sector as int, i + 1);
                }
            }
            return false;
        }
        if end > cursor {
            cursor = end;
        }
        i += 1;
    }
    assert(spans@.take(spans@.len() as int) =~= spans@);
    !(last + 1 > cursor) || (sector_fits(cursor as u128, sector) && end_fits(
        last as u128 + 1,
        sector,
    ))
}

fn check_place(dev: &LsblkDevice, t: &SfdiskTable) -> (r: bool)
    ensures
        r == place_fits(*dev, *t),
{
    if !text::same(dev.dev_type.as_str(), "part") {
        return true;
    }
    match find_node(&t.partitions, dev.path.as_str()) {
        Some(i) => end_fits(t.partitions[i].start as u128, t.sectorsize) && end_fits(
            t.partitions[i].size as u128,
            t.sectorsize,
        ),
        None => true,
    }
}

/// Whether the table's sector numbers make sense as 64 bit byte positions,
/// for the disk that leads the listing.
pub fn check_table(t: &SfdiskTable, devs: &Vec<LsblkDevice>) -> (r: bool)
    requires
        devs@.len() > 0,
    ensures
        r == table_fits(*t, devs@),
{
    let disk_size = devs[0].size;
    if t.sectorsize == 0 {
        return false;
    }
    if t.lastlba.is_none() && disk_size < t.sectorsize {
        assert(disk_size as int / t.sectorsize as int == 0) by (nonlinear_arith)
            requires
                disk_size < t.sectorsize,
        ;
        return false;
    }
    let first: u64 = match t.firstlba {
        Some(f) => f,
        None => ALIGNMENT_BYTES / t.sectorsize,
    };
    assert(t.lastlba is None ==> disk_size / t.sectorsize >= 1) by (nonlinear_arith)
        requires
            t.lastlba is None ==> disk_size >= t.sectorsize,
            t.sectorsize > 0,
    ;
    let last: u64 = match t.lastlba {
        Some(l) => l,
        None => disk_size / t.sectorsize - 1,
    };
    if !check_geometry(first, last, t.sectorsize, &t.partitions) {
        return false;
    }
    let mut i: usize = 1;
    while i < devs.len()
        invariant
            1 <= i <= devs@.len(),
            forall|k: int| 1 <= k < i ==> place_fits(#[trigger] devs@[k], *t),
        decreases devs@.len() - i,
    {
        if !check_place(&devs[i], t) {
            return false;
        }
        i += 1;
    }
    true
}

/// Loop devices count as disks, so that file-backed targets probe like
/// hardware.
pub open spec fn is_disk(d: LsblkDevice) -> bool {
    d.dev_type@ == "disk"@ || d.dev_type@ == "loop"@
}

pub open spec fn any_mounted(points: Seq<Option<String>>) -> bool {
    exists|i: int| 0 <= i < points.len() && #[trigger] points[i] is Some
}

/// The first partition at or behind `i` whose node is `path`.
pub open spec fn node_at(parts: Seq<SfdiskPartition>, path: Seq<char>, i: int) -> Option<
    SfdiskPartition,
>
    decreases parts.len() - i,
{
    if i < 0 || i >= parts.len() {
        None
    } else if same_path(parts[i].node@, path) {
        Some(parts[i])
    } else {
        node_at(parts, path, i + 1)
    }
}

/// Where a device lies, in bytes: from the table where there is one (a
/// device that it does not list is dropped), else from its own size with
/// the start unknown.
pub open spec fn placement(dev: LsblkDevice, table: Option<SfdiskTable>) -> Option<(int, int)> {
    match table {
        Some(t) => match node_at(t.partitions@, dev.path@, 0) {
            Some(p) => Some((p.start * t.sectorsize, p.size * t.sectorsize)),
            None => None,
        },
        None => Some((0, dev.size as int)),
    }
}

pub open spec fn partition_view(
    disk: Seq<char>,
    dev: LsblkDevice,
    place: (int, int),
) -> PartitionView {
    PartitionView {
        path: dev.path@,
        number: match node_number(disk, dev.path@) {
            Some(n) => n as int,
            None => 0,
        },
        start: place.0,
        size: place.1,
        fstype: opt_view(dev.fstype),
        label: opt_view(dev.label),
        part_type: match dev.parttype {
            Some(s) => Some(lowercase(s@)),
            None => None,
        },
        part_uuid: opt_view(dev.partuuid),
        fs_uuid: opt_view(dev.uuid),
        mounted: any_mounted(dev.mountpoints@),
        os: None,
    }
}

/// The partitions among `devs`, in the order of the listing.
pub open spec fn listed_partitions(
    disk: Seq<char>,
    devs: Seq<LsblkDevice>,
    table: Option<SfdiskTable>,
) -> Seq<PartitionView>
    decreases devs.len(),
{
    if devs.len() == 0 {
        Seq::empty()
    } else {
        let front = listed_partitions(disk, devs.drop_last(), table);
        let dev = devs.last();
        if dev.dev_type@ == "part"@ && placement(dev, table) is Some {
            front.push(partition_view(disk, dev, placement(dev, table)->0))
        } else {
            front
        }
    }
}

pub open spec fn start_le() -> spec_fn(PartitionView, PartitionView) -> bool {
    |a: PartitionView, b: PartitionView| a.start <= b.start
}

/// The gaps of a disk. Without a table the whole disk is one gap when it
/// has no partitions either; with partitions but no sector data there is
/// nothing to go by.
pub open spec fn disk_gaps(
    disk_size: int,
    table: Option<SfdiskTable>,
    partitions: Seq<PartitionView>,
) -> Seq<(int, int)> {
    match table {
        Some(t) => free_gaps(
            first_lba(t),
            last_lba(t, disk_size),
            t.sectorsize as int,
            t.partitions@,
        ),
        None => if partitions.len() == 0 {
            gap_between(ALIGNMENT_BYTES as int / 512, disk_size / 512, 512)
        } else {
            Seq::empty()
        },
    }
}

/// What the two readings say about the disk that leads the listing.
pub open spec fn merged(devs: Seq<LsblkDevice>, table: Option<SfdiskTable>) -> DiskView {
    let disk = devs[0];
    let partitions = sorted_by(
        listed_partitions(disk.path@, devs.skip(1), table),
        start_le(),
    );
    DiskView {
        path: disk.path@,
        model: match disk.model {
            Some(m) => trimmed(m@, CharClass::White),
            None => Seq::empty(),
        },
        size: disk.size as int,
        removable: disk.rm,
        rotational: disk.rota,
        table: match table {
            Some(t) => Some(t.label@),
            None => None,
        },
        sector: match table {
            Some(t) => t.sectorsize as int,
            None => 512,
        },
        partitions,
        gaps: disk_gaps(disk.size as int, table, partitions),
    }
}

/// Why the readings do not describe a disk, if they don't.
pub open spec fn reading_fault(
    lsblk: Result<Vec<LsblkDevice>, BadJson>,
    sfdisk: Option<Result<SfdiskTable, BadJson>>,
) -> Option<ProbeError> {
    match lsblk {
        Err(_) => Some(ProbeError::LsblkJson),
        Ok(devs) => if devs@.len() == 0 || !is_disk(devs@[0]) {
            Some(ProbeError::NoDisk)
        } else {
            match sfdisk {
                Some(Err(_)) => Some(ProbeError::SfdiskJson),
                _ => None,
            }
        },
    }
}

pub open spec fn table_of(sfdisk: Option<Result<SfdiskTable, BadJson>>) -> Option<SfdiskTable> {
    match sfdisk {
        Some(Ok(t)) => Some(t),
        _ => None,
    }
}

fn has_mount(points: &Vec<Option<String>>) -> (r: bool)
    ensures
        r == any_mounted(points@),
{
    let mut i: usize = 0;
    while i < points.len()
        invariant
            i <= points@.len(),
            forall|j: int| 0 <= j < i ==> !(#[trigger] points@[j] is Some),
        decreases points@.len() - i,
    {
        if points[i].is_some() {
            return true;
        }
        i += 1;
    }
    false
}

/// Index of the first partition whose node is `path`.
fn find_node(parts: &Vec<SfdiskPartition>, path: &str) -> (r: Option<usize>)
    ensures
        match r {
            Some(i) => i < parts@.len() && node_at(parts@, path@, 0) == Some(parts@[i as int]),
            None => node_at(parts@, path@, 0) is None,
        },
{
    let mut i: usize = 0;
    while i < parts.len()
        invariant
            i <= parts@.len(),
            node_at(parts@, path@, 0) == node_at(parts@, path@, i as int),
        decreases parts@.len() - i,
    {
        if path::paths_equal(parts[i].node.as_str(), path) {
            return Some(i);
        }
        i += 1;
    }
    None
}

fn place(dev: &LsblkDevice, table: Option<&SfdiskTable>) -> (r: Option<(u64, u64)>)
    requires
        dev.dev_type@ == "part"@,
        table matches Some(t) ==> place_fits(*dev, *t),
    ensures
        match r {
            Some(p) => placement(*dev, deref_table(table)) == Some((p.0 as int, p.1 as int)),
            None => placement(*dev, deref_table(table)) is None,
        },
{
    match table {
        Some(t) => {
            match find_node(&t.partitions, dev.path.as_str()) {
                Some(i) => {
                    let p = &t.partitions[i];
                    Some((p.start * t.sectorsize, p.size * t.sectorsize))
                },
                None => None,
            }
        },
        None => Some((0, dev.size)),
    }
}

pub open spec fn deref_table(table: Option<&SfdiskTable>) -> Option<SfdiskTable> {
    match table {
        Some(t) => Some(*t),
        None => None,
    }
}

fn make_partition(disk: &str, dev: &LsblkDevice, at: (u64, u64)) -> (r: PartitionInfo)
    ensures
        r@ == partition_view(disk@, *dev, (at.0 as int, at.1 as int)),
{
    let number: u32 = match partition_number(disk, dev.path.as_str()) {
        Some(n) => n,
        None => 0,
    };
    PartitionInfo {
        path: dev.path.clone(),
        number,
        start_bytes: at.0,
        size_bytes: at.1,
        fstype: text::clone_opt(&dev.fstype),
        label: text::clone_opt(&dev.label),
        part_type: match &dev.parttype {
            Some(s) => Some(text::to_lowercase(s.as_str())),
            None => None,
        },
        part_uuid: text::clone_opt(&dev.partuuid),
        fs_uuid: text::clone_opt(&dev.uuid),
        mounted: has_mount(&dev.mountpoints),
        detected_os: None,
    }
}

pub open spec fn info_start_le() -> spec_fn(PartitionInfo, PartitionInfo) -> bool {
    |a: PartitionInfo, b: PartitionInfo| a.start_bytes <= b.start_bytes
}

/// Puts a partition behind those that start no later.
fn insert_partition(list: &mut Vec<PartitionInfo>, p: PartitionInfo)
    ensures
        final(list)@ == inserted(old(list)@, p, info_start_le()),
{
    let ghost before = list@;
    let mut pos: usize = list.len();
    while pos > 0 && list[pos - 1].start_bytes > p.start_bytes
        invariant
            pos <= list@.len(),
            list@ == before,
            forall|j: int| pos <= j < list@.len() ==> !info_start_le()(#[trigger] list@[j], p),
        decreases pos,
    {
        pos -= 1;
    }
    proof {
        text::lemma_inserted_at(before, p, info_start_le(), pos as int);
    }
    list.insert(pos, p);
}

/// The partitions of the listing behind its first row, sorted by start.
fn collect_partitions(
    disk: &str,
    devs: &Vec<LsblkDevice>,
    table: Option<&SfdiskTable>,
) -> (r: Vec<PartitionInfo>)
    requires
        devs@.len() > 0,
        table matches Some(t) ==> places_fit(devs@, *t),
    ensures
        views(r@) == sorted_by(
            listed_partitions(disk@, devs@.skip(1), deref_table(table)),
            start_le(),
        ),
{
    let ghost rest = devs@.skip(1);
    let ghost view_of = |p: PartitionInfo| p@;
    let ghost mut listed: Seq<PartitionInfo> = Seq::empty();
    let mut out: Vec<PartitionInfo> = Vec::new();
    let mut i: usize = 1;
    assert(rest.take(0) =~= Seq::empty());
    assert(views(listed) =~= Seq::empty());
    while i < devs.len()
        invariant
            1 <= i <= devs@.len(),
            rest == devs@.skip(1),
            table matches Some(t) ==> places_fit(devs@, *t),
            views(listed) == listed_partitions(disk@, rest.take(i - 1), deref_table(table)),
            out@ == sorted_by(listed, info_start_le()),
        decreases devs@.len() - i,
    {
        let ghost next = rest.take(i as int);
        assert(next.drop_last() =~= rest.take(i - 1));
        assert(next.last() == devs@[i as int]);
        if text::same(devs[i].dev_type.as_str(), "part") {
            match place(&devs[i], table) {
                Some(at) => {
                    let p = make_partition(disk, &devs[i], at);
                    proof {
                        let more = listed.push(p);
                        assert(more.drop_last() =~= listed);
                        assert(views(more) =~= views(listed).push(p@));
                        listed = more;
                    }
                    insert_partition(&mut out, p);
                },
                None => {},
            }
        }
        i += 1;
    }
    proof {
        assert(rest.take(devs@.len() - 1) =~= rest);
        assert forall|x: PartitionInfo, y: PartitionInfo| #[trigger]
            info_start_le()(x, y) == start_le()(view_of(x), view_of(y)) by {}
        text::lemma_sorted_by_map(listed, view_of, info_start_le(), start_le());
        assert(views(listed) =~= listed.map_values(view_of));
        assert(views(out@) =~= out@.map_values(view_of));
    }
    out
}

/// Merges one disk's readings into a [`DiskInfo`].
///
/// `sfdisk` is `None` for blank disks: the whole disk is then one gap.
pub fn parse_disk(
    lsblk: &Result<Vec<LsblkDevice>, BadJson>,
    sfdisk: &Option<Result<SfdiskTable, BadJson>>,
) -> (r: Result<DiskInfo, ProbeError>)
    requires
        reading_fault(*lsblk, *sfdisk) is None && table_of(*sfdisk) is Some ==> table_fits(
            table_of(*sfdisk)->0,
            lsblk->Ok_0@,
        ),
    ensures
        match r {
            Ok(d) => d.wf() && reading_fault(*lsblk, *sfdisk) is None && d@ == merged(
                lsblk->Ok_0@,
                table_of(*sfdisk),
            ),
            Err(e) => reading_fault(*lsblk, *sfdisk) == Some(e),
        },
{
    let devs = match lsblk {
        Ok(d) => d,
        Err(_) => return Err(ProbeError::LsblkJson),
    };
    if devs.len() == 0 {
        return Err(ProbeError::NoDisk);
    }
    let disk = &devs[0];
    if !text::same(disk.dev_type.as_str(), "disk") && !text::same(disk.dev_type.as_str(), "loop") {
        return Err(ProbeError::NoDisk);
    }
    let table: Option<&SfdiskTable> = match sfdisk {
        Some(Ok(t)) => Some(t),
        Some(Err(_)) => return Err(ProbeError::SfdiskJson),
        None => None,
    };
    let partitions = collect_partitions(disk.path.as_str(), devs, table);
    let gaps: Vec<Gap> = match table {
        Some(t) => {
            let first: u64 = match t.firstlba {
                Some(f) => f,
                None => ALIGNMENT_BYTES / t.sectorsize,
            };
            let last: u64 = match t.lastlba {
                Some(l) => l,
                None => disk.size / t.sectorsize - 1,
            };
            compute_gaps(first, last, t.sectorsize, &t.partitions)
        },
        None => {
            let mut g: Vec<Gap> = Vec::new();
            assert(views(g@) =~= Seq::empty());
            if partitions.len() == 0 {
                push_gap(&mut g, ALIGNMENT_BYTES / 512, disk.size / 512, 512);
            }
            g
        },
    };
    assert(views(partitions@).len() == partitions@.len());
    let model = match &disk.model {
        Some(m) => {
            let chars = text::chars_of(m.as_str());
            let t = text::trim(&chars, CharClass::White);
            text::string_of(&t)
        },
        None => String::new(),
    };
    Ok(
        DiskInfo {
            path: disk.path.clone(),
            model,
            size_bytes: disk.size,
            removable: disk.rm,
            rotational: disk.rota,
            table: match table {
                Some(t) => Some(t.label.clone()),
                None => None,
            },
            sector_size: match table {
                Some(t) => t.sectorsize,
                None => 512,
            },
            partitions,
            gaps,
        },
    )
}

// ---------- listings ----------

pub open spec fn whole_disks(devs: Seq<(String, String)>) -> Seq<Seq<char>>
    decreases devs.len(),
{
    if devs.len() == 0 {
        Seq::empty()
    } else if devs.last().1@ == "disk"@ {
        whole_disks(devs.drop_last()).push(devs.last().0@)
    } else {
        whole_disks(devs.drop_last())
    }
}

/// The whole disks among listed (path, type) pairs.
pub fn list_disk_paths(devs: &Vec<(String, String)>) -> (r: Vec<String>)
    ensures
        views(r@) == whole_disks(devs@),
{
    let mut out: Vec<String> = Vec::new();
    let mut i: usize = 0;
    assert(devs@.take(0) =~= Seq::empty());
    assert(views(out@) =~= Seq::empty());
    while i < devs.len()
        invariant
            i <= devs@.len(),
            views(out@) == whole_disks(devs@.take(i as int)),
        decreases devs@.len() - i,
    {
        let ghost before = out@;
        let ghost next = devs@.take(i + 1);
        assert(next.drop_last() =~= devs@.take(i as int));
        if text::same(devs[i].1.as_str(), "disk") {
            out.push(devs[i].0.clone());
            assert(views(out@) =~= views(before).push(devs@[i as int].0@));
        }
        i += 1;
    }
    assert(devs@.take(devs@.len() as int) =~= devs@);
    out
}

pub open spec fn successes(probes: Seq<Result<DiskInfo, String>>) -> Seq<DiskInfo>
    decreases probes.len(),
{
    if probes.len() == 0 {
        Seq::empty()
    } else {
        match probes.last() {
            Ok(d) => successes(probes.drop_last()).push(d),
            Err(_) => successes(probes.drop_last()),
        }
    }
}

/// The disks whose probe succeeded, in order: one that vanished in the
/// middle does not spoil the listing.
pub fn probed_disks(probes: Vec<Result<DiskInfo, String>>) -> (r: Vec<DiskInfo>)
    ensures
        views(r@) == views(successes(probes@)),
{
    let mut out: Vec<DiskInfo> = Vec::new();
    let mut i: usize = 0;
    assert(probes@.take(0) =~= Seq::empty());
    while i < probes.len()
        invariant
            i <= probes@.len(),
            views(out@) == views(successes(probes@.take(i as int))),
        decreases probes@.len() - i,
    {
        let ghost before = out@;
        let ghost next = probes@.take(i + 1);
        assert(next.drop_last() =~= probes@.take(i as int));
        assert(next.last() == probes@[i as int]);
        if let Ok(d) = &probes[i] {
            let copy = d.clone();
            out.push(copy);
            assert(views(out@) =~= views(before).push(d@));
            assert(views(successes(next)) =~= views(successes(probes@.take(i as int))).push(d@));
        }
        i += 1;
    }
    assert(probes@.take(probes@.len() as int) =~= probes@);
    out
}

// ---------- what a probe says ----------

/// The table places the device where its first entry for this node says.
pub open spec fn is_placed_at(t: SfdiskTable, path: Seq<char>, i: int) -> bool {
    &&& 0 <= i < t.partitions@.len() && same_path(t.partitions@[i].node@, path)
    &&& forall|j: int|
        0 <= j < i ==> !same_path((#[trigger] t.partitions@[j]).node@, path)
}

proof fn lemma_node_at(parts: Seq<SfdiskPartition>, path: Seq<char>, from: int)
    requires
        0 <= from <= parts.len(),
    ensures
        match node_at(parts, path, from) {
            Some(p) => exists|k: int|
                from <= k < parts.len() && #[trigger] parts[k] == p && same_path(p.node@, path)
                    && forall|j: int| from <= j < k ==> !same_path((#[trigger] parts[j]).node@, path),
            None => forall|k: int|
                from <= k < parts.len() ==> !same_path((#[trigger] parts[k]).node@, path),
        },
    decreases parts.len() - from,
{
    if from < parts.len() {
        if same_path(parts[from].node@, path) {
            assert(parts[from] == node_at(parts, path, from)->0);
        } else {
            lemma_node_at(parts, path, from + 1);
            if node_at(parts, path, from + 1) is Some {
                let p = node_at(parts, path, from + 1)->0;
                let k = choose|k: int|
                    from + 1 <= k < parts.len() && #[trigger] parts[k] == p && same_path(
                        p.node@,
                        path,
                    ) && forall|j: int|
                        from + 1 <= j < k ==> !same_path((#[trigger] parts[j]).node@, path);
                assert(parts[k] == p);
            }
        }
    }
}

proof fn lemma_placed(t: SfdiskTable, path: Seq<char>, i: int)
    requires
        is_placed_at(t, path, i),
    ensures
        node_at(t.partitions@, path, 0) == Some(t.partitions@[i]),
{
    let parts = t.partitions@;
    lemma_node_at(parts, path, 0);
    if node_at(parts, path, 0) is None {
        assert(!same_path(parts[i].node@, path));
    } else {
        let p = node_at(parts, path, 0)->0;
        let k = choose|k: int|
            0 <= k < parts.len() && #[trigger] parts[k] == p && same_path(p.node@, path)
                && forall|j: int| 0 <= j < k ==> !same_path((#[trigger] parts[j]).node@, path);
        if k < i {
            assert(!same_path(parts[k].node@, path));
        } else if i < k {
            assert(!same_path(parts[i].node@, path));
        }
    }
}

/// The partition says what the row of `lsblk` says of the device.
pub open spec fn describes(p: PartitionView, dev: LsblkDevice) -> bool {
    &&& p.path == dev.path@
    &&& p.fstype == opt_view(dev.fstype) && p.label == opt_view(dev.label)
    &&& p.part_uuid == opt_view(dev.partuuid) && p.fs_uuid == opt_view(dev.uuid)
    &&& match dev.parttype {
        Some(s) => p.part_type == Some(lowercase(s@)),
        None => p.part_type is None,
    }
    &&& p.mounted <==> exists|i: int|
        0 <= i < dev.mountpoints@.len() && (#[trigger] dev.mountpoints@[i]) is Some
    &&& p.os is None
}

proof fn lemma_start_order()
    ensures
        text::is_total_preorder(start_le()),
{
}

proof fn lemma_listed(
    disk: Seq<char>,
    devs: Seq<LsblkDevice>,
    table: Option<SfdiskTable>,
    k: int,
)
    requires
        0 <= k < devs.len(),
        devs[k].dev_type@ == "part"@,
        placement(devs[k], table) is Some,
    ensures
        listed_partitions(disk, devs, table).contains(
            partition_view(disk, devs[k], placement(devs[k], table)->0),
        ),
    decreases devs.len(),
{
    let p = partition_view(disk, devs[k], placement(devs[k], table)->0);
    let front = listed_partitions(disk, devs.drop_last(), table);
    let all = listed_partitions(disk, devs, table);
    if k < devs.len() - 1 {
        lemma_listed(disk, devs.drop_last(), table, k);
        let n = front.index_of(p);
        assert(all[n] == p);
    } else {
        assert(all.last() == p);
        assert(all[all.len() - 1] == p);
    }
}

proof fn lemma_listed_source(
    disk: Seq<char>,
    devs: Seq<LsblkDevice>,
    table: Option<SfdiskTable>,
    n: int,
) -> (k: int)
    requires
        0 <= n < listed_partitions(disk, devs, table).len(),
    ensures
        0 <= k < devs.len(),
        devs[k].dev_type@ == "part"@,
        placement(devs[k], table) is Some,
        listed_partitions(disk, devs, table)[n] == partition_view(
            disk,
            devs[k],
            placement(devs[k], table)->0,
        ),
    decreases devs.len(),
{
    let front = listed_partitions(disk, devs.drop_last(), table);
    if n < front.len() {
        lemma_listed_source(disk, devs.drop_last(), table, n)
    } else {
        devs.len() - 1
    }
}

proof fn lemma_merged_contains(devs: Seq<LsblkDevice>, table: Option<SfdiskTable>, p: PartitionView)
    ensures
        merged(devs, table).partitions.contains(p) <==> listed_partitions(
            devs[0].path@,
            devs.skip(1),
            table,
        ).contains(p),
{
    broadcast use vstd::seq_lib::group_to_multiset_ensures;

    lemma_start_order();
    let listed = listed_partitions(devs[0].path@, devs.skip(1), table);
    text::lemma_sorted_by(listed, start_le());
    let sorted = sorted_by(listed, start_le());
    assert(sorted.to_multiset() == listed.to_multiset());
    assert(sorted.contains(p) <==> sorted.to_multiset().count(p) > 0);
    assert(listed.contains(p) <==> listed.to_multiset().count(p) > 0);
}

/// Every partition that `lsblk` lists and the table places is in the
/// description, described as its row says and at the place that the table
/// says, in bytes; on a disk without a table its size is that of the row.
pub proof fn law_partitions_are_described(
    devs: Seq<LsblkDevice>,
    table: Option<SfdiskTable>,
    k: int,
    i: int,
)
    requires
        1 <= k < devs.len(),
        devs[k].dev_type@ == "part"@,
    ensures
        table matches Some(t) ==> is_placed_at(t, devs[k].path@, i) ==> exists|n: int|
            0 <= n < merged(devs, table).partitions.len() && describes(
                #[trigger] merged(devs, table).partitions[n],
                devs[k],
            ) && merged(devs, table).partitions[n].start == t.partitions@[i].start * t.sectorsize
                && merged(devs, table).partitions[n].size == t.partitions@[i].size * t.sectorsize,
        table is None ==> exists|n: int|
            0 <= n < merged(devs, table).partitions.len() && describes(
                #[trigger] merged(devs, table).partitions[n],
                devs[k],
            ) && merged(devs, table).partitions[n].start == 0 && merged(
                devs,
                table,
            ).partitions[n].size == devs[k].size,
{
    let disk = devs[0].path@;
    let rest = devs.skip(1);
    let dev = devs[k];
    assert(rest[k - 1] == dev);
    if table is None || is_placed_at(table->0, dev.path@, i) {
        if table is Some {
            lemma_placed(table->0, dev.path@, i);
        }
        let p = partition_view(disk, dev, placement(dev, table)->0);
        lemma_listed(disk, rest, table, k - 1);
        lemma_merged_contains(devs, table, p);
        let n = merged(devs, table).partitions.index_of(p);
        assert(describes(p, dev));
        assert(merged(devs, table).partitions[n] == p);
    }
}

/// A description holds nothing else: each of its partitions is a row of
/// `lsblk` behind the disk's own that is a partition, and the table, where
/// there is one, places it. They stand in the order of their starts.
pub proof fn law_only_partitions_are_described(
    devs: Seq<LsblkDevice>,
    table: Option<SfdiskTable>,
    n: int,
)
    requires
        devs.len() > 0,
        0 <= n < merged(devs, table).partitions.len(),
    ensures
        exists|k: int|
            1 <= k < devs.len() && (#[trigger] devs[k]).dev_type@ == "part"@ && describes(
                merged(devs, table).partitions[n],
                devs[k],
            ),
        table matches Some(t) ==> exists|i: int|
            0 <= i < t.partitions@.len() && same_path(
                (#[trigger] t.partitions@[i]).node@,
                merged(devs, table).partitions[n].path,
            ) && merged(devs, table).partitions[n].start == t.partitions@[i].start * t.sectorsize,
        forall|m: int|
            n < m < merged(devs, table).partitions.len() ==> merged(devs, table).partitions[n].start
                <= (#[trigger] merged(devs, table).partitions[m]).start,
{
    let disk = devs[0].path@;
    let rest = devs.skip(1);
    let all = merged(devs, table).partitions;
    let p = all[n];
    let listed = listed_partitions(disk, rest, table);
    assert(all.contains(p));
    lemma_merged_contains(devs, table, p);
    let k = lemma_listed_source(disk, rest, table, listed.index_of(p));
    assert(rest[k] == devs[k + 1]);
    assert(describes(p, devs[k + 1]));
    if table is Some {
        lemma_node_at(table->0.partitions@, devs[k + 1].path@, 0);
    }
    lemma_start_order();
    text::lemma_sorted_by(listed, start_le());
    assert forall|m: int| n < m < all.len() implies p.start <= (#[trigger] all[m]).start by {
        assert(start_le()(all[n], all[m]));
    }
}

/// The disk itself is described by the first row and by its table: without
/// one there are 512 byte sectors.
pub proof fn law_disks_are_described(devs: Seq<LsblkDevice>, table: Option<SfdiskTable>)
    requires
        devs.len() > 0,
    ensures
        ({
            let d = merged(devs, table);
            let row = devs[0];
            &&& d.path == row.path@ && d.size == row.size
            &&& d.removable == row.rm && d.rotational == row.rota
            &&& match row.model {
                Some(m) => text::is_stripped(m@, d.model),
                None => d.model.len() == 0,
            }
            &&& match table {
                Some(t) => d.table == Some(t.label@) && d.sector == t.sectorsize,
                None => d.table is None && d.sector == 512,
            }
        }),
{
    if devs[0].model is Some {
        text::law_trimming_strips(devs[0].model->0@);
    }
}

/// The gaps of a disk with a table are what the table leaves free: a block of
/// 1 MiB at a multiple of 1 MiB lies in a gap if it is in the usable range
/// and meets no partition. The range is the one that the table states, or
/// else everything behind the first 1 MiB.
pub proof fn law_free_blocks_are_offered(devs: Seq<LsblkDevice>, t: SfdiskTable, block: int)
    requires
        devs.len() > 0,
        table_fits(t, devs),
        ({
            let b = block * 1048576;
            &&& t.firstlba matches Some(f) ==> f * t.sectorsize <= b
            &&& t.firstlba is None ==> block >= 1
            &&& t.lastlba matches Some(l) ==> b + 1048576 <= (l + 1) * t.sectorsize
            &&& t.lastlba is None ==> b + 1048576 <= (devs[0].size as int / t.sectorsize as int)
                * t.sectorsize
            &&& forall|k: int|
                0 <= k < t.partitions@.len() ==> b + 1048576 <= (#[trigger] t.partitions@[k]).start
                    * t.sectorsize || (t.partitions@[k].start + t.partitions@[k].size)
                    * t.sectorsize <= b
        }),
    ensures
        exists|i: int|
            0 <= i < merged(devs, Some(t)).gaps.len() && (#[trigger] merged(
                devs,
                Some(t),
            ).gaps[i]).0 <= block * 1048576 && block * 1048576 + 1048576 <= merged(
                devs,
                Some(t),
            ).gaps[i].0 + merged(devs, Some(t)).gaps[i].1,
{
    let b = block * 1048576;
    let size = devs[0].size as int;
    let sector = t.sectorsize as int;
    assert(b % 1048576 == 0) by (nonlinear_arith)
        requires
            b == block * 1048576,
    ;
    if t.firstlba is None {
        assert((1048576int / sector) * sector <= 1048576) by (nonlinear_arith)
            requires
                sector > 0,
        ;
    }
    assert forall|k: int| 0 <= k < t.partitions@.len() implies clear_of(
        (b, ALIGNMENT_BYTES as int),
        (#[trigger] t.partitions@[k]).start as int,
        t.partitions@[k].start + t.partitions@[k].size,
        sector,
    ) by {}
    law_gaps_are_complete(first_lba(t), last_lba(t, size), sector, t.partitions@, b);
    let gs = merged(devs, Some(t)).gaps;
    assert(gs == free_gaps(first_lba(t), last_lba(t, size), sector, t.partitions@));
    let i = choose|i: int|
        0 <= i < gs.len() && (#[trigger] gs[i]).0 <= b && b + ALIGNMENT_BYTES <= gs[i].0 + gs[i].1;
    assert(merged(devs, Some(t)).gaps[i] == gs[i]);
}

/// No gap of a disk with a table runs into a partition or starts before the
/// usable range, and each starts and ends at a multiple of 1 MiB.
pub proof fn law_offered_gaps_are_free(devs: Seq<LsblkDevice>, t: SfdiskTable, i: int, k: int)
    requires
        devs.len() > 0,
        table_fits(t, devs),
        0 <= i < merged(devs, Some(t)).gaps.len(),
    ensures
        ({
            let gap = merged(devs, Some(t)).gaps[i];
            &&& gap.0 % 1048576 == 0 && gap.1 % 1048576 == 0 && gap.1 >= 1048576
            &&& t.firstlba matches Some(f) ==> f * t.sectorsize <= gap.0
            &&& 0 <= k < t.partitions@.len() ==> gap.0 + gap.1 <= t.partitions@[k].start
                * t.sectorsize || (t.partitions@[k].start + t.partitions@[k].size) * t.sectorsize
                <= gap.0
        }),
{
    let size = devs[0].size as int;
    law_gaps_are_free(first_lba(t), last_lba(t, size), t.sectorsize as int, t.partitions@);
    let gap = free_gaps(first_lba(t), last_lba(t, size), t.sectorsize as int, t.partitions@)[i];
    assert(is_aligned_gap(gap));
    if 0 <= k < t.partitions@.len() {
        assert(clear_of(
            gap,
            t.partitions@[k].start as int,
            t.partitions@[k].start + t.partitions@[k].size,
            t.sectorsize as int,
        ));
    }
}

/// A disk without a table is one gap if it has no partition, all but its
/// first 1 MiB in whole MiB, and none if it has one.
pub proof fn law_blank_disks_are_free(devs: Seq<LsblkDevice>)
    requires
        devs.len() > 0,
    ensures
        ({
            let d = merged(devs, None);
            let mib = devs[0].size as int / 1048576;
            &&& d.partitions.len() > 0 ==> d.gaps.len() == 0
            &&& d.partitions.len() == 0 && mib >= 2 ==> d.gaps == seq![
                (1048576int, (mib - 1) * 1048576),
            ]
            &&& d.partitions.len() == 0 && mib < 2 ==> d.gaps.len() == 0
        }),
{
    let size = devs[0].size as int;
    let mib = size / 1048576;
    let end = (size / 512) * 512;
    assert(end - end % 1048576 == mib * 1048576) by (nonlinear_arith)
        requires
            mib == size / 1048576,
            end == (size / 512) * 512,
            size >= 0,
    ;
}

/// A node is numbered by what stands behind the disk's path, with or without
/// a `p` between them.
pub proof fn law_nodes_are_numbered(disk: Seq<char>, n: nat)
    requires
        n <= u32::MAX,
    ensures
        node_number(disk, disk + decimal(n)) == Some(n),
        node_number(disk, disk + seq!['p'] + decimal(n)) == Some(n),
{
    let d = decimal(n);
    text::law_decimals_read_back(n, u32::MAX as nat);
    lemma_p_is_cut_off(d);
    text::law_prefixes_are_cut_off(disk, d, d);
    text::law_prefixes_are_cut_off(disk, seq!['p'] + d, d);
    assert(disk + seq!['p'] + d =~= disk + (seq!['p'] + d));
}

proof fn lemma_p_is_cut_off(d: Seq<char>)
    requires
        d.len() > 0,
        text::all_digits(d),
    ensures
        trimmed_start(d, CharClass::Is('p')) == d,
        trimmed_start(seq!['p'] + d, CharClass::Is('p')) == d,
{
    assert(text::is_digit(d[0]));
    text::lemma_leading(d, CharClass::Is('p'), 0);
    assert(trimmed_start(d, CharClass::Is('p')) =~= d);
    let p = seq!['p'] + d;
    assert(p[0] == 'p' && p[1] == d[0]);
    text::lemma_leading(p, CharClass::Is('p'), 1);
    assert(trimmed_start(p, CharClass::Is('p')) =~= d);
}

/// The disks that are offered are those that are listed as disks, in order.
pub proof fn law_disks_are_listed(devs: Seq<(String, String)>, dev: (String, String))
    ensures
        whole_disks(Seq::empty()).len() == 0,
        whole_disks(devs.push(dev)) == (if dev.1@ == "disk"@ {
            whole_disks(devs).push(dev.0@)
        } else {
            whole_disks(devs)
        }),
{
    assert(devs.push(dev).drop_last() =~= devs);
}

/// A disk whose probe fails hides no other: what is kept are all that
/// succeeded, in order.
pub proof fn law_failed_probes_hide_no_disk(
    probes: Seq<Result<DiskInfo, String>>,
    disk: DiskInfo,
    error: String,
)
    ensures
        successes(Seq::empty()).len() == 0,
        successes(probes.push(Ok(disk))) == successes(probes).push(disk),
        successes(probes.push(Err(error))) == successes(probes),
{
    assert(probes.push(Ok(disk)).drop_last() =~= probes);
    assert(probes.push(Err(error)).drop_last() =~= probes);
}

/// What a size is shown in: a unit such that it is at least one of them and,
/// below TiB, less than 1024, with at most one decimal, off by no more than
/// half of that decimal.
pub open spec fn shows_size(shown: Seq<char>, bytes: nat, unit: nat, name: Seq<char>) -> bool {
    exists|t: nat|
        #![trigger decimal(t / 10)]
        {
            &&& shown == decimal(t / 10) + " "@ + name && t % 10 == 0 || shown == decimal(t / 10)
                + "."@ + decimal(t % 10) + " "@ + name
            &&& 2 * (10 * bytes - t * unit) <= unit
            &&& 2 * (t * unit - 10 * bytes) <= unit
        }
}

/// Sizes are shown in the unit that fits them, close to what they are.
pub proof fn law_sizes_are_shown_closely(bytes: nat)
    requires
        bytes <= 9007199254740992,
    ensures
        bytes < 1024 ==> size_text(bytes) == decimal(bytes) + " "@ + "B"@,
        1024 <= bytes < 1048576 ==> shows_size(size_text(bytes), bytes, 1024, "KiB"@),
        1048576 <= bytes < 1073741824 ==> shows_size(size_text(bytes), bytes, 1048576, "MiB"@),
        1073741824 <= bytes < 1099511627776 ==> shows_size(
            size_text(bytes),
            bytes,
            1073741824,
            "GiB"@,
        ),
        1099511627776 <= bytes ==> shows_size(size_text(bytes), bytes, 1099511627776, "TiB"@),
{
    crate::measure::law_doubles_are_near(bytes);
    if bytes >= 1024 {
        let d = unit_bytes(size_unit(bytes));
        let whole = (bytes + d / 2) / d;
        let t: nat = 10 * whole;
        let tenths = round_half_even(10 * bytes, d);
        crate::measure::lemma_round_near(10 * bytes, d);
        assert(t / 10 == whole && t % 10 == 0);
        assert(decimal(t / 10) == decimal(whole));
        let x = whole * d;
        assert((10 * whole) * d == 10 * x) by (nonlinear_arith)
            requires
                x == whole * d,
        ;
        assert(decimal(tenths / 10) == decimal(tenths / 10));
        assert(shows_size(size_text(bytes), bytes, d, unit_name(size_unit(bytes))));
    }
}

/// A reading is refused only for what is wrong with it: a listing that is
/// none, one that does not start with a disk, or a table that is none.
pub proof fn law_good_readings_are_taken(devs: Vec<LsblkDevice>, t: SfdiskTable, bad: BadJson)
    ensures
        ({
            let disk = devs@.len() > 0 && (devs@[0].dev_type@ == "disk"@ || devs@[0].dev_type@
                == "loop"@);
            let good = Ok::<Vec<LsblkDevice>, BadJson>(devs);
            &&& disk ==> reading_fault(good, Some(Ok(t))) is None
            &&& disk ==> reading_fault(good, None) is None
            &&& disk ==> reading_fault(good, Some(Err(bad))) == Some(ProbeError::SfdiskJson)
            &&& !disk ==> reading_fault(good, Some(Ok(t))) == Some(ProbeError::NoDisk)
            &&& !disk ==> reading_fault(good, None) == Some(ProbeError::NoDisk)
            &&& reading_fault(Err(bad), Some(Ok(t))) == Some(ProbeError::LsblkJson)
            &&& table_of(Some(Ok(t))) == Some(t)
            &&& table_of(None) is None
        }),
{
}

/// Of several largest gaps the last one counts: a gap behind all others
/// becomes the largest if none of them is larger, and changes nothing
/// otherwise.
pub proof fn law_the_last_largest_gap_counts(gaps: Seq<Gap>, g: Gap, i: int)
    requires
        is_last_largest(gaps, i),
    ensures
        g.size_bytes >= gaps[i].size_bytes ==> is_last_largest(gaps.push(g), gaps.len() as int),
        g.size_bytes < gaps[i].size_bytes ==> is_last_largest(gaps.push(g), i),
{
    let all = gaps.push(g);
    assert forall|j: int| 0 <= j < all.len() implies (#[trigger] all[j]).size_bytes
        <= g.size_bytes || all[j].size_bytes <= gaps[i].size_bytes by {
        if j < gaps.len() {
            assert(all[j] == gaps[j]);
        }
    }
    assert(all[i] == gaps[i]);
    assert(forall|j: int| 0 <= j < gaps.len() ==> #[trigger] all[j] == gaps[j]);
}

/// A node that is not named after the disk is numbered by the digits that it
/// ends in.
#[verifier::spinoff_prover]
pub proof fn law_other_nodes_are_numbered_by_their_end(disk: Seq<char>, front: Seq<char>, n: nat)
    requires
        n <= u32::MAX,
        front.len() > 0,
        !text::is_digit(front.last()),
        !text::has_prefix(front + decimal(n), disk),
    ensures
        node_number(disk, front + decimal(n)) == Some(n),
{
    let d = decimal(n);
    let node = front + d;
    text::law_decimals_read_back(n, u32::MAX as nat);
    assert forall|j: int| node.len() - d.len() <= j < node.len() implies CharClass::Digit.has(
        node[j],
    ) by {
        assert(node[j] == d[j - front.len()]);
        assert(text::is_digit(d[j - front.len()]));
    }
    assert(node[node.len() - d.len() - 1] == front.last());
    text::lemma_trailing(node, CharClass::Digit, d.len() as int);
    assert(tail_of(node, CharClass::Digit) =~= d);
    lemma_p_is_cut_off(d);
}

/// No gap of a disk with a table reaches over the end of the usable range,
/// and without a stated start of it none reaches into the first 1 MiB.
pub proof fn law_offered_gaps_are_usable(devs: Seq<LsblkDevice>, t: SfdiskTable, i: int)
    requires
        devs.len() > 0,
        table_fits(t, devs),
        0 <= i < merged(devs, Some(t)).gaps.len(),
        forall|k: int|
            0 <= k < t.partitions@.len() ==> (#[trigger] t.partitions@[k]).start <= (
            match t.lastlba {
                Some(l) => l + 1,
                None => devs[0].size as int / t.sectorsize as int,
            }),
    ensures
        ({
            let gap = merged(devs, Some(t)).gaps[i];
            &&& t.lastlba matches Some(l) ==> gap.0 + gap.1 <= (l + 1) * t.sectorsize
            &&& t.lastlba is None ==> gap.0 + gap.1 <= devs[0].size
            &&& t.firstlba is None && 1048576int % (t.sectorsize as int) == 0 ==> gap.0 >= 1048576
        }),
{
    let size = devs[0].size as int;
    let sector = t.sectorsize as int;
    law_gaps_are_free(first_lba(t), last_lba(t, size), sector, t.partitions@);
    let gap = free_gaps(first_lba(t), last_lba(t, size), sector, t.partitions@)[i];
    assert(is_aligned_gap(gap));
    if t.lastlba is None {
        assert((size / sector) * sector <= size) by (nonlinear_arith)
            requires
                sector > 0,
                size >= 0,
        ;
    }
    if t.firstlba is None && 1048576int % sector == 0 {
        vstd::arithmetic::div_mod::lemma_fundamental_div_mod(1048576, sector);
        assert((1048576int / sector) * sector == 1048576) by (nonlinear_arith)
            requires
                1048576int == sector * (1048576int / sector) + 1048576int % sector,
                1048576int % sector == 0,
        ;
    }
}

} // verus!
