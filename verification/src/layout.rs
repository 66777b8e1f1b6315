//! Custom layout: roles for existing partitions, and a new root in a
//! free-space gap.
//!
//! A new root goes into a gap that already exists. To install over an
//! existing partition, it gets the root role and is formatted in place.
use vstd::prelude::*;

use crate::disk_bar::{
    arrange, arranged, covered, free_segment, gaps_total, known_total,
    law_arranging_keeps_the_total, lemma_total_add, lemma_total_of_partitions, partition_name,
    place, placed_total, plain_name, BarSegment, Placed, SegRole, SegView,
};
use crate::install::{
    actions_error, count_esps, count_roots, first_undersize, is_repeat, reference_error, targets,
    PartitionAction, ESP_BYTES, ROOT_MIN_BYTES,
};
use crate::partition::{esp_guid, is_esp};
use crate::path::same_path;
use crate::probe::{
    human_size, is_last_largest, largest_index, size_text, DiskInfo, Gap, PartitionInfo,
};
use crate::text::{self, all_digits, decimal, has_prefix, joined, parsed_unsigned, views};

verus! {

#[derive(Debug, Clone, Copy, PartialEq, Eq, Structural)]
pub enum RowRole {
    Leave,
    Root,
    EspKeep,
    EspFormat,
    Delete,
}

impl Default for RowRole {
    fn default() -> (r: Self)
        ensures
            r == RowRole::Leave,
    {
        RowRole::Leave
    }
}

impl RowRole {
    pub open spec fn at(i: int) -> RowRole {
        if i == 1 {
            RowRole::Root
        } else if i == 2 {
            RowRole::EspKeep
        } else if i == 3 {
            RowRole::EspFormat
        } else if i == 4 {
            RowRole::Delete
        } else {
            RowRole::Leave
        }
    }

    pub open spec fn place(self) -> int {
        match self {
            RowRole::Leave => 0,
            RowRole::Root => 1,
            RowRole::EspKeep => 2,
            RowRole::EspFormat => 3,
            RowRole::Delete => 4,
        }
    }

    pub open spec fn is_esp(self) -> bool {
        self is EspKeep || self is EspFormat
    }

    /// The role at a place of the role list.
    pub fn from_index(i: usize) -> (r: RowRole)
        ensures
            r == RowRole::at(i as int),
    {
        match i {
            1 => RowRole::Root,
            2 => RowRole::EspKeep,
            3 => RowRole::EspFormat,
            4 => RowRole::Delete,
            _ => RowRole::Leave,
        }
    }

    /// The place of the role in the role list.
    pub fn index(self) -> (r: usize)
        ensures
            r == self.place(),
    {
        match self {
            RowRole::Leave => 0,
            RowRole::Root => 1,
            RowRole::EspKeep => 2,
            RowRole::EspFormat => 3,
            RowRole::Delete => 4,
        }
    }
}

/// A role and its place in the list name each other.
pub proof fn law_role_places(role: RowRole, i: int)
    ensures
        RowRole::at(role.place()) == role,
        0 <= i <= 4 ==> RowRole::at(i).place() == i,
{
}

/// The role list, as shown.
pub open spec fn role_label(role: RowRole) -> Seq<char> {
    match role {
        RowRole::Leave => "Leave alone"@,
        RowRole::Root => "Use as root (format btrfs)"@,
        RowRole::EspKeep => "Use as ESP (keep contents)"@,
        RowRole::EspFormat => "Use as ESP (format)"@,
        RowRole::Delete => "Delete"@,
    }
}

pub fn label_of(role: RowRole) -> (r: &'static str)
    ensures
        r@ == role_label(role),
{
    match role {
        RowRole::Leave => "Leave alone",
        RowRole::Root => "Use as root (format btrfs)",
        RowRole::EspKeep => "Use as ESP (keep contents)",
        RowRole::EspFormat => "Use as ESP (format)",
        RowRole::Delete => "Delete",
    }
}

#[derive(Debug, PartialEq, Eq)]
pub enum LayoutMsg {
    /// Row and place in the role list.
    RoleSelected(usize, usize),
    /// `None`: no new partition, the root comes from an existing one.
    GapSelected(Option<usize>),
    RootSizeChanged(String),
}

#[derive(Debug, PartialEq, Eq)]
pub struct LayoutUiState {
    /// The disk that this state was built for.
    pub disk: Option<DiskInfo>,
    /// One role per partition of the disk.
    pub roles: Vec<RowRole>,
    /// Index of the gap for the new root, if one is created.
    pub gap_idx: Option<usize>,
    /// Root size in GiB as typed; empty fills the gap.
    pub root_size_gib: String,
}

impl Default for LayoutUiState {
    fn default() -> (r: Self)
        ensures
            r.disk is None,
            r.roles@.len() == 0,
            r.gap_idx is None,
            r.root_size_gib@.len() == 0,
            r.wf(),
    {
        LayoutUiState {
            disk: None,
            roles: Vec::new(),
            gap_idx: None,
            root_size_gib: String::new(),
        }
    }
}

// ---------- roles ----------

/// The first row at or behind `i` with the root role.
pub open spec fn root_from(roles: Seq<RowRole>, i: int) -> Option<int>
    decreases roles.len() - i,
{
    if i < 0 || i >= roles.len() {
        None
    } else if roles[i] is Root {
        Some(i)
    } else {
        root_from(roles, i + 1)
    }
}

/// The first row at or behind `i` with an ESP role.
pub open spec fn esp_row_from(roles: Seq<RowRole>, i: int) -> Option<int>
    decreases roles.len() - i,
{
    if i < 0 || i >= roles.len() {
        None
    } else if roles[i].is_esp() {
        Some(i)
    } else {
        esp_row_from(roles, i + 1)
    }
}

/// A row's role once `role` was picked for `row`: there is one root and one
/// ESP, so picking one of these takes it from other rows.
pub open spec fn role_after(roles: Seq<RowRole>, row: int, role: RowRole, i: int) -> RowRole {
    if i == row {
        role
    } else if (role is Root && roles[i] is Root) || (role.is_esp() && roles[i].is_esp()) {
        RowRole::Leave
    } else {
        roles[i]
    }
}

pub open spec fn roles_after(roles: Seq<RowRole>, row: int, role: RowRole) -> Seq<RowRole> {
    Seq::new(roles.len(), |i: int| role_after(roles, row, role, i))
}

pub open spec fn without_root(roles: Seq<RowRole>) -> Seq<RowRole> {
    roles.map_values(
        |r: RowRole|
            if r is Root {
                RowRole::Leave
            } else {
                r
            },
    )
}

pub open spec fn count_deletes(roles: Seq<RowRole>) -> nat
    decreases roles.len(),
{
    if roles.len() == 0 {
        0
    } else {
        count_deletes(roles.drop_last()) + (if roles.last() is Delete {
            1nat
        } else {
            0
        })
    }
}

/// At most one row is the root, and then no gap holds a new one.
pub open spec fn single_root(roles: Seq<RowRole>, gap: Option<usize>) -> bool {
    &&& forall|i: int, j: int|
        0 <= i < j < roles.len() ==> !(#[trigger] roles[i] is Root && #[trigger] roles[j] is Root)
    &&& gap is Some ==> forall|i: int| 0 <= i < roles.len() ==> !(#[trigger] roles[i] is Root)
}

/// At most one row is the ESP.
pub open spec fn single_esp(roles: Seq<RowRole>) -> bool {
    forall|i: int, j: int|
        0 <= i < j < roles.len() ==> !((#[trigger] roles[i]).is_esp() && (
        #[trigger] roles[j]).is_esp())
}

// ---------- sizes ----------

/// Text that the size field takes: up to six digits.
pub open spec fn is_size_text(s: Seq<char>) -> bool {
    all_digits(s) && s.len() <= 6
}

/// The size of the new root: as typed, but no more than fits; everything
/// that fits when nothing, or zero, is typed.
pub open spec fn requested(size_text: Seq<char>, gap_size: int, esp_carved: bool) -> int {
    let capacity = gap_size - (if esp_carved {
        ESP_BYTES as int
    } else {
        0
    });
    match parsed_unsigned(size_text, u64::MAX as nat) {
        Some(gib) => if gib == 0 || gib * 0x4000_0000 > capacity {
            capacity
        } else {
            (gib * 0x4000_0000) as int
        },
        None => capacity,
    }
}

/// A short run of digits writes a small number.
proof fn lemma_six_digits(s: Seq<char>)
    requires
        all_digits(s),
        s.len() <= 6,
    ensures
        text::digits_value(s) <= 999999,
{
    reveal_with_fuel(text::digits_value, 7);
    assert forall|i: int| 0 <= i < s.len() implies (s[i] as u32 - '0' as u32) <= 9 by {
        assert(text::is_digit(s[i]));
    }
    let s1 = s.drop_last();
    let s2 = s1.drop_last();
    let s3 = s2.drop_last();
    let s4 = s3.drop_last();
    let s5 = s4.drop_last();
    if s.len() >= 1 {
        assert(text::is_digit(s[s.len() - 1]));
    }
    if s.len() >= 2 {
        assert(s1.last() == s[s.len() - 2]);
        assert(text::is_digit(s[s.len() - 2]));
    }
    if s.len() >= 3 {
        assert(s2.last() == s[s.len() - 3]);
        assert(text::is_digit(s[s.len() - 3]));
    }
    if s.len() >= 4 {
        assert(s3.last() == s[s.len() - 4]);
        assert(text::is_digit(s[s.len() - 4]));
    }
    if s.len() >= 5 {
        assert(s4.last() == s[s.len() - 5]);
        assert(text::is_digit(s[s.len() - 5]));
    }
    if s.len() >= 6 {
        assert(s5.last() == s[s.len() - 6]);
        assert(text::is_digit(s[s.len() - 6]));
    }
}

// ---------- checks ----------

/// What is wrong with the layout, if anything.
pub open spec fn layout_error(s: LayoutUiState) -> Option<Seq<char>> {
    match s.disk {
        None => Some("no disk selected"@),
        Some(disk) => {
            let root = root_from(s.roles@, 0);
            let esp = esp_row_from(s.roles@, 0);
            if root is None && s.gap_idx is None {
                Some(
                    "Choose a root: assign \"Use as root\" to a partition or pick a free-space gap"@,
                )
            } else if root is Some && s.gap_idx is Some {
                Some("Only one root allowed"@)
            } else if root is Some && disk.partitions@[root->0].mounted {
                Some(disk.partitions@[root->0].path@ + " is mounted"@)
            } else if root is Some && disk.partitions@[root->0].size_bytes < ROOT_MIN_BYTES {
                Some(
                    disk.partitions@[root->0].path@ + " is too small for root (minimum "@
                        + size_text(ROOT_MIN_BYTES as nat) + ")"@,
                )
            } else if esp is None && s.gap_idx is None {
                Some(
                    "No ESP: assign \"Use as ESP\" to a partition (or create root in a gap so one can be created alongside it)"@,
                )
            } else if gap_error(s, disk) is Some {
                gap_error(s, disk)
            } else {
                mounted_error(s.roles@, disk.partitions@, 0)
            }
        },
    }
}

/// The least that a gap must hold.
pub open spec fn gap_need(esp_auto: bool) -> int {
    ROOT_MIN_BYTES + (if esp_auto {
        ESP_BYTES as int
    } else {
        0
    })
}

/// What is wrong with the gap of the new root, if anything.
pub open spec fn gap_error(s: LayoutUiState, disk: DiskInfo) -> Option<Seq<char>> {
    match s.gap_idx {
        None => None,
        Some(gi) => if gi >= disk.gaps@.len() {
            Some("selected gap no longer exists"@)
        } else {
            let esp_auto = esp_row_from(s.roles@, 0) is None;
            let size = disk.gaps@[gi as int].size_bytes as int;
            if size < gap_need(esp_auto) {
                Some(
                    "Selected gap is too small ("@ + size_text(size as nat) + "; need at least "@
                        + size_text(gap_need(esp_auto) as nat) + ")"@,
                )
            } else if requested(s.root_size_gib@, size, esp_auto) < ROOT_MIN_BYTES {
                Some("Root size too small (minimum "@ + size_text(ROOT_MIN_BYTES as nat) + ")"@)
            } else {
                None
            }
        },
    }
}

/// The complaint about the first mounted partition with a role at or behind
/// `i`.
pub open spec fn mounted_error(
    roles: Seq<RowRole>,
    parts: Seq<PartitionInfo>,
    i: int,
) -> Option<Seq<char>>
    decreases roles.len() - i,
{
    if i < 0 || i >= roles.len() {
        None
    } else if !(roles[i] is Leave) && parts[i].mounted {
        Some(parts[i].path@ + " is mounted and can't be modified"@)
    } else {
        mounted_error(roles, parts, i + 1)
    }
}

/// The parts of the summary line.
pub open spec fn summary_parts(s: LayoutUiState) -> Seq<Seq<char>> {
    let disk = s.disk->0;
    let root = root_from(s.roles@, 0);
    let esp = esp_row_from(s.roles@, 0);
    let deletes = count_deletes(s.roles@);
    (match root {
        Some(i) => seq!["root on "@ + disk.partitions@[i].path@ + " (formatted)"@],
        None => Seq::empty(),
    }) + (match s.gap_idx {
        Some(gi) => if gi < disk.gaps@.len() {
            seq![
                "new "@ + size_text(
                    requested(
                        s.root_size_gib@,
                        disk.gaps@[gi as int].size_bytes as int,
                        esp is None,
                    ) as nat,
                ) + " root in free space"@,
            ] + (if esp is None {
                seq!["new 512 MiB ESP"@]
            } else {
                Seq::empty()
            })
        } else {
            Seq::empty()
        },
        None => Seq::empty(),
    }) + (match esp {
        Some(i) => seq![
            "ESP on "@ + disk.partitions@[i].path@ + (if s.roles@[i] is EspFormat {
                " (formatted)"@
            } else {
                " (kept)"@
            }),
        ],
        None => Seq::empty(),
    }) + (if deletes > 0 {
        seq![decimal(deletes) + " partition(s) deleted"@]
    } else {
        Seq::empty()
    })
}

pub open spec fn layout_summary(s: LayoutUiState) -> Seq<char> {
    joined(summary_parts(s), ", "@)
}

// ---------- actions ----------

/// The action that a row's role stands for.
pub open spec fn row_action(role: RowRole, device: String) -> Option<PartitionAction> {
    match role {
        RowRole::Leave => None,
        RowRole::Root => Some(PartitionAction::UseAsRoot { device }),
        RowRole::EspKeep => Some(PartitionAction::UseAsEsp { device, format: false }),
        RowRole::EspFormat => Some(PartitionAction::UseAsEsp { device, format: true }),
        RowRole::Delete => Some(PartitionAction::Delete { device }),
    }
}

/// The actions of the first `n` rows.
pub open spec fn row_actions(
    roles: Seq<RowRole>,
    parts: Seq<PartitionInfo>,
    n: int,
) -> Seq<PartitionAction>
    decreases n,
{
    if n <= 0 {
        Seq::empty()
    } else {
        let front = row_actions(roles, parts, n - 1);
        match row_action(roles[n - 1], parts[n - 1].path) {
            Some(a) => front.push(a),
            None => front,
        }
    }
}

/// The actions for the gap: an ESP where no row is one, then the root.
pub open spec fn gap_actions(s: LayoutUiState, disk: DiskInfo) -> Seq<PartitionAction> {
    match s.gap_idx {
        Some(gi) => if gi < disk.gaps@.len() {
            let gap = disk.gaps@[gi as int];
            let esp_auto = esp_row_from(s.roles@, 0) is None;
            let size = requested(s.root_size_gib@, gap.size_bytes as int, esp_auto) as u64;
            if esp_auto {
                seq![
                    PartitionAction::CreateEsp { start_bytes: gap.start_bytes },
                    PartitionAction::CreateRoot {
                        start_bytes: (gap.start_bytes + ESP_BYTES) as u64,
                        size_bytes: Some(size),
                    },
                ]
            } else {
                seq![
                    PartitionAction::CreateRoot {
                        start_bytes: gap.start_bytes,
                        size_bytes: Some(size),
                    },
                ]
            }
        } else {
            Seq::empty()
        },
        None => Seq::empty(),
    }
}

pub open spec fn planned_actions(s: LayoutUiState) -> Seq<PartitionAction> {
    match s.disk {
        None => Seq::empty(),
        Some(disk) => row_actions(s.roles@, disk.partitions@, s.roles@.len() as int) + gap_actions(
            s,
            disk,
        ),
    }
}

// ---------- preview ----------

pub open spec fn row_segment(role: RowRole, p: PartitionInfo) -> (int, SegView) {
    let size = p.size_bytes as int;
    (
        p.start_bytes as int,
        match role {
            RowRole::Delete => SegView { label: "free space"@, size, role: SegRole::Free },
            RowRole::Root => SegView { label: "root"@, size, role: SegRole::Root },
            RowRole::EspKeep => SegView { label: "EFI"@, size, role: SegRole::Esp },
            RowRole::EspFormat => SegView { label: "EFI"@, size, role: SegRole::Esp },
            RowRole::Leave => SegView { label: plain_name(p@), size, role: SegRole::Existing },
        },
    )
}

pub open spec fn row_segments(
    roles: Seq<RowRole>,
    parts: Seq<PartitionInfo>,
) -> Seq<(int, SegView)> {
    Seq::new(parts.len(), |i: int| row_segment(roles[i], parts[i]))
}

/// The segments of one gap: split up where the new root goes.
pub open spec fn gap_segments(s: LayoutUiState, gap: Gap, gi: int) -> Seq<(int, SegView)> {
    let start = gap.start_bytes as int;
    let size = gap.size_bytes as int;
    if s.gap_idx == Some(gi as usize) {
        let esp_auto = esp_row_from(s.roles@, 0) is None;
        let carved = if esp_auto {
            ESP_BYTES as int
        } else {
            0
        };
        let root = requested(s.root_size_gib@, size, esp_auto);
        (if esp_auto {
            seq![(start, SegView { label: "EFI"@, size: ESP_BYTES as int, role: SegRole::Esp })]
        } else {
            Seq::empty()
        }) + seq![(start + carved, SegView { label: "root"@, size: root, role: SegRole::Root })] + (
        if size > root + carved {
            seq![free_segment(start + carved + root, size - root - carved)]
        } else {
            Seq::empty()
        })
    } else {
        seq![free_segment(start, size)]
    }
}

/// The segments of the first `n` gaps.
pub open spec fn all_gap_segments(s: LayoutUiState, gaps: Seq<Gap>, n: int) -> Seq<(int, SegView)>
    decreases n,
{
    if n <= 0 {
        Seq::empty()
    } else {
        all_gap_segments(s, gaps, n - 1) + gap_segments(s, gaps[n - 1], n - 1)
    }
}

pub open spec fn planned_items(s: LayoutUiState) -> Seq<(int, SegView)> {
    match s.disk {
        None => Seq::empty(),
        Some(disk) => row_segments(s.roles@, disk.partitions@) + all_gap_segments(
            s,
            disk.gaps@,
            disk.gaps@.len() as int,
        ),
    }
}

impl LayoutUiState {
    /// One role per partition of a well-formed disk, and a size field that
    /// holds a size.
    pub open spec fn wf(self) -> bool {
        &&& is_size_text(self.root_size_gib@)
        &&& match self.disk {
            None => self.roles@.len() == 0,
            Some(d) => d.wf() && self.roles@.len() == d.partitions@.len(),
        }
    }

    /// The gap of the new root, if there is one, can hold the ESP that goes
    /// with it.
    pub open spec fn gap_holds_esp(self) -> bool {
        match (self.disk, self.gap_idx) {
            (Some(d), Some(gi)) => gi < d.gaps@.len() && esp_row_from(self.roles@, 0) is None
                ==> d.gaps@[gi as int].size_bytes >= ESP_BYTES,
            _ => true,
        }
    }

    /// Whether the gap of the new root, if there is one, can hold the ESP
    /// that goes with it.
    pub fn holds_esp(&self) -> (r: bool)
        ensures
            r == self.gap_holds_esp(),
    {
        match (&self.disk, self.gap_idx) {
            (Some(d), Some(gi)) => gi >= d.gaps.len() || self.esp_row().is_some()
                || d.gaps[gi].size_bytes >= ESP_BYTES,
            _ => true,
        }
    }

    /// Builds the state for `disk`. An existing ESP is kept; the new root
    /// goes into the largest gap when it can hold one.
    pub fn reset_for(&mut self, disk: &DiskInfo)
        requires
            disk.wf(),
        ensures
            final(self).wf(),
            final(self).disk matches Some(d) && d@ == disk@ && d.partitions@ == disk.partitions@
                && d.gaps@ == disk.gaps@,
            final(self).roles@.len() == disk.partitions@.len(),
            forall|i: int|
                0 <= i < disk.partitions@.len() ==> #[trigger] final(self).roles@[i] == (if (
                disk.partitions@[i])@.part_type == Some(crate::partition::esp_guid()) {
                    RowRole::EspKeep
                } else {
                    RowRole::Leave
                }),
            match final(self).gap_idx {
                Some(i) => is_last_largest(disk.gaps@, i as int)
                    && disk.gaps@[i as int].size_bytes >= ROOT_MIN_BYTES,
                None => forall|i: int|
                    0 <= i < disk.gaps@.len() ==> (#[trigger] disk.gaps@[i]).size_bytes
                        < ROOT_MIN_BYTES,
            },
            final(self).root_size_gib@.len() == 0,
            single_root(final(self).roles@, final(self).gap_idx),
    {
        let mut roles: Vec<RowRole> = Vec::new();
        let mut i: usize = 0;
        while i < disk.partitions.len()
            invariant
                i <= disk.partitions@.len(),
                roles@.len() == i,
                forall|k: int|
                    0 <= k < i ==> #[trigger] roles@[k] == (if (disk.partitions@[k])@.part_type
                        == Some(crate::partition::esp_guid()) {
                        RowRole::EspKeep
                    } else {
                        RowRole::Leave
                    }),
            decreases disk.partitions@.len() - i,
        {
            if is_esp(&disk.partitions[i]) {
                roles.push(RowRole::EspKeep);
            } else {
                roles.push(RowRole::Leave);
            }
            i += 1;
        }
        let gap_idx: Option<usize> = match largest_index(&disk.gaps) {
            Some(i) => if disk.gaps[i].size_bytes >= ROOT_MIN_BYTES {
                Some(i)
            } else {
                None
            },
            None => None,
        };
        self.roles = roles;
        self.gap_idx = gap_idx;
        self.root_size_gib = String::new();
        self.disk = Some(disk.clone());
    }

    /// One interaction with the page.
    pub fn update(&mut self, msg: LayoutMsg)
        requires
            old(self).wf(),
        ensures
            final(self).wf(),
            final(self).disk == old(self).disk,
            match msg {
                LayoutMsg::RoleSelected(row, place) => {
                    let role = RowRole::at(place as int);
                    &&& final(self).roles@ == roles_after(old(self).roles@, row as int, role)
                    &&& final(self).gap_idx == (if role is Root {
                        None
                    } else {
                        old(self).gap_idx
                    })
                    &&& final(self).root_size_gib == old(self).root_size_gib
                },
                LayoutMsg::GapSelected(idx) => {
                    &&& final(self).roles@ == (if idx is Some {
                        without_root(old(self).roles@)
                    } else {
                        old(self).roles@
                    })
                    &&& final(self).gap_idx == idx
                    &&& final(self).root_size_gib == old(self).root_size_gib
                },
                LayoutMsg::RootSizeChanged(s) => {
                    &&& final(self).roles@ == old(self).roles@
                    &&& final(self).gap_idx == old(self).gap_idx
                    &&& final(self).root_size_gib == (if is_size_text(s@) {
                        s
                    } else {
                        old(self).root_size_gib
                    })
                },
            },
    {
        match msg {
            LayoutMsg::RoleSelected(row, place) => {
                let role = RowRole::from_index(place);
                let ghost before = self.roles@;
                let mut roles: Vec<RowRole> = Vec::new();
                let mut i: usize = 0;
                while i < self.roles.len()
                    invariant
                        i <= self.roles@.len(),
                        before == self.roles@,
                        roles@ == roles_after(before, row as int, role).take(i as int),
                    decreases self.roles@.len() - i,
                {
                    let r = self.roles[i];
                    let same_root = matches!(role, RowRole::Root) && matches!(r, RowRole::Root);
                    let same_esp = matches!(role, RowRole::EspKeep | RowRole::EspFormat)
                        && matches!(r, RowRole::EspKeep | RowRole::EspFormat);
                    if i == row {
                        roles.push(role);
                    } else if same_root || same_esp {
                        roles.push(RowRole::Leave);
                    } else {
                        roles.push(r);
                    }
                    let ghost all = roles_after(before, row as int, role);
                    assert(all.take(i + 1) =~= all.take(i as int).push(all[i as int]));
                    i += 1;
                }
                assert(roles@ =~= roles_after(before, row as int, role));
                self.roles = roles;
                if matches!(role, RowRole::Root) {
                    self.gap_idx = None;
                }
            },
            LayoutMsg::GapSelected(idx) => {
                self.gap_idx = idx;
                if idx.is_some() {
                    let ghost before = self.roles@;
                    let mut roles: Vec<RowRole> = Vec::new();
                    let mut i: usize = 0;
                    while i < self.roles.len()
                        invariant
                            i <= self.roles@.len(),
                            before == self.roles@,
                            roles@ == without_root(before).take(i as int),
                        decreases self.roles@.len() - i,
                    {
                        let r = self.roles[i];
                        if matches!(r, RowRole::Root) {
                            roles.push(RowRole::Leave);
                        } else {
                            roles.push(r);
                        }
                        let ghost all = without_root(before);
                        assert(all.take(i + 1) =~= all.take(i as int).push(all[i as int]));
                        i += 1;
                    }
                    assert(roles@ =~= without_root(before));
                    self.roles = roles;
                }
            },
            LayoutMsg::RootSizeChanged(s) => {
                if size_text_ok(s.as_str()) {
                    self.root_size_gib = s;
                }
            },
        }
    }

    fn esp_row(&self) -> (r: Option<usize>)
        ensures
            match r {
                Some(i) => i < self.roles@.len() && esp_row_from(self.roles@, 0) == Some(i as int)
                    && self.roles@[i as int].is_esp(),
                None => esp_row_from(self.roles@, 0) is None,
            },
    {
        let mut i: usize = 0;
        while i < self.roles.len()
            invariant
                i <= self.roles@.len(),
                esp_row_from(self.roles@, 0) == esp_row_from(self.roles@, i as int),
            decreases self.roles@.len() - i,
        {
            if matches!(self.roles[i], RowRole::EspKeep | RowRole::EspFormat) {
                return Some(i);
            }
            i += 1;
        }
        None
    }

    fn root_row(&self) -> (r: Option<usize>)
        ensures
            match r {
                Some(i) => i < self.roles@.len() && root_from(self.roles@, 0) == Some(i as int)
                    && self.roles@[i as int] is Root,
                None => root_from(self.roles@, 0) is None,
            },
    {
        let mut i: usize = 0;
        while i < self.roles.len()
            invariant
                i <= self.roles@.len(),
                root_from(self.roles@, 0) == root_from(self.roles@, i as int),
            decreases self.roles@.len() - i,
        {
            if matches!(self.roles[i], RowRole::Root) {
                return Some(i);
            }
            i += 1;
        }
        None
    }

    /// Requested root size in bytes, when it is created in a gap.
    fn requested_root_bytes(&self, gap: &Gap, esp_carved: bool) -> (r: u64)
        requires
            is_size_text(self.root_size_gib@),
            esp_carved ==> gap.size_bytes >= ESP_BYTES,
        ensures
            r == requested(self.root_size_gib@, gap.size_bytes as int, esp_carved),
            r <= gap.size_bytes - (if esp_carved {
                ESP_BYTES as int
            } else {
                0
            }),
    {
        let capacity: u64 = gap.size_bytes - (if esp_carved {
            ESP_BYTES
        } else {
            0
        });
        let chars = text::chars_of(self.root_size_gib.as_str());
        match text::parse_unsigned(&chars, u64::MAX) {
            Some(gib) => {
                proof {
                    let t = self.root_size_gib@;
                    lemma_six_digits(t);
                    assert(t.len() > 1 ==> text::is_digit(t[0]));
                }
                if gib == 0 || gib * 0x4000_0000 > capacity {
                    capacity
                } else {
                    gib * 0x4000_0000
                }
            },
            None => capacity,
        }
    }

    fn check_gap(&self, disk: &DiskInfo, esp_auto: bool) -> (r: Option<String>)
        requires
            is_size_text(self.root_size_gib@),
            esp_auto == (esp_row_from(self.roles@, 0) is None),
        ensures
            text::opt_view(r) == gap_error(*self, *disk),
    {
        let gi = match self.gap_idx {
            Some(gi) => gi,
            None => return None,
        };
        if gi >= disk.gaps.len() {
            return Some("selected gap no longer exists".to_owned());
        }
        let gap = disk.gaps[gi];
        let need: u64 = ROOT_MIN_BYTES + (if esp_auto {
            ESP_BYTES
        } else {
            0
        });
        if gap.size_bytes < need {
            let have = human_size(gap.size_bytes);
            let least = human_size(need);
            return Some(
                text::cat5(
                    "Selected gap is too small (",
                    have.as_str(),
                    "; need at least ",
                    least.as_str(),
                    ")",
                ),
            );
        }
        let root = self.requested_root_bytes(&gap, esp_auto);
        if root < ROOT_MIN_BYTES {
            let least = human_size(ROOT_MIN_BYTES);
            return Some(text::cat3("Root size too small (minimum ", least.as_str(), ")"));
        }
        None
    }

    fn check_mounted(&self, disk: &DiskInfo) -> (r: Option<String>)
        requires
            self.roles@.len() == disk.partitions@.len(),
        ensures
            text::opt_view(r) == mounted_error(self.roles@, disk.partitions@, 0),
    {
        let mut i: usize = 0;
        while i < self.roles.len()
            invariant
                i <= self.roles@.len(),
                self.roles@.len() == disk.partitions@.len(),
                mounted_error(self.roles@, disk.partitions@, 0) == mounted_error(
                    self.roles@,
                    disk.partitions@,
                    i as int,
                ),
            decreases self.roles@.len() - i,
        {
            if !matches!(self.roles[i], RowRole::Leave) && disk.partitions[i].mounted {
                return Some(
                    text::cat2(
                        disk.partitions[i].path.as_str(),
                        " is mounted and can't be modified",
                    ),
                );
            }
            i += 1;
        }
        None
    }

    /// Checks the layout: the summary line, or the problem.
    pub fn validate(&self) -> (r: Result<String, String>)
        requires
            self.wf(),
        ensures
            match r {
                Ok(s) => layout_error(*self) is None && s@ == layout_summary(*self),
                Err(m) => layout_error(*self) == Some(m@),
            },
    {
        let disk = match &self.disk {
            Some(d) => d,
            None => return Err("no disk selected".to_owned()),
        };
        let esp = self.esp_row();
        let root = self.root_row();
        if root.is_none() && self.gap_idx.is_none() {
            return Err(
                "Choose a root: assign \"Use as root\" to a partition or pick a free-space gap".to_owned(),
            );
        }
        if root.is_some() && self.gap_idx.is_some() {
            return Err("Only one root allowed".to_owned());
        }
        if let Some(i) = root {
            let p = &disk.partitions[i];
            if p.mounted {
                return Err(text::cat2(p.path.as_str(), " is mounted"));
            }
            if p.size_bytes < ROOT_MIN_BYTES {
                let least = human_size(ROOT_MIN_BYTES);
                return Err(
                    text::cat4(
                        p.path.as_str(),
                        " is too small for root (minimum ",
                        least.as_str(),
                        ")",
                    ),
                );
            }
        }
        if esp.is_none() && self.gap_idx.is_none() {
            return Err(
                "No ESP: assign \"Use as ESP\" to a partition (or create root in a gap so one can be created alongside it)".to_owned(),
            );
        }
        if let Some(m) = self.check_gap(disk, esp.is_none()) {
            return Err(m);
        }
        if let Some(m) = self.check_mounted(disk) {
            return Err(m);
        }
        Ok(self.summary(disk))
    }

    fn summary(&self, disk: &DiskInfo) -> (r: String)
        requires
            self.wf(),
            self.disk == Some(*disk),
            gap_error(*self, *disk) is None,
        ensures
            r@ == layout_summary(*self),
    {
        let ghost goal = summary_parts(*self);
        let mut parts: Vec<String> = Vec::new();
        let esp = self.esp_row();
        if let Some(i) = self.root_row() {
            push_text(
                &mut parts,
                text::cat3("root on ", disk.partitions[i].path.as_str(), " (formatted)"),
            );
        }
        if let Some(gi) = self.gap_idx {
            let gap = disk.gaps[gi];
            let root = self.requested_root_bytes(&gap, esp.is_none());
            let size = human_size(root);
            push_text(&mut parts, text::cat3("new ", size.as_str(), " root in free space"));
            if esp.is_none() {
                push_text(&mut parts, "new 512 MiB ESP".to_owned());
            }
        }
        if let Some(i) = esp {
            let note: &str = if matches!(self.roles[i], RowRole::EspFormat) {
                " (formatted)"
            } else {
                " (kept)"
            };
            push_text(
                &mut parts,
                text::cat3("ESP on ", disk.partitions[i].path.as_str(), note),
            );
        }
        let deletes = self.deletes();
        if deletes > 0 {
            let n = text::decimal_string(deletes);
            push_text(&mut parts, text::cat2(n.as_str(), " partition(s) deleted"));
        }
        assert(views(parts@) =~= goal);
        text::join(&parts, ", ")
    }

    fn deletes(&self) -> (r: u64)
        ensures
            r == count_deletes(self.roles@),
    {
        let mut n: u64 = 0;
        let mut i: usize = 0;
        assert(self.roles@.take(0) =~= Seq::empty());
        while i < self.roles.len()
            invariant
                i <= self.roles@.len(),
                n <= i,
                n == count_deletes(self.roles@.take(i as int)),
            decreases self.roles@.len() - i,
        {
            assert(self.roles@.take(i + 1).drop_last() =~= self.roles@.take(i as int));
            if matches!(self.roles[i], RowRole::Delete) {
                n += 1;
            }
            i += 1;
        }
        assert(self.roles@.take(self.roles@.len() as int) =~= self.roles@);
        n
    }

    /// The engine's actions for a layout that passed [`Self::validate`].
    pub fn to_actions(&self) -> (r: Vec<PartitionAction>)
        requires
            self.wf(),
            layout_error(*self) is None,
        ensures
            r@ == planned_actions(*self),
    {
        let mut actions: Vec<PartitionAction> = Vec::new();
        let disk = match &self.disk {
            Some(d) => d,
            None => return actions,
        };
        let mut i: usize = 0;
        while i < self.roles.len()
            invariant
                i <= self.roles@.len(),
                self.roles@.len() == disk.partitions@.len(),
                actions@ == row_actions(self.roles@, disk.partitions@, i as int),
            decreases self.roles@.len() - i,
        {
            let device = disk.partitions[i].path.clone();
            match self.roles[i] {
                RowRole::Leave => {},
                RowRole::Root => actions.push(PartitionAction::UseAsRoot { device }),
                RowRole::EspKeep => actions.push(
                    PartitionAction::UseAsEsp { device, format: false },
                ),
                RowRole::EspFormat => actions.push(
                    PartitionAction::UseAsEsp { device, format: true },
                ),
                RowRole::Delete => actions.push(PartitionAction::Delete { device }),
            }
            i += 1;
        }
        let ghost rows = actions@;
        if let Some(gi) = self.gap_idx {
            let gap = disk.gaps[gi];
            assert(disk.gaps@[gi as int].start_bytes + disk.gaps@[gi as int].size_bytes <= u64::MAX);
            let esp_auto = self.esp_row().is_none();
            let mut start: u64 = gap.start_bytes;
            if esp_auto {
                actions.push(PartitionAction::CreateEsp { start_bytes: start });
                start = start + ESP_BYTES;
            }
            let root = self.requested_root_bytes(&gap, esp_auto);
            actions.push(
                PartitionAction::CreateRoot { start_bytes: start, size_bytes: Some(root) },
            );
        }
        assert(actions@ =~= planned_actions(*self));
        actions
    }

    fn place_gap(&self, items: &mut Vec<Placed>, gap: &Gap, gi: usize)
        requires
            is_size_text(self.root_size_gib@),
            gap.start_bytes + gap.size_bytes <= u64::MAX,
            self.gap_idx == Some(gi) && esp_row_from(self.roles@, 0) is None ==> gap.size_bytes
                >= ESP_BYTES,
        ensures
            views(final(items)@) == views(old(items)@) + gap_segments(*self, *gap, gi as int),
    {
        let ghost before = views(items@);
        let chosen = match self.gap_idx {
            Some(k) => k == gi,
            None => false,
        };
        if chosen {
            let esp_auto = self.esp_row().is_none();
            let mut start: u64 = gap.start_bytes;
            let mut used: u64 = 0;
            if esp_auto {
                place(items, start, "EFI".to_owned(), ESP_BYTES, SegRole::Esp);
                start = start + ESP_BYTES;
                used = ESP_BYTES;
            }
            let root = self.requested_root_bytes(gap, esp_auto);
            place(items, start, "root".to_owned(), root, SegRole::Root);
            used = used + root;
            if gap.size_bytes > used {
                place(
                    items,
                    start + root,
                    "free space".to_owned(),
                    gap.size_bytes - used,
                    SegRole::Free,
                );
            }
        } else {
            place(
                items,
                gap.start_bytes,
                "free space".to_owned(),
                gap.size_bytes,
                SegRole::Free,
            );
        }
        assert(views(items@) =~= before + gap_segments(*self, *gap, gi as int));
    }

    /// The disk as it will be, in the order of positions.
    pub fn planned_segments(&self) -> (r: Vec<BarSegment>)
        requires
            self.wf(),
            self.gap_holds_esp(),
        ensures
            views(r@) == arranged(planned_items(*self)),
    {
        let mut items: Vec<Placed> = Vec::new();
        assert(views(items@) =~= Seq::empty());
        let disk = match &self.disk {
            Some(d) => d,
            None => return arrange(&items),
        };
        let ghost rows = row_segments(self.roles@, disk.partitions@);
        let mut i: usize = 0;
        assert(rows.take(0) =~= Seq::empty());
        while i < disk.partitions.len()
            invariant
                i <= disk.partitions@.len(),
                self.roles@.len() == disk.partitions@.len(),
                rows == row_segments(self.roles@, disk.partitions@),
                views(items@) == rows.take(i as int),
            decreases disk.partitions@.len() - i,
        {
            let p = &disk.partitions[i];
            let (label, role) = match self.roles[i] {
                RowRole::Delete => ("free space".to_owned(), SegRole::Free),
                RowRole::Root => ("root".to_owned(), SegRole::Root),
                RowRole::EspKeep => ("EFI".to_owned(), SegRole::Esp),
                RowRole::EspFormat => ("EFI".to_owned(), SegRole::Esp),
                RowRole::Leave => (partition_name(p), SegRole::Existing),
            };
            place(&mut items, p.start_bytes, label, p.size_bytes, role);
            assert(rows.take(i + 1) =~= rows.take(i as int).push(rows[i as int]));
            i += 1;
        }
        assert(rows.take(rows.len() as int) =~= rows);
        let mut k: usize = 0;
        assert(rows + Seq::empty() =~= rows);
        while k < disk.gaps.len()
            invariant
                k <= disk.gaps@.len(),
                self.wf(),
                self.gap_holds_esp(),
                self.disk == Some(*disk),
                views(items@) == rows + all_gap_segments(*self, disk.gaps@, k as int),
            decreases disk.gaps@.len() - k,
        {
            let gap = disk.gaps[k];
            assert(disk.gaps@[k as int].start_bytes + disk.gaps@[k as int].size_bytes <= u64::MAX);
            self.place_gap(&mut items, &gap, k);
            assert(views(items@) =~= rows + all_gap_segments(*self, disk.gaps@, k + 1));
            k += 1;
        }
        arrange(&items)
    }
}

fn push_text(list: &mut Vec<String>, s: String)
    ensures
        views(final(list)@) == views(old(list)@).push(s@),
{
    let ghost before = list@;
    list.push(s);
    assert(views(list@) =~= views(before).push(s@));
}

fn size_text_ok(s: &str) -> (r: bool)
    ensures
        r == is_size_text(s@),
{
    let chars = text::chars_of(s);
    if chars.len() > 6 {
        return false;
    }
    let mut i: usize = 0;
    while i < chars.len()
        invariant
            i <= chars@.len(),
            chars@ == s@,
            forall|j: int| 0 <= j < i ==> text::is_digit(#[trigger] chars@[j]),
        decreases chars@.len() - i,
    {
        if !text::digit(chars[i]) {
            return false;
        }
        i += 1;
    }
    true
}

// ---------- laws ----------

/// Picking the root role leaves exactly one root and no new partition;
/// picking an ESP role leaves exactly one ESP.
pub proof fn law_picked_roles_are_single(roles: Seq<RowRole>, row: int, role: RowRole)
    requires
        0 <= row < roles.len(),
    ensures
        role is Root ==> forall|i: int|
            0 <= i < roles.len() ==> (#[trigger] roles_after(roles, row, role)[i] is Root <==> i
                == row),
        role.is_esp() ==> forall|i: int|
            0 <= i < roles.len() ==> ((#[trigger] roles_after(roles, row, role)[i]).is_esp() <==> i
                == row),
{
}

/// No interaction ever gives a layout two roots: if there was at most one
/// before, there is at most one after.
pub proof fn law_single_root_is_kept(
    roles: Seq<RowRole>,
    gap: Option<usize>,
    row: int,
    role: RowRole,
    idx: Option<usize>,
)
    requires
        single_root(roles, gap),
    ensures
        single_root(
            roles_after(roles, row, role),
            if role is Root {
                None
            } else {
                gap
            },
        ),
        idx is Some ==> single_root(without_root(roles), idx),
        idx is None ==> single_root(roles, None),
{
    let after = roles_after(roles, row, role);
    assert forall|i: int, j: int| 0 <= i < j < after.len() implies !(#[trigger] after[i] is Root
        && #[trigger] after[j] is Root) by {
        if !(role is Root) {
            if i != row {
                assert(after[i] is Root ==> roles[i] is Root);
            }
            if j != row {
                assert(after[j] is Root ==> roles[j] is Root);
            }
        }
    }
    if gap is Some && !(role is Root) {
        assert forall|i: int| 0 <= i < after.len() implies !(#[trigger] after[i] is Root) by {
            if i != row {
                assert(!(roles[i] is Root));
            }
        }
    }
}

proof fn lemma_row_counts(roles: Seq<RowRole>, parts: Seq<PartitionInfo>, n: int)
    requires
        0 <= n <= roles.len(),
        roles.len() == parts.len(),
        single_root(roles, None),
    ensures
        count_roots(row_actions(roles, parts, n)) == (if exists|i: int|
            0 <= i < n && #[trigger] roles[i] is Root {
            1nat
        } else {
            0
        }),
        single_esp(roles) ==> count_esps(row_actions(roles, parts, n)) == (if exists|i: int|
            0 <= i < n && (#[trigger] roles[i]).is_esp() {
            1nat
        } else {
            0
        }),
        forall|k: int|
            0 <= k < row_actions(roles, parts, n).len() ==> (#[trigger] row_actions(
                roles,
                parts,
                n,
            )[k]).undersize() is None,
    decreases n,
{
    if n > 0 {
        lemma_row_counts(roles, parts, n - 1);
        let front = row_actions(roles, parts, n - 1);
        let all = row_actions(roles, parts, n);
        if row_action(roles[n - 1], parts[n - 1].path) is Some {
            assert(all.drop_last() =~= front);
        }
        if roles[n - 1] is Root {
            assert(forall|i: int| 0 <= i < n - 1 ==> !(#[trigger] roles[i] is Root));
        }
        if roles[n - 1].is_esp() && single_esp(roles) {
            assert(forall|i: int| 0 <= i < n - 1 ==> !(#[trigger] roles[i]).is_esp());
        }
    }
}

proof fn lemma_root_found(roles: Seq<RowRole>, i: int)
    requires
        0 <= i <= roles.len(),
    ensures
        root_from(roles, i) is Some <==> exists|k: int|
            i <= k < roles.len() && #[trigger] roles[k] is Root,
        esp_row_from(roles, i) is Some <==> exists|k: int|
            i <= k < roles.len() && (#[trigger] roles[k]).is_esp(),
    decreases roles.len() - i,
{
    if i < roles.len() {
        lemma_root_found(roles, i + 1);
    }
}

proof fn lemma_no_undersize(actions: Seq<PartitionAction>, i: int)
    requires
        0 <= i <= actions.len(),
        forall|k: int| 0 <= k < actions.len() ==> (#[trigger] actions[k]).undersize() is None,
    ensures
        first_undersize(actions, i) is None,
    decreases actions.len() - i,
{
    if i < actions.len() {
        lemma_no_undersize(actions, i + 1);
    }
}

/// A layout that passes its checks makes a plan of the shape that the
/// engine asks for: exactly one root, no root below the floor and, unless
/// two rows are the ESP, exactly one ESP. (A disk with two EFI partitions
/// starts with both kept.)
pub proof fn law_checked_layouts_have_one_root_and_esp(s: LayoutUiState)
    requires
        s.wf(),
        layout_error(s) is None,
        single_root(s.roles@, s.gap_idx),
    ensures
        count_roots(planned_actions(s)) == 1,
        single_esp(s.roles@) ==> count_esps(planned_actions(s)) == 1,
        first_undersize(planned_actions(s), 0) is None,
{
    let disk = s.disk->0;
    let roles = s.roles@;
    let parts = disk.partitions@;
    let n = roles.len() as int;
    let rows = row_actions(roles, parts, n);
    let all = planned_actions(s);
    lemma_row_counts(roles, parts, n);
    lemma_root_found(roles, 0);
    if let Some(gi) = s.gap_idx {
        let gap = disk.gaps@[gi as int];
        let extra = gap_actions(s, disk);
        let esp_auto = esp_row_from(roles, 0) is None;
        let size = requested(s.root_size_gib@, gap.size_bytes as int, esp_auto);
        if extra.len() == 1 {
            assert(all.drop_last() =~= rows);
            assert(all.last() == extra[0]);
            assert(count_roots(all) == count_roots(rows) + 1);
            assert(count_esps(all) == count_esps(rows));
        } else {
            let mid = rows.push(extra[0]);
            assert(all.drop_last() =~= mid);
            assert(mid.drop_last() =~= rows);
            assert(all.last() == extra[1]);
            assert(count_roots(mid) == count_roots(rows));
            assert(count_esps(mid) == count_esps(rows) + 1);
            assert(count_roots(all) == count_roots(mid) + 1);
            assert(count_esps(all) == count_esps(mid));
        }
        assert(0 <= size <= gap.size_bytes);
        assert forall|k: int| 0 <= k < all.len() implies (#[trigger] all[k]).undersize() is None by {
            if k < rows.len() {
                assert(all[k] == rows[k]);
            } else {
                assert(all[k] == extra[k - rows.len()]);
            }
        }
    } else {
        assert(all =~= rows);
    }
    lemma_no_undersize(all, 0);
}

// ---------- view ----------

#[verifier::ext_equal]
pub struct LayoutView {
    pub disk: Option<crate::probe::DiskView>,
    pub roles: Seq<RowRole>,
    pub gap_idx: Option<usize>,
    pub root_size_gib: Seq<char>,
}

impl View for LayoutUiState {
    type V = LayoutView;

    open spec fn view(&self) -> LayoutView {
        LayoutView {
            disk: text::opt_view(self.disk),
            roles: self.roles@,
            gap_idx: self.gap_idx,
            root_size_gib: self.root_size_gib@,
        }
    }
}

pub open spec fn empty_layout() -> LayoutView {
    LayoutView {
        disk: None,
        roles: Seq::empty(),
        gap_idx: None,
        root_size_gib: Seq::empty(),
    }
}

/// The state that a disk starts with.
pub open spec fn reset_layout(d: DiskInfo) -> LayoutView {
    LayoutView {
        disk: Some(d@),
        roles: d.partitions@.map_values(
            |p: PartitionInfo|
                if p@.part_type == Some(crate::partition::esp_guid()) {
                    RowRole::EspKeep
                } else {
                    RowRole::Leave
                },
        ),
        gap_idx: if exists|i: int|
            0 <= i < d.gaps@.len() && (#[trigger] d.gaps@[i]).size_bytes >= ROOT_MIN_BYTES {
            Some((choose|i: int| is_last_largest(d.gaps@, i)) as usize)
        } else {
            None
        },
        root_size_gib: Seq::empty(),
    }
}

/// The state after an interaction.
pub open spec fn layout_after(v: LayoutView, msg: LayoutMsg) -> LayoutView {
    match msg {
        LayoutMsg::RoleSelected(row, place) => {
            let role = RowRole::at(place as int);
            LayoutView {
                roles: roles_after(v.roles, row as int, role),
                gap_idx: if role is Root {
                    None
                } else {
                    v.gap_idx
                },
                ..v
            }
        },
        LayoutMsg::GapSelected(idx) => LayoutView {
            roles: if idx is Some {
                without_root(v.roles)
            } else {
                v.roles
            },
            gap_idx: idx,
            ..v
        },
        LayoutMsg::RootSizeChanged(s) => LayoutView {
            root_size_gib: if is_size_text(s@) {
                s@
            } else {
                v.root_size_gib
            },
            ..v
        },
    }
}

/// What [`LayoutUiState::reset_for`] says, as one view.
pub proof fn lemma_reset(s: LayoutUiState, d: DiskInfo)
    requires
        text::opt_view(s.disk) == Some(d@),
        s.roles@.len() == d.partitions@.len(),
        forall|i: int|
            0 <= i < d.partitions@.len() ==> #[trigger] s.roles@[i] == (if (
            d.partitions@[i])@.part_type == Some(crate::partition::esp_guid()) {
                RowRole::EspKeep
            } else {
                RowRole::Leave
            }),
        match s.gap_idx {
            Some(i) => is_last_largest(d.gaps@, i as int) && d.gaps@[i as int].size_bytes
                >= ROOT_MIN_BYTES,
            None => forall|i: int|
                0 <= i < d.gaps@.len() ==> (#[trigger] d.gaps@[i]).size_bytes < ROOT_MIN_BYTES,
        },
        s.root_size_gib@.len() == 0,
    ensures
        s@ == reset_layout(d),
{
    if let Some(i) = s.gap_idx {
        let j = choose|j: int| is_last_largest(d.gaps@, j);
        assert(is_last_largest(d.gaps@, i as int));
        crate::probe::lemma_last_largest_unique(d.gaps@, i as int, j);
    }
    assert(s@ =~= reset_layout(d));
}

// ---------- runs ----------

/// The state after a run of interactions.
pub open spec fn layout_run(v: LayoutView, msgs: Seq<LayoutMsg>) -> LayoutView
    decreases msgs.len(),
{
    if msgs.len() == 0 {
        v
    } else {
        layout_after(layout_run(v, msgs.drop_last()), msgs.last())
    }
}

/// No run of interactions ever gives a layout two roots, or a second ESP.
pub proof fn law_runs_stay_single(v: LayoutView, msgs: Seq<LayoutMsg>)
    requires
        single_root(v.roles, v.gap_idx),
    ensures
        single_root(layout_run(v, msgs).roles, layout_run(v, msgs).gap_idx),
        single_esp(v.roles) ==> single_esp(layout_run(v, msgs).roles),
    decreases msgs.len(),
{
    if msgs.len() > 0 {
        let before = layout_run(v, msgs.drop_last());
        law_runs_stay_single(v, msgs.drop_last());
        match msgs.last() {
            LayoutMsg::RoleSelected(row, place) => {
                let role = RowRole::at(place as int);
                law_single_root_is_kept(
                    before.roles,
                    before.gap_idx,
                    row as int,
                    role,
                    before.gap_idx,
                );
                if single_esp(v.roles) {
                    lemma_single_esp_is_kept(before.roles, row as int, role);
                }
            },
            LayoutMsg::GapSelected(idx) => {
                law_single_root_is_kept(before.roles, before.gap_idx, 0, RowRole::Leave, idx);
                if single_esp(v.roles) {
                    let after = without_root(before.roles);
                    assert forall|i: int, j: int| 0 <= i < j < after.len() implies !((
                    #[trigger] after[i]).is_esp() && (#[trigger] after[j]).is_esp()) by {
                        assert(after[i].is_esp() == before.roles[i].is_esp());
                        assert(after[j].is_esp() == before.roles[j].is_esp());
                    }
                }
            },
            LayoutMsg::RootSizeChanged(_) => {},
        }
    }
}

proof fn lemma_single_esp_is_kept(roles: Seq<RowRole>, row: int, role: RowRole)
    requires
        single_esp(roles),
    ensures
        single_esp(roles_after(roles, row, role)),
{
    let after = roles_after(roles, row, role);
    assert forall|i: int, j: int| 0 <= i < j < after.len() implies !((
    #[trigger] after[i]).is_esp() && (#[trigger] after[j]).is_esp()) by {
        if i != row {
            assert(after[i].is_esp() ==> roles[i].is_esp() && !role.is_esp());
        }
        if j != row {
            assert(after[j].is_esp() ==> roles[j].is_esp() && !role.is_esp());
        }
    }
}

/// At most one partition is an ESP.
pub open spec fn one_efi(parts: Seq<PartitionInfo>) -> bool {
    forall|i: int, j: int|
        0 <= i < j < parts.len() ==> !((#[trigger] parts[i])@.part_type == Some(esp_guid()) && (
        #[trigger] parts[j])@.part_type == Some(esp_guid()))
}

/// A disk starts without a root row, and with at most one ESP row where at
/// most one of its partitions is an ESP.
pub proof fn law_resets_are_single(d: DiskInfo)
    ensures
        single_root(reset_layout(d).roles, reset_layout(d).gap_idx),
        one_efi(d.partitions@) ==> single_esp(reset_layout(d).roles),
{
    let roles = reset_layout(d).roles;
    let parts = d.partitions@;
    if one_efi(parts) {
        assert forall|i: int, j: int| 0 <= i < j < roles.len() implies !((
        #[trigger] roles[i]).is_esp() && (#[trigger] roles[j]).is_esp()) by {
            assert(roles[i].is_esp() == (parts[i]@.part_type == Some(esp_guid())));
            assert(roles[j].is_esp() == (parts[j]@.part_type == Some(esp_guid())));
        }
    }
}

/// Start and size of the partition that an action creates.
pub open spec fn created_range(a: PartitionAction) -> Option<(int, int)> {
    match a {
        PartitionAction::CreateEsp { start_bytes } => Some((start_bytes as int, ESP_BYTES as int)),
        PartitionAction::CreateRoot { start_bytes, size_bytes: Some(size) } => Some(
            (start_bytes as int, size as int),
        ),
        _ => None,
    }
}

/// The paths of the first `n` rows that have a role, each once and in order.
pub open spec fn named_paths(
    roles: Seq<RowRole>,
    parts: Seq<PartitionInfo>,
    n: int,
) -> Seq<Seq<char>>
    decreases n,
{
    if n <= 0 {
        Seq::empty()
    } else if roles[n - 1] is Leave {
        named_paths(roles, parts, n - 1)
    } else {
        named_paths(roles, parts, n - 1).push(parts[n - 1].path@)
    }
}

proof fn lemma_row_targets(roles: Seq<RowRole>, parts: Seq<PartitionInfo>, n: int)
    ensures
        targets(row_actions(roles, parts, n)) == named_paths(roles, parts, n),
        forall|k: int|
            0 <= k < row_actions(roles, parts, n).len() ==> created_range(
                #[trigger] row_actions(roles, parts, n)[k],
            ) is None,
    decreases n,
{
    if n > 0 {
        lemma_row_targets(roles, parts, n - 1);
        let front = row_actions(roles, parts, n - 1);
        if let Some(a) = row_action(roles[n - 1], parts[n - 1].path) {
            assert(front.push(a).drop_last() =~= front);
        }
    }
}

/// The plan names each row that has a role once, in the order of the rows,
/// and no other partition.
pub open spec fn names_rows_once(s: LayoutUiState) -> bool {
    targets(planned_actions(s)) == named_paths(
        s.roles@,
        s.disk->0.partitions@,
        s.roles@.len() as int,
    )
}

/// The range lies in the gap that was chosen for the new root.
pub open spec fn in_chosen_gap(s: LayoutUiState, r: (int, int)) -> bool {
    let gaps = s.disk->0.gaps@;
    &&& s.gap_idx is Some && s.gap_idx->0 < gaps.len()
    &&& gaps[s.gap_idx->0 as int].start_bytes <= r.0
    &&& r.0 + r.1 <= gaps[s.gap_idx->0 as int].start_bytes + gaps[s.gap_idx->0 as int].size_bytes
}

/// What the plan creates lies in the chosen gap, one behind the other.
pub open spec fn creates_in_gap(s: LayoutUiState) -> bool {
    let actions = planned_actions(s);
    &&& forall|k: int|
        0 <= k < actions.len() ==> (created_range(#[trigger] actions[k]) matches Some(r)
            ==> in_chosen_gap(s, r))
    &&& forall|k: int, l: int|
        0 <= k < l < actions.len() ==> (created_range(#[trigger] actions[k]) matches Some(a) ==> (
        created_range(#[trigger] actions[l]) matches Some(b) ==> a.0 + a.1 <= b.0))
}

/// A layout that passes its checks names each row that has a role exactly
/// once, and what it creates lies in the chosen gap, one behind the other.
pub proof fn law_checked_layouts_keep_apart(s: LayoutUiState)
    requires
        s.wf(),
        layout_error(s) is None,
    ensures
        names_rows_once(s),
        creates_in_gap(s),
{
    let disk = s.disk->0;
    let n = s.roles@.len() as int;
    let rows = row_actions(s.roles@, disk.partitions@, n);
    let extra = gap_actions(s, disk);
    let all = planned_actions(s);
    lemma_row_targets(s.roles@, disk.partitions@, n);
    if let Some(gi) = s.gap_idx {
        let gap = disk.gaps@[gi as int];
        assert(gap.start_bytes + gap.size_bytes <= u64::MAX);
        if extra.len() == 1 {
            assert(all.drop_last() =~= rows);
            assert(all.last() == extra[0]);
        } else {
            let mid = rows.push(extra[0]);
            assert(all.drop_last() =~= mid);
            assert(mid.drop_last() =~= rows);
            assert(all.last() == extra[1]);
            assert(targets(mid) == targets(rows));
        }
        assert forall|k: int| rows.len() <= k < all.len() implies #[trigger] all[k] == extra[k
            - rows.len()] by {}
    } else {
        assert(all =~= rows);
    }
    assert forall|k: int| 0 <= k < rows.len() implies created_range(#[trigger] all[k]) is None by {
        assert(all[k] == rows[k]);
    }
}

/// The partitions have paths of their own, under the path of the disk.
pub open spec fn paths_tell_apart(d: DiskInfo) -> bool {
    &&& forall|i: int, j: int|
        0 <= i < j < d.partitions@.len() ==> !same_path(
            (#[trigger] d.partitions@[i]).path@,
            (#[trigger] d.partitions@[j]).path@,
        )
    &&& forall|i: int|
        0 <= i < d.partitions@.len() ==> has_prefix((#[trigger] d.partitions@[i]).path@, d.path@)
}

proof fn lemma_named_row(roles: Seq<RowRole>, parts: Seq<PartitionInfo>, n: int, k: int) -> (i: int)
    requires
        0 <= k < named_paths(roles, parts, n).len(),
    ensures
        0 <= i < n,
        named_paths(roles, parts, n)[k] == parts[i].path@,
    decreases n,
{
    let front = named_paths(roles, parts, n - 1);
    if k < front.len() {
        lemma_named_row(roles, parts, n - 1, k)
    } else {
        n - 1
    }
}

proof fn lemma_named_apart(roles: Seq<RowRole>, d: DiskInfo, n: int, j: int, k: int)
    requires
        paths_tell_apart(d),
        n <= d.partitions@.len(),
        0 <= j < k < named_paths(roles, d.partitions@, n).len(),
    ensures
        !same_path(
            named_paths(roles, d.partitions@, n)[j],
            named_paths(roles, d.partitions@, n)[k],
        ),
    decreases n,
{
    let parts = d.partitions@;
    let front = named_paths(roles, parts, n - 1);
    if k < front.len() {
        lemma_named_apart(roles, d, n - 1, j, k);
    } else {
        let i = lemma_named_row(roles, parts, n - 1, j);
        assert(!same_path(parts[i].path@, parts[n - 1].path@));
    }
}

proof fn lemma_no_reference_error(roles: Seq<RowRole>, d: DiskInfo, n: int, k: int)
    requires
        paths_tell_apart(d),
        n <= d.partitions@.len(),
        0 <= k <= named_paths(roles, d.partitions@, n).len(),
    ensures
        reference_error(named_paths(roles, d.partitions@, n), d.path@, k) is None,
    decreases named_paths(roles, d.partitions@, n).len() - k,
{
    let named = named_paths(roles, d.partitions@, n);
    if k < named.len() {
        lemma_no_reference_error(roles, d, n, k + 1);
        let i = lemma_named_row(roles, d.partitions@, n, k);
        assert(has_prefix(d.partitions@[i].path@, d.path@));
        if is_repeat(named, k) {
            let j = choose|j: int| 0 <= j < k && same_path(#[trigger] named[j], named[k]);
            lemma_named_apart(roles, d, n, j, k);
        }
    }
}

/// Whatever a user does to the layout that a disk starts with: once it
/// passes its checks, there is exactly one root, each row that has a role is
/// named once, and what is created lies in the chosen gap, one behind the
/// other. There is exactly one ESP unless two rows are one, which takes a
/// disk with two EFI partitions. The engine takes such a plan, given that
/// the partitions have paths of their own on the disk.
pub proof fn law_runs_make_valid_plans(d: DiskInfo, msgs: Seq<LayoutMsg>, s: LayoutUiState)
    requires
        s@ == layout_run(reset_layout(d), msgs),
        s.wf(),
        layout_error(s) is None,
    ensures
        single_root(s.roles@, s.gap_idx),
        count_roots(planned_actions(s)) == 1,
        names_rows_once(s),
        creates_in_gap(s),
        one_efi(d.partitions@) ==> single_esp(s.roles@),
        single_esp(s.roles@) ==> count_esps(planned_actions(s)) == 1,
        single_esp(s.roles@) && paths_tell_apart(s.disk->0) ==> actions_error(
            planned_actions(s),
            s.disk->0.path@,
        ) is None,
{
    law_resets_are_single(d);
    law_runs_stay_single(reset_layout(d), msgs);
    assert(s@.roles == s.roles@ && s@.gap_idx == s.gap_idx);
    law_checked_layouts_have_one_root_and_esp(s);
    law_checked_layouts_keep_apart(s);
    if paths_tell_apart(s.disk->0) {
        lemma_no_reference_error(s.roles@, s.disk->0, s.roles@.len() as int, 0);
    }
}

// ---------- what the preview adds up to ----------

proof fn lemma_gap_segments(s: LayoutUiState, gap: Gap, gi: int)
    requires
        s.gap_idx == Some(gi as usize) && esp_row_from(s.roles@, 0) is None ==> gap.size_bytes
            >= ESP_BYTES,
    ensures
        placed_total(gap_segments(s, gap, gi)) == gap.size_bytes,
{
    reveal_with_fuel(placed_total, 4);
    let items = gap_segments(s, gap, gi);
    if items.len() == 3 {
        assert(items.drop_last().last() == items[1]);
        assert(items.drop_last().drop_last().last() == items[0]);
    } else if items.len() == 2 {
        assert(items.drop_last().last() == items[0]);
    }
}

proof fn lemma_all_gap_segments(s: LayoutUiState, gaps: Seq<Gap>, n: int)
    requires
        0 <= n <= gaps.len(),
        forall|k: int|
            #![trigger gaps[k]]
            0 <= k < n ==> (s.gap_idx == Some(k as usize) && esp_row_from(s.roles@, 0) is None
                ==> gaps[k].size_bytes >= ESP_BYTES),
    ensures
        placed_total(all_gap_segments(s, gaps, n)) == gaps_total(views(gaps).take(n)),
    decreases n,
{
    if n > 0 {
        lemma_all_gap_segments(s, gaps, n - 1);
        lemma_gap_segments(s, gaps[n - 1], n - 1);
        lemma_total_add(all_gap_segments(s, gaps, n - 1), gap_segments(s, gaps[n - 1], n - 1));
        let shown = views(gaps).take(n);
        assert(shown.drop_last() =~= views(gaps).take(n - 1));
        assert(shown.last() == gaps[n - 1]@);
    }
}

/// The preview of a layout adds up to the partitions and gaps of the disk:
/// nothing is lost, and nothing is counted twice.
pub proof fn law_planned_segments_add_up(s: LayoutUiState)
    requires
        s.wf(),
        s.gap_holds_esp(),
        s.disk is Some,
    ensures
        covered(arranged(planned_items(s))) == known_total(s.disk->0@),
{
    let disk = s.disk->0;
    let rows = row_segments(s.roles@, disk.partitions@);
    let gaps = all_gap_segments(s, disk.gaps@, disk.gaps@.len() as int);
    law_arranging_keeps_the_total(planned_items(s));
    lemma_total_add(rows, gaps);
    assert forall|i: int| 0 <= i < rows.len() implies (#[trigger] rows[i]).1.size
        == disk@.partitions[i].size by {
        assert(disk@.partitions[i] == disk.partitions@[i]@);
    }
    lemma_total_of_partitions(rows, disk@.partitions);
    assert(disk.gaps@.len() == disk.gaps.len());
    lemma_all_gap_segments(s, disk.gaps@, disk.gaps@.len() as int);
    assert(views(disk.gaps@).take(disk.gaps@.len() as int) =~= disk@.gaps);
}

// ---------- what a layout comes to ----------

/// The action is what the role asks for on this partition.
pub open spec fn carries_out(a: PartitionAction, role: RowRole, device: String) -> bool {
    match role {
        RowRole::Leave => false,
        RowRole::Root => a == (PartitionAction::UseAsRoot { device }),
        RowRole::EspKeep => a == (PartitionAction::UseAsEsp { device, format: false }),
        RowRole::EspFormat => a == (PartitionAction::UseAsEsp { device, format: true }),
        RowRole::Delete => a == (PartitionAction::Delete { device }),
    }
}

proof fn lemma_row_carried_out(
    roles: Seq<RowRole>,
    parts: Seq<PartitionInfo>,
    n: int,
    i: int,
) -> (k: int)
    requires
        0 <= i < n <= roles.len(),
        roles.len() == parts.len(),
        !(roles[i] is Leave),
    ensures
        0 <= k < row_actions(roles, parts, n).len(),
        carries_out(row_actions(roles, parts, n)[k], roles[i], parts[i].path),
    decreases n,
{
    if i < n - 1 {
        lemma_row_carried_out(roles, parts, n - 1, i)
    } else {
        row_actions(roles, parts, n - 1).len() as int
    }
}

proof fn lemma_row_of_action(
    roles: Seq<RowRole>,
    parts: Seq<PartitionInfo>,
    n: int,
    k: int,
) -> (i: int)
    requires
        0 <= n <= roles.len(),
        roles.len() == parts.len(),
        0 <= k < row_actions(roles, parts, n).len(),
    ensures
        0 <= i < n,
        carries_out(row_actions(roles, parts, n)[k], roles[i], parts[i].path),
    decreases n,
{
    if k < row_actions(roles, parts, n - 1).len() {
        lemma_row_of_action(roles, parts, n - 1, k)
    } else {
        n - 1
    }
}

/// Every partition with a role gets the action for it.
pub proof fn law_roles_are_carried_out(s: LayoutUiState, i: int)
    requires
        s.wf(),
        0 <= i < s.roles@.len(),
        !(s.roles@[i] is Leave),
    ensures
        exists|k: int|
            0 <= k < planned_actions(s).len() && carries_out(
                #[trigger] planned_actions(s)[k],
                s.roles@[i],
                s.disk->0.partitions@[i].path,
            ),
{
    let parts = s.disk->0.partitions@;
    let n = s.roles@.len() as int;
    let k = lemma_row_carried_out(s.roles@, parts, n, i);
    assert(planned_actions(s)[k] == row_actions(s.roles@, parts, n)[k]);
}

/// No other partition is touched: an action that names a partition comes from
/// a row that has the role for it.
pub proof fn law_only_rows_with_roles_are_touched(s: LayoutUiState, k: int)
    requires
        s.wf(),
        0 <= k < planned_actions(s).len(),
        crate::install::device_of(planned_actions(s)[k]) is Some,
    ensures
        exists|i: int|
            0 <= i < s.roles@.len() && carries_out(
                planned_actions(s)[k],
                #[trigger] s.roles@[i],
                s.disk->0.partitions@[i].path,
            ),
{
    let disk = s.disk->0;
    let parts = disk.partitions@;
    let n = s.roles@.len() as int;
    let rows = row_actions(s.roles@, parts, n);
    if k < rows.len() {
        let i = lemma_row_of_action(s.roles@, parts, n, k);
        assert(planned_actions(s)[k] == rows[k]);
        assert(carries_out(rows[k], s.roles@[i], parts[i].path));
    } else {
        assert(planned_actions(s)[k] == gap_actions(s, disk)[k - rows.len()]);
    }
}

/// The root size that is asked for in a gap: the number of GiB that was typed,
/// if it fits behind the new ESP, where one is made, and all that is left
/// there if nothing was typed or it is too much.
pub proof fn law_typed_sizes_are_used(gib: nat, gap_size: int, esp_carved: bool)
    requires
        gap_size >= 536870912,
        gib <= u64::MAX,
    ensures
        ({
            let left = gap_size - (if esp_carved {
                536870912int
            } else {
                0
            });
            &&& 0 < gib * 1073741824 <= left ==> requested(decimal(gib), gap_size, esp_carved)
                == gib * 1073741824
            &&& gib * 1073741824 > left ==> requested(decimal(gib), gap_size, esp_carved) == left
            &&& requested(Seq::empty(), gap_size, esp_carved) == left
        }),
{
    text::law_decimals_read_back(gib, u64::MAX as nat);
}

/// A gap that is chosen for the root gets it: behind a new ESP at its start
/// when no partition is the ESP, and at its start otherwise. Both lie inside
/// the gap and do not overlap.
pub proof fn law_the_gap_gets_the_root(s: LayoutUiState)
    requires
        s.wf(),
        s.gap_holds_esp(),
        s.disk is Some,
        s.gap_idx is Some,
        s.gap_idx->0 < s.disk->0.gaps@.len(),
    ensures
        ({
            let gap = s.disk->0.gaps@[s.gap_idx->0 as int];
            let all = planned_actions(s);
            let has_esp = exists|i: int|
                0 <= i < s.roles@.len() && (#[trigger] s.roles@[i] is EspKeep
                    || s.roles@[i] is EspFormat);
            let start = gap.start_bytes + (if has_esp {
                0int
            } else {
                536870912
            });
            let size = requested(s.root_size_gib@, gap.size_bytes as int, !has_esp);
            &&& all.len() > 0 && all.last() is CreateRoot
            &&& all.last()->CreateRoot_start_bytes == start
            &&& all.last()->CreateRoot_size_bytes == Some(size as u64)
            &&& 0 <= size && start + size <= gap.start_bytes + gap.size_bytes
            &&& !has_esp ==> all.len() > 1 && all[all.len() - 2] == (PartitionAction::CreateEsp {
                start_bytes: gap.start_bytes,
            })
        }),
{
    let disk = s.disk->0;
    lemma_esp_row(s.roles@, 0);
    let extra = gap_actions(s, disk);
    let rows = row_actions(s.roles@, disk.partitions@, s.roles@.len() as int);
    let all = planned_actions(s);
    assert(all == rows + extra);
    assert(all.last() == extra.last());
    if extra.len() == 2 {
        assert(all[all.len() - 2] == extra[0]);
    }
    assert(disk.wf());
    assert(gaps_end(disk.gaps@, s.gap_idx->0 as int));
}

/// The gap ends at a 64 bit byte position.
spec fn gaps_end(gaps: Seq<Gap>, i: int) -> bool {
    gaps[i].start_bytes + gaps[i].size_bytes <= u64::MAX
}

proof fn lemma_esp_row(roles: Seq<RowRole>, from: int)
    requires
        0 <= from <= roles.len(),
    ensures
        esp_row_from(roles, from) is None <==> forall|i: int|
            from <= i < roles.len() ==> !(#[trigger] roles[i] is EspKeep || roles[i] is EspFormat),
        esp_row_from(roles, from) matches Some(i) ==> from <= i < roles.len() && (
        roles[i] is EspKeep || roles[i] is EspFormat),
    decreases roles.len() - from,
{
    if from < roles.len() {
        lemma_esp_row(roles, from + 1);
    }
}

proof fn lemma_root_row(roles: Seq<RowRole>, from: int)
    requires
        0 <= from <= roles.len(),
    ensures
        root_from(roles, from) is None <==> forall|i: int|
            from <= i < roles.len() ==> !(#[trigger] roles[i] is Root),
        root_from(roles, from) matches Some(i) ==> from <= i < roles.len() && roles[i] is Root,
    decreases roles.len() - from,
{
    if from < roles.len() {
        lemma_root_row(roles, from + 1);
    }
}

proof fn lemma_mounted(roles: Seq<RowRole>, parts: Seq<PartitionInfo>, from: int)
    requires
        0 <= from <= roles.len(),
    ensures
        mounted_error(roles, parts, from) is None <==> forall|i: int|
            from <= i < roles.len() ==> #[trigger] roles[i] is Leave || !parts[i].mounted,
    decreases roles.len() - from,
{
    if from < roles.len() {
        lemma_mounted(roles, parts, from + 1);
    }
}

/// A layout is accepted exactly when it can be installed: there is one root,
/// a partition of at least 8 GiB or a gap with room for it and for the ESP
/// where no partition is one; without a gap some partition is the ESP; and
/// no partition that has a role is mounted.
pub proof fn law_layouts_are_accepted_when_installable(s: LayoutUiState)
    requires
        s.wf(),
        single_root(s.roles@, s.gap_idx),
    ensures
        layout_error(s) is None <==> {
            let roles = s.roles@;
            let parts = s.disk->0.partitions@;
            let gaps = s.disk->0.gaps@;
            let has_esp = exists|i: int|
                0 <= i < roles.len() && (#[trigger] roles[i] is EspKeep || roles[i] is EspFormat);
            &&& s.disk is Some
            &&& forall|i: int|
                0 <= i < roles.len() ==> #[trigger] roles[i] is Leave || !parts[i].mounted
            &&& match s.gap_idx {
                None => has_esp && exists|i: int|
                    0 <= i < roles.len() && #[trigger] roles[i] is Root && parts[i].size_bytes
                        >= 8589934592,
                Some(gi) => {
                    &&& gi < gaps.len()
                    &&& gaps[gi as int].size_bytes >= 8589934592 + (if has_esp {
                        0int
                    } else {
                        536870912
                    })
                    &&& requested(s.root_size_gib@, gaps[gi as int].size_bytes as int, !has_esp)
                        >= 8589934592
                },
            }
        },
{
    lemma_esp_row(s.roles@, 0);
    lemma_root_row(s.roles@, 0);
    if s.disk is Some {
        lemma_mounted(s.roles@, s.disk->0.partitions@, 0);
        if root_from(s.roles@, 0) is Some {
            let r = root_from(s.roles@, 0)->0;
            assert(s.roles@[r] is Root);
        }
    }
}

/// Picking a role gives it to that partition and takes it only from the one
/// that had it; all other partitions keep theirs. Picking a root drops the
/// gap, picking a gap drops the root.
pub proof fn law_picks_change_only_what_they_must(v: LayoutView, row: usize, place: usize, i: int)
    requires
        0 <= row < v.roles.len(),
        0 <= i < v.roles.len(),
    ensures
        ({
            let after = layout_after(v, LayoutMsg::RoleSelected(row, place));
            let picked = after.roles[row as int];
            &&& after.roles.len() == v.roles.len()
            &&& after.disk == v.disk && after.root_size_gib == v.root_size_gib
            &&& place == 0 ==> picked is Leave
            &&& place == 1 ==> picked is Root
            &&& place == 2 ==> picked is EspKeep
            &&& place == 3 ==> picked is EspFormat
            &&& place == 4 ==> picked is Delete
            &&& place == 1 ==> after.gap_idx is None
            &&& place != 1 ==> after.gap_idx == v.gap_idx
            &&& i != row && v.roles[i] is Root ==> after.roles[i] == (if place == 1 {
                RowRole::Leave
            } else {
                RowRole::Root
            })
            &&& i != row && (v.roles[i] is EspKeep || v.roles[i] is EspFormat) ==> after.roles[i]
                == (if place == 2 || place == 3 {
                RowRole::Leave
            } else {
                v.roles[i]
            })
            &&& i != row && (v.roles[i] is Delete || v.roles[i] is Leave) ==> after.roles[i]
                == v.roles[i]
        }),
{
}

/// Picking a gap drops the role of root from the partitions and changes no
/// other; picking none changes no role. The size field takes up to six
/// digits and nothing else.
pub proof fn law_gap_and_size_are_taken(v: LayoutView, idx: Option<usize>, size: String, i: int)
    ensures
        ({
            let after = layout_after(v, LayoutMsg::GapSelected(idx));
            &&& after.gap_idx == idx && after.disk == v.disk
            &&& after.root_size_gib == v.root_size_gib && after.roles.len() == v.roles.len()
            &&& 0 <= i < v.roles.len() ==> after.roles[i] == (if idx is Some
                && v.roles[i] is Root {
                RowRole::Leave
            } else {
                v.roles[i]
            })
        }),
        ({
            let after = layout_after(v, LayoutMsg::RootSizeChanged(size));
            let fits = size@.len() <= 6 && forall|k: int|
                0 <= k < size@.len() ==> '0' as u32 <= (#[trigger] size@[k]) as u32 <= '9' as u32;
            &&& after.roles == v.roles && after.gap_idx == v.gap_idx && after.disk == v.disk
            &&& after.root_size_gib == (if fits {
                size@
            } else {
                v.root_size_gib
            })
        }),
{
    let fits = size@.len() <= 6 && forall|k: int|
        0 <= k < size@.len() ==> '0' as u32 <= (#[trigger] size@[k]) as u32 <= '9' as u32;
    if is_size_text(size@) {
        assert forall|k: int| 0 <= k < size@.len() implies '0' as u32 <= (#[trigger] size@[k]) as u32
            <= '9' as u32 by {
            assert(text::is_digit(size@[k]));
        }
    }
    if fits {
        assert(all_digits(size@));
    }
}

/// A fresh layout takes what the disk offers: every EFI system partition is
/// kept as such, all others are left alone, and the root goes into the
/// largest gap, if one is large enough.
pub proof fn law_fresh_layouts_touch_nothing(d: DiskInfo, i: int)
    requires
        d.gaps@.len() <= usize::MAX,
    ensures
        reset_layout(d).roles.len() == d.partitions@.len(),
        0 <= i < d.partitions@.len() ==> reset_layout(d).roles[i] == (if crate::partition::is_efi(
            d.partitions@[i]@,
        ) {
            RowRole::EspKeep
        } else {
            RowRole::Leave
        }),
        reset_layout(d).root_size_gib.len() == 0,
        reset_layout(d).gap_idx is None <==> forall|k: int|
            0 <= k < d.gaps@.len() ==> (#[trigger] d.gaps@[k]).size_bytes < 8589934592,
        reset_layout(d).gap_idx matches Some(g) ==> g < d.gaps@.len() && forall|k: int|
            0 <= k < d.gaps@.len() ==> (#[trigger] d.gaps@[k]).size_bytes
                <= d.gaps@[g as int].size_bytes,
{
    if reset_layout(d).gap_idx is Some {
        let k = lemma_largest(d.gaps@);
        let m = choose|m: int| is_last_largest(d.gaps@, m);
        assert(is_last_largest(d.gaps@, m));
    }
}

/// Where there are gaps, one of them is the last of the largest.
pub proof fn lemma_largest(gaps: Seq<Gap>) -> (i: int)
    requires
        gaps.len() > 0,
    ensures
        is_last_largest(gaps, i),
    decreases gaps.len(),
{
    let n = gaps.len() - 1;
    if n == 0 {
        0
    } else {
        let front = gaps.drop_last();
        let i = lemma_largest(front);
        assert(forall|j: int| 0 <= j < n ==> #[trigger] gaps[j] == front[j]);
        if gaps[n].size_bytes >= gaps[i].size_bytes {
            n
        } else {
            i
        }
    }
}

/// The bar of a layout shows every partition where it is and as large as it
/// is, and a gap in full: what is made in it, and the rest of it as free.
pub proof fn law_bars_show_the_whole_gap(s: LayoutUiState, gap: Gap, gi: int, k: int)
    requires
        0 <= gi <= usize::MAX,
        gap.size_bytes >= 536870912,
    ensures
        ({
            let segs = gap_segments(s, gap, gi);
            &&& segs.len() > 0
            &&& segs[0].0 == gap.start_bytes
            &&& segs.last().0 + segs.last().1.size == gap.start_bytes + gap.size_bytes
            &&& 0 <= k < segs.len() - 1 ==> segs[k].0 + segs[k].1.size == segs[k + 1].0
            &&& 0 <= k < segs.len() ==> segs[k].1.size >= 0
        }),
{
}

/// The summary names what happens: the partition that becomes root, the ESP
/// and whether it is kept, and how many partitions are deleted.
pub proof fn law_summaries_name_the_partitions(s: LayoutUiState, i: int)
    requires
        s.wf(),
        s.disk is Some,
        single_root(s.roles@, s.gap_idx),
        single_esp(s.roles@),
        0 <= i < s.roles@.len(),
    ensures
        ({
            let parts = summary_parts(s);
            let path = s.disk->0.partitions@[i].path@;
            &&& s.roles@[i] is Root ==> parts.contains("root on "@ + path + " (formatted)"@)
            &&& s.roles@[i] is EspKeep ==> parts.contains("ESP on "@ + path + " (kept)"@)
            &&& s.roles@[i] is EspFormat ==> parts.contains("ESP on "@ + path + " (formatted)"@)
            &&& s.roles@[i] is Delete ==> exists|n: nat|
                n > 0 && parts.contains(#[trigger] decimal(n) + " partition(s) deleted"@)
        }),
{
    let roles = s.roles@;
    let parts = summary_parts(s);
    let path = s.disk->0.partitions@[i].path@;
    lemma_root_row(roles, 0);
    lemma_esp_row(roles, 0);
    if roles[i] is Root {
        assert(root_from(roles, 0) == Some(i)) by {
            let r = root_from(roles, 0)->0;
            assert(roles[r] is Root);
        }
        assert(parts[0] == "root on "@ + path + " (formatted)"@);
    }
    let deletes = count_deletes(roles);
    let tail = if deletes > 0 {
        1int
    } else {
        0
    };
    if roles[i].is_esp() {
        assert(esp_row_from(roles, 0) == Some(i)) by {
            let r = esp_row_from(roles, 0)->0;
            assert(roles[r].is_esp());
        }
        let line = "ESP on "@ + path + (if roles[i] is EspFormat {
            " (formatted)"@
        } else {
            " (kept)"@
        });
        assert(parts[parts.len() - tail - 1] == line);
    }
    if roles[i] is Delete {
        lemma_deletes_counted(roles, i);
        assert(parts.last() == decimal(deletes) + " partition(s) deleted"@);
        assert(parts[parts.len() - 1] == parts.last());
        assert(parts.contains(decimal(deletes) + " partition(s) deleted"@));
    }
}

proof fn lemma_deletes_counted(roles: Seq<RowRole>, i: int)
    requires
        0 <= i < roles.len(),
        roles[i] is Delete,
    ensures
        count_deletes(roles) > 0,
    decreases roles.len(),
{
    if i < roles.len() - 1 {
        lemma_deletes_counted(roles.drop_last(), i);
    }
}

/// The bar of a layout shows every partition at its place and as large as it
/// is, as what its role makes of it: a deleted one as free space.
pub proof fn law_bars_show_the_roles(role: RowRole, p: PartitionInfo)
    ensures
        ({
            let (start, seg) = row_segment(role, p);
            &&& start == p.start_bytes && seg.size == p.size_bytes
            &&& role is Leave ==> seg.role is Existing
            &&& role is Root ==> seg.role is Root
            &&& role is EspKeep || role is EspFormat ==> seg.role is Esp
            &&& role is Delete ==> seg.role is Free
        }),
{
}

} // verus!
