//! Realizing a [`PartitionPlan`] on the target disk.
//!
//! Three modes. Erasing wipes the disk and writes a three-partition GPT
//! layout: ESP 512 MiB, boot 1 GiB, root on the rest. Free space appends
//! an ESP if needed and the root inside one gap. A custom plan names
//! deletions, reuses and creations.
//!
//! The modes that keep something check the plan against a fresh probe
//! before touching anything, and find new partitions by their start. What
//! only a later probe can show, such as the space that deletions free, is
//! checked again when its turn comes.
use vstd::prelude::*;

use crate::command::{
    args2, args4, chained, fed, plain, push_command, settle, settle_command, Command, CommandView,
};
use crate::install::{PartitionAction, PartitionPlan, ESP_BYTES, ROOT_MIN_BYTES};
use crate::path::{self, same_path};
use crate::probe::{gaps_in_range, inside_a_gap, DiskInfo, DiskView, PartitionInfo, PartitionView};
use crate::text::{self, decimal, opt_view, views};

verus! {

/// GPT type GUID for "Linux x86_64 root".
pub open spec fn root_guid() -> Seq<char> {
    "4f68bce3-e8cd-4db1-96e7-fbcaf984b709"@
}

/// GPT type GUID for the EFI system partition.
pub open spec fn esp_guid() -> Seq<char> {
    "c12a7328-f81f-11d2-ba4b-00a0c93ec93b"@
}

/// The block devices that later steps operate on, plus what needs
/// formatting.
#[derive(Debug, PartialEq, Eq)]
pub struct PartitionSet {
    pub esp: String,
    /// False when an existing ESP keeps its contents.
    pub format_esp: bool,
    /// Separate boot partition, only in the erase layout.
    pub boot: Option<String>,
    pub root: String,
}

#[verifier::ext_equal]
pub struct PartitionSetView {
    pub esp: Seq<char>,
    pub format_esp: bool,
    pub boot: Option<Seq<char>>,
    pub root: Seq<char>,
}

impl View for PartitionSet {
    type V = PartitionSetView;

    open spec fn view(&self) -> PartitionSetView {
        PartitionSetView {
            esp: self.esp@,
            format_esp: self.format_esp,
            boot: opt_view(self.boot),
            root: self.root@,
        }
    }
}

impl Clone for PartitionSet {
    fn clone(&self) -> (r: Self)
        ensures
            r == *self,
    {
        PartitionSet {
            esp: self.esp.clone(),
            format_esp: self.format_esp,
            boot: text::clone_opt(&self.boot),
            root: self.root.clone(),
        }
    }
}

/// What a partition run reports to callers that drive it on its own.
#[derive(Debug, PartialEq, Eq)]
pub struct PartitionSetInfo {
    pub esp: String,
    pub format_esp: bool,
    pub boot: Option<String>,
    pub root: String,
}

impl PartitionSetInfo {
    /// The report on a finished partition run.
    pub fn from_set(set: PartitionSet) -> (r: PartitionSetInfo)
        ensures
            r.esp == set.esp,
            r.format_esp == set.format_esp,
            r.boot == set.boot,
            r.root == set.root,
    {
        PartitionSetInfo {
            esp: set.esp,
            format_esp: set.format_esp,
            boot: set.boot,
            root: set.root,
        }
    }
}

// ---------- device names ----------

pub open spec fn node_name(disk: Seq<char>, num: nat) -> Seq<char> {
    disk + (if disk.len() > 0 && text::is_digit(disk.last()) {
        "p"@
    } else {
        ""@
    }) + decimal(num)
}

/// Names like `/dev/sda1`, `/dev/nvme0n1p1`, `/dev/vdb1`. Only trustworthy
/// on a table that was just created from scratch; everywhere else devices
/// are found by their start.
pub fn part_path(disk: &str, num: u32) -> (r: String)
    ensures
        r@ == node_name(disk@, num as nat),
{
    let chars = text::chars_of(disk);
    let n = text::decimal_string(num as u64);
    if chars.len() > 0 && text::digit(chars[chars.len() - 1]) {
        text::cat3(disk, "p", n.as_str())
    } else {
        text::cat3(disk, "", n.as_str())
    }
}

// ---------- erasing ----------

pub open spec fn erase_script() -> Seq<char> {
    "label: gpt\nsize=512MiB, type=uefi, name=ESP\nsize=1GiB,   type=linux, name=boot\ntype=linux, name=root\n"@
}

pub open spec fn erase_plan(disk: Seq<char>) -> Seq<CommandView> {
    seq![
        plain("wipefs"@, seq!["--all"@, disk], "wipefs"@),
        fed("sfdisk"@, seq!["--wipe"@, "always"@, disk], erase_script(), "sfdisk"@),
        plain(
            "sfdisk"@,
            seq!["--part-type"@, disk, "3"@, root_guid()],
            "sfdisk --part-type root"@,
        ),
        settle_command(),
    ]
}

pub open spec fn erase_result(disk: Seq<char>) -> PartitionSetView {
    PartitionSetView {
        esp: node_name(disk, 1),
        format_esp: true,
        boot: Some(node_name(disk, 2)),
        root: node_name(disk, 3),
    }
}

/// The commands that erase the disk and write the full layout, and what
/// comes of them.
pub fn erase_disk(disk: &str) -> (r: (Vec<Command>, PartitionSet))
    ensures
        views(r.0@) == erase_plan(disk@),
        r.1@ == erase_result(disk@),
{
    let mut list: Vec<Command> = Vec::new();
    assert(views(list@) =~= Seq::empty());
    push_command(&mut list, Command::new("wipefs", args2("--all", disk), "wipefs"));
    push_command(
        &mut list,
        Command::with_stdin(
            "sfdisk",
            crate::command::args3("--wipe", "always", disk),
            "label: gpt\nsize=512MiB, type=uefi, name=ESP\nsize=1GiB,   type=linux, name=boot\ntype=linux, name=root\n",
            "sfdisk",
        ),
    );
    push_command(
        &mut list,
        Command::new(
            "sfdisk",
            args4("--part-type", disk, "3", "4f68bce3-e8cd-4db1-96e7-fbcaf984b709"),
            "sfdisk --part-type root",
        ),
    );
    push_command(&mut list, settle());
    assert(views(list@) =~= erase_plan(disk@));
    (
        list,
        PartitionSet {
            esp: part_path(disk, 1),
            format_esp: true,
            boot: Some(part_path(disk, 2)),
            root: part_path(disk, 3),
        },
    )
}

// ---------- looking things up ----------

/// How an optional table label looks in debug output.
pub uninterp spec fn table_debug(table: Option<Seq<char>>) -> Seq<char>;

/// `{:?}` of an `Option<String>`. The result depends on the value alone, so
/// it has a name.
#[verifier::external_body]
fn debug_table(table: &Option<String>) -> (r: String)
    ensures
        r@ == table_debug(opt_view(*table)),
{
    format!("{:?}", table)
}

/// The first ESP at or behind `i`.
pub open spec fn esp_from(parts: Seq<PartitionView>, i: int) -> Option<Seq<char>>
    decreases parts.len() - i,
{
    if i < 0 || i >= parts.len() {
        None
    } else if parts[i].part_type == Some(esp_guid()) {
        Some(parts[i].path)
    } else {
        esp_from(parts, i + 1)
    }
}

/// The first partition at or behind `i` that starts at `start`.
pub open spec fn start_from(parts: Seq<PartitionView>, start: int, i: int) -> Option<Seq<char>>
    decreases parts.len() - i,
{
    if i < 0 || i >= parts.len() {
        None
    } else if parts[i].start == start {
        Some(parts[i].path)
    } else {
        start_from(parts, start, i + 1)
    }
}

/// The first partition at or behind `i` with this path.
pub open spec fn path_from(parts: Seq<PartitionView>, device: Seq<char>, i: int) -> Option<
    PartitionView,
>
    decreases parts.len() - i,
{
    if i < 0 || i >= parts.len() {
        None
    } else if same_path(parts[i].path, device) {
        Some(parts[i])
    } else {
        path_from(parts, device, i + 1)
    }
}

pub(crate) fn is_esp(p: &PartitionInfo) -> (r: bool)
    ensures
        r == (p@.part_type == Some(esp_guid())),
{
    text::same_opt(&p.part_type, "c12a7328-f81f-11d2-ba4b-00a0c93ec93b")
}

fn find_esp(info: &DiskInfo) -> (r: Option<String>)
    ensures
        opt_view(r) == esp_from(info@.partitions, 0),
{
    let mut i: usize = 0;
    while i < info.partitions.len()
        invariant
            i <= info.partitions@.len(),
            esp_from(info@.partitions, 0) == esp_from(info@.partitions, i as int),
        decreases info.partitions@.len() - i,
    {
        assert(info@.partitions[i as int] == info.partitions@[i as int]@);
        if is_esp(&info.partitions[i]) {
            return Some(info.partitions[i].path.clone());
        }
        i += 1;
    }
    None
}

/// The partition whose start is `start_bytes`.
pub fn partition_at(info: &DiskInfo, start_bytes: u64) -> (r: Option<String>)
    ensures
        opt_view(r) == start_from(info@.partitions, start_bytes as int, 0),
{
    let mut i: usize = 0;
    while i < info.partitions.len()
        invariant
            i <= info.partitions@.len(),
            start_from(info@.partitions, start_bytes as int, 0) == start_from(
                info@.partitions,
                start_bytes as int,
                i as int,
            ),
        decreases info.partitions@.len() - i,
    {
        assert(info@.partitions[i as int] == info.partitions@[i as int]@);
        if info.partitions[i].start_bytes == start_bytes {
            return Some(info.partitions[i].path.clone());
        }
        i += 1;
    }
    None
}

fn find_path<'a>(info: &'a DiskInfo, device: &str) -> (r: Option<&'a PartitionInfo>)
    ensures
        opt_view(r) == path_from(info@.partitions, device@, 0),
{
    let mut i: usize = 0;
    while i < info.partitions.len()
        invariant
            i <= info.partitions@.len(),
            path_from(info@.partitions, device@, 0) == path_from(
                info@.partitions,
                device@,
                i as int,
            ),
        decreases info.partitions@.len() - i,
    {
        assert(info@.partitions[i as int] == info.partitions@[i as int]@);
        if path::paths_equal(info.partitions[i].path.as_str(), device) {
            return Some(&info.partitions[i]);
        }
        i += 1;
    }
    None
}

fn range_free(info: &DiskInfo, start: u64, size: u64) -> (r: bool)
    ensures
        r == inside_a_gap(info@.gaps, start as int, start + size),
        r && gaps_in_range(info.gaps@) ==> start + size <= u64::MAX,
{
    let mut i: usize = 0;
    while i < info.gaps.len()
        invariant
            i <= info.gaps@.len(),
            forall|j: int|
                0 <= j < i ==> !((#[trigger] info@.gaps[j]).0 <= start && start + size
                    <= info@.gaps[j].0 + info@.gaps[j].1),
        decreases info.gaps@.len() - i,
    {
        let g = info.gaps[i];
        assert(info@.gaps[i as int] == g@);
        if start >= g.start_bytes && start as u128 + size as u128 <= g.start_bytes as u128
            + g.size_bytes as u128 {
            return true;
        }
        i += 1;
    }
    false
}

// ---------- script lines ----------

pub open spec fn root_line(start: int, size: int, sector: int) -> Seq<char> {
    "start="@ + decimal((start / sector) as nat) + ", size="@ + decimal((size / sector) as nat)
        + ", type=4f68bce3-e8cd-4db1-96e7-fbcaf984b709, name=root\n"@
}

pub open spec fn esp_line(start: int, sector: int) -> Seq<char> {
    "start="@ + decimal((start / sector) as nat) + ", size="@ + decimal(
        (ESP_BYTES as int / sector) as nat,
    ) + ", type=uefi, name=ESP\n"@
}

fn make_root_line(start: u64, size: u64, sector: u64) -> (r: String)
    requires
        sector > 0,
    ensures
        r@ == root_line(start as int, size as int, sector as int),
{
    let a = text::decimal_string(start / sector);
    let b = text::decimal_string(size / sector);
    text::cat5(
        "start=",
        a.as_str(),
        ", size=",
        b.as_str(),
        ", type=4f68bce3-e8cd-4db1-96e7-fbcaf984b709, name=root\n",
    )
}

fn make_esp_line(start: u64, sector: u64) -> (r: String)
    requires
        sector > 0,
    ensures
        r@ == esp_line(start as int, sector as int),
{
    let a = text::decimal_string(start / sector);
    let b = text::decimal_string(ESP_BYTES / sector);
    text::cat5("start=", a.as_str(), ", size=", b.as_str(), ", type=uefi, name=ESP\n")
}

pub open spec fn append_commands(disk: Seq<char>, script: Seq<char>) -> Seq<CommandView> {
    seq![
        fed("sfdisk"@, seq!["--append"@, disk], script, "sfdisk --append"@),
        settle_command(),
    ]
}

fn make_append(disk: &str, script: &str) -> (r: Vec<Command>)
    ensures
        views(r@) == append_commands(disk@, script@),
{
    let mut list: Vec<Command> = Vec::new();
    assert(views(list@) =~= Seq::empty());
    push_command(
        &mut list,
        Command::with_stdin("sfdisk", args2("--append", disk), script, "sfdisk --append"),
    );
    push_command(&mut list, settle());
    assert(views(list@) =~= append_commands(disk@, script@));
    list
}

// ---------- free space ----------

/// Where the root goes: behind a new ESP when the disk has none.
pub open spec fn free_root_start(info: DiskView, gap_start: int) -> int {
    if esp_from(info.partitions, 0) is Some {
        gap_start
    } else {
        gap_start + ESP_BYTES
    }
}

/// What is left for the root.
pub open spec fn free_root_size(info: DiskView, gap_size: int) -> int {
    if esp_from(info.partitions, 0) is Some {
        gap_size
    } else if gap_size >= ESP_BYTES {
        gap_size - ESP_BYTES
    } else {
        0
    }
}

/// Why the disk cannot take a free-space install in this range, if so.
pub open spec fn free_space_fault(
    disk: Seq<char>,
    info: DiskView,
    gap_start: int,
    gap_size: int,
) -> Option<Seq<char>> {
    if info.table != Some("gpt"@) {
        Some(
            "free-space install requires an existing GPT table on "@ + disk + " (found "@
                + table_debug(info.table) + "); use erase mode for blank/MBR disks"@,
        )
    } else if !inside_a_gap(info.gaps, gap_start, gap_start + gap_size) {
        Some(
            "requested gap ("@ + decimal(gap_start as nat) + "..+"@ + decimal(gap_size as nat)
                + ") is not free space on "@ + disk
                + " — the disk changed since it was scanned; rescan and retry"@,
        )
    } else if free_root_size(info, gap_size) < ROOT_MIN_BYTES {
        Some(
            "free space too small for root: "@ + decimal(free_root_size(info, gap_size) as nat)
                + " < "@ + decimal(ROOT_MIN_BYTES as nat),
        )
    } else {
        None
    }
}

pub open spec fn free_space_script(info: DiskView, gap_start: int, gap_size: int) -> Seq<char> {
    (if esp_from(info.partitions, 0) is Some {
        Seq::empty()
    } else {
        esp_line(gap_start, info.sector)
    }) + root_line(
        free_root_start(info, gap_start),
        free_root_size(info, gap_size),
        info.sector,
    )
}

/// What has to be looked up once a free-space install has appended its
/// partitions.
#[derive(Debug, PartialEq, Eq)]
pub struct FreeSpacePlan {
    pub existing_esp: Option<String>,
    pub gap_start: u64,
    pub root_start: u64,
}

/// Creates ESP-if-needed and root inside one free-space gap.
pub fn free_space(disk: &str, info: &DiskInfo, gap_start: u64, gap_size: u64) -> (r: Result<
    (Vec<Command>, FreeSpacePlan),
    String,
>)
    requires
        info.wf(),
    ensures
        match r {
            Ok((commands, plan)) => {
                &&& free_space_fault(disk@, info@, gap_start as int, gap_size as int) is None
                &&& views(commands@) == append_commands(
                    disk@,
                    free_space_script(info@, gap_start as int, gap_size as int),
                )
                &&& opt_view(plan.existing_esp) == esp_from(info@.partitions, 0)
                &&& plan.gap_start == gap_start
                &&& plan.root_start == free_root_start(info@, gap_start as int)
            },
            Err(m) => free_space_fault(disk@, info@, gap_start as int, gap_size as int) == Some(m@),
        },
{
    if !text::same_opt(&info.table, "gpt") {
        let found = debug_table(&info.table);
        return Err(
            text::cat5(
                "free-space install requires an existing GPT table on ",
                disk,
                " (found ",
                found.as_str(),
                "); use erase mode for blank/MBR disks",
            ),
        );
    }
    if !range_free(info, gap_start, gap_size) {
        let a = text::decimal_string(gap_start);
        let b = text::decimal_string(gap_size);
        let mut m = text::cat5(
            "requested gap (",
            a.as_str(),
            "..+",
            b.as_str(),
            ") is not free space on ",
        );
        m.append(disk);
        m.append(" — the disk changed since it was scanned; rescan and retry");
        return Err(m);
    }
    let existing_esp = find_esp(info);
    let root_size: u64 = if existing_esp.is_some() {
        gap_size
    } else if gap_size >= ESP_BYTES {
        gap_size - ESP_BYTES
    } else {
        0
    };
    if root_size < ROOT_MIN_BYTES {
        let got = text::decimal_string(root_size);
        let least = text::decimal_string(ROOT_MIN_BYTES);
        return Err(
            text::cat4("free space too small for root: ", got.as_str(), " < ", least.as_str()),
        );
    }
    let mut script = String::new();
    let root_start: u64;
    if existing_esp.is_some() {
        root_start = gap_start;
        assert(script@ =~= Seq::empty());
    } else {
        root_start = gap_start + ESP_BYTES;
        script = make_esp_line(gap_start, info.sector_size);
    }
    let line = make_root_line(root_start, root_size, info.sector_size);
    script.append(line.as_str());
    assert(script@ =~= free_space_script(info@, gap_start as int, gap_size as int));
    Ok((make_append(disk, script.as_str()), FreeSpacePlan { existing_esp, gap_start, root_start }))
}

/// The devices of a finished free-space install.
pub open spec fn free_space_result(
    esp: Option<Seq<char>>,
    gap_start: int,
    root_start: int,
    parts: Seq<PartitionView>,
) -> Result<PartitionSetView, Seq<char>> {
    match start_from(parts, root_start, 0) {
        None => Err("created root partition not found after append"@),
        Some(root) => match esp {
            Some(e) => Ok(PartitionSetView { esp: e, format_esp: false, boot: None, root }),
            None => match start_from(parts, gap_start, 0) {
                Some(e) => Ok(PartitionSetView { esp: e, format_esp: true, boot: None, root }),
                None => Err("created ESP not found after append"@),
            },
        },
    }
}

pub open spec fn outcome_view(r: Result<PartitionSet, String>) -> Result<PartitionSetView, Seq<char>> {
    match r {
        Ok(set) => Ok(set@),
        Err(m) => Err(m@),
    }
}

/// Finds the appended partitions by their starts.
pub fn free_space_devices(plan: &FreeSpacePlan, after: &DiskInfo) -> (r: Result<
    PartitionSet,
    String,
>)
    ensures
        outcome_view(r) == free_space_result(
            opt_view(plan.existing_esp),
            plan.gap_start as int,
            plan.root_start as int,
            after@.partitions,
        ),
{
    let root = match partition_at(after, plan.root_start) {
        Some(p) => p,
        None => return Err("created root partition not found after append".to_owned()),
    };
    match &plan.existing_esp {
        Some(e) => Ok(PartitionSet { esp: e.clone(), format_esp: false, boot: None, root }),
        None => match partition_at(after, plan.gap_start) {
            Some(e) => Ok(PartitionSet { esp: e, format_esp: true, boot: None, root }),
            None => Err("created ESP not found after append".to_owned()),
        },
    }
}

// ---------- custom: what can be reused ----------

/// Why one action's reuse is refused, if it is.
pub open spec fn use_error(parts: Seq<PartitionView>, a: PartitionAction) -> Option<Seq<char>> {
    match a {
        PartitionAction::UseAsRoot { device } => match path_from(parts, device@, 0) {
            None => Some(device@ + " vanished mid-plan"@),
            Some(p) => if p.mounted {
                Some(device@ + " is mounted; refusing to use as root"@)
            } else if p.size < ROOT_MIN_BYTES {
                Some(
                    device@ + " too small for root: "@ + decimal(p.size as nat) + " < "@ + decimal(
                        ROOT_MIN_BYTES as nat,
                    ),
                )
            } else {
                None
            },
        },
        PartitionAction::UseAsEsp { device, .. } => match path_from(parts, device@, 0) {
            None => Some(device@ + " vanished mid-plan"@),
            Some(p) => if p.mounted {
                Some(device@ + " is mounted; refusing to use as ESP"@)
            } else {
                None
            },
        },
        _ => None,
    }
}

/// The index of the first refused reuse at or behind `i`; the length when
/// all are in order.
pub open spec fn first_bad_use(
    parts: Seq<PartitionView>,
    actions: Seq<PartitionAction>,
    i: int,
) -> int
    decreases actions.len() - i,
{
    if i < 0 || i >= actions.len() {
        actions.len() as int
    } else if use_error(parts, actions[i]) is Some {
        i
    } else {
        first_bad_use(parts, actions, i + 1)
    }
}

/// Why the plan's reuses are refused, if they are: the first refusal.
pub open spec fn first_use_error(
    parts: Seq<PartitionView>,
    actions: Seq<PartitionAction>,
) -> Option<Seq<char>> {
    let bad = first_bad_use(parts, actions, 0);
    if bad < actions.len() {
        use_error(parts, actions[bad])
    } else {
        None
    }
}

fn use_problem(info: &DiskInfo, a: &PartitionAction) -> (r: Option<String>)
    ensures
        opt_view(r) == use_error(info@.partitions, *a),
{
    match a {
        PartitionAction::UseAsRoot { device } => {
            let p = match find_path(info, device.as_str()) {
                Some(p) => p,
                None => return Some(text::cat2(device.as_str(), " vanished mid-plan")),
            };
            if p.mounted {
                return Some(text::cat2(device.as_str(), " is mounted; refusing to use as root"));
            }
            if p.size_bytes < ROOT_MIN_BYTES {
                let got = text::decimal_string(p.size_bytes);
                let least = text::decimal_string(ROOT_MIN_BYTES);
                return Some(
                    text::cat5(
                        device.as_str(),
                        " too small for root: ",
                        got.as_str(),
                        " < ",
                        least.as_str(),
                    ),
                );
            }
            None
        },
        PartitionAction::UseAsEsp { device, .. } => {
            let p = match find_path(info, device.as_str()) {
                Some(p) => p,
                None => return Some(text::cat2(device.as_str(), " vanished mid-plan")),
            };
            if p.mounted {
                return Some(text::cat2(device.as_str(), " is mounted; refusing to use as ESP"));
            }
            None
        },
        _ => None,
    }
}

fn find_use_problem(info: &DiskInfo, actions: &Vec<PartitionAction>) -> (r: Option<String>)
    ensures
        opt_view(r) == first_use_error(info@.partitions, actions@),
        r is None <==> first_bad_use(info@.partitions, actions@, 0) >= actions@.len(),
{
    let ghost parts = info@.partitions;
    let mut i: usize = 0;
    while i < actions.len()
        invariant
            i <= actions@.len(),
            parts == info@.partitions,
            first_bad_use(parts, actions@, 0) == first_bad_use(parts, actions@, i as int),
        decreases actions@.len() - i,
    {
        let problem = use_problem(info, &actions[i]);
        if problem.is_some() {
            return problem;
        }
        i += 1;
    }
    None
}

// ---------- custom: what a creation runs into ----------

/// One of the actions at or behind `i` deletes the partition at `path`.
pub open spec fn deleted_from(actions: Seq<PartitionAction>, path: Seq<char>, i: int) -> bool
    decreases actions.len() - i,
{
    if i < 0 || i >= actions.len() {
        false
    } else {
        (match actions[i] {
            PartitionAction::Delete { device } => same_path(path, device@),
            _ => false,
        }) || deleted_from(actions, path, i + 1)
    }
}

/// The partition stays, and the range from `from` to `to` runs into it.
pub open spec fn runs_into(
    p: PartitionView,
    actions: Seq<PartitionAction>,
    from: int,
    to: int,
) -> bool {
    from < p.start + p.size && p.start < to && !deleted_from(actions, p.path, 0)
}

/// No deletion of the plan makes this range free: it runs into a partition
/// that stays, or over the end of the disk.
pub open spec fn blocked(
    info: DiskView,
    actions: Seq<PartitionAction>,
    from: int,
    to: int,
) -> bool {
    to > info.size || exists|j: int|
        0 <= j < info.partitions.len() && runs_into(#[trigger] info.partitions[j], actions, from, to)
}

/// Why one action's creation is bound to be refused, whatever the deletions
/// free, if it is.
pub open spec fn early_create_error(
    info: DiskView,
    actions: Seq<PartitionAction>,
    a: PartitionAction,
) -> Option<Seq<char>> {
    match a {
        PartitionAction::CreateRoot { start_bytes, size_bytes: Some(size) } => if size
            < ROOT_MIN_BYTES {
            Some(
                "root partition too small: "@ + decimal(size as nat) + " < "@ + decimal(
                    ROOT_MIN_BYTES as nat,
                ),
            )
        } else if blocked(info, actions, start_bytes as int, start_bytes + size) {
            Some("create-root range is not free space after deletes"@)
        } else {
            None
        },
        PartitionAction::CreateRoot { start_bytes, size_bytes: None } => if blocked(
            info,
            actions,
            start_bytes as int,
            start_bytes + 1,
        ) {
            Some("create-root start is not inside a free gap"@)
        } else {
            None
        },
        PartitionAction::CreateEsp { start_bytes } => if blocked(
            info,
            actions,
            start_bytes as int,
            start_bytes + ESP_BYTES,
        ) {
            Some("create-esp range is not free space after deletes"@)
        } else {
            None
        },
        _ => None,
    }
}

pub open spec fn first_early_error(
    info: DiskView,
    actions: Seq<PartitionAction>,
    i: int,
) -> Option<Seq<char>>
    decreases actions.len() - i,
{
    if i < 0 || i >= actions.len() {
        None
    } else if early_create_error(info, actions, actions[i]) is Some {
        early_create_error(info, actions, actions[i])
    } else {
        first_early_error(info, actions, i + 1)
    }
}

fn gets_deleted(actions: &Vec<PartitionAction>, path: &str) -> (r: bool)
    ensures
        r == deleted_from(actions@, path@, 0),
{
    let mut i: usize = 0;
    while i < actions.len()
        invariant
            i <= actions@.len(),
            deleted_from(actions@, path@, 0) == deleted_from(actions@, path@, i as int),
        decreases actions@.len() - i,
    {
        if let PartitionAction::Delete { device } = &actions[i] {
            if path::paths_equal(path, device.as_str()) {
                return true;
            }
        }
        i += 1;
    }
    false
}

fn is_blocked(info: &DiskInfo, actions: &Vec<PartitionAction>, start: u64, size: u64) -> (r: bool)
    ensures
        r == blocked(info@, actions@, start as int, start + size),
{
    let from: u128 = start as u128;
    let to: u128 = from + size as u128;
    if to > info.size_bytes as u128 {
        return true;
    }
    let mut i: usize = 0;
    while i < info.partitions.len()
        invariant
            i <= info.partitions@.len(),
            from == start,
            to == start + size,
            to <= info.size_bytes,
            forall|j: int|
                0 <= j < i ==> !runs_into(
                    #[trigger] info@.partitions[j],
                    actions@,
                    start as int,
                    start + size,
                ),
        decreases info.partitions@.len() - i,
    {
        let p = &info.partitions[i];
        assert(info@.partitions[i as int] == p@);
        if from < p.start_bytes as u128 + p.size_bytes as u128 && (p.start_bytes as u128) < to
            && !gets_deleted(actions, p.path.as_str()) {
            return true;
        }
        i += 1;
    }
    false
}

fn early_problem(info: &DiskInfo, actions: &Vec<PartitionAction>, a: &PartitionAction) -> (r: Option<
    String,
>)
    ensures
        opt_view(r) == early_create_error(info@, actions@, *a),
{
    match a {
        PartitionAction::CreateRoot { start_bytes, size_bytes } => match size_bytes {
            Some(size) => {
                if *size < ROOT_MIN_BYTES {
                    let got = text::decimal_string(*size);
                    let least = text::decimal_string(ROOT_MIN_BYTES);
                    return Some(
                        text::cat4(
                            "root partition too small: ",
                            got.as_str(),
                            " < ",
                            least.as_str(),
                        ),
                    );
                }
                if is_blocked(info, actions, *start_bytes, *size) {
                    return Some("create-root range is not free space after deletes".to_owned());
                }
                None
            },
            None => {
                if is_blocked(info, actions, *start_bytes, 1) {
                    return Some("create-root start is not inside a free gap".to_owned());
                }
                None
            },
        },
        PartitionAction::CreateEsp { start_bytes } => {
            if is_blocked(info, actions, *start_bytes, ESP_BYTES) {
                return Some("create-esp range is not free space after deletes".to_owned());
            }
            None
        },
        _ => None,
    }
}

fn find_early_problem(info: &DiskInfo, actions: &Vec<PartitionAction>) -> (r: Option<String>)
    ensures
        opt_view(r) == first_early_error(info@, actions@, 0),
{
    let mut i: usize = 0;
    while i < actions.len()
        invariant
            i <= actions@.len(),
            first_early_error(info@, actions@, 0) == first_early_error(
                info@,
                actions@,
                i as int,
            ),
        decreases actions@.len() - i,
    {
        let problem = early_problem(info, actions, &actions[i]);
        if problem.is_some() {
            return problem;
        }
        i += 1;
    }
    None
}

// ---------- custom: deletions ----------

/// Why one action's deletion is refused, if it is.
pub open spec fn delete_error(
    disk: Seq<char>,
    parts: Seq<PartitionView>,
    a: PartitionAction,
) -> Option<Seq<char>> {
    match a {
        PartitionAction::Delete { device } => match path_from(parts, device@, 0) {
            None => Some(device@ + " does not exist on "@ + disk),
            Some(p) => if p.mounted {
                Some(device@ + " is mounted; refusing to delete"@)
            } else {
                None
            },
        },
        _ => None,
    }
}

pub open spec fn first_delete_error(
    disk: Seq<char>,
    parts: Seq<PartitionView>,
    actions: Seq<PartitionAction>,
    i: int,
) -> Option<Seq<char>>
    decreases actions.len() - i,
{
    if i < 0 || i >= actions.len() {
        None
    } else if delete_error(disk, parts, actions[i]) is Some {
        delete_error(disk, parts, actions[i])
    } else {
        first_delete_error(disk, parts, actions, i + 1)
    }
}

/// The numbers of the partitions to delete, in order.
pub open spec fn delete_numbers(
    parts: Seq<PartitionView>,
    actions: Seq<PartitionAction>,
) -> Seq<Seq<char>>
    decreases actions.len(),
{
    if actions.len() == 0 {
        Seq::empty()
    } else {
        let front = delete_numbers(parts, actions.drop_last());
        match actions.last() {
            PartitionAction::Delete { device } => match path_from(parts, device@, 0) {
                Some(p) => front.push(decimal(p.number as nat)),
                None => front,
            },
            _ => front,
        }
    }
}

/// All deletions in one call.
pub open spec fn delete_plan(disk: Seq<char>, numbers: Seq<Seq<char>>) -> Seq<CommandView> {
    if numbers.len() == 0 {
        Seq::empty()
    } else {
        seq![
            plain("sfdisk"@, seq!["--delete"@, disk] + numbers, "sfdisk --delete"@),
            settle_command(),
        ]
    }
}

/// Why a custom plan cannot start on this disk, if so: the table is of
/// another kind, a deletion or a reuse is refused, or a creation is bound to
/// be.
pub open spec fn custom_fault(
    disk: Seq<char>,
    info: DiskView,
    actions: Seq<PartitionAction>,
) -> Option<Seq<char>> {
    if info.table != Some("gpt"@) {
        Some(
            "custom layout requires an existing GPT table on "@ + disk + " (found "@ + table_debug(
                info.table,
            ) + ")"@,
        )
    } else if first_delete_error(disk, info.partitions, actions, 0) is Some {
        first_delete_error(disk, info.partitions, actions, 0)
    } else if first_use_error(info.partitions, actions) is Some {
        first_use_error(info.partitions, actions)
    } else {
        first_early_error(info, actions, 0)
    }
}

/// The deletions of a custom plan, with the whole plan checked against a
/// fresh probe.
pub fn custom_deletes(disk: &str, info: &DiskInfo, actions: &Vec<PartitionAction>) -> (r: Result<
    Vec<Command>,
    String,
>)
    ensures
        match r {
            Ok(commands) => custom_fault(disk@, info@, actions@) is None && views(commands@)
                == delete_plan(disk@, delete_numbers(info@.partitions, actions@)),
            Err(m) => custom_fault(disk@, info@, actions@) == Some(m@),
        },
{
    if !text::same_opt(&info.table, "gpt") {
        let found = debug_table(&info.table);
        return Err(
            text::cat5(
                "custom layout requires an existing GPT table on ",
                disk,
                " (found ",
                found.as_str(),
                ")",
            ),
        );
    }
    let mut numbers: Vec<String> = Vec::new();
    let mut i: usize = 0;
    let ghost parts = info@.partitions;
    assert(actions@.take(0) =~= Seq::empty());
    assert(views(numbers@) =~= Seq::empty());
    while i < actions.len()
        invariant
            i <= actions@.len(),
            parts == info@.partitions,
            info@.table == Some("gpt"@),
            views(numbers@) == delete_numbers(parts, actions@.take(i as int)),
            first_delete_error(disk@, parts, actions@, 0) == first_delete_error(
                disk@,
                parts,
                actions@,
                i as int,
            ),
        decreases actions@.len() - i,
    {
        let ghost before = numbers@;
        let ghost next = actions@.take(i + 1);
        assert(next.drop_last() =~= actions@.take(i as int));
        assert(next.last() == actions@[i as int]);
        if let PartitionAction::Delete { device } = &actions[i] {
            match find_path(info, device.as_str()) {
                None => {
                    return Err(text::cat3(device.as_str(), " does not exist on ", disk));
                },
                Some(p) => {
                    if p.mounted {
                        return Err(
                            text::cat2(device.as_str(), " is mounted; refusing to delete"),
                        );
                    }
                    let n = text::decimal_string(p.number as u64);
                    let ghost shown = n@;
                    numbers.push(n);
                    assert(views(numbers@) =~= views(before).push(shown));
                },
            }
        }
        i += 1;
    }
    assert(actions@.take(actions@.len() as int) =~= actions@);
    if let Some(m) = find_use_problem(info, actions) {
        return Err(m);
    }
    if let Some(m) = find_early_problem(info, actions) {
        return Err(m);
    }
    let mut list: Vec<Command> = Vec::new();
    assert(views(list@) =~= Seq::empty());
    assert(views(numbers@).len() == numbers@.len());
    if numbers.len() > 0 {
        let args = chained(args2("--delete", disk), numbers);
        push_command(&mut list, Command::new("sfdisk", args, "sfdisk --delete"));
        push_command(&mut list, settle());
        assert(views(list@) =~= delete_plan(disk@, delete_numbers(parts, actions@)));
    }
    Ok(list)
}

// ---------- custom: creations ----------

/// The first gap at or behind `i` that holds the position `start`.
pub open spec fn gap_at(gaps: Seq<(int, int)>, start: int, i: int) -> Option<(int, int)>
    decreases gaps.len() - i,
{
    if i < 0 || i >= gaps.len() {
        None
    } else if gaps[i].0 <= start < gaps[i].0 + gaps[i].1 {
        Some(gaps[i])
    } else {
        gap_at(gaps, start, i + 1)
    }
}

/// The size of a new root: as requested, or up to the end of the gap that
/// its start falls in.
pub open spec fn create_size(gaps: Seq<(int, int)>, start: int, size: Option<u64>) -> Option<int> {
    match size {
        Some(s) => Some(s as int),
        None => match gap_at(gaps, start, 0) {
            Some(g) => Some(g.0 + g.1 - start),
            None => None,
        },
    }
}

/// Why one action's creation is refused, if it is.
pub open spec fn create_error(gaps: Seq<(int, int)>, a: PartitionAction) -> Option<Seq<char>> {
    match a {
        PartitionAction::CreateRoot { start_bytes, size_bytes } => match create_size(
            gaps,
            start_bytes as int,
            size_bytes,
        ) {
            None => Some("create-root start is not inside a free gap"@),
            Some(size) => if size < ROOT_MIN_BYTES {
                Some(
                    "root partition too small: "@ + decimal(size as nat) + " < "@ + decimal(
                        ROOT_MIN_BYTES as nat,
                    ),
                )
            } else if !inside_a_gap(gaps, start_bytes as int, start_bytes + size) {
                Some("create-root range is not free space after deletes"@)
            } else {
                None
            },
        },
        PartitionAction::CreateEsp { start_bytes } => if !inside_a_gap(
            gaps,
            start_bytes as int,
            start_bytes + ESP_BYTES,
        ) {
            Some("create-esp range is not free space after deletes"@)
        } else {
            None
        },
        _ => None,
    }
}

pub open spec fn first_create_error(
    gaps: Seq<(int, int)>,
    actions: Seq<PartitionAction>,
    i: int,
) -> Option<Seq<char>>
    decreases actions.len() - i,
{
    if i < 0 || i >= actions.len() {
        None
    } else if create_error(gaps, actions[i]) is Some {
        create_error(gaps, actions[i])
    } else {
        first_create_error(gaps, actions, i + 1)
    }
}

pub open spec fn create_line(gaps: Seq<(int, int)>, sector: int, a: PartitionAction) -> Seq<char> {
    match a {
        PartitionAction::CreateRoot { start_bytes, size_bytes } => root_line(
            start_bytes as int,
            create_size(gaps, start_bytes as int, size_bytes)->0,
            sector,
        ),
        PartitionAction::CreateEsp { start_bytes } => esp_line(start_bytes as int, sector),
        _ => Seq::empty(),
    }
}

pub open spec fn create_script(
    gaps: Seq<(int, int)>,
    sector: int,
    actions: Seq<PartitionAction>,
) -> Seq<char>
    decreases actions.len(),
{
    if actions.len() == 0 {
        Seq::empty()
    } else {
        create_script(gaps, sector, actions.drop_last()) + create_line(gaps, sector, actions.last())
    }
}

/// The start of the root that the plan creates, if it creates one.
pub open spec fn created_root(actions: Seq<PartitionAction>) -> Option<u64>
    decreases actions.len(),
{
    if actions.len() == 0 {
        None
    } else {
        match actions.last() {
            PartitionAction::CreateRoot { start_bytes, .. } => Some(start_bytes),
            _ => created_root(actions.drop_last()),
        }
    }
}

/// The start of the ESP that the plan creates, if it creates one.
pub open spec fn created_esp(actions: Seq<PartitionAction>) -> Option<u64>
    decreases actions.len(),
{
    if actions.len() == 0 {
        None
    } else {
        match actions.last() {
            PartitionAction::CreateEsp { start_bytes } => Some(start_bytes),
            _ => created_esp(actions.drop_last()),
        }
    }
}

pub open spec fn create_plan(disk: Seq<char>, script: Seq<char>) -> Seq<CommandView> {
    if script.len() == 0 {
        Seq::empty()
    } else {
        append_commands(disk, script)
    }
}

/// Where a custom plan's new partitions start.
#[derive(Debug, Clone, Copy, PartialEq, Eq, Structural)]
pub struct CreatePlan {
    pub root_start: Option<u64>,
    pub esp_start: Option<u64>,
}

fn find_gap(info: &DiskInfo, start: u64) -> (r: Option<u64>)
    requires
        info.wf(),
    ensures
        match r {
            Some(size) => create_size(info@.gaps, start as int, None) == Some(size as int),
            None => create_size(info@.gaps, start as int, None) is None,
        },
{
    let mut i: usize = 0;
    while i < info.gaps.len()
        invariant
            i <= info.gaps@.len(),
            info.wf(),
            gap_at(info@.gaps, start as int, 0) == gap_at(info@.gaps, start as int, i as int),
        decreases info.gaps@.len() - i,
    {
        let g = info.gaps[i];
        assert(info@.gaps[i as int] == g@);
        if start >= g.start_bytes && start < g.start_bytes + g.size_bytes {
            return Some(g.start_bytes + g.size_bytes - start);
        }
        i += 1;
    }
    None
}

/// The creations of a custom plan, checked against a probe made after the
/// deletions.
pub fn custom_creates(
    disk: &str,
    sector: u64,
    post_delete: &DiskInfo,
    actions: &Vec<PartitionAction>,
) -> (r: Result<(Vec<Command>, CreatePlan), String>)
    requires
        sector > 0,
        post_delete.wf(),
    ensures
        match r {
            Ok((commands, plan)) => {
                &&& first_create_error(post_delete@.gaps, actions@, 0) is None
                &&& views(commands@) == create_plan(
                    disk@,
                    create_script(post_delete@.gaps, sector as int, actions@),
                )
                &&& plan.root_start == created_root(actions@)
                &&& plan.esp_start == created_esp(actions@)
            },
            Err(m) => first_create_error(post_delete@.gaps, actions@, 0) == Some(m@),
        },
{
    let ghost gaps = post_delete@.gaps;
    let mut script = String::new();
    let mut root_start: Option<u64> = None;
    let mut esp_start: Option<u64> = None;
    let mut i: usize = 0;
    assert(actions@.take(0) =~= Seq::empty());
    while i < actions.len()
        invariant
            i <= actions@.len(),
            sector > 0,
            post_delete.wf(),
            gaps == post_delete@.gaps,
            script@ == create_script(gaps, sector as int, actions@.take(i as int)),
            root_start == created_root(actions@.take(i as int)),
            esp_start == created_esp(actions@.take(i as int)),
            first_create_error(gaps, actions@, 0) == first_create_error(gaps, actions@, i as int),
        decreases actions@.len() - i,
    {
        let ghost next = actions@.take(i + 1);
        let ghost before = script@;
        assert(next.drop_last() =~= actions@.take(i as int));
        assert(next.last() == actions@[i as int]);
        match &actions[i] {
            PartitionAction::CreateRoot { start_bytes, size_bytes } => {
                let size: u64 = match size_bytes {
                    Some(s) => *s,
                    None => {
                        match find_gap(post_delete, *start_bytes) {
                            Some(s) => s,
                            None => {
                                return Err(
                                    "create-root start is not inside a free gap".to_owned(),
                                );
                            },
                        }
                    },
                };
                if size < ROOT_MIN_BYTES {
                    let got = text::decimal_string(size);
                    let least = text::decimal_string(ROOT_MIN_BYTES);
                    return Err(
                        text::cat4(
                            "root partition too small: ",
                            got.as_str(),
                            " < ",
                            least.as_str(),
                        ),
                    );
                }
                if !range_free(post_delete, *start_bytes, size) {
                    return Err("create-root range is not free space after deletes".to_owned());
                }
                let line = make_root_line(*start_bytes, size, sector);
                script.append(line.as_str());
                root_start = Some(*start_bytes);
            },
            PartitionAction::CreateEsp { start_bytes } => {
                if !range_free(post_delete, *start_bytes, ESP_BYTES) {
                    return Err("create-esp range is not free space after deletes".to_owned());
                }
                let line = make_esp_line(*start_bytes, sector);
                script.append(line.as_str());
                esp_start = Some(*start_bytes);
            },
            _ => {
                assert(before =~= before + Seq::empty());
            },
        }
        i += 1;
    }
    assert(actions@.take(actions@.len() as int) =~= actions@);
    let chars = text::chars_of(script.as_str());
    let commands: Vec<Command> = if chars.len() == 0 {
        Vec::new()
    } else {
        make_append(disk, script.as_str())
    };
    assert(chars.len() == 0 ==> views(commands@) =~= Seq::empty());
    Ok((commands, CreatePlan { root_start, esp_start }))
}

// ---------- custom: assignment ----------

pub open spec fn stamp_command(disk: Seq<char>, number: int, guid: Seq<char>) -> CommandView {
    plain(
        "sfdisk"@,
        seq!["--part-type"@, disk, decimal(number as nat), guid],
        "sfdisk --part-type "@ + decimal(number as nat),
    )
}

fn stamp_type(disk: &str, number: u32, guid: &str) -> (r: Command)
    ensures
        r@ == stamp_command(disk@, number as int, guid@),
{
    let num = text::decimal_string(number as u64);
    let context = text::cat2("sfdisk --part-type ", num.as_str());
    Command::new("sfdisk", args4("--part-type", disk, num.as_str(), guid), context.as_str())
}

/// What one action's reuse runs: the type is stamped where it differs, and
/// what will be formatted is wiped.
pub open spec fn use_commands(
    disk: Seq<char>,
    parts: Seq<PartitionView>,
    a: PartitionAction,
) -> Seq<CommandView> {
    match a {
        PartitionAction::UseAsRoot { device } => seq![
            stamp_command(disk, path_from(parts, device@, 0)->0.number, root_guid()),
            plain("wipefs"@, seq!["--all"@, device@], "wipefs root"@),
        ],
        PartitionAction::UseAsEsp { device, format } => {
            let p = path_from(parts, device@, 0)->0;
            (if p.part_type != Some(esp_guid()) {
                seq![stamp_command(disk, p.number, esp_guid())]
            } else {
                Seq::empty()
            }) + (if format {
                seq![plain("wipefs"@, seq!["--all"@, device@], "wipefs esp"@)]
            } else {
                Seq::empty()
            })
        },
        _ => Seq::empty(),
    }
}

pub open spec fn all_use_commands(
    disk: Seq<char>,
    parts: Seq<PartitionView>,
    actions: Seq<PartitionAction>,
) -> Seq<CommandView>
    decreases actions.len(),
{
    if actions.len() == 0 {
        Seq::empty()
    } else {
        all_use_commands(disk, parts, actions.drop_last()) + use_commands(
            disk,
            parts,
            actions.last(),
        )
    }
}

/// The root device: the last reused one, else the created one.
pub open spec fn chosen_root(
    actions: Seq<PartitionAction>,
    created: Option<Seq<char>>,
) -> Option<Seq<char>>
    decreases actions.len(),
{
    if actions.len() == 0 {
        created
    } else {
        match actions.last() {
            PartitionAction::UseAsRoot { device } => Some(device@),
            _ => chosen_root(actions.drop_last(), created),
        }
    }
}

/// The ESP device and whether it gets formatted: the last reused one, else
/// the created one, which does.
pub open spec fn chosen_esp(
    actions: Seq<PartitionAction>,
    created: Option<Seq<char>>,
) -> (Option<Seq<char>>, bool)
    decreases actions.len(),
{
    if actions.len() == 0 {
        (created, true)
    } else {
        match actions.last() {
            PartitionAction::UseAsEsp { device, format } => (Some(device@), format),
            _ => chosen_esp(actions.drop_last(), created),
        }
    }
}

/// The device of a created partition, where one was created.
pub open spec fn located(parts: Seq<PartitionView>, start: Option<u64>) -> Option<Seq<char>> {
    match start {
        Some(s) => start_from(parts, s as int, 0),
        None => None,
    }
}

pub open spec fn locate_error(parts: Seq<PartitionView>, plan: CreatePlan) -> Option<Seq<char>> {
    if plan.root_start is Some && located(parts, plan.root_start) is None {
        Some("created root not found after append"@)
    } else if plan.esp_start is Some && located(parts, plan.esp_start) is None {
        Some("created ESP not found after append"@)
    } else {
        None
    }
}

/// What the assignment comes to once its commands have run.
pub open spec fn assign_outcome(
    parts: Seq<PartitionView>,
    actions: Seq<PartitionAction>,
    plan: CreatePlan,
) -> Result<PartitionSetView, Seq<char>> {
    let bad = first_bad_use(parts, actions, 0);
    let (esp, format_esp) = chosen_esp(actions, located(parts, plan.esp_start));
    let root = chosen_root(actions, located(parts, plan.root_start));
    if locate_error(parts, plan) is Some {
        Err(locate_error(parts, plan)->0)
    } else if bad < actions.len() {
        Err(use_error(parts, actions[bad])->0)
    } else if esp is None {
        Err("plan produced no ESP"@)
    } else if root is None {
        Err("plan produced no root"@)
    } else {
        Ok(PartitionSetView { esp: esp->0, format_esp, boot: None, root: root->0 })
    }
}

/// The commands of the assignment: none where it is refused.
pub open spec fn assign_commands(
    disk: Seq<char>,
    parts: Seq<PartitionView>,
    actions: Seq<PartitionAction>,
    plan: CreatePlan,
) -> Seq<CommandView> {
    if assign_outcome(parts, actions, plan) is Ok {
        all_use_commands(disk, parts, actions).push(settle_command())
    } else {
        Seq::empty()
    }
}

fn push_use_commands(
    list: &mut Vec<Command>,
    disk: &str,
    after: &DiskInfo,
    a: &PartitionAction,
)
    requires
        use_error(after@.partitions, *a) is None,
    ensures
        views(final(list)@) == views(old(list)@) + use_commands(disk@, after@.partitions, *a),
{
    let ghost before = views(list@);
    match a {
        PartitionAction::UseAsRoot { device } => {
            if let Some(p) = find_path(after, device.as_str()) {
                push_command(
                    list,
                    stamp_type(disk, p.number, "4f68bce3-e8cd-4db1-96e7-fbcaf984b709"),
                );
                push_command(
                    list,
                    Command::new("wipefs", args2("--all", device.as_str()), "wipefs root"),
                );
            }
        },
        PartitionAction::UseAsEsp { device, format } => {
            if let Some(p) = find_path(after, device.as_str()) {
                if !is_esp(p) {
                    push_command(
                        list,
                        stamp_type(disk, p.number, "c12a7328-f81f-11d2-ba4b-00a0c93ec93b"),
                    );
                }
                if *format {
                    push_command(
                        list,
                        Command::new("wipefs", args2("--all", device.as_str()), "wipefs esp"),
                    );
                }
            }
        },
        _ => {},
    }
    assert(views(list@) =~= before + use_commands(disk@, after@.partitions, *a));
}

fn locate(after: &DiskInfo, start: Option<u64>) -> (r: Option<String>)
    ensures
        opt_view(r) == located(after@.partitions, start),
{
    match start {
        Some(s) => partition_at(after, s),
        None => None,
    }
}

/// The assignment of a custom plan: finds what was created, checks and
/// prepares what is reused. The outcome holds once the commands have run.
pub fn custom_assign(
    disk: &str,
    after: &DiskInfo,
    actions: &Vec<PartitionAction>,
    plan: CreatePlan,
) -> (r: (Vec<Command>, Result<PartitionSet, String>))
    ensures
        views(r.0@) == assign_commands(disk@, after@.partitions, actions@, plan),
        outcome_view(r.1) == assign_outcome(after@.partitions, actions@, plan),
{
    let ghost parts = after@.partitions;
    let mut list: Vec<Command> = Vec::new();
    assert(views(list@) =~= Seq::empty());
    let mut root = locate(after, plan.root_start);
    if plan.root_start.is_some() && root.is_none() {
        return (list, Err("created root not found after append".to_owned()));
    }
    let mut esp = locate(after, plan.esp_start);
    if plan.esp_start.is_some() && esp.is_none() {
        return (list, Err("created ESP not found after append".to_owned()));
    }
    if let Some(m) = find_use_problem(after, actions) {
        return (list, Err(m));
    }
    let mut format_esp = true;
    let mut i: usize = 0;
    assert(actions@.take(0) =~= Seq::empty());
    while i < actions.len()
        invariant
            i <= actions@.len(),
            parts == after@.partitions,
            first_bad_use(parts, actions@, 0) >= actions@.len(),
            views(list@) == all_use_commands(disk@, parts, actions@.take(i as int)),
            opt_view(root) == chosen_root(
                actions@.take(i as int),
                located(parts, plan.root_start),
            ),
            (opt_view(esp), format_esp) == chosen_esp(
                actions@.take(i as int),
                located(parts, plan.esp_start),
            ),
        decreases actions@.len() - i,
    {
        let ghost next = actions@.take(i + 1);
        assert(next.drop_last() =~= actions@.take(i as int));
        assert(next.last() == actions@[i as int]);
        proof {
            lemma_no_bad_use(parts, actions@, 0, i as int);
        }
        push_use_commands(&mut list, disk, after, &actions[i]);
        match &actions[i] {
            PartitionAction::UseAsRoot { device } => {
                root = Some(device.clone());
            },
            PartitionAction::UseAsEsp { device, format } => {
                format_esp = *format;
                esp = Some(device.clone());
            },
            _ => {},
        }
        i += 1;
    }
    assert(actions@.take(actions@.len() as int) =~= actions@);
    push_command(&mut list, settle());
    let nothing: Vec<Command> = Vec::new();
    assert(views(nothing@) =~= Seq::empty());
    match esp {
        None => (nothing, Err("plan produced no ESP".to_owned())),
        Some(esp) => match root {
            None => (nothing, Err("plan produced no root".to_owned())),
            Some(root) => (list, Ok(PartitionSet { esp, format_esp, boot: None, root })),
        },
    }
}

// ---------- the run as a whole ----------

/// What a partition run waits for.
#[derive(Debug, PartialEq, Eq)]
pub enum Stage {
    FreeProbed,
    FreeAppended(FreeSpacePlan),
    CustomProbed,
    CustomDeleted { sector_size: u64 },
    CustomCreated(CreatePlan),
}

pub enum StageView {
    FreeProbed,
    FreeAppended { esp: Option<Seq<char>>, gap_start: u64, root_start: u64 },
    CustomProbed,
    CustomDeleted { sector_size: u64 },
    CustomCreated(CreatePlan),
}

impl View for Stage {
    type V = StageView;

    open spec fn view(&self) -> StageView {
        match *self {
            Stage::FreeProbed => StageView::FreeProbed,
            Stage::FreeAppended(p) => StageView::FreeAppended {
                esp: opt_view(p.existing_esp),
                gap_start: p.gap_start,
                root_start: p.root_start,
            },
            Stage::CustomProbed => StageView::CustomProbed,
            Stage::CustomDeleted { sector_size } => StageView::CustomDeleted { sector_size },
            Stage::CustomCreated(p) => StageView::CustomCreated(p),
        }
    }
}

/// What a partition run asks for next. Commands run in order; the first one
/// that fails ends the run with its context.
#[derive(Debug, PartialEq, Eq)]
pub enum Request {
    /// Run the commands, then probe the disk.
    Probe(Vec<Command>),
    /// Run the commands; the run ends with this outcome.
    Conclude(Vec<Command>, Result<PartitionSet, String>),
}

#[verifier::ext_equal]
pub enum RequestView {
    Probe(Seq<CommandView>),
    Conclude(Seq<CommandView>, Result<PartitionSetView, Seq<char>>),
}

impl View for Request {
    type V = RequestView;

    open spec fn view(&self) -> RequestView {
        match *self {
            Request::Probe(c) => RequestView::Probe(views(c@)),
            Request::Conclude(c, o) => RequestView::Conclude(views(c@), outcome_view(o)),
        }
    }
}

/// The run ends with an error and nothing more to do.
pub open spec fn refuse(m: Seq<char>) -> (Option<StageView>, RequestView) {
    (None, RequestView::Conclude(Seq::empty(), Err(m)))
}

pub open spec fn begin_view(disk: Seq<char>, plan: PartitionPlan) -> (
    Option<StageView>,
    RequestView,
) {
    match plan {
        PartitionPlan::EraseDisk => (
            None,
            RequestView::Conclude(erase_plan(disk), Ok(erase_result(disk))),
        ),
        PartitionPlan::FreeSpace { .. } => (
            Some(StageView::FreeProbed),
            RequestView::Probe(Seq::empty()),
        ),
        PartitionPlan::Custom { .. } => (
            Some(StageView::CustomProbed),
            RequestView::Probe(Seq::empty()),
        ),
    }
}

/// The stage belongs to a run of this plan.
pub open spec fn stage_of(plan: PartitionPlan, stage: StageView) -> bool {
    match stage {
        StageView::FreeProbed => plan is FreeSpace,
        StageView::FreeAppended { .. } => plan is FreeSpace,
        StageView::CustomProbed => plan is Custom,
        StageView::CustomDeleted { sector_size } => plan is Custom && sector_size > 0,
        StageView::CustomCreated(_) => plan is Custom,
    }
}

pub open spec fn proceed_view(
    disk: Seq<char>,
    plan: PartitionPlan,
    stage: StageView,
    info: DiskView,
) -> (Option<StageView>, RequestView) {
    match stage {
        StageView::FreeProbed => {
            let start = plan->gap_start_bytes as int;
            let size = plan->gap_size_bytes as int;
            match free_space_fault(disk, info, start, size) {
                Some(m) => refuse(m),
                None => (
                    Some(
                        StageView::FreeAppended {
                            esp: esp_from(info.partitions, 0),
                            gap_start: start as u64,
                            root_start: free_root_start(info, start) as u64,
                        },
                    ),
                    RequestView::Probe(append_commands(disk, free_space_script(info, start, size))),
                ),
            }
        },
        StageView::FreeAppended { esp, gap_start, root_start } => (
            None,
            RequestView::Conclude(
                Seq::empty(),
                free_space_result(esp, gap_start as int, root_start as int, info.partitions),
            ),
        ),
        StageView::CustomProbed => {
            let actions = plan->actions@;
            match custom_fault(disk, info, actions) {
                Some(m) => refuse(m),
                None => (
                    Some(StageView::CustomDeleted { sector_size: info.sector as u64 }),
                    RequestView::Probe(
                        delete_plan(disk, delete_numbers(info.partitions, actions)),
                    ),
                ),
            }
        },
        StageView::CustomDeleted { sector_size } => {
            let actions = plan->actions@;
            match first_create_error(info.gaps, actions, 0) {
                Some(m) => refuse(m),
                None => (
                    Some(
                        StageView::CustomCreated(
                            CreatePlan {
                                root_start: created_root(actions),
                                esp_start: created_esp(actions),
                            },
                        ),
                    ),
                    RequestView::Probe(
                        create_plan(disk, create_script(info.gaps, sector_size as int, actions)),
                    ),
                ),
            }
        },
        StageView::CustomCreated(created) => (
            None,
            RequestView::Conclude(
                assign_commands(disk, info.partitions, plan->actions@, created),
                assign_outcome(info.partitions, plan->actions@, created),
            ),
        ),
    }
}

/// Whether the stage belongs to a run of this plan.
pub fn belongs(plan: &PartitionPlan, stage: &Stage) -> (r: bool)
    ensures
        r == stage_of(*plan, stage@),
{
    match stage {
        Stage::FreeProbed | Stage::FreeAppended(_) => matches!(plan, PartitionPlan::FreeSpace { .. }),
        Stage::CustomProbed | Stage::CustomCreated(_) => matches!(
            plan,
            PartitionPlan::Custom { .. }
        ),
        Stage::CustomDeleted { sector_size } => matches!(plan, PartitionPlan::Custom { .. })
            && *sector_size > 0,
    }
}

/// Starts a partition run.
pub fn begin(disk: &str, plan: &PartitionPlan) -> (r: (Option<Stage>, Request))
    ensures
        (opt_view(r.0), r.1@) == begin_view(disk@, *plan),
        r.0 matches Some(s) ==> stage_of(*plan, s@),
{
    match plan {
        PartitionPlan::EraseDisk => {
            let (commands, set) = erase_disk(disk);
            (None, Request::Conclude(commands, Ok(set)))
        },
        PartitionPlan::FreeSpace { .. } => {
            let none: Vec<Command> = Vec::new();
            assert(views(none@) =~= Seq::empty());
            (Some(Stage::FreeProbed), Request::Probe(none))
        },
        PartitionPlan::Custom { .. } => {
            let none: Vec<Command> = Vec::new();
            assert(views(none@) =~= Seq::empty());
            (Some(Stage::CustomProbed), Request::Probe(none))
        },
    }
}

/// Takes a partition run further once its last request was carried out:
/// with the fresh probe, or with what went wrong.
pub fn proceed(
    disk: &str,
    plan: &PartitionPlan,
    stage: &Stage,
    reply: Result<&DiskInfo, String>,
) -> (r: (Option<Stage>, Request))
    requires
        stage_of(*plan, stage@),
        reply matches Ok(info) ==> info.wf(),
    ensures
        match reply {
            Ok(info) => (opt_view(r.0), r.1@) == proceed_view(disk@, *plan, stage@, info@),
            Err(m) => (opt_view(r.0), r.1@) == refuse(m@),
        },
        r.0 matches Some(s) ==> stage_of(*plan, s@),
{
    let nothing: Vec<Command> = Vec::new();
    assert(views(nothing@) =~= Seq::empty());
    let info = match reply {
        Ok(info) => info,
        Err(m) => return (None, Request::Conclude(nothing, Err(m))),
    };
    match stage {
        Stage::FreeProbed => {
            if let PartitionPlan::FreeSpace { gap_start_bytes, gap_size_bytes } = plan {
                match free_space(disk, info, *gap_start_bytes, *gap_size_bytes) {
                    Ok((commands, next)) => {
                        return (Some(Stage::FreeAppended(next)), Request::Probe(commands));
                    },
                    Err(m) => return (None, Request::Conclude(nothing, Err(m))),
                }
            }
        },
        Stage::FreeAppended(p) => {
            return (None, Request::Conclude(nothing, free_space_devices(p, info)));
        },
        Stage::CustomProbed => {
            if let PartitionPlan::Custom { actions } = plan {
                match custom_deletes(disk, info, actions) {
                    Ok(commands) => {
                        return (
                            Some(Stage::CustomDeleted { sector_size: info.sector_size }),
                            Request::Probe(commands),
                        );
                    },
                    Err(m) => return (None, Request::Conclude(nothing, Err(m))),
                }
            }
        },
        Stage::CustomDeleted { sector_size } => {
            if let PartitionPlan::Custom { actions } = plan {
                match custom_creates(disk, *sector_size, info, actions) {
                    Ok((commands, created)) => {
                        return (Some(Stage::CustomCreated(created)), Request::Probe(commands));
                    },
                    Err(m) => return (None, Request::Conclude(nothing, Err(m))),
                }
            }
        },
        Stage::CustomCreated(created) => {
            if let PartitionPlan::Custom { actions } = plan {
                let (commands, outcome) = custom_assign(disk, info, actions, *created);
                return (None, Request::Conclude(commands, outcome));
            }
        },
    }
    assert(false);
    (None, Request::Conclude(nothing, Err(String::new())))
}

// ---------- laws ----------

/// A free-space install that goes ahead keeps to the requested range: the
/// new ESP (where one is made) and the root follow each other inside it,
/// and the range lies inside a gap of the probe.
pub proof fn law_free_space_stays_in_gap(
    disk: Seq<char>,
    info: DiskView,
    gap_start: int,
    gap_size: int,
)
    requires
        0 <= gap_start,
        0 <= gap_size,
        free_space_fault(disk, info, gap_start, gap_size) is None,
    ensures
        inside_a_gap(info.gaps, gap_start, gap_start + gap_size),
        esp_from(info.partitions, 0) is None ==> free_root_start(info, gap_start) == gap_start
            + ESP_BYTES,
        gap_start <= free_root_start(info, gap_start),
        free_root_start(info, gap_start) + free_root_size(info, gap_size) == gap_start + gap_size,
        free_root_size(info, gap_size) >= ROOT_MIN_BYTES,
{
}

/// In whole sectors too: the ranges that the script names start no earlier
/// than the sector of the request's start, do not overlap, and end no later
/// than the request's end.
pub proof fn law_free_space_sectors(info: DiskView, gap_start: int, gap_size: int)
    requires
        info.sector > 0,
        0 <= gap_start,
        ESP_BYTES <= gap_size,
    ensures
        ({
            let s = info.sector;
            let root = free_root_start(info, gap_start) / s;
            let root_len = free_root_size(info, gap_size) / s;
            &&& gap_start / s <= root
            &&& esp_from(info.partitions, 0) is None ==> gap_start / s + ESP_BYTES as int / s <= root
            &&& (root + root_len) * s <= gap_start + gap_size
        }),
{
    let s = info.sector;
    let a = gap_start;
    let e = ESP_BYTES as int;
    let n = free_root_start(info, gap_start);
    let m = free_root_size(info, gap_size);
    lemma_floor(a, s);
    lemma_floor(e, s);
    lemma_floor(n, s);
    lemma_floor(m, s);
    vstd::arithmetic::div_mod::lemma_div_is_ordered(a, n, s);
    vstd::arithmetic::mul::lemma_mul_is_distributive_add_other_way(s, n / s, m / s);
    if esp_from(info.partitions, 0) is None {
        let q = a / s + e / s;
        vstd::arithmetic::mul::lemma_mul_is_distributive_add_other_way(s, a / s, e / s);
        assert(q <= n / s) by (nonlinear_arith)
            requires
                q * s <= n,
                n < (n / s) * s + s,
                s > 0,
        ;
    }
}

/// A quotient is rounded down.
proof fn lemma_floor(x: int, s: int)
    requires
        0 <= x,
        0 < s,
    ensures
        (x / s) * s <= x,
        x < (x / s) * s + s,
{
    vstd::arithmetic::div_mod::lemma_fundamental_div_mod(x, s);
    vstd::arithmetic::div_mod::lemma_mod_bound(x, s);
    vstd::arithmetic::mul::lemma_mul_is_commutative(s, x / s);
}

/// A custom plan whose creations pass creates every partition inside a gap
/// of the probe made after the deletions.
pub proof fn law_created_ranges_are_free(
    gaps: Seq<(int, int)>,
    actions: Seq<PartitionAction>,
    k: int,
)
    requires
        first_create_error(gaps, actions, 0) is None,
        0 <= k < actions.len(),
    ensures
        actions[k] matches PartitionAction::CreateEsp { start_bytes } ==> inside_a_gap(
            gaps,
            start_bytes as int,
            start_bytes + ESP_BYTES,
        ),
        actions[k] matches PartitionAction::CreateRoot { start_bytes, size_bytes } ==> create_size(
            gaps,
            start_bytes as int,
            size_bytes,
        ) is Some && create_size(gaps, start_bytes as int, size_bytes)->0 >= ROOT_MIN_BYTES
            && inside_a_gap(
            gaps,
            start_bytes as int,
            start_bytes + create_size(gaps, start_bytes as int, size_bytes)->0,
        ),
{
    lemma_no_create_error(gaps, actions, 0, k);
}

proof fn lemma_no_create_error(
    gaps: Seq<(int, int)>,
    actions: Seq<PartitionAction>,
    i: int,
    k: int,
)
    requires
        0 <= i <= k < actions.len(),
        first_create_error(gaps, actions, i) is None,
    ensures
        create_error(gaps, actions[k]) is None,
    decreases k - i,
{
    if i < k {
        lemma_no_create_error(gaps, actions, i + 1, k);
    }
}

/// A custom plan that starts deletes only partitions that exist and are not
/// mounted.
pub proof fn law_mounted_is_not_deleted(
    disk: Seq<char>,
    info: DiskView,
    actions: Seq<PartitionAction>,
    k: int,
)
    requires
        custom_fault(disk, info, actions) is None,
        0 <= k < actions.len(),
    ensures
        actions[k] matches PartitionAction::Delete { device } ==> path_from(
            info.partitions,
            device@,
            0,
        ) is Some && !path_from(info.partitions, device@, 0)->0.mounted,
{
    lemma_no_delete_error(disk, info.partitions, actions, 0, k);
}

proof fn lemma_no_delete_error(
    disk: Seq<char>,
    parts: Seq<PartitionView>,
    actions: Seq<PartitionAction>,
    i: int,
    k: int,
)
    requires
        0 <= i <= k < actions.len(),
        first_delete_error(disk, parts, actions, i) is None,
    ensures
        delete_error(disk, parts, actions[k]) is None,
    decreases k - i,
{
    if i < k {
        lemma_no_delete_error(disk, parts, actions, i + 1, k);
    }
}

/// A custom plan that comes to a result reuses only partitions that exist,
/// are not mounted and, for the root, are large enough.
pub proof fn law_reused_partitions_are_fit(
    parts: Seq<PartitionView>,
    actions: Seq<PartitionAction>,
    plan: CreatePlan,
    k: int,
)
    requires
        assign_outcome(parts, actions, plan) is Ok,
        0 <= k < actions.len(),
    ensures
        actions[k] matches PartitionAction::UseAsRoot { device } ==> path_from(
            parts,
            device@,
            0,
        ) is Some && !path_from(parts, device@, 0)->0.mounted && path_from(parts, device@, 0)->0.size
            >= ROOT_MIN_BYTES,
        actions[k] matches PartitionAction::UseAsEsp { device, .. } ==> path_from(
            parts,
            device@,
            0,
        ) is Some && !path_from(parts, device@, 0)->0.mounted,
{
    lemma_no_bad_use(parts, actions, 0, k);
}

proof fn lemma_no_bad_use(
    parts: Seq<PartitionView>,
    actions: Seq<PartitionAction>,
    i: int,
    k: int,
)
    requires
        0 <= i <= k < actions.len(),
        first_bad_use(parts, actions, i) >= actions.len(),
    ensures
        use_error(parts, actions[k]) is None,
    decreases k - i,
{
    if i < k {
        lemma_no_bad_use(parts, actions, i + 1, k);
    }
}

/// A plan with exactly one root and one ESP never ends with a missing
/// device: whatever the probes say, it either fails for another reason or
/// comes to a result.
pub proof fn law_valid_plans_produce_devices(
    parts: Seq<PartitionView>,
    actions: Seq<PartitionAction>,
)
    requires
        crate::install::count_roots(actions) == 1,
        crate::install::count_esps(actions) == 1,
    ensures
        ({
            let plan = CreatePlan {
                root_start: created_root(actions),
                esp_start: created_esp(actions),
            };
            locate_error(parts, plan) is None && first_bad_use(parts, actions, 0) >= actions.len()
                ==> assign_outcome(parts, actions, plan) is Ok
        }),
{
    let r = located(parts, created_root(actions));
    let e = located(parts, created_esp(actions));
    lemma_root_chosen(actions, r);
    lemma_esp_chosen(actions, e);
}

proof fn lemma_root_chosen(actions: Seq<PartitionAction>, created: Option<Seq<char>>)
    requires
        crate::install::count_roots(actions) >= 1,
    ensures
        created_root(actions) is Some || chosen_root(actions, created) is Some,
        created is Some ==> chosen_root(actions, created) is Some,
    decreases actions.len(),
{
    if !(actions.last().makes_root()) {
        lemma_root_chosen(actions.drop_last(), created);
    } else if actions.last() is CreateRoot {
        lemma_root_kept(actions, created);
    }
}

proof fn lemma_root_kept(actions: Seq<PartitionAction>, created: Option<Seq<char>>)
    ensures
        created is Some ==> chosen_root(actions, created) is Some,
    decreases actions.len(),
{
    if actions.len() > 0 {
        lemma_root_kept(actions.drop_last(), created);
    }
}

proof fn lemma_esp_chosen(actions: Seq<PartitionAction>, created: Option<Seq<char>>)
    requires
        crate::install::count_esps(actions) >= 1,
    ensures
        created_esp(actions) is Some || chosen_esp(actions, created).0 is Some,
        created is Some ==> chosen_esp(actions, created).0 is Some,
    decreases actions.len(),
{
    if !(actions.last().makes_esp()) {
        lemma_esp_chosen(actions.drop_last(), created);
    } else if actions.last() is CreateEsp {
        lemma_esp_kept(actions, created);
    }
}

proof fn lemma_esp_kept(actions: Seq<PartitionAction>, created: Option<Seq<char>>)
    ensures
        created is Some ==> chosen_esp(actions, created).0 is Some,
    decreases actions.len(),
{
    if actions.len() > 0 {
        lemma_esp_kept(actions.drop_last(), created);
    }
}

/// A refusal runs no command, at whatever stage it comes.
pub proof fn law_refusals_touch_nothing(
    disk: Seq<char>,
    plan: PartitionPlan,
    stage: StageView,
    info: DiskView,
)
    requires
        stage_of(plan, stage),
    ensures
        proceed_view(disk, plan, stage, info).1 matches RequestView::Conclude(commands, Err(_))
            ==> commands.len() == 0,
{
}

/// A custom plan is checked against the fresh probe before anything is
/// touched: where a partition that it reuses is absent, mounted or too
/// small there, the run ends without a command.
pub proof fn law_refused_plans_touch_nothing(
    disk: Seq<char>,
    plan: PartitionPlan,
    info: DiskView,
    k: int,
)
    requires
        plan is Custom,
        0 <= k < plan->actions@.len(),
        use_error(info.partitions, plan->actions@[k]) is Some,
    ensures
        proceed_view(disk, plan, StageView::CustomProbed, info).1 matches RequestView::Conclude(
            commands,
            Err(_),
        ) && commands.len() == 0,
{
    let actions = plan->actions@;
    if first_bad_use(info.partitions, actions, 0) >= actions.len() {
        lemma_no_bad_use(info.partitions, actions, 0, k);
    }
    lemma_bad_use(info.partitions, actions, 0);
}

/// The first refused reuse, where there is one, is a refused one.
proof fn lemma_bad_use(parts: Seq<PartitionView>, actions: Seq<PartitionAction>, i: int)
    requires
        0 <= i,
    ensures
        ({
            let bad = first_bad_use(parts, actions, i);
            &&& 0 <= bad <= actions.len()
            &&& bad < actions.len() ==> use_error(parts, actions[bad]) is Some
        }),
    decreases actions.len() - i,
{
    if i < actions.len() {
        lemma_bad_use(parts, actions, i + 1);
    }
}

/// The same holds of a creation that runs into a partition that stays, or
/// over the end of the disk: the run ends without a command.
pub proof fn law_blocked_plans_touch_nothing(
    disk: Seq<char>,
    plan: PartitionPlan,
    info: DiskView,
    k: int,
)
    requires
        plan is Custom,
        0 <= k < plan->actions@.len(),
        early_create_error(info, plan->actions@, plan->actions@[k]) is Some,
    ensures
        proceed_view(disk, plan, StageView::CustomProbed, info).1 matches RequestView::Conclude(
            commands,
            Err(_),
        ) && commands.len() == 0,
{
    let actions = plan->actions@;
    if first_early_error(info, actions, 0) is None {
        lemma_no_early_error(info, actions, 0, k);
    }
}

proof fn lemma_no_early_error(info: DiskView, actions: Seq<PartitionAction>, i: int, k: int)
    requires
        0 <= i <= k < actions.len(),
        first_early_error(info, actions, i) is None,
    ensures
        early_create_error(info, actions, actions[k]) is None,
    decreases k - i,
{
    if i < k {
        lemma_no_early_error(info, actions, i + 1, k);
    }
}

/// Looking ahead refuses no creation that would have gone through: whatever
/// gaps the deletions leave, as long as they lie on the disk and clear of
/// the partitions that stay, the creation would be refused there for the
/// same reason.
pub proof fn law_early_refusals_are_due(
    info: DiskView,
    gaps: Seq<(int, int)>,
    actions: Seq<PartitionAction>,
    a: PartitionAction,
)
    requires
        early_create_error(info, actions, a) is Some,
        forall|i: int, j: int|
            0 <= i < gaps.len() && 0 <= j < info.partitions.len() && !deleted_from(
                actions,
                info.partitions[j].path,
                0,
            ) ==> (#[trigger] gaps[i]).0 + gaps[i].1 <= (
            #[trigger] info.partitions[j]).start || info.partitions[j].start
                + info.partitions[j].size <= gaps[i].0,
        forall|i: int| 0 <= i < gaps.len() ==> (#[trigger] gaps[i]).0 + gaps[i].1 <= info.size,
    ensures
        create_error(gaps, a) == early_create_error(info, actions, a),
{
    match a {
        PartitionAction::CreateRoot { start_bytes, size_bytes: None } => {
            lemma_gap_at(gaps, start_bytes as int, 0);
        },
        _ => {},
    }
}

/// A gap that holds a position is one of the gaps.
proof fn lemma_gap_at(gaps: Seq<(int, int)>, start: int, i: int)
    requires
        0 <= i,
    ensures
        gap_at(gaps, start, i) matches Some(g) ==> exists|j: int|
            0 <= j < gaps.len() && #[trigger] gaps[j] == g && g.0 <= start < g.0 + g.1,
    decreases gaps.len() - i,
{
    if i < gaps.len() {
        lemma_gap_at(gaps, start, i + 1);
    }
}

/// Reuses that the first probe let through are refused later only if the
/// disk changed: as long as the partitions that the plan reuses are found
/// as they were, no reuse is refused.
pub proof fn law_checked_reuses_stay_fit(
    disk: Seq<char>,
    before: DiskView,
    after: DiskView,
    actions: Seq<PartitionAction>,
)
    requires
        custom_fault(disk, before, actions) is None,
        forall|k: int|
            0 <= k < actions.len() ==> (#[trigger] actions[k] matches PartitionAction::UseAsRoot {
                device,
            } ==> path_from(after.partitions, device@, 0) == path_from(
                before.partitions,
                device@,
                0,
            )),
        forall|k: int|
            0 <= k < actions.len() ==> (#[trigger] actions[k] matches PartitionAction::UseAsEsp {
                device,
                ..
            } ==> path_from(after.partitions, device@, 0) == path_from(
                before.partitions,
                device@,
                0,
            )),
    ensures
        first_use_error(after.partitions, actions) is None,
{
    lemma_bad_use(before.partitions, actions, 0);
    lemma_bad_use(after.partitions, actions, 0);
    let bad = first_bad_use(after.partitions, actions, 0);
    if bad < actions.len() {
        lemma_no_bad_use(before.partitions, actions, 0, bad);
    }
}

/// A free-space plan only ever adds partitions: no other command of it
/// changes the disk.
pub proof fn law_free_space_only_adds(
    disk: Seq<char>,
    plan: PartitionPlan,
    stage: StageView,
    info: DiskView,
    k: int,
)
    requires
        plan is FreeSpace,
        stage_of(plan, stage),
    ensures
        match proceed_view(disk, plan, stage, info).1 {
            RequestView::Probe(commands) => 0 <= k < commands.len() ==> commands[k]
                == settle_command() || (commands[k].program == "sfdisk"@ && commands[k].args
                == seq!["--append"@, disk]),
            RequestView::Conclude(commands, _) => commands.len() == 0,
        },
{
}

/// Partitions without an action are left alone: what is deleted was named
/// by a deletion.
pub proof fn law_only_named_partitions_are_deleted(
    parts: Seq<PartitionView>,
    actions: Seq<PartitionAction>,
    n: int,
)
    requires
        0 <= n < delete_numbers(parts, actions).len(),
    ensures
        exists|k: int|
            0 <= k < actions.len() && is_deletion_of(
                #[trigger] actions[k],
                parts,
                delete_numbers(parts, actions)[n],
            ),
    decreases actions.len(),
{
    let front = delete_numbers(parts, actions.drop_last());
    if n < front.len() {
        law_only_named_partitions_are_deleted(parts, actions.drop_last(), n);
        let k = choose|k: int|
            0 <= k < actions.drop_last().len() && is_deletion_of(
                #[trigger] actions.drop_last()[k],
                parts,
                front[n],
            );
        assert(actions[k] == actions.drop_last()[k]);
    } else {
        assert(is_deletion_of(
            actions[actions.len() - 1],
            parts,
            delete_numbers(parts, actions)[n],
        ));
    }
}

/// The action deletes the partition that has this number.
pub open spec fn is_deletion_of(
    a: PartitionAction,
    parts: Seq<PartitionView>,
    number: Seq<char>,
) -> bool {
    match a {
        PartitionAction::Delete { device } => path_from(parts, device@, 0) is Some && number
            == decimal(path_from(parts, device@, 0)->0.number as nat),
        _ => false,
    }
}

/// Partitions without an action are left alone: what is stamped or wiped
/// belongs to an action that reuses it.
pub proof fn law_only_named_partitions_are_reused(
    disk: Seq<char>,
    parts: Seq<PartitionView>,
    actions: Seq<PartitionAction>,
    n: int,
)
    requires
        0 <= n < all_use_commands(disk, parts, actions).len(),
    ensures
        exists|k: int|
            0 <= k < actions.len() && use_commands(disk, parts, #[trigger] actions[k]).contains(
                all_use_commands(disk, parts, actions)[n],
            ),
    decreases actions.len(),
{
    let front = all_use_commands(disk, parts, actions.drop_last());
    let last = use_commands(disk, parts, actions.last());
    if n < front.len() {
        law_only_named_partitions_are_reused(disk, parts, actions.drop_last(), n);
        let k = choose|k: int|
            0 <= k < actions.drop_last().len() && use_commands(
                disk,
                parts,
                #[trigger] actions.drop_last()[k],
            ).contains(front[n]);
        assert(actions[k] == actions.drop_last()[k]);
    } else {
        assert(last[n - front.len()] == all_use_commands(disk, parts, actions)[n]);
        assert(use_commands(disk, parts, actions[actions.len() - 1]).contains(
            all_use_commands(disk, parts, actions)[n],
        ));
    }
}

// ---------- what is looked up ----------

/// The partition at `i` is the first with this path.
pub open spec fn first_at_path(parts: Seq<PartitionView>, device: Seq<char>, i: int) -> bool {
    &&& 0 <= i < parts.len() && same_path(parts[i].path, device)
    &&& forall|j: int| 0 <= j < i ==> !same_path((#[trigger] parts[j]).path, device)
}

proof fn lemma_path_from(parts: Seq<PartitionView>, device: Seq<char>, i: int)
    requires
        0 <= i <= parts.len(),
    ensures
        match path_from(parts, device, i) {
            Some(p) => exists|k: int|
                i <= k < parts.len() && #[trigger] parts[k] == p && same_path(p.path, device)
                    && forall|j: int| i <= j < k ==> !same_path((#[trigger] parts[j]).path, device),
            None => forall|k: int|
                i <= k < parts.len() ==> !same_path((#[trigger] parts[k]).path, device),
        },
    decreases parts.len() - i,
{
    if i < parts.len() {
        if same_path(parts[i].path, device) {
            assert(parts[i] == path_from(parts, device, i)->0);
        } else {
            lemma_path_from(parts, device, i + 1);
            if path_from(parts, device, i + 1) is Some {
                let p = path_from(parts, device, i + 1)->0;
                let k = choose|k: int|
                    i + 1 <= k < parts.len() && #[trigger] parts[k] == p && same_path(
                        p.path,
                        device,
                    ) && forall|j: int|
                        i + 1 <= j < k ==> !same_path((#[trigger] parts[j]).path, device);
                assert(parts[k] == p);
            }
        }
    }
}

/// A device is looked up by its path: what comes back is the first
/// partition with this path, and nothing only where there is none.
pub proof fn law_devices_are_found_by_path(parts: Seq<PartitionView>, device: Seq<char>, i: int)
    ensures
        first_at_path(parts, device, i) ==> path_from(parts, device, 0) == Some(parts[i]),
        path_from(parts, device, 0) is None <==> forall|k: int|
            0 <= k < parts.len() ==> !same_path((#[trigger] parts[k]).path, device),
        path_from(parts, device, 0) matches Some(p) ==> same_path(p.path, device)
            && parts.contains(p),
{
    lemma_path_from(parts, device, 0);
    if path_from(parts, device, 0) is Some {
        let p = path_from(parts, device, 0)->0;
        let k = choose|k: int|
            0 <= k < parts.len() && #[trigger] parts[k] == p && same_path(p.path, device)
                && forall|j: int| 0 <= j < k ==> !same_path((#[trigger] parts[j]).path, device);
        assert(parts[k] == p);
        if first_at_path(parts, device, i) {
            if i < k {
                assert(!same_path(parts[i].path, device));
            } else if k < i {
                assert(!same_path(parts[k].path, device));
            }
        }
    } else if first_at_path(parts, device, i) {
        assert(!same_path(parts[i].path, device));
    }
}

/// A new partition is found by its start: what comes back is the path of a
/// partition that starts there, the first of them, and nothing only where
/// there is none.
pub proof fn law_partitions_are_found_by_start(parts: Seq<PartitionView>, start: int, from: int)
    requires
        0 <= from <= parts.len(),
    ensures
        start_from(parts, start, from) is None <==> forall|k: int|
            from <= k < parts.len() ==> (#[trigger] parts[k]).start != start,
        start_from(parts, start, from) matches Some(path) ==> exists|k: int|
            from <= k < parts.len() && (#[trigger] parts[k]).start == start && parts[k].path == path
                && forall|j: int| from <= j < k ==> (#[trigger] parts[j]).start != start,
    decreases parts.len() - from,
{
    if from < parts.len() {
        if parts[from].start == start {
            assert(start_from(parts, start, from) == Some(parts[from].path));
        } else {
            law_partitions_are_found_by_start(parts, start, from + 1);
            if start_from(parts, start, from + 1) is Some {
                let path = start_from(parts, start, from + 1)->0;
                let k = choose|k: int|
                    from + 1 <= k < parts.len() && (#[trigger] parts[k]).start == start
                        && parts[k].path == path && forall|j: int|
                        from + 1 <= j < k ==> (#[trigger] parts[j]).start != start;
                assert(parts[k].start == start);
            }
        }
    }
}

/// The partition is an EFI system partition.
pub open spec fn is_efi(p: PartitionView) -> bool {
    p.part_type == Some("c12a7328-f81f-11d2-ba4b-00a0c93ec93b"@)
}

/// The ESP of a disk is the first partition that is one.
pub proof fn law_the_first_esp_is_found(parts: Seq<PartitionView>, from: int)
    requires
        0 <= from <= parts.len(),
    ensures
        esp_from(parts, from) is None <==> forall|k: int|
            from <= k < parts.len() ==> !is_efi(#[trigger] parts[k]),
        esp_from(parts, from) matches Some(path) ==> exists|k: int|
            from <= k < parts.len() && is_efi(#[trigger] parts[k]) && parts[k].path == path
                && forall|j: int| from <= j < k ==> !is_efi(#[trigger] parts[j]),
    decreases parts.len() - from,
{
    if from < parts.len() {
        if is_efi(parts[from]) {
            assert(esp_from(parts, from) == Some(parts[from].path));
        } else {
            law_the_first_esp_is_found(parts, from + 1);
            if esp_from(parts, from + 1) is Some {
                let path = esp_from(parts, from + 1)->0;
                let k = choose|k: int|
                    from + 1 <= k < parts.len() && is_efi(#[trigger] parts[k]) && parts[k].path
                        == path && forall|j: int|
                        from + 1 <= j < k ==> !is_efi(#[trigger] parts[j]);
                assert(is_efi(parts[k]));
            }
        }
    }
}

// ---------- what a script says ----------

/// The script is this line, with whole lines before it and the rest after it.
pub open spec fn line_between(
    script: Seq<char>,
    front: Seq<char>,
    line: Seq<char>,
    back: Seq<char>,
) -> bool {
    &&& script == front + line + seq!['\n'] + back
    &&& front.len() == 0 || front.last() == '\n'
}

/// The text stands in the script as a line of its own.
pub open spec fn holds_line(script: Seq<char>, line: Seq<char>) -> bool {
    exists|front: Seq<char>, back: Seq<char>| line_between(script, front, line, back)
}

/// What a script says of a new root: where it starts and how long it is, in
/// sectors.
pub open spec fn root_text(start: int, size: int, sector: int) -> Seq<char> {
    "start="@ + decimal((start / sector) as nat) + ", size="@ + decimal((size / sector) as nat)
        + ", type=4f68bce3-e8cd-4db1-96e7-fbcaf984b709, name=root"@
}

/// What a script says of a new ESP, which is 512 MiB long.
pub open spec fn esp_text(start: int, sector: int) -> Seq<char> {
    "start="@ + decimal((start / sector) as nat) + ", size="@ + decimal(
        (536870912int / sector) as nat,
    ) + ", type=uefi, name=ESP"@
}

proof fn lemma_line_texts(start: int, size: int, sector: int)
    ensures
        root_line(start, size, sector) == root_text(start, size, sector) + seq!['\n'],
        esp_line(start, sector) == esp_text(start, sector) + seq!['\n'],
{
    reveal_strlit(", type=4f68bce3-e8cd-4db1-96e7-fbcaf984b709, name=root\n");
    reveal_strlit(", type=4f68bce3-e8cd-4db1-96e7-fbcaf984b709, name=root");
    reveal_strlit(", type=uefi, name=ESP\n");
    reveal_strlit(", type=uefi, name=ESP");
    assert(", type=4f68bce3-e8cd-4db1-96e7-fbcaf984b709, name=root\n"@
        =~= ", type=4f68bce3-e8cd-4db1-96e7-fbcaf984b709, name=root"@ + seq!['\n']);
    assert(", type=uefi, name=ESP\n"@ =~= ", type=uefi, name=ESP"@ + seq!['\n']);
    assert(root_line(start, size, sector) =~= root_text(start, size, sector) + seq!['\n']);
    assert(esp_line(start, sector) =~= esp_text(start, sector) + seq!['\n']);
}

/// A script ends where a line ends.
proof fn lemma_script_ends(gaps: Seq<(int, int)>, sector: int, actions: Seq<PartitionAction>)
    ensures
        ({
            let s = create_script(gaps, sector, actions);
            s.len() == 0 || s.last() == '\n'
        }),
    decreases actions.len(),
{
    if actions.len() > 0 {
        lemma_script_ends(gaps, sector, actions.drop_last());
        match actions.last() {
            PartitionAction::CreateRoot { start_bytes, size_bytes } => {
                lemma_line_texts(
                    start_bytes as int,
                    create_size(gaps, start_bytes as int, size_bytes)->0,
                    sector,
                );
            },
            PartitionAction::CreateEsp { start_bytes } => {
                lemma_line_texts(start_bytes as int, 0, sector);
            },
            _ => {},
        }
    }
}

/// A line that is in a script is in every longer one.
proof fn lemma_line_kept(script: Seq<char>, line: Seq<char>, more: Seq<char>)
    requires
        holds_line(script, line),
    ensures
        holds_line(script + more, line),
{
    let (front, back) = choose|front: Seq<char>, back: Seq<char>|
        line_between(script, front, line, back);
    assert(script + more =~= front + line + seq!['\n'] + (back + more));
    assert(line_between(script + more, front, line, back + more));
}

proof fn lemma_line_added(script: Seq<char>, line: Seq<char>)
    requires
        script.len() == 0 || script.last() == '\n',
    ensures
        holds_line(script + (line + seq!['\n']), line),
{
    let back = Seq::<char>::empty();
    assert(script + (line + seq!['\n']) =~= script + line + seq!['\n'] + back);
    assert(line_between(script + (line + seq!['\n']), script, line, back));
}

/// The position lies in the gap, and in no gap before it.
pub open spec fn first_gap_at(gaps: Seq<(int, int)>, start: int, i: int) -> bool {
    &&& 0 <= i < gaps.len() && gaps[i].0 <= start < gaps[i].0 + gaps[i].1
    &&& forall|j: int|
        0 <= j < i ==> !((#[trigger] gaps[j]).0 <= start < gaps[j].0 + gaps[j].1)
}

proof fn lemma_first_gap(gaps: Seq<(int, int)>, start: int, from: int, i: int)
    requires
        0 <= from <= gaps.len(),
        from <= i,
        first_gap_at(gaps, start, i),
    ensures
        gap_at(gaps, start, from) == Some(gaps[i]),
    decreases gaps.len() - from,
{
    if from < i {
        lemma_first_gap(gaps, start, from + 1, i);
    }
}

proof fn lemma_gap_found(gaps: Seq<(int, int)>, start: int, from: int) -> (i: int)
    requires
        0 <= from <= gaps.len(),
        gap_at(gaps, start, from) is Some,
    ensures
        from <= i < gaps.len(),
        gap_at(gaps, start, from) == Some(gaps[i]),
        gaps[i].0 <= start < gaps[i].0 + gaps[i].1,
        forall|j: int| from <= j < i ==> !((#[trigger] gaps[j]).0 <= start < gaps[j].0 + gaps[j].1),
    decreases gaps.len() - from,
{
    if gaps[from].0 <= start < gaps[from].0 + gaps[from].1 {
        from
    } else {
        lemma_gap_found(gaps, start, from + 1)
    }
}

proof fn lemma_script_line(
    gaps: Seq<(int, int)>,
    sector: int,
    actions: Seq<PartitionAction>,
    k: int,
)
    requires
        0 <= k < actions.len(),
    ensures
        actions[k] matches PartitionAction::CreateRoot { start_bytes, size_bytes } ==> holds_line(
            create_script(gaps, sector, actions),
            root_text(
                start_bytes as int,
                create_size(gaps, start_bytes as int, size_bytes)->0,
                sector,
            ),
        ),
        actions[k] matches PartitionAction::CreateEsp { start_bytes } ==> holds_line(
            create_script(gaps, sector, actions),
            esp_text(start_bytes as int, sector),
        ),
    decreases actions.len(),
{
    let front = create_script(gaps, sector, actions.drop_last());
    let line = create_line(gaps, sector, actions.last());
    if k < actions.len() - 1 {
        lemma_script_line(gaps, sector, actions.drop_last(), k);
        assert(actions.drop_last()[k] == actions[k]);
        match actions[k] {
            PartitionAction::CreateRoot { start_bytes, size_bytes } => {
                lemma_line_kept(
                    front,
                    root_text(
                        start_bytes as int,
                        create_size(gaps, start_bytes as int, size_bytes)->0,
                        sector,
                    ),
                    line,
                );
            },
            PartitionAction::CreateEsp { start_bytes } => {
                lemma_line_kept(front, esp_text(start_bytes as int, sector), line);
            },
            _ => {},
        }
    } else {
        lemma_script_ends(gaps, sector, actions.drop_last());
        match actions[k] {
            PartitionAction::CreateRoot { start_bytes, size_bytes } => {
                let size = create_size(gaps, start_bytes as int, size_bytes)->0;
                lemma_line_texts(start_bytes as int, size, sector);
                lemma_line_added(front, root_text(start_bytes as int, size, sector));
            },
            PartitionAction::CreateEsp { start_bytes } => {
                lemma_line_texts(start_bytes as int, 0, sector);
                lemma_line_added(front, esp_text(start_bytes as int, sector));
            },
            _ => {},
        }
    }
}

/// The command hands a script for new partitions on the disk to `sfdisk`.
pub open spec fn appends(c: CommandView, disk: Seq<char>) -> bool {
    c.program == "sfdisk"@ && c.args == seq!["--append"@, disk] && c.stdin is Some
}

/// Every partition that an accepted plan creates is in the script as it was
/// asked for: a root of a stated size is exactly that long, one without a
/// size runs to the end of the gap that its start lies in, and an ESP is
/// 512 MiB long. No root is smaller than 8 GiB. The range is the one that was found free, and the script is
/// for this disk.
pub proof fn law_partitions_are_created_as_requested(
    disk: Seq<char>,
    plan: PartitionPlan,
    sector_size: u64,
    info: DiskView,
    k: int,
)
    requires
        plan is Custom,
        sector_size > 0,
        0 <= k < plan->actions@.len(),
        proceed_view(disk, plan, StageView::CustomDeleted { sector_size }, info).1 is Probe,
    ensures
        ({
            let commands = proceed_view(
                disk,
                plan,
                StageView::CustomDeleted { sector_size },
                info,
            ).1->Probe_0;
            let script = commands[0].stdin->0;
            let sector = sector_size as int;
            match plan->actions@[k] {
                PartitionAction::CreateRoot { start_bytes, size_bytes: Some(size) } => {
                    &&& commands.len() == 2 && appends(commands[0], disk)
                    &&& holds_line(script, root_text(start_bytes as int, size as int, sector))
                    &&& size >= 8589934592
                    &&& exists|i: int|
                        0 <= i < info.gaps.len() && (#[trigger] info.gaps[i]).0 <= start_bytes
                            && start_bytes + size <= info.gaps[i].0 + info.gaps[i].1
                },
                PartitionAction::CreateRoot { start_bytes, size_bytes: None } => {
                    &&& commands.len() == 2 && appends(commands[0], disk)
                    &&& exists|i: int|
                        #![trigger info.gaps[i]]
                        first_gap_at(info.gaps, start_bytes as int, i) && holds_line(
                            script,
                            root_text(
                                start_bytes as int,
                                info.gaps[i].0 + info.gaps[i].1 - start_bytes,
                                sector,
                            ),
                        ) && info.gaps[i].0 + info.gaps[i].1 - start_bytes >= 8589934592
                },
                PartitionAction::CreateEsp { start_bytes } => {
                    &&& commands.len() == 2 && appends(commands[0], disk)
                    &&& holds_line(script, esp_text(start_bytes as int, sector))
                    &&& exists|i: int|
                        0 <= i < info.gaps.len() && (#[trigger] info.gaps[i]).0 <= start_bytes
                            && start_bytes + 536870912 <= info.gaps[i].0 + info.gaps[i].1
                },
                _ => true,
            }
        }),
{
    let actions = plan->actions@;
    let sector = sector_size as int;
    let script = create_script(info.gaps, sector, actions);
    lemma_no_create_error(info.gaps, actions, 0, k);
    lemma_script_line(info.gaps, sector, actions, k);
    match actions[k] {
        PartitionAction::CreateRoot { start_bytes, size_bytes } => {
            let size = create_size(info.gaps, start_bytes as int, size_bytes)->0;
            let line = root_text(start_bytes as int, size, sector);
            lemma_held_line(script, line);
            if size_bytes is None {
                let i = lemma_gap_found(info.gaps, start_bytes as int, 0);
                assert(first_gap_at(info.gaps, start_bytes as int, i));
            }
        },
        PartitionAction::CreateEsp { start_bytes } => {
            lemma_held_line(script, esp_text(start_bytes as int, sector));
        },
        _ => {},
    }
}

proof fn lemma_held_line(script: Seq<char>, line: Seq<char>)
    requires
        holds_line(script, line),
    ensures
        script.len() > 0,
{
}

/// A script says no more than the plan: one line for each partition that is
/// created, in the order of the actions, and none for the others. Without
/// any, there is nothing to run.
pub proof fn law_scripts_hold_one_line_per_creation(
    gaps: Seq<(int, int)>,
    sector: int,
    actions: Seq<PartitionAction>,
    a: PartitionAction,
    disk: Seq<char>,
)
    ensures
        create_script(gaps, sector, Seq::empty()).len() == 0,
        create_plan(disk, create_script(gaps, sector, Seq::empty())).len() == 0,
        a is Delete || a is UseAsRoot || a is UseAsEsp ==> create_script(
            gaps,
            sector,
            actions.push(a),
        ) == create_script(gaps, sector, actions),
        a matches PartitionAction::CreateEsp { start_bytes } ==> create_script(
            gaps,
            sector,
            actions.push(a),
        ) == create_script(gaps, sector, actions) + esp_text(start_bytes as int, sector) + seq![
            '\n',
        ],
        a matches PartitionAction::CreateRoot { start_bytes, size_bytes: Some(size) }
            ==> create_script(gaps, sector, actions.push(a)) == create_script(gaps, sector, actions)
            + root_text(start_bytes as int, size as int, sector) + seq!['\n'],
{
    let front = create_script(gaps, sector, actions);
    let all = create_script(gaps, sector, actions.push(a));
    assert(actions.push(a).drop_last() =~= actions);
    assert(front + Seq::empty() =~= front);
    match a {
        PartitionAction::CreateRoot { start_bytes, size_bytes: Some(size) } => {
            lemma_line_texts(start_bytes as int, size as int, sector);
            assert(all =~= front + root_text(start_bytes as int, size as int, sector) + seq!['\n']);
        },
        PartitionAction::CreateEsp { start_bytes } => {
            lemma_line_texts(start_bytes as int, 0, sector);
            assert(all =~= front + esp_text(start_bytes as int, sector) + seq!['\n']);
        },
        _ => {},
    }
}

/// Creations that fit are never refused: a plan goes on when every root of a
/// stated size is large enough and lies in one of the gaps, every root
/// without one has enough room to the end of the only gap around its start,
/// and every ESP lies in one of the gaps, whatever their places in the list.
pub proof fn law_fitting_creations_are_accepted(
    disk: Seq<char>,
    plan: PartitionPlan,
    sector_size: u64,
    info: DiskView,
)
    requires
        plan is Custom,
        forall|k: int|
            0 <= k < plan->actions@.len() ==> fits_in_a_gap(info.gaps, #[trigger] plan->actions@[k]),
    ensures
        ({
            let next = proceed_view(disk, plan, StageView::CustomDeleted { sector_size }, info);
            &&& next.1 is Probe
            &&& next.0 is Some && next.0->0 is CustomCreated
        }),
{
    lemma_creations_fit(info.gaps, plan->actions@, 0);
}

/// What the action creates, if anything, is large enough and lies in a gap.
pub open spec fn fits_in_a_gap(gaps: Seq<(int, int)>, a: PartitionAction) -> bool {
    match a {
        PartitionAction::CreateRoot { start_bytes, size_bytes: Some(size) } => size
            >= 8589934592 && exists|i: int|
            0 <= i < gaps.len() && (#[trigger] gaps[i]).0 <= start_bytes && start_bytes + size
                <= gaps[i].0 + gaps[i].1,
        PartitionAction::CreateRoot { start_bytes, size_bytes: None } => exists|i: int|
            #![trigger gaps[i]]
            first_gap_at(gaps, start_bytes as int, i) && gaps[i].0 + gaps[i].1 - start_bytes
                >= 8589934592,
        PartitionAction::CreateEsp { start_bytes } => exists|i: int|
            0 <= i < gaps.len() && (#[trigger] gaps[i]).0 <= start_bytes && start_bytes + 536870912
                <= gaps[i].0 + gaps[i].1,
        _ => true,
    }
}

proof fn lemma_creations_fit(gaps: Seq<(int, int)>, actions: Seq<PartitionAction>, i: int)
    requires
        0 <= i <= actions.len(),
        forall|k: int|
            0 <= k < actions.len() ==> fits_in_a_gap(gaps, #[trigger] actions[k]),
    ensures
        first_create_error(gaps, actions, i) is None,
    decreases actions.len() - i,
{
    if i < actions.len() {
        lemma_creations_fit(gaps, actions, i + 1);
        let a = actions[i];
        assert(fits_in_a_gap(gaps, a));
        match a {
            PartitionAction::CreateRoot { start_bytes, size_bytes: None } => {
                let j = choose|j: int|
                    #![trigger gaps[j]]
                    first_gap_at(gaps, start_bytes as int, j) && gaps[j].0 + gaps[j].1
                        - start_bytes >= 8589934592;
                lemma_first_gap(gaps, start_bytes as int, 0, j);
                assert(gaps[j].0 <= start_bytes);
            },
            _ => {},
        }
    }
}

/// Where the new partitions of a plan are looked for is where they were
/// asked for.
pub proof fn law_created_starts_are_remembered(
    disk: Seq<char>,
    plan: PartitionPlan,
    sector_size: u64,
    info: DiskView,
    k: int,
)
    requires
        plan is Custom,
        0 <= k < plan->actions@.len(),
        proceed_view(disk, plan, StageView::CustomDeleted { sector_size }, info).0 is Some,
    ensures
        ({
            let stage = proceed_view(
                disk,
                plan,
                StageView::CustomDeleted { sector_size },
                info,
            ).0->0;
            let actions = plan->actions@;
            &&& stage is CustomCreated
            &&& actions[k] is CreateRoot && (forall|j: int|
                k < j < actions.len() ==> !((#[trigger] actions[j]) is CreateRoot))
                ==> stage->CustomCreated_0.root_start == Some(actions[k]->CreateRoot_start_bytes)
            &&& actions[k] is CreateEsp && (forall|j: int|
                k < j < actions.len() ==> !((#[trigger] actions[j]) is CreateEsp))
                ==> stage->CustomCreated_0.esp_start == Some(actions[k]->CreateEsp_start_bytes)
            &&& (forall|j: int| 0 <= j < actions.len() ==> !((#[trigger] actions[j]) is CreateRoot))
                ==> stage->CustomCreated_0.root_start is None
            &&& (forall|j: int| 0 <= j < actions.len() ==> !((#[trigger] actions[j]) is CreateEsp))
                ==> stage->CustomCreated_0.esp_start is None
        }),
{
    lemma_created_starts(plan->actions@, k);
}

proof fn lemma_created_starts(actions: Seq<PartitionAction>, k: int)
    ensures
        0 <= k < actions.len() && actions[k] is CreateRoot && (forall|j: int|
            k < j < actions.len() ==> !((#[trigger] actions[j]) is CreateRoot)) ==> created_root(
            actions,
        ) == Some(actions[k]->CreateRoot_start_bytes),
        0 <= k < actions.len() && actions[k] is CreateEsp && (forall|j: int|
            k < j < actions.len() ==> !((#[trigger] actions[j]) is CreateEsp)) ==> created_esp(
            actions,
        ) == Some(actions[k]->CreateEsp_start_bytes),
        (forall|j: int| 0 <= j < actions.len() ==> !((#[trigger] actions[j]) is CreateRoot))
            ==> created_root(actions) is None,
        (forall|j: int| 0 <= j < actions.len() ==> !((#[trigger] actions[j]) is CreateEsp))
            ==> created_esp(actions) is None,
    decreases actions.len(),
{
    if actions.len() > 0 {
        let front = actions.drop_last();
        lemma_created_starts(front, k);
        assert(actions[actions.len() - 1] == actions.last());
        assert(forall|j: int| 0 <= j < front.len() ==> front[j] == #[trigger] actions[j]);
        if forall|j: int| 0 <= j < actions.len() ==> !((#[trigger] actions[j]) is CreateRoot) {
            assert(forall|j: int| 0 <= j < front.len() ==> !((#[trigger] front[j]) is CreateRoot));
        }
        if forall|j: int| 0 <= j < actions.len() ==> !((#[trigger] actions[j]) is CreateEsp) {
            assert(forall|j: int| 0 <= j < front.len() ==> !((#[trigger] front[j]) is CreateEsp));
        }
        if 0 <= k < front.len() {
            if actions[k] is CreateRoot && (forall|j: int|
                k < j < actions.len() ==> !((#[trigger] actions[j]) is CreateRoot)) {
                assert(forall|j: int|
                    k < j < front.len() ==> !((#[trigger] front[j]) is CreateRoot));
            }
            if actions[k] is CreateEsp && (forall|j: int|
                k < j < actions.len() ==> !((#[trigger] actions[j]) is CreateEsp)) {
                assert(forall|j: int|
                    k < j < front.len() ==> !((#[trigger] front[j]) is CreateEsp));
            }
        }
    }
}

// ---------- free space ----------

/// What is left for the root in a range, which has to be 8 GiB: all of it where the disk has an
/// ESP, else what is behind a new one of 512 MiB.
pub open spec fn root_share(info: DiskView, size: int) -> int {
    if exists|k: int| 0 <= k < info.partitions.len() && is_efi(#[trigger] info.partitions[k]) {
        size
    } else {
        size - 536870912
    }
}

/// A free-space request that fits is never refused: on a GPT disk, one that
/// lies inside any of the gaps, whatever its place in the list, and leaves
/// enough for the root goes ahead. What is added is the root, of all that is
/// left, behind an ESP exactly where the disk has none.
pub proof fn law_fitting_free_space_is_used(
    disk: Seq<char>,
    plan: PartitionPlan,
    info: DiskView,
    i: int,
)
    requires
        plan is FreeSpace,
        info.table == Some("gpt"@),
        0 <= i < info.gaps.len(),
        info.gaps[i].0 <= plan->gap_start_bytes,
        plan->gap_start_bytes + plan->gap_size_bytes <= info.gaps[i].0 + info.gaps[i].1,
        root_share(info, plan->gap_size_bytes as int) >= 8589934592,
    ensures
        ({
            let next = proceed_view(disk, plan, StageView::FreeProbed, info);
            let commands = next.1->Probe_0;
            let start = plan->gap_start_bytes as int;
            let size = plan->gap_size_bytes as int;
            let root = start + size - root_share(info, size);
            &&& next.0 is Some && next.1 is Probe
            &&& commands.len() == 2 && appends(commands[0], disk)
            &&& commands[1].program == "udevadm"@ && commands[1].args == seq!["settle"@]
            &&& root_share(info, size) == size ==> commands[0].stdin->0 == root_text(
                start,
                size,
                info.sector,
            ) + seq!['\n']
            &&& root_share(info, size) != size ==> commands[0].stdin->0 == esp_text(
                start,
                info.sector,
            ) + seq!['\n'] + root_text(root, root_share(info, size), info.sector) + seq!['\n']
        }),
{
    let start = plan->gap_start_bytes as int;
    let size = plan->gap_size_bytes as int;
    law_the_first_esp_is_found(info.partitions, 0);
    assert(inside_a_gap(info.gaps, start, start + size));
    lemma_line_texts(start, size, info.sector);
    lemma_line_texts(start + ESP_BYTES, size - ESP_BYTES, info.sector);
    let script = free_space_script(info, start, size);
    if root_share(info, size) == size {
        assert(script =~= root_text(start, size, info.sector) + seq!['\n']);
    } else {
        assert(script =~= esp_text(start, info.sector) + seq!['\n'] + root_text(
            start + ESP_BYTES,
            size - ESP_BYTES,
            info.sector,
        ) + seq!['\n']);
    }
}

/// A free-space request that does not fit is refused: without a GPT, outside
/// every gap, or with too little left for the root.
pub proof fn law_unfit_free_space_is_refused(disk: Seq<char>, plan: PartitionPlan, info: DiskView)
    requires
        plan is FreeSpace,
        info.table != Some("gpt"@) || root_share(info, plan->gap_size_bytes as int) < 8589934592
            || forall|i: int|
            0 <= i < info.gaps.len() ==> (#[trigger] info.gaps[i]).0 > plan->gap_start_bytes
                || plan->gap_start_bytes + plan->gap_size_bytes > info.gaps[i].0 + info.gaps[i].1,
    ensures
        proceed_view(disk, plan, StageView::FreeProbed, info).1 matches RequestView::Conclude(
            commands,
            Err(_),
        ) && commands.len() == 0,
{
    law_the_first_esp_is_found(info.partitions, 0);
}

/// A free-space install comes to the partitions that it made: the root is
/// the one that starts where the script said, and the ESP is the one that
/// the disk had, kept as it is, or else the new one, which gets formatted.
/// There is no separate boot partition.
pub proof fn law_free_space_comes_to_its_partitions(
    disk: Seq<char>,
    plan: PartitionPlan,
    before: DiskView,
    after: DiskView,
)
    requires
        plan is FreeSpace,
        plan->gap_start_bytes + plan->gap_size_bytes <= u64::MAX,
        proceed_view(disk, plan, StageView::FreeProbed, before).0 is Some,
    ensures
        ({
            let stage = proceed_view(disk, plan, StageView::FreeProbed, before).0->0;
            let end = proceed_view(disk, plan, stage, after);
            let start = plan->gap_start_bytes as int;
            let size = plan->gap_size_bytes as int;
            let root = start + size - root_share(before, size);
            &&& end.0 is None
            &&& end.1 matches RequestView::Conclude(commands, outcome) && commands.len() == 0 && (
            outcome matches Ok(set) ==> {
                &&& set.boot is None
                &&& exists|k: int|
                    0 <= k < after.partitions.len() && (#[trigger] after.partitions[k]).start == root
                        && after.partitions[k].path == set.root
                &&& root_share(before, size) == size ==> !set.format_esp && exists|k: int|
                    0 <= k < before.partitions.len() && is_efi(#[trigger] before.partitions[k])
                        && before.partitions[k].path == set.esp
                &&& root_share(before, size) != size ==> set.format_esp && exists|k: int|
                    0 <= k < after.partitions.len() && (#[trigger] after.partitions[k]).start
                        == start && after.partitions[k].path == set.esp
            }) && ((exists|k: int|
                0 <= k < after.partitions.len() && (#[trigger] after.partitions[k]).start == root)
                && (root_share(before, size) == size || exists|k: int|
                0 <= k < after.partitions.len() && (#[trigger] after.partitions[k]).start == start)
                ==> outcome is Ok)
        }),
{
    let start = plan->gap_start_bytes as int;
    let size = plan->gap_size_bytes as int;
    let root = start + size - root_share(before, size);
    law_the_first_esp_is_found(before.partitions, 0);
    law_partitions_are_found_by_start(after.partitions, root, 0);
    law_partitions_are_found_by_start(after.partitions, start, 0);
}

// ---------- whole plans ----------

/// The partition is deleted by one of the actions.
pub open spec fn is_deleted(actions: Seq<PartitionAction>, path: Seq<char>) -> bool {
    exists|m: int|
        0 <= m < actions.len() && (#[trigger] actions[m]) is Delete && same_path(
            path,
            actions[m]->Delete_device@,
        )
}

proof fn lemma_deleted_from(actions: Seq<PartitionAction>, path: Seq<char>, i: int)
    requires
        0 <= i <= actions.len(),
    ensures
        deleted_from(actions, path, i) <==> exists|m: int|
            i <= m < actions.len() && (#[trigger] actions[m]) is Delete && same_path(
                path,
                actions[m]->Delete_device@,
            ),
    decreases actions.len() - i,
{
    if i < actions.len() {
        lemma_deleted_from(actions, path, i + 1);
    }
}

/// The range lies on the disk and meets no partition but deleted ones.
pub open spec fn can_be_freed(
    info: DiskView,
    actions: Seq<PartitionAction>,
    from: int,
    to: int,
) -> bool {
    &&& to <= info.size
    &&& forall|j: int|
        0 <= j < info.partitions.len() ==> to <= (#[trigger] info.partitions[j]).start
            || info.partitions[j].start + info.partitions[j].size <= from || is_deleted(
            actions,
            info.partitions[j].path,
        )
}

/// The device is there and not mounted, and has at least this size.
pub open spec fn is_at_hand(parts: Seq<PartitionView>, device: Seq<char>, size: int) -> bool {
    exists|i: int|
        #![trigger parts[i]]
        first_at_path(parts, device, i) && !parts[i].mounted && parts[i].size >= size
}

/// Nothing on the disk stands against the action.
pub open spec fn can_start(
    info: DiskView,
    actions: Seq<PartitionAction>,
    a: PartitionAction,
) -> bool {
    match a {
        PartitionAction::Delete { device } => is_at_hand(info.partitions, device@, 0),
        PartitionAction::UseAsRoot { device } => is_at_hand(
            info.partitions,
            device@,
            8589934592,
        ),
        PartitionAction::UseAsEsp { device, .. } => is_at_hand(info.partitions, device@, 0),
        PartitionAction::CreateRoot { start_bytes, size_bytes: Some(size) } => size
            >= 8589934592 && can_be_freed(
            info,
            actions,
            start_bytes as int,
            start_bytes + size,
        ),
        PartitionAction::CreateRoot { start_bytes, size_bytes: None } => can_be_freed(
            info,
            actions,
            start_bytes as int,
            start_bytes + 1,
        ),
        PartitionAction::CreateEsp { start_bytes } => can_be_freed(
            info,
            actions,
            start_bytes as int,
            start_bytes + 536870912,
        ),
    }
}

proof fn lemma_at_hand(parts: Seq<PartitionView>, device: Seq<char>, size: int)
    requires
        forall|i: int| 0 <= i < parts.len() ==> (#[trigger] parts[i]).size >= 0,
    ensures
        is_at_hand(parts, device, size) <==> path_from(parts, device, 0) is Some && !path_from(
            parts,
            device,
            0,
        )->0.mounted && path_from(parts, device, 0)->0.size >= size,
{
    lemma_path_from(parts, device, 0);
    if is_at_hand(parts, device, size) {
        let i = choose|i: int|
            #![trigger parts[i]]
            first_at_path(parts, device, i) && !parts[i].mounted && parts[i].size >= size;
        law_devices_are_found_by_path(parts, device, i);
    }
    if path_from(parts, device, 0) is Some {
        let p = path_from(parts, device, 0)->0;
        let k = choose|k: int|
            0 <= k < parts.len() && #[trigger] parts[k] == p && same_path(p.path, device)
                && forall|j: int| 0 <= j < k ==> !same_path((#[trigger] parts[j]).path, device);
        assert(first_at_path(parts, device, k));
        assert(parts[k] == p);
    }
}

proof fn lemma_freeable(info: DiskView, actions: Seq<PartitionAction>, from: int, to: int)
    ensures
        can_be_freed(info, actions, from, to) <==> !blocked(info, actions, from, to),
{
    assert forall|j: int| 0 <= j < info.partitions.len() implies (deleted_from(
        actions,
        (#[trigger] info.partitions[j]).path,
        0,
    ) <==> is_deleted(actions, info.partitions[j].path)) by {
        lemma_deleted_from(actions, info.partitions[j].path, 0);
    }
    if can_be_freed(info, actions, from, to) && blocked(info, actions, from, to) {
        let j = choose|j: int|
            0 <= j < info.partitions.len() && runs_into(
                #[trigger] info.partitions[j],
                actions,
                from,
                to,
            );
        assert(is_deleted(actions, info.partitions[j].path));
    }
    if !blocked(info, actions, from, to) {
        assert forall|j: int| 0 <= j < info.partitions.len() implies to <= (
        #[trigger] info.partitions[j]).start || info.partitions[j].start + info.partitions[j].size
            <= from || is_deleted(actions, info.partitions[j].path) by {
            assert(!runs_into(info.partitions[j], actions, from, to));
        }
    }
}

proof fn lemma_can_start(
    disk: Seq<char>,
    info: DiskView,
    actions: Seq<PartitionAction>,
    a: PartitionAction,
)
    requires
        forall|i: int|
            0 <= i < info.partitions.len() ==> (#[trigger] info.partitions[i]).size >= 0,
    ensures
        can_start(info, actions, a) <==> delete_error(disk, info.partitions, a) is None
            && use_error(info.partitions, a) is None && early_create_error(info, actions, a) is None,
{
    match a {
        PartitionAction::Delete { device } => {
            lemma_at_hand(info.partitions, device@, 0);
            lemma_path_from(info.partitions, device@, 0);
        },
        PartitionAction::UseAsRoot { device } => {
            lemma_at_hand(info.partitions, device@, 8589934592);
        },
        PartitionAction::UseAsEsp { device, .. } => {
            lemma_at_hand(info.partitions, device@, 0);
            lemma_path_from(info.partitions, device@, 0);
        },
        PartitionAction::CreateRoot { start_bytes, size_bytes: Some(size) } => {
            lemma_freeable(info, actions, start_bytes as int, start_bytes + size);
        },
        PartitionAction::CreateRoot { start_bytes, size_bytes: None } => {
            lemma_freeable(info, actions, start_bytes as int, start_bytes + 1);
        },
        PartitionAction::CreateEsp { start_bytes } => {
            lemma_freeable(info, actions, start_bytes as int, start_bytes + ESP_BYTES);
        },
    }
}

proof fn lemma_none_refused(
    disk: Seq<char>,
    info: DiskView,
    actions: Seq<PartitionAction>,
    i: int,
)
    requires
        0 <= i <= actions.len(),
        forall|k: int|
            #![trigger actions[k]]
            i <= k < actions.len() ==> delete_error(disk, info.partitions, actions[k]) is None
                && use_error(info.partitions, actions[k]) is None && early_create_error(
                info,
                actions,
                actions[k],
            ) is None,
    ensures
        first_delete_error(disk, info.partitions, actions, i) is None,
        first_bad_use(info.partitions, actions, i) == actions.len(),
        first_early_error(info, actions, i) is None,
    decreases actions.len() - i,
{
    if i < actions.len() {
        lemma_none_refused(disk, info, actions, i + 1);
    }
}

/// A custom plan starts exactly when nothing on the disk stands against it:
/// the table is a GPT, what is deleted or reused is there and not mounted, a
/// reused root is large enough, and what is created is large enough and
/// meets only partitions that get deleted. Every other plan is refused.
pub proof fn law_custom_plans_start_when_they_can(
    disk: Seq<char>,
    plan: PartitionPlan,
    info: DiskView,
)
    requires
        plan is Custom,
        forall|i: int|
            0 <= i < info.partitions.len() ==> (#[trigger] info.partitions[i]).size >= 0,
    ensures
        ({
            let next = proceed_view(disk, plan, StageView::CustomProbed, info);
            let actions = plan->actions@;
            &&& next.1 is Probe <==> info.table == Some("gpt"@) && forall|k: int|
                0 <= k < actions.len() ==> can_start(info, actions, #[trigger] actions[k])
            &&& next.1 is Probe ==> next.0 == Some(
                StageView::CustomDeleted { sector_size: info.sector as u64 },
            )
            &&& !(next.1 is Probe) ==> next.0 is None && next.1->Conclude_0.len() == 0
                && next.1->Conclude_1 is Err
        }),
{
    let next = proceed_view(disk, plan, StageView::CustomProbed, info);
    let actions = plan->actions@;
    let parts = info.partitions;
    lemma_bad_use(parts, actions, 0);
    assert forall|k: int| 0 <= k < actions.len() implies (can_start(
        info,
        actions,
        #[trigger] actions[k],
    ) <==> delete_error(disk, parts, actions[k]) is None && use_error(parts, actions[k]) is None
        && early_create_error(info, actions, actions[k]) is None) by {
        lemma_can_start(disk, info, actions, actions[k]);
    }
    if next.1 is Probe {
        assert forall|k: int| 0 <= k < actions.len() implies can_start(
            info,
            actions,
            #[trigger] actions[k],
        ) by {
            lemma_no_delete_error(disk, parts, actions, 0, k);
            lemma_no_bad_use(parts, actions, 0, k);
            lemma_no_early_error(info, actions, 0, k);
        }
    }
    if info.table == Some("gpt"@) && forall|k: int|
        0 <= k < actions.len() ==> can_start(info, actions, #[trigger] actions[k]) {
        assert forall|k: int|
            #![trigger actions[k]]
            0 <= k < actions.len() implies delete_error(disk, parts, actions[k]) is None
            && use_error(parts, actions[k]) is None && early_create_error(
            info,
            actions,
            actions[k],
        ) is None by {
            assert(can_start(info, actions, actions[k]));
        }
        lemma_none_refused(disk, info, actions, 0);
    }
}

/// The actions that delete, in their order.
pub open spec fn deletions(actions: Seq<PartitionAction>) -> Seq<PartitionAction> {
    actions.filter(|a: PartitionAction| a is Delete)
}

proof fn lemma_deletions(disk: Seq<char>, parts: Seq<PartitionView>, actions: Seq<PartitionAction>)
    requires
        forall|k: int|
            0 <= k < actions.len() ==> delete_error(disk, parts, #[trigger] actions[k]) is None,
    ensures
        delete_numbers(parts, actions).len() == deletions(actions).len(),
        forall|n: int|
            #![trigger delete_numbers(parts, actions)[n]]
            0 <= n < deletions(actions).len() ==> deletions(actions)[n] is Delete
                && delete_numbers(parts, actions)[n] == decimal(
                path_from(parts, deletions(actions)[n]->Delete_device@, 0)->0.number as nat,
            ),
    decreases actions.len(),
{
    reveal(Seq::filter);
    if actions.len() > 0 {
        let front = actions.drop_last();
        assert(forall|k: int| 0 <= k < front.len() ==> front[k] == #[trigger] actions[k]);
        assert forall|k: int| 0 <= k < front.len() implies delete_error(
            disk,
            parts,
            #[trigger] front[k],
        ) is None by {
            assert(actions[k] == front[k]);
        }
        lemma_deletions(disk, parts, front);
        assert(actions[actions.len() - 1] == actions.last());
    }
}

/// What a custom plan that starts runs first deletes exactly what it names:
/// one call, with the number of each partition that an action deletes, in
/// their order, and nothing at all where none does.
pub proof fn law_named_partitions_are_deleted(
    disk: Seq<char>,
    plan: PartitionPlan,
    info: DiskView,
)
    requires
        plan is Custom,
        proceed_view(disk, plan, StageView::CustomProbed, info).1 is Probe,
    ensures
        ({
            let commands = proceed_view(disk, plan, StageView::CustomProbed, info).1->Probe_0;
            let named = deletions(plan->actions@);
            &&& named.len() == 0 <==> commands.len() == 0
            &&& named.len() > 0 ==> {
                &&& commands.len() == 2
                &&& commands[0].program == "sfdisk"@ && commands[0].stdin is None
                &&& commands[0].args.len() == 2 + named.len()
                &&& commands[0].args[0] == "--delete"@ && commands[0].args[1] == disk
                &&& forall|n: int, i: int|
                    #![trigger named[n], info.partitions[i]]
                    0 <= n < named.len() && first_at_path(
                        info.partitions,
                        named[n]->Delete_device@,
                        i,
                    ) ==> commands[0].args[2 + n] == decimal(info.partitions[i].number as nat)
                &&& commands[1].program == "udevadm"@ && commands[1].args == seq!["settle"@]
            }
        }),
{
    let actions = plan->actions@;
    let parts = info.partitions;
    let commands = proceed_view(disk, plan, StageView::CustomProbed, info).1->Probe_0;
    assert forall|k: int| 0 <= k < actions.len() implies delete_error(
        disk,
        parts,
        #[trigger] actions[k],
    ) is None by {
        lemma_no_delete_error(disk, parts, actions, 0, k);
    }
    lemma_deletions(disk, parts, actions);
    let named = deletions(actions);
    if named.len() > 0 {
        assert forall|n: int, i: int|
            #![trigger named[n], parts[i]]
            0 <= n < named.len() && first_at_path(
                parts,
                named[n]->Delete_device@,
                i,
            ) implies commands[0].args[2 + n] == decimal(parts[i].number as nat) by {
            law_devices_are_found_by_path(parts, named[n]->Delete_device@, i);
            assert(commands[0].args[2 + n] == delete_numbers(parts, actions)[n]);
        }
    }
}

proof fn lemma_chosen(
    actions: Seq<PartitionAction>,
    root: Option<Seq<char>>,
    esp: Option<Seq<char>>,
    k: int,
)
    ensures
        0 <= k < actions.len() && actions[k] is UseAsRoot && (forall|j: int|
            k < j < actions.len() ==> !((#[trigger] actions[j]) is UseAsRoot)) ==> chosen_root(
            actions,
            root,
        ) == Some(actions[k]->UseAsRoot_device@),
        0 <= k < actions.len() && actions[k] is UseAsEsp && (forall|j: int|
            k < j < actions.len() ==> !((#[trigger] actions[j]) is UseAsEsp)) ==> chosen_esp(
            actions,
            esp,
        ) == (Some(actions[k]->UseAsEsp_device@), actions[k]->UseAsEsp_format),
        (forall|j: int| 0 <= j < actions.len() ==> !((#[trigger] actions[j]) is UseAsRoot))
            ==> chosen_root(actions, root) == root,
        (forall|j: int| 0 <= j < actions.len() ==> !((#[trigger] actions[j]) is UseAsEsp))
            ==> chosen_esp(actions, esp) == (esp, true),
    decreases actions.len(),
{
    if actions.len() > 0 {
        let front = actions.drop_last();
        lemma_chosen(front, root, esp, k);
        assert(actions[actions.len() - 1] == actions.last());
        assert(forall|j: int| 0 <= j < front.len() ==> front[j] == #[trigger] actions[j]);
        assert(forall|j: int| 0 <= j < front.len() ==> #[trigger] front[j] == actions[j]);
    }
}

/// The devices that a custom plan comes to are those that it names: the
/// partition that is reused as root, or else the one that was created as
/// such, found where it was put; for the ESP likewise, which is formatted as
/// asked when it is reused, and always when it is new.
pub proof fn law_custom_plans_come_to_their_devices(
    disk: Seq<char>,
    plan: PartitionPlan,
    created: CreatePlan,
    info: DiskView,
    k: int,
)
    requires
        plan is Custom,
        proceed_view(disk, plan, StageView::CustomCreated(created), info).1->Conclude_1 is Ok,
    ensures
        ({
            let end = proceed_view(disk, plan, StageView::CustomCreated(created), info);
            let set = end.1->Conclude_1->Ok_0;
            let actions = plan->actions@;
            &&& end.0 is None && end.1 is Conclude && set.boot is None
            &&& 0 <= k < actions.len() && actions[k] is UseAsRoot && (forall|j: int|
                k < j < actions.len() ==> !((#[trigger] actions[j]) is UseAsRoot)) ==> set.root
                == actions[k]->UseAsRoot_device@
            &&& 0 <= k < actions.len() && actions[k] is UseAsEsp && (forall|j: int|
                k < j < actions.len() ==> !((#[trigger] actions[j]) is UseAsEsp)) ==> set.esp
                == actions[k]->UseAsEsp_device@ && set.format_esp == actions[k]->UseAsEsp_format
            &&& (forall|j: int| 0 <= j < actions.len() ==> !((#[trigger] actions[j]) is UseAsRoot))
                ==> created.root_start is Some && exists|i: int|
                0 <= i < info.partitions.len() && (#[trigger] info.partitions[i]).start
                    == created.root_start->0 && info.partitions[i].path == set.root
            &&& (forall|j: int| 0 <= j < actions.len() ==> !((#[trigger] actions[j]) is UseAsEsp))
                ==> set.format_esp && created.esp_start is Some && exists|i: int|
                0 <= i < info.partitions.len() && (#[trigger] info.partitions[i]).start
                    == created.esp_start->0 && info.partitions[i].path == set.esp
        }),
{
    let parts = info.partitions;
    lemma_chosen(
        plan->actions@,
        located(parts, created.root_start),
        located(parts, created.esp_start),
        k,
    );
    if created.root_start is Some {
        law_partitions_are_found_by_start(parts, created.root_start->0 as int, 0);
    }
    if created.esp_start is Some {
        law_partitions_are_found_by_start(parts, created.esp_start->0 as int, 0);
    }
}

proof fn lemma_used(
    disk: Seq<char>,
    parts: Seq<PartitionView>,
    actions: Seq<PartitionAction>,
    k: int,
    c: CommandView,
)
    requires
        0 <= k < actions.len(),
        use_commands(disk, parts, actions[k]).contains(c),
    ensures
        all_use_commands(disk, parts, actions).contains(c),
    decreases actions.len(),
{
    let front = all_use_commands(disk, parts, actions.drop_last());
    let last = use_commands(disk, parts, actions.last());
    if k < actions.len() - 1 {
        assert(actions.drop_last()[k] == actions[k]);
        lemma_used(disk, parts, actions.drop_last(), k, c);
        let n = front.index_of(c);
        assert((front + last)[n] == c);
    } else {
        let n = last.index_of(c);
        assert((front + last)[front.len() + n] == c);
    }
}

/// One of the commands is this call.
pub open spec fn calls(commands: Seq<CommandView>, program: Seq<char>, args: Seq<Seq<char>>) -> bool {
    exists|n: int|
        0 <= n < commands.len() && (#[trigger] commands[n]).program == program && commands[n].args
            == args
}

proof fn lemma_calls(commands: Seq<CommandView>, c: CommandView, last: CommandView)
    requires
        commands.contains(c),
    ensures
        calls(commands.push(last), c.program, c.args),
{
    let n = commands.index_of(c);
    assert(commands.push(last)[n] == c);
}

/// A partition that a custom plan reuses as root is stamped as a root and
/// wiped; one that it reuses as ESP is stamped as an ESP where it was not,
/// and wiped where it gets formatted.
pub proof fn law_reused_partitions_are_prepared(
    disk: Seq<char>,
    plan: PartitionPlan,
    created: CreatePlan,
    info: DiskView,
    k: int,
    i: int,
)
    requires
        plan is Custom,
        0 <= k < plan->actions@.len(),
        proceed_view(disk, plan, StageView::CustomCreated(created), info).1->Conclude_1 is Ok,
    ensures
        ({
            let commands = proceed_view(
                disk,
                plan,
                StageView::CustomCreated(created),
                info,
            ).1->Conclude_0;
            let part = info.partitions[i];
            match plan->actions@[k] {
                PartitionAction::UseAsRoot { device } => {
                    &&& calls(commands, "wipefs"@, seq!["--all"@, device@])
                    &&& first_at_path(info.partitions, device@, i) ==> calls(
                        commands,
                        "sfdisk"@,
                        seq![
                            "--part-type"@,
                            disk,
                            decimal(part.number as nat),
                            "4f68bce3-e8cd-4db1-96e7-fbcaf984b709"@,
                        ],
                    )
                },
                PartitionAction::UseAsEsp { device, format } => {
                    &&& format ==> calls(commands, "wipefs"@, seq!["--all"@, device@])
                    &&& first_at_path(info.partitions, device@, i) && !is_efi(part) ==> calls(
                        commands,
                        "sfdisk"@,
                        seq![
                            "--part-type"@,
                            disk,
                            decimal(part.number as nat),
                            "c12a7328-f81f-11d2-ba4b-00a0c93ec93b"@,
                        ],
                    )
                },
                _ => true,
            }
        }),
{
    let actions = plan->actions@;
    let parts = info.partitions;
    let uses = all_use_commands(disk, parts, actions);
    let own = use_commands(disk, parts, actions[k]);
    assert forall|n: int| 0 <= n < own.len() implies calls(
        uses.push(settle_command()),
        (#[trigger] own[n]).program,
        own[n].args,
    ) by {
        assert(own.contains(own[n]));
        lemma_used(disk, parts, actions, k, own[n]);
        lemma_calls(uses, own[n], settle_command());
    }
    match actions[k] {
        PartitionAction::UseAsRoot { device } => {
            law_devices_are_found_by_path(parts, device@, i);
            let stamp = own[0];
            let wipe = own[1];
            assert(wipe.program == "wipefs"@);
            assert(stamp.program == "sfdisk"@);
        },
        PartitionAction::UseAsEsp { device, format } => {
            law_devices_are_found_by_path(parts, device@, i);
            if own.len() > 0 {
                let first = own[0];
                let last = own[own.len() - 1];
                assert(format ==> last.program == "wipefs"@);
                assert(first_at_path(parts, device@, i) && !is_efi(parts[i]) ==> first.program
                    == "sfdisk"@);
            }
        },
        _ => {},
    }
}

/// An ESP that is reused without formatting keeps its contents, and so does
/// every device that no action formats: it is never wiped.
pub proof fn law_kept_partitions_are_not_wiped(
    disk: Seq<char>,
    plan: PartitionPlan,
    created: CreatePlan,
    info: DiskView,
    device: Seq<char>,
)
    requires
        plan is Custom,
        forall|k: int|
            0 <= k < plan->actions@.len() ==> !formats(#[trigger] plan->actions@[k], device),
    ensures
        !calls(
            proceed_view(disk, plan, StageView::CustomCreated(created), info).1->Conclude_0,
            "wipefs"@,
            seq!["--all"@, device],
        ),
{
    let actions = plan->actions@;
    let parts = info.partitions;
    let uses = all_use_commands(disk, parts, actions);
    reveal_strlit("wipefs");
    reveal_strlit("sfdisk");
    reveal_strlit("udevadm");
    assert("wipefs"@[0] != "sfdisk"@[0]);
    assert("wipefs"@[0] != "udevadm"@[0]);
    let wipe = seq!["--all"@, device];
    let commands = assign_commands(disk, parts, actions, created);
    if calls(commands, "wipefs"@, wipe) {
        let n = choose|n: int|
            0 <= n < commands.len() && (#[trigger] commands[n]).program == "wipefs"@
                && commands[n].args == wipe;
        assert(commands[n].program[0] == 'w');
        assert(settle_command().program[0] == 'u');
        assert(n < uses.len());
        assert(commands[n] == uses[n]);
        law_only_named_partitions_are_reused(disk, parts, actions, n);
        let k = choose|k: int|
            0 <= k < actions.len() && use_commands(disk, parts, #[trigger] actions[k]).contains(
                uses[n],
            );
        assert(!formats(actions[k], device));
        let own = use_commands(disk, parts, actions[k]);
        let m = own.index_of(uses[n]);
        assert(own[m].args[1] == device);
        assert(own[m].program[0] == 'w');
    }
}

/// The action has the device formatted.
pub open spec fn formats(a: PartitionAction, device: Seq<char>) -> bool {
    match a {
        PartitionAction::UseAsRoot { device: d } => d@ == device,
        PartitionAction::UseAsEsp { device: d, format } => format && d@ == device,
        _ => false,
    }
}

/// Every plan but erasing probes the disk before anything is run on it.
pub proof fn law_plans_probe_first(disk: Seq<char>, plan: PartitionPlan)
    ensures
        !(plan is EraseDisk) ==> {
            let first = begin_view(disk, plan);
            &&& first.1 is Probe && first.1->Probe_0.len() == 0
            &&& first.0 is Some && stage_of(plan, first.0->0)
            &&& plan is FreeSpace ==> first.0->0 is FreeProbed
            &&& plan is Custom ==> first.0->0 is CustomProbed
        },
{
}

/// The node of a partition: where the disk's name ends in a digit, a `p`
/// stands before the number.
pub open spec fn is_node(path: Seq<char>, disk: Seq<char>, number: Seq<char>) -> bool {
    if disk.len() > 0 && '0' as u32 <= disk.last() as u32 <= '9' as u32 {
        path == disk + "p"@ + number
    } else {
        path == disk + number
    }
}

/// Erasing makes a new table with three partitions, an ESP of 512 MiB, a
/// boot partition of 1 GiB and the root behind them, and comes to their
/// nodes, in this order. Everything that was on the disk is wiped first, the
/// ESP gets formatted, and the third partition is stamped as the root.
pub proof fn law_erasing_makes_three_partitions(disk: Seq<char>)
    ensures
        ({
            let first = begin_view(disk, PartitionPlan::EraseDisk);
            let commands = first.1->Conclude_0;
            let set = first.1->Conclude_1->Ok_0;
            &&& first.0 is None && first.1 is Conclude && first.1->Conclude_1 is Ok
            &&& is_node(set.esp, disk, "1"@) && set.format_esp
            &&& set.boot is Some && is_node(set.boot->0, disk, "2"@)
            &&& is_node(set.root, disk, "3"@)
            &&& commands.len() == 4
            &&& commands[0].program == "wipefs"@ && commands[0].args == seq!["--all"@, disk]
            &&& commands[1].program == "sfdisk"@ && commands[1].args == seq![
                "--wipe"@,
                "always"@,
                disk,
            ]
            &&& commands[1].stdin == Some(
                "label: gpt\n"@ + "size=512MiB, type=uefi, name=ESP\n"@
                    + "size=1GiB,   type=linux, name=boot\n"@ + "type=linux, name=root\n"@,
            )
            &&& commands[2].program == "sfdisk"@ && commands[2].args == seq![
                "--part-type"@,
                disk,
                "3"@,
                "4f68bce3-e8cd-4db1-96e7-fbcaf984b709"@,
            ]
            &&& commands[3].program == "udevadm"@ && commands[3].args == seq!["settle"@]
        }),
{
    reveal_strlit("label: gpt\n");
    reveal_strlit("size=512MiB, type=uefi, name=ESP\n");
    reveal_strlit("size=1GiB,   type=linux, name=boot\n");
    reveal_strlit("type=linux, name=root\n");
    reveal_strlit(
        "label: gpt\nsize=512MiB, type=uefi, name=ESP\nsize=1GiB,   type=linux, name=boot\ntype=linux, name=root\n",
    );
    assert(erase_script() =~= "label: gpt\n"@ + "size=512MiB, type=uefi, name=ESP\n"@
        + "size=1GiB,   type=linux, name=boot\n"@ + "type=linux, name=root\n"@);
    reveal_strlit("");
    reveal_strlit("1");
    reveal_strlit("2");
    reveal_strlit("3");
    reveal_with_fuel(decimal, 2);
    assert(decimal(1) =~= "1"@);
    assert(decimal(2) =~= "2"@);
    assert(decimal(3) =~= "3"@);
    assert(disk + ""@ =~= disk);
    let first = begin_view(disk, PartitionPlan::EraseDisk);
    let set = first.1->Conclude_1->Ok_0;
    assert(is_node(set.esp, disk, "1"@));
    assert(is_node(set.root, disk, "3"@));
}

/// A custom plan that was carried out comes to a result: with one root and
/// one ESP, whatever is reused still at hand, and whatever was created found
/// where it was put.
pub proof fn law_carried_out_plans_come_to_a_result(
    disk: Seq<char>,
    plan: PartitionPlan,
    info: DiskView,
)
    requires
        plan is Custom,
        crate::install::has_one_root(plan->actions@),
        crate::install::has_one_esp(plan->actions@),
        forall|i: int|
            0 <= i < info.partitions.len() ==> (#[trigger] info.partitions[i]).size >= 0,
        forall|k: int|
            0 <= k < plan->actions@.len() ==> is_carried_out(info, #[trigger] plan->actions@[k]),
    ensures
        ({
            let created = CreatePlan {
                root_start: created_root(plan->actions@),
                esp_start: created_esp(plan->actions@),
            };
            let end = proceed_view(disk, plan, StageView::CustomCreated(created), info);
            end.1 is Conclude && end.1->Conclude_1 is Ok
        }),
{
    let actions = plan->actions@;
    let parts = info.partitions;
    crate::install::lemma_one_root(actions);
    crate::install::lemma_one_esp(actions);
    lemma_created_source(actions);
    if created_root(actions) is Some {
        let k = choose|k: int|
            0 <= k < actions.len() && (#[trigger] actions[k]) is CreateRoot
                && actions[k]->CreateRoot_start_bytes == created_root(actions)->0;
        assert(is_carried_out(info, actions[k]));
        law_partitions_are_found_by_start(parts, created_root(actions)->0 as int, 0);
    }
    if created_esp(actions) is Some {
        let k = choose|k: int|
            0 <= k < actions.len() && (#[trigger] actions[k]) is CreateEsp
                && actions[k]->CreateEsp_start_bytes == created_esp(actions)->0;
        assert(is_carried_out(info, actions[k]));
        law_partitions_are_found_by_start(parts, created_esp(actions)->0 as int, 0);
    }
    lemma_bad_use(parts, actions, 0);
    let bad = first_bad_use(parts, actions, 0);
    if bad < actions.len() {
        assert(is_carried_out(info, actions[bad]));
        match actions[bad] {
            PartitionAction::UseAsRoot { device } => lemma_at_hand(parts, device@, 8589934592),
            PartitionAction::UseAsEsp { device, .. } => {
                lemma_at_hand(parts, device@, 0);
            },
            _ => {},
        }
    }
    law_valid_plans_produce_devices(parts, actions);
}

/// What the action asked for is there: a partition to reuse is at hand, and
/// a new one starts where it should.
pub open spec fn is_carried_out(info: DiskView, a: PartitionAction) -> bool {
    match a {
        PartitionAction::Delete { .. } => true,
        PartitionAction::UseAsRoot { device } => is_at_hand(info.partitions, device@, 8589934592),
        PartitionAction::UseAsEsp { device, .. } => is_at_hand(info.partitions, device@, 0),
        PartitionAction::CreateRoot { start_bytes, .. } => exists|i: int|
            0 <= i < info.partitions.len() && (#[trigger] info.partitions[i]).start == start_bytes,
        PartitionAction::CreateEsp { start_bytes } => exists|i: int|
            0 <= i < info.partitions.len() && (#[trigger] info.partitions[i]).start == start_bytes,
    }
}

proof fn lemma_created_source(actions: Seq<PartitionAction>)
    ensures
        created_root(actions) matches Some(s) ==> exists|k: int|
            0 <= k < actions.len() && (#[trigger] actions[k]) is CreateRoot
                && actions[k]->CreateRoot_start_bytes == s,
        created_esp(actions) matches Some(s) ==> exists|k: int|
            0 <= k < actions.len() && (#[trigger] actions[k]) is CreateEsp
                && actions[k]->CreateEsp_start_bytes == s,
    decreases actions.len(),
{
    if actions.len() > 0 {
        let front = actions.drop_last();
        lemma_created_source(front);
        assert(actions[actions.len() - 1] == actions.last());
        if created_root(front) is Some {
            let k = choose|k: int|
                0 <= k < front.len() && (#[trigger] front[k]) is CreateRoot
                    && front[k]->CreateRoot_start_bytes == created_root(front)->0;
            assert(actions[k] == front[k]);
        }
        if created_esp(front) is Some {
            let k = choose|k: int|
                0 <= k < front.len() && (#[trigger] front[k]) is CreateEsp
                    && front[k]->CreateEsp_start_bytes == created_esp(front)->0;
            assert(actions[k] == front[k]);
        }
    }
}

} // verus!
