//! What an installation is asked to do, what it reports, and the static
//! checks a request must pass.
use vstd::prelude::*;

use crate::path::{self, is_under_dev, same_path};
use crate::text::{self, decimal, has_prefix, is_blank, views};

verus! {

/// Smallest root filesystem the engine will create. Front ends apply a
/// stricter, image-size-aware minimum; this floor is the backstop against
/// nonsense plans.
pub const ROOT_MIN_BYTES: u64 = 8 * 1024 * 1024 * 1024;

/// Size of a newly created ESP.
pub const ESP_BYTES: u64 = 512 * 1024 * 1024;

/// The hostname of a request that names none.
pub const DEFAULT_HOSTNAME: &'static str = "cosmic";

/// A request to install one image on one disk.
#[derive(Debug, PartialEq, Eq)]
pub struct InstallSpec {
    /// Whole-disk device, e.g. `/dev/vdb`.
    pub disk: String,
    /// OCI image reference to install.
    pub image: String,
    /// Hostname of the deployed system.
    pub hostname: String,
    pub encryption: Encryption,
    /// How to place the install on `disk`.
    pub plan: PartitionPlan,
}

/// Where the partitions of an install come from. The filesystem profile is
/// fixed; a plan only controls placement.
#[derive(Debug, PartialEq, Eq)]
pub enum PartitionPlan {
    /// Wipe the disk, create the full layout. The default.
    EraseDisk,
    /// Create ESP-if-needed and root inside one free-space gap; existing
    /// partitions are not touched.
    FreeSpace { gap_start_bytes: u64, gap_size_bytes: u64 },
    /// Explicit per-partition roles. Partitions without an action are left
    /// alone.
    Custom { actions: Vec<PartitionAction> },
}

#[derive(Debug, PartialEq, Eq)]
pub enum PartitionAction {
    /// Delete this partition; its space becomes usable by the creations.
    Delete { device: String },
    /// Use this existing partition as the ESP. Without `format` its
    /// contents stay.
    UseAsEsp { device: String, format: bool },
    /// Use this existing partition as root; it is wiped.
    UseAsRoot { device: String },
    /// Create the root partition in free space. Without a size it fills
    /// the gap that the start falls in.
    CreateRoot { start_bytes: u64, size_bytes: Option<u64> },
    /// Create a 512 MiB ESP in free space.
    CreateEsp { start_bytes: u64 },
}

#[derive(Debug, PartialEq, Eq)]
pub enum Encryption {
    Unencrypted,
    LuksPassphrase { passphrase: String },
    Tpm2Luks,
    Tpm2LuksPassphrase { passphrase: String },
}

impl Default for PartitionPlan {
    fn default() -> (r: Self)
        ensures
            r == PartitionPlan::EraseDisk,
    {
        PartitionPlan::EraseDisk
    }
}

impl Clone for Encryption {
    fn clone(&self) -> (r: Self)
        ensures
            r == *self,
    {
        match self {
            Encryption::Unencrypted => Encryption::Unencrypted,
            Encryption::LuksPassphrase { passphrase } => Encryption::LuksPassphrase {
                passphrase: passphrase.clone(),
            },
            Encryption::Tpm2Luks => Encryption::Tpm2Luks,
            Encryption::Tpm2LuksPassphrase { passphrase } => Encryption::Tpm2LuksPassphrase {
                passphrase: passphrase.clone(),
            },
        }
    }
}

impl Encryption {
    /// Whether the root volume is LUKS-wrapped.
    pub fn is_luks(&self) -> (r: bool)
        ensures
            r == (*self !is Unencrypted),
    {
        !matches!(self, Encryption::Unencrypted)
    }
}

/// One discrete pipeline step.
#[derive(Debug, Clone, Copy, PartialEq, Eq, Structural)]
pub enum Step {
    Partition,
    Format,
    Luks,
    Mkfs,
    Mount,
    Bootc,
    Hostname,
    Bls,
    Finalize,
}

impl Step {
    pub open spec fn name(self) -> Seq<char> {
        match self {
            Step::Partition => "partition"@,
            Step::Format => "format"@,
            Step::Luks => "luks"@,
            Step::Mkfs => "mkfs"@,
            Step::Mount => "mount"@,
            Step::Bootc => "bootc"@,
            Step::Hostname => "hostname"@,
            Step::Bls => "bls"@,
            Step::Finalize => "finalize"@,
        }
    }

    /// The stable name of the step.
    pub fn as_str(self) -> (r: &'static str)
        ensures
            r@ == self.name(),
    {
        match self {
            Step::Partition => "partition",
            Step::Format => "format",
            Step::Luks => "luks",
            Step::Mkfs => "mkfs",
            Step::Mount => "mount",
            Step::Bootc => "bootc",
            Step::Hostname => "hostname",
            Step::Bls => "bls",
            Step::Finalize => "finalize",
        }
    }

    pub open spec fn baseline(self) -> u8 {
        match self {
            Step::Partition => 2,
            Step::Format => 4,
            Step::Luks => 6,
            Step::Mkfs => 8,
            Step::Mount => 9,
            Step::Bootc => 10,
            Step::Hostname => 90,
            Step::Bls => 93,
            Step::Finalize => 95,
        }
    }

    /// Baseline percent when this step starts. The bootc step spans the
    /// range up to the next baseline and interpolates by copied image
    /// layers; everything else is effectively instant by comparison.
    pub fn start_percent(self) -> (r: u8)
        ensures
            r == self.baseline(),
    {
        match self {
            Step::Partition => 2,
            Step::Format => 4,
            Step::Luks => 6,
            Step::Mkfs => 8,
            Step::Mount => 9,
            Step::Bootc => 10,
            Step::Hostname => 90,
            Step::Bls => 93,
            Step::Finalize => 95,
        }
    }

    /// Position in the pipeline.
    pub open spec fn position(self) -> int {
        match self {
            Step::Partition => 0,
            Step::Format => 1,
            Step::Luks => 2,
            Step::Mkfs => 3,
            Step::Mount => 4,
            Step::Bootc => 5,
            Step::Hostname => 6,
            Step::Bls => 7,
            Step::Finalize => 8,
        }
    }
}

/// A later step starts at a higher percentage, and no step starts at more
/// than a hundred.
pub proof fn law_baselines_increase(a: Step, b: Step)
    ensures
        a.position() < b.position() ==> a.baseline() < b.baseline(),
        a.baseline() <= 100,
{
}

#[derive(Debug, Clone, Copy, PartialEq, Eq, Structural)]
pub enum LogStream {
    Stdout,
    Stderr,
    Engine,
}

impl LogStream {
    pub open spec fn name(self) -> Seq<char> {
        match self {
            LogStream::Stdout => "stdout"@,
            LogStream::Stderr => "stderr"@,
            LogStream::Engine => "engine"@,
        }
    }

    /// The stable name of the stream.
    pub fn as_str(self) -> (r: &'static str)
        ensures
            r@ == self.name(),
    {
        match self {
            LogStream::Stdout => "stdout",
            LogStream::Stderr => "stderr",
            LogStream::Engine => "engine",
        }
    }
}

/// What an installation reports while it runs.
#[derive(Debug, PartialEq, Eq)]
pub enum Event {
    StepChanged { step: Step, detail: String },
    Log { stream: LogStream, line: String },
    /// Overall progress estimate in percent.
    Progress { percent: u8, step: Step },
}

#[verifier::ext_equal]
pub enum EventView {
    StepChanged { step: Step, detail: Seq<char> },
    Log { stream: LogStream, line: Seq<char> },
    Progress { percent: u8, step: Step },
}

impl View for Event {
    type V = EventView;

    open spec fn view(&self) -> EventView {
        match *self {
            Event::StepChanged { step, detail } => EventView::StepChanged { step, detail: detail@ },
            Event::Log { stream, line } => EventView::Log { stream, line: line@ },
            Event::Progress { percent, step } => EventView::Progress { percent, step },
        }
    }
}

/// Why an installation ended without success.
#[derive(Debug, PartialEq, Eq)]
pub enum EngineError {
    InvalidSpec(String),
    Partition(String),
    Format(String),
    Luks(String),
    Mkfs(String),
    Mount(String),
    Bootc(String),
    Hostname(String),
    Bls(String),
    Finalize(String),
    Cancelled,
}

/// The origin of an error.
pub enum Fault {
    InvalidSpec,
    InStep(Step),
    Cancelled,
}

impl View for EngineError {
    type V = (Fault, Seq<char>);

    open spec fn view(&self) -> (Fault, Seq<char>) {
        match *self {
            EngineError::InvalidSpec(m) => (Fault::InvalidSpec, m@),
            EngineError::Partition(m) => (Fault::InStep(Step::Partition), m@),
            EngineError::Format(m) => (Fault::InStep(Step::Format), m@),
            EngineError::Luks(m) => (Fault::InStep(Step::Luks), m@),
            EngineError::Mkfs(m) => (Fault::InStep(Step::Mkfs), m@),
            EngineError::Mount(m) => (Fault::InStep(Step::Mount), m@),
            EngineError::Bootc(m) => (Fault::InStep(Step::Bootc), m@),
            EngineError::Hostname(m) => (Fault::InStep(Step::Hostname), m@),
            EngineError::Bls(m) => (Fault::InStep(Step::Bls), m@),
            EngineError::Finalize(m) => (Fault::InStep(Step::Finalize), m@),
            EngineError::Cancelled => (Fault::Cancelled, Seq::empty()),
        }
    }
}

/// The text of an error.
pub open spec fn error_text(e: (Fault, Seq<char>)) -> Seq<char> {
    match e.0 {
        Fault::InvalidSpec => "invalid spec: "@ + e.1,
        Fault::InStep(step) => step.name() + ": "@ + e.1,
        Fault::Cancelled => "cancelled by user"@,
    }
}

impl Clone for EngineError {
    fn clone(&self) -> (r: Self)
        ensures
            r == *self,
    {
        match self {
            EngineError::InvalidSpec(m) => EngineError::InvalidSpec(m.clone()),
            EngineError::Partition(m) => EngineError::Partition(m.clone()),
            EngineError::Format(m) => EngineError::Format(m.clone()),
            EngineError::Luks(m) => EngineError::Luks(m.clone()),
            EngineError::Mkfs(m) => EngineError::Mkfs(m.clone()),
            EngineError::Mount(m) => EngineError::Mount(m.clone()),
            EngineError::Bootc(m) => EngineError::Bootc(m.clone()),
            EngineError::Hostname(m) => EngineError::Hostname(m.clone()),
            EngineError::Bls(m) => EngineError::Bls(m.clone()),
            EngineError::Finalize(m) => EngineError::Finalize(m.clone()),
            EngineError::Cancelled => EngineError::Cancelled,
        }
    }
}

impl EngineError {
    /// The error of a failed step.
    pub fn in_step(step: Step, message: String) -> (r: EngineError)
        ensures
            r@ == (Fault::InStep(step), message@),
    {
        match step {
            Step::Partition => EngineError::Partition(message),
            Step::Format => EngineError::Format(message),
            Step::Luks => EngineError::Luks(message),
            Step::Mkfs => EngineError::Mkfs(message),
            Step::Mount => EngineError::Mount(message),
            Step::Bootc => EngineError::Bootc(message),
            Step::Hostname => EngineError::Hostname(message),
            Step::Bls => EngineError::Bls(message),
            Step::Finalize => EngineError::Finalize(message),
        }
    }

    /// The error as text for people.
    pub fn message(&self) -> (r: String)
        ensures
            r@ == error_text(self@),
    {
        match self {
            EngineError::InvalidSpec(m) => text::cat2("invalid spec: ", m.as_str()),
            EngineError::Partition(m) => text::cat3("partition", ": ", m.as_str()),
            EngineError::Format(m) => text::cat3("format", ": ", m.as_str()),
            EngineError::Luks(m) => text::cat3("luks", ": ", m.as_str()),
            EngineError::Mkfs(m) => text::cat3("mkfs", ": ", m.as_str()),
            EngineError::Mount(m) => text::cat3("mount", ": ", m.as_str()),
            EngineError::Bootc(m) => text::cat3("bootc", ": ", m.as_str()),
            EngineError::Hostname(m) => text::cat3("hostname", ": ", m.as_str()),
            EngineError::Bls(m) => text::cat3("bls", ": ", m.as_str()),
            EngineError::Finalize(m) => text::cat3("finalize", ": ", m.as_str()),
            EngineError::Cancelled => "cancelled by user".to_owned(),
        }
    }
}

impl PartitionPlan {
    pub open spec fn description(self) -> Seq<char> {
        match self {
            PartitionPlan::EraseDisk => "erase whole disk"@,
            PartitionPlan::FreeSpace { .. } => "use free space"@,
            PartitionPlan::Custom { .. } => "custom layout"@,
        }
    }

    /// The plan in a few words.
    pub fn describe(&self) -> (r: &'static str)
        ensures
            r@ == self.description(),
    {
        match self {
            PartitionPlan::EraseDisk => "erase whole disk",
            PartitionPlan::FreeSpace { .. } => "use free space",
            PartitionPlan::Custom { .. } => "custom layout",
        }
    }
}

// ---------- static checks ----------

impl PartitionAction {
    pub open spec fn makes_root(self) -> bool {
        self is UseAsRoot || self is CreateRoot
    }

    pub open spec fn makes_esp(self) -> bool {
        self is UseAsEsp || self is CreateEsp
    }

    /// The existing partition that the action is about.
    pub open spec fn target(self) -> Option<Seq<char>> {
        match self {
            PartitionAction::Delete { device } => Some(device@),
            PartitionAction::UseAsEsp { device, .. } => Some(device@),
            PartitionAction::UseAsRoot { device } => Some(device@),
            _ => None,
        }
    }

    /// The requested size of a new root, where it is below the floor.
    pub open spec fn undersize(self) -> Option<u64> {
        match self {
            PartitionAction::CreateRoot { size_bytes: Some(s), .. } if s < ROOT_MIN_BYTES => Some(s),
            _ => None,
        }
    }
}

pub open spec fn count_roots(actions: Seq<PartitionAction>) -> nat
    decreases actions.len(),
{
    if actions.len() == 0 {
        0
    } else {
        count_roots(actions.drop_last()) + (if actions.last().makes_root() {
            1nat
        } else {
            0
        })
    }
}

pub open spec fn count_esps(actions: Seq<PartitionAction>) -> nat
    decreases actions.len(),
{
    if actions.len() == 0 {
        0
    } else {
        count_esps(actions.drop_last()) + (if actions.last().makes_esp() {
            1nat
        } else {
            0
        })
    }
}

/// The existing partitions that a plan refers to, in order.
pub open spec fn targets(actions: Seq<PartitionAction>) -> Seq<Seq<char>>
    decreases actions.len(),
{
    if actions.len() == 0 {
        Seq::empty()
    } else {
        match actions.last().target() {
            Some(d) => targets(actions.drop_last()).push(d),
            None => targets(actions.drop_last()),
        }
    }
}

/// The first undersized root size at or behind `i`.
pub open spec fn first_undersize(actions: Seq<PartitionAction>, i: int) -> Option<u64>
    decreases actions.len() - i,
{
    if i < 0 || i >= actions.len() {
        None
    } else if actions[i].undersize() is Some {
        actions[i].undersize()
    } else {
        first_undersize(actions, i + 1)
    }
}

/// `devices[i]` names the same path as an earlier entry.
pub open spec fn is_repeat(devices: Seq<Seq<char>>, i: int) -> bool {
    exists|j: int| 0 <= j < i && same_path(#[trigger] devices[j], devices[i])
}

/// The complaint about the first bad reference at or behind `i`: one that
/// repeats an earlier one, or is not on the disk.
pub open spec fn reference_error(devices: Seq<Seq<char>>, disk: Seq<char>, i: int) -> Option<
    Seq<char>,
>
    decreases devices.len() - i,
{
    if i < 0 || i >= devices.len() {
        None
    } else if is_repeat(devices, i) {
        Some("device referenced twice in plan: "@ + devices[i])
    } else if !has_prefix(devices[i], disk) {
        Some("plan references "@ + devices[i] + " which is not on "@ + disk)
    } else {
        reference_error(devices, disk, i + 1)
    }
}

pub open spec fn minimum_text() -> Seq<char> {
    decimal(ROOT_MIN_BYTES as nat) + " minimum"@
}

/// What is wrong with a custom plan, if anything.
pub open spec fn actions_error(actions: Seq<PartitionAction>, disk: Seq<char>) -> Option<Seq<char>> {
    if first_undersize(actions, 0) is Some {
        Some(
            "root partition too small: "@ + decimal(first_undersize(actions, 0)->0 as nat) + " < "@
                + minimum_text(),
        )
    } else if count_roots(actions) != 1 {
        Some("plan must have exactly one root, got "@ + decimal(count_roots(actions)))
    } else if count_esps(actions) != 1 {
        Some("plan must have exactly one ESP, got "@ + decimal(count_esps(actions)))
    } else {
        reference_error(targets(actions), disk, 0)
    }
}

/// What is wrong with a request, if anything.
pub open spec fn spec_error(s: InstallSpec) -> Option<Seq<char>> {
    if !is_under_dev(s.disk@) {
        Some("disk must be a /dev/ path, got "@ + path_debug(s.disk@))
    } else if is_blank(s.image@) {
        Some("image must be non-empty"@)
    } else if is_blank(s.hostname@) {
        Some("hostname must be non-empty"@)
    } else {
        match s.plan {
            PartitionPlan::EraseDisk => None,
            PartitionPlan::FreeSpace { gap_size_bytes, .. } => if gap_size_bytes < ROOT_MIN_BYTES {
                Some(
                    "free-space gap too small: "@ + decimal(gap_size_bytes as nat) + " < "@
                        + minimum_text(),
                )
            } else {
                None
            },
            PartitionPlan::Custom { actions } => actions_error(actions@, s.disk@),
        }
    }
}

/// How a path looks in debug output.
pub uninterp spec fn path_debug(p: Seq<char>) -> Seq<char>;

/// `{:?}` of a `std::path::Path`: quoted, with escapes. The result depends
/// on the path's text alone, so it has a name.
#[verifier::external_body]
fn debug_path(p: &str) -> (r: String)
    ensures
        r@ == path_debug(p@),
{
    format!("{:?}", std::path::Path::new(p))
}

fn minimum() -> (r: String)
    ensures
        r@ == minimum_text(),
{
    let n = text::decimal_string(ROOT_MIN_BYTES);
    text::cat2(n.as_str(), " minimum")
}

/// The existing partitions that the actions refer to, in order.
fn referenced(actions: &Vec<PartitionAction>) -> (r: Vec<String>)
    ensures
        views(r@) == targets(actions@),
{
    let mut out: Vec<String> = Vec::new();
    let mut i: usize = 0;
    assert(actions@.take(0) =~= Seq::empty());
    while i < actions.len()
        invariant
            i <= actions@.len(),
            views(out@) == targets(actions@.take(i as int)),
        decreases actions@.len() - i,
    {
        let ghost before = out@;
        let ghost next = actions@.take(i + 1);
        assert(next.drop_last() =~= actions@.take(i as int));
        assert(next.last() == actions@[i as int]);
        match &actions[i] {
            PartitionAction::Delete { device } => {
                out.push(device.clone());
                assert(views(out@) =~= views(before).push(device@));
            },
            PartitionAction::UseAsEsp { device, .. } => {
                out.push(device.clone());
                assert(views(out@) =~= views(before).push(device@));
            },
            PartitionAction::UseAsRoot { device } => {
                out.push(device.clone());
                assert(views(out@) =~= views(before).push(device@));
            },
            _ => {},
        }
        i += 1;
    }
    assert(actions@.take(actions@.len() as int) =~= actions@);
    out
}

fn check_references(devices: &Vec<String>, disk: &str) -> (r: Option<String>)
    ensures
        text::opt_view(r) == reference_error(views(devices@), disk@, 0),
{
    let ghost devs = views(devices@);
    let mut i: usize = 0;
    while i < devices.len()
        invariant
            i <= devices@.len(),
            devs == views(devices@),
            reference_error(devs, disk@, 0) == reference_error(devs, disk@, i as int),
        decreases devices@.len() - i,
    {
        assert(devs[i as int] == devices@[i as int]@);
        let mut j: usize = 0;
        while j < i
            invariant
                j <= i < devices@.len(),
                devs == views(devices@),
                reference_error(devs, disk@, 0) == reference_error(devs, disk@, i as int),
                devs[i as int] == devices@[i as int]@,
                forall|k: int| 0 <= k < j ==> !same_path(#[trigger] devs[k], devs[i as int]),
            decreases i - j,
        {
            assert(devs[j as int] == devices@[j as int]@);
            if path::paths_equal(devices[j].as_str(), devices[i].as_str()) {
                assert(is_repeat(devs, i as int));
                return Some(
                    text::cat2("device referenced twice in plan: ", devices[i].as_str()),
                );
            }
            j += 1;
        }
        assert(!is_repeat(devs, i as int));
        if !text::starts_with(devices[i].as_str(), disk) {
            return Some(
                text::cat4("plan references ", devices[i].as_str(), " which is not on ", disk),
            );
        }
        i += 1;
    }
    None
}

fn check_actions(actions: &Vec<PartitionAction>, disk: &str) -> (r: Option<String>)
    ensures
        text::opt_view(r) == actions_error(actions@, disk@),
{
    let mut roots: u64 = 0;
    let mut esps: u64 = 0;
    let mut i: usize = 0;
    assert(actions@.take(0) =~= Seq::empty());
    while i < actions.len()
        invariant
            i <= actions@.len(),
            roots <= i,
            esps <= i,
            roots == count_roots(actions@.take(i as int)),
            esps == count_esps(actions@.take(i as int)),
            first_undersize(actions@, 0) == first_undersize(actions@, i as int),
        decreases actions@.len() - i,
    {
        let ghost next = actions@.take(i + 1);
        assert(next.drop_last() =~= actions@.take(i as int));
        assert(next.last() == actions@[i as int]);
        match &actions[i] {
            PartitionAction::UseAsRoot { .. } => {
                roots += 1;
            },
            PartitionAction::CreateRoot { size_bytes, .. } => {
                roots += 1;
                if let Some(s) = size_bytes {
                    if *s < ROOT_MIN_BYTES {
                        let got = text::decimal_string(*s);
                        let least = minimum();
                        return Some(
                            text::cat4(
                                "root partition too small: ",
                                got.as_str(),
                                " < ",
                                least.as_str(),
                            ),
                        );
                    }
                }
            },
            PartitionAction::UseAsEsp { .. } => {
                esps += 1;
            },
            PartitionAction::CreateEsp { .. } => {
                esps += 1;
            },
            PartitionAction::Delete { .. } => {},
        }
        i += 1;
    }
    assert(actions@.take(actions@.len() as int) =~= actions@);
    if roots != 1 {
        let got = text::decimal_string(roots);
        return Some(text::cat2("plan must have exactly one root, got ", got.as_str()));
    }
    if esps != 1 {
        let got = text::decimal_string(esps);
        return Some(text::cat2("plan must have exactly one ESP, got ", got.as_str()));
    }
    let devices = referenced(actions);
    check_references(&devices, disk)
}

/// Static checks on a request: device-level checks (partitions exist, gaps
/// really free) happen against a fresh probe when the plan is realized.
pub fn validate_spec(spec: &InstallSpec) -> (r: Result<(), EngineError>)
    ensures
        match r {
            Ok(_) => spec_error(*spec) is None,
            Err(e) => spec_error(*spec) == Some(e@.1) && e@.0 == Fault::InvalidSpec,
        },
{
    if !path::under_dev(spec.disk.as_str()) {
        let shown = debug_path(spec.disk.as_str());
        return Err(
            EngineError::InvalidSpec(text::cat2("disk must be a /dev/ path, got ", shown.as_str())),
        );
    }
    if text::blank(spec.image.as_str()) {
        return Err(EngineError::InvalidSpec("image must be non-empty".to_owned()));
    }
    if text::blank(spec.hostname.as_str()) {
        return Err(EngineError::InvalidSpec("hostname must be non-empty".to_owned()));
    }
    match &spec.plan {
        PartitionPlan::EraseDisk => Ok(()),
        PartitionPlan::FreeSpace { gap_size_bytes, .. } => {
            if *gap_size_bytes < ROOT_MIN_BYTES {
                let got = text::decimal_string(*gap_size_bytes);
                let least = minimum();
                return Err(
                    EngineError::InvalidSpec(
                        text::cat4(
                            "free-space gap too small: ",
                            got.as_str(),
                            " < ",
                            least.as_str(),
                        ),
                    ),
                );
            }
            Ok(())
        },
        PartitionPlan::Custom { actions } => {
            match check_actions(actions, spec.disk.as_str()) {
                Some(m) => Err(EngineError::InvalidSpec(m)),
                None => Ok(()),
            }
        },
    }
}

// ---------- views ----------

pub enum PlanView {
    EraseDisk,
    FreeSpace { gap_start_bytes: u64, gap_size_bytes: u64 },
    Custom(Seq<PartitionAction>),
}

impl View for PartitionPlan {
    type V = PlanView;

    open spec fn view(&self) -> PlanView {
        match *self {
            PartitionPlan::EraseDisk => PlanView::EraseDisk,
            PartitionPlan::FreeSpace { gap_start_bytes, gap_size_bytes } => PlanView::FreeSpace {
                gap_start_bytes,
                gap_size_bytes,
            },
            PartitionPlan::Custom { actions } => PlanView::Custom(actions@),
        }
    }
}

pub struct SpecView {
    pub disk: Seq<char>,
    pub image: Seq<char>,
    pub hostname: Seq<char>,
    pub encryption: Encryption,
    pub plan: PlanView,
}

impl View for InstallSpec {
    type V = SpecView;

    open spec fn view(&self) -> SpecView {
        SpecView {
            disk: self.disk@,
            image: self.image@,
            hostname: self.hostname@,
            encryption: self.encryption,
            plan: self.plan@,
        }
    }
}

/// A request that passes the checks with a custom plan has exactly one root
/// and one ESP, no root below the floor, and refers to partitions of its
/// own disk only, to each of them once.
pub proof fn law_valid_custom_plans(spec: InstallSpec, i: int, j: int)
    requires
        spec_error(spec) is None,
        spec.plan is Custom,
    ensures
        ({
            let actions = spec.plan->actions@;
            let devices = targets(actions);
            &&& count_roots(actions) == 1
            &&& count_esps(actions) == 1
            &&& first_undersize(actions, 0) is None
            &&& 0 <= i < devices.len() ==> has_prefix(devices[i], spec.disk@)
            &&& 0 <= j < i < devices.len() ==> !same_path(devices[j], devices[i])
        }),
{
    let devices = targets(spec.plan->actions@);
    if 0 <= i < devices.len() {
        lemma_references(devices, spec.disk@, 0, i);
    }
}

proof fn lemma_references(devices: Seq<Seq<char>>, disk: Seq<char>, k: int, i: int)
    requires
        0 <= k <= i < devices.len(),
        reference_error(devices, disk, k) is None,
    ensures
        has_prefix(devices[i], disk),
        !is_repeat(devices, i),
    decreases i - k,
{
    if k < i {
        lemma_references(devices, disk, k + 1, i);
    }
}

/// The partition that the action names, where it names one.
pub open spec fn device_of(a: PartitionAction) -> Option<Seq<char>> {
    match a {
        PartitionAction::Delete { device } => Some(device@),
        PartitionAction::UseAsEsp { device, .. } => Some(device@),
        PartitionAction::UseAsRoot { device } => Some(device@),
        PartitionAction::CreateRoot { .. } => None,
        PartitionAction::CreateEsp { .. } => None,
    }
}

/// The action provides the root.
pub open spec fn provides_root(a: PartitionAction) -> bool {
    a is UseAsRoot || a is CreateRoot
}

/// Exactly one action, this one, provides the root.
pub open spec fn is_only_root(actions: Seq<PartitionAction>, k: int) -> bool {
    &&& 0 <= k < actions.len() && provides_root(actions[k])
    &&& forall|j: int|
        0 <= j < actions.len() && j != k ==> !provides_root(#[trigger] actions[j])
}

pub open spec fn has_one_root(actions: Seq<PartitionAction>) -> bool {
    exists|k: int| is_only_root(actions, k)
}

proof fn lemma_no_root(actions: Seq<PartitionAction>)
    ensures
        count_roots(actions) == 0 <==> forall|j: int|
            0 <= j < actions.len() ==> !provides_root(#[trigger] actions[j]),
    decreases actions.len(),
{
    if actions.len() > 0 {
        let front = actions.drop_last();
        lemma_no_root(front);
        assert(actions[actions.len() - 1] == actions.last());
        if count_roots(actions) == 0 {
            assert forall|j: int| 0 <= j < actions.len() implies !provides_root(
                #[trigger] actions[j],
            ) by {
                if j < front.len() {
                    assert(front[j] == actions[j]);
                }
            }
        } else if count_roots(front) > 0 {
            let j = choose|j: int| 0 <= j < front.len() && provides_root(#[trigger] front[j]);
            assert(actions[j] == front[j]);
        }
    }
}

proof fn lemma_only_root(actions: Seq<PartitionAction>, k: int)
    requires
        is_only_root(actions, k),
    ensures
        count_roots(actions) == 1,
    decreases actions.len(),
{
    let front = actions.drop_last();
    assert(actions[actions.len() - 1] == actions.last());
    assert forall|j: int| 0 <= j < front.len() && j != k implies !provides_root(
        #[trigger] front[j],
    ) by {
        assert(front[j] == actions[j]);
    }
    if k < front.len() {
        assert(front[k] == actions[k]);
        lemma_only_root(front, k);
    } else {
        lemma_no_root(front);
    }
}

proof fn lemma_find_root(actions: Seq<PartitionAction>) -> (k: int)
    requires
        count_roots(actions) == 1,
    ensures
        is_only_root(actions, k),
    decreases actions.len(),
{
    let front = actions.drop_last();
    let n = actions.len() - 1;
    assert(actions[n] == actions.last());
    if provides_root(actions[n]) {
        lemma_no_root(front);
        assert forall|j: int| 0 <= j < actions.len() && j != n implies !provides_root(
            #[trigger] actions[j],
        ) by {
            assert(front[j] == actions[j]);
        }
        n
    } else {
        let k = lemma_find_root(front);
        assert(front[k] == actions[k]);
        assert forall|j: int| 0 <= j < actions.len() && j != k implies !provides_root(
            #[trigger] actions[j],
        ) by {
            if j < front.len() {
                assert(front[j] == actions[j]);
            }
        }
        k
    }
}

/// Counting finds one root exactly when there is one.
pub proof fn lemma_one_root(actions: Seq<PartitionAction>)
    ensures
        count_roots(actions) == 1 <==> has_one_root(actions),
{
    if count_roots(actions) == 1 {
        let k = lemma_find_root(actions);
    }
    if has_one_root(actions) {
        let k = choose|k: int| is_only_root(actions, k);
        lemma_only_root(actions, k);
    }
}

/// The action provides the ESP.
pub open spec fn provides_esp(a: PartitionAction) -> bool {
    a is UseAsEsp || a is CreateEsp
}

/// Exactly one action, this one, provides the ESP.
pub open spec fn is_only_esp(actions: Seq<PartitionAction>, k: int) -> bool {
    &&& 0 <= k < actions.len() && provides_esp(actions[k])
    &&& forall|j: int|
        0 <= j < actions.len() && j != k ==> !provides_esp(#[trigger] actions[j])
}

pub open spec fn has_one_esp(actions: Seq<PartitionAction>) -> bool {
    exists|k: int| is_only_esp(actions, k)
}

proof fn lemma_no_esp(actions: Seq<PartitionAction>)
    ensures
        count_esps(actions) == 0 <==> forall|j: int|
            0 <= j < actions.len() ==> !provides_esp(#[trigger] actions[j]),
    decreases actions.len(),
{
    if actions.len() > 0 {
        let front = actions.drop_last();
        lemma_no_esp(front);
        assert(actions[actions.len() - 1] == actions.last());
        if count_esps(actions) == 0 {
            assert forall|j: int| 0 <= j < actions.len() implies !provides_esp(
                #[trigger] actions[j],
            ) by {
                if j < front.len() {
                    assert(front[j] == actions[j]);
                }
            }
        } else if count_esps(front) > 0 {
            let j = choose|j: int| 0 <= j < front.len() && provides_esp(#[trigger] front[j]);
            assert(actions[j] == front[j]);
        }
    }
}

proof fn lemma_only_esp(actions: Seq<PartitionAction>, k: int)
    requires
        is_only_esp(actions, k),
    ensures
        count_esps(actions) == 1,
    decreases actions.len(),
{
    let front = actions.drop_last();
    assert(actions[actions.len() - 1] == actions.last());
    assert forall|j: int| 0 <= j < front.len() && j != k implies !provides_esp(
        #[trigger] front[j],
    ) by {
        assert(front[j] == actions[j]);
    }
    if k < front.len() {
        assert(front[k] == actions[k]);
        lemma_only_esp(front, k);
    } else {
        lemma_no_esp(front);
    }
}

proof fn lemma_find_esp(actions: Seq<PartitionAction>) -> (k: int)
    requires
        count_esps(actions) == 1,
    ensures
        is_only_esp(actions, k),
    decreases actions.len(),
{
    let front = actions.drop_last();
    let n = actions.len() - 1;
    assert(actions[n] == actions.last());
    if provides_esp(actions[n]) {
        lemma_no_esp(front);
        assert forall|j: int| 0 <= j < actions.len() && j != n implies !provides_esp(
            #[trigger] actions[j],
        ) by {
            assert(front[j] == actions[j]);
        }
        n
    } else {
        let k = lemma_find_esp(front);
        assert(front[k] == actions[k]);
        assert forall|j: int| 0 <= j < actions.len() && j != k implies !provides_esp(
            #[trigger] actions[j],
        ) by {
            if j < front.len() {
                assert(front[j] == actions[j]);
            }
        }
        k
    }
}

/// Counting finds one ESP exactly when there is one.
pub proof fn lemma_one_esp(actions: Seq<PartitionAction>)
    ensures
        count_esps(actions) == 1 <==> has_one_esp(actions),
{
    if count_esps(actions) == 1 {
        let k = lemma_find_esp(actions);
    }
    if has_one_esp(actions) {
        let k = choose|k: int| is_only_esp(actions, k);
        lemma_only_esp(actions, k);
    }
}

proof fn lemma_undersize(actions: Seq<PartitionAction>, i: int)
    requires
        0 <= i <= actions.len(),
    ensures
        first_undersize(actions, i) is None <==> forall|k: int|
            i <= k < actions.len() ==> is_large_enough(#[trigger] actions[k]),
    decreases actions.len() - i,
{
    if i < actions.len() {
        lemma_undersize(actions, i + 1);
    }
}

/// The action does not ask for a root of a size below 8 GiB.
pub open spec fn is_large_enough(a: PartitionAction) -> bool {
    a matches PartitionAction::CreateRoot { size_bytes: Some(s), .. } ==> s >= 8589934592
}

/// The place of an action's device among those of the plan.
proof fn lemma_target_place(actions: Seq<PartitionAction>, k: int) -> (i: int)
    requires
        0 <= k < actions.len(),
        device_of(actions[k]) is Some,
    ensures
        0 <= i < targets(actions).len(),
        targets(actions)[i] == device_of(actions[k])->0,
        i == targets(actions.take(k)).len(),
    decreases actions.len(),
{
    let front = actions.drop_last();
    if k < actions.len() - 1 {
        let i = lemma_target_place(front, k);
        assert(front.take(k) =~= actions.take(k));
        i
    } else {
        assert(actions.take(k) =~= front);
        targets(front).len() as int
    }
}

/// Devices of earlier actions come first.
proof fn lemma_targets_grow(actions: Seq<PartitionAction>, k: int, l: int)
    requires
        0 <= k < l <= actions.len(),
        device_of(actions[k]) is Some,
    ensures
        targets(actions.take(k)).len() < targets(actions.take(l)).len(),
    decreases l,
{
    assert(actions.take(l).drop_last() =~= actions.take(l - 1));
    assert(actions.take(l).last() == actions[l - 1]);
    if k < l - 1 {
        lemma_targets_grow(actions, k, l - 1);
    }
}

/// The action that a device of the plan comes from.
proof fn lemma_target_source(actions: Seq<PartitionAction>, i: int) -> (k: int)
    requires
        0 <= i < targets(actions).len(),
    ensures
        0 <= k < actions.len(),
        device_of(actions[k]) == Some(targets(actions)[i]),
        targets(actions.take(k)).len() == i,
    decreases actions.len(),
{
    let front = actions.drop_last();
    if i < targets(front).len() {
        let k = lemma_target_source(front, i);
        assert(front.take(k) =~= actions.take(k));
        k
    } else {
        let k = actions.len() - 1;
        assert(actions.take(k) =~= front);
        k
    }
}

proof fn lemma_reference_error(devices: Seq<Seq<char>>, disk: Seq<char>, i: int)
    requires
        0 <= i <= devices.len(),
    ensures
        reference_error(devices, disk, i) is None <==> forall|k: int|
            i <= k < devices.len() ==> !is_repeat(devices, k) && has_prefix(#[trigger] devices[k], disk),
    decreases devices.len() - i,
{
    if i < devices.len() {
        lemma_reference_error(devices, disk, i + 1);
    }
}

/// The plan's devices are on the disk, and none is named twice.
pub open spec fn names_each_once(actions: Seq<PartitionAction>, disk: Seq<char>) -> bool {
    &&& forall|k: int|
        0 <= k < actions.len() && device_of(#[trigger] actions[k]) is Some ==> has_prefix(
            device_of(actions[k])->0,
            disk,
        )
    &&& forall|k: int, l: int|
        0 <= k < l < actions.len() && device_of(#[trigger] actions[k]) is Some && device_of(
            #[trigger] actions[l],
        ) is Some ==> !same_path(device_of(actions[k])->0, device_of(actions[l])->0)
}

proof fn lemma_names_each_once(actions: Seq<PartitionAction>, disk: Seq<char>)
    ensures
        names_each_once(actions, disk) <==> reference_error(targets(actions), disk, 0) is None,
{
    let devices = targets(actions);
    lemma_reference_error(devices, disk, 0);
    assert(actions.take(actions.len() as int) =~= actions);
    if reference_error(devices, disk, 0) is None {
        assert forall|k: int| 0 <= k < actions.len() && device_of(
            #[trigger] actions[k],
        ) is Some implies has_prefix(device_of(actions[k])->0, disk) by {
            let i = lemma_target_place(actions, k);
            assert(has_prefix(devices[i], disk));
        }
        assert forall|k: int, l: int|
            0 <= k < l < actions.len() && device_of(#[trigger] actions[k]) is Some && device_of(
                #[trigger] actions[l],
            ) is Some implies !same_path(
            device_of(actions[k])->0,
            device_of(actions[l])->0,
        ) by {
            let i = lemma_target_place(actions, k);
            let j = lemma_target_place(actions, l);
            lemma_targets_grow(actions, k, l);
            assert(!is_repeat(devices, j)) by {
                assert(has_prefix(devices[j], disk));
            }
            assert(!same_path(devices[i], devices[j]));
        }
    }
    if names_each_once(actions, disk) {
        assert forall|j: int| 0 <= j < devices.len() implies !is_repeat(devices, j) && has_prefix(
            #[trigger] devices[j],
            disk,
        ) by {
            let l = lemma_target_source(actions, j);
            assert(device_of(actions[l]) is Some);
            if is_repeat(devices, j) {
                let i = choose|i: int| 0 <= i < j && same_path(#[trigger] devices[i], devices[j]);
                let k = lemma_target_source(actions, i);
                if l < k {
                    lemma_targets_grow(actions, l, k);
                }
                assert(k < l);
                assert(device_of(actions[k]) is Some);
            }
        }
    }
}

/// A request is valid exactly when it makes sense: the disk is a device, the
/// image and the hostname are not blank, and the plan can be carried out:
/// a gap of at least 8 GiB, or actions with exactly one root, of at least
/// 8 GiB, and exactly one ESP, which name only partitions of the disk and
/// none of them twice.
pub proof fn law_requests_are_valid_when_they_make_sense(s: InstallSpec)
    ensures
        spec_error(s) is None <==> {
            &&& is_under_dev(s.disk@)
            &&& exists|i: int| 0 <= i < s.image@.len() && !text::is_white(#[trigger] s.image@[i])
            &&& exists|i: int|
                0 <= i < s.hostname@.len() && !text::is_white(#[trigger] s.hostname@[i])
            &&& match s.plan {
                PartitionPlan::EraseDisk => true,
                PartitionPlan::FreeSpace { gap_size_bytes, .. } => gap_size_bytes >= 8589934592,
                PartitionPlan::Custom { actions } => {
                    &&& has_one_root(actions@) && has_one_esp(actions@)
                    &&& forall|k: int|
                        0 <= k < actions@.len() ==> is_large_enough(#[trigger] actions@[k])
                    &&& names_each_once(actions@, s.disk@)
                },
            }
        },
{
    text::law_trimming_strips(s.image@);
    text::law_trimming_strips(s.hostname@);
    match s.plan {
        PartitionPlan::Custom { actions } => {
            lemma_one_root(actions@);
            lemma_one_esp(actions@);
            lemma_undersize(actions@, 0);
            lemma_names_each_once(actions@, s.disk@);
        },
        _ => {},
    }
}

/// A failure is told by the step that it came in and by its own words.
pub proof fn law_errors_tell_step_and_reason(step: Step, m: Seq<char>)
    ensures
        error_text((Fault::InStep(step), m)) == step.name() + ": "@ + m,
        error_text((Fault::InvalidSpec, m)) == "invalid spec: "@ + m,
        error_text((Fault::Cancelled, m)) == "cancelled by user"@,
{
}

/// The steps are told apart by their names.
pub proof fn law_steps_have_their_own_names(a: Step, b: Step)
    ensures
        a.name() == b.name() ==> a == b,
{
    reveal_strlit("partition");
    reveal_strlit("format");
    reveal_strlit("luks");
    reveal_strlit("mkfs");
    reveal_strlit("mount");
    reveal_strlit("bootc");
    reveal_strlit("hostname");
    reveal_strlit("bls");
    reveal_strlit("finalize");
    if a.name() == b.name() {
        assert(a.name().len() == b.name().len());
        assert(a.name()[0] == b.name()[0]);
        assert(a.name()[1] == b.name()[1]);
    }
}

} // verus!
