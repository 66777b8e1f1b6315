//! The install pipeline: partition, format, LUKS, mkfs, mount, bootc,
//! hostname, boot entries, finalize.
//!
//! [`Pipeline`] decides; whoever drives it carries out one [`Order`] at a
//! time and hands back a [`Reply`]. Cancellation is honoured between steps,
//! and inside the two long commands by interrupting them. Whatever happens
//! once the request was found valid, a teardown comes last.
use vstd::prelude::*;

use crate::bls;
use crate::bootc::{
    self, copy_reports, json_array_len, law_copy_reports_never_fall, CopyProgress, COPY_BAND_END,
};
use crate::command::{no_work, push_work, run_all, Command, CommandView, Work, WorkView};
use crate::install::{
    error_text, spec_error, validate_spec, EngineError, Event, EventView, Fault, InstallSpec,
    LogStream, Step,
};
use crate::luks::{self, luks_plan};
use crate::mount;
use crate::partition::{PartitionSet, PartitionSetView};
use crate::steps;
use crate::text::{self, opt_view, trimmed, views, CharClass};

verus! {

/// What the pipeline waits for.
#[derive(Debug, Clone, Copy, PartialEq, Eq, Structural)]
pub enum Phase {
    Preflight,
    Partition,
    Format,
    Luks,
    Mkfs,
    Mount,
    Scratch,
    Inspect,
    Copy,
    Install,
    Hostname,
    Uuid,
    Bls,
    Finalize,
    Teardown,
    Over,
}

/// What the driver is to do next.
#[derive(Debug, PartialEq, Eq)]
pub enum Order {
    /// Do all of this, in order.
    Perform(Vec<Work>),
    /// Realize the partition plan.
    Partition,
    /// Run the command and hand back its standard output.
    Capture(Command),
    /// Run the command under the eye of the layer counter, until it ends
    /// or the install is cancelled.
    Copy(Command, CopyProgress),
    /// Run the command until it ends or the install is cancelled.
    Install(Command),
    /// Add this kernel argument to the boot entries.
    EditEntries(String),
    /// The install is over.
    Finish(Result<(), EngineError>),
}

#[verifier::ext_equal]
pub enum OrderView {
    Perform(Seq<WorkView>),
    Partition,
    Capture(CommandView),
    Copy(CommandView, CopyProgress),
    Install(CommandView),
    EditEntries(Seq<char>),
    Finish(Result<(), (Fault, Seq<char>)>),
}

impl View for Order {
    type V = OrderView;

    open spec fn view(&self) -> OrderView {
        match *self {
            Order::Perform(w) => OrderView::Perform(views(w@)),
            Order::Partition => OrderView::Partition,
            Order::Capture(c) => OrderView::Capture(c@),
            Order::Copy(c, p) => OrderView::Copy(c@, p),
            Order::Install(c) => OrderView::Install(c@),
            Order::EditEntries(k) => OrderView::EditEntries(k@),
            Order::Finish(r) => OrderView::Finish(
                match r {
                    Ok(_) => Ok(()),
                    Err(e) => Err(e@),
                },
            ),
        }
    }
}

/// How an order was carried out.
#[derive(Debug, PartialEq, Eq)]
pub enum Reply {
    Done,
    Failed(String),
    Partitioned(PartitionSet),
    Captured(String),
    /// The install was cancelled while the command ran.
    Interrupted,
}

pub enum ReplyView {
    Done,
    Failed(Seq<char>),
    Partitioned(PartitionSetView),
    Captured(Seq<char>),
    Interrupted,
}

impl View for Reply {
    type V = ReplyView;

    open spec fn view(&self) -> ReplyView {
        match *self {
            Reply::Done => ReplyView::Done,
            Reply::Failed(m) => ReplyView::Failed(m@),
            Reply::Partitioned(s) => ReplyView::Partitioned(s@),
            Reply::Captured(t) => ReplyView::Captured(t@),
            Reply::Interrupted => ReplyView::Interrupted,
        }
    }
}

/// Events to report, then an order.
#[derive(Debug, PartialEq, Eq)]
pub struct Turn {
    pub events: Vec<Event>,
    pub order: Order,
}

#[verifier::ext_equal]
pub struct TurnView {
    pub events: Seq<EventView>,
    pub order: OrderView,
}

impl View for Turn {
    type V = TurnView;

    open spec fn view(&self) -> TurnView {
        TurnView { events: views(self.events@), order: self.order@ }
    }
}

/// The state of one install.
#[derive(Debug, PartialEq, Eq)]
pub struct Pipeline {
    pub spec: InstallSpec,
    pub phase: Phase,
    pub parts: Option<PartitionSet>,
    pub failure: Option<EngineError>,
}

pub struct PipelineView {
    pub spec: InstallSpec,
    pub phase: Phase,
    pub parts: Option<PartitionSetView>,
    pub failure: Option<(Fault, Seq<char>)>,
}

impl View for Pipeline {
    type V = PipelineView;

    open spec fn view(&self) -> PipelineView {
        PipelineView {
            spec: self.spec,
            phase: self.phase,
            parts: opt_view(self.parts),
            failure: opt_view(self.failure),
        }
    }
}

// ---------- what each phase does ----------

/// The block device that holds the root filesystem.
pub open spec fn root_device(spec: InstallSpec, parts: PartitionSetView) -> Seq<char> {
    if spec.encryption !is Unencrypted {
        luks::mapper_path()
    } else {
        parts.root
    }
}

/// The start of a step, with its baseline percentage.
pub open spec fn step_events(step: Step, detail: Seq<char>) -> Seq<EventView> {
    seq![
        EventView::StepChanged { step, detail },
        EventView::Progress { percent: step.baseline(), step },
    ]
}

pub open spec fn runs(commands: Seq<CommandView>) -> Seq<WorkView> {
    commands.map_values(|c: CommandView| WorkView::Run(c))
}

/// What the last reply read from a command's output.
pub open spec fn captured(reply: ReplyView) -> Seq<char> {
    match reply {
        ReplyView::Captured(t) => trimmed(t, CharClass::White),
        _ => Seq::empty(),
    }
}

/// The layer counter at the start of the copy, from the manifest that the
/// last reply brought.
pub open spec fn fresh_counter(reply: ReplyView) -> CopyProgress {
    CopyProgress {
        copied: 0,
        total: match reply {
            ReplyView::Captured(_) => match json_array_len(captured(reply), "layers"@) {
                Some(n) => Some(n as usize),
                None => None,
            },
            _ => None,
        },
    }
}

/// What entering a phase reports and orders.
pub open spec fn entering(
    phase: Phase,
    spec: InstallSpec,
    parts: PartitionSetView,
    reply: ReplyView,
    key: Seq<char>,
) -> TurnView {
    match phase {
        Phase::Partition => TurnView {
            events: step_events(
                Step::Partition,
                "partitioning "@ + spec.disk@ + " ("@ + spec.plan.description() + ")"@,
            ),
            order: OrderView::Partition,
        },
        Phase::Format => TurnView {
            events: step_events(Step::Format, "formatting boot filesystems"@),
            order: OrderView::Perform(steps::format_work(parts)),
        },
        Phase::Luks => TurnView {
            events: step_events(Step::Luks, "configuring LUKS"@),
            order: OrderView::Perform(runs(luks_plan(parts.root, spec.encryption, key))),
        },
        Phase::Mkfs => TurnView {
            events: step_events(Step::Mkfs, "mkfs.btrfs on "@ + root_device(spec, parts)),
            order: OrderView::Perform(
                seq![WorkView::Run(steps::mkfs_command(root_device(spec, parts)))],
            ),
        },
        Phase::Mount => TurnView {
            events: step_events(Step::Mount, "mounting target"@),
            order: OrderView::Perform(mount::mount_work(root_device(spec, parts), parts)),
        },
        Phase::Scratch => TurnView {
            events: step_events(Step::Bootc, "installing "@ + spec.image@),
            order: OrderView::Perform(
                seq![
                    WorkView::MakeDir {
                        path: "/run/cosmonaut/scratch"@,
                        context: "mkdir scratch"@,
                    },
                ],
            ),
        },
        Phase::Inspect => TurnView {
            events: Seq::empty(),
            order: OrderView::Capture(bootc::inspect_command(spec.image@)),
        },
        Phase::Copy => TurnView {
            events: Seq::empty(),
            order: OrderView::Copy(bootc::copy_command(spec.image@), fresh_counter(reply)),
        },
        Phase::Install => TurnView {
            events: seq![EventView::Progress { percent: COPY_BAND_END, step: Step::Bootc }],
            order: OrderView::Install(bootc::install_command(spec.image@)),
        },
        Phase::Hostname => TurnView {
            events: step_events(Step::Hostname, "setting hostname to "@ + spec.hostname@),
            order: OrderView::Perform(steps::hostname_work(spec.hostname@)),
        },
        Phase::Uuid => TurnView {
            events: Seq::empty(),
            order: OrderView::Capture(luks::uuid_command(parts.root)),
        },
        Phase::Bls => TurnView {
            events: step_events(Step::Bls, "injecting "@ + bls::karg_of(captured(reply))),
            order: OrderView::EditEntries(bls::karg_of(captured(reply))),
        },
        Phase::Finalize => TurnView {
            events: step_events(Step::Finalize, "fstrim + unmount"@),
            order: OrderView::Perform(
                steps::finalize_work(spec.encryption !is Unencrypted),
            ),
        },
        _ => TurnView {
            events: Seq::empty(),
            order: OrderView::Perform(
                steps::teardown_work(spec.encryption !is Unencrypted),
            ),
        },
    }
}

/// The phase that follows a success.
pub open spec fn following(phase: Phase, encrypted: bool) -> Phase {
    match phase {
        Phase::Preflight => Phase::Partition,
        Phase::Partition => Phase::Format,
        Phase::Format => if encrypted {
            Phase::Luks
        } else {
            Phase::Mkfs
        },
        Phase::Luks => Phase::Mkfs,
        Phase::Mkfs => Phase::Mount,
        Phase::Mount => Phase::Scratch,
        Phase::Scratch => Phase::Inspect,
        Phase::Inspect => Phase::Copy,
        Phase::Copy => Phase::Install,
        Phase::Install => Phase::Hostname,
        Phase::Hostname => if encrypted {
            Phase::Uuid
        } else {
            Phase::Finalize
        },
        Phase::Uuid => Phase::Bls,
        Phase::Bls => Phase::Finalize,
        Phase::Finalize => Phase::Teardown,
        Phase::Teardown => Phase::Over,
        Phase::Over => Phase::Over,
    }
}

/// The step that a phase belongs to.
pub open spec fn step_of(phase: Phase) -> Step {
    match phase {
        Phase::Preflight => Step::Partition,
        Phase::Partition => Step::Partition,
        Phase::Format => Step::Format,
        Phase::Luks => Step::Luks,
        Phase::Mkfs => Step::Mkfs,
        Phase::Mount => Step::Mount,
        Phase::Scratch => Step::Bootc,
        Phase::Inspect => Step::Bootc,
        Phase::Copy => Step::Bootc,
        Phase::Install => Step::Bootc,
        Phase::Hostname => Step::Hostname,
        Phase::Uuid => Step::Luks,
        Phase::Bls => Step::Bls,
        Phase::Finalize => Step::Finalize,
        Phase::Teardown => Step::Finalize,
        Phase::Over => Step::Finalize,
    }
}

/// Whether a cancellation is looked for once the phase has succeeded. The
/// parts of one step, and the end of the last one, are no such points.
pub open spec fn stops_for_cancel(phase: Phase) -> bool {
    !(phase is Scratch || phase is Inspect || phase is Copy || phase is Uuid || phase is Finalize
        || phase is Teardown || phase is Over)
}

/// Replies that the order of a phase can have.
pub open spec fn reply_fits(phase: Phase, reply: ReplyView) -> bool {
    match phase {
        Phase::Preflight => reply is Done,
        Phase::Partition => reply is Partitioned || reply is Failed,
        Phase::Inspect => reply is Captured || reply is Failed,
        Phase::Uuid => reply is Captured || reply is Failed,
        Phase::Copy => reply is Done || reply is Failed || reply is Interrupted,
        Phase::Install => reply is Done || reply is Failed || reply is Interrupted,
        Phase::Teardown => reply is Done,
        Phase::Over => false,
        _ => reply is Done || reply is Failed,
    }
}

/// Phases behind the partitioning know the partitions.
pub open spec fn knows_parts(p: PipelineView) -> bool {
    p.phase is Preflight || p.phase is Partition || p.phase is Teardown || p.phase is Over
        || p.parts is Some
}

/// The turn of an install that failed: it says so and tears down.
pub open spec fn failed(p: PipelineView, e: (Fault, Seq<char>)) -> (PipelineView, TurnView) {
    (
        PipelineView { phase: Phase::Teardown, failure: Some(e), ..p },
        TurnView {
            events: seq![
                EventView::Log {
                    stream: LogStream::Engine,
                    line: "pipeline failed: "@ + error_text(e) + "; running cleanup"@,
                },
            ],
            order: OrderView::Perform(
                steps::teardown_work(p.spec.encryption !is Unencrypted),
            ),
        },
    )
}

/// The state and the turn that follow a reply.
pub open spec fn pipeline_step(
    p: PipelineView,
    reply: ReplyView,
    cancelled: bool,
    key: Seq<char>,
) -> (PipelineView, TurnView) {
    if p.phase is Teardown || p.phase is Over {
        (
            PipelineView { phase: Phase::Over, ..p },
            TurnView {
                events: Seq::empty(),
                order: OrderView::Finish(
                    match p.failure {
                        None => Ok(()),
                        Some(e) => Err(e),
                    },
                ),
            },
        )
    } else if reply is Interrupted {
        failed(p, (Fault::Cancelled, Seq::empty()))
    } else if reply is Failed && !(p.phase is Inspect) {
        failed(p, (Fault::InStep(step_of(p.phase)), reply->Failed_0))
    } else if stops_for_cancel(p.phase) && cancelled {
        failed(p, (Fault::Cancelled, Seq::empty()))
    } else {
        let parts = match reply {
            ReplyView::Partitioned(s) => Some(s),
            _ => p.parts,
        };
        let next = following(p.phase, p.spec.encryption !is Unencrypted);
        (
            PipelineView { phase: next, parts, ..p },
            entering(next, p.spec, parts->0, reply, key),
        )
    }
}

/// The first turn: an invalid request ends at once, a valid one starts by
/// clearing what an earlier install may have left behind.
pub open spec fn first_turn(spec: InstallSpec) -> TurnView {
    match spec_error(spec) {
        Some(m) => TurnView {
            events: Seq::empty(),
            order: OrderView::Finish(Err((Fault::InvalidSpec, m))),
        },
        None => TurnView {
            events: seq![
                EventView::Log {
                    stream: LogStream::Engine,
                    line: "preflight: clearing stale mounts/mappers"@,
                },
            ],
            order: OrderView::Perform(steps::preflight_work()),
        },
    }
}

// ---------- the machine ----------

fn push_event(list: &mut Vec<Event>, e: Event)
    ensures
        views(final(list)@) == views(old(list)@).push(e@),
{
    let ghost before = list@;
    list.push(e);
    assert(views(list@) =~= views(before).push(e@));
}

fn no_events() -> (r: Vec<Event>)
    ensures
        views(r@) == Seq::<EventView>::empty(),
{
    let r: Vec<Event> = Vec::new();
    assert(views(r@) =~= Seq::empty());
    r
}

fn start_step(step: Step, detail: String) -> (r: Vec<Event>)
    ensures
        views(r@) == step_events(step, detail@),
{
    let mut list = no_events();
    push_event(&mut list, Event::StepChanged { step, detail });
    push_event(&mut list, Event::Progress { percent: step.start_percent(), step });
    assert(views(list@) =~= step_events(step, detail@));
    list
}

fn trimmed_output(stdout: &str) -> (r: String)
    ensures
        r@ == trimmed(stdout@, CharClass::White),
{
    let chars = text::chars_of(stdout);
    let t = text::trim(&chars, CharClass::White);
    text::string_of(&t)
}

fn next_phase(phase: Phase, encrypted: bool) -> (r: Phase)
    ensures
        r == following(phase, encrypted),
{
    match phase {
        Phase::Preflight => Phase::Partition,
        Phase::Partition => Phase::Format,
        Phase::Format => if encrypted {
            Phase::Luks
        } else {
            Phase::Mkfs
        },
        Phase::Luks => Phase::Mkfs,
        Phase::Mkfs => Phase::Mount,
        Phase::Mount => Phase::Scratch,
        Phase::Scratch => Phase::Inspect,
        Phase::Inspect => Phase::Copy,
        Phase::Copy => Phase::Install,
        Phase::Install => Phase::Hostname,
        Phase::Hostname => if encrypted {
            Phase::Uuid
        } else {
            Phase::Finalize
        },
        Phase::Uuid => Phase::Bls,
        Phase::Bls => Phase::Finalize,
        Phase::Finalize => Phase::Teardown,
        Phase::Teardown => Phase::Over,
        Phase::Over => Phase::Over,
    }
}

fn failing_step(phase: Phase) -> (r: Step)
    ensures
        r == step_of(phase),
{
    match phase {
        Phase::Preflight => Step::Partition,
        Phase::Partition => Step::Partition,
        Phase::Format => Step::Format,
        Phase::Luks => Step::Luks,
        Phase::Mkfs => Step::Mkfs,
        Phase::Mount => Step::Mount,
        Phase::Scratch => Step::Bootc,
        Phase::Inspect => Step::Bootc,
        Phase::Copy => Step::Bootc,
        Phase::Install => Step::Bootc,
        Phase::Hostname => Step::Hostname,
        Phase::Uuid => Step::Luks,
        Phase::Bls => Step::Bls,
        Phase::Finalize => Step::Finalize,
        Phase::Teardown => Step::Finalize,
        Phase::Over => Step::Finalize,
    }
}

impl Pipeline {
    /// Starts an install.
    pub fn start(spec: InstallSpec) -> (r: (Pipeline, Turn))
        ensures
            r.1@ == first_turn(spec),
            r.0.spec == spec,
            r.0.parts is None,
            r.0.failure is None,
            r.0.phase == if spec_error(spec) is None {
                Phase::Preflight
            } else {
                Phase::Over
            },
            knows_parts(r.0@),
    {
        match validate_spec(&spec) {
            Err(e) => (
                Pipeline { spec, phase: Phase::Over, parts: None, failure: None },
                Turn { events: no_events(), order: Order::Finish(Err(e)) },
            ),
            Ok(_) => {
                let mut events = no_events();
                push_event(
                    &mut events,
                    Event::Log {
                        stream: LogStream::Engine,
                        line: "preflight: clearing stale mounts/mappers".to_owned(),
                    },
                );
                let turn = Turn { events, order: Order::Perform(steps::preflight()) };
                assert(turn@ =~= first_turn(spec));
                (Pipeline { spec, phase: Phase::Preflight, parts: None, failure: None }, turn)
            },
        }
    }

    fn teardown_order(&self) -> (r: Order)
        ensures
            r@ == OrderView::Perform(
                steps::teardown_work(self.spec.encryption !is Unencrypted),
            ),
    {
        let mut list = no_work();
        steps::teardown(&mut list, self.spec.encryption.is_luks());
        assert(views(list@) =~= steps::teardown_work(self.spec.encryption !is Unencrypted));
        Order::Perform(list)
    }

    fn fail(&mut self, e: EngineError) -> (r: Turn)
        ensures
            (final(self)@, r@) == failed(old(self)@, e@),
    {
        let shown = e.message();
        let mut events = no_events();
        push_event(
            &mut events,
            Event::Log {
                stream: LogStream::Engine,
                line: text::cat3("pipeline failed: ", shown.as_str(), "; running cleanup"),
            },
        );
        self.phase = Phase::Teardown;
        self.failure = Some(e);
        let turn = Turn { events, order: self.teardown_order() };
        assert(turn@ =~= failed(old(self)@, e@).1);
        turn
    }

    fn root_dev(&self, parts: &PartitionSet) -> (r: String)
        ensures
            r@ == root_device(self.spec, parts@),
    {
        if self.spec.encryption.is_luks() {
            "/dev/mapper/cosmonaut-root".to_owned()
        } else {
            parts.root.clone()
        }
    }

    /// What entering the phase of `self` reports and orders.
    fn enter(&self, parts: &PartitionSet, reply: &Reply, key: &str) -> (r: Turn)
        requires
            !(self.phase is Preflight || self.phase is Over),
        ensures
            r@ == entering(self.phase, self.spec, parts@, reply@, key@),
    {
        let ghost goal = entering(self.phase, self.spec, parts@, reply@, key@);
        match self.phase {
            Phase::Format => {
                let turn = Turn {
                    events: start_step(Step::Format, "formatting boot filesystems".to_owned()),
                    order: Order::Perform(steps::format(parts)),
                };
                assert(turn@ =~= goal);
                turn
            },
            Phase::Luks => {
                let work = match luks::open_with(
                    parts.root.as_str(),
                    &self.spec.encryption,
                    key,
                ) {
                    Ok(commands) => run_all(commands),
                    Err(_) => {
                        assert(luks_plan(parts@.root, self.spec.encryption, key@) =~= Seq::empty());
                        assert(runs(Seq::empty()) =~= Seq::empty());
                        no_work()
                    },
                };
                let turn = Turn {
                    events: start_step(Step::Luks, "configuring LUKS".to_owned()),
                    order: Order::Perform(work),
                };
                assert(turn@ =~= goal);
                turn
            },
            Phase::Mkfs => {
                let dev = self.root_dev(parts);
                let mut work = no_work();
                push_work(&mut work, Work::Run(steps::mkfs(dev.as_str())));
                let turn = Turn {
                    events: start_step(Step::Mkfs, text::cat2("mkfs.btrfs on ", dev.as_str())),
                    order: Order::Perform(work),
                };
                assert(views(work@) =~= goal.order->Perform_0);
                assert(turn@ =~= goal);
                turn
            },
            Phase::Mount => {
                let dev = self.root_dev(parts);
                let turn = Turn {
                    events: start_step(Step::Mount, "mounting target".to_owned()),
                    order: Order::Perform(mount::run(dev.as_str(), parts)),
                };
                assert(turn@ =~= goal);
                turn
            },
            Phase::Uuid => {
                let turn = Turn {
                    events: no_events(),
                    order: Order::Capture(luks::partition_uuid(parts.root.as_str())),
                };
                assert(turn@ =~= goal);
                turn
            },
            _ => self.enter_plain(parts, reply, key),
        }
    }

    /// The phases that do not touch the partitions.
    fn enter_plain(&self, parts: &PartitionSet, reply: &Reply, key: &str) -> (r: Turn)
        requires
            !(self.phase is Preflight || self.phase is Over || self.phase is Format
                || self.phase is Luks || self.phase is Mkfs || self.phase is Mount
                || self.phase is Uuid),
        ensures
            r@ == entering(self.phase, self.spec, parts@, reply@, key@),
    {
        let ghost goal = entering(self.phase, self.spec, parts@, reply@, key@);
        let image = self.spec.image.as_str();
        match self.phase {
            Phase::Partition => {
                let detail = text::cat5(
                    "partitioning ",
                    self.spec.disk.as_str(),
                    " (",
                    self.spec.plan.describe(),
                    ")",
                );
                let turn = Turn {
                    events: start_step(Step::Partition, detail),
                    order: Order::Partition,
                };
                assert(turn@ =~= goal);
                turn
            },
            Phase::Scratch => {
                let mut work = no_work();
                push_work(
                    &mut work,
                    Work::MakeDir {
                        path: "/run/cosmonaut/scratch".to_owned(),
                        context: "mkdir scratch".to_owned(),
                    },
                );
                let turn = Turn {
                    events: start_step(Step::Bootc, text::cat2("installing ", image)),
                    order: Order::Perform(work),
                };
                assert(views(work@) =~= goal.order->Perform_0);
                assert(turn@ =~= goal);
                turn
            },
            Phase::Inspect => {
                let turn = Turn { events: no_events(), order: Order::Capture(bootc::inspect(image)) };
                assert(turn@ =~= goal);
                turn
            },
            Phase::Copy => {
                let layers: Option<usize> = match reply {
                    Reply::Captured(t) => {
                        let raw = trimmed_output(t.as_str());
                        bootc::layer_count(Some(raw.as_str()))
                    },
                    _ => None,
                };
                let turn = Turn {
                    events: no_events(),
                    order: Order::Copy(bootc::copy(image), CopyProgress::new(layers)),
                };
                assert(turn@ =~= goal);
                turn
            },
            Phase::Install => {
                let mut events = no_events();
                push_event(
                    &mut events,
                    Event::Progress { percent: COPY_BAND_END, step: Step::Bootc },
                );
                let turn = Turn { events, order: Order::Install(bootc::install(image)) };
                assert(turn@ =~= goal);
                turn
            },
            Phase::Hostname => {
                let name = self.spec.hostname.as_str();
                let turn = Turn {
                    events: start_step(Step::Hostname, text::cat2("setting hostname to ", name)),
                    order: Order::Perform(steps::hostname(name)),
                };
                assert(turn@ =~= goal);
                turn
            },
            Phase::Bls => {
                let uuid = match reply {
                    Reply::Captured(t) => trimmed_output(t.as_str()),
                    _ => String::new(),
                };
                assert(uuid@ =~= captured(reply@));
                let karg = bls::karg(uuid.as_str());
                let turn = Turn {
                    events: start_step(Step::Bls, text::cat2("injecting ", karg.as_str())),
                    order: Order::EditEntries(karg),
                };
                assert(turn@ =~= goal);
                turn
            },
            Phase::Finalize => {
                let turn = Turn {
                    events: start_step(Step::Finalize, "fstrim + unmount".to_owned()),
                    order: Order::Perform(steps::finalize(self.spec.encryption.is_luks())),
                };
                assert(turn@ =~= goal);
                turn
            },
            _ => {
                let turn = Turn { events: no_events(), order: self.teardown_order() };
                assert(turn@ =~= goal);
                turn
            },
        }
    }

    /// Whether the order at hand can have this reply.
    pub fn accepts(&self, reply: &Reply) -> (r: bool)
        ensures
            r == (reply_fits(self.phase, reply@) && knows_parts(self@)),
    {
        let fits = match self.phase {
            Phase::Preflight | Phase::Teardown => matches!(reply, Reply::Done),
            Phase::Partition => matches!(reply, Reply::Partitioned(_) | Reply::Failed(_)),
            Phase::Inspect | Phase::Uuid => matches!(reply, Reply::Captured(_) | Reply::Failed(_)),
            Phase::Copy | Phase::Install => matches!(
                reply,
                Reply::Done | Reply::Failed(_) | Reply::Interrupted
            ),
            Phase::Over => false,
            _ => matches!(reply, Reply::Done | Reply::Failed(_)),
        };
        let early = matches!(
            self.phase,
            Phase::Preflight | Phase::Partition | Phase::Teardown | Phase::Over
        );
        fits && (early || self.parts.is_some())
    }

    /// Takes the install one turn further. `cancelled` says whether the
    /// install has been cancelled by now; `key` is the throwaway key of a
    /// TPM-only volume.
    pub fn next_with(&mut self, reply: Reply, cancelled: bool, key: &str) -> (r: Turn)
        requires
            reply_fits(old(self).phase, reply@),
            knows_parts(old(self)@),
        ensures
            (final(self)@, r@) == pipeline_step(old(self)@, reply@, cancelled, key@),
            r.order matches Order::Copy(_, p) ==> p.copied == 0,
            knows_parts(final(self)@),
    {
        if matches!(self.phase, Phase::Teardown) {
            self.phase = Phase::Over;
            let result = match &self.failure {
                None => Ok(()),
                Some(e) => Err(e.clone()),
            };
            let turn = Turn { events: no_events(), order: Order::Finish(result) };
            assert(turn@ =~= pipeline_step(old(self)@, reply@, cancelled, key@).1);
            return turn;
        }
        if matches!(reply, Reply::Interrupted) {
            return self.fail(EngineError::Cancelled);
        }
        if !matches!(self.phase, Phase::Inspect) {
            if let Reply::Failed(m) = reply {
                let step = failing_step(self.phase);
                return self.fail(EngineError::in_step(step, m));
            }
        }
        let stops = !matches!(
            self.phase,
            Phase::Scratch | Phase::Inspect | Phase::Copy | Phase::Uuid | Phase::Finalize
                | Phase::Teardown | Phase::Over
        );
        if stops && cancelled {
            return self.fail(EngineError::Cancelled);
        }
        self.phase = next_phase(self.phase, self.spec.encryption.is_luks());
        if let Reply::Partitioned(s) = &reply {
            self.parts = Some(s.clone());
        }
        match &self.parts {
            Some(parts) => self.enter(parts, &reply, key),
            None => {
                let nothing = PartitionSet {
                    esp: String::new(),
                    format_esp: false,
                    boot: None,
                    root: String::new(),
                };
                assert(self.phase is Partition);
                self.enter_plain(&nothing, &reply, key)
            },
        }
    }

    /// Takes the install one turn further, drawing the throwaway key of a
    /// TPM-only volume when its turn comes.
    pub fn next(&mut self, reply: Reply, cancelled: bool) -> (r: Turn)
        requires
            reply_fits(old(self).phase, reply@),
            knows_parts(old(self)@),
        ensures
            exists|key: Seq<char>|
                (old(self).phase is Format && old(self).spec.encryption is Tpm2Luks
                    ==> luks::is_random_uuid(key)) && (final(self)@, r@)
                    == #[trigger] pipeline_step(old(self)@, reply@, cancelled, key),
            r.order matches Order::Copy(_, p) ==> p.copied == 0,
            knows_parts(final(self)@),
    {
        let key = if matches!(self.phase, Phase::Format) {
            luks::throwaway_for(&self.spec.encryption)
        } else {
            String::new()
        };
        let ghost before = self@;
        let turn = self.next_with(reply, cancelled, key.as_str());
        assert((self@, turn@) == pipeline_step(before, reply@, cancelled, key@));
        turn
    }
}

// ---------- laws ----------

/// How far a phase has come, counting up.
pub open spec fn phase_index(phase: Phase) -> int {
    match phase {
        Phase::Preflight => 0,
        Phase::Partition => 1,
        Phase::Format => 2,
        Phase::Luks => 3,
        Phase::Mkfs => 4,
        Phase::Mount => 5,
        Phase::Scratch => 6,
        Phase::Inspect => 7,
        Phase::Copy => 8,
        Phase::Install => 9,
        Phase::Hostname => 10,
        Phase::Uuid => 11,
        Phase::Bls => 12,
        Phase::Finalize => 13,
        Phase::Teardown => 14,
        Phase::Over => 15,
    }
}

/// Every turn of a running install moves on: no phase is entered twice.
pub proof fn law_install_moves_on(
    p: PipelineView,
    reply: ReplyView,
    cancelled: bool,
    key: Seq<char>,
)
    requires
        !(p.phase is Over),
    ensures
        phase_index(pipeline_step(p, reply, cancelled, key).0.phase) > phase_index(p.phase),
{
}

/// A valid install ends only after a teardown: the one turn that finishes
/// it follows the teardown phase, and entering that phase always orders the
/// unmounting, and the closing of LUKS where it is in use.
pub proof fn law_teardown_comes_last(
    p: PipelineView,
    reply: ReplyView,
    cancelled: bool,
    key: Seq<char>,
)
    requires
        !(p.phase is Over),
    ensures
        ({
            let (q, turn) = pipeline_step(p, reply, cancelled, key);
            &&& turn.order is Finish ==> p.phase is Teardown
            &&& q.phase is Over <==> p.phase is Teardown
            &&& q.phase is Teardown ==> turn.order == OrderView::Perform(
                steps::teardown_work(p.spec.encryption !is Unencrypted),
            )
        }),
{
}

/// A cancelled install that reaches a point where cancellation counts, or
/// whose long command was interrupted, ends as cancelled.
pub proof fn law_cancellation_is_honoured(
    p: PipelineView,
    reply: ReplyView,
    cancelled: bool,
    key: Seq<char>,
)
    requires
        reply_fits(p.phase, reply),
        reply is Interrupted || (cancelled && stops_for_cancel(p.phase) && !(reply is Failed)),
    ensures
        ({
            let (q, turn) = pipeline_step(p, reply, cancelled, key);
            &&& q.phase is Teardown
            &&& q.failure == Some((Fault::Cancelled, Seq::<char>::empty()))
        }),
{
}

/// The outcome that a teardown leads to is the one that led to it: an
/// install succeeds only by way of its last step, and a failure stays.
pub proof fn law_failures_stay(
    p: PipelineView,
    reply: ReplyView,
    cancelled: bool,
    key: Seq<char>,
)
    requires
        !(p.phase is Over || p.phase is Teardown),
        p.failure is None,
        reply_fits(p.phase, reply),
    ensures
        ({
            let (q, turn) = pipeline_step(p, reply, cancelled, key);
            let end = pipeline_step(q, ReplyView::Done, cancelled, key).1.order;
            &&& q.phase is Teardown && q.failure is None ==> p.phase is Finalize && reply is Done
                && end == OrderView::Finish(Ok(()))
            &&& q.failure matches Some(e) ==> q.phase is Teardown && end == OrderView::Finish(
                Err(e),
            )
        }),
{
}

/// The steps that events announce, in order.
pub open spec fn steps_in(events: Seq<EventView>) -> Seq<Step>
    decreases events.len(),
{
    if events.len() == 0 {
        Seq::empty()
    } else {
        match events.last() {
            EventView::StepChanged { step, .. } => steps_in(events.drop_last()).push(step),
            _ => steps_in(events.drop_last()),
        }
    }
}

/// The state of an install once it got these answers.
pub open spec fn pipeline_run(p: PipelineView, inputs: Seq<Input>) -> PipelineView
    decreases inputs.len(),
{
    if inputs.len() == 0 || p.phase is Over {
        p
    } else {
        pipeline_run(
            pipeline_step(p, inputs[0].reply, inputs[0].cancelled, inputs[0].key).0,
            inputs.skip(1),
        )
    }
}

/// All steps that an install announces while it gets these answers.
pub open spec fn announced(p: PipelineView, inputs: Seq<Input>) -> Seq<Step>
    decreases inputs.len(),
{
    if inputs.len() == 0 || p.phase is Over {
        Seq::empty()
    } else {
        let (q, turn) = pipeline_step(p, inputs[0].reply, inputs[0].cancelled, inputs[0].key);
        steps_in(turn.events) + announced(q, inputs.skip(1))
    }
}

/// The steps of an install, in order.
pub open spec fn install_steps(encrypted: bool) -> Seq<Step> {
    seq![Step::Partition, Step::Format] + (if encrypted {
        seq![Step::Luks]
    } else {
        Seq::empty()
    }) + seq![Step::Mkfs, Step::Mount, Step::Bootc, Step::Hostname] + (if encrypted {
        seq![Step::Bls]
    } else {
        Seq::empty()
    }) + seq![Step::Finalize]
}

/// Whether entering the phase starts the step that it belongs to.
pub open spec fn starts_step(phase: Phase) -> bool {
    !(phase is Preflight || phase is Inspect || phase is Copy || phase is Install || phase is Uuid
        || phase is Teardown || phase is Over)
}

/// The steps that are left to announce once a phase was entered.
pub open spec fn steps_left(phase: Phase, encrypted: bool) -> Seq<Step>
    decreases 15 - phase_index(phase),
{
    if phase is Teardown || phase is Over {
        Seq::empty()
    } else {
        let next = following(phase, encrypted);
        (if starts_step(next) {
            seq![step_of(next)]
        } else {
            Seq::empty()
        }) + steps_left(next, encrypted)
    }
}

/// What one turn announces: the step of the phase that it enters, and
/// nothing where the install fails.
proof fn lemma_turn_steps(p: PipelineView, i: Input)
    requires
        !(p.phase is Over),
    ensures
        ({
            let (q, turn) = pipeline_step(p, i.reply, i.cancelled, i.key);
            &&& q.spec == p.spec
            &&& p.failure is Some ==> q.failure is Some
            &&& q.failure is None ==> q.phase == following(
                p.phase,
                p.spec.encryption !is Unencrypted,
            )
            &&& q.failure is Some && p.failure is None ==> q.phase is Teardown && steps_in(
                turn.events,
            ) == Seq::<Step>::empty()
            &&& q.failure is None ==> steps_in(turn.events) == if starts_step(q.phase) {
                seq![step_of(q.phase)]
            } else {
                Seq::empty()
            }
        }),
{
    let (q, turn) = pipeline_step(p, i.reply, i.cancelled, i.key);
    reveal_with_fuel(steps_in, 3);
    let e = turn.events;
    if e.len() == 2 {
        assert(e.drop_last().len() == 1);
        assert(e.drop_last().last() == e[0]);
        assert(e.drop_last().drop_last() =~= Seq::empty());
    } else if e.len() == 1 {
        assert(e.drop_last() =~= Seq::empty());
    }
    if q.failure is None && starts_step(q.phase) {
        assert(steps_in(e) =~= seq![step_of(q.phase)]);
    }
}

/// A torn down install announces nothing more.
proof fn lemma_nothing_left(p: PipelineView, inputs: Seq<Input>)
    requires
        p.phase is Teardown || p.phase is Over,
    ensures
        announced(p, inputs) == Seq::<Step>::empty(),
        pipeline_run(p, inputs).failure == p.failure,
    decreases inputs.len(),
{
    if inputs.len() > 0 && p.phase is Teardown {
        let (q, turn) = pipeline_step(p, inputs[0].reply, inputs[0].cancelled, inputs[0].key);
        lemma_nothing_left(q, inputs.skip(1));
        assert(steps_in(turn.events) =~= Seq::empty());
        assert(announced(p, inputs) =~= Seq::empty());
    }
}

proof fn lemma_announced(p: PipelineView, inputs: Seq<Input>)
    requires
        p.failure is None,
    ensures
        announced(p, inputs).is_prefix_of(steps_left(p.phase, p.spec.encryption !is Unencrypted)),
        pipeline_run(p, inputs).phase is Over && pipeline_run(p, inputs).failure is None
            ==> announced(p, inputs) == steps_left(p.phase, p.spec.encryption !is Unencrypted),
    decreases inputs.len(),
{
    let encrypted = p.spec.encryption !is Unencrypted;
    if p.phase is Teardown || p.phase is Over {
        lemma_nothing_left(p, inputs);
    } else if inputs.len() > 0 {
        let (q, turn) = pipeline_step(p, inputs[0].reply, inputs[0].cancelled, inputs[0].key);
        let head = steps_in(turn.events);
        let tail = announced(q, inputs.skip(1));
        lemma_turn_steps(p, inputs[0]);
        if q.failure is Some {
            lemma_nothing_left(q, inputs.skip(1));
            assert(announced(p, inputs) =~= Seq::empty());
        } else {
            lemma_announced(q, inputs.skip(1));
            let left = steps_left(q.phase, encrypted);
            assert(steps_left(p.phase, encrypted) == head + left);
            assert(announced(p, inputs) == head + tail);
            assert((head + left).take((head + tail).len() as int) =~= head + left.take(
                tail.len() as int,
            ));
        }
    }
}

/// At the start, all steps are left.
proof fn lemma_all_steps(encrypted: bool)
    ensures
        steps_left(Phase::Preflight, encrypted) == install_steps(encrypted),
{
    let end = seq![Step::Finalize];
    let tail = if encrypted {
        seq![Step::Bls] + end
    } else {
        end
    };
    assert(steps_left(Phase::Teardown, encrypted) =~= Seq::empty());
    assert(steps_left(Phase::Finalize, encrypted) =~= Seq::empty());
    assert(steps_left(Phase::Bls, encrypted) =~= end);
    assert(steps_left(Phase::Uuid, encrypted) =~= seq![Step::Bls] + end);
    assert(steps_left(Phase::Hostname, encrypted) =~= tail);
    assert(steps_left(Phase::Install, encrypted) =~= seq![Step::Hostname] + tail);
    assert(steps_left(Phase::Copy, encrypted) =~= seq![Step::Hostname] + tail);
    assert(steps_left(Phase::Inspect, encrypted) =~= seq![Step::Hostname] + tail);
    assert(steps_left(Phase::Scratch, encrypted) =~= seq![Step::Hostname] + tail);
    assert(steps_left(Phase::Mount, encrypted) =~= seq![Step::Bootc, Step::Hostname] + tail);
    let rest = seq![Step::Mkfs, Step::Mount, Step::Bootc, Step::Hostname] + tail;
    assert(steps_left(Phase::Mkfs, encrypted) =~= rest.skip(1));
    assert(steps_left(Phase::Luks, encrypted) =~= rest);
    assert(steps_left(Phase::Format, encrypted) =~= (if encrypted {
        seq![Step::Luks] + rest
    } else {
        rest
    }));
    assert(steps_left(Phase::Partition, encrypted) =~= seq![Step::Format] + steps_left(
        Phase::Format,
        encrypted,
    ));
    assert(steps_left(Phase::Preflight, encrypted) =~= install_steps(encrypted));
}

/// An install announces its steps in their order, without leaving one out:
/// whatever happens, what was announced is the start of the list, and where
/// the install succeeds, it is the whole list.
pub proof fn law_steps_come_in_order(p: PipelineView, inputs: Seq<Input>)
    requires
        p.phase is Preflight,
        p.failure is None,
    ensures
        announced(p, inputs).is_prefix_of(install_steps(p.spec.encryption !is Unencrypted)),
        pipeline_run(p, inputs).phase is Over && pipeline_run(p, inputs).failure is None
            ==> announced(p, inputs) == install_steps(p.spec.encryption !is Unencrypted),
{
    let encrypted = p.spec.encryption !is Unencrypted;
    lemma_announced(p, inputs);
    lemma_all_steps(encrypted);
}

/// The percentage that has been reported once a phase was entered.
pub open spec fn phase_percent(phase: Phase) -> int {
    match phase {
        Phase::Preflight => 0,
        Phase::Partition => 2,
        Phase::Format => 4,
        Phase::Luks => 6,
        Phase::Mkfs => 8,
        Phase::Mount => 9,
        Phase::Scratch => 10,
        Phase::Inspect => 10,
        Phase::Copy => 10,
        Phase::Install => 75,
        Phase::Hostname => 90,
        Phase::Uuid => 90,
        Phase::Bls => 93,
        Phase::Finalize => 95,
        Phase::Teardown => 95,
        Phase::Over => 95,
    }
}

/// The percentages among events, in order.
pub open spec fn percents(events: Seq<EventView>) -> Seq<int>
    decreases events.len(),
{
    if events.len() == 0 {
        Seq::empty()
    } else {
        match events.last() {
            EventView::Progress { percent, .. } => percents(events.drop_last()).push(
                percent as int,
            ),
            _ => percents(events.drop_last()),
        }
    }
}

/// One answer to an order, and what the copy prints once it is taken, where
/// it orders the copy.
pub struct Input {
    pub reply: ReplyView,
    pub cancelled: bool,
    pub key: Seq<char>,
    pub copy_events: Seq<EventView>,
}

/// What the layer counter reports while the order is carried out.
pub open spec fn order_reports(order: OrderView, copy_events: Seq<EventView>) -> Seq<int> {
    match order {
        OrderView::Copy(_, counter) => copy_reports(counter, copy_events),
        _ => Seq::empty(),
    }
}

/// All percentages that an install reports while it gets these answers: at
/// the start of its steps, and in the course of the copy.
pub open spec fn reported(p: PipelineView, inputs: Seq<Input>) -> Seq<int>
    decreases inputs.len(),
{
    if inputs.len() == 0 || p.phase is Over {
        Seq::empty()
    } else {
        let (q, turn) = pipeline_step(p, inputs[0].reply, inputs[0].cancelled, inputs[0].key);
        percents(turn.events) + order_reports(turn.order, inputs[0].copy_events) + reported(
            q,
            inputs.skip(1),
        )
    }
}

/// The highest percentage that can have been reported once a phase is done.
pub open spec fn percent_behind(phase: Phase) -> int {
    if phase is Copy {
        COPY_BAND_END as int
    } else {
        phase_percent(phase)
    }
}

proof fn lemma_turn_percents(p: PipelineView, i: Input)
    requires
        !(p.phase is Over),
    ensures
        ({
            let (q, turn) = pipeline_step(p, i.reply, i.cancelled, i.key);
            &&& percent_behind(p.phase) <= phase_percent(q.phase) <= percent_behind(q.phase) <= 100
            &&& percents(turn.events).len() <= 1
            &&& percents(turn.events).len() == 1 ==> percents(turn.events)[0] == phase_percent(
                q.phase,
            )
            &&& turn.order is Copy ==> q.phase is Copy
        }),
{
    let (q, turn) = pipeline_step(p, i.reply, i.cancelled, i.key);
    reveal_with_fuel(percents, 3);
    let e = turn.events;
    if e.len() == 2 {
        assert(e.drop_last().len() == 1);
        assert(e.drop_last().last() == e[0]);
        assert(e.drop_last().drop_last() =~= Seq::empty());
    } else if e.len() == 1 {
        assert(e.drop_last() =~= Seq::empty());
    }
}

/// What is reported between one answer and the next rises from the
/// percentage of the phase that is entered to the one behind it.
proof fn lemma_turn_reports(p: PipelineView, i: Input)
    requires
        !(p.phase is Over),
    ensures
        ({
            let (q, turn) = pipeline_step(p, i.reply, i.cancelled, i.key);
            let r = percents(turn.events) + order_reports(turn.order, i.copy_events);
            &&& forall|k: int|
                0 <= k < r.len() ==> phase_percent(q.phase) <= #[trigger] r[k] <= percent_behind(
                    q.phase,
                )
            &&& forall|k: int, l: int| 0 <= k < l < r.len() ==> #[trigger] r[k] <= #[trigger] r[l]
        }),
{
    let (q, turn) = pipeline_step(p, i.reply, i.cancelled, i.key);
    let head = percents(turn.events);
    let copy = order_reports(turn.order, i.copy_events);
    let r = head + copy;
    lemma_turn_percents(p, i);
    if let OrderView::Copy(_, counter) = turn.order {
        law_copy_reports_never_fall(counter, i.copy_events);
    }
    assert forall|k: int| 0 <= k < r.len() implies phase_percent(q.phase) <= #[trigger] r[k]
        <= percent_behind(q.phase) by {
        if k >= head.len() {
            assert(r[k] == copy[k - head.len()]);
        }
    }
    assert forall|k: int, l: int| 0 <= k < l < r.len() implies #[trigger] r[k] <= #[trigger] r[l] by {
        assert(r[l] == copy[l - head.len()]);
        if k >= head.len() {
            assert(r[k] == copy[k - head.len()]);
        }
    }
}

/// Progress never falls over the course of one install, whatever happens
/// and whatever the copy prints, and stays within a hundred percent.
pub proof fn law_progress_never_falls(p: PipelineView, inputs: Seq<Input>)
    ensures
        forall|i: int|
            0 <= i < reported(p, inputs).len() ==> percent_behind(p.phase) <= #[trigger] reported(
                p,
                inputs,
            )[i] <= 100,
        forall|i: int, j: int|
            0 <= i < j < reported(p, inputs).len() ==> #[trigger] reported(p, inputs)[i]
                <= #[trigger] reported(p, inputs)[j],
    decreases inputs.len(),
{
    if inputs.len() > 0 && !(p.phase is Over) {
        let (q, turn) = pipeline_step(p, inputs[0].reply, inputs[0].cancelled, inputs[0].key);
        lemma_turn_percents(p, inputs[0]);
        lemma_turn_reports(p, inputs[0]);
        law_progress_never_falls(q, inputs.skip(1));
        let head = percents(turn.events) + order_reports(turn.order, inputs[0].copy_events);
        let tail = reported(q, inputs.skip(1));
        let all = reported(p, inputs);
        assert(all == head + tail);
        assert forall|i: int| 0 <= i < all.len() implies percent_behind(p.phase)
            <= #[trigger] all[i] <= 100 by {
            if i >= head.len() {
                assert(all[i] == tail[i - head.len()]);
            } else {
                assert(all[i] == head[i]);
            }
        }
        assert forall|i: int, j: int| 0 <= i < j < all.len() implies #[trigger] all[i]
            <= #[trigger] all[j] by {
            if i >= head.len() {
                assert(all[i] == tail[i - head.len()]);
            } else {
                assert(all[i] == head[i]);
            }
            if j >= head.len() {
                assert(all[j] == tail[j - head.len()]);
            } else {
                assert(all[j] == head[j]);
            }
        }
    }
}

// ---------- what the turns are for ----------

/// The request and the partitions stay as they are over a turn; the
/// partitions are those that the partitioning came to.
pub proof fn law_state_is_carried(
    p: PipelineView,
    reply: ReplyView,
    cancelled: bool,
    key: Seq<char>,
)
    ensures
        ({
            let q = pipeline_step(p, reply, cancelled, key).0;
            &&& q.spec == p.spec
            &&& q.failure is None && reply is Partitioned && !(p.phase is Teardown || p.phase is Over)
                ==> q.parts == Some(reply->Partitioned_0)
            &&& !(reply is Partitioned) ==> q.parts == p.parts
        }),
{
}

/// An encrypted install never puts a filesystem on the raw partition: the
/// device of the root filesystem, the device that is mounted as the root,
/// and the mapping that was opened are one and the same. Without encryption
/// it is the root partition itself.
pub proof fn law_filesystems_go_on_the_opened_volume(
    p: PipelineView,
    reply: ReplyView,
    cancelled: bool,
    key: Seq<char>,
)
    requires
        p.failure is None,
        reply_fits(p.phase, reply),
        knows_parts(p),
    ensures
        ({
            let (q, turn) = pipeline_step(p, reply, cancelled, key);
            let w = turn.order->Perform_0;
            let device = if p.spec.encryption is Unencrypted {
                q.parts->0.root
            } else {
                "/dev/mapper/"@ + "cosmonaut-root"@
            };
            &&& q.failure is None && q.phase is Luks ==> {
                &&& turn.order is Perform && w.len() >= 2
                &&& w[1] matches WorkView::Run(c) && luks::is_cryptsetup(c, "luksOpen"@)
                    && c.args[c.args.len() - 2] == q.parts->0.root && "/dev/mapper/"@
                    + c.args.last() == device
            }
            &&& q.failure is None && q.phase is Mkfs ==> {
                &&& turn.order is Perform && w.len() == 1
                &&& steps::makes_filesystem(w[0], "mkfs.btrfs"@, device)
            }
            &&& q.failure is None && q.phase is Mount ==> {
                &&& turn.order is Perform && w.len() >= 5
                &&& mount::mounts(w[1], device, "/run/cosmonaut/target"@, "btrfs"@)
                &&& forall|k: int|
                    #![trigger w[k]]
                    0 <= k < w.len() && w[k] is Run ==> {
                        let c = w[k]->Run_0;
                        let src = c.args[c.args.len() - 2];
                        c.program == "mount"@ && (src == device || src == q.parts->0.esp || Some(
                            src,
                        ) == q.parts->0.boot)
                    }
            }
        }),
{
    let (q, turn) = pipeline_step(p, reply, cancelled, key);
    if !(p.spec.encryption is Unencrypted) {
        luks::law_volume_is_keyed_as_chosen(q.parts->0.root, p.spec.encryption, key);
        luks::law_mapping_has_one_name(q.parts->0.root, p.spec.encryption, key);
    }
    mount::law_devices_are_mounted_in_their_places(
        root_device(p.spec, q.parts->0),
        q.parts->0,
    );
}

/// The boot filesystems are made on the partitions that the partitioning
/// came to, and are mounted from there.
pub proof fn law_boot_partitions_are_formatted_and_mounted(
    p: PipelineView,
    reply: ReplyView,
    cancelled: bool,
    key: Seq<char>,
)
    requires
        p.failure is None,
        reply_fits(p.phase, reply),
        knows_parts(p),
    ensures
        ({
            let (q, turn) = pipeline_step(p, reply, cancelled, key);
            let w = turn.order->Perform_0;
            let parts = q.parts->0;
            &&& q.failure is None && q.phase is Format ==> {
                &&& turn.order is Perform
                &&& w.len() == if parts.boot is Some {
                    2int
                } else {
                    1
                }
                &&& parts.format_esp ==> steps::makes_filesystem(w[0], "mkfs.fat"@, parts.esp)
                &&& !parts.format_esp ==> w[0] is Note
                &&& parts.boot matches Some(b) ==> steps::makes_filesystem(
                    w[1],
                    "mkfs.ext4"@,
                    b,
                )
            }
            &&& q.failure is None && q.phase is Mount ==> {
                &&& turn.order is Perform
                &&& w.len() == if parts.boot is Some {
                    6int
                } else {
                    5
                }
                &&& mount::mounts(
                    w[w.len() - 1],
                    parts.esp,
                    "/run/cosmonaut/target"@ + "/boot/efi"@,
                    "vfat"@,
                )
                &&& parts.boot matches Some(b) ==> mount::mounts(
                    w[3],
                    b,
                    "/run/cosmonaut/target"@ + "/boot"@,
                    "ext4"@,
                )
            }
        }),
{
    let q = pipeline_step(p, reply, cancelled, key).0;
    steps::law_boot_filesystems_are_made(q.parts->0);
    mount::law_devices_are_mounted_in_their_places(
        root_device(p.spec, q.parts->0),
        q.parts->0,
    );
}

/// The encrypted volume is made on the root partition and keyed with what
/// the user chose; the TPM comes in exactly where the request asks for it.
pub proof fn law_installs_key_the_volume_as_chosen(
    p: PipelineView,
    reply: ReplyView,
    cancelled: bool,
    key: Seq<char>,
    k: int,
)
    requires
        p.failure is None,
        reply_fits(p.phase, reply),
        knows_parts(p),
        pipeline_step(p, reply, cancelled, key).0.failure is None,
        pipeline_step(p, reply, cancelled, key).0.phase is Luks,
    ensures
        ({
            let (q, turn) = pipeline_step(p, reply, cancelled, key);
            let w = turn.order->Perform_0;
            let e = p.spec.encryption;
            &&& turn.order is Perform
            &&& w.len() == if e is LuksPassphrase {
                2int
            } else if e is Tpm2LuksPassphrase {
                3
            } else {
                4
            }
            &&& 0 <= k < w.len() ==> (w[k] matches WorkView::Run(c) && c.stdin == Some(
                luks::secret_of(e, key),
            ))
            &&& luks::is_cryptsetup(w[0]->Run_0, "luksFormat"@) && w[0]->Run_0.args.last()
                == q.parts->0.root
            &&& luks::is_cryptsetup(w[1]->Run_0, "luksOpen"@)
            &&& w.len() > 2 ==> w[2]->Run_0.program == "systemd-cryptenroll"@
                && w[2]->Run_0.args.last() == q.parts->0.root
            &&& w.len() > 3 ==> luks::is_cryptsetup(w[3]->Run_0, "luksRemoveKey"@)
                && w[3]->Run_0.args.last() == q.parts->0.root
        }),
{
    let q = pipeline_step(p, reply, cancelled, key).0;
    luks::law_volume_is_keyed_as_chosen(q.parts->0.root, p.spec.encryption, key);
    luks::law_tpm_is_enrolled_where_asked(q.parts->0.root, p.spec.encryption, key);
}

/// The image that the request names is inspected, copied and installed: as
/// it is named where it names its transport, from a registry otherwise. The
/// copy goes to where the install reads it, below a directory that is made
/// first, and the install goes to where the root is mounted.
pub proof fn law_the_requested_image_is_installed(
    p: PipelineView,
    reply: ReplyView,
    cancelled: bool,
    key: Seq<char>,
)
    requires
        p.failure is None,
        reply_fits(p.phase, reply),
        knows_parts(p),
    ensures
        ({
            let (q, turn) = pipeline_step(p, reply, cancelled, key);
            let image = p.spec.image@;
            let source = if bootc::names_transport(image) {
                image
            } else {
                "docker://"@ + image
            };
            let cache = "/run/cosmonaut/scratch/oci-cache"@;
            &&& q.failure is None && q.phase is Scratch ==> (turn.order matches OrderView::Perform(
                w,
            ) && w.len() == 1 && mount::makes_dir(w[0], "/run/cosmonaut/scratch"@))
            &&& q.failure is None && q.phase is Inspect ==> (turn.order matches OrderView::Capture(
                c,
            ) && c.program == "skopeo"@ && c.args == seq!["inspect"@, "--raw"@, source])
            &&& q.failure is None && q.phase is Copy ==> (turn.order matches OrderView::Copy(c, _)
                && c.program == "skopeo"@ && c.args == seq!["copy"@, source, "oci:"@ + cache])
            &&& q.failure is None && q.phase is Install ==> (turn.order matches OrderView::Install(
                c,
            ) && c.program == "bootc"@ && c.args[0] == "install"@ && c.args[1] == "to-filesystem"@
                && bootc::has_flag(c.args, "--source-imgref"@, "oci:"@ + cache)
                && bootc::has_flag(c.args, "--target-imgref"@, image) && c.args.last()
                == "/run/cosmonaut/target"@)
        }),
{
    bootc::law_inspection_and_copy_read_the_same(p.spec.image@);
    bootc::law_install_uses_the_copy(p.spec.image@);
    let c = bootc::copy_command(p.spec.image@);
    assert(c.args =~= seq!["copy"@, c.args[1], c.args[2]]);
    let i = bootc::inspect_command(p.spec.image@);
    assert(i.args =~= seq!["inspect"@, "--raw"@, i.args[2]]);
}

/// An image that cannot be inspected is installed all the same, only
/// without progress; one that can be has as many layers as its manifest
/// lists, and counting starts at none.
pub proof fn law_inspection_only_serves_progress(
    p: PipelineView,
    reply: ReplyView,
    cancelled: bool,
    key: Seq<char>,
)
    requires
        p.failure is None,
        p.phase is Inspect,
        reply is Captured || reply is Failed,
    ensures
        ({
            let (q, turn) = pipeline_step(p, reply, cancelled, key);
            &&& q.phase is Copy && q.failure is None
            &&& turn.order matches OrderView::Copy(_, counter) && counter.copied == 0 && match reply {
                ReplyView::Captured(t) => exists|u: Seq<char>|
                    text::is_stripped(t, u) && (counter.total is Some <==> (
                    #[trigger] json_array_len(u, "layers"@)) is Some) && (counter.total is Some
                        && json_array_len(u, "layers"@)->0 <= usize::MAX ==> counter.total->0
                        == json_array_len(u, "layers"@)->0),
                _ => counter.total is None,
            }
        }),
{
    if let ReplyView::Captured(t) = reply {
        text::law_trimming_strips(t);
        let u = trimmed(t, CharClass::White);
        assert(json_array_len(u, "layers"@) == json_array_len(captured(reply), "layers"@));
    }
}

/// The hostname of the request is written into the installed system.
pub proof fn law_the_requested_hostname_is_written(
    p: PipelineView,
    reply: ReplyView,
    cancelled: bool,
    key: Seq<char>,
)
    requires
        p.failure is None,
        reply_fits(p.phase, reply),
        knows_parts(p),
        pipeline_step(p, reply, cancelled, key).0.failure is None,
        pipeline_step(p, reply, cancelled, key).0.phase is Hostname,
    ensures
        ({
            let turn = pipeline_step(p, reply, cancelled, key).1;
            let w = turn.order->Perform_0;
            &&& turn.order is Perform && w.len() == 2
            &&& mount::makes_dir(w[0], "/run/cosmonaut/target"@ + "/etc"@)
            &&& w[1] matches WorkView::WriteFile { path, content, .. } && path
                == "/run/cosmonaut/target"@ + "/etc/hostname"@ && content.len() > 0
                && content.last() == '\n' && text::is_stripped(
                p.spec.hostname@,
                content.drop_last(),
            )
        }),
{
    steps::law_hostname_is_written_below_the_target(p.spec.hostname@);
}

/// The boot entries of an encrypted install unlock the very partition that
/// was formatted: its UUID is asked for, and the argument that is added
/// holds the answer, without white space around it. An install without
/// encryption leaves the entries alone.
pub proof fn law_boot_entries_unlock_the_volume(
    p: PipelineView,
    reply: ReplyView,
    cancelled: bool,
    key: Seq<char>,
)
    requires
        p.failure is None,
        reply_fits(p.phase, reply),
        knows_parts(p),
    ensures
        ({
            let (q, turn) = pipeline_step(p, reply, cancelled, key);
            &&& q.failure is None && q.phase is Uuid ==> (turn.order matches OrderView::Capture(c)
                && c.program == "cryptsetup"@ && c.args == seq!["luksUUID"@, q.parts->0.root])
            &&& q.failure is None && p.phase is Uuid ==> q.phase is Bls && (
            turn.order matches OrderView::EditEntries(karg) && exists|u: Seq<char>|
                #[trigger] text::is_stripped(reply->Captured_0, u) && karg == "rd.luks.name="@ + u
                    + "=root"@)
            &&& q.failure is None && p.phase is Hostname ==> (q.phase is Uuid <==>
                p.spec.encryption !is Unencrypted)
            &&& turn.order is EditEntries ==> p.phase is Uuid
        }),
{
    if let ReplyView::Captured(t) = reply {
        text::law_trimming_strips(t);
        assert(text::is_stripped(t, captured(reply)));
    }
}

/// However an install ends, the target is unmounted and, where it was
/// encrypted, the mapping closed after that. A successful one trims the
/// root before.
pub proof fn law_installs_let_go_of_everything(
    p: PipelineView,
    reply: ReplyView,
    cancelled: bool,
    key: Seq<char>,
)
    requires
        !(p.phase is Over),
    ensures
        ({
            let (q, turn) = pipeline_step(p, reply, cancelled, key);
            let w = turn.order->Perform_0;
            let encrypted = p.spec.encryption !is Unencrypted;
            &&& q.phase is Teardown ==> {
                &&& turn.order is Perform
                &&& w.len() == if encrypted {
                    3int
                } else {
                    2
                }
                &&& steps::releases(w[0], "umount"@, "/run/cosmonaut/target"@)
                &&& steps::releases(w[1], "umount"@, "/run/cosmonaut/target"@)
                &&& encrypted ==> steps::releases(w[2], "cryptsetup"@, "cosmonaut-root"@)
                    && w[2]->Quiet_0.args[0] == "luksClose"@
            }
            &&& q.phase is Finalize ==> {
                &&& turn.order is Perform
                &&& w.len() == if encrypted {
                    4int
                } else {
                    3
                }
                &&& w[0] matches WorkView::Attempt(c, _) && c.program == "fstrim"@ && c.args.last()
                    == "/run/cosmonaut/target"@
                &&& steps::releases(w[1], "umount"@, "/run/cosmonaut/target"@)
                &&& encrypted ==> steps::releases(w[3], "cryptsetup"@, "cosmonaut-root"@)
            }
        }),
{
    steps::law_teardown_releases_everything(p.spec.encryption !is Unencrypted);
    steps::law_finalizing_trims_first(p.spec.encryption !is Unencrypted);
}

/// Cancelling is honoured between any two steps: a turn that would announce
/// the next step ends the install as cancelled when it was cancelled by
/// then. The one exception is the boot entries, which belong together with
/// the question for the UUID; that question is not asked either once the
/// install was cancelled. Once the last step is done it is too late.
pub proof fn law_cancelling_stops_before_the_next_step(
    p: PipelineView,
    reply: ReplyView,
    key: Seq<char>,
)
    requires
        p.failure is None,
        reply_fits(p.phase, reply),
    ensures
        ({
            let (q, turn) = pipeline_step(p, reply, false, key);
            let (stopped, last) = pipeline_step(p, reply, true, key);
            &&& q.failure is None && (exists|i: int|
                0 <= i < turn.events.len() && (#[trigger] turn.events[i]) is StepChanged)
                && !(p.phase is Uuid) ==> stopped.failure == Some(
                (Fault::Cancelled, Seq::<char>::empty()),
            ) && stopped.phase is Teardown
            &&& q.failure is None && p.phase is Hostname ==> stopped.failure == Some(
                (Fault::Cancelled, Seq::<char>::empty()),
            )
            &&& p.phase is Finalize || p.phase is Teardown ==> stopped == q && last == turn
            &&& p.phase is Scratch || p.phase is Inspect || p.phase is Copy || p.phase is Uuid
                ==> stopped == q && last == turn
            &&& reply is Interrupted ==> q.failure == Some((Fault::Cancelled, Seq::<char>::empty()))
        }),
{
}

/// A step that fails is named, with what went wrong: the step that was
/// announced when its phase was entered. The parts of the image step belong
/// to it, and asking for the UUID belongs to the encryption.
pub proof fn law_failures_name_their_step(
    before: PipelineView,
    earlier: Input,
    p: PipelineView,
    m: Seq<char>,
    cancelled: bool,
    key: Seq<char>,
)
    requires
        p.failure is None,
        reply_fits(p.phase, ReplyView::Failed(m)),
        !(p.phase is Inspect),
    ensures
        ({
            let (q, turn) = pipeline_step(p, ReplyView::Failed(m), cancelled, key);
            let entered = pipeline_step(before, earlier.reply, earlier.cancelled, earlier.key);
            &&& q.phase is Teardown
            &&& q.failure matches Some(e) && e.0 is InStep && e.1 == m
            &&& turn.events.len() == 1 && turn.events[0] == (EventView::Log {
                stream: LogStream::Engine,
                line: "pipeline failed: "@ + error_text(q.failure->0) + "; running cleanup"@,
            })
            &&& entered.0 == p ==> forall|i: int|
                0 <= i < entered.1.events.len() ==> (
                #[trigger] entered.1.events[i] matches EventView::StepChanged { step, .. }
                    ==> q.failure == Some((Fault::InStep(step), m)))
            &&& p.phase is Copy || p.phase is Install ==> q.failure == Some(
                (Fault::InStep(Step::Bootc), m),
            )
            &&& p.phase is Uuid ==> q.failure == Some((Fault::InStep(Step::Luks), m))
        }),
{
}

/// A step starts with its name and its baseline; the partitioning says
/// which disk it is about, and the image step which image.
pub proof fn law_steps_are_announced(
    p: PipelineView,
    reply: ReplyView,
    cancelled: bool,
    key: Seq<char>,
)
    requires
        p.failure is None,
        reply_fits(p.phase, reply),
        knows_parts(p),
        pipeline_step(p, reply, cancelled, key).0.failure is None,
    ensures
        ({
            let (q, turn) = pipeline_step(p, reply, cancelled, key);
            let e = turn.events;
            &&& (exists|i: int| 0 <= i < e.len() && (#[trigger] e[i]) is StepChanged) ==> e.len()
                == 2 && e[0] is StepChanged && (e[1] matches EventView::Progress { percent, step }
                && step == e[0]->StepChanged_step && percent == step.baseline())
            &&& q.phase is Partition ==> turn.order is Partition && e[0]->detail
                == "partitioning "@ + p.spec.disk@ + " ("@ + p.spec.plan.description() + ")"@
            &&& q.phase is Scratch ==> e[0]->detail == "installing "@ + p.spec.image@
        }),
{
}

/// A request that is not valid ends without any work; a valid one starts by
/// letting go of what an earlier install may hold.
pub proof fn law_installs_start_clean(spec: InstallSpec)
    ensures
        ({
            let turn = first_turn(spec);
            let w = turn.order->Perform_0;
            &&& spec_error(spec) matches Some(m) ==> turn.order == OrderView::Finish(
                Err((Fault::InvalidSpec, m)),
            ) && turn.events.len() == 0
            &&& spec_error(spec) is None ==> {
                &&& turn.order is Perform && w.len() == 4
                &&& steps::releases(w[0], "umount"@, "/run/cosmonaut/target"@)
                &&& steps::releases(w[1], "umount"@, "/run/cosmonaut/target"@)
                &&& steps::releases(w[2], "cryptsetup"@, "cosmonaut-root"@)
            }
        }),
{
    steps::law_teardown_releases_everything(true);
    steps::law_preflight_releases_everything();
}

/// A step that succeeds, with no cancellation, leads on to the one behind it:
/// LUKS and what goes with it only where the install is encrypted. Only the
/// last one leads to the end.
pub proof fn law_success_leads_on(
    p: PipelineView,
    reply: ReplyView,
    key: Seq<char>,
)
    requires
        reply is Done || reply is Captured || reply is Partitioned,
        p.failure is None,
    ensures
        ({
            let q = pipeline_step(p, reply, false, key).0;
            let encrypted = !(p.spec.encryption is Unencrypted);
            &&& q.failure is None && q.spec == p.spec
            &&& p.phase is Preflight ==> q.phase is Partition
            &&& p.phase is Partition ==> q.phase is Format
            &&& p.phase is Format ==> (if encrypted {
                q.phase is Luks
            } else {
                q.phase is Mkfs
            })
            &&& p.phase is Luks ==> q.phase is Mkfs
            &&& p.phase is Mkfs ==> q.phase is Mount
            &&& p.phase is Mount ==> q.phase is Scratch
            &&& p.phase is Scratch ==> q.phase is Inspect
            &&& p.phase is Inspect ==> q.phase is Copy
            &&& p.phase is Copy ==> q.phase is Install
            &&& p.phase is Install ==> q.phase is Hostname
            &&& p.phase is Hostname ==> (if encrypted {
                q.phase is Uuid
            } else {
                q.phase is Finalize
            })
            &&& p.phase is Uuid ==> q.phase is Bls
            &&& p.phase is Bls ==> q.phase is Finalize
            &&& p.phase is Finalize ==> q.phase is Teardown
        }),
{
}

/// An install ends as it went: well exactly when nothing failed, and else
/// with the failure that it had.
pub proof fn law_installs_end_as_they_went(
    p: PipelineView,
    reply: ReplyView,
    cancelled: bool,
    key: Seq<char>,
)
    requires
        p.phase is Teardown,
    ensures
        ({
            let (q, turn) = pipeline_step(p, reply, cancelled, key);
            &&& q.phase is Over && turn.events.len() == 0
            &&& turn.order is Finish
            &&& p.failure is None <==> turn.order->Finish_0 is Ok
            &&& p.failure matches Some(e) ==> turn.order->Finish_0 == Err::<(), (Fault, Seq<char>)>(
                e,
            )
        }),
{
}

} // verus!
