//! External programs to run, as plain values.
use vstd::prelude::*;

use crate::text::{self, joined, opt_view, trimmed, views, CharClass};

verus! {

/// One invocation of an external program. When it fails, `context` says
/// what was being done.
#[derive(Debug, PartialEq, Eq)]
pub struct Command {
    pub program: String,
    pub args: Vec<String>,
    /// What is written to its standard input, which is otherwise left
    /// alone.
    pub stdin: Option<String>,
    pub context: String,
}

#[verifier::ext_equal]
pub struct CommandView {
    pub program: Seq<char>,
    pub args: Seq<Seq<char>>,
    pub stdin: Option<Seq<char>>,
    pub context: Seq<char>,
}

impl View for Command {
    type V = CommandView;

    open spec fn view(&self) -> CommandView {
        CommandView {
            program: self.program@,
            args: views(self.args@),
            stdin: opt_view(self.stdin),
            context: self.context@,
        }
    }
}

pub open spec fn plain(program: Seq<char>, args: Seq<Seq<char>>, context: Seq<char>) -> CommandView {
    CommandView { program, args, stdin: None, context }
}

pub open spec fn fed(
    program: Seq<char>,
    args: Seq<Seq<char>>,
    stdin: Seq<char>,
    context: Seq<char>,
) -> CommandView {
    CommandView { program, args, stdin: Some(stdin), context }
}

/// The line that announces a command in the log. What goes to standard
/// input is not shown.
pub open spec fn announcement(c: CommandView) -> Seq<char> {
    "+ "@ + c.program + " "@ + joined(c.args, " "@)
}

impl Command {
    pub fn new(program: &str, args: Vec<String>, context: &str) -> (r: Command)
        ensures
            r@ == plain(program@, views(args@), context@),
    {
        Command { program: program.to_owned(), args, stdin: None, context: context.to_owned() }
    }

    pub fn with_stdin(program: &str, args: Vec<String>, stdin: &str, context: &str) -> (r: Command)
        ensures
            r@ == fed(program@, views(args@), stdin@, context@),
    {
        Command {
            program: program.to_owned(),
            args,
            stdin: Some(stdin.to_owned()),
            context: context.to_owned(),
        }
    }

    /// The line that announces the command in the log.
    pub fn log_line(&self) -> (r: String)
        ensures
            r@ == announcement(self@),
    {
        let args = text::join(&self.args, " ");
        text::cat4("+ ", self.program.as_str(), " ", args.as_str())
    }
}

/// What is fed to a command never shows in the log.
pub proof fn law_stdin_is_not_logged(c: CommandView, other: Option<Seq<char>>)
    ensures
        announcement(c) == announcement((CommandView { stdin: other, ..c })),
{
}

pub fn args1(a: &str) -> (r: Vec<String>)
    ensures
        views(r@) == seq![a@],
{
    let mut v: Vec<String> = Vec::new();
    v.push(a.to_owned());
    assert(views(v@) =~= seq![a@]);
    v
}

pub fn args2(a: &str, b: &str) -> (r: Vec<String>)
    ensures
        views(r@) == seq![a@, b@],
{
    let mut v = args1(a);
    let ghost before = v@;
    v.push(b.to_owned());
    assert(views(v@) =~= views(before).push(b@));
    assert(views(v@) =~= seq![a@, b@]);
    v
}

pub fn args3(a: &str, b: &str, c: &str) -> (r: Vec<String>)
    ensures
        views(r@) == seq![a@, b@, c@],
{
    let mut v = args2(a, b);
    let ghost before = v@;
    v.push(c.to_owned());
    assert(views(v@) =~= views(before).push(c@));
    assert(views(v@) =~= seq![a@, b@, c@]);
    v
}

pub fn args4(a: &str, b: &str, c: &str, d: &str) -> (r: Vec<String>)
    ensures
        views(r@) == seq![a@, b@, c@, d@],
{
    let mut v = args3(a, b, c);
    let ghost before = v@;
    v.push(d.to_owned());
    assert(views(v@) =~= views(before).push(d@));
    assert(views(v@) =~= seq![a@, b@, c@, d@]);
    v
}

/// Adds the arguments of `more` behind those of `args`.
pub fn chained(args: Vec<String>, more: Vec<String>) -> (r: Vec<String>)
    ensures
        views(r@) == views(args@) + views(more@),
{
    let mut out = args;
    let mut rest = more;
    out.append(&mut rest);
    assert(views(out@) =~= views(args@) + views(more@));
    out
}

/// Adds one command to a list.
pub fn push_command(list: &mut Vec<Command>, c: Command)
    ensures
        views(final(list)@) == views(old(list)@).push(c@),
{
    let ghost before = list@;
    list.push(c);
    assert(views(list@) =~= views(before).push(c@));
}

/// Waits until the kernel's device events have been handled.
pub open spec fn settle_command() -> CommandView {
    plain("udevadm"@, seq!["settle"@], "udevadm settle"@)
}

pub fn settle() -> (r: Command)
    ensures
        r@ == settle_command(),
{
    Command::new("udevadm", args1("settle"), "udevadm settle")
}

/// One piece of work of a pipeline step, in the terms of what carries it
/// out.
#[derive(Debug, PartialEq, Eq)]
pub enum Work {
    /// Announce and run; a failure ends the step with the context.
    Run(Command),
    /// Announce and run; a failure is logged behind this text, if any.
    Attempt(Command, Option<String>),
    /// Run without announcing; how it ends does not matter.
    Quiet(Command),
    /// Write this line to the engine log.
    Note(String),
    /// Create the directory and its parents; a failure ends the step with
    /// the context.
    MakeDir { path: String, context: String },
    /// Write the file; a failure ends the step with the context.
    WriteFile { path: String, content: String, context: String },
}

#[verifier::ext_equal]
pub enum WorkView {
    Run(CommandView),
    Attempt(CommandView, Option<Seq<char>>),
    Quiet(CommandView),
    Note(Seq<char>),
    MakeDir { path: Seq<char>, context: Seq<char> },
    WriteFile { path: Seq<char>, content: Seq<char>, context: Seq<char> },
}

impl View for Work {
    type V = WorkView;

    open spec fn view(&self) -> WorkView {
        match *self {
            Work::Run(c) => WorkView::Run(c@),
            Work::Attempt(c, t) => WorkView::Attempt(c@, opt_view(t)),
            Work::Quiet(c) => WorkView::Quiet(c@),
            Work::Note(l) => WorkView::Note(l@),
            Work::MakeDir { path, context } => WorkView::MakeDir { path: path@, context: context@ },
            Work::WriteFile { path, content, context } => WorkView::WriteFile {
                path: path@,
                content: content@,
                context: context@,
            },
        }
    }
}

/// Adds one piece of work to a list.
pub fn push_work(list: &mut Vec<Work>, w: Work)
    ensures
        views(final(list)@) == views(old(list)@).push(w@),
{
    let ghost before = list@;
    list.push(w);
    assert(views(list@) =~= views(before).push(w@));
}

/// An empty list of work.
pub fn no_work() -> (r: Vec<Work>)
    ensures
        views(r@) == Seq::<WorkView>::empty(),
{
    let r: Vec<Work> = Vec::new();
    assert(views(r@) =~= Seq::empty());
    r
}

/// All of `commands`, each of which must succeed.
pub fn run_all(commands: Vec<Command>) -> (r: Vec<Work>)
    ensures
        views(r@) == views(commands@).map_values(|c: CommandView| WorkView::Run(c)),
{
    let ghost all = commands@;
    let mut rest = commands;
    let mut backwards: Vec<Command> = Vec::new();
    while rest.len() > 0
        invariant
            rest@ + backwards@.reverse() == all,
        decreases rest@.len(),
    {
        let ghost r0 = rest@;
        let ghost b0 = backwards@;
        match rest.pop() {
            Some(c) => {
                backwards.push(c);
                assert(backwards@.reverse() =~= seq![c] + b0.reverse());
                assert(rest@ + backwards@.reverse() =~= r0 + b0.reverse());
            },
            None => {},
        }
    }
    assert(backwards@.reverse() =~= all);
    let mut out = no_work();
    assert(all.take(0) =~= Seq::empty());
    assert(views(out@) =~= views(all.take(0)).map_values(|c: CommandView| WorkView::Run(c)));
    while backwards.len() > 0
        invariant
            backwards@.len() <= all.len(),
            backwards@.reverse() == all.skip(all.len() - backwards@.len()),
            views(out@) == views(all.take(all.len() - backwards@.len())).map_values(
                |c: CommandView| WorkView::Run(c),
            ),
        decreases backwards@.len(),
    {
        let ghost b0 = backwards@;
        let ghost n = all.len() - b0.len();
        let ghost out0 = views(out@);
        match backwards.pop() {
            Some(c) => {
                assert(b0.reverse()[0] == c);
                assert(all[n] == all.skip(n)[0]);
                assert(backwards@.reverse() =~= b0.reverse().skip(1));
                assert(all.skip(n).skip(1) =~= all.skip(n + 1));
                push_work(&mut out, Work::Run(c));
                assert(all.take(n + 1) =~= all.take(n).push(c));
                assert(views(all.take(n + 1)) =~= views(all.take(n)).push(c@));
                assert(views(out@) =~= views(all.take(n + 1)).map_values(
                    |c: CommandView| WorkView::Run(c),
                ));
            },
            None => {},
        }
    }
    assert(all.take(all.len() as int) =~= all);
    out
}

// ---------- failures ----------

/// What can go wrong with an external program.
#[derive(Debug, PartialEq, Eq)]
pub enum Mishap {
    /// It could not be started.
    NotStarted,
    /// Talking to it failed; what was being done then.
    Broken(String),
    /// It ended with this status.
    Exited(String),
    /// It ended with this status, and said this on its error stream.
    Complained { status: String, stderr: String },
}

pub open spec fn mishap_text(program: Seq<char>, m: Mishap) -> Seq<char> {
    match m {
        Mishap::NotStarted => "spawning "@ + program,
        Mishap::Broken(doing) => doing@,
        Mishap::Exited(status) => program + " exited with "@ + status@,
        Mishap::Complained { status, stderr } => program + " exited with "@ + status@
            + "; stderr: "@ + trimmed(stderr@, CharClass::White),
    }
}

/// What a failed command is reported as: its context, where it has one.
pub open spec fn failure_of(c: CommandView, m: Mishap) -> Seq<char> {
    if c.context.len() > 0 {
        c.context
    } else {
        mishap_text(c.program, m)
    }
}

impl Command {
    /// The report of a failure.
    pub fn failure(&self, m: &Mishap) -> (r: String)
        ensures
            r@ == failure_of(self@, *m),
    {
        let program = self.program.as_str();
        if text::chars_of(self.context.as_str()).len() > 0 {
            return self.context.clone();
        }
        match m {
            Mishap::NotStarted => text::cat2("spawning ", program),
            Mishap::Broken(doing) => doing.clone(),
            Mishap::Exited(status) => text::cat3(program, " exited with ", status.as_str()),
            Mishap::Complained { status, stderr } => {
                let chars = text::chars_of(stderr.as_str());
                let said = text::trim(&chars, CharClass::White);
                let said = text::string_of(&said);
                text::cat5(program, " exited with ", status.as_str(), "; stderr: ", said.as_str())
            },
        }
    }
}

/// A command is announced as it is run: the program, then all arguments.
pub proof fn law_commands_are_announced(program: Seq<char>, a: Seq<char>, b: Seq<char>, w: Seq<char>)
    ensures
        announcement(plain(program, seq![a], w)) == "+ "@ + program + " "@ + a,
        announcement(plain(program, seq![a, b], w)) == "+ "@ + program + " "@ + a + " "@ + b,
{
    let e = Seq::<Seq<char>>::empty();
    text::law_joining_separates(e, a, " "@);
    text::law_joining_separates(seq![a], b, " "@);
    assert(seq![a].push(b) =~= seq![a, b]);
    assert(announcement(plain(program, seq![a, b], w)) =~= "+ "@ + program + " "@ + a + " "@ + b);
}

/// A failure is told by what was being done, where that is known, and else by
/// what the program did.
pub proof fn law_failures_are_told(c: CommandView, status: String, stderr: String)
    ensures
        c.context.len() > 0 ==> failure_of(c, Mishap::NotStarted) == c.context && failure_of(
            c,
            Mishap::Exited(status),
        ) == c.context,
        c.context.len() == 0 ==> failure_of(c, Mishap::NotStarted) == "spawning "@ + c.program,
        c.context.len() == 0 ==> failure_of(c, Mishap::Broken(status)) == status@,
        c.context.len() == 0 ==> failure_of(c, Mishap::Exited(status)) == c.program
            + " exited with "@ + status@,
        exists|said: Seq<char>|
            #[trigger] text::is_stripped(stderr@, said) && c.program + " exited with "@ + status@
                + "; stderr: "@ + said == mishap_text(
                c.program,
                Mishap::Complained { status, stderr },
            ),
{
    text::law_trimming_strips(stderr@);
}

} // verus!
