//! Exporting the source image to an OCI layout, then installing it onto the
//! mounted target.
use vstd::prelude::*;

use crate::command::{args2, args3, args4, chained, plain, Command, CommandView};
use crate::install::{Event, EventView, LogStream, Step};
use crate::measure::{law_scaled_bounded, law_scaled_monotone, scale_ratio, scaled};
use crate::mount::TARGET_ROOT;
use crate::text::{self, has_prefix, views};

verus! {

/// The progress band of the copy: layer copies interpolate across it; the
/// install run that follows gets the rest of the step.
pub const COPY_BAND_START: u8 = 10;

pub const COPY_BAND_END: u8 = 75;

/// Where the OCI layout is written.
pub const OCI_CACHE_DIR: &'static str = "/run/cosmonaut/scratch/oci-cache";

/// Transport prefixes that skopeo recognises.
pub open spec fn transports() -> Seq<Seq<char>> {
    seq![
        "docker://"@,
        "docker-archive:"@,
        "docker-daemon:"@,
        "oci:"@,
        "oci-archive:"@,
        "containers-storage:"@,
        "dir:"@,
        "tarball:"@,
        "ostree:"@,
    ]
}

pub open spec fn has_transport(image: Seq<char>) -> bool {
    exists|i: int| 0 <= i < transports().len() && has_prefix(image, #[trigger] transports()[i])
}

/// The image with its transport; a bare reference means a registry.
pub open spec fn source_of(image: Seq<char>) -> Seq<char> {
    if has_transport(image) {
        image
    } else {
        "docker://"@ + image
    }
}

fn starts_with_transport(image: &str) -> (r: bool)
    ensures
        r == has_transport(image@),
{
    let r = text::starts_with(image, "docker://") || text::starts_with(image, "docker-archive:")
        || text::starts_with(image, "docker-daemon:") || text::starts_with(image, "oci:")
        || text::starts_with(image, "oci-archive:") || text::starts_with(
        image,
        "containers-storage:",
    ) || text::starts_with(image, "dir:") || text::starts_with(image, "tarball:")
        || text::starts_with(image, "ostree:");
    proof {
        let t = transports();
        assert(t[0] == "docker://"@);
        assert(t[1] == "docker-archive:"@);
        assert(t[2] == "docker-daemon:"@);
        assert(t[3] == "oci:"@);
        assert(t[4] == "oci-archive:"@);
        assert(t[5] == "containers-storage:"@);
        assert(t[6] == "dir:"@);
        assert(t[7] == "tarball:"@);
        assert(t[8] == "ostree:"@);
    }
    r
}

/// The image reference in the form that skopeo takes. One with a transport
/// passes through; others get `docker://`.
pub fn skopeo_source(image: &str) -> (r: String)
    ensures
        r@ == source_of(image@),
{
    if starts_with_transport(image) {
        image.to_owned()
    } else {
        text::cat2("docker://", image)
    }
}

/// A source always names its transport, so adding one again changes
/// nothing.
pub proof fn law_source_is_stable(image: Seq<char>)
    ensures
        has_transport(source_of(image)),
        source_of(source_of(image)) == source_of(image),
{
    let s = source_of(image);
    if !has_transport(image) {
        assert(s.take("docker://"@.len() as int) =~= "docker://"@);
        assert(has_prefix(s, transports()[0]));
    }
}

// ---------- layers ----------

/// The length of the array at `key` of a JSON object; `None` where the text
/// is no JSON, or holds no array there.
pub uninterp spec fn json_array_len(raw: Seq<char>, key: Seq<char>) -> Option<nat>;

/// `serde_json::from_str` into a `Value`, then `Value::get`,
/// `Value::as_array` and the length. The result depends on the text and the
/// key alone, so it has a name.
#[verifier::external_body]
fn array_len(raw: &str, key: &str) -> (r: Option<usize>)
    ensures
        match r {
            Some(n) => json_array_len(raw@, key@) == Some(n as nat),
            None => json_array_len(raw@, key@) is None,
        },
{
    let value: serde_json::Value = serde_json::from_str(raw).ok()?;
    Some(value.get(key)?.as_array()?.len())
}

/// The number of layers in a raw manifest. `None` when it could not be
/// read or lists no layers, as a manifest list does: progress then stays at
/// the step's baseline instead of guessing.
pub fn layer_count(raw: Option<&str>) -> (r: Option<usize>)
    ensures
        match r {
            Some(n) => raw is Some && json_array_len(raw->0@, "layers"@) == Some(n as nat),
            None => raw is Some ==> json_array_len(raw->0@, "layers"@) is None,
        },
{
    match raw {
        Some(text) => array_len(text, "layers"),
        None => None,
    }
}

// ---------- progress of the copy ----------

/// Counts the layers that the copy announces.
#[derive(Debug, Clone, Copy, PartialEq, Eq, Structural)]
pub struct CopyProgress {
    pub copied: usize,
    pub total: Option<usize>,
}

pub open spec fn lesser(a: usize, b: usize) -> usize {
    if a < b {
        a
    } else {
        b
    }
}

/// The percentage once `copied` of `total` layers have been announced.
pub open spec fn copy_percent(copied: usize, total: usize) -> int {
    COPY_BAND_START + scaled(lesser(copied, total) as nat, total as nat, 65)
}

/// The event announces one more layer, and the total is known.
pub open spec fn counts_layer(p: CopyProgress, e: EventView) -> bool {
    &&& e matches EventView::Log { stream, line } && stream == LogStream::Stdout && has_prefix(
        line,
        "Copying blob"@,
    )
    &&& p.total matches Some(t) && t > 0
}

pub open spec fn copied_next(copied: usize) -> usize {
    if copied < usize::MAX {
        (copied + 1) as usize
    } else {
        copied
    }
}

/// The counter after an event of the copy.
pub open spec fn counted(p: CopyProgress, e: EventView) -> CopyProgress {
    if counts_layer(p, e) {
        CopyProgress { copied: copied_next(p.copied), ..p }
    } else {
        p
    }
}

/// The percentages that are reported while the copy gives these events.
pub open spec fn copy_reports(p: CopyProgress, events: Seq<EventView>) -> Seq<int>
    decreases events.len(),
{
    if events.len() == 0 {
        Seq::empty()
    } else {
        let q = counted(p, events[0]);
        (if counts_layer(p, events[0]) {
            seq![copy_percent(q.copied, p.total->0)]
        } else {
            Seq::empty()
        }) + copy_reports(q, events.skip(1))
    }
}

impl CopyProgress {
    pub fn new(total: Option<usize>) -> (r: CopyProgress)
        ensures
            r == (CopyProgress { copied: 0, total }),
    {
        CopyProgress { copied: 0, total }
    }

    /// Looks at an event of the copy on its way out, and gives the progress
    /// to report just before it, if any.
    pub fn observe(&mut self, event: &Event) -> (r: Option<Event>)
        ensures
            *final(self) == counted(*old(self), event@),
            counts_layer(*old(self), event@) ==> (r matches Some(e) && e@ == (
            EventView::Progress {
                percent: copy_percent(final(self).copied, old(self).total->0) as u8,
                step: Step::Bootc,
            })),
            !counts_layer(*old(self), event@) ==> r is None,
    {
        if let (Event::Log { stream, line }, Some(total)) = (event, self.total) {
            if *stream == LogStream::Stdout && text::starts_with(line.as_str(), "Copying blob")
                && total > 0 {
                if self.copied < usize::MAX {
                    self.copied = self.copied + 1;
                }
                let part: usize = if self.copied < total {
                    self.copied
                } else {
                    total
                };
                let share = scale_ratio(part as u64, total as u64, 65);
                proof {
                    law_scaled_bounded(part as nat, total as nat, 65);
                }
                let percent: u8 = COPY_BAND_START + share as u8;
                return Some(Event::Progress { percent, step: Step::Bootc });
            }
        }
        None
    }
}

/// The copy never leaves its band, and never goes back.
pub proof fn law_copy_progress(a: usize, b: usize, total: usize)
    requires
        a <= b,
        total > 0,
    ensures
        COPY_BAND_START <= copy_percent(a, total) <= copy_percent(b, total) <= COPY_BAND_END,
{
    law_scaled_monotone(lesser(a, total) as nat, lesser(b, total) as nat, total as nat, 65);
    law_scaled_bounded(lesser(b, total) as nat, total as nat, 65);
}

/// An event of the copy leaves the total as it is, and never takes a layer
/// back.
proof fn lemma_counted(p: CopyProgress, e: EventView)
    ensures
        counted(p, e).total == p.total,
        p.copied <= counted(p, e).copied,
        counts_layer(p, e) ==> p.total is Some && p.total->0 > 0,
{
}

/// The reports after one event: one more in front where it announces a
/// layer.
proof fn lemma_copy_reports(p: CopyProgress, events: Seq<EventView>)
    requires
        events.len() > 0,
    ensures
        ({
            let q = counted(p, events[0]);
            let rest = copy_reports(q, events.skip(1));
            copy_reports(p, events) == if counts_layer(p, events[0]) {
                seq![copy_percent(q.copied, p.total->0)] + rest
            } else {
                rest
            }
        }),
{
    let rest = copy_reports(counted(p, events[0]), events.skip(1));
    assert(Seq::<int>::empty() + rest =~= rest);
}

/// Whatever the copy prints, its reports stay in its band and never go back.
#[verifier::spinoff_prover]
pub proof fn law_copy_reports_never_fall(p: CopyProgress, events: Seq<EventView>)
    ensures
        forall|i: int|
            0 <= i < copy_reports(p, events).len() ==> COPY_BAND_START <= #[trigger] copy_reports(
                p,
                events,
            )[i] <= COPY_BAND_END,
        forall|i: int|
            0 <= i < copy_reports(p, events).len() ==> p.total is Some && p.total->0 > 0
                && copy_percent(p.copied, p.total->0) <= #[trigger] copy_reports(p, events)[i],
        forall|i: int, j: int|
            0 <= i < j < copy_reports(p, events).len() ==> #[trigger] copy_reports(p, events)[i]
                <= #[trigger] copy_reports(p, events)[j],
    decreases events.len(),
{
    if events.len() > 0 {
        let q = counted(p, events[0]);
        let rest = copy_reports(q, events.skip(1));
        let all = copy_reports(p, events);
        lemma_counted(p, events[0]);
        lemma_copy_reports(p, events);
        law_copy_reports_never_fall(q, events.skip(1));
        if counts_layer(p, events[0]) {
            let total = p.total->0;
            let now = copy_percent(q.copied, total);
            law_copy_progress(p.copied, q.copied, total);
            assert(all == seq![now] + rest);
            assert(all[0] == now);
            assert forall|i: int| 0 < i < all.len() implies #[trigger] all[i] == rest[i - 1] && now
                <= all[i] <= COPY_BAND_END by {
                assert(copy_percent(q.copied, q.total->0) <= rest[i - 1]);
                assert(rest[i - 1] <= COPY_BAND_END);
            }
            assert forall|i: int| 0 <= i < all.len() implies copy_percent(p.copied, total)
                <= #[trigger] all[i] && COPY_BAND_START <= all[i] <= COPY_BAND_END by {
                if i > 0 {
                    assert(now <= all[i]);
                }
            }
            assert forall|i: int, j: int| 0 <= i < j < all.len() implies #[trigger] all[i]
                <= #[trigger] all[j] by {
                assert(all[j] == rest[j - 1]);
                if i > 0 {
                    assert(all[i] == rest[i - 1]);
                    assert(rest[i - 1] <= rest[j - 1]);
                }
            }
        } else {
            assert(all == rest);
            assert(q == p);
        }
        assert forall|i: int| 0 <= i < copy_reports(p, events).len() implies p.total is Some
            && p.total->0 > 0 && copy_percent(p.copied, p.total->0) <= #[trigger] copy_reports(
            p,
            events,
        )[i] by {
            if counts_layer(p, events[0]) {
                assert(copy_percent(p.copied, p.total->0) <= all[i]);
            } else {
                assert(copy_percent(q.copied, q.total->0) <= rest[i]);
            }
        }
    }
}

// ---------- commands ----------

pub open spec fn oci_ref() -> Seq<char> {
    "oci:"@ + OCI_CACHE_DIR@
}

pub open spec fn inspect_command(image: Seq<char>) -> CommandView {
    plain("skopeo"@, seq!["inspect"@, "--raw"@, source_of(image)], ""@)
}

/// Asks for the raw manifest of the image.
pub fn inspect(image: &str) -> (r: Command)
    ensures
        r@ == inspect_command(image@),
{
    let source = skopeo_source(image);
    Command::new("skopeo", args3("inspect", "--raw", source.as_str()), "")
}

pub open spec fn copy_command(image: Seq<char>) -> CommandView {
    plain("skopeo"@, seq!["copy"@, source_of(image), oci_ref()], "skopeo copy"@)
}

/// Copies the image into the OCI layout.
pub fn copy(image: &str) -> (r: Command)
    ensures
        r@ == copy_command(image@),
{
    let source = skopeo_source(image);
    let dest = text::cat2("oci:", OCI_CACHE_DIR);
    Command::new("skopeo", args3("copy", source.as_str(), dest.as_str()), "skopeo copy")
}

pub open spec fn install_command(image: Seq<char>) -> CommandView {
    plain(
        "bootc"@,
        seq![
            "install"@,
            "to-filesystem"@,
            "--target-imgref"@,
            image,
            "--composefs-backend"@,
            "--source-imgref"@,
            oci_ref(),
            "--bootloader"@,
            "systemd"@,
            "--skip-finalize"@,
            TARGET_ROOT@,
        ],
        "bootc install to-filesystem"@,
    )
}

/// Installs from the OCI layout onto the mounted target.
pub fn install(image: &str) -> (r: Command)
    ensures
        r@ == install_command(image@),
{
    let source = text::cat2("oci:", OCI_CACHE_DIR);
    let args = chained(
        args4("install", "to-filesystem", "--target-imgref", image),
        chained(
            args4("--composefs-backend", "--source-imgref", source.as_str(), "--bootloader"),
            args3("systemd", "--skip-finalize", TARGET_ROOT),
        ),
    );
    assert(views(args@) =~= install_command(image@).args);
    Command::new("bootc", args, "bootc install to-filesystem")
}

/// The flag stands among the arguments, with this value right behind it.
pub open spec fn has_flag(args: Seq<Seq<char>>, flag: Seq<char>, value: Seq<char>) -> bool {
    exists|i: int| 0 <= i < args.len() - 1 && #[trigger] args[i] == flag && args[i + 1] == value
}

/// The reference says where it is to be had from.
pub open spec fn names_transport(image: Seq<char>) -> bool {
    ||| has_prefix(image, "docker://"@)
    ||| has_prefix(image, "docker-archive:"@)
    ||| has_prefix(image, "docker-daemon:"@)
    ||| has_prefix(image, "oci:"@)
    ||| has_prefix(image, "oci-archive:"@)
    ||| has_prefix(image, "containers-storage:"@)
    ||| has_prefix(image, "dir:"@)
    ||| has_prefix(image, "tarball:"@)
    ||| has_prefix(image, "ostree:"@)
}

/// A reference that names its transport is used as it is; any other is
/// looked for in a registry, under its own name.
pub proof fn law_transports_pass_through(image: Seq<char>)
    ensures
        names_transport(image) ==> source_of(image) == image,
        !names_transport(image) ==> source_of(image) == "docker://"@ + image,
{
    let t = transports();
    assert(t[0] == "docker://"@);
    assert(t[1] == "docker-archive:"@);
    assert(t[2] == "docker-daemon:"@);
    assert(t[3] == "oci:"@);
    assert(t[4] == "oci-archive:"@);
    assert(t[5] == "containers-storage:"@);
    assert(t[6] == "dir:"@);
    assert(t[7] == "tarball:"@);
    assert(t[8] == "ostree:"@);
    if has_transport(image) {
        let i = choose|i: int| 0 <= i < t.len() && has_prefix(image, #[trigger] t[i]);
        assert(has_prefix(image, t[i]));
    } else {
        assert forall|i: int| 0 <= i < t.len() implies !has_prefix(image, #[trigger] t[i]) by {}
    }
}

/// The image that is inspected is the one that is copied: as it was named
/// where it names its transport, from a registry otherwise.
pub proof fn law_inspection_and_copy_read_the_same(image: Seq<char>)
    ensures
        ({
            let look = inspect_command(image);
            let copy = copy_command(image);
            &&& look.program == "skopeo"@ && look.args.len() == 3 && look.args[0] == "inspect"@
                && look.args[1] == "--raw"@ && look.stdin is None
            &&& copy.program == "skopeo"@ && copy.args.len() == 3 && copy.args[0] == "copy"@
                && copy.stdin is None
            &&& copy.args[1] == look.args[2]
            &&& names_transport(image) ==> copy.args[1] == image
            &&& !names_transport(image) ==> copy.args[1] == "docker://"@ + image
        }),
{
    law_transports_pass_through(image);
}

/// What is installed is what was copied, onto the place where the target is
/// mounted; the installed system follows the image under the name that the
/// user chose.
pub proof fn law_install_uses_the_copy(image: Seq<char>)
    ensures
        ({
            let copy = copy_command(image);
            let put = install_command(image);
            &&& put.program == "bootc"@ && put.args[0] == "install"@ && put.args[1]
                == "to-filesystem"@ && put.stdin is None
            &&& has_flag(put.args, "--source-imgref"@, copy.args[2])
            &&& copy.args[2] == "oci:"@ + "/run/cosmonaut/scratch/oci-cache"@
            &&& has_flag(put.args, "--target-imgref"@, image)
            &&& has_flag(put.args, "--bootloader"@, "systemd"@)
            &&& put.args.contains("--composefs-backend"@) && put.args.contains("--skip-finalize"@)
            &&& put.args.last() == "/run/cosmonaut/target"@
        }),
{
    let args = install_command(image).args;
    assert(args[5] == "--source-imgref"@ && args[6] == oci_ref());
    assert(args[2] == "--target-imgref"@ && args[3] == image);
    assert(args[7] == "--bootloader"@ && args[8] == "systemd"@);
    assert(args[4] == "--composefs-backend"@);
    assert(args[9] == "--skip-finalize"@);
}

/// A layer is counted for each line of the copy's output that announces one,
/// and for nothing else; without a known total nothing is counted.
pub proof fn law_announced_layers_are_counted(p: CopyProgress, rest: Seq<char>, e: EventView)
    requires
        p.copied < usize::MAX,
    ensures
        ({
            let line = EventView::Log { stream: LogStream::Stdout, line: "Copying blob"@ + rest };
            &&& p.total is Some && p.total->0 > 0 ==> counted(p, line) == (CopyProgress {
                copied: (p.copied + 1) as usize,
                total: p.total,
            }) && copy_reports(p, seq![line]) == seq![
                copy_percent((p.copied + 1) as usize, p.total->0),
            ]
            &&& p.total is None || p.total->0 == 0 ==> counted(p, line) == p && copy_reports(
                p,
                seq![line],
            ).len() == 0
        }),
        !(e is Log) || e->Log_stream != LogStream::Stdout || !has_prefix(
            e->Log_line,
            "Copying blob"@,
        ) ==> counted(p, e) == p && copy_reports(p, seq![e]).len() == 0,
{
    text::law_prefixes_are_cut_off("Copying blob"@, rest, rest);
    let line = EventView::Log { stream: LogStream::Stdout, line: "Copying blob"@ + rest };
    lemma_copy_reports(p, seq![line]);
    lemma_copy_reports(p, seq![e]);
    assert(seq![line].skip(1) =~= Seq::empty());
    assert(seq![e].skip(1) =~= Seq::empty());
    assert(copy_reports(counted(p, line), Seq::empty()) =~= Seq::empty());
    assert(copy_reports(counted(p, e), Seq::empty()) =~= Seq::empty());
    if counts_layer(p, line) {
        assert(copy_reports(p, seq![line]) =~= seq![
            copy_percent((p.copied + 1) as usize, p.total->0),
        ]);
    }
}

/// The copy runs from 10 to 75 percent, in proportion to the layers: it
/// stands at 10 before the first and at 75 behind the last one.
pub proof fn law_copy_percent_is_proportional(copied: usize, total: usize)
    requires
        total > 0,
    ensures
        copy_percent(0, total) == 10,
        copied >= total ==> copy_percent(copied, total) == 75,
        copied <= total <= 9007199254740992 ==> (copy_percent(copied, total) - 10) * total < copied
            * 65 + total && copied * 65 < (copy_percent(copied, total) - 8) * total,
{
    crate::measure::law_scaled_ends(total as nat, 65);
    if copied <= total <= 9007199254740992 {
        crate::measure::law_scaled_is_proportional(copied as nat, total as nat, 65);
    }
}

} // verus!
