//! Reading what `iwctl` and the kernel say about networks and devices.
//!
//! The tables of `iwctl` are read tolerantly: malformed rows are skipped.
use vstd::prelude::*;

use crate::command::{args2, args4, chained, plain, Command, CommandView};
use crate::text::{
    self, has_prefix, joined, lines, opt_view, trimmed, trimmed_start, views, words, CharClass,
};

verus! {

#[derive(Debug, PartialEq, Eq)]
pub struct WifiNetwork {
    pub ssid: String,
    /// "open", "psk", "8021x", "wep": whatever the table says.
    pub security: String,
    /// Signal strength, 1 to 4.
    pub signal: u8,
    /// The row carries the marker of the current connection.
    pub connected: bool,
}

#[verifier::ext_equal]
pub struct NetworkView {
    pub ssid: Seq<char>,
    pub security: Seq<char>,
    pub signal: int,
    pub connected: bool,
}

impl View for WifiNetwork {
    type V = NetworkView;

    open spec fn view(&self) -> NetworkView {
        NetworkView {
            ssid: self.ssid@,
            security: self.security@,
            signal: self.signal as int,
            connected: self.connected,
        }
    }
}

impl WifiNetwork {
    /// A network as it comes over the bus, where the signal is wider.
    pub fn from_wire(ssid: String, security: String, signal: u32, connected: bool) -> (r:
        WifiNetwork)
        ensures
            r.ssid == ssid,
            r.security == security,
            r.signal == if signal < 255 {
                signal as int
            } else {
                255
            },
            r.connected == connected,
    {
        let clamped: u8 = if signal < 255 {
            signal as u8
        } else {
            255
        };
        WifiNetwork { ssid, security, signal: clamped, connected }
    }
}

/// A line that underlines a heading.
pub open spec fn is_separator(line: Seq<char>) -> bool {
    has_prefix(trimmed(line, CharClass::White), "---"@)
}

pub open spec fn count_stars(s: Seq<char>) -> nat
    decreases s.len(),
{
    if s.len() == 0 {
        0
    } else {
        count_stars(s.drop_last()) + (if s.last() == '*' {
            1nat
        } else {
            0
        })
    }
}

/// The network of one row: the last two words are security and signal, the
/// words before them the name. Rows without a name or a signal are none.
pub open spec fn row_network(line: Seq<char>) -> Option<NetworkView> {
    let body = trimmed(trimmed_start(line, CharClass::SpaceOrMarker), CharClass::White);
    let toks = words(body);
    let stars = count_stars(toks.last());
    let ssid = joined(toks.take(toks.len() - 2), " "@);
    if body.len() == 0 || toks.len() < 3 || stars == 0 || ssid.len() == 0 {
        None
    } else {
        Some(
            NetworkView {
                ssid,
                security: toks[toks.len() - 2],
                signal: if stars < 4 {
                    stars as int
                } else {
                    4
                },
                connected: has_prefix(trimmed_start(line, CharClass::White), ">"@),
            },
        )
    }
}

pub open spec fn count_separators(ls: Seq<Seq<char>>) -> nat
    decreases ls.len(),
{
    if ls.len() == 0 {
        0
    } else {
        count_separators(ls.drop_last()) + (if is_separator(ls.last()) {
            1nat
        } else {
            0
        })
    }
}

/// The networks of a table: rows count once both underlines of the heading
/// have passed.
pub open spec fn networks(ls: Seq<Seq<char>>) -> Seq<NetworkView>
    decreases ls.len(),
{
    if ls.len() == 0 {
        Seq::empty()
    } else {
        let front = networks(ls.drop_last());
        let line = ls.last();
        if is_separator(line) || count_separators(ls.drop_last()) < 2 {
            front
        } else {
            match row_network(line) {
                Some(n) => front.push(n),
                None => front,
            }
        }
    }
}

fn stars_in(s: &Vec<char>) -> (r: u64)
    ensures
        r == count_stars(s@),
{
    let mut n: u64 = 0;
    let mut i: usize = 0;
    assert(s@.take(0) =~= Seq::empty());
    while i < s.len()
        invariant
            i <= s@.len(),
            n <= i,
            n == count_stars(s@.take(i as int)),
        decreases s@.len() - i,
    {
        assert(s@.take(i + 1).drop_last() =~= s@.take(i as int));
        if s[i] == '*' {
            n += 1;
        }
        i += 1;
    }
    assert(s@.take(s@.len() as int) =~= s@);
    n
}

fn parse_row(line: &Vec<char>) -> (r: Option<WifiNetwork>)
    ensures
        opt_view(r) == row_network(line@),
{
    let lead = text::trim_start(line, CharClass::White);
    let connected = text::chars_start_with(&lead, ">");
    let unmarked = text::trim_start(line, CharClass::SpaceOrMarker);
    let body = text::trim(&unmarked, CharClass::White);
    if body.len() == 0 {
        return None;
    }
    let toks = text::split_words(&body);
    let ghost ws = words(body@);
    let n = toks.len();
    assert(ws.len() == n);
    if n < 3 {
        return None;
    }
    let stars = stars_in(&toks[n - 1]);
    assert(ws.last() == toks@[n - 1]@);
    let mut names: Vec<String> = Vec::new();
    let mut i: usize = 0;
    assert(views(names@) =~= ws.take(0));
    while i < n - 2
        invariant
            3 <= n,
            n == toks@.len(),
            i <= n - 2,
            ws == views(toks@),
            views(names@) == ws.take(i as int),
        decreases n - i,
    {
        let ghost before = names@;
        let w = text::string_of(&toks[i]);
        let ghost wv = w@;
        names.push(w);
        assert(views(names@) =~= views(before).push(wv));
        assert(ws.take(i + 1) =~= ws.take(i as int).push(ws[i as int]));
        i += 1;
    }
    let ssid = text::join(&names, " ");
    if stars == 0 || text::chars_of(ssid.as_str()).len() == 0 {
        return None;
    }
    let security = text::string_of(&toks[n - 2]);
    assert(ws[n - 2] == toks@[n - 2]@);
    let signal: u8 = if stars < 4 {
        stars as u8
    } else {
        4
    };
    Some(WifiNetwork { ssid, security, signal, connected })
}

/// The networks in the output of `iwctl station <device> get-networks`.
pub fn parse_networks(stdout: &str) -> (r: Vec<WifiNetwork>)
    ensures
        views(r@) == networks(lines(stdout@)),
{
    let chars = text::chars_of(stdout);
    let list = text::split_lines(&chars);
    let ghost ls = lines(stdout@);
    let mut out: Vec<WifiNetwork> = Vec::new();
    let mut seps: u64 = 0;
    let mut i: usize = 0;
    assert(ls.take(0) =~= Seq::empty());
    assert(views(out@) =~= Seq::empty());
    while i < list.len()
        invariant
            i <= list@.len(),
            seps <= i,
            views(list@) == ls,
            seps == count_separators(ls.take(i as int)),
            views(out@) == networks(ls.take(i as int)),
        decreases list@.len() - i,
    {
        let ghost before = out@;
        assert(ls.take(i + 1).drop_last() =~= ls.take(i as int));
        assert(ls.take(i + 1).last() == list@[i as int]@);
        let line = &list[i];
        let bare = text::trim(line, CharClass::White);
        if text::chars_start_with(&bare, "---") {
            seps += 1;
        } else if seps >= 2 {
            if let Some(n) = parse_row(line) {
                let ghost nv = n@;
                out.push(n);
                assert(views(out@) =~= views(before).push(nv));
            }
        }
        i += 1;
    }
    assert(ls.take(ls.len() as int) =~= ls);
    out
}

/// Every network that is listed has a name and a signal between 1 and 4.
pub proof fn law_listed_networks_are_usable(ls: Seq<Seq<char>>, k: int)
    requires
        0 <= k < networks(ls).len(),
    ensures
        networks(ls)[k].ssid.len() > 0,
        1 <= networks(ls)[k].signal <= 4,
    decreases ls.len(),
{
    if ls.len() > 0 {
        let front = networks(ls.drop_last());
        if k < front.len() {
            law_listed_networks_are_usable(ls.drop_last(), k);
        }
    }
}

// ---------- devices ----------

/// The wireless device of one row of `iwctl device list`, if it is on.
pub open spec fn row_device(line: Seq<char>) -> Option<Seq<char>> {
    let toks = words(trimmed_start(line, CharClass::SpaceOrMarker));
    if toks.len() >= 4 && toks[3] == "on"@ && has_prefix(toks[0], "wl"@) {
        Some(toks[0])
    } else {
        None
    }
}

pub open spec fn device_from(ls: Seq<Seq<char>>, i: int) -> Option<Seq<char>>
    decreases ls.len() - i,
{
    if i < 0 || i >= ls.len() {
        None
    } else if row_device(ls[i]) is Some {
        row_device(ls[i])
    } else {
        device_from(ls, i + 1)
    }
}

/// The first wireless device that is on, e.g. "wlan0". `None` means that
/// there is no such device.
pub fn first_wireless_device(stdout: &str) -> (r: Option<String>)
    ensures
        opt_view(r) == device_from(lines(stdout@), 0),
{
    let chars = text::chars_of(stdout);
    let list = text::split_lines(&chars);
    let ghost ls = lines(stdout@);
    let mut i: usize = 0;
    while i < list.len()
        invariant
            i <= list@.len(),
            views(list@) == ls,
            ls == lines(stdout@),
            device_from(ls, 0) == device_from(ls, i as int),
        decreases list@.len() - i,
    {
        assert(ls[i as int] == list@[i as int]@);
        let bare = text::trim_start(&list[i], CharClass::SpaceOrMarker);
        let toks = text::split_words(&bare);
        let ghost ws = words(bare@);
        assert(ws.len() == toks@.len());
        if toks.len() >= 4 {
            assert(ws[3] == toks@[3]@);
            assert(ws[0] == toks@[0]@);
            let power = text::string_of(&toks[3]);
            if text::same(power.as_str(), "on") && text::chars_start_with(&toks[0], "wl") {
                return Some(text::string_of(&toks[0]));
            }
        }
        i += 1;
    }
    None
}

/// A TPM2 device: an entry of the kernel's device class whose name and
/// major version say so.
pub open spec fn is_tpm2_entry(e: (String, Option<String>)) -> bool {
    has_prefix(e.0@, "tpm"@) && e.1 is Some && trimmed(e.1->0@, CharClass::White) == "2"@
}

/// Whether one of the entries (name, major version) is a TPM2 device.
pub fn is_tpm2_available(entries: &Vec<(String, Option<String>)>) -> (r: bool)
    ensures
        r == exists|i: int| 0 <= i < entries@.len() && is_tpm2_entry(#[trigger] entries@[i]),
{
    let mut i: usize = 0;
    while i < entries.len()
        invariant
            i <= entries@.len(),
            forall|j: int| 0 <= j < i ==> !is_tpm2_entry(#[trigger] entries@[j]),
        decreases entries@.len() - i,
    {
        if text::starts_with(entries[i].0.as_str(), "tpm") {
            if let Some(v) = &entries[i].1 {
                let chars = text::chars_of(v.as_str());
                let bare = text::trim(&chars, CharClass::White);
                let bare = text::string_of(&bare);
                if text::same(bare.as_str(), "2") {
                    assert(is_tpm2_entry(entries@[i as int]));
                    return true;
                }
            }
        }
        i += 1;
    }
    false
}

/// A default route is listed: the machine is online.
pub fn is_online(routes: &Vec<u8>) -> (r: bool)
    ensures
        r == (routes@.len() > 0),
{
    routes.len() > 0
}

// ---------- commands ----------

pub open spec fn iwctl_command(args: Seq<Seq<char>>) -> CommandView {
    plain("iwctl"@, args, "spawning iwctl "@ + joined(args, " "@))
}

fn iwctl(args: Vec<String>) -> (r: Command)
    ensures
        r@ == iwctl_command(views(args@)),
{
    let shown = text::join(&args, " ");
    let context = text::cat2("spawning iwctl ", shown.as_str());
    Command::new("iwctl", args, context.as_str())
}

/// Lists the devices.
pub fn device_list() -> (r: Command)
    ensures
        r@ == iwctl_command(seq!["device"@, "list"@]),
{
    iwctl(args2("device", "list"))
}

/// Triggers a scan on the device.
pub fn scan(device: &str) -> (r: Command)
    ensures
        r@ == iwctl_command(seq!["station"@, device@, "scan"@]),
{
    iwctl(crate::command::args3("station", device, "scan"))
}

/// Lists the networks that the device sees.
pub fn get_networks(device: &str) -> (r: Command)
    ensures
        r@ == iwctl_command(seq!["station"@, device@, "get-networks"@]),
{
    iwctl(crate::command::args3("station", device, "get-networks"))
}

/// Connects the device to a network.
pub fn connect(device: &str, ssid: &str, passphrase: &str) -> (r: Command)
    ensures
        r@ == plain(
            "iwctl"@,
            seq![
                "--dont-ask"@,
                "--passphrase="@ + passphrase@,
                "station"@,
                device@,
                "connect"@,
                ssid@,
            ],
            "spawning iwctl connect"@,
        ),
{
    let secret = text::cat2("--passphrase=", passphrase);
    let args = chained(
        args4("--dont-ask", secret.as_str(), "station", device),
        args2("connect", ssid),
    );
    assert(views(args@) =~= seq![
        "--dont-ask"@,
        "--passphrase="@ + passphrase@,
        "station"@,
        device@,
        "connect"@,
        ssid@,
    ]);
    Command::new("iwctl", args, "spawning iwctl connect")
}

fn trimmed_text(s: &str) -> (r: String)
    ensures
        r@ == trimmed(s@, CharClass::White),
{
    let chars = text::chars_of(s);
    let t = text::trim(&chars, CharClass::White);
    text::string_of(&t)
}

/// What is said when an `iwctl` call fails.
pub fn failure_text(command: &Command, status: &str, stderr: &str) -> (r: String)
    ensures
        r@ == "iwctl "@ + joined(views(command.args@), " "@) + " exited with "@ + status@
            + "; stderr: "@ + trimmed(stderr@, CharClass::White),
{
    let args = text::join(&command.args, " ");
    let said = trimmed_text(stderr);
    let mut r = text::cat4("iwctl ", args.as_str(), " exited with ", status);
    r.append("; stderr: ");
    r.append(said.as_str());
    r
}

/// What is said when connecting fails. The passphrase is not.
pub fn connect_failure(status: &str, stderr: &str) -> (r: String)
    ensures
        r@ == "iwctl connect failed: "@ + status@ + "\nstderr: "@ + trimmed(
            stderr@,
            CharClass::White,
        ),
{
    let said = trimmed_text(stderr);
    text::cat4("iwctl connect failed: ", status, "\nstderr: ", said.as_str())
}

/// In front of a row: blanks, and the marker of the current connection.
pub open spec fn is_margin(s: Seq<char>) -> bool {
    forall|i: int| 0 <= i < s.len() ==> #[trigger] s[i] == ' ' || s[i] == '>'
}

/// The fields of a row: words, of which the first is not taken for a marker.
pub open spec fn are_fields(ws: Seq<Seq<char>>) -> bool {
    &&& ws.len() > 0 && ws[0][0] != '>'
    &&& forall|i: int| 0 <= i < ws.len() ==> text::is_word(#[trigger] ws[i])
}

proof fn lemma_joined_ends(ws: Seq<Seq<char>>)
    requires
        ws.len() > 0,
        forall|i: int| 0 <= i < ws.len() ==> text::is_word(#[trigger] ws[i]),
    ensures
        joined(ws, seq![' ']).len() > 0,
        joined(ws, seq![' '])[0] == ws[0][0],
        joined(ws, seq![' ']).last() == ws.last().last(),
    decreases ws.len(),
{
    assert(text::is_word(ws[0]));
    assert(text::is_word(ws[ws.len() - 1]));
    if ws.len() > 1 {
        let front = ws.drop_last();
        assert forall|i: int| 0 <= i < front.len() implies text::is_word(#[trigger] front[i]) by {
            assert(front[i] == ws[i]);
        }
        lemma_joined_ends(front);
    }
}

proof fn lemma_row_body(margin: Seq<char>, ws: Seq<Seq<char>>)
    requires
        is_margin(margin),
        are_fields(ws),
    ensures
        ({
            let row = joined(ws, seq![' ']);
            let body = trimmed_start(margin + row, CharClass::SpaceOrMarker);
            body == row && trimmed(body, CharClass::White) == row && row.len() > 0
        }),
{
    let row = joined(ws, seq![' ']);
    let class = CharClass::SpaceOrMarker;
    lemma_joined_ends(ws);
    assert(text::is_word(ws[0]));
    assert(text::is_word(ws[ws.len() - 1]));
    text::law_ascii_classes(' ');
    let line = margin + row;
    assert forall|j: int| 0 <= j < margin.len() implies class.has(line[j]) by {
        assert(line[j] == margin[j]);
    }
    assert(line[margin.len() as int] == row[0]);
    assert(!text::is_white(row[0]));
    text::lemma_leading(line, class, margin.len() as int);
    assert(trimmed_start(line, class) =~= row);
    text::lemma_not_trimmed(row, CharClass::White);
}

/// A row of the network table is read field by field: the last field is the
/// signal, one to four stars or more, the field before it the security, and
/// everything before that, blanks included, the name. The network is the
/// connected one if the margin holds the marker.
pub proof fn law_rows_are_read(margin: Seq<char>, ws: Seq<Seq<char>>)
    requires
        is_margin(margin),
        are_fields(ws),
        ws.len() >= 3,
        forall|i: int| 0 <= i < ws.last().len() ==> #[trigger] ws.last()[i] == '*',
    ensures
        row_network(margin + joined(ws, seq![' '])) == Some(
            NetworkView {
                ssid: joined(ws.take(ws.len() - 2), seq![' ']),
                security: ws[ws.len() - 2],
                signal: if ws.last().len() < 4 {
                    ws.last().len() as int
                } else {
                    4
                },
                connected: exists|i: int| 0 <= i < margin.len() && #[trigger] margin[i] == '>',
            },
        ),
{
    let row = joined(ws, seq![' ']);
    let line = margin + row;
    reveal_strlit(" ");
    assert(" "@ =~= seq![' ']);
    lemma_row_body(margin, ws);
    text::law_joined_words_are_kept(ws);
    lemma_stars(ws.last());
    assert(text::is_word(ws[ws.len() - 1]));
    let name = ws.take(ws.len() - 2);
    assert forall|i: int| 0 <= i < name.len() implies text::is_word(#[trigger] name[i]) by {
        assert(name[i] == ws[i]);
    }
    lemma_joined_ends(name);
    lemma_joined_ends(ws);
    lemma_marker(margin, row);
}

proof fn lemma_stars(s: Seq<char>)
    requires
        forall|i: int| 0 <= i < s.len() ==> #[trigger] s[i] == '*',
    ensures
        count_stars(s) == s.len(),
    decreases s.len(),
{
    if s.len() > 0 {
        lemma_stars(s.drop_last());
    }
}

proof fn lemma_marker(margin: Seq<char>, row: Seq<char>)
    requires
        is_margin(margin),
        row.len() > 0,
        row[0] != '>',
        !text::is_white(row[0]),
    ensures
        has_prefix(trimmed_start(margin + row, CharClass::White), ">"@) <==> exists|i: int|
            0 <= i < margin.len() && #[trigger] margin[i] == '>',
{
    let line = margin + row;
    let class = CharClass::White;
    reveal_strlit(">");
    text::law_ascii_classes(' ');
    text::law_ascii_classes('>');
    text::lemma_leading_bounds(line, class);
    let n = text::leading(line, class) as int;
    assert(n <= margin.len()) by {
        if n > margin.len() {
            assert(class.has(line[margin.len() as int]));
        }
    }
    let t = trimmed_start(line, class);
    assert(t[0] == line[n]);
    assert(has_prefix(t, ">"@) <==> t[0] == '>') by {
        if t[0] == '>' {
            assert(t.take(1) =~= ">"@);
        } else if has_prefix(t, ">"@) {
            assert(t.take(1)[0] == '>');
        }
    }
    if n < margin.len() {
        assert(line[n] == margin[n]);
        assert(margin[n] == '>');
    } else {
        assert forall|i: int| 0 <= i < margin.len() implies #[trigger] margin[i] != '>' by {
            assert(line[i] == margin[i]);
            assert(class.has(line[i]));
        }
    }
}

/// A row without a star in its last field, or with fewer than three fields,
/// is no network.
pub proof fn law_other_rows_are_skipped(margin: Seq<char>, ws: Seq<Seq<char>>)
    requires
        is_margin(margin),
        are_fields(ws),
        ws.len() < 3 || forall|i: int| 0 <= i < ws.last().len() ==> #[trigger] ws.last()[i] != '*',
    ensures
        row_network(margin + joined(ws, seq![' '])) is None,
{
    lemma_row_body(margin, ws);
    text::law_joined_words_are_kept(ws);
    if ws.len() >= 3 {
        lemma_no_stars(ws.last());
    }
}

proof fn lemma_no_stars(s: Seq<char>)
    requires
        forall|i: int| 0 <= i < s.len() ==> #[trigger] s[i] != '*',
    ensures
        count_stars(s) == 0,
    decreases s.len(),
{
    if s.len() > 0 {
        lemma_no_stars(s.drop_last());
    }
}

/// The networks stand behind the second separator line, one in each row that
/// is one, in the order of the rows.
pub proof fn law_networks_stand_behind_the_head(ls: Seq<Seq<char>>, line: Seq<char>)
    ensures
        networks(Seq::empty()).len() == 0,
        count_separators(ls) < 2 ==> networks(ls.push(line)).len() == 0,
        is_separator(line) ==> networks(ls.push(line)) == networks(ls),
        !is_separator(line) && count_separators(ls) >= 2 ==> match row_network(line) {
            Some(n) => networks(ls.push(line)) == networks(ls).push(n),
            None => networks(ls.push(line)) == networks(ls),
        },
        count_separators(ls.push(line)) == count_separators(ls) + (if is_separator(line) {
            1int
        } else {
            0
        }),
{
    assert(ls.push(line).drop_last() =~= ls);
    lemma_head(ls);
}

proof fn lemma_head(ls: Seq<Seq<char>>)
    ensures
        count_separators(ls) < 2 ==> networks(ls).len() == 0,
    decreases ls.len(),
{
    if ls.len() > 0 {
        lemma_head(ls.drop_last());
    }
}

/// Blanks in front of a text are trimmed off, and nothing else of it.
proof fn lemma_blanks_trimmed(blanks: Seq<char>, body: Seq<char>)
    requires
        forall|i: int| 0 <= i < blanks.len() ==> text::is_white(#[trigger] blanks[i]),
        body.len() > 0,
        !text::is_white(body[0]),
        !text::is_white(body.last()),
    ensures
        trimmed(blanks + body, CharClass::White) == body,
{
    let class = CharClass::White;
    let line = blanks + body;
    assert forall|j: int| 0 <= j < blanks.len() implies class.has(line[j]) by {
        assert(line[j] == blanks[j]);
    }
    assert(line[blanks.len() as int] == body[0]);
    text::lemma_leading(line, class, blanks.len() as int);
    assert(trimmed_start(line, class) =~= body);
    text::lemma_trailing(body, class, 0);
    assert(trimmed(line, class) =~= body);
}

/// A separator is a line of dashes, whatever blanks stand around it.
#[verifier::spinoff_prover]
pub proof fn law_dashes_separate(blanks: Seq<char>, rest: Seq<char>)
    requires
        forall|i: int| 0 <= i < blanks.len() ==> text::is_white(#[trigger] blanks[i]),
        rest.len() == 0 || !text::is_white(rest.last()),
    ensures
        is_separator(blanks + "---"@ + rest),
        rest.len() > 0 && !text::is_white(rest[0]) && rest[0] != '-' ==> !is_separator(
            blanks + rest,
        ),
{
    reveal_strlit("---");
    text::law_ascii_classes('-');
    let body = "---"@ + rest;
    assert(blanks + "---"@ + rest =~= blanks + body);
    assert(body[0] == '-');
    assert(body.last() == '-' || body.last() == rest.last());
    lemma_blanks_trimmed(blanks, body);
    assert(body.take(3) =~= "---"@);
    if rest.len() > 0 && !text::is_white(rest[0]) && rest[0] != '-' {
        lemma_blanks_trimmed(blanks, rest);
        if has_prefix(rest, "---"@) {
            assert(rest.take(3)[0] == '-');
        }
    }
}

/// A row of the device table names a wireless device that is powered: its
/// name starts with `wl` and the fourth field is `on`.
pub proof fn law_wireless_devices_are_read(margin: Seq<char>, ws: Seq<Seq<char>>)
    requires
        is_margin(margin),
        are_fields(ws),
    ensures
        row_device(margin + joined(ws, seq![' '])) == (if ws.len() >= 4 && ws[3] == "on"@
            && ws[0].len() >= 2 && ws[0][0] == 'w' && ws[0][1] == 'l' {
            Some(ws[0])
        } else {
            None
        }),
{
    lemma_row_body(margin, ws);
    text::law_joined_words_are_kept(ws);
    reveal_strlit("wl");
    let name = ws[0];
    if name.len() >= 2 && name[0] == 'w' && name[1] == 'l' {
        assert(name.take(2) =~= "wl"@);
    } else if has_prefix(name, "wl"@) {
        assert(name.take(2)[0] == 'w');
        assert(name.take(2)[1] == 'l');
    }
}

/// The first row that names such a device decides.
#[verifier::spinoff_prover]
pub proof fn law_the_first_device_is_taken(ls: Seq<Seq<char>>, k: int)
    ensures
        0 <= k < ls.len() && row_device(ls[k]) is Some && (forall|j: int|
            0 <= j < k ==> row_device(#[trigger] ls[j]) is None) ==> device_from(ls, 0)
            == row_device(ls[k]),
        (forall|j: int| 0 <= j < ls.len() ==> row_device(#[trigger] ls[j]) is None) ==> device_from(
            ls,
            0,
        ) is None,
{
    if 0 <= k < ls.len() && row_device(ls[k]) is Some && (forall|j: int|
        0 <= j < k ==> row_device(#[trigger] ls[j]) is None) {
        lemma_device_found(ls, 0, k);
    }
    if forall|j: int| 0 <= j < ls.len() ==> row_device(#[trigger] ls[j]) is None {
        lemma_no_device(ls, 0);
    }
}

proof fn lemma_device_found(ls: Seq<Seq<char>>, from: int, k: int)
    requires
        0 <= from <= k < ls.len(),
        row_device(ls[k]) is Some,
        forall|j: int| from <= j < k ==> row_device(#[trigger] ls[j]) is None,
    ensures
        device_from(ls, from) == row_device(ls[k]),
    decreases k - from,
{
    if from < k {
        lemma_device_found(ls, from + 1, k);
    }
}

proof fn lemma_no_device(ls: Seq<Seq<char>>, from: int)
    requires
        0 <= from <= ls.len(),
        forall|j: int| from <= j < ls.len() ==> row_device(#[trigger] ls[j]) is None,
    ensures
        device_from(ls, from) is None,
    decreases ls.len() - from,
{
    if from < ls.len() {
        lemma_no_device(ls, from + 1);
    }
}

/// A TPM counts if its version is 2, whatever blanks stand around it.
pub proof fn law_only_tpm_two_counts(e: (String, Option<String>))
    ensures
        is_tpm2_entry(e) ==> e.0@.len() >= 3 && e.0@.take(3) == "tpm"@,
        is_tpm2_entry(e) ==> e.1 is Some && text::is_stripped(e.1->0@, "2"@),
        e.0@.len() >= 3 && e.0@.take(3) == "tpm"@ && e.1 is Some && e.1->0@ == "2\n"@
            ==> is_tpm2_entry(e),
{
    reveal_strlit("tpm");
    reveal_strlit("2");
    reveal_strlit("2\n");
    if e.1 is Some {
        let v = e.1->0@;
        text::law_trimming_strips(v);
        if v == "2\n"@ {
            text::law_ascii_classes('2');
            text::law_ascii_classes('\n');
            text::lemma_leading(v, CharClass::White, 0);
            assert(trimmed_start(v, CharClass::White) =~= v);
            text::lemma_trailing(v, CharClass::White, 1);
            assert(trimmed(v, CharClass::White) =~= "2"@);
        }
    }
}

} // verus!
