//! Boot loader entries: adding the kernel argument that unlocks the
//! encrypted root at boot.
//!
//! The argument names the mapping `root`, so that it and the unit that the
//! GPT generator makes for the root partition are one and the same.
use vstd::prelude::*;

use crate::text::{
    self, has_prefix, is_white, leading, lines, trimmed_start, views, without_cr, words, CharClass,
};

verus! {

pub open spec fn esp_entries() -> Seq<char> {
    "/run/cosmonaut/target/boot/efi/loader/entries"@
}

pub open spec fn boot_entries() -> Seq<char> {
    "/run/cosmonaut/target/boot/loader/entries"@
}

/// The directory that holds the boot entries: on the ESP, or where older
/// versions wrote them.
pub fn entries_dir(on_esp: bool, on_boot: bool) -> (r: Result<&'static str, String>)
    ensures
        match r {
            Ok(d) => (on_esp && d@ == esp_entries()) || (!on_esp && on_boot && d@
                == boot_entries()),
            Err(m) => !on_esp && !on_boot && m@ == "no BLS entries directory at "@ + esp_entries()
                + " or "@ + boot_entries()
                + " — bootc install may not have written entries yet"@,
        },
{
    if on_esp {
        Ok("/run/cosmonaut/target/boot/efi/loader/entries")
    } else if on_boot {
        Ok("/run/cosmonaut/target/boot/loader/entries")
    } else {
        Err(
            text::cat5(
                "no BLS entries directory at ",
                "/run/cosmonaut/target/boot/efi/loader/entries",
                " or ",
                "/run/cosmonaut/target/boot/loader/entries",
                " — bootc install may not have written entries yet",
            ),
        )
    }
}

/// A file name with the extension `conf`: a name that is all extension has
/// none.
pub open spec fn is_entry_name(name: Seq<char>) -> bool {
    name.len() > 5 && name.skip(name.len() - 5) == ".conf"@
}

pub fn is_entry(name: &str) -> (r: bool)
    ensures
        r == is_entry_name(name@),
{
    proof {
        reveal_strlit(".conf");
    }
    let chars = text::chars_of(name);
    if chars.len() <= 5 {
        return false;
    }
    let n = chars.len();
    let tail = text::string_between(&chars, n - 5, n);
    assert(tail@ =~= name@.skip(name@.len() - 5));
    text::same(tail.as_str(), ".conf")
}

/// The kernel argument for the volume with this UUID.
pub open spec fn karg_of(uuid: Seq<char>) -> Seq<char> {
    "rd.luks.name="@ + uuid + "=root"@
}

pub fn karg(uuid: &str) -> (r: String)
    ensures
        r@ == karg_of(uuid@),
{
    text::cat3("rd.luks.name=", uuid, "=root")
}

pub open spec fn is_options(line: Seq<char>) -> bool {
    has_prefix(line, "options "@)
}

/// An options line that already holds the argument.
pub open spec fn carries(line: Seq<char>, karg: Seq<char>) -> bool {
    is_options(line) && words(line.skip("options "@.len() as int)).contains(karg)
}

/// A line of the entry with the argument added where it belongs.
pub open spec fn with_karg(line: Seq<char>, karg: Seq<char>) -> Seq<char> {
    if is_options(line) && !carries(line, karg) {
        line + " "@ + karg
    } else {
        line
    }
}

/// Lines as text, each ended by a newline.
pub open spec fn unlines(ls: Seq<Seq<char>>) -> Seq<char>
    decreases ls.len(),
{
    if ls.len() == 0 {
        Seq::empty()
    } else {
        unlines(ls.drop_last()) + ls.last() + "\n"@
    }
}

pub open spec fn any_options(ls: Seq<Seq<char>>) -> bool {
    exists|i: int| 0 <= i < ls.len() && is_options(#[trigger] ls[i])
}

/// The lines of an entry after the injection: the argument is added to
/// every options line that lacks it, or on a line of its own where there is
/// none.
pub open spec fn injected_lines(ls: Seq<Seq<char>>, karg: Seq<char>) -> Seq<Seq<char>> {
    let mapped = ls.map_values(|l: Seq<char>| with_karg(l, karg));
    if any_options(ls) {
        mapped
    } else {
        mapped.push("options "@ + karg)
    }
}

pub open spec fn injected(content: Seq<char>, karg: Seq<char>) -> Seq<char> {
    unlines(injected_lines(lines(content), karg))
}

fn has_word(chars: &Vec<char>, from: usize, word: &str) -> (r: bool)
    requires
        from <= chars@.len(),
    ensures
        r == words(chars@.skip(from as int)).contains(word@),
{
    let rest = text::cut(chars, from, chars.len());
    assert(rest@ =~= chars@.skip(from as int));
    let list = text::split_words(&rest);
    let ghost ws = words(rest@);
    let mut i: usize = 0;
    while i < list.len()
        invariant
            i <= list@.len(),
            ws == views(list@),
            ws == words(chars@.skip(from as int)),
            forall|j: int| 0 <= j < i ==> ws[j] != word@,
        decreases list@.len() - i,
    {
        assert(ws[i as int] == list@[i as int]@);
        let w = text::string_of(&list[i]);
        if text::same(w.as_str(), word) {
            return true;
        }
        i += 1;
    }
    false
}

/// The text of a boot entry with the argument injected.
pub fn inject(content: &str, karg: &str) -> (r: String)
    ensures
        r@ == injected(content@, karg@),
{
    proof {
        reveal_strlit("options ");
    }
    let chars = text::chars_of(content);
    let list = text::split_lines(&chars);
    let ghost ls = lines(content@);
    let ghost mapped = ls.map_values(|l: Seq<char>| with_karg(l, karg@));
    let mut out = String::new();
    let mut saw_options = false;
    let mut i: usize = 0;
    assert(mapped.take(0) =~= Seq::empty());
    while i < list.len()
        invariant
            i <= list@.len(),
            views(list@) == ls,
            "options "@.len() == 8,
            mapped == ls.map_values(|l: Seq<char>| with_karg(l, karg@)),
            out@ == unlines(mapped.take(i as int)),
            saw_options == any_options(ls.take(i as int)),
        decreases list@.len() - i,
    {
        let ghost before = out@;
        let ghost line = ls[i as int];
        assert(line == list@[i as int]@);
        let ghost next = mapped.take(i + 1);
        assert(next.drop_last() =~= mapped.take(i as int));
        assert(next.last() == with_karg(line, karg@));
        let shown = text::string_of(&list[i]);
        out.append(shown.as_str());
        if text::chars_start_with(&list[i], "options ") {
            saw_options = true;
            assert(is_options(ls.take(i + 1)[i as int]));
            if !has_word(&list[i], 8, karg) {
                out.append(" ");
                out.append(karg);
            }
        }
        out.append("\n");
        assert(out@ =~= before + with_karg(line, karg@) + "\n"@);
        proof {
            let a = ls.take(i as int);
            let b = ls.take(i + 1);
            if any_options(a) {
                let j = choose|j: int| 0 <= j < a.len() && is_options(#[trigger] a[j]);
                assert(is_options(b[j]));
            }
            if any_options(b) {
                let j = choose|j: int| 0 <= j < b.len() && is_options(#[trigger] b[j]);
                if j < a.len() {
                    assert(is_options(a[j]));
                }
            }
        }
        i += 1;
    }
    assert(mapped.take(ls.len() as int) =~= mapped);
    assert(ls.take(ls.len() as int) =~= ls);
    if !saw_options {
        let ghost before = out@;
        out.append("options ");
        out.append(karg);
        out.append("\n");
        let ghost all = mapped.push("options "@ + karg@);
        assert(all.drop_last() =~= mapped);
        assert(out@ =~= before + ("options "@ + karg@) + "\n"@);
    }
    out
}

/// The complaint when a directory held no entry.
pub fn check_touched(touched: usize, dir: &str) -> (r: Result<(), String>)
    ensures
        match r {
            Ok(_) => touched > 0,
            Err(m) => touched == 0 && m@ == "no BLS entries found under "@ + dir@,
        },
{
    if touched == 0 {
        Err(text::cat2("no BLS entries found under ", dir))
    } else {
        Ok(())
    }
}

// ---------- laws ----------

/// A token: not empty, and free of white space.
pub open spec fn is_token(s: Seq<char>) -> bool {
    s.len() > 0 && forall|i: int| 0 <= i < s.len() ==> !is_white(#[trigger] s[i])
}

/// A token at the end of a text, set off by a space, is its last word.
proof fn lemma_words_end(s: Seq<char>, k: Seq<char>)
    requires
        is_token(k),
    ensures
        words(s + seq![' '] + k) == words(s).push(k),
    decreases s.len(),
{
    let whole = s + seq![' '] + k;
    let t = trimmed_start(s, CharClass::White);
    let n0 = leading(s, CharClass::White);
    text::lemma_leading_bounds(s, CharClass::White);
    if t.len() == 0 {
        assert forall|j: int| 0 <= j < s.len() + 1 implies CharClass::White.has(whole[j]) by {
            if j < s.len() {
                assert(whole[j] == s[j]);
            }
        }
        assert(whole[s.len() as int + 1] == k[0]);
        text::lemma_leading(whole, CharClass::White, s.len() as int + 1);
        assert(trimmed_start(whole, CharClass::White) =~= k);
        text::lemma_leading(k, CharClass::NonWhite, k.len() as int);
        assert(k.take(k.len() as int) =~= k);
        let e = k.skip(k.len() as int);
        assert(words(e) =~= Seq::empty()) by {
            assert(trimmed_start(e, CharClass::White).len() == 0);
        }
        assert(words(whole) =~= seq![k]);
        assert(words(s) =~= Seq::empty());
        assert(words(s).push(k) =~= seq![k]);
    } else {
        let tw = t + seq![' '] + k;
        assert forall|j: int| 0 <= j < n0 implies CharClass::White.has(whole[j]) by {
            assert(whole[j] == s[j]);
        }
        assert(whole[n0 as int] == s[n0 as int]);
        text::lemma_leading(whole, CharClass::White, n0 as int);
        assert(trimmed_start(whole, CharClass::White) =~= tw);
        let n = leading(t, CharClass::NonWhite);
        text::lemma_leading_bounds(t, CharClass::NonWhite);
        assert(t[0] == s[n0 as int]);
        assert(n > 0);
        assert forall|j: int| 0 <= j < n implies CharClass::NonWhite.has(tw[j]) by {
            assert(tw[j] == t[j]);
        }
        if n < t.len() {
            assert(tw[n as int] == t[n as int]);
        } else {
            assert(tw[n as int] == ' ');
        }
        text::lemma_leading(tw, CharClass::NonWhite, n as int);
        let rest = t.skip(n as int);
        lemma_words_end(rest, k);
        assert(tw.skip(n as int) =~= rest + seq![' '] + k);
        assert(tw.take(n as int) =~= t.take(n as int));
        assert(words(whole) =~= seq![t.take(n as int)] + words(rest).push(k));
        assert(words(s).push(k) =~= seq![t.take(n as int)] + words(rest).push(k));
    }
}

/// A line that stays whole when it is read back: it holds no newline, and
/// no carriage return at its end.
pub open spec fn is_plain_line(l: Seq<char>) -> bool {
    &&& forall|i: int| 0 <= i < l.len() ==> #[trigger] l[i] != '\n'
    &&& l.len() > 0 ==> l.last() != '\r'
}

pub open spec fn all_plain(ls: Seq<Seq<char>>) -> bool {
    forall|i: int| 0 <= i < ls.len() ==> is_plain_line(#[trigger] ls[i])
}

proof fn lemma_unlines_front(ls: Seq<Seq<char>>)
    requires
        ls.len() > 0,
    ensures
        unlines(ls) == ls[0] + seq!['\n'] + unlines(ls.skip(1)),
    decreases ls.len(),
{
    reveal_strlit("\n");
    assert("\n"@ =~= seq!['\n']);
    if ls.len() == 1 {
        assert(ls.drop_last() =~= Seq::empty());
        assert(ls.skip(1) =~= Seq::empty());
        assert(unlines(ls) =~= ls[0] + seq!['\n'] + unlines(ls.skip(1)));
    } else {
        lemma_unlines_front(ls.drop_last());
        assert(ls.skip(1).drop_last() =~= ls.drop_last().skip(1));
        assert(unlines(ls) =~= ls[0] + seq!['\n'] + unlines(ls.skip(1)));
    }
}

/// Plain lines written out and read back are the same lines.
pub proof fn law_lines_read_back(ls: Seq<Seq<char>>)
    requires
        all_plain(ls),
    ensures
        lines(unlines(ls)) == ls,
    decreases ls.len(),
{
    if ls.len() > 0 {
        let l = ls[0];
        let rest = ls.skip(1);
        lemma_unlines_front(ls);
        assert(all_plain(rest)) by {
            assert forall|i: int| 0 <= i < rest.len() implies is_plain_line(#[trigger] rest[i]) by {
                assert(rest[i] == ls[i + 1]);
            }
        }
        law_lines_read_back(rest);
        let whole = unlines(ls);
        assert(is_plain_line(l));
        assert forall|j: int| 0 <= j < l.len() implies CharClass::IsNot('\n').has(whole[j]) by {
            assert(whole[j] == l[j]);
        }
        assert(whole[l.len() as int] == '\n');
        text::lemma_leading(whole, CharClass::IsNot('\n'), l.len() as int);
        assert(whole.take(l.len() as int) =~= l);
        assert(whole.skip(l.len() as int + 1) =~= unlines(rest));
        assert(without_cr(l) == l);
        assert(lines(whole) =~= seq![l] + rest);
        assert(ls =~= seq![l] + rest);
    } else {
        assert(unlines(ls) =~= Seq::empty());
        assert(lines(unlines(ls)) =~= ls);
    }
}

proof fn lemma_with_karg(line: Seq<char>, karg: Seq<char>)
    requires
        is_token(karg),
    ensures
        is_options(with_karg(line, karg)) == is_options(line),
        is_options(line) ==> carries(with_karg(line, karg), karg),
        with_karg(with_karg(line, karg), karg) == with_karg(line, karg),
        is_plain_line(line) ==> is_plain_line(with_karg(line, karg)),
        is_options(line) && !carries(line, karg) && (forall|i: int|
            0 <= i < line.len() ==> #[trigger] line[i] != '\n') ==> is_plain_line(
            with_karg(line, karg),
        ),
{
    reveal_strlit("options ");
    reveal_strlit(" ");
    assert(" "@ =~= seq![' ']);
    if is_options(line) && !carries(line, karg) {
        let longer = line + " "@ + karg;
        assert(longer.take(8) =~= line.take(8));
        let rest = line.skip(8);
        assert(longer.skip(8) =~= rest + seq![' '] + karg);
        lemma_words_end(rest, karg);
        assert(words(rest).push(karg).last() == karg);
        assert(words(longer.skip(8)).contains(karg));
        assert(longer.last() == karg.last());
        assert(!is_white(karg[karg.len() - 1]));
        if forall|i: int| 0 <= i < line.len() ==> #[trigger] line[i] != '\n' {
            assert forall|i: int| 0 <= i < longer.len() implies #[trigger] longer[i] != '\n' by {
                if i < line.len() {
                    assert(longer[i] == line[i]);
                } else if i > line.len() {
                    assert(longer[i] == karg[i - line.len() - 1]);
                }
            }
        }
    }
}

proof fn lemma_own_line(karg: Seq<char>)
    requires
        is_token(karg),
    ensures
        carries("options "@ + karg, karg),
        is_plain_line("options "@ + karg),
{
    reveal_strlit("options ");
    let line = "options "@ + karg;
    assert(line.take(8) =~= "options "@);
    assert(line.skip(8) =~= karg);
    let s = Seq::<char>::empty();
    lemma_words_end(s, karg);
    assert(words(s) =~= Seq::empty()) by {
        assert(trimmed_start(s, CharClass::White).len() == 0);
    }
    assert(seq![' '] + karg =~= s + seq![' '] + karg);
    text::lemma_words_trimmed(seq![' '] + karg);
    assert((seq![' '] + karg)[1] == karg[0]);
    text::lemma_leading(seq![' '] + karg, CharClass::White, 1);
    assert(trimmed_start(seq![' '] + karg, CharClass::White) =~= karg);
    assert(words(karg) =~= seq![karg]);
    assert(words(karg)[0] == karg);
    assert(line.last() == karg.last());
    assert(!is_white(karg[karg.len() - 1]));
    assert forall|i: int| 0 <= i < line.len() implies #[trigger] line[i] != '\n' by {
        if i >= 8 {
            assert(line[i] == karg[i - 8]);
        }
    }
}

/// After the injection, every options line carries the argument and there
/// is at least one.
pub proof fn law_entries_carry_karg(content: Seq<char>, karg: Seq<char>)
    requires
        is_token(karg),
    ensures
        any_options(injected_lines(lines(content), karg)),
        forall|i: int|
            0 <= i < injected_lines(lines(content), karg).len() && is_options(
                #[trigger] injected_lines(lines(content), karg)[i],
            ) ==> carries(injected_lines(lines(content), karg)[i], karg),
{
    let ls = lines(content);
    let out = injected_lines(ls, karg);
    lemma_own_line(karg);
    assert forall|i: int| 0 <= i < out.len() && is_options(#[trigger] out[i]) implies carries(
        out[i],
        karg,
    ) by {
        if i < ls.len() {
            lemma_with_karg(ls[i], karg);
            assert(out[i] == with_karg(ls[i], karg));
        }
    }
    if any_options(ls) {
        let j = choose|j: int| 0 <= j < ls.len() && is_options(#[trigger] ls[j]);
        lemma_with_karg(ls[j], karg);
        assert(out[j] == with_karg(ls[j], karg));
        assert(is_options(out[j]));
    } else {
        assert(out[ls.len() as int] == "options "@ + karg);
        assert(is_options(out[ls.len() as int]));
    }
}

/// Lines that are no options lines stay as they are, in their places.
pub proof fn law_other_lines_are_kept(content: Seq<char>, karg: Seq<char>, i: int)
    requires
        0 <= i < lines(content).len(),
    ensures
        !is_options(lines(content)[i]) ==> injected_lines(lines(content), karg)[i] == lines(
            content,
        )[i],
        is_options(lines(content)[i]) ==> has_prefix(
            injected_lines(lines(content), karg)[i],
            lines(content)[i],
        ),
{
    let l = lines(content)[i];
    let out = injected_lines(lines(content), karg)[i];
    assert(out == with_karg(l, karg));
    assert(out.take(l.len() as int) =~= l);
}

/// Lines hold no newlines.
proof fn lemma_lines_hold_no_newline(s: Seq<char>, i: int)
    requires
        0 <= i < lines(s).len(),
    ensures
        forall|j: int| 0 <= j < lines(s)[i].len() ==> #[trigger] lines(s)[i][j] != '\n',
    decreases s.len(),
{
    let n = leading(s, CharClass::IsNot('\n'));
    text::lemma_leading_bounds(s, CharClass::IsNot('\n'));
    let l = lines(s)[i];
    if i == 0 {
        assert(l == without_cr(s.take(n as int)) || l == s.take(n as int));
        assert forall|j: int| 0 <= j < l.len() implies #[trigger] l[j] != '\n' by {
            assert(l[j] == s[j]);
            assert(CharClass::IsNot('\n').has(s[j]));
        }
    } else {
        lemma_lines_hold_no_newline(s.skip(n as int + 1), i - 1);
        assert(lines(s)[i] == lines(s.skip(n as int + 1))[i - 1]);
    }
}

/// Injecting twice is the same as injecting once, for entries whose kept
/// lines do not end in a carriage return.
pub proof fn law_injection_is_idempotent(content: Seq<char>, karg: Seq<char>)
    requires
        is_token(karg),
        forall|i: int|
            0 <= i < lines(content).len() ==> is_plain_line(#[trigger] lines(content)[i]) || (
            is_options(lines(content)[i]) && !carries(lines(content)[i], karg)),
    ensures
        injected(injected(content, karg), karg) == injected(content, karg),
{
    let ls = lines(content);
    let once = injected_lines(ls, karg);
    lemma_own_line(karg);
    assert forall|i: int| 0 <= i < once.len() implies is_plain_line(#[trigger] once[i]) by {
        if i < ls.len() {
            lemma_lines_hold_no_newline(content, i);
            lemma_with_karg(ls[i], karg);
            assert(once[i] == with_karg(ls[i], karg));
        }
    }
    law_lines_read_back(once);
    law_entries_carry_karg(content, karg);
    let twice = injected_lines(once, karg);
    assert(twice.len() == once.len());
    assert forall|i: int| 0 <= i < once.len() implies twice[i] == once[i] by {
        assert(twice[i] == with_karg(once[i], karg));
    }
    assert(twice =~= once);
}

/// The line is one of kernel options.
pub open spec fn starts_with_options(l: Seq<char>) -> bool {
    l.len() >= 8 && l.take(8) == "options "@
}

/// Injection works line by line: a line of kernel options that has the
/// argument as one of its words stays as it is, any other line of kernel
/// options gets it at its end, behind a blank, and all other lines stay as
/// they are. Only where there is no line of kernel options, one with the
/// argument alone is added at the end.
pub proof fn law_argument_is_added_where_missing(content: Seq<char>, karg: Seq<char>, i: int)
    requires
        is_token(karg),
        all_plain(lines(content)),
    ensures
        ({
            let before = lines(content);
            let after = lines(injected(content, karg));
            let found = exists|k: int|
                0 <= k < before.len() && starts_with_options(#[trigger] before[k]);
            &&& 0 <= i < before.len() ==> after[i] == (if starts_with_options(before[i]) && !words(
                before[i].skip(8),
            ).contains(karg) {
                before[i] + " "@ + karg
            } else {
                before[i]
            })
            &&& found ==> after.len() == before.len()
            &&& !found ==> after.len() == before.len() + 1 && after.last() == "options "@ + karg
        }),
{
    let before = lines(content);
    let once = injected_lines(before, karg);
    reveal_strlit("options ");
    assert forall|k: int| 0 <= k < before.len() implies (starts_with_options(#[trigger] before[k])
        <==> is_options(before[k])) by {}
    lemma_own_line(karg);
    assert forall|k: int| 0 <= k < once.len() implies is_plain_line(#[trigger] once[k]) by {
        if k < before.len() {
            assert(is_plain_line(before[k]));
            lemma_with_karg(before[k], karg);
            assert(once[k] == with_karg(before[k], karg));
        }
    }
    law_lines_read_back(once);
    assert(lines(injected(content, karg)) == once);
    if 0 <= i < before.len() {
        assert(once[i] == with_karg(before[i], karg));
    }
    let found = exists|k: int| 0 <= k < before.len() && starts_with_options(#[trigger] before[k]);
    if found {
        let k = choose|k: int| 0 <= k < before.len() && starts_with_options(#[trigger] before[k]);
        assert(is_options(before[k]));
    } else {
        assert forall|k: int| 0 <= k < before.len() implies !is_options(#[trigger] before[k]) by {
            assert(!starts_with_options(before[k]));
        }
        assert(!any_options(before));
    }
}

/// Every line of the result ends in a line feed.
pub proof fn law_entries_end_in_a_line_feed(content: Seq<char>, karg: Seq<char>)
    ensures
        injected(content, karg).len() > 0 ==> injected(content, karg).last() == '\n',
{
    reveal_strlit("\n");
    let ls = injected_lines(lines(content), karg);
    if ls.len() > 0 {
        assert(injected(content, karg) == unlines(ls.drop_last()) + ls.last() + "\n"@);
    }
}

/// An entry file has a name that ends in `.conf`, with something before it.
pub proof fn law_entries_are_conf_files(stem: Seq<char>, name: Seq<char>)
    ensures
        stem.len() > 0 ==> is_entry_name(stem + ".conf"@),
        is_entry_name(name) ==> exists|s: Seq<char>| s.len() > 0 && name == #[trigger] (s + ".conf"@),
{
    reveal_strlit(".conf");
    assert((stem + ".conf"@).skip(stem.len() as int) =~= ".conf"@);
    if is_entry_name(name) {
        let s = name.take(name.len() - 5);
        assert(name =~= s + ".conf"@);
    }
}

/// The argument names the volume by its UUID and has it opened as `root`.
pub proof fn law_argument_names_the_volume(uuid: Seq<char>, other: Seq<char>)
    ensures
        karg_of(uuid) == "rd.luks.name="@ + uuid + "=root"@,
        karg_of(uuid) == karg_of(other) ==> uuid == other,
{
    reveal_strlit("rd.luks.name=");
    reveal_strlit("=root");
    if karg_of(uuid) == karg_of(other) {
        assert(karg_of(uuid).len() == uuid.len() + 18);
        assert(karg_of(other).len() == other.len() + 18);
        assert(uuid =~= karg_of(uuid).subrange(13, 13 + uuid.len() as int));
        assert(other =~= karg_of(other).subrange(13, 13 + other.len() as int));
    }
}

} // verus!
