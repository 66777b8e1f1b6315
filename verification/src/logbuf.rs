//! The log shown while an install runs: the last lines, within a byte
//! limit.
use vstd::prelude::*;

use crate::text;

verus! {

pub const LOG_BUFFER_BYTES: u64 = 32 * 1024;

/// The length of a character in UTF-8.
pub open spec fn utf8_len(c: char) -> nat {
    if (c as u32) < 0x80 {
        1
    } else if (c as u32) < 0x800 {
        2
    } else if (c as u32) < 0x10000 {
        3
    } else {
        4
    }
}

/// The length of a text in UTF-8.
pub open spec fn bytes(s: Seq<char>) -> nat
    decreases s.len(),
{
    if s.len() == 0 {
        0
    } else {
        bytes(s.drop_last()) + utf8_len(s.last())
    }
}

/// The index behind the first newline at or behind `i` that has at least
/// `drop` bytes before it; the length when there is none.
pub open spec fn cut_index(s: Seq<char>, drop: int, i: int) -> int
    decreases s.len() - i,
{
    if i < 0 || i >= s.len() {
        s.len() as int
    } else if s[i] == '\n' && bytes(s.take(i)) >= drop {
        i + 1
    } else {
        cut_index(s, drop, i + 1)
    }
}

/// The text without its oldest lines, as many as it takes to meet the
/// limit.
pub open spec fn within_limit(s: Seq<char>) -> Seq<char> {
    if bytes(s) <= LOG_BUFFER_BYTES {
        s
    } else {
        s.skip(cut_index(s, bytes(s) - LOG_BUFFER_BYTES, 0))
    }
}

/// The log after one more line.
pub open spec fn logged(log: Seq<char>, stream: Seq<char>, line: Seq<char>) -> Seq<char> {
    within_limit(log + "["@ + stream + "] "@ + line + "\n"@)
}

fn width(c: char) -> (r: u128)
    ensures
        r == utf8_len(c),
{
    let n: u32 = c as u32;
    if n < 0x80 {
        1
    } else if n < 0x800 {
        2
    } else if n < 0x10000 {
        3
    } else {
        4
    }
}

fn byte_len(s: &Vec<char>) -> (r: u128)
    ensures
        r == bytes(s@),
        r <= 4 * s@.len(),
{
    let mut n: u128 = 0;
    let mut i: usize = 0;
    assert(s@.take(0) =~= Seq::empty());
    while i < s.len()
        invariant
            i <= s@.len(),
            n == bytes(s@.take(i as int)),
            n <= 4 * i,
        decreases s@.len() - i,
    {
        assert(s@.take(i + 1).drop_last() =~= s@.take(i as int));
        n = n + width(s[i]);
        i += 1;
    }
    assert(s@.take(s@.len() as int) =~= s@);
    n
}

fn find_cut(s: &Vec<char>, drop: u128) -> (r: usize)
    ensures
        r == cut_index(s@, drop as int, 0),
        r <= s@.len(),
{
    let mut pos: u128 = 0;
    let mut i: usize = 0;
    assert(s@.take(0) =~= Seq::empty());
    while i < s.len()
        invariant
            i <= s@.len(),
            pos == bytes(s@.take(i as int)),
            pos <= 4 * i,
            cut_index(s@, drop as int, 0) == cut_index(s@, drop as int, i as int),
        decreases s@.len() - i,
    {
        if s[i] == '\n' && pos >= drop {
            return i + 1;
        }
        assert(s@.take(i + 1).drop_last() =~= s@.take(i as int));
        pos = pos + width(s[i]);
        i += 1;
    }
    i
}

/// Adds a line to the log, and drops old lines where it grows too long.
pub fn push_log(log: &mut String, stream: &str, line: &str)
    ensures
        final(log)@ == logged(old(log)@, stream@, line@),
{
    log.append("[");
    log.append(stream);
    log.append("] ");
    log.append(line);
    log.append("\n");
    let chars = text::chars_of(log.as_str());
    let n = byte_len(&chars);
    if n > LOG_BUFFER_BYTES as u128 {
        let cut = find_cut(&chars, n - LOG_BUFFER_BYTES as u128);
        *log = text::string_between(&chars, cut, chars.len());
        assert(log@ =~= chars@.skip(cut as int));
    }
}

proof fn lemma_bytes_split(s: Seq<char>, i: int)
    requires
        0 <= i <= s.len(),
    ensures
        bytes(s) == bytes(s.take(i)) + bytes(s.skip(i)),
    decreases s.len() - i,
{
    if i == s.len() {
        assert(s.take(i) =~= s);
        assert(s.skip(i) =~= Seq::empty());
    } else {
        lemma_bytes_split(s.drop_last(), i);
        assert(s.drop_last().take(i) =~= s.take(i));
        assert(s.drop_last().skip(i) =~= s.skip(i).drop_last());
        assert(s.skip(i).last() == s.last());
    }
}

proof fn lemma_cut(s: Seq<char>, drop: int, i: int)
    requires
        0 <= i <= s.len(),
        drop <= bytes(s),
    ensures
        i <= cut_index(s, drop, i) <= s.len(),
        bytes(s.take(cut_index(s, drop, i))) >= drop,
        cut_index(s, drop, i) < s.len() ==> s[cut_index(s, drop, i) - 1] == '\n',
    decreases s.len() - i,
{
    if i < s.len() {
        if s[i] == '\n' && bytes(s.take(i)) >= drop {
            assert(s.take(i + 1).drop_last() =~= s.take(i));
        } else {
            lemma_cut(s, drop, i + 1);
        }
    } else {
        assert(s.take(i) =~= s);
    }
}

/// The log never exceeds its limit, and what it drops are whole lines from
/// its start.
pub proof fn law_log_is_bounded(log: Seq<char>, stream: Seq<char>, line: Seq<char>)
    ensures
        bytes(logged(log, stream, line)) <= LOG_BUFFER_BYTES,
        exists|cut: int|
            #![trigger (log + "["@ + stream + "] "@ + line + "\n"@).skip(cut)]
            ({
                let full = log + "["@ + stream + "] "@ + line + "\n"@;
                &&& 0 <= cut <= full.len()
                &&& logged(log, stream, line) == full.skip(cut)
                &&& 0 < cut < full.len() ==> full[cut - 1] == '\n'
            }),
{
    let full = log + "["@ + stream + "] "@ + line + "\n"@;
    if bytes(full) <= LOG_BUFFER_BYTES {
        assert(full.skip(0) =~= full);
    } else {
        let drop = bytes(full) - LOG_BUFFER_BYTES;
        lemma_cut(full, drop, 0);
        let cut = cut_index(full, drop, 0);
        lemma_bytes_split(full, cut);
        assert(logged(log, stream, line) == full.skip(cut));
    }
}

proof fn lemma_cut_no_later(s: Seq<char>, drop: int, i: int, k: int)
    requires
        0 <= i <= k < s.len(),
        s[k] == '\n',
        bytes(s.take(k)) >= drop,
    ensures
        cut_index(s, drop, i) <= k + 1,
    decreases k - i,
{
    if i < k {
        lemma_cut_no_later(s, drop, i + 1, k);
    }
}

/// A new line is added at the end of the log, behind the name of its stream,
/// and older lines make room for it: what is kept of the log is its end, from
/// the start of a line on, and all of it as long as it fits.
pub proof fn law_the_newest_line_is_kept(log: Seq<char>, stream: Seq<char>, line: Seq<char>)
    requires
        log.len() == 0 || log.last() == '\n',
        bytes("["@ + stream + "] "@ + line + "\n"@) < 32768,
    ensures
        ({
            let entry = "["@ + stream + "] "@ + line + "\n"@;
            let after = logged(log, stream, line);
            &&& entry.len() <= after.len() <= log.len() + entry.len()
            &&& after == (log + entry).skip((log + entry).len() - after.len())
            &&& after.last() == '\n'
            &&& after.len() < log.len() + entry.len() && after.len() > entry.len() ==> log[log.len()
                + entry.len() - after.len() - 1] == '\n'
            &&& bytes(log) + bytes(entry) <= 32768 ==> after == log + entry
        }),
{
    let entry = "["@ + stream + "] "@ + line + "\n"@;
    let s = log + entry;
    reveal_strlit("\n");
    assert(log + "["@ + stream + "] "@ + line + "\n"@ =~= s);
    let n = log.len() as int;
    lemma_bytes_split(s, n);
    assert(s.take(n) =~= log);
    assert(s.skip(n) =~= entry);
    if bytes(s) > 32768 {
        let drop = bytes(s) - 32768;
        if log.len() == 0 {
            assert(bytes(log) == 0);
        } else {
            assert(s[n - 1] == '\n');
            lemma_bytes_split(log, n - 1);
            assert(log.take(n - 1) =~= log.drop_last());
            assert(s.take(n - 1) =~= log.drop_last());
            lemma_cut_no_later(s, drop, 0, n - 1);
            lemma_cut(s, drop, 0);
        }
        let after = logged(log, stream, line);
        let cut = cut_index(s, drop, 0);
        assert(after == s.skip(cut));
        assert(s.last() == '\n');
        assert(after.last() == s[s.len() - 1]);
        lemma_cut_at_line(s, drop, 0);
        assert(0 < cut <= n);
        assert(log[cut - 1] == s[cut - 1]);
    } else {
        assert(s.skip(0) =~= s);
        assert(s.last() == '\n');
    }
}

proof fn lemma_cut_at_line(s: Seq<char>, drop: int, i: int)
    requires
        0 <= i <= s.len(),
    ensures
        ({
            let cut = cut_index(s, drop, i);
            cut == s.len() || (i < cut <= s.len() && s[cut - 1] == '\n')
        }),
    decreases s.len() - i,
{
    if i < s.len() {
        lemma_cut_at_line(s, drop, i + 1);
    }
}

} // verus!
