//! Text primitives: character classes, trimming, line and word splitting,
//! joining, and decimal numbers, all over sequences of characters.
use vstd::prelude::*;

verus! {

/// Appending one character: `String::push` adds `c` at the end of `s` and
/// changes nothing else.
pub assume_specification[ String::push ](s: &mut String, c: char)
    ensures
        final(s)@ == old(s)@.push(c),
;

/// The views of a sequence of values.
pub open spec fn views<T: View>(s: Seq<T>) -> Seq<T::V> {
    s.map_values(|t: T| t@)
}

/// The view of an optional value.
pub open spec fn opt_view<T: View>(o: Option<T>) -> Option<T::V> {
    match o {
        Some(t) => Some(t@),
        None => None,
    }
}

/// Characters with the Unicode `White_Space` property.
pub open spec fn is_white(c: char) -> bool {
    let n = c as u32;
    ||| 0x9 <= n <= 0xd
    ||| n == 0x20
    ||| n == 0x85
    ||| n == 0xa0
    ||| n == 0x1680
    ||| 0x2000 <= n <= 0x200a
    ||| n == 0x2028
    ||| n == 0x2029
    ||| n == 0x202f
    ||| n == 0x205f
    ||| n == 0x3000
}

pub open spec fn is_digit(c: char) -> bool {
    '0' as u32 <= c as u32 <= '9' as u32
}

/// A set of characters that text is trimmed or cut by.
#[derive(Clone, Copy, Debug)]
pub enum CharClass {
    /// White space.
    White,
    /// Anything but white space.
    NonWhite,
    /// Exactly this character.
    Is(char),
    /// Anything but this character.
    IsNot(char),
    /// A space or the `>` marker.
    SpaceOrMarker,
    /// An ASCII digit.
    Digit,
}

impl CharClass {
    pub open spec fn has(self, c: char) -> bool {
        match self {
            CharClass::White => is_white(c),
            CharClass::NonWhite => !is_white(c),
            CharClass::Is(x) => c == x,
            CharClass::IsNot(x) => c != x,
            CharClass::SpaceOrMarker => c == ' ' || c == '>',
            CharClass::Digit => is_digit(c),
        }
    }

    /// Whether `c` belongs to the class.
    pub fn contains(self, c: char) -> (r: bool)
        ensures
            r == self.has(c),
    {
        match self {
            CharClass::White => white(c),
            CharClass::NonWhite => !white(c),
            CharClass::Is(x) => c == x,
            CharClass::IsNot(x) => c != x,
            CharClass::SpaceOrMarker => c == ' ' || c == '>',
            CharClass::Digit => digit(c),
        }
    }
}

/// Whether `c` is white space.
pub fn white(c: char) -> (r: bool)
    ensures
        r == is_white(c),
{
    let n: u32 = c as u32;
    (0x9 <= n && n <= 0xd) || n == 0x20 || n == 0x85 || n == 0xa0 || n == 0x1680 || (0x2000 <= n
        && n <= 0x200a) || n == 0x2028 || n == 0x2029 || n == 0x202f || n == 0x205f || n == 0x3000
}

/// Whether `c` is an ASCII digit.
pub fn digit(c: char) -> (r: bool)
    ensures
        r == is_digit(c),
{
    '0' as u32 <= c as u32 && c as u32 <= '9' as u32
}

/// The characters of a string.
pub fn chars_of(s: &str) -> (r: Vec<char>)
    ensures
        r@ == s@,
{
    let mut out: Vec<char> = Vec::new();
    for c in it: s.chars()
        invariant
            it.seq() == s@,
            out@ == s@.take(it.index() as int),
    {
        assert(s@.take(it.index() + 1) =~= s@.take(it.index() as int).push(c));
        out.push(c);
    }
    assert(s@.take(s@.len() as int) =~= s@);
    out
}

/// The string made of the characters `from..to`.
pub fn string_between(chars: &Vec<char>, from: usize, to: usize) -> (r: String)
    requires
        from <= to <= chars@.len(),
    ensures
        r@ == chars@.subrange(from as int, to as int),
{
    let mut out = String::new();
    let mut i: usize = from;
    while i < to
        invariant
            from <= i <= to <= chars@.len(),
            out@ == chars@.subrange(from as int, i as int),
        decreases to - i,
    {
        out.push(chars[i]);
        assert(chars@.subrange(from as int, i + 1) =~= chars@.subrange(from as int, i as int).push(
            chars@[i as int],
        ));
        i += 1;
    }
    out
}

/// The string made of all of `chars`.
pub fn string_of(chars: &Vec<char>) -> (r: String)
    ensures
        r@ == chars@,
{
    let r = string_between(chars, 0, chars.len());
    assert(chars@.subrange(0, chars@.len() as int) =~= chars@);
    r
}

/// The characters `from..to`.
pub fn cut(chars: &Vec<char>, from: usize, to: usize) -> (r: Vec<char>)
    requires
        from <= to <= chars@.len(),
    ensures
        r@ == chars@.subrange(from as int, to as int),
{
    let mut out: Vec<char> = Vec::new();
    let mut i: usize = from;
    while i < to
        invariant
            from <= i <= to <= chars@.len(),
            out@ == chars@.subrange(from as int, i as int),
        decreases to - i,
    {
        out.push(chars[i]);
        assert(chars@.subrange(from as int, i + 1) =~= chars@.subrange(from as int, i as int).push(
            chars@[i as int],
        ));
        i += 1;
    }
    out
}

/// Whether two strings hold the same characters.
pub fn same(a: &str, b: &str) -> (r: bool)
    ensures
        r == (a@ == b@),
{
    a.to_owned() == b.to_owned()
}

// ---------- prefixes ----------

pub open spec fn has_prefix(s: Seq<char>, prefix: Seq<char>) -> bool {
    prefix.len() <= s.len() && s.take(prefix.len() as int) == prefix
}

/// Whether `s` starts with `prefix`.
pub fn starts_with(s: &str, prefix: &str) -> (r: bool)
    ensures
        r == has_prefix(s@, prefix@),
{
    let text = chars_of(s);
    chars_start_with(&text, prefix)
}

pub fn chars_start_with(s: &Vec<char>, prefix: &str) -> (r: bool)
    ensures
        r == has_prefix(s@, prefix@),
{
    let p = chars_of(prefix);
    if p.len() > s.len() {
        return false;
    }
    let mut i: usize = 0;
    while i < p.len()
        invariant
            i <= p@.len() <= s@.len(),
            p@ == prefix@,
            forall|j: int| 0 <= j < i ==> s@[j] == p@[j],
        decreases p@.len() - i,
    {
        if s[i] != p[i] {
            assert(s@.take(p@.len() as int)[i as int] != p@[i as int]);
            return false;
        }
        i += 1;
    }
    assert(s@.take(p@.len() as int) =~= p@);
    true
}

/// What is left of `s` after `prefix`, when it starts with it.
pub open spec fn after_prefix(s: Seq<char>, prefix: Seq<char>) -> Option<Seq<char>> {
    if has_prefix(s, prefix) {
        Some(s.skip(prefix.len() as int))
    } else {
        None
    }
}

pub fn strip_prefix(s: &Vec<char>, prefix: &str) -> (r: Option<Vec<char>>)
    ensures
        opt_view(r) == after_prefix(s@, prefix@),
{
    if chars_start_with(s, prefix) {
        let p = chars_of(prefix);
        let rest = cut(s, p.len(), s.len());
        assert(rest@ =~= s@.skip(prefix@.len() as int));
        Some(rest)
    } else {
        None
    }
}

// ---------- runs of a class, trimming ----------

/// How many characters at the start of `s` belong to `class`.
pub open spec fn leading(s: Seq<char>, class: CharClass) -> nat
    decreases s.len(),
{
    if s.len() == 0 || !class.has(s[0]) {
        0
    } else {
        1 + leading(s.skip(1), class)
    }
}

/// How many characters at the end of `s` belong to `class`.
pub open spec fn trailing(s: Seq<char>, class: CharClass) -> nat
    decreases s.len(),
{
    if s.len() == 0 || !class.has(s.last()) {
        0
    } else {
        1 + trailing(s.drop_last(), class)
    }
}

pub proof fn lemma_leading(s: Seq<char>, class: CharClass, n: int)
    requires
        0 <= n <= s.len(),
        forall|j: int| 0 <= j < n ==> class.has(s[j]),
        n < s.len() ==> !class.has(s[n]),
    ensures
        leading(s, class) == n,
    decreases s.len(),
{
    if n > 0 {
        let t = s.skip(1);
        assert forall|j: int| 0 <= j < n - 1 implies class.has(t[j]) by {
            assert(t[j] == s[j + 1]);
        }
        lemma_leading(t, class, n - 1);
    }
}

/// `leading` never runs past the end, covers class members only, and stops
/// at the first character outside the class.
pub proof fn lemma_leading_bounds(s: Seq<char>, class: CharClass)
    ensures
        leading(s, class) <= s.len(),
        forall|j: int| 0 <= j < leading(s, class) ==> class.has(s[j]),
        leading(s, class) < s.len() ==> !class.has(s[leading(s, class) as int]),
    decreases s.len(),
{
    if s.len() > 0 && class.has(s[0]) {
        let t = s.skip(1);
        lemma_leading_bounds(t, class);
        assert forall|j: int| 0 <= j < leading(s, class) implies class.has(s[j]) by {
            if j > 0 {
                assert(s[j] == t[j - 1]);
            }
        }
        if leading(s, class) < s.len() {
            assert(s[leading(s, class) as int] == t[leading(t, class) as int]);
        }
    }
}

pub proof fn lemma_trailing(s: Seq<char>, class: CharClass, n: int)
    requires
        0 <= n <= s.len(),
        forall|j: int| s.len() - n <= j < s.len() ==> class.has(s[j]),
        n < s.len() ==> !class.has(s[s.len() - n - 1]),
    ensures
        trailing(s, class) == n,
    decreases s.len(),
{
    if n > 0 {
        let t = s.drop_last();
        lemma_trailing(t, class, n - 1);
    }
}

pub proof fn lemma_trailing_bounds(s: Seq<char>, class: CharClass)
    ensures
        trailing(s, class) <= s.len(),
        forall|j: int| s.len() - trailing(s, class) <= j < s.len() ==> class.has(s[j]),
        trailing(s, class) < s.len() ==> !class.has(s[s.len() - trailing(s, class) - 1]),
    decreases s.len(),
{
    if s.len() > 0 && class.has(s.last()) {
        let t = s.drop_last();
        lemma_trailing_bounds(t, class);
        assert forall|j: int| s.len() - trailing(s, class) <= j < s.len() implies class.has(s[j]) by {
            if j < s.len() - 1 {
                assert(s[j] == t[j]);
            }
        }
    }
}

/// The length of the run of `class` that starts at `from`.
pub fn run_length(s: &Vec<char>, from: usize, class: CharClass) -> (r: usize)
    requires
        from <= s@.len(),
    ensures
        r == leading(s@.skip(from as int), class),
        from + r <= s@.len() <= usize::MAX,
{
    let mut i: usize = from;
    while i < s.len() && class.contains(s[i])
        invariant
            from <= i <= s@.len(),
            forall|j: int| from <= j < i ==> class.has(s@[j]),
        decreases s@.len() - i,
    {
        i += 1;
    }
    proof {
        let t = s@.skip(from as int);
        assert forall|j: int| 0 <= j < i - from implies class.has(t[j]) by {
            assert(t[j] == s@[j + from]);
        }
        lemma_leading(t, class, i - from);
    }
    i - from
}

pub open spec fn trimmed_start(s: Seq<char>, class: CharClass) -> Seq<char> {
    s.skip(leading(s, class) as int)
}

pub open spec fn trimmed_end(s: Seq<char>, class: CharClass) -> Seq<char> {
    s.take(s.len() - trailing(s, class))
}

/// The members of `class` at the end of `s`.
pub open spec fn tail_of(s: Seq<char>, class: CharClass) -> Seq<char> {
    s.skip(s.len() - trailing(s, class))
}

/// `s` without the members of `class` at either end.
pub open spec fn trimmed(s: Seq<char>, class: CharClass) -> Seq<char> {
    trimmed_end(trimmed_start(s, class), class)
}

pub fn trim_start(s: &Vec<char>, class: CharClass) -> (r: Vec<char>)
    ensures
        r@ == trimmed_start(s@, class),
{
    let n = run_length(s, 0, class);
    assert(s@.skip(0) =~= s@);
    let r = cut(s, n, s.len());
    assert(r@ =~= s@.skip(n as int));
    r
}

/// Where the members of `class` at the end of `s` begin.
fn tail_start(s: &Vec<char>, class: CharClass) -> (r: usize)
    ensures
        r == s@.len() - trailing(s@, class),
        r <= s@.len(),
{
    let mut end: usize = s.len();
    while end > 0 && class.contains(s[end - 1])
        invariant
            end <= s@.len(),
            forall|j: int| end <= j < s@.len() ==> class.has(s@[j]),
        decreases end,
    {
        end -= 1;
    }
    proof {
        lemma_trailing(s@, class, s@.len() - end);
    }
    end
}

pub fn trim_end(s: &Vec<char>, class: CharClass) -> (r: Vec<char>)
    ensures
        r@ == trimmed_end(s@, class),
{
    let end = tail_start(s, class);
    let r = cut(s, 0, end);
    assert(r@ =~= s@.take(end as int));
    r
}

/// The members of `class` at the end of `s`.
pub fn keep_tail(s: &Vec<char>, class: CharClass) -> (r: Vec<char>)
    ensures
        r@ == tail_of(s@, class),
{
    let start = tail_start(s, class);
    let r = cut(s, start, s.len());
    assert(r@ =~= s@.skip(start as int));
    r
}

pub fn trim(s: &Vec<char>, class: CharClass) -> (r: Vec<char>)
    ensures
        r@ == trimmed(s@, class),
{
    let t = trim_start(s, class);
    trim_end(&t, class)
}

/// Whether `s` holds nothing but white space.
pub open spec fn is_blank(s: Seq<char>) -> bool {
    trimmed(s, CharClass::White).len() == 0
}

pub fn blank(s: &str) -> (r: bool)
    ensures
        r == is_blank(s@),
{
    let c = chars_of(s);
    let t = trim(&c, CharClass::White);
    t.len() == 0
}

// ---------- lines and words ----------

/// A line without the carriage return that stood before its newline.
pub open spec fn without_cr(line: Seq<char>) -> Seq<char> {
    if line.len() > 0 && line.last() == '\r' {
        line.drop_last()
    } else {
        line
    }
}

/// The lines of a text. A newline ends a line and is not part of it, nor is
/// a carriage return right before it; what follows the last newline is a
/// line of its own unless it is empty.
pub open spec fn lines(s: Seq<char>) -> Seq<Seq<char>>
    decreases s.len(),
{
    let n = leading(s, CharClass::IsNot('\n'));
    if s.len() == 0 {
        Seq::empty()
    } else if n >= s.len() {
        seq![s]
    } else {
        seq![without_cr(s.take(n as int))] + lines(s.skip(n as int + 1))
    }
}

pub fn split_lines(s: &Vec<char>) -> (r: Vec<Vec<char>>)
    ensures
        views(r@) == lines(s@),
{
    let mut out: Vec<Vec<char>> = Vec::new();
    let mut pos: usize = 0;
    assert(s@.skip(0) =~= s@);
    assert(views(out@) + lines(s@) =~= lines(s@));
    while pos < s.len()
        invariant
            pos <= s@.len(),
            views(out@) + lines(s@.skip(pos as int)) == lines(s@),
        decreases s@.len() - pos,
    {
        let ghost before = out@;
        let ghost rest = s@.skip(pos as int);
        let n = run_length(s, pos, CharClass::IsNot('\n'));
        if pos + n == s.len() {
            let line = cut(s, pos, s.len());
            assert(line@ =~= rest);
            out.push(line);
            pos = s.len();
            assert(views(out@) =~= views(before).push(rest));
            assert(s@.skip(pos as int).len() == 0);
            assert(views(before) + seq![rest] =~= views(out@) + lines(s@.skip(pos as int)));
        } else {
            let end: usize = if n > 0 && s[pos + n - 1] == '\r' {
                pos + n - 1
            } else {
                pos + n
            };
            let line = cut(s, pos, end);
            assert(line@ =~= without_cr(rest.take(n as int)));
            out.push(line);
            assert(views(out@) =~= views(before).push(line@));
            assert(rest.skip(n + 1) =~= s@.skip(pos + n + 1));
            pos = pos + n + 1;
            assert(views(before) + (seq![line@] + lines(s@.skip(pos as int))) =~= views(out@)
                + lines(s@.skip(pos as int)));
        }
    }
    assert(s@.skip(pos as int).len() == 0);
    assert(views(out@) + lines(s@.skip(pos as int)) =~= views(out@));
    out
}

/// The maximal runs of non-white characters, in order.
pub open spec fn words(s: Seq<char>) -> Seq<Seq<char>>
    decreases s.len(),
    via words_decreases
{
    let t = trimmed_start(s, CharClass::White);
    if t.len() == 0 {
        Seq::empty()
    } else {
        let n = leading(t, CharClass::NonWhite);
        seq![t.take(n as int)] + words(t.skip(n as int))
    }
}

#[via_fn]
proof fn words_decreases(s: Seq<char>) {
    lemma_leading_bounds(s, CharClass::White);
    let t = trimmed_start(s, CharClass::White);
    if t.len() > 0 {
        lemma_leading_bounds(t, CharClass::NonWhite);
        assert(!CharClass::White.has(t[0]));
        assert(leading(t, CharClass::NonWhite) > 0);
    }
}

pub fn split_words(s: &Vec<char>) -> (r: Vec<Vec<char>>)
    ensures
        views(r@) == words(s@),
{
    let mut out: Vec<Vec<char>> = Vec::new();
    let mut pos: usize = run_length(s, 0, CharClass::White);
    assert(s@.skip(0) =~= s@);
    proof {
        lemma_leading_bounds(s@, CharClass::White);
        lemma_words_trimmed(s@);
    }
    assert(views(out@) + words(s@.skip(pos as int)) =~= words(s@));
    while pos < s.len()
        invariant
            pos <= s@.len(),
            pos < s@.len() ==> !is_white(s@[pos as int]),
            views(out@) + words(s@.skip(pos as int)) == words(s@),
        decreases s@.len() - pos,
    {
        let ghost before = out@;
        let ghost rest = s@.skip(pos as int);
        let n = run_length(s, pos, CharClass::NonWhite);
        proof {
            lemma_leading_bounds(rest, CharClass::NonWhite);
            assert(rest[0] == s@[pos as int]);
            lemma_leading(rest, CharClass::White, 0);
            assert(trimmed_start(rest, CharClass::White) =~= rest);
        }
        let word = cut(s, pos, pos + n);
        assert(word@ =~= rest.take(n as int));
        out.push(word);
        assert(views(out@) =~= views(before).push(word@));
        let ghost tail = rest.skip(n as int);
        assert(tail =~= s@.skip(pos + n));
        let gap = run_length(s, pos + n, CharClass::White);
        proof {
            lemma_words_trimmed(tail);
            lemma_leading_bounds(tail, CharClass::White);
            assert(tail.skip(gap as int) =~= s@.skip(pos + n + gap));
            assert(views(before) + (seq![word@] + words(tail)) =~= views(out@) + words(tail));
            if pos + n + gap < s@.len() {
                assert(tail[gap as int] == s@[pos + n + gap]);
            }
        }
        pos = pos + n + gap;
    }
    assert(s@.skip(pos as int).len() == 0);
    assert(words(s@.skip(pos as int)) =~= Seq::empty()) by {
        assert(trimmed_start(s@.skip(pos as int), CharClass::White).len() == 0);
    }
    assert(views(out@) + words(s@.skip(pos as int)) =~= views(out@));
    out
}

/// White space in front changes no word.
pub proof fn lemma_words_trimmed(s: Seq<char>)
    ensures
        words(trimmed_start(s, CharClass::White)) == words(s),
{
    let t = trimmed_start(s, CharClass::White);
    lemma_leading_bounds(s, CharClass::White);
    if t.len() > 0 {
        assert(t[0] == s[leading(s, CharClass::White) as int]);
    }
    lemma_leading(t, CharClass::White, 0);
    assert(trimmed_start(t, CharClass::White) =~= t);
}

// ---------- joining ----------

/// The parts in order with `sep` between neighbours.
pub open spec fn joined(parts: Seq<Seq<char>>, sep: Seq<char>) -> Seq<char>
    decreases parts.len(),
{
    if parts.len() == 0 {
        Seq::empty()
    } else if parts.len() == 1 {
        parts[0]
    } else {
        joined(parts.drop_last(), sep) + sep + parts.last()
    }
}

pub fn join(parts: &Vec<String>, sep: &str) -> (r: String)
    ensures
        r@ == joined(views(parts@), sep@),
{
    let mut out = String::new();
    let mut i: usize = 0;
    assert(views(parts@).take(0) =~= Seq::<Seq<char>>::empty());
    while i < parts.len()
        invariant
            i <= parts@.len(),
            out@ == joined(views(parts@).take(i as int), sep@),
        decreases parts@.len() - i,
    {
        let ghost so_far = views(parts@).take(i as int);
        let ghost next = views(parts@).take(i + 1);
        assert(next.drop_last() =~= so_far);
        assert(next.last() == parts@[i as int]@);
        if i > 0 {
            out.append(sep);
        }
        out.append(parts[i].as_str());
        assert(out@ =~= joined(next, sep@));
        i += 1;
    }
    assert(views(parts@).take(parts@.len() as int) =~= views(parts@));
    out
}

// ---------- decimal numbers ----------

pub open spec fn digit_char(n: nat) -> char {
    (('0' as u32) + n) as char
}

/// The decimal digits of `n`, without leading zeros.
pub open spec fn decimal(n: nat) -> Seq<char>
    decreases n,
{
    if n < 10 {
        seq![digit_char(n)]
    } else {
        decimal(n / 10).push(digit_char(n % 10))
    }
}

pub fn digit_of(n: u64) -> (c: char)
    requires
        n < 10,
    ensures
        c == digit_char(n as nat),
{
    match n {
        0 => '0',
        1 => '1',
        2 => '2',
        3 => '3',
        4 => '4',
        5 => '5',
        6 => '6',
        7 => '7',
        8 => '8',
        _ => '9',
    }
}

/// The decimal form of `n`.
pub fn decimal_string(n: u64) -> (r: String)
    ensures
        r@ == decimal(n as nat),
    decreases n,
{
    let mut r = if n < 10 {
        String::new()
    } else {
        decimal_string(n / 10)
    };
    r.push(digit_of(n % 10));
    assert(r@ =~= decimal(n as nat));
    r
}

pub open spec fn all_digits(s: Seq<char>) -> bool {
    forall|i: int| 0 <= i < s.len() ==> is_digit(#[trigger] s[i])
}

/// The number that a run of digits writes.
pub open spec fn digits_value(s: Seq<char>) -> nat
    decreases s.len(),
{
    if s.len() == 0 {
        0
    } else {
        digits_value(s.drop_last()) * 10 + ((s.last() as u32 - '0' as u32) as nat)
    }
}

/// An unsigned number as text: an optional `+`, then one or more digits,
/// worth at most `max`.
pub open spec fn parsed_unsigned(s: Seq<char>, max: nat) -> Option<nat> {
    let d = if s.len() > 1 && s[0] == '+' {
        s.skip(1)
    } else {
        s
    };
    if d.len() > 0 && all_digits(d) && digits_value(d) <= max {
        Some(digits_value(d))
    } else {
        None
    }
}

proof fn lemma_digits_value_grows(s: Seq<char>, n: int)
    requires
        0 <= n <= s.len(),
        all_digits(s),
    ensures
        digits_value(s.take(n)) <= digits_value(s),
    decreases s.len() - n,
{
    if n == s.len() {
        assert(s.take(n) =~= s);
    } else {
        lemma_digits_value_grows(s, n + 1);
        assert(s.take(n + 1).drop_last() =~= s.take(n));
    }
}

pub fn parse_unsigned(s: &Vec<char>, max: u64) -> (r: Option<u64>)
    ensures
        r matches Some(v) ==> parsed_unsigned(s@, max as nat) == Some(v as nat),
        r is None ==> parsed_unsigned(s@, max as nat) is None,
{
    let start: usize = if s.len() > 1 && s[0] == '+' {
        1
    } else {
        0
    };
    let ghost d = if s@.len() > 1 && s@[0] == '+' {
        s@.skip(1)
    } else {
        s@
    };
    assert(d =~= s@.skip(start as int));
    if start == s.len() {
        return None;
    }
    let mut value: u128 = 0;
    let mut i: usize = start;
    assert(d.take(0) =~= Seq::<char>::empty());
    while i < s.len()
        invariant
            start <= i <= s@.len(),
            d == s@.skip(start as int),
            d == (if s@.len() > 1 && s@[0] == '+' {
                s@.skip(1)
            } else {
                s@
            }),
            forall|j: int| start <= j < i ==> is_digit(#[trigger] s@[j]),
            value == digits_value(d.take(i - start)),
            value <= max,
        decreases s@.len() - i,
    {
        let c = s[i];
        if !digit(c) {
            assert(d[i - start] == c);
            return None;
        }
        assert(d.take(i + 1 - start).drop_last() =~= d.take(i - start));
        assert(d.take(i + 1 - start).last() == c);
        value = value * 10 + (c as u32 - '0' as u32) as u128;
        assert(value == digits_value(d.take(i + 1 - start)));
        if value > max as u128 {
            proof {
                if all_digits(d) {
                    lemma_digits_value_grows(d, i + 1 - start);
                }
            }
            return None;
        }
        i += 1;
    }
    assert(d.take(s@.len() - start) =~= d);
    assert(all_digits(d));
    Some(value as u64)
}

// ---------- concatenation ----------

pub fn cat2(a: &str, b: &str) -> (r: String)
    ensures
        r@ == a@ + b@,
{
    let mut r = a.to_owned();
    r.append(b);
    r
}

pub fn cat3(a: &str, b: &str, c: &str) -> (r: String)
    ensures
        r@ == a@ + b@ + c@,
{
    let mut r = cat2(a, b);
    r.append(c);
    r
}

pub fn cat4(a: &str, b: &str, c: &str, d: &str) -> (r: String)
    ensures
        r@ == a@ + b@ + c@ + d@,
{
    let mut r = cat3(a, b, c);
    r.append(d);
    r
}

pub fn cat5(a: &str, b: &str, c: &str, d: &str, e: &str) -> (r: String)
    ensures
        r@ == a@ + b@ + c@ + d@ + e@,
{
    let mut r = cat4(a, b, c, d);
    r.append(e);
    r
}

// ---------- optional text ----------

pub fn same_opt(a: &Option<String>, b: &str) -> (r: bool)
    ensures
        r == (opt_view(*a) == Some(b@)),
{
    match a {
        Some(s) => same(s.as_str(), b),
        None => false,
    }
}

pub fn clone_opt(a: &Option<String>) -> (r: Option<String>)
    ensures
        r == *a,
{
    match a {
        Some(s) => Some(s.clone()),
        None => None,
    }
}

// ---------- lower case ----------

pub open spec fn is_ascii_text(s: Seq<char>) -> bool {
    forall|i: int| 0 <= i < s.len() ==> (#[trigger] s[i]) as u32 <= 0x7f
}

/// `A` to `Z` become `a` to `z`; every other character stays.
pub open spec fn ascii_lower(c: char) -> char {
    if 'A' as u32 <= c as u32 <= 'Z' as u32 {
        ((c as u32) + 32) as char
    } else {
        c
    }
}

/// What `str::to_lowercase` makes of a text: the Unicode lower case mapping.
pub uninterp spec fn lowercase(s: Seq<char>) -> Seq<char>;

/// `str::to_lowercase`. Its result depends on the text alone, so it has a
/// name; on ASCII text it is the letter by letter mapping.
#[verifier::external_body]
pub(crate) fn to_lowercase(s: &str) -> (r: String)
    ensures
        r@ == lowercase(s@),
        is_ascii_text(s@) ==> r@ == s@.map_values(|c: char| ascii_lower(c)),
{
    s.to_lowercase()
}

// ---------- upper case ----------

/// `a` to `z` become `A` to `Z`; every other character stays.
pub open spec fn ascii_upper(c: char) -> char {
    if 'a' as u32 <= c as u32 <= 'z' as u32 {
        ((c as u32) - 32) as char
    } else {
        c
    }
}

/// What `str::to_uppercase` makes of a text: the Unicode upper case mapping.
pub uninterp spec fn uppercase(s: Seq<char>) -> Seq<char>;

/// `str::to_uppercase`. Its result depends on the text alone, so it has a
/// name; on ASCII text it is the letter by letter mapping.
#[verifier::external_body]
pub(crate) fn to_uppercase(s: &str) -> (r: String)
    ensures
        r@ == uppercase(s@),
        is_ascii_text(s@) ==> r@ == s@.map_values(|c: char| ascii_upper(c)),
{
    s.to_uppercase()
}

// ---------- order ----------

/// Order by characters, first difference first.
pub open spec fn text_le(a: Seq<char>, b: Seq<char>) -> bool
    decreases a.len(),
{
    if a.len() == 0 {
        true
    } else if b.len() == 0 {
        false
    } else if a[0] != b[0] {
        (a[0] as u32) < (b[0] as u32)
    } else {
        text_le(a.skip(1), b.skip(1))
    }
}

/// Characters with the same code point are the same.
proof fn lemma_code_points(x: char, y: char)
    ensures
        x as u32 == y as u32 ==> x == y,
{
}

/// Any two texts are ordered.
pub proof fn lemma_text_total(a: Seq<char>, b: Seq<char>)
    ensures
        text_le(a, b) || text_le(b, a),
    decreases a.len(),
{
    if a.len() == 0 {
        assert(text_le(a, b));
    } else if b.len() == 0 {
        assert(text_le(b, a));
    } else if a[0] == b[0] {
        lemma_text_total(a.skip(1), b.skip(1));
    } else {
        lemma_code_points(a[0], b[0]);
        assert(text_le(a, b) == ((a[0] as u32) < (b[0] as u32)));
        assert(text_le(b, a) == ((b[0] as u32) < (a[0] as u32)));
    }
}

pub proof fn lemma_text_transitive(a: Seq<char>, b: Seq<char>, c: Seq<char>)
    requires
        text_le(a, b),
        text_le(b, c),
    ensures
        text_le(a, c),
    decreases a.len(),
{
    if a.len() > 0 && b.len() > 0 && c.len() > 0 && a[0] == b[0] && b[0] == c[0] {
        lemma_text_transitive(a.skip(1), b.skip(1), c.skip(1));
    }
}

/// Texts that are ordered both ways are the same.
pub proof fn lemma_text_antisymmetric(a: Seq<char>, b: Seq<char>)
    requires
        text_le(a, b),
        text_le(b, a),
    ensures
        a == b,
    decreases a.len(),
{
    if a.len() > 0 && b.len() > 0 {
        lemma_text_antisymmetric(a.skip(1), b.skip(1));
        assert(a =~= seq![a[0]] + a.skip(1));
        assert(b =~= seq![b[0]] + b.skip(1));
    } else {
        assert(a =~= b);
    }
}

/// Whether `a` may stand before `b` in the order by characters.
pub fn text_before(a: &str, b: &str) -> (r: bool)
    ensures
        r == text_le(a@, b@),
{
    let x = chars_of(a);
    let y = chars_of(b);
    let mut i: usize = 0;
    assert(x@.skip(0) =~= x@);
    assert(y@.skip(0) =~= y@);
    while i < x.len()
        invariant
            i <= x@.len(),
            i <= y@.len(),
            x@ == a@,
            y@ == b@,
            text_le(a@, b@) == text_le(x@.skip(i as int), y@.skip(i as int)),
        decreases x@.len() - i,
    {
        if i == y.len() {
            return false;
        }
        assert(x@.skip(i as int)[0] == x@[i as int]);
        assert(y@.skip(i as int)[0] == y@[i as int]);
        if x[i] != y[i] {
            return (x[i] as u32) < (y[i] as u32);
        }
        assert(x@.skip(i as int).skip(1) =~= x@.skip(i + 1));
        assert(y@.skip(i as int).skip(1) =~= y@.skip(i + 1));
        i += 1;
    }
    assert(x@.skip(i as int).len() == 0);
    true
}

// ---------- stable sorting ----------

/// `x` put behind the last element that may stand before it.
pub open spec fn inserted<A>(t: Seq<A>, x: A, le: spec_fn(A, A) -> bool) -> Seq<A>
    decreases t.len(),
{
    if t.len() == 0 || le(t.last(), x) {
        t.push(x)
    } else {
        inserted(t.drop_last(), x, le).push(t.last())
    }
}

/// The elements of `s` in the order `le`; equal elements keep their order.
pub open spec fn sorted_by<A>(s: Seq<A>, le: spec_fn(A, A) -> bool) -> Seq<A>
    decreases s.len(),
{
    if s.len() == 0 {
        s
    } else {
        inserted(sorted_by(s.drop_last(), le), s.last(), le)
    }
}

pub open spec fn is_sorted<A>(s: Seq<A>, le: spec_fn(A, A) -> bool) -> bool {
    forall|i: int, j: int| 0 <= i < j < s.len() ==> le(#[trigger] s[i], #[trigger] s[j])
}

/// `le` compares any two elements and is transitive.
pub open spec fn is_total_preorder<A>(le: spec_fn(A, A) -> bool) -> bool {
    &&& forall|a: A, b: A| #[trigger] le(a, b) || le(b, a)
    &&& forall|a: A, b: A, c: A| #[trigger] le(a, b) && #[trigger] le(b, c) ==> le(a, c)
}

/// `inserted` at the position where everything behind must follow `x`.
pub proof fn lemma_inserted_at<A>(t: Seq<A>, x: A, le: spec_fn(A, A) -> bool, pos: int)
    requires
        0 <= pos <= t.len(),
        forall|j: int| pos <= j < t.len() ==> !le(#[trigger] t[j], x),
        pos > 0 ==> le(t[pos - 1], x),
    ensures
        inserted(t, x, le) == t.insert(pos, x),
    decreases t.len(),
{
    if pos == t.len() {
        assert(t.insert(pos, x) =~= t.push(x));
    } else {
        lemma_inserted_at(t.drop_last(), x, le, pos);
        assert(t.insert(pos, x) =~= t.drop_last().insert(pos, x).push(t.last()));
    }
}

proof fn lemma_inserted<A>(t: Seq<A>, x: A, le: spec_fn(A, A) -> bool)
    requires
        is_total_preorder(le),
        is_sorted(t, le),
    ensures
        is_sorted(inserted(t, x, le), le),
        inserted(t, x, le).to_multiset() =~= t.to_multiset().insert(x),
        inserted(t, x, le).len() == t.len() + 1,
    decreases t.len(),
{
    broadcast use vstd::seq_lib::group_to_multiset_ensures;

    if t.len() == 0 || le(t.last(), x) {
        assert forall|i: int, j: int| 0 <= i < j < t.push(x).len() implies le(
            #[trigger] t.push(x)[i],
            #[trigger] t.push(x)[j],
        ) by {
            if j == t.len() && i < t.len() - 1 {
                assert(le(t[i], t.last()));
            }
        }
    } else {
        let front = t.drop_last();
        lemma_inserted(front, x, le);
        let r = inserted(front, x, le);
        assert(t =~= front.push(t.last()));
        assert forall|i: int, j: int| 0 <= i < j < r.push(t.last()).len() implies le(
            #[trigger] r.push(t.last())[i],
            #[trigger] r.push(t.last())[j],
        ) by {
            if j == r.len() {
                assert(r.to_multiset().count(r[i]) > 0) by {
                    assert(r.contains(r[i]));
                }
                if r[i] != x {
                    assert(front.to_multiset().count(r[i]) > 0);
                    assert(front.contains(r[i]));
                    let k = choose|k: int| 0 <= k < front.len() && front[k] == r[i];
                    assert(le(t[k], t[t.len() - 1]));
                } else {
                    assert(le(x, t.last()));
                }
            }
        }
    }
}

/// Sorting orders the elements and neither adds nor drops any.
pub proof fn lemma_sorted_by<A>(s: Seq<A>, le: spec_fn(A, A) -> bool)
    requires
        is_total_preorder(le),
    ensures
        is_sorted(sorted_by(s, le), le),
        sorted_by(s, le).to_multiset() =~= s.to_multiset(),
        sorted_by(s, le).len() == s.len(),
    decreases s.len(),
{
    broadcast use vstd::seq_lib::group_to_multiset_ensures;

    if s.len() > 0 {
        lemma_sorted_by(s.drop_last(), le);
        lemma_inserted(sorted_by(s.drop_last(), le), s.last(), le);
        assert(s =~= s.drop_last().push(s.last()));
    }
}

/// Sorting commutes with a map that keeps the order relation.
pub proof fn lemma_sorted_by_map<A, B>(
    s: Seq<A>,
    f: spec_fn(A) -> B,
    le_a: spec_fn(A, A) -> bool,
    le_b: spec_fn(B, B) -> bool,
)
    requires
        forall|x: A, y: A| #[trigger] le_a(x, y) == le_b(f(x), f(y)),
    ensures
        sorted_by(s, le_a).map_values(f) =~= sorted_by(s.map_values(f), le_b),
    decreases s.len(),
{
    if s.len() > 0 {
        lemma_sorted_by_map(s.drop_last(), f, le_a, le_b);
        lemma_inserted_map(sorted_by(s.drop_last(), le_a), s.last(), f, le_a, le_b);
        assert(s.map_values(f).drop_last() =~= s.drop_last().map_values(f));
        assert(s.map_values(f).last() == f(s.last()));
    }
}

proof fn lemma_inserted_map<A, B>(
    t: Seq<A>,
    x: A,
    f: spec_fn(A) -> B,
    le_a: spec_fn(A, A) -> bool,
    le_b: spec_fn(B, B) -> bool,
)
    requires
        forall|x: A, y: A| #[trigger] le_a(x, y) == le_b(f(x), f(y)),
    ensures
        inserted(t, x, le_a).map_values(f) =~= inserted(t.map_values(f), f(x), le_b),
    decreases t.len(),
{
    if t.len() > 0 {
        assert(t.map_values(f).last() == f(t.last()));
        assert(le_a(t.last(), x) == le_b(f(t.last()), f(x)));
        if !le_a(t.last(), x) {
            lemma_inserted_map(t.drop_last(), x, f, le_a, le_b);
            assert(t.map_values(f).drop_last() =~= t.drop_last().map_values(f));
        }
    }
}

// ---------- laws ----------

/// `t` is what is left of `s` once the white space at both ends is gone.
pub open spec fn is_stripped(s: Seq<char>, t: Seq<char>) -> bool {
    exists|i: int, j: int|
        #![trigger s.subrange(i, j)]
        {
            &&& 0 <= i <= j <= s.len()
            &&& t == s.subrange(i, j)
            &&& forall|k: int| 0 <= k < i || j <= k < s.len() ==> is_white(#[trigger] s[k])
            &&& i < j ==> !is_white(s[i]) && !is_white(s[j - 1])
        }
}

/// Trimming takes the white space off both ends, all of it and nothing else.
pub proof fn law_trimming_strips(s: Seq<char>)
    ensures
        is_stripped(s, trimmed(s, CharClass::White)),
        is_blank(s) <==> forall|k: int| 0 <= k < s.len() ==> is_white(#[trigger] s[k]),
{
    let i = leading(s, CharClass::White) as int;
    let t = s.skip(i);
    let n = trailing(t, CharClass::White) as int;
    lemma_leading_bounds(s, CharClass::White);
    lemma_trailing_bounds(t, CharClass::White);
    let j = i + t.len() - n;
    let r = trimmed(s, CharClass::White);
    assert(r =~= s.subrange(i, j));
    assert forall|k: int| 0 <= k < i || j <= k < s.len() implies is_white(#[trigger] s[k]) by {
        if k < i {
            assert(CharClass::White.has(s[k]));
        } else {
            assert(t[k - i] == s[k]);
            assert(CharClass::White.has(t[k - i]));
        }
    }
    if i < j {
        assert(!CharClass::White.has(s[i]));
        assert(t[t.len() - n - 1] == s[j - 1]);
        assert(!is_white(s[i]));
    }
    assert(is_stripped(s, r));
}

/// Of the ASCII characters, the space and the five control characters from
/// tab to carriage return are white space; digits are `0` to `9`.
pub proof fn law_ascii_classes(c: char)
    requires
        c as u32 <= 0x7f,
    ensures
        is_white(c) <==> c == ' ' || c == '\t' || c == '\n' || c as u32 == 0xb || c as u32 == 0xc
            || c == '\r',
        is_digit(c) <==> c == '0' || c == '1' || c == '2' || c == '3' || c == '4' || c == '5' || c
            == '6' || c == '7' || c == '8' || c == '9',
{
}

/// A number written in decimal is read back as it was: its text is digits
/// alone, with no zero in front, and stands for that number. Reading accepts
/// it up to the limit and refuses it above, with or without a plus sign.
pub proof fn law_decimals_read_back(n: nat, max: nat)
    ensures
        decimal(n).len() > 0 && all_digits(decimal(n)) && digits_value(decimal(n)) == n,
        n > 0 ==> decimal(n)[0] != '0',
        parsed_unsigned(decimal(n), max) == (if n <= max {
            Some(n)
        } else {
            None
        }),
        parsed_unsigned(seq!['+'] + decimal(n), max) == parsed_unsigned(decimal(n), max),
    decreases n,
{
    if n >= 10 {
        law_decimals_read_back(n / 10, max);
        assert(decimal(n).drop_last() =~= decimal(n / 10));
        assert(decimal(n)[0] == decimal(n / 10)[0]);
        assert(digit_char(n % 10) as u32 - '0' as u32 == n % 10);
        assert forall|i: int| 0 <= i < decimal(n).len() implies is_digit(
            #[trigger] decimal(n)[i],
        ) by {
            if i < decimal(n).len() - 1 {
                assert(decimal(n)[i] == decimal(n / 10)[i]);
            }
        }
    } else {
        assert(digit_char(n) as u32 - '0' as u32 == n);
        assert(decimal(n).drop_last() =~= Seq::empty());
        reveal_with_fuel(digits_value, 2);
    }
    assert(is_digit(decimal(n)[0]));
    assert((seq!['+'] + decimal(n)).skip(1) =~= decimal(n));
}

/// What is not digits is no number: an empty text, or one with any other
/// character behind a leading plus sign.
pub proof fn law_only_digits_are_numbers(s: Seq<char>, max: nat, i: int)
    requires
        s.len() == 0 || (0 <= i < s.len() && !is_digit(s[i]) && (i > 0 || s[0] != '+')),
    ensures
        parsed_unsigned(s, max) is None,
{
    if s.len() > 1 && s[0] == '+' {
        assert(s.skip(1)[i - 1] == s[i]);
    }
}

/// A prefix is what a text starts with, and cutting it off leaves the rest.
pub proof fn law_prefixes_are_cut_off(prefix: Seq<char>, rest: Seq<char>, s: Seq<char>)
    ensures
        has_prefix(prefix + rest, prefix) && after_prefix(prefix + rest, prefix) == Some(rest),
        after_prefix(s, prefix) matches Some(t) ==> s == prefix + t,
        after_prefix(s, prefix) is None <==> !has_prefix(s, prefix),
        s.len() < prefix.len() ==> !has_prefix(s, prefix),
{
    assert((prefix + rest).take(prefix.len() as int) =~= prefix);
    assert((prefix + rest).skip(prefix.len() as int) =~= rest);
    if has_prefix(s, prefix) {
        assert(s =~= s.take(prefix.len() as int) + s.skip(prefix.len() as int));
    }
}

/// A text falls into lines where line feeds stand: the first line is what
/// stands before the first of them, without a carriage return at its end,
/// and the other lines are those of what stands behind it. What stands
/// behind the last line feed is a line unless it is empty.
pub proof fn law_lines_end_at_line_feeds(line: Seq<char>, rest: Seq<char>)
    requires
        forall|i: int| 0 <= i < line.len() ==> #[trigger] line[i] != '\n',
    ensures
        line.len() == 0 || line.last() != '\r' ==> lines(line + seq!['\n'] + rest) == seq![line]
            + lines(rest),
        lines(line + seq!['\r', '\n'] + rest) == seq![line] + lines(rest),
        lines(line) == (if line.len() == 0 {
            Seq::<Seq<char>>::empty()
        } else {
            seq![line]
        }),
{
    let class = CharClass::IsNot('\n');
    let a = line + seq!['\n'] + rest;
    assert(a[line.len() as int] == '\n');
    assert forall|j: int| 0 <= j < line.len() implies class.has(a[j]) by {
        assert(a[j] == line[j]);
    }
    lemma_leading(a, class, line.len() as int);
    assert(a.take(line.len() as int) =~= line);
    assert(a.skip(line.len() as int + 1) =~= rest);
    let b = line + seq!['\r', '\n'] + rest;
    let end = line.len() as int + 1;
    assert(b[end] == '\n');
    assert forall|j: int| 0 <= j < end implies class.has(b[j]) by {
        if j < line.len() {
            assert(b[j] == line[j]);
        } else {
            assert(b[j] == '\r');
        }
    }
    lemma_leading(b, class, end);
    assert(b.take(end) =~= line.push('\r'));
    assert(line.push('\r').drop_last() =~= line);
    assert(b.skip(end + 1) =~= rest);
    assert forall|j: int| 0 <= j < line.len() implies class.has(line[j]) by {}
    lemma_leading(line, class, line.len() as int);
}

/// The text is a word: not empty, without white space.
pub open spec fn is_word(w: Seq<char>) -> bool {
    w.len() > 0 && forall|i: int| 0 <= i < w.len() ==> !is_white(#[trigger] w[i])
}

/// A text falls into words at white space: a word in front of white space is
/// the first one, the others are those of what is behind it, and white space
/// in front changes nothing.
pub proof fn law_words_end_at_white_space(word: Seq<char>, gap: char, rest: Seq<char>)
    requires
        is_word(word),
        is_white(gap),
    ensures
        words(word + seq![gap] + rest) == seq![word] + words(rest),
        words(word) == seq![word],
        words(seq![gap] + rest) == words(rest),
        words(Seq::empty()).len() == 0,
{
    let s = word + seq![gap] + rest;
    assert(s[0] == word[0]);
    lemma_leading(s, CharClass::White, 0);
    assert(trimmed_start(s, CharClass::White) =~= s);
    assert forall|j: int| 0 <= j < word.len() implies CharClass::NonWhite.has(s[j]) by {
        assert(s[j] == word[j]);
    }
    assert(s[word.len() as int] == gap);
    lemma_leading(s, CharClass::NonWhite, word.len() as int);
    assert(s.take(word.len() as int) =~= word);
    assert(s.skip(word.len() as int) =~= seq![gap] + rest);
    lemma_words_behind(gap, rest);
    lemma_leading(word, CharClass::White, 0);
    assert(trimmed_start(word, CharClass::White) =~= word);
    assert forall|j: int| 0 <= j < word.len() implies CharClass::NonWhite.has(word[j]) by {}
    lemma_leading(word, CharClass::NonWhite, word.len() as int);
    assert(word.take(word.len() as int) =~= word);
    assert(word.skip(word.len() as int) =~= Seq::empty());
    lemma_no_words();
    assert(seq![word] + words(Seq::empty()) =~= seq![word]);
}

proof fn lemma_no_words()
    ensures
        words(Seq::empty()) == Seq::<Seq<char>>::empty(),
{
    let t = trimmed_start(Seq::empty(), CharClass::White);
    assert(t.len() == 0);
}

proof fn lemma_words_behind(gap: char, rest: Seq<char>)
    requires
        is_white(gap),
    ensures
        words(seq![gap] + rest) == words(rest),
{
    let s = seq![gap] + rest;
    lemma_leading_bounds(rest, CharClass::White);
    let n = leading(rest, CharClass::White) as int;
    assert(s.skip(1) =~= rest);
    assert(leading(s, CharClass::White) == n + 1);
    assert(trimmed_start(s, CharClass::White) =~= trimmed_start(rest, CharClass::White));
    lemma_words_trimmed(s);
    lemma_words_trimmed(rest);
}

/// Joining puts the separator between neighbours and nowhere else.
pub proof fn law_joining_separates(parts: Seq<Seq<char>>, part: Seq<char>, sep: Seq<char>)
    ensures
        joined(Seq::empty(), sep).len() == 0,
        joined(seq![part], sep) == part,
        parts.len() > 0 ==> joined(parts.push(part), sep) == joined(parts, sep) + sep + part,
{
    assert(parts.push(part).drop_last() =~= parts);
}

/// Words joined by blanks are the words of the result.
pub proof fn law_joined_words_are_kept(ws: Seq<Seq<char>>)
    requires
        forall|i: int| 0 <= i < ws.len() ==> is_word(#[trigger] ws[i]),
    ensures
        words(joined(ws, seq![' '])) == ws,
    decreases ws.len(),
{
    if ws.len() == 0 {
        lemma_no_words();
        assert(ws =~= Seq::empty());
    } else if ws.len() == 1 {
        law_words_end_at_white_space(ws[0], ' ', Seq::empty());
        assert(ws =~= seq![ws[0]]);
    } else {
        lemma_joined_front(ws, seq![' ']);
        let rest = ws.skip(1);
        assert forall|i: int| 0 <= i < rest.len() implies is_word(#[trigger] rest[i]) by {
            assert(rest[i] == ws[i + 1]);
        }
        law_joined_words_are_kept(rest);
        law_words_end_at_white_space(ws[0], ' ', joined(rest, seq![' ']));
        assert(ws =~= seq![ws[0]] + rest);
    }
}

proof fn lemma_joined_front(parts: Seq<Seq<char>>, sep: Seq<char>)
    requires
        parts.len() >= 2,
    ensures
        joined(parts, sep) == parts[0] + sep + joined(parts.skip(1), sep),
    decreases parts.len(),
{
    let rest = parts.skip(1);
    if parts.len() == 2 {
        assert(joined(parts.drop_last(), sep) == parts[0]);
        assert(rest =~= seq![parts[1]]);
    } else {
        let front = parts.drop_last();
        lemma_joined_front(front, sep);
        assert(front.skip(1) =~= rest.drop_last());
        assert(joined(parts, sep) =~= parts[0] + sep + joined(rest, sep));
    }
}

/// Texts are ordered by their first difference, and a text comes before
/// every longer one that starts with it.
pub proof fn law_first_difference_decides(
    front: Seq<char>,
    x: char,
    y: char,
    a: Seq<char>,
    b: Seq<char>,
)
    ensures
        x != y ==> (text_le(front + seq![x] + a, front + seq![y] + b) <==> (x as u32) < (y as u32)),
        text_le(front, front + a),
        a.len() > 0 ==> !text_le(front + a, front),
    decreases front.len(),
{
    let l = front + seq![x] + a;
    let r = front + seq![y] + b;
    if front.len() > 0 {
        let rest = front.skip(1);
        law_first_difference_decides(rest, x, y, a, b);
        assert(l.skip(1) =~= rest + seq![x] + a);
        assert(r.skip(1) =~= rest + seq![y] + b);
        assert((front + a).skip(1) =~= rest + a);
        assert(l[0] == front[0] && r[0] == front[0]);
    } else {
        assert(l[0] == x && r[0] == y);
        assert(front + a =~= a);
    }
}

/// What neither starts nor ends with the class is not trimmed.
pub proof fn lemma_not_trimmed(s: Seq<char>, class: CharClass)
    requires
        s.len() > 0,
        !class.has(s[0]),
        !class.has(s.last()),
    ensures
        trimmed_start(s, class) == s,
        trimmed(s, class) == s,
{
    lemma_leading(s, class, 0);
    assert(trimmed_start(s, class) =~= s);
    lemma_trailing(s, class, 0);
    assert(trimmed(s, class) =~= s);
}

/// Sorting is stable: an element that comes last and that none of the others
/// goes behind stays last, also where some of them are its equals.
pub proof fn law_sorting_is_stable<A>(s: Seq<A>, x: A, le: spec_fn(A, A) -> bool)
    requires
        is_total_preorder(le),
        forall|i: int| 0 <= i < s.len() ==> le(#[trigger] s[i], x),
    ensures
        sorted_by(s.push(x), le) == sorted_by(s, le).push(x),
{
    broadcast use vstd::seq_lib::group_to_multiset_ensures;

    let sorted = sorted_by(s, le);
    lemma_sorted_by(s, le);
    assert(s.push(x).drop_last() =~= s);
    if sorted.len() > 0 {
        let y = sorted.last();
        assert(sorted.contains(y));
        assert(sorted.to_multiset().count(y) > 0);
        assert(s.to_multiset().count(y) > 0);
        assert(s.contains(y));
        let i = s.index_of(y);
        assert(le(s[i], x));
    }
}

} // verus!
