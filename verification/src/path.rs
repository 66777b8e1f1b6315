//! File system paths as text, compared the way `std::path::Path` compares
//! them: by components.
use vstd::prelude::*;

use crate::text::{self, leading, CharClass};

verus! {

/// The text between the slashes of `s`.
pub open spec fn pieces(s: Seq<char>) -> Seq<Seq<char>>
    decreases s.len(),
{
    let n = leading(s, CharClass::IsNot('/'));
    if n >= s.len() {
        seq![s]
    } else {
        seq![s.take(n as int)] + pieces(s.skip(n as int + 1))
    }
}

/// A piece that names something: not empty, and not `.`.
pub open spec fn is_name(p: Seq<char>) -> bool {
    p.len() > 0 && p != seq!['.']
}

pub open spec fn names(ps: Seq<Seq<char>>) -> Seq<Seq<char>>
    decreases ps.len(),
{
    if ps.len() == 0 {
        Seq::empty()
    } else if is_name(ps.last()) {
        names(ps.drop_last()).push(ps.last())
    } else {
        names(ps.drop_last())
    }
}

/// What identifies a path: whether it is absolute, and its components. A
/// leading `.` of a relative path is a component of its own; repeated
/// slashes, other `.` pieces and a trailing slash are not.
#[verifier::ext_equal]
pub struct PathKey {
    pub rooted: bool,
    pub parts: Seq<Seq<char>>,
}

pub open spec fn path_key(s: Seq<char>) -> PathKey {
    let rooted = s.len() > 0 && s[0] == '/';
    let ps = pieces(s);
    let lead = if !rooted && ps[0] == seq!['.'] {
        seq![seq!['.']]
    } else {
        Seq::empty()
    };
    PathKey { rooted, parts: lead + names(ps) }
}

/// Two texts name the same path.
pub open spec fn same_path(a: Seq<char>, b: Seq<char>) -> bool {
    path_key(a) == path_key(b)
}

/// An absolute path whose first component is `dev`.
pub open spec fn is_under_dev(s: Seq<char>) -> bool {
    let k = path_key(s);
    k.rooted && k.parts.len() > 0 && k.parts[0] == seq!['d', 'e', 'v']
}

fn split_slashes(s: &Vec<char>) -> (r: Vec<Vec<char>>)
    ensures
        text::views(r@) == pieces(s@),
        r@.len() > 0,
{
    let mut out: Vec<Vec<char>> = Vec::new();
    let mut pos: usize = 0;
    assert(s@.skip(0) =~= s@);
    assert(text::views(out@) + pieces(s@) =~= pieces(s@));
    loop
        invariant
            pos <= s@.len(),
            text::views(out@) + pieces(s@.skip(pos as int)) == pieces(s@),
        decreases s@.len() - pos,
    {
        let ghost before = out@;
        let ghost rest = s@.skip(pos as int);
        let n = text::run_length(s, pos, CharClass::IsNot('/'));
        let piece = text::cut(s, pos, pos + n);
        assert(piece@ =~= rest.take(n as int));
        out.push(piece);
        assert(text::views(out@) =~= text::views(before).push(piece@));
        if pos + n == s.len() {
            assert(piece@ =~= rest);
            assert(text::views(out@) =~= text::views(before) + seq![rest]);
            return out;
        }
        assert(rest.skip(n as int + 1) =~= s@.skip(pos + n + 1));
        pos = pos + n + 1;
        assert(text::views(before) + (seq![piece@] + pieces(s@.skip(pos as int))) =~= text::views(
            out@,
        ) + pieces(s@.skip(pos as int)));
    }
}

fn is_dot(p: &Vec<char>) -> (r: bool)
    ensures
        r == (p@ == seq!['.']),
{
    let r = p.len() == 1 && p[0] == '.';
    assert(r ==> p@ =~= seq!['.']);
    r
}

/// The components of a path, and whether it is absolute.
fn key_of(s: &str) -> (r: (bool, Vec<Vec<char>>))
    ensures
        r.0 == path_key(s@).rooted,
        text::views(r.1@) == path_key(s@).parts,
{
    let chars = text::chars_of(s);
    let ps = split_slashes(&chars);
    let rooted = chars.len() > 0 && chars[0] == '/';
    let mut out: Vec<Vec<char>> = Vec::new();
    if !rooted && is_dot(&ps[0]) {
        out.push(vec!['.']);
        assert(text::views(out@)[0] =~= seq!['.']);
    }
    let ghost lead = text::views(out@);
    assert(text::views(ps@)[0] == ps@[0]@);
    assert(lead =~= (if !rooted && pieces(s@)[0] == seq!['.'] {
        seq![seq!['.']]
    } else {
        Seq::empty()
    }));
    let mut i: usize = 0;
    assert(names(pieces(s@).take(0)) =~= Seq::empty());
    while i < ps.len()
        invariant
            i <= ps@.len(),
            text::views(ps@) == pieces(s@),
            text::views(out@) == lead + names(pieces(s@).take(i as int)),
        decreases ps@.len() - i,
    {
        let ghost so_far = pieces(s@).take(i as int);
        let ghost next = pieces(s@).take(i + 1);
        assert(next.drop_last() =~= so_far);
        assert(next.last() == ps@[i as int]@);
        let ghost before = out@;
        if ps[i].len() > 0 && !is_dot(&ps[i]) {
            let piece = text::cut(&ps[i], 0, ps[i].len());
            assert(piece@ =~= ps@[i as int]@);
            out.push(piece);
            assert(text::views(out@) =~= text::views(before).push(piece@));
            assert((lead + names(so_far)).push(piece@) =~= lead + names(next));
        }
        i += 1;
    }
    assert(pieces(s@).take(ps@.len() as int) =~= pieces(s@));
    (rooted, out)
}

fn same_chars(a: &Vec<char>, b: &Vec<char>) -> (r: bool)
    ensures
        r == (a@ == b@),
{
    if a.len() != b.len() {
        return false;
    }
    let mut i: usize = 0;
    while i < a.len()
        invariant
            i <= a@.len() == b@.len(),
            forall|j: int| 0 <= j < i ==> a@[j] == b@[j],
        decreases a@.len() - i,
    {
        if a[i] != b[i] {
            return false;
        }
        i += 1;
    }
    assert(a@ =~= b@);
    true
}

/// Whether `a` and `b` name the same path.
pub fn paths_equal(a: &str, b: &str) -> (r: bool)
    ensures
        r == same_path(a@, b@),
{
    let (ra, pa) = key_of(a);
    let (rb, pb) = key_of(b);
    if ra != rb || pa.len() != pb.len() {
        assert(text::views(pa@).len() == pa@.len());
        assert(text::views(pb@).len() == pb@.len());
        return false;
    }
    let mut i: usize = 0;
    while i < pa.len()
        invariant
            i <= pa@.len() == pb@.len(),
            text::views(pa@) == path_key(a@).parts,
            text::views(pb@) == path_key(b@).parts,
            forall|j: int| 0 <= j < i ==> pa@[j]@ == pb@[j]@,
        decreases pa@.len() - i,
    {
        if !same_chars(&pa[i], &pb[i]) {
            assert(text::views(pa@)[i as int] == pa@[i as int]@);
            assert(text::views(pb@)[i as int] == pb@[i as int]@);
            return false;
        }
        i += 1;
    }
    assert(path_key(a@).parts =~= path_key(b@).parts);
    true
}

/// Whether `s` is a path below `/dev`.
pub fn under_dev(s: &str) -> (r: bool)
    ensures
        r == is_under_dev(s@),
{
    let (rooted, parts) = key_of(s);
    if !rooted || parts.len() == 0 {
        assert(text::views(parts@).len() == parts@.len());
        return false;
    }
    assert(text::views(parts@)[0] == parts@[0]@);
    let r = parts[0].len() == 3 && parts[0][0] == 'd' && parts[0][1] == 'e' && parts[0][2] == 'v';
    assert(r ==> parts@[0]@ =~= seq!['d', 'e', 'v']);
    r
}

/// The last component, where it names something.
pub open spec fn last_name(s: Seq<char>) -> Option<Seq<char>> {
    let parts = path_key(s).parts;
    if parts.len() == 0 || parts.last() == seq!['.'] || parts.last() == seq!['.', '.'] {
        None
    } else {
        Some(parts.last())
    }
}

/// The file name of a path.
pub fn file_name(s: &str) -> (r: Option<String>)
    ensures
        text::opt_view(r) == last_name(s@),
{
    let (_rooted, parts) = key_of(s);
    assert(text::views(parts@).len() == parts@.len());
    if parts.len() == 0 {
        return None;
    }
    let last = &parts[parts.len() - 1];
    assert(text::views(parts@).last() == last@);
    let dots = last.len() == 2 && last[0] == '.' && last[1] == '.';
    assert(dots ==> last@ =~= seq!['.', '.']);
    if is_dot(last) || dots {
        return None;
    }
    Some(text::string_of(last))
}

/// Naming the same path is an equivalence.
pub proof fn law_same_path_equivalence(a: Seq<char>, b: Seq<char>, c: Seq<char>)
    ensures
        same_path(a, a),
        same_path(a, b) ==> same_path(b, a),
        same_path(a, b) && same_path(b, c) ==> same_path(a, c),
{
}

/// A slash separates pieces.
proof fn lemma_pieces_joined(a: Seq<char>, b: Seq<char>)
    ensures
        pieces(a + seq!['/'] + b) == pieces(a) + pieces(b),
        pieces(a).len() > 0,
    decreases a.len(),
{
    let class = CharClass::IsNot('/');
    let s = a + seq!['/'] + b;
    text::lemma_leading_bounds(a, class);
    let n = leading(a, class) as int;
    assert forall|j: int| 0 <= j < n implies class.has(s[j]) by {
        assert(s[j] == a[j]);
    }
    if n < a.len() {
        assert(s[n] == a[n]);
        text::lemma_leading(s, class, n);
        let rest = a.skip(n + 1);
        lemma_pieces_joined(rest, b);
        assert(s.skip(n + 1) =~= rest + seq!['/'] + b);
        assert(s.take(n) =~= a.take(n));
        assert(pieces(s) =~= pieces(a) + pieces(b));
    } else {
        assert(s[n] == '/');
        text::lemma_leading(s, class, n);
        assert(s.skip(n + 1) =~= b);
        assert(s.take(n) =~= a);
        assert(pieces(s) =~= pieces(a) + pieces(b));
    }
}

proof fn lemma_names_joined(a: Seq<Seq<char>>, b: Seq<Seq<char>>)
    ensures
        names(a + b) == names(a) + names(b),
    decreases b.len(),
{
    if b.len() == 0 {
        assert(a + b =~= a);
        assert(names(a) + names(b) =~= names(a));
    } else {
        lemma_names_joined(a, b.drop_last());
        assert((a + b).drop_last() =~= a + b.drop_last());
        assert((a + b).last() == b.last());
        assert(names(a + b) =~= names(a) + names(b));
    }
}

/// A piece without a slash is one piece.
proof fn lemma_one_piece(p: Seq<char>)
    requires
        forall|i: int| 0 <= i < p.len() ==> #[trigger] p[i] != '/',
    ensures
        pieces(p) == seq![p],
{
    assert forall|j: int| 0 <= j < p.len() implies CharClass::IsNot('/').has(p[j]) by {}
    text::lemma_leading(p, CharClass::IsNot('/'), p.len() as int);
}

proof fn lemma_names_of_one(p: Seq<char>)
    ensures
        names(seq![p]) == (if is_name(p) {
            seq![p]
        } else {
            Seq::empty()
        }),
{
    assert(seq![p].drop_last() =~= Seq::<Seq<char>>::empty());
    reveal_with_fuel(names, 2);
    assert(Seq::<Seq<char>>::empty().push(p) =~= seq![p]);
}

/// What a path names below another one: joining adds the names.
proof fn lemma_key_joined(a: Seq<char>, b: Seq<char>)
    ensures
        a.len() > 0 ==> path_key(a + seq!['/'] + b).rooted == path_key(a).rooted
            && path_key(a + seq!['/'] + b).parts == path_key(a).parts + names(pieces(b)),
        path_key(seq!['/'] + b).rooted && path_key(seq!['/'] + b).parts == names(pieces(b)),
{
    let s = a + seq!['/'] + b;
    lemma_pieces_joined(a, b);
    lemma_names_joined(pieces(a), pieces(b));
    if a.len() > 0 {
        assert(s[0] == a[0]);
        assert(path_key(s).parts =~= path_key(a).parts + names(pieces(b)));
    }
    let e = Seq::<char>::empty();
    lemma_pieces_joined(e, b);
    lemma_one_piece(e);
    lemma_names_of_one(e);
    lemma_names_joined(seq![e], pieces(b));
    assert(e + seq!['/'] + b =~= seq!['/'] + b);
    assert(path_key(seq!['/'] + b).parts =~= names(pieces(b)));
}

/// The spelling of a path does not matter: a slash at its end, a doubled
/// slash and a `.` between slashes leave it the same.
pub proof fn law_spelling_does_not_matter(a: Seq<char>, b: Seq<char>)
    requires
        a.len() > 0,
    ensures
        same_path(a + seq!['/'], a),
        same_path(a + seq!['/', '/'] + b, a + seq!['/'] + b),
        same_path(a + seq!['/', '.', '/'] + b, a + seq!['/'] + b),
{
    let e = Seq::<char>::empty();
    lemma_one_piece(e);
    lemma_names_of_one(e);
    lemma_key_joined(a, e);
    assert(a + seq!['/'] + e =~= a + seq!['/']);
    assert(path_key(a).parts + Seq::<Seq<char>>::empty() =~= path_key(a).parts);
    lemma_key_joined(a, b);
    let slash = seq!['/'] + b;
    lemma_pieces_joined(e, b);
    assert(e + seq!['/'] + b =~= slash);
    lemma_names_joined(seq![e], pieces(b));
    lemma_key_joined(a, slash);
    assert(a + seq!['/'] + slash =~= a + seq!['/', '/'] + b);
    assert(names(pieces(slash)) =~= names(pieces(b)));
    let dot = seq!['.'];
    let dotted = dot + seq!['/'] + b;
    lemma_one_piece(dot);
    lemma_names_of_one(dot);
    lemma_pieces_joined(dot, b);
    lemma_names_joined(seq![dot], pieces(b));
    lemma_key_joined(a, dotted);
    assert(a + seq!['/'] + dotted =~= a + seq!['/', '.', '/'] + b);
    assert(names(pieces(dotted)) =~= names(pieces(b)));
}

/// A plain file name: no slash in it, and neither empty nor a dot entry.
pub open spec fn is_file_name(n: Seq<char>) -> bool {
    &&& n.len() > 0 && n != seq!['.'] && n != seq!['.', '.']
    &&& forall|i: int| 0 <= i < n.len() ==> #[trigger] n[i] != '/'
}

/// Different files are told apart: in one directory, paths are the same only
/// if the file names are, and the last name of a path is that of its file.
pub proof fn law_names_tell_paths_apart(dir: Seq<char>, n: Seq<char>, m: Seq<char>)
    requires
        dir.len() > 0,
        is_file_name(n),
        is_file_name(m),
    ensures
        same_path(dir + seq!['/'] + n, dir + seq!['/'] + m) <==> n == m,
        !same_path(dir + seq!['/'] + n, dir),
        last_name(dir + seq!['/'] + n) == Some(n),
{
    lemma_one_piece(n);
    lemma_one_piece(m);
    lemma_names_of_one(n);
    lemma_names_of_one(m);
    lemma_key_joined(dir, n);
    lemma_key_joined(dir, m);
    assert(path_key(dir + seq!['/'] + n).parts.last() == n);
    assert(path_key(dir + seq!['/'] + m).parts.last() == m);
    assert(path_key(dir + seq!['/'] + n).parts.len() == path_key(dir).parts.len() + 1);
}

/// A path lies under `/dev` exactly when `dev` is the first name behind the
/// root; one that does not start at the root never does.
pub proof fn law_devices_are_under_dev(first: Seq<char>, rest: Seq<char>)
    requires
        is_file_name(first),
    ensures
        is_under_dev(seq!['/'] + first + seq!['/'] + rest) <==> first == seq!['d', 'e', 'v'],
        rest.len() == 0 || rest[0] != '/' ==> !is_under_dev(rest),
{
    let tail = first + seq!['/'] + rest;
    assert(seq!['/'] + first + seq!['/'] + rest =~= seq!['/'] + tail);
    lemma_key_joined(first, tail);
    lemma_pieces_joined(first, rest);
    lemma_one_piece(first);
    lemma_names_of_one(first);
    lemma_names_joined(seq![first], pieces(rest));
    assert(path_key(seq!['/'] + tail).parts[0] == first);
}

} // verus!
