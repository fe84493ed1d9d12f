//! Text primitives shared by the config and log components: splitting a file
//! into lines the way `str::lines` does, joining lines back with `'\n'`,
//! trimming whitespace, and searching for characters and substrings.
//!
//! Specifications work on `Seq<char>`, the view of `&str` and `String`;
//! executable code works on `Vec<char>` and converts at the edges.

use vstd::prelude::*;
use vstd::string::StrSliceExecFns;

verus! {

// ------------------------------------------------------------------
// Whitespace and trimming
// ------------------------------------------------------------------

/// The characters `char::is_whitespace` recognises, by code point.
pub open spec fn is_space(c: char) -> bool {
    let u = c as u32;
    u == 0x09 || u == 0x0A || u == 0x0B || u == 0x0C || u == 0x0D || u == 0x20 || u == 0x85
        || u == 0xA0 || u == 0x1680 || (0x2000 <= u && u <= 0x200A) || u == 0x2028 || u == 0x2029
        || u == 0x202F || u == 0x205F || u == 0x3000
}

pub fn is_space_char(c: char) -> (r: bool)
    ensures
        r == is_space(c),
{
    let u = c as u32;
    u == 0x09 || u == 0x0A || u == 0x0B || u == 0x0C || u == 0x0D || u == 0x20 || u == 0x85
        || u == 0xA0 || u == 0x1680 || (0x2000 <= u && u <= 0x200A) || u == 0x2028 || u == 0x2029
        || u == 0x202F || u == 0x205F || u == 0x3000
}

/// The line with trailing whitespace removed.
pub open spec fn trim_end(l: Seq<char>) -> Seq<char>
    decreases l.len(),
{
    if l.len() > 0 && is_space(l.last()) {
        trim_end(l.drop_last())
    } else {
        l
    }
}

/// The line with leading whitespace removed.
pub open spec fn trim_start(l: Seq<char>) -> Seq<char>
    decreases l.len(),
{
    if l.len() > 0 && is_space(l.first()) {
        trim_start(l.drop_first())
    } else {
        l
    }
}

/// The line with leading and trailing whitespace removed, as `str::trim`.
pub open spec fn trim(l: Seq<char>) -> Seq<char> {
    trim_start(trim_end(l))
}

// ------------------------------------------------------------------
// Searching for a character
// ------------------------------------------------------------------

/// Position of the first occurrence of `c` in `s`, or `s.len()` if absent.
pub open spec fn find_char(s: Seq<char>, c: char) -> nat
    decreases s.len(),
{
    if s.len() == 0 {
        0
    } else if s[0] == c {
        0
    } else {
        (1 + find_char(s.drop_first(), c)) as nat
    }
}

pub proof fn lemma_find_char(s: Seq<char>, c: char)
    ensures
        find_char(s, c) <= s.len(),
        find_char(s, c) < s.len() ==> s[find_char(s, c) as int] == c,
        forall|t: int| 0 <= t < find_char(s, c) ==> s[t] != c,
    decreases s.len(),
{
    if s.len() == 0 {
    } else if s[0] == c {
    } else {
        lemma_find_char(s.drop_first(), c);
        assert forall|t: int| 0 <= t < find_char(s, c) implies s[t] != c by {
            if t > 0 {
                assert(s.drop_first()[t - 1] == s[t]);
            }
        }
    }
}

/// A position that carries the first-occurrence properties is `find_char`.
pub proof fn lemma_find_char_is(s: Seq<char>, c: char, k: int)
    requires
        0 <= k <= s.len(),
        k < s.len() ==> s[k] == c,
        forall|t: int| 0 <= t < k ==> s[t] != c,
    ensures
        find_char(s, c) == k,
{
    lemma_find_char(s, c);
    let f = find_char(s, c) as int;
    if f < k {
        assert(s[f] != c);
    }
    if k < f {
        assert(s[k] != c);
    }
}

// ------------------------------------------------------------------
// Searching for a substring
// ------------------------------------------------------------------

/// `n` occurs in `h` starting at position `i`.
pub open spec fn match_at(h: Seq<char>, n: Seq<char>, i: int) -> bool {
    0 <= i && i + n.len() <= h.len() && h.subrange(i, i + n.len() as int) == n
}

/// Position of the first occurrence of `n` in `h` at or after `i`,
/// or `-1` if there is none.
pub open spec fn find_sub_from(h: Seq<char>, n: Seq<char>, i: int) -> int
    decreases h.len() - i,
{
    if i < 0 || i + n.len() > h.len() {
        -1
    } else if n.len() == 0 || match_at(h, n, i) {
        i
    } else {
        find_sub_from(h, n, i + 1)
    }
}

/// Position of the first occurrence of `n` in `h`, or `-1` if there is none.
pub open spec fn find_sub(h: Seq<char>, n: Seq<char>) -> int {
    find_sub_from(h, n, 0)
}

pub proof fn lemma_find_sub_from(h: Seq<char>, n: Seq<char>, i: int)
    requires
        0 <= i,
    ensures
        find_sub_from(h, n, i) == -1 ==> forall|t: int| i <= t ==> !match_at(h, n, t),
        find_sub_from(h, n, i) != -1 ==> i <= find_sub_from(h, n, i)
            && match_at(h, n, find_sub_from(h, n, i))
            && forall|t: int| i <= t < find_sub_from(h, n, i) ==> !match_at(h, n, t),
    decreases h.len() - i,
{
    if i + n.len() > h.len() {
        assert forall|t: int| i <= t implies !match_at(h, n, t) by {}
    } else if n.len() == 0 {
        assert(h.subrange(i, i + n.len() as int) =~= n);
    } else if match_at(h, n, i) {
    } else {
        lemma_find_sub_from(h, n, i + 1);
    }
}

// ------------------------------------------------------------------
// Lines
// ------------------------------------------------------------------

/// A line with one trailing carriage return removed, as `str::lines`
/// does for a line that ended in `"\r\n"`.
pub open spec fn chomp(l: Seq<char>) -> Seq<char> {
    if l.len() > 0 && l.last() == '\r' {
        l.drop_last()
    } else {
        l
    }
}

/// The lines of `s`, split as `str::lines` splits: at every `'\n'`,
/// with a `'\r'` just before the `'\n'` removed, and with no empty
/// final line when `s` ends in `'\n'`.
pub open spec fn lines(s: Seq<char>) -> Seq<Seq<char>>
    decreases s.len(),
{
    if s.len() == 0 {
        Seq::empty()
    } else {
        let j = find_char(s, '\n') as int;
        if j >= s.len() {
            seq![s]
        } else {
            seq![chomp(s.take(j))] + lines(s.skip(j + 1))
        }
    }
}

/// The lines joined back into one text with `'\n'` between them.
pub open spec fn join(ls: Seq<Seq<char>>) -> Seq<char>
    decreases ls.len(),
{
    if ls.len() == 0 {
        Seq::empty()
    } else if ls.len() == 1 {
        ls[0]
    } else {
        ls[0] + seq!['\n'] + join(ls.drop_first())
    }
}

/// The lines for which `pred` holds, in order.
pub open spec fn keep(ls: Seq<Seq<char>>, pred: spec_fn(Seq<char>) -> bool) -> Seq<Seq<char>>
    decreases ls.len(),
{
    if ls.len() == 0 {
        Seq::empty()
    } else if pred(ls[0]) {
        seq![ls[0]] + keep(ls.drop_first(), pred)
    } else {
        keep(ls.drop_first(), pred)
    }
}

/// The views of a vector of lines.
pub open spec fn views(ls: Seq<Vec<char>>) -> Seq<Seq<char>> {
    ls.map_values(|l: Vec<char>| l@)
}

// ------------------------------------------------------------------
// Line shape predicates
// ------------------------------------------------------------------

/// The line holds no newline character.
pub open spec fn no_nl(l: Seq<char>) -> bool {
    forall|t: int| 0 <= t < l.len() ==> l[t] != '\n'
}

/// Every character of the line is whitespace.
pub open spec fn all_space(l: Seq<char>) -> bool {
    forall|t: int| 0 <= t < l.len() ==> is_space(l[t])
}

/// The line ends with a carriage return.
pub open spec fn ends_cr(l: Seq<char>) -> bool {
    l.len() > 0 && l.last() == '\r'
}

/// What re-splitting joined lines gives back: every line but the last
/// loses one trailing carriage return, and an empty last line vanishes.
pub open spec fn norm(ls: Seq<Seq<char>>) -> Seq<Seq<char>> {
    if ls.len() == 0 {
        ls
    } else {
        let m = Seq::new(ls.len(), |i: int| if i < ls.len() - 1 { chomp(ls[i]) } else { ls[i] });
        if m.last().len() == 0 {
            m.drop_last()
        } else {
            m
        }
    }
}

// ------------------------------------------------------------------
// Lemmas about lines, join and keep
// ------------------------------------------------------------------

/// Every line produced by `lines` is free of newline characters.
pub proof fn lemma_lines_no_nl(s: Seq<char>)
    ensures
        forall|k: int| 0 <= k < lines(s).len() ==> no_nl(#[trigger] lines(s)[k]),
    decreases s.len(),
{
    if s.len() == 0 {
    } else {
        lemma_find_char(s, '\n');
        let j = find_char(s, '\n') as int;
        if j >= s.len() {
            assert(no_nl(s));
            assert(lines(s) =~= seq![s]);
        } else {
            lemma_lines_no_nl(s.skip(j + 1));
            let piece = chomp(s.take(j));
            assert forall|t: int| 0 <= t < piece.len() implies piece[t] != '\n' by {
                assert(piece[t] == s[t]);
            }
            assert(no_nl(piece));
            assert forall|k: int| 0 <= k < lines(s).len() implies no_nl(#[trigger] lines(s)[k]) by {
                if k > 0 {
                    assert(lines(s)[k] == lines(s.skip(j + 1))[k - 1]);
                }
            }
        }
    }
}

/// Appending one more line to a join appends a separator and the line.
pub proof fn lemma_join_push(ls: Seq<Seq<char>>, x: Seq<char>)
    ensures
        join(ls.push(x)) == if ls.len() == 0 {
            x
        } else {
            join(ls) + seq!['\n'] + x
        },
    decreases ls.len(),
{
    if ls.len() == 0 {
        assert(join(ls.push(x)) == ls.push(x)[0]);
        assert(ls.push(x)[0] == x);
    } else {
        lemma_join_push(ls.drop_first(), x);
        assert(ls.push(x).drop_first() =~= ls.drop_first().push(x));
        if ls.len() == 1 {
            assert(join(ls.push(x)) == ls[0] + seq!['\n'] + x);
            assert(join(ls) == ls[0]);
        } else {
            assert(join(ls.push(x)) == ls[0] + seq!['\n'] + join(ls.drop_first().push(x)));
            assert(join(ls.drop_first().push(x)) == join(ls.drop_first()) + seq!['\n'] + x);
            assert(ls[0] + (seq!['\n'] + (join(ls.drop_first()) + (seq!['\n'] + x))) =~= (ls[0]
                + seq!['\n'] + join(ls.drop_first())) + seq!['\n'] + x);
            assert(join(ls.push(x)) =~= join(ls) + seq!['\n'] + x);
        }
    }
}

/// Splitting a join of newline-free lines gives the lines back, up to
/// the normalisation that `lines` applies.
pub proof fn lemma_lines_join(ls: Seq<Seq<char>>)
    requires
        forall|k: int| 0 <= k < ls.len() ==> no_nl(#[trigger] ls[k]),
    ensures
        lines(join(ls)) == norm(ls),
    decreases ls.len(),
{
    if ls.len() == 0 {
    } else if ls.len() == 1 {
        let s = join(ls);
        assert(s == ls[0]);
        let m = Seq::new(ls.len(), |i: int| if i < ls.len() - 1 { chomp(ls[i]) } else { ls[i] });
        assert(m =~= ls);
        if s.len() == 0 {
            assert(norm(ls) =~= Seq::<Seq<char>>::empty());
        } else {
            lemma_find_char_is(s, '\n', s.len() as int);
            assert(lines(s) =~= seq![s]);
            assert(norm(ls) =~= seq![s]);
        }
    } else {
        let hd = ls[0];
        let tl = ls.drop_first();
        let rest = join(tl);
        let s = join(ls);
        assert(s == hd + seq!['\n'] + rest);
        assert forall|k: int| 0 <= k < tl.len() implies no_nl(#[trigger] tl[k]) by {
            assert(tl[k] == ls[k + 1]);
        }
        lemma_lines_join(tl);
        // the first newline of s sits right after hd
        assert forall|t: int| 0 <= t < hd.len() implies s[t] != '\n' by {
            assert(s[t] == hd[t]);
            assert(no_nl(ls[0]));
        }
        assert(s[hd.len() as int] == '\n');
        lemma_find_char_is(s, '\n', hd.len() as int);
        let j = hd.len() as int;
        assert(s.take(j) =~= hd);
        assert(s.skip(j + 1) =~= rest);
        assert(lines(s) == seq![chomp(hd)] + lines(rest));
        assert(lines(s) == seq![chomp(hd)] + norm(tl));

        let m = Seq::new(ls.len(), |i: int| if i < ls.len() - 1 { chomp(ls[i]) } else { ls[i] });
        let mt = Seq::new(tl.len(), |i: int| if i < tl.len() - 1 { chomp(tl[i]) } else { tl[i] });
        assert(m.drop_first() =~= mt);
        assert(m[0] == chomp(hd));
        assert(m.last() == mt.last());
        if mt.last().len() == 0 {
            assert(norm(tl) == mt.drop_last());
            assert(seq![chomp(hd)] + mt.drop_last() =~= m.drop_last());
            assert(norm(ls) == m.drop_last());
        } else {
            assert(norm(tl) == mt);
            assert(seq![chomp(hd)] + mt =~= m);
            assert(norm(ls) == m);
        }
    }
}

/// When no line but the last ends in a carriage return and the last
/// line is not empty, re-splitting the join gives exactly the lines.
pub proof fn lemma_lines_join_exact(ls: Seq<Seq<char>>)
    requires
        forall|k: int| 0 <= k < ls.len() ==> no_nl(#[trigger] ls[k]),
        forall|k: int| 0 <= k < ls.len() - 1 ==> !ends_cr(#[trigger] ls[k]),
        ls.len() > 0 ==> ls.last().len() > 0,
    ensures
        lines(join(ls)) == ls,
{
    lemma_lines_join(ls);
    if ls.len() > 0 {
        let m = Seq::new(ls.len(), |i: int| if i < ls.len() - 1 { chomp(ls[i]) } else { ls[i] });
        assert forall|i: int| 0 <= i < ls.len() implies m[i] == ls[i] by {
            if i < ls.len() - 1 {
                assert(!ends_cr(ls[i]));
            }
        }
        assert(m =~= ls);
    }
}

/// Every line that `keep` retains satisfies the predicate.
pub proof fn lemma_keep_pred(ls: Seq<Seq<char>>, pred: spec_fn(Seq<char>) -> bool)
    ensures
        forall|k: int| 0 <= k < keep(ls, pred).len() ==> pred(#[trigger] keep(ls, pred)[k]),
    decreases ls.len(),
{
    if ls.len() == 0 {
    } else {
        lemma_keep_pred(ls.drop_first(), pred);
        assert forall|k: int| 0 <= k < keep(ls, pred).len() implies pred(
            #[trigger] keep(ls, pred)[k],
        ) by {
            if pred(ls[0]) {
                if k > 0 {
                    assert(keep(ls, pred)[k] == keep(ls.drop_first(), pred)[k - 1]);
                }
            } else {
                assert(keep(ls, pred)[k] == keep(ls.drop_first(), pred)[k]);
            }
        }
    }
}

/// `keep` preserves any property that all lines share.
pub proof fn lemma_keep_sub(
    ls: Seq<Seq<char>>,
    pred: spec_fn(Seq<char>) -> bool,
    q: spec_fn(Seq<char>) -> bool,
)
    requires
        forall|k: int| 0 <= k < ls.len() ==> q(#[trigger] ls[k]),
    ensures
        forall|k: int| 0 <= k < keep(ls, pred).len() ==> q(#[trigger] keep(ls, pred)[k]),
    decreases ls.len(),
{
    if ls.len() == 0 {
    } else {
        assert forall|k: int| 0 <= k < ls.drop_first().len() implies q(
            #[trigger] ls.drop_first()[k],
        ) by {
            assert(ls.drop_first()[k] == ls[k + 1]);
        }
        lemma_keep_sub(ls.drop_first(), pred, q);
        assert forall|k: int| 0 <= k < keep(ls, pred).len() implies q(
            #[trigger] keep(ls, pred)[k],
        ) by {
            if pred(ls[0]) {
                if k > 0 {
                    assert(keep(ls, pred)[k] == keep(ls.drop_first(), pred)[k - 1]);
                }
            } else {
                assert(keep(ls, pred)[k] == keep(ls.drop_first(), pred)[k]);
            }
        }
    }
}

/// Lines that all satisfy the predicate are kept unchanged.
pub proof fn lemma_keep_id(ls: Seq<Seq<char>>, pred: spec_fn(Seq<char>) -> bool)
    requires
        forall|k: int| 0 <= k < ls.len() ==> pred(#[trigger] ls[k]),
    ensures
        keep(ls, pred) == ls,
    decreases ls.len(),
{
    if ls.len() == 0 {
        assert(keep(ls, pred) =~= ls);
    } else {
        assert forall|k: int| 0 <= k < ls.drop_first().len() implies pred(
            #[trigger] ls.drop_first()[k],
        ) by {
            assert(ls.drop_first()[k] == ls[k + 1]);
        }
        lemma_keep_id(ls.drop_first(), pred);
        assert(pred(ls[0]));
        assert(keep(ls, pred) =~= ls);
    }
}

/// `keep` distributes over concatenation.
pub proof fn lemma_keep_concat(a: Seq<Seq<char>>, b: Seq<Seq<char>>, pred: spec_fn(Seq<char>) -> bool)
    ensures
        keep(a + b, pred) == keep(a, pred) + keep(b, pred),
    decreases a.len(),
{
    if a.len() == 0 {
        assert(a + b =~= b);
        assert(keep(a, pred) + keep(b, pred) =~= keep(b, pred));
    } else {
        lemma_keep_concat(a.drop_first(), b, pred);
        assert((a + b).drop_first() =~= a.drop_first() + b);
        assert((a + b)[0] == a[0]);
        if pred(a[0]) {
            assert(seq![a[0]] + (keep(a.drop_first(), pred) + keep(b, pred)) =~= (seq![a[0]]
                + keep(a.drop_first(), pred)) + keep(b, pred));
        }
    }
}

/// Adding one line to the end of a sequence extends `keep` accordingly.
pub proof fn lemma_keep_push(ls: Seq<Seq<char>>, pred: spec_fn(Seq<char>) -> bool, x: Seq<char>)
    ensures
        keep(ls.push(x), pred) == if pred(x) {
            keep(ls, pred).push(x)
        } else {
            keep(ls, pred)
        },
{
    assert(ls.push(x) =~= ls + seq![x]);
    lemma_keep_concat(ls, seq![x], pred);
    assert(seq![x].drop_first() =~= Seq::<Seq<char>>::empty());
    assert(keep(Seq::<Seq<char>>::empty(), pred) =~= Seq::<Seq<char>>::empty());
    if pred(x) {
        assert(keep(seq![x], pred) =~= seq![x]);
        assert(keep(ls, pred) + seq![x] =~= keep(ls, pred).push(x));
    } else {
        assert(keep(seq![x], pred) =~= Seq::<Seq<char>>::empty());
        assert(keep(ls, pred) + Seq::<Seq<char>>::empty() =~= keep(ls, pred));
    }
}

// ------------------------------------------------------------------
// Lemmas about trimming
// ------------------------------------------------------------------

/// Trailing whitespace is discarded by `trim_end`.
pub proof fn lemma_trim_end_spaces(l: Seq<char>, q: Seq<char>)
    requires
        all_space(q),
    ensures
        trim_end(l + q) == trim_end(l),
    decreases q.len(),
{
    if q.len() == 0 {
        assert(l + q =~= l);
    } else {
        assert((l + q).last() == q.last());
        assert(is_space(q.last()));
        assert((l + q).drop_last() =~= l + q.drop_last());
        assert forall|t: int| 0 <= t < q.drop_last().len() implies is_space(q.drop_last()[t]) by {
            assert(q.drop_last()[t] == q[t]);
        }
        lemma_trim_end_spaces(l, q.drop_last());
    }
}

/// Leading whitespace is discarded by `trim_start`.
pub proof fn lemma_trim_start_spaces(p: Seq<char>, l: Seq<char>)
    requires
        all_space(p),
    ensures
        trim_start(p + l) == trim_start(l),
    decreases p.len(),
{
    if p.len() == 0 {
        assert(p + l =~= l);
    } else {
        assert((p + l).first() == p[0]);
        assert((p + l).drop_first() =~= p.drop_first() + l);
        assert forall|t: int| 0 <= t < p.drop_first().len() implies is_space(p.drop_first()[t]) by {
            assert(p.drop_first()[t] == p[t + 1]);
        }
        lemma_trim_start_spaces(p.drop_first(), l);
    }
}

/// `trim_start` keeps the last character when it is not whitespace.
pub proof fn lemma_trim_start_last(l: Seq<char>)
    requires
        l.len() > 0,
        !is_space(l.last()),
    ensures
        trim_start(l).len() > 0,
        trim_start(l).last() == l.last(),
    decreases l.len(),
{
    if is_space(l.first()) {
        assert(l.drop_first().len() > 0);
        assert(l.drop_first().last() == l.last());
        lemma_trim_start_last(l.drop_first());
    }
}

/// Trimming ignores a trailing carriage return.
pub proof fn lemma_trim_chomp(l: Seq<char>)
    ensures
        trim(chomp(l)) == trim(l),
{
    if l.len() > 0 && l.last() == '\r' {
        assert(is_space(l.last()));
        assert(trim_end(l) == trim_end(l.drop_last()));
    }
}

/// The trim of a line whose last character is not whitespace ends in
/// that same character.
pub proof fn lemma_trim_last(l: Seq<char>)
    requires
        l.len() > 0,
        !is_space(l.last()),
    ensures
        trim(l).len() > 0,
        trim(l).last() == l.last(),
{
    assert(trim_end(l) == l);
    lemma_trim_start_last(l);
}

// ------------------------------------------------------------------
// Executable primitives
// ------------------------------------------------------------------

/// Relies on `String::push`: it appends exactly the given character
/// at the end of the string.
#[verifier::external_body]
pub(crate) fn push_char(s: &mut String, c: char)
    ensures
        final(s)@ == old(s)@.push(c),
{
    s.push(c);
}

/// The characters of a string slice, as a vector.
pub fn str_chars(s: &str) -> (r: Vec<char>)
    ensures
        r@ == s@,
{
    let n: usize = s.unicode_len();
    let mut r: Vec<char> = Vec::new();
    let mut i: usize = 0;
    while i < n
        invariant
            i <= n,
            n == s@.len(),
            r@ == s@.take(i as int),
        decreases n - i,
    {
        let c = s.get_char(i);
        r.push(c);
        proof {
            assert(r@ =~= s@.take(i + 1 as int));
        }
        i = i + 1;
    }
    proof {
        assert(r@ =~= s@);
    }
    r
}

/// A copy of `l[a..b]`.
pub fn copy_range(l: &Vec<char>, a: usize, b: usize) -> (r: Vec<char>)
    requires
        a <= b <= l@.len(),
    ensures
        r@ == l@.subrange(a as int, b as int),
{
    let mut r: Vec<char> = Vec::new();
    let mut i: usize = a;
    while i < b
        invariant
            a <= i <= b <= l@.len(),
            r@ == l@.subrange(a as int, i as int),
        decreases b - i,
    {
        r.push(l[i]);
        proof {
            assert(r@ =~= l@.subrange(a as int, i + 1 as int));
        }
        i = i + 1;
    }
    r
}

/// The characters `l[a..b]`, as a string.
pub fn string_of_range(l: &Vec<char>, a: usize, b: usize) -> (r: String)
    requires
        a <= b <= l@.len(),
    ensures
        r@ == l@.subrange(a as int, b as int),
{
    let mut r: String = String::new();
    let mut i: usize = a;
    while i < b
        invariant
            a <= i <= b <= l@.len(),
            r@ == l@.subrange(a as int, i as int),
        decreases b - i,
    {
        push_char(&mut r, l[i]);
        proof {
            assert(r@ =~= l@.subrange(a as int, i + 1 as int));
        }
        i = i + 1;
    }
    r
}

/// First position of `c` in `l` at or after `from`; `l.len()` if absent.
pub fn find_char_from(l: &Vec<char>, from: usize, c: char) -> (r: usize)
    requires
        from <= l@.len(),
    ensures
        from <= r <= l@.len(),
        r < l@.len() ==> l@[r as int] == c,
        forall|t: int| from <= t < r ==> l@[t] != c,
{
    let n: usize = l.len();
    let mut i: usize = from;
    while i < n
        invariant
            from <= i <= n,
            n == l@.len(),
            forall|t: int| from <= t < i ==> l@[t] != c,
        decreases n - i,
    {
        if l[i] == c {
            return i;
        }
        i = i + 1;
    }
    i
}

/// Whether `a` and `b` hold the same characters.
pub fn str_eq(a: &str, b: &str) -> (r: bool)
    ensures
        r == (a@ == b@),
{
    let na: usize = a.unicode_len();
    let nb: usize = b.unicode_len();
    if na != nb {
        return false;
    }
    let mut i: usize = 0;
    while i < na
        invariant
            i <= na,
            na == a@.len(),
            na == b@.len(),
            forall|t: int| 0 <= t < i ==> a@[t] == b@[t],
        decreases na - i,
    {
        if a.get_char(i) != b.get_char(i) {
            return false;
        }
        i = i + 1;
    }
    proof {
        assert(a@ =~= b@);
    }
    true
}

/// Whether `l[a..b]` holds exactly the characters of `s`.
pub fn range_eq_str(l: &Vec<char>, a: usize, b: usize, s: &str) -> (r: bool)
    requires
        a <= b <= l@.len(),
    ensures
        r == (l@.subrange(a as int, b as int) == s@),
{
    let n: usize = s.unicode_len();
    if b - a != n {
        proof {
            assert(l@.subrange(a as int, b as int).len() == b - a);
        }
        return false;
    }
    let mut i: usize = 0;
    while i < n
        invariant
            i <= n,
            n == s@.len(),
            a + n == b,
            b <= l@.len(),
            forall|t: int| 0 <= t < i ==> l@[a + t] == s@[t],
        decreases n - i,
    {
        if l[a + i] != s.get_char(i) {
            proof {
                assert(l@.subrange(a as int, b as int)[i as int] == l@[a + i]);
            }
            return false;
        }
        i = i + 1;
    }
    proof {
        assert(l@.subrange(a as int, b as int) =~= s@);
    }
    true
}

/// Appends the characters of `l` to `s`.
pub fn append_chars(s: &mut String, l: &Vec<char>)
    ensures
        final(s)@ == old(s)@ + l@,
{
    proof {
        assert(old(s)@ + l@.take(0) =~= old(s)@);
    }
    let mut k: usize = 0;
    while k < l.len()
        invariant
            k <= l@.len(),
            s@ == old(s)@ + l@.take(k as int),
        decreases l@.len() - k,
    {
        push_char(s, l[k]);
        proof {
            assert(old(s)@ + l@.take(k + 1 as int) =~= (old(s)@ + l@.take(k as int)).push(
                l@[k as int],
            ));
        }
        k = k + 1;
    }
    proof {
        assert(l@.take(l@.len() as int) =~= l@);
    }
}

/// Splits a text into its lines, as `lines` describes.
pub fn split_lines(cs: &Vec<char>) -> (r: Vec<Vec<char>>)
    ensures
        views(r@) == lines(cs@),
{
    let n: usize = cs.len();
    let mut r: Vec<Vec<char>> = Vec::new();
    let mut i: usize = 0;
    proof {
        assert(views(r@) =~= Seq::<Seq<char>>::empty());
        assert(cs@.skip(0) =~= cs@);
        assert(views(r@) + lines(cs@) =~= lines(cs@));
    }
    while i < n
        invariant
            i <= n,
            n == cs@.len(),
            views(r@) + lines(cs@.skip(i as int)) == lines(cs@),
        decreases n - i,
    {
        let ghost prev = views(r@);
        let ghost u = cs@.skip(i as int);
        let j = find_char_from(cs, i, '\n');
        proof {
            assert forall|t: int| 0 <= t < (j - i) implies u[t] != '\n' by {
                assert(u[t] == cs@[t + i]);
            }
            if j < n {
                assert(u[j - i] == cs@[j as int]);
            }
            lemma_find_char_is(u, '\n', j - i);
        }
        if j == n {
            let piece = copy_range(cs, i, n);
            proof {
                assert(piece@ =~= u);
                assert(lines(u) == seq![u]);
            }
            r.push(piece);
            proof {
                assert(views(r@) =~= prev.push(u));
                assert(prev.push(u) =~= prev + seq![u]);
                assert(cs@.skip(n as int) =~= Seq::<char>::empty());
                assert(views(r@) + lines(cs@.skip(n as int)) =~= prev + seq![u]);
            }
            i = n;
        } else {
            let end: usize = if j > i && cs[j - 1] == '\r' {
                j - 1
            } else {
                j
            };
            let piece = copy_range(cs, i, end);
            proof {
                let f = (j - i) as int;
                assert(u.take(f) =~= cs@.subrange(i as int, j as int));
                if j > i && cs@[j - 1] == '\r' {
                    assert(u.take(f).last() == cs@[j - 1]);
                    assert(chomp(u.take(f)) == u.take(f).drop_last());
                    assert(piece@ =~= u.take(f).drop_last());
                } else {
                    assert(piece@ =~= chomp(u.take(f)));
                }
                assert(u.skip(f + 1) =~= cs@.skip(j + 1 as int));
                assert(lines(u) == seq![chomp(u.take(f))] + lines(u.skip(f + 1)));
            }
            r.push(piece);
            proof {
                assert(views(r@) =~= prev.push(piece@));
                assert(prev.push(piece@) + lines(cs@.skip(j + 1 as int)) =~= prev + (seq![
                    chomp(u.take((j - i) as int)),
                ] + lines(u.skip((j - i) + 1 as int))));
            }
            i = j + 1;
        }
    }
    proof {
        assert(cs@.skip(n as int) =~= Seq::<char>::empty());
        assert(views(r@) + lines(cs@.skip(n as int)) =~= views(r@));
    }
    r
}

/// Joins lines with `'\n'` into one string, as `join` describes.
pub fn join_lines(ls: &Vec<Vec<char>>) -> (r: String)
    ensures
        r@ == join(views(ls@)),
{
    let mut r: String = String::new();
    let mut i: usize = 0;
    proof {
        assert(r@ =~= join(views(ls@).take(0)));
    }
    while i < ls.len()
        invariant
            i <= ls@.len(),
            r@ == join(views(ls@).take(i as int)),
        decreases ls@.len() - i,
    {
        let ghost vs = views(ls@);
        let ghost prevj = join(vs.take(i as int));
        if i > 0 {
            push_char(&mut r, '\n');
        }
        append_chars(&mut r, &ls[i]);
        proof {
            assert(vs[i as int] == ls@[i as int]@);
            lemma_join_push(vs.take(i as int), vs[i as int]);
            assert(vs.take(i + 1 as int) =~= vs.take(i as int).push(vs[i as int]));
            if i == 0 {
                assert(prevj =~= Seq::<char>::empty());
                assert(r@ =~= vs[0]);
                assert(join(vs.take(1)) == vs[0]);
            } else {
                assert(prevj.push('\n') =~= prevj + seq!['\n']);
                assert(prevj.push('\n') + ls@[i as int]@ =~= prevj + seq!['\n'] + vs[i as int]);
            }
        }
        i = i + 1;
    }
    proof {
        assert(views(ls@).take(ls@.len() as int) =~= views(ls@));
    }
    r
}

/// Whether the needle occurs in `h` at position `i`.
pub fn match_at_exec(h: &Vec<char>, n: &Vec<char>, i: usize) -> (r: bool)
    requires
        i <= h@.len(),
    ensures
        r == match_at(h@, n@, i as int),
{
    if h.len() - i < n.len() {
        return false;
    }
    let hn: usize = h.len();
    let mut k: usize = 0;
    while k < n.len()
        invariant
            k <= n@.len(),
            hn == h@.len(),
            i + n@.len() <= hn,
            forall|t: int| 0 <= t < k ==> h@[i + t] == n@[t],
        decreases n@.len() - k,
    {
        if h[i + k] != n[k] {
            proof {
                assert(h@.subrange(i as int, i + n@.len())[k as int] == h@[i + k]);
            }
            return false;
        }
        k = k + 1;
    }
    proof {
        assert(h@.subrange(i as int, i + n@.len() as int) =~= n@);
    }
    true
}

/// First position where the needle occurs in `h`, if any.
pub fn find_sub_vec(h: &Vec<char>, n: &Vec<char>) -> (r: Option<usize>)
    ensures
        match r {
            Option::Some(i) => find_sub(h@, n@) == i as int,
            Option::None => find_sub(h@, n@) == -1,
        },
{
    if n.len() > h.len() {
        return None;
    }
    let mut i: usize = 0;
    while i <= h.len() - n.len()
        invariant
            n@.len() <= h@.len(),
            i <= h@.len() - n@.len() + 1,
            find_sub_from(h@, n@, 0) == find_sub_from(h@, n@, i as int),
        decreases h@.len() - i,
    {
        if match_at_exec(h, n, i) {
            proof {
                assert(find_sub_from(h@, n@, i as int) == i);
            }
            return Some(i);
        }
        proof {
            if n@.len() == 0 {
                assert(h@.subrange(i as int, i as int) =~= n@);
            }
            assert(find_sub_from(h@, n@, i as int) == find_sub_from(h@, n@, i + 1));
        }
        i = i + 1;
    }
    proof {
        assert(find_sub_from(h@, n@, i as int) == -1);
    }
    None
}

/// The bounds of the trimmed middle of a line: `trim(l)` is `l[a..b]`.
pub fn trim_bounds(l: &Vec<char>) -> (r: (usize, usize))
    ensures
        ({
            let (a, b) = r;
            a <= b <= l@.len() && trim(l@) == l@.subrange(a as int, b as int)
        }),
{
    let n: usize = l.len();
    let mut b: usize = n;
    proof {
        assert(l@.take(n as int) =~= l@);
    }
    while b > 0 && is_space_char(l[b - 1])
        invariant
            b <= n,
            n == l@.len(),
            trim_end(l@) == trim_end(l@.take(b as int)),
        decreases b,
    {
        proof {
            assert(l@.take(b as int).last() == l@[b - 1]);
            assert(l@.take(b as int).drop_last() =~= l@.take(b - 1 as int));
        }
        b = b - 1;
    }
    proof {
        if b > 0 {
            assert(l@.take(b as int).last() == l@[b - 1]);
        }
        assert(trim_end(l@.take(b as int)) == l@.take(b as int));
        assert(l@.take(b as int) =~= l@.subrange(0, b as int));
    }
    let mut a: usize = 0;
    while a < b && is_space_char(l[a])
        invariant
            a <= b <= l@.len(),
            trim_start(l@.subrange(0, b as int)) == trim_start(l@.subrange(a as int, b as int)),
        decreases b - a,
    {
        proof {
            assert(l@.subrange(a as int, b as int).first() == l@[a as int]);
            assert(l@.subrange(a as int, b as int).drop_first() =~= l@.subrange(
                a + 1 as int,
                b as int,
            ));
        }
        a = a + 1;
    }
    proof {
        if a < b {
            assert(l@.subrange(a as int, b as int).first() == l@[a as int]);
        }
        assert(trim_start(l@.subrange(a as int, b as int)) == l@.subrange(a as int, b as int));
    }
    (a, b)
}

} // verus!
