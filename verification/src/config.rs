//! The config toggler: rewriting which site include directive is active
//! in the main nginx config file.
//!
//! The rewrite first drops every line whose trimmed content equals one of
//! the four known include directives, then, when a variant was chosen and
//! the marker comment occurs in the remaining text, splits the marker's
//! line right after the first occurrence of the marker and inserts the
//! chosen directive, indented, as a line of its own between the two parts.
//! `rewritten` states the whole result; `rewrite_config` computes it.

use vstd::prelude::*;
use vstd::string::StrSliceExecFns;
use crate::text::{
    all_space, chomp, copy_range, ends_cr, find_sub, find_sub_from, find_sub_vec, is_space, join,
    join_lines,
    keep, lemma_find_sub_from, lemma_keep_concat, lemma_keep_id, lemma_keep_pred, lemma_keep_push,
    lemma_keep_sub, lemma_lines_join, lemma_lines_join_exact, lemma_lines_no_nl, lemma_trim_chomp,
    lemma_trim_end_spaces, lemma_trim_last, lemma_trim_start_spaces, lines, match_at, no_nl, norm,
    range_eq_str, split_lines, str_chars, str_eq, trim, trim_bounds, trim_end, trim_start, views,
};

verus! {

/// The mutually exclusive site configurations that can be made active.
#[derive(Clone, Copy, Debug, PartialEq, Eq, Structural)]
pub enum ConfigVariant {
    Main,
    H5,
    Tob,
    TobAdmin,
}

/// The name under which callers select a variant.
pub open spec fn variant_key(v: ConfigVariant) -> Seq<char> {
    match v {
        ConfigVariant::Main => "yx_main"@,
        ConfigVariant::H5 => "yx_h5"@,
        ConfigVariant::Tob => "yx_tob"@,
        ConfigVariant::TobAdmin => "yx_tob_admin"@,
    }
}

/// The include directive line that activates a variant.
pub open spec fn directive(v: ConfigVariant) -> Seq<char> {
    match v {
        ConfigVariant::Main => "include ./yx_conf/yx_main.conf;"@,
        ConfigVariant::H5 => "include ./yx_conf/yx_h5.conf;"@,
        ConfigVariant::Tob => "include ./yx_conf/yx_tob.conf;"@,
        ConfigVariant::TobAdmin => "include ./yx_conf/yx_tob_admin.conf;"@,
    }
}

/// The comment that marks where a directive is inserted.
pub open spec fn marker() -> Seq<char> {
    "# 这里写对应include的文件"@
}

/// The indentation put before an inserted directive.
pub open spec fn pad() -> Seq<char> {
    "        "@
}

/// A line that, trimmed, is one of the four known include directives.
pub open spec fn is_directive_line(l: Seq<char>) -> bool {
    trim(l) == directive(ConfigVariant::Main) || trim(l) == directive(ConfigVariant::H5) || trim(
        l,
    ) == directive(ConfigVariant::Tob) || trim(l) == directive(ConfigVariant::TobAdmin)
}

/// The predicate under which a line of the config file survives removal.
pub open spec fn keep_pred() -> spec_fn(Seq<char>) -> bool {
    |l: Seq<char>| !is_directive_line(l)
}

/// The lines of the file that are not known include directives.
pub open spec fn kept_lines(s: Seq<char>) -> Seq<Seq<char>> {
    keep(lines(s), keep_pred())
}

/// Index of the first line at or after `i` in which the marker occurs,
/// or `-1` if there is none.
pub open spec fn first_marker_from(ls: Seq<Seq<char>>, i: int) -> int
    decreases ls.len() - i,
{
    if i < 0 || i >= ls.len() {
        -1
    } else if find_sub(ls[i], marker()) >= 0 {
        i
    } else {
        first_marker_from(ls, i + 1)
    }
}

/// Index of the first line in which the marker occurs, or `-1`.
pub open spec fn first_marker_line(ls: Seq<Seq<char>>) -> int {
    first_marker_from(ls, 0)
}

pub proof fn lemma_first_marker_from(ls: Seq<Seq<char>>, i: int)
    requires
        0 <= i,
    ensures
        first_marker_from(ls, i) >= 0 ==> i <= first_marker_from(ls, i) < ls.len() && find_sub(
            ls[first_marker_from(ls, i)],
            marker(),
        ) >= 0,
    decreases ls.len() - i,
{
    if i >= ls.len() {
    } else if find_sub(ls[i], marker()) >= 0 {
    } else {
        lemma_first_marker_from(ls, i + 1);
    }
}

/// The lines after inserting the directive of `v` behind the first
/// occurrence of the marker: the marker's line is cut right after that
/// occurrence, and the directive, indented, continues with the cut tail.
/// Without a marker the lines stay as they are.
pub open spec fn inserted_lines(ls: Seq<Seq<char>>, v: ConfigVariant) -> Seq<Seq<char>> {
    let k = first_marker_line(ls);
    if k < 0 {
        ls
    } else {
        let line = ls[k];
        let c = find_sub(line, marker()) + marker().len();
        ls.take(k) + seq![line.take(c as int), pad() + directive(v) + line.skip(c as int)]
            + ls.skip(k + 1)
    }
}

/// The full content of the config file after `set_active_config`:
/// known directives removed everywhere, then, for a chosen variant,
/// its directive inserted after the marker.
pub open spec fn rewritten(s: Seq<char>, v: Option<ConfigVariant>) -> Seq<char> {
    match v {
        Option::None => join(kept_lines(s)),
        Option::Some(u) => join(inserted_lines(kept_lines(s), u)),
    }
}

/// Which variant a caller-supplied name selects.
pub open spec fn spec_variant_from_name(n: Seq<char>) -> Option<ConfigVariant> {
    if n == variant_key(ConfigVariant::Main) {
        Option::Some(ConfigVariant::Main)
    } else if n == variant_key(ConfigVariant::H5) {
        Option::Some(ConfigVariant::H5)
    } else if n == variant_key(ConfigVariant::Tob) {
        Option::Some(ConfigVariant::Tob)
    } else if n == variant_key(ConfigVariant::TobAdmin) {
        Option::Some(ConfigVariant::TobAdmin)
    } else {
        Option::None
    }
}

/// Decodes a variant name; any other name selects no variant.
pub fn variant_from_name(name: &str) -> (r: Option<ConfigVariant>)
    ensures
        r == spec_variant_from_name(name@),
{
    if str_eq(name, "yx_main") {
        Some(ConfigVariant::Main)
    } else if str_eq(name, "yx_h5") {
        Some(ConfigVariant::H5)
    } else if str_eq(name, "yx_tob") {
        Some(ConfigVariant::Tob)
    } else if str_eq(name, "yx_tob_admin") {
        Some(ConfigVariant::TobAdmin)
    } else {
        None
    }
}

/// The directive of a variant, as written into the file.
pub fn directive_str(v: ConfigVariant) -> (r: &'static str)
    ensures
        r@ == directive(v),
{
    match v {
        ConfigVariant::Main => "include ./yx_conf/yx_main.conf;",
        ConfigVariant::H5 => "include ./yx_conf/yx_h5.conf;",
        ConfigVariant::Tob => "include ./yx_conf/yx_tob.conf;",
        ConfigVariant::TobAdmin => "include ./yx_conf/yx_tob_admin.conf;",
    }
}

/// The marker comment, as a character vector.
fn marker_chars() -> (r: Vec<char>)
    ensures
        r@ == marker(),
{
    str_chars("# 这里写对应include的文件")
}

/// Whether the line, trimmed, is one of the known include directives.
fn line_is_directive(l: &Vec<char>) -> (r: bool)
    ensures
        r == is_directive_line(l@),
{
    let (a, b) = trim_bounds(l);
    range_eq_str(l, a, b, "include ./yx_conf/yx_main.conf;") || range_eq_str(
        l,
        a,
        b,
        "include ./yx_conf/yx_h5.conf;",
    ) || range_eq_str(l, a, b, "include ./yx_conf/yx_tob.conf;") || range_eq_str(
        l,
        a,
        b,
        "include ./yx_conf/yx_tob_admin.conf;",
    )
}

/// The first line in which the marker occurs, with the offset of that
/// occurrence inside the line.
fn find_marker_line(ls: &Vec<Vec<char>>, m: &Vec<char>) -> (r: Option<(usize, usize)>)
    requires
        m@ == marker(),
    ensures
        match r {
            Option::Some(kc) => {
                &&& first_marker_line(views(ls@)) == kc.0 as int
                &&& kc.0 < ls@.len()
                &&& find_sub(ls@[kc.0 as int]@, marker()) == kc.1 as int
            },
            Option::None => first_marker_line(views(ls@)) == -1,
        },
{
    let n: usize = ls.len();
    let mut k: usize = 0;
    while k < n
        invariant
            k <= n,
            n == ls@.len(),
            m@ == marker(),
            first_marker_from(views(ls@), 0) == first_marker_from(views(ls@), k as int),
        decreases n - k,
    {
        match find_sub_vec(&ls[k], m) {
            Some(c) => {
                proof {
                    assert(views(ls@)[k as int] == ls@[k as int]@);
                    assert(first_marker_from(views(ls@), k as int) == k);
                }
                return Some((k, c));
            },
            None => {
                proof {
                    assert(views(ls@)[k as int] == ls@[k as int]@);
                    assert(first_marker_from(views(ls@), k as int) == first_marker_from(
                        views(ls@),
                        k + 1,
                    ));
                }
            },
        }
        k = k + 1;
    }
    proof {
        assert(first_marker_from(views(ls@), k as int) == -1);
    }
    None
}

/// Computes the new content of the config file: every known include
/// directive line removed, and, when a variant is chosen and the marker
/// occurs, the variant's directive inserted right after the marker.
pub fn rewrite_config(content: &str, variant: Option<ConfigVariant>) -> (r: String)
    ensures
        r@ == rewritten(content@, variant),
{
    let cs = str_chars(content);
    let ls = split_lines(&cs);
    let n: usize = ls.len();
    let mut kept: Vec<Vec<char>> = Vec::new();
    let mut i: usize = 0;
    proof {
        assert(views(ls@).take(0) =~= Seq::<Seq<char>>::empty());
        assert(views(kept@) =~= keep(views(ls@).take(0), keep_pred()));
    }
    while i < n
        invariant
            i <= n,
            n == ls@.len(),
            views(ls@) == lines(content@),
            views(kept@) == keep(views(ls@).take(i as int), keep_pred()),
        decreases n - i,
    {
        let ghost prev = views(kept@);
        let drop_it = line_is_directive(&ls[i]);
        proof {
            lemma_keep_push(views(ls@).take(i as int), keep_pred(), views(ls@)[i as int]);
            assert(views(ls@).take(i + 1 as int) =~= views(ls@).take(i as int).push(
                views(ls@)[i as int],
            ));
            assert(views(ls@)[i as int] == ls@[i as int]@);
            assert(keep_pred()(ls@[i as int]@) == !is_directive_line(ls@[i as int]@));
        }
        if !drop_it {
            let line = copy_range(&ls[i], 0, ls[i].len());
            proof {
                assert(line@ =~= ls@[i as int]@);
            }
            kept.push(line);
            proof {
                assert(views(kept@) =~= prev.push(ls@[i as int]@));
            }
        }
        i = i + 1;
    }
    proof {
        assert(views(ls@).take(n as int) =~= views(ls@));
        assert(views(kept@) == kept_lines(content@));
    }
    match variant {
        None => join_lines(&kept),
        Some(v) => {
            let ghost ks = views(kept@);
            let m = marker_chars();
            match find_marker_line(&kept, &m) {
                None => {
                    proof {
                        assert(inserted_lines(ks, v) == ks);
                    }
                    join_lines(&kept)
                },
                Some((k, c0)) => {
                    proof {
                        lemma_find_sub_from(kept@[k as int]@, marker(), 0);
                        assert(match_at(kept@[k as int]@, marker(), c0 as int));
                    }
                    let kn: usize = kept.len();
                    let line = kept.remove(k);
                    let llen: usize = line.len();
                    proof {
                        assert(k < kn);
                        assert(c0 + m@.len() <= llen);
                    }
                    let c: usize = c0 + m.len();
                    let alpha = copy_range(&line, 0, c);
                    let mut newline = str_chars("        ");
                    let mut dirv = str_chars(directive_str(v));
                    newline.append(&mut dirv);
                    let mut beta = copy_range(&line, c, line.len());
                    newline.append(&mut beta);
                    kept.insert(k, alpha);
                    kept.insert(k + 1, newline);
                    proof {
                        let kk = k as int;
                        let cc = c as int;
                        let lv = ks[kk];
                        assert(newline@ == pad() + directive(v) + lv.skip(cc));
                        assert(views(kept@) =~= ks.take(kk) + seq![
                            lv.take(cc),
                            pad() + directive(v) + lv.skip(cc),
                        ] + ks.skip(kk + 1));
                        assert(views(kept@) == inserted_lines(ks, v));
                    }
                    join_lines(&kept)
                },
            }
        },
    }
}

// ------------------------------------------------------------------
// Facts about the fixed strings
// ------------------------------------------------------------------

proof fn lemma_directive_facts(v: ConfigVariant)
    ensures
        directive(v).len() > 0,
        no_nl(directive(v)),
        !is_space(directive(v).first()),
        directive(v).last() == ';',
        !is_space(directive(v).last()),
        trim(directive(v)) == directive(v),
{
    reveal_strlit("include ./yx_conf/yx_main.conf;");
    reveal_strlit("include ./yx_conf/yx_h5.conf;");
    reveal_strlit("include ./yx_conf/yx_tob.conf;");
    reveal_strlit("include ./yx_conf/yx_tob_admin.conf;");
    let d = directive(v);
    assert(d.last() == ';');
    assert(!is_space(d.last()));
    assert(trim_end(d) == d);
    assert(!is_space(d.first()));
    assert(trim_start(d) == d);
}

proof fn lemma_directive_distinct(v: ConfigVariant, w: ConfigVariant)
    requires
        v != w,
    ensures
        directive(v) != directive(w),
{
    reveal_strlit("include ./yx_conf/yx_main.conf;");
    reveal_strlit("include ./yx_conf/yx_h5.conf;");
    reveal_strlit("include ./yx_conf/yx_tob.conf;");
    reveal_strlit("include ./yx_conf/yx_tob_admin.conf;");
    assert(directive(v).len() != directive(w).len());
}

proof fn lemma_marker_facts()
    ensures
        marker().len() > 0,
        no_nl(marker()),
        !is_space(marker().last()),
        marker().last() != ';',
{
    reveal_strlit("# 这里写对应include的文件");
}

proof fn lemma_pad_facts()
    ensures
        all_space(pad()),
        no_nl(pad()),
{
    reveal_strlit("        ");
    assert forall|t: int| 0 <= t < pad().len() implies is_space(pad()[t]) && pad()[t] != '\n' by {
        assert(pad()[t] == ' ');
    }
}

// ------------------------------------------------------------------
// Shape of the kept lines
// ------------------------------------------------------------------

/// Joining these lines and splitting the join gives them back: no line
/// but the last ends in a carriage return, and the last line is either
/// non-empty or the single empty line.
pub open spec fn stable_lines(ls: Seq<Seq<char>>) -> bool {
    &&& forall|k: int| 0 <= k < ls.len() - 1 ==> !ends_cr(#[trigger] ls[k])
    &&& ls.len() > 0 ==> (ls.last().len() > 0 || ls == seq![Seq::<char>::empty()])
}

/// The first marker occurrence, when there is one, reaches exactly to
/// the end of its line.
pub open spec fn marker_closes_line(ls: Seq<Seq<char>>) -> bool {
    let k = first_marker_line(ls);
    k >= 0 ==> find_sub(ls[k], marker()) + marker().len() == ls[k].len()
}

/// Only whitespace follows the first marker occurrence on its line.
pub open spec fn marker_tail_blank(ls: Seq<Seq<char>>) -> bool {
    let k = first_marker_line(ls);
    k >= 0 ==> all_space(ls[k].skip(find_sub(ls[k], marker()) + marker().len() as int))
}

/// How many of the lines are, trimmed, exactly the line `d`.
pub open spec fn count_dir(ls: Seq<Seq<char>>, d: Seq<char>) -> nat
    decreases ls.len(),
{
    if ls.len() == 0 {
        0
    } else {
        ((if trim(ls[0]) == d {
            1nat
        } else {
            0nat
        }) + count_dir(ls.drop_first(), d)) as nat
    }
}

proof fn lemma_count_concat(a: Seq<Seq<char>>, b: Seq<Seq<char>>, d: Seq<char>)
    ensures
        count_dir(a + b, d) == count_dir(a, d) + count_dir(b, d),
    decreases a.len(),
{
    if a.len() == 0 {
        assert(a + b =~= b);
    } else {
        assert((a + b).drop_first() =~= a.drop_first() + b);
        assert((a + b)[0] == a[0]);
        lemma_count_concat(a.drop_first(), b, d);
    }
}

proof fn lemma_count_zero(ls: Seq<Seq<char>>, d: Seq<char>)
    requires
        forall|k: int| 0 <= k < ls.len() ==> trim(#[trigger] ls[k]) != d,
    ensures
        count_dir(ls, d) == 0,
    decreases ls.len(),
{
    if ls.len() > 0 {
        assert forall|k: int| 0 <= k < ls.drop_first().len() implies trim(
            #[trigger] ls.drop_first()[k],
        ) != d by {
            assert(ls.drop_first()[k] == ls[k + 1]);
        }
        lemma_count_zero(ls.drop_first(), d);
    }
}

proof fn lemma_count_pointwise(a: Seq<Seq<char>>, b: Seq<Seq<char>>, d: Seq<char>)
    requires
        a.len() == b.len(),
        forall|k: int| 0 <= k < a.len() ==> trim(#[trigger] a[k]) == trim(#[trigger] b[k]),
    ensures
        count_dir(a, d) == count_dir(b, d),
    decreases a.len(),
{
    if a.len() > 0 {
        assert forall|k: int| 0 <= k < a.drop_first().len() implies trim(
            #[trigger] a.drop_first()[k],
        ) == trim(#[trigger] b.drop_first()[k]) by {
            assert(a.drop_first()[k] == a[k + 1]);
            assert(b.drop_first()[k] == b[k + 1]);
        }
        lemma_count_pointwise(a.drop_first(), b.drop_first(), d);
        assert(trim(a[0]) == trim(b[0]));
    }
}

/// Splitting a join changes no line in a way that `trim` can see, and
/// drops only an empty last line, so the directive counts are kept.
proof fn lemma_count_norm(ls: Seq<Seq<char>>, d: Seq<char>)
    requires
        d.len() > 0,
    ensures
        count_dir(norm(ls), d) == count_dir(ls, d),
{
    if ls.len() > 0 {
        let m = Seq::new(ls.len(), |i: int| if i < ls.len() - 1 { chomp(ls[i]) } else { ls[i] });
        assert forall|k: int| 0 <= k < m.len() implies trim(#[trigger] m[k]) == trim(
            #[trigger] ls[k],
        ) by {
            if k < ls.len() - 1 {
                lemma_trim_chomp(ls[k]);
            }
        }
        lemma_count_pointwise(m, ls, d);
        if m.last().len() == 0 {
            assert(m =~= m.drop_last() + seq![m.last()]);
            lemma_count_concat(m.drop_last(), seq![m.last()], d);
            assert(trim(m.last()) =~= Seq::<char>::empty());
            assert(trim(m.last()) != d);
            assert(count_dir(seq![m.last()], d) == 0) by {
                assert(trim_end(m.last()) == m.last());
                assert(trim(m.last()) == m.last());
                assert(trim(m.last()) != d);
                assert(seq![m.last()].drop_first() =~= Seq::<Seq<char>>::empty());
                assert(count_dir(Seq::<Seq<char>>::empty(), d) == 0);
            }
        }
    }
}

// ------------------------------------------------------------------
// The laws of the rewrite
// ------------------------------------------------------------------

/// Every line that removal keeps is not a directive line, and carries
/// no newline.
proof fn lemma_kept_shape(s: Seq<char>)
    ensures
        forall|k: int| 0 <= k < kept_lines(s).len() ==> !is_directive_line(
            #[trigger] kept_lines(s)[k],
        ),
        forall|k: int| 0 <= k < kept_lines(s).len() ==> no_nl(#[trigger] kept_lines(s)[k]),
{
    lemma_lines_no_nl(s);
    lemma_keep_pred(lines(s), keep_pred());
    lemma_keep_sub(lines(s), keep_pred(), |l: Seq<char>| no_nl(l));
    assert forall|k: int| 0 <= k < kept_lines(s).len() implies !is_directive_line(
        #[trigger] kept_lines(s)[k],
    ) && no_nl(kept_lines(s)[k]) by {
        assert(keep_pred()(kept_lines(s)[k]));
        assert((|l: Seq<char>| no_nl(l))(kept_lines(s)[k]));
    }
}

/// The inserted line is a directive line of exactly the chosen variant.
proof fn lemma_inserted_line_trim(v: ConfigVariant, beta: Seq<char>)
    requires
        all_space(beta),
    ensures
        trim(pad() + directive(v) + beta) == directive(v),
{
    lemma_pad_facts();
    lemma_directive_facts(v);
    lemma_trim_end_spaces(pad() + directive(v), beta);
    assert((pad() + directive(v)).last() == directive(v).last());
    assert(trim_end(pad() + directive(v)) == pad() + directive(v));
    lemma_trim_start_spaces(pad(), directive(v));
    assert(trim_start(directive(v)) == directive(v));
}

/// A line that ends with the marker is not a directive line.
proof fn lemma_marker_end_not_directive(l: Seq<char>)
    requires
        l.len() > 0,
        l.last() == marker().last(),
        marker().len() > 0,
    ensures
        !is_directive_line(l),
{
    lemma_marker_facts();
    lemma_trim_last(l);
    assert forall|v: ConfigVariant| trim(l) != directive(v) by {
        lemma_directive_facts(v);
        if trim(l) == directive(v) {
            assert(trim(l).last() == ';');
        }
    }
    assert(trim(l) != directive(ConfigVariant::Main));
    assert(trim(l) != directive(ConfigVariant::H5));
    assert(trim(l) != directive(ConfigVariant::Tob));
    assert(trim(l) != directive(ConfigVariant::TobAdmin));
}

/// Clearing: after a rewrite that chooses no variant, no line of the
/// file is one of the four known include directives, whatever the file
/// held before.
pub proof fn lemma_rewrite_clears(s: Seq<char>)
    ensures
        forall|k: int| 0 <= k < lines(rewritten(s, Option::None)).len() ==> !is_directive_line(
            #[trigger] lines(rewritten(s, Option::None))[k],
        ),
{
    let ks = kept_lines(s);
    lemma_kept_shape(s);
    lemma_lines_join(ks);
    let out = lines(rewritten(s, Option::None));
    assert(out == norm(ks));
    if ks.len() > 0 {
        let m = Seq::new(ks.len(), |i: int| if i < ks.len() - 1 { chomp(ks[i]) } else { ks[i] });
        assert forall|k: int| 0 <= k < out.len() implies !is_directive_line(#[trigger] out[k]) by {
            assert(out[k] == m[k]);
            lemma_trim_chomp(ks[k]);
            assert(trim(m[k]) == trim(ks[k]));
            assert(!is_directive_line(ks[k]));
        }
    }
}

/// Mutual exclusivity: when the marker occurs in the remaining lines
/// and only whitespace follows it on its line, the rewritten file holds
/// exactly one known include line, the one of the chosen variant, and
/// none of the other three.
pub proof fn lemma_rewrite_exclusive(s: Seq<char>, v: ConfigVariant)
    requires
        first_marker_line(kept_lines(s)) >= 0,
        marker_tail_blank(kept_lines(s)),
    ensures
        count_dir(lines(rewritten(s, Option::Some(v))), directive(v)) == 1,
        forall|w: ConfigVariant| w != v ==> count_dir(
            lines(rewritten(s, Option::Some(v))),
            directive(w),
        ) == 0,
{
    let ks = kept_lines(s);
    lemma_kept_shape(s);
    lemma_marker_facts();
    lemma_pad_facts();
    lemma_directive_facts(v);
    let k = first_marker_line(ks);
    lemma_first_marker_from(ks, 0);
    assert(0 <= k < ks.len());
    let line = ks[k];
    let c0 = find_sub(line, marker());
    let c = c0 + marker().len() as int;
    lemma_find_sub_from(line, marker(), 0);
    assert(match_at(line, marker(), c0));
    let alpha = line.take(c);
    let beta = line.skip(c);
    let ins = pad() + directive(v) + beta;
    let ks2 = inserted_lines(ks, v);
    assert(ks2 == ks.take(k) + seq![alpha, ins] + ks.skip(k + 1));

    // every element of ks2 is newline-free
    assert forall|t: int| 0 <= t < ks2.len() implies no_nl(#[trigger] ks2[t]) by {
        if t < k {
            assert(ks2[t] == ks[t]);
        } else if t == k {
            assert(ks2[t] == alpha);
            assert(no_nl(line));
            assert forall|u: int| 0 <= u < alpha.len() implies alpha[u] != '\n' by {
                assert(alpha[u] == line[u]);
            }
        } else if t == k + 1 {
            assert(ks2[t] == ins);
            assert forall|u: int| 0 <= u < ins.len() implies ins[u] != '\n' by {
                if u < pad().len() {
                    assert(ins[u] == pad()[u]);
                } else if u < pad().len() + directive(v).len() {
                    assert(ins[u] == directive(v)[u - pad().len()]);
                } else {
                    assert(ins[u] == beta[u - pad().len() - directive(v).len()]);
                    assert(beta[u - pad().len() - directive(v).len()] == line[u - pad().len()
                        - directive(v).len() + c]);
                }
            }
        } else {
            assert(ks2[t] == ks[t - 1]);
        }
    }
    lemma_lines_join(ks2);
    let out = lines(rewritten(s, Option::Some(v)));
    assert(out == norm(ks2));

    // the counts over the inserted shape
    lemma_count_concat(ks.take(k) + seq![alpha, ins], ks.skip(k + 1), directive(v));
    lemma_count_concat(ks.take(k), seq![alpha, ins], directive(v));
    assert(trim(ins) == directive(v)) by {
        lemma_inserted_line_trim(v, beta);
    }
    assert(alpha.len() > 0 && alpha.last() == marker().last()) by {
        assert(line.subrange(c0, c0 + marker().len() as int) == marker());
        assert(line[c - 1] == marker().last());
        assert(alpha.last() == line[c - 1]);
    }
    lemma_marker_end_not_directive(alpha);
    assert(count_dir(seq![alpha, ins], directive(v)) == 1) by {
        let pair = seq![alpha, ins];
        let single = seq![ins];
        assert(single[0] == ins);
        assert(single.drop_first() =~= Seq::<Seq<char>>::empty());
        assert(count_dir(Seq::<Seq<char>>::empty(), directive(v)) == 0);
        assert(count_dir(single, directive(v)) == 1);
        assert(pair[0] == alpha);
        assert(trim(alpha) != directive(v));
        assert(pair.drop_first() =~= single);
        assert(count_dir(pair, directive(v)) == count_dir(single, directive(v)));
    }
    assert forall|t: int| 0 <= t < ks.take(k).len() implies trim(#[trigger] ks.take(k)[t])
        != directive(v) by {
        assert(ks.take(k)[t] == ks[t]);
        assert(!is_directive_line(ks[t]));
    }
    lemma_count_zero(ks.take(k), directive(v));
    assert forall|t: int| 0 <= t < ks.skip(k + 1).len() implies trim(#[trigger] ks.skip(k + 1)[t])
        != directive(v) by {
        assert(ks.skip(k + 1)[t] == ks[t + k + 1]);
        assert(!is_directive_line(ks[t + k + 1]));
    }
    lemma_count_zero(ks.skip(k + 1), directive(v));
    lemma_count_norm(ks2, directive(v));
    assert(count_dir(out, directive(v)) == 1);

    assert forall|w: ConfigVariant| w != v implies count_dir(out, directive(w)) == 0 by {
        lemma_directive_facts(w);
        lemma_directive_distinct(v, w);
        lemma_count_concat(ks.take(k) + seq![alpha, ins], ks.skip(k + 1), directive(w));
        lemma_count_concat(ks.take(k), seq![alpha, ins], directive(w));
        assert(count_dir(seq![alpha, ins], directive(w)) == 0) by {
            let pair = seq![alpha, ins];
            let single = seq![ins];
            assert(single[0] == ins);
            assert(single.drop_first() =~= Seq::<Seq<char>>::empty());
            assert(count_dir(Seq::<Seq<char>>::empty(), directive(w)) == 0);
            assert(trim(ins) == directive(v));
            assert(trim(ins) != directive(w));
            assert(count_dir(single, directive(w)) == 0);
            assert(pair[0] == alpha);
            assert(trim(alpha) != directive(w));
            assert(pair.drop_first() =~= single);
            assert(count_dir(pair, directive(w)) == count_dir(single, directive(w)));
        }
        assert forall|t: int| 0 <= t < ks.take(k).len() implies trim(#[trigger] ks.take(k)[t])
            != directive(w) by {
            assert(ks.take(k)[t] == ks[t]);
            assert(!is_directive_line(ks[t]));
        }
        lemma_count_zero(ks.take(k), directive(w));
        assert forall|t: int| 0 <= t < ks.skip(k + 1).len() implies trim(
            #[trigger] ks.skip(k + 1)[t],
        ) != directive(w) by {
            assert(ks.skip(k + 1)[t] == ks[t + k + 1]);
            assert(!is_directive_line(ks[t + k + 1]));
        }
        lemma_count_zero(ks.skip(k + 1), directive(w));
        lemma_count_norm(ks2, directive(w));
    }
}

/// Idempotence: rewriting twice with the same choice yields the same
/// content as rewriting once, for any chosen variant or none. This
/// holds whenever the lines that removal keeps survive a join/split
/// round trip unchanged and, when a variant is inserted, the first
/// marker occurrence reaches exactly to the end of its line; a file in
/// which text follows the marker on the marker's line, for instance,
/// gains a differently shaped line on each rewrite.
pub proof fn lemma_rewrite_idempotent(s: Seq<char>, v: Option<ConfigVariant>)
    requires
        stable_lines(kept_lines(s)),
        v is Some ==> marker_closes_line(kept_lines(s)),
    ensures
        rewritten(rewritten(s, v), v) == rewritten(s, v),
{
    let ks = kept_lines(s);
    lemma_kept_shape(s);
    lemma_marker_facts();

    if ks.len() == 1 && ks[0].len() == 0 {
        // the kept lines are one empty line: the join is empty, and a
        // second rewrite keeps it empty
        let t = join(ks);
        assert(t =~= Seq::<char>::empty());
        assert(lines(t) =~= Seq::<Seq<char>>::empty());
        assert(keep(lines(t), keep_pred()) =~= Seq::<Seq<char>>::empty());
        match v {
            Option::None => {
                assert(join(kept_lines(t)) =~= t);
            },
            Option::Some(u) => {
                assert(find_sub_from(ks[0], marker(), 0) == -1);
                assert(first_marker_from(ks, 1) == -1);
                assert(first_marker_line(ks) == -1);
                assert(inserted_lines(ks, u) == ks);
                assert(first_marker_line(kept_lines(t)) == -1);
                assert(inserted_lines(kept_lines(t), u) == kept_lines(t));
                assert(join(kept_lines(t)) =~= t);
            },
        }
        return;
    }
    // otherwise no kept line but the last ends in a carriage return and
    // the last kept line, if any, is non-empty
    assert(ks.len() > 0 ==> ks.last().len() > 0);
    match v {
        Option::None => {
            let t = rewritten(s, Option::None);
            lemma_lines_join_exact(ks);
            assert(lines(t) == ks);
            assert forall|k: int| 0 <= k < ks.len() implies keep_pred()(#[trigger] ks[k]) by {
                assert(!is_directive_line(ks[k]));
            }
            lemma_keep_id(ks, keep_pred());
            assert(kept_lines(t) == ks);
        },
        Option::Some(u) => {
            let k = first_marker_line(ks);
            lemma_first_marker_from(ks, 0);
            if k < 0 {
                assert(inserted_lines(ks, u) == ks);
                let t = rewritten(s, v);
                assert(t == join(ks));
                lemma_lines_join_exact(ks);
                assert(lines(t) == ks);
                assert forall|j: int| 0 <= j < ks.len() implies keep_pred()(#[trigger] ks[j]) by {
                    assert(!is_directive_line(ks[j]));
                }
                lemma_keep_id(ks, keep_pred());
                assert(kept_lines(t) == ks);
                assert(inserted_lines(kept_lines(t), u) == ks);
            } else {
                lemma_pad_facts();
                lemma_directive_facts(u);
                let line = ks[k];
                let c0 = find_sub(line, marker());
                let c = c0 + marker().len() as int;
                lemma_find_sub_from(line, marker(), 0);
                assert(match_at(line, marker(), c0));
                assert(c == line.len());
                let alpha = line.take(c);
                assert(alpha =~= line);
                let beta = line.skip(c);
                assert(beta =~= Seq::<char>::empty());
                assert(all_space(beta));
                let ins = pad() + directive(u) + beta;
                assert(ins =~= pad() + directive(u));
                let ks2 = inserted_lines(ks, u);
                assert(ks2 == ks.take(k) + seq![alpha, ins] + ks.skip(k + 1));
                assert(line.len() > 0 && line.last() == marker().last()) by {
                    assert(line.subrange(c0, c0 + marker().len() as int) == marker());
                    assert(line[c - 1] == marker().last());
                }

                // the inserted shape splits back into exactly its lines
                assert forall|t2: int| 0 <= t2 < ks2.len() implies no_nl(#[trigger] ks2[t2]) by {
                    if t2 < k {
                        assert(ks2[t2] == ks[t2]);
                    } else if t2 == k {
                        assert(ks2[t2] == line);
                    } else if t2 == k + 1 {
                        assert(ks2[t2] == ins);
                        assert forall|w: int| 0 <= w < ins.len() implies ins[w] != '\n' by {
                            if w < pad().len() {
                                assert(ins[w] == pad()[w]);
                            } else {
                                assert(ins[w] == directive(u)[w - pad().len()]);
                            }
                        }
                    } else {
                        assert(ks2[t2] == ks[t2 - 1]);
                    }
                }
                assert forall|t2: int| 0 <= t2 < ks2.len() - 1 implies !ends_cr(
                    #[trigger] ks2[t2],
                ) by {
                    if t2 < k {
                        assert(ks2[t2] == ks[t2]);
                        assert(!ends_cr(ks[t2]));
                    } else if t2 == k {
                        assert(ks2[t2] == line);
                        if line.last() == '\r' {
                            assert(is_space(marker().last()));
                        }
                    } else if t2 == k + 1 {
                        assert(ks2[t2] == ins);
                        assert(ins.last() == directive(u).last());
                        if ins.last() == '\r' {
                            assert(is_space(directive(u).last()));
                        }
                    } else {
                        assert(ks2[t2] == ks[t2 - 1]);
                        assert(!ends_cr(ks[t2 - 1]));
                    }
                }
                assert(ks2.last().len() > 0) by {
                    if k + 1 == ks2.len() - 1 {
                        assert(ks2.last() == ins);
                    } else {
                        assert(ks2.last() == ks.last());
                    }
                }
                lemma_lines_join_exact(ks2);
                let t = join(ks2);
                assert(lines(t) == ks2);

                // removal in the second rewrite drops exactly the
                // inserted directive line
                lemma_keep_concat(ks.take(k) + seq![alpha, ins], ks.skip(k + 1), keep_pred());
                lemma_keep_concat(ks.take(k), seq![alpha, ins], keep_pred());
                assert forall|j: int| 0 <= j < ks.take(k).len() implies keep_pred()(
                    #[trigger] ks.take(k)[j],
                ) by {
                    assert(ks.take(k)[j] == ks[j]);
                    assert(!is_directive_line(ks[j]));
                }
                lemma_keep_id(ks.take(k), keep_pred());
                assert forall|j: int| 0 <= j < ks.skip(k + 1).len() implies keep_pred()(
                    #[trigger] ks.skip(k + 1)[j],
                ) by {
                    assert(ks.skip(k + 1)[j] == ks[j + k + 1]);
                    assert(!is_directive_line(ks[j + k + 1]));
                }
                lemma_keep_id(ks.skip(k + 1), keep_pred());
                lemma_inserted_line_trim(u, beta);
                assert(is_directive_line(ins));
                lemma_marker_end_not_directive(line);
                assert(keep(seq![alpha, ins], keep_pred()) == seq![alpha]) by {
                    let pair = seq![alpha, ins];
                    let single = seq![ins];
                    assert(single[0] == ins);
                    assert(!keep_pred()(ins));
                    assert(single.drop_first() =~= Seq::<Seq<char>>::empty());
                    assert(keep(Seq::<Seq<char>>::empty(), keep_pred())
                        =~= Seq::<Seq<char>>::empty());
                    assert(keep(single, keep_pred()) =~= Seq::<Seq<char>>::empty());
                    assert(pair[0] == alpha);
                    assert(keep_pred()(alpha));
                    assert(pair.drop_first() =~= single);
                    assert(keep(pair, keep_pred()) =~= seq![alpha]);
                }
                assert(keep(ks2, keep_pred()) =~= ks) by {
                    assert(keep(ks2, keep_pred()) == ks.take(k) + seq![alpha] + ks.skip(k + 1));
                }
                assert(kept_lines(t) == ks);
                assert(rewritten(t, v) == join(inserted_lines(ks, u)));
            }
        },
    }
}

/// Computes the new config content for a caller-supplied variant name;
/// an unrecognised name removes the known directives and inserts nothing.
pub fn rewrite_config_named(content: &str, name: &str) -> (r: String)
    ensures
        r@ == rewritten(content@, spec_variant_from_name(name@)),
{
    let v = variant_from_name(name);
    rewrite_config(content, v)
}

} // verus!
