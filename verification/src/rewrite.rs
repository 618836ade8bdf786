//! The source rewriter: an ordered pipeline of pattern-based text passes.
//! Each pass is specified as a function on `Seq<char>` and implemented on
//! `Vec<char>`; `gen_consts` strings the passes together.

use vstd::prelude::*;
use crate::table::{ConstantTable, ConstDefV, eq_str};
use crate::text::{
    is_word_char, occurs_at, first_occurrence, spec_find_char, spec_line_end, spec_skip_ws,
    spec_skip_word, spec_skip_blank, spec_is_comment_line, str_to_chars, chars_to_string, match_at,
    find_sub, find_char, line_end, skip_ws, skip_word, skip_blank, is_comment_line, push_all,
    push_range, push_str_chars, word_char, lemma_first_occurrence_bounds, lemma_find_char_bounds,
    lemma_line_end_bounds, lemma_skip_ws_bounds, lemma_skip_word_bounds,
};

verus! {

/// The line that opens a generated constant block.
pub open spec fn begin_marker() -> Seq<char> {
    "    // This line is used for generating constants DO NOT REMOVE!\n"@
}

/// The line (plus a blank line) that closes a generated constant block.
pub open spec fn end_marker() -> Seq<char> {
    "    // End of generating constants!\n\n"@
}

fn begin_marker_chars() -> (r: Vec<char>)
    ensures
        r@ == begin_marker(),
{
    str_to_chars("    // This line is used for generating constants DO NOT REMOVE!\n")
}

fn end_marker_chars() -> (r: Vec<char>)
    ensures
        r@ == end_marker(),
{
    str_to_chars("    // End of generating constants!\n\n")
}

/// The names of the table's constants, in table order.
pub open spec fn tbl_names(tbl: Seq<ConstDefV>) -> Seq<Seq<char>> {
    Seq::new(tbl.len(), |i: int| tbl[i].name)
}

/// The texts of a sequence of character vectors.
pub open spec fn views_of(s: Seq<Vec<char>>) -> Seq<Seq<char>> {
    Seq::new(s.len(), |i: int| s[i]@)
}

/// Whether `s` is one of the names.
pub open spec fn name_in(names: Seq<Seq<char>>, s: Seq<char>) -> bool {
    exists|k: int| 0 <= k < names.len() && names[k] == s
}

fn table_names_chars(table: &ConstantTable) -> (r: Vec<Vec<char>>)
    ensures
        views_of(r@) == tbl_names(table@),
{
    let n: usize = table.len();
    let mut r: Vec<Vec<char>> = Vec::new();
    let mut i: usize = 0;
    while i < n
        invariant
            n == table@.len(),
            i <= n,
            r@.len() == i,
            forall|k: int| 0 <= k < i ==> (#[trigger] r@[k])@ == table@[k].name,
        decreases n - i,
    {
        r.push(str_to_chars(table.entry_at(i).name.as_str()));
        i = i + 1;
    }
    proof {
        assert(views_of(r@) =~= tbl_names(table@));
    }
    r
}

/// Whether the character vectors hold the same text.
fn eq_chars(a: &Vec<char>, b: &Vec<char>) -> (r: bool)
    ensures
        r == (a@ == b@),
{
    if a.len() != b.len() {
        proof {
            assert(a@.len() != b@.len());
        }
        return false;
    }
    let r = match_at(a, b, 0);
    proof {
        if r {
            assert(a@.subrange(0, b@.len() as int) =~= a@);
        } else {
            if a@ == b@ {
                assert(a@.subrange(0, b@.len() as int) =~= b@);
            }
        }
    }
    r
}

fn contains_name(names: &Vec<Vec<char>>, s: &Vec<char>) -> (r: bool)
    ensures
        r == name_in(views_of(names@), s@),
{
    let n: usize = names.len();
    let mut i: usize = 0;
    while i < n
        invariant
            n == names@.len(),
            i <= n,
            forall|k: int| 0 <= k < i ==> (#[trigger] names@[k])@ != s@,
        decreases n - i,
    {
        if eq_chars(&names[i], s) {
            proof {
                assert(views_of(names@)[i as int] == s@);
            }
            return true;
        }
        i = i + 1;
    }
    proof {
        if name_in(views_of(names@), s@) {
            let k = choose|k: int| 0 <= k < views_of(names@).len() && views_of(names@)[k] == s@;
            assert(names@[k]@ == s@);
        }
    }
    false
}

/// The first index holding exactly this name.
pub open spec fn index_of_name(names: Seq<Seq<char>>, s: Seq<char>) -> Option<int>
    decreases names.len(),
{
    if names.len() == 0 {
        None
    } else if names[0] == s {
        Some(0)
    } else {
        match index_of_name(names.drop_first(), s) {
            Some(i) => Some(i + 1),
            None => None,
        }
    }
}

pub proof fn lemma_index_of_name(names: Seq<Seq<char>>, s: Seq<char>)
    ensures
        index_of_name(names, s) is Some <==> name_in(names, s),
        index_of_name(names, s) matches Some(i) ==> 0 <= i < names.len() && names[i] == s,
    decreases names.len(),
{
    if names.len() == 0 {
    } else if names[0] == s {
    } else {
        lemma_index_of_name(names.drop_first(), s);
        if name_in(names, s) {
            let i = choose|i: int| 0 <= i < names.len() && names[i] == s;
            assert(i != 0);
            assert(names.drop_first()[i - 1] == s);
        }
        if index_of_name(names.drop_first(), s) is Some {
            let j = index_of_name(names.drop_first(), s)->0;
            assert(names[j + 1] == s);
        }
    }
}

proof fn lemma_index_of_name_first(names: Seq<Seq<char>>, s: Seq<char>, i: int)
    requires
        0 <= i < names.len(),
        names[i] == s,
        forall|k: int| 0 <= k < i ==> names[k] != s,
    ensures
        index_of_name(names, s) == Some(i),
    decreases names.len(),
{
    if i == 0 {
    } else {
        assert(names[0] != s);
        assert(names.drop_first()[i - 1] == s);
        assert(forall|k: int| 0 <= k < i - 1 ==> names.drop_first()[k] != s);
        lemma_index_of_name_first(names.drop_first(), s, i - 1);
    }
}

/// Find the first constant whose name is exactly `s`.
fn find_name_index(names: &Vec<Vec<char>>, s: &Vec<char>) -> (r: Option<usize>)
    ensures
        match r {
            Some(i) => index_of_name(views_of(names@), s@) == Some(i as int) && i < names@.len(),
            None => index_of_name(views_of(names@), s@) is None,
        },
{
    proof {
        lemma_index_of_name(views_of(names@), s@);
    }
    let n: usize = names.len();
    let mut i: usize = 0;
    while i < n
        invariant
            n == names@.len(),
            i <= n,
            forall|k: int| 0 <= k < i ==> (#[trigger] names@[k])@ != s@,
        decreases n - i,
    {
        if eq_chars(&names[i], s) {
            proof {
                assert(views_of(names@)[i as int] == s@);
                assert(forall|k: int| 0 <= k < i ==> views_of(names@)[k] != s@);
                lemma_index_of_name_first(views_of(names@), s@, i as int);
            }
            return Some(i);
        }
        i = i + 1;
    }
    proof {
        if name_in(views_of(names@), s@) {
            let k = choose|k: int| 0 <= k < views_of(names@).len() && views_of(names@)[k] == s@;
            assert(names@[k]@ == s@);
        }
    }
    None
}

/// Copy `t[from..to]` into a fresh vector.
fn copy_range(t: &Vec<char>, from: usize, to: usize) -> (r: Vec<char>)
    requires
        from <= to <= t@.len(),
    ensures
        r@ == t@.subrange(from as int, to as int),
{
    let mut r: Vec<char> = Vec::new();
    push_range(&mut r, t, from, to);
    proof {
        assert(r@ =~= t@.subrange(from as int, to as int));
    }
    r
}

/// Where, if anywhere, an accessor-function declaration whose name is one
/// of the given constants starts at `i` (after leading whitespace), and
/// ends: `public fun NAME(): TYPE { <body without braces> }`. The result
/// is the position just past the closing brace, paired with the index of
/// the declared constant.
pub open spec fn func_decl_end(names: Seq<Seq<char>>, t: Seq<char>, i: int) -> Option<(int, int)> {
    let p = spec_skip_ws(t, i);
    if occurs_at(t, "public fun "@, p) {
        let q = p + "public fun "@.len();
        let r = spec_skip_word(t, q);
        if r > q && occurs_at(t, "()"@, r) {
            match index_of_name(names, t.subrange(q, r)) {
                Some(nk) => {
                    let s = spec_skip_ws(t, r + 2);
                    if s < t.len() && t[s] == ':' {
                        let u = spec_skip_ws(t, s + 1);
                        let v = spec_skip_word(t, u);
                        if v > u {
                            let w = spec_skip_ws(t, v);
                            if w < t.len() && t[w] == '{' {
                                match spec_find_char(t, w + 1, '}') {
                                    Some(x) => Some((x + 1, nk)),
                                    None => None,
                                }
                            } else {
                                None
                            }
                        } else {
                            None
                        }
                    } else {
                        None
                    }
                },
                None => None,
            }
        } else {
            None
        }
    } else {
        None
    }
}

pub proof fn lemma_func_decl_end_bounds(names: Seq<Seq<char>>, t: Seq<char>, i: int)
    requires
        0 <= i <= t.len(),
        func_decl_end(names, t, i) is Some,
    ensures
        i < (func_decl_end(names, t, i)->0).0 <= t.len(),
        0 <= (func_decl_end(names, t, i)->0).1 < names.len(),
{
    reveal_strlit("public fun ");
    let q0 = spec_skip_ws(t, i) + "public fun "@.len();
    lemma_index_of_name(names, t.subrange(q0, spec_skip_word(t, q0)));
    let p = spec_skip_ws(t, i);
    lemma_skip_ws_bounds(t, i);
    let q = p + "public fun "@.len();
    lemma_skip_word_bounds(t, q);
    let r = spec_skip_word(t, q);
    lemma_skip_ws_bounds(t, r + 2);
    let s = spec_skip_ws(t, r + 2);
    lemma_skip_ws_bounds(t, s + 1);
    let u = spec_skip_ws(t, s + 1);
    lemma_skip_word_bounds(t, u);
    let v = spec_skip_word(t, u);
    lemma_skip_ws_bounds(t, v);
    let w = spec_skip_ws(t, v);
    lemma_find_char_bounds(t, w + 1, '}');
}

/// Find an accessor-function declaration starting at `i`: its end and
/// the declared constant's index.
fn try_func_decl(names: &Vec<Vec<char>>, t: &Vec<char>, i: usize) -> (r: Option<(usize, usize)>)
    requires
        i <= t@.len(),
    ensures
        match r {
            Some(p) => func_decl_end(views_of(names@), t@, i as int) == Some(
                (p.0 as int, p.1 as int),
            ) && i < p.0 <= t@.len() && p.1 < names@.len(),
            None => func_decl_end(views_of(names@), t@, i as int) is None,
        },
{
    let tn: usize = t.len();
    let pat = str_to_chars("public fun ");
    proof {
        reveal_strlit("public fun ");
    }
    let p = skip_ws(t, i);
    if !match_at(t, &pat, p) {
        return None;
    }
    proof {
        assert(p + pat@.len() <= t@.len());
        assert(p + pat@.len() <= tn);
    }
    let q = p + pat.len();
    let r = skip_word(t, q);
    if !(r > q) {
        return None;
    }
    let parens = str_to_chars("()");
    if !match_at(t, &parens, r) {
        return None;
    }
    proof {
        reveal_strlit("()");
        assert(r + 2 <= t@.len());
        assert(r + 2 <= tn);
    }
    let name = copy_range(t, q, r);
    let nk = match find_name_index(names, &name) {
        Some(nk) => nk,
        None => {
            return None;
        },
    };
    let s = skip_ws(t, r + 2);
    if !(s < t.len() && t[s] == ':') {
        return None;
    }
    let u = skip_ws(t, s + 1);
    let v = skip_word(t, u);
    if !(v > u) {
        return None;
    }
    let w = skip_ws(t, v);
    if !(w < t.len() && t[w] == '{') {
        return None;
    }
    match find_char(t, w + 1, '}') {
        Some(x) => {
            proof {
                lemma_find_char_bounds(t@, w + 1, '}');
                lemma_func_decl_end_bounds(views_of(names@), t@, i as int);
            }
            Some((x + 1, nk))
        },
        None => None,
    }
}

/// What stripping yields: the text with the declarations removed, and
/// the set of table indices declared as local accessor functions.
pub ghost struct StripOut {
    pub text: Seq<char>,
    pub declared: Set<int>,
}

/// The text with every recognized accessor-function declaration (for a
/// table constant) removed, scanning from `i`, each removed declaration's
/// constant recorded as locally declared.
pub open spec fn spec_strip_funcs(names: Seq<Seq<char>>, t: Seq<char>, i: int) -> StripOut
    decreases t.len() - i when 0 <= i
{
    if i < 0 || i >= t.len() {
        StripOut { text: Seq::empty(), declared: Set::empty() }
    } else {
        match func_decl_end(names, t, i) {
            Some(p) => if i < p.0 <= t.len() {
                let rec = spec_strip_funcs(names, t, p.0);
                StripOut { text: rec.text, declared: rec.declared.insert(p.1) }
            } else {
                let rec = spec_strip_funcs(names, t, i + 1);
                StripOut { text: seq![t[i]] + rec.text, declared: rec.declared }
            },
            None => {
                let rec = spec_strip_funcs(names, t, i + 1);
                StripOut { text: seq![t[i]] + rec.text, declared: rec.declared }
            },
        }
    }
}

fn strip_funcs_into(
    names: &Vec<Vec<char>>,
    t: &Vec<char>,
    i: usize,
    out: &mut Vec<char>,
    declared: &mut Vec<bool>,
)
    requires
        i <= t@.len(),
        old(declared)@.len() == names@.len(),
    ensures
        final(declared)@.len() == old(declared)@.len(),
        final(out)@ == old(out)@ + spec_strip_funcs(views_of(names@), t@, i as int).text,
        mask_set(final(declared)@) == mask_set(old(declared)@).union(
            spec_strip_funcs(views_of(names@), t@, i as int).declared,
        ),
    decreases t@.len() - i,
{
    let ghost vs = views_of(names@);
    if i >= t.len() {
        proof {
            assert(out@ =~= out@ + spec_strip_funcs(vs, t@, i as int).text);
            assert(mask_set(declared@) =~= mask_set(declared@).union(
                spec_strip_funcs(vs, t@, i as int).declared,
            ));
        }
        return;
    }
    match try_func_decl(names, t, i) {
        Some(p) => {
            let ghost mid_mask = declared@;
            set_true(declared, p.1);
            strip_funcs_into(names, t, p.0, out, declared);
            proof {
                let rec = spec_strip_funcs(vs, t@, p.0 as int);
                assert(mask_set(mid_mask.update(p.1 as int, true)) =~= mask_set(mid_mask).insert(
                    p.1 as int,
                ));
                assert(mask_set(mid_mask).insert(p.1 as int).union(rec.declared) =~= mask_set(
                    mid_mask,
                ).union(rec.declared.insert(p.1 as int)));
            }
        },
        None => {
            let ghost before = out@;
            out.push(t[i]);
            strip_funcs_into(names, t, i + 1, out, declared);
            proof {
                assert(before + spec_strip_funcs(vs, t@, i as int).text =~= before.push(
                    t@[i as int],
                ) + spec_strip_funcs(vs, t@, i + 1).text);
            }
        },
    }
}

/// Strip accessor-function declarations from the text, recording which
/// constants the file declared locally.
fn strip_funcs(names: &Vec<Vec<char>>, t: &Vec<char>) -> (r: (Vec<char>, Vec<bool>))
    ensures
        r.0@ == spec_strip_funcs(views_of(names@), t@, 0).text,
        r.1@.len() == names@.len(),
        mask_set(r.1@) == spec_strip_funcs(views_of(names@), t@, 0).declared,
{
    let mut out: Vec<char> = Vec::new();
    let mut declared: Vec<bool> = new_mask(names.len());
    strip_funcs_into(names, t, 0, &mut out, &mut declared);
    proof {
        assert(out@ =~= Seq::<char>::empty() + spec_strip_funcs(views_of(names@), t@, 0).text);
        assert(mask_set(declared@) =~= Set::<int>::empty().union(
            spec_strip_funcs(views_of(names@), t@, 0).declared,
        ));
    }
    (out, declared)
}

/// A fresh all-false mask of the given length.
fn new_mask(n: usize) -> (r: Vec<bool>)
    ensures
        r@.len() == n,
        mask_set(r@) == Set::<int>::empty(),
        forall|j: int| 0 <= j < n ==> !(#[trigger] r@[j]),
{
    let mut r: Vec<bool> = Vec::new();
    let mut k: usize = 0;
    while k < n
        invariant
            k <= n,
            r@.len() == k,
            forall|j: int| 0 <= j < k ==> !(#[trigger] r@[j]),
        decreases n - k,
    {
        r.push(false);
        k = k + 1;
    }
    proof {
        assert(mask_set(r@) =~= Set::<int>::empty());
    }
    r
}

/// The text with the first generated block normalized to an empty marker
/// pair: begin marker directly followed by end marker, whatever content
/// stood between them removed.
pub open spec fn spec_clear_block(t: Seq<char>) -> Seq<char> {
    match first_occurrence(t, begin_marker(), 0) {
        Some(b) => {
            let cs = b + begin_marker().len();
            match first_occurrence(t, end_marker(), cs) {
                Some(e) => t.subrange(0, cs) + t.subrange(e, t.len() as int),
                None => t,
            }
        },
        None => t,
    }
}

/// Normalize any previous generated block to empty markers.
fn clear_block(t: &Vec<char>) -> (r: Vec<char>)
    ensures
        r@ == spec_clear_block(t@),
{
    let bm = begin_marker_chars();
    let em = end_marker_chars();
    let tn: usize = t.len();
    match find_sub(t, &bm, 0) {
        Some(b) => {
            proof {
                lemma_first_occurrence_bounds(t@, begin_marker(), 0);
                assert(b + bm@.len() <= tn);
            }
            let cs = b + bm.len();
            match find_sub(t, &em, cs) {
                Some(e) => {
                    proof {
                        lemma_first_occurrence_bounds(t@, end_marker(), cs as int);
                    }
                    let mut r = copy_range(t, 0, cs);
                    push_range(&mut r, t, e, t.len());
                    r
                },
                None => {
                    let r = copy_range(t, 0, t.len());
                    proof {
                        assert(r@ =~= t@);
                    }
                    r
                },
            }
        },
        None => {
            let r = copy_range(t, 0, t.len());
            proof {
                assert(r@ =~= t@);
            }
            r
        },
    }
}


/// Every name is nonempty.
pub open spec fn valid_names(names: Seq<Seq<char>>) -> bool {
    forall|k: int| 0 <= k < names.len() ==> (#[trigger] names[k]).len() > 0
}

/// The name may stand at `i` as a whole identifier: it occurs there and
/// neither neighbour is a word character.
pub open spec fn name_boundary_ok(t: Seq<char>, i: int, len: int) -> bool {
    &&& (i == 0 || !is_word_char(t[i - 1]))
    &&& (i + len == t.len() || !is_word_char(t[i + len]))
}

pub open spec fn name_match_at(t: Seq<char>, name: Seq<char>, i: int) -> bool {
    occurs_at(t, name, i) && name_boundary_ok(t, i, name.len() as int)
}

/// The index of the longest constant name standing at `i` as a whole
/// identifier; the first such index when lengths tie.
pub open spec fn best_match(names: Seq<Seq<char>>, t: Seq<char>, i: int) -> Option<int>
    decreases names.len(),
{
    if names.len() == 0 {
        None
    } else {
        let last = names.len() - 1;
        let rest = best_match(names.drop_last(), t, i);
        if name_match_at(t, names[last as int], i) {
            match rest {
                Some(r) => if names[last as int].len() > names[r].len() {
                    Some(last as int)
                } else {
                    Some(r)
                },
                None => Some(last as int),
            }
        } else {
            rest
        }
    }
}

/// What `best_match` promises: its result is a matching name, and no
/// matching name is longer.
pub proof fn lemma_best_match(names: Seq<Seq<char>>, t: Seq<char>, i: int)
    ensures
        best_match(names, t, i) matches Some(k) ==> 0 <= k < names.len() && name_match_at(
            t,
            names[k],
            i,
        ),
        best_match(names, t, i) is None ==> forall|j: int|
            0 <= j < names.len() ==> !name_match_at(t, #[trigger] names[j], i),
        best_match(names, t, i) matches Some(k) ==> forall|j: int|
            0 <= j < names.len() && name_match_at(t, #[trigger] names[j], i) ==> names[j].len()
                <= names[k].len(),
    decreases names.len(),
{
    if names.len() == 0 {
    } else {
        let prefix = names.drop_last();
        lemma_best_match(prefix, t, i);
        assert(forall|j: int| 0 <= j < prefix.len() ==> prefix[j] == names[j]);
    }
}

fn is_name_match(t: &Vec<char>, name: &Vec<char>, i: usize) -> (r: bool)
    ensures
        r == name_match_at(t@, name@, i as int),
{
    let tn: usize = t.len();
    if !match_at(t, name, i) {
        return false;
    }
    proof {
        assert(i + name@.len() <= tn);
    }
    if i > 0 && word_char(t[i - 1]) {
        return false;
    }
    let after = i + name.len();
    if after < tn && word_char(t[after]) {
        return false;
    }
    true
}

/// Find the longest constant name standing at `i` as a whole identifier.
fn find_best(names: &Vec<Vec<char>>, t: &Vec<char>, i: usize) -> (r: Option<usize>)
    ensures
        match r {
            Some(k) => best_match(views_of(names@), t@, i as int) == Some(k as int) && k
                < names@.len(),
            None => best_match(views_of(names@), t@, i as int) is None,
        },
{
    let n: usize = names.len();
    let mut best: Option<usize> = None;
    let mut k: usize = 0;
    while k < n
        invariant
            n == names@.len(),
            k <= n,
            match best {
                Some(b) => best_match(views_of(names@).subrange(0, k as int), t@, i as int)
                    == Some(b as int) && b < n,
                None => best_match(views_of(names@).subrange(0, k as int), t@, i as int) is None,
            },
        decreases n - k,
    {
        let m = is_name_match(t, &names[k], i);
        let ghost ob = best;
        if m {
            match best {
                Some(b) => {
                    if names[k].len() > names[b].len() {
                        best = Some(k);
                    }
                },
                None => {
                    best = Some(k);
                },
            }
        }
        proof {
            let vs = views_of(names@);
            let pre = vs.subrange(0, k as int);
            let pre1 = vs.subrange(0, k + 1);
            assert(pre1.len() == k + 1);
            assert(pre1.drop_last() =~= pre);
            assert(forall|j: int| 0 <= j <= k ==> pre1[j] == vs[j]);
            assert(pre1[k as int] == names@[k as int]@);
            assert(best_match(pre1, t@, i as int) == {
                let rest = best_match(pre, t@, i as int);
                if name_match_at(t@, pre1[k as int], i as int) {
                    match rest {
                        Some(r) => if pre1[k as int].len() > pre1[r].len() {
                            Some(k as int)
                        } else {
                            Some(r)
                        },
                        None => Some(k as int),
                    }
                } else {
                    rest
                }
            });
            match ob {
                Some(b) => {
                    lemma_best_match(pre, t@, i as int);
                    assert(0 <= b < pre.len());
                    assert(pre1[b as int] == vs[b as int]);
                },
                None => {},
            }
        }
        k = k + 1;
    }
    proof {
        assert(views_of(names@).subrange(0, n as int) =~= views_of(names@));
    }
    best
}

/// What the usage scan yields: the rewritten text, the set of table
/// indices whose constants were seen, and the set flagged as needing
/// import cleanup (seen in call form and not locally declared).
pub ghost struct ScanOut {
    pub text: Seq<char>,
    pub used: Set<int>,
    pub cleanup: Set<int>,
}

/// Scan the text from `i` for constant-name occurrences, left to right,
/// longest name first, first match wins. A matched name is recorded as
/// used; a call-parenthesis pair right after it is dropped, and unless
/// the constant is among the locally `declared` accessors the constant
/// is flagged for import cleanup. A comment line is copied untouched.
/// `line_start` says whether `i` begins a line.
pub open spec fn spec_scan(
    names: Seq<Seq<char>>,
    t: Seq<char>,
    i: int,
    line_start: bool,
    declared: Set<int>,
) -> ScanOut
    decreases t.len() - i when 0 <= i
{
    if i < 0 || i >= t.len() {
        ScanOut { text: Seq::empty(), used: Set::empty(), cleanup: Set::empty() }
    } else if line_start && spec_is_comment_line(t, i) {
        let e = spec_line_end(t, i);
        if i < e <= t.len() {
            let rec = spec_scan(names, t, e, true, declared);
            ScanOut { text: t.subrange(i, e) + rec.text, used: rec.used, cleanup: rec.cleanup }
        } else {
            let rec = spec_scan(names, t, i + 1, t[i] == '\n', declared);
            ScanOut { text: seq![t[i]] + rec.text, used: rec.used, cleanup: rec.cleanup }
        }
    } else {
        match best_match(names, t, i) {
            Some(k) => {
                let nm = names[k];
                let after = i + nm.len();
                if i < after <= t.len() {
                    let parens = after + 2 <= t.len() && t[after] == '(' && t[after + 1] == ')';
                    let skip = if parens {
                        after + 2
                    } else {
                        after
                    };
                    let rec = spec_scan(names, t, skip, false, declared);
                    ScanOut {
                        text: nm + rec.text,
                        used: rec.used.insert(k),
                        cleanup: if parens && !declared.contains(k) {
                            rec.cleanup.insert(k)
                        } else {
                            rec.cleanup
                        },
                    }
                } else {
                    let rec = spec_scan(names, t, i + 1, t[i] == '\n', declared);
                    ScanOut { text: seq![t[i]] + rec.text, used: rec.used, cleanup: rec.cleanup }
                }
            },
            None => {
                let rec = spec_scan(names, t, i + 1, t[i] == '\n', declared);
                ScanOut { text: seq![t[i]] + rec.text, used: rec.used, cleanup: rec.cleanup }
            },
        }
    }
}

/// The set of indices a mask marks.
pub open spec fn mask_set(mask: Seq<bool>) -> Set<int> {
    Set::new(|k: int| 0 <= k < mask.len() && mask[k])
}

fn set_true(v: &mut Vec<bool>, i: usize)
    requires
        i < old(v)@.len(),
    ensures
        final(v)@ == old(v)@.update(i as int, true),
{
    v.remove(i);
    v.insert(i, true);
    proof {
        assert(v@ =~= old(v)@.update(i as int, true));
    }
}

fn scan_into(
    names: &Vec<Vec<char>>,
    t: &Vec<char>,
    i: usize,
    line_start: bool,
    declared: &Vec<bool>,
    out: &mut Vec<char>,
    used: &mut Vec<bool>,
    cleanup: &mut Vec<bool>,
)
    requires
        i <= t@.len(),
        old(used)@.len() == names@.len(),
        old(cleanup)@.len() == names@.len(),
        declared@.len() == names@.len(),
        valid_names(views_of(names@)),
    ensures
        final(used)@.len() == old(used)@.len(),
        final(cleanup)@.len() == old(cleanup)@.len(),
        final(out)@ == old(out)@ + spec_scan(
            views_of(names@),
            t@,
            i as int,
            line_start,
            mask_set(declared@),
        ).text,
        mask_set(final(used)@) == mask_set(old(used)@).union(
            spec_scan(views_of(names@), t@, i as int, line_start, mask_set(declared@)).used,
        ),
        mask_set(final(cleanup)@) == mask_set(old(cleanup)@).union(
            spec_scan(views_of(names@), t@, i as int, line_start, mask_set(declared@)).cleanup,
        ),
    decreases t@.len() - i,
{
    let ghost vs = views_of(names@);
    let ghost ds = mask_set(declared@);
    let tn: usize = t.len();
    if i >= tn {
        proof {
            assert(out@ =~= out@ + spec_scan(vs, t@, i as int, line_start, ds).text);
            assert(mask_set(used@) =~= mask_set(used@).union(
                spec_scan(vs, t@, i as int, line_start, ds).used,
            ));
            assert(mask_set(cleanup@) =~= mask_set(cleanup@).union(
                spec_scan(vs, t@, i as int, line_start, ds).cleanup,
            ));
        }
        return;
    }
    if line_start && is_comment_line(t, i) {
        let e = line_end(t, i);
        let ghost before = out@;
        push_range(out, t, i, e);
        scan_into(names, t, e, true, declared, out, used, cleanup);
        proof {
            let rec = spec_scan(vs, t@, e as int, true, ds);
            assert(before + spec_scan(vs, t@, i as int, line_start, ds).text =~= (before
                + t@.subrange(i as int, e as int)) + rec.text);
        }
        return;
    }
    match find_best(names, t, i) {
        Some(k) => {
            proof {
                lemma_best_match(vs, t@, i as int);
                assert(vs[k as int].len() > 0);
                assert(i + vs[k as int].len() <= t@.len());
            }
            let nm_len = names[k].len();
            let after = i + nm_len;
            let parens = after < tn && after + 1 < tn && t[after] == '(' && t[after + 1] == ')';
            let skip: usize = if parens {
                after + 2
            } else {
                after
            };
            proof {
                assert(parens == (after + 2 <= t@.len() && t@[after as int] == '(' && t@[after + 1]
                    == ')'));
            }
            let ghost mid_used = used@;
            set_true(used, k);
            let ghost mid_cleanup = cleanup@;
            if parens && !declared[k] {
                proof {
                    assert(!ds.contains(k as int));
                }
                set_true(cleanup, k);
            } else {
                proof {
                    if parens {
                        assert(ds.contains(k as int));
                    }
                }
            }
            let ghost mid_cleanup2 = cleanup@;
            let ghost before = out@;
            let nm = &names[k];
            push_all(out, nm);
            scan_into(names, t, skip, false, declared, out, used, cleanup);
            proof {
                let rec = spec_scan(vs, t@, skip as int, false, ds);
                assert(before + spec_scan(vs, t@, i as int, line_start, ds).text =~= (before + nm@)
                    + rec.text);
                assert(mask_set(mid_used.update(k as int, true)) =~= mask_set(mid_used).insert(
                    k as int,
                ));
                assert(mask_set(mid_used).insert(k as int).union(rec.used) =~= mask_set(
                    mid_used,
                ).union(rec.used.insert(k as int)));
                if parens && !ds.contains(k as int) {
                    assert(mask_set(mid_cleanup.update(k as int, true)) =~= mask_set(
                        mid_cleanup,
                    ).insert(k as int));
                    assert(mask_set(mid_cleanup).insert(k as int).union(rec.cleanup) =~= mask_set(
                        mid_cleanup,
                    ).union(rec.cleanup.insert(k as int)));
                }
            }
        },
        None => {
            let ghost before = out@;
            out.push(t[i]);
            let nls = t[i] == '\n';
            scan_into(names, t, i + 1, nls, declared, out, used, cleanup);
            proof {
                let rec = spec_scan(vs, t@, i + 1, t@[i as int] == '\n', ds);
                assert(before + spec_scan(vs, t@, i as int, line_start, ds).text =~= before.push(
                    t@[i as int],
                ) + rec.text);
            }
        },
    }
}

/// Detect and normalize constant usages: record used constants, drop
/// call parentheses after constant names, and flag call-form constants
/// not among the locally declared accessors for import cleanup.
fn scan_usages(names: &Vec<Vec<char>>, t: &Vec<char>, declared: &Vec<bool>) -> (r: (
    Vec<char>,
    Vec<bool>,
    Vec<bool>,
))
    requires
        valid_names(views_of(names@)),
        declared@.len() == names@.len(),
    ensures
        r.0@ == spec_scan(views_of(names@), t@, 0, true, mask_set(declared@)).text,
        r.1@.len() == names@.len(),
        mask_set(r.1@) == spec_scan(views_of(names@), t@, 0, true, mask_set(declared@)).used,
        r.2@.len() == names@.len(),
        mask_set(r.2@) == spec_scan(views_of(names@), t@, 0, true, mask_set(declared@)).cleanup,
{
    let mut out: Vec<char> = Vec::new();
    let mut used: Vec<bool> = new_mask(names.len());
    let mut cleanup: Vec<bool> = new_mask(names.len());
    scan_into(names, t, 0, true, declared, &mut out, &mut used, &mut cleanup);
    proof {
        let sc = spec_scan(views_of(names@), t@, 0, true, mask_set(declared@));
        assert(out@ =~= Seq::<char>::empty() + sc.text);
        assert(mask_set(used@) =~= Set::<int>::empty().union(sc.used));
        assert(mask_set(cleanup@) =~= Set::<int>::empty().union(sc.cleanup));
    }
    (out, used, cleanup)
}


/// The length of `s` with trailing whitespace removed.
pub open spec fn spec_rtrim_end(s: Seq<char>) -> int
    decreases s.len(),
{
    if s.len() == 0 {
        0
    } else if crate::text::is_space(s[s.len() - 1]) {
        spec_rtrim_end(s.drop_last())
    } else {
        s.len() as int
    }
}

pub proof fn lemma_rtrim_end_bounds(s: Seq<char>)
    ensures
        0 <= spec_rtrim_end(s) <= s.len(),
    decreases s.len(),
{
    if s.len() == 0 {
    } else if crate::text::is_space(s[s.len() - 1]) {
        lemma_rtrim_end_bounds(s.drop_last());
    }
}

/// `s` with leading blanks and trailing whitespace removed.
pub open spec fn spec_trim(s: Seq<char>) -> Seq<char> {
    let e = spec_rtrim_end(s);
    let a = spec_skip_blank(s, 0);
    if 0 <= a <= e <= s.len() {
        s.subrange(a, e)
    } else {
        Seq::empty()
    }
}

fn rtrim_end(s: &Vec<char>) -> (r: usize)
    ensures
        r == spec_rtrim_end(s@),
        r <= s@.len(),
{
    let mut e: usize = s.len();
    proof {
        assert(s@.subrange(0, e as int) =~= s@);
    }
    while e > 0 && crate::text::space_char(s[e - 1])
        invariant
            e <= s@.len(),
            spec_rtrim_end(s@) == spec_rtrim_end(s@.subrange(0, e as int)),
        decreases e,
    {
        proof {
            assert(s@.subrange(0, e as int).drop_last() =~= s@.subrange(0, e - 1));
        }
        e = e - 1;
    }
    proof {
        if e > 0 {
            assert(s@.subrange(0, e as int).last() == s@[e - 1]);
        }
        assert(spec_rtrim_end(s@.subrange(0, e as int)) == e);
    }
    e
}

/// Copy `s` with leading blanks and trailing whitespace removed.
fn trim_copy(s: &Vec<char>) -> (r: Vec<char>)
    ensures
        r@ == spec_trim(s@),
{
    let e = rtrim_end(s);
    let a = skip_blank(s, 0);
    if a <= e {
        copy_range(s, a, e)
    } else {
        let r: Vec<char> = Vec::new();
        proof {
            assert(r@ =~= Seq::<char>::empty());
        }
        r
    }
}

/// The position of the last occurrence of `pat` at or after `from`.
pub open spec fn last_occurrence(t: Seq<char>, pat: Seq<char>, from: int) -> Option<int>
    decreases t.len() - from when 0 <= from
{
    if from < 0 {
        None
    } else {
        match first_occurrence(t, pat, from) {
            None => None,
            Some(i) => if i < from || i >= t.len() {
                None
            } else {
                match last_occurrence(t, pat, i + 1) {
                    Some(j) => Some(j),
                    None => Some(i),
                }
            },
        }
    }
}

fn find_last(t: &Vec<char>, pat: &Vec<char>, from: usize) -> (r: Option<usize>)
    requires
        pat@.len() > 0,
    ensures
        match r {
            Some(i) => last_occurrence(t@, pat@, from as int) == Some(i as int),
            None => last_occurrence(t@, pat@, from as int) is None,
        },
{
    let tn: usize = t.len();
    let mut best: Option<usize> = None;
    let mut cur: usize = from;
    loop
        invariant
            tn == t@.len(),
            pat@.len() > 0,
            from <= cur,
            last_occurrence(t@, pat@, from as int) == match best {
                Some(b) => match last_occurrence(t@, pat@, cur as int) {
                    Some(j) => Some(j),
                    None => Some(b as int),
                },
                None => last_occurrence(t@, pat@, cur as int),
            },
        decreases t@.len() + 1 - cur,
    {
        match find_sub(t, pat, cur) {
            Some(i) => {
                proof {
                    lemma_first_occurrence_bounds(t@, pat@, cur as int);
                    assert(i < tn);
                }
                best = Some(i);
                cur = i + 1;
            },
            None => {
                return best;
            },
        }
    }
}

/// Parse an import line `   use <path>::<names>; ...`: the positions of
/// the names part (just after the last `::`) and of the closing
/// semicolon.
pub open spec fn import_parse(line: Seq<char>) -> Option<(int, int)> {
    let p = spec_skip_blank(line, 0);
    if occurs_at(line, "use "@, p) {
        match last_occurrence(line, "::"@, 0) {
            Some(c) => {
                let ns = c + 2;
                match spec_find_char(line, ns, ';') {
                    Some(semi) => if 0 <= ns < semi && semi < line.len() {
                        Some((ns, semi))
                    } else {
                        None
                    },
                    None => None,
                }
            },
            None => None,
        }
    } else {
        None
    }
}

fn import_parse_exec(line: &Vec<char>) -> (r: Option<(usize, usize)>)
    ensures
        match r {
            Some(p) => import_parse(line@) == Some((p.0 as int, p.1 as int)) && p.0 < p.1 < line@.len(),
            None => import_parse(line@) is None,
        },
{
    let ln: usize = line.len();
    let p = skip_blank(line, 0);
    let use_pat = str_to_chars("use ");
    if !match_at(line, &use_pat, p) {
        return None;
    }
    let cc = str_to_chars("::");
    proof {
        reveal_strlit("::");
    }
    match find_last(line, &cc, 0) {
        Some(c) => {
            proof {
                lemma_last_occurrence_bounds(line@, cc@, 0);
                assert(c + cc@.len() <= line@.len());
                assert(c + 2 <= ln);
            }
            let ns = c + 2;
            match find_char(line, ns, ';') {
                Some(semi) => {
                    proof {
                        lemma_find_char_bounds(line@, ns as int, ';');
                    }
                    if ns < semi {
                        Some((ns, semi))
                    } else {
                        None
                    }
                },
                None => None,
            }
        },
        None => None,
    }
}

pub proof fn lemma_last_occurrence_bounds(t: Seq<char>, pat: Seq<char>, from: int)
    requires
        0 <= from,
        last_occurrence(t, pat, from) is Some,
    ensures
        from <= last_occurrence(t, pat, from)->0,
        last_occurrence(t, pat, from)->0 + pat.len() <= t.len(),
    decreases t.len() - from,
{
    match first_occurrence(t, pat, from) {
        None => {},
        Some(i) => {
            lemma_first_occurrence_bounds(t, pat, from);
            if i >= from && i < t.len() {
                match last_occurrence(t, pat, i + 1) {
                    Some(_) => {
                        lemma_last_occurrence_bounds(t, pat, i + 1);
                    },
                    None => {},
                }
            }
        },
    }
}

/// Split on commas; each piece keeps its original spacing.
pub open spec fn split_commas(s: Seq<char>) -> Seq<Seq<char>>
    decreases s.len(),
{
    match spec_find_char(s, 0, ',') {
        None => seq![s],
        Some(c) => if 0 <= c < s.len() {
            seq![s.subrange(0, c)] + split_commas(s.subrange(c + 1, s.len() as int))
        } else {
            seq![s]
        },
    }
}

fn split_commas_exec(s: &Vec<char>) -> (r: Vec<Vec<char>>)
    ensures
        views_of(r@) == split_commas(s@),
    decreases s@.len(),
{
    match find_char(s, 0, ',') {
        None => {
            let mut r: Vec<Vec<char>> = Vec::new();
            r.push(copy_range(s, 0, s.len()));
            proof {
                assert(s@.subrange(0, s@.len() as int) =~= s@);
                assert(views_of(r@) =~= split_commas(s@));
            }
            r
        },
        Some(c) => {
            let sn: usize = s.len();
            proof {
                lemma_find_char_bounds(s@, 0, ',');
                assert(c < sn);
            }
            let first = copy_range(s, 0, c);
            let rest_src = copy_range(s, c + 1, sn);
            let mut rest = split_commas_exec(&rest_src);
            rest.insert(0, first);
            proof {
                assert(views_of(rest@) =~= seq![s@.subrange(0, c as int)] + split_commas(
                    s@.subrange(c + 1, s@.len() as int),
                ));
            }
            rest
        },
    }
}

/// The items whose trimmed text is not a constant name, each kept with
/// its original spacing, in order.
pub open spec fn kept_items(names: Seq<Seq<char>>, items: Seq<Seq<char>>) -> Seq<Seq<char>>
    decreases items.len(),
{
    if items.len() == 0 {
        Seq::empty()
    } else {
        let rest = kept_items(names, items.drop_first());
        if name_in(names, spec_trim(items[0])) {
            rest
        } else {
            seq![items[0]] + rest
        }
    }
}

/// Whether some item, trimmed, is a constant name.
pub open spec fn any_item_matches(names: Seq<Seq<char>>, items: Seq<Seq<char>>) -> bool {
    exists|k: int| 0 <= k < items.len() && name_in(names, spec_trim(#[trigger] items[k]))
}

fn kept_items_exec(names: &Vec<Vec<char>>, items: &Vec<Vec<char>>) -> (r: (Vec<Vec<char>>, bool))
    ensures
        views_of(r.0@) == kept_items(views_of(names@), views_of(items@)),
        r.1 == any_item_matches(views_of(names@), views_of(items@)),
    decreases items@.len(),
{
    let n: usize = items.len();
    let mut out: Vec<Vec<char>> = Vec::new();
    let mut any = false;
    let mut k: usize = 0;
    proof {
        assert(views_of(items@).subrange(0, n as int) =~= views_of(items@));
        assert(views_of(out@) =~= Seq::<Seq<char>>::empty());
        assert(views_of(out@) + kept_items(views_of(names@), views_of(items@))
            =~= kept_items(views_of(names@), views_of(items@)));
    }
    while k < n
        invariant
            n == items@.len(),
            k <= n,
            kept_items(views_of(names@), views_of(items@)) == views_of(out@) + kept_items(
                views_of(names@),
                views_of(items@).subrange(k as int, n as int),
            ),
            any == any_item_matches(views_of(names@), views_of(items@).subrange(0, k as int)),
        decreases n - k,
    {
        let ghost vs = views_of(items@);
        let ghost suffix = vs.subrange(k as int, n as int);
        let tr = trim_copy(&items[k]);
        let m = contains_name(names, &tr);
        let raw = copy_range(&items[k], 0, items[k].len());
        proof {
            assert(suffix.len() > 0);
            assert(suffix[0] == vs[k as int]);
            assert(suffix.drop_first() =~= vs.subrange(k + 1, n as int));
            assert(vs[k as int] == items@[k as int]@);
        }
        let ghost before = out@;
        if m {
            any = true;
        } else {
            proof {
                assert(raw@ =~= vs[k as int]);
            }
            out.push(raw);
            proof {
                assert(views_of(out@) =~= views_of(before) + seq![vs[k as int]]);
            }
        }
        proof {
            let ghost pre1 = views_of(items@).subrange(0, k + 1);
            assert(forall|j: int| 0 <= j <= k ==> pre1[j] == views_of(items@)[j]);
            assert(any_item_matches(views_of(names@), pre1) == (any_item_matches(
                views_of(names@),
                views_of(items@).subrange(0, k as int),
            ) || name_in(views_of(names@), spec_trim(vs[k as int])))) by {
                let pre = views_of(items@).subrange(0, k as int);
                assert(forall|j: int| 0 <= j < k ==> pre[j] == pre1[j]);
                if any_item_matches(views_of(names@), pre) {
                    let j = choose|j: int|
                        0 <= j < pre.len() && name_in(views_of(names@), spec_trim(#[trigger] pre[j]));
                    assert(name_in(views_of(names@), spec_trim(pre1[j])));
                }
                if name_in(views_of(names@), spec_trim(vs[k as int])) {
                    assert(name_in(views_of(names@), spec_trim(pre1[k as int])));
                }
                if any_item_matches(views_of(names@), pre1) {
                    let j = choose|j: int|
                        0 <= j < pre1.len() && name_in(views_of(names@), spec_trim(#[trigger] pre1[j]));
                    if j < k {
                        assert(name_in(views_of(names@), spec_trim(pre[j])));
                    }
                }
            }
            if !m {
                assert(views_of(out@) + kept_items(views_of(names@), vs.subrange(k + 1, n as int))
                    =~= views_of(before) + kept_items(views_of(names@), suffix));
            }
        }
        k = k + 1;
    }
    proof {
        assert(views_of(items@).subrange(0, n as int) =~= views_of(items@));
        assert(kept_items(views_of(names@), views_of(items@).subrange(n as int, n as int))
            =~= Seq::<Seq<char>>::empty());
        assert(views_of(out@) + Seq::<Seq<char>>::empty() =~= views_of(out@));
    }
    (out, any)
}

/// Join items with a comma, leaving each item's own text untouched.
pub open spec fn join_comma(items: Seq<Seq<char>>) -> Seq<char>
    decreases items.len(),
{
    if items.len() == 0 {
        Seq::empty()
    } else if items.len() == 1 {
        items[0]
    } else {
        items[0] + ","@ + join_comma(items.drop_first())
    }
}

fn join_comma_exec(items: &Vec<Vec<char>>) -> (r: Vec<char>)
    ensures
        r@ == join_comma(views_of(items@)),
{
    let n: usize = items.len();
    let mut out: Vec<char> = Vec::new();
    let mut k: usize = 0;
    while k < n
        invariant
            n == items@.len(),
            k <= n,
            k == 0 ==> out@ == Seq::<char>::empty(),
            0 < k < n ==> join_comma(views_of(items@)) == out@ + ","@ + join_comma(
                views_of(items@).subrange(k as int, n as int),
            ),
            k == n ==> join_comma(views_of(items@)) == out@,
        decreases n - k,
    {
        let ghost vs = views_of(items@);
        let ghost suffix = vs.subrange(k as int, n as int);
        if k > 0 {
            push_str_chars(&mut out, ",");
        }
        proof {
            assert(suffix[0] == vs[k as int]);
            assert(vs[k as int] == items@[k as int]@);
            assert(suffix.drop_first() =~= vs.subrange(k + 1, n as int));
            if k == 0 {
                assert(suffix =~= vs);
            }
        }
        push_all(&mut out, &items[k]);
        proof {
            if k + 1 < n {
                assert(suffix.len() > 1);
                assert(join_comma(suffix) == suffix[0] + ","@ + join_comma(suffix.drop_first()));
                assert(join_comma(vs) =~= out@ + ","@ + join_comma(vs.subrange(k + 1, n as int)));
            } else {
                assert(suffix.len() == 1);
                assert(join_comma(suffix) == suffix[0]);
                assert(join_comma(vs) =~= out@);
            }
        }
        k = k + 1;
    }
    out
}


/// One line after import pruning. An import line whose names part (after
/// the last `::`) holds constant names loses exactly those names: a
/// brace-delimited list keeps its other names; a list left empty, or a
/// single constant name, removes the whole line. Any other line stands
/// untouched.
pub open spec fn prune_line(names: Seq<Seq<char>>, line: Seq<char>) -> Seq<char> {
    match import_parse(line) {
        None => line,
        Some((ns, semi)) => {
            let tr = spec_trim(line.subrange(ns, semi));
            if tr.len() >= 2 && tr[0] == '{' && tr[tr.len() - 1] == '}' {
                let items = split_commas(tr.subrange(1, tr.len() - 1));
                if !any_item_matches(names, items) {
                    line
                } else {
                    let kept = kept_items(names, items);
                    if kept.len() == 0 {
                        Seq::empty()
                    } else {
                        line.subrange(0, ns) + seq!['{'] + join_comma(kept) + seq!['}']
                            + line.subrange(semi, line.len() as int)
                    }
                }
            } else {
                if name_in(names, tr) {
                    Seq::empty()
                } else {
                    line
                }
            }
        },
    }
}

fn prune_line_exec(names: &Vec<Vec<char>>, line: &Vec<char>) -> (r: Vec<char>)
    ensures
        r@ == prune_line(views_of(names@), line@),
{
    let ln: usize = line.len();
    match import_parse_exec(line) {
        None => {
            let r = copy_range(line, 0, ln);
            proof {
                assert(r@ =~= line@);
            }
            r
        },
        Some((ns, semi)) => {
            let raw = copy_range(line, ns, semi);
            let tr = trim_copy(&raw);
            let trn: usize = tr.len();
            if trn >= 2 && tr[0] == '{' && tr[trn - 1] == '}' {
                let inner = copy_range(&tr, 1, trn - 1);
                let items = split_commas_exec(&inner);
                let (kept, any) = kept_items_exec(names, &items);
                if !any {
                    let r = copy_range(line, 0, ln);
                    proof {
                        assert(r@ =~= line@);
                    }
                    r
                } else {
                    if kept.len() == 0 {
                        let r: Vec<char> = Vec::new();
                        proof {
                            assert(r@ =~= Seq::<char>::empty());
                            assert(views_of(kept@).len() == 0);
                        }
                        r
                    } else {
                        let mut r = copy_range(line, 0, ns);
                        r.push('{');
                        let joined = join_comma_exec(&kept);
                        push_all(&mut r, &joined);
                        r.push('}');
                        push_range(&mut r, line, semi, ln);
                        proof {
                            assert(views_of(kept@).len() > 0);
                            assert(r@ =~= line@.subrange(0, ns as int) + seq!['{'] + join_comma(
                                kept_items(views_of(names@), split_commas(spec_trim(
                                    line@.subrange(ns as int, semi as int),
                                ).subrange(1, spec_trim(line@.subrange(ns as int, semi as int)).len() - 1))),
                            ) + seq!['}'] + line@.subrange(semi as int, line@.len() as int));
                        }
                        r
                    }
                }
            } else {
                let m = contains_name(names, &tr);
                if m {
                    let r: Vec<char> = Vec::new();
                    proof {
                        assert(r@ =~= Seq::<char>::empty());
                    }
                    r
                } else {
                    let r = copy_range(line, 0, ln);
                    proof {
                        assert(r@ =~= line@);
                    }
                    r
                }
            }
        },
    }
}

/// The text with every import line pruned, line by line, from `i`.
pub open spec fn spec_prune(names: Seq<Seq<char>>, t: Seq<char>, i: int) -> Seq<char>
    decreases t.len() - i when 0 <= i
{
    if i < 0 || i >= t.len() {
        Seq::empty()
    } else {
        let e = spec_line_end(t, i);
        if i < e <= t.len() {
            prune_line(names, t.subrange(i, e)) + spec_prune(names, t, e)
        } else {
            seq![t[i]] + spec_prune(names, t, i + 1)
        }
    }
}

fn prune_into(names: &Vec<Vec<char>>, t: &Vec<char>, i: usize, out: &mut Vec<char>)
    requires
        i <= t@.len(),
    ensures
        final(out)@ == old(out)@ + spec_prune(views_of(names@), t@, i as int),
    decreases t@.len() - i,
{
    let tn: usize = t.len();
    if i >= tn {
        proof {
            assert(out@ =~= out@ + spec_prune(views_of(names@), t@, i as int));
        }
        return;
    }
    let e = line_end(t, i);
    let line = copy_range(t, i, e);
    let pl = prune_line_exec(names, &line);
    let ghost before = out@;
    push_all(out, &pl);
    prune_into(names, t, e, out);
    proof {
        assert(before + spec_prune(views_of(names@), t@, i as int) =~= (before + pl@)
            + spec_prune(views_of(names@), t@, e as int));
    }
}

/// Prune superseded imports from the text.
fn prune_imports(names: &Vec<Vec<char>>, t: &Vec<char>) -> (r: Vec<char>)
    ensures
        r@ == spec_prune(views_of(names@), t@, 0),
{
    let mut out: Vec<char> = Vec::new();
    prune_into(names, t, 0, &mut out);
    proof {
        assert(out@ =~= Seq::<char>::empty() + spec_prune(views_of(names@), t@, 0));
    }
    out
}


/// The generated declaration for one constant: its comment line, if any,
/// then `    const NAME: TYPE = VALUE;`.
pub open spec fn entry_text(d: ConstDefV) -> Seq<char> {
    (match d.comment {
        Some(c) => "    // "@ + c + "\n"@,
        None => Seq::<char>::empty(),
    }) + "    const "@ + d.name + ": "@ + d.ty + " = "@ + d.value + ";\n"@
}

/// The block body: the declarations of the used constants among the first
/// `n` entries, in table order.
pub open spec fn block_body(tbl: Seq<ConstDefV>, used: Set<int>, n: int) -> Seq<char>
    decreases n,
{
    if n <= 0 {
        Seq::empty()
    } else {
        block_body(tbl, used, n - 1) + if used.contains(n - 1) {
            entry_text(tbl[n - 1])
        } else {
            Seq::<char>::empty()
        }
    }
}

/// The whole generated block: the used constants' declarations between
/// the begin and end markers.
pub open spec fn whole_block(tbl: Seq<ConstDefV>, used: Set<int>) -> Seq<char> {
    begin_marker() + block_body(tbl, used, tbl.len() as int) + end_marker()
}

/// Build the generated block for the constants the mask marks.
fn build_block(table: &ConstantTable, mask: &Vec<bool>) -> (r: Vec<char>)
    requires
        mask@.len() == table@.len(),
    ensures
        r@ == whole_block(table@, mask_set(mask@)),
{
    let n: usize = table.len();
    let mut r = begin_marker_chars();
    let mut k: usize = 0;
    proof {
        assert(r@ =~= begin_marker() + block_body(table@, mask_set(mask@), 0));
    }
    while k < n
        invariant
            n == table@.len(),
            n == mask@.len(),
            k <= n,
            r@ == begin_marker() + block_body(table@, mask_set(mask@), k as int),
        decreases n - k,
    {
        let ghost before = r@;
        if mask[k] {
            let e = table.entry_at(k);
            let ghost d = table@[k as int];
            match &e.def.comment {
                Some(c) => {
                    push_str_chars(&mut r, "    // ");
                    push_str_chars(&mut r, c.as_str());
                    push_str_chars(&mut r, "\n");
                },
                None => {},
            }
            push_str_chars(&mut r, "    const ");
            push_str_chars(&mut r, e.name.as_str());
            push_str_chars(&mut r, ": ");
            push_str_chars(&mut r, e.def.ty_name.as_str());
            push_str_chars(&mut r, " = ");
            push_str_chars(&mut r, e.def.value.as_str());
            push_str_chars(&mut r, ";\n");
            proof {
                assert(r@ =~= before + entry_text(d));
                assert(mask_set(mask@).contains(k as int));
                assert(r@ =~= begin_marker() + block_body(table@, mask_set(mask@), k + 1));
            }
        } else {
            proof {
                assert(!mask_set(mask@).contains(k as int));
                assert(r@ =~= begin_marker() + block_body(table@, mask_set(mask@), k + 1));
            }
        }
        k = k + 1;
    }
    let em = end_marker_chars();
    push_all(&mut r, &em);
    r
}

/// The first line start at or after `i` that begins an import statement.
pub open spec fn find_import_line(t: Seq<char>, i: int) -> Option<int>
    decreases t.len() - i when 0 <= i
{
    if i < 0 || i >= t.len() {
        None
    } else {
        let e = spec_line_end(t, i);
        if i < e <= t.len() {
            if import_parse(t.subrange(i, e)) is Some {
                Some(i)
            } else {
                find_import_line(t, e)
            }
        } else {
            None
        }
    }
}

fn find_import_line_exec(t: &Vec<char>, i: usize) -> (r: Option<usize>)
    requires
        i <= t@.len(),
    ensures
        match r {
            Some(s) => find_import_line(t@, i as int) == Some(s as int) && s < t@.len(),
            None => find_import_line(t@, i as int) is None,
        },
    decreases t@.len() - i,
{
    if i >= t.len() {
        return None;
    }
    let e = line_end(t, i);
    let line = copy_range(t, i, e);
    match import_parse_exec(&line) {
        Some(_) => Some(i),
        None => find_import_line_exec(t, e),
    }
}

/// The end of the run of import and comment lines starting at `i`.
pub open spec fn run_end(t: Seq<char>, i: int) -> int
    decreases t.len() - i when 0 <= i
{
    if i < 0 || i >= t.len() {
        i
    } else {
        let e = spec_line_end(t, i);
        if i < e <= t.len() && (import_parse(t.subrange(i, e)) is Some || spec_is_comment_line(
            t,
            i,
        )) {
            run_end(t, e)
        } else {
            i
        }
    }
}

fn run_end_exec(t: &Vec<char>, i: usize) -> (r: usize)
    requires
        i <= t@.len(),
    ensures
        r == run_end(t@, i as int),
        i <= r <= t@.len(),
    decreases t@.len() - i,
{
    if i >= t.len() {
        return i;
    }
    let e = line_end(t, i);
    let line = copy_range(t, i, e);
    let imp = match import_parse_exec(&line) {
        Some(_) => true,
        None => false,
    };
    if imp || is_comment_line(t, i) {
        run_end_exec(t, e)
    } else {
        i
    }
}

/// Place the block: replace an existing empty marker pair; else insert
/// after the run of import lines, framed by blank lines; else insert
/// after the line of the first opening brace; a text with none of these
/// stands unchanged.
pub open spec fn spec_place_block(t: Seq<char>, block: Seq<char>) -> Seq<char> {
    let markers = begin_marker() + end_marker();
    match first_occurrence(t, markers, 0) {
        Some(b) => t.subrange(0, b) + block + t.subrange(b + markers.len(), t.len() as int),
        None => match find_import_line(t, 0) {
            Some(s) => {
                let e = run_end(t, s);
                t.subrange(0, e) + "\n"@ + block + "\n"@ + t.subrange(e, t.len() as int)
            },
            None => match spec_find_char(t, 0, '{') {
                Some(b) => {
                    let e = spec_line_end(t, b);
                    t.subrange(0, e) + block + t.subrange(e, t.len() as int)
                },
                None => t,
            },
        },
    }
}

pub proof fn lemma_run_end_bounds(t: Seq<char>, i: int)
    requires
        0 <= i <= t.len(),
    ensures
        i <= run_end(t, i) <= t.len(),
    decreases t.len() - i,
{
    if i < t.len() {
        let e = spec_line_end(t, i);
        lemma_line_end_bounds(t, i);
        if i < e <= t.len() && (import_parse(t.subrange(i, e)) is Some || spec_is_comment_line(
            t,
            i,
        )) {
            lemma_run_end_bounds(t, e);
        }
    }
}

fn place_block_exec(t: &Vec<char>, block: &Vec<char>) -> (r: Vec<char>)
    ensures
        r@ == spec_place_block(t@, block@),
{
    let tn: usize = t.len();
    let bm = begin_marker_chars();
    let em = end_marker_chars();
    let mut markers = bm;
    push_all(&mut markers, &em);
    match find_sub(t, &markers, 0) {
        Some(b) => {
            proof {
                lemma_first_occurrence_bounds(t@, markers@, 0);
                assert(b + markers@.len() <= tn);
            }
            let mut r = copy_range(t, 0, b);
            push_all(&mut r, block);
            push_range(&mut r, t, b + markers.len(), tn);
            r
        },
        None => {
            match find_import_line_exec(t, 0) {
                Some(s) => {
                    let e = run_end_exec(t, s);
                    let mut r = copy_range(t, 0, e);
                    push_str_chars(&mut r, "\n");
                    push_all(&mut r, block);
                    push_str_chars(&mut r, "\n");
                    push_range(&mut r, t, e, tn);
                    proof {
                        assert(r@ =~= spec_place_block(t@, block@));
                    }
                    r
                },
                None => {
                    match find_char(t, 0, '{') {
                        Some(b) => {
                            proof {
                                lemma_find_char_bounds(t@, 0, '{');
                            }
                            let e = line_end(t, b);
                            let mut r = copy_range(t, 0, e);
                            push_all(&mut r, block);
                            push_range(&mut r, t, e, tn);
                            r
                        },
                        None => {
                            let r = copy_range(t, 0, tn);
                            proof {
                                assert(r@ =~= t@);
                            }
                            r
                        },
                    }
                },
            }
        },
    }
}

/// The names among the first `n` whose indices are in `sel`, in order.
pub open spec fn selected_names(names: Seq<Seq<char>>, sel: Set<int>, n: int) -> Seq<Seq<char>>
    decreases n,
{
    if n <= 0 {
        Seq::empty()
    } else {
        selected_names(names, sel, n - 1) + if sel.contains(n - 1) {
            seq![names[n - 1]]
        } else {
            Seq::<Seq<char>>::empty()
        }
    }
}

/// Keep the names whose indices the mask marks.
fn select_names(names: &Vec<Vec<char>>, sel: &Vec<bool>) -> (r: Vec<Vec<char>>)
    requires
        sel@.len() == names@.len(),
    ensures
        views_of(r@) == selected_names(views_of(names@), mask_set(sel@), names@.len() as int),
{
    let n: usize = names.len();
    let mut r: Vec<Vec<char>> = Vec::new();
    let mut k: usize = 0;
    proof {
        assert(views_of(r@) =~= selected_names(views_of(names@), mask_set(sel@), 0));
    }
    while k < n
        invariant
            n == names@.len(),
            n == sel@.len(),
            k <= n,
            views_of(r@) == selected_names(views_of(names@), mask_set(sel@), k as int),
        decreases n - k,
    {
        let ghost before = r@;
        if sel[k] {
            r.push(copy_range(&names[k], 0, names[k].len()));
            proof {
                assert(mask_set(sel@).contains(k as int));
                assert(r@[r@.len() - 1]@ =~= views_of(names@)[k as int]);
                assert(views_of(r@) =~= views_of(before) + seq![views_of(names@)[k as int]]);
            }
        } else {
            proof {
                assert(!mask_set(sel@).contains(k as int));
            }
        }
        proof {
            assert(views_of(r@) =~= selected_names(views_of(names@), mask_set(sel@), k + 1));
        }
        k = k + 1;
    }
    r
}

/// What the detection stages yield for a file: the used and the
/// needs-import-cleanup sets, seen after accessor declarations are
/// stripped and the old block is cleared.
pub open spec fn spec_detect(t: Seq<char>, tbl: Seq<ConstDefV>) -> ScanOut {
    let names = tbl_names(tbl);
    let st = spec_strip_funcs(names, t, 0);
    spec_scan(names, spec_clear_block(st.text), 0, true, st.declared)
}

/// The set of table indices whose constants the file uses.
pub open spec fn spec_used_set(t: Seq<char>, tbl: Seq<ConstDefV>) -> Set<int> {
    spec_detect(t, tbl).used
}

/// The whole rewrite of one file against a resolved table: strip accessor
/// functions (recording locally declared constants), clear the old
/// generated block, normalize usages (flagging call-form constants that
/// were not locally declared), prune the flagged constants' imports, and,
/// if any constant is used, place the regenerated block.
pub open spec fn spec_gen_consts(t: Seq<char>, tbl: Seq<ConstDefV>) -> Seq<char> {
    let names = tbl_names(tbl);
    let sc = spec_detect(t, tbl);
    let prune_names = selected_names(names, sc.cleanup, names.len() as int);
    let t4 = spec_prune(prune_names, sc.text, 0);
    if sc.used == Set::<int>::empty() {
        t4
    } else {
        spec_place_block(t4, whole_block(tbl, sc.used))
    }
}

/// Rewrite one file's text against the resolved table.
pub fn gen_consts(file_content: &str, table: &ConstantTable) -> (r: String)
    requires
        table.wf(),
    ensures
        r@ == spec_gen_consts(file_content@, table@),
{
    let t0 = str_to_chars(file_content);
    let names = table_names_chars(table);
    proof {
        assert forall|k: int| 0 <= k < views_of(names@).len() implies (#[trigger] views_of(
            names@,
        )[k]).len() > 0 by {
            assert(views_of(names@)[k] == table@[k].name);
            assert(crate::table::valid_const_name(table@[k].name));
        }
    }
    let (t1, declared) = strip_funcs(&names, &t0);
    let t2 = clear_block(&t1);
    let (t3, mask, cleanup) = scan_usages(&names, &t2, &declared);
    let prune_names = select_names(&names, &cleanup);
    let t4 = prune_imports(&prune_names, &t3);
    let n: usize = mask.len();
    let mut any = false;
    let mut k: usize = 0;
    while k < n
        invariant
            n == mask@.len(),
            k <= n,
            any == exists|j: int| 0 <= j < k && mask@[j],
        decreases n - k,
    {
        if mask[k] {
            any = true;
            proof {
                assert(mask@[k as int]);
            }
        }
        k = k + 1;
    }
    let ghost used = spec_used_set(file_content@, table@);
    proof {
        assert(mask_set(mask@) == used);
        if any {
            let j = choose|j: int| 0 <= j < n && mask@[j];
            assert(mask_set(mask@).contains(j));
            assert(!Set::<int>::empty().contains(j));
            assert(used != Set::<int>::empty());
        } else {
            assert(mask_set(mask@) =~= Set::<int>::empty());
        }
    }
    if !any {
        chars_to_string(&t4)
    } else {
        let block = build_block(table, &mask);
        let placed = place_block_exec(&t4, &block);
        chars_to_string(&placed)
    }
}


/// The texts of a sequence of strings.
pub open spec fn str_views(s: Seq<String>) -> Seq<Seq<char>> {
    Seq::new(s.len(), |i: int| s[i]@)
}

/// The table indices whose constant names are among `cs`.
pub open spec fn names_idx_set(tbl: Seq<ConstDefV>, cs: Seq<Seq<char>>) -> Set<int> {
    Set::new(|k: int| 0 <= k < tbl.len() && name_in(cs, tbl[k].name))
}

/// The generated block for the given used constants: empty when none is
/// used, else the marker-framed block of their declarations in table
/// order, each as `const NAME: TYPE = VALUE;` under its comment.
pub fn create_const_block(consts: &Vec<String>, table: &ConstantTable) -> (r: String)
    ensures
        consts@.len() == 0 ==> r@ == Seq::<char>::empty(),
        consts@.len() > 0 ==> r@ == whole_block(table@, names_idx_set(table@, str_views(consts@))),
{
    if consts.len() == 0 {
        return String::new();
    }
    let n: usize = table.len();
    let mut mask: Vec<bool> = Vec::new();
    let mut k: usize = 0;
    while k < n
        invariant
            n == table@.len(),
            k <= n,
            mask@.len() == k,
            forall|j: int|
                0 <= j < k ==> #[trigger] mask@[j] == name_in(str_views(consts@), table@[j].name),
        decreases n - k,
    {
        let e = table.entry_at(k);
        let cn: usize = consts.len();
        let mut m = false;
        let mut i: usize = 0;
        while i < cn
            invariant
                cn == consts@.len(),
                i <= cn,
                e@ == table@[k as int],
                m == exists|j: int| 0 <= j < i && (#[trigger] consts@[j])@ == table@[k as int].name,
            decreases cn - i,
        {
            if eq_str(consts[i].as_str(), e.name.as_str()) {
                m = true;
                proof {
                    assert((consts@[i as int])@ == table@[k as int].name);
                }
            }
            i = i + 1;
        }
        proof {
            if m {
                let j = choose|j: int|
                    0 <= j < cn && (#[trigger] consts@[j])@ == table@[k as int].name;
                assert(str_views(consts@)[j] == table@[k as int].name);
            }
            if name_in(str_views(consts@), table@[k as int].name) {
                let j = choose|j: int|
                    0 <= j < str_views(consts@).len() && str_views(consts@)[j] == table@[k as int].name;
                assert((consts@[j])@ == table@[k as int].name);
            }
        }
        mask.push(m);
        k = k + 1;
    }
    proof {
        assert(mask_set(mask@) =~= names_idx_set(table@, str_views(consts@)));
    }
    let block = build_block(table, &mask);
    chars_to_string(&block)
}

/// The names among the first `n` table entries whose indices are in
/// `used`, in table order.
pub open spec fn idx_names(tbl: Seq<ConstDefV>, used: Set<int>, n: int) -> Seq<Seq<char>>
    decreases n,
{
    if n <= 0 {
        Seq::empty()
    } else {
        idx_names(tbl, used, n - 1) + if used.contains(n - 1) {
            seq![tbl[n - 1].name]
        } else {
            Seq::<Seq<char>>::empty()
        }
    }
}

/// The names of the constants the file uses, in table order: what the
/// usage scan records after accessor declarations are stripped and the
/// old generated block is cleared.
pub fn used_constants(file_content: &str, table: &ConstantTable) -> (r: Vec<String>)
    requires
        table.wf(),
    ensures
        str_views(r@) == idx_names(
            table@,
            spec_used_set(file_content@, table@),
            table@.len() as int,
        ),
{
    let t0 = str_to_chars(file_content);
    let names = table_names_chars(table);
    proof {
        assert forall|k: int| 0 <= k < views_of(names@).len() implies (#[trigger] views_of(
            names@,
        )[k]).len() > 0 by {
            assert(views_of(names@)[k] == table@[k].name);
            assert(crate::table::valid_const_name(table@[k].name));
        }
    }
    let (t1, declared) = strip_funcs(&names, &t0);
    let t2 = clear_block(&t1);
    let (_t3, mask, _cleanup) = scan_usages(&names, &t2, &declared);
    let ghost used = spec_used_set(file_content@, table@);
    proof {
        assert(mask_set(mask@) == used);
    }
    let n: usize = table.len();
    let mut r: Vec<String> = Vec::new();
    let mut k: usize = 0;
    proof {
        assert(str_views(r@) =~= idx_names(table@, used, 0));
    }
    while k < n
        invariant
            n == table@.len(),
            n == mask@.len(),
            k <= n,
            mask_set(mask@) == used,
            str_views(r@) == idx_names(table@, used, k as int),
        decreases n - k,
    {
        let ghost before = r@;
        if mask[k] {
            r.push(table.entry_at(k).name.clone());
            proof {
                assert(used.contains(k as int));
                assert(str_views(r@) =~= str_views(before) + seq![table@[k as int].name]);
            }
        } else {
            proof {
                assert(!used.contains(k as int));
            }
        }
        proof {
            assert(str_views(r@) =~= idx_names(table@, used, k + 1));
        }
        k = k + 1;
    }
    r
}

/// The names among the first `n` table entries that are not in `cs`, in
/// table order.
pub open spec fn missing_names(tbl: Seq<ConstDefV>, cs: Seq<Seq<char>>, n: int) -> Seq<Seq<char>>
    decreases n,
{
    if n <= 0 {
        Seq::empty()
    } else {
        missing_names(tbl, cs, n - 1) + if !name_in(cs, tbl[n - 1].name) {
            seq![tbl[n - 1].name]
        } else {
            Seq::<Seq<char>>::empty()
        }
    }
}

/// The table constants that the given used set never mentions, in table
/// order: what the unused-constant report lists.
pub fn unused_constants(consts: &Vec<String>, table: &ConstantTable) -> (r: Vec<String>)
    ensures
        str_views(r@) == missing_names(table@, str_views(consts@), table@.len() as int),
{
    let n: usize = table.len();
    let mut r: Vec<String> = Vec::new();
    let mut k: usize = 0;
    proof {
        assert(str_views(r@) =~= missing_names(table@, str_views(consts@), 0));
    }
    while k < n
        invariant
            n == table@.len(),
            k <= n,
            str_views(r@) == missing_names(table@, str_views(consts@), k as int),
        decreases n - k,
    {
        let e = table.entry_at(k);
        let cn: usize = consts.len();
        let mut m = false;
        let mut i: usize = 0;
        while i < cn
            invariant
                cn == consts@.len(),
                i <= cn,
                e@ == table@[k as int],
                m == exists|j: int| 0 <= j < i && (#[trigger] consts@[j])@ == table@[k as int].name,
            decreases cn - i,
        {
            if eq_str(consts[i].as_str(), e.name.as_str()) {
                m = true;
                proof {
                    assert((consts@[i as int])@ == table@[k as int].name);
                }
            }
            i = i + 1;
        }
        proof {
            if m {
                let j = choose|j: int|
                    0 <= j < cn && (#[trigger] consts@[j])@ == table@[k as int].name;
                assert(str_views(consts@)[j] == table@[k as int].name);
            }
            if name_in(str_views(consts@), table@[k as int].name) {
                let j = choose|j: int|
                    0 <= j < str_views(consts@).len() && str_views(consts@)[j] == table@[k as int].name;
                assert((consts@[j])@ == table@[k as int].name);
            }
        }
        let ghost before = r@;
        if !m {
            r.push(table.entry_at(k).name.clone());
            proof {
                assert(str_views(r@) =~= str_views(before) + seq![table@[k as int].name]);
            }
        }
        proof {
            assert(str_views(r@) =~= missing_names(table@, str_views(consts@), k + 1));
        }
        k = k + 1;
    }
    r
}

} // verus!
