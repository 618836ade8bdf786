//! Laws of the resolver and the rewriter, stated and proved over the
//! mathematical models that the executable functions' contracts use.

use vstd::prelude::*;
use crate::table::{ConstDefV, lex_lt, sorted_names};
use crate::rewrite::{
    name_in, name_match_at, best_match, lemma_best_match, prune_line, import_parse, spec_trim,
    kept_items, spec_place_block, spec_clear_block, begin_marker, end_marker, spec_strip_funcs,
    func_decl_end, spec_scan, missing_names, idx_names,
};
use crate::resolve::{spec_resolve_steps, spec_resolve_pass, resolve_entry, outcome_at};
use crate::text::{first_occurrence, occurs_at};
use crate::rewrite::{split_commas, any_item_matches, selected_names};

verus! {

/// Name-collision safety: where a constant name stands in the text as a
/// whole identifier, the scan never takes a shorter constant name for it;
/// in particular a name that is a proper prefix of another is not matched
/// where the longer one stands.
pub proof fn lemma_name_collision_safety(
    names: Seq<Seq<char>>,
    t: Seq<char>,
    i: int,
    a: int,
    b: int,
)
    requires
        0 <= a < names.len(),
        0 <= b < names.len(),
        names[a].len() < names[b].len(),
        name_match_at(t, names[b], i),
    ensures
        best_match(names, t, i) is Some,
        best_match(names, t, i)->0 != a,
        names[best_match(names, t, i)->0].len() >= names[b].len(),
{
    lemma_best_match(names, t, i);
    if best_match(names, t, i) is None {
        assert(!name_match_at(t, names[b], i));
    }
    let k = best_match(names, t, i)->0;
    assert(names[b].len() <= names[k].len());
}

/// Import pruning, single name: an import statement whose names part is a
/// single constant name is removed whole.
pub proof fn lemma_single_import_removed(names: Seq<Seq<char>>, line: Seq<char>)
    requires
        import_parse(line) is Some,
        ({
            let p = import_parse(line)->0;
            let tr = spec_trim(line.subrange(p.0, p.1));
            &&& !(tr.len() >= 2 && tr[0] == '{' && tr[tr.len() - 1] == '}')
            &&& name_in(names, tr)
        }),
    ensures
        prune_line(names, line) == Seq::<char>::empty(),
{
}

/// Import pruning, brace list: every item that is not a pruned name is
/// kept with its text untouched, and everything kept is such an item of
/// the original list.
pub proof fn lemma_kept_items(names: Seq<Seq<char>>, items: Seq<Seq<char>>)
    ensures
        forall|k: int|
            0 <= k < items.len() && !name_in(names, spec_trim(#[trigger] items[k])) ==> kept_items(
                names,
                items,
            ).contains(items[k]),
        forall|j: int|
            0 <= j < kept_items(names, items).len() ==> exists|k: int|
                0 <= k < items.len() && #[trigger] kept_items(names, items)[j] == items[k]
                    && !name_in(names, spec_trim(items[k])),
    decreases items.len(),
{
    if items.len() == 0 {
    } else {
        let rest = items.drop_first();
        lemma_kept_items(names, rest);
        let kr = kept_items(names, rest);
        let tr = spec_trim(items[0]);
        assert(forall|k: int| 0 <= k < rest.len() ==> rest[k] == items[k + 1]);
        assert forall|k: int|
            0 <= k < items.len() && !name_in(names, spec_trim(#[trigger] items[k])) implies kept_items(
            names,
            items,
        ).contains(items[k]) by {
            if k == 0 {
                assert(kept_items(names, items)[0] == items[0]);
            } else {
                assert(kr.contains(rest[k - 1]));
                let j = choose|j: int| 0 <= j < kr.len() && kr[j] == rest[k - 1];
                if name_in(names, tr) {
                    assert(kept_items(names, items)[j] == items[k]);
                } else {
                    assert(kept_items(names, items)[j + 1] == items[k]);
                }
            }
        }
        assert forall|j: int| 0 <= j < kept_items(names, items).len() implies exists|k: int|
            0 <= k < items.len() && #[trigger] kept_items(names, items)[j] == items[k] && !name_in(
                names,
                spec_trim(items[k]),
            ) by {
            if name_in(names, tr) {
                assert(kept_items(names, items)[j] == kr[j]);
                let k = choose|k: int|
                    0 <= k < rest.len() && kr[j] == rest[k] && !name_in(names, spec_trim(rest[k]));
                assert(kept_items(names, items)[j] == items[k + 1]);
            } else {
                if j == 0 {
                    assert(kept_items(names, items)[0] == items[0]);
                } else {
                    assert(kept_items(names, items)[j] == kr[j - 1]);
                    let k = choose|k: int|
                        0 <= k < rest.len() && kr[j - 1] == rest[k] && !name_in(
                            names,
                            spec_trim(rest[k]),
                        );
                    assert(kept_items(names, items)[j] == items[k + 1]);
                }
            }
        }
    }
}

/// Import pruning, emptied list: when every item of a brace-delimited
/// import list is a constant name, nothing is kept.
pub proof fn lemma_all_items_dropped(names: Seq<Seq<char>>, items: Seq<Seq<char>>)
    requires
        forall|k: int| 0 <= k < items.len() ==> name_in(names, spec_trim(#[trigger] items[k])),
    ensures
        kept_items(names, items).len() == 0,
    decreases items.len(),
{
    if items.len() == 0 {
    } else {
        let rest = items.drop_first();
        assert(forall|k: int| 0 <= k < rest.len() ==> rest[k] == items[k + 1]);
        lemma_all_items_dropped(names, rest);
        assert(name_in(names, spec_trim(items[0])));
    }
}

/// Block regeneration: where a normalized marker pair stands, the newly
/// generated block replaces exactly it, in place.
pub proof fn lemma_block_replaces_markers(t: Seq<char>, block: Seq<char>)
    requires
        first_occurrence(t, begin_marker() + end_marker(), 0) is Some,
    ensures
        ({
            let b = first_occurrence(t, begin_marker() + end_marker(), 0)->0;
            spec_place_block(t, block) == t.subrange(0, b) + block + t.subrange(
                b + begin_marker().len() + end_marker().len(),
                t.len() as int,
            )
        }),
{
}

/// Clearing a marked block drops exactly the content between the
/// markers, whatever stale declarations it held.
pub proof fn lemma_clear_block_drops_content(t: Seq<char>)
    requires
        first_occurrence(t, begin_marker(), 0) is Some,
        first_occurrence(
            t,
            end_marker(),
            first_occurrence(t, begin_marker(), 0)->0 + begin_marker().len(),
        ) is Some,
    ensures
        ({
            let cs = first_occurrence(t, begin_marker(), 0)->0 + begin_marker().len();
            let e = first_occurrence(t, end_marker(), cs)->0;
            spec_clear_block(t) == t.subrange(0, cs) + t.subrange(e, t.len() as int)
        }),
{
}

/// Accessor removal: at any scan position where an accessor-function
/// declaration for a table constant is recognized, none of its text
/// reaches the output, and the constant is recorded as locally declared.
pub proof fn lemma_accessor_removed(names: Seq<Seq<char>>, t: Seq<char>, i: int)
    requires
        0 <= i < t.len(),
        func_decl_end(names, t, i) is Some,
        i < (func_decl_end(names, t, i)->0).0 <= t.len(),
    ensures
        ({
            let p = func_decl_end(names, t, i)->0;
            &&& spec_strip_funcs(names, t, i).text == spec_strip_funcs(names, t, p.0).text
            &&& spec_strip_funcs(names, t, i).declared == spec_strip_funcs(
                names,
                t,
                p.0,
            ).declared.insert(p.1)
        }),
{
}

/// Call-site rewriting: where a constant name stands as a whole
/// identifier followed by a call-parenthesis pair, the scan emits the
/// bare name, drops the parentheses, records the constant as used, and —
/// unless the file declared it as a local accessor — flags it for import
/// cleanup.
pub proof fn lemma_call_becomes_bare(names: Seq<Seq<char>>, t: Seq<char>, i: int, declared: Set<int>)
    requires
        0 <= i < t.len(),
        best_match(names, t, i) is Some,
        ({
            let k = best_match(names, t, i)->0;
            let after = i + names[k].len();
            &&& i < after
            &&& after + 2 <= t.len()
            &&& t[after] == '('
            &&& t[after + 1] == ')'
        }),
    ensures
        ({
            let k = best_match(names, t, i)->0;
            let after = i + names[k].len();
            let rec = spec_scan(names, t, after + 2, false, declared);
            &&& spec_scan(names, t, i, false, declared).text == names[k] + rec.text
            &&& spec_scan(names, t, i, false, declared).used == rec.used.insert(k)
            &&& spec_scan(names, t, i, false, declared).cleanup == if declared.contains(k) {
                rec.cleanup
            } else {
                rec.cleanup.insert(k)
            }
        }),
{
    lemma_best_match(names, t, i);
}

/// Unused-constant reporting: every constant whose name is not among the
/// used names is reported, and everything reported is a table constant
/// whose name is not among them.
pub proof fn lemma_unused_reported(tbl: Seq<ConstDefV>, cs: Seq<Seq<char>>, n: int)
    requires
        0 <= n <= tbl.len(),
    ensures
        forall|k: int|
            0 <= k < n && !name_in(cs, (#[trigger] tbl[k]).name) ==> missing_names(
                tbl,
                cs,
                n,
            ).contains(tbl[k].name),
        forall|j: int|
            0 <= j < missing_names(tbl, cs, n).len() ==> !name_in(
                cs,
                #[trigger] missing_names(tbl, cs, n)[j],
            ) && exists|k: int| 0 <= k < n && missing_names(tbl, cs, n)[j] == (#[trigger] tbl[k]).name,
    decreases n,
{
    if n <= 0 {
    } else {
        lemma_unused_reported(tbl, cs, n - 1);
        let prev = missing_names(tbl, cs, n - 1);
        let cur = missing_names(tbl, cs, n);
        assert forall|k: int|
            0 <= k < n && !name_in(cs, (#[trigger] tbl[k]).name) implies cur.contains(tbl[k].name) by {
            if k < n - 1 {
                assert(prev.contains(tbl[k].name));
                let j = choose|j: int| 0 <= j < prev.len() && prev[j] == tbl[k].name;
                assert(cur[j] == tbl[k].name);
            } else {
                assert(cur[cur.len() - 1] == tbl[n - 1].name);
            }
        }
    }
}

/// Deterministic rendering: on a well-formed table the names that a
/// generated block or a usage report lists stand in strictly ascending
/// lexicographic order, whatever the used set.
pub proof fn lemma_listed_names_sorted(tbl: Seq<ConstDefV>, used: Set<int>, n: int)
    requires
        sorted_names(tbl),
        0 <= n <= tbl.len(),
    ensures
        forall|i: int, j: int|
            0 <= i < j < idx_names(tbl, used, n).len() ==> lex_lt(
                #[trigger] idx_names(tbl, used, n)[i],
                #[trigger] idx_names(tbl, used, n)[j],
            ),
        forall|j: int|
            0 <= j < idx_names(tbl, used, n).len() ==> exists|k: int|
                0 <= k < n && #[trigger] idx_names(tbl, used, n)[j] == tbl[k].name && (forall|
                    j2: int,
                |
                    j < j2 < idx_names(tbl, used, n).len() ==> exists|k2: int|
                        k < k2 < tbl.len() && #[trigger] idx_names(tbl, used, n)[j2]
                            == tbl[k2].name),
    decreases n,
{
    if n <= 0 {
    } else {
        lemma_listed_names_sorted(tbl, used, n - 1);
        let prev = idx_names(tbl, used, n - 1);
        let cur = idx_names(tbl, used, n);
        assert forall|j: int| 0 <= j < cur.len() implies exists|k: int|
            0 <= k < n && #[trigger] cur[j] == tbl[k].name && (forall|j2: int|
                j < j2 < cur.len() ==> exists|k2: int|
                    k < k2 < tbl.len() && #[trigger] cur[j2] == tbl[k2].name) by {
            if j < prev.len() {
                let k = choose|k: int|
                    0 <= k < n - 1 && #[trigger] prev[j] == tbl[k].name && (forall|j2: int|
                        j < j2 < prev.len() ==> exists|k2: int|
                            k < k2 < tbl.len() && #[trigger] prev[j2] == tbl[k2].name);
                assert(cur[j] == prev[j]);
                assert forall|j2: int| j < j2 < cur.len() implies exists|k2: int|
                    k < k2 < tbl.len() && #[trigger] cur[j2] == tbl[k2].name by {
                    if j2 < prev.len() {
                        assert(cur[j2] == prev[j2]);
                    } else {
                        assert(cur[j2] == tbl[n - 1].name);
                        assert(k < n - 1 < tbl.len());
                    }
                }
            } else {
                assert(cur[j] == tbl[n - 1].name);
            }
        }
        assert forall|i: int, j: int| 0 <= i < j < cur.len() implies lex_lt(
            #[trigger] cur[i],
            #[trigger] cur[j],
        ) by {
            let k = choose|k: int|
                0 <= k < n && #[trigger] cur[i] == tbl[k].name && (forall|j2: int|
                    i < j2 < cur.len() ==> exists|k2: int|
                        k < k2 < tbl.len() && #[trigger] cur[j2] == tbl[k2].name);
            let k2 = choose|k2: int| k < k2 < tbl.len() && #[trigger] cur[j] == tbl[k2].name;
            assert(lex_lt(tbl[k].name, tbl[k2].name));
        }
    }
}

/// Resolution keeps the table's shape: every pass, and any sequence of
/// passes, keeps the number of entries and each entry's name, type and
/// comment, whatever the evaluation outcomes; only values move.
pub proof fn lemma_resolve_keeps_shape(tbl: Seq<ConstDefV>, steps: Seq<Seq<Option<i64>>>)
    ensures
        spec_resolve_steps(tbl, steps).len() == tbl.len(),
        forall|k: int|
            0 <= k < tbl.len() ==> {
                let d = #[trigger] spec_resolve_steps(tbl, steps)[k];
                d.name == tbl[k].name && d.ty == tbl[k].ty && d.comment == tbl[k].comment
            },
    decreases steps.len(),
{
    if steps.len() == 0 {
    } else {
        lemma_resolve_keeps_shape(spec_resolve_pass(tbl, steps[0]), steps.drop_first());
        assert(forall|k: int|
            0 <= k < tbl.len() ==> (#[trigger] spec_resolve_pass(tbl, steps[0])[k]) == resolve_entry(
                tbl[k],
                outcome_at(steps[0], k),
            ));
    }
}

/// Resolution convergence under failure: an entry whose expression fails
/// to evaluate in every pass — a self-reference, say, which the evaluator
/// rejects under any bindings — keeps its value text through any sequence
/// of passes, which always terminates.
pub proof fn lemma_unresolvable_entry_kept(tbl: Seq<ConstDefV>, steps: Seq<Seq<Option<i64>>>, k: int)
    requires
        0 <= k < tbl.len(),
        forall|j: int| 0 <= j < steps.len() ==> outcome_at(#[trigger] steps[j], k) is None,
    ensures
        spec_resolve_steps(tbl, steps)[k] == tbl[k],
    decreases steps.len(),
{
    if steps.len() == 0 {
    } else {
        let t1 = spec_resolve_pass(tbl, steps[0]);
        assert(t1[k] == resolve_entry(tbl[k], outcome_at(steps[0], k)));
        assert(t1[k] == tbl[k]);
        assert(forall|j: int|
            0 <= j < steps.drop_first().len() ==> #[trigger] steps.drop_first()[j] == steps[j + 1]);
        lemma_unresolvable_entry_kept(t1, steps.drop_first(), k);
    }
}


/// No constant name occurs anywhere in the text.
pub open spec fn mentions_no_constant(names: Seq<Seq<char>>, t: Seq<char>) -> bool {
    forall|k: int, i: int|
        0 <= k < names.len() ==> !(#[trigger] occurs_at(t, names[k], i))
}

/// Without a constant name in the text there is no accessor declaration
/// to recognize.
proof fn lemma_no_decl_without_names(names: Seq<Seq<char>>, t: Seq<char>, i: int)
    requires
        0 <= i <= t.len(),
        mentions_no_constant(names, t),
    ensures
        func_decl_end(names, t, i) is None,
{
    if func_decl_end(names, t, i) is Some {
        crate::text::lemma_skip_ws_bounds(t, i);
        let p = crate::text::spec_skip_ws(t, i);
        let q = p + "public fun "@.len();
        crate::text::lemma_skip_word_bounds(t, q);
        let r = crate::text::spec_skip_word(t, q);
        crate::rewrite::lemma_index_of_name(names, t.subrange(q, r));
        let k = choose|k: int| 0 <= k < names.len() && names[k] == t.subrange(q, r);
        assert(occurs_at(t, names[k], q)) by {
            reveal_strlit("public fun ");
            assert(occurs_at(t, "public fun "@, p));
            assert(q + (r - q) <= t.len());
        }
    }
}

proof fn lemma_strip_leaves_text(names: Seq<Seq<char>>, t: Seq<char>, i: int)
    requires
        0 <= i <= t.len(),
        mentions_no_constant(names, t),
    ensures
        spec_strip_funcs(names, t, i).text == t.subrange(i, t.len() as int),
        spec_strip_funcs(names, t, i).declared == Set::<int>::empty(),
    decreases t.len() - i,
{
    lemma_no_decl_without_names(names, t, i);
    if i >= t.len() {
        assert(spec_strip_funcs(names, t, i).text =~= t.subrange(i, t.len() as int));
    } else {
        lemma_strip_leaves_text(names, t, i + 1);
        assert(seq![t[i]] + t.subrange(i + 1, t.len() as int) =~= t.subrange(i, t.len() as int));
    }
}

proof fn lemma_scan_leaves_text(
    names: Seq<Seq<char>>,
    t: Seq<char>,
    i: int,
    line_start: bool,
    declared: Set<int>,
)
    requires
        0 <= i <= t.len(),
        mentions_no_constant(names, t),
    ensures
        spec_scan(names, t, i, line_start, declared).text == t.subrange(i, t.len() as int),
        spec_scan(names, t, i, line_start, declared).used == Set::<int>::empty(),
        spec_scan(names, t, i, line_start, declared).cleanup == Set::<int>::empty(),
    decreases t.len() - i,
{
    if i >= t.len() {
        assert(spec_scan(names, t, i, line_start, declared).text =~= t.subrange(
            i,
            t.len() as int,
        ));
    } else if line_start && crate::text::spec_is_comment_line(t, i) {
        let e = crate::text::spec_line_end(t, i);
        crate::text::lemma_line_end_bounds(t, i);
        if i < e <= t.len() {
            lemma_scan_leaves_text(names, t, e, true, declared);
            assert(t.subrange(i, e) + t.subrange(e, t.len() as int) =~= t.subrange(
                i,
                t.len() as int,
            ));
        } else {
            lemma_scan_leaves_text(names, t, i + 1, t[i] == '\n', declared);
            assert(seq![t[i]] + t.subrange(i + 1, t.len() as int) =~= t.subrange(
                i,
                t.len() as int,
            ));
        }
    } else {
        lemma_best_match(names, t, i);
        if best_match(names, t, i) is Some {
            let k = best_match(names, t, i)->0;
            assert(occurs_at(t, names[k], i));
        }
        lemma_scan_leaves_text(names, t, i + 1, t[i] == '\n', declared);
        assert(seq![t[i]] + t.subrange(i + 1, t.len() as int) =~= t.subrange(i, t.len() as int));
    }
}

proof fn lemma_selected_names_empty(names: Seq<Seq<char>>, n: int)
    ensures
        selected_names(names, Set::<int>::empty(), n) == Seq::<Seq<char>>::empty(),
    decreases n,
{
    if n <= 0 {
        assert(selected_names(names, Set::<int>::empty(), n) =~= Seq::<Seq<char>>::empty());
    } else {
        lemma_selected_names_empty(names, n - 1);
        assert(selected_names(names, Set::<int>::empty(), n) =~= Seq::<Seq<char>>::empty());
    }
}

/// With nothing flagged for cleanup no line changes under pruning.
proof fn lemma_prune_line_no_names(line: Seq<char>)
    ensures
        prune_line(Seq::<Seq<char>>::empty(), line) == line,
{
    let names = Seq::<Seq<char>>::empty();
    match import_parse(line) {
        None => {},
        Some((ns, semi)) => {
            let tr = spec_trim(line.subrange(ns, semi));
            if tr.len() >= 2 && tr[0] == '{' && tr[tr.len() - 1] == '}' {
                let items = split_commas(tr.subrange(1, tr.len() - 1));
                assert(!any_item_matches(names, items));
            } else {
                assert(!name_in(names, tr));
            }
        },
    }
}

proof fn lemma_prune_no_names(t: Seq<char>, i: int)
    requires
        0 <= i <= t.len(),
    ensures
        crate::rewrite::spec_prune(Seq::<Seq<char>>::empty(), t, i) == t.subrange(
            i,
            t.len() as int,
        ),
    decreases t.len() - i,
{
    let names = Seq::<Seq<char>>::empty();
    if i >= t.len() {
        assert(crate::rewrite::spec_prune(names, t, i) =~= t.subrange(i, t.len() as int));
    } else {
        let e = crate::text::spec_line_end(t, i);
        crate::text::lemma_line_end_bounds(t, i);
        if i < e <= t.len() {
            lemma_prune_line_no_names(t.subrange(i, e));
            lemma_prune_no_names(t, e);
            assert(t.subrange(i, e) + t.subrange(e, t.len() as int) =~= t.subrange(
                i,
                t.len() as int,
            ));
        } else {
            lemma_prune_no_names(t, i + 1);
            assert(seq![t[i]] + t.subrange(i + 1, t.len() as int) =~= t.subrange(
                i,
                t.len() as int,
            ));
        }
    }
}

/// A file that mentions no constant name and holds no generated-block
/// marker is returned byte-identical; in particular the rewriter is
/// idempotent on everything it leaves alone.
pub proof fn lemma_untouched_file(tbl: Seq<ConstDefV>, t: Seq<char>)
    requires
        mentions_no_constant(crate::rewrite::tbl_names(tbl), t),
        crate::text::first_occurrence(t, begin_marker(), 0) is None,
    ensures
        crate::rewrite::spec_gen_consts(t, tbl) == t,
{
    let names = crate::rewrite::tbl_names(tbl);
    lemma_strip_leaves_text(names, t, 0);
    let st = spec_strip_funcs(names, t, 0);
    assert(st.text =~= t);
    let t2 = spec_clear_block(st.text);
    assert(t2 == t);
    lemma_scan_leaves_text(names, t, 0, true, st.declared);
    let sc = crate::rewrite::spec_detect(t, tbl);
    assert(sc.text =~= t);
    lemma_selected_names_empty(names, names.len() as int);
    lemma_prune_no_names(t, 0);
    assert(crate::rewrite::spec_prune(
        selected_names(names, sc.cleanup, names.len() as int),
        sc.text,
        0,
    ) =~= t);
}

} // verus!
