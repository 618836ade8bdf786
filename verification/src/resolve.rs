//! The constant table resolver's verified core. Evaluating a value
//! expression is the caller's step: the arithmetic evaluator may abort
//! the process on overflowing arithmetic, which no verified function may
//! risk, so a resolution pass takes each entry's evaluation outcome as an
//! argument and states exactly what the table becomes for every outcome —
//! a successful evaluation replaces the value with its canonical
//! hexadecimal rendering, anything else leaves the entry as it is.

use vstd::prelude::*;
use crate::table::{ConstantTable, ConstDefV, eq_str};
use crate::hex::{spec_hex_render, hex_render};
use crate::text::chars_to_string;

verus! {

/// The outcome for entry `k` of an outcome list: a missing position
/// counts as a failed evaluation.
pub open spec fn outcome_at(outcomes: Seq<Option<i64>>, k: int) -> Option<i64> {
    if 0 <= k < outcomes.len() {
        outcomes[k]
    } else {
        None
    }
}

/// One entry after one resolution pass: a successful evaluation makes
/// the value the canonical hexadecimal rendering of its integer; a
/// failed one leaves the entry as it is.
pub open spec fn resolve_entry(d: ConstDefV, outcome: Option<i64>) -> ConstDefV {
    match outcome {
        Some(v) => ConstDefV {
            name: d.name,
            ty: d.ty,
            value: spec_hex_render(v),
            comment: d.comment,
        },
        None => d,
    }
}

/// One full resolution pass over the table, given the evaluation outcome
/// of every entry's value expression.
pub open spec fn spec_resolve_pass(tbl: Seq<ConstDefV>, outcomes: Seq<Option<i64>>) -> Seq<
    ConstDefV,
> {
    Seq::new(tbl.len(), |i: int| resolve_entry(tbl[i], outcome_at(outcomes, i)))
}

/// Whether a pass changes any value.
pub open spec fn pass_changed(tbl: Seq<ConstDefV>, outcomes: Seq<Option<i64>>) -> bool {
    exists|i: int|
        0 <= i < tbl.len() && (#[trigger] spec_resolve_pass(tbl, outcomes)[i]).value
            != tbl[i].value
}

/// The table after a sequence of passes, each with its outcomes.
pub open spec fn spec_resolve_steps(tbl: Seq<ConstDefV>, steps: Seq<Seq<Option<i64>>>) -> Seq<
    ConstDefV,
>
    decreases steps.len(),
{
    if steps.len() == 0 {
        tbl
    } else {
        spec_resolve_steps(spec_resolve_pass(tbl, steps[0]), steps.drop_first())
    }
}

/// The pass cap the resolution loop runs under: a table whose
/// dependencies nest deeper, or loop, stops making progress after this
/// many passes.
pub open spec fn resolve_fuel() -> nat {
    5
}

/// The number of passes a resolution loop may run.
pub fn resolve_pass_cap() -> (r: usize)
    ensures
        r == resolve_fuel(),
{
    5
}

/// Apply one resolution pass, given the evaluation outcome of every
/// entry's value expression, and report whether any value changed — the
/// signal to stop iterating.
pub fn resolve_pass_outcomes(table: &mut ConstantTable, outcomes: &Vec<Option<i64>>) -> (changed:
    bool)
    requires
        old(table).wf(),
    ensures
        final(table).wf(),
        final(table)@ == spec_resolve_pass(old(table)@, outcomes@),
        changed == pass_changed(old(table)@, outcomes@),
{
    let n: usize = table.len();
    let mut changed = false;
    let mut i: usize = 0;
    while i < n
        invariant
            table.wf(),
            n == table@.len(),
            n == old(table)@.len(),
            i <= n,
            forall|k: int| i <= k < n ==> table@[k] == old(table)@[k],
            forall|k: int|
                0 <= k < i ==> table@[k] == resolve_entry(
                    old(table)@[k],
                    outcome_at(outcomes@, k),
                ),
            changed == exists|k: int|
                0 <= k < i && (#[trigger] resolve_entry(
                    old(table)@[k],
                    outcome_at(outcomes@, k),
                )).value != old(table)@[k].value,
        decreases n - i,
    {
        let outcome: Option<i64> = if i < outcomes.len() {
            outcomes[i]
        } else {
            None
        };
        proof {
            assert(outcome == outcome_at(outcomes@, i as int));
        }
        match outcome {
            Some(v) => {
                let new_value = chars_to_string(&hex_render(v));
                let same = eq_str(new_value.as_str(), table.entry_at(i).def.value.as_str());
                if !same {
                    changed = true;
                }
                proof {
                    assert(resolve_entry(old(table)@[i as int], outcome_at(outcomes@, i as int)).value
                        == new_value@);
                }
                table.set_value_at(i, new_value);
            },
            None => {
                proof {
                    assert(resolve_entry(old(table)@[i as int], outcome_at(outcomes@, i as int))
                        == old(table)@[i as int]);
                }
            },
        }
        i = i + 1;
    }
    proof {
        assert(table@ =~= spec_resolve_pass(old(table)@, outcomes@));
        assert(changed == pass_changed(old(table)@, outcomes@)) by {
            if changed {
                let k = choose|k: int|
                    0 <= k < n && (#[trigger] resolve_entry(
                        old(table)@[k],
                        outcome_at(outcomes@, k),
                    )).value != old(table)@[k].value;
                assert(spec_resolve_pass(old(table)@, outcomes@)[k].value != old(table)@[k].value);
            }
            if pass_changed(old(table)@, outcomes@) {
                let k = choose|k: int|
                    0 <= k < old(table)@.len() && (#[trigger] spec_resolve_pass(
                        old(table)@,
                        outcomes@,
                    )[k]).value != old(table)@[k].value;
                assert(resolve_entry(old(table)@[k], outcome_at(outcomes@, k)).value
                    != old(table)@[k].value);
            }
        }
    }
    changed
}

} // verus!
