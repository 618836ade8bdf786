//! Textual patterns rendered from the table: an alternation of the
//! constant names, ordered from lexicographically greatest to least so
//! that a longer name stands before any shorter prefix of it, and the
//! import and accessor-function patterns built around that alternation.

use vstd::prelude::*;
use crate::table::{ConstantTable, ConstDefV};
use crate::text::{chars_to_string, push_str_chars, str_to_chars, push_all};

verus! {

/// The alternation of the names of entries `k` down to `0`, each in
/// parentheses, separated by `|`: `(NAME_k)|...|(NAME_0)`.
pub open spec fn spec_const_regex_rec(tbl: Seq<ConstDefV>, k: int) -> Seq<char>
    decreases k + 1 when k >= -1
{
    if k < 0 {
        Seq::empty()
    } else {
        "("@ + tbl[k].name + ")"@ + (if k > 0 {
            "|"@ + spec_const_regex_rec(tbl, k - 1)
        } else {
            Seq::<char>::empty()
        })
    }
}

/// The alternation of all constant names, in reverse table order, so the
/// lexicographically greatest — and with it any longer name sharing a
/// prefix — stands first.
pub open spec fn spec_const_regex(tbl: Seq<ConstDefV>) -> Seq<char> {
    spec_const_regex_rec(tbl, tbl.len() - 1)
}

fn const_regex_chars(table: &ConstantTable) -> (r: Vec<char>)
    requires
        table@.len() > 0,
    ensures
        r@ == spec_const_regex(table@),
{
    let n: usize = table.len();
    let mut out: Vec<char> = Vec::new();
    let mut k: usize = n;
    proof {
        assert(Seq::<char>::empty() + spec_const_regex_rec(table@, n - 1) == spec_const_regex(
            table@,
        ));
    }
    while k > 0
        invariant
            n == table@.len(),
            k <= n,
            out@ + spec_const_regex_rec(table@, k as int - 1) == spec_const_regex(table@),
        decreases k,
    {
        let idx = k - 1;
        let ghost before = out@;
        push_str_chars(&mut out, "(");
        let name = str_to_chars(table.entry_at(idx).name.as_str());
        push_all(&mut out, &name);
        push_str_chars(&mut out, ")");
        if idx > 0 {
            push_str_chars(&mut out, "|");
        }
        proof {
            if idx > 0 {
                assert(before + ("("@ + table@[idx as int].name + ")"@ + ("|"@
                    + spec_const_regex_rec(table@, idx - 1))) =~= out@ + spec_const_regex_rec(
                    table@,
                    idx - 1,
                ));
            } else {
                assert(before + ("("@ + table@[idx as int].name + ")"@ + Seq::<char>::empty())
                    =~= out@);
                assert(out@ + spec_const_regex_rec(table@, -1) =~= out@);
            }
        }
        k = idx;
    }
    out
}

/// The alternation pattern of all constant names, longest-first by
/// standing the lexicographically greatest name first.
pub fn get_const_regex(table: &ConstantTable) -> (r: String)
    requires
        table@.len() > 0,
    ensures
        r@ == spec_const_regex(table@),
{
    let v = const_regex_chars(table);
    chars_to_string(&v)
}

/// The pattern of an import statement that mentions a constant name.
pub fn get_import_regex(table: &ConstantTable) -> (r: String)
    requires
        table@.len() > 0,
    ensures
        r@ == "    use\\s+[a-zA-Z0-9_:,{}()\\s]*("@ + spec_const_regex(table@)
            + ")[a-zA-Z0-9_:,{}()\\s]*;\n"@,
{
    let mut out: Vec<char> = Vec::new();
    push_str_chars(&mut out, "    use\\s+[a-zA-Z0-9_:,{}()\\s]*(");
    let cr = const_regex_chars(table);
    push_all(&mut out, &cr);
    push_str_chars(&mut out, ")[a-zA-Z0-9_:,{}()\\s]*;\n");
    chars_to_string(&out)
}

/// The pattern of an accessor-function declaration for a constant.
pub fn get_const_funcs_regex(table: &ConstantTable) -> (r: String)
    requires
        table@.len() > 0,
    ensures
        r@ == "\\s*public fun ("@ + spec_const_regex(table@)
            + ")\\(\\)\\s*:\\s*(\\w+)\\s*\\{\\s*([^}]*)*\\}"@,
{
    let mut out: Vec<char> = Vec::new();
    push_str_chars(&mut out, "\\s*public fun (");
    let cr = const_regex_chars(table);
    push_all(&mut out, &cr);
    push_str_chars(&mut out, ")\\(\\)\\s*:\\s*(\\w+)\\s*\\{\\s*([^}]*)*\\}");
    chars_to_string(&out)
}

} // verus!
