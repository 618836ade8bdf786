//! The constant table: named constant definitions, kept sorted by name so
//! that every rendering of the table into text is deterministic.

use vstd::prelude::*;
use crate::text::{is_word_char, str_to_chars};

verus! {

/// The shape a raw table entry may take before resolution.
#[derive(Debug)]
pub enum ConstantTypes {
    String { value: std::string::String },
    Number { value: std::string::String },
    Hex { value: std::string::String },
}

/// One constant definition: the type name as it must appear in generated
/// declarations, the value (an expression until resolved, then a literal),
/// and an optional comment rendered above the declaration.
pub struct ConstantValue {
    pub ty_name: String,
    pub value: String,
    pub comment: Option<String>,
}

/// The mathematical model of a constant value.
pub ghost struct ConstValV {
    pub ty: Seq<char>,
    pub value: Seq<char>,
    pub comment: Option<Seq<char>>,
}

impl View for ConstantValue {
    type V = ConstValV;

    open spec fn view(&self) -> ConstValV {
        ConstValV {
            ty: self.ty_name@,
            value: self.value@,
            comment: if self.comment is Some {
                Some(self.comment->0@)
            } else {
                None
            },
        }
    }
}

/// The mathematical model of one table entry: a named constant definition.
pub ghost struct ConstDefV {
    pub name: Seq<char>,
    pub ty: Seq<char>,
    pub value: Seq<char>,
    pub comment: Option<Seq<char>>,
}

/// One table entry.
pub struct ConstEntry {
    pub name: String,
    pub def: ConstantValue,
}

impl View for ConstEntry {
    type V = ConstDefV;

    open spec fn view(&self) -> ConstDefV {
        ConstDefV {
            name: self.name@,
            ty: self.def@.ty,
            value: self.def@.value,
            comment: self.def@.comment,
        }
    }
}

/// A valid constant name: an uppercase-with-underscores identifier.
pub open spec fn valid_const_name(name: Seq<char>) -> bool {
    &&& name.len() > 0
    &&& 'A' <= name[0] && name[0] <= 'Z'
    &&& forall|i: int| 0 <= i < name.len() ==> is_word_char(#[trigger] name[i])
    &&& forall|i: int|
        0 <= i < name.len() ==> !('a' <= #[trigger] name[i] && name[i] <= 'z')
}

/// Strict lexicographic order on character sequences, compared from
/// position `i` on.
pub open spec fn lex_lt_from(a: Seq<char>, b: Seq<char>, i: int) -> bool
    decreases a.len() - i when i >= 0
{
    if i < 0 || i >= b.len() {
        false
    } else if i >= a.len() {
        true
    } else if a[i] != b[i] {
        (a[i] as u32) < (b[i] as u32)
    } else {
        lex_lt_from(a, b, i + 1)
    }
}

/// Strict lexicographic order on character sequences.
pub open spec fn lex_lt(a: Seq<char>, b: Seq<char>) -> bool {
    lex_lt_from(a, b, 0)
}

/// Two sequences neither of which is lexicographically below the other are
/// equal.
pub proof fn lemma_lex_total(a: Seq<char>, b: Seq<char>)
    requires
        !lex_lt(a, b),
        !lex_lt(b, a),
    ensures
        a == b,
{
    lemma_lex_total_from(a, b, 0);
    assert(a =~= b);
}

proof fn lemma_lex_total_from(a: Seq<char>, b: Seq<char>, i: int)
    requires
        0 <= i <= a.len(),
        i <= b.len(),
        !lex_lt_from(a, b, i),
        !lex_lt_from(b, a, i),
    ensures
        a.len() == b.len(),
        forall|j: int| i <= j < a.len() ==> a[j] == b[j],
    decreases a.len() - i,
{
    if i >= b.len() {
        if i < a.len() {
            assert(lex_lt_from(b, a, i));
        }
    } else if i >= a.len() {
        assert(lex_lt_from(a, b, i));
    } else if a[i] != b[i] {
        assert((a[i] as u32) == (b[i] as u32));
        vstd::utf8::char_u32_cast(a[i], a[i] as u32);
        vstd::utf8::char_u32_cast(b[i], b[i] as u32);
        assert(false);
    } else {
        lemma_lex_total_from(a, b, i + 1);
    }
}

/// Compare two character vectors lexicographically.
pub fn lex_lt_chars(a: &Vec<char>, b: &Vec<char>) -> (r: bool)
    ensures
        r == lex_lt(a@, b@),
{
    let an: usize = a.len();
    let bn: usize = b.len();
    let mut i: usize = 0;
    loop
        invariant
            i <= an,
            i <= bn,
            an == a@.len(),
            bn == b@.len(),
            lex_lt(a@, b@) == lex_lt_from(a@, b@, i as int),
        decreases an - i,
    {
        if i >= bn {
            return false;
        }
        if i >= an {
            return true;
        }
        if a[i] != b[i] {
            return (a[i] as u32) < (b[i] as u32);
        }
        i = i + 1;
    }
}

/// Whether two string slices hold the same characters.
pub fn eq_str(a: &str, b: &str) -> (r: bool)
    ensures
        r == (a@ == b@),
{
    let av = str_to_chars(a);
    let bv = str_to_chars(b);
    if av.len() != bv.len() {
        return false;
    }
    let mut i: usize = 0;
    while i < av.len()
        invariant
            av@ == a@,
            bv@ == b@,
            av@.len() == bv@.len(),
            i <= av@.len(),
            forall|k: int| 0 <= k < i ==> av@[k] == bv@[k],
        decreases av@.len() - i,
    {
        if av[i] != bv[i] {
            return false;
        }
        i = i + 1;
    }
    proof {
        assert(a@ =~= b@);
    }
    true
}

/// Clone a constant value, field by field.
pub fn clone_value(v: &ConstantValue) -> (r: ConstantValue)
    ensures
        r@ == v@,
{
    ConstantValue {
        ty_name: v.ty_name.clone(),
        value: v.value.clone(),
        comment: match &v.comment {
            Some(c) => Some(c.clone()),
            None => None,
        },
    }
}

fn clone_entry(e: &ConstEntry) -> (r: ConstEntry)
    ensures
        r@ == e@,
{
    ConstEntry { name: e.name.clone(), def: clone_value(&e.def) }
}

/// Names of the table's entries, in order, strictly ascending.
pub open spec fn sorted_names(tbl: Seq<ConstDefV>) -> bool {
    forall|i: int, j: int| 0 <= i < j < tbl.len() ==> lex_lt(#[trigger] tbl[i].name, #[trigger] tbl[j].name)
}

/// Sorted insertion of a definition, replacing an entry of the same name.
pub open spec fn tbl_insert(tbl: Seq<ConstDefV>, d: ConstDefV) -> Seq<ConstDefV>
    decreases tbl.len(),
{
    if tbl.len() == 0 {
        seq![d]
    } else if lex_lt(tbl[0].name, d.name) {
        seq![tbl[0]] + tbl_insert(tbl.drop_first(), d)
    } else if lex_lt(d.name, tbl[0].name) {
        seq![d] + tbl
    } else {
        seq![d] + tbl.drop_first()
    }
}

/// The first entry holding the given name.
pub open spec fn find_name(tbl: Seq<ConstDefV>, name: Seq<char>) -> Option<int>
    decreases tbl.len(),
{
    if tbl.len() == 0 {
        None
    } else if tbl[0].name == name {
        Some(0)
    } else {
        match find_name(tbl.drop_first(), name) {
            Some(i) => Some(i + 1),
            None => None,
        }
    }
}

/// Whether the table holds an entry of the given name.
pub open spec fn has_name(tbl: Seq<ConstDefV>, name: Seq<char>) -> bool {
    exists|i: int| 0 <= i < tbl.len() && (#[trigger] tbl[i]).name == name
}

pub proof fn lemma_find_name(tbl: Seq<ConstDefV>, name: Seq<char>)
    ensures
        find_name(tbl, name) is Some <==> has_name(tbl, name),
        find_name(tbl, name) matches Some(i) ==> 0 <= i < tbl.len() && tbl[i].name == name,
    decreases tbl.len(),
{
    if tbl.len() == 0 {
    } else if tbl[0].name == name {
    } else {
        lemma_find_name(tbl.drop_first(), name);
        if has_name(tbl, name) {
            let i = choose|i: int| 0 <= i < tbl.len() && (#[trigger] tbl[i]).name == name;
            assert(i != 0);
            assert(tbl.drop_first()[i - 1].name == name);
        }
        if find_name(tbl.drop_first(), name) is Some {
            let j = find_name(tbl.drop_first(), name)->0;
            assert(tbl[j + 1].name == name);
        }
    }
}

/// The table of constant definitions: a sorted map from constant name to
/// definition.
pub struct ConstantTable {
    entries: Vec<ConstEntry>,
}

impl View for ConstantTable {
    type V = Seq<ConstDefV>;

    closed spec fn view(&self) -> Seq<ConstDefV> {
        Seq::new(self.entries@.len(), |i: int| self.entries@[i]@)
    }
}

impl ConstantTable {
    /// Every name is a valid constant identifier and the entries are
    /// strictly sorted by name.
    pub open spec fn wf(self) -> bool {
        &&& forall|i: int| 0 <= i < self@.len() ==> valid_const_name((#[trigger] self@[i]).name)
        &&& sorted_names(self@)
    }

    pub fn new() -> (r: ConstantTable)
        ensures
            r@ == Seq::<ConstDefV>::empty(),
            r.wf(),
    {
        let r = ConstantTable { entries: Vec::new() };
        proof {
            assert(r@ =~= Seq::<ConstDefV>::empty());
        }
        r
    }

    pub fn len(&self) -> (r: usize)
        ensures
            r == self@.len(),
    {
        self.entries.len()
    }

    /// Whether `name` is a valid constant identifier.
    pub fn check_name(name: &str) -> (r: bool)
        ensures
            r == valid_const_name(name@),
    {
        let v = str_to_chars(name);
        if v.len() == 0 {
            return false;
        }
        if !('A' <= v[0] && v[0] <= 'Z') {
            return false;
        }
        let mut i: usize = 0;
        while i < v.len()
            invariant
                v@ == name@,
                v@.len() > 0,
                'A' <= v@[0] && v@[0] <= 'Z',
                i <= v@.len(),
                forall|k: int| 0 <= k < i ==> is_word_char(#[trigger] v@[k]),
                forall|k: int| 0 <= k < i ==> !('a' <= #[trigger] v@[k] && v@[k] <= 'z'),
            decreases v@.len() - i,
        {
            let c = v[i];
            if !(('A' <= c && c <= 'Z') || ('0' <= c && c <= '9') || c == '_') {
                proof {
                    if valid_const_name(name@) {
                        assert(is_word_char(name@[i as int]));
                    }
                }
                return false;
            }
            i = i + 1;
        }
        true
    }

    /// The first position whose name is not lexicographically below `nc`.
    fn lower_bound(&self, nc: &Vec<char>) -> (i: usize)
        ensures
            i <= self@.len(),
            forall|k: int| 0 <= k < i ==> lex_lt((#[trigger] self@[k]).name, nc@),
            i < self@.len() ==> !lex_lt(self@[i as int].name, nc@),
    {
        let n: usize = self.entries.len();
        let mut i: usize = 0;
        while i < n
            invariant
                n == self@.len(),
                i <= n,
                forall|k: int| 0 <= k < i ==> lex_lt((#[trigger] self@[k]).name, nc@),
            decreases n - i,
        {
            let ec = str_to_chars(self.entries[i].name.as_str());
            if !lex_lt_chars(&ec, nc) {
                return i;
            }
            i = i + 1;
        }
        i
    }

    /// Insert a definition under `name`, keeping the entries sorted;
    /// an entry already under that name is replaced. A name that is not a
    /// valid constant identifier is rejected and nothing changes.
    pub fn insert(&mut self, name: String, def: ConstantValue) -> (r: bool)
        requires
            old(self).wf(),
        ensures
            final(self).wf(),
            r == valid_const_name(name@),
            r ==> final(self)@ == tbl_insert(
                old(self)@,
                ConstDefV { name: name@, ty: def@.ty, value: def@.value, comment: def@.comment },
            ),
            !r ==> final(self)@ == old(self)@,
    {
        if !Self::check_name(name.as_str()) {
            return false;
        }
        let ghost dv = ConstDefV { name: name@, ty: def@.ty, value: def@.value, comment: def@.comment };
        let name_chars = str_to_chars(name.as_str());
        let n: usize = self.entries.len();
        // The insertion point: every earlier name is below `name`.
        let i = self.lower_bound(&name_chars);
        let mut replace = false;
        if i < n {
            let ec = str_to_chars(self.entries[i].name.as_str());
            if !lex_lt_chars(&name_chars, &ec) {
                replace = true;
            }
        }
        let mut out: Vec<ConstEntry> = Vec::new();
        let mut k: usize = 0;
        proof {
            assert(defs_of(out@) =~= self@.subrange(0, 0));
        }
        while k < i
            invariant
                old(self) == self,
                n == self.entries@.len(),
                k <= i <= n,
                out@.len() == k,
                defs_of(out@) == self@.subrange(0, k as int),
            decreases i - k,
        {
            let ce = clone_entry(&self.entries[k]);
            proof {
                assert(ce@ == self@[k as int]);
            }
            out.push(ce);
            proof {
                assert(defs_of(out@)[k as int] == ce@);
                assert(defs_of(out@) =~= self@.subrange(0, k + 1));
            }
            k = k + 1;
        }
        out.push(ConstEntry { name, def });
        let mut j: usize = if replace { i + 1 } else { i };
        proof {
            assert(defs_of(out@) =~= self@.subrange(0, i as int) + seq![dv] + self@.subrange(
                if replace { i + 1 } else { i as int },
                j as int,
            ));
        }
        while j < n
            invariant
                old(self) == self,
                n == self.entries@.len(),
                i <= j <= n,
                i <= n,
                replace ==> i + 1 <= j,
                out@.len() == i + 1 + j - (if replace { i + 1 } else { i as int }),
                defs_of(out@) == self@.subrange(0, i as int) + seq![dv] + self@.subrange(
                    if replace { i + 1 } else { i as int },
                    j as int,
                ),
            decreases n - j,
        {
            let ce = clone_entry(&self.entries[j]);
            proof {
                assert(ce@ == self@[j as int]);
            }
            let ghost prev = out@;
            let ghost start: int = if replace { i + 1 } else { i as int };
            let ghost old_target = self@.subrange(0, i as int) + seq![dv] + self@.subrange(start, j as int);
            let ghost target = self@.subrange(0, i as int) + seq![dv] + self@.subrange(start, j + 1);
            out.push(ce);
            proof {
                assert(out@.len() == target.len());
                assert forall|m: int| 0 <= m < prev.len() implies #[trigger] defs_of(out@)[m] == target[m] by {
                    assert(defs_of(out@)[m] == out@[m]@);
                    assert(out@[m] == prev[m]);
                    assert(defs_of(prev)[m] == prev[m]@);
                    assert(defs_of(prev)[m] == old_target[m]);
                    assert(old_target[m] == target[m]);
                }
                assert(defs_of(out@)[out@.len() - 1] == ce@);
                assert(target[out@.len() - 1] == self@[j as int]);
                assert(defs_of(out@) =~= target);
            }
            j = j + 1;
        }
        proof {
            lemma_tbl_insert_at(old(self)@, dv, i as int, replace);
            assert(defs_of(out@) =~= tbl_insert(old(self)@, dv));
        }
        self.entries = out;
        proof {
            assert(self@ =~= defs_of(self.entries@));
            lemma_tbl_insert_wf(old(self)@, dv);
        }
        true
    }

    /// Replace the value text of the entry at position `i`, leaving its
    /// name, type and comment as they are.
    pub fn set_value_at(&mut self, i: usize, value: String)
        requires
            i < old(self)@.len(),
        ensures
            final(self)@.len() == old(self)@.len(),
            final(self)@[i as int] == (ConstDefV {
                name: old(self)@[i as int].name,
                ty: old(self)@[i as int].ty,
                value: value@,
                comment: old(self)@[i as int].comment,
            }),
            forall|k: int|
                0 <= k < old(self)@.len() && k != i ==> final(self)@[k] == old(self)@[k],
            old(self).wf() ==> final(self).wf(),
    {
        let mut e = self.entries.remove(i);
        e.def.value = value;
        self.entries.insert(i, e);
        proof {
            assert(self.entries@ =~= old(self).entries@.update(i as int, self.entries@[i as int]));
            assert forall|k: int| 0 <= k < old(self)@.len() && k != i implies self@[k] == old(self)@[k] by {
                assert(self.entries@[k] == old(self).entries@[k]);
            }
            if old(self).wf() {
                assert forall|p: int, q: int| 0 <= p < q < self@.len() implies lex_lt(
                    (#[trigger] self@[p]).name,
                    (#[trigger] self@[q]).name,
                ) by {
                    assert(self@[p].name == old(self)@[p].name);
                    assert(self@[q].name == old(self)@[q].name);
                    assert(lex_lt(old(self)@[p].name, old(self)@[q].name));
                }
                assert forall|k: int| 0 <= k < self@.len() implies valid_const_name(
                    (#[trigger] self@[k]).name,
                ) by {
                    assert(self@[k].name == old(self)@[k].name);
                    assert(valid_const_name(old(self)@[k].name));
                }
            }
        }
    }

    /// Look up the definition under `name`.
    pub fn get(&self, name: &str) -> (r: Option<&ConstantValue>)
        ensures
            match r {
                Some(d) => has_name(self@, name@) && {
                    let i = find_name(self@, name@)->0;
                    d@.ty == self@[i].ty && d@.value == self@[i].value && d@.comment
                        == self@[i].comment
                },
                None => !has_name(self@, name@),
            },
    {
        proof {
            lemma_find_name(self@, name@);
        }
        let n: usize = self.entries.len();
        let mut i: usize = 0;
        while i < n
            invariant
                n == self@.len(),
                i <= n,
                forall|k: int| 0 <= k < i ==> (#[trigger] self@[k]).name != name@,
            decreases n - i,
        {
            if eq_str(self.entries[i].name.as_str(), name) {
                proof {
                    lemma_find_name_first(self@, name@, i as int);
                }
                return Some(&self.entries[i].def);
            }
            i = i + 1;
        }
        None
    }

    /// The entry at position `i`.
    pub fn entry_at(&self, i: usize) -> (r: &ConstEntry)
        requires
            i < self@.len(),
        ensures
            r@ == self@[i as int],
    {
        &self.entries[i]
    }
}

/// The models of a sequence of entries.
pub open spec fn defs_of(s: Seq<ConstEntry>) -> Seq<ConstDefV> {
    Seq::new(s.len(), |i: int| s[i]@)
}

proof fn lemma_find_name_first(tbl: Seq<ConstDefV>, name: Seq<char>, i: int)
    requires
        0 <= i < tbl.len(),
        tbl[i].name == name,
        forall|k: int| 0 <= k < i ==> (#[trigger] tbl[k]).name != name,
    ensures
        find_name(tbl, name) == Some(i),
    decreases tbl.len(),
{
    if i == 0 {
    } else {
        assert(tbl[0].name != name);
        assert(tbl.drop_first()[i - 1].name == name);
        assert(forall|k: int| 0 <= k < i - 1 ==> (#[trigger] tbl.drop_first()[k]).name != name);
        lemma_find_name_first(tbl.drop_first(), name, i - 1);
    }
}

/// `tbl_insert` on a sorted table is insertion at the first position whose
/// name is not below the new name.
proof fn lemma_tbl_insert_at(tbl: Seq<ConstDefV>, d: ConstDefV, i: int, replace: bool)
    requires
        sorted_names(tbl),
        0 <= i <= tbl.len(),
        forall|k: int| 0 <= k < i ==> lex_lt((#[trigger] tbl[k]).name, d.name),
        i < tbl.len() ==> !lex_lt(tbl[i].name, d.name),
        replace <==> (i < tbl.len() && !lex_lt(d.name, tbl[i].name) && !lex_lt(tbl[i].name, d.name)),
    ensures
        tbl_insert(tbl, d) == tbl.subrange(0, i) + seq![d] + tbl.subrange(
            if replace { i + 1 } else { i },
            tbl.len() as int,
        ),
    decreases tbl.len(),
{
    if tbl.len() == 0 {
        assert(tbl_insert(tbl, d) =~= tbl.subrange(0, i) + seq![d] + tbl.subrange(i, 0));
    } else if i == 0 {
        if replace {
            assert(tbl_insert(tbl, d) =~= tbl.subrange(0, 0) + seq![d] + tbl.subrange(1, tbl.len() as int));
        } else {
            assert(lex_lt(d.name, tbl[0].name) || tbl[0].name == d.name) by {
                if !lex_lt(d.name, tbl[0].name) && !lex_lt(tbl[0].name, d.name) {
                    lemma_lex_total(d.name, tbl[0].name);
                }
            }
            if lex_lt(d.name, tbl[0].name) {
                assert(tbl_insert(tbl, d) =~= tbl.subrange(0, 0) + seq![d] + tbl.subrange(0, tbl.len() as int));
            } else {
                assert(replace);
            }
        }
    } else {
        assert(lex_lt(tbl[0].name, d.name));
        let rest = tbl.drop_first();
        assert(forall|k: int| 0 <= k < i - 1 ==> lex_lt((#[trigger] rest[k]).name, d.name)) by {
            assert(forall|k: int| 0 <= k < i - 1 ==> rest[k] == tbl[k + 1]);
        }
        assert(sorted_names(rest)) by {
            assert(forall|p: int, q: int| 0 <= p < q < rest.len() ==> rest[p] == tbl[p + 1] && rest[q] == tbl[q + 1]);
        }
        lemma_tbl_insert_at(rest, d, i - 1, replace);
        assert(tbl_insert(tbl, d) =~= tbl.subrange(0, i) + seq![d] + tbl.subrange(
            if replace { i + 1 } else { i },
            tbl.len() as int,
        ));
    }
}

/// Sorted insertion keeps the table well-formed.
proof fn lemma_tbl_insert_wf(tbl: Seq<ConstDefV>, d: ConstDefV)
    requires
        sorted_names(tbl),
        forall|i: int| 0 <= i < tbl.len() ==> valid_const_name((#[trigger] tbl[i]).name),
        valid_const_name(d.name),
    ensures
        sorted_names(tbl_insert(tbl, d)),
        forall|i: int|
            0 <= i < tbl_insert(tbl, d).len() ==> valid_const_name(
                (#[trigger] tbl_insert(tbl, d)[i]).name,
            ),
    decreases tbl.len(),
{
    if tbl.len() == 0 {
    } else {
        let rest = tbl.drop_first();
        assert(sorted_names(rest)) by {
            assert(forall|p: int, q: int| 0 <= p < q < rest.len() ==> rest[p] == tbl[p + 1] && rest[q] == tbl[q + 1]);
        }
        assert(forall|i: int| 0 <= i < rest.len() ==> valid_const_name((#[trigger] rest[i]).name)) by {
            assert(forall|i: int| 0 <= i < rest.len() ==> rest[i] == tbl[i + 1]);
        }
        lemma_tbl_insert_wf(rest, d);
        if lex_lt(tbl[0].name, d.name) {
            let r = seq![tbl[0]] + tbl_insert(rest, d);
            lemma_tbl_insert_names(rest, d);
            assert(forall|p: int, q: int| 0 <= p < q < r.len() ==> lex_lt((#[trigger] r[p]).name, (#[trigger] r[q]).name)) by {
                assert(forall|q: int| 1 <= q < r.len() ==> r[q] == tbl_insert(rest, d)[q - 1]);
                assert(forall|q: int| 1 <= q < r.len() ==> lex_lt(r[0].name, (#[trigger] r[q]).name)) by {
                    assert(forall|k: int| 0 <= k < rest.len() ==> lex_lt(tbl[0].name, (#[trigger] rest[k]).name)) by {
                        assert(forall|k: int| 0 <= k < rest.len() ==> rest[k] == tbl[k + 1]);
                    }
                }
            }
        } else if lex_lt(d.name, tbl[0].name) {
            let r = seq![d] + tbl;
            assert(forall|p: int, q: int| 0 <= p < q < r.len() ==> lex_lt((#[trigger] r[p]).name, (#[trigger] r[q]).name)) by {
                assert(forall|q: int| 1 <= q < r.len() ==> r[q] == tbl[q - 1]);
                assert(forall|q: int| 2 <= q < r.len() ==> lex_lt(tbl[0].name, (#[trigger] tbl[q - 1]).name));
                lemma_lex_lt_trans_all(d.name, tbl[0].name, tbl);
            }
        } else {
            let r = seq![d] + rest;
            lemma_lex_total(tbl[0].name, d.name);
            assert(forall|p: int, q: int| 0 <= p < q < r.len() ==> lex_lt((#[trigger] r[p]).name, (#[trigger] r[q]).name)) by {
                assert(forall|q: int| 1 <= q < r.len() ==> r[q] == rest[q - 1] && rest[q - 1] == tbl[q]);
            }
        }
    }
}

/// Every name of a sorted insertion is the new name or one of the old ones.
proof fn lemma_tbl_insert_names(tbl: Seq<ConstDefV>, d: ConstDefV)
    ensures
        forall|i: int|
            0 <= i < tbl_insert(tbl, d).len() ==> ((#[trigger] tbl_insert(tbl, d)[i]) == d
                || exists|k: int| 0 <= k < tbl.len() && tbl[k] == tbl_insert(tbl, d)[i]),
    decreases tbl.len(),
{
    if tbl.len() == 0 {
    } else if lex_lt(tbl[0].name, d.name) {
        lemma_tbl_insert_names(tbl.drop_first(), d);
        let r = seq![tbl[0]] + tbl_insert(tbl.drop_first(), d);
        assert forall|i: int| 0 <= i < r.len() implies ((#[trigger] r[i]) == d || exists|k: int|
            0 <= k < tbl.len() && tbl[k] == r[i]) by {
            if i == 0 {
                assert(tbl[0] == r[0]);
            } else {
                let ri = r[i];
                assert(ri == tbl_insert(tbl.drop_first(), d)[i - 1]);
                if ri != d {
                    let k = choose|k: int| 0 <= k < tbl.drop_first().len() && tbl.drop_first()[k] == ri;
                    assert(tbl[k + 1] == ri);
                }
            }
        }
    } else {
    }
}

/// Transitivity of the lexicographic order below a whole table.
proof fn lemma_lex_lt_trans_all(a: Seq<char>, b: Seq<char>, tbl: Seq<ConstDefV>)
    requires
        lex_lt(a, b),
    ensures
        forall|q: int|
            0 <= q < tbl.len() && lex_lt(b, (#[trigger] tbl[q]).name) ==> lex_lt(a, tbl[q].name),
{
    assert forall|q: int|
        0 <= q < tbl.len() && lex_lt(b, (#[trigger] tbl[q]).name) implies lex_lt(a, tbl[q].name) by {
        lemma_lex_lt_trans(a, b, tbl[q].name);
    }
}

/// Transitivity of the lexicographic order.
pub proof fn lemma_lex_lt_trans(a: Seq<char>, b: Seq<char>, c: Seq<char>)
    requires
        lex_lt(a, b),
        lex_lt(b, c),
    ensures
        lex_lt(a, c),
{
    lemma_lex_lt_trans_from(a, b, c, 0);
}

proof fn lemma_lex_lt_trans_from(a: Seq<char>, b: Seq<char>, c: Seq<char>, i: int)
    requires
        0 <= i,
        lex_lt_from(a, b, i),
        lex_lt_from(b, c, i),
    ensures
        lex_lt_from(a, c, i),
    decreases a.len() - i,
{
    if i >= c.len() {
        assert(false);
    } else if i >= a.len() {
    } else {
        assert(i < b.len());
        if a[i] != b[i] {
            if b[i] != c[i] {
                assert((a[i] as u32) < (c[i] as u32));
                assert(a[i] != c[i]);
            } else {
                assert((a[i] as u32) < (c[i] as u32));
                assert(a[i] != c[i]);
            }
        } else if b[i] != c[i] {
            assert((a[i] as u32) < (c[i] as u32)) by {
                assert((b[i] as u32) < (c[i] as u32));
            }
            assert(a[i] != c[i]);
        } else {
            lemma_lex_lt_trans_from(a, b, c, i + 1);
        }
    }
}

/// The variable environment the resolver hands to expression evaluation:
/// each constant name paired with its current value text, in table order.
pub fn get_variables_map(table: &ConstantTable) -> (r: Vec<(String, String)>)
    ensures
        r@.len() == table@.len(),
        forall|i: int|
            0 <= i < r@.len() ==> (#[trigger] r@[i]).0@ == table@[i].name && r@[i].1@
                == table@[i].value,
{
    let n: usize = table.len();
    let mut r: Vec<(String, String)> = Vec::new();
    let mut i: usize = 0;
    while i < n
        invariant
            n == table@.len(),
            i <= n,
            r@.len() == i,
            forall|k: int|
                0 <= k < i ==> (#[trigger] r@[k]).0@ == table@[k].name && r@[k].1@
                    == table@[k].value,
        decreases n - i,
    {
        let e = table.entry_at(i);
        r.push((e.name.clone(), e.def.value.clone()));
        i = i + 1;
    }
    r
}

} // verus!
