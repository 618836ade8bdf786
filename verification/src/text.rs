//! Character-level text utilities: the rewriter works on `Vec<char>` with
//! `Seq<char>` as its mathematical model.

use vstd::prelude::*;

verus! {

/// A character that may stand inside an identifier.
pub open spec fn is_word_char(c: char) -> bool {
    ('A' <= c && c <= 'Z') || ('a' <= c && c <= 'z') || ('0' <= c && c <= '9') || c == '_'
}

/// A whitespace character.
pub open spec fn is_space(c: char) -> bool {
    c == ' ' || c == '\t' || c == '\n' || c == '\r'
}

/// A blank character that may precede text within a single line.
pub open spec fn is_blank(c: char) -> bool {
    c == ' ' || c == '\t' || c == '\r'
}

pub fn word_char(c: char) -> (r: bool)
    ensures
        r == is_word_char(c),
{
    ('A' <= c && c <= 'Z') || ('a' <= c && c <= 'z') || ('0' <= c && c <= '9') || c == '_'
}

pub fn space_char(c: char) -> (r: bool)
    ensures
        r == is_space(c),
{
    c == ' ' || c == '\t' || c == '\n' || c == '\r'
}

pub fn blank_char(c: char) -> (r: bool)
    ensures
        r == is_blank(c),
{
    c == ' ' || c == '\t' || c == '\r'
}

/// The pattern `pat` stands in `t` at position `i`.
pub open spec fn occurs_at(t: Seq<char>, pat: Seq<char>, i: int) -> bool {
    0 <= i && i + pat.len() <= t.len() && t.subrange(i, i + pat.len() as int) == pat
}

/// Turn a string slice into the vector of its characters.
pub fn str_to_chars(s: &str) -> (r: Vec<char>)
    ensures
        r@ == s@,
{
    let n: usize = s.unicode_len();
    let mut r: Vec<char> = Vec::new();
    let mut i: usize = 0;
    while i < n
        invariant
            n == s@.len(),
            i <= n,
            r@ == s@.subrange(0, i as int),
        decreases n - i,
    {
        r.push(s.get_char(i));
        i = i + 1;
        proof {
            assert(r@ =~= s@.subrange(0, i as int));
        }
    }
    proof {
        assert(r@ =~= s@);
    }
    r
}

/// Turn a vector of characters into a `String`.
/// Relies on `String::push`: it appends exactly the given character.
#[verifier::external_body]
fn push_char(s: &mut String, c: char)
    ensures
        final(s)@ == old(s)@.push(c),
{
    s.push(c);
}

/// Turn a vector of characters into the `String` holding exactly them.
pub fn chars_to_string(v: &Vec<char>) -> (r: String)
    ensures
        r@ == v@,
{
    let mut r = String::new();
    let mut i: usize = 0;
    while i < v.len()
        invariant
            i <= v@.len(),
            r@ == v@.subrange(0, i as int),
        decreases v@.len() - i,
    {
        push_char(&mut r, v[i]);
        i = i + 1;
        proof {
            assert(r@ =~= v@.subrange(0, i as int));
        }
    }
    proof {
        assert(r@ =~= v@);
    }
    r
}

/// Append every character of `src` to `dst`.
pub fn push_all(dst: &mut Vec<char>, src: &Vec<char>)
    ensures
        final(dst)@ == old(dst)@ + src@,
{
    let mut i: usize = 0;
    while i < src.len()
        invariant
            i <= src@.len(),
            dst@ == old(dst)@ + src@.subrange(0, i as int),
        decreases src@.len() - i,
    {
        dst.push(src[i]);
        i = i + 1;
        proof {
            assert(dst@ =~= old(dst)@ + src@.subrange(0, i as int));
        }
    }
    proof {
        assert(dst@ =~= old(dst)@ + src@);
    }
}

/// Append the characters `t[from..to]` to `dst`.
pub fn push_range(dst: &mut Vec<char>, t: &Vec<char>, from: usize, to: usize)
    requires
        from <= to <= t@.len(),
    ensures
        final(dst)@ == old(dst)@ + t@.subrange(from as int, to as int),
{
    let mut i: usize = from;
    while i < to
        invariant
            from <= i <= to <= t@.len(),
            dst@ == old(dst)@ + t@.subrange(from as int, i as int),
        decreases to - i,
    {
        dst.push(t[i]);
        i = i + 1;
        proof {
            assert(dst@ =~= old(dst)@ + t@.subrange(from as int, i as int));
        }
    }
}

/// Append every character of the string slice `s` to `dst`.
pub fn push_str_chars(dst: &mut Vec<char>, s: &str)
    ensures
        final(dst)@ == old(dst)@ + s@,
{
    let v = str_to_chars(s);
    push_all(dst, &v);
}

/// Whether `pat` stands in `t` at position `i`.
pub fn match_at(t: &Vec<char>, pat: &Vec<char>, i: usize) -> (r: bool)
    ensures
        r == occurs_at(t@, pat@, i as int),
{
    let tn: usize = t.len();
    let pn: usize = pat.len();
    if pn > tn || i > tn - pn {
        return false;
    }
    let mut j: usize = 0;
    while j < pn
        invariant
            tn == t@.len(),
            pn == pat@.len(),
            i + pn <= tn,
            j <= pn,
            forall|k: int| 0 <= k < j ==> t@[i + k] == pat@[k],
        decreases pn - j,
    {
        if t[i + j] != pat[j] {
            proof {
                assert(t@.subrange(i as int, i + pat@.len() as int)[j as int] != pat@[j as int]);
            }
            return false;
        }
        j = j + 1;
    }
    proof {
        assert(t@.subrange(i as int, i + pat@.len() as int) =~= pat@);
    }
    true
}

/// The first position at or after `from` where `pat` stands in `t`.
pub open spec fn first_occurrence(t: Seq<char>, pat: Seq<char>, from: int) -> Option<int>
    decreases t.len() - from when from >= 0
{
    if from < 0 || from + pat.len() > t.len() {
        None
    } else if pat.len() == 0 {
        Some(from)
    } else if occurs_at(t, pat, from) {
        Some(from)
    } else {
        first_occurrence(t, pat, from + 1)
    }
}

pub proof fn lemma_first_occurrence_bounds(t: Seq<char>, pat: Seq<char>, from: int)
    requires
        from >= 0,
        first_occurrence(t, pat, from) is Some,
    ensures
        from <= first_occurrence(t, pat, from)->0,
        first_occurrence(t, pat, from)->0 + pat.len() <= t.len(),
        occurs_at(t, pat, first_occurrence(t, pat, from)->0),
    decreases t.len() - from,
{
    if from < 0 || from + pat.len() > t.len() {
    } else if pat.len() == 0 {
        assert(t.subrange(from, from + pat.len() as int) =~= pat);
    } else if occurs_at(t, pat, from) {
    } else {
        lemma_first_occurrence_bounds(t, pat, from + 1);
    }
}

/// Find the first occurrence of `pat` in `t` at or after `from`.
pub fn find_sub(t: &Vec<char>, pat: &Vec<char>, from: usize) -> (r: Option<usize>)
    ensures
        match r {
            Some(i) => first_occurrence(t@, pat@, from as int) == Some(i as int),
            None => first_occurrence(t@, pat@, from as int) is None,
        },
{
    let tn: usize = t.len();
    let pn: usize = pat.len();
    if pn == 0 {
        if from <= tn {
            return Some(from);
        } else {
            return None;
        }
    }
    if pn > tn || from > tn - pn {
        return None;
    }
    let last: usize = tn - pn;
    let mut i: usize = from;
    while i <= last
        invariant
            from <= i,
            tn == t@.len(),
            pn == pat@.len(),
            1 <= pn <= tn,
            last == tn - pn,
            i <= last + 1,
            first_occurrence(t@, pat@, from as int) == first_occurrence(t@, pat@, i as int),
        decreases last + 1 - i,
    {
        if match_at(t, pat, i) {
            return Some(i);
        }
        i = i + 1;
    }
    None
}

/// Find the first position at or after `i` holding the character `c`.
pub open spec fn spec_find_char(t: Seq<char>, i: int, c: char) -> Option<int>
    decreases t.len() - i when i >= 0
{
    if !(0 <= i < t.len()) {
        None
    } else if t[i] == c {
        Some(i)
    } else {
        spec_find_char(t, i + 1, c)
    }
}

pub proof fn lemma_find_char_bounds(t: Seq<char>, i: int, c: char)
    requires
        i >= 0,
        spec_find_char(t, i, c) is Some,
    ensures
        i <= spec_find_char(t, i, c)->0 < t.len(),
        t[spec_find_char(t, i, c)->0] == c,
    decreases t.len() - i,
{
    if !(0 <= i < t.len()) {
    } else if t[i] == c {
    } else {
        lemma_find_char_bounds(t, i + 1, c);
    }
}

pub fn find_char(t: &Vec<char>, i: usize, c: char) -> (r: Option<usize>)
    ensures
        match r {
            Some(j) => spec_find_char(t@, i as int, c) == Some(j as int),
            None => spec_find_char(t@, i as int, c) is None,
        },
{
    let mut j: usize = i;
    while j < t.len()
        invariant
            i <= j,
            spec_find_char(t@, i as int, c) == spec_find_char(t@, j as int, c),
        decreases t@.len() - j,
    {
        if t[j] == c {
            return Some(j);
        }
        j = j + 1;
    }
    None
}

/// The position just after the end of the line that starts at or contains `i`:
/// one past the next newline, or the end of the text.
pub open spec fn spec_line_end(t: Seq<char>, i: int) -> int {
    match spec_find_char(t, i, '\n') {
        Some(j) => j + 1,
        None => t.len() as int,
    }
}

pub proof fn lemma_line_end_bounds(t: Seq<char>, i: int)
    requires
        0 <= i <= t.len(),
    ensures
        i <= spec_line_end(t, i) <= t.len(),
        i < t.len() ==> i < spec_line_end(t, i),
{
    match spec_find_char(t, i, '\n') {
        Some(j) => {
            lemma_find_char_bounds(t, i, '\n');
        },
        None => {},
    }
}

pub fn line_end(t: &Vec<char>, i: usize) -> (r: usize)
    requires
        i <= t@.len(),
    ensures
        r == spec_line_end(t@, i as int),
        i <= r <= t@.len(),
        i < t@.len() ==> i < r,
{
    proof {
        lemma_line_end_bounds(t@, i as int);
    }
    let n: usize = t.len();
    match find_char(t, i, '\n') {
        Some(j) => {
            proof {
                lemma_find_char_bounds(t@, i as int, '\n');
            }
            assert(j < n);
            j + 1
        },
        None => n,
    }
}

/// The first position at or after `i` that does not hold whitespace.
pub open spec fn spec_skip_ws(t: Seq<char>, i: int) -> int
    decreases t.len() - i when i >= 0
{
    if 0 <= i < t.len() && is_space(t[i]) {
        spec_skip_ws(t, i + 1)
    } else {
        i
    }
}

pub proof fn lemma_skip_ws_bounds(t: Seq<char>, i: int)
    requires
        0 <= i <= t.len(),
    ensures
        i <= spec_skip_ws(t, i) <= t.len(),
    decreases t.len() - i,
{
    if 0 <= i < t.len() && is_space(t[i]) {
        lemma_skip_ws_bounds(t, i + 1);
    }
}

pub fn skip_ws(t: &Vec<char>, i: usize) -> (r: usize)
    requires
        i <= t@.len(),
    ensures
        r == spec_skip_ws(t@, i as int),
        i <= r <= t@.len(),
{
    let mut j: usize = i;
    while j < t.len() && space_char(t[j])
        invariant
            i <= j <= t@.len(),
            spec_skip_ws(t@, i as int) == spec_skip_ws(t@, j as int),
        decreases t@.len() - j,
    {
        j = j + 1;
    }
    j
}

/// The first position at or after `i` that does not hold a word character.
pub open spec fn spec_skip_word(t: Seq<char>, i: int) -> int
    decreases t.len() - i when i >= 0
{
    if 0 <= i < t.len() && is_word_char(t[i]) {
        spec_skip_word(t, i + 1)
    } else {
        i
    }
}

pub proof fn lemma_skip_word_bounds(t: Seq<char>, i: int)
    requires
        0 <= i <= t.len(),
    ensures
        i <= spec_skip_word(t, i) <= t.len(),
    decreases t.len() - i,
{
    if 0 <= i < t.len() && is_word_char(t[i]) {
        lemma_skip_word_bounds(t, i + 1);
    }
}

pub fn skip_word(t: &Vec<char>, i: usize) -> (r: usize)
    requires
        i <= t@.len(),
    ensures
        r == spec_skip_word(t@, i as int),
        i <= r <= t@.len(),
{
    let mut j: usize = i;
    while j < t.len() && word_char(t[j])
        invariant
            i <= j <= t@.len(),
            spec_skip_word(t@, i as int) == spec_skip_word(t@, j as int),
        decreases t@.len() - j,
    {
        j = j + 1;
    }
    j
}

/// The first position at or after `i` that does not hold a blank character.
pub open spec fn spec_skip_blank(t: Seq<char>, i: int) -> int
    decreases t.len() - i when i >= 0
{
    if 0 <= i < t.len() && is_blank(t[i]) {
        spec_skip_blank(t, i + 1)
    } else {
        i
    }
}

pub proof fn lemma_skip_blank_bounds(t: Seq<char>, i: int)
    requires
        0 <= i <= t.len(),
    ensures
        i <= spec_skip_blank(t, i) <= t.len(),
    decreases t.len() - i,
{
    if 0 <= i < t.len() && is_blank(t[i]) {
        lemma_skip_blank_bounds(t, i + 1);
    }
}

pub fn skip_blank(t: &Vec<char>, i: usize) -> (r: usize)
    requires
        i <= t@.len(),
    ensures
        r == spec_skip_blank(t@, i as int),
        i <= r <= t@.len(),
{
    let mut j: usize = i;
    while j < t.len() && blank_char(t[j])
        invariant
            i <= j <= t@.len(),
            spec_skip_blank(t@, i as int) == spec_skip_blank(t@, j as int),
        decreases t@.len() - j,
    {
        j = j + 1;
    }
    j
}

/// A line starting at `i` whose first non-blank characters are `//`.
pub open spec fn spec_is_comment_line(t: Seq<char>, i: int) -> bool {
    occurs_at(t, seq!['/', '/'], spec_skip_blank(t, i))
}

pub fn is_comment_line(t: &Vec<char>, i: usize) -> (r: bool)
    requires
        i <= t@.len(),
    ensures
        r == spec_is_comment_line(t@, i as int),
{
    let p = skip_blank(t, i);
    let r = p < t.len() && p + 1 < t.len() && t[p] == '/' && t[p + 1] == '/';
    proof {
        let s = seq!['/', '/'];
        if r {
            assert(t@.subrange(p as int, p + 2) =~= s);
        } else {
            if occurs_at(t@, s, p as int) {
                assert(t@[p as int] == s[0]);
                assert(t@[p + 1] == s[1]);
            }
        }
    }
    r
}

} // verus!
