//! Character classes and the scanning primitives that the line grammar is built from.
//!
//! Every scanner has a spec function over `Seq<char>` and an executable twin over a
//! `Vec<char>` that is proved to compute it.
use vstd::prelude::*;

verus! {

/// Unicode `White_Space`, the set that `char::is_whitespace` tests.
pub open spec fn is_space(c: char) -> bool {
    let u = c as u32;
    (0x09 <= u && u <= 0x0d) || u == 0x20 || u == 0x85 || u == 0xa0 || u == 0x1680 || (0x2000
        <= u && u <= 0x200a) || u == 0x2028 || u == 0x2029 || u == 0x202f || u == 0x205f || u
        == 0x3000
}

/// Whether `c` is alphabetic or numeric in Unicode's sense.
pub uninterp spec fn alphanumeric(c: char) -> bool;

/// A character of an identifier: an ASCII letter, an ASCII digit, `_`, or a character
/// beyond ASCII that is alphabetic or numeric.
pub open spec fn is_word(c: char) -> bool {
    let u = c as u32;
    (0x61 <= u && u <= 0x7a) || (0x41 <= u && u <= 0x5a) || (0x30 <= u && u <= 0x39) || u == 0x5f
        || (u >= 0x80 && alphanumeric(c))
}

/// Relies on `char::is_alphanumeric`: whether the character is alphabetic or numeric,
/// which depends on the character alone.
#[verifier::external_body]
fn is_alphanumeric(c: char) -> (r: bool)
    ensures
        r == alphanumeric(c),
{
    c.is_alphanumeric()
}

/// `lit` occurs in `s` at position `i`.
pub open spec fn has_lit(s: Seq<char>, i: int, lit: Seq<char>) -> bool {
    0 <= i && i + lit.len() <= s.len() && s.subrange(i, i + lit.len()) == lit
}

/// The first position at or after `i` whose character is not whitespace.
pub open spec fn skip_space(s: Seq<char>, i: int) -> int
    decreases s.len() - i,
{
    if 0 <= i < s.len() && is_space(s[i]) {
        skip_space(s, i + 1)
    } else {
        i
    }
}

/// The first position at or after `i` whose character is not an identifier character.
pub open spec fn skip_word(s: Seq<char>, i: int) -> int
    decreases s.len() - i,
{
    if 0 <= i < s.len() && is_word(s[i]) {
        skip_word(s, i + 1)
    } else {
        i
    }
}

pub open spec fn colons() -> Seq<char> {
    seq![':', ':']
}

/// The end of the longest scoped path (`a::b::c`) that starts at `i`; `i` where none does.
pub open spec fn skip_path(s: Seq<char>, i: int) -> int
    decreases s.len() - i,
{
    let e = skip_word(s, i);
    if e > i && has_lit(s, e, colons()) && skip_word(s, e + 2) > e + 2 {
        skip_path(s, e + 2)
    } else {
        e
    }
}

/// The position just after the last non-whitespace character before `j`.
pub open spec fn rskip_space(s: Seq<char>, j: int) -> int
    decreases j,
{
    if 0 < j <= s.len() && is_space(s[j - 1]) {
        rskip_space(s, j - 1)
    } else {
        j
    }
}

/// The last position at or before `j` where `};` starts; -1 where there is none.
pub open spec fn last_close(s: Seq<char>, j: int) -> int
    decreases j + 1,
{
    if j < 0 {
        -1
    } else if j + 1 < s.len() && s[j] == '}' && s[j + 1] == ';' {
        j
    } else {
        last_close(s, j - 1)
    }
}

pub proof fn lemma_skip_space_bounds(s: Seq<char>, i: int)
    requires
        0 <= i <= s.len(),
    ensures
        i <= skip_space(s, i) <= s.len(),
        forall|k: int| i <= k < skip_space(s, i) ==> is_space(#[trigger] s[k]),
        skip_space(s, i) < s.len() ==> !is_space(s[skip_space(s, i)]),
    decreases s.len() - i,
{
    if i < s.len() && is_space(s[i]) {
        lemma_skip_space_bounds(s, i + 1);
    }
}

pub proof fn lemma_skip_word_bounds(s: Seq<char>, i: int)
    requires
        0 <= i <= s.len(),
    ensures
        i <= skip_word(s, i) <= s.len(),
        forall|k: int| i <= k < skip_word(s, i) ==> is_word(#[trigger] s[k]),
        skip_word(s, i) < s.len() ==> !is_word(s[skip_word(s, i)]),
    decreases s.len() - i,
{
    if i < s.len() && is_word(s[i]) {
        lemma_skip_word_bounds(s, i + 1);
    }
}

pub proof fn lemma_rskip_space_bounds(s: Seq<char>, j: int)
    requires
        0 <= j <= s.len(),
    ensures
        0 <= rskip_space(s, j) <= j,
        forall|k: int| rskip_space(s, j) <= k < j ==> is_space(#[trigger] s[k]),
        rskip_space(s, j) > 0 ==> !is_space(s[rskip_space(s, j) - 1]),
    decreases j,
{
    if 0 < j && is_space(s[j - 1]) {
        lemma_rskip_space_bounds(s, j - 1);
    }
}

pub proof fn lemma_last_close_bounds(s: Seq<char>, j: int)
    ensures
        last_close(s, j) == -1 || 0 <= last_close(s, j) <= j,
        last_close(s, j) >= 0 ==> last_close(s, j) + 1 < s.len() && s[last_close(s, j)] == '}'
            && s[last_close(s, j) + 1] == ';',
    decreases j + 1,
{
    if j >= 0 && !(j + 1 < s.len() && s[j] == '}' && s[j + 1] == ';') {
        lemma_last_close_bounds(s, j - 1);
    }
}

pub fn is_space_char(c: char) -> (r: bool)
    ensures
        r == is_space(c),
{
    let u = c as u32;
    (0x09 <= u && u <= 0x0d) || u == 0x20 || u == 0x85 || u == 0xa0 || u == 0x1680 || (0x2000
        <= u && u <= 0x200a) || u == 0x2028 || u == 0x2029 || u == 0x202f || u == 0x205f || u
        == 0x3000
}

pub fn is_word_char(c: char) -> (r: bool)
    ensures
        r == is_word(c),
{
    let u = c as u32;
    if u >= 0x80 {
        is_alphanumeric(c)
    } else {
        (0x61 <= u && u <= 0x7a) || (0x41 <= u && u <= 0x5a) || (0x30 <= u && u <= 0x39) || u
            == 0x5f
    }
}

pub fn lit_at(s: &Vec<char>, i: usize, lit: &Vec<char>) -> (r: bool)
    ensures
        r == has_lit(s@, i as int, lit@),
{
    if i > s.len() || lit.len() > s.len() - i {
        return false;
    }
    let n = s.len();
    let mut k: usize = 0;
    while k < lit.len()
        invariant
            n == s@.len(),
            i + lit@.len() <= s@.len(),
            k <= lit@.len(),
            forall|m: int| 0 <= m < k ==> s@[i + m] == lit@[m],
        decreases lit@.len() - k,
    {
        if s[i + k] != lit[k] {
            assert(s@.subrange(i as int, i + lit@.len())[k as int] != lit@[k as int]);
            return false;
        }
        k = k + 1;
    }
    assert(s@.subrange(i as int, i + lit@.len()) =~= lit@);
    true
}

pub fn skip_space_at(s: &Vec<char>, i: usize) -> (r: usize)
    requires
        i <= s@.len(),
    ensures
        r == skip_space(s@, i as int),
        i <= r <= s@.len(),
{
    let mut j = i;
    while j < s.len() && is_space_char(s[j])
        invariant
            i <= j <= s@.len(),
            skip_space(s@, j as int) == skip_space(s@, i as int),
        decreases s@.len() - j,
    {
        j = j + 1;
    }
    j
}

pub fn skip_word_at(s: &Vec<char>, i: usize) -> (r: usize)
    requires
        i <= s@.len(),
    ensures
        r == skip_word(s@, i as int),
        i <= r <= s@.len(),
{
    let mut j = i;
    while j < s.len() && is_word_char(s[j])
        invariant
            i <= j <= s@.len(),
            skip_word(s@, j as int) == skip_word(s@, i as int),
        decreases s@.len() - j,
    {
        j = j + 1;
    }
    j
}

pub fn skip_path_at(s: &Vec<char>, i: usize) -> (r: usize)
    requires
        i <= s@.len(),
    ensures
        r == skip_path(s@, i as int),
        i <= r <= s@.len(),
{
    let n = s.len();
    let mut j = i;
    loop
        invariant
            n == s@.len(),
            i <= j <= s@.len(),
            skip_path(s@, j as int) == skip_path(s@, i as int),
        decreases s@.len() - j,
    {
        let e = skip_word_at(s, j);
        if e > j && lit_at(s, e, &vec![':', ':']) {
            let f = skip_word_at(s, e + 2);
            if f > e + 2 {
                j = e + 2;
                continue;
            }
        }
        return e;
    }
}

pub fn rskip_space_at(s: &Vec<char>, j: usize) -> (r: usize)
    requires
        j <= s@.len(),
    ensures
        r == rskip_space(s@, j as int),
        r <= j,
{
    let mut k = j;
    while k > 0 && is_space_char(s[k - 1])
        invariant
            k <= j <= s@.len(),
            rskip_space(s@, k as int) == rskip_space(s@, j as int),
        decreases k,
    {
        k = k - 1;
    }
    k
}

/// Where the last `};` of `s` starts, if it has one.
pub fn last_close_at(s: &Vec<char>) -> (r: Option<usize>)
    ensures
        match r {
            Some(j) => last_close(s@, s@.len() - 2) == j as int,
            None => last_close(s@, s@.len() - 2) == -1,
        },
{
    if s.len() < 2 {
        return None;
    }
    let n = s.len();
    let mut j: usize = n - 2;
    loop
        invariant
            n == s@.len(),
            j + 2 <= s@.len(),
            last_close(s@, j as int) == last_close(s@, s@.len() - 2),
        decreases j,
    {
        if s[j] == '}' && s[j + 1] == ';' {
            return Some(j);
        }
        if j == 0 {
            assert(last_close(s@, -1) == -1);
            return None;
        }
        j = j - 1;
    }
}

} // verus!
