use crate::scan::{
    has_lit, is_space, last_close, last_close_at, lemma_last_close_bounds, lemma_rskip_space_bounds,
    lemma_skip_space_bounds, lemma_skip_word_bounds, lit_at, rskip_space, rskip_space_at, skip_path, skip_path_at,
    skip_space, skip_space_at, skip_word, skip_word_at,
};
use vstd::prelude::*;

verus! {

/// A span of a line: `size` characters starting at character `start`.
#[derive(PartialEq, Eq, Debug, Clone, Copy, Structural)]
pub struct LineRef {
    pub start: usize,
    pub size: usize,
}

impl LineRef {
    pub fn new(start: usize, size: usize) -> (r: Self)
        ensures
            r.start == start,
            r.size == size,
    {
        Self { start, size }
    }

    /// The characters of `line` that the span covers.
    pub open spec fn spec_resolve(self, line: Seq<char>) -> Seq<char> {
        line.subrange(self.start as int, self.start + self.size)
    }

    /// The span lies within a line of `len` characters.
    pub open spec fn fits(self, len: nat) -> bool {
        self.start + self.size <= len
    }

    pub fn resolve_unchecked<'a>(&self, line: &'a str) -> (r: &'a str)
        requires
            self.fits(line@.len()),
            self.start + self.size <= usize::MAX,
        ensures
            r@ == self.spec_resolve(line@),
    {
        line.substring_char(self.start, self.start + self.size)
    }
}

/// The span of `size` characters at `start`, as a value of the model.
pub open spec fn span(start: int, size: int) -> LineRef {
    LineRef { start: start as usize, size: size as usize }
}

/// One classified line, or a module inlined in its place.
#[derive(PartialEq, Eq, Debug)]
pub enum LineToken {
    /// `[pub] mod name;`
    DeclareOtherModule { line: String, name: LineRef, is_pub: bool },
    /// `use a::b::c;`
    UseModule { line: String, name: LineRef },
    /// `use a::b::{x, y};`
    UseManyModules { names: Vec<LineRef>, line: String, parent: LineRef },
    /// The lines of a declared module, inlined.
    Module { name: String, is_pub: bool, tokens: Vec<LineToken> },
    /// Any other line; `trimmed_ref` leaves out its surrounding whitespace.
    OtherLine { line: String, trimmed_ref: LineRef },
}

/// The mathematical value of a [`LineToken`].
pub ghost enum TokenModel {
    DeclareOtherModule { line: Seq<char>, name: LineRef, is_pub: bool },
    UseModule { line: Seq<char>, name: LineRef },
    UseManyModules { names: Seq<LineRef>, line: Seq<char>, parent: LineRef },
    Module { name: Seq<char>, is_pub: bool, tokens: Seq<TokenModel> },
    OtherLine { line: Seq<char>, trimmed_ref: LineRef },
}

impl LineToken {
    pub open spec fn model(&self) -> TokenModel
        decreases self,
    {
        match self {
            LineToken::DeclareOtherModule { line, name, is_pub } => TokenModel::DeclareOtherModule {
                line: line@,
                name: *name,
                is_pub: *is_pub,
            },
            LineToken::UseModule { line, name } => TokenModel::UseModule { line: line@, name: *name },
            LineToken::UseManyModules { names, line, parent } => TokenModel::UseManyModules {
                names: names@,
                line: line@,
                parent: *parent,
            },
            LineToken::Module { name, is_pub, tokens } => TokenModel::Module {
                name: name@,
                is_pub: *is_pub,
                tokens: models_of(tokens@),
            },
            LineToken::OtherLine { line, trimmed_ref } => TokenModel::OtherLine {
                line: line@,
                trimmed_ref: *trimmed_ref,
            },
        }
    }
}

/// The models of a sequence of tokens, in order.
pub open spec fn models_of(ts: Seq<LineToken>) -> Seq<TokenModel>
    decreases ts,
{
    if ts.len() == 0 {
        seq![]
    } else {
        models_of(ts.drop_last()).push(ts.last().model())
    }
}

/// Splits `s` from position `i` on commas. Spaces at the head of a field are passed
/// over; the rest of the field is kept. A last field that is empty once its spaces are
/// passed over gives no span.
pub open spec fn tokenize_from(s: Seq<char>, i: int) -> Seq<LineRef>
    decreases s.len() + 1 - i,
{
    let k = skip_blank(s, i);
    let e = field_end(s, k);
    if 0 <= i <= k <= e < s.len() {
        seq![span(k, e - k)] + tokenize_from(s, e + 1)
    } else if 0 <= i <= k < e {
        seq![span(k, e - k)]
    } else {
        seq![]
    }
}

/// The first position at or after `i` that does not hold a space.
pub open spec fn skip_blank(s: Seq<char>, i: int) -> int
    decreases s.len() - i,
{
    if 0 <= i < s.len() && s[i] == ' ' {
        skip_blank(s, i + 1)
    } else {
        i
    }
}

/// The first position at or after `i` that holds a comma, or the length of `s`.
pub open spec fn field_end(s: Seq<char>, i: int) -> int
    decreases s.len() - i,
{
    if 0 <= i < s.len() && s[i] != ',' {
        field_end(s, i + 1)
    } else {
        i
    }
}

pub proof fn lemma_skip_blank_bounds(s: Seq<char>, i: int)
    requires
        0 <= i,
    ensures
        i <= skip_blank(s, i),
        i <= s.len() ==> skip_blank(s, i) <= s.len(),
        skip_blank(s, i) < s.len() ==> s[skip_blank(s, i)] != ' ',
    decreases s.len() - i,
{
    if i < s.len() && s[i] == ' ' {
        lemma_skip_blank_bounds(s, i + 1);
    }
}

pub proof fn lemma_field_end_bounds(s: Seq<char>, i: int)
    requires
        0 <= i,
    ensures
        i <= field_end(s, i),
        i <= s.len() ==> field_end(s, i) <= s.len(),
        field_end(s, i) < s.len() ==> s[field_end(s, i)] == ',',
        forall|k: int| i <= k < field_end(s, i) ==> #[trigger] s[k] != ',',
    decreases s.len() - i,
{
    if i < s.len() && s[i] != ',' {
        lemma_field_end_bounds(s, i + 1);
    }
}

/// Every span that `tokenize_from` gives lies within `s`.
pub proof fn lemma_tokenize_fits(s: Seq<char>, i: int)
    requires
        0 <= i,
        s.len() <= usize::MAX,
    ensures
        forall|k: int|
            0 <= k < tokenize_from(s, i).len() ==> (#[trigger] tokenize_from(s, i)[k]).start
                + tokenize_from(s, i)[k].size <= s.len() && i <= tokenize_from(s, i)[k].start,
    decreases s.len() + 1 - i,
{
    let k = skip_blank(s, i);
    let e = field_end(s, k);
    lemma_skip_blank_bounds(s, i);
    lemma_field_end_bounds(s, k);
    let t = tokenize_from(s, i);
    if 0 <= i <= k <= e < s.len() {
        lemma_tokenize_fits(s, e + 1);
        let rest = tokenize_from(s, e + 1);
        assert(t == seq![span(k, e - k)] + rest);
        assert forall|m: int| 0 <= m < t.len() implies (#[trigger] t[m]).start + t[m].size
            <= s.len() && i <= t[m].start by {
            if m > 0 {
                assert(t[m] == rest[m - 1]);
            } else {
                assert(t[m] == span(k, e - k));
            }
        }
    } else if 0 <= i <= k < e {
        assert(t == seq![span(k, e - k)]);
        assert(t[0] == span(k, e - k));
    }
}

/// A name list gives at most one span more than it has characters after `i`.
pub proof fn lemma_tokenize_count(s: Seq<char>, i: int)
    requires
        0 <= i <= s.len(),
    ensures
        tokenize_from(s, i).len() <= s.len() - i + 1,
    decreases s.len() + 1 - i,
{
    let k = skip_blank(s, i);
    let e = field_end(s, k);
    lemma_skip_blank_bounds(s, i);
    lemma_field_end_bounds(s, k);
    if 0 <= i <= k <= e < s.len() {
        lemma_tokenize_count(s, e + 1);
    }
}

/// Walks a name list one span at a time, as [`tokenize_from`] describes.
pub struct LineRefTokenizer<'a> {
    line: &'a str,
    len: usize,
    start: usize,
    size: usize,
}

impl<'a> LineRefTokenizer<'a> {
    pub closed spec fn wf(&self) -> bool {
        &&& self.len as nat == self.line@.len()
        &&& self.start <= self.len
        &&& self.size == 0
    }

    /// The spans that are still to come.
    pub closed spec fn remaining(&self) -> Seq<LineRef> {
        tokenize_from(self.line@, self.start as int)
    }

    pub closed spec fn text(&self) -> Seq<char> {
        self.line@
    }

    pub fn new(input: &'a str) -> (r: Self)
        ensures
            r.wf(),
            r.text() == input@,
            r.remaining() == tokenize_from(input@, 0),
    {
        Self { line: input, len: input.unicode_len(), start: 0, size: 0 }
    }

    fn yield_line_ref(&mut self) -> (r: LineRef)
        requires
            old(self).start + old(self).size + 1 <= usize::MAX,
        ensures
            r == span(old(self).start as int, old(self).size as int),
            final(self).start == old(self).start + old(self).size + 1,
            final(self).size == 0,
            final(self).line == old(self).line,
            final(self).len == old(self).len,
    {
        let result = LineRef::new(self.start, self.size);
        self.start = self.start + self.size + 1;
        self.size = 0;
        result
    }

    /// The next span, if any is left.
    pub fn next(&mut self) -> (r: Option<LineRef>)
        requires
            old(self).wf(),
        ensures
            final(self).wf(),
            final(self).text() == old(self).text(),
            match r {
                None => old(self).remaining().len() == 0 && final(self).remaining().len() == 0,
                Some(x) => old(self).remaining().len() > 0 && x == old(self).remaining()[0]
                    && final(self).remaining() == old(self).remaining().drop_first(),
            },
    {
        let ghost s = self.line@;
        let ghost i0 = self.start as int;
        let ghost k0 = skip_blank(s, i0);
        proof {
            lemma_skip_blank_bounds(s, i0);
            lemma_field_end_bounds(s, k0);
        }
        loop
            invariant
                s == self.line@,
                self.line == old(self).line,
                self.len == old(self).len,
                i0 == old(self).start,
                k0 == skip_blank(s, i0),
                self.len as nat == s.len(),
                i0 <= self.start,
                self.start + self.size <= self.len,
                self.size == 0 ==> skip_blank(s, self.start as int) == k0,
                self.size > 0 ==> self.start == k0 && field_end(s, k0) == field_end(
                    s,
                    self.start + self.size,
                ),
                i0 <= k0,
                k0 <= field_end(s, k0),
                field_end(s, k0) < s.len() ==> s[field_end(s, k0)] == ',',
            decreases self.len + 1 - (self.start + self.size),
        {
            let pos = self.start + self.size;
            if pos < self.len {
                let c = self.line.get_char(pos);
                if c == ',' {
                    proof {
                        if self.size == 0 {
                            assert(skip_blank(s, self.start as int) == self.start);
                        }
                        assert(field_end(s, pos as int) == pos);
                        assert(field_end(s, k0) == pos);
                    }
                    let r = self.yield_line_ref();
                    assert(r == span(k0, pos - k0));
                    assert(old(self).remaining() == seq![r] + self.remaining());
                    return Some(r);
                } else if c == ' ' && self.size == 0 {
                    self.start = self.start + 1;
                } else {
                    proof {
                        if self.size == 0 {
                            assert(skip_blank(s, self.start as int) == self.start);
                        }
                    }
                    self.size = self.size + 1;
                }
            } else if self.size > 0 {
                assert(field_end(s, pos as int) == pos);
                let r = LineRef::new(self.start, self.size);
                self.start = self.len;
                self.size = 0;
                assert(old(self).remaining() == seq![r]);
                assert(tokenize_from(s, self.start as int) =~= seq![]);
                return Some(r);
            } else {
                proof {
                    assert(skip_blank(s, self.start as int) == self.start);
                    assert(field_end(s, k0) == k0);
                    assert(tokenize_from(s, self.start as int) =~= seq![]);
                }
                return None;
            }
        }
    }

    /// All the spans that are still to come, in order.
    pub fn collect(self) -> (r: Vec<LineRef>)
        requires
            self.wf(),
        ensures
            r@ == self.remaining(),
            r@.len() <= self.text().len() + 1,
    {
        let mut it = self;
        let mut r: Vec<LineRef> = Vec::new();
        loop
            invariant
                self.wf(),
                it.wf(),
                it.text() == self.text(),
                r@ + it.remaining() == self.remaining(),
            decreases it.remaining().len(),
        {
            match it.next() {
                Some(x) => {
                    r.push(x);
                    assert(r@ + it.remaining() =~= self.remaining());
                },
                None => {
                    assert(r@ =~= self.remaining());
                    proof {
                        lemma_tokenize_count(self.line@, self.start as int);
                    }
                    return r;
                },
            }
        }
    }
}

pub open spec fn pub_kw() -> Seq<char> {
    seq!['p', 'u', 'b']
}

pub open spec fn mod_kw() -> Seq<char> {
    seq!['m', 'o', 'd']
}

pub open spec fn use_kw() -> Seq<char> {
    seq!['u', 's', 'e']
}

pub open spec fn brace_open() -> Seq<char> {
    seq![':', ':', '{']
}

/// A module declaration, `[pub] mod name;`, with whitespace between the words and
/// anything after the `;`: whether it is `pub`, and where the name starts and ends.
pub open spec fn declaration_parts(s: Seq<char>) -> Option<(bool, int, int)> {
    let a = skip_space(s, 0);
    let is_pub = has_lit(s, a, pub_kw());
    let b = if is_pub {
        skip_space(s, a + 3)
    } else {
        a
    };
    let n = skip_space(s, b + 3);
    let e = skip_word(s, n);
    let t = skip_space(s, e);
    if has_lit(s, b, mod_kw()) && n > b + 3 && e > n && t < s.len() && s[t] == ';' {
        Some((is_pub, n, e))
    } else {
        None
    }
}

/// An import of one scoped path, `use a::b;`: where the path starts and ends.
pub open spec fn single_import_parts(s: Seq<char>) -> Option<(int, int)> {
    let a = skip_space(s, 0);
    let p = skip_space(s, a + 3);
    let e = skip_path(s, p);
    let t = skip_space(s, e);
    if has_lit(s, a, use_kw()) && p > a + 3 && e > p && t < s.len() && s[t] == ';' {
        Some((p, e))
    } else {
        None
    }
}

/// An import of a brace group, `use a::b::{x, y};`: where the path before the group
/// starts and ends, and where the list inside the braces starts and ends. The list
/// runs to the last `};` of the line.
pub open spec fn multi_import_parts(s: Seq<char>) -> Option<(int, int, int, int)> {
    let a = skip_space(s, 0);
    let p = skip_space(s, a + 3);
    let e = skip_path(s, p);
    let j = last_close(s, s.len() - 2);
    if has_lit(s, a, use_kw()) && p > a + 3 && e > p && has_lit(s, e, brace_open()) && j > e
        + 3 {
        Some((p, e, e + 3, j))
    } else {
        None
    }
}

/// The span of `s` without its leading and trailing whitespace.
pub open spec fn trimmed_span(s: Seq<char>) -> LineRef {
    let a = skip_space(s, 0);
    let z = rskip_space(s, s.len() as int);
    if z > a {
        span(a, z - a)
    } else {
        span(a, 0)
    }
}

/// `r` is `s` with its leading and trailing whitespace left out.
pub open spec fn is_trim_of(s: Seq<char>, r: LineRef) -> bool {
    &&& r.fits(s.len())
    &&& forall|i: int| 0 <= i < r.start ==> is_space(#[trigger] s[i])
    &&& forall|i: int| r.start + r.size <= i < s.len() ==> is_space(#[trigger] s[i])
    &&& r.size > 0 ==> !is_space(s[r.start as int]) && !is_space(s[r.start + r.size - 1])
}

/// Each span of `rs`, moved `by` characters to the right.
pub open spec fn shift(rs: Seq<LineRef>, by: int) -> Seq<LineRef> {
    rs.map_values(|r: LineRef| span(r.start + by, r.size as int))
}

/// What a line is, trying the patterns in order: module declaration, single import,
/// brace-group import, and any other line.
pub open spec fn classify(s: Seq<char>) -> TokenModel {
    if let Some((is_pub, n, e)) = declaration_parts(s) {
        TokenModel::DeclareOtherModule { line: s, name: span(n, e - n), is_pub }
    } else if let Some((p, e)) = single_import_parts(s) {
        TokenModel::UseModule { line: s, name: span(p, e - p) }
    } else if let Some((p, e, bs, be)) = multi_import_parts(s) {
        TokenModel::UseManyModules {
            names: shift(tokenize_from(s.subrange(bs, be), 0), bs),
            line: s,
            parent: span(p, e - p),
        }
    } else {
        TokenModel::OtherLine { line: s, trimmed_ref: trimmed_span(s) }
    }
}

fn declaration_at(c: &Vec<char>) -> (r: Option<(bool, usize, usize)>)
    ensures
        match declaration_parts(c@) {
            Some((p, n, e)) => r == Some((p, n as usize, e as usize)) && n <= e <= c@.len(),
            None => r is None,
        },
{
    let len = c.len();
    let a = skip_space_at(c, 0);
    let is_pub = lit_at(c, a, &vec!['p', 'u', 'b']);
    let b = if is_pub {
        skip_space_at(c, a + 3)
    } else {
        a
    };
    if !lit_at(c, b, &vec!['m', 'o', 'd']) {
        return None;
    }
    let n = skip_space_at(c, b + 3);
    let e = skip_word_at(c, n);
    let t = skip_space_at(c, e);
    if n > b + 3 && e > n && t < c.len() && c[t] == ';' {
        Some((is_pub, n, e))
    } else {
        None
    }
}

fn single_import_at(c: &Vec<char>) -> (r: Option<(usize, usize)>)
    ensures
        match single_import_parts(c@) {
            Some((p, e)) => r == Some((p as usize, e as usize)) && p <= e <= c@.len(),
            None => r is None,
        },
{
    let len = c.len();
    let a = skip_space_at(c, 0);
    if !lit_at(c, a, &vec!['u', 's', 'e']) {
        return None;
    }
    let p = skip_space_at(c, a + 3);
    let e = skip_path_at(c, p);
    let t = skip_space_at(c, e);
    if p > a + 3 && e > p && t < c.len() && c[t] == ';' {
        Some((p, e))
    } else {
        None
    }
}

fn multi_import_at(c: &Vec<char>) -> (r: Option<(usize, usize, usize, usize)>)
    ensures
        match multi_import_parts(c@) {
            Some((p, e, bs, be)) => r == Some((p as usize, e as usize, bs as usize, be as usize))
                && p <= e <= bs <= be <= c@.len(),
            None => r is None,
        },
{
    let len = c.len();
    let a = skip_space_at(c, 0);
    if !lit_at(c, a, &vec!['u', 's', 'e']) {
        return None;
    }
    let p = skip_space_at(c, a + 3);
    let e = skip_path_at(c, p);
    if !(p > a + 3 && e > p && lit_at(c, e, &vec![':', ':', '{'])) {
        return None;
    }
    proof {
        lemma_last_close_bounds(c@, c@.len() - 2);
    }
    match last_close_at(c) {
        Some(j) => {
            if j > e && j - e > 3 {
                Some((p, e, e + 3, j))
            } else {
                None
            }
        },
        None => None,
    }
}

fn trimmed_at(c: &Vec<char>) -> (r: LineRef)
    ensures
        r == trimmed_span(c@),
        is_trim_of(c@, r),
{
    let a = skip_space_at(c, 0);
    let z = rskip_space_at(c, c.len());
    proof {
        lemma_skip_space_bounds(c@, 0);
        lemma_rskip_space_bounds(c@, c@.len() as int);
    }
    if z > a {
        LineRef::new(a, z - a)
    } else {
        proof {
            if a < c@.len() {
                assert(!is_space(c@[a as int]));
                assert(false);
            }
        }
        LineRef::new(a, 0)
    }
}

/// Classifies one line; the spans of the result refer to `line`.
pub fn parse_line(line: String) -> (r: LineToken)
    ensures
        r.model() == classify(line@),
        line@.len() <= usize::MAX,
{
    let c = chars_of(line.as_str());
    let len = c.len();
    if let Some((is_pub, n, e)) = declaration_at(&c) {
        return LineToken::DeclareOtherModule { line, name: LineRef::new(n, e - n), is_pub };
    }
    if let Some((p, e)) = single_import_at(&c) {
        return LineToken::UseModule { line, name: LineRef::new(p, e - p) };
    }
    if let Some((p, e, bs, be)) = multi_import_at(&c) {
        let body = line.as_str().substring_char(bs, be);
        let spans = LineRefTokenizer::new(body).collect();
        proof {
            lemma_tokenize_fits(body@, 0);
        }
        let mut names: Vec<LineRef> = Vec::new();
        let mut k: usize = 0;
        while k < spans.len()
            invariant
                k <= spans@.len(),
                spans@ == tokenize_from(body@, 0),
                body@ == line@.subrange(bs as int, be as int),
                bs <= be <= line@.len() <= usize::MAX,
                forall|m: int|
                    0 <= m < spans@.len() ==> (#[trigger] spans@[m]).start + spans@[m].size
                        <= body@.len(),
                names@ =~= shift(spans@.take(k as int), bs as int),
            decreases spans@.len() - k,
        {
            let x = spans[k];
            names.push(LineRef::new(x.start + bs, x.size));
            k = k + 1;
            assert(names@ =~= shift(spans@.take(k as int), bs as int));
        }
        assert(spans@.take(k as int) =~= spans@);
        let parent = LineRef::new(p, e - p);
        return LineToken::UseManyModules { line, names, parent };
    }
    let trimmed_ref = trimmed_at(&c);
    LineToken::OtherLine { line, trimmed_ref }
}

pub proof fn lemma_declaration_bounds(s: Seq<char>)
    requires
        declaration_parts(s) is Some,
    ensures
        match declaration_parts(s) {
            Some((_, n, e)) => 0 <= n <= e <= s.len(),
            None => true,
        },
{
    lemma_skip_space_bounds(s, 0);
    let a = skip_space(s, 0);
    let b = if has_lit(s, a, pub_kw()) {
        lemma_skip_space_bounds(s, a + 3);
        skip_space(s, a + 3)
    } else {
        a
    };
    lemma_skip_space_bounds(s, b + 3);
    lemma_skip_word_bounds(s, skip_space(s, b + 3));
}

/// The characters of `s`, in order.
pub fn chars_of(s: &str) -> (r: Vec<char>)
    ensures
        r@ == s@,
{
    let n = s.unicode_len();
    let mut r: Vec<char> = Vec::new();
    let mut i: usize = 0;
    while i < n
        invariant
            n == s@.len(),
            i <= n,
            r@ == s@.take(i as int),
        decreases n - i,
    {
        r.push(s.get_char(i));
        i = i + 1;
        assert(r@ =~= s@.take(i as int));
    }
    assert(r@ =~= s@);
    r
}

} // verus!
