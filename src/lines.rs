//! Splitting a text into lines, as a buffered reader's `lines` does.
use crate::syntax::chars_of;
use vstd::prelude::*;
use vstd::string::StringExecFns;

verus! {

/// The pieces of `s` between newline characters: one more than it holds newlines.
pub open spec fn pieces(s: Seq<char>) -> Seq<Seq<char>>
    decreases s.len(),
{
    if s.len() == 0 {
        seq![seq![]]
    } else {
        let p = pieces(s.drop_last());
        if s.last() == '\n' {
            p.push(seq![])
        } else {
            p.update(p.len() - 1, p.last().push(s.last()))
        }
    }
}

/// A line that a newline ended, without the carriage return before that newline.
pub open spec fn strip_cr(l: Seq<char>) -> Seq<char> {
    if l.len() > 0 && l.last() == '\r' {
        l.drop_last()
    } else {
        l
    }
}

/// The lines of `s`: every piece that a newline ends, without a carriage return at
/// its end, then the last piece where it is not empty. Empty lines are kept.
pub open spec fn lines_of(s: Seq<char>) -> Seq<Seq<char>> {
    let p = pieces(s);
    let n = p.len() as int;
    let ended = p.take(n - 1).map_values(|l: Seq<char>| strip_cr(l));
    if p[n - 1].len() == 0 {
        ended
    } else {
        ended.push(p[n - 1])
    }
}

pub open spec fn views(ls: Seq<String>) -> Seq<Seq<char>> {
    ls.map_values(|l: String| l@)
}

/// The lines of `text`, in order.
pub fn split_lines(text: &str) -> (r: Vec<String>)
    ensures
        views(r@) == lines_of(text@),
{
    let c = chars_of(text);
    let n = c.len();
    let ghost s = text@;
    let mut out: Vec<String> = Vec::new();
    let ghost mut done: Seq<Seq<char>> = seq![];
    let mut cur: usize = 0;
    let mut i: usize = 0;
    assert(s.take(0) =~= seq![]);
    while i < n
        invariant
            c@ == s,
            text@ == s,
            n == s.len(),
            cur <= i <= n,
            pieces(s.take(i as int)) == done.push(s.subrange(cur as int, i as int)),
            views(out@) == done.map_values(|l: Seq<char>| strip_cr(l)),
        decreases n - i,
    {
        assert(s.take(i + 1).drop_last() =~= s.take(i as int));
        assert(s.take(i + 1).last() == s[i as int]);
        let ghost old_out = out@;
        let ghost old_done = done;
        if c[i] == '\n' {
            let mut end = i;
            if end > cur && c[end - 1] == '\r' {
                end = end - 1;
            }
            let line = String::from_str(text.substring_char(cur, end));
            assert(line@ =~= strip_cr(s.subrange(cur as int, i as int)));
            out.push(line);
            proof {
                done = done.push(s.subrange(cur as int, i as int));
                assert(views(out@) =~= views(old_out).push(line@));
                assert(done.map_values(|l: Seq<char>| strip_cr(l)) =~= old_done.map_values(
                    |l: Seq<char>| strip_cr(l),
                ).push(strip_cr(s.subrange(cur as int, i as int))));
            }
            cur = i + 1;
            assert(s.subrange(cur as int, i + 1) =~= seq![]);
            assert(pieces(s.take(i + 1)) =~= done.push(s.subrange(cur as int, i + 1)));
        } else {
            assert(s.subrange(cur as int, i + 1) =~= s.subrange(cur as int, i as int).push(
                s[i as int],
            ));
            assert(pieces(s.take(i + 1)) =~= done.push(s.subrange(cur as int, i + 1)));
        }
        i = i + 1;
    }
    assert(s.take(n as int) =~= s);
    let ghost p = pieces(s);
    assert(p.take(p.len() - 1) =~= done);
    if cur < n {
        out.push(String::from_str(text.substring_char(cur, n)));
        assert(views(out@) =~= lines_of(s));
    } else {
        assert(views(out@) =~= lines_of(s));
    }
    out
}

} // verus!
