//! Properties of the classifier and of loading and writing, stated over the models and
//! proved.
use crate::bundle::{
    answered_by, child_path, render_token, replay, replay_module, FileSystem, LoadErrorKind,
    LoadErrorModel, Lookup, ResolveError, StubFileSystem, MAX_DEPTH,
};
use crate::lines::lines_of;
use crate::scan::{
    colons, has_lit, is_space, is_word, last_close, lemma_rskip_space_bounds,
    lemma_skip_space_bounds, lemma_skip_word_bounds, skip_path, skip_space, skip_word,
};
use crate::syntax::{
    brace_open, classify, declaration_parts, field_end, is_trim_of, multi_import_parts,
    single_import_parts, skip_blank, span, tokenize_from, trimmed_span, use_kw, TokenModel,
};
use vstd::prelude::*;

verus! {

/// A line that is neither a module declaration nor an import is a plain line, and its
/// span is the line without its leading and trailing whitespace.
pub proof fn lemma_plain_line_is_trimmed(s: Seq<char>)
    requires
        declaration_parts(s) is None,
        single_import_parts(s) is None,
        multi_import_parts(s) is None,
        s.len() <= usize::MAX,
    ensures
        classify(s) matches TokenModel::OtherLine { line, trimmed_ref } && line == s && is_trim_of(
            s,
            trimmed_ref,
        ),
{
    lemma_skip_space_bounds(s, 0);
    lemma_rskip_space_bounds(s, s.len() as int);
    let a = skip_space(s, 0);
    if a < s.len() {
        assert(!is_space(s[a]));
    }
    let r = trimmed_span(s);
    assert(is_trim_of(s, r));
}

/// Writing a classified line gives the line back, with a newline after it.
pub proof fn lemma_classified_line_writes_back(s: Seq<char>)
    ensures
        !(classify(s) is Module),
        render_token(classify(s)) == s + seq!['\n'],
{
}

/// A declared module that the file system reports as not found ends the load with
/// `ResolutionNotFound`, naming the path context and the module.
pub proof fn lemma_missing_module_fails(
    log: Seq<Lookup>,
    rel: Seq<char>,
    lines: Seq<Seq<char>>,
    depth: nat,
)
    requires
        lines.len() > 0,
        depth > 0,
        classify(lines.last()) is DeclareOtherModule,
        replay(log, rel, lines.drop_last(), depth) matches Some((Ok(_), rest)) && rest.len() > 0
            && rest[0] == (Lookup {
                relative_path: rel,
                module_name: classify(lines.last())->DeclareOtherModule_name.spec_resolve(
                    lines.last(),
                ),
                answer: Err(ResolveError::NotFound),
            }),
    ensures
        replay(log, rel, lines, depth) matches Some((Err(e), _)) && e == (LoadErrorModel {
            kind: LoadErrorKind::ResolutionNotFound,
            relative_path: rel,
            module_name: classify(lines.last())->DeclareOtherModule_name.spec_resolve(
                lines.last(),
            ),
        }),
{
}

/// An identifier: one or more identifier characters, none of them whitespace.
pub open spec fn is_ident(w: Seq<char>) -> bool {
    w.len() > 0 && forall|i: int| 0 <= i < w.len() ==> is_word(#[trigger] w[i]) && !is_space(w[i])
}

/// The identifiers of `ws` joined by `::`.
pub open spec fn join_path(ws: Seq<Seq<char>>) -> Seq<char>
    decreases ws.len(),
{
    if ws.len() == 0 {
        seq![]
    } else if ws.len() == 1 {
        ws[0]
    } else {
        ws[0] + colons() + join_path(ws.drop_first())
    }
}

/// A scoped path: identifiers, at least one, joined by `::`.
pub open spec fn is_path(ws: Seq<Seq<char>>) -> bool {
    ws.len() > 0 && forall|i: int| 0 <= i < ws.len() ==> is_ident(#[trigger] ws[i])
}

/// A name of a brace group as written: not empty, no comma, not starting with a space.
pub open spec fn is_listed_name(n: Seq<char>) -> bool {
    n.len() > 0 && n[0] != ' ' && forall|i: int| 0 <= i < n.len() ==> #[trigger] n[i] != ','
}

/// The names of `ns` joined by `, `.
pub open spec fn join_names(ns: Seq<Seq<char>>) -> Seq<char>
    decreases ns.len(),
{
    if ns.len() == 0 {
        seq![]
    } else if ns.len() == 1 {
        ns[0]
    } else {
        ns[0] + seq![',', ' '] + join_names(ns.drop_first())
    }
}

proof fn lemma_skip_ident(s: Seq<char>, i: int, k: int, n: int)
    requires
        0 <= i <= k <= i + n <= s.len(),
        forall|m: int| i <= m < i + n ==> is_word(#[trigger] s[m]),
        i + n < s.len() ==> !is_word(s[i + n]),
    ensures
        skip_word(s, k) == i + n,
    decreases i + n - k,
{
    if k < i + n {
        lemma_skip_ident(s, i, k + 1, n);
    }
}

proof fn lemma_skip_join_path(s: Seq<char>, i: int, ws: Seq<Seq<char>>)
    requires
        is_path(ws),
        0 <= i,
        i + join_path(ws).len() <= s.len(),
        s.subrange(i, i + join_path(ws).len()) == join_path(ws),
        i + join_path(ws).len() < s.len() ==> !is_word(s[i + join_path(ws).len()]),
        !(has_lit(s, i + join_path(ws).len(), colons()) && skip_word(
            s,
            i + join_path(ws).len() + 2,
        ) > i + join_path(ws).len() + 2),
    ensures
        skip_path(s, i) == i + join_path(ws).len(),
    decreases ws.len(),
{
    let w = ws[0];
    assert(is_ident(w));
    let p = join_path(ws);
    if ws.len() == 1 {
        assert forall|m: int| i <= m < i + w.len() implies is_word(#[trigger] s[m]) by {
            assert(s[m] == s.subrange(i, i + p.len())[m - i]);
        }
        lemma_skip_ident(s, i, i, w.len() as int);
    } else {
        let rest = ws.drop_first();
        assert(is_path(rest)) by {
            assert forall|j: int| 0 <= j < rest.len() implies is_ident(#[trigger] rest[j]) by {
                assert(rest[j] == ws[j + 1]);
            }
        }
        let e = i + w.len();
        assert(p == w + colons() + join_path(rest));
        assert forall|m: int| i <= m < e implies is_word(#[trigger] s[m]) by {
            assert(s[m] == s.subrange(i, i + p.len())[m - i]);
        }
        assert(s[e] == s.subrange(i, i + p.len())[w.len() as int]);
        assert(s[e] == ':');
        lemma_skip_ident(s, i, i, w.len() as int);
        assert(s.subrange(e, e + 2) =~= colons()) by {
            assert(s.subrange(e, e + 2)[0] == s.subrange(i, i + p.len())[w.len() as int]);
            assert(s.subrange(e, e + 2)[1] == s.subrange(i, i + p.len())[w.len() + 1int]);
        }
        let jr = join_path(rest);
        assert forall|m: int| 0 <= m < jr.len() implies s[e + 2 + m] == jr[m] by {
            assert(s[e + 2 + m] == s.subrange(i, i + p.len())[w.len() + 2 + m]);
            assert(p[w.len() + 2 + m] == jr[m]);
        }
        assert(s.subrange(e + 2, e + 2 + jr.len()) =~= jr);
        assert(is_ident(rest[0]));
        assert(join_path(rest).len() > 0 && join_path(rest)[0] == rest[0][0]) by {
            if rest.len() > 1 {
                assert(join_path(rest) == rest[0] + colons() + join_path(rest.drop_first()));
            }
        }
        assert(s[e + 2] == join_path(rest)[0]);
        assert(is_word(rest[0][0]));
        lemma_skip_word_bounds(s, e + 3);
        assert(skip_word(s, e + 2) > e + 2);
        lemma_skip_join_path(s, e + 2, rest);
    }
}

/// Whitespace only.
pub open spec fn is_blank(w: Seq<char>) -> bool {
    forall|i: int| 0 <= i < w.len() ==> is_space(#[trigger] w[i])
}

proof fn lemma_skip_space_run(s: Seq<char>, k: int, n: int)
    requires
        0 <= k <= n <= s.len(),
        forall|m: int| k <= m < n ==> is_space(#[trigger] s[m]),
        n < s.len() ==> !is_space(s[n]),
    ensures
        skip_space(s, k) == n,
    decreases n - k,
{
    if k < n {
        lemma_skip_space_run(s, k + 1, n);
    }
}

/// The words `use` and the path of an import line that starts with whitespace, then
/// `use `, then a path, then `tail`.
proof fn lemma_use_head(lead: Seq<char>, ws: Seq<Seq<char>>, tail: Seq<char>)
    requires
        is_blank(lead),
        is_path(ws),
        tail.len() > 0,
        !is_word(tail[0]),
        !(tail.len() >= 3 && tail[0] == ':' && tail[1] == ':' && is_word(tail[2])),
    ensures
        ({
            let line = lead + use_kw() + seq![' '] + join_path(ws) + tail;
            let w = lead.len() as int;
            &&& declaration_parts(line) is None
            &&& skip_space(line, 0) == w
            &&& has_lit(line, w, use_kw())
            &&& skip_space(line, w + 3) == w + 4
            &&& skip_path(line, w + 4) == w + 4 + join_path(ws).len()
            &&& line.subrange(w + 4, w + 4 + join_path(ws).len()) == join_path(ws)
            &&& line.subrange(w + 4 + join_path(ws).len(), line.len() as int) == tail
        }),
{
    let p = join_path(ws);
    let line = lead + use_kw() + seq![' '] + p + tail;
    let w = lead.len() as int;
    let e = w + 4 + p.len();
    assert(line.len() == e + tail.len());
    assert forall|m: int| 0 <= m < w implies is_space(#[trigger] line[m]) by {
        assert(line[m] == lead[m]);
    }
    assert(line[w] == 'u');
    assert(line[w + 1] == 's');
    assert(line[w + 2] == 'e');
    assert(line[w + 3] == ' ');
    assert forall|m: int| 0 <= m < p.len() implies line[w + 4 + m] == #[trigger] p[m] by {}
    assert forall|m: int| 0 <= m < tail.len() implies line[e + m] == #[trigger] tail[m] by {}
    assert(line.subrange(w + 4, e) =~= p);
    assert(line.subrange(e, line.len() as int) =~= tail);
    lemma_skip_space_run(line, 0, w);
    assert(line.subrange(w, w + 3) =~= use_kw());
    assert(is_ident(ws[0]));
    assert(p.len() > 0 && p[0] == ws[0][0]) by {
        if ws.len() > 1 {
            assert(p == ws[0] + colons() + join_path(ws.drop_first()));
        }
    }
    assert(line[w + 4] == p[0]);
    assert(skip_space(line, w + 4) == w + 4);
    assert(skip_space(line, w + 3) == w + 4);
    assert(line[e] == tail[0]);
    if has_lit(line, e, colons()) {
        assert(line.subrange(e, e + 2)[0] == line[e]);
        assert(line.subrange(e, e + 2)[1] == line[e + 1]);
        if tail.len() >= 3 {
            assert(line[e + 2] == tail[2]);
            assert(!is_word(line[e + 2]));
        }
        assert(skip_word(line, e + 2) == e + 2);
    }
    lemma_skip_join_path(line, w + 4, ws);
    assert(line.subrange(w, w + 3)[0] == 'u');
    assert(!has_lit(line, w, seq!['p', 'u', 'b']));
    assert(!has_lit(line, w, seq!['m', 'o', 'd']));
}

/// A line of whitespace, then `use <path>;` is a single import whose span is the path.
pub proof fn lemma_single_import_span(lead: Seq<char>, ws: Seq<Seq<char>>)
    requires
        is_blank(lead),
        is_path(ws),
        lead.len() + join_path(ws).len() + 5 <= usize::MAX,
    ensures
        ({
            let line = lead + use_kw() + seq![' '] + join_path(ws) + seq![';'];
            classify(line) matches TokenModel::UseModule { line: l, name } && l == line
                && name.start == lead.len() + 4 && name.spec_resolve(line) == join_path(ws)
        }),
{
    let p = join_path(ws);
    let line = lead + use_kw() + seq![' '] + p + seq![';'];
    let w = lead.len() as int;
    let e = w + 4 + p.len();
    lemma_use_head(lead, ws, seq![';']);
    assert(line[e] == line.subrange(e, line.len() as int)[0]);
    assert(line[e] == ';');
    assert(skip_space(line, e) == e);
    assert(single_import_parts(line) == Some((w + 4, e)));
}

pub open spec fn all_listed(ns: Seq<Seq<char>>) -> bool {
    ns.len() > 0 && forall|i: int| 0 <= i < ns.len() ==> is_listed_name(#[trigger] ns[i])
}

proof fn lemma_field_end_run(s: Seq<char>, k: int, e: int)
    requires
        0 <= k <= e <= s.len(),
        forall|m: int| k <= m < e ==> #[trigger] s[m] != ',',
        e < s.len() ==> s[e] == ',',
    ensures
        field_end(s, k) == e,
    decreases e - k,
{
    if k < e {
        lemma_field_end_run(s, k + 1, e);
    }
}

proof fn lemma_join_names_head(ns: Seq<Seq<char>>)
    requires
        all_listed(ns),
    ensures
        join_names(ns).len() >= ns[0].len(),
        join_names(ns).subrange(0, ns[0].len() as int) == ns[0],
        ns.len() == 1 ==> join_names(ns) == ns[0],
        ns.len() > 1 ==> join_names(ns) == ns[0] + seq![',', ' '] + join_names(ns.drop_first()),
{
    assert(is_listed_name(ns[0]));
    if ns.len() > 1 {
        assert(join_names(ns).subrange(0, ns[0].len() as int) =~= ns[0]);
    }
}

proof fn lemma_tokenize_join(s: Seq<char>, i: int, ns: Seq<Seq<char>>)
    requires
        all_listed(ns),
        0 <= i <= s.len(),
        s.len() <= usize::MAX,
        s.subrange(i, s.len() as int) == join_names(ns),
    ensures
        tokenize_from(s, i).len() == ns.len(),
        forall|k: int|
            0 <= k < ns.len() ==> (#[trigger] tokenize_from(s, i)[k]).spec_resolve(s) == ns[k],
    decreases ns.len(),
{
    let n0 = ns[0];
    assert(is_listed_name(n0));
    lemma_join_names_head(ns);
    let j = join_names(ns);
    let e = i + n0.len();
    assert(j.len() == s.len() - i);
    assert forall|m: int| 0 <= m < j.len() implies s[i + m] == #[trigger] j[m] by {
        assert(s.subrange(i, s.len() as int)[m] == s[i + m]);
    }
    assert(s[i] == j[0]);
    assert(skip_blank(s, i) == i);
    assert forall|m: int| i <= m < e implies #[trigger] s[m] != ',' by {
        assert(s[i + (m - i)] == j[m - i]);
        assert(j[m - i] == n0[m - i]);
    }
    assert(s.subrange(i, e) =~= n0) by {
        assert forall|m: int| 0 <= m < n0.len() implies s.subrange(i, e)[m] == n0[m] by {
            assert(s[i + m] == j[m]);
            assert(j[m] == n0[m]);
        }
    }
    if ns.len() == 1 {
        lemma_field_end_run(s, i, e);
        assert(tokenize_from(s, i) == seq![span(i, e - i)]);
    } else {
        let rest = ns.drop_first();
        assert(all_listed(rest)) by {
            assert forall|m: int| 0 <= m < rest.len() implies is_listed_name(#[trigger] rest[m]) by {
                assert(rest[m] == ns[m + 1]);
            }
        }
        assert(s[e] == j[n0.len() as int]);
        assert(s[e + 1] == j[n0.len() + 1int]);
        lemma_field_end_run(s, i, e);
        let jr = join_names(rest);
        assert(s.subrange(e + 2, s.len() as int) =~= jr) by {
            assert forall|m: int| 0 <= m < jr.len() implies s.subrange(e + 2, s.len() as int)[m]
                == jr[m] by {
                assert(s[e + 2 + m] == j[n0.len() + 2 + m]);
            }
        }
        assert(is_listed_name(rest[0]));
        lemma_join_names_head(rest);
        assert(s[e + 2] == jr[0]);
        assert(skip_blank(s, e + 2) == e + 2);
        assert(skip_blank(s, e + 1) == e + 2);
        lemma_tokenize_join(s, e + 2, rest);
        let t1 = tokenize_from(s, e + 1);
        let t2 = tokenize_from(s, e + 2);
        assert(t1 == t2);
        let t = tokenize_from(s, i);
        assert(t == seq![span(i, e - i)] + t1);
        assert forall|k: int| 0 <= k < ns.len() implies (#[trigger] t[k]).spec_resolve(s)
            == ns[k] by {
            if k > 0 {
                assert(t[k] == t2[k - 1]);
                assert(ns[k] == rest[k - 1]);
            }
        }
    }
}

/// A line of whitespace, then `use <path>::{<n1>, <n2>, ...};` is a brace-group
/// import: its parent span is the path, and its name spans are the names, in order.
pub proof fn lemma_multi_import_spans(lead: Seq<char>, ws: Seq<Seq<char>>, ns: Seq<Seq<char>>)
    requires
        is_blank(lead),
        is_path(ws),
        all_listed(ns),
        lead.len() + join_path(ws).len() + join_names(ns).len() + 9 <= usize::MAX,
    ensures
        ({
            let line = lead + use_kw() + seq![' '] + join_path(ws) + (brace_open() + join_names(ns)
                + seq!['}', ';']);
            classify(line) matches TokenModel::UseManyModules { line: l, names, parent } && l
                == line && parent.spec_resolve(line) == join_path(ws) && names.len() == ns.len()
                && forall|k: int|
                0 <= k < ns.len() ==> (#[trigger] names[k]).spec_resolve(line) == ns[k]
        }),
{
    let p = join_path(ws);
    let b = join_names(ns);
    let t = brace_open() + b + seq!['}', ';'];
    let line = lead + use_kw() + seq![' '] + p + t;
    let w = lead.len() as int;
    let e = w + 4 + p.len();
    let bs = e + 3;
    let be = bs + b.len();
    lemma_join_names_head(ns);
    assert(is_listed_name(ns[0]));
    assert(t[0] == ':' && t[1] == ':' && t[2] == '{');
    lemma_use_head(lead, ws, t);
    assert(line.len() == be + 2);
    assert forall|m: int| 0 <= m < t.len() implies line[e + m] == #[trigger] t[m] by {
        assert(line.subrange(e, line.len() as int)[m] == line[e + m]);
    }
    assert(line[e] == t[0]);
    assert(skip_space(line, e) == e);
    assert(single_import_parts(line) is None);
    assert(line.subrange(e, e + 3) =~= brace_open());
    assert(line[be] == t[b.len() + 3int] && line[be + 1] == t[b.len() + 4int]);
    assert(last_close(line, line.len() - 2) == be);
    assert(multi_import_parts(line) == Some((w + 4, e, bs, be)));
    let body = line.subrange(bs, be);
    assert(body =~= b) by {
        assert forall|m: int| 0 <= m < b.len() implies body[m] == b[m] by {
            assert(body[m] == line[e + 3 + m]);
            assert(line[e + 3 + m] == t[3 + m]);
        }
    }
    assert(body.subrange(0, body.len() as int) =~= b);
    lemma_tokenize_join(body, 0, ns);
    let tk = tokenize_from(body, 0);
    crate::syntax::lemma_tokenize_fits(body, 0);
    let names = crate::syntax::shift(tk, bs);
    assert forall|k: int| 0 <= k < ns.len() implies (#[trigger] names[k]).spec_resolve(line)
        == ns[k] by {
        let x = tk[k];
        assert(names[k] == span(x.start + bs, x.size as int));
        assert(names[k].spec_resolve(line) =~= x.spec_resolve(body));
    }
}

/// A file system that gives one answer to each question.
pub open spec fn answers_determined<F: FileSystem>(fs: F) -> bool {
    forall|rel: Seq<char>, name: Seq<char>, a1: Result<Seq<char>, ResolveError>, a2: Result<
        Seq<char>,
        ResolveError,
    >|
        #![trigger fs.answers(rel, name, a1), fs.answers(rel, name, a2)]
        fs.answers(rel, name, a1) && fs.answers(rel, name, a2) ==> a1 == a2
}

proof fn lemma_answered_drop_first<F: FileSystem>(fs: F, log: Seq<Lookup>)
    requires
        answered_by(fs, log),
        log.len() > 0,
    ensures
        answered_by(fs, log.drop_first()),
        fs.answers(log[0].relative_path, log[0].module_name, log[0].answer),
{
    assert forall|i: int| 0 <= i < log.drop_first().len() implies fs.answers(
        (#[trigger] log.drop_first()[i]).relative_path,
        log.drop_first()[i].module_name,
        log.drop_first()[i].answer,
    ) by {
        assert(log.drop_first()[i] == log[i + 1]);
    }
}

proof fn lemma_replay_rest_answered<F: FileSystem>(
    fs: F,
    log: Seq<Lookup>,
    rel: Seq<char>,
    lines: Seq<Seq<char>>,
    depth: nat,
)
    requires
        answered_by(fs, log),
    ensures
        replay(log, rel, lines, depth) matches Some((_, rest)) ==> answered_by(fs, rest),
    decreases depth, lines.len(),
{
    if lines.len() > 0 {
        lemma_replay_rest_answered(fs, log, rel, lines.drop_last(), depth);
        if let Some((Ok(ts), rest)) = replay(log, rel, lines.drop_last(), depth) {
            if let TokenModel::DeclareOtherModule { line, name, is_pub } = classify(lines.last()) {
                if depth > 0 && rest.len() > 0 {
                    lemma_answered_drop_first(fs, rest);
                    if let Ok(text) = rest[0].answer {
                        lemma_replay_rest_answered(
                            fs,
                            rest.drop_first(),
                            child_path(rel, name.spec_resolve(line)),
                            lines_of(text),
                            (depth - 1) as nat,
                        );
                    }
                }
            }
        }
    }
}

proof fn lemma_replay_determined<F: FileSystem>(
    fs: F,
    log1: Seq<Lookup>,
    log2: Seq<Lookup>,
    rel: Seq<char>,
    lines: Seq<Seq<char>>,
    depth: nat,
)
    requires
        answers_determined(fs),
        answered_by(fs, log1),
        answered_by(fs, log2),
        replay(log1, rel, lines, depth) is Some,
        replay(log2, rel, lines, depth) is Some,
    ensures
        replay(log1, rel, lines, depth) matches Some((r1, _)) && replay(
            log2,
            rel,
            lines,
            depth,
        ) matches Some((r2, _)) && r1 == r2,
    decreases depth, lines.len(),
{
    if lines.len() > 0 {
        let prev = lines.drop_last();
        lemma_replay_determined(fs, log1, log2, rel, prev, depth);
        lemma_replay_rest_answered(fs, log1, rel, prev, depth);
        lemma_replay_rest_answered(fs, log2, rel, prev, depth);
        if let Some((Ok(ts), rest1)) = replay(log1, rel, prev, depth) {
            let rest2 = replay(log2, rel, prev, depth)->Some_0.1;
            if let TokenModel::DeclareOtherModule { line, name, is_pub } = classify(lines.last()) {
                if depth > 0 {
                    lemma_answered_drop_first(fs, rest1);
                    lemma_answered_drop_first(fs, rest2);
                    assert(rest1[0].answer == rest2[0].answer);
                    if let Ok(text) = rest1[0].answer {
                        lemma_replay_determined(
                            fs,
                            rest1.drop_first(),
                            rest2.drop_first(),
                            child_path(rel, name.spec_resolve(line)),
                            lines_of(text),
                            (depth - 1) as nat,
                        );
                    }
                }
            }
        }
    }
}

/// Where a file system gives one answer to each question, as the in-memory one does,
/// every load through it ends the same way: the result depends on the file system
/// alone.
pub proof fn lemma_load_determined<F: FileSystem>(
    fs: F,
    entry: Seq<char>,
    log1: Seq<Lookup>,
    log2: Seq<Lookup>,
)
    requires
        answers_determined(fs),
        answered_by(fs, log1),
        answered_by(fs, log2),
        replay_module(log1, entry) is Some,
        replay_module(log2, entry) is Some,
    ensures
        replay_module(log1, entry) matches Some((r1, _)) && replay_module(log2, entry) matches Some(
            (r2, _),
        ) && r1 == r2,
{
    lemma_answered_drop_first(fs, log1);
    lemma_answered_drop_first(fs, log2);
    if let Ok(text) = log1[0].answer {
        lemma_replay_determined(
            fs,
            log1.drop_first(),
            log2.drop_first(),
            Seq::empty(),
            lines_of(text),
            MAX_DEPTH as nat,
        );
    }
}

/// The in-memory file system gives one answer to each question.
pub proof fn lemma_stub_determined(fs: StubFileSystem)
    ensures
        answers_determined(fs),
{
}

} // verus!
