//! Loading a module tree through a [`FileSystem`] and writing it back as one text.
use crate::lines::{lines_of, split_lines, views};
use crate::syntax::{
    classify, lemma_declaration_bounds, models_of, parse_line, LineRef, LineToken, TokenModel,
};
use vstd::prelude::*;
use vstd::string::StringExecFns;

verus! {

/// How a module could not be opened.
#[derive(PartialEq, Eq, Debug, Clone, Copy, Structural)]
pub enum ResolveError {
    /// No candidate location holds the module.
    NotFound,
    /// A location was found, but reading it failed.
    Io,
}

/// Why a load was given up.
#[derive(PartialEq, Eq, Debug, Clone, Copy, Structural)]
pub enum LoadErrorKind {
    ResolutionNotFound,
    IoFailure,
    /// Modules were nested deeper than [`MAX_DEPTH`] levels below the entry module.
    NestingTooDeep,
}

/// A failed load: what went wrong, and for which module.
#[derive(PartialEq, Eq, Debug, Clone)]
pub struct LoadError {
    pub kind: LoadErrorKind,
    /// The path context in which the module was looked up.
    pub relative_path: String,
    /// The module that was looked up.
    pub module_name: String,
}

pub ghost struct LoadErrorModel {
    pub kind: LoadErrorKind,
    pub relative_path: Seq<char>,
    pub module_name: Seq<char>,
}

impl LoadError {
    pub open spec fn model(&self) -> LoadErrorModel {
        LoadErrorModel {
            kind: self.kind,
            relative_path: self.relative_path@,
            module_name: self.module_name@,
        }
    }
}

/// How many levels of modules may stand below the entry module: a bound that only a
/// module tree which declares itself again reaches.
pub const MAX_DEPTH: usize = usize::MAX;

/// Finds the text of a module from its name and the path context it is declared in.
pub trait FileSystem {
    /// Whether `r` is an answer that this file system may give when asked for
    /// `module_name` in context `relative_path`. A file system whose answers depend on
    /// what lies outside it (a disk) keeps the default, which rules nothing out.
    open spec fn answers(
        &self,
        relative_path: Seq<char>,
        module_name: Seq<char>,
        r: Result<Seq<char>, ResolveError>,
    ) -> bool {
        true
    }

    fn open_submodule(&self, relative_path: &str, module_name: &str) -> (r: Result<
        String,
        ResolveError,
    >)
        ensures
            self.answers(relative_path@, module_name@, text_result(r)),
    ;
}

/// One lookup that the loader made: what it asked for, and what came back.
pub ghost struct Lookup {
    pub relative_path: Seq<char>,
    pub module_name: Seq<char>,
    pub answer: Result<Seq<char>, ResolveError>,
}

/// Every answer in `log` is one that `fs` may give for its question.
pub open spec fn answered_by<F: FileSystem>(fs: F, log: Seq<Lookup>) -> bool {
    forall|i: int|
        0 <= i < log.len() ==> fs.answers(
            (#[trigger] log[i]).relative_path,
            log[i].module_name,
            log[i].answer,
        )
}

/// The answer of a lookup, as a value of the model.
pub open spec fn text_result(r: Result<String, ResolveError>) -> Result<Seq<char>, ResolveError> {
    match r {
        Ok(t) => Ok(t@),
        Err(e) => Err(e),
    }
}

/// The path context of the modules that `name`, declared in context `rel`, declares.
pub open spec fn child_path(rel: Seq<char>, name: Seq<char>) -> Seq<char> {
    rel + seq!['/'] + name
}

pub open spec fn resolve_failure(
    e: ResolveError,
    rel: Seq<char>,
    name: Seq<char>,
) -> LoadErrorModel {
    LoadErrorModel {
        kind: match e {
            ResolveError::NotFound => LoadErrorKind::ResolutionNotFound,
            ResolveError::Io => LoadErrorKind::IoFailure,
        },
        relative_path: rel,
        module_name: name,
    }
}

/// Loads `lines`, read in context `rel`, taking the lookups it makes from the front of
/// `log`, in the order it makes them; each must ask for the module declared, in context
/// `rel`: each module declaration is
/// replaced by a public block that holds the tokens of the declared module. The first
/// failure, in line order and depth first, ends the load. Gives the result and the
/// answers left over, or `None` where `log` runs out or holds another question.
pub open spec fn replay(
    log: Seq<Lookup>,
    rel: Seq<char>,
    lines: Seq<Seq<char>>,
    depth: nat,
) -> Option<(Result<Seq<TokenModel>, LoadErrorModel>, Seq<Lookup>)>
    decreases depth, lines.len(),
{
    if lines.len() == 0 {
        Some((Ok(seq![]), log))
    } else {
        match replay(log, rel, lines.drop_last(), depth) {
            None => None,
            Some((Err(e), rest)) => Some((Err(e), rest)),
            Some((Ok(ts), rest)) => match classify(lines.last()) {
                TokenModel::DeclareOtherModule { line, name, is_pub } => {
                    let child = name.spec_resolve(line);
                    if depth == 0 {
                        Some(
                            (
                                Err(
                                    LoadErrorModel {
                                        kind: LoadErrorKind::NestingTooDeep,
                                        relative_path: rel,
                                        module_name: child,
                                    },
                                ),
                                rest,
                            ),
                        )
                    } else if rest.len() == 0 || rest[0].relative_path != rel
                        || rest[0].module_name != child {
                        None
                    } else {
                        match rest[0].answer {
                            Err(e) => Some((Err(resolve_failure(e, rel, child)), rest.drop_first())),
                            Ok(text) => match replay(
                                rest.drop_first(),
                                child_path(rel, child),
                                lines_of(text),
                                (depth - 1) as nat,
                            ) {
                                None => None,
                                Some((Err(e), rest2)) => Some((Err(e), rest2)),
                                Some((Ok(children), rest2)) => Some(
                                    (
                                        Ok(
                                            ts.push(
                                                TokenModel::Module {
                                                    name: child,
                                                    is_pub: true,
                                                    tokens: children,
                                                },
                                            ),
                                        ),
                                        rest2,
                                    ),
                                ),
                            },
                        }
                    }
                },
                t => Some((Ok(ts.push(t)), rest)),
            },
        }
    }
}

/// Loads the module `entry`, looked up first, with an empty path context, taking the
/// lookups from `log` as [`replay`] does.
pub open spec fn replay_module(log: Seq<Lookup>, entry: Seq<char>) -> Option<
    (Result<Seq<TokenModel>, LoadErrorModel>, Seq<Lookup>),
> {
    if log.len() == 0 || log[0].relative_path != Seq::<char>::empty() || log[0].module_name
        != entry {
        None
    } else {
        match log[0].answer {
            Err(e) => Some((Err(resolve_failure(e, seq![], entry)), log.drop_first())),
            Ok(text) => replay(log.drop_first(), seq![], lines_of(text), MAX_DEPTH as nat),
        }
    }
}

pub open spec fn tokens_result(r: Result<Vec<LineToken>, LoadError>) -> Result<
    Seq<TokenModel>,
    LoadErrorModel,
> {
    match r {
        Ok(ts) => Ok(models_of(ts@)),
        Err(e) => Err(e.model()),
    }
}

pub open spec fn newline() -> Seq<char> {
    seq!['\n']
}

/// The opening line of a block: `[pub ]mod name{`.
pub open spec fn block_head(name: Seq<char>, is_pub: bool) -> Seq<char> {
    (if is_pub {
        seq!['p', 'u', 'b', ' ']
    } else {
        seq![]
    }) + seq!['m', 'o', 'd', ' '] + name + seq!['{', '\n']
}

/// The text of one token: a line with its newline, or a block with its children.
pub open spec fn render_token(t: TokenModel) -> Seq<char>
    decreases t,
{
    match t {
        TokenModel::Module { name, is_pub, tokens } => block_head(name, is_pub) + render_tokens(
            tokens,
        ) + seq!['}', '\n'],
        TokenModel::DeclareOtherModule { line, .. } => line + newline(),
        TokenModel::UseModule { line, .. } => line + newline(),
        TokenModel::UseManyModules { line, .. } => line + newline(),
        TokenModel::OtherLine { line, .. } => line + newline(),
    }
}

/// The text of a token sequence, in order.
pub open spec fn render_tokens(ts: Seq<TokenModel>) -> Seq<char>
    decreases ts,
{
    if ts.len() == 0 {
        seq![]
    } else {
        render_tokens(ts.drop_last()) + render_token(ts.last())
    }
}

fn load_error(kind: LoadErrorKind, rel: &str, name: &str) -> (r: LoadError)
    ensures
        r.model() == (LoadErrorModel { kind, relative_path: rel@, module_name: name@ }),
{
    LoadError { kind, relative_path: String::from_str(rel), module_name: String::from_str(name) }
}

proof fn lemma_models_push(ts: Seq<LineToken>, t: LineToken)
    ensures
        models_of(ts.push(t)) == models_of(ts).push(t.model()),
{
    assert(ts.push(t).drop_last() =~= ts);
}

/// Answers appended to the log are left over, and change nothing else.
pub proof fn lemma_replay_frame(
    log: Seq<Lookup>,
    extra: Seq<Lookup>,
    rel: Seq<char>,
    lines: Seq<Seq<char>>,
    depth: nat,
)
    requires
        replay(log, rel, lines, depth) is Some,
    ensures
        match replay(log, rel, lines, depth) {
            Some((r, rest)) => replay(log + extra, rel, lines, depth) == Some((r, rest + extra)),
            None => true,
        },
    decreases depth, lines.len(),
{
    if lines.len() > 0 {
        lemma_replay_frame(log, extra, rel, lines.drop_last(), depth);
        if let Some((Ok(ts), rest)) = replay(log, rel, lines.drop_last(), depth) {
            if let TokenModel::DeclareOtherModule { line, name, is_pub } = classify(lines.last()) {
                if depth > 0 && rest.len() > 0 {
                    assert((rest + extra)[0] == rest[0]);
                    assert((rest + extra).drop_first() =~= rest.drop_first() + extra);
                    if let Ok(text) = rest[0].answer {
                        let child = name.spec_resolve(line);
                        lemma_replay_frame(
                            rest.drop_first(),
                            extra,
                            child_path(rel, child),
                            lines_of(text),
                            (depth - 1) as nat,
                        );
                    }
                }
            }
        }
    } else {
        assert(log + extra =~= log + extra);
    }
}

proof fn lemma_error_stays(
    log: Seq<Lookup>,
    rel: Seq<char>,
    ls: Seq<Seq<char>>,
    k: int,
    depth: nat,
)
    requires
        0 <= k <= ls.len(),
        replay(log, rel, ls.take(k), depth) matches Some((Err(_), _)),
    ensures
        replay(log, rel, ls, depth) == replay(log, rel, ls.take(k), depth),
    decreases ls.len(),
{
    if ls.len() > k {
        assert(ls.drop_last().take(k) =~= ls.take(k));
        lemma_error_stays(log, rel, ls.drop_last(), k, depth);
    } else {
        assert(ls.take(k) =~= ls);
    }
}

/// Reads `text`, the answer to a lookup, in context `rel`, inlining the modules it
/// declares at most `depth` levels down. Gives, beside the result, the lookups it made
/// through `fs`, in order: each got an answer that `fs` may give, and the result is what
/// [`replay`] makes of them.
pub fn load_text<F: FileSystem>(fs: &F, rel: &str, text: &str, depth: usize) -> (r: (
    Result<Vec<LineToken>, LoadError>,
    Ghost<Seq<Lookup>>,
))
    ensures
        replay(r.1@, rel@, lines_of(text@), depth as nat) == Some(
            (tokens_result(r.0), Seq::<Lookup>::empty()),
        ),
        answered_by(*fs, r.1@),
    decreases depth,
{
    let lines = split_lines(text);
    let ghost ls = lines_of(text@);
    let ghost mut log: Seq<Lookup> = seq![];
    let mut out: Vec<LineToken> = Vec::new();
    let mut i: usize = 0;
    assert(ls.take(0) =~= seq![]);
    while i < lines.len()
        invariant
            ls == lines_of(text@),
            answered_by(*fs, log),
            views(lines@) == ls,
            i <= lines@.len(),
            replay(log, rel@, ls.take(i as int), depth as nat) == Some(
                (
                    Ok::<Seq<TokenModel>, LoadErrorModel>(models_of(out@)),
                    Seq::<Lookup>::empty(),
                ),
            ),
        decreases lines@.len() - i,
    {
        assert(ls.take(i + 1).drop_last() =~= ls.take(i as int));
        assert(ls.take(i + 1).last() == lines@[i as int]@);
        let ghost before = out@;
        let tok = parse_line(lines[i].clone());
        match tok {
            LineToken::DeclareOtherModule { line, name, is_pub } => {
                proof {
                    lemma_declaration_bounds(line@);
                }
                let child = name.resolve_unchecked(line.as_str());
                if depth == 0 {
                    let err = load_error(LoadErrorKind::NestingTooDeep, rel, child);
                    proof {
                        lemma_error_stays(log, rel@, ls, i + 1, depth as nat);
                    }
                    return (Err(err), Ghost(log));
                }
                let answer = fs.open_submodule(rel, child);
                let ghost a = Lookup {
                    relative_path: rel@,
                    module_name: child@,
                    answer: text_result(answer),
                };
                proof {
                    assert(answered_by(*fs, log + seq![a])) by {
                        assert forall|k: int| 0 <= k < (log + seq![a]).len() implies fs.answers(
                            (#[trigger] (log + seq![a])[k]).relative_path,
                            (log + seq![a])[k].module_name,
                            (log + seq![a])[k].answer,
                        ) by {
                            if k < log.len() {
                                assert((log + seq![a])[k] == log[k]);
                            }
                        }
                    }
                    lemma_replay_frame(log, seq![a], rel@, ls.take(i as int), depth as nat);
                    assert(Seq::<Lookup>::empty() + seq![a] =~= seq![a]);
                    assert(seq![a].drop_first() =~= Seq::<Lookup>::empty());
                }
                match answer {
                    Err(e) => {
                        let kind = match e {
                            ResolveError::NotFound => LoadErrorKind::ResolutionNotFound,
                            ResolveError::Io => LoadErrorKind::IoFailure,
                        };
                        let err = load_error(kind, rel, child);
                        proof {
                            log = log + seq![a];
                            lemma_error_stays(log, rel@, ls, i + 1, depth as nat);
                        }
                        return (Err(err), Ghost(log));
                    },
                    Ok(source) => {
                        let mut child_rel = String::from_str(rel);
                        child_rel.append("/");
                        child_rel.append(child);
                        proof {
                            reveal_strlit("/");
                            assert(child_rel@ =~= child_path(rel@, child@));
                        }
                        let (sub, child_log) = load_text(
                            fs,
                            child_rel.as_str(),
                            source.as_str(),
                            depth - 1,
                        );
                        proof {
                            lemma_replay_frame(
                                log,
                                seq![a] + child_log@,
                                rel@,
                                ls.take(i as int),
                                depth as nat,
                            );
                            assert(Seq::<Lookup>::empty() + (seq![a]
                                + child_log@) =~= seq![a] + child_log@);
                            assert((seq![a] + child_log@).drop_first() =~= child_log@);
                            assert(log + (seq![a] + child_log@) =~= log + seq![a] + child_log@);
                            let with_a = log + seq![a];
                            assert(answered_by(*fs, with_a + child_log@)) by {
                                assert forall|k: int|
                                    0 <= k < (with_a + child_log@).len() implies fs.answers(
                                    (#[trigger] (with_a + child_log@)[k]).relative_path,
                                    (with_a + child_log@)[k].module_name,
                                    (with_a + child_log@)[k].answer,
                                ) by {
                                    if k < with_a.len() {
                                        assert((with_a + child_log@)[k] == with_a[k]);
                                    } else {
                                        assert((with_a + child_log@)[k] == child_log@[k
                                            - with_a.len()]);
                                    }
                                }
                            }
                            log = log + seq![a] + child_log@;
                        }
                        match sub {
                            Err(e) => {
                                proof {
                                    lemma_error_stays(log, rel@, ls, i + 1, depth as nat);
                                }
                                return (Err(e), Ghost(log));
                            },
                            Ok(children) => {
                                let block = LineToken::Module {
                                    name: String::from_str(child),
                                    is_pub: true,
                                    tokens: children,
                                };
                                out.push(block);
                                proof {
                                    lemma_models_push(before, block);
                                }
                            },
                        }
                    },
                }
            },
            other => {
                out.push(other);
                proof {
                    lemma_models_push(before, other);
                }
            },
        }
        i = i + 1;
    }
    assert(ls.take(i as int) =~= ls);
    (Ok(out), Ghost(log))
}

proof fn lemma_render_push(ts: Seq<LineToken>, t: LineToken)
    ensures
        render_tokens(models_of(ts.push(t))) == render_tokens(models_of(ts)) + render_token(
            t.model(),
        ),
{
    lemma_models_push(ts, t);
    assert(models_of(ts).push(t.model()).drop_last() =~= models_of(ts));
}

/// Appends the text of `ts` to `out`.
fn render_into(ts: &Vec<LineToken>, out: &mut String)
    ensures
        final(out)@ == old(out)@ + render_tokens(models_of(ts@)),
    decreases ts,
{
    let mut i: usize = 0;
    assert(ts@.take(0) =~= seq![]);
    assert(old(out)@ + seq![] =~= old(out)@);
    while i < ts.len()
        invariant
            i <= ts@.len(),
            out@ == old(out)@ + render_tokens(models_of(ts@.take(i as int))),
        decreases ts@.len() - i,
    {
        assert(ts@.take(i + 1) =~= ts@.take(i as int).push(ts@[i as int]));
        let ghost before = out@;
        match &ts[i] {
            LineToken::Module { name, is_pub, tokens } => {
                if *is_pub {
                    out.append("pub ");
                }
                out.append("mod ");
                out.append(name.as_str());
                out.append("{\n");
                let ghost mid = out@;
                proof {
                    reveal_strlit("pub ");
                    reveal_strlit("mod ");
                    reveal_strlit("{\n");
                    assert(mid =~= before + block_head(name@, *is_pub));
                }
                assert(decreases_to!(ts => ts@[i as int]));
                render_into(tokens, out);
                out.append("}\n");
                proof {
                    reveal_strlit("}\n");
                }
            },
            LineToken::DeclareOtherModule { line, .. } => {
                out.append(line.as_str());
                out.append("\n");
                proof {
                    reveal_strlit("\n");
                }
            },
            LineToken::UseModule { line, .. } => {
                out.append(line.as_str());
                out.append("\n");
                proof {
                    reveal_strlit("\n");
                }
            },
            LineToken::UseManyModules { line, .. } => {
                out.append(line.as_str());
                out.append("\n");
                proof {
                    reveal_strlit("\n");
                }
            },
            LineToken::OtherLine { line, .. } => {
                out.append(line.as_str());
                out.append("\n");
                proof {
                    reveal_strlit("\n");
                }
            },
        }
        proof {
            lemma_render_push(ts@.take(i as int), ts@[i as int]);
            assert(out@ =~= before + render_token(ts@[i as int].model()));
        }
        i = i + 1;
    }
    assert(ts@.take(i as int) =~= ts@);
}

/// The text under `name` in `entries`: the first entry with that name.
pub open spec fn lookup(entries: Seq<(Seq<char>, Seq<char>)>, name: Seq<char>) -> Option<Seq<char>>
    decreases entries.len(),
{
    if entries.len() == 0 {
        None
    } else if entries[0].0 == name {
        Some(entries[0].1)
    } else {
        lookup(entries.drop_first(), name)
    }
}

/// A [`FileSystem`] held in memory: a table from module name to text. The path
/// context is not consulted.
pub struct StubFileSystem {
    entries: Vec<(String, String)>,
}

impl StubFileSystem {
    /// The entries, newest first.
    pub closed spec fn entries(&self) -> Seq<(Seq<char>, Seq<char>)> {
        self.entries@.map_values(|e: (String, String)| (e.0@, e.1@))
    }

    /// The text stored under `name`.
    pub open spec fn text_of(&self, name: Seq<char>) -> Option<Seq<char>> {
        lookup(self.entries(), name)
    }

    pub fn new() -> (r: Self)
        ensures
            forall|n: Seq<char>| r.text_of(n) is None,
    {
        let r = Self { entries: Vec::new() };
        assert(r.entries() =~= seq![]);
        r
    }

    /// Stores `content` under `name`, in place of what was stored there.
    pub fn insert(&mut self, name: &str, content: &str)
        ensures
            forall|n: Seq<char>|
                #![trigger final(self).text_of(n)]
                final(self).text_of(n) == if n == name@ {
                    Some(content@)
                } else {
                    old(self).text_of(n)
                },
    {
        let ghost before = self.entries();
        self.entries.insert(0, (String::from_str(name), String::from_str(content)));
        assert(self.entries() =~= seq![(name@, content@)] + before);
        assert(forall|n: Seq<char>| (#[trigger] lookup(seq![(name@, content@)] + before, n)) == if n == name@ {
            Some(content@)
        } else {
            lookup(before, n)
        }) by {
            assert forall|n: Seq<char>| (#[trigger] lookup(seq![(name@, content@)] + before, n)) == if n == name@ {
                Some(content@)
            } else {
                lookup(before, n)
            } by {
                assert((seq![(name@, content@)] + before).drop_first() =~= before);
            }
        }
    }
}

impl StubFileSystem {
    /// The text stored under `module_name`, or `NotFound`.
    pub fn find(&self, module_name: &str) -> (r: Result<String, ResolveError>)
        ensures
            text_result(r) == match self.text_of(module_name@) {
                Some(t) => Ok(t),
                None => Err(ResolveError::NotFound),
            },
    {
        let key = String::from_str(module_name);
        let mut k: usize = 0;
        assert(self.entries().skip(0) =~= self.entries());
        while k < self.entries.len()
            invariant
                k <= self.entries@.len(),
                key@ == module_name@,
                lookup(self.entries().skip(k as int), key@) == self.text_of(key@),
            decreases self.entries@.len() - k,
        {
            assert(self.entries().skip(k as int).drop_first() =~= self.entries().skip(k + 1));
            if self.entries[k].0 == key {
                return Ok(self.entries[k].1.clone());
            }
            k = k + 1;
        }
        assert(self.entries().skip(k as int) =~= seq![]);
        Err(ResolveError::NotFound)
    }
}

impl FileSystem for StubFileSystem {
    /// The text stored under the module's name, whatever the context; `NotFound` where
    /// none is.
    open spec fn answers(
        &self,
        relative_path: Seq<char>,
        module_name: Seq<char>,
        r: Result<Seq<char>, ResolveError>,
    ) -> bool {
        r == match self.text_of(module_name) {
            Some(t) => Ok(t),
            None => Err(ResolveError::NotFound),
        }
    }

    fn open_submodule(&self, relative_path: &str, module_name: &str) -> (r: Result<
        String,
        ResolveError,
    >) {
        self.find(module_name)
    }
}

/// A module tree: the entry module, where its files are found, and, once loaded, its
/// tokens.
pub struct Bundle<F: FileSystem> {
    entry_module: String,
    file_system: F,
    strip_tests: bool,
    /// The token tree; empty until a load succeeds.
    pub file: Vec<LineToken>,
    /// The answers of the file system during the last load, in order.
    answers: Ghost<Seq<Lookup>>,
}

impl<F: FileSystem> Bundle<F> {
    pub closed spec fn entry(&self) -> Seq<char> {
        self.entry_module@
    }

    pub closed spec fn fs(&self) -> F {
        self.file_system
    }

    pub closed spec fn strips_tests(&self) -> bool {
        self.strip_tests
    }

    /// The lookups of the last load, in the order made.
    pub closed spec fn answers(&self) -> Seq<Lookup> {
        self.answers@
    }

    /// The token tree.
    pub closed spec fn tree(&self) -> Seq<TokenModel> {
        models_of(self.file@)
    }

    /// The text that the token tree is written as.
    pub open spec fn text(&self) -> Seq<char> {
        render_tokens(self.tree())
    }

    pub fn new(entry_module: &str, file_system: F) -> (r: Self)
        ensures
            r.entry() == entry_module@,
            r.fs() == file_system,
            !r.strips_tests(),
            r.tree() == Seq::<TokenModel>::empty(),
    {
        Self {
            entry_module: String::from_str(entry_module),
            file_system,
            strip_tests: false,
            file: Vec::new(),
            answers: Ghost(Seq::empty()),
        }
    }

    /// Sets whether test modules are to be left out of the output.
    pub fn stript_tests(self, value: bool) -> (r: Self)
        ensures
            r.strips_tests() == value,
            r.entry() == self.entry(),
            r.fs() == self.fs(),
            r.tree() == self.tree(),
    {
        let mut b = self;
        b.strip_tests = value;
        b
    }

    /// Whether test modules are to be left out of the output.
    pub fn strips_test_modules(&self) -> (r: bool)
        ensures
            r == self.strips_tests(),
    {
        self.strip_tests
    }

    /// Loads the entry module and, through it, every module it declares. The lookups
    /// made are recorded in [`Bundle::answers`]: each got an answer that the file
    /// system may give, they are the questions [`replay_module`] asks, in its order,
    /// and the result is what it makes of them, with no lookup left over. On failure
    /// the token tree is left as it was.
    pub fn load(&mut self) -> (r: Result<(), LoadError>)
        ensures
            final(self).entry() == old(self).entry(),
            final(self).fs() == old(self).fs(),
            final(self).strips_tests() == old(self).strips_tests(),
            answered_by(old(self).fs(), final(self).answers()),
            match replay_module(final(self).answers(), old(self).entry()) {
                Some((Ok(ts), rest)) => rest.len() == 0 && r is Ok && final(self).tree() == ts,
                Some((Err(e), rest)) => rest.len() == 0 && final(self).tree() == old(self).tree()
                    && (r matches Err(x) && x.model() == e),
                None => false,
            },
    {
        let entry = self.entry_module.as_str();
        let answer = self.file_system.open_submodule("", entry);
        proof {
            reveal_strlit("");
            assert(""@ =~= Seq::<char>::empty());
        }
        let ghost a = Lookup {
            relative_path: Seq::empty(),
            module_name: entry@,
            answer: text_result(answer),
        };
        match answer {
            Err(e) => {
                let kind = match e {
                    ResolveError::NotFound => LoadErrorKind::ResolutionNotFound,
                    ResolveError::Io => LoadErrorKind::IoFailure,
                };
                self.answers = Ghost(Seq::empty().push(a));
                assert(self.answers@ =~= seq![a]);
                assert(seq![a].drop_first() =~= Seq::<Lookup>::empty());
                Err(load_error(kind, "", entry))
            },
            Ok(source) => {
                let (result, log) = load_text(&self.file_system, "", source.as_str(), MAX_DEPTH);
                self.answers = Ghost(Seq::empty().push(a) + log@);
                assert(self.answers@ =~= seq![a] + log@);
                assert(answered_by(self.file_system, self.answers@)) by {
                    assert forall|k: int| 0 <= k < self.answers@.len() implies self.file_system.answers(
                        (#[trigger] self.answers@[k]).relative_path,
                        self.answers@[k].module_name,
                        self.answers@[k].answer,
                    ) by {
                        if k > 0 {
                            assert(self.answers@[k] == log@[k - 1]);
                        }
                    }
                }
                assert((seq![a] + log@).drop_first() =~= log@);
                match result {
                    Err(e) => Err(e),
                    Ok(tokens) => {
                        self.file = tokens;
                        Ok(())
                    },
                }
            },
        }
    }

    /// The token tree as text.
    pub fn render(&self) -> (r: String)
        ensures
            r@ == self.text(),
    {
        let mut out = String::new();
        render_into(&self.file, &mut out);
        out
    }

    /// Appends the UTF-8 encoding of the text of the token tree to `out`.
    pub fn write(&self, out: &mut Vec<u8>)
        ensures
            final(out)@ == old(out)@ + vstd::utf8::encode_utf8(self.text()),
    {
        let text = self.render();
        let bytes = text.as_str().as_bytes();
        let mut i: usize = 0;
        while i < bytes.len()
            invariant
                i <= bytes@.len(),
                bytes@ == vstd::utf8::encode_utf8(self.text()),
                out@ == old(out)@ + bytes@.take(i as int),
            decreases bytes@.len() - i,
        {
            out.push(bytes[i]);
            i = i + 1;
            assert(out@ =~= old(out)@ + bytes@.take(i as int));
        }
        assert(bytes@.take(i as int) =~= bytes@);
    }
}

} // verus!
