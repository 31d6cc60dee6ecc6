//! Import resolution: follows `@import` pragmas depth-first from an entry
//! file, detects cycles, loads each file once, and merges the rules of all
//! files with dependencies first.
//!
//! Reading and parsing files and probing the file system are done by the
//! caller. The [`Loader`] is driven by its steps: it answers each event (a
//! file was read, an import was probed) with the next thing it needs
//! ([`LoadStep::Read`], [`LoadStep::Resolve`]) or with the outcome
//! ([`LoadStep::Done`]).

use vstd::prelude::*;
use crate::text::{join, join_strings, views};

verus! {

/// A file-level pragma of a parsed module. `import` holds the path named
/// by an `@import "path"` pragma and is `None` for every other pragma;
/// `value` is what the parser made of the pragma.
pub struct Pragma<V> {
    pub keyword: String,
    pub import: Option<String>,
    pub value: V,
}

/// A module: its source path, its file pragmas and its rules.
pub struct CddlModule<V, R> {
    pub source_path: String,
    pub file_pragmas: Vec<Pragma<V>>,
    pub rules: Vec<R>,
}

/// Result of loading an entry-point file and all its transitive imports.
pub struct LoadedModule<V, R> {
    /// Merged module — all rules from all files, entry-point pragmas preserved.
    pub module: CddlModule<V, R>,
    /// All warnings collected during parsing, file by file in the order
    /// the files were read.
    pub warnings: Vec<String>,
}

/// What the parser made of one file.
pub struct ParsedFile<V, R> {
    pub file_pragmas: Vec<Pragma<V>>,
    pub rules: Vec<R>,
    pub warnings: Vec<String>,
}

/// Error from import resolution.
pub enum LoadError {
    /// A file could not be read or found; `source` is the system's message.
    Io { path: String, source: String },
    /// A file could not be parsed; the parser's message.
    Parse(String),
    /// The import stack from the entry file to the file that closes a cycle.
    Cycle { cycle: Vec<String> },
}

/// The outcome of looking for an import at one candidate location.
pub enum Probe {
    /// Nothing exists there.
    Missing,
    /// Something exists there; its canonical path.
    Found(String),
    /// Something exists there but its canonical path could not be had;
    /// the system's message.
    Failed { reason: String },
}

/// What the loader needs next, or its outcome.
pub enum LoadStep<V, R> {
    /// Read and parse the file at this canonical path.
    Read(String),
    /// Probe, in order, the `candidates` for `import`, named in the file
    /// `from`; probing may stop after the first location where something
    /// exists.
    Resolve { import: String, from: String, candidates: Vec<String> },
    /// Loading is over.
    Done(Result<LoadedModule<V, R>, LoadError>),
}

pub enum LoadErrorView {
    Io { path: Seq<char>, source: Seq<char> },
    Parse(Seq<char>),
    Cycle(Seq<Seq<char>>),
}

impl View for LoadError {
    type V = LoadErrorView;

    open spec fn view(&self) -> LoadErrorView {
        match self {
            LoadError::Io { path, source } => LoadErrorView::Io { path: path@, source: source@ },
            LoadError::Parse(m) => LoadErrorView::Parse(m@),
            LoadError::Cycle { cycle } => LoadErrorView::Cycle(views(cycle@)),
        }
    }
}

/// The text that reports a load error.
pub open spec fn error_message(e: LoadErrorView) -> Seq<char> {
    match e {
        LoadErrorView::Io { path, source } => "I/O error reading '"@ + path + "': "@ + source,
        LoadErrorView::Parse(m) => m,
        LoadErrorView::Cycle(cycle) => "import cycle: "@ + join(cycle, " → "@),
    }
}

impl LoadError {
    /// The text that reports this error: the file that could not be read
    /// and why, the parser's message, or the files of the cycle joined by
    /// arrows.
    pub fn message(&self) -> (m: String)
        ensures
            m@ == error_message(self@),
    {
        match self {
            LoadError::Io { path, source } => {
                let mut m = String::from_str("I/O error reading '");
                m.append(path.as_str());
                m.append("': ");
                m.append(source.as_str());
                m
            },
            LoadError::Parse(msg) => msg.clone(),
            LoadError::Cycle { cycle } => {
                let mut m = String::from_str("import cycle: ");
                let joined = join_strings(cycle, " → ");
                m.append(joined.as_str());
                m
            },
        }
    }
}

pub enum StepView<V, R> {
    Read(Seq<char>),
    Resolve { import: Seq<char>, from: Seq<char>, candidates: Seq<Seq<char>> },
    Loaded { path: Seq<char>, pragmas: Seq<Pragma<V>>, rules: Seq<R>, warnings: Seq<Seq<char>> },
    Failed(LoadErrorView),
}

impl<V, R> View for LoadStep<V, R> {
    type V = StepView<V, R>;

    open spec fn view(&self) -> StepView<V, R> {
        match self {
            LoadStep::Read(p) => StepView::Read(p@),
            LoadStep::Resolve { import, from, candidates } => StepView::Resolve {
                import: import@,
                from: from@,
                candidates: views(candidates@),
            },
            LoadStep::Done(Ok(m)) => StepView::Loaded {
                path: m.module.source_path@,
                pragmas: m.module.file_pragmas@,
                rules: m.module.rules@,
                warnings: views(m.warnings@),
            },
            LoadStep::Done(Err(e)) => StepView::Failed(e@),
        }
    }
}

/// The message for an import found nowhere.
pub open spec fn not_found_message(import: Seq<char>) -> Seq<char> {
    "cannot find imported file '"@ + import + "'"@
}

/// The parent directory of a path, as `std::path::Path::parent` gives it.
pub uninterp spec fn path_parent(path: Seq<char>) -> Option<Seq<char>>;

/// A path joined onto a directory, as `std::path::Path::join` gives it.
pub uninterp spec fn path_join(dir: Seq<char>, path: Seq<char>) -> Seq<char>;

/// Calls `std::path::Path::parent`. Claims that the result depends on the
/// path alone; what it is for a given path is not described.
#[verifier::external_body]
fn parent_dir(path: &str) -> (r: Option<String>)
    ensures
        match r {
            Some(d) => path_parent(path@) == Some(d@),
            None => path_parent(path@) is None,
        },
{
    std::path::Path::new(path).parent().map(|d| d.display().to_string())
}

/// Calls `std::path::Path::join`. Claims that the result depends on the
/// two paths alone; what it is for given paths is not described.
#[verifier::external_body]
fn join_path(dir: &str, path: &str) -> (r: String)
    ensures
        r@ == path_join(dir@, path@),
{
    std::path::Path::new(dir).join(path).display().to_string()
}

/// The locations where an import of `import` named in the file `from` is
/// looked for, in order: relative to the directory of the importing file
/// (when it has one), then relative to each include directory in turn.
pub open spec fn candidates_of(import: Seq<char>, from: Seq<char>, include_dirs: Seq<Seq<char>>) -> Seq<Seq<char>> {
    let first = match path_parent(from) {
        Some(d) => seq![path_join(d, import)],
        None => Seq::empty(),
    };
    first + include_dirs.map_values(|d: Seq<char>| path_join(d, import))
}

/// The locations to probe for `import`, named in the file `from`.
pub fn import_candidates(import: &str, from: &str, include_dirs: &Vec<String>) -> (r: Vec<String>)
    ensures
        views(r@) == candidates_of(import@, from@, views(include_dirs@)),
{
    let mut r: Vec<String> = Vec::new();
    match parent_dir(from) {
        Some(d) => {
            r.push(join_path(d.as_str(), import));
        },
        None => {},
    }
    let ghost head = views(r@);
    let ghost dirs = views(include_dirs@);
    let mut i: usize = 0;
    while i < include_dirs.len()
        invariant
            i <= include_dirs.len(),
            dirs == views(include_dirs@),
            views(r@) == head + dirs.take(i as int).map_values(|d: Seq<char>| path_join(d, import@)),
        decreases include_dirs.len() - i,
    {
        let ghost prev = r@;
        let c = join_path(include_dirs[i].as_str(), import);
        r.push(c);
        proof {
            assert(views(r@) =~= views(prev).push(c@));
            assert(dirs.take(i + 1).map_values(|d: Seq<char>| path_join(d, import@)) =~= dirs.take(
                i as int,
            ).map_values(|d: Seq<char>| path_join(d, import@)).push(path_join(dirs[i as int], import@)));
        }
        i = i + 1;
    }
    assert(dirs.take(include_dirs.len() as int) =~= dirs);
    r
}

/// What the probe of the `i`-th candidate found; a candidate after the
/// last probe counts as missing.
pub open spec fn probe_at(probes: Seq<Probe>, i: int) -> Probe {
    if 0 <= i < probes.len() {
        probes[i]
    } else {
        Probe::Missing
    }
}

/// Where an import resolves to, given its candidate locations in order and
/// what the probes of them found, from the `i`-th on: the first location
/// where something exists decides.
pub open spec fn resolution_from(
    import: Seq<char>,
    candidates: Seq<Seq<char>>,
    probes: Seq<Probe>,
    i: int,
) -> Result<Seq<char>, LoadErrorView>
    decreases candidates.len() - i,
{
    if i < 0 || i >= candidates.len() {
        Err(LoadErrorView::Io { path: import, source: not_found_message(import) })
    } else {
        match probe_at(probes, i) {
            Probe::Missing => resolution_from(import, candidates, probes, i + 1),
            Probe::Found(c) => Ok(c@),
            Probe::Failed { reason } => Err(LoadErrorView::Io { path: candidates[i], source: reason@ }),
        }
    }
}

/// Where an import resolves to, given its candidate locations in order and
/// what the probes of them found.
pub open spec fn resolution(import: Seq<char>, candidates: Seq<Seq<char>>, probes: Seq<Probe>) -> Result<
    Seq<char>,
    LoadErrorView,
> {
    resolution_from(import, candidates, probes, 0)
}

/// Resolution fails only with an I/O error.
pub proof fn lemma_resolution_io(import: Seq<char>, candidates: Seq<Seq<char>>, probes: Seq<Probe>, i: int)
    ensures
        resolution_from(import, candidates, probes, i) matches Err(e) ==> e is Io,
    decreases candidates.len() - i,
{
    if 0 <= i < candidates.len() {
        lemma_resolution_io(import, candidates, probes, i + 1);
    }
}

/// The probe at `j` is the first, in order, that found something there.
pub open spec fn first_present(probes: Seq<Probe>, j: int) -> bool {
    &&& 0 <= j < probes.len()
    &&& !(probes[j] is Missing)
    &&& forall|k: int| 0 <= k < j ==> (#[trigger] probes[k]) is Missing
}

proof fn lemma_resolution_skips(import: Seq<char>, candidates: Seq<Seq<char>>, probes: Seq<Probe>, i: int, j: int)
    requires
        0 <= i <= j <= candidates.len(),
        forall|k: int| i <= k < j ==> (#[trigger] probe_at(probes, k)) is Missing,
    ensures
        resolution_from(import, candidates, probes, i) == resolution_from(import, candidates, probes, j),
    decreases j - i,
{
    if i < j {
        assert(probe_at(probes, i) is Missing);
        lemma_resolution_skips(import, candidates, probes, i + 1, j);
    }
}

/// An import resolves by the first candidate location, in order, where
/// something exists: to the canonical path that the probe there found, or,
/// when that could not be had, to an I/O error naming that location and the
/// reason given.
pub proof fn law_resolution_first_present(import: Seq<char>, candidates: Seq<Seq<char>>, probes: Seq<Probe>, j: int)
    requires
        first_present(probes, j),
        j < candidates.len(),
    ensures
        probes[j] matches Probe::Found(p) ==> resolution(import, candidates, probes) == Ok::<
            Seq<char>,
            LoadErrorView,
        >(p@),
        probes[j] matches Probe::Failed { reason } ==> resolution(import, candidates, probes) == Err::<
            Seq<char>,
            LoadErrorView,
        >(LoadErrorView::Io { path: candidates[j], source: reason@ }),
{
    assert forall|k: int| 0 <= k < j implies (#[trigger] probe_at(probes, k)) is Missing by {
        assert(probes[k] is Missing);
    }
    lemma_resolution_skips(import, candidates, probes, 0, j);
}

/// An import for which nothing exists at any candidate location is not
/// found: the error names the import itself.
pub proof fn law_resolution_not_found(import: Seq<char>, candidates: Seq<Seq<char>>, probes: Seq<Probe>)
    requires
        forall|k: int| 0 <= k < candidates.len() && k < probes.len() ==> (#[trigger] probes[k]) is Missing,
    ensures
        resolution(import, candidates, probes) == Err::<Seq<char>, LoadErrorView>(
            LoadErrorView::Io { path: import, source: "cannot find imported file '"@ + import + "'"@ },
        ),
{
    assert forall|k: int| 0 <= k < candidates.len() implies (#[trigger] probe_at(probes, k)) is Missing by {
        if k < probes.len() {
            assert(probes[k] is Missing);
        }
    }
    lemma_resolution_skips(import, candidates, probes, 0, candidates.len() as int);
}

/// Where the include directories start among the candidate locations: after
/// the location next to the importing file, when it has a directory.
pub open spec fn include_offset(from: Seq<char>) -> int {
    if path_parent(from) is Some {
        1
    } else {
        0
    }
}

/// The candidate locations for an import are, in order: the import in the
/// directory of the importing file (when it has one), then the import in
/// each include directory, in the order the directories were given, and
/// nothing else.
pub proof fn law_candidates(import: Seq<char>, from: Seq<char>, include_dirs: Seq<Seq<char>>)
    ensures
        candidates_of(import, from, include_dirs).len() == include_offset(from) + include_dirs.len(),
        path_parent(from) matches Some(d) ==> candidates_of(import, from, include_dirs)[0] == path_join(d, import),
        forall|k: int|
            0 <= k < include_dirs.len() ==> candidates_of(import, from, include_dirs)[include_offset(from) + k]
                == path_join(#[trigger] include_dirs[k], import),
{
}

/// Resolves an import from what the probes of its candidate locations
/// found, in order (see [`import_candidates`]).
pub fn resolve_import(import: &str, candidates: &Vec<String>, probes: &Vec<Probe>) -> (r: Result<
    String,
    LoadError,
>)
    ensures
        match r {
            Ok(c) => resolution(import@, views(candidates@), probes@) == Ok::<Seq<char>, LoadErrorView>(c@),
            Err(e) => resolution(import@, views(candidates@), probes@) == Err::<Seq<char>, LoadErrorView>(e@),
        },
{
    let ghost cs = views(candidates@);
    let mut i: usize = 0;
    while i < candidates.len()
        invariant
            i <= candidates.len(),
            cs == views(candidates@),
            resolution(import@, cs, probes@) == resolution_from(import@, cs, probes@, i as int),
        decreases candidates.len() - i,
    {
        if i < probes.len() {
            match &probes[i] {
                Probe::Missing => {},
                Probe::Found(c) => {
                    return Ok(c.clone());
                },
                Probe::Failed { reason } => {
                    return Err(LoadError::Io { path: candidates[i].clone(), source: reason.clone() });
                },
            }
        }
        i = i + 1;
    }
    proof {
        reveal_strlit("cannot find imported file '");
        reveal_strlit("'");
    }
    let mut msg = String::from_str("cannot find imported file '");
    msg.append(import);
    msg.append("'");
    Err(LoadError::Io { path: String::from_str(import), source: msg })
}


/// One file on the import stack: its path, what it holds, the index of
/// the next pragma to look at, and the rules of its imports so far.
struct Frame<V, R> {
    path: String,
    pragmas: Vec<Pragma<V>>,
    own: Vec<R>,
    next: usize,
    rules: Vec<R>,
}

pub struct FrameView<V, R> {
    pub path: Seq<char>,
    pub pragmas: Seq<Pragma<V>>,
    pub own: Seq<R>,
    pub next: nat,
    pub rules: Seq<R>,
}

impl<V, R> View for Frame<V, R> {
    type V = FrameView<V, R>;

    closed spec fn view(&self) -> FrameView<V, R> {
        FrameView {
            path: self.path@,
            pragmas: self.pragmas@,
            own: self.own@,
            next: self.next as nat,
            rules: self.rules@,
        }
    }
}

/// What the loader waits for.
enum Awaiting {
    File(String),
    Import,
    Finished,
}

pub enum AwaitView {
    /// The outcome of reading and parsing this file.
    File(Seq<char>),
    /// The probes for the import named by the last pragma looked at.
    Import,
    /// Nothing: loading is over.
    Finished,
}

impl View for Awaiting {
    type V = AwaitView;

    closed spec fn view(&self) -> AwaitView {
        match self {
            Awaiting::File(p) => AwaitView::File(p@),
            Awaiting::Import => AwaitView::Import,
            Awaiting::Finished => AwaitView::Finished,
        }
    }
}

/// The loader's state: the import stack (entry file first), the files
/// fully loaded so far in the order they were finished, the warnings not
/// yet handed out, and what it waits for.
pub struct LoaderView<V, R> {
    pub frames: Seq<FrameView<V, R>>,
    pub seen: Seq<Seq<char>>,
    pub warnings: Seq<Seq<char>>,
    pub awaiting: AwaitView,
    /// The rules each file was parsed with, by path.
    pub parsed: Map<Seq<char>, Seq<R>>,
    /// A triple (importer, index of the import pragma, imported) for each
    /// import that was answered by a file already loaded, or by a file then
    /// loaded for it.
    pub edges: Seq<(Seq<char>, int, Seq<char>)>,
    /// The canonical path of the entry file.
    pub entry: Seq<char>,
    /// The pragmas each file was parsed with, by path.
    pub pragmas_of: Map<Seq<char>, Seq<Pragma<V>>>,
    /// Each file read, with the warnings of its parse, in the order read.
    pub read_log: Seq<(Seq<char>, Seq<Seq<char>>)>,
    /// A triple (importer, index of the import pragma, file) for each
    /// import that was resolved to a file.
    pub resolved: Seq<(Seq<char>, int, Seq<char>)>,
    /// The include directories, searched in order after the directory of
    /// the importing file.
    pub include_dirs: Seq<Seq<char>>,
}

/// A depth-first loader of a file and its transitive imports.
pub struct Loader<V, R> {
    frames: Vec<Frame<V, R>>,
    seen: Vec<String>,
    warnings: Vec<String>,
    awaiting: Awaiting,
    parsed: Ghost<Map<Seq<char>, Seq<R>>>,
    edges: Ghost<Seq<(Seq<char>, int, Seq<char>)>>,
    entry: Ghost<Seq<char>>,
    pragmas_of: Ghost<Map<Seq<char>, Seq<Pragma<V>>>>,
    read_log: Ghost<Seq<(Seq<char>, Seq<Seq<char>>)>>,
    resolved: Ghost<Seq<(Seq<char>, int, Seq<char>)>>,
    include_dirs: Vec<String>,
}

impl<V, R> View for Loader<V, R> {
    type V = LoaderView<V, R>;

    closed spec fn view(&self) -> LoaderView<V, R> {
        LoaderView {
            frames: self.frames@.map_values(|f: Frame<V, R>| f@),
            seen: views(self.seen@),
            warnings: views(self.warnings@),
            awaiting: self.awaiting@,
            parsed: self.parsed@,
            edges: self.edges@,
            entry: self.entry@,
            pragmas_of: self.pragmas_of@,
            read_log: self.read_log@,
            resolved: self.resolved@,
            include_dirs: views(self.include_dirs@),
        }
    }
}

/// The index of the first import pragma at or after `i`, or the number of
/// pragmas if there is none.
pub open spec fn next_import<V>(pragmas: Seq<Pragma<V>>, i: int) -> int
    decreases pragmas.len() - i,
{
    if i < 0 || i >= pragmas.len() {
        pragmas.len() as int
    } else if pragmas[i].import is Some {
        i
    } else {
        next_import(pragmas, i + 1)
    }
}

/// The paths on the import stack, entry file first.
pub open spec fn stack_paths<V, R>(frames: Seq<FrameView<V, R>>) -> Seq<Seq<char>> {
    frames.map_values(|f: FrameView<V, R>| f.path)
}

/// The state with nothing left to wait for.
pub open spec fn finished<V, R>(st: LoaderView<V, R>) -> LoaderView<V, R> {
    LoaderView { awaiting: AwaitView::Finished, ..st }
}

/// From a state whose top file still has pragmas to look at, or has none
/// left: asks for the next import of the top file; or, when it has none
/// left, finishes the file (its imports' rules, then its own rules), marks
/// it loaded, and adds its rules to the file below, going on with that one;
/// the entry file's module, with all pending warnings, is the outcome.
pub open spec fn advance<V, R>(st: LoaderView<V, R>) -> (LoaderView<V, R>, StepView<V, R>)
    decreases st.frames.len(),
{
    if st.frames.len() == 0 {
        // never asked for: loading goes on only with a file on the stack
        (finished(st), StepView::Failed(LoadErrorView::Cycle(Seq::empty())))
    } else {
        let top = st.frames.last();
        let k = next_import(top.pragmas, top.next as int);
        if k < top.pragmas.len() {
            let top2 = FrameView {
                path: top.path,
                pragmas: top.pragmas,
                own: top.own,
                next: (k + 1) as nat,
                rules: top.rules,
            };
            (
                LoaderView {
                    frames: st.frames.update(st.frames.len() - 1, top2),
                    awaiting: AwaitView::Import,
                    ..st
                },
                StepView::Resolve {
                    import: top.pragmas[k].import.unwrap()@,
                    from: top.path,
                    candidates: candidates_of(top.pragmas[k].import.unwrap()@, top.path, st.include_dirs),
                },
            )
        } else {
            let all = top.rules + top.own;
            let rest = st.frames.drop_last();
            let seen = st.seen.push(top.path);
            if rest.len() == 0 {
                (
                    LoaderView {
                        frames: rest,
                        seen,
                        warnings: Seq::empty(),
                        awaiting: AwaitView::Finished,
                        ..st
                    },
                    StepView::Loaded {
                        path: top.path,
                        pragmas: top.pragmas,
                        rules: all,
                        warnings: st.warnings,
                    },
                )
            } else {
                let parent = rest.last();
                let parent2 = FrameView {
                    path: parent.path,
                    pragmas: parent.pragmas,
                    own: parent.own,
                    next: parent.next,
                    rules: parent.rules + all,
                };
                advance(
                    LoaderView {
                        frames: rest.update(rest.len() - 1, parent2),
                        seen,
                        edges: st.edges.push((parent.path, parent.next - 1, top.path)),
                        ..st
                    },
                )
            }
        }
    }
}

/// The state after a file was read and parsed: it goes on top of the
/// stack, and its warnings join the pending ones.
pub open spec fn pushed<V, R>(st: LoaderView<V, R>, path: Seq<char>, p: ParsedFile<V, R>) -> LoaderView<V, R> {
    LoaderView {
        frames: st.frames.push(
            FrameView { path, pragmas: p.file_pragmas@, own: p.rules@, next: 0, rules: Seq::empty() },
        ),
        warnings: st.warnings + views(p.warnings@),
        parsed: st.parsed.insert(path, p.rules@),
        pragmas_of: st.pragmas_of.insert(path, p.file_pragmas@),
        read_log: st.read_log.push((path, views(p.warnings@))),
        ..st
    }
}

/// The import named by the last pragma that the top file had looked at.
pub open spec fn pending_import<V, R>(st: LoaderView<V, R>) -> Seq<char> {
    let top = st.frames.last();
    top.pragmas[top.next - 1].import.unwrap()@
}

/// The locations to probe for the pending import of the top file.
pub open spec fn pending_candidates<V, R>(st: LoaderView<V, R>) -> Seq<Seq<char>> {
    candidates_of(pending_import(st), st.frames.last().path, st.include_dirs)
}

/// The frame has looked at an import pragma last.
pub open spec fn resolving<V, R>(f: FrameView<V, R>) -> bool {
    f.next >= 1 && f.next <= f.pragmas.len() && f.pragmas[f.next - 1].import is Some
}

/// Every pragma index is in range, and every file below the top of the
/// stack waits on the import it looked at last.
pub open spec fn stack_ok<V, R>(st: LoaderView<V, R>) -> bool {
    &&& forall|i: int| 0 <= i < st.frames.len() ==> #[trigger] st.frames[i].next <= st.frames[i].pragmas.len()
    &&& forall|i: int| 0 <= i < st.frames.len() - 1 ==> resolving(#[trigger] st.frames[i])
}

/// The rules gathered on the stack, bottom file first.
pub open spec fn stack_rules<V, R>(frames: Seq<FrameView<V, R>>) -> Seq<R>
    decreases frames.len(),
{
    if frames.len() == 0 {
        Seq::empty()
    } else {
        stack_rules(frames.drop_last()) + frames.last().rules
    }
}

/// The rules of the files `paths`, each as it was parsed, in that order.
pub open spec fn rules_of<R>(paths: Seq<Seq<char>>, parsed: Map<Seq<char>, Seq<R>>) -> Seq<R>
    decreases paths.len(),
{
    if paths.len() == 0 {
        Seq::empty()
    } else {
        rules_of(paths.drop_last(), parsed) + parsed[paths.last()]
    }
}

/// The file of `f` was parsed with the rules it holds.
pub open spec fn parsed_as<V, R>(parsed: Map<Seq<char>, Seq<R>>, f: FrameView<V, R>) -> bool {
    parsed.contains_key(f.path) && parsed[f.path] == f.own
}

/// The file of `f` was parsed with the pragmas it holds.
pub open spec fn listed<V, R>(pragmas_of: Map<Seq<char>, Seq<Pragma<V>>>, f: FrameView<V, R>) -> bool {
    pragmas_of.contains_key(f.path) && pragmas_of[f.path] == f.pragmas
}

/// Each import pragma of the file `f` before index `upto` was answered.
pub open spec fn answered<V>(
    edges: Seq<(Seq<char>, int, Seq<char>)>,
    f: Seq<char>,
    pragmas: Seq<Pragma<V>>,
    upto: int,
) -> bool {
    forall|i: int|
        0 <= i < upto && i < pragmas.len() && (#[trigger] pragmas[i]).import is Some ==> exists|g: Seq<char>|
            edges.contains((f, i, g))
}

/// Each import pragma that the top file has looked at was answered.
pub open spec fn top_answered<V, R>(st: LoaderView<V, R>) -> bool {
    let top = st.frames.last();
    answered(st.edges, top.path, top.pragmas, top.next as int)
}

/// The warnings of the files in `log`, file by file.
pub open spec fn log_warnings(log: Seq<(Seq<char>, Seq<Seq<char>>)>) -> Seq<Seq<char>>
    decreases log.len(),
{
    if log.len() == 0 {
        Seq::empty()
    } else {
        log_warnings(log.drop_last()) + log.last().1
    }
}

/// The paths of the files in `log`, in the order read.
pub open spec fn read_paths(log: Seq<(Seq<char>, Seq<Seq<char>>)>) -> Seq<Seq<char>> {
    log.map_values(|e: (Seq<char>, Seq<Seq<char>>)| e.0)
}

/// The state after the pending import of the top file resolved to `c`.
pub open spec fn with_resolved<V, R>(st: LoaderView<V, R>, c: Seq<char>) -> LoaderView<V, R> {
    LoaderView { resolved: st.resolved.push((st.frames.last().path, st.frames.last().next - 1, c)), ..st }
}

/// The file at `i + 1` on the stack is what the import that the file at
/// `i` waits on resolved to.
pub open spec fn reached_from_below<V, R>(st: LoaderView<V, R>, i: int) -> bool {
    st.resolved.contains((st.frames[i].path, st.frames[i].next - 1, st.frames[i + 1].path))
}

/// Some import pragma of the file `files[i]` resolved to `files[i + 1]`.
pub open spec fn imports_next(resolved: Seq<(Seq<char>, int, Seq<char>)>, files: Seq<Seq<char>>, i: int) -> bool {
    exists|k: int| #[trigger] resolved.contains((files[i], k, files[i + 1]))
}

/// A fresh loader for the entry file: nothing read, nothing loaded,
/// waiting for the entry file.
pub open spec fn start_view<V, R>(entry: Seq<char>, include_dirs: Seq<Seq<char>>) -> LoaderView<V, R> {
    LoaderView {
        frames: Seq::empty(),
        seen: Seq::empty(),
        warnings: Seq::empty(),
        awaiting: AwaitView::File(entry),
        parsed: Map::empty(),
        edges: Seq::empty(),
        entry,
        pragmas_of: Map::empty(),
        read_log: Seq::empty(),
        resolved: Seq::empty(),
        include_dirs,
    }
}

/// The state and step after the awaited file was read: a failure is the
/// outcome; else the file goes on the stack and loading goes on.
pub open spec fn respond_file<V, R>(st: LoaderView<V, R>, outcome: Result<ParsedFile<V, R>, LoadError>) -> (
    LoaderView<V, R>,
    StepView<V, R>,
) {
    match outcome {
        Err(e) => (finished(st), StepView::Failed(e@)),
        Ok(p) => advance(pushed(st, st.awaiting->File_0, p)),
    }
}

/// The state and step after the pending import was probed: a failure to
/// resolve it is the outcome; a file on the stack closes a cycle, which is
/// the outcome; a file already loaded adds nothing and loading goes on;
/// any other file is read next.
pub open spec fn respond_probes<V, R>(st: LoaderView<V, R>, probes: Seq<Probe>) -> (LoaderView<V, R>, StepView<V, R>) {
    match resolution(pending_import(st), pending_candidates(st), probes) {
        Err(e) => (finished(st), StepView::Failed(e)),
        Ok(c) => if stack_paths(st.frames).contains(c) {
            (finished(with_resolved(st, c)), StepView::Failed(LoadErrorView::Cycle(stack_paths(st.frames).push(c))))
        } else if st.seen.contains(c) {
            advance(
                LoaderView {
                    edges: st.edges.push((st.frames.last().path, st.frames.last().next - 1, c)),
                    ..with_resolved(st, c)
                },
            )
        } else {
            (LoaderView { awaiting: AwaitView::File(c), ..with_resolved(st, c) }, StepView::Read(c))
        },
    }
}

/// What the loader waits for is what its last step asked for; a request to
/// probe names the pending import and the locations to probe for it.
pub open spec fn awaits<V, R>(st: LoaderView<V, R>, step: StepView<V, R>) -> bool {
    match step {
        StepView::Read(c) => st.awaiting == AwaitView::File(c),
        StepView::Resolve { import, from, candidates } => {
            &&& st.awaiting is Import
            &&& st.frames.len() > 0
            &&& import == pending_import(st)
            &&& from == st.frames.last().path
            &&& candidates == pending_candidates(st)
        },
        _ => st.awaiting is Finished,
    }
}

/// `a` was finished before `b`.
pub open spec fn finished_before(seen: Seq<Seq<char>>, a: Seq<char>, b: Seq<char>) -> bool {
    exists|i: int, j: int| 0 <= i < j < seen.len() && seen[i] == a && seen[j] == b
}

/// What holds of every state, whatever the loader waits for:
/// - the stack is in order ([`stack_ok`]), its bottom file is the entry file;
/// - no file is on the stack twice, loaded twice, or both on the stack and loaded;
/// - the files parsed are those on the stack and those loaded, and each
///   file on the stack holds the rules it was parsed with;
/// - while a file is on the stack, the rules gathered on the stack are the
///   rules of the loaded files, each once, in the order they were finished;
/// - every import that was answered was answered by a loaded file, which
///   was finished before the importing file;
/// - every import pragma of a loaded file was answered, and so was every
///   import pragma of a file on the stack before the one it waits on;
/// - while loading goes on, the pending warnings are those of every file
///   read, in the order read; the files parsed are the files read;
/// - each file on the stack was reached from the file below it, by the
///   import that file waits on; every import resolved is an import pragma.
#[verifier::opaque]
pub open spec fn sound<V, R>(st: LoaderView<V, R>) -> bool {
    let paths = stack_paths(st.frames);
    &&& stack_ok(st)
    &&& st.frames.len() > 0 ==> st.frames[0].path == st.entry
    &&& paths.no_duplicates()
    &&& st.seen.no_duplicates()
    &&& forall|i: int, j: int| 0 <= i < paths.len() && 0 <= j < st.seen.len() ==> #[trigger] paths[i] != #[trigger] st.seen[j]
    &&& forall|i: int| 0 <= i < st.frames.len() ==> parsed_as(st.parsed, #[trigger] st.frames[i])
    &&& forall|j: int| 0 <= j < st.seen.len() ==> #[trigger] st.parsed.contains_key(st.seen[j])
    &&& forall|p: Seq<char>| #[trigger] st.parsed.contains_key(p) ==> paths.contains(p) || st.seen.contains(p)
    &&& st.frames.len() > 0 ==> stack_rules(st.frames) == rules_of(st.seen, st.parsed)
    &&& forall|i: int| 0 <= i < st.frames.len() ==> listed(st.pragmas_of, #[trigger] st.frames[i])
    &&& forall|i: int| 0 <= i < st.frames.len() - 1 ==> answered(st.edges, (#[trigger] st.frames[i]).path, st.frames[i].pragmas, st.frames[i].next - 1)
    &&& forall|j: int| 0 <= j < st.seen.len() ==> #[trigger] st.pragmas_of.contains_key(st.seen[j]) && answered(
        st.edges,
        st.seen[j],
        st.pragmas_of[st.seen[j]],
        st.pragmas_of[st.seen[j]].len() as int,
    )
    &&& forall|e: (Seq<char>, int, Seq<char>)| #[trigger] st.edges.contains(e) ==> st.seen.contains(e.2) && (
    st.seen.contains(e.0) ==> finished_before(st.seen, e.2, e.0))
    &&& !(st.awaiting is Finished) ==> st.warnings == log_warnings(st.read_log)
    &&& forall|p: Seq<char>| #[trigger] st.parsed.contains_key(p) ==> read_paths(st.read_log).contains(p)
    &&& forall|k: int| 0 <= k < st.read_log.len() ==> st.parsed.contains_key(#[trigger] st.read_log[k].0)
    &&& read_paths(st.read_log).no_duplicates()
    &&& forall|p: Seq<char>| #[trigger] st.pragmas_of.contains_key(p) ==> st.parsed.contains_key(p)
    &&& forall|i: int| 0 <= i < st.frames.len() - 1 ==> #[trigger] reached_from_below(st, i)
    &&& forall|e: (Seq<char>, int, Seq<char>)| #[trigger] st.resolved.contains(e) ==> {
        &&& st.pragmas_of.contains_key(e.0)
        &&& 0 <= e.1 < st.pragmas_of[e.0].len()
        &&& st.pragmas_of[e.0][e.1].import is Some
    }
}

/// What an outcome tells of the whole load: a loaded module is the entry
/// file's, holds the rules of every file loaded, each exactly once, in the
/// order the files were finished (every file after the files it imports, by
/// [`sound`]), and all the warnings of every file read, in the order read;
/// the stack is empty again and the files loaded are the files read. A
/// cycle runs from the entry file through distinct files, each imported by
/// the one before, to a file already among them.
pub open spec fn outcome_law<V, R>(st: LoaderView<V, R>, step: StepView<V, R>) -> bool {
    &&& step matches StepView::Loaded { path, rules, warnings, .. } ==> {
        &&& path == st.entry
        &&& rules == rules_of(st.seen, st.parsed)
        &&& warnings == log_warnings(st.read_log)
        &&& st.frames.len() == 0
        &&& forall|p: Seq<char>| st.seen.contains(p) <==> #[trigger] read_paths(st.read_log).contains(p)
    }
    &&& step matches StepView::Failed(LoadErrorView::Cycle(cyc)) ==> {
        &&& cyc.len() >= 2
        &&& cyc[0] == st.entry
        &&& cyc.drop_last().no_duplicates()
        &&& cyc.drop_last().contains(cyc.last())
        &&& forall|i: int| 0 <= i < cyc.len() - 1 ==> #[trigger] imports_next(st.resolved, cyc, i)
    }
}

/// A consistent state: [`sound`] holds; while loading goes on the top file
/// waits on the import it looked at last; and a file awaited is neither on
/// the stack, nor loaded, nor parsed before (so no file is read twice), and
/// is the entry file when the stack is empty.
pub open spec fn consistent<V, R>(st: LoaderView<V, R>) -> bool {
    &&& sound(st)
    &&& (!(st.awaiting is Finished) && st.frames.len() > 0) ==> {
        &&& resolving(st.frames.last())
        &&& answered(st.edges, st.frames.last().path, st.frames.last().pragmas, st.frames.last().next - 1)
    }
    &&& st.awaiting is Import ==> st.frames.len() > 0
    &&& st.awaiting matches AwaitView::File(c) ==> {
        &&& st.frames.len() > 0 ==> st.resolved.contains((st.frames.last().path, st.frames.last().next - 1, c))
        &&& !stack_paths(st.frames).contains(c)
        &&& !st.seen.contains(c)
        &&& !st.parsed.contains_key(c)
        &&& st.frames.len() == 0 ==> c == st.entry && st.seen.len() == 0
    }
}

proof fn lemma_rules_of_insert<R>(paths: Seq<Seq<char>>, parsed: Map<Seq<char>, Seq<R>>, p: Seq<char>, x: Seq<R>)
    requires
        !paths.contains(p),
    ensures
        rules_of(paths, parsed.insert(p, x)) == rules_of(paths, parsed),
    decreases paths.len(),
{
    if paths.len() > 0 {
        assert(paths.drop_last().contains(p) ==> paths.contains(p)) by {
            if paths.drop_last().contains(p) {
                let i = choose|i: int| 0 <= i < paths.drop_last().len() && paths.drop_last()[i] == p;
                assert(paths[i] == p);
            }
        }
        lemma_rules_of_insert(paths.drop_last(), parsed, p, x);
        assert(paths[paths.len() - 1] != p);
    }
}

/// Going on from any sound state with a file on the stack keeps every
/// invariant, ends waiting on an import or finished, keeps the parses and
/// the loaded files so far, and when it ends with the entry file's module,
/// that module holds the entry file's pragmas and the rules of every
/// loaded file, each once, in the order the files were finished.
pub proof fn lemma_advance<V, R>(st: LoaderView<V, R>)
    requires
        sound(st),
        st.frames.len() > 0,
        top_answered(st),
        !(st.awaiting is Finished),
    ensures
        consistent(advance(st).0),
        awaits(advance(st).0, advance(st).1),
        advance(st).0.read_log == st.read_log,
        advance(st).0.resolved == st.resolved,
        advance(st).1 matches StepView::Loaded { warnings, .. } ==> warnings == log_warnings(st.read_log),
        advance(st).1 is Loaded ==> forall|p: Seq<char>| advance(st).0.seen.contains(p) <==> #[trigger] read_paths(
            advance(st).0.read_log,
        ).contains(p),
        advance(st).0.awaiting is Import || advance(st).0.awaiting is Finished,
        advance(st).0.parsed == st.parsed,
        advance(st).0.entry == st.entry,
        st.seen.is_prefix_of(advance(st).0.seen),
        advance(st).1 matches StepView::Loaded { path, pragmas, rules, warnings } ==> {
            &&& path == st.entry
            &&& pragmas == st.frames[0].pragmas
            &&& rules == rules_of(advance(st).0.seen, advance(st).0.parsed)
            &&& advance(st).0.frames.len() == 0
        },
        advance(st).1 is Resolve || advance(st).1 is Loaded,
    decreases st.frames.len(),
{
    reveal(sound);    let top = st.frames.last();
    let k = next_import(top.pragmas, top.next as int);
    lemma_next_import(top.pragmas, top.next as int);
    let paths = stack_paths(st.frames);
    if k < top.pragmas.len() {
        lemma_answered_skip(st.edges, top.path, top.pragmas, top.next as int, k);
        let nx = advance(st).0;
        assert forall|i: int| 0 <= i < nx.frames.len() implies listed(nx.pragmas_of, #[trigger] nx.frames[i]) by {
            assert(nx.frames[i].path == st.frames[i].path);
            assert(nx.frames[i].pragmas == st.frames[i].pragmas);
        }
        assert forall|i: int| 0 <= i < nx.frames.len() - 1 implies answered(nx.edges, (#[trigger] nx.frames[i]).path, nx.frames[i].pragmas, nx.frames[i].next - 1) by {
            assert(nx.frames[i] == st.frames[i]);
        }
        assert(stack_paths(nx.frames) =~= paths);
        assert forall|i: int| 0 <= i < nx.frames.len() implies #[trigger] nx.frames[i].next
            <= nx.frames[i].pragmas.len() by {
            if i < nx.frames.len() - 1 {
                assert(nx.frames[i] == st.frames[i]);
            }
        }
        assert forall|i: int| 0 <= i < nx.frames.len() - 1 implies resolving(#[trigger] nx.frames[i]) by {
            assert(nx.frames[i] == st.frames[i]);
        }
        assert forall|i: int| 0 <= i < nx.frames.len() implies parsed_as(nx.parsed, #[trigger] nx.frames[i]) by {
            assert(nx.frames[i].path == st.frames[i].path);
            assert(nx.frames[i].own == st.frames[i].own);
        }
        assert(nx.frames.drop_last() =~= st.frames.drop_last());
        assert(stack_rules(nx.frames) == stack_rules(st.frames));
        assert(st.seen.is_prefix_of(nx.seen));
        assert(nx.frames[0].path == st.frames[0].path);
        assert(nx.seen == st.seen);
        assert(nx.parsed == st.parsed);
        assert(nx.edges == st.edges);
        assert(resolving(nx.frames.last()));
        assert forall|i: int| 0 <= i < nx.frames.len() - 1 implies #[trigger] reached_from_below(nx, i) by {
            assert(reached_from_below(st, i));
            assert(nx.frames[i] == st.frames[i]);
            assert(nx.frames[i + 1].path == st.frames[i + 1].path);
        }
        assert forall|i: int, j: int| 0 <= i < paths.len() && 0 <= j < nx.seen.len() implies #[trigger] stack_paths(nx.frames)[i]
            != #[trigger] nx.seen[j] by {
            assert(stack_paths(nx.frames)[i] == paths[i]);
        }
        assert(sound(nx));
        assert(consistent(nx));
    } else {
        lemma_answered_skip(st.edges, top.path, top.pragmas, top.next as int, top.pragmas.len() as int);
        assert(listed(st.pragmas_of, st.frames[st.frames.len() - 1]));
        let all = top.rules + top.own;
        let rest = st.frames.drop_last();
        let seen = st.seen.push(top.path);
        assert(paths.last() == top.path);
        assert(stack_paths(rest) =~= paths.drop_last());
        assert(!st.seen.contains(top.path)) by {
            if st.seen.contains(top.path) {
                let j = choose|j: int| 0 <= j < st.seen.len() && st.seen[j] == top.path;
                assert(paths[paths.len() - 1] != st.seen[j]);
            }
        }
        assert(!stack_paths(rest).contains(top.path)) by {
            if stack_paths(rest).contains(top.path) {
                let i = choose|i: int| 0 <= i < stack_paths(rest).len() && stack_paths(rest)[i] == top.path;
                assert(paths[i] == paths[paths.len() - 1]);
            }
        }
        assert(seen.no_duplicates()) by {
            assert forall|i: int, j: int| 0 <= i < seen.len() && 0 <= j < seen.len() && i != j implies seen[i] != seen[j] by {
                if i < st.seen.len() && j < st.seen.len() {
                } else if i < st.seen.len() {
                    assert(st.seen.contains(seen[i]));
                } else {
                    assert(st.seen.contains(seen[j]));
                }
            }
        }
        assert(parsed_as(st.parsed, st.frames[st.frames.len() - 1]));
        assert(rules_of(seen, st.parsed) == rules_of(st.seen, st.parsed) + top.own) by {
            assert(seen.drop_last() =~= st.seen);
        }
        assert(st.frames.drop_last() =~= rest);
        assert(stack_rules(st.frames) == stack_rules(rest) + top.rules);
        assert(st.seen.is_prefix_of(seen));
        if rest.len() == 0 {
            let nx = advance(st).0;
            assert(rules_of(seen, st.parsed) =~= all);
            assert(nx.frames.len() == 0);
            assert(stack_paths(nx.frames) =~= Seq::<Seq<char>>::empty());
            assert forall|p: Seq<char>| #[trigger] nx.parsed.contains_key(p) implies stack_paths(nx.frames).contains(p)
                || nx.seen.contains(p) by {
                if paths.contains(p) {
                    let i = choose|i: int| 0 <= i < paths.len() && paths[i] == p;
                    assert(i == 0);
                    assert(nx.seen[nx.seen.len() - 1] == p);
                } else {
                    let j = choose|j: int| 0 <= j < st.seen.len() && st.seen[j] == p;
                    assert(nx.seen[j] == p);
                }
            }
            assert forall|j: int| 0 <= j < nx.seen.len() implies #[trigger] nx.parsed.contains_key(nx.seen[j]) by {
                if j < st.seen.len() {
                    assert(nx.seen[j] == st.seen[j]);
                } else {
                    assert(parsed_as(st.parsed, st.frames[0]));
                }
            }
            lemma_edges_after_finish(st.seen, top.path, st.edges);
            assert forall|j: int| 0 <= j < nx.seen.len() implies #[trigger] nx.pragmas_of.contains_key(nx.seen[j])
                && answered(nx.edges, nx.seen[j], nx.pragmas_of[nx.seen[j]], nx.pragmas_of[nx.seen[j]].len() as int) by {
                if j < st.seen.len() {
                    assert(nx.seen[j] == st.seen[j]);
                }
            }
            assert(sound(nx));
            assert(consistent(nx));
            assert forall|p: Seq<char>| nx.seen.contains(p) <==> #[trigger] read_paths(nx.read_log).contains(p) by {
                if nx.seen.contains(p) {
                    let j = choose|j: int| 0 <= j < nx.seen.len() && nx.seen[j] == p;
                    assert(nx.parsed.contains_key(nx.seen[j]));
                }
                if read_paths(nx.read_log).contains(p) {
                    let k = choose|k: int| 0 <= k < read_paths(nx.read_log).len() && read_paths(nx.read_log)[k] == p;
                    assert(nx.parsed.contains_key(nx.read_log[k].0));
                    assert(stack_paths(nx.frames).len() == 0);
                }
            }
        } else {
            let parent = rest.last();
            let parent2 = FrameView {
                path: parent.path,
                pragmas: parent.pragmas,
                own: parent.own,
                next: parent.next,
                rules: parent.rules + all,
            };
            let mid = LoaderView {
                frames: rest.update(rest.len() - 1, parent2),
                seen,
                edges: st.edges.push((parent.path, parent.next - 1, top.path)),
                ..st
            };
            let mpaths = stack_paths(mid.frames);
            assert(mpaths =~= stack_paths(rest));
            assert(mid.frames.drop_last() =~= rest.drop_last());
            assert(rest.drop_last() =~= st.frames.drop_last().drop_last());
            assert(stack_rules(rest) == stack_rules(rest.drop_last()) + parent.rules);
            assert(stack_rules(mid.frames) == stack_rules(rest.drop_last()) + parent2.rules);
            assert(stack_rules(mid.frames) =~= stack_rules(st.frames) + top.own);
            assert forall|i: int| 0 <= i < mid.frames.len() implies #[trigger] mid.frames[i].next
                <= mid.frames[i].pragmas.len() by {
                assert(mid.frames[i].next == st.frames[i].next);
                assert(mid.frames[i].pragmas == st.frames[i].pragmas);
            }
            assert forall|i: int| 0 <= i < mid.frames.len() - 1 implies resolving(#[trigger] mid.frames[i]) by {
                assert(mid.frames[i] == st.frames[i]);
            }
            assert forall|i: int| 0 <= i < mid.frames.len() implies parsed_as(mid.parsed, #[trigger] mid.frames[i]) by {
                assert(mid.frames[i].path == st.frames[i].path);
                assert(mid.frames[i].own == st.frames[i].own);
            }
            assert(mid.frames[0].path == st.frames[0].path);
            assert(mid.frames[0].pragmas == st.frames[0].pragmas);
            assert forall|i: int, j: int| 0 <= i < mpaths.len() && 0 <= j < mid.seen.len() implies #[trigger] mpaths[i]
                != #[trigger] mid.seen[j] by {
                assert(mpaths[i] == paths[i]);
                if j < st.seen.len() {
                    assert(mid.seen[j] == st.seen[j]);
                } else {
                    assert(paths[i] != paths[paths.len() - 1]);
                }
            }
            assert forall|j: int| 0 <= j < mid.seen.len() implies #[trigger] mid.parsed.contains_key(mid.seen[j]) by {
                if j < st.seen.len() {
                    assert(mid.seen[j] == st.seen[j]);
                } else {
                    assert(parsed_as(st.parsed, st.frames[st.frames.len() - 1]));
                }
            }
            assert forall|p: Seq<char>| #[trigger] mid.parsed.contains_key(p) implies mpaths.contains(p)
                || mid.seen.contains(p) by {
                if paths.contains(p) {
                    let i = choose|i: int| 0 <= i < paths.len() && paths[i] == p;
                    if i < paths.len() - 1 {
                        assert(mpaths[i] == p);
                    } else {
                        assert(mid.seen[mid.seen.len() - 1] == p);
                    }
                } else {
                    let j = choose|j: int| 0 <= j < st.seen.len() && st.seen[j] == p;
                    assert(mid.seen[j] == p);
                }
            }
            assert(!st.seen.contains(parent.path)) by {
                if st.seen.contains(parent.path) {
                    let j = choose|j: int| 0 <= j < st.seen.len() && st.seen[j] == parent.path;
                    assert(paths[paths.len() - 2] != st.seen[j]);
                }
            }
            assert(parent.path != top.path) by {
                assert(paths[paths.len() - 2] != paths[paths.len() - 1]);
            }
            lemma_edges_after_finish(st.seen, top.path, st.edges);
            assert forall|e: (Seq<char>, int, Seq<char>)| #[trigger] mid.edges.contains(e) implies mid.seen.contains(e.2)
                && (mid.seen.contains(e.0) ==> finished_before(mid.seen, e.2, e.0)) by {
                if st.edges.contains(e) {
                } else {
                    let i = choose|i: int| 0 <= i < mid.edges.len() && mid.edges[i] == e;
                    assert(i == st.edges.len());
                    assert(mid.seen[mid.seen.len() - 1] == top.path);
                    if mid.seen.contains(e.0) {
                        let j = choose|j: int| 0 <= j < mid.seen.len() && mid.seen[j] == e.0;
                        assert(j < st.seen.len());
                        assert(st.seen.contains(parent.path));
                    }
                }
            }
            assert(resolving(parent)) by {
                assert(rest.last() == st.frames[st.frames.len() - 2]);
            }
            assert(answered(st.edges, parent.path, parent.pragmas, parent.next - 1)) by {
                assert(rest.last() == st.frames[st.frames.len() - 2]);
            }
            lemma_answered_add(st.edges, parent.path, parent.pragmas, parent.next - 1, top.path);
            assert(top_answered(mid));
            let x = (parent.path, parent.next - 1, top.path);
            assert forall|i: int| 0 <= i < mid.frames.len() implies listed(mid.pragmas_of, #[trigger] mid.frames[i]) by {
                assert(mid.frames[i].path == st.frames[i].path);
                assert(mid.frames[i].pragmas == st.frames[i].pragmas);
            }
            assert forall|i: int| 0 <= i < mid.frames.len() - 1 implies answered(mid.edges, (#[trigger] mid.frames[i]).path, mid.frames[i].pragmas, mid.frames[i].next - 1) by {
                assert(mid.frames[i] == st.frames[i]);
                lemma_answered_grow(st.edges, x, st.frames[i].path, st.frames[i].pragmas, st.frames[i].next - 1);
            }
            assert forall|j: int| 0 <= j < mid.seen.len() implies #[trigger] mid.pragmas_of.contains_key(mid.seen[j])
                && answered(mid.edges, mid.seen[j], mid.pragmas_of[mid.seen[j]], mid.pragmas_of[mid.seen[j]].len() as int) by {
                if j < st.seen.len() {
                    assert(mid.seen[j] == st.seen[j]);
                    assert(st.pragmas_of.contains_key(st.seen[j]));
                    lemma_answered_grow(st.edges, x, st.seen[j], st.pragmas_of[st.seen[j]], st.pragmas_of[st.seen[j]].len() as int);
                } else {
                    lemma_answered_grow(st.edges, x, top.path, top.pragmas, top.pragmas.len() as int);
                }
            }
            assert forall|i: int| 0 <= i < mid.frames.len() - 1 implies #[trigger] reached_from_below(mid, i) by {
                assert(reached_from_below(st, i));
                assert(mid.frames[i] == st.frames[i]);
                assert(mid.frames[i + 1].path == st.frames[i + 1].path);
            }
            assert(sound(mid));
            lemma_advance(mid);
            assert(st.seen.is_prefix_of(advance(mid).0.seen)) by {
                assert(st.seen.is_prefix_of(mid.seen));
            }
        }
    }
}

/// Resolving the pending import of the top file keeps the state
/// consistent; so does then ending with the outcome, and, when the file is
/// neither on the stack nor loaded, waiting for it.
pub proof fn lemma_resolved<V, R>(st: LoaderView<V, R>, c: Seq<char>)
    requires
        consistent(st),
        st.awaiting is Import,
    ensures
        consistent(with_resolved(st, c)),
        consistent(finished(with_resolved(st, c))),
        !stack_paths(st.frames).contains(c) && !st.seen.contains(c) ==> consistent(
            LoaderView { awaiting: AwaitView::File(c), ..with_resolved(st, c) },
        ),
{
    reveal(sound);    let top = st.frames.last();
    let x = (top.path, top.next - 1, c);
    let nx = with_resolved(st, c);
    assert(listed(st.pragmas_of, st.frames[st.frames.len() - 1]));
    assert forall|e: (Seq<char>, int, Seq<char>)| #[trigger] nx.resolved.contains(e) implies {
        &&& nx.pragmas_of.contains_key(e.0)
        &&& 0 <= e.1 < nx.pragmas_of[e.0].len()
        &&& nx.pragmas_of[e.0][e.1].import is Some
    } by {
        if !st.resolved.contains(e) {
            let i = choose|i: int| 0 <= i < nx.resolved.len() && nx.resolved[i] == e;
            assert(i == st.resolved.len());
        }
    }
    assert forall|i: int| 0 <= i < nx.frames.len() - 1 implies #[trigger] reached_from_below(nx, i) by {
        let t = (st.frames[i].path, st.frames[i].next - 1, st.frames[i + 1].path);
        assert(reached_from_below(st, i));
        assert(st.resolved.contains(t));
        let k = choose|k: int| 0 <= k < st.resolved.len() && st.resolved[k] == t;
        assert(nx.resolved[k] == t);
    }
    assert(sound(nx));
    assert(nx.resolved[st.resolved.len() as int] == x);
    assert(nx.resolved.contains(x));
    assert forall|i: int| 0 <= i < nx.frames.len() - 1 implies #[trigger] reached_from_below(finished(nx), i) by {
        assert(reached_from_below(nx, i));
    }
    assert(sound(finished(nx)));
    if !stack_paths(st.frames).contains(c) && !st.seen.contains(c) {
        let fx = LoaderView { awaiting: AwaitView::File(c), ..nx };
        assert(!st.parsed.contains_key(c));
        assert forall|i: int| 0 <= i < nx.frames.len() - 1 implies #[trigger] reached_from_below(fx, i) by {
            assert(reached_from_below(nx, i));
        }
        assert(sound(fx));
    }
}

/// Ending with an outcome keeps the state consistent.
pub proof fn lemma_finish<V, R>(st: LoaderView<V, R>)
    requires
        consistent(st),
    ensures
        consistent(finished(st)),
{
    reveal(sound);
    assert forall|i: int| 0 <= i < st.frames.len() - 1 implies #[trigger] reached_from_below(finished(st), i) by {
        assert(reached_from_below(st, i));
    }
}

/// A cycle found when the pending import resolves to a file on the stack
/// is the outcome that [`outcome_law`] describes.
pub proof fn lemma_cycle<V, R>(st: LoaderView<V, R>, c: Seq<char>)
    requires
        consistent(st),
        st.awaiting is Import,
        stack_paths(st.frames).contains(c),
    ensures
        outcome_law(
            finished(with_resolved(st, c)),
            StepView::<V, R>::Failed(LoadErrorView::Cycle(stack_paths(st.frames).push(c))),
        ),
{
    reveal(sound);
    let paths = stack_paths(st.frames);
    let cyc = paths.push(c);
    let nx = finished(with_resolved(st, c));
    assert(cyc.drop_last() =~= paths);
    assert(cyc[0] == st.frames[0].path);
    assert forall|i: int| 0 <= i < cyc.len() - 1 implies #[trigger] imports_next(nx.resolved, cyc, i) by {
        if i < cyc.len() - 2 {
            let t = (st.frames[i].path, st.frames[i].next - 1, st.frames[i + 1].path);
            assert(reached_from_below(st, i));
            assert(st.resolved.contains(t));
            let j = choose|j: int| 0 <= j < st.resolved.len() && st.resolved[j] == t;
            assert(nx.resolved[j] == t);
            assert(nx.resolved.contains((cyc[i], st.frames[i].next - 1, cyc[i + 1])));
        } else {
            let top = st.frames.last();
            assert(nx.resolved[st.resolved.len() as int] == (top.path, top.next - 1, c));
            assert(nx.resolved.contains((cyc[i], top.next - 1, cyc[i + 1])));
        }
    }
}

/// Putting the awaited file on the stack keeps the state sound.
pub proof fn lemma_pushed<V, R>(st: LoaderView<V, R>, c: Seq<char>, p: ParsedFile<V, R>)
    requires
        consistent(st),
        st.awaiting == AwaitView::File(c),
    ensures
        sound(pushed(st, c, p)),
        pushed(st, c, p).frames.len() > 0,
        top_answered(pushed(st, c, p)),
{
    reveal(sound);    let nx = pushed(st, c, p);
    let paths = stack_paths(st.frames);
    let npaths = stack_paths(nx.frames);
    assert(npaths =~= paths.push(c));
    assert(nx.frames.drop_last() =~= st.frames);
    assert forall|i: int| 0 <= i < nx.frames.len() implies #[trigger] nx.frames[i].next <= nx.frames[i].pragmas.len() by {
        if i < st.frames.len() {
            assert(nx.frames[i] == st.frames[i]);
        }
    }
    assert forall|i: int| 0 <= i < nx.frames.len() - 1 implies resolving(#[trigger] nx.frames[i]) by {
        assert(nx.frames[i] == st.frames[i]);
        if i < st.frames.len() - 1 {
        } else {
            assert(st.frames[i] == st.frames.last());
        }
    }
    assert(npaths.no_duplicates()) by {
        assert forall|i: int, j: int| 0 <= i < npaths.len() && 0 <= j < npaths.len() && i != j implies npaths[i]
            != npaths[j] by {
            if i < paths.len() && j < paths.len() {
            } else if i < paths.len() {
                assert(paths.contains(npaths[i]));
            } else {
                assert(paths.contains(npaths[j]));
            }
        }
    }
    assert forall|i: int, j: int| 0 <= i < npaths.len() && 0 <= j < nx.seen.len() implies #[trigger] npaths[i]
        != #[trigger] nx.seen[j] by {
        if i < paths.len() {
            assert(npaths[i] == paths[i]);
        } else {
            assert(st.seen.contains(nx.seen[j]));
        }
    }
    assert forall|i: int| 0 <= i < nx.frames.len() implies parsed_as(nx.parsed, #[trigger] nx.frames[i]) by {
        if i < st.frames.len() {
            assert(nx.frames[i] == st.frames[i]);
            assert(parsed_as(st.parsed, st.frames[i]));
            assert(paths[i] != c);
        }
    }
    assert forall|q: Seq<char>| #[trigger] nx.parsed.contains_key(q) implies npaths.contains(q) || nx.seen.contains(q) by {
        if q == c {
            assert(npaths[npaths.len() - 1] == c);
        } else if paths.contains(q) {
            let i = choose|i: int| 0 <= i < paths.len() && paths[i] == q;
            assert(npaths[i] == q);
        }
    }
    lemma_rules_of_insert(st.seen, st.parsed, c, p.rules@);
    assert forall|i: int| 0 <= i < nx.frames.len() implies listed(nx.pragmas_of, #[trigger] nx.frames[i]) by {
        if i < st.frames.len() {
            assert(nx.frames[i] == st.frames[i]);
            assert(listed(st.pragmas_of, st.frames[i]));
            assert(paths[i] != c);
        }
    }
    assert forall|i: int| 0 <= i < nx.frames.len() - 1 implies answered(nx.edges, (#[trigger] nx.frames[i]).path, nx.frames[i].pragmas, nx.frames[i].next - 1) by {
        assert(nx.frames[i] == st.frames[i]);
        if i < st.frames.len() - 1 {
        } else {
            assert(st.frames[i] == st.frames.last());
        }
    }
    assert forall|j: int| 0 <= j < nx.seen.len() implies #[trigger] nx.pragmas_of.contains_key(nx.seen[j])
        && answered(nx.edges, nx.seen[j], nx.pragmas_of[nx.seen[j]], nx.pragmas_of[nx.seen[j]].len() as int) by {
        assert(st.pragmas_of.contains_key(st.seen[j]));
        assert(st.seen[j] != c);
    }
    assert(stack_rules(nx.frames) =~= stack_rules(st.frames));
    if st.frames.len() > 0 {
        assert(nx.frames[0] == st.frames[0]);
    }
    let x = (c, views(p.warnings@));
    assert(nx.read_log.drop_last() =~= st.read_log);
    assert(nx.warnings == log_warnings(nx.read_log));
    assert forall|q: Seq<char>| #[trigger] nx.parsed.contains_key(q) implies read_paths(nx.read_log).contains(q) by {
        if q == c {
            assert(read_paths(nx.read_log)[st.read_log.len() as int] == c);
        } else {
            assert(read_paths(st.read_log).contains(q));
            let k = choose|k: int| 0 <= k < read_paths(st.read_log).len() && read_paths(st.read_log)[k] == q;
            assert(read_paths(nx.read_log)[k] == q);
        }
    }
    assert(read_paths(nx.read_log) =~= read_paths(st.read_log).push(c));
    assert(!read_paths(st.read_log).contains(c)) by {
        if read_paths(st.read_log).contains(c) {
            let k = choose|k: int| 0 <= k < read_paths(st.read_log).len() && read_paths(st.read_log)[k] == c;
            assert(st.parsed.contains_key(st.read_log[k].0));
        }
    }
    assert(read_paths(nx.read_log).no_duplicates()) by {
        let rp = read_paths(nx.read_log);
        assert forall|i: int, j: int| 0 <= i < rp.len() && 0 <= j < rp.len() && i != j implies rp[i] != rp[j] by {
            if i < rp.len() - 1 && j < rp.len() - 1 {
                assert(rp[i] == read_paths(st.read_log)[i]);
                assert(rp[j] == read_paths(st.read_log)[j]);
            } else if i < rp.len() - 1 {
                assert(read_paths(st.read_log).contains(rp[i]));
            } else {
                assert(read_paths(st.read_log).contains(rp[j]));
            }
        }
    }
    assert forall|k: int| 0 <= k < nx.read_log.len() implies nx.parsed.contains_key(#[trigger] nx.read_log[k].0) by {
        if k < st.read_log.len() {
            assert(nx.read_log[k] == st.read_log[k]);
            assert(st.parsed.contains_key(st.read_log[k].0));
        }
    }
    assert forall|i: int| 0 <= i < nx.frames.len() - 1 implies #[trigger] reached_from_below(nx, i) by {
        if i < st.frames.len() - 1 {
            assert(reached_from_below(st, i));
            assert(nx.frames[i] == st.frames[i]);
            assert(nx.frames[i + 1] == st.frames[i + 1]);
        } else {
            assert(nx.frames[i] == st.frames.last());
        }
    }
    assert forall|e: (Seq<char>, int, Seq<char>)| #[trigger] nx.resolved.contains(e) implies {
        &&& nx.pragmas_of.contains_key(e.0)
        &&& 0 <= e.1 < nx.pragmas_of[e.0].len()
        &&& nx.pragmas_of[e.0][e.1].import is Some
    } by {
        assert(st.pragmas_of.contains_key(e.0));
        assert(e.0 != c);
    }
}

/// Answering an import with a loaded file keeps the state sound.
pub proof fn lemma_answered<V, R>(st: LoaderView<V, R>, c: Seq<char>)
    requires
        consistent(st),
        st.awaiting is Import,
        st.seen.contains(c),
    ensures
        sound(LoaderView { edges: st.edges.push((st.frames.last().path, st.frames.last().next - 1, c)), ..st }),
        top_answered(LoaderView { edges: st.edges.push((st.frames.last().path, st.frames.last().next - 1, c)), ..st }),
{
    reveal(sound);    let top = st.frames.last();
    let x = (top.path, top.next - 1, c);
    let nx = LoaderView { edges: st.edges.push(x), ..st };
    lemma_answered_add(st.edges, top.path, top.pragmas, top.next - 1, c);
    assert forall|i: int| 0 <= i < nx.frames.len() - 1 implies answered(nx.edges, (#[trigger] nx.frames[i]).path, nx.frames[i].pragmas, nx.frames[i].next - 1) by {
        lemma_answered_grow(st.edges, x, st.frames[i].path, st.frames[i].pragmas, st.frames[i].next - 1);
    }
    assert forall|j: int| 0 <= j < nx.seen.len() implies #[trigger] nx.pragmas_of.contains_key(nx.seen[j])
        && answered(nx.edges, nx.seen[j], nx.pragmas_of[nx.seen[j]], nx.pragmas_of[nx.seen[j]].len() as int) by {
        assert(st.pragmas_of.contains_key(st.seen[j]));
        lemma_answered_grow(st.edges, x, st.seen[j], st.pragmas_of[st.seen[j]], st.pragmas_of[st.seen[j]].len() as int);
    }
    let paths = stack_paths(st.frames);
    assert(!st.seen.contains(st.frames.last().path)) by {
        if st.seen.contains(st.frames.last().path) {
            let j = choose|j: int| 0 <= j < st.seen.len() && st.seen[j] == st.frames.last().path;
            assert(paths[paths.len() - 1] != st.seen[j]);
        }
    }
    assert forall|i: int| 0 <= i < nx.frames.len() - 1 implies #[trigger] reached_from_below(nx, i) by {
        assert(reached_from_below(st, i));
    }
    assert forall|e: (Seq<char>, int, Seq<char>)| #[trigger] nx.edges.contains(e) implies nx.seen.contains(e.2) && (
    nx.seen.contains(e.0) ==> finished_before(nx.seen, e.2, e.0)) by {
        if !st.edges.contains(e) {
            let i = choose|i: int| 0 <= i < nx.edges.len() && nx.edges[i] == e;
            assert(i == st.edges.len());
        }
    }
}

/// Dependencies come first: in any consistent state, each import pragma
/// of each loaded file was answered by a file that finished loading before
/// it (so its rules come earlier in the merged rules).
pub proof fn law_dependencies_first<V, R>(st: LoaderView<V, R>)
    requires
        consistent(st),
    ensures
        forall|j: int, i: int|
            0 <= j < st.seen.len() && 0 <= i < st.pragmas_of[st.seen[j]].len() && (
            #[trigger] st.pragmas_of[st.seen[j]][i]).import is Some ==> exists|k: int|
                0 <= k < j && #[trigger] st.edges.contains((st.seen[j], i, st.seen[k])),
{
    reveal(sound);    assert forall|j: int, i: int|
        0 <= j < st.seen.len() && 0 <= i < st.pragmas_of[st.seen[j]].len() && (
        #[trigger] st.pragmas_of[st.seen[j]][i]).import is Some implies exists|k: int|
            0 <= k < j && #[trigger] st.edges.contains((st.seen[j], i, st.seen[k])) by {
        let f = st.seen[j];
        assert(st.pragmas_of.contains_key(st.seen[j]));
        let ps = st.pragmas_of[f];
        assert(ps[i].import is Some);
        let g = choose|g: Seq<char>| st.edges.contains((f, i, g));
        let e = (f, i, g);
        assert(st.edges.contains(e));
        assert(st.seen.contains(f));
        let (a, b) = choose|a: int, b: int| 0 <= a < b < st.seen.len() && st.seen[a] == g && st.seen[b] == f;
        assert(b == j);
        assert(st.edges.contains((st.seen[j], i, st.seen[a])));
    }
}

/// Going on from a file on the stack never fails, and keeps the include
/// directories.
proof fn lemma_advance_keeps<V, R>(st: LoaderView<V, R>)
    requires
        st.frames.len() > 0,
    ensures
        !(advance(st).1 is Failed),
        advance(st).0.include_dirs == st.include_dirs,
    decreases st.frames.len(),
{
    let top = st.frames.last();
    let k = next_import(top.pragmas, top.next as int);
    if k >= top.pragmas.len() {
        let rest = st.frames.drop_last();
        if rest.len() > 0 {
            let parent = rest.last();
            let parent2 = FrameView {
                path: parent.path,
                pragmas: parent.pragmas,
                own: parent.own,
                next: parent.next,
                rules: parent.rules + (top.rules + top.own),
            };
            lemma_advance_keeps(
                LoaderView {
                    frames: rest.update(rest.len() - 1, parent2),
                    seen: st.seen.push(top.path),
                    edges: st.edges.push((parent.path, parent.next - 1, top.path)),
                    ..st
                },
            );
        }
    }
}

/// Once the pending import is probed and the first candidate location
/// where something exists gives the canonical path `p`: if `p` is on the
/// import stack, the outcome is the cycle of the stack closed by `p`; if
/// `p` was loaded already, loading goes on without failing; else `p` is
/// read next. Either way the import is not reported as not found, wherever
/// among the candidates `p` was found.
pub proof fn law_probe_found<V, R>(st: LoaderView<V, R>, probes: Seq<Probe>, j: int)
    requires
        st.frames.len() > 0,
        first_present(probes, j),
        j < pending_candidates(st).len(),
        probes[j] is Found,
    ensures
        stack_paths(st.frames).contains(probes[j]->Found_0@) ==> respond_probes(st, probes).1
            == StepView::<V, R>::Failed(LoadErrorView::Cycle(stack_paths(st.frames).push(probes[j]->Found_0@))),
        !stack_paths(st.frames).contains(probes[j]->Found_0@) && st.seen.contains(probes[j]->Found_0@) ==> !(
        respond_probes(st, probes).1 is Failed),
        !stack_paths(st.frames).contains(probes[j]->Found_0@) && !st.seen.contains(probes[j]->Found_0@) ==> {
            &&& respond_probes(st, probes).1 == StepView::<V, R>::Read(probes[j]->Found_0@)
            &&& respond_probes(st, probes).0.awaiting == AwaitView::File(probes[j]->Found_0@)
        },
{
    let p = probes[j]->Found_0@;
    law_resolution_first_present(pending_import(st), pending_candidates(st), probes, j);
    if !stack_paths(st.frames).contains(p) && st.seen.contains(p) {
        lemma_advance_keeps(
            LoaderView {
                edges: st.edges.push((st.frames.last().path, st.frames.last().next - 1, p)),
                ..with_resolved(st, p)
            },
        );
    }
}

/// A fresh loader waits for the entry file and keeps the include
/// directories in the order given; no answer to a step changes them, so
/// every import is looked for in them in that order.
pub proof fn law_include_dirs_kept<V, R>(
    entry: Seq<char>,
    include_dirs: Seq<Seq<char>>,
    st: LoaderView<V, R>,
    outcome: Result<ParsedFile<V, R>, LoadError>,
    probes: Seq<Probe>,
)
    requires
        st.awaiting is File ==> st.frames.len() > 0 || outcome is Err,
        st.awaiting is Import ==> st.frames.len() > 0,
    ensures
        start_view::<V, R>(entry, include_dirs).include_dirs == include_dirs,
        start_view::<V, R>(entry, include_dirs).awaiting == AwaitView::File(entry),
        st.awaiting is File ==> respond_file(st, outcome).0.include_dirs == st.include_dirs,
        st.awaiting is Import ==> respond_probes(st, probes).0.include_dirs == st.include_dirs,
{
    if st.awaiting is File {
        if let Ok(p) = outcome {
            lemma_advance_keeps(pushed(st, st.awaiting->File_0, p));
        }
    }
    if st.awaiting is Import {
        if let Ok(c) = resolution(pending_import(st), pending_candidates(st), probes) {
            if !stack_paths(st.frames).contains(c) && st.seen.contains(c) {
                lemma_advance_keeps(
                    LoaderView {
                        edges: st.edges.push((st.frames.last().path, st.frames.last().next - 1, c)),
                        ..with_resolved(st, c)
                    },
                );
            }
        }
    }
}

/// A nested load leaves the stack as it was and adds exactly the files it
/// read: between two consistent states, the second reached from the first
/// (reads and loaded files only grow), with the same files on the stack,
/// the files loaded are those loaded before and those read in between, and
/// still none is on the stack or loaded twice.
pub proof fn law_nested_load<V, R>(a: LoaderView<V, R>, b: LoaderView<V, R>)
    requires
        consistent(a),
        consistent(b),
        a.read_log.is_prefix_of(b.read_log),
        a.seen.is_prefix_of(b.seen),
        stack_paths(a.frames) == stack_paths(b.frames),
    ensures
        forall|p: Seq<char>| #[trigger] b.seen.contains(p) <==> (a.seen.contains(p) || read_paths(b.read_log).subrange(
            a.read_log.len() as int,
            b.read_log.len() as int,
        ).contains(p)),
        b.seen.no_duplicates(),
        stack_paths(b.frames).no_duplicates(),
        forall|p: Seq<char>| b.seen.contains(p) ==> !#[trigger] stack_paths(b.frames).contains(p),
{
    reveal(sound);
    let ra = read_paths(a.read_log);
    let rb = read_paths(b.read_log);
    let fresh = rb.subrange(a.read_log.len() as int, b.read_log.len() as int);
    assert forall|k: int| 0 <= k < ra.len() implies ra[k] == rb[k] by {
        assert(a.read_log[k] == b.read_log[k]);
    }
    assert forall|p: Seq<char>| #[trigger] b.seen.contains(p) <==> (a.seen.contains(p) || fresh.contains(p)) by {
        if a.seen.contains(p) {
            let j = choose|j: int| 0 <= j < a.seen.len() && a.seen[j] == p;
            assert(b.seen[j] == p);
        }
        if b.seen.contains(p) && !a.seen.contains(p) {
            let j = choose|j: int| 0 <= j < b.seen.len() && b.seen[j] == p;
            assert(b.parsed.contains_key(b.seen[j]));
            assert(rb.contains(p));
            let k = choose|k: int| 0 <= k < rb.len() && rb[k] == p;
            if k < ra.len() {
                assert(ra[k] == p);
                assert(a.parsed.contains_key(a.read_log[k].0));
                if stack_paths(a.frames).contains(p) {
                    let i = choose|i: int| 0 <= i < stack_paths(b.frames).len() && stack_paths(b.frames)[i] == p;
                    assert(stack_paths(b.frames)[i] != b.seen[j]);
                }
            } else {
                assert(fresh[k - ra.len()] == p);
            }
        }
        if fresh.contains(p) {
            let k = choose|k: int| 0 <= k < fresh.len() && fresh[k] == p;
            let kb = k + ra.len();
            assert(rb[kb] == p);
            assert(b.parsed.contains_key(b.read_log[kb].0));
            if stack_paths(b.frames).contains(p) {
                assert(a.parsed.contains_key(p)) by {
                    let i = choose|i: int| 0 <= i < stack_paths(a.frames).len() && stack_paths(a.frames)[i] == p;
                    assert(parsed_as(a.parsed, a.frames[i]));
                }
                assert(ra.contains(p));
                let m = choose|m: int| 0 <= m < ra.len() && ra[m] == p;
                assert(rb[m] == p);
                assert(m != kb);
            }
        }
    }
    assert forall|p: Seq<char>| b.seen.contains(p) implies !#[trigger] stack_paths(b.frames).contains(p) by {
        if stack_paths(b.frames).contains(p) {
            let i = choose|i: int| 0 <= i < stack_paths(b.frames).len() && stack_paths(b.frames)[i] == p;
            let j = choose|j: int| 0 <= j < b.seen.len() && b.seen[j] == p;
            assert(stack_paths(b.frames)[i] != b.seen[j]);
        }
    }
}

/// Finishing a file that is not loaded yet keeps every answered import in order.
proof fn lemma_edges_after_finish(seen: Seq<Seq<char>>, f: Seq<char>, edges: Seq<(Seq<char>, int, Seq<char>)>)
    requires
        !seen.contains(f),
        forall|e: (Seq<char>, int, Seq<char>)| #[trigger] edges.contains(e) ==> seen.contains(e.2) && (seen.contains(e.0)
            ==> finished_before(seen, e.2, e.0)),
    ensures
        forall|e: (Seq<char>, int, Seq<char>)| #[trigger] edges.contains(e) ==> seen.push(f).contains(e.2) && (seen.push(
            f,
        ).contains(e.0) ==> finished_before(seen.push(f), e.2, e.0)),
{
    let s2 = seen.push(f);
    assert forall|e: (Seq<char>, int, Seq<char>)| #[trigger] edges.contains(e) implies s2.contains(e.2) && (s2.contains(e.0)
        ==> finished_before(s2, e.2, e.0)) by {
        let a = choose|a: int| 0 <= a < seen.len() && seen[a] == e.2;
        assert(s2[a] == e.2);
        if s2.contains(e.0) {
            if seen.contains(e.0) {
                let (i, j) = choose|i: int, j: int| 0 <= i < j < seen.len() && seen[i] == e.2 && seen[j] == e.0;
                assert(s2[i] == e.2 && s2[j] == e.0);
            } else {
                let j = choose|j: int| 0 <= j < s2.len() && s2[j] == e.0;
                assert(j == seen.len());
                assert(s2[a] == e.2 && s2[j] == e.0);
            }
        }
    }
}

proof fn lemma_answered_grow<V>(
    edges: Seq<(Seq<char>, int, Seq<char>)>,
    x: (Seq<char>, int, Seq<char>),
    f: Seq<char>,
    ps: Seq<Pragma<V>>,
    m: int,
)
    requires
        answered(edges, f, ps, m),
    ensures
        answered(edges.push(x), f, ps, m),
{
    assert forall|i: int| 0 <= i < m && i < ps.len() && (#[trigger] ps[i]).import is Some implies exists|g: Seq<char>|
        edges.push(x).contains((f, i, g)) by {
        let g = choose|g: Seq<char>| edges.contains((f, i, g));
        let k = choose|k: int| 0 <= k < edges.len() && edges[k] == (f, i, g);
        assert(edges.push(x)[k] == (f, i, g));
        assert(edges.push(x).contains((f, i, g)));
    }
}

proof fn lemma_answered_add<V>(edges: Seq<(Seq<char>, int, Seq<char>)>, f: Seq<char>, ps: Seq<Pragma<V>>, m: int, g: Seq<char>)
    requires
        answered(edges, f, ps, m),
    ensures
        answered(edges.push((f, m, g)), f, ps, m + 1),
{
    lemma_answered_grow(edges, (f, m, g), f, ps, m);
    let e2 = edges.push((f, m, g));
    assert forall|i: int| 0 <= i < m + 1 && i < ps.len() && (#[trigger] ps[i]).import is Some implies exists|h: Seq<char>|
        e2.contains((f, i, h)) by {
        if i == m {
            assert(e2[edges.len() as int] == (f, m, g));
            assert(e2.contains((f, i, g)));
        } else {
            assert(ps[i].import is Some);
        }
    }
}

proof fn lemma_answered_skip<V>(edges: Seq<(Seq<char>, int, Seq<char>)>, f: Seq<char>, ps: Seq<Pragma<V>>, m: int, k: int)
    requires
        answered(edges, f, ps, m),
        m <= k,
        forall|j: int| m <= j < k && j < ps.len() ==> (#[trigger] ps[j]).import is None,
    ensures
        answered(edges, f, ps, k),
{
    assert forall|i: int| 0 <= i < k && i < ps.len() && (#[trigger] ps[i]).import is Some implies exists|g: Seq<char>|
        edges.contains((f, i, g)) by {
        if i >= m {
            assert(ps[i].import is None);
        }
    }
}

proof fn lemma_next_import<V>(pragmas: Seq<Pragma<V>>, i: int)
    requires
        0 <= i <= pragmas.len(),
    ensures
        i <= next_import(pragmas, i) <= pragmas.len(),
        next_import(pragmas, i) < pragmas.len() ==> pragmas[next_import(pragmas, i)].import is Some,
        forall|j: int| i <= j < next_import(pragmas, i) ==> (#[trigger] pragmas[j]).import is None,
    decreases pragmas.len() - i,
{
    if i < pragmas.len() && pragmas[i].import is None {
        lemma_next_import(pragmas, i + 1);
    }
}

impl<V, R> Loader<V, R> {
    /// The loader's own consistency (see [`consistent`]).
    pub open spec fn inv(&self) -> bool {
        consistent(self@)
    }

    /// Starts loading at the canonical path of the entry file, with the
    /// include directories to search: the first thing needed is that file.
    pub fn start(entry: String, include_dirs: Vec<String>) -> (r: (Self, LoadStep<V, R>))
        ensures
            r.0.inv(),
            r.0@ == start_view::<V, R>(entry@, views(include_dirs@)),
            r.0@.include_dirs == views(include_dirs@),
            r.1@ == StepView::<V, R>::Read(entry@),
            awaits(r.0@, r.1@),
    {
        let loader = Loader {
            frames: Vec::new(),
            seen: Vec::new(),
            warnings: Vec::new(),
            awaiting: Awaiting::File(entry.clone()),
            parsed: Ghost(Map::empty()),
            edges: Ghost(Seq::empty()),
            entry: Ghost(entry@),
            pragmas_of: Ghost(Map::empty()),
            read_log: Ghost(Seq::empty()),
            resolved: Ghost(Seq::empty()),
            include_dirs,
        };
        proof {
            reveal(sound);
            assert(loader@.frames =~= Seq::<FrameView<V, R>>::empty());
            assert(loader@.seen =~= Seq::<Seq<char>>::empty());
            assert(loader@.warnings =~= Seq::<Seq<char>>::empty());
            assert(loader@ == start_view::<V, R>(entry@, views(include_dirs@)));
        }
        (loader, LoadStep::Read(entry))
    }

    fn advance(&mut self) -> (step: LoadStep<V, R>)
        requires
            sound(old(self)@),
            old(self)@.frames.len() > 0,
            top_answered(old(self)@),
            !(old(self)@.awaiting is Finished),
        ensures
            final(self).inv(),
            (final(self)@, step@) == advance(old(self)@),
    {
        proof {
            reveal(sound);
            lemma_advance(self@);
        }
        let ghost target = advance(self@);
        loop
            invariant
                stack_ok(self@),
                self@.frames.len() > 0,
                advance(self@) == target,
                target == advance(old(self)@),
                consistent(target.0),
            decreases self@.frames.len(),
        {
            let ghost st = self@;
            let mut top = self.frames.pop().unwrap();
            proof {
                assert(self.frames@.map_values(|f: Frame<V, R>| f@) =~= st.frames.drop_last());
                assert(top@ == st.frames.last());
            }
            let mut k = top.next;
            while k < top.pragmas.len() && top.pragmas[k].import.is_none()
                invariant
                    top.next <= k <= top.pragmas.len(),
                    next_import(top.pragmas@, top.next as int) == next_import(top.pragmas@, k as int),
                decreases top.pragmas.len() - k,
            {
                k = k + 1;
            }
            if k < top.pragmas.len() {
                let import = match &top.pragmas[k].import {
                    Some(s) => s.clone(),
                    None => String::new(),
                };
                let from = top.path.clone();
                let candidates = import_candidates(import.as_str(), from.as_str(), &self.include_dirs);
                top.next = k + 1;
                self.frames.push(top);
                self.awaiting = Awaiting::Import;
                proof {
                    assert(self@.frames =~= target.0.frames);
                    assert(self@.seen == target.0.seen);
                    assert(self@.warnings == target.0.warnings);
                    assert(self@ == target.0);
                    assert(next_import(top.pragmas@, st.frames.last().next as int) == k);
                    assert(import@ == st.frames.last().pragmas[k as int].import.unwrap()@);
                    assert(from@ == st.frames.last().path);
                    assert forall|i: int| 0 <= i < self@.frames.len() - 1 implies resolving(
                        #[trigger] self@.frames[i],
                    ) by {
                        assert(self@.frames[i] == st.frames[i]);
                    }
                    assert forall|i: int| 0 <= i < self@.frames.len() implies #[trigger] self@.frames[i].next
                        <= self@.frames[i].pragmas.len() by {
                        if i < self@.frames.len() - 1 {
                            assert(self@.frames[i] == st.frames[i]);
                        }
                    }
                }
                return LoadStep::Resolve { import, from, candidates };
            }
            let Frame { path, pragmas, mut own, next, mut rules } = top;
            let ghost all = rules@ + own@;
            rules.append(&mut own);
            self.seen.push(path.clone());
            proof {
                assert(views(self.seen@) =~= st.seen.push(path@));
            }
            if self.frames.len() == 0 {
                let mut taken: Vec<String> = Vec::new();
                std::mem::swap(&mut taken, &mut self.warnings);
                proof {
                    assert(views(self.warnings@) =~= Seq::<Seq<char>>::empty());
                }
                self.awaiting = Awaiting::Finished;
                proof {
                    assert(self@.frames =~= target.0.frames);
                    assert(self@ == target.0);
                    assert(rules@ == target.1->rules);
                    assert(views(taken@) == target.1->Loaded_warnings);
                }
                return LoadStep::Done(
                    Ok(
                        LoadedModule {
                            module: CddlModule { source_path: path, file_pragmas: pragmas, rules },
                            warnings: taken,
                        },
                    ),
                );
            }
            let ghost rest = self@.frames;
            let mut parent = self.frames.pop().unwrap();
            proof {
                assert(parent@ == rest.last());
            }
            self.edges = Ghost(self.edges@.push((parent.path@, parent.next - 1, path@)));
            parent.rules.append(&mut rules);
            self.frames.push(parent);
            proof {
                let parent2 = FrameView {
                    path: rest.last().path,
                    pragmas: rest.last().pragmas,
                    own: rest.last().own,
                    next: rest.last().next,
                    rules: rest.last().rules + all,
                };
                assert(self@.frames =~= rest.update(rest.len() - 1, parent2));
                assert forall|i: int| 0 <= i < self@.frames.len() implies #[trigger] self@.frames[i].next
                    <= self@.frames[i].pragmas.len() by {
                    assert(self@.frames[i].next == st.frames[i].next);
                    assert(self@.frames[i].pragmas == st.frames[i].pragmas);
                }
                assert forall|i: int| 0 <= i < self@.frames.len() - 1 implies resolving(
                    #[trigger] self@.frames[i],
                ) by {
                    assert(self@.frames[i] == st.frames[i]);
                }
            }
        }
    }
}


fn contains_path(v: &Vec<String>, p: &String) -> (b: bool)
    ensures
        b == views(v@).contains(p@),
{
    let mut i: usize = 0;
    while i < v.len()
        invariant
            i <= v.len(),
            forall|j: int| 0 <= j < i ==> views(v@)[j] != p@,
        decreases v.len() - i,
    {
        if v[i] == *p {
            assert(views(v@)[i as int] == p@);
            return true;
        }
        i = i + 1;
    }
    false
}

impl<V, R> Loader<V, R> {
    fn on_stack(&self, p: &String) -> (b: bool)
        ensures
            b == stack_paths(self@.frames).contains(p@),
    {
        let mut i: usize = 0;
        while i < self.frames.len()
            invariant
                i <= self.frames.len(),
                forall|j: int| 0 <= j < i ==> stack_paths(self@.frames)[j] != p@,
            decreases self.frames.len() - i,
        {
            if self.frames[i].path == *p {
                assert(stack_paths(self@.frames)[i as int] == p@);
                return true;
            }
            i = i + 1;
        }
        false
    }

    fn stack_with(&self, p: String) -> (cycle: Vec<String>)
        ensures
            views(cycle@) == stack_paths(self@.frames).push(p@),
    {
        let mut cycle: Vec<String> = Vec::new();
        let mut i: usize = 0;
        while i < self.frames.len()
            invariant
                i <= self.frames.len(),
                views(cycle@) == stack_paths(self@.frames).take(i as int),
            decreases self.frames.len() - i,
        {
            let ghost prev = cycle@;
            cycle.push(self.frames[i].path.clone());
            proof {
                assert(views(cycle@) =~= views(prev).push(self.frames@[i as int].path@));
                assert(self@.frames[i as int] == self.frames@[i as int]@);
                assert(stack_paths(self@.frames)[i as int] == self.frames@[i as int].path@);
                assert(views(cycle@) =~= stack_paths(self@.frames).take(i + 1));
            }
            i = i + 1;
        }
        let ghost before = cycle@;
        cycle.push(p);
        proof {
            assert(stack_paths(self@.frames).take(self.frames.len() as int) =~= stack_paths(self@.frames));
            assert(views(cycle@) =~= views(before).push(p@));
            assert(views(cycle@) =~= stack_paths(self@.frames).push(p@));
        }
        cycle
    }

    /// Answers the read of the file the loader waited for: on failure that
    /// failure is the outcome; else the file goes on top of the stack and
    /// loading goes on from it (see [`advance`]).
    pub fn file_loaded(&mut self, outcome: Result<ParsedFile<V, R>, LoadError>) -> (step: LoadStep<V, R>)
        requires
            old(self).inv(),
            old(self)@.awaiting is File,
            outcome matches Err(e) ==> !(e is Cycle),
        ensures
            final(self).inv(),
            outcome_law(final(self)@, step@),
            awaits(final(self)@, step@),
            (final(self)@, step@) == respond_file(old(self)@, outcome),
            old(self)@.read_log.is_prefix_of(final(self)@.read_log),
            old(self)@.seen.is_prefix_of(final(self)@.seen),
    {
        let path = match &self.awaiting {
            Awaiting::File(p) => p.clone(),
            _ => String::new(),
        };
        match outcome {
            Err(e) => {
                proof {
                    lemma_finish(self@);
                }
                self.awaiting = Awaiting::Finished;
                LoadStep::Done(Err(e))
            },
            Ok(parsed) => {
                let ghost st = pushed(self@, path@, parsed);
                let ParsedFile { file_pragmas, rules, mut warnings } = parsed;
                self.pragmas_of = Ghost(self.pragmas_of@.insert(path@, file_pragmas@));
                self.read_log = Ghost(self.read_log@.push((path@, views(warnings@))));
                self.warnings.append(&mut warnings);
                self.parsed = Ghost(self.parsed@.insert(path@, rules@));
                self.frames.push(
                    Frame { path, pragmas: file_pragmas, own: rules, next: 0, rules: Vec::new() },
                );
                proof {
                    let old_st = old(self)@;
                    lemma_pushed(old_st, path@, parsed);
                    lemma_advance(st);
                    assert(self@.frames =~= st.frames);
                    assert(self@.warnings =~= st.warnings);
                    assert(self@ == st);
                }
                self.advance()
            },
        }
    }

    /// Answers the probes for the import the loader waited for. If the
    /// import resolves to a file on the stack, the stack with that file
    /// added is the cycle that is the outcome; if to a file already loaded,
    /// that file adds no rules and loading goes on; else that file is read
    /// next.
    pub fn import_probed(&mut self, probes: &Vec<Probe>) -> (step: LoadStep<V, R>)
        requires
            old(self).inv(),
            old(self)@.awaiting is Import,
        ensures
            final(self).inv(),
            outcome_law(final(self)@, step@),
            awaits(final(self)@, step@),
            (final(self)@, step@) == respond_probes(old(self)@, probes@),
            old(self)@.read_log.is_prefix_of(final(self)@.read_log),
            old(self)@.seen.is_prefix_of(final(self)@.seen),
    {
        proof {
            lemma_resolution_io(pending_import(self@), pending_candidates(self@), probes@, 0);
        }
        let n = self.frames.len();
        let next = self.frames[n - 1].next;
        let import = match &self.frames[n - 1].pragmas[next - 1].import {
            Some(s) => s.clone(),
            None => String::new(),
        };
        proof {
            assert(self@.frames[n - 1] == self.frames@[n - 1]@);
        }
        let candidates = import_candidates(import.as_str(), self.frames[n - 1].path.as_str(), &self.include_dirs);
        match resolve_import(import.as_str(), &candidates, probes) {
            Err(e) => {
                proof {
                    lemma_finish(self@);
                }
                self.awaiting = Awaiting::Finished;
                LoadStep::Done(Err(e))
            },
            Ok(c) => {
                proof {
                    lemma_resolved(self@, c@);
                }
                self.resolved = Ghost(self.resolved@.push((self.frames@[n - 1].path@, self.frames@[n - 1].next - 1, c@)));
                proof {
                    assert(self@ == with_resolved(old(self)@, c@));
                }
                if self.on_stack(&c) {
                    proof {
                        lemma_cycle(old(self)@, c@);
                    }
                    let cycle = self.stack_with(c);
                    self.awaiting = Awaiting::Finished;
                    LoadStep::Done(Err(LoadError::Cycle { cycle }))
                } else if contains_path(&self.seen, &c) {
                    proof {
                        lemma_answered(self@, c@);
                        lemma_advance(LoaderView { edges: self@.edges.push((self@.frames.last().path, self@.frames.last().next - 1, c@)), ..self@ });
                    }
                    self.edges = Ghost(self.edges@.push((self.frames@[n - 1].path@, self.frames@[n - 1].next - 1, c@)));
                    proof {
                        assert(self@ == LoaderView {
                            edges: old(self)@.edges.push((old(self)@.frames.last().path, old(self)@.frames.last().next - 1, c@)),
                            ..with_resolved(old(self)@, c@)
                        });
                    }
                    self.advance()
                } else {
                    self.awaiting = Awaiting::File(c.clone());
                    LoadStep::Read(c)
                }
            },
        }
    }
}

} // verus!
