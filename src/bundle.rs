//! Script files, their import directives, and the resolution of a root file
//! into one flattened text.
use vstd::prelude::*;
use crate::paths::{extension_of, joined_path, parent_of, path_extension, path_join, path_parent};
use crate::sources::Sources;
use crate::text::{has_prefix, lines_of, joined_lines, join_lines, same_text, split_lines, strip_prefix};

verus! {

/// Inclusion chains deeper than this are taken to be circular.
pub const CIRCULAR_CUT_OFF: usize = 512;

/// The options of one resolution run.
#[derive(Debug)]
pub struct Args {
    /// The root file of the run; `source` directives resolve against its directory.
    pub root_path: Option<String>,
    /// A configuration file that the options were read from, if any.
    pub config: Option<String>,
    /// Whether `source ./file.sh` lines are replaced.
    pub replace_source: bool,
    /// Whether `# import ./file.sh` lines are replaced.
    pub replace_comment: bool,
}

impl Default for Args {
    fn default() -> (r: Args)
        ensures
            r.root_path.is_none(),
            r.config.is_none(),
            r.replace_comment,
            !r.replace_source,
    {
        Args { root_path: None, config: None, replace_comment: true, replace_source: false }
    }
}

/// The layout of a configuration file: one `builder` table of options.
#[derive(Debug)]
pub struct Config {
    pub builder: Args,
}

#[derive(Debug, Clone, Copy, PartialEq, Eq, Structural)]
pub enum ImportStyle {
    /// `# import <path>`, relative to the directory of the including file.
    Comment,
    /// `source <path>`, relative to the directory of the root file.
    Source,
}

/// One import directive found in a file.
#[derive(Debug)]
pub struct ImportStatement {
    /// Zero-based index of the directive's line in the including file.
    pub line_number: usize,
    /// The directive line as written.
    pub line: String,
    /// The path as written after the directive's prefix.
    pub text: String,
    /// The path of the imported file.
    pub path: String,
    pub style: ImportStyle,
    /// The imported file with its own imports loaded, once it has been loaded.
    pub resolved: Option<BashFile>,
}

/// A script file: its path, its text once loaded, the imports found in it,
/// and how deep it sits below the root file.
#[derive(Debug)]
pub struct BashFile {
    pub path: String,
    pub contents: Option<String>,
    pub dependents: Vec<ImportStatement>,
    pub nested: usize,
}

#[derive(Debug)]
/// The ways a resolution fails.
pub enum Error {
    /// The file at this path could not be read: there is no such file.
    Io(String),
    /// Nothing is known yet of this path: its file has to be looked up before
    /// the resolution can go on.
    Pending(String),
    /// The inclusion chain went deeper than the cut-off.
    Circular,
}

/// An error as plain values.
pub enum Fault {
    Io(Seq<char>),
    Pending(Seq<char>),
    Circular,
}

impl View for Error {
    type V = Fault;

    open spec fn view(&self) -> Fault {
        match self {
            Error::Io(p) => Fault::Io(p@),
            Error::Pending(p) => Fault::Pending(p@),
            Error::Circular => Fault::Circular,
        }
    }
}

pub open spec fn circular_message() -> Seq<char> {
    seq!['C', 'i', 'r', 'c', 'u', 'l', 'a', 'r', ' ', 'i', 'm', 'p', 'o', 'r', 't', ' ', 'f', 'o', 'u', 'n', 'd']
}

pub open spec fn unreadable_message() -> Seq<char> {
    seq!['c', 'a', 'n', 'n', 'o', 't', ' ', 'r', 'e', 'a', 'd', ' ']
}

pub open spec fn pending_message() -> Seq<char> {
    seq!['n', 'o', 't', ' ', 'l', 'o', 'o', 'k', 'e', 'd', ' ', 'u', 'p', ' ']
}

/// The text that describes an error.
pub open spec fn message_of(f: Fault) -> Seq<char> {
    match f {
        Fault::Io(p) => unreadable_message() + p,
        Fault::Pending(p) => pending_message() + p,
        Fault::Circular => circular_message(),
    }
}

impl Error {
    /// Describes the error.
    pub fn to_string(&self) -> (r: String)
        ensures
            r@ == message_of(self@),
    {
        proof {
            reveal_strlit("Circular import found");
            reveal_strlit("cannot read ");
            reveal_strlit("not looked up ");
        }
        match self {
            Error::Io(p) => {
                let r = String::from_str("cannot read ").concat(p.as_str());
                assert(r@ =~= message_of(self@));
                r
            },
            Error::Pending(p) => {
                let r = String::from_str("not looked up ").concat(p.as_str());
                assert(r@ =~= message_of(self@));
                r
            },
            Error::Circular => {
                let r = String::from_str("Circular import found");
                assert(r@ =~= message_of(self@));
                r
            },
        }
    }
}

/// An import directive as plain values.
pub struct Found {
    pub line_number: int,
    pub line: Seq<char>,
    pub text: Seq<char>,
    pub path: Seq<char>,
    pub style: ImportStyle,
}

pub open spec fn found_of(i: ImportStatement) -> Found {
    Found { line_number: i.line_number as int, line: i.line@, text: i.text@, path: i.path@, style: i.style }
}

pub open spec fn comment_prefix() -> Seq<char> {
    seq!['#', ' ', 'i', 'm', 'p', 'o', 'r', 't', ' ']
}

pub open spec fn source_prefix() -> Seq<char> {
    seq!['s', 'o', 'u', 'r', 'c', 'e', ' ']
}

pub open spec fn script_extension() -> Seq<char> {
    seq!['s', 'h']
}

/// The directory that paths in a file resolve against: the file's parent,
/// or the empty path where it has none.
pub open spec fn base_of(path: Seq<char>) -> Seq<char> {
    match parent_of(path) {
        Some(q) => q,
        None => Seq::empty(),
    }
}

/// The directory that `source` directives resolve against: that of the root file.
pub open spec fn root_base(cfg: Args) -> Seq<char> {
    match cfg.root_path {
        Some(r) => base_of(r@),
        None => Seq::empty(),
    }
}

pub open spec fn text_of(f: BashFile) -> Seq<char> {
    match f.contents {
        Some(c) => c@,
        None => Seq::empty(),
    }
}

/// Whether `p` may be included: it names a `.sh` file that exists. A `.sh`
/// path of which nothing is known yet asks for a look-up.
pub open spec fn eligible(store: Map<Seq<char>, Option<Seq<char>>>, p: Seq<char>) -> Result<bool, Fault> {
    if extension_of(p) != Some(script_extension()) {
        Ok(false)
    } else if !store.contains_key(p) {
        Err(Fault::Pending(p))
    } else {
        Ok(store[p].is_some())
    }
}

/// The directive of one style that `line` holds, if that style is `on`,
/// the line starts with `pre`, and the path after it, taken from `base`,
/// is eligible.
pub open spec fn directive(
    store: Map<Seq<char>, Option<Seq<char>>>,
    on: bool,
    pre: Seq<char>,
    base: Seq<char>,
    line: Seq<char>,
    n: int,
    style: ImportStyle,
) -> Result<Option<Found>, Fault> {
    if on && has_prefix(line, pre) {
        let tok = line.subrange(pre.len() as int, line.len() as int);
        let p = joined_path(base, tok);
        match eligible(store, p) {
            Err(e) => Err(e),
            Ok(ok) => Ok(
                if ok {
                    Some(Found { line_number: n, line, text: tok, path: p, style })
                } else {
                    None
                },
            ),
        }
    } else {
        Ok(None)
    }
}

/// The directive on line `n` of a file whose directory is `base`: comment
/// style is tried first, `source` style only where that found none.
pub open spec fn scan_line(
    store: Map<Seq<char>, Option<Seq<char>>>,
    cfg: Args,
    base: Seq<char>,
    line: Seq<char>,
    n: int,
) -> Result<Option<Found>, Fault> {
    match directive(store, cfg.replace_comment, comment_prefix(), base, line, n, ImportStyle::Comment) {
        Ok(None) => directive(
            store,
            cfg.replace_source,
            source_prefix(),
            root_base(cfg),
            line,
            n,
            ImportStyle::Source,
        ),
        r => r,
    }
}

/// The directives on lines `i..` of `ls`, in line order; the first line
/// that asks for a look-up ends the scan.
pub open spec fn scan_from(
    store: Map<Seq<char>, Option<Seq<char>>>,
    cfg: Args,
    base: Seq<char>,
    ls: Seq<Seq<char>>,
    i: int,
) -> Result<Seq<Found>, Fault>
    decreases ls.len() - i,
{
    if i < 0 || i >= ls.len() {
        Ok(Seq::empty())
    } else {
        match scan_line(store, cfg, base, ls[i], i) {
            Err(e) => Err(e),
            Ok(f) => match scan_from(store, cfg, base, ls, i + 1) {
                Err(e) => Err(e),
                Ok(rest) => Ok(
                    match f {
                        Some(x) => seq![x] + rest,
                        None => rest,
                    },
                ),
            },
        }
    }
}

pub open spec fn view_imports(v: Seq<ImportStatement>) -> Seq<Found> {
    v.map_values(|i: ImportStatement| found_of(i))
}

/// `ls` with the line of each of the first `k` directives replaced by the
/// matching text, one directive after the other.
pub open spec fn substituted(ls: Seq<Seq<char>>, found: Seq<Found>, texts: Seq<Seq<char>>, k: int) -> Seq<Seq<char>>
    decreases k,
{
    if k <= 0 {
        ls
    } else {
        let prev = substituted(ls, found, texts, k - 1);
        let n = found[k - 1].line_number;
        if 0 <= n < prev.len() {
            prev.update(n, texts[k - 1])
        } else {
            prev
        }
    }
}

/// The flattened text of the file at `path`, holding `text`, at depth `d`
/// below the root: each directive line is replaced by the flattened text of
/// the file it names.
pub open spec fn file_result(
    store: Map<Seq<char>, Option<Seq<char>>>,
    cfg: Args,
    path: Seq<char>,
    text: Seq<char>,
    d: int,
) -> Result<Seq<char>, Fault>
    decreases 512 - d, 1int, 0int,
{
    let ls = lines_of(text);
    match scan_from(store, cfg, base_of(path), ls, 0) {
        Err(e) => Err(e),
        Ok(found) => match children_from(store, cfg, found, 0, d) {
            Err(e) => Err(e),
            Ok(texts) => Ok(joined_lines(substituted(ls, found, texts, found.len() as int))),
        },
    }
}

/// The flattened texts of the files that the directives `found[k..]` of a
/// file at depth `d` name, each loaded at depth `d + 1`.
pub open spec fn children_from(
    store: Map<Seq<char>, Option<Seq<char>>>,
    cfg: Args,
    found: Seq<Found>,
    k: int,
    d: int,
) -> Result<Seq<Seq<char>>, Fault>
    decreases 512 - d, 0int, found.len() - k,
{
    if k < 0 || k >= found.len() {
        Ok(Seq::empty())
    } else {
        let p = found[k].path;
        let c = if !store.contains_key(p) {
            Err(Fault::Pending(p))
        } else {
            match store[p] {
                None => Err(Fault::Io(p)),
                Some(t) => if d + 1 > 512 {
                    Err(Fault::Circular)
                } else {
                    file_result(store, cfg, p, t, d + 1)
                },
            }
        };
        match c {
            Err(e) => Err(e),
            Ok(t) => match children_from(store, cfg, found, k + 1, d) {
                Err(e) => Err(e),
                Ok(r) => Ok(seq![t] + r),
            },
        }
    }
}

/// The outcome of a whole run on the root file `path`.
pub open spec fn resolution(store: Map<Seq<char>, Option<Seq<char>>>, cfg: Args, path: Seq<char>) -> Result<
    Seq<char>,
    Fault,
> {
    if !store.contains_key(path) {
        Err(Fault::Pending(path))
    } else {
        match store[path] {
            None => Err(Fault::Io(path)),
            Some(t) => file_result(store, cfg, path, t, 0),
        }
    }
}

/// The text of a loaded file tree with every resolved directive line
/// replaced by the flattened text of its file.
pub open spec fn flat(f: BashFile) -> Seq<char>
    decreases f, 1int, 0int,
{
    joined_lines(flat_lines(f, f.dependents@.len() as int))
}

/// The lines of `f` with the first `k` of its resolved directives substituted.
pub open spec fn flat_lines(f: BashFile, k: int) -> Seq<Seq<char>>
    decreases f, 0int, k,
{
    if k <= 0 || k > f.dependents@.len() {
        lines_of(text_of(f))
    } else {
        let imp = f.dependents@[k - 1];
        let prev = flat_lines(f, k - 1);
        match imp.resolved {
            Some(c) => if imp.line_number < prev.len() {
                prev.update(imp.line_number as int, flat(c))
            } else {
                prev
            },
            None => prev,
        }
    }
}

impl BashFile {
    /// A file at `path`, not loaded yet.
    pub fn new(path: String) -> (r: Self)
        ensures
            r.path == path,
            r.contents.is_none(),
            r.dependents@.len() == 0,
            r.nested == 0,
    {
        BashFile { path, contents: None, dependents: Vec::new(), nested: 0 }
    }

    /// Loads the file's text from `sources`.
    pub fn load(self, sources: &Sources) -> (r: Result<Self, Error>)
        ensures
            !sources@.contains_key(self.path@) ==> r == Err::<Self, Error>(Error::Pending(self.path)),
            sources@.contains_key(self.path@) && sources@[self.path@].is_none() ==> r
                == Err::<Self, Error>(Error::Io(self.path)),
            sources@.contains_key(self.path@) && sources@[self.path@].is_some() ==> r.is_ok()
                && r.unwrap().contents.is_some() && r.unwrap().contents.unwrap()@ == sources@[self.path@].unwrap()
                && r.unwrap().path == self.path && r.unwrap().nested == self.nested
                && r.unwrap().dependents == self.dependents,
    {
        let mut s = self;
        match sources.lookup(s.path.as_str()) {
            None => Err(Error::Pending(s.path)),
            Some(None) => Err(Error::Io(s.path)),
            Some(Some(t)) => {
                s.contents = Some(t);
                Ok(s)
            },
        }
    }

    /// The lines of the file's text; none before it is loaded.
    pub fn lines(&self) -> (r: Vec<String>)
        ensures
            r@.map_values(|x: String| x@) == lines_of(text_of(*self)),
    {
        match &self.contents {
            Some(c) => split_lines(c.as_str()),
            None => {
                let v: Vec<String> = Vec::new();
                assert(v@.map_values(|x: String| x@) =~= lines_of(Seq::empty()));
                v
            },
        }
    }

    /// The path that `to_test_file`, taken from `path`, names, where that is
    /// an existing `.sh` file.
    fn to_valid_bash_file(path: &str, to_test_file: &str, sources: &Sources) -> (r: Result<Option<String>, Error>)
        ensures
            match r {
                Ok(Some(p)) => eligible(sources@, joined_path(path@, to_test_file@)) == Ok::<bool, Fault>(true)
                    && p@ == joined_path(path@, to_test_file@),
                Ok(None) => eligible(sources@, joined_path(path@, to_test_file@)) == Ok::<bool, Fault>(false),
                Err(e) => eligible(sources@, joined_path(path@, to_test_file@)) == Err::<bool, Fault>(e@),
            },
    {
        let p = path_join(path, to_test_file);
        proof {
            reveal_strlit("sh");
            assert("sh"@ =~= script_extension());
        }
        let is_script = match path_extension(p.as_str()) {
            Some(e) => same_text(e.as_str(), "sh"),
            None => false,
        };
        if !is_script {
            return Ok(None);
        }
        match sources.lookup(p.as_str()) {
            None => Err(Error::Pending(p)),
            Some(None) => Ok(None),
            Some(Some(_)) => Ok(Some(p)),
        }
    }

    /// The directive of one style on `input`, if any.
    fn to_directive(
        input: &str,
        line_number: usize,
        on: bool,
        prefix: &str,
        base: &str,
        style: ImportStyle,
        sources: &Sources,
    ) -> (r: Result<Option<ImportStatement>, Error>)
        ensures
            match r {
                Ok(Some(i)) => directive(sources@, on, prefix@, base@, input@, line_number as int, style)
                    == Ok::<Option<Found>, Fault>(Some(found_of(i))) && i.resolved.is_none(),
                Ok(None) => directive(sources@, on, prefix@, base@, input@, line_number as int, style)
                    == Ok::<Option<Found>, Fault>(None),
                Err(e) => directive(sources@, on, prefix@, base@, input@, line_number as int, style)
                    == Err::<Option<Found>, Fault>(e@),
            },
    {
        if !on {
            return Ok(None);
        }
        match strip_prefix(input, prefix) {
            None => Ok(None),
            Some(x) => match Self::to_valid_bash_file(base, x.as_str(), sources) {
                Err(e) => Err(e),
                Ok(None) => Ok(None),
                Ok(Some(resolve_path)) => {
                    let i = ImportStatement {
                        line: String::from_str(input),
                        path: resolve_path,
                        text: x,
                        style,
                        resolved: None,
                        line_number,
                    };
                    assert(found_of(i) == Found {
                        line_number: line_number as int,
                        line: input@,
                        text: input@.subrange(prefix@.len() as int, input@.len() as int),
                        path: joined_path(base@, input@.subrange(prefix@.len() as int, input@.len() as int)),
                        style,
                    });
                    Ok(Some(i))
                },
            },
        }
    }

    /// The directive on line `line_number`, `input`, of a file whose
    /// directory is `path`.
    fn to_import(
        input: &str,
        line_number: usize,
        path: &str,
        config: &Args,
        sources: &Sources,
    ) -> (r: Result<Option<ImportStatement>, Error>)
        ensures
            match r {
                Ok(Some(i)) => scan_line(sources@, *config, path@, input@, line_number as int)
                    == Ok::<Option<Found>, Fault>(Some(found_of(i))) && i.resolved.is_none(),
                Ok(None) => scan_line(sources@, *config, path@, input@, line_number as int)
                    == Ok::<Option<Found>, Fault>(None),
                Err(e) => scan_line(sources@, *config, path@, input@, line_number as int)
                    == Err::<Option<Found>, Fault>(e@),
            },
    {
        proof {
            reveal_strlit("# import ");
            reveal_strlit("source ");
            assert("# import "@ =~= comment_prefix());
            assert("source "@ =~= source_prefix());
        }
        let c = Self::to_directive(
            input,
            line_number,
            config.replace_comment,
            "# import ",
            path,
            ImportStyle::Comment,
            sources,
        );
        match c {
            Ok(None) => {},
            _ => return c,
        }
        let root = Self::root_directory(config);
        Self::to_directive(input, line_number, config.replace_source, "source ", root.as_str(), ImportStyle::Source, sources)
    }

    /// The directory of the root file of the run.
    fn root_directory(config: &Args) -> (r: String)
        ensures
            r@ == root_base(*config),
    {
        match &config.root_path {
            Some(p) => Self::directory_of(p.as_str()),
            None => String::new(),
        }
    }

    /// The directory that paths written in the file at `path` resolve against.
    fn directory_of(path: &str) -> (r: String)
        ensures
            r@ == base_of(path@),
    {
        match path_parent(path) {
            Some(q) => q,
            None => String::new(),
        }
    }

    /// Loads every file that the directives of this file name, with their own
    /// imports, recursively; each sits one level deeper than its includer.
    pub fn load_dependents(self, config: &Args, sources: &Sources) -> (r: Result<Self, Error>)
        ensures
            match r {
                Ok(t) => t.path == self.path && t.contents == self.contents && t.nested == self.nested
                    && file_result(sources@, *config, self.path@, text_of(self), self.nested as int)
                    == Ok::<Seq<char>, Fault>(flat(t)) && loaded(sources@, *config, t),
                Err(e) => file_result(sources@, *config, self.path@, text_of(self), self.nested as int)
                    == Err::<Seq<char>, Fault>(e@),
            },
        decreases if self.nested > 512 { 1 } else { 2 * (512 - self.nested) + 1 },
    {
        let ghost store = sources@;
        let ghost d = self.nested as int;
        let found_vec = match self.imports(config, sources) {
            Err(e) => return Err(e),
            Ok(v) => v,
        };
        let ghost found = view_imports(found_vec@);
        let ghost full = children_from(store, *config, found, 0, d);
        let n = found_vec.len();
        let mut rest = found_vec;
        let mut deps: Vec<ImportStatement> = Vec::new();
        let ghost mut texts: Seq<Seq<char>> = Seq::empty();
        let mut k: usize = 0;
        proof {
            assert(rest@.subrange(0, n as int) =~= rest@);
            assert(texts + Seq::<Seq<char>>::empty() =~= texts);
        }
        while k < n
            invariant
                d == self.nested as int,
                store == sources@,
                found.len() == n,
                k <= n,
                rest@.len() == n - k,
                forall|j: int| 0 <= j < n - k ==> found_of(#[trigger] rest@[j]) == found[j + k],
                forall|j: int| 0 <= j < n - k ==> (#[trigger] rest@[j]).resolved.is_none(),
                deps@.len() == k,
                texts.len() == k,
                forall|j: int|
                    0 <= j < k ==> found_of(#[trigger] deps@[j]) == found[j] && deps@[j].resolved.is_some()
                        && flat(deps@[j].resolved.unwrap()) == texts[j] && child_loaded(
                        store,
                        *config,
                        self.nested as int,
                        deps@[j],
                    ),
                full == children_from(store, *config, found, 0, d),
                scan_from(store, *config, base_of(self.path@), lines_of(text_of(self)), 0) == Ok::<Seq<Found>, Fault>(found),
                full == match children_from(store, *config, found, k as int, d) {
                    Ok(r) => Ok::<Seq<Seq<char>>, Fault>(texts + r),
                    Err(e) => Err(e),
                },
            decreases n - k,
        {
            let ghost before = rest@;
            let mut import = rest.remove(0);
            proof {
                assert forall|j: int| 0 <= j < n - k - 1 implies found_of(#[trigger] rest@[j]) == found[j + k + 1] by {
                    assert(rest@[j] == before[j + 1]);
                }
                assert forall|j: int| 0 <= j < n - k - 1 implies (#[trigger] rest@[j]).resolved.is_none() by {
                    assert(rest@[j] == before[j + 1]);
                }
                assert(found_of(import) == found[k as int]);
            }
            let child = match BashFile::new(import.path.clone()).load(sources) {
                Err(e) => {
                    assert(children_from(store, *config, found, k as int, d) == Err::<Seq<Seq<char>>, Fault>(e@));
                    return Err(e);
                },
                Ok(c) => c,
            };
            let depth = if self.nested < CIRCULAR_CUT_OFF + 1 {
                self.nested + 1
            } else {
                CIRCULAR_CUT_OFF + 1
            };
            let loaded = match child.inner_load_dependents(depth, config, sources) {
                Err(e) => {
                    assert(children_from(store, *config, found, k as int, d) == Err::<Seq<Seq<char>>, Fault>(e@));
                    return Err(e);
                },
                Ok(c) => c,
            };
            proof {
                let t = flat(loaded);
                let p = found[k as int].path;
                assert(store.contains_key(p) && store[p].is_some());
                assert(children_from(store, *config, found, k as int, d) == match children_from(
                    store,
                    *config,
                    found,
                    k + 1,
                    d,
                ) {
                    Ok(r) => Ok::<Seq<Seq<char>>, Fault>(seq![t] + r),
                    Err(e) => Err(e),
                });
                let old_texts = texts;
                texts = texts.push(t);
                match children_from(store, *config, found, k + 1, d) {
                    Ok(r) => {
                        assert(old_texts + (seq![t] + r) =~= texts + r);
                    },
                    Err(e) => {},
                }
            }
            import.resolved = Some(loaded);
            deps.push(import);
            k = k + 1;
        }
        let mut s = self;
        s.dependents = deps;
        proof {
            lemma_tree_lines(s, found, texts, n as int);
            lemma_children_loaded(sources@, *config, s, n as int);
            assert(view_imports(s.dependents@) =~= found);
            assert(texts + Seq::<Seq<char>>::empty() =~= texts);
        }
        Ok(s)
    }

    /// Loads the imports of this file at depth `nested`, failing where that
    /// is deeper than the cut-off.
    fn inner_load_dependents(self, nested: usize, config: &Args, sources: &Sources) -> (r: Result<Self, Error>)
        ensures
            nested > CIRCULAR_CUT_OFF ==> r matches Err(Error::Circular),
            nested <= CIRCULAR_CUT_OFF ==> match r {
                Ok(t) => t.path == self.path && t.contents == self.contents && t.nested == nested
                    && file_result(sources@, *config, self.path@, text_of(self), nested as int)
                    == Ok::<Seq<char>, Fault>(flat(t)) && loaded(sources@, *config, t),
                Err(e) => file_result(sources@, *config, self.path@, text_of(self), nested as int)
                    == Err::<Seq<char>, Fault>(e@),
            },
        decreases if nested > 512 { 0 } else { 2 * (512 - nested) + 2 },
    {
        if nested > CIRCULAR_CUT_OFF {
            return Err(Error::Circular);
        }
        let mut s = self;
        s.nested = nested;
        s.load_dependents(config, sources)
    }

    /// Replaces each resolved directive line by the flattened text of its
    /// file; the file is then self-contained, with no imports left.
    pub fn resolve_dependents(self) -> (r: Self)
        ensures
            r.contents.is_some() && r.contents.unwrap()@ == flat(self),
            r.dependents@.len() == 0,
            r.path == self.path,
            r.nested == self.nested,
    {
        let text = Self::flat_text(&self);
        BashFile { path: self.path, contents: Some(text), dependents: Vec::new(), nested: self.nested }
    }

    /// The text of the tree `f`, each resolved directive line replaced by the
    /// text of its file, flattened first.
    fn flat_text(f: &BashFile) -> (r: String)
        ensures
            r@ == flat(*f),
        decreases tree_size(*f),
    {
        let mut lines = f.lines();
        let n = f.dependents.len();
        let mut k: usize = 0;
        while k < n
            invariant
                n == f.dependents@.len(),
                k <= n,
                lines@.map_values(|x: String| x@) == flat_lines(*f, k as int),
            decreases n - k,
        {
            let ghost before = lines@.map_values(|x: String| x@);
            let import = &f.dependents[k];
            match &import.resolved {
                Some(dep) => {
                    proof {
                        lemma_child_smaller(*f, k as int, n as int);
                    }
                    let text = Self::flat_text(dep);
                    if import.line_number < lines.len() {
                        let ghost t = text@;
                        lines.remove(import.line_number);
                        lines.insert(import.line_number, text);
                        proof {
                            assert(lines@.map_values(|x: String| x@) =~= before.update(import.line_number as int, t));
                        }
                    }
                },
                None => {},
            }
            k = k + 1;
        }
        join_lines(&lines)
    }

    /// Loads the file at `path`, the files that it imports, recursively, and
    /// replaces each directive line by the text it names.
    pub fn resolve(path: String, config: &Args, sources: &Sources) -> (r: Result<Self, Error>)
        ensures
            match r {
                Ok(f) => f.contents.is_some() && resolution(sources@, *config, path@) == Ok::<
                    Seq<char>,
                    Fault,
                >(f.contents.unwrap()@) && f.path == path && f.dependents@.len() == 0,
                Err(e) => resolution(sources@, *config, path@) == Err::<Seq<char>, Fault>(e@),
            },
    {
        let f = match BashFile::new(path).load(sources) {
            Err(e) => return Err(e),
            Ok(f) => f,
        };
        let g = match f.load_dependents(config, sources) {
            Err(e) => return Err(e),
            Ok(g) => g,
        };
        Ok(g.resolve_dependents())
    }

    /// The import directives of the file, in line order.
    pub fn imports(&self, config: &Args, sources: &Sources) -> (r: Result<Vec<ImportStatement>, Error>)
        ensures
            match r {
                Ok(v) => scan_from(sources@, *config, base_of(self.path@), lines_of(text_of(*self)), 0)
                    == Ok::<Seq<Found>, Fault>(view_imports(v@)) && forall|j: int|
                    0 <= j < v@.len() ==> (#[trigger] v@[j]).resolved.is_none(),
                Err(e) => scan_from(sources@, *config, base_of(self.path@), lines_of(text_of(*self)), 0)
                    == Err::<Seq<Found>, Fault>(e@),
            },
    {
        let base = Self::directory_of(self.path.as_str());
        let lines = self.lines();
        let ghost ls = lines_of(text_of(*self));
        let ghost full = scan_from(sources@, *config, base@, ls, 0);
        let mut out: Vec<ImportStatement> = Vec::new();
        let mut i: usize = 0;
        proof {
            assert(lines@.len() == ls.len());
        }
        while i < lines.len()
            invariant
                lines@.map_values(|x: String| x@) == ls,
                base@ == base_of(self.path@),
                ls == lines_of(text_of(*self)),
                i <= lines@.len(),
                full == scan_from(sources@, *config, base@, ls, 0),
                full == match scan_from(sources@, *config, base@, ls, i as int) {
                    Ok(rest) => Ok::<Seq<Found>, Fault>(view_imports(out@) + rest),
                    Err(e) => Err(e),
                },
                forall|j: int| 0 <= j < out@.len() ==> (#[trigger] out@[j]).resolved.is_none(),
            decreases lines@.len() - i,
        {
            proof {
                assert(lines@[i as int]@ == ls[i as int]);
            }
            match Self::to_import(lines[i].as_str(), i, base.as_str(), config, sources) {
                Err(e) => {
                    assert(scan_from(sources@, *config, base@, ls, i as int) == Err::<Seq<Found>, Fault>(e@));
                    return Err(e);
                },
                Ok(None) => {},
                Ok(Some(x)) => {
                    let ghost before = out@;
                    out.push(x);
                    proof {
                        assert(view_imports(out@) =~= view_imports(before).push(found_of(x)));
                        assert forall|r: Seq<Found>| true implies view_imports(out@) + r
                            =~= view_imports(before) + (seq![found_of(x)] + r) by {}
                    }
                },
            }
            i = i + 1;
        }
        proof {
            assert(view_imports(out@) + Seq::<Found>::empty() =~= view_imports(out@));
        }
        Ok(out)
    }
}

/// `t` is what loading its own text from `store` gives: its dependents are
/// the directives that its lines hold, in line order, and each has been
/// loaded in turn.
pub open spec fn loaded(store: Map<Seq<char>, Option<Seq<char>>>, cfg: Args, t: BashFile) -> bool
    decreases t, 1int, 0int,
{
    scan_from(store, cfg, base_of(t.path@), lines_of(text_of(t)), 0) == Ok::<Seq<Found>, Fault>(
        view_imports(t.dependents@),
    ) && children_loaded(store, cfg, t, t.dependents@.len() as int)
}

/// The first `k` dependents of `t` each hold their file: read from the store
/// at the dependent's path, one level below `t`, and loaded in turn.
pub open spec fn children_loaded(store: Map<Seq<char>, Option<Seq<char>>>, cfg: Args, t: BashFile, k: int) -> bool
    decreases t, 0int, k,
{
    if k <= 0 || k > t.dependents@.len() {
        true
    } else {
        children_loaded(store, cfg, t, k - 1) && match t.dependents@[k - 1].resolved {
            Some(c) => c.path == t.dependents@[k - 1].path && c.contents.is_some() && store.contains_key(c.path@)
                && store[c.path@] == Some(c.contents.unwrap()@) && c.nested == t.nested + 1
                && file_result(store, cfg, c.path@, text_of(c), c.nested as int) == Ok::<Seq<char>, Fault>(flat(c))
                && loaded(store, cfg, c),
            None => false,
        }
    }
}

/// The dependent `i` of a file at depth `d` holds its loaded file.
pub open spec fn child_loaded(store: Map<Seq<char>, Option<Seq<char>>>, cfg: Args, d: int, i: ImportStatement) -> bool {
    match i.resolved {
        Some(c) => c.path == i.path && c.contents.is_some() && store.contains_key(c.path@)
            && store[c.path@] == Some(c.contents.unwrap()@) && c.nested == d + 1
            && file_result(store, cfg, c.path@, text_of(c), c.nested as int) == Ok::<Seq<char>, Fault>(flat(c))
            && loaded(store, cfg, c),
        None => false,
    }
}

proof fn lemma_children_loaded(store: Map<Seq<char>, Option<Seq<char>>>, cfg: Args, t: BashFile, k: int)
    requires
        0 <= k <= t.dependents@.len(),
        forall|j: int| 0 <= j < t.dependents@.len() ==> child_loaded(store, cfg, t.nested as int, #[trigger] t.dependents@[j]),
    ensures
        children_loaded(store, cfg, t, k),
    decreases k,
{
    if k > 0 {
        lemma_children_loaded(store, cfg, t, k - 1);
        assert(child_loaded(store, cfg, t.nested as int, t.dependents@[k - 1]));
    }
}

/// The number of files in a loaded tree.
pub open spec fn tree_size(f: BashFile) -> nat
    decreases f, 1int, 0int,
{
    1 + children_size(f, f.dependents@.len() as int)
}

pub open spec fn children_size(f: BashFile, k: int) -> nat
    decreases f, 0int, k,
{
    if k <= 0 || k > f.dependents@.len() {
        0
    } else {
        children_size(f, k - 1) + match f.dependents@[k - 1].resolved {
            Some(c) => tree_size(c),
            None => 0,
        }
    }
}

proof fn lemma_child_smaller(f: BashFile, k: int, m: int)
    requires
        0 <= k < m <= f.dependents@.len(),
        f.dependents@[k].resolved.is_some(),
    ensures
        tree_size(f.dependents@[k].resolved.unwrap()) <= children_size(f, m),
        tree_size(f.dependents@[k].resolved.unwrap()) < tree_size(f),
    decreases m,
{
    if m > k + 1 {
        lemma_child_smaller(f, k, m - 1);
    }
    if m < f.dependents@.len() {
        lemma_children_size_grows(f, m, f.dependents@.len() as int);
    }
}

proof fn lemma_children_size_grows(f: BashFile, a: int, b: int)
    requires
        0 <= a <= b <= f.dependents@.len(),
    ensures
        children_size(f, a) <= children_size(f, b),
    decreases b,
{
    if b > a {
        lemma_children_size_grows(f, a, b - 1);
    }
}

proof fn lemma_tree_lines(t: BashFile, found: Seq<Found>, texts: Seq<Seq<char>>, k: int)
    requires
        0 <= k <= t.dependents@.len(),
        found.len() == t.dependents@.len(),
        texts.len() == found.len(),
        forall|j: int|
            0 <= j < found.len() ==> found_of(#[trigger] t.dependents@[j]) == found[j]
                && t.dependents@[j].resolved.is_some() && flat(t.dependents@[j].resolved.unwrap()) == texts[j],
    ensures
        flat_lines(t, k) == substituted(lines_of(text_of(t)), found, texts, k),
        flat_lines(t, k).len() == lines_of(text_of(t)).len(),
    decreases k,
{
    if k > 0 {
        lemma_tree_lines(t, found, texts, k - 1);
        assert(found_of(t.dependents@[k - 1]) == found[k - 1]);
    }
}

} // verus!
