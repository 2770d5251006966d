//! The types that search, policy and index share.

use crate::path::FilePath;
use vstd::prelude::*;

verus! {

/// What a file system entry is.
#[derive(Debug, Clone, Copy, PartialEq, Eq, Structural)]
pub enum EntryKind {
    File,
    Directory,
    Other,
}

/// Why a candidate matched a query.
#[derive(Debug, Clone, Copy, PartialEq, Eq, Structural)]
pub enum MatchKind {
    Empty,
    ExactBasename,
    BasenamePrefix,
    BasenameToken,
    PathComponent,
    Substring,
    Fuzzy,
    Extension,
    RootPriority,
}

/// The texts of a list of strings.
pub open spec fn texts(s: Seq<String>) -> Seq<Seq<char>> {
    s.map_values(|x: String| x@)
}

/// The path of an optional path.
pub open spec fn path_view(p: Option<FilePath>) -> Option<Seq<u8>> {
    match p {
        Some(path) => Some(path@),
        None => None,
    }
}

/// A copy of a list of strings.
pub fn copy_texts(s: &Vec<String>) -> (r: Vec<String>)
    ensures
        texts(r@) == texts(s@),
{
    let mut out: Vec<String> = Vec::new();
    let mut i: usize = 0;
    while i < s.len()
        invariant
            i <= s.len(),
            texts(out@) == texts(s@).take(i as int),
        decreases s.len() - i,
    {
        let ghost before = out@;
        out.push(s[i].clone());
        assert(texts(out@) =~= texts(before).push(s@[i as int]@));
        assert(texts(s@).take(i + 1) =~= texts(s@).take(i as int).push(s@[i as int]@));
        i += 1;
    }
    assert(texts(s@).take(i as int) =~= texts(s@));
    out
}

/// A directory that may be searched, and how.
#[derive(Debug, PartialEq, Eq)]
pub struct SearchRoot {
    pub path: FilePath,
    pub enabled: bool,
    pub priority: i32,
    pub include_hidden: bool,
    pub include_ignored: bool,
}

/// What a [`SearchRoot`] says.
pub struct RootView {
    pub path: Seq<u8>,
    pub enabled: bool,
    pub priority: i32,
    pub include_hidden: bool,
    pub include_ignored: bool,
}

impl View for SearchRoot {
    type V = RootView;

    open spec fn view(&self) -> RootView {
        RootView {
            path: self.path@,
            enabled: self.enabled,
            priority: self.priority,
            include_hidden: self.include_hidden,
            include_ignored: self.include_ignored,
        }
    }
}

impl Clone for SearchRoot {
    fn clone(&self) -> (r: Self)
        ensures
            r@ == self@,
    {
        SearchRoot {
            path: self.path.clone(),
            enabled: self.enabled,
            priority: self.priority,
            include_hidden: self.include_hidden,
            include_ignored: self.include_ignored,
        }
    }
}

impl SearchRoot {
    /// An enabled root of priority 0 that shows neither hidden nor ignored
    /// entries.
    pub fn new(path: FilePath) -> (r: Self)
        ensures
            r@ == (RootView {
                path: path@,
                enabled: true,
                priority: 0,
                include_hidden: false,
                include_ignored: false,
            }),
    {
        SearchRoot { path, enabled: true, priority: 0, include_hidden: false, include_ignored: false }
    }

    /// This root with another priority.
    pub fn with_priority(self, priority: i32) -> (r: Self)
        ensures
            r@ == (RootView { priority, ..self@ }),
    {
        SearchRoot { priority, ..self }
    }

    /// This root with its hidden entries shown or not.
    pub fn include_hidden(self, include_hidden: bool) -> (r: Self)
        ensures
            r@ == (RootView { include_hidden, ..self@ }),
    {
        SearchRoot { include_hidden, ..self }
    }

    /// This root with its ignored entries shown or not.
    pub fn include_ignored(self, include_ignored: bool) -> (r: Self)
        ensures
            r@ == (RootView { include_ignored, ..self@ }),
    {
        SearchRoot { include_ignored, ..self }
    }
}

/// The directories that may be searched.
#[derive(Debug, PartialEq, Eq)]
pub struct SearchConfig {
    pub roots: Vec<SearchRoot>,
}

/// What a list of roots says.
pub open spec fn root_views(roots: Seq<SearchRoot>) -> Seq<RootView> {
    roots.map_values(|r: SearchRoot| r@)
}

impl View for SearchConfig {
    type V = Seq<RootView>;

    open spec fn view(&self) -> Seq<RootView> {
        root_views(self.roots@)
    }
}

impl Clone for SearchConfig {
    fn clone(&self) -> (r: Self)
        ensures
            r@ == self@,
    {
        let mut roots: Vec<SearchRoot> = Vec::new();
        let mut i: usize = 0;
        assert(root_views(roots@) =~= self@.take(0));
        while i < self.roots.len()
            invariant
                i <= self.roots.len(),
                root_views(roots@) == self@.take(i as int),
            decreases self.roots.len() - i,
        {
            let copy = self.roots[i].clone();
            let ghost view = copy@;
            let ghost before = roots@;
            roots.push(copy);
            assert(root_views(roots@) =~= root_views(before).push(view));
            assert(self@.take(i + 1) =~= self@.take(i as int).push(view));
            i += 1;
        }
        assert(self@.take(i as int) =~= self@);
        SearchConfig { roots }
    }
}

/// How many results a query asks for when it does not say.
pub const DEFAULT_LIMIT: usize = 50;

/// What to look for.
#[derive(Debug, PartialEq, Eq)]
pub struct SearchQuery {
    pub query: String,
    pub include_files: bool,
    pub include_directories: bool,
    pub include_hidden: bool,
    pub include_ignored: bool,
    pub extensions: Vec<String>,
    pub limit: usize,
}

/// What a [`SearchQuery`] says.
pub struct QueryView {
    pub query: Seq<char>,
    pub include_files: bool,
    pub include_directories: bool,
    pub include_hidden: bool,
    pub include_ignored: bool,
    pub extensions: Seq<Seq<char>>,
    pub limit: usize,
}

impl View for SearchQuery {
    type V = QueryView;

    open spec fn view(&self) -> QueryView {
        QueryView {
            query: self.query@,
            include_files: self.include_files,
            include_directories: self.include_directories,
            include_hidden: self.include_hidden,
            include_ignored: self.include_ignored,
            extensions: texts(self.extensions@),
            limit: self.limit,
        }
    }
}

impl Clone for SearchQuery {
    fn clone(&self) -> (r: Self)
        ensures
            r@ == self@,
    {
        SearchQuery {
            query: self.query.clone(),
            include_files: self.include_files,
            include_directories: self.include_directories,
            include_hidden: self.include_hidden,
            include_ignored: self.include_ignored,
            extensions: copy_texts(&self.extensions),
            limit: self.limit,
        }
    }
}

impl SearchQuery {
    /// A query for files and directories that are neither hidden nor ignored,
    /// of any extension.
    pub fn new(query: &str) -> (r: Self)
        ensures
            r@ == (QueryView {
                query: query@,
                include_files: true,
                include_directories: true,
                include_hidden: false,
                include_ignored: false,
                extensions: Seq::empty(),
                limit: DEFAULT_LIMIT,
            }),
    {
        let extensions: Vec<String> = Vec::new();
        assert(texts(extensions@) =~= Seq::empty());
        SearchQuery {
            query: query.to_owned(),
            include_files: true,
            include_directories: true,
            include_hidden: false,
            include_ignored: false,
            extensions,
            limit: DEFAULT_LIMIT,
        }
    }

    /// This query with another limit.
    pub fn with_limit(self, limit: usize) -> (r: Self)
        ensures
            r@ == (QueryView { limit, ..self@ }),
    {
        SearchQuery { limit, ..self }
    }
}

/// Whether a path may be shown, and why.
#[derive(Debug, PartialEq, Eq)]
pub struct PolicyDecision {
    pub path: FilePath,
    pub allowed: bool,
    pub root: Option<FilePath>,
    pub root_priority: i32,
    pub hidden: bool,
    pub ignored: bool,
    pub sensitive: bool,
    pub reasons: Vec<String>,
}

/// What a [`PolicyDecision`] says.
#[verifier::ext_equal]
pub struct DecisionView {
    pub path: Seq<u8>,
    pub allowed: bool,
    pub root: Option<Seq<u8>>,
    pub root_priority: i32,
    pub hidden: bool,
    pub ignored: bool,
    pub sensitive: bool,
    pub reasons: Seq<Seq<char>>,
}

impl View for PolicyDecision {
    type V = DecisionView;

    open spec fn view(&self) -> DecisionView {
        DecisionView {
            path: self.path@,
            allowed: self.allowed,
            root: path_view(self.root),
            root_priority: self.root_priority,
            hidden: self.hidden,
            ignored: self.ignored,
            sensitive: self.sensitive,
            reasons: texts(self.reasons@),
        }
    }
}

} // verus!
