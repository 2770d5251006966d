//! Root scoping, default ignore rules, and sensitive-path denial.
//!
//! Providers are allowed to be broad candidate generators. This policy is the
//! gate that keeps hidden, generated, ignored, or sensitive paths out of ranked
//! search results by default.

use crate::model::{path_view, root_views, texts, DecisionView, PolicyDecision, RootView, SearchConfig, SearchQuery};
use crate::path::{components, expand_tilde, expanded, extension, file_name, is_rooted, is_within, join_appends_components, joined, name_texts, starts_at_dot, utf8_text, FilePath};
use crate::text::{ascii_lower_text, contains_text, same_text, starts_with_text, text_contains, text_starts_with, to_ascii_lower};
use vstd::prelude::*;

verus! {

/// Whether a name is hidden: it starts with a dot, and is not `.` or `..`.
pub open spec fn hidden_name(name: Seq<char>) -> bool {
    name.len() > 0 && name[0] == '.' && name != "."@ && name != ".."@
}

/// Whether any of the names is hidden.
pub open spec fn any_hidden(names: Seq<Seq<char>>) -> bool {
    exists|i: int| 0 <= i < names.len() && hidden_name(#[trigger] names[i])
}

/// Whether a name is that of a generated or tool-owned directory.
pub open spec fn ignored_name(name: Seq<char>) -> bool {
    ||| name == ".git"@
    ||| name == ".svn"@
    ||| name == ".hg"@
    ||| name == "node_modules"@
    ||| name == "target"@
    ||| name == "__pycache__"@
    ||| name == ".pytest_cache"@
    ||| name == ".mypy_cache"@
    ||| name == ".ruff_cache"@
    ||| name == ".next"@
    ||| name == ".nuxt"@
    ||| name == "dist"@
    ||| name == "build"@
    ||| name == ".turbo"@
    ||| name == ".cache"@
    ||| name == "vendor"@
    ||| name == "Pods"@
    ||| name == "DerivedData"@
    ||| name == ".gradle"@
    ||| name == "coverage"@
}

/// Whether a name is that of a place where keys or credentials are kept.
pub open spec fn sensitive_name(name: Seq<char>) -> bool {
    ||| name == ".ssh"@
    ||| name == ".gnupg"@
    ||| name == ".aws"@
    ||| name == ".azure"@
    ||| name == ".gcloud"@
    ||| name == ".kube"@
    ||| name == ".docker"@
    ||| contains_text(ascii_lower_text(name), "credentials"@)
    ||| contains_text(ascii_lower_text(name), "secret"@)
}

/// The file name of a path as text.
pub open spec fn file_name_text(path: Seq<u8>) -> Option<Seq<char>> {
    match file_name(path) {
        Some(name) => utf8_text(name),
        None => None,
    }
}

/// The extension of a path in lower case.
pub open spec fn lowercase_extension(path: Seq<u8>) -> Option<Seq<char>> {
    match extension(path) {
        Some(ext) => match utf8_text(ext) {
            Some(text) => Some(ascii_lower_text(text)),
            None => None,
        },
        None => None,
    }
}

/// Whether a file name is that of an environment file.
pub open spec fn environment_name(name: Seq<char>) -> bool {
    let lower = ascii_lower_text(name);
    lower == ".env"@ || starts_with_text(lower, ".env."@)
}

/// Whether an extension is that of a private key.
pub open spec fn key_extension(ext: Seq<char>) -> bool {
    ext == "pem"@ || ext == "key"@ || ext == "p12"@ || ext == "pfx"@
}

/// Whether a path of these names is ignored.
pub open spec fn path_ignored(path: Seq<u8>, names: Seq<Seq<char>>) -> bool {
    ||| exists|i: int| 0 <= i < names.len() && ignored_name(#[trigger] names[i])
    ||| file_name_text(path) == Some(".DS_Store"@)
}

/// Whether a path of these names is sensitive.
pub open spec fn path_sensitive(path: Seq<u8>, names: Seq<Seq<char>>) -> bool {
    ||| exists|i: int| 0 <= i < names.len() && sensitive_name(#[trigger] names[i])
    ||| (file_name_text(path) matches Some(name) && environment_name(name))
    ||| (lowercase_extension(path) matches Some(ext) && key_extension(ext))
}

/// Whether a root is enabled and holds the path.
pub open spec fn holds(root: RootView, path: Seq<u8>) -> bool {
    root.enabled && is_within(path, root.path)
}

/// The root that decides on a path: of the enabled roots that hold it the one
/// with the most components, and of several such the last.
pub open spec fn matching_root(roots: Seq<RootView>, path: Seq<u8>) -> Option<int>
    decreases roots.len(),
{
    if roots.len() == 0 {
        None
    } else {
        let last = roots.len() - 1;
        match matching_root(roots.drop_last(), path) {
            Some(best) => if holds(roots[last], path) && components(roots[best].path).len()
                <= components(roots[last].path).len() {
                Some(last)
            } else {
                Some(best)
            },
            None => if holds(roots[last], path) {
                Some(last)
            } else {
                None
            },
        }
    }
}

/// The reasons for a path inside a root: that it is inside, and each denial.
pub open spec fn inside_reasons(
    sensitive: bool,
    hidden_denied: bool,
    ignored_denied: bool,
) -> Seq<Seq<char>> {
    let r0 = seq!["inside-root"@];
    let r1 = if sensitive {
        r0.push("sensitive-deny"@)
    } else {
        r0
    };
    let r2 = if hidden_denied {
        r1.push("hidden-deny"@)
    } else {
        r1
    };
    if ignored_denied {
        r2.push("ignored-deny"@)
    } else {
        r2
    }
}

/// The decision on a path, for a query that includes hidden or ignored entries
/// or not. Hidden and ignored are judged below the root, sensitive anywhere.
pub open spec fn decide(
    roots: Seq<RootView>,
    path: Seq<u8>,
    query_hidden: bool,
    query_ignored: bool,
) -> DecisionView {
    let all = components(path);
    let sensitive = path_sensitive(path, name_texts(all));
    match matching_root(roots, path) {
        None => DecisionView {
            path,
            allowed: false,
            root: None,
            root_priority: 0,
            hidden: any_hidden(name_texts(all)),
            ignored: path_ignored(path, name_texts(all)),
            sensitive,
            reasons: seq!["outside-configured-roots"@],
        },
        Some(at) => {
            let root = roots[at];
            let below = name_texts(all.skip(components(root.path).len() as int));
            let hidden = any_hidden(below);
            let ignored = path_ignored(path, below);
            let hidden_denied = hidden && !(query_hidden || root.include_hidden);
            let ignored_denied = ignored && !(query_ignored || root.include_ignored);
            DecisionView {
                path,
                allowed: !sensitive && !hidden_denied && !ignored_denied,
                root: Some(root.path),
                root_priority: root.priority,
                hidden,
                ignored,
                sensitive,
                reasons: inside_reasons(sensitive, hidden_denied, ignored_denied),
            }
        },
    }
}

/// Whether a query, if there is one, includes hidden entries.
pub open spec fn query_includes_hidden(query: Option<&SearchQuery>) -> bool {
    match query {
        Some(q) => q.include_hidden,
        None => false,
    }
}

/// Whether a query, if there is one, includes ignored entries.
pub open spec fn query_includes_ignored(query: Option<&SearchQuery>) -> bool {
    match query {
        Some(q) => q.include_ignored,
        None => false,
    }
}

/// Decides which paths may be shown. The home directory is what a leading `~`
/// of a path stands for, where it is known.
#[derive(Debug)]
pub struct PathPolicy {
    config: SearchConfig,
    home: Option<FilePath>,
}

impl View for PathPolicy {
    type V = Seq<RootView>;

    closed spec fn view(&self) -> Seq<RootView> {
        self.config@
    }
}

impl Clone for PathPolicy {
    fn clone(&self) -> (r: Self)
        ensures
            r@ == self@,
            r.home() == self.home(),
    {
        let home = match &self.home {
            Some(path) => Some(path.clone()),
            None => None,
        };
        PathPolicy { config: self.config.clone(), home }
    }
}

/// The texts of the components of a path that are names in UTF-8.
pub fn normal_components(path: &FilePath) -> (r: Vec<String>)
    ensures
        texts(r@) == name_texts(components(path@)),
{
    assert(components(path@).skip(0) =~= components(path@));
    path.names_from(0)
}

/// Whether any of the components is hidden.
pub fn is_hidden(components: &Vec<String>) -> (r: bool)
    ensures
        r == any_hidden(texts(components@)),
{
    let mut i: usize = 0;
    while i < components.len()
        invariant
            i <= components.len(),
            forall|k: int| 0 <= k < i ==> !hidden_name(#[trigger] texts(components@)[k]),
        decreases components.len() - i,
    {
        let name = components[i].as_str();
        assert(name@ == texts(components@)[i as int]);
        if starts_with_dot(name) && !same_text(name, ".") && !same_text(name, "..") {
            return true;
        }
        i += 1;
    }
    false
}

fn starts_with_dot(name: &str) -> (r: bool)
    ensures
        r == (name@.len() > 0 && name@[0] == '.'),
{
    let r: bool = text_starts_with(name, ".");
    proof {
        reveal_strlit(".");
        assert("."@ =~= seq!['.']);
        if name@.len() > 0 && name@[0] == '.' {
            assert(name@.subrange(0, 1) =~= "."@);
        }
        if r {
            assert(name@.subrange(0, 1)[0] == "."@[0]);
        }
    }
    r
}

fn is_ignored_name(name: &str) -> (r: bool)
    ensures
        r == ignored_name(name@),
{
    same_text(name, ".git") || same_text(name, ".svn") || same_text(name, ".hg") || same_text(
        name,
        "node_modules",
    ) || same_text(name, "target") || same_text(name, "__pycache__") || same_text(
        name,
        ".pytest_cache",
    ) || same_text(name, ".mypy_cache") || same_text(name, ".ruff_cache") || same_text(
        name,
        ".next",
    ) || same_text(name, ".nuxt") || same_text(name, "dist") || same_text(name, "build")
        || same_text(name, ".turbo") || same_text(name, ".cache") || same_text(name, "vendor")
        || same_text(name, "Pods") || same_text(name, "DerivedData") || same_text(name, ".gradle")
        || same_text(name, "coverage")
}

/// Whether a path with these components is ignored: it passes through a
/// generated directory, or is a directory's own settings file.
pub fn is_ignored(path: &FilePath, components: &Vec<String>) -> (r: bool)
    ensures
        r == path_ignored(path@, texts(components@)),
{
    let mut i: usize = 0;
    while i < components.len()
        invariant
            i <= components.len(),
            forall|k: int| 0 <= k < i ==> !ignored_name(#[trigger] texts(components@)[k]),
        decreases components.len() - i,
    {
        assert(components@[i as int]@ == texts(components@)[i as int]);
        if is_ignored_name(components[i].as_str()) {
            return true;
        }
        i += 1;
    }
    match path.file_name_text() {
        Some(name) => same_text(name.as_str(), ".DS_Store"),
        None => false,
    }
}

fn is_sensitive_name(name: &str) -> (r: bool)
    ensures
        r == sensitive_name(name@),
{
    let lower = to_ascii_lower(name);
    same_text(name, ".ssh") || same_text(name, ".gnupg") || same_text(name, ".aws") || same_text(
        name,
        ".azure",
    ) || same_text(name, ".gcloud") || same_text(name, ".kube") || same_text(name, ".docker")
        || text_contains(lower.as_str(), "credentials") || text_contains(lower.as_str(), "secret")
}

/// Whether a path with these components is sensitive: it passes through a place
/// of keys or credentials, or is an environment file or a private key.
pub fn is_sensitive(path: &FilePath, components: &Vec<String>) -> (r: bool)
    ensures
        r == path_sensitive(path@, texts(components@)),
{
    let mut i: usize = 0;
    while i < components.len()
        invariant
            i <= components.len(),
            forall|k: int| 0 <= k < i ==> !sensitive_name(#[trigger] texts(components@)[k]),
        decreases components.len() - i,
    {
        assert(components@[i as int]@ == texts(components@)[i as int]);
        if is_sensitive_name(components[i].as_str()) {
            return true;
        }
        i += 1;
    }
    match path.file_name_text() {
        Some(name) => {
            let lower = to_ascii_lower(name.as_str());
            if same_text(lower.as_str(), ".env") || text_starts_with(lower.as_str(), ".env.") {
                return true;
            }
        },
        None => {},
    }
    match path.extension_text() {
        Some(ext) => {
            let lower = to_ascii_lower(ext.as_str());
            let e = lower.as_str();
            same_text(e, "pem") || same_text(e, "key") || same_text(e, "p12") || same_text(e, "pfx")
        },
        None => false,
    }
}

impl PathPolicy {
    /// The home directory, where it is known.
    pub closed spec fn home(&self) -> Option<Seq<u8>> {
        path_view(self.home)
    }

    /// A policy over these roots that knows no home directory: a leading `~` is
    /// then an ordinary name.
    pub fn new(config: SearchConfig) -> (r: Self)
        ensures
            r@ == config@,
            r.home() is None,
    {
        PathPolicy { config, home: None }
    }

    /// This policy with the home directory that the environment names, if any.
    pub fn with_home(self, home: Option<FilePath>) -> (r: Self)
        ensures
            r@ == self@,
            r.home() == path_view(home),
    {
        PathPolicy { config: self.config, home }
    }

    fn matching_root(&self, path: &FilePath) -> (r: Option<usize>)
        ensures
            match r {
                Some(at) => at < self.config.roots@.len() && matching_root(self@, path@) == Some(
                    at as int,
                ),
                None => matching_root(self@, path@) is None,
            },
    {
        let roots = &self.config.roots;
        let mut best: Option<usize> = None;
        let mut i: usize = 0;
        assert(root_views(roots@).take(0) =~= Seq::empty());
        while i < roots.len()
            invariant
                i <= roots.len(),
                match best {
                    Some(at) => at < i && matching_root(
                        root_views(roots@).take(i as int),
                        path@,
                    ) == Some(at as int),
                    None => matching_root(root_views(roots@).take(i as int), path@) is None,
                },
            decreases roots.len() - i,
        {
            let ghost views = root_views(roots@).take(i + 1);
            assert(views.drop_last() =~= root_views(roots@).take(i as int));
            assert(views[i as int] == roots@[i as int]@);
            if roots[i].enabled && path.starts_with(&roots[i].path) {
                match best {
                    Some(at) => {
                        assert(views[at as int] == roots@[at as int]@);
                        if roots[at].path.component_count() <= roots[i].path.component_count() {
                            best = Some(i);
                        }
                    },
                    None => {
                        best = Some(i);
                    },
                }
            }
            i += 1;
        }
        assert(root_views(roots@).take(i as int) =~= root_views(roots@));
        best
    }

    /// Decides whether a path may be shown, with its leading `~` expanded.
    fn judge(&self, path: &FilePath, query: Option<&SearchQuery>) -> (r: PolicyDecision)
        ensures
            r@ == decide(
                self@,
                path@,
                query_includes_hidden(query),
                query_includes_ignored(query),
            ),
    {
        let full_components = normal_components(path);
        let sensitive: bool = is_sensitive(path, &full_components);
        let mut reasons: Vec<String> = Vec::new();
        match self.matching_root(path) {
            None => {
                reasons.push("outside-configured-roots".to_owned());
                let decision = PolicyDecision {
                    path: path.clone(),
                    allowed: false,
                    root: None,
                    root_priority: 0,
                    hidden: is_hidden(&full_components),
                    ignored: is_ignored(path, &full_components),
                    sensitive,
                    reasons,
                };
                assert(decision@.reasons =~= seq!["outside-configured-roots"@]);
                decision
            },
            Some(at) => {
                let root = &self.config.roots[at];
                assert(self@[at as int] == root@);
                proof {
                    lemma_matching_root_holds(self@, path@);
                }
                let relative_components = path.names_from(root.path.component_count());
                let hidden: bool = is_hidden(&relative_components);
                let ignored: bool = is_ignored(path, &relative_components);
                let mut allowed: bool = true;
                reasons.push("inside-root".to_owned());
                assert(texts(reasons@) =~= seq!["inside-root"@]);
                if sensitive {
                    allowed = false;
                    push_reason(&mut reasons, "sensitive-deny");
                }
                let query_hidden: bool = match query {
                    Some(q) => q.include_hidden,
                    None => false,
                };
                let query_ignored: bool = match query {
                    Some(q) => q.include_ignored,
                    None => false,
                };
                if hidden && !(query_hidden || root.include_hidden) {
                    allowed = false;
                    push_reason(&mut reasons, "hidden-deny");
                }
                if ignored && !(query_ignored || root.include_ignored) {
                    allowed = false;
                    push_reason(&mut reasons, "ignored-deny");
                }
                PolicyDecision {
                    path: path.clone(),
                    allowed,
                    root: Some(root.path.clone()),
                    root_priority: root.priority,
                    hidden,
                    ignored,
                    sensitive,
                    reasons,
                }
            },
        }
    }

    /// Decides whether a path may be shown, to this query if there is one. A
    /// leading `~` is replaced by the home directory before the path is judged.
    pub fn evaluate(&self, path: &FilePath, query: Option<&SearchQuery>) -> (r: PolicyDecision)
        ensures
            r@ == decide(
                self@,
                expanded(path@, self.home()),
                query_includes_hidden(query),
                query_includes_ignored(query),
            ),
    {
        let home = match &self.home {
            Some(path) => Some(path),
            None => None,
        };
        let target = expand_tilde(path, home);
        self.judge(&target, query)
    }
}

fn push_reason(reasons: &mut Vec<String>, reason: &str)
    ensures
        texts(final(reasons)@) == texts(old(reasons)@).push(reason@),
{
    reasons.push(reason.to_owned());
    assert(texts(reasons@) =~= texts(old(reasons)@).push(reason@));
}

proof fn lemma_matching_root_holds(roots: Seq<RootView>, path: Seq<u8>)
    ensures
        matching_root(roots, path) matches Some(at) ==> 0 <= at < roots.len() && holds(
            roots[at],
            path,
        ),
    decreases roots.len(),
{
    if roots.len() > 0 {
        lemma_matching_root_holds(roots.drop_last(), path);
    }
}

/// The deciding root is an enabled root that holds the path; no enabled root
/// that holds it has more components, and none after it has as many. There is
/// one exactly where some enabled root holds the path.
pub proof fn matching_root_is_most_specific(roots: Seq<RootView>, path: Seq<u8>)
    ensures
        match matching_root(roots, path) {
            Some(at) => {
                &&& 0 <= at < roots.len()
                &&& holds(roots[at], path)
                &&& forall|j: int|
                    0 <= j < roots.len() && holds(#[trigger] roots[j], path) ==> {
                        let n = components(roots[j].path).len();
                        let best = components(roots[at].path).len();
                        n <= best && (j > at ==> n < best)
                    }
            },
            None => forall|j: int| 0 <= j < roots.len() ==> !holds(#[trigger] roots[j], path),
        },
    decreases roots.len(),
{
    if roots.len() > 0 {
        let rest = roots.drop_last();
        matching_root_is_most_specific(rest, path);
        assert forall|j: int| 0 <= j < roots.len() - 1 implies #[trigger] roots[j] == rest[j] by {}
    }
}

/// A path is shown exactly if an enabled root holds it, it is not sensitive,
/// and, where it is hidden or ignored below that root, the query or the root
/// includes such paths.
pub proof fn shown_exactly_when(
    roots: Seq<RootView>,
    path: Seq<u8>,
    query_hidden: bool,
    query_ignored: bool,
)
    ensures
        ({
            let d = decide(roots, path, query_hidden, query_ignored);
            d.allowed <==> {
                &&& matching_root(roots, path) matches Some(at)
                &&& !path_sensitive(path, name_texts(components(path)))
                &&& d.hidden ==> query_hidden || roots[at].include_hidden
                &&& d.ignored ==> query_ignored || roots[at].include_ignored
            }
        }),
{
}

/// A sensitive path is denied whatever the roots and the query include.
pub proof fn sensitive_is_always_denied(
    roots: Seq<RootView>,
    path: Seq<u8>,
    query_hidden: bool,
    query_ignored: bool,
)
    requires
        path_sensitive(path, name_texts(components(path))),
    ensures
        !decide(roots, path, query_hidden, query_ignored).allowed,
        decide(roots, path, query_hidden, query_ignored).sensitive,
{
}

/// A path that no enabled root holds is denied, and that is the only reason.
pub proof fn outside_is_denied(
    roots: Seq<RootView>,
    path: Seq<u8>,
    query_hidden: bool,
    query_ignored: bool,
)
    requires
        forall|j: int| 0 <= j < roots.len() ==> !holds(#[trigger] roots[j], path),
    ensures
        !decide(roots, path, query_hidden, query_ignored).allowed,
        decide(roots, path, query_hidden, query_ignored).root is None,
        decide(roots, path, query_hidden, query_ignored).reasons
            == seq!["outside-configured-roots"@],
{
    matching_root_is_most_specific(roots, path);
}

/// A path is shown exactly if being inside a root is all there is to say.
pub proof fn shown_without_other_reasons(
    roots: Seq<RootView>,
    path: Seq<u8>,
    query_hidden: bool,
    query_ignored: bool,
)
    ensures
        ({
            let d = decide(roots, path, query_hidden, query_ignored);
            d.allowed <==> d.reasons == seq!["inside-root"@]
        }),
{
    reveal_strlit("inside-root");
    reveal_strlit("outside-configured-roots");
    let d = decide(roots, path, query_hidden, query_ignored);
    if matching_root(roots, path) is None {
        assert(d.reasons[0].len() != "inside-root"@.len());
    } else if !d.allowed {
        assert(d.reasons.len() > 1);
    }
}

/// What a query shows, a query that includes more shows too.
pub proof fn including_more_shows_more(
    roots: Seq<RootView>,
    path: Seq<u8>,
    query_hidden: bool,
    query_ignored: bool,
    more_hidden: bool,
    more_ignored: bool,
)
    requires
        query_hidden ==> more_hidden,
        query_ignored ==> more_ignored,
        decide(roots, path, query_hidden, query_ignored).allowed,
    ensures
        decide(roots, path, more_hidden, more_ignored).allowed,
{
}

/// The names of a root itself do not hide what lies below it: of a path joined
/// to the only root, hidden is judged on the joined part alone.
pub proof fn root_names_do_not_hide(
    root: RootView,
    rest: Seq<u8>,
    query_hidden: bool,
    query_ignored: bool,
)
    requires
        root.enabled,
        root.path.len() > 0,
        !is_rooted(rest),
        !starts_at_dot(rest),
    ensures
        ({
            let d = decide(seq![root], joined(root.path, rest), query_hidden, query_ignored);
            &&& d.root == Some(root.path)
            &&& d.root_priority == root.priority
            &&& d.hidden == any_hidden(name_texts(components(rest)))
        }),
{
    let path = joined(root.path, rest);
    join_appends_components(root.path, rest);
    assert(seq![root].drop_last() =~= Seq::empty());
    assert(matching_root(seq![root].drop_last(), path) is None);
    assert(matching_root(seq![root], path) == Some(0int));
    assert(components(path).skip(components(root.path).len() as int) =~= components(rest));
}

/// Whether a path is hidden or ignored is judged by its names below the root that
/// decides, whatever the names of the root are: it is hidden where one of them
/// starts with a dot, and ignored where one is that of a generated or tool-owned
/// directory, or the file is a directory's own settings file.
pub proof fn judged_by_the_names_below_the_root(
    roots: Seq<RootView>,
    path: Seq<u8>,
    at: int,
    more: Seq<Seq<u8>>,
    query_hidden: bool,
    query_ignored: bool,
)
    requires
        matching_root(roots, path) == Some(at),
        components(path) == components(roots[at].path) + more,
    ensures
        ({
            let d = decide(roots, path, query_hidden, query_ignored);
            let names = name_texts(more);
            &&& d.hidden <==> exists|i: int|
                0 <= i < names.len() && {
                    let n = #[trigger] names[i];
                    n.len() > 0 && n[0] == '.' && n != "."@ && n != ".."@
                }
            &&& d.ignored <==> file_name_text(path) == Some(".DS_Store"@) || exists|i: int|
                0 <= i < names.len() && {
                    let n = #[trigger] names[i];
                    ||| n == ".git"@
                    ||| n == ".svn"@
                    ||| n == ".hg"@
                    ||| n == "node_modules"@
                    ||| n == "target"@
                    ||| n == "__pycache__"@
                    ||| n == ".pytest_cache"@
                    ||| n == ".mypy_cache"@
                    ||| n == ".ruff_cache"@
                    ||| n == ".next"@
                    ||| n == ".nuxt"@
                    ||| n == "dist"@
                    ||| n == "build"@
                    ||| n == ".turbo"@
                    ||| n == ".cache"@
                    ||| n == "vendor"@
                    ||| n == "Pods"@
                    ||| n == "DerivedData"@
                    ||| n == ".gradle"@
                    ||| n == "coverage"@
                }
        }),
{
    let root = roots[at];
    assert(components(path).skip(components(root.path).len() as int) =~= more);
    let d = decide(roots, path, query_hidden, query_ignored);
    let names = name_texts(more);
    assert(d.hidden == any_hidden(names));
    assert(d.ignored == path_ignored(path, names));
    if any_hidden(names) {
        let i = choose|i: int| 0 <= i < names.len() && hidden_name(#[trigger] names[i]);
        assert(hidden_name(names[i]));
    }
    assert forall|i: int| 0 <= i < names.len() implies hidden_name(#[trigger] names[i]) == (
    names[i].len() > 0 && names[i][0] == '.' && names[i] != "."@ && names[i] != ".."@) by {}
}

/// Of a path joined to the only root, hidden and ignored are judged on the joined
/// part alone, whatever the names of the root are: it is ignored exactly where
/// one of the joined names is that of a generated or tool-owned directory, or the
/// file is a directory's own settings file.
pub proof fn root_names_do_not_ignore(
    root: RootView,
    rest: Seq<u8>,
    query_hidden: bool,
    query_ignored: bool,
)
    requires
        root.enabled,
        root.path.len() > 0,
        !is_rooted(rest),
        !starts_at_dot(rest),
    ensures
        ({
            let path = joined(root.path, rest);
            let d = decide(seq![root], path, query_hidden, query_ignored);
            let names = name_texts(components(rest));
            &&& d.hidden <==> exists|i: int|
                0 <= i < names.len() && {
                    let n = #[trigger] names[i];
                    n.len() > 0 && n[0] == '.' && n != "."@ && n != ".."@
                }
            &&& d.ignored <==> file_name_text(path) == Some(".DS_Store"@) || exists|i: int|
                0 <= i < names.len() && {
                    let n = #[trigger] names[i];
                    ||| n == ".git"@
                    ||| n == ".svn"@
                    ||| n == ".hg"@
                    ||| n == "node_modules"@
                    ||| n == "target"@
                    ||| n == "__pycache__"@
                    ||| n == ".pytest_cache"@
                    ||| n == ".mypy_cache"@
                    ||| n == ".ruff_cache"@
                    ||| n == ".next"@
                    ||| n == ".nuxt"@
                    ||| n == "dist"@
                    ||| n == "build"@
                    ||| n == ".turbo"@
                    ||| n == ".cache"@
                    ||| n == "vendor"@
                    ||| n == "Pods"@
                    ||| n == "DerivedData"@
                    ||| n == ".gradle"@
                    ||| n == "coverage"@
                }
        }),
{
    let path = joined(root.path, rest);
    join_appends_components(root.path, rest);
    assert(seq![root].drop_last() =~= Seq::empty());
    assert(matching_root(seq![root].drop_last(), path) is None);
    assert(matching_root(seq![root], path) == Some(0int));
    judged_by_the_names_below_the_root(
        seq![root],
        path,
        0,
        components(rest),
        query_hidden,
        query_ignored,
    );
}

/// Outside every root, hidden and ignored are judged on all names of the path.
pub proof fn judged_by_all_names_outside(
    roots: Seq<RootView>,
    path: Seq<u8>,
    query_hidden: bool,
    query_ignored: bool,
)
    requires
        forall|j: int| 0 <= j < roots.len() ==> !holds(#[trigger] roots[j], path),
    ensures
        ({
            let d = decide(roots, path, query_hidden, query_ignored);
            let names = name_texts(components(path));
            &&& d.hidden <==> exists|i: int|
                0 <= i < names.len() && {
                    let n = #[trigger] names[i];
                    n.len() > 0 && n[0] == '.' && n != "."@ && n != ".."@
                }
            &&& d.ignored <==> file_name_text(path) == Some(".DS_Store"@) || exists|i: int|
                0 <= i < names.len() && {
                    let n = #[trigger] names[i];
                    ||| n == ".git"@
                    ||| n == ".svn"@
                    ||| n == ".hg"@
                    ||| n == "node_modules"@
                    ||| n == "target"@
                    ||| n == "__pycache__"@
                    ||| n == ".pytest_cache"@
                    ||| n == ".mypy_cache"@
                    ||| n == ".ruff_cache"@
                    ||| n == ".next"@
                    ||| n == ".nuxt"@
                    ||| n == "dist"@
                    ||| n == "build"@
                    ||| n == ".turbo"@
                    ||| n == ".cache"@
                    ||| n == "vendor"@
                    ||| n == "Pods"@
                    ||| n == "DerivedData"@
                    ||| n == ".gradle"@
                    ||| n == "coverage"@
                }
        }),
{
    matching_root_is_most_specific(roots, path);
    let d = decide(roots, path, query_hidden, query_ignored);
    let names = name_texts(components(path));
    assert(d.hidden == any_hidden(names));
    assert(d.ignored == path_ignored(path, names));
    assert forall|i: int| 0 <= i < names.len() implies hidden_name(#[trigger] names[i]) == (
    names[i].len() > 0 && names[i][0] == '.' && names[i] != "."@ && names[i] != ".."@) by {}
}

/// A path is sensitive exactly where one of its names, the root's among them, is
/// that of a place of keys, or speaks of credentials or secrets in any case of
/// its letters, or where its file is an environment file or a private key.
pub proof fn sensitive_exactly_when(
    roots: Seq<RootView>,
    path: Seq<u8>,
    query_hidden: bool,
    query_ignored: bool,
)
    ensures
        ({
            let d = decide(roots, path, query_hidden, query_ignored);
            let names = name_texts(components(path));
            d.sensitive <==> {
                ||| exists|i: int|
                    0 <= i < names.len() && {
                        let n = #[trigger] names[i];
                        ||| n == ".ssh"@
                        ||| n == ".gnupg"@
                        ||| n == ".aws"@
                        ||| n == ".azure"@
                        ||| n == ".gcloud"@
                        ||| n == ".kube"@
                        ||| n == ".docker"@
                        ||| contains_text(ascii_lower_text(n), "credentials"@)
                        ||| contains_text(ascii_lower_text(n), "secret"@)
                    }
                ||| (file_name_text(path) matches Some(n) && (ascii_lower_text(n) == ".env"@
                    || starts_with_text(ascii_lower_text(n), ".env."@)))
                ||| (extension(path) matches Some(e) && (utf8_text(e) matches Some(t) && {
                    let ext = ascii_lower_text(t);
                    ext == "pem"@ || ext == "key"@ || ext == "p12"@ || ext == "pfx"@
                }))
            }
        }),
{
    let names = name_texts(components(path));
    let d = decide(roots, path, query_hidden, query_ignored);
    assert(d.sensitive == path_sensitive(path, names));
    assert forall|i: int| 0 <= i < names.len() implies sensitive_name(#[trigger] names[i]) == {
        let n = names[i];
        ||| n == ".ssh"@
        ||| n == ".gnupg"@
        ||| n == ".aws"@
        ||| n == ".azure"@
        ||| n == ".gcloud"@
        ||| n == ".kube"@
        ||| n == ".docker"@
        ||| contains_text(ascii_lower_text(n), "credentials"@)
        ||| contains_text(ascii_lower_text(n), "secret"@)
    } by {}
}

/// The file name of a path as text is that of its last component, and its
/// extension in lower case that of its extension.
pub proof fn names_of_files_as_text(path: Seq<u8>)
    ensures
        file_name(path) is None ==> file_name_text(path) is None,
        file_name(path) matches Some(name) ==> file_name_text(path) == utf8_text(name),
        extension(path) is None ==> lowercase_extension(path) is None,
        extension(path) matches Some(ext) ==> match utf8_text(ext) {
            Some(text) => lowercase_extension(path) == Some(ascii_lower_text(text)),
            None => lowercase_extension(path) is None,
        },
{
}

/// A decision is about the path that was asked about. Inside a root it names the
/// root and its priority, and gives its reasons in order: that the path is
/// inside, and each denial. Outside it names no root, and its priority is zero.
pub proof fn decisions_give_their_grounds(
    roots: Seq<RootView>,
    path: Seq<u8>,
    query_hidden: bool,
    query_ignored: bool,
)
    ensures
        ({
            let d = decide(roots, path, query_hidden, query_ignored);
            &&& d.path == path
            &&& matching_root(roots, path) is None ==> d.root is None && d.root_priority == 0
            &&& matching_root(roots, path) matches Some(at) ==> {
                let none = Seq::<Seq<char>>::empty();
                &&& d.root == Some(roots[at].path)
                &&& d.root_priority == roots[at].priority
                &&& d.reasons == seq!["inside-root"@] + (if d.sensitive {
                    seq!["sensitive-deny"@]
                } else {
                    none
                }) + (if d.hidden && !query_hidden && !roots[at].include_hidden {
                    seq!["hidden-deny"@]
                } else {
                    none
                }) + (if d.ignored && !query_ignored && !roots[at].include_ignored {
                    seq!["ignored-deny"@]
                } else {
                    none
                })
            }
        }),
{
    let d = decide(roots, path, query_hidden, query_ignored);
    if let Some(at) = matching_root(roots, path) {
        let none = Seq::<Seq<char>>::empty();
        assert(d.reasons =~= seq!["inside-root"@] + (if d.sensitive {
            seq!["sensitive-deny"@]
        } else {
            none
        }) + (if d.hidden && !query_hidden && !roots[at].include_hidden {
            seq!["hidden-deny"@]
        } else {
            none
        }) + (if d.ignored && !query_ignored && !roots[at].include_ignored {
            seq!["ignored-deny"@]
        } else {
            none
        }));
    }
}

/// A root holds a path where it is enabled and the path lies at or below it.
pub proof fn roots_hold_what_lies_below(root: RootView, path: Seq<u8>)
    ensures
        holds(root, path) <==> root.enabled && components(root.path).is_prefix_of(
            components(path),
        ),
{
}

/// A query includes what it says, and the lack of one nothing.
pub proof fn queries_include_what_they_say(query: &SearchQuery)
    ensures
        query_includes_hidden(Some(query)) == query.include_hidden,
        query_includes_ignored(Some(query)) == query.include_ignored,
        !query_includes_hidden(None),
        !query_includes_ignored(None),
{
}

} // verus!
