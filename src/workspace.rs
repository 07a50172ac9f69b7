use vstd::prelude::*;

verus! {

/// The parts of a workspace's root manifest that the library reads.
pub struct CargoToml {
    pub package: Package,
    pub workspace: Workspace,
}

/// The package section of a root manifest.
pub struct Package {
    pub name: String,
    pub version: String,
    pub edition: String,
}

/// The workspace section of a root manifest: member paths, in order.
pub struct Workspace {
    pub members: Vec<String>,
}

/// Options for command collection.
pub struct TauriHelperOptions {
    /// Collect every command function, marked or not.
    pub collect_all: bool,
}

impl TauriHelperOptions {
    pub fn new(collect_all: bool) -> (r: Self)
        ensures
            r.collect_all == collect_all,
    {
        Self { collect_all }
    }
}

impl Default for TauriHelperOptions {
    /// Only marked functions are collected.
    fn default() -> (r: Self)
        ensures
            !r.collect_all,
    {
        Self { collect_all: false }
    }
}

/// The name of the package that declares the workspace.
pub fn get_workspace_pkg_name(workspace: &CargoToml) -> (r: String)
    ensures
        r@ == workspace.package.name@,
{
    workspace.package.name.clone()
}

/// The member paths that the workspace lists, in order.
pub fn workspace_members(workspace: &CargoToml) -> (r: Vec<String>)
    ensures
        r@ == workspace.workspace.members@,
{
    let mut out: Vec<String> = Vec::new();
    let n = workspace.workspace.members.len();
    let mut i: usize = 0;
    while i < n
        invariant
            n == workspace.workspace.members@.len(),
            i <= n,
            out@ == workspace.workspace.members@.take(i as int),
        decreases n - i,
    {
        out.push(workspace.workspace.members[i].clone());
        assert(out@ =~= workspace.workspace.members@.take(i + 1));
        i = i + 1;
    }
    assert(workspace.workspace.members@.take(n as int) =~= workspace.workspace.members@);
    out
}

/// The section header that makes a manifest a workspace root.
pub open spec fn workspace_header() -> Seq<char> {
    seq!['[', 'w', 'o', 'r', 'k', 's', 'p', 'a', 'c', 'e', ']']
}

/// Does `pattern` occur in `text`?
pub open spec fn occurs_in(pattern: Seq<char>, text: Seq<char>) -> bool {
    exists|i: int|
        0 <= i && i + pattern.len() <= text.len() && #[trigger] text.subrange(i, i + pattern.len())
            == pattern
}

/// Does a manifest's text declare a workspace, that is, hold `[workspace]`?
pub fn is_workspace_manifest(contents: &str) -> (r: bool)
    ensures
        r == occurs_in(workspace_header(), contents@),
{
    proof {
        reveal_strlit("[workspace]");
    }
    let pat = "[workspace]";
    assert(pat@ =~= workspace_header());
    let n = contents.unicode_len();
    let m = pat.unicode_len();
    if n < m {
        return false;
    }
    let mut i: usize = 0;
    while i <= n - m
        invariant
            n == contents@.len(),
            m == pat@.len(),
            pat@ == workspace_header(),
            m <= n,
            i <= n - m + 1,
            forall|k: int| 0 <= k < i ==> #[trigger] contents@.subrange(k, k + m) != pat@,
        decreases n - m + 1 - i,
    {
        let mut j: usize = 0;
        while j < m && contents.get_char(i + j) == pat.get_char(j)
            invariant
                n == contents@.len(),
                m == pat@.len(),
                i + m <= n,
                j <= m,
                forall|k: int| 0 <= k < j ==> contents@[i + k] == pat@[k],
            decreases m - j,
        {
            j = j + 1;
        }
        if j == m {
            assert(contents@.subrange(i as int, i + m) =~= pat@);
            return true;
        }
        assert(contents@.subrange(i as int, i + m)[j as int] != pat@[j as int]);
        i = i + 1;
    }
    false
}

/// A manifest text that was read and declares a workspace.
pub open spec fn declares_workspace(text: Option<Seq<char>>) -> bool {
    text matches Some(t) && occurs_in(workspace_header(), t)
}

/// Given the manifest texts of a directory and its ancestors, nearest first
/// (`None` where a directory has no readable manifest), the index of the
/// nearest one that declares a workspace; `None` when none does.
pub fn nearest_workspace(texts: &Vec<Option<String>>) -> (r: Option<usize>)
    ensures
        r matches Some(i) ==> i < texts@.len() && declares_workspace(texts.deep_view()[i as int]),
        r matches Some(i) ==> forall|j: int|
            0 <= j < i ==> !declares_workspace(#[trigger] texts.deep_view()[j]),
        r is None ==> forall|j: int|
            0 <= j < texts@.len() ==> !declares_workspace(#[trigger] texts.deep_view()[j]),
{
    let ghost all = texts.deep_view();
    let n = texts.len();
    let mut i: usize = 0;
    while i < n
        invariant
            n == texts@.len(),
            all == texts.deep_view(),
            i <= n,
            forall|j: int| 0 <= j < i ==> !declares_workspace(#[trigger] all[j]),
        decreases n - i,
    {
        assert(all[i as int] == texts@[i as int].deep_view());
        let found = match &texts[i] {
            Some(t) => is_workspace_manifest(t.as_str()),
            None => false,
        };
        if found {
            return Some(i);
        }
        i = i + 1;
    }
    None
}

} // verus!
