//! The decisions of the recursive repository scan. Reading directories is
//! left to the caller, which hands over each directory's listing and each
//! finished scan's result.

use vstd::prelude::*;
use crate::text::str_to_chars;

verus! {

/// The type of a directory entry, as far as the scan needs it.
#[derive(Debug, Clone, Copy, PartialEq, Eq, Structural)]
pub struct FileKind {
    pub is_dir: bool,
    pub is_symlink: bool,
}

/// One entry of a directory listing.
pub struct DirEntryInfo {
    /// The entry's file name.
    pub name: String,
    /// The entry's full path.
    pub path: String,
    /// The entry's type, or `None` when it could not be read.
    pub kind: Option<FileKind>,
}

/// What scanning one directory found.
pub enum DirResult {
    /// The directory is the root of a Git repository.
    Repo(String),
    /// Subdirectories still to scan, each with its depth.
    Subdirs(Vec<(String, usize)>),
}

/// Whether `depth` lies beyond the depth limit (none means no limit).
pub open spec fn spec_depth_exceeded(depth: usize, max_depth: Option<usize>) -> bool {
    match max_depth {
        Some(limit) => depth > limit,
        None => false,
    }
}

/// Whether a directory at `depth` lies beyond the depth limit; such a
/// directory is not read and yields no subdirectories.
pub fn depth_exceeded(depth: usize, max_depth: Option<usize>) -> (b: bool)
    ensures
        b == spec_depth_exceeded(depth, max_depth),
{
    match max_depth {
        Some(limit) => depth > limit,
        None => false,
    }
}

/// Whether a listing entry is the `.git` marker of a repository root.
pub open spec fn is_git_marker(e: DirEntryInfo) -> bool {
    e.name@ == seq!['.', 'g', 'i', 't']
}

/// Whether a listing entry is a subdirectory to descend into: a directory
/// that is no symbolic link, its type known.
pub open spec fn is_descendable(e: DirEntryInfo) -> bool {
    e.kind matches Some(k) && k.is_dir && !k.is_symlink
}

/// The subdirectories of a listing to scan next, at depth `depth`.
pub open spec fn subdirs_of(entries: Seq<DirEntryInfo>, depth: nat) -> Seq<(Seq<char>, nat)>
    decreases entries.len(),
{
    if entries.len() == 0 {
        Seq::empty()
    } else {
        let rest = subdirs_of(entries.drop_last(), depth);
        if is_descendable(entries.last()) {
            rest.push((entries.last().path@, depth))
        } else {
            rest
        }
    }
}

/// A list of subdirectories as character sequences.
pub open spec fn subdir_views(v: Seq<(String, usize)>) -> Seq<(Seq<char>, nat)> {
    v.map_values(|p: (String, usize)| (p.0@, p.1 as nat))
}

/// Whether a listing holds the `.git` marker.
pub open spec fn has_git_marker(es: Seq<DirEntryInfo>) -> bool {
    exists|i: int| 0 <= i < es.len() && is_git_marker(#[trigger] es[i])
}

/// The result that the listing `es` of the directory `dir` at `depth`
/// gives.
pub open spec fn spec_classify_listing(
    dir: Seq<char>,
    depth: usize,
    es: Seq<DirEntryInfo>,
    result: DirResult,
) -> bool {
    if has_git_marker(es) {
        result matches DirResult::Repo(p) && p@ == dir
    } else {
        result matches DirResult::Subdirs(v) && subdir_views(v@) == subdirs_of(es, (depth + 1) as nat)
    }
}

fn is_git_name(name: &String) -> (b: bool)
    ensures
        b == (name@ == seq!['.', 'g', 'i', 't']),
{
    let c = str_to_chars(name.as_str());
    if c.len() == 4 && c[0] == '.' && c[1] == 'g' && c[2] == 'i' && c[3] == 't' {
        assert(c@ =~= seq!['.', 'g', 'i', 't']);
        true
    } else {
        assert(c@ != seq!['.', 'g', 'i', 't']) by {
            if c@ == seq!['.', 'g', 'i', 't'] {
                assert(c@[0] == '.' && c@[1] == 'g' && c@[2] == 'i' && c@[3] == 't');
            }
        }
        false
    }
}

/// Classifies the directory `dir` at `depth` from its listing (`None` when
/// it could not be read): a directory holding a `.git` entry is a
/// repository root; otherwise its subdirectories (no symbolic links) are
/// to be scanned one level deeper.
#[verifier::loop_isolation(false)]
pub fn classify_dir(dir: String, depth: usize, listing: Option<Vec<DirEntryInfo>>) -> (r: DirResult)
    requires
        depth < usize::MAX,
    ensures
        listing is None ==> (r matches DirResult::Subdirs(v) && v@.len() == 0),
        listing matches Some(v) ==> spec_classify_listing(dir@, depth, v@, r),
{
    match listing {
        None => DirResult::Subdirs(Vec::new()),
        Some(entries) => {
            let ghost es = entries@;
            let mut subdirs: Vec<(String, usize)> = Vec::new();
            let mut i: usize = 0;
            assert(es.take(0) =~= Seq::<DirEntryInfo>::empty());
            while i < entries.len()
                invariant
                    i <= entries.len(),
                    es == entries@,
                    depth < usize::MAX,
                    forall|k: int| 0 <= k < i ==> !is_git_marker(#[trigger] es[k]),
                    subdir_views(subdirs@) == subdirs_of(es.take(i as int), (depth + 1) as nat),
                decreases entries.len() - i,
            {
                let e = &entries[i];
                if is_git_name(&e.name) {
                    assert(is_git_marker(es[i as int]));
                    return DirResult::Repo(dir);
                }
                assert(es.take(i + 1).drop_last() =~= es.take(i as int));
                let descend = match e.kind {
                    Some(k) => k.is_dir && !k.is_symlink,
                    None => false,
                };
                if descend {
                    let ghost before = subdir_views(subdirs@);
                    subdirs.push((e.path.clone(), depth + 1));
                    assert(subdir_views(subdirs@) =~= before.push((e.path@, (depth + 1) as nat)));
                }
                i = i + 1;
            }
            assert(es.take(entries.len() as int) =~= es);
            DirResult::Subdirs(subdirs)
        },
    }
}

/// The running state of a scan: the repository roots found so far and the
/// counts behind the progress display.
pub struct ScanProgress {
    pub repos: Vec<String>,
    pub scanned: u64,
    pub found: u64,
}

/// What to do after a directory's scan finished.
pub struct ScanStep {
    /// Subdirectories to scan next.
    pub spawn: Vec<(String, usize)>,
    /// Whether the progress display is refreshed.
    pub refresh: bool,
}

impl ScanProgress {
    /// The state before the first directory is scanned.
    pub fn new() -> (p: ScanProgress)
        ensures
            p.repos@.len() == 0,
            p.scanned == 0,
            p.found == 0,
    {
        ScanProgress { repos: Vec::new(), scanned: 0, found: 0 }
    }

    /// Records the result of one finished directory scan (`None` when it
    /// failed): a repository root is kept and refreshes the display;
    /// subdirectories are handed back to be scanned; the display is also
    /// refreshed every 50 scanned directories.
    pub fn record(&mut self, result: Option<DirResult>) -> (step: ScanStep)
        requires
            old(self).scanned < u64::MAX,
            old(self).found < u64::MAX,
        ensures
            final(self).scanned == old(self).scanned + 1,
            match result {
                Some(DirResult::Repo(p)) => {
                    &&& final(self).repos@ == old(self).repos@.push(p)
                    &&& final(self).found == old(self).found + 1
                    &&& step.spawn@.len() == 0
                    &&& step.refresh
                },
                Some(DirResult::Subdirs(v)) => {
                    &&& final(self).repos@ == old(self).repos@
                    &&& final(self).found == old(self).found
                    &&& step.spawn@ == v@
                    &&& step.refresh == (final(self).scanned % 50 == 0)
                },
                None => {
                    &&& final(self).repos@ == old(self).repos@
                    &&& final(self).found == old(self).found
                    &&& step.spawn@.len() == 0
                    &&& step.refresh == (final(self).scanned % 50 == 0)
                },
            },
    {
        self.scanned = self.scanned + 1;
        match result {
            Some(DirResult::Repo(p)) => {
                self.repos.push(p);
                self.found = self.found + 1;
                ScanStep { spawn: Vec::new(), refresh: true }
            },
            Some(DirResult::Subdirs(v)) => ScanStep { spawn: v, refresh: self.scanned % 50 == 0 },
            None => ScanStep { spawn: Vec::new(), refresh: self.scanned % 50 == 0 },
        }
    }
}

/// Whether `depth` lies beyond the depth limit (a model-level form of
/// `spec_depth_exceeded`).
pub open spec fn depth_beyond(depth: nat, max_depth: Option<usize>) -> bool {
    match max_depth {
        Some(limit) => depth > limit,
        None => false,
    }
}

/// Whether the listing `es` names `child` as a subdirectory to descend
/// into.
pub open spec fn lists_subdir(es: Seq<DirEntryInfo>, child: Seq<char>) -> bool {
    exists|i: int| 0 <= i < es.len() && is_descendable(#[trigger] es[i]) && es[i].path@ == child
}

/// Whether `path` is the chain of directories along which a scan started at
/// `dir` at depth `depth` descends to the repository root `root`. `tree`
/// models the file tree: the listing of every directory that can be read,
/// by path. Every directory on the chain is readable and within the depth
/// limit; each but the last holds no `.git` entry (a repository root is not
/// descended into) and lists the next as a subdirectory; the last holds a
/// `.git` entry.
pub open spec fn is_scan_path(
    tree: Map<Seq<char>, Seq<DirEntryInfo>>,
    max_depth: Option<usize>,
    dir: Seq<char>,
    depth: nat,
    root: Seq<char>,
    path: Seq<Seq<char>>,
) -> bool {
    &&& path.len() > 0
    &&& path[0] == dir
    &&& path.last() == root
    &&& forall|k: int|
        0 <= k < path.len() ==> !depth_beyond((depth + k) as nat, max_depth) && tree.contains_key(
            #[trigger] path[k],
        )
    &&& forall|k: int|
        0 <= k < path.len() - 1 ==> !has_git_marker(tree[#[trigger] path[k]]) && lists_subdir(
            tree[path[k]],
            path[k + 1],
        )
    &&& has_git_marker(tree[root])
}

/// Whether the scan started at `dir` at depth `depth` finds the
/// repository root `root`.
pub open spec fn finds_from(
    tree: Map<Seq<char>, Seq<DirEntryInfo>>,
    max_depth: Option<usize>,
    dir: Seq<char>,
    depth: nat,
    root: Seq<char>,
) -> bool {
    exists|path: Seq<Seq<char>>| #[trigger] is_scan_path(tree, max_depth, dir, depth, root, path)
}

/// Whether some directory still to scan leads to the repository root
/// `root`.
pub open spec fn pending_finds(
    tree: Map<Seq<char>, Seq<DirEntryInfo>>,
    max_depth: Option<usize>,
    pending: Seq<(Seq<char>, nat)>,
    root: Seq<char>,
) -> bool {
    exists|j: int|
        0 <= j < pending.len() && #[trigger] finds_from(
            tree,
            max_depth,
            pending[j].0,
            pending[j].1,
            root,
        )
}

/// The scan's invariant: the repository roots that a scan from `start`
/// finds are exactly those found so far and those that the directories
/// still to scan lead to.
pub open spec fn scan_invariant(
    tree: Map<Seq<char>, Seq<DirEntryInfo>>,
    max_depth: Option<usize>,
    start: Seq<char>,
    found: Set<Seq<char>>,
    pending: Seq<(Seq<char>, nat)>,
) -> bool {
    forall|root: Seq<char>|
        #[trigger] finds_from(tree, max_depth, start, 0, root) <==> found.contains(root)
            || pending_finds(tree, max_depth, pending, root)
}

/// Whether `result` is what scanning `dir` at `depth` gives on the tree
/// `tree`, as `depth_exceeded` and `classify_dir` decide it.
pub open spec fn scan_result_matches(
    tree: Map<Seq<char>, Seq<DirEntryInfo>>,
    max_depth: Option<usize>,
    dir: Seq<char>,
    depth: nat,
    result: DirResult,
) -> bool {
    if depth_beyond(depth, max_depth) || !tree.contains_key(dir) {
        result matches DirResult::Subdirs(v) && v@.len() == 0
    } else if has_git_marker(tree[dir]) {
        result matches DirResult::Repo(p) && p@ == dir
    } else {
        result matches DirResult::Subdirs(v) && subdir_views(v@) == subdirs_of(tree[dir], depth + 1)
    }
}

/// The roots found after `ScanProgress::record` took `result`.
pub open spec fn found_after(found: Set<Seq<char>>, result: DirResult) -> Set<Seq<char>> {
    match result {
        DirResult::Repo(p) => found.insert(p@),
        DirResult::Subdirs(_) => found,
    }
}

/// The directories that `ScanProgress::record` hands back for `result`.
pub open spec fn spawned(result: DirResult) -> Seq<(Seq<char>, nat)> {
    match result {
        DirResult::Subdirs(v) => subdir_views(v@),
        DirResult::Repo(_) => Seq::empty(),
    }
}

proof fn lemma_subdirs_of_members(es: Seq<DirEntryInfo>, depth: nat)
    ensures
        forall|j: int|
            0 <= j < subdirs_of(es, depth).len() ==> exists|i: int|
                0 <= i < es.len() && is_descendable(es[i]) && #[trigger] subdirs_of(es, depth)[j]
                    == (es[i].path@, depth),
        forall|i: int|
            0 <= i < es.len() && is_descendable(#[trigger] es[i]) ==> exists|j: int|
                0 <= j < subdirs_of(es, depth).len() && subdirs_of(es, depth)[j] == (
                    es[i].path@,
                    depth,
                ),
    decreases es.len(),
{
    if es.len() > 0 {
        let front = es.drop_last();
        lemma_subdirs_of_members(front, depth);
        let sf = subdirs_of(front, depth);
        let sd = subdirs_of(es, depth);
        assert forall|j: int| 0 <= j < sd.len() implies exists|i: int|
            0 <= i < es.len() && is_descendable(es[i]) && #[trigger] sd[j] == (
                es[i].path@,
                depth,
            ) by {
            if j < sf.len() {
                assert(sd[j] == sf[j]);
                let i = choose|i: int|
                    0 <= i < front.len() && is_descendable(front[i]) && #[trigger] sf[j] == (
                        front[i].path@,
                        depth,
                    );
                assert(es[i] == front[i]);
            } else {
                assert(sd[j] == (es[es.len() - 1].path@, depth));
            }
        }
        assert forall|i: int| 0 <= i < es.len() && is_descendable(#[trigger] es[i]) implies exists|
            j: int,
        | 0 <= j < sd.len() && sd[j] == (es[i].path@, depth) by {
            if i < front.len() {
                assert(es[i] == front[i]);
                assert(is_descendable(front[i]));
                let j = choose|j: int| 0 <= j < sf.len() && sf[j] == (front[i].path@, depth);
                assert(sd[j] == sf[j]);
            } else {
                assert(sd[sd.len() - 1] == (es[i].path@, depth));
            }
        }
    }
}

proof fn lemma_path_through_child(
    tree: Map<Seq<char>, Seq<DirEntryInfo>>,
    max_depth: Option<usize>,
    dir: Seq<char>,
    depth: nat,
    root: Seq<char>,
    child: Seq<char>,
    rest: Seq<Seq<char>>,
)
    requires
        !depth_beyond(depth, max_depth),
        tree.contains_key(dir),
        !has_git_marker(tree[dir]),
        lists_subdir(tree[dir], child),
        is_scan_path(tree, max_depth, child, depth + 1, root, rest),
    ensures
        is_scan_path(tree, max_depth, dir, depth, root, seq![dir] + rest),
{
    let path = seq![dir] + rest;
    assert forall|k: int| 0 <= k < path.len() implies !depth_beyond((depth + k) as nat, max_depth)
        && tree.contains_key(#[trigger] path[k]) by {
        if k > 0 {
            assert(path[k] == rest[k - 1]);
            assert((depth + k) as nat == ((depth + 1) as nat + (k - 1)) as nat);
        }
    }
    assert forall|k: int| 0 <= k < path.len() - 1 implies !has_git_marker(tree[#[trigger] path[k]])
        && lists_subdir(tree[path[k]], path[k + 1]) by {
        if k > 0 {
            assert(path[k] == rest[k - 1]);
            assert(path[k + 1] == rest[k]);
        } else {
            assert(path[1] == rest[0]);
        }
    }
    assert(path.last() == rest.last());
}

proof fn lemma_path_tail(
    tree: Map<Seq<char>, Seq<DirEntryInfo>>,
    max_depth: Option<usize>,
    dir: Seq<char>,
    depth: nat,
    root: Seq<char>,
    path: Seq<Seq<char>>,
)
    requires
        is_scan_path(tree, max_depth, dir, depth, root, path),
        path.len() > 1,
    ensures
        lists_subdir(tree[dir], path[1]),
        is_scan_path(tree, max_depth, path[1], depth + 1, root, path.drop_first()),
{
    let rest = path.drop_first();
    assert(path[0] == dir);
    assert(!has_git_marker(tree[path[0]]) && lists_subdir(tree[path[0]], path[1]));
    assert forall|k: int| 0 <= k < rest.len() implies !depth_beyond(((depth + 1) as nat + k) as nat, max_depth)
        && tree.contains_key(#[trigger] rest[k]) by {
        assert(rest[k] == path[k + 1]);
        assert(((depth + 1) as nat + k) as nat == (depth + (k + 1)) as nat);
    }
    assert forall|k: int| 0 <= k < rest.len() - 1 implies !has_git_marker(tree[#[trigger] rest[k]])
        && lists_subdir(tree[rest[k]], rest[k + 1]) by {
        assert(rest[k] == path[k + 1]);
        assert(rest[k + 1] == path[k + 2]);
    }
    assert(rest.last() == path.last());
}

proof fn lemma_unfold_finds(
    tree: Map<Seq<char>, Seq<DirEntryInfo>>,
    max_depth: Option<usize>,
    dir: Seq<char>,
    depth: nat,
    root: Seq<char>,
)
    ensures
        depth_beyond(depth, max_depth) || !tree.contains_key(dir) ==> !finds_from(
            tree,
            max_depth,
            dir,
            depth,
            root,
        ),
        !depth_beyond(depth, max_depth) && tree.contains_key(dir) && has_git_marker(tree[dir])
            ==> (finds_from(tree, max_depth, dir, depth, root) <==> root == dir),
        !depth_beyond(depth, max_depth) && tree.contains_key(dir) && !has_git_marker(tree[dir])
            ==> (finds_from(tree, max_depth, dir, depth, root) <==> pending_finds(
            tree,
            max_depth,
            subdirs_of(tree[dir], depth + 1),
            root,
        )),
{
    if finds_from(tree, max_depth, dir, depth, root) {
        let path = choose|path: Seq<Seq<char>>| #[trigger] is_scan_path(tree, max_depth, dir, depth, root, path);
        assert(path[0] == dir);
        assert(tree.contains_key(path[0]));
        assert(!depth_beyond((depth + 0) as nat, max_depth));
        if !depth_beyond(depth, max_depth) && tree.contains_key(dir) {
            if has_git_marker(tree[dir]) {
                if path.len() > 1 {
                    assert(!has_git_marker(tree[path[0]]));
                }
            } else {
                let es = tree[dir];
                let sd = subdirs_of(es, depth + 1);
                lemma_subdirs_of_members(es, depth + 1);
                assert(path.len() > 1);
                lemma_path_tail(tree, max_depth, dir, depth, root, path);
                let i = choose|i: int| 0 <= i < es.len() && is_descendable(#[trigger] es[i]) && es[i].path@ == path[1];
                let j = choose|j: int| 0 <= j < sd.len() && sd[j] == (es[i].path@, (depth + 1) as nat);
                assert(is_scan_path(tree, max_depth, sd[j].0, sd[j].1, root, path.drop_first()));
                assert(finds_from(tree, max_depth, sd[j].0, sd[j].1, root));
            }
        }
    }
    if !depth_beyond(depth, max_depth) && tree.contains_key(dir) {
        let es = tree[dir];
        if has_git_marker(es) {
            if root == dir {
                let path = seq![dir];
                assert(is_scan_path(tree, max_depth, dir, depth, root, path));
            }
        } else {
            let sd = subdirs_of(es, depth + 1);
            lemma_subdirs_of_members(es, depth + 1);
            if pending_finds(tree, max_depth, sd, root) {
                let j = choose|j: int|
                    0 <= j < sd.len() && #[trigger] finds_from(tree, max_depth, sd[j].0, sd[j].1, root);
                let i = choose|i: int|
                    0 <= i < es.len() && is_descendable(es[i]) && #[trigger] sd[j] == (
                        es[i].path@,
                        depth + 1,
                    );
                let rest = choose|rest: Seq<Seq<char>>| #[trigger] is_scan_path(tree, max_depth, sd[j].0, sd[j].1, root, rest);
                assert(lists_subdir(es, sd[j].0));
                lemma_path_through_child(tree, max_depth, dir, depth, root, sd[j].0, rest);
                assert(finds_from(tree, max_depth, dir, depth, root));
            }
        }
    }
}

proof fn lemma_pending_split(
    tree: Map<Seq<char>, Seq<DirEntryInfo>>,
    max_depth: Option<usize>,
    pending: Seq<(Seq<char>, nat)>,
    j: int,
    more: Seq<(Seq<char>, nat)>,
    root: Seq<char>,
)
    requires
        0 <= j < pending.len(),
    ensures
        pending_finds(tree, max_depth, pending, root) <==> pending_finds(
            tree,
            max_depth,
            pending.remove(j),
            root,
        ) || finds_from(tree, max_depth, pending[j].0, pending[j].1, root),
        pending_finds(tree, max_depth, pending.remove(j) + more, root) <==> pending_finds(
            tree,
            max_depth,
            pending.remove(j),
            root,
        ) || pending_finds(tree, max_depth, more, root),
{
    let rest = pending.remove(j);
    let all = rest + more;
    if pending_finds(tree, max_depth, pending, root) {
        let k = choose|k: int|
            0 <= k < pending.len() && #[trigger] finds_from(tree, max_depth, pending[k].0, pending[k].1, root);
        if k < j {
            assert(rest[k] == pending[k]);
        } else if k > j {
            assert(rest[k - 1] == pending[k]);
        }
    }
    if pending_finds(tree, max_depth, rest, root) {
        let k = choose|k: int|
            0 <= k < rest.len() && #[trigger] finds_from(tree, max_depth, rest[k].0, rest[k].1, root);
        if k < j {
            assert(rest[k] == pending[k]);
        } else {
            assert(rest[k] == pending[k + 1]);
        }
        assert(all[k] == rest[k]);
    }
    if pending_finds(tree, max_depth, more, root) {
        let k = choose|k: int|
            0 <= k < more.len() && #[trigger] finds_from(tree, max_depth, more[k].0, more[k].1, root);
        assert(all[rest.len() + k] == more[k]);
    }
    if pending_finds(tree, max_depth, all, root) {
        let k = choose|k: int|
            0 <= k < all.len() && #[trigger] finds_from(tree, max_depth, all[k].0, all[k].1, root);
        if k < rest.len() {
            assert(all[k] == rest[k]);
        } else {
            assert(all[k] == more[k - rest.len()]);
        }
    }
}

/// A scan starts out right: with nothing found and only the start
/// directory (at depth 0) to scan, the invariant holds.
pub proof fn law_scan_start(
    tree: Map<Seq<char>, Seq<DirEntryInfo>>,
    max_depth: Option<usize>,
    start: Seq<char>,
)
    ensures
        scan_invariant(tree, max_depth, start, Set::empty(), seq![(start, 0nat)]),
{
    let p = seq![(start, 0nat)];
    assert forall|root: Seq<char>|
        #[trigger] finds_from(tree, max_depth, start, 0, root) <==> Set::<Seq<char>>::empty().contains(root)
            || pending_finds(tree, max_depth, p, root) by {
        if finds_from(tree, max_depth, start, 0, root) {
            assert(finds_from(tree, max_depth, p[0].0, p[0].1, root));
        }
    }
}

/// Scanning one directory as the driver does it gives the result that
/// `law_scan_step` takes: beyond the depth limit nothing is read and nothing
/// comes back, an unreadable directory gives nothing, and otherwise
/// `classify_dir` decides on the directory's listing.
pub proof fn law_classified_result_matches(
    tree: Map<Seq<char>, Seq<DirEntryInfo>>,
    max_depth: Option<usize>,
    dir: Seq<char>,
    depth: usize,
    result: DirResult,
)
    requires
        spec_depth_exceeded(depth, max_depth) || !tree.contains_key(dir) ==> (result matches DirResult::Subdirs(
            v,
        ) && v@.len() == 0),
        !spec_depth_exceeded(depth, max_depth) && tree.contains_key(dir) ==> spec_classify_listing(
            dir,
            depth,
            tree[dir],
            result,
        ),
    ensures
        scan_result_matches(tree, max_depth, dir, depth as nat, result),
{
}

/// Each step keeps the scan right: taking any directory still to scan,
/// scanning it (as `depth_exceeded` and `classify_dir` decide) and
/// recording the result (as `ScanProgress::record` does) keeps the
/// invariant, whatever the order in which directories are taken.
pub proof fn law_scan_step(
    tree: Map<Seq<char>, Seq<DirEntryInfo>>,
    max_depth: Option<usize>,
    start: Seq<char>,
    found: Set<Seq<char>>,
    pending: Seq<(Seq<char>, nat)>,
    j: int,
    result: DirResult,
)
    requires
        scan_invariant(tree, max_depth, start, found, pending),
        0 <= j < pending.len(),
        scan_result_matches(tree, max_depth, pending[j].0, pending[j].1, result),
    ensures
        scan_invariant(
            tree,
            max_depth,
            start,
            found_after(found, result),
            pending.remove(j) + spawned(result),
        ),
{
    let (dir, depth) = pending[j];
    let more = spawned(result);
    assert forall|root: Seq<char>|
        #[trigger] finds_from(tree, max_depth, start, 0, root) <==> found_after(found, result).contains(
            root,
        ) || pending_finds(tree, max_depth, pending.remove(j) + more, root) by {
        lemma_pending_split(tree, max_depth, pending, j, more, root);
        lemma_unfold_finds(tree, max_depth, dir, depth, root);
        if !depth_beyond(depth, max_depth) && tree.contains_key(dir) && !has_git_marker(tree[dir]) {
            assert(more == subdirs_of(tree[dir], depth + 1));
        } else {
            assert(more =~= Seq::<(Seq<char>, nat)>::empty());
            assert(!pending_finds(tree, max_depth, more, root));
        }
    }
}

/// A scan that has nothing left to scan has found exactly the repository
/// roots reachable from its start: every readable directory within the
/// depth limit, not below another root, that holds a `.git` entry.
pub proof fn law_scan_done(
    tree: Map<Seq<char>, Seq<DirEntryInfo>>,
    max_depth: Option<usize>,
    start: Seq<char>,
    found: Set<Seq<char>>,
)
    requires
        scan_invariant(tree, max_depth, start, found, Seq::empty()),
    ensures
        forall|root: Seq<char>| found.contains(root) <==> #[trigger] finds_from(tree, max_depth, start, 0, root),
{
    assert forall|root: Seq<char>| found.contains(root) <==> #[trigger] finds_from(
        tree,
        max_depth,
        start,
        0,
        root,
    ) by {
        assert(!pending_finds(tree, max_depth, Seq::empty(), root));
    }
}


/// Whether the depth limit `a` allows no more than the limit `b` (no limit
/// allows every depth).
pub open spec fn limit_within(a: Option<usize>, b: Option<usize>) -> bool {
    match (a, b) {
        (_, None) => true,
        (Some(x), Some(y)) => x <= y,
        (None, Some(_)) => false,
    }
}

/// Raising the depth limit loses no repository: every root that a scan
/// finds under the limit `a` is also found under any limit `b` that allows
/// at least as much, no limit included.
pub proof fn law_scan_depth_monotone(
    tree: Map<Seq<char>, Seq<DirEntryInfo>>,
    a: Option<usize>,
    b: Option<usize>,
    dir: Seq<char>,
    depth: nat,
    root: Seq<char>,
)
    requires
        limit_within(a, b),
        finds_from(tree, a, dir, depth, root),
    ensures
        finds_from(tree, b, dir, depth, root),
{
    let path = choose|path: Seq<Seq<char>>| #[trigger] is_scan_path(tree, a, dir, depth, root, path);
    assert forall|k: int| 0 <= k < path.len() implies !depth_beyond((depth + k) as nat, b)
        && tree.contains_key(#[trigger] path[k]) by {
        assert(!depth_beyond((depth + k) as nat, a) && tree.contains_key(path[k]));
    }
    assert(is_scan_path(tree, b, dir, depth, root, path));
}

/// The path that a directory's entry named `name` has: the directory's path,
/// a separator unless the path is empty or already ends in one, and the
/// name.
pub open spec fn join_base(dir: Seq<char>, sep: char) -> Seq<char> {
    if dir.len() == 0 || dir.last() == sep {
        dir
    } else {
        dir.push(sep)
    }
}

/// Whether the entry `e` of the listing of `dir` is named as a file system
/// names it: a non-empty name without separator, the path being the
/// directory's path joined with the name.
pub open spec fn entry_named(dir: Seq<char>, e: DirEntryInfo, sep: char) -> bool {
    &&& e.name@.len() > 0
    &&& !e.name@.contains(sep)
    &&& e.path@ == join_base(dir, sep) + e.name@
}

/// Whether `tree` is shaped as a file system is: each listing names its
/// entries after their directory, and no name occurs twice in one
/// listing.
pub open spec fn tree_well_formed(tree: Map<Seq<char>, Seq<DirEntryInfo>>, sep: char) -> bool {
    forall|dir: Seq<char>| #[trigger] tree.contains_key(dir) ==> {
        &&& forall|i: int| 0 <= i < tree[dir].len() ==> entry_named(dir, #[trigger] tree[dir][i], sep)
        &&& forall|i1: int, i2: int|
            0 <= i1 < tree[dir].len() && 0 <= i2 < tree[dir].len() && i1 != i2 ==> #[trigger] tree[dir][i1].name@
                != #[trigger] tree[dir][i2].name@
    }
}

/// Whether `r` is `x` or lies below it: `x` is a prefix of `r` that ends
/// where a path component ends.
pub open spec fn at_or_below(x: Seq<char>, r: Seq<char>, sep: char) -> bool {
    &&& x.len() <= r.len()
    &&& r.take(x.len() as int) == x
    &&& (x.len() == r.len() || x.len() == 0 || x.last() == sep || r[x.len() as int] == sep)
}

proof fn lemma_scan_path_below(
    tree: Map<Seq<char>, Seq<DirEntryInfo>>,
    max_depth: Option<usize>,
    sep: char,
    x: Seq<char>,
    depth: nat,
    root: Seq<char>,
    path: Seq<Seq<char>>,
)
    requires
        tree_well_formed(tree, sep),
        is_scan_path(tree, max_depth, x, depth, root, path),
    ensures
        at_or_below(x, root, sep),
    decreases path.len(),
{
    assert(path[0] == x);
    if path.len() == 1 {
        assert(root == x);
        assert(root.take(x.len() as int) =~= x);
    } else {
        lemma_path_tail(tree, max_depth, x, depth, root, path);
        let c = path[1];
        lemma_scan_path_below(tree, max_depth, sep, c, depth + 1, root, path.drop_first());
        assert(tree.contains_key(path[0]));
        let es = tree[x];
        let i = choose|i: int| 0 <= i < es.len() && is_descendable(#[trigger] es[i]) && es[i].path@ == c;
        assert(entry_named(x, es[i], sep));
        let b = join_base(x, sep);
        assert(c == b + es[i].name@);
        assert(c.take(x.len() as int) =~= x) by {
            assert(b.take(x.len() as int) =~= x);
        }
        assert(root.take(x.len() as int) =~= x) by {
            assert(root.take(x.len() as int) =~= c.take(c.len() as int).take(x.len() as int));
            assert(c.take(c.len() as int) =~= c);
        }
        if x.len() > 0 && x.last() != sep {
            assert(c[x.len() as int] == sep);
            assert(root[x.len() as int] == root.take(c.len() as int)[x.len() as int]);
        }
    }
}

proof fn lemma_children_disjoint(
    tree: Map<Seq<char>, Seq<DirEntryInfo>>,
    max_depth: Option<usize>,
    sep: char,
    dir: Seq<char>,
    i1: int,
    i2: int,
    d1: nat,
    d2: nat,
    root: Seq<char>,
)
    requires
        tree_well_formed(tree, sep),
        tree.contains_key(dir),
        0 <= i1 < tree[dir].len(),
        0 <= i2 < tree[dir].len(),
        i1 != i2,
    ensures
        tree[dir][i1].path@ != tree[dir][i2].path@,
        !(finds_from(tree, max_depth, tree[dir][i1].path@, d1, root) && finds_from(
            tree,
            max_depth,
            tree[dir][i2].path@,
            d2,
            root,
        )),
{
    let es = tree[dir];
    let b = join_base(dir, sep);
    let n1 = es[i1].name@;
    let n2 = es[i2].name@;
    let c1 = es[i1].path@;
    let c2 = es[i2].path@;
    assert(entry_named(dir, es[i1], sep));
    assert(entry_named(dir, es[i2], sep));
    assert(n1 != n2);
    if c1 == c2 {
        assert(n1 =~= c1.skip(b.len() as int));
        assert(n2 =~= c2.skip(b.len() as int));
    }
    if finds_from(tree, max_depth, c1, d1, root) && finds_from(tree, max_depth, c2, d2, root) {
        let p1 = choose|p: Seq<Seq<char>>| #[trigger] is_scan_path(tree, max_depth, c1, d1, root, p);
        let p2 = choose|p: Seq<Seq<char>>| #[trigger] is_scan_path(tree, max_depth, c2, d2, root, p);
        lemma_scan_path_below(tree, max_depth, sep, c1, d1, root, p1);
        lemma_scan_path_below(tree, max_depth, sep, c2, d2, root, p2);
        lemma_prefixes_of_one_path(b, n1, n2, root, sep);
    }
}

proof fn lemma_prefixes_of_one_path(b: Seq<char>, n1: Seq<char>, n2: Seq<char>, r: Seq<char>, sep: char)
    requires
        n1.len() > 0,
        n2.len() > 0,
        !n1.contains(sep),
        !n2.contains(sep),
        n1 != n2,
    ensures
        !(at_or_below(b + n1, r, sep) && at_or_below(b + n2, r, sep)),
{
    if at_or_below(b + n1, r, sep) && at_or_below(b + n2, r, sep) {
        let c1 = b + n1;
        let c2 = b + n2;
        if c1.len() == c2.len() {
            assert(n1 =~= c1.skip(b.len() as int));
            assert(n2 =~= c2.skip(b.len() as int));
            assert(c1 =~= c2);
        } else if c1.len() < c2.len() {
            assert(c1.last() == n1.last());
            assert(n1.last() != sep) by {
                if n1.last() == sep {
                    assert(n1[n1.len() - 1] == sep);
                }
            }
            assert(r[c1.len() as int] == sep);
            assert(c2[c1.len() as int] == r.take(c2.len() as int)[c1.len() as int]);
            assert(c2[c1.len() as int] == n2[c1.len() - b.len()]);
        } else {
            assert(c2.last() == n2.last());
            assert(n2.last() != sep) by {
                if n2.last() == sep {
                    assert(n2[n2.len() - 1] == sep);
                }
            }
            assert(r[c2.len() as int] == sep);
            assert(c1[c2.len() as int] == r.take(c1.len() as int)[c2.len() as int]);
            assert(c1[c2.len() as int] == n1[c2.len() - b.len()]);
        }
    }
}


/// The repository roots found, as a list, after `ScanProgress::record` took
/// `result`.
pub open spec fn found_list_after(found: Seq<Seq<char>>, result: DirResult) -> Seq<Seq<char>> {
    match result {
        DirResult::Repo(p) => found.push(p@),
        DirResult::Subdirs(_) => found,
    }
}

/// The scan's invariant for finding each root once: the list found so far
/// holds no root twice, no directory still to scan leads to a root already
/// found, and no two directories still to scan lead to the same root.
pub open spec fn scan_once_invariant(
    tree: Map<Seq<char>, Seq<DirEntryInfo>>,
    max_depth: Option<usize>,
    found: Seq<Seq<char>>,
    pending: Seq<(Seq<char>, nat)>,
) -> bool {
    &&& found.no_duplicates()
    &&& forall|k: int, root: Seq<char>|
        0 <= k < pending.len() && #[trigger] finds_from(tree, max_depth, pending[k].0, pending[k].1, root)
            ==> !found.contains(root)
    &&& forall|k1: int, k2: int, root: Seq<char>|
        0 <= k1 < pending.len() && 0 <= k2 < pending.len() && k1 != k2 && #[trigger] finds_from(
            tree,
            max_depth,
            pending[k1].0,
            pending[k1].1,
            root,
        ) ==> !#[trigger] finds_from(tree, max_depth, pending[k2].0, pending[k2].1, root)
}

/// A scan starts out able to find each root once: nothing is found and
/// only the start directory is to scan.
pub proof fn law_scan_once_start(
    tree: Map<Seq<char>, Seq<DirEntryInfo>>,
    max_depth: Option<usize>,
    start: Seq<char>,
)
    ensures
        scan_once_invariant(tree, max_depth, Seq::empty(), seq![(start, 0nat)]),
{
}

/// On a tree shaped as a file system is, each step keeps the scan from
/// finding a root twice: taking any directory still to scan, scanning it
/// and recording the result keeps `scan_once_invariant`, so that the
/// finished scan's list holds each root once.
pub proof fn law_scan_once_step(
    tree: Map<Seq<char>, Seq<DirEntryInfo>>,
    max_depth: Option<usize>,
    sep: char,
    found: Seq<Seq<char>>,
    pending: Seq<(Seq<char>, nat)>,
    j: int,
    result: DirResult,
)
    requires
        tree_well_formed(tree, sep),
        scan_once_invariant(tree, max_depth, found, pending),
        0 <= j < pending.len(),
        scan_result_matches(tree, max_depth, pending[j].0, pending[j].1, result),
    ensures
        scan_once_invariant(
            tree,
            max_depth,
            found_list_after(found, result),
            pending.remove(j) + spawned(result),
        ),
{
    let (dir, depth) = pending[j];
    let rest = pending.remove(j);
    let more = spawned(result);
    let np = rest + more;
    let nf = found_list_after(found, result);
    assert forall|k: int| 0 <= k < rest.len() implies #[trigger] np[k] == pending[if k < j {
        k
    } else {
        k + 1
    }] by {}
    // Whatever the new directories lead to, the taken one led to.
    assert forall|m: int, root: Seq<char>|
        0 <= m < more.len() && #[trigger] finds_from(tree, max_depth, more[m].0, more[m].1, root)
            implies finds_from(tree, max_depth, dir, depth, root) by {
        lemma_unfold_finds(tree, max_depth, dir, depth, root);
        if !depth_beyond(depth, max_depth) && tree.contains_key(dir) && !has_git_marker(tree[dir]) {
            assert(more == subdirs_of(tree[dir], depth + 1));
            assert(pending_finds(tree, max_depth, more, root));
        } else {
            assert(more =~= Seq::<(Seq<char>, nat)>::empty());
        }
    }
    if result is Repo {
        lemma_unfold_finds(tree, max_depth, dir, depth, dir);
        assert(finds_from(tree, max_depth, pending[j].0, pending[j].1, dir));
        assert(nf == found.push(dir));
        assert forall|k: int, root: Seq<char>|
            0 <= k < np.len() && #[trigger] finds_from(tree, max_depth, np[k].0, np[k].1, root)
                implies !nf.contains(root) by {
            let pk = if k < j { k } else { k + 1 };
            assert(np[k] == pending[pk]);
            if root == dir {
                assert(finds_from(tree, max_depth, pending[j].0, pending[j].1, root));
            }
            if nf.contains(root) {
                let t = choose|t: int| 0 <= t < nf.len() && nf[t] == root;
                if t < found.len() {
                    assert(found[t] == root);
                }
            }
        }
    } else {
        assert forall|k: int, root: Seq<char>|
            0 <= k < np.len() && #[trigger] finds_from(tree, max_depth, np[k].0, np[k].1, root)
                implies !nf.contains(root) by {
            if k < rest.len() {
                let pk = if k < j { k } else { k + 1 };
                assert(np[k] == pending[pk]);
            } else {
                assert(np[k] == more[k - rest.len()]);
                assert(finds_from(tree, max_depth, pending[j].0, pending[j].1, root));
            }
        }
    }
    assert forall|k1: int, k2: int, root: Seq<char>|
        0 <= k1 < np.len() && 0 <= k2 < np.len() && k1 != k2 && #[trigger] finds_from(
            tree,
            max_depth,
            np[k1].0,
            np[k1].1,
            root,
        ) implies !#[trigger] finds_from(tree, max_depth, np[k2].0, np[k2].1, root) by {
        let p1 = if k1 < j { k1 } else { k1 + 1 };
        let p2 = if k2 < j { k2 } else { k2 + 1 };
        if k1 < rest.len() && k2 < rest.len() {
            assert(np[k1] == pending[p1]);
            assert(np[k2] == pending[p2]);
        } else if k1 < rest.len() {
            assert(np[k1] == pending[p1]);
            assert(np[k2] == more[k2 - rest.len()]);
            if finds_from(tree, max_depth, np[k2].0, np[k2].1, root) {
                assert(finds_from(tree, max_depth, pending[j].0, pending[j].1, root));
            }
        } else if k2 < rest.len() {
            assert(np[k2] == pending[p2]);
            assert(np[k1] == more[k1 - rest.len()]);
            assert(finds_from(tree, max_depth, pending[j].0, pending[j].1, root));
        } else {
            let m1 = k1 - rest.len();
            let m2 = k2 - rest.len();
            assert(np[k1] == more[m1]);
            assert(np[k2] == more[m2]);
            lemma_spawned_children(tree, max_depth, sep, dir, depth, result, m1, m2, root);
        }
    }
}

proof fn lemma_spawned_children(
    tree: Map<Seq<char>, Seq<DirEntryInfo>>,
    max_depth: Option<usize>,
    sep: char,
    dir: Seq<char>,
    depth: nat,
    result: DirResult,
    m1: int,
    m2: int,
    root: Seq<char>,
)
    requires
        tree_well_formed(tree, sep),
        scan_result_matches(tree, max_depth, dir, depth, result),
        0 <= m1 < spawned(result).len(),
        0 <= m2 < spawned(result).len(),
        m1 != m2,
    ensures
        !(finds_from(tree, max_depth, spawned(result)[m1].0, spawned(result)[m1].1, root)
            && finds_from(tree, max_depth, spawned(result)[m2].0, spawned(result)[m2].1, root)),
{
    let more = spawned(result);
    if depth_beyond(depth, max_depth) || !tree.contains_key(dir) || has_git_marker(tree[dir]) {
        assert(more.len() == 0);
    } else {
        let es = tree[dir];
        assert(more == subdirs_of(es, depth + 1));
        lemma_subdirs_of_indices(es, depth + 1);
        let i1 = subdir_index(es, depth + 1, m1);
        let i2 = subdir_index(es, depth + 1, m2);
        lemma_children_disjoint(tree, max_depth, sep, dir, i1, i2, more[m1].1, more[m2].1, root);
    }
}


spec fn subdir_index(es: Seq<DirEntryInfo>, depth: nat, m: int) -> int
    decreases es.len(),
{
    if es.len() == 0 {
        0
    } else if is_descendable(es.last()) && m == subdirs_of(es.drop_last(), depth).len() {
        es.len() - 1
    } else {
        subdir_index(es.drop_last(), depth, m)
    }
}

proof fn lemma_subdirs_of_indices(es: Seq<DirEntryInfo>, depth: nat)
    ensures
        forall|m: int|
            0 <= m < subdirs_of(es, depth).len() ==> {
                let i = #[trigger] subdir_index(es, depth, m);
                &&& 0 <= i < es.len()
                &&& is_descendable(es[i])
                &&& subdirs_of(es, depth)[m] == (es[i].path@, depth)
            },
        forall|m1: int, m2: int|
            0 <= m1 < m2 < subdirs_of(es, depth).len() ==> #[trigger] subdir_index(es, depth, m1)
                < #[trigger] subdir_index(es, depth, m2),
    decreases es.len(),
{
    if es.len() > 0 {
        let front = es.drop_last();
        lemma_subdirs_of_indices(front, depth);
        let sf = subdirs_of(front, depth);
        let sd = subdirs_of(es, depth);
        assert forall|m: int| 0 <= m < sd.len() implies {
            let i = #[trigger] subdir_index(es, depth, m);
            &&& 0 <= i < es.len()
            &&& is_descendable(es[i])
            &&& sd[m] == (es[i].path@, depth)
        } by {
            if m < sf.len() {
                assert(sd[m] == sf[m]);
                assert(subdir_index(es, depth, m) == subdir_index(front, depth, m));
                assert(es[subdir_index(front, depth, m)] == front[subdir_index(front, depth, m)]);
            }
        }
        assert forall|m1: int, m2: int| 0 <= m1 < m2 < sd.len() implies #[trigger] subdir_index(
            es,
            depth,
            m1,
        ) < #[trigger] subdir_index(es, depth, m2) by {
            assert(subdir_index(es, depth, m1) == subdir_index(front, depth, m1));
            if m2 < sf.len() {
                assert(subdir_index(es, depth, m2) == subdir_index(front, depth, m2));
            }
        }
    }
}


/// The list of roots found and the set of roots found move together:
/// recording a result into the list gives the set that recording it into
/// the set gives.
pub proof fn law_found_list_matches_set(found: Seq<Seq<char>>, result: DirResult)
    ensures
        found_list_after(found, result).to_set() == found_after(found.to_set(), result),
{
    if let DirResult::Repo(p) = result {
        found.lemma_push_to_set_commute(p@);
    }
}

/// A finished scan's list holds exactly the repository roots reachable from
/// its start, each of them once.
pub proof fn law_scan_done_once(
    tree: Map<Seq<char>, Seq<DirEntryInfo>>,
    max_depth: Option<usize>,
    start: Seq<char>,
    found: Seq<Seq<char>>,
)
    requires
        scan_invariant(tree, max_depth, start, found.to_set(), Seq::empty()),
        scan_once_invariant(tree, max_depth, found, Seq::empty()),
    ensures
        found.no_duplicates(),
        forall|root: Seq<char>| found.contains(root) <==> #[trigger] finds_from(tree, max_depth, start, 0, root),
{
    law_scan_done(tree, max_depth, start, found.to_set());
    assert forall|root: Seq<char>| found.contains(root) <==> #[trigger] finds_from(
        tree,
        max_depth,
        start,
        0,
        root,
    ) by {
        assert(found.contains(root) <==> found.to_set().contains(root));
    }
}


/// A directory is a repository root exactly when its listing holds an
/// entry named `.git`, those four characters and no others: then scanning
/// it gives the directory itself; a listing where no name is `.git` (such
/// as one with `.gitignore` or `.github`) gives its subdirectories, one
/// level deeper.
pub proof fn law_classify_by_git_entry(dir: Seq<char>, depth: usize, es: Seq<DirEntryInfo>, result: DirResult)
    requires
        spec_classify_listing(dir, depth, es, result),
    ensures
        (exists|i: int| 0 <= i < es.len() && #[trigger] es[i].name@ == seq!['.', 'g', 'i', 't'])
            ==> (result matches DirResult::Repo(p) && p@ == dir),
        (forall|i: int| 0 <= i < es.len() ==> #[trigger] es[i].name@ != seq!['.', 'g', 'i', 't'])
            ==> (result matches DirResult::Subdirs(v) && subdir_views(v@) == subdirs_of(
            es,
            (depth + 1) as nat,
        )),
{
    if exists|i: int| 0 <= i < es.len() && #[trigger] es[i].name@ == seq!['.', 'g', 'i', 't'] {
        let i = choose|i: int| 0 <= i < es.len() && #[trigger] es[i].name@ == seq!['.', 'g', 'i', 't'];
        assert(is_git_marker(es[i]));
    }
    if forall|i: int| 0 <= i < es.len() ==> #[trigger] es[i].name@ != seq!['.', 'g', 'i', 't'] {
        assert forall|i: int| 0 <= i < es.len() implies !is_git_marker(#[trigger] es[i]) by {
            assert(es[i].name@ != seq!['.', 'g', 'i', 't']);
        }
    }
}


/// Whether the listing `es` holds an entry at `path` whose type is known to
/// be a directory and not a symbolic link.
pub open spec fn lists_plain_dir(es: Seq<DirEntryInfo>, path: Seq<char>) -> bool {
    exists|i: int|
        0 <= i < es.len() && (#[trigger] es[i]).kind == (Some(FileKind { is_dir: true, is_symlink: false }))
            && es[i].path@ == path
}

/// The subdirectories that scanning a directory hands back are exactly its
/// entries whose type is known to be a directory and not a symbolic link,
/// each with its own path and one level deeper; links, files and entries
/// of unknown type are never descended into.
pub proof fn law_classify_descends_into_plain_dirs(
    dir: Seq<char>,
    depth: usize,
    es: Seq<DirEntryInfo>,
    v: Vec<(String, usize)>,
)
    requires
        depth < usize::MAX,
        spec_classify_listing(dir, depth, es, DirResult::Subdirs(v)),
    ensures
        forall|j: int|
            0 <= j < v@.len() ==> lists_plain_dir(es, (#[trigger] v@[j]).0@) && v@[j].1 == depth + 1,
        forall|i: int|
            0 <= i < es.len() && (#[trigger] es[i]).kind == (Some(FileKind { is_dir: true, is_symlink: false }))
                ==> exists|j: int| 0 <= j < v@.len() && v@[j].0@ == es[i].path@ && v@[j].1 == depth + 1,
{
    let d = (depth + 1) as nat;
    let sd = subdirs_of(es, d);
    lemma_subdirs_of_members(es, d);
    assert(subdir_views(v@) == sd);
    assert forall|j: int| 0 <= j < v@.len() implies lists_plain_dir(es, (#[trigger] v@[j]).0@) && v@[j].1
        == depth + 1 by {
        assert(sd[j] == (v@[j].0@, v@[j].1 as nat));
        let i = choose|i: int| 0 <= i < es.len() && is_descendable(es[i]) && #[trigger] sd[j] == (es[i].path@, d);
        assert(is_descendable(es[i]));
        assert(es[i].kind == (Some(FileKind { is_dir: true, is_symlink: false })));
    }
    assert forall|i: int|
        0 <= i < es.len() && (#[trigger] es[i]).kind == (Some(FileKind { is_dir: true, is_symlink: false })) implies exists|j: int|
            0 <= j < v@.len() && v@[j].0@ == es[i].path@ && v@[j].1 == depth + 1 by {
        assert(is_descendable(es[i]));
        let j = choose|j: int| 0 <= j < sd.len() && sd[j] == (es[i].path@, d);
        assert(sd[j] == (v@[j].0@, v@[j].1 as nat));
    }
}

} // verus!
