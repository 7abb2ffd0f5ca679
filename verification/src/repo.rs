//! Adding repositories to, and removing them from, the watched list.
//!
//! The paths a user names are resolved to absolute paths before they reach
//! this module (resolving them reads the file system); each arrives here
//! as a [`ResolvedPath`] carrying either the absolute path or the text of
//! the error that resolution met.

use vstd::prelude::*;
use vstd::string::StringExecFns;
use crate::config::Config;

verus! {

/// A path named by the user together with the outcome of resolving it to
/// an absolute path.
pub struct ResolvedPath {
    /// The path as the user wrote it.
    pub input: String,
    /// The absolute path, or the text of the error met while resolving.
    pub canonical: Result<String, String>,
}

impl View for ResolvedPath {
    type V = (Seq<char>, Result<Seq<char>, Seq<char>>);

    open spec fn view(&self) -> Self::V {
        (
            self.input@,
            match self.canonical {
                Ok(p) => Ok(p@),
                Err(e) => Err(e@),
            },
        )
    }
}

/// What adding a batch of paths did.
pub struct AddReposSummary {
    /// Paths newly added to the list.
    pub added: usize,
    /// Paths that were on the list already.
    pub already: usize,
    /// Paths that could not be resolved, each with the reason.
    pub failed: Vec<(String, String)>,
}

/// What removing a batch of paths did.
pub struct RemoveReposSummary {
    /// Paths taken off the list.
    pub removed: usize,
    /// Paths that were not on the list.
    pub missing: usize,
    /// Paths that could not be resolved, each with the reason.
    pub failed: Vec<(String, String)>,
}

/// One resolved input, as a pair of character sequences.
pub type ResolvedView = (Seq<char>, Result<Seq<char>, Seq<char>>);

/// The resolved inputs as character sequences.
pub open spec fn resolved_list(items: Seq<ResolvedPath>) -> Seq<ResolvedView> {
    items.map_values(|r: ResolvedPath| r@)
}

/// A failure list as character sequences.
pub open spec fn failure_list(f: Seq<(String, String)>) -> Seq<(Seq<char>, Seq<char>)> {
    f.map_values(|p: (String, String)| (p.0@, p.1@))
}

/// The state of the list while a batch is applied: the list, the inputs
/// met so far, the counts of inputs that changed and that did not change
/// the list, and the failures.
pub struct ListUpdate {
    pub repos: Seq<Seq<char>>,
    pub seen: Seq<Seq<char>>,
    pub changed: nat,
    pub unchanged: nat,
    pub failed: Seq<(Seq<char>, Seq<char>)>,
}

/// The reason recorded for a path that could not be resolved.
pub open spec fn missing_path_reason(err: Seq<char>) -> Seq<char> {
    "找不到指定的路径: "@ + err
}

/// `s` without any occurrence of `x`.
pub open spec fn remove_all(s: Seq<Seq<char>>, x: Seq<char>) -> Seq<Seq<char>> {
    s.filter(differs_from(x))
}

/// The test "is not `x`".
pub open spec fn differs_from(x: Seq<char>) -> spec_fn(Seq<char>) -> bool {
    |p: Seq<char>| p != x
}

/// The update before any input is applied.
pub open spec fn start_update(repos: Seq<Seq<char>>) -> ListUpdate {
    ListUpdate { repos, seen: Seq::empty(), changed: 0, unchanged: 0, failed: Seq::empty() }
}

/// Applies one input of an `add` batch: an input met before is skipped; an
/// unresolved one is a failure; a resolved one is appended unless listed.
pub open spec fn add_step(st: ListUpdate, item: ResolvedView) -> ListUpdate {
    if st.seen.contains(item.0) {
        st
    } else {
        match item.1 {
            Err(e) => ListUpdate {
                repos: st.repos,
                seen: st.seen.push(item.0),
                changed: st.changed,
                unchanged: st.unchanged,
                failed: st.failed.push((item.0, missing_path_reason(e))),
            },
            Ok(abs) => if st.repos.contains(abs) {
                ListUpdate {
                    repos: st.repos,
                    seen: st.seen.push(item.0),
                    changed: st.changed,
                    unchanged: st.unchanged + 1,
                    failed: st.failed,
                }
            } else {
                ListUpdate {
                    repos: st.repos.push(abs),
                    seen: st.seen.push(item.0),
                    changed: st.changed + 1,
                    unchanged: st.unchanged,
                    failed: st.failed,
                }
            },
        }
    }
}

/// Applies one input of a `remove` batch: an input met before is skipped;
/// an unresolved one is a failure; a resolved one is taken off the list
/// (every occurrence), counting as removed when it was listed.
pub open spec fn remove_step(st: ListUpdate, item: ResolvedView) -> ListUpdate {
    if st.seen.contains(item.0) {
        st
    } else {
        match item.1 {
            Err(e) => ListUpdate {
                repos: st.repos,
                seen: st.seen.push(item.0),
                changed: st.changed,
                unchanged: st.unchanged,
                failed: st.failed.push((item.0, missing_path_reason(e))),
            },
            Ok(abs) => if st.repos.contains(abs) {
                ListUpdate {
                    repos: remove_all(st.repos, abs),
                    seen: st.seen.push(item.0),
                    changed: st.changed + 1,
                    unchanged: st.unchanged,
                    failed: st.failed,
                }
            } else {
                ListUpdate {
                    repos: st.repos,
                    seen: st.seen.push(item.0),
                    changed: st.changed,
                    unchanged: st.unchanged + 1,
                    failed: st.failed,
                }
            },
        }
    }
}

/// The result of applying an `add` batch to `repos`, input by input.
pub open spec fn add_fold(repos: Seq<Seq<char>>, items: Seq<ResolvedView>) -> ListUpdate
    decreases items.len(),
{
    if items.len() == 0 {
        start_update(repos)
    } else {
        add_step(add_fold(repos, items.drop_last()), items.last())
    }
}

/// The result of applying a `remove` batch to `repos`, input by input.
pub open spec fn remove_fold(repos: Seq<Seq<char>>, items: Seq<ResolvedView>) -> ListUpdate
    decreases items.len(),
{
    if items.len() == 0 {
        start_update(repos)
    } else {
        remove_step(remove_fold(repos, items.drop_last()), items.last())
    }
}

fn contains_string(v: &Vec<String>, s: &String) -> (b: bool)
    ensures
        b == v.deep_view().contains(s@),
{
    let mut i: usize = 0;
    while i < v.len()
        invariant
            i <= v.len(),
            forall|j: int| 0 <= j < i ==> v.deep_view()[j] != s@,
        decreases v.len() - i,
    {
        if v[i] == *s {
            assert(v.deep_view()[i as int] == s@);
            return true;
        }
        i = i + 1;
    }
    false
}

fn missing_reason(err: &String) -> (r: String)
    ensures
        r@ == missing_path_reason(err@),
{
    let mut r = "找不到指定的路径: ".to_owned();
    r.append(err.as_str());
    r
}

proof fn lemma_fold_counts(repos: Seq<Seq<char>>, items: Seq<ResolvedView>)
    ensures
        add_fold(repos, items).changed + add_fold(repos, items).unchanged + add_fold(
            repos,
            items,
        ).failed.len() <= items.len(),
        remove_fold(repos, items).changed + remove_fold(repos, items).unchanged + remove_fold(
            repos,
            items,
        ).failed.len() <= items.len(),
    decreases items.len(),
{
    if items.len() > 0 {
        lemma_fold_counts(repos, items.drop_last());
    }
}

/// Adds the resolved paths to the watched list. An input path met before in
/// the batch is skipped; an unresolved path is reported as failed; a
/// resolved path is appended unless it is listed already. The caller saves
/// the configuration when `added > 0`.
pub fn add_repos(config: &mut Config, resolved: Vec<ResolvedPath>) -> (summary: AddReposSummary)
    ensures
        ({
            let st = add_fold(old(config).repo_list(), resolved_list(resolved@));
            &&& final(config).repo_list() == st.repos
            &&& summary.added == st.changed
            &&& summary.already == st.unchanged
            &&& failure_list(summary.failed@) == st.failed
        }),
        final(config).concurrency == old(config).concurrency,
        final(config).ssh_private_key_fallback == old(config).ssh_private_key_fallback,
{
    let ghost items = resolved_list(resolved@);
    let ghost start = old(config).repo_list();
    let mut seen: Vec<String> = Vec::new();
    let mut added: usize = 0;
    let mut already: usize = 0;
    let mut failed: Vec<(String, String)> = Vec::new();
    let mut i: usize = 0;
    assert(items.take(0) =~= Seq::<ResolvedView>::empty());
    assert(failure_list(failed@) =~= Seq::<(Seq<char>, Seq<char>)>::empty());
    while i < resolved.len()
        invariant
            i <= resolved.len(),
            items == resolved_list(resolved@),
            start == old(config).repo_list(),
            config.concurrency == old(config).concurrency,
            config.ssh_private_key_fallback == old(config).ssh_private_key_fallback,
            ({
                let st = add_fold(start, items.take(i as int));
                &&& config.repo_list() == st.repos
                &&& seen.deep_view() == st.seen
                &&& added == st.changed
                &&& already == st.unchanged
                &&& failure_list(failed@) == st.failed
            }),
        decreases resolved.len() - i,
    {
        proof {
            lemma_fold_counts(start, items.take(i as int));
        }
        let ghost prev = add_fold(start, items.take(i as int));
        assert(items.take(i + 1).drop_last() =~= items.take(i as int));
        assert(items.take(i + 1).last() == resolved@[i as int]@);
        let r = &resolved[i];
        if !contains_string(&seen, &r.input) {
            seen.push(r.input.clone());
            assert(seen.deep_view() =~= prev.seen.push(r.input@));
            match &r.canonical {
                Err(e) => {
                    let reason = missing_reason(e);
                    let ghost fl = failure_list(failed@);
                    failed.push((r.input.clone(), reason));
                    assert(failure_list(failed@) =~= fl.push((r.input@, missing_path_reason(e@))));
                },
                Ok(abs) => {
                    if config.contains_repo(abs) {
                        already = already + 1;
                    } else {
                        config.repos.push(abs.clone());
                        assert(config.repo_list() =~= prev.repos.push(abs@));
                        added = added + 1;
                    }
                },
            }
        }
        i = i + 1;
    }
    assert(items.take(resolved.len() as int) =~= items);
    AddReposSummary { added, already, failed }
}

fn remove_from_list(config: &mut Config, abs: &String) -> (removed: bool)
    ensures
        removed == old(config).repo_list().contains(abs@),
        final(config).repo_list() == remove_all(old(config).repo_list(), abs@),
        final(config).concurrency == old(config).concurrency,
        final(config).ssh_private_key_fallback == old(config).ssh_private_key_fallback,
{
    let ghost s = old(config).repo_list();
    let ghost pred = differs_from(abs@);
    let mut kept: Vec<String> = Vec::new();
    let mut found = false;
    let mut i: usize = 0;
    assert(s.take(0) =~= Seq::<Seq<char>>::empty());
    while i < config.repos.len()
        invariant
            i <= config.repos.len(),
            s == config.repo_list(),
            pred == differs_from(abs@),
            kept.deep_view() == s.take(i as int).filter(pred),
            found == s.take(i as int).contains(abs@),
        decreases config.repos.len() - i,
    {
        assert(s.take(i + 1) =~= s.take(i as int).push(s[i as int]));
        proof {
            s.take(i as int).lemma_filter_push(s[i as int], pred);
        }
        if config.repos[i] == *abs {
            found = true;
        } else {
            let ghost before = kept.deep_view();
            kept.push(config.repos[i].clone());
            assert(kept.deep_view() =~= before.push(s[i as int]));
        }
        proof {
            let t0 = s.take(i as int);
            let t1 = s.take(i + 1);
            assert(t1[i as int] == s[i as int]);
            if t1.contains(abs@) {
                let j = choose|j: int| 0 <= j < t1.len() && t1[j] == abs@;
                if j < i {
                    assert(t0[j] == abs@);
                }
            }
            if t0.contains(abs@) {
                let j = choose|j: int| 0 <= j < t0.len() && t0[j] == abs@;
                assert(t1[j] == abs@);
            }
        }
        i = i + 1;
    }
    assert(s.take(s.len() as int) =~= s);
    config.repos = kept;
    found
}

/// Removes the resolved paths from the watched list. An input path met
/// before in the batch is skipped; an unresolved path is reported as
/// failed; a resolved path is taken off the list (all its occurrences) and
/// counted as removed, or as missing when it was not listed. The caller
/// saves the configuration when `removed > 0`.
pub fn remove_repos(config: &mut Config, resolved: Vec<ResolvedPath>) -> (summary:
    RemoveReposSummary)
    ensures
        ({
            let st = remove_fold(old(config).repo_list(), resolved_list(resolved@));
            &&& final(config).repo_list() == st.repos
            &&& summary.removed == st.changed
            &&& summary.missing == st.unchanged
            &&& failure_list(summary.failed@) == st.failed
        }),
        final(config).concurrency == old(config).concurrency,
        final(config).ssh_private_key_fallback == old(config).ssh_private_key_fallback,
{
    let ghost items = resolved_list(resolved@);
    let ghost start = old(config).repo_list();
    let mut seen: Vec<String> = Vec::new();
    let mut removed: usize = 0;
    let mut missing: usize = 0;
    let mut failed: Vec<(String, String)> = Vec::new();
    let mut i: usize = 0;
    assert(items.take(0) =~= Seq::<ResolvedView>::empty());
    assert(failure_list(failed@) =~= Seq::<(Seq<char>, Seq<char>)>::empty());
    while i < resolved.len()
        invariant
            i <= resolved.len(),
            items == resolved_list(resolved@),
            start == old(config).repo_list(),
            config.concurrency == old(config).concurrency,
            config.ssh_private_key_fallback == old(config).ssh_private_key_fallback,
            ({
                let st = remove_fold(start, items.take(i as int));
                &&& config.repo_list() == st.repos
                &&& seen.deep_view() == st.seen
                &&& removed == st.changed
                &&& missing == st.unchanged
                &&& failure_list(failed@) == st.failed
            }),
        decreases resolved.len() - i,
    {
        proof {
            lemma_fold_counts(start, items.take(i as int));
        }
        let ghost prev = remove_fold(start, items.take(i as int));
        assert(items.take(i + 1).drop_last() =~= items.take(i as int));
        assert(items.take(i + 1).last() == resolved@[i as int]@);
        let r = &resolved[i];
        if !contains_string(&seen, &r.input) {
            seen.push(r.input.clone());
            assert(seen.deep_view() =~= prev.seen.push(r.input@));
            match &r.canonical {
                Err(e) => {
                    let reason = missing_reason(e);
                    let ghost fl = failure_list(failed@);
                    failed.push((r.input.clone(), reason));
                    assert(failure_list(failed@) =~= fl.push((r.input@, missing_path_reason(e@))));
                },
                Ok(abs) => {
                    if remove_from_list(config, abs) {
                        removed = removed + 1;
                    } else {
                        missing = missing + 1;
                        assert(remove_all(prev.repos, abs@) =~= prev.repos) by {
                            let pred = differs_from(abs@);

                            assert forall|j: int| 0 <= j < prev.repos.len() implies pred(
                                #[trigger] prev.repos[j],
                            ) by {}
                            lemma_filter_all(prev.repos, pred);
                        }
                    }
                },
            }
        }
        i = i + 1;
    }
    assert(items.take(resolved.len() as int) =~= items);
    RemoveReposSummary { removed, missing, failed }
}

/// A filter that keeps every element leaves the sequence as it is.
proof fn lemma_filter_all(s: Seq<Seq<char>>, pred: spec_fn(Seq<char>) -> bool)
    requires
        forall|j: int| 0 <= j < s.len() ==> pred(#[trigger] s[j]),
    ensures
        s.filter(pred) == s,
    decreases s.len(),
{
    reveal_with_fuel(Seq::filter, 1);
    if s.len() > 0 {
        lemma_filter_all(s.drop_last(), pred);
        assert(s.drop_last().push(s.last()) =~= s);
    }
}


/// What adding a single repository did.
#[derive(Debug, Clone, Copy, PartialEq, Eq, Structural)]
pub enum AddOutcome {
    /// The path was added to the list.
    Added,
    /// The path was on the list already.
    AlreadyListed,
}

/// Adds one repository, named `repo_path` and resolved to `canonical`: an
/// unresolved path is an error carrying the path and the reason; a listed
/// path leaves the list alone; any other is appended. The caller saves the
/// configuration when it was added.
pub fn add_repo(config: &mut Config, repo_path: String, canonical: Result<String, String>) -> (r:
    Result<AddOutcome, (String, String)>)
    ensures
        final(config).concurrency == old(config).concurrency,
        final(config).ssh_private_key_fallback == old(config).ssh_private_key_fallback,
        match canonical {
            Err(e) => {
                &&& r matches Err((p, reason)) && p@ == repo_path@ && reason@
                    == missing_path_reason(e@)
                &&& final(config).repo_list() == old(config).repo_list()
            },
            Ok(abs) => if old(config).repo_list().contains(abs@) {
                &&& r == Ok::<AddOutcome, (String, String)>(AddOutcome::AlreadyListed)
                &&& final(config).repo_list() == old(config).repo_list()
            } else {
                &&& r == Ok::<AddOutcome, (String, String)>(AddOutcome::Added)
                &&& final(config).repo_list() == old(config).repo_list().push(abs@)
            },
        },
{
    match canonical {
        Err(e) => {
            let reason = missing_reason(&e);
            Err((repo_path, reason))
        },
        Ok(abs) => {
            if config.add_repo(abs) {
                Ok(AddOutcome::Added)
            } else {
                Ok(AddOutcome::AlreadyListed)
            }
        },
    }
}

/// The input names of a batch, in order.
pub open spec fn input_names(items: Seq<ResolvedView>) -> Seq<Seq<char>> {
    items.map_values(|it: ResolvedView| it.0)
}

/// The absolute paths a batch acts on: those of the resolved inputs whose
/// name was not met earlier in the batch.
pub open spec fn batch_targets(items: Seq<ResolvedView>) -> Set<Seq<char>>
    decreases items.len(),
{
    if items.len() == 0 {
        Set::empty()
    } else {
        let prev = batch_targets(items.drop_last());
        let last = items.last();
        if !input_names(items.drop_last()).contains(last.0) && last.1 is Ok {
            prev.insert(last.1->Ok_0)
        } else {
            prev
        }
    }
}

proof fn lemma_names_drop_last(items: Seq<ResolvedView>)
    requires
        items.len() > 0,
    ensures
        input_names(items.drop_last()) == input_names(items).drop_last(),
        input_names(items).last() == items.last().0,
        input_names(items).len() == items.len(),
{
    assert(input_names(items.drop_last()) =~= input_names(items).drop_last());
}

proof fn lemma_contains_push(s: Seq<Seq<char>>, a: Seq<char>, x: Seq<char>)
    ensures
        s.push(a).contains(x) <==> s.contains(x) || x == a,
{
    if s.push(a).contains(x) {
        let j = choose|j: int| 0 <= j < s.push(a).len() && s.push(a)[j] == x;
        if j < s.len() {
            assert(s[j] == x);
        }
    }
    if s.contains(x) {
        let j = choose|j: int| 0 <= j < s.len() && s[j] == x;
        assert(s.push(a)[j] == x);
    }
    assert(s.push(a)[s.len() as int] == a);
}

proof fn lemma_seen_tracks_names(repos: Seq<Seq<char>>, items: Seq<ResolvedView>)
    ensures
        forall|x: Seq<char>|
            add_fold(repos, items).seen.contains(x) <==> input_names(items).contains(x),
        forall|x: Seq<char>|
            remove_fold(repos, items).seen.contains(x) <==> input_names(items).contains(x),
        add_fold(repos, items).seen.no_duplicates(),
        remove_fold(repos, items).seen.no_duplicates(),
        add_fold(repos, items).seen.len() == add_fold(repos, items).changed + add_fold(
            repos,
            items,
        ).unchanged + add_fold(repos, items).failed.len(),
        remove_fold(repos, items).seen.len() == remove_fold(repos, items).changed
            + remove_fold(repos, items).unchanged + remove_fold(repos, items).failed.len(),
    decreases items.len(),
{
    if items.len() == 0 {
        assert(input_names(items) =~= Seq::<Seq<char>>::empty());
    } else {
        let rest = items.drop_last();
        lemma_seen_tracks_names(repos, rest);
        lemma_names_drop_last(items);
        let name = items.last().0;
        let a = add_fold(repos, rest);
        let r = remove_fold(repos, rest);
        assert forall|x: Seq<char>| input_names(items).contains(x) <==> input_names(
            rest,
        ).contains(x) || x == name by {
            assert(input_names(rest).push(name) =~= input_names(items));
            lemma_contains_push(input_names(rest), name, x);
        }
        assert forall|x: Seq<char>| a.seen.push(name).contains(x) <==> a.seen.contains(x) || x
            == name by {
            lemma_contains_push(a.seen, name, x);
        }
        assert forall|x: Seq<char>| r.seen.push(name).contains(x) <==> r.seen.contains(x) || x
            == name by {
            lemma_contains_push(r.seen, name, x);
        }
        if !a.seen.contains(name) {
            assert(a.seen.push(name).no_duplicates()) by {
                assert forall|i: int, j: int|
                    0 <= i < a.seen.push(name).len() && 0 <= j < a.seen.push(name).len() && i
                        != j implies a.seen.push(name)[i] != a.seen.push(name)[j] by {
                    if i < a.seen.len() && j == a.seen.len() {
                        assert(a.seen[i] == a.seen.push(name)[i]);
                    }
                    if j < a.seen.len() && i == a.seen.len() {
                        assert(a.seen[j] == a.seen.push(name)[j]);
                    }
                }
            }
        }
        if !r.seen.contains(name) {
            assert(r.seen.push(name).no_duplicates()) by {
                assert forall|i: int, j: int|
                    0 <= i < r.seen.push(name).len() && 0 <= j < r.seen.push(name).len() && i
                        != j implies r.seen.push(name)[i] != r.seen.push(name)[j] by {
                    if i < r.seen.len() && j == r.seen.len() {
                        assert(r.seen[i] == r.seen.push(name)[i]);
                    }
                    if j < r.seen.len() && i == r.seen.len() {
                        assert(r.seen[j] == r.seen.push(name)[j]);
                    }
                }
            }
        }
    }
}

proof fn lemma_no_dup_push(s: Seq<Seq<char>>, a: Seq<char>)
    requires
        s.no_duplicates(),
        !s.contains(a),
    ensures
        s.push(a).no_duplicates(),
{
    assert forall|i: int, j: int|
        0 <= i < s.push(a).len() && 0 <= j < s.push(a).len() && i != j implies s.push(a)[i]
        != s.push(a)[j] by {
        if i < s.len() && j == s.len() {
            assert(s[i] == s.push(a)[i]);
        }
        if j < s.len() && i == s.len() {
            assert(s[j] == s.push(a)[j]);
        }
    }
}

/// Adding a batch keeps what was listed, in its order, and appends one
/// entry per path added: the old list is a prefix of the new one, which is
/// longer by the number of paths added, and a list without duplicates stays
/// without duplicates.
pub proof fn law_add_repos_extends(repos: Seq<Seq<char>>, items: Seq<ResolvedView>)
    ensures
        add_fold(repos, items).repos.len() == repos.len() + add_fold(repos, items).changed,
        add_fold(repos, items).repos.take(repos.len() as int) == repos,
        repos.no_duplicates() ==> add_fold(repos, items).repos.no_duplicates(),
    decreases items.len(),
{
    if items.len() == 0 {
        assert(repos.take(repos.len() as int) =~= repos);
    } else {
        let rest = items.drop_last();
        law_add_repos_extends(repos, rest);
        let prev = add_fold(repos, rest);
        let last = items.last();
        if !prev.seen.contains(last.0) {
            if let Ok(abs) = last.1 {
                if !prev.repos.contains(abs) {
                    assert(prev.repos.push(abs).take(repos.len() as int) =~= prev.repos.take(
                        repos.len() as int,
                    ));
                    if repos.no_duplicates() {
                        lemma_no_dup_push(prev.repos, abs);
                    }
                }
            }
        }
    }
}

/// After adding a batch, a path is listed exactly when it was listed
/// before or it is the resolved path of an input of the batch (the first
/// occurrence of each input name counts).
pub proof fn law_add_repos_contents(repos: Seq<Seq<char>>, items: Seq<ResolvedView>)
    ensures
        forall|x: Seq<char>|
            add_fold(repos, items).repos.contains(x) <==> repos.contains(x) || batch_targets(
                items,
            ).contains(x),
    decreases items.len(),
{
    if items.len() > 0 {
        let rest = items.drop_last();
        law_add_repos_contents(repos, rest);
        lemma_seen_tracks_names(repos, rest);
        let prev = add_fold(repos, rest);
        let last = items.last();
        if !prev.seen.contains(last.0) {
            if let Ok(abs) = last.1 {
                assert forall|x: Seq<char>| prev.repos.push(abs).contains(x) <==> prev.repos.contains(
                    x,
                ) || x == abs by {
                    lemma_contains_push(prev.repos, abs, x);
                }
            }
        }
    }
}

/// Every distinct input name of a batch is reported exactly once, as added
/// (or removed), as already listed (or missing), or as failed; inputs met
/// again later in the batch are not counted.
pub proof fn law_batch_counts(repos: Seq<Seq<char>>, items: Seq<ResolvedView>)
    ensures
        add_fold(repos, items).seen.no_duplicates(),
        forall|x: Seq<char>|
            add_fold(repos, items).seen.contains(x) <==> input_names(items).contains(x),
        add_fold(repos, items).changed + add_fold(repos, items).unchanged + add_fold(
            repos,
            items,
        ).failed.len() == add_fold(repos, items).seen.len(),
        remove_fold(repos, items).seen.no_duplicates(),
        forall|x: Seq<char>|
            remove_fold(repos, items).seen.contains(x) <==> input_names(items).contains(x),
        remove_fold(repos, items).changed + remove_fold(repos, items).unchanged + remove_fold(
            repos,
            items,
        ).failed.len() == remove_fold(repos, items).seen.len(),
{
    lemma_seen_tracks_names(repos, items);
}

proof fn lemma_filter_filter(
    s: Seq<Seq<char>>,
    p: spec_fn(Seq<char>) -> bool,
    q: spec_fn(Seq<char>) -> bool,
    pq: spec_fn(Seq<char>) -> bool,
)
    requires
        forall|x: Seq<char>| #[trigger] pq(x) == (p(x) && q(x)),
    ensures
        s.filter(p).filter(q) == s.filter(pq),
    decreases s.len(),
{
    reveal_with_fuel(Seq::filter, 1);
    if s.len() > 0 {
        lemma_filter_filter(s.drop_last(), p, q, pq);
        let x = s.last();
        s.drop_last().lemma_filter_push(x, p);
        assert(s.drop_last().push(x) =~= s);
        if p(x) {
            s.drop_last().filter(p).lemma_filter_push(x, q);
        }
    }
}

/// The test "is not acted on by the batch `items`".
pub open spec fn not_targeted(items: Seq<ResolvedView>) -> spec_fn(Seq<char>) -> bool {
    |p: Seq<char>| !batch_targets(items).contains(p)
}

/// After removing a batch, the list is the old list without the resolved
/// paths of the batch's inputs (the first occurrence of each input name
/// counts), the other entries keeping their order.
pub proof fn law_remove_repos_contents(repos: Seq<Seq<char>>, items: Seq<ResolvedView>)
    ensures
        remove_fold(repos, items).repos == repos.filter(not_targeted(items)),
    decreases items.len(),
{
    if items.len() == 0 {
        lemma_filter_all(repos, not_targeted(items));
    } else {
        let rest = items.drop_last();
        law_remove_repos_contents(repos, rest);
        lemma_seen_tracks_names(repos, rest);
        lemma_names_drop_last(items);
        let prev = remove_fold(repos, rest);
        let last = items.last();
        if prev.seen.contains(last.0) || last.1 is Err {
            assert(not_targeted(items) =~= not_targeted(rest));
        } else {
            let abs = last.1->Ok_0;
            lemma_filter_filter(repos, not_targeted(rest), differs_from(abs), not_targeted(items));
            if !prev.repos.contains(abs) {
                lemma_filter_all(prev.repos, differs_from(abs));
            }
        }
    }
}

proof fn lemma_add_suffix_targeted(repos: Seq<Seq<char>>, items: Seq<ResolvedView>)
    ensures
        forall|i: int|
            repos.len() <= i < add_fold(repos, items).repos.len() ==> batch_targets(items).contains(
                #[trigger] add_fold(repos, items).repos[i],
            ),
    decreases items.len(),
{
    law_add_repos_extends(repos, items);
    if items.len() > 0 {
        let rest = items.drop_last();
        lemma_add_suffix_targeted(repos, rest);
        lemma_seen_tracks_names(repos, rest);
        lemma_names_drop_last(items);
        law_add_repos_extends(repos, rest);
        let prev = add_fold(repos, rest);
        let cur = add_fold(repos, items);
        assert forall|i: int| repos.len() <= i < cur.repos.len() implies batch_targets(
            items,
        ).contains(#[trigger] cur.repos[i]) by {
            if i < prev.repos.len() {
                assert(cur.repos[i] == prev.repos[i]);
            }
        }
    }
}

/// Adding a batch and then removing the same batch gives the list back,
/// when none of the batch's paths was listed before: what `add_repos`
/// appends, `remove_repos` takes off again.
pub proof fn law_add_then_remove_restores(repos: Seq<Seq<char>>, items: Seq<ResolvedView>)
    requires
        forall|x: Seq<char>| batch_targets(items).contains(x) ==> !repos.contains(x),
    ensures
        remove_fold(add_fold(repos, items).repos, items).repos == repos,
{
    let added = add_fold(repos, items).repos;
    law_add_repos_extends(repos, items);
    lemma_add_suffix_targeted(repos, items);
    law_remove_repos_contents(added, items);
    let keep = not_targeted(items);
    let suffix = added.skip(repos.len() as int);
    assert(added =~= repos + suffix);
    Seq::filter_distributes_over_add(repos, suffix, keep);
    assert forall|j: int| 0 <= j < repos.len() implies keep(#[trigger] repos[j]) by {
        assert(repos.contains(repos[j]));
    }
    lemma_filter_all(repos, keep);
    assert forall|j: int| 0 <= j < suffix.len() implies !keep(#[trigger] suffix[j]) by {
        assert(suffix[j] == added[repos.len() + j]);
    }
    suffix.lemma_all_neg_filter_empty(keep);
    assert(suffix.filter(keep) =~= Seq::<Seq<char>>::empty());
    assert(repos + suffix.filter(keep) =~= repos);
}

} // verus!
