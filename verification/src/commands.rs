//! Steps shared by the batch commands (`status`, `update`, `clone`): the
//! plan of clone targets, and putting results that finish in any order
//! back into the order of the input.

use vstd::prelude::*;
use vstd::seq_lib::*;
use crate::config::{Config, ConfigError};
use crate::git::ops::{infer_repo_dir, spec_infer_repo_dir};
use crate::text::{push_char, str_to_chars};
use vstd::string::StringExecFns;

verus! {

/// Whether a list of indexed results is ordered by index.
pub open spec fn sorted_by_index<T>(s: Seq<(usize, T)>) -> bool {
    forall|i: int, j: int| 0 <= i < j < s.len() ==> s[i].0 <= s[j].0
}

/// The test "has index `k`".
pub open spec fn has_index<T>(k: usize) -> spec_fn((usize, T)) -> bool {
    |x: (usize, T)| x.0 == k
}

proof fn lemma_single_filter<T>(x: (usize, T), p: spec_fn((usize, T)) -> bool)
    ensures
        seq![x].filter(p) == (if p(x) {
            seq![x]
        } else {
            Seq::<(usize, T)>::empty()
        }),
{
    reveal_with_fuel(Seq::filter, 2);
    assert(seq![x].drop_last() =~= Seq::<(usize, T)>::empty());
}

proof fn lemma_none_kept<T>(s: Seq<(usize, T)>, p: spec_fn((usize, T)) -> bool)
    requires
        forall|i: int| 0 <= i < s.len() ==> !p(#[trigger] s[i]),
    ensures
        s.filter(p) == Seq::<(usize, T)>::empty(),
{
    assert(s.all(|x: (usize, T)| !p(x)));
    s.lemma_all_neg_filter_empty(p);
    assert(s.filter(p) =~= Seq::<(usize, T)>::empty());
}

/// Moving the first item of `rest0` to position `pos` of `out0` (after
/// every item of no greater index, before every item of greater index)
/// keeps, for each index, the items with that index in their order.
proof fn lemma_insert_keeps_index_order<T>(
    out0: Seq<(usize, T)>,
    pos: int,
    rest0: Seq<(usize, T)>,
    k: usize,
)
    requires
        0 <= pos <= out0.len(),
        rest0.len() > 0,
        forall|i: int| 0 <= i < pos ==> out0[i].0 <= rest0[0].0,
        forall|i: int| pos <= i < out0.len() ==> out0[i].0 > rest0[0].0,
    ensures
        out0.insert(pos, rest0[0]).filter(has_index::<T>(k)) + rest0.drop_first().filter(
            has_index::<T>(k),
        ) == out0.filter(has_index::<T>(k)) + rest0.filter(has_index::<T>(k)),
{
    let p = has_index::<T>(k);
    let item = rest0[0];
    let a = out0.take(pos);
    let b = out0.skip(pos);
    let one = seq![item];
    assert(out0 =~= a + b);
    assert(out0.insert(pos, item) =~= (a + one) + b);
    assert(rest0 =~= one + rest0.drop_first());
    Seq::filter_distributes_over_add(a, b, p);
    Seq::filter_distributes_over_add(a + one, b, p);
    Seq::filter_distributes_over_add(a, one, p);
    Seq::filter_distributes_over_add(one, rest0.drop_first(), p);
    lemma_single_filter(item, p);
    if item.0 == k {
        assert forall|i: int| 0 <= i < b.len() implies !p(#[trigger] b[i]) by {
            assert(b[i] == out0[pos + i]);
        }
        lemma_none_kept(b, p);
    }
    assert(out0.insert(pos, item).filter(p) + rest0.drop_first().filter(p) =~= out0.filter(p)
        + rest0.filter(p));
}

/// Orders results by their index, as a stable sort does: the results come
/// out by increasing index, and the results of each index keep the order
/// they had (so the results stay the same, as a multiset).
pub fn order_by_index<T>(items: Vec<(usize, T)>) -> (out: Vec<(usize, T)>)
    ensures
        sorted_by_index(out@),
        forall|k: usize| #[trigger] out@.filter(has_index::<T>(k)) == items@.filter(has_index::<T>(k)),
        out@.to_multiset() == items@.to_multiset(),
{
    broadcast use group_to_multiset_ensures, vstd::multiset::group_multiset_axioms;

    let mut rest = items;
    let mut out: Vec<(usize, T)> = Vec::new();
    proof {
        reveal_with_fuel(Seq::filter, 1);
        assert forall|k: usize|
            #[trigger] out@.filter(has_index::<T>(k)) + rest@.filter(has_index::<T>(k))
                == items@.filter(has_index::<T>(k)) by {
            assert(out@.filter(has_index::<T>(k)) =~= Seq::<(usize, T)>::empty());
            assert(Seq::<(usize, T)>::empty() + rest@.filter(has_index::<T>(k)) =~= rest@.filter(
                has_index::<T>(k),
            ));
        }
    }
    while rest.len() > 0
        invariant
            out@.to_multiset().add(rest@.to_multiset()) == items@.to_multiset(),
            sorted_by_index(out@),
            forall|k: usize|
                #[trigger] out@.filter(has_index::<T>(k)) + rest@.filter(has_index::<T>(k))
                    == items@.filter(has_index::<T>(k)),
        decreases rest.len(),
    {
        let ghost rest0 = rest@;
        let item = rest.remove(0);
        proof {
            to_multiset_remove(rest0, 0);
            assert(rest0.contains(item)) by {
                assert(rest0[0] == item);
            }
            to_multiset_contains(rest0, item);
        }
        let mut pos: usize = 0;
        while pos < out.len() && out[pos].0 <= item.0
            invariant
                pos <= out.len(),
                forall|k: int| 0 <= k < pos ==> out@[k].0 <= item.0,
            decreases out.len() - pos,
        {
            pos = pos + 1;
        }
        assert(pos < out.len() ==> out@[pos as int].0 > item.0);
        let ghost out0 = out@;
        out.insert(pos, item);
        proof {
            to_multiset_insert(out0, pos as int, item);
            assert(out@ == out0.insert(pos as int, item));
            assert forall|i: int, j: int| 0 <= i < j < out@.len() implies out@[i].0 <= out@[j].0 by {
                if j < pos {
                    assert(out@[i] == out0[i] && out@[j] == out0[j]);
                } else if j == pos {
                    assert(out@[i] == out0[i]);
                } else if i < pos {
                    assert(out@[i] == out0[i] && out@[j] == out0[j - 1]);
                    if pos < out0.len() {
                        assert(out0[i].0 <= out0[pos as int].0);
                    }
                } else if i == pos {
                    assert(out@[j] == out0[j - 1]);
                    assert(!(out0[pos as int].0 <= item.0));
                    assert(out0[pos as int].0 <= out0[j - 1].0 || j - 1 == pos);
                } else {
                    assert(out@[i] == out0[i - 1] && out@[j] == out0[j - 1]);
                }
            }
            assert(rest@ == rest0.remove(0));
            assert(out@.to_multiset().add(rest@.to_multiset()) =~= out0.to_multiset().add(
                rest0.to_multiset(),
            ));
            assert(rest0.remove(0) =~= rest0.drop_first());
            assert forall|i: int| pos <= i < out0.len() implies out0[i].0 > rest0[0].0 by {
                assert(out0[pos as int].0 > item.0);
                assert(out0[pos as int].0 <= out0[i].0 || i == pos);
            }
            assert forall|k: usize|
                #[trigger] out@.filter(has_index::<T>(k)) + rest@.filter(has_index::<T>(k))
                    == items@.filter(has_index::<T>(k)) by {
                lemma_insert_keeps_index_order(out0, pos as int, rest0, k);
            }
        }
    }
    out
}


/// `name` placed under the directory `base`, as `Path::join` places a
/// relative name that holds no separator and no drive prefix: a separator
/// is put between them unless `base` is empty or already ends with one.
/// `sep` is the platform's separator (`std::path::MAIN_SEPARATOR`: `/` on
/// Unix, `\` on Windows); `/` counts as a separator on every platform.
pub open spec fn spec_join_path(base: Seq<char>, name: Seq<char>, sep: char) -> Seq<char> {
    if base.len() == 0 {
        name
    } else if base.last() == '/' || base.last() == sep {
        base + name
    } else {
        base.push(sep) + name
    }
}

/// Places `name` under the directory `base`, `sep` being the platform's
/// path separator.
pub fn join_path(base: &str, name: &str, sep: char) -> (p: String)
    ensures
        p@ == spec_join_path(base@, name@, sep),
{
    let b = str_to_chars(base);
    let mut p = base.to_owned();
    if b.len() > 0 && b[b.len() - 1] != '/' && b[b.len() - 1] != sep {
        push_char(&mut p, sep);
    }
    p.append(name);
    p
}

/// Where a clone of `url` goes under `base`.
pub open spec fn spec_clone_dest(base: Seq<char>, url: Seq<char>, sep: char) -> Seq<char> {
    spec_join_path(base, spec_infer_repo_dir(url), sep)
}

/// One repository of a `clone` batch and where it would go.
pub struct CloneTarget {
    /// Its position in the batch.
    pub index: usize,
    /// The repository address.
    pub repo: String,
    /// The directory the clone would create.
    pub dest: String,
    /// Whether an earlier repository of the batch goes to the same place
    /// (such a repository is not cloned).
    pub conflict: bool,
}

fn contains_text_string(v: &Vec<String>, s: &String) -> (b: bool)
    ensures
        b == exists|j: int| 0 <= j < v@.len() && #[trigger] v@[j]@ == s@,
{
    let mut i: usize = 0;
    while i < v.len()
        invariant
            i <= v.len(),
            forall|j: int| 0 <= j < i ==> #[trigger] v@[j]@ != s@,
        decreases v.len() - i,
    {
        if v[i] == *s {
            assert(v@[i as int]@ == s@);
            return true;
        }
        i = i + 1;
    }
    false
}

/// Plans a `clone` batch under the directory `base_dir` (`sep` being the
/// platform's path separator): each repository goes to the directory named
/// after its address; one whose directory an earlier repository of the
/// batch already takes is a conflict.
pub fn plan_clone_targets(base_dir: &str, sep: char, repos: &Vec<String>) -> (plan: Vec<CloneTarget>)
    ensures
        plan@.len() == repos@.len(),
        forall|i: int|
            0 <= i < plan@.len() ==> {
                &&& (#[trigger] plan@[i]).index == i
                &&& plan@[i].repo@ == repos@[i]@
                &&& plan@[i].dest@ == spec_clone_dest(base_dir@, repos@[i]@, sep)
                &&& plan@[i].conflict == exists|j: int|
                    0 <= j < i && #[trigger] plan@[j].dest@ == plan@[i].dest@
            },
{
    let mut plan: Vec<CloneTarget> = Vec::new();
    let mut dests: Vec<String> = Vec::new();
    let mut i: usize = 0;
    while i < repos.len()
        invariant
            i <= repos.len(),
            plan@.len() == i,
            dests@.len() == i,
            forall|k: int| 0 <= k < i ==> #[trigger] dests@[k]@ == plan@[k].dest@,
            forall|k: int|
                0 <= k < i ==> {
                    &&& (#[trigger] plan@[k]).index == k
                    &&& plan@[k].repo@ == repos@[k]@
                    &&& plan@[k].dest@ == spec_clone_dest(base_dir@, repos@[k]@, sep)
                    &&& plan@[k].conflict == exists|j: int|
                        0 <= j < k && #[trigger] plan@[j].dest@ == plan@[k].dest@
                },
        decreases repos.len() - i,
    {
        let name = infer_repo_dir(repos[i].as_str());
        let dest = join_path(base_dir, name.as_str(), sep);
        let conflict = contains_text_string(&dests, &dest);
        let ghost plan0 = plan@;
        let ghost dests0 = dests@;
        plan.push(CloneTarget { index: i, repo: repos[i].clone(), dest: dest.clone(), conflict });
        dests.push(dest);
        proof {
            assert forall|k: int| 0 <= k < i + 1 implies #[trigger] dests@[k]@ == plan@[k].dest@ by {
                if k < i {
                    assert(dests@[k] == dests0[k] && plan@[k] == plan0[k]);
                }
            }
            assert forall|k: int|
                0 <= k < i + 1 implies {
                    &&& (#[trigger] plan@[k]).index == k
                    &&& plan@[k].repo@ == repos@[k]@
                    &&& plan@[k].dest@ == spec_clone_dest(base_dir@, repos@[k]@, sep)
                    &&& plan@[k].conflict == exists|j: int|
                        0 <= j < k && #[trigger] plan@[j].dest@ == plan@[k].dest@
                } by {
                if k < i {
                    assert(plan@[k] == plan0[k]);
                    assert forall|j: int| 0 <= j < k implies plan@[j] == plan0[j] by {}
                } else {
                    if conflict {
                        let j = choose|j: int| 0 <= j < dests0.len() && #[trigger] dests0[j]@ == dest@;
                        assert(plan@[j] == plan0[j]);
                    } else {
                        assert forall|j: int| 0 <= j < k implies #[trigger] plan@[j].dest@ != plan@[k].dest@ by {
                            assert(plan@[j] == plan0[j]);
                            assert(dests0[j]@ != dest@);
                        }
                    }
                }
            }
        }
        i = i + 1;
    }
    plan
}


/// How a batch command over the watched repositories starts.
#[derive(Debug, Clone, Copy, PartialEq, Eq, Structural)]
pub enum BatchStart {
    /// No repository is watched: there is nothing to do.
    Empty,
    /// The batch runs, this many repositories at once.
    Run(usize),
}

/// Decides how `status` and `update` start: with no watched repository
/// there is nothing to do (whatever the concurrency); otherwise a
/// concurrency of 0 is refused, and any other is used.
pub fn start_batch(config: &Config) -> (r: Result<BatchStart, ConfigError>)
    ensures
        config.repo_list().len() == 0 ==> r == Ok::<BatchStart, ConfigError>(BatchStart::Empty),
        config.repo_list().len() > 0 && config.spec_concurrency() == 0 ==> r == Err::<
            BatchStart,
            ConfigError,
        >(ConfigError::ZeroConcurrency),
        config.repo_list().len() > 0 && config.spec_concurrency() > 0 ==> r == Ok::<
            BatchStart,
            ConfigError,
        >(BatchStart::Run(config.spec_concurrency())),
{
    if config.repos.len() == 0 {
        return Ok(BatchStart::Empty);
    }
    match config.usable_concurrency() {
        Ok(n) => Ok(BatchStart::Run(n)),
        Err(e) => Err(e),
    }
}

/// What a finished `clone` batch gives: the directories that were cloned,
/// and each repository that failed with its reason.
pub struct CloneReport {
    /// The cloned directories, in the order of the batch.
    pub cloned: Vec<String>,
    /// The failed repositories and why, in the order they failed.
    pub failures: Vec<(String, String)>,
}

/// A list of pairs of strings as pairs of character sequences.
pub open spec fn pair_views(v: Seq<(String, String)>) -> Seq<(Seq<char>, Seq<char>)> {
    v.map_values(|p: (String, String)| (p.0@, p.1@))
}

/// A list of strings as character sequences.
pub open spec fn string_views(v: Seq<String>) -> Seq<Seq<char>> {
    v.map_values(|p: String| p@)
}

/// The directories of the clones that succeeded, in order. Each outcome is
/// its index, then the repository, the directory, and the error message
/// when the clone failed.
pub open spec fn cloned_dests(s: Seq<(usize, (String, String, Option<String>))>) -> Seq<Seq<char>>
    decreases s.len(),
{
    if s.len() == 0 {
        Seq::empty()
    } else {
        let rest = cloned_dests(s.drop_last());
        match s.last().1.2 {
            None => rest.push(s.last().1.1@),
            Some(_) => rest,
        }
    }
}

/// The repositories whose clone failed, with the error message, in order.
pub open spec fn clone_failures(s: Seq<(usize, (String, String, Option<String>))>) -> Seq<
    (Seq<char>, Seq<char>),
>
    decreases s.len(),
{
    if s.len() == 0 {
        Seq::empty()
    } else {
        let rest = clone_failures(s.drop_last());
        match s.last().1.2 {
            Some(e) => rest.push((s.last().1.0@, e@)),
            None => rest,
        }
    }
}

/// Splits the outcomes of a `clone` batch, already put back into the
/// batch's order, into the cloned directories and the failures; the
/// failures found while planning (`earlier`) come first.
pub fn split_clone_outcomes(
    ordered: &Vec<(usize, (String, String, Option<String>))>,
    earlier: Vec<(String, String)>,
) -> (r: CloneReport)
    ensures
        string_views(r.cloned@) == cloned_dests(ordered@),
        pair_views(r.failures@) == pair_views(earlier@) + clone_failures(ordered@),
{
    let mut cloned: Vec<String> = Vec::new();
    let mut failures = earlier;
    let ghost start = pair_views(failures@);
    let mut i: usize = 0;
    assert(ordered@.take(0) =~= Seq::<(usize, (String, String, Option<String>))>::empty());
    assert(string_views(cloned@) =~= Seq::<Seq<char>>::empty());
    assert(start + Seq::<(Seq<char>, Seq<char>)>::empty() =~= start);
    while i < ordered.len()
        invariant
            i <= ordered.len(),
            string_views(cloned@) == cloned_dests(ordered@.take(i as int)),
            pair_views(failures@) == start + clone_failures(ordered@.take(i as int)),
            start == pair_views(earlier@),
        decreases ordered.len() - i,
    {
        let ghost c0 = string_views(cloned@);
        let ghost f0 = pair_views(failures@);
        assert(ordered@.take(i + 1).drop_last() =~= ordered@.take(i as int));
        assert(ordered@.take(i + 1).last() == ordered@[i as int]);
        let item = &ordered[i];
        match &item.1.2 {
            Some(e) => {
                failures.push((item.1.0.clone(), e.clone()));
                assert(pair_views(failures@) =~= f0.push((item.1.0@, e@)));
                assert(string_views(cloned@) == c0);
            },
            None => {
                cloned.push(item.1.1.clone());
                assert(string_views(cloned@) =~= c0.push(item.1.1@));
                assert(pair_views(failures@) == f0);
            },
        }
        i = i + 1;
    }
    assert(ordered@.take(ordered.len() as int) =~= ordered@);
    CloneReport { cloned, failures }
}

} // verus!
