//! The scheduling decisions of a build: which rule runs next, which are
//! skipped because a dependency failed, and what each rule's outcome is.
//! The caller runs the commands, possibly in parallel, and reports back.
use vstd::prelude::*;
use crate::graph::{
    acyclic, count, item_maps, item_maps_exec, lemma_count_take, lemma_count_take_le, lemma_name_index,
    name_index, ranked, rule_names, sort_by_key, sorted_by, BuildGraph, GraphView,
};
use crate::env::EnvMap;
use crate::parser::{clone_strings, expand_vars, expanded, has_rule, names_distinct, strs, BuildFile, Rule, RuleView};
use crate::text::{chars_of, decimal, decimal_vec, lemma_lex_total, lex_lt, push_chars};

verus! {

/// Outcome of a single rule.
#[derive(Debug, Clone)]
pub enum RuleResult {
    Success(String),
    Skipped(String),
    Failed(String, String),
}

pub enum ResultView {
    Success(Seq<char>),
    Skipped(Seq<char>),
    Failed(Seq<char>, Seq<char>),
}

impl View for RuleResult {
    type V = ResultView;

    open spec fn view(&self) -> ResultView {
        match self {
            RuleResult::Success(n) => ResultView::Success(n@),
            RuleResult::Skipped(n) => ResultView::Skipped(n@),
            RuleResult::Failed(n, m) => ResultView::Failed(n@, m@),
        }
    }
}

pub open spec fn results_view(v: Seq<RuleResult>) -> Seq<ResultView> {
    v.map_values(|r: RuleResult| r@)
}

/// The rule a result is about.
pub open spec fn result_name(r: ResultView) -> Seq<char> {
    match r {
        ResultView::Success(n) => n,
        ResultView::Skipped(n) => n,
        ResultView::Failed(n, _) => n,
    }
}

/// Options controlling execution.
#[derive(Debug, Clone)]
pub struct ExecOptions {
    pub jobs: usize,
    pub dry_run: bool,
    pub verbose: bool,
}

/// Where a rule of the plan stands.
#[derive(Debug, Clone, Copy)]
pub enum Stage {
    /// Some dependency has not finished.
    Waiting,
    /// Queued: every dependency has finished.
    Ready,
    /// Taken from the queue, its dependencies all succeeded; the caller
    /// decides whether it runs.
    Claimed,
    /// Its commands are running.
    Running,
    /// Finished without failure: run, up to date, or shown in a dry run.
    Done,
    /// Finished with failure, its own or a dependency's.
    Failed,
}

pub open spec fn is_finished(s: Stage) -> bool {
    s is Done || s is Failed
}

/// The scheduler's state, as mathematical values.
pub struct SchedView {
    /// The rules of the plan, by position.
    pub names: Seq<Seq<char>>,
    /// `deps[p]`: the positions of the dependencies of rule `p` that are
    /// in the plan, once per dependency edge.
    pub deps: Seq<Seq<usize>>,
    pub stage: Seq<Stage>,
    /// The queue of ready rules, front first.
    pub ready: Seq<usize>,
    pub running: nat,
    /// The outcomes so far, in the order the rules finished.
    pub results: Seq<ResultView>,
    /// The positions of the finished rules, in the order they finished.
    pub finished: Seq<usize>,
    pub phony: Seq<bool>,
    /// Whether the rule is subject to the up-to-date check (not phony,
    /// with inputs).
    pub checked: Seq<bool>,
}

pub open spec fn deps_finished(v: SchedView, p: int) -> bool {
    forall|k: int| 0 <= k < v.deps[p].len() ==> is_finished(#[trigger] v.stage[v.deps[p][k] as int])
}

pub open spec fn deps_succeeded(v: SchedView, p: int) -> bool {
    forall|k: int| 0 <= k < v.deps[p].len() ==> #[trigger] v.stage[v.deps[p][k] as int] is Done
}

pub open spec fn dep_failed(v: SchedView, p: int) -> bool {
    exists|k: int| 0 <= k < v.deps[p].len() && #[trigger] v.stage[v.deps[p][k] as int] is Failed
}

/// The number of positions in stage `Running`.
pub open spec fn count_running(s: Seq<Stage>) -> nat
    decreases s.len(),
{
    if s.len() == 0 {
        0
    } else {
        count_running(s.drop_last()) + (if s.last() is Running {
            1nat
        } else {
            0nat
        })
    }
}

pub open spec fn dependency_failed_text() -> Seq<char> {
    "dependency failed"@
}

/// The plan's shape: one entry per rule, dependencies in range, distinct
/// names, no dependency cycle.
pub open spec fn shape_ok(v: SchedView) -> bool {
    let n = v.names.len();
    &&& n <= usize::MAX
    &&& v.deps.len() == n
    &&& v.stage.len() == n
    &&& v.phony.len() == n
    &&& v.checked.len() == n
    &&& forall|p: int, k: int| 0 <= p < n && 0 <= k < v.deps[p].len() ==> #[trigger] v.deps[p][k] < n
    &&& forall|p: int, r: int| 0 <= p < n && 0 <= r < n && p != r ==> #[trigger] v.names[p] != #[trigger] v.names[r]
    &&& acyclic(v.deps)
}

/// The queue holds the ready rules other than `q`, once each, and nothing
/// else.
pub open spec fn queue_ok(v: SchedView, q: int) -> bool {
    &&& v.ready.no_duplicates()
    &&& forall|t: int|
        0 <= t < v.ready.len() ==> #[trigger] v.ready[t] < v.names.len() && v.ready[t] as int != q
            && v.stage[v.ready[t] as int] is Ready
    &&& forall|p: usize|
        (p as int) < v.names.len() && p as int != q && #[trigger] v.stage[p as int] is Ready ==> v.ready.contains(p)
}

/// A rule waits exactly while some dependency is unfinished.
pub open spec fn wait_ok(v: SchedView) -> bool {
    forall|p: usize| (p as int) < v.names.len() ==> ((#[trigger] v.stage[p as int] is Waiting) <==> !deps_finished(v, p as int))
}

/// A rule is taken, run or done only once all its dependencies succeeded.
pub open spec fn order_ok(v: SchedView) -> bool {
    forall|p: usize|
        (p as int) < v.names.len() && (#[trigger] v.stage[p as int] is Claimed || v.stage[p as int] is Running
            || v.stage[p as int] is Done) ==> deps_succeeded(v, p as int)
}

/// One result per finished rule, in finishing order; a rule whose
/// dependency failed fails with that reason.
pub open spec fn results_ok(v: SchedView) -> bool {
    let n = v.names.len();
    &&& v.running == count_running(v.stage)
    &&& v.finished.no_duplicates()
    &&& v.finished.len() == v.results.len()
    &&& forall|i: int|
        0 <= i < v.finished.len() ==> #[trigger] v.finished[i] < n && is_finished(v.stage[v.finished[i] as int])
    &&& forall|p: usize| (p as int) < n && is_finished(#[trigger] v.stage[p as int]) ==> v.finished.contains(p)
    &&& forall|i: int|
        0 <= i < v.finished.len() ==> result_name(#[trigger] v.results[i]) == v.names[v.finished[i] as int]
    &&& forall|i: int|
        0 <= i < v.finished.len() ==> ((#[trigger] v.results[i] is Failed) <==> v.stage[v.finished[i] as int] is Failed)
    &&& forall|i: int|
        0 <= i < v.finished.len() && dep_failed(v, v.finished[i] as int) ==> #[trigger] v.results[i]
            == ResultView::Failed(v.names[v.finished[i] as int], dependency_failed_text())
}

/// A rule that finished without failure finished after each of its
/// dependencies.
pub open spec fn finish_order_ok(v: SchedView) -> bool {
    forall|i: int, k: int|
        #![trigger v.deps[v.finished[i] as int][k]]
        0 <= i < v.finished.len() && v.stage[v.finished[i] as int] is Done && 0 <= k < v.deps[v.finished[i] as int].len()
            ==> finished_before(v, i, v.deps[v.finished[i] as int][k])
}

/// Rule `d` is among the first `i` rules to finish.
pub open spec fn finished_before(v: SchedView, i: int, d: usize) -> bool {
    exists|j: int| 0 <= j < i && v.finished[j] == d
}

/// Moving an unfinished rule to another unfinished stage keeps the
/// finishing order.
proof fn lemma_finish_order_keep(v0: SchedView, v: SchedView, p: usize, x: Stage)
    requires
        finish_order_ok(v0),
        results_ok(v0),
        shape_ok(v0),
        (p as int) < v0.stage.len(),
        !is_finished(v0.stage[p as int]),
        !is_finished(x),
        v.finished == v0.finished,
        v.deps == v0.deps,
        v.stage == v0.stage.update(p as int, x),
    ensures
        finish_order_ok(v),
{
    assert forall|i: int, k: int|
        #![trigger v.deps[v.finished[i] as int][k]]
        0 <= i < v.finished.len() && v.stage[v.finished[i] as int] is Done && 0 <= k < v.deps[v.finished[i] as int].len()
            implies finished_before(v, i, v.deps[v.finished[i] as int][k]) by {
        assert(is_finished(v0.stage[v0.finished[i] as int]));
        assert(v0.finished[i] != p);
        assert(v0.stage[v0.finished[i] as int] is Done);
        assert(finished_before(v0, i, v0.deps[v0.finished[i] as int][k]));
    }
}

/// Finishing rule `q` keeps the finishing order: a rule finishing without
/// failure has all its dependencies finished already.
proof fn lemma_finish_order_push(v0: SchedView, v: SchedView, q: usize)
    requires
        finish_order_ok(v0),
        results_ok(v0),
        shape_ok(v0),
        (q as int) < v0.names.len(),
        !is_finished(v0.stage[q as int]),
        v.finished == v0.finished.push(q),
        v.deps == v0.deps,
        v.stage.len() == v0.stage.len(),
        forall|p: int| 0 <= p < v0.stage.len() && p != q && #[trigger] v.stage[p] is Done ==> v0.stage[p] is Done,
        v.stage[q as int] is Done ==> deps_succeeded(v0, q as int),
    ensures
        finish_order_ok(v),
{
    let l = v0.finished.len() as int;
    assert forall|i: int, k: int|
        #![trigger v.deps[v.finished[i] as int][k]]
        0 <= i < v.finished.len() && v.stage[v.finished[i] as int] is Done && 0 <= k < v.deps[v.finished[i] as int].len()
            implies finished_before(v, i, v.deps[v.finished[i] as int][k]) by {
        if i < l {
            assert(v.finished[i] == v0.finished[i]);
            assert(is_finished(v0.stage[v0.finished[i] as int]));
            assert(v0.finished[i] != q);
            assert(v0.stage[v0.finished[i] as int] is Done);
            assert(finished_before(v0, i, v0.deps[v0.finished[i] as int][k]));
            let j = choose|j: int| 0 <= j < i && v0.finished[j] == v0.deps[v0.finished[i] as int][k];
            assert(v.finished[j] == v0.finished[j]);
        } else {
            assert(v.finished[i] == q);
            let d = v0.deps[q as int][k];
            assert(v0.stage[d as int] is Done);
            assert(d < v0.names.len());
            assert(v0.finished.contains(d));
            let j = choose|j: int| 0 <= j < v0.finished.len() && v0.finished[j] == d;
            assert(v.finished[j] == d);
        }
    }
}

/// The invariant of a schedule.
pub open spec fn consistent(v: SchedView) -> bool {
    &&& shape_ok(v)
    &&& queue_ok(v, -1)
    &&& wait_ok(v)
    &&& order_ok(v)
    &&& results_ok(v)
    &&& finish_order_ok(v)
    &&& one_claim(v)
}

/// At most one rule is taken and awaits its start.
pub open spec fn one_claim(v: SchedView) -> bool {
    forall|p: int, q: int|
        0 <= p < v.stage.len() && 0 <= q < v.stage.len() && #[trigger] v.stage[p] is Claimed
            && #[trigger] v.stage[q] is Claimed ==> p == q
}

/// The lowest rank of a node, or 0 for no node.
spec fn min_rank(rank: Seq<int>) -> int
    decreases rank.len(),
{
    if rank.len() == 0 {
        0
    } else if rank.len() == 1 {
        rank[0]
    } else {
        let m = min_rank(rank.drop_last());
        if rank.last() < m {
            rank.last()
        } else {
            m
        }
    }
}

proof fn lemma_min_rank(rank: Seq<int>, i: int)
    requires
        0 <= i < rank.len(),
    ensures
        min_rank(rank) <= rank[i],
    decreases rank.len(),
{
    if rank.len() > 1 && i < rank.len() - 1 {
        lemma_min_rank(rank.drop_last(), i);
        assert(rank.drop_last()[i] == rank[i]);
    }
}

/// Below an unfinished rule whose dependencies are not all finished there is
/// an unfinished rule that waits for none.
proof fn lemma_unfinished_root(v: SchedView, rank: Seq<int>, p: usize) -> (q: usize)
    requires
        shape_ok(v),
        wait_ok(v),
        ranked(v.deps, rank),
        (p as int) < v.names.len(),
        !is_finished(v.stage[p as int]),
    ensures
        (q as int) < v.names.len(),
        !is_finished(v.stage[q as int]),
        !(v.stage[q as int] is Waiting),
    decreases rank[p as int] - min_rank(rank),
{
    if v.stage[p as int] is Waiting {
        assert(!deps_finished(v, p as int));
        let k = choose|k: int|
            0 <= k < v.deps[p as int].len() && !is_finished(#[trigger] v.stage[v.deps[p as int][k] as int]);
        let d = v.deps[p as int][k];
        assert(rank[d as int] < rank[p as int]);
        lemma_min_rank(rank, d as int);
        lemma_unfinished_root(v, rank, d)
    } else {
        p
    }
}

/// When no rule is queued, taken or running, every rule of the plan has
/// finished: the schedule never stalls.
pub proof fn lemma_idle_means_finished(v: SchedView)
    requires
        consistent(v),
        v.ready.len() == 0,
        v.running == 0,
        forall|p: int| 0 <= p < v.names.len() ==> !(#[trigger] v.stage[p] is Claimed),
    ensures
        forall|p: int| 0 <= p < v.names.len() ==> is_finished(#[trigger] v.stage[p]),
{
    let rank = choose|rank: Seq<int>| ranked(v.deps, rank);
    assert forall|p: int| 0 <= p < v.names.len() implies is_finished(#[trigger] v.stage[p]) by {
        if !is_finished(v.stage[p]) {
            let q = lemma_unfinished_root(v, rank, p as usize);
            assert(!v.ready.contains(q));
            lemma_running_pos(v.stage, q as int);
        }
    }
}

proof fn lemma_running_pos(s: Seq<Stage>, q: int)
    requires
        0 <= q < s.len(),
        s[q] is Running,
    ensures
        count_running(s) > 0,
    decreases s.len(),
{
    if q < s.len() - 1 {
        lemma_running_pos(s.drop_last(), q);
        assert(s.drop_last()[q] == s[q]);
    }
}


/// The number of entries of `ds` whose rule has not finished.
pub open spec fn unfinished_count(ds: Seq<usize>, stage: Seq<Stage>) -> nat
    decreases ds.len(),
{
    if ds.len() == 0 {
        0
    } else {
        unfinished_count(ds.drop_last(), stage) + (if is_finished(stage[ds.last() as int]) {
            0nat
        } else {
            1nat
        })
    }
}

proof fn lemma_unfinished_update(ds: Seq<usize>, s: Seq<Stage>, q: usize, x: Stage)
    requires
        q < s.len(),
        !is_finished(s[q as int]),
        is_finished(x),
        forall|k: int| 0 <= k < ds.len() ==> #[trigger] ds[k] < s.len(),
    ensures
        unfinished_count(ds, s.update(q as int, x)) + count(ds, q) == unfinished_count(ds, s),
    decreases ds.len(),
{
    if ds.len() > 0 {
        assert(ds[ds.len() - 1] < s.len());
        lemma_unfinished_update(ds.drop_last(), s, q, x);
    }
}

proof fn lemma_unfinished_same(ds: Seq<usize>, s1: Seq<Stage>, s2: Seq<Stage>)
    requires
        forall|k: int| 0 <= k < ds.len() ==> is_finished(s1[#[trigger] ds[k] as int]) == is_finished(s2[ds[k] as int]),
    ensures
        unfinished_count(ds, s1) == unfinished_count(ds, s2),
    decreases ds.len(),
{
    if ds.len() > 0 {
        assert(is_finished(s1[ds[ds.len() - 1] as int]) == is_finished(s2[ds[ds.len() - 1] as int]));
        lemma_unfinished_same(ds.drop_last(), s1, s2);
    }
}

proof fn lemma_unfinished_zero(ds: Seq<usize>, s: Seq<Stage>)
    ensures
        (unfinished_count(ds, s) == 0) <==> (forall|k: int| 0 <= k < ds.len() ==> is_finished(#[trigger] s[ds[k] as int])),
    decreases ds.len(),
{
    if ds.len() > 0 {
        lemma_unfinished_zero(ds.drop_last(), s);
        if unfinished_count(ds, s) == 0 {
            assert forall|k: int| 0 <= k < ds.len() implies is_finished(#[trigger] s[ds[k] as int]) by {
                if k < ds.len() - 1 {
                    assert(ds.drop_last()[k] == ds[k]);
                }
            }
        } else if unfinished_count(ds.drop_last(), s) > 0 {
            let k = choose|k: int| 0 <= k < ds.drop_last().len() && !is_finished(#[trigger] s[ds.drop_last()[k] as int]);
            assert(ds.drop_last()[k] == ds[k]);
        } else {
            assert(!is_finished(s[ds[ds.len() - 1] as int]));
        }
    }
}

proof fn lemma_count_running_update(s: Seq<Stage>, i: int, x: Stage)
    requires
        0 <= i < s.len(),
    ensures
        count_running(s.update(i, x)) + (if s[i] is Running {
            1int
        } else {
            0int
        }) == count_running(s) + (if x is Running {
            1int
        } else {
            0int
        }),
    decreases s.len(),
{
    if i < s.len() - 1 {
        lemma_count_running_update(s.drop_last(), i, x);
        assert(s.update(i, x).drop_last() =~= s.drop_last().update(i, x));
    } else {
        assert(s.update(i, x).drop_last() =~= s.drop_last());
    }
}

/// `v` lists rules in strictly ascending order of name.
pub open spec fn ascending(v: Seq<usize>, names: Seq<Seq<char>>) -> bool {
    forall|i: int, j: int| 0 <= i < j < v.len() ==> lex_lt(names[#[trigger] v[i] as int], names[#[trigger] v[j] as int])
}

/// The schedule of a build plan: which rules wait, which are queued, which
/// run, and the outcome of each finished rule.
pub struct Scheduler {
    names: Vec<String>,
    keys: Vec<Vec<char>>,
    deps: Vec<Vec<usize>>,
    dependents: Vec<Vec<usize>>,
    indeg: Vec<usize>,
    stage: Vec<Stage>,
    ready: Vec<usize>,
    running: usize,
    results: Vec<RuleResult>,
    finished: Ghost<Seq<usize>>,
    phony: Vec<bool>,
    checked: Vec<bool>,
}

pub open spec fn index_lists(v: Seq<Vec<usize>>) -> Seq<Seq<usize>> {
    v.map_values(|x: Vec<usize>| x@)
}

impl View for Scheduler {
    type V = SchedView;

    closed spec fn view(&self) -> SchedView {
        SchedView {
            names: strs(self.names@),
            deps: index_lists(self.deps@),
            stage: self.stage@,
            ready: self.ready@,
            running: self.running as nat,
            results: results_view(self.results@),
            finished: self.finished@,
            phony: self.phony@,
            checked: self.checked@,
        }
    }
}

impl Scheduler {
    /// The bookkeeping behind the view: name keys, reverse edges, and the
    /// count of unfinished dependencies of each rule.
    spec fn internal_ok(&self) -> bool {
        let v = self@;
        let n = v.names.len();
        &&& self.keys@.len() == n
        &&& forall|p: int| 0 <= p < n ==> (#[trigger] self.keys@[p])@ == v.names[p]
        &&& self.dependents@.len() == n
        &&& forall|r: int, t: int|
            0 <= r < n && 0 <= t < self.dependents@[r]@.len() ==> #[trigger] self.dependents@[r]@[t] < n
        &&& forall|p: usize, r: usize|
            (p as int) < n && (r as int) < n ==> count(#[trigger] self.dependents@[r as int]@, p) == count(
                #[trigger] v.deps[p as int],
                r,
            )
        &&& self.indeg@.len() == n
        &&& forall|p: int| 0 <= p < n ==> #[trigger] self.indeg@[p] == unfinished_count(v.deps[p], v.stage)
    }

    /// The schedule is well formed.
    pub closed spec fn wf(&self) -> bool {
        &&& consistent(self@)
        &&& self.internal_ok()
    }

    /// A well-formed schedule satisfies the stated invariant.
    pub proof fn lemma_wf_consistent(&self)
        requires
            self.wf(),
        ensures
            consistent(self@),
    {
    }
}



proof fn lemma_count_pos(s: Seq<usize>, x: usize)
    ensures
        (count(s, x) > 0) <==> s.contains(x),
    decreases s.len(),
{
    if s.len() > 0 {
        lemma_count_pos(s.drop_last(), x);
        if s.drop_last().contains(x) {
            let k = choose|k: int| 0 <= k < s.drop_last().len() && s.drop_last()[k] == x;
            assert(s[k] == x);
        }
        if s.contains(x) && s.last() != x {
            let k = choose|k: int| 0 <= k < s.len() && s[k] == x;
            assert(s.drop_last()[k] == x);
        }
    }
}

/// How finishing rule `q` changed the schedule `v0` into `v`: its result
/// is appended, and the rules that waited only for it are queued, in
/// ascending order of name, behind the rules already queued.
pub open spec fn completed(v0: SchedView, v: SchedView, q: usize, r: ResultView, failed: bool) -> bool {
    let released = v.ready.subrange(v0.ready.len() as int, v.ready.len() as int);
    &&& v.names == v0.names
    &&& v.deps == v0.deps
    &&& v.phony == v0.phony
    &&& v.checked == v0.checked
    &&& v.results == v0.results.push(r)
    &&& v.finished == v0.finished.push(q)
    &&& v.running + (if v0.stage[q as int] is Running {
        1int
    } else {
        0int
    }) == v0.running
    &&& v0.ready.len() <= v.ready.len()
    &&& v.ready.subrange(0, v0.ready.len() as int) == v0.ready
    &&& released.no_duplicates()
    &&& ascending(released, v.names)
    &&& forall|p: usize|
        (p as int) < v.names.len() ==> (#[trigger] released.contains(p) <==> (v0.stage[p as int] is Waiting
            && v0.deps[p as int].contains(q) && deps_finished(v, p as int)))
    &&& v.stage.len() == v0.stage.len()
    &&& v.stage[q as int] == (if failed {
        Stage::Failed
    } else {
        Stage::Done
    })
    &&& forall|p: usize|
        (p as int) < v.names.len() && p != q ==> #[trigger] v.stage[p as int] == (if released.contains(p) {
            Stage::Ready
        } else {
            v0.stage[p as int]
        })
}

/// Takes one off `indeg[d]` for each entry `d` of `dq`; returns the entries
/// whose count reached zero, once each.
fn count_down(indeg: &mut Vec<usize>, dq: &Vec<usize>) -> (newly: Vec<usize>)
    requires
        forall|j: int| 0 <= j < dq@.len() ==> #[trigger] dq@[j] < old(indeg)@.len(),
        forall|p: usize| (p as int) < old(indeg)@.len() ==> count(dq@, p) <= #[trigger] old(indeg)@[p as int],
    ensures
        final(indeg)@.len() == old(indeg)@.len(),
        forall|p: usize|
            (p as int) < old(indeg)@.len() ==> #[trigger] final(indeg)@[p as int] + count(dq@, p) == old(indeg)@[p as int],
        newly@.no_duplicates(),
        forall|j: int|
            0 <= j < newly@.len() ==> #[trigger] newly@[j] < old(indeg)@.len() && count(dq@, newly@[j]) > 0
                && final(indeg)@[newly@[j] as int] == 0,
        forall|p: usize|
            #![trigger final(indeg)@[p as int]]
            (p as int) < old(indeg)@.len() && count(dq@, p) > 0 && final(indeg)@[p as int] == 0 ==> newly@.contains(p),
{
    let ghost ind0 = indeg@;
    let len = indeg.len();
    let mut newly: Vec<usize> = Vec::new();
    let mut t: usize = 0;
    assert(dq@.take(0) =~= seq![]);
    while t < dq.len()
        invariant
            t <= dq@.len(),
            len == ind0.len(),
            indeg@.len() == len,
            forall|j: int| 0 <= j < dq@.len() ==> #[trigger] dq@[j] < len,
            forall|p: usize| p < len ==> count(dq@, p) <= #[trigger] ind0[p as int],
            forall|p: usize| p < len ==> #[trigger] indeg@[p as int] + count(dq@.take(t as int), p) == ind0[p as int],
            newly@.no_duplicates(),
            forall|j: int|
                0 <= j < newly@.len() ==> #[trigger] newly@[j] < len && count(dq@.take(t as int), newly@[j]) > 0
                    && indeg@[newly@[j] as int] == 0,
            forall|p: usize|
                #![trigger indeg@[p as int]]
                p < len && count(dq@.take(t as int), p) > 0 && indeg@[p as int] == 0 ==> newly@.contains(p),
        decreases dq@.len() - t,
    {
        let d = dq[t];
        proof {
            lemma_count_take(dq@, t as int, d);
            lemma_count_take_le(dq@, t + 1, d);
            assert(indeg@[d as int] + count(dq@.take(t as int), d) == ind0[d as int]);
        }
        let ghost nw0 = newly@;
        let ghost in0 = indeg@;
        let k = indeg[d] - 1;
        indeg.set(d, k);
        proof {
            assert(indeg@ == in0.update(d as int, k));
            assert(dq@[t as int] == d);
            assert forall|p: usize| p < len implies #[trigger] indeg@[p as int] + count(dq@.take(t + 1), p)
                == ind0[p as int] by {
                lemma_count_take(dq@, t as int, p);
                if p != d {
                    assert(indeg@[p as int] == in0[p as int]);
                }
            }
        }
        if k == 0 {
            proof {
                if nw0.contains(d) {
                    let j = choose|j: int| 0 <= j < nw0.len() && nw0[j] == d;
                    assert(in0[nw0[j] as int] == 0);
                }
            }
            newly.push(d);
        }
        proof {
            assert(newly@ == if k == 0 {
                nw0.push(d)
            } else {
                nw0
            });
            assert forall|j: int| 0 <= j < newly@.len() implies #[trigger] newly@[j] < len && count(
                dq@.take(t + 1),
                newly@[j],
            ) > 0 && indeg@[newly@[j] as int] == 0 by {
                let p = newly@[j];
                lemma_count_take(dq@, t as int, p);
                if j < nw0.len() {
                    assert(nw0[j] == p);
                    if p == d {
                        assert(in0[d as int] >= 1);
                    }
                }
            }
            assert forall|p: usize|
                #![trigger indeg@[p as int]]
                p < len && count(dq@.take(t + 1), p) > 0 && indeg@[p as int] == 0 implies newly@.contains(p) by {
                lemma_count_take(dq@, t as int, p);
                if p == d {
                    assert(newly@[newly@.len() - 1] == d);
                } else {
                    assert(indeg@[p as int] == in0[p as int]);
                    assert(nw0.contains(p));
                    let j = choose|j: int| 0 <= j < nw0.len() && nw0[j] == p;
                    assert(newly@[j] == p);
                }
            }
            assert forall|a: int, b: int| 0 <= a < b < newly@.len() implies newly@[a] != newly@[b] by {
                if b == newly@.len() - 1 && k == 0 {
                    assert(in0[nw0[a] as int] == 0);
                } else {
                    assert(nw0[a] != nw0[b]);
                }
            }
        }
        t += 1;
    }
    assert(dq@.take(dq@.len() as int) =~= dq@);
    newly
}

/// Lowers the in-degree of each dependent of a finished rule, once per entry
/// of `dependents`, and returns the dependents whose in-degree reached
/// zero, each once, in ascending order of their keys.
pub fn notify_dependents(indeg: &mut Vec<usize>, dependents: &Vec<usize>, keys: &Vec<Vec<char>>) -> (ready: Vec<usize>)
    requires
        keys@.len() == old(indeg)@.len(),
        forall|j: int| 0 <= j < dependents@.len() ==> #[trigger] dependents@[j] < old(indeg)@.len(),
        forall|p: usize| (p as int) < old(indeg)@.len() ==> count(dependents@, p) <= #[trigger] old(indeg)@[p as int],
    ensures
        final(indeg)@.len() == old(indeg)@.len(),
        forall|p: usize|
            (p as int) < old(indeg)@.len() ==> #[trigger] final(indeg)@[p as int] + count(dependents@, p)
                == old(indeg)@[p as int],
        ready@.no_duplicates(),
        sorted_by(ready@, keys@.map_values(|k: Vec<char>| k@)),
        forall|j: int|
            0 <= j < ready@.len() ==> #[trigger] ready@[j] < old(indeg)@.len() && count(dependents@, ready@[j]) > 0
                && final(indeg)@[ready@[j] as int] == 0,
        forall|p: usize|
            #![trigger final(indeg)@[p as int]]
            (p as int) < old(indeg)@.len() && count(dependents@, p) > 0 && final(indeg)@[p as int] == 0
                ==> ready@.contains(p),
{
    let newly = count_down(indeg, dependents);
    let sorted = sort_by_key(&newly, keys);
    proof {
        assert forall|j: int| 0 <= j < sorted@.len() implies #[trigger] sorted@[j] < old(indeg)@.len() && count(
            dependents@,
            sorted@[j],
        ) > 0 && indeg@[sorted@[j] as int] == 0 by {
            assert(sorted@.contains(sorted@[j]));
            let w = choose|w: int| 0 <= w < newly@.len() && newly@[w] == sorted@[j];
        }
        assert forall|p: usize|
            #![trigger indeg@[p as int]]
            (p as int) < old(indeg)@.len() && count(dependents@, p) > 0 && indeg@[p as int] == 0 implies sorted@.contains(p) by {
            assert(newly@.contains(p));
        }
    }
    sorted
}

/// Marks the rules `items` ready and queues them, in that order.
fn enqueue(stage: &mut Vec<Stage>, ready: &mut Vec<usize>, items: &Vec<usize>)
    requires
        forall|a: int| 0 <= a < items@.len() ==> #[trigger] items@[a] < old(stage)@.len(),
    ensures
        final(stage)@.len() == old(stage)@.len(),
        final(ready)@ == old(ready)@ + items@,
        forall|p: usize|
            (p as int) < old(stage)@.len() ==> #[trigger] final(stage)@[p as int] == (if items@.contains(p) {
                Stage::Ready
            } else {
                old(stage)@[p as int]
            }),
{
    let ghost s0 = stage@;
    let ghost r0 = ready@;
    let len = stage.len();
    let mut j: usize = 0;
    assert(items@.take(0) =~= seq![]);
    assert(r0 + items@.take(0) =~= r0);
    while j < items.len()
        invariant
            j <= items@.len(),
            len == s0.len(),
            stage@.len() == len,
            forall|a: int| 0 <= a < items@.len() ==> #[trigger] items@[a] < len,
            ready@ == r0 + items@.take(j as int),
            forall|p: usize|
                p < len ==> #[trigger] stage@[p as int] == (if items@.take(j as int).contains(p) {
                    Stage::Ready
                } else {
                    s0[p as int]
                }),
        decreases items@.len() - j,
    {
        let x = items[j];
        let ghost st0 = stage@;
        stage.set(x, Stage::Ready);
        ready.push(x);
        proof {
            let rj = items@.take(j as int);
            let rj1 = items@.take(j + 1);
            assert(rj1 =~= rj.push(x));
            assert(ready@ =~= r0 + rj1);
            assert forall|p: usize| p < len implies #[trigger] stage@[p as int] == (if rj1.contains(p) {
                Stage::Ready
            } else {
                s0[p as int]
            }) by {
                if p != x {
                    assert(stage@[p as int] == st0[p as int]);
                    if rj1.contains(p) {
                        let a = choose|a: int| 0 <= a < rj1.len() && #[trigger] rj1[a] == p;
                        assert(a != j);
                        assert(rj[a] == p);
                    }
                    if rj.contains(p) {
                        let a = choose|a: int| 0 <= a < rj.len() && #[trigger] rj[a] == p;
                        assert(rj1[a] == p);
                    }
                } else {
                    assert(rj1[j as int] == x);
                }
            }
        }
        j += 1;
    }
    assert(items@.take(items@.len() as int) =~= items@);
}


/// The facts about the stages after finishing `q` and queueing `released`.
spec fn stage_change(v0: SchedView, s1: Seq<Stage>, s2: Seq<Stage>, q: usize, released: Seq<usize>) -> bool {
    let n = v0.names.len();
    &&& forall|p: usize| (p as int) < n && is_finished(#[trigger] v0.stage[p as int]) ==> s2[p as int] == v0.stage[p as int]
    &&& forall|p: usize| (p as int) < n && p != q ==> #[trigger] is_finished(s2[p as int]) == is_finished(v0.stage[p as int])
    &&& forall|p: int| 0 <= p < n ==> unfinished_count(#[trigger] v0.deps[p], s2) == unfinished_count(v0.deps[p], s1)
    &&& forall|p: usize|
        (p as int) < n && #[trigger] released.contains(p) ==> v0.stage[p as int] is Waiting && v0.deps[p as int].contains(q)
            && unfinished_count(v0.deps[p as int], s2) == 0
    &&& forall|p: usize|
        (p as int) < n && v0.stage[p as int] is Waiting && v0.deps[p as int].contains(q) && unfinished_count(
            #[trigger] v0.deps[p as int],
            s2,
        ) == 0 ==> released.contains(p)
}

/// How finishing rule `q` and queueing `released` changed the stages:
/// finished rules keep theirs, and the released rules are exactly those
/// that waited for `q` and for no other unfinished rule.
proof fn lemma_complete_stages(v0: SchedView, s1: Seq<Stage>, s2: Seq<Stage>, q: usize, fin: Stage, released: Seq<usize>)
    requires
        shape_ok(v0),
        wait_ok(v0),
        (q as int) < v0.names.len(),
        !(v0.stage[q as int] is Waiting),
        !is_finished(v0.stage[q as int]),
        is_finished(fin),
        s1 == v0.stage.update(q as int, fin),
        s2.len() == v0.names.len(),
        forall|p: usize|
            (p as int) < v0.names.len() ==> #[trigger] s2[p as int] == (if released.contains(p) {
                Stage::Ready
            } else {
                s1[p as int]
            }),
        forall|a: int|
            0 <= a < released.len() ==> #[trigger] released[a] < v0.names.len() && count(v0.deps[released[a] as int], q) > 0
                && unfinished_count(v0.deps[released[a] as int], s1) == 0,
        forall|p: usize|
            (p as int) < v0.names.len() && count(#[trigger] v0.deps[p as int], q) > 0 && unfinished_count(v0.deps[p as int], s1)
                == 0 ==> released.contains(p),
    ensures
        stage_change(v0, s1, s2, q, released),
{
    let n = v0.names.len();
    let s0 = v0.stage;
    assert(deps_finished(v0, q as int));
    assert(!released.contains(q)) by {
        lemma_unfinished_zero(v0.deps[q as int], s0);
        lemma_unfinished_update(v0.deps[q as int], s0, q, fin);
        if released.contains(q) {
            let a = choose|a: int| 0 <= a < released.len() && released[a] == q;
            assert(count(v0.deps[released[a] as int], q) > 0);
        }
    }
    assert forall|p: int| 0 <= p < n implies unfinished_count(#[trigger] v0.deps[p], s2) == unfinished_count(v0.deps[p], s1) by {
        assert forall|k: int| 0 <= k < v0.deps[p].len() implies is_finished(
            s2[#[trigger] v0.deps[p][k] as int],
        ) == is_finished(s1[v0.deps[p][k] as int]) by {
            let x = v0.deps[p][k];
            assert(x < n);
            if x != q && released.contains(x) {
                let a = choose|a: int| 0 <= a < released.len() && released[a] == x;
                assert(count(v0.deps[released[a] as int], q) > 0);
                lemma_count_pos(v0.deps[x as int], q);
                let j = choose|j: int| 0 <= j < v0.deps[x as int].len() && v0.deps[x as int][j] == q;
                assert(!is_finished(s0[v0.deps[x as int][j] as int]));
                assert(!deps_finished(v0, x as int));
                assert(s0[x as int] is Waiting);
            }
        }
        lemma_unfinished_same(v0.deps[p], s2, s1);
    }
    assert forall|p: usize|
        (p as int) < n && #[trigger] released.contains(p) implies v0.stage[p as int] is Waiting && v0.deps[p as int].contains(q)
            && unfinished_count(v0.deps[p as int], s2) == 0 by {
        let a = choose|a: int| 0 <= a < released.len() && released[a] == p;
        assert(count(v0.deps[released[a] as int], q) > 0);
        lemma_count_pos(v0.deps[p as int], q);
        let k = choose|k: int| 0 <= k < v0.deps[p as int].len() && v0.deps[p as int][k] == q;
        assert(!is_finished(s0[v0.deps[p as int][k] as int]));
        assert(!deps_finished(v0, p as int));
    }
    assert forall|p: usize|
        (p as int) < n && is_finished(#[trigger] v0.stage[p as int]) implies s2[p as int] == v0.stage[p as int] by {
        assert(p != q);
        if released.contains(p) {
            assert(v0.stage[p as int] is Waiting);
        }
    }
    assert forall|p: usize| (p as int) < n && p != q implies #[trigger] is_finished(s2[p as int]) == is_finished(
        v0.stage[p as int],
    ) by {
        if released.contains(p) {
            assert(v0.stage[p as int] is Waiting);
        }
    }
    assert forall|p: usize|
        (p as int) < n && v0.stage[p as int] is Waiting && v0.deps[p as int].contains(q) && unfinished_count(
            #[trigger] v0.deps[p as int],
            s2,
        ) == 0 implies released.contains(p) by {
        lemma_count_pos(v0.deps[p as int], q);
    }
}


proof fn lemma_count_running_same(s1: Seq<Stage>, s2: Seq<Stage>)
    requires
        s1.len() == s2.len(),
        forall|i: int| 0 <= i < s1.len() ==> (#[trigger] s1[i] is Running) == (s2[i] is Running),
    ensures
        count_running(s1) == count_running(s2),
    decreases s1.len(),
{
    if s1.len() > 0 {
        assert(s1[s1.len() - 1] is Running == s2[s2.len() - 1] is Running);
        lemma_count_running_same(s1.drop_last(), s2.drop_last());
    }
}

/// After finishing `q`, the queue holds exactly the ready rules, rules wait
/// exactly while a dependency is unfinished, and only rules whose
/// dependencies succeeded are taken, running or done.
proof fn lemma_complete_queue(v0: SchedView, v: SchedView, s1: Seq<Stage>, q: usize, fin: Stage, released: Seq<usize>)
    requires
        shape_ok(v0),
        queue_ok(v0, q as int),
        wait_ok(v0),
        order_ok(v0),
        (q as int) < v0.names.len(),
        v0.stage[q as int] is Ready || v0.stage[q as int] is Claimed || v0.stage[q as int] is Running,
        is_finished(fin),
        fin is Done ==> deps_succeeded(v0, q as int),
        s1 == v0.stage.update(q as int, fin),
        v.names == v0.names,
        v.deps == v0.deps,
        v.ready == v0.ready + released,
        released.no_duplicates(),
        v.stage.len() == v0.names.len(),
        forall|p: usize|
            (p as int) < v0.names.len() ==> #[trigger] v.stage[p as int] == (if released.contains(p) {
                Stage::Ready
            } else {
                s1[p as int]
            }),
        forall|a: int| 0 <= a < released.len() ==> #[trigger] released[a] < v0.names.len(),
        stage_change(v0, s1, v.stage, q, released),
    ensures
        queue_ok(v, -1),
        wait_ok(v),
        order_ok(v),
        count_running(v.stage) == count_running(s1),
{
    let n = v0.names.len();
    let s0 = v0.stage;
    let s2 = v.stage;
    assert(s1[q as int] == fin);
    assert(!released.contains(q));
    // the queue
    assert forall|a: int, b: int| 0 <= a < b < v.ready.len() implies v.ready[a] != v.ready[b] by {
        let l0 = v0.ready.len() as int;
        if a < l0 && b >= l0 {
            let x = v0.ready[a];
            assert(s0[x as int] is Ready);
            assert(v.ready[b] == released[b - l0]);
            assert(released.contains(released[b - l0]));
            if x == released[b - l0] {
                assert(s0[x as int] is Waiting);
            }
        } else if a >= l0 {
            assert(released[a - l0] != released[b - l0]);
        }
    }
    assert forall|t: int| 0 <= t < v.ready.len() implies #[trigger] v.ready[t] < n && v.ready[t] as int != -1
        && s2[v.ready[t] as int] is Ready by {
        let l0 = v0.ready.len() as int;
        if t < l0 {
            let x = v0.ready[t];
            assert(s0[x as int] is Ready);
            assert(x != q);
            if released.contains(x) {
                assert(s0[x as int] is Waiting);
            }
            assert(s2[x as int] == s1[x as int]);
        } else {
            assert(released.contains(released[t - l0]));
        }
    }
    assert forall|p: usize| (p as int) < n && p as int != -1 && #[trigger] s2[p as int] is Ready implies v.ready.contains(p) by {
        if released.contains(p) {
            let a = choose|a: int| 0 <= a < released.len() && released[a] == p;
            assert(v.ready[v0.ready.len() + a] == p);
        } else {
            assert(p != q);
            assert(s0[p as int] is Ready);
            assert(v0.ready.contains(p));
            let t = choose|t: int| 0 <= t < v0.ready.len() && v0.ready[t] == p;
            assert(v.ready[t] == p);
        }
    }
    // waiting exactly while a dependency is unfinished
    assert forall|p: usize| (p as int) < n implies ((#[trigger] s2[p as int] is Waiting) <==> !deps_finished(v, p as int)) by {
        lemma_unfinished_zero(v0.deps[p as int], s2);
        lemma_unfinished_zero(v0.deps[p as int], s0);
        lemma_unfinished_update(v0.deps[p as int], s0, q, fin);
        if p == q {
            assert(deps_finished(v0, q as int));
        } else if !released.contains(p) {
            if s0[p as int] is Waiting && !v0.deps[p as int].contains(q) {
                lemma_count_pos(v0.deps[p as int], q);
            }
        }
    }
    // taken, running or done only with every dependency succeeded
    assert forall|p: usize|
        (p as int) < n && (#[trigger] s2[p as int] is Claimed || s2[p as int] is Running || s2[p as int] is Done)
            implies deps_succeeded(v, p as int) by {
        if p != q {
            assert(s2[p as int] == s0[p as int]);
        }
        assert forall|k: int| 0 <= k < v.deps[p as int].len() implies #[trigger] s2[v.deps[p as int][k] as int] is Done by {
            let x = v.deps[p as int][k];
            assert(s0[x as int] is Done);
        }
    }
    assert forall|i: int| 0 <= i < s1.len() implies (#[trigger] s1[i] is Running) == (s2[i] is Running) by {
        let u = i as usize;
        if released.contains(u) {
            assert(s0[i] is Waiting);
        }
    }
    lemma_count_running_same(s1, s2);
}

/// After finishing `q`, the results record it, and every finished rule's
/// result is as the invariant demands.
proof fn lemma_complete_results(
    v0: SchedView,
    v: SchedView,
    s1: Seq<Stage>,
    q: usize,
    r: ResultView,
    failed: bool,
    released: Seq<usize>,
)
    requires
        shape_ok(v0),
        wait_ok(v0),
        results_ok(v0),
        (q as int) < v0.names.len(),
        !is_finished(v0.stage[q as int]),
        !(v0.stage[q as int] is Waiting),
        result_name(r) == v0.names[q as int],
        (r is Failed) == failed,
        dep_failed(v0, q as int) ==> r == ResultView::Failed(v0.names[q as int], dependency_failed_text()),
        s1 == v0.stage.update(q as int, if failed {
            Stage::Failed
        } else {
            Stage::Done
        }),
        v.names == v0.names,
        v.deps == v0.deps,
        v.results == v0.results.push(r),
        v.finished == v0.finished.push(q),
        v.stage.len() == v0.names.len(),
        v.running == count_running(v.stage),
        forall|p: usize|
            (p as int) < v0.names.len() ==> #[trigger] v.stage[p as int] == (if released.contains(p) {
                Stage::Ready
            } else {
                s1[p as int]
            }),
        stage_change(v0, s1, v.stage, q, released),
    ensures
        results_ok(v),
{
    let n = v0.names.len();
    let s0 = v0.stage;
    let s2 = v.stage;
    let m = v0.finished.len() as int;
    assert(!released.contains(q));
    assert(s2[q as int] == s1[q as int]);
    assert forall|a: int, b: int| 0 <= a < b < v.finished.len() implies v.finished[a] != v.finished[b] by {
        if b == m {
            assert(is_finished(s0[v0.finished[a] as int]));
        }
    }
    assert forall|i: int| 0 <= i < v.finished.len() implies #[trigger] v.finished[i] < n && is_finished(
        s2[v.finished[i] as int],
    ) by {
        if i < m {
            let x = v0.finished[i];
            assert(is_finished(s0[x as int]));
        }
    }
    assert forall|p: usize| (p as int) < n && is_finished(#[trigger] s2[p as int]) implies v.finished.contains(p) by {
        if p == q {
            assert(v.finished[m] == q);
        } else {
            assert(is_finished(s0[p as int]));
            assert(v0.finished.contains(p));
            let i = choose|i: int| 0 <= i < m && v0.finished[i] == p;
            assert(v.finished[i] == p);
        }
    }
    // a finished rule's dependencies were finished, so they kept their stages
    assert forall|i: int| 0 <= i < v.finished.len() implies dep_failed(v, #[trigger] v.finished[i] as int) == dep_failed(
        v0,
        v.finished[i] as int,
    ) by {
        let p = v.finished[i];
        if i < m {
            assert(is_finished(s0[p as int]));
        }
        assert(deps_finished(v0, p as int));
        assert forall|k: int| 0 <= k < v0.deps[p as int].len() implies #[trigger] s2[v0.deps[p as int][k] as int]
            == s0[v0.deps[p as int][k] as int] by {
            let x = v0.deps[p as int][k];
            assert(is_finished(s0[x as int]));
        }
        if dep_failed(v, p as int) {
            let k = choose|k: int| 0 <= k < v.deps[p as int].len() && #[trigger] s2[v.deps[p as int][k] as int] is Failed;
            assert(s0[v0.deps[p as int][k] as int] is Failed);
        }
        if dep_failed(v0, p as int) {
            let k = choose|k: int| 0 <= k < v0.deps[p as int].len() && #[trigger] s0[v0.deps[p as int][k] as int] is Failed;
            assert(s2[v.deps[p as int][k] as int] is Failed);
        }
    }
    assert forall|i: int| 0 <= i < v.finished.len() implies ((#[trigger] v.results[i] is Failed) <==> s2[
        v.finished[i] as int
    ] is Failed) by {
        if i < m {
            let x = v0.finished[i];
            assert(is_finished(s0[x as int]));
        }
    }
    assert forall|i: int| 0 <= i < v.finished.len() implies result_name(#[trigger] v.results[i]) == v.names[
        v.finished[i] as int
    ] by {
    }
}


/// Finishing rule `q` with result `r` and queueing `released` keeps the
/// schedule consistent.
proof fn lemma_complete(
    v0: SchedView,
    v: SchedView,
    s1: Seq<Stage>,
    q: usize,
    r: ResultView,
    failed: bool,
    released: Seq<usize>,
)
    requires
        shape_ok(v0),
        queue_ok(v0, q as int),
        wait_ok(v0),
        order_ok(v0),
        results_ok(v0),
        finish_order_ok(v0),
        one_claim(v0),
        (q as int) < v0.names.len(),
        v0.stage[q as int] is Ready || v0.stage[q as int] is Claimed || v0.stage[q as int] is Running,
        !failed ==> deps_succeeded(v0, q as int),
        result_name(r) == v0.names[q as int],
        (r is Failed) == failed,
        dep_failed(v0, q as int) ==> r == ResultView::Failed(v0.names[q as int], dependency_failed_text()),
        s1 == v0.stage.update(q as int, if failed {
            Stage::Failed
        } else {
            Stage::Done
        }),
        v.names == v0.names,
        v.deps == v0.deps,
        v.phony == v0.phony,
        v.checked == v0.checked,
        v.results == v0.results.push(r),
        v.finished == v0.finished.push(q),
        v.running == count_running(s1),
        v.ready == v0.ready + released,
        released.no_duplicates(),
        sorted_by(released, v0.names),
        v.stage.len() == v0.names.len(),
        forall|p: usize|
            (p as int) < v0.names.len() ==> #[trigger] v.stage[p as int] == (if released.contains(p) {
                Stage::Ready
            } else {
                s1[p as int]
            }),
        forall|a: int|
            0 <= a < released.len() ==> #[trigger] released[a] < v0.names.len() && count(v0.deps[released[a] as int], q) > 0
                && unfinished_count(v0.deps[released[a] as int], s1) == 0,
        forall|p: usize|
            (p as int) < v0.names.len() && count(#[trigger] v0.deps[p as int], q) > 0 && unfinished_count(v0.deps[p as int], s1)
                == 0 ==> released.contains(p),
    ensures
        consistent(v),
        completed(v0, v, q, r, failed),
        forall|p: int| 0 <= p < v.names.len() ==> unfinished_count(#[trigger] v.deps[p], v.stage) == unfinished_count(v0.deps[p], s1),
{
    let n = v0.names.len();
    let s2 = v.stage;
    let fin = if failed {
        Stage::Failed
    } else {
        Stage::Done
    };
    lemma_complete_stages(v0, s1, s2, q, fin, released);
    lemma_count_running_update(v0.stage, q as int, fin);
    lemma_finish_order_push(v0, v, q);
    assert forall|a: int, b: int|
        0 <= a < v.stage.len() && 0 <= b < v.stage.len() && #[trigger] v.stage[a] is Claimed
            && #[trigger] v.stage[b] is Claimed implies a == b by {
        if a != q as int {
            assert(v0.stage[a] is Claimed || released.contains(a as usize));
        }
        if b != q as int {
            assert(v0.stage[b] is Claimed || released.contains(b as usize));
        }
    }
    lemma_complete_queue(v0, v, s1, q, fin, released);
    lemma_complete_results(v0, v, s1, q, r, failed, released);
    let l0 = v0.ready.len() as int;
    assert(v.ready.subrange(0, l0) =~= v0.ready);
    assert(v.ready.subrange(l0, v.ready.len() as int) =~= released);
    assert forall|a: int, b: int| 0 <= a < b < released.len() implies lex_lt(
        v.names[#[trigger] released[a] as int],
        #[trigger] v.names[released[b] as int],
    ) by {
        assert(released[a] != released[b]);
        lemma_lex_total(v.names[released[a] as int], v.names[released[b] as int], 0);
    }
    assert forall|p: usize| (p as int) < n implies (#[trigger] released.contains(p) <==> (v0.stage[p as int] is Waiting
        && v0.deps[p as int].contains(q) && deps_finished(v, p as int))) by {
        lemma_unfinished_zero(v0.deps[p as int], s2);
    }
    assert(shape_ok(v));
}

/// Finishing a running rule takes no rule and releases none to a taken
/// state.
proof fn lemma_complete_claims(v0: SchedView, v: SchedView, q: usize, r: ResultView, failed: bool)
    requires
        completed(v0, v, q, r, failed),
        (q as int) < v0.names.len(),
        v0.names.len() <= usize::MAX,
        v0.stage.len() == v0.names.len(),
        v0.stage[q as int] is Running,
    ensures
        forall|x: int| 0 <= x < v.names.len() ==> (#[trigger] v.stage[x] is Claimed <==> v0.stage[x] is Claimed),
        (exists|x: int| 0 <= x < v.names.len() && #[trigger] v.stage[x] is Claimed) == (exists|x: int|
            0 <= x < v0.names.len() && #[trigger] v0.stage[x] is Claimed),
{
    let released = v.ready.subrange(v0.ready.len() as int, v.ready.len() as int);
    assert forall|x: int| 0 <= x < v.names.len() implies (#[trigger] v.stage[x] is Claimed <==> v0.stage[x] is Claimed) by {
        if x != q as int {
            let u = x as usize;
            assert(u as int == x);
            assert(v.stage[u as int] == (if released.contains(u) {
                Stage::Ready
            } else {
                v0.stage[u as int]
            }));
            if released.contains(u) {
                assert(v0.stage[u as int] is Waiting);
            }
        }
    }
    if exists|x: int| 0 <= x < v.names.len() && #[trigger] v.stage[x] is Claimed {
        let x = choose|x: int| 0 <= x < v.names.len() && #[trigger] v.stage[x] is Claimed;
        assert(v0.stage[x] is Claimed);
    }
    if exists|x: int| 0 <= x < v0.names.len() && #[trigger] v0.stage[x] is Claimed {
        let x = choose|x: int| 0 <= x < v0.names.len() && #[trigger] v0.stage[x] is Claimed;
        assert(v.stage[x] is Claimed);
    }
}

impl Scheduler {
    /// Finishes rule `q` with `result` and queues the rules that waited only
    /// for it.
    fn complete(&mut self, q: usize, result: RuleResult, failed: bool)
        requires
            shape_ok(old(self)@),
            queue_ok(old(self)@, q as int),
            wait_ok(old(self)@),
            order_ok(old(self)@),
            results_ok(old(self)@),
            finish_order_ok(old(self)@),
            one_claim(old(self)@),
            old(self).internal_ok(),
            (q as int) < old(self)@.names.len(),
            old(self)@.stage[q as int] is Ready || old(self)@.stage[q as int] is Claimed
                || old(self)@.stage[q as int] is Running,
            !failed ==> deps_succeeded(old(self)@, q as int),
            result_name(result@) == old(self)@.names[q as int],
            (result@ is Failed) == failed,
            dep_failed(old(self)@, q as int) ==> result@ == ResultView::Failed(
                old(self)@.names[q as int],
                dependency_failed_text(),
            ),
        ensures
            final(self).wf(),
            completed(old(self)@, final(self)@, q, result@, failed),
    {
        let ghost v0 = self@;
        let ghost s0 = self.stage@;
        let ghost n = v0.names.len();
        let ghost r = result@;
        let was_running = match self.stage[q] {
            Stage::Running => true,
            _ => false,
        };
        let fin = if failed {
            Stage::Failed
        } else {
            Stage::Done
        };
        self.stage.set(q, fin);
        proof {
            lemma_count_running_update(s0, q as int, fin);
        }
        if was_running {
            self.running = self.running - 1;
        }
        self.results.push(result);
        self.finished = Ghost(self.finished@.push(q));
        let ghost s1 = self.stage@;
        proof {
            assert forall|p: usize| (p as int) < n implies count(self.dependents@[q as int]@, p) <= #[trigger] self.indeg@[
                p as int
            ] by {
                lemma_unfinished_update(v0.deps[p as int], s0, q, fin);
            }
        }
        let sorted = notify_dependents(&mut self.indeg, &self.dependents[q], &self.keys);
        proof {
            assert forall|p: usize| (p as int) < n implies #[trigger] self.indeg@[p as int] == unfinished_count(
                v0.deps[p as int],
                s1,
            ) by {
                lemma_unfinished_update(v0.deps[p as int], s0, q, fin);
            }
            assert forall|a: int| 0 <= a < sorted@.len() implies #[trigger] sorted@[a] < n && count(
                v0.deps[sorted@[a] as int],
                q,
            ) > 0 && unfinished_count(v0.deps[sorted@[a] as int], s1) == 0 by {
                assert(count(self.dependents@[q as int]@, sorted@[a]) > 0);
            }
            assert forall|p: usize|
                (p as int) < n && count(#[trigger] v0.deps[p as int], q) > 0 && unfinished_count(v0.deps[p as int], s1)
                    == 0 implies sorted@.contains(p) by {
                assert(self.indeg@[p as int] == 0);
            }
            assert(self.keys@.map_values(|k: Vec<char>| k@) =~= v0.names);
        }
        enqueue(&mut self.stage, &mut self.ready, &sorted);
        proof {
            assert(results_view(self.results@) =~= v0.results.push(r));
            lemma_complete(v0, self@, s1, q, r, failed, sorted@);
        }
    }
}


/// What the caller is to do next.
#[derive(Debug)]
pub enum Step {
    /// The rule at this position was not run because a dependency failed;
    /// it now has its `Failed` result.
    DependencyFailed(usize),
    /// The rule at this position has every dependency succeeded: decide with
    /// `start` whether it runs.
    Launch(usize),
    /// Wait for a running rule to finish, then report it with `finish`.
    Wait,
    /// Nothing is queued or running.
    Finished,
}

/// How a rule whose dependencies succeeded was handled.
#[derive(Debug)]
pub enum Start {
    /// Its inputs and outputs match the cache: it does not run.
    UpToDate,
    /// A dry run: its commands are shown, not run.
    DryRun,
    /// Its commands are to run; report the outcome with `finish`.
    Run,
}

/// Some rule is taken and awaits its start.
pub open spec fn claimed_any(v: SchedView) -> bool {
    exists|p: int| 0 <= p < v.names.len() && #[trigger] v.stage[p] is Claimed
}

/// The rules that occupy a job: those running, and the one taken.
pub open spec fn busy_of(v: SchedView) -> int {
    v.running + if claimed_any(v) {
        1int
    } else {
        0int
    }
}

/// A schedule before any step: nothing taken, running or finished.
pub open spec fn fresh_schedule(v: SchedView) -> bool {
    &&& v.running == 0
    &&& v.results.len() == 0
    &&& v.finished.len() == 0
    &&& forall|p: int| 0 <= p < v.stage.len() ==> #[trigger] v.stage[p] is Waiting || v.stage[p] is Ready
}

/// What `pop(jobs)` does to the schedule `v0`, giving `v`.
pub open spec fn pop_moves(v0: SchedView, v: SchedView, jobs: usize) -> bool {
    &&& if v0.ready.len() > 0 && v0.running < jobs {
        let p = v0.ready[0];
        if dep_failed(v0, p as int) {
            completed(
                dequeued(v0),
                v,
                p,
                ResultView::Failed(v0.names[p as int], dependency_failed_text()),
                true,
            )
        } else {
            v == with_stage(dequeued(v0), p, Stage::Claimed)
        }
    } else {
        v == v0
    }
    &&& v.running == v0.running
    &&& busy_of(v0) <= jobs ==> busy_of(v) <= jobs
}

/// What `start(p, fresh, dry_run)` does to the schedule `v0`, giving `v`.
pub open spec fn start_moves(v0: SchedView, v: SchedView, p: usize, fresh: bool, dry_run: bool) -> bool {
    &&& if v0.checked[p as int] && fresh {
        completed(v0, v, p, ResultView::Skipped(v0.names[p as int]), false)
    } else if dry_run {
        completed(v0, v, p, ResultView::Skipped(v0.names[p as int]), false)
    } else {
        v == SchedView { stage: v0.stage.update(p as int, Stage::Running), running: v0.running + 1, ..v0 }
    }
    &&& !claimed_any(v)
    &&& busy_of(v) <= busy_of(v0)
}

/// What `finish(p, ..)` does to the schedule `v0`, giving `v`: with `None`
/// the rule succeeded, with `Some(m)` it failed with message `m`.
pub open spec fn finish_moves(v0: SchedView, v: SchedView, p: usize, failure: Option<Seq<char>>) -> bool {
    &&& match failure {
        None => completed(v0, v, p, ResultView::Success(v0.names[p as int]), false),
        Some(m) => completed(v0, v, p, ResultView::Failed(v0.names[p as int], m), true),
    }
    &&& claimed_any(v) == claimed_any(v0)
    &&& busy_of(v) == busy_of(v0) - 1
}

/// One call of the schedule's protocol: `pop` when no rule is taken,
/// `start` of the taken rule, or `finish` of a running rule.
pub open spec fn run_step(v0: SchedView, v: SchedView, jobs: usize, dry_run: bool) -> bool {
    ||| !claimed_any(v0) && pop_moves(v0, v, jobs)
    ||| exists|p: usize, fresh: bool|
        (p as int) < v0.names.len() && v0.stage[p as int] is Claimed && #[trigger] start_moves(v0, v, p, fresh, dry_run)
    ||| exists|p: usize, failure: Option<Seq<char>>|
        (p as int) < v0.names.len() && v0.stage[p as int] is Running && #[trigger] finish_moves(v0, v, p, failure)
}

/// `v` with the front of its queue taken.
pub open spec fn dequeued(v: SchedView) -> SchedView {
    SchedView { ready: v.ready.drop_first(), ..v }
}

/// `v` with rule `p` in stage `s`.
pub open spec fn with_stage(v: SchedView, p: usize, s: Stage) -> SchedView {
    SchedView { stage: v.stage.update(p as int, s), ..v }
}

impl Scheduler {
    /// Whether any rule is taken and awaits `start`.
    pub open spec fn has_claim(&self) -> bool {
        exists|p: int| 0 <= p < self@.names.len() && #[trigger] self@.stage[p] is Claimed
    }

    /// The rules that occupy a job: those running and the one taken.
    pub open spec fn busy(&self) -> int {
        self@.running + if self.has_claim() {
            1int
        } else {
            0int
        }
    }

    fn has_failed_dep(&self, p: usize) -> (r: bool)
        requires
            shape_ok(self@),
            (p as int) < self@.names.len(),
        ensures
            r == dep_failed(self@, p as int),
    {
        let mut k: usize = 0;
        while k < self.deps[p].len()
            invariant
                shape_ok(self@),
                (p as int) < self@.names.len(),
                k <= self@.deps[p as int].len(),
                forall|j: int| 0 <= j < k ==> !(#[trigger] self@.stage[self@.deps[p as int][j] as int] is Failed),
            decreases self@.deps[p as int].len() - k,
        {
            let d = self.deps[p][k];
            assert(self@.deps[p as int][k as int] == d);
            match self.stage[d] {
                Stage::Failed => {
                    return true;
                },
                _ => {},
            }
            k += 1;
        }
        false
    }

    /// Takes the next step of the schedule with at most `jobs` rules running
    /// at once: the front of the queue is dequeued, and fails at once if a
    /// dependency failed, else is handed to the caller to launch. With
    /// nothing to dequeue, the caller waits for a running rule, or the
    /// schedule is over.
    pub fn pop(&mut self, jobs: usize) -> (step: Step)
        requires
            old(self).wf(),
            !old(self).has_claim(),
        ensures
            final(self).wf(),
            ({
                let v0 = old(self)@;
                let v = final(self)@;
                if v0.ready.len() > 0 && v0.running < jobs {
                    let p = v0.ready[0];
                    if dep_failed(v0, p as int) {
                        step == Step::DependencyFailed(p) && completed(
                            dequeued(v0),
                            v,
                            p,
                            ResultView::Failed(v0.names[p as int], dependency_failed_text()),
                            true,
                        )
                    } else {
                        step == Step::Launch(p) && v == with_stage(dequeued(v0), p, Stage::Claimed)
                    }
                } else if v0.running == 0 {
                    step == Step::Finished && v == v0
                } else {
                    step == Step::Wait && v == v0
                }
            }),
            step is Finished && jobs > 0 ==> forall|p: int|
                0 <= p < final(self)@.names.len() ==> is_finished(#[trigger] final(self)@.stage[p]),
            final(self)@.running == old(self)@.running,
            step is Launch ==> final(self)@.running < jobs,
            old(self).busy() <= jobs ==> final(self).busy() <= jobs,
            pop_moves(old(self)@, final(self)@, jobs),
    {
        let ghost v0 = self@;
        if self.ready.len() > 0 && self.running < jobs {
            let p = self.ready.remove(0);
            assert(self.ready@ =~= v0.ready.drop_first());
            assert(v0.ready.contains(p)) by {
                assert(v0.ready[0] == p);
            }
            proof {
                assert(queue_ok(self@, p as int)) by {
                    assert forall|t: int| 0 <= t < self@.ready.len() implies #[trigger] self@.ready[t] as int != p as int by {
                        assert(self@.ready[t] == v0.ready[t + 1]);
                        assert(v0.ready[0] != v0.ready[t + 1]);
                    }
                    assert forall|x: usize|
                        (x as int) < self@.names.len() && x as int != p as int && #[trigger] self@.stage[x as int] is Ready
                            implies self@.ready.contains(x) by {
                        assert(v0.ready.contains(x));
                        let t = choose|t: int| 0 <= t < v0.ready.len() && v0.ready[t] == x;
                        assert(t != 0);
                        assert(self@.ready[t - 1] == x);
                    }
                }
            }
            if self.has_failed_dep(p) {
                let msg = "dependency failed".to_owned();
                let name = self.names[p].clone();
                self.complete(p, RuleResult::Failed(name, msg), true);
                return Step::DependencyFailed(p);
            }
            let ghost v1 = self@;
            proof {
                assert(deps_finished(v0, p as int));
                assert forall|k: int| 0 <= k < v0.deps[p as int].len() implies #[trigger] v0.stage[v0.deps[p as int][k] as int] is Done by {
                    assert(is_finished(v0.stage[v0.deps[p as int][k] as int]));
                }
            }
            self.stage.set(p, Stage::Claimed);
            proof {
                assert(self@ == with_stage(dequeued(v0), p, Stage::Claimed));
                self.lemma_claim_wf(v1, p);
            }
            return Step::Launch(p);
        }
        if self.running == 0 {
            proof {
                if jobs > 0 {
                    assert forall|p: int| 0 <= p < v0.names.len() implies !(#[trigger] v0.stage[p] is Claimed) by {
                    }
                    lemma_idle_means_finished(v0);
                }
            }
            Step::Finished
        } else {
            Step::Wait
        }
    }

    proof fn lemma_claim_wf(&self, v1: SchedView, p: usize)
        requires
            shape_ok(v1),
            queue_ok(v1, p as int),
            wait_ok(v1),
            order_ok(v1),
            results_ok(v1),
            finish_order_ok(v1),
            forall|x: int| 0 <= x < v1.stage.len() ==> !(#[trigger] v1.stage[x] is Claimed),
            (p as int) < v1.names.len(),
            v1.stage[p as int] is Ready,
            deps_succeeded(v1, p as int),
            self@ == with_stage(v1, p, Stage::Claimed),
            forall|x: int| 0 <= x < v1.names.len() ==> #[trigger] self.indeg@[x] == unfinished_count(v1.deps[x], v1.stage),
            self.keys@.len() == v1.names.len(),
            forall|x: int| 0 <= x < v1.names.len() ==> (#[trigger] self.keys@[x])@ == v1.names[x],
            self.dependents@.len() == v1.names.len(),
            forall|r: int, t: int|
                0 <= r < v1.names.len() && 0 <= t < self.dependents@[r]@.len() ==> #[trigger] self.dependents@[r]@[t] < v1.names.len(),
            forall|x: usize, r: usize|
                (x as int) < v1.names.len() && (r as int) < v1.names.len() ==> count(#[trigger] self.dependents@[r as int]@, x)
                    == count(#[trigger] v1.deps[x as int], r),
            self.indeg@.len() == v1.names.len(),
        ensures
            self.wf(),
    {
        let v = self@;
        let s1 = v1.stage;
        let s2 = v.stage;
        lemma_finish_order_keep(v1, v, p, Stage::Claimed);
        assert forall|a: int, b: int|
            0 <= a < v.stage.len() && 0 <= b < v.stage.len() && #[trigger] v.stage[a] is Claimed
                && #[trigger] v.stage[b] is Claimed implies a == b by {
            if a != p as int {
                assert(v1.stage[a] is Claimed);
            }
            if b != p as int {
                assert(v1.stage[b] is Claimed);
            }
        }
        assert forall|x: int| 0 <= x < v.names.len() implies #[trigger] self.indeg@[x] == unfinished_count(v.deps[x], s2) by {
            assert forall|k: int| 0 <= k < v.deps[x].len() implies is_finished(#[trigger] s2[v.deps[x][k] as int]) == is_finished(
                s1[v.deps[x][k] as int],
            ) by {
            }
            lemma_unfinished_same(v.deps[x], s2, s1);
        }
        assert(count_running(s2) == count_running(s1)) by {
            lemma_count_running_update(s1, p as int, Stage::Claimed);
        }
        assert forall|i: int| 0 <= i < s1.len() implies is_finished(#[trigger] s2[i]) == is_finished(s1[i])
            && (s2[i] is Failed) == (s1[i] is Failed) && (s2[i] is Done) == (s1[i] is Done) by {
        }
        assert forall|x: usize| (x as int) < v.names.len() implies ((#[trigger] s2[x as int] is Waiting) <==> !deps_finished(v, x as int)) by {
            assert(s1[x as int] is Waiting <==> !deps_finished(v1, x as int));
            assert forall|k: int| 0 <= k < v.deps[x as int].len() implies is_finished(#[trigger] s2[v.deps[x as int][k] as int])
                == is_finished(s1[v.deps[x as int][k] as int]) by {
                assert(v.deps[x as int][k] < v.names.len());
            }
            assert(v.deps[x as int] == v1.deps[x as int]);
            if deps_finished(v1, x as int) {
                assert forall|k: int| 0 <= k < v.deps[x as int].len() implies is_finished(#[trigger] s2[v.deps[x as int][k] as int]) by {
                    assert(is_finished(s1[v1.deps[x as int][k] as int]));
                }
            }
            if deps_finished(v, x as int) {
                assert forall|k: int| 0 <= k < v1.deps[x as int].len() implies is_finished(#[trigger] s1[v1.deps[x as int][k] as int]) by {
                    assert(is_finished(s2[v.deps[x as int][k] as int]));
                }
            }
            assert(deps_finished(v, x as int) == deps_finished(v1, x as int));
            if x == p {
                assert forall|k: int| 0 <= k < v1.deps[p as int].len() implies is_finished(#[trigger] s1[v1.deps[p as int][k] as int]) by {
                    assert(s1[v1.deps[p as int][k] as int] is Done);
                }
            } else {
                assert(s2[x as int] == s1[x as int]);
            }
        }
        assert forall|x: usize|
            (x as int) < v.names.len() && (#[trigger] s2[x as int] is Claimed || s2[x as int] is Running || s2[x as int] is Done)
                implies deps_succeeded(v, x as int) by {
            assert(deps_succeeded(v1, x as int));
        }
        assert forall|i: int| 0 <= i < v.finished.len() implies dep_failed(v, #[trigger] v.finished[i] as int) == dep_failed(
            v1,
            v.finished[i] as int,
        ) by {
            let y = v.finished[i] as int;
            assert forall|k: int| 0 <= k < v.deps[y].len() implies (#[trigger] s2[v.deps[y][k] as int] is Failed) == (s1[
                v.deps[y][k] as int
            ] is Failed) by {
                assert(v.deps[y][k] < v.names.len());
            }
            if dep_failed(v, y) {
                let k = choose|k: int| 0 <= k < v.deps[y].len() && #[trigger] s2[v.deps[y][k] as int] is Failed;
                assert(s1[v.deps[y][k] as int] is Failed);
            }
            if dep_failed(v1, y) {
                let k = choose|k: int| 0 <= k < v1.deps[y].len() && #[trigger] s1[v1.deps[y][k] as int] is Failed;
                assert(s2[v.deps[y][k] as int] is Failed);
            }
        }
    }
}


proof fn lemma_count_running_below(s: Seq<Stage>, i: int)
    requires
        0 <= i < s.len(),
        !(s[i] is Running),
    ensures
        count_running(s) < s.len(),
    decreases s.len(),
{
    lemma_count_running_le(s.drop_last());
    if i < s.len() - 1 {
        lemma_count_running_below(s.drop_last(), i);
    }
}

proof fn lemma_count_running_le(s: Seq<Stage>)
    ensures
        count_running(s) <= s.len(),
    decreases s.len(),
{
    if s.len() > 0 {
        lemma_count_running_le(s.drop_last());
    }
}

impl Scheduler {
    /// Decides what happens to the taken rule `p`: it is up to date when it
    /// is subject to the cache check and `fresh` (its files match the
    /// cache), else shown when `dry_run`, else it runs.
    pub fn start(&mut self, p: usize, fresh: bool, dry_run: bool) -> (r: Start)
        requires
            old(self).wf(),
            (p as int) < old(self)@.names.len(),
            old(self)@.stage[p as int] is Claimed,
        ensures
            final(self).wf(),
            ({
                let v0 = old(self)@;
                let v = final(self)@;
                if v0.checked[p as int] && fresh {
                    r == Start::UpToDate && completed(v0, v, p, ResultView::Skipped(v0.names[p as int]), false)
                } else if dry_run {
                    r == Start::DryRun && completed(v0, v, p, ResultView::Skipped(v0.names[p as int]), false)
                } else {
                    r == Start::Run && v == SchedView {
                        stage: v0.stage.update(p as int, Stage::Running),
                        running: v0.running + 1,
                        ..v0
                    }
                }
            }),
            !final(self).has_claim(),
            final(self).busy() <= old(self).busy(),
            start_moves(old(self)@, final(self)@, p, fresh, dry_run),
    {
        let ghost v0 = self@;
        proof {
            assert(queue_ok(v0, p as int)) by {
                assert forall|t: int| 0 <= t < v0.ready.len() implies #[trigger] v0.ready[t] as int != p as int by {
                    assert(v0.stage[v0.ready[t] as int] is Ready);
                }
            }
        }
        if self.checked[p] && fresh {
            let name = self.names[p].clone();
            self.complete(p, RuleResult::Skipped(name), false);
            return Start::UpToDate;
        }
        if dry_run {
            let name = self.names[p].clone();
            self.complete(p, RuleResult::Skipped(name), false);
            return Start::DryRun;
        }
        proof {
            lemma_count_running_below(v0.stage, p as int);
            lemma_count_running_update(v0.stage, p as int, Stage::Running);
        }
        let ghost v1 = self@;
        self.stage.set(p, Stage::Running);
        self.running = self.running + 1;
        proof {
            self.lemma_run_wf(v1, p);
        }
        Start::Run
    }

    proof fn lemma_run_wf(&self, v1: SchedView, p: usize)
        requires
            consistent(v1),
            (p as int) < v1.names.len(),
            v1.stage[p as int] is Claimed,
            self@ == (SchedView { stage: v1.stage.update(p as int, Stage::Running), running: v1.running + 1, ..v1 }),
            count_running(v1.stage.update(p as int, Stage::Running)) == v1.running + 1,
            forall|x: int| 0 <= x < v1.names.len() ==> #[trigger] self.indeg@[x] == unfinished_count(v1.deps[x], v1.stage),
            self.keys@.len() == v1.names.len(),
            forall|x: int| 0 <= x < v1.names.len() ==> (#[trigger] self.keys@[x])@ == v1.names[x],
            self.dependents@.len() == v1.names.len(),
            forall|r: int, t: int|
                0 <= r < v1.names.len() && 0 <= t < self.dependents@[r]@.len() ==> #[trigger] self.dependents@[r]@[t] < v1.names.len(),
            forall|x: usize, r: usize|
                (x as int) < v1.names.len() && (r as int) < v1.names.len() ==> count(#[trigger] self.dependents@[r as int]@, x)
                    == count(#[trigger] v1.deps[x as int], r),
            self.indeg@.len() == v1.names.len(),
        ensures
            self.wf(),
    {
        let v = self@;
        let s1 = v1.stage;
        let s2 = v.stage;
        lemma_finish_order_keep(v1, v, p, Stage::Running);
        assert forall|i: int| 0 <= i < s1.len() implies is_finished(#[trigger] s2[i]) == is_finished(s1[i])
            && (s2[i] is Failed) == (s1[i] is Failed) && (s2[i] is Done) == (s1[i] is Done) by {
        }
        assert forall|x: int| 0 <= x < v.names.len() implies #[trigger] self.indeg@[x] == unfinished_count(v.deps[x], s2) by {
            assert forall|k: int| 0 <= k < v.deps[x].len() implies is_finished(#[trigger] s2[v.deps[x][k] as int]) == is_finished(
                s1[v.deps[x][k] as int],
            ) by {
            }
            lemma_unfinished_same(v.deps[x], s2, s1);
        }
        assert forall|x: usize| (x as int) < v.names.len() implies ((#[trigger] s2[x as int] is Waiting) <==> !deps_finished(v, x as int)) by {
            assert(s1[x as int] is Waiting <==> !deps_finished(v1, x as int));
            if deps_finished(v1, x as int) {
                assert forall|k: int| 0 <= k < v.deps[x as int].len() implies is_finished(#[trigger] s2[v.deps[x as int][k] as int]) by {
                    assert(is_finished(s1[v1.deps[x as int][k] as int]));
                }
            }
            if deps_finished(v, x as int) {
                assert forall|k: int| 0 <= k < v1.deps[x as int].len() implies is_finished(#[trigger] s1[v1.deps[x as int][k] as int]) by {
                    assert(is_finished(s2[v.deps[x as int][k] as int]));
                }
            }
        }
        assert forall|x: usize|
            (x as int) < v.names.len() && (#[trigger] s2[x as int] is Claimed || s2[x as int] is Running || s2[x as int] is Done)
                implies deps_succeeded(v, x as int) by {
            assert(deps_succeeded(v1, x as int));
            assert forall|k: int| 0 <= k < v.deps[x as int].len() implies #[trigger] s2[v.deps[x as int][k] as int] is Done by {
                assert(s1[v1.deps[x as int][k] as int] is Done);
            }
        }
        assert forall|i: int| 0 <= i < v.finished.len() implies dep_failed(v, #[trigger] v.finished[i] as int) == dep_failed(
            v1,
            v.finished[i] as int,
        ) by {
            let y = v.finished[i] as int;
            if dep_failed(v, y) {
                let k = choose|k: int| 0 <= k < v.deps[y].len() && #[trigger] s2[v.deps[y][k] as int] is Failed;
                assert(s1[v.deps[y][k] as int] is Failed);
            }
            if dep_failed(v1, y) {
                let k = choose|k: int| 0 <= k < v1.deps[y].len() && #[trigger] s1[v1.deps[y][k] as int] is Failed;
                assert(s2[v.deps[y][k] as int] is Failed);
            }
        }
        assert forall|i: int| 0 <= i < v.finished.len() implies ((#[trigger] v.results[i] is Failed) <==> s2[v.finished[i] as int] is Failed) by {
        }
        assert forall|i: int| 0 <= i < v.finished.len() implies #[trigger] v.finished[i] < v.names.len() && is_finished(
            s2[v.finished[i] as int],
        ) by {
        }
        assert forall|x: usize| (x as int) < v.names.len() && is_finished(#[trigger] s2[x as int]) implies v.finished.contains(x) by {
            assert(is_finished(s1[x as int]));
        }
        assert forall|t: int| 0 <= t < v.ready.len() implies #[trigger] v.ready[t] < v.names.len() && v.ready[t] as int != -1
            && s2[v.ready[t] as int] is Ready by {
            assert(s1[v.ready[t] as int] is Ready);
        }
        assert forall|x: usize| (x as int) < v.names.len() && x as int != -1 && #[trigger] s2[x as int] is Ready implies v.ready.contains(x) by {
            assert(s1[x as int] is Ready);
        }
    }

    /// Reports that the running rule `p` finished with `outcome`; returns
    /// whether its success is to be recorded in the cache (it is not phony).
    pub fn finish(&mut self, p: usize, outcome: Result<(), String>) -> (record: bool)
        requires
            old(self).wf(),
            (p as int) < old(self)@.names.len(),
            old(self)@.stage[p as int] is Running,
        ensures
            final(self).wf(),
            match outcome {
                Ok(()) => record == !old(self)@.phony[p as int] && completed(
                    old(self)@,
                    final(self)@,
                    p,
                    ResultView::Success(old(self)@.names[p as int]),
                    false,
                ),
                Err(m) => !record && completed(
                    old(self)@,
                    final(self)@,
                    p,
                    ResultView::Failed(old(self)@.names[p as int], m@),
                    true,
                ),
            },
            final(self).has_claim() == old(self).has_claim(),
            final(self).busy() == old(self).busy() - 1,
            finish_moves(
                old(self)@,
                final(self)@,
                p,
                match outcome {
                    Ok(()) => None,
                    Err(m) => Some(m@),
                },
            ),
    {
        let ghost v0 = self@;
        proof {
            assert(queue_ok(v0, p as int)) by {
                assert forall|t: int| 0 <= t < v0.ready.len() implies #[trigger] v0.ready[t] as int != p as int by {
                    assert(v0.stage[v0.ready[t] as int] is Ready);
                }
            }
            assert(deps_succeeded(v0, p as int));
            if dep_failed(v0, p as int) {
                let k = choose|k: int| 0 <= k < v0.deps[p as int].len() && #[trigger] v0.stage[v0.deps[p as int][k] as int] is Failed;
                assert(v0.stage[v0.deps[p as int][k] as int] is Done);
            }
        }
        let record = !self.phony[p];
        let name = self.names[p].clone();
        match outcome {
            Ok(()) => {
                self.complete(p, RuleResult::Success(name), false);
                proof {
                    lemma_complete_claims(v0, self@, p, ResultView::Success(v0.names[p as int]), false);
                }
                record
            },
            Err(msg) => {
                let ghost m = msg@;
                self.complete(p, RuleResult::Failed(name, msg), true);
                proof {
                    lemma_complete_claims(v0, self@, p, ResultView::Failed(v0.names[p as int], m), true);
                }
                false
            },
        }
    }
}


/// The dependencies `ds` (graph nodes) that are in the plan `names`, as plan
/// positions, in order.
pub open spec fn plan_deps(ds: Seq<usize>, nodes: Seq<Seq<char>>, names: Seq<Seq<char>>) -> Seq<usize>
    decreases ds.len(),
{
    if ds.len() == 0 {
        seq![]
    } else {
        let j = name_index(names, nodes[ds.last() as int]);
        plan_deps(ds.drop_last(), nodes, names) + (if j >= 0 {
            seq![j as usize]
        } else {
            seq![]
        })
    }
}

/// The rule named `name` among `rules`.
pub open spec fn rule_named(rules: Seq<RuleView>, name: Seq<char>) -> RuleView {
    rules[name_index(rule_names(rules), name)]
}

/// In a list without repeats, the first position of each entry is its
/// only one.
proof fn lemma_index_distinct(s: Seq<Seq<char>>, i: int)
    requires
        forall|a: int, b: int| 0 <= a < s.len() && 0 <= b < s.len() && a != b ==> #[trigger] s[a] != #[trigger] s[b],
        0 <= i < s.len(),
    ensures
        name_index(s, s[i]) == i,
{
    lemma_name_index(s, s[i]);
    assert(s.contains(s[i]));
}

/// The plan positions of the dependencies of each rule of the plan.
fn plan_dep_lists(graph: &BuildGraph, inode: &Vec<Option<usize>>, nitem: &Vec<Option<usize>>, order: &Vec<String>) -> (r: Vec<Vec<usize>>)
    requires
        graph.wf(),
        item_maps(graph@.nodes, strs(order@), inode@, nitem@),
        forall|a: int| 0 <= a < order@.len() ==> #[trigger] inode@[a] is Some,
        strs(order@).no_duplicates(),
    ensures
        r@.len() == order@.len(),
        forall|p: int|
            0 <= p < order@.len() ==> (#[trigger] r@[p])@ == plan_deps(
                graph@.deps[name_index(graph@.nodes, strs(order@)[p]) as int],
                graph@.nodes,
                strs(order@),
            ),
        forall|p: int, k: int| 0 <= p < order@.len() && 0 <= k < r@[p]@.len() ==> #[trigger] r@[p]@[k] < order@.len(),
        forall|p: int, k: int|
            0 <= p < order@.len() && 0 <= k < r@[p]@.len() ==> inode@[#[trigger] r@[p]@[k] as int] is Some
                && graph@.deps[inode@[p]->0 as int].contains(inode@[r@[p]@[k] as int]->0),
{
    let ghost nodes = graph@.nodes;
    let ghost names = strs(order@);
    let m = order.len();
    let mut r: Vec<Vec<usize>> = Vec::new();
    let mut p: usize = 0;
    while p < m
        invariant
            graph.wf(),
            nodes == graph@.nodes,
            names == strs(order@),
            m == order@.len(),
            names.no_duplicates(),
            item_maps(nodes, names, inode@, nitem@),
            forall|a: int| 0 <= a < m ==> #[trigger] inode@[a] is Some,
            p <= m,
            r@.len() == p,
            forall|a: int|
                0 <= a < p ==> (#[trigger] r@[a])@ == plan_deps(
                    graph@.deps[name_index(nodes, names[a]) as int],
                    nodes,
                    names,
                ),
            forall|a: int, k: int| 0 <= a < p && 0 <= k < r@[a]@.len() ==> #[trigger] r@[a]@[k] < m,
            forall|a: int, k: int|
                0 <= a < p && 0 <= k < r@[a]@.len() ==> inode@[#[trigger] r@[a]@[k] as int] is Some
                    && graph@.deps[inode@[a]->0 as int].contains(inode@[r@[a]@[k] as int]->0),
        decreases m - p,
    {
        let u = match inode[p] {
            Some(u) => u,
            None => {
                assert(false);
                0
            },
        };
        proof {
            assert(names[p as int] == nodes[u as int]);
            assert forall|a: int, b: int| 0 <= a < nodes.len() && 0 <= b < nodes.len() && a != b implies #[trigger] nodes[a]
                != #[trigger] nodes[b] by {
            }
            lemma_index_distinct(nodes, u as int);
        }
        let ghost ds = graph@.deps[u as int];
        let mut row: Vec<usize> = Vec::new();
        let mut k: usize = 0;
        assert(ds.take(0) =~= seq![]);
        while k < graph.deps[u].len()
            invariant
                graph.wf(),
                nodes == graph@.nodes,
                names == strs(order@),
                m == order@.len(),
                names.no_duplicates(),
                item_maps(nodes, names, inode@, nitem@),
                (u as int) < nodes.len(),
                ds == graph@.deps[u as int],
                inode@[p as int] == Some(u),
                (p as int) < m,
                k <= ds.len(),
                row@ == plan_deps(ds.take(k as int), nodes, names),
                forall|t: int| 0 <= t < row@.len() ==> #[trigger] row@[t] < m,
                forall|t: int|
                    0 <= t < row@.len() ==> inode@[#[trigger] row@[t] as int] is Some && ds.contains(
                        inode@[row@[t] as int]->0,
                    ),
            decreases ds.len() - k,
        {
            let x = graph.deps[u][k];
            proof {
                assert(ds[k as int] == x);
                assert(x < nodes.len());
                assert(ds.take(k + 1).drop_last() =~= ds.take(k as int));
                assert(ds.take(k + 1).last() == x);
                lemma_name_index(names, nodes[x as int]);
            }
            match nitem[x] {
                Some(j) => {
                    proof {
                        assert(inode@[j as int] == Some(x));
                        assert(names[j as int] == nodes[x as int]);
                        assert forall|a: int, b: int| 0 <= a < names.len() && 0 <= b < names.len() && a != b implies #[trigger] names[a]
                            != #[trigger] names[b] by {
                        }
                        lemma_index_distinct(names, j as int);
                        assert(ds.contains(x));
                    }
                    row.push(j);
                    proof {
                        assert(row@ =~= plan_deps(ds.take(k + 1), nodes, names));
                    }
                },
                None => {
                    proof {
                        if names.contains(nodes[x as int]) {
                            let a = choose|a: int| 0 <= a < names.len() && names[a] == nodes[x as int];
                            assert(inode@[a] == Some(x));
                        }
                        assert(row@ =~= plan_deps(ds.take(k + 1), nodes, names));
                    }
                },
            }
            k += 1;
        }
        assert(ds.take(ds.len() as int) =~= ds);
        r.push(row);
        p += 1;
    }
    r
}

/// For each rule of the plan, the rules that depend on it, once per
/// dependency edge, in plan order.
fn reverse_lists(deps: &Vec<Vec<usize>>) -> (r: Vec<Vec<usize>>)
    requires
        forall|p: int, k: int| 0 <= p < deps@.len() && 0 <= k < deps@[p]@.len() ==> #[trigger] deps@[p]@[k] < deps@.len(),
    ensures
        r@.len() == deps@.len(),
        forall|q: int, t: int| 0 <= q < r@.len() && 0 <= t < r@[q]@.len() ==> #[trigger] r@[q]@[t] < deps@.len(),
        forall|p: usize, q: usize|
            (p as int) < deps@.len() && (q as int) < deps@.len() ==> count(#[trigger] r@[q as int]@, p) == count(
                #[trigger] deps@[p as int]@,
                q,
            ),
{
    let n = deps.len();
    let mut r: Vec<Vec<usize>> = Vec::new();
    let mut q: usize = 0;
    while q < n
        invariant
            n == deps@.len(),
            forall|p: int, k: int| 0 <= p < n && 0 <= k < deps@[p]@.len() ==> #[trigger] deps@[p]@[k] < n,
            q <= n,
            r@.len() == q,
            forall|a: int, t: int| 0 <= a < q && 0 <= t < r@[a]@.len() ==> #[trigger] r@[a]@[t] < n,
            forall|p: usize, a: usize|
                (p as int) < n && (a as int) < q ==> count(#[trigger] r@[a as int]@, p) == count(#[trigger] deps@[p as int]@, a),
        decreases n - q,
    {
        let mut row: Vec<usize> = Vec::new();
        let mut p: usize = 0;
        while p < n
            invariant
                n == deps@.len(),
                p <= n,
                (q as int) < n,
                forall|t: int| 0 <= t < row@.len() ==> #[trigger] row@[t] < p,
                forall|x: usize| (x as int) < n && x < p ==> count(row@, x) == #[trigger] count(deps@[x as int]@, q),
                forall|x: usize| (x as int) < n && x >= p ==> #[trigger] count(row@, x) == 0,
            decreases n - p,
        {
            let ghost row0 = row@;
            let mut k: usize = 0;
            let ghost ds = deps@[p as int]@;
            assert(ds.take(0) =~= seq![]);
            while k < deps[p].len()
                invariant
                    n == deps@.len(),
                    p < n,
                    ds == deps@[p as int]@,
                    k <= ds.len(),
                    row@.len() >= row0.len(),
                    row@.subrange(0, row0.len() as int) == row0,
                    forall|t: int| row0.len() <= t < row@.len() ==> #[trigger] row@[t] == p,
                    count(row@, p) == count(row0, p) + count(ds.take(k as int), q),
                    forall|x: usize| x != p ==> #[trigger] count(row@, x) == count(row0, x),
                decreases ds.len() - k,
            {
                proof {
                    lemma_count_take(ds, k as int, q);
                }
                if deps[p][k] == q {
                    let ghost before = row@;
                    row.push(p);
                    proof {
                        assert(row@.drop_last() == before);
                        assert forall|x: usize| x != p implies #[trigger] count(row@, x) == count(row0, x) by {
                            assert(count(row@, x) == count(before, x));
                        }
                        assert(row@.subrange(0, row0.len() as int) =~= row0);
                    }
                }
                k += 1;
            }
            assert(ds.take(ds.len() as int) =~= ds);
            proof {
                assert forall|t: int| 0 <= t < row@.len() implies #[trigger] row@[t] < p + 1 by {
                    if t < row0.len() {
                        assert(row@[t] == row0[t]);
                    }
                }
            }
            p += 1;
        }
        r.push(row);
        q += 1;
    }
    r
}


/// The schedule `v` of the plan `names` before anything ran: the rules
/// without dependencies in the plan are queued in ascending order of name,
/// the others wait.
pub open spec fn initial(g: GraphView, rules: Seq<RuleView>, names: Seq<Seq<char>>, v: SchedView) -> bool {
    let n = names.len();
    &&& v.names == names
    &&& v.deps.len() == n
    &&& forall|p: int|
        0 <= p < n ==> #[trigger] v.deps[p] == plan_deps(g.deps[name_index(g.nodes, names[p]) as int], g.nodes, names)
    &&& v.stage.len() == n
    &&& forall|p: int|
        0 <= p < n ==> #[trigger] v.stage[p] == (if v.deps[p].len() == 0 {
            Stage::Ready
        } else {
            Stage::Waiting
        })
    &&& v.ready.no_duplicates()
    &&& ascending(v.ready, names)
    &&& forall|t: int| 0 <= t < v.ready.len() ==> #[trigger] v.ready[t] < n && v.deps[v.ready[t] as int].len() == 0
    &&& forall|p: usize| (p as int) < n && #[trigger] v.deps[p as int].len() == 0 ==> v.ready.contains(p)
    &&& v.running == 0
    &&& v.results == Seq::<ResultView>::empty()
    &&& v.finished == Seq::<usize>::empty()
    &&& v.phony.len() == n
    &&& v.checked.len() == n
    &&& forall|p: int| 0 <= p < n ==> #[trigger] v.phony[p] == rule_named(rules, names[p]).phony
    &&& forall|p: int|
        0 <= p < n ==> #[trigger] v.checked[p] == (!rule_named(rules, names[p]).phony && rule_named(
            rules,
            names[p],
        ).inputs.len() > 0)
}

proof fn lemma_unfinished_all(ds: Seq<usize>, s: Seq<Stage>)
    requires
        forall|k: int| 0 <= k < ds.len() ==> !is_finished(s[#[trigger] ds[k] as int]),
    ensures
        unfinished_count(ds, s) == ds.len(),
    decreases ds.len(),
{
    if ds.len() > 0 {
        assert(!is_finished(s[ds[ds.len() - 1] as int]));
        lemma_unfinished_all(ds.drop_last(), s);
    }
}

proof fn lemma_count_running_none(s: Seq<Stage>)
    requires
        forall|i: int| 0 <= i < s.len() ==> !(#[trigger] s[i] is Running),
    ensures
        count_running(s) == 0,
    decreases s.len(),
{
    if s.len() > 0 {
        assert(!(s[s.len() - 1] is Running));
        lemma_count_running_none(s.drop_last());
    }
}

impl Scheduler {
    /// The schedule of the plan `order` (rules of `bf`, nodes of `graph`,
    /// each once), before anything ran.
    pub fn new(bf: &BuildFile, graph: &BuildGraph, order: &Vec<String>) -> (r: Scheduler)
        requires
            graph.wf(),
            names_distinct(bf@.rules),
            strs(order@).no_duplicates(),
            forall|i: int| 0 <= i < order@.len() ==> #[trigger] graph@.nodes.contains(strs(order@)[i]),
            forall|i: int| 0 <= i < order@.len() ==> has_rule(bf@.rules, #[trigger] strs(order@)[i]),
        ensures
            r.wf(),
            initial(graph@, bf@.rules, strs(order@), r@),
            r.busy() == 0,
            fresh_schedule(r@),
    {
        let ghost names = strs(order@);
        let ghost nodes = graph@.nodes;
        let n = order.len();
        let (inode, nitem) = item_maps_exec(graph, order);
        proof {
            assert forall|a: int| 0 <= a < n implies #[trigger] inode@[a] is Some by {
                assert(nodes.contains(names[a]));
                let u = choose|u: int| 0 <= u < nodes.len() && nodes[u] == names[a];
            }
        }
        let deps = plan_dep_lists(graph, &inode, &nitem, order);
        let dependents = reverse_lists(&deps);
        let names_v = clone_strings(order);
        let mut keys: Vec<Vec<char>> = Vec::new();
        let mut indeg: Vec<usize> = Vec::new();
        let mut stage: Vec<Stage> = Vec::new();
        let mut zero: Vec<usize> = Vec::new();
        let mut phony: Vec<bool> = Vec::new();
        let mut checked: Vec<bool> = Vec::new();
        let mut p: usize = 0;
        while p < n
            invariant
                n == order@.len(),
                names == strs(order@),
                names_distinct(bf@.rules),
                forall|i: int| 0 <= i < n ==> has_rule(bf@.rules, #[trigger] names[i]),
                deps@.len() == n,
                p <= n,
                keys@.len() == p,
                indeg@.len() == p,
                stage@.len() == p,
                phony@.len() == p,
                checked@.len() == p,
                forall|a: int| 0 <= a < p ==> (#[trigger] keys@[a])@ == names[a],
                forall|a: int| 0 <= a < p ==> #[trigger] indeg@[a] == deps@[a]@.len(),
                forall|a: int|
                    0 <= a < p ==> #[trigger] stage@[a] == (if deps@[a]@.len() == 0 {
                        Stage::Ready
                    } else {
                        Stage::Waiting
                    }),
                forall|a: int| 0 <= a < p ==> #[trigger] phony@[a] == rule_named(bf@.rules, names[a]).phony,
                forall|a: int|
                    0 <= a < p ==> #[trigger] checked@[a] == (!rule_named(bf@.rules, names[a]).phony && rule_named(
                        bf@.rules,
                        names[a],
                    ).inputs.len() > 0),
                zero@.no_duplicates(),
                forall|t: int| 0 <= t < zero@.len() ==> #[trigger] zero@[t] < p && deps@[zero@[t] as int]@.len() == 0,
                forall|x: usize| x < p && #[trigger] deps@[x as int]@.len() == 0 ==> zero@.contains(x),
            decreases n - p,
        {
            keys.push(chars_of(order[p].as_str()));
            let d = deps[p].len();
            indeg.push(d);
            if d == 0 {
                stage.push(Stage::Ready);
                let ghost z0 = zero@;
                zero.push(p);
                proof {
                    assert forall|x: usize| x < p + 1 && #[trigger] deps@[x as int]@.len() == 0 implies zero@.contains(x) by {
                        if x < p {
                            assert(z0.contains(x));
                            let t = choose|t: int| 0 <= t < z0.len() && z0[t] == x;
                            assert(zero@[t] == x);
                        } else {
                            assert(zero@[zero@.len() - 1] == x);
                        }
                    }
                }
            } else {
                stage.push(Stage::Waiting);
            }
            match bf.rule(order[p].as_str()) {
                Some(rule) => {
                    proof {
                        let i = choose|i: int| 0 <= i < bf.rules@.len() && bf.rules@[i] == *rule;
                        let rs = bf@.rules;
                        assert(rs[i] == rule@);
                        let ns = rule_names(rs);
                        assert forall|a: int, b: int| 0 <= a < ns.len() && 0 <= b < ns.len() && a != b implies #[trigger] ns[a]
                            != #[trigger] ns[b] by {
                            assert(rs[a].name != rs[b].name);
                        }
                        assert(ns[i] == names[p as int]);
                        lemma_index_distinct(ns, i);
                    }
                    phony.push(rule.phony);
                    checked.push(!rule.phony && rule.inputs.len() > 0);
                },
                None => {
                    proof {
                        assert(has_rule(bf@.rules, names[p as int]));
                    }
                    phony.push(false);
                    checked.push(false);
                },
            }
            p += 1;
        }
        let ready = sort_by_key(&zero, &keys);
        let ghost g = graph@;
        let r = Scheduler {
            names: names_v,
            keys,
            deps,
            dependents,
            indeg,
            stage,
            ready,
            running: 0,
            results: Vec::new(),
            finished: Ghost(Seq::empty()),
            phony,
            checked,
        };
        proof {
            let v = r@;
            assert(v.names == names);
            assert(keys@.map_values(|k: Vec<char>| k@) =~= names);
            assert forall|x: int| 0 <= x < n implies !is_finished(#[trigger] v.stage[x]) && !(v.stage[x] is Running) && !(
            v.stage[x] is Claimed) && !(v.stage[x] is Done) by {
            }
            // the queue
            assert forall|t: int| 0 <= t < v.ready.len() implies #[trigger] v.ready[t] < n && v.deps[v.ready[t] as int].len() == 0 by {
                assert(v.ready.contains(v.ready[t]));
                assert(zero@.contains(v.ready[t]));
            }
            assert forall|x: usize| (x as int) < n && #[trigger] v.deps[x as int].len() == 0 implies v.ready.contains(x) by {
                assert(zero@.contains(x));
            }
            assert forall|a: int, b: int| 0 <= a < b < v.ready.len() implies lex_lt(
                names[#[trigger] v.ready[a] as int],
                #[trigger] names[v.ready[b] as int],
            ) by {
                assert(v.ready[a] != v.ready[b]);
                lemma_lex_total(names[v.ready[a] as int], names[v.ready[b] as int], 0);
            }
            // waiting exactly while a dependency is unfinished
            assert forall|x: usize| (x as int) < n implies ((#[trigger] v.stage[x as int] is Waiting) <==> !deps_finished(v, x as int)) by {
                if v.deps[x as int].len() > 0 {
                    assert(v.deps[x as int][0] < n);
                    assert(!is_finished(v.stage[v.deps[x as int][0] as int]));
                }
            }
            assert forall|x: int| 0 <= x < n implies #[trigger] r.indeg@[x] == unfinished_count(v.deps[x], v.stage) by {
                assert forall|k: int| 0 <= k < v.deps[x].len() implies !is_finished(v.stage[#[trigger] v.deps[x][k] as int]) by {
                    assert(v.deps[x][k] < n);
                }
                lemma_unfinished_all(v.deps[x], v.stage);
            }
            lemma_count_running_none(v.stage);
            // no cycle: rank each rule by its graph node
            let grank = choose|rank: Seq<int>| ranked(g.deps, rank);
            let prank = Seq::new(n as nat, |x: int| grank[inode@[x]->0 as int]);
            assert forall|x: int, k: int| 0 <= x < v.deps.len() && 0 <= k < v.deps[x].len() implies prank[#[trigger] v.deps[x][k] as int]
                < prank[x] by {
                let y = v.deps[x][k];
                let u = inode@[x]->0;
                let w = inode@[y as int]->0;
                assert(g.deps[u as int].contains(w));
                let j = choose|j: int| 0 <= j < g.deps[u as int].len() && g.deps[u as int][j] == w;
                assert(grank[g.deps[u as int][j] as int] < grank[u as int]);
            }
            assert(ranked(v.deps, prank));
            assert(acyclic(v.deps));
            assert forall|a: int, b: int| 0 <= a < n && 0 <= b < n && a != b implies #[trigger] names[a] != #[trigger] names[b] by {
            }
            assert(v.results =~= Seq::<ResultView>::empty());
        }
        r
    }
}


impl Scheduler {
    /// The number of rules in the plan.
    pub fn len(&self) -> (r: usize)
        requires
            self.wf(),
        ensures
            r == self@.names.len(),
    {
        self.names.len()
    }

    /// The name of the rule at position `p`.
    pub fn name(&self, p: usize) -> (r: &String)
        requires
            self.wf(),
            (p as int) < self@.names.len(),
        ensures
            r@ == self@.names[p as int],
    {
        &self.names[p]
    }

    /// Whether the rule at position `p` is subject to the up-to-date check.
    pub fn is_checked(&self, p: usize) -> (r: bool)
        requires
            self.wf(),
            (p as int) < self@.names.len(),
        ensures
            r == self@.checked[p as int],
    {
        self.checked[p]
    }

    /// The number of rules running.
    pub fn running(&self) -> (r: usize)
        requires
            self.wf(),
        ensures
            r == self@.running,
    {
        self.running
    }

    /// The outcomes so far, in the order the rules finished.
    pub fn results(&self) -> (r: &Vec<RuleResult>)
        requires
            self.wf(),
        ensures
            results_view(r@) == self@.results,
    {
        &self.results
    }

    /// The outcomes, in the order the rules finished.
    pub fn into_results(self) -> (r: Vec<RuleResult>)
        requires
            self.wf(),
        ensures
            results_view(r@) == self@.results,
    {
        self.results
    }
}

/// The environment of `rule`'s commands: the global settings, overridden by
/// the rule's own.
pub fn rule_env(bf: &BuildFile, rule: &Rule) -> (r: EnvMap)
    ensures
        r.spec_map() == bf@.env.union_prefer_right(rule@.env),
{
    bf.global_env.merged(&rule.env)
}

/// The commands of `rule` with the variables of `env` expanded.
pub fn expanded_commands(rule: &Rule, env: &EnvMap) -> (r: Vec<String>)
    ensures
        r@.len() == rule@.commands.len(),
        forall|i: int| 0 <= i < r@.len() ==> (#[trigger] r@[i])@ == expanded(rule@.commands[i], env.spec_map()),
{
    let mut r: Vec<String> = Vec::new();
    let mut i: usize = 0;
    while i < rule.commands.len()
        invariant
            i <= rule.commands@.len(),
            r@.len() == i,
            forall|j: int| 0 <= j < i ==> (#[trigger] r@[j])@ == expanded(rule@.commands[j], env.spec_map()),
        decreases rule.commands@.len() - i,
    {
        r.push(expand_vars(rule.commands[i].as_str(), env));
        i += 1;
    }
    r
}

/// How many results are of each kind.
pub struct Tally {
    pub succeeded: usize,
    pub skipped: usize,
    pub failed: usize,
}

pub open spec fn count_kind(rs: Seq<ResultView>, kind: int) -> nat
    decreases rs.len(),
{
    if rs.len() == 0 {
        0
    } else {
        count_kind(rs.drop_last(), kind) + (if (kind == 0 && rs.last() is Success) || (kind == 1
            && rs.last() is Skipped) || (kind == 2 && rs.last() is Failed) {
            1nat
        } else {
            0nat
        })
    }
}

proof fn lemma_count_kind_le(rs: Seq<ResultView>, kind: int)
    ensures
        count_kind(rs, kind) <= rs.len(),
    decreases rs.len(),
{
    if rs.len() > 0 {
        lemma_count_kind_le(rs.drop_last(), kind);
    }
}

/// Counts the successes, skips and failures among `results`.
pub fn tally(results: &Vec<RuleResult>) -> (r: Tally)
    ensures
        r.succeeded == count_kind(results_view(results@), 0),
        r.skipped == count_kind(results_view(results@), 1),
        r.failed == count_kind(results_view(results@), 2),
{
    let ghost rs = results_view(results@);
    let mut t = Tally { succeeded: 0, skipped: 0, failed: 0 };
    let mut i: usize = 0;
    assert(rs.take(0) =~= seq![]);
    while i < results.len()
        invariant
            rs == results_view(results@),
            i <= rs.len(),
            t.succeeded == count_kind(rs.take(i as int), 0),
            t.skipped == count_kind(rs.take(i as int), 1),
            t.failed == count_kind(rs.take(i as int), 2),
        decreases rs.len() - i,
    {
        proof {
            assert(rs.take(i + 1).drop_last() =~= rs.take(i as int));
            lemma_count_kind_le(rs.take(i as int), 0);
            lemma_count_kind_le(rs.take(i as int), 1);
            lemma_count_kind_le(rs.take(i as int), 2);
        }
        match &results[i] {
            RuleResult::Success(_) => {
                t.succeeded = t.succeeded + 1;
            },
            RuleResult::Skipped(_) => {
                t.skipped = t.skipped + 1;
            },
            RuleResult::Failed(_, _) => {
                t.failed = t.failed + 1;
            },
        }
        i += 1;
    }
    assert(rs.take(rs.len() as int) =~= rs);
    t
}


/// Fail-fast: in a consistent schedule, a rule one of whose dependencies
/// failed is never taken, run or done; once finished, it has failed with
/// the reason "dependency failed".
pub proof fn lemma_fail_fast(v: SchedView, p: int, k: int)
    requires
        consistent(v),
        0 <= p < v.names.len(),
        0 <= k < v.deps[p].len(),
        v.stage[v.deps[p][k] as int] is Failed,
    ensures
        !(v.stage[p] is Claimed || v.stage[p] is Running || v.stage[p] is Done),
        forall|i: int|
            0 <= i < v.finished.len() && v.finished[i] as int == p ==> #[trigger] v.results[i] == ResultView::Failed(
                v.names[p],
                dependency_failed_text(),
            ),
{
    let u = p as usize;
    assert(u as int == p);
    if v.stage[p] is Claimed || v.stage[p] is Running || v.stage[p] is Done {
        assert(deps_succeeded(v, u as int));
        assert(v.stage[v.deps[p][k] as int] is Done);
    }
    assert(dep_failed(v, p));
}

/// A rule is taken, run or done only after every one of its dependencies
/// in the plan finished without failure.
pub proof fn lemma_dependencies_first(v: SchedView, p: int, k: int)
    requires
        consistent(v),
        0 <= p < v.names.len(),
        0 <= k < v.deps[p].len(),
        v.stage[p] is Claimed || v.stage[p] is Running || v.stage[p] is Done,
    ensures
        v.stage[v.deps[p][k] as int] is Done,
{
    let u = p as usize;
    assert(u as int == p);
    assert(deps_succeeded(v, u as int));
}

/// The text of a whole number: its decimal digits, after `-` when it is
/// negative.
pub open spec fn signed_decimal(x: int) -> Seq<char> {
    if x < 0 {
        "-"@ + decimal((-x) as nat)
    } else {
        decimal(x as nat)
    }
}

/// The exit code a command is reported with: its own, or -1 when it ended
/// without one (killed by a signal).
pub open spec fn reported_code(code: Option<i32>) -> int {
    match code {
        Some(c) => c as int,
        None => -1,
    }
}

/// Whether one command of a rule succeeded, given its exit code: it
/// succeeded exactly when it exited with code 0; otherwise the rule fails
/// with a message naming the command and its code.
pub fn command_outcome(cmd: &str, code: Option<i32>) -> (r: Result<(), String>)
    ensures
        r is Ok <==> code == Some(0i32),
        r matches Err(m) ==> m@ == "command '"@ + cmd@ + "' exited with code "@ + signed_decimal(reported_code(code)),
{
    let c: i32 = match code {
        Some(c) => c,
        None => -1,
    };
    if c == 0 && code.is_some() {
        return Ok(());
    }
    let mut m = "command '".to_owned();
    m.append(cmd);
    m.append("' exited with code ");
    let mag: u128 = if c < 0 {
        m.append("-");
        (0i64 - c as i64) as u128
    } else {
        c as u128
    };
    let digits = decimal_vec(mag);
    push_chars(&mut m, &digits);
    proof {
        reveal_strlit("command '");
        reveal_strlit("' exited with code ");
        reveal_strlit("-");
    }
    Err(m)
}

/// The position of the first exit code that is not 0, or the number of
/// codes when all are 0.
pub open spec fn first_failure(codes: Seq<Option<i32>>) -> nat
    decreases codes.len(),
{
    if codes.len() == 0 {
        0
    } else if first_failure(codes.drop_last()) < codes.len() - 1 {
        first_failure(codes.drop_last())
    } else if codes.last() == Some(0i32) {
        codes.len()
    } else {
        (codes.len() - 1) as nat
    }
}

proof fn lemma_first_failure(codes: Seq<Option<i32>>)
    ensures
        first_failure(codes) <= codes.len(),
        forall|i: int| 0 <= i < first_failure(codes) ==> #[trigger] codes[i] == Some(0i32),
        first_failure(codes) < codes.len() ==> codes[first_failure(codes) as int] != Some(0i32),
    decreases codes.len(),
{
    if codes.len() > 0 {
        lemma_first_failure(codes.drop_last());
        assert forall|i: int| 0 <= i < first_failure(codes) implies #[trigger] codes[i] == Some(0i32) by {
            if i < codes.len() - 1 {
                assert(codes[i] == codes.drop_last()[i]);
            }
        }
    }
}

/// Whether the next command of a rule runs, given the exit codes of the
/// commands run so far: the commands run in order, each only after all
/// before it exited with code 0.
pub fn keeps_running(codes: &Vec<Option<i32>>) -> (r: bool)
    ensures
        r == (first_failure(codes@) == codes@.len()),
        r == (forall|i: int| 0 <= i < codes@.len() ==> #[trigger] codes@[i] == Some(0i32)),
{
    proof {
        lemma_first_failure(codes@);
    }
    let mut i: usize = 0;
    while i < codes.len()
        invariant
            i <= codes@.len(),
            forall|j: int| 0 <= j < i ==> #[trigger] codes@[j] == Some(0i32),
        decreases codes@.len() - i,
    {
        match codes[i] {
            Some(0) => {},
            _ => {
                proof {
                    lemma_first_failure(codes@);
                    assert(codes@[i as int] != Some(0i32));
                }
                return false;
            },
        }
        i += 1;
    }
    true
}

/// The outcome of a rule whose commands `cmds` ran in order with exit codes
/// `codes`: the failure of the first command that did not exit with code 0,
/// or success when every command did.
pub fn run_outcome(cmds: &Vec<String>, codes: &Vec<Option<i32>>) -> (r: Result<(), String>)
    requires
        codes@.len() <= cmds@.len(),
    ensures
        first_failure(codes@) == codes@.len() ==> r is Ok,
        first_failure(codes@) < codes@.len() ==> (r matches Err(m) && m@ == "command '"@ + cmds@[first_failure(codes@) as int]@
            + "' exited with code "@ + signed_decimal(reported_code(codes@[first_failure(codes@) as int]))),
{
    proof {
        lemma_first_failure(codes@);
    }
    let mut i: usize = 0;
    while i < codes.len()
        invariant
            i <= codes@.len(),
            codes@.len() <= cmds@.len(),
            forall|j: int| 0 <= j < i ==> #[trigger] codes@[j] == Some(0i32),
        decreases codes@.len() - i,
    {
        match command_outcome(cmds[i].as_str(), codes[i]) {
            Ok(()) => {},
            Err(m) => {
                assert(first_failure(codes@) == i) by {
                    lemma_first_failure(codes@);
                    assert(codes@[i as int] != Some(0i32));
                    if first_failure(codes@) < i {
                        assert(codes@[first_failure(codes@) as int] == Some(0i32));
                    }
                }
                return Err(m);
            },
        }
        i += 1;
    }
    Ok(())
}

/// A step keeps the plan, and the stage of every finished rule.
proof fn lemma_step_stable(v0: SchedView, v: SchedView, jobs: usize, dry_run: bool)
    requires
        consistent(v0),
        run_step(v0, v, jobs, dry_run),
    ensures
        v.names == v0.names,
        v.deps == v0.deps,
        v.stage.len() == v0.stage.len(),
        forall|x: int| 0 <= x < v0.stage.len() && is_finished(#[trigger] v0.stage[x]) ==> v.stage[x] == v0.stage[x],
{
    let n = v0.names.len();
    if !claimed_any(v0) && pop_moves(v0, v, jobs) {
        if v0.ready.len() > 0 && v0.running < jobs {
            let p = v0.ready[0];
            assert(v0.stage[p as int] is Ready);
            if dep_failed(v0, p as int) {
                lemma_completed_stable(dequeued(v0), v, p, ResultView::Failed(v0.names[p as int], dependency_failed_text()), true);
            }
        }
    } else if exists|p: usize, fresh: bool|
        (p as int) < v0.names.len() && v0.stage[p as int] is Claimed && #[trigger] start_moves(v0, v, p, fresh, dry_run) {
        let (p, fresh) = choose|p: usize, fresh: bool|
            (p as int) < v0.names.len() && v0.stage[p as int] is Claimed && #[trigger] start_moves(v0, v, p, fresh, dry_run);
        if (v0.checked[p as int] && fresh) || dry_run {
            lemma_completed_stable(v0, v, p, ResultView::Skipped(v0.names[p as int]), false);
        }
    } else {
        let (p, failure) = choose|p: usize, failure: Option<Seq<char>>|
            (p as int) < v0.names.len() && v0.stage[p as int] is Running && #[trigger] finish_moves(v0, v, p, failure);
        match failure {
            None => lemma_completed_stable(v0, v, p, ResultView::Success(v0.names[p as int]), false),
            Some(m) => lemma_completed_stable(v0, v, p, ResultView::Failed(v0.names[p as int], m), true),
        }
    }
}

/// Finishing an unfinished rule changes no finished rule's stage.
proof fn lemma_completed_stable(v0: SchedView, v: SchedView, q: usize, r: ResultView, failed: bool)
    requires
        completed(v0, v, q, r, failed),
        (q as int) < v0.names.len(),
        v0.names.len() <= usize::MAX,
        v0.stage.len() == v0.names.len(),
        !is_finished(v0.stage[q as int]),
    ensures
        v.names == v0.names,
        v.deps == v0.deps,
        v.stage.len() == v0.stage.len(),
        forall|x: int| 0 <= x < v0.stage.len() && is_finished(#[trigger] v0.stage[x]) ==> v.stage[x] == v0.stage[x],
{
    let released = v.ready.subrange(v0.ready.len() as int, v.ready.len() as int);
    assert forall|x: int| 0 <= x < v0.stage.len() && is_finished(#[trigger] v0.stage[x]) implies v.stage[x] == v0.stage[x] by {
        let u = x as usize;
        assert(u as int == x);
        assert(u != q);
        if released.contains(u) {
            assert(v0.stage[u as int] is Waiting);
        }
    }
}

/// Along a run, a finished rule keeps its stage.
proof fn lemma_run_stable(vs: Seq<SchedView>, jobs: usize, dry_run: bool, i: int, j: int)
    requires
        0 <= i <= j < vs.len(),
        forall|t: int| 0 <= t < vs.len() ==> consistent(#[trigger] vs[t]),
        forall|t: int| 0 <= t < vs.len() - 1 ==> #[trigger] run_step(vs[t], vs[t + 1], jobs, dry_run),
    ensures
        vs[j].names == vs[i].names,
        vs[j].deps == vs[i].deps,
        vs[j].stage.len() == vs[i].stage.len(),
        forall|x: int| 0 <= x < vs[i].stage.len() && is_finished(#[trigger] vs[i].stage[x]) ==> vs[j].stage[x] == vs[i].stage[x],
    decreases j - i,
{
    if i < j {
        lemma_run_stable(vs, jobs, dry_run, i, j - 1);
        assert(consistent(vs[j - 1]));
        assert(run_step(vs[j - 1], vs[j - 1 + 1], jobs, dry_run));
        lemma_step_stable(vs[j - 1], vs[j], jobs, dry_run);
    }
}

/// A dry-run schedule: no rule runs or has failed, and every result is a
/// skip.
pub open spec fn dry_so_far(v: SchedView) -> bool {
    &&& forall|p: int| 0 <= p < v.stage.len() ==> !(#[trigger] v.stage[p] is Running) && !(v.stage[p] is Failed)
    &&& forall|t: int| 0 <= t < v.results.len() ==> #[trigger] v.results[t] is Skipped
}

proof fn lemma_dry_step(v0: SchedView, v: SchedView, jobs: usize)
    requires
        consistent(v0),
        consistent(v),
        dry_so_far(v0),
        run_step(v0, v, jobs, true),
    ensures
        dry_so_far(v),
{
    let n = v0.names.len();
    if !claimed_any(v0) && pop_moves(v0, v, jobs) {
        if v0.ready.len() > 0 && v0.running < jobs {
            let p = v0.ready[0];
            assert(!dep_failed(v0, p as int)) by {
                if dep_failed(v0, p as int) {
                    let k = choose|k: int| 0 <= k < v0.deps[p as int].len() && #[trigger] v0.stage[v0.deps[p as int][k] as int] is Failed;
                    assert(v0.deps[p as int][k] < n);
                }
            }
        }
    } else if exists|p: usize, fresh: bool|
        (p as int) < v0.names.len() && v0.stage[p as int] is Claimed && #[trigger] start_moves(v0, v, p, fresh, true) {
        let (p, fresh) = choose|p: usize, fresh: bool|
            (p as int) < v0.names.len() && v0.stage[p as int] is Claimed && #[trigger] start_moves(v0, v, p, fresh, true);
        let r = ResultView::Skipped(v0.names[p as int]);
        assert(completed(v0, v, p, r, false));
        let released = v.ready.subrange(v0.ready.len() as int, v.ready.len() as int);
        assert forall|x: int| 0 <= x < v.stage.len() implies !(#[trigger] v.stage[x] is Running) && !(v.stage[x] is Failed) by {
            let u = x as usize;
            assert(u as int == x);
            if u != p && !released.contains(u) {
                assert(v.stage[u as int] == v0.stage[u as int]);
            }
        }
        assert forall|t: int| 0 <= t < v.results.len() implies #[trigger] v.results[t] is Skipped by {
            if t < v0.results.len() {
                assert(v.results[t] == v0.results[t]);
            }
        }
    } else {
        let (p, failure) = choose|p: usize, failure: Option<Seq<char>>|
            (p as int) < v0.names.len() && v0.stage[p as int] is Running && #[trigger] finish_moves(v0, v, p, failure);
        assert(!(v0.stage[p as int] is Running));
    }
}

proof fn lemma_busy_step(v0: SchedView, v: SchedView, jobs: usize, dry_run: bool)
    requires
        busy_of(v0) <= jobs,
        run_step(v0, v, jobs, dry_run),
    ensures
        busy_of(v) <= jobs,
{
    if !claimed_any(v0) && pop_moves(v0, v, jobs) {
    } else if exists|p: usize, fresh: bool|
        (p as int) < v0.names.len() && v0.stage[p as int] is Claimed && #[trigger] start_moves(v0, v, p, fresh, dry_run) {
        let (p, fresh) = choose|p: usize, fresh: bool|
            (p as int) < v0.names.len() && v0.stage[p as int] is Claimed && #[trigger] start_moves(v0, v, p, fresh, dry_run);
    } else {
        let (p, failure) = choose|p: usize, failure: Option<Seq<char>>|
            (p as int) < v0.names.len() && v0.stage[p as int] is Running && #[trigger] finish_moves(v0, v, p, failure);
    }
}

proof fn lemma_run_prefix(vs: Seq<SchedView>, jobs: usize, dry_run: bool, n: int)
    requires
        0 < n <= vs.len(),
        fresh_schedule(vs[0]),
        forall|t: int| 0 <= t < vs.len() ==> consistent(#[trigger] vs[t]),
        forall|t: int| 0 <= t < vs.len() - 1 ==> #[trigger] run_step(vs[t], vs[t + 1], jobs, dry_run),
    ensures
        forall|i: int| 0 <= i < n ==> busy_of(#[trigger] vs[i]) <= jobs,
        dry_run ==> forall|i: int| 0 <= i < n ==> dry_so_far(#[trigger] vs[i]),
    decreases n,
{
    if n == 1 {
        let v = vs[0];
        assert(!claimed_any(v)) by {
            if claimed_any(v) {
                let p = choose|p: int| 0 <= p < v.names.len() && #[trigger] v.stage[p] is Claimed;
                assert(consistent(v));
                assert(v.stage[p] is Waiting || v.stage[p] is Ready);
            }
        }
        if dry_run {
            assert(consistent(v));
            assert forall|p: int| 0 <= p < v.stage.len() implies !(#[trigger] v.stage[p] is Running) && !(v.stage[p] is Failed) by {
                assert(v.stage[p] is Waiting || v.stage[p] is Ready);
            }
        }
    } else {
        lemma_run_prefix(vs, jobs, dry_run, n - 1);
        assert(run_step(vs[n - 2], vs[n - 2 + 1], jobs, dry_run));
        assert(busy_of(vs[n - 2]) <= jobs);
        lemma_busy_step(vs[n - 2], vs[n - 1], jobs, dry_run);
        if dry_run {
            assert(dry_so_far(vs[n - 2]));
            lemma_dry_step(vs[n - 2], vs[n - 1], jobs);
        }
    }
}

/// The laws of a whole run, from a fresh schedule through any sequence of
/// `pop(jobs)`, `start` and `finish` calls (`vs` lists the schedule before
/// and after each call):
/// - at no time are more than `jobs` rules running or taken;
/// - in a dry run no rule ever runs or fails, and every result is a skip;
/// - a rule that was ever taken, running or done never has a dependency
///   that fails, at any time of the run (fail-fast cancels its dependents
///   instead).
pub proof fn lemma_whole_run(vs: Seq<SchedView>, jobs: usize, dry_run: bool)
    requires
        vs.len() > 0,
        fresh_schedule(vs[0]),
        forall|t: int| 0 <= t < vs.len() ==> consistent(#[trigger] vs[t]),
        forall|t: int| 0 <= t < vs.len() - 1 ==> #[trigger] run_step(vs[t], vs[t + 1], jobs, dry_run),
    ensures
        forall|i: int| 0 <= i < vs.len() ==> busy_of(#[trigger] vs[i]) <= jobs,
        dry_run ==> forall|i: int, t: int|
            0 <= i < vs.len() && 0 <= t < vs[i].results.len() ==> #[trigger] vs[i].results[t] is Skipped,
        dry_run ==> forall|i: int, p: int|
            0 <= i < vs.len() && 0 <= p < vs[i].stage.len() ==> !(#[trigger] vs[i].stage[p] is Running),
        forall|i: int, j: int, p: int, k: int|
            #![trigger vs[i].stage[p], vs[j].stage[vs[i].deps[p][k] as int]]
            0 <= i < vs.len() && 0 <= j < vs.len() && 0 <= p < vs[i].names.len() && 0 <= k < vs[i].deps[p].len() && (
            vs[i].stage[p] is Claimed || vs[i].stage[p] is Running || vs[i].stage[p] is Done)
                ==> !(vs[j].stage[vs[i].deps[p][k] as int] is Failed),
{
    lemma_run_prefix(vs, jobs, dry_run, vs.len() as int);
    if dry_run {
        assert forall|i: int, t: int| 0 <= i < vs.len() && 0 <= t < vs[i].results.len() implies #[trigger] vs[i].results[t] is Skipped by {
            assert(dry_so_far(vs[i]));
        }
        assert forall|i: int, p: int| 0 <= i < vs.len() && 0 <= p < vs[i].stage.len() implies !(#[trigger] vs[i].stage[p] is Running) by {
            assert(dry_so_far(vs[i]));
        }
    }
    assert forall|i: int, j: int, p: int, k: int|
        #![trigger vs[i].stage[p], vs[j].stage[vs[i].deps[p][k] as int]]
        0 <= i < vs.len() && 0 <= j < vs.len() && 0 <= p < vs[i].names.len() && 0 <= k < vs[i].deps[p].len() && (
        vs[i].stage[p] is Claimed || vs[i].stage[p] is Running || vs[i].stage[p] is Done)
            implies !(vs[j].stage[vs[i].deps[p][k] as int] is Failed) by {
        let v = vs[i];
        assert(consistent(v));
        let u = p as usize;
        assert(u as int == p);
        assert(deps_succeeded(v, p));
        let d = v.deps[p][k] as int;
        assert(v.stage[d] is Done);
        assert(0 <= d < v.stage.len());
        if j >= i {
            lemma_run_stable(vs, jobs, dry_run, i, j);
        } else {
            lemma_run_stable(vs, jobs, dry_run, j, i);
            if vs[j].stage[d] is Failed {
                assert(vs[i].stage[d] == vs[j].stage[d]);
            }
        }
    }
}

/// At the end of a run, when every rule of the plan has finished: each rule
/// has exactly one result, about it, and a rule with a failed dependency
/// has failed with the reason "dependency failed".
pub proof fn lemma_run_end(v: SchedView, p: int)
    requires
        consistent(v),
        forall|x: int| 0 <= x < v.names.len() ==> is_finished(#[trigger] v.stage[x]),
        0 <= p < v.names.len(),
    ensures
        exists|i: int|
            0 <= i < v.results.len() && result_name(#[trigger] v.results[i]) == v.names[p] && forall|j: int|
                0 <= j < v.results.len() && j != i ==> result_name(#[trigger] v.results[j]) != v.names[p],
        forall|i: int|
            0 <= i < v.results.len() && result_name(#[trigger] v.results[i]) == v.names[p] && dep_failed(v, p)
                ==> v.results[i] == ResultView::Failed(v.names[p], dependency_failed_text()),
{
    let u = p as usize;
    assert(u as int == p);
    assert(is_finished(v.stage[p]));
    assert(v.finished.contains(u));
    let i = choose|i: int| 0 <= i < v.finished.len() && v.finished[i] == u;
    assert(result_name(v.results[i]) == v.names[p]);
    assert forall|j: int| 0 <= j < v.results.len() && j != i implies result_name(#[trigger] v.results[j]) != v.names[p] by {
        assert(v.finished[j] != v.finished[i]);
        assert(result_name(v.results[j]) == v.names[v.finished[j] as int]);
    }
    assert forall|i2: int|
        0 <= i2 < v.results.len() && result_name(#[trigger] v.results[i2]) == v.names[p] && dep_failed(v, p)
            implies v.results[i2] == ResultView::Failed(v.names[p], dependency_failed_text()) by {
        assert(result_name(v.results[i2]) == v.names[v.finished[i2] as int]);
        assert(v.finished[i2] as int == p);
    }
}

/// A rule that succeeded or was skipped has its result after the results of
/// all its dependencies in the plan, each of which succeeded or was skipped.
pub proof fn lemma_results_after_deps(v: SchedView, i: int, k: int)
    requires
        consistent(v),
        0 <= i < v.results.len(),
        !(v.results[i] is Failed),
        0 <= k < v.deps[v.finished[i] as int].len(),
    ensures
        exists|j: int|
            0 <= j < i && #[trigger] result_name(v.results[j]) == v.names[v.deps[v.finished[i] as int][k] as int]
                && !(v.results[j] is Failed),
{
    let p = v.finished[i];
    assert(v.stage[p as int] is Done);
    let d = v.deps[p as int][k];
    assert(finished_before(v, i, d));
    let j = choose|j: int| 0 <= j < i && v.finished[j] == d;
    assert(deps_succeeded(v, p as int));
    assert(v.stage[d as int] is Done);
    assert(result_name(v.results[j]) == v.names[d as int]);
}

/// Each finished rule has exactly one result, and every result is about a
/// finished rule of the plan.
pub proof fn lemma_one_result_each(v: SchedView, i: int, j: int)
    requires
        consistent(v),
        0 <= i < v.results.len(),
        0 <= j < v.results.len(),
        i != j,
    ensures
        result_name(v.results[i]) != result_name(v.results[j]),
        is_finished(v.stage[v.finished[i] as int]),
{
    assert(v.finished[i] != v.finished[j]);
    assert(result_name(v.results[i]) == v.names[v.finished[i] as int]);
    assert(result_name(v.results[j]) == v.names[v.finished[j] as int]);
}


/// A rule's own setting of a variable wins over the global one; variables
/// the rule does not set keep their global value.
pub proof fn lemma_rule_env_overrides(global: Map<Seq<char>, Seq<char>>, own: Map<Seq<char>, Seq<char>>, k: Seq<char>)
    ensures
        own.contains_key(k) ==> global.union_prefer_right(own)[k] == own[k],
        !own.contains_key(k) && global.contains_key(k) ==> global.union_prefer_right(own)[k] == global[k],
        global.union_prefer_right(own).contains_key(k) == (global.contains_key(k) || own.contains_key(k)),
{
}

} // verus!
