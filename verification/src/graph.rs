//! The dependency graph: construction from a Buildfile with validation of
//! dependencies and cycle detection, reachability and topological order.
use vstd::prelude::*;
use crate::parser::{BuildFile, RuleView, has_rule, names_distinct, strs};
use crate::text::{chars_of, join, lemma_lex_trans, lex_less, lex_lt};

verus! {

/// The dependency graph of a Buildfile. Node `i` is the `i`-th rule.
#[derive(Debug)]
pub struct BuildGraph {
    /// Rule names.
    pub nodes: Vec<String>,
    /// `deps[i]`: the nodes that node `i` depends on, in declaration order.
    pub deps: Vec<Vec<usize>>,
    /// `rdeps[j]`: the nodes that depend on node `j`, one entry per
    /// dependency edge, in node order.
    pub rdeps: Vec<Vec<usize>>,
}

pub struct GraphView {
    pub nodes: Seq<Seq<char>>,
    pub deps: Seq<Seq<usize>>,
    pub rdeps: Seq<Seq<usize>>,
}

pub open spec fn index_seqs(v: Seq<Vec<usize>>) -> Seq<Seq<usize>> {
    v.map_values(|x: Vec<usize>| x@)
}

impl View for BuildGraph {
    type V = GraphView;

    open spec fn view(&self) -> GraphView {
        GraphView {
            nodes: strs(self.nodes@),
            deps: index_seqs(self.deps@),
            rdeps: index_seqs(self.rdeps@),
        }
    }
}

/// The position of the first name equal to `x`, or -1.
pub open spec fn name_index(names: Seq<Seq<char>>, x: Seq<char>) -> int
    decreases names.len(),
{
    if names.len() == 0 {
        -1
    } else if name_index(names.drop_last(), x) >= 0 {
        name_index(names.drop_last(), x)
    } else if names.last() == x {
        names.len() - 1
    } else {
        -1
    }
}

pub proof fn lemma_name_index(names: Seq<Seq<char>>, x: Seq<char>)
    ensures
        -1 <= name_index(names, x) < names.len(),
        name_index(names, x) >= 0 ==> names[name_index(names, x)] == x,
        name_index(names, x) == -1 <==> !names.contains(x),
        forall|j: int| 0 <= j < name_index(names, x) ==> names[j] != x,
    decreases names.len(),
{
    if names.len() > 0 {
        let d = names.drop_last();
        lemma_name_index(d, x);
        assert forall|j: int| 0 <= j < d.len() implies d[j] == names[j] by {}
        if name_index(d, x) >= 0 {
            assert(names.contains(x)) by {
                assert(names[name_index(d, x)] == x);
            }
        } else {
            assert forall|j: int| 0 <= j < d.len() implies names[j] != x by {
                if names[j] == x {
                    assert(d[j] == x);
                    assert(d.contains(x));
                }
            }
            if names.last() != x {
                assert forall|j: int| 0 <= j < names.len() implies names[j] != x by {}
            } else {
                assert(names.contains(x)) by {
                    assert(names[names.len() - 1] == x);
                }
            }
        }
    }
}

pub open spec fn rule_names(rules: Seq<RuleView>) -> Seq<Seq<char>> {
    rules.map_values(|r: RuleView| r.name)
}

/// The number of times `x` occurs in `s`.
pub open spec fn count(s: Seq<usize>, x: usize) -> nat
    decreases s.len(),
{
    if s.len() == 0 {
        0
    } else {
        count(s.drop_last(), x) + (if s.last() == x {
            1nat
        } else {
            0nat
        })
    }
}

/// `x`, `c` times.
pub open spec fn repeat(x: usize, c: nat) -> Seq<usize>
    decreases c,
{
    if c == 0 {
        seq![]
    } else {
        repeat(x, (c - 1) as nat).push(x)
    }
}

/// The dependents of `j` among nodes `0..i`, once per dependency edge.
pub open spec fn dependents_upto(deps: Seq<Seq<usize>>, j: usize, i: int) -> Seq<usize>
    decreases i,
{
    if i <= 0 {
        seq![]
    } else {
        dependents_upto(deps, j, i - 1) + repeat((i - 1) as usize, count(deps[i - 1], j))
    }
}

/// The dependents of `j`, once per dependency edge, in node order.
pub open spec fn dependents(deps: Seq<Seq<usize>>, j: usize) -> Seq<usize> {
    dependents_upto(deps, j, deps.len() as int)
}

/// The graph of a list of rules with distinct names whose dependencies
/// all name rules.
pub open spec fn graph_of(rules: Seq<RuleView>) -> GraphView {
    let names = rule_names(rules);
    let deps = Seq::new(
        rules.len(),
        |i: int| rules[i].deps.map_values(|d: Seq<char>| name_index(names, d) as usize),
    );
    GraphView {
        nodes: names,
        deps,
        rdeps: Seq::new(rules.len(), |j: int| dependents(deps, j as usize)),
    }
}

/// The first dependency of rule `r` that names no rule in `rules`.
pub open spec fn missing_dep(rules: Seq<RuleView>, r: RuleView, k: int) -> Option<Seq<char>>
    decreases r.deps.len() - k,
{
    if k < 0 || k >= r.deps.len() {
        None
    } else if !has_rule(rules, r.deps[k]) {
        Some(r.deps[k])
    } else {
        missing_dep(rules, r, k + 1)
    }
}

/// The first (rule, dependency) pair, in rule and declaration order, whose
/// dependency names no rule.
pub open spec fn first_missing(rules: Seq<RuleView>, i: int) -> Option<(Seq<char>, Seq<char>)>
    decreases rules.len() - i,
{
    if i < 0 || i >= rules.len() {
        None
    } else {
        match missing_dep(rules, rules[i], 0) {
            Some(d) => Some((rules[i].name, d)),
            None => first_missing(rules, i + 1),
        }
    }
}

pub open spec fn missing_message(rule: Seq<char>, dep: Seq<char>) -> Seq<char> {
    "rule '"@ + rule + "' depends on '"@ + dep + "', which is not defined"@
}

/// Whether the index lists are well formed for `n` nodes.
pub open spec fn deps_in_range(deps: Seq<Seq<usize>>) -> bool {
    forall|i: int, k: int|
        0 <= i < deps.len() && 0 <= k < deps[i].len() ==> #[trigger] deps[i][k] < deps.len()
}

/// `rank` strictly decreases along every dependency edge.
pub open spec fn ranked(deps: Seq<Seq<usize>>, rank: Seq<int>) -> bool {
    &&& rank.len() == deps.len()
    &&& forall|i: int, k: int|
        0 <= i < deps.len() && 0 <= k < deps[i].len() ==> rank[#[trigger] deps[i][k] as int]
            < rank[i]
}

/// The graph has no dependency cycle: its nodes can be ranked so that every
/// node ranks above its dependencies.
pub open spec fn acyclic(deps: Seq<Seq<usize>>) -> bool {
    exists|rank: Seq<int>| ranked(deps, rank)
}

/// `c` is a dependency cycle: a path along dependency edges that returns to
/// its start.
pub open spec fn is_cycle(deps: Seq<Seq<usize>>, c: Seq<usize>) -> bool {
    &&& c.len() >= 2
    &&& c[0] == c.last()
    &&& forall|t: int| 0 <= t < c.len() ==> #[trigger] c[t] < deps.len()
    &&& forall|t: int| 0 <= t < c.len() - 1 ==> deps[c[t] as int].contains(#[trigger] c[t + 1])
}

pub open spec fn has_cycle(deps: Seq<Seq<usize>>) -> bool {
    exists|c: Seq<usize>| is_cycle(deps, c)
}

/// A ranked graph has no cycle.
pub proof fn lemma_ranked_no_cycle(deps: Seq<Seq<usize>>, rank: Seq<int>)
    requires
        ranked(deps, rank),
    ensures
        !has_cycle(deps),
{
    if has_cycle(deps) {
        let c = choose|c: Seq<usize>| is_cycle(deps, c);
        lemma_rank_descends(deps, rank, c, c.len() - 1);
    }
}

proof fn lemma_rank_descends(deps: Seq<Seq<usize>>, rank: Seq<int>, c: Seq<usize>, t: int)
    requires
        ranked(deps, rank),
        is_cycle(deps, c),
        0 < t < c.len(),
    ensures
        rank[c[t] as int] < rank[c[0] as int],
    decreases t,
{
    let s = t - 1;
    assert(deps[c[s] as int].contains(c[s + 1]));
    let row = deps[c[t - 1] as int];
    assert(row.contains(c[t]));
    let k = choose|k: int| 0 <= k < row.len() && #[trigger] row[k] == c[t];
    assert(rank[deps[c[t - 1] as int][k] as int] < rank[c[t - 1] as int]);
    if t > 1 {
        lemma_rank_descends(deps, rank, c, t - 1);
    }
}

pub open spec fn cycle_message(names: Seq<Seq<char>>, c: Seq<usize>) -> Seq<char> {
    "circular dependency detected: "@ + join(c.map_values(|i: usize| names[i as int]), " -> "@)
}

impl BuildGraph {
    /// The graph is well formed: one entry per node, indices in range,
    /// distinct names, reverse edges matching the edges, and no cycle.
    pub open spec fn wf(&self) -> bool {
        let v = self@;
        &&& v.deps.len() == v.nodes.len()
        &&& v.rdeps.len() == v.nodes.len()
        &&& deps_in_range(v.deps)
        &&& forall|j: int| 0 <= j < v.nodes.len() ==> #[trigger] v.rdeps[j] == dependents(v.deps, j as usize)
        &&& forall|i: int, j: int|
            0 <= i < v.nodes.len() && 0 <= j < v.nodes.len() && i != j ==> #[trigger] v.nodes[i]
                != #[trigger] v.nodes[j]
        &&& acyclic(v.deps)
    }
}


/// The names of the rules, in order.
fn node_names(bf: &BuildFile) -> (r: Vec<String>)
    ensures
        strs(r@) == rule_names(bf@.rules),
{
    let mut r: Vec<String> = Vec::new();
    let mut i: usize = 0;
    while i < bf.rules.len()
        invariant
            i <= bf.rules@.len(),
            r@.len() == i,
            forall|j: int| 0 <= j < i ==> #[trigger] r@[j]@ == bf.rules@[j].name@,
        decreases bf.rules@.len() - i,
    {
        r.push(bf.rules[i].name.clone());
        i += 1;
    }
    assert(strs(r@) =~= rule_names(bf@.rules));
    r
}

/// The position of the first name equal to `x`.
fn index_of_name(names: &Vec<String>, x: &String) -> (r: Option<usize>)
    ensures
        match r {
            Some(i) => i as int == name_index(strs(names@), x@),
            None => name_index(strs(names@), x@) == -1,
        },
{
    let ghost ns = strs(names@);
    proof {
        lemma_name_index(ns, x@);
    }
    let mut i: usize = 0;
    while i < names.len()
        invariant
            i <= names@.len(),
            ns == strs(names@),
            forall|j: int| 0 <= j < i ==> #[trigger] ns[j] != x@,
            -1 <= name_index(ns, x@) < ns.len(),
            name_index(ns, x@) >= 0 ==> ns[name_index(ns, x@)] == x@,
            name_index(ns, x@) == -1 <==> !ns.contains(x@),
            forall|j: int| 0 <= j < name_index(ns, x@) ==> ns[j] != x@,
        decreases names@.len() - i,
    {
        if names[i] == *x {
            assert(ns[i as int] == x@);
            return Some(i);
        }
        i += 1;
    }
    None
}

/// The message for the first dependency, in rule and declaration order,
/// that names no rule.
fn find_missing(bf: &BuildFile) -> (r: Option<String>)
    ensures
        match (r, first_missing(bf@.rules, 0)) {
            (Some(m), Some((rn, dn))) => m@ == missing_message(rn, dn),
            (None, None) => true,
            _ => false,
        },
{
    let ghost rules = bf@.rules;
    let mut i: usize = 0;
    while i < bf.rules.len()
        invariant
            i <= bf.rules@.len(),
            rules == bf@.rules,
            first_missing(rules, 0) == first_missing(rules, i as int),
        decreases bf.rules@.len() - i,
    {
        let rule = &bf.rules[i];
        let ghost rv = rules[i as int];
        assert(rv == rule@);
        let mut k: usize = 0;
        while k < rule.deps.len()
            invariant
                k <= rule.deps@.len(),
                rv == rule@,
                rules == bf@.rules,
                i < rules.len(),
                rv == rules[i as int],
                first_missing(rules, 0) == first_missing(rules, i as int),
                missing_dep(rules, rv, 0) == missing_dep(rules, rv, k as int),
            decreases rule.deps@.len() - k,
        {
            match bf.find_rule_chars(&rule.deps[k]) {
                None => {
                    assert(rv.deps[k as int] == rule.deps@[k as int]@);
                    assert(missing_dep(rules, rv, k as int) == Some(rv.deps[k as int]));
                    assert(first_missing(rules, i as int) == Some((rv.name, rv.deps[k as int])));
                    let mut m = String::new();
                    m.append("rule '");
                    m.append(rule.name.as_str());
                    m.append("' depends on '");
                    m.append(rule.deps[k].as_str());
                    m.append("', which is not defined");
                    return Some(m);
                },
                Some(_) => {},
            }
            k += 1;
        }
        i += 1;
    }
    None
}

/// The dependency lists of the rules as node indices.
fn dep_indices(bf: &BuildFile, names: &Vec<String>) -> (r: Vec<Vec<usize>>)
    requires
        strs(names@) == rule_names(bf@.rules),
        first_missing(bf@.rules, 0) is None,
    ensures
        index_seqs(r@) == graph_of(bf@.rules).deps,
        deps_in_range(index_seqs(r@)),
{
    let ghost rules = bf@.rules;
    let ghost g = graph_of(rules);
    let ghost ns = rule_names(rules);
    let mut r: Vec<Vec<usize>> = Vec::new();
    let mut i: usize = 0;
    while i < bf.rules.len()
        invariant
            i <= bf.rules@.len(),
            rules == bf@.rules,
            g == graph_of(rules),
            ns == rule_names(rules),
            strs(names@) == ns,
            first_missing(rules, 0) == first_missing(rules, i as int),
            first_missing(rules, 0) is None,
            r@.len() == i,
            forall|j: int| 0 <= j < i ==> #[trigger] r@[j]@ == g.deps[j],
            forall|j: int, k: int|
                0 <= j < i && 0 <= k < r@[j]@.len() ==> #[trigger] r@[j]@[k] < rules.len(),
        decreases bf.rules@.len() - i,
    {
        let rule = &bf.rules[i];
        let ghost rv = rules[i as int];
        assert(rv == rule@);
        let mut row: Vec<usize> = Vec::new();
        let mut k: usize = 0;
        while k < rule.deps.len()
            invariant
                k <= rule.deps@.len(),
                rv == rule@,
                rules == bf@.rules,
                ns == rule_names(rules),
                strs(names@) == ns,
                missing_dep(rules, rv, 0) == missing_dep(rules, rv, k as int),
                missing_dep(rules, rv, 0) is None,
                row@.len() == k,
                forall|t: int|
                    0 <= t < k ==> #[trigger] row@[t] as int == name_index(ns, rv.deps[t]),
                forall|t: int| 0 <= t < k ==> #[trigger] row@[t] < rules.len(),
            decreases rule.deps@.len() - k,
        {
            assert(has_rule(rules, rv.deps[k as int]));
            proof {
                lemma_name_index(ns, rv.deps[k as int]);
                let w = choose|w: int| 0 <= w < rules.len() && #[trigger] rules[w].name == rv.deps[k as int];
                assert(ns[w] == rv.deps[k as int]);
            }
            let idx = index_of_name(names, &rule.deps[k]);
            match idx {
                Some(x) => {
                    row.push(x);
                },
                None => {
                    assert(false);
                    row.push(0);
                },
            }
            k += 1;
        }
        assert(row@ =~= g.deps[i as int]);
        r.push(row);
        i += 1;
    }
    assert(index_seqs(r@) =~= g.deps);
    r
}

pub(crate) proof fn lemma_count_take(s: Seq<usize>, k: int, x: usize)
    requires
        0 <= k < s.len(),
    ensures
        count(s.take(k + 1), x) == count(s.take(k), x) + (if s[k] == x {
            1nat
        } else {
            0nat
        }),
{
    assert(s.take(k + 1).drop_last() =~= s.take(k));
}

/// The reverse edges of `deps`.
fn reverse_edges(deps: &Vec<Vec<usize>>) -> (r: Vec<Vec<usize>>)
    requires
        deps_in_range(index_seqs(deps@)),
    ensures
        r@.len() == deps@.len(),
        forall|j: int|
            0 <= j < deps@.len() ==> #[trigger] index_seqs(r@)[j] == dependents(
                index_seqs(deps@),
                j as usize,
            ),
{
    let ghost d = index_seqs(deps@);
    let n = deps.len();
    let mut r: Vec<Vec<usize>> = Vec::new();
    let mut j: usize = 0;
    while j < n
        invariant
            j <= n,
            n == deps@.len(),
            r@.len() == j,
            forall|t: int| 0 <= t < j ==> #[trigger] r@[t]@ == Seq::<usize>::empty(),
        decreases n - j,
    {
        r.push(Vec::new());
        j += 1;
    }
    let mut i: usize = 0;
    while i < n
        invariant
            i <= n,
            n == deps@.len(),
            d == index_seqs(deps@),
            deps_in_range(d),
            r@.len() == n,
            forall|t: int|
                0 <= t < n ==> #[trigger] r@[t]@ == dependents_upto(d, t as usize, i as int),
        decreases n - i,
    {
        let row = &deps[i];
        assert(row@ == d[i as int]);
        let mut k: usize = 0;
        while k < row.len()
            invariant
                i < n,
                n == deps@.len(),
                d == index_seqs(deps@),
                deps_in_range(d),
                row@ == d[i as int],
                k <= row@.len(),
                r@.len() == n,
                forall|t: int|
                    0 <= t < n ==> #[trigger] r@[t]@ == dependents_upto(d, t as usize, i as int)
                        + repeat(i, count(row@.take(k as int), t as usize)),
            decreases row@.len() - k,
        {
            let x = row[k];
            assert(x < n);
            let ghost before = r@;
            let mut col = r[x].clone();
            assert(col@ =~= before[x as int]@);
            col.push(i);
            r.set(x, col);
            assert forall|t: int| 0 <= t < n implies #[trigger] r@[t]@ == dependents_upto(
                d,
                t as usize,
                i as int,
            ) + repeat(i, count(row@.take(k + 1), t as usize)) by {
                lemma_count_take(row@, k as int, t as usize);
                if t != x {
                    assert(r@[t] == before[t]);
                }
            }
            k += 1;
        }
        assert forall|t: int| 0 <= t < n implies #[trigger] r@[t]@ == dependents_upto(
            d,
            t as usize,
            i + 1,
        ) by {
            assert(row@.take(row@.len() as int) =~= row@);
        }
        i += 1;
    }
    r
}


/// The number of entries of `s` equal to `x`.
pub open spec fn count_u8(s: Seq<u8>, x: u8) -> nat
    decreases s.len(),
{
    if s.len() == 0 {
        0
    } else {
        count_u8(s.drop_last(), x) + (if s.last() == x {
            1nat
        } else {
            0nat
        })
    }
}

proof fn lemma_count_u8_update(s: Seq<u8>, i: int, v: u8, x: u8)
    requires
        0 <= i < s.len(),
    ensures
        count_u8(s.update(i, v), x) + (if s[i] == x {
            1nat
        } else {
            0nat
        }) == count_u8(s, x) + (if v == x {
            1nat
        } else {
            0nat
        }),
    decreases s.len(),
{
    if i < s.len() - 1 {
        lemma_count_u8_update(s.drop_last(), i, v, x);
        assert(s.update(i, v).drop_last() =~= s.drop_last().update(i, v));
    } else {
        assert(s.update(i, v).drop_last() =~= s.drop_last());
    }
}

proof fn lemma_count_u8_le(s: Seq<u8>, x: u8)
    ensures
        count_u8(s, x) <= s.len(),
    decreases s.len(),
{
    if s.len() > 0 {
        lemma_count_u8_le(s.drop_last(), x);
    }
}

const WHITE: u8 = 0;

const GRAY: u8 = 1;

const BLACK: u8 = 2;

/// The search state: gray nodes are exactly those on `path`, which follows
/// dependency edges; black nodes are finished, numbered by `pos` in the
/// order they finished, and depend only on black nodes finished before them.
spec fn search_inv(d: Seq<Seq<usize>>, color: Seq<u8>, path: Seq<usize>, pos: Seq<usize>, nfin: usize) -> bool {
    &&& color.len() == d.len()
    &&& pos.len() == d.len()
    &&& deps_in_range(d)
    &&& forall|v: int| 0 <= v < color.len() ==> #[trigger] color[v] <= BLACK
    &&& forall|v: int| 0 <= v < color.len() ==> (#[trigger] color[v] == GRAY <==> path.contains(v as usize))
    &&& path.no_duplicates()
    &&& forall|t: int| 0 <= t < path.len() ==> #[trigger] path[t] < d.len()
    &&& forall|t: int| 0 <= t < path.len() - 1 ==> d[path[t] as int].contains(#[trigger] path[t + 1])
    &&& nfin == count_u8(color, BLACK)
    &&& forall|v: int| 0 <= v < color.len() && #[trigger] color[v] == BLACK ==> pos[v] < nfin
    &&& forall|v: int, k: int|
        0 <= v < color.len() && color[v] == BLACK && 0 <= k < d[v].len() ==> color[#[trigger] d[v][k] as int]
            == BLACK && pos[d[v][k] as int] < pos[v]
}

/// Depth-first search from the white node `u`. Returns a dependency cycle
/// if one is met; otherwise `u` and every node reachable from it end black.
fn search(
    deps: &Vec<Vec<usize>>,
    u: usize,
    color: &mut Vec<u8>,
    path: &mut Vec<usize>,
    pos: &mut Vec<usize>,
    nfin: &mut usize,
) -> (r: Option<Vec<usize>>)
    requires
        search_inv(index_seqs(deps@), old(color)@, old(path)@, old(pos)@, *old(nfin)),
        u < deps@.len(),
        old(color)@[u as int] == WHITE,
        old(path)@.len() > 0 ==> index_seqs(deps@)[old(path)@.last() as int].contains(u),
    ensures
        match r {
            Some(c) => is_cycle(index_seqs(deps@), c@),
            None => {
                &&& search_inv(index_seqs(deps@), final(color)@, final(path)@, final(pos)@, *final(nfin))
                &&& final(color)@[u as int] == BLACK
                &&& final(path)@ == old(path)@
                &&& count_u8(final(color)@, WHITE) < count_u8(old(color)@, WHITE)
                &&& forall|v: int|
                    0 <= v < old(color)@.len() && #[trigger] old(color)@[v] == BLACK ==> final(color)@[v] == BLACK
                        && final(pos)@[v] == old(pos)@[v]
            },
        },
    decreases count_u8(old(color)@, WHITE),
{
    let ghost d = index_seqs(deps@);
    let n = deps.len();
    let ghost c0 = color@;
    let ghost p0 = pos@;
    proof {
        lemma_count_u8_update(color@, u as int, GRAY, WHITE);
        lemma_count_u8_update(color@, u as int, GRAY, BLACK);
        assert(!path@.contains(u));
    }
    color.set(u, GRAY);
    path.push(u);
    proof {
        assert forall|v: int| 0 <= v < color@.len() implies (#[trigger] color@[v] == GRAY <==> path@.contains(v as usize)) by {
            assert(color@ == c0.update(u as int, GRAY));
            assert(path@ == old(path)@.push(u));
            if v != u {
                assert(color@[v] == c0[v]);
                assert(c0[v] == GRAY <==> old(path)@.contains(v as usize));
                if path@.contains(v as usize) {
                    let t = choose|t: int| 0 <= t < path@.len() && path@[t] == v as usize;
                    if t < old(path)@.len() {
                        assert(old(path)@[t] == v as usize);
                        assert(old(path)@.contains(v as usize));
                    } else {
                        assert(path@[t] == u);
                    }
                    assert(color@[v] == GRAY);
                }
                if old(path)@.contains(v as usize) {
                    let t = choose|t: int| 0 <= t < old(path)@.len() && old(path)@[t] == v as usize;
                    assert(path@[t] == v as usize);
                    assert(path@.contains(v as usize));
                }
                assert(color@[v] == GRAY ==> path@.contains(v as usize));
            } else {
                assert(path@[path@.len() - 1] == u);
                assert(path@.contains(v as usize));
                assert(color@[v] == GRAY);
            }
        }
        assert forall|t: int| 0 <= t < path@.len() - 1 implies d[path@[t] as int].contains(#[trigger] path@[t + 1]) by {
            if t < path@.len() - 2 {
                assert(path@[t] == old(path)@[t]);
                assert(path@[t + 1] == old(path)@[t + 1]);
            }
        }
        assert(search_inv(d, color@, path@, pos@, *nfin));
    }
    let row = &deps[u];
    assert(row@ == d[u as int]);
    let mut k: usize = 0;
    while k < row.len()
        invariant
            d == index_seqs(deps@),
            row@ == d[u as int],
            u < d.len(),
            n == d.len(),
            old(color)@.len() == d.len(),
            old(pos)@.len() == d.len(),
            k <= row@.len(),
            search_inv(d, color@, path@, pos@, *nfin),
            path@ == old(path)@.push(u),
            color@[u as int] == GRAY,
            count_u8(color@, WHITE) < count_u8(old(color)@, WHITE),
            forall|t: int| 0 <= t < k ==> color@[#[trigger] row@[t] as int] == BLACK,
            forall|v: int|
                0 <= v < old(color)@.len() && #[trigger] old(color)@[v] == BLACK ==> color@[v] == BLACK
                    && pos@[v] == old(pos)@[v],
        decreases row@.len() - k,
    {
        let v = row[k];
        assert(v < d.len());
        if color[v] == GRAY {
            assert(path@.contains(v));
            let mut t: usize = 0;
            while t < path.len() && path[t] != v
                invariant
                    t <= path@.len(),
                    path@.contains(v),
                    forall|s: int| 0 <= s < t ==> path@[s] != v,
                decreases path@.len() - t,
            {
                t += 1;
            }
            if t >= path.len() {
                proof {
                    let s = choose|s: int| 0 <= s < path@.len() && path@[s] == v;
                    assert(path@[s] != v);
                }
                return None;
            }
            let mut cyc: Vec<usize> = Vec::new();
            let mut s = t;
            while s < path.len()
                invariant
                    t <= s <= path@.len(),
                    cyc@ == path@.subrange(t as int, s as int),
                decreases path@.len() - s,
            {
                cyc.push(path[s]);
                s += 1;
                assert(cyc@ =~= path@.subrange(t as int, s as int));
            }
            cyc.push(v);
            proof {
                let c = cyc@;
                assert(c[0] == v);
                assert forall|q: int| 0 <= q < c.len() - 1 implies d[c[q] as int].contains(#[trigger] c[q + 1]) by {
                    if q < c.len() - 2 {
                        let a = t + q;
                        assert(c[q] == path@[a]);
                        assert(c[q + 1] == path@[a + 1]);
                    } else {
                        assert(c[q] == path@[path@.len() - 1]);
                        assert(path@[path@.len() - 1] == u);
                        assert(row@[k as int] == v);
                    }
                }
            }
            return Some(cyc);
        } else if color[v] == WHITE {
            assert(path@.last() == u);
            assert(row@.contains(v)) by {
                assert(row@[k as int] == v);
            }
            let ghost cpre = color@;
            let ghost ppre = pos@;
            match search(deps, v, color, path, pos, nfin) {
                Some(c) => {
                    return Some(c);
                },
                None => {},
            }
            assert forall|w: int|
                0 <= w < old(color)@.len() && #[trigger] old(color)@[w] == BLACK implies color@[w] == BLACK
                    && pos@[w] == old(pos)@[w] by {
                assert(cpre.len() == old(color)@.len());
                assert(cpre[w] == BLACK);
                assert(ppre[w] == old(pos)@[w]);
                assert(color@[w] == BLACK);
                assert(pos@[w] == ppre[w]);
            }
            assert forall|q: int| 0 <= q < k implies color@[#[trigger] row@[q] as int] == BLACK by {
                assert(cpre[row@[q] as int] == BLACK);
            }
        }
        k += 1;
    }
    proof {
        lemma_count_u8_update(color@, u as int, BLACK, BLACK);
        lemma_count_u8_update(color@, u as int, BLACK, WHITE);
        lemma_count_u8_le(color@.update(u as int, BLACK), BLACK);
    }
    let ghost cb = color@;
    path.pop();
    color.set(u, BLACK);
    pos.set(u, *nfin);
    *nfin = *nfin + 1;
    proof {
        assert(path@ =~= old(path)@);
        assert forall|v: int| 0 <= v < color@.len() implies (#[trigger] color@[v] == GRAY <==> path@.contains(v as usize)) by {
            if v != u {
                assert(cb[v] == color@[v]);
                if cb[v] == GRAY {
                    let pp = old(path)@.push(u);
                    assert(pp.contains(v as usize));
                    let t = choose|t: int| 0 <= t < pp.len() && pp[t] == v as usize;
                    assert(path@[t] == v as usize);
                }
                if path@.contains(v as usize) {
                    let t = choose|t: int| 0 <= t < path@.len() && path@[t] == v as usize;
                    assert(old(path)@.push(u)[t] == v as usize);
                }
            } else {
                if path@.contains(u) {
                    let t = choose|t: int| 0 <= t < path@.len() && path@[t] == u;
                    assert(old(path)@.push(u)[t] == u);
                    assert(old(path)@.push(u)[old(path)@.len() as int] == u);
                }
            }
        }
        assert forall|w: int, q: int|
            0 <= w < color@.len() && color@[w] == BLACK && 0 <= q < d[w].len() implies color@[#[trigger] d[w][q] as int]
                == BLACK && pos@[d[w][q] as int] < pos@[w] by {
            if w == u {
                assert(row@[q] == d[w][q]);
                assert(cb[row@[q] as int] == BLACK);
            } else {
                assert(cb[w] == BLACK);
            }
        }
    }
    None
}

/// Searches the whole graph: a dependency cycle if there is one, otherwise
/// a ranking that shows there is none.
fn search_cycles(deps: &Vec<Vec<usize>>) -> (r: Result<Ghost<Seq<int>>, Vec<usize>>)
    requires
        deps_in_range(index_seqs(deps@)),
    ensures
        match r {
            Ok(rank) => ranked(index_seqs(deps@), rank@),
            Err(c) => is_cycle(index_seqs(deps@), c@),
        },
{
    let ghost d = index_seqs(deps@);
    let n = deps.len();
    let mut color: Vec<u8> = Vec::new();
    let mut pos: Vec<usize> = Vec::new();
    let mut j: usize = 0;
    while j < n
        invariant
            j <= n,
            n == deps@.len(),
            color@.len() == j,
            pos@.len() == j,
            forall|t: int| 0 <= t < j ==> #[trigger] color@[t] == WHITE,
            count_u8(color@, BLACK) == 0,
        decreases n - j,
    {
        let ghost prev = color@;
        color.push(WHITE);
        pos.push(0);
        j += 1;
        assert(color@.drop_last() =~= prev);
    }
    let mut path: Vec<usize> = Vec::new();
    let mut nfin: usize = 0;
    let mut i: usize = 0;
    while i < n
        invariant
            i <= n,
            n == deps@.len(),
            d == index_seqs(deps@),
            search_inv(d, color@, path@, pos@, nfin),
            path@.len() == 0,
            forall|t: int| 0 <= t < i ==> #[trigger] color@[t] == BLACK,
        decreases n - i,
    {
        if color[i] == WHITE {
            let ghost cpre = color@;
            match search(deps, i, &mut color, &mut path, &mut pos, &mut nfin) {
                Some(c) => {
                    return Err(c);
                },
                None => {},
            }
            assert forall|t: int| 0 <= t < i implies #[trigger] color@[t] == BLACK by {
                assert(cpre[t] == BLACK);
            }
        } else {
            assert(color@[i as int] != GRAY);
        }
        i += 1;
    }
    let ghost rank = pos@.map_values(|x: usize| x as int);
    proof {
        assert forall|v: int, k: int|
            0 <= v < d.len() && 0 <= k < d[v].len() implies rank[#[trigger] d[v][k] as int] < rank[v] by {
            assert(color@[v] == BLACK);
        }
    }
    Ok(Ghost(rank))
}


/// The cycle message for the node cycle `c`.
fn cycle_message_exec(names: &Vec<String>, c: &Vec<usize>) -> (r: String)
    requires
        forall|t: int| 0 <= t < c@.len() ==> #[trigger] c@[t] < names@.len(),
    ensures
        r@ == cycle_message(strs(names@), c@),
{
    let ghost ns = strs(names@);
    let ghost cs = c@.map_values(|i: usize| ns[i as int]);
    let mut m = String::new();
    m.append("circular dependency detected: ");
    let ghost prefix = m@;
    let mut t: usize = 0;
    assert(cs.take(0) =~= seq![]);
    while t < c.len()
        invariant
            t <= c@.len(),
            ns == strs(names@),
            cs == c@.map_values(|i: usize| ns[i as int]),
            forall|q: int| 0 <= q < c@.len() ==> #[trigger] c@[q] < names@.len(),
            m@ == prefix + join(cs.take(t as int), " -> "@),
        decreases c@.len() - t,
    {
        if t > 0 {
            m.append(" -> ");
        }
        m.append(names[c[t]].as_str());
        proof {
            let a = cs.take(t as int);
            let b = cs.take(t + 1);
            assert(b.drop_last() =~= a);
            assert(b.last() == names@[c@[t as int] as int]@);
            if t == 0 {
                assert(b.len() == 1);
            }
        }
        t += 1;
    }
    assert(cs.take(c@.len() as int) =~= cs);
    m
}

/// The number of times the name `x` occurs in `s`.
pub open spec fn name_count(s: Seq<Seq<char>>, x: Seq<char>) -> nat
    decreases s.len(),
{
    if s.len() == 0 {
        0
    } else {
        name_count(s.drop_last(), x) + (if s.last() == x {
            1nat
        } else {
            0nat
        })
    }
}

proof fn lemma_missing_dep_none(rules: Seq<RuleView>, r: RuleView, k: int)
    requires
        0 <= k,
        missing_dep(rules, r, k) is None,
    ensures
        forall|t: int| k <= t < r.deps.len() ==> has_rule(rules, #[trigger] r.deps[t]),
    decreases r.deps.len() - k,
{
    if k < r.deps.len() {
        lemma_missing_dep_none(rules, r, k + 1);
    }
}

proof fn lemma_first_missing_none(rules: Seq<RuleView>, i: int)
    requires
        0 <= i,
        first_missing(rules, i) is None,
    ensures
        forall|j: int, t: int|
            i <= j < rules.len() && 0 <= t < rules[j].deps.len() ==> has_rule(rules, #[trigger] rules[j].deps[t]),
    decreases rules.len() - i,
{
    if i < rules.len() {
        lemma_first_missing_none(rules, i + 1);
        lemma_missing_dep_none(rules, rules[i], 0);
    }
}

proof fn lemma_count_names(names: Seq<Seq<char>>, ds: Seq<Seq<char>>, m: int)
    requires
        0 <= m < names.len(),
        names.len() <= usize::MAX,
        forall|a: int, b: int| 0 <= a < names.len() && 0 <= b < names.len() && a != b ==> #[trigger] names[a] != #[trigger] names[b],
        forall|t: int| 0 <= t < ds.len() ==> names.contains(#[trigger] ds[t]),
    ensures
        count(ds.map_values(|d: Seq<char>| name_index(names, d) as usize), m as usize) == name_count(ds, names[m]),
    decreases ds.len(),
{
    if ds.len() > 0 {
        let l = ds.drop_last();
        lemma_count_names(names, l, m);
        let f = |d: Seq<char>| name_index(names, d) as usize;
        assert(ds.map_values(f).drop_last() =~= l.map_values(f));
        let x = ds.last();
        assert(names.contains(ds[ds.len() - 1]));
        lemma_name_index(names, x);
        let w = name_index(names, x);
        assert(names[w] == x);
        assert((w as usize == m as usize) == (x == names[m]));
    }
}

/// The graph of a list of rules, in terms of names: node `i` is rule `i`;
/// the dependencies of node `i` name exactly the dependencies of rule `i`,
/// in order; node `i` is listed among the dependents of node `m` once per
/// time rule `i` names rule `m` as a dependency.
pub proof fn lemma_graph_names(rules: Seq<RuleView>, i: int, m: int)
    requires
        names_distinct(rules),
        first_missing(rules, 0) is None,
        rules.len() <= usize::MAX,
        0 <= i < rules.len(),
        0 <= m < rules.len(),
    ensures
        graph_of(rules).nodes[i] == rules[i].name,
        graph_of(rules).deps[i].map_values(|j: usize| graph_of(rules).nodes[j as int]) == rules[i].deps,
        count(graph_of(rules).rdeps[m], i as usize) == name_count(rules[i].deps, rules[m].name),
{
    let g = graph_of(rules);
    let names = rule_names(rules);
    lemma_first_missing_none(rules, 0);
    assert forall|a: int, b: int| 0 <= a < names.len() && 0 <= b < names.len() && a != b implies #[trigger] names[a]
        != #[trigger] names[b] by {
        assert(rules[a].name != rules[b].name);
    }
    let ds = rules[i].deps;
    assert forall|t: int| 0 <= t < ds.len() implies names.contains(#[trigger] ds[t]) by {
        assert(has_rule(rules, rules[i].deps[t]));
        let w = choose|w: int| 0 <= w < rules.len() && #[trigger] rules[w].name == ds[t];
        assert(names[w] == ds[t]);
    }
    assert forall|t: int| 0 <= t < ds.len() implies g.nodes[g.deps[i][t] as int] == #[trigger] ds[t] by {
        lemma_name_index(names, ds[t]);
    }
    assert(g.deps[i].map_values(|j: usize| g.nodes[j as int]) =~= ds);
    lemma_count_names(names, ds, m);
    lemma_dependents_count(g.deps, m as usize, i as usize, g.deps.len() as int);
}

/// Checks a graph for a dependency cycle: `Ok` when there is none, else the
/// message naming one cycle.
pub fn detect_cycle(graph: &BuildGraph) -> (r: Result<(), String>)
    requires
        graph@.deps.len() == graph@.nodes.len(),
        deps_in_range(graph@.deps),
    ensures
        r is Ok <==> !has_cycle(graph@.deps),
        r matches Err(e) ==> exists|c: Seq<usize>| is_cycle(graph@.deps, c) && e@ == cycle_message(graph@.nodes, c),
{
    match search_cycles(&graph.deps) {
        Err(c) => {
            proof {
                assert forall|t: int| 0 <= t < c@.len() implies #[trigger] c@[t] < graph.nodes@.len() by {
                    assert(c@[t] < graph@.deps.len());
                }
            }
            let m = cycle_message_exec(&graph.nodes, &c);
            Err(m)
        },
        Ok(rank) => {
            proof {
                lemma_ranked_no_cycle(graph@.deps, rank@);
            }
            Ok(())
        },
    }
}

/// Builds the dependency graph of a Buildfile, checking that every
/// dependency names a rule (reporting the first one, in rule and
/// declaration order, that does not) and that no rule depends on itself
/// through a chain of dependencies (reporting one such cycle).
pub fn build_graph(bf: &BuildFile) -> (r: Result<BuildGraph, String>)
    requires
        names_distinct(bf@.rules),
    ensures
        match r {
            Ok(g) => first_missing(bf@.rules, 0) is None && g@ == graph_of(bf@.rules) && g.wf(),
            Err(e) => match first_missing(bf@.rules, 0) {
                Some((rn, dn)) => e@ == missing_message(rn, dn),
                None => exists|c: Seq<usize>|
                    is_cycle(graph_of(bf@.rules).deps, c) && e@ == cycle_message(
                        graph_of(bf@.rules).nodes,
                        c,
                    ),
            },
        },
        r is Ok <==> (first_missing(bf@.rules, 0) is None && !has_cycle(graph_of(bf@.rules).deps)),
{
    let ghost g = graph_of(bf@.rules);
    match find_missing(bf) {
        Some(m) => {
            return Err(m);
        },
        None => {},
    }
    let nodes = node_names(bf);
    let deps = dep_indices(bf, &nodes);
    match search_cycles(&deps) {
        Err(c) => {
            proof {
                assert(strs(nodes@).len() == nodes@.len());
                assert(index_seqs(deps@).len() == deps@.len());
                assert(g.deps.len() == bf@.rules.len());
                assert forall|t: int| 0 <= t < c@.len() implies #[trigger] c@[t] < nodes@.len() by {
                    assert(c@[t] < index_seqs(deps@).len());
                }
            }
            let m = cycle_message_exec(&nodes, &c);
            return Err(m);
        },
        Ok(rank) => {
            let rdeps = reverse_edges(&deps);
            let r = BuildGraph { nodes, deps, rdeps };
            proof {
                assert(index_seqs(r.rdeps@) =~= g.rdeps);
                assert(r@ == g);
                assert forall|i: int, j: int|
                    0 <= i < g.nodes.len() && 0 <= j < g.nodes.len() && i != j implies #[trigger] g.nodes[i]
                        != #[trigger] g.nodes[j] by {
                    assert(bf@.rules[i].name != bf@.rules[j].name);
                }
                lemma_ranked_no_cycle(g.deps, rank@);
            }
            Ok(r)
        },
    }
}


/// `p` follows dependency edges.
pub open spec fn is_path(deps: Seq<Seq<usize>>, p: Seq<usize>) -> bool {
    &&& p.len() >= 1
    &&& forall|t: int| 0 <= t < p.len() ==> #[trigger] p[t] < deps.len()
    &&& forall|t: int| 0 <= t < p.len() - 1 ==> deps[p[t] as int].contains(#[trigger] p[t + 1])
}

/// Node `b` can be reached from node `a` by following dependency edges
/// (every node reaches itself).
pub open spec fn reaches(deps: Seq<Seq<usize>>, a: usize, b: usize) -> bool {
    exists|p: Seq<usize>| is_path(deps, p) && p[0] == a && p.last() == b
}

proof fn lemma_reaches_step(deps: Seq<Seq<usize>>, a: usize, b: usize, c: usize)
    requires
        reaches(deps, a, b),
        c < deps.len(),
        deps[b as int].contains(c),
    ensures
        reaches(deps, a, c),
{
    let p = choose|p: Seq<usize>| is_path(deps, p) && p[0] == a && p.last() == b;
    let q = p.push(c);
    assert forall|t: int| 0 <= t < q.len() - 1 implies deps[q[t] as int].contains(#[trigger] q[t + 1]) by {
        if t < q.len() - 2 {
            assert(q[t] == p[t]);
            assert(q[t + 1] == p[t + 1]);
        }
    }
    assert(is_path(deps, q) && q[0] == a && q.last() == c);
}

/// A set of nodes that holds `a` and is closed under dependency edges holds
/// every node reachable from `a`.
proof fn lemma_closed_holds_reachable(deps: Seq<Seq<usize>>, inset: Seq<u8>, a: usize, b: usize)
    requires
        inset.len() == deps.len(),
        reaches(deps, a, b),
        inset[a as int] == 1,
        forall|v: int, k: int|
            0 <= v < deps.len() && inset[v] == 1 && 0 <= k < deps[v].len() ==> inset[#[trigger] deps[v][k] as int] == 1,
    ensures
        inset[b as int] == 1,
{
    let p = choose|p: Seq<usize>| is_path(deps, p) && p[0] == a && p.last() == b;
    assert forall|t: int| 0 <= t < p.len() implies inset[#[trigger] p[t] as int] == 1 by {
        lemma_path_in_closed(deps, inset, p, t);
    }
    assert(inset[p[p.len() - 1] as int] == 1);
}

proof fn lemma_path_in_closed(deps: Seq<Seq<usize>>, inset: Seq<u8>, p: Seq<usize>, t: int)
    requires
        inset.len() == deps.len(),
        is_path(deps, p),
        inset[p[0] as int] == 1,
        0 <= t < p.len(),
        forall|v: int, k: int|
            0 <= v < deps.len() && inset[v] == 1 && 0 <= k < deps[v].len() ==> inset[#[trigger] deps[v][k] as int] == 1,
    ensures
        inset[p[t] as int] == 1,
    decreases t,
{
    if t > 0 {
        lemma_path_in_closed(deps, inset, p, t - 1);
        let s = t - 1;
        assert(deps[p[s] as int].contains(p[s + 1]));
        let row = deps[p[s] as int];
        let k = choose|k: int| 0 <= k < row.len() && #[trigger] row[k] == p[s + 1];
        assert(inset[deps[p[s] as int][k] as int] == 1);
    }
}

impl BuildGraph {
    /// The node named `name`.
    pub fn node_index(&self, name: &str) -> (r: Option<usize>)
        ensures
            match r {
                Some(i) => i < self@.nodes.len() && self@.nodes[i as int] == name@,
                None => !self@.nodes.contains(name@),
            },
    {
        let n = name.to_owned();
        let r = index_of_name(&self.nodes, &n);
        proof {
            lemma_name_index(self@.nodes, name@);
        }
        r
    }

    /// The names of the dependencies of the rule `name`, in declaration
    /// order, or `None` when no rule has that name.
    pub fn deps_of(&self, name: &str) -> (r: Option<Vec<String>>)
        requires
            self.wf(),
        ensures
            match r {
                Some(v) => exists|i: int|
                    0 <= i < self@.nodes.len() && self@.nodes[i] == name@ && strs(v@)
                        == self@.deps[i].map_values(|j: usize| self@.nodes[j as int]),
                None => !self@.nodes.contains(name@),
            },
    {
        match self.node_index(name) {
            None => None,
            Some(i) => {
                let row = &self.deps[i];
                let ghost rv = self@.deps[i as int];
                assert(row@ == rv);
                let mut out: Vec<String> = Vec::new();
                let mut k: usize = 0;
                while k < row.len()
                    invariant
                        self.wf(),
                        i < self@.nodes.len(),
                        row@ == rv,
                        rv == self@.deps[i as int],
                        k <= row@.len(),
                        out@.len() == k,
                        forall|t: int| 0 <= t < k ==> #[trigger] out@[t]@ == self@.nodes[rv[t] as int],
                    decreases row@.len() - k,
                {
                    assert(row@[k as int] < self@.deps.len());
                    out.push(self.nodes[row[k]].clone());
                    k += 1;
                }
                assert(strs(out@) =~= rv.map_values(|j: usize| self@.nodes[j as int]));
                Some(out)
            },
        }
    }
}

/// A graph with one dependency list per node, every dependency a node, and
/// distinct node names.
pub open spec fn graph_shape(g: GraphView) -> bool {
    &&& g.deps.len() == g.nodes.len()
    &&& deps_in_range(g.deps)
    &&& forall|i: int, j: int|
        0 <= i < g.nodes.len() && 0 <= j < g.nodes.len() && i != j ==> #[trigger] g.nodes[i] != #[trigger] g.nodes[j]
}

/// The rules reachable from `target` by following dependencies, `target`
/// included, each once; an error when no rule is named `target`.
pub fn reachable_from(target: &str, graph: &BuildGraph) -> (r: Result<Vec<String>, String>)
    requires
        graph_shape(graph@),
    ensures
        match r {
            Ok(v) => exists|t: int|
                0 <= t < graph@.nodes.len() && graph@.nodes[t] == target@ && strs(v@).no_duplicates()
                    && forall|x: Seq<char>|
                    #![trigger strs(v@).contains(x)]
                    strs(v@).contains(x) <==> exists|j: int|
                        0 <= j < graph@.nodes.len() && graph@.nodes[j] == x && reaches(
                            graph@.deps,
                            t as usize,
                            j as usize,
                        ),
            Err(e) => !graph@.nodes.contains(target@) && e@ == "target '"@ + target@
                + "' is not defined"@,
        },
{
    let ghost d = graph@.deps;
    let start = match graph.node_index(target) {
        Some(i) => i,
        None => {
            let mut m = String::new();
            m.append("target '");
            m.append(target);
            m.append("' is not defined");
            return Err(m);
        },
    };
    let n = graph.nodes.len();
    let mut seen: Vec<u8> = Vec::new();
    let mut j: usize = 0;
    while j < n
        invariant
            j <= n,
            seen@.len() == j,
            forall|t: int| 0 <= t < j ==> #[trigger] seen@[t] == 0,
            count_u8(seen@, 1) == 0,
        decreases n - j,
    {
        let ghost prev = seen@;
        seen.push(0);
        j += 1;
        assert(seen@.drop_last() =~= prev);
    }
    proof {
        lemma_count_u8_update(seen@, start as int, 1, 1);
    }
    seen.set(start, 1);
    let mut order: Vec<usize> = Vec::new();
    order.push(start);
    proof {
        let p1 = seq![start];
        assert(is_path(d, p1) && p1[0] == start && p1.last() == start);
        assert(reaches(d, start, start));
        assert forall|v: int| 0 <= v < n implies (#[trigger] seen@[v] == 1 <==> order@.contains(v as usize)) by {
            if v == start {
                assert(order@[0] == start);
            } else {
                if order@.contains(v as usize) {
                    let t = choose|t: int| 0 <= t < order@.len() && order@[t] == v as usize;
                }
            }
        }
    }
    let mut head: usize = 0;
    while head < order.len()
        invariant
            graph_shape(graph@),
            d == graph@.deps,
            n == graph@.nodes.len(),
            d.len() == n,
            start < n,
            seen@.len() == n,
            head <= order@.len(),
            order@.len() == count_u8(seen@, 1),
            order@.len() <= n,
            order@.len() > 0,
            order@[0] == start,
            order@.no_duplicates(),
            forall|t: int| 0 <= t < order@.len() ==> #[trigger] order@[t] < n,
            forall|v: int| 0 <= v < n ==> (#[trigger] seen@[v] == 1 <==> order@.contains(v as usize)),
            forall|v: int| 0 <= v < n ==> #[trigger] seen@[v] <= 1,
            forall|t: int| 0 <= t < order@.len() ==> reaches(d, start, #[trigger] order@[t]),
            forall|t: int, k: int|
                0 <= t < head && 0 <= k < d[order@[t] as int].len() ==> seen@[#[trigger] d[order@[t] as int][k] as int] == 1,
        decreases n - head,
    {
        let u = order[head];
        let row = &graph.deps[u];
        assert(row@ == d[u as int]);
        let mut k: usize = 0;
        while k < row.len()
            invariant
                graph_shape(graph@),
                d == graph@.deps,
                n == graph@.nodes.len(),
                d.len() == n,
                start < n,
                seen@.len() == n,
                head < order@.len(),
                u == order@[head as int],
                row@ == d[u as int],
                k <= row@.len(),
                order@.len() == count_u8(seen@, 1),
                order@.len() <= n,
                order@[0] == start,
                order@.no_duplicates(),
                forall|t: int| 0 <= t < order@.len() ==> #[trigger] order@[t] < n,
                forall|v: int| 0 <= v < n ==> (#[trigger] seen@[v] == 1 <==> order@.contains(v as usize)),
                forall|v: int| 0 <= v < n ==> #[trigger] seen@[v] <= 1,
                forall|t: int| 0 <= t < order@.len() ==> reaches(d, start, #[trigger] order@[t]),
                forall|t: int, q: int|
                    0 <= t < head && 0 <= q < d[order@[t] as int].len() ==> seen@[#[trigger] d[order@[t] as int][q] as int] == 1,
                forall|q: int| 0 <= q < k ==> seen@[#[trigger] row@[q] as int] == 1,
            decreases row@.len() - k,
        {
            let w = row[k];
            assert(w < n);
            if seen[w] == 0 {
                proof {
                    lemma_count_u8_update(seen@, w as int, 1, 1);
                    lemma_count_u8_le(seen@.update(w as int, 1), 1);
                    assert(!order@.contains(w));
                    assert(row@.contains(w)) by {
                        assert(row@[k as int] == w);
                    }
                    lemma_reaches_step(d, start, u, w);
                }
                let ghost o0 = order@;
                seen.set(w, 1);
                order.push(w);
                proof {
                    assert forall|v: int| 0 <= v < n implies (#[trigger] seen@[v] == 1 <==> order@.contains(v as usize)) by {
                        if v != w {
                            if order@.contains(v as usize) {
                                let t = choose|t: int| 0 <= t < order@.len() && order@[t] == v as usize;
                                if t < o0.len() {
                                    assert(o0[t] == v as usize);
                                }
                            }
                            if o0.contains(v as usize) {
                                let t = choose|t: int| 0 <= t < o0.len() && o0[t] == v as usize;
                                assert(order@[t] == v as usize);
                            }
                        } else {
                            assert(order@[order@.len() - 1] == w);
                        }
                    }
                    assert forall|a: int, b: int|
                        0 <= a < order@.len() && 0 <= b < order@.len() && a != b implies order@[a] != order@[b] by {
                        if a < o0.len() && b < o0.len() {
                        } else if a < o0.len() {
                            assert(o0.contains(o0[a]));
                        } else if b < o0.len() {
                            assert(o0.contains(o0[b]));
                        }
                    }
                }
            }
            k += 1;
        }
        head += 1;
    }
    proof {
        assert forall|v: int, q: int|
            0 <= v < d.len() && seen@[v] == 1 && 0 <= q < d[v].len() implies seen@[#[trigger] d[v][q] as int] == 1 by {
            assert(order@.contains(v as usize));
            let t = choose|t: int| 0 <= t < order@.len() && order@[t] == v as usize;
            assert(d[order@[t] as int] == d[v]);
        }
    }
    let mut out: Vec<String> = Vec::new();
    let mut t: usize = 0;
    while t < order.len()
        invariant
            t <= order@.len(),
            out@.len() == t,
            forall|q: int| 0 <= q < order@.len() ==> #[trigger] order@[q] < graph@.nodes.len(),
            graph@.nodes.len() == graph.nodes@.len(),
            forall|q: int| 0 <= q < t ==> #[trigger] out@[q]@ == graph@.nodes[order@[q] as int],
        decreases order@.len() - t,
    {
        out.push(graph.nodes[order[t]].clone());
        t += 1;
    }
    proof {
        let names = graph@.nodes;
        let ov = strs(out@);
        assert(ov =~= order@.map_values(|i: usize| names[i as int]));
        assert forall|a: int, b: int| 0 <= a < ov.len() && 0 <= b < ov.len() && a != b implies ov[a] != ov[b] by {
            assert(order@[a] != order@[b]);
            assert(names[order@[a] as int] != names[order@[b] as int]);
        }
        assert forall|x: Seq<char>| #![trigger ov.contains(x)] ov.contains(x) <==> exists|j: int|
            0 <= j < names.len() && names[j] == x && reaches(d, start, j as usize) by {
            if ov.contains(x) {
                let q = choose|q: int| 0 <= q < ov.len() && ov[q] == x;
                let j = order@[q] as int;
                assert(names[j] == x && reaches(d, start, j as usize));
            }
            if exists|j: int| 0 <= j < names.len() && names[j] == x && reaches(d, start, j as usize) {
                let j = choose|j: int| 0 <= j < names.len() && names[j] == x && reaches(d, start, j as usize);
                lemma_closed_holds_reachable(d, seen@, start, j as usize);
                assert(order@.contains(j as usize));
                let q = choose|q: int| 0 <= q < order@.len() && order@[q] == j as usize;
                assert(ov[q] == x);
            }
        }
    }
    Ok(out)
}


pub(crate) proof fn lemma_count_concat(a: Seq<usize>, b: Seq<usize>, x: usize)
    ensures
        count(a + b, x) == count(a, x) + count(b, x),
    decreases b.len(),
{
    if b.len() == 0 {
        assert(a + b =~= a);
    } else {
        lemma_count_concat(a, b.drop_last(), x);
        assert((a + b).drop_last() =~= a + b.drop_last());
    }
}

proof fn lemma_count_repeat(y: usize, c: nat, x: usize)
    ensures
        count(repeat(y, c), x) == (if x == y {
            c
        } else {
            0
        }),
    decreases c,
{
    if c > 0 {
        lemma_count_repeat(y, (c - 1) as nat, x);
        assert(repeat(y, c).drop_last() =~= repeat(y, (c - 1) as nat));
    }
}

/// Node `w` occurs among the dependents of `v` once per time `v` occurs
/// among the dependencies of `w`.
proof fn lemma_dependents_count(deps: Seq<Seq<usize>>, v: usize, w: usize, i: int)
    requires
        0 <= i <= deps.len(),
        deps.len() <= usize::MAX,
    ensures
        count(dependents_upto(deps, v, i), w) == (if (w as int) < i {
            count(deps[w as int], v)
        } else {
            0
        }),
    decreases i,
{
    if i > 0 {
        lemma_dependents_count(deps, v, w, i - 1);
        lemma_count_concat(
            dependents_upto(deps, v, i - 1),
            repeat((i - 1) as usize, count(deps[i - 1], v)),
            w,
        );
        lemma_count_repeat((i - 1) as usize, count(deps[i - 1], v), w);
    }
}

/// The number of entries of `s` that stand for an item not yet done.
spec fn pend(s: Seq<usize>, ni: Seq<Option<usize>>, done: Seq<bool>) -> nat
    decreases s.len(),
{
    if s.len() == 0 {
        0
    } else {
        pend(s.drop_last(), ni, done) + (if open_dep(s.last(), ni, done) {
            1nat
        } else {
            0nat
        })
    }
}

/// Node `x` stands for an item that is not done.
spec fn open_dep(x: usize, ni: Seq<Option<usize>>, done: Seq<bool>) -> bool {
    (x as int) < ni.len() && ni[x as int] is Some && (ni[x as int]->0 as int) < done.len()
        && !done[ni[x as int]->0 as int]
}

proof fn lemma_pend_done(s: Seq<usize>, ni: Seq<Option<usize>>, done: Seq<bool>, a: usize, v: usize)
    requires
        (a as int) < done.len(),
        !done[a as int],
        (v as int) < ni.len(),
        ni[v as int] == Some(a),
        forall|x: int| 0 <= x < ni.len() && #[trigger] ni[x] == Some(a) ==> x == v,
    ensures
        pend(s, ni, done.update(a as int, true)) + count(s, v) == pend(s, ni, done),
    decreases s.len(),
{
    if s.len() > 0 {
        lemma_pend_done(s.drop_last(), ni, done, a, v);
        let x = s.last();
        if (x as int) < ni.len() && ni[x as int] == Some(a) {
            assert(x == v);
        }
    }
}

proof fn lemma_pend_zero(s: Seq<usize>, ni: Seq<Option<usize>>, done: Seq<bool>, k: int)
    requires
        pend(s, ni, done) == 0,
        0 <= k < s.len(),
    ensures
        !open_dep(s[k], ni, done),
    decreases s.len(),
{
    if k < s.len() - 1 {
        lemma_pend_zero(s.drop_last(), ni, done, k);
        assert(s.drop_last()[k] == s[k]);
    }
}

proof fn lemma_pend_pos(s: Seq<usize>, ni: Seq<Option<usize>>, done: Seq<bool>) -> (k: int)
    requires
        pend(s, ni, done) > 0,
    ensures
        0 <= k < s.len(),
        open_dep(s[k], ni, done),
    decreases s.len(),
{
    if open_dep(s.last(), ni, done) {
        s.len() - 1
    } else {
        let k = lemma_pend_pos(s.drop_last(), ni, done);
        assert(s.drop_last()[k] == s[k]);
        k
    }
}

proof fn lemma_count_u8_all(s: Seq<u8>, x: u8)
    requires
        forall|i: int| 0 <= i < s.len() ==> #[trigger] s[i] == x,
    ensures
        count_u8(s, x) == s.len(),
    decreases s.len(),
{
    if s.len() > 0 {
        lemma_count_u8_all(s.drop_last(), x);
    }
}


/// `v` is in ascending order of `keys`.
pub open spec fn sorted_by(v: Seq<usize>, keys: Seq<Seq<char>>) -> bool {
    forall|i: int, j: int|
        0 <= i < j < v.len() ==> !lex_lt(keys[#[trigger] v[j] as int], keys[#[trigger] v[i] as int])
}

/// The distinct entries of `items`, in ascending order of their keys.
pub(crate) fn sort_by_key(items: &Vec<usize>, keys: &Vec<Vec<char>>) -> (r: Vec<usize>)
    requires
        items@.no_duplicates(),
        forall|t: int| 0 <= t < items@.len() ==> #[trigger] items@[t] < keys@.len(),
    ensures
        r@.len() == items@.len(),
        r@.no_duplicates(),
        forall|x: usize| #[trigger] r@.contains(x) <==> items@.contains(x),
        sorted_by(r@, keys@.map_values(|k: Vec<char>| k@)),
{
    let ghost ks = keys@.map_values(|k: Vec<char>| k@);
    let mut r: Vec<usize> = Vec::new();
    let mut i: usize = 0;
    while i < items.len()
        invariant
            i <= items@.len(),
            items@.no_duplicates(),
            forall|t: int| 0 <= t < items@.len() ==> #[trigger] items@[t] < keys@.len(),
            ks == keys@.map_values(|k: Vec<char>| k@),
            r@.len() == i,
            r@.no_duplicates(),
            forall|x: usize| #[trigger] r@.contains(x) <==> items@.take(i as int).contains(x),
            forall|t: int| 0 <= t < r@.len() ==> #[trigger] r@[t] < keys@.len(),
            sorted_by(r@, ks),
        decreases items@.len() - i,
    {
        let x = items[i];
        let mut p: usize = 0;
        while p < r.len() && !lex_less(&keys[x], &keys[r[p]])
            invariant
                p <= r@.len(),
                x < keys@.len(),
                ks == keys@.map_values(|k: Vec<char>| k@),
                forall|t: int| 0 <= t < r@.len() ==> #[trigger] r@[t] < keys@.len(),
                forall|q: int| 0 <= q < p ==> !lex_lt(ks[x as int], ks[#[trigger] r@[q] as int]),
            decreases r@.len() - p,
        {
            p += 1;
        }
        let ghost r0 = r@;
        proof {
            r0.insert_ensures(p as int, x);
            assert(!r0.contains(x)) by {
                if r0.contains(x) {
                    assert(items@.take(i as int).contains(x));
                    let t = choose|t: int| 0 <= t < i && items@.take(i as int)[t] == x;
                    assert(items@[t] == items@[i as int]);
                }
            }
        }
        r.insert(p, x);
        proof {
            let rn = r@;
            assert(rn == r0.insert(p as int, x));
            assert forall|q: int| 0 <= q < rn.len() implies (q < p ==> rn[q] == r0[q]) && (q == p ==> rn[q] == x) && (q > p ==> rn[q] == r0[q - 1]) by {
                if q > p {
                    assert(rn[(q - 1) + 1] == r0[q - 1]);
                }
            }
            assert forall|y: usize| #[trigger] rn.contains(y) <==> items@.take(i + 1).contains(y) by {
                assert(items@.take(i + 1) =~= items@.take(i as int).push(x));
                if rn.contains(y) {
                    let q = choose|q: int| 0 <= q < rn.len() && rn[q] == y;
                    if q == p {
                        assert(items@.take(i + 1)[i as int] == x);
                    } else {
                        if q < p {
                            assert(r0[q] == y);
                        } else {
                            assert(r0[q - 1] == y);
                        }
                        assert(r0.contains(y));
                        assert(items@.take(i as int).contains(y));
                        let ti = items@.take(i as int);
                        let w = choose|w: int| 0 <= w < ti.len() && #[trigger] ti[w] == y;
                        assert(items@.take(i + 1)[w] == y);
                    }
                }
                if items@.take(i + 1).contains(y) {
                    if y == x {
                        assert(rn[p as int] == x);
                    } else {
                        assert(items@.take(i as int).contains(y)) by {
                            let ti = items@.take(i + 1);
                            let q = choose|q: int| 0 <= q < ti.len() && #[trigger] ti[q] == y;
                            assert(items@.take(i as int)[q] == y);
                        }
                        assert(r0.contains(y));
                        let q = choose|q: int| 0 <= q < r0.len() && r0[q] == y;
                        if q < p {
                            assert(rn[q] == y);
                        } else {
                            assert(rn[q + 1] == y);
                        }
                    }
                }
            }
            assert forall|a: int, b: int| 0 <= a < rn.len() && 0 <= b < rn.len() && a != b implies rn[a] != rn[b] by {
                if a != p && b != p {
                    let a0 = if a < p { a } else { a - 1 };
                    let b0 = if b < p { b } else { b - 1 };
                    assert(rn[a] == r0[a0]);
                    assert(rn[b] == r0[b0]);
                } else if a == p {
                    let b0 = if b < p { b } else { b - 1 };
                    assert(rn[b] == r0[b0]);
                } else {
                    let a0 = if a < p { a } else { a - 1 };
                    assert(rn[a] == r0[a0]);
                }
            }
            assert forall|a: int, b: int| 0 <= a < b < rn.len() implies !lex_lt(ks[#[trigger] rn[b] as int], ks[#[trigger] rn[a] as int]) by {
                if b < p {
                    assert(rn[a] == r0[a] && rn[b] == r0[b]);
                } else if b == p {
                    assert(rn[a] == r0[a]);
                } else if a < p {
                    assert(rn[a] == r0[a] && rn[b] == r0[b - 1]);
                } else if a == p {
                    // x sorts before r0[p], which sorts no later than r0[b - 1]
                    assert(rn[b] == r0[b - 1]);
                    assert(p < r0.len());
                    assert(lex_lt(ks[x as int], ks[r0[p as int] as int]));
                    if b - 1 > p {
                        assert(!lex_lt(ks[r0[b - 1] as int], ks[r0[p as int] as int]));
                    }
                    if lex_lt(ks[r0[b - 1] as int], ks[x as int]) {
                        lemma_lex_trans(ks[r0[b - 1] as int], ks[x as int], ks[r0[p as int] as int], 0);
                        if b - 1 == p {
                            crate::text::lemma_lex_irrefl(ks[r0[p as int] as int], 0);
                        }
                    }
                } else {
                    assert(rn[a] == r0[a - 1] && rn[b] == r0[b - 1]);
                }
            }
        }
        i += 1;
    }
    assert(items@.take(i as int) =~= items@);
    r
}


/// The dependencies of item `a` of a subset, as nodes (none when the item
/// names no node).
spec fn item_deps(d: Seq<Seq<usize>>, inode: Seq<Option<usize>>, a: int) -> Seq<usize> {
    match inode[a] {
        Some(u) => d[u as int],
        None => seq![],
    }
}

/// `inode` maps each item of `names` to the node of that name, and `nitem`
/// maps each such node back to its item.
pub(crate) open spec fn item_maps(
    nodes: Seq<Seq<char>>,
    names: Seq<Seq<char>>,
    inode: Seq<Option<usize>>,
    nitem: Seq<Option<usize>>,
) -> bool {
    &&& inode.len() == names.len()
    &&& nitem.len() == nodes.len()
    &&& forall|a: int|
        0 <= a < names.len() && #[trigger] inode[a] is Some ==> inode[a]->0 < nodes.len() && nitem[inode[a]->0 as int]
            == Some(a as usize) && names[a] == nodes[inode[a]->0 as int]
    &&& forall|u: int|
        0 <= u < nodes.len() && #[trigger] nitem[u] is Some ==> nitem[u]->0 < names.len() && inode[nitem[u]->0 as int]
            == Some(u as usize)
    &&& forall|a: int, u: int|
        0 <= a < names.len() && 0 <= u < nodes.len() && #[trigger] names[a] == #[trigger] nodes[u] ==> inode[a]
            == Some(u as usize)
}

/// The node of each item of `subset` and the item of each node.
pub(crate) fn item_maps_exec(graph: &BuildGraph, subset: &Vec<String>) -> (r: (Vec<Option<usize>>, Vec<Option<usize>>))
    requires
        graph.wf(),
        strs(subset@).no_duplicates(),
    ensures
        item_maps(graph@.nodes, strs(subset@), r.0@, r.1@),
{
    let ghost nodes = graph@.nodes;
    let ghost names = strs(subset@);
    let n = graph.nodes.len();
    let m = subset.len();
    let mut nitem: Vec<Option<usize>> = Vec::new();
    let mut j: usize = 0;
    while j < n
        invariant
            j <= n,
            nitem@.len() == j,
            forall|t: int| 0 <= t < j ==> #[trigger] nitem@[t] is None,
        decreases n - j,
    {
        nitem.push(None);
        j += 1;
    }
    let mut inode: Vec<Option<usize>> = Vec::new();
    let mut a: usize = 0;
    while a < m
        invariant
            graph.wf(),
            nodes == graph@.nodes,
            names == strs(subset@),
            names.no_duplicates(),
            n == nodes.len(),
            m == names.len(),
            a <= m,
            inode@.len() == a,
            nitem@.len() == n,
            forall|b: int|
                0 <= b < a && #[trigger] inode@[b] is Some ==> inode@[b]->0 < n && nitem@[inode@[b]->0 as int]
                    == Some(b as usize) && names[b] == nodes[inode@[b]->0 as int],
            forall|u: int|
                0 <= u < n && #[trigger] nitem@[u] is Some ==> nitem@[u]->0 < a && inode@[nitem@[u]->0 as int]
                    == Some(u as usize),
            forall|b: int, u: int|
                0 <= b < a && 0 <= u < n && #[trigger] names[b] == #[trigger] nodes[u] ==> inode@[b] == Some(u as usize),
        decreases m - a,
    {
        let ix = graph.node_index(subset[a].as_str());
        let ghost ni0 = nitem@;
        match ix {
            Some(u) => {
                proof {
                    if ni0[u as int] is Some {
                        let b = ni0[u as int]->0;
                        assert(names[b as int] == nodes[u as int]);
                        assert(names[a as int] == nodes[u as int]);
                        assert(b < a);
                    }
                }
                nitem.set(u, Some(a));
            },
            None => {},
        }
        inode.push(ix);
        proof {
            assert(names[a as int] == subset@[a as int]@);
            assert forall|b: int, u: int|
                0 <= b < a + 1 && 0 <= u < n && #[trigger] names[b] == #[trigger] nodes[u] implies inode@[b]
                    == Some(u as usize) by {
                if b == a {
                    assert(nodes.contains(names[b]));
                    let w = ix->0;
                    if w != u {
                        assert(nodes[w as int] == nodes[u]);
                    }
                }
            }
            assert forall|b: int|
                0 <= b < a + 1 && #[trigger] inode@[b] is Some implies inode@[b]->0 < n && nitem@[inode@[b]->0 as int]
                    == Some(b as usize) && names[b] == nodes[inode@[b]->0 as int] by {
                if b < a {
                    let w = inode@[b]->0;
                    if ix is Some && ix->0 == w {
                        assert(names[b] == nodes[w as int]);
                        assert(names[a as int] == nodes[w as int]);
                    }
                }
            }
        }
        a += 1;
    }
    (inode, nitem)
}

/// The number of dependencies of item `a` that lie in the subset.
fn subset_indegree(graph: &BuildGraph, nitem: &Vec<Option<usize>>, u: usize, m: usize) -> (r: usize)
    requires
        graph.wf(),
        u < graph@.nodes.len(),
        nitem@.len() == graph@.nodes.len(),
        forall|x: int| 0 <= x < nitem@.len() && #[trigger] nitem@[x] is Some ==> nitem@[x]->0 < m,
    ensures
        r == pend(graph@.deps[u as int], nitem@, Seq::new(m as nat, |i: int| false)),
{
    let ghost none_done = Seq::new(m as nat, |i: int| false);
    let row = &graph.deps[u];
    let ghost rv = graph@.deps[u as int];
    assert(row@ == rv);
    let mut c: usize = 0;
    let mut k: usize = 0;
    while k < row.len()
        invariant
            graph.wf(),
            u < graph@.nodes.len(),
            rv == graph@.deps[u as int],
            row@ == rv,
            nitem@.len() == graph@.nodes.len(),
            forall|x: int| 0 <= x < nitem@.len() && #[trigger] nitem@[x] is Some ==> nitem@[x]->0 < m,
            none_done == Seq::new(m as nat, |i: int| false),
            k <= rv.len(),
            c <= k,
            c == pend(rv.take(k as int), nitem@, none_done),
        decreases rv.len() - k,
    {
        let x = row[k];
        assert(rv.take(k + 1).drop_last() =~= rv.take(k as int));
        assert(x < graph@.nodes.len());
        match nitem[x] {
            Some(b) => {
                assert(open_dep(x, nitem@, none_done));
                c += 1;
            },
            None => {},
        }
        k += 1;
    }
    assert(rv.take(rv.len() as int) =~= rv);
    c
}


pub(crate) proof fn lemma_count_take_le(s: Seq<usize>, k: int, x: usize)
    requires
        0 <= k <= s.len(),
    ensures
        count(s.take(k), x) <= count(s, x),
{
    lemma_count_concat(s.take(k), s.skip(k), x);
    assert(s.take(k) + s.skip(k) =~= s);
}

/// What processing one item takes off the in-degree of item `b`: one per
/// dependency of `b` on node `v`, the processed item's node.
spec fn release_part(d: Seq<Seq<usize>>, inode: Seq<Option<usize>>, b: int, s: Seq<usize>) -> nat {
    match inode[b] {
        Some(ub) => count(s, ub),
        None => 0,
    }
}

/// Lowers the in-degrees of the subset items that depend on node `v` and
/// returns the items whose in-degree reached zero.
fn release(
    graph: &BuildGraph,
    v: usize,
    nitem: &Vec<Option<usize>>,
    indeg: &mut Vec<usize>,
    Ghost(names): Ghost<Seq<Seq<char>>>,
    Ghost(inode): Ghost<Seq<Option<usize>>>,
    Ghost(done): Ghost<Seq<bool>>,
    Ghost(inq): Ghost<Seq<u8>>,
) -> (r: Vec<usize>)
    requires
        graph.wf(),
        v < graph@.nodes.len(),
        item_maps(graph@.nodes, names, inode, nitem@),
        old(indeg)@.len() == names.len(),
        inq.len() == names.len(),
        forall|b: int|
            0 <= b < names.len() ==> #[trigger] old(indeg)@[b] == pend(item_deps(graph@.deps, inode, b), nitem@, done)
                + release_part(graph@.deps, inode, b, graph@.rdeps[v as int]),
        forall|b: int| 0 <= b < names.len() ==> (#[trigger] old(indeg)@[b] == 0 <==> inq[b] == 1),
    ensures
        final(indeg)@.len() == names.len(),
        forall|b: int|
            0 <= b < names.len() ==> #[trigger] final(indeg)@[b] == pend(item_deps(graph@.deps, inode, b), nitem@, done),
        r@.no_duplicates(),
        forall|t: int| 0 <= t < r@.len() ==> #[trigger] r@[t] < names.len(),
        forall|c: int|
            0 <= c < names.len() ==> (#[trigger] r@.contains(c as usize) <==> (final(indeg)@[c] == 0 && inq[c] != 1)),
{
    let ghost d = graph@.deps;
    let ghost rd = graph@.rdeps[v as int];
    let ghost m = names.len();
    let n = graph.nodes.len();
    let mm = indeg.len();
    assert(d.len() == n);
    let row = &graph.rdeps[v];
    assert(row@ == rd);
    let mut newly: Vec<usize> = Vec::new();
    let mut q: usize = 0;
    while q < row.len()
        invariant
            graph.wf(),
            d == graph@.deps,
            rd == graph@.rdeps[v as int],
            row@ == rd,
            v < graph@.nodes.len(),
            d.len() <= usize::MAX,
            item_maps(graph@.nodes, names, inode, nitem@),
            m == names.len(),
            m == mm,
            indeg@.len() == m,
            inq.len() == m,
            q <= rd.len(),
            forall|b: int|
                0 <= b < m ==> #[trigger] indeg@[b] + release_part(d, inode, b, rd.take(q as int)) == old(indeg)@[b],
            forall|b: int|
                0 <= b < m ==> #[trigger] old(indeg)@[b] == pend(item_deps(d, inode, b), nitem@, done)
                    + release_part(d, inode, b, rd),
            forall|b: int| 0 <= b < m ==> (#[trigger] old(indeg)@[b] == 0 <==> inq[b] == 1),
            newly@.no_duplicates(),
            forall|t: int| 0 <= t < newly@.len() ==> #[trigger] newly@[t] < m,
            forall|c: int| 0 <= c < m ==> (#[trigger] newly@.contains(c as usize) <==> (indeg@[c] == 0 && inq[c] != 1)),
        decreases rd.len() - q,
    {
        let w = row[q];
        proof {
            assert(rd == dependents(d, v));
            assert(w < graph@.nodes.len()) by {
                lemma_dependents_count(d, v, w, d.len() as int);
                lemma_count_take_le(rd, q as int, w);
                lemma_count_take(rd, q as int, w);
                if w >= graph@.nodes.len() {
                    assert(count(rd.take(q + 1), w) >= 1);
                    lemma_count_take_le(rd, q + 1, w);
                }
            }
        }
        let ghost ind0 = indeg@;
        match nitem[w] {
            Some(b) => {
                proof {
                    assert(inode[b as int] == Some(w));
                    lemma_dependents_count(d, v, w, d.len() as int);
                    lemma_count_take(rd, q as int, w);
                    lemma_count_take_le(rd, q + 1, w);
                    assert(release_part(d, inode, b as int, rd.take(q + 1)) == release_part(d, inode, b as int, rd.take(q as int)) + 1);
                    assert(indeg@[b as int] >= 1);
                }
                let nd = indeg[b] - 1;
                indeg.set(b, nd);
                if nd == 0 {
                    proof {
                        assert(old(indeg)@[b as int] >= 1);
                        assert(inq[b as int] != 1);
                        assert(!newly@.contains(b)) by {
                            if newly@.contains(b) {
                                assert(ind0[b as int] == 0);
                            }
                        }
                    }
                    let ghost n0 = newly@;
                    newly.push(b);
                    proof {
                        assert forall|c: int| 0 <= c < m implies (#[trigger] newly@.contains(c as usize) <==> (indeg@[c] == 0 && inq[c] != 1)) by {
                            if c != b {
                                assert(indeg@[c] == ind0[c]);
                                assert(newly@ == n0.push(b));
                                if newly@.contains(c as usize) {
                                    let t = choose|t: int| 0 <= t < newly@.len() && newly@[t] == c as usize;
                                    if t < n0.len() {
                                        assert(n0[t] == c as usize);
                                    } else {
                                        assert(newly@[t] == b);
                                    }
                                }
                                if n0.contains(c as usize) {
                                    let t = choose|t: int| 0 <= t < n0.len() && n0[t] == c as usize;
                                    assert(newly@[t] == c as usize);
                                }
                            } else {
                                assert(newly@[newly@.len() - 1] == b);
                            }
                        }
                        assert forall|x: int, y: int| 0 <= x < newly@.len() && 0 <= y < newly@.len() && x != y implies newly@[x] != newly@[y] by {
                            if x < n0.len() && y < n0.len() {
                            } else if x < n0.len() {
                                assert(n0.contains(n0[x]));
                            } else if y < n0.len() {
                                assert(n0.contains(n0[y]));
                            }
                        }
                    }
                } else {
                    proof {
                        assert forall|c: int| 0 <= c < m implies (#[trigger] newly@.contains(c as usize) <==> (indeg@[c] == 0 && inq[c] != 1)) by {
                            if c != b {
                                assert(indeg@[c] == ind0[c]);
                            } else {
                                if newly@.contains(c as usize) {
                                    assert(ind0[c] == 0);
                                }
                            }
                        }
                    }
                }
                proof {
                    assert forall|c: int| 0 <= c < m implies #[trigger] indeg@[c] + release_part(d, inode, c, rd.take(q + 1)) == old(indeg)@[c] by {
                        lemma_count_take(rd, q as int, w);
                        if c != b {
                            assert(indeg@[c] == ind0[c]);
                            if inode[c] is Some {
                                let uc = inode[c]->0;
                                lemma_count_take(rd, q as int, uc);
                                if uc == w {
                                    assert(nitem@[w as int] == Some(c as usize));
                                }
                            }
                        }
                    }
                }
            },
            None => {
                proof {
                    assert forall|c: int| 0 <= c < m implies #[trigger] indeg@[c] + release_part(d, inode, c, rd.take(q + 1)) == old(indeg)@[c] by {
                        lemma_count_take(rd, q as int, w);
                        if inode[c] is Some {
                            let uc = inode[c]->0;
                            lemma_count_take(rd, q as int, uc);
                            if uc == w {
                                assert(nitem@[w as int] == Some(c as usize));
                            }
                        }
                    }
                }
            },
        }
        q += 1;
    }
    proof {
        assert(rd.take(rd.len() as int) =~= rd);
    }
    newly
}


proof fn lemma_pend_unmapped(s: Seq<usize>, ni: Seq<Option<usize>>, done: Seq<bool>, a: usize)
    requires
        (a as int) < done.len(),
        forall|x: int| 0 <= x < ni.len() ==> #[trigger] ni[x] != Some(a),
    ensures
        pend(s, ni, done.update(a as int, true)) == pend(s, ni, done),
    decreases s.len(),
{
    if s.len() > 0 {
        lemma_pend_unmapped(s.drop_last(), ni, done, a);
    }
}

proof fn lemma_pend_le_update(s: Seq<usize>, ni: Seq<Option<usize>>, done: Seq<bool>, a: usize)
    requires
        (a as int) < done.len(),
    ensures
        pend(s, ni, done.update(a as int, true)) <= pend(s, ni, done),
    decreases s.len(),
{
    if s.len() > 0 {
        lemma_pend_le_update(s.drop_last(), ni, done, a);
    }
}

/// Appends `items` to `order`, marking them queued and recording their
/// positions.
fn enqueue_all(order: &mut Vec<usize>, inq: &mut Vec<u8>, place: &mut Vec<usize>, items: &Vec<usize>)
    requires
        old(inq)@.len() == old(place)@.len(),
        items@.no_duplicates(),
        forall|t: int| 0 <= t < items@.len() ==> #[trigger] items@[t] < old(inq)@.len(),
        forall|t: int| 0 <= t < items@.len() ==> old(inq)@[#[trigger] items@[t] as int] != 1,
        forall|b: int| 0 <= b < old(inq)@.len() ==> #[trigger] old(inq)@[b] <= 1,
        forall|b: int| 0 <= b < old(inq)@.len() ==> (#[trigger] old(inq)@[b] == 1 <==> old(order)@.contains(b as usize)),
        old(order)@.len() == count_u8(old(inq)@, 1),
    ensures
        final(order)@ == old(order)@ + items@,
        final(inq)@.len() == old(inq)@.len(),
        final(place)@.len() == old(place)@.len(),
        forall|b: int| 0 <= b < old(inq)@.len() ==> #[trigger] final(inq)@[b] <= 1,
        forall|b: int|
            0 <= b < old(inq)@.len() ==> (#[trigger] final(inq)@[b] == 1 <==> (old(inq)@[b] == 1 || items@.contains(b as usize))),
        forall|b: int|
            0 <= b < old(inq)@.len() && !items@.contains(b as usize) ==> #[trigger] final(place)@[b] == old(place)@[b],
        forall|t: int| 0 <= t < items@.len() ==> final(place)@[#[trigger] items@[t] as int] == old(order)@.len() + t,
        final(order)@.len() == count_u8(final(inq)@, 1),
{
    let ilen = inq.len();
    let mut j: usize = 0;
    while j < items.len()
        invariant
            j <= items@.len(),
            old(inq)@.len() == ilen,
            old(inq)@.len() == old(place)@.len(),
            inq@.len() == old(inq)@.len(),
            place@.len() == old(place)@.len(),
            items@.no_duplicates(),
            forall|t: int| 0 <= t < items@.len() ==> #[trigger] items@[t] < old(inq)@.len(),
            forall|t: int| 0 <= t < items@.len() ==> old(inq)@[#[trigger] items@[t] as int] != 1,
            forall|b: int| 0 <= b < old(inq)@.len() ==> #[trigger] old(inq)@[b] <= 1,
            order@ == old(order)@ + items@.take(j as int),
            forall|b: int| 0 <= b < inq@.len() ==> #[trigger] inq@[b] <= 1,
            forall|b: int|
                0 <= b < inq@.len() ==> (#[trigger] inq@[b] == 1 <==> (old(inq)@[b] == 1 || items@.take(j as int).contains(b as usize))),
            forall|b: int|
                0 <= b < inq@.len() && !items@.take(j as int).contains(b as usize) ==> #[trigger] place@[b] == old(place)@[b],
            forall|t: int| 0 <= t < j ==> place@[#[trigger] items@[t] as int] == old(order)@.len() + t,
            order@.len() == count_u8(inq@, 1),
        decreases items@.len() - j,
    {
        let c = items[j];
        let ghost i0 = inq@;
        let ghost p0 = place@;
        proof {
            assert(!items@.take(j as int).contains(c)) by {
                if items@.take(j as int).contains(c) {
                    let tj = items@.take(j as int);
                    let t = choose|t: int| 0 <= t < tj.len() && #[trigger] tj[t] == c;
                    assert(items@[t] == items@[j as int]);
                }
            }
            assert(i0[c as int] != 1);
            assert(i0[c as int] == old(inq)@[c as int]);
            lemma_count_u8_update(i0, c as int, 1, 1);
        }
        let pos = order.len();
        inq.set(c, 1);
        place.set(c, pos);
        order.push(c);
        proof {
            let tj1 = items@.take(j + 1);
            assert(tj1 =~= items@.take(j as int).push(c));
            assert(order@ =~= old(order)@ + tj1);
            assert forall|b: int| 0 <= b < inq@.len() implies (#[trigger] inq@[b] == 1 <==> (old(inq)@[b] == 1 || tj1.contains(b as usize))) by {
                if b != c {
                    assert(inq@[b] == i0[b]);
                    if tj1.contains(b as usize) {
                        let t = choose|t: int| 0 <= t < tj1.len() && tj1[t] == b as usize;
                        if t < j {
                            assert(items@.take(j as int)[t] == b as usize);
                        } else {
                            assert(tj1[t] == c);
                        }
                    }
                    if items@.take(j as int).contains(b as usize) {
                        let tj = items@.take(j as int);
                        let t = choose|t: int| 0 <= t < tj.len() && #[trigger] tj[t] == b as usize;
                        assert(tj1[t] == b as usize);
                    }
                } else {
                    assert(tj1[j as int] == c);
                }
            }
            assert forall|b: int| 0 <= b < inq@.len() && !tj1.contains(b as usize) implies #[trigger] place@[b] == old(place)@[b] by {
                assert(b != c) by {
                    if b == c {
                        assert(tj1[j as int] == c);
                    }
                }
                if items@.take(j as int).contains(b as usize) {
                    let tj = items@.take(j as int);
                    let t = choose|t: int| 0 <= t < tj.len() && #[trigger] tj[t] == b as usize;
                    assert(tj1[t] == b as usize);
                }
            }
            assert forall|t: int| 0 <= t < j + 1 implies place@[#[trigger] items@[t] as int] == old(order)@.len() + t by {
                if t < j {
                    assert(items@[t] != c);
                }
            }
        }
        j += 1;
    }
    assert(items@.take(j as int) =~= items@);
}

/// Among the items below `k` that are not queued, one whose node ranks
/// lowest.
proof fn lowest_unqueued(
    inode: Seq<Option<usize>>,
    inq: Seq<u8>,
    rank: Seq<int>,
    k: int,
) -> (b: int)
    requires
        0 < k <= inq.len(),
        inq.len() == inode.len(),
        forall|c: int| 0 <= c < inq.len() && #[trigger] inq[c] != 1 ==> inode[c] is Some && (inode[c]->0 as int) < rank.len(),
        exists|c: int| 0 <= c < k && #[trigger] inq[c] != 1,
    ensures
        0 <= b < k,
        inq[b] != 1,
        forall|c: int| 0 <= c < k && #[trigger] inq[c] != 1 ==> rank[inode[b]->0 as int] <= rank[inode[c]->0 as int],
    decreases k,
{
    if exists|c: int| 0 <= c < k - 1 && #[trigger] inq[c] != 1 {
        let p = lowest_unqueued(inode, inq, rank, k - 1);
        if inq[k - 1] != 1 && rank[inode[k - 1]->0 as int] < rank[inode[p]->0 as int] {
            k - 1
        } else {
            p
        }
    } else {
        k - 1
    }
}

/// Rule `b` is a direct dependency of rule `a` in the graph `g`.
pub open spec fn depends_on(g: GraphView, a: Seq<char>, b: Seq<char>) -> bool {
    exists|u: int, v: int|
        #![trigger g.nodes[u], g.nodes[v]]
        0 <= u < g.nodes.len() && 0 <= v < g.nodes.len() && g.nodes[u] == a && g.nodes[v] == b && g.deps[u].contains(
            v as usize,
        )
}

/// The last position before `k` in `rs` that holds a dependency of `rs[i]`,
/// or -1.
pub open spec fn last_dep_before(g: GraphView, rs: Seq<Seq<char>>, i: int, k: int) -> int
    decreases k,
{
    if k <= 0 {
        -1
    } else if depends_on(g, rs[i], rs[k - 1]) {
        k - 1
    } else {
        last_dep_before(g, rs, i, k - 1)
    }
}

/// When `rs[i]` became ready in the order `rs`: right after its last
/// dependency, or at the start when it has none in `rs`.
pub open spec fn ready_time(g: GraphView, rs: Seq<Seq<char>>, i: int) -> int {
    last_dep_before(g, rs, i, rs.len() as int) + 1
}

/// `rs` lists rules by the time they became ready, and rules that became
/// ready together by name.
pub open spec fn ready_order(g: GraphView, rs: Seq<Seq<char>>) -> bool {
    forall|i: int, j: int|
        0 <= i < j < rs.len() ==> ready_time(g, rs, i) < ready_time(g, rs, j) || (ready_time(g, rs, i)
            == ready_time(g, rs, j) && lex_lt(#[trigger] rs[i], #[trigger] rs[j]))
}

proof fn lemma_last_dep(g: GraphView, rs: Seq<Seq<char>>, i: int, k: int, j0: int)
    requires
        -1 <= j0 < k,
        j0 >= 0 ==> depends_on(g, rs[i], rs[j0]),
        forall|j: int| j0 < j < k ==> !depends_on(g, rs[i], #[trigger] rs[j]),
    ensures
        last_dep_before(g, rs, i, k) == j0,
    decreases k,
{
    if k > 0 && k - 1 != j0 {
        assert(!depends_on(g, rs[i], rs[k - 1]));
        lemma_last_dep(g, rs, i, k - 1, j0);
    }
}

/// Entry `k` of the dependencies of item `c` is an item of the subset.
spec fn sub_dep(d: Seq<Seq<usize>>, inode: Seq<Option<usize>>, nitem: Seq<Option<usize>>, c: int, k: int) -> bool {
    0 <= k < item_deps(d, inode, c).len() && nitem[item_deps(d, inode, c)[k] as int] is Some
}

/// The item of entry `k` of the dependencies of item `c`.
spec fn sub_item(d: Seq<Seq<usize>>, inode: Seq<Option<usize>>, nitem: Seq<Option<usize>>, c: int, k: int) -> int {
    nitem[item_deps(d, inode, c)[k] as int]->0 as int
}

/// Item `c` has item `e` among its dependencies.
spec fn waited_for(d: Seq<Seq<usize>>, inode: Seq<Option<usize>>, nitem: Seq<Option<usize>>, c: int, e: int) -> bool {
    exists|k: int| #[trigger] sub_dep(d, inode, nitem, c, k) && sub_item(d, inode, nitem, c, k) == e
}

/// The queue `order` is in ascending order of (ready time, name), no ready
/// time exceeds `head`, and each queued item became ready right after its
/// last dependency was taken.
spec fn ready_inv(
    d: Seq<Seq<usize>>,
    inode: Seq<Option<usize>>,
    nitem: Seq<Option<usize>>,
    names: Seq<Seq<char>>,
    order: Seq<usize>,
    inq: Seq<u8>,
    place: Seq<usize>,
    rt: Seq<int>,
    head: int,
) -> bool {
    let m = names.len();
    &&& rt.len() == m
    &&& forall|c: int| 0 <= c < m ==> 0 <= #[trigger] rt[c]
    &&& forall|t1: int, t2: int|
        0 <= t1 < t2 < order.len() ==> rt[order[t1] as int] < rt[order[t2] as int] || (rt[order[t1] as int]
            == rt[order[t2] as int] && lex_lt(names[#[trigger] order[t1] as int], names[#[trigger] order[t2] as int]))
    &&& forall|t: int| 0 <= t < order.len() ==> rt[#[trigger] order[t] as int] <= head
    &&& forall|c: int, k: int|
        0 <= c < m && inq[c] == 1 && #[trigger] sub_dep(d, inode, nitem, c, k) ==> place[sub_item(d, inode, nitem, c, k)] < rt[c]
    &&& forall|c: int|
        0 <= c < m && inq[c] == 1 && #[trigger] rt[c] > 0 ==> exists|k: int|
            #[trigger] sub_dep(d, inode, nitem, c, k) && place[sub_item(d, inode, nitem, c, k)] == rt[c] - 1
}

/// An item that taking item `a` (node `v`) made ready depends on `a`, and
/// every item it depends on was queued and taken no later than `a`.
proof fn lemma_newly_ready(
    d: Seq<Seq<usize>>,
    nodes: Seq<Seq<char>>,
    inode: Seq<Option<usize>>,
    nitem: Seq<Option<usize>>,
    names: Seq<Seq<char>>,
    c: int,
    a: usize,
    v: usize,
    done0: Seq<bool>,
    q0: Seq<u8>,
    pl0: Seq<usize>,
    head: int,
)
    requires
        item_maps(nodes, names, inode, nitem),
        nodes.len() <= usize::MAX,
        d.len() == nodes.len(),
        deps_in_range(d),
        0 <= c < names.len(),
        (a as int) < names.len(),
        inode[a as int] == Some(v),
        done0.len() == names.len(),
        q0.len() == names.len(),
        pl0.len() == names.len(),
        !done0[a as int],
        q0[a as int] == 1,
        pl0[a as int] == head,
        forall|e: int| 0 <= e < names.len() ==> (#[trigger] done0[e] <==> (q0[e] == 1 && pl0[e] < head)),
        pend(item_deps(d, inode, c), nitem, done0) > 0,
        pend(item_deps(d, inode, c), nitem, done0.update(a as int, true)) == 0,
    ensures
        waited_for(d, inode, nitem, c, a as int),
        forall|k: int|
            #[trigger] sub_dep(d, inode, nitem, c, k) ==> q0[sub_item(d, inode, nitem, c, k)] == 1 && pl0[sub_item(
                d,
                inode,
                nitem,
                c,
                k,
            )] <= head,
{
    let s = item_deps(d, inode, c);
    let done1 = done0.update(a as int, true);
    assert(nitem[v as int] == Some(a));
    assert forall|x: int| 0 <= x < nitem.len() && #[trigger] nitem[x] == Some(a) implies x == v by {
        assert(inode[a as int] == Some(x as usize));
    }
    lemma_pend_done(s, nitem, done0, a, v);
    assert(count(s, v) > 0);
    lemma_count_positive(s, v);
    let k = choose|k: int| 0 <= k < s.len() && s[k] == v;
    assert(sub_dep(d, inode, nitem, c, k));
    assert forall|j: int| #[trigger] sub_dep(d, inode, nitem, c, j) implies q0[sub_item(d, inode, nitem, c, j)] == 1
        && pl0[sub_item(d, inode, nitem, c, j)] <= head by {
        lemma_pend_zero(s, nitem, done1, j);
        let x = s[j];
        assert(inode[c] is Some);
        assert(x < nodes.len());
        let e = nitem[x as int]->0;
        assert(e < names.len());
        assert(done1[e as int]);
        if e != a {
            assert(done0[e as int]);
        }
    }
}

/// An entry counted at least once occurs.
pub(crate) proof fn lemma_count_positive(s: Seq<usize>, x: usize)
    requires
        count(s, x) > 0,
    ensures
        exists|k: int| 0 <= k < s.len() && s[k] == x,
    decreases s.len(),
{
    if s.last() != x {
        lemma_count_positive(s.drop_last(), x);
        let k = choose|k: int| 0 <= k < s.drop_last().len() && s.drop_last()[k] == x;
        assert(s[k] == x);
    } else {
        assert(s[s.len() - 1] == x);
    }
}

/// Taking the item at `head` and queueing the items `sorted` that it made
/// ready keeps the queue in (ready time, name) order.
proof fn lemma_ready_step(
    d: Seq<Seq<usize>>,
    inode: Seq<Option<usize>>,
    nitem: Seq<Option<usize>>,
    names: Seq<Seq<char>>,
    o0: Seq<usize>,
    q0: Seq<u8>,
    pl0: Seq<usize>,
    rt0: Seq<int>,
    head: int,
    sorted: Seq<usize>,
    q1: Seq<u8>,
    pl1: Seq<usize>,
    rt1: Seq<int>,
)
    requires
        ready_inv(d, inode, nitem, names, o0, q0, pl0, rt0, head),
        names.len() <= usize::MAX,
        0 <= head < o0.len(),
        q0.len() == names.len(),
        q1.len() == names.len(),
        pl0.len() == names.len(),
        pl1.len() == names.len(),
        forall|a: int, b: int| 0 <= a < names.len() && 0 <= b < names.len() && a != b ==> #[trigger] names[a] != #[trigger] names[b],
        forall|t: int| 0 <= t < o0.len() ==> #[trigger] o0[t] < names.len() && q0[o0[t] as int] == 1,
        sorted.no_duplicates(),
        sorted_by(sorted, names),
        forall|t: int| 0 <= t < sorted.len() ==> #[trigger] sorted[t] < names.len() && q0[sorted[t] as int] != 1,
        forall|c: int| 0 <= c < names.len() ==> (#[trigger] q1[c] == 1 <==> (q0[c] == 1 || sorted.contains(c as usize))),
        forall|c: int| 0 <= c < names.len() && !sorted.contains(c as usize) ==> #[trigger] pl1[c] == pl0[c],
        forall|t: int| 0 <= t < sorted.len() ==> pl1[#[trigger] sorted[t] as int] == o0.len() + t,
        forall|c: int| 0 <= c < names.len() && q0[c] == 1 ==> #[trigger] pl0[c] < o0.len(),
        pl0[o0[head] as int] == head,
        forall|c: int, k: int|
            0 <= c < names.len() && #[trigger] sub_dep(d, inode, nitem, c, k) ==> 0 <= sub_item(d, inode, nitem, c, k)
                < names.len(),
        forall|c: int, k: int|
            0 <= c < names.len() && q0[c] == 1 && #[trigger] sub_dep(d, inode, nitem, c, k) ==> q0[sub_item(
                d,
                inode,
                nitem,
                c,
                k,
            )] == 1,
        // each newly ready item waited for the item taken, and for nothing
        // taken later
        forall|t: int|
            #![trigger sorted[t]]
            0 <= t < sorted.len() ==> waited_for(d, inode, nitem, sorted[t] as int, o0[head] as int),
        forall|t: int, k: int|
            0 <= t < sorted.len() && #[trigger] sub_dep(d, inode, nitem, sorted[t] as int, k) ==> q0[sub_item(
                d,
                inode,
                nitem,
                sorted[t] as int,
                k,
            )] == 1 && pl0[sub_item(d, inode, nitem, sorted[t] as int, k)] <= head,
        rt1 == Seq::new(names.len(), |c: int| if sorted.contains(c as usize) {
            head + 1
        } else {
            rt0[c]
        }),
    ensures
        ready_inv(d, inode, nitem, names, o0 + sorted, q1, pl1, rt1, head + 1),
{
    let m = names.len();
    let o1 = o0 + sorted;
    assert forall|t: int| 0 <= t < o0.len() implies !sorted.contains(#[trigger] o0[t]) by {
        if sorted.contains(o0[t]) {
            let j = choose|j: int| 0 <= j < sorted.len() && sorted[j] == o0[t];
            assert(q0[sorted[j] as int] != 1);
        }
    }
    assert forall|t: int| 0 <= t < sorted.len() implies #[trigger] rt1[sorted[t] as int] == head + 1 by {
        assert(sorted.contains(sorted[t]));
    }
    assert forall|t1: int, t2: int|
        0 <= t1 < t2 < o1.len() implies rt1[o1[t1] as int] < rt1[o1[t2] as int] || (rt1[o1[t1] as int] == rt1[
            o1[t2] as int
        ] && lex_lt(names[#[trigger] o1[t1] as int], names[#[trigger] o1[t2] as int])) by {
        let l0 = o0.len() as int;
        if t2 < l0 {
            assert(o1[t1] == o0[t1] && o1[t2] == o0[t2]);
            assert(rt0[o0[t1] as int] < rt0[o0[t2] as int] || (rt0[o0[t1] as int] == rt0[o0[t2] as int] && lex_lt(
                names[o0[t1] as int],
                names[o0[t2] as int],
            )));
        } else if t1 < l0 {
            assert(o1[t1] == o0[t1]);
            assert(rt0[o0[t1] as int] <= head);
            assert(o1[t2] == sorted[t2 - l0]);
        } else {
            let a = sorted[t1 - l0];
            let b = sorted[t2 - l0];
            assert(a != b);
            assert(!lex_lt(names[b as int], names[a as int]));
            crate::text::lemma_lex_total(names[a as int], names[b as int], 0);
        }
    }
    assert forall|t: int| 0 <= t < o1.len() implies rt1[#[trigger] o1[t] as int] <= head + 1 by {
        if t < o0.len() {
            assert(o1[t] == o0[t]);
            assert(rt0[o0[t] as int] <= head);
        } else {
            assert(o1[t] == sorted[t - o0.len()]);
        }
    }
    assert forall|c: int, k: int|
        0 <= c < m && q1[c] == 1 && #[trigger] sub_dep(d, inode, nitem, c, k) implies pl1[sub_item(d, inode, nitem, c, k)]
        < rt1[c] by {
        let e = sub_item(d, inode, nitem, c, k);
        if sorted.contains(c as usize) {
            let t = choose|t: int| 0 <= t < sorted.len() && sorted[t] == c as usize;
            assert(sub_dep(d, inode, nitem, sorted[t] as int, k));
            assert(q0[e] == 1);
            if sorted.contains(e as usize) {
                let j = choose|j: int| 0 <= j < sorted.len() && sorted[j] == e as usize;
                assert(q0[sorted[j] as int] != 1);
            }
        } else {
            assert(q0[c] == 1);
            assert(pl0[e] < rt0[c]);
            if sorted.contains(e as usize) {
                let j = choose|j: int| 0 <= j < sorted.len() && sorted[j] == e as usize;
                assert(q0[sorted[j] as int] != 1);
                assert(false);
            }
        }
    }
    assert forall|c: int| 0 <= c < m && q1[c] == 1 && #[trigger] rt1[c] > 0 implies exists|k: int|
        #[trigger] sub_dep(d, inode, nitem, c, k) && pl1[sub_item(d, inode, nitem, c, k)] == rt1[c] - 1 by {
        if sorted.contains(c as usize) {
            let t = choose|t: int| 0 <= t < sorted.len() && sorted[t] == c as usize;
            let k = choose|k: int|
                #[trigger] sub_dep(d, inode, nitem, sorted[t] as int, k) && sub_item(d, inode, nitem, sorted[t] as int, k) == o0[head] as int;
            let a = o0[head];
            assert(q0[a as int] == 1);
            if sorted.contains(a) {
                let j = choose|j: int| 0 <= j < sorted.len() && sorted[j] == a;
                assert(q0[sorted[j] as int] != 1);
            }
            assert(pl1[a as int] == head);
        } else {
            assert(q0[c] == 1);
            let k = choose|k: int| #[trigger] sub_dep(d, inode, nitem, c, k) && pl0[sub_item(d, inode, nitem, c, k)] == rt0[c] - 1;
            let e = sub_item(d, inode, nitem, c, k);
            assert(q0[e] == 1);
            if sorted.contains(e as usize) {
                let j = choose|j: int| 0 <= j < sorted.len() && sorted[j] == e as usize;
                assert(q0[sorted[j] as int] != 1);
            }
        }
    }
}

/// At the start every queued item is ready at time zero and the queue is in
/// name order.
proof fn lemma_ready_start(
    d: Seq<Seq<usize>>,
    inode: Seq<Option<usize>>,
    nitem: Seq<Option<usize>>,
    names: Seq<Seq<char>>,
    order: Seq<usize>,
    inq: Seq<u8>,
    place: Seq<usize>,
)
    requires
        names.no_duplicates(),
        order.no_duplicates(),
        sorted_by(order, names),
        forall|t: int| 0 <= t < order.len() ==> #[trigger] order[t] < names.len(),
        forall|c: int, k: int|
            0 <= c < names.len() && inq[c] == 1 && 0 <= k < item_deps(d, inode, c).len()
                ==> !(#[trigger] nitem[item_deps(d, inode, c)[k] as int] is Some),
    ensures
        ready_inv(d, inode, nitem, names, order, inq, place, Seq::new(names.len(), |c: int| 0int), 0),
{
    let rt = Seq::new(names.len(), |c: int| 0int);
    assert forall|t1: int, t2: int| 0 <= t1 < t2 < order.len() implies rt[order[t1] as int] < rt[order[t2] as int] || (
    rt[order[t1] as int] == rt[order[t2] as int] && lex_lt(names[#[trigger] order[t1] as int], names[#[trigger] order[t2] as int])) by {
        let a = order[t1];
        let b = order[t2];
        assert(a != b);
        assert(names[a as int] != names[b as int]);
        assert(!lex_lt(names[b as int], names[a as int]));
        crate::text::lemma_lex_total(names[a as int], names[b as int], 0);
    }
    assert forall|c: int, k: int|
        0 <= c < names.len() && inq[c] == 1 && #[trigger] sub_dep(d, inode, nitem, c, k) implies place[sub_item(
        d,
        inode,
        nitem,
        c,
        k,
    )] < rt[c] by {
        assert(!(nitem[item_deps(d, inode, c)[k] as int] is Some));
    }
}

/// Taking the item at `head` and queueing, in name order, the items whose
/// last pending dependency it was keeps the queue in (ready time, name)
/// order; the items queued become ready at `head + 1`.
proof fn lemma_take_ready(
    d: Seq<Seq<usize>>,
    nodes: Seq<Seq<char>>,
    inode: Seq<Option<usize>>,
    nitem: Seq<Option<usize>>,
    names: Seq<Seq<char>>,
    o0: Seq<usize>,
    q0: Seq<u8>,
    pl0: Seq<usize>,
    rt0: Seq<int>,
    head: int,
    done0: Seq<bool>,
    sorted: Seq<usize>,
    q1: Seq<u8>,
    pl1: Seq<usize>,
) -> (rt1: Seq<int>)
    requires
        ready_inv(d, inode, nitem, names, o0, q0, pl0, rt0, head),
        item_maps(nodes, names, inode, nitem),
        nodes.len() <= usize::MAX,
        names.len() <= usize::MAX,
        d.len() == nodes.len(),
        deps_in_range(d),
        names.no_duplicates(),
        0 <= head < o0.len(),
        q0.len() == names.len(),
        pl0.len() == names.len(),
        done0.len() == names.len(),
        q1.len() == names.len(),
        pl1.len() == names.len(),
        forall|t: int| 0 <= t < o0.len() ==> #[trigger] o0[t] < names.len(),
        forall|c: int| 0 <= c < names.len() ==> (#[trigger] q0[c] == 1 <==> o0.contains(c as usize)),
        forall|t: int| 0 <= t < o0.len() ==> pl0[#[trigger] o0[t] as int] == t,
        forall|c: int| 0 <= c < names.len() ==> (#[trigger] done0[c] <==> (q0[c] == 1 && pl0[c] < head)),
        forall|c: int, k: int|
            0 <= c < names.len() && q0[c] == 1 && 0 <= k < item_deps(d, inode, c).len() && #[trigger] nitem[item_deps(
                d,
                inode,
                c,
            )[k] as int] is Some ==> q0[nitem[item_deps(d, inode, c)[k] as int]->0 as int] == 1,
        sorted.no_duplicates(),
        sorted_by(sorted, names),
        forall|t: int| 0 <= t < sorted.len() ==> #[trigger] sorted[t] < names.len() && q0[sorted[t] as int] != 1,
        sorted.len() > 0 ==> inode[o0[head] as int] is Some,
        forall|t: int|
            0 <= t < sorted.len() ==> pend(item_deps(d, inode, #[trigger] sorted[t] as int), nitem, done0) > 0 && pend(
                item_deps(d, inode, sorted[t] as int),
                nitem,
                done0.update(o0[head] as int, true),
            ) == 0,
        forall|c: int| 0 <= c < names.len() ==> (#[trigger] q1[c] == 1 <==> (q0[c] == 1 || sorted.contains(c as usize))),
        forall|c: int| 0 <= c < names.len() && !sorted.contains(c as usize) ==> #[trigger] pl1[c] == pl0[c],
        forall|t: int| 0 <= t < sorted.len() ==> pl1[#[trigger] sorted[t] as int] == o0.len() + t,
    ensures
        rt1 == Seq::new(names.len(), |c: int| if sorted.contains(c as usize) {
            head + 1
        } else {
            rt0[c]
        }),
        ready_inv(d, inode, nitem, names, o0 + sorted, q1, pl1, rt1, head + 1),
{
    let m = names.len();
    let a = o0[head];
    let rt1 = Seq::new(names.len(), |c: int| if sorted.contains(c as usize) {
        head + 1
    } else {
        rt0[c]
    });
    assert forall|c: int| 0 <= c < m && q0[c] == 1 implies #[trigger] pl0[c] < o0.len() by {
        let t = choose|t: int| 0 <= t < o0.len() && o0[t] == c as usize;
        assert(pl0[o0[t] as int] == t);
    }
    assert(q0[a as int] == 1) by {
        assert(o0.contains(a));
    }
    assert forall|c: int, k: int|
        0 <= c < m && #[trigger] sub_dep(d, inode, nitem, c, k) implies 0 <= sub_item(d, inode, nitem, c, k) < m by {
        assert(inode[c] is Some);
    }
    assert forall|c: int, k: int|
        0 <= c < m && q0[c] == 1 && #[trigger] sub_dep(d, inode, nitem, c, k) implies q0[sub_item(d, inode, nitem, c, k)]
        == 1 by {
        assert(nitem[item_deps(d, inode, c)[k] as int] is Some);
    }
    assert forall|t: int| #![trigger sorted[t]] 0 <= t < sorted.len() implies waited_for(
        d,
        inode,
        nitem,
        sorted[t] as int,
        o0[head] as int,
    ) by {
        lemma_newly_ready(d, nodes, inode, nitem, names, sorted[t] as int, a, inode[a as int]->0, done0, q0, pl0, head);
    }
    assert forall|t: int, k: int|
        0 <= t < sorted.len() && #[trigger] sub_dep(d, inode, nitem, sorted[t] as int, k) implies q0[sub_item(
        d,
        inode,
        nitem,
        sorted[t] as int,
        k,
    )] == 1 && pl0[sub_item(d, inode, nitem, sorted[t] as int, k)] <= head by {
        lemma_newly_ready(d, nodes, inode, nitem, names, sorted[t] as int, a, inode[a as int]->0, done0, q0, pl0, head);
    }
    assert(!done0[a as int]);
    lemma_ready_step(d, inode, nitem, names, o0, q0, pl0, rt0, head, sorted, q1, pl1, rt1);
    rt1
}

/// Once every item is queued and taken, the recorded ready times are the
/// ready times of the output, which is therefore in ready order.
proof fn lemma_ready_final(
    g: GraphView,
    inode: Seq<Option<usize>>,
    nitem: Seq<Option<usize>>,
    names: Seq<Seq<char>>,
    order: Seq<usize>,
    inq: Seq<u8>,
    place: Seq<usize>,
    rt: Seq<int>,
    head: int,
    ov: Seq<Seq<char>>,
)
    requires
        ready_inv(g.deps, inode, nitem, names, order, inq, place, rt, head),
        item_maps(g.nodes, names, inode, nitem),
        g.nodes.len() <= usize::MAX,
        names.len() <= usize::MAX,
        g.deps.len() == g.nodes.len(),
        deps_in_range(g.deps),
        order.len() == names.len(),
        inq.len() == names.len(),
        place.len() == names.len(),
        forall|c: int| 0 <= c < names.len() ==> #[trigger] inq[c] == 1,
        forall|t: int| 0 <= t < order.len() ==> #[trigger] order[t] < names.len(),
        forall|t: int| 0 <= t < order.len() ==> place[#[trigger] order[t] as int] == t,
        forall|c: usize| (c as int) < names.len() ==> #[trigger] order.contains(c),
        ov.len() == order.len(),
        forall|q: int| 0 <= q < ov.len() ==> #[trigger] ov[q] == names[order[q] as int],
    ensures
        ready_order(g, ov),
{
    let d = g.deps;
    let m = names.len();
    assert forall|i: int| 0 <= i < m implies #[trigger] ready_time(g, ov, i) == rt[order[i] as int] by {
        let c = order[i] as int;
        // a dependency of `ov[i]` at position `j` is a subset dependency of `c`
        assert forall|j: int| 0 <= j < m && depends_on(g, ov[i], #[trigger] ov[j]) implies exists|k: int|
            #[trigger] sub_dep(d, inode, nitem, c, k) && sub_item(d, inode, nitem, c, k) == order[j] as int by {
            let (u, v) = choose|u: int, v: int|
                #![trigger g.nodes[u], g.nodes[v]]
                0 <= u < g.nodes.len() && 0 <= v < g.nodes.len() && g.nodes[u] == ov[i] && g.nodes[v] == ov[j] && g.deps[u].contains(
                    v as usize,
                );
            let cj = order[j] as int;
            assert(names[c] == g.nodes[u]);
            assert(inode[c] == Some(u as usize));
            assert(inode[cj] == Some(v as usize));
            assert(nitem[v] == Some(cj as usize));
            let k = choose|k: int| 0 <= k < d[u].len() && d[u][k] == v as usize;
            assert(item_deps(d, inode, c)[k] == v as usize);
            assert(sub_dep(d, inode, nitem, c, k));
        }
        if rt[c] > 0 {
            let k = choose|k: int| #[trigger] sub_dep(d, inode, nitem, c, k) && place[sub_item(d, inode, nitem, c, k)] == rt[c] - 1;
            let e = sub_item(d, inode, nitem, c, k);
            let x = item_deps(d, inode, c)[k];
            assert(inode[c] is Some);
            let u = inode[c]->0;
            assert(x < g.nodes.len());
            assert(inode[e] == Some(x));
            assert(e < m);
            assert(order.contains(e as usize));
            let j0 = choose|t: int| 0 <= t < order.len() && order[t] == e as usize;
            assert(place[order[j0] as int] == j0);
            assert(depends_on(g, ov[i], ov[j0])) by {
                assert(g.nodes[u as int] == names[c]);
                assert(g.nodes[x as int] == names[e]);
                assert(g.deps[u as int][k] == x);
                assert(g.deps[u as int].contains(x));
            }
            assert forall|j: int| j0 < j < m implies !depends_on(g, ov[i], #[trigger] ov[j]) by {
                if depends_on(g, ov[i], ov[j]) {
                    let k2 = choose|k2: int| #[trigger] sub_dep(d, inode, nitem, c, k2) && sub_item(d, inode, nitem, c, k2) == order[j] as int;
                    assert(place[order[j] as int] < rt[c]);
                }
            }
            lemma_last_dep(g, ov, i, m as int, j0);
            assert(order[j0] as int == e);
            assert(j0 == rt[c] - 1);
            assert(ov.len() == m);
            assert(ready_time(g, ov, i) == rt[c]);
        } else {
            assert forall|j: int| -1 < j < m implies !depends_on(g, ov[i], #[trigger] ov[j]) by {
                if depends_on(g, ov[i], ov[j]) {
                    let k2 = choose|k2: int| #[trigger] sub_dep(d, inode, nitem, c, k2) && sub_item(d, inode, nitem, c, k2) == order[j] as int;
                    assert(place[order[j] as int] < rt[c]);
                }
            }
            lemma_last_dep(g, ov, i, m as int, -1);
            assert(ov.len() == m);
        }
    }
    assert forall|i: int, j: int| 0 <= i < j < ov.len() implies ready_time(g, ov, i) < ready_time(g, ov, j) || (ready_time(
        g,
        ov,
        i,
    ) == ready_time(g, ov, j) && lex_lt(#[trigger] ov[i], #[trigger] ov[j])) by {
        assert(ready_time(g, ov, i) == rt[order[i] as int]);
        assert(ready_time(g, ov, j) == rt[order[j] as int]);
        assert(rt[order[i] as int] < rt[order[j] as int] || (rt[order[i] as int] == rt[order[j] as int] && lex_lt(
            names[order[i] as int],
            names[order[j] as int],
        )));
    }
}

/// The names in `subset` in an order in which every rule comes after the
/// rules of `subset` it depends on (leaves first). Among rules that become
/// ready together, names sort in ascending order. Names that are not rules
/// have no dependencies.
pub fn topological_sort(graph: &BuildGraph, subset: &Vec<String>) -> (r: Vec<String>)
    requires
        graph.wf(),
        strs(subset@).no_duplicates(),
    ensures
        r@.len() == subset@.len(),
        strs(r@).no_duplicates(),
        forall|x: Seq<char>| #[trigger] strs(r@).contains(x) <==> strs(subset@).contains(x),
        forall|i: int, j: int, u: int, v: int|
            #![trigger strs(r@)[i], strs(r@)[j], graph@.nodes[u], graph@.nodes[v]]
            0 <= i < r@.len() && 0 <= j < r@.len() && 0 <= u < graph@.nodes.len() && 0 <= v < graph@.nodes.len()
                && strs(r@)[i] == graph@.nodes[u] && strs(r@)[j] == graph@.nodes[v]
                && graph@.deps[u].contains(v as usize) ==> j < i,
        ready_order(graph@, strs(r@)),
{
    let ghost d = graph@.deps;
    let ghost nodes = graph@.nodes;
    let ghost names = strs(subset@);
    let n = graph.nodes.len();
    let m = subset.len();
    let (inode, nitem) = item_maps_exec(graph, subset);
    let ghost none_done = Seq::new(m as nat, |i: int| false);
    let mut keys: Vec<Vec<char>> = Vec::new();
    let mut indeg: Vec<usize> = Vec::new();
    let mut done: Vec<bool> = Vec::new();
    let mut inq: Vec<u8> = Vec::new();
    let mut place: Vec<usize> = Vec::new();
    let mut a: usize = 0;
    while a < m
        invariant
            graph.wf(),
            d == graph@.deps,
            nodes == graph@.nodes,
            names == strs(subset@),
            m == names.len(),
            n == nodes.len(),
            item_maps(nodes, names, inode@, nitem@),
            none_done == Seq::new(m as nat, |i: int| false),
            a <= m,
            keys@.len() == a,
            indeg@.len() == a,
            done@.len() == a,
            inq@.len() == a,
            place@.len() == a,
            forall|b: int| 0 <= b < a ==> #[trigger] keys@[b]@ == names[b],
            forall|b: int| 0 <= b < a ==> #[trigger] indeg@[b] == pend(item_deps(d, inode@, b), nitem@, none_done),
            forall|b: int| 0 <= b < a ==> !#[trigger] done@[b],
            forall|b: int| 0 <= b < a ==> #[trigger] inq@[b] == 0,
            count_u8(inq@, 1) == 0,
        decreases m - a,
    {
        keys.push(chars_of(subset[a].as_str()));
        let deg = match inode[a] {
            Some(u) => subset_indegree(graph, &nitem, u, m),
            None => 0,
        };
        indeg.push(deg);
        done.push(false);
        let ghost i0 = inq@;
        inq.push(0);
        assert(inq@.drop_last() =~= i0);
        place.push(0);
        a += 1;
    }
    assert(done@ =~= none_done);
    let mut zero: Vec<usize> = Vec::new();
    let mut b: usize = 0;
    while b < m
        invariant
            b <= m,
            indeg@.len() == m,
            zero@.no_duplicates(),
            forall|t: int| 0 <= t < zero@.len() ==> #[trigger] zero@[t] < b,
            forall|c: int| 0 <= c < m ==> (#[trigger] zero@.contains(c as usize) <==> (c < b && indeg@[c] == 0)),
        decreases m - b,
    {
        if indeg[b] == 0 {
            let ghost z0 = zero@;
            zero.push(b);
            proof {
                assert forall|c: int| 0 <= c < m implies (#[trigger] zero@.contains(c as usize) <==> (c < b + 1 && indeg@[c] == 0)) by {
                    assert(zero@ == z0.push(b));
                    if zero@.contains(c as usize) {
                        let t = choose|t: int| 0 <= t < zero@.len() && zero@[t] == c as usize;
                        if t < z0.len() {
                            assert(z0[t] == c as usize);
                            assert(z0.contains(c as usize));
                        } else {
                            assert(zero@[t] == b);
                        }
                    }
                    if c < b && indeg@[c] == 0 {
                        assert(z0.contains(c as usize));
                        let t = choose|t: int| 0 <= t < z0.len() && z0[t] == c as usize;
                        assert(zero@[t] == c as usize);
                    }
                    if c == b {
                        assert(zero@[zero@.len() - 1] == b);
                    }
                }
                assert forall|x: int, y: int| 0 <= x < zero@.len() && 0 <= y < zero@.len() && x != y implies zero@[x] != zero@[y] by {
                    if x < z0.len() && y < z0.len() {
                    } else if x < z0.len() {
                        assert(z0[x] < b);
                    } else if y < z0.len() {
                        assert(z0[y] < b);
                    }
                }
            }
        }
        b += 1;
    }
    let first = sort_by_key(&zero, &keys);
    let mut order: Vec<usize> = Vec::new();
    proof {
        assert forall|t: int| 0 <= t < first@.len() implies #[trigger] first@[t] < inq@.len() by {
            assert(first@.contains(first@[t]));
        }
        assert forall|t: int| 0 <= t < first@.len() implies inq@[#[trigger] first@[t] as int] != 1 by {
            assert(first@.contains(first@[t]));
        }
    }
    enqueue_all(&mut order, &mut inq, &mut place, &first);
    assert(order@ =~= first@);
    let mut head: usize = 0;
    proof {
        assert forall|c: int| 0 <= c < m implies (#[trigger] indeg@[c] == 0 <==> inq@[c] == 1) by {
            assert(zero@.contains(c as usize) <==> first@.contains(c as usize));
        }
        assert forall|c: int, k: int|
            0 <= c < m && inq@[c] == 1 && 0 <= k < item_deps(d, inode@, c).len() && #[trigger] nitem@[item_deps(d, inode@, c)[k] as int] is Some
            implies false by {
            assert(indeg@[c] == 0);
            lemma_pend_zero(item_deps(d, inode@, c), nitem@, done@, k);
            let x = item_deps(d, inode@, c)[k];
            assert(x < n) by {
                assert(inode@[c] is Some);
            }
            assert(nitem@[x as int]->0 < m);
        }
        assert forall|t: int| 0 <= t < order@.len() implies place@[#[trigger] order@[t] as int] == t by {
            assert(order@[t] == first@[t]);
        }
        assert(keys@.map_values(|k: Vec<char>| k@) =~= names);
        lemma_ready_start(d, inode@, nitem@, names, order@, inq@, place@);
    }
    let ghost mut rt: Seq<int> = Seq::new(names.len(), |c: int| 0int);
    while head < order.len()
        invariant
            graph.wf(),
            d == graph@.deps,
            nodes == graph@.nodes,
            names == strs(subset@),
            m == names.len(),
            n == nodes.len(),
            item_maps(nodes, names, inode@, nitem@),
            names.no_duplicates(),
            ready_inv(d, inode@, nitem@, names, order@, inq@, place@, rt, head as int),
            keys@.len() == m,
            forall|c: int| 0 <= c < m ==> #[trigger] keys@[c]@ == names[c],
            indeg@.len() == m,
            done@.len() == m,
            inq@.len() == m,
            place@.len() == m,
            head <= order@.len(),
            order@.len() == count_u8(inq@, 1),
            order@.no_duplicates(),
            forall|t: int| 0 <= t < order@.len() ==> #[trigger] order@[t] < m,
            forall|c: int| 0 <= c < m ==> #[trigger] inq@[c] <= 1,
            forall|c: int| 0 <= c < m ==> (#[trigger] inq@[c] == 1 <==> order@.contains(c as usize)),
            forall|t: int| 0 <= t < order@.len() ==> place@[#[trigger] order@[t] as int] == t,
            forall|c: int| 0 <= c < m ==> (#[trigger] done@[c] <==> (inq@[c] == 1 && place@[c] < head)),
            forall|c: int| 0 <= c < m ==> #[trigger] indeg@[c] == pend(item_deps(d, inode@, c), nitem@, done@),
            forall|c: int| 0 <= c < m ==> (#[trigger] indeg@[c] == 0 <==> inq@[c] == 1),
            forall|c: int, k: int|
                0 <= c < m && inq@[c] == 1 && 0 <= k < item_deps(d, inode@, c).len() && #[trigger] nitem@[item_deps(d, inode@, c)[k] as int] is Some
                    ==> inq@[nitem@[item_deps(d, inode@, c)[k] as int]->0 as int] == 1
                    && place@[nitem@[item_deps(d, inode@, c)[k] as int]->0 as int] < place@[c],
        decreases m - head,
    {
        proof {
            lemma_count_u8_le(inq@, 1);
        }
        let a = order[head];
        let ghost done0 = done@;
        let ghost ind_head = indeg@;
        assert(!done0[a as int]) by {
            assert(place@[a as int] == head);
        }
        done.set(a, true);
        let newly = match inode[a] {
            Some(v) => {
                proof {
                    assert forall|c: int| 0 <= c < m implies #[trigger] indeg@[c] == pend(item_deps(d, inode@, c), nitem@, done@)
                        + release_part(d, inode@, c, graph@.rdeps[v as int]) by {
                        assert forall|x: int| 0 <= x < nitem@.len() && #[trigger] nitem@[x] == Some(a) implies x == v by {
                            assert(inode@[a as int] == Some(x as usize));
                        }
                        lemma_pend_done(item_deps(d, inode@, c), nitem@, done0, a, v);
                        if inode@[c] is Some {
                            let uc = inode@[c]->0;
                            lemma_dependents_count(d, v, uc, d.len() as int);
                        }
                    }
                }
                release(graph, v, &nitem, &mut indeg, Ghost(names), Ghost(inode@), Ghost(done@), Ghost(inq@))
            },
            None => {
                proof {
                    assert forall|x: int| 0 <= x < nitem@.len() implies #[trigger] nitem@[x] != Some(a) by {
                        if nitem@[x] == Some(a) {
                            assert(inode@[a as int] == Some(x as usize));
                        }
                    }
                    assert forall|c: int| 0 <= c < m implies #[trigger] indeg@[c] == pend(item_deps(d, inode@, c), nitem@, done@) by {
                        lemma_pend_unmapped(item_deps(d, inode@, c), nitem@, done0, a);
                    }
                }
                let e: Vec<usize> = Vec::new();
                proof {
                    assert forall|c: int| 0 <= c < m implies (#[trigger] e@.contains(c as usize) <==> (indeg@[c] == 0 && inq@[c] != 1)) by {}
                }
                e
            },
        };
        let sorted = sort_by_key(&newly, &keys);
        let ghost o0 = order@;
        let ghost q0 = inq@;
        let ghost pl0 = place@;
        proof {
            assert forall|t: int| 0 <= t < sorted@.len() implies #[trigger] sorted@[t] < inq@.len() by {
                assert(sorted@.contains(sorted@[t]));
                assert(newly@.contains(sorted@[t]));
                let w = choose|w: int| 0 <= w < newly@.len() && newly@[w] == sorted@[t];
            }
            assert forall|t: int| 0 <= t < sorted@.len() implies inq@[#[trigger] sorted@[t] as int] != 1 by {
                assert(sorted@.contains(sorted@[t]));
                assert(newly@.contains(sorted@[t]));
                let w = choose|w: int| 0 <= w < newly@.len() && newly@[w] == sorted@[t];
            }
        }
        enqueue_all(&mut order, &mut inq, &mut place, &sorted);
        proof {
            let h = head + 1;
            assert forall|c: int| 0 <= c < m implies (#[trigger] inq@[c] == 1 <==> order@.contains(c as usize)) by {
                if order@.contains(c as usize) {
                    let t = choose|t: int| 0 <= t < order@.len() && order@[t] == c as usize;
                    if t < o0.len() {
                        assert(o0[t] == c as usize);
                    } else {
                        assert(sorted@[t - o0.len()] == c as usize);
                    }
                }
                if q0[c] == 1 {
                    let t = choose|t: int| 0 <= t < o0.len() && o0[t] == c as usize;
                    assert(order@[t] == c as usize);
                }
                if sorted@.contains(c as usize) {
                    let t = choose|t: int| 0 <= t < sorted@.len() && sorted@[t] == c as usize;
                    assert(order@[o0.len() + t] == c as usize);
                }
            }
            assert forall|x: int, y: int| 0 <= x < order@.len() && 0 <= y < order@.len() && x != y implies order@[x] != order@[y] by {
                if x < o0.len() && y < o0.len() {
                } else if x < o0.len() {
                    assert(sorted@.contains(order@[y]));
                    assert(q0[order@[x] as int] == 1) by { assert(o0.contains(o0[x])); }
                } else if y < o0.len() {
                    assert(sorted@.contains(order@[x]));
                    assert(q0[order@[y] as int] == 1) by { assert(o0.contains(o0[y])); }
                } else {
                    assert(sorted@[x - o0.len()] != sorted@[y - o0.len()]);
                }
            }
            assert forall|t: int| 0 <= t < order@.len() implies #[trigger] order@[t] < m by {
                if t >= o0.len() {
                    assert(sorted@[t - o0.len()] < m);
                }
            }
            assert forall|t: int| 0 <= t < order@.len() implies place@[#[trigger] order@[t] as int] == t by {
                if t < o0.len() {
                    let c = o0[t];
                    assert(!sorted@.contains(c)) by {
                        assert(q0[c as int] == 1) by { assert(o0.contains(c)); }
                    }
                } else {
                    assert(order@[t] == sorted@[t - o0.len()]);
                }
            }
            assert forall|c: int| 0 <= c < m implies (#[trigger] done@[c] <==> (inq@[c] == 1 && place@[c] < h)) by {
                if c == a {
                    assert(pl0[c] == head);
                    assert(!sorted@.contains(a)) by {
                        assert(q0[a as int] == 1) by { assert(o0.contains(a)); }
                    }
                } else if sorted@.contains(c as usize) {
                    let t = choose|t: int| 0 <= t < sorted@.len() && sorted@[t] == c as usize;
                    assert(place@[sorted@[t] as int] == o0.len() + t);
                    assert(q0[c] != 1);
                } else {
                    assert(place@[c] == pl0[c]);
                    if q0[c] == 1 {
                        let t = choose|t: int| 0 <= t < o0.len() && o0[t] == c as usize;
                        assert(pl0[c] == t);
                        assert(o0[head as int] == a);
                    }
                }
            }
            assert forall|c: int| 0 <= c < m implies (#[trigger] indeg@[c] == 0 <==> inq@[c] == 1) by {
                if q0[c] == 1 {
                    lemma_pend_le_update(item_deps(d, inode@, c), nitem@, done0, a);
                    assert(ind_head[c] == 0);
                    assert(ind_head[c] == pend(item_deps(d, inode@, c), nitem@, done0));
                } else {
                    assert(sorted@.contains(c as usize) <==> newly@.contains(c as usize));
                }
            }
            assert forall|c: int, k: int|
                0 <= c < m && inq@[c] == 1 && 0 <= k < item_deps(d, inode@, c).len() && #[trigger] nitem@[item_deps(d, inode@, c)[k] as int] is Some
                implies inq@[nitem@[item_deps(d, inode@, c)[k] as int]->0 as int] == 1
                    && place@[nitem@[item_deps(d, inode@, c)[k] as int]->0 as int] < place@[c] by {
                let x = item_deps(d, inode@, c)[k];
                assert(inode@[c] is Some);
                assert(x < n);
                let e = nitem@[x as int]->0;
                assert(e < m);
                if q0[c] == 1 {
                    assert(!sorted@.contains(c as usize)) by {}
                    assert(q0[e as int] == 1);
                    assert(!sorted@.contains(e)) by {}
                } else {
                    assert(sorted@.contains(c as usize));
                    assert(newly@.contains(c as usize));
                    assert(indeg@[c] == 0);
                    lemma_pend_zero(item_deps(d, inode@, c), nitem@, done@, k);
                    assert(done@[e as int]);
                    let t = choose|t: int| 0 <= t < sorted@.len() && sorted@[t] == c as usize;
                    assert(place@[sorted@[t] as int] == o0.len() + t);
                    if sorted@.contains(e) {
                        assert(q0[e as int] != 1);
                    }
                }
            }
            assert(keys@.map_values(|k: Vec<char>| k@) =~= names);
            assert forall|t: int| 0 <= t < sorted@.len() implies pend(
                item_deps(d, inode@, #[trigger] sorted@[t] as int),
                nitem@,
                done0,
            ) > 0 && pend(item_deps(d, inode@, sorted@[t] as int), nitem@, done0.update(o0[head as int] as int, true)) == 0 by {
                let c = sorted@[t] as int;
                assert(sorted@.contains(sorted@[t]));
                assert(newly@.contains(c as usize));
                assert(0 <= c < m);
                assert(q0[c] != 1);
                assert(ind_head[c] != 0);
                assert(indeg@[c] == 0);
                assert(indeg@[c] == pend(item_deps(d, inode@, c), nitem@, done@));
                assert(done@ == done0.update(a as int, true));
            }
            rt = lemma_take_ready(d, nodes, inode@, nitem@, names, o0, q0, pl0, rt, head as int, done0, sorted@, inq@, place@);
        }
        head += 1;
    }
    proof {
        assert forall|c: int| 0 <= c < m implies #[trigger] inq@[c] == 1 by {
            if inq@[c] != 1 {
                let rank = choose|rank: Seq<int>| ranked(d, rank);
                assert forall|e: int| 0 <= e < inq@.len() && #[trigger] inq@[e] != 1 implies inode@[e] is Some && (inode@[e]->0 as int) < rank.len() by {
                    assert(indeg@[e] != 0);
                    if inode@[e] is None {
                        assert(item_deps(d, inode@, e) =~= seq![]);
                    }
                }
                let lo = lowest_unqueued(inode@, inq@, rank, m as int);
                assert(indeg@[lo] != 0);
                let ul = inode@[lo]->0;
                let k = lemma_pend_pos(item_deps(d, inode@, lo), nitem@, done@);
                let x = d[ul as int][k];
                assert(x < n);
                let e = nitem@[x as int]->0;
                assert(!done@[e as int]);
                assert(inq@[e as int] != 1) by {
                    if inq@[e as int] == 1 {
                        let t = choose|t: int| 0 <= t < order@.len() && order@[t] == e;
                        assert(place@[e as int] == t);
                    }
                }
                assert(inode@[e as int] == Some(x));
                assert(rank[x as int] < rank[ul as int]);
            }
        }
        lemma_count_u8_all(inq@, 1);
    }
    let mut out: Vec<String> = Vec::new();
    let mut t: usize = 0;
    while t < order.len()
        invariant
            t <= order@.len(),
            order@.len() == m,
            m == subset@.len(),
            forall|q: int| 0 <= q < order@.len() ==> #[trigger] order@[q] < m,
            out@.len() == t,
            forall|q: int| 0 <= q < t ==> #[trigger] out@[q]@ == subset@[order@[q] as int]@,
        decreases order@.len() - t,
    {
        out.push(subset[order[t]].clone());
        t += 1;
    }
    proof {
        let ov = strs(out@);
        assert forall|q: int| 0 <= q < ov.len() implies #[trigger] ov[q] == names[order@[q] as int] by {}
        assert forall|c: usize| (c as int) < names.len() implies #[trigger] order@.contains(c) by {
            assert(inq@[c as int] == 1);
        }
        lemma_ready_final(graph@, inode@, nitem@, names, order@, inq@, place@, rt, head as int, ov);
        assert forall|x: int, y: int| 0 <= x < ov.len() && 0 <= y < ov.len() && x != y implies ov[x] != ov[y] by {
            assert(order@[x] != order@[y]);
            assert(names[order@[x] as int] != names[order@[y] as int]);
        }
        assert forall|x: Seq<char>| #[trigger] ov.contains(x) <==> names.contains(x) by {
            if ov.contains(x) {
                let q = choose|q: int| 0 <= q < ov.len() && ov[q] == x;
                assert(names[order@[q] as int] == x);
            }
            if names.contains(x) {
                let c = choose|c: int| 0 <= c < names.len() && names[c] == x;
                assert(inq@[c] == 1);
                let q = choose|q: int| 0 <= q < order@.len() && order@[q] == c as usize;
                assert(ov[q] == x);
            }
        }
        assert forall|i: int, j: int, u: int, v: int|
            #![trigger ov[i], ov[j], nodes[u], nodes[v]]
            0 <= i < out@.len() && 0 <= j < out@.len() && 0 <= u < nodes.len() && 0 <= v < nodes.len()
                && ov[i] == nodes[u] && ov[j] == nodes[v] && d[u].contains(v as usize) implies j < i by {
            let ci = order@[i] as int;
            let cj = order@[j] as int;
            assert(names[ci] == nodes[u]);
            assert(names[cj] == nodes[v]);
            assert(inode@[ci] == Some(u as usize));
            assert(inode@[cj] == Some(v as usize));
            let k = choose|k: int| 0 <= k < d[u].len() && d[u][k] == v as usize;
            assert(item_deps(d, inode@, ci)[k] == v as usize);
            assert(nitem@[v] == Some(cj as usize));
            assert(place@[cj] < place@[ci]);
        }
    }
    out
}

} // verus!
