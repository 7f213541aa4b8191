//! Constraint satisfaction: arc consistency (AC-3) and backtracking search
//! over variables whose constraints say that two of them differ.

pub mod colors;
pub mod graph;
pub mod sudoku;

use vstd::prelude::*;
use std::collections::{HashSet, VecDeque};
use vstd::std_specs::hash::{obeys_key_model, spec_hash_keys_iter};
use vstd::std_specs::iter::IteratorSpec;
use vstd::std_specs::cmp::PartialEqSpec;
use self::graph::{Csp, graph_edges, graph_order, edge_count, edge_endpoints, edges_directed};

verus! {

broadcast use vstd::std_specs::hash::group_hash_axioms;

/// Values that a variable can take: copied freely, compared and hashed
/// by value.
pub trait Value: Copy + Eq + std::hash::Hash + Sized {
    proof fn lemma_model()
        ensures
            obeys_key_model::<Self>(),
            Self::obeys_eq_spec(),
            forall|x: Self, y: Self| #[trigger] x.eq_spec(&y) <==> x == y,
    ;
}

impl Value for u8 {
    proof fn lemma_model() {
    }
}

impl Value for u32 {
    proof fn lemma_model() {
    }
}

/// The values a variable may still take.
pub type Var<V> = HashSet<V>;

/// A binary constraint between two variables.
pub trait Constraint<V> {
    /// Whether value `x` of the first variable and `y` of the second agree
    /// with the constraint.
    spec fn holds(&self, x: V, y: V) -> bool;

    /// Whether `x` and `y` agree with the constraint.
    fn relation(&self, x: &V, y: &V) -> (r: bool)
        ensures
            r == self.holds(*x, *y),
    ;

    /// The values of `y_set` that agree with some value of `x_set`.
    fn filter_forward(&self, x_set: &Var<V>, y_set: &Var<V>) -> (r: Var<V>)
        where V: Value
        ensures
            forall|y: V| #[trigger] r@.contains(y) <==> y_set@.contains(y) && exists|x: V| #[trigger] x_set@.contains(x) && self.holds(x, y),
    {
        proof {
            V::lemma_model();
        }
        let xs = set_values(x_set);
        let ys = set_values(y_set);
        let mut filtered: HashSet<V> = HashSet::new();
        let mut i: usize = 0;
        while i < xs.len()
            invariant
                i <= xs@.len(),
                obeys_key_model::<V>(),
                xs@.to_set() == x_set@,
                ys@.to_set() == y_set@,
                forall|y: V| #[trigger] filtered@.contains(y) <==> ys@.contains(y) && exists|k: int| 0 <= k < i && self.holds(#[trigger] xs@[k], y),
            decreases xs.len() - i,
        {
            let mut j: usize = 0;
            while j < ys.len()
                invariant
                    i < xs@.len(),
                    j <= ys@.len(),
                    obeys_key_model::<V>(),
                    forall|y: V| #[trigger] filtered@.contains(y) <==> ys@.contains(y) && (exists|k: int| 0 <= k < i && self.holds(#[trigger] xs@[k], y)
                        || (exists|m: int| 0 <= m < j && ys@[m] == y) && self.holds(xs@[i as int], y)),
                decreases ys.len() - j,
            {
                if self.relation(&xs[i], &ys[j]) {
                    filtered.insert(ys[j]);
                }
                j += 1;
            }
            proof {
                assert forall|y: V| #[trigger] filtered@.contains(y) <==> ys@.contains(y) && exists|k: int| 0 <= k < i + 1 && self.holds(#[trigger] xs@[k], y) by {
                    if ys@.contains(y) && self.holds(xs@[i as int], y) {
                        let m = choose|m: int| 0 <= m < ys@.len() && ys@[m] == y;
                    }
                }
            }
            i += 1;
        }
        proof {
            assert forall|y: V| #[trigger] filtered@.contains(y) <==> y_set@.contains(y) && exists|x: V| #[trigger] x_set@.contains(x) && self.holds(x, y) by {
                if filtered@.contains(y) {
                    let k = choose|k: int| 0 <= k < xs@.len() && self.holds(#[trigger] xs@[k], y);
                    assert(xs@.to_set().contains(xs@[k]));
                }
                if y_set@.contains(y) && exists|x: V| #[trigger] x_set@.contains(x) && self.holds(x, y) {
                    let x = choose|x: V| #[trigger] x_set@.contains(x) && self.holds(x, y);
                    assert(xs@.to_set().contains(x));
                    let k = choose|k: int| 0 <= k < xs@.len() && xs@[k] == x;
                    assert(self.holds(xs@[k], y));
                    assert(ys@.to_set().contains(y));
                }
            }
        }
        filtered
    }

    /// The values of `x_set` that agree with some value of `y_set`.
    fn filter_backward(&self, x_set: &Var<V>, y_set: &Var<V>) -> (r: Var<V>)
        where V: Value
        ensures
            forall|x: V| #[trigger] r@.contains(x) <==> x_set@.contains(x) && exists|y: V| #[trigger] y_set@.contains(y) && self.holds(x, y),
    {
        proof {
            V::lemma_model();
        }
        let xs = set_values(x_set);
        let ys = set_values(y_set);
        let mut filtered: HashSet<V> = HashSet::new();
        let mut i: usize = 0;
        while i < xs.len()
            invariant
                i <= xs@.len(),
                obeys_key_model::<V>(),
                xs@.to_set() == x_set@,
                ys@.to_set() == y_set@,
                forall|x: V| #[trigger] filtered@.contains(x) <==> (exists|k: int| 0 <= k < i && xs@[k] == x) && exists|m: int| 0 <= m < ys@.len() && self.holds(x, #[trigger] ys@[m]),
            decreases xs.len() - i,
        {
            let mut j: usize = 0;
            while j < ys.len()
                invariant
                    i < xs@.len(),
                    j <= ys@.len(),
                    obeys_key_model::<V>(),
                    forall|x: V| #[trigger] filtered@.contains(x) <==> ((exists|k: int| 0 <= k < i && xs@[k] == x) && exists|m: int| 0 <= m < ys@.len() && self.holds(x, #[trigger] ys@[m]))
                        || (x == xs@[i as int] && exists|m: int| 0 <= m < j && self.holds(x, #[trigger] ys@[m])),
                decreases ys.len() - j,
            {
                if self.relation(&xs[i], &ys[j]) {
                    filtered.insert(xs[i]);
                }
                j += 1;
            }
            proof {
                assert forall|x: V| #[trigger] filtered@.contains(x) <==> (exists|k: int| 0 <= k < i + 1 && xs@[k] == x) && exists|m: int| 0 <= m < ys@.len() && self.holds(x, #[trigger] ys@[m]) by {
                    if exists|k: int| 0 <= k < i + 1 && xs@[k] == x {
                        let k = choose|k: int| 0 <= k < i + 1 && xs@[k] == x;
                        if k < i {
                            assert(exists|k: int| 0 <= k < i && xs@[k] == x);
                        }
                    }
                }
            }
            i += 1;
        }
        proof {
            assert forall|x: V| #[trigger] filtered@.contains(x) <==> x_set@.contains(x) && exists|y: V| #[trigger] y_set@.contains(y) && self.holds(x, y) by {
                if filtered@.contains(x) {
                    let k = choose|k: int| 0 <= k < xs@.len() && xs@[k] == x;
                    assert(xs@.to_set().contains(xs@[k]));
                    let m = choose|m: int| 0 <= m < ys@.len() && self.holds(x, #[trigger] ys@[m]);
                    assert(ys@.to_set().contains(ys@[m]));
                }
                if x_set@.contains(x) && exists|y: V| #[trigger] y_set@.contains(y) && self.holds(x, y) {
                    let y = choose|y: V| #[trigger] y_set@.contains(y) && self.holds(x, y);
                    assert(ys@.to_set().contains(y));
                    let m = choose|m: int| 0 <= m < ys@.len() && ys@[m] == y;
                    assert(self.holds(x, ys@[m]));
                    assert(xs@.to_set().contains(x));
                    let k = choose|k: int| 0 <= k < xs@.len() && xs@[k] == x;
                }
            }
        }
        filtered
    }
}

/// The constraint that two variables take different values.
pub struct Diff;

impl<V: Value> Constraint<V> for Diff {
    open spec fn holds(&self, x: V, y: V) -> bool {
        x != y
    }

    fn relation(&self, x: &V, y: &V) -> (r: bool) {
        proof {
            V::lemma_model();
        }
        !(*x == *y)
    }
}

/// The search found that no assignment satisfies the constraints.
#[derive(Debug)]
pub struct Inconsistency;

/// The sets of values of the variables.
pub open spec fn doms_of<V>(vars: Seq<HashSet<V>>) -> Seq<Set<V>> {
    Seq::new(vars.len(), |i: int| vars[i]@)
}

/// Each edge joins two of the `n` variables.
pub open spec fn edges_within(edges: Seq<(nat, nat)>, n: nat) -> bool {
    forall|k: int| 0 <= k < edges.len() ==> (#[trigger] edges[k]).0 < n && edges[k].1 < n
}

/// `a` gives each variable a value of its set and different values to the
/// two ends of each edge.
pub open spec fn is_solution<V>(a: Seq<V>, doms: Seq<Set<V>>, edges: Seq<(nat, nat)>) -> bool {
    &&& a.len() == doms.len()
    &&& forall|i: int| 0 <= i < a.len() ==> #[trigger] doms[i].contains(a[i])
    &&& forall|k: int| 0 <= k < edges.len() ==> a[(#[trigger] edges[k]).0 as int] != a[edges[k].1 as int]
}

/// Some assignment is a solution.
pub open spec fn solvable<V>(doms: Seq<Set<V>>, edges: Seq<(nat, nat)>) -> bool {
    exists|a: Seq<V>| #[trigger] is_solution(a, doms, edges)
}

/// The variable whose values support the other's along an arc: the source
/// of the edge when the arc is outgoing, its target otherwise.
pub open spec fn support_side(edges: Seq<(nat, nat)>, e: int, out: bool) -> nat {
    if out {
        edges[e].0
    } else {
        edges[e].1
    }
}

/// The variable an arc filters: the other end of its edge.
pub open spec fn filtered_side(edges: Seq<(nat, nat)>, e: int, out: bool) -> nat {
    if out {
        edges[e].1
    } else {
        edges[e].0
    }
}

/// A value of the support side differs from `v`.
pub open spec fn supported<V>(doms: Seq<Set<V>>, edges: Seq<(nat, nat)>, e: int, out: bool, v: V) -> bool {
    exists|x: V| #[trigger] doms[support_side(edges, e, out) as int].contains(x) && x != v
}

/// The arc is consistent and the variable it filters has a value left.
pub open spec fn settled<V>(doms: Seq<Set<V>>, edges: Seq<(nat, nat)>, e: int, out: bool) -> bool {
    &&& forall|v: V| #[trigger] doms[filtered_side(edges, e, out) as int].contains(v) ==> supported(doms, edges, e, out, v)
    &&& exists|v: V| #[trigger] doms[filtered_side(edges, e, out) as int].contains(v)
}

/// The set has a value.
pub open spec fn nonempty<V>(s: Set<V>) -> bool {
    exists|v: V| s.contains(v)
}

/// Each set of `a` that has a value has one in `b` too.
pub open spec fn keeps_values<V>(b: Seq<Set<V>>, a: Seq<Set<V>>) -> bool {
    forall|i: int| 0 <= i < a.len() && #[trigger] nonempty(a[i]) ==> nonempty(b[i])
}

/// Every arc of every edge is settled.
pub open spec fn all_settled<V>(doms: Seq<Set<V>>, edges: Seq<(nat, nat)>) -> bool {
    forall|e: usize, out: bool| e < edges.len() ==> #[trigger] settled(doms, edges, e as int, out)
}

/// Each set of `b` is within the one of `a` at the same place.
pub open spec fn narrower<V>(b: Seq<Set<V>>, a: Seq<Set<V>>) -> bool {
    &&& b.len() == a.len()
    &&& forall|i: int| 0 <= i < a.len() ==> (#[trigger] b[i]).subset_of(a[i])
}

/// The number of values of all the variables together.
pub open spec fn total_size<V>(doms: Seq<Set<V>>) -> nat
    decreases doms.len(),
{
    if doms.len() == 0 {
        0
    } else {
        total_size(doms.drop_last()) + doms.last().len()
    }
}

/// All sets are finite.
pub open spec fn all_finite<V>(doms: Seq<Set<V>>) -> bool {
    forall|i: int| 0 <= i < doms.len() ==> (#[trigger] doms[i]).finite()
}

proof fn lemma_total_narrower<V>(b: Seq<Set<V>>, a: Seq<Set<V>>)
    requires
        narrower(b, a),
        all_finite(a),
    ensures
        total_size(b) <= total_size(a),
        all_finite(b),
    decreases a.len(),
{
    if a.len() > 0 {
        assert(narrower(b.drop_last(), a.drop_last()));
        lemma_total_narrower(b.drop_last(), a.drop_last());
        vstd::set_lib::lemma_len_subset(b.last(), a.last());
        assert forall|i: int| 0 <= i < b.len() implies (#[trigger] b[i]).finite() by {
            vstd::set_lib::lemma_len_subset(b[i], a[i]);
        }
    }
}

proof fn lemma_total_shrink<V>(b: Seq<Set<V>>, a: Seq<Set<V>>, i: int)
    requires
        narrower(b, a),
        all_finite(a),
        0 <= i < a.len(),
        b[i].len() < a[i].len(),
    ensures
        total_size(b) < total_size(a),
    decreases a.len(),
{
    assert(narrower(b.drop_last(), a.drop_last()));
    if i == a.len() - 1 {
        lemma_total_narrower(b.drop_last(), a.drop_last());
    } else {
        lemma_total_shrink(b.drop_last(), a.drop_last(), i);
        vstd::set_lib::lemma_len_subset(b.last(), a.last());
    }
}

/// The view of a hash set is finite.
proof fn lemma_set_finite<V>(s: &HashSet<V>)
    ensures
        s@.finite(),
{
    let rem = spec_hash_keys_iter(s).remaining();
    broadcast use vstd::seq_lib::seq_to_set_is_finite;
    assert(rem.unref().to_set().finite());
}

/// The values of `s`, each once.
fn set_values<V: Value>(s: &HashSet<V>) -> (r: Vec<V>)
    ensures
        r@.to_set() == s@,
        r@.no_duplicates(),
{
    proof {
        V::lemma_model();
    }
    let mut out: Vec<V> = Vec::new();
    for x in it: s.iter()
        invariant
            it.seq() == spec_hash_keys_iter(s).remaining(),
            out@.len() == it.index(),
            forall|k: int| 0 <= k < it.index() ==> out@[k] == *it.seq()[k],
    {
        out.push(*x);
    }
    proof {
        let rem = spec_hash_keys_iter(s).remaining();
        assert(out@ =~= rem.unref());
    }
    out
}

/// The set holding just `v`.
fn singleton<V: Value>(v: V) -> (r: HashSet<V>)
    ensures
        r@ == set![v],
{
    proof {
        V::lemma_model();
    }
    let mut s: HashSet<V> = HashSet::new();
    s.insert(v);
    assert(s@ =~= set![v]);
    s
}

/// The arcs along which the values of `node` support those of a neighbour:
/// the outgoing arcs of the edges that leave it and the incoming arcs of the
/// edges that enter it.
fn two_way_edges(node: usize, csp: &Csp<Diff>) -> (r: Vec<(usize, bool)>)
    requires
        node <= u32::MAX,
    ensures
        forall|e: usize, out: bool| #[trigger] r@.contains((e, out)) <==> e < graph_edges(*csp).len()
            && support_side(graph_edges(*csp), e as int, out) == node,
{
    let outgoing = edges_directed(csp, node, true);
    let incoming = edges_directed(csp, node, false);
    let mut arcs: Vec<(usize, bool)> = Vec::new();
    let mut i: usize = 0;
    while i < outgoing.len()
        invariant
            i <= outgoing@.len(),
            arcs@ == outgoing@.subrange(0, i as int).map_values(|e: usize| (e, true)),
        decreases outgoing.len() - i,
    {
        arcs.push((outgoing[i], true));
        assert(outgoing@.subrange(0, i + 1) =~= outgoing@.subrange(0, i as int).push(outgoing@[i as int]));
        assert(arcs@ =~= outgoing@.subrange(0, i + 1).map_values(|e: usize| (e, true)));
        i += 1;
    }
    let ghost n_out = arcs@.len();
    let mut j: usize = 0;
    while j < incoming.len()
        invariant
            j <= incoming@.len(),
            n_out == outgoing@.len(),
            arcs@.len() == n_out + j,
            forall|k: int| 0 <= k < n_out ==> #[trigger] arcs@[k] == (outgoing@[k], true),
            forall|k: int| 0 <= k < j ==> arcs@[n_out + k] == (#[trigger] incoming@[k], false),
        decreases incoming.len() - j,
    {
        arcs.push((incoming[j], false));
        j += 1;
    }
    proof {
        assert(outgoing@.subrange(0, outgoing@.len() as int) =~= outgoing@);
        assert forall|e: usize, out: bool| #[trigger] arcs@.contains((e, out)) <==> e < graph_edges(*csp).len()
            && support_side(graph_edges(*csp), e as int, out) == node by {
            if arcs@.contains((e, out)) {
                let k = choose|k: int| 0 <= k < arcs@.len() && arcs@[k] == (e, out);
                if k < n_out {
                    assert(outgoing@.contains(outgoing@[k]));
                } else {
                    assert(incoming@.contains(incoming@[k - n_out]));
                }
            }
            if e < graph_edges(*csp).len() && support_side(graph_edges(*csp), e as int, out) == node {
                if out {
                    assert(outgoing@.contains(e));
                    let k = choose|k: int| 0 <= k < outgoing@.len() && outgoing@[k] == e;
                    assert(arcs@[k] == (e, out));
                } else {
                    assert(incoming@.contains(e));
                    let k = choose|k: int| 0 <= k < incoming@.len() && incoming@[k] == e;
                    assert(arcs@[n_out + k] == (e, out));
                }
            }
        }
    }
    arcs
}

/// The sets of values of hash sets are finite.
proof fn lemma_all_finite<V>(vars: Seq<HashSet<V>>)
    ensures
        all_finite(doms_of(vars)),
{
    assert forall|i: int| 0 <= i < vars.len() implies (#[trigger] doms_of(vars)[i]).finite() by {
        lemma_set_finite(&vars[i]);
    }
}

/// Every arc whose support side is `node` is in `arcs`, and every other arc
/// is settled.
pub open spec fn settled_but<V>(doms: Seq<Set<V>>, edges: Seq<(nat, nat)>, arcs: Seq<(usize, bool)>) -> bool {
    forall|e: usize, out: bool| e < edges.len() && !arcs.contains((e, out)) ==> #[trigger] settled(doms, edges, e as int, out)
}

/// Filters the variable on the filtered side of an arc: the values left
/// are those that some value of the support side differs from.
fn filter_arc<V: Value>(e: usize, d: bool, variables: &Vec<Var<V>>, csp: &Csp<Diff>) -> (r: (usize, Var<V>))
    requires
        e < graph_edges(*csp).len(),
        edges_within(graph_edges(*csp), variables@.len()),
    ensures
        r.0 == filtered_side(graph_edges(*csp), e as int, d),
        r.0 < variables@.len(),
        r.0 < graph_order(*csp),
        r.0 <= u32::MAX,
        forall|v: V| #[trigger] r.1@.contains(v) <==> doms_of(variables@)[r.0 as int].contains(v) && supported(
            doms_of(variables@),
            graph_edges(*csp),
            e as int,
            d,
            v,
        ),
{
    let ghost edges = graph_edges(*csp);
    let ghost cur = doms_of(variables@);
    let (from, to) = edge_endpoints(csp, e);
    let (target, filtered) = if d {
        (to, Diff.filter_forward(&variables[from], &variables[to]))
    } else {
        (from, Diff.filter_backward(&variables[from], &variables[to]))
    };
    let ghost ss = support_side(edges, e as int, d);
    proof {
        assert(cur[target as int] == variables@[target as int]@);
        assert(cur[ss as int] == variables@[ss as int]@);
        assert forall|v: V| #[trigger] filtered@.contains(v) <==> cur[target as int].contains(v) && supported(cur, edges, e as int, d, v) by {
            if filtered@.contains(v) {
                if d {
                    let x = choose|x: V| #[trigger] variables@[from as int]@.contains(x) && <Diff as Constraint<V>>::holds(&Diff, x, v);
                    assert(cur[ss as int].contains(x) && x != v);
                } else {
                    let y = choose|y: V| #[trigger] variables@[to as int]@.contains(y) && <Diff as Constraint<V>>::holds(&Diff, v, y);
                    assert(cur[ss as int].contains(y) && y != v);
                }
            }
            if cur[target as int].contains(v) && supported(cur, edges, e as int, d, v) {
                let x = choose|x: V| #[trigger] cur[ss as int].contains(x) && x != v;
                if d {
                    assert(variables@[from as int]@.contains(x));
                } else {
                    assert(variables@[to as int]@.contains(x));
                }
            }
        }
    }
    (target, filtered)
}

/// A value that some solution gives the filtered side of an arc survives
/// the filtering.
proof fn lemma_filter_keeps_solutions<V>(d0: Seq<Set<V>>, cur: Seq<Set<V>>, edges: Seq<(nat, nat)>, e: int, d: bool, f: Set<V>)
    requires
        0 <= e < edges.len(),
        edges_within(edges, cur.len()),
        forall|a: Seq<V>| #[trigger] is_solution(a, d0, edges) ==> is_solution(a, cur, edges),
        forall|v: V| #[trigger] f.contains(v) <==> cur[filtered_side(edges, e, d) as int].contains(v) && supported(cur, edges, e, d, v),
    ensures
        forall|a: Seq<V>| #[trigger] is_solution(a, d0, edges) ==> f.contains(a[filtered_side(edges, e, d) as int]),
{
    assert forall|a: Seq<V>| #[trigger] is_solution(a, d0, edges) implies f.contains(a[filtered_side(edges, e, d) as int]) by {
        let ss = support_side(edges, e, d);
        let fs = filtered_side(edges, e, d);
        assert(is_solution(a, cur, edges));
        assert(a[edges[e].0 as int] != a[edges[e].1 as int]);
        assert(cur[ss as int].contains(a[ss as int]));
        assert(cur[fs as int].contains(a[fs as int]));
        assert(supported(cur, edges, e, d, a[fs as int]));
    }
}

/// After the filtering of the first queued arc, with the arcs that the
/// shrunk variable supports queued again, every arc out of the queue is
/// settled.
proof fn lemma_settled_step<V>(
    cur: Seq<Set<V>>,
    next: Seq<Set<V>>,
    edges: Seq<(nat, nat)>,
    q: Seq<(usize, bool)>,
    now: Seq<(usize, bool)>,
    added: Seq<(usize, bool)>,
    e: usize,
    d: bool,
    f: Set<V>,
    shrinked: bool,
)
    requires
        e < edges.len(),
        q.len() > 0,
        q[0] == (e, d),
        edges_within(edges, cur.len()),
        settled_but(cur, edges, q),
        forall|v: V| #[trigger] f.contains(v) <==> cur[filtered_side(edges, e as int, d) as int].contains(v) && supported(cur, edges, e as int, d, v),
        nonempty(f),
        next == cur.update(filtered_side(edges, e as int, d) as int, f),
        !shrinked ==> f == cur[filtered_side(edges, e as int, d) as int],
        shrinked ==> forall|e2: usize, out2: bool| e2 < edges.len() && support_side(edges, e2 as int, out2) == filtered_side(edges, e as int, d)
            ==> #[trigger] added.contains((e2, out2)),
        now == q.drop_first() + added,
    ensures
        settled_but(next, edges, now),
{
    let target = filtered_side(edges, e as int, d);
    let w = choose|v: V| f.contains(v);
    assert forall|e2: usize, out2: bool| e2 < edges.len() && !now.contains((e2, out2)) implies #[trigger] settled(next, edges, e2 as int, out2) by {
        let fs2 = filtered_side(edges, e2 as int, out2);
        let ss2 = support_side(edges, e2 as int, out2);
        if !(e2 == e && out2 == d) {
            assert(!q.contains((e2, out2))) by {
                if q.contains((e2, out2)) {
                    let k = choose|k: int| 0 <= k < q.len() && q[k] == (e2, out2);
                    assert(k != 0);
                    assert(q.drop_first()[k - 1] == q[k]);
                    assert(now[k - 1] == q[k]);
                }
            }
            assert(settled(cur, edges, e2 as int, out2));
        }
        if !shrinked {
            assert(next =~= cur);
            if e2 == e && out2 == d {
                assert forall|v: V| #[trigger] next[fs2 as int].contains(v) implies supported(next, edges, e2 as int, out2, v) by {
                    assert(f.contains(v));
                }
                assert(next[fs2 as int].contains(w));
            }
        } else {
            assert(ss2 != target) by {
                if ss2 == target {
                    assert(added.contains((e2, out2)));
                    let k = choose|k: int| 0 <= k < added.len() && added[k] == (e2, out2);
                    assert(now[q.len() - 1 + k] == added[k]);
                }
            }
            assert(next[ss2 as int] == cur[ss2 as int]);
            if e2 == e && out2 == d {
                assert forall|v: V| #[trigger] next[fs2 as int].contains(v) implies supported(next, edges, e2 as int, out2, v) by {
                    assert(f.contains(v));
                    let x = choose|x: V| #[trigger] cur[ss2 as int].contains(x) && x != v;
                    assert(next[ss2 as int].contains(x));
                }
                assert(next[fs2 as int].contains(w));
            } else {
                assert forall|v: V| #[trigger] next[fs2 as int].contains(v) implies supported(next, edges, e2 as int, out2, v) by {
                    assert(cur[fs2 as int].contains(v));
                    assert(supported(cur, edges, e2 as int, out2, v));
                    let x = choose|x: V| #[trigger] cur[ss2 as int].contains(x) && x != v;
                    assert(next[ss2 as int].contains(x));
                }
                if fs2 == target {
                    assert(next[fs2 as int].contains(w));
                } else {
                    let w2 = choose|v: V| #[trigger] cur[fs2 as int].contains(v);
                    assert(next[fs2 as int].contains(w2));
                }
            }
        }
    }
}

/// Filters the variables along each queued arc, queueing again the arcs that
/// a shrunk variable supports, until no arc is left or a variable runs out
/// of values.
fn ac3<V: Value>(arcs: Vec<(usize, bool)>, variables: &mut Vec<Var<V>>, csp: &Csp<Diff>) -> (r: Result<(), Inconsistency>)
    requires
        edges_within(graph_edges(*csp), old(variables)@.len()),
        forall|k: int| 0 <= k < arcs@.len() ==> (#[trigger] arcs@[k]).0 < graph_edges(*csp).len(),
        settled_but(doms_of(old(variables)@), graph_edges(*csp), arcs@),
    ensures
        narrower(doms_of(final(variables)@), doms_of(old(variables)@)),
        forall|a: Seq<V>| #[trigger] is_solution(a, doms_of(old(variables)@), graph_edges(*csp)) ==> is_solution(
            a,
            doms_of(final(variables)@),
            graph_edges(*csp),
        ),
        r is Err ==> !solvable(doms_of(old(variables)@), graph_edges(*csp)),
        r is Ok ==> all_settled(doms_of(final(variables)@), graph_edges(*csp)),
        r is Ok ==> keeps_values(doms_of(final(variables)@), doms_of(old(variables)@)),
{
    let ghost edges = graph_edges(*csp);
    let ghost d0 = doms_of(variables@);
    proof {
        V::lemma_model();
        lemma_all_finite(variables@);
    }
    let mut queue: VecDeque<(usize, bool)> = VecDeque::new();
    let mut k: usize = 0;
    while k < arcs.len()
        invariant
            k <= arcs@.len(),
            queue@ == arcs@.subrange(0, k as int),
        decreases arcs.len() - k,
    {
        queue.push_back(arcs[k]);
        assert(arcs@.subrange(0, k + 1) =~= arcs@.subrange(0, k as int).push(arcs@[k as int]));
        k += 1;
    }
    assert(arcs@.subrange(0, arcs@.len() as int) =~= arcs@);
    while queue.len() > 0
        invariant
            edges == graph_edges(*csp),
            edges_within(edges, d0.len()),
            obeys_key_model::<V>(),
            d0 == doms_of(old(variables)@),
            variables@.len() == d0.len(),
            narrower(doms_of(variables@), d0),
            all_finite(doms_of(variables@)),
            forall|a: Seq<V>| #[trigger] is_solution(a, d0, edges) ==> is_solution(a, doms_of(variables@), edges),
            forall|k: int| 0 <= k < queue@.len() ==> (#[trigger] queue@[k]).0 < edges.len(),
            settled_but(doms_of(variables@), edges, queue@),
            keeps_values(doms_of(variables@), d0),
        decreases total_size(doms_of(variables@)), queue@.len(),
    {
        let ghost cur = doms_of(variables@);
        let ghost q = queue@;
        let (e, d) = queue.pop_front().unwrap();
        assert(q[0] == (e, d));
        let (target, filtered) = filter_arc(e, d, variables, csp);
        proof {
            lemma_filter_keeps_solutions(d0, cur, edges, e as int, d, filtered@);
        }
        if filtered.is_empty() {
            proof {
                assert forall|a: Seq<V>| !#[trigger] is_solution(a, d0, edges) by {
                    if is_solution(a, d0, edges) {
                        assert(filtered@.contains(a[target as int]));
                    }
                }
            }
            return Err(Inconsistency);
        }
        let shrinked = filtered.len() < variables[target].len();
        let ghost f = filtered@;
        proof {
            assert(f.subset_of(cur[target as int]));
            vstd::set_lib::lemma_len_subset(f, cur[target as int]);
            if !shrinked {
                vstd::set_lib::lemma_subset_equality(f, cur[target as int]);
            }
        }
        variables.set(target, filtered);
        let ghost next = doms_of(variables@);
        proof {
            assert(next =~= cur.update(target as int, f));
            assert(narrower(next, cur));
            lemma_total_narrower(next, cur);
            if shrinked {
                lemma_total_shrink(next, cur, target as int);
            } else {
                assert(next =~= cur);
            }
            assert forall|i: int| 0 <= i < d0.len() && #[trigger] nonempty(d0[i]) implies nonempty(next[i]) by {
                if i == target {
                    assert(nonempty(f));
                } else {
                    assert(nonempty(cur[i]));
                }
            }
        }
        let ghost mut added: Seq<(usize, bool)> = Seq::empty();
        if shrinked {
            let more = two_way_edges(target, csp);
            let mut m: usize = 0;
            let ghost q1 = queue@;
            proof {
                assert forall|k: int| 0 <= k < more@.len() implies (#[trigger] more@[k]).0 < edges.len() by {
                    let (a, b) = more@[k];
                    assert(more@.contains((a, b)));
                }
            }
            while m < more.len()
                invariant
                    m <= more@.len(),
                    queue@ == q1 + more@.subrange(0, m as int),
                    forall|k: int| 0 <= k < more@.len() ==> (#[trigger] more@[k]).0 < edges.len(),
                decreases more.len() - m,
            {
                queue.push_back(more[m]);
                assert(more@.subrange(0, m + 1) =~= more@.subrange(0, m as int).push(more@[m as int]));
                m += 1;
            }
            proof {
                assert(more@.subrange(0, more@.len() as int) =~= more@);
                added = more@;
            }
        }
        proof {
            assert(queue@ =~= q.drop_first() + added);
            lemma_settled_step(cur, next, edges, q, queue@, added, e, d, f, shrinked);
        }
    }
    Ok(())
}

/// Makes every arc of the constraint graph consistent, shrinking the
/// variables' sets of values. The solutions stay the same; `Err` means there
/// is none. On `Ok` every arc is settled, and a variable that had a value
/// still has one.
pub fn ac3_total<V: Value>(variables: &mut Vec<Var<V>>, csp: &Csp<Diff>) -> (r: Result<(), Inconsistency>)
    requires
        edges_within(graph_edges(*csp), old(variables)@.len()),
    ensures
        narrower(doms_of(final(variables)@), doms_of(old(variables)@)),
        forall|a: Seq<V>| #[trigger] is_solution(a, doms_of(old(variables)@), graph_edges(*csp)) <==> is_solution(
            a,
            doms_of(final(variables)@),
            graph_edges(*csp),
        ),
        r is Err ==> !solvable(doms_of(old(variables)@), graph_edges(*csp)),
        r is Ok ==> all_settled(doms_of(final(variables)@), graph_edges(*csp)),
        r is Ok ==> keeps_values(doms_of(final(variables)@), doms_of(old(variables)@)),
{
    let ghost edges = graph_edges(*csp);
    let n = edge_count(csp);
    let mut arcs: Vec<(usize, bool)> = Vec::new();
    let mut e: usize = 0;
    while e < n
        invariant
            e <= n,
            n == edges.len(),
            arcs@.len() == e,
            forall|k: int| 0 <= k < e ==> #[trigger] arcs@[k] == (k as usize, true),
        decreases n - e,
    {
        arcs.push((e, true));
        e += 1;
    }
    let mut e: usize = 0;
    while e < n
        invariant
            e <= n,
            n == edges.len(),
            arcs@.len() == n + e,
            forall|k: int| 0 <= k < n ==> #[trigger] arcs@[k] == (k as usize, true),
            forall|k: int| 0 <= k < e ==> #[trigger] arcs@[n + k] == (k as usize, false),
        decreases n - e,
    {
        arcs.push((e, false));
        e += 1;
    }
    proof {
        assert forall|k: int| 0 <= k < arcs@.len() implies (#[trigger] arcs@[k]).0 < edges.len() by {
            if k >= n {
                assert(arcs@[n + (k - n)] == ((k - n) as usize, false));
            }
        }
        assert forall|e: usize, out: bool| e < edges.len() implies #[trigger] arcs@.contains((e, out)) by {
            if out {
                assert(arcs@[e as int] == (e, true));
            } else {
                assert(arcs@[n + e] == (e, false));
            }
        }
    }
    let ghost d0 = doms_of(variables@);
    let r = ac3(arcs, variables, csp);
    proof {
        let d1 = doms_of(variables@);
        assert forall|a: Seq<V>| #[trigger] is_solution(a, d1, edges) implies is_solution(a, d0, edges) by {
            assert forall|i: int| 0 <= i < a.len() implies #[trigger] d0[i].contains(a[i]) by {
                assert(d1[i].contains(a[i]));
            }
        }
    }
    r
}

/// Every variable has a single value left.
fn complete<V: Value>(variables: &Vec<Var<V>>) -> (r: bool)
    ensures
        r == forall|i: int| 0 <= i < variables@.len() ==> (#[trigger] variables@[i])@.len() == 1,
{
    proof {
        V::lemma_model();
    }
    let mut i: usize = 0;
    while i < variables.len()
        invariant
            i <= variables@.len(),
            obeys_key_model::<V>(),
            forall|k: int| 0 <= k < i ==> (#[trigger] variables@[k])@.len() == 1,
        decreases variables.len() - i,
    {
        if variables[i].len() != 1 {
            return false;
        }
        i += 1;
    }
    true
}

/// The first of the variables with more than one value left that has the
/// fewest of them.
fn select_unassigned<V: Value>(variables: &Vec<Var<V>>) -> (r: usize)
    requires
        exists|i: int| 0 <= i < variables@.len() && (#[trigger] variables@[i])@.len() > 1,
    ensures
        r < variables@.len(),
        variables@[r as int]@.len() > 1,
        forall|i: int| 0 <= i < variables@.len() && (#[trigger] variables@[i])@.len() > 1 ==> variables@[r as int]@.len() <= variables@[i]@.len(),
        forall|i: int| 0 <= i < r && (#[trigger] variables@[i])@.len() > 1 ==> variables@[r as int]@.len() < variables@[i]@.len(),
{
    proof {
        V::lemma_model();
    }
    let mut best: Option<usize> = None;
    let mut i: usize = 0;
    while i < variables.len()
        invariant
            i <= variables@.len(),
            obeys_key_model::<V>(),
            best matches Some(b) ==> b < i && variables@[b as int]@.len() > 1,
            best is None ==> forall|k: int| 0 <= k < i ==> (#[trigger] variables@[k])@.len() <= 1,
            best matches Some(b) ==> forall|k: int| 0 <= k < i && (#[trigger] variables@[k])@.len() > 1 ==> variables@[b as int]@.len() <= variables@[k]@.len(),
            best matches Some(b) ==> forall|k: int| 0 <= k < b && (#[trigger] variables@[k])@.len() > 1 ==> variables@[b as int]@.len() < variables@[k]@.len(),
        decreases variables.len() - i,
    {
        let n = variables[i].len();
        if n > 1 {
            match best {
                None => {
                    best = Some(i);
                },
                Some(b) => {
                    if n < variables[b].len() {
                        best = Some(i);
                    }
                },
            }
        }
        i += 1;
    }
    match best {
        Some(b) => b,
        None => {
            proof {
                let k = choose|k: int| 0 <= k < variables@.len() && (#[trigger] variables@[k])@.len() > 1;
                assert(variables@[k]@.len() <= 1);
            }
            0
        },
    }
}

/// The values left for variable `idx`, in the order to try them.
fn order_domain_values<V: Value>(idx: usize, variables: &Vec<Var<V>>) -> (r: Vec<V>)
    requires
        idx < variables@.len(),
    ensures
        r@.to_set() == variables@[idx as int]@,
        r@.no_duplicates(),
{
    set_values(&variables[idx])
}

/// A copy of the set.
pub(crate) fn copy_set<V: Value>(s: &HashSet<V>) -> (r: HashSet<V>)
    ensures
        r@ == s@,
{
    proof {
        V::lemma_model();
    }
    let vs = set_values(s);
    let mut out: HashSet<V> = HashSet::new();
    let mut i: usize = 0;
    while i < vs.len()
        invariant
            i <= vs@.len(),
            obeys_key_model::<V>(),
            out@ == vs@.subrange(0, i as int).to_set(),
        decreases vs.len() - i,
    {
        out.insert(vs[i]);
        assert(vs@.subrange(0, i + 1).to_set() =~= vs@.subrange(0, i as int).to_set().insert(vs@[i as int])) by {
            assert(vs@.subrange(0, i + 1) =~= vs@.subrange(0, i as int).push(vs@[i as int]));
            vs@.subrange(0, i as int).lemma_push_to_set_commute(vs@[i as int]);
        }
        i += 1;
    }
    assert(vs@.subrange(0, vs@.len() as int) =~= vs@);
    out
}

/// A copy of the variables with variable `idx` given the single value `v`.
fn assign<V: Value>(variables: &Vec<Var<V>>, idx: usize, v: V) -> (r: Vec<Var<V>>)
    requires
        idx < variables@.len(),
    ensures
        doms_of(r@) == doms_of(variables@).update(idx as int, set![v]),
{
    let mut out: Vec<Var<V>> = Vec::new();
    let mut i: usize = 0;
    while i < variables.len()
        invariant
            i <= variables@.len(),
            idx < variables@.len(),
            out@.len() == i,
            forall|k: int| 0 <= k < i ==> (#[trigger] out@[k])@ == (if k == idx { set![v] } else { variables@[k]@ }),
        decreases variables.len() - i,
    {
        if i == idx {
            out.push(singleton(v));
        } else {
            out.push(copy_set(&variables[i]));
        }
        i += 1;
    }
    assert(doms_of(out@) =~= doms_of(variables@).update(idx as int, set![v]));
    out
}

/// Giving variable `idx` one of its values keeps settled every arc that the
/// variable does not support.
proof fn lemma_assign_settled<V>(d: Seq<Set<V>>, upd: Seq<Set<V>>, edges: Seq<(nat, nat)>, idx: int, value: V, arcs: Seq<(usize, bool)>)
    requires
        0 <= idx < d.len(),
        edges_within(edges, d.len()),
        all_settled(d, edges),
        d[idx].contains(value),
        upd == d.update(idx, set![value]),
        forall|e: usize, out: bool| #[trigger] arcs.contains((e, out)) <==> e < edges.len() && support_side(edges, e as int, out) == idx,
    ensures
        settled_but(upd, edges, arcs),
{
    assert forall|e: usize, out: bool| e < edges.len() && !arcs.contains((e, out)) implies #[trigger] settled(upd, edges, e as int, out) by {
        let fs = filtered_side(edges, e as int, out);
        let ss = support_side(edges, e as int, out);
        assert(settled(d, edges, e as int, out));
        assert(ss != idx);
        assert(upd[ss as int] == d[ss as int]);
        assert forall|v: V| #[trigger] upd[fs as int].contains(v) implies supported(upd, edges, e as int, out, v) by {
            assert(d[fs as int].contains(v));
            assert(supported(d, edges, e as int, out, v));
            let x = choose|x: V| #[trigger] d[ss as int].contains(x) && x != v;
            assert(upd[ss as int].contains(x));
        }
        if fs == idx {
            assert(upd[fs as int].contains(value));
        } else {
            let w = choose|v: V| #[trigger] d[fs as int].contains(v);
            assert(upd[fs as int].contains(w));
        }
    }
}

/// A set of one value holds no other.
proof fn lemma_single<V>(s: Set<V>, x: V, y: V)
    requires
        s.finite(),
        s.len() == 1,
        s.contains(x),
        s.contains(y),
    ensures
        x == y,
{
    if x != y {
        assert(s.remove(x).contains(y));
        assert(s.remove(x).len() == 0);
    }
}

/// When every variable has one value left and every arc is settled, these
/// values are a solution.
fn read_assignment<V: Value>(variables: &Vec<Var<V>>, csp: &Csp<Diff>) -> (r: Vec<V>)
    requires
        edges_within(graph_edges(*csp), variables@.len()),
        all_settled(doms_of(variables@), graph_edges(*csp)),
        forall|i: int| 0 <= i < variables@.len() ==> (#[trigger] variables@[i])@.len() == 1,
    ensures
        is_solution(r@, doms_of(variables@), graph_edges(*csp)),
{
    let ghost d = doms_of(variables@);
    let ghost edges = graph_edges(*csp);
    let n = edge_count(csp);
    proof {
        lemma_all_finite(variables@);
    }
    let mut a: Vec<V> = Vec::new();
    let mut i: usize = 0;
    while i < variables.len()
        invariant
            i <= variables@.len(),
            d == doms_of(variables@),
            all_finite(d),
            forall|k: int| 0 <= k < variables@.len() ==> (#[trigger] variables@[k])@.len() == 1,
            a@.len() == i,
            forall|k: int| 0 <= k < i ==> #[trigger] d[k].contains(a@[k]),
        decreases variables.len() - i,
    {
        let vs = set_values(&variables[i]);
        proof {
            vs@.unique_seq_to_set();
            assert(vs@.len() == 1);
            assert(vs@.to_set().contains(vs@[0]));
        }
        a.push(vs[0]);
        i += 1;
    }
    proof {
        assert forall|k: int| 0 <= k < edges.len() implies a@[(#[trigger] edges[k]).0 as int] != a@[edges[k].1 as int] by {
            let s = edges[k].0 as int;
            let t = edges[k].1 as int;
            assert(settled(d, edges, (k as usize) as int, true));
            assert(d[t].contains(a@[t]));
            assert(supported(d, edges, k, true, a@[t]));
            let x = choose|x: V| #[trigger] d[s].contains(x) && x != a@[t];
            lemma_single(d[s], x, a@[s]);
        }
    }
    a
}

/// Tries the values of the variable with the fewest left in turn, keeping
/// the arcs consistent after each choice, until every variable has one
/// value; `Err` when no choice leads to a solution.
fn backtrack<V: Value>(variables: Vec<Var<V>>, csp: &Csp<Diff>) -> (r: Result<Vec<V>, Inconsistency>)
    requires
        variables@.len() <= u32::MAX,
        edges_within(graph_edges(*csp), variables@.len()),
        all_settled(doms_of(variables@), graph_edges(*csp)),
        forall|i: int| 0 <= i < variables@.len() ==> #[trigger] nonempty(doms_of(variables@)[i]),
    ensures
        r matches Ok(a) ==> is_solution(a@, doms_of(variables@), graph_edges(*csp)),
        r is Err ==> !solvable(doms_of(variables@), graph_edges(*csp)),
    decreases total_size(doms_of(variables@)),
{
    let ghost d = doms_of(variables@);
    let ghost edges = graph_edges(*csp);
    proof {
        lemma_all_finite(variables@);
    }
    if complete(&variables) {
        let a = read_assignment(&variables, csp);
        return Ok(a);
    }
    proof {
        let k = choose|k: int| 0 <= k < variables@.len() && (#[trigger] variables@[k])@.len() != 1;
        assert(nonempty(d[k]));
        let w = choose|v: V| d[k].contains(v);
        vstd::set_lib::lemma_len_subset(set![w], d[k]);
        assert(set![w].len() == 1);
        assert(variables@[k]@.len() > 1);
    }
    let idx = select_unassigned(&variables);
    let values = order_domain_values(idx, &variables);
    let mut i: usize = 0;
    while i < values.len()
        invariant
            i <= values@.len(),
            idx < variables@.len(),
            variables@.len() <= u32::MAX,
            d == doms_of(variables@),
            edges == graph_edges(*csp),
            edges_within(edges, d.len()),
            all_settled(d, edges),
            forall|j: int| 0 <= j < d.len() ==> #[trigger] nonempty(d[j]),
            all_finite(d),
            values@.to_set() == d[idx as int],
            variables@[idx as int]@.len() > 1,
            forall|k: int, a: Seq<V>| 0 <= k < i && #[trigger] is_solution(a, d, edges) ==> a[idx as int] != #[trigger] values@[k],
        decreases values.len() - i,
    {
        let value = values[i];
        proof {
            assert(values@.to_set().contains(value));
        }
        let mut updated = assign(&variables, idx, value);
        let ghost upd0 = doms_of(updated@);
        let arcs = two_way_edges(idx, csp);
        proof {
            lemma_assign_settled(d, upd0, edges, idx as int, value, arcs@);
            assert forall|k: int| 0 <= k < arcs@.len() implies (#[trigger] arcs@[k]).0 < edges.len() by {
                let (a, b) = arcs@[k];
                assert(arcs@.contains((a, b)));
            }
            assert forall|a: Seq<V>| #[trigger] is_solution(a, d, edges) && a[idx as int] == value implies is_solution(a, upd0, edges) by {
                assert forall|j: int| 0 <= j < a.len() implies #[trigger] upd0[j].contains(a[j]) by {
                    assert(d[j].contains(a[j]));
                }
            }
            assert(narrower(upd0, d)) by {
                assert forall|j: int| 0 <= j < d.len() implies (#[trigger] upd0[j]).subset_of(d[j]) by {}
            }
            assert forall|a: Seq<V>| #[trigger] is_solution(a, upd0, edges) implies is_solution(a, d, edges) by {
                assert forall|j: int| 0 <= j < a.len() implies #[trigger] d[j].contains(a[j]) by {
                    assert(upd0[j].contains(a[j]));
                }
            }
        }
        match ac3(arcs, &mut updated, csp) {
            Ok(()) => {
                let ghost upd1 = doms_of(updated@);
                proof {
                    lemma_total_narrower(upd1, upd0);
                    lemma_total_shrink(upd0, d, idx as int);
                    vstd::set_lib::lemma_len_subset(set![value], d[idx as int]);
                    assert forall|j: int| 0 <= j < upd1.len() implies #[trigger] nonempty(upd1[j]) by {
                        if j == idx {
                            assert(upd0[j].contains(value));
                        } else {
                            assert(nonempty(d[j]));
                        }
                        assert(nonempty(upd0[j]));
                    }
                }
                match backtrack(updated, csp) {
                    Ok(a) => {
                        proof {
                            assert forall|j: int| 0 <= j < a@.len() implies #[trigger] d[j].contains(a@[j]) by {
                                assert(upd1[j].contains(a@[j]));
                                assert(upd0[j].contains(a@[j]));
                            }
                        }
                        return Ok(a);
                    },
                    Err(_) => {
                        proof {
                            assert forall|a: Seq<V>| #[trigger] is_solution(a, d, edges) implies a[idx as int] != value by {
                                if a[idx as int] == value {
                                    assert(is_solution(a, upd0, edges));
                                    assert(is_solution(a, upd1, edges));
                                }
                            }
                        }
                    },
                }
            },
            Err(_) => {
                proof {
                    assert forall|a: Seq<V>| #[trigger] is_solution(a, d, edges) implies a[idx as int] != value by {
                        if a[idx as int] == value {
                            assert(is_solution(a, upd0, edges));
                        }
                    }
                }
            },
        }
        i += 1;
    }
    proof {
        assert forall|a: Seq<V>| !#[trigger] is_solution(a, d, edges) by {
            if is_solution(a, d, edges) {
                assert(d[idx as int].contains(a[idx as int]));
                assert(values@.to_set().contains(a[idx as int]));
                let k = choose|k: int| 0 <= k < values@.len() && values@[k] == a[idx as int];
                assert(a[idx as int] != values@[k]);
            }
        }
    }
    Err(Inconsistency)
}

/// A solution of the constraint satisfaction problem: each variable gets a
/// value of its set, and the two ends of each edge get different values;
/// `Err` when there is none. A variable without values must be the end of
/// some edge.
pub fn backtracking_search<V: Value>(variables: Vec<Var<V>>, csp: &Csp<Diff>) -> (r: Result<Vec<V>, Inconsistency>)
    requires
        variables@.len() <= u32::MAX,
        edges_within(graph_edges(*csp), variables@.len()),
        forall|i: int| 0 <= i < variables@.len() && !#[trigger] nonempty(doms_of(variables@)[i]) ==> exists|k: int|
            0 <= k < graph_edges(*csp).len() && (graph_edges(*csp)[k].0 == i || graph_edges(*csp)[k].1 == i),
    ensures
        r matches Ok(a) ==> is_solution(a@, doms_of(variables@), graph_edges(*csp)),
        r is Err <==> !solvable(doms_of(variables@), graph_edges(*csp)),
{
    let ghost d0 = doms_of(variables@);
    let ghost edges = graph_edges(*csp);
    let mut variables = variables;
    let n = edge_count(csp);
    match ac3_total(&mut variables, csp) {
        Ok(()) => {},
        Err(e) => {
            return Err(e);
        },
    }
    let ghost d1 = doms_of(variables@);
    proof {
        assert forall|i: int| 0 <= i < variables@.len() implies #[trigger] nonempty(d1[i]) by {
            if !nonempty(d0[i]) {
                let k = choose|k: int| 0 <= k < edges.len() && (edges[k].0 == i || edges[k].1 == i);
                if edges[k].1 == i {
                    assert(settled(d1, edges, (k as usize) as int, true));
                } else {
                    assert(settled(d1, edges, (k as usize) as int, false));
                }
            }
        }
    }
    let r = backtrack(variables, csp);
    proof {
        if r is Ok {
            let a = r->Ok_0;
            assert(is_solution(a@, d0, edges));
        }
    }
    r
}

} // verus!
