//! Map colouring as a constraint satisfaction problem: a variable per region
//! and a difference constraint along each border.

use vstd::prelude::*;
use super::{Var, Diff, copy_set};
use super::graph::{Csp, graph_edges, graph_order, csp_new, add_node, node_count, edge_count, edge_endpoints, extend_with_edges, order_with};

verus! {

/// The colouring of a map of `nodes` regions with `colors` colours, each
/// pair of `edges` a border: the graph gets the regions, then the borders,
/// with a region added for an endpoint beyond them; every region may take
/// the colours 0 to `colors` - 1.
pub fn map_init(nodes: u32, colors: u32, edges: &[(u32, u32)]) -> (r: (Vec<Var<u32>>, Csp<Diff>))
    requires
        forall|k: int| 0 <= k < edges@.len() ==> (#[trigger] edges@[k]).0 < u32::MAX && edges@[k].1 < u32::MAX,
        edges@.len() < u32::MAX,
    ensures
        graph_order(r.1) == order_with(edges@, edges@.len(), nodes as nat),
        graph_edges(r.1) == edges@.map_values(|e: (u32, u32)| (e.0 as nat, e.1 as nat)),
        r.0@.len() == graph_order(r.1),
        forall|i: int| 0 <= i < r.0@.len() ==> (#[trigger] r.0@[i])@ == Set::new(|c: u32| c < colors),
{
    let mut csp = csp_new();
    let mut k: u32 = 0;
    while k < nodes
        invariant
            k <= nodes,
            graph_order(csp) == k,
            graph_edges(csp) == Seq::<(nat, nat)>::empty(),
        decreases nodes - k,
    {
        add_node(&mut csp);
        k += 1;
    }
    extend_with_edges(&mut csp, edges);
    proof {
        assert(Seq::<(nat, nat)>::empty() + edges@.map_values(|e: (u32, u32)| (e.0 as nat, e.1 as nat)) =~= edges@.map_values(
            |e: (u32, u32)| (e.0 as nat, e.1 as nat),
        ));
    }
    let domain = all_colors(colors);
    let n = node_count(&csp);
    let mut vars: Vec<Var<u32>> = Vec::new();
    let mut i: usize = 0;
    while i < n
        invariant
            i <= n,
            vars@.len() == i,
            domain@ == Set::new(|c: u32| c < colors),
            forall|j: int| 0 <= j < i ==> (#[trigger] vars@[j])@ == Set::new(|c: u32| c < colors),
        decreases n - i,
    {
        vars.push(copy_set(&domain));
        i += 1;
    }
    (vars, csp)
}

/// The colours 0 to `colors` - 1.
fn all_colors(colors: u32) -> (r: Var<u32>)
    ensures
        r@ == Set::new(|c: u32| c < colors),
{
    let mut s: Var<u32> = std::collections::HashSet::new();
    let mut c: u32 = 0;
    while c < colors
        invariant
            c <= colors,
            s@ == Set::new(|x: u32| x < c),
        decreases colors - c,
    {
        s.insert(c);
        assert(s@ =~= Set::new(|x: u32| x < c + 1));
        c += 1;
    }
    assert(s@ =~= Set::new(|x: u32| x < colors));
    s
}

/// A border is kept if its two regions, when both are coloured, differ.
pub open spec fn border_kept(solution: Seq<u32>, edge: (nat, nat)) -> bool {
    (edge.0 < solution.len() && edge.1 < solution.len()) ==> solution[edge.0 as int] != solution[edge.1 as int]
}

/// Every border is kept.
pub open spec fn proper(solution: Seq<u32>, edges: Seq<(nat, nat)>) -> bool {
    forall|e: int| 0 <= e < edges.len() ==> #[trigger] border_kept(solution, edges[e])
}

/// Whether the colouring keeps every border of the map: regions not yet
/// coloured are not checked.
pub fn valid(solution: &[u32], map: &Csp<Diff>) -> (r: bool)
    ensures
        r == proper(solution@, graph_edges(*map)),
{
    let m = edge_count(map);
    let mut e: usize = 0;
    while e < m
        invariant
            e <= m,
            m == graph_edges(*map).len(),
            forall|k: int| 0 <= k < e ==> #[trigger] border_kept(solution@, graph_edges(*map)[k]),
        decreases m - e,
    {
        let (a, b) = edge_endpoints(map, e);
        if a < solution.len() && b < solution.len() && solution[a] == solution[b] {
            assert(!border_kept(solution@, graph_edges(*map)[e as int]));
            return false;
        }
        e += 1;
    }
    true
}

/// `colors` to the power `k`: the ways to colour `k` regions.
pub open spec fn ways(colors: nat, k: nat) -> nat
    decreases k,
{
    if k == 0 {
        1
    } else {
        colors * ways(colors, (k - 1) as nat)
    }
}

/// The colourings of the first `n` regions that start with `partial`, take
/// colours below `colors`, and keep every border.
pub open spec fn completions(partial: Seq<u32>, colors: nat, edges: Seq<(nat, nat)>, n: nat) -> nat
    decreases n - partial.len(), colors + 1,
{
    if partial.len() >= n {
        if proper(partial, edges) {
            1
        } else {
            0
        }
    } else {
        completions_below(partial, colors, colors, edges, n)
    }
}

/// The completions of `partial` whose next colour is below `c`.
pub open spec fn completions_below(partial: Seq<u32>, c: nat, colors: nat, edges: Seq<(nat, nat)>, n: nat) -> nat
    decreases n - partial.len(), c,
{
    if c == 0 || partial.len() >= n {
        0
    } else {
        completions_below(partial, (c - 1) as nat, colors, edges, n) + completions(
            partial.push((c - 1) as u32),
            colors,
            edges,
            n,
        )
    }
}

/// No more completions than ways to colour the regions left.
proof fn lemma_completions_bound(partial: Seq<u32>, colors: nat, edges: Seq<(nat, nat)>, n: nat)
    requires
        partial.len() <= n,
    ensures
        completions(partial, colors, edges, n) <= ways(colors, (n - partial.len()) as nat),
    decreases n - partial.len(), colors + 1,
{
    if partial.len() < n {
        lemma_below_bound(partial, colors, colors, edges, n);
    }
}

proof fn lemma_below_bound(partial: Seq<u32>, c: nat, colors: nat, edges: Seq<(nat, nat)>, n: nat)
    requires
        partial.len() < n,
    ensures
        completions_below(partial, c, colors, edges, n) <= c * ways(colors, (n - partial.len() - 1) as nat),
    decreases n - partial.len(), c,
{
    if c > 0 {
        lemma_below_bound(partial, (c - 1) as nat, colors, edges, n);
        lemma_completions_bound(partial.push((c - 1) as u32), colors, edges, n);
        let w = ways(colors, (n - partial.len() - 1) as nat);
        assert((c - 1) * w + w == c * w) by (nonlinear_arith);
    }
}

/// The number of colourings of all the regions of `map` that start with
/// `partial`, take colours below `colors` and keep every border; `partial`
/// is left as it was.
pub fn count_solutions(partial: &mut Vec<u32>, colors: u32, map: &Csp<Diff>) -> (r: u32)
    requires
        old(partial)@.len() <= graph_order(*map),
        ways(colors as nat, (graph_order(*map) - old(partial)@.len()) as nat) <= u32::MAX,
    ensures
        final(partial)@ == old(partial)@,
        r == completions(old(partial)@, colors as nat, graph_edges(*map), graph_order(*map)),
    decreases graph_order(*map) - old(partial)@.len(),
{
    let n = node_count(map);
    if partial.len() == n {
        if valid(partial.as_slice(), map) {
            1
        } else {
            0
        }
    } else {
        let ghost p0 = partial@;
        let ghost rest = (n - p0.len() - 1) as nat;
        proof {
            lemma_below_bound(p0, colors as nat, colors as nat, graph_edges(*map), n as nat);
            assert(ways(colors as nat, (n - p0.len()) as nat) == colors * ways(colors as nat, rest));
        }
        let mut count: u32 = 0;
        let mut color: u32 = 0;
        while color < colors
            invariant
                color <= colors,
                partial@ == p0,
                p0 == old(partial)@,
                n == graph_order(*map),
                p0.len() < n,
                rest == n - p0.len() - 1,
                colors * ways(colors as nat, rest) <= u32::MAX,
                count == completions_below(p0, color as nat, colors as nat, graph_edges(*map), n as nat),
            decreases colors - color,
        {
            partial.push(color);
            proof {
                lemma_below_bound(p0, (color + 1) as nat, colors as nat, graph_edges(*map), n as nat);
                let w = ways(colors as nat, rest);
                assert((color + 1) * w <= colors * w) by (nonlinear_arith)
                    requires
                        color + 1 <= colors,
                {
                }
                assert(w <= colors * w) by (nonlinear_arith)
                    requires
                        colors >= 1,
                {
                }
                assert(ways(colors as nat, (n - partial@.len()) as nat) == w);
            }
            let sub = count_solutions(partial, colors, map);
            partial.pop();
            proof {
                assert(partial@ =~= p0);
            }
            count = count + sub;
            color += 1;
        }
        count
    }
}

} // verus!
