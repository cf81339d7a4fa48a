//! A* shortest-path resolver over a built grid graph.
//!
//! The frontier is ordered by `f = g + h` with the Manhattan distance to the
//! end field as heuristic; ties fall to the lower `h` and then to discovery
//! order, so the result is deterministic. The returned sequence runs from
//! the end point back to the start point (backtracked order, no reversal).

use vstd::prelude::*;

use crate::grid::{graph_edge, graph_wf, point_of, points_of, Graph, Point};
use crate::tally::{count_true, fill_bool, fill_usize, lemma_count_all_false, lemma_count_true_le_len, lemma_count_true_set};
use crate::NoPathFoundError;

verus! {

/// A forward chain of adjacency edges leading from `a` to `b`.
pub open spec fn forward_chain_ok(g: Graph, t: Seq<usize>, a: usize, b: usize) -> bool {
    &&& t.len() >= 1
    &&& t[0] == a
    &&& t[t.len() - 1] == b
    &&& forall|k: int| 0 <= k && k + 1 < t.len() ==> graph_edge(g, #[trigger] t[k], t[k + 1])
}

/// The end field is reachable from the start field over adjacency edges.
pub open spec fn connected(g: Graph, a: usize, b: usize) -> bool {
    exists|t: Seq<usize>| forward_chain_ok(g, t, a, b)
}

/// A path as the resolver reports it: from the end field back to the start
/// field, every consecutive pair joined by an adjacency edge pointing toward
/// the end, all indices in bounds, and no field repeated.
pub open spec fn backtracked_path_ok(g: Graph, size: int, start: usize, end: usize, t: Seq<usize>) -> bool {
    &&& t.len() >= 1
    &&& t[0] == end
    &&& t[t.len() - 1] == start
    &&& forall|k: int| 0 <= k < t.len() ==> (#[trigger] t[k]) < size * size
    &&& forall|k: int| 0 <= k && k + 1 < t.len() ==> graph_edge(g, t[k + 1], #[trigger] t[k])
    &&& forall|a: int, b: int| 0 <= a < b < t.len() ==> t[a] != t[b]
}

/// Removing one entry of a duplicate-free sequence keeps the others, keeps
/// them duplicate-free, and adds nothing.
proof fn lemma_remove_keeps(s: Seq<usize>, i: int)
    requires
        0 <= i < s.len(),
        forall|a: int, b: int| 0 <= a < b < s.len() ==> s[a] != s[b],
    ensures
        forall|a: int, b: int| 0 <= a < b < s.remove(i).len() ==> s.remove(i)[a] != s.remove(i)[b],
        forall|x: usize| s.contains(x) && x != s[i] ==> #[trigger] s.remove(i).contains(x),
        forall|x: usize| #[trigger] s.remove(i).contains(x) ==> s.contains(x) && x != s[i],
{
    let rem = s.remove(i);
    assert(forall|j: int| 0 <= j < i ==> rem[j] == s[j]);
    assert(forall|j: int| i <= j < rem.len() ==> rem[j] == s[j + 1]);
    assert forall|x: usize| s.contains(x) && x != s[i] implies #[trigger] rem.contains(x) by {
        let j = choose|j: int| 0 <= j < s.len() && s[j] == x;
        if j < i {
            assert(rem[j] == x);
        } else {
            assert(rem[j - 1] == x);
        }
    }
    assert forall|x: usize| #[trigger] rem.contains(x) implies s.contains(x) && x != s[i] by {
        let j = choose|j: int| 0 <= j < rem.len() && rem[j] == x;
        if j < i {
            assert(s[j] == x);
        } else {
            assert(s[j + 1] == x);
        }
    }
}

/// Along a forward chain that starts at a marked field, every field stays
/// marked whenever the marking is closed under adjacency edges.
proof fn lemma_chain_stays_marked(g: Graph, n2: int, marked: Seq<bool>, t: Seq<usize>, a: usize, b: usize)
    requires
        marked.len() == n2,
        a < n2,
        marked[a as int],
        forward_chain_ok(g, t, a, b),
        forall|v: usize, w: usize|
            v < n2 && marked[v as int] && #[trigger] graph_edge(g, v, w) ==> w < n2 && marked[w as int],
    ensures
        b < n2,
        marked[b as int],
    decreases t.len(),
{
    if t.len() == 1 {
        assert(b == a);
    } else {
        assert(graph_edge(g, t[0], t[1]));
        let t2 = t.subrange(1, t.len() as int);
        assert(t2[t2.len() - 1] == t[t.len() - 1]);
        assert forall|k: int| 0 <= k && k + 1 < t2.len() implies graph_edge(
            g,
            #[trigger] t2[k],
            t2[k + 1],
        ) by {
            assert(t2[k] == t[k + 1]);
            assert(t2[k + 1] == t[k + 2]);
            assert(graph_edge(g, t[k + 1], t[k + 2]));
        }
        lemma_chain_stays_marked(g, n2, marked, t2, t[1], b);
    }
}

/// The Manhattan distance between the fields `v` and `end`, as the frontier
/// heuristic. Returned widened so that `g + h` can never overflow.
fn heur(graph: &Graph, size: usize, end: usize, v: usize) -> (h: u128)
    requires
        graph_wf(*graph, size as int),
        v < size * size,
        end < size * size,
    ensures
        h <= 2 * (usize::MAX as u128),
{
    let fv = graph.fields[v];
    let fe = graph.fields[end];
    let dx = if fv.x >= fe.x {
        fv.x - fe.x
    } else {
        fe.x - fv.x
    };
    let dy = if fv.y >= fe.y {
        fv.y - fe.y
    } else {
        fe.y - fv.y
    };
    dx as u128 + dy as u128
}

/// Computes one shortest path from the start field to the end field and
/// returns it in backtracked order: end point first, start point last.
///
/// Returns `Ok` exactly when the end field is reachable from the start
/// field; the path is then simple, runs over adjacency edges, and is mapped
/// to resolved points. Returns `NoPathFoundError` exactly when no chain of
/// adjacency edges connects the two.
#[verifier::rlimit(100)]
pub fn find_shortest_path(graph: &Graph, size: usize, start: usize, end: usize) -> (res: Result<
    Vec<Point>,
    NoPathFoundError,
>)
    requires
        graph_wf(*graph, size as int),
        start < size * size,
        end < size * size,
    ensures
        match res {
            Ok(p) => connected(*graph, start, end) && exists|t: Seq<usize>|
                #[trigger] backtracked_path_ok(*graph, size as int, start, end, t) && p@
                    == points_of(size as int, t),
            Err(_) => !connected(*graph, start, end),
        },
{
    let ghost sz = size as int;
    let n2 = graph.fields.len();
    let mut seen = fill_bool(n2, false);
    let mut closed = fill_bool(n2, false);
    let mut gval = fill_usize(n2, 0);
    let mut pred = fill_usize(n2, 0);
    let mut open: Vec<usize> = Vec::new();
    seen.set(start, true);
    open.push(start);
    proof {
        let blank = Seq::new(n2 as nat, |i: int| false);
        assert(count_true(seen@) == count_true(blank.update(start as int, true))) by {
            assert(seen@ =~= blank.update(start as int, true));
        }
        lemma_count_true_set(blank, start as int);
        lemma_count_all_false(n2 as nat);
        lemma_count_true_le_len(closed@);
        assert(open@.len() == 1 && open@[0] == start);
        assert forall|v: int| 0 <= v < n2 && #[trigger] seen@[v] && !closed@[v] implies
            open@.contains(v as usize) by {
            assert(v == start);
            assert(open@[0] == v as usize);
        }
    }

    while open.len() > 0
        invariant
            graph_wf(*graph, sz),
            sz == size as int,
            n2 == size * size,
            start < n2,
            end < n2,
            seen@.len() == n2,
            closed@.len() == n2,
            gval@.len() == n2,
            pred@.len() == n2,
            seen@[start as int],
            !closed@[end as int],
            count_true(closed@) <= n2,
            forall|v: int| 0 <= v < n2 && #[trigger] closed@[v] ==> seen@[v],
            forall|k: int|
                0 <= k < open@.len() ==> (#[trigger] open@[k]) < n2 && seen@[open@[k] as int]
                    && !closed@[open@[k] as int],
            forall|a: int, b: int| 0 <= a < b < open@.len() ==> open@[a] != open@[b],
            forall|v: int|
                0 <= v < n2 && #[trigger] seen@[v] && !closed@[v] ==> open@.contains(v as usize),
            forall|v: int| 0 <= v < n2 && #[trigger] seen@[v] ==> gval@[v] < count_true(seen@),
            forall|v: int|
                0 <= v < n2 && #[trigger] seen@[v] && v != start ==> pred@[v] < n2
                    && seen@[pred@[v] as int] && closed@[pred@[v] as int] && gval@[v] == gval@[pred@[v] as int]
                    + 1 && graph_edge(*graph, pred@[v], v as usize),
            forall|v: int, k: int|
                0 <= v < n2 && closed@[v] && 0 <= k < graph.adjacency@[v]@.len()
                    ==> seen@[#[trigger] graph.adjacency@[v]@[k] as int],
        decreases n2 - count_true(closed@),
    {
        // Select the frontier entry with the least f, ties broken by least h
        // and then by discovery order.
        let mut besti: usize = 0;
        let first = open[0];
        let mut bestf: u128 = gval[first] as u128 + heur(graph, size, end, first);
        let mut besth: u128 = heur(graph, size, end, first);
        let mut k: usize = 1;
        while k < open.len()
            invariant
                graph_wf(*graph, sz),
                sz == size as int,
                n2 == size * size,
                end < n2,
                gval@.len() == n2,
                forall|j: int|
                    0 <= j < open@.len() ==> (#[trigger] open@[j]) < n2,
                open@.len() > 0,
                k <= open@.len(),
                besti < k,
            decreases open@.len() - k,
        {
            let cand = open[k];
            let h = heur(graph, size, end, cand);
            let f = gval[cand] as u128 + h;
            if f < bestf || (f == bestf && h < besth) {
                besti = k;
                bestf = f;
                besth = h;
            }
            k = k + 1;
        }

        let ghost old_open = open@;
        let u = open.remove(besti);
        proof {
            lemma_remove_keeps(old_open, besti as int);
        }

        if u == end {
            // Reconstruct the path by following predecessor links from the
            // end back to the start.
            let mut t: Vec<usize> = Vec::new();
            let mut cur = end;
            t.push(cur);
            while cur != start
                invariant
                    graph_wf(*graph, sz),
                    sz == size as int,
                    n2 == size * size,
                    start < n2,
                    end < n2,
                    seen@.len() == n2,
                    gval@.len() == n2,
                    pred@.len() == n2,
                    cur < n2,
                    seen@[cur as int],
                    t@.len() >= 1,
                    t@[0] == end,
                    t@[t@.len() - 1] == cur,
                    forall|j: int| 0 <= j < t@.len() ==> (#[trigger] t@[j]) < n2 && seen@[t@[j] as int],
                    forall|j: int| 0 <= j && j + 1 < t@.len() ==> graph_edge(*graph, t@[j + 1], #[trigger] t@[j]),
                    forall|j: int|
                        0 <= j < t@.len() ==> gval@[#[trigger] t@[j] as int] == gval@[cur as int] + (
                        t@.len() - 1 - j),
                    forall|v: int|
                        0 <= v < n2 && #[trigger] seen@[v] && v != start ==> pred@[v] < n2
                            && seen@[pred@[v] as int] && gval@[v] == gval@[pred@[v] as int] + 1
                            && graph_edge(*graph, pred@[v], v as usize),
                decreases gval@[cur as int],
            {
                let p = pred[cur];
                t.push(p);
                cur = p;
            }
            proof {
                assert forall|a: int, b: int| 0 <= a < b < t@.len() implies t@[a] != t@[b] by {
                    assert(gval@[t@[a] as int] != gval@[t@[b] as int]);
                }
                assert(backtracked_path_ok(*graph, sz, start, end, t@));
            }
            let mut path: Vec<Point> = Vec::new();
            let mut j: usize = 0;
            while j < t.len()
                invariant
                    graph_wf(*graph, sz),
                    sz == size as int,
                    n2 == size * size,
                    j <= t@.len(),
                    path@.len() == j,
                    forall|i: int| 0 <= i < t@.len() ==> (#[trigger] t@[i]) < n2,
                    forall|i: int| 0 <= i < j ==> path@[i] == point_of(sz, t@[i] as int),
                decreases t@.len() - j,
            {
                let idx = t[j];
                let f = graph.fields[idx];
                path.push(Point { x: Some(f.x), y: Some(f.y) });
                j = j + 1;
            }
            proof {
                assert(path@ =~= points_of(sz, t@));
                let rev = Seq::new(t@.len(), |i: int| t@[t@.len() - 1 - i]);
                assert(rev[0] == start);
                assert(rev[rev.len() - 1] == end);
                assert forall|i: int| 0 <= i && i + 1 < rev.len() implies graph_edge(
                    *graph,
                    #[trigger] rev[i],
                    rev[i + 1],
                ) by {
                    let kk = t@.len() - 2 - i;
                    assert(rev[i] == t@[kk + 1]);
                    assert(rev[i + 1] == t@[kk]);
                }
                assert(forward_chain_ok(*graph, rev, start, end));
                assert(connected(*graph, start, end));
            }
            return Ok(path);
        }

        let ghost closed_before = closed@;
        closed.set(u, true);
        proof {
            lemma_count_true_set(closed_before, u as int);
            lemma_count_true_le_len(closed@);
        }
        let gu = gval[u];
        proof {
            lemma_count_true_le_len(seen@);
        }
        let ng = gu + 1;
        let deg = graph.adjacency[u].len();
        let mut j: usize = 0;
        while j < deg
            invariant
                graph_wf(*graph, sz),
                sz == size as int,
                n2 == size * size,
                start < n2,
                end < n2,
                u < n2,
                u != end,
                seen@.len() == n2,
                closed@.len() == n2,
                gval@.len() == n2,
                pred@.len() == n2,
                deg == graph.adjacency@[u as int]@.len(),
                j <= deg,
                seen@[start as int],
                seen@[u as int],
                closed@[u as int],
                !closed@[end as int],
                count_true(closed@) <= n2,
                gu == gval@[u as int],
                ng == gu + 1,
                gu < count_true(seen@),
                count_true(seen@) <= n2,
                forall|v: int| 0 <= v < n2 && #[trigger] closed@[v] ==> seen@[v],
                forall|k: int|
                    0 <= k < open@.len() ==> (#[trigger] open@[k]) < n2 && seen@[open@[k] as int]
                        && !closed@[open@[k] as int],
                forall|a: int, b: int| 0 <= a < b < open@.len() ==> open@[a] != open@[b],
                forall|v: int|
                    0 <= v < n2 && #[trigger] seen@[v] && !closed@[v] ==> open@.contains(v as usize),
                forall|v: int| 0 <= v < n2 && #[trigger] seen@[v] ==> gval@[v] < count_true(seen@),
                forall|v: int|
                    0 <= v < n2 && #[trigger] seen@[v] && v != start ==> pred@[v] < n2
                        && seen@[pred@[v] as int] && closed@[pred@[v] as int] && gval@[v] == gval@[pred@[v] as int]
                        + 1 && graph_edge(*graph, pred@[v], v as usize),
                forall|v: int, k: int|
                    0 <= v < n2 && closed@[v] && 0 <= k < graph.adjacency@[v]@.len() && !(v == u
                        && j <= k) ==> seen@[#[trigger] graph.adjacency@[v]@[k] as int],
            decreases deg - j,
        {
            let v = graph.adjacency[u][j];
            assert(graph_edge(*graph, u, v)) by {
                assert(graph.adjacency@[u as int]@[j as int] == v);
            }
            if !seen[v] {
                let ghost seen_before = seen@;
                let ghost open_before = open@;
                seen.set(v, true);
                gval.set(v, ng);
                pred.set(v, u);
                open.push(v);
                proof {
                    lemma_count_true_set(seen_before, v as int);
                    lemma_count_true_le_len(seen@);
                    assert(gu < count_true(seen@));
                    assert(forall|k: int|
                        0 <= k < open_before.len() ==> (#[trigger] open_before[k]) != v);
                    assert forall|a: int, b: int| 0 <= a < b < open@.len() implies open@[a]
                        != open@[b] by {
                        if b < open@.len() - 1 {
                            assert(open_before[a] != open_before[b]);
                        } else {
                            assert(open@[a] == open_before[a]);
                        }
                    }
                    assert forall|w: int|
                        0 <= w < n2 && #[trigger] seen@[w] && !closed@[w] implies open@.contains(
                        w as usize,
                    ) by {
                        if w == v {
                            assert(open@[open@.len() - 1] == v);
                        } else {
                            assert(open_before.contains(w as usize));
                            let k = choose|k: int|
                                0 <= k < open_before.len() && open_before[k] == w as usize;
                            assert(open@[k] == w as usize);
                        }
                    }
                }
            } else {
                if !closed[v] {
                    if ng < gval[v] {
                        gval.set(v, ng);
                        pred.set(v, u);
                    }
                }
            }
            j = j + 1;
        }
    }

    // The frontier is exhausted: every discovered field is closed, so the
    // discovered set is closed under adjacency edges and the end field was
    // never discovered.
    proof {
        assert(!seen@[end as int]);
        assert forall|v: usize, w: usize|
            v < n2 && seen@[v as int] && #[trigger] graph_edge(*graph, v, w) implies w < n2
            && seen@[w as int] by {
            assert(closed@[v as int]);
            let row = graph.adjacency@[v as int]@;
            let k = choose|k: int| 0 <= k < row.len() && row[k] == w;
            assert(graph.adjacency@[v as int]@[k] == w);
        }
        assert(!connected(*graph, start, end)) by {
            if connected(*graph, start, end) {
                let t = choose|t: Seq<usize>| forward_chain_ok(*graph, t, start, end);
                lemma_chain_stays_marked(*graph, n2 as int, seen@, t, start, end);
            }
        }
    }
    Err(NoPathFoundError)
}

} // verus!
