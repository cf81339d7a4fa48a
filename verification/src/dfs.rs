//! Exhaustive enumerator of all simple paths between the start and end
//! fields, by depth-first traversal.
//!
//! Every recorded path is emitted from the field immediately preceding the
//! end field back to the start field, excluding the end field itself; the
//! paths come in depth-first branch order over the fixed neighbour order of
//! the adjacency rows.

use vstd::prelude::*;

use crate::a_star::{connected, forward_chain_ok};
use crate::grid::{graph_edge, graph_wf, point_of, points_of, Graph, Point};
use crate::tally::{count_true, fill_bool, lemma_count_true_le_len, lemma_count_true_set};

verus! {

/// An index sequence as the enumerator records it: every consecutive pair
/// joined by an adjacency edge pointing toward the end, the first entry
/// adjacent to the end field, the last entry the start field, the end field
/// itself excluded, and no field repeated. An empty record stands for the
/// degenerate search whose start is the end.
pub open spec fn recorded_chain_ok(
    g: Graph,
    size: int,
    start: usize,
    end: usize,
    t: Seq<usize>,
) -> bool {
    &&& forall|k: int| 0 <= k < t.len() ==> (#[trigger] t[k]) < size * size
    &&& forall|k: int| 0 <= k && k + 1 < t.len() ==> graph_edge(g, t[k + 1], #[trigger] t[k])
    &&& (t.len() > 0 ==> t[t.len() - 1] == start)
    &&& (t.len() > 0 ==> graph_edge(g, t[0], end))
    &&& (t.len() == 0 ==> start == end)
    &&& forall|a: int, b: int| 0 <= a < b < t.len() ==> t[a] != t[b]
    &&& !t.contains(end)
}

/// A recorded point path is the point image of some valid recorded index
/// sequence.
pub open spec fn recorded_path(g: Graph, size: int, start: usize, end: usize, q: Seq<Point>) -> bool {
    exists|t: Seq<usize>|
        #[trigger] recorded_chain_ok(g, size, start, end, t) && q == points_of(size, t)
}

/// The traversal stack on the way to `current`: a simple forward chain from
/// the start field whose tip is adjacent to `current`, avoiding the end
/// field and `current` itself.
pub open spec fn stack_ok(
    g: Graph,
    size: int,
    start: usize,
    end: usize,
    s: Seq<usize>,
    current: usize,
) -> bool {
    &&& forall|k: int| 0 <= k < s.len() ==> (#[trigger] s[k]) < size * size
    &&& forall|k: int| 0 <= k && k + 1 < s.len() ==> graph_edge(g, #[trigger] s[k], s[k + 1])
    &&& (s.len() > 0 ==> s[0] == start)
    &&& (s.len() > 0 ==> graph_edge(g, s[s.len() - 1], current))
    &&& (s.len() == 0 ==> current == start)
    &&& forall|a: int, b: int| 0 <= a < b < s.len() ==> s[a] != s[b]
    &&& !s.contains(end)
    &&& !s.contains(current)
}

/// A live route for the traversal: a simple forward chain of adjacency
/// edges from `from` to the end field that touches no field marked in `vis`.
/// As long as one exists, the traversal still has a path left to record.
pub open spec fn escape_ok(g: Graph, vis: Seq<bool>, from: usize, end: usize, t: Seq<usize>) -> bool {
    &&& t.len() >= 1
    &&& t[0] == from
    &&& t[t.len() - 1] == end
    &&& forall|i: int| 0 <= i && i + 1 < t.len() ==> graph_edge(g, #[trigger] t[i], t[i + 1])
    &&& forall|i: int| 0 <= i < t.len() ==> (#[trigger] t[i]) < vis.len() && !vis[t[i] as int]
    &&& forall|a: int, b: int| 0 <= a < b < t.len() ==> t[a] != t[b]
}

/// Every forward chain contains a simple forward chain with the same
/// endpoints: repeated fields can be cut out pair by pair.
proof fn lemma_simple_chain(g: Graph, c: Seq<usize>, a: usize, b: usize) -> (t: Seq<usize>)
    requires
        forward_chain_ok(g, c, a, b),
    ensures
        forward_chain_ok(g, t, a, b),
        forall|x: int, y: int| 0 <= x < y < t.len() ==> t[x] != t[y],
    decreases c.len(),
{
    if exists|x: int, y: int| 0 <= x < y < c.len() && c[x] == c[y] {
        let (x, y) = choose|x: int, y: int| 0 <= x < y < c.len() && c[x] == c[y];
        let c2 = c.subrange(0, x) + c.subrange(y, c.len() as int);
        assert(c2.len() == x + (c.len() - y));
        assert(forall|i: int| 0 <= i < x ==> c2[i] == c[i]);
        assert(forall|i: int| x <= i < c2.len() ==> c2[i] == c[y + (i - x)]);
        assert(c2[0] == a);
        assert(c2[c2.len() - 1] == c[c.len() - 1]);
        assert forall|i: int| 0 <= i && i + 1 < c2.len() implies graph_edge(
            g,
            #[trigger] c2[i],
            c2[i + 1],
        ) by {
            if i + 1 < x {
                assert(graph_edge(g, c[i], c[i + 1]));
            } else if i + 1 == x {
                assert(c2[i] == c[x - 1]);
                assert(c2[i + 1] == c[y] && c[y] == c[x]);
                assert(graph_edge(g, c[x - 1], c[x]));
            } else {
                let p = y + (i - x);
                assert(c2[i] == c[p]);
                assert(c2[i + 1] == c[p + 1]);
                assert(graph_edge(g, c[p], c[p + 1]));
            }
        }
        lemma_simple_chain(g, c2, a, b)
    } else {
        assert forall|x: int, y: int| 0 <= x < y < c.len() implies c[x] != c[y] by {
            if c[x] == c[y] {
                assert(0 <= x < y < c.len() && c[x] == c[y]);
            }
        }
        c
    }
}

/// One step of the depth-first traversal: records the stack when `current`
/// is the end field, otherwise marks `current`, explores its neighbours in
/// adjacency order, and restores the visited set and the stack on return.
/// Whenever a live route remains, the traversal records at least one path.
#[verifier::loop_isolation(false)]
fn explore(
    graph: &Graph,
    size: usize,
    start: usize,
    end: usize,
    current: usize,
    visited: &mut Vec<bool>,
    stack: &mut Vec<usize>,
    out: &mut Vec<Vec<Point>>,
)
    requires
        graph_wf(*graph, size as int),
        start < size * size,
        end < size * size,
        current < size * size,
        size * size <= usize::MAX,
        old(visited)@.len() == size * size,
        forall|v: int|
            0 <= v < size * size ==> ((#[trigger] old(visited)@[v]) <==> old(stack)@.contains(
                v as usize,
            )),
        stack_ok(*graph, size as int, start, end, old(stack)@, current),
    ensures
        final(visited)@ == old(visited)@,
        final(stack)@ == old(stack)@,
        final(out)@.len() >= old(out)@.len(),
        forall|k: int| 0 <= k < old(out)@.len() ==> final(out)@[k] == old(out)@[k],
        forall|k: int|
            old(out)@.len() <= k < final(out)@.len() ==> recorded_path(
                *graph,
                size as int,
                start,
                end,
                (#[trigger] final(out)@[k])@,
            ),
        (exists|t: Seq<usize>|
            escape_ok(*graph, old(visited)@, current, end, t)) ==> final(out)@.len() > old(
            out,
        )@.len(),
    decreases size * size - count_true(visited@),
{
    let ghost sz = size as int;
    let ghost n2 = sz * sz;
    if current == end {
        // The stack, read tip first, is one complete simple route: record it.
        let mut q: Vec<Point> = Vec::new();
        let len = stack.len();
        let mut k: usize = 0;
        while k < len
            invariant
                graph_wf(*graph, sz),
                sz == size as int,
                len == stack@.len(),
                k <= len,
                q@.len() == k,
                forall|i: int| 0 <= i < stack@.len() ==> (#[trigger] stack@[i]) < sz * sz,
                forall|j: int|
                    0 <= j < k ==> (#[trigger] q@[j]) == point_of(sz, stack@[len - 1 - j] as int),
            decreases len - k,
        {
            let idx = stack[len - 1 - k];
            let f = graph.fields[idx];
            q.push(Point { x: Some(f.x), y: Some(f.y) });
            k = k + 1;
        }
        proof {
            let s = stack@;
            let t = Seq::new(s.len(), |i: int| s[s.len() - 1 - i]);
            assert forall|k2: int| 0 <= k2 && k2 + 1 < t.len() implies graph_edge(
                *graph,
                t[k2 + 1],
                #[trigger] t[k2],
            ) by {
                let j = s.len() - 2 - k2;
                assert(t[k2 + 1] == s[j]);
                assert(t[k2] == s[j + 1]);
                assert(graph_edge(*graph, s[j], s[j + 1]));
            }
            assert(!t.contains(end)) by {
                if t.contains(end) {
                    let j = choose|j: int| 0 <= j < t.len() && t[j] == end;
                    assert(s[s.len() - 1 - j] == end);
                    assert(s.contains(end));
                }
            }
            if t.len() > 0 {
                assert(t[t.len() - 1] == s[0]);
                assert(t[0] == s[s.len() - 1]);
            }
            assert(recorded_chain_ok(*graph, sz, start, end, t));
            assert(q@ =~= points_of(sz, t));
            assert(recorded_path(*graph, sz, start, end, q@));
        }
        out.push(q);
        return ;
    }
    let ghost visited_entry = visited@;
    let ghost stack_entry = stack@;
    let ghost out_entry = out@;
    visited.set(current, true);
    stack.push(current);
    proof {
        lemma_count_true_set(visited_entry, current as int);
        lemma_count_true_le_len(visited@);
        assert forall|v: int|
            0 <= v < n2 implies ((#[trigger] visited@[v]) <==> stack@.contains(v as usize)) by {
            let s = stack@;
            assert(s == stack_entry.push(current));
            assert(s[s.len() - 1] == current);
            if v == current {
                assert(visited@[v]);
                assert(s.contains(v as usize));
            } else {
                assert(visited@[v] == visited_entry[v]);
                if visited_entry[v] {
                    assert(stack_entry.contains(v as usize));
                    let j = choose|j: int|
                        0 <= j < stack_entry.len() && stack_entry[j] == v as usize;
                    assert(s[j] == v as usize);
                    assert(s.contains(v as usize));
                }
                if s.contains(v as usize) {
                    let j = choose|j: int| 0 <= j < s.len() && s[j] == v as usize;
                    assert(j != s.len() - 1);
                    assert(stack_entry[j] == v as usize);
                    assert(stack_entry.contains(v as usize));
                }
            }
        }
    }
    let deg = graph.adjacency[current].len();
    let mut j: usize = 0;
    while j < deg
        invariant
            graph_wf(*graph, sz),
            sz == size as int,
            n2 == sz * sz,
            start < n2,
            end < n2,
            current < n2,
            current != end,
            deg == graph.adjacency@[current as int]@.len(),
            j <= deg,
            visited@.len() == n2,
            visited@ == visited_entry.update(current as int, true),
            stack@ == stack_entry.push(current),
            !visited_entry[current as int],
            count_true(visited@) == count_true(visited_entry) + 1,
            count_true(visited@) <= n2,
            forall|v: int|
                0 <= v < n2 ==> ((#[trigger] visited@[v]) <==> stack@.contains(v as usize)),
            stack_ok(*graph, sz, start, end, stack_entry, current),
            out@.len() >= out_entry.len(),
            forall|k: int| 0 <= k < out_entry.len() ==> out@[k] == out_entry[k],
            forall|k: int|
                out_entry.len() <= k < out@.len() ==> recorded_path(
                    *graph,
                    sz,
                    start,
                    end,
                    (#[trigger] out@[k])@,
                ),
            out@.len() > out_entry.len() || (forall|j2: int|
                0 <= j2 < j ==> !(exists|t: Seq<usize>|
                    escape_ok(
                        *graph,
                        visited@,
                        #[trigger] graph.adjacency@[current as int]@[j2],
                        end,
                        t,
                    ))),
        decreases deg - j,
    {
        let nb = graph.adjacency[current][j];
        assert(graph_edge(*graph, current, nb)) by {
            assert(graph.adjacency@[current as int]@[j as int] == nb);
        }
        if !visited[nb] {
            proof {
                let s = stack@;
                assert(s[s.len() - 1] == current);
                assert forall|a: int, b: int| 0 <= a < b < s.len() implies s[a] != s[b] by {
                    if b < s.len() - 1 {
                        assert(stack_entry[a] != stack_entry[b]);
                    } else {
                        assert(s[a] == stack_entry[a]);
                        assert(!stack_entry.contains(current));
                    }
                }
                assert(!s.contains(end)) by {
                    if s.contains(end) {
                        let jj = choose|jj: int| 0 <= jj < s.len() && s[jj] == end;
                        assert(jj < s.len() - 1 ==> stack_entry[jj] == end && stack_entry.contains(
                            end,
                        ));
                    }
                }
                assert(!s.contains(nb));
                assert(stack_ok(*graph, sz, start, end, s, nb));
            }
            explore(graph, size, start, end, nb, visited, stack, out);
        } else {
            proof {
                assert(!(exists|t: Seq<usize>| escape_ok(*graph, visited@, nb, end, t))) by {
                    if exists|t: Seq<usize>| escape_ok(*graph, visited@, nb, end, t) {
                        let t = choose|t: Seq<usize>| escape_ok(*graph, visited@, nb, end, t);
                        assert(!visited@[t[0] as int]);
                    }
                }
            }
        }
        j = j + 1;
    }
    proof {
        if (exists|t: Seq<usize>| escape_ok(*graph, visited_entry, current, end, t)) && out@.len()
            == out_entry.len() {
            let t = choose|t: Seq<usize>| escape_ok(*graph, visited_entry, current, end, t);
            assert(t[0] == current);
            assert(t.len() >= 2);
            let w = t[1];
            assert(graph_edge(*graph, current, w));
            let row = graph.adjacency@[current as int]@;
            let j2 = choose|j2: int| 0 <= j2 < row.len() && row[j2] == w;
            let tail = t.subrange(1, t.len() as int);
            assert(tail[0] == w);
            assert(tail[tail.len() - 1] == end);
            assert forall|i: int| 0 <= i && i + 1 < tail.len() implies graph_edge(
                *graph,
                #[trigger] tail[i],
                tail[i + 1],
            ) by {
                assert(tail[i] == t[i + 1]);
                assert(tail[i + 1] == t[i + 2]);
                assert(graph_edge(*graph, t[i + 1], t[i + 2]));
            }
            assert forall|i: int| 0 <= i < tail.len() implies (#[trigger] tail[i])
                < visited@.len() && !visited@[tail[i] as int] by {
                assert(tail[i] == t[i + 1]);
                assert(t[i + 1] != t[0]);
            }
            assert forall|a: int, b: int| 0 <= a < b < tail.len() implies tail[a] != tail[b] by {
                assert(tail[a] == t[a + 1] && tail[b] == t[b + 1]);
            }
            assert(escape_ok(*graph, visited@, w, end, tail));
            assert(graph.adjacency@[current as int]@[j2] == w);
            assert(false);
        }
    }
    let _tip = stack.pop();
    visited.set(current, false);
    proof {
        assert(visited@ =~= visited_entry);
        assert(stack@ =~= stack_entry);
    }
}

/// Enumerates every simple path from the start field to the end field.
///
/// Each returned path is the backtracked record of one route: the point
/// preceding the end first, the start point last, the end point excluded.
/// The result is empty exactly when no route connects the start field to
/// the end field — an ordinary outcome, not an error.
pub fn find_all_paths(graph: &Graph, size: usize, start: usize, end: usize) -> (r: Vec<Vec<Point>>)
    requires
        graph_wf(*graph, size as int),
        start < size * size,
        end < size * size,
    ensures
        forall|pi: int|
            0 <= pi < r@.len() ==> recorded_path(
                *graph,
                size as int,
                start,
                end,
                (#[trigger] r@[pi])@,
            ),
        r@.len() > 0 <==> connected(*graph, start, end),
{
    let ghost sz = size as int;
    let n2 = graph.fields.len();
    let mut visited = fill_bool(n2, false);
    let mut stack: Vec<usize> = Vec::new();
    let mut out: Vec<Vec<Point>> = Vec::new();
    proof {
        assert(forall|v: int| 0 <= v < n2 ==> !(#[trigger] visited@[v]));
        assert(stack_ok(*graph, sz, start, end, stack@, start));
    }
    let ghost visited0 = visited@;
    explore(graph, size, start, end, start, &mut visited, &mut stack, &mut out);
    proof {
        if out@.len() > 0 {
            // A recorded path read backwards, with the end appended, connects
            // the start field to the end field.
            assert(recorded_path(*graph, sz, start, end, out@[0]@));
            let t = choose|t: Seq<usize>|
                #[trigger] recorded_chain_ok(*graph, sz, start, end, t) && out@[0]@ == points_of(
                    sz,
                    t,
                );
            if t.len() == 0 {
                let w = seq![start];
                assert(w[0] == start && w[w.len() - 1] == end);
                assert(forward_chain_ok(*graph, w, start, end));
            } else {
                let ll = t.len() as int;
                let fc = Seq::new((ll + 1) as nat, |i: int| if i < ll { t[ll - 1 - i] } else { end });
                assert(fc[0] == t[ll - 1]);
                assert(fc[fc.len() - 1] == end);
                assert forall|i: int| 0 <= i && i + 1 < fc.len() implies graph_edge(
                    *graph,
                    #[trigger] fc[i],
                    fc[i + 1],
                ) by {
                    if i + 1 < ll {
                        let k = ll - 2 - i;
                        assert(fc[i] == t[k + 1]);
                        assert(fc[i + 1] == t[k]);
                        assert(graph_edge(*graph, t[k + 1], t[k]));
                    } else {
                        assert(fc[i] == t[0]);
                        assert(graph_edge(*graph, t[0], end));
                    }
                }
                assert(forward_chain_ok(*graph, fc, start, end));
            }
            assert(connected(*graph, start, end));
        }
        if connected(*graph, start, end) && out@.len() == 0 {
            // A connecting chain contains a simple one, which is a live route
            // over the blank visited set, so the traversal recorded a path.
            let c = choose|c: Seq<usize>| forward_chain_ok(*graph, c, start, end);
            let t = lemma_simple_chain(*graph, c, start, end);
            assert forall|i: int| 0 <= i < t.len() implies (#[trigger] t[i]) < visited0.len()
                && !visited0[t[i] as int] by {
                if i + 1 < t.len() {
                    assert(graph_edge(*graph, t[i], t[i + 1]));
                } else {
                    assert(t[i] == end);
                }
            }
            assert(escape_ok(*graph, visited0, start, end, t));
            assert(false);
        }
    }
    out
}

} // verus!
