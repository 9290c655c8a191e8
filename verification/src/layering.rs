//! Longest-path layering of a directed graph by Kahn's algorithm: every node
//! starts at its seed rank, and each edge `u -> v` pushes `v` at least one
//! rank past `u`. On an acyclic graph the result is the unique least such
//! ranking.
use vstd::prelude::*;

verus! {

broadcast use vstd::seq_lib::group_seq_properties;

/// The successor lists of a graph as sequences.
pub open spec fn adj_view(adj: Seq<Vec<usize>>) -> Seq<Seq<usize>> {
    adj.map_values(|x: Vec<usize>| x@)
}

/// Successor lists over nodes `0..n`: every target in range, none twice,
/// and no node its own successor.
pub open spec fn adj_wf(adj: Seq<Seq<usize>>, n: nat) -> bool {
    &&& adj.len() == n
    &&& forall|u: int, j: int| 0 <= u < n && 0 <= j < adj[u].len() ==> #[trigger] adj[u][j] < n
    &&& forall|u: int| 0 <= u < n ==> #[trigger] adj[u].no_duplicates()
    &&& forall|u: int| 0 <= u < n ==> !(#[trigger] adj[u]).contains(u as usize)
}

/// The graph has an edge `u -> v`.
pub open spec fn edge(adj: Seq<Seq<usize>>, u: int, v: int) -> bool {
    0 <= u < adj.len() && adj[u].contains(v as usize)
}

/// Some node has an edge to `v`.
pub open spec fn has_pred(adj: Seq<Seq<usize>>, v: int) -> bool {
    exists|u: int| #[trigger] edge(adj, u, v)
}

/// Some ranking of the nodes puts every edge's target above its source:
/// there is no cycle.
pub open spec fn acyclic(adj: Seq<Seq<usize>>) -> bool {
    exists|pot: Seq<nat>|
        pot.len() == adj.len() && forall|u: int, v: int| #[trigger]
            edge(adj, u, v) && 0 <= v < adj.len() ==> pot[u] < pot[v]
}

/// `r` is a longest-path layering of the graph from the seeds: no node is
/// below its seed, every edge climbs at least one rank, and every node sits
/// exactly at its seed or exactly one rank above some predecessor.
pub open spec fn is_layering(adj: Seq<Seq<usize>>, seeds: Seq<usize>, r: Seq<usize>) -> bool {
    &&& r.len() == seeds.len() == adj.len()
    &&& forall|v: int| 0 <= v < r.len() ==> #[trigger] r[v] >= seeds[v]
    &&& forall|u: int, v: int|
        #![trigger edge(adj, u, v), r[v]]
        edge(adj, u, v) && 0 <= v < r.len() ==> r[v] >= r[u] + 1
    &&& forall|v: int|
        0 <= v < r.len() ==> #[trigger] r[v] == seeds[v] || exists|u: int|
            #![trigger edge(adj, u, v)]
            edge(adj, u, v) && r[v] == r[u] + 1
}

/// The number of nodes `u < k` outside `popped` with an edge to `v`.
pub open spec fn pending_preds(adj: Seq<Seq<usize>>, popped: Set<int>, v: int, k: int) -> nat
    decreases k,
{
    if k <= 0 {
        0
    } else {
        pending_preds(adj, popped, v, k - 1) + if adj[k - 1].contains(v as usize) && !popped.contains(
            k - 1,
        ) {
            1nat
        } else {
            0nat
        }
    }
}

/// The number of zero entries of `w`.
pub open spec fn count_zero(w: Seq<usize>) -> nat
    decreases w.len(),
{
    if w.len() == 0 {
        0
    } else {
        count_zero(w.drop_last()) + if w.last() == 0 {
            1nat
        } else {
            0nat
        }
    }
}

proof fn lemma_count_zero_bound(w: Seq<usize>)
    ensures
        count_zero(w) <= w.len(),
    decreases w.len(),
{
    if w.len() > 0 {
        lemma_count_zero_bound(w.drop_last());
    }
}

/// Each nonzero entry of `w` leaves one place fewer for zeros.
proof fn lemma_count_zero_nonzero(w: Seq<usize>, a: int, b: int)
    requires
        0 <= a < w.len(),
        0 <= b < w.len(),
        w[a] != 0,
        w[b] != 0,
    ensures
        count_zero(w) + 1 <= w.len(),
        a != b ==> count_zero(w) + 2 <= w.len(),
    decreases w.len(),
{
    lemma_count_zero_bound(w.drop_last());
    if a < w.len() - 1 && b < w.len() - 1 {
        lemma_count_zero_nonzero(w.drop_last(), a, b);
    } else if a < w.len() - 1 {
        lemma_count_zero_nonzero(w.drop_last(), a, a);
    } else if b < w.len() - 1 {
        lemma_count_zero_nonzero(w.drop_last(), b, b);
    }
}

/// A node without predecessors has no pending predecessor.
proof fn lemma_pending_none(adj: Seq<Seq<usize>>, popped: Set<int>, v: int, k: int)
    requires
        !has_pred(adj, v),
        k <= adj.len(),
    ensures
        pending_preds(adj, popped, v, k) == 0,
{
    if pending_preds(adj, popped, v, k) > 0 {
        let u = lemma_pending_witness(adj, popped, v, k);
        assert(edge(adj, u, v));
    }
}

proof fn lemma_count_zero_update(w: Seq<usize>, i: int, x: usize)
    requires
        0 <= i < w.len(),
    ensures
        count_zero(w.update(i, x)) + (if w[i] == 0 {
            1int
        } else {
            0int
        }) == count_zero(w) + (if x == 0 {
            1int
        } else {
            0int
        }),
    decreases w.len(),
{
    if i == w.len() - 1 {
        assert(w.update(i, x).drop_last() =~= w.drop_last());
    } else {
        assert(w.update(i, x).drop_last() =~= w.drop_last().update(i, x));
        lemma_count_zero_update(w.drop_last(), i, x);
    }
}

/// Adding `u` to the popped set removes it from the pending predecessors of
/// each of its successors.
proof fn lemma_pending_pop(adj: Seq<Seq<usize>>, popped: Set<int>, u: int, v: int, k: int)
    requires
        !popped.contains(u),
        0 <= k,
    ensures
        pending_preds(adj, popped.insert(u), v, k) + (if 0 <= u < k && adj[u].contains(
            v as usize,
        ) {
            1int
        } else {
            0int
        }) == pending_preds(adj, popped, v, k),
    decreases k,
{
    if k > 0 {
        lemma_pending_pop(adj, popped, u, v, k - 1);
    }
}

/// No pending predecessors means every predecessor is popped.
proof fn lemma_pending_zero(adj: Seq<Seq<usize>>, popped: Set<int>, v: int, k: int, u: int)
    requires
        pending_preds(adj, popped, v, k) == 0,
        0 <= u < k,
        adj[u].contains(v as usize),
    ensures
        popped.contains(u),
    decreases k,
{
    if u < k - 1 {
        lemma_pending_zero(adj, popped, v, k - 1, u);
    }
}

/// Some pending predecessor exists when the count is positive.
proof fn lemma_pending_witness(adj: Seq<Seq<usize>>, popped: Set<int>, v: int, k: int) -> (u: int)
    requires
        pending_preds(adj, popped, v, k) > 0,
    ensures
        0 <= u < k,
        adj[u].contains(v as usize),
        !popped.contains(u),
    decreases k,
{
    if pending_preds(adj, popped, v, k - 1) > 0 {
        lemma_pending_witness(adj, popped, v, k - 1)
    } else {
        k - 1
    }
}

/// With a strictly increasing potential along edges, if every unpopped node
/// has an unpopped predecessor, then every node is popped.
proof fn lemma_no_infinite_descent(
    adj: Seq<Seq<usize>>,
    pot: Seq<nat>,
    popped: Set<int>,
    v: int,
)
    requires
        pot.len() == adj.len(),
        forall|a: int, b: int| #[trigger] edge(adj, a, b) && 0 <= b < adj.len() ==> pot[a] < pot[b],
        forall|x: int|
            0 <= x < adj.len() && !popped.contains(x) ==> pending_preds(
                adj,
                popped,
                x,
                adj.len() as int,
            ) > 0,
        0 <= v < adj.len(),
    ensures
        popped.contains(v),
    decreases pot[v],
{
    if !popped.contains(v) {
        let u = lemma_pending_witness(adj, popped, v, adj.len() as int);
        assert(edge(adj, u, v));
        lemma_no_infinite_descent(adj, pot, popped, u);
    }
}

/// Whether `v` occurs in `xs`.
pub fn contains_index(xs: &Vec<usize>, v: usize) -> (r: bool)
    ensures
        r == xs@.contains(v),
{
    let mut i: usize = 0;
    while i < xs.len()
        invariant
            i <= xs.len(),
            forall|k: int| 0 <= k < i ==> xs@[k] != v,
        decreases xs.len() - i,
    {
        if xs[i] == v {
            return true;
        }
        i = i + 1;
    }
    false
}

/// Ranks every node of the graph given by the successor lists `adj`: each
/// node starts at its seed; Kahn's algorithm then visits the nodes with no
/// unvisited predecessor, each visit lifting its successors to at least one
/// rank above it. When every node has a predecessor, the visit starts from
/// node 0 regardless; nodes left unvisited on a cycle end at rank 1 or more.
/// On an acyclic graph the result is the longest-path layering from the seeds.
#[verifier::rlimit(60)]
#[verifier::spinoff_prover]
pub fn longest_path_layering(adj: &Vec<Vec<usize>>, seeds: &Vec<usize>) -> (r: Vec<usize>)
    requires
        adj_wf(adj_view(adj@), seeds.len() as nat),
        forall|i: int| 0 <= i < seeds.len() ==> #[trigger] seeds@[i] + seeds.len() + 2 <= usize::MAX,
    ensures
        r.len() == seeds.len(),
        forall|i: int| 0 <= i < r.len() ==> #[trigger] r@[i] < usize::MAX,
        forall|v: int| 0 <= v < r.len() ==> #[trigger] r@[v] >= seeds@[v],
        forall|v: int| 0 <= v < r.len() && !has_pred(adj_view(adj@), v) ==> #[trigger] r@[v] == seeds@[v],
        forall|u: int, v: int|
            #![trigger edge(adj_view(adj@), u, v), r@[v]]
            edge(adj_view(adj@), u, v) && 0 <= v < r.len() ==> r@[v] >= 1,
        (exists|v: int| 0 <= v < r.len() && !#[trigger] has_pred(adj_view(adj@), v)) ==> forall|v: int|
            0 <= v < r.len() ==> #[trigger] r@[v] == seeds@[v] || r@[v] == 1 || exists|u: int|
                #![trigger edge(adj_view(adj@), u, v)]
                edge(adj_view(adj@), u, v) && r@[v] == r@[u] + 1,
        acyclic(adj_view(adj@)) ==> is_layering(adj_view(adj@), seeds@, r@),
{
    let n = seeds.len();
    let ghost av = adj_view(adj@);
    let ghost lim: int = usize::MAX - n - 2;
    // Pending predecessor counts.
    let mut work: Vec<usize> = Vec::new();
    let mut v: usize = 0;
    while v < n
        invariant
            v <= n == seeds.len(),
            av == adj_view(adj@),
            adj_wf(av, n as nat),
            work.len() == v,
            forall|x: int| 0 <= x < v ==> #[trigger] work@[x] == pending_preds(av, Set::empty(), x, n as int),
        decreases n - v,
    {
        let mut c: usize = 0;
        let mut u: usize = 0;
        while u < n
            invariant
                u <= n == seeds.len(),
                v < n,
                av == adj_view(adj@),
                adj_wf(av, n as nat),
                c == pending_preds(av, Set::empty(), v as int, u as int),
                c <= u,
            decreases n - u,
        {
            assert(av[u as int] == adj@[u as int]@);
            if contains_index(&adj[u], v) {
                c = c + 1;
            }
            u = u + 1;
        }
        work.push(c);
        v = v + 1;
    }
    let mut ranks: Vec<usize> = seeds.clone();
    assert(ranks@ =~= seeds@);
    let mut queue: Vec<usize> = Vec::new();
    let mut i: usize = 0;
    while i < n
        invariant
            i <= n == seeds.len() == work.len(),
            av == adj_view(adj@),
            adj_wf(av, n as nat),
            forall|x: int| 0 <= x < n ==> #[trigger] work@[x] == pending_preds(av, Set::empty(), x, n as int),
            queue@.no_duplicates(),
            forall|k: int| 0 <= k < queue.len() ==> #[trigger] queue@[k] < i,
            forall|x: int| 0 <= x < i ==> (queue@.contains(x as usize) <==> #[trigger] work@[x] == 0),
            queue.len() == count_zero(work@.take(i as int)),
        decreases n - i,
    {
        assert(work@.take(i + 1).drop_last() =~= work@.take(i as int));
        if work[i] == 0 {
            queue.push(i);
        }
        i = i + 1;
    }
    assert(work@.take(n as int) =~= work@);
    let mut fb = false;
    if queue.len() == 0 && n > 0 {
        proof {
            if acyclic(av) {
                let pot = choose|pot: Seq<nat>|
                    pot.len() == av.len() && forall|a: int, b: int| #[trigger]
                        edge(av, a, b) && 0 <= b < av.len() ==> pot[a] < pot[b];
                assert forall|y: int|
                    0 <= y < n && !Set::<int>::empty().contains(y) implies pending_preds(
                    av,
                    Set::empty(),
                    y,
                    n as int,
                ) > 0 by {
                    assert(!queue@.contains(y as usize));
                    assert(work@[y] == pending_preds(av, Set::empty(), y, n as int));
                }
                lemma_no_infinite_descent(av, pot, Set::empty(), 0);
                assert(false);
            }
            assert forall|v: int| 0 <= v < n implies has_pred(av, v) by {
                if !has_pred(av, v) {
                    lemma_pending_none(av, Set::empty(), v, n as int);
                    assert(work@[v] == 0);
                    assert(queue@.contains(v as usize));
                }
            }
        }
        queue.push(0);
        fb = true;
    }
    assert(queue@.take(0).map_values(|q: usize| q as int).to_set() =~= Set::<int>::empty());
    proof {
        lemma_count_zero_bound(work@);
        assert forall|x: int|
            #![trigger ranks@[x]]
            #![trigger work@[x]]
            0 <= x < n && !has_pred(av, x) implies ranks@[x] == seeds@[x] && work@[x] == 0 by {
            lemma_pending_none(av, Set::empty(), x, n as int);
        }
    }
    let mut head: usize = 0;
    while head < queue.len()
        invariant
            n == seeds.len() == work.len() == ranks.len(),
            av == adj_view(adj@),
            adj_wf(av, n as nat),
            lim == usize::MAX - n - 2,
            forall|x: int| 0 <= x < n ==> #[trigger] seeds@[x] <= lim,
            head <= queue.len(),
            fb ==> !acyclic(av),
            queue.len() == count_zero(work@) + if fb {
                1int
            } else {
                0int
            },
            forall|k: int| 0 <= k < queue.len() ==> #[trigger] queue@[k] < n,
            forall|x: int| 0 <= x < n ==> #[trigger] ranks@[x] <= lim + head,
            !fb ==> queue@.no_duplicates(),
            !fb ==> forall|x: int| 0 <= x < n ==> (queue@.contains(x as usize) <==> #[trigger] work@[x] == 0),
            !fb ==> forall|x: int|
                0 <= x < n ==> #[trigger] work@[x] == pending_preds(
                    av,
                    queue@.take(head as int).map_values(|q: usize| q as int).to_set(),
                    x,
                    n as int,
                ),
            forall|x: int| 0 <= x < n ==> #[trigger] ranks@[x] >= seeds@[x],
            forall|x: int|
                #![trigger ranks@[x]]
                #![trigger work@[x]]
                0 <= x < n && !has_pred(av, x) ==> ranks@[x] == seeds@[x] && work@[x] == 0,
            forall|x: int| 0 <= x < n && #[trigger] work@[x] == 0 ==> queue@.contains(x as usize),
            forall|x: int|
                0 <= x < n && work@[x] < pending_preds(av, Set::empty(), x, n as int) ==> #[trigger] ranks@[x]
                    >= 1,
            forall|p: int, x: int|
                #![trigger queue@.take(head as int).contains(p as usize), edge(av, p, x)]
                queue@.take(head as int).contains(p as usize) && edge(av, p, x) && 0 <= x < n
                    ==> ranks@[x] >= 1,
            !fb ==> forall|p: int, x: int|
                #![trigger queue@.take(head as int).contains(p as usize), edge(av, p, x)]
                queue@.take(head as int).contains(p as usize) && edge(av, p, x) && 0 <= x < n
                    ==> ranks@[x] >= ranks@[p] + 1,
            !fb ==> forall|x: int|
                0 <= x < n ==> #[trigger] ranks@[x] == seeds@[x] || exists|p: int|
                    #![trigger edge(av, p, x)]
                    queue@.take(head as int).contains(p as usize) && edge(av, p, x) && ranks@[x]
                        == ranks@[p] + 1,
        decreases n + 1 - head,
    {
        proof {
            lemma_count_zero_bound(work@);
        }
        let u = queue[head];
        let ghost popped_before = queue@.take(head as int).map_values(|q: usize| q as int).to_set();
        head = head + 1;
        let ghost popped = queue@.take(head as int).map_values(|q: usize| q as int).to_set();
        proof {
            assert(queue@.take(head as int) =~= queue@.take(head - 1).push(u));
            assert(queue@.take(head as int).map_values(|q: usize| q as int) =~= queue@.take(
                head - 1,
            ).map_values(|q: usize| q as int).push(u as int));
            queue@.take(head - 1).map_values(|q: usize| q as int).lemma_push_to_set_commute(
                u as int,
            );
            assert(popped == popped_before.insert(u as int));
            if !fb {
                assert(!popped_before.contains(u as int)) by {
                    if popped_before.contains(u as int) {
                        let qm = queue@.take(head - 1).map_values(|q: usize| q as int);
                        let k = choose|k: int| 0 <= k < qm.len() && #[trigger] qm[k] == u as int;
                        assert(queue@[k] == u);
                    }
                }
            }
        }
        assert(av[u as int] == adj@[u as int]@);
        let succ = &adj[u];
        proof {
            assert(succ@.subrange(0, succ.len() as int) =~= succ@);
            if !fb {
                assert forall|x: int| 0 <= x < n implies #[trigger] work@[x] == pending_preds(
                    av,
                    popped,
                    x,
                    n as int,
                ) + if succ@.subrange(0, succ.len() as int).contains(x as usize) {
                    1int
                } else {
                    0int
                } by {
                    lemma_pending_pop(av, popped_before, u as int, x, n as int);
                }
            }
        }
        let mut j: usize = 0;
        while j < succ.len()
            invariant
                n == seeds.len() == work.len() == ranks.len(),
                av == adj_view(adj@),
                adj_wf(av, n as nat),
                lim == usize::MAX - n - 2,
                u < n,
                succ@ == av[u as int],
                j <= succ.len(),
                1 <= head <= queue.len(),
                queue@[head - 1] == u,
                popped == queue@.take(head as int).map_values(|q: usize| q as int).to_set(),
                popped == popped_before.insert(u as int),
                !fb ==> !popped_before.contains(u as int),
                forall|x: int| 0 <= x < n ==> #[trigger] seeds@[x] <= lim,
                queue.len() == count_zero(work@) + if fb {
                    1int
                } else {
                    0int
                },
                forall|k: int| 0 <= k < queue.len() ==> #[trigger] queue@[k] < n,
                ranks@[u as int] <= lim + head - 1,
                forall|x: int| 0 <= x < n ==> #[trigger] ranks@[x] <= lim + head,
                !fb ==> queue@.no_duplicates(),
                !fb ==> forall|x: int|
                    0 <= x < n ==> (queue@.contains(x as usize) <==> #[trigger] work@[x] == 0),
                !fb ==> forall|x: int|
                    0 <= x < n ==> #[trigger] work@[x] == pending_preds(av, popped, x, n as int)
                        + if succ@.subrange(j as int, succ.len() as int).contains(x as usize) {
                        1int
                    } else {
                        0int
                    },
                forall|x: int| 0 <= x < n ==> #[trigger] ranks@[x] >= seeds@[x],
                forall|x: int|
                    #![trigger ranks@[x]]
                    #![trigger work@[x]]
                    0 <= x < n && !has_pred(av, x) ==> ranks@[x] == seeds@[x] && work@[x] == 0,
                forall|x: int| 0 <= x < n && #[trigger] work@[x] == 0 ==> queue@.contains(x as usize),
                forall|x: int|
                    0 <= x < n && work@[x] < pending_preds(av, Set::empty(), x, n as int)
                        ==> #[trigger] ranks@[x] >= 1,
                forall|p: int, x: int|
                    #![trigger queue@.take(head - 1).contains(p as usize), edge(av, p, x)]
                    queue@.take(head - 1).contains(p as usize) && edge(av, p, x) && 0 <= x < n
                        ==> ranks@[x] >= 1,
                forall|x: int|
                    #![trigger succ@.take(j as int).contains(x as usize)]
                    0 <= x < n && succ@.take(j as int).contains(x as usize) ==> ranks@[x] >= 1,
                !fb ==> forall|p: int, x: int|
                    #![trigger queue@.take(head - 1).contains(p as usize), edge(av, p, x)]
                    queue@.take(head - 1).contains(p as usize) && edge(av, p, x) && 0 <= x < n
                        ==> ranks@[x] >= ranks@[p] + 1,
                !fb ==> forall|x: int|
                    #![trigger succ@.take(j as int).contains(x as usize)]
                    0 <= x < n && succ@.take(j as int).contains(x as usize) ==> ranks@[x]
                        >= ranks@[u as int] + 1,
                !fb ==> forall|x: int|
                    0 <= x < n ==> #[trigger] ranks@[x] == seeds@[x] || exists|p: int|
                        #![trigger edge(av, p, x)]
                        queue@.take(head as int).contains(p as usize) && edge(av, p, x)
                            && ranks@[x] == ranks@[p] + 1,
            decreases succ.len() - j,
        {
            let x = succ[j];
            assert(av[u as int][j as int] == x);
            let ghost ranks_before = ranks@;
            let ghost work_before = work@;
            let ghost queue_before = queue@;
            proof {
                lemma_count_zero_bound(work@);
            }
            // A successor of `u` is not popped yet, so popped ranks stay put.
            if !fb {
                assert(succ@.subrange(j as int, succ.len() as int)[0] == x);
                assert(work@[x as int] >= 1);
                assert(!queue@.contains(x));
            }
            assert(x != u) by {
                assert(av[u as int][j as int] == x);
            }
            let ru = ranks[u];
            if ranks[x] < ru + 1 {
                ranks.set(x, ru + 1);
            }
            if work[x] > 0 {
                let w = work[x] - 1;
                work.set(x, w);
                proof {
                    lemma_count_zero_update(work_before, x as int, w);
                }
                if w == 0 {
                    queue.push(x);
                }
            }
            assert(queue@.take(head as int) =~= queue_before.take(head as int));
            proof {
                assert(succ@.take(j + 1) =~= succ@.take(j as int).push(x));
                assert(succ@.subrange(j as int, succ.len() as int) =~= seq![x] + succ@.subrange(
                    j + 1,
                    succ.len() as int,
                ));
                assert(edge(av, u as int, x as int));
                assert(has_pred(av, x as int));
                assert forall|y: int|
                    #![trigger ranks@[y]]
                    #![trigger work@[y]]
                    0 <= y < n && !has_pred(av, y) implies ranks@[y] == seeds@[y] && work@[y] == 0 by {
                    assert(y != x as int);
                    assert(ranks_before[y] == seeds@[y]);
                }
                assert forall|p: int, y: int|
                    #![trigger queue@.take(head - 1).contains(p as usize), edge(av, p, y)]
                    queue@.take(head - 1).contains(p as usize) && edge(av, p, y) && 0 <= y < n implies ranks@[y]
                        >= 1 by {
                    assert(queue@.take(head - 1) =~= queue_before.take(head - 1));
                    assert(queue_before.take(head - 1).contains(p as usize));
                    assert(ranks@[y] >= ranks_before[y]);
                }
                if !fb {
                    assert(av[u as int].no_duplicates());
                    assert(!succ@.subrange(j + 1, succ.len() as int).contains(x)) by {
                        if succ@.subrange(j + 1, succ.len() as int).contains(x) {
                            let sr = succ@.subrange(j + 1, succ.len() as int);
                            let k = choose|k: int| 0 <= k < sr.len() && #[trigger] sr[k] == x;
                            assert(succ@[j + 1 + k] == succ@[j as int]);
                        }
                    }
                    assert(queue@.take(head as int) =~= queue_before.take(head as int));
                    assert forall|y: int| 0 <= y < n implies #[trigger] ranks@[y] == seeds@[y]
                        || exists|p: int|
                        #![trigger edge(av, p, y)]
                        queue@.take(head as int).contains(p as usize) && edge(av, p, y)
                            && ranks@[y] == ranks@[p] + 1 by {
                        if y == x as int && ranks@[y] != ranks_before[y] {
                            assert(queue@.take(head as int)[head - 1] == u);
                            assert(edge(av, u as int, y));
                        } else if ranks@[y] != seeds@[y] {
                            let p = choose|p: int|
                                #![trigger edge(av, p, y)]
                                queue_before.take(head as int).contains(p as usize) && edge(
                                    av,
                                    p,
                                    y,
                                ) && ranks_before[y] == ranks_before[p] + 1;
                            let qt = queue_before.take(head as int);
                            let k = choose|k: int| 0 <= k < qt.len() && #[trigger] qt[k] == p as usize;
                            assert(queue_before[k] == p as usize);
                            assert(p != x as int);
                            assert(ranks@[p] == ranks_before[p]);
                        }
                    }
                    assert forall|p: int, y: int|
                        #![trigger queue@.take(head - 1).contains(p as usize), edge(av, p, y)]
                        queue@.take(head - 1).contains(p as usize) && edge(av, p, y) && 0 <= y
                            < n implies ranks@[y] >= ranks@[p] + 1 by {
                        let qt = queue@.take(head - 1);
                        let k = choose|k: int| 0 <= k < qt.len() && #[trigger] qt[k] == p as usize;
                        assert(queue_before[k] == p as usize);
                        assert(queue_before.take(head - 1)[k] == p as usize);
                        assert(queue_before.take(head - 1).contains(p as usize));
                        assert(queue_before.contains(p as usize));
                        assert(p != x as int);
                        assert(ranks_before[y] >= ranks_before[p] + 1);
                        assert(ranks@[p] == ranks_before[p]);
                        assert(ranks@[y] >= ranks_before[y]);
                    }
                    assert forall|y: int|
                        0 <= y < n implies (queue@.contains(y as usize) <==> #[trigger] work@[y]
                        == 0) by {
                        if y != x as int {
                            assert(queue@.contains(y as usize) ==> queue_before.contains(
                                y as usize,
                            ));
                            assert(queue_before.contains(y as usize) ==> queue@.contains(
                                y as usize,
                            ));
                        }
                    }
                    assert forall|k1: int, k2: int|
                        0 <= k1 < queue.len() && 0 <= k2 < queue.len() && k1 != k2 implies queue@[k1]
                        != queue@[k2] by {
                        if k1 < queue_before.len() && k2 < queue_before.len() {
                        } else if k1 < queue_before.len() {
                            assert(queue_before.contains(queue@[k1]));
                        } else {
                            assert(queue_before.contains(queue@[k2]));
                        }
                    }
                }
            }
            j = j + 1;
        }
        proof {
            assert(succ@.take(succ.len() as int) =~= succ@);
            assert forall|p: int, x: int|
                #![trigger queue@.take(head as int).contains(p as usize), edge(av, p, x)]
                queue@.take(head as int).contains(p as usize) && edge(av, p, x) && 0 <= x < n
                    implies ranks@[x] >= 1 by {
                let qt = queue@.take(head as int);
                let k = choose|k: int| 0 <= k < qt.len() && #[trigger] qt[k] == p as usize;
                if k == head - 1 {
                    assert(av[u as int].contains(x as usize));
                    assert(succ@.take(succ.len() as int).contains(x as usize));
                } else {
                    assert(queue@.take(head - 1)[k] == p as usize);
                    assert(queue@.take(head - 1).contains(p as usize));
                }
            }
            if !fb {
                assert(succ@.subrange(succ.len() as int, succ.len() as int) =~= Seq::<usize>::empty());
                assert(succ@.take(succ.len() as int) =~= succ@);
                assert forall|p: int, x: int|
                    #![trigger queue@.take(head as int).contains(p as usize), edge(av, p, x)]
                    queue@.take(head as int).contains(p as usize) && edge(av, p, x) && 0 <= x < n
                        implies ranks@[x] >= ranks@[p] + 1 by {
                    let qt = queue@.take(head as int);
                    let k = choose|k: int| 0 <= k < qt.len() && #[trigger] qt[k] == p as usize;
                    if k == head - 1 {
                        assert(p == u as int);
                        assert(av[u as int].contains(x as usize));
                        assert(succ@.take(succ.len() as int).contains(x as usize));
                    } else {
                        assert(queue@.take(head - 1)[k] == p as usize);
                        assert(queue@.take(head - 1).contains(p as usize));
                    }
                }
            }
        }
    }
    proof {
        lemma_count_zero_bound(work@);
        assert forall|x: int| 0 <= x < n implies #[trigger] ranks@[x] < usize::MAX by {
            assert(ranks@[x] <= lim + head);
        }
    }
    let ghost visited = ranks@;
    // Nodes left with pending predecessors sit on a cycle.
    if head < n {
        let mut k: usize = 0;
        while k < n
            invariant
                k <= n == ranks.len() == work.len() == visited.len(),
                forall|x: int| 0 <= x < n ==> #[trigger] ranks@[x] < usize::MAX,
                forall|x: int|
                    0 <= x < n ==> #[trigger] ranks@[x] == visited[x] || (work@[x] > 0 && ranks@[x] == 1
                        && visited[x] == 0),
                forall|x: int| 0 <= x < k && #[trigger] work@[x] > 0 ==> ranks@[x] >= 1,
            decreases n - k,
        {
            if work[k] > 0 && ranks[k] < 1 {
                ranks.set(k, 1);
            }
            k = k + 1;
        }
    }
    proof {
        if !fb {
            assert forall|v: int| 0 <= v < n implies #[trigger] ranks@[v] == seeds@[v] || ranks@[v] == 1
                || exists|u: int| #![trigger edge(av, u, v)] edge(av, u, v) && ranks@[v] == ranks@[u] + 1 by {
                if ranks@[v] != 1 && ranks@[v] != seeds@[v] {
                    assert(ranks@[v] == visited[v]);
                    let p = choose|p: int|
                        #![trigger edge(av, p, v)]
                        queue@.take(head as int).contains(p as usize) && edge(av, p, v) && visited[v] == visited[p]
                            + 1;
                    let qt = queue@.take(head as int);
                    let k = choose|k: int| 0 <= k < qt.len() && #[trigger] qt[k] == p as usize;
                    assert(queue@[k] == p as usize);
                    assert(queue@.contains(p as usize));
                    assert(work@[p] == 0);
                    assert(ranks@[p] == visited[p]);
                }
            }
        }
        assert forall|v: int| 0 <= v < n implies #[trigger] ranks@[v] >= seeds@[v] by {
            assert(visited[v] >= seeds@[v]);
        }
        assert forall|v: int| 0 <= v < n && !has_pred(av, v) implies #[trigger] ranks@[v] == seeds@[v] by {
            assert(visited[v] == seeds@[v]);
            assert(work@[v] == 0);
        }
        assert forall|u: int, v: int|
            #![trigger edge(av, u, v), ranks@[v]]
            edge(av, u, v) && 0 <= v < n implies ranks@[v] >= 1 by {
            assert(visited[v] >= 1 || ranks@[v] >= 1) by {
                if work@[v] == 0 {
                    if pending_preds(av, Set::empty(), v, n as int) == 0 {
                        lemma_pending_zero(av, Set::empty(), v, n as int, u);
                    }
                } else if head >= n {
                    assert(av[u].contains(v as usize));
                    assert(u != v);
                    if work@[u] != 0 {
                        lemma_count_zero_nonzero(work@, u, v);
                    }
                    assert(queue@.contains(u as usize));
                    assert(queue@.take(head as int) =~= queue@);
                    assert(queue@.take(head as int).contains(u as usize));
                }
            }
        }
        if acyclic(av) && !fb {
            let pot = choose|pot: Seq<nat>|
                pot.len() == av.len() && forall|a: int, b: int| #[trigger]
                    edge(av, a, b) && 0 <= b < av.len() ==> pot[a] < pot[b];
            let popped = queue@.take(head as int).map_values(|q: usize| q as int).to_set();
            assert(queue@.take(head as int) =~= queue@);
            assert forall|x: int| 0 <= x < n implies popped.contains(x) by {
                if !popped.contains(x) {
                    assert forall|y: int| 0 <= y < n && !popped.contains(y) implies pending_preds(
                        av,
                        popped,
                        y,
                        n as int,
                    ) > 0 by {
                        if pending_preds(av, popped, y, n as int) == 0 {
                            assert(work@[y] == pending_preds(av, popped, y, n as int));
                            assert(queue@.contains(y as usize));
                            let k = choose|k: int| 0 <= k < queue.len() && #[trigger] queue@[k] == y as usize;
                            assert(queue@.map_values(|q: usize| q as int)[k] == y);
                        }
                    }
                    lemma_no_infinite_descent(av, pot, popped, x);
                    assert(false);
                }
            }
            assert(head >= n) by {
                let qm = queue@.take(head as int).map_values(|q: usize| q as int);
                qm.lemma_cardinality_of_set();
                vstd::seq_lib::seq_to_set_is_finite(qm);
                assert(vstd::set_lib::set_int_range(0, n as int).subset_of(popped));
                vstd::set_lib::lemma_int_range(0, n as int);
                vstd::set_lib::lemma_len_subset(vstd::set_lib::set_int_range(0, n as int), popped);
            }
            assert forall|p: int, x: int|
                #![trigger edge(av, p, x), ranks@[x]]
                edge(av, p, x) && 0 <= x < ranks.len() implies ranks@[x] >= ranks@[p] + 1 by {
                assert(popped.contains(p));
                let qm = queue@.map_values(|q: usize| q as int);
                let k = choose|k: int| 0 <= k < qm.len() && #[trigger] qm[k] == p;
                assert(queue@[k] == p as usize);
                assert(queue@.take(head as int).contains(p as usize));
            }
            assert forall|x: int| 0 <= x < ranks.len() implies #[trigger] ranks@[x] == seeds@[x]
                || exists|p: int| #![trigger edge(av, p, x)] edge(av, p, x) && ranks@[x] == ranks@[p]
                + 1 by {
                if ranks@[x] != seeds@[x] {
                    let p = choose|p: int|
                        #![trigger edge(av, p, x)]
                        queue@.take(head as int).contains(p as usize) && edge(av, p, x)
                            && ranks@[x] == ranks@[p] + 1;
                    assert(edge(av, p, x));
                }
            }
        }
    }
    ranks
}

/// A longest-path layering from given seeds is unique on an acyclic graph.
pub proof fn lemma_layering_unique(
    adj: Seq<Seq<usize>>,
    seeds: Seq<usize>,
    r1: Seq<usize>,
    r2: Seq<usize>,
)
    requires
        acyclic(adj),
        is_layering(adj, seeds, r1),
        is_layering(adj, seeds, r2),
    ensures
        r1 == r2,
{
    let pot = choose|pot: Seq<nat>|
        pot.len() == adj.len() && forall|a: int, b: int| #[trigger]
            edge(adj, a, b) && 0 <= b < adj.len() ==> pot[a] < pot[b];
    assert forall|v: int| 0 <= v < r1.len() implies r1[v] == r2[v] by {
        lemma_layering_agree(adj, seeds, r1, r2, pot, v);
    }
    assert(r1 =~= r2);
}

proof fn lemma_layering_agree(
    adj: Seq<Seq<usize>>,
    seeds: Seq<usize>,
    r1: Seq<usize>,
    r2: Seq<usize>,
    pot: Seq<nat>,
    v: int,
)
    requires
        pot.len() == adj.len(),
        forall|a: int, b: int| #[trigger] edge(adj, a, b) && 0 <= b < adj.len() ==> pot[a] < pot[b],
        is_layering(adj, seeds, r1),
        is_layering(adj, seeds, r2),
        0 <= v < r1.len(),
    ensures
        r1[v] == r2[v],
    decreases pot[v],
{
    if r1[v] != seeds[v] {
        let u = choose|u: int| #![trigger edge(adj, u, v)] edge(adj, u, v) && r1[v] == r1[u] + 1;
        lemma_layering_agree(adj, seeds, r1, r2, pot, u);
        assert(r2[v] >= r2[u] + 1);
    }
    if r2[v] != seeds[v] {
        let u = choose|u: int| #![trigger edge(adj, u, v)] edge(adj, u, v) && r2[v] == r2[u] + 1;
        lemma_layering_agree(adj, seeds, r1, r2, pot, u);
        assert(r1[v] >= r1[u] + 1);
    }
}

} // verus!
