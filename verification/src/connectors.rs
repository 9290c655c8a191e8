//! Which connectors the canvas should show: one per undirected link
//! between two placed nodes, whichever side declared it, and which
//! connectors carry a message between two nodes.
use vstd::prelude::*;
use crate::text::{string_views, find_string};
use crate::topology::{Instance, instances_view};

verus! {

broadcast use vstd::seq_lib::group_seq_properties;

/// Whether `a` sorts at or before `b`, comparing characters by code point
/// (the order `str`'s `<=` gives, since UTF-8 encoding preserves it).
pub open spec fn lex_le(a: Seq<char>, b: Seq<char>) -> bool
    decreases a.len(),
{
    if a.len() == 0 {
        true
    } else if b.len() == 0 {
        false
    } else if a[0] < b[0] {
        true
    } else if a[0] > b[0] {
        false
    } else {
        lex_le(a.drop_first(), b.drop_first())
    }
}

/// The normalized key of the undirected edge between `a` and `b`.
pub open spec fn edge_key_spec(a: Seq<char>, b: Seq<char>) -> (Seq<char>, Seq<char>) {
    if lex_le(a, b) {
        (a, b)
    } else {
        (b, a)
    }
}

/// Whether `a <= b` as strings.
fn str_le(a: &String, b: &String) -> (r: bool)
    ensures
        r == lex_le(a@, b@),
{
    let x = crate::text::chars_of(a.as_str());
    let y = crate::text::chars_of(b.as_str());
    let mut i: usize = 0;
    while i < x.len() && i < y.len() && x[i] == y[i]
        invariant
            i <= x.len(),
            i <= y.len(),
            x@ == a@,
            y@ == b@,
            lex_le(a@, b@) == lex_le(x@.skip(i as int), y@.skip(i as int)),
        decreases x.len() - i,
    {
        assert(x@.skip(i as int).drop_first() =~= x@.skip(i + 1));
        assert(y@.skip(i as int).drop_first() =~= y@.skip(i + 1));
        i = i + 1;
    }
    if i == x.len() {
        assert(x@.skip(i as int).len() == 0);
        true
    } else if i == y.len() {
        assert(y@.skip(i as int).len() == 0);
        false
    } else {
        assert(x@.skip(i as int)[0] == x@[i as int]);
        assert(y@.skip(i as int)[0] == y@[i as int]);
        x[i] < y[i]
    }
}

/// Normalizes an (a, b) pair so that `edge_key(a, b) == edge_key(b, a)`:
/// a connector is undirected and exists once whichever side declared it.
pub fn edge_key(a: &String, b: &String) -> (r: (String, String))
    ensures
        (r.0@, r.1@) == edge_key_spec(a@, b@),
{
    if str_le(a, b) {
        (a.clone(), b.clone())
    } else {
        (b.clone(), a.clone())
    }
}

/// `lex_le` is a total order: any two strings compare one way or the
/// other, and only equal strings compare both ways.
pub proof fn lemma_lex_total(a: Seq<char>, b: Seq<char>)
    ensures
        lex_le(a, b) || lex_le(b, a),
        lex_le(a, b) && lex_le(b, a) ==> a == b,
    decreases a.len(),
{
    if a.len() > 0 && b.len() > 0 && a[0] == b[0] {
        lemma_lex_total(a.drop_first(), b.drop_first());
        if lex_le(a, b) && lex_le(b, a) {
            assert(a[0] == b[0]);
            assert(a =~= seq![a[0]] + a.drop_first());
            assert(b =~= seq![b[0]] + b.drop_first());
        }
    }
}

/// The edge between two nodes has the same key whichever side declares it.
pub proof fn lemma_edge_key_symmetric(a: Seq<char>, b: Seq<char>)
    ensures
        edge_key_spec(a, b) == edge_key_spec(b, a),
{
    lemma_lex_total(a, b);
}

/// Every (node, peer) link the nodes declare, in order.
pub open spec fn declared_links(nodes: Seq<(Seq<char>, Seq<Seq<char>>)>) -> Seq<(Seq<char>, Seq<char>)>
    decreases nodes.len(),
{
    if nodes.len() == 0 {
        Seq::empty()
    } else {
        let n = nodes.last();
        declared_links(nodes.drop_last()) + n.1.map_values(|p: Seq<char>| (n.0, p))
    }
}

/// Whether some edge of `edges` has key `k`.
pub open spec fn has_edge(edges: Seq<(Seq<char>, Seq<char>)>, k: (Seq<char>, Seq<char>)) -> bool {
    exists|i: int| 0 <= i < edges.len() && edge_key_spec(#[trigger] edges[i].0, edges[i].1) == k
}

/// Whether a declared link gets a connector: not a loopback, both ends
/// placed on the canvas.
pub open spec fn drawable(l: (Seq<char>, Seq<char>), placed: Seq<Seq<char>>) -> bool {
    l.0 != l.1 && placed.contains(l.0) && placed.contains(l.1)
}

/// The edges that should have a connector, one per key, oriented as first
/// declared, in order of first declaration.
pub open spec fn desired_edges(links: Seq<(Seq<char>, Seq<char>)>, placed: Seq<Seq<char>>) -> Seq<(Seq<char>, Seq<char>)>
    decreases links.len(),
{
    if links.len() == 0 {
        Seq::empty()
    } else {
        let acc = desired_edges(links.drop_last(), placed);
        let l = links.last();
        if drawable(l, placed) && !has_edge(acc, edge_key_spec(l.0, l.1)) {
            acc.push(l)
        } else {
            acc
        }
    }
}

/// Nodes as (name, links) pairs.
pub open spec fn node_links<P>(insts: Seq<(Seq<char>, Seq<Seq<char>>, P)>) -> Seq<(Seq<char>, Seq<Seq<char>>)> {
    insts.map_values(|i: (Seq<char>, Seq<Seq<char>>, P)| (i.0, i.1))
}

/// Whether an edge with key `k` is among `edges`.
fn find_edge(edges: &Vec<(String, String)>, k: &(String, String)) -> (b: bool)
    ensures
        b == has_edge(edge_views(edges@), (k.0@, k.1@)),
{
    let ghost ev = edge_views(edges@);
    let mut i: usize = 0;
    while i < edges.len()
        invariant
            i <= edges.len(),
            ev == edge_views(edges@),
            forall|j: int| 0 <= j < i ==> edge_key_spec(#[trigger] ev[j].0, ev[j].1) != (k.0@, k.1@),
        decreases edges.len() - i,
    {
        assert(ev[i as int] == (edges@[i as int].0@, edges@[i as int].1@));
        let key = edge_key(&edges[i].0, &edges[i].1);
        if key.0 == k.0 && key.1 == k.1 {
            assert(edge_key_spec(ev[i as int].0, ev[i as int].1) == (k.0@, k.1@));
            return true;
        }
        i = i + 1;
    }
    false
}

/// Edges as plain values.
pub open spec fn edge_views(s: Seq<(String, String)>) -> Seq<(Seq<char>, Seq<char>)> {
    s.map_values(|e: (String, String)| (e.0@, e.1@))
}

/// The edges that should have a connector right now: each link a node
/// declares, skipping loopbacks and links with an end not yet placed on the
/// canvas (`placed`), one per undirected edge, as first declared.
pub fn desired_connectors<P>(instances: &Vec<Instance<P>>, placed: &Vec<String>) -> (edges: Vec<(String, String)>)
    ensures
        edge_views(edges@) == desired_edges(
            declared_links(node_links(instances_view(instances@))),
            string_views(placed@),
        ),
{
    let ghost nodes = node_links(instances_view(instances@));
    let ghost pv = string_views(placed@);
    let mut edges: Vec<(String, String)> = Vec::new();
    let mut i: usize = 0;
    assert(nodes.take(0) =~= Seq::<(Seq<char>, Seq<Seq<char>>)>::empty());
    while i < instances.len()
        invariant
            i <= instances.len(),
            nodes == node_links(instances_view(instances@)),
            pv == string_views(placed@),
            edge_views(edges@) == desired_edges(declared_links(nodes.take(i as int)), pv),
        decreases instances.len() - i,
    {
        let node = &instances[i];
        let ghost n = nodes[i as int];
        assert(n == (node.name@, string_views(node.links@)));
        let ghost before = declared_links(nodes.take(i as int));
        let ghost mine = n.1.map_values(|p: Seq<char>| (n.0, p));
        assert(nodes.take(i + 1).drop_last() =~= nodes.take(i as int));
        assert(declared_links(nodes.take(i + 1)) == before + mine);
        let mut j: usize = 0;
        assert(before + mine.take(0) =~= before);
        while j < node.links.len()
            invariant
                j <= node.links.len(),
                node == &instances[i as int],
                n == (node.name@, string_views(node.links@)),
                mine == n.1.map_values(|p: Seq<char>| (n.0, p)),
                pv == string_views(placed@),
                edge_views(edges@) == desired_edges(before + mine.take(j as int), pv),
            decreases node.links.len() - j,
        {
            let peer = &node.links[j];
            assert((before + mine.take(j + 1)).drop_last() =~= before + mine.take(j as int));
            assert((before + mine.take(j + 1)).last() == (node.name@, peer@));
            if node.name != *peer {
                let a_placed = find_string(placed, &node.name);
                let b_placed = find_string(placed, peer);
                if a_placed.is_some() && b_placed.is_some() {
                    assert(pv[a_placed.unwrap() as int] == node.name@);
                    assert(pv[b_placed.unwrap() as int] == peer@);
                    let key = edge_key(&node.name, peer);
                    if !find_edge(&edges, &key) {
                        let ghost e0 = edge_views(edges@);
                        edges.push((node.name.clone(), peer.clone()));
                        assert(edge_views(edges@) =~= e0.push((node.name@, peer@)));
                    }
                }
            }
            j = j + 1;
        }
        assert(mine.take(node.links.len() as int) =~= mine);
        i = i + 1;
    }
    assert(nodes.take(instances.len() as int) =~= nodes);
    edges
}

/// The plan that brings the canvas's connectors in line with the desired
/// edges: the indices of existing connectors to remove (their edge is no
/// longer declared) and of desired edges to add (no connector has their
/// key yet).
pub fn connector_changes(existing: &Vec<(String, String)>, desired: &Vec<(String, String)>) -> (r: (Vec<usize>, Vec<usize>))
    ensures
        forall|k: int| 0 <= k < r.0@.len() ==> #[trigger] r.0@[k] < existing.len(),
        forall|k: int| 0 <= k < r.1@.len() ==> #[trigger] r.1@[k] < desired.len(),
        forall|i: int| 0 <= i < existing.len() ==> (r.0@.contains(i as usize) <==> !has_edge(
            edge_views(desired@),
            edge_key_spec(existing@[i].0@, existing@[i].1@),
        )),
        forall|i: int| 0 <= i < desired.len() ==> (r.1@.contains(i as usize) <==> !has_edge(
            edge_views(existing@),
            edge_key_spec(desired@[i].0@, desired@[i].1@),
        )),
{
    let remove = missing_from(existing, desired);
    let add = missing_from(desired, existing);
    (remove, add)
}

/// The indices of the edges of `a` whose key no edge of `b` has, in order.
fn missing_from(a: &Vec<(String, String)>, b: &Vec<(String, String)>) -> (r: Vec<usize>)
    ensures
        forall|k: int| 0 <= k < r@.len() ==> #[trigger] r@[k] < a.len(),
        forall|i: int| 0 <= i < a.len() ==> (r@.contains(i as usize) <==> !has_edge(
            edge_views(b@),
            edge_key_spec(a@[i].0@, a@[i].1@),
        )),
{
    let mut r: Vec<usize> = Vec::new();
    let mut i: usize = 0;
    while i < a.len()
        invariant
            i <= a.len(),
            forall|k: int| 0 <= k < r@.len() ==> #[trigger] r@[k] < i,
            forall|j: int| 0 <= j < i ==> (r@.contains(j as usize) <==> !has_edge(
                edge_views(b@),
                edge_key_spec(a@[j].0@, a@[j].1@),
            )),
        decreases a.len() - i,
    {
        let key = edge_key(&a[i].0, &a[i].1);
        let ghost r0 = r@;
        if !find_edge(b, &key) {
            r.push(i);
            assert(r@ == r0.push(i));
            assert forall|j: int| 0 <= j <= i implies (r@.contains(j as usize) <==> !has_edge(
                edge_views(b@),
                edge_key_spec(a@[j].0@, a@[j].1@),
            )) by {
                crate::topology::lemma_push_contains(r0, i, j as usize);
            }
        } else {
            assert forall|j: int| 0 <= j <= i implies (r@.contains(j as usize) <==> !has_edge(
                edge_views(b@),
                edge_key_spec(a@[j].0@, a@[j].1@),
            )) by {
                if j == i {
                    assert(!r0.contains(i));
                }
            }
        }
        i = i + 1;
    }
    r
}

/// The connectors a message from `from` to `to` travels on: those joining
/// the two nodes, in either direction.
pub fn connectors_between(connectors: &Vec<(String, String)>, from: &String, to: &String) -> (r: Vec<usize>)
    ensures
        forall|k: int| 0 <= k < r@.len() ==> #[trigger] r@[k] < connectors.len(),
        forall|i: int| 0 <= i < connectors.len() ==> (r@.contains(i as usize) <==> (
            (connectors@[i].0@ == from@ && connectors@[i].1@ == to@)
            || (connectors@[i].1@ == from@ && connectors@[i].0@ == to@))),
{
    let mut r: Vec<usize> = Vec::new();
    let mut i: usize = 0;
    while i < connectors.len()
        invariant
            i <= connectors.len(),
            forall|k: int| 0 <= k < r@.len() ==> #[trigger] r@[k] < i,
            forall|j: int| 0 <= j < i ==> (r@.contains(j as usize) <==> (
                (connectors@[j].0@ == from@ && connectors@[j].1@ == to@)
                || (connectors@[j].1@ == from@ && connectors@[j].0@ == to@))),
        decreases connectors.len() - i,
    {
        let c = &connectors[i];
        let ghost r0 = r@;
        if (c.0 == *from && c.1 == *to) || (c.1 == *from && c.0 == *to) {
            r.push(i);
            assert forall|j: int| 0 <= j <= i implies (r@.contains(j as usize) <==> (
                (connectors@[j].0@ == from@ && connectors@[j].1@ == to@)
                || (connectors@[j].1@ == from@ && connectors@[j].0@ == to@))) by {
                crate::topology::lemma_push_contains(r0, i, j as usize);
            }
        } else {
            assert forall|j: int| 0 <= j <= i implies (r@.contains(j as usize) <==> (
                (connectors@[j].0@ == from@ && connectors@[j].1@ == to@)
                || (connectors@[j].1@ == from@ && connectors@[j].0@ == to@))) by {
                if j == i {
                    assert(!r0.contains(i));
                }
            }
        }
        i = i + 1;
    }
    r
}

/// One connector per undirected edge: every desired edge is one of the
/// declared links and drawable (no loopback, both ends placed), no two
/// share a key, and every drawable declared link has its edge among them.
pub proof fn lemma_desired_edges(links: Seq<(Seq<char>, Seq<char>)>, placed: Seq<Seq<char>>)
    ensures
        ({
            let e = desired_edges(links, placed);
            &&& forall|i: int| 0 <= i < e.len() ==> drawable(#[trigger] e[i], placed)
            &&& forall|i: int| 0 <= i < e.len() ==> exists|k: int| 0 <= k < links.len() && links[k] == #[trigger] e[i]
            &&& forall|i: int, j: int| 0 <= i < e.len() && 0 <= j < e.len() && i != j
                ==> edge_key_spec(#[trigger] e[i].0, e[i].1) != edge_key_spec(#[trigger] e[j].0, e[j].1)
            &&& forall|k: int| 0 <= k < links.len() && drawable(#[trigger] links[k], placed)
                ==> has_edge(e, edge_key_spec(links[k].0, links[k].1))
        }),
    decreases links.len(),
{
    if links.len() > 0 {
        let d = links.drop_last();
        lemma_desired_edges(d, placed);
        let acc = desired_edges(d, placed);
        let l = links.last();
        let e = desired_edges(links, placed);
        let added = drawable(l, placed) && !has_edge(acc, edge_key_spec(l.0, l.1));
        if added {
            assert(e == acc.push(l));
            assert forall|i: int| 0 <= i < e.len() implies drawable(#[trigger] e[i], placed) by {
                if i < acc.len() {
                    assert(e[i] == acc[i]);
                }
            }
            assert forall|i: int| 0 <= i < e.len() implies exists|k: int| 0 <= k < links.len() && links[k] == #[trigger] e[i] by {
                if i < acc.len() {
                    assert(e[i] == acc[i]);
                    let k = choose|k: int| 0 <= k < d.len() && d[k] == acc[i];
                    assert(links[k] == d[k]);
                } else {
                    assert(links[links.len() - 1] == e[i]);
                }
            }
            assert forall|i: int, j: int| 0 <= i < e.len() && 0 <= j < e.len() && i != j
                implies edge_key_spec(#[trigger] e[i].0, e[i].1) != edge_key_spec(#[trigger] e[j].0, e[j].1) by {
                if i < acc.len() && j < acc.len() {
                    assert(e[i] == acc[i] && e[j] == acc[j]);
                } else if i < acc.len() {
                    assert(e[i] == acc[i]);
                    if edge_key_spec(acc[i].0, acc[i].1) == edge_key_spec(l.0, l.1) {
                        assert(has_edge(acc, edge_key_spec(l.0, l.1)));
                    }
                } else {
                    assert(e[j] == acc[j]);
                    if edge_key_spec(acc[j].0, acc[j].1) == edge_key_spec(l.0, l.1) {
                        assert(has_edge(acc, edge_key_spec(l.0, l.1)));
                    }
                }
            }
        } else {
            assert(e == acc);
            assert forall|i: int| 0 <= i < e.len() implies exists|k: int| 0 <= k < links.len() && links[k] == #[trigger] e[i] by {
                let k = choose|k: int| 0 <= k < d.len() && d[k] == acc[i];
                assert(links[k] == d[k]);
            }
        }
        assert forall|k: int| 0 <= k < links.len() && drawable(#[trigger] links[k], placed)
            implies has_edge(e, edge_key_spec(links[k].0, links[k].1)) by {
            let key = edge_key_spec(links[k].0, links[k].1);
            if k < d.len() {
                assert(d[k] == links[k]);
                assert(has_edge(acc, key));
                let w = choose|w: int| 0 <= w < acc.len() && edge_key_spec(#[trigger] acc[w].0, acc[w].1) == key;
                if added {
                    assert(e[w] == acc[w]);
                }
            } else {
                assert(links[k] == l);
                if added {
                    assert(e[acc.len() as int] == l);
                } else {
                    assert(has_edge(acc, key));
                }
            }
        }
    }
}

/// Whether the canvas shows a connector with key `k` once a plan from
/// `connector_changes` is carried out: an existing connector whose edge is
/// still desired stays, and a desired edge no connector had is added.
pub open spec fn shown_after(existing: Seq<(Seq<char>, Seq<char>)>, desired: Seq<(Seq<char>, Seq<char>)>, k: (Seq<char>, Seq<char>)) -> bool {
    ||| exists|i: int| 0 <= i < existing.len() && has_edge(desired, edge_key_spec(existing[i].0, existing[i].1))
        && #[trigger] edge_key_spec(existing[i].0, existing[i].1) == k
    ||| exists|j: int| 0 <= j < desired.len() && !has_edge(existing, edge_key_spec(desired[j].0, desired[j].1))
        && #[trigger] edge_key_spec(desired[j].0, desired[j].1) == k
}

/// The connectors match the declared links: after the plan, a connector
/// with key `k` is shown exactly when some node declares a link with that
/// key between two placed nodes that is not a loopback; with no links at
/// all, every connector goes.
pub proof fn lemma_connector_plan(
    existing: Seq<(Seq<char>, Seq<char>)>,
    links: Seq<(Seq<char>, Seq<char>)>,
    placed: Seq<Seq<char>>,
    k: (Seq<char>, Seq<char>),
)
    ensures
        shown_after(existing, desired_edges(links, placed), k) <==> exists|l: int|
            0 <= l < links.len() && drawable(links[l], placed) && #[trigger] edge_key_spec(links[l].0, links[l].1) == k,
{
    let d = desired_edges(links, placed);
    lemma_desired_edges(links, placed);
    if shown_after(existing, d, k) {
        let j: int = if exists|i: int| 0 <= i < existing.len() && has_edge(d, edge_key_spec(existing[i].0, existing[i].1))
            && #[trigger] edge_key_spec(existing[i].0, existing[i].1) == k {
            let i = choose|i: int| 0 <= i < existing.len() && has_edge(d, edge_key_spec(existing[i].0, existing[i].1))
                && #[trigger] edge_key_spec(existing[i].0, existing[i].1) == k;
            choose|w: int| 0 <= w < d.len() && edge_key_spec(#[trigger] d[w].0, d[w].1) == edge_key_spec(existing[i].0, existing[i].1)
        } else {
            choose|j: int| 0 <= j < d.len() && !has_edge(existing, edge_key_spec(d[j].0, d[j].1))
                && #[trigger] edge_key_spec(d[j].0, d[j].1) == k
        };
        assert(0 <= j < d.len() && edge_key_spec(d[j].0, d[j].1) == k);
        assert(drawable(d[j], placed));
        let l = choose|l: int| 0 <= l < links.len() && links[l] == #[trigger] d[j];
        assert(edge_key_spec(links[l].0, links[l].1) == k);
    }
    if exists|l: int| 0 <= l < links.len() && drawable(links[l], placed) && #[trigger] edge_key_spec(links[l].0, links[l].1) == k {
        let l = choose|l: int| 0 <= l < links.len() && drawable(links[l], placed) && #[trigger] edge_key_spec(links[l].0, links[l].1) == k;
        assert(drawable(links[l], placed));
        assert(has_edge(d, k));
        let w = choose|w: int| 0 <= w < d.len() && edge_key_spec(#[trigger] d[w].0, d[w].1) == k;
        if has_edge(existing, k) {
            let i = choose|i: int| 0 <= i < existing.len() && edge_key_spec(#[trigger] existing[i].0, existing[i].1) == k;
            assert(edge_key_spec(existing[i].0, existing[i].1) == k);
        } else {
            assert(edge_key_spec(d[w].0, d[w].1) == k);
        }
    }
}

} // verus!
