//! Runtime topology edits requested by node scripts: `link`/`unlink` on the
//! calling node, `despawn_node` of any node, and `spawn_node` of a new node.
//! Instances and graph entries carry a payload the library does not read
//! (the script state of an instance, the layout fields of an entry).
use vstd::prelude::*;
use crate::text::{string_views, find_string, concat, usize_to_string, decimal};
use crate::schema::{compile_override, script_compiles, SchemaError};

verus! {

broadcast use vstd::seq_lib::group_seq_properties;

/// The most node instances a graph may hold; a script's runaway spawning
/// stops there.
pub const MAX_NODES: usize = 200;

/// A live node instance: its name, the peers it links to, and a payload.
#[derive(Debug)]
pub struct Instance<P> {
    pub name: String,
    pub links: Vec<String>,
    pub payload: P,
}

/// An entry of the graph's node list: its name and a payload.
#[derive(Debug)]
pub struct Connection<C> {
    pub name: String,
    pub payload: C,
}

/// The live topology: instances, graph entries, and the known node type ids.
#[derive(Debug)]
pub struct Topology<P, C> {
    pub instances: Vec<Instance<P>>,
    pub connections: Vec<Connection<C>>,
    pub node_types: Vec<String>,
}

/// `s` without the entries equal to `x`, order kept.
pub open spec fn without(s: Seq<Seq<char>>, x: Seq<char>) -> Seq<Seq<char>>
    decreases s.len(),
{
    if s.len() == 0 {
        s
    } else if s.last() == x {
        without(s.drop_last(), x)
    } else {
        without(s.drop_last(), x).push(s.last())
    }
}

/// `links` after a `link(peer)` (`add`) or `unlink(peer)` call: a link is
/// added at the end unless already there, an unlink drops every copy.
pub open spec fn link_op(links: Seq<Seq<char>>, add: bool, peer: Seq<char>) -> Seq<Seq<char>> {
    if add {
        if links.contains(peer) {
            links
        } else {
            links.push(peer)
        }
    } else {
        without(links, peer)
    }
}

/// `links` after each of `ops` in turn.
pub open spec fn link_ops(links: Seq<Seq<char>>, ops: Seq<(bool, Seq<char>)>) -> Seq<Seq<char>>
    decreases ops.len(),
{
    if ops.len() == 0 {
        links
    } else {
        let prev = link_ops(links, ops.drop_last());
        link_op(prev, ops.last().0, ops.last().1)
    }
}

/// An instance as plain values.
pub open spec fn instance_view<P>(i: Instance<P>) -> (Seq<char>, Seq<Seq<char>>, P) {
    (i.name@, string_views(i.links@), i.payload)
}

/// Instances as plain values.
pub open spec fn instances_view<P>(v: Seq<Instance<P>>) -> Seq<(Seq<char>, Seq<Seq<char>>, P)> {
    v.map_values(|i: Instance<P>| instance_view(i))
}

/// Graph entries as plain values.
pub open spec fn connections_view<C>(v: Seq<Connection<C>>) -> Seq<(Seq<char>, C)> {
    v.map_values(|c: Connection<C>| (c.name@, c.payload))
}

/// The instances not named `x`, order kept.
pub open spec fn instances_without<P>(s: Seq<(Seq<char>, Seq<Seq<char>>, P)>, x: Seq<char>) -> Seq<
    (Seq<char>, Seq<Seq<char>>, P),
>
    decreases s.len(),
{
    if s.len() == 0 {
        s
    } else if s.last().0 == x {
        instances_without(s.drop_last(), x)
    } else {
        instances_without(s.drop_last(), x).push(s.last())
    }
}

/// The graph entries not named `x`, order kept.
pub open spec fn connections_without<C>(s: Seq<(Seq<char>, C)>, x: Seq<char>) -> Seq<(Seq<char>, C)>
    decreases s.len(),
{
    if s.len() == 0 {
        s
    } else if s.last().0 == x {
        connections_without(s.drop_last(), x)
    } else {
        connections_without(s.drop_last(), x).push(s.last())
    }
}

/// The instances with every link to `x` dropped.
pub open spec fn unlinked<P>(s: Seq<(Seq<char>, Seq<Seq<char>>, P)>, x: Seq<char>) -> Seq<
    (Seq<char>, Seq<Seq<char>>, P),
> {
    s.map_values(|e: (Seq<char>, Seq<Seq<char>>, P)| (e.0, without(e.1, x), e.2))
}

/// Whether an instance named `x` exists.
pub open spec fn has_instance<P>(s: Seq<(Seq<char>, Seq<Seq<char>>, P)>, x: Seq<char>) -> bool {
    exists|i: int| 0 <= i < s.len() && #[trigger] s[i].0 == x
}

/// Drops every copy of `x` from `v`.
pub fn drop_all(v: &mut Vec<String>, x: &String)
    ensures
        string_views(final(v)@) == without(string_views(old(v)@), x@),
{
    let ghost orig = string_views(v@);
    let mut kept: Vec<String> = Vec::new();
    let mut i: usize = 0;
    assert(orig.take(0) =~= Seq::<Seq<char>>::empty());
    while i < v.len()
        invariant
            i <= v.len(),
            orig == string_views(v@),
            string_views(kept@) == without(orig.take(i as int), x@),
        decreases v.len() - i,
    {
        assert(orig.take(i + 1).drop_last() =~= orig.take(i as int));
        assert(orig.take(i + 1).last() == v@[i as int]@);
        if v[i] != *x {
            let ghost before = string_views(kept@);
            kept.push(v[i].clone());
            assert(string_views(kept@) =~= before.push(v@[i as int]@));
        }
        i = i + 1;
    }
    assert(orig.take(v.len() as int) =~= orig);
    *v = kept;
}

/// Applies the calling node's `link(peer)` (`true`) and `unlink(peer)`
/// (`false`) calls to its links, in order.
pub fn apply_link_ops(links: &mut Vec<String>, ops: &Vec<(bool, String)>)
    ensures
        string_views(final(links)@) == link_ops(
            string_views(old(links)@),
            ops@.map_values(|o: (bool, String)| (o.0, o.1@)),
        ),
{
    let ghost l0 = string_views(links@);
    let ghost ov = ops@.map_values(|o: (bool, String)| (o.0, o.1@));
    let mut i: usize = 0;
    assert(ov.take(0) =~= Seq::<(bool, Seq<char>)>::empty());
    while i < ops.len()
        invariant
            i <= ops.len(),
            ov == ops@.map_values(|o: (bool, String)| (o.0, o.1@)),
            string_views(links@) == link_ops(l0, ov.take(i as int)),
        decreases ops.len() - i,
    {
        assert(ov.take(i + 1).drop_last() =~= ov.take(i as int));
        assert(ov.take(i + 1).last() == (ops@[i as int].0, ops@[i as int].1@));
        let (add, peer) = (ops[i].0, &ops[i].1);
        if add {
            match find_string(links, peer) {
                Some(k) => {
                    assert(string_views(links@)[k as int] == peer@);
                },
                None => {
                    let ghost before = string_views(links@);
                    links.push(peer.clone());
                    assert(string_views(links@) =~= before.push(peer@));
                },
            }
        } else {
            drop_all(links, peer);
        }
        i = i + 1;
    }
    assert(ov.take(ops.len() as int) =~= ov);
}

/// A `link` leaves the peer linked, an `unlink` leaves it unlinked, and
/// neither makes a link appear twice.
pub proof fn lemma_link_op(links: Seq<Seq<char>>, add: bool, peer: Seq<char>)
    ensures
        add ==> link_op(links, add, peer).contains(peer),
        !add ==> !link_op(links, add, peer).contains(peer),
        links.no_duplicates() ==> link_op(links, add, peer).no_duplicates(),
{
    if !add {
        lemma_without(links, peer);
    } else if !links.contains(peer) {
        assert(links.push(peer)[links.len() as int] == peer);
        if links.no_duplicates() {
            assert forall|a: int, b: int|
                0 <= a < links.len() + 1 && 0 <= b < links.len() + 1 && a != b implies #[trigger] links.push(
                peer,
            )[a] != #[trigger] links.push(peer)[b] by {
                if a == links.len() {
                    assert(links.contains(links.push(peer)[b]));
                } else if b == links.len() {
                    assert(links.contains(links.push(peer)[a]));
                }
            }
        }
    }
}

/// An entry is in `s.push(v)` exactly when it is `v` or already in `s`.
pub proof fn lemma_push_contains<A>(s: Seq<A>, v: A, y: A)
    ensures
        s.push(v).contains(y) <==> (s.contains(y) || v == y),
{
    if s.push(v).contains(y) {
        let k = choose|k: int| 0 <= k < s.len() + 1 && s.push(v)[k] == y;
        if k < s.len() {
            assert(s[k] == y);
        }
    }
    if s.contains(y) {
        let k = choose|k: int| 0 <= k < s.len() && s[k] == y;
        assert(s.push(v)[k] == y);
    }
    if v == y {
        assert(s.push(v)[s.len() as int] == y);
    }
}

/// Dropping `x` leaves no `x`, keeps every other entry, and keeps a
/// duplicate-free list duplicate-free.
pub proof fn lemma_without(s: Seq<Seq<char>>, x: Seq<char>)
    ensures
        !without(s, x).contains(x),
        forall|y: Seq<char>| y != x ==> (without(s, x).contains(y) <==> s.contains(y)),
        s.no_duplicates() ==> without(s, x).no_duplicates(),
    decreases s.len(),
{
    if s.len() > 0 {
        let d = s.drop_last();
        lemma_without(d, x);
        let r = without(d, x);
        assert(s =~= d.push(s.last()));
        if s.last() != x {
            lemma_push_contains(r, s.last(), x);
        }
        assert forall|y: Seq<char>| y != x implies (without(s, x).contains(y) <==> s.contains(y)) by {
            lemma_push_contains(d, s.last(), y);
            lemma_push_contains(r, s.last(), y);
        }
        if s.no_duplicates() {
            assert(d.no_duplicates()) by {
                assert forall|a: int, b: int| 0 <= a < d.len() && 0 <= b < d.len() && a != b implies
                    #[trigger] d[a] != #[trigger] d[b] by {
                    assert(s[a] != s[b]);
                }
            }
            if s.last() != x {
                assert(!d.contains(s.last())) by {
                    if d.contains(s.last()) {
                        let j = choose|j: int| 0 <= j < d.len() && d[j] == s.last();
                        assert(s[j] == s[s.len() - 1]);
                    }
                }
                assert(!r.contains(s.last()));
                assert forall|a: int, b: int|
                    0 <= a < r.len() + 1 && 0 <= b < r.len() + 1 && a != b implies #[trigger] r.push(
                    s.last(),
                )[a] != #[trigger] r.push(s.last())[b] by {
                    if a == r.len() {
                        assert(r.contains(r.push(s.last())[b]));
                    } else if b == r.len() {
                        assert(r.contains(r.push(s.last())[a]));
                    }
                }
            }
        }
    }
}

/// The state a batch of despawns works on: instances, graph entries, and
/// the names removed so far.
pub type DespawnState<P, C> = (Seq<(Seq<char>, Seq<Seq<char>>, P)>, Seq<(Seq<char>, C)>, Seq<Seq<char>>);

/// One `despawn(name)` request: the instances and graph entries named `name`
/// go; if an instance went, every surviving link to `name` goes too and
/// `name` is reported as removed. A graph entry named `name` goes even when
/// no instance did.
pub open spec fn despawn_step<P, C>(st: DespawnState<P, C>, name: Seq<char>) -> DespawnState<P, C> {
    let kept = instances_without(st.0, name);
    let conns = connections_without(st.1, name);
    if kept.len() == st.0.len() {
        (kept, conns, st.2)
    } else {
        (unlinked(kept, name), conns, st.2.push(name))
    }
}

/// The requests of `names` applied in order.
pub open spec fn despawns<P, C>(st: DespawnState<P, C>, names: Seq<Seq<char>>) -> DespawnState<P, C>
    decreases names.len(),
{
    if names.len() == 0 {
        st
    } else {
        despawn_step(despawns(st, names.drop_last()), names.last())
    }
}

/// No instance or graph entry is named `n`, and no instance links to `n`.
pub open spec fn gone<P, C>(insts: Seq<(Seq<char>, Seq<Seq<char>>, P)>, conns: Seq<(Seq<char>, C)>, n: Seq<char>) -> bool {
    &&& forall|i: int| 0 <= i < insts.len() ==> #[trigger] insts[i].0 != n && !insts[i].1.contains(n)
    &&& forall|i: int| 0 <= i < conns.len() ==> #[trigger] conns[i].0 != n
}

/// Moves the instances not named `name` out of `v`, order kept.
fn remove_instances_named<P>(v: &mut Vec<Instance<P>>, name: &String)
    ensures
        instances_view(final(v)@) == instances_without(instances_view(old(v)@), name@),
{
    let ghost ov = instances_view(v@);
    let mut rest: Vec<Instance<P>> = Vec::new();
    std::mem::swap(&mut rest, v);
    assert(ov.take(0) =~= Seq::<(Seq<char>, Seq<Seq<char>>, P)>::empty());
    assert(ov.skip(0) =~= ov);
    while rest.len() > 0
        invariant
            rest.len() <= ov.len(),
            instances_view(rest@) == ov.skip(ov.len() - rest.len()),
            instances_view(v@) == instances_without(ov.take(ov.len() - rest.len()), name@),
        decreases rest.len(),
    {
        let ghost j = ov.len() - rest.len();
        let ghost before = rest@;
        let e = rest.remove(0);
        assert(instance_view(e) == ov[j]) by {
            assert(instances_view(before)[0] == ov.skip(j)[0]);
        }
        assert(instances_view(rest@) =~= ov.skip(j + 1)) by {
            assert(rest@ =~= before.subrange(1, before.len() as int));
        }
        assert(ov.take(j + 1).drop_last() =~= ov.take(j));
        assert(ov.take(j + 1).last() == ov[j]);
        if e.name != *name {
            let ghost pre = instances_view(v@);
            v.push(e);
            assert(instances_view(v@) =~= pre.push(ov[j]));
        }
    }
    assert(ov.take(ov.len() as int) =~= ov);
}

/// Moves the graph entries not named `name` out of `v`, order kept.
fn remove_connections_named<C>(v: &mut Vec<Connection<C>>, name: &String)
    ensures
        connections_view(final(v)@) == connections_without(connections_view(old(v)@), name@),
{
    let ghost ov = connections_view(v@);
    let mut rest: Vec<Connection<C>> = Vec::new();
    std::mem::swap(&mut rest, v);
    assert(ov.take(0) =~= Seq::<(Seq<char>, C)>::empty());
    assert(ov.skip(0) =~= ov);
    while rest.len() > 0
        invariant
            rest.len() <= ov.len(),
            connections_view(rest@) == ov.skip(ov.len() - rest.len()),
            connections_view(v@) == connections_without(ov.take(ov.len() - rest.len()), name@),
        decreases rest.len(),
    {
        let ghost j = ov.len() - rest.len();
        let ghost before = rest@;
        let e = rest.remove(0);
        assert((e.name@, e.payload) == ov[j]) by {
            assert(connections_view(before)[0] == ov.skip(j)[0]);
        }
        assert(connections_view(rest@) =~= ov.skip(j + 1)) by {
            assert(rest@ =~= before.subrange(1, before.len() as int));
        }
        assert(ov.take(j + 1).drop_last() =~= ov.take(j));
        assert(ov.take(j + 1).last() == ov[j]);
        if e.name != *name {
            let ghost pre = connections_view(v@);
            v.push(e);
            assert(connections_view(v@) =~= pre.push(ov[j]));
        }
    }
    assert(ov.take(ov.len() as int) =~= ov);
}

/// Drops every link to `name` from every instance.
fn unlink_everywhere<P>(v: &mut Vec<Instance<P>>, name: &String)
    ensures
        instances_view(final(v)@) == unlinked(instances_view(old(v)@), name@),
{
    let ghost ov = instances_view(v@);
    let mut rest: Vec<Instance<P>> = Vec::new();
    std::mem::swap(&mut rest, v);
    assert(ov.skip(0) =~= ov);
    while rest.len() > 0
        invariant
            rest.len() <= ov.len(),
            instances_view(rest@) == ov.skip(ov.len() - rest.len()),
            instances_view(v@) == unlinked(ov.take(ov.len() - rest.len()), name@),
        decreases rest.len(),
    {
        let ghost j = ov.len() - rest.len();
        let ghost before = rest@;
        let mut e = rest.remove(0);
        assert(instance_view(e) == ov[j]) by {
            assert(instances_view(before)[0] == ov.skip(j)[0]);
        }
        assert(instances_view(rest@) =~= ov.skip(j + 1)) by {
            assert(rest@ =~= before.subrange(1, before.len() as int));
        }
        drop_all(&mut e.links, name);
        let ghost pre = instances_view(v@);
        v.push(e);
        assert(instances_view(v@) =~= pre.push((ov[j].0, without(ov[j].1, name@), ov[j].2)));
        assert(unlinked(ov.take(j + 1), name@) =~= pre.push((ov[j].0, without(ov[j].1, name@), ov[j].2)));
    }
    assert(ov.take(ov.len() as int) =~= ov);
}

impl<P, C> Topology<P, C> {
    /// The instances, graph entries and an empty list of removed names.
    pub open spec fn despawn_start(&self) -> DespawnState<P, C> {
        (instances_view(self.instances@), connections_view(self.connections@), Seq::empty())
    }

    /// Applies a frame's `despawn()` requests, each a (requesting node,
    /// name) pair, in order, and returns the names actually removed.
    pub fn apply_despawns(&mut self, pending: Vec<(String, String)>) -> (removed: Vec<String>)
        ensures
            despawns(old(self).despawn_start(), pending@.map_values(|r: (String, String)| r.1@))
                == (instances_view(final(self).instances@), connections_view(final(self).connections@), string_views(removed@)),
            final(self).node_types == old(self).node_types,
    {
        let ghost st0 = self.despawn_start();
        let ghost names = pending@.map_values(|r: (String, String)| r.1@);
        let mut removed: Vec<String> = Vec::new();
        let mut i: usize = 0;
        assert(names.take(0) =~= Seq::<Seq<char>>::empty());
        assert(string_views(removed@) =~= Seq::<Seq<char>>::empty());
        while i < pending.len()
            invariant
                i <= pending.len(),
                names == pending@.map_values(|r: (String, String)| r.1@),
                despawns(st0, names.take(i as int))
                    == (instances_view(self.instances@), connections_view(self.connections@), string_views(removed@)),
                self.node_types == old(self).node_types,
            decreases pending.len() - i,
        {
            assert(names.take(i + 1).drop_last() =~= names.take(i as int));
            assert(names.take(i + 1).last() == pending@[i as int].1@);
            let name = &pending[i].1;
            let before = self.instances.len();
            remove_instances_named(&mut self.instances, name);
            remove_connections_named(&mut self.connections, name);
            if self.instances.len() != before {
                unlink_everywhere(&mut self.instances, name);
                let ghost pre = string_views(removed@);
                removed.push(name.clone());
                assert(string_views(removed@) =~= pre.push(name@));
            }
            i = i + 1;
        }
        assert(names.take(pending.len() as int) =~= names);
        removed
    }
}

/// Every instance left by `instances_without(s, x)` is one of `s`'s, and
/// none is named `x`.
proof fn lemma_instances_without<P>(s: Seq<(Seq<char>, Seq<Seq<char>>, P)>, x: Seq<char>)
    ensures
        instances_without(s, x).len() <= s.len(),
        instances_without(s, x).len() == s.len() ==> instances_without(s, x) == s,
        forall|i: int| 0 <= i < instances_without(s, x).len() ==> #[trigger] instances_without(s, x)[i].0 != x
            && exists|j: int| 0 <= j < s.len() && s[j] == instances_without(s, x)[i],
    decreases s.len(),
{
    if s.len() > 0 {
        let d = s.drop_last();
        lemma_instances_without(d, x);
        let r = instances_without(d, x);
        assert forall|i: int| 0 <= i < instances_without(s, x).len() implies #[trigger] instances_without(s, x)[i].0 != x
            && exists|j: int| 0 <= j < s.len() && s[j] == instances_without(s, x)[i] by {
            if i < r.len() {
                let j = choose|j: int| 0 <= j < d.len() && d[j] == r[i];
                assert(s[j] == instances_without(s, x)[i]);
            } else {
                assert(s[s.len() - 1] == instances_without(s, x)[i]);
            }
        }
        if instances_without(s, x).len() == s.len() {
            assert(s.last().0 != x);
            assert(instances_without(s, x) =~= s);
        }
    }
}

/// Every graph entry left by `connections_without(s, x)` is one of `s`'s,
/// and none is named `x`.
proof fn lemma_connections_without<C>(s: Seq<(Seq<char>, C)>, x: Seq<char>)
    ensures
        forall|i: int| 0 <= i < connections_without(s, x).len() ==> #[trigger] connections_without(s, x)[i].0 != x
            && exists|j: int| 0 <= j < s.len() && s[j] == connections_without(s, x)[i],
    decreases s.len(),
{
    if s.len() > 0 {
        let d = s.drop_last();
        lemma_connections_without(d, x);
        let r = connections_without(d, x);
        assert forall|i: int| 0 <= i < connections_without(s, x).len() implies #[trigger] connections_without(s, x)[i].0 != x
            && exists|j: int| 0 <= j < s.len() && s[j] == connections_without(s, x)[i] by {
            if i < r.len() {
                let j = choose|j: int| 0 <= j < d.len() && d[j] == r[i];
                assert(s[j] == connections_without(s, x)[i]);
            } else {
                assert(s[s.len() - 1] == connections_without(s, x)[i]);
            }
        }
    }
}

/// A despawned node stays gone: after a batch of `despawn()` requests, no
/// instance or graph entry carries the name of a node the batch removed,
/// no surviving instance links to it, and only requested names are
/// reported as removed.
pub proof fn lemma_despawned_gone<P, C>(st: DespawnState<P, C>, names: Seq<Seq<char>>)
    requires
        st.2.len() == 0,
    ensures
        forall|k: int| 0 <= k < despawns(st, names).2.len() ==> gone(
            despawns(st, names).0,
            despawns(st, names).1,
            #[trigger] despawns(st, names).2[k],
        ) && names.contains(despawns(st, names).2[k]),
    decreases names.len(),
{
    if names.len() > 0 {
        let pre = despawns(st, names.drop_last());
        lemma_despawned_gone(st, names.drop_last());
        let x = names.last();
        let kept = instances_without(pre.0, x);
        let conns = connections_without(pre.1, x);
        lemma_instances_without(pre.0, x);
        lemma_connections_without(pre.1, x);
        let post = despawns(st, names);
        assert(post == despawn_step(pre, x));
        assert forall|k: int| 0 <= k < post.2.len() implies gone(post.0, post.1, #[trigger] post.2[k])
            && names.contains(post.2[k]) by {
            let n = post.2[k];
            if k < pre.2.len() {
                assert(pre.2[k] == n);
                assert(gone(pre.0, pre.1, n));
                assert(names.drop_last().contains(n));
                let w = choose|w: int| 0 <= w < names.drop_last().len() && names.drop_last()[w] == n;
                assert(names[w] == n);
            } else {
                assert(n == x);
                assert(names[names.len() - 1] == n);
            }
            assert forall|i: int| 0 <= i < post.0.len() implies #[trigger] post.0[i].0 != n && !post.0[i].1.contains(n) by {
                if kept.len() == pre.0.len() {
                    assert(post.0 == kept);
                    let j = choose|j: int| 0 <= j < pre.0.len() && pre.0[j] == kept[i];
                    assert(pre.0[j].0 != n && !pre.0[j].1.contains(n));
                } else {
                    assert(post.0 == unlinked(kept, x));
                    assert(post.0[i] == (kept[i].0, without(kept[i].1, x), kept[i].2));
                    lemma_without(kept[i].1, x);
                    if n != x {
                        let j = choose|j: int| 0 <= j < pre.0.len() && pre.0[j] == kept[i];
                        assert(pre.0[j].0 != n && !pre.0[j].1.contains(n));
                    }
                }
            }
            assert forall|i: int| 0 <= i < post.1.len() implies #[trigger] post.1[i].0 != n by {
                assert(post.1 == conns);
                assert(conns[i].0 != x);
                if n != x {
                    let j = choose|j: int| 0 <= j < pre.1.len() && pre.1[j] == conns[i];
                    assert(pre.1[j].0 != n);
                }
            }
        }
    }
}

/// Why a `spawn_node()` request was turned down.
#[derive(PartialEq, Eq, Structural, Clone, Copy, Debug)]
pub enum SpawnRejection {
    /// The graph already holds `MAX_NODES` instances.
    NodeCapReached,
    /// The requested name is empty or already names an instance.
    NameUnavailable,
    /// No node type has the requested id.
    UnknownNodeType,
}

/// What a `spawn_node(name, type_id, links)` request gets against
/// `insts` and the known type ids: a rejection, or the requested links
/// narrowed to peers that exist (order kept).
pub open spec fn spawn_check<P>(
    insts: Seq<(Seq<char>, Seq<Seq<char>>, P)>,
    types: Seq<Seq<char>>,
    name: Seq<char>,
    type_id: Seq<char>,
    links: Seq<Seq<char>>,
) -> Result<Seq<Seq<char>>, SpawnRejection> {
    if insts.len() >= MAX_NODES {
        Err(SpawnRejection::NodeCapReached)
    } else if name.len() == 0 || has_instance(insts, name) {
        Err(SpawnRejection::NameUnavailable)
    } else if !types.contains(type_id) {
        Err(SpawnRejection::UnknownNodeType)
    } else {
        Ok(links.filter(existing_peer(insts)))
    }
}

/// Whether a name is one of `insts`' names, as a predicate.
pub open spec fn existing_peer<P>(insts: Seq<(Seq<char>, Seq<Seq<char>>, P)>) -> spec_fn(Seq<char>) -> bool {
    |p: Seq<char>| has_instance(insts, p)
}

/// No two instances share a name.
pub open spec fn names_unique<P>(insts: Seq<(Seq<char>, Seq<Seq<char>>, P)>) -> bool {
    forall|i: int, j: int| 0 <= i < insts.len() && 0 <= j < insts.len() && i != j ==> #[trigger] insts[i].0 != #[trigger] insts[j].0
}

impl<P, C> Topology<P, C> {
    /// Whether an instance is named `name`.
    pub fn has_instance_named(&self, name: &String) -> (b: bool)
        ensures
            b == has_instance(instances_view(self.instances@), name@),
    {
        let ghost iv = instances_view(self.instances@);
        let mut i: usize = 0;
        while i < self.instances.len()
            invariant
                i <= self.instances.len(),
                iv == instances_view(self.instances@),
                forall|k: int| 0 <= k < i ==> iv[k].0 != name@,
            decreases self.instances.len() - i,
        {
            assert(iv[i as int] == instance_view(self.instances@[i as int]));
            if self.instances[i].name == *name {
                assert(iv[i as int].0 == name@);
                return true;
            }
            i = i + 1;
        }
        assert forall|k: int| 0 <= k < iv.len() implies #[trigger] iv[k].0 != name@ by {}
        false
    }

    /// Decides a `spawn_node(name, type_id, links)` request: a rejection,
    /// or the links the new node gets (the requested ones that name an
    /// existing instance, order kept).
    pub fn plan_spawn(&self, name: &String, type_id: &String, links: &Vec<String>) -> (r: Result<Vec<String>, SpawnRejection>)
        ensures
            match r {
                Ok(v) => spawn_check(instances_view(self.instances@), string_views(self.node_types@), name@, type_id@, string_views(links@))
                    == Ok::<Seq<Seq<char>>, SpawnRejection>(string_views(v@)),
                Err(e) => spawn_check(instances_view(self.instances@), string_views(self.node_types@), name@, type_id@, string_views(links@))
                    == Err::<Seq<Seq<char>>, SpawnRejection>(e),
            },
    {
        if self.instances.len() >= MAX_NODES {
            return Err(SpawnRejection::NodeCapReached);
        }
        if name.as_str().is_empty() || self.has_instance_named(name) {
            return Err(SpawnRejection::NameUnavailable);
        }
        match find_string(&self.node_types, type_id) {
            None => {
                return Err(SpawnRejection::UnknownNodeType);
            },
            Some(k) => {
                assert(string_views(self.node_types@)[k as int] == type_id@);
            },
        }
        let ghost iv = instances_view(self.instances@);
        let ghost lv = string_views(links@);
        let ghost pred = existing_peer(iv);
        let mut valid: Vec<String> = Vec::new();
        let mut i: usize = 0;
        assert(lv.take(0) =~= Seq::<Seq<char>>::empty());
        assert(lv.take(0).filter(pred) =~= Seq::<Seq<char>>::empty()) by {
            reveal(Seq::filter);
        }
        while i < links.len()
            invariant
                i <= links.len(),
                iv == instances_view(self.instances@),
                lv == string_views(links@),
                pred == existing_peer(iv),
                string_views(valid@) == lv.take(i as int).filter(pred),
            decreases links.len() - i,
        {
            assert(lv.take(i + 1).drop_last() =~= lv.take(i as int));
            assert(lv.take(i + 1).last() == links@[i as int]@);
            let found = self.has_instance_named(&links[i]);
            assert(found == pred(links@[i as int]@));
            let ghost t1 = lv.take(i + 1);
            assert(t1.filter(pred) == (if pred(t1.last()) {
                t1.drop_last().filter(pred).push(t1.last())
            } else {
                t1.drop_last().filter(pred)
            })) by {
                reveal(Seq::filter);
            }
            if found {
                let ghost pre = string_views(valid@);
                valid.push(links[i].clone());
                assert(string_views(valid@) =~= pre.push(links@[i as int]@));
            }
            i = i + 1;
        }
        assert(lv.take(links.len() as int) =~= lv);
        Ok(valid)
    }

    /// Adds a node a granted spawn request created: its instance (with the
    /// links `plan_spawn` granted) and its graph entry, both at the end.
    pub fn commit_spawn(&mut self, instance: Instance<P>, connection: Connection<C>)
        ensures
            final(self).instances@ == old(self).instances@.push(instance),
            final(self).connections@ == old(self).connections@.push(connection),
            final(self).node_types == old(self).node_types,
    {
        self.instances.push(instance);
        self.connections.push(connection);
    }
}

/// Why a `spawn_node` request was not carried out: one of `plan_spawn`'s
/// rejections, or its own script does not compile.
#[derive(Debug)]
pub enum SpawnRefusal {
    Rejected(SpawnRejection),
    BadOverride(SchemaError),
}

/// An optional script is absent or compiles on `engine`.
pub open spec fn override_ok(engine: rhai::Engine, func: Option<Seq<char>>) -> bool {
    match func {
        Some(s) => script_compiles(engine, s),
        None => true,
    }
}

/// The console line for a refused spawn request.
pub open spec fn refusal_text(requester: Seq<char>, name: Seq<char>, type_id: Seq<char>, why: SpawnRefusal) -> Seq<char> {
    requester + " tried to spawn "@ + name + match why {
        SpawnRefusal::Rejected(SpawnRejection::NodeCapReached) => " but the node cap ("@ + decimal(MAX_NODES as nat)
            + ") is reached"@,
        SpawnRefusal::Rejected(SpawnRejection::NameUnavailable) => " but that name is empty or already in use"@,
        SpawnRefusal::Rejected(SpawnRejection::UnknownNodeType) => " with unknown node type "@ + type_id,
        SpawnRefusal::BadOverride(e) => " with an invalid fn override: "@ + match e {
            SchemaError::OverrideCompile { detail, .. } => detail@,
            _ => Seq::empty(),
        },
    }
}

impl SpawnRefusal {
    /// The console line for a refused request by `requester` to spawn
    /// `name` of type `type_id`.
    pub fn line(&self, requester: &String, name: &String, type_id: &String) -> (r: String)
        ensures
            r@ == refusal_text(requester@, name@, type_id@, *self),
    {
        let s = concat(requester.clone(), " tried to spawn ");
        let s = concat(s, name.as_str());
        match self {
            SpawnRefusal::Rejected(SpawnRejection::NodeCapReached) => {
                let s = concat(s, " but the node cap (");
                let n = usize_to_string(MAX_NODES);
                let s = concat(s, n.as_str());
                concat(s, ") is reached")
            },
            SpawnRefusal::Rejected(SpawnRejection::NameUnavailable) => concat(s, " but that name is empty or already in use"),
            SpawnRefusal::Rejected(SpawnRejection::UnknownNodeType) => {
                let s = concat(s, " with unknown node type ");
                concat(s, type_id.as_str())
            },
            SpawnRefusal::BadOverride(e) => {
                let s = concat(s, " with an invalid fn override: ");
                match e {
                    SchemaError::OverrideCompile { detail, .. } => concat(s, detail.as_str()),
                    _ => {
                        assert(s@ =~= s@ + Seq::<char>::empty());
                        s
                    },
                }
            },
        }
    }
}

/// The console line for a carried-out spawn request.
pub fn spawned_line(requester: &String, name: &String) -> (r: String)
    ensures
        r@ == requester@ + " spawned "@ + name@,
{
    let s = concat(requester.clone(), " spawned ");
    concat(s, name.as_str())
}

impl<P, C> Topology<P, C> {
    /// Decides a `spawn_node(name, type_id, links[, fn])` request in full:
    /// `plan_spawn`'s checks, then the request's own script, if any, must
    /// compile. On success, the links granted and the compiled script.
    pub fn decide_spawn(
        &self,
        engine: &rhai::Engine,
        name: &String,
        type_id: &String,
        links: &Vec<String>,
        func: &Option<String>,
    ) -> (r: Result<(Vec<String>, Option<rhai::AST>), SpawnRefusal>)
        ensures
            ({
                let check = spawn_check(
                    instances_view(self.instances@),
                    string_views(self.node_types@),
                    name@,
                    type_id@,
                    string_views(links@),
                );
                let fv = match *func {
                    Some(f) => Some(f@),
                    None => None::<Seq<char>>,
                };
                match r {
                    Ok((v, ast)) => check == Ok::<Seq<Seq<char>>, SpawnRejection>(string_views(v@)) && override_ok(
                        *engine,
                        fv,
                    ) && (func is None <==> ast is None),
                    Err(SpawnRefusal::Rejected(e)) => check == Err::<Seq<Seq<char>>, SpawnRejection>(e),
                    Err(SpawnRefusal::BadOverride(e)) => check is Ok && !override_ok(*engine, fv)
                        && (e matches SchemaError::OverrideCompile { node, .. } && node@ == name@),
                }
            }),
    {
        let valid = match self.plan_spawn(name, type_id, links) {
            Ok(v) => v,
            Err(e) => {
                return Err(SpawnRefusal::Rejected(e));
            },
        };
        match func {
            Some(script) => match compile_override(engine, name, script) {
                Ok(ast) => Ok((valid, Some(ast))),
                Err(e) => Err(SpawnRefusal::BadOverride(e)),
            },
            None => Ok((valid, None)),
        }
    }
}

/// A `spawn_node(name, type_id, links[, fn])` request.
#[derive(Debug)]
pub struct SpawnRequest {
    pub name: String,
    pub type_id: String,
    pub links: Vec<String>,
    pub func: Option<String>,
}

/// A spawn request as plain values.
pub open spec fn request_view(q: SpawnRequest) -> (Seq<char>, Seq<char>, Seq<Seq<char>>, Option<Seq<char>>) {
    (q.name@, q.type_id@, string_views(q.links@), match q.func {
        Some(f) => Some(f@),
        None => None,
    })
}

/// Spawn requests as plain values.
pub open spec fn requests_view(qs: Seq<SpawnRequest>) -> Seq<(Seq<char>, Seq<char>, Seq<Seq<char>>, Option<Seq<char>>)> {
    qs.map_values(|q: SpawnRequest| request_view(q))
}

/// Instances as the spawn checks read them: names and links.
pub open spec fn shape<P>(insts: Seq<(Seq<char>, Seq<Seq<char>>, P)>) -> Seq<(Seq<char>, Seq<Seq<char>>, ())> {
    insts.map_values(|x: (Seq<char>, Seq<Seq<char>>, P)| (x.0, x.1, ()))
}

/// `o` is the decision on request `q` against the instances `st`, as
/// `decide_spawn` states it.
pub open spec fn spawn_decided(
    st: Seq<(Seq<char>, Seq<Seq<char>>, ())>,
    types: Seq<Seq<char>>,
    engine: rhai::Engine,
    q: (Seq<char>, Seq<char>, Seq<Seq<char>>, Option<Seq<char>>),
    o: Result<(Vec<String>, Option<rhai::AST>), SpawnRefusal>,
) -> bool {
    let check = spawn_check(st, types, q.0, q.1, q.2);
    match o {
        Ok((v, ast)) => check == Ok::<Seq<Seq<char>>, SpawnRejection>(string_views(v@)) && override_ok(engine, q.3)
            && (q.3 is None <==> ast is None),
        Err(SpawnRefusal::Rejected(e)) => check == Err::<Seq<Seq<char>>, SpawnRejection>(e),
        Err(SpawnRefusal::BadOverride(e)) => check is Ok && !override_ok(engine, q.3) && (e matches SchemaError::OverrideCompile {
            node,
            ..
        } && node@ == q.0),
    }
}

fn copy_strings(v: &Vec<String>) -> (r: Vec<String>)
    ensures
        string_views(r@) == string_views(v@),
{
    let mut r: Vec<String> = Vec::new();
    let mut i: usize = 0;
    while i < v.len()
        invariant
            i <= v.len(),
            string_views(r@) == string_views(v@).take(i as int),
        decreases v.len() - i,
    {
        let ghost before = string_views(r@);
        r.push(v[i].clone());
        assert(string_views(r@) =~= before.push(v@[i as int]@));
        assert(string_views(v@).take(i + 1) =~= string_views(v@).take(i as int).push(v@[i as int]@));
        i = i + 1;
    }
    assert(string_views(v@).take(v.len() as int) =~= string_views(v@));
    r
}

impl<P, C> Topology<P, C> {
    /// Decides a frame's spawn requests in order, each against the
    /// instances as the requests before it left them (`spawn_batch`): what
    /// each gets is what `decide_spawn` would give it at that point.
    pub fn decide_spawns(&self, engine: &rhai::Engine, reqs: &Vec<SpawnRequest>) -> (r: Vec<
        Result<(Vec<String>, Option<rhai::AST>), SpawnRefusal>,
    >)
        ensures
            r.len() == reqs.len(),
            forall|k: int|
                0 <= k < reqs.len() ==> spawn_decided(
                    spawn_batch(
                        shape(instances_view(self.instances@)),
                        string_views(self.node_types@),
                        *engine,
                        requests_view(reqs@).take(k),
                    ).0,
                    string_views(self.node_types@),
                    *engine,
                    requests_view(reqs@)[k],
                    #[trigger] r@[k],
                ),
    {
        let ghost types = string_views(self.node_types@);
        let ghost st0 = shape(instances_view(self.instances@));
        let ghost rv = requests_view(reqs@);
        let mut work: Topology<(), ()> = Topology { instances: Vec::new(), connections: Vec::new(), node_types: copy_strings(&self.node_types) };
        let mut i: usize = 0;
        while i < self.instances.len()
            invariant
                i <= self.instances.len(),
                string_views(work.node_types@) == types,
                types == string_views(self.node_types@),
                instances_view(work.instances@) == shape(instances_view(self.instances@)).take(i as int),
            decreases self.instances.len() - i,
        {
            let inst = &self.instances[i];
            let ghost before = instances_view(work.instances@);
            work.instances.push(Instance { name: inst.name.clone(), links: copy_strings(&inst.links), payload: () });
            assert(instances_view(work.instances@) =~= before.push((inst.name@, string_views(inst.links@), ())));
            assert(shape(instances_view(self.instances@)).take(i + 1) =~= shape(instances_view(self.instances@)).take(
                i as int,
            ).push((inst.name@, string_views(inst.links@), ())));
            i = i + 1;
        }
        assert(shape(instances_view(self.instances@)).take(self.instances.len() as int) =~= st0);
        assert(rv.take(0) =~= Seq::<(Seq<char>, Seq<char>, Seq<Seq<char>>, Option<Seq<char>>)>::empty());
        let mut out: Vec<Result<(Vec<String>, Option<rhai::AST>), SpawnRefusal>> = Vec::new();
        let mut k: usize = 0;
        while k < reqs.len()
            invariant
                k <= reqs.len(),
                rv == requests_view(reqs@),
                string_views(work.node_types@) == types,
                types == string_views(self.node_types@),
                st0 == shape(instances_view(self.instances@)),
                instances_view(work.instances@) == spawn_batch(st0, types, *engine, rv.take(k as int)).0,
                out.len() == k,
                forall|j: int|
                    0 <= j < k ==> spawn_decided(
                        spawn_batch(st0, types, *engine, rv.take(j)).0,
                        types,
                        *engine,
                        rv[j],
                        #[trigger] out@[j],
                    ),
            decreases reqs.len() - k,
        {
            let q = &reqs[k];
            let ghost qv = request_view(*q);
            assert(rv[k as int] == qv);
            assert(rv.take(k + 1).drop_last() =~= rv.take(k as int));
            assert(rv.take(k + 1).last() == qv);
            let ghost st = instances_view(work.instances@);
            let o = work.decide_spawn(engine, &q.name, &q.type_id, &q.links, &q.func);
            proof {
                assert(instances_view(work.instances@) == st);
            }
            match &o {
                Ok((v, _)) => {
                    let granted = copy_strings(v);
                    work.commit_spawn(
                        Instance { name: q.name.clone(), links: granted, payload: () },
                        Connection { name: q.name.clone(), payload: () },
                    );
                    assert(instances_view(work.instances@) =~= st.push((qv.0, string_views(v@), ())));
                },
                Err(_) => {},
            }
            out.push(o);
            assert forall|j: int|
                0 <= j < k + 1 implies spawn_decided(
                spawn_batch(st0, types, *engine, rv.take(j)).0,
                types,
                *engine,
                rv[j],
                #[trigger] out@[j],
            ) by {
                if j == k {
                    assert(out@[j] == o);
                }
            }
            k = k + 1;
        }
        out
    }
}

/// A granted spawn keeps the graph within `MAX_NODES`, keeps instance names
/// distinct, and links the new node only to instances that exist.
pub proof fn lemma_spawn_granted<P>(
    insts: Seq<(Seq<char>, Seq<Seq<char>>, P)>,
    types: Seq<Seq<char>>,
    name: Seq<char>,
    type_id: Seq<char>,
    links: Seq<Seq<char>>,
    payload: P,
)
    requires
        names_unique(insts),
        spawn_check(insts, types, name, type_id, links) is Ok,
    ensures
        ({
            let granted = spawn_check(insts, types, name, type_id, links)->Ok_0;
            let after = insts.push((name, granted, payload));
            &&& after.len() <= MAX_NODES
            &&& names_unique(after)
            &&& forall|k: int| 0 <= k < granted.len() ==> has_instance(insts, #[trigger] granted[k])
        }),
{
    let pred = existing_peer(insts);
    let granted = links.filter(pred);
    let after = insts.push((name, granted, payload));
    assert forall|k: int| 0 <= k < granted.len() implies has_instance(insts, #[trigger] granted[k]) by {
        broadcast use vstd::seq_lib::group_filter_ensures;
        assert(pred(granted[k]));
    }
    assert forall|i: int, j: int| 0 <= i < after.len() && 0 <= j < after.len() && i != j implies #[trigger] after[i].0
        != #[trigger] after[j].0 by {
        if i == insts.len() {
            assert(after[j] == insts[j]);
            if insts[j].0 == name {
                assert(has_instance(insts, name));
            }
        } else if j == insts.len() {
            assert(after[i] == insts[i]);
            if insts[i].0 == name {
                assert(has_instance(insts, name));
            }
        } else {
            assert(after[i] == insts[i] && after[j] == insts[j]);
        }
    }
}

/// A batch of spawn requests (name, type id, requested links, own script)
/// decided in order, each against the instances the earlier ones left: the
/// instances afterwards and the names of the requests carried out.
pub open spec fn spawn_batch(
    insts: Seq<(Seq<char>, Seq<Seq<char>>, ())>,
    types: Seq<Seq<char>>,
    engine: rhai::Engine,
    reqs: Seq<(Seq<char>, Seq<char>, Seq<Seq<char>>, Option<Seq<char>>)>,
) -> (Seq<(Seq<char>, Seq<Seq<char>>, ())>, Seq<Seq<char>>)
    decreases reqs.len(),
{
    if reqs.len() == 0 {
        (insts, Seq::empty())
    } else {
        let (st, applied) = spawn_batch(insts, types, engine, reqs.drop_last());
        let q = reqs.last();
        match spawn_check(st, types, q.0, q.1, q.2) {
            Ok(granted) => if override_ok(engine, q.3) {
                (st.push((q.0, granted, ())), applied.push(q.0))
            } else {
                (st, applied)
            },
            Err(_) => (st, applied),
        }
    }
}

/// Spawning a batch only appends: the earlier instances stay as they were,
/// each new instance is a request that was carried out, named as it asked,
/// in request order; names stay distinct and the count stays within
/// `MAX_NODES`.
pub proof fn lemma_spawn_batch(
    insts: Seq<(Seq<char>, Seq<Seq<char>>, ())>,
    types: Seq<Seq<char>>,
    engine: rhai::Engine,
    reqs: Seq<(Seq<char>, Seq<char>, Seq<Seq<char>>, Option<Seq<char>>)>,
)
    requires
        names_unique(insts),
        insts.len() <= MAX_NODES,
    ensures
        ({
            let (after, applied) = spawn_batch(insts, types, engine, reqs);
            &&& after.len() == insts.len() + applied.len()
            &&& after.take(insts.len() as int) == insts
            &&& forall|k: int| 0 <= k < applied.len() ==> #[trigger] after[insts.len() + k].0 == applied[k]
            &&& names_unique(after)
            &&& after.len() <= MAX_NODES
        }),
    decreases reqs.len(),
{
    if reqs.len() > 0 {
        lemma_spawn_batch(insts, types, engine, reqs.drop_last());
        let (st, applied) = spawn_batch(insts, types, engine, reqs.drop_last());
        let q = reqs.last();
        if spawn_check(st, types, q.0, q.1, q.2) is Ok && override_ok(engine, q.3) {
            lemma_spawn_granted(st, types, q.0, q.1, q.2, ());
            let granted = spawn_check(st, types, q.0, q.1, q.2)->Ok_0;
            let after = st.push((q.0, granted, ()));
            assert(after.take(insts.len() as int) =~= st.take(insts.len() as int));
            assert forall|k: int| 0 <= k < applied.len() + 1 implies #[trigger] after[insts.len() + k].0 == applied.push(q.0)[k] by {
                if k < applied.len() {
                    assert(after[insts.len() + k] == st[insts.len() + k]);
                }
            }
        }
    }
}

/// `without` changes nothing when `x` is absent.
proof fn lemma_without_absent(s: Seq<Seq<char>>, x: Seq<char>)
    requires
        !s.contains(x),
    ensures
        without(s, x) == s,
    decreases s.len(),
{
    if s.len() > 0 {
        assert(!s.drop_last().contains(x)) by {
            if s.drop_last().contains(x) {
                let j = choose|j: int| 0 <= j < s.drop_last().len() && s.drop_last()[j] == x;
                assert(s[j] == x);
            }
        }
        lemma_without_absent(s.drop_last(), x);
        assert(s.last() != x) by {
            assert(s[s.len() - 1] == s.last());
        }
        assert(s.drop_last().push(s.last()) =~= s);
    }
}

/// Dropping instances named `x` changes nothing when none is.
proof fn lemma_instances_without_absent<P>(s: Seq<(Seq<char>, Seq<Seq<char>>, P)>, x: Seq<char>)
    requires
        !has_instance(s, x),
    ensures
        instances_without(s, x) == s,
    decreases s.len(),
{
    if s.len() > 0 {
        assert(!has_instance(s.drop_last(), x)) by {
            if has_instance(s.drop_last(), x) {
                let j = choose|j: int| 0 <= j < s.drop_last().len() && #[trigger] s.drop_last()[j].0 == x;
                assert(s[j].0 == x);
            }
        }
        lemma_instances_without_absent(s.drop_last(), x);
        assert(s[s.len() - 1].0 != x);
        assert(s.drop_last().push(s.last()) =~= s);
    }
}

/// Dropping graph entries named `x` changes nothing when none is.
proof fn lemma_connections_without_absent<C>(s: Seq<(Seq<char>, C)>, x: Seq<char>)
    requires
        forall|i: int| 0 <= i < s.len() ==> #[trigger] s[i].0 != x,
    ensures
        connections_without(s, x) == s,
    decreases s.len(),
{
    if s.len() > 0 {
        assert forall|i: int| 0 <= i < s.drop_last().len() implies #[trigger] s.drop_last()[i].0 != x by {
            assert(s[i].0 != x);
        }
        lemma_connections_without_absent(s.drop_last(), x);
        assert(s[s.len() - 1].0 != x);
        assert(s.drop_last().push(s.last()) =~= s);
    }
}

/// A despawn undoes a spawn: when no instance or graph entry is named `x`
/// and no instance links to `x`, adding a node `x` and then despawning `x`
/// leaves the instances and graph entries as they were, and reports `x`
/// as removed.
pub proof fn lemma_despawn_undoes_spawn<P, C>(
    insts: Seq<(Seq<char>, Seq<Seq<char>>, P)>,
    conns: Seq<(Seq<char>, C)>,
    x: Seq<char>,
    links: Seq<Seq<char>>,
    payload: P,
    entry: C,
)
    requires
        gone(insts, conns, x),
    ensures
        despawn_step((insts.push((x, links, payload)), conns.push((x, entry)), Seq::empty()), x) == (
            insts,
            conns,
            seq![x],
        ),
{
    let grown = insts.push((x, links, payload));
    assert(!has_instance(insts, x)) by {
        if has_instance(insts, x) {
            let j = choose|j: int| 0 <= j < insts.len() && #[trigger] insts[j].0 == x;
            assert(insts[j].0 != x);
        }
    }
    lemma_instances_without_absent(insts, x);
    assert(grown.drop_last() =~= insts);
    assert(instances_without(grown, x) == insts);
    lemma_connections_without_absent(conns, x);
    assert(conns.push((x, entry)).drop_last() =~= conns);
    assert(connections_without(conns.push((x, entry)), x) == conns);
    assert forall|i: int| 0 <= i < insts.len() implies without(#[trigger] insts[i].1, x) == insts[i].1 by {
        assert(insts[i].0 != x);
        lemma_without_absent(insts[i].1, x);
    }
    assert(unlinked(insts, x) =~= insts);
    assert(Seq::<Seq<char>>::empty().push(x) =~= seq![x]);
}

/// `l` without the entries that `rs` holds, order kept.
pub open spec fn strip(l: Seq<Seq<char>>, rs: Seq<Seq<char>>) -> Seq<Seq<char>>
    decreases l.len(),
{
    if l.len() == 0 {
        l
    } else if rs.contains(l.last()) {
        strip(l.drop_last(), rs)
    } else {
        strip(l.drop_last(), rs).push(l.last())
    }
}

/// The instances whose names `names` does not hold, in order, each with
/// its links to the names in `rs` dropped.
pub open spec fn kept_instances<P>(
    s: Seq<(Seq<char>, Seq<Seq<char>>, P)>,
    names: Seq<Seq<char>>,
    rs: Seq<Seq<char>>,
) -> Seq<(Seq<char>, Seq<Seq<char>>, P)>
    decreases s.len(),
{
    if s.len() == 0 {
        s
    } else {
        let k = kept_instances(s.drop_last(), names, rs);
        if names.contains(s.last().0) {
            k
        } else {
            k.push((s.last().0, strip(s.last().1, rs), s.last().2))
        }
    }
}

/// The graph entries whose names `names` does not hold, in order.
pub open spec fn kept_connections<C>(s: Seq<(Seq<char>, C)>, names: Seq<Seq<char>>) -> Seq<(Seq<char>, C)>
    decreases s.len(),
{
    if s.len() == 0 {
        s
    } else {
        let k = kept_connections(s.drop_last(), names);
        if names.contains(s.last().0) {
            k
        } else {
            k.push(s.last())
        }
    }
}

/// The requested names a batch actually removes: each name of an instance,
/// at its first request, in request order.
pub open spec fn removed_names<P>(insts: Seq<(Seq<char>, Seq<Seq<char>>, P)>, names: Seq<Seq<char>>) -> Seq<Seq<char>>
    decreases names.len(),
{
    if names.len() == 0 {
        Seq::empty()
    } else {
        let r = removed_names(insts, names.drop_last());
        let x = names.last();
        if has_instance(insts, x) && !r.contains(x) {
            r.push(x)
        } else {
            r
        }
    }
}

proof fn lemma_instances_without_kept<P>(
    s: Seq<(Seq<char>, Seq<Seq<char>>, P)>,
    ns: Seq<Seq<char>>,
    rs: Seq<Seq<char>>,
    x: Seq<char>,
)
    ensures
        instances_without(kept_instances(s, ns, rs), x) == kept_instances(s, ns.push(x), rs),
    decreases s.len(),
{
    if s.len() > 0 {
        lemma_instances_without_kept(s.drop_last(), ns, rs, x);
        lemma_push_contains(ns, x, s.last().0);
        let k = kept_instances(s.drop_last(), ns, rs);
        if !ns.contains(s.last().0) {
            let e = (s.last().0, strip(s.last().1, rs), s.last().2);
            assert(k.push(e).drop_last() =~= k);
            assert(k.push(e).last() == e);
        }
    }
}

proof fn lemma_without_strip(l: Seq<Seq<char>>, rs: Seq<Seq<char>>, x: Seq<char>)
    ensures
        without(strip(l, rs), x) == strip(l, rs.push(x)),
    decreases l.len(),
{
    if l.len() > 0 {
        lemma_without_strip(l.drop_last(), rs, x);
        lemma_push_contains(rs, x, l.last());
        let k = strip(l.drop_last(), rs);
        if !rs.contains(l.last()) {
            assert(k.push(l.last()).drop_last() =~= k);
            assert(k.push(l.last()).last() == l.last());
        }
    }
}

proof fn lemma_unlinked_kept<P>(
    s: Seq<(Seq<char>, Seq<Seq<char>>, P)>,
    ns: Seq<Seq<char>>,
    rs: Seq<Seq<char>>,
    x: Seq<char>,
)
    ensures
        unlinked(kept_instances(s, ns, rs), x) == kept_instances(s, ns, rs.push(x)),
    decreases s.len(),
{
    if s.len() > 0 {
        lemma_unlinked_kept(s.drop_last(), ns, rs, x);
        let k = kept_instances(s.drop_last(), ns, rs);
        let k2 = kept_instances(s.drop_last(), ns, rs.push(x));
        if !ns.contains(s.last().0) {
            let e = (s.last().0, strip(s.last().1, rs), s.last().2);
            lemma_without_strip(s.last().1, rs, x);
            assert(unlinked(k.push(e), x) =~= unlinked(k, x).push((e.0, without(e.1, x), e.2)));
        }
    }
}

proof fn lemma_connections_without_kept<C>(s: Seq<(Seq<char>, C)>, ns: Seq<Seq<char>>, x: Seq<char>)
    ensures
        connections_without(kept_connections(s, ns), x) == kept_connections(s, ns.push(x)),
    decreases s.len(),
{
    if s.len() > 0 {
        lemma_connections_without_kept(s.drop_last(), ns, x);
        lemma_push_contains(ns, x, s.last().0);
        let k = kept_connections(s.drop_last(), ns);
        if !ns.contains(s.last().0) {
            assert(k.push(s.last()).drop_last() =~= k);
            assert(k.push(s.last()).last() == s.last());
        }
    }
}

/// The kept instances include one named `x` exactly when an instance is
/// named `x` and `x` is not among the dropped names.
proof fn lemma_kept_has<P>(s: Seq<(Seq<char>, Seq<Seq<char>>, P)>, ns: Seq<Seq<char>>, rs: Seq<Seq<char>>, x: Seq<char>)
    ensures
        has_instance(kept_instances(s, ns, rs), x) <==> (has_instance(s, x) && !ns.contains(x)),
    decreases s.len(),
{
    if s.len() > 0 {
        let d = s.drop_last();
        lemma_kept_has(d, ns, rs, x);
        let k = kept_instances(d, ns, rs);
        let r = kept_instances(s, ns, rs);
        if has_instance(s, x) {
            let i = choose|i: int| 0 <= i < s.len() && #[trigger] s[i].0 == x;
            if i < d.len() {
                assert(d[i].0 == x);
            }
        }
        if has_instance(d, x) {
            let i = choose|i: int| 0 <= i < d.len() && #[trigger] d[i].0 == x;
            assert(s[i].0 == x);
        }
        if !ns.contains(s.last().0) {
            let e = (s.last().0, strip(s.last().1, rs), s.last().2);
            assert(r == k.push(e));
            if has_instance(r, x) {
                let i = choose|i: int| 0 <= i < r.len() && #[trigger] r[i].0 == x;
                if i < k.len() {
                    assert(k[i].0 == x);
                } else {
                    assert(s[s.len() - 1].0 == x);
                }
            }
            if has_instance(k, x) {
                let i = choose|i: int| 0 <= i < k.len() && #[trigger] k[i].0 == x;
                assert(r[i].0 == x);
            }
            if s.last().0 == x {
                assert(r[k.len() as int].0 == x);
            }
        } else {
            assert(r == k);
            if s.last().0 == x && !ns.contains(x) {
                assert(false);
            }
        }
    }
}

/// A name was removed exactly when it was requested and names an instance.
proof fn lemma_removed_names_has<P>(insts: Seq<(Seq<char>, Seq<Seq<char>>, P)>, names: Seq<Seq<char>>, x: Seq<char>)
    ensures
        removed_names(insts, names).contains(x) <==> (names.contains(x) && has_instance(insts, x)),
    decreases names.len(),
{
    if names.len() > 0 {
        let d = names.drop_last();
        lemma_removed_names_has(insts, d, x);
        let r = removed_names(insts, d);
        lemma_push_contains(r, names.last(), x);
        lemma_push_contains(d, names.last(), x);
        assert(d.push(names.last()) =~= names);
    }
}

/// Dropping instances named `x` drops one exactly when one is named `x`.
proof fn lemma_instances_without_shrinks<P>(s: Seq<(Seq<char>, Seq<Seq<char>>, P)>, x: Seq<char>)
    ensures
        instances_without(s, x).len() < s.len() <==> has_instance(s, x),
    decreases s.len(),
{
    if s.len() > 0 {
        let d = s.drop_last();
        lemma_instances_without_shrinks(d, x);
        lemma_instances_without(d, x);
        if has_instance(s, x) {
            let i = choose|i: int| 0 <= i < s.len() && #[trigger] s[i].0 == x;
            if i < d.len() {
                assert(d[i].0 == x);
            }
        }
        if has_instance(d, x) {
            let i = choose|i: int| 0 <= i < d.len() && #[trigger] d[i].0 == x;
            assert(s[i].0 == x);
        }
        if s.last().0 == x {
            assert(s[s.len() - 1].0 == x);
        }
    }
}

/// A batch of despawn requests in closed form: the names removed are the
/// requested names of instances, each once, in request order; the
/// instances left are those whose names were not requested, in order,
/// each without its links to the removed names; the graph entries left are
/// those whose names were not requested.
pub proof fn lemma_despawns_closed<P, C>(
    insts: Seq<(Seq<char>, Seq<Seq<char>>, P)>,
    conns: Seq<(Seq<char>, C)>,
    names: Seq<Seq<char>>,
)
    ensures
        despawns((insts, conns, Seq::empty()), names) == (
            kept_instances(insts, names, removed_names(insts, names)),
            kept_connections(conns, names),
            removed_names(insts, names),
        ),
    decreases names.len(),
{
    if names.len() == 0 {
        assert(kept_instances(insts, names, Seq::empty()) == insts) by {
            lemma_kept_empty(insts, names);
        }
        assert(kept_connections(conns, names) == conns) by {
            lemma_kept_connections_empty(conns, names);
        }
    } else {
        let d = names.drop_last();
        let x = names.last();
        lemma_despawns_closed(insts, conns, d);
        let rd = removed_names(insts, d);
        let cur = kept_instances(insts, d, rd);
        assert(d.push(x) =~= names);
        lemma_instances_without_kept(insts, d, rd, x);
        lemma_connections_without_kept(conns, d, x);
        lemma_instances_without_shrinks(cur, x);
        lemma_kept_has(insts, d, rd, x);
        lemma_removed_names_has(insts, d, x);
        lemma_instances_without(cur, x);
        if has_instance(insts, x) && !rd.contains(x) {
            lemma_unlinked_kept(insts, names, rd, x);
        }
    }
}

proof fn lemma_kept_empty<P>(s: Seq<(Seq<char>, Seq<Seq<char>>, P)>, names: Seq<Seq<char>>)
    requires
        names.len() == 0,
    ensures
        kept_instances(s, names, Seq::empty()) == s,
    decreases s.len(),
{
    if s.len() > 0 {
        lemma_kept_empty(s.drop_last(), names);
        lemma_strip_empty(s.last().1);
        assert(s.drop_last().push(s.last()) =~= s);
    }
}

proof fn lemma_strip_empty(l: Seq<Seq<char>>)
    ensures
        strip(l, Seq::empty()) == l,
    decreases l.len(),
{
    if l.len() > 0 {
        lemma_strip_empty(l.drop_last());
        assert(l.drop_last().push(l.last()) =~= l);
    }
}

proof fn lemma_kept_connections_empty<C>(s: Seq<(Seq<char>, C)>, names: Seq<Seq<char>>)
    requires
        names.len() == 0,
    ensures
        kept_connections(s, names) == s,
    decreases s.len(),
{
    if s.len() > 0 {
        lemma_kept_connections_empty(s.drop_last(), names);
        assert(s.drop_last().push(s.last()) =~= s);
    }
}

} // verus!
