//! The ranking stage of the hierarchical layout: nodes are gathered into
//! macro elements (one per non-empty group, one per ungrouped node), the
//! links between nodes become edges between elements, elements are layered
//! by longest path from their seeds (explicit `rank` values), explicit ranks
//! override the result, and each layer is ordered by explicit `order`.
//! Placing the layers on the canvas is floating-point work done elsewhere.
use vstd::prelude::*;
use crate::text::{string_views, find_string};
use crate::layering::{adj_view, adj_wf, edge, acyclic, has_pred, is_layering, longest_path_layering};

verus! {

broadcast use vstd::seq_lib::group_seq_properties;

/// One node entry of the graph as the layout reads it.
#[derive(Debug)]
pub struct LayoutNode {
    pub name: String,
    pub links: Vec<String>,
    pub group: Option<String>,
    pub rank: Option<usize>,
    pub order: Option<usize>,
}

/// One group definition as the layout reads it.
#[derive(Debug)]
pub struct LayoutGroup {
    pub id: String,
    pub nodes: Vec<String>,
}

/// A unit the ranking places: a group of nodes or a single ungrouped node.
#[derive(Debug)]
pub struct MacroElement {
    pub id: String,
    pub is_group: bool,
    pub members: Vec<String>,
}

/// The direction a layout runs in.
#[derive(Clone, Copy, Debug, PartialEq, Eq, Structural)]
pub enum LayoutDirection {
    Lr,
    Tb,
    Rl,
    Bt,
}

/// A macro element as plain values: id, whether it is a group, members.
pub open spec fn elem_view(e: MacroElement) -> (Seq<char>, bool, Seq<Seq<char>>) {
    (e.id@, e.is_group, string_views(e.members@))
}

/// Macro elements as plain values.
pub open spec fn elems_view(elems: Seq<MacroElement>) -> Seq<(Seq<char>, bool, Seq<Seq<char>>)> {
    elems.map_values(|e: MacroElement| elem_view(e))
}

/// The index of the last node among the first `k` named `name`.
pub open spec fn last_named(graph: Seq<LayoutNode>, name: Seq<char>, k: int) -> Option<int>
    decreases k,
{
    if k <= 0 {
        None
    } else if graph[k - 1].name@ == name {
        Some(k - 1)
    } else {
        last_named(graph, name, k - 1)
    }
}

/// The explicit rank of the node named `name` (the last such node wins).
pub open spec fn node_rank(graph: Seq<LayoutNode>, name: Seq<char>) -> Option<usize> {
    match last_named(graph, name, graph.len() as int) {
        Some(i) => graph[i].rank,
        None => None,
    }
}

/// The explicit order of the node named `name` (the last such node wins).
pub open spec fn node_order(graph: Seq<LayoutNode>, name: Seq<char>) -> Option<usize> {
    match last_named(graph, name, graph.len() as int) {
        Some(i) => graph[i].order,
        None => None,
    }
}

/// The index of the last node among the first `k` named `name` that names a
/// group itself.
pub open spec fn last_grouped(graph: Seq<LayoutNode>, name: Seq<char>, k: int) -> Option<int>
    decreases k,
{
    if k <= 0 {
        None
    } else if graph[k - 1].name@ == name && graph[k - 1].group is Some {
        Some(k - 1)
    } else {
        last_grouped(graph, name, k - 1)
    }
}

/// The index of the last group among the first `k` that lists `name`.
pub open spec fn last_listing(groups: Seq<LayoutGroup>, name: Seq<char>, k: int) -> Option<int>
    decreases k,
{
    if k <= 0 {
        None
    } else if string_views(groups[k - 1].nodes@).contains(name) {
        Some(k - 1)
    } else {
        last_listing(groups, name, k - 1)
    }
}

/// The group a node belongs to: the group its own entry names, else the
/// last group listing it.
pub open spec fn group_of(graph: Seq<LayoutNode>, groups: Seq<LayoutGroup>, name: Seq<char>) -> Option<
    Seq<char>,
> {
    match last_grouped(graph, name, graph.len() as int) {
        Some(i) => Some(graph[i].group->0@),
        None => match last_listing(groups, name, groups.len() as int) {
            Some(g) => Some(groups[g].id@),
            None => None,
        },
    }
}

/// Whether some group has the id `id`.
pub open spec fn is_group_id(groups: Seq<LayoutGroup>, id: Seq<char>) -> bool {
    exists|g: int| 0 <= g < groups.len() && #[trigger] groups[g].id@ == id
}

/// Whether the node `name` belongs to a defined group.
pub open spec fn grouped(graph: Seq<LayoutNode>, groups: Seq<LayoutGroup>, name: Seq<char>) -> bool {
    match group_of(graph, groups, name) {
        Some(g) => is_group_id(groups, g),
        None => false,
    }
}

/// The names of the first `k` nodes that belong to the group `gid`, in graph order.
pub open spec fn members_of(
    graph: Seq<LayoutNode>,
    groups: Seq<LayoutGroup>,
    gid: Seq<char>,
    k: int,
) -> Seq<Seq<char>>
    decreases k,
{
    if k <= 0 {
        Seq::empty()
    } else {
        let prev = members_of(graph, groups, gid, k - 1);
        if group_of(graph, groups, graph[k - 1].name@) == Some(gid) {
            prev.push(graph[k - 1].name@)
        } else {
            prev
        }
    }
}

/// `s` (sorted by first component) with `x` inserted after every entry whose
/// key does not exceed `x`'s.
pub open spec fn insert_sorted(s: Seq<(usize, usize)>, x: (usize, usize)) -> Seq<(usize, usize)>
    decreases s.len(),
{
    if s.len() == 0 || s.last().0 <= x.0 {
        s.push(x)
    } else {
        insert_sorted(s.drop_last(), x).push(s.last())
    }
}

/// `s` sorted by first component, stably.
pub open spec fn stable_sorted(s: Seq<(usize, usize)>) -> Seq<(usize, usize)>
    decreases s.len(),
{
    if s.len() == 0 {
        s
    } else {
        insert_sorted(stable_sorted(s.drop_last()), s.last())
    }
}

/// Pairs in ascending order of their first component.
pub open spec fn keys_ascending(s: Seq<(usize, usize)>) -> bool {
    forall|a: int, b: int| 0 <= a < b < s.len() ==> #[trigger] s[a].0 <= #[trigger] s[b].0
}

proof fn lemma_insert_sorted(s: Seq<(usize, usize)>, x: (usize, usize))
    requires
        keys_ascending(s),
    ensures
        keys_ascending(insert_sorted(s, x)),
        insert_sorted(s, x).len() == s.len() + 1,
        forall|y: (usize, usize)| #[trigger] insert_sorted(s, x).contains(y) ==> s.contains(y) || y == x,
    decreases s.len(),
{
    if s.len() == 0 || s.last().0 <= x.0 {
        let t = s.push(x);
        assert forall|a: int, b: int| 0 <= a < b < t.len() implies #[trigger] t[a].0 <= #[trigger] t[b].0 by {
            if b == s.len() {
                assert(t[a] == s[a]);
                assert(s[a].0 <= s[s.len() - 1].0 || a == s.len() - 1);
            } else {
                assert(t[a] == s[a] && t[b] == s[b]);
            }
        }
        assert forall|y: (usize, usize)| #[trigger] t.contains(y) implies s.contains(y) || y == x by {
            let i = choose|i: int| 0 <= i < t.len() && t[i] == y;
            if i < s.len() {
                assert(s[i] == y);
            }
        }
    } else {
        let d = s.drop_last();
        let l = s.last();
        assert(keys_ascending(d)) by {
            assert forall|a: int, b: int| 0 <= a < b < d.len() implies #[trigger] d[a].0 <= #[trigger] d[b].0 by {
                assert(d[a] == s[a] && d[b] == s[b]);
            }
        }
        lemma_insert_sorted(d, x);
        let t = insert_sorted(d, x);
        let u = t.push(l);
        assert(insert_sorted(s, x) == u);
        assert forall|a: int, b: int| 0 <= a < b < u.len() implies #[trigger] u[a].0 <= #[trigger] u[b].0 by {
            if b == t.len() {
                assert(u[a] == t[a]);
                assert(t.contains(t[a]));
                if d.contains(t[a]) {
                    let i = choose|i: int| 0 <= i < d.len() && d[i] == t[a];
                    assert(s[i] == d[i]);
                    assert(s[i].0 <= s[s.len() - 1].0);
                }
            } else {
                assert(u[a] == t[a] && u[b] == t[b]);
            }
        }
        assert forall|y: (usize, usize)| #[trigger] u.contains(y) implies s.contains(y) || y == x by {
            let i = choose|i: int| 0 <= i < u.len() && u[i] == y;
            if i < t.len() {
                assert(t[i] == y);
                assert(t.contains(y));
                if d.contains(y) {
                    let j = choose|j: int| 0 <= j < d.len() && d[j] == y;
                    assert(s[j] == y);
                }
            } else {
                assert(s[s.len() - 1] == y);
            }
        }
    }
}

/// A stable sort by first component puts the keys in ascending order,
/// keeps the length, and brings in nothing that was not there.
proof fn lemma_stable_sorted(s: Seq<(usize, usize)>)
    ensures
        keys_ascending(stable_sorted(s)),
        stable_sorted(s).len() == s.len(),
        forall|y: (usize, usize)| #[trigger] stable_sorted(s).contains(y) ==> s.contains(y),
    decreases s.len(),
{
    if s.len() > 0 {
        let d = s.drop_last();
        lemma_stable_sorted(d);
        lemma_insert_sorted(stable_sorted(d), s.last());
        assert forall|y: (usize, usize)| #[trigger] stable_sorted(s).contains(y) implies s.contains(y) by {
            if stable_sorted(d).contains(y) {
                assert(d.contains(y));
                let j = choose|j: int| 0 <= j < d.len() && d[j] == y;
                assert(s[j] == y);
            } else {
                assert(y == s.last());
                assert(s[s.len() - 1] == y);
            }
        }
    }
}

/// `members` are listed by explicit order: of two members that both have
/// one, the smaller comes first, and a member without one comes after
/// every member with one (short of the largest possible order).
pub open spec fn listed_by_order(graph: Seq<LayoutNode>, members: Seq<Seq<char>>) -> bool {
    &&& forall|a: int, b: int|
        0 <= a < b < members.len() ==> (#[trigger] node_order(graph, members[a]) matches Some(oa) ==> (
        #[trigger] node_order(graph, members[b]) matches Some(ob) ==> oa <= ob))
    &&& forall|a: int, b: int|
        0 <= a < b < members.len() && #[trigger] node_order(graph, members[a]) is None ==> (
        #[trigger] node_order(graph, members[b]) is None || node_order(graph, members[b]) == Some(usize::MAX))
}

/// Sorting members by explicit order lists them by explicit order.
pub proof fn lemma_members_by_order(graph: Seq<LayoutNode>, names: Seq<Seq<char>>)
    requires
        names.len() <= usize::MAX,
    ensures
        sort_by_order(graph, names).len() == names.len(),
        listed_by_order(graph, sort_by_order(graph, names)),
{
    let keyed = Seq::new(names.len(), |i: int| (order_key(graph, names[i]), i as usize));
    lemma_stable_sorted(keyed);
    let st = stable_sorted(keyed);
    let res = sort_by_order(graph, names);
    assert forall|a: int| 0 <= a < st.len() implies #[trigger] st[a].0 == order_key(graph, res[a]) by {
        assert(st.contains(st[a]));
        let i = choose|i: int| 0 <= i < keyed.len() && keyed[i] == st[a];
        assert(keyed[i].1 == i as usize);
        assert(st[a].1 == i);
        assert(res[a] == names[i]);
    }
    assert forall|a: int, b: int| 0 <= a < b < names.len() implies order_key(graph, res[a]) <= order_key(graph, res[b]) by {
        assert(st[a].0 <= st[b].0);
    }
}

proof fn lemma_members_of_len(graph: Seq<LayoutNode>, groups: Seq<LayoutGroup>, gid: Seq<char>, k: int)
    requires
        0 <= k,
    ensures
        members_of(graph, groups, gid, k).len() <= k,
    decreases k,
{
    if k > 0 {
        lemma_members_of_len(graph, groups, gid, k - 1);
    }
}

proof fn lemma_group_elements_listed(graph: Seq<LayoutNode>, groups: Seq<LayoutGroup>, k: int)
    requires
        graph.len() <= usize::MAX,
    ensures
        forall|m: int|
            0 <= m < group_elements(graph, groups, k).len() ==> listed_by_order(
                graph,
                #[trigger] group_elements(graph, groups, k)[m].2,
            ),
    decreases k,
{
    if k > 0 {
        lemma_group_elements_listed(graph, groups, k - 1);
        let members = members_of(graph, groups, groups[k - 1].id@, graph.len() as int);
        lemma_members_of_len(graph, groups, groups[k - 1].id@, graph.len() as int);
        lemma_members_by_order(graph, members);
        let prev = group_elements(graph, groups, k - 1);
        assert forall|m: int|
            0 <= m < group_elements(graph, groups, k).len() implies listed_by_order(
            graph,
            #[trigger] group_elements(graph, groups, k)[m].2,
        ) by {
            if m < prev.len() {
                assert(group_elements(graph, groups, k)[m] == prev[m]);
            }
        }
    }
}

proof fn lemma_standalone_listed(graph: Seq<LayoutNode>, groups: Seq<LayoutGroup>, k: int)
    ensures
        forall|m: int|
            0 <= m < standalone_elements(graph, groups, k).len() ==> #[trigger] standalone_elements(
                graph,
                groups,
                k,
            )[m].2.len() == 1,
    decreases k,
{
    if k > 0 {
        lemma_standalone_listed(graph, groups, k - 1);
        let prev = standalone_elements(graph, groups, k - 1);
        assert forall|m: int|
            0 <= m < standalone_elements(graph, groups, k).len() implies #[trigger] standalone_elements(
            graph,
            groups,
            k,
        )[m].2.len() == 1 by {
            if m < prev.len() {
                assert(standalone_elements(graph, groups, k)[m] == prev[m]);
            }
        }
    }
}

/// Every macro element lists its members by explicit order (a group's
/// members sorted so; an ungrouped node is its own only member).
pub proof fn lemma_elements_listed_by_order(graph: Seq<LayoutNode>, groups: Seq<LayoutGroup>)
    requires
        graph.len() <= usize::MAX,
    ensures
        forall|m: int|
            0 <= m < macro_elements(graph, groups).len() ==> listed_by_order(
                graph,
                #[trigger] macro_elements(graph, groups)[m].2,
            ),
{
    lemma_group_elements_listed(graph, groups, groups.len() as int);
    lemma_standalone_listed(graph, groups, graph.len() as int);
    let ge = group_elements(graph, groups, groups.len() as int);
    let se = standalone_elements(graph, groups, graph.len() as int);
    assert forall|m: int| 0 <= m < macro_elements(graph, groups).len() implies listed_by_order(
        graph,
        #[trigger] macro_elements(graph, groups)[m].2,
    ) by {
        if m < ge.len() {
            assert(macro_elements(graph, groups)[m] == ge[m]);
        } else {
            assert(macro_elements(graph, groups)[m] == se[m - ge.len()]);
            assert(se[m - ge.len()].2.len() == 1);
        }
    }
}

/// The sort key of a group member: its explicit order, unordered last.
pub open spec fn order_key(graph: Seq<LayoutNode>, name: Seq<char>) -> usize {
    match node_order(graph, name) {
        Some(o) => o,
        None => usize::MAX,
    }
}

/// `names` sorted stably by explicit order.
pub open spec fn sort_by_order(graph: Seq<LayoutNode>, names: Seq<Seq<char>>) -> Seq<Seq<char>> {
    let keyed = Seq::new(names.len(), |i: int| (order_key(graph, names[i]), i as usize));
    stable_sorted(keyed).map_values(|p: (usize, usize)| names[p.1 as int])
}

/// The elements for the first `k` groups: one per group with members.
pub open spec fn group_elements(graph: Seq<LayoutNode>, groups: Seq<LayoutGroup>, k: int) -> Seq<
    (Seq<char>, bool, Seq<Seq<char>>),
>
    decreases k,
{
    if k <= 0 {
        Seq::empty()
    } else {
        let prev = group_elements(graph, groups, k - 1);
        let members = members_of(graph, groups, groups[k - 1].id@, graph.len() as int);
        if members.len() == 0 {
            prev
        } else {
            prev.push((groups[k - 1].id@, true, sort_by_order(graph, members)))
        }
    }
}

/// The elements for the first `k` nodes that belong to no defined group.
pub open spec fn standalone_elements(
    graph: Seq<LayoutNode>,
    groups: Seq<LayoutGroup>,
    k: int,
) -> Seq<(Seq<char>, bool, Seq<Seq<char>>)>
    decreases k,
{
    if k <= 0 {
        Seq::empty()
    } else {
        let prev = standalone_elements(graph, groups, k - 1);
        let name = graph[k - 1].name@;
        if grouped(graph, groups, name) {
            prev
        } else {
            prev.push((name, false, seq![name]))
        }
    }
}

/// All macro elements: the groups' first, then the ungrouped nodes'.
pub open spec fn macro_elements(graph: Seq<LayoutNode>, groups: Seq<LayoutGroup>) -> Seq<
    (Seq<char>, bool, Seq<Seq<char>>),
> {
    group_elements(graph, groups, groups.len() as int) + standalone_elements(
        graph,
        groups,
        graph.len() as int,
    )
}

/// A copy of a string.
fn copy_string(s: &String) -> (r: String)
    ensures
        r@ == s@,
{
    s.clone()
}

/// A copy of an optional string.
fn copy_opt(s: &Option<String>) -> (r: Option<String>)
    ensures
        r.is_some() == s.is_some(),
        r.is_some() ==> r->0@ == s->0@,
{
    match s {
        Some(x) => Some(x.clone()),
        None => None,
    }
}

proof fn lemma_last_named_bound(graph: Seq<LayoutNode>, name: Seq<char>, k: int)
    ensures
        last_named(graph, name, k) matches Some(i) ==> 0 <= i < k && graph[i].name@ == name,
    decreases k,
{
    if k > 0 {
        lemma_last_named_bound(graph, name, k - 1);
    }
}

/// The last node named `name`.
fn find_last_named(graph: &Vec<LayoutNode>, name: &String) -> (r: Option<usize>)
    ensures
        r matches Some(i) ==> i < graph.len(),
        r == (match last_named(graph@, name@, graph.len() as int) {
            Some(i) => Some(i as usize),
            None => None::<usize>,
        }),
{
    let mut k = graph.len();
    while k > 0
        invariant
            k <= graph.len(),
            last_named(graph@, name@, graph.len() as int) == last_named(graph@, name@, k as int),
        decreases k,
    {
        if graph[k - 1].name == *name {
            proof {
                lemma_last_named_bound(graph@, name@, graph.len() as int);
            }
            return Some(k - 1);
        }
        k = k - 1;
    }
    proof {
        lemma_last_named_bound(graph@, name@, graph.len() as int);
    }
    None
}

/// The explicit rank of the node named `name`.
pub fn lookup_rank(graph: &Vec<LayoutNode>, name: &String) -> (r: Option<usize>)
    ensures
        r == node_rank(graph@, name@),
{
    proof {
        lemma_last_named_bound(graph@, name@, graph.len() as int);
    }
    match find_last_named(graph, name) {
        Some(i) => graph[i].rank,
        None => None,
    }
}

/// The explicit order of the node named `name`.
pub fn lookup_order(graph: &Vec<LayoutNode>, name: &String) -> (r: Option<usize>)
    ensures
        r == node_order(graph@, name@),
{
    proof {
        lemma_last_named_bound(graph@, name@, graph.len() as int);
    }
    match find_last_named(graph, name) {
        Some(i) => graph[i].order,
        None => None,
    }
}

/// The group the node named `name` belongs to (see `group_of`).
pub fn group_of_node(graph: &Vec<LayoutNode>, groups: &Vec<LayoutGroup>, name: &String) -> (r:
    Option<String>)
    ensures
        r.is_some() == group_of(graph@, groups@, name@).is_some(),
        r.is_some() ==> r->0@ == group_of(graph@, groups@, name@)->0,
{
    let mut k = graph.len();
    while k > 0
        invariant
            k <= graph.len(),
            last_grouped(graph@, name@, graph.len() as int) == last_grouped(graph@, name@, k as int),
        decreases k,
    {
        if graph[k - 1].name == *name && graph[k - 1].group.is_some() {
            return copy_opt(&graph[k - 1].group);
        }
        k = k - 1;
    }
    let mut g = groups.len();
    while g > 0
        invariant
            g <= groups.len(),
            last_grouped(graph@, name@, graph.len() as int) is None,
            last_listing(groups@, name@, groups.len() as int) == last_listing(
                groups@,
                name@,
                g as int,
            ),
        decreases g,
    {
        if let Some(i) = find_string(&groups[g - 1].nodes, name) {
            proof {
                let nv = string_views(groups@[g - 1].nodes@);
                assert(nv[i as int] == name@);
            }
            return Some(copy_string(&groups[g - 1].id));
        }
        g = g - 1;
    }
    None
}

/// Whether some group has the id `id`.
fn has_group_id(groups: &Vec<LayoutGroup>, id: &String) -> (r: bool)
    ensures
        r == is_group_id(groups@, id@),
{
    let mut g: usize = 0;
    while g < groups.len()
        invariant
            g <= groups.len(),
            forall|h: int| 0 <= h < g ==> groups@[h].id@ != id@,
        decreases groups.len() - g,
    {
        if groups[g].id == *id {
            return true;
        }
        g = g + 1;
    }
    false
}

/// Whether the node named `name` belongs to a defined group.
fn is_grouped(graph: &Vec<LayoutNode>, groups: &Vec<LayoutGroup>, name: &String) -> (r: bool)
    ensures
        r == grouped(graph@, groups@, name@),
{
    match group_of_node(graph, groups, name) {
        Some(g) => has_group_id(groups, &g),
        None => false,
    }
}

/// The names of the nodes belonging to the group `gid`, in graph order.
fn collect_members(graph: &Vec<LayoutNode>, groups: &Vec<LayoutGroup>, gid: &String) -> (r: Vec<
    String,
>)
    ensures
        string_views(r@) == members_of(graph@, groups@, gid@, graph.len() as int),
{
    let mut out: Vec<String> = Vec::new();
    let mut i: usize = 0;
    while i < graph.len()
        invariant
            i <= graph.len(),
            string_views(out@) == members_of(graph@, groups@, gid@, i as int),
        decreases graph.len() - i,
    {
        let g = group_of_node(graph, groups, &graph[i].name);
        let same = match &g {
            Some(x) => *x == *gid,
            None => false,
        };
        if same {
            let ghost before = string_views(out@);
            out.push(copy_string(&graph[i].name));
            assert(string_views(out@) =~= before.push(graph@[i as int].name@));
        }
        i = i + 1;
    }
    out
}

/// `s` with `x` inserted after every entry whose key does not exceed `x`'s.
fn insert_sorted_vec(s: &mut Vec<(usize, usize)>, x: (usize, usize))
    ensures
        final(s)@ == insert_sorted(old(s)@, x),
{
    let mut p = s.len();
    while p > 0 && s[p - 1].0 > x.0
        invariant
            p <= s.len(),
            forall|k: int| p <= k < s.len() ==> #[trigger] s@[k].0 > x.0,
        decreases p,
    {
        p = p - 1;
    }
    proof {
        lemma_insert_sorted_at(s@, x, p as int);
    }
    s.insert(p, x);
}

proof fn lemma_insert_sorted_at(s: Seq<(usize, usize)>, x: (usize, usize), p: int)
    requires
        0 <= p <= s.len(),
        forall|k: int| p <= k < s.len() ==> #[trigger] s[k].0 > x.0,
        p == 0 || s[p - 1].0 <= x.0,
    ensures
        insert_sorted(s, x) == s.insert(p, x),
    decreases s.len(),
{
    if p == s.len() {
        assert(s.insert(p, x) =~= s.push(x));
    } else {
        lemma_insert_sorted_at(s.drop_last(), x, p);
        assert(s.insert(p, x) =~= s.drop_last().insert(p, x).push(s.last()));
    }
}

/// `v` sorted by first component, stably (insertion sort).
fn stable_sort_pairs(v: &Vec<(usize, usize)>) -> (r: Vec<(usize, usize)>)
    ensures
        r@ == stable_sorted(v@),
{
    let mut out: Vec<(usize, usize)> = Vec::new();
    let mut i: usize = 0;
    assert(v@.take(0) =~= Seq::<(usize, usize)>::empty());
    while i < v.len()
        invariant
            i <= v.len(),
            out@ == stable_sorted(v@.take(i as int)),
        decreases v.len() - i,
    {
        assert(v@.take(i + 1).drop_last() =~= v@.take(i as int));
        insert_sorted_vec(&mut out, v[i]);
        i = i + 1;
    }
    assert(v@.take(v.len() as int) =~= v@);
    out
}

proof fn lemma_insert_sorted_indices(s: Seq<(usize, usize)>, x: (usize, usize), n: int)
    requires
        forall|k: int| 0 <= k < s.len() ==> #[trigger] s[k].1 < n,
        x.1 < n,
    ensures
        insert_sorted(s, x).len() == s.len() + 1,
        forall|k: int| 0 <= k < insert_sorted(s, x).len() ==> #[trigger] insert_sorted(s, x)[k].1 < n,
    decreases s.len(),
{
    if !(s.len() == 0 || s.last().0 <= x.0) {
        lemma_insert_sorted_indices(s.drop_last(), x, n);
    }
}

proof fn lemma_stable_sorted_indices(s: Seq<(usize, usize)>, n: int)
    requires
        forall|k: int| 0 <= k < s.len() ==> #[trigger] s[k].1 < n,
    ensures
        stable_sorted(s).len() == s.len(),
        forall|k: int| 0 <= k < stable_sorted(s).len() ==> #[trigger] stable_sorted(s)[k].1 < n,
    decreases s.len(),
{
    if s.len() > 0 {
        lemma_stable_sorted_indices(s.drop_last(), n);
        lemma_insert_sorted_indices(stable_sorted(s.drop_last()), s.last(), n);
    }
}

/// `names` sorted stably by explicit order (see `sort_by_order`).
fn sort_members(graph: &Vec<LayoutNode>, names: &Vec<String>) -> (r: Vec<String>)
    ensures
        string_views(r@) == sort_by_order(graph@, string_views(names@)),
{
    let ghost nv = string_views(names@);
    let mut keyed: Vec<(usize, usize)> = Vec::new();
    let mut i: usize = 0;
    while i < names.len()
        invariant
            i <= names.len(),
            nv == string_views(names@),
            keyed@ == Seq::new(i as nat, |k: int| (order_key(graph@, nv[k]), k as usize)),
        decreases names.len() - i,
    {
        let key = match lookup_order(graph, &names[i]) {
            Some(o) => o,
            None => usize::MAX,
        };
        keyed.push((key, i));
        assert(keyed@ =~= Seq::new((i + 1) as nat, |k: int| (order_key(graph@, nv[k]), k as usize)));
        i = i + 1;
    }
    let sorted = stable_sort_pairs(&keyed);
    proof {
        lemma_stable_sorted_indices(keyed@, names.len() as int);
    }
    let mut out: Vec<String> = Vec::new();
    let mut j: usize = 0;
    while j < sorted.len()
        invariant
            j <= sorted.len(),
            sorted@ == stable_sorted(keyed@),
            nv == string_views(names@),
            forall|k: int| 0 <= k < sorted.len() ==> #[trigger] sorted@[k].1 < names.len(),
            string_views(out@) == sorted@.take(j as int).map_values(|p: (usize, usize)| nv[p.1 as int]),
        decreases sorted.len() - j,
    {
        let idx = sorted[j].1;
        let ghost before = string_views(out@);
        out.push(copy_string(&names[idx]));
        assert(nv[idx as int] == names@[idx as int]@);
        assert(sorted@.take(j + 1) =~= sorted@.take(j as int).push(sorted@[j as int]));
        assert(string_views(out@) =~= before.push(names@[idx as int]@));
        assert(string_views(out@) =~= sorted@.take(j + 1).map_values(|p: (usize, usize)| nv[p.1 as int]));
        j = j + 1;
    }
    assert(sorted@.take(sorted.len() as int) =~= sorted@);
    out
}

/// Gathers the nodes into macro elements: for each group in order, one
/// element holding the nodes that belong to it (sorted stably by explicit
/// order, unordered last) unless it has none; then, in graph order, one
/// element for each node that belongs to no defined group.
pub fn build_macro_elements(graph: &Vec<LayoutNode>, groups: &Vec<LayoutGroup>) -> (r: Vec<
    MacroElement,
>)
    ensures
        elems_view(r@) == macro_elements(graph@, groups@),
        forall|m: int| 0 <= m < r.len() ==> listed_by_order(graph@, #[trigger] elems_view(r@)[m].2),
{
    let graph_len = graph.len();
    proof {
        assert(graph@.len() == graph_len);
        lemma_elements_listed_by_order(graph@, groups@);
    }
    let mut out: Vec<MacroElement> = Vec::new();
    let mut g: usize = 0;
    while g < groups.len()
        invariant
            g <= groups.len(),
            elems_view(out@) == group_elements(graph@, groups@, g as int),
        decreases groups.len() - g,
    {
        let members = collect_members(graph, groups, &groups[g].id);
        if members.len() > 0 {
            let sorted = sort_members(graph, &members);
            let ghost before = elems_view(out@);
            out.push(MacroElement { id: copy_string(&groups[g].id), is_group: true, members: sorted });
            assert(elems_view(out@) =~= group_elements(graph@, groups@, g + 1));
        } else {
            assert(elems_view(out@) =~= group_elements(graph@, groups@, g + 1));
        }
        g = g + 1;
    }
    let ghost head = elems_view(out@);
    let mut i: usize = 0;
    while i < graph.len()
        invariant
            i <= graph.len(),
            head == group_elements(graph@, groups@, groups.len() as int),
            elems_view(out@) == head + standalone_elements(graph@, groups@, i as int),
        decreases graph.len() - i,
    {
        let ghost before = elems_view(out@);
        if !is_grouped(graph, groups, &graph[i].name) {
            let mut members: Vec<String> = Vec::new();
            members.push(copy_string(&graph[i].name));
            assert(string_views(members@) =~= seq![graph@[i as int].name@]);
            let e = MacroElement { id: copy_string(&graph[i].name), is_group: false, members };
            assert(elem_view(e) == (graph@[i as int].name@, false, seq![graph@[i as int].name@]));
            out.push(e);
            assert(elems_view(out@) =~= before.push(elem_view(e)));
        } else {
            assert(elems_view(out@) =~= before);
        }
        assert(elems_view(out@) =~= head + standalone_elements(graph@, groups@, i + 1));
        i = i + 1;
    }
    out
}

/// The direction a group lays its members out in: its own if set, else
/// across the overall direction.
pub fn group_direction(own: Option<LayoutDirection>, overall: LayoutDirection) -> (r: LayoutDirection)
    ensures
        own is Some ==> r == own->0,
        own is None ==> r == (match overall {
            LayoutDirection::Lr | LayoutDirection::Rl => LayoutDirection::Tb,
            LayoutDirection::Tb | LayoutDirection::Bt => LayoutDirection::Lr,
        }),
{
    match own {
        Some(d) => d,
        None => match overall {
            LayoutDirection::Lr | LayoutDirection::Rl => LayoutDirection::Tb,
            LayoutDirection::Tb | LayoutDirection::Bt => LayoutDirection::Lr,
        },
    }
}

/// The index of the last of the first `k` elements whose members include `name`.
pub open spec fn last_holder(
    elems: Seq<(Seq<char>, bool, Seq<Seq<char>>)>,
    name: Seq<char>,
    k: int,
) -> Option<int>
    decreases k,
{
    if k <= 0 {
        None
    } else if elems[k - 1].2.contains(name) {
        Some(k - 1)
    } else {
        last_holder(elems, name, k - 1)
    }
}

/// The element holding the node `name` (the last one, should several).
pub open spec fn holder(elems: Seq<(Seq<char>, bool, Seq<Seq<char>>)>, name: Seq<char>) -> Option<
    int,
> {
    last_holder(elems, name, elems.len() as int)
}

/// Element `u` links to a different element `v`: some node held by `u`
/// lists a link to a node held by `v`.
pub open spec fn element_edge(
    graph: Seq<LayoutNode>,
    elems: Seq<(Seq<char>, bool, Seq<Seq<char>>)>,
    u: int,
    v: int,
) -> bool {
    &&& u != v
    &&& exists|i: int, l: int|
        0 <= i < graph.len() && 0 <= l < graph[i].links.len() && #[trigger] holder(
            elems,
            graph[i].name@,
        ) == Some(u) && #[trigger] holder(elems, graph[i].links@[l]@) == Some(v)
}

/// Some element links to element `v`.
pub open spec fn has_element_pred(
    graph: Seq<LayoutNode>,
    elems: Seq<(Seq<char>, bool, Seq<Seq<char>>)>,
    v: int,
) -> bool {
    exists|u: int| #[trigger] element_edge(graph, elems, u, v)
}

/// The element links of the first `i` nodes, and of the first `l` links of node `i`.
pub open spec fn element_edge_before(
    graph: Seq<LayoutNode>,
    elems: Seq<(Seq<char>, bool, Seq<Seq<char>>)>,
    u: int,
    v: int,
    i: int,
    l: int,
) -> bool {
    &&& u != v
    &&& exists|i2: int, l2: int|
        0 <= i2 < graph.len() && 0 <= l2 < graph[i2].links.len() && (i2 < i || (i2 == i && l2
            < l)) && #[trigger] holder(elems, graph[i2].name@) == Some(u) && #[trigger] holder(
            elems,
            graph[i2].links@[l2]@,
        ) == Some(v)
}

/// The smaller of two optional ranks; an absent one does not count.
pub open spec fn min_opt(a: Option<usize>, b: Option<usize>) -> Option<usize> {
    match (a, b) {
        (Some(x), Some(y)) => Some(if x <= y {
            x
        } else {
            y
        }),
        (Some(x), None) => Some(x),
        (None, Some(y)) => Some(y),
        (None, None) => None,
    }
}

/// The smallest explicit rank among `members`, if any has one.
pub open spec fn min_member_rank(graph: Seq<LayoutNode>, members: Seq<Seq<char>>) -> Option<usize>
    decreases members.len(),
{
    if members.len() == 0 {
        None
    } else {
        min_opt(min_member_rank(graph, members.drop_last()), node_rank(graph, members.last()))
    }
}

/// The smallest explicit order among `members`, if any has one.
pub open spec fn min_member_order(graph: Seq<LayoutNode>, members: Seq<Seq<char>>) -> Option<usize>
    decreases members.len(),
{
    if members.len() == 0 {
        None
    } else {
        min_opt(min_member_order(graph, members.drop_last()), node_order(graph, members.last()))
    }
}

/// The rank an element starts from: the explicit rank of a node named like
/// the element, else the smallest explicit rank among its members, else 0.
pub open spec fn seed_rank(graph: Seq<LayoutNode>, e: (Seq<char>, bool, Seq<Seq<char>>)) -> usize {
    match node_rank(graph, e.0) {
        Some(r) => r,
        None => match min_member_rank(graph, e.2) {
            Some(r) => r,
            None => 0,
        },
    }
}

/// The seed ranks of all elements.
pub open spec fn seed_ranks(graph: Seq<LayoutNode>, elems: Seq<(Seq<char>, bool, Seq<Seq<char>>)>) -> Seq<
    usize,
> {
    Seq::new(elems.len(), |m: int| seed_rank(graph, elems[m]))
}

/// No cycle runs through the element links.
pub open spec fn elements_acyclic(
    graph: Seq<LayoutNode>,
    elems: Seq<(Seq<char>, bool, Seq<Seq<char>>)>,
) -> bool {
    exists|pot: Seq<nat>|
        pot.len() == elems.len() && forall|u: int, v: int| #[trigger]
            element_edge(graph, elems, u, v) ==> pot[u] < pot[v]
}

/// `r` is the longest-path layering of the elements from the seeds: no
/// element below its seed, every element link climbing at least one rank,
/// and every element exactly at its seed or one above a predecessor.
pub open spec fn elements_layered(
    graph: Seq<LayoutNode>,
    elems: Seq<(Seq<char>, bool, Seq<Seq<char>>)>,
    r: Seq<usize>,
) -> bool {
    &&& r.len() == elems.len()
    &&& forall|v: int| 0 <= v < r.len() ==> #[trigger] r[v] >= seed_rank(graph, elems[v])
    &&& forall|u: int, v: int| #[trigger] element_edge(graph, elems, u, v) ==> r[v] >= r[u] + 1
    &&& forall|v: int|
        0 <= v < r.len() ==> #[trigger] r[v] == seed_rank(graph, elems[v]) || exists|u: int|
            #[trigger] element_edge(graph, elems, u, v) && r[v] == r[u] + 1
}

/// Every element sits at its seed, at rank 1, or exactly one rank above an
/// element that links to it.
pub open spec fn elements_tight(
    graph: Seq<LayoutNode>,
    elems: Seq<(Seq<char>, bool, Seq<Seq<char>>)>,
    r: Seq<usize>,
) -> bool {
    forall|v: int|
        0 <= v < r.len() ==> #[trigger] r[v] == seed_rank(graph, elems[v]) || r[v] == 1 || exists|u: int|
            #[trigger] element_edge(graph, elems, u, v) && r[v] == r[u] + 1
}

proof fn lemma_last_holder_bound(elems: Seq<(Seq<char>, bool, Seq<Seq<char>>)>, name: Seq<char>, k: int)
    ensures
        last_holder(elems, name, k) matches Some(m) ==> 0 <= m < k,
    decreases k,
{
    if k > 0 {
        lemma_last_holder_bound(elems, name, k - 1);
    }
}

/// The element holding the node `name`.
fn holder_of(elems: &Vec<MacroElement>, name: &String) -> (r: Option<usize>)
    ensures
        r matches Some(m) ==> m < elems.len(),
        r == (match holder(elems_view(elems@), name@) {
            Some(m) => Some(m as usize),
            None => None::<usize>,
        }),
{
    let ghost ev = elems_view(elems@);
    proof {
        lemma_last_holder_bound(ev, name@, elems.len() as int);
    }
    let mut k = elems.len();
    while k > 0
        invariant
            k <= elems.len(),
            ev == elems_view(elems@),
            holder(ev, name@) == last_holder(ev, name@, k as int),
        decreases k,
    {
        assert(ev[k - 1].2 == string_views(elems@[k - 1].members@));
        if let Some(j) = find_string(&elems[k - 1].members, name) {
            proof {
                assert(ev[k - 1].2[j as int] == name@);
                lemma_last_holder_bound(ev, name@, k as int);
            }
            return Some(k - 1);
        }
        k = k - 1;
    }
    None
}

proof fn lemma_min_member_rank_bound(graph: Seq<LayoutNode>, members: Seq<Seq<char>>, bound: int)
    requires
        forall|i: int| 0 <= i < graph.len() ==> (#[trigger] graph[i].rank matches Some(x) ==> x <= bound),
    ensures
        min_member_rank(graph, members) matches Some(x) ==> x <= bound,
    decreases members.len(),
{
    if members.len() > 0 {
        lemma_min_member_rank_bound(graph, members.drop_last(), bound);
        lemma_last_named_bound(graph, members.last(), graph.len() as int);
        if let Some(i) = last_named(graph, members.last(), graph.len() as int) {
            assert(graph[i].rank matches Some(x) ==> x <= bound);
        }
    }
}

/// The smallest explicit rank among `members` (see `min_member_rank`).
fn min_rank_of(graph: &Vec<LayoutNode>, members: &Vec<String>) -> (r: Option<usize>)
    ensures
        r == min_member_rank(graph@, string_views(members@)),
{
    let ghost mv = string_views(members@);
    let mut best: Option<usize> = None;
    let mut i: usize = 0;
    while i < members.len()
        invariant
            i <= members.len(),
            mv == string_views(members@),
            best == min_member_rank(graph@, mv.take(i as int)),
        decreases members.len() - i,
    {
        assert(mv.take(i + 1).drop_last() =~= mv.take(i as int));
        assert(mv.take(i + 1).last() == members@[i as int]@);
        let x = lookup_rank(graph, &members[i]);
        best = match (best, x) {
            (Some(a), Some(b)) => Some(if a <= b { a } else { b }),
            (Some(a), None) => Some(a),
            (None, Some(b)) => Some(b),
            (None, None) => None,
        };
        i = i + 1;
    }
    assert(mv.take(members.len() as int) =~= mv);
    best
}

/// The smallest explicit order among `members` (see `min_member_order`).
fn min_order_of(graph: &Vec<LayoutNode>, members: &Vec<String>) -> (r: Option<usize>)
    ensures
        r == min_member_order(graph@, string_views(members@)),
{
    let ghost mv = string_views(members@);
    let mut best: Option<usize> = None;
    let mut i: usize = 0;
    while i < members.len()
        invariant
            i <= members.len(),
            mv == string_views(members@),
            best == min_member_order(graph@, mv.take(i as int)),
        decreases members.len() - i,
    {
        assert(mv.take(i + 1).drop_last() =~= mv.take(i as int));
        assert(mv.take(i + 1).last() == members@[i as int]@);
        let x = lookup_order(graph, &members[i]);
        best = match (best, x) {
            (Some(a), Some(b)) => Some(if a <= b { a } else { b }),
            (Some(a), None) => Some(a),
            (None, Some(b)) => Some(b),
            (None, None) => None,
        };
        i = i + 1;
    }
    assert(mv.take(members.len() as int) =~= mv);
    best
}

/// The successor lists of the element links.
fn element_adjacency(graph: &Vec<LayoutNode>, elems: &Vec<MacroElement>) -> (adj: Vec<Vec<usize>>)
    ensures
        adj_wf(adj_view(adj@), elems.len() as nat),
        forall|u: int, v: int|
            #![trigger edge(adj_view(adj@), u, v)]
            0 <= v < elems.len() ==> (edge(adj_view(adj@), u, v) <==> element_edge(
                graph@,
                elems_view(elems@),
                u,
                v,
            )),
{
    let ghost ev = elems_view(elems@);
    let n = elems.len();
    let mut adj: Vec<Vec<usize>> = Vec::new();
    let mut k: usize = 0;
    while k < n
        invariant
            k <= n == elems.len(),
            adj.len() == k,
            forall|u: int| 0 <= u < k ==> (#[trigger] adj@[u])@ == Seq::<usize>::empty(),
        decreases n - k,
    {
        adj.push(Vec::new());
        k = k + 1;
    }
    let mut i: usize = 0;
    while i < graph.len()
        invariant
            i <= graph.len(),
            n == elems.len(),
            ev == elems_view(elems@),
            adj_wf(adj_view(adj@), n as nat),
            forall|u: int, v: int|
                #![trigger edge(adj_view(adj@), u, v)]
                0 <= v < n ==> (edge(adj_view(adj@), u, v) <==> element_edge_before(
                    graph@,
                    ev,
                    u,
                    v,
                    i as int,
                    0,
                )),
        decreases graph.len() - i,
    {
        let src = holder_of(elems, &graph[i].name);
        let links = &graph[i].links;
        let mut l: usize = 0;
        while l < links.len()
            invariant
                i < graph.len(),
                l <= links.len(),
                links == graph@[i as int].links,
                n == elems.len(),
                ev == elems_view(elems@),
                src == (match holder(ev, graph@[i as int].name@) {
                    Some(m) => Some(m as usize),
                    None => None::<usize>,
                }),
                src matches Some(m) ==> m < n,
                adj_wf(adj_view(adj@), n as nat),
                forall|u: int, v: int|
                    #![trigger edge(adj_view(adj@), u, v)]
                    0 <= v < n ==> (edge(adj_view(adj@), u, v) <==> element_edge_before(
                        graph@,
                        ev,
                        u,
                        v,
                        i as int,
                        l as int,
                    )),
            decreases links.len() - l,
        {
            let dst = holder_of(elems, &links[l]);
            let ghost old_av = adj_view(adj@);
            let ghost mut added: Option<(int, int)> = None;
            if let (Some(u), Some(v)) = (src, dst) {
                if u != v {
                    let mut row = adj[u].clone();
                    assert(row@ =~= adj@[u as int]@);
                    assert(old_av[u as int] == row@);
                    if crate::layering::contains_index(&row, v) {
                        assert(edge(adj_view(adj@), u as int, v as int));
                    } else {
                        let ghost old_row = row@;
                        row.push(v);
                        adj.set(u, row);
                        proof {
                            added = Some((u as int, v as int));
                            let av = adj_view(adj@);
                            assert(av =~= old_av.update(u as int, old_row.push(v)));
                            assert forall|x: int| 0 <= x < n implies #[trigger] av[x].no_duplicates() by {
                                if x == u as int {
                                    assert forall|a: int, b: int| 0 <= a < av[x].len() && 0 <= b < av[x].len() && a != b implies av[x][a] != av[x][b] by {
                                        if a == old_row.len() as int {
                                            assert(old_row.contains(av[x][b]));
                                        } else if b == old_row.len() as int {
                                            assert(old_row.contains(av[x][a]));
                                        } else {
                                            assert(old_av[x].no_duplicates());
                                        }
                                    }
                                } else {
                                    assert(old_av[x].no_duplicates());
                                }
                            }
                            assert forall|x: int| 0 <= x < n implies !(#[trigger] av[x]).contains(x as usize) by {
                                if x == u as int {
                                    assert(!old_av[x].contains(x as usize));
                                    if av[x].contains(x as usize) {
                                        let q = choose|q: int| 0 <= q < av[x].len() && av[x][q] == x as usize;
                                        if q < old_row.len() {
                                            assert(old_row[q] == x as usize);
                                        }
                                    }
                                }
                            }
                            assert forall|x: int, j: int| 0 <= x < n && 0 <= j < av[x].len() implies #[trigger] av[x][j] < n by {
                                if x == u as int && j < old_row.len() {
                                    assert(old_av[x][j] == av[x][j]);
                                }
                            }
                            assert(av[u as int][av[u as int].len() - 1] == v);
                            assert(edge(av, u as int, v as int));
                        }
                    }
                }
            }
            proof {
                let av = adj_view(adj@);
                lemma_last_holder_bound(ev, graph@[i as int].name@, n as int);
                lemma_last_holder_bound(ev, links@[l as int]@, n as int);
                if added is None {
                    assert(av == old_av);
                } else {
                    let (u0, v0) = added->0;
                    assert(src == Some(u0 as usize) && dst == Some(v0 as usize));
                    assert(av == old_av.update(u0, old_av[u0].push(v0 as usize)));
                }
                assert forall|u: int, v: int|
                    #![trigger edge(adj_view(adj@), u, v)]
                    0 <= v < n implies (edge(adj_view(adj@), u, v) <==> element_edge_before(
                        graph@,
                        ev,
                        u,
                        v,
                        i as int,
                        l + 1,
                    )) by {
                    let hs = holder(ev, graph@[i as int].name@);
                    let hd = holder(ev, links@[l as int]@);
                    if edge(old_av, u, v) {
                        assert(element_edge_before(graph@, ev, u, v, i as int, l as int));
                        if added is Some {
                            let (u0, v0) = added->0;
                            if u == u0 {
                                let q = choose|q: int| 0 <= q < old_av[u].len() && old_av[u][q] == v as usize;
                                assert(av[u][q] == v as usize);
                            }
                        }
                        assert(edge(av, u, v));
                    }
                    if edge(av, u, v) && !edge(old_av, u, v) {
                        let (u0, v0) = added->0;
                        assert(u == u0);
                        assert(av[u].contains(v as usize));
                        if v != v0 {
                            let q = choose|q: int| 0 <= q < av[u].len() && av[u][q] == v as usize;
                            assert(q < old_av[u].len());
                            assert(old_av[u][q] == v as usize);
                        }
                        assert(hs == Some(u) && hd == Some(v));
                        assert(element_edge_before(graph@, ev, u, v, i as int, l + 1)) by {
                            assert(holder(ev, graph@[i as int].name@) == Some(u));
                            assert(holder(ev, graph@[i as int].links@[l as int]@) == Some(v));
                        }
                    }
                    if element_edge_before(graph@, ev, u, v, i as int, l + 1) {
                        let (i2, l2) = choose|i2: int, l2: int|
                            0 <= i2 < graph@.len() && 0 <= l2 < graph@[i2].links.len() && (i2 < i
                                || (i2 == i && l2 < l + 1)) && #[trigger] holder(ev, graph@[i2].name@)
                                == Some(u) && #[trigger] holder(ev, graph@[i2].links@[l2]@) == Some(v);
                        if i2 == i && l2 == l {
                            assert(src == Some(u as usize) && dst == Some(v as usize));
                            if added is None {
                                assert(edge(av, u, v));
                            } else {
                                let (u0, v0) = added->0;
                                assert(u0 == u && v0 == v);
                                assert(av[u][av[u].len() - 1] == v as usize);
                            }
                        } else {
                            assert(element_edge_before(graph@, ev, u, v, i as int, l as int));
                            assert(edge(old_av, u, v));
                        }
                    }
                }
            }
            l = l + 1;
        }
        proof {
            assert forall|u: int, v: int|
                #![trigger edge(adj_view(adj@), u, v)]
                0 <= v < n implies (edge(adj_view(adj@), u, v) <==> element_edge_before(
                    graph@,
                    ev,
                    u,
                    v,
                    i + 1,
                    0,
                )) by {
                if element_edge_before(graph@, ev, u, v, i + 1, 0) {
                    let (i2, l2) = choose|i2: int, l2: int|
                        0 <= i2 < graph@.len() && 0 <= l2 < graph@[i2].links.len() && (i2 < i + 1
                            || (i2 == i + 1 && l2 < 0)) && #[trigger] holder(ev, graph@[i2].name@)
                            == Some(u) && #[trigger] holder(ev, graph@[i2].links@[l2]@) == Some(v);
                    assert(element_edge_before(graph@, ev, u, v, i as int, links.len() as int));
                }
                if element_edge_before(graph@, ev, u, v, i as int, links.len() as int) {
                    let (i2, l2) = choose|i2: int, l2: int|
                        0 <= i2 < graph@.len() && 0 <= l2 < graph@[i2].links.len() && (i2 < i
                            || (i2 == i && l2 < links.len())) && #[trigger] holder(ev, graph@[i2].name@)
                            == Some(u) && #[trigger] holder(ev, graph@[i2].links@[l2]@) == Some(v);
                    assert(element_edge_before(graph@, ev, u, v, i + 1, 0));
                }
            }
        }
        i = i + 1;
    }
    proof {
        assert forall|u: int, v: int|
            #![trigger edge(adj_view(adj@), u, v)]
            0 <= v < n implies (edge(adj_view(adj@), u, v) <==> element_edge(graph@, ev, u, v)) by {
            if element_edge(graph@, ev, u, v) {
                let (i2, l2) = choose|i2: int, l2: int|
                    0 <= i2 < graph@.len() && 0 <= l2 < graph@[i2].links.len() && #[trigger] holder(
                        ev,
                        graph@[i2].name@,
                    ) == Some(u) && #[trigger] holder(ev, graph@[i2].links@[l2]@) == Some(v);
                assert(element_edge_before(graph@, ev, u, v, graph.len() as int, 0));
            }
            if element_edge_before(graph@, ev, u, v, graph.len() as int, 0) {
                let (i2, l2) = choose|i2: int, l2: int|
                    0 <= i2 < graph@.len() && 0 <= l2 < graph@[i2].links.len() && (i2 < graph.len()
                        || (i2 == graph.len() && l2 < 0)) && #[trigger] holder(ev, graph@[i2].name@)
                        == Some(u) && #[trigger] holder(ev, graph@[i2].links@[l2]@) == Some(v);
                assert(element_edge(graph@, ev, u, v));
            }
        }
    }
    adj
}

/// Ranks the macro elements: each starts at its seed rank (see
/// `seed_rank`), the element links are layered by longest path (see
/// `longest_path_layering`), and an element any of whose members has an
/// explicit rank ends at the smallest such rank. Every explicit rank must
/// leave room above it for one rank per element.
pub fn rank_elements(graph: &Vec<LayoutNode>, elems: &Vec<MacroElement>) -> (r: Vec<usize>)
    requires
        elems.len() + 2 <= usize::MAX,
        forall|i: int|
            0 <= i < graph.len() ==> (#[trigger] graph@[i].rank matches Some(x) ==> x + elems.len() + 2
                <= usize::MAX),
    ensures
        r.len() == elems.len(),
        forall|m: int| 0 <= m < r.len() ==> #[trigger] r@[m] < usize::MAX,
        forall|m: int|
            0 <= m < elems.len() ==> (min_member_rank(
                graph@,
                #[trigger] elems_view(elems@)[m].2,
            ) matches Some(x) ==> r@[m] == x),
        forall|m: int|
            0 <= m < elems.len() && min_member_rank(graph@, #[trigger] elems_view(elems@)[m].2) is None
                ==> r@[m] >= seed_rank(graph@, elems_view(elems@)[m]) && (!has_element_pred(
                graph@,
                elems_view(elems@),
                m,
            ) ==> r@[m] == seed_rank(graph@, elems_view(elems@)[m])),
        forall|u: int, m: int|
            #[trigger] element_edge(graph@, elems_view(elems@), u, m) && 0 <= m < elems.len()
                && min_member_rank(graph@, elems_view(elems@)[m].2) is None ==> r@[m] >= 1,
        (exists|m: int| 0 <= m < elems.len() && !#[trigger] has_element_pred(graph@, elems_view(elems@), m))
            ==> exists|base: Seq<usize>|
            base.len() == elems.len() && elements_tight(graph@, elems_view(elems@), base) && forall|m: int|
                0 <= m < elems.len() && (min_member_rank(graph@, #[trigger] elems_view(elems@)[m].2) is None)
                    ==> r@[m] == base[m],
        elements_acyclic(graph@, elems_view(elems@)) ==> exists|
            base: Seq<usize>,
        |
            elements_layered(graph@, elems_view(elems@), base)
                && forall|m: int|
                0 <= m < elems.len() && (min_member_rank(
                    graph@,
                    #[trigger] elems_view(elems@)[m].2,
                ) is None) ==> r@[m] == base[m],
{
    let ghost ev = elems_view(elems@);
    let n = elems.len();
    let ghost bound: int = usize::MAX - n - 2;
    let mut seeds: Vec<usize> = Vec::new();
    let mut m: usize = 0;
    while m < n
        invariant
            m <= n == elems.len(),
            ev == elems_view(elems@),
            bound == usize::MAX - n - 2,
            bound >= 0,
            forall|i: int|
                0 <= i < graph.len() ==> (#[trigger] graph@[i].rank matches Some(x) ==> x <= bound),
            seeds@ == seed_ranks(graph@, ev).take(m as int),
            forall|k: int| 0 <= k < m ==> #[trigger] seeds@[k] <= bound,
        decreases n - m,
    {
        let e = &elems[m];
        assert(ev[m as int] == elem_view(*e));
        let lr = lookup_rank(graph, &e.id);
        let mr = min_rank_of(graph, &e.members);
        let s = match lr {
            Some(x) => x,
            None => match mr {
                Some(x) => x,
                None => 0,
            },
        };
        proof {
            lemma_last_named_bound(graph@, e.id@, graph.len() as int);
            lemma_min_member_rank_bound(graph@, string_views(e.members@), bound);
            if let Some(i) = last_named(graph@, e.id@, graph.len() as int) {
                assert(graph@[i].rank matches Some(x) ==> x <= bound);
            }
            assert(s <= bound);
        }
        seeds.push(s);
        assert(seeds@ =~= seed_ranks(graph@, ev).take(m + 1));
        m = m + 1;
    }
    assert(seeds@ =~= seed_ranks(graph@, ev));
    let adj = element_adjacency(graph, elems);
    let ghost av = adj_view(adj@);
    let base = longest_path_layering(&adj, &seeds);
    let mut r = base.clone();
    assert(r@ =~= base@);
    let mut k: usize = 0;
    while k < n
        invariant
            k <= n == elems.len() == r.len() == base.len(),
            ev == elems_view(elems@),
            forall|j: int|
                0 <= j < k ==> (min_member_rank(graph@, #[trigger] ev[j].2) matches Some(x) ==> r@[j]
                    == x),
            forall|j: int| 0 <= j < n ==> #[trigger] r@[j] < usize::MAX,
            forall|i: int|
                0 <= i < graph.len() ==> (#[trigger] graph@[i].rank matches Some(x) ==> x + n + 2
                    <= usize::MAX),
            forall|j: int|
                0 <= j < n && (k <= j || min_member_rank(graph@, #[trigger] ev[j].2) is None) ==> r@[j]
                    == base@[j],
        decreases n - k,
    {
        assert(ev[k as int].2 == string_views(elems@[k as int].members@));
        if let Some(x) = min_rank_of(graph, &elems[k].members) {
            proof {
                lemma_min_member_rank_bound(graph@, string_views(elems@[k as int].members@), usize::MAX - n - 2);
            }
            r.set(k, x);
        }
        k = k + 1;
    }
    proof {
        assert forall|m: int|
            0 <= m < n && min_member_rank(graph@, #[trigger] ev[m].2) is None implies r@[m] >= seed_rank(
                graph@,
                ev[m],
            ) && (!has_element_pred(graph@, ev, m) ==> r@[m] == seed_rank(graph@, ev[m])) by {
            assert(seeds@[m] == seed_rank(graph@, ev[m]));
            if !has_element_pred(graph@, ev, m) && has_pred(av, m) {
                let u = choose|u: int| #[trigger] edge(av, u, m);
                assert(element_edge(graph@, ev, u, m));
            }
        }
        assert forall|u: int, m: int|
            #[trigger] element_edge(graph@, ev, u, m) && 0 <= m < n && min_member_rank(graph@, ev[m].2)
                is None implies r@[m] >= 1 by {
            assert(edge(av, u, m));
        }
        if exists|m: int| 0 <= m < n && !#[trigger] has_element_pred(graph@, ev, m) {
            let m0 = choose|m: int| 0 <= m < n && !#[trigger] has_element_pred(graph@, ev, m);
            if has_pred(av, m0) {
                let u = choose|u: int| #[trigger] edge(av, u, m0);
                assert(element_edge(graph@, ev, u, m0));
            }
            assert(!has_pred(av, m0));
            assert forall|v: int| 0 <= v < base.len() implies #[trigger] base@[v] == seed_rank(graph@, ev[v])
                || base@[v] == 1 || exists|u: int| #[trigger] element_edge(graph@, ev, u, v) && base@[v] == base@[u]
                + 1 by {
                assert(seeds@[v] == seed_rank(graph@, ev[v]));
                if base@[v] != seeds@[v] && base@[v] != 1 {
                    let u = choose|u: int| #![trigger edge(av, u, v)] edge(av, u, v) && base@[v] == base@[u] + 1;
                    assert(element_edge(graph@, ev, u, v));
                }
            }
            assert(elements_tight(graph@, ev, base@));
        }
        if elements_acyclic(graph@, ev) {
            let pot = choose|pot: Seq<nat>|
                pot.len() == ev.len() && forall|u: int, v: int| #[trigger]
                    element_edge(graph@, ev, u, v) ==> pot[u] < pot[v];
            assert forall|a: int, b: int| #[trigger]
                edge(av, a, b) && 0 <= b < av.len() implies pot[a] < pot[b] by {
                assert(element_edge(graph@, ev, a, b));
            }
            assert(acyclic(av));
            assert(is_layering(av, seeds@, base@));
            assert forall|u: int, v: int| #[trigger] element_edge(graph@, ev, u, v) implies base@[v] >= base@[u] + 1 by {
                let (i2, l2) = choose|i2: int, l2: int|
                    0 <= i2 < graph@.len() && 0 <= l2 < graph@[i2].links.len() && #[trigger] holder(
                        ev,
                        graph@[i2].name@,
                    ) == Some(u) && #[trigger] holder(ev, graph@[i2].links@[l2]@) == Some(v);
                lemma_last_holder_bound(ev, graph@[i2].links@[l2]@, ev.len() as int);
                assert(edge(av, u, v));
            }
            assert forall|v: int| 0 <= v < base.len() implies #[trigger] base@[v] == seed_rank(graph@, ev[v])
                || exists|u: int| #[trigger] element_edge(graph@, ev, u, v) && base@[v] == base@[u] + 1 by {
                assert(seeds@[v] == seed_rank(graph@, ev[v]));
                if base@[v] != seeds@[v] {
                    let u = choose|u: int| #![trigger edge(av, u, v)] edge(av, u, v) && base@[v] == base@[u] + 1;
                    assert(element_edge(graph@, ev, u, v));
                }
            }
            assert forall|v: int| 0 <= v < base.len() implies #[trigger] base@[v] >= seed_rank(graph@, ev[v]) by {
                assert(seeds@[v] == seed_rank(graph@, ev[v]));
            }
            assert(elements_layered(graph@, ev, base@));
        }
    }
    r
}

/// The highest rank in `r`, or 0 when there is none.
pub open spec fn max_rank(r: Seq<usize>) -> usize
    decreases r.len(),
{
    if r.len() == 0 {
        0
    } else {
        let m = max_rank(r.drop_last());
        if m >= r.last() {
            m
        } else {
            r.last()
        }
    }
}

/// The sort key of element `m` within its layer: the smallest explicit
/// order among its members, else its own index.
pub open spec fn layer_key(graph: Seq<LayoutNode>, e: (Seq<char>, bool, Seq<Seq<char>>), m: int) -> usize {
    match min_member_order(graph, e.2) {
        Some(o) => o,
        None => m as usize,
    }
}

/// The indices among the first `k` whose rank is `rank`, in order.
pub open spec fn ranked(r: Seq<usize>, rank: usize, k: int) -> Seq<usize>
    decreases k,
{
    if k <= 0 {
        Seq::empty()
    } else if r[k - 1] == rank {
        ranked(r, rank, k - 1).push((k - 1) as usize)
    } else {
        ranked(r, rank, k - 1)
    }
}

/// The elements of rank `rank`, sorted stably by `layer_key`.
pub open spec fn layer(
    graph: Seq<LayoutNode>,
    elems: Seq<(Seq<char>, bool, Seq<Seq<char>>)>,
    r: Seq<usize>,
    rank: usize,
) -> Seq<usize> {
    stable_sorted(
        ranked(r, rank, r.len() as int).map_values(
            |m: usize| (layer_key(graph, elems[m as int], m as int), m),
        ),
    ).map_values(|p: (usize, usize)| p.1)
}

/// The elements of `l` stand in order of the smallest explicit order among
/// their members, an element without one standing at its own index: of two
/// elements with explicit orders the smaller order comes first, and two
/// without keep their index order.
pub open spec fn layer_in_order(
    graph: Seq<LayoutNode>,
    elems: Seq<(Seq<char>, bool, Seq<Seq<char>>)>,
    l: Seq<usize>,
) -> bool {
    forall|a: int, b: int|
        #![trigger l[a], l[b]]
        0 <= a < b < l.len() ==> match (
            min_member_order(graph, elems[l[a] as int].2),
            min_member_order(graph, elems[l[b] as int].2),
        ) {
            (Some(ox), Some(oy)) => ox <= oy,
            (Some(ox), None) => ox <= l[b],
            (None, Some(oy)) => l[a] <= oy,
            (None, None) => l[a] <= l[b],
        }
}

/// Each layer lists its elements in explicit order, as `layer_in_order`
/// says.
pub proof fn lemma_layer_in_order(
    graph: Seq<LayoutNode>,
    elems: Seq<(Seq<char>, bool, Seq<Seq<char>>)>,
    r: Seq<usize>,
    rank: usize,
)
    ensures
        layer_in_order(graph, elems, layer(graph, elems, r, rank)),
{
    let keyed = ranked(r, rank, r.len() as int).map_values(
        |m: usize| (layer_key(graph, elems[m as int], m as int), m),
    );
    lemma_stable_sorted(keyed);
    let st = stable_sorted(keyed);
    let l = layer(graph, elems, r, rank);
    assert forall|a: int| 0 <= a < st.len() implies #[trigger] st[a].0 == layer_key(graph, elems[l[a] as int], l[a] as int) by {
        assert(st.contains(st[a]));
        let i = choose|i: int| 0 <= i < keyed.len() && keyed[i] == st[a];
        assert(l[a] == st[a].1);
    }
    assert forall|a: int, b: int|
        #![trigger l[a], l[b]]
        0 <= a < b < l.len() implies match (
            min_member_order(graph, elems[l[a] as int].2),
            min_member_order(graph, elems[l[b] as int].2),
        ) {
            (Some(ox), Some(oy)) => ox <= oy,
            (Some(ox), None) => ox <= l[b],
            (None, Some(oy)) => l[a] <= oy,
            (None, None) => l[a] <= l[b],
        } by {
        assert(st[a].0 <= st[b].0);
        assert(st[a].0 == layer_key(graph, elems[l[a] as int], l[a] as int));
        assert(st[b].0 == layer_key(graph, elems[l[b] as int], l[b] as int));
    }
}

proof fn lemma_max_rank_below(r: Seq<usize>)
    requires
        forall|i: int| 0 <= i < r.len() ==> #[trigger] r[i] < usize::MAX,
    ensures
        max_rank(r) < usize::MAX,
    decreases r.len(),
{
    if r.len() > 0 {
        assert forall|i: int| 0 <= i < r.len() - 1 implies #[trigger] r.drop_last()[i] < usize::MAX by {
            assert(r.drop_last()[i] == r[i]);
        }
        lemma_max_rank_below(r.drop_last());
    }
}

proof fn lemma_max_rank(r: Seq<usize>)
    ensures
        forall|i: int| 0 <= i < r.len() ==> #[trigger] r[i] <= max_rank(r),
    decreases r.len(),
{
    if r.len() > 0 {
        lemma_max_rank(r.drop_last());
        assert forall|i: int| 0 <= i < r.len() implies #[trigger] r[i] <= max_rank(r) by {
            if i < r.len() - 1 {
                assert(r.drop_last()[i] == r[i]);
            }
        }
    }
}

/// Groups element indices into layers by rank, `layers[q]` holding the
/// elements of rank `q` sorted stably by the smallest explicit order among
/// their members (their own index when none has one); there is one layer
/// per rank from 0 to the highest.
pub fn layer_elements(graph: &Vec<LayoutNode>, elems: &Vec<MacroElement>, ranks: &Vec<usize>) -> (layers:
    Vec<Vec<usize>>)
    requires
        ranks.len() == elems.len(),
        max_rank(ranks@) < usize::MAX,
    ensures
        layers.len() == max_rank(ranks@) + 1,
        forall|q: int|
            0 <= q < layers.len() ==> (#[trigger] layers@[q])@ == layer(
                graph@,
                elems_view(elems@),
                ranks@,
                q as usize,
            ),
        forall|q: int| 0 <= q < layers.len() ==> layer_in_order(graph@, elems_view(elems@), (#[trigger] layers@[q])@),
{
    proof {
        assert forall|q: int| 0 <= q < max_rank(ranks@) + 1 implies layer_in_order(
            graph@,
            elems_view(elems@),
            #[trigger] layer(graph@, elems_view(elems@), ranks@, q as usize),
        ) by {
            lemma_layer_in_order(graph@, elems_view(elems@), ranks@, q as usize);
        }
    }
    let ghost ev = elems_view(elems@);
    let n = ranks.len();
    let mut top: usize = 0;
    let mut i: usize = 0;
    while i < n
        invariant
            i <= n == ranks.len(),
            top == max_rank(ranks@.take(i as int)),
        decreases n - i,
    {
        assert(ranks@.take(i + 1).drop_last() =~= ranks@.take(i as int));
        if ranks[i] > top {
            top = ranks[i];
        }
        i = i + 1;
    }
    assert(ranks@.take(n as int) =~= ranks@);
    proof {
        lemma_max_rank(ranks@);
    }
    let mut keys: Vec<usize> = Vec::new();
    let mut m: usize = 0;
    while m < n
        invariant
            m <= n == ranks.len() == elems.len(),
            ev == elems_view(elems@),
            keys@ == Seq::new(m as nat, |k: int| layer_key(graph@, ev[k], k)),
        decreases n - m,
    {
        assert(ev[m as int].2 == string_views(elems@[m as int].members@));
        let key = match min_order_of(graph, &elems[m].members) {
            Some(o) => o,
            None => m,
        };
        keys.push(key);
        assert(keys@ =~= Seq::new((m + 1) as nat, |k: int| layer_key(graph@, ev[k], k)));
        m = m + 1;
    }
    let mut layers: Vec<Vec<usize>> = Vec::new();
    let mut q: usize = 0;
    while q <= top
        invariant
            q <= top + 1,
            top == max_rank(ranks@),
            top < usize::MAX,
            n == ranks.len() == elems.len() == keys.len(),
            ev == elems_view(elems@),
            keys@ == Seq::new(n as nat, |k: int| layer_key(graph@, ev[k], k)),
            layers.len() == q,
            forall|p: int| 0 <= p < q ==> (#[trigger] layers@[p])@ == layer(graph@, ev, ranks@, p as usize),
        decreases top + 1 - q,
    {
        let mut pairs: Vec<(usize, usize)> = Vec::new();
        let mut k: usize = 0;
        while k < n
            invariant
                k <= n == ranks.len() == keys.len() == elems.len(),
                keys@ == Seq::new(n as nat, |j: int| layer_key(graph@, ev[j], j)),
                pairs@ == ranked(ranks@, q, k as int).map_values(
                    |mm: usize| (layer_key(graph@, ev[mm as int], mm as int), mm),
                ),
            decreases n - k,
        {
            if ranks[k] == q {
                pairs.push((keys[k], k));
            }
            assert(pairs@ =~= ranked(ranks@, q, k + 1).map_values(
                |mm: usize| (layer_key(graph@, ev[mm as int], mm as int), mm),
            ));
            k = k + 1;
        }
        let sorted = stable_sort_pairs(&pairs);
        let mut row: Vec<usize> = Vec::new();
        let mut j: usize = 0;
        while j < sorted.len()
            invariant
                j <= sorted.len(),
                row@ == sorted@.take(j as int).map_values(|p: (usize, usize)| p.1),
            decreases sorted.len() - j,
        {
            row.push(sorted[j].1);
            assert(row@ =~= sorted@.take(j + 1).map_values(|p: (usize, usize)| p.1));
            j = j + 1;
        }
        assert(sorted@.take(sorted.len() as int) =~= sorted@);
        layers.push(row);
        q = q + 1;
    }
    layers
}

/// The ranking stage of a hierarchical layout: the macro elements, their
/// ranks, and the elements of each rank in placement order.
#[derive(Debug)]
pub struct RankedLayout {
    pub elements: Vec<MacroElement>,
    pub ranks: Vec<usize>,
    pub layers: Vec<Vec<usize>>,
}

proof fn lemma_element_count(graph: Seq<LayoutNode>, groups: Seq<LayoutGroup>, a: int, b: int)
    requires
        0 <= a,
        0 <= b,
    ensures
        group_elements(graph, groups, a).len() <= a,
        standalone_elements(graph, groups, b).len() <= b,
    decreases a + b,
{
    if a > 0 {
        lemma_element_count(graph, groups, a - 1, b);
    }
    if b > 0 {
        lemma_element_count(graph, groups, a, b - 1);
    }
}

/// Ranks a graph for hierarchical placement: gathers its macro elements
/// (see `build_macro_elements`), ranks them (see `rank_elements`) and
/// orders each rank (see `layer_elements`). An element with an explicit
/// member rank takes it; any other element sits at or above its seed, at its
/// seed when nothing links to it, and at rank 1 or more when something does.
/// When some element has no incoming link, the ranks before explicit ones
/// are applied are tight: each is the element's seed, 1, or one above an
/// element linking to it. Without cycles the ranks are exactly the
/// longest-path layering.
pub fn rank_layout(graph: &Vec<LayoutNode>, groups: &Vec<LayoutGroup>) -> (r: RankedLayout)
    requires
        graph.len() + groups.len() + 2 <= usize::MAX,
        forall|i: int|
            0 <= i < graph.len() ==> (#[trigger] graph@[i].rank matches Some(x) ==> x + graph.len()
                + groups.len() + 2 <= usize::MAX),
    ensures
        elems_view(r.elements@) == macro_elements(graph@, groups@),
        forall|m: int| 0 <= m < r.elements.len() ==> listed_by_order(graph@, #[trigger] elems_view(r.elements@)[m].2),
        forall|q: int| 0 <= q < r.layers.len() ==> layer_in_order(graph@, elems_view(r.elements@), (#[trigger] r.layers@[q])@),
        r.ranks.len() == r.elements.len(),
        forall|m: int|
            0 <= m < r.elements.len() ==> (min_member_rank(
                graph@,
                #[trigger] elems_view(r.elements@)[m].2,
            ) matches Some(x) ==> r.ranks@[m] == x),
        forall|m: int|
            0 <= m < r.elements.len() && min_member_rank(graph@, #[trigger] elems_view(r.elements@)[m].2)
                is None ==> r.ranks@[m] >= seed_rank(graph@, elems_view(r.elements@)[m]) && (
            !has_element_pred(graph@, elems_view(r.elements@), m) ==> r.ranks@[m] == seed_rank(
                graph@,
                elems_view(r.elements@)[m],
            )),
        forall|u: int, m: int|
            #[trigger] element_edge(graph@, elems_view(r.elements@), u, m) && 0 <= m < r.elements.len()
                && min_member_rank(graph@, elems_view(r.elements@)[m].2) is None ==> r.ranks@[m] >= 1,
        (exists|m: int| 0 <= m < r.elements.len() && !#[trigger] has_element_pred(graph@, elems_view(r.elements@), m))
            ==> exists|base: Seq<usize>|
            base.len() == r.elements.len() && elements_tight(graph@, elems_view(r.elements@), base) && forall|m: int|
                0 <= m < r.elements.len() && (min_member_rank(graph@, #[trigger] elems_view(r.elements@)[m].2) is None)
                    ==> r.ranks@[m] == base[m],
        elements_acyclic(graph@, elems_view(r.elements@)) ==> exists|base: Seq<usize>|
            elements_layered(graph@, elems_view(r.elements@), base) && forall|m: int|
                0 <= m < r.elements.len() && (min_member_rank(
                    graph@,
                    #[trigger] elems_view(r.elements@)[m].2,
                ) is None) ==> r.ranks@[m] == base[m],
        r.layers.len() == max_rank(r.ranks@) + 1,
        forall|q: int|
            0 <= q < r.layers.len() ==> (#[trigger] r.layers@[q])@ == layer(
                graph@,
                elems_view(r.elements@),
                r.ranks@,
                q as usize,
            ),
{
    let elements = build_macro_elements(graph, groups);
    proof {
        lemma_element_count(graph@, groups@, groups.len() as int, graph.len() as int);
        assert(elements.len() == elems_view(elements@).len());
    }
    let ranks = rank_elements(graph, &elements);
    proof {
        lemma_max_rank_below(ranks@);
    }
    let layers = layer_elements(graph, &elements, &ranks);
    RankedLayout { elements, ranks, layers }
}

} // verus!
