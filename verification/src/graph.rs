//! The line-oriented dependency format: each non-blank line reads
//! `name: dep dep ...`, and every dependency is recorded in both directions,
//! so the result is an undirected neighbour relation.
use vstd::prelude::*;
use crate::text::{
    chars_of, concat, decimal, find_string, lines, lines_of, split_chars, split_on, string_from,
    string_views, trim, trimmed, usize_to_string, views,
};

verus! {

broadcast use {vstd::seq_lib::group_seq_properties, vstd::string::group_string_axioms};

/// A neighbour relation: node name to the names it is linked with.
pub type Adjacency = Map<Seq<char>, Set<Seq<char>>>;

/// The neighbours recorded for `k`, or none when `k` is not a node yet.
pub open spec fn neighbours_or_empty(m: Adjacency, k: Seq<char>) -> Set<Seq<char>> {
    if m.dom().contains(k) {
        m[k]
    } else {
        Set::empty()
    }
}

/// `m` once `key` has been added to the neighbours of every name in `done`
/// other than `key` itself.
pub open spec fn with_reverse_links(m: Adjacency, key: Seq<char>, done: Set<Seq<char>>) -> Adjacency {
    Map::new(
        |x: Seq<char>| m.dom().contains(x) || (done.contains(x) && x != key),
        |x: Seq<char>|
            if done.contains(x) && x != key {
                neighbours_or_empty(m, x).insert(key)
            } else {
                neighbours_or_empty(m, x)
            },
    )
}

/// `m` after recording the line `key: deps`: `key` becomes a node linked to
/// every dependency, and every dependency other than `key` is linked back.
pub open spec fn add_line(m: Adjacency, key: Seq<char>, deps: Set<Seq<char>>) -> Adjacency {
    let r = with_reverse_links(m, key, deps);
    r.insert(key, neighbours_or_empty(r, key).union(deps))
}

/// The dependency names on the right of a `:`: its space-separated pieces,
/// trimmed, without the empty ones.
pub open spec fn dep_names(rhs: Seq<char>) -> Set<Seq<char>> {
    split_on(rhs, ' ').map_values(|p: Seq<char>| trim(p)).to_set().filter(
        |d: Seq<char>| d.len() > 0,
    )
}

/// Whether `line` is blank once trimmed.
pub open spec fn line_is_blank(line: Seq<char>) -> bool {
    trim(line).len() == 0
}

/// The pieces of a trimmed line around `:`.
pub open spec fn line_parts(line: Seq<char>) -> Seq<Seq<char>> {
    split_on(trim(line), ':')
}

/// The message of the error for the line with index `i` (counting from 0).
pub open spec fn ill_format_message(i: nat) -> Seq<char> {
    "ill format line "@ + decimal(i)
}

/// The relation described by the first `n` lines of `ls`, or the index of
/// the first non-blank line among them without exactly one `:`.
pub open spec fn parse_lines(ls: Seq<Seq<char>>, n: nat) -> Result<Adjacency, nat>
    decreases n,
{
    if n == 0 {
        Ok(Map::empty())
    } else {
        match parse_lines(ls, (n - 1) as nat) {
            Err(e) => Err(e),
            Ok(m) => {
                let line = ls[n - 1];
                if line_is_blank(line) {
                    Ok(m)
                } else if line_parts(line).len() != 2 {
                    Err((n - 1) as nat)
                } else {
                    Ok(add_line(m, trim(line_parts(line)[0]), dep_names(line_parts(line)[1])))
                }
            },
        }
    }
}

/// The relation described by the whole text `s`.
pub open spec fn parse_graph_spec(s: Seq<char>) -> Result<Adjacency, nat> {
    parse_lines(lines(s), lines(s).len())
}

/// Every link is recorded at both ends, and every neighbour is itself a node.
pub open spec fn is_symmetric(m: Adjacency) -> bool {
    forall|k: Seq<char>, s: Seq<char>|
        #![trigger m[k].contains(s)]
        m.dom().contains(k) && m[k].contains(s) ==> m.dom().contains(s) && (s != k
            ==> m[s].contains(k))
}

/// A parsed dependency relation. Names and each neighbour list hold no
/// duplicates; the view maps every name to the set of its neighbours.
#[derive(Debug)]
pub struct DepGraph {
    names: Vec<String>,
    links: Vec<Vec<String>>,
}

impl DepGraph {
    /// Well-formedness: one neighbour list per name, no name twice, no
    /// neighbour twice in a list.
    pub closed spec fn wf(&self) -> bool {
        &&& self.names.len() == self.links.len()
        &&& string_views(self.names@).no_duplicates()
        &&& forall|i: int|
            0 <= i < self.links.len() ==> #[trigger] string_views(self.links@[i]@).no_duplicates()
    }

    /// The neighbour relation as a map.
    pub closed spec fn view(&self) -> Adjacency {
        Map::new(
            |k: Seq<char>| string_views(self.names@).contains(k),
            |k: Seq<char>|
                string_views(self.links@[string_views(self.names@).index_of(k)]@).to_set(),
        )
    }

    fn new() -> (g: DepGraph)
        ensures
            g.wf(),
            g@ == Map::<Seq<char>, Set<Seq<char>>>::empty(),
    {
        let g = DepGraph { names: Vec::new(), links: Vec::new() };
        assert(g@ =~= Map::<Seq<char>, Set<Seq<char>>>::empty());
        g
    }

    proof fn lemma_view_at(&self, i: int)
        requires
            self.wf(),
            0 <= i < self.names.len(),
        ensures
            self@.dom().contains(self.names@[i]@),
            self@[self.names@[i]@] == string_views(self.links@[i]@).to_set(),
    {
        let nv = string_views(self.names@);
        assert(nv[i] == self.names@[i]@);
        assert(nv.contains(self.names@[i]@));
        let j = nv.index_of(self.names@[i]@);
        assert(nv[j] == nv[i]);
    }

    /// The position of `k`, inserting it with no neighbours if it is new.
    fn ensure_node(&mut self, k: &String) -> (i: usize)
        requires
            old(self).wf(),
        ensures
            final(self).wf(),
            i < final(self).names.len(),
            final(self).names@[i as int]@ == k@,
            final(self)@ == old(self)@.insert(k@, neighbours_or_empty(old(self)@, k@)),
    {
        let ghost old_view = self@;
        match find_string(&self.names, k) {
            Some(i) => {
                proof {
                    self.lemma_view_at(i as int);
                    assert(self@ =~= old_view.insert(k@, neighbours_or_empty(old_view, k@)));
                }
                i
            },
            None => {
                let ghost old_names = string_views(self.names@);
                self.names.push(k.clone());
                self.links.push(Vec::new());
                let i = self.names.len() - 1;
                proof {
                    let nv = string_views(self.names@);
                    assert(nv =~= old_names.push(k@));
                    assert forall|a: int, b: int|
                        0 <= a < nv.len() && 0 <= b < nv.len() && a != b implies nv[a]
                        != nv[b] by {
                        if a < old_names.len() && b < old_names.len() {
                            assert(nv[a] == old_names[a] && nv[b] == old_names[b]);
                        } else if a < old_names.len() {
                            assert(old_names.contains(nv[a]));
                        } else {
                            assert(old_names.contains(nv[b]));
                        }
                    }
                    assert forall|j: int| 0 <= j < self.links.len() implies #[trigger] string_views(
                        self.links@[j]@,
                    ).no_duplicates() by {
                        if j < self.links.len() - 1 {
                            assert(self.links@[j] == old(self).links@[j]);
                        } else {
                            assert(string_views(self.links@[j]@) =~= Seq::<Seq<char>>::empty());
                        }
                    }
                    assert forall|x: Seq<char>| #[trigger] self@.dom().contains(x) <==> old_view.insert(
                        k@,
                        Set::empty(),
                    ).dom().contains(x) by {
                        if old_names.contains(x) {
                            let j = old_names.index_of(x);
                            assert(nv[j] == x);
                        }
                        if nv.contains(x) && x != k@ {
                            let j = nv.index_of(x);
                            assert(j < old_names.len());
                            assert(old_names[j] == x);
                        }
                        assert(nv[i as int] == k@);
                    }
                    assert forall|x: Seq<char>| #[trigger]
                        self@.dom().contains(x) implies self@[x] == old_view.insert(
                        k@,
                        Set::empty(),
                    )[x] by {
                        let j = nv.index_of(x);
                        if x == k@ {
                            assert(nv[i as int] == k@);
                            assert(j == i as int);
                            assert(string_views(self.links@[j]@).to_set() =~= Set::empty());
                        } else {
                            assert(j < old_names.len());
                            assert(old_names[j] == x);
                            assert(old_names.contains(x));
                            let oj = old_names.index_of(x);
                            assert(oj == j);
                            assert(self.links@[j] == old(self).links@[j]);
                        }
                    }
                    assert(self@ =~= old_view.insert(k@, neighbours_or_empty(old_view, k@)));
                }
                i
            },
        }
    }

    /// Records `b` among the neighbours of `a`, inserting `a` if it is new.
    fn add_link(&mut self, a: &String, b: &String)
        requires
            old(self).wf(),
        ensures
            final(self).wf(),
            final(self)@ == old(self)@.insert(a@, neighbours_or_empty(old(self)@, a@).insert(b@)),
    {
        let ghost v0 = self@;
        let i = self.ensure_node(a);
        let ghost v1 = self@;
        proof {
            self.lemma_view_at(i as int);
        }
        let ghost links1 = self.links@;
        let mut list = self.links.remove(i);
        let ghost old_list = string_views(list@);
        assert(list == links1[i as int]);
        assert(string_views(links1[i as int]@).no_duplicates());
        match find_string(&list, b) {
            Some(k) => {
                assert(old_list[k as int] == b@);
                assert(old_list.to_set() =~= old_list.to_set().insert(b@));
            },
            None => {
                list.push(b.clone());
                assert(string_views(list@) =~= old_list.push(b@));
                proof { old_list.lemma_push_to_set_commute(b@); }
                assert forall|a1: int, b1: int|
                    0 <= a1 < old_list.len() + 1 && 0 <= b1 < old_list.len() + 1 && a1
                        != b1 implies #[trigger] string_views(list@)[a1] != #[trigger] string_views(
                    list@,
                )[b1] by {
                    if a1 == old_list.len() {
                        assert(old_list.contains(string_views(list@)[b1]));
                    } else if b1 == old_list.len() {
                        assert(old_list.contains(string_views(list@)[a1]));
                    }
                }
            },
        }
        assert(string_views(list@).no_duplicates());
        assert(string_views(list@).to_set() =~= old_list.to_set().insert(b@));
        self.links.insert(i, list);
        proof {
            let nv = string_views(self.names@);
            assert forall|j: int| 0 <= j < self.links.len() implies #[trigger] string_views(
                self.links@[j]@,
            ).no_duplicates() by {
                if j != i {
                    assert(self.links@[j] == links1[j]);
                }
            }
            assert(self.wf());
            self.lemma_view_at(i as int);
            assert forall|x: Seq<char>| #[trigger]
                self@.dom().contains(x) implies self@[x] == v1.insert(
                a@,
                v1[a@].insert(b@),
            )[x] by {
                let j = nv.index_of(x);
                if x != a@ {
                    assert(nv[j] == x);
                    assert(j != i);
                }
            }
            assert(self@ =~= v1.insert(a@, v1[a@].insert(b@)));
            assert(self@ =~= v0.insert(a@, neighbours_or_empty(v0, a@).insert(b@)));
        }
    }

    /// The neighbours of `name`, if it is a node.
    pub fn get(&self, name: &str) -> (r: Option<&Vec<String>>)
        requires
            self.wf(),
        ensures
            match r {
                Some(v) => self@.dom().contains(name@) && string_views(v@).to_set()
                    == self@[name@] && v.len() == self@[name@].len(),
                None => !self@.dom().contains(name@),
            },
    {
        let key = name.to_string();
        match find_string(&self.names, &key) {
            Some(i) => {
                proof {
                    self.lemma_view_at(i as int);
                    string_views(self.links@[i as int]@).unique_seq_to_set();
                }
                Some(&self.links[i])
            },
            None => None,
        }
    }

    /// The number of nodes.
    pub fn len(&self) -> (n: usize)
        requires
            self.wf(),
        ensures
            n == self@.dom().len(),
    {
        proof {
            let nv = string_views(self.names@);
            nv.unique_seq_to_set();
            assert(self@.dom() =~= nv.to_set());
        }
        self.names.len()
    }
}

/// The distinct dependency names of `rhs` (see `dep_names`).
fn dep_list(rhs: &Vec<char>) -> (r: Vec<String>)
    ensures
        string_views(r@).no_duplicates(),
        string_views(r@).to_set() == dep_names(rhs@),
{
    let pieces = split_chars(rhs, ' ');
    let ghost ps = split_on(rhs@, ' ');
    let mut out: Vec<String> = Vec::new();
    let mut j: usize = 0;
    assert(string_views(out@).to_set() =~= ps.take(0).map_values(|p: Seq<char>| trim(p)).to_set().filter(
        |d: Seq<char>| d.len() > 0,
    ));
    while j < pieces.len()
        invariant
            j <= pieces.len(),
            views(pieces@) == ps,
            string_views(out@).no_duplicates(),
            string_views(out@).to_set() == ps.take(j as int).map_values(
                |p: Seq<char>| trim(p),
            ).to_set().filter(|d: Seq<char>| d.len() > 0),
        decreases pieces.len() - j,
    {
        assert(views(pieces@)[j as int] == pieces@[j as int]@);
        let t = trimmed(&pieces[j], 0, pieces[j].len());
        assert(pieces@[j as int]@.subrange(0, pieces@[j as int]@.len() as int) =~= ps[j as int]);
        let ghost before = string_views(out@);
        let ghost tj = ps.take(j as int).map_values(|p: Seq<char>| trim(p));
        assert(ps.take(j + 1).map_values(|p: Seq<char>| trim(p)) =~= tj.push(trim(ps[j as int])));
        proof {
            tj.lemma_push_to_set_commute(trim(ps[j as int]));
        }
        if t.len() > 0 {
            let name = string_from(&t);
            match find_string(&out, &name) {
                Some(k) => {
                    assert(before[k as int] == name@);
                    assert(string_views(out@).to_set() =~= tj.push(trim(ps[j as int])).to_set().filter(
                        |d: Seq<char>| d.len() > 0,
                    ));
                },
                None => {
                    out.push(name);
                    assert(string_views(out@) =~= before.push(t@));
                    proof {
                        before.lemma_push_to_set_commute(t@);
                    }
                    assert forall|a1: int, b1: int|
                        0 <= a1 < before.len() + 1 && 0 <= b1 < before.len() + 1 && a1
                            != b1 implies #[trigger] string_views(out@)[a1]
                        != #[trigger] string_views(out@)[b1] by {
                        if a1 == before.len() {
                            assert(before.contains(string_views(out@)[b1]));
                        } else if b1 == before.len() {
                            assert(before.contains(string_views(out@)[a1]));
                        }
                    }
                    assert(string_views(out@).to_set() =~= tj.push(trim(ps[j as int])).to_set().filter(
                        |d: Seq<char>| d.len() > 0,
                    ));
                },
            }
        } else {
            assert(string_views(out@).to_set() =~= tj.push(trim(ps[j as int])).to_set().filter(
                |d: Seq<char>| d.len() > 0,
            ));
        }
        j = j + 1;
    }
    assert(ps.take(pieces.len() as int) =~= ps);
    out
}

/// Records the line `key: deps` in `g` (see `add_line`).
fn record_line(g: &mut DepGraph, key: &String, deps: &Vec<String>)
    requires
        old(g).wf(),
        string_views(deps@).no_duplicates(),
    ensures
        final(g).wf(),
        final(g)@ == add_line(old(g)@, key@, string_views(deps@).to_set()),
{
    let ghost m0 = g@;
    let ghost dv = string_views(deps@);
    let mut j: usize = 0;
    assert(g@ =~= with_reverse_links(m0, key@, dv.take(0).to_set()));
    while j < deps.len()
        invariant
            j <= deps.len(),
            dv == string_views(deps@),
            dv.no_duplicates(),
            g.wf(),
            g@ == with_reverse_links(m0, key@, dv.take(j as int).to_set()),
        decreases deps.len() - j,
    {
        let ghost done = dv.take(j as int).to_set();
        assert(dv.take(j + 1) =~= dv.take(j as int).push(dv[j as int]));
        proof {
            dv.take(j as int).lemma_push_to_set_commute(dv[j as int]);
        }
        assert(!done.contains(dv[j as int])) by {
            if done.contains(dv[j as int]) {
                let k = dv.take(j as int).index_of(dv[j as int]);
                assert(dv[k] == dv[j as int]);
            }
        }
        assert(dv[j as int] == deps@[j as int]@);
        if deps[j] != *key {
            let ghost before = g@;
            g.add_link(&deps[j], key);
            assert(g@ =~= with_reverse_links(m0, key@, dv.take(j + 1).to_set()));
        } else {
            assert(g@ =~= with_reverse_links(m0, key@, dv.take(j + 1).to_set()));
        }
        j = j + 1;
    }
    assert(dv.take(deps.len() as int) =~= dv);
    let ghost r = g@;
    let _ = g.ensure_node(key);
    assert(dv.take(0).to_set() =~= Set::<Seq<char>>::empty());
    assert(neighbours_or_empty(r, key@).union(dv.take(0).to_set()) =~= neighbours_or_empty(r, key@));
    assert(g@ =~= r.insert(key@, neighbours_or_empty(r, key@).union(dv.take(0).to_set())));
    let mut j: usize = 0;
    while j < deps.len()
        invariant
            j <= deps.len(),
            dv == string_views(deps@),
            g.wf(),
            g@ == r.insert(key@, neighbours_or_empty(r, key@).union(dv.take(j as int).to_set())),
        decreases deps.len() - j,
    {
        assert(dv.take(j + 1) =~= dv.take(j as int).push(dv[j as int]));
        proof {
            dv.take(j as int).lemma_push_to_set_commute(dv[j as int]);
        }
        assert(dv[j as int] == deps@[j as int]@);
        let ghost before = g@;
        assert(before.dom().contains(key@));
        assert(neighbours_or_empty(before, key@) == neighbours_or_empty(r, key@).union(dv.take(j as int).to_set()));
        g.add_link(key, &deps[j]);
        assert(neighbours_or_empty(r, key@).union(dv.take(j as int).to_set()).insert(dv[j as int]) =~= neighbours_or_empty(r, key@).union(dv.take(j + 1).to_set()));
        assert(g@ =~= r.insert(key@, neighbours_or_empty(r, key@).union(dv.take(j + 1).to_set())));
        j = j + 1;
    }
    assert(dv.take(deps.len() as int) =~= dv);
}

/// Parses the dependency text `graph_code`: each non-blank line must hold
/// exactly one `:`, with a node name before it and space-separated
/// dependency names after it. Every dependency is linked in both directions.
/// Fails on the first non-blank line with no `:` or with more than one,
/// naming that line's index (counting from 0, blank lines included).
pub fn parse_graph(graph_code: &String) -> (r: Result<DepGraph, String>)
    ensures
        match r {
            Ok(g) => g.wf() && parse_graph_spec(graph_code@) == Ok::<Adjacency, nat>(g@) && is_symmetric(g@),
            Err(e) => parse_graph_spec(graph_code@) matches Err(i) && e@ == ill_format_message(i),
        },
{
    let text = chars_of(graph_code.as_str());
    let ls = lines_of(&text);
    let ghost lsv = lines(graph_code@);
    let mut g = DepGraph::new();
    let mut i: usize = 0;
    while i < ls.len()
        invariant
            i <= ls.len(),
            views(ls@) == lsv,
            lsv == lines(graph_code@),
            g.wf(),
            parse_lines(lsv, i as nat) == Ok::<Adjacency, nat>(g@),
        decreases ls.len() - i,
    {
        assert(views(ls@)[i as int] == ls@[i as int]@);
        let line = &ls[i];
        assert(line@.subrange(0, line@.len() as int) =~= line@);
        let t = trimmed(line, 0, line.len());
        if t.len() > 0 {
            let parts = split_chars(&t, ':');
            assert(views(parts@).len() == parts@.len());
            if parts.len() != 2 {
                proof {
                    assert(parse_lines(lsv, (i + 1) as nat) == Err::<Adjacency, nat>(i as nat));
                    lemma_parse_lines_err_sticks(lsv, (i + 1) as nat, lsv.len());
                }
                let num = usize_to_string(i);
                return Err(concat("ill format line ".to_owned(), num.as_str()));
            }
            assert(views(parts@)[0] == parts@[0]@);
            assert(views(parts@)[1] == parts@[1]@);
            assert(parts@[0]@.subrange(0, parts@[0]@.len() as int) =~= parts@[0]@);
            let key = string_from(&trimmed(&parts[0], 0, parts[0].len()));
            let deps = dep_list(&parts[1]);
            record_line(&mut g, &key, &deps);
        }
        i = i + 1;
    }
    proof {
        lemma_parse_graph_symmetric(graph_code@);
    }
    Ok(g)
}

/// Once a prefix of the lines fails, every longer prefix fails the same way.
proof fn lemma_parse_lines_err_sticks(ls: Seq<Seq<char>>, k: nat, n: nat)
    requires
        k <= n,
        parse_lines(ls, k) is Err,
    ensures
        parse_lines(ls, n) == parse_lines(ls, k),
    decreases n,
{
    if n > k {
        lemma_parse_lines_err_sticks(ls, k, (n - 1) as nat);
    }
}

/// Adding a line keeps a relation symmetric.
pub proof fn lemma_add_line_symmetric(m: Adjacency, key: Seq<char>, deps: Set<Seq<char>>)
    requires
        is_symmetric(m),
    ensures
        is_symmetric(add_line(m, key, deps)),
{
    let r = with_reverse_links(m, key, deps);
    let n = add_line(m, key, deps);
    assert forall|k: Seq<char>, s: Seq<char>|
        #![trigger n[k].contains(s)]
        n.dom().contains(k) && n[k].contains(s) implies n.dom().contains(s) && (s != k
        ==> n[s].contains(k)) by {
        if k == key {
            if deps.contains(s) {
            } else {
                assert(neighbours_or_empty(r, key).contains(s));
                if m.dom().contains(key) && m[key].contains(s) {
                } else {
                    assert(deps.contains(s) && s != key);
                }
            }
        } else {
            assert(r[k].contains(s));
            if s == key {
            } else {
                assert(m.dom().contains(k) && m[k].contains(s));
            }
        }
    }
}

/// The relation read from any text that parses is symmetric: whenever a
/// line names `b` as a dependency of `a`, both `a` and `b` are nodes, each
/// listed among the other's neighbours.
pub proof fn lemma_parse_graph_symmetric(s: Seq<char>)
    ensures
        parse_graph_spec(s) matches Ok(m) ==> is_symmetric(m),
{
    lemma_parse_lines_symmetric(lines(s), lines(s).len());
}

proof fn lemma_parse_lines_symmetric(ls: Seq<Seq<char>>, n: nat)
    ensures
        parse_lines(ls, n) matches Ok(m) ==> is_symmetric(m),
    decreases n,
{
    if n > 0 {
        lemma_parse_lines_symmetric(ls, (n - 1) as nat);
        if let Ok(m) = parse_lines(ls, (n - 1) as nat) {
            let line = ls[n - 1];
            if !line_is_blank(line) && line_parts(line).len() == 2 {
                lemma_add_line_symmetric(m, trim(line_parts(line)[0]), dep_names(line_parts(line)[1]));
            }
        }
    }
}

/// A non-blank line without exactly one `:`.
pub open spec fn bad_line(line: Seq<char>) -> bool {
    !line_is_blank(line) && line_parts(line).len() != 2
}

/// A text is refused exactly when some line is malformed, and the error
/// names the first such line.
pub proof fn lemma_parse_first_bad_line(s: Seq<char>)
    ensures
        parse_graph_spec(s) is Err <==> exists|i: int| 0 <= i < lines(s).len() && #[trigger] bad_line(lines(s)[i]),
        parse_graph_spec(s) matches Err(i) ==> i < lines(s).len() && bad_line(lines(s)[i as int]) && forall|k: int|
            0 <= k < i ==> !#[trigger] bad_line(lines(s)[k]),
{
    lemma_parse_lines_first_bad(lines(s), lines(s).len());
}

proof fn lemma_parse_lines_first_bad(ls: Seq<Seq<char>>, n: nat)
    requires
        n <= ls.len(),
    ensures
        parse_lines(ls, n) is Err <==> exists|i: int| 0 <= i < n && #[trigger] bad_line(ls[i]),
        parse_lines(ls, n) matches Err(i) ==> i < n && bad_line(ls[i as int]) && forall|k: int|
            0 <= k < i ==> !#[trigger] bad_line(ls[k]),
    decreases n,
{
    if n > 0 {
        lemma_parse_lines_first_bad(ls, (n - 1) as nat);
        if parse_lines(ls, (n - 1) as nat) is Ok {
            assert forall|i: int| 0 <= i < n - 1 implies !#[trigger] bad_line(ls[i]) by {}
            if bad_line(ls[n - 1]) {
                assert(bad_line(ls[n - 1]));
            }
        }
    }
}

} // verus!
