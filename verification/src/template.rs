//! Node template parameters: the `{{param}}` -> value bindings a node
//! instance renders its template with, the substitution of those
//! placeholders into a template's text fields, and the runtime
//! `update_node_params` merge.
use vstd::prelude::*;
use crate::text::{chars_of, concat, string_from};

verus! {

broadcast use {vstd::seq_lib::group_seq_properties, vstd::string::group_string_axioms};

/// String-to-string bindings, kept in the order their keys were first set.
#[derive(Debug)]
pub struct ParamMap {
    pairs: Vec<(String, String)>,
}

/// Bindings as plain values, in order.
pub open spec fn pairs_view(p: Seq<(String, String)>) -> Seq<(Seq<char>, Seq<char>)> {
    p.map_values(|e: (String, String)| (e.0@, e.1@))
}

/// The keys of bindings given as plain values.
pub open spec fn keys_of(es: Seq<(Seq<char>, Seq<char>)>) -> Seq<Seq<char>> {
    es.map_values(|e: (Seq<char>, Seq<char>)| e.0)
}

/// The bindings `es` after setting `k` to `v`: an existing binding of `k`
/// is replaced where it stands, a new one goes last.
pub open spec fn set_binding(es: Seq<(Seq<char>, Seq<char>)>, k: Seq<char>, v: Seq<char>) -> Seq<
    (Seq<char>, Seq<char>),
> {
    if keys_of(es).contains(k) {
        es.update(keys_of(es).index_of(k), (k, v))
    } else {
        es.push((k, v))
    }
}

/// The bindings `es` after setting each of `more` in turn.
pub open spec fn set_all(es: Seq<(Seq<char>, Seq<char>)>, more: Seq<(Seq<char>, Seq<char>)>) -> Seq<
    (Seq<char>, Seq<char>),
>
    decreases more.len(),
{
    if more.len() == 0 {
        es
    } else {
        set_binding(set_all(es, more.drop_last()), more.last().0, more.last().1)
    }
}

/// The value bound to `k`, if any.
pub open spec fn lookup(es: Seq<(Seq<char>, Seq<char>)>, k: Seq<char>) -> Option<Seq<char>> {
    if keys_of(es).contains(k) {
        Some(es[keys_of(es).index_of(k)].1)
    } else {
        None
    }
}

impl ParamMap {
    /// No key is bound twice.
    pub closed spec fn wf(&self) -> bool {
        keys_of(pairs_view(self.pairs@)).no_duplicates()
    }

    /// The bindings, in order.
    pub closed spec fn view(&self) -> Seq<(Seq<char>, Seq<char>)> {
        pairs_view(self.pairs@)
    }

    /// No bindings.
    pub fn new() -> (m: ParamMap)
        ensures
            m.wf(),
            m@ == Seq::<(Seq<char>, Seq<char>)>::empty(),
    {
        let m = ParamMap { pairs: Vec::new() };
        assert(m@ =~= Seq::<(Seq<char>, Seq<char>)>::empty());
        m
    }

    /// The number of bindings.
    pub fn len(&self) -> (n: usize)
        ensures
            n == self@.len(),
    {
        self.pairs.len()
    }

    /// The key of the `i`th binding.
    pub fn key_at(&self, i: usize) -> (k: &String)
        requires
            i < self@.len(),
        ensures
            k@ == self@[i as int].0,
    {
        &self.pairs[i].0
    }

    /// The value of the `i`th binding.
    pub fn value_at(&self, i: usize) -> (v: &String)
        requires
            i < self@.len(),
        ensures
            v@ == self@[i as int].1,
    {
        &self.pairs[i].1
    }

    /// The position of the binding of `k`, if any.
    fn position(&self, k: &String) -> (r: Option<usize>)
        requires
            self.wf(),
        ensures
            match r {
                Some(i) => i < self@.len() && keys_of(self@).contains(k@) && keys_of(self@).index_of(
                    k@,
                ) == i,
                None => !keys_of(self@).contains(k@),
            },
    {
        let ghost ks = keys_of(self@);
        let mut i: usize = 0;
        while i < self.pairs.len()
            invariant
                i <= self.pairs.len(),
                ks == keys_of(pairs_view(self.pairs@)),
                ks.no_duplicates(),
                forall|j: int| 0 <= j < i ==> #[trigger] ks[j] != k@,
            decreases self.pairs.len() - i,
        {
            assert(ks[i as int] == self.pairs@[i as int].0@);
            if self.pairs[i].0 == *k {
                proof {
                    assert(ks.contains(k@));
                    let j = ks.index_of(k@);
                    assert(ks[j] == k@);
                }
                return Some(i);
            }
            i = i + 1;
        }
        None
    }

    /// The value bound to `k`, if any.
    pub fn get(&self, k: &String) -> (r: Option<&String>)
        requires
            self.wf(),
        ensures
            match r {
                Some(v) => lookup(self@, k@) == Some(v@),
                None => lookup(self@, k@) is None,
            },
    {
        match self.position(k) {
            Some(i) => Some(&self.pairs[i].1),
            None => None,
        }
    }

    /// Binds `k` to `v` (see `set_binding`).
    pub fn set(&mut self, k: String, v: String)
        requires
            old(self).wf(),
        ensures
            final(self).wf(),
            final(self)@ == set_binding(old(self)@, k@, v@),
    {
        let ghost es = self@;
        match self.position(&k) {
            Some(i) => {
                self.pairs.set(i, (k, v));
                assert(self@ =~= es.update(i as int, (k@, v@)));
                assert(keys_of(self@) =~= keys_of(es));
            },
            None => {
                self.pairs.push((k, v));
                assert(self@ =~= es.push((k@, v@)));
                assert(keys_of(self@) =~= keys_of(es).push(k@));
            },
        }
    }

    /// Binds each of `more`'s keys to its value in turn.
    pub fn set_each(&mut self, more: &ParamMap)
        requires
            old(self).wf(),
        ensures
            final(self).wf(),
            final(self)@ == set_all(old(self)@, more@),
    {
        let ghost es = self@;
        let mut i: usize = 0;
        assert(more@.take(0) =~= Seq::<(Seq<char>, Seq<char>)>::empty());
        while i < more.pairs.len()
            invariant
                i <= more.pairs.len(),
                self.wf(),
                self@ == set_all(es, more@.take(i as int)),
            decreases more.pairs.len() - i,
        {
            assert(more@.take(i + 1).drop_last() =~= more@.take(i as int));
            self.set(more.pairs[i].0.clone(), more.pairs[i].1.clone());
            i = i + 1;
        }
        assert(more@.take(more.pairs.len() as int) =~= more@);
    }
}

/// The placeholder text for parameter `k`: `{{k}}`.
pub open spec fn placeholder(k: Seq<char>) -> Seq<char> {
    seq!['{', '{'] + k + seq!['}', '}']
}

/// `s` with every occurrence of the non-empty `pat`, scanned left to right
/// without overlaps, replaced by `rep`, as `str::replace` does it.
pub open spec fn replace_all(s: Seq<char>, pat: Seq<char>, rep: Seq<char>) -> Seq<char>
    decreases s.len(),
{
    if pat.len() == 0 || s.len() < pat.len() {
        s
    } else if s.take(pat.len() as int) == pat {
        rep + replace_all(s.skip(pat.len() as int), pat, rep)
    } else {
        seq![s[0]] + replace_all(s.drop_first(), pat, rep)
    }
}

/// `s` with each binding's placeholder replaced by its value, the bindings
/// applied one after another in order.
pub open spec fn substitute_all(s: Seq<char>, es: Seq<(Seq<char>, Seq<char>)>) -> Seq<char>
    decreases es.len(),
{
    if es.len() == 0 {
        s
    } else {
        replace_all(substitute_all(s, es.drop_last()), placeholder(es.last().0), es.last().1)
    }
}

/// Whether `pat` occurs in `s` starting at position `i`.
fn matches_at(s: &Vec<char>, pat: &Vec<char>, i: usize) -> (r: bool)
    requires
        i <= s.len(),
    ensures
        r == (s@.skip(i as int).len() >= pat@.len() && s@.skip(i as int).take(pat.len() as int)
            == pat@),
{
    if pat.len() > s.len() - i {
        return false;
    }
    let mut k: usize = 0;
    while k < pat.len()
        invariant
            k <= pat.len(),
            i + pat.len() <= s.len(),
            forall|j: int| 0 <= j < k ==> s@[i + j] == pat@[j],
        decreases pat.len() - k,
    {
        if s[i + k] != pat[k] {
            assert(s@.skip(i as int).take(pat.len() as int)[k as int] != pat@[k as int]);
            return false;
        }
        k = k + 1;
    }
    assert(s@.skip(i as int).take(pat.len() as int) =~= pat@);
    true
}

/// Appends the characters of `rep` to `out`.
fn append_chars(out: &mut Vec<char>, rep: &Vec<char>)
    ensures
        final(out)@ == old(out)@ + rep@,
{
    let ghost out0 = out@;
    let mut j: usize = 0;
    while j < rep.len()
        invariant
            j <= rep.len(),
            out@ == out0 + rep@.take(j as int),
        decreases rep.len() - j,
    {
        out.push(rep[j]);
        assert(out0 + rep@.take(j + 1) =~= (out0 + rep@.take(j as int)).push(rep@[j as int]));
        j = j + 1;
    }
    assert(rep@.take(rep.len() as int) =~= rep@);
}

/// `s` with every occurrence of `pat` replaced by `rep` (see `replace_all`).
pub fn replace_text(s: &Vec<char>, pat: &Vec<char>, rep: &Vec<char>) -> (r: Vec<char>)
    requires
        pat.len() > 0,
    ensures
        r@ == replace_all(s@, pat@, rep@),
{
    let mut out: Vec<char> = Vec::new();
    let mut i: usize = 0;
    assert(s@.skip(0) =~= s@);
    while i < s.len()
        invariant
            i <= s.len(),
            pat.len() > 0,
            out@ + replace_all(s@.skip(i as int), pat@, rep@) == replace_all(s@, pat@, rep@),
        decreases s.len() - i,
    {
        let ghost rest = s@.skip(i as int);
        let ghost out0 = out@;
        if matches_at(s, pat, i) {
            append_chars(&mut out, rep);
            assert(rest.skip(pat.len() as int) =~= s@.skip(i + pat.len()));
            assert(replace_all(rest, pat@, rep@) == rep@ + replace_all(rest.skip(pat.len() as int), pat@, rep@));
            assert(out@ + replace_all(s@.skip(i + pat.len()), pat@, rep@) =~= out0 + replace_all(rest, pat@, rep@));
            i = i + pat.len();
        } else {
            out.push(s[i]);
            assert(rest.drop_first() =~= s@.skip(i + 1));
            assert(rest[0] == s@[i as int]);
            assert(replace_all(rest, pat@, rep@) == seq![rest[0]] + replace_all(rest.drop_first(), pat@, rep@));
            assert(out@ + replace_all(s@.skip(i + 1), pat@, rep@) =~= out0 + replace_all(rest, pat@, rep@));
            i = i + 1;
        }
    }
    assert(s@.skip(s.len() as int) =~= Seq::<char>::empty());
    assert(out@ + replace_all(s@.skip(s.len() as int), pat@, rep@) =~= out@);
    out
}

/// The characters of `{{k}}`.
fn placeholder_of(k: &String) -> (r: Vec<char>)
    ensures
        r@ == placeholder(k@),
{
    let mut r: Vec<char> = Vec::new();
    r.push('{');
    r.push('{');
    let ks = chars_of(k.as_str());
    let mut i: usize = 0;
    while i < ks.len()
        invariant
            i <= ks.len(),
            r@ == seq!['{', '{'] + ks@.take(i as int),
        decreases ks.len() - i,
    {
        r.push(ks[i]);
        assert(seq!['{', '{'] + ks@.take(i + 1) =~= (seq!['{', '{'] + ks@.take(i as int)).push(ks@[i as int]));
        i = i + 1;
    }
    r.push('}');
    r.push('}');
    assert(ks@.take(ks.len() as int) =~= ks@);
    assert(r@ =~= placeholder(k@));
    r
}

/// `s` with every `{{param}}` placeholder replaced by the value `params`
/// binds it to, the bindings applied one after another in order (see
/// `substitute_all`). Placeholders of unbound names are left as they are.
pub fn substitute(s: &str, params: &ParamMap) -> (r: String)
    ensures
        r@ == substitute_all(s@, params@),
{
    let mut cur = chars_of(s);
    let mut i: usize = 0;
    assert(params@.take(0) =~= Seq::<(Seq<char>, Seq<char>)>::empty());
    while i < params.len()
        invariant
            i <= params@.len(),
            cur@ == substitute_all(s@, params@.take(i as int)),
        decreases params@.len() - i,
    {
        let pat = placeholder_of(params.key_at(i));
        let rep = chars_of(params.value_at(i).as_str());
        assert(params@.take(i + 1).drop_last() =~= params@.take(i as int));
        cur = replace_text(&cur, &pat, &rep);
        i = i + 1;
    }
    assert(params@.take(params@.len() as int) =~= params@);
    string_from(&cur)
}

/// The fallback values every template can use, so shared theme templates
/// render cleanly on nodes that bind none of them.
pub open spec fn default_bindings() -> Seq<(Seq<char>, Seq<char>)> {
    seq![
        ("accent_color"@, "#38bdf8"@),
        ("service_type"@, "Cloud Node"@),
        ("status_bg"@, "#dbeafe"@),
        ("status_color"@, "#1e40af"@),
        ("status_text"@, "HEALTHY • ACTIVE"@),
        ("neon_border"@, "#00f5ff"@),
        ("neon_accent"@, "#00f5ff"@),
        ("telemetry"@, "SYSTEM // ONLINE"@),
        ("badge_bg"@, "#083344"@),
        ("badge_color"@, "#67e8f9"@),
        ("status_code"@, "ONLINE"@),
        ("unit_id"@, "1U RACK UNIT"@),
        ("led_pwr"@, "#22c55e"@),
        ("led_net"@, "#38bdf8"@),
        ("led_act"@, "#f59e0b"@),
        ("disc_color"@, "#dbeafe"@),
        ("role_tag"@, "NODE"@),
        ("tag_color"@, "#2563eb"@),
    ]
}

/// The bindings a node instance named `name` renders its template with:
/// the fallback values, then `node_name` bound to the instance's name, then
/// `icon` bound to the node type's icon when it has one, then the node
/// type's explicit `template_params`, each overriding what came before.
pub open spec fn template_bindings(
    name: Seq<char>,
    icon: Option<Seq<char>>,
    explicit: Seq<(Seq<char>, Seq<char>)>,
) -> Seq<(Seq<char>, Seq<char>)> {
    let base = set_binding(set_all(Seq::empty(), default_bindings()), "node_name"@, name);
    let with_icon = match icon {
        Some(i) => set_binding(base, "icon"@, i),
        None => base,
    };
    set_all(with_icon, explicit)
}

/// Binds `k` to `v` in `m`.
fn bind(m: &mut ParamMap, k: &str, v: &str)
    requires
        old(m).wf(),
    ensures
        final(m).wf(),
        final(m)@ == set_binding(old(m)@, k@, v@),
{
    m.set(k.to_string(), v.to_string());
}

/// The bindings for the template of a node instance named `instance_name`
/// whose node type has the icon `icon` and the explicit bindings
/// `explicit` (see `template_bindings`).
pub fn template_params(instance_name: &str, icon: &Option<String>, explicit: &ParamMap) -> (r:
    ParamMap)
    ensures
        r.wf(),
        r@ == template_bindings(
            instance_name@,
            match icon {
                Some(i) => Some(i@),
                None => None,
            },
            explicit@,
        ),
{
    let mut m = ParamMap::new();
    bind(&mut m, "accent_color", "#38bdf8");
    bind(&mut m, "service_type", "Cloud Node");
    bind(&mut m, "status_bg", "#dbeafe");
    bind(&mut m, "status_color", "#1e40af");
    bind(&mut m, "status_text", "HEALTHY • ACTIVE");
    bind(&mut m, "neon_border", "#00f5ff");
    bind(&mut m, "neon_accent", "#00f5ff");
    bind(&mut m, "telemetry", "SYSTEM // ONLINE");
    bind(&mut m, "badge_bg", "#083344");
    bind(&mut m, "badge_color", "#67e8f9");
    bind(&mut m, "status_code", "ONLINE");
    bind(&mut m, "unit_id", "1U RACK UNIT");
    bind(&mut m, "led_pwr", "#22c55e");
    bind(&mut m, "led_net", "#38bdf8");
    bind(&mut m, "led_act", "#f59e0b");
    bind(&mut m, "disc_color", "#dbeafe");
    bind(&mut m, "role_tag", "NODE");
    bind(&mut m, "tag_color", "#2563eb");
    proof {
        reveal_with_fuel(set_all, 19);
    }
    assert(m@ == set_all(Seq::empty(), default_bindings()));
    bind(&mut m, "node_name", instance_name);
    match icon {
        Some(i) => {
            m.set("icon".to_string(), i.clone());
        },
        None => {},
    }
    m.set_each(explicit);
    m
}

/// The message for an `update_node_params` call on a node with no template.
pub open spec fn no_template_message(name: Seq<char>) -> Seq<char> {
    "update_node_params called on '"@ + name + "', which has no template_ref/template to update"@
}

/// The message for an `update_node_params` call with nothing in it.
pub open spec fn no_params_message(name: Seq<char>) -> Seq<char> {
    "update_node_params called on '"@ + name + "' with no params"@
}

/// Applies a runtime `update_node_params` call on the node instance `name`
/// (whose node type has the icon `icon` and the explicit bindings
/// `explicit`): refused with a warning message when the node has no
/// template or `updates` is empty, leaving `overrides` as it was; otherwise
/// `updates` are merged into the node's persistent `overrides`, and the
/// result is the bindings to re-render the template with: the node's own
/// bindings (see `template_params`) with every override on top.
pub fn merge_param_updates(
    name: &str,
    has_template: bool,
    icon: &Option<String>,
    explicit: &ParamMap,
    overrides: &mut ParamMap,
    updates: &ParamMap,
) -> (r: Result<ParamMap, String>)
    requires
        old(overrides).wf(),
    ensures
        final(overrides).wf(),
        !has_template ==> r is Err && r->Err_0@ == no_template_message(name@) && final(overrides)@
            == old(overrides)@,
        has_template && updates@.len() == 0 ==> r is Err && r->Err_0@ == no_params_message(name@)
            && final(overrides)@ == old(overrides)@,
        has_template && updates@.len() > 0 ==> r is Ok && final(overrides)@ == set_all(
            old(overrides)@,
            updates@,
        ) && r->Ok_0.wf() && r->Ok_0@ == set_all(
            template_bindings(
                name@,
                match icon {
                    Some(i) => Some(i@),
                    None => None,
                },
                explicit@,
            ),
            final(overrides)@,
        ),
{
    if !has_template {
        let m = concat(concat("update_node_params called on '".to_string(), name), "', which has no template_ref/template to update");
        return Err(m);
    }
    if updates.len() == 0 {
        let m = concat(concat("update_node_params called on '".to_string(), name), "' with no params");
        return Err(m);
    }
    overrides.set_each(updates);
    let mut params = template_params(name, icon, explicit);
    params.set_each(overrides);
    Ok(params)
}

/// The value bound last to `k` among `more`, if any.
pub open spec fn last_binding(more: Seq<(Seq<char>, Seq<char>)>, k: Seq<char>) -> Option<Seq<char>>
    decreases more.len(),
{
    if more.len() == 0 {
        None
    } else if more.last().0 == k {
        Some(more.last().1)
    } else {
        last_binding(more.drop_last(), k)
    }
}

/// Setting `k` to `v` binds `k` to `v`, leaves every other key's value
/// alone, and keeps keys distinct.
proof fn lemma_set_binding_lookup(es: Seq<(Seq<char>, Seq<char>)>, k: Seq<char>, v: Seq<char>, q: Seq<char>)
    requires
        keys_of(es).no_duplicates(),
    ensures
        keys_of(set_binding(es, k, v)).no_duplicates(),
        lookup(set_binding(es, k, v), q) == (if q == k {
            Some(v)
        } else {
            lookup(es, q)
        }),
{
    let ks = keys_of(es);
    let es2 = set_binding(es, k, v);
    let ks2 = keys_of(es2);
    if ks.contains(k) {
        let j = ks.index_of(k);
        assert(ks2 =~= ks);
        if ks.contains(q) {
            let i = ks.index_of(q);
            assert(ks[i] == q);
            if q != k {
                assert(i != j);
            }
        }
    } else {
        assert(ks2 =~= ks.push(k));
        assert forall|a: int, b: int| 0 <= a < ks2.len() && 0 <= b < ks2.len() && a != b implies ks2[a] != ks2[b] by {
            if a < ks.len() && b < ks.len() {
                assert(ks[a] != ks[b]);
            } else if a < ks.len() {
                assert(ks.contains(ks[a]));
            } else {
                assert(ks.contains(ks[b]));
            }
        }
        if q == k {
            assert(ks2[ks.len() as int] == k);
            let i = ks2.index_of(k);
            assert(ks2[i] == k);
            if i < ks.len() {
                assert(ks[i] == k);
            }
        } else {
            crate::topology::lemma_push_contains(ks, k, q);
            if ks.contains(q) {
                let i2 = ks2.index_of(q);
                let i1 = ks.index_of(q);
                assert(ks2[i2] == q);
                assert(ks[i1] == q);
                assert(i2 < ks.len());
                assert(ks[i2] == q);
                assert(i1 == i2);
            }
        }
    }
}

/// An `update_node_params` call only needs to name what changed: after
/// setting each of `more` in turn, a key `more` names is bound to the value
/// it was given last, every other key keeps its value, and keys stay
/// distinct.
pub proof fn lemma_set_all_lookup(es: Seq<(Seq<char>, Seq<char>)>, more: Seq<(Seq<char>, Seq<char>)>, q: Seq<char>)
    requires
        keys_of(es).no_duplicates(),
    ensures
        keys_of(set_all(es, more)).no_duplicates(),
        lookup(set_all(es, more), q) == (match last_binding(more, q) {
            Some(v) => Some(v),
            None => lookup(es, q),
        }),
    decreases more.len(),
{
    if more.len() > 0 {
        lemma_set_all_lookup(es, more.drop_last(), q);
        lemma_set_binding_lookup(set_all(es, more.drop_last()), more.last().0, more.last().1, q);
    }
}

/// Whether `s` holds `{{` somewhere.
pub open spec fn has_open_braces(s: Seq<char>) -> bool {
    exists|i: int| 0 <= i && i + 1 < s.len() && #[trigger] s[i] == '{' && s[i + 1] == '{'
}

/// A text without `{{` holds no placeholder to replace.
proof fn lemma_replace_without_open_braces(s: Seq<char>, k: Seq<char>, v: Seq<char>)
    requires
        !has_open_braces(s),
    ensures
        replace_all(s, placeholder(k), v) == s,
    decreases s.len(),
{
    let pat = placeholder(k);
    if s.len() >= pat.len() {
        if s.take(pat.len() as int) == pat {
            assert(s.take(pat.len() as int)[0] == '{' && s.take(pat.len() as int)[1] == '{');
            assert(s[0] == '{' && s[1] == '{');
            assert(false);
        }
        let d = s.drop_first();
        assert(!has_open_braces(d)) by {
            if has_open_braces(d) {
                let i = choose|i: int| 0 <= i && i + 1 < d.len() && #[trigger] d[i] == '{' && d[i + 1] == '{';
                assert(s[i + 1] == '{' && s[i + 2] == '{');
            }
        }
        lemma_replace_without_open_braces(d, k, v);
        assert(seq![s[0]] + d =~= s);
    }
}

/// Substitution leaves a text alone when it holds no `{{` at all, and an
/// empty list of bindings leaves every text alone.
pub proof fn lemma_substitute_identity(s: Seq<char>, es: Seq<(Seq<char>, Seq<char>)>)
    ensures
        substitute_all(s, Seq::empty()) == s,
        !has_open_braces(s) ==> substitute_all(s, es) == s,
    decreases es.len(),
{
    if es.len() > 0 && !has_open_braces(s) {
        lemma_substitute_identity(s, es.drop_last());
        lemma_replace_without_open_braces(s, es.last().0, es.last().1);
    }
}

} // verus!
