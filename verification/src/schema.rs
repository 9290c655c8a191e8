//! The checks a graph file's node types and graph entries pass before any
//! node is created: scripts compile, referenced icons and templates exist,
//! tick ranges are ordered, and every graph entry names a known type.
use vstd::prelude::*;
use crate::chance::draw_u64_inclusive;
use crate::text::{concat, decimal, find_string, string_views, u64_to_string};
use crate::imports::opt_view;

verus! {

/// How often a node's timer fires, in seconds: a fixed interval, or one
/// drawn from `[min, max]` once per node (`jitter`: again each time the
/// timer fires).
#[derive(PartialEq, Eq, Structural, Clone, Copy, Debug)]
pub enum Ticks {
    Fixed(u64),
    Range { min: u64, max: u64, jitter: bool },
}

/// Whether a tick setting is usable: a range must not be reversed.
pub open spec fn ticks_ordered(t: Ticks) -> bool {
    match t {
        Ticks::Range { min, max, .. } => min <= max,
        Ticks::Fixed(_) => true,
    }
}

impl Ticks {
    /// Whether a node's interval is drawn again each time its timer fires.
    pub fn jitters(&self) -> (r: bool)
        ensures
            r == (*self is Range && self->jitter),
    {
        match self {
            Ticks::Range { jitter, .. } => *jitter,
            Ticks::Fixed(_) => false,
        }
    }
}

/// A concrete timer interval in seconds: the fixed value, or a random
/// value within the range.
pub fn resolve_ticks_secs(ticks: &Ticks) -> (secs: u64)
    requires
        ticks_ordered(*ticks),
    ensures
        match *ticks {
            Ticks::Fixed(n) => secs == n,
            Ticks::Range { min, max, .. } => min <= secs <= max,
        },
{
    match ticks {
        Ticks::Fixed(n) => *n,
        Ticks::Range { min, max, .. } => draw_u64_inclusive(*min, *max),
    }
}

/// A node's repeating timer, counted in whole seconds: the seconds since it
/// last fired and the seconds between firings.
#[derive(Debug, Clone, Copy)]
pub struct TickTimer {
    pub elapsed: u64,
    pub interval: u64,
}

impl TickTimer {
    /// A timer that has just started.
    pub fn new(interval: u64) -> (t: TickTimer)
        ensures
            t.elapsed == 0,
            t.interval == interval,
    {
        TickTimer { elapsed: 0, interval }
    }

    /// Advances the timer by one second. It fires once the count reaches
    /// the interval, and then counts again from zero.
    pub fn tick(&mut self) -> (fired: bool)
        ensures
            fired == (old(self).elapsed + 1 >= old(self).interval),
            final(self).interval == old(self).interval,
            final(self).elapsed == if fired {
                0
            } else {
                old(self).elapsed + 1
            },
    {
        if self.elapsed >= self.interval || self.interval - self.elapsed <= 1 {
            self.elapsed = 0;
            true
        } else {
            self.elapsed = self.elapsed + 1;
            false
        }
    }
}

/// A node type's template shapes once its named template resolves: the
/// named template's shapes, then the type's own inline shapes, if any.
pub fn join_template<T>(named: Vec<T>, inline: Option<Vec<T>>) -> (shapes: Vec<T>)
    ensures
        shapes@ == named@ + match inline {
            Some(v) => v@,
            None => Seq::<T>::empty(),
        },
{
    let mut shapes = named;
    match inline {
        Some(v) => {
            let mut v = v;
            shapes.append(&mut v);
        },
        None => {
            assert(shapes@ =~= shapes@ + Seq::<T>::empty());
        },
    }
    shapes
}

/// What the checks read of a node type: its id, its icon, whether it
/// declares inline template shapes, its named template, and its ticks.
#[derive(Debug)]
pub struct TypeCheck {
    pub id: String,
    pub icon: Option<String>,
    pub has_template: bool,
    pub template_ref: Option<String>,
    pub ticks: Ticks,
}

/// How a node type's template resolves: the template it ends up naming and
/// the index of that template among the definition's templates (its shapes
/// come first, then the type's inline ones).
#[derive(Debug)]
pub struct TypeResolution {
    pub template_ref: Option<String>,
    pub template_index: Option<usize>,
}

/// Why a graph file was refused.
#[derive(Debug)]
pub enum SchemaError {
    /// A node type's script does not compile.
    Compile { node_type: String, detail: String },
    /// A node type names an icon the icons list lacks.
    MissingIcon { icon: String, node_type: String },
    /// A node type names a template the templates list lacks.
    MissingTemplate { template: String, node_type: String },
    /// A node type's tick range is reversed.
    BadTicks { node_type: String, min: u64, max: u64 },
    /// A graph entry names no known node type.
    UnknownNodeType { node_type: String },
    /// A graph entry's own script does not compile.
    OverrideCompile { node: String, detail: String },
}

/// The text of a schema error.
pub open spec fn schema_error_text(e: SchemaError) -> Seq<char> {
    match e {
        SchemaError::Compile { node_type, detail } => "Error compiling function for node type "@ + node_type@
            + " with error: "@ + detail@,
        SchemaError::MissingIcon { icon, node_type } => "Icon '"@ + icon@ + "' referenced by node type '"@
            + node_type@ + "' not found in icons list"@,
        SchemaError::MissingTemplate { template, node_type } => "Template '"@ + template@
            + "' referenced by node type '"@ + node_type@ + "' not found in node_templates list"@,
        SchemaError::BadTicks { node_type, min, max } => "Invalid ticks range for node type '"@ + node_type@
            + "': min ("@ + decimal(min as nat) + ") > max ("@ + decimal(max as nat) + ")"@,
        SchemaError::UnknownNodeType { node_type } => "Node type not found for type "@ + node_type@,
        SchemaError::OverrideCompile { node, detail } => "Error compiling per-instance fn override for node '"@
            + node@ + "': "@ + detail@,
    }
}

impl SchemaError {
    /// The error's text, as shown to the user.
    pub fn message(&self) -> (r: String)
        ensures
            r@ == schema_error_text(*self),
    {
        match self {
            SchemaError::Compile { node_type, detail } => {
                let s = concat("Error compiling function for node type ".to_owned(), node_type.as_str());
                let s = concat(s, " with error: ");
                concat(s, detail.as_str())
            },
            SchemaError::MissingIcon { icon, node_type } => {
                let s = concat("Icon '".to_owned(), icon.as_str());
                let s = concat(s, "' referenced by node type '");
                let s = concat(s, node_type.as_str());
                concat(s, "' not found in icons list")
            },
            SchemaError::MissingTemplate { template, node_type } => {
                let s = concat("Template '".to_owned(), template.as_str());
                let s = concat(s, "' referenced by node type '");
                let s = concat(s, node_type.as_str());
                concat(s, "' not found in node_templates list")
            },
            SchemaError::BadTicks { node_type, min, max } => {
                let s = concat("Invalid ticks range for node type '".to_owned(), node_type.as_str());
                let s = concat(s, "': min (");
                let lo = u64_to_string(*min);
                let s = concat(s, lo.as_str());
                let s = concat(s, ") > max (");
                let hi = u64_to_string(*max);
                let s = concat(s, hi.as_str());
                concat(s, ")")
            },
            SchemaError::UnknownNodeType { node_type } => {
                concat("Node type not found for type ".to_owned(), node_type.as_str())
            },
            SchemaError::OverrideCompile { node, detail } => {
                let s = concat("Error compiling per-instance fn override for node '".to_owned(), node.as_str());
                let s = concat(s, "': ");
                concat(s, detail.as_str())
            },
        }
    }
}

/// The template a node type ends up naming: its own `template_ref`, else
/// `default` when it declares no inline shapes and a template of that id
/// exists.
pub open spec fn effective_ref(t: TypeCheck, templates: Seq<Seq<char>>) -> Option<Seq<char>> {
    if !t.has_template && t.template_ref is None && templates.contains("default"@) {
        Some("default"@)
    } else {
        opt_view(t.template_ref)
    }
}

/// Whether `k` is the first index of `x` in `s`.
pub open spec fn first_at(s: Seq<Seq<char>>, x: Seq<char>, k: int) -> bool {
    0 <= k < s.len() && s[k] == x && forall|j: int| 0 <= j < k ==> s[j] != x
}

/// `e` is the error `check_node_type` gives for `t`: a missing icon first,
/// then a missing template, then a reversed tick range.
pub open spec fn node_type_error(t: TypeCheck, iv: Seq<Seq<char>>, tv: Seq<Seq<char>>, e: SchemaError) -> bool {
    let icon_ok = t.icon is None || iv.contains(t.icon->0@);
    let eff = effective_ref(t, tv);
    let ref_ok = eff is None || tv.contains(eff->0);
    match e {
        SchemaError::MissingIcon { icon, node_type } => !icon_ok && icon@ == t.icon->0@ && node_type@ == t.id@,
        SchemaError::MissingTemplate { template, node_type } => icon_ok && !ref_ok && template@ == eff->0
            && node_type@ == t.id@,
        SchemaError::BadTicks { node_type, min, max } => icon_ok && ref_ok && node_type@ == t.id@
            && t.ticks == (Ticks::Range { min, max, jitter: t.ticks->jitter }) && min > max,
        _ => false,
    }
}

/// Checks a node type against the definition's icon and template ids, in
/// the order a file is checked: its icon, then its template, then its
/// ticks; on success, how its template resolves.
pub fn check_node_type(t: &TypeCheck, icons: &Vec<String>, templates: &Vec<String>) -> (r: Result<TypeResolution, SchemaError>)
    ensures
        ({
            let iv = string_views(icons@);
            let tv = string_views(templates@);
            let icon_ok = t.icon is None || iv.contains(t.icon->0@);
            let eff = effective_ref(*t, tv);
            let ref_ok = eff is None || tv.contains(eff->0);
            match r {
                Ok(res) => icon_ok && ref_ok && ticks_ordered(t.ticks) && opt_view(res.template_ref) == eff
                    && match res.template_index {
                        Some(k) => eff is Some && first_at(tv, eff->0, k as int),
                        None => eff is None,
                    },
                Err(e) => node_type_error(*t, iv, tv, e),
            }
        }),
{
    match &t.icon {
        Some(icon) => {
            match find_string(icons, icon) {
                None => {
                    return Err(SchemaError::MissingIcon { icon: icon.clone(), node_type: t.id.clone() });
                },
                Some(k) => {
                    assert(string_views(icons@)[k as int] == icon@);
                },
            }
        },
        None => {},
    }
    let default_name = "default".to_owned();
    let eff: Option<String> = if !t.has_template && t.template_ref.is_none() {
        match find_string(templates, &default_name) {
            Some(k) => {
                assert(string_views(templates@)[k as int] == "default"@);
                Some(default_name)
            },
            None => None,
        }
    } else {
        t.template_ref.clone()
    };
    let index = match &eff {
        Some(name) => {
            match find_string(templates, name) {
                None => {
                    return Err(SchemaError::MissingTemplate { template: name.clone(), node_type: t.id.clone() });
                },
                Some(k) => {
                    assert(string_views(templates@)[k as int] == name@);
                    assert forall|j: int| 0 <= j < k implies string_views(templates@)[j] != name@ by {
                        assert(string_views(templates@)[j] == templates@[j]@);
                    }
                    Some(k)
                },
            }
        },
        None => None,
    };
    match t.ticks {
        Ticks::Range { min, max, .. } => {
            if min > max {
                return Err(SchemaError::BadTicks { node_type: t.id.clone(), min, max });
            }
        },
        Ticks::Fixed(_) => {},
    }
    Ok(TypeResolution { template_ref: eff, template_index: index })
}

/// The first node type with id `type_id`, for a graph entry that names it.
pub fn find_node_type(types: &Vec<String>, type_id: &String) -> (r: Result<usize, SchemaError>)
    ensures
        match r {
            Ok(k) => first_at(string_views(types@), type_id@, k as int),
            Err(SchemaError::UnknownNodeType { node_type }) => !string_views(types@).contains(type_id@)
                && node_type@ == type_id@,
            Err(_) => false,
        },
{
    match find_string(types, type_id) {
        Some(k) => {
            assert forall|j: int| 0 <= j < k implies string_views(types@)[j] != type_id@ by {
                assert(string_views(types@)[j] == types@[j]@);
            }
            Ok(k)
        },
        None => Err(SchemaError::UnknownNodeType { node_type: type_id.clone() }),
    }
}

/// A definition's own value when it has one, else the file's.
pub fn own_or_file<T>(own: Option<T>, file: Option<T>) -> (r: Option<T>)
    ensures
        r == (if own is Some { own } else { file }),
{
    match own {
        Some(v) => Some(v),
        None => file,
    }
}

/// A definition's own list when it is not empty, else the file's.
pub fn own_or_file_list<T>(own: Vec<T>, file: Vec<T>) -> (r: Vec<T>)
    ensures
        r@ == (if own@.len() > 0 || file@.len() == 0 { own@ } else { file@ }),
{
    if own.len() == 0 && file.len() > 0 {
        file
    } else {
        own
    }
}

/// `rhai::Engine`, the script engine, carried through opaque.
#[verifier::external_type_specification]
#[verifier::external_body]
pub struct ExEngine(rhai::Engine);

/// `rhai::AST`, a compiled script, carried through opaque.
#[verifier::external_type_specification]
#[verifier::external_body]
pub struct ExAst(rhai::AST);

/// Whether `rhai::Engine::compile` accepts `script` on `engine`: it lexes
/// and parses the text under the engine's settings, a function of the two.
pub uninterp spec fn script_compiles(engine: rhai::Engine, script: Seq<char>) -> bool;

/// Calls `rhai::Engine::compile` on a script: it succeeds exactly when the
/// script compiles on this engine (`script_compiles`); a failure comes back
/// as the parse error's debug text, which is not stated.
#[verifier::external_body]
fn engine_compile(engine: &rhai::Engine, script: &str) -> (r: Result<rhai::AST, String>)
    ensures
        r is Ok <==> script_compiles(*engine, script@),
{
    engine.compile(script).map_err(|e| format!("{:?}", e))
}

/// Compiles a node type's script, if it has one: no script gives
/// `Ok(None)`; a script that does not compile gives the error naming the
/// node type.
pub fn compile_ast(engine: &rhai::Engine, node_type: &String, func: &Option<String>) -> (r: Result<Option<rhai::AST>, SchemaError>)
    ensures
        func is None ==> r is Ok && r->Ok_0 is None,
        func matches Some(sc) ==> (r is Ok <==> script_compiles(*engine, sc@)),
        func is Some ==> match r {
            Ok(ast) => ast is Some,
            Err(SchemaError::Compile { node_type: n, .. }) => n@ == node_type@,
            Err(_) => false,
        },
{
    match func {
        None => Ok(None),
        Some(script) => match engine_compile(engine, script.as_str()) {
            Ok(ast) => Ok(Some(ast)),
            Err(detail) => Err(SchemaError::Compile { node_type: node_type.clone(), detail }),
        },
    }
}

/// Compiles a graph entry's own script (which replaces its type's for that
/// node only); a script that does not compile gives the error naming the
/// node.
pub fn compile_override(engine: &rhai::Engine, node: &String, script: &String) -> (r: Result<rhai::AST, SchemaError>)
    ensures
        r is Ok <==> script_compiles(*engine, script@),
        match r {
            Ok(_) => true,
            Err(SchemaError::OverrideCompile { node: n, .. }) => n@ == node@,
            Err(_) => false,
        },
{
    match engine_compile(engine, script.as_str()) {
        Ok(ast) => Ok(ast),
        Err(detail) => Err(SchemaError::OverrideCompile { node: node.clone(), detail }),
    }
}

/// Whether a node type passes its checks: its icon exists, the template it
/// ends up naming exists, and its tick range is ordered.
pub open spec fn type_ok(t: TypeCheck, icons: Seq<Seq<char>>, templates: Seq<Seq<char>>) -> bool {
    &&& (t.icon is None || icons.contains(t.icon->0@))
    &&& (effective_ref(t, templates) is None || templates.contains(effective_ref(t, templates)->0))
    &&& ticks_ordered(t.ticks)
}

/// How a node type that passed its checks resolves its template.
pub open spec fn resolved_as(t: TypeCheck, templates: Seq<Seq<char>>, res: TypeResolution) -> bool {
    &&& opt_view(res.template_ref) == effective_ref(t, templates)
    &&& match res.template_index {
        Some(k) => effective_ref(t, templates) is Some && first_at(templates, effective_ref(t, templates)->0, k as int),
        None => effective_ref(t, templates) is None,
    }
}

/// The ids of node types.
pub open spec fn type_ids(types: Seq<TypeCheck>) -> Seq<Seq<char>> {
    types.map_values(|t: TypeCheck| t.id@)
}

/// A graph entry as its checks read it: its name, its node type, and its own
/// script if it has one.
#[derive(Debug)]
pub struct EntryCheck {
    pub name: String,
    pub node_type: String,
    pub func: Option<String>,
}

/// An optional script is absent or compiles on `engine`.
pub open spec fn script_ok(engine: rhai::Engine, func: Option<String>) -> bool {
    match func {
        Some(s) => script_compiles(engine, s@),
        None => true,
    }
}

/// A node type passes when its script compiles and `type_ok` holds.
pub open spec fn type_passes(
    engine: rhai::Engine,
    t: TypeCheck,
    func: Option<String>,
    iv: Seq<Seq<char>>,
    tv: Seq<Seq<char>>,
) -> bool {
    script_ok(engine, func) && type_ok(t, iv, tv)
}

/// A graph entry passes when it names a known node type and its own script
/// compiles.
pub open spec fn entry_passes(engine: rhai::Engine, en: EntryCheck, ids: Seq<Seq<char>>) -> bool {
    ids.contains(en.node_type@) && script_ok(engine, en.func)
}

/// `e` is the error a failing node type gives: its script's compile error
/// first, else the error of `check_node_type`.
pub open spec fn type_error(
    engine: rhai::Engine,
    t: TypeCheck,
    func: Option<String>,
    iv: Seq<Seq<char>>,
    tv: Seq<Seq<char>>,
    e: SchemaError,
) -> bool {
    if !script_ok(engine, func) {
        e matches SchemaError::Compile { node_type, .. } && node_type@ == t.id@
    } else {
        node_type_error(t, iv, tv, e)
    }
}

/// `e` is the error a failing graph entry gives: an unknown node type
/// first, else its own script's compile error.
pub open spec fn entry_error(engine: rhai::Engine, en: EntryCheck, ids: Seq<Seq<char>>, e: SchemaError) -> bool {
    if !ids.contains(en.node_type@) {
        e matches SchemaError::UnknownNodeType { node_type } && node_type@ == en.node_type@
    } else {
        e matches SchemaError::OverrideCompile { node, .. } && node@ == en.name@
    }
}

/// A whole file that passed its checks: per node type, its compiled script
/// and how its template resolves; per graph entry, the index of its node
/// type and its own compiled script.
pub struct CheckedFile {
    pub types: Vec<(Option<rhai::AST>, TypeResolution)>,
    pub entries: Vec<(usize, Option<rhai::AST>)>,
}

/// Checks a whole file in the order it is read: each node type (its script
/// compiles, then `check_node_type`), then each graph entry (its node type
/// exists, then its own script compiles). The file is refused exactly when
/// some node type or graph entry fails, and the error is that of the first
/// failure in that order.
pub fn check_definition(
    engine: &rhai::Engine,
    types: &Vec<TypeCheck>,
    funcs: &Vec<Option<String>>,
    icons: &Vec<String>,
    templates: &Vec<String>,
    entries: &Vec<EntryCheck>,
) -> (r: Result<CheckedFile, SchemaError>)
    requires
        funcs.len() == types.len(),
    ensures
        ({
            let iv = string_views(icons@);
            let tv = string_views(templates@);
            let ids = type_ids(types@);
            r matches Ok(c) ==> {
                &&& c.types.len() == types.len()
                &&& c.entries.len() == entries.len()
                &&& forall|i: int| 0 <= i < types.len() ==> #[trigger] type_ok(types@[i], iv, tv)
                    && resolved_as(types@[i], tv, c.types@[i].1)
                    && (funcs@[i] is None <==> c.types@[i].0 is None)
                &&& forall|j: int| 0 <= j < entries.len() ==> first_at(ids, #[trigger] entries@[j].node_type@, c.entries@[j].0 as int)
                    && (entries@[j].func is None <==> c.entries@[j].1 is None)
            }
        }),
        ({
            let iv = string_views(icons@);
            let tv = string_views(templates@);
            let ids = type_ids(types@);
            let types_pass = forall|i: int|
                0 <= i < types.len() ==> #[trigger] type_passes(*engine, types@[i], funcs@[i], iv, tv);
            &&& r is Ok <==> types_pass && forall|j: int|
                0 <= j < entries.len() ==> #[trigger] entry_passes(*engine, entries@[j], ids)
            &&& r matches Err(e) ==> (exists|i: int|
                0 <= i < types.len() && !#[trigger] type_passes(*engine, types@[i], funcs@[i], iv, tv)
                    && (forall|k: int| 0 <= k < i ==> type_passes(*engine, types@[k], funcs@[k], iv, tv))
                    && type_error(*engine, types@[i], funcs@[i], iv, tv, e)) || (types_pass && exists|j: int|
                0 <= j < entries.len() && !#[trigger] entry_passes(*engine, entries@[j], ids)
                    && (forall|k: int| 0 <= k < j ==> entry_passes(*engine, entries@[k], ids))
                    && entry_error(*engine, entries@[j], ids, e))
        }),
{
    let ghost iv = string_views(icons@);
    let ghost tv = string_views(templates@);
    let mut checked: Vec<(Option<rhai::AST>, TypeResolution)> = Vec::new();
    let mut ids: Vec<String> = Vec::new();
    let mut i: usize = 0;
    while i < types.len()
        invariant
            i <= types.len() == funcs.len(),
            iv == string_views(icons@),
            tv == string_views(templates@),
            checked.len() == i,
            string_views(ids@) == type_ids(types@).take(i as int),
            forall|k: int| 0 <= k < i ==> #[trigger] type_ok(types@[k], iv, tv) && resolved_as(types@[k], tv, checked@[k].1)
                && (funcs@[k] is None <==> checked@[k].0 is None),
            forall|k: int| 0 <= k < i ==> #[trigger] type_passes(*engine, types@[k], funcs@[k], iv, tv),
        decreases types.len() - i,
    {
        let t = &types[i];
        let ast = match compile_ast(engine, &t.id, &funcs[i]) {
            Ok(a) => a,
            Err(e) => {
                assert(!type_passes(*engine, types@[i as int], funcs@[i as int], iv, tv));
                assert(type_error(*engine, types@[i as int], funcs@[i as int], iv, tv, e));
                return Err(e);
            },
        };
        assert(script_ok(*engine, funcs@[i as int]));
        assert(type_ids(types@)[i as int] == t.id@);
        let res = match check_node_type(t, icons, templates) {
            Ok(res) => res,
            Err(e) => {
                assert(!type_ok(types@[i as int], iv, tv));
                assert(!type_passes(*engine, types@[i as int], funcs@[i as int], iv, tv));
                assert(type_error(*engine, types@[i as int], funcs@[i as int], iv, tv, e));
                return Err(e);
            },
        };
        assert(type_ok(types@[i as int], iv, tv));
        let ghost ids0 = string_views(ids@);
        ids.push(t.id.clone());
        assert(string_views(ids@) =~= ids0.push(t.id@));
        assert(type_ids(types@).take(i + 1) =~= type_ids(types@).take(i as int).push(t.id@));
        let ghost c0 = checked@;
        checked.push((ast, res));
        assert forall|k: int| 0 <= k < i + 1 implies #[trigger] type_ok(types@[k], iv, tv) && resolved_as(types@[k], tv, checked@[k].1)
            && (funcs@[k] is None <==> checked@[k].0 is None) by {
            if k < i {
                assert(checked@[k] == c0[k]);
            } else {
                assert(checked@[k] == (ast, res));
                assert(resolved_as(types@[k], tv, res));
            }
        }
        assert(type_passes(*engine, types@[i as int], funcs@[i as int], iv, tv));
        i = i + 1;
    }
    assert(type_ids(types@).take(types.len() as int) =~= type_ids(types@));
    let mut found: Vec<(usize, Option<rhai::AST>)> = Vec::new();
    let mut j: usize = 0;
    while j < entries.len()
        invariant
            j <= entries.len(),
            i == types.len(),
            iv == string_views(icons@),
            tv == string_views(templates@),
            checked.len() == types.len(),
            string_views(ids@) == type_ids(types@),
            forall|k: int| 0 <= k < types.len() ==> #[trigger] type_ok(types@[k], iv, tv) && resolved_as(types@[k], tv, checked@[k].1)
                && (funcs@[k] is None <==> checked@[k].0 is None),
            found.len() == j,
            forall|k: int| 0 <= k < j ==> first_at(type_ids(types@), #[trigger] entries@[k].node_type@, found@[k].0 as int)
                && (entries@[k].func is None <==> found@[k].1 is None),
            forall|k: int| 0 <= k < types.len() ==> #[trigger] type_passes(*engine, types@[k], funcs@[k], iv, tv),
            forall|k: int| 0 <= k < j ==> #[trigger] entry_passes(*engine, entries@[k], type_ids(types@)),
        decreases entries.len() - j,
    {
        let e = &entries[j];
        let k = match find_node_type(&ids, &e.node_type) {
            Ok(k) => k,
            Err(err) => {
                assert(!type_ids(types@).contains(entries@[j as int].node_type@));
                assert(!entry_passes(*engine, entries@[j as int], type_ids(types@)));
                assert(entry_error(*engine, entries@[j as int], type_ids(types@), err));
                return Err(err);
            },
        };
        let ast = match &e.func {
            Some(script) => match compile_override(engine, &e.name, script) {
                Ok(a) => Some(a),
                Err(err) => {
                    assert(!entry_passes(*engine, entries@[j as int], type_ids(types@)));
                    assert(entry_error(*engine, entries@[j as int], type_ids(types@), err));
                    return Err(err);
                },
            },
            None => None,
        };
        proof {
            assert(string_views(ids@)[k as int] == e.node_type@);
            assert(entry_passes(*engine, entries@[j as int], type_ids(types@)));
        }
        let ghost f0 = found@;
        found.push((k, ast));
        assert forall|q: int| 0 <= q < j + 1 implies first_at(type_ids(types@), #[trigger] entries@[q].node_type@, found@[q].0 as int)
            && (entries@[q].func is None <==> found@[q].1 is None) by {
            if q < j {
                assert(found@[q] == f0[q]);
            }
        }
        j = j + 1;
    }
    Ok(CheckedFile { types: checked, entries: found })
}

} // verus!
