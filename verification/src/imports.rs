//! Import resolution for graph files: built-in preset names, the scan for
//! remote import URLs, the merge of an imported definition into a local one
//! (local entries win), and the choice of where each import's text comes
//! from.
use vstd::prelude::*;
use crate::text::{
    chars_of, copy_range, has_prefix, lines, lines_of, same_text, starts_with, string_from,
    string_views, trim, trim_str, trimmed,
};

verus! {

/// A preset library built into the tool.
#[derive(PartialEq, Eq, Structural, Clone, Copy, Debug)]
pub enum BuiltinPreset {
    /// The cyberpunk theme.
    ThemeCyberpunk,
    /// The cloud-cards theme.
    ThemeCloud,
    /// The datacenter (rack) theme.
    ThemeDatacenter,
    /// The minimal (capsule) theme.
    ThemeMinimal,
    /// The synthwave theme.
    ThemeSynthwave,
    /// The nordic theme.
    ThemeNordic,
    /// The dracula theme.
    ThemeDracula,
    /// The matrix theme.
    ThemeMatrix,
    /// The solarized-light theme.
    ThemeSolarizedLight,
    /// AWS compute node types and icons.
    AwsCompute,
    /// AWS networking node types and icons.
    AwsNetworking,
    /// AWS database node types and icons.
    AwsDatabase,
    /// AWS messaging node types and icons.
    AwsMessaging,
    /// Every AWS module at once.
    AwsAll,
    /// The load-balancer node types.
    StdlibLoadBalancer,
    /// The circuit-breaker node type.
    StdlibCircuitBreaker,
    /// The LRU-cache node type.
    StdlibCache,
}

/// The YAML text of the `stdlib:load_balancer` preset.
pub const PRESET_STDLIB_LOAD_BALANCER: &'static str = r##"
graph_defn:
  node_types:
    - id: round_robin_lb
      attrs:
        ticks: 1
      fn: |
        fn on_init() {
          state.idx = 0;
        }
        fn on_timer() {}
        fn on_message(msg) {
          if links.len() == 0 { return; }
          let target = links[state.idx % links.len()];
          state.idx += 1;
          send(target, msg);
        }
    - id: weighted_lb
      attrs:
        ticks: 1
      fn: |
        fn on_init() {
          state.count = 0;
        }
        fn on_timer() {}
        fn on_message(msg) {
          if links.len() == 0 { return; }
          let target = links[state.count % links.len()];
          state.count += 1;
          send(target, msg);
        }
"##;

/// The YAML text of the `stdlib:circuit_breaker` preset.
pub const PRESET_STDLIB_CIRCUIT_BREAKER: &'static str = r##"
graph_defn:
  node_types:
    - id: circuit_breaker
      attrs:
        ticks: 1
      fn: |
        fn on_init() {
          state.status = "CLOSED";
          state.failures = 0;
          state.threshold = 3;
        }
        fn on_timer() {}
        fn on_message(msg) {
          if state.status == "OPEN" {
            log("Circuit breaker OPEN - dropping message");
            return;
          }
          if links.len() > 0 {
            send(links[0], msg);
          }
        }
"##;

/// The YAML text of the `stdlib:cache` preset.
pub const PRESET_STDLIB_CACHE: &'static str = r##"
graph_defn:
  node_types:
    - id: lru_cache
      attrs:
        ticks: 1
      fn: |
        fn on_init() {
          state.store = #{};
        }
        fn on_timer() {}
        fn on_message(msg) {
          if state.store.contains(msg) {
            log("Cache HIT for: " + msg);
          } else {
            log("Cache MISS for: " + msg);
            state.store[msg] = true;
            if links.len() > 0 {
              send(links[0], msg);
            }
          }
        }
"##;

/// The preset a normalized (trimmed, lowercased) name refers to.
pub open spec fn preset_named(s: Seq<char>) -> Option<BuiltinPreset> {
    if s == "plibs:themes/cyberpunk"@ || s == "theme:cyberpunk"@ || s == "themes:cyberpunk"@ || s == "plibs:cyberpunk"@ || s == "cyberpunk"@ || s == "plibs/themes/cyberpunk.yml"@ {
        Some(BuiltinPreset::ThemeCyberpunk)
    } else if s == "plibs:themes/cloud"@ || s == "theme:cloud"@ || s == "themes:cloud"@ || s == "theme:cloud_cards"@ || s == "themes:cloud_cards"@ || s == "plibs:cloud"@ || s == "cloud"@ || s == "cloud_cards"@ || s == "plibs/themes/cloud.yml"@ {
        Some(BuiltinPreset::ThemeCloud)
    } else if s == "plibs:themes/datacenter"@ || s == "theme:datacenter"@ || s == "themes:datacenter"@ || s == "theme:rack"@ || s == "themes:rack"@ || s == "plibs:datacenter"@ || s == "datacenter"@ || s == "rack"@ || s == "plibs/themes/datacenter.yml"@ {
        Some(BuiltinPreset::ThemeDatacenter)
    } else if s == "plibs:themes/minimal"@ || s == "theme:minimal"@ || s == "themes:minimal"@ || s == "theme:capsule"@ || s == "themes:capsule"@ || s == "plibs:minimal"@ || s == "minimal"@ || s == "capsule"@ || s == "plibs/themes/minimal.yml"@ {
        Some(BuiltinPreset::ThemeMinimal)
    } else if s == "plibs:themes/synthwave"@ || s == "theme:synthwave"@ || s == "themes:synthwave"@ || s == "plibs:synthwave"@ || s == "synthwave"@ || s == "plibs/themes/synthwave.yml"@ {
        Some(BuiltinPreset::ThemeSynthwave)
    } else if s == "plibs:themes/nordic"@ || s == "theme:nordic"@ || s == "themes:nordic"@ || s == "plibs:nordic"@ || s == "nordic"@ || s == "nord"@ || s == "plibs/themes/nordic.yml"@ {
        Some(BuiltinPreset::ThemeNordic)
    } else if s == "plibs:themes/dracula"@ || s == "theme:dracula"@ || s == "themes:dracula"@ || s == "plibs:dracula"@ || s == "dracula"@ || s == "plibs/themes/dracula.yml"@ {
        Some(BuiltinPreset::ThemeDracula)
    } else if s == "plibs:themes/matrix"@ || s == "theme:matrix"@ || s == "themes:matrix"@ || s == "plibs:matrix"@ || s == "matrix"@ || s == "plibs/themes/matrix.yml"@ {
        Some(BuiltinPreset::ThemeMatrix)
    } else if s == "plibs:themes/solarized_light"@ || s == "plibs:themes/solarized"@ || s == "theme:solarized_light"@ || s == "themes:solarized_light"@ || s == "theme:solarized"@ || s == "themes:solarized"@ || s == "plibs:solarized_light"@ || s == "plibs:solarized"@ || s == "solarized_light"@ || s == "solarized"@ || s == "plibs/themes/solarized_light.yml"@ {
        Some(BuiltinPreset::ThemeSolarizedLight)
    } else if s == "plibs:aws/compute"@ || s == "aws:compute"@ || s == "plibs/aws/compute.yml"@ {
        Some(BuiltinPreset::AwsCompute)
    } else if s == "plibs:aws/networking"@ || s == "aws:networking"@ || s == "plibs/aws/networking.yml"@ {
        Some(BuiltinPreset::AwsNetworking)
    } else if s == "plibs:aws/database"@ || s == "aws:database"@ || s == "plibs/aws/database.yml"@ {
        Some(BuiltinPreset::AwsDatabase)
    } else if s == "plibs:aws/messaging"@ || s == "aws:messaging"@ || s == "plibs/aws/messaging.yml"@ {
        Some(BuiltinPreset::AwsMessaging)
    } else if s == "plibs:aws/all"@ || s == "plibs:aws"@ || s == "aws:all"@ || s == "aws"@ || s == "plibs/aws/all.yml"@ {
        Some(BuiltinPreset::AwsAll)
    } else if s == "stdlib:load_balancer"@ || s == "load_balancer"@ || s == "stdlib:lb"@ || s == "lb"@ {
        Some(BuiltinPreset::StdlibLoadBalancer)
    } else if s == "stdlib:circuit_breaker"@ || s == "circuit_breaker"@ {
        Some(BuiltinPreset::StdlibCircuitBreaker)
    } else if s == "stdlib:cache"@ || s == "cache"@ || s == "stdlib:lru_cache"@ || s == "lru_cache"@ {
        Some(BuiltinPreset::StdlibCache)
    } else {
        None
    }
}

/// The preset a normalized (trimmed, lowercased) name refers to.
pub fn preset_id(normalized: &str) -> (r: Option<BuiltinPreset>)
    ensures
        r == preset_named(normalized@),
{
    let v = chars_of(normalized);
    if same_text(&v, "plibs:themes/cyberpunk") || same_text(&v, "theme:cyberpunk") || same_text(&v, "themes:cyberpunk") || same_text(&v, "plibs:cyberpunk") || same_text(&v, "cyberpunk") || same_text(&v, "plibs/themes/cyberpunk.yml") {
        Some(BuiltinPreset::ThemeCyberpunk)
    } else if same_text(&v, "plibs:themes/cloud") || same_text(&v, "theme:cloud") || same_text(&v, "themes:cloud") || same_text(&v, "theme:cloud_cards") || same_text(&v, "themes:cloud_cards") || same_text(&v, "plibs:cloud") || same_text(&v, "cloud") || same_text(&v, "cloud_cards") || same_text(&v, "plibs/themes/cloud.yml") {
        Some(BuiltinPreset::ThemeCloud)
    } else if same_text(&v, "plibs:themes/datacenter") || same_text(&v, "theme:datacenter") || same_text(&v, "themes:datacenter") || same_text(&v, "theme:rack") || same_text(&v, "themes:rack") || same_text(&v, "plibs:datacenter") || same_text(&v, "datacenter") || same_text(&v, "rack") || same_text(&v, "plibs/themes/datacenter.yml") {
        Some(BuiltinPreset::ThemeDatacenter)
    } else if same_text(&v, "plibs:themes/minimal") || same_text(&v, "theme:minimal") || same_text(&v, "themes:minimal") || same_text(&v, "theme:capsule") || same_text(&v, "themes:capsule") || same_text(&v, "plibs:minimal") || same_text(&v, "minimal") || same_text(&v, "capsule") || same_text(&v, "plibs/themes/minimal.yml") {
        Some(BuiltinPreset::ThemeMinimal)
    } else if same_text(&v, "plibs:themes/synthwave") || same_text(&v, "theme:synthwave") || same_text(&v, "themes:synthwave") || same_text(&v, "plibs:synthwave") || same_text(&v, "synthwave") || same_text(&v, "plibs/themes/synthwave.yml") {
        Some(BuiltinPreset::ThemeSynthwave)
    } else if same_text(&v, "plibs:themes/nordic") || same_text(&v, "theme:nordic") || same_text(&v, "themes:nordic") || same_text(&v, "plibs:nordic") || same_text(&v, "nordic") || same_text(&v, "nord") || same_text(&v, "plibs/themes/nordic.yml") {
        Some(BuiltinPreset::ThemeNordic)
    } else if same_text(&v, "plibs:themes/dracula") || same_text(&v, "theme:dracula") || same_text(&v, "themes:dracula") || same_text(&v, "plibs:dracula") || same_text(&v, "dracula") || same_text(&v, "plibs/themes/dracula.yml") {
        Some(BuiltinPreset::ThemeDracula)
    } else if same_text(&v, "plibs:themes/matrix") || same_text(&v, "theme:matrix") || same_text(&v, "themes:matrix") || same_text(&v, "plibs:matrix") || same_text(&v, "matrix") || same_text(&v, "plibs/themes/matrix.yml") {
        Some(BuiltinPreset::ThemeMatrix)
    } else if same_text(&v, "plibs:themes/solarized_light") || same_text(&v, "plibs:themes/solarized") || same_text(&v, "theme:solarized_light") || same_text(&v, "themes:solarized_light") || same_text(&v, "theme:solarized") || same_text(&v, "themes:solarized") || same_text(&v, "plibs:solarized_light") || same_text(&v, "plibs:solarized") || same_text(&v, "solarized_light") || same_text(&v, "solarized") || same_text(&v, "plibs/themes/solarized_light.yml") {
        Some(BuiltinPreset::ThemeSolarizedLight)
    } else if same_text(&v, "plibs:aws/compute") || same_text(&v, "aws:compute") || same_text(&v, "plibs/aws/compute.yml") {
        Some(BuiltinPreset::AwsCompute)
    } else if same_text(&v, "plibs:aws/networking") || same_text(&v, "aws:networking") || same_text(&v, "plibs/aws/networking.yml") {
        Some(BuiltinPreset::AwsNetworking)
    } else if same_text(&v, "plibs:aws/database") || same_text(&v, "aws:database") || same_text(&v, "plibs/aws/database.yml") {
        Some(BuiltinPreset::AwsDatabase)
    } else if same_text(&v, "plibs:aws/messaging") || same_text(&v, "aws:messaging") || same_text(&v, "plibs/aws/messaging.yml") {
        Some(BuiltinPreset::AwsMessaging)
    } else if same_text(&v, "plibs:aws/all") || same_text(&v, "plibs:aws") || same_text(&v, "aws:all") || same_text(&v, "aws") || same_text(&v, "plibs/aws/all.yml") {
        Some(BuiltinPreset::AwsAll)
    } else if same_text(&v, "stdlib:load_balancer") || same_text(&v, "load_balancer") || same_text(&v, "stdlib:lb") || same_text(&v, "lb") {
        Some(BuiltinPreset::StdlibLoadBalancer)
    } else if same_text(&v, "stdlib:circuit_breaker") || same_text(&v, "circuit_breaker") {
        Some(BuiltinPreset::StdlibCircuitBreaker)
    } else if same_text(&v, "stdlib:cache") || same_text(&v, "cache") || same_text(&v, "stdlib:lru_cache") || same_text(&v, "lru_cache") {
        Some(BuiltinPreset::StdlibCache)
    } else {
        None
    }
}

/// The YAML file a preset library ships as, below the tool's files; the
/// standard-library presets are built in and have none.
pub open spec fn preset_file(p: BuiltinPreset) -> Option<Seq<char>> {
    match p {
        BuiltinPreset::ThemeCyberpunk => Some("plibs/themes/cyberpunk.yml"@),
        BuiltinPreset::ThemeCloud => Some("plibs/themes/cloud.yml"@),
        BuiltinPreset::ThemeDatacenter => Some("plibs/themes/datacenter.yml"@),
        BuiltinPreset::ThemeMinimal => Some("plibs/themes/minimal.yml"@),
        BuiltinPreset::ThemeSynthwave => Some("plibs/themes/synthwave.yml"@),
        BuiltinPreset::ThemeNordic => Some("plibs/themes/nordic.yml"@),
        BuiltinPreset::ThemeDracula => Some("plibs/themes/dracula.yml"@),
        BuiltinPreset::ThemeMatrix => Some("plibs/themes/matrix.yml"@),
        BuiltinPreset::ThemeSolarizedLight => Some("plibs/themes/solarized_light.yml"@),
        BuiltinPreset::AwsCompute => Some("plibs/aws/compute.yml"@),
        BuiltinPreset::AwsNetworking => Some("plibs/aws/networking.yml"@),
        BuiltinPreset::AwsDatabase => Some("plibs/aws/database.yml"@),
        BuiltinPreset::AwsMessaging => Some("plibs/aws/messaging.yml"@),
        BuiltinPreset::AwsAll => Some("plibs/aws/all.yml"@),
        _ => None,
    }
}

/// Every preset library, in a fixed order.
pub open spec fn all_presets() -> Seq<BuiltinPreset> {
    seq![
        BuiltinPreset::ThemeCyberpunk,
        BuiltinPreset::ThemeCloud,
        BuiltinPreset::ThemeDatacenter,
        BuiltinPreset::ThemeMinimal,
        BuiltinPreset::ThemeSynthwave,
        BuiltinPreset::ThemeNordic,
        BuiltinPreset::ThemeDracula,
        BuiltinPreset::ThemeMatrix,
        BuiltinPreset::ThemeSolarizedLight,
        BuiltinPreset::AwsCompute,
        BuiltinPreset::AwsNetworking,
        BuiltinPreset::AwsDatabase,
        BuiltinPreset::AwsMessaging,
        BuiltinPreset::AwsAll,
        BuiltinPreset::StdlibLoadBalancer,
        BuiltinPreset::StdlibCircuitBreaker,
        BuiltinPreset::StdlibCache,
    ]
}

impl BuiltinPreset {
    /// The YAML file this preset library ships as (see `preset_file`).
    pub fn file(self) -> (r: Option<&'static str>)
        ensures
            match r {
                Some(f) => preset_file(self) == Some(f@),
                None => preset_file(self) is None,
            },
    {
        match self {
            BuiltinPreset::ThemeCyberpunk => Some("plibs/themes/cyberpunk.yml"),
            BuiltinPreset::ThemeCloud => Some("plibs/themes/cloud.yml"),
            BuiltinPreset::ThemeDatacenter => Some("plibs/themes/datacenter.yml"),
            BuiltinPreset::ThemeMinimal => Some("plibs/themes/minimal.yml"),
            BuiltinPreset::ThemeSynthwave => Some("plibs/themes/synthwave.yml"),
            BuiltinPreset::ThemeNordic => Some("plibs/themes/nordic.yml"),
            BuiltinPreset::ThemeDracula => Some("plibs/themes/dracula.yml"),
            BuiltinPreset::ThemeMatrix => Some("plibs/themes/matrix.yml"),
            BuiltinPreset::ThemeSolarizedLight => Some("plibs/themes/solarized_light.yml"),
            BuiltinPreset::AwsCompute => Some("plibs/aws/compute.yml"),
            BuiltinPreset::AwsNetworking => Some("plibs/aws/networking.yml"),
            BuiltinPreset::AwsDatabase => Some("plibs/aws/database.yml"),
            BuiltinPreset::AwsMessaging => Some("plibs/aws/messaging.yml"),
            BuiltinPreset::AwsAll => Some("plibs/aws/all.yml"),
            _ => None,
        }
    }

    /// Every preset library (see `all_presets`).
    pub fn all() -> (r: Vec<BuiltinPreset>)
        ensures
            r@ == all_presets(),
    {
        let r = vec![
            BuiltinPreset::ThemeCyberpunk,
            BuiltinPreset::ThemeCloud,
            BuiltinPreset::ThemeDatacenter,
            BuiltinPreset::ThemeMinimal,
            BuiltinPreset::ThemeSynthwave,
            BuiltinPreset::ThemeNordic,
            BuiltinPreset::ThemeDracula,
            BuiltinPreset::ThemeMatrix,
            BuiltinPreset::ThemeSolarizedLight,
            BuiltinPreset::AwsCompute,
            BuiltinPreset::AwsNetworking,
            BuiltinPreset::AwsDatabase,
            BuiltinPreset::AwsMessaging,
            BuiltinPreset::AwsAll,
            BuiltinPreset::StdlibLoadBalancer,
            BuiltinPreset::StdlibCircuitBreaker,
            BuiltinPreset::StdlibCache,
        ];
        assert(r@ =~= all_presets());
        r
    }
}

/// The YAML texts of the preset libraries a run can draw on: the
/// standard-library presets, which are built in, and the theme and AWS
/// libraries, loaded from their files (`BuiltinPreset::file`).
#[derive(Debug)]
pub struct PresetLibrary {
    entries: Vec<(BuiltinPreset, String)>,
}

/// Library entries as plain values.
pub open spec fn library_view(s: Seq<(BuiltinPreset, String)>) -> Seq<(BuiltinPreset, Seq<char>)> {
    s.map_values(|e: (BuiltinPreset, String)| (e.0, e.1@))
}

/// The text the entries hold for `p` (the first entry for it), if any.
pub open spec fn entry_text(s: Seq<(BuiltinPreset, Seq<char>)>, p: BuiltinPreset) -> Option<Seq<char>>
    decreases s.len(),
{
    if s.len() == 0 {
        None
    } else {
        match entry_text(s.drop_last(), p) {
            Some(t) => Some(t),
            None => if s.last().0 == p {
                Some(s.last().1)
            } else {
                None
            },
        }
    }
}

/// The built-in entries: the standard-library presets' texts.
pub open spec fn builtin_entries() -> Seq<(BuiltinPreset, Seq<char>)> {
    seq![
        (BuiltinPreset::StdlibLoadBalancer, PRESET_STDLIB_LOAD_BALANCER@),
        (BuiltinPreset::StdlibCircuitBreaker, PRESET_STDLIB_CIRCUIT_BREAKER@),
        (BuiltinPreset::StdlibCache, PRESET_STDLIB_CACHE@),
    ]
}

/// `entry_text` of entries with one more at the end.
proof fn lemma_entry_text_push(s: Seq<(BuiltinPreset, Seq<char>)>, e: (BuiltinPreset, Seq<char>), q: BuiltinPreset)
    ensures
        entry_text(s.push(e), q) == (match entry_text(s, q) {
            Some(t) => Some(t),
            None => if e.0 == q {
                Some(e.1)
            } else {
                None
            },
        }),
{
    assert(s.push(e).drop_last() =~= s);
}

impl View for PresetLibrary {
    type V = Seq<(BuiltinPreset, Seq<char>)>;

    closed spec fn view(&self) -> Seq<(BuiltinPreset, Seq<char>)> {
        library_view(self.entries@)
    }
}

impl PresetLibrary {
    /// The text the library holds for `p`, if any.
    pub open spec fn text_of(&self, p: BuiltinPreset) -> Option<Seq<char>> {
        entry_text(self@, p)
    }

    /// A library with the built-in standard-library presets only.
    pub fn builtin() -> (r: PresetLibrary)
        ensures
            r@ == builtin_entries(),
    {
        let entries = vec![
            (BuiltinPreset::StdlibLoadBalancer, PRESET_STDLIB_LOAD_BALANCER.to_owned()),
            (BuiltinPreset::StdlibCircuitBreaker, PRESET_STDLIB_CIRCUIT_BREAKER.to_owned()),
            (BuiltinPreset::StdlibCache, PRESET_STDLIB_CACHE.to_owned()),
        ];
        let r = PresetLibrary { entries };
        assert(r@ =~= builtin_entries());
        r
    }

    /// Adds a preset's text (as read from its file); a preset that already
    /// has a text keeps it.
    pub fn add(&mut self, p: BuiltinPreset, text: String)
        ensures
            final(self)@ == old(self)@.push((p, text@)),
            forall|q: BuiltinPreset| #[trigger] final(self).text_of(q) == (match old(self).text_of(q) {
                Some(t) => Some(t),
                None => if p == q {
                    Some(text@)
                } else {
                    None
                },
            }),
    {
        let ghost old_view = self@;
        self.entries.push((p, text));
        assert(self@ =~= old_view.push((p, text@)));
        assert forall|q: BuiltinPreset| #[trigger] self.text_of(q) == (match entry_text(old_view, q) {
            Some(t) => Some(t),
            None => if p == q {
                Some(text@)
            } else {
                None
            },
        }) by {
            lemma_entry_text_push(old_view, (p, text@), q);
        }
    }

    /// The text the library holds for `p`, if any.
    pub fn text(&self, p: BuiltinPreset) -> (r: Option<&String>)
        ensures
            match r {
                Some(t) => self.text_of(p) == Some(t@),
                None => self.text_of(p) is None,
            },
    {
        let ghost v = self@;
        let mut i: usize = 0;
        assert(v.take(0) =~= Seq::<(BuiltinPreset, Seq<char>)>::empty());
        while i < self.entries.len()
            invariant
                i <= self.entries.len(),
                v == self@,
                v == library_view(self.entries@),
                entry_text(v.take(i as int), p) is None,
            decreases self.entries.len() - i,
        {
            assert(v.take(i + 1).drop_last() =~= v.take(i as int));
            assert(v.take(i + 1).last() == v[i as int]);
            assert(v[i as int] == (self.entries@[i as int].0, self.entries@[i as int].1@));
            if self.entries[i].0 == p {
                assert(entry_text(v.take(i + 1), p) == Some(self.entries@[i as int].1@));
                proof {
                    lemma_entry_text_prefix(v, i + 1, p);
                }
                return Some(&self.entries[i].1);
            }
            i = i + 1;
        }
        assert(v.take(self.entries.len() as int) =~= v);
        None
    }
}

/// A text found in a prefix is the text of the whole.
proof fn lemma_entry_text_prefix(s: Seq<(BuiltinPreset, Seq<char>)>, n: int, p: BuiltinPreset)
    requires
        0 <= n <= s.len(),
        entry_text(s.take(n), p) is Some,
    ensures
        entry_text(s, p) == entry_text(s.take(n), p),
    decreases s.len() - n,
{
    if n < s.len() {
        assert(s.take(n + 1).drop_last() =~= s.take(n));
        lemma_entry_text_prefix(s, n + 1, p);
    } else {
        assert(s.take(n) =~= s);
    }
}

/// The lowercase form of `s` under Unicode's lowercase mapping.
pub uninterp spec fn lowercase(s: Seq<char>) -> Seq<char>;

/// Calls `str::to_lowercase`; its result is named `lowercase` of the
/// argument (Unicode's full lowercase mapping is not spelled out here).
#[verifier::external_body]
fn to_lowercase(s: &str) -> (r: String)
    ensures
        r@ == lowercase(s@),
{
    s.to_lowercase()
}

/// The preset a name refers to once trimmed and lowercased.
pub open spec fn preset_for_name(name: Seq<char>) -> Option<BuiltinPreset> {
    preset_named(lowercase(trim(name)))
}

/// The text `library` holds for the preset a name refers to, if any.
pub open spec fn preset_source_for(library: Seq<(BuiltinPreset, Seq<char>)>, name: Seq<char>) -> Option<Seq<char>> {
    match preset_for_name(name) {
        Some(p) => entry_text(library, p),
        None => None,
    }
}

/// Preset lookup ignores surrounding whitespace, and names that lowercase
/// alike once trimmed find the same text.
pub proof fn lemma_preset_lookup_normalized(library: Seq<(BuiltinPreset, Seq<char>)>, a: Seq<char>, b: Seq<char>)
    ensures
        trim(a) == trim(b) ==> preset_source_for(library, a) == preset_source_for(library, b),
        lowercase(trim(a)) == lowercase(trim(b)) ==> preset_source_for(library, a) == preset_source_for(library, b),
{
}

/// Looks up a built-in preset by name or shorthand (surrounding whitespace
/// and letter case ignored) and gives its YAML text from `library`.
pub fn get_builtin_preset(name: &str, library: &PresetLibrary) -> (r: Option<String>)
    ensures
        opt_view(r) == preset_source_for(library@, name@),
{
    let trimmed = trim_str(name);
    let normalized = to_lowercase(trimmed.as_str());
    match preset_id(normalized.as_str()) {
        Some(p) => match library.text(p) {
            Some(t) => Some(t.clone()),
            None => None,
        },
        None => None,
    }
}

/// A character `trim_matches` strips around an import URL.
pub open spec fn is_quote_or_space(c: char) -> bool {
    c == '\'' || c == '"' || c == ' '
}

/// `s` without leading quote or space characters.
pub open spec fn strip_quotes_start(s: Seq<char>) -> Seq<char>
    decreases s.len(),
{
    if s.len() > 0 && is_quote_or_space(s[0]) {
        strip_quotes_start(s.drop_first())
    } else {
        s
    }
}

/// `s` without trailing quote or space characters.
pub open spec fn strip_quotes_end(s: Seq<char>) -> Seq<char>
    decreases s.len(),
{
    if s.len() > 0 && is_quote_or_space(s.last()) {
        strip_quotes_end(s.drop_last())
    } else {
        s
    }
}

/// `s` without quote or space characters at either end.
pub open spec fn strip_quotes(s: Seq<char>) -> Seq<char> {
    strip_quotes_end(strip_quotes_start(s))
}

/// Whether an import source is a remote `http://` or `https://` URL.
pub open spec fn is_remote(s: Seq<char>) -> bool {
    starts_with(s, "http://"@) || starts_with(s, "https://"@)
}

/// The remote URL a YAML line declares as `from: <url>` or
/// `- from: <url>` (quotes optional), if it declares one.
pub open spec fn line_import_url(line: Seq<char>) -> Option<Seq<char>> {
    let t = trim(line);
    let rest = if starts_with(t, "from:"@) {
        Some(t.skip("from:"@.len() as int))
    } else if starts_with(t, "- from:"@) {
        Some(t.skip("- from:"@.len() as int))
    } else {
        None
    };
    match rest {
        Some(r) => {
            let url = strip_quotes(trim(r));
            if is_remote(url) {
                Some(url)
            } else {
                None
            }
        },
        None => None,
    }
}

/// `urls` with `u` added at the end unless already there.
pub open spec fn add_new(urls: Seq<Seq<char>>, u: Seq<char>) -> Seq<Seq<char>> {
    if urls.contains(u) {
        urls
    } else {
        urls.push(u)
    }
}

/// The remote URLs declared line by line in `ls`, first occurrence first.
pub open spec fn scan_lines(ls: Seq<Seq<char>>) -> Seq<Seq<char>>
    decreases ls.len(),
{
    if ls.len() == 0 {
        Seq::empty()
    } else {
        let prev = scan_lines(ls.drop_last());
        match line_import_url(ls.last()) {
            Some(u) => add_new(prev, u),
            None => prev,
        }
    }
}

/// `urls` with the remote ones among `sources` added, first occurrence first.
pub open spec fn add_remote(urls: Seq<Seq<char>>, sources: Seq<Seq<char>>) -> Seq<Seq<char>>
    decreases sources.len(),
{
    if sources.len() == 0 {
        urls
    } else {
        let prev = add_remote(urls, sources.drop_last());
        if is_remote(sources.last()) {
            add_new(prev, sources.last())
        } else {
            prev
        }
    }
}

/// The remote import URLs of a YAML text: those its lines declare, then
/// those among the parsed import sources, each once.
pub open spec fn import_urls(raw: Seq<char>, parsed: Seq<Seq<char>>) -> Seq<Seq<char>> {
    add_remote(scan_lines(lines(raw)), parsed)
}

/// The bounds of `v[lo..hi]` without quote or space characters at either end.
fn strip_quotes_range(v: &Vec<char>, lo: usize, hi: usize) -> (r: (usize, usize))
    requires
        lo <= hi <= v.len(),
    ensures
        lo <= r.0 <= r.1 <= hi,
        v@.subrange(r.0 as int, r.1 as int) == strip_quotes(v@.subrange(lo as int, hi as int)),
{
    let mut i: usize = lo;
    while i < hi && (v[i] == '\'' || v[i] == '"' || v[i] == ' ')
        invariant
            lo <= i <= hi <= v.len(),
            strip_quotes_start(v@.subrange(lo as int, hi as int)) == strip_quotes_start(
                v@.subrange(i as int, hi as int),
            ),
        decreases hi - i,
    {
        assert(v@.subrange(i as int, hi as int).drop_first() =~= v@.subrange(i + 1, hi as int));
        i = i + 1;
    }
    assert(strip_quotes_start(v@.subrange(i as int, hi as int)) == v@.subrange(i as int, hi as int));
    let mut j: usize = hi;
    while j > i && (v[j - 1] == '\'' || v[j - 1] == '"' || v[j - 1] == ' ')
        invariant
            lo <= i <= j <= hi <= v.len(),
            strip_quotes(v@.subrange(lo as int, hi as int)) == strip_quotes_end(v@.subrange(i as int, j as int)),
        decreases j - i,
    {
        assert(v@.subrange(i as int, j as int).drop_last() =~= v@.subrange(i as int, j - 1));
        j = j - 1;
    }
    (i, j)
}

/// The remote URL one line declares, if any (see `line_import_url`).
fn line_url(line: &Vec<char>) -> (r: Option<Vec<char>>)
    ensures
        match r {
            Some(u) => line_import_url(line@) == Some(u@),
            None => line_import_url(line@) is None,
        },
{
    let t = trimmed(line, 0, line.len());
    assert(line@.subrange(0, line.len() as int) =~= line@);
    let plain = chars_of("from:");
    let dashed = chars_of("- from:");
    let start: usize;
    if has_prefix(&t, "from:") {
        start = plain.len();
    } else if has_prefix(&t, "- from:") {
        start = dashed.len();
    } else {
        return None;
    }
    let after = trimmed(&t, start, t.len());
    assert(t@.subrange(start as int, t.len() as int) =~= t@.skip(start as int));
    let (a, b) = strip_quotes_range(&after, 0, after.len());
    assert(after@.subrange(0, after.len() as int) =~= after@);
    let url = copy_range(&after, a, b);
    if has_prefix(&url, "http://") || has_prefix(&url, "https://") {
        Some(url)
    } else {
        None
    }
}

/// Adds `u` to `urls` unless it is already there.
fn push_new(urls: &mut Vec<String>, u: String)
    ensures
        string_views(final(urls)@) == add_new(string_views(old(urls)@), u@),
{
    let ghost before = string_views(urls@);
    match crate::text::find_string(urls, &u) {
        Some(k) => {
            assert(before[k as int] == u@);
        },
        None => {
            urls.push(u);
            assert(string_views(urls@) =~= before.push(u@));
        },
    }
}

/// Scans raw YAML for remote (`http://`/`https://`) import URLs, without
/// requiring the text to parse: every line that reads `from: <url>` or
/// `- from: <url>`, then the `from` of each import in `parsed_imports`
/// (what a full parse of the file declares, top-level imports first, or
/// nothing when it does not parse). Each URL is listed once, in order of
/// first appearance.
pub fn scan_import_urls(raw_yaml: &str, parsed_imports: &Vec<String>) -> (urls: Vec<String>)
    ensures
        string_views(urls@) == import_urls(raw_yaml@, string_views(parsed_imports@)),
{
    let v = chars_of(raw_yaml);
    let ls = lines_of(&v);
    let ghost lv = crate::text::views(ls@);
    let mut urls: Vec<String> = Vec::new();
    let mut i: usize = 0;
    assert(lv.take(0) =~= Seq::<Seq<char>>::empty());
    assert(string_views(urls@) =~= Seq::<Seq<char>>::empty());
    while i < ls.len()
        invariant
            i <= ls.len(),
            lv == crate::text::views(ls@),
            string_views(urls@) == scan_lines(lv.take(i as int)),
        decreases ls.len() - i,
    {
        assert(lv.take(i + 1).drop_last() =~= lv.take(i as int));
        assert(lv.take(i + 1).last() == ls@[i as int]@);
        match line_url(&ls[i]) {
            Some(u) => {
                push_new(&mut urls, string_from(&u));
            },
            None => {},
        }
        i = i + 1;
    }
    assert(lv.take(ls.len() as int) =~= lv);
    let ghost scanned = string_views(urls@);
    let ghost pv = string_views(parsed_imports@);
    let mut k: usize = 0;
    assert(pv.take(0) =~= Seq::<Seq<char>>::empty());
    while k < parsed_imports.len()
        invariant
            k <= parsed_imports.len(),
            pv == string_views(parsed_imports@),
            string_views(urls@) == add_remote(scanned, pv.take(k as int)),
        decreases parsed_imports.len() - k,
    {
        assert(pv.take(k + 1).drop_last() =~= pv.take(k as int));
        assert(pv.take(k + 1).last() == parsed_imports@[k as int]@);
        let src = chars_of(parsed_imports[k].as_str());
        if has_prefix(&src, "http://") || has_prefix(&src, "https://") {
            push_new(&mut urls, parsed_imports[k].clone());
        }
        k = k + 1;
    }
    assert(pv.take(parsed_imports.len() as int) =~= pv);
    urls
}

/// An entry of an id-keyed list of a graph definition (an icon, a node
/// template, a graph entry, a group); the library reads only its id.
#[derive(Debug)]
pub struct Keyed<P> {
    pub id: String,
    pub payload: P,
}

/// A node type: its id, its script, and the rest of its definition.
#[derive(Debug)]
pub struct TypeDef<P> {
    pub id: String,
    pub func: Option<String>,
    pub payload: P,
}

/// The parts of a graph definition an import merges into: the graph
/// attributes (each `None` while it still has its default value), the
/// icons, node templates, node types, graph entries, layout and groups.
#[derive(Debug)]
pub struct Definitions<A, I, T, N, C, G> {
    pub attrs: Vec<Option<A>>,
    pub icons: Vec<Keyed<I>>,
    pub templates: Vec<Keyed<T>>,
    pub node_types: Vec<TypeDef<N>>,
    pub graph: Vec<Keyed<C>>,
    pub layout: Option<A>,
    pub groups: Vec<Keyed<G>>,
}

/// A keyed list as (id, payload) pairs.
pub open spec fn keyed_view<P>(s: Seq<Keyed<P>>) -> Seq<(Seq<char>, P)> {
    s.map_values(|e: Keyed<P>| (e.id@, e.payload))
}

/// Node types as (id, script, rest) triples.
pub open spec fn types_view<P>(s: Seq<TypeDef<P>>) -> Seq<(Seq<char>, Option<Seq<char>>, P)> {
    s.map_values(|e: TypeDef<P>| (e.id@, opt_view(e.func), e.payload))
}

/// An optional string as an optional character sequence.
pub open spec fn opt_view(o: Option<String>) -> Option<Seq<char>> {
    match o {
        Some(s) => Some(s@),
        None => None,
    }
}

/// Whether some entry of `s` has id `id`.
pub open spec fn has_key<P>(s: Seq<(Seq<char>, P)>, id: Seq<char>) -> bool {
    exists|i: int| 0 <= i < s.len() && #[trigger] s[i].0 == id
}

/// `base` with each entry of `imported` whose id it does not have yet
/// appended, in order.
pub open spec fn merge_keyed<P>(base: Seq<(Seq<char>, P)>, imported: Seq<(Seq<char>, P)>) -> Seq<(Seq<char>, P)>
    decreases imported.len(),
{
    if imported.len() == 0 {
        base
    } else {
        let m = merge_keyed(base, imported.drop_last());
        if has_key(m, imported.last().0) {
            m
        } else {
            m.push(imported.last())
        }
    }
}

/// Each attribute of `base` that still has its default takes the
/// imported one, when that one does not.
pub open spec fn merge_slots<A>(base: Seq<Option<A>>, imported: Seq<Option<A>>) -> Seq<Option<A>> {
    Seq::new(
        base.len(),
        |k: int|
            if k < imported.len() && base[k] is None && imported[k] is Some {
                imported[k]
            } else {
                base[k]
            },
    )
}

/// The id an imported node type gets, or `None` when the import's filter
/// leaves it out: an alias renames it outright when there is no filter or
/// a filter of one id, and prefixes it (`alias_id`) otherwise.
pub open spec fn imported_id(id: Seq<char>, filter: Option<Seq<Seq<char>>>, alias: Option<Seq<char>>) -> Option<Seq<char>> {
    if filter is Some && !filter->0.contains(id) {
        None
    } else {
        match alias {
            Some(al) => if filter is None || filter->0.len() == 1 {
                Some(al)
            } else {
                Some(al + "_"@ + id)
            },
            None => Some(id),
        }
    }
}

/// Whether a node type has no script to speak of.
pub open spec fn is_blank(f: Option<Seq<char>>) -> bool {
    match f {
        Some(s) => trim(s).len() == 0,
        None => true,
    }
}

/// The first index of an entry with id `id`, or -1.
pub open spec fn first_index<P>(s: Seq<(Seq<char>, Option<Seq<char>>, P)>, id: Seq<char>) -> int
    decreases s.len(),
{
    if s.len() == 0 {
        -1
    } else {
        let k = first_index(s.drop_last(), id);
        if k >= 0 {
            k
        } else if s.last().0 == id {
            s.len() - 1
        } else {
            -1
        }
    }
}

/// `types` after merging one imported node type: a type the filter leaves
/// out changes nothing; one whose (possibly renamed) id is already there
/// only lends its script to a type that has none; any other is appended.
pub open spec fn merge_type<P>(
    types: Seq<(Seq<char>, Option<Seq<char>>, P)>,
    nt: (Seq<char>, Option<Seq<char>>, P),
    filter: Option<Seq<Seq<char>>>,
    alias: Option<Seq<char>>,
) -> Seq<(Seq<char>, Option<Seq<char>>, P)> {
    match imported_id(nt.0, filter, alias) {
        None => types,
        Some(id) => {
            let k = first_index(types, id);
            if k >= 0 {
                if is_blank(types[k].1) {
                    types.update(k, (types[k].0, nt.1, types[k].2))
                } else {
                    types
                }
            } else {
                types.push((id, nt.1, nt.2))
            }
        },
    }
}

/// `types` after merging each imported node type in order.
pub open spec fn merge_types<P>(
    types: Seq<(Seq<char>, Option<Seq<char>>, P)>,
    imported: Seq<(Seq<char>, Option<Seq<char>>, P)>,
    filter: Option<Seq<Seq<char>>>,
    alias: Option<Seq<char>>,
) -> Seq<(Seq<char>, Option<Seq<char>>, P)>
    decreases imported.len(),
{
    if imported.len() == 0 {
        types
    } else {
        merge_type(merge_types(types, imported.drop_last(), filter, alias), imported.last(), filter, alias)
    }
}

/// Whether some entry of `v` has id `id`.
fn contains_key<P>(v: &Vec<Keyed<P>>, id: &String) -> (b: bool)
    ensures
        b == has_key(keyed_view(v@), id@),
{
    let ghost kv = keyed_view(v@);
    let mut i: usize = 0;
    while i < v.len()
        invariant
            i <= v.len(),
            kv == keyed_view(v@),
            forall|k: int| 0 <= k < i ==> kv[k].0 != id@,
        decreases v.len() - i,
    {
        assert(kv[i as int] == (v@[i as int].id@, v@[i as int].payload));
        if v[i].id == *id {
            assert(kv[i as int].0 == id@);
            return true;
        }
        i = i + 1;
    }
    assert forall|k: int| 0 <= k < kv.len() implies #[trigger] kv[k].0 != id@ by {}
    false
}

/// Appends the imported entries whose ids `base` does not have yet.
fn merge_keyed_into<P>(base: &mut Vec<Keyed<P>>, imported: Vec<Keyed<P>>)
    ensures
        keyed_view(final(base)@) == merge_keyed(keyed_view(old(base)@), keyed_view(imported@)),
{
    let ghost b0 = keyed_view(base@);
    let ghost iv = keyed_view(imported@);
    let mut rest = imported;
    assert(iv.take(0) =~= Seq::<(Seq<char>, P)>::empty());
    assert(iv.skip(0) =~= iv);
    while rest.len() > 0
        invariant
            rest.len() <= iv.len(),
            keyed_view(rest@) == iv.skip(iv.len() - rest.len()),
            keyed_view(base@) == merge_keyed(b0, iv.take(iv.len() - rest.len())),
        decreases rest.len(),
    {
        let ghost j = iv.len() - rest.len();
        let ghost before = rest@;
        let e = rest.remove(0);
        assert((e.id@, e.payload) == iv[j]) by {
            assert(keyed_view(before)[0] == iv.skip(j)[0]);
        }
        assert(keyed_view(rest@) =~= iv.skip(j + 1)) by {
            assert(rest@ =~= before.subrange(1, before.len() as int));
            assert forall|m: int| 0 <= m < rest.len() implies #[trigger] keyed_view(rest@)[m] == iv.skip(j + 1)[m] by {
                assert(keyed_view(before)[m + 1] == iv.skip(j)[m + 1]);
            }
        }
        assert(iv.take(j + 1).drop_last() =~= iv.take(j));
        assert(iv.take(j + 1).last() == iv[j]);
        if !contains_key(base, &e.id) {
            let ghost pre = keyed_view(base@);
            base.push(e);
            assert(keyed_view(base@) =~= pre.push(iv[j]));
        }
    }
    assert(iv.take(iv.len() as int) =~= iv);
}

/// Fills each attribute `base` still has at its default from `imported`.
fn merge_attrs<A>(base: &mut Vec<Option<A>>, imported: Vec<Option<A>>)
    ensures
        final(base)@ == merge_slots(old(base)@, imported@),
{
    let ghost b0 = base@;
    let ghost i0 = imported@;
    let mut rest = imported;
    let mut k: usize = 0;
    while rest.len() > 0 && k < base.len()
        invariant
            k <= base.len() == b0.len(),
            k + rest.len() == i0.len(),
            rest@ == i0.skip(k as int),
            forall|m: int| 0 <= m < k ==> base@[m] == merge_slots(b0, i0)[m],
            forall|m: int| k <= m < b0.len() ==> base@[m] == b0[m],
        decreases rest.len(),
    {
        let ghost before = rest@;
        let e = rest.remove(0);
        assert(e == i0[k as int]) by {
            assert(before[0] == i0.skip(k as int)[0]);
        }
        assert(rest@ =~= i0.skip(k + 1)) by {
            assert(rest@ =~= before.subrange(1, before.len() as int));
        }
        if base[k].is_none() && e.is_some() {
            base.set(k, e);
        }
        k = k + 1;
    }
    assert(base@ =~= merge_slots(b0, i0));
}

/// Whether a script is absent or only whitespace.
fn blank_func(f: &Option<String>) -> (b: bool)
    ensures
        b == is_blank(opt_view(*f)),
{
    match f {
        Some(s) => trim_str(s.as_str()).as_str().is_empty(),
        None => true,
    }
}

/// The first index of a node type with id `id`, if any.
fn find_type<P>(v: &Vec<TypeDef<P>>, id: &String) -> (r: Option<usize>)
    ensures
        match r {
            Some(k) => k < v.len() && first_index(types_view(v@), id@) == k,
            None => first_index(types_view(v@), id@) == -1,
        },
{
    let ghost tv = types_view(v@);
    let mut i: usize = 0;
    while i < v.len()
        invariant
            i <= v.len(),
            tv == types_view(v@),
            first_index(tv.take(i as int), id@) == -1,
        decreases v.len() - i,
    {
        assert(tv.take(i + 1).drop_last() =~= tv.take(i as int));
        assert(tv.take(i + 1).last() == tv[i as int]);
        if v[i].id == *id {
            assert(first_index(tv.take(i + 1), id@) == i);
            proof {
                lemma_first_index_prefix(tv, i + 1, id@);
            }
            return Some(i);
        }
        i = i + 1;
    }
    assert(tv.take(v.len() as int) =~= tv);
    None
}

/// A first index found in a prefix is the first index in the whole.
proof fn lemma_first_index_prefix<P>(s: Seq<(Seq<char>, Option<Seq<char>>, P)>, n: int, id: Seq<char>)
    requires
        0 <= n <= s.len(),
        first_index(s.take(n), id) >= 0,
    ensures
        first_index(s, id) == first_index(s.take(n), id),
    decreases s.len() - n,
{
    if n < s.len() {
        assert(s.take(n + 1).drop_last() =~= s.take(n));
        lemma_first_index_prefix(s, n + 1, id);
    } else {
        assert(s.take(n) =~= s);
    }
}

/// A first index lies within the sequence and names the id.
proof fn lemma_first_index<P>(s: Seq<(Seq<char>, Option<Seq<char>>, P)>, id: Seq<char>)
    ensures
        -1 <= first_index(s, id) < s.len(),
        first_index(s, id) >= 0 ==> s[first_index(s, id)].0 == id,
        first_index(s, id) == -1 ==> forall|i: int| 0 <= i < s.len() ==> #[trigger] s[i].0 != id,
    decreases s.len(),
{
    if s.len() > 0 {
        lemma_first_index(s.drop_last(), id);
        assert forall|i: int| 0 <= i < s.len() - 1 implies #[trigger] s[i] == s.drop_last()[i] by {}
    }
}

/// The id an imported node type gets (see `imported_id`).
fn imported_type_id(id: &String, filter: Option<&Vec<String>>, alias: Option<&str>) -> (r: Option<String>)
    ensures
        opt_view(r) == imported_id(id@, filter_view(filter), alias_view(alias)),
{
    match filter {
        Some(f) => {
            match crate::text::find_string(f, id) {
                None => {
                    return None;
                },
                Some(k) => {
                    assert(string_views(f@)[k as int] == id@);
                },
            }
        },
        None => {},
    }
    match alias {
        Some(al) => {
            let whole = match filter {
                Some(f) => f.len() == 1,
                None => true,
            };
            if whole {
                Some(al.to_owned())
            } else {
                let prefixed = crate::text::concat(al.to_owned(), "_");
                Some(crate::text::concat(prefixed, id.as_str()))
            }
        },
        None => Some(id.clone()),
    }
}

/// An import's filter as plain values.
pub open spec fn filter_view(filter: Option<&Vec<String>>) -> Option<Seq<Seq<char>>> {
    match filter {
        Some(f) => Some(string_views(f@)),
        None => None,
    }
}

/// An import's alias as plain values.
pub open spec fn alias_view(alias: Option<&str>) -> Option<Seq<char>> {
    match alias {
        Some(a) => Some(a@),
        None => None,
    }
}

/// Merges the imported node types into `types` (see `merge_type`).
fn merge_types_into<P>(types: &mut Vec<TypeDef<P>>, imported: Vec<TypeDef<P>>, filter: Option<&Vec<String>>, alias: Option<&str>)
    ensures
        types_view(final(types)@) == merge_types(types_view(old(types)@), types_view(imported@), filter_view(filter), alias_view(alias)),
{
    let ghost t0 = types_view(types@);
    let ghost iv = types_view(imported@);
    let ghost fv = filter_view(filter);
    let ghost av = alias_view(alias);
    let mut rest = imported;
    assert(iv.take(0) =~= Seq::<(Seq<char>, Option<Seq<char>>, P)>::empty());
    assert(iv.skip(0) =~= iv);
    while rest.len() > 0
        invariant
            rest.len() <= iv.len(),
            fv == filter_view(filter),
            av == alias_view(alias),
            types_view(rest@) == iv.skip(iv.len() - rest.len()),
            types_view(types@) == merge_types(t0, iv.take(iv.len() - rest.len()), fv, av),
        decreases rest.len(),
    {
        let ghost j = iv.len() - rest.len();
        let ghost before = rest@;
        let nt = rest.remove(0);
        assert((nt.id@, opt_view(nt.func), nt.payload) == iv[j]) by {
            assert(types_view(before)[0] == iv.skip(j)[0]);
        }
        assert(types_view(rest@) =~= iv.skip(j + 1)) by {
            assert(rest@ =~= before.subrange(1, before.len() as int));
            assert forall|m: int| 0 <= m < rest.len() implies #[trigger] types_view(rest@)[m] == iv.skip(j + 1)[m] by {
                assert(types_view(before)[m + 1] == iv.skip(j)[m + 1]);
            }
        }
        assert(iv.take(j + 1).drop_last() =~= iv.take(j));
        assert(iv.take(j + 1).last() == iv[j]);
        let ghost cur = types_view(types@);
        match imported_type_id(&nt.id, filter, alias) {
            None => {},
            Some(new_id) => {
                proof {
                    lemma_first_index(cur, new_id@);
                }
                match find_type(types, &new_id) {
                    Some(k) => {
                        if blank_func(&types[k].func) {
                            let existing = types.remove(k);
                            let TypeDef { id: eid, func: _, payload: epay } = existing;
                            types.insert(k, TypeDef { id: eid, func: nt.func, payload: epay });
                            assert(types_view(types@) =~= cur.update(k as int, (cur[k as int].0, iv[j].1, cur[k as int].2)));
                        }
                    },
                    None => {
                        let TypeDef { id: _, func: nfunc, payload: npay } = nt;
                        types.push(TypeDef { id: new_id, func: nfunc, payload: npay });
                        assert(types_view(types@) =~= cur.push((new_id@, iv[j].1, iv[j].2)));
                    },
                }
            },
        }
    }
    assert(iv.take(iv.len() as int) =~= iv);
}

/// The definitions `merge_graph_definitions` leaves: attributes, keyed
/// lists and layout merged with local entries taking precedence.
pub open spec fn merged_view<A, I, T, N, C, G>(
    base: Definitions<A, I, T, N, C, G>,
    imported: Definitions<A, I, T, N, C, G>,
    filter: Option<Seq<Seq<char>>>,
    alias: Option<Seq<char>>,
    out: Definitions<A, I, T, N, C, G>,
) -> bool {
    &&& out.attrs@ == merge_slots(base.attrs@, imported.attrs@)
    &&& keyed_view(out.icons@) == merge_keyed(keyed_view(base.icons@), keyed_view(imported.icons@))
    &&& keyed_view(out.templates@) == merge_keyed(keyed_view(base.templates@), keyed_view(imported.templates@))
    &&& types_view(out.node_types@) == merge_types(types_view(base.node_types@), types_view(imported.node_types@), filter, alias)
    &&& keyed_view(out.graph@) == merge_keyed(keyed_view(base.graph@), keyed_view(imported.graph@))
    &&& out.layout == (if base.layout is None && imported.layout is Some {
        imported.layout
    } else {
        base.layout
    })
    &&& keyed_view(out.groups@) == merge_keyed(keyed_view(base.groups@), keyed_view(imported.groups@))
}

/// Merges an imported definition into a local one; local entries always
/// take precedence: an attribute or the layout is taken only where the
/// local one is still at its default, an icon, template, graph entry or
/// group only under a new id, and a node type (after the import's filter
/// and alias) only under a new id or as the script of a local type that
/// has none.
pub fn merge_graph_definitions<A, I, T, N, C, G>(
    base: &mut Definitions<A, I, T, N, C, G>,
    imported: Definitions<A, I, T, N, C, G>,
    filter: Option<&Vec<String>>,
    alias: Option<&str>,
)
    ensures
        merged_view(*old(base), imported, filter_view(filter), alias_view(alias), *final(base)),
{
    let ghost imp = imported;
    let Definitions { attrs, icons, templates, node_types, graph, layout, groups } = imported;
    merge_attrs(&mut base.attrs, attrs);
    merge_keyed_into(&mut base.icons, icons);
    merge_keyed_into(&mut base.templates, templates);
    merge_types_into(&mut base.node_types, node_types, filter, alias);
    merge_keyed_into(&mut base.graph, graph);
    if base.layout.is_none() && layout.is_some() {
        base.layout = layout;
    }
    merge_keyed_into(&mut base.groups, groups);
}

/// Merging keeps every local entry in place and unchanged, and every
/// imported id ends up present.
/// The entries of `imported` whose id is neither in `base` nor on an
/// earlier entry of `imported`, in order.
pub open spec fn first_new<P>(base: Seq<(Seq<char>, P)>, imported: Seq<(Seq<char>, P)>) -> Seq<(Seq<char>, P)>
    decreases imported.len(),
{
    if imported.len() == 0 {
        Seq::empty()
    } else {
        let f = first_new(base, imported.drop_last());
        let x = imported.last();
        if has_key(base, x.0) || has_key(imported.drop_last(), x.0) {
            f
        } else {
            f.push(x)
        }
    }
}

proof fn lemma_first_new_keys<P>(base: Seq<(Seq<char>, P)>, imported: Seq<(Seq<char>, P)>, id: Seq<char>)
    ensures
        has_key(first_new(base, imported), id) <==> has_key(imported, id) && !has_key(base, id),
    decreases imported.len(),
{
    if imported.len() > 0 {
        let d = imported.drop_last();
        let x = imported.last();
        let f = first_new(base, d);
        lemma_first_new_keys(base, d, id);
        if has_key(imported, id) && !has_key(base, id) {
            let i = choose|i: int| 0 <= i < imported.len() && #[trigger] imported[i].0 == id;
            if i < d.len() {
                assert(d[i].0 == id);
                let w = choose|w: int| 0 <= w < f.len() && #[trigger] f[w].0 == id;
                if !(has_key(base, x.0) || has_key(d, x.0)) {
                    assert(f.push(x)[w].0 == id);
                }
            } else {
                if has_key(d, x.0) {
                    let w = choose|w: int| 0 <= w < f.len() && #[trigger] f[w].0 == id;
                } else {
                    assert(f.push(x)[f.len() as int].0 == id);
                }
            }
        }
        if has_key(first_new(base, imported), id) {
            let w = choose|w: int| 0 <= w < first_new(base, imported).len() && #[trigger] first_new(base, imported)[w].0 == id;
            if w < f.len() {
                assert(first_new(base, imported)[w] == f[w]);
                assert(has_key(f, id));
                let i = choose|i: int| 0 <= i < d.len() && #[trigger] d[i].0 == id;
                assert(imported[i].0 == id);
            } else {
                assert(imported[imported.len() - 1].0 == id);
            }
        }
    }
}

/// The keyed merge in closed form: the local entries, untouched and in
/// order, followed by the imported entries whose id is neither local nor on
/// an earlier imported entry, in order.
pub proof fn lemma_merge_keyed_closed<P>(base: Seq<(Seq<char>, P)>, imported: Seq<(Seq<char>, P)>)
    ensures
        merge_keyed(base, imported) == base + first_new(base, imported),
    decreases imported.len(),
{
    if imported.len() > 0 {
        let d = imported.drop_last();
        let x = imported.last();
        lemma_merge_keyed_closed(base, d);
        let f = first_new(base, d);
        lemma_first_new_keys(base, d, x.0);
        let m = base + f;
        assert(has_key(m, x.0) <==> has_key(base, x.0) || has_key(f, x.0)) by {
            if has_key(m, x.0) {
                let w = choose|w: int| 0 <= w < m.len() && #[trigger] m[w].0 == x.0;
                if w >= base.len() {
                    assert(f[w - base.len()].0 == x.0);
                }
            }
            if has_key(f, x.0) {
                let w = choose|w: int| 0 <= w < f.len() && #[trigger] f[w].0 == x.0;
                assert(m[base.len() + w].0 == x.0);
            }
            if has_key(base, x.0) {
                let w = choose|w: int| 0 <= w < base.len() && #[trigger] base[w].0 == x.0;
                assert(m[w].0 == x.0);
            }
        }
        if !has_key(m, x.0) {
            assert(m.push(x) =~= base + f.push(x));
        }
    }
}

/// Merging a definition, list by list: icons, templates, graph entries and
/// groups are the local ones, untouched and in order, followed by the
/// imported ones with an id not seen before; each attribute slot keeps a
/// local value and is filled from the import only where it was empty; the
/// layout likewise.
pub proof fn lemma_merge_lists_closed<A, I, T, N, C, G>(
    base: Definitions<A, I, T, N, C, G>,
    imported: Definitions<A, I, T, N, C, G>,
    filter: Option<Seq<Seq<char>>>,
    alias: Option<Seq<char>>,
    out: Definitions<A, I, T, N, C, G>,
)
    requires
        merged_view(base, imported, filter, alias, out),
    ensures
        keyed_view(out.icons@) == keyed_view(base.icons@) + first_new(keyed_view(base.icons@), keyed_view(imported.icons@)),
        keyed_view(out.templates@) == keyed_view(base.templates@) + first_new(
            keyed_view(base.templates@),
            keyed_view(imported.templates@),
        ),
        keyed_view(out.graph@) == keyed_view(base.graph@) + first_new(keyed_view(base.graph@), keyed_view(imported.graph@)),
        keyed_view(out.groups@) == keyed_view(base.groups@) + first_new(keyed_view(base.groups@), keyed_view(imported.groups@)),
        out.attrs@.len() == base.attrs@.len(),
        forall|k: int|
            0 <= k < base.attrs@.len() ==> #[trigger] out.attrs@[k] == if base.attrs@[k] is None && k < imported.attrs@.len() {
                imported.attrs@[k]
            } else {
                base.attrs@[k]
            },
        out.layout == if base.layout is None {
            imported.layout
        } else {
            base.layout
        },
{
    lemma_merge_keyed_closed(keyed_view(base.icons@), keyed_view(imported.icons@));
    lemma_merge_keyed_closed(keyed_view(base.templates@), keyed_view(imported.templates@));
    lemma_merge_keyed_closed(keyed_view(base.graph@), keyed_view(imported.graph@));
    lemma_merge_keyed_closed(keyed_view(base.groups@), keyed_view(imported.groups@));
}

proof fn lemma_keyed_kept<P>(base: Seq<(Seq<char>, P)>, imported: Seq<(Seq<char>, P)>)
    ensures
        merge_keyed(base, imported).len() >= base.len(),
        forall|k: int| 0 <= k < base.len() ==> #[trigger] merge_keyed(base, imported)[k] == base[k],
        forall|i: int| 0 <= i < imported.len() ==> has_key(merge_keyed(base, imported), #[trigger] imported[i].0),
    decreases imported.len(),
{
    if imported.len() > 0 {
        let d = imported.drop_last();
        lemma_keyed_kept(base, d);
        let m = merge_keyed(base, d);
        let x = imported.last();
        assert forall|i: int| 0 <= i < imported.len() implies has_key(merge_keyed(base, imported), #[trigger] imported[i].0) by {
            if i < d.len() {
                assert(d[i] == imported[i]);
                assert(has_key(m, d[i].0));
                let w = choose|w: int| 0 <= w < m.len() && #[trigger] m[w].0 == d[i].0;
                if !has_key(m, x.0) {
                    assert(m.push(x)[w] == m[w]);
                }
            } else if !has_key(m, x.0) {
                assert(m.push(x)[m.len() as int].0 == x.0);
            }
        }
    }
}

/// Merging node types keeps every local type in place with its id and
/// definition, and keeps its script unless it had none.
proof fn lemma_types_kept<P>(
    base: Seq<(Seq<char>, Option<Seq<char>>, P)>,
    imported: Seq<(Seq<char>, Option<Seq<char>>, P)>,
    filter: Option<Seq<Seq<char>>>,
    alias: Option<Seq<char>>,
)
    ensures
        merge_types(base, imported, filter, alias).len() >= base.len(),
        forall|k: int| 0 <= k < base.len() ==> {
            let m = #[trigger] merge_types(base, imported, filter, alias)[k];
            &&& m.0 == base[k].0
            &&& m.2 == base[k].2
            &&& !is_blank(base[k].1) ==> m.1 == base[k].1
        },
    decreases imported.len(),
{
    if imported.len() > 0 {
        let d = imported.drop_last();
        lemma_types_kept(base, d, filter, alias);
        let m = merge_types(base, d, filter, alias);
        let nt = imported.last();
        match imported_id(nt.0, filter, alias) {
            None => {},
            Some(id) => {
                lemma_first_index(m, id);
                let k = first_index(m, id);
                assert forall|q: int| 0 <= q < base.len() implies {
                    let r = #[trigger] merge_types(base, imported, filter, alias)[q];
                    &&& r.0 == base[q].0
                    &&& r.2 == base[q].2
                    &&& !is_blank(base[q].1) ==> r.1 == base[q].1
                } by {
                    assert(m[q].0 == base[q].0 && m[q].2 == base[q].2);
                    if k < 0 {
                        assert(m.push((id, nt.1, nt.2))[q] == m[q]);
                    }
                }
            },
        }
    }
}

/// Local entries take precedence over imported ones: after
/// `merge_graph_definitions`, every local attribute and the layout that
/// were set are unchanged, every local icon, template, graph entry and
/// group is still there in place, and every local node type keeps its id,
/// its definition and (unless it had none) its script; every imported
/// icon, template, graph entry and group id is present.
pub proof fn lemma_local_precedence<A, I, T, N, C, G>(
    base: Definitions<A, I, T, N, C, G>,
    imported: Definitions<A, I, T, N, C, G>,
    filter: Option<Seq<Seq<char>>>,
    alias: Option<Seq<char>>,
    out: Definitions<A, I, T, N, C, G>,
)
    requires
        merged_view(base, imported, filter, alias, out),
    ensures
        forall|k: int| 0 <= k < base.attrs@.len() && base.attrs@[k] is Some ==> #[trigger] out.attrs@[k] == base.attrs@[k],
        base.layout is Some ==> out.layout == base.layout,
        forall|k: int| 0 <= k < base.icons@.len() ==> #[trigger] keyed_view(out.icons@)[k] == keyed_view(base.icons@)[k],
        forall|k: int| 0 <= k < base.templates@.len() ==> #[trigger] keyed_view(out.templates@)[k] == keyed_view(base.templates@)[k],
        forall|k: int| 0 <= k < base.graph@.len() ==> #[trigger] keyed_view(out.graph@)[k] == keyed_view(base.graph@)[k],
        forall|k: int| 0 <= k < base.groups@.len() ==> #[trigger] keyed_view(out.groups@)[k] == keyed_view(base.groups@)[k],
        forall|k: int| 0 <= k < base.node_types@.len() ==> {
            let o = #[trigger] types_view(out.node_types@)[k];
            let b = types_view(base.node_types@)[k];
            &&& o.0 == b.0
            &&& o.2 == b.2
            &&& !is_blank(b.1) ==> o.1 == b.1
        },
        forall|i: int| 0 <= i < imported.icons@.len() ==> has_key(keyed_view(out.icons@), #[trigger] keyed_view(imported.icons@)[i].0),
        forall|i: int| 0 <= i < imported.templates@.len() ==> has_key(keyed_view(out.templates@), #[trigger] keyed_view(imported.templates@)[i].0),
        forall|i: int| 0 <= i < imported.graph@.len() ==> has_key(keyed_view(out.graph@), #[trigger] keyed_view(imported.graph@)[i].0),
        forall|i: int| 0 <= i < imported.groups@.len() ==> has_key(keyed_view(out.groups@), #[trigger] keyed_view(imported.groups@)[i].0),
{
    lemma_keyed_kept(keyed_view(base.icons@), keyed_view(imported.icons@));
    lemma_keyed_kept(keyed_view(base.templates@), keyed_view(imported.templates@));
    lemma_keyed_kept(keyed_view(base.graph@), keyed_view(imported.graph@));
    lemma_keyed_kept(keyed_view(base.groups@), keyed_view(imported.groups@));
    lemma_types_kept(types_view(base.node_types@), types_view(imported.node_types@), filter, alias);
}

/// How deep imports may nest (an import of an import of ...) before the
/// chain is taken for a cycle.
pub const MAX_IMPORT_DEPTH: usize = 8;

/// An import of an external or preset YAML module: where from (a remote
/// URL or a preset name such as `theme:cyberpunk` or
/// `stdlib:load_balancer`), optionally which node type ids to take, and
/// optionally an alias for them (the `as` key of the YAML).
#[derive(Debug)]
pub struct ImportDef {
    pub from: String,
    pub import: Option<Vec<String>>,
    pub alias: Option<String>,
}

/// Where an import's YAML text comes from.
#[derive(Debug)]
pub enum ImportSource {
    /// A preset library's text.
    Preset(String),
    /// The fetched text at this index of the external sources.
    External(usize),
}

/// Why a file's imports could not be resolved.
#[derive(Debug)]
pub enum ImportError {
    /// Imports nest deeper than `MAX_IMPORT_DEPTH`, most likely in a cycle.
    TooDeep,
    /// A remote import whose text has not been fetched (yet).
    RemoteNotLoaded(String),
    /// Neither a preset, nor a fetched source, nor a remote URL.
    Unknown(String),
}

/// The text of an import error.
pub open spec fn import_error_text(e: ImportError) -> Seq<char> {
    match e {
        ImportError::TooDeep => "Cyclic or too deeply nested imports"@,
        ImportError::RemoteNotLoaded(from) => "Remote import '"@ + from@ + "' is not yet loaded or failed to fetch"@,
        ImportError::Unknown(from) => "Unknown import or preset '"@ + from@ + "'"@,
    }
}

impl ImportError {
    /// The error's text, as shown to the user.
    pub fn message(&self) -> (r: String)
        ensures
            r@ == import_error_text(*self),
    {
        match self {
            ImportError::TooDeep => "Cyclic or too deeply nested imports".to_owned(),
            ImportError::RemoteNotLoaded(from) => {
                let s = crate::text::concat("Remote import '".to_owned(), from.as_str());
                crate::text::concat(s, "' is not yet loaded or failed to fetch")
            },
            ImportError::Unknown(from) => {
                let s = crate::text::concat("Unknown import or preset '".to_owned(), from.as_str());
                crate::text::concat(s, "'")
            },
        }
    }
}

/// Whether imports at `depth` may still be resolved.
pub fn check_import_depth(depth: usize) -> (r: Result<(), ImportError>)
    ensures
        r is Ok <==> depth <= MAX_IMPORT_DEPTH,
        r is Err ==> r->Err_0 is TooDeep,
{
    if depth > MAX_IMPORT_DEPTH {
        Err(ImportError::TooDeep)
    } else {
        Ok(())
    }
}

/// An import as (from, filter, alias).
pub open spec fn import_view(i: ImportDef) -> (Seq<char>, Option<Seq<Seq<char>>>, Option<Seq<char>>) {
    (
        i.from@,
        match i.import {
            Some(v) => Some(string_views(v@)),
            None => None,
        },
        opt_view(i.alias),
    )
}

/// Imports as plain values.
pub open spec fn imports_view(s: Seq<ImportDef>) -> Seq<(Seq<char>, Option<Seq<Seq<char>>>, Option<Seq<char>>)> {
    s.map_values(|i: ImportDef| import_view(i))
}

/// The theme shorthand as an import list: the file's own `theme`, else its
/// definition's, as a plain import.
pub open spec fn theme_imports(file_theme: Option<Seq<char>>, defn_theme: Option<Seq<char>>) -> Seq<
    (Seq<char>, Option<Seq<Seq<char>>>, Option<Seq<char>>),
> {
    match (if file_theme is Some { file_theme } else { defn_theme }) {
        Some(t) => seq![(t, None, None)],
        None => Seq::empty(),
    }
}

/// The imports a file declares, in the order they are resolved: the theme
/// shorthand, then the top-level imports, then the definition's own.
pub fn collect_imports(
    file_theme: Option<String>,
    defn_theme: Option<String>,
    top: Vec<ImportDef>,
    inner: Vec<ImportDef>,
) -> (all: Vec<ImportDef>)
    ensures
        imports_view(all@) == theme_imports(opt_view(file_theme), opt_view(defn_theme)) + imports_view(top@)
            + imports_view(inner@),
{
    let theme = match file_theme {
        Some(t) => Some(t),
        None => defn_theme,
    };
    let mut all: Vec<ImportDef> = Vec::new();
    match theme {
        Some(t) => {
            all.push(ImportDef { from: t, import: None, alias: None });
        },
        None => {},
    }
    let ghost head = imports_view(all@);
    assert(head =~= theme_imports(opt_view(file_theme), opt_view(defn_theme)));
    let mut top = top;
    let mut inner = inner;
    let ghost tv = imports_view(top@);
    let ghost iv = imports_view(inner@);
    let ghost a0 = all@;
    let ghost t0 = top@;
    all.append(&mut top);
    assert(imports_view(all@) =~= head + tv) by {
        assert(all@ =~= a0 + t0);
    }
    let ghost a1 = all@;
    let ghost i0 = inner@;
    all.append(&mut inner);
    assert(imports_view(all@) =~= head + tv + iv) by {
        assert(all@ =~= a1 + i0);
    }
    all
}

/// The first index of a source fetched for `from`, if any.
pub open spec fn source_index(sources: Seq<(Seq<char>, Seq<char>)>, from: Seq<char>) -> Option<int>
    decreases sources.len(),
{
    if sources.len() == 0 {
        None
    } else {
        match source_index(sources.drop_last(), from) {
            Some(k) => Some(k),
            None => if sources.last().0 == from {
                Some(sources.len() - 1)
            } else {
                None
            },
        }
    }
}

/// External sources as (url, text) pairs.
pub open spec fn sources_view(s: Seq<(String, String)>) -> Seq<(Seq<char>, Seq<char>)> {
    s.map_values(|p: (String, String)| (p.0@, p.1@))
}

/// The first index of a source fetched for `from`, if any.
fn find_source(sources: &Vec<(String, String)>, from: &String) -> (r: Option<usize>)
    ensures
        match r {
            Some(k) => source_index(sources_view(sources@), from@) == Some(k as int),
            None => source_index(sources_view(sources@), from@) is None,
        },
{
    let ghost sv = sources_view(sources@);
    let mut i: usize = 0;
    while i < sources.len()
        invariant
            i <= sources.len(),
            sv == sources_view(sources@),
            source_index(sv.take(i as int), from@) is None,
        decreases sources.len() - i,
    {
        assert(sv.take(i + 1).drop_last() =~= sv.take(i as int));
        assert(sv.take(i + 1).last() == sv[i as int]);
        if sources[i].0 == *from {
            assert(source_index(sv.take(i + 1), from@) == Some(i as int));
            proof {
                lemma_source_index_prefix(sv, i + 1, from@);
            }
            return Some(i);
        }
        i = i + 1;
    }
    assert(sv.take(sources.len() as int) =~= sv);
    None
}

/// An index found in a prefix is the first index in the whole.
proof fn lemma_source_index_prefix(s: Seq<(Seq<char>, Seq<char>)>, n: int, from: Seq<char>)
    requires
        0 <= n <= s.len(),
        source_index(s.take(n), from) is Some,
    ensures
        source_index(s, from) == source_index(s.take(n), from),
    decreases s.len() - n,
{
    if n < s.len() {
        assert(s.take(n + 1).drop_last() =~= s.take(n));
        lemma_source_index_prefix(s, n + 1, from);
    } else {
        assert(s.take(n) =~= s);
    }
}

/// Where an import's text comes from: a preset library first (its text in
/// `library`), then the first fetched source for it; otherwise an error
/// that tells a remote URL that has not been fetched (yet) from an unknown
/// name. `sources` pairs each fetched URL with its text.
pub fn import_source(from: &String, library: &PresetLibrary, sources: &Vec<(String, String)>) -> (r: Result<
    ImportSource,
    ImportError,
>)
    ensures
        match r {
            Ok(ImportSource::Preset(text)) => preset_source_for(library@, from@) == Some(text@),
            Ok(ImportSource::External(k)) => preset_source_for(library@, from@) is None
                && source_index(sources_view(sources@), from@) == Some(k as int),
            Err(ImportError::RemoteNotLoaded(f)) => preset_source_for(library@, from@) is None
                && source_index(sources_view(sources@), from@) is None && is_remote(from@) && f@ == from@,
            Err(ImportError::Unknown(f)) => preset_source_for(library@, from@) is None
                && source_index(sources_view(sources@), from@) is None && !is_remote(from@) && f@ == from@,
            Err(ImportError::TooDeep) => false,
        },
{
    match get_builtin_preset(from.as_str(), library) {
        Some(text) => {
            return Ok(ImportSource::Preset(text));
        },
        None => {},
    }
    match find_source(sources, from) {
        Some(k) => Ok(ImportSource::External(k)),
        None => {
            let v = chars_of(from.as_str());
            if has_prefix(&v, "http://") || has_prefix(&v, "https://") {
                Err(ImportError::RemoteNotLoaded(from.clone()))
            } else {
                Err(ImportError::Unknown(from.clone()))
            }
        },
    }
}

/// Adding a URL unless present keeps a list free of duplicates.
proof fn lemma_add_new_distinct(urls: Seq<Seq<char>>, u: Seq<char>)
    requires
        urls.no_duplicates(),
    ensures
        add_new(urls, u).no_duplicates(),
        add_new(urls, u).contains(u),
{
    if urls.contains(u) {
    } else {
        let r = urls.push(u);
        assert(r[urls.len() as int] == u);
        assert forall|a: int, b: int| 0 <= a < r.len() && 0 <= b < r.len() && a != b implies r[a] != r[b] by {
            if a < urls.len() && b < urls.len() {
                assert(urls[a] != urls[b]);
            } else if a < urls.len() {
                assert(urls.contains(r[a]));
            } else {
                assert(urls.contains(r[b]));
            }
        }
    }
}

/// Each URL declared line by line is listed once.
proof fn lemma_scan_lines_distinct(ls: Seq<Seq<char>>)
    ensures
        scan_lines(ls).no_duplicates(),
    decreases ls.len(),
{
    if ls.len() > 0 {
        lemma_scan_lines_distinct(ls.drop_last());
        match line_import_url(ls.last()) {
            Some(u) => lemma_add_new_distinct(scan_lines(ls.drop_last()), u),
            None => {},
        }
    }
}

/// Adding the remote sources keeps the list free of duplicates.
proof fn lemma_add_remote_distinct(urls: Seq<Seq<char>>, sources: Seq<Seq<char>>)
    requires
        urls.no_duplicates(),
    ensures
        add_remote(urls, sources).no_duplicates(),
    decreases sources.len(),
{
    if sources.len() > 0 {
        lemma_add_remote_distinct(urls, sources.drop_last());
        if is_remote(sources.last()) {
            lemma_add_new_distinct(add_remote(urls, sources.drop_last()), sources.last());
        }
    }
}

/// The scan lists each remote import URL once.
pub proof fn lemma_import_urls_distinct(raw: Seq<char>, parsed: Seq<Seq<char>>)
    ensures
        import_urls(raw, parsed).no_duplicates(),
{
    lemma_scan_lines_distinct(lines(raw));
    lemma_add_remote_distinct(scan_lines(lines(raw)), parsed);
}

/// Merging keeps the ids of a keyed list distinct when they were.
proof fn lemma_merge_keyed_distinct<P>(base: Seq<(Seq<char>, P)>, imported: Seq<(Seq<char>, P)>)
    requires
        forall|a: int, b: int| 0 <= a < base.len() && 0 <= b < base.len() && a != b ==> #[trigger] base[a].0 != #[trigger] base[b].0,
    ensures
        ({
            let m = merge_keyed(base, imported);
            forall|a: int, b: int| 0 <= a < m.len() && 0 <= b < m.len() && a != b ==> #[trigger] m[a].0 != #[trigger] m[b].0
        }),
    decreases imported.len(),
{
    if imported.len() > 0 {
        lemma_merge_keyed_distinct(base, imported.drop_last());
        let m = merge_keyed(base, imported.drop_last());
        let x = imported.last();
        if !has_key(m, x.0) {
            let r = m.push(x);
            assert forall|a: int, b: int| 0 <= a < r.len() && 0 <= b < r.len() && a != b implies #[trigger] r[a].0 != #[trigger] r[b].0 by {
                if a < m.len() && b < m.len() {
                    assert(m[a].0 != m[b].0);
                } else if a < m.len() {
                    assert(r[a] == m[a]);
                    if m[a].0 == x.0 {
                        assert(has_key(m, x.0));
                    }
                } else {
                    assert(r[b] == m[b]);
                    if m[b].0 == x.0 {
                        assert(has_key(m, x.0));
                    }
                }
            }
        }
    }
}

/// Ids stay distinct: when the local icons, templates, graph entries and
/// groups each have distinct ids, so do the merged ones.
pub proof fn lemma_merged_ids_distinct<A, I, T, N, C, G>(
    base: Definitions<A, I, T, N, C, G>,
    imported: Definitions<A, I, T, N, C, G>,
    filter: Option<Seq<Seq<char>>>,
    alias: Option<Seq<char>>,
    out: Definitions<A, I, T, N, C, G>,
)
    requires
        merged_view(base, imported, filter, alias, out),
        keys_distinct(keyed_view(base.icons@)),
        keys_distinct(keyed_view(base.templates@)),
        keys_distinct(keyed_view(base.graph@)),
        keys_distinct(keyed_view(base.groups@)),
    ensures
        keys_distinct(keyed_view(out.icons@)),
        keys_distinct(keyed_view(out.templates@)),
        keys_distinct(keyed_view(out.graph@)),
        keys_distinct(keyed_view(out.groups@)),
{
    lemma_merge_keyed_distinct(keyed_view(base.icons@), keyed_view(imported.icons@));
    lemma_merge_keyed_distinct(keyed_view(base.templates@), keyed_view(imported.templates@));
    lemma_merge_keyed_distinct(keyed_view(base.graph@), keyed_view(imported.graph@));
    lemma_merge_keyed_distinct(keyed_view(base.groups@), keyed_view(imported.groups@));
}

/// No two entries share an id.
pub open spec fn keys_distinct<P>(s: Seq<(Seq<char>, P)>) -> bool {
    forall|a: int, b: int| 0 <= a < s.len() && 0 <= b < s.len() && a != b ==> #[trigger] s[a].0 != #[trigger] s[b].0
}

/// A text attribute as a merge slot: empty while it is exactly its default.
pub open spec fn text_slot(value: Seq<char>, default: Seq<char>) -> Option<Seq<char>> {
    if value == default {
        None
    } else {
        Some(value)
    }
}

/// The text a merge slot stands for.
pub open spec fn slot_text(slot: Option<Seq<char>>, default: Seq<char>) -> Seq<char> {
    match slot {
        Some(v) => v,
        None => default,
    }
}

/// Text attributes with their defaults, as merge slots.
pub open spec fn text_slots(values: Seq<Seq<char>>, defaults: Seq<Seq<char>>) -> Seq<Option<Seq<char>>> {
    Seq::new(values.len(), |k: int| text_slot(values[k], defaults[k]))
}

/// The rule for text attributes, stated over the slots that `attr_slot`
/// makes and `merge_graph_definitions` merges: an attribute keeps its local
/// value, unless that is still its default and the import's value is not,
/// in which case it takes the import's; a slot round-trips to its text.
pub proof fn lemma_attr_merge_rule(base: Seq<Seq<char>>, imported: Seq<Seq<char>>, defaults: Seq<Seq<char>>)
    requires
        base.len() == imported.len() == defaults.len(),
    ensures
        forall|k: int|
            0 <= k < base.len() ==> slot_text(
                #[trigger] merge_slots(text_slots(base, defaults), text_slots(imported, defaults))[k],
                defaults[k],
            ) == if base[k] == defaults[k] && imported[k] != defaults[k] {
                imported[k]
            } else {
                base[k]
            },
        forall|k: int| 0 <= k < base.len() ==> slot_text(#[trigger] text_slots(base, defaults)[k], defaults[k]) == base[k],
{
}

/// A graph attribute as a merge slot: `None` while it is exactly its
/// default text, so that an import may still fill it in.
pub fn attr_slot(value: String, default: &str) -> (r: Option<String>)
    ensures
        r is None <==> value@ == default@,
        r matches Some(v) ==> v@ == value@,
        opt_view(r) == text_slot(value@, default@),
{
    let v = chars_of(value.as_str());
    if same_text(&v, default) {
        None
    } else {
        Some(value)
    }
}

/// Merging one node type keeps every existing id in place and leaves the
/// type's (possibly renamed) id present when the filter admits it.
proof fn lemma_merge_type_ids<P>(
    types: Seq<(Seq<char>, Option<Seq<char>>, P)>,
    nt: (Seq<char>, Option<Seq<char>>, P),
    filter: Option<Seq<Seq<char>>>,
    alias: Option<Seq<char>>,
)
    ensures
        merge_type(types, nt, filter, alias).len() >= types.len(),
        forall|q: int| 0 <= q < types.len() ==> #[trigger] merge_type(types, nt, filter, alias)[q].0 == types[q].0,
        imported_id(nt.0, filter, alias) matches Some(id) ==> exists|q: int|
            0 <= q < merge_type(types, nt, filter, alias).len() && #[trigger] merge_type(types, nt, filter, alias)[q].0 == id,
{
    match imported_id(nt.0, filter, alias) {
        None => {},
        Some(id) => {
            lemma_first_index(types, id);
            let k = first_index(types, id);
            let r = merge_type(types, nt, filter, alias);
            if k >= 0 {
                assert(r[k].0 == id);
            } else {
                assert(r[types.len() as int].0 == id);
            }
        },
    }
}

/// The node-type merge in closed form: the local types keep their ids in
/// order and their definitions, and a local script changes only where it
/// was blank, and then to the script of an admitted import with that id;
/// every imported type the filter admits is present under its (possibly
/// aliased) id afterwards; and each type after the local ones is an
/// admitted import, under its new id and with its definition.
pub proof fn lemma_merge_types_closed<P>(
    base: Seq<(Seq<char>, Option<Seq<char>>, P)>,
    imported: Seq<(Seq<char>, Option<Seq<char>>, P)>,
    filter: Option<Seq<Seq<char>>>,
    alias: Option<Seq<char>>,
)
    ensures
        merge_types(base, imported, filter, alias).len() >= base.len(),
        forall|q: int| 0 <= q < base.len() ==> #[trigger] merge_types(base, imported, filter, alias)[q].0 == base[q].0,
        forall|i: int| 0 <= i < imported.len() && #[trigger] imported_id(imported[i].0, filter, alias) is Some ==> exists|q: int|
            0 <= q < merge_types(base, imported, filter, alias).len() && merge_types(base, imported, filter, alias)[q].0
                == imported_id(imported[i].0, filter, alias)->0,
        forall|q: int|
            0 <= q < base.len() ==> {
                let o = #[trigger] merge_types(base, imported, filter, alias)[q];
                &&& o.2 == base[q].2
                &&& o.1 == base[q].1 || (is_blank(base[q].1) && exists|i: int|
                    0 <= i < imported.len() && #[trigger] imported_id(imported[i].0, filter, alias) == Some(base[q].0)
                        && o.1 == imported[i].1)
            },
        forall|q: int|
            #![trigger merge_types(base, imported, filter, alias)[q]]
            base.len() <= q < merge_types(base, imported, filter, alias).len() ==> exists|i: int|
                0 <= i < imported.len() && #[trigger] imported_id(imported[i].0, filter, alias) == Some(
                    merge_types(base, imported, filter, alias)[q].0,
                ) && merge_types(base, imported, filter, alias)[q].2 == imported[i].2,
    decreases imported.len(),
{
    if imported.len() > 0 {
        let d = imported.drop_last();
        lemma_merge_types_closed(base, d, filter, alias);
        let m = merge_types(base, d, filter, alias);
        let r = merge_types(base, imported, filter, alias);
        lemma_merge_type_ids(m, imported.last(), filter, alias);
        assert(r == merge_type(m, imported.last(), filter, alias));
        assert forall|q: int| 0 <= q < base.len() implies #[trigger] r[q].0 == base[q].0 by {
            assert(m[q].0 == base[q].0);
        }
        assert forall|i: int| 0 <= i < imported.len() && #[trigger] imported_id(imported[i].0, filter, alias) is Some implies exists|q: int|
            0 <= q < r.len() && r[q].0 == imported_id(imported[i].0, filter, alias)->0 by {
            if i < d.len() {
                assert(d[i] == imported[i]);
                assert(imported_id(d[i].0, filter, alias) is Some);
                let q = choose|q: int| 0 <= q < m.len() && m[q].0 == imported_id(d[i].0, filter, alias)->0;
                assert(r[q].0 == m[q].0);
            } else {
                assert(imported[i] == imported.last());
                let q = choose|q: int| 0 <= q < r.len() && #[trigger] r[q].0 == imported_id(imported.last().0, filter, alias)->0;
                assert(r[q].0 == imported_id(imported[i].0, filter, alias)->0);
            }
        }
        let x = imported.last();
        let last = imported.len() - 1;
        assert(imported[last] == x);
        assert forall|q: int| 0 <= q < base.len() implies {
            let o = #[trigger] r[q];
            &&& o.2 == base[q].2
            &&& o.1 == base[q].1 || (is_blank(base[q].1) && exists|i: int|
                0 <= i < imported.len() && #[trigger] imported_id(imported[i].0, filter, alias) == Some(base[q].0)
                    && o.1 == imported[i].1)
        } by {
            assert(m[q].0 == base[q].0);
            if r[q] != m[q] {
                let id = imported_id(x.0, filter, alias)->0;
                lemma_first_index(m, id);
                assert(first_index(m, id) == q);
                assert(is_blank(m[q].1));
                assert(imported_id(imported[last].0, filter, alias) == Some(base[q].0));
            } else if r[q].1 != base[q].1 {
                let i = choose|i: int|
                    0 <= i < d.len() && #[trigger] imported_id(d[i].0, filter, alias) == Some(base[q].0) && m[q].1
                        == d[i].1;
                assert(imported[i] == d[i]);
                assert(imported_id(imported[i].0, filter, alias) == Some(base[q].0));
            }
        }
        assert forall|q: int| #![trigger r[q]] base.len() <= q < r.len() implies exists|i: int|
            0 <= i < imported.len() && #[trigger] imported_id(imported[i].0, filter, alias) == Some(r[q].0) && r[q].2
                == imported[i].2 by {
            if q < m.len() {
                let i = choose|i: int|
                    0 <= i < d.len() && #[trigger] imported_id(d[i].0, filter, alias) == Some(m[q].0) && m[q].2
                        == d[i].2;
                assert(imported[i] == d[i]);
                if r[q] != m[q] {
                    let id = imported_id(x.0, filter, alias)->0;
                    lemma_first_index(m, id);
                }
                assert(r[q].0 == m[q].0 && r[q].2 == m[q].2);
                assert(imported_id(imported[i].0, filter, alias) == Some(r[q].0));
            } else {
                let id = imported_id(x.0, filter, alias)->0;
                lemma_first_index(m, id);
                assert(r == m.push((id, x.1, x.2)));
                assert(imported_id(imported[last].0, filter, alias) == Some(r[q].0));
            }
        }
    }
}

/// The ids of node types, in order.
pub open spec fn ids_of<P>(s: Seq<(Seq<char>, Option<Seq<char>>, P)>) -> Seq<Seq<char>> {
    s.map_values(|e: (Seq<char>, Option<Seq<char>>, P)| e.0)
}

/// The ids the admitted imported node types add: each admitted id that is
/// neither a local id nor one an earlier admitted type added, in order.
pub open spec fn new_type_ids<P>(
    base: Seq<(Seq<char>, Option<Seq<char>>, P)>,
    imported: Seq<(Seq<char>, Option<Seq<char>>, P)>,
    filter: Option<Seq<Seq<char>>>,
    alias: Option<Seq<char>>,
) -> Seq<Seq<char>>
    decreases imported.len(),
{
    if imported.len() == 0 {
        Seq::empty()
    } else {
        let f = new_type_ids(base, imported.drop_last(), filter, alias);
        match imported_id(imported.last().0, filter, alias) {
            None => f,
            Some(id) => if ids_of(base).contains(id) || f.contains(id) {
                f
            } else {
                f.push(id)
            },
        }
    }
}

/// New node types are appended in order: after the local types come
/// exactly the ids `new_type_ids` lists, in that order.
pub proof fn lemma_merge_types_appended<P>(
    base: Seq<(Seq<char>, Option<Seq<char>>, P)>,
    imported: Seq<(Seq<char>, Option<Seq<char>>, P)>,
    filter: Option<Seq<Seq<char>>>,
    alias: Option<Seq<char>>,
)
    ensures
        merge_types(base, imported, filter, alias).len() == base.len() + new_type_ids(base, imported, filter, alias).len(),
        forall|k: int|
            0 <= k < new_type_ids(base, imported, filter, alias).len() ==> #[trigger] merge_types(
                base,
                imported,
                filter,
                alias,
            )[base.len() + k].0 == new_type_ids(base, imported, filter, alias)[k],
    decreases imported.len(),
{
    if imported.len() > 0 {
        let d = imported.drop_last();
        let x = imported.last();
        lemma_merge_types_appended(base, d, filter, alias);
        lemma_merge_types_closed(base, d, filter, alias);
        let m = merge_types(base, d, filter, alias);
        let f = new_type_ids(base, d, filter, alias);
        let r = merge_types(base, imported, filter, alias);
        assert(r == merge_type(m, x, filter, alias));
        if let Some(id) = imported_id(x.0, filter, alias) {
            lemma_first_index(m, id);
            let k = first_index(m, id);
            let in_old = ids_of(base).contains(id) || f.contains(id);
            if k >= 0 {
                assert(in_old) by {
                    if k < base.len() {
                        assert(ids_of(base)[k] == id);
                    } else {
                        assert(m[base.len() + (k - base.len())].0 == f[k - base.len()]);
                        assert(f[k - base.len()] == id);
                    }
                }
                assert forall|j: int| 0 <= j < f.len() implies #[trigger] r[base.len() + j].0 == f[j] by {
                    assert(m[base.len() + j].0 == f[j]);
                }
            } else {
                assert(!in_old) by {
                    if ids_of(base).contains(id) {
                        let q = choose|q: int| 0 <= q < ids_of(base).len() && ids_of(base)[q] == id;
                        assert(m[q].0 == base[q].0);
                    }
                    if f.contains(id) {
                        let q = choose|q: int| 0 <= q < f.len() && f[q] == id;
                        assert(m[base.len() + q].0 == f[q]);
                    }
                }
                assert(r == m.push((id, x.1, x.2)));
                assert forall|j: int| 0 <= j < f.len() + 1 implies #[trigger] r[base.len() + j].0 == f.push(id)[j] by {
                    if j < f.len() {
                        assert(m[base.len() + j].0 == f[j]);
                    }
                }
            }
        }
    }
}

} // verus!
