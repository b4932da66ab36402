//! Keeping only settings the user actually chose.
//!
//! The IntelliJ platform writes nothing for a component whose state equals
//! its default, so a live `options/*.xml` is close to a diff against defaults
//! already. What remains is residue of three kinds, each removed by a
//! declarative rule rather than bespoke code:
//!
//!   * components that serialize a whole map, including untouched entries;
//!   * values the IDE set for itself rather than for the user;
//!   * components that persist only a schema version and no settings.

use vstd::prelude::*;

use crate::config::XmlOmitRule;
use crate::glob::{glob_hit, glob_matches};
use crate::settings::defaults::ProductDefaults;
use crate::strmap::{lemma_is_sorted_key_list, lemma_lookup, lemma_sorted_unique, map_of, sorted_key_list, sorted_strict};
use crate::text::{concat, lemma_seq_lt_transitive, opt_view, seq_lt, str_eq, views};
use crate::xml::dom::{lemma_view_children, lemma_view_from_parts, Element, ElementView};
use crate::xml::project::{key_of, leaf_removed, project, projection_of, prune_empty, pruned, remove_leaf, sugar, sugared};

verus! {

/// What a rule removes: elements named `element`, inside the component
/// `component` when one is given, whose `name` attribute is `option` when
/// one is given, and otherwise whose `attribute` equals `equals`.
pub struct Target {
    pub component: Option<Seq<char>>,
    pub element: Seq<char>,
    pub attribute: Option<Seq<char>>,
    pub option: Option<Seq<char>>,
    pub equals: Seq<char>,
}

/// The target of an omit rule.
pub open spec fn target_of(r: XmlOmitRule) -> Target {
    Target {
        component: opt_view(r.component),
        element: r.element@,
        attribute: opt_view(r.attribute),
        option: opt_view(r.option),
        equals: r.equals@,
    }
}

/// The value of attribute `key` on `e`.
pub open spec fn attr_of(e: ElementView, key: Seq<char>) -> Option<Seq<char>> {
    if map_of(e.attributes).contains_key(key) {
        Some(map_of(e.attributes)[key])
    } else {
        None
    }
}

/// Whether a rule removes `child`, found inside the component `scope`.
pub open spec fn hits(child: ElementView, scope: Option<Seq<char>>, t: Target) -> bool {
    &&& child.name == t.element
    &&& (t.component matches Some(wanted) ==> scope == Some(wanted))
    &&& match t.option {
        Some(name) => attr_of(child, "name"@) == Some(name),
        None => match t.attribute {
            Some(a) => attr_of(child, a) == Some(t.equals),
            None => false,
        },
    }
}

/// The component scope inside `e`: a `<component name=...>` establishes the
/// scope rules are written against.
pub open spec fn scope_of(e: ElementView, outer: Option<Seq<char>>) -> Option<Seq<char>> {
    if e.name == "component"@ {
        attr_of(e, "name"@)
    } else {
        outer
    }
}

/// A readable address for an element, used only in reports: its key value,
/// or its tag, below the parent's address.
pub open spec fn describe_spec(parent: Seq<char>, e: ElementView) -> Seq<char> {
    let own = match key_of(e) {
        Some(pair) => pair.1,
        None => e.name,
    };
    if parent.len() == 0 {
        own
    } else {
        parent + "/"@ + own
    }
}

/// The addresses of the first `n` children of `e` that the rule removes.
pub open spec fn direct_hits(e: ElementView, n: nat, scope: Option<Seq<char>>, path: Seq<char>, t: Target) -> Seq<
    Seq<char>,
>
    decreases n,
{
    if n == 0 || n > e.children.len() {
        Seq::empty()
    } else {
        let rest = direct_hits(e, (n - 1) as nat, scope, path, t);
        let c = e.children[n - 1];
        if hits(c, scope, t) {
            rest.push(describe_spec(path, c))
        } else {
            rest
        }
    }
}

/// `e` with the rule applied throughout, and the addresses of what went: the
/// children it removes first, then what goes below each remaining child.
pub open spec fn applied(e: ElementView, outer: Option<Seq<char>>, path: Seq<char>, t: Target) -> (ElementView, Seq<Seq<char>>)
    decreases e, 1nat,
{
    let scope = scope_of(e, outer);
    let kids = applied_children(e, e.children.len(), scope, path, t);
    (ElementView { children: kids.0, ..e }, direct_hits(e, e.children.len(), scope, path, t) + kids.1)
}

/// The first `n` children of `e` that the rule keeps, each with the rule
/// applied below it, and what went below them.
pub open spec fn applied_children(e: ElementView, n: nat, scope: Option<Seq<char>>, path: Seq<char>, t: Target) -> (
    Seq<ElementView>,
    Seq<Seq<char>>,
)
    decreases e, 0nat, n,
{
    if n == 0 || n > e.children.len() {
        (Seq::empty(), Seq::empty())
    } else {
        let rest = applied_children(e, (n - 1) as nat, scope, path, t);
        let c = e.children[n - 1];
        if hits(c, scope, t) {
            rest
        } else {
            let below = applied(c, scope, describe_spec(path, c), t);
            (rest.0.push(below.0), rest.1 + below.1)
        }
    }
}

fn attribute(element: &Element, key: &str) -> (r: Option<String>)
    ensures
        opt_view(r) == attr_of(element@, key@),
{
    match element.attributes.get(key) {
        Some(v) => Some(v.clone()),
        None => None,
    }
}

fn same_opt(a: &Option<String>, b: &Option<String>) -> (r: bool)
    ensures
        r == (opt_view(*a) == opt_view(*b)),
{
    match (a, b) {
        (Some(x), Some(y)) => str_eq(x.as_str(), y.as_str()),
        (None, None) => true,
        _ => false,
    }
}

/// True when `element` is one the rule targets, given the component it sits in.
fn rule_matches(element: &Element, scope: &Option<String>, rule: &XmlOmitRule) -> (b: bool)
    ensures
        b == hits(element@, opt_view(*scope), target_of(*rule)),
{
    if !str_eq(element.name.as_str(), rule.element.as_str()) {
        return false;
    }
    match &rule.component {
        Some(wanted) => {
            let w = Some(wanted.clone());
            if !same_opt(scope, &w) {
                return false;
            }
        },
        None => {},
    }
    match &rule.option {
        Some(name) => {
            let found = attribute(element, "name");
            let w = Some(name.clone());
            return same_opt(&found, &w);
        },
        None => {},
    }
    match &rule.attribute {
        Some(a) => {
            let found = attribute(element, a.as_str());
            let w = Some(rule.equals.clone());
            same_opt(&found, &w)
        },
        None => false,
    }
}

/// A readable address for an element, used only in reports.
fn describe(parent: &str, element: &Element) -> (r: String)
    ensures
        r@ == describe_spec(parent@, element@),
{
    let own = match element.key_attribute() {
        Some((_, value)) => value,
        None => element.name.clone(),
    };
    if parent.is_empty() {
        own
    } else {
        let mut r = concat(parent, "/");
        r.append(own.as_str());
        r
    }
}

fn apply_owned(element: Element, outer: &Option<String>, path: &str, rule: &XmlOmitRule) -> (r: (Element, Vec<String>))
    ensures
        r.0@ == applied(element@, opt_view(*outer), path@, target_of(*rule)).0,
        crate::text::views(r.1@) == applied(element@, opt_view(*outer), path@, target_of(*rule)).1,
    decreases element,
{
    proof {
        lemma_view_children(element);
    }
    let ghost e = element@;
    let ghost t = target_of(*rule);
    let scope: Option<String> = if str_eq(element.name.as_str(), "component") {
        attribute(&element, "name")
    } else {
        crate::text::opt_clone(outer)
    };
    let ghost sc = opt_view(scope);
    proof {
        assert(sc == scope_of(e, opt_view(*outer)));
    }
    let mut paths: Vec<String> = Vec::new();
    let n = element.children.len();
    let mut i: usize = 0;
    while i < n
        invariant
            i <= n,
            n == element.children@.len(),
            e == element@,
            e.children.len() == n,
            forall|j: int| 0 <= j < n ==> #[trigger] e.children[j] == element.children@[j]@,
            sc == opt_view(scope),
            t == target_of(*rule),
            crate::text::views(paths@) == direct_hits(e, i as nat, sc, path@, t),
        decreases n - i,
    {
        let child = &element.children[i];
        if rule_matches(child, &scope, rule) {
            let d = describe(path, child);
            let ghost prev = paths@;
            paths.push(d);
            proof {
                assert(crate::text::views(paths@) =~= crate::text::views(prev).push(d@));
            }
        }
        i = i + 1;
    }
    let Element { name, attributes, children, text } = element;
    let ghost all = children@;
    let mut remaining = children;
    let mut kept: Vec<Element> = Vec::new();
    let mut nested: Vec<String> = Vec::new();
    let mut k: usize = 0;
    while remaining.len() > 0
        invariant
            k <= n,
            n == all.len(),
            e.children.len() == n,
            remaining@ == all.skip(k as int),
            all == element.children@,
            e == element@,
            forall|j: int| 0 <= j < all.len() ==> #[trigger] all[j]@ == e.children[j],
            sc == opt_view(scope),
            t == target_of(*rule),
            kept@.len() == applied_children(e, k as nat, sc, path@, t).0.len(),
            forall|j: int| 0 <= j < kept@.len() ==> #[trigger] kept@[j]@ == applied_children(e, k as nat, sc, path@, t).0[j],
            crate::text::views(nested@) == applied_children(e, k as nat, sc, path@, t).1,
        decreases remaining@.len(),
    {
        proof {
            assert(remaining@.len() == all.len() - k);
        }
        let child = remaining.remove(0);
        proof {
            assert(child == all[k as int]);
            assert(remaining@ =~= all.skip(k + 1));
            assert(decreases_to!(element => element.children));
            assert(decreases_to!(element.children => element.children@));
            assert(decreases_to!(element.children@ => element.children@[k as int]));
        }
        let ghost before = applied_children(e, k as nat, sc, path@, t);
        let ghost kept_before = kept@;
        proof {
            assert(child@ == e.children[k as int]);
        }
        if !rule_matches(&child, &scope, rule) {
            let d = describe(path, &child);
            let (c, below) = apply_owned(child, &scope, d.as_str(), rule);
            kept.push(c);
            crate::text::extend_strings(&mut nested, below.as_slice());
            proof {
                let after = applied_children(e, (k + 1) as nat, sc, path@, t);
                assert(after.0 == before.0.push(c@));
                assert forall|j: int| 0 <= j < kept@.len() implies #[trigger] kept@[j]@ == after.0[j] by {
                    if j < kept_before.len() {
                        assert(kept@[j] == kept_before[j]);
                    }
                }
            }
        } else {
            proof {
                assert(applied_children(e, (k + 1) as nat, sc, path@, t) == before);
            }
        }
        k = k + 1;
    }
    proof {
        assert(all.skip(k as int).len() == 0);
    }
    let ghost kids = applied_children(e, n as nat, sc, path@, t);
    let ghost prev_paths = paths@;
    crate::text::extend_strings(&mut paths, nested.as_slice());
    let r = Element { name, attributes, children: kept, text };
    proof {
        lemma_view_from_parts(r, e.name, e.attributes, kids.0, e.text);
    }
    (r, paths)
}


/// A rule as it is applied: the files it covers, what it removes, and the
/// reason reported for each removal.
pub struct OmitSpec {
    pub file: Seq<char>,
    pub target: Target,
    pub reason: Seq<char>,
}

/// One built-in rule.
pub open spec fn builtin(file: Seq<char>, component: Seq<char>, element: Seq<char>, attribute: Seq<char>, equals: Seq<char>, reason: Seq<char>) -> OmitSpec {
    OmitSpec {
        file,
        target: Target { component: Some(component), element, attribute: Some(attribute), option: None, equals },
        reason,
    }
}

/// Values written by the IDE for its own purposes. Registry keys record where
/// they came from; anything not attributable to the user is not a setting
/// worth carrying between machines.
pub open spec fn builtin_rules() -> Seq<OmitSpec> {
    seq![
        builtin("options/ide.general.xml"@, "Registry"@, "entry"@, "source"@, "SYSTEM"@, "registry key set by the IDE, not the user"@),
        builtin("options/ide.general.xml"@, "Registry"@, "entry"@, "source"@, "MANAGER"@, "registry key managed centrally, not by the user"@),
        builtin("options/ide-features-trainer.xml"@, "LessonStateBase"@, "entry"@, "value"@, "NOT_PASSED"@, "tutorial never started"@),
        OmitSpec {
            file: "options/*.xml"@,
            target: Target { component: None, element: "option"@, attribute: Some("name"@), option: None, equals: "MIGRATE_OLD_SETTINGS"@ },
            reason: "one-shot settings migration flag"@,
        },
        builtin("options/other.xml"@, "LangManager"@, "entry"@, "key"@, "JAVA"@, "per-installation language state"@),
    ]
}

/// A configured `[[xml.omit]]` rule as it is applied.
pub open spec fn user_rule(r: XmlOmitRule) -> OmitSpec {
    OmitSpec { file: r.file@, target: target_of(r), reason: "excluded by "@ + r.file@ }
}

/// The rules applied to a document, in order: the built-in ones when enabled,
/// then the configured ones.
pub open spec fn rules_in_force(rules: Seq<XmlOmitRule>, use_builtins: bool) -> Seq<OmitSpec> {
    (if use_builtins {
        builtin_rules()
    } else {
        Seq::empty()
    }) + rules.map_values(|r: XmlOmitRule| user_rule(r))
}

/// One rule applied to a document and the removals so far, when the rule
/// covers the document's file.
pub open spec fn rule_step(state: (ElementView, Seq<(Seq<char>, Seq<char>)>), relative: Seq<char>, r: OmitSpec) -> (
    ElementView,
    Seq<(Seq<char>, Seq<char>)>,
) {
    if glob_hit(r.file, relative) {
        let done = applied(state.0, None, Seq::empty(), r.target);
        (done.0, state.1 + done.1.map_values(|p: Seq<char>| (p, r.reason)))
    } else {
        state
    }
}

/// The rules applied one after another.
pub open spec fn rules_applied(root: ElementView, relative: Seq<char>, rs: Seq<OmitSpec>) -> (
    ElementView,
    Seq<(Seq<char>, Seq<char>)>,
)
    decreases rs.len(),
{
    if rs.len() == 0 {
        (root, Seq::empty())
    } else {
        rule_step(rules_applied(root, relative, rs.drop_last()), relative, rs.last())
    }
}

/// Whether `address` still holds the value recorded as its default.
pub open spec fn still_default(defaults: Map<Seq<char>, Seq<char>>, address: Seq<char>, value: Seq<char>) -> bool {
    defaults.contains_key(address) && defaults[address] == value
}

/// The addresses of a projection still holding their defaults, in order.
pub open spec fn untouched(projection: Map<Seq<char>, Seq<char>>, defaults: Map<Seq<char>, Seq<char>>) -> Seq<Seq<char>> {
    sorted_key_list(
        Set::new(|a: Seq<char>| projection.contains_key(a) && still_default(defaults, a, projection[a])),
    )
}

/// The leaves at `addresses` removed one after another.
pub open spec fn leaves_removed(t: ElementView, addresses: Seq<Seq<char>>) -> ElementView
    decreases addresses.len(),
{
    if addresses.len() == 0 {
        t
    } else {
        leaf_removed(leaves_removed(t, addresses.drop_last()), addresses.last())
    }
}

/// Attributes that describe the file format rather than a user's choice.
pub open spec fn bookkeeping(name: Seq<char>) -> bool {
    name == "name"@ || name == "version"@
}

/// A component that persists a schema version but no settings.
pub open spec fn settingless(c: ElementView) -> bool {
    &&& c.name == "component"@
    &&& c.children.len() == 0
    &&& c.text is None
    &&& forall|i: int| 0 <= i < c.attributes.len() ==> bookkeeping(#[trigger] c.attributes[i].0)
}

/// The children that keep settings, and the addresses of the ones dropped.
pub open spec fn settingless_scan(children: Seq<ElementView>) -> (Seq<ElementView>, Seq<Seq<char>>)
    decreases children.len(),
{
    if children.len() == 0 {
        (Seq::empty(), Seq::empty())
    } else {
        let rest = settingless_scan(children.drop_last());
        let c = children.last();
        if settingless(c) {
            (rest.0, rest.1.push(describe_spec(Seq::empty(), c)))
        } else {
            (rest.0.push(c), rest.1)
        }
    }
}

/// The defaults recorded for `relative`, if any.
pub open spec fn defaults_for(defaults: Option<&ProductDefaults>, relative: Seq<char>) -> Option<Map<Seq<char>, Seq<char>>> {
    match defaults {
        Some(d) => if d.files@.contains_key(relative) {
            Some(d.files@[relative])
        } else {
            None
        },
        None => None,
    }
}

/// What pruning does to a document and what it reports: the rules, then
/// the settings still at their default, then a bottom-up clean-up, then the
/// components left holding no settings.
pub open spec fn pruning(root: ElementView, relative: Seq<char>, rs: Seq<OmitSpec>, defaults: Option<Map<Seq<char>, Seq<char>>>) -> (
    ElementView,
    Seq<(Seq<char>, Seq<char>)>,
) {
    let ruled = rules_applied(root, relative, rs);
    let addresses = match defaults {
        Some(d) => untouched(projection_of(ruled.0), d),
        None => Seq::empty(),
    };
    let cleared = pruned(leaves_removed(ruled.0, addresses));
    let scan = settingless_scan(cleared.children);
    (
        ElementView { children: scan.0, ..cleared },
        ruled.1 + addresses.map_values(|a: Seq<char>| (sugared(a), "unchanged from this product's default"@))
            + scan.1.map_values(|p: Seq<char>| (p, "component stores no settings"@)),
    )
}

/// File names without backslashes, where glob matching is stated.
pub open spec fn prune_plain(relative: Seq<char>, rules: Seq<XmlOmitRule>) -> bool {
    !relative.contains('\\') && forall|i: int| 0 <= i < rules.len() ==> !(#[trigger] rules[i]).file@.contains('\\')
}

#[derive(Debug, Clone, PartialEq, Eq)]
pub struct Removal {
    /// Human-readable address, as shown in reports.
    pub path: String,
    pub reason: String,
}

/// A removal, by value.
pub open spec fn removal_view(r: Removal) -> (Seq<char>, Seq<char>) {
    (r.path@, r.reason@)
}

pub open spec fn removals_view(v: Seq<Removal>) -> Seq<(Seq<char>, Seq<char>)> {
    v.map_values(|r: Removal| removal_view(r))
}

#[derive(Debug, Clone)]
pub struct PruneOutcome {
    pub removed: Vec<Removal>,
    /// True when nothing worth storing survived, so the file itself can be
    /// dropped from the store.
    pub is_empty: bool,
}

impl Default for PruneOutcome {
    fn default() -> (o: Self)
        ensures
            o.removed@.len() == 0,
            !o.is_empty,
    {
        PruneOutcome { removed: Vec::new(), is_empty: false }
    }
}

fn push_removal(removed: &mut Vec<Removal>, path: String, reason: &str)
    ensures
        removals_view(final(removed)@) == removals_view(old(removed)@).push((path@, reason@)),
{
    let r = Removal { path, reason: reason.to_owned() };
    removed.push(r);
    proof {
        assert(removals_view(removed@) =~= removals_view(old(removed)@).push((r.path@, r.reason@)));
    }
}

fn push_removals(removed: &mut Vec<Removal>, paths: &Vec<String>, reason: &str)
    ensures
        removals_view(final(removed)@) == removals_view(old(removed)@) + views(paths@).map_values(
            |p: Seq<char>| (p, reason@),
        ),
{
    let mut i: usize = 0;
    while i < paths.len()
        invariant
            i <= paths@.len(),
            removals_view(removed@) == removals_view(old(removed)@) + views(paths@).take(i as int).map_values(
                |p: Seq<char>| (p, reason@),
            ),
        decreases paths@.len() - i,
    {
        push_removal(removed, paths[i].clone(), reason);
        i = i + 1;
        proof {
            assert(views(paths@).take(i as int).map_values(|p: Seq<char>| (p, reason@)) =~= views(paths@).take(
                i - 1 as int,
            ).map_values(|p: Seq<char>| (p, reason@)).push((paths@[i - 1]@, reason@)));
        }
    }
    proof {
        assert(views(paths@).take(i as int) =~= views(paths@));
    }
}

/// Applies one rule to `root` when it covers the document's file.
fn apply_rule(root: &mut Element, relative: &str, rule: &XmlOmitRule, reason: &str, removed: &mut Vec<Removal>)
    ensures
        !relative@.contains('\\') && !rule.file@.contains('\\') ==> (final(root)@, removals_view(final(removed)@))
            == rule_step(
            (old(root)@, removals_view(old(removed)@)),
            relative@,
            OmitSpec { file: rule.file@, target: target_of(*rule), reason: reason@ },
        ),
{
    if glob_matches(rule.file.as_str(), relative) {
        let mut taken = Element::new("");
        std::mem::swap(&mut taken, root);
        let none: Option<String> = None;
        proof {
            reveal_strlit("");
            assert(""@ =~= Seq::<char>::empty());
        }
        let (done, paths) = apply_owned(taken, &none, "", rule);
        *root = done;
        push_removals(removed, &paths, reason);
    }
}

/// The built-in rules, each with its reason.
fn builtin_rule_list() -> (r: Vec<(XmlOmitRule, String)>)
    ensures
        r@.len() == builtin_rules().len(),
        forall|i: int| 0 <= i < r@.len() ==> (OmitSpec { file: (#[trigger] r@[i]).0.file@, target: target_of(r@[i].0), reason: r@[i].1@ }) == builtin_rules()[i],
{
    let mut r: Vec<(XmlOmitRule, String)> = Vec::new();
    r.push((builtin_rule("options/ide.general.xml", "Registry", "entry", "source", "SYSTEM"), "registry key set by the IDE, not the user".to_owned()));
    r.push((builtin_rule("options/ide.general.xml", "Registry", "entry", "source", "MANAGER"), "registry key managed centrally, not by the user".to_owned()));
    r.push((builtin_rule("options/ide-features-trainer.xml", "LessonStateBase", "entry", "value", "NOT_PASSED"), "tutorial never started".to_owned()));
    r.push((XmlOmitRule {
        file: "options/*.xml".to_owned(),
        component: None,
        element: "option".to_owned(),
        option: None,
        attribute: Some("name".to_owned()),
        equals: "MIGRATE_OLD_SETTINGS".to_owned(),
    }, "one-shot settings migration flag".to_owned()));
    r.push((builtin_rule("options/other.xml", "LangManager", "entry", "key", "JAVA"), "per-installation language state".to_owned()));
    proof {
        assert forall|i: int| 0 <= i < r@.len() implies (OmitSpec { file: (#[trigger] r@[i]).0.file@, target: target_of(r@[i].0), reason: r@[i].1@ }) == builtin_rules()[i] by {}
    }
    r
}

fn builtin_rule(file: &str, component: &str, element: &str, attribute: &str, equals: &str) -> (r: XmlOmitRule)
    ensures
        r.file@ == file@,
        target_of(r) == (Target { component: Some(component@), element: element@, attribute: Some(attribute@), option: None, equals: equals@ }),
{
    XmlOmitRule {
        file: file.to_owned(),
        component: Some(component.to_owned()),
        element: element.to_owned(),
        option: None,
        attribute: Some(attribute.to_owned()),
        equals: equals.to_owned(),
    }
}

proof fn lemma_builtin_files_plain()
    ensures
        forall|i: int| 0 <= i < builtin_rules().len() ==> !(#[trigger] builtin_rules()[i]).file.contains('\\'),
{
    reveal_strlit("options/ide.general.xml");
    reveal_strlit("options/ide-features-trainer.xml");
    reveal_strlit("options/*.xml");
    reveal_strlit("options/other.xml");
    assert forall|i: int| 0 <= i < builtin_rules().len() implies !(#[trigger] builtin_rules()[i]).file.contains('\\') by {
        let f = builtin_rules()[i].file;
        if f.contains('\\') {
            let k = choose|k: int| 0 <= k < f.len() && f[k] == '\\';
        }
    }
}

/// The addresses of `projection` still holding the value in `defaults`.
fn untouched_addresses(projection: &crate::strmap::StrMap, defaults: &crate::strmap::StrMap) -> (r: Vec<String>)
    ensures
        views(r@) == untouched(projection@, defaults@),
{
    projection.is_sorted();
    let ghost p = projection.pairs();
    let ghost wanted = Set::new(|a: Seq<char>| projection@.contains_key(a) && still_default(defaults@, a, projection@[a]));
    let mut r: Vec<String> = Vec::new();
    let n = projection.len();
    let mut i: usize = 0;
    while i < n
        invariant
            i <= n,
            n == p.len(),
            p == projection.pairs(),
            crate::strmap::sorted_pairs(p),
            sorted_strict(views(r@)),
            forall|j: int, m: int| 0 <= j < r@.len() && i <= m < n ==> seq_lt(#[trigger] views(r@)[j], #[trigger] p[m].0),
            forall|a: Seq<char>| #[trigger] views(r@).contains(a) <==> exists|k: int|
                0 <= k < i && #[trigger] p[k].0 == a && still_default(defaults@, a, p[k].1),
        decreases n - i,
    {
        let key = projection.key_at(i);
        let value = projection.value_at(i);
        let keep = match defaults.get(key.as_str()) {
            Some(d) => str_eq(d.as_str(), value.as_str()),
            None => false,
        };
        let ghost prev = views(r@);
        if keep {
            r.push(key.clone());
            proof {
                assert(views(r@) =~= prev.push(key@));
                assert forall|a: int, b: int| 0 <= a < b < views(r@).len() implies seq_lt(#[trigger] views(r@)[a], #[trigger] views(r@)[b]) by {
                    if b == prev.len() {
                        assert(views(r@)[a] == prev[a]);
                    } else {
                        assert(views(r@)[a] == prev[a] && views(r@)[b] == prev[b]);
                    }
                }
                assert forall|j: int, m: int| 0 <= j < views(r@).len() && i + 1 <= m < n implies seq_lt(#[trigger] views(r@)[j], #[trigger] p[m].0) by {
                    if j == prev.len() {
                        assert(views(r@)[j] == p[i as int].0);
                    } else {
                        assert(views(r@)[j] == prev[j]);
                        assert(seq_lt(prev[j], p[m].0));
                    }
                }
            }
        }
        proof {
            assert forall|a: Seq<char>| #[trigger] views(r@).contains(a) <==> exists|k: int|
                0 <= k < i + 1 && #[trigger] p[k].0 == a && still_default(defaults@, a, p[k].1) by {
                if views(r@).contains(a) {
                    let j = choose|j: int| 0 <= j < views(r@).len() && views(r@)[j] == a;
                    if keep && j == prev.len() {
                        assert(p[i as int].0 == a);
                    } else {
                        assert(prev[j] == a);
                        assert(prev.contains(a));
                    }
                }
                if exists|k: int| 0 <= k < i + 1 && #[trigger] p[k].0 == a && still_default(defaults@, a, p[k].1) {
                    let k = choose|k: int| 0 <= k < i + 1 && #[trigger] p[k].0 == a && still_default(defaults@, a, p[k].1);
                    if k == i {
                        assert(keep);
                        assert(views(r@)[prev.len() as int] == a);
                    } else {
                        assert(prev.contains(a));
                        let j = choose|j: int| 0 <= j < prev.len() && prev[j] == a;
                        assert(views(r@)[j] == a);
                    }
                }
            }
        }
        i = i + 1;
    }
    proof {
        assert forall|a: Seq<char>| views(r@).to_set().contains(a) <==> wanted.contains(a) by {
            if views(r@).to_set().contains(a) {
                assert(views(r@).contains(a));
                let k = choose|k: int| 0 <= k < n && #[trigger] p[k].0 == a && still_default(defaults@, a, p[k].1);
                lemma_lookup(p, k);
            }
            if wanted.contains(a) {
                let k = choose|k: int| 0 <= k < p.len() && #[trigger] p[k].0 == a;
                lemma_lookup(p, k);
                assert(views(r@).contains(a));
            }
        }
        assert(views(r@).to_set() =~= wanted);
        lemma_is_sorted_key_list(views(r@));
    }
    r
}

/// Whether a component persists a schema version but no settings.
fn is_settingless(c: &Element) -> (b: bool)
    ensures
        b == settingless(c@),
{
    proof {
        lemma_view_children(*c);
    }
    if !str_eq(c.name.as_str(), "component") || c.children.len() != 0 || c.text.is_some() {
        return false;
    }
    let n = c.attributes.len();
    let mut i: usize = 0;
    while i < n
        invariant
            i <= n,
            n == c@.attributes.len(),
            c@.attributes == c.attributes.pairs(),
            forall|j: int| 0 <= j < i ==> bookkeeping(#[trigger] c@.attributes[j].0),
        decreases n - i,
    {
        let k = c.attributes.key_at(i);
        if !(str_eq(k.as_str(), "name") || str_eq(k.as_str(), "version")) {
            return false;
        }
        i = i + 1;
    }
    true
}

/// Drops components that persist a schema version but no settings.
fn drop_settingless_components(root: &mut Element, removed: &mut Vec<Removal>)
    ensures
        final(root)@ == (ElementView { children: settingless_scan(old(root)@.children).0, ..old(root)@ }),
        removals_view(final(removed)@) == removals_view(old(removed)@) + settingless_scan(old(root)@.children).1.map_values(
            |p: Seq<char>| (p, "component stores no settings"@),
        ),
{
    proof {
        lemma_view_children(*root);
    }
    let ghost t = root@;
    let mut children: Vec<Element> = Vec::new();
    std::mem::swap(&mut children, &mut root.children);
    let ghost all = children@;
    let total = children.len();
    let mut kept: Vec<Element> = Vec::new();
    let mut paths: Vec<String> = Vec::new();
    let mut k: usize = 0;
    while children.len() > 0
        invariant
            k <= all.len(),
            total == all.len(),
            children@ == all.skip(k as int),
            all.len() == t.children.len(),
            forall|j: int| 0 <= j < all.len() ==> #[trigger] all[j]@ == t.children[j],
            kept@.len() == settingless_scan(t.children.take(k as int)).0.len(),
            forall|j: int| 0 <= j < kept@.len() ==> #[trigger] kept@[j]@ == settingless_scan(t.children.take(k as int)).0[j],
            views(paths@) == settingless_scan(t.children.take(k as int)).1,
        decreases children@.len(),
    {
        proof {
            assert(children@.len() == all.len() - k);
        }
        let child = children.remove(0);
        proof {
            assert(child == all[k as int]);
            assert(children@ =~= all.skip(k + 1));
            assert(t.children.take(k + 1 as int).drop_last() =~= t.children.take(k as int));
            assert(t.children.take(k + 1 as int).last() == child@);
        }
        let ghost before = settingless_scan(t.children.take(k as int));
        let ghost kept_before = kept@;
        if is_settingless(&child) {
            let d = describe("", &child);
            proof {
                reveal_strlit("");
                assert(""@ =~= Seq::<char>::empty());
            }
            let ghost prev = paths@;
            paths.push(d);
            proof {
                assert(views(paths@) =~= views(prev).push(d@));
            }
        } else {
            kept.push(child);
            proof {
                assert forall|j: int| 0 <= j < kept@.len() implies #[trigger] kept@[j]@ == settingless_scan(t.children.take(k + 1 as int)).0[j] by {
                    if j < kept_before.len() {
                        assert(kept@[j] == kept_before[j]);
                    }
                }
            }
        }
        k = k + 1;
    }
    proof {
        assert(all.skip(k as int).len() == 0);
        assert(t.children.take(k as int) =~= t.children);
    }
    root.children = kept;
    proof {
        lemma_view_from_parts(*root, t.name, t.attributes, settingless_scan(t.children).0, t.text);
    }
    push_removals(removed, &paths, "component stores no settings");
}

/// Removes non-setting content from `root`, reporting what went and why.
///
/// `defaults`, when present, are the values this product shipped with. A
/// setting still holding its default is not a choice, so it is removed before
/// the bottom-up clean-up, and the component it lived in goes too rather than
/// lingering as an empty shell.
pub fn prune_document(
    relative: &str,
    root: &mut Element,
    rules: &[XmlOmitRule],
    use_builtins: bool,
    defaults: Option<&ProductDefaults>,
) -> (outcome: PruneOutcome)
    ensures
        prune_plain(relative@, rules@) ==> final(root)@ == pruning(
            old(root)@,
            relative@,
            rules_in_force(rules@, use_builtins),
            defaults_for(defaults, relative@),
        ).0,
        prune_plain(relative@, rules@) ==> removals_view(outcome.removed@) == pruning(
            old(root)@,
            relative@,
            rules_in_force(rules@, use_builtins),
            defaults_for(defaults, relative@),
        ).1,
        outcome.is_empty == (final(root)@.children.len() == 0 && final(root)@.attributes.len() == 0),
{
    let ghost start = root@;
    let ghost rs = rules_in_force(rules@, use_builtins);
    let ghost plain = prune_plain(relative@, rules@);
    let mut removed: Vec<Removal> = Vec::new();
    proof {
        lemma_builtin_files_plain();
        assert(removals_view(removed@) =~= Seq::<(Seq<char>, Seq<char>)>::empty());
    }
    let mut done: usize = 0;
    if use_builtins {
        let builtins = builtin_rule_list();
        let mut i: usize = 0;
        while i < builtins.len()
            invariant
                i <= builtins@.len(),
                builtins@.len() == builtin_rules().len(),
                forall|j: int| 0 <= j < builtins@.len() ==> (OmitSpec { file: (#[trigger] builtins@[j]).0.file@, target: target_of(builtins@[j].0), reason: builtins@[j].1@ }) == builtin_rules()[j],
                forall|j: int| 0 <= j < builtin_rules().len() ==> !(#[trigger] builtin_rules()[j]).file.contains('\\'),
                rs == rules_in_force(rules@, use_builtins),
                use_builtins,
                plain == prune_plain(relative@, rules@),
                plain ==> (root@, removals_view(removed@)) == rules_applied(start, relative@, rs.take(i as int)),
            decreases builtins@.len() - i,
        {
            proof {
                assert(rs[i as int] == builtin_rules()[i as int]);
                assert(rs.take(i + 1 as int).drop_last() =~= rs.take(i as int));
            }
            apply_rule(root, relative, &builtins[i].0, builtins[i].1.as_str(), &mut removed);
            i = i + 1;
        }
        done = i;
    }
    proof {
        if use_builtins {
            assert(done == builtin_rules().len());
        } else {
            assert(rs.take(0) =~= Seq::<OmitSpec>::empty());
        }
    }
    let ghost offset = done;
    let mut j: usize = 0;
    while j < rules.len()
        invariant
            j <= rules@.len(),
            offset == if use_builtins { builtin_rules().len() } else { 0 },
            rs == rules_in_force(rules@, use_builtins),
            rs.len() == offset + rules@.len(),
            plain == prune_plain(relative@, rules@),
            plain ==> (root@, removals_view(removed@)) == rules_applied(start, relative@, rs.take(offset + j)),
        decreases rules@.len() - j,
    {
        let reason = concat("excluded by ", rules[j].file.as_str());
        proof {
            assert(rs[offset + j] == user_rule(rules@[j as int]));
            assert(rs.take(offset + j + 1).drop_last() =~= rs.take(offset + j));
        }
        apply_rule(root, relative, &rules[j], reason.as_str(), &mut removed);
        j = j + 1;
    }
    proof {
        assert(rs.take(offset + j) =~= rs);
    }
    let ghost ruled = root@;
    let ghost addresses: Seq<Seq<char>> = match defaults_for(defaults, relative@) {
        Some(d) => untouched(projection_of(ruled), d),
        None => Seq::empty(),
    };
    let reason = "unchanged from this product's default";
    let addrs: Vec<String> = match defaults {
        Some(d) => match d.files.get(relative) {
            Some(values) => {
                let projection = project(root);
                untouched_addresses(&projection, values)
            },
            None => Vec::new(),
        },
        None => Vec::new(),
    };
    proof {
        assert(views(addrs@) == addresses);
    }
    let mut k: usize = 0;
    while k < addrs.len()
        invariant
            k <= addrs@.len(),
            views(addrs@) == addresses,
            root@ == leaves_removed(ruled, addresses.take(k as int)),
            removals_view(removed@) == removals_view(removed@).take(removals_view(removed@).len() - k as int)
                + addresses.take(k as int).map_values(|a: Seq<char>| (sugared(a), reason@)),
            plain ==> removals_view(removed@).take(removals_view(removed@).len() - k as int) == rules_applied(start, relative@, rs).1,
            removals_view(removed@).len() >= k,
        decreases addrs@.len() - k,
    {
        let ghost prev_removed = removals_view(removed@);
        remove_leaf(root, addrs[k].as_str());
        let shown = sugar(addrs[k].as_str());
        push_removal(&mut removed, shown, reason);
        proof {
            assert(addresses.take(k + 1 as int).drop_last() =~= addresses.take(k as int));
            assert(addresses.take(k + 1 as int).last() == addrs@[k as int]@);
            let now = removals_view(removed@);
            assert(now == prev_removed.push((sugared(addrs@[k as int]@), reason@)));
            assert(now.take(now.len() - (k + 1)) =~= prev_removed.take(prev_removed.len() - k));
            assert(addresses.take(k + 1 as int).map_values(|a: Seq<char>| (sugared(a), reason@)) =~= addresses.take(
                k as int,
            ).map_values(|a: Seq<char>| (sugared(a), reason@)).push((sugared(addrs@[k as int]@), reason@)));
            assert(now =~= now.take(now.len() - (k + 1)) + addresses.take(k + 1 as int).map_values(
                |a: Seq<char>| (sugared(a), reason@),
            ));
        }
        k = k + 1;
    }
    proof {
        assert(addresses.take(k as int) =~= addresses);
    }
    prune_empty(root);
    drop_settingless_components(root, &mut removed);
    let is_empty = root.children.len() == 0 && root.attributes.is_empty();
    proof {
        lemma_view_children(*root);
    }
    PruneOutcome { removed, is_empty }
}


/// Rules touch only the files they name: when no rule's file pattern
/// matches a file, applying the rules leaves its document as it is and
/// removes nothing.
pub proof fn law_rules_touch_only_their_files(root: ElementView, relative: Seq<char>, rs: Seq<OmitSpec>)
    requires
        forall|i: int| 0 <= i < rs.len() ==> !glob_hit(#[trigger] rs[i].file, relative),
    ensures
        rules_applied(root, relative, rs) == (root, Seq::<(Seq<char>, Seq<char>)>::empty()),
    decreases rs.len(),
{
    if rs.len() > 0 {
        let init = rs.drop_last();
        assert forall|i: int| 0 <= i < init.len() implies !glob_hit(#[trigger] init[i].file, relative) by {
            assert(init[i] == rs[i]);
        }
        law_rules_touch_only_their_files(root, relative, init);
        assert(!glob_hit(rs[rs.len() - 1].file, relative));
    }
}

/// Inside a component other than the one a rule names, the rule finds
/// nothing among the first `n` children.
proof fn lemma_no_direct_hits(e: ElementView, n: nat, scope: Option<Seq<char>>, path: Seq<char>, t: Target, w: Seq<char>)
    requires
        t.component == Some(w),
        scope != Some(w),
    ensures
        direct_hits(e, n, scope, path, t).len() == 0,
        applied_children(e, n, scope, path, t).0.len() == if n <= e.children.len() {
            n
        } else {
            0
        },
    decreases n,
{
    if n > 0 && n <= e.children.len() {
        lemma_no_direct_hits(e, (n - 1) as nat, scope, path, t, w);
    }
}

/// A rule that names a component removes nothing outside it: applied to an
/// element whose component scope is another one (or none), it removes none
/// of the element's children and reports no removal among them; every child
/// stays, in order, with the rule applied only below it.
pub proof fn law_component_rules_stay_in_their_component(
    e: ElementView,
    outer: Option<Seq<char>>,
    path: Seq<char>,
    t: Target,
    w: Seq<char>,
)
    requires
        t.component == Some(w),
        scope_of(e, outer) != Some(w),
    ensures
        direct_hits(e, e.children.len(), scope_of(e, outer), path, t).len() == 0,
        applied(e, outer, path, t).0.children.len() == e.children.len(),
        forall|c: ElementView| !#[trigger] hits(c, scope_of(e, outer), t),
{
    lemma_no_direct_hits(e, e.children.len(), scope_of(e, outer), path, t, w);
}

/// Inside the component a rule names, the rule removes an element of its
/// kind carrying the option name it asks for.
pub proof fn law_component_rules_apply_inside_their_component(c: ElementView, t: Target, w: Seq<char>, o: Seq<char>)
    requires
        t.component == Some(w),
        t.option == Some(o),
        c.name == t.element,
        attr_of(c, "name"@) == Some(o),
    ensures
        hits(c, Some(w), t),
{
}

} // verus!
