//! Plugin sync by manifest, not by copying files.
//!
//! Plugin directories carry compiled code and sometimes native libraries, so
//! copying them between machines is unsound. Instead the manifest records
//! which third-party plugins are present, with the compatibility metadata
//! from each descriptor, and other machines install them from Marketplace
//! through the IDE's own launcher. Bundled plugins are excluded: they ship
//! with the product.

use vstd::prelude::*;

use crate::config::{PluginCapability, PluginRule, PluginsConfig, SyncConfig};
use crate::error::JbsyncError;
use crate::glob::{glob_hit, glob_matches};
use crate::ide::{digit_runs, digit_runs_spec, Ide};
use crate::settings::prune::attr_of;
use crate::strmap::{lemma_sorted_key_list, sorted_key_list};
use crate::strset::StrSet;
use crate::text::{before_char, before_or_all, chars_of, concat, has_prefix, has_suffix, starts_with, join_strings, join_with, opt_view, split_on, split_str, str_eq, string_of, strip_suffix, trim, trim_str, views};
use crate::xml::dom::{parsed_document, lemma_view_children, parse, Element, ElementView};
use crate::xml::reader::xml_accepts;

verus! {

/// What a plugin's `META-INF/plugin.xml` says about itself.
#[derive(Debug, Clone, PartialEq, Eq)]
pub struct Plugin {
    pub id: String,
    pub name: String,
    pub version: String,
    pub since_build: String,
    pub until_build: String,
    pub required_dependencies: Vec<String>,
    pub incompatible_with: Vec<String>,
    pub provided_modules: Vec<String>,
    /// Uses the modern `<content>` descriptor form.
    pub modular: bool,
    /// Products this plugin was actually observed installed in.
    pub source_products: Vec<String>,
}

/// The mathematical content of a [`Plugin`].
pub struct PluginView {
    pub id: Seq<char>,
    pub name: Seq<char>,
    pub version: Seq<char>,
    pub since_build: Seq<char>,
    pub until_build: Seq<char>,
    pub required_dependencies: Seq<Seq<char>>,
    pub incompatible_with: Seq<Seq<char>>,
    pub provided_modules: Seq<Seq<char>>,
    pub modular: bool,
    pub source_products: Seq<Seq<char>>,
}

pub open spec fn plugin_view(p: Plugin) -> PluginView {
    PluginView {
        id: p.id@,
        name: p.name@,
        version: p.version@,
        since_build: p.since_build@,
        until_build: p.until_build@,
        required_dependencies: views(p.required_dependencies@),
        incompatible_with: views(p.incompatible_with@),
        provided_modules: views(p.provided_modules@),
        modular: p.modular,
        source_products: views(p.source_products@),
    }
}

impl Default for Plugin {
    fn default() -> (p: Self)
        ensures
            plugin_view(p) == (PluginView {
                id: Seq::empty(),
                name: Seq::empty(),
                version: Seq::empty(),
                since_build: Seq::empty(),
                until_build: Seq::empty(),
                required_dependencies: Seq::empty(),
                incompatible_with: Seq::empty(),
                provided_modules: Seq::empty(),
                modular: false,
                source_products: Seq::empty(),
            }),
    {
        let p = Plugin {
            id: String::new(),
            name: String::new(),
            version: String::new(),
            since_build: String::new(),
            until_build: String::new(),
            required_dependencies: Vec::new(),
            incompatible_with: Vec::new(),
            provided_modules: Vec::new(),
            modular: false,
            source_products: Vec::new(),
        };
        proof {
            assert(views(p.required_dependencies@) =~= Seq::<Seq<char>>::empty());
            assert(views(p.incompatible_with@) =~= Seq::<Seq<char>>::empty());
            assert(views(p.provided_modules@) =~= Seq::<Seq<char>>::empty());
            assert(views(p.source_products@) =~= Seq::<Seq<char>>::empty());
        }
        p
    }
}

impl Plugin {
    /// An independent copy.
    pub fn copy(&self) -> (r: Self)
        ensures
            plugin_view(r) == plugin_view(*self),
    {
        Plugin {
            id: self.id.clone(),
            name: self.name.clone(),
            version: self.version.clone(),
            since_build: self.since_build.clone(),
            until_build: self.until_build.clone(),
            required_dependencies: crate::text::clone_strings(&self.required_dependencies),
            incompatible_with: crate::text::clone_strings(&self.incompatible_with),
            provided_modules: crate::text::clone_strings(&self.provided_modules),
            modular: self.modular,
            source_products: crate::text::clone_strings(&self.source_products),
        }
    }
}

/// The record of which third-party plugins the fleet has installed.
#[derive(Debug, Clone)]
pub struct Manifest {
    pub version: u32,
    pub plugins: Vec<Plugin>,
}

impl Default for Manifest {
    fn default() -> (m: Self)
        ensures
            m.version == 1,
            m.plugins@.len() == 0,
    {
        Manifest { version: 1, plugins: Vec::new() }
    }
}

/// The ids of the first `n` plugins.
pub open spec fn ids_of(plugins: Seq<Plugin>) -> Set<Seq<char>> {
    Set::new(|id: Seq<char>| exists|i: int| 0 <= i < plugins.len() && (#[trigger] plugins[i]).id@ == id)
}

impl Manifest {
    pub fn ids(&self) -> (r: StrSet)
        ensures
            r@ == ids_of(self.plugins@),
    {
        let mut r = StrSet::new();
        let mut i: usize = 0;
        while i < self.plugins.len()
            invariant
                i <= self.plugins@.len(),
                r@ == ids_of(self.plugins@.take(i as int)),
            decreases self.plugins@.len() - i,
        {
            r.insert(self.plugins[i].id.clone());
            proof {
                let before = self.plugins@.take(i as int);
                let after = self.plugins@.take(i + 1 as int);
                assert forall|id: Seq<char>| #[trigger] ids_of(after).contains(id) == r@.contains(id) by {
                    if ids_of(after).contains(id) {
                        let k = choose|k: int| 0 <= k < after.len() && (#[trigger] after[k]).id@ == id;
                        if k < i {
                            assert(before[k] == after[k]);
                        }
                    }
                    if ids_of(before).contains(id) {
                        let k = choose|k: int| 0 <= k < before.len() && (#[trigger] before[k]).id@ == id;
                        assert(after[k] == before[k]);
                    }
                    if id == self.plugins@[i as int].id@ {
                        assert(after[i as int] == self.plugins@[i as int]);
                    }
                }
                assert(r@ =~= ids_of(after));
            }
            i = i + 1;
        }
        proof {
            assert(self.plugins@.take(i as int) =~= self.plugins@);
        }
        r
    }
}

/// The position of the first of `children`, from `from` on, named `name`.
pub open spec fn first_named_from(children: Seq<ElementView>, name: Seq<char>, from: nat) -> Option<nat>
    decreases children.len() - from,
{
    if from >= children.len() {
        None
    } else if children[from as int].name == name {
        Some(from)
    } else {
        first_named_from(children, name, from + 1)
    }
}

/// The position of the first of `children` named `name`.
pub open spec fn first_named(children: Seq<ElementView>, name: Seq<char>) -> Option<nat> {
    first_named_from(children, name, 0)
}

proof fn lemma_first_named_from(children: Seq<ElementView>, name: Seq<char>, from: nat)
    ensures
        first_named_from(children, name, from) matches Some(i) ==> from <= i < children.len() && children[i as int].name
            == name,
    decreases children.len() - from,
{
    if from < children.len() && children[from as int].name != name {
        lemma_first_named_from(children, name, from + 1);
    }
}

fn first_named_exec(parent: &Element, name: &str) -> (r: Option<usize>)
    ensures
        r matches Some(i) ==> first_named(parent@.children, name@) == Some(i as nat) && i < parent.children@.len(),
        r is None ==> first_named(parent@.children, name@) is None,
{
    proof {
        lemma_view_children(*parent);
    }
    let mut i: usize = 0;
    while i < parent.children.len()
        invariant
            i <= parent.children@.len(),
            parent@.children.len() == parent.children@.len(),
            forall|j: int| 0 <= j < parent.children@.len() ==> #[trigger] parent@.children[j] == parent.children@[j]@,
            first_named(parent@.children, name@) == first_named_from(parent@.children, name@, i as nat),
        decreases parent.children@.len() - i,
    {
        if str_eq(parent.children[i].name.as_str(), name) {
            return Some(i);
        }
        i = i + 1;
    }
    None
}

/// The trimmed text of the first child named `name`, or nothing.
pub open spec fn child_text_spec(root: ElementView, name: Seq<char>) -> Seq<char> {
    match first_named(root.children, name) {
        Some(i) => match root.children[i as int].text {
            Some(t) => trim(t),
            None => Seq::empty(),
        },
        None => Seq::empty(),
    }
}

fn child_text(root: &Element, name: &str) -> (r: String)
    ensures
        r@ == child_text_spec(root@, name@),
{
    proof {
        lemma_view_children(*root);
        reveal_strlit("");
    }
    match first_named_exec(root, name) {
        Some(i) => match &root.children[i].text {
            Some(t) => trim_str(t.as_str()),
            None => String::new(),
        },
        None => String::new(),
    }
}

/// A value of attribute `key`, or the empty string.
pub open spec fn attr_or_empty(e: ElementView, key: Seq<char>) -> Seq<char> {
    match attr_of(e, key) {
        Some(v) => v,
        None => Seq::empty(),
    }
}

/// The value a `<depends>` element names.
pub open spec fn depends_value(c: ElementView) -> Seq<char> {
    match c.text {
        Some(t) => t,
        None => Seq::empty(),
    }
}

/// A `<depends>` naming `v` that is not optional.
pub open spec fn required_by_depends(c: ElementView, v: Seq<char>) -> bool {
    c.name == "depends"@ && v.len() > 0 && depends_value(c) == v && attr_of(c, "optional"@) != Some("true"@)
}

/// The plugin or module a modern `<dependencies>` entry names.
pub open spec fn dependency_value(d: ElementView) -> Option<Seq<char>> {
    if attr_of(d, "name"@) is Some {
        attr_of(d, "name"@)
    } else {
        attr_of(d, "id"@)
    }
}

/// How a modern dependency is loaded, `optional` when unsaid.
pub open spec fn loading_of(d: ElementView) -> Seq<char> {
    match attr_of(d, "loading"@) {
        Some(l) => l,
        None => "optional"@,
    }
}

/// Whether child `c` of a descriptor requires `v`.
pub open spec fn requires_value(c: ElementView, v: Seq<char>) -> bool {
    required_by_depends(c, v) || (c.name == "dependencies"@ && exists|j: int|
        0 <= j < c.children.len() && dependency_value(#[trigger] c.children[j]) == Some(v) && loading_of(c.children[j])
            == "required"@)
}

/// Whether child `c` of a descriptor declares incompatibility with `v`.
pub open spec fn declares_incompatible(c: ElementView, v: Seq<char>) -> bool {
    c.name == "incompatible-with"@ && c.text == Some(v)
}

/// Whether child `c` of a descriptor provides the module `v`.
pub open spec fn provides_value(c: ElementView, v: Seq<char>) -> bool {
    (c.name == "module"@ && attr_of(c, "value"@) == Some(v)) || (c.name == "content"@ && exists|j: int|
        0 <= j < c.children.len() && attr_of(#[trigger] c.children[j], "name"@) == Some(v))
}

/// The values some of the first `n` children of `root` declare by `p`.
pub open spec fn declared(root: ElementView, n: int, p: spec_fn(ElementView, Seq<char>) -> bool) -> Set<Seq<char>> {
    Set::new(|v: Seq<char>| exists|i: int| 0 <= i < n && i < root.children.len() && #[trigger] p(root.children[i], v))
}

/// The attribute `key` of the first `<idea-version>`, or nothing.
pub open spec fn idea_version_attr(root: ElementView, key: Seq<char>) -> Seq<char> {
    match first_named(root.children, "idea-version"@) {
        Some(i) => attr_or_empty(root.children[i as int], key),
        None => Seq::empty(),
    }
}

/// What a descriptor says of its plugin. Its id is `<id>`, else `<name>`,
/// else `fallback_id`; its name is `<name>`, else the id.
pub open spec fn descriptor_spec(root: ElementView, fallback_id: Seq<char>) -> PluginView {
    let by_id = child_text_spec(root, "id"@);
    let by_name = child_text_spec(root, "name"@);
    let id = if by_id.len() > 0 {
        by_id
    } else if by_name.len() > 0 {
        by_name
    } else {
        fallback_id
    };
    PluginView {
        id,
        name: if by_name.len() > 0 {
            by_name
        } else {
            id
        },
        version: child_text_spec(root, "version"@),
        since_build: idea_version_attr(root, "since-build"@),
        until_build: idea_version_attr(root, "until-build"@),
        required_dependencies: sorted_key_list(
            declared(root, root.children.len() as int, |c: ElementView, v: Seq<char>| requires_value(c, v)),
        ),
        incompatible_with: sorted_key_list(
            declared(root, root.children.len() as int, |c: ElementView, v: Seq<char>| declares_incompatible(c, v)),
        ),
        provided_modules: sorted_key_list(
            declared(root, root.children.len() as int, |c: ElementView, v: Seq<char>| provides_value(c, v)),
        ),
        modular: exists|i: int| 0 <= i < root.children.len() && (#[trigger] root.children[i]).name == "content"@,
        source_products: Seq::empty(),
    }
}

fn attribute_of(e: &Element, key: &str) -> (r: Option<String>)
    ensures
        opt_view(r) == attr_of(e@, key@),
{
    match e.attributes.get(key) {
        Some(v) => Some(v.clone()),
        None => None,
    }
}

fn opt_is(o: &Option<String>, v: &str) -> (b: bool)
    ensures
        b == (opt_view(*o) == Some(v@)),
{
    match o {
        Some(x) => str_eq(x.as_str(), v),
        None => false,
    }
}

proof fn lemma_descriptor_words()
    ensures
        "depends"@ != "dependencies"@,
        "depends"@ != "incompatible-with"@,
        "depends"@ != "module"@,
        "depends"@ != "content"@,
        "dependencies"@ != "incompatible-with"@,
        "dependencies"@ != "module"@,
        "dependencies"@ != "content"@,
        "incompatible-with"@ != "module"@,
        "incompatible-with"@ != "content"@,
        "module"@ != "content"@,
        "optional"@ != "required"@,
{
    reveal_strlit("depends");
    reveal_strlit("dependencies");
    reveal_strlit("incompatible-with");
    reveal_strlit("module");
    reveal_strlit("content");
    reveal_strlit("optional");
    reveal_strlit("required");
    assert("depends"@[0] != "content"@[0]);
    assert("depends"@.len() != "dependencies"@.len());
    assert("dependencies"@.len() != "incompatible-with"@.len());
    assert("depends"@.len() != "incompatible-with"@.len());
    assert("optional"@[0] != "required"@[0]);
}

/// The values required by the modern `<dependencies>` element `c`.
fn required_modules(c: &Element, found: &mut StrSet)
    ensures
        final(found)@ == old(found)@.union(Set::new(|v: Seq<char>| exists|j: int|
            0 <= j < c@.children.len() && dependency_value(#[trigger] c@.children[j]) == Some(v) && loading_of(c@.children[j])
                == "required"@)),
{
    proof {
        lemma_view_children(*c);
    }
    let ghost start = found@;
    let mut j: usize = 0;
    while j < c.children.len()
        invariant
            j <= c.children@.len(),
            c@.children.len() == c.children@.len(),
            forall|k: int| 0 <= k < c.children@.len() ==> #[trigger] c@.children[k] == c.children@[k]@,
            found@ == start.union(Set::new(|v: Seq<char>| exists|k: int|
                0 <= k < j && dependency_value(#[trigger] c@.children[k]) == Some(v) && loading_of(c@.children[k])
                    == "required"@)),
        decreases c.children@.len() - j,
    {
        let d = &c.children[j];
        let by_name = attribute_of(d, "name");
        let value = match by_name {
            Some(v) => Some(v),
            None => attribute_of(d, "id"),
        };
        let loading = attribute_of(d, "loading");
        let required = match &loading {
            Some(l) => str_eq(l.as_str(), "required"),
            None => false,
        };
        proof {
            assert(opt_view(value) == dependency_value(d@));
            lemma_descriptor_words();
            assert(required == (loading_of(d@) == "required"@));
        }
        let ghost before = found@;
        match value {
            Some(v) => {
                if required {
                    found.insert(v);
                }
            },
            None => {},
        }
        proof {
            let next = start.union(Set::new(|v: Seq<char>| exists|k: int|
                0 <= k < j + 1 && dependency_value(#[trigger] c@.children[k]) == Some(v) && loading_of(c@.children[k])
                    == "required"@));
            assert forall|v: Seq<char>| #[trigger] found@.contains(v) == next.contains(v) by {
                if before.contains(v) && !start.contains(v) {
                    let k = choose|k: int| 0 <= k < j && dependency_value(#[trigger] c@.children[k]) == Some(v)
                        && loading_of(c@.children[k]) == "required"@;
                    assert(0 <= k < j + 1 && dependency_value(c@.children[k]) == Some(v) && loading_of(c@.children[k]) == "required"@);
                }
                if found@.contains(v) && !before.contains(v) {
                    assert(dependency_value(c@.children[j as int]) == Some(v) && loading_of(c@.children[j as int]) == "required"@);
                }
                if next.contains(v) && !start.contains(v) {
                    let k = choose|k: int| 0 <= k < j + 1 && dependency_value(#[trigger] c@.children[k]) == Some(v)
                        && loading_of(c@.children[k]) == "required"@;
                    if k < j {
                        assert(before.contains(v));
                    }
                }
            }
            assert(found@ =~= next);
        }
        j = j + 1;
    }
}

/// The `name` of each child of the `<content>` element `c`.
fn content_modules(c: &Element, found: &mut StrSet)
    ensures
        final(found)@ == old(found)@.union(Set::new(|v: Seq<char>| exists|j: int|
            0 <= j < c@.children.len() && attr_of(#[trigger] c@.children[j], "name"@) == Some(v))),
{
    proof {
        lemma_view_children(*c);
    }
    let ghost start = found@;
    let mut j: usize = 0;
    while j < c.children.len()
        invariant
            j <= c.children@.len(),
            c@.children.len() == c.children@.len(),
            forall|k: int| 0 <= k < c.children@.len() ==> #[trigger] c@.children[k] == c.children@[k]@,
            found@ == start.union(Set::new(|v: Seq<char>| exists|k: int|
                0 <= k < j && attr_of(#[trigger] c@.children[k], "name"@) == Some(v))),
        decreases c.children@.len() - j,
    {
        let ghost before = found@;
        match attribute_of(&c.children[j], "name") {
            Some(v) => {
                found.insert(v);
            },
            None => {},
        }
        proof {
            let next = start.union(Set::new(|v: Seq<char>| exists|k: int|
                0 <= k < j + 1 && attr_of(#[trigger] c@.children[k], "name"@) == Some(v)));
            assert forall|v: Seq<char>| #[trigger] found@.contains(v) == next.contains(v) by {
                if before.contains(v) && !start.contains(v) {
                    let k = choose|k: int| 0 <= k < j && attr_of(#[trigger] c@.children[k], "name"@) == Some(v);
                    assert(0 <= k < j + 1 && attr_of(c@.children[k], "name"@) == Some(v));
                }
                if found@.contains(v) && !before.contains(v) {
                    assert(attr_of(c@.children[j as int], "name"@) == Some(v));
                }
                if next.contains(v) && !start.contains(v) {
                    let k = choose|k: int| 0 <= k < j + 1 && attr_of(#[trigger] c@.children[k], "name"@) == Some(v);
                    if k < j {
                        assert(before.contains(v));
                    }
                }
            }
            assert(found@ =~= next);
        }
        j = j + 1;
    }
}

/// What a parsed descriptor says of its plugin, with `fallback_id` (the
/// plugin's directory name) standing in for a missing id.
pub fn descriptor_of(root: &Element, fallback_id: &str) -> (p: Plugin)
    ensures
        plugin_view(p) == descriptor_spec(root@, fallback_id@),
{
    proof {
        lemma_view_children(*root);
    }
    let ghost r = root@;
    let mut required = StrSet::new();
    let mut incompatible = StrSet::new();
    let mut provided = StrSet::new();
    let mut modular = false;
    let n = root.children.len();
    let mut i: usize = 0;
    proof {
        assert(required@ =~= declared(r, 0, |c: ElementView, v: Seq<char>| requires_value(c, v)));
        assert(incompatible@ =~= declared(r, 0, |c: ElementView, v: Seq<char>| declares_incompatible(c, v)));
        assert(provided@ =~= declared(r, 0, |c: ElementView, v: Seq<char>| provides_value(c, v)));
    }
    while i < n
        invariant
            i <= n,
            n == root.children@.len(),
            r == root@,
            r.children.len() == n,
            forall|k: int| 0 <= k < n ==> #[trigger] r.children[k] == root.children@[k]@,
            required@ == declared(r, i as int, |c: ElementView, v: Seq<char>| requires_value(c, v)),
            incompatible@ == declared(r, i as int, |c: ElementView, v: Seq<char>| declares_incompatible(c, v)),
            provided@ == declared(r, i as int, |c: ElementView, v: Seq<char>| provides_value(c, v)),
            modular == exists|k: int| 0 <= k < i && (#[trigger] r.children[k]).name == "content"@,
        decreases n - i,
    {
        let child = &root.children[i];
        let ghost c = child@;
        let ghost req_before = required@;
        let ghost inc_before = incompatible@;
        let ghost pro_before = provided@;
        let ghost added_req: Set<Seq<char>>;
        let ghost added_inc: Set<Seq<char>>;
        let ghost added_pro: Set<Seq<char>>;
        proof {
            lemma_descriptor_words();
        }
        if str_eq(child.name.as_str(), "depends") {
            let value = match &child.text {
                Some(t) => t.clone(),
                None => String::new(),
            };
            let optional = attribute_of(child, "optional");
            proof {
                reveal_strlit("");
            }
            if !value.as_str().is_empty() && !opt_is(&optional, "true") {
                required.insert(value);
            }
        } else if str_eq(child.name.as_str(), "dependencies") {
            required_modules(child, &mut required);
        } else if str_eq(child.name.as_str(), "incompatible-with") {
            match &child.text {
                Some(t) => {
                    incompatible.insert(t.clone());
                },
                None => {},
            }
        } else if str_eq(child.name.as_str(), "module") {
            match attribute_of(child, "value") {
                Some(v) => {
                    provided.insert(v);
                },
                None => {},
            }
        } else if str_eq(child.name.as_str(), "content") {
            modular = true;
            content_modules(child, &mut provided);
        }
        proof {
            let ni = i + 1;
            let rq = |c: ElementView, v: Seq<char>| requires_value(c, v);
            let ic = |c: ElementView, v: Seq<char>| declares_incompatible(c, v);
            let pv = |c: ElementView, v: Seq<char>| provides_value(c, v);
            assert forall|v: Seq<char>| #[trigger] required@.contains(v) == declared(r, ni as int, rq).contains(v) by {
                if declared(r, ni as int, rq).contains(v) {
                    let k = choose|k: int| 0 <= k < ni && k < r.children.len() && #[trigger] rq(r.children[k], v);
                    if k < i {
                        assert(declared(r, i as int, rq).contains(v));
                    }
                }
                if req_before.contains(v) {
                    let k = choose|k: int| 0 <= k < i && k < r.children.len() && #[trigger] rq(r.children[k], v);
                    assert(0 <= k < ni && k < r.children.len() && rq(r.children[k], v));
                }
                if required@.contains(v) && !req_before.contains(v) {
                    assert(rq(r.children[i as int], v));
                }
            }
            assert(required@ =~= declared(r, ni as int, rq));
            assert forall|v: Seq<char>| #[trigger] incompatible@.contains(v) == declared(r, ni as int, ic).contains(v) by {
                if declared(r, ni as int, ic).contains(v) {
                    let k = choose|k: int| 0 <= k < ni && k < r.children.len() && #[trigger] ic(r.children[k], v);
                    if k < i {
                        assert(declared(r, i as int, ic).contains(v));
                    }
                }
                if inc_before.contains(v) {
                    let k = choose|k: int| 0 <= k < i && k < r.children.len() && #[trigger] ic(r.children[k], v);
                    assert(0 <= k < ni && k < r.children.len() && ic(r.children[k], v));
                }
                if incompatible@.contains(v) && !inc_before.contains(v) {
                    assert(ic(r.children[i as int], v));
                }
            }
            assert(incompatible@ =~= declared(r, ni as int, ic));
            assert forall|v: Seq<char>| #[trigger] provided@.contains(v) == declared(r, ni as int, pv).contains(v) by {
                if declared(r, ni as int, pv).contains(v) {
                    let k = choose|k: int| 0 <= k < ni && k < r.children.len() && #[trigger] pv(r.children[k], v);
                    if k < i {
                        assert(declared(r, i as int, pv).contains(v));
                    }
                }
                if pro_before.contains(v) {
                    let k = choose|k: int| 0 <= k < i && k < r.children.len() && #[trigger] pv(r.children[k], v);
                    assert(0 <= k < ni && k < r.children.len() && pv(r.children[k], v));
                }
                if provided@.contains(v) && !pro_before.contains(v) {
                    assert(pv(r.children[i as int], v));
                }
            }
            assert(provided@ =~= declared(r, ni as int, pv));
        }
        i = i + 1;
    }
    let idea_version = first_named_exec(root, "idea-version");
    let since_build = match idea_version {
        Some(k) => match attribute_of(&root.children[k], "since-build") {
            Some(v) => v,
            None => String::new(),
        },
        None => String::new(),
    };
    let until_build = match idea_version {
        Some(k) => match attribute_of(&root.children[k], "until-build") {
            Some(v) => v,
            None => String::new(),
        },
        None => String::new(),
    };
    let by_id = child_text(root, "id");
    let by_name = child_text(root, "name");
    let id = if !by_id.as_str().is_empty() {
        by_id
    } else if !by_name.as_str().is_empty() {
        by_name.clone()
    } else {
        fallback_id.to_owned()
    };
    let name = if !by_name.as_str().is_empty() {
        by_name
    } else {
        id.clone()
    };
    let p = Plugin {
        id,
        name,
        version: child_text(root, "version"),
        since_build,
        until_build,
        required_dependencies: required.to_vec(),
        incompatible_with: incompatible.to_vec(),
        provided_modules: provided.to_vec(),
        modular,
        source_products: Vec::new(),
    };
    proof {
        reveal_strlit("");
        assert(views(p.source_products@) =~= Seq::<Seq<char>>::empty());
    }
    p
}

/// Reads a plugin descriptor. `None` when the text is not a document; what
/// the parsed tree holds is the XML reader's business, and the plugin is what
/// that tree says of itself.
pub fn parse_descriptor(contents: &str, fallback_id: &str) -> (r: Option<Plugin>)
    ensures
        r is Some == xml_accepts(contents@),
        r matches Some(p) ==> plugin_view(p) == descriptor_spec(parsed_document(contents@), fallback_id@),
{
    match parse(contents) {
        Ok(root) => {
            let p = descriptor_of(&root, fallback_id);
            Some(p)
        },
        Err(_) => None,
    }
}


/// The id a line of `bundled_plugins.txt` names: the part before any `|`,
/// trimmed.
pub open spec fn bundled_line(line: Seq<char>) -> Seq<char> {
    trim(
        match before_char(line, '|') {
            Some(p) => p,
            None => line,
        },
    )
}

/// The ids `bundled_plugins.txt` lists, one per non-blank line.
pub open spec fn listed_bundled(text: Seq<char>) -> Set<Seq<char>> {
    Set::new(|id: Seq<char>| exists|i: int| 0 <= i < split_on(text, '\n').len()
        && trim(#[trigger] split_on(text, '\n')[i]).len() > 0 && bundled_line(split_on(text, '\n')[i]) == id)
}

/// The bundled plugins an IDE's installation metadata names.
pub open spec fn metadata_bundled(ide: Ide) -> Set<Seq<char>> {
    match ide.metadata {
        Some(m) => views(m.bundled_plugins@).to_set(),
        None => Set::empty(),
    }
}

/// The platform modules an IDE's installation metadata names.
pub open spec fn platform_modules(ide: Ide) -> Set<Seq<char>> {
    match ide.metadata {
        Some(m) => views(m.modules@).to_set(),
        None => Set::empty(),
    }
}

/// Plugin ids shipped with the product: those its installation metadata
/// names and those its `bundled_plugins.txt` lists.
pub open spec fn bundled_spec(ide: Ide) -> Set<Seq<char>> {
    let from_metadata = metadata_bundled(ide);
    match ide.bundled_plugins_txt {
        Some(t) => from_metadata.union(listed_bundled(t@)),
        None => from_metadata,
    }
}

/// Plugin ids shipped with the product, which must never be installed again.
pub fn bundled_ids(ide: &Ide) -> (r: StrSet)
    ensures
        r@ == bundled_spec(*ide),
{
    let mut found = StrSet::new();
    match &ide.metadata {
        Some(m) => {
            found.extend(m.bundled_plugins.as_slice());
        },
        None => {},
    }
    proof {
        assert(found@ =~= metadata_bundled(*ide));
    }
    match &ide.bundled_plugins_txt {
        Some(text) => {
            let lines = split_str(text.as_str(), '\n');
            let ghost start = found@;
            let ghost ls = split_on(text@, '\n');
            let mut i: usize = 0;
            while i < lines.len()
                invariant
                    i <= lines@.len(),
                    views(lines@) == ls,
                    ls == split_on(text@, '\n'),
                    found@ == start.union(Set::new(|id: Seq<char>| exists|k: int| 0 <= k < i
                        && trim(#[trigger] ls[k]).len() > 0 && bundled_line(ls[k]) == id)),
                decreases lines@.len() - i,
            {
                let line = lines[i].as_str();
                let trimmed = trim_str(line);
                let ghost before = found@;
                proof {
                    assert(ls[i as int] == line@);
                }
                if !trimmed.as_str().is_empty() {
                    let head = before_or_all(line, '|');
                    let id = trim_str(head.as_str());
                    found.insert(id);
                }
                proof {
                    let next = start.union(Set::new(|id: Seq<char>| exists|k: int| 0 <= k < i + 1
                        && trim(#[trigger] ls[k]).len() > 0 && bundled_line(ls[k]) == id));
                    assert forall|v: Seq<char>| #[trigger] found@.contains(v) == next.contains(v) by {
                        if before.contains(v) && !start.contains(v) {
                            let k = choose|k: int| 0 <= k < i && trim(#[trigger] ls[k]).len() > 0 && bundled_line(ls[k]) == v;
                            assert(0 <= k < i + 1 && trim(ls[k]).len() > 0 && bundled_line(ls[k]) == v);
                        }
                        if found@.contains(v) && !before.contains(v) {
                            assert(trim(ls[i as int]).len() > 0 && bundled_line(ls[i as int]) == v);
                        }
                        if next.contains(v) && !start.contains(v) {
                            let k = choose|k: int| 0 <= k < i + 1 && trim(#[trigger] ls[k]).len() > 0 && bundled_line(ls[k]) == v;
                            if k < i {
                                assert(before.contains(v));
                            }
                        }
                    }
                    assert(found@ =~= next);
                }
                i = i + 1;
            }
            proof {
                assert(found@ =~= start.union(listed_bundled(text@)));
            }
        },
        None => {},
    }
    found
}

/// Whether `pattern` names an IDE, by directory or by product.
pub open spec fn targets(pattern: Seq<char>, ide: Ide) -> bool {
    glob_hit(pattern, ide.directory@) || glob_hit(pattern, ide.product@)
}

/// An IDE's names and the rules' patterns hold no backslash.
pub open spec fn ide_plain(ide: Ide) -> bool {
    !ide.directory@.contains('\\') && !ide.product@.contains('\\')
}

/// Whether a rule's IDE pattern names `ide`.
fn targets_ide(pattern: &str, ide: &Ide) -> (b: bool)
    ensures
        ide_plain(*ide) && !pattern@.contains('\\') ==> b == targets(pattern@, *ide),
{
    glob_matches(pattern, ide.directory.as_str()) || glob_matches(pattern, ide.product.as_str())
}

/// Capability rules whose IDE patterns hold no backslash.
pub open spec fn capabilities_plain(rules: Seq<PluginCapability>) -> bool {
    forall|i: int| 0 <= i < rules.len() ==> !(#[trigger] rules[i]).ide@.contains('\\')
}

/// What the capability rules leave of `s`: each rule naming the IDE adds its
/// `add` entries, then takes away its `remove` entries, in order.
pub open spec fn capability_fold(s: Set<Seq<char>>, rules: Seq<PluginCapability>, ide: Ide, with_additions: bool) -> Set<
    Seq<char>,
>
    decreases rules.len(),
{
    if rules.len() == 0 {
        s
    } else {
        let before = capability_fold(s, rules.drop_last(), ide, with_additions);
        let r = rules.last();
        if targets(r.ide@, ide) {
            (if with_additions {
                before.union(views(r.add@).to_set())
            } else {
                before
            }).difference(views(r.remove@).to_set())
        } else {
            before
        }
    }
}

fn apply_capabilities(found: &mut StrSet, rules: &[PluginCapability], ide: &Ide, with_additions: bool)
    ensures
        ide_plain(*ide) && capabilities_plain(rules@) ==> final(found)@ == capability_fold(
            old(found)@,
            rules@,
            *ide,
            with_additions,
        ),
{
    let ghost start = found@;
    let ghost plain = ide_plain(*ide) && capabilities_plain(rules@);
    let mut i: usize = 0;
    while i < rules.len()
        invariant
            i <= rules@.len(),
            plain == (ide_plain(*ide) && capabilities_plain(rules@)),
            plain ==> found@ == capability_fold(start, rules@.take(i as int), *ide, with_additions),
        decreases rules@.len() - i,
    {
        let rule = &rules[i];
        proof {
            assert(rules@.take(i + 1 as int).drop_last() =~= rules@.take(i as int));
            assert(rules@.take(i + 1 as int).last() == *rule);
        }
        if targets_ide(rule.ide.as_str(), ide) {
            let ghost before = found@;
            if with_additions {
                found.extend(rule.add.as_slice());
            }
            let ghost added = found@;
            let mut j: usize = 0;
            while j < rule.remove.len()
                invariant
                    j <= rule.remove@.len(),
                    found@ == added.difference(views(rule.remove@).take(j as int).to_set()),
                decreases rule.remove@.len() - j,
            {
                found.remove(rule.remove[j].as_str());
                proof {
                    assert(views(rule.remove@).take(j + 1 as int) =~= views(rule.remove@).take(j as int).push(rule.remove@[j as int]@));
                    views(rule.remove@).take(j as int).lemma_push_to_set_commute(rule.remove@[j as int]@);
                    assert(found@ =~= added.difference(views(rule.remove@).take(j + 1 as int).to_set()));
                }
                j = j + 1;
            }
            proof {
                assert(views(rule.remove@).take(j as int) =~= views(rule.remove@));
            }
        }
        i = i + 1;
    }
    proof {
        assert(rules@.take(i as int) =~= rules@);
    }
}

/// Bundled ids after `plugins.capability` removals, which is what decides
/// whether an install is needed. Deliberately narrower than
/// [`capabilities`]: a platform module, a module another plugin provides or
/// a configured addition does not mean the plugin itself is present.
pub open spec fn bundled_here_spec(ide: Ide, config: PluginsConfig) -> Set<Seq<char>> {
    capability_fold(bundled_spec(ide), config.capability@, ide, false)
}

fn bundled_here(ide: &Ide, config: &PluginsConfig) -> (r: StrSet)
    ensures
        ide_plain(*ide) && capabilities_plain(config.capability@) ==> r@ == bundled_here_spec(*ide, *config),
{
    let mut found = bundled_ids(ide);
    apply_capabilities(&mut found, config.capability.as_slice(), ide, false);
    found
}

/// The ids and provided modules of `installed`.
pub open spec fn installed_capabilities(installed: Seq<PluginView>) -> Set<Seq<char>> {
    Set::new(|x: Seq<char>| exists|i: int| 0 <= i < installed.len() && ((#[trigger] installed[i]).id == x
        || installed[i].provided_modules.contains(x)))
}

/// Everything an IDE can satisfy a dependency with: platform modules,
/// bundled plugins and what is installed, then the capability rules.
pub open spec fn capabilities_spec(ide: Ide, installed: Seq<PluginView>, config: PluginsConfig) -> Set<Seq<char>> {
    capability_fold(
        platform_modules(ide).union(bundled_spec(ide)).union(installed_capabilities(installed)),
        config.capability@,
        ide,
        true,
    )
}

/// Everything this IDE can satisfy a dependency with: platform modules,
/// bundled plugins, and whatever is already installed.
pub fn capabilities(ide: &Ide, installed_plugins: &[Plugin], config: &PluginsConfig) -> (r: StrSet)
    ensures
        ide_plain(*ide) && capabilities_plain(config.capability@) ==> r@ == capabilities_spec(
            *ide,
            plugin_views(installed_plugins@),
            *config,
        ),
{
    let mut found = StrSet::new();
    match &ide.metadata {
        Some(m) => {
            found.extend(m.modules.as_slice());
        },
        None => {},
    }
    let bundled = bundled_ids(ide);
    let listed = bundled.to_vec();
    proof {
        bundled.lemma_finite();
        lemma_sorted_key_list(bundled@);
    }
    found.extend(listed.as_slice());
    let ghost base = found@;
    let ghost pv = plugin_views(installed_plugins@);
    let mut i: usize = 0;
    while i < installed_plugins.len()
        invariant
            i <= installed_plugins@.len(),
            pv == plugin_views(installed_plugins@),
            found@ == base.union(installed_capabilities(pv.take(i as int))),
        decreases installed_plugins@.len() - i,
    {
        let ghost before = found@;
        let plugin = &installed_plugins[i];
        found.insert(plugin.id.clone());
        found.extend(plugin.provided_modules.as_slice());
        proof {
            let prev = pv.take(i as int);
            let next = pv.take(i + 1 as int);
            assert(next[i as int] == plugin_view(*plugin));
            assert forall|x: Seq<char>| #[trigger] installed_capabilities(next).contains(x) == (installed_capabilities(prev).contains(x)
                || x == plugin.id@ || views(plugin.provided_modules@).contains(x)) by {
                if installed_capabilities(next).contains(x) {
                    let k = choose|k: int| 0 <= k < next.len() && ((#[trigger] next[k]).id == x || next[k].provided_modules.contains(x));
                    if k < i {
                        assert(prev[k] == next[k]);
                        assert(installed_capabilities(prev).contains(x));
                    }
                }
                if installed_capabilities(prev).contains(x) {
                    let k = choose|k: int| 0 <= k < prev.len() && ((#[trigger] prev[k]).id == x || prev[k].provided_modules.contains(x));
                    assert(next[k] == prev[k]);
                }
            }
            assert forall|x: Seq<char>| #[trigger] found@.contains(x) == base.union(installed_capabilities(next)).contains(x) by {
                assert(views(plugin.provided_modules@).contains(x) == views(plugin.provided_modules@).to_set().contains(x));
            }
            assert(found@ =~= base.union(installed_capabilities(next)));
        }
        i = i + 1;
    }
    proof {
        assert(pv.take(i as int) =~= pv);
        assert(base =~= platform_modules(*ide).union(bundled_spec(*ide)));
    }
    apply_capabilities(&mut found, config.capability.as_slice(), ide, true);
    found
}


/// A parse result, by value.
pub open spec fn parsed_view(o: Option<Plugin>) -> Option<PluginView> {
    match o {
        Some(p) => Some(plugin_view(p)),
        None => None,
    }
}

pub open spec fn plugin_views(v: Seq<Plugin>) -> Seq<PluginView> {
    v.map_values(|p: Plugin| plugin_view(p))
}

/// `parsed` is what reading each descriptor can give: a plugin exactly when
/// the text is a document, and then what some tree says of itself.
pub open spec fn read_as(descriptors: Seq<(String, String)>, parsed: Seq<Option<PluginView>>) -> bool {
    &&& parsed.len() == descriptors.len()
    &&& forall|i: int| 0 <= i < parsed.len() ==> ((#[trigger] parsed[i]) is Some) == xml_accepts(descriptors[i].1@)
    &&& forall|i: int| 0 <= i < parsed.len() ==> ((#[trigger] parsed[i]) matches Some(p) ==> p == descriptor_spec(
        parsed_document(descriptors[i].1@),
        descriptors[i].0@,
    ))
}

fn read_descriptors(ide: &Ide) -> (r: Vec<Option<Plugin>>)
    ensures
        read_as(ide.plugin_descriptors@, r@.map_values(|o: Option<Plugin>| parsed_view(o))),
{
    let ghost ds = ide.plugin_descriptors@;
    let mut r: Vec<Option<Plugin>> = Vec::new();
    let mut i: usize = 0;
    while i < ide.plugin_descriptors.len()
        invariant
            i <= ds.len(),
            ds == ide.plugin_descriptors@,
            r@.len() == i,
            forall|k: int| 0 <= k < i ==> ((#[trigger] r@[k]) is Some) == xml_accepts(ds[k].1@),
            forall|k: int| 0 <= k < i ==> ((#[trigger] r@[k]) matches Some(p) ==> plugin_view(p) == descriptor_spec(
                parsed_document(ds[k].1@),
                ds[k].0@,
            )),
        decreases ds.len() - i,
    {
        let (directory, text) = (&ide.plugin_descriptors[i].0, &ide.plugin_descriptors[i].1);
        let parsed = parse_descriptor(text.as_str(), directory.as_str());
        r.push(parsed);
        i = i + 1;
    }
    proof {
        let pv = r@.map_values(|o: Option<Plugin>| parsed_view(o));
        assert forall|k: int| 0 <= k < pv.len() implies ((#[trigger] pv[k]) is Some) == xml_accepts(ds[k].1@) by {
            assert(pv[k] == parsed_view(r@[k]));
        }
        assert forall|k: int| 0 <= k < pv.len() implies ((#[trigger] pv[k]) matches Some(p) ==> p == descriptor_spec(
            parsed_document(ds[k].1@),
            ds[k].0@,
        )) by {
            assert(pv[k] == parsed_view(r@[k]));
        }
    }
    r
}

/// The plugins a directory listing contributes, in order: every parsed
/// descriptor, less the bundled ones unless they are wanted, each marked as
/// seen in `product`.
pub open spec fn candidates(parsed: Seq<Option<PluginView>>, bundled: Set<Seq<char>>, include_bundled: bool, product: Seq<char>) -> Seq<
    PluginView,
>
    decreases parsed.len(),
{
    if parsed.len() == 0 {
        Seq::empty()
    } else {
        let rest = candidates(parsed.drop_last(), bundled, include_bundled, product);
        match parsed.last() {
            Some(p) => if include_bundled || !bundled.contains(p.id) {
                rest.push(PluginView { source_products: seq![product], ..p })
            } else {
                rest
            },
            None => rest,
        }
    }
}

/// A plugin with nothing said.
pub open spec fn no_plugin() -> PluginView {
    PluginView {
        id: Seq::empty(),
        name: Seq::empty(),
        version: Seq::empty(),
        since_build: Seq::empty(),
        until_build: Seq::empty(),
        required_dependencies: Seq::empty(),
        incompatible_with: Seq::empty(),
        provided_modules: Seq::empty(),
        modular: false,
        source_products: Seq::empty(),
    }
}

/// The last of `ps` with `id`.
pub open spec fn last_with_id(ps: Seq<PluginView>, id: Seq<char>) -> PluginView
    decreases ps.len(),
{
    if ps.len() == 0 {
        no_plugin()
    } else if ps.last().id == id {
        ps.last()
    } else {
        last_with_id(ps.drop_last(), id)
    }
}

/// The ids of `ps`.
pub open spec fn view_ids(ps: Seq<PluginView>) -> Set<Seq<char>> {
    Set::new(|id: Seq<char>| exists|i: int| 0 <= i < ps.len() && (#[trigger] ps[i]).id == id)
}

/// One plugin per id, in id order, a later one replacing an earlier.
pub open spec fn by_id(ps: Seq<PluginView>) -> Seq<PluginView> {
    sorted_key_list(view_ids(ps)).map_values(|id: Seq<char>| last_with_id(ps, id))
}

/// Third-party plugins installed into an IDE, given its parsed descriptors.
pub open spec fn installed_spec(parsed: Seq<Option<PluginView>>, bundled: Set<Seq<char>>, include_bundled: bool, product: Seq<char>) -> Seq<
    PluginView,
> {
    by_id(candidates(parsed, bundled, include_bundled, product))
}

pub(crate) fn last_index(ps: &Vec<Plugin>, id: &str) -> (r: usize)
    requires
        exists|k: int| 0 <= k < ps@.len() && (#[trigger] ps@[k]).id@ == id@,
    ensures
        r < ps@.len(),
        plugin_view(ps@[r as int]) == last_with_id(plugin_views(ps@), id@),
{
    let ghost pv = plugin_views(ps@);
    let mut j: usize = ps.len();
    proof {
        assert(pv.take(j as int) =~= pv);
    }
    while j > 0
        invariant
            j <= ps@.len(),
            pv == plugin_views(ps@),
            last_with_id(pv, id@) == last_with_id(pv.take(j as int), id@),
            exists|k: int| 0 <= k < j && (#[trigger] ps@[k]).id@ == id@,
        decreases j,
    {
        proof {
            assert(pv.take(j as int).last() == plugin_view(ps@[j - 1]));
            assert(pv.take(j as int).drop_last() =~= pv.take(j - 1));
        }
        if str_eq(ps[j - 1].id.as_str(), id) {
            return j - 1;
        }
        j = j - 1;
    }
    proof {
        let k = choose|k: int| 0 <= k < j && (#[trigger] ps@[k]).id@ == id@;
    }
    0
}

fn installed_from(ide: &Ide, parsed: &Vec<Option<Plugin>>, include_bundled: bool) -> (r: Vec<Plugin>)
    ensures
        plugin_views(r@) == installed_spec(
            parsed@.map_values(|o: Option<Plugin>| parsed_view(o)),
            bundled_spec(*ide),
            include_bundled,
            ide.product@,
        ),
{
    let ghost pv = parsed@.map_values(|o: Option<Plugin>| parsed_view(o));
    let bundled = bundled_ids(ide);
    let mut cands: Vec<Plugin> = Vec::new();
    let mut i: usize = 0;
    while i < parsed.len()
        invariant
            i <= parsed@.len(),
            pv == parsed@.map_values(|o: Option<Plugin>| parsed_view(o)),
            bundled@ == bundled_spec(*ide),
            plugin_views(cands@) == candidates(pv.take(i as int), bundled_spec(*ide), include_bundled, ide.product@),
        decreases parsed@.len() - i,
    {
        proof {
            assert(pv.take(i + 1 as int).drop_last() =~= pv.take(i as int));
            assert(pv.take(i + 1 as int).last() == parsed_view(parsed@[i as int]));
        }
        match &parsed[i] {
            Some(p) => {
                if include_bundled || !bundled.contains(p.id.as_str()) {
                    let mut c = p.copy();
                    let mut products: Vec<String> = Vec::new();
                    products.push(ide.product.clone());
                    c.source_products = products;
                    let ghost prev = cands@;
                    cands.push(c);
                    proof {
                        assert(views(c.source_products@) =~= seq![ide.product@]);
                        assert(plugin_views(cands@) =~= plugin_views(prev).push(plugin_view(c)));
                    }
                }
            },
            None => {},
        }
        i = i + 1;
    }
    proof {
        assert(pv.take(i as int) =~= pv);
    }
    let ghost cv = plugin_views(cands@);
    let mut ids = StrSet::new();
    let mut k: usize = 0;
    while k < cands.len()
        invariant
            k <= cands@.len(),
            cv == plugin_views(cands@),
            ids@ == view_ids(cv.take(k as int)),
        decreases cands@.len() - k,
    {
        let ghost before = ids@;
        ids.insert(cands[k].id.clone());
        proof {
            let prev = cv.take(k as int);
            let next = cv.take(k + 1 as int);
            assert forall|x: Seq<char>| #[trigger] ids@.contains(x) == view_ids(next).contains(x) by {
                if view_ids(next).contains(x) {
                    let m = choose|m: int| 0 <= m < next.len() && (#[trigger] next[m]).id == x;
                    if m < k {
                        assert(prev[m] == next[m]);
                    }
                }
                if before.contains(x) {
                    let m = choose|m: int| 0 <= m < prev.len() && (#[trigger] prev[m]).id == x;
                    assert(next[m] == prev[m]);
                }
                if x == cands@[k as int].id@ {
                    assert(next[k as int] == plugin_view(cands@[k as int]));
                }
            }
            assert(ids@ =~= view_ids(next));
        }
        k = k + 1;
    }
    proof {
        assert(cv.take(k as int) =~= cv);
    }
    let sorted = ids.to_vec();
    let ghost order = views(sorted@);
    proof {
        ids.lemma_finite();
        lemma_sorted_key_list(ids@);
    }
    let mut r: Vec<Plugin> = Vec::new();
    let mut m: usize = 0;
    while m < sorted.len()
        invariant
            m <= sorted@.len(),
            order == views(sorted@),
            order == sorted_key_list(view_ids(cv)),
            order.to_set() == view_ids(cv),
            cv == plugin_views(cands@),
            plugin_views(r@) == order.take(m as int).map_values(|id: Seq<char>| last_with_id(cv, id)),
        decreases sorted@.len() - m,
    {
        proof {
            assert(order.to_set().contains(order[m as int]));
            let w = choose|w: int| 0 <= w < cv.len() && (#[trigger] cv[w]).id == order[m as int];
            assert(cands@[w].id@ == sorted@[m as int]@);
        }
        let at = last_index(&cands, sorted[m].as_str());
        let c = cands[at].copy();
        let ghost prev = r@;
        r.push(c);
        proof {
            assert(plugin_views(r@) =~= plugin_views(prev).push(plugin_view(c)));
            assert(order.take(m + 1 as int).map_values(|id: Seq<char>| last_with_id(cv, id)) =~= order.take(
                m as int,
            ).map_values(|id: Seq<char>| last_with_id(cv, id)).push(last_with_id(cv, order[m as int])));
        }
        m = m + 1;
    }
    proof {
        assert(order.take(m as int) =~= order);
    }
    r
}

/// Third-party plugins installed into this IDE, in id order; with
/// `include_bundled`, bundled ones too.
pub fn installed(ide: &Ide, include_bundled: bool) -> (r: Vec<Plugin>)
    ensures
        exists|parsed: Seq<Option<PluginView>>| read_as(ide.plugin_descriptors@, parsed) && plugin_views(r@)
            == installed_spec(parsed, bundled_spec(*ide), include_bundled, ide.product@),
{
    let parsed = read_descriptors(ide);
    let r = installed_from(ide, &parsed, include_bundled);
    proof {
        let pv = parsed@.map_values(|o: Option<Plugin>| parsed_view(o));
        assert(read_as(ide.plugin_descriptors@, pv) && plugin_views(r@) == installed_spec(pv, bundled_spec(*ide), include_bundled, ide.product@));
    }
    r
}


/// Lexicographic order on digit runs, the order of `Vec<u64>`.
pub open spec fn runs_lt(a: Seq<u64>, b: Seq<u64>) -> bool
    decreases a.len(),
{
    if a.len() == 0 {
        b.len() > 0
    } else if b.len() == 0 {
        false
    } else if a[0] != b[0] {
        a[0] < b[0]
    } else {
        runs_lt(a.drop_first(), b.drop_first())
    }
}

pub(crate) fn runs_less(a: &[u64], b: &[u64]) -> (r: bool)
    ensures
        r == runs_lt(a@, b@),
{
    let mut i: usize = 0;
    proof {
        assert(a@.skip(0) =~= a@);
        assert(b@.skip(0) =~= b@);
    }
    while i < a.len() && i < b.len() && a[i] == b[i]
        invariant
            i <= a@.len(),
            i <= b@.len(),
            runs_lt(a@, b@) == runs_lt(a@.skip(i as int), b@.skip(i as int)),
        decreases a@.len() - i,
    {
        proof {
            assert(a@.skip(i as int).drop_first() =~= a@.skip(i + 1));
            assert(b@.skip(i as int).drop_first() =~= b@.skip(i + 1));
        }
        i = i + 1;
    }
    if i == a.len() {
        i < b.len()
    } else if i == b.len() {
        false
    } else {
        a[i] < b[i]
    }
}

/// Why an IDE build falls outside a plugin's declared range, or `None` when
/// it is inside. `until` may end in `.*`, matching every build with that
/// prefix.
pub open spec fn build_verdict(target: Seq<char>, since: Seq<char>, until: Seq<char>) -> Option<Seq<char>> {
    let t = digit_runs_spec(target);
    if since.len() > 0 && runs_lt(t, digit_runs_spec(since)) {
        Some("needs build "@ + since + "+"@)
    } else if until.len() == 0 {
        None
    } else if has_suffix(until, ".*"@) {
        let prefix = digit_runs_spec(until.take(until.len() - 2));
        if t.len() < prefix.len() || t.take(prefix.len() as int) != prefix {
            Some("ends at build "@ + until)
        } else {
            None
        }
    } else if runs_lt(digit_runs_spec(until), t) {
        Some("ends at build "@ + until)
    } else {
        None
    }
}

fn runs_start_with(a: &[u64], b: &[u64]) -> (r: bool)
    requires
        b@.len() <= a@.len(),
    ensures
        r == (a@.take(b@.len() as int) == b@),
{
    let mut i: usize = 0;
    while i < b.len()
        invariant
            i <= b@.len() <= a@.len(),
            forall|k: int| 0 <= k < i ==> a@[k] == b@[k],
        decreases b@.len() - i,
    {
        if a[i] != b[i] {
            proof {
                assert(a@.take(b@.len() as int)[i as int] != b@[i as int]);
            }
            return false;
        }
        i = i + 1;
    }
    proof {
        assert(a@.take(b@.len() as int) =~= b@);
    }
    true
}

/// Compares an IDE build against a plugin's declared range.
pub fn build_is_compatible(target: &str, since: &str, until: &str) -> (r: Result<(), String>)
    ensures
        r is Ok <==> build_verdict(target@, since@, until@) is None,
        r matches Err(reason) ==> build_verdict(target@, since@, until@) == Some(reason@),
{
    let target_value = digit_runs(target);
    if !since.is_empty() {
        let floor = digit_runs(since);
        if runs_less(target_value.as_slice(), floor.as_slice()) {
            let mut reason = concat("needs build ", since);
            reason.append("+");
            return Err(reason);
        }
    }
    if until.is_empty() {
        return Ok(());
    }
    match strip_suffix(until, ".*") {
        Some(prefix) => {
            let prefix = digit_runs(prefix.as_str());
            proof {
                reveal_strlit(".*");
            }
            let n = prefix.len();
            if target_value.len() < n || !runs_start_with(target_value.as_slice(), prefix.as_slice()) {
                return Err(concat("ends at build ", until));
            }
        },
        None => {
            let ceiling = digit_runs(until);
            if runs_less(ceiling.as_slice(), target_value.as_slice()) {
                return Err(concat("ends at build ", until));
            }
        },
    }
    Ok(())
}

#[derive(Debug, Clone, PartialEq, Eq)]
pub struct Verdict {
    pub compatible: bool,
    pub reason: String,
}

/// `s` with ASCII capitals made small.
pub open spec fn ascii_lower(s: Seq<char>) -> Seq<char> {
    s.map_values(|c: char| if 'A' <= c <= 'Z' {
        ((c as u32) + 32) as char
    } else {
        c
    })
}

/// `str::to_ascii_lowercase`, which maps `A` to `Z` onto `a` to `z` and
/// leaves every other character as it is.
#[verifier::external_body]
fn to_ascii_lowercase(s: &str) -> (r: String)
    ensures
        r@ == ascii_lower(s@),
{
    s.to_ascii_lowercase()
}

/// The entries of `items` that are (with `member`) or are not members of
/// `set`, in order.
pub open spec fn select(items: Seq<Seq<char>>, set: Set<Seq<char>>, member: bool) -> Seq<Seq<char>>
    decreases items.len(),
{
    if items.len() == 0 {
        Seq::empty()
    } else {
        let rest = select(items.drop_last(), set, member);
        if set.contains(items.last()) == member {
            rest.push(items.last())
        } else {
            rest
        }
    }
}

fn select_in(items: &[String], set: &StrSet, also: &StrSet, member: bool) -> (r: Vec<String>)
    ensures
        views(r@) == select(views(items@), set@.union(also@), member),
{
    let ghost all = views(items@);
    let mut r: Vec<String> = Vec::new();
    let mut i: usize = 0;
    while i < items.len()
        invariant
            i <= items@.len(),
            all == views(items@),
            views(r@) == select(all.take(i as int), set@.union(also@), member),
        decreases items@.len() - i,
    {
        proof {
            assert(all.take(i + 1 as int).drop_last() =~= all.take(i as int));
            assert(all.take(i + 1 as int).last() == items@[i as int]@);
        }
        let x = items[i].as_str();
        let inside = set.contains(x) || also.contains(x);
        if inside == member {
            let ghost prev = r@;
            r.push(items[i].clone());
            proof {
                assert(views(r@) =~= views(prev).push(x@));
            }
        }
        i = i + 1;
    }
    proof {
        assert(all.take(i as int) =~= all);
    }
    r
}

/// The build an IDE reports, or nothing.
pub open spec fn build_of(ide: Ide) -> Seq<char> {
    match ide.metadata {
        Some(m) => m.build_number@,
        None => Seq::empty(),
    }
}

/// Whether a plugin can be installed into an IDE, and why: the build range
/// first, then declared incompatibilities, then required modules; a plugin
/// declaring no dependency at all is trusted only where it was seen working.
pub open spec fn evaluate_spec(p: PluginView, ide: Ide, capabilities: Set<Seq<char>>, managed: Set<Seq<char>>) -> (bool, Seq<char>) {
    let blocked = select(p.incompatible_with, capabilities, true);
    let missing = select(p.required_dependencies, capabilities.union(managed), false);
    match build_verdict(build_of(ide), p.since_build, p.until_build) {
        Some(reason) => (false, reason),
        None => if blocked.len() > 0 {
            (false, "declares incompatibility with "@ + join_with(blocked, ", "@))
        } else if missing.len() > 0 {
            (false, "missing required "@ + join_with(missing, ", "@))
        } else if p.required_dependencies.len() > 0 || p.modular {
            (true, "required modules are available"@)
        } else if p.source_products.contains(ide.product@) {
            (true, "already present in this product"@)
        } else {
            (false, "descriptor declares no product dependency"@)
        },
    }
}

fn evaluate(plugin: &Plugin, ide: &Ide, capabilities: &StrSet, managed: &StrSet) -> (v: Verdict)
    ensures
        (v.compatible, v.reason@) == evaluate_spec(plugin_view(*plugin), *ide, capabilities@, managed@),
{
    let target_build = match &ide.metadata {
        Some(m) => m.build_number.clone(),
        None => String::new(),
    };
    proof {
        reveal_strlit("");
    }
    match build_is_compatible(target_build.as_str(), plugin.since_build.as_str(), plugin.until_build.as_str()) {
        Err(reason) => {
            return Verdict { compatible: false, reason };
        },
        Ok(()) => {},
    }
    let nothing = StrSet::new();
    let blocked = select_in(plugin.incompatible_with.as_slice(), capabilities, &nothing, true);
    proof {
        assert(capabilities@.union(nothing@) =~= capabilities@);
    }
    if blocked.len() > 0 {
        let mut reason = String::new();
        reason.append("declares incompatibility with ");
        let listed = join_strings(blocked.as_slice(), ", ");
        reason.append(listed.as_str());
        proof {
            reveal_strlit("");
        }
        return Verdict { compatible: false, reason };
    }
    let missing = select_in(plugin.required_dependencies.as_slice(), capabilities, managed, false);
    if missing.len() > 0 {
        let mut reason = String::new();
        reason.append("missing required ");
        let listed = join_strings(missing.as_slice(), ", ");
        reason.append(listed.as_str());
        proof {
            reveal_strlit("");
        }
        return Verdict { compatible: false, reason };
    }
    if plugin.required_dependencies.len() > 0 || plugin.modular {
        return Verdict { compatible: true, reason: "required modules are available".to_owned() };
    }
    if crate::text::contains_str(&plugin.source_products, ide.product.as_str()) {
        Verdict { compatible: true, reason: "already present in this product".to_owned() }
    } else {
        Verdict { compatible: false, reason: "descriptor declares no product dependency".to_owned() }
    }
}

/// What the manual rules say of a plugin in an IDE, taken in order, the last
/// that speaks winning: `only` speaks for every IDE (yes where it names the
/// IDE, no elsewhere), `allow` and `deny` only where they name it.
pub open spec fn manual_verdict(rules: Seq<PluginRule>, p: PluginView, ide: Ide) -> Option<(bool, Seq<char>)>
    decreases rules.len(),
{
    if rules.len() == 0 {
        None
    } else {
        let earlier = manual_verdict(rules.drop_last(), p, ide);
        let r = rules.last();
        let action = ascii_lower(r.action@);
        let hits_ide = targets(r.ide@, ide);
        if !glob_hit(r.id@, p.id) {
            earlier
        } else if action == "only"@ {
            if hits_ide {
                Some((true, "only rule for "@ + r.ide@))
            } else {
                Some((false, "only for "@ + r.ide@))
            }
        } else if (action == "allow"@ || action == "deny"@) && hits_ide {
            Some((action == "allow"@, "manual "@ + action + " rule"@))
        } else {
            earlier
        }
    }
}

/// Rule patterns and plugin ids without backslashes.
pub open spec fn rules_plain(rules: Seq<PluginRule>) -> bool {
    forall|i: int| 0 <= i < rules.len() ==> !(#[trigger] rules[i]).id@.contains('\\') && !rules[i].ide@.contains('\\')
}

/// Whether `plugin` can be installed into `ide`, and why. An explicit rule
/// always wins, so a user can override the computed verdict.
pub fn compatibility(
    plugin: &Plugin,
    ide: &Ide,
    capabilities: &StrSet,
    managed: &StrSet,
    config: &PluginsConfig,
) -> (v: Verdict)
    ensures
        ide_plain(*ide) && rules_plain(config.rule@) && !plugin.id@.contains('\\') ==> (v.compatible, v.reason@) == match manual_verdict(
            config.rule@,
            plugin_view(*plugin),
            *ide,
        ) {
            Some(m) => m,
            None => evaluate_spec(plugin_view(*plugin), *ide, capabilities@, managed@),
        },
{
    let ghost plain = ide_plain(*ide) && rules_plain(config.rule@) && !plugin.id@.contains('\\');
    let ghost pv = plugin_view(*plugin);
    let mut manual: Option<Verdict> = None;
    let mut i: usize = 0;
    while i < config.rule.len()
        invariant
            i <= config.rule@.len(),
            pv == plugin_view(*plugin),
            plain == (ide_plain(*ide) && rules_plain(config.rule@) && !plugin.id@.contains('\\')),
            plain ==> match manual {
                Some(m) => manual_verdict(config.rule@.take(i as int), pv, *ide) == Some((m.compatible, m.reason@)),
                None => manual_verdict(config.rule@.take(i as int), pv, *ide) is None,
            },
        decreases config.rule@.len() - i,
    {
        let rule = &config.rule[i];
        proof {
            assert(config.rule@.take(i + 1 as int).drop_last() =~= config.rule@.take(i as int));
            assert(config.rule@.take(i + 1 as int).last() == *rule);
        }
        if glob_matches(rule.id.as_str(), plugin.id.as_str()) {
            let hits_ide = targets_ide(rule.ide.as_str(), ide);
            let action = to_ascii_lowercase(rule.action.as_str());
            if str_eq(action.as_str(), "only") {
                manual = Some(if hits_ide {
                    Verdict { compatible: true, reason: concat("only rule for ", rule.ide.as_str()) }
                } else {
                    Verdict { compatible: false, reason: concat("only for ", rule.ide.as_str()) }
                });
            } else if (str_eq(action.as_str(), "allow") || str_eq(action.as_str(), "deny")) && hits_ide {
                let mut reason = concat("manual ", action.as_str());
                reason.append(" rule");
                manual = Some(Verdict { compatible: str_eq(action.as_str(), "allow"), reason });
            }
        }
        i = i + 1;
    }
    proof {
        assert(config.rule@.take(i as int) =~= config.rule@);
    }
    let verdict = evaluate(plugin, ide, capabilities, managed);
    match manual {
        Some(m) => m,
        None => verdict,
    }
}


/// A plugin that is installed but cannot load, because something it declares
/// as required is not present in that IDE.
#[derive(Debug, Clone)]
pub struct BrokenPlugin {
    pub ide: String,
    pub plugin: String,
    /// Dependencies the IDE cannot satisfy.
    pub missing: Vec<String>,
    /// The subset of `missing` that looks like a Marketplace plugin rather
    /// than a platform module, and so can be fixed by installing it.
    pub installable: Vec<String>,
}

pub struct BrokenView {
    pub ide: Seq<char>,
    pub plugin: Seq<char>,
    pub missing: Seq<Seq<char>>,
    pub installable: Seq<Seq<char>>,
}

pub open spec fn broken_view(b: BrokenPlugin) -> BrokenView {
    BrokenView { ide: b.ide@, plugin: b.plugin@, missing: views(b.missing@), installable: views(b.installable@) }
}

pub open spec fn broken_views(v: Seq<BrokenPlugin>) -> Seq<BrokenView> {
    v.map_values(|b: BrokenPlugin| broken_view(b))
}

/// Platform capabilities are namespaced `com.intellij.modules.*`; any other
/// required dependency is a plugin, and a missing one is fixable.
pub open spec fn marketplace(dependency: Seq<char>) -> bool {
    !has_prefix(dependency, "com.intellij.modules."@)
}

/// Distinguishes a dependency that could be installed from a platform module
/// that could not.
fn is_marketplace_plugin(dependency: &str) -> (b: bool)
    ensures
        b == marketplace(dependency@),
{
    !starts_with(dependency, "com.intellij.modules.")
}

/// The marketplace plugins among `ds`, in order.
pub open spec fn marketplace_only(ds: Seq<Seq<char>>) -> Seq<Seq<char>>
    decreases ds.len(),
{
    if ds.len() == 0 {
        Seq::empty()
    } else {
        let rest = marketplace_only(ds.drop_last());
        if marketplace(ds.last()) {
            rest.push(ds.last())
        } else {
            rest
        }
    }
}

fn marketplace_filter(ds: &Vec<String>) -> (r: Vec<String>)
    ensures
        views(r@) == marketplace_only(views(ds@)),
{
    let ghost all = views(ds@);
    let mut r: Vec<String> = Vec::new();
    let mut i: usize = 0;
    while i < ds.len()
        invariant
            i <= ds@.len(),
            all == views(ds@),
            views(r@) == marketplace_only(all.take(i as int)),
        decreases ds@.len() - i,
    {
        proof {
            assert(all.take(i + 1 as int).drop_last() =~= all.take(i as int));
            assert(all.take(i + 1 as int).last() == ds@[i as int]@);
        }
        if is_marketplace_plugin(ds[i].as_str()) {
            let ghost prev = r@;
            r.push(ds[i].clone());
            proof {
                assert(views(r@) =~= views(prev).push(ds@[i as int]@));
            }
        }
        i = i + 1;
    }
    proof {
        assert(all.take(i as int) =~= all);
    }
    r
}

/// The plugins among `ps` with unmet required dependencies, as reported.
pub open spec fn broken_scan(ps: Seq<PluginView>, capable: Set<Seq<char>>, directory: Seq<char>) -> Seq<BrokenView>
    decreases ps.len(),
{
    if ps.len() == 0 {
        Seq::empty()
    } else {
        let rest = broken_scan(ps.drop_last(), capable, directory);
        let p = ps.last();
        let missing = select(p.required_dependencies, capable, false);
        if missing.len() > 0 {
            rest.push(BrokenView { ide: directory, plugin: p.id, missing, installable: marketplace_only(missing) })
        } else {
            rest
        }
    }
}

/// What checking one IDE's installed plugins reports, given its parsed
/// descriptors. Only third-party plugins are reported; what they may rely on
/// includes every installed plugin, bundled or not.
pub open spec fn broken_in(ide: Ide, parsed: Seq<Option<PluginView>>, config: PluginsConfig) -> Seq<BrokenView> {
    let present = installed_spec(parsed, bundled_spec(ide), true, ide.product@);
    let capable = capabilities_spec(ide, present, config);
    broken_scan(installed_spec(parsed, bundled_spec(ide), false, ide.product@), capable, ide.directory@)
}

/// What checking every IDE reports, in IDE order.
pub open spec fn diagnosis(ides: Seq<&Ide>, parsed: Seq<Seq<Option<PluginView>>>, config: PluginsConfig) -> Seq<BrokenView>
    decreases ides.len(),
{
    if ides.len() == 0 || parsed.len() < ides.len() {
        Seq::empty()
    } else {
        diagnosis(ides.drop_last(), parsed.take(ides.len() - 1), config) + broken_in(
            *ides.last(),
            parsed[ides.len() - 1],
            config,
        )
    }
}

/// Every IDE's names hold no backslash.
pub open spec fn ides_plain(ides: Seq<&Ide>) -> bool {
    forall|i: int| 0 <= i < ides.len() ==> ide_plain(*#[trigger] ides[i])
}

/// `parsed` is what reading every IDE's descriptors can give.
pub open spec fn all_read_as(ides: Seq<&Ide>, parsed: Seq<Seq<Option<PluginView>>>) -> bool {
    parsed.len() == ides.len() && forall|i: int| 0 <= i < ides.len() ==> read_as((#[trigger] ides[i]).plugin_descriptors@, parsed[i])
}

/// Checks the plugins each IDE already has, rather than the ones that would
/// be added: a plugin put there by hand that the IDE cannot satisfy is caught
/// before the IDE itself complains at startup.
pub fn diagnose(ides: &[&Ide], config: &SyncConfig) -> (r: Vec<BrokenPlugin>)
    ensures
        exists|parsed: Seq<Seq<Option<PluginView>>>| all_read_as(ides@, parsed) && (ides_plain(ides@) && capabilities_plain(
            config.plugins.capability@,
        ) ==> broken_views(r@) == diagnosis(ides@, parsed, config.plugins)),
{
    let ghost plain = ides_plain(ides@) && capabilities_plain(config.plugins.capability@);
    let ghost mut parsed_all: Seq<Seq<Option<PluginView>>> = Seq::empty();
    let mut broken: Vec<BrokenPlugin> = Vec::new();
    let mut i: usize = 0;
    while i < ides.len()
        invariant
            i <= ides@.len(),
            plain == (ides_plain(ides@) && capabilities_plain(config.plugins.capability@)),
            all_read_as(ides@.take(i as int), parsed_all),
            plain ==> broken_views(broken@) == diagnosis(ides@.take(i as int), parsed_all, config.plugins),
        decreases ides@.len() - i,
    {
        let ide = ides[i];
        let parsed = read_descriptors(ide);
        let ghost pv = parsed@.map_values(|o: Option<Plugin>| parsed_view(o));
        let present = installed_from(ide, &parsed, true);
        let capable = capabilities(ide, present.as_slice(), &config.plugins);
        let third = installed_from(ide, &parsed, false);
        let ghost before = broken_views(broken@);
        let ghost tv = plugin_views(third@);
        let mut k: usize = 0;
        while k < third.len()
            invariant
                k <= third@.len(),
                tv == plugin_views(third@),
                broken_views(broken@) == before + broken_scan(tv.take(k as int), capable@, ide.directory@),
            decreases third@.len() - k,
        {
            let plugin = &third[k];
            let nothing = StrSet::new();
            let missing = select_in(plugin.required_dependencies.as_slice(), &capable, &nothing, false);
            proof {
                assert(capable@.union(nothing@) =~= capable@);
                assert(tv.take(k + 1 as int).drop_last() =~= tv.take(k as int));
                assert(tv.take(k + 1 as int).last() == plugin_view(*plugin));
            }
            if missing.len() > 0 {
                let installable = marketplace_filter(&missing);
                let b = BrokenPlugin { ide: ide.directory.clone(), plugin: plugin.id.clone(), missing, installable };
                let ghost prev = broken@;
                broken.push(b);
                proof {
                    assert(broken_views(broken@) =~= broken_views(prev).push(broken_view(b)));
                }
            }
            k = k + 1;
        }
        proof {
            assert(tv.take(k as int) =~= tv);
            let next = parsed_all.push(pv);
            let took = ides@.take(i + 1 as int);
            assert(took.drop_last() =~= ides@.take(i as int));
            assert(next.take(took.len() - 1) =~= parsed_all);
            assert forall|j: int| 0 <= j < took.len() implies read_as((#[trigger] took[j]).plugin_descriptors@, next[j]) by {
                if j < i {
                    assert(took[j] == ides@.take(i as int)[j]);
                }
            }
            if plain {
                assert(ide_plain(*ides@[i as int]));
            }
            parsed_all = next;
        }
        i = i + 1;
    }
    proof {
        assert(ides@.take(i as int) =~= ides@);
    }
    broken
}

/// `existing` with each of `more` it lacks appended, in order.
pub open spec fn add_products(existing: Seq<Seq<char>>, more: Seq<Seq<char>>) -> Seq<Seq<char>>
    decreases more.len(),
{
    if more.len() == 0 {
        existing
    } else {
        let so_far = add_products(existing, more.drop_last());
        if so_far.contains(more.last()) {
            so_far
        } else {
            so_far.push(more.last())
        }
    }
}

/// One installed plugin folded into the manifest being built: a new id is
/// added, a known one learns the products it was also seen in.
pub open spec fn merge_in(m: Map<Seq<char>, PluginView>, p: PluginView) -> Map<Seq<char>, PluginView> {
    if m.contains_key(p.id) {
        m.insert(p.id, PluginView { source_products: add_products(m[p.id].source_products, p.source_products), ..m[p.id] })
    } else {
        m.insert(p.id, p)
    }
}

pub open spec fn merge_all(m: Map<Seq<char>, PluginView>, ps: Seq<PluginView>) -> Map<Seq<char>, PluginView>
    decreases ps.len(),
{
    if ps.len() == 0 {
        m
    } else {
        merge_in(merge_all(m, ps.drop_last()), ps.last())
    }
}

/// The manifest's plugins gathered across IDEs, given each IDE's parsed
/// descriptors.
pub open spec fn gathered(ides: Seq<&Ide>, parsed: Seq<Seq<Option<PluginView>>>) -> Map<Seq<char>, PluginView>
    decreases ides.len(),
{
    if ides.len() == 0 || parsed.len() < ides.len() {
        Map::empty()
    } else {
        let ide = *ides.last();
        merge_all(
            gathered(ides.drop_last(), parsed.take(ides.len() - 1)),
            installed_spec(parsed[ides.len() - 1], bundled_spec(ide), false, ide.product@),
        )
    }
}

/// The plugins of a gathered map, in id order.
pub open spec fn manifest_plugins(m: Map<Seq<char>, PluginView>) -> Seq<PluginView> {
    sorted_key_list(m.dom()).map_values(|id: Seq<char>| m[id])
}

/// Rows of plugins, each id once, by value.
pub open spec fn rows_map(rows: Seq<PluginView>) -> Map<Seq<char>, PluginView> {
    Map::new(|id: Seq<char>| view_ids(rows).contains(id), |id: Seq<char>| last_with_id(rows, id))
}

pub open spec fn unique_ids(rows: Seq<PluginView>) -> bool {
    forall|a: int, b: int| 0 <= a < rows.len() && 0 <= b < rows.len() && (#[trigger] rows[a]).id == (#[trigger] rows[b]).id ==> a == b
}

pub(crate) proof fn lemma_last_with_id_at(rows: Seq<PluginView>, i: int)
    requires
        unique_ids(rows),
        0 <= i < rows.len(),
    ensures
        last_with_id(rows, rows[i].id) == rows[i],
    decreases rows.len(),
{
    if i != rows.len() - 1 {
        let d = rows.drop_last();
        assert(d[i] == rows[i]);
        assert(unique_ids(d)) by {
            assert forall|a: int, b: int| 0 <= a < d.len() && 0 <= b < d.len() && (#[trigger] d[a]).id == (#[trigger] d[b]).id implies a == b by {
                assert(d[a] == rows[a] && d[b] == rows[b]);
            }
        }
        lemma_last_with_id_at(d, i);
    }
}

pub(crate) fn position_of(rows: &Vec<Plugin>, id: &str) -> (r: Option<usize>)
    ensures
        r matches Some(i) ==> i < rows@.len() && rows@[i as int].id@ == id@,
        r is None ==> !view_ids(plugin_views(rows@)).contains(id@),
{
    let mut i: usize = 0;
    while i < rows.len()
        invariant
            i <= rows@.len(),
            forall|k: int| 0 <= k < i ==> (#[trigger] rows@[k]).id@ != id@,
        decreases rows@.len() - i,
    {
        if str_eq(rows[i].id.as_str(), id) {
            return Some(i);
        }
        i = i + 1;
    }
    proof {
        if view_ids(plugin_views(rows@)).contains(id@) {
            let k = choose|k: int| 0 <= k < plugin_views(rows@).len() && (#[trigger] plugin_views(rows@)[k]).id == id@;
            assert(rows@[k].id@ == id@);
        }
    }
    None
}

pub(crate) fn add_products_exec(existing: &mut Vec<String>, more: &Vec<String>)
    ensures
        views(final(existing)@) == add_products(views(old(existing)@), views(more@)),
{
    let mut i: usize = 0;
    while i < more.len()
        invariant
            i <= more@.len(),
            views(existing@) == add_products(views(old(existing)@), views(more@).take(i as int)),
        decreases more@.len() - i,
    {
        proof {
            assert(views(more@).take(i + 1 as int).drop_last() =~= views(more@).take(i as int));
            assert(views(more@).take(i + 1 as int).last() == more@[i as int]@);
        }
        if !crate::text::contains_str(existing, more[i].as_str()) {
            let ghost prev = existing@;
            existing.push(more[i].clone());
            proof {
                assert(views(existing@) =~= views(prev).push(more@[i as int]@));
            }
        }
        i = i + 1;
    }
    proof {
        assert(views(more@).take(i as int) =~= views(more@));
    }
}

/// Folds one plugin into rows keyed by id.
fn merge_row(rows: &mut Vec<Plugin>, p: &Plugin)
    requires
        unique_ids(plugin_views(old(rows)@)),
    ensures
        unique_ids(plugin_views(final(rows)@)),
        rows_map(plugin_views(final(rows)@)) == merge_in(rows_map(plugin_views(old(rows)@)), plugin_view(*p)),
{
    let ghost before = plugin_views(rows@);
    let ghost pv = plugin_view(*p);
    match position_of(rows, p.id.as_str()) {
        Some(i) => {
            let mut row = rows[i].copy();
            add_products_exec(&mut row.source_products, &p.source_products);
            let ghost updated = plugin_view(row);
            rows.set(i, row);
            proof {
                let after = plugin_views(rows@);
                assert(after =~= before.update(i as int, updated));
                lemma_last_with_id_at(before, i as int);
                assert(unique_ids(after)) by {
                    assert forall|a: int, b: int| 0 <= a < after.len() && 0 <= b < after.len() && (#[trigger] after[a]).id == (#[trigger] after[b]).id implies a == b by {
                        assert(before[a].id == after[a].id && before[b].id == after[b].id);
                    }
                }
                let m0 = rows_map(before);
                assert(m0.contains_key(pv.id)) by {
                    assert(before[i as int].id == pv.id);
                }
                assert forall|x: Seq<char>| #[trigger] view_ids(after).contains(x) == view_ids(before).contains(x) by {
                    if view_ids(after).contains(x) {
                        let k = choose|k: int| 0 <= k < after.len() && (#[trigger] after[k]).id == x;
                        assert(before[k].id == x);
                    }
                    if view_ids(before).contains(x) {
                        let k = choose|k: int| 0 <= k < before.len() && (#[trigger] before[k]).id == x;
                        assert(after[k].id == x);
                    }
                }
                assert forall|x: Seq<char>| view_ids(after).contains(x) implies #[trigger] last_with_id(after, x) == merge_in(m0, pv)[x] by {
                    let k = choose|k: int| 0 <= k < after.len() && (#[trigger] after[k]).id == x;
                    lemma_last_with_id_at(after, k);
                    lemma_last_with_id_at(before, k);
                    if k != i as int {
                        assert(after[k] == before[k]);
                    }
                }
                assert(rows_map(after) =~= merge_in(m0, pv));
            }
        },
        None => {
            rows.push(p.copy());
            proof {
                let after = plugin_views(rows@);
                assert(after =~= before.push(pv));
                assert(unique_ids(after)) by {
                    assert forall|a: int, b: int| 0 <= a < after.len() && 0 <= b < after.len() && (#[trigger] after[a]).id == (#[trigger] after[b]).id implies a == b by {
                        if a < before.len() && b == before.len() {
                            assert(view_ids(before).contains(before[a].id));
                        }
                        if b < before.len() && a == before.len() {
                            assert(view_ids(before).contains(before[b].id));
                        }
                    }
                }
                let m0 = rows_map(before);
                assert forall|x: Seq<char>| #[trigger] view_ids(after).contains(x) == (view_ids(before).contains(x) || x == pv.id) by {
                    if view_ids(after).contains(x) {
                        let k = choose|k: int| 0 <= k < after.len() && (#[trigger] after[k]).id == x;
                        if k < before.len() {
                            assert(before[k].id == x);
                        }
                    }
                    if view_ids(before).contains(x) {
                        let k = choose|k: int| 0 <= k < before.len() && (#[trigger] before[k]).id == x;
                        assert(after[k].id == x);
                    }
                    if x == pv.id {
                        assert(after[before.len() as int].id == x);
                    }
                }
                assert forall|x: Seq<char>| view_ids(after).contains(x) implies #[trigger] last_with_id(after, x) == merge_in(m0, pv)[x] by {
                    let k = choose|k: int| 0 <= k < after.len() && (#[trigger] after[k]).id == x;
                    lemma_last_with_id_at(after, k);
                    if k < before.len() {
                        assert(after[k] == before[k]);
                        lemma_last_with_id_at(before, k);
                    }
                }
                assert(rows_map(after) =~= merge_in(m0, pv));
            }
        },
    }
}

/// Builds the manifest from what is installed across every IDE: each
/// third-party plugin once, in id order, with every product it was seen in.
pub fn collect(ides: &[&Ide], config: &SyncConfig) -> (m: Manifest)
    ensures
        m.version == 1,
        exists|parsed: Seq<Seq<Option<PluginView>>>| all_read_as(ides@, parsed) && plugin_views(m.plugins@)
            == manifest_plugins(gathered(ides@, parsed)),
{
    let ghost mut parsed_all: Seq<Seq<Option<PluginView>>> = Seq::empty();
    let mut rows: Vec<Plugin> = Vec::new();
    proof {
        assert(rows_map(plugin_views(rows@)) =~= Map::<Seq<char>, PluginView>::empty());
    }
    let mut i: usize = 0;
    while i < ides.len()
        invariant
            i <= ides@.len(),
            all_read_as(ides@.take(i as int), parsed_all),
            unique_ids(plugin_views(rows@)),
            rows_map(plugin_views(rows@)) == gathered(ides@.take(i as int), parsed_all),
        decreases ides@.len() - i,
    {
        let ide = ides[i];
        let parsed = read_descriptors(ide);
        let ghost pv = parsed@.map_values(|o: Option<Plugin>| parsed_view(o));
        let third = installed_from(ide, &parsed, false);
        let ghost tv = plugin_views(third@);
        let ghost start = rows_map(plugin_views(rows@));
        let mut k: usize = 0;
        while k < third.len()
            invariant
                k <= third@.len(),
                tv == plugin_views(third@),
                unique_ids(plugin_views(rows@)),
                rows_map(plugin_views(rows@)) == merge_all(start, tv.take(k as int)),
            decreases third@.len() - k,
        {
            proof {
                assert(tv.take(k + 1 as int).drop_last() =~= tv.take(k as int));
                assert(tv.take(k + 1 as int).last() == plugin_view(third@[k as int]));
            }
            merge_row(&mut rows, &third[k]);
            k = k + 1;
        }
        proof {
            assert(tv.take(k as int) =~= tv);
            let next = parsed_all.push(pv);
            let took = ides@.take(i + 1 as int);
            assert(took.drop_last() =~= ides@.take(i as int));
            assert(next.take(took.len() - 1) =~= parsed_all);
            assert forall|j: int| 0 <= j < took.len() implies read_as((#[trigger] took[j]).plugin_descriptors@, next[j]) by {
                if j < i {
                    assert(took[j] == ides@.take(i as int)[j]);
                }
            }
            parsed_all = next;
        }
        i = i + 1;
    }
    proof {
        assert(ides@.take(i as int) =~= ides@);
    }
    let ghost rv = plugin_views(rows@);
    let mut ids = StrSet::new();
    let mut k: usize = 0;
    while k < rows.len()
        invariant
            k <= rows@.len(),
            rv == plugin_views(rows@),
            ids@ == view_ids(rv.take(k as int)),
        decreases rows@.len() - k,
    {
        let ghost before = ids@;
        ids.insert(rows[k].id.clone());
        proof {
            let prev = rv.take(k as int);
            let next = rv.take(k + 1 as int);
            assert forall|x: Seq<char>| #[trigger] ids@.contains(x) == view_ids(next).contains(x) by {
                if view_ids(next).contains(x) {
                    let m = choose|m: int| 0 <= m < next.len() && (#[trigger] next[m]).id == x;
                    if m < k {
                        assert(prev[m] == next[m]);
                    }
                }
                if before.contains(x) {
                    let m = choose|m: int| 0 <= m < prev.len() && (#[trigger] prev[m]).id == x;
                    assert(next[m] == prev[m]);
                }
                if x == rows@[k as int].id@ {
                    assert(next[k as int] == plugin_view(rows@[k as int]));
                }
            }
            assert(ids@ =~= view_ids(next));
        }
        k = k + 1;
    }
    proof {
        assert(rv.take(k as int) =~= rv);
        assert(rows_map(rv).dom() =~= view_ids(rv));
    }
    let sorted = ids.to_vec();
    let ghost order = views(sorted@);
    proof {
        ids.lemma_finite();
        lemma_sorted_key_list(ids@);
    }
    let mut plugins: Vec<Plugin> = Vec::new();
    let mut m: usize = 0;
    while m < sorted.len()
        invariant
            m <= sorted@.len(),
            order == views(sorted@),
            order == sorted_key_list(view_ids(rv)),
            order.to_set() == view_ids(rv),
            rv == plugin_views(rows@),
            plugin_views(plugins@) == order.take(m as int).map_values(|id: Seq<char>| last_with_id(rv, id)),
        decreases sorted@.len() - m,
    {
        proof {
            assert(order.to_set().contains(order[m as int]));
            let w = choose|w: int| 0 <= w < rv.len() && (#[trigger] rv[w]).id == order[m as int];
            assert(rows@[w].id@ == sorted@[m as int]@);
        }
        let at = last_index(&rows, sorted[m].as_str());
        let c = rows[at].copy();
        let ghost prev = plugins@;
        plugins.push(c);
        proof {
            assert(plugin_views(plugins@) =~= plugin_views(prev).push(plugin_view(c)));
            assert(order.take(m + 1 as int).map_values(|id: Seq<char>| last_with_id(rv, id)) =~= order.take(
                m as int,
            ).map_values(|id: Seq<char>| last_with_id(rv, id)).push(last_with_id(rv, order[m as int])));
        }
        m = m + 1;
    }
    proof {
        assert(order.take(m as int) =~= order);
        let g = gathered(ides@, parsed_all);
        assert(plugin_views(plugins@) =~= manifest_plugins(g));
    }
    Manifest { version: 1, plugins }
}


#[derive(Debug, Clone, PartialEq, Eq)]
pub struct InstallAction {
    pub ide: String,
    pub plugin: String,
    pub install: bool,
    pub reason: String,
}

pub struct ActionView {
    pub ide: Seq<char>,
    pub plugin: Seq<char>,
    pub install: bool,
    pub reason: Seq<char>,
}

pub open spec fn action_view(a: InstallAction) -> ActionView {
    ActionView { ide: a.ide@, plugin: a.plugin@, install: a.install, reason: a.reason@ }
}

pub open spec fn action_views(v: Seq<InstallAction>) -> Seq<ActionView> {
    v.map_values(|a: InstallAction| action_view(a))
}

/// What [`compatibility`] answers.
pub open spec fn verdict_spec(p: PluginView, ide: Ide, capabilities: Set<Seq<char>>, managed: Set<Seq<char>>, config: PluginsConfig) -> (
    bool,
    Seq<char>,
) {
    match manual_verdict(config.rule@, p, ide) {
        Some(m) => m,
        None => evaluate_spec(p, ide, capabilities, managed),
    }
}

/// The actions for one IDE: every manifest plugin neither installed nor
/// bundled there, with its verdict.
pub open spec fn actions_for(
    ide: Ide,
    present: Seq<PluginView>,
    capable: Set<Seq<char>>,
    bundled: Set<Seq<char>>,
    wanted: Seq<PluginView>,
    managed: Set<Seq<char>>,
    config: PluginsConfig,
) -> Seq<ActionView>
    decreases wanted.len(),
{
    if wanted.len() == 0 {
        Seq::empty()
    } else {
        let rest = actions_for(ide, present, capable, bundled, wanted.drop_last(), managed, config);
        let p = wanted.last();
        if view_ids(present).contains(p.id) || bundled.contains(p.id) {
            rest
        } else {
            let v = verdict_spec(p, ide, capable, managed, config);
            rest.push(ActionView { ide: ide.directory@, plugin: p.id, install: v.0, reason: v.1 })
        }
    }
}

/// The actions for one IDE, given its parsed descriptors.
pub open spec fn planned_for(ide: Ide, parsed: Seq<Option<PluginView>>, wanted: Seq<PluginView>, managed: Set<Seq<char>>, config: PluginsConfig) -> Seq<
    ActionView,
> {
    let present = installed_spec(parsed, bundled_spec(ide), true, ide.product@);
    actions_for(
        ide,
        present,
        capabilities_spec(ide, present, config),
        bundled_here_spec(ide, config),
        wanted,
        managed,
        config,
    )
}

/// The actions for every IDE, in IDE order.
pub open spec fn planned(ides: Seq<&Ide>, parsed: Seq<Seq<Option<PluginView>>>, wanted: Seq<PluginView>, managed: Set<Seq<char>>, config: PluginsConfig) -> Seq<
    ActionView,
>
    decreases ides.len(),
{
    if ides.len() == 0 || parsed.len() < ides.len() {
        Seq::empty()
    } else {
        planned(ides.drop_last(), parsed.take(ides.len() - 1), wanted, managed, config) + planned_for(
            *ides.last(),
            parsed[ides.len() - 1],
            wanted,
            managed,
            config,
        )
    }
}

/// Plugin ids and every pattern involved hold no backslash.
pub open spec fn plan_plain(ides: Seq<&Ide>, plugins: Seq<Plugin>, config: PluginsConfig) -> bool {
    &&& ides_plain(ides)
    &&& capabilities_plain(config.capability@)
    &&& rules_plain(config.rule@)
    &&& forall|i: int| 0 <= i < plugins.len() ==> !(#[trigger] plugins[i]).id@.contains('\\')
}

/// Works out which manifest plugins are missing from each IDE, and whether
/// each can be installed there. Nothing when plugin sync is off.
pub fn plan_installs(ides: &[&Ide], manifest: &Manifest, config: &SyncConfig) -> (r: Vec<InstallAction>)
    ensures
        !config.plugins.enabled ==> r@.len() == 0,
        config.plugins.enabled ==> exists|parsed: Seq<Seq<Option<PluginView>>>| all_read_as(ides@, parsed) && (plan_plain(
            ides@,
            manifest.plugins@,
            config.plugins,
        ) ==> action_views(r@) == planned(
            ides@,
            parsed,
            plugin_views(manifest.plugins@),
            ids_of(manifest.plugins@),
            config.plugins,
        )),
{
    let mut actions: Vec<InstallAction> = Vec::new();
    if !config.plugins.enabled {
        return actions;
    }
    let managed = manifest.ids();
    let ghost wanted = plugin_views(manifest.plugins@);
    let ghost plain = plan_plain(ides@, manifest.plugins@, config.plugins);
    let ghost mut parsed_all: Seq<Seq<Option<PluginView>>> = Seq::empty();
    let mut i: usize = 0;
    while i < ides.len()
        invariant
            i <= ides@.len(),
            wanted == plugin_views(manifest.plugins@),
            managed@ == ids_of(manifest.plugins@),
            plain == plan_plain(ides@, manifest.plugins@, config.plugins),
            all_read_as(ides@.take(i as int), parsed_all),
            plain ==> action_views(actions@) == planned(ides@.take(i as int), parsed_all, wanted, managed@, config.plugins),
        decreases ides@.len() - i,
    {
        let ide = ides[i];
        proof {
            if plain {
                assert(ide_plain(*ides@[i as int]));
            }
        }
        let parsed = read_descriptors(ide);
        let ghost pv = parsed@.map_values(|o: Option<Plugin>| parsed_view(o));
        let present = installed_from(ide, &parsed, true);
        let ghost prv = plugin_views(present@);
        let capable = capabilities(ide, present.as_slice(), &config.plugins);
        let bundled = bundled_here(ide, &config.plugins);
        let ghost before = action_views(actions@);
        let mut k: usize = 0;
        while k < manifest.plugins.len()
            invariant
                k <= manifest.plugins@.len(),
                wanted == plugin_views(manifest.plugins@),
                prv == plugin_views(present@),
                plain == plan_plain(ides@, manifest.plugins@, config.plugins),
                plain ==> ide_plain(*ide),
                plain ==> action_views(actions@) == before + actions_for(
                    *ide,
                    prv,
                    capable@,
                    bundled@,
                    wanted.take(k as int),
                    managed@,
                    config.plugins,
                ),
            decreases manifest.plugins@.len() - k,
        {
            let plugin = &manifest.plugins[k];
            proof {
                assert(wanted.take(k + 1 as int).drop_last() =~= wanted.take(k as int));
                assert(wanted.take(k + 1 as int).last() == plugin_view(*plugin));
            }
            let here = position_of(&present, plugin.id.as_str());
            proof {
                if here is Some {
                    let at = here.unwrap();
                    assert(prv[at as int].id == plugin.id@);
                }
            }
            if here.is_some() || bundled.contains(plugin.id.as_str()) {
            } else {
                let verdict = compatibility(plugin, ide, &capable, &managed, &config.plugins);
                let a = InstallAction {
                    ide: ide.directory.clone(),
                    plugin: plugin.id.clone(),
                    install: verdict.compatible,
                    reason: verdict.reason,
                };
                let ghost prev = actions@;
                actions.push(a);
                proof {
                    assert(action_views(actions@) =~= action_views(prev).push(action_view(a)));
                }
            }
            k = k + 1;
        }
        proof {
            assert(wanted.take(k as int) =~= wanted);
            let next = parsed_all.push(pv);
            let took = ides@.take(i + 1 as int);
            assert(took.drop_last() =~= ides@.take(i as int));
            assert(next.take(took.len() - 1) =~= parsed_all);
            assert forall|j: int| 0 <= j < took.len() implies read_as((#[trigger] took[j]).plugin_descriptors@, next[j]) by {
                if j < i {
                    assert(took[j] == ides@.take(i as int)[j]);
                }
            }
            parsed_all = next;
        }
        i = i + 1;
    }
    proof {
        assert(ides@.take(i as int) =~= ides@);
    }
    actions
}


/// A plugin an IDE already has, installed or bundled with the product, is
/// never planned for it: every planned action is for a plugin the IDE lacks.
pub proof fn law_present_plugins_are_never_planned(
    ide: Ide,
    present: Seq<PluginView>,
    capable: Set<Seq<char>>,
    bundled: Set<Seq<char>>,
    wanted: Seq<PluginView>,
    managed: Set<Seq<char>>,
    config: PluginsConfig,
)
    ensures
        forall|i: int|
            0 <= i < actions_for(ide, present, capable, bundled, wanted, managed, config).len() ==> {
                let a = #[trigger] actions_for(ide, present, capable, bundled, wanted, managed, config)[i];
                !view_ids(present).contains(a.plugin) && !bundled.contains(a.plugin) && a.ide == ide.directory@
            },
    decreases wanted.len(),
{
    if wanted.len() > 0 {
        law_present_plugins_are_never_planned(ide, present, capable, bundled, wanted.drop_last(), managed, config);
        let rest = actions_for(ide, present, capable, bundled, wanted.drop_last(), managed, config);
        let all = actions_for(ide, present, capable, bundled, wanted, managed, config);
        let p = wanted.last();
        if !(view_ids(present).contains(p.id) || bundled.contains(p.id)) {
            assert forall|i: int| 0 <= i < all.len() implies {
                let a = #[trigger] all[i];
                !view_ids(present).contains(a.plugin) && !bundled.contains(a.plugin) && a.ide == ide.directory@
            } by {
                if i < rest.len() {
                    assert(all[i] == rest[i]);
                }
            }
        }
    }
}

/// An explicit rule always wins: where the manual rules speak, their
/// verdict is the verdict, whatever the plugin's metadata says.
pub proof fn law_explicit_rules_win(
    p: PluginView,
    ide: Ide,
    capabilities: Set<Seq<char>>,
    managed: Set<Seq<char>>,
    config: PluginsConfig,
)
    ensures
        manual_verdict(config.rule@, p, ide) matches Some(m) ==> verdict_spec(p, ide, capabilities, managed, config) == m,
        manual_verdict(config.rule@, p, ide) is None ==> verdict_spec(p, ide, capabilities, managed, config) == evaluate_spec(
            p,
            ide,
            capabilities,
            managed,
        ),
{
}


/// The launcher that installs plugins into an IDE: the one configured for
/// its product, else the one its installation metadata names.
pub open spec fn launcher_spec(ide: Ide, launchers: Map<Seq<char>, Seq<char>>) -> Option<Seq<char>> {
    if launchers.contains_key(ide.product@) {
        Some(launchers[ide.product@])
    } else {
        match ide.metadata {
            Some(m) => if m.launcher@.len() > 0 {
                Some(m.launcher@)
            } else {
                None
            },
            None => None,
        }
    }
}

/// The launcher that installs plugins into an IDE, through the IDE's own
/// Marketplace download, signature checks and dependency resolution; a
/// configuration error when none is known.
pub fn launcher_for(ide: &Ide, config: &PluginsConfig) -> (r: Result<String, JbsyncError>)
    ensures
        match launcher_spec(*ide, config.launchers@) {
            Some(l) => r matches Ok(got) && got@ == l,
            None => r matches Err(JbsyncError::Configuration(m)) && m@ == "no launcher known for "@ + ide.product@
                + "; set plugins.launchers."@ + ide.product@ + " in sync.toml"@,
        },
{
    match config.launchers.get(ide.product.as_str()) {
        Some(l) => {
            return Ok(l.clone());
        },
        None => {},
    }
    match &ide.metadata {
        Some(m) => if !m.launcher.as_str().is_empty() {
            return Ok(m.launcher.clone());
        },
        None => {},
    }
    let mut message = concat("no launcher known for ", ide.product.as_str());
    message.append("; set plugins.launchers.");
    message.append(ide.product.as_str());
    message.append(" in sync.toml");
    Err(JbsyncError::configuration(message))
}

/// The launcher's arguments that install one plugin.
pub fn install_args(plugin_id: &str) -> (r: Vec<String>)
    ensures
        views(r@) == seq!["installPlugins"@, plugin_id@],
{
    let r = vec!["installPlugins".to_owned(), plugin_id.to_owned()];
    proof {
        assert(views(r@) =~= seq!["installPlugins"@, plugin_id@]);
    }
    r
}

/// A required dependency that is in the list of `items` is not selected as
/// missing.
proof fn lemma_select_absent(items: Seq<Seq<char>>, set: Set<Seq<char>>)
    requires
        forall|i: int| 0 <= i < items.len() ==> set.contains(#[trigger] items[i]),
    ensures
        select(items, set, false).len() == 0,
    decreases items.len(),
{
    if items.len() > 0 {
        let init = items.drop_last();
        assert forall|i: int| 0 <= i < init.len() implies set.contains(#[trigger] init[i]) by {
            assert(init[i] == items[i]);
        }
        lemma_select_absent(init, set);
        assert(set.contains(items[items.len() - 1]));
    }
}

/// A dependency this machine's plugins provide counts as present: where the
/// build fits, nothing the IDE has is declared incompatible, and every
/// required dependency is either among the IDE's capabilities or among the
/// plugins recorded for installation, a plugin that requires something is
/// compatible because its required modules are available. Whether a
/// dependency is provided by the IDE or by a managed plugin makes no
/// difference to the verdict.
pub proof fn law_managed_dependencies_count_as_present(
    p: PluginView,
    ide: Ide,
    capabilities: Set<Seq<char>>,
    managed: Set<Seq<char>>,
)
    requires
        build_verdict(build_of(ide), p.since_build, p.until_build) is None,
        forall|i: int| 0 <= i < p.incompatible_with.len() ==> !capabilities.contains(#[trigger] p.incompatible_with[i]),
        forall|i: int|
            0 <= i < p.required_dependencies.len() ==> capabilities.contains(#[trigger] p.required_dependencies[i])
                || managed.contains(p.required_dependencies[i]),
        p.required_dependencies.len() > 0,
    ensures
        evaluate_spec(p, ide, capabilities, managed) == (true, "required modules are available"@),
        evaluate_spec(p, ide, capabilities, managed) == evaluate_spec(p, ide, capabilities, managed.union(capabilities)),
{
    lemma_select_absent(p.required_dependencies, capabilities.union(managed));
    lemma_select_absent(p.required_dependencies, capabilities.union(managed.union(capabilities)));
    lemma_select_none_present(p.incompatible_with, capabilities);
}

/// Nothing is selected as present from items none of which is in the set.
proof fn lemma_select_none_present(items: Seq<Seq<char>>, set: Set<Seq<char>>)
    requires
        forall|i: int| 0 <= i < items.len() ==> !set.contains(#[trigger] items[i]),
    ensures
        select(items, set, true).len() == 0,
    decreases items.len(),
{
    if items.len() > 0 {
        let init = items.drop_last();
        assert forall|i: int| 0 <= i < init.len() implies !set.contains(#[trigger] init[i]) by {
            assert(init[i] == items[i]);
        }
        lemma_select_none_present(init, set);
        assert(!set.contains(items[items.len() - 1]));
    }
}

/// An item outside the set is selected as missing.
proof fn lemma_select_finds_absent(items: Seq<Seq<char>>, set: Set<Seq<char>>, i: int)
    requires
        0 <= i < items.len(),
        !set.contains(items[i]),
    ensures
        select(items, set, false).len() > 0,
    decreases items.len(),
{
    if i < items.len() - 1 {
        lemma_select_finds_absent(items.drop_last(), set, i);
        assert(items.drop_last()[i] == items[i]);
    }
}

/// A dependency neither the IDE nor any managed plugin provides keeps a
/// plugin out: where the build fits and nothing the IDE has is declared
/// incompatible, such a plugin is not compatible.
pub proof fn law_unmet_dependencies_keep_a_plugin_out(
    p: PluginView,
    ide: Ide,
    capabilities: Set<Seq<char>>,
    managed: Set<Seq<char>>,
    i: int,
)
    requires
        build_verdict(build_of(ide), p.since_build, p.until_build) is None,
        forall|k: int| 0 <= k < p.incompatible_with.len() ==> !capabilities.contains(#[trigger] p.incompatible_with[k]),
        0 <= i < p.required_dependencies.len(),
        !capabilities.contains(p.required_dependencies[i]),
        !managed.contains(p.required_dependencies[i]),
    ensures
        !evaluate_spec(p, ide, capabilities, managed).0,
{
    lemma_select_none_present(p.incompatible_with, capabilities);
    lemma_select_finds_absent(p.required_dependencies, capabilities.union(managed), i);
}

} // verus!
