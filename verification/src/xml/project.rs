//! A flat, stable projection of a settings document.
//!
//! Every leaf (an attribute value, or an element's text) gets an address built
//! from its ancestors. Two documents can then be compared, and merged, one
//! setting at a time instead of one file at a time. The projection is a view:
//! the XML tree remains the source of truth, and merged leaves are written
//! back into a real tree so nothing outside the changed setting is disturbed.
//!
//! Address grammar, `/`-separated:
//!   `tag[attr=value]`  element identified by its key attribute
//!   `tag#n`            the n-th sibling sharing `tag`, when it has no key
//!   `@attr`            terminal: an attribute value
//!   `#text`            terminal: character data

use vstd::prelude::*;

use crate::strmap::{lemma_pairs_insert_map, map_of, pairs_insert, pairs_remove, sorted_pairs, StrMap};
use crate::text::{concat, decimal, decimal_string, has_prefix, has_suffix, join_strings, join_with, split_on, split_str, str_eq, strip_prefix, strip_suffix, views};
use crate::xml::dom::{key_pairs, key_attribute_from, key_attribute_of, key_attributes, lemma_view_children, lemma_view_from_parts, text_view, valueless, Element, ElementView};

verus! {

/// Leaf address to value, in address order.
pub type Projection = StrMap;

/// The identifying attribute of an element.
pub open spec fn key_of(e: ElementView) -> Option<(Seq<char>, Seq<char>)> {
    key_attribute_of(map_of(e.attributes))
}

/// How many of `s` are named `name`.
pub open spec fn count_named(s: Seq<ElementView>, name: Seq<char>) -> nat
    decreases s.len(),
{
    if s.len() == 0 {
        0
    } else {
        count_named(s.drop_last(), name) + if s.last().name == name {
            1nat
        } else {
            0nat
        }
    }
}

/// The position of child `i` among the earlier siblings sharing its tag.
pub open spec fn same_tag_index(children: Seq<ElementView>, i: int) -> nat {
    count_named(children.take(i), children[i].name)
}

/// The address of `e` relative to its parent, given its same-tag position.
pub open spec fn segment_of(e: ElementView, same_tag: nat) -> Seq<char> {
    match key_of(e) {
        Some(pair) => e.name + "["@ + pair.0 + "="@ + pair.1 + "]"@,
        None => e.name + "#"@ + decimal(same_tag),
    }
}

/// The address of child `i` of `parent`.
pub open spec fn child_segment(parent: ElementView, i: int) -> Seq<char> {
    segment_of(parent.children[i], same_tag_index(parent.children, i))
}

/// `leaf` appended to `prefix`, which may be empty.
pub open spec fn join_path(prefix: Seq<char>, leaf: Seq<char>) -> Seq<char> {
    if prefix.len() == 0 {
        leaf
    } else {
        prefix + "/"@ + leaf
    }
}

/// The attribute leaves of an element: every attribute but its key one.
pub open spec fn attribute_leaves(
    p: Seq<(Seq<char>, Seq<char>)>,
    key: Option<(Seq<char>, Seq<char>)>,
    prefix: Seq<char>,
) -> Seq<(Seq<char>, Seq<char>)>
    decreases p.len(),
{
    if p.len() == 0 {
        Seq::empty()
    } else {
        let rest = attribute_leaves(p.drop_last(), key, prefix);
        if key matches Some(k) && k.0 == p.last().0 {
            rest
        } else {
            rest.push((join_path(prefix, "@"@ + p.last().0), p.last().1))
        }
    }
}

/// Every leaf of `e`, addressed under `prefix`, in document order.
pub open spec fn leaves(e: ElementView, prefix: Seq<char>) -> Seq<(Seq<char>, Seq<char>)>
    decreases e, 1nat,
{
    attribute_leaves(e.attributes, key_of(e), prefix) + match e.text {
        Some(t) => seq![(join_path(prefix, "#text"@), t)],
        None => Seq::empty(),
    } + children_leaves(e, e.children.len(), prefix)
}

/// The leaves of the first `n` children of `e`.
pub open spec fn children_leaves(e: ElementView, n: nat, prefix: Seq<char>) -> Seq<(Seq<char>, Seq<char>)>
    decreases e, 0nat, n,
{
    if n == 0 || n > e.children.len() {
        Seq::empty()
    } else {
        children_leaves(e, (n - 1) as nat, prefix) + leaves(
            e.children[n - 1],
            join_path(prefix, child_segment(e, n - 1)),
        )
    }
}

/// `base` with each pair of `s` inserted in turn, later ones winning.
pub open spec fn assoc(base: Map<Seq<char>, Seq<char>>, s: Seq<(Seq<char>, Seq<char>)>) -> Map<Seq<char>, Seq<char>>
    decreases s.len(),
{
    if s.len() == 0 {
        base
    } else {
        assoc(base, s.drop_last()).insert(s.last().0, s.last().1)
    }
}

pub proof fn lemma_assoc_append(base: Map<Seq<char>, Seq<char>>, a: Seq<(Seq<char>, Seq<char>)>, b: Seq<(Seq<char>, Seq<char>)>)
    ensures
        assoc(base, a + b) == assoc(assoc(base, a), b),
    decreases b.len(),
{
    if b.len() == 0 {
        assert(a + b =~= a);
    } else {
        assert((a + b).drop_last() =~= a + b.drop_last());
        lemma_assoc_append(base, a, b.drop_last());
    }
}

/// The projection of a document: every leaf address mapped to its value, a
/// later leaf at the same address replacing an earlier one.
pub open spec fn projection_of(root: ElementView) -> Map<Seq<char>, Seq<char>> {
    assoc(Map::empty(), leaves(root, Seq::empty()))
}

/// The address of `element` relative to its parent.
fn segment(element: &Element, same_tag: usize) -> (r: String)
    ensures
        r@ == segment_of(element@, same_tag as nat),
{
    match element.key_attribute() {
        Some((attribute, value)) => {
            let mut r = concat(element.name.as_str(), "[");
            r.append(attribute.as_str());
            r.append("=");
            r.append(value.as_str());
            r.append("]");
            r
        },
        None => {
            let mut r = concat(element.name.as_str(), "#");
            let n = decimal_string(same_tag);
            r.append(n.as_str());
            r
        },
    }
}

proof fn lemma_count_named_bound(s: Seq<ElementView>, name: Seq<char>)
    ensures
        count_named(s, name) <= s.len(),
    decreases s.len(),
{
    if s.len() > 0 {
        lemma_count_named_bound(s.drop_last(), name);
    }
}

/// Addresses of every child, in document order.
fn child_segments(parent: &Element) -> (r: Vec<String>)
    ensures
        r@.len() == parent.children@.len(),
        forall|i: int| 0 <= i < r@.len() ==> #[trigger] r@[i]@ == child_segment(parent@, i),
{
    proof {
        lemma_view_children(*parent);
    }
    let n = parent.children.len();
    let mut r: Vec<String> = Vec::new();
    let mut i: usize = 0;
    while i < n
        invariant
            i <= n,
            n == parent.children@.len(),
            parent@.children.len() == n,
            forall|j: int| 0 <= j < n ==> #[trigger] parent@.children[j] == parent.children@[j]@,
            r@.len() == i,
            forall|j: int| 0 <= j < i ==> #[trigger] r@[j]@ == child_segment(parent@, j),
        decreases n - i,
    {
        let mut count: usize = 0;
        let mut j: usize = 0;
        while j < i
            invariant
                j <= i < n,
                n == parent.children@.len(),
                parent@.children.len() == n,
                forall|k: int| 0 <= k < n ==> #[trigger] parent@.children[k] == parent.children@[k]@,
                count == count_named(parent@.children.take(j as int), parent@.children[i as int].name),
            decreases i - j,
        {
            proof {
                assert(parent@.children.take(j + 1 as int).drop_last() == parent@.children.take(j as int));
                lemma_count_named_bound(parent@.children.take(j as int), parent@.children[i as int].name);
            }
            if parent.children[j].name == parent.children[i].name {
                count = count + 1;
            }
            j = j + 1;
        }
        let s = segment(&parent.children[i], count);
        r.push(s);
        i = i + 1;
    }
    r
}


fn join_path_exec(prefix: &str, leaf: &str) -> (r: String)
    ensures
        r@ == join_path(prefix@, leaf@),
{
    if prefix.is_empty() {
        leaf.to_owned()
    } else {
        let mut r = concat(prefix, "/");
        r.append(leaf);
        r
    }
}

fn collect(element: &Element, prefix: &str, output: &mut StrMap)
    ensures
        final(output)@ == assoc(old(output)@, leaves(element@, prefix@)),
    decreases element,
{
    proof {
        lemma_view_children(*element);
    }
    let ghost start = output@;
    let ghost e = element@;
    let key = element.key_attribute();
    let n = element.attributes.len();
    let mut i: usize = 0;
    while i < n
        invariant
            i <= n,
            n == e.attributes.len(),
            e == element@,
            e.attributes == element.attributes.pairs(),
            key matches Some(k) ==> key_of(e) == Some((k.0@, k.1@)),
            key is None ==> key_of(e) is None,
            output@ == assoc(start, attribute_leaves(e.attributes.take(i as int), key_of(e), prefix@)),
        decreases n - i,
    {
        proof {
            assert(e.attributes.take(i + 1 as int).drop_last() == e.attributes.take(i as int));
            assert(e.attributes.take(i + 1 as int).last() == e.attributes[i as int]);
        }
        let name = element.attributes.key_at(i);
        let is_key = match &key {
            Some((attribute, _)) => *attribute == *name,
            None => false,
        };
        let ghost rest = attribute_leaves(e.attributes.take(i as int), key_of(e), prefix@);
        if !is_key {
            let at = concat("@", name.as_str());
            let address = join_path_exec(prefix, at.as_str());
            let ghost x = (address@, e.attributes[i as int].1);
            output.insert(address, element.attributes.value_at(i).clone());
            proof {
                assert(rest.push(x).drop_last() == rest);
                assert(attribute_leaves(e.attributes.take(i + 1 as int), key_of(e), prefix@) == rest.push(x));
            }
        } else {
            proof {
                assert(attribute_leaves(e.attributes.take(i + 1 as int), key_of(e), prefix@) == rest);
            }
        }
        i = i + 1;
    }
    proof {
        assert(e.attributes.take(n as int) == e.attributes);
    }
    let ghost after_attributes = attribute_leaves(e.attributes, key_of(e), prefix@);
    let ghost text_leaves: Seq<(Seq<char>, Seq<char>)> = match e.text {
        Some(t) => seq![(join_path(prefix@, "#text"@), t)],
        None => Seq::empty(),
    };
    match &element.text {
        Some(text) => {
            let address = join_path_exec(prefix, "#text");
            output.insert(address, text.clone());
            proof {
                assert(text_leaves.drop_last() =~= Seq::<(Seq<char>, Seq<char>)>::empty());
                assert(after_attributes + text_leaves == (after_attributes + text_leaves).drop_last().push(text_leaves.last()));
                assert((after_attributes + text_leaves).drop_last() =~= after_attributes);
            }
        },
        None => {
            proof {
                assert(after_attributes + text_leaves =~= after_attributes);
            }
        },
    }
    let segments = child_segments(element);
    let count = element.children.len();
    let mut c: usize = 0;
    proof {
        assert(after_attributes + text_leaves + children_leaves(e, 0, prefix@) =~= after_attributes + text_leaves);
    }
    while c < count
        invariant
            c <= count,
            count == element.children@.len(),
            e == element@,
            e.children.len() == count,
            forall|j: int| 0 <= j < count ==> #[trigger] e.children[j] == element.children@[j]@,
            segments@.len() == count,
            forall|j: int| 0 <= j < count ==> #[trigger] segments@[j]@ == child_segment(e, j),
            output@ == assoc(start, after_attributes + text_leaves + children_leaves(e, c as nat, prefix@)),
        decreases count - c,
    {
        let child_prefix = join_path_exec(prefix, segments[c].as_str());
        let ghost before = output@;
        collect(&element.children[c], child_prefix.as_str(), output);
        proof {
            let head = after_attributes + text_leaves + children_leaves(e, c as nat, prefix@);
            let tail = leaves(e.children[c as int], join_path(prefix@, child_segment(e, c as int)));
            lemma_assoc_append(start, head, tail);
            assert(children_leaves(e, (c + 1) as nat, prefix@) == children_leaves(e, c as nat, prefix@) + tail);
            assert(head + tail =~= after_attributes + text_leaves + children_leaves(e, (c + 1) as nat, prefix@));
        }
        c = c + 1;
    }
    proof {
        assert(leaves(e, prefix@) == after_attributes + text_leaves + children_leaves(e, count as nat, prefix@));
    }
}

/// Flattens `root` into leaf addresses. The root's own tag is not part of any
/// address: a document is only ever compared against the same file from
/// another machine, so the root is shared context rather than information.
pub fn project(root: &Element) -> (r: Projection)
    ensures
        r@ == projection_of(root@),
{
    let mut flattened = StrMap::new();
    proof {
        reveal_strlit("");
        assert(""@ =~= Seq::<char>::empty());
    }
    collect(root, "", &mut flattened);
    flattened
}


/// `segment` with the `tag[attribute=` prefix and `]` suffix taken off, when
/// it has both.
pub open spec fn strip_wrapper_spec(segment: Seq<char>, tag: Seq<char>, attribute: Seq<char>) -> Option<Seq<char>> {
    let pre = tag + "["@ + attribute + "="@;
    let rest = segment.skip(pre.len() as int);
    if has_prefix(segment, pre) && has_suffix(rest, "]"@) {
        Some(rest.take(rest.len() - "]"@.len()))
    } else {
        None
    }
}

/// How one raw address segment reads in a report, or `None` when it is
/// boilerplate that reports leave out.
pub open spec fn sugar_part(raw: Seq<char>) -> Option<Seq<char>> {
    if raw == "map#0"@ || raw == "list#0"@ || raw == "set#0"@ || raw == "value#0"@ {
        None
    } else if strip_wrapper_spec(raw, "component"@, "name"@) is Some {
        strip_wrapper_spec(raw, "component"@, "name"@)
    } else if strip_wrapper_spec(raw, "option"@, "name"@) is Some {
        strip_wrapper_spec(raw, "option"@, "name"@)
    } else if strip_wrapper_spec(raw, "entry"@, "key"@) is Some {
        strip_wrapper_spec(raw, "entry"@, "key"@)
    } else if raw == "@value"@ {
        None
    } else {
        Some(raw)
    }
}

pub open spec fn sugar_parts(parts: Seq<Seq<char>>) -> Seq<Seq<char>>
    decreases parts.len(),
{
    if parts.len() == 0 {
        Seq::empty()
    } else {
        let rest = sugar_parts(parts.drop_last());
        match sugar_part(parts.last()) {
            Some(v) => rest.push(v),
            None => rest,
        }
    }
}

/// The readable form of an address.
pub open spec fn sugared(path: Seq<char>) -> Seq<char> {
    let parts = sugar_parts(split_on(path, '/'));
    if parts.len() == 0 {
        path
    } else {
        join_with(parts, "/"@)
    }
}

fn strip_wrapper(segment: &str, tag: &str, attribute: &str) -> (r: Option<String>)
    ensures
        r matches Some(v) ==> strip_wrapper_spec(segment@, tag@, attribute@) == Some(v@),
        r is None ==> strip_wrapper_spec(segment@, tag@, attribute@) is None,
{
    let mut pre = concat(tag, "[");
    pre.append(attribute);
    pre.append("=");
    match strip_prefix(segment, pre.as_str()) {
        Some(rest) => match strip_suffix(rest.as_str(), "]") {
            Some(v) => Some(v),
            None => None,
        },
        None => None,
    }
}

/// Rewrites an address for display, collapsing JetBrains' boilerplate so a
/// report reads like the settings UI rather than like XPath.
///
/// `component[name=Editor]/option[name=Font]/map#0/entry[key=size]/@value`
/// becomes `Editor/Font/size`.
pub fn sugar(path: &str) -> (r: String)
    ensures
        r@ == sugared(path@),
{
    let raw_parts = split_str(path, '/');
    let mut parts: Vec<String> = Vec::new();
    let mut i: usize = 0;
    while i < raw_parts.len()
        invariant
            i <= raw_parts.len(),
            views(raw_parts@) == split_on(path@, '/'),
            views(parts@) == sugar_parts(views(raw_parts@).take(i as int)),
        decreases raw_parts.len() - i,
    {
        let raw = raw_parts[i].as_str();
        proof {
            assert(views(raw_parts@).take(i + 1 as int).drop_last() == views(raw_parts@).take(i as int));
            assert(views(raw_parts@).take(i + 1 as int).last() == raw@);
        }
        let ghost before = views(parts@);
        if str_eq(raw, "map#0") || str_eq(raw, "list#0") || str_eq(raw, "set#0") || str_eq(raw, "value#0") {
        } else {
            match strip_wrapper(raw, "component", "name") {
                Some(v) => {
                    parts.push(v);
                },
                None => match strip_wrapper(raw, "option", "name") {
                    Some(v) => {
                        parts.push(v);
                    },
                    None => match strip_wrapper(raw, "entry", "key") {
                        Some(v) => {
                            parts.push(v);
                        },
                        None => {
                            if !str_eq(raw, "@value") {
                                parts.push(raw.to_owned());
                            }
                        },
                    },
                },
            }
        }
        proof {
            assert(views(parts@) =~= sugar_parts(views(raw_parts@).take(i + 1 as int)));
        }
        i = i + 1;
    }
    proof {
        assert(views(raw_parts@).take(raw_parts@.len() as int) == views(raw_parts@));
    }
    if parts.len() == 0 {
        path.to_owned()
    } else {
        join_strings(parts.as_slice(), "/")
    }
}

/// The first child of `parent`, from position `from` on, addressed as `wanted`.
pub open spec fn find_from(parent: ElementView, wanted: Seq<char>, from: nat) -> Option<nat>
    decreases parent.children.len() - from,
{
    if from >= parent.children.len() {
        None
    } else if child_segment(parent, from as int) == wanted {
        Some(from)
    } else {
        find_from(parent, wanted, from + 1)
    }
}

/// The first child of `parent` addressed as `wanted`.
pub open spec fn find_child_spec(parent: ElementView, wanted: Seq<char>) -> Option<nat> {
    find_from(parent, wanted, 0)
}

proof fn lemma_find_from_bound(parent: ElementView, wanted: Seq<char>, from: nat)
    ensures
        find_from(parent, wanted, from) matches Some(i) ==> from <= i < parent.children.len()
            && child_segment(parent, i as int) == wanted,
    decreases parent.children.len() - from,
{
    if from < parent.children.len() && child_segment(parent, from as int) != wanted {
        lemma_find_from_bound(parent, wanted, from + 1);
    }
}

fn find_child(parent: &Element, wanted: &str) -> (r: Option<usize>)
    ensures
        r matches Some(i) ==> find_child_spec(parent@, wanted@) == Some(i as nat),
        r is None ==> find_child_spec(parent@, wanted@) is None,
        r matches Some(i) ==> i < parent.children@.len(),
{
    proof {
        lemma_view_children(*parent);
    }
    let segments = child_segments(parent);
    let mut i: usize = segments.len();
    let mut found: Option<usize> = None;
    while i > 0
        invariant
            i <= segments@.len(),
            segments@.len() == parent.children@.len(),
            parent@.children.len() == parent.children@.len(),
            forall|j: int| 0 <= j < segments@.len() ==> #[trigger] segments@[j]@ == child_segment(parent@, j),
            found matches Some(k) ==> find_from(parent@, wanted@, i as nat) == Some(k as nat) && k < segments@.len(),
            found is None ==> find_from(parent@, wanted@, i as nat) is None,
        decreases i,
    {
        i = i - 1;
        if str_eq(segments[i].as_str(), wanted) {
            found = Some(i);
        }
    }
    found
}

/// What writing `value` at the terminal `leaf` does to an element, and
/// whether `leaf` named something writable.
pub open spec fn leaf_written(t: ElementView, leaf: Seq<char>, value: Seq<char>) -> (ElementView, bool) {
    if leaf == "#text"@ {
        (ElementView { text: Some(value), ..t }, true)
    } else if has_prefix(leaf, "@"@) {
        (ElementView { attributes: pairs_insert(t.attributes, leaf.skip("@"@.len() as int), value), ..t }, true)
    } else {
        (t, false)
    }
}

/// An element's name and identifying attribute, without its other
/// attributes, children or text.
pub open spec fn shell_of(d: ElementView) -> ElementView {
    ElementView { name: d.name, attributes: key_pairs(map_of(d.attributes)), children: Seq::empty(), text: None }
}

/// Writing a leaf below the path `segs`: existing ancestors are followed and
/// missing ones are grafted as shells of the donor's. Where the donor lacks a
/// segment, or the leaf names nothing writable, the write is refused and the
/// element is left as it was.
pub open spec fn set_leaf_spec(
    t: ElementView,
    d: ElementView,
    segs: Seq<Seq<char>>,
    leaf: Seq<char>,
    value: Seq<char>,
) -> (ElementView, bool)
    decreases segs.len(),
{
    if segs.len() == 0 {
        leaf_written(t, leaf, value)
    } else {
        match find_child_spec(d, segs[0]) {
            None => (t, false),
            Some(di) => {
                let donor_child = d.children[di as int];
                match find_child_spec(t, segs[0]) {
                    Some(ti) => {
                        let r = set_leaf_spec(t.children[ti as int], donor_child, segs.drop_first(), leaf, value);
                        if r.1 {
                            (ElementView { children: t.children.update(ti as int, r.0), ..t }, true)
                        } else {
                            (t, false)
                        }
                    },
                    None => {
                        let r = set_leaf_spec(shell_of(donor_child), donor_child, segs.drop_first(), leaf, value);
                        if r.1 {
                            (ElementView { children: t.children.push(r.0), ..t }, true)
                        } else {
                            (t, false)
                        }
                    },
                }
            },
        }
    }
}

fn write_leaf(target: &mut Element, leaf: &str, value: &str) -> (ok: bool)
    ensures
        (final(target)@, ok) == leaf_written(old(target)@, leaf@, value@),
{
    proof {
        lemma_view_children(*target);
    }
    let ghost t = target@;
    if str_eq(leaf, "#text") {
        target.text = Some(value.to_owned());
        proof {
            lemma_view_from_parts(*target, t.name, t.attributes, t.children, Some(value@));
        }
        true
    } else {
        match strip_prefix(leaf, "@") {
            Some(attribute) => {
                target.attributes.insert(attribute, value.to_owned());
                proof {
                    lemma_view_from_parts(*target, t.name, pairs_insert(t.attributes, leaf@.skip("@"@.len() as int), value@), t.children, t.text);
                }
                true
            },
            None => false,
        }
    }
}

/// A refused write leaves the element as it was.
proof fn lemma_refused_unchanged(t: ElementView, d: ElementView, segs: Seq<Seq<char>>, leaf: Seq<char>, value: Seq<char>)
    ensures
        !set_leaf_spec(t, d, segs, leaf, value).1 ==> set_leaf_spec(t, d, segs, leaf, value).0 == t,
{
}

fn set_leaf_at(target: &mut Element, donor: &Element, segs: &Vec<String>, from: usize, leaf: &str, value: &str) -> (ok: bool)
    requires
        from <= segs@.len(),
    ensures
        (final(target)@, ok) == set_leaf_spec(old(target)@, donor@, views(segs@).skip(from as int), leaf@, value@),
    decreases segs@.len() - from,
{
    proof {
        lemma_view_children(*target);
        lemma_view_children(*donor);
    }
    let ghost t = target@;
    let ghost rest = views(segs@).skip(from as int);
    if from == segs.len() {
        proof {
            assert(rest.len() == 0);
        }
        return write_leaf(target, leaf, value);
    }
    proof {
        assert(rest[0] == segs@[from as int]@);
        assert(rest.drop_first() =~= views(segs@).skip(from + 1));
    }
    let wanted = segs[from].as_str();
    let donor_index = match find_child(donor, wanted) {
        Some(index) => index,
        None => {
            return false;
        },
    };
    let donor_child = &donor.children[donor_index];
    let target_index = find_child(target, wanted);
    let mut children: Vec<Element> = Vec::new();
    std::mem::swap(&mut children, &mut target.children);
    let ghost mut expected: Seq<ElementView> = Seq::empty();
    let ok = match target_index {
        Some(index) => {
            let mut child = children.remove(index);
            let ghost before_child = child@;
            let ok = set_leaf_at(&mut child, donor_child, segs, from + 1, leaf, value);
            let ghost child_view = child@;
            children.insert(index, child);
            proof {
                assert(before_child == t.children[index as int]);
                lemma_refused_unchanged(before_child, donor_child@, rest.drop_first(), leaf@, value@);
                expected = if ok {
                    t.children.update(index as int, child_view)
                } else {
                    t.children
                };
                assert forall|j: int| 0 <= j < expected.len() implies #[trigger] children@[j]@ == expected[j] by {}
            }
            ok
        },
        None => {
            let mut child = donor_child.shell();
            proof {
                lemma_view_from_parts(child, donor_child@.name, key_pairs(donor_child.attributes@), Seq::empty(), None);
            }
            let ok = set_leaf_at(&mut child, donor_child, segs, from + 1, leaf, value);
            let ghost child_view = child@;
            if ok {
                children.push(child);
            }
            proof {
                expected = if ok {
                    t.children.push(child_view)
                } else {
                    t.children
                };
                assert forall|j: int| 0 <= j < expected.len() implies #[trigger] children@[j]@ == expected[j] by {}
            }
            ok
        },
    };
    target.children = children;
    proof {
        lemma_view_from_parts(*target, t.name, t.attributes, expected, t.text);
    }
    ok
}

/// Writes `value` at `path`, creating any missing ancestors by copying their
/// shells (name and identifying attribute) from `donor`, the tree the leaf is
/// coming from. Returns false, leaving the target as it was, when `donor`
/// does not contain the path or the leaf names nothing writable.
pub fn set_leaf(target: &mut Element, donor: &Element, path: &str, value: &str) -> (ok: bool)
    ensures
        (final(target)@, ok) == set_leaf_spec(
            old(target)@,
            donor@,
            split_on(path@, '/').drop_last(),
            split_on(path@, '/').last(),
            value@,
        ),
{
    let mut segments = split_str(path, '/');
    proof {
        crate::text::lemma_split_on_nonempty(path@, '/');
    }
    let ghost all = views(segments@);
    let leaf = segments.pop().unwrap();
    proof {
        assert(views(segments@) =~= all.drop_last());
        assert(views(segments@).skip(0) =~= views(segments@));
    }
    set_leaf_at(target, donor, &segments, 0, leaf.as_str(), value)
}


/// An element with its children pruned, keeping only those that still carry
/// a value once pruned themselves.
pub open spec fn pruned(e: ElementView) -> ElementView
    decreases e, 1nat,
{
    ElementView { children: pruned_children(e, e.children.len()), ..e }
}

/// The pruned first `n` children of `e` that keep a value.
pub open spec fn pruned_children(e: ElementView, n: nat) -> Seq<ElementView>
    decreases e, 0nat, n,
{
    if n == 0 || n > e.children.len() {
        Seq::empty()
    } else {
        let rest = pruned_children(e, (n - 1) as nat);
        let child = pruned(e.children[n - 1]);
        if valueless(child) {
            rest
        } else {
            rest.push(child)
        }
    }
}

fn prune_owned(element: Element) -> (r: Element)
    ensures
        r@ == pruned(element@),
    decreases element,
{
    proof {
        lemma_view_children(element);
    }
    let ghost e = element@;
    let Element { name, attributes, children, text } = element;
    let ghost all = children@;
    let total = children.len();
    let mut remaining = children;
    let mut kept: Vec<Element> = Vec::new();
    let mut i: usize = 0;
    while remaining.len() > 0
        invariant
            i <= e.children.len(),
            total == all.len(),
            remaining@ == all.skip(i as int),
            all.len() == e.children.len(),
            forall|j: int| 0 <= j < all.len() ==> #[trigger] all[j]@ == e.children[j],
            all == element.children@,
            kept@.len() == pruned_children(e, i as nat).len(),
            forall|j: int| 0 <= j < kept@.len() ==> #[trigger] kept@[j]@ == pruned_children(e, i as nat)[j],
        decreases remaining@.len(),
    {
        proof {
            assert(remaining@.len() == all.len() - i);
        }
        let child = remaining.remove(0);
        proof {
            assert(child == all[i as int]);
            assert(remaining@ =~= all.skip(i + 1));
            assert(decreases_to!(element => element.children));
            assert(decreases_to!(element.children => element.children@));
            assert(decreases_to!(element.children@ => element.children@[i as int]));
        }
        let child = prune_owned(child);
        let valueless_child = child.is_valueless();
        if !valueless_child {
            kept.push(child);
        }
        i = i + 1;
    }
    proof {
        assert(all.skip(i as int).len() == 0);
    }
    let r = Element { name, attributes, children: kept, text };
    proof {
        lemma_view_from_parts(r, e.name, e.attributes, pruned_children(e, e.children.len()), e.text);
    }
    r
}

/// Drops elements that no longer carry any value. A parent is only removed
/// once all of its children have been, so pruning is bottom-up.
pub fn prune_empty(element: &mut Element)
    ensures
        final(element)@ == pruned(old(element)@),
{
    let mut taken = Element::new("");
    std::mem::swap(&mut taken, element);
    let result = prune_owned(taken);
    *element = result;
}

/// Walking to the terminal `leaf` below `segs` and clearing it, or `None`
/// where a segment is missing.
pub open spec fn remove_walk(t: ElementView, segs: Seq<Seq<char>>, leaf: Seq<char>) -> Option<ElementView>
    decreases segs.len(),
{
    if segs.len() == 0 {
        if leaf == "#text"@ {
            Some(ElementView { text: None, ..t })
        } else if has_prefix(leaf, "@"@) {
            Some(ElementView { attributes: pairs_remove(t.attributes, leaf.skip("@"@.len() as int)), ..t })
        } else {
            Some(t)
        }
    } else {
        match find_child_spec(t, segs[0]) {
            None => None,
            Some(i) => match remove_walk(t.children[i as int], segs.drop_first(), leaf) {
                None => None,
                Some(c) => Some(ElementView { children: t.children.update(i as int, c), ..t }),
            },
        }
    }
}

/// What removing the leaf at `path` does to a document: nothing when the
/// path leads nowhere, otherwise the leaf goes and the tree is pruned.
pub open spec fn leaf_removed(t: ElementView, path: Seq<char>) -> ElementView {
    let segs = split_on(path, '/');
    match remove_walk(t, segs.drop_last(), segs.last()) {
        Some(w) => pruned(w),
        None => t,
    }
}

fn remove_at(target: &mut Element, segs: &Vec<String>, from: usize, leaf: &str) -> (found: bool)
    requires
        from <= segs@.len(),
    ensures
        found == remove_walk(old(target)@, views(segs@).skip(from as int), leaf@) is Some,
        found ==> final(target)@ == remove_walk(old(target)@, views(segs@).skip(from as int), leaf@).unwrap(),
        !found ==> final(target)@ == old(target)@,
    decreases segs@.len() - from,
{
    proof {
        lemma_view_children(*target);
    }
    let ghost t = target@;
    let ghost rest = views(segs@).skip(from as int);
    if from == segs.len() {
        proof {
            assert(rest.len() == 0);
        }
        if str_eq(leaf, "#text") {
            target.text = None;
            proof {
                lemma_view_from_parts(*target, t.name, t.attributes, t.children, None);
            }
        } else {
            match strip_prefix(leaf, "@") {
                Some(attribute) => {
                    target.attributes.remove(attribute.as_str());
                    proof {
                        lemma_view_from_parts(*target, t.name, pairs_remove(t.attributes, leaf@.skip("@"@.len() as int)), t.children, t.text);
                    }
                },
                None => {},
            }
        }
        return true;
    }
    proof {
        assert(rest[0] == segs@[from as int]@);
        assert(rest.drop_first() =~= views(segs@).skip(from + 1));
    }
    let index = match find_child(target, segs[from].as_str()) {
        Some(index) => index,
        None => {
            return false;
        },
    };
    let mut children: Vec<Element> = Vec::new();
    std::mem::swap(&mut children, &mut target.children);
    let mut child = children.remove(index);
    let ghost before_child = child@;
    let found = remove_at(&mut child, segs, from + 1, leaf);
    let ghost child_view = child@;
    children.insert(index, child);
    target.children = children;
    proof {
        assert(before_child == t.children[index as int]);
        let expected = t.children.update(index as int, child_view);
        assert forall|j: int| 0 <= j < expected.len() implies #[trigger] target.children@[j]@ == expected[j] by {}
        lemma_view_from_parts(*target, t.name, t.attributes, expected, t.text);
        if !found {
            assert(expected =~= t.children);
        }
    }
    found
}

/// Removes the leaf at `path`, then drops any ancestor left with nothing to
/// serialize.
pub fn remove_leaf(target: &mut Element, path: &str)
    ensures
        final(target)@ == leaf_removed(old(target)@, path@),
{
    let mut segments = split_str(path, '/');
    proof {
        crate::text::lemma_split_on_nonempty(path@, '/');
    }
    let ghost all = views(segments@);
    let leaf = segments.pop().unwrap();
    proof {
        assert(views(segments@) =~= all.drop_last());
        assert(views(segments@).skip(0) =~= views(segments@));
    }
    if remove_at(target, &segments, 0, leaf.as_str()) {
        prune_empty(target);
    }
}


/// Writing a setting back disturbs nothing off its path: the element keeps
/// its name; above the leaf it keeps its attributes and text, and every
/// child but the one on the path stays as it was, a missing one being
/// grafted after the others; at the leaf, children stay and only the named
/// attribute or the text changes. A refused write, as where the donor lacks
/// the path, changes nothing at all.
pub proof fn law_writes_touch_only_their_path(
    t: ElementView,
    d: ElementView,
    segs: Seq<Seq<char>>,
    leaf: Seq<char>,
    value: Seq<char>,
)
    ensures
        ({
            let r = set_leaf_spec(t, d, segs, leaf, value).0;
            &&& r.name == t.name
            &&& segs.len() > 0 ==> {
                &&& r.attributes == t.attributes
                &&& r.text == t.text
                &&& t.children.len() <= r.children.len() <= t.children.len() + 1
                &&& forall|j: int|
                    0 <= j < t.children.len() && find_child_spec(t, segs[0]) != Some(j as nat) ==> #[trigger] r.children[j]
                        == t.children[j]
                &&& find_child_spec(d, segs[0]) is None ==> r == t
            }
            &&& !set_leaf_spec(t, d, segs, leaf, value).1 ==> r == t
            &&& segs.len() == 0 ==> {
                &&& r.children == t.children
                &&& leaf == "#text"@ ==> r.attributes == t.attributes
                &&& leaf != "#text"@ ==> r.text == t.text
            }
        }),
{
    if segs.len() > 0 {
        match find_child_spec(d, segs[0]) {
            None => {},
            Some(di) => {
                lemma_find_from_bound(t, segs[0], 0);
            },
        }
    }
}


/// The element a path of segments leads to, following at each step the
/// first child addressed by the segment.
pub open spec fn element_at(t: ElementView, segs: Seq<Seq<char>>) -> Option<ElementView>
    decreases segs.len(),
{
    if segs.len() == 0 {
        Some(t)
    } else {
        match find_child_spec(t, segs[0]) {
            Some(i) => element_at(t.children[i as int], segs.drop_first()),
            None => None,
        }
    }
}

/// Storing an attribute that identifies nothing leaves the identifying one
/// as it was.
proof fn lemma_key_kept(attributes: Map<Seq<char>, Seq<char>>, name: Seq<char>, value: Seq<char>, from: nat)
    requires
        !key_attributes().contains(name),
    ensures
        key_attribute_from(attributes.insert(name, value), from) == key_attribute_from(attributes, from),
    decreases 9 - from,
{
    if from < 9 {
        if key_attributes()[from as int] == name {
            assert(key_attributes().contains(name));
        }
        lemma_key_kept(attributes, name, value, from + 1);
    }
}

proof fn lemma_count_named_same_names(a: Seq<ElementView>, b: Seq<ElementView>, name: Seq<char>)
    requires
        a.len() == b.len(),
        forall|i: int| 0 <= i < a.len() ==> #[trigger] a[i].name == b[i].name,
    ensures
        count_named(a, name) == count_named(b, name),
    decreases a.len(),
{
    if a.len() > 0 {
        let (a0, b0) = (a.drop_last(), b.drop_last());
        assert forall|i: int| 0 <= i < a0.len() implies #[trigger] a0[i].name == b0[i].name by {
            assert(a0[i] == a[i] && b0[i] == b[i]);
        }
        lemma_count_named_same_names(a0, b0, name);
        assert(a.last().name == b.last().name);
    }
}

proof fn lemma_find_from_same(r: ElementView, t: ElementView, wanted: Seq<char>, from: nat)
    requires
        r.children.len() == t.children.len(),
        forall|j: int| 0 <= j < t.children.len() ==> #[trigger] child_segment(r, j) == child_segment(t, j),
    ensures
        find_from(r, wanted, from) == find_from(t, wanted, from),
    decreases t.children.len() - from,
{
    if from < t.children.len() {
        assert(child_segment(r, from as int) == child_segment(t, from as int));
        lemma_find_from_same(r, t, wanted, from + 1);
    }
}

proof fn lemma_written_reads_back(t: ElementView, d: ElementView, segs: Seq<Seq<char>>, name: Seq<char>, value: Seq<char>)
    requires
        element_at(t, segs) is Some,
        sorted_pairs(element_at(t, segs).unwrap().attributes),
        element_at(d, segs) is Some,
        !key_attributes().contains(name),
    ensures
        ({
            let (r, ok) = set_leaf_spec(t, d, segs, "@"@ + name, value);
            let e = element_at(t, segs).unwrap();
            &&& ok
            &&& r.name == t.name
            &&& key_of(r) == key_of(t)
            &&& element_at(r, segs) == Some(ElementView { attributes: pairs_insert(e.attributes, name, value), ..e })
        }),
    decreases segs.len(),
{
    let leaf = "@"@ + name;
    if segs.len() == 0 {
        reveal_strlit("@");
        reveal_strlit("#text");
        assert(leaf[0] == '@');
        assert("#text"@[0] == '#');
        assert(leaf != "#text"@);
        assert(has_prefix(leaf, "@"@)) by {
            assert(leaf.take(1) =~= "@"@);
        }
        assert(leaf.skip("@"@.len() as int) =~= name);
        lemma_pairs_insert_map(t.attributes, name, value);
        lemma_key_kept(map_of(t.attributes), name, value, 0);
    } else {
        let s0 = segs[0];
        let rest = segs.drop_first();
        let ti = find_child_spec(t, s0).unwrap();
        let di = find_child_spec(d, s0).unwrap();
        lemma_find_from_bound(t, s0, 0);
        lemma_find_from_bound(d, s0, 0);
        let child = t.children[ti as int];
        lemma_written_reads_back(child, d.children[di as int], rest, name, value);
        let rc = set_leaf_spec(child, d.children[di as int], rest, leaf, value);
        let r = set_leaf_spec(t, d, segs, leaf, value).0;
        assert(r == ElementView { children: t.children.update(ti as int, rc.0), ..t });
        assert forall|j: int| 0 <= j < t.children.len() implies #[trigger] child_segment(r, j) == child_segment(t, j) by {
            assert forall|i: int| 0 <= i < j implies #[trigger] r.children.take(j)[i].name == t.children.take(j)[i].name by {
                assert(r.children.take(j)[i] == r.children[i]);
                assert(t.children.take(j)[i] == t.children[i]);
            }
            lemma_count_named_same_names(r.children.take(j), t.children.take(j), t.children[j].name);
        }
        lemma_find_from_same(r, t, s0, 0);
    }
}

/// A setting written back reads back: where the document already has the
/// element a path names, and the merged document the path comes from has it
/// too, writing an attribute that does not identify the element leaves that
/// element where it was (the same path still leads to it) holding the new
/// value, with its other attributes, its text and its children as they were.
pub proof fn law_written_settings_read_back(t: ElementView, d: ElementView, segs: Seq<Seq<char>>, name: Seq<char>, value: Seq<char>)
    requires
        element_at(t, segs) is Some,
        sorted_pairs(element_at(t, segs).unwrap().attributes),
        element_at(d, segs) is Some,
        !key_attributes().contains(name),
    ensures
        ({
            let (r, ok) = set_leaf_spec(t, d, segs, "@"@ + name, value);
            let e = element_at(t, segs).unwrap();
            &&& ok
            &&& element_at(r, segs) matches Some(written)
            &&& map_of(written.attributes) == map_of(e.attributes).insert(name, value)
            &&& written.name == e.name
            &&& written.text == e.text
            &&& written.children == e.children
        }),
{
    lemma_written_reads_back(t, d, segs, name, value);
    lemma_pairs_insert_map(element_at(t, segs).unwrap().attributes, name, value);
}

} // verus!
