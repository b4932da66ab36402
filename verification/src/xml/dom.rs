//! A minimal DOM for JetBrains settings files.
//!
//! Child order is preserved because some JetBrains elements (`<list>`, ordered
//! `<filter>` chains) are order-sensitive. Attributes are held in key order, so
//! serialization is canonical without reordering anything that carries meaning.

use vstd::prelude::*;

use crate::strmap::{lemma_pairs_determined, map_of, sorted_pairs, StrMap};
use crate::xml::reader::{
    node_stands_for, xml_accepts, xml_document, xml_into_parts, xml_tree_parse, xml_tree_view, RawNode, XmlElementView, XmlNodeView,
    XmlTree,
};
use crate::text::{concat, str_eq, string_of, trim, trim_chars, chars_of};

verus! {

/// Attributes JetBrains uses to identify a sibling, most specific first. A
/// child carrying one of these is addressed by its value rather than by
/// position, so a projected path survives siblings being inserted or removed.
pub open spec fn key_attributes() -> Seq<Seq<char>> {
    seq![
        "name"@,
        "key"@,
        "id"@,
        "class"@,
        "type"@,
        "language"@,
        "scheme"@,
        "ext"@,
        "pattern"@,
    ]
}

/// Elements whose identifying attribute is only an address, never the setting
/// itself. Everything else is assumed to mean something by existing.
pub open spec fn wrapper_elements() -> Seq<Seq<char>> {
    seq!["option"@, "entry"@, "map"@, "list"@, "set"@]
}

fn key_attribute_name(i: usize) -> (r: &'static str)
    requires
        i < 9,
    ensures
        r@ == key_attributes()[i as int],
{
    match i {
        0 => "name",
        1 => "key",
        2 => "id",
        3 => "class",
        4 => "type",
        5 => "language",
        6 => "scheme",
        7 => "ext",
        _ => "pattern",
    }
}

/// Whether `name` is one of the identifying attribute names.
pub fn is_key_attribute(name: &str) -> (b: bool)
    ensures
        b == key_attributes().contains(name@),
{
    let mut i: usize = 0;
    while i < 9
        invariant
            i <= 9,
            forall|j: int| 0 <= j < i ==> key_attributes()[j] != name@,
        decreases 9 - i,
    {
        if str_eq(key_attribute_name(i), name) {
            return true;
        }
        i = i + 1;
    }
    false
}

/// Whether `name` is one of the wrapper element names.
pub fn is_wrapper_element(name: &str) -> (b: bool)
    ensures
        b == wrapper_elements().contains(name@),
{
    let r = str_eq(name, "option") || str_eq(name, "entry") || str_eq(name, "map") || str_eq(
        name,
        "list",
    ) || str_eq(name, "set");
    proof {
        if r {
            let i = if name@ == "option"@ {
                0
            } else if name@ == "entry"@ {
                1
            } else if name@ == "map"@ {
                2
            } else if name@ == "list"@ {
                3
            } else {
                4
            };
            assert(wrapper_elements()[i] == name@);
        }
    }
    r
}

/// The identifying attribute of an element carrying `attributes`: the first
/// key attribute present, counting from position `from`.
pub open spec fn key_attribute_from(attributes: Map<Seq<char>, Seq<char>>, from: nat) -> Option<
    (Seq<char>, Seq<char>),
>
    decreases 9 - from,
{
    if from >= 9 {
        None
    } else if attributes.contains_key(key_attributes()[from as int]) {
        Some((key_attributes()[from as int], attributes[key_attributes()[from as int]]))
    } else {
        key_attribute_from(attributes, from + 1)
    }
}

/// The identifying attribute of an element carrying `attributes`.
pub open spec fn key_attribute_of(attributes: Map<Seq<char>, Seq<char>>) -> Option<(Seq<char>, Seq<char>)> {
    key_attribute_from(attributes, 0)
}

/// The attribute list of an element's shell: its identifying attribute
/// alone, or nothing.
pub open spec fn key_pairs(attributes: Map<Seq<char>, Seq<char>>) -> Seq<(Seq<char>, Seq<char>)> {
    match key_attribute_of(attributes) {
        Some(p) => seq![p],
        None => Seq::empty(),
    }
}

#[derive(Debug, PartialEq, Eq)]
pub struct Element {
    pub name: String,
    pub attributes: StrMap,
    pub children: Vec<Element>,
    /// Trimmed character data. JetBrains settings files never mix text and
    /// element children, so a single optional string is sufficient.
    pub text: Option<String>,
}

#[derive(Debug)]
pub struct ParseError(pub String);

/// The mathematical content of an [`Element`]: attributes as the ordered list
/// of pairs, children as a sequence.
pub struct ElementView {
    pub name: Seq<char>,
    pub attributes: Seq<(Seq<char>, Seq<char>)>,
    pub children: Seq<ElementView>,
    pub text: Option<Seq<char>>,
}

/// The views of the first `n` children of `e`.
pub open spec fn children_views(e: Element, n: nat) -> Seq<ElementView>
    decreases e, 0nat, n,
{
    if n == 0 || n > e.children@.len() {
        Seq::empty()
    } else {
        children_views(e, (n - 1) as nat).push(element_view(e.children@[n - 1]))
    }
}

pub open spec fn text_view(t: Option<String>) -> Option<Seq<char>> {
    match t {
        Some(s) => Some(s@),
        None => None,
    }
}

/// The view of an element.
pub open spec fn element_view(e: Element) -> ElementView
    decreases e, 1nat,
{
    ElementView {
        name: e.name@,
        attributes: e.attributes.pairs(),
        children: children_views(e, e.children@.len()),
        text: text_view(e.text),
    }
}

impl View for Element {
    type V = ElementView;

    open spec fn view(&self) -> ElementView {
        element_view(*self)
    }
}

pub proof fn lemma_children_views(e: Element, n: nat)
    requires
        n <= e.children@.len(),
    ensures
        children_views(e, n).len() == n,
        forall|i: int| 0 <= i < n ==> #[trigger] children_views(e, n)[i] == element_view(e.children@[i]),
    decreases n,
{
    if n > 0 {
        lemma_children_views(e, (n - 1) as nat);
    }
}

/// The children of an element's view are the views of its children.
pub proof fn lemma_view_children(e: Element)
    ensures
        e@.children.len() == e.children@.len(),
        forall|i: int| 0 <= i < e.children@.len() ==> #[trigger] e@.children[i] == e.children@[i]@,
{
    lemma_children_views(e, e.children@.len());
}

/// Two elements whose parts have the same views have the same view.
pub proof fn lemma_view_from_parts(e: Element, name: Seq<char>, attributes: Seq<(Seq<char>, Seq<char>)>, children: Seq<ElementView>, text: Option<Seq<char>>)
    requires
        e.name@ == name,
        e.attributes.pairs() == attributes,
        e.children@.len() == children.len(),
        forall|i: int| 0 <= i < children.len() ==> #[trigger] e.children@[i]@ == children[i],
        text_view(e.text) == text,
    ensures
        e@ == (ElementView { name, attributes, children, text }),
{
    lemma_view_children(e);
    assert(e@.children =~= children);
}

/// True when an element carries no value of its own: no children, no text,
/// and either no attributes or, on a wrapper element, only addressing ones.
pub open spec fn valueless(e: ElementView) -> bool {
    &&& e.children.len() == 0
    &&& e.text.is_none()
    &&& (e.attributes.len() == 0 || (wrapper_elements().contains(e.name) && forall|i: int|
        0 <= i < e.attributes.len() ==> key_attributes().contains(#[trigger] e.attributes[i].0)))
}

impl Element {
    pub fn new(name: &str) -> (e: Self)
        ensures
            e.name@ == name@,
            e.attributes@ == Map::<Seq<char>, Seq<char>>::empty(),
            e.attributes.pairs() == Seq::<(Seq<char>, Seq<char>)>::empty(),
            e.children@.len() == 0,
            e.text.is_none(),
    {
        Element { name: name.to_owned(), attributes: StrMap::new(), children: Vec::new(), text: None }
    }

    /// The identifying attribute for this element, if it carries one.
    pub fn key_attribute(&self) -> (r: Option<(String, String)>)
        ensures
            r matches Some(p) ==> key_attribute_of(self.attributes@) == Some((p.0@, p.1@)),
            r is None ==> key_attribute_of(self.attributes@) is None,
    {
        let mut i: usize = 0;
        while i < 9
            invariant
                i <= 9,
                key_attribute_of(self.attributes@) == key_attribute_from(self.attributes@, i as nat),
            decreases 9 - i,
        {
            let name = key_attribute_name(i);
            match self.attributes.get(name) {
                Some(value) => {
                    return Some((name.to_owned(), value.clone()));
                },
                None => {},
            }
            i = i + 1;
        }
        None
    }

    /// True when the element carries no value of its own, and can therefore be
    /// pruned once a merge or a prune rule removed its last leaf.
    ///
    /// In a *wrapper* element the name is only an address and the value lives in
    /// a sibling attribute, so `<option name="map" />` with an emptied map holds
    /// nothing. In a domain element the name is the payload —
    /// `<global_color_scheme name="Islands Dark" />` *is* the colour-scheme
    /// setting — so it must survive.
    pub fn is_valueless(&self) -> (b: bool)
        ensures
            b == valueless(self@),
    {
        proof {
            lemma_view_children(*self);
        }
        if self.children.len() != 0 || self.text.is_some() {
            return false;
        }
        if self.attributes.is_empty() {
            return true;
        }
        if !is_wrapper_element(self.name.as_str()) {
            return false;
        }
        let n = self.attributes.len();
        let mut i: usize = 0;
        while i < n
            invariant
                i <= n,
                n == self.attributes.pairs().len(),
                forall|j: int| 0 <= j < i ==> key_attributes().contains(#[trigger] self.attributes.pairs()[j].0),
            decreases n - i,
        {
            if !is_key_attribute(self.attributes.key_at(i).as_str()) {
                return false;
            }
            i = i + 1;
        }
        true
    }

    /// An independent copy of the whole tree.
    pub fn copy(&self) -> (r: Self)
        ensures
            r@ == self@,
        decreases self,
    {
        let mut children: Vec<Element> = Vec::new();
        let mut i: usize = 0;
        while i < self.children.len()
            invariant
                i <= self.children@.len(),
                children@.len() == i,
                forall|j: int| 0 <= j < i ==> #[trigger] children@[j]@ == self.children@[j]@,
            decreases self.children@.len() - i,
        {
            let child = self.children[i].copy();
            children.push(child);
            i = i + 1;
        }
        let text = match &self.text {
            Some(t) => Some(t.clone()),
            None => None,
        };
        let r = Element { name: self.name.clone(), attributes: self.attributes.copy(), children, text };
        proof {
            lemma_view_children(*self);
            lemma_view_from_parts(r, self@.name, self@.attributes, self@.children, self@.text);
        }
        r
    }

    /// The element as an address only: its name and its identifying
    /// attribute, if any. A merge grafts such shells of a donor path onto a
    /// tree that does not have those ancestors yet, so grafting brings along
    /// no setting of its own.
    pub fn shell(&self) -> (r: Self)
        ensures
            r.name@ == self.name@,
            r.attributes.pairs() == key_pairs(self.attributes@),
            r.children@.len() == 0,
            r.text.is_none(),
    {
        let mut attributes = StrMap::new();
        match self.key_attribute() {
            Some((key, value)) => {
                attributes.insert(key, value);
            },
            None => {},
        }
        Element { name: self.name.clone(), attributes, children: Vec::new(), text: None }
    }
}


/// How one character is written inside a double-quoted attribute value.
/// Whitespace inside an attribute is normalized to a space by any conforming
/// parser, so it must survive as a character reference.
pub open spec fn escape_attribute_char(c: char) -> Seq<char> {
    if c == '&' {
        "&amp;"@
    } else if c == '<' {
        "&lt;"@
    } else if c == '>' {
        "&gt;"@
    } else if c == '"' {
        "&quot;"@
    } else if c == '\n' {
        "&#10;"@
    } else if c == '\r' {
        "&#13;"@
    } else if c == '\t' {
        "&#9;"@
    } else {
        seq![c]
    }
}

/// How one character is written as element text.
pub open spec fn escape_text_char(c: char) -> Seq<char> {
    if c == '&' {
        "&amp;"@
    } else if c == '<' {
        "&lt;"@
    } else if c == '>' {
        "&gt;"@
    } else {
        seq![c]
    }
}

pub open spec fn escape_attribute_spec(s: Seq<char>) -> Seq<char>
    decreases s.len(),
{
    if s.len() == 0 {
        Seq::empty()
    } else {
        escape_attribute_spec(s.drop_last()) + escape_attribute_char(s.last())
    }
}

pub open spec fn escape_text_spec(s: Seq<char>) -> Seq<char>
    decreases s.len(),
{
    if s.len() == 0 {
        Seq::empty()
    } else {
        escape_text_spec(s.drop_last()) + escape_text_char(s.last())
    }
}

/// ` key="value"` for each attribute, in key order.
pub open spec fn attributes_text(p: Seq<(Seq<char>, Seq<char>)>) -> Seq<char>
    decreases p.len(),
{
    if p.len() == 0 {
        Seq::empty()
    } else {
        attributes_text(p.drop_last()) + " "@ + p.last().0 + "=\""@ + escape_attribute_spec(p.last().1)
            + "\""@
    }
}

/// The lines of `e`, each starting with `indent`, children indented two more.
pub open spec fn element_text(e: ElementView, indent: Seq<char>) -> Seq<char>
    decreases e, 1nat,
{
    let open = indent + "<"@ + e.name + attributes_text(e.attributes);
    if e.children.len() == 0 && e.text.is_none() {
        open + " />\n"@
    } else if e.children.len() == 0 {
        open + ">"@ + escape_text_spec(e.text.unwrap()) + "</"@ + e.name + ">\n"@
    } else {
        open + ">\n"@ + children_text(e, e.children.len(), indent + "  "@) + indent + "</"@ + e.name
            + ">\n"@
    }
}

/// The text of the first `n` children of `e`.
pub open spec fn children_text(e: ElementView, n: nat, indent: Seq<char>) -> Seq<char>
    decreases e, 0nat, n,
{
    if n == 0 || n > e.children.len() {
        Seq::empty()
    } else {
        children_text(e, (n - 1) as nat, indent) + element_text(e.children[n - 1], indent)
    }
}

/// The whole serialized document.
pub open spec fn document_text(root: ElementView) -> Seq<char> {
    "<?xml version='1.0' encoding='utf-8'?>\n"@ + element_text(root, Seq::empty())
}

fn escape_attribute(value: &str) -> (r: String)
    ensures
        r@ == escape_attribute_spec(value@),
{
    let chars = chars_of(value);
    let mut escaped = String::new();
    let mut i: usize = 0;
    while i < chars.len()
        invariant
            i <= chars.len(),
            chars@ == value@,
            escaped@ == escape_attribute_spec(chars@.take(i as int)),
        decreases chars.len() - i,
    {
        let c = chars[i];
        if c == '&' {
            escaped.append("&amp;");
        } else if c == '<' {
            escaped.append("&lt;");
        } else if c == '>' {
            escaped.append("&gt;");
        } else if c == '"' {
            escaped.append("&quot;");
        } else if c == '\n' {
            escaped.append("&#10;");
        } else if c == '\r' {
            escaped.append("&#13;");
        } else if c == '\t' {
            escaped.append("&#9;");
        } else {
            crate::text::push_char(&mut escaped, c);
        }
        proof {
            assert(chars@.take(i + 1 as int).drop_last() == chars@.take(i as int));
        }
        i = i + 1;
    }
    proof {
        assert(chars@.take(chars@.len() as int) == chars@);
    }
    escaped
}

fn escape_text(value: &str) -> (r: String)
    ensures
        r@ == escape_text_spec(value@),
{
    let chars = chars_of(value);
    let mut escaped = String::new();
    let mut i: usize = 0;
    while i < chars.len()
        invariant
            i <= chars.len(),
            chars@ == value@,
            escaped@ == escape_text_spec(chars@.take(i as int)),
        decreases chars.len() - i,
    {
        let c = chars[i];
        if c == '&' {
            escaped.append("&amp;");
        } else if c == '<' {
            escaped.append("&lt;");
        } else if c == '>' {
            escaped.append("&gt;");
        } else {
            crate::text::push_char(&mut escaped, c);
        }
        proof {
            assert(chars@.take(i + 1 as int).drop_last() == chars@.take(i as int));
        }
        i = i + 1;
    }
    proof {
        assert(chars@.take(chars@.len() as int) == chars@);
    }
    escaped
}

fn write_element(output: &mut String, element: &Element, indent: &str)
    ensures
        final(output)@ == old(output)@ + element_text(element@, indent@),
    decreases element,
{
    proof {
        lemma_view_children(*element);
    }
    let ghost start = output@;
    output.append(indent);
    output.append("<");
    output.append(element.name.as_str());
    let n = element.attributes.len();
    let mut i: usize = 0;
    while i < n
        invariant
            i <= n,
            n == element.attributes.pairs().len(),
            output@ == start + indent@ + "<"@ + element.name@ + attributes_text(element.attributes.pairs().take(i as int)),
        decreases n - i,
    {
        output.append(" ");
        output.append(element.attributes.key_at(i).as_str());
        output.append("=\"");
        let escaped = escape_attribute(element.attributes.value_at(i).as_str());
        output.append(escaped.as_str());
        output.append("\"");
        proof {
            let p = element.attributes.pairs();
            assert(p.take(i + 1 as int).drop_last() == p.take(i as int));
            assert(p.take(i + 1 as int).last() == p[i as int]);
        }
        i = i + 1;
    }
    proof {
        assert(element.attributes.pairs().take(n as int) == element.attributes.pairs());
    }
    let ghost open = start + indent@ + "<"@ + element.name@ + attributes_text(element.attributes.pairs());
    assert(output@ == open);
    if element.children.len() == 0 {
        match &element.text {
            None => {
                output.append(" />\n");
            },
            Some(text) => {
                output.append(">");
                let escaped = escape_text(text.as_str());
                output.append(escaped.as_str());
                output.append("</");
                output.append(element.name.as_str());
                output.append(">\n");
            },
        }
        return;
    }
    output.append(">\n");
    let inner = concat(indent, "  ");
    let count = element.children.len();
    let mut c: usize = 0;
    while c < count
        invariant
            c <= count,
            count == element.children@.len(),
            inner@ == indent@ + "  "@,
            output@ == open + ">\n"@ + children_text(element@, c as nat, inner@),
            forall|i: int| 0 <= i < element.children@.len() ==> #[trigger] element@.children[i] == element.children@[i]@,
            element@.children.len() == element.children@.len(),
        decreases count - c,
    {
        write_element(output, &element.children[c], inner.as_str());
        c = c + 1;
    }
    output.append(indent);
    output.append("</");
    output.append(element.name.as_str());
    output.append(">\n");
}

/// Serializes to the same dialect JetBrains itself writes: a single-quoted
/// declaration, two-space indentation, and a space before every `/>`.
pub fn serialize(root: &Element) -> (s: String)
    ensures
        s@ == document_text(root@),
{
    let mut output = "<?xml version='1.0' encoding='utf-8'?>\n".to_owned();
    proof {
        reveal_strlit("");
        assert(""@ =~= Seq::<char>::empty());
    }
    write_element(&mut output, root, "");
    output
}


/// Element text is trimmed and never empty, all the way down.
pub open spec fn canonical(e: Element) -> bool
    decreases e,
{
    &&& (e.text matches Some(t) ==> t@ == trim(t@) && t@.len() > 0)
    &&& forall|i: int| 0 <= i < e.children@.len() ==> canonical(#[trigger] e.children@[i])
}

proof fn lemma_trim_idempotent(s: Seq<char>)
    ensures
        trim(trim(s)) == trim(s),
{
    crate::text::lemma_trim_idempotent(s);
}

/// The text an element keeps of its character data: trimmed, and none when
/// nothing is left.
pub open spec fn kept_text(data: Seq<char>) -> Option<Seq<char>> {
    if trim(data).len() == 0 {
        None
    } else {
        Some(trim(data))
    }
}

/// The character data among `nodes`, concatenated in order.
pub open spec fn node_data(nodes: Seq<XmlNodeView>) -> Seq<char>
    decreases nodes.len(),
{
    if nodes.len() == 0 {
        Seq::empty()
    } else {
        node_data(nodes.drop_last()) + match nodes.last() {
            XmlNodeView::Data(t) => t,
            _ => Seq::empty(),
        }
    }
}

/// The attribute list, in key order, that holds exactly the map `m`.
pub open spec fn sorted_pairs_of(m: Map<Seq<char>, Seq<char>>) -> Seq<(Seq<char>, Seq<char>)> {
    choose|p: Seq<(Seq<char>, Seq<char>)>| sorted_pairs(p) && map_of(p) == m
}

/// The element a read document stands for: its name, its attributes in key
/// order, one converted child per element child, and its character data
/// trimmed (none when nothing is left).
pub open spec fn converted(v: XmlElementView) -> ElementView
    decreases v, 1nat,
{
    ElementView {
        name: v.name,
        attributes: sorted_pairs_of(v.attributes),
        children: converted_children(v, v.nodes.len()),
        text: kept_text(node_data(v.nodes)),
    }
}

/// The converted element children among the first `n` nodes of `v`.
pub open spec fn converted_children(v: XmlElementView, n: nat) -> Seq<ElementView>
    decreases v, 0nat, n,
{
    if n == 0 || n > v.nodes.len() {
        Seq::empty()
    } else {
        let rest = converted_children(v, (n - 1) as nat);
        match v.nodes[n - 1] {
            XmlNodeView::Element(c) => {
                proof {
                    assert(decreases_to!(v => v.nodes));
                    assert(decreases_to!(v.nodes => v.nodes[n - 1]));
                }
                rest.push(converted(c))
            },
            _ => rest,
        }
    }
}

/// The document a text holds, as an element, when it is one.
#[verifier::opaque]
pub open spec fn parsed_document(contents: Seq<char>) -> ElementView {
    converted(xml_document(contents).unwrap())
}

/// Converts an `xmltree` element, and its children in turn.
fn convert(source: XmlTree) -> (e: Element)
    ensures
        canonical(e),
        e@ == converted(xml_tree_view(source)),
    decreases xml_tree_view(source),
{
    let ghost v = xml_tree_view(source);
    let (name, attributes, nodes) = xml_into_parts(source);
    let ghost pairs = attributes@;
    let mut map = StrMap::new();
    let mut attributes = attributes;
    while attributes.len() > 0
        invariant
            attributes@ == pairs.take(attributes@.len() as int),
            attributes@.len() <= pairs.len(),
            forall|i: int|
                0 <= i < pairs.len() ==> v.attributes.contains_key((#[trigger] pairs[i]).0@) && v.attributes[pairs[i].0@] == pairs[i].1@,
            forall|k: Seq<char>|
                #[trigger] map@.contains_key(k) <==> exists|j: int| attributes@.len() <= j < pairs.len() && pairs[j].0@ == k,
            forall|k: Seq<char>| #[trigger] map@.contains_key(k) ==> v.attributes.contains_key(k) && map@[k] == v.attributes[k],
        decreases attributes.len(),
    {
        let ghost n = attributes@.len();
        let (key, value) = attributes.pop().unwrap();
        proof {
            assert(pairs[n - 1] == (key, value));
        }
        let ghost before = map@;
        map.insert(key, value);
        proof {
            assert forall|k: Seq<char>| #[trigger] map@.contains_key(k) implies exists|j: int|
                attributes@.len() <= j < pairs.len() && pairs[j].0@ == k by {
                if k != key@ {
                    assert(before.contains_key(k));
                } else {
                    assert(pairs[n - 1].0@ == k);
                }
            }
            assert forall|k: Seq<char>| (exists|j: int| attributes@.len() <= j < pairs.len() && pairs[j].0@ == k) implies #[trigger] map@.contains_key(k) by {
                let j = choose|j: int| attributes@.len() <= j < pairs.len() && pairs[j].0@ == k;
                if j > n - 1 {
                    assert(before.contains_key(k));
                }
            }
            assert(attributes@ =~= pairs.take(attributes@.len() as int));
        }
    }
    proof {
        assert forall|k: Seq<char>| #[trigger] v.attributes.contains_key(k) implies map@.contains_key(k) by {
            let j = choose|j: int| 0 <= j < pairs.len() && pairs[j].0@ == k;
        }
        assert(map@ =~= v.attributes);
    }
    map.is_sorted();
    proof {
        let q = sorted_pairs_of(v.attributes);
        assert(sorted_pairs(map.pairs()) && map_of(map.pairs()) == v.attributes);
        assert(sorted_pairs(q) && map_of(q) == v.attributes);
        lemma_pairs_determined(map.pairs(), q);
    }
    let mut text: Vec<char> = Vec::new();
    let mut children: Vec<Element> = Vec::new();
    let ghost all = nodes@;
    let mut nodes = nodes;
    proof {
        assert(nodes@.len() == nodes.len());
    }
    let mut consumed: usize = 0;
    while nodes.len() > 0
        invariant
            v == xml_tree_view(source),
            consumed <= all.len(),
            all.len() == v.nodes.len(),
            all.len() <= usize::MAX,
            nodes@ == all.skip(consumed as int),
            forall|i: int| 0 <= i < all.len() ==> node_stands_for(#[trigger] all[i], v.nodes[i]),
            forall|i: int| 0 <= i < children@.len() ==> canonical(#[trigger] children@[i]),
            children@.len() == converted_children(v, consumed as nat).len(),
            forall|i: int| 0 <= i < children@.len() ==> (#[trigger] children@[i])@ == converted_children(v, consumed as nat)[i],
            text@ == node_data(v.nodes.take(consumed as int)),
        decreases nodes.len(),
    {
        proof {
            assert(v.nodes.take(consumed + 1 as int).drop_last() =~= v.nodes.take(consumed as int));
            assert(v.nodes.take(consumed + 1 as int).last() == v.nodes[consumed as int]);
            assert(nodes@[0] == all[consumed as int]);
            assert(node_stands_for(all[consumed as int], v.nodes[consumed as int]));
        }
        let node = nodes.remove(0);
        proof {
            assert(nodes@ =~= all.skip(consumed + 1));
        }
        let ghost prev = children@;
        match node {
            RawNode::Element(child) => {
                proof {
                    assert(v.nodes[consumed as int] == XmlNodeView::Element(xml_tree_view(child)));
                    assert(decreases_to!(v => v.nodes));
                    assert(decreases_to!(v.nodes => v.nodes[consumed as int]));
                    assert(decreases_to!(v.nodes[consumed as int] => xml_tree_view(child)));
                }
                let converted_child = convert(child);
                children.push(converted_child);
                proof {
                    assert forall|i: int| 0 <= i < children@.len() implies (#[trigger] children@[i])@ == converted_children(
                        v,
                        (consumed + 1) as nat,
                    )[i] by {
                        if i < prev.len() {
                            assert(children@[i] == prev[i]);
                        }
                    }
                }
            },
            RawNode::Text(chunk) => {
                let piece = chars_of(chunk.as_str());
                let mut piece = piece;
                text.append(&mut piece);
            },
            RawNode::CData(chunk) => {
                let piece = chars_of(chunk.as_str());
                let mut piece = piece;
                text.append(&mut piece);
            },
            _ => {},
        }
        consumed = consumed + 1;
    }
    proof {
        assert(v.nodes.take(consumed as int) =~= v.nodes);
    }
    let trimmed = trim_chars(text.as_slice());
    let text = if trimmed.len() == 0 {
        None
    } else {
        proof {
            lemma_trim_idempotent(text@);
        }
        Some(string_of(trimmed.as_slice()))
    };
    let e = Element { name, attributes: map, children, text };
    proof {
        lemma_view_from_parts(e, v.name, sorted_pairs_of(v.attributes), converted_children(v, v.nodes.len()), kept_text(node_data(v.nodes)));
    }
    e
}

/// Parses a settings document.
pub fn parse(contents: &str) -> (r: Result<Element, ParseError>)
    ensures
        r.is_ok() == xml_accepts(contents@),
        r matches Ok(e) ==> canonical(e) && e@ == parsed_document(contents@),
{
    match xml_tree_parse(contents) {
        Ok(tree) => {
            let e = convert(tree);
            proof {
                reveal(parsed_document);
            }
            Ok(e)
        },
        Err(message) => Err(ParseError(message)),
    }
}

} // verus!
