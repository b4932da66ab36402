//! What a product's settings look like before anyone has touched them.
//!
//! An installer fills `options/` with the product's factory defaults before
//! the IDE has ever run. Those files are projected into
//! `defaults/<Product>.toml` in the store; afterwards any setting whose value
//! still equals the recorded default is treated as not-a-choice and kept out
//! of the shared store.

use vstd::prelude::*;

use crate::config::{sanitize_name, sanitized};
use crate::strmap::StrMap;
use crate::text::{concat, str_eq};
use crate::xml::dom::{parse, parsed_document, ElementView};
use crate::xml::project::{project, projection_of};
use crate::xml::reader::xml_accepts;

verus! {

/// Where a product's defaults live inside the store.
pub open spec fn defaults_path(product: Seq<char>) -> Seq<char> {
    "defaults/"@ + sanitized(product, "product"@) + ".toml"@
}

/// Where a product's defaults live inside the store. Product names come from
/// directory names, so they are kept to one file-name-safe component.
pub fn relative_path(product: &str) -> (r: String)
    ensures
        r@ == defaults_path(product@),
{
    let name = sanitize_name(product, "product");
    let mut path = concat("defaults/", name.as_str());
    path.append(".toml");
    path
}

/// One row of a [`FileTable`], by value.
pub open spec fn row_view(e: (String, StrMap)) -> (Seq<char>, Map<Seq<char>, Seq<char>>) {
    (e.0@, e.1@)
}

/// Whether `key` names a row.
pub open spec fn table_has(rows: Seq<(Seq<char>, Map<Seq<char>, Seq<char>>)>, key: Seq<char>) -> bool {
    exists|i: int| 0 <= i < rows.len() && #[trigger] rows[i].0 == key
}

/// The row holding `key`.
pub open spec fn table_index(rows: Seq<(Seq<char>, Map<Seq<char>, Seq<char>>)>, key: Seq<char>) -> int {
    choose|i: int| 0 <= i < rows.len() && #[trigger] rows[i].0 == key
}

/// No key names two rows.
pub open spec fn distinct_keys(rows: Seq<(Seq<char>, Map<Seq<char>, Seq<char>>)>) -> bool {
    forall|i: int, j: int| 0 <= i < rows.len() && 0 <= j < rows.len() && #[trigger] rows[i].0 == #[trigger] rows[j].0 ==> i == j
}

/// The map a list of rows with distinct keys denotes.
pub open spec fn table_map(rows: Seq<(Seq<char>, Map<Seq<char>, Seq<char>>)>) -> Map<Seq<char>, Map<Seq<char>, Seq<char>>> {
    Map::new(|k: Seq<char>| table_has(rows, k), |k: Seq<char>| rows[table_index(rows, k)].1)
}

proof fn lemma_table_index(rows: Seq<(Seq<char>, Map<Seq<char>, Seq<char>>)>, i: int)
    requires
        distinct_keys(rows),
        0 <= i < rows.len(),
    ensures
        table_has(rows, rows[i].0),
        table_index(rows, rows[i].0) == i,
        table_map(rows).contains_key(rows[i].0),
        table_map(rows)[rows[i].0] == rows[i].1,
{
    assert(table_has(rows, rows[i].0));
}

/// Store-relative file path to that file's settings, each file at most once.
#[derive(Debug)]
pub struct FileTable {
    rows: Vec<(String, StrMap)>,
}

impl FileTable {
    #[verifier::type_invariant]
    spec fn distinct(self) -> bool {
        distinct_keys(self.rows@.map_values(|e: (String, StrMap)| row_view(e)))
    }

    /// The rows, in the order they were first recorded.
    pub closed spec fn rows(self) -> Seq<(Seq<char>, Map<Seq<char>, Seq<char>>)> {
        self.rows@.map_values(|e: (String, StrMap)| row_view(e))
    }

    pub open spec fn view(self) -> Map<Seq<char>, Map<Seq<char>, Seq<char>>> {
        table_map(self.rows())
    }

    pub fn new() -> (t: Self)
        ensures
            t.rows().len() == 0,
            t@ == Map::<Seq<char>, Map<Seq<char>, Seq<char>>>::empty(),
    {
        let t = FileTable { rows: Vec::new() };
        assert(t@ =~= Map::<Seq<char>, Map<Seq<char>, Seq<char>>>::empty());
        t
    }

    pub fn len(&self) -> (n: usize)
        ensures
            n == self.rows().len(),
            n == self@.dom().len(),
    {
        proof {
            use_type_invariant(self);
            self.lemma_dom_len();
        }
        self.rows.len()
    }

    proof fn lemma_dom_len(&self)
        requires
            distinct_keys(self.rows()),
        ensures
            self@.dom().len() == self.rows().len(),
            self@.dom().finite(),
    {
        let rows = self.rows();
        let keys = rows.map_values(|e: (Seq<char>, Map<Seq<char>, Seq<char>>)| e.0);
        assert(keys.no_duplicates()) by {
            assert forall|i: int, j: int| 0 <= i < keys.len() && 0 <= j < keys.len() && i != j implies keys[i] != keys[j] by {
                assert(keys[i] == rows[i].0);
                assert(keys[j] == rows[j].0);
            }
        }
        assert(keys.to_set() =~= self@.dom()) by {
            assert forall|k: Seq<char>| keys.to_set().contains(k) <==> self@.dom().contains(k) by {
                if keys.to_set().contains(k) {
                    let i = choose|i: int| 0 <= i < keys.len() && keys[i] == k;
                    assert(rows[i].0 == k);
                }
                if self@.dom().contains(k) {
                    let i = choose|i: int| 0 <= i < rows.len() && #[trigger] rows[i].0 == k;
                    assert(keys[i] == k);
                }
            }
        }
        keys.unique_seq_to_set();
    }

    pub fn is_empty(&self) -> (b: bool)
        ensures
            b == (self@.dom().len() == 0),
            b == (self@ == Map::<Seq<char>, Map<Seq<char>, Seq<char>>>::empty()),
    {
        proof {
            use_type_invariant(self);
            self.lemma_dom_len();
            if self.rows().len() > 0 {
                lemma_table_index(self.rows(), 0);
            } else {
                assert(self@ =~= Map::<Seq<char>, Map<Seq<char>, Seq<char>>>::empty());
            }
        }
        self.rows.len() == 0
    }

    /// The path of the `i`-th row.
    pub fn key_at(&self, i: usize) -> (k: &String)
        requires
            i < self.rows().len(),
        ensures
            k@ == self.rows()[i as int].0,
    {
        &self.rows[i].0
    }

    /// The settings of the `i`-th row.
    pub fn value_at(&self, i: usize) -> (v: &StrMap)
        requires
            i < self.rows().len(),
        ensures
            v@ == self.rows()[i as int].1,
    {
        &self.rows[i].1
    }

    fn position(&self, key: &str) -> (r: Option<usize>)
        ensures
            r matches Some(i) ==> i < self.rows().len() && self.rows()[i as int].0 == key@,
            r is None ==> !table_has(self.rows(), key@),
    {
        let mut i: usize = 0;
        while i < self.rows.len()
            invariant
                i <= self.rows@.len(),
                forall|j: int| 0 <= j < i ==> #[trigger] self.rows()[j].0 != key@,
            decreases self.rows@.len() - i,
        {
            proof {
                assert(self.rows()[i as int] == row_view(self.rows@[i as int]));
            }
            if str_eq(self.rows[i].0.as_str(), key) {
                return Some(i);
            }
            i = i + 1;
        }
        None
    }

    /// The settings recorded for `key`.
    pub fn get(&self, key: &str) -> (r: Option<&StrMap>)
        ensures
            r.is_some() == self@.contains_key(key@),
            r matches Some(v) ==> v@ == self@[key@],
    {
        proof {
            use_type_invariant(self);
        }
        match self.position(key) {
            Some(i) => {
                proof {
                    lemma_table_index(self.rows(), i as int);
                    assert(self.rows()[i as int] == row_view(self.rows@[i as int]));
                }
                Some(&self.rows[i].1)
            },
            None => None,
        }
    }

    /// Records `value` under `key`, replacing any earlier record.
    pub fn set(&mut self, key: String, value: StrMap)
        ensures
            final(self)@ == old(self)@.insert(key@, value@),
    {
        proof {
            use_type_invariant(&*self);
        }
        let ghost before = self.rows();
        let ghost k = key@;
        let ghost v = value@;
        let found = self.position(key.as_str());
        let mut rows: Vec<(String, StrMap)> = Vec::new();
        std::mem::swap(&mut rows, &mut self.rows);
        proof {
            assert(rows@.map_values(|e: (String, StrMap)| row_view(e)) == before);
        }
        match found {
            Some(i) => {
                rows.set(i, (key, value));
                proof {
                    let after = rows@.map_values(|e: (String, StrMap)| row_view(e));
                    assert(after =~= before.update(i as int, (k, v)));
                    assert(distinct_keys(after)) by {
                        assert forall|a: int, b: int| 0 <= a < after.len() && 0 <= b < after.len() && #[trigger] after[a].0 == #[trigger] after[b].0 implies a == b by {
                            if a != i as int && b != i as int {
                                assert(before[a].0 == before[b].0);
                            } else if a == i as int && b != i as int {
                                assert(before[b].0 == before[a].0);
                            } else if b == i as int && a != i as int {
                                assert(before[a].0 == before[b].0);
                            }
                        }
                    }
                    assert forall|x: Seq<char>| #[trigger] table_map(after).contains_key(x) == (table_map(before).insert(k, v)).contains_key(x) by {
                        if table_has(before, x) {
                            let j = table_index(before, x);
                            if j == i as int {
                                assert(after[j].0 == x);
                            } else {
                                assert(after[j].0 == x);
                            }
                        }
                        if table_has(after, x) {
                            let j = table_index(after, x);
                            if j != i as int {
                                assert(before[j].0 == x);
                            }
                        }
                    }
                    assert forall|x: Seq<char>| #[trigger] table_map(after).contains_key(x) implies table_map(after)[x] == table_map(before).insert(k, v)[x] by {
                        let j = table_index(after, x);
                        lemma_table_index(after, j);
                        if j != i as int {
                            assert(before[j].0 == x);
                            lemma_table_index(before, j);
                        }
                    }
                    assert(table_map(after) =~= table_map(before).insert(k, v));
                }
            },
            None => {
                rows.push((key, value));
                proof {
                    let after = rows@.map_values(|e: (String, StrMap)| row_view(e));
                    assert(after =~= before.push((k, v)));
                    assert(distinct_keys(after)) by {
                        assert forall|a: int, b: int| 0 <= a < after.len() && 0 <= b < after.len() && #[trigger] after[a].0 == #[trigger] after[b].0 implies a == b by {
                            if a < before.len() && b < before.len() {
                                assert(before[a].0 == before[b].0);
                            } else if a < before.len() {
                                assert(before[a].0 == k);
                            } else if b < before.len() {
                                assert(before[b].0 == k);
                            }
                        }
                    }
                    lemma_table_index(after, before.len() as int);
                    assert forall|x: Seq<char>| #[trigger] table_map(after).contains_key(x) == (table_map(before).insert(k, v)).contains_key(x) by {
                        if table_has(before, x) {
                            let j = table_index(before, x);
                            assert(after[j].0 == x);
                        }
                        if table_has(after, x) {
                            let j = table_index(after, x);
                            if j < before.len() {
                                assert(before[j].0 == x);
                            }
                        }
                    }
                    assert forall|x: Seq<char>| #[trigger] table_map(after).contains_key(x) implies table_map(after)[x] == table_map(before).insert(k, v)[x] by {
                        let j = table_index(after, x);
                        lemma_table_index(after, j);
                        if j < before.len() {
                            assert(before[j].0 == x);
                            lemma_table_index(before, j);
                        }
                    }
                    assert(table_map(after) =~= table_map(before).insert(k, v));
                }
            },
        }
        self.rows = rows;
    }
}

/// A product's captured factory defaults.
#[derive(Debug)]
pub struct ProductDefaults {
    pub version: u32,
    pub product: String,
    /// Build the capture came from, for diagnosis. Not used for matching: a
    /// value that was this product's default at any point is not evidence of
    /// a choice.
    pub build: String,
    /// Store-relative file path -> setting address -> default value.
    pub files: FileTable,
}

impl Default for ProductDefaults {
    fn default() -> (d: Self)
        ensures
            d.version == 0,
            d.product@.len() == 0,
            d.build@.len() == 0,
            d.files@ == Map::<Seq<char>, Map<Seq<char>, Seq<char>>>::empty(),
    {
        ProductDefaults { version: 0, product: String::new(), build: String::new(), files: FileTable::new() }
    }
}

/// Whether recording `values` for `relative` changes `files`: a non-empty
/// capture that differs from the one already held.
pub open spec fn record_changes(
    files: Map<Seq<char>, Map<Seq<char>, Seq<char>>>,
    relative: Seq<char>,
    values: Map<Seq<char>, Seq<char>>,
) -> bool {
    values != Map::<Seq<char>, Seq<char>>::empty() && !(files.contains_key(relative) && files[relative] == values)
}

impl ProductDefaults {
    pub fn new(product: &str, build: &str) -> (d: Self)
        ensures
            d.version == 1,
            d.product@ == product@,
            d.build@ == build@,
            d.files@ == Map::<Seq<char>, Map<Seq<char>, Seq<char>>>::empty(),
    {
        ProductDefaults { version: 1, product: product.to_owned(), build: build.to_owned(), files: FileTable::new() }
    }

    /// Records one file's projected defaults, replacing any earlier capture of
    /// that file. Returns whether anything changed.
    pub fn record(&mut self, relative: &str, values: StrMap) -> (changed: bool)
        ensures
            changed == record_changes(old(self).files@, relative@, values@),
            final(self).files@ == if changed {
                old(self).files@.insert(relative@, values@)
            } else {
                old(self).files@
            },
            final(self).version == old(self).version,
            final(self).product == old(self).product,
            final(self).build == old(self).build,
    {
        if values.is_empty() {
            return false;
        }
        let unchanged = match self.files.get(relative) {
            Some(current) => current.same_as(&values),
            None => false,
        };
        if unchanged {
            return false;
        }
        self.files.set(relative.to_owned(), values);
        true
    }

    /// The default value of one setting, if this product has a recorded one.
    pub fn value(&self, relative: &str, address: &str) -> (r: Option<&String>)
        ensures
            r.is_some() == (self.files@.contains_key(relative@) && self.files@[relative@].contains_key(address@)),
            r matches Some(v) ==> v@ == self.files@[relative@][address@],
    {
        match self.files.get(relative) {
            Some(values) => values.get(address),
            None => None,
        }
    }

    pub fn is_empty(&self) -> (b: bool)
        ensures
            b == (self.files@ == Map::<Seq<char>, Map<Seq<char>, Seq<char>>>::empty()),
    {
        self.files.is_empty()
    }

    /// Captures the settings a never-launched IDE's file holds, as shipped:
    /// a settings document is projected and recorded; anything else records
    /// nothing. Returns whether anything changed.
    pub fn capture(&mut self, relative: &str, text: &str) -> (changed: bool)
        ensures
            !xml_accepts(text@) ==> !changed && final(self).files@ == old(self).files@,
            xml_accepts(text@) ==> changed == record_changes(
                old(self).files@,
                relative@,
                projection_of(parsed_document(text@)),
            ) && final(self).files@ == if changed {
                old(self).files@.insert(relative@, projection_of(parsed_document(text@)))
            } else {
                old(self).files@
            },
            final(self).version == old(self).version,
            final(self).product == old(self).product,
            final(self).build == old(self).build,
    {
        match parse(text) {
            Ok(document) => {
                let values = project(&document);
                let ghost root = document@;
                let changed = self.record(relative, values);
                proof {
                    assert(projection_of(root) == projection_of(document@));
                }
                changed
            },
            Err(_) => false,
        }
    }
}

/// Recording the same capture twice changes nothing the second time.
pub proof fn law_record_is_idempotent(
    files: Map<Seq<char>, Map<Seq<char>, Seq<char>>>,
    relative: Seq<char>,
    values: Map<Seq<char>, Seq<char>>,
)
    ensures
        record_changes(files, relative, values) ==> !record_changes(files.insert(relative, values), relative, values),
{
}

/// After a capture is recorded, each of its settings reads back as recorded.
pub proof fn law_recorded_values_read_back(
    files: Map<Seq<char>, Map<Seq<char>, Seq<char>>>,
    relative: Seq<char>,
    values: Map<Seq<char>, Seq<char>>,
    address: Seq<char>,
)
    requires
        values.contains_key(address),
    ensures
        ({
            let after = if record_changes(files, relative, values) { files.insert(relative, values) } else { files };
            after.contains_key(relative) && after[relative].contains_key(address)
                && after[relative][address] == values[address]
        }),
{
    assert(!Map::<Seq<char>, Seq<char>>::empty().contains_key(address));
}

} // verus!
