//! Installed JetBrains IDE config directories and their installation
//! metadata, and the decisions made about them.
//!
//! Walking the disk is the program's business: an [`Ide`] arrives with the
//! files found in its config directory already listed.

use vstd::prelude::*;

use crate::error::JbsyncError;
use crate::glob::{all_compile, all_plain, glob_compiles, glob_error, glob_hit, glob_matches};
use crate::plugins::{runs_less, runs_lt};
use crate::text::{chars_of, clone_strings, concat, contains_str, join_strings, join_with, str_eq, string_of, views};

verus! {

#[derive(Debug)]
pub struct Ide {
    pub product: String,
    /// The config directory, as a path.
    pub path: String,
    /// The config directory's own name, e.g. `IntelliJIdea2026.2`.
    pub directory: String,
    pub pattern_index: usize,
    pub metadata: Option<ProductMetadata>,
    /// Every file in the config directory, relative and `/`-separated,
    /// skipping caches and other directories that never sync.
    pub files: Vec<String>,
    /// Roamable paths the IDE's own bundled sync has recorded, as
    /// `settings_sync_manifest` finds them in its `settingsSync/` tree.
    pub settings_sync: Vec<String>,
    /// Each plugin directory under `plugins/` whose descriptor could be read,
    /// in path order: the directory's name and its `META-INF/plugin.xml`.
    pub plugin_descriptors: Vec<(String, String)>,
    /// The text of `bundled_plugins.txt`, where the IDE has one.
    pub bundled_plugins_txt: Option<String>,
}

#[derive(Debug, Clone)]
pub struct ProductMetadata {
    pub data_directory_name: String,
    pub name: String,
    pub product_code: String,
    pub build_number: String,
    pub version: String,
    pub bundled_plugins: Vec<String>,
    pub modules: Vec<String>,
    pub launcher: String,
    pub vm_options_file: String,
    pub installation_root: String,
    pub product_info: String,
}

impl Default for ProductMetadata {
    fn default() -> (m: Self)
        ensures
            m.data_directory_name@.len() == 0,
            m.name@.len() == 0,
            m.product_code@.len() == 0,
            m.build_number@.len() == 0,
            m.version@.len() == 0,
            m.bundled_plugins@.len() == 0,
            m.modules@.len() == 0,
            m.launcher@.len() == 0,
            m.vm_options_file@.len() == 0,
            m.installation_root@.len() == 0,
            m.product_info@.len() == 0,
    {
        ProductMetadata {
            data_directory_name: String::new(),
            name: String::new(),
            product_code: String::new(),
            build_number: String::new(),
            version: String::new(),
            bundled_plugins: Vec::new(),
            modules: Vec::new(),
            launcher: String::new(),
            vm_options_file: String::new(),
            installation_root: String::new(),
            product_info: String::new(),
        }
    }
}

/// The files the IntelliJ platform itself accepts as proof that a directory is
/// a real config directory rather than one an installer just created.
pub open spec fn launched_markers() -> Seq<Seq<char>> {
    seq!["options/other.xml"@, "options/ide.general.xml"@, "options/options.xml"@]
}

/// Whether an IDE with these files has ever been started.
pub open spec fn launched(files: Seq<Seq<char>>) -> bool {
    exists|i: int| 0 <= i < 3 && files.contains(#[trigger] launched_markers()[i])
}

impl Ide {
    /// Whether this IDE has ever been started.
    ///
    /// A never-launched IDE must not take part in a sync: its `options/` holds
    /// the product's factory defaults, and anything written into it races the
    /// first-run import wizard.
    pub fn has_been_launched(&self) -> (b: bool)
        ensures
            b == launched(views(self.files@)),
    {
        let a = contains_str(&self.files, "options/other.xml");
        let b = contains_str(&self.files, "options/ide.general.xml");
        let c = contains_str(&self.files, "options/options.xml");
        proof {
            if a {
                assert(views(self.files@).contains(launched_markers()[0]));
            }
            if b {
                assert(views(self.files@).contains(launched_markers()[1]));
            }
            if c {
                assert(views(self.files@).contains(launched_markers()[2]));
            }
        }
        a || b || c
    }
}

pub open spec fn is_digit(c: char) -> bool {
    '0' <= c <= '9'
}

pub open spec fn digit_value(c: char) -> nat {
    (c as int - '0' as int) as nat
}

/// The number a run of decimal digits spells.
pub open spec fn decimal_value(s: Seq<char>) -> nat
    decreases s.len(),
{
    if s.len() == 0 {
        0
    } else {
        decimal_value(s.drop_last()) * 10 + digit_value(s.last())
    }
}

/// A run parsed as `u64`, or 0 when it does not fit.
pub open spec fn run_value(s: Seq<char>) -> u64 {
    if decimal_value(s) <= u64::MAX {
        decimal_value(s) as u64
    } else {
        0
    }
}

/// The runs finished so far, and the digits of the one in progress.
pub open spec fn runs_so_far(s: Seq<char>) -> (Seq<u64>, Seq<char>)
    decreases s.len(),
{
    if s.len() == 0 {
        (Seq::empty(), Seq::empty())
    } else {
        let (done, current) = runs_so_far(s.drop_last());
        if is_digit(s.last()) {
            (done, current.push(s.last()))
        } else if current.len() > 0 {
            (done.push(run_value(current)), Seq::empty())
        } else {
            (done, current)
        }
    }
}

/// Digit runs in `text` as a tuple-comparable key, e.g. "2024.3.1" ->
/// [2024, 3, 1], with `[0]` for text without digits and 0 for a run too
/// large for `u64`.
pub open spec fn digit_runs_spec(text: Seq<char>) -> Seq<u64> {
    let (done, current) = runs_so_far(text);
    let all = if current.len() > 0 {
        done.push(run_value(current))
    } else {
        done
    };
    if all.len() == 0 {
        seq![0u64]
    } else {
        all
    }
}

/// Digit runs in `text` as a tuple-comparable key.
pub fn digit_runs(text: &str) -> (r: Vec<u64>)
    ensures
        r@ == digit_runs_spec(text@),
{
    let chars = chars_of(text);
    let mut result: Vec<u64> = Vec::new();
    let mut digits: usize = 0;
    let mut value: u64 = 0;
    let mut fits = true;
    let ghost mut current: Seq<char> = Seq::empty();
    let mut i: usize = 0;
    while i < chars.len()
        invariant
            i <= chars@.len(),
            chars@ == text@,
            runs_so_far(chars@.take(i as int)) == (result@, current),
            digits == current.len(),
            digits <= i,
            fits == (decimal_value(current) <= u64::MAX),
            fits ==> value == decimal_value(current),
        decreases chars@.len() - i,
    {
        let c = chars[i];
        proof {
            assert(chars@.take(i + 1 as int).drop_last() == chars@.take(i as int));
            assert(chars@.take(i + 1 as int).last() == c);
        }
        if '0' <= c && c <= '9' {
            let d = (c as u32 - '0' as u32) as u64;
            proof {
                assert(current.push(c).drop_last() == current);
                assert(d == digit_value(c));
            }
            if fits && value <= (u64::MAX - d) / 10 {
                value = value * 10 + d;
            } else {
                fits = false;
            }
            digits = digits + 1;
            proof {
                current = current.push(c);
            }
        } else if digits > 0 {
            result.push(if fits {
                value
            } else {
                0
            });
            digits = 0;
            value = 0;
            fits = true;
            proof {
                current = Seq::empty();
            }
        }
        i = i + 1;
    }
    proof {
        assert(chars@.take(i as int) == chars@);
    }
    if digits > 0 {
        result.push(if fits {
            value
        } else {
            0
        });
    }
    if result.len() == 0 {
        result.push(0);
        proof {
            assert(result@ =~= seq![0u64]);
        }
    }
    result
}

/// The leading ASCII letters of `s`.
pub open spec fn leading_letters_spec(s: Seq<char>) -> Seq<char>
    decreases s.len(),
{
    if s.len() > 0 && (('a' <= s[0] <= 'z') || ('A' <= s[0] <= 'Z')) {
        seq![s[0]] + leading_letters_spec(s.drop_first())
    } else {
        Seq::empty()
    }
}

/// The product a config directory belongs to: its leading letters, or the
/// whole name when it has none.
pub open spec fn product_name_spec(dirname: Seq<char>) -> Seq<char> {
    if leading_letters_spec(dirname).len() == 0 {
        dirname
    } else {
        leading_letters_spec(dirname)
    }
}

proof fn lemma_leading_letters(s: Seq<char>, i: int)
    requires
        0 <= i <= s.len(),
        forall|j: int| 0 <= j < i ==> ('a' <= #[trigger] s[j] <= 'z') || ('A' <= s[j] <= 'Z'),
        i < s.len() ==> !(('a' <= s[i] <= 'z') || ('A' <= s[i] <= 'Z')),
    ensures
        leading_letters_spec(s) == s.take(i),
    decreases i,
{
    if i > 0 {
        assert forall|j: int| 0 <= j < i - 1 implies ('a' <= #[trigger] s.drop_first()[j] <= 'z') || ('A'
            <= s.drop_first()[j] <= 'Z') by {
            assert(s.drop_first()[j] == s[j + 1]);
        }
        if i < s.len() {
            assert(s.drop_first()[i - 1] == s[i]);
        }
        lemma_leading_letters(s.drop_first(), i - 1);
        assert(seq![s[0]] + s.drop_first().take(i - 1) =~= s.take(i));
    } else {
        assert(s.take(0) =~= Seq::<char>::empty());
    }
}

fn leading_letters(name: &str) -> (r: String)
    ensures
        r@ == leading_letters_spec(name@),
{
    let chars = chars_of(name);
    let mut i: usize = 0;
    while i < chars.len() && (('a' <= chars[i] && chars[i] <= 'z') || ('A' <= chars[i] && chars[i] <= 'Z'))
        invariant
            i <= chars@.len(),
            forall|j: int| 0 <= j < i ==> ('a' <= #[trigger] chars@[j] <= 'z') || ('A' <= chars@[j] <= 'Z'),
        decreases chars@.len() - i,
    {
        i = i + 1;
    }
    proof {
        lemma_leading_letters(chars@, i as int);
    }
    crate::text::prefix_string(&chars, i)
}

/// The product a config directory belongs to, e.g. `IntelliJIdea` for
/// `IntelliJIdea2024.3`.
pub fn product_name(dirname: &str) -> (r: String)
    ensures
        r@ == product_name_spec(dirname@),
{
    let letters = leading_letters(dirname);
    if letters.as_str().is_empty() {
        dirname.to_owned()
    } else {
        letters
    }
}

/// The names a selector is matched against: directory, product, and from
/// the installation metadata its display name, product code and data
/// directory name.
pub open spec fn selector_names(ide: Ide) -> Seq<Seq<char>> {
    let own = seq![ide.directory@, ide.product@];
    match ide.metadata {
        Some(m) => own + seq![m.name@, m.product_code@, m.data_directory_name@],
        None => own,
    }
}

/// Whether a selector glob picks an IDE: some non-empty name of it matches.
pub open spec fn selects(ide: Ide, selector: Seq<char>) -> bool {
    exists|i: int| 0 <= i < selector_names(ide).len() && #[trigger] selector_names(ide)[i].len() > 0 && glob_hit(selector, selector_names(ide)[i])
}

/// Whether `selector`, a glob without backslashes, names this IDE. Absolute
/// paths are resolved against the disk by the program before it asks.
pub fn ide_matches_selector(ide: &Ide, selector: &str) -> (b: bool)
    ensures
        !selector@.contains('\\') && (forall|i: int| 0 <= i < selector_names(*ide).len() ==> !#[trigger] selector_names(*ide)[i].contains('\\'))
            ==> b == selects(*ide, selector@),
{
    let mut names: Vec<String> = Vec::new();
    names.push(ide.directory.clone());
    names.push(ide.product.clone());
    match &ide.metadata {
        Some(m) => {
            names.push(m.name.clone());
            names.push(m.product_code.clone());
            names.push(m.data_directory_name.clone());
        },
        None => {},
    }
    proof {
        assert(views(names@) =~= selector_names(*ide));
    }
    let mut i: usize = 0;
    while i < names.len()
        invariant
            i <= names@.len(),
            views(names@) == selector_names(*ide),
            forall|j: int| 0 <= j < i ==> !(#[trigger] names@[j]@.len() > 0 && glob_hit(selector@, names@[j]@))
                || selector@.contains('\\') || names@[j]@.contains('\\'),
        decreases names@.len() - i,
    {
        let name = names[i].as_str();
        if !name.is_empty() && glob_matches(selector, name) {
            proof {
                if !selector@.contains('\\') && !name@.contains('\\') {
                    assert(selector_names(*ide)[i as int] == name@);
                }
            }
            return true;
        }
        i = i + 1;
    }
    proof {
        if !selector@.contains('\\') && (forall|i: int| 0 <= i < selector_names(*ide).len() ==> !#[trigger] selector_names(*ide)[i].contains('\\')) {
            assert forall|k: int| 0 <= k < selector_names(*ide).len() implies !(#[trigger] selector_names(*ide)[k].len() > 0 && glob_hit(selector@, selector_names(*ide)[k])) by {
                assert(names@[k]@ == selector_names(*ide)[k]);
            }
        }
    }
    false
}

/// The first IDE a selector picks, or an error naming the IDEs available.
/// Selectors and names are globs and names without backslashes.
pub fn select_ide<'a>(ides: &'a [Ide], selector: &str, role: &str) -> (r: Result<&'a Ide, JbsyncError>)
    ensures
        r matches Ok(ide) ==> exists|i: int| 0 <= i < ides@.len() && ides@[i] == *ide,
        r is Err ==> (r matches Err(JbsyncError::NoMatchingIde { role: got_role, selector: got, available }) && got_role@ == role@
            && got@ == selector@ && available@ == join_with(ides@.map_values(|i: Ide| i.directory@), ", "@)),
        !selector@.contains('\\') && (forall|i: int| 0 <= i < ides@.len() ==> all_plain(selector_names(#[trigger] ides@[i]))) ==> {
            &&& (r is Err <==> forall|i: int| 0 <= i < ides@.len() ==> !selects(#[trigger] ides@[i], selector@))
            &&& (r matches Ok(ide) ==> exists|i: int|
                0 <= i < ides@.len() && ides@[i] == *ide && selects(ides@[i], selector@) && forall|j: int|
                    0 <= j < i ==> !selects(#[trigger] ides@[j], selector@))
        },
{
    let ghost plain = !selector@.contains('\\') && (forall|i: int| 0 <= i < ides@.len() ==> all_plain(selector_names(#[trigger] ides@[i])));
    let mut i: usize = 0;
    while i < ides.len()
        invariant
            i <= ides@.len(),
            plain == (!selector@.contains('\\') && (forall|i: int| 0 <= i < ides@.len() ==> all_plain(selector_names(#[trigger] ides@[i])))),
            plain ==> forall|j: int| 0 <= j < i ==> !selects(#[trigger] ides@[j], selector@),
        decreases ides@.len() - i,
    {
        let hit = ide_matches_selector(&ides[i], selector);
        proof {
            if plain {
                assert(all_plain(selector_names(ides@[i as int])));
            }
        }
        if hit {
            return Ok(&ides[i]);
        }
        i = i + 1;
    }
    let mut names: Vec<String> = Vec::new();
    let mut j: usize = 0;
    while j < ides.len()
        invariant
            j <= ides@.len(),
            views(names@) == ides@.take(j as int).map_values(|i: Ide| i.directory@),
        decreases ides@.len() - j,
    {
        let ghost prev = names@;
        names.push(ides[j].directory.clone());
        proof {
            assert(views(names@) =~= views(prev).push(ides@[j as int].directory@));
            assert(ides@.take(j + 1 as int).map_values(|i: Ide| i.directory@) =~= ides@.take(j as int).map_values(|i: Ide| i.directory@).push(ides@[j as int].directory@));
        }
        j = j + 1;
    }
    proof {
        assert(ides@.take(j as int) =~= ides@);
    }
    Err(JbsyncError::NoMatchingIde {
        role: role.to_owned(),
        selector: selector.to_owned(),
        available: join_strings(names.as_slice(), ", "),
    })
}

/// Two metadata records hold the same values.
pub open spec fn same_metadata(a: ProductMetadata, b: ProductMetadata) -> bool {
    &&& a.data_directory_name@ == b.data_directory_name@
    &&& a.name@ == b.name@
    &&& a.product_code@ == b.product_code@
    &&& a.build_number@ == b.build_number@
    &&& a.version@ == b.version@
    &&& views(a.bundled_plugins@) == views(b.bundled_plugins@)
    &&& views(a.modules@) == views(b.modules@)
    &&& a.launcher@ == b.launcher@
    &&& a.vm_options_file@ == b.vm_options_file@
    &&& a.installation_root@ == b.installation_root@
    &&& a.product_info@ == b.product_info@
}

impl ProductMetadata {
    /// A copy holding the same values.
    pub fn copy(&self) -> (r: Self)
        ensures
            same_metadata(r, *self),
    {
        ProductMetadata {
            data_directory_name: self.data_directory_name.clone(),
            name: self.name.clone(),
            product_code: self.product_code.clone(),
            build_number: self.build_number.clone(),
            version: self.version.clone(),
            bundled_plugins: clone_strings(&self.bundled_plugins),
            modules: clone_strings(&self.modules),
            launcher: self.launcher.clone(),
            vm_options_file: self.vm_options_file.clone(),
            installation_root: self.installation_root.clone(),
            product_info: self.product_info.clone(),
        }
    }
}

/// The config directories found under the JetBrains root, as paths and
/// names.
pub open spec fn entries_view(entries: Seq<(String, String)>) -> Seq<(Seq<char>, Seq<char>)> {
    entries.map_values(|e: (String, String)| (e.0@, e.1@))
}

/// `x` placed into a list already newest first, after every directory whose
/// version is not older than its own.
pub open spec fn placed_newest_first(t: Seq<(Seq<char>, Seq<char>)>, x: (Seq<char>, Seq<char>)) -> Seq<(Seq<char>, Seq<char>)>
    decreases t.len(),
{
    if t.len() == 0 {
        seq![x]
    } else if runs_lt(digit_runs_spec(t.last().1), digit_runs_spec(x.1)) {
        placed_newest_first(t.drop_last(), x).push(t.last())
    } else {
        t.push(x)
    }
}

/// Directories by the digit runs of their names, newest first; directories
/// with equal runs keep their order.
pub open spec fn newest_first(s: Seq<(Seq<char>, Seq<char>)>) -> Seq<(Seq<char>, Seq<char>)>
    decreases s.len(),
{
    if s.len() == 0 {
        s
    } else {
        placed_newest_first(newest_first(s.drop_last()), s.last())
    }
}

/// The directories whose names a pattern matches, in the order found.
pub open spec fn pattern_hits(entries: Seq<(Seq<char>, Seq<char>)>, pattern: Seq<char>) -> Seq<(Seq<char>, Seq<char>)> {
    entries.filter(|e: (Seq<char>, Seq<char>)| glob_hit(pattern, e.1))
}

/// Whether a directory was already taken, by its path.
pub open spec fn taken(found: Seq<(Seq<char>, Seq<char>, nat)>, path: Seq<char>) -> bool {
    exists|i: int| 0 <= i < found.len() && #[trigger] found[i].0 == path
}

/// Candidates of the pattern at `index` added in turn, each unless its
/// directory was already taken.
pub open spec fn add_untaken(
    found: Seq<(Seq<char>, Seq<char>, nat)>,
    candidates: Seq<(Seq<char>, Seq<char>)>,
    index: nat,
) -> Seq<(Seq<char>, Seq<char>, nat)>
    decreases candidates.len(),
{
    if candidates.len() == 0 {
        found
    } else {
        let before = add_untaken(found, candidates.drop_last(), index);
        let c = candidates.last();
        if taken(before, c.0) {
            before
        } else {
            before.push((c.0, c.1, index))
        }
    }
}

/// The IDE directories the patterns pick, as path, name and the position of
/// the first pattern that picked them: pattern by pattern, each pattern's
/// matches newest first. That order is also ascending by pattern and, within
/// a pattern, newest first.
pub open spec fn discovered(entries: Seq<(Seq<char>, Seq<char>)>, patterns: Seq<Seq<char>>) -> Seq<(Seq<char>, Seq<char>, nat)>
    decreases patterns.len(),
{
    if patterns.len() == 0 {
        Seq::empty()
    } else {
        add_untaken(
            discovered(entries, patterns.drop_last()),
            newest_first(pattern_hits(entries, patterns.last())),
            (patterns.len() - 1) as nat,
        )
    }
}

/// The installation metadata recorded for a data directory name: the first
/// record with that name.
pub open spec fn metadata_for(metadata: Seq<ProductMetadata>, name: Seq<char>) -> Option<ProductMetadata> {
    if exists|i: int| 0 <= i < metadata.len() && #[trigger] metadata[i].data_directory_name@ == name {
        Some(
            metadata[choose|i: int|
                0 <= i < metadata.len() && #[trigger] metadata[i].data_directory_name@ == name && forall|j: int|
                    0 <= j < i ==> #[trigger] metadata[j].data_directory_name@ != name],
        )
    } else {
        None
    }
}

/// Whether an IDE's metadata holds what `expected` says.
pub open spec fn metadata_matches(got: Option<ProductMetadata>, expected: Option<ProductMetadata>) -> bool {
    match (got, expected) {
        (Some(a), Some(b)) => same_metadata(a, b),
        (None, None) => true,
        _ => false,
    }
}

/// The IDE a discovered directory stands for, before its files are listed.
pub open spec fn discovered_ide(ide: Ide, d: (Seq<char>, Seq<char>, nat), metadata: Seq<ProductMetadata>) -> bool {
    &&& ide.path@ == d.0
    &&& ide.directory@ == d.1
    &&& ide.product@ == product_name_spec(d.1)
    &&& ide.pattern_index == d.2
    &&& metadata_matches(ide.metadata, metadata_for(metadata, d.1))
    &&& ide.files@.len() == 0
    &&& ide.settings_sync@.len() == 0
    &&& ide.plugin_descriptors@.len() == 0
    &&& ide.bundled_plugins_txt is None
}

fn find_metadata(metadata: &[ProductMetadata], name: &str) -> (r: Option<ProductMetadata>)
    ensures
        metadata_matches(r, metadata_for(metadata@, name@)),
{
    let mut i: usize = 0;
    while i < metadata.len()
        invariant
            i <= metadata@.len(),
            forall|j: int| 0 <= j < i ==> #[trigger] metadata@[j].data_directory_name@ != name@,
        decreases metadata@.len() - i,
    {
        if str_eq(metadata[i].data_directory_name.as_str(), name) {
            proof {
                let k = choose|k: int|
                    0 <= k < metadata@.len() && #[trigger] metadata@[k].data_directory_name@ == name@ && forall|j: int|
                        0 <= j < k ==> #[trigger] metadata@[j].data_directory_name@ != name@;
                if k > i {
                    assert(metadata@[i as int].data_directory_name@ != name@);
                }
            }
            return Some(metadata[i].copy());
        }
        i = i + 1;
    }
    None
}

proof fn lemma_placed_newest_at(t: Seq<(Seq<char>, Seq<char>)>, x: (Seq<char>, Seq<char>), j: int)
    requires
        0 <= j <= t.len(),
        forall|k: int| j <= k < t.len() ==> runs_lt(digit_runs_spec(#[trigger] t[k].1), digit_runs_spec(x.1)),
        j == 0 || !runs_lt(digit_runs_spec(t[j - 1].1), digit_runs_spec(x.1)),
    ensures
        placed_newest_first(t, x) == t.take(j).push(x) + t.skip(j),
    decreases t.len(),
{
    if t.len() == 0 {
        assert(t.take(j).push(x) + t.skip(j) =~= seq![x]);
    } else if runs_lt(digit_runs_spec(t.last().1), digit_runs_spec(x.1)) {
        let u = t.drop_last();
        assert forall|k: int| j <= k < u.len() implies runs_lt(digit_runs_spec(#[trigger] u[k].1), digit_runs_spec(x.1)) by {
            assert(u[k] == t[k]);
        }
        if j > 0 {
            assert(u[j - 1] == t[j - 1]);
        }
        if j == t.len() {
            assert(!runs_lt(digit_runs_spec(t[j - 1].1), digit_runs_spec(x.1)));
        }
        lemma_placed_newest_at(u, x, j);
        assert(t.take(j).push(x) + t.skip(j) =~= (u.take(j).push(x) + u.skip(j)).push(t.last()));
    } else {
        if j < t.len() {
            assert(runs_lt(digit_runs_spec(t[t.len() - 1].1), digit_runs_spec(x.1)));
        }
        assert(t.take(j).push(x) + t.skip(j) =~= t.push(x));
    }
}

/// The directories `pattern` matches, newest first.
fn hits_newest_first(entries: &[(String, String)], pattern: &str) -> (r: Vec<(String, String)>)
    ensures
        !pattern@.contains('\\') && (forall|i: int| 0 <= i < entries@.len() ==> !(#[trigger] entries@[i]).1@.contains('\\'))
            ==> entries_view(r@) == newest_first(pattern_hits(entries_view(entries@), pattern@)),
{
    let ghost ev = entries_view(entries@);
    let ghost plain = !pattern@.contains('\\') && (forall|i: int| 0 <= i < entries@.len() ==> !(#[trigger] entries@[i]).1@.contains('\\'));
    let mut sorted: Vec<(String, String)> = Vec::new();
    let ghost mut taken_so_far: Seq<(Seq<char>, Seq<char>)> = Seq::empty();
    let mut i: usize = 0;
    while i < entries.len()
        invariant
            i <= entries@.len(),
            ev == entries_view(entries@),
            plain == (!pattern@.contains('\\') && (forall|i: int| 0 <= i < entries@.len() ==> !(#[trigger] entries@[i]).1@.contains('\\'))),
            plain ==> taken_so_far == ev.take(i as int).filter(|e: (Seq<char>, Seq<char>)| glob_hit(pattern@, e.1)),
            entries_view(sorted@) == newest_first(taken_so_far),
        decreases entries@.len() - i,
    {
        proof {
            assert(ev.take(i + 1 as int).drop_last() =~= ev.take(i as int));
            assert(ev[i as int] == (entries@[i as int].0@, entries@[i as int].1@));
            reveal(Seq::filter);
        }
        if glob_matches(pattern, entries[i].1.as_str()) {
            let x = (entries[i].0.clone(), entries[i].1.clone());
            let key = digit_runs(x.1.as_str());
            let ghost t = entries_view(sorted@);
            let mut j: usize = sorted.len();
            while j > 0 && runs_less(digit_runs(sorted[j - 1].1.as_str()).as_slice(), key.as_slice())
                invariant
                    j <= sorted@.len(),
                    t == entries_view(sorted@),
                    key@ == digit_runs_spec(x.1@),
                    forall|k: int| j <= k < t.len() ==> runs_lt(digit_runs_spec(#[trigger] t[k].1), digit_runs_spec(x.1@)),
                decreases j,
            {
                proof {
                    assert(t[j - 1] == (sorted@[j - 1].0@, sorted@[j - 1].1@));
                }
                j = j - 1;
            }
            proof {
                if j > 0 {
                    assert(t[j - 1] == (sorted@[j - 1].0@, sorted@[j - 1].1@));
                }
                lemma_placed_newest_at(t, (x.0@, x.1@), j as int);
            }
            sorted.insert(j, x);
            proof {
                assert(entries_view(sorted@) =~= t.take(j as int).push((x.0@, x.1@)) + t.skip(j as int));
                assert(taken_so_far.push(ev[i as int]).drop_last() =~= taken_so_far);
                taken_so_far = taken_so_far.push(ev[i as int]);
            }
        }
        i = i + 1;
    }
    proof {
        assert(ev.take(i as int) =~= ev);
    }
    sorted
}

/// Whether some IDE already has this path.
fn has_path(found: &Vec<Ide>, path: &str) -> (b: bool)
    ensures
        b == exists|i: int| 0 <= i < found@.len() && #[trigger] found@[i].path@ == path@,
{
    let mut i: usize = 0;
    while i < found.len()
        invariant
            i <= found@.len(),
            forall|j: int| 0 <= j < i ==> #[trigger] found@[j].path@ != path@,
        decreases found@.len() - i,
    {
        if str_eq(found[i].path.as_str(), path) {
            return true;
        }
        i = i + 1;
    }
    false
}

/// The IDEs found under the JetBrains root: `entries` are its directories,
/// as path and name; `patterns` are globs over the names, in the order
/// configured; `metadata` is the installation metadata by data directory
/// name. Each directory is taken once, for the first pattern that matches it;
/// a pattern's matches come newest first by the digit runs of their names.
/// The IDEs come without their files listed. A pattern that does not compile
/// is a configuration error.
pub fn discover_ides(entries: &[(String, String)], patterns: &[String], metadata: &[ProductMetadata]) -> (r: Result<
    Vec<Ide>,
    JbsyncError,
>)
    ensures
        all_plain(views(patterns@)) && (forall|i: int| 0 <= i < entries@.len() ==> !(#[trigger] entries@[i]).1@.contains('\\')) ==> {
            &&& (r is Err <==> !all_compile(views(patterns@)))
            &&& (r matches Err(e) ==> e is Configuration)
            &&& (r matches Ok(ides) ==> {
                let d = discovered(entries_view(entries@), views(patterns@));
                &&& ides@.len() == d.len()
                &&& forall|i: int| 0 <= i < d.len() ==> discovered_ide(#[trigger] ides@[i], d[i], metadata@)
            })
        },
{
    let ghost ev = entries_view(entries@);
    let ghost pv = views(patterns@);
    let ghost plain = all_plain(pv) && (forall|i: int| 0 <= i < entries@.len() ==> !(#[trigger] entries@[i]).1@.contains('\\'));
    let mut found: Vec<Ide> = Vec::new();
    let mut index: usize = 0;
    while index < patterns.len()
        invariant
            index <= patterns@.len(),
            ev == entries_view(entries@),
            pv == views(patterns@),
            plain == (all_plain(pv) && (forall|i: int| 0 <= i < entries@.len() ==> !(#[trigger] entries@[i]).1@.contains('\\'))),
            plain ==> forall|k: int| 0 <= k < index ==> glob_compiles(#[trigger] pv[k]),
            plain ==> found@.len() == discovered(ev, pv.take(index as int)).len(),
            plain ==> forall|k: int| 0 <= k < found@.len() ==> discovered_ide(#[trigger] found@[k], discovered(ev, pv.take(index as int))[k], metadata@),
        decreases patterns@.len() - index,
    {
        let pattern = patterns[index].as_str();
        proof {
            assert(pv[index as int] == pattern@);
            assert(pv.take(index + 1 as int).drop_last() =~= pv.take(index as int));
            assert(pv.take(index + 1 as int).last() == pattern@);
        }
        match glob_error(pattern) {
            Some(error) => {
                let mut message = concat("invalid IDE pattern \"", pattern);
                message.append("\": ");
                message.append(error.as_str());
                return Err(JbsyncError::configuration(message));
            },
            None => {},
        }
        let candidates = hits_newest_first(entries, pattern);
        let ghost cv = entries_view(candidates@);
        let ghost start = discovered(ev, pv.take(index as int));
        let mut c: usize = 0;
        while c < candidates.len()
            invariant
                c <= candidates@.len(),
                cv == entries_view(candidates@),
                plain ==> found@.len() == add_untaken(start, cv.take(c as int), index as nat).len(),
                plain ==> forall|k: int| 0 <= k < found@.len() ==> discovered_ide(#[trigger] found@[k], add_untaken(start, cv.take(c as int), index as nat)[k], metadata@),
            decreases candidates@.len() - c,
        {
            let ghost before = add_untaken(start, cv.take(c as int), index as nat);
            proof {
                assert(cv.take(c + 1 as int).drop_last() =~= cv.take(c as int));
                assert(cv.take(c + 1 as int).last() == cv[c as int]);
                assert(cv[c as int] == (candidates@[c as int].0@, candidates@[c as int].1@));
            }
            let seen = has_path(&found, candidates[c].0.as_str());
            proof {
                if !plain {
                } else if seen {
                    let k = choose|k: int| 0 <= k < found@.len() && #[trigger] found@[k].path@ == candidates@[c as int].0@;
                    assert(before[k].0 == cv[c as int].0);
                } else {
                    assert forall|k: int| 0 <= k < before.len() implies #[trigger] before[k].0 != cv[c as int].0 by {
                        assert(discovered_ide(found@[k], before[k], metadata@));
                    }
                }
            }
            if !seen {
                let name = candidates[c].1.as_str();
                let ide = Ide {
                    product: product_name(name),
                    path: candidates[c].0.clone(),
                    directory: name.to_owned(),
                    pattern_index: index,
                    metadata: find_metadata(metadata, name),
                    files: Vec::new(),
                    settings_sync: Vec::new(),
                    plugin_descriptors: Vec::new(),
                    bundled_plugins_txt: None,
                };
                found.push(ide);
            }
            c = c + 1;
        }
        proof {
            assert(cv.take(c as int) =~= cv);
        }
        index = index + 1;
    }
    proof {
        assert(pv.take(index as int) =~= pv);
    }
    Ok(found)
}


/// One installation's metadata folded into those kept, one per data
/// directory name: a new name is added; a known one is replaced only by a
/// strictly newer build, by the digit runs of the build numbers.
pub open spec fn keep_newest(kept: Seq<ProductMetadata>, m: ProductMetadata) -> Seq<ProductMetadata> {
    if exists|i: int| 0 <= i < kept.len() && #[trigger] kept[i].data_directory_name@ == m.data_directory_name@ {
        let k = choose|i: int|
            0 <= i < kept.len() && #[trigger] kept[i].data_directory_name@ == m.data_directory_name@ && forall|j: int|
                0 <= j < i ==> #[trigger] kept[j].data_directory_name@ != m.data_directory_name@;
        if runs_lt(digit_runs_spec(kept[k].build_number@), digit_runs_spec(m.build_number@)) {
            kept.update(k, m)
        } else {
            kept
        }
    } else {
        kept.push(m)
    }
}

/// Every installation's metadata folded in, in the order found.
pub open spec fn newest_kept(found: Seq<ProductMetadata>) -> Seq<ProductMetadata>
    decreases found.len(),
{
    if found.len() == 0 {
        Seq::empty()
    } else {
        keep_newest(newest_kept(found.drop_last()), found.last())
    }
}

/// The metadata of each installed product, one per data directory name: of
/// several installations of one product, the one with the newest build, the
/// first found among equals.
pub fn newest_metadata(found: Vec<ProductMetadata>) -> (r: Vec<ProductMetadata>)
    ensures
        r@ == newest_kept(found@),
{
    let ghost all = found@;
    let total: usize = found.len();
    let mut rest = found;
    let mut kept: Vec<ProductMetadata> = Vec::new();
    let mut n: usize = 0;
    while rest.len() > 0
        invariant
            all.len() == total,
            n + rest@.len() == all.len(),
            rest@ == all.skip(n as int),
            kept@ == newest_kept(all.take(n as int)),
        decreases rest@.len(),
    {
        proof {
            assert(all.skip(n as int)[0] == all[n as int]);
        }
        let m = rest.remove(0);
        proof {
            assert(rest@ =~= all.skip(n + 1 as int));
            assert(all.take(n + 1 as int).drop_last() =~= all.take(n as int));
            assert(all.take(n + 1 as int).last() == m);
        }
        let mut i: usize = 0;
        let mut at: Option<usize> = None;
        while i < kept.len() && at.is_none()
            invariant
                i <= kept@.len(),
                at matches Some(k) ==> k < kept@.len() && kept@[k as int].data_directory_name@ == m.data_directory_name@
                    && forall|j: int| 0 <= j < k ==> #[trigger] kept@[j].data_directory_name@ != m.data_directory_name@,
                at is None ==> forall|j: int| 0 <= j < i ==> #[trigger] kept@[j].data_directory_name@ != m.data_directory_name@,
            decreases kept@.len() - i,
        {
            if str_eq(kept[i].data_directory_name.as_str(), m.data_directory_name.as_str()) {
                at = Some(i);
            }
            i = i + 1;
        }
        let ghost before = kept@;
        match at {
            Some(k) => {
                proof {
                    let c = choose|c: int|
                        0 <= c < before.len() && #[trigger] before[c].data_directory_name@ == m.data_directory_name@ && forall|j: int|
                            0 <= j < c ==> #[trigger] before[j].data_directory_name@ != m.data_directory_name@;
                    if c < k {
                    } else if c > k {
                        assert(before[k as int].data_directory_name@ != m.data_directory_name@);
                    }
                }
                let newer = runs_less(
                    digit_runs(kept[k].build_number.as_str()).as_slice(),
                    digit_runs(m.build_number.as_str()).as_slice(),
                );
                if newer {
                    kept.set(k, m);
                }
            },
            None => {
                kept.push(m);
            },
        }
        n = n + 1;
    }
    proof {
        assert(all.take(n as int) =~= all);
    }
    kept
}


/// One entry of the `launch` list of a `product-info.json`.
#[derive(Debug, Clone)]
pub struct LaunchEntry {
    pub os: Option<String>,
    pub launcher_path: Option<String>,
    pub vm_options_file_path: Option<String>,
}

/// What a `product-info.json` says, as read.
#[derive(Debug, Clone)]
pub struct ProductInfo {
    pub name: Option<String>,
    pub product_code: Option<String>,
    pub data_directory_name: Option<String>,
    pub build_number: Option<String>,
    pub version: Option<String>,
    pub bundled_plugins: Vec<String>,
    pub modules: Vec<String>,
    pub launch: Vec<LaunchEntry>,
}

/// Whether a launch entry is for the operating system `os`: one naming no
/// system is for every system.
pub open spec fn launch_for(e: LaunchEntry, os: Seq<char>) -> bool {
    match e.os {
        Some(o) => o@ == os,
        None => true,
    }
}

/// The launch entry used on `os`: the first one for it, else the first one.
pub open spec fn launch_choice(launch: Seq<LaunchEntry>, os: Seq<char>) -> Option<int> {
    if exists|i: int| 0 <= i < launch.len() && launch_for(#[trigger] launch[i], os) {
        Some(choose|i: int| 0 <= i < launch.len() && launch_for(#[trigger] launch[i], os) && forall|j: int| 0 <= j < i ==> !launch_for(#[trigger] launch[j], os))
    } else if launch.len() > 0 {
        Some(0)
    } else {
        None
    }
}

/// The launch entry used on `os`, by position.
pub fn select_launch(launch: &[LaunchEntry], os: &str) -> (r: Option<usize>)
    ensures
        match r {
            Some(k) => k < launch@.len() && launch_choice(launch@, os@) == Some(k as int),
            None => launch_choice(launch@, os@) is None,
        },
{
    let mut i: usize = 0;
    while i < launch.len()
        invariant
            i <= launch@.len(),
            forall|j: int| 0 <= j < i ==> !launch_for(#[trigger] launch@[j], os@),
        decreases launch@.len() - i,
    {
        let fits = match &launch[i].os {
            Some(o) => str_eq(o.as_str(), os),
            None => true,
        };
        if fits {
            proof {
                let c = choose|c: int| 0 <= c < launch@.len() && launch_for(#[trigger] launch@[c], os@) && forall|j: int| 0 <= j < c ==> !launch_for(#[trigger] launch@[j], os@);
                if c > i {
                    assert(!launch_for(launch@[i as int], os@));
                }
            }
            return Some(i);
        }
        i = i + 1;
    }
    if launch.len() > 0 {
        Some(0)
    } else {
        None
    }
}

/// The last component of `path`, by `std::path::Path::file_name`, or `None`
/// when the path ends in `..`. What a component is depends on the platform,
/// so nothing more is stated.
#[verifier::external_body]
fn path_file_name(path: &str) -> Option<String> {
    std::path::Path::new(path).file_name().map(|name| name.to_string_lossy().into_owned())
}

fn text_or_empty(value: Option<String>) -> (r: String)
    ensures
        r@ == match value {
            Some(v) => v@,
            None => Seq::<char>::empty(),
        },
{
    match value {
        Some(v) => v,
        None => String::new(),
    }
}

/// The installation metadata a `product-info.json` describes, read from the
/// directory `info_dir` on the operating system `os`: `None` without a data
/// directory name. The display name falls back to the data directory name,
/// other missing texts to empty ones; the launcher and VM options file come
/// from the launch entry used on `os`, the launcher adjoined to `info_dir`
/// and the options file reduced to its file name.
pub fn resolve_product_metadata(
    info: ProductInfo,
    info_dir: &str,
    os: &str,
    installation_root: String,
    product_info: String,
) -> (r: Option<ProductMetadata>)
    ensures
        r is None <==> info.data_directory_name is None,
        r matches Some(m) ==> {
            &&& info.data_directory_name matches Some(d) && m.data_directory_name@ == d@
            &&& m.name@ == match info.name {
                Some(n) => n@,
                None => m.data_directory_name@,
            }
            &&& m.product_code@ == opt_text(info.product_code)
            &&& m.build_number@ == opt_text(info.build_number)
            &&& m.version@ == opt_text(info.version)
            &&& m.bundled_plugins@ == info.bundled_plugins@
            &&& m.modules@ == info.modules@
            &&& (match launch_choice(info.launch@, os@) {
                Some(k) => info.launch@[k].launcher_path is None ==> m.launcher@.len() == 0,
                None => m.launcher@.len() == 0,
            })
            &&& (match launch_choice(info.launch@, os@) {
                Some(k) => info.launch@[k].vm_options_file_path is None ==> m.vm_options_file@.len() == 0,
                None => m.vm_options_file@.len() == 0,
            })
            &&& m.installation_root@ == installation_root@
            &&& m.product_info@ == product_info@
        },
{
    let data_directory_name = match info.data_directory_name {
        Some(d) => d,
        None => {
            return None;
        },
    };
    let chosen = select_launch(info.launch.as_slice(), os);
    let launcher = match chosen {
        Some(k) => match &info.launch[k].launcher_path {
            Some(path) => crate::paths::path_join(info_dir, path.as_str()),
            None => String::new(),
        },
        None => String::new(),
    };
    let vm_options_file = match chosen {
        Some(k) => match &info.launch[k].vm_options_file_path {
            Some(path) => text_or_empty(path_file_name(path.as_str())),
            None => String::new(),
        },
        None => String::new(),
    };
    let name = match info.name {
        Some(n) => n,
        None => data_directory_name.clone(),
    };
    Some(ProductMetadata {
        name,
        product_code: text_or_empty(info.product_code),
        build_number: text_or_empty(info.build_number),
        version: text_or_empty(info.version),
        bundled_plugins: info.bundled_plugins,
        modules: info.modules,
        launcher,
        vm_options_file,
        installation_root,
        product_info,
        data_directory_name,
    })
}

/// A text that may be missing, as an empty one.
pub open spec fn opt_text(value: Option<String>) -> Seq<char> {
    match value {
        Some(v) => v@,
        None => Seq::empty(),
    }
}

} // verus!
