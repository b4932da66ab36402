//! The decisions a sync makes, apart from the disk and the network.
//!
//! A sync is two reconciliations, both using the same three-way merge: the
//! store against the other machines, then each IDE against the store. What
//! goes into the store is pruned down to genuine user choices; what comes out
//! is applied to the IDE's real file one setting at a time. The program reads
//! and writes the files; the functions here decide what the files become.

use vstd::prelude::*;

use crate::plugins::{
    action_view, action_views, add_products, add_products_exec, last_index, last_with_id, lemma_last_with_id_at,
    plugin_view, plugin_views, position_of, rows_map, unique_ids, view_ids, ActionView, InstallAction, Manifest,
    Plugin, PluginView,
};
use crate::strmap::{lemma_sorted_key_list, sorted_key_list, sorted_strict};
use crate::strset::StrSet;
use crate::sync::merge::ConflictPolicy;
use crate::config::XmlOmitRule;
use crate::error::JbsyncError;
use crate::settings::defaults::ProductDefaults;
use crate::settings::prune::{defaults_for, prune_document, prune_plain, pruning, removals_view, rules_in_force, Removal};
use crate::settings::roamable::{deleted_tombstone, is_tombstone};
use crate::sync::merge::{changes_view, merge_file, merge_opaque, ChangeView, FileMerge};
use crate::backend::git::{internal_path, is_internal_path};
use crate::sync::report::{all_files_empty, files_view, FileReport, FileReportView, IdeReport, IdeReportView};
use crate::ide::{ide_matches_selector, selector_names, selects, Ide};
use crate::glob::all_plain;
use crate::strmap::pairs_insert;
use crate::xml::project::{project, projection_of};
use crate::xml::dom::{lemma_view_from_parts, Element};
use crate::text::opt_view;
use crate::xml::dom::{document_text, parse, parsed_document, serialize, ElementView};
use crate::xml::project::{leaf_removed, remove_leaf, set_leaf, set_leaf_spec};
use crate::xml::reader::xml_accepts;
use crate::text::{chars_of, concat, decimal, has_prefix, prefix_string, split_on, starts_with, str_eq, strip_prefix, trim, utf8_bytes, utf8_text, views};

verus! {

/// Settings live under this prefix inside the store, apart from the
/// program's own files (`sync.toml`, `machines/`, `plugins.json`).
pub open spec fn shared_prefix() -> Seq<char> {
    "shared/"@
}

/// How a sync run is asked to behave.
#[derive(Debug, Clone)]
pub struct SyncOptions {
    pub dry_run: bool,
    pub policy: ConflictPolicy,
    pub message: String,
    /// Restrict the run to IDEs matching these selectors.
    pub only: Vec<String>,
    /// Skip writing merged settings back into the IDEs.
    pub collect_only: bool,
    /// Actually install missing plugins from Marketplace, rather than only
    /// reporting them. Off by default: it launches the IDE binary.
    pub install_plugins: bool,
}

impl Default for SyncOptions {
    fn default() -> (o: Self)
        ensures
            !o.dry_run,
            o.policy == ConflictPolicy::PreferLocal,
            o.message@ == "Sync JetBrains settings"@,
            o.only@.len() == 0,
            !o.collect_only,
            !o.install_plugins,
    {
        SyncOptions {
            dry_run: false,
            policy: ConflictPolicy::PreferLocal,
            message: "Sync JetBrains settings".to_owned(),
            only: Vec::new(),
            collect_only: false,
            install_plugins: false,
        }
    }
}

/// Which side wins a conflict, as a user asks for it.
#[derive(Debug, Clone, Copy, PartialEq, Eq, Structural)]
pub enum Prefer {
    /// This machine's value wins a conflict.
    Local,
    /// The incoming value wins a conflict.
    Remote,
    /// Report conflicts and change nothing.
    Neither,
}

/// The merge policy a preference asks for.
pub open spec fn policy_for(p: Prefer) -> ConflictPolicy {
    match p {
        Prefer::Local => ConflictPolicy::PreferLocal,
        Prefer::Remote => ConflictPolicy::PreferRemote,
        Prefer::Neither => ConflictPolicy::Fail,
    }
}

impl From<Prefer> for ConflictPolicy {
    fn from(value: Prefer) -> (r: Self) {
        match value {
            Prefer::Local => ConflictPolicy::PreferLocal,
            Prefer::Remote => ConflictPolicy::PreferRemote,
            Prefer::Neither => ConflictPolicy::Fail,
        }
    }
}

impl vstd::std_specs::convert::FromSpecImpl<Prefer> for ConflictPolicy {
    open spec fn obeys_from_spec() -> bool {
        true
    }

    open spec fn from_spec(v: Prefer) -> ConflictPolicy {
        policy_for(v)
    }
}

/// A store path as reports show it: without the `shared/` prefix.
pub open spec fn display_spec(relative: Seq<char>) -> Seq<char> {
    if has_prefix(relative, shared_prefix()) {
        relative.skip(shared_prefix().len() as int)
    } else {
        relative
    }
}

/// Store-relative paths shown without the `shared/` prefix, which is noise.
pub fn display_path(relative: &str) -> (r: String)
    ensures
        r@ == display_spec(relative@),
{
    match strip_prefix(relative, "shared/") {
        Some(rest) => rest,
        None => relative.to_owned(),
    }
}

/// At most the first eight characters of a backend cursor.
pub fn short(cursor: &str) -> (r: String)
    ensures
        r@ == cursor@.take(if cursor@.len() < 8 {
            cursor@.len() as int
        } else {
            8
        }),
{
    let chars = chars_of(cursor);
    let n = if chars.len() < 8 {
        chars.len()
    } else {
        8
    };
    prefix_string(&chars, n)
}

/// The civil date (year, month, day) of a count of days since 1970-01-01, by
/// the days-to-civil algorithm for the proleptic Gregorian calendar.
pub open spec fn civil_from_days(days: int) -> (int, int, int) {
    let z = days + 719468;
    let era = z / 146097;
    let doe = z % 146097;
    let yoe = (doe - doe / 1460 + doe / 36524 - doe / 146096) / 365;
    let doy = doe - (365 * yoe + yoe / 4 - yoe / 100);
    let mp = (5 * doy + 2) / 153;
    let day = doy - (153 * mp + 2) / 5 + 1;
    let month = if mp < 10 {
        mp + 3
    } else {
        mp - 9
    };
    let year = yoe + era * 400 + if month <= 2 {
        1int
    } else {
        0int
    };
    (year, month, day)
}

/// `n` in decimal, zero-padded to `width` digits.
pub open spec fn zero_padded(n: nat, width: nat) -> Seq<char> {
    let d = crate::text::decimal(n);
    if d.len() >= width {
        d
    } else {
        Seq::new((width - d.len()) as nat, |i: int| '0') + d
    }
}

/// `YYYYMMDD-HHMMSS` in UTC for `seconds` since the epoch, so backup
/// directories sort chronologically.
pub open spec fn stamp_text(seconds: nat) -> Seq<char> {
    let days = seconds / 86400;
    let rest = seconds % 86400;
    let date = civil_from_days(days as int);
    zero_padded(date.0 as nat, 4) + zero_padded(date.1 as nat, 2) + zero_padded(date.2 as nat, 2) + "-"@
        + zero_padded(rest / 3600, 2) + zero_padded((rest % 3600) / 60, 2) + zero_padded(rest % 60, 2)
}

fn padded(n: u64, width: usize) -> (r: String)
    ensures
        r@ == zero_padded(n as nat, width as nat),
{
    let digits = crate::text::decimal_u64(n);
    let mut r = String::new();
    let len = chars_of(digits.as_str()).len();
    let mut i: usize = len;
    proof {
        reveal_strlit("");
    }
    while i < width
        invariant
            len <= i <= width || (i == len && len >= width),
            len == crate::text::decimal(n as nat).len(),
            r@ == Seq::new((i - len) as nat, |k: int| '0'),
        decreases width - i,
    {
        r.append("0");
        proof {
            reveal_strlit("0");
            assert(r@ =~= Seq::new((i + 1 - len) as nat, |k: int| '0'));
        }
        i = i + 1;
    }
    r.append(digits.as_str());
    proof {
        if len >= width {
            assert(r@ =~= crate::text::decimal(n as nat));
        } else {
            assert(r@ =~= Seq::new((width - len) as nat, |k: int| '0') + crate::text::decimal(n as nat));
        }
    }
    r
}


/// `YYYYMMDD-HHMMSS` in UTC for `seconds` since the epoch, so backup
/// directories sort chronologically without a date library.
pub fn timestamp_at(seconds: u64) -> (r: String)
    ensures
        r@ == stamp_text(seconds as nat),
{
    let days: u64 = seconds / 86400;
    let rest: u64 = seconds % 86400;
    let hour: u64 = rest / 3600;
    let minute: u64 = (rest % 3600) / 60;
    let second: u64 = rest % 60;
    let z: u64 = days + 719468;
    let era: u64 = z / 146097;
    let doe: u64 = z % 146097;
    assert(doe / 146096 <= doe - doe / 1460) by (nonlinear_arith)
        requires
            doe < 146097,
    ;
    let yoe: u64 = (doe - doe / 1460 + doe / 36524 - doe / 146096) / 365;
    assert(365 * yoe + yoe / 4 - yoe / 100 <= doe) by (nonlinear_arith)
        requires
            doe < 146097,
            yoe == (doe - doe / 1460 + doe / 36524 - doe / 146096) / 365,
    ;
    let doy: u64 = doe - (365 * yoe + yoe / 4 - yoe / 100);
    assert(doy < 366) by (nonlinear_arith)
        requires
            doe < 146097,
            yoe == (doe - doe / 1460 + doe / 36524 - doe / 146096) / 365,
            doy == doe - (365 * yoe + yoe / 4 - yoe / 100),
    ;
    let mp: u64 = (5 * doy + 2) / 153;
    let day: u64 = doy - (153 * mp + 2) / 5 + 1;
    let month: u64 = if mp < 10 {
        mp + 3
    } else {
        mp - 9
    };
    let year: u64 = yoe + era * 400 + if month <= 2 {
        1
    } else {
        0
    };
    let mut r = padded(year, 4);
    let m = padded(month, 2);
    r.append(m.as_str());
    let d = padded(day, 2);
    r.append(d.as_str());
    r.append("-");
    let h = padded(hour, 2);
    r.append(h.as_str());
    let mi = padded(minute, 2);
    r.append(mi.as_str());
    let se = padded(second, 2);
    r.append(se.as_str());
    proof {
        let date = civil_from_days(days as int);
        assert(date == (year as int, month as int, day as int));
    }
    r
}


/// One plugin this machine observed, folded into the manifest: a new id is
/// added and announced; a known one learns the products it was also seen in
/// and takes the observed version.
pub open spec fn observe(state: (Map<Seq<char>, PluginView>, Seq<Seq<char>>), p: PluginView) -> (
    Map<Seq<char>, PluginView>,
    Seq<Seq<char>>,
) {
    let m = state.0;
    if m.contains_key(p.id) {
        (
            m.insert(
                p.id,
                PluginView {
                    source_products: add_products(m[p.id].source_products, p.source_products),
                    version: p.version,
                    ..m[p.id]
                },
            ),
            state.1,
        )
    } else {
        (m.insert(p.id, p), state.1.push("+ "@ + p.id + " ("@ + p.version + ")"@))
    }
}

pub open spec fn observe_all(state: (Map<Seq<char>, PluginView>, Seq<Seq<char>>), ps: Seq<PluginView>) -> (
    Map<Seq<char>, PluginView>,
    Seq<Seq<char>>,
)
    decreases ps.len(),
{
    if ps.len() == 0 {
        state
    } else {
        observe(observe_all(state, ps.drop_last()), ps.last())
    }
}

/// The stored manifest keyed by id, a later entry replacing an earlier.
pub open spec fn stored_map(ps: Seq<PluginView>) -> Map<Seq<char>, PluginView> {
    put_all(Map::empty(), ps)
}

/// The union of the stored manifest and what this machine observed, in id
/// order, and a line for each plugin new to it. A plugin another machine
/// published stays even though it is not installed here.
pub open spec fn manifest_union(stored: Seq<PluginView>, observed: Seq<PluginView>) -> (Seq<PluginView>, Seq<Seq<char>>) {
    let done = observe_all((stored_map(stored), Seq::empty()), observed);
    (sorted_key_list(done.0.dom()).map_values(|id: Seq<char>| done.0[id]), done.1)
}

fn observe_row(rows: &mut Vec<Plugin>, p: &Plugin, lines: &mut Vec<String>)
    requires
        unique_ids(plugin_views(old(rows)@)),
    ensures
        unique_ids(plugin_views(final(rows)@)),
        (rows_map(plugin_views(final(rows)@)), views(final(lines)@)) == observe(
            (rows_map(plugin_views(old(rows)@)), views(old(lines)@)),
            plugin_view(*p),
        ),
{
    let ghost before = plugin_views(rows@);
    let ghost pv = plugin_view(*p);
    match position_of(rows, p.id.as_str()) {
        Some(i) => {
            let mut row = rows[i].copy();
            add_products_exec(&mut row.source_products, &p.source_products);
            row.version = p.version.clone();
            let ghost updated = plugin_view(row);
            rows.set(i, row);
            proof {
                let after = plugin_views(rows@);
                assert(after =~= before.update(i as int, updated));
                lemma_last_with_id_at(before, i as int);
                assert(unique_ids(after)) by {
                    assert forall|a: int, b: int| 0 <= a < after.len() && 0 <= b < after.len() && (#[trigger] after[a]).id == (#[trigger] after[b]).id implies a == b by {
                        assert(before[a].id == after[a].id && before[b].id == after[b].id);
                    }
                }
                let m0 = rows_map(before);
                assert(m0.contains_key(pv.id)) by {
                    assert(before[i as int].id == pv.id);
                }
                assert forall|x: Seq<char>| #[trigger] view_ids(after).contains(x) == view_ids(before).contains(x) by {
                    if view_ids(after).contains(x) {
                        let k = choose|k: int| 0 <= k < after.len() && (#[trigger] after[k]).id == x;
                        assert(before[k].id == x);
                    }
                    if view_ids(before).contains(x) {
                        let k = choose|k: int| 0 <= k < before.len() && (#[trigger] before[k]).id == x;
                        assert(after[k].id == x);
                    }
                }
                let target = observe((m0, views(lines@)), pv).0;
                assert forall|x: Seq<char>| view_ids(after).contains(x) implies #[trigger] last_with_id(after, x) == target[x] by {
                    let k = choose|k: int| 0 <= k < after.len() && (#[trigger] after[k]).id == x;
                    lemma_last_with_id_at(after, k);
                    lemma_last_with_id_at(before, k);
                    if k != i as int {
                        assert(after[k] == before[k]);
                    }
                }
                assert(rows_map(after) =~= target);
            }
        },
        None => {
            let mut line = concat("+ ", p.id.as_str());
            line.append(" (");
            line.append(p.version.as_str());
            line.append(")");
            let ghost prev_lines = lines@;
            lines.push(line);
            rows.push(p.copy());
            proof {
                assert(views(lines@) =~= views(prev_lines).push("+ "@ + pv.id + " ("@ + pv.version + ")"@));
                let after = plugin_views(rows@);
                assert(after =~= before.push(pv));
                assert(unique_ids(after)) by {
                    assert forall|a: int, b: int| 0 <= a < after.len() && 0 <= b < after.len() && (#[trigger] after[a]).id == (#[trigger] after[b]).id implies a == b by {
                        if a < before.len() && b == before.len() {
                            assert(view_ids(before).contains(before[a].id));
                        }
                        if b < before.len() && a == before.len() {
                            assert(view_ids(before).contains(before[b].id));
                        }
                    }
                }
                let m0 = rows_map(before);
                assert forall|x: Seq<char>| #[trigger] view_ids(after).contains(x) == (view_ids(before).contains(x) || x == pv.id) by {
                    if view_ids(after).contains(x) {
                        let k = choose|k: int| 0 <= k < after.len() && (#[trigger] after[k]).id == x;
                        if k < before.len() {
                            assert(before[k].id == x);
                        }
                    }
                    if view_ids(before).contains(x) {
                        let k = choose|k: int| 0 <= k < before.len() && (#[trigger] before[k]).id == x;
                        assert(after[k].id == x);
                    }
                    if x == pv.id {
                        assert(after[before.len() as int].id == x);
                    }
                }
                let target = m0.insert(pv.id, pv);
                assert forall|x: Seq<char>| view_ids(after).contains(x) implies #[trigger] last_with_id(after, x) == target[x] by {
                    let k = choose|k: int| 0 <= k < after.len() && (#[trigger] after[k]).id == x;
                    lemma_last_with_id_at(after, k);
                    if k < before.len() {
                        assert(after[k] == before[k]);
                        lemma_last_with_id_at(before, k);
                    }
                }
                assert(rows_map(after) =~= target);
            }
        },
    }
}

/// Puts `p` in the rows, replacing any row with its id.
fn put_row(rows: &mut Vec<Plugin>, p: &Plugin)
    requires
        unique_ids(plugin_views(old(rows)@)),
    ensures
        unique_ids(plugin_views(final(rows)@)),
        rows_map(plugin_views(final(rows)@)) == rows_map(plugin_views(old(rows)@)).insert(p.id@, plugin_view(*p)),
{
    let ghost before = plugin_views(rows@);
    let ghost pv = plugin_view(*p);
    let ghost target = rows_map(before).insert(pv.id, pv);
    match position_of(rows, p.id.as_str()) {
        Some(i) => {
            rows.set(i, p.copy());
            proof {
                let after = plugin_views(rows@);
                assert(after =~= before.update(i as int, pv));
                assert(unique_ids(after)) by {
                    assert forall|a: int, b: int| 0 <= a < after.len() && 0 <= b < after.len() && (#[trigger] after[a]).id == (#[trigger] after[b]).id implies a == b by {
                        assert(before[a].id == after[a].id && before[b].id == after[b].id);
                    }
                }
                assert forall|x: Seq<char>| #[trigger] view_ids(after).contains(x) == target.contains_key(x) by {
                    if view_ids(after).contains(x) {
                        let k = choose|k: int| 0 <= k < after.len() && (#[trigger] after[k]).id == x;
                        assert(before[k].id == x);
                    }
                    if view_ids(before).contains(x) {
                        let k = choose|k: int| 0 <= k < before.len() && (#[trigger] before[k]).id == x;
                        assert(after[k].id == x);
                    }
                    if x == pv.id {
                        assert(after[i as int].id == x);
                    }
                }
                assert forall|x: Seq<char>| view_ids(after).contains(x) implies #[trigger] last_with_id(after, x) == target[x] by {
                    let k = choose|k: int| 0 <= k < after.len() && (#[trigger] after[k]).id == x;
                    lemma_last_with_id_at(after, k);
                    assert(after[i as int].id == pv.id);
                    if k != i as int {
                        assert(after[k] == before[k]);
                        assert(x != pv.id);
                        lemma_last_with_id_at(before, k);
                    }
                }
                assert(rows_map(after) =~= target);
            }
        },
        None => {
            rows.push(p.copy());
            proof {
                let after = plugin_views(rows@);
                assert(after =~= before.push(pv));
                assert(unique_ids(after)) by {
                    assert forall|a: int, b: int| 0 <= a < after.len() && 0 <= b < after.len() && (#[trigger] after[a]).id == (#[trigger] after[b]).id implies a == b by {
                        if a < before.len() && b == before.len() {
                            assert(view_ids(before).contains(before[a].id));
                        }
                        if b < before.len() && a == before.len() {
                            assert(view_ids(before).contains(before[b].id));
                        }
                    }
                }
                assert forall|x: Seq<char>| #[trigger] view_ids(after).contains(x) == target.contains_key(x) by {
                    if view_ids(after).contains(x) {
                        let k = choose|k: int| 0 <= k < after.len() && (#[trigger] after[k]).id == x;
                        if k < before.len() {
                            assert(before[k].id == x);
                        }
                    }
                    if view_ids(before).contains(x) {
                        let k = choose|k: int| 0 <= k < before.len() && (#[trigger] before[k]).id == x;
                        assert(after[k].id == x);
                    }
                    if x == pv.id {
                        assert(after[before.len() as int].id == x);
                    }
                }
                assert forall|x: Seq<char>| view_ids(after).contains(x) implies #[trigger] last_with_id(after, x) == target[x] by {
                    let k = choose|k: int| 0 <= k < after.len() && (#[trigger] after[k]).id == x;
                    lemma_last_with_id_at(after, k);
                    if k < before.len() {
                        assert(after[k] == before[k]);
                        lemma_last_with_id_at(before, k);
                    }
                }
                assert(rows_map(after) =~= target);
            }
        },
    }
}

/// Each plugin put in by id, a later one replacing an earlier.
pub open spec fn put_all(m: Map<Seq<char>, PluginView>, ps: Seq<PluginView>) -> Map<Seq<char>, PluginView>
    decreases ps.len(),
{
    if ps.len() == 0 {
        m
    } else {
        let before = put_all(m, ps.drop_last());
        before.insert(ps.last().id, ps.last())
    }
}

/// Merges what this machine observed into the stored plugin manifest, and
/// announces each plugin new to it as `+ id (version)`.
pub fn merge_manifests(stored: &Manifest, observed: &Manifest) -> (r: (Manifest, Vec<String>))
    ensures
        r.0.version == 1,
        plugin_views(r.0.plugins@) == manifest_union(plugin_views(stored.plugins@), plugin_views(observed.plugins@)).0,
        views(r.1@) == manifest_union(plugin_views(stored.plugins@), plugin_views(observed.plugins@)).1,
{
    let ghost sv = plugin_views(stored.plugins@);
    let ghost ov = plugin_views(observed.plugins@);
    let mut rows: Vec<Plugin> = Vec::new();
    proof {
        assert(rows_map(plugin_views(rows@)) =~= Map::<Seq<char>, PluginView>::empty());
    }
    let mut i: usize = 0;
    while i < stored.plugins.len()
        invariant
            i <= stored.plugins@.len(),
            sv == plugin_views(stored.plugins@),
            unique_ids(plugin_views(rows@)),
            rows_map(plugin_views(rows@)) == put_all(Map::empty(), sv.take(i as int)),
        decreases stored.plugins@.len() - i,
    {
        proof {
            assert(sv.take(i + 1 as int).drop_last() =~= sv.take(i as int));
            assert(sv.take(i + 1 as int).last() == plugin_view(stored.plugins@[i as int]));
        }
        put_row(&mut rows, &stored.plugins[i]);
        i = i + 1;
    }
    proof {
        assert(sv.take(i as int) =~= sv);
    }
    let ghost start = rows_map(plugin_views(rows@));
    let mut lines: Vec<String> = Vec::new();
    proof {
        assert(views(lines@) =~= Seq::<Seq<char>>::empty());
    }
    let mut k: usize = 0;
    while k < observed.plugins.len()
        invariant
            k <= observed.plugins@.len(),
            ov == plugin_views(observed.plugins@),
            unique_ids(plugin_views(rows@)),
            (rows_map(plugin_views(rows@)), views(lines@)) == observe_all((start, Seq::empty()), ov.take(k as int)),
        decreases observed.plugins@.len() - k,
    {
        proof {
            assert(ov.take(k + 1 as int).drop_last() =~= ov.take(k as int));
            assert(ov.take(k + 1 as int).last() == plugin_view(observed.plugins@[k as int]));
        }
        observe_row(&mut rows, &observed.plugins[k], &mut lines);
        k = k + 1;
    }
    proof {
        assert(ov.take(k as int) =~= ov);
    }
    let ghost rv = plugin_views(rows@);
    let mut ids = StrSet::new();
    let mut m: usize = 0;
    while m < rows.len()
        invariant
            m <= rows@.len(),
            rv == plugin_views(rows@),
            ids@ == view_ids(rv.take(m as int)),
        decreases rows@.len() - m,
    {
        let ghost before = ids@;
        ids.insert(rows[m].id.clone());
        proof {
            let prev = rv.take(m as int);
            let next = rv.take(m + 1 as int);
            assert forall|x: Seq<char>| #[trigger] ids@.contains(x) == view_ids(next).contains(x) by {
                if view_ids(next).contains(x) {
                    let j = choose|j: int| 0 <= j < next.len() && (#[trigger] next[j]).id == x;
                    if j < m {
                        assert(prev[j] == next[j]);
                    }
                }
                if before.contains(x) {
                    let j = choose|j: int| 0 <= j < prev.len() && (#[trigger] prev[j]).id == x;
                    assert(next[j] == prev[j]);
                }
                if x == rows@[m as int].id@ {
                    assert(next[m as int] == plugin_view(rows@[m as int]));
                }
            }
            assert(ids@ =~= view_ids(next));
        }
        m = m + 1;
    }
    proof {
        assert(rv.take(m as int) =~= rv);
        assert(rows_map(rv).dom() =~= view_ids(rv));
    }
    let sorted = ids.to_vec();
    let ghost order = views(sorted@);
    proof {
        ids.lemma_finite();
        lemma_sorted_key_list(ids@);
    }
    let mut plugins: Vec<Plugin> = Vec::new();
    let mut n: usize = 0;
    while n < sorted.len()
        invariant
            n <= sorted@.len(),
            order == views(sorted@),
            order == sorted_key_list(view_ids(rv)),
            order.to_set() == view_ids(rv),
            rv == plugin_views(rows@),
            plugin_views(plugins@) == order.take(n as int).map_values(|id: Seq<char>| last_with_id(rv, id)),
        decreases sorted@.len() - n,
    {
        proof {
            assert(order.to_set().contains(order[n as int]));
            let w = choose|w: int| 0 <= w < rv.len() && (#[trigger] rv[w]).id == order[n as int];
            assert(rows@[w].id@ == sorted@[n as int]@);
        }
        let at = last_index(&rows, sorted[n].as_str());
        let c = rows[at].copy();
        let ghost prev = plugins@;
        plugins.push(c);
        proof {
            assert(plugin_views(plugins@) =~= plugin_views(prev).push(plugin_view(c)));
            assert(order.take(n + 1 as int).map_values(|id: Seq<char>| last_with_id(rv, id)) =~= order.take(
                n as int,
            ).map_values(|id: Seq<char>| last_with_id(rv, id)).push(last_with_id(rv, order[n as int])));
        }
        n = n + 1;
    }
    proof {
        assert(order.take(n as int) =~= order);
        let done = observe_all((stored_map(sv), Seq::empty()), ov);
        assert(plugin_views(plugins@) =~= sorted_key_list(done.0.dom()).map_values(|id: Seq<char>| done.0[id]));
    }
    (Manifest { version: 1, plugins }, lines)
}


/// The report line for one planned plugin action.
pub open spec fn action_line(a: ActionView) -> Seq<char> {
    if a.install {
        a.ide + ": install "@ + a.plugin
    } else {
        a.ide + ": skip "@ + a.plugin + " ("@ + a.reason + ")"@
    }
}

/// The report lines for planned plugin actions, in order.
pub fn action_lines(actions: &Vec<InstallAction>) -> (r: Vec<String>)
    ensures
        views(r@) == action_views(actions@).map_values(|a: ActionView| action_line(a)),
{
    let ghost av = action_views(actions@);
    let mut r: Vec<String> = Vec::new();
    let mut i: usize = 0;
    while i < actions.len()
        invariant
            i <= actions@.len(),
            av == action_views(actions@),
            views(r@) == av.take(i as int).map_values(|a: ActionView| action_line(a)),
        decreases actions@.len() - i,
    {
        let a = &actions[i];
        let mut line = concat(a.ide.as_str(), if a.install {
            ": install "
        } else {
            ": skip "
        });
        line.append(a.plugin.as_str());
        if !a.install {
            line.append(" (");
            line.append(a.reason.as_str());
            line.append(")");
        }
        let ghost prev = r@;
        r.push(line);
        proof {
            assert(av[i as int] == action_view(*a));
            assert(views(r@) =~= views(prev).push(action_line(av[i as int])));
            assert(av.take(i + 1 as int).map_values(|a: ActionView| action_line(a)) =~= av.take(i as int).map_values(
                |a: ActionView| action_line(a),
            ).push(action_line(av[i as int])));
        }
        i = i + 1;
    }
    proof {
        assert(av.take(i as int) =~= av);
    }
    r
}

/// What a report says was committed: the number of files and the short
/// cursor, and, without a remote, that the commit stays on this machine.
pub open spec fn published_text(files: nat, cursor: Seq<char>, has_remote: bool) -> Seq<char> {
    decimal(files) + " file(s) at "@ + cursor.take(if cursor.len() < 8 {
        cursor.len() as int
    } else {
        8
    }) + if has_remote {
        Seq::empty()
    } else {
        " (local store only - `jbsync repo set <url>` to share)"@
    }
}

/// The summary of a publication, as the report shows it.
pub fn published_summary(files: usize, cursor: &str, has_remote: bool) -> (r: String)
    ensures
        r@ == published_text(files as nat, cursor@, has_remote),
{
    let mut r = crate::text::decimal_string(files);
    r.append(" file(s) at ");
    let s = short(cursor);
    r.append(s.as_str());
    if !has_remote {
        r.append(" (local store only - `jbsync repo set <url>` to share)");
    } else {
        proof {
            assert(r@ =~= r@ + Seq::<char>::empty());
        }
    }
    r
}

/// Only the git backend is implemented; any other name is refused.
pub fn check_backend(name: &str) -> (r: Result<(), JbsyncError>)
    ensures
        r is Ok <==> name@ == "git"@,
        r is Err ==> (r matches Err(JbsyncError::Configuration(_))),
{
    if str_eq(name, "git") {
        Ok(())
    } else {
        let mut message = concat("unknown backend \"", name);
        message.append("\". Only \"git\" is implemented.");
        Err(JbsyncError::configuration(message))
    }
}

/// Where the JetBrains config root is configured to be: `None` when unset or
/// `auto`, meaning the platform's own location.
pub fn configured_root(root: &Option<String>) -> (r: Option<String>)
    ensures
        r is None <==> (root is None || (root matches Some(v) && v@ == "auto"@)),
        r matches Some(v) ==> (root matches Some(w) && v@ == w@),
{
    match root {
        Some(value) => {
            if str_eq(value.as_str(), "auto") {
                None
            } else {
                Some(value.clone())
            }
        },
        None => None,
    }
}


/// What a file of an IDE contributes to the store, and the settings dropped
/// from it: bytes that are not text, or text that is not XML, go as they are;
/// a tombstone contributes nothing; a settings document is pruned down to the
/// user's choices, and contributes nothing when none are left.
pub open spec fn store_view_outcome(
    relative: Seq<char>,
    raw: Seq<u8>,
    rules: Seq<XmlOmitRule>,
    use_builtins: bool,
    defaults: Option<&ProductDefaults>,
    r: (Option<Seq<u8>>, Seq<(Seq<char>, Seq<char>)>),
) -> bool {
    if !vstd::utf8::valid_utf8(raw) {
        r == (Some(raw), Seq::<(Seq<char>, Seq<char>)>::empty())
    } else {
        let text = vstd::utf8::decode_utf8(raw);
        if trim(text) == deleted_tombstone() {
            r == (None::<Seq<u8>>, Seq::<(Seq<char>, Seq<char>)>::empty())
        } else if !xml_accepts(text) {
            r == (Some(raw), Seq::<(Seq<char>, Seq<char>)>::empty())
        } else {
            prune_plain(relative, rules) ==> {
                let root = parsed_document(text);
                let p = pruning(root, relative, rules_in_force(rules, use_builtins), defaults_for(defaults, relative));
                &&& r.1 == p.1
                &&& if p.0.children.len() == 0 && p.0.attributes.len() == 0 {
                    r.0 is None
                } else {
                    r.0 == Some(vstd::utf8::encode_utf8(document_text(p.0)))
                }
            }
        }
    }
}

pub open spec fn store_view_view(r: (Option<Vec<u8>>, Vec<Removal>)) -> (Option<Seq<u8>>, Seq<(Seq<char>, Seq<char>)>) {
    (crate::sync::merge::bytes_view(r.0), removals_view(r.1@))
}

/// Reduces an IDE's file to what belongs in the store: canonical form, with
/// everything that is not a user choice removed.
pub fn store_view(
    relative: &str,
    raw: &[u8],
    rules: &[XmlOmitRule],
    use_builtins: bool,
    defaults: Option<&ProductDefaults>,
) -> (r: (Option<Vec<u8>>, Vec<Removal>))
    ensures
        store_view_outcome(relative@, raw@, rules@, use_builtins, defaults, store_view_view(r)),
{
    let none: Vec<Removal> = Vec::new();
    proof {
        assert(removals_view(none@) =~= Seq::<(Seq<char>, Seq<char>)>::empty());
    }
    let text = match utf8_text(raw) {
        Some(text) => text,
        None => {
            return (Some(vstd::slice::slice_to_vec(raw)), none);
        },
    };
    if is_tombstone(text.as_str()) {
        return (None, none);
    }
    let mut document = match parse(text.as_str()) {
        Ok(document) => document,
        Err(_) => {
            return (Some(vstd::slice::slice_to_vec(raw)), none);
        },
    };
    let ghost root = document@;
    let outcome = prune_document(relative, &mut document, rules, use_builtins, defaults);
    let r = if outcome.is_empty {
        (None, outcome.removed)
    } else {
        let written = serialize(&document);
        (Some(utf8_bytes(written.as_str())), outcome.removed)
    };
    proof {
        if prune_plain(relative@, rules@) {
            let p = pruning(root, relative@, rules_in_force(rules@, use_builtins), defaults_for(defaults, relative@));
            assert(store_view_view(r).1 == p.1);
        }
    }
    r
}

/// The incoming changes written into a document one after another: a new
/// value is set from the merged document, a removed one is cleared; a change
/// about the whole file has no leaf to touch.
pub open spec fn changes_applied(target: ElementView, donor: ElementView, changes: Seq<ChangeView>) -> ElementView
    decreases changes.len(),
{
    if changes.len() == 0 {
        target
    } else {
        let t = changes_applied(target, donor, changes.drop_last());
        let c = changes.last();
        if c.path.len() == 0 {
            t
        } else {
            match c.to {
                Some(value) => set_leaf_spec(
                    t,
                    donor,
                    split_on(c.path, '/').drop_last(),
                    split_on(c.path, '/').last(),
                    value,
                ).0,
                None => leaf_removed(t, c.path),
            }
        }
    }
}

/// What writing a merge back into an IDE's file gives: nothing when no
/// setting arrives or the file went away everywhere; otherwise the IDE's own
/// document with each arriving setting written in, when both it and the
/// merged text are settings documents, else the merged content as it is; and
/// nothing when that is what the file already holds.
pub open spec fn write_back_outcome(raw: Option<Seq<u8>>, merged: crate::sync::merge::FileMergeView, r: Option<Seq<u8>>) -> bool {
    if merged.incoming.len() == 0 || merged.content is None {
        r is None
    } else {
        let content = merged.content.unwrap();
        let raw_text = crate::sync::merge::text_of(raw);
        let merged_text = crate::sync::merge::text_of(Some(content));
        let parsed_both = raw_text is Some && merged_text is Some && xml_accepts(raw_text.unwrap()) && xml_accepts(
            merged_text.unwrap(),
        );
        &&& (parsed_both ==> r == unless_same(
            raw,
            vstd::utf8::encode_utf8(
                document_text(
                    changes_applied(parsed_document(raw_text.unwrap()), parsed_document(merged_text.unwrap()), merged.incoming),
                ),
            ),
        ))
        &&& (!parsed_both ==> r == unless_same(raw, content))
    }
}

/// `updated`, unless the file already holds exactly that.
pub open spec fn unless_same(raw: Option<Seq<u8>>, updated: Seq<u8>) -> Option<Seq<u8>> {
    if raw == Some(updated) {
        None
    } else {
        Some(updated)
    }
}

fn same_slice(a: &[u8], b: &[u8]) -> (r: bool)
    ensures
        r == (a@ == b@),
{
    if a.len() != b.len() {
        return false;
    }
    let mut i: usize = 0;
    while i < a.len()
        invariant
            i <= a@.len(),
            a@.len() == b@.len(),
            forall|k: int| 0 <= k < i ==> a@[k] == b@[k],
        decreases a@.len() - i,
    {
        if a[i] != b[i] {
            return false;
        }
        i = i + 1;
    }
    proof {
        assert(a@ =~= b@);
    }
    true
}

/// The bytes to write into an IDE's file after a merge, or `None` when the
/// file is to be left alone. For XML this edits individual leaves rather than
/// overwriting, so everything pruning removed from the store view survives.
pub fn written_back(raw: Option<&[u8]>, merged: &FileMerge) -> (r: Option<Vec<u8>>)
    ensures
        write_back_outcome(crate::sync::merge::slice_view(raw), merged@, crate::sync::merge::bytes_view(r)),
{
    if merged.incoming.len() == 0 {
        return None;
    }
    let content = match &merged.content {
        Some(content) => content,
        None => {
            return None;
        },
    };
    let raw_text = match raw {
        Some(bytes) => utf8_text(bytes),
        None => None,
    };
    let merged_text = utf8_text(content.as_slice());
    let ghost mut witness_t: ElementView = ElementView { name: Seq::empty(), attributes: Seq::empty(), children: Seq::empty(), text: None };
    let ghost mut witness_d: ElementView = witness_t;
    let ghost mut parsed = false;
    let updated: Vec<u8> = match (raw_text, merged_text) {
        (Some(raw_text), Some(merged_text)) => match (parse(raw_text.as_str()), parse(merged_text.as_str())) {
            (Ok(mut target), Ok(donor)) => {
                let ghost t0 = target@;
                let ghost cv = changes_view(merged.incoming@);
                let mut i: usize = 0;
                while i < merged.incoming.len()
                    invariant
                        i <= merged.incoming@.len(),
                        cv == changes_view(merged.incoming@),
                        target@ == changes_applied(t0, donor@, cv.take(i as int)),
                    decreases merged.incoming@.len() - i,
                {
                    let change = &merged.incoming[i];
                    proof {
                        assert(cv.take(i + 1 as int).drop_last() =~= cv.take(i as int));
                        assert(cv.take(i + 1 as int).last() == change@);
                    }
                    if !change.path.as_str().is_empty() {
                        match &change.to {
                            Some(value) => {
                                set_leaf(&mut target, &donor, change.path.as_str(), value.as_str());
                            },
                            None => {
                                remove_leaf(&mut target, change.path.as_str());
                            },
                        }
                    }
                    i = i + 1;
                }
                proof {
                    assert(cv.take(i as int) =~= cv);
                    witness_t = t0;
                    witness_d = donor@;
                    parsed = true;
                }
                let written = serialize(&target);
                utf8_bytes(written.as_str())
            },
            _ => vstd::slice::slice_to_vec(content.as_slice()),
        },
        _ => vstd::slice::slice_to_vec(content.as_slice()),
    };
    let unchanged = match raw {
        Some(bytes) => same_slice(bytes, updated.as_slice()),
        None => false,
    };
    let r = if unchanged {
        None
    } else {
        Some(updated)
    };
    proof {
        let rv = crate::sync::merge::slice_view(raw);
        assert(crate::sync::merge::bytes_view(r) == unless_same(rv, updated@));
        if parsed {
            assert(updated@ == vstd::utf8::encode_utf8(document_text(changes_applied(witness_t, witness_d, changes_view(merged.incoming@)))));
        }
    }
    r
}


/// What reconciling one file of an IDE with the store writes, and what it
/// reports. Each write is `None` when that file is left as it is; a store or
/// snapshot write of `Some(None)` removes the file.
pub struct FileStep {
    /// The new snapshot of what this IDE and the store agreed on.
    pub base: Option<Option<Vec<u8>>>,
    /// The new store file.
    pub store: Option<Option<Vec<u8>>>,
    /// The IDE's file as it was, kept as a backup before it is replaced.
    pub backup: Option<Vec<u8>>,
    /// The new bytes of the IDE's file.
    pub ide: Option<Vec<u8>>,
    pub report: Option<FileReport>,
}

pub struct FileStepView {
    pub base: Option<Option<Seq<u8>>>,
    pub store: Option<Option<Seq<u8>>>,
    pub backup: Option<Seq<u8>>,
    pub ide: Option<Seq<u8>>,
    pub report: Option<FileReportView>,
}

pub open spec fn write_view(w: Option<Option<Vec<u8>>>) -> Option<Option<Seq<u8>>> {
    match w {
        Some(c) => Some(crate::sync::merge::bytes_view(c)),
        None => None,
    }
}

impl View for FileStep {
    type V = FileStepView;

    open spec fn view(&self) -> FileStepView {
        FileStepView {
            base: write_view(self.base),
            store: write_view(self.store),
            backup: crate::sync::merge::bytes_view(self.backup),
            ide: crate::sync::merge::bytes_view(self.ide),
            report: match self.report {
                Some(f) => Some(f@),
                None => None,
            },
        }
    }
}

/// A step that touches nothing and reports nothing.
pub open spec fn idle_step() -> FileStepView {
    FileStepView { base: None, store: None, backup: None, ide: None, report: None }
}

/// What follows from one merge of an IDE's view of a file with the store:
/// the snapshot records the merged content whenever it moved; a merge that
/// changed nothing and pruned nothing stops there; otherwise the store takes
/// the merged content, the IDE receives the arriving settings unless only
/// collecting (keeping a backup of what it replaces when asked to), and the
/// file is reported. A merge that conflicts with no side preferred is
/// reported and changes nothing: not the snapshot, the store or the IDE.
pub open spec fn merged_step(
    relative: Seq<char>,
    raw: Option<Seq<u8>>,
    base: Option<Seq<u8>>,
    pruned: Seq<(Seq<char>, Seq<char>)>,
    m: crate::sync::merge::FileMergeView,
    policy: ConflictPolicy,
    collect_only: bool,
    backups: bool,
    s: FileStepView,
) -> bool {
    &&& s.base == if refused(policy, m) || base == m.content {
        None
    } else {
        Some(m.content)
    }
    &&& if crate::sync::merge::noop(m) && pruned.len() == 0 {
        s.store is None && s.backup is None && s.ide is None && s.report is None
    } else {
        &&& s.store == if refused(policy, m) {
            None
        } else {
            Some(m.content)
        }
        &&& if collect_only || refused(policy, m) {
            s.ide is None
        } else {
            write_back_outcome(raw, m, s.ide)
        }
        &&& s.backup == if backups && s.ide is Some {
            raw
        } else {
            None
        }
        &&& s.report == Some(
            FileReportView { path: relative, incoming: m.incoming, outgoing: m.outgoing, conflicts: m.conflicts, pruned },
        )
    }
}

/// Whether a merge is refused: no side is preferred and something
/// conflicts, so the conflicts are reported and nothing is changed.
pub open spec fn refused(policy: ConflictPolicy, m: crate::sync::merge::FileMergeView) -> bool {
    policy is Fail && m.conflicts.len() > 0
}

/// One file of an IDE against the store, given the IDE's store view of it.
/// A file that is present but holds nothing worth sharing is "no opinion",
/// not "deleted": it contributes nothing and both sides are left alone.
pub open spec fn file_step_outcome(
    relative: Seq<char>,
    raw: Option<Seq<u8>>,
    base: Option<Seq<u8>>,
    store: Option<Seq<u8>>,
    view: (Option<Seq<u8>>, Seq<(Seq<char>, Seq<char>)>),
    policy: ConflictPolicy,
    collect_only: bool,
    backups: bool,
    s: FileStepView,
) -> bool {
    if raw is Some && view.0 is None {
        s == idle_step()
    } else {
        exists|m: crate::sync::merge::FileMergeView|
            #![trigger crate::sync::merge::file_merge_outcome(base, view.0, store, policy, m)]
            crate::sync::merge::file_merge_outcome(base, view.0, store, policy, m) && merged_step(
                relative,
                raw,
                base,
                view.1,
                m,
                policy,
                collect_only,
                backups,
                s,
            )
    }
}

/// Reconciles one file of an IDE with the store: `raw` is the IDE's file,
/// `base` the snapshot of what the two last agreed on, `store` the store's
/// copy. Nothing is special about first contact: with no snapshot, a setting
/// the IDE does not define is taken from the store, and only one both define
/// differently is a conflict.
pub fn reconcile_file_step(
    relative: &str,
    raw: Option<&[u8]>,
    base: Option<&[u8]>,
    store: Option<&[u8]>,
    rules: &[XmlOmitRule],
    use_builtins: bool,
    defaults: Option<&ProductDefaults>,
    policy: ConflictPolicy,
    collect_only: bool,
    backups: bool,
) -> (s: FileStep)
    ensures
        raw is None ==> file_step_outcome(
            relative@,
            None,
            crate::sync::merge::slice_view(base),
            crate::sync::merge::slice_view(store),
            (None, Seq::empty()),
            policy,
            collect_only,
            backups,
            s@,
        ),
        raw matches Some(bytes) ==> exists|v: (Option<Seq<u8>>, Seq<(Seq<char>, Seq<char>)>)|
            #![trigger store_view_outcome(relative@, bytes@, rules@, use_builtins, defaults, v)]
            store_view_outcome(relative@, bytes@, rules@, use_builtins, defaults, v) && file_step_outcome(
                relative@,
                Some(bytes@),
                crate::sync::merge::slice_view(base),
                crate::sync::merge::slice_view(store),
                v,
                policy,
                collect_only,
                backups,
                s@,
            ),
{
    let view: (Option<Vec<u8>>, Vec<Removal>) = match raw {
        Some(bytes) => store_view(relative, bytes, rules, use_builtins, defaults),
        None => (None, Vec::new()),
    };
    let ghost vv = store_view_view(view);
    proof {
        if raw is None {
            assert(vv.1 =~= Seq::<(Seq<char>, Seq<char>)>::empty());
        }
    }
    if raw.is_some() && view.0.is_none() {
        let s = FileStep { base: None, store: None, backup: None, ide: None, report: None };
        proof {
            match raw {
                Some(bytes) => {
                    assert(store_view_outcome(relative@, bytes@, rules@, use_builtins, defaults, vv));
                },
                None => {},
            }
        }
        return s;
    }
    let (local_view, removed) = view;
    let merged = match &local_view {
        Some(v) => merge_file(base, Some(v.as_slice()), store, policy),
        None => merge_file(base, None, store, policy),
    };
    let ghost m = merged@;
    proof {
        assert(crate::sync::merge::file_merge_outcome(
            crate::sync::merge::slice_view(base),
            vv.0,
            crate::sync::merge::slice_view(store),
            policy,
            m,
        ));
    }
    let refuse = match policy {
        ConflictPolicy::Fail => merged.conflicts.len() > 0,
        _ => false,
    };
    let base_write = if refuse || same_opt(base, &merged.content) {
        None
    } else {
        Some(copy_opt(&merged.content))
    };
    if merged.is_noop() && removed.len() == 0 {
        let s = FileStep { base: base_write, store: None, backup: None, ide: None, report: None };
        proof {
            assert(merged_step(relative@, crate::sync::merge::slice_view(raw), crate::sync::merge::slice_view(base), vv.1, m, policy, collect_only, backups, s@));
            match raw {
                Some(bytes) => {
                    assert(store_view_outcome(relative@, bytes@, rules@, use_builtins, defaults, vv));
                },
                None => {},
            }
        }
        return s;
    }
    let ide = if collect_only || refuse {
        None
    } else {
        written_back(raw, &merged)
    };
    let backup = match (&ide, raw) {
        (Some(_), Some(bytes)) => if backups {
            Some(vstd::slice::slice_to_vec(bytes))
        } else {
            None
        },
        _ => None,
    };
    let store_write = if refuse {
        None
    } else {
        Some(copy_opt(&merged.content))
    };
    let FileMerge { content, incoming, outgoing, conflicts } = merged;
    let report = FileReport { path: relative.to_owned(), incoming, outgoing, conflicts, pruned: removed };
    let s = FileStep { base: base_write, store: store_write, backup, ide, report: Some(report) };
    proof {
        assert(merged_step(relative@, crate::sync::merge::slice_view(raw), crate::sync::merge::slice_view(base), vv.1, m, policy, collect_only, backups, s@));
        match raw {
            Some(bytes) => {
                assert(store_view_outcome(relative@, bytes@, rules@, use_builtins, defaults, vv));
            },
            None => {},
        }
    }
    s
}

/// Whether the optional slice holds the same bytes as the optional vector.
fn same_opt(a: Option<&[u8]>, b: &Option<Vec<u8>>) -> (r: bool)
    ensures
        r == (crate::sync::merge::slice_view(a) == crate::sync::merge::bytes_view(*b)),
{
    match (a, b) {
        (Some(x), Some(y)) => same_slice(x, y.as_slice()),
        (None, None) => true,
        _ => false,
    }
}

fn copy_opt(b: &Option<Vec<u8>>) -> (r: Option<Vec<u8>>)
    ensures
        crate::sync::merge::bytes_view(r) == crate::sync::merge::bytes_view(*b),
{
    match b {
        Some(v) => Some(vstd::slice::slice_to_vec(v.as_slice())),
        None => None,
    }
}


/// What merging one store file with the state other machines published
/// gives: the program's own bookkeeping is skipped; settings under `shared/`
/// merge setting by setting, everything else as whole files; a merge that
/// changes nothing is skipped; otherwise the store file takes the merged
/// content and the file is reported without its `shared/` prefix.
pub open spec fn incoming_outcome(
    relative: Seq<char>,
    base: Option<Seq<u8>>,
    local: Option<Seq<u8>>,
    remote: Option<Seq<u8>>,
    policy: ConflictPolicy,
    r: Option<(Option<Seq<u8>>, FileReportView)>,
) -> bool {
    if internal_path(relative) {
        r is None
    } else {
        exists|m: crate::sync::merge::FileMergeView|
            #![trigger incoming_merge(relative, base, local, remote, policy, m)]
            incoming_merge(relative, base, local, remote, policy, m) && r == if crate::sync::merge::noop(m) {
                None
            } else {
                Some(
                    (
                        if refused(policy, m) {
                            local
                        } else {
                            m.content
                        },
                        FileReportView {
                            path: display_spec(relative),
                            incoming: m.incoming,
                            outgoing: m.outgoing,
                            conflicts: m.conflicts,
                            pruned: Seq::empty(),
                        },
                    ),
                )
            }
    }
}

/// The merge an incoming store file gets, by where it lives in the store.
pub open spec fn incoming_merge(
    relative: Seq<char>,
    base: Option<Seq<u8>>,
    local: Option<Seq<u8>>,
    remote: Option<Seq<u8>>,
    policy: ConflictPolicy,
    m: crate::sync::merge::FileMergeView,
) -> bool {
    if has_prefix(relative, shared_prefix()) {
        crate::sync::merge::file_merge_outcome(base, local, remote, policy, m)
    } else {
        m == crate::sync::merge::opaque_merge_spec(base, local, remote, policy)
    }
}

pub open spec fn incoming_view(r: Option<(Option<Vec<u8>>, FileReport)>) -> Option<(Option<Seq<u8>>, FileReportView)> {
    match r {
        Some((c, f)) => Some((crate::sync::merge::bytes_view(c), f@)),
        None => None,
    }
}

/// Merges one store file with what other machines published: `base` is the
/// state both last agreed on, `local` this machine's copy, `remote` theirs.
/// Gives the new store content and the report, or `None` when nothing moves;
/// a merge that conflicts with no side preferred keeps this machine's copy.
pub fn incoming_step(
    relative: &str,
    base: Option<&[u8]>,
    local: Option<&[u8]>,
    remote: Option<&[u8]>,
    policy: ConflictPolicy,
) -> (r: Option<(Option<Vec<u8>>, FileReport)>)
    ensures
        incoming_outcome(
            relative@,
            crate::sync::merge::slice_view(base),
            crate::sync::merge::slice_view(local),
            crate::sync::merge::slice_view(remote),
            policy,
            incoming_view(r),
        ),
{
    if is_internal_path(relative) {
        return None;
    }
    let merged = if starts_with(relative, "shared/") {
        merge_file(base, local, remote, policy)
    } else {
        merge_opaque(base, local, remote, policy)
    };
    let ghost m = merged@;
    proof {
        reveal_strlit("shared/");
        assert(incoming_merge(
            relative@,
            crate::sync::merge::slice_view(base),
            crate::sync::merge::slice_view(local),
            crate::sync::merge::slice_view(remote),
            policy,
            m,
        ));
    }
    if merged.is_noop() {
        return None;
    }
    let refuse = match policy {
        ConflictPolicy::Fail => merged.conflicts.len() > 0,
        _ => false,
    };
    let FileMerge { content, incoming, outgoing, conflicts } = merged;
    let content = if refuse {
        match local {
            Some(bytes) => Some(vstd::slice::slice_to_vec(bytes)),
            None => None,
        }
    } else {
        content
    };
    let report = FileReport { path: display_path(relative), incoming, outgoing, conflicts, pruned: Vec::new() };
    proof {
        assert(removals_view(report.pruned@) =~= Seq::<(Seq<char>, Seq<char>)>::empty());
    }
    Some((content, report))
}

/// The members of both lists, each once, in ascending order.
pub fn sorted_union(a: &[String], b: &[String]) -> (r: Vec<String>)
    ensures
        views(r@) == sorted_key_list(views(a@).to_set().union(views(b@).to_set())),
{
    let mut set = StrSet::new();
    set.extend(a);
    set.extend(b);
    proof {
        assert(set@ =~= views(a@).to_set().union(views(b@).to_set()));
    }
    set.to_vec()
}

/// The paths an incoming merge visits: every path in the base, in the remote
/// state and in the working copy, once each and in order, except the
/// program's own bookkeeping.
pub fn incoming_paths(base: &[String], remote: &[String], local: &[String]) -> (r: Vec<String>)
    ensures
        views(r@) == sorted_key_list(
            views(base@).to_set().union(views(remote@).to_set()).union(views(local@).to_set()),
        ).filter(|p: Seq<char>| !internal_path(p)),
{
    let mut set = StrSet::new();
    set.extend(base);
    set.extend(remote);
    set.extend(local);
    let all = set.to_vec();
    let ghost av = views(all@);
    let mut r: Vec<String> = Vec::new();
    let mut i: usize = 0;
    while i < all.len()
        invariant
            i <= all@.len(),
            av == views(all@),
            views(r@) == av.take(i as int).filter(|p: Seq<char>| !internal_path(p)),
        decreases all@.len() - i,
    {
        let ghost prev = r@;
        proof {
            assert(av.take(i + 1 as int).drop_last() =~= av.take(i as int));
            reveal(Seq::filter);
        }
        if !is_internal_path(all[i].as_str()) {
            r.push(all[i].clone());
            proof {
                assert(views(r@) =~= views(prev).push(av[i as int]));
            }
        }
        i = i + 1;
    }
    proof {
        assert(av.take(i as int) =~= av);
        assert(set@ =~= views(base@).to_set().union(views(remote@).to_set()).union(views(local@).to_set()));
    }
    r
}


/// The name an IDE's report shows: the product's display name from its
/// installation metadata, or nothing.
pub open spec fn display_name_of(ide: Ide) -> Seq<char> {
    match ide.metadata {
        Some(m) => m.name@,
        None => Seq::empty(),
    }
}

fn display_name(ide: &Ide) -> (r: String)
    ensures
        r@ == display_name_of(*ide),
{
    match &ide.metadata {
        Some(m) => m.name.clone(),
        None => String::new(),
    }
}

/// Why a never-launched IDE takes no part in a sync.
pub open spec fn never_launched_reason() -> Seq<char> {
    "never launched - recorded its factory defaults; start it once for it to take part"@
}

/// The report for an IDE that has never been started: it has only factory
/// defaults to offer, which are recorded rather than shared, and the
/// first-run import wizard may discard anything written into it, so it is
/// reported rather than silently skipped.
pub fn skipped_report(ide: &Ide) -> (r: IdeReport)
    ensures
        r@ == (IdeReportView {
            directory: ide.directory@,
            display_name: display_name_of(*ide),
            files: Seq::empty(),
            skipped: Some(never_launched_reason()),
        }),
{
    let r = IdeReport {
        directory: ide.directory.clone(),
        display_name: display_name(ide),
        files: Vec::new(),
        skipped: Some("never launched - recorded its factory defaults; start it once for it to take part".to_owned()),
    };
    proof {
        assert(files_view(r.files@) =~= Seq::<FileReportView>::empty());
    }
    r
}

/// The report for an IDE that took part, with what happened to its files.
pub fn ide_report(ide: &Ide, files: Vec<FileReport>) -> (r: IdeReport)
    ensures
        r@ == (IdeReportView {
            directory: ide.directory@,
            display_name: display_name_of(*ide),
            files: files_view(files@),
            skipped: None,
        }),
{
    IdeReport { directory: ide.directory.clone(), display_name: display_name(ide), files, skipped: None }
}

/// How many times reconciliation may repeat before it is considered stuck.
/// Two passes is the normal case and the third only confirms convergence.
pub const MAX_PASSES: usize = 4;

/// Whether reconciliation runs another pass after `done` passes, the last
/// of which `progressed` or not: it repeats until nothing moves, at most
/// [`MAX_PASSES`] times in all.
pub fn another_pass(done: usize, progressed: bool) -> (b: bool)
    ensures
        b == (progressed && done < MAX_PASSES),
{
    progressed && done < MAX_PASSES
}

/// Whether a run is first rehearsed without writing: it is when no side is
/// preferred and the run is meant to write, since then a conflict anywhere
/// means nothing at all may change.
pub fn needs_rehearsal(options: &SyncOptions) -> (b: bool)
    ensures
        b == (options.policy is Fail && !options.dry_run),
{
    match options.policy {
        ConflictPolicy::Fail => !options.dry_run,
        _ => false,
    }
}

/// Whether a pass moved anything: some IDE's report is not empty.
pub fn pass_progressed(pass: &Vec<IdeReport>) -> (b: bool)
    ensures
        b == exists|i: int| 0 <= i < pass@.len() && !all_files_empty(#[trigger] pass@[i]@.files),
{
    let mut i: usize = 0;
    while i < pass.len()
        invariant
            i <= pass@.len(),
            forall|j: int| 0 <= j < i ==> all_files_empty(#[trigger] pass@[j]@.files),
        decreases pass@.len() - i,
    {
        if !pass[i].is_empty() {
            return true;
        }
        i = i + 1;
    }
    false
}

/// No name an IDE is selected by holds a backslash.
pub open spec fn plain_names(ide: Ide) -> bool {
    all_plain(selector_names(ide))
}

/// Whether selector `j` picks IDE `i`. A selector the program resolved as
/// a path on disk (`resolved[j]` holds, for each IDE, whether that path is
/// its config directory) picks the IDEs it resolved to; any other selector
/// is a glob over the IDE's names.
pub open spec fn picks(ides: Seq<Ide>, only: Seq<Seq<char>>, resolved: Seq<Option<Vec<bool>>>, i: int, j: int) -> bool {
    match resolved[j] {
        Some(hits) => hits@[i],
        None => selects(ides[i], only[j]),
    }
}

/// Whether a run restricted to `only` takes part IDE `i`: every IDE when
/// nothing is named, else one some selector picks.
pub open spec fn wanted(ides: Seq<Ide>, only: Seq<Seq<char>>, resolved: Seq<Option<Vec<bool>>>, i: int) -> bool {
    only.len() == 0 || exists|j: int| 0 <= j < only.len() && #[trigger] picks(ides, only, resolved, i, j)
}

/// The selectors resolved as paths say something of every IDE.
pub open spec fn resolved_fits(resolved: Seq<Option<Vec<bool>>>, only_len: nat, ides_len: nat) -> bool {
    &&& resolved.len() == only_len
    &&& forall|j: int| 0 <= j < resolved.len() ==> (#[trigger] resolved[j] matches Some(hits) ==> hits@.len() == ides_len)
}

/// The positions of the IDEs a run restricted to `only` takes part, in
/// order. `resolved` holds, per selector, the program's answer where the
/// selector is an absolute path (which config directory it is, on disk);
/// the others are globs without backslashes.
pub fn selected_ides(ides: &[Ide], only: &[String], resolved: &[Option<Vec<bool>>]) -> (r: Vec<usize>)
    requires
        resolved_fits(resolved@, only@.len(), ides@.len()),
    ensures
        (forall|j: int| 0 <= j < only@.len() && resolved@[j] is None ==> !(#[trigger] only@[j])@.contains('\\'))
            && (forall|i: int| 0 <= i < ides@.len() ==> plain_names(#[trigger] ides@[i])) ==> r@.map_values(
            |k: usize| k as int,
        ) == Seq::new(ides@.len(), |i: int| i).filter(|i: int| wanted(ides@, views(only@), resolved@, i)),
        forall|k: int| 0 <= k < r@.len() ==> #[trigger] r@[k] < ides@.len(),
{
    let ghost plain = (forall|j: int| 0 <= j < only@.len() && resolved@[j] is None ==> !(#[trigger] only@[j])@.contains('\\'))
        && (forall|i: int| 0 <= i < ides@.len() ==> plain_names(#[trigger] ides@[i]));
    let ghost all = Seq::new(ides@.len(), |i: int| i);
    let ghost pred = |i: int| wanted(ides@, views(only@), resolved@, i);
    let mut r: Vec<usize> = Vec::new();
    let mut i: usize = 0;
    while i < ides.len()
        invariant
            i <= ides@.len(),
            resolved_fits(resolved@, only@.len(), ides@.len()),
            plain == ((forall|j: int| 0 <= j < only@.len() && resolved@[j] is None ==> !(#[trigger] only@[j])@.contains('\\'))
                && (forall|i: int| 0 <= i < ides@.len() ==> plain_names(#[trigger] ides@[i]))),
            all == Seq::new(ides@.len(), |i: int| i),
            pred == (|i: int| wanted(ides@, views(only@), resolved@, i)),
            plain ==> r@.map_values(|k: usize| k as int) == all.take(i as int).filter(pred),
            forall|k: int| 0 <= k < r@.len() ==> #[trigger] r@[k] < i,
        decreases ides@.len() - i,
    {
        let mut take = only.len() == 0;
        let mut j: usize = 0;
        while j < only.len() && !take
            invariant
                i < ides@.len(),
                j <= only@.len(),
                resolved_fits(resolved@, only@.len(), ides@.len()),
                take ==> (only@.len() == 0 || (exists|k: int| 0 <= k < only@.len() && #[trigger] picks(ides@, views(only@), resolved@, i as int, k))) || !plain,
                !take ==> only@.len() > 0 && (plain ==> forall|k: int| 0 <= k < j ==> !#[trigger] picks(ides@, views(only@), resolved@, i as int, k)),
                plain == ((forall|j: int| 0 <= j < only@.len() && resolved@[j] is None ==> !(#[trigger] only@[j])@.contains('\\'))
                    && (forall|i: int| 0 <= i < ides@.len() ==> plain_names(#[trigger] ides@[i]))),
            decreases only@.len() - j,
        {
            let hit = match &resolved[j] {
                Some(hits) => {
                    proof {
                        assert(resolved@[j as int] matches Some(h) ==> h@.len() == ides@.len());
                    }
                    hits[i]
                },
                None => {
                    let h = ide_matches_selector(&ides[i], only[j].as_str());
                    proof {
                        if plain {
                            assert(views(only@)[j as int] == only@[j as int]@);
                            assert(!only@[j as int]@.contains('\\'));
                            assert(plain_names(ides@[i as int]));
                        }
                    }
                    h
                },
            };
            proof {
                assert(views(only@)[j as int] == only@[j as int]@);
                if plain {
                    assert(hit == picks(ides@, views(only@), resolved@, i as int, j as int));
                }
            }
            if hit {
                take = true;
            }
            j = j + 1;
        }
        let ghost prev = r@;
        proof {
            assert(all.take(i + 1 as int).drop_last() =~= all.take(i as int));
            assert(all.take(i + 1 as int).last() == i as int);
            reveal(Seq::filter);
            if plain {
                assert(take == wanted(ides@, views(only@), resolved@, i as int));
            }
        }
        if take {
            r.push(i);
            proof {
                assert(r@.map_values(|k: usize| k as int) =~= prev.map_values(|k: usize| k as int).push(i as int));
            }
        }
        i = i + 1;
    }
    proof {
        assert(all.take(i as int) =~= all);
    }
    r
}

/// The projection address of one of the bundled sync's switches.
pub open spec fn switch_address(component: Seq<char>, option: Seq<char>) -> Seq<char> {
    "component[name="@ + component + "]/option[name="@ + option + "]/@value"@
}

/// The document a switch's value is copied from: the component, holding the
/// option, turned off.
pub open spec fn switch_donor(component: Seq<char>, option: Seq<char>) -> ElementView {
    let empty = Seq::<(Seq<char>, Seq<char>)>::empty();
    ElementView {
        name: "application"@,
        attributes: empty,
        children: seq![
            ElementView {
                name: "component"@,
                attributes: pairs_insert(empty, "name"@, component),
                children: seq![
                    ElementView {
                        name: "option"@,
                        attributes: pairs_insert(pairs_insert(empty, "name"@, option), "value"@, "false"@),
                        children: Seq::empty(),
                        text: None,
                    },
                ],
                text: None,
            },
        ],
        text: None,
    }
}

/// An empty settings document.
pub open spec fn empty_application() -> ElementView {
    ElementView { name: "application"@, attributes: Seq::empty(), children: Seq::empty(), text: None }
}

/// What turning one switch of the bundled sync off does to a settings
/// document: nothing when it is already off, else the document with the
/// switch written as `false`.
pub open spec fn switch_outcome(root: ElementView, component: Seq<char>, option: Seq<char>) -> Option<Seq<char>> {
    let address = switch_address(component, option);
    let projection = projection_of(root);
    if projection.contains_key(address) && projection[address] == "false"@ {
        None
    } else {
        Some(
            document_text(
                set_leaf_spec(
                    root,
                    switch_donor(component, option),
                    split_on(address, '/').drop_last(),
                    split_on(address, '/').last(),
                    "false"@,
                ).0,
            ),
        )
    }
}

/// Turns off one switch of JetBrains' bundled Backup and Sync in the text of
/// its settings file (`None` when there is none yet): gives the new text, or
/// `None` when the switch is already off. Both tools write the same files, so
/// leaving both enabled means they overwrite each other's work in a loop.
pub fn switched_off(text: Option<&str>, component: &str, option: &str) -> (r: Option<String>)
    ensures
        (text matches Some(t) && xml_accepts(t@)) ==> opt_view(r) == switch_outcome(
            parsed_document(text.unwrap()@),
            component@,
            option@,
        ),
        !(text matches Some(t) && xml_accepts(t@)) ==> opt_view(r) == switch_outcome(
            empty_application(),
            component@,
            option@,
        ),
{
    let parsed = match text {
        Some(t) => match parse(t) {
            Ok(root) => Some(root),
            Err(_) => None,
        },
        None => None,
    };
    let mut root = match parsed {
        Some(root) => root,
        None => Element::new("application"),
    };
    let ghost start = root@;
    proof {
        if !(text matches Some(t) && xml_accepts(t@)) {
            assert(root.attributes.pairs() =~= Seq::<(Seq<char>, Seq<char>)>::empty());
            lemma_view_from_parts(root, "application"@, Seq::empty(), Seq::empty(), None);
        }
    }
    let mut address = concat("component[name=", component);
    address.append("]/option[name=");
    address.append(option);
    address.append("]/@value");
    let projection = project(&root);
    let off = match projection.get(address.as_str()) {
        Some(value) => str_eq(value.as_str(), "false"),
        None => false,
    };
    if off {
        proof {
            reveal_strlit("false");
        }
        return None;
    }
    let mut setting = Element::new("option");
    setting.attributes.insert("name".to_owned(), option.to_owned());
    setting.attributes.insert("value".to_owned(), "false".to_owned());
    let mut holder = Element::new("component");
    holder.attributes.insert("name".to_owned(), component.to_owned());
    let ghost setting_view = setting@;
    holder.children.push(setting);
    let mut donor = Element::new("application");
    let ghost holder_view = holder@;
    donor.children.push(holder);
    proof {
        let empty = Seq::<(Seq<char>, Seq<char>)>::empty();
        lemma_view_from_parts(setting, "option"@, pairs_insert(pairs_insert(empty, "name"@, option@), "value"@, "false"@), Seq::empty(), None);
        lemma_view_from_parts(holder, "component"@, pairs_insert(empty, "name"@, component@), seq![setting_view], None);
        lemma_view_from_parts(donor, "application"@, empty, seq![holder_view], None);
        assert(donor@ == switch_donor(component@, option@));
    }
    set_leaf(&mut root, &donor, address.as_str(), "false");
    let r = Some(serialize(&root));
    proof {
        reveal_strlit("false");
        assert(opt_view(r) == switch_outcome(start, component@, option@));
    }
    r
}

/// The line announcing that one switch of the bundled sync is turned off.
pub fn switch_line(directory: &str, option: &str) -> (r: String)
    ensures
        r@ == directory@ + ": disable JetBrains Backup and Sync ("@ + option@ + ")"@,
{
    let mut r = concat(directory, ": disable JetBrains Backup and Sync (");
    r.append(option);
    r.append(")");
    r
}


/// Each plugin is kept under its own id.
pub open spec fn keyed_by_id(m: Map<Seq<char>, PluginView>) -> bool {
    m.dom().finite() && forall|k: Seq<char>| #[trigger] m.contains_key(k) ==> m[k].id == k
}

proof fn lemma_put_all(m: Map<Seq<char>, PluginView>, ps: Seq<PluginView>)
    requires
        keyed_by_id(m),
    ensures
        keyed_by_id(put_all(m, ps)),
        forall|k: Seq<char>| m.contains_key(k) ==> #[trigger] put_all(m, ps).contains_key(k),
        forall|i: int| 0 <= i < ps.len() ==> put_all(m, ps).contains_key(#[trigger] ps[i].id),
    decreases ps.len(),
{
    if ps.len() > 0 {
        lemma_put_all(m, ps.drop_last());
        let before = put_all(m, ps.drop_last());
        assert forall|i: int| 0 <= i < ps.len() implies put_all(m, ps).contains_key(#[trigger] ps[i].id) by {
            if i < ps.len() - 1 {
                assert(ps.drop_last()[i] == ps[i]);
            }
        }
    }
}

proof fn lemma_observe_all(state: (Map<Seq<char>, PluginView>, Seq<Seq<char>>), ps: Seq<PluginView>)
    requires
        keyed_by_id(state.0),
    ensures
        keyed_by_id(observe_all(state, ps).0),
        forall|k: Seq<char>| state.0.contains_key(k) ==> #[trigger] observe_all(state, ps).0.contains_key(k),
        forall|i: int| 0 <= i < ps.len() ==> observe_all(state, ps).0.contains_key(#[trigger] ps[i].id),
    decreases ps.len(),
{
    if ps.len() > 0 {
        lemma_observe_all(state, ps.drop_last());
        assert forall|i: int| 0 <= i < ps.len() implies observe_all(state, ps).0.contains_key(#[trigger] ps[i].id) by {
            if i < ps.len() - 1 {
                assert(ps.drop_last()[i] == ps[i]);
            }
        }
    }
}

/// The union of plugin manifests loses nothing and repeats nothing: every
/// plugin stored or observed is in it, a plugin another machine published
/// staying even though it is not installed here, and its ids are strictly
/// ascending.
pub proof fn law_manifest_union_keeps_every_plugin(stored: Seq<PluginView>, observed: Seq<PluginView>)
    ensures
        forall|i: int| 0 <= i < stored.len() ==> exists|j: int|
            0 <= j < manifest_union(stored, observed).0.len() && #[trigger] manifest_union(stored, observed).0[j].id
                == #[trigger] stored[i].id,
        forall|i: int| 0 <= i < observed.len() ==> exists|j: int|
            0 <= j < manifest_union(stored, observed).0.len() && #[trigger] manifest_union(stored, observed).0[j].id
                == #[trigger] observed[i].id,
        sorted_strict(manifest_union(stored, observed).0.map_values(|p: PluginView| p.id)),
{
    let empty = Map::<Seq<char>, PluginView>::empty();
    assert(keyed_by_id(empty));
    lemma_put_all(empty, stored);
    let start = (stored_map(stored), Seq::<Seq<char>>::empty());
    lemma_observe_all(start, observed);
    let done = observe_all(start, observed);
    let keys = sorted_key_list(done.0.dom());
    lemma_sorted_key_list(done.0.dom());
    let union = manifest_union(stored, observed).0;
    assert(union == keys.map_values(|id: Seq<char>| done.0[id]));
    assert forall|j: int| 0 <= j < union.len() implies #[trigger] union[j].id == keys[j] by {
        assert(keys.to_set().contains(keys[j]));
    }
    assert forall|i: int| 0 <= i < stored.len() implies exists|j: int|
        0 <= j < union.len() && #[trigger] union[j].id == #[trigger] stored[i].id by {
        let id = stored[i].id;
        assert(done.0.contains_key(id));
        assert(keys.to_set().contains(id));
        let j = choose|j: int| 0 <= j < keys.len() && keys[j] == id;
        assert(union[j].id == keys[j]);
    }
    assert forall|i: int| 0 <= i < observed.len() implies exists|j: int|
        0 <= j < union.len() && #[trigger] union[j].id == #[trigger] observed[i].id by {
        let id = observed[i].id;
        assert(done.0.contains_key(id));
        assert(keys.to_set().contains(id));
        let j = choose|j: int| 0 <= j < keys.len() && keys[j] == id;
        assert(union[j].id == keys[j]);
    }
    assert(union.map_values(|p: PluginView| p.id) =~= keys);
}

/// A file present in an IDE that holds nothing worth sharing is "no
/// opinion", not "deleted": it touches neither the store, nor the snapshot,
/// nor the IDE, and is not reported.
pub proof fn law_pruned_to_nothing_is_no_opinion(
    relative: Seq<char>,
    raw: Seq<u8>,
    base: Option<Seq<u8>>,
    store: Option<Seq<u8>>,
    pruned: Seq<(Seq<char>, Seq<char>)>,
    policy: ConflictPolicy,
    collect_only: bool,
    backups: bool,
    s: FileStepView,
)
    requires
        file_step_outcome(relative, Some(raw), base, store, (None, pruned), policy, collect_only, backups, s),
    ensures
        s == idle_step(),
{
}

/// What an IDE and the store agreed on is recorded even when nothing
/// changed, so the next divergence has a common ancestor; only a file whose
/// merge moved or pruned something touches the store or the IDE; an IDE is
/// never written while only collecting; and a merge that conflicts with no
/// side preferred is reported and changes nothing.
pub proof fn law_agreement_is_always_recorded(
    relative: Seq<char>,
    raw: Option<Seq<u8>>,
    base: Option<Seq<u8>>,
    pruned: Seq<(Seq<char>, Seq<char>)>,
    m: crate::sync::merge::FileMergeView,
    policy: ConflictPolicy,
    collect_only: bool,
    backups: bool,
    s: FileStepView,
)
    requires
        merged_step(relative, raw, base, pruned, m, policy, collect_only, backups, s),
    ensures
        !refused(policy, m) ==> match s.base {
            Some(c) => c == m.content,
            None => base == m.content,
        },
        refused(policy, m) ==> s.base is None && s.store is None && s.ide is None && s.backup is None && s.report is Some,
        crate::sync::merge::noop(m) && pruned.len() == 0 ==> s.store is None && s.ide is None && s.report is None,
        collect_only ==> s.ide is None,
        s.backup is Some ==> s.ide is Some && s.backup == raw,
{
}

} // verus!
