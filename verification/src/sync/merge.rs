//! Three-way merge, one setting at a time.
//!
//! Every merge answers the same question for three inputs — the last state
//! both sides agreed on (`base`), what this machine has now (`local`), and what
//! the other side has now (`remote`):
//!
//!   * both sides agree            -> take it, nothing happened
//!   * only `remote` moved         -> take `remote`, report it as incoming
//!   * only `local` moved          -> take `local`, report it as outgoing
//!   * both moved, differently     -> a conflict, resolved by policy

use vstd::prelude::*;

use crate::settings::roamable::{deleted_tombstone, is_tombstone};
use crate::strmap::{lemma_is_sorted_key_list, lemma_sorted_key_list, sorted_key_list, sorted_strict, StrMap};
use crate::xml::dom::{canonical, parsed_document, document_text, parse, serialize, Element, ElementView};
use crate::xml::reader::xml_accepts;
use crate::xml::project::{assoc, leaf_removed, leaves, project, projection_of, pruned, prune_empty, remove_leaf, set_leaf, set_leaf_spec, sugar, sugared};
use crate::text::{before_char, chars_of, clone_strings, contains_str, join_strings, join_with, lemma_before_char, lemma_trim_end_by_take, opt_clone, opt_view, prefix_string, split_on, split_str, str_eq, trim, trim_end, trim_end_by, trim_end_str, trim_str, utf8_bytes, utf8_text, views};

verus! {

#[derive(Debug, Clone, Copy, PartialEq, Eq, Structural)]
pub enum Side {
    Local,
    Remote,
}

/// What to do when both sides changed the same setting.
#[derive(Debug, Clone, Copy, PartialEq, Eq, Structural)]
pub enum ConflictPolicy {
    /// The machine running the sync wins.
    PreferLocal,
    PreferRemote,
    /// Refuse to merge, leaving both sides untouched.
    Fail,
}

impl Default for ConflictPolicy {
    fn default() -> (p: Self)
        ensures
            p == ConflictPolicy::PreferLocal,
    {
        ConflictPolicy::PreferLocal
    }
}

/// Which side a conflict resolves to under `policy`.
pub open spec fn winner_of(policy: ConflictPolicy) -> Option<Side> {
    match policy {
        ConflictPolicy::PreferLocal => Some(Side::Local),
        ConflictPolicy::PreferRemote => Some(Side::Remote),
        ConflictPolicy::Fail => None,
    }
}

impl ConflictPolicy {
    pub fn winner(self) -> (r: Option<Side>)
        ensures
            r == winner_of(self),
    {
        match self {
            ConflictPolicy::PreferLocal => Some(Side::Local),
            ConflictPolicy::PreferRemote => Some(Side::Remote),
            ConflictPolicy::Fail => None,
        }
    }
}

/// A single setting changing value. `None` means the setting is absent, which
/// for JetBrains means "left at its default".
#[derive(Debug, Clone, PartialEq, Eq)]
pub struct Change {
    /// Raw projection address, used to apply the change to a real document.
    /// Empty when the change is about the file as a whole.
    pub path: String,
    /// The same address rewritten for people to read.
    pub setting: String,
    pub from: Option<String>,
    pub to: Option<String>,
}

#[derive(Debug, Clone, PartialEq, Eq)]
pub struct Conflict {
    pub setting: String,
    pub local: Option<String>,
    pub remote: Option<String>,
    pub resolved_to: Option<Side>,
}

#[derive(Debug, Clone)]
pub struct FileMerge {
    /// Merged bytes, or `None` when the file should not exist.
    pub content: Option<Vec<u8>>,
    /// Settings this machine is taking from the other side.
    pub incoming: Vec<Change>,
    /// Settings this machine is contributing.
    pub outgoing: Vec<Change>,
    pub conflicts: Vec<Conflict>,
}

pub struct ChangeView {
    pub path: Seq<char>,
    pub setting: Seq<char>,
    pub from: Option<Seq<char>>,
    pub to: Option<Seq<char>>,
}

pub struct ConflictView {
    pub setting: Seq<char>,
    pub local: Option<Seq<char>>,
    pub remote: Option<Seq<char>>,
    pub resolved_to: Option<Side>,
}

pub struct FileMergeView {
    pub content: Option<Seq<u8>>,
    pub incoming: Seq<ChangeView>,
    pub outgoing: Seq<ChangeView>,
    pub conflicts: Seq<ConflictView>,
}

impl View for Change {
    type V = ChangeView;

    open spec fn view(&self) -> ChangeView {
        ChangeView { path: self.path@, setting: self.setting@, from: opt_view(self.from), to: opt_view(self.to) }
    }
}

impl View for Conflict {
    type V = ConflictView;

    open spec fn view(&self) -> ConflictView {
        ConflictView {
            setting: self.setting@,
            local: opt_view(self.local),
            remote: opt_view(self.remote),
            resolved_to: self.resolved_to,
        }
    }
}

pub open spec fn bytes_view(b: Option<Vec<u8>>) -> Option<Seq<u8>> {
    match b {
        Some(v) => Some(v@),
        None => None,
    }
}

pub open spec fn changes_view(s: Seq<Change>) -> Seq<ChangeView> {
    s.map_values(|c: Change| c@)
}

pub open spec fn conflicts_view(s: Seq<Conflict>) -> Seq<ConflictView> {
    s.map_values(|c: Conflict| c@)
}

impl View for FileMerge {
    type V = FileMergeView;

    open spec fn view(&self) -> FileMergeView {
        FileMergeView {
            content: bytes_view(self.content),
            incoming: changes_view(self.incoming@),
            outgoing: changes_view(self.outgoing@),
            conflicts: conflicts_view(self.conflicts@),
        }
    }
}

/// A merge that changed nothing on either side and found no conflict.
pub open spec fn noop(m: FileMergeView) -> bool {
    m.incoming.len() == 0 && m.outgoing.len() == 0 && m.conflicts.len() == 0
}

impl FileMerge {
    pub fn is_noop(&self) -> (b: bool)
        ensures
            b == noop(self@),
    {
        self.incoming.len() == 0 && self.outgoing.len() == 0 && self.conflicts.len() == 0
    }
}

/// A merge result holding `content` and reporting nothing.
pub open spec fn quiet(content: Option<Seq<u8>>) -> FileMergeView {
    FileMergeView { content, incoming: Seq::empty(), outgoing: Seq::empty(), conflicts: Seq::empty() }
}

fn copy_bytes(b: Option<&[u8]>) -> (r: Option<Vec<u8>>)
    ensures
        bytes_view(r) == match b {
            Some(s) => Some(s@),
            None => None::<Seq<u8>>,
        },
{
    match b {
        Some(s) => Some(vstd::slice::slice_to_vec(s)),
        None => None,
    }
}

pub open spec fn slice_view(b: Option<&[u8]>) -> Option<Seq<u8>> {
    match b {
        Some(s) => Some(s@),
        None => None,
    }
}

/// The text a file holds, when it is valid UTF-8.
pub open spec fn text_of(b: Option<Seq<u8>>) -> Option<Seq<char>> {
    match b {
        Some(bytes) => if vstd::utf8::valid_utf8(bytes) {
            Some(vstd::utf8::decode_utf8(bytes))
        } else {
            None
        },
        None => None,
    }
}

/// A `DELETED` tombstone means the same thing as an absent file.
pub open spec fn normalized(b: Option<Seq<u8>>) -> Option<Seq<u8>> {
    match text_of(b) {
        Some(text) => if trim(text) == deleted_tombstone() {
            None
        } else {
            b
        },
        None => b,
    }
}

fn as_text(bytes: Option<&[u8]>) -> (r: Option<String>)
    ensures
        opt_view(r) == text_of(slice_view(bytes)),
{
    match bytes {
        Some(raw) => utf8_text(raw),
        None => None,
    }
}

fn normalize(bytes: Option<&[u8]>) -> (r: Option<&[u8]>)
    ensures
        slice_view(r) == normalized(slice_view(bytes)),
{
    match as_text(bytes) {
        Some(text) => if is_tombstone(text.as_str()) {
            None
        } else {
            bytes
        },
        None => bytes,
    }
}

fn same_bytes(a: Option<&[u8]>, b: Option<&[u8]>) -> (r: bool)
    ensures
        r == (slice_view(a) == slice_view(b)),
{
    match a {
        None => b.is_none(),
        Some(x) => match b {
            None => false,
            Some(y) => {
                if x.len() != y.len() {
                    return false;
                }
                let mut i: usize = 0;
                while i < x.len()
                    invariant
                        i <= x.len(),
                        x.len() == y.len(),
                        slice_view(a) == Some(x@),
                        slice_view(b) == Some(y@),
                        forall|j: int| 0 <= j < i ==> x@[j] == y@[j],
                    decreases x.len() - i,
                {
                    if x[i] != y[i] {
                        proof {
                            assert(x@[i as int] != y@[i as int]);
                            assert(x@ != y@);
                            assert(slice_view(a) == Some(x@));
                            assert(slice_view(b) == Some(y@));
                        }
                        return false;
                    }
                    i = i + 1;
                }
                proof {
                    assert(x@ =~= y@);
                }
                true
            },
        },
    }
}

/// One side is unchanged, so the other side's version wins outright.
pub open spec fn whole_file_spec(unchanged: Option<Seq<u8>>, moved: Option<Seq<u8>>, side: Side) -> FileMergeView {
    let describe = |present: bool| if !present {
        None
    } else if side == Side::Remote {
        Some("updated remotely"@)
    } else {
        Some("updated locally"@)
    };
    let change = ChangeView {
        path: Seq::empty(),
        setting: if unchanged is Some && moved is None {
            "(file removed)"@
        } else if unchanged is None && moved is Some {
            "(file added)"@
        } else {
            "(file contents)"@
        },
        from: describe(unchanged is Some),
        to: describe(moved is Some),
    };
    FileMergeView {
        content: moved,
        incoming: if side == Side::Remote {
            seq![change]
        } else {
            Seq::empty()
        },
        outgoing: if side == Side::Local {
            seq![change]
        } else {
            Seq::empty()
        },
        conflicts: Seq::empty(),
    }
}

fn describe_side(present: bool, side: Side) -> (r: Option<String>)
    ensures
        opt_view(r) == (if !present {
            None
        } else if side == Side::Remote {
            Some("updated remotely"@)
        } else {
            Some("updated locally"@)
        }),
{
    if !present {
        None
    } else if side == Side::Remote {
        Some("updated remotely".to_owned())
    } else {
        Some("updated locally".to_owned())
    }
}

fn whole_file(unchanged: Option<&[u8]>, moved: Option<&[u8]>, side: Side) -> (r: FileMerge)
    ensures
        r@ == whole_file_spec(slice_view(unchanged), slice_view(moved), side),
{
    let setting = if unchanged.is_some() && moved.is_none() {
        "(file removed)".to_owned()
    } else if unchanged.is_none() && moved.is_some() {
        "(file added)".to_owned()
    } else {
        "(file contents)".to_owned()
    };
    let change = Change {
        path: String::new(),
        setting,
        from: describe_side(unchanged.is_some(), side),
        to: describe_side(moved.is_some(), side),
    };
    let mut merge = FileMerge {
        content: copy_bytes(moved),
        incoming: Vec::new(),
        outgoing: Vec::new(),
        conflicts: Vec::new(),
    };
    match side {
        Side::Remote => merge.incoming.push(change),
        Side::Local => merge.outgoing.push(change),
    }
    proof {
        let expected = whole_file_spec(slice_view(unchanged), slice_view(moved), side);
        assert(changes_view(merge.incoming@) =~= expected.incoming);
        assert(changes_view(merge.outgoing@) =~= expected.outgoing);
        assert(conflicts_view(merge.conflicts@) =~= expected.conflicts);
    }
    merge
}

/// Both sides moved and nothing finer is known: the policy picks a whole file.
pub open spec fn binary_conflict_spec(local: Option<Seq<u8>>, remote: Option<Seq<u8>>, policy: ConflictPolicy) -> FileMergeView {
    FileMergeView {
        content: if winner_of(policy) == Some(Side::Remote) {
            remote
        } else {
            local
        },
        incoming: Seq::empty(),
        outgoing: Seq::empty(),
        conflicts: seq![
            ConflictView {
                setting: "(whole file)"@,
                local: if local is Some {
                    Some("local version"@)
                } else {
                    None
                },
                remote: if remote is Some {
                    Some("remote version"@)
                } else {
                    None
                },
                resolved_to: winner_of(policy),
            },
        ],
    }
}

fn binary_conflict(local: Option<&[u8]>, remote: Option<&[u8]>, policy: ConflictPolicy) -> (r: FileMerge)
    ensures
        r@ == binary_conflict_spec(slice_view(local), slice_view(remote), policy),
{
    let winner = policy.winner();
    let content = match winner {
        Some(Side::Remote) => remote,
        _ => local,
    };
    let conflict = Conflict {
        setting: "(whole file)".to_owned(),
        local: if local.is_some() {
            Some("local version".to_owned())
        } else {
            None
        },
        remote: if remote.is_some() {
            Some("remote version".to_owned())
        } else {
            None
        },
        resolved_to: winner,
    };
    let mut conflicts = Vec::new();
    conflicts.push(conflict);
    let r = FileMerge { content: copy_bytes(content), incoming: Vec::new(), outgoing: Vec::new(), conflicts };
    proof {
        let expected = binary_conflict_spec(slice_view(local), slice_view(remote), policy);
        assert(changes_view(r.incoming@) =~= expected.incoming);
        assert(changes_view(r.outgoing@) =~= expected.outgoing);
        assert(conflicts_view(r.conflicts@) =~= expected.conflicts);
    }
    r
}

/// The whole-file three-way decision: the side that moved wins, and if both
/// moved the policy decides.
pub open spec fn opaque_merge_spec(
    base: Option<Seq<u8>>,
    local: Option<Seq<u8>>,
    remote: Option<Seq<u8>>,
    policy: ConflictPolicy,
) -> FileMergeView {
    if local == remote {
        quiet(local)
    } else if local == base {
        whole_file_spec(local, remote, Side::Remote)
    } else if remote == base {
        whole_file_spec(remote, local, Side::Local)
    } else {
        binary_conflict_spec(local, remote, policy)
    }
}

/// Whole-file three-way merge, for store files that are not IDE settings
/// (`sync.toml`, `plugins.json`). No structural knowledge is applied.
pub fn merge_opaque(base: Option<&[u8]>, local: Option<&[u8]>, remote: Option<&[u8]>, policy: ConflictPolicy) -> (r: FileMerge)
    ensures
        r@ == opaque_merge_spec(slice_view(base), slice_view(local), slice_view(remote), policy),
{
    if same_bytes(local, remote) {
        let r = FileMerge { content: copy_bytes(local), incoming: Vec::new(), outgoing: Vec::new(), conflicts: Vec::new() };
        proof {
            assert(changes_view(r.incoming@) =~= Seq::<ChangeView>::empty());
            assert(changes_view(r.outgoing@) =~= Seq::<ChangeView>::empty());
            assert(conflicts_view(r.conflicts@) =~= Seq::<ConflictView>::empty());
        }
        return r;
    }
    if same_bytes(local, base) {
        return whole_file(local, remote, Side::Remote);
    }
    if same_bytes(remote, base) {
        return whole_file(remote, local, Side::Local);
    }
    binary_conflict(local, remote, policy)
}


/// The size suffixes a JVM memory flag may carry.
pub open spec fn is_size_suffix(c: char) -> bool {
    c == 'k' || c == 'K' || c == 'm' || c == 'M' || c == 'g' || c == 'G'
}

pub open spec fn is_ascii_digit(c: char) -> bool {
    '0' <= c <= '9'
}

/// The key two machines could disagree about for one JVM flag: the name
/// before `=`, or the flag with its size suffix and number removed.
pub open spec fn flag_key_spec(line: Seq<char>) -> Seq<char> {
    let t = trim(line);
    match before_char(t, '=') {
        Some(name) => name,
        None => trim_end_by(trim_end_by(t, |c: char| is_size_suffix(c)), |c: char| is_ascii_digit(c)),
    }
}

/// Splits a JVM flag into the key two machines could disagree about, so
/// `-Xmx4g` and `-Xmx8g` conflict while `-Xmx4g` and `-XX:+UseZGC` do not.
pub fn flag_key(line: &str) -> (r: String)
    ensures
        r@ == flag_key_spec(line@),
{
    let trimmed = trim_str(line);
    let chars = chars_of(trimmed.as_str());
    let mut i: usize = 0;
    while i < chars.len() && chars[i] != '='
        invariant
            i <= chars@.len(),
            forall|j: int| 0 <= j < i ==> #[trigger] chars@[j] != '=',
        decreases chars.len() - i,
    {
        i = i + 1;
    }
    proof {
        lemma_before_char(chars@, '=', i as int);
    }
    if i < chars.len() {
        return prefix_string(&chars, i);
    }
    let mut end: usize = chars.len();
    while end > 0 && (chars[end - 1] == 'k' || chars[end - 1] == 'K' || chars[end - 1] == 'm'
        || chars[end - 1] == 'M' || chars[end - 1] == 'g' || chars[end - 1] == 'G')
        invariant
            end <= chars@.len(),
            forall|j: int| end <= j < chars@.len() ==> is_size_suffix(#[trigger] chars@[j]),
        decreases end,
    {
        end = end - 1;
    }
    let size_end = end;
    proof {
        lemma_trim_end_by_take(chars@, |c: char| is_size_suffix(c), size_end as int);
    }
    while end > 0 && '0' <= chars[end - 1] && chars[end - 1] <= '9'
        invariant
            end <= size_end <= chars@.len(),
            forall|j: int| end <= j < size_end ==> is_ascii_digit(#[trigger] chars@[j]),
        decreases end,
    {
        end = end - 1;
    }
    proof {
        let t = chars@.take(size_end as int);
        assert forall|j: int| end <= j < t.len() implies is_ascii_digit(#[trigger] t[j]) by {}
        if end > 0 {
            assert(t[end - 1] == chars@[end - 1]);
        }
        lemma_trim_end_by_take(t, |c: char| is_ascii_digit(c), end as int);
        assert(t.take(end as int) =~= chars@.take(end as int));
    }
    prefix_string(&chars, end)
}

/// The non-blank lines of a text, each without trailing whitespace.
pub open spec fn kept_lines(parts: Seq<Seq<char>>) -> Seq<Seq<char>>
    decreases parts.len(),
{
    if parts.len() == 0 {
        Seq::empty()
    } else {
        let rest = kept_lines(parts.drop_last());
        let line = trim_end(parts.last());
        if line.len() == 0 {
            rest
        } else {
            rest.push(line)
        }
    }
}

/// The lines a text merge works with.
pub open spec fn text_lines(text: Seq<char>) -> Seq<Seq<char>> {
    kept_lines(split_on(text, '\n'))
}

fn lines_of(text: &str) -> (r: Vec<String>)
    ensures
        views(r@) == text_lines(text@),
{
    let parts = split_str(text, '\n');
    let mut r: Vec<String> = Vec::new();
    let mut i: usize = 0;
    while i < parts.len()
        invariant
            i <= parts.len(),
            views(r@) == kept_lines(views(parts@).take(i as int)),
        decreases parts.len() - i,
    {
        proof {
            assert(views(parts@).take(i + 1 as int).drop_last() == views(parts@).take(i as int));
            assert(views(parts@).take(i + 1 as int).last() == parts@[i as int]@);
        }
        let line = trim_end_str(parts[i].as_str());
        let ghost prev = r@;
        if !line.as_str().is_empty() {
            r.push(line);
            proof {
                assert(views(r@) =~= views(prev).push(line@));
            }
        }
        i = i + 1;
    }
    proof {
        assert(views(parts@).take(parts@.len() as int) == views(parts@));
    }
    r
}

/// The lines of `current` that `base` does not hold.
pub open spec fn added_lines(current: Seq<Seq<char>>, base: Seq<Seq<char>>) -> Seq<Seq<char>>
    decreases current.len(),
{
    if current.len() == 0 {
        Seq::empty()
    } else {
        let rest = added_lines(current.drop_last(), base);
        if base.contains(current.last()) {
            rest
        } else {
            rest.push(current.last())
        }
    }
}

fn added(current: &Vec<String>, base: &Vec<String>) -> (r: Vec<String>)
    ensures
        views(r@) == added_lines(views(current@), views(base@)),
{
    let mut r: Vec<String> = Vec::new();
    let mut i: usize = 0;
    while i < current.len()
        invariant
            i <= current.len(),
            views(r@) == added_lines(views(current@).take(i as int), views(base@)),
        decreases current.len() - i,
    {
        proof {
            assert(views(current@).take(i + 1 as int).drop_last() == views(current@).take(i as int));
            assert(views(current@).take(i + 1 as int).last() == current@[i as int]@);
        }
        let ghost prev = r@;
        if !contains_str(base, current[i].as_str()) {
            r.push(current[i].clone());
            proof {
                assert(views(r@) =~= views(prev).push(current@[i as int]@));
            }
        }
        i = i + 1;
    }
    proof {
        assert(views(current@).take(current@.len() as int) == views(current@));
    }
    r
}

/// Where a text merge stands after some of its lines.
pub struct TextMergeState {
    pub merged: Seq<Seq<char>>,
    pub incoming: Seq<ChangeView>,
    pub outgoing: Seq<ChangeView>,
    pub conflicts: Seq<ConflictView>,
}

/// A base line survives unless one side deliberately removed it; a removal
/// is reported in the direction it travels.
pub open spec fn base_phase(
    lines: Seq<Seq<char>>,
    local: Seq<Seq<char>>,
    remote: Seq<Seq<char>>,
) -> TextMergeState
    decreases lines.len(),
{
    if lines.len() == 0 {
        TextMergeState { merged: Seq::empty(), incoming: Seq::empty(), outgoing: Seq::empty(), conflicts: Seq::empty() }
    } else {
        let s = base_phase(lines.drop_last(), local, remote);
        let line = lines.last();
        if local.contains(line) && remote.contains(line) {
            TextMergeState { merged: s.merged.push(line), ..s }
        } else {
            let change = ChangeView { path: Seq::empty(), setting: flag_key_spec(line), from: Some(line), to: None };
            if local.contains(line) {
                TextMergeState { incoming: s.incoming.push(change), ..s }
            } else {
                TextMergeState { outgoing: s.outgoing.push(change), ..s }
            }
        }
    }
}

/// The first line of `lines` whose flag key is `key`.
pub open spec fn first_with_key(lines: Seq<Seq<char>>, key: Seq<char>) -> Option<Seq<char>>
    decreases lines.len(),
{
    if lines.len() == 0 {
        None
    } else if flag_key_spec(lines[0]) == key {
        Some(lines[0])
    } else {
        first_with_key(lines.drop_first(), key)
    }
}

/// Local additions, each checked against the remote additions of the same
/// flag: identical is agreement, different is a conflict, absent is outgoing.
pub open spec fn local_phase(
    start: TextMergeState,
    lines: Seq<Seq<char>>,
    remote_added: Seq<Seq<char>>,
    policy: ConflictPolicy,
) -> TextMergeState
    decreases lines.len(),
{
    if lines.len() == 0 {
        start
    } else {
        let s = local_phase(start, lines.drop_last(), remote_added, policy);
        let line = lines.last();
        let key = flag_key_spec(line);
        match first_with_key(remote_added, key) {
            Some(other) => if other == line {
                TextMergeState { merged: s.merged.push(line), ..s }
            } else {
                TextMergeState {
                    merged: s.merged.push(
                        if winner_of(policy) == Some(Side::Remote) {
                            other
                        } else {
                            line
                        },
                    ),
                    conflicts: s.conflicts.push(
                        ConflictView { setting: key, local: Some(line), remote: Some(other), resolved_to: winner_of(policy) },
                    ),
                    ..s
                }
            },
            None => TextMergeState {
                merged: s.merged.push(line),
                outgoing: s.outgoing.push(ChangeView { path: Seq::empty(), setting: key, from: None, to: Some(line) }),
                ..s
            },
        }
    }
}

/// Remote additions not settled against a local addition of the same flag.
pub open spec fn remote_phase(
    start: TextMergeState,
    lines: Seq<Seq<char>>,
    local_added: Seq<Seq<char>>,
) -> TextMergeState
    decreases lines.len(),
{
    if lines.len() == 0 {
        start
    } else {
        let s = remote_phase(start, lines.drop_last(), local_added);
        let line = lines.last();
        let key = flag_key_spec(line);
        if first_with_key(local_added, key) is Some {
            s
        } else {
            TextMergeState {
                merged: s.merged.push(line),
                incoming: s.incoming.push(ChangeView { path: Seq::empty(), setting: key, from: None, to: Some(line) }),
                ..s
            }
        }
    }
}

/// The lines joined, ending in a newline unless there are none.
pub open spec fn lines_text(lines: Seq<Seq<char>>) -> Seq<char> {
    let text = join_with(lines, "\n"@);
    if text.len() == 0 {
        text
    } else {
        text + "\n"@
    }
}

/// The lines of an optional base text.
pub open spec fn base_lines_of(base: Option<Seq<char>>) -> Seq<Seq<char>> {
    match base {
        Some(b) => text_lines(b),
        None => Seq::empty(),
    }
}

/// The three phases of a text merge, run in turn: base lines, then local
/// additions, then the remaining remote additions.
pub open spec fn text_merge_state(
    base: Option<Seq<char>>,
    local: Seq<char>,
    remote: Seq<char>,
    policy: ConflictPolicy,
) -> TextMergeState {
    let base_lines = base_lines_of(base);
    let local_lines = text_lines(local);
    let remote_lines = text_lines(remote);
    let local_added = added_lines(local_lines, base_lines);
    let remote_added = added_lines(remote_lines, base_lines);
    let s1 = base_phase(base_lines, local_lines, remote_lines);
    let s2 = local_phase(s1, local_added, remote_added, policy);
    remote_phase(s2, remote_added, local_added)
}

/// The line-oriented merge of plain-text settings, chiefly `.vmoptions`.
pub open spec fn text_merge_spec(
    base: Option<Seq<char>>,
    local: Seq<char>,
    remote: Seq<char>,
    policy: ConflictPolicy,
) -> FileMergeView {
    let s3 = text_merge_state(base, local, remote, policy);
    FileMergeView {
        content: Some(vstd::utf8::encode_utf8(lines_text(s3.merged))),
        incoming: s3.incoming,
        outgoing: s3.outgoing,
        conflicts: s3.conflicts,
    }
}

fn find_with_key(lines: &Vec<String>, key: &str) -> (r: Option<usize>)
    ensures
        r matches Some(i) ==> i < lines@.len() && first_with_key(views(lines@), key@) == Some(lines@[i as int]@),
        r is None ==> first_with_key(views(lines@), key@) is None,
{
    let mut i: usize = lines.len();
    let mut found: Option<usize> = None;
    while i > 0
        invariant
            i <= lines@.len(),
            found matches Some(k) ==> k < lines@.len() && first_with_key(views(lines@).skip(i as int), key@) == Some(lines@[k as int]@),
            found is None ==> first_with_key(views(lines@).skip(i as int), key@) is None,
        decreases i,
    {
        i = i - 1;
        proof {
            assert(views(lines@).skip(i as int)[0] == lines@[i as int]@);
            assert(views(lines@).skip(i as int).drop_first() =~= views(lines@).skip(i + 1));
        }
        let k = flag_key(lines[i].as_str());
        if str_eq(k.as_str(), key) {
            found = Some(i);
        }
    }
    proof {
        assert(views(lines@).skip(0) =~= views(lines@));
    }
    found
}

/// Line-oriented merge for plain-text settings, chiefly `.vmoptions`.
///
/// Treated as a set of flags: additions from both sides are kept, deletions
/// from either side are honoured, and only two different values for the *same*
/// flag count as a conflict.
pub fn merge_text(base: Option<&str>, local: &str, remote: &str, policy: ConflictPolicy) -> (r: FileMerge)
    ensures
        r@ == text_merge_spec(
            match base {
                Some(b) => Some(b@),
                None => None,
            },
            local@,
            remote@,
            policy,
        ),
{
    let base_lines = match base {
        Some(b) => lines_of(b),
        None => Vec::new(),
    };
    let ghost bl = match base {
        Some(b) => text_lines(b@),
        None => Seq::<Seq<char>>::empty(),
    };
    proof {
        assert(views(base_lines@) =~= bl);
    }
    let local_lines = lines_of(local);
    let remote_lines = lines_of(remote);
    let local_added = added(&local_lines, &base_lines);
    let remote_added = added(&remote_lines, &base_lines);
    let ghost ll = views(local_lines@);
    let ghost rl = views(remote_lines@);
    let ghost la = views(local_added@);
    let ghost ra = views(remote_added@);

    let mut merged: Vec<String> = Vec::new();
    let mut incoming: Vec<Change> = Vec::new();
    let mut outgoing: Vec<Change> = Vec::new();
    let mut conflicts: Vec<Conflict> = Vec::new();

    let mut i: usize = 0;
    while i < base_lines.len()
        invariant
            i <= base_lines@.len(),
            views(base_lines@) == bl,
            ll == views(local_lines@),
            rl == views(remote_lines@),
            ({
                let s = base_phase(bl.take(i as int), ll, rl);
                &&& views(merged@) == s.merged
                &&& changes_view(incoming@) == s.incoming
                &&& changes_view(outgoing@) == s.outgoing
                &&& conflicts_view(conflicts@) == s.conflicts
            }),
        decreases base_lines@.len() - i,
    {
        proof {
            assert(bl.take(i + 1 as int).drop_last() == bl.take(i as int));
            assert(bl.take(i + 1 as int).last() == base_lines@[i as int]@);
        }
        let line = &base_lines[i];
        let kept_locally = contains_str(&local_lines, line.as_str());
        let kept_remotely = contains_str(&remote_lines, line.as_str());
        let ghost (m0, in0, out0) = (merged@, incoming@, outgoing@);
        if kept_locally && kept_remotely {
            merged.push(line.clone());
            proof {
                assert(views(merged@) =~= views(m0).push(line@));
            }
        } else {
            let change = Change { path: String::new(), setting: flag_key(line.as_str()), from: Some(line.clone()), to: None };
            if kept_locally {
                incoming.push(change);
                proof {
                    assert(changes_view(incoming@) =~= changes_view(in0).push(change@));
                }
            } else {
                outgoing.push(change);
                proof {
                    assert(changes_view(outgoing@) =~= changes_view(out0).push(change@));
                }
            }
        }
        i = i + 1;
    }
    proof {
        assert(bl.take(base_lines@.len() as int) == bl);
    }
    let ghost s1 = base_phase(bl, ll, rl);

    let mut i: usize = 0;
    while i < local_added.len()
        invariant
            i <= local_added@.len(),
            la == views(local_added@),
            ra == views(remote_added@),
            ({
                let s = local_phase(s1, la.take(i as int), ra, policy);
                &&& views(merged@) == s.merged
                &&& changes_view(incoming@) == s.incoming
                &&& changes_view(outgoing@) == s.outgoing
                &&& conflicts_view(conflicts@) == s.conflicts
            }),
        decreases local_added@.len() - i,
    {
        proof {
            assert(la.take(i + 1 as int).drop_last() == la.take(i as int));
            assert(la.take(i + 1 as int).last() == local_added@[i as int]@);
        }
        let line = &local_added[i];
        let key = flag_key(line.as_str());
        let ghost (m0, out0, c0) = (merged@, outgoing@, conflicts@);
        match find_with_key(&remote_added, key.as_str()) {
            Some(index) => {
                let other = &remote_added[index];
                if *other == *line {
                    merged.push(line.clone());
                    proof {
                        assert(views(merged@) =~= views(m0).push(line@));
                    }
                } else {
                    let winner = policy.winner();
                    let conflict = Conflict {
                        setting: key,
                        local: Some(line.clone()),
                        remote: Some(other.clone()),
                        resolved_to: winner,
                    };
                    conflicts.push(conflict);
                    let chosen = if winner == Some(Side::Remote) {
                        other.clone()
                    } else {
                        line.clone()
                    };
                    merged.push(chosen);
                    proof {
                        assert(views(merged@) =~= views(m0).push(chosen@));
                        assert(conflicts_view(conflicts@) =~= conflicts_view(c0).push(conflict@));
                    }
                }
            },
            None => {
                merged.push(line.clone());
                let change = Change { path: String::new(), setting: key, from: None, to: Some(line.clone()) };
                outgoing.push(change);
                proof {
                    assert(views(merged@) =~= views(m0).push(line@));
                    assert(changes_view(outgoing@) =~= changes_view(out0).push(change@));
                }
            },
        }
        i = i + 1;
    }
    proof {
        assert(la.take(local_added@.len() as int) == la);
    }
    let ghost s2 = local_phase(s1, la, ra, policy);

    let mut i: usize = 0;
    while i < remote_added.len()
        invariant
            i <= remote_added@.len(),
            la == views(local_added@),
            ra == views(remote_added@),
            ({
                let s = remote_phase(s2, ra.take(i as int), la);
                &&& views(merged@) == s.merged
                &&& changes_view(incoming@) == s.incoming
                &&& changes_view(outgoing@) == s.outgoing
                &&& conflicts_view(conflicts@) == s.conflicts
            }),
        decreases remote_added@.len() - i,
    {
        proof {
            assert(ra.take(i + 1 as int).drop_last() == ra.take(i as int));
            assert(ra.take(i + 1 as int).last() == remote_added@[i as int]@);
        }
        let line = &remote_added[i];
        let key = flag_key(line.as_str());
        let ghost (m0, in0) = (merged@, incoming@);
        if find_with_key(&local_added, key.as_str()).is_none() {
            merged.push(line.clone());
            let change = Change { path: String::new(), setting: key, from: None, to: Some(line.clone()) };
            incoming.push(change);
            proof {
                assert(views(merged@) =~= views(m0).push(line@));
                assert(changes_view(incoming@) =~= changes_view(in0).push(change@));
            }
        }
        i = i + 1;
    }
    proof {
        assert(ra.take(remote_added@.len() as int) == ra);
    }

    let mut text = join_strings(merged.as_slice(), "\n");
    if !text.as_str().is_empty() {
        text.append("\n");
    }
    FileMerge { content: Some(utf8_bytes(text.as_str())), incoming, outgoing, conflicts }
}


/// The value at `key`, if any.
pub open spec fn lookup(m: Map<Seq<char>, Seq<char>>, key: Seq<char>) -> Option<Seq<char>> {
    if m.contains_key(key) {
        Some(m[key])
    } else {
        None
    }
}

/// Where a document merge stands after some of its settings.
pub struct DocMergeState {
    pub tree: ElementView,
    pub incoming: Seq<ChangeView>,
    pub outgoing: Seq<ChangeView>,
    pub conflicts: Seq<ConflictView>,
}

/// One setting of a document merge: agreement does nothing; otherwise the
/// side that moved wins, or the policy when both did, and the change is
/// reported in the direction it travels. A remote value is written into the
/// tree, grafting ancestors from the remote document; a remote removal
/// removes the leaf.
pub open spec fn document_step(
    s: DocMergeState,
    path: Seq<char>,
    base: Map<Seq<char>, Seq<char>>,
    local: Map<Seq<char>, Seq<char>>,
    remote: Map<Seq<char>, Seq<char>>,
    donor: ElementView,
    policy: ConflictPolicy,
) -> DocMergeState {
    let b = lookup(base, path);
    let l = lookup(local, path);
    let r = lookup(remote, path);
    if l == r {
        s
    } else {
        let readable = sugared(path);
        let conflicted = l != b && r != b;
        let s1 = if conflicted {
            DocMergeState {
                conflicts: s.conflicts.push(
                    ConflictView { setting: readable, local: l, remote: r, resolved_to: winner_of(policy) },
                ),
                ..s
            }
        } else {
            s
        };
        let take_remote = if l == b {
            true
        } else if r == b {
            false
        } else {
            winner_of(policy) == Some(Side::Remote)
        };
        if take_remote {
            let segs = crate::text::split_on(path, '/');
            DocMergeState {
                incoming: s1.incoming.push(ChangeView { path, setting: readable, from: l, to: r }),
                tree: match r {
                    Some(v) => set_leaf_spec(s1.tree, donor, segs.drop_last(), segs.last(), v).0,
                    None => leaf_removed(s1.tree, path),
                },
                ..s1
            }
        } else {
            DocMergeState {
                outgoing: s1.outgoing.push(ChangeView { path, setting: readable, from: r, to: l }),
                ..s1
            }
        }
    }
}

pub open spec fn document_fold(
    start: DocMergeState,
    paths: Seq<Seq<char>>,
    base: Map<Seq<char>, Seq<char>>,
    local: Map<Seq<char>, Seq<char>>,
    remote: Map<Seq<char>, Seq<char>>,
    donor: ElementView,
    policy: ConflictPolicy,
) -> DocMergeState
    decreases paths.len(),
{
    if paths.len() == 0 {
        start
    } else {
        document_step(
            document_fold(start, paths.drop_last(), base, local, remote, donor, policy),
            paths.last(),
            base,
            local,
            remote,
            donor,
            policy,
        )
    }
}

/// The setting-by-setting merge of two documents against their common base:
/// every address either side holds, in address order, is decided by
/// [`document_step`] starting from the local document; the result is pruned
/// and serialized.
pub open spec fn documents_merge_spec(
    base: Option<ElementView>,
    local: ElementView,
    remote: ElementView,
    policy: ConflictPolicy,
) -> FileMergeView {
    let bv = match base {
        Some(b) => projection_of(b),
        None => Map::empty(),
    };
    let lv = projection_of(local);
    let rv = projection_of(remote);
    let paths = sorted_key_list(lv.dom().union(rv.dom()));
    let start = DocMergeState { tree: local, incoming: Seq::empty(), outgoing: Seq::empty(), conflicts: Seq::empty() };
    let end = document_fold(start, paths, bv, lv, rv, remote, policy);
    FileMergeView {
        content: Some(vstd::utf8::encode_utf8(document_text(pruned(end.tree)))),
        incoming: end.incoming,
        outgoing: end.outgoing,
        conflicts: end.conflicts,
    }
}

fn lookup_exec(m: &StrMap, key: &str) -> (r: Option<String>)
    ensures
        opt_view(r) == lookup(m@, key@),
{
    match m.get(key) {
        Some(v) => Some(v.clone()),
        None => None,
    }
}

fn same_opt(a: &Option<String>, b: &Option<String>) -> (r: bool)
    ensures
        r == (opt_view(*a) == opt_view(*b)),
{
    match a {
        Some(x) => match b {
            Some(y) => *x == *y,
            None => false,
        },
        None => b.is_none(),
    }
}

/// Every address either projection holds, in order.
fn all_paths(local: &StrMap, remote: &StrMap) -> (r: Vec<String>)
    ensures
        views(r@) == sorted_key_list(local@.dom().union(remote@.dom())),
{
    let mut all = StrMap::new();
    let local_keys = local.keys_vec();
    let mut i: usize = 0;
    while i < local_keys.len()
        invariant
            i <= local_keys@.len(),
            views(local_keys@) == local.keys(),
            all@.dom() == views(local_keys@).take(i as int).to_set(),
        decreases local_keys@.len() - i,
    {
        all.insert(local_keys[i].clone(), String::new());
        proof {
            assert(views(local_keys@).take(i + 1 as int) =~= views(local_keys@).take(i as int).push(local_keys@[i as int]@));
            views(local_keys@).take(i as int).lemma_push_to_set_commute(local_keys@[i as int]@);
            assert(all@.dom() =~= views(local_keys@).take(i + 1 as int).to_set());
        }
        i = i + 1;
    }
    let remote_keys = remote.keys_vec();
    let mut j: usize = 0;
    proof {
        assert(views(local_keys@).take(i as int) =~= local.keys());
    }
    while j < remote_keys.len()
        invariant
            j <= remote_keys@.len(),
            views(remote_keys@) == remote.keys(),
            all@.dom() == local.keys().to_set().union(views(remote_keys@).take(j as int).to_set()),
        decreases remote_keys@.len() - j,
    {
        all.insert(remote_keys[j].clone(), String::new());
        proof {
            assert(views(remote_keys@).take(j + 1 as int) =~= views(remote_keys@).take(j as int).push(remote_keys@[j as int]@));
            views(remote_keys@).take(j as int).lemma_push_to_set_commute(remote_keys@[j as int]@);
            assert(all@.dom() =~= local.keys().to_set().union(views(remote_keys@).take(j + 1 as int).to_set()));
        }
        j = j + 1;
    }
    proof {
        assert(views(remote_keys@).take(j as int) =~= remote.keys());
    }
    let r = all.keys_vec();
    proof {
        lemma_is_sorted_key_list(all.keys());
        assert(all.keys().to_set() =~= local@.dom().union(remote@.dom()));
    }
    r
}

/// The real work: reconcile two documents setting by setting.
pub fn merge_documents(base: Option<&Element>, local: &Element, remote: &Element, policy: ConflictPolicy) -> (r: FileMerge)
    ensures
        r@ == documents_merge_spec(
            match base {
                Some(b) => Some(b@),
                None => None,
            },
            local@,
            remote@,
            policy,
        ),
{
    let base_view = match base {
        Some(b) => project(b),
        None => StrMap::new(),
    };
    let ghost bv = match base {
        Some(b) => projection_of(b@),
        None => Map::<Seq<char>, Seq<char>>::empty(),
    };
    proof {
        assert(base_view@ =~= bv);
    }
    let local_view = project(local);
    let remote_view = project(remote);
    let paths = all_paths(&local_view, &remote_view);
    let ghost ps = views(paths@);
    let ghost start = DocMergeState { tree: local@, incoming: Seq::empty(), outgoing: Seq::empty(), conflicts: Seq::empty() };

    let mut merged = local.copy();
    let mut incoming: Vec<Change> = Vec::new();
    let mut outgoing: Vec<Change> = Vec::new();
    let mut conflicts: Vec<Conflict> = Vec::new();
    let mut i: usize = 0;
    proof {
        assert(changes_view(incoming@) =~= Seq::<ChangeView>::empty());
        assert(changes_view(outgoing@) =~= Seq::<ChangeView>::empty());
        assert(conflicts_view(conflicts@) =~= Seq::<ConflictView>::empty());
        assert(ps.take(0) =~= Seq::<Seq<char>>::empty());
    }
    while i < paths.len()
        invariant
            i <= paths@.len(),
            ps == views(paths@),
            bv == base_view@,
            ({
                let s = document_fold(start, ps.take(i as int), bv, local_view@, remote_view@, remote@, policy);
                &&& merged@ == s.tree
                &&& changes_view(incoming@) == s.incoming
                &&& changes_view(outgoing@) == s.outgoing
                &&& conflicts_view(conflicts@) == s.conflicts
            }),
        decreases paths@.len() - i,
    {
        proof {
            assert(ps.take(i + 1 as int).drop_last() == ps.take(i as int));
            assert(ps.take(i + 1 as int).last() == paths@[i as int]@);
        }
        let path = paths[i].as_str();
        let in_base = lookup_exec(&base_view, path);
        let in_local = lookup_exec(&local_view, path);
        let in_remote = lookup_exec(&remote_view, path);
        if !same_opt(&in_local, &in_remote) {
            let readable = sugar(path);
            let local_is_base = same_opt(&in_local, &in_base);
            let remote_is_base = same_opt(&in_remote, &in_base);
            let take_remote = if local_is_base {
                true
            } else if remote_is_base {
                false
            } else {
                let winner = policy.winner();
                let conflict = Conflict {
                    setting: readable.clone(),
                    local: opt_clone(&in_local),
                    remote: opt_clone(&in_remote),
                    resolved_to: winner,
                };
                let ghost c0 = conflicts@;
                conflicts.push(conflict);
                proof {
                    assert(conflicts_view(conflicts@) =~= conflicts_view(c0).push(conflict@));
                }
                winner == Some(Side::Remote)
            };
            if take_remote {
                let change = Change {
                    path: path.to_owned(),
                    setting: readable,
                    from: opt_clone(&in_local),
                    to: opt_clone(&in_remote),
                };
                let ghost in0 = incoming@;
                incoming.push(change);
                proof {
                    assert(changes_view(incoming@) =~= changes_view(in0).push(change@));
                }
                match &in_remote {
                    Some(value) => {
                        set_leaf(&mut merged, remote, path, value.as_str());
                    },
                    None => {
                        remove_leaf(&mut merged, path);
                    },
                }
            } else {
                let change = Change {
                    path: path.to_owned(),
                    setting: readable,
                    from: opt_clone(&in_remote),
                    to: opt_clone(&in_local),
                };
                let ghost out0 = outgoing@;
                outgoing.push(change);
                proof {
                    assert(changes_view(outgoing@) =~= changes_view(out0).push(change@));
                }
            }
        }
        i = i + 1;
    }
    proof {
        assert(ps.take(paths@.len() as int) == ps);
    }
    prune_empty(&mut merged);
    let text = serialize(&merged);
    FileMerge { content: Some(utf8_bytes(text.as_str())), incoming, outgoing, conflicts }
}


/// What merging one store file gives. After tombstones are read as absent
/// files: agreement is quiet; two texts that both parse as XML are merged
/// setting by setting (the documents are whatever parsing produced); other
/// texts are merged line by line; and anything else is merged as whole files.
pub open spec fn file_merge_outcome(
    base: Option<Seq<u8>>,
    local: Option<Seq<u8>>,
    remote: Option<Seq<u8>>,
    policy: ConflictPolicy,
    r: FileMergeView,
) -> bool {
    let b = normalized(base);
    let l = normalized(local);
    let rm = normalized(remote);
    if l == rm {
        r == quiet(l)
    } else if text_of(l) is Some && text_of(rm) is Some {
        let lt = text_of(l).unwrap();
        let rt = text_of(rm).unwrap();
        if xml_accepts(lt) && xml_accepts(rt) {
            r == documents_merge_spec(
                if text_of(b) is Some && xml_accepts(text_of(b).unwrap()) {
                    Some(parsed_document(text_of(b).unwrap()))
                } else {
                    None
                },
                parsed_document(lt),
                parsed_document(rt),
                policy,
            )
        } else {
            r == text_merge_spec(text_of(b), lt, rt, policy)
        }
    } else {
        r == opaque_merge_spec(b, l, rm, policy)
    }
}

/// Merges one store file.
pub fn merge_file(base: Option<&[u8]>, local: Option<&[u8]>, remote: Option<&[u8]>, policy: ConflictPolicy) -> (r: FileMerge)
    ensures
        file_merge_outcome(slice_view(base), slice_view(local), slice_view(remote), policy, r@),
{
    let base = normalize(base);
    let local = normalize(local);
    let remote = normalize(remote);

    if same_bytes(local, remote) {
        let r = FileMerge { content: copy_bytes(local), incoming: Vec::new(), outgoing: Vec::new(), conflicts: Vec::new() };
        proof {
            assert(changes_view(r.incoming@) =~= Seq::<ChangeView>::empty());
            assert(changes_view(r.outgoing@) =~= Seq::<ChangeView>::empty());
            assert(conflicts_view(r.conflicts@) =~= Seq::<ConflictView>::empty());
        }
        return r;
    }

    // When both sides have the file, always reconcile it entry by entry, so the
    // report can say which settings are arriving.
    let local_text = as_text(local);
    let remote_text = as_text(remote);
    if let (Some(local_text), Some(remote_text)) = (local_text, remote_text) {
        let base_text = as_text(base);
        let parsed_local = parse(local_text.as_str());
        let parsed_remote = parse(remote_text.as_str());
        if let (Ok(local_doc), Ok(remote_doc)) = (parsed_local, parsed_remote) {
            let base_doc = match &base_text {
                Some(text) => match parse(text.as_str()) {
                    Ok(doc) => Some(doc),
                    Err(_) => None,
                },
                None => None,
            };
            let r = match &base_doc {
                Some(doc) => merge_documents(Some(doc), &local_doc, &remote_doc, policy),
                None => merge_documents(None, &local_doc, &remote_doc, policy),
            };
            proof {
                let bd = match base_doc {
                    Some(doc) => Some(doc@),
                    None => None,
                };
                assert(r@ == documents_merge_spec(bd, local_doc@, remote_doc@, policy));
            }
            return r;
        }
        let r = match &base_text {
            Some(text) => merge_text(Some(text.as_str()), local_text.as_str(), remote_text.as_str(), policy),
            None => merge_text(None, local_text.as_str(), remote_text.as_str(), policy),
        };
        return r;
    }

    // One side does not have the file at all, so this is an add or a delete.
    if same_bytes(local, base) {
        return whole_file(local, remote, Side::Remote);
    }
    if same_bytes(remote, base) {
        return whole_file(remote, local, Side::Local);
    }
    binary_conflict(local, remote, policy)
}


/// Whole-file merging takes the side that moved: with both sides equal
/// nothing happens; when only one side moved its version is the result and
/// nothing conflicts; when both moved differently exactly one conflict is
/// reported and the policy's side wins (this machine's when no side is
/// preferred).
pub proof fn law_opaque_takes_the_side_that_moved(
    base: Option<Seq<u8>>,
    local: Option<Seq<u8>>,
    remote: Option<Seq<u8>>,
    policy: ConflictPolicy,
)
    ensures
        local == remote ==> opaque_merge_spec(base, local, remote, policy) == quiet(local),
        local != remote && local == base ==> {
            let m = opaque_merge_spec(base, local, remote, policy);
            m.content == remote && m.conflicts.len() == 0 && m.outgoing.len() == 0 && m.incoming.len() == 1
        },
        local != remote && remote == base ==> {
            let m = opaque_merge_spec(base, local, remote, policy);
            m.content == local && m.conflicts.len() == 0 && m.incoming.len() == 0 && m.outgoing.len() == 1
        },
        local != remote && local != base && remote != base ==> {
            let m = opaque_merge_spec(base, local, remote, policy);
            &&& m.conflicts.len() == 1
            &&& m.content == if winner_of(policy) == Some(Side::Remote) {
                remote
            } else {
                local
            }
        },
{
}

/// Folding settings on which both sides agree changes nothing.
proof fn lemma_fold_agreeing(
    start: DocMergeState,
    paths: Seq<Seq<char>>,
    base: Map<Seq<char>, Seq<char>>,
    local: Map<Seq<char>, Seq<char>>,
    remote: Map<Seq<char>, Seq<char>>,
    donor: ElementView,
    policy: ConflictPolicy,
)
    requires
        forall|i: int| 0 <= i < paths.len() ==> lookup(local, #[trigger] paths[i]) == lookup(remote, paths[i]),
    ensures
        document_fold(start, paths, base, local, remote, donor, policy) == start,
    decreases paths.len(),
{
    if paths.len() > 0 {
        lemma_fold_agreeing(start, paths.drop_last(), base, local, remote, donor, policy);
        assert(lookup(local, paths[paths.len() - 1]) == lookup(remote, paths[paths.len() - 1]));
    }
}

/// Folding settings none of which moved on both sides adds no conflict;
/// settings this side left alone add nothing outgoing; settings the other
/// side left alone add nothing incoming.
proof fn lemma_fold_one_sided(
    start: DocMergeState,
    paths: Seq<Seq<char>>,
    base: Map<Seq<char>, Seq<char>>,
    local: Map<Seq<char>, Seq<char>>,
    remote: Map<Seq<char>, Seq<char>>,
    donor: ElementView,
    policy: ConflictPolicy,
)
    ensures
        (forall|i: int| 0 <= i < paths.len() ==> lookup(local, #[trigger] paths[i]) == lookup(base, paths[i]) || lookup(
            remote,
            paths[i],
        ) == lookup(base, paths[i])) ==> document_fold(start, paths, base, local, remote, donor, policy).conflicts
            == start.conflicts,
        (forall|i: int| 0 <= i < paths.len() ==> lookup(local, #[trigger] paths[i]) == lookup(base, paths[i]))
            ==> document_fold(start, paths, base, local, remote, donor, policy).outgoing == start.outgoing,
        (forall|i: int| 0 <= i < paths.len() ==> lookup(remote, #[trigger] paths[i]) == lookup(base, paths[i]))
            ==> document_fold(start, paths, base, local, remote, donor, policy).incoming == start.incoming,
    decreases paths.len(),
{
    if paths.len() > 0 {
        let init = paths.drop_last();
        lemma_fold_one_sided(start, init, base, local, remote, donor, policy);
        let p = paths[paths.len() - 1];
        assert forall|i: int| 0 <= i < init.len() implies #[trigger] init[i] == paths[i] by {}
    }
}

/// The root view of an optional base document's projection.
pub open spec fn base_projection(base: Option<ElementView>) -> Map<Seq<char>, Seq<char>> {
    match base {
        Some(b) => projection_of(b),
        None => Map::empty(),
    }
}

/// Settings merge one at a time: where both documents hold the same
/// settings, merging reports nothing at all.
pub proof fn law_agreeing_documents_merge_quietly(
    base: Option<ElementView>,
    local: ElementView,
    remote: ElementView,
    policy: ConflictPolicy,
)
    requires
        projection_of(local) == projection_of(remote),
    ensures
        noop(documents_merge_spec(base, local, remote, policy)),
{
    let lv = projection_of(local);
    let rv = projection_of(remote);
    let paths = sorted_key_list(lv.dom().union(rv.dom()));
    let start = DocMergeState { tree: local, incoming: Seq::empty(), outgoing: Seq::empty(), conflicts: Seq::empty() };
    lemma_fold_agreeing(start, paths, base_projection(base), lv, rv, remote, policy);
}

/// A setting is a conflict only when both sides moved it: when no setting
/// moved on both sides there is no conflict; when this side moved nothing,
/// nothing goes out; when the other side moved nothing, nothing comes in.
pub proof fn law_one_sided_changes_never_conflict(
    base: Option<ElementView>,
    local: ElementView,
    remote: ElementView,
    policy: ConflictPolicy,
)
    ensures
        (forall|p: Seq<char>| lookup(projection_of(local), p) == lookup(base_projection(base), p) || #[trigger] lookup(
            projection_of(remote),
            p,
        ) == lookup(base_projection(base), p)) ==> documents_merge_spec(base, local, remote, policy).conflicts.len() == 0,
        projection_of(local) == base_projection(base) ==> documents_merge_spec(base, local, remote, policy).conflicts.len() == 0
            && documents_merge_spec(base, local, remote, policy).outgoing.len() == 0,
        projection_of(remote) == base_projection(base) ==> documents_merge_spec(base, local, remote, policy).conflicts.len() == 0
            && documents_merge_spec(base, local, remote, policy).incoming.len() == 0,
{
    let bv = base_projection(base);
    let lv = projection_of(local);
    let rv = projection_of(remote);
    let paths = sorted_key_list(lv.dom().union(rv.dom()));
    let start = DocMergeState { tree: local, incoming: Seq::empty(), outgoing: Seq::empty(), conflicts: Seq::empty() };
    lemma_fold_one_sided(start, paths, bv, lv, rv, remote, policy);
    if lv == bv {
        assert forall|i: int| 0 <= i < paths.len() implies lookup(lv, #[trigger] paths[i]) == lookup(bv, paths[i]) by {}
    }
    if rv == bv {
        assert forall|i: int| 0 <= i < paths.len() implies lookup(rv, #[trigger] paths[i]) == lookup(bv, paths[i]) by {}
    }
    if forall|p: Seq<char>| lookup(lv, p) == lookup(bv, p) || #[trigger] lookup(rv, p) == lookup(bv, p) {
        assert forall|i: int| 0 <= i < paths.len() implies lookup(lv, #[trigger] paths[i]) == lookup(bv, paths[i]) || lookup(
            rv,
            paths[i],
        ) == lookup(bv, paths[i]) by {
            assert(lookup(rv, paths[i]) == lookup(bv, paths[i]) || lookup(lv, paths[i]) == lookup(bv, paths[i]));
        }
    }
}

/// A found flag is one of the lines and has the flag asked for; no line has
/// a flag that is not found.
proof fn lemma_first_with_key(lines: Seq<Seq<char>>, key: Seq<char>)
    ensures
        first_with_key(lines, key) matches Some(o) ==> lines.contains(o) && flag_key_spec(o) == key,
        first_with_key(lines, key) is None ==> forall|i: int| 0 <= i < lines.len() ==> flag_key_spec(#[trigger] lines[i]) != key,
    decreases lines.len(),
{
    if lines.len() > 0 {
        let rest = lines.drop_first();
        lemma_first_with_key(rest, key);
        if flag_key_spec(lines[0]) == key {
            assert(lines[0] == lines[0]);
        } else {
            if let Some(o) = first_with_key(rest, key) {
                let j = choose|j: int| 0 <= j < rest.len() && rest[j] == o;
                assert(lines[j + 1] == o);
            } else {
                assert forall|i: int| 0 <= i < lines.len() implies flag_key_spec(#[trigger] lines[i]) != key by {
                    if i > 0 {
                        assert(lines[i] == rest[i - 1]);
                    }
                }
            }
        }
    }
}

/// A line is added exactly when it is one of the current lines and not one
/// of the base lines.
proof fn lemma_added_lines(current: Seq<Seq<char>>, base: Seq<Seq<char>>)
    ensures
        forall|x: Seq<char>| #[trigger] added_lines(current, base).contains(x) <==> current.contains(x) && !base.contains(x),
    decreases current.len(),
{
    if current.len() > 0 {
        let init = current.drop_last();
        lemma_added_lines(init, base);
        let last = current.last();
        assert forall|x: Seq<char>| #[trigger] added_lines(current, base).contains(x) <==> current.contains(x) && !base.contains(x) by {
            if current.contains(x) && x != last {
                let j = choose|j: int| 0 <= j < current.len() && current[j] == x;
                assert(init[j] == x);
            }
            if init.contains(x) {
                let j = choose|j: int| 0 <= j < init.len() && init[j] == x;
                assert(current[j] == x);
            }
            if added_lines(current, base).contains(x) && !added_lines(init, base).contains(x) {
                let r = added_lines(init, base);
                let j = choose|j: int| 0 <= j < added_lines(current, base).len() && added_lines(current, base)[j] == x;
                if j < r.len() {
                    assert(r[j] == x);
                }
            }
            if added_lines(init, base).contains(x) {
                let r = added_lines(init, base);
                let j = choose|j: int| 0 <= j < r.len() && r[j] == x;
                if !base.contains(last) {
                    assert(r.push(last)[j] == x);
                }
            }
            if x == last && !base.contains(last) {
                let r = added_lines(init, base);
                assert(r.push(last)[r.len() as int] == x);
            }
        }
    }
}

/// Pushing keeps what a sequence held and adds one line.
proof fn lemma_push_contains(s: Seq<Seq<char>>, line: Seq<char>)
    ensures
        forall|x: Seq<char>| #[trigger] s.push(line).contains(x) <==> s.contains(x) || x == line,
{
    assert forall|x: Seq<char>| #[trigger] s.push(line).contains(x) <==> s.contains(x) || x == line by {
        if s.contains(x) {
            let j = choose|j: int| 0 <= j < s.len() && s[j] == x;
            assert(s.push(line)[j] == x);
        }
        if x == line {
            assert(s.push(line)[s.len() as int] == x);
        }
        if s.push(line).contains(x) && x != line {
            let j = choose|j: int| 0 <= j < s.push(line).len() && s.push(line)[j] == x;
            assert(s[j] == x);
        }
    }
}

/// The base phase keeps exactly the base lines both sides still hold, and
/// reports no conflict.
proof fn lemma_base_phase(lines: Seq<Seq<char>>, local: Seq<Seq<char>>, remote: Seq<Seq<char>>)
    ensures
        forall|x: Seq<char>| #[trigger] base_phase(lines, local, remote).merged.contains(x) <==> lines.contains(x)
            && local.contains(x) && remote.contains(x),
        base_phase(lines, local, remote).conflicts.len() == 0,
    decreases lines.len(),
{
    if lines.len() > 0 {
        let init = lines.drop_last();
        let last = lines.last();
        lemma_base_phase(init, local, remote);
        let s = base_phase(init, local, remote);
        lemma_push_contains(s.merged, last);
        assert forall|x: Seq<char>| #[trigger] base_phase(lines, local, remote).merged.contains(x) <==> lines.contains(x)
            && local.contains(x) && remote.contains(x) by {
            if lines.contains(x) && x != last {
                let j = choose|j: int| 0 <= j < lines.len() && lines[j] == x;
                assert(init[j] == x);
            }
            if init.contains(x) {
                let j = choose|j: int| 0 <= j < init.len() && init[j] == x;
                assert(lines[j] == x);
            }
            assert(lines[lines.len() - 1] == last);
        }
    }
}

/// A conflict between two different additions of the same flag, one from
/// each side, the local one first.
pub open spec fn flag_disagreement(c: ConflictView, local_added: Seq<Seq<char>>, remote_added: Seq<Seq<char>>) -> bool {
    &&& c.local matches Some(x)
    &&& c.remote matches Some(y)
    &&& local_added.contains(x)
    &&& remote_added.contains(y)
    &&& x != y
    &&& flag_key_spec(x) == c.setting
    &&& flag_key_spec(y) == c.setting
}

/// The local phase only adds lines: each added line is a local addition or
/// a remote one; a local addition with no different remote addition of its
/// flag is kept; each new conflict is a disagreement over one flag.
proof fn lemma_local_phase(
    start: TextMergeState,
    lines: Seq<Seq<char>>,
    remote_added: Seq<Seq<char>>,
    policy: ConflictPolicy,
)
    ensures
        ({
            let s = local_phase(start, lines, remote_added, policy);
            &&& forall|x: Seq<char>| start.merged.contains(x) ==> #[trigger] s.merged.contains(x)
            &&& forall|x: Seq<char>| #[trigger] s.merged.contains(x) ==> start.merged.contains(x) || lines.contains(x)
                || remote_added.contains(x)
            &&& forall|x: Seq<char>|
                lines.contains(x) && (forall|y: Seq<char>| remote_added.contains(y) && flag_key_spec(y) == flag_key_spec(x) ==> y == x)
                    ==> #[trigger] s.merged.contains(x)
            &&& s.conflicts.len() >= start.conflicts.len()
            &&& forall|i: int| 0 <= i < start.conflicts.len() ==> #[trigger] s.conflicts[i] == start.conflicts[i]
            &&& forall|i: int| start.conflicts.len() <= i < s.conflicts.len() ==> flag_disagreement(
                #[trigger] s.conflicts[i],
                lines,
                remote_added,
            )
        }),
    decreases lines.len(),
{
    if lines.len() > 0 {
        let init = lines.drop_last();
        let line = lines.last();
        lemma_local_phase(start, init, remote_added, policy);
        let s0 = local_phase(start, init, remote_added, policy);
        let s = local_phase(start, lines, remote_added, policy);
        let key = flag_key_spec(line);
        lemma_first_with_key(remote_added, key);
        let pushed = match first_with_key(remote_added, key) {
            Some(o) => if o == line {
                line
            } else if winner_of(policy) == Some(Side::Remote) {
                o
            } else {
                line
            },
            None => line,
        };
        assert(s.merged == s0.merged.push(pushed));
        lemma_push_contains(s0.merged, pushed);
        assert(lines[lines.len() - 1] == line);
        assert forall|x: Seq<char>| init.contains(x) implies lines.contains(x) by {
            let j = choose|j: int| 0 <= j < init.len() && init[j] == x;
            assert(lines[j] == x);
        }
        assert forall|x: Seq<char>| #[trigger] s.merged.contains(x) implies start.merged.contains(x) || lines.contains(x)
            || remote_added.contains(x) by {
            if s0.merged.contains(x) {
            }
        }
        assert forall|x: Seq<char>|
            lines.contains(x) && (forall|y: Seq<char>| remote_added.contains(y) && flag_key_spec(y) == flag_key_spec(x) ==> y == x)
                implies #[trigger] s.merged.contains(x) by {
            if x != line {
                let j = choose|j: int| 0 <= j < lines.len() && lines[j] == x;
                assert(init[j] == x);
            }
        }
        assert forall|i: int| start.conflicts.len() <= i < s.conflicts.len() implies flag_disagreement(
            #[trigger] s.conflicts[i],
            lines,
            remote_added,
        ) by {
            if i < s0.conflicts.len() {
                assert(s.conflicts[i] == s0.conflicts[i]);
                assert(flag_disagreement(s0.conflicts[i], init, remote_added));
            }
        }
    }
}

/// The remote phase only adds remote additions, keeps every one whose flag
/// no local addition has, and reports no conflict.
proof fn lemma_remote_phase(start: TextMergeState, lines: Seq<Seq<char>>, local_added: Seq<Seq<char>>)
    ensures
        ({
            let s = remote_phase(start, lines, local_added);
            &&& forall|x: Seq<char>| start.merged.contains(x) ==> #[trigger] s.merged.contains(x)
            &&& forall|x: Seq<char>| #[trigger] s.merged.contains(x) ==> start.merged.contains(x) || lines.contains(x)
            &&& forall|x: Seq<char>|
                lines.contains(x) && (forall|y: Seq<char>| local_added.contains(y) ==> flag_key_spec(y) != flag_key_spec(x))
                    ==> #[trigger] s.merged.contains(x)
            &&& s.conflicts == start.conflicts
        }),
    decreases lines.len(),
{
    if lines.len() > 0 {
        let init = lines.drop_last();
        let line = lines.last();
        lemma_remote_phase(start, init, local_added);
        let s0 = remote_phase(start, init, local_added);
        lemma_push_contains(s0.merged, line);
        lemma_first_with_key(local_added, flag_key_spec(line));
        assert(lines[lines.len() - 1] == line);
        assert forall|x: Seq<char>| init.contains(x) implies lines.contains(x) by {
            let j = choose|j: int| 0 <= j < init.len() && init[j] == x;
            assert(lines[j] == x);
        }
        let s = remote_phase(start, lines, local_added);
        assert forall|x: Seq<char>|
            lines.contains(x) && (forall|y: Seq<char>| local_added.contains(y) ==> flag_key_spec(y) != flag_key_spec(x))
                implies #[trigger] s.merged.contains(x) by {
            if x != line {
                let j = choose|j: int| 0 <= j < lines.len() && lines[j] == x;
                assert(init[j] == x);
            } else {
                if let Some(o) = first_with_key(local_added, flag_key_spec(line)) {
                    assert(local_added.contains(o));
                }
            }
        }
    }
}

/// Plain-text settings merge as a set of flags: a flag line one side added
/// is kept unless the other side added a different value of the same flag;
/// a base line both sides still hold is kept; a base line either side
/// removed does not come back; and no line is invented.
pub proof fn law_flag_additions_are_kept(
    base: Option<Seq<char>>,
    local: Seq<char>,
    remote: Seq<char>,
    policy: ConflictPolicy,
)
    ensures
        ({
            let bl = base_lines_of(base);
            let ll = text_lines(local);
            let rl = text_lines(remote);
            let merged = text_merge_state(base, local, remote, policy).merged;
            &&& forall|x: Seq<char>|
                ll.contains(x) && !bl.contains(x) && (forall|y: Seq<char>|
                    rl.contains(y) && !bl.contains(y) && flag_key_spec(y) == flag_key_spec(x) ==> y == x)
                    ==> #[trigger] merged.contains(x)
            &&& forall|x: Seq<char>|
                rl.contains(x) && !bl.contains(x) && (forall|y: Seq<char>|
                    ll.contains(y) && !bl.contains(y) ==> flag_key_spec(y) != flag_key_spec(x))
                    ==> #[trigger] merged.contains(x)
            &&& forall|x: Seq<char>| bl.contains(x) && ll.contains(x) && rl.contains(x) ==> #[trigger] merged.contains(x)
            &&& forall|x: Seq<char>| #[trigger] merged.contains(x) && bl.contains(x) ==> ll.contains(x) && rl.contains(x)
            &&& forall|x: Seq<char>| #[trigger] merged.contains(x) ==> bl.contains(x) || ll.contains(x) || rl.contains(x)
        }),
{
    let bl = base_lines_of(base);
    let ll = text_lines(local);
    let rl = text_lines(remote);
    let la = added_lines(ll, bl);
    let ra = added_lines(rl, bl);
    lemma_added_lines(ll, bl);
    lemma_added_lines(rl, bl);
    lemma_base_phase(bl, ll, rl);
    let s1 = base_phase(bl, ll, rl);
    lemma_local_phase(s1, la, ra, policy);
    let s2 = local_phase(s1, la, ra, policy);
    lemma_remote_phase(s2, ra, la);
    let merged = text_merge_state(base, local, remote, policy).merged;
    assert forall|x: Seq<char>|
        ll.contains(x) && !bl.contains(x) && (forall|y: Seq<char>|
            rl.contains(y) && !bl.contains(y) && flag_key_spec(y) == flag_key_spec(x) ==> y == x)
            implies #[trigger] merged.contains(x) by {
        assert(la.contains(x));
        assert forall|y: Seq<char>| ra.contains(y) && flag_key_spec(y) == flag_key_spec(x) implies y == x by {
            assert(rl.contains(y) && !bl.contains(y));
        }
        assert(s2.merged.contains(x));
    }
    assert forall|x: Seq<char>|
        rl.contains(x) && !bl.contains(x) && (forall|y: Seq<char>|
            ll.contains(y) && !bl.contains(y) ==> flag_key_spec(y) != flag_key_spec(x))
            implies #[trigger] merged.contains(x) by {
        assert(ra.contains(x));
        assert forall|y: Seq<char>| la.contains(y) implies flag_key_spec(y) != flag_key_spec(x) by {
            assert(ll.contains(y) && !bl.contains(y));
        }
    }
    assert forall|x: Seq<char>| bl.contains(x) && ll.contains(x) && rl.contains(x) implies #[trigger] merged.contains(x) by {
        assert(s1.merged.contains(x));
        assert(s2.merged.contains(x));
    }
    assert forall|x: Seq<char>| #[trigger] merged.contains(x) implies bl.contains(x) || ll.contains(x) || rl.contains(x) by {
        if s2.merged.contains(x) {
            if s1.merged.contains(x) {
            } else if la.contains(x) {
            } else {
                assert(ra.contains(x));
            }
        } else {
            assert(ra.contains(x));
        }
    }
    assert forall|x: Seq<char>| #[trigger] merged.contains(x) && bl.contains(x) implies ll.contains(x) && rl.contains(x) by {
        if s2.merged.contains(x) {
            if s1.merged.contains(x) {
            } else if la.contains(x) {
            } else {
                assert(ra.contains(x));
            }
        } else {
            assert(ra.contains(x));
        }
    }
}

/// In a plain-text merge the only conflicts are two different additions of
/// the same flag, one from each side; where no flag was added differently
/// on both sides, nothing conflicts.
pub proof fn law_only_same_flag_disagreements_conflict(
    base: Option<Seq<char>>,
    local: Seq<char>,
    remote: Seq<char>,
    policy: ConflictPolicy,
)
    ensures
        ({
            let bl = base_lines_of(base);
            let la = added_lines(text_lines(local), bl);
            let ra = added_lines(text_lines(remote), bl);
            let conflicts = text_merge_spec(base, local, remote, policy).conflicts;
            &&& forall|i: int| 0 <= i < conflicts.len() ==> flag_disagreement(#[trigger] conflicts[i], la, ra)
            &&& (forall|x: Seq<char>, y: Seq<char>|
                la.contains(x) && ra.contains(y) && flag_key_spec(x) == flag_key_spec(y) ==> x == y)
                ==> conflicts.len() == 0
        }),
{
    let bl = base_lines_of(base);
    let ll = text_lines(local);
    let rl = text_lines(remote);
    let la = added_lines(ll, bl);
    let ra = added_lines(rl, bl);
    lemma_base_phase(bl, ll, rl);
    let s1 = base_phase(bl, ll, rl);
    lemma_local_phase(s1, la, ra, policy);
    let s2 = local_phase(s1, la, ra, policy);
    lemma_remote_phase(s2, ra, la);
    let conflicts = text_merge_spec(base, local, remote, policy).conflicts;
    assert(conflicts == s2.conflicts);
    if conflicts.len() > 0 {
        assert(flag_disagreement(conflicts[0], la, ra));
    }
}

/// Whether a setting with these base, local and remote values comes in:
/// the sides disagree, and either only the other side moved or both did and
/// the policy prefers the other side.
pub open spec fn takes_remote(b: Option<Seq<char>>, l: Option<Seq<char>>, r: Option<Seq<char>>, policy: ConflictPolicy) -> bool {
    l != r && if l == b {
        true
    } else if r == b {
        false
    } else {
        winner_of(policy) == Some(Side::Remote)
    }
}

/// Whether both sides moved a setting, differently.
pub open spec fn both_moved(b: Option<Seq<char>>, l: Option<Seq<char>>, r: Option<Seq<char>>) -> bool {
    l != r && l != b && r != b
}

/// The report of a setting that comes in.
pub open spec fn incoming_entry(p: Seq<char>, lv: Map<Seq<char>, Seq<char>>, rv: Map<Seq<char>, Seq<char>>) -> ChangeView {
    ChangeView { path: p, setting: sugared(p), from: lookup(lv, p), to: lookup(rv, p) }
}

/// The report of a setting that goes out.
pub open spec fn outgoing_entry(p: Seq<char>, lv: Map<Seq<char>, Seq<char>>, rv: Map<Seq<char>, Seq<char>>) -> ChangeView {
    ChangeView { path: p, setting: sugared(p), from: lookup(rv, p), to: lookup(lv, p) }
}

/// The report of a setting both sides moved.
pub open spec fn conflict_entry(
    p: Seq<char>,
    lv: Map<Seq<char>, Seq<char>>,
    rv: Map<Seq<char>, Seq<char>>,
    policy: ConflictPolicy,
) -> ConflictView {
    ConflictView { setting: sugared(p), local: lookup(lv, p), remote: lookup(rv, p), resolved_to: winner_of(policy) }
}

/// What one setting adds to each report.
proof fn lemma_step_reports(
    s: DocMergeState,
    p: Seq<char>,
    bv: Map<Seq<char>, Seq<char>>,
    lv: Map<Seq<char>, Seq<char>>,
    rv: Map<Seq<char>, Seq<char>>,
    donor: ElementView,
    policy: ConflictPolicy,
)
    ensures
        ({
            let t = document_step(s, p, bv, lv, rv, donor, policy);
            let (b, l, r) = (lookup(bv, p), lookup(lv, p), lookup(rv, p));
            &&& t.incoming == if takes_remote(b, l, r, policy) {
                s.incoming.push(incoming_entry(p, lv, rv))
            } else {
                s.incoming
            }
            &&& t.outgoing == if l != r && !takes_remote(b, l, r, policy) {
                s.outgoing.push(outgoing_entry(p, lv, rv))
            } else {
                s.outgoing
            }
            &&& t.conflicts == if both_moved(b, l, r) {
                s.conflicts.push(conflict_entry(p, lv, rv, policy))
            } else {
                s.conflicts
            }
        }),
{
}

/// Whether a setting goes out.
pub open spec fn keeps_local(b: Option<Seq<char>>, l: Option<Seq<char>>, r: Option<Seq<char>>, policy: ConflictPolicy) -> bool {
    l != r && !takes_remote(b, l, r, policy)
}

/// The incoming reports of a fold from nothing are exactly those of the
/// settings that come in.
proof fn lemma_fold_incoming(
    start: DocMergeState,
    paths: Seq<Seq<char>>,
    bv: Map<Seq<char>, Seq<char>>,
    lv: Map<Seq<char>, Seq<char>>,
    rv: Map<Seq<char>, Seq<char>>,
    donor: ElementView,
    policy: ConflictPolicy,
)
    requires
        start.incoming.len() == 0,
    ensures
        ({
            let s = document_fold(start, paths, bv, lv, rv, donor, policy).incoming;
            &&& forall|i: int| #![trigger s[i]] 0 <= i < s.len() ==> exists|k: int|
                0 <= k < paths.len() && takes_remote(lookup(bv, paths[k]), lookup(lv, paths[k]), lookup(rv, paths[k]), policy)
                    && s[i] == incoming_entry(paths[k], lv, rv)
            &&& forall|k: int| #![trigger paths[k]]
                0 <= k < paths.len() && takes_remote(lookup(bv, paths[k]), lookup(lv, paths[k]), lookup(rv, paths[k]), policy)
                    ==> exists|i: int| 0 <= i < s.len() && s[i] == incoming_entry(paths[k], lv, rv)
        }),
    decreases paths.len(),
{
    if paths.len() > 0 {
        let init = paths.drop_last();
        let n = paths.len() - 1;
        let p = paths[n];
        lemma_fold_incoming(start, init, bv, lv, rv, donor, policy);
        let st0 = document_fold(start, init, bv, lv, rv, donor, policy);
        lemma_step_reports(st0, p, bv, lv, rv, donor, policy);
        let s0 = st0.incoming;
        let s = document_fold(start, paths, bv, lv, rv, donor, policy).incoming;
        assert forall|i: int| #![trigger s[i]] 0 <= i < s.len() implies exists|k: int|
            0 <= k < paths.len() && takes_remote(lookup(bv, paths[k]), lookup(lv, paths[k]), lookup(rv, paths[k]), policy)
                && s[i] == incoming_entry(paths[k], lv, rv) by {
            if i < s0.len() {
                assert(s[i] == s0[i]);
                let k = choose|k: int|
                    0 <= k < init.len() && takes_remote(lookup(bv, init[k]), lookup(lv, init[k]), lookup(rv, init[k]), policy)
                        && s0[i] == incoming_entry(init[k], lv, rv);
                assert(init[k] == paths[k]);
            } else {
                assert(paths[n] == p);
            }
        }
        assert forall|k: int| #![trigger paths[k]]
            0 <= k < paths.len() && takes_remote(lookup(bv, paths[k]), lookup(lv, paths[k]), lookup(rv, paths[k]), policy)
                implies exists|i: int| 0 <= i < s.len() && s[i] == incoming_entry(paths[k], lv, rv) by {
            if k < n {
                assert(init[k] == paths[k]);
                let i = choose|i: int| 0 <= i < s0.len() && s0[i] == incoming_entry(init[k], lv, rv);
                assert(s[i] == s0[i]);
            } else {
                assert(s[s0.len() as int] == incoming_entry(p, lv, rv));
            }
        }
    }
}

/// The outgoing reports of a fold from nothing are exactly those of the
/// settings that go out.
proof fn lemma_fold_outgoing(
    start: DocMergeState,
    paths: Seq<Seq<char>>,
    bv: Map<Seq<char>, Seq<char>>,
    lv: Map<Seq<char>, Seq<char>>,
    rv: Map<Seq<char>, Seq<char>>,
    donor: ElementView,
    policy: ConflictPolicy,
)
    requires
        start.outgoing.len() == 0,
    ensures
        ({
            let s = document_fold(start, paths, bv, lv, rv, donor, policy).outgoing;
            &&& forall|i: int| #![trigger s[i]] 0 <= i < s.len() ==> exists|k: int|
                0 <= k < paths.len() && keeps_local(lookup(bv, paths[k]), lookup(lv, paths[k]), lookup(rv, paths[k]), policy)
                    && s[i] == outgoing_entry(paths[k], lv, rv)
            &&& forall|k: int| #![trigger paths[k]]
                0 <= k < paths.len() && keeps_local(lookup(bv, paths[k]), lookup(lv, paths[k]), lookup(rv, paths[k]), policy)
                    ==> exists|i: int| 0 <= i < s.len() && s[i] == outgoing_entry(paths[k], lv, rv)
        }),
    decreases paths.len(),
{
    if paths.len() > 0 {
        let init = paths.drop_last();
        let n = paths.len() - 1;
        let p = paths[n];
        lemma_fold_outgoing(start, init, bv, lv, rv, donor, policy);
        let st0 = document_fold(start, init, bv, lv, rv, donor, policy);
        lemma_step_reports(st0, p, bv, lv, rv, donor, policy);
        let s0 = st0.outgoing;
        let s = document_fold(start, paths, bv, lv, rv, donor, policy).outgoing;
        assert forall|i: int| #![trigger s[i]] 0 <= i < s.len() implies exists|k: int|
            0 <= k < paths.len() && keeps_local(lookup(bv, paths[k]), lookup(lv, paths[k]), lookup(rv, paths[k]), policy)
                && s[i] == outgoing_entry(paths[k], lv, rv) by {
            if i < s0.len() {
                assert(s[i] == s0[i]);
                let k = choose|k: int|
                    0 <= k < init.len() && keeps_local(lookup(bv, init[k]), lookup(lv, init[k]), lookup(rv, init[k]), policy)
                        && s0[i] == outgoing_entry(init[k], lv, rv);
                assert(init[k] == paths[k]);
            } else {
                assert(paths[n] == p);
            }
        }
        assert forall|k: int| #![trigger paths[k]]
            0 <= k < paths.len() && keeps_local(lookup(bv, paths[k]), lookup(lv, paths[k]), lookup(rv, paths[k]), policy)
                implies exists|i: int| 0 <= i < s.len() && s[i] == outgoing_entry(paths[k], lv, rv) by {
            if k < n {
                assert(init[k] == paths[k]);
                let i = choose|i: int| 0 <= i < s0.len() && s0[i] == outgoing_entry(init[k], lv, rv);
                assert(s[i] == s0[i]);
            } else {
                assert(s[s0.len() as int] == outgoing_entry(p, lv, rv));
            }
        }
    }
}

/// The conflicts of a fold from nothing are exactly those of the settings
/// both sides moved.
proof fn lemma_fold_conflicts(
    start: DocMergeState,
    paths: Seq<Seq<char>>,
    bv: Map<Seq<char>, Seq<char>>,
    lv: Map<Seq<char>, Seq<char>>,
    rv: Map<Seq<char>, Seq<char>>,
    donor: ElementView,
    policy: ConflictPolicy,
)
    requires
        start.conflicts.len() == 0,
    ensures
        ({
            let s = document_fold(start, paths, bv, lv, rv, donor, policy).conflicts;
            &&& forall|i: int| #![trigger s[i]] 0 <= i < s.len() ==> exists|k: int|
                0 <= k < paths.len() && both_moved(lookup(bv, paths[k]), lookup(lv, paths[k]), lookup(rv, paths[k]))
                    && s[i] == conflict_entry(paths[k], lv, rv, policy)
            &&& forall|k: int| #![trigger paths[k]]
                0 <= k < paths.len() && both_moved(lookup(bv, paths[k]), lookup(lv, paths[k]), lookup(rv, paths[k]))
                    ==> exists|i: int| 0 <= i < s.len() && s[i] == conflict_entry(paths[k], lv, rv, policy)
        }),
    decreases paths.len(),
{
    if paths.len() > 0 {
        let init = paths.drop_last();
        let n = paths.len() - 1;
        let p = paths[n];
        lemma_fold_conflicts(start, init, bv, lv, rv, donor, policy);
        let st0 = document_fold(start, init, bv, lv, rv, donor, policy);
        lemma_step_reports(st0, p, bv, lv, rv, donor, policy);
        let s0 = st0.conflicts;
        let s = document_fold(start, paths, bv, lv, rv, donor, policy).conflicts;
        assert forall|i: int| #![trigger s[i]] 0 <= i < s.len() implies exists|k: int|
            0 <= k < paths.len() && both_moved(lookup(bv, paths[k]), lookup(lv, paths[k]), lookup(rv, paths[k]))
                && s[i] == conflict_entry(paths[k], lv, rv, policy) by {
            if i < s0.len() {
                assert(s[i] == s0[i]);
                let k = choose|k: int|
                    0 <= k < init.len() && both_moved(lookup(bv, init[k]), lookup(lv, init[k]), lookup(rv, init[k]))
                        && s0[i] == conflict_entry(init[k], lv, rv, policy);
                assert(init[k] == paths[k]);
            } else {
                assert(paths[n] == p);
            }
        }
        assert forall|k: int| #![trigger paths[k]]
            0 <= k < paths.len() && both_moved(lookup(bv, paths[k]), lookup(lv, paths[k]), lookup(rv, paths[k]))
                implies exists|i: int| 0 <= i < s.len() && s[i] == conflict_entry(paths[k], lv, rv, policy) by {
            if k < n {
                assert(init[k] == paths[k]);
                let i = choose|i: int| 0 <= i < s0.len() && s0[i] == conflict_entry(init[k], lv, rv, policy);
                assert(s[i] == s0[i]);
            } else {
                assert(s[s0.len() as int] == conflict_entry(p, lv, rv, policy));
            }
        }
    }
}

/// An association list's keys form a finite set.
proof fn lemma_assoc_finite(base: Map<Seq<char>, Seq<char>>, s: Seq<(Seq<char>, Seq<char>)>)
    requires
        base.dom().finite(),
    ensures
        assoc(base, s).dom().finite(),
    decreases s.len(),
{
    if s.len() > 0 {
        lemma_assoc_finite(base, s.drop_last());
    }
}

/// A document merge reports each setting as the merge table says: a setting
/// comes in (reported `<`, from this side's value to the other's) when the
/// sides disagree and only the other side moved, or both did and the policy
/// prefers the other side; it goes out (`>`) when the sides disagree and it
/// does not come in; it is a conflict when both sides moved it differently.
/// Every setting either document holds is reported this way, and nothing
/// else is reported.
#[verifier::rlimit(60)]
pub proof fn law_settings_are_reported_by_the_merge_table(
    base: Option<ElementView>,
    local: ElementView,
    remote: ElementView,
    policy: ConflictPolicy,
)
    ensures
        ({
            let m = documents_merge_spec(base, local, remote, policy);
            let bv = base_projection(base);
            let lv = projection_of(local);
            let rv = projection_of(remote);
            let held = lv.dom().union(rv.dom());
            &&& forall|p: Seq<char>|
                held.contains(p) && takes_remote(lookup(bv, p), lookup(lv, p), lookup(rv, p), policy) ==> exists|i: int|
                    0 <= i < m.incoming.len() && m.incoming[i] == incoming_entry(p, lv, rv)
            &&& forall|i: int| #![trigger m.incoming[i]] 0 <= i < m.incoming.len() ==> exists|p: Seq<char>|
                held.contains(p) && takes_remote(lookup(bv, p), lookup(lv, p), lookup(rv, p), policy) && m.incoming[i]
                    == incoming_entry(p, lv, rv)
            &&& forall|p: Seq<char>|
                held.contains(p) && keeps_local(lookup(bv, p), lookup(lv, p), lookup(rv, p), policy)
                    ==> exists|i: int| 0 <= i < m.outgoing.len() && m.outgoing[i] == outgoing_entry(p, lv, rv)
            &&& forall|i: int| #![trigger m.outgoing[i]] 0 <= i < m.outgoing.len() ==> exists|p: Seq<char>|
                held.contains(p) && keeps_local(lookup(bv, p), lookup(lv, p), lookup(rv, p), policy)
                    && m.outgoing[i] == outgoing_entry(p, lv, rv)
            &&& forall|p: Seq<char>|
                held.contains(p) && both_moved(lookup(bv, p), lookup(lv, p), lookup(rv, p)) ==> exists|i: int|
                    0 <= i < m.conflicts.len() && m.conflicts[i] == conflict_entry(p, lv, rv, policy)
            &&& forall|i: int| #![trigger m.conflicts[i]] 0 <= i < m.conflicts.len() ==> exists|p: Seq<char>|
                held.contains(p) && both_moved(lookup(bv, p), lookup(lv, p), lookup(rv, p)) && m.conflicts[i]
                    == conflict_entry(p, lv, rv, policy)
        }),
{
    let bv = base_projection(base);
    let lv = projection_of(local);
    let rv = projection_of(remote);
    let held = lv.dom().union(rv.dom());
    lemma_assoc_finite(Map::empty(), leaves(local, Seq::empty()));
    lemma_assoc_finite(Map::empty(), leaves(remote, Seq::empty()));
    lemma_sorted_key_list(held);
    let paths = sorted_key_list(held);
    let start = DocMergeState { tree: local, incoming: Seq::empty(), outgoing: Seq::empty(), conflicts: Seq::empty() };
    lemma_fold_incoming(start, paths, bv, lv, rv, remote, policy);
    lemma_fold_outgoing(start, paths, bv, lv, rv, remote, policy);
    lemma_fold_conflicts(start, paths, bv, lv, rv, remote, policy);
    let end = document_fold(start, paths, bv, lv, rv, remote, policy);
    let m = documents_merge_spec(base, local, remote, policy);
    assert(m.incoming == end.incoming && m.outgoing == end.outgoing && m.conflicts == end.conflicts);
    assert forall|k: int| 0 <= k < paths.len() implies held.contains(#[trigger] paths[k]) by {
        assert(paths.to_set().contains(paths[k]));
    }
    assert forall|p: Seq<char>| held.contains(p) implies exists|k: int| 0 <= k < paths.len() && #[trigger] paths[k] == p by {
        assert(paths.to_set().contains(p));
    }
    assert forall|p: Seq<char>|
        held.contains(p) && takes_remote(lookup(bv, p), lookup(lv, p), lookup(rv, p), policy) implies exists|i: int|
            0 <= i < m.incoming.len() && m.incoming[i] == incoming_entry(p, lv, rv) by {
        let k = choose|k: int| 0 <= k < paths.len() && #[trigger] paths[k] == p;
        assert(paths[k] == p);
    }
    assert forall|i: int| #![trigger m.incoming[i]] 0 <= i < m.incoming.len() implies exists|p: Seq<char>|
        held.contains(p) && takes_remote(lookup(bv, p), lookup(lv, p), lookup(rv, p), policy) && m.incoming[i]
            == incoming_entry(p, lv, rv) by {
        assert(end.incoming[i] == m.incoming[i]);
        let k = choose|k: int|
            0 <= k < paths.len() && takes_remote(lookup(bv, paths[k]), lookup(lv, paths[k]), lookup(rv, paths[k]), policy)
                && end.incoming[i] == incoming_entry(paths[k], lv, rv);
        assert(held.contains(paths[k]));
    }
    assert forall|p: Seq<char>|
        held.contains(p) && keeps_local(lookup(bv, p), lookup(lv, p), lookup(rv, p), policy) implies exists|i: int|
            0 <= i < m.outgoing.len() && m.outgoing[i] == outgoing_entry(p, lv, rv) by {
        let k = choose|k: int| 0 <= k < paths.len() && #[trigger] paths[k] == p;
        assert(paths[k] == p);
    }
    assert forall|i: int| #![trigger m.outgoing[i]] 0 <= i < m.outgoing.len() implies exists|p: Seq<char>|
        held.contains(p) && keeps_local(lookup(bv, p), lookup(lv, p), lookup(rv, p), policy) && m.outgoing[i]
            == outgoing_entry(p, lv, rv) by {
        assert(end.outgoing[i] == m.outgoing[i]);
        let k = choose|k: int|
            0 <= k < paths.len() && keeps_local(lookup(bv, paths[k]), lookup(lv, paths[k]), lookup(rv, paths[k]), policy)
                && end.outgoing[i] == outgoing_entry(paths[k], lv, rv);
        assert(held.contains(paths[k]));
    }
    assert forall|p: Seq<char>|
        held.contains(p) && both_moved(lookup(bv, p), lookup(lv, p), lookup(rv, p)) implies exists|i: int|
            0 <= i < m.conflicts.len() && m.conflicts[i] == conflict_entry(p, lv, rv, policy) by {
        let k = choose|k: int| 0 <= k < paths.len() && #[trigger] paths[k] == p;
        assert(paths[k] == p);
    }
    assert forall|i: int| #![trigger m.conflicts[i]] 0 <= i < m.conflicts.len() implies exists|p: Seq<char>|
        held.contains(p) && both_moved(lookup(bv, p), lookup(lv, p), lookup(rv, p)) && m.conflicts[i]
            == conflict_entry(p, lv, rv, policy) by {
        assert(end.conflicts[i] == m.conflicts[i]);
        let k = choose|k: int|
            0 <= k < paths.len() && both_moved(lookup(bv, paths[k]), lookup(lv, paths[k]), lookup(rv, paths[k]))
                && end.conflicts[i] == conflict_entry(paths[k], lv, rv, policy);
        assert(held.contains(paths[k]));
    }
}
/// How many of `paths` satisfy `pred`.
pub open spec fn count_where(paths: Seq<Seq<char>>, pred: spec_fn(Seq<char>) -> bool) -> nat
    decreases paths.len(),
{
    if paths.len() == 0 {
        0
    } else {
        count_where(paths.drop_last(), pred) + if pred(paths.last()) {
            1nat
        } else {
            0nat
        }
    }
}

/// Each setting adds at most one entry to each report, and exactly one to
/// the incoming or the outgoing one when the sides disagree on it.
proof fn lemma_fold_counts(
    start: DocMergeState,
    paths: Seq<Seq<char>>,
    bv: Map<Seq<char>, Seq<char>>,
    lv: Map<Seq<char>, Seq<char>>,
    rv: Map<Seq<char>, Seq<char>>,
    donor: ElementView,
    policy: ConflictPolicy,
)
    ensures
        ({
            let s = document_fold(start, paths, bv, lv, rv, donor, policy);
            &&& s.incoming.len() + s.outgoing.len() == start.incoming.len() + start.outgoing.len() + count_where(
                paths,
                |p: Seq<char>| lookup(lv, p) != lookup(rv, p),
            )
            &&& s.conflicts.len() == start.conflicts.len() + count_where(
                paths,
                |p: Seq<char>| both_moved(lookup(bv, p), lookup(lv, p), lookup(rv, p)),
            )
        }),
    decreases paths.len(),
{
    if paths.len() > 0 {
        let init = paths.drop_last();
        lemma_fold_counts(start, init, bv, lv, rv, donor, policy);
        let st0 = document_fold(start, init, bv, lv, rv, donor, policy);
        lemma_step_reports(st0, paths.last(), bv, lv, rv, donor, policy);
    }
}

/// Among strictly ascending paths, counting those that satisfy `pred` counts
/// the set of them.
proof fn lemma_count_as_set(paths: Seq<Seq<char>>, pred: spec_fn(Seq<char>) -> bool)
    requires
        sorted_strict(paths),
    ensures
        paths.to_set().filter(pred).finite(),
        count_where(paths, pred) == paths.to_set().filter(pred).len(),
    decreases paths.len(),
{
    broadcast use vstd::set::group_set_axioms, vstd::seq_lib::seq_to_set_is_finite;

    if paths.len() == 0 {
        assert(paths.to_set().filter(pred) =~= Set::empty());
    } else {
        let init = paths.drop_last();
        let last = paths.last();
        assert(sorted_strict(init)) by {
            assert forall|i: int, j: int| 0 <= i < j < init.len() implies crate::text::seq_lt(#[trigger] init[i], #[trigger] init[j]) by {
                assert(init[i] == paths[i] && init[j] == paths[j]);
            }
        }
        lemma_count_as_set(init, pred);
        assert(paths.to_set() =~= init.to_set().insert(last)) by {
            assert forall|x: Seq<char>| paths.to_set().contains(x) <==> init.to_set().contains(x) || x == last by {
                if paths.contains(x) && x != last {
                    let j = choose|j: int| 0 <= j < paths.len() && paths[j] == x;
                    assert(init[j] == x);
                }
                if init.contains(x) {
                    let j = choose|j: int| 0 <= j < init.len() && init[j] == x;
                    assert(paths[j] == x);
                }
                assert(paths[paths.len() - 1] == last);
            }
        }
        assert(!init.to_set().contains(last)) by {
            if init.contains(last) {
                let j = choose|j: int| 0 <= j < init.len() && init[j] == last;
                assert(crate::text::seq_lt(paths[j], paths[paths.len() - 1]));
                crate::text::lemma_seq_lt_irreflexive(last);
            }
        }
        if pred(last) {
            assert(paths.to_set().filter(pred) =~= init.to_set().filter(pred).insert(last));
        } else {
            assert(paths.to_set().filter(pred) =~= init.to_set().filter(pred));
        }
    }
}

/// A document merge reports each setting once: as many settings come in or
/// go out as there are settings the two documents hold differently, and as
/// many conflicts are reported as there are settings both sides moved.
pub proof fn law_each_setting_is_reported_once(
    base: Option<ElementView>,
    local: ElementView,
    remote: ElementView,
    policy: ConflictPolicy,
)
    ensures
        ({
            let m = documents_merge_spec(base, local, remote, policy);
            let bv = base_projection(base);
            let lv = projection_of(local);
            let rv = projection_of(remote);
            let held = lv.dom().union(rv.dom());
            &&& m.incoming.len() + m.outgoing.len() == held.filter(|p: Seq<char>| lookup(lv, p) != lookup(rv, p)).len()
            &&& m.conflicts.len() == held.filter(|p: Seq<char>| both_moved(lookup(bv, p), lookup(lv, p), lookup(rv, p))).len()
        }),
{
    let bv = base_projection(base);
    let lv = projection_of(local);
    let rv = projection_of(remote);
    let held = lv.dom().union(rv.dom());
    lemma_assoc_finite(Map::empty(), leaves(local, Seq::empty()));
    lemma_assoc_finite(Map::empty(), leaves(remote, Seq::empty()));
    lemma_sorted_key_list(held);
    let paths = sorted_key_list(held);
    let start = DocMergeState { tree: local, incoming: Seq::empty(), outgoing: Seq::empty(), conflicts: Seq::empty() };
    lemma_fold_counts(start, paths, bv, lv, rv, remote, policy);
    let differs = |p: Seq<char>| lookup(lv, p) != lookup(rv, p);
    let moved = |p: Seq<char>| both_moved(lookup(bv, p), lookup(lv, p), lookup(rv, p));
    lemma_count_as_set(paths, differs);
    lemma_count_as_set(paths, moved);
    let m = documents_merge_spec(base, local, remote, policy);
    let end = document_fold(start, paths, bv, lv, rv, remote, policy);
    assert(m.incoming == end.incoming && m.outgoing == end.outgoing && m.conflicts == end.conflicts);
}

/// Splitting text that holds no separator gives the text itself.
proof fn lemma_split_plain(t: Seq<char>, sep: char)
    requires
        !t.contains(sep),
    ensures
        split_on(t, sep) == seq![t],
    decreases t.len(),
{
    if t.len() > 0 {
        let init = t.drop_last();
        assert(!init.contains(sep)) by {
            if init.contains(sep) {
                let j = choose|j: int| 0 <= j < init.len() && init[j] == sep;
                assert(t[j] == sep);
            }
        }
        lemma_split_plain(init, sep);
        assert(t[t.len() - 1] != sep);
        assert(t.last() != sep);
        assert(split_on(t, sep) == split_on(init, sep).update(split_on(init, sep).len() - 1, split_on(init, sep).last().push(t.last())));
        assert(init.push(t.last()) =~= t);
        assert(seq![init].last() == init);
        assert(seq![init].update(0, init.push(t.last())) =~= seq![t]);
    } else {
        assert(t =~= Seq::<char>::empty());
    }
}

/// Splitting `a`, a separator and separator-free `b` splits `a` and then
/// gives `b`.
proof fn lemma_split_after_sep(a: Seq<char>, b: Seq<char>, sep: char)
    requires
        !b.contains(sep),
    ensures
        split_on(a + seq![sep] + b, sep) == split_on(a, sep).push(b),
    decreases b.len(),
{
    if b.len() == 0 {
        assert(b =~= Seq::<char>::empty());
        assert(a + seq![sep] + b =~= a.push(sep));
        assert((a + seq![sep] + b).drop_last() =~= a);
        assert((a + seq![sep] + b).last() == sep);
    } else {
        let init = b.drop_last();
        assert(!init.contains(sep)) by {
            if init.contains(sep) {
                let j = choose|j: int| 0 <= j < init.len() && init[j] == sep;
                assert(b[j] == sep);
            }
        }
        lemma_split_after_sep(a, init, sep);
        let whole = a + seq![sep] + b;
        assert(whole.drop_last() =~= a + seq![sep] + init);
        assert(b[b.len() - 1] != sep);
        assert(whole.last() == b.last());
        assert(split_on(whole, sep) == split_on(whole.drop_last(), sep).update(
            split_on(whole.drop_last(), sep).len() - 1,
            split_on(whole.drop_last(), sep).last().push(whole.last()),
        ));
        let r = split_on(a, sep).push(init);
        assert(r.last() == init);
        assert(init.push(b.last()) =~= b);
        assert(r.update(r.len() - 1, r.last().push(b.last())) =~= split_on(a, sep).push(b));
    }
}

/// Joining lines that hold no newline with newlines, then splitting on them,
/// gives the lines back.
proof fn lemma_split_join(lines: Seq<Seq<char>>)
    requires
        lines.len() > 0,
        forall|i: int| 0 <= i < lines.len() ==> !(#[trigger] lines[i]).contains('\n'),
    ensures
        split_on(join_with(lines, "\n"@), '\n') == lines,
    decreases lines.len(),
{
    if lines.len() == 1 {
        lemma_split_plain(lines[0], '\n');
        assert(seq![lines[0]] =~= lines);
    } else {
        let init = lines.drop_last();
        assert forall|i: int| 0 <= i < init.len() implies !(#[trigger] init[i]).contains('\n') by {
            assert(init[i] == lines[i]);
        }
        lemma_split_join(init);
        reveal_strlit("\n");
        assert(join_with(init, "\n"@) + "\n"@ + lines.last() =~= join_with(init, "\n"@) + seq!['\n'] + lines.last());
        assert(!lines[lines.len() - 1].contains('\n'));
        lemma_split_after_sep(join_with(init, "\n"@), lines.last(), '\n');
        assert(init.push(lines.last()) =~= lines);
    }
}

/// Lines that are kept as they are keep all of themselves.
proof fn lemma_kept_as_is(lines: Seq<Seq<char>>)
    requires
        forall|i: int| 0 <= i < lines.len() ==> (#[trigger] lines[i]).len() > 0 && trim_end(lines[i]) == lines[i],
    ensures
        kept_lines(lines) == lines,
    decreases lines.len(),
{
    if lines.len() > 0 {
        let init = lines.drop_last();
        assert forall|i: int| 0 <= i < init.len() implies (#[trigger] init[i]).len() > 0 && trim_end(init[i]) == init[i] by {
            assert(init[i] == lines[i]);
        }
        lemma_kept_as_is(init);
        assert(lines[lines.len() - 1].len() > 0);
        assert(init.push(lines.last()) =~= lines);
    }
}

/// Trimming the end of text keeps a prefix of it.
proof fn lemma_trim_end_prefix(t: Seq<char>)
    ensures
        trim_end(t) == t.take(trim_end(t).len() as int),
        trim_end(t).len() <= t.len(),
        trim_end(trim_end(t)) == trim_end(t),
    decreases t.len(),
{
    if t.len() > 0 && crate::text::is_ws(t.last()) {
        lemma_trim_end_prefix(t.drop_last());
        assert(t.drop_last().take(trim_end(t).len() as int) =~= t.take(trim_end(t).len() as int));
    } else {
        assert(t.take(t.len() as int) =~= t);
    }
}

/// Every line a text is read as is non-empty, has no trailing whitespace
/// and holds no newline, given parts without newlines.
proof fn lemma_kept_lines_clean(parts: Seq<Seq<char>>)
    requires
        forall|i: int| 0 <= i < parts.len() ==> !(#[trigger] parts[i]).contains('\n'),
    ensures
        forall|x: Seq<char>| #[trigger] kept_lines(parts).contains(x) ==> x.len() > 0 && trim_end(x) == x && !x.contains('\n'),
    decreases parts.len(),
{
    if parts.len() > 0 {
        let init = parts.drop_last();
        assert forall|i: int| 0 <= i < init.len() implies !(#[trigger] init[i]).contains('\n') by {
            assert(init[i] == parts[i]);
        }
        lemma_kept_lines_clean(init);
        let line = trim_end(parts.last());
        lemma_trim_end_prefix(parts.last());
        assert(!parts[parts.len() - 1].contains('\n'));
        assert(!line.contains('\n')) by {
            if line.contains('\n') {
                let j = choose|j: int| 0 <= j < line.len() && line[j] == '\n';
                assert(parts.last()[j] == '\n');
            }
        }
        assert forall|x: Seq<char>| #[trigger] kept_lines(parts).contains(x) implies x.len() > 0 && trim_end(x) == x
            && !x.contains('\n') by {
            let r = kept_lines(init);
            if line.len() > 0 {
                if x != line {
                    let j = choose|j: int| 0 <= j < r.push(line).len() && r.push(line)[j] == x;
                    assert(r[j] == x);
                    assert(r.contains(x));
                }
            } else {
                assert(r.contains(x));
            }
        }
    }
}

/// The parts of a split hold no separator.
proof fn lemma_split_parts_plain(t: Seq<char>, sep: char)
    ensures
        forall|i: int| 0 <= i < split_on(t, sep).len() ==> !(#[trigger] split_on(t, sep)[i]).contains(sep),
    decreases t.len(),
{
    if t.len() > 0 {
        let init = t.drop_last();
        lemma_split_parts_plain(init, sep);
        crate::text::lemma_split_on_nonempty(init, sep);
        let r = split_on(init, sep);
        assert forall|i: int| 0 <= i < split_on(t, sep).len() implies !(#[trigger] split_on(t, sep)[i]).contains(sep) by {
            if t.last() != sep && i == r.len() - 1 {
                let p = r.last().push(t.last());
                if p.contains(sep) {
                    let j = choose|j: int| 0 <= j < p.len() && p[j] == sep;
                    if j < r.last().len() {
                        assert(r[r.len() - 1][j] == sep);
                    }
                }
            } else if i < r.len() {
                assert(split_on(t, sep)[i] == r[i]);
            } else {
                assert(split_on(t, sep)[i] =~= Seq::<char>::empty());
            }
        }
    }
}

/// Every line a text merge works with is clean: non-empty, without trailing
/// whitespace and without a newline.
proof fn lemma_text_lines_clean(t: Seq<char>)
    ensures
        forall|x: Seq<char>| #[trigger] text_lines(t).contains(x) ==> x.len() > 0 && trim_end(x) == x && !x.contains('\n'),
{
    lemma_split_parts_plain(t, '\n');
    lemma_kept_lines_clean(split_on(t, '\n'));
}

/// The text a plain-text merge writes reads back as the merged lines: it is
/// those lines, each ended by a newline (so empty or ending in one), and
/// reading its lines again gives exactly the merged list.
pub proof fn law_merged_text_reads_back(
    base: Option<Seq<char>>,
    local: Seq<char>,
    remote: Seq<char>,
    policy: ConflictPolicy,
)
    ensures
        ({
            let merged = text_merge_state(base, local, remote, policy).merged;
            let text = lines_text(merged);
            &&& text_merge_spec(base, local, remote, policy).content == Some(vstd::utf8::encode_utf8(text))
            &&& vstd::utf8::decode_utf8(vstd::utf8::encode_utf8(text)) == text
            &&& text_lines(text) == merged
            &&& (text.len() == 0 || text.last() == '\n')
        }),
{
    let bl = base_lines_of(base);
    let ll = text_lines(local);
    let rl = text_lines(remote);
    let merged = text_merge_state(base, local, remote, policy).merged;
    let text = lines_text(merged);
    vstd::utf8::encode_utf8_decode_utf8(text);
    law_flag_additions_are_kept(base, local, remote, policy);
    lemma_text_lines_clean(local);
    lemma_text_lines_clean(remote);
    match base {
        Some(b) => lemma_text_lines_clean(b),
        None => {},
    }
    assert forall|i: int| 0 <= i < merged.len() implies (#[trigger] merged[i]).len() > 0 && trim_end(merged[i]) == merged[i]
        && !merged[i].contains('\n') by {
        assert(merged.contains(merged[i]));
        assert(bl.contains(merged[i]) || ll.contains(merged[i]) || rl.contains(merged[i]));
    }
    reveal_strlit("\n");
    if merged.len() == 0 {
        assert(join_with(merged, "\n"@) =~= Seq::<char>::empty());
        assert(text =~= Seq::<char>::empty());
        let one = seq![Seq::<char>::empty()];
        assert(one.drop_last() =~= Seq::<Seq<char>>::empty());
        assert(one.last() == Seq::<char>::empty());
        assert(trim_end(Seq::<char>::empty()).len() == 0);
        assert(kept_lines(one.drop_last()) == Seq::<Seq<char>>::empty());
        assert(kept_lines(one) == kept_lines(one.drop_last()));
        assert(split_on(text, '\n') == one);
    } else {
        let joined = join_with(merged, "\n"@);
        lemma_split_join(merged);
        if joined.len() == 0 {
            assert(merged[0].len() > 0);
            assert(false) by {
                lemma_join_nonempty(merged);
            }
        }
        assert(text =~= joined.push('\n'));
        assert(text.drop_last() =~= joined);
        assert(split_on(text, '\n') == merged.push(Seq::<char>::empty()));
        lemma_kept_as_is(merged);
        assert(kept_lines(merged.push(Seq::<char>::empty())).len() >= 0);
        assert(merged.push(Seq::<char>::empty()).drop_last() =~= merged);
        assert(trim_end(Seq::<char>::empty()) =~= Seq::<char>::empty());
    }
}

/// Joining lines whose first is not empty gives text that is not empty.
proof fn lemma_join_nonempty(lines: Seq<Seq<char>>)
    requires
        lines.len() > 0,
        lines[0].len() > 0,
    ensures
        join_with(lines, "\n"@).len() > 0,
    decreases lines.len(),
{
    if lines.len() > 1 {
        lemma_join_nonempty(lines.drop_last());
    }
}

} // verus!
