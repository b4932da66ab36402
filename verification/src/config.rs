//! Two-tier configuration: a local, unsynced `config.toml` that only knows how
//! to reach the sync-data store and where JetBrains lives on this machine, and
//! a `sync.toml` that lives *inside* the sync-data store and therefore
//! replicates to every machine automatically.
//!
//! Reading and writing the files is the program's business; this module holds
//! the values, their defaults, and the decisions made about them.

use vstd::prelude::*;

use crate::strmap::StrMap;
use crate::text::{chars_of, string_of, views};

verus! {

// ---------------------------------------------------------------------------
// Local, machine-specific config: ~/.jbsync/config.toml
// ---------------------------------------------------------------------------

#[derive(Debug)]
pub struct LocalConfig {
    pub repo: RepoConfig,
    pub jetbrains: LocalJetbrainsConfig,
    pub machine: MachineIdentity,
}

impl Default for LocalConfig {
    fn default() -> (c: Self)
        ensures
            c.repo.backend@ == "git"@,
            c.repo.remote.is_none(),
            c.repo.path.is_none(),
            c.repo.branch@ == "main"@,
            c.jetbrains.root.is_none(),
            c.jetbrains.install_roots@.len() == 0,
            c.machine.id.is_none(),
    {
        LocalConfig {
            repo: RepoConfig::default(),
            jetbrains: LocalJetbrainsConfig::default(),
            machine: MachineIdentity::default(),
        }
    }
}

#[derive(Debug)]
pub struct RepoConfig {
    /// Only "git" is implemented today; other values are reserved for future
    /// backends.
    pub backend: String,
    /// A remote the local repository pushes to and pulls from. Left unset, the
    /// sync-data store stays purely local.
    pub remote: Option<String>,
    /// Overrides where the local working copy of the sync-data store lives.
    pub path: Option<String>,
    /// Branch the git backend publishes to.
    pub branch: String,
}

impl Default for RepoConfig {
    fn default() -> (c: Self)
        ensures
            c.backend@ == "git"@,
            c.remote.is_none(),
            c.path.is_none(),
            c.branch@ == "main"@,
    {
        RepoConfig { backend: "git".to_owned(), remote: None, path: None, branch: "main".to_owned() }
    }
}

#[derive(Debug)]
pub struct LocalJetbrainsConfig {
    /// "auto" (or unset) detects the OS-conventional JetBrains config root.
    pub root: Option<String>,
    pub install_roots: Vec<String>,
}

impl Default for LocalJetbrainsConfig {
    fn default() -> (c: Self)
        ensures
            c.root.is_none(),
            c.install_roots@.len() == 0,
    {
        LocalJetbrainsConfig { root: None, install_roots: Vec::new() }
    }
}

#[derive(Debug)]
pub struct MachineIdentity {
    pub id: Option<String>,
}

impl Default for MachineIdentity {
    fn default() -> (c: Self)
        ensures
            c.id.is_none(),
    {
        MachineIdentity { id: None }
    }
}

// ---------------------------------------------------------------------------
// Synced policy config: `sync.toml` at the root of the sync-data store
// ---------------------------------------------------------------------------

#[derive(Debug)]
pub struct SyncConfig {
    pub version: u32,
    pub jetbrains: JetbrainsConfig,
    pub plugins: PluginsConfig,
    pub xml: XmlConfig,
}

impl Default for SyncConfig {
    fn default() -> (c: Self)
        ensures
            c.version == 1,
            views(c.jetbrains.ides@) == seq!["*20??.*"@],
            c.jetbrains.backups,
            c.jetbrains.use_default_excludes,
            c.jetbrains.explicit_include@.len() == 0,
            c.jetbrains.exclude@.len() == 0,
            c.jetbrains.included.is_none(),
            c.jetbrains.vmoptions_names@ == Map::<Seq<char>, Seq<char>>::empty(),
            c.plugins.enabled,
            c.plugins.launchers@ == Map::<Seq<char>, Seq<char>>::empty(),
            c.plugins.rule@.len() == 0,
            c.plugins.capability@.len() == 0,
            c.xml.use_defaults,
            c.xml.omit@.len() == 0,
    {
        SyncConfig {
            version: 1,
            jetbrains: JetbrainsConfig::default(),
            plugins: PluginsConfig::default(),
            xml: XmlConfig::default(),
        }
    }
}

#[derive(Debug)]
pub struct JetbrainsConfig {
    pub ides: Vec<String>,
    pub backups: bool,
    pub use_default_excludes: bool,
    pub explicit_include: Vec<String>,
    pub exclude: Vec<String>,
    /// `None` keeps the engine default.
    pub included: Option<Vec<String>>,
    pub vmoptions_names: StrMap,
}

impl Default for JetbrainsConfig {
    fn default() -> (c: Self)
        ensures
            views(c.ides@) == seq!["*20??.*"@],
            c.backups,
            c.use_default_excludes,
            c.explicit_include@.len() == 0,
            c.exclude@.len() == 0,
            c.included.is_none(),
            c.vmoptions_names@ == Map::<Seq<char>, Seq<char>>::empty(),
    {
        let mut ides: Vec<String> = Vec::new();
        let pattern = "*20??.*".to_owned();
        ides.push(pattern);
        proof {
            assert(views(ides@) =~= seq!["*20??.*"@]);
        }
        JetbrainsConfig {
            ides,
            backups: true,
            use_default_excludes: true,
            explicit_include: Vec::new(),
            exclude: Vec::new(),
            included: None,
            vmoptions_names: StrMap::new(),
        }
    }
}

#[derive(Debug)]
pub struct PluginsConfig {
    pub enabled: bool,
    pub launchers: StrMap,
    pub rule: Vec<PluginRule>,
    pub capability: Vec<PluginCapability>,
}

impl Default for PluginsConfig {
    fn default() -> (c: Self)
        ensures
            c.enabled,
            c.launchers@ == Map::<Seq<char>, Seq<char>>::empty(),
            c.rule@.len() == 0,
            c.capability@.len() == 0,
    {
        PluginsConfig { enabled: true, launchers: StrMap::new(), rule: Vec::new(), capability: Vec::new() }
    }
}

#[derive(Debug, Clone)]
pub struct PluginRule {
    pub id: String,
    /// Glob over IDE directory or product names; `*` when unset.
    pub ide: String,
    pub action: String,
}

/// What happened when a rule was written, so the caller can say so.
#[derive(Debug, Clone, Copy, PartialEq, Eq, Structural)]
pub enum RuleWrite {
    Added,
    /// The identical rule was already there, so the file was left alone.
    AlreadyPresent,
}

#[derive(Debug, Clone)]
pub struct PluginCapability {
    /// Glob over IDE directory or product names; `*` when unset.
    pub ide: String,
    pub add: Vec<String>,
    pub remove: Vec<String>,
}

#[derive(Debug)]
pub struct XmlConfig {
    pub use_defaults: bool,
    pub omit: Vec<XmlOmitRule>,
}

impl Default for XmlConfig {
    fn default() -> (c: Self)
        ensures
            c.use_defaults,
            c.omit@.len() == 0,
    {
        XmlConfig { use_defaults: true, omit: Vec::new() }
    }
}

#[derive(Debug, Clone)]
pub struct XmlOmitRule {
    pub file: String,
    pub component: Option<String>,
    /// `option` when unset.
    pub element: String,
    pub option: Option<String>,
    pub attribute: Option<String>,
    pub equals: String,
}

// ---------------------------------------------------------------------------
// Per-machine override: `machines/<id>.toml` inside the sync-data store
// ---------------------------------------------------------------------------

#[derive(Debug)]
pub struct MachineConfig {
    pub jetbrains: MachineJetbrainsConfig,
    pub xml: MachineXmlConfig,
}

impl Default for MachineConfig {
    fn default() -> (c: Self)
        ensures
            c.jetbrains.exclude@.len() == 0,
            c.xml.omit@.len() == 0,
    {
        MachineConfig { jetbrains: MachineJetbrainsConfig::default(), xml: MachineXmlConfig::default() }
    }
}

#[derive(Debug)]
pub struct MachineJetbrainsConfig {
    pub exclude: Vec<String>,
}

impl Default for MachineJetbrainsConfig {
    fn default() -> (c: Self)
        ensures
            c.exclude@.len() == 0,
    {
        MachineJetbrainsConfig { exclude: Vec::new() }
    }
}

#[derive(Debug)]
pub struct MachineXmlConfig {
    pub omit: Vec<XmlOmitRule>,
}

impl Default for MachineXmlConfig {
    fn default() -> (c: Self)
        ensures
            c.omit@.len() == 0,
    {
        MachineXmlConfig { omit: Vec::new() }
    }
}

/// A character allowed in a file name as-is: ASCII letters and digits, `.`,
/// `_` and `-`.
pub open spec fn filename_safe(c: char) -> bool {
    ('a' <= c <= 'z') || ('A' <= c <= 'Z') || ('0' <= c <= '9') || c == '.' || c == '_' || c == '-'
}

/// Each unsafe character replaced by `-`.
pub open spec fn dashed(s: Seq<char>) -> Seq<char> {
    s.map_values(|c: char| if filename_safe(c) {
        c
    } else {
        '-'
    })
}

/// `s` without leading and trailing `-`.
pub open spec fn trim_dashes(s: Seq<char>) -> Seq<char> {
    crate::text::trim_end_by(trim_start_dashes(s), |c: char| c == '-')
}

pub open spec fn trim_start_dashes(s: Seq<char>) -> Seq<char>
    decreases s.len(),
{
    if s.len() > 0 && s[0] == '-' {
        trim_start_dashes(s.drop_first())
    } else {
        s
    }
}

/// `raw` made file-name safe: unsafe characters become `-`, dashes at either
/// end go, and an empty result becomes `fallback`.
pub open spec fn sanitized(raw: Seq<char>, fallback: Seq<char>) -> Seq<char> {
    let t = trim_dashes(dashed(raw));
    if t.len() == 0 {
        fallback
    } else {
        t
    }
}

proof fn lemma_trim_start_dashes_skip(s: Seq<char>, i: int)
    requires
        0 <= i <= s.len(),
        forall|j: int| 0 <= j < i ==> #[trigger] s[j] == '-',
        i == s.len() || s[i] != '-',
    ensures
        trim_start_dashes(s) == s.skip(i),
    decreases i,
{
    if i > 0 {
        assert(s.drop_first().skip(i - 1) == s.skip(i));
        if i < s.len() {
            assert(s.drop_first()[i - 1] == s[i]);
        }
        lemma_trim_start_dashes_skip(s.drop_first(), i - 1);
    } else {
        assert(s.skip(0) == s);
    }
}

/// Makes `raw` file-name safe as [`sanitized`] states.
pub fn sanitize_name(raw: &str, fallback: &str) -> (r: String)
    ensures
        r@ == sanitized(raw@, fallback@),
{
    let chars = chars_of(raw);
    let mut cleaned: Vec<char> = Vec::new();
    let mut i: usize = 0;
    while i < chars.len()
        invariant
            i <= chars@.len(),
            chars@ == raw@,
            cleaned@ == dashed(chars@.take(i as int)),
        decreases chars@.len() - i,
    {
        let c = chars[i];
        let safe = ('a' <= c && c <= 'z') || ('A' <= c && c <= 'Z') || ('0' <= c && c <= '9') || c == '.'
            || c == '_' || c == '-';
        if safe {
            cleaned.push(c);
        } else {
            cleaned.push('-');
        }
        i = i + 1;
        proof {
            assert(cleaned@ =~= dashed(chars@.take(i as int)));
        }
    }
    proof {
        assert(chars@.take(i as int) == chars@);
    }
    let mut start: usize = 0;
    while start < cleaned.len() && cleaned[start] == '-'
        invariant
            start <= cleaned@.len(),
            forall|j: int| 0 <= j < start ==> #[trigger] cleaned@[j] == '-',
        decreases cleaned@.len() - start,
    {
        start = start + 1;
    }
    let mut end: usize = cleaned.len();
    while end > start && cleaned[end - 1] == '-'
        invariant
            start <= end <= cleaned@.len(),
            forall|j: int| end <= j < cleaned@.len() ==> #[trigger] cleaned@[j] == '-',
        decreases end,
    {
        end = end - 1;
    }
    let mut kept: Vec<char> = Vec::new();
    let mut k: usize = start;
    while k < end
        invariant
            start <= k <= end <= cleaned@.len(),
            kept@ == cleaned@.subrange(start as int, k as int),
        decreases end - k,
    {
        kept.push(cleaned[k]);
        k = k + 1;
        proof {
            assert(kept@ =~= cleaned@.subrange(start as int, k as int));
        }
    }
    proof {
        let d = cleaned@;
        lemma_trim_start_dashes_skip(d, start as int);
        let t = d.skip(start as int);
        assert forall|j: int| end - start <= j < t.len() implies #[trigger] t[j] == '-' by {
            assert(t[j] == d[j + start]);
        }
        if end > start {
            assert(t[end - start - 1] == d[end - 1]);
        }
        crate::text::lemma_trim_end_by_take(t, |c: char| c == '-', end - start);
        assert(t.take(end - start) =~= kept@);
    }
    if kept.len() == 0 {
        fallback.to_owned()
    } else {
        string_of(kept.as_slice())
    }
}

/// Sanitizes a raw machine identifier to `[A-Za-z0-9._-]`, matching the
/// filename-safety constraint on `machines/<id>.toml`.
pub fn sanitize_machine_id(raw: &str) -> (r: String)
    ensures
        r@ == sanitized(raw@, "machine"@),
{
    sanitize_name(raw, "machine")
}

/// The text of a TOML basic string holding `s`: backslashes and quotes
/// escaped.
pub open spec fn toml_escaped(s: Seq<char>) -> Seq<char>
    decreases s.len(),
{
    if s.len() == 0 {
        Seq::empty()
    } else {
        toml_escaped(s.drop_last()) + if s.last() == '\\' {
            seq!['\\', '\\']
        } else if s.last() == '"' {
            seq!['\\', '"']
        } else {
            seq![s.last()]
        }
    }
}

/// Escapes the two characters that can end a TOML basic string early. Globs
/// bring `*`, `?` and brackets, none of which need escaping.
pub fn toml_escape(value: &str) -> (r: String)
    ensures
        r@ == toml_escaped(value@),
{
    let chars = chars_of(value);
    let mut out: Vec<char> = Vec::new();
    let mut i: usize = 0;
    while i < chars.len()
        invariant
            i <= chars@.len(),
            chars@ == value@,
            out@ == toml_escaped(chars@.take(i as int)),
        decreases chars@.len() - i,
    {
        let c = chars[i];
        if c == '\\' {
            out.push('\\');
            out.push('\\');
        } else if c == '"' {
            out.push('\\');
            out.push('"');
        } else {
            out.push(c);
        }
        proof {
            assert(chars@.take(i + 1 as int).drop_last() == chars@.take(i as int));
        }
        i = i + 1;
        proof {
            assert(out@ =~= toml_escaped(chars@.take(i as int)));
        }
    }
    proof {
        assert(chars@.take(i as int) == chars@);
    }
    string_of(out.as_slice())
}


/// Two rules say the same thing.
pub open spec fn same_rule(a: PluginRule, b: PluginRule) -> bool {
    a.id@ == b.id@ && a.ide@ == b.ide@ && a.action@ == b.action@
}

/// Whether an identical rule is already configured.
pub fn rule_already_present(existing: &[PluginRule], rule: &PluginRule) -> (b: bool)
    ensures
        b == exists|i: int| 0 <= i < existing@.len() && same_rule(#[trigger] existing@[i], *rule),
{
    let mut i: usize = 0;
    while i < existing.len()
        invariant
            i <= existing@.len(),
            forall|j: int| 0 <= j < i ==> !same_rule(#[trigger] existing@[j], *rule),
        decreases existing@.len() - i,
    {
        let current = &existing[i];
        if crate::text::str_eq(current.id.as_str(), rule.id.as_str()) && crate::text::str_eq(current.ide.as_str(), rule.ide.as_str())
            && crate::text::str_eq(current.action.as_str(), rule.action.as_str()) {
            return true;
        }
        i = i + 1;
    }
    false
}

/// The `[[plugins.rule]]` block for a rule.
pub open spec fn rule_block(rule: PluginRule) -> Seq<char> {
    "[[plugins.rule]]\nid = \""@ + toml_escaped(rule.id@) + "\"\nide = \""@ + toml_escaped(rule.ide@) + "\"\naction = \""@
        + toml_escaped(rule.action@) + "\"\n"@
}

/// A config file's text with a rule block appended: after the text, ended by
/// a newline when it was not, and a blank line, unless the text is empty.
/// Appending rather than re-serializing keeps the comments a person wrote,
/// and a later rule is the one that takes effect.
pub open spec fn appended_rule(contents: Seq<char>, rule: PluginRule) -> Seq<char> {
    let ended = if contents.len() > 0 && contents.last() != '\n' {
        contents.push('\n')
    } else {
        contents
    };
    let spaced = if ended.len() > 0 {
        ended.push('\n')
    } else {
        ended
    };
    spaced + rule_block(rule)
}

/// A config file's text with a rule block appended.
pub fn with_rule_appended(contents: &str, rule: &PluginRule) -> (r: String)
    ensures
        r@ == appended_rule(contents@, *rule),
{
    let chars = chars_of(contents);
    let mut text = contents.to_owned();
    if chars.len() > 0 && chars[chars.len() - 1] != '\n' {
        text.append("\n");
        proof {
            reveal_strlit("\n");
            assert("\n"@ =~= seq!['\n']);
        }
    }
    if chars.len() > 0 {
        text.append("\n");
        proof {
            reveal_strlit("\n");
            assert("\n"@ =~= seq!['\n']);
        }
    }
    text.append("[[plugins.rule]]\nid = \"");
    let id = toml_escape(rule.id.as_str());
    text.append(id.as_str());
    text.append("\"\nide = \"");
    let ide = toml_escape(rule.ide.as_str());
    text.append(ide.as_str());
    text.append("\"\naction = \"");
    let action = toml_escape(rule.action.as_str());
    text.append(action.as_str());
    text.append("\"\n");
    proof {
        assert(text@ =~= appended_rule(contents@, *rule));
    }
    text
}

/// The first label of a host name.
pub open spec fn first_label(host: Seq<char>) -> Seq<char> {
    crate::text::split_on(host, '.')[0]
}

/// The identity a machine goes by: the one configured, else the one the
/// environment names, else the first label of the host name, else
/// `machine`; made safe as a file name.
pub open spec fn machine_name(explicit: Option<Seq<char>>, environment: Option<Seq<char>>, host: Option<Seq<char>>) -> Seq<char> {
    let raw = match explicit {
        Some(e) => e,
        None => match environment {
            Some(v) => v,
            None => match host {
                Some(h) => first_label(h),
                None => "machine"@,
            },
        },
    };
    sanitized(raw, "machine"@)
}

/// The identity a machine goes by, from what was configured, what the
/// environment names and the host name, each where there is one.
pub fn machine_id_from(explicit: Option<&str>, environment: Option<&str>, host: Option<&str>) -> (r: String)
    ensures
        r@ == machine_name(
            match explicit {
                Some(e) => Some(e@),
                None => None,
            },
            match environment {
                Some(v) => Some(v@),
                None => None,
            },
            match host {
                Some(h) => Some(h@),
                None => None,
            },
        ),
{
    match explicit {
        Some(e) => sanitize_machine_id(e),
        None => match environment {
            Some(v) => sanitize_machine_id(v),
            None => match host {
                Some(h) => {
                    let parts = crate::text::split_str(h, '.');
                    proof {
                        crate::text::lemma_split_on_nonempty(h@, '.');
                        assert(views(parts@)[0] == parts@[0]@);
                    }
                    sanitize_machine_id(parts[0].as_str())
                },
                None => sanitize_machine_id("machine"),
            },
        },
    }
}

} // verus!
