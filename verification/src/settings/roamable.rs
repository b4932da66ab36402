//! Which files in an IDE config directory are worth syncing.
//!
//! The allowlist is learned rather than hard-coded: any IDE that has run the
//! bundled Backup and Sync leaves a `settingsSync/` tree, the platform's own
//! answer to "what roams". Pooling those trees across every installed IDE,
//! with what other machines remembered and a built-in floor, gives the list;
//! the exclusion list then removes caches, telemetry, machine-local state and
//! credentials.

use vstd::prelude::*;

use crate::config::SyncConfig;
use crate::error::JbsyncError;
use crate::glob::{all_compile, all_plain, any_hit, first_error, matches_any};
use crate::ide::Ide;
use crate::strmap::{lemma_sorted_key_list, sorted_key_list, StrMap};
use crate::text::{chars_of, clone_strings, extend_strings, opt_view, str_eq, trim, trim_str, views};

verus! {

/// JetBrains records a removed setting by writing this literal into the
/// `settingsSync` tree instead of deleting the file.
pub open spec fn deleted_tombstone() -> Seq<char> {
    "DELETED"@
}

/// Whether a file's contents are a deletion marker.
pub fn is_tombstone(contents: &str) -> (b: bool)
    ensures
        b == (trim(contents@) == deleted_tombstone()),
{
    let trimmed = trim_str(contents);
    str_eq(trimmed.as_str(), "DELETED")
}

/// The fallback allowlist: what the platform roams, checked against real
/// `settingsSync` trees, plus `options/project.default.xml`, which holds
/// *Settings for New Projects*. It is a floor the learned list never drops
/// below.
pub open spec fn builtin_manifest_spec() -> Seq<Seq<char>> {
    seq![
        "codestyles/**"@,
        "colors/**"@,
        "fileTemplates/**"@,
        "filetypes/**"@,
        "inspection/**"@,
        "keymaps/**"@,
        "quicklists/**"@,
        "templates/**"@,
        "options/colors.scheme.xml"@,
        "options/csvSettings.xml"@,
        "options/customization.xml"@,
        "options/databaseDrivers.xml"@,
        "options/databaseSettings.xml"@,
        "options/dataViewsSettings.xml"@,
        "options/debugger.xml"@,
        "options/diff.xml"@,
        "options/editor-font.xml"@,
        "options/editor.xml"@,
        "options/file.template.settings.xml"@,
        "options/filetypes.xml"@,
        "options/github.xml"@,
        "options/gitlab.xml"@,
        "options/grazie_global.xml"@,
        "options/ide-features-trainer.xml"@,
        "options/ide.general.xml"@,
        "options/IntelliLang.xml"@,
        "options/laf.xml"@,
        "options/project.default.xml"@,
        "options/sshConfigs.xml"@,
        "options/terminal.xml"@,
        "options/ui.lnf.xml"@,
        "options/vcs.xml"@,
    ]
}

/// The fallback allowlist, as strings.
pub fn builtin_manifest() -> (r: Vec<String>)
    ensures
        views(r@) == builtin_manifest_spec(),
{
    let mut r: Vec<String> = Vec::new();
    r.push("codestyles/**".to_owned());
    r.push("colors/**".to_owned());
    r.push("fileTemplates/**".to_owned());
    r.push("filetypes/**".to_owned());
    r.push("inspection/**".to_owned());
    r.push("keymaps/**".to_owned());
    r.push("quicklists/**".to_owned());
    r.push("templates/**".to_owned());
    r.push("options/colors.scheme.xml".to_owned());
    r.push("options/csvSettings.xml".to_owned());
    r.push("options/customization.xml".to_owned());
    r.push("options/databaseDrivers.xml".to_owned());
    r.push("options/databaseSettings.xml".to_owned());
    r.push("options/dataViewsSettings.xml".to_owned());
    r.push("options/debugger.xml".to_owned());
    r.push("options/diff.xml".to_owned());
    r.push("options/editor-font.xml".to_owned());
    r.push("options/editor.xml".to_owned());
    r.push("options/file.template.settings.xml".to_owned());
    r.push("options/filetypes.xml".to_owned());
    r.push("options/github.xml".to_owned());
    r.push("options/gitlab.xml".to_owned());
    r.push("options/grazie_global.xml".to_owned());
    r.push("options/ide-features-trainer.xml".to_owned());
    r.push("options/ide.general.xml".to_owned());
    r.push("options/IntelliLang.xml".to_owned());
    r.push("options/laf.xml".to_owned());
    r.push("options/project.default.xml".to_owned());
    r.push("options/sshConfigs.xml".to_owned());
    r.push("options/terminal.xml".to_owned());
    r.push("options/ui.lnf.xml".to_owned());
    r.push("options/vcs.xml".to_owned());
    proof {
        assert(views(r@) =~= builtin_manifest_spec());
    }
    r
}

/// Never sync these: caches and indices, machine-local layout, credentials,
/// telemetry, the bundled sync's own state, and one-shot onboarding state.
pub open spec fn default_excludes_spec() -> Seq<Seq<char>> {
    seq![
        "**/.DS_Store"@,
        ".DS_Store"@,
        "*.db"@,
        "*.db-*"@,
        "app-internal-state.db*"@,
        "bundled_plugins.txt"@,
        "disabled_plugins.txt"@,
        "early-access-registry.txt"@,
        "event-log-metadata/**"@,
        "extensions/**"@,
        "grazie/**"@,
        "idea.key"@,
        "log/**"@,
        "plugins/**"@,
        "splash-subscription-mode.txt"@,
        "ssl/**"@,
        "system/**"@,
        "tasks/**"@,
        "updatedBrokenPlugins.db"@,
        "workspace/**"@,
        "settingsSync/**"@,
        "options/settingsSync.xml"@,
        "options/settingsSyncLocal.xml"@,
        "options/ide.general.local.xml"@,
        "options/path.macros.xml"@,
        "options/proxy.settings.xml"@,
        "options/recentProjects.xml"@,
        "options/sshRecentConnections*.xml"@,
        "options/trusted-paths.xml"@,
        "options/updates.xml"@,
        "options/window.layouts.xml"@,
        "options/window.state.xml"@,
        "options/actionSummary.xml"@,
        "options/EventLogAllowedList.xml"@,
        "options/features.usage.statistics.xml"@,
        "options/usage.statistics.xml"@,
        "options/AIAssistantQuotaManager2.xml"@,
        "options/trace_license_storage.xml"@,
        "options/AIChatContextPopupPromotionState.xml"@,
        "options/AIOnboardingPromoWindowAdvisor.xml"@,
        "options/DefaultAgentRollout.xml"@,
        "options/embeddings-activation.xml"@,
        "options/InstallJunieHubActionManager.xml"@,
        "options/ml.chat.completion.survey.xml"@,
        "options/llm.cloud.completion.xml"@,
    ]
}

/// The default exclusion list, as strings.
pub fn default_excludes() -> (r: Vec<String>)
    ensures
        views(r@) == default_excludes_spec(),
{
    let mut r: Vec<String> = Vec::new();
    r.push("**/.DS_Store".to_owned());
    r.push(".DS_Store".to_owned());
    r.push("*.db".to_owned());
    r.push("*.db-*".to_owned());
    r.push("app-internal-state.db*".to_owned());
    r.push("bundled_plugins.txt".to_owned());
    r.push("disabled_plugins.txt".to_owned());
    r.push("early-access-registry.txt".to_owned());
    r.push("event-log-metadata/**".to_owned());
    r.push("extensions/**".to_owned());
    r.push("grazie/**".to_owned());
    r.push("idea.key".to_owned());
    r.push("log/**".to_owned());
    r.push("plugins/**".to_owned());
    r.push("splash-subscription-mode.txt".to_owned());
    r.push("ssl/**".to_owned());
    r.push("system/**".to_owned());
    r.push("tasks/**".to_owned());
    r.push("updatedBrokenPlugins.db".to_owned());
    r.push("workspace/**".to_owned());
    r.push("settingsSync/**".to_owned());
    r.push("options/settingsSync.xml".to_owned());
    r.push("options/settingsSyncLocal.xml".to_owned());
    r.push("options/ide.general.local.xml".to_owned());
    r.push("options/path.macros.xml".to_owned());
    r.push("options/proxy.settings.xml".to_owned());
    r.push("options/recentProjects.xml".to_owned());
    r.push("options/sshRecentConnections*.xml".to_owned());
    r.push("options/trusted-paths.xml".to_owned());
    r.push("options/updates.xml".to_owned());
    r.push("options/window.layouts.xml".to_owned());
    r.push("options/window.state.xml".to_owned());
    r.push("options/actionSummary.xml".to_owned());
    r.push("options/EventLogAllowedList.xml".to_owned());
    r.push("options/features.usage.statistics.xml".to_owned());
    r.push("options/usage.statistics.xml".to_owned());
    r.push("options/AIAssistantQuotaManager2.xml".to_owned());
    r.push("options/trace_license_storage.xml".to_owned());
    r.push("options/AIChatContextPopupPromotionState.xml".to_owned());
    r.push("options/AIOnboardingPromoWindowAdvisor.xml".to_owned());
    r.push("options/DefaultAgentRollout.xml".to_owned());
    r.push("options/embeddings-activation.xml".to_owned());
    r.push("options/InstallJunieHubActionManager.xml".to_owned());
    r.push("options/ml.chat.completion.survey.xml".to_owned());
    r.push("options/llm.cloud.completion.xml".to_owned());
    proof {
        assert(views(r@) =~= default_excludes_spec());
    }
    r
}

/// The name this IDE uses for its VM options file: a configured name for the
/// product, else the one its installation metadata names, else
/// `idea.vmoptions`.
pub open spec fn vm_options_spec(ide: Ide, config: SyncConfig) -> Seq<char> {
    if config.jetbrains.vmoptions_names@.contains_key(ide.product@) {
        config.jetbrains.vmoptions_names@[ide.product@]
    } else {
        match ide.metadata {
            Some(m) => if m.vm_options_file@.len() > 0 {
                m.vm_options_file@
            } else {
                "idea.vmoptions"@
            },
            None => "idea.vmoptions"@,
        }
    }
}

/// The name this IDE uses for its VM options file (`idea.vmoptions`,
/// `pycharm.vmoptions`, ...), so it can be stored under one shared name.
pub fn vm_options_name(ide: &Ide, config: &SyncConfig) -> (r: String)
    ensures
        r@ == vm_options_spec(*ide, *config),
{
    match config.jetbrains.vmoptions_names.get(ide.product.as_str()) {
        Some(name) => {
            return name.clone();
        },
        None => {},
    }
    match &ide.metadata {
        Some(m) => {
            if !m.vm_options_file.as_str().is_empty() {
                return m.vm_options_file.clone();
            }
        },
        None => {},
    }
    "idea.vmoptions".to_owned()
}

/// A file's path inside the store: the IDE's VM options file is stored as
/// `idea.vmoptions`, everything else under its own path.
pub open spec fn canonical_spec(relative: Seq<char>, ide: Ide, config: SyncConfig) -> Seq<char> {
    if relative == vm_options_spec(ide, config) {
        "idea.vmoptions"@
    } else {
        relative
    }
}

/// Where a stored file belongs inside a particular IDE.
pub open spec fn target_spec(relative: Seq<char>, ide: Ide, config: SyncConfig) -> Seq<char> {
    if relative == "idea.vmoptions"@ {
        vm_options_spec(ide, config)
    } else {
        relative
    }
}

/// Maps a product-specific path onto the name used inside the store, so
/// every IDE shares one `idea.vmoptions`.
pub fn canonical_relative_path(relative: &str, ide: &Ide, config: &SyncConfig) -> (r: String)
    ensures
        r@ == canonical_spec(relative@, *ide, *config),
{
    let name = vm_options_name(ide, config);
    if str_eq(relative, name.as_str()) {
        "idea.vmoptions".to_owned()
    } else {
        relative.to_owned()
    }
}

/// The reverse of [`canonical_relative_path`]: where a stored file belongs
/// inside a particular IDE.
pub fn target_relative_path(relative: &str, ide: &Ide, config: &SyncConfig) -> (r: String)
    ensures
        r@ == target_spec(relative@, *ide, *config),
{
    if str_eq(relative, "idea.vmoptions") {
        vm_options_name(ide, config)
    } else {
        relative.to_owned()
    }
}

/// Storing a file and placing it back lands it where it came from, for every
/// file but a foreign IDE's `idea.vmoptions`.
pub proof fn law_canonical_then_target(relative: Seq<char>, ide: Ide, config: SyncConfig)
    requires
        relative != "idea.vmoptions"@ || vm_options_spec(ide, config) == "idea.vmoptions"@,
    ensures
        target_spec(canonical_spec(relative, ide, config), ide, config) == relative,
{
}

/// Placing a stored file and storing it again gives back its store path, for
/// every path but one spelled like this IDE's own VM options file.
pub proof fn law_target_then_canonical(relative: Seq<char>, ide: Ide, config: SyncConfig)
    requires
        relative != vm_options_spec(ide, config) || vm_options_spec(ide, config) == "idea.vmoptions"@,
    ensures
        canonical_spec(target_spec(relative, ide, config), ide, config) == relative,
{
}

/// Some `/`-separated part of `relative` starts with a dot.
pub open spec fn dotted(relative: Seq<char>) -> bool {
    exists|i: int| 0 <= i < relative.len() && #[trigger] relative[i] == '.' && (i == 0 || relative[i - 1] == '/')
}

fn is_dotted(relative: &str) -> (b: bool)
    ensures
        b == dotted(relative@),
{
    let chars = chars_of(relative);
    let mut i: usize = 0;
    while i < chars.len()
        invariant
            i <= chars@.len(),
            chars@ == relative@,
            forall|j: int| 0 <= j < i ==> !(#[trigger] chars@[j] == '.' && (j == 0 || chars@[j - 1] == '/')),
        decreases chars@.len() - i,
    {
        if chars[i] == '.' && (i == 0 || chars[i - 1] == '/') {
            return true;
        }
        i = i + 1;
    }
    false
}

/// One file found in a `settingsSync` tree: its relative path, and its text
/// where it could be read as such.
pub open spec fn entry_view(e: (String, Option<String>)) -> (Seq<char>, Option<Seq<char>>) {
    (e.0@, opt_view(e.1))
}

/// A file of a `settingsSync` tree that names a roamable setting: nothing
/// dot-prefixed (the bundled sync's own bookkeeping, or the operating
/// system's), and no tombstone.
pub open spec fn roams(entry: (Seq<char>, Option<Seq<char>>)) -> bool {
    !dotted(entry.0) && !(entry.1 matches Some(c) && trim(c) == deleted_tombstone())
}

/// The roamable paths among `found`, in order.
pub open spec fn roaming_paths(found: Seq<(Seq<char>, Option<Seq<char>>)>) -> Seq<Seq<char>>
    decreases found.len(),
{
    if found.len() == 0 {
        Seq::empty()
    } else {
        let rest = roaming_paths(found.drop_last());
        if roams(found.last()) {
            rest.push(found.last().0)
        } else {
            rest
        }
    }
}

/// Relative paths the IDE's own bundled sync considers roamable, from the
/// files of its `settingsSync/` tree (outside `.git`, no symlinks).
pub fn settings_sync_manifest(found: &[(String, Option<String>)]) -> (r: Vec<String>)
    ensures
        views(r@) == roaming_paths(found@.map_values(|e: (String, Option<String>)| entry_view(e))),
{
    let ghost fv = found@.map_values(|e: (String, Option<String>)| entry_view(e));
    let mut r: Vec<String> = Vec::new();
    let mut i: usize = 0;
    while i < found.len()
        invariant
            i <= found@.len(),
            fv == found@.map_values(|e: (String, Option<String>)| entry_view(e)),
            views(r@) == roaming_paths(fv.take(i as int)),
        decreases found@.len() - i,
    {
        let relative = &found[i].0;
        let tombstone = match &found[i].1 {
            Some(contents) => is_tombstone(contents.as_str()),
            None => false,
        };
        let ghost prev = r@;
        proof {
            assert(fv.take(i + 1 as int).drop_last() =~= fv.take(i as int));
            assert(fv.take(i + 1 as int).last() == fv[i as int]);
            assert(fv[i as int] == entry_view(found@[i as int]));
        }
        if !is_dotted(relative.as_str()) && !tombstone {
            r.push(relative.clone());
            proof {
                assert(views(r@) =~= views(prev).push(relative@));
            }
        }
        i = i + 1;
    }
    proof {
        assert(fv.take(i as int) =~= fv);
    }
    r
}

/// Every path the IDEs' `settingsSync` trees prove roamable.
pub open spec fn pooled(ides: Seq<&Ide>) -> Set<Seq<char>>
    decreases ides.len(),
{
    if ides.len() == 0 {
        Set::empty()
    } else {
        pooled(ides.drop_last()).union(views(ides.last().settings_sync@).to_set())
    }
}

proof fn lemma_pooled_finite(ides: Seq<&Ide>)
    ensures
        pooled(ides).finite(),
    decreases ides.len(),
{
    if ides.len() > 0 {
        lemma_pooled_finite(ides.drop_last());
    }
}

/// Only what the installed IDEs can prove right now, with nothing remembered
/// or built-in folded in: what gets published back to the store.
pub fn observed_manifest(ides: &[&Ide]) -> (r: Vec<String>)
    ensures
        views(r@) == sorted_key_list(pooled(ides@)),
{
    let mut all = StrMap::new();
    let mut i: usize = 0;
    while i < ides.len()
        invariant
            i <= ides@.len(),
            all@.dom() == pooled(ides@.take(i as int)),
        decreases ides@.len() - i,
    {
        all.insert_keys(ides[i].settings_sync.as_slice());
        proof {
            assert(ides@.take(i + 1 as int).drop_last() =~= ides@.take(i as int));
            assert(all@.dom() =~= pooled(ides@.take(i + 1 as int)));
        }
        i = i + 1;
    }
    proof {
        assert(ides@.take(i as int) =~= ides@);
    }
    all.sorted_keys()
}

/// The allowlist to apply to every IDE on this machine: what the IDEs prove,
/// what the fleet remembered, and the built-in floor, each entry once, in
/// order.
pub open spec fn learned(ides: Seq<&Ide>, remembered: Seq<Seq<char>>) -> Seq<Seq<char>> {
    sorted_key_list(pooled(ides).union(remembered.to_set()).union(builtin_manifest_spec().to_set()))
}

/// The allowlist to apply to every IDE on this machine. The built-in list is
/// a floor, not a last resort: one IDE with a thin `settingsSync` tree cannot
/// narrow what the rest of them sync.
pub fn learned_manifest(ides: &[&Ide], remembered: &[String]) -> (r: Vec<String>)
    ensures
        views(r@) == learned(ides@, views(remembered@)),
{
    let observed = observed_manifest(ides);
    let builtin = builtin_manifest();
    let mut all = StrMap::new();
    all.insert_keys(observed.as_slice());
    all.insert_keys(remembered);
    all.insert_keys(builtin.as_slice());
    proof {
        lemma_pooled_finite(ides@);
        lemma_sorted_key_list(pooled(ides@));
        assert(all@.dom() =~= pooled(ides@).union(views(remembered@).to_set()).union(builtin_manifest_spec().to_set()));
    }
    all.sorted_keys()
}

/// The learned list holds everything the IDEs prove, everything remembered
/// and the whole built-in floor, and nothing else.
pub proof fn law_learned_is_the_union(ides: Seq<&Ide>, remembered: Seq<Seq<char>>)
    ensures
        forall|x: Seq<char>| #[trigger] learned(ides, remembered).contains(x) <==> (pooled(ides).contains(x)
            || remembered.contains(x) || builtin_manifest_spec().contains(x)),
{
    lemma_pooled_finite(ides);
    let all = pooled(ides).union(remembered.to_set()).union(builtin_manifest_spec().to_set());
    lemma_sorted_key_list(all);
    assert forall|x: Seq<char>| #[trigger] learned(ides, remembered).contains(x) <==> (pooled(ides).contains(x)
        || remembered.contains(x) || builtin_manifest_spec().contains(x)) by {
        assert(learned(ides, remembered).contains(x) <==> learned(ides, remembered).to_set().contains(x));
        assert(remembered.contains(x) <==> remembered.to_set().contains(x));
        assert(builtin_manifest_spec().contains(x) <==> builtin_manifest_spec().to_set().contains(x));
    }
}

/// What is published is what the learned list is built on: everything
/// observed is also in the learned list.
pub proof fn law_observed_within_learned(ides: Seq<&Ide>, remembered: Seq<Seq<char>>)
    ensures
        forall|x: Seq<char>| #[trigger] sorted_key_list(pooled(ides)).contains(x) ==> learned(ides, remembered).contains(x),
{
    lemma_pooled_finite(ides);
    lemma_sorted_key_list(pooled(ides));
    law_learned_is_the_union(ides, remembered);
    assert forall|x: Seq<char>| #[trigger] sorted_key_list(pooled(ides)).contains(x) implies learned(ides, remembered).contains(x) by {
        assert(sorted_key_list(pooled(ides)).to_set().contains(x));
    }
}

/// The exclusion patterns: the default list unless switched off, then the
/// configured ones.
pub open spec fn exclude_patterns(config: SyncConfig) -> Seq<Seq<char>> {
    (if config.jetbrains.use_default_excludes {
        default_excludes_spec()
    } else {
        Seq::empty()
    }) + views(config.jetbrains.exclude@)
}

/// The allowlist patterns: the learned manifest (the built-in list when it is
/// empty), then the configured additions.
pub open spec fn manifest_patterns(config: SyncConfig, manifest: Seq<Seq<char>>) -> Seq<Seq<char>> {
    (if manifest.len() == 0 {
        builtin_manifest_spec()
    } else {
        manifest
    }) + match config.jetbrains.included {
        Some(v) => views(v@),
        None => Seq::empty(),
    }
}

/// Whether a file syncs: explicitly included, or allowed and not excluded.
pub open spec fn selected(config: SyncConfig, manifest: Seq<Seq<char>>, relative: Seq<char>) -> bool {
    any_hit(views(config.jetbrains.explicit_include@), relative) || (!any_hit(exclude_patterns(config), relative)
        && any_hit(manifest_patterns(config, manifest), relative))
}

/// The files that sync, keyed by store path, taken in the order of `files`;
/// a later file replaces an earlier one under the same key.
pub open spec fn discovered(files: Seq<Seq<char>>, ide: Ide, config: SyncConfig, manifest: Seq<Seq<char>>) -> Map<
    Seq<char>,
    Seq<char>,
>
    decreases files.len(),
{
    if files.len() == 0 {
        Map::empty()
    } else {
        let prev = discovered(files.drop_last(), ide, config, manifest);
        let f = files.last();
        if selected(config, manifest, f) {
            prev.insert(canonical_spec(f, ide, config), f)
        } else {
            prev
        }
    }
}

/// Patterns and file names without backslashes, where glob matching is
/// stated.
pub open spec fn discover_plain(ide: Ide, config: SyncConfig, manifest: Seq<Seq<char>>) -> bool {
    &&& all_plain(exclude_patterns(config))
    &&& all_plain(views(config.jetbrains.explicit_include@))
    &&& all_plain(manifest_patterns(config, manifest))
    &&& all_plain(views(ide.files@))
}

/// Every pattern discovery uses compiles.
pub open spec fn discover_valid(config: SyncConfig, manifest: Seq<Seq<char>>) -> bool {
    &&& all_compile(exclude_patterns(config))
    &&& all_compile(views(config.jetbrains.explicit_include@))
    &&& all_compile(manifest_patterns(config, manifest))
}

/// Every file this IDE should contribute, keyed by its path inside the store
/// and mapped to its path inside the IDE's config directory.
///
/// `manifest` comes from [`learned_manifest`]; an empty one falls back to the
/// built-in list. Files are taken in ascending order, so where two files
/// share a store path the later one wins.
pub fn discover(ide: &Ide, config: &SyncConfig, manifest: &[String]) -> (r: Result<StrMap, JbsyncError>)
    ensures
        r is Err ==> (r matches Err(JbsyncError::Configuration(_))),
        discover_plain(*ide, *config, views(manifest@)) ==> (r is Ok <==> discover_valid(*config, views(manifest@))),
        discover_plain(*ide, *config, views(manifest@)) ==> (r matches Ok(m) ==> m@ == discovered(
            sorted_key_list(views(ide.files@).to_set()),
            *ide,
            *config,
            views(manifest@),
        )),
{
    let mut excludes: Vec<String> = if config.jetbrains.use_default_excludes {
        default_excludes()
    } else {
        Vec::new()
    };
    proof {
        if !config.jetbrains.use_default_excludes {
            assert(views(excludes@) =~= Seq::<Seq<char>>::empty());
        }
    }
    extend_strings(&mut excludes, config.jetbrains.exclude.as_slice());
    proof {
        assert(views(excludes@) == exclude_patterns(*config));
    }
    match first_error(excludes.as_slice()) {
        Some(message) => {
            return Err(JbsyncError::configuration(message));
        },
        None => {},
    }
    let explicit = config.jetbrains.explicit_include.as_slice();
    match first_error(explicit) {
        Some(message) => {
            return Err(JbsyncError::configuration(message));
        },
        None => {},
    }
    let mut patterns: Vec<String> = if manifest.len() == 0 {
        builtin_manifest()
    } else {
        let mut copy: Vec<String> = Vec::new();
        extend_strings(&mut copy, manifest);
        proof {
            assert(views(copy@) =~= views(manifest@));
        }
        copy
    };
    match &config.jetbrains.included {
        Some(extra) => {
            extend_strings(&mut patterns, extra.as_slice());
        },
        None => {
            proof {
                assert(views(patterns@) =~= views(patterns@) + Seq::<Seq<char>>::empty());
            }
        },
    }
    proof {
        assert(views(patterns@) == manifest_patterns(*config, views(manifest@)));
    }
    match first_error(patterns.as_slice()) {
        Some(message) => {
            return Err(JbsyncError::configuration(message));
        },
        None => {},
    }
    let mut names = StrMap::new();
    names.insert_keys(ide.files.as_slice());
    let files = names.sorted_keys();
    let ghost fs = views(files@);
    let ghost plain = discover_plain(*ide, *config, views(manifest@));
    proof {
        assert(names@.dom() =~= views(ide.files@).to_set());
        lemma_sorted_key_list(views(ide.files@).to_set());
        if plain {
            assert forall|k: int| 0 <= k < fs.len() implies !(#[trigger] fs[k]).contains('\\') by {
                assert(fs.to_set().contains(fs[k]));
                let j = choose|j: int| 0 <= j < views(ide.files@).len() && views(ide.files@)[j] == fs[k];
            }
        }
    }
    let mut chosen = StrMap::new();
    let mut i: usize = 0;
    while i < files.len()
        invariant
            i <= files@.len(),
            fs == views(files@),
            fs == sorted_key_list(views(ide.files@).to_set()),
            views(excludes@) == exclude_patterns(*config),
            views(patterns@) == manifest_patterns(*config, views(manifest@)),
            explicit@ == config.jetbrains.explicit_include@,
            plain == discover_plain(*ide, *config, views(manifest@)),
            plain ==> all_plain(fs),
            plain ==> chosen@ == discovered(fs.take(i as int), *ide, *config, views(manifest@)),
        decreases files@.len() - i,
    {
        let relative = files[i].as_str();
        proof {
            assert(fs[i as int] == relative@);
            assert(fs.take(i + 1 as int).drop_last() =~= fs.take(i as int));
            assert(fs.take(i + 1 as int).last() == relative@);
        }
        let explicitly = matches_any(explicit, relative);
        let keep = explicitly || (!matches_any(excludes.as_slice(), relative) && matches_any(patterns.as_slice(), relative));
        if keep {
            let key = canonical_relative_path(relative, ide, config);
            chosen.insert(key, files[i].clone());
        }
        i = i + 1;
    }
    proof {
        assert(fs.take(i as int) =~= fs);
    }
    Ok(chosen)
}

} // verus!
