//! The roamable-file allowlist, remembered in the store so it survives the
//! machine that learned it.
//!
//! The union of every `settingsSync` tree any machine has observed is
//! recorded in `manifest.toml` at the root of the store. It only ever grows,
//! and it replicates like everything else there.

use vstd::prelude::*;

use crate::strmap::{lemma_sorted_key_list, sorted_key_list, sorted_strict, StrMap};
use crate::text::views;

verus! {

/// File name of the record at the root of the store.
pub fn file_name() -> (r: &'static str)
    ensures
        r@ == "manifest.toml"@,
{
    "manifest.toml"
}

#[derive(Debug, Clone)]
pub struct StoredManifest {
    pub version: u32,
    /// Store-relative glob patterns, sorted. Union of every `settingsSync`
    /// tree any machine has ever observed.
    pub roamable: Vec<String>,
}

impl Default for StoredManifest {
    fn default() -> (m: Self)
        ensures
            m.version == 1,
            m.roamable@.len() == 0,
    {
        StoredManifest { version: 1, roamable: Vec::new() }
    }
}

/// What the record holds after `observed` is folded into `roamable`: every
/// entry of either, once each, in ascending order.
pub open spec fn absorbed(roamable: Seq<Seq<char>>, observed: Seq<Seq<char>>) -> Seq<Seq<char>> {
    sorted_key_list(roamable.to_set().union(observed.to_set()))
}

impl StoredManifest {
    /// Folds newly observed entries in, returning `true` when that changed the
    /// number of entries. Entries are never removed: an IDE being uninstalled,
    /// or Backup and Sync being switched off, is not evidence that a file
    /// stopped being roamable.
    pub fn absorb(&mut self, observed: &[String]) -> (changed: bool)
        ensures
            views(final(self).roamable@) == absorbed(views(old(self).roamable@), views(observed@)),
            changed == (final(self).roamable@.len() != old(self).roamable@.len()),
            final(self).version == old(self).version,
    {
        let before = self.roamable.len();
        let mut merged = StrMap::new();
        merged.insert_keys(self.roamable.as_slice());
        merged.insert_keys(observed);
        proof {
            assert(merged@.dom() =~= views(self.roamable@).to_set().union(views(observed@).to_set()));
        }
        self.roamable = merged.sorted_keys();
        self.roamable.len() != before
    }
}

/// Absorbing keeps every entry already recorded and every entry observed,
/// adds nothing else, and lists each once, in order.
pub proof fn law_absorb_is_a_growing_union(roamable: Seq<Seq<char>>, observed: Seq<Seq<char>>)
    ensures
        forall|x: Seq<char>| #[trigger] absorbed(roamable, observed).contains(x) <==> (roamable.contains(x) || observed.contains(x)),
        sorted_strict(absorbed(roamable, observed)),
{
    let all = roamable.to_set().union(observed.to_set());
    lemma_sorted_key_list(all);
    assert forall|x: Seq<char>| #[trigger] absorbed(roamable, observed).contains(x) <==> (roamable.contains(x) || observed.contains(x)) by {
        assert(absorbed(roamable, observed).contains(x) <==> absorbed(roamable, observed).to_set().contains(x));
        assert(roamable.contains(x) <==> roamable.to_set().contains(x));
        assert(observed.contains(x) <==> observed.to_set().contains(x));
    }
}

/// Absorbing what was already absorbed changes nothing, so it reports no
/// change and provokes no commit.
pub proof fn law_absorb_is_idempotent(roamable: Seq<Seq<char>>, observed: Seq<Seq<char>>)
    ensures
        absorbed(absorbed(roamable, observed), observed) == absorbed(roamable, observed),
{
    let all = roamable.to_set().union(observed.to_set());
    lemma_sorted_key_list(all);
    let once = absorbed(roamable, observed);
    assert(once.to_set().union(observed.to_set()) =~= all);
}

} // verus!
