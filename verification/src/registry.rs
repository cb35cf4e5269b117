//! Registries of block definitions.
//!
//! The script registry keeps every parsed definition by its identifier
//! with a category index; the host runtime feeds it from the script
//! directory and re-feeds single definitions on hot reload. The memory
//! registry backs the standalone player: definitions parsed out of a
//! package, next to their source text.

use vstd::prelude::*;

use crate::definition::BlockDefinition;
use crate::kvmap::KvMap;
use crate::text::str_eq;

verus! {

/// All known block definitions, keyed by definition identifier, with a
/// category index.
#[derive(Debug)]
pub struct ScriptRegistry {
    /// Definitions by `meta.id`.
    pub definitions: KvMap<BlockDefinition>,
    /// Definition identifiers by category name.
    pub categories: KvMap<Vec<String>>,
    /// Where the scripts were loaded from.
    pub script_dir: String,
}

impl ScriptRegistry {
    /// Both indexes have unique keys.
    pub open spec fn wf(&self) -> bool {
        self.definitions.wf() && self.categories.wf()
    }

    /// An empty registry over a script directory.
    pub fn new(script_dir: String) -> (r: ScriptRegistry)
        ensures
            r.wf(),
            r.script_dir@ == script_dir@,
            r.definitions.list().len() == 0,
            r.categories.list().len() == 0,
    {
        ScriptRegistry { definitions: KvMap::new(), categories: KvMap::new(), script_dir }
    }

    /// Forgets every definition, for a full reload.
    pub fn clear(&mut self)
        ensures
            final(self).wf(),
            final(self).definitions.list().len() == 0,
            final(self).categories.list().len() == 0,
            final(self).script_dir@ == old(self).script_dir@,
    {
        self.definitions = KvMap::new();
        self.categories = KvMap::new();
    }

    /// Registers a parsed definition under its identifier and appends it
    /// to its category. Returns the identifier.
    pub fn register_definition(&mut self, definition: BlockDefinition) -> (r: String)
        requires
            old(self).wf(),
        ensures
            final(self).wf(),
            r@ == definition.meta.id@,
            final(self).script_dir@ == old(self).script_dir@,
            final(self).definitions.has_key(definition.meta.id@),
            final(self).definitions.spec_map()[definition.meta.id@] == definition,
            forall|k: Seq<char>|
                k != definition.meta.id@ ==> final(self).definitions.has_key(k) == old(
                    self,
                ).definitions.has_key(k),
            final(self).categories.has_key(definition.meta.category@),
    {
        let ghost gid = definition.meta.id@;
        let id = definition.meta.id.clone();
        let category = definition.meta.category.clone();
        let mut ids: Vec<String> = match self.categories.get(category.as_str()) {
            Some(existing) => existing.clone(),
            None => Vec::new(),
        };
        ids.push(id.clone());
        self.categories.insert(category, ids);
        let rid = id.clone();
        self.definitions.insert(id, definition);
        proof {
            assert forall|k: Seq<char>|
                k != gid implies self.definitions.has_key(k) == old(
                self,
            ).definitions.has_key(k) by {
                assert(self.definitions.has_key(k) == self.definitions.spec_map().dom().contains(
                    k,
                ));
                assert(old(self).definitions.has_key(k) == old(
                    self,
                ).definitions.spec_map().dom().contains(k));
            }
        }
        rid
    }

    /// Looks a definition up by identifier.
    pub fn get(&self, id: &str) -> (r: Option<&BlockDefinition>)
        requires
            self.wf(),
        ensures
            match r {
                Some(d) => self.definitions.has_key(id@) && *d == self.definitions.spec_map()[id@],
                None => !self.definitions.has_key(id@),
            },
    {
        self.definitions.get(id)
    }

    /// Every registered definition identifier, in insertion order.
    pub fn all_ids(&self) -> (r: Vec<String>)
        ensures
            r@.len() == self.definitions.list().len(),
            forall|i: int|
                0 <= i < r@.len() ==> (#[trigger] r@[i])@ == self.definitions.list()[i].0@,
    {
        let entries = self.definitions.entries();
        let mut r: Vec<String> = Vec::new();
        let mut i: usize = 0;
        while i < entries.len()
            invariant
                entries@ == self.definitions.list(),
                i <= entries@.len(),
                r@.len() == i,
                forall|k: int| 0 <= k < i ==> (#[trigger] r@[k])@ == entries@[k].0@,
            decreases entries@.len() - i,
        {
            r.push(entries[i].0.clone());
            i += 1;
        }
        r
    }

    /// The identifiers registered under a category, in insertion order;
    /// empty for an unknown category.
    pub fn get_by_category(&self, category: &str) -> (r: Vec<String>)
        requires
            self.wf(),
        ensures
            self.categories.has_key(category@) ==> r.deep_view()
                == self.categories.spec_map()[category@].deep_view(),
            !self.categories.has_key(category@) ==> r@.len() == 0,
    {
        match self.categories.get(category) {
            Some(ids) => {
                let r = ids.clone();
                proof {
                    assert(r.deep_view() =~= self.categories.spec_map()[category@].deep_view());
                }
                r
            }
            None => Vec::new(),
        }
    }

    /// Drops the definition loaded from a script path, and its category
    /// entry, ahead of a reload. The first definition recorded under
    /// that path leaves the index; nothing changes when none carries it.
    pub fn remove_by_path(&mut self, path: &str)
        requires
            old(self).wf(),
        ensures
            final(self).wf(),
            final(self).script_dir@ == old(self).script_dir@,
            (forall|i: int|
                0 <= i < old(self).definitions.list().len() ==> (#[trigger] old(
                    self,
                ).definitions.list()[i]).1.script_path@ != path@) ==> *final(self) == *old(self),
            forall|i: int|
                (0 <= i < old(self).definitions.list().len() && (#[trigger] old(
                    self,
                ).definitions.list()[i]).1.script_path@ == path@ && (forall|j: int|
                    0 <= j < i ==> old(self).definitions.list()[j].1.script_path@ != path@))
                    ==> final(self).definitions.spec_map() == old(
                    self,
                ).definitions.spec_map().remove(old(self).definitions.list()[i].0@),
    {
        let ghost pre = *self;
        // Find the first definition recorded under the path.
        let entries = self.definitions.entries();
        let mut found: Option<String> = None;
        let ghost mut fidx: int = 0;
        let mut i: usize = 0;
        while i < entries.len()
            invariant
                entries@ == pre.definitions.list(),
                i <= entries@.len(),
                match found {
                    Some(id) => 0 <= fidx < i && entries@[fidx].1.script_path@ == path@
                        && entries@[fidx].0@ == id@ && (forall|j: int|
                        0 <= j < fidx ==> entries@[j].1.script_path@ != path@),
                    None => forall|j: int| 0 <= j < i ==> entries@[j].1.script_path@ != path@,
                },
            decreases entries@.len() - i,
        {
            if found.is_none() && str_eq(entries[i].1.script_path.as_str(), path) {
                found = Some(entries[i].0.clone());
                proof {
                    fidx = i as int;
                }
            }
            i += 1;
        }
        let id = match found {
            Some(id) => id,
            None => {
                return ;
            }
        };
        let category = match self.definitions.get(id.as_str()) {
            Some(d) => d.meta.category.clone(),
            None => {
                proof {
                    pre.definitions.lemma_key_index(fidx);
                    assert(pre.definitions.has_key(id@));
                    assert(false);
                }
                return ;
            }
        };
        self.definitions.remove(id.as_str());
        proof {
            assert forall|i2: int|
                (0 <= i2 < pre.definitions.list().len() && (#[trigger] pre.definitions.list()[
                i2]).1.script_path@ == path@ && (forall|j: int|
                    0 <= j < i2 ==> pre.definitions.list()[j].1.script_path@ != path@))
                implies self.definitions.spec_map() == pre.definitions.spec_map().remove(
                pre.definitions.list()[i2].0@,
            ) by {
                if i2 < fidx {
                    assert(pre.definitions.list()[i2].1.script_path@ != path@);
                } else if fidx < i2 {
                    assert(pre.definitions.list()[fidx].1.script_path@ != path@);
                }
            }
        }
        // Drop the identifier from its category's list.
        match self.categories.get(category.as_str()) {
            Some(ids) => {
                let mut kept: Vec<String> = Vec::new();
                let mut j: usize = 0;
                let n = ids.len();
                let old_ids = ids.clone();
                while j < n
                    invariant
                        n == old_ids@.len(),
                        j <= n,
                    decreases n - j,
                {
                    if !str_eq(old_ids[j].as_str(), id.as_str()) {
                        kept.push(old_ids[j].clone());
                    }
                    j += 1;
                }
                self.categories.insert(category, kept);
            }
            None => {}
        }
    }
}

/// The player's in-memory registry: parsed definitions and their source
/// text, both by script identifier.
#[derive(Debug)]
pub struct MemoryRegistry {
    pub definitions: KvMap<BlockDefinition>,
    pub sources: KvMap<String>,
}

impl MemoryRegistry {
    /// Both maps have unique keys.
    pub open spec fn wf(&self) -> bool {
        self.definitions.wf() && self.sources.wf()
    }

    /// An empty registry.
    pub fn new() -> (r: MemoryRegistry)
        ensures
            r.wf(),
            r.definitions.list().len() == 0,
            r.sources.list().len() == 0,
    {
        MemoryRegistry { definitions: KvMap::new(), sources: KvMap::new() }
    }

    /// Stores one script's parsed definition and source.
    pub fn insert(&mut self, script_id: String, definition: BlockDefinition, source: String)
        requires
            old(self).wf(),
        ensures
            final(self).wf(),
            final(self).definitions.has_key(script_id@),
            final(self).definitions.spec_map()[script_id@] == definition,
            final(self).sources.has_key(script_id@),
            final(self).sources.spec_map()[script_id@]@ == source@,
    {
        let sid = script_id.clone();
        self.definitions.insert(script_id, definition);
        self.sources.insert(sid, source);
    }

    /// Looks a definition up.
    pub fn get(&self, id: &str) -> (r: Option<&BlockDefinition>)
        requires
            self.wf(),
        ensures
            match r {
                Some(d) => self.definitions.has_key(id@) && *d == self.definitions.spec_map()[id@],
                None => !self.definitions.has_key(id@),
            },
    {
        self.definitions.get(id)
    }

    /// Looks a script's source text up.
    pub fn get_source(&self, id: &str) -> (r: Option<&String>)
        requires
            self.wf(),
        ensures
            match r {
                Some(s) => self.sources.has_key(id@) && s@ == self.sources.spec_map()[id@]@,
                None => !self.sources.has_key(id@),
            },
    {
        self.sources.get(id)
    }
}

} // verus!
