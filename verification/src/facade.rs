//! The outward-facing handle: a store together with an optional backing
//! file path and an auto-save flag.
//!
//! The handle never touches the file system itself. Its constructor
//! takes the backing file's contents when the file exists, and its
//! `save` hands back the rendered text for the caller to write out; a
//! caller that wants auto-save renders once more when it lets go of the
//! handle.

use vstd::prelude::*;
use crate::collection::BoomCollection;
use crate::collection::BoomEntry;
use crate::collection::CollectionModel;
use crate::collection::EntryModel;
use crate::collection::has_key;
use crate::collection::key_at;
use crate::collection::spec_remove;
use crate::collection::spec_displaced;
use crate::collection::entry_models;
use crate::collection::unique_keys;
use crate::store::BoomData;
use crate::store::coll_models;
use crate::store::has_name;
use crate::store::name_at;
use crate::store::spec_remove_coll;
use crate::store::spec_displaced_coll;
use crate::store::spec_insert_coll;
use crate::codec::render;
use crate::codec::p_doc;

verus! {

/// The top-level handle that owns the dataset, the optional backing file
/// path (absent in pure in-memory mode) and the auto-save policy.
#[derive(Debug)]
pub struct Boom {
    pub data: BoomData,
    pub file: Option<String>,
    pub auto_save: bool,
}

impl Boom {
    /// Well-formedness of the owned dataset.
    pub open spec fn wf(&self) -> bool {
        self.data.wf()
    }

    /// A handle bound to a file path. `content` holds the file's text
    /// when the file exists; an absent file is the first-run path and
    /// yields an empty store. Nothing is yielded when a present text is
    /// corrupt, which the caller treats as fatal.
    pub fn new(file: String, auto_save: bool, content: Option<&str>) -> (r: Option<Boom>)
        ensures
            match r {
                Some(b) => b.file == Some(file) && b.auto_save == auto_save && b.wf() && (match content {
                    None => b.data@ == Seq::<CollectionModel>::empty(),
                    Some(t) => p_doc(t@) == Some(b.data@),
                }),
                None => content matches Some(t) && !(p_doc(t@) matches Some(m)
                    && crate::store::store_wf(m)),
            },
            content is None ==> r is Some,
    {
        match BoomData::load(content) {
            None => None,
            Some(data) => Some(Boom { data, file: Some(file), auto_save }),
        }
    }

    /// A pure in-memory handle: empty store, no path, auto-save off;
    /// saving is a no-op.
    pub fn mem() -> (r: Boom)
        ensures
            r.data@ == Seq::<CollectionModel>::empty(),
            r.file is None,
            r.auto_save == false,
            r.wf(),
    {
        let r = Boom { data: BoomData { data: Vec::new() }, file: None, auto_save: false };
        proof {
            assert(r.data@ =~= Seq::<CollectionModel>::empty());
        }
        r
    }

    /// A snapshot copy of every collection, in storage order.
    pub fn all(&self) -> (r: Vec<BoomCollection>)
        ensures
            coll_models(r@) == self.data@,
    {
        let mut r: Vec<BoomCollection> = Vec::new();
        let mut i: usize = 0;
        while i < self.data.data.len()
            invariant
                0 <= i <= self.data.data.len(),
                r@.len() == i,
                forall|m: int| 0 <= m < i ==> r@[m]@ == coll_models(self.data.data@)[m],
            decreases self.data.data.len() - i,
        {
            r.push(self.data.data[i].clone());
            i += 1;
        }
        proof {
            assert(coll_models(r@) =~= self.data@);
        }
        r
    }

    /// The rendered text to persist, when a backing path is remembered;
    /// nothing in memory-only mode. The caller writes the text to the
    /// remembered path in full.
    pub fn save(&self) -> (r: Option<String>)
        ensures
            match r {
                Some(t) => self.file is Some && t@ == render(self.data@),
                None => self.file is None,
            },
    {
        match &self.file {
            Some(_) => Some(self.data.save()),
            None => None,
        }
    }

    /// The collection with a matching name, if one exists.
    pub fn get(&self, collection: &str) -> (r: Option<&BoomCollection>)
        ensures
            match r {
                Some(c) => has_name(self.data@, collection@) && c@ == self.data@[name_at(
                    self.data@,
                    collection@,
                )],
                None => !has_name(self.data@, collection@),
            },
    {
        self.data.get(collection)
    }

    /// The collection with a matching name as a mutable borrow, if one
    /// exists.
    pub fn get_mut(&mut self, collection: &str) -> (r: Option<&mut BoomCollection>)
        ensures
            final(self).file == old(self).file,
            final(self).auto_save == old(self).auto_save,
            has_name(old(self).data@, collection@) ==> r.is_some() && (*r.unwrap())@ == old(
                self,
            ).data@[name_at(old(self).data@, collection@)] && final(self).data.data@ == old(
                self,
            ).data.data@.update(name_at(old(self).data@, collection@), *final(r.unwrap())),
            !has_name(old(self).data@, collection@) ==> r.is_none() && *final(self) == *old(
                self,
            ),
    {
        self.data.get_mut(collection)
    }

    /// The entry under `entry` within the collection named `collection`;
    /// nothing when either lookup misses.
    pub fn get_collection_entry(&self, collection: &str, entry: &str) -> (r: Option<&BoomEntry>)
        ensures
            match r {
                Some(e) => has_name(self.data@, collection@) && has_key(
                    self.data@[name_at(self.data@, collection@)].entries,
                    entry@,
                ) && e@ == self.data@[name_at(self.data@, collection@)].entries[key_at(
                    self.data@[name_at(self.data@, collection@)].entries,
                    entry@,
                )],
                None => !has_name(self.data@, collection@) || !has_key(
                    self.data@[name_at(self.data@, collection@)].entries,
                    entry@,
                ),
            },
    {
        match self.data.get(collection) {
            None => None,
            Some(collect) => collect.get(entry),
        }
    }

    /// Removes and returns the collection with this name, if it exists.
    pub fn delete_collection(&mut self, collection: &str) -> (r: Option<BoomCollection>)
        ensures
            final(self).file == old(self).file,
            final(self).auto_save == old(self).auto_save,
            final(self).data@ == spec_remove_coll(old(self).data@, collection@),
            match r {
                Some(c) => spec_displaced_coll(old(self).data@, collection@) == Some(c@),
                None => spec_displaced_coll(old(self).data@, collection@) is None,
            },
            old(self).wf() ==> final(self).wf(),
    {
        self.data.remove(collection)
    }

    /// Removes and returns the entry under `entry` within the collection
    /// named `collection`; nothing when either lookup misses.
    pub fn delete_collection_entry(&mut self, collection: &str, entry: &str) -> (r: Option<
        BoomEntry,
    >)
        ensures
            final(self).file == old(self).file,
            final(self).auto_save == old(self).auto_save,
            !has_name(old(self).data@, collection@) ==> r.is_none() && *final(self) == *old(
                self,
            ),
            has_name(old(self).data@, collection@) ==> {
                let i = name_at(old(self).data@, collection@);
                let es = old(self).data@[i].entries;
                final(self).data@ == old(self).data@.update(
                    i,
                    (CollectionModel { name: old(self).data@[i].name, entries: spec_remove(es, entry@) }),
                ) && (match r {
                    Some(e) => spec_displaced(es, entry@) == Some(e@),
                    None => spec_displaced(es, entry@) is None,
                })
            },
    {
        let ghost ds = self.data@;
        match self.data.get_pos(collection) {
            None => None,
            Some(ix) => {
                let r = self.data.data[ix].remove(entry);
                proof {
                    let i = ix as int;
                    assert(coll_models(self.data.data@) =~= ds.update(
                        i,
                        (CollectionModel {
                            name: ds[i].name,
                            entries: spec_remove(ds[i].entries, entry@),
                        }),
                    ));
                }
                r
            },
        }
    }

    /// Creates an empty collection under this name; any prior collection
    /// with the name is displaced and returned.
    pub fn create_collection(&mut self, collection: String) -> (r: Option<BoomCollection>)
        ensures
            final(self).file == old(self).file,
            final(self).auto_save == old(self).auto_save,
            final(self).data@ == spec_insert_coll(
                old(self).data@,
                (CollectionModel { name: collection@, entries: Seq::<EntryModel>::empty() }),
            ),
            match r {
                Some(c) => spec_displaced_coll(old(self).data@, collection@) == Some(c@),
                None => spec_displaced_coll(old(self).data@, collection@) is None,
            },
            old(self).wf() ==> final(self).wf(),
    {
        let vs: Vec<BoomEntry> = Vec::new();
        proof {
            assert(entry_models(vs@) =~= Seq::<EntryModel>::empty());
            assert(unique_keys(entry_models(vs@)));
        }
        self.data.insert(collection, vs)
    }

    /// Inserts a pre-built collection; any prior collection with its
    /// name is displaced and returned.
    pub fn insert_collection(&mut self, collection: BoomCollection) -> (r: Option<
        BoomCollection,
    >)
        ensures
            final(self).file == old(self).file,
            final(self).auto_save == old(self).auto_save,
            final(self).data@ == spec_insert_coll(old(self).data@, collection@),
            match r {
                Some(c) => spec_displaced_coll(old(self).data@, collection.collection@) == Some(
                    c@,
                ),
                None => spec_displaced_coll(old(self).data@, collection.collection@) is None,
            },
            old(self).wf() && unique_keys(collection@.entries) ==> final(self).wf(),
    {
        self.data.insert_collection(collection)
    }

    /// The collection stored under this name. Unchecked convenience
    /// accessor: the name must be present: a verified caller proves it,
    /// and a call from outside the verifier that breaks the contract is
    /// stopped by an abort, never handed a default or empty value.
    pub fn index(&self, collection: &str) -> (r: &BoomCollection)
        requires
            has_name(self.data@, collection@),
        ensures
            r@ == self.data@[name_at(self.data@, collection@)],
    {
        self.data.index(collection)
    }
}

} // verus!
