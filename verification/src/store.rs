//! The full dataset: an ordered sequence of collections with (when
//! well-formed) pairwise distinct names.
//!
//! The contract mirrors the one of a single collection, keyed by
//! collection name instead of entry key: linear-scan lookup of the first
//! collection with a matching name, insertion order preserved, and a
//! replacement removing the old collection and appending the new one at
//! the end.

use vstd::prelude::*;
use crate::collection::BoomCollection;
use crate::collection::BoomEntry;
use crate::collection::CollectionModel;
use crate::collection::entry_models;
use crate::collection::str_eq;
use crate::collection::unique_keys;

verus! {

/// The whole dataset, in storage order.
#[derive(Debug)]
pub struct BoomData {
    pub data: Vec<BoomCollection>,
}

/// The models of a sequence of collections, element by element.
pub open spec fn coll_models(vs: Seq<BoomCollection>) -> Seq<CollectionModel> {
    vs.map_values(|c: BoomCollection| c@)
}

impl View for BoomData {
    type V = Seq<CollectionModel>;

    open spec fn view(&self) -> Seq<CollectionModel> {
        coll_models(self.data@)
    }
}

/// Index of the first collection whose name is `n`, or `-1` if none has
/// it.
pub open spec fn name_at(ds: Seq<CollectionModel>, n: Seq<char>) -> int
    decreases ds.len(),
{
    if ds.len() == 0 {
        -1
    } else if ds[0].name == n {
        0
    } else if name_at(ds.drop_first(), n) < 0 {
        -1
    } else {
        name_at(ds.drop_first(), n) + 1
    }
}

/// Whether some collection has name `n`.
pub open spec fn has_name(ds: Seq<CollectionModel>, n: Seq<char>) -> bool {
    name_at(ds, n) >= 0
}

/// No two collections share a name.
pub open spec fn unique_names(ds: Seq<CollectionModel>) -> bool {
    forall|i: int, j: int| 0 <= i < j < ds.len() ==> ds[i].name != ds[j].name
}

/// A well-formed dataset: names pairwise distinct, and each collection
/// well-formed in turn.
pub open spec fn store_wf(ds: Seq<CollectionModel>) -> bool {
    unique_names(ds) && forall|i: int| 0 <= i < ds.len() ==> unique_keys(ds[i].entries)
}

/// `name_at` points at the first collection with name `n` when one
/// exists, and at nothing exactly when no collection has `n`.
pub proof fn lemma_name_at(ds: Seq<CollectionModel>, n: Seq<char>)
    ensures
        has_name(ds, n) ==> 0 <= name_at(ds, n) < ds.len(),
        has_name(ds, n) ==> ds[name_at(ds, n)].name == n,
        has_name(ds, n) ==> forall|j: int| 0 <= j < name_at(ds, n) ==> ds[j].name != n,
        !has_name(ds, n) ==> forall|j: int| 0 <= j < ds.len() ==> ds[j].name != n,
    decreases ds.len(),
{
    if ds.len() == 0 {
    } else if ds[0].name == n {
    } else {
        lemma_name_at(ds.drop_first(), n);
        assert forall|j: int| 1 <= j < ds.len() implies ds.drop_first()[j - 1] == ds[j] by {}
    }
}

/// Any index that holds `n` with no earlier occurrence is where
/// `name_at` points.
pub proof fn lemma_name_at_first(ds: Seq<CollectionModel>, n: Seq<char>, i: int)
    requires
        0 <= i < ds.len(),
        ds[i].name == n,
        forall|j: int| 0 <= j < i ==> ds[j].name != n,
    ensures
        name_at(ds, n) == i,
    decreases ds.len(),
{
    if i == 0 {
    } else {
        assert(ds[0].name != n);
        assert forall|j: int| 0 <= j < i - 1 implies ds.drop_first()[j].name != n by {
            assert(ds.drop_first()[j] == ds[j + 1]);
        }
        assert(ds.drop_first()[i - 1] == ds[i]);
        lemma_name_at_first(ds.drop_first(), n, i - 1);
    }
}

/// A name is present exactly when some index holds it.
pub proof fn lemma_has_name_iff(ds: Seq<CollectionModel>, n: Seq<char>)
    ensures
        has_name(ds, n) <==> exists|i: int| 0 <= i < ds.len() && ds[i].name == n,
{
    lemma_name_at(ds, n);
    if has_name(ds, n) {
        assert(ds[name_at(ds, n)].name == n);
    }
}

/// The dataset after removing name `n`: the first collection holding it
/// leaves, or nothing changes when the name is absent.
pub open spec fn spec_remove_coll(ds: Seq<CollectionModel>, n: Seq<char>) -> Seq<
    CollectionModel,
> {
    if has_name(ds, n) {
        ds.remove(name_at(ds, n))
    } else {
        ds
    }
}

/// The collection that an insert of name `n` displaces: the first
/// collection holding `n`, if any.
pub open spec fn spec_displaced_coll(ds: Seq<CollectionModel>, n: Seq<char>) -> Option<
    CollectionModel,
> {
    if has_name(ds, n) {
        Some(ds[name_at(ds, n)])
    } else {
        None
    }
}

/// The dataset after inserting collection `c`: any prior collection with
/// its name leaves, and `c` goes at the end.
pub open spec fn spec_insert_coll(ds: Seq<CollectionModel>, c: CollectionModel) -> Seq<
    CollectionModel,
> {
    spec_remove_coll(ds, c.name).push(c)
}

/// The dataset after inserting each collection of `cs` in order.
pub open spec fn spec_insert_many_coll(
    ds: Seq<CollectionModel>,
    cs: Seq<CollectionModel>,
) -> Seq<CollectionModel>
    decreases cs.len(),
{
    if cs.len() == 0 {
        ds
    } else {
        spec_insert_many_coll(spec_insert_coll(ds, cs[0]), cs.drop_first())
    }
}

/// The collections displaced while inserting each collection of `cs` in
/// order, in the order they were displaced.
pub open spec fn spec_displaced_many_coll(
    ds: Seq<CollectionModel>,
    cs: Seq<CollectionModel>,
) -> Seq<CollectionModel>
    decreases cs.len(),
{
    if cs.len() == 0 {
        Seq::empty()
    } else {
        (match spec_displaced_coll(ds, cs[0].name) {
            Some(c) => seq![c],
            None => Seq::empty(),
        }) + spec_displaced_many_coll(spec_insert_coll(ds, cs[0]), cs.drop_first())
    }
}

/// Unfolding a many-insert at its last collection: the ones before it go
/// in first, then the last one.
pub proof fn lemma_many_coll_unfold(ds: Seq<CollectionModel>, q: Seq<CollectionModel>)
    requires
        q.len() > 0,
    ensures
        spec_insert_many_coll(ds, q) == spec_insert_coll(
            spec_insert_many_coll(ds, q.drop_last()),
            q.last(),
        ),
        spec_displaced_many_coll(ds, q) == spec_displaced_many_coll(ds, q.drop_last()) + (
        match spec_displaced_coll(spec_insert_many_coll(ds, q.drop_last()), q.last().name) {
            Some(c) => seq![c],
            None => Seq::<CollectionModel>::empty(),
        }),
    decreases q.len(),
{
    let ds1 = spec_insert_coll(ds, q[0]);
    let nil = Seq::<CollectionModel>::empty();
    let d0 = (match spec_displaced_coll(ds, q[0].name) {
        Some(c) => seq![c],
        None => Seq::<CollectionModel>::empty(),
    });
    if q.len() == 1 {
        assert(q.drop_last() =~= nil);
        assert(q.drop_first() =~= nil);
        assert(q.last() == q[0]);
        assert(spec_insert_many_coll(ds1, nil) == ds1);
        assert(spec_insert_many_coll(ds, nil) == ds);
        assert(spec_insert_many_coll(ds, q) == ds1);
        assert(spec_displaced_many_coll(ds1, nil) == nil);
        assert(spec_displaced_many_coll(ds, nil) == nil);
        assert(spec_displaced_many_coll(ds, q) == d0 + nil);
        assert(d0 + nil =~= nil + d0);
    } else {
        lemma_many_coll_unfold(ds1, q.drop_first());
        assert(q.drop_first().drop_last() =~= q.drop_last().drop_first());
        assert(q.drop_first().last() == q.last());
        assert(q.drop_last()[0] == q[0]);
        assert(q.drop_last().len() > 0);
        assert(spec_insert_many_coll(ds, q.drop_last()) == spec_insert_many_coll(
            ds1,
            q.drop_last().drop_first(),
        ));
        assert(spec_insert_many_coll(ds, q) == spec_insert_many_coll(ds1, q.drop_first()));
        assert(spec_displaced_many_coll(ds, q) == d0 + spec_displaced_many_coll(
            ds1,
            q.drop_first(),
        ));
        assert(spec_displaced_many_coll(ds, q.drop_last()) == d0 + spec_displaced_many_coll(
            ds1,
            q.drop_last().drop_first(),
        ));
        let tail = (match spec_displaced_coll(
            spec_insert_many_coll(ds, q.drop_last()),
            q.last().name,
        ) {
            Some(c) => seq![c],
            None => Seq::<CollectionModel>::empty(),
        });
        assert(spec_displaced_many_coll(ds1, q.drop_first()) == spec_displaced_many_coll(
            ds1,
            q.drop_first().drop_last(),
        ) + tail);
        assert(d0 + (spec_displaced_many_coll(ds1, q.drop_first().drop_last()) + tail) =~= (d0
            + spec_displaced_many_coll(ds1, q.drop_last().drop_first())) + tail);
    }
}

/// Removing an index keeps the remaining names, so uniqueness survives;
/// and each remaining collection is untouched.
pub proof fn lemma_store_wf_remove(ds: Seq<CollectionModel>, i: int)
    requires
        store_wf(ds),
        0 <= i < ds.len(),
    ensures
        store_wf(ds.remove(i)),
{
    assert forall|a: int, b: int| 0 <= a < b < ds.remove(i).len() implies ds.remove(i)[a].name
        != ds.remove(i)[b].name by {
        let a0 = if a < i { a } else { a + 1 };
        let b0 = if b < i { b } else { b + 1 };
        assert(ds.remove(i)[a] == ds[a0]);
        assert(ds.remove(i)[b] == ds[b0]);
    }
    assert forall|a: int| 0 <= a < ds.remove(i).len() implies unique_keys(
        ds.remove(i)[a].entries,
    ) by {
        let a0 = if a < i { a } else { a + 1 };
        assert(ds.remove(i)[a] == ds[a0]);
    }
}

/// After removing name `n` from a well-formed dataset, `n` is gone.
pub proof fn lemma_remove_coll_erases(ds: Seq<CollectionModel>, n: Seq<char>)
    requires
        unique_names(ds),
    ensures
        !has_name(spec_remove_coll(ds, n), n),
{
    lemma_name_at(ds, n);
    if has_name(ds, n) {
        let i = name_at(ds, n);
        let ds2 = ds.remove(i);
        assert forall|j: int| 0 <= j < ds2.len() implies ds2[j].name != n by {
            if j < i {
                assert(ds2[j] == ds[j]);
            } else {
                assert(ds2[j] == ds[j + 1]);
            }
        }
        lemma_has_name_iff(ds2, n);
    }
}

/// Inserting a well-formed collection into a well-formed dataset keeps
/// the dataset well-formed.
pub proof fn lemma_store_wf_insert(ds: Seq<CollectionModel>, c: CollectionModel)
    requires
        store_wf(ds),
        unique_keys(c.entries),
    ensures
        store_wf(spec_insert_coll(ds, c)),
{
    lemma_name_at(ds, c.name);
    if has_name(ds, c.name) {
        lemma_store_wf_remove(ds, name_at(ds, c.name));
    }
    lemma_remove_coll_erases(ds, c.name);
    let base = spec_remove_coll(ds, c.name);
    lemma_has_name_iff(base, c.name);
    let ds2 = spec_insert_coll(ds, c);
    assert forall|a: int, b: int| 0 <= a < b < ds2.len() implies ds2[a].name != ds2[b].name by {
        if b == ds2.len() - 1 {
            assert(ds2[a] == base[a]);
        } else {
            assert(ds2[a] == base[a]);
            assert(ds2[b] == base[b]);
        }
    }
    assert forall|a: int| 0 <= a < ds2.len() implies unique_keys(ds2[a].entries) by {
        if a < ds2.len() - 1 {
            assert(ds2[a] == base[a]);
        }
    }
}

/// Collection models commute with removing an index.
pub proof fn lemma_coll_models_remove(vs: Seq<BoomCollection>, i: int)
    requires
        0 <= i < vs.len(),
    ensures
        coll_models(vs.remove(i)) == coll_models(vs).remove(i),
{
    assert(coll_models(vs.remove(i)) =~= coll_models(vs).remove(i));
}

/// Collection models commute with appending a collection.
pub proof fn lemma_coll_models_push(vs: Seq<BoomCollection>, c: BoomCollection)
    ensures
        coll_models(vs.push(c)) == coll_models(vs).push(c@),
{
    assert(coll_models(vs.push(c)) =~= coll_models(vs).push(c@));
}

impl BoomData {
    /// Well-formedness: names pairwise distinct, each collection
    /// well-formed.
    pub open spec fn wf(&self) -> bool {
        store_wf(self@)
    }

    /// All of the collection names, in storage order.
    pub fn keys(&self) -> (r: Vec<String>)
        ensures
            r@.len() == self@.len(),
            forall|i: int| 0 <= i < r@.len() ==> r@[i]@ == self@[i].name,
    {
        let mut r: Vec<String> = Vec::new();
        let mut i: usize = 0;
        while i < self.data.len()
            invariant
                0 <= i <= self.data.len(),
                r@.len() == i,
                forall|m: int| 0 <= m < i ==> r@[m]@ == coll_models(self.data@)[m].name,
            decreases self.data.len() - i,
        {
            r.push(self.data[i].collection.clone());
            i += 1;
        }
        r
    }

    /// Position of the first collection with a matching name, if any.
    pub(crate) fn get_pos(&self, collection: &str) -> (r: Option<usize>)
        ensures
            match r {
                Some(i) => 0 <= i < self@.len() && name_at(self@, collection@) == i,
                None => !has_name(self@, collection@),
            },
    {
        let mut i: usize = 0;
        while i < self.data.len()
            invariant
                0 <= i <= self.data.len(),
                forall|m: int| 0 <= m < i ==> coll_models(self.data@)[m].name != collection@,
            decreases self.data.len() - i,
        {
            if str_eq(self.data[i].collection.as_str(), collection) {
                proof {
                    lemma_name_at_first(self@, collection@, i as int);
                }
                return Some(i);
            }
            i += 1;
        }
        proof {
            lemma_has_name_iff(self@, collection@);
        }
        None
    }

    /// Whether a collection with this name exists.
    pub fn contains_key(&self, collection: &str) -> (r: bool)
        ensures
            r == has_name(self@, collection@),
    {
        self.get_pos(collection).is_some()
    }

    /// The collection with a matching name, if one exists; no side
    /// effect.
    pub fn get(&self, collection: &str) -> (r: Option<&BoomCollection>)
        ensures
            match r {
                Some(c) => has_name(self@, collection@) && c@ == self@[name_at(
                    self@,
                    collection@,
                )],
                None => !has_name(self@, collection@),
            },
    {
        match self.get_pos(collection) {
            Some(i) => Some(&self.data[i]),
            None => None,
        }
    }

    /// Removes the collection with this name and returns it, if it
    /// exists; otherwise a no-op returning nothing.
    pub fn remove(&mut self, collection: &str) -> (r: Option<BoomCollection>)
        ensures
            final(self)@ == spec_remove_coll(old(self)@, collection@),
            match r {
                Some(c) => spec_displaced_coll(old(self)@, collection@) == Some(c@),
                None => spec_displaced_coll(old(self)@, collection@) is None,
            },
            old(self).wf() ==> final(self).wf(),
    {
        proof {
            if old(self).wf() {
                lemma_name_at(old(self)@, collection@);
                if has_name(old(self)@, collection@) {
                    lemma_store_wf_remove(old(self)@, name_at(old(self)@, collection@));
                }
            }
        }
        match self.get_pos(collection) {
            None => None,
            Some(i) => {
                let c = self.data.remove(i);
                proof {
                    lemma_coll_models_remove(old(self).data@, i as int);
                }
                Some(c)
            },
        }
    }

    /// The collection with a matching name as a mutable borrow, enabling
    /// in-place mutation, if such a collection exists.
    pub fn get_mut(&mut self, collection: &str) -> (r: Option<&mut BoomCollection>)
        ensures
            has_name(old(self)@, collection@) ==> r.is_some() && (*r.unwrap())@ == old(
                self,
            )@[name_at(old(self)@, collection@)] && final(self).data@ == old(
                self,
            ).data@.update(name_at(old(self)@, collection@), *final(r.unwrap())),
            !has_name(old(self)@, collection@) ==> r.is_none() && *final(self) == *old(self),
    {
        match self.get_pos(collection) {
            Some(i) => Some(&mut self.data[i]),
            None => None,
        }
    }

    /// Inserts a collection named `key` holding `value`. Any prior
    /// collection with this name is removed and returned as the
    /// displaced collection, and the new one is appended at the end.
    pub fn insert(&mut self, key: String, value: Vec<BoomEntry>) -> (r: Option<BoomCollection>)
        ensures
            final(self)@ == spec_insert_coll(
                old(self)@,
                (CollectionModel { name: key@, entries: entry_models(value@) }),
            ),
            match r {
                Some(c) => spec_displaced_coll(old(self)@, key@) == Some(c@),
                None => spec_displaced_coll(old(self)@, key@) is None,
            },
            old(self).wf() && unique_keys(entry_models(value@)) ==> final(self).wf(),
    {
        proof {
            if old(self).wf() && unique_keys(entry_models(value@)) {
                lemma_store_wf_insert(
                    old(self)@,
                    CollectionModel { name: key@, entries: entry_models(value@) },
                );
            }
        }
        match self.get_pos(key.as_str()) {
            None => {
                let ghost mid = self.data@;
                let c = BoomCollection { collection: key, values: value };
                self.data.push(c);
                proof {
                    lemma_coll_models_push(mid, c);
                }
                None
            },
            Some(i) => {
                let older = self.data.remove(i);
                proof {
                    lemma_coll_models_remove(old(self).data@, i as int);
                }
                let ghost mid = self.data@;
                let c = BoomCollection { collection: key, values: value };
                self.data.push(c);
                proof {
                    lemma_coll_models_push(mid, c);
                }
                Some(older)
            },
        }
    }

    /// Same as `insert`, from a pre-built collection.
    pub fn insert_collection(&mut self, collection: BoomCollection) -> (r: Option<
        BoomCollection,
    >)
        ensures
            final(self)@ == spec_insert_coll(old(self)@, collection@),
            match r {
                Some(c) => spec_displaced_coll(old(self)@, collection.collection@) == Some(c@),
                None => spec_displaced_coll(old(self)@, collection.collection@) is None,
            },
            old(self).wf() && unique_keys(collection@.entries) ==> final(self).wf(),
    {
        proof {
            if old(self).wf() && unique_keys(collection@.entries) {
                lemma_store_wf_insert(old(self)@, collection@);
            }
        }
        match self.get_pos(collection.collection.as_str()) {
            None => {
                let ghost mid = self.data@;
                self.data.push(collection);
                proof {
                    lemma_coll_models_push(mid, collection);
                }
                None
            },
            Some(i) => {
                let older = self.data.remove(i);
                proof {
                    lemma_coll_models_remove(old(self).data@, i as int);
                }
                let ghost mid = self.data@;
                self.data.push(collection);
                proof {
                    lemma_coll_models_push(mid, collection);
                }
                Some(older)
            },
        }
    }

    /// Applies `insert` to each `(name, entries)` pair in input order and
    /// collects the displaced collections, in the order displaced;
    /// returns nothing when every insertion was fresh.
    pub fn insert_many(&mut self, collections: Vec<(String, Vec<BoomEntry>)>) -> (r: Option<
        Vec<BoomCollection>,
    >)
        ensures
            final(self)@ == spec_insert_many_coll(old(self)@, cpair_models(collections@)),
            match r {
                Some(v) => coll_models(v@) == spec_displaced_many_coll(
                    old(self)@,
                    cpair_models(collections@),
                ) && v@.len() > 0,
                None => spec_displaced_many_coll(old(self)@, cpair_models(collections@)).len()
                    == 0,
            },
            old(self).wf() && (forall|i: int|
                0 <= i < collections@.len() ==> unique_keys(cpair_models(collections@)[i].entries))
                ==> final(self).wf(),
    {
        let ghost orig = collections@;
        let mut built: Vec<BoomCollection> = Vec::new();
        let mut rest = collections;
        while rest.len() > 0
            invariant
                built@.len() + rest@.len() == orig.len(),
                rest@ =~= orig.skip(built@.len() as int),
                coll_models(built@) =~= cpair_models(orig).take(built@.len() as int),
            decreases rest@.len(),
        {
            let ghost i = built@.len() as int;
            let ghost before = built@;
            let p = rest.remove(0);
            proof {
                assert(rest@ =~= orig.skip(i + 1));
                assert(p == orig[i]);
            }
            built.push(BoomCollection { collection: p.0, values: p.1 });
            proof {
                let c = built@.last();
                assert(built@ =~= before.push(c));
                assert(c@ == cpair_models(orig)[i]);
                assert(cpair_models(orig).take(i).len() == i);
                assert(coll_models(built@).len() == i + 1);
                assert forall|m: int| 0 <= m < i + 1 implies coll_models(built@)[m]
                    == cpair_models(orig).take(i + 1)[m] by {
                    assert(coll_models(built@)[m] == built@[m]@);
                    if m < i {
                        assert(built@[m] == before[m]);
                        assert(coll_models(before)[m] == cpair_models(orig).take(i)[m]);
                    } else {
                        assert(built@[m] == c);
                    }
                }
                assert(coll_models(built@) =~= cpair_models(orig).take(i + 1));
            }
        }
        proof {
            assert(coll_models(built@) =~= cpair_models(orig));
        }
        self.insert_many_collections(built)
    }

    /// Applies `insert_collection` to each collection in input order and
    /// collects the displaced collections, in the order displaced;
    /// returns nothing when every insertion was fresh.
    pub fn insert_many_collections(&mut self, collections: Vec<BoomCollection>) -> (r: Option<
        Vec<BoomCollection>,
    >)
        ensures
            final(self)@ == spec_insert_many_coll(old(self)@, coll_models(collections@)),
            match r {
                Some(v) => coll_models(v@) == spec_displaced_many_coll(
                    old(self)@,
                    coll_models(collections@),
                ) && v@.len() > 0,
                None => spec_displaced_many_coll(old(self)@, coll_models(collections@)).len()
                    == 0,
            },
            old(self).wf() && (forall|i: int|
                0 <= i < collections@.len() ==> unique_keys(coll_models(collections@)[i].entries))
                ==> final(self).wf(),
    {
        let ghost orig = self@;
        let ghost cs = coll_models(collections@);
        let mut results: Vec<BoomCollection> = Vec::new();
        let mut rest = collections;
        let ghost total = cs.len();
        while rest.len() > 0
            invariant
                total == cs.len(),
                rest@.len() <= total,
                coll_models(rest@) =~= cs.skip(total - rest@.len() as int),
                self@ == spec_insert_many_coll(orig, cs.take(total - rest@.len() as int)),
                coll_models(results@) == spec_displaced_many_coll(
                    orig,
                    cs.take(total - rest@.len() as int),
                ),
                store_wf(orig) && (forall|i: int| 0 <= i < cs.len() ==> unique_keys(cs[i].entries))
                    ==> self.wf(),
            decreases rest@.len(),
        {
            let ghost i = total - rest@.len() as int;
            let ghost prior = rest@;
            let c = rest.remove(0);
            proof {
                broadcast use vstd::seq_lib::group_seq_properties;

                assert(0 <= i < total);
                assert(c == prior[0]);
                assert(c@ == coll_models(prior)[0]);
                assert(coll_models(prior)[0] == cs.skip(i)[0]);
                vstd::seq_lib::lemma_seq_skip_index::<CollectionModel>(cs, i, 0);
                assert(c@ == cs[i]);
                assert(rest@ == prior.remove(0));
                assert forall|m: int| 0 <= m < rest@.len() implies coll_models(rest@)[m]
                    == cs.skip(i + 1)[m] by {
                    assert(coll_models(rest@)[m] == rest@[m]@);
                    assert(rest@[m] == prior[m + 1]);
                    assert(prior[m + 1]@ == coll_models(prior)[m + 1]);
                    assert(coll_models(prior)[m + 1] == cs.skip(i)[m + 1]);
                }
                assert(coll_models(rest@) =~= cs.skip(i + 1));
                assert(cs.take(i + 1).drop_last() =~= cs.take(i));
                assert(cs.take(i + 1).last() == cs[i]);
                lemma_many_coll_unfold(orig, cs.take(i + 1));
            }
            match self.insert_collection(c) {
                Some(oldc) => {
                    let ghost before = results@;
                    results.push(oldc);
                    proof {
                        lemma_coll_models_push(before, oldc);
                        assert(coll_models(results@) =~= spec_displaced_many_coll(
                            orig,
                            cs.take(i + 1),
                        ));
                    }
                },
                None => {
                    proof {
                        assert(coll_models(results@) =~= spec_displaced_many_coll(
                            orig,
                            cs.take(i + 1),
                        ));
                    }
                },
            }
        }
        proof {
            assert(cs.take(total as int) =~= cs);
        }
        if results.is_empty() {
            proof {
                assert(coll_models(results@) =~= Seq::<CollectionModel>::empty());
            }
            None
        } else {
            Some(results)
        }
    }

    /// The collection stored under this name. Unchecked convenience
    /// accessor: the name must be present: a verified caller proves it,
    /// and a call from outside the verifier that breaks the contract is
    /// stopped by an abort, never handed a default or empty value.
    pub fn index(&self, collection: &str) -> (r: &BoomCollection)
        requires
            has_name(self@, collection@),
        ensures
            r@ == self@[name_at(self@, collection@)],
    {
        match self.get_pos(collection) {
            Some(i) => &self.data[i],
            None => vstd::pervasive::unreached(),
        }
    }
}

/// The models of a sequence of `(name, entries)` pairs.
pub open spec fn cpair_models(ps: Seq<(String, Vec<BoomEntry>)>) -> Seq<CollectionModel> {
    ps.map_values(
        |p: (String, Vec<BoomEntry>)| CollectionModel { name: p.0@, entries: entry_models(p.1@) },
    )
}

} // verus!
