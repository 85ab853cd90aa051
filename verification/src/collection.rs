//! One named collection of key/value string pairs.
//!
//! Entries are kept in a sequence in insertion order; lookup is a linear
//! scan for the first entry with a matching key. A well-formed collection
//! never holds two entries with the same key, and every mutating operation
//! preserves that. Replacing an existing key removes the old entry and
//! appends the new one at the end, so a re-inserted key moves to the
//! most-recently-inserted position.

use vstd::prelude::*;

verus! {

/// Mathematical model of one entry: the key and the value as character
/// sequences.
pub struct EntryModel {
    pub key: Seq<char>,
    pub value: Seq<char>,
}

/// Mathematical model of one collection: its name and its entries, in
/// storage order.
pub struct CollectionModel {
    pub name: Seq<char>,
    pub entries: Seq<EntryModel>,
}

/// A key/value string pair. The key identifies the entry within its
/// owning collection; the value is freely replaceable.
#[derive(Debug)]
pub struct BoomEntry {
    pub key: String,
    pub value: String,
}

/// A named, ordered sequence of entries with (when well-formed) pairwise
/// distinct keys.
#[derive(Debug)]
pub struct BoomCollection {
    pub collection: String,
    pub values: Vec<BoomEntry>,
}

impl View for BoomEntry {
    type V = EntryModel;

    open spec fn view(&self) -> EntryModel {
        EntryModel { key: self.key@, value: self.value@ }
    }
}

/// The models of a sequence of entries, element by element.
pub open spec fn entry_models(vs: Seq<BoomEntry>) -> Seq<EntryModel> {
    vs.map_values(|e: BoomEntry| e@)
}

impl View for BoomCollection {
    type V = CollectionModel;

    open spec fn view(&self) -> CollectionModel {
        CollectionModel { name: self.collection@, entries: entry_models(self.values@) }
    }
}

/// Index of the first entry whose key is `k`, or `-1` if no entry has it.
pub open spec fn key_at(es: Seq<EntryModel>, k: Seq<char>) -> int
    decreases es.len(),
{
    if es.len() == 0 {
        -1
    } else if es[0].key == k {
        0
    } else if key_at(es.drop_first(), k) < 0 {
        -1
    } else {
        key_at(es.drop_first(), k) + 1
    }
}

/// Whether some entry has key `k`.
pub open spec fn has_key(es: Seq<EntryModel>, k: Seq<char>) -> bool {
    key_at(es, k) >= 0
}

/// No two entries share a key.
pub open spec fn unique_keys(es: Seq<EntryModel>) -> bool {
    forall|i: int, j: int| 0 <= i < j < es.len() ==> es[i].key != es[j].key
}

/// `key_at` points at the first entry with key `k` when one exists, and
/// at nothing exactly when no entry has `k`.
pub proof fn lemma_key_at(es: Seq<EntryModel>, k: Seq<char>)
    ensures
        has_key(es, k) ==> 0 <= key_at(es, k) < es.len(),
        has_key(es, k) ==> es[key_at(es, k)].key == k,
        has_key(es, k) ==> forall|j: int| 0 <= j < key_at(es, k) ==> es[j].key != k,
        !has_key(es, k) ==> forall|j: int| 0 <= j < es.len() ==> es[j].key != k,
    decreases es.len(),
{
    if es.len() == 0 {
    } else if es[0].key == k {
    } else {
        lemma_key_at(es.drop_first(), k);
        assert forall|j: int| 1 <= j < es.len() implies es.drop_first()[j - 1] == es[j] by {}
    }
}

/// Any index that holds `k` with no earlier occurrence is where `key_at`
/// points.
pub proof fn lemma_key_at_first(es: Seq<EntryModel>, k: Seq<char>, i: int)
    requires
        0 <= i < es.len(),
        es[i].key == k,
        forall|j: int| 0 <= j < i ==> es[j].key != k,
    ensures
        key_at(es, k) == i,
    decreases es.len(),
{
    if i == 0 {
    } else {
        assert(es[0].key != k);
        assert forall|j: int| 0 <= j < i - 1 implies es.drop_first()[j].key != k by {
            assert(es.drop_first()[j] == es[j + 1]);
        }
        assert(es.drop_first()[i - 1] == es[i]);
        lemma_key_at_first(es.drop_first(), k, i - 1);
    }
}

/// A key is present exactly when some index holds it.
pub proof fn lemma_has_key_iff(es: Seq<EntryModel>, k: Seq<char>)
    ensures
        has_key(es, k) <==> exists|i: int| 0 <= i < es.len() && es[i].key == k,
{
    lemma_key_at(es, k);
    if has_key(es, k) {
        assert(es[key_at(es, k)].key == k);
    }
}

/// The entries after removing key `k`: the first entry holding it leaves,
/// or nothing changes when the key is absent.
pub open spec fn spec_remove(es: Seq<EntryModel>, k: Seq<char>) -> Seq<EntryModel> {
    if has_key(es, k) {
        es.remove(key_at(es, k))
    } else {
        es
    }
}

/// The entry that an insert of key `k` displaces: the first entry holding
/// `k`, if any.
pub open spec fn spec_displaced(es: Seq<EntryModel>, k: Seq<char>) -> Option<EntryModel> {
    if has_key(es, k) {
        Some(es[key_at(es, k)])
    } else {
        None
    }
}

/// The entries after inserting `(k, v)`: any prior entry with key `k`
/// leaves, and the new entry goes at the end.
pub open spec fn spec_insert(es: Seq<EntryModel>, k: Seq<char>, v: Seq<char>) -> Seq<
    EntryModel,
> {
    spec_remove(es, k).push(EntryModel { key: k, value: v })
}

/// The entries after inserting each pair of `ps` in order.
pub open spec fn spec_insert_many(es: Seq<EntryModel>, ps: Seq<EntryModel>) -> Seq<EntryModel>
    decreases ps.len(),
{
    if ps.len() == 0 {
        es
    } else {
        spec_insert_many(spec_insert(es, ps[0].key, ps[0].value), ps.drop_first())
    }
}

/// The entries displaced while inserting each pair of `ps` in order, in
/// the order they were displaced.
pub open spec fn spec_displaced_many(es: Seq<EntryModel>, ps: Seq<EntryModel>) -> Seq<
    EntryModel,
>
    decreases ps.len(),
{
    if ps.len() == 0 {
        Seq::empty()
    } else {
        (match spec_displaced(es, ps[0].key) {
            Some(e) => seq![e],
            None => Seq::empty(),
        }) + spec_displaced_many(spec_insert(es, ps[0].key, ps[0].value), ps.drop_first())
    }
}

/// The models of a sequence of key/value string pairs.
pub open spec fn pair_models(ps: Seq<(String, String)>) -> Seq<EntryModel> {
    ps.map_values(|p: (String, String)| EntryModel { key: p.0@, value: p.1@ })
}

/// Unfolding a many-insert at its last pair: the pairs before it go in
/// first, then the last one.
pub proof fn lemma_many_unfold(es: Seq<EntryModel>, q: Seq<EntryModel>)
    requires
        q.len() > 0,
    ensures
        spec_insert_many(es, q) == spec_insert(
            spec_insert_many(es, q.drop_last()),
            q.last().key,
            q.last().value,
        ),
        spec_displaced_many(es, q) == spec_displaced_many(es, q.drop_last()) + (match spec_displaced(
            spec_insert_many(es, q.drop_last()),
            q.last().key,
        ) {
            Some(e) => seq![e],
            None => Seq::<EntryModel>::empty(),
        }),
    decreases q.len(),
{
    let es1 = spec_insert(es, q[0].key, q[0].value);
    let nil = Seq::<EntryModel>::empty();
    let d0 = (match spec_displaced(es, q[0].key) {
        Some(e) => seq![e],
        None => Seq::<EntryModel>::empty(),
    });
    if q.len() == 1 {
        assert(q.drop_last() =~= nil);
        assert(q.drop_first() =~= nil);
        assert(q.last() == q[0]);
        assert(spec_insert_many(es1, nil) == es1);
        assert(spec_insert_many(es, nil) == es);
        assert(spec_insert_many(es, q) == es1);
        assert(spec_displaced_many(es1, nil) == nil);
        assert(spec_displaced_many(es, nil) == nil);
        assert(spec_displaced_many(es, q) == d0 + nil);
        assert(d0 + nil =~= nil + d0);
    } else {
        lemma_many_unfold(es1, q.drop_first());
        assert(q.drop_first().drop_last() =~= q.drop_last().drop_first());
        assert(q.drop_first().last() == q.last());
        assert(q.drop_last()[0] == q[0]);
        assert(q.drop_last().len() > 0);
        assert(spec_insert_many(es, q.drop_last()) == spec_insert_many(
            es1,
            q.drop_last().drop_first(),
        ));
        assert(spec_insert_many(es, q) == spec_insert_many(es1, q.drop_first()));
        assert(spec_displaced_many(es, q) == d0 + spec_displaced_many(es1, q.drop_first()));
        assert(spec_displaced_many(es, q.drop_last()) == d0 + spec_displaced_many(
            es1,
            q.drop_last().drop_first(),
        ));
        let tail = (match spec_displaced(spec_insert_many(es, q.drop_last()), q.last().key) {
            Some(e) => seq![e],
            None => Seq::<EntryModel>::empty(),
        });
        assert(spec_displaced_many(es1, q.drop_first()) == spec_displaced_many(
            es1,
            q.drop_first().drop_last(),
        ) + tail);
        assert(d0 + (spec_displaced_many(es1, q.drop_first().drop_last()) + tail) =~= (d0
            + spec_displaced_many(es1, q.drop_last().drop_first())) + tail);
    }
}

/// Removing an index keeps the remaining keys, so uniqueness survives.
pub proof fn lemma_unique_remove(es: Seq<EntryModel>, i: int)
    requires
        unique_keys(es),
        0 <= i < es.len(),
    ensures
        unique_keys(es.remove(i)),
{
    assert forall|a: int, b: int| 0 <= a < b < es.remove(i).len() implies es.remove(i)[a].key
        != es.remove(i)[b].key by {
        let a0 = if a < i { a } else { a + 1 };
        let b0 = if b < i { b } else { b + 1 };
        assert(es.remove(i)[a] == es[a0]);
        assert(es.remove(i)[b] == es[b0]);
    }
}

/// After removing key `k` from a well-formed sequence, `k` is gone.
pub proof fn lemma_remove_erases(es: Seq<EntryModel>, k: Seq<char>)
    requires
        unique_keys(es),
    ensures
        !has_key(spec_remove(es, k), k),
{
    lemma_key_at(es, k);
    if has_key(es, k) {
        let i = key_at(es, k);
        let es2 = es.remove(i);
        assert forall|j: int| 0 <= j < es2.len() implies es2[j].key != k by {
            if j < i {
                assert(es2[j] == es[j]);
            } else {
                assert(es2[j] == es[j + 1]);
            }
        }
        lemma_has_key_iff(es2, k);
    }
}

/// Inserting `(k, v)` into a well-formed sequence keeps it well-formed.
pub proof fn lemma_unique_insert(es: Seq<EntryModel>, k: Seq<char>, v: Seq<char>)
    requires
        unique_keys(es),
    ensures
        unique_keys(spec_insert(es, k, v)),
{
    lemma_key_at(es, k);
    if has_key(es, k) {
        lemma_unique_remove(es, key_at(es, k));
    }
    lemma_remove_erases(es, k);
    let base = spec_remove(es, k);
    lemma_has_key_iff(base, k);
    let es2 = spec_insert(es, k, v);
    assert forall|a: int, b: int| 0 <= a < b < es2.len() implies es2[a].key != es2[b].key by {
        if b == es2.len() - 1 {
            assert(es2[a] == base[a]);
        } else {
            assert(es2[a] == base[a]);
            assert(es2[b] == base[b]);
        }
    }
}

/// Entry models commute with removing an index.
pub proof fn lemma_models_remove(vs: Seq<BoomEntry>, i: int)
    requires
        0 <= i < vs.len(),
    ensures
        entry_models(vs.remove(i)) == entry_models(vs).remove(i),
{
    assert(entry_models(vs.remove(i)) =~= entry_models(vs).remove(i));
}

/// Entry models commute with appending an entry.
pub proof fn lemma_models_push(vs: Seq<BoomEntry>, e: BoomEntry)
    ensures
        entry_models(vs.push(e)) == entry_models(vs).push(e@),
{
    assert(entry_models(vs.push(e)) =~= entry_models(vs).push(e@));
}

/// Law: inserting `(k, v)` into an empty collection yields exactly one
/// entry, found under `k` with value `v`, and displaces nothing.
pub proof fn lemma_insert_empty(k: Seq<char>, v: Seq<char>)
    ensures
        spec_insert(Seq::<EntryModel>::empty(), k, v) == seq![EntryModel { key: k, value: v }],
        spec_displaced(Seq::<EntryModel>::empty(), k) is None,
        key_at(seq![EntryModel { key: k, value: v }], k) == 0,
        seq![EntryModel { key: k, value: v }][key_at(seq![EntryModel { key: k, value: v }], k)].value
            == v,
{
    let nil = Seq::<EntryModel>::empty();
    assert(!has_key(nil, k));
    assert(spec_remove(nil, k) == nil);
    assert(nil.push(EntryModel { key: k, value: v }) =~= seq![EntryModel { key: k, value: v }]);
}

/// Law: removing a key that a well-formed collection holds yields the
/// prior entry's position, afterwards the key is gone, and a second
/// removal changes nothing.
pub proof fn lemma_remove_found(es: Seq<EntryModel>, k: Seq<char>)
    requires
        unique_keys(es),
        has_key(es, k),
    ensures
        spec_displaced(es, k) == Some(es[key_at(es, k)]),
        !has_key(spec_remove(es, k), k),
        spec_displaced(spec_remove(es, k), k) is None,
        spec_remove(spec_remove(es, k), k) == spec_remove(es, k),
{
    lemma_remove_erases(es, k);
}

/// Law: re-inserting an existing key keeps the length, displaces the
/// previously stored entry, and moves the key's entry to the end of the
/// storage order.
pub proof fn lemma_reinsert_moves_to_end(es: Seq<EntryModel>, k: Seq<char>, v: Seq<char>)
    requires
        unique_keys(es),
        has_key(es, k),
    ensures
        spec_displaced(es, k) == Some(es[key_at(es, k)]),
        spec_insert(es, k, v).len() == es.len(),
        spec_insert(es, k, v).last() == (EntryModel { key: k, value: v }),
        key_at(spec_insert(es, k, v), k) == spec_insert(es, k, v).len() - 1,
{
    lemma_key_at(es, k);
    lemma_remove_erases(es, k);
    let base = spec_remove(es, k);
    let es2 = spec_insert(es, k, v);
    lemma_has_key_iff(base, k);
    assert forall|j: int| 0 <= j < es2.len() - 1 implies es2[j].key != k by {
        assert(es2[j] == base[j]);
    }
    lemma_key_at_first(es2, k, es2.len() - 1);
}

/// Law: a many-insert whose pairs carry brand-new, pairwise distinct
/// keys displaces nothing.
pub proof fn lemma_insert_many_fresh(es: Seq<EntryModel>, ps: Seq<EntryModel>)
    requires
        forall|i: int| 0 <= i < ps.len() ==> !has_key(es, ps[i].key),
        forall|i: int, j: int| 0 <= i < j < ps.len() ==> ps[i].key != ps[j].key,
    ensures
        spec_displaced_many(es, ps).len() == 0,
    decreases ps.len(),
{
    if ps.len() > 0 {
        assert(!has_key(es, ps[0].key));
        let es1 = spec_insert(es, ps[0].key, ps[0].value);
        assert(es1 == es.push(EntryModel { key: ps[0].key, value: ps[0].value }));
        assert forall|i: int| 0 <= i < ps.drop_first().len() implies !has_key(
            es1,
            ps.drop_first()[i].key,
        ) by {
            let k2 = ps.drop_first()[i].key;
            assert(ps.drop_first()[i] == ps[i + 1]);
            assert(k2 != ps[0].key);
            lemma_has_key_iff(es, k2);
            assert forall|j: int| 0 <= j < es1.len() implies es1[j].key != k2 by {
                if j < es.len() {
                    assert(es1[j] == es[j]);
                }
            }
            lemma_has_key_iff(es1, k2);
        }
        assert forall|i: int, j: int| 0 <= i < j < ps.drop_first().len() implies ps.drop_first()[i].key
            != ps.drop_first()[j].key by {
            assert(ps.drop_first()[i] == ps[i + 1]);
            assert(ps.drop_first()[j] == ps[j + 1]);
        }
        lemma_insert_many_fresh(es1, ps.drop_first());
    }
}

/// Inserting one pair leaves every entry under a different key present
/// and unchanged, in a well-formed sequence.
pub proof fn lemma_insert_keeps_others(
    es: Seq<EntryModel>,
    k0: Seq<char>,
    v0: Seq<char>,
    k: Seq<char>,
)
    requires
        unique_keys(es),
        has_key(es, k),
        k != k0,
    ensures
        has_key(spec_insert(es, k0, v0), k),
        spec_insert(es, k0, v0)[key_at(spec_insert(es, k0, v0), k)] == es[key_at(es, k)],
{
    lemma_key_at(es, k);
    lemma_key_at(es, k0);
    let j0 = key_at(es, k);
    let base = spec_remove(es, k0);
    let es2 = spec_insert(es, k0, v0);
    lemma_unique_insert(es, k0, v0);
    let m: int = if has_key(es, k0) {
        let i0 = key_at(es, k0);
        if j0 < i0 {
            j0
        } else {
            j0 - 1
        }
    } else {
        j0
    };
    assert(base[m] == es[j0]);
    assert(es2[m] == es[j0]);
    lemma_has_key_iff(es2, k);
    assert(has_key(es2, k));
    lemma_key_at(es2, k);
    let p = key_at(es2, k);
    assert(es2[p].key == k);
    if p != m {
        assert(es2[p].key == es2[m].key);
        assert(false);
    }
}

/// Law: a many-insert whose pairs carry pairwise distinct keys that all
/// already exist displaces exactly one entry per pair — the previously
/// stored entry for that key, in input order — and the sequence does not
/// grow.
pub proof fn lemma_insert_many_duplicates(es: Seq<EntryModel>, ps: Seq<EntryModel>)
    requires
        unique_keys(es),
        forall|i: int| 0 <= i < ps.len() ==> has_key(es, ps[i].key),
        forall|i: int, j: int| 0 <= i < j < ps.len() ==> ps[i].key != ps[j].key,
    ensures
        spec_displaced_many(es, ps).len() == ps.len(),
        forall|i: int| 0 <= i < ps.len() ==> spec_displaced_many(es, ps)[i] == es[key_at(
            es,
            ps[i].key,
        )],
        spec_insert_many(es, ps).len() == es.len(),
    decreases ps.len(),
{
    if ps.len() > 0 {
        let k0 = ps[0].key;
        assert(has_key(es, k0));
        lemma_key_at(es, k0);
        let es1 = spec_insert(es, k0, ps[0].value);
        lemma_unique_insert(es, k0, ps[0].value);
        assert(es1.len() == es.len());
        let d0 = seq![es[key_at(es, k0)]];
        assert(spec_displaced(es, k0) == Some(es[key_at(es, k0)]));
        assert forall|i: int| 0 <= i < ps.drop_first().len() implies has_key(
            es1,
            ps.drop_first()[i].key,
        ) && es1[key_at(es1, ps.drop_first()[i].key)] == es[key_at(
            es,
            ps.drop_first()[i].key,
        )] by {
            assert(ps.drop_first()[i] == ps[i + 1]);
            assert(ps[i + 1].key != k0);
            lemma_insert_keeps_others(es, k0, ps[0].value, ps[i + 1].key);
        }
        assert forall|i: int, j: int| 0 <= i < j < ps.drop_first().len() implies ps.drop_first()[i].key
            != ps.drop_first()[j].key by {
            assert(ps.drop_first()[i] == ps[i + 1]);
            assert(ps.drop_first()[j] == ps[j + 1]);
        }
        lemma_insert_many_duplicates(es1, ps.drop_first());
        let dt = spec_displaced_many(es1, ps.drop_first());
        assert(spec_displaced_many(es, ps) == d0 + dt);
        assert forall|i: int| 0 <= i < ps.len() implies spec_displaced_many(es, ps)[i] == es[key_at(
            es,
            ps[i].key,
        )] by {
            if i == 0 {
                assert((d0 + dt)[0] == es[key_at(es, k0)]);
            } else {
                assert((d0 + dt)[i] == dt[i - 1]);
                assert(ps.drop_first()[i - 1] == ps[i]);
                assert(dt[i - 1] == es1[key_at(es1, ps[i].key)]);
            }
        }
    }
}

/// Character-by-character string comparison, equal exactly when the two
/// views are the same sequence.
pub fn str_eq(a: &str, b: &str) -> (r: bool)
    ensures
        r == (a@ == b@),
{
    let la = a.unicode_len();
    let lb = b.unicode_len();
    if la != lb {
        return false;
    }
    let mut i: usize = 0;
    while i < la
        invariant
            la == a@.len(),
            la == b@.len(),
            0 <= i <= la,
            forall|m: int| 0 <= m < i ==> a@[m] == b@[m],
        decreases la - i,
    {
        if a.get_char(i) != b.get_char(i) {
            return false;
        }
        i += 1;
    }
    proof {
        assert(a@ =~= b@);
    }
    true
}

impl Clone for BoomEntry {
    /// An exact copy, field for field.
    fn clone(&self) -> (r: Self)
        ensures
            r == *self,
    {
        BoomEntry { key: self.key.clone(), value: self.value.clone() }
    }
}

impl Clone for BoomCollection {
    /// A copy with the same name and entry sequence.
    fn clone(&self) -> (r: Self)
        ensures
            r@ == self@,
            r.values@ == self.values@,
    {
        let mut vs: Vec<BoomEntry> = Vec::new();
        let mut i: usize = 0;
        while i < self.values.len()
            invariant
                0 <= i <= self.values.len(),
                vs@ =~= self.values@.take(i as int),
            decreases self.values.len() - i,
        {
            vs.push(self.values[i].clone());
            i += 1;
        }
        proof {
            assert(vs@ =~= self.values@);
        }
        let r = BoomCollection { collection: self.collection.clone(), values: vs };
        proof {
            assert(r@ =~= self@);
        }
        r
    }
}

impl BoomCollection {
    /// The entry models, in storage order.
    pub open spec fn entries(&self) -> Seq<EntryModel> {
        self@.entries
    }

    /// Well-formedness: no two entries share a key.
    pub open spec fn wf(&self) -> bool {
        unique_keys(self.entries())
    }

    /// All the collection entry keys, in storage order.
    pub fn keys(&self) -> (r: Vec<String>)
        ensures
            r@.len() == self.entries().len(),
            forall|i: int| 0 <= i < r@.len() ==> r@[i]@ == self.entries()[i].key,
    {
        let mut r: Vec<String> = Vec::new();
        let mut i: usize = 0;
        while i < self.values.len()
            invariant
                0 <= i <= self.values.len(),
                r@.len() == i,
                forall|m: int| 0 <= m < i ==> r@[m]@ == entry_models(self.values@)[m].key,
            decreases self.values.len() - i,
        {
            r.push(self.values[i].key.clone());
            i += 1;
        }
        r
    }

    /// Position of the first entry with a matching key, if any.
    fn get_pos(&self, key: &str) -> (r: Option<usize>)
        ensures
            match r {
                Some(i) => 0 <= i < self.entries().len() && key_at(self.entries(), key@)
                    == i,
                None => !has_key(self.entries(), key@),
            },
    {
        let mut i: usize = 0;
        while i < self.values.len()
            invariant
                0 <= i <= self.values.len(),
                forall|m: int| 0 <= m < i ==> entry_models(self.values@)[m].key != key@,
            decreases self.values.len() - i,
        {
            if str_eq(self.values[i].key.as_str(), key) {
                proof {
                    lemma_key_at_first(self.entries(), key@, i as int);
                }
                return Some(i);
            }
            i += 1;
        }
        proof {
            lemma_has_key_iff(self.entries(), key@);
        }
        None
    }

    /// Whether an entry with this key exists.
    pub fn contains_key(&self, key: &str) -> (r: bool)
        ensures
            r == has_key(self.entries(), key@),
    {
        self.get_pos(key).is_some()
    }

    /// The entry with a matching key, if one exists; no side effect.
    pub fn get(&self, key: &str) -> (r: Option<&BoomEntry>)
        ensures
            match r {
                Some(e) => has_key(self.entries(), key@) && e@ == self.entries()[key_at(
                    self.entries(),
                    key@,
                )],
                None => !has_key(self.entries(), key@),
            },
    {
        match self.get_pos(key) {
            Some(i) => Some(&self.values[i]),
            None => None,
        }
    }

    /// Removes the entry with this key and returns it, if it exists;
    /// otherwise a no-op returning nothing.
    pub fn remove(&mut self, key: &str) -> (r: Option<BoomEntry>)
        ensures
            final(self).collection == old(self).collection,
            final(self).entries() == spec_remove(old(self).entries(), key@),
            match r {
                Some(e) => spec_displaced(old(self).entries(), key@) == Some(e@),
                None => spec_displaced(old(self).entries(), key@) is None,
            },
            old(self).wf() ==> final(self).wf(),
    {
        proof {
            if old(self).wf() {
                lemma_key_at(old(self).entries(), key@);
                if has_key(old(self).entries(), key@) {
                    lemma_unique_remove(old(self).entries(), key_at(old(self).entries(), key@));
                }
            }
        }
        match self.get_pos(key) {
            None => None,
            Some(i) => {
                let e = self.values.remove(i);
                proof {
                    lemma_models_remove(old(self).values@, i as int);
                }
                Some(e)
            },
        }
    }

    /// Number of entries.
    pub fn len(&self) -> (r: usize)
        ensures
            r == self.entries().len(),
    {
        self.values.len()
    }

    /// Whether the collection holds no entry.
    pub fn is_empty(&self) -> (r: bool)
        ensures
            r == (self.entries().len() == 0),
    {
        self.values.is_empty()
    }

    /// The entry with a matching key as a mutable borrow, enabling
    /// in-place value mutation, if such an entry exists.
    pub fn get_mut(&mut self, key: &str) -> (r: Option<&mut BoomEntry>)
        ensures
            final(self).collection == old(self).collection,
            has_key(old(self).entries(), key@) ==> r.is_some() && (*r.unwrap())@ == old(
                self,
            ).entries()[key_at(old(self).entries(), key@)] && final(self).values@ == old(
                self,
            ).values@.update(key_at(old(self).entries(), key@), *final(r.unwrap())),
            !has_key(old(self).entries(), key@) ==> r.is_none() && *final(self) == *old(self),
    {
        match self.get_pos(key) {
            Some(i) => Some(&mut self.values[i]),
            None => None,
        }
    }

    /// Inserts `(key, value)`. Any prior entry with this key is removed
    /// and returned as the displaced entry, and the new entry is appended
    /// at the end, so a replacement moves the key to the
    /// most-recently-inserted position.
    pub fn insert(&mut self, key: String, value: String) -> (r: Option<BoomEntry>)
        ensures
            final(self).collection == old(self).collection,
            final(self).entries() == spec_insert(old(self).entries(), key@, value@),
            match r {
                Some(e) => spec_displaced(old(self).entries(), key@) == Some(e@),
                None => spec_displaced(old(self).entries(), key@) is None,
            },
            old(self).wf() ==> final(self).wf(),
    {
        proof {
            if old(self).wf() {
                lemma_unique_insert(old(self).entries(), key@, value@);
            }
        }
        match self.get_pos(key.as_str()) {
            Some(i) => {
                let e = self.values.remove(i);
                proof {
                    lemma_models_remove(old(self).values@, i as int);
                }
                let ghost mid = self.values@;
                self.values.push(BoomEntry { key, value });
                proof {
                    lemma_models_push(mid, BoomEntry { key, value });
                }
                Some(e)
            },
            None => {
                let ghost mid = self.values@;
                self.values.push(BoomEntry { key, value });
                proof {
                    lemma_models_push(mid, BoomEntry { key, value });
                }
                None
            },
        }
    }

    /// Same as `insert`, from a pre-built entry.
    pub fn insert_entry(&mut self, entry: BoomEntry) -> (r: Option<BoomEntry>)
        ensures
            final(self).collection == old(self).collection,
            final(self).entries() == spec_insert(old(self).entries(), entry.key@, entry.value@),
            match r {
                Some(e) => spec_displaced(old(self).entries(), entry.key@) == Some(e@),
                None => spec_displaced(old(self).entries(), entry.key@) is None,
            },
            old(self).wf() ==> final(self).wf(),
    {
        proof {
            if old(self).wf() {
                lemma_unique_insert(old(self).entries(), entry.key@, entry.value@);
            }
        }
        match self.get_pos(entry.key.as_str()) {
            Some(i) => {
                let e = self.values.remove(i);
                proof {
                    lemma_models_remove(old(self).values@, i as int);
                }
                let ghost mid = self.values@;
                self.values.push(entry);
                proof {
                    lemma_models_push(mid, entry);
                }
                Some(e)
            },
            None => {
                let ghost mid = self.values@;
                self.values.push(entry);
                proof {
                    lemma_models_push(mid, entry);
                }
                None
            },
        }
    }

    /// Applies `insert` to each `(key, value)` pair in input order and
    /// collects the displaced entries, in the order displaced; returns
    /// nothing when every insertion was fresh.
    pub fn insert_many(&mut self, entries: Vec<(String, String)>) -> (r: Option<Vec<BoomEntry>>)
        ensures
            final(self).collection == old(self).collection,
            final(self).entries() == spec_insert_many(
                old(self).entries(),
                pair_models(entries@),
            ),
            match r {
                Some(v) => entry_models(v@) == spec_displaced_many(
                    old(self).entries(),
                    pair_models(entries@),
                ) && v@.len() > 0,
                None => spec_displaced_many(old(self).entries(), pair_models(entries@)).len()
                    == 0,
            },
            old(self).wf() ==> final(self).wf(),
    {
        let mut built: Vec<BoomEntry> = Vec::new();
        let mut i: usize = 0;
        while i < entries.len()
            invariant
                0 <= i <= entries.len(),
                entry_models(built@) =~= pair_models(entries@).take(i as int),
            decreases entries.len() - i,
        {
            let k = entries[i].0.clone();
            let v = entries[i].1.clone();
            let ghost before = built@;
            built.push(BoomEntry { key: k, value: v });
            proof {
                let e = built@.last();
                assert(built@ =~= before.push(e));
                assert(e@.key == entries@[i as int].0@);
                assert(e@.value == entries@[i as int].1@);
                assert(e@ == (EntryModel {
                    key: entries@[i as int].0@,
                    value: entries@[i as int].1@,
                }));
                assert(e@ == pair_models(entries@)[i as int]);
                assert(pair_models(entries@).len() == entries@.len());
                assert(i < entries@.len());
                assert(pair_models(entries@).take(i as int).len() == i);
                assert(entry_models(before).len() == i);
                assert(before.len() == i);
                assert(built@.len() == i + 1);
                assert(entry_models(built@).len() == i + 1);
                assert forall|m: int| 0 <= m < i + 1 implies entry_models(built@)[m]
                    == pair_models(entries@).take(i as int + 1)[m] by {
                    assert(entry_models(built@)[m] == built@[m]@);
                    if m < i {
                        assert(built@[m] == before[m]);
                        assert(entry_models(before)[m] == pair_models(entries@).take(i as int)[m]);
                    } else {
                        assert(built@[m] == e);
                    }
                }
                assert(entry_models(built@) =~= pair_models(entries@).take(i as int + 1));
            }
            i += 1;
        }
        proof {
            assert(entry_models(built@) =~= pair_models(entries@));
        }
        self.insert_many_entries(built)
    }

    /// Applies `insert_entry` to each entry in input order and collects
    /// the displaced entries, in the order displaced; returns nothing
    /// when every insertion was fresh.
    pub fn insert_many_entries(&mut self, entries: Vec<BoomEntry>) -> (r: Option<Vec<BoomEntry>>)
        ensures
            final(self).collection == old(self).collection,
            final(self).entries() == spec_insert_many(
                old(self).entries(),
                entry_models(entries@),
            ),
            match r {
                Some(v) => entry_models(v@) == spec_displaced_many(
                    old(self).entries(),
                    entry_models(entries@),
                ) && v@.len() > 0,
                None => spec_displaced_many(old(self).entries(), entry_models(entries@)).len()
                    == 0,
            },
            old(self).wf() ==> final(self).wf(),
    {
        let ghost orig = self.entries();
        let ghost ps = entry_models(entries@);
        let mut results: Vec<BoomEntry> = Vec::new();
        let mut i: usize = 0;
        while i < entries.len()
            invariant
                0 <= i <= entries.len(),
                entry_models(entries@) == ps,
                self.collection == old(self).collection,
                self.entries() == spec_insert_many(orig, ps.take(i as int)),
                entry_models(results@) == spec_displaced_many(orig, ps.take(i as int)),
                unique_keys(orig) ==> unique_keys(self.entries()),
            decreases entries.len() - i,
        {
            proof {
                assert(ps.take(i + 1).drop_last() =~= ps.take(i as int));
                assert(ps.take(i + 1).last() == ps[i as int]);
                lemma_many_unfold(orig, ps.take(i + 1));
            }
            let e = entries[i].clone();
            assert(e@ == ps[i as int]);
            match self.insert_entry(e) {
                Some(olde) => {
                    let ghost before = results@;
                    results.push(olde);
                    proof {
                        lemma_models_push(before, olde);
                        assert(entry_models(results@) =~= spec_displaced_many(
                            orig,
                            ps.take(i + 1),
                        ));
                    }
                },
                None => {
                    proof {
                        assert(entry_models(results@) =~= spec_displaced_many(
                            orig,
                            ps.take(i + 1),
                        ));
                    }
                },
            }
            i += 1;
        }
        proof {
            assert(ps.take(entries@.len() as int) =~= ps);
        }
        if results.is_empty() {
            proof {
                assert(entry_models(results@) =~= Seq::<EntryModel>::empty());
            }
            None
        } else {
            Some(results)
        }
    }

    /// The value stored under this key. Unchecked convenience accessor:
    /// the key must be present: a verified caller proves it, and a call
    /// from outside the verifier that breaks the contract is stopped by
    /// an abort, never handed a default or empty value.
    pub fn index(&self, key: &str) -> (r: &String)
        requires
            has_key(self.entries(), key@),
        ensures
            r@ == self.entries()[key_at(self.entries(), key@)].value,
    {
        match self.get_pos(key) {
            Some(i) => &self.values[i].value,
            None => vstd::pervasive::unreached(),
        }
    }
}

} // verus!
