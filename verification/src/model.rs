//! The mathematical model of the tracked objects and the local residency
//! accounting.
//!
//! Each tracked object is modelled by its bytes, its opaque metadata string,
//! its seal state, and two cache facts: whether its bytes are resident in the
//! local cache and whether they are durable in the backing store.  The whole
//! client tracks a sequence of (bucket, key, object) entries with unique
//! (bucket, key) pairs.

use vstd::prelude::*;

verus! {

/// The model of one object's state.
pub ghost struct ObjModel {
    /// The object's bytes; the object size is their length.
    pub data: Seq<u8>,
    /// The opaque metadata string.
    pub metadata: Seq<char>,
    /// Sealed objects accept no further mutation.
    pub sealed: bool,
    /// The bytes currently occupy local cache space.
    pub resident: bool,
    /// The bytes have been flushed to the backing object store.
    pub durable: bool,
}

/// The model of one tracked (bucket, key, object) entry.
pub ghost struct EntryModel {
    pub bucket: Seq<char>,
    pub key: Seq<char>,
    pub obj: ObjModel,
}

impl ObjModel {
    /// A freshly created, writable, cache-resident, empty object.
    pub open spec fn fresh() -> ObjModel {
        ObjModel {
            data: Seq::empty(),
            metadata: Seq::empty(),
            sealed: false,
            resident: true,
            durable: false,
        }
    }
}

/// The executable state of one object.
pub struct ObjectState {
    pub data: Vec<u8>,
    pub metadata: String,
    pub sealed: bool,
    pub resident: bool,
    pub durable: bool,
}

impl ObjectState {
    /// The model this state denotes.
    pub open spec fn model(&self) -> ObjModel {
        ObjModel {
            data: self.data@,
            metadata: self.metadata@,
            sealed: self.sealed,
            resident: self.resident,
            durable: self.durable,
        }
    }
}

/// One tracked object under its bucket and key.
pub struct StoredObject {
    pub bucket: String,
    pub key: String,
    pub state: ObjectState,
}

impl StoredObject {
    /// The entry model this object denotes.
    pub open spec fn model(&self) -> EntryModel {
        EntryModel { bucket: self.bucket@, key: self.key@, obj: self.state.model() }
    }
}

/// Some entry carries exactly this bucket and key.
pub open spec fn contains_object(s: Seq<EntryModel>, b: Seq<char>, k: Seq<char>) -> bool {
    exists|i: int| 0 <= i < s.len() && s[i].bucket == b && s[i].key == k
}

/// The index of the entry with this bucket and key.
pub open spec fn index_of_object(s: Seq<EntryModel>, b: Seq<char>, k: Seq<char>) -> int {
    choose|i: int| 0 <= i < s.len() && s[i].bucket == b && s[i].key == k
}

/// The object stored under this bucket and key.
pub open spec fn object_at(s: Seq<EntryModel>, b: Seq<char>, k: Seq<char>) -> ObjModel {
    s[index_of_object(s, b, k)].obj
}

/// No two entries share a (bucket, key) pair.
pub open spec fn unique_objects(s: Seq<EntryModel>) -> bool {
    forall|i: int, j: int|
        0 <= i < j < s.len() ==> !(s[i].bucket == s[j].bucket && s[i].key == s[j].key)
}

/// Under uniqueness, any matching index is the index of the object.
pub proof fn lemma_object_index_unique(s: Seq<EntryModel>, b: Seq<char>, k: Seq<char>, i: int)
    requires
        unique_objects(s),
        0 <= i < s.len(),
        s[i].bucket == b,
        s[i].key == k,
    ensures
        index_of_object(s, b, k) == i,
        object_at(s, b, k) == s[i].obj,
        contains_object(s, b, k),
{
    assert(contains_object(s, b, k));
    let j = index_of_object(s, b, k);
    if i < j {
        assert(!(s[i].bucket == s[j].bucket && s[i].key == s[j].key));
    } else if j < i {
        assert(!(s[j].bucket == s[i].bucket && s[j].key == s[i].key));
    }
}

/// The larger of two integers.
pub open spec fn int_max(a: int, b: int) -> int {
    if a >= b {
        a
    } else {
        b
    }
}

/// A pointwise weight bound carries over to the totals.
pub proof fn lemma_resident_sum_pointwise_le(a: Seq<EntryModel>, b: Seq<EntryModel>)
    requires
        a.len() == b.len(),
        forall|i: int| 0 <= i < a.len() ==> resident_weight(a[i]) <= resident_weight(b[i]),
    ensures
        resident_sum(a) <= resident_sum(b),
    decreases a.len(),
{
    if a.len() > 0 {
        assert forall|i: int|
            0 <= i < a.drop_last().len() implies resident_weight(a.drop_last()[i])
            <= resident_weight(b.drop_last()[i]) by {
            assert(a.drop_last()[i] == a[i]);
            assert(b.drop_last()[i] == b[i]);
        }
        lemma_resident_sum_pointwise_le(a.drop_last(), b.drop_last());
        assert(resident_weight(a.last()) <= resident_weight(b.last()));
    }
}

/// Appending an entry under a fresh (bucket, key) pair keeps keys unique.
pub proof fn lemma_unique_push(s: Seq<EntryModel>, e: EntryModel)
    requires
        unique_objects(s),
        !contains_object(s, e.bucket, e.key),
    ensures
        unique_objects(s.push(e)),
{
    let t = s.push(e);
    assert forall|i: int, j: int|
        0 <= i < j < t.len() implies !(t[i].bucket == t[j].bucket && t[i].key == t[j].key) by {
        if j < s.len() {
        } else {
            assert(t[j] == e);
            assert(t[i] == s[i]);
            if t[i].bucket == e.bucket && t[i].key == e.key {
                assert(contains_object(s, e.bucket, e.key));
            }
        }
    }
}

/// Replacing an entry without changing its (bucket, key) pair keeps keys
/// unique.
pub proof fn lemma_unique_update(s: Seq<EntryModel>, i: int, e: EntryModel)
    requires
        unique_objects(s),
        0 <= i < s.len(),
        e.bucket == s[i].bucket,
        e.key == s[i].key,
    ensures
        unique_objects(s.update(i, e)),
{
}

/// Removing an entry keeps keys unique.
pub proof fn lemma_unique_remove(s: Seq<EntryModel>, i: int)
    requires
        unique_objects(s),
        0 <= i < s.len(),
    ensures
        unique_objects(s.remove(i)),
{
    let t = s.remove(i);
    assert forall|a: int, b: int|
        0 <= a < b < t.len() implies !(t[a].bucket == t[b].bucket && t[a].key == t[b].key) by {
        let a0 = if a < i {
            a
        } else {
            a + 1
        };
        let b0 = if b < i {
            b
        } else {
            b + 1
        };
        assert(t[a] == s[a0]);
        assert(t[b] == s[b0]);
    }
}

/// How many bytes an entry holds resident in the local cache.
pub open spec fn resident_weight(e: EntryModel) -> int {
    if e.obj.resident {
        e.obj.data.len() as int
    } else {
        0
    }
}

/// The total number of cache-resident bytes over all entries.
pub open spec fn resident_sum(s: Seq<EntryModel>) -> int
    decreases s.len(),
{
    if s.len() == 0 {
        0
    } else {
        resident_sum(s.drop_last()) + resident_weight(s.last())
    }
}

/// Residency totals are never negative.
pub proof fn lemma_resident_sum_nonneg(s: Seq<EntryModel>)
    ensures
        0 <= resident_sum(s),
    decreases s.len(),
{
    if s.len() > 0 {
        lemma_resident_sum_nonneg(s.drop_last());
    }
}

/// Appending an entry adds its weight to the total.
pub proof fn lemma_resident_sum_push(s: Seq<EntryModel>, e: EntryModel)
    ensures
        resident_sum(s.push(e)) == resident_sum(s) + resident_weight(e),
{
    assert(s.push(e).drop_last() =~= s);
    assert(s.push(e).last() == e);
}

/// Replacing the entry at `i` shifts the total by the difference in weight.
pub proof fn lemma_resident_sum_update(s: Seq<EntryModel>, i: int, e: EntryModel)
    requires
        0 <= i < s.len(),
    ensures
        resident_sum(s.update(i, e)) == resident_sum(s) - resident_weight(s[i]) + resident_weight(
            e,
        ),
    decreases s.len(),
{
    let t = s.update(i, e);
    if i == s.len() - 1 {
        assert(t.drop_last() =~= s.drop_last());
        assert(t.last() == e);
        assert(s.last() == s[i]);
    } else {
        assert(t.drop_last() =~= s.drop_last().update(i, e));
        assert(t.last() == s.last());
        lemma_resident_sum_update(s.drop_last(), i, e);
        assert(s.drop_last()[i] == s[i]);
    }
}

/// Removing the entry at `i` subtracts its weight from the total.
pub proof fn lemma_resident_sum_remove(s: Seq<EntryModel>, i: int)
    requires
        0 <= i < s.len(),
    ensures
        resident_sum(s.remove(i)) == resident_sum(s) - resident_weight(s[i]),
    decreases s.len(),
{
    let t = s.remove(i);
    if i == s.len() - 1 {
        assert(t =~= s.drop_last());
        assert(s.last() == s[i]);
    } else {
        assert(t.drop_last() =~= s.drop_last().remove(i));
        assert(t.last() == s.last());
        lemma_resident_sum_remove(s.drop_last(), i);
        assert(s.drop_last()[i] == s[i]);
    }
}

/// Each entry's weight is bounded by the total.
pub proof fn lemma_resident_weight_le_sum(s: Seq<EntryModel>, i: int)
    requires
        0 <= i < s.len(),
    ensures
        resident_weight(s[i]) <= resident_sum(s),
    decreases s.len(),
{
    if i == s.len() - 1 {
        assert(s.last() == s[i]);
        lemma_resident_sum_nonneg(s.drop_last());
    } else {
        lemma_resident_weight_le_sum(s.drop_last(), i);
        assert(s.drop_last()[i] == s[i]);
        assert(resident_weight(s.last()) >= 0);
    }
}

} // verus!
