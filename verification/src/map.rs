//! The segmented hash map.
//!
//! A map is a fixed, power-of-two number of independent segments. The high
//! bits of a key's 64-bit hash select its segment; the remaining bits drive
//! the probe inside the segment's bucket array. Each segment tracks its own
//! live count, and the map keeps an aggregate count beside them.
//!
//! The abstract model of the map is the union of the segments' maps; keys
//! are routed by hash, so the segments' domains never overlap.

use vstd::prelude::*;
use vstd::pervasive::VecAdditionalExecFns;
use vstd::pervasive::unreached;
use vstd::pervasive::cloned;
use vstd::arithmetic::power2::{pow2, lemma_pow2_adds, lemma_pow2_pos, lemma_pow2_strictly_increases, lemma2_to64, lemma2_to64_rest};
use vstd::arithmetic::div_mod::lemma_multiply_divide_lt;
use vstd::bits::lemma_u64_shr_is_div;
use vstd::set_lib::lemma_len_union;
use crate::hasher::{HashBuilder, MapKey};
use crate::bucket::{
    BucketArray, MAX_CAPACITY, DEFAULT_CAPACITY, is_pow2, lemma_pow2_double_le,
    lemma_is_pow2_pow2, lemma_slots_map_char, lemma_count_le,
};

verus! {

/// The largest number of segments a map may have: a sixteenth of the
/// addressable words. Each segment occupies several words, so more
/// segments than this cannot exist in memory, and rounding a requested
/// count up to a power of two stays within `usize`.
pub const MAX_SEGMENTS: usize = usize::MAX / 16 + 1;

/// One shard of the map: its current bucket array (none until the first
/// insert when the map was built without a capacity) and its live count.
pub struct Segment<K, V> {
    pub bucket_array: Option<BucketArray<K, V>>,
    pub len: usize,
}

/// The index of the segment that a hash selects: the hash's high bits.
pub open spec fn segment_of(h: u64, shift: u32) -> int {
    if shift == 64 {
        0
    } else {
        (h >> (shift as u64)) as int
    }
}

impl<K: MapKey, V> Segment<K, V> {
    /// The mappings held by this segment.
    pub open spec fn seg_map(self) -> Map<K::V, V> {
        match self.bucket_array {
            Some(a) => a.as_map(),
            None => Map::empty(),
        }
    }

    /// Well-formed under hash builder `b`: the array (if any) is
    /// well-formed, at most half full, and hashed by `b`; the live count
    /// matches the model.
    pub open spec fn inv(self, b: HashBuilder) -> bool {
        &&& match self.bucket_array {
            Some(a) => a.inv() && a.below_half() && a.builder@ == b,
            None => self.len == 0,
        }
        &&& self.len as nat == self.seg_map().len()
        &&& self.len <= MAX_CAPACITY
    }

    /// The number of occupied slots (live mappings and tombstones) of
    /// this segment's array; zero before allocation.
    pub open spec fn filled_count(self) -> nat {
        match self.bucket_array {
            Some(a) => a.filled as nat,
            None => 0,
        }
    }

    /// The segment can take one more occupied slot without passing the
    /// largest array size.
    pub open spec fn has_room(self) -> bool {
        match self.bucket_array {
            Some(a) => 2 * (a.filled as int + 1) <= MAX_CAPACITY as int,
            None => true,
        }
    }

    /// An empty segment with no array.
    pub fn empty() -> (r: Self)
        ensures
            r.bucket_array is None,
            r.len == 0,
            r.seg_map() == Map::<K::V, V>::empty(),
    {
        Segment { bucket_array: None, len: 0 }
    }
}

/// The union of the first `n` segments' maps.
pub open spec fn union_up_to<K: MapKey, V>(segs: Seq<Segment<K, V>>, n: int) -> Map<K::V, V>
    decreases n,
{
    if n <= 0 {
        Map::empty()
    } else {
        union_up_to(segs, n - 1).union_prefer_right(segs[n - 1].seg_map())
    }
}

/// Every key held by a segment is routed to that segment by its hash.
pub open spec fn routed<K: MapKey, V>(
    segs: Seq<Segment<K, V>>,
    b: HashBuilder,
    shift: u32,
) -> bool {
    forall|i: int, kv: K::V|
        0 <= i < segs.len() && (#[trigger] segs[i].seg_map().contains_key(kv)) ==> segment_of(
            K::hash_of(kv, b),
            shift,
        ) == i
}

/// What the union holds: a key is present exactly when its segment holds
/// it, with that segment's value, and the union is finite.
pub proof fn lemma_union_char<K: MapKey, V>(
    segs: Seq<Segment<K, V>>,
    n: int,
    b: HashBuilder,
    shift: u32,
)
    requires
        0 <= n <= segs.len(),
        routed(segs, b, shift),
    ensures
        union_up_to(segs, n).dom().finite(),
        forall|kv: K::V|
            union_up_to(segs, n).contains_key(kv) <==> exists|i: int|
                0 <= i < n && (#[trigger] segs[i].seg_map().contains_key(kv)),
        forall|i: int, kv: K::V|
            0 <= i < n && (#[trigger] segs[i].seg_map().contains_key(kv)) ==> union_up_to(
                segs,
                n,
            )[kv] == segs[i].seg_map()[kv],
    decreases n,
{
    if n > 0 {
        lemma_union_char(segs, n - 1, b, shift);
        let u = union_up_to(segs, n);
        let upre = union_up_to(segs, n - 1);
        let m = segs[n - 1].seg_map();
        match segs[n - 1].bucket_array {
            Some(a) => {
                lemma_slots_map_char::<K, V>(a.buckets@);
            },
            None => {},
        }
        assert(m.dom().finite());
        assert(u.dom() =~= upre.dom() + m.dom());
        assert forall|i: int, kv: K::V|
            0 <= i < n && (#[trigger] segs[i].seg_map().contains_key(kv)) implies u[kv]
            == segs[i].seg_map()[kv] by {
            if i == n - 1 {
                assert(u[kv] == m[kv]);
            } else {
                assert(!m.contains_key(kv));
                assert(u[kv] == upre[kv]);
            }
        }
    }
}

/// Updating one segment by inserting a routed key updates the union the
/// same way.
pub proof fn lemma_union_insert<K: MapKey, V>(
    s1: Seq<Segment<K, V>>,
    s2: Seq<Segment<K, V>>,
    j: int,
    kv: K::V,
    v: V,
    b: HashBuilder,
    shift: u32,
)
    requires
        s1.len() == s2.len(),
        0 <= j < s1.len(),
        forall|t: int| 0 <= t < s1.len() && t != j ==> #[trigger] s2[t] == s1[t],
        s2[j].seg_map() == s1[j].seg_map().insert(kv, v),
        routed(s1, b, shift),
        segment_of(K::hash_of(kv, b), shift) == j,
    ensures
        routed(s2, b, shift),
        union_up_to(s2, s2.len() as int) == union_up_to(s1, s1.len() as int).insert(kv, v),
{
    let n = s1.len() as int;
    assert forall|i: int, kv2: K::V|
        0 <= i < n && (#[trigger] s2[i].seg_map().contains_key(kv2)) implies segment_of(
        K::hash_of(kv2, b),
        shift,
    ) == i by {
        if i == j {
            if kv2 == kv {
            } else {
                assert(s1[j].seg_map().contains_key(kv2));
            }
        } else {
            assert(s1[i].seg_map().contains_key(kv2));
        }
    }
    lemma_union_char(s1, n, b, shift);
    lemma_union_char(s2, n, b, shift);
    let u1 = union_up_to(s1, n);
    let u2 = union_up_to(s2, n);
    assert forall|kv2: K::V| #[trigger]
        u2.contains_key(kv2) == u1.insert(kv, v).contains_key(kv2) && (u2.contains_key(kv2)
            ==> u2[kv2] == u1.insert(kv, v)[kv2]) by {
        if kv2 == kv {
            assert(s2[j].seg_map().contains_key(kv));
            assert(u2.contains_key(kv) && u2[kv] == v);
        } else {
            if u2.contains_key(kv2) {
                let i = choose|i: int| 0 <= i < n && (#[trigger] s2[i].seg_map().contains_key(kv2));
                if i == j {
                    assert(s1[j].seg_map().contains_key(kv2));
                } else {
                    assert(s1[i].seg_map().contains_key(kv2));
                }
                assert(u1.contains_key(kv2));
                assert(u2[kv2] == u1[kv2]);
            }
            if u1.contains_key(kv2) {
                let i = choose|i: int| 0 <= i < n && (#[trigger] s1[i].seg_map().contains_key(kv2));
                if i == j {
                    assert(s2[j].seg_map().contains_key(kv2));
                } else {
                    assert(s2[i].seg_map().contains_key(kv2));
                }
                assert(u2.contains_key(kv2));
            }
        }
    }
    assert(u2 =~= u1.insert(kv, v));
}

/// Updating one segment by removing a routed key updates the union the
/// same way.
pub proof fn lemma_union_remove<K: MapKey, V>(
    s1: Seq<Segment<K, V>>,
    s2: Seq<Segment<K, V>>,
    j: int,
    kv: K::V,
    b: HashBuilder,
    shift: u32,
)
    requires
        s1.len() == s2.len(),
        0 <= j < s1.len(),
        forall|t: int| 0 <= t < s1.len() && t != j ==> #[trigger] s2[t] == s1[t],
        s2[j].seg_map() == s1[j].seg_map().remove(kv),
        routed(s1, b, shift),
        segment_of(K::hash_of(kv, b), shift) == j,
    ensures
        routed(s2, b, shift),
        union_up_to(s2, s2.len() as int) == union_up_to(s1, s1.len() as int).remove(kv),
{
    let n = s1.len() as int;
    assert forall|i: int, kv2: K::V|
        0 <= i < n && (#[trigger] s2[i].seg_map().contains_key(kv2)) implies segment_of(
        K::hash_of(kv2, b),
        shift,
    ) == i by {
        if i == j {
            assert(s1[j].seg_map().contains_key(kv2));
        } else {
            assert(s1[i].seg_map().contains_key(kv2));
        }
    }
    lemma_union_char(s1, n, b, shift);
    lemma_union_char(s2, n, b, shift);
    let u1 = union_up_to(s1, n);
    let u2 = union_up_to(s2, n);
    assert forall|kv2: K::V| #[trigger]
        u2.contains_key(kv2) == u1.remove(kv).contains_key(kv2) && (u2.contains_key(kv2)
            ==> u2[kv2] == u1.remove(kv)[kv2]) by {
        if kv2 == kv {
            if u2.contains_key(kv) {
                let i = choose|i: int| 0 <= i < n && (#[trigger] s2[i].seg_map().contains_key(kv));
                if i == j {
                } else {
                    assert(s1[i].seg_map().contains_key(kv));
                    assert(false);
                }
            }
        } else {
            if u2.contains_key(kv2) {
                let i = choose|i: int| 0 <= i < n && (#[trigger] s2[i].seg_map().contains_key(kv2));
                if i == j {
                    assert(s1[j].seg_map().contains_key(kv2));
                } else {
                    assert(s1[i].seg_map().contains_key(kv2));
                }
                assert(u2[kv2] == u1[kv2]);
            }
            if u1.contains_key(kv2) {
                let i = choose|i: int| 0 <= i < n && (#[trigger] s1[i].seg_map().contains_key(kv2));
                if i == j {
                    assert(s2[j].seg_map().contains_key(kv2));
                } else {
                    assert(s2[i].seg_map().contains_key(kv2));
                }
            }
        }
    }
    assert(u2 =~= u1.remove(kv));
}

/// The occupied slots of the first `n` segments, summed.
pub open spec fn sum_filled_up_to<K: MapKey, V>(segs: Seq<Segment<K, V>>, n: int) -> nat
    decreases n,
{
    if n <= 0 {
        0
    } else {
        sum_filled_up_to(segs, n - 1) + segs[n - 1].filled_count()
    }
}

/// Each segment's occupied count is within the sum.
pub proof fn lemma_sum_filled_le<K: MapKey, V>(segs: Seq<Segment<K, V>>, n: int, i: int)
    requires
        0 <= i < n <= segs.len(),
    ensures
        segs[i].filled_count() <= sum_filled_up_to(segs, n),
    decreases n,
{
    if i < n - 1 {
        lemma_sum_filled_le(segs, n - 1, i);
    }
}

/// Replacing one segment changes the sum by the difference of the two
/// occupied counts.
pub proof fn lemma_sum_filled_update<K: MapKey, V>(
    s1: Seq<Segment<K, V>>,
    s2: Seq<Segment<K, V>>,
    j: int,
    n: int,
)
    requires
        s1.len() == s2.len(),
        0 <= j < s1.len(),
        0 <= n <= s1.len(),
        forall|t: int| 0 <= t < s1.len() && t != j ==> #[trigger] s2[t] == s1[t],
    ensures
        j < n ==> sum_filled_up_to(s2, n) + s1[j].filled_count() == sum_filled_up_to(s1, n)
            + s2[j].filled_count(),
        n <= j ==> sum_filled_up_to(s2, n) == sum_filled_up_to(s1, n),
    decreases n,
{
    if n > 0 {
        lemma_sum_filled_update(s1, s2, j, n - 1);
    }
}

/// A sum over segments with no occupied slots is zero.
pub proof fn lemma_sum_filled_zero<K: MapKey, V>(segs: Seq<Segment<K, V>>, n: int)
    requires
        0 <= n <= segs.len(),
        forall|i: int| 0 <= i < n ==> (#[trigger] segs[i]).filled_count() == 0,
    ensures
        sum_filled_up_to(segs, n) == 0,
    decreases n,
{
    if n > 0 {
        lemma_sum_filled_zero(segs, n - 1);
    }
}

/// The union never holds more mappings than there are occupied slots.
pub proof fn lemma_union_le_filled<K: MapKey, V>(
    segs: Seq<Segment<K, V>>,
    n: int,
    b: HashBuilder,
    shift: u32,
)
    requires
        0 <= n <= segs.len(),
        routed(segs, b, shift),
        forall|i: int| 0 <= i < segs.len() ==> (#[trigger] segs[i]).inv(b),
    ensures
        union_up_to(segs, n).len() <= sum_filled_up_to(segs, n),
    decreases n,
{
    if n > 0 {
        lemma_union_le_filled(segs, n - 1, b, shift);
        lemma_union_char(segs, n - 1, b, shift);
        let upre = union_up_to(segs, n - 1);
        let msg = segs[n - 1].seg_map();
        match segs[n - 1].bucket_array {
            Some(a) => {
                lemma_slots_map_char::<K, V>(a.buckets@);
                assert(msg.len() <= segs[n - 1].filled_count());
            },
            None => {
                assert(msg.dom() =~= Set::<K::V>::empty());
            },
        }
        assert(union_up_to(segs, n).dom() =~= upre.dom() + msg.dom());
        lemma_len_union(upre.dom(), msg.dom());
    }
}

impl<K: MapKey, V> Segment<K, V> {
    /// Finds the slot of the live mapping for `key` in this segment.
    pub fn find_index(&self, key: &K, h: u64, Ghost(b): Ghost<HashBuilder>) -> (r: Option<usize>)
        requires
            self.inv(b),
            h == K::hash_of(key@, b),
        ensures
            match r {
                Some(i) => self.bucket_array is Some && (i as int) < self.bucket_array->0.cap()
                    && self.bucket_array->0.slots()[i as int].is_live_for(key@)
                    && self.seg_map().contains_key(key@) && self.seg_map()[key@]
                    == self.bucket_array->0.slots()[i as int].value_at(),
                None => !self.seg_map().contains_key(key@),
            },
    {
        match &self.bucket_array {
            Some(a) => a.find_index(key, h),
            None => None,
        }
    }

    /// Borrows the key and value of a live slot of this segment's array.
    pub fn entry(&self, i: usize) -> (e: (&K, &V))
        requires
            self.bucket_array is Some,
            (i as int) < self.bucket_array->0.cap(),
            self.bucket_array->0.slots()[i as int] is Live,
        ensures
            Some(e.0@) == self.bucket_array->0.slots()[i as int].key_view(),
            *e.1 == self.bucket_array->0.slots()[i as int].value_at(),
    {
        match &self.bucket_array {
            Some(a) => a.live_entry(i),
            None => unreached(),
        }
    }

    /// Installs a mapping in this segment, allocating the first array if
    /// none exists yet and rebuilding it at double size when more than half
    /// of its slots become occupied. Returns the displaced pair, if any.
    #[verifier::spinoff_prover]
    #[verifier::rlimit(80)]
    pub fn insert(&mut self, key: K, value: V, h: u64, hasher: &HashBuilder) -> (prev: Option<
        (K, V),
    >)
        requires
            old(self).inv(*hasher),
            old(self).has_room(),
            h == K::hash_of(key@, *hasher),
        ensures
            final(self).inv(*hasher),
            final(self).seg_map() == old(self).seg_map().insert(key@, value),
            final(self).filled_count() <= old(self).filled_count() + 1,
            match prev {
                Some(p) => old(self).seg_map().contains_key(key@) && p.0@ == key@ && p.1 == old(
                    self,
                ).seg_map()[key@] && final(self).len == old(self).len,
                None => !old(self).seg_map().contains_key(key@) && final(self).len as int == old(
                    self,
                ).len as int + 1,
            },
    {
        let arr_opt = self.bucket_array.take();
        let mut arr = match arr_opt {
            Some(a) => a,
            None => {
                proof {
                    reveal_with_fuel(is_pow2, 5);
                    assert(is_pow2(DEFAULT_CAPACITY as nat));
                }
                BucketArray::with_capacity(DEFAULT_CAPACITY, Ghost(*hasher))
            },
        };
        let ghost pre = arr;
        let prev = arr.insert(key, value, h);
        proof {
            lemma_count_le::<K, V>(arr.buckets@);
        }
        let cap = arr.capacity();
        if 2 * arr.filled > cap {
            proof {
                assert(arr.cap() < MAX_CAPACITY as int);
            }
            arr.rebuild(hasher);
        }
        proof {
            lemma_slots_map_char::<K, V>(arr.buckets@);
            lemma_count_le::<K, V>(arr.buckets@);
        }
        if prev.is_none() {
            proof {
                lemma_slots_map_char::<K, V>(pre.buckets@);
                assert(old(self).seg_map() == pre.as_map());
                assert(old(self).seg_map().dom().finite());
                assert(arr.as_map().dom() =~= old(self).seg_map().dom().insert(key@));
                assert(arr.as_map().len() == old(self).seg_map().len() + 1);
            }
            self.len = self.len + 1;
        } else {
            proof {
                assert(arr.as_map().dom() =~= old(self).seg_map().dom());
            }
        }
        self.bucket_array = Some(arr);
        prev
    }

    /// Deletes the live mapping in slot `i` of this segment's array,
    /// leaving a tombstone, and hands back the value.
    pub fn remove_at(&mut self, i: usize, Ghost(b): Ghost<HashBuilder>) -> (v: V)
        requires
            old(self).inv(b),
            old(self).bucket_array is Some,
            (i as int) < old(self).bucket_array->0.cap(),
            old(self).bucket_array->0.slots()[i as int] is Live,
        ensures
            final(self).inv(b),
            final(self).seg_map() == old(self).seg_map().remove(
                old(self).bucket_array->0.slots()[i as int].key_view()->0,
            ),
            final(self).len as int == old(self).len as int - 1,
            final(self).filled_count() == old(self).filled_count(),
            v == old(self).seg_map()[old(self).bucket_array->0.slots()[i as int].key_view()->0],
            old(self).seg_map().contains_key(
                old(self).bucket_array->0.slots()[i as int].key_view()->0,
            ),
    {
        let ghost kv = old(self).bucket_array->0.slots()[i as int].key_view()->0;
        let arr_opt = self.bucket_array.take();
        match arr_opt {
            Some(mut a) => {
                proof {
                    lemma_slots_map_char::<K, V>(a.buckets@);
                    assert(a.as_map().contains_key(kv));
                }
                let v = a.remove_at(i);
                proof {
                    assert(a.as_map().dom() =~= old(self).seg_map().dom().remove(kv));
                }
                self.bucket_array = Some(a);
                self.len = self.len - 1;
                v
            },
            None => unreached(),
        }
    }

    /// Replaces the value of the live mapping in slot `i` of this
    /// segment's array, and hands back the previous value.
    pub fn replace_at(&mut self, i: usize, value: V, Ghost(b): Ghost<HashBuilder>) -> (prev: V)
        requires
            old(self).inv(b),
            old(self).bucket_array is Some,
            (i as int) < old(self).bucket_array->0.cap(),
            old(self).bucket_array->0.slots()[i as int] is Live,
        ensures
            final(self).inv(b),
            final(self).seg_map() == old(self).seg_map().insert(
                old(self).bucket_array->0.slots()[i as int].key_view()->0,
                value,
            ),
            final(self).len == old(self).len,
            final(self).filled_count() == old(self).filled_count(),
            prev == old(self).seg_map()[old(self).bucket_array->0.slots()[i as int].key_view()->0],
            old(self).seg_map().contains_key(
                old(self).bucket_array->0.slots()[i as int].key_view()->0,
            ),
    {
        let ghost kv = old(self).bucket_array->0.slots()[i as int].key_view()->0;
        let arr_opt = self.bucket_array.take();
        match arr_opt {
            Some(mut a) => {
                proof {
                    lemma_slots_map_char::<K, V>(a.buckets@);
                    assert(a.as_map().contains_key(kv));
                }
                let prev = a.replace_at(i, value);
                proof {
                    assert(a.as_map().dom() =~= old(self).seg_map().dom());
                }
                self.bucket_array = Some(a);
                prev
            },
            None => unreached(),
        }
    }
}

/// The least power of two that is at least `n`.
fn round_up_pow2(n: usize) -> (r: usize)
    requires
        1 <= n <= MAX_CAPACITY,
    ensures
        is_pow2(r as nat),
        n <= r && (r as int) < 2 * (n as int),
{
    let mut p: usize = 1;
    while p < n
        invariant
            1 <= p,
            is_pow2(p as nat),
            (p as int) < 2 * (n as int),
            n <= MAX_CAPACITY,
        decreases 2 * (n as int) - p,
    {
        p = 2 * p;
    }
    p
}

/// `MAX_SEGMENTS` is a power of two on every machine word.
pub proof fn lemma_max_segments_pow2()
    ensures
        is_pow2(MAX_SEGMENTS as nat),
{
    lemma2_to64();
    lemma2_to64_rest();
    if usize::MAX as nat == 0xffff_ffffnat {
        assert(MAX_SEGMENTS as nat == pow2(28));
        lemma_is_pow2_pow2(28);
    } else {
        assert(usize::MAX as nat == 0xffff_ffff_ffff_ffffnat);
        assert(MAX_SEGMENTS as nat == pow2(60));
        lemma_is_pow2_pow2(60);
    }
}

/// The bit shift that routes a 64-bit hash to one of `nseg` segments:
/// `64` minus the logarithm of `nseg`.
fn shift_for(nseg: usize) -> (shift: u32)
    requires
        is_pow2(nseg as nat),
        1 <= nseg <= MAX_SEGMENTS,
    ensures
        shift <= 64,
        nseg as nat == pow2((64 - shift) as nat),
{
    proof {
        lemma2_to64();
    }
    let mut m: usize = 1;
    let mut shift: u32 = 64;
    while m < nseg
        invariant
            is_pow2(m as nat),
            m as nat == pow2((64 - shift) as nat),
            shift <= 64,
            m <= nseg,
            is_pow2(nseg as nat),
        decreases nseg - m,
    {
        proof {
            lemma2_to64();
            if shift == 0 {
                lemma2_to64_rest();
                assert(usize::MAX as nat == 0xffff_ffffnat || usize::MAX as nat
                    == 0xffff_ffff_ffff_ffffnat);
                assert(m as nat == pow2(64));
                assert(false);
            }
            lemma_pow2_double_le(m as nat, nseg as nat);
            lemma_pow2_adds((64 - shift) as nat, 1);
        }
        m = 2 * m;
        shift = shift - 1;
    }
    shift
}

/// Relies on `num_cpus::get`: the number of logical CPUs of the running
/// system, which is always at least one.
#[verifier::external_body]
fn cpu_count() -> (n: usize)
    ensures
        1 <= n,
{
    num_cpus::get()
}

/// Twice the CPU count, capped at the largest segment count.
fn default_num_segments() -> (n: usize)
    ensures
        2 <= n <= MAX_SEGMENTS,
        n % 2 == 0,
{
    let cpus = cpu_count();
    let capped = if cpus > MAX_SEGMENTS / 2 {
        MAX_SEGMENTS / 2
    } else {
        cpus
    };
    2 * capped
}

/// A hash map segmented into independent shards, with open addressing and
/// linear probing inside each shard.
pub struct HashMap<K, V> {
    pub segments: Vec<Segment<K, V>>,
    pub build_hasher: HashBuilder,
    pub len: usize,
    pub segment_shift: u32,
}

impl<K: MapKey, V> View for HashMap<K, V> {
    type V = Map<<K as View>::V, V>;

    open spec fn view(&self) -> Map<<K as View>::V, V> {
        union_up_to(self.segments@, self.segments@.len() as int)
    }
}

impl<K: MapKey, V> HashMap<K, V> {
    /// Well-formed: a power-of-two number of segments matched by the
    /// shift, each segment well-formed and holding only the keys routed to
    /// it, and an aggregate count equal to the model's size.
    pub open spec fn inv(self) -> bool {
        let n = self.segments@.len() as int;
        &&& 0 < n <= MAX_SEGMENTS as int
        &&& is_pow2(n as nat)
        &&& self.segment_shift <= 64
        &&& n == pow2((64 - self.segment_shift) as nat) as int
        &&& forall|i: int|
            0 <= i < n ==> (#[trigger] self.segments@[i]).inv(self.build_hasher)
        &&& routed(self.segments@, self.build_hasher, self.segment_shift)
        &&& self.len as nat == self@.len()
    }

    /// Every segment can still take one more occupied slot, and the
    /// aggregate counter can still grow; inserts demand this so that no
    /// bucket array has to grow past its largest size and the count never
    /// overflows the machine word.
    pub open spec fn has_room(self) -> bool {
        &&& forall|i: int|
            0 <= i < self.segments@.len() ==> (#[trigger] self.segments@[i]).has_room()
        &&& self.len < usize::MAX
    }

    /// The occupied slots across all segments: live mappings plus
    /// tombstones. An insert adds at most one; removals, modifications
    /// and rebuilds never add any.
    pub open spec fn load(self) -> nat {
        sum_filled_up_to(self.segments@, self.segments@.len() as int)
    }

    /// Room to insert follows from the load: while fewer than half of the
    /// largest array's slots are accounted for, every segment can take one
    /// more occupied slot and the aggregate counter cannot overflow.
    pub proof fn lemma_room_from_load(self)
        requires
            self.inv(),
            2 * (self.load() + 1) <= MAX_CAPACITY as nat,
        ensures
            self.has_room(),
    {
        let n = self.segments@.len() as int;
        assert forall|i: int| 0 <= i < n implies (#[trigger] self.segments@[i]).has_room() by {
            lemma_sum_filled_le(self.segments@, n, i);
        }
        lemma_union_le_filled(self.segments@, n, self.build_hasher, self.segment_shift);
        assert(self.len < usize::MAX);
    }

    /// Creates an empty map with the given number of segments, per-segment
    /// capacity, and hash builder. The number of segments is rounded up to
    /// a power of two. A capacity of zero defers every allocation to the
    /// first insert of each segment; otherwise each segment can hold at
    /// least `capacity` mappings before its array grows.
    pub fn with_num_segments_capacity_and_hasher(
        num_segments: usize,
        capacity: usize,
        build_hasher: HashBuilder,
    ) -> (r: Self)
        requires
            1 <= num_segments <= MAX_SEGMENTS,
            capacity <= MAX_CAPACITY / 4,
        ensures
            r.inv(),
            r@ == Map::<K::V, V>::empty(),
            r.len == 0,
            r.build_hasher == build_hasher,
            num_segments <= r.segments@.len() && (r.segments@.len() as int) < 2 * (
            num_segments as int),
            num_segments == 1 ==> r.segment_shift == 64,
            is_pow2(r.segments@.len() as nat),
            r.load() == 0,
            capacity == 0 ==> forall|i: int|
                0 <= i < r.segments@.len() ==> (#[trigger] r.segments@[i]).bucket_array is None,
            capacity > 0 ==> forall|i: int|
                0 <= i < r.segments@.len() ==> (#[trigger] r.segments@[i]).bucket_array is Some
                    && r.segments@[i].bucket_array->0.cap() >= 2 * capacity
                    && r.segments@[i].bucket_array->0.cap() < 4 * capacity
                    && is_pow2(r.segments@[i].bucket_array->0.cap() as nat)
                    && r.segments@[i].bucket_array->0.filled == 0,
    {
        let actual_num_segments = round_up_pow2(num_segments);
        proof {
            lemma_max_segments_pow2();
            if actual_num_segments > MAX_SEGMENTS {
                lemma_pow2_double_le(MAX_SEGMENTS as nat, actual_num_segments as nat);
                assert(false);
            }
        }
        let segment_shift = shift_for(actual_num_segments);
        proof {
            if actual_num_segments == 1 {
                lemma_pow2_pos((64 - segment_shift) as nat);
                if segment_shift < 64 {
                    lemma_pow2_strictly_increases(0, (64 - segment_shift) as nat);
                    lemma2_to64();
                    assert(false);
                }
            }
        }
        let mut segments: Vec<Segment<K, V>> = Vec::new();
        if capacity == 0 {
            let mut i: usize = 0;
            while i < actual_num_segments
                invariant
                    i <= actual_num_segments,
                    segments@.len() == i,
                    forall|t: int|
                        0 <= t < i ==> (#[trigger] segments@[t]).bucket_array is None
                            && segments@[t].len == 0,
                decreases actual_num_segments - i,
            {
                segments.push(Segment::empty());
                i += 1;
            }
        } else {
            let actual_capacity = round_up_pow2(2 * capacity);
            let mut i: usize = 0;
            while i < actual_num_segments
                invariant
                    i <= actual_num_segments,
                    segments@.len() == i,
                    0 < actual_capacity <= MAX_CAPACITY,
                    is_pow2(actual_capacity as nat),
                    actual_capacity >= 2 * capacity,
                    (actual_capacity as int) < 4 * (capacity as int),
                    forall|t: int|
                        0 <= t < i ==> (#[trigger] segments@[t]).bucket_array is Some
                            && segments@[t].len == 0 && segments@[t].bucket_array->0.cap()
                            == actual_capacity && segments@[t].bucket_array->0.filled == 0
                            && segments@[t].inv(build_hasher)
                            && segments@[t].seg_map() == Map::<K::V, V>::empty(),
                decreases actual_num_segments - i,
            {
                let arr = BucketArray::with_capacity(actual_capacity, Ghost(build_hasher));
                segments.push(Segment { bucket_array: Some(arr), len: 0 });
                i += 1;
            }
        }
        let r = HashMap { segments, build_hasher, len: 0, segment_shift };
        proof {
            assert forall|i: int, kv: K::V|
                0 <= i < r.segments@.len() && (#[trigger] r.segments@[i].seg_map().contains_key(
                    kv,
                )) implies segment_of(K::hash_of(kv, build_hasher), segment_shift) == i by {
                assert(!r.segments@[i].seg_map().contains_key(kv));
            }
            lemma_union_char(r.segments@, r.segments@.len() as int, build_hasher, segment_shift);
            assert(r@ =~= Map::<K::V, V>::empty());
            assert(r@.dom() =~= Set::<K::V>::empty());
            lemma_sum_filled_zero(r.segments@, r.segments@.len() as int);
        }
        r
    }

    /// The number of live mappings in the map.
    pub fn len(&self) -> (n: usize)
        requires
            self.inv(),
        ensures
            n as nat == self@.len(),
    {
        self.len
    }

    /// True when the map holds no mappings.
    pub fn is_empty(&self) -> (r: bool)
        requires
            self.inv(),
        ensures
            r == (self@.len() == 0),
    {
        self.len() == 0
    }

    /// The number of segments.
    pub fn num_segments(&self) -> (n: usize)
        requires
            self.inv(),
        ensures
            n == self.segments@.len(),
    {
        self.segments.len()
    }

    /// The index of the segment that a hash selects.
    fn segment_index_from_hash(&self, hash: u64) -> (r: usize)
        requires
            self.inv(),
        ensures
            r as int == segment_of(hash, self.segment_shift),
            (r as int) < self.segments@.len(),
    {
        if self.segment_shift == 64 {
            0
        } else {
            proof {
                lemma_u64_shr_is_div(hash, self.segment_shift as u64);
                lemma_pow2_adds(self.segment_shift as nat, (64 - self.segment_shift) as nat);
                lemma_pow2_pos(self.segment_shift as nat);
                lemma2_to64_rest();
                assert((hash as int) < pow2(self.segment_shift as nat) * pow2(
                    (64 - self.segment_shift) as nat,
                ));
                lemma_multiply_divide_lt(
                    hash as int,
                    pow2(self.segment_shift as nat) as int,
                    pow2((64 - self.segment_shift) as nat) as int,
                );
            }
            (hash >> (self.segment_shift as u64)) as usize
        }
    }

    /// The index of the segment that `key` would live in.
    pub fn segment_index(&self, key: &K) -> (r: usize)
        requires
            self.inv(),
        ensures
            r as int == segment_of(K::hash_of(key@, self.build_hasher), self.segment_shift),
            (r as int) < self.segments@.len(),
    {
        let hash = key.key_hash(&self.build_hasher);
        self.segment_index_from_hash(hash)
    }

    /// Installs a mapping, returning the displaced pair if the key was
    /// already live. The single place where the aggregate count grows.
    fn insert_pair(&mut self, key: K, value: V) -> (prev: Option<(K, V)>)
        requires
            old(self).inv(),
            old(self).has_room(),
        ensures
            final(self).inv(),
            final(self)@ == old(self)@.insert(key@, value),
            final(self).segments@.len() == old(self).segments@.len(),
            final(self).segment_shift == old(self).segment_shift,
            final(self).build_hasher == old(self).build_hasher,
            final(self).load() <= old(self).load() + 1,
            match prev {
                Some(p) => old(self)@.contains_key(key@) && p.0@ == key@ && p.1 == old(
                    self,
                )@[key@],
                None => !old(self)@.contains_key(key@),
            },
    {
        let ghost kv = key@;
        let h = key.key_hash(&self.build_hasher);
        let j = self.segment_index_from_hash(h);
        let ghost segs1 = self.segments@;
        let ghost b = self.build_hasher;
        let ghost n = segs1.len() as int;
        let mut seg = Segment::empty();
        self.segments.set_and_swap(j, &mut seg);
        let prev = seg.insert(key, value, h, &self.build_hasher);
        self.segments.set_and_swap(j, &mut seg);
        proof {
            assert(self.segments@ =~= segs1.update(j as int, self.segments@[j as int]));
            lemma_sum_filled_update(segs1, self.segments@, j as int, n);
            lemma_union_char(segs1, n, b, old(self).segment_shift);
            lemma_union_insert(
                segs1,
                self.segments@,
                j as int,
                kv,
                value,
                b,
                old(self).segment_shift,
            );
            if !segs1[j as int].seg_map().contains_key(kv) {
                assert(!old(self)@.contains_key(kv)) by {
                    if old(self)@.contains_key(kv) {
                        let i = choose|i: int|
                            0 <= i < n && (#[trigger] segs1[i].seg_map().contains_key(kv));
                        assert(i == j as int);
                    }
                }
            }
        }
        if prev.is_none() {
            proof {
                assert(self@.dom() =~= old(self)@.dom().insert(kv));
            }
            self.len = self.len + 1;
        } else {
            proof {
                assert(self@.dom() =~= old(self)@.dom());
            }
        }
        prev
    }

    /// Removes the mapping for `key` if `condition` approves of it,
    /// returning the result of `with_previous_entry` on the removed pair.
    pub fn remove_entry_if_and<F: Fn(&K, &V) -> bool, G: FnOnce(&K, &V) -> T, T>(
        &mut self,
        key: &K,
        condition: F,
        with_previous_entry: G,
    ) -> (r: Option<T>)
        requires
            old(self).inv(),
            forall|a: (&K, &V)| #[trigger] call_requires(condition, a),
            old(self)@.contains_key(key@) ==> forall|a: (&K, &V)|
                a.0@ == key@ && *a.1 == old(self)@[key@] ==> #[trigger] call_requires(
                    with_previous_entry,
                    a,
                ),
        ensures
            final(self).inv(),
            final(self).segments@.len() == old(self).segments@.len(),
            final(self).segment_shift == old(self).segment_shift,
            final(self).build_hasher == old(self).build_hasher,
            final(self).load() <= old(self).load(),
            match r {
                Some(t) => old(self)@.contains_key(key@) && final(self)@ == old(self)@.remove(
                    key@,
                ) && exists|a: (&K, &V)|
                    a.0@ == key@ && *a.1 == old(self)@[key@] && #[trigger] call_ensures(
                        condition,
                        a,
                        true,
                    ) && call_ensures(with_previous_entry, a, t),
                None => final(self)@ == old(self)@ && (old(self)@.contains_key(key@)
                    ==> exists|a: (&K, &V)|
                    a.0@ == key@ && *a.1 == old(self)@[key@] && #[trigger] call_ensures(
                        condition,
                        a,
                        false,
                    )),
            },
    {
        let ghost kv = key@;
        let h = key.key_hash(&self.build_hasher);
        let j = self.segment_index_from_hash(h);
        let ghost segs1 = self.segments@;
        let ghost b = self.build_hasher;
        let ghost n = segs1.len() as int;
        proof {
            lemma_union_char(segs1, n, b, old(self).segment_shift);
        }
        let mut seg = Segment::empty();
        self.segments.set_and_swap(j, &mut seg);
        let found = seg.find_index(key, h, Ghost(b));
        proof {
            if found is None && old(self)@.contains_key(kv) {
                let i = choose|i: int|
                    0 <= i < n && (#[trigger] segs1[i].seg_map().contains_key(kv));
                assert(i == j as int);
                assert(false);
            }
        }
        match found {
            Some(i) => {
                let e = seg.entry(i);
                let ghost ka = e.0;
                let ghost va = e.1;
                proof {
                    assert(old(self)@.contains_key(kv));
                    assert(*va == old(self)@[kv]);
                }
                let holds = condition(e.0, e.1);
                if holds {
                    let t = with_previous_entry(e.0, e.1);
                    let _removed = seg.remove_at(i, Ghost(b));
                    self.segments.set_and_swap(j, &mut seg);
                    proof {
                        assert(self.segments@ =~= segs1.update(j as int, self.segments@[j as int]));
                        lemma_sum_filled_update(segs1, self.segments@, j as int, n);
                        lemma_union_remove(
                            segs1,
                            self.segments@,
                            j as int,
                            kv,
                            b,
                            old(self).segment_shift,
                        );
                        assert(self@.dom() =~= old(self)@.dom().remove(kv));
                        assert(old(self)@.dom().contains(kv));
                        assert(self.len >= 1);
                    }
                    self.len = self.len - 1;
                    Some(t)
                } else {
                    self.segments.set_and_swap(j, &mut seg);
                    proof {
                        assert(self.segments@ =~= segs1);
                        assert(call_ensures(condition, (ka, va), false));
                    }
                    None
                }
            },
            None => {
                self.segments.set_and_swap(j, &mut seg);
                proof {
                    assert(self.segments@ =~= segs1);
                }
                None
            },
        }
    }

    /// Applies `on_modify` to the live mapping for `key`, installing its
    /// result, and returns the result of `with_old_entry` on the previous
    /// pair. An absent key is left absent.
    pub fn modify_entry_and<F: Fn(&K, &V) -> V, G: FnOnce(&K, &V) -> T, T>(
        &mut self,
        key: K,
        on_modify: F,
        with_old_entry: G,
    ) -> (r: Option<T>)
        requires
            old(self).inv(),
            forall|a: (&K, &V)| #[trigger] call_requires(on_modify, a),
            old(self)@.contains_key(key@) ==> forall|a: (&K, &V)|
                a.0@ == key@ && *a.1 == old(self)@[key@] ==> #[trigger] call_requires(
                    with_old_entry,
                    a,
                ),
        ensures
            final(self).inv(),
            final(self).segments@.len() == old(self).segments@.len(),
            final(self).segment_shift == old(self).segment_shift,
            final(self).build_hasher == old(self).build_hasher,
            final(self).load() <= old(self).load(),
            match r {
                Some(t) => old(self)@.contains_key(key@) && exists|a: (&K, &V), nv: V|
                    a.0@ == key@ && *a.1 == old(self)@[key@] && #[trigger] call_ensures(
                        on_modify,
                        a,
                        nv,
                    ) && call_ensures(with_old_entry, a, t) && final(self)@ == old(
                        self,
                    )@.insert(key@, nv),
                None => !old(self)@.contains_key(key@) && final(self)@ == old(self)@,
            },
    {
        let ghost kv = key@;
        let h = key.key_hash(&self.build_hasher);
        let j = self.segment_index_from_hash(h);
        let ghost segs1 = self.segments@;
        let ghost b = self.build_hasher;
        let ghost n = segs1.len() as int;
        proof {
            lemma_union_char(segs1, n, b, old(self).segment_shift);
        }
        let mut seg = Segment::empty();
        self.segments.set_and_swap(j, &mut seg);
        let found = seg.find_index(&key, h, Ghost(b));
        proof {
            if found is None && old(self)@.contains_key(kv) {
                let i = choose|i: int|
                    0 <= i < n && (#[trigger] segs1[i].seg_map().contains_key(kv));
                assert(i == j as int);
                assert(false);
            }
        }
        match found {
            Some(i) => {
                let e = seg.entry(i);
                let ghost ka = e.0;
                let ghost va = e.1;
                proof {
                    assert(old(self)@.contains_key(kv));
                    assert(*va == old(self)@[kv]);
                }
                let nv = on_modify(e.0, e.1);
                let t = with_old_entry(e.0, e.1);
                let ghost nv_g = nv;
                let _prev = seg.replace_at(i, nv, Ghost(b));
                self.segments.set_and_swap(j, &mut seg);
                proof {
                    assert(self.segments@ =~= segs1.update(j as int, self.segments@[j as int]));
                    lemma_sum_filled_update(segs1, self.segments@, j as int, n);
                    lemma_union_insert(
                        segs1,
                        self.segments@,
                        j as int,
                        kv,
                        nv_g,
                        b,
                        old(self).segment_shift,
                    );
                    assert(self@.dom() =~= old(self)@.dom());
                    assert(call_ensures(on_modify, (ka, va), nv_g));
                }
                Some(t)
            },
            None => {
                self.segments.set_and_swap(j, &mut seg);
                proof {
                    assert(self.segments@ =~= segs1);
                }
                None
            },
        }
    }

    /// Installs `on_insert`'s result if `key` is absent; otherwise installs
    /// `on_modify`'s result over the live pair and returns the result of
    /// `with_old_entry` on the previous pair.
    pub fn insert_with_or_modify_entry_and<
        F: FnOnce() -> V,
        G: Fn(&K, &V) -> V,
        H: FnOnce(&K, &V) -> T,
        T,
    >(
        &mut self,
        key: K,
        on_insert: F,
        on_modify: G,
        with_old_entry: H,
    ) -> (r: Option<T>)
        requires
            old(self).inv(),
            old(self).has_room(),
            call_requires(on_insert, ()),
            forall|a: (&K, &V)| #[trigger] call_requires(on_modify, a),
            old(self)@.contains_key(key@) ==> forall|a: (&K, &V)|
                a.0@ == key@ && *a.1 == old(self)@[key@] ==> #[trigger] call_requires(
                    with_old_entry,
                    a,
                ),
        ensures
            final(self).inv(),
            final(self).segments@.len() == old(self).segments@.len(),
            final(self).segment_shift == old(self).segment_shift,
            final(self).build_hasher == old(self).build_hasher,
            final(self).load() <= old(self).load() + 1,
            match r {
                Some(t) => old(self)@.contains_key(key@) && exists|a: (&K, &V), nv: V|
                    a.0@ == key@ && *a.1 == old(self)@[key@] && #[trigger] call_ensures(
                        on_modify,
                        a,
                        nv,
                    ) && call_ensures(with_old_entry, a, t) && final(self)@ == old(
                        self,
                    )@.insert(key@, nv),
                None => !old(self)@.contains_key(key@) && exists|nv: V|
                    #[trigger] call_ensures(on_insert, (), nv) && final(self)@ == old(
                        self,
                    )@.insert(key@, nv),
            },
    {
        let ghost kv = key@;
        let h = key.key_hash(&self.build_hasher);
        let j = self.segment_index_from_hash(h);
        let ghost segs1 = self.segments@;
        let ghost b = self.build_hasher;
        let ghost n = segs1.len() as int;
        proof {
            lemma_union_char(segs1, n, b, old(self).segment_shift);
        }
        let mut seg = Segment::empty();
        self.segments.set_and_swap(j, &mut seg);
        let found = seg.find_index(&key, h, Ghost(b));
        proof {
            if found is None && old(self)@.contains_key(kv) {
                let i = choose|i: int|
                    0 <= i < n && (#[trigger] segs1[i].seg_map().contains_key(kv));
                assert(i == j as int);
                assert(false);
            }
        }
        match found {
            Some(i) => {
                let e = seg.entry(i);
                let ghost ka = e.0;
                let ghost va = e.1;
                proof {
                    assert(old(self)@.contains_key(kv));
                    assert(*va == old(self)@[kv]);
                }
                let nv = on_modify(e.0, e.1);
                let t = with_old_entry(e.0, e.1);
                let ghost nv_g = nv;
                let _prev = seg.replace_at(i, nv, Ghost(b));
                self.segments.set_and_swap(j, &mut seg);
                proof {
                    assert(self.segments@ =~= segs1.update(j as int, self.segments@[j as int]));
                    lemma_sum_filled_update(segs1, self.segments@, j as int, n);
                    lemma_union_insert(
                        segs1,
                        self.segments@,
                        j as int,
                        kv,
                        nv_g,
                        b,
                        old(self).segment_shift,
                    );
                    assert(self@.dom() =~= old(self)@.dom());
                    assert(call_ensures(on_modify, (ka, va), nv_g));
                }
                Some(t)
            },
            None => {
                let value = on_insert();
                let ghost nv_g = value;
                let prev = seg.insert(key, value, h, &self.build_hasher);
                self.segments.set_and_swap(j, &mut seg);
                proof {
                    assert(prev is None);
                    assert(self.segments@ =~= segs1.update(j as int, self.segments@[j as int]));
                    lemma_sum_filled_update(segs1, self.segments@, j as int, n);
                    lemma_union_insert(
                        segs1,
                        self.segments@,
                        j as int,
                        kv,
                        nv_g,
                        b,
                        old(self).segment_shift,
                    );
                    assert(self@.dom() =~= old(self)@.dom().insert(kv));
                }
                self.len = self.len + 1;
                None
            },
        }
    }

    /// The fewest slots any one segment has; zero while a segment's first
    /// array has not been allocated.
    pub fn capacity(&self) -> (c: usize)
        requires
            self.inv(),
        ensures
            exists|i: int|
                0 <= i < self.segments@.len() && c as int == seg_capacity_spec(
                    #[trigger] self.segments@[i],
                ),
            forall|i: int|
                0 <= i < self.segments@.len() ==> c as int <= seg_capacity_spec(
                    #[trigger] self.segments@[i],
                ),
    {
        let mut c = self.segment_capacity(0);
        let mut i: usize = 1;
        while i < self.segments.len()
            invariant
                self.inv(),
                1 <= i <= self.segments@.len(),
                exists|t: int|
                    0 <= t < i && c as int == seg_capacity_spec(#[trigger] self.segments@[t]),
                forall|t: int|
                    0 <= t < i ==> c as int <= seg_capacity_spec(#[trigger] self.segments@[t]),
            decreases self.segments@.len() - i,
        {
            let sc = self.segment_capacity(i);
            if sc < c {
                c = sc;
            }
            i += 1;
        }
        c
    }

    /// The number of slots of the `index`-th segment; zero while its first
    /// array has not been allocated.
    pub fn segment_capacity(&self, index: usize) -> (c: usize)
        requires
            self.inv(),
            (index as int) < self.segments@.len(),
        ensures
            c as int == seg_capacity_spec(self.segments@[index as int]),
    {
        let seg = &self.segments[index];
        match &seg.bucket_array {
            Some(a) => a.capacity(),
            None => 0,
        }
    }
}

/// The number of slots of a segment's array, or zero before allocation.
pub open spec fn seg_capacity_spec<K: MapKey, V>(seg: Segment<K, V>) -> int {
    match seg.bucket_array {
        Some(a) => a.cap(),
        None => 0,
    }
}

/// Holds when `t` can be the result of applying `f` to a borrowed entry
/// whose key has view `kview` and whose value is `v`.
pub open spec fn projects_entry<K: MapKey, V, T, F: FnOnce(&K, &V) -> T>(
    f: F,
    kview: K::V,
    v: V,
    t: T,
) -> bool {
    exists|k: K| k@ == kview && #[trigger] call_ensures(f, (&k, &v), t)
}

/// Holds when `nv` can be the result of applying the modifier `f` to a
/// borrowed entry whose key has view `kview` and whose value is `v`.
pub open spec fn modifies_entry<K: MapKey, V, F: Fn(&K, &V) -> V>(
    f: F,
    kview: K::V,
    v: V,
    nv: V,
) -> bool {
    exists|k: K| k@ == kview && #[trigger] call_ensures(f, (&k, &v), nv)
}

impl<K: MapKey, V> HashMap<K, V> {
    /// Finds the segment and slot of the live mapping for `key`, if any.
    fn locate(&self, key: &K) -> (r: (usize, Option<usize>))
        requires
            self.inv(),
        ensures
            (r.0 as int) < self.segments@.len(),
            match r.1 {
                Some(i) => self.segments@[r.0 as int].bucket_array is Some && (i as int)
                    < self.segments@[r.0 as int].bucket_array->0.cap()
                    && self.segments@[r.0 as int].bucket_array->0.slots()[i as int].is_live_for(
                    key@,
                ) && self@.contains_key(key@) && self@[key@] == self.segments@[r.0 as int]
                    .bucket_array->0.slots()[i as int].value_at(),
                None => !self@.contains_key(key@),
            },
    {
        let ghost kv = key@;
        let ghost n = self.segments@.len() as int;
        proof {
            lemma_union_char(self.segments@, n, self.build_hasher, self.segment_shift);
        }
        let h = key.key_hash(&self.build_hasher);
        let j = self.segment_index_from_hash(h);
        let seg = &self.segments[j];
        let found = seg.find_index(key, h, Ghost(self.build_hasher));
        proof {
            if found is None && self@.contains_key(kv) {
                let i = choose|i: int|
                    0 <= i < n && (#[trigger] self.segments@[i].seg_map().contains_key(kv));
                assert(i == j as int);
                assert(false);
            }
        }
        (j, found)
    }

    /// The value mapped to `key`, as a clone, or nothing if the key is
    /// absent.
    pub fn get(&self, key: &K) -> (r: Option<V>) where V: Clone
        requires
            self.inv(),
        ensures
            match r {
                Some(v) => self@.contains_key(key@) && cloned(self@[key@], v),
                None => !self@.contains_key(key@),
            },
    {
        let (j, found) = self.locate(key);
        match found {
            Some(i) => {
                let seg = &self.segments[j];
                let e = seg.entry(i);
                Some(e.1.clone())
            },
            None => None,
        }
    }

    /// The key-value pair for `key`, as clones, or nothing if the key is
    /// absent.
    pub fn get_key_value(&self, key: &K) -> (r: Option<(K, V)>) where V: Clone
        requires
            self.inv(),
        ensures
            match r {
                Some(p) => self@.contains_key(key@) && p.0@ == key@ && cloned(self@[key@], p.1),
                None => !self@.contains_key(key@),
            },
    {
        let (j, found) = self.locate(key);
        match found {
            Some(i) => {
                let seg = &self.segments[j];
                let e = seg.entry(i);
                Some((e.0.key_clone(), e.1.clone()))
            },
            None => None,
        }
    }

    /// Applies `with_value` to the value mapped to `key`, if any.
    #[verifier::spinoff_prover]
    #[verifier::rlimit(60)]
    pub fn get_and<F: FnOnce(&V) -> T, T>(&self, key: &K, with_value: F) -> (r: Option<T>)
        requires
            self.inv(),
            self@.contains_key(key@) ==> forall|a: (&V,)|
                *a.0 == self@[key@] ==> #[trigger] call_requires(with_value, a),
        ensures
            r is Some ==> self@.contains_key(key@) && call_ensures(
                with_value,
                (&self@[key@],),
                r->0,
            ),
            r is None ==> !self@.contains_key(key@),
    {
        let (j, found) = self.locate(key);
        match found {
            Some(i) => {
                let seg = &self.segments[j];
                let e = seg.entry(i);
                let ghost va = e.1;
                proof {
                    assert(*va == self@[key@]);
                }
                let t = with_value(e.1);
                proof {
                    assert(call_ensures(with_value, (va,), t));
                }
                Some(t)
            },
            None => None,
        }
    }

    /// Applies `with_entry` to the key-value pair for `key`, if any.
    #[verifier::spinoff_prover]
    #[verifier::rlimit(60)]
    pub fn get_key_value_and<F: FnOnce(&K, &V) -> T, T>(&self, key: &K, with_entry: F) -> (r:
        Option<T>)
        requires
            self.inv(),
            self@.contains_key(key@) ==> forall|a: (&K, &V)|
                a.0@ == key@ && *a.1 == self@[key@] ==> #[trigger] call_requires(with_entry, a),
        ensures
            match r {
                Some(t) => self@.contains_key(key@) && projects_entry(
                    with_entry,
                    key@,
                    self@[key@],
                    t,
                ),
                None => !self@.contains_key(key@),
            },
    {
        let (j, found) = self.locate(key);
        match found {
            Some(i) => {
                let seg = &self.segments[j];
                let e = seg.entry(i);
                let ghost ka = e.0;
                let ghost va = e.1;
                proof {
                    assert(*va == self@[key@]);
                }
                let t = with_entry(e.0, e.1);
                proof {
                    assert(call_ensures(with_entry, (ka, va), t));
                    assert(projects_entry(with_entry, key@, self@[key@], t));
                }
                Some(t)
            },
            None => None,
        }
    }

    /// Inserts a key-value pair, returning the previous value if the key
    /// was live.
    pub fn insert(&mut self, key: K, value: V) -> (r: Option<V>) where V: Clone
        requires
            old(self).inv(),
            old(self).has_room(),
        ensures
            final(self).inv(),
            final(self).segments@.len() == old(self).segments@.len(),
            final(self).segment_shift == old(self).segment_shift,
            final(self).build_hasher == old(self).build_hasher,
            final(self).load() <= old(self).load() + 1,
            final(self)@ == old(self)@.insert(key@, value),
            match r {
                Some(v) => old(self)@.contains_key(key@) && v == old(self)@[key@],
                None => !old(self)@.contains_key(key@),
            },
    {
        match self.insert_pair(key, value) {
            Some(p) => Some(p.1),
            None => None,
        }
    }

    /// Inserts a key-value pair, returning the previous pair if the key
    /// was live. The previous key is replaced by the new one.
    pub fn insert_entry(&mut self, key: K, value: V) -> (r: Option<(K, V)>) where
        K: Clone,
        V: Clone,

        requires
            old(self).inv(),
            old(self).has_room(),
        ensures
            final(self).inv(),
            final(self).segments@.len() == old(self).segments@.len(),
            final(self).segment_shift == old(self).segment_shift,
            final(self).build_hasher == old(self).build_hasher,
            final(self).load() <= old(self).load() + 1,
            final(self)@ == old(self)@.insert(key@, value),
            match r {
                Some(p) => old(self)@.contains_key(key@) && p.0@ == key@ && p.1 == old(
                    self,
                )@[key@],
                None => !old(self)@.contains_key(key@),
            },
    {
        self.insert_pair(key, value)
    }

    /// Inserts a key-value pair, applying `with_previous_value` to the
    /// previous value if the key was live.
    #[verifier::spinoff_prover]
    #[verifier::rlimit(60)]
    pub fn insert_and<F: FnOnce(&V) -> T, T>(&mut self, key: K, value: V, with_previous_value: F)
        -> (r: Option<T>)
        requires
            old(self).inv(),
            old(self).has_room(),
            old(self)@.contains_key(key@) ==> forall|a: (&V,)|
                *a.0 == old(self)@[key@] ==> #[trigger] call_requires(with_previous_value, a),
        ensures
            final(self).inv(),
            final(self).segments@.len() == old(self).segments@.len(),
            final(self).segment_shift == old(self).segment_shift,
            final(self).build_hasher == old(self).build_hasher,
            final(self).load() <= old(self).load() + 1,
            final(self)@ == old(self)@.insert(key@, value),
            r matches Some(t) ==> old(self)@.contains_key(key@) && call_ensures(
                with_previous_value,
                (&old(self)@[key@],),
                t,
            ),
            r is None ==> !old(self)@.contains_key(key@),
    {
        match self.insert_pair(key, value) {
            Some(p) => {
                let ghost va = &p.1;
                proof {
                    assert(p.1 == old(self)@[key@]);
                }
                let t = with_previous_value(&p.1);
                proof {
                    assert(call_ensures(with_previous_value, (va,), t));
                }
                Some(t)
            },
            None => None,
        }
    }

    /// Inserts a key-value pair, applying `with_previous_entry` to the
    /// previous pair if the key was live.
    #[verifier::spinoff_prover]
    #[verifier::rlimit(60)]
    pub fn insert_entry_and<F: FnOnce(&K, &V) -> T, T>(
        &mut self,
        key: K,
        value: V,
        with_previous_entry: F,
    ) -> (r: Option<T>)
        requires
            old(self).inv(),
            old(self).has_room(),
            old(self)@.contains_key(key@) ==> forall|a: (&K, &V)|
                a.0@ == key@ && *a.1 == old(self)@[key@] ==> #[trigger] call_requires(
                    with_previous_entry,
                    a,
                ),
        ensures
            final(self).inv(),
            final(self).segments@.len() == old(self).segments@.len(),
            final(self).segment_shift == old(self).segment_shift,
            final(self).build_hasher == old(self).build_hasher,
            final(self).load() <= old(self).load() + 1,
            final(self)@ == old(self)@.insert(key@, value),
            match r {
                Some(t) => old(self)@.contains_key(key@) && projects_entry(
                    with_previous_entry,
                    key@,
                    old(self)@[key@],
                    t,
                ),
                None => !old(self)@.contains_key(key@),
            },
    {
        match self.insert_pair(key, value) {
            Some(p) => {
                let ghost ka = &p.0;
                let ghost va = &p.1;
                proof {
                    assert(p.0@ == key@ && p.1 == old(self)@[key@]);
                }
                let t = with_previous_entry(&p.0, &p.1);
                proof {
                    assert(call_ensures(with_previous_entry, (ka, va), t));
                    assert(projects_entry(with_previous_entry, key@, old(self)@[key@], t));
                }
                Some(t)
            },
            None => None,
        }
    }
}


impl<K: MapKey, V> HashMap<K, V> {
    /// Removes `key`, returning the previous value.
    pub fn remove(&mut self, key: &K) -> (r: Option<V>) where V: Clone
        requires
            old(self).inv(),
        ensures
            final(self).inv(),
            final(self).segments@.len() == old(self).segments@.len(),
            final(self).segment_shift == old(self).segment_shift,
            final(self).build_hasher == old(self).build_hasher,
            final(self).load() <= old(self).load(),
            match r {
                Some(v) => old(self)@.contains_key(key@) && cloned(old(self)@[key@], v)
                    && final(self)@ == old(self)@.remove(key@),
                None => !old(self)@.contains_key(key@) && final(self)@ == old(self)@,
            },
    {
        let cond = |_k: &K, _v: &V| -> (b: bool)
            ensures
                b,
            {
                true
            };
        let proj = |_k: &K, v: &V| -> (c: V)
            ensures
                cloned(*v, c),
            {
                v.clone()
            };
        let r = self.remove_entry_if_and(key, cond, proj);
        proof {
            if r is Some {
                let t = r->0;
                let a = choose|a: (&K, &V)|
                    a.0@ == key@ && *a.1 == old(self)@[key@] && #[trigger] call_ensures(
                        cond,
                        a,
                        true,
                    ) && call_ensures(proj, a, t);
                assert(cloned(old(self)@[key@], t));
            } else {
                if old(self)@.contains_key(key@) {
                    let a = choose|a: (&K, &V)|
                        a.0@ == key@ && *a.1 == old(self)@[key@] && #[trigger] call_ensures(
                            cond,
                            a,
                            false,
                        );
                    assert(false);
                }
            }
        }
        r
    }

    /// Removes `key`, returning the removed pair; the key comes back as a
    /// fresh copy with the same view.
    pub fn remove_entry(&mut self, key: &K) -> (r: Option<(K, V)>) where K: Clone, V: Clone
        requires
            old(self).inv(),
        ensures
            final(self).inv(),
            final(self).segments@.len() == old(self).segments@.len(),
            final(self).segment_shift == old(self).segment_shift,
            final(self).build_hasher == old(self).build_hasher,
            final(self).load() <= old(self).load(),
            match r {
                Some(p) => old(self)@.contains_key(key@) && p.0@ == key@ && cloned(
                    old(self)@[key@],
                    p.1,
                ) && final(self)@ == old(self)@.remove(key@),
                None => !old(self)@.contains_key(key@) && final(self)@ == old(self)@,
            },
    {
        let cond = |_k: &K, _v: &V| -> (b: bool)
            ensures
                b,
            {
                true
            };
        let proj = |k: &K, v: &V| -> (p: (K, V))
            ensures
                p.0@ == k@ && cloned(*v, p.1),
            {
                (k.key_clone(), v.clone())
            };
        let r = self.remove_entry_if_and(key, cond, proj);
        proof {
            if r is Some {
                let t = r->0;
                let a = choose|a: (&K, &V)|
                    a.0@ == key@ && *a.1 == old(self)@[key@] && #[trigger] call_ensures(
                        cond,
                        a,
                        true,
                    ) && call_ensures(proj, a, t);
                assert(t.0@ == key@ && cloned(old(self)@[key@], t.1));
            } else {
                if old(self)@.contains_key(key@) {
                    let a = choose|a: (&K, &V)|
                        a.0@ == key@ && *a.1 == old(self)@[key@] && #[trigger] call_ensures(
                            cond,
                            a,
                            false,
                        );
                    assert(false);
                }
            }
        }
        r
    }

    /// Removes `key`, applying `with_previous_value` to the removed value.
    pub fn remove_and<F: FnOnce(&V) -> T, T>(&mut self, key: &K, with_previous_value: F) -> (r:
        Option<T>)
        requires
            old(self).inv(),
            old(self)@.contains_key(key@) ==> forall|a: (&V,)|
                *a.0 == old(self)@[key@] ==> #[trigger] call_requires(with_previous_value, a),
        ensures
            final(self).inv(),
            final(self).segments@.len() == old(self).segments@.len(),
            final(self).segment_shift == old(self).segment_shift,
            final(self).build_hasher == old(self).build_hasher,
            final(self).load() <= old(self).load(),
            match r {
                Some(t) => old(self)@.contains_key(key@) && call_ensures(
                    with_previous_value,
                    (&old(self)@[key@],),
                    t,
                ) && final(self)@ == old(self)@.remove(key@),
                None => !old(self)@.contains_key(key@) && final(self)@ == old(self)@,
            },
    {
        let cond = |_k: &K, _v: &V| -> (b: bool)
            ensures
                b,
            {
                true
            };
        let proj = |_k: &K, v: &V| -> (t: T)
            requires
                call_requires(with_previous_value, (v,)),
            ensures
                call_ensures(with_previous_value, (v,), t),
            {
                with_previous_value(v)
            };
        proof {
            if old(self)@.contains_key(key@) {
                assert forall|a: (&K, &V)|
                    a.0@ == key@ && *a.1 == old(self)@[key@] implies #[trigger] call_requires(
                    proj,
                    a,
                ) by {
                    assert(call_requires(with_previous_value, (a.1,)));
                }
            }
        }
        let r = self.remove_entry_if_and(key, cond, proj);
        proof {
            if r is Some {
                let t = r->0;
                let a = choose|a: (&K, &V)|
                    a.0@ == key@ && *a.1 == old(self)@[key@] && #[trigger] call_ensures(
                        cond,
                        a,
                        true,
                    ) && call_ensures(proj, a, t);
                assert(call_ensures(with_previous_value, (&old(self)@[key@],), t));
            } else {
                if old(self)@.contains_key(key@) {
                    let a = choose|a: (&K, &V)|
                        a.0@ == key@ && *a.1 == old(self)@[key@] && #[trigger] call_ensures(
                            cond,
                            a,
                            false,
                        );
                    assert(false);
                }
            }
        }
        r
    }

    /// Removes `key`, applying `with_previous_entry` to the removed pair.
    pub fn remove_entry_and<F: FnOnce(&K, &V) -> T, T>(&mut self, key: &K, with_previous_entry: F)
        -> (r: Option<T>)
        requires
            old(self).inv(),
            old(self)@.contains_key(key@) ==> forall|a: (&K, &V)|
                a.0@ == key@ && *a.1 == old(self)@[key@] ==> #[trigger] call_requires(
                    with_previous_entry,
                    a,
                ),
        ensures
            final(self).inv(),
            final(self).segments@.len() == old(self).segments@.len(),
            final(self).segment_shift == old(self).segment_shift,
            final(self).build_hasher == old(self).build_hasher,
            final(self).load() <= old(self).load(),
            match r {
                Some(t) => old(self)@.contains_key(key@) && projects_entry(
                    with_previous_entry,
                    key@,
                    old(self)@[key@],
                    t,
                ) && final(self)@ == old(self)@.remove(key@),
                None => !old(self)@.contains_key(key@) && final(self)@ == old(self)@,
            },
    {
        let cond = |_k: &K, _v: &V| -> (b: bool)
            ensures
                b,
            {
                true
            };
        let r = self.remove_entry_if_and(key, cond, with_previous_entry);
        proof {
            if r is Some {
                let t = r->0;
                let a = choose|a: (&K, &V)|
                    a.0@ == key@ && *a.1 == old(self)@[key@] && #[trigger] call_ensures(
                        cond,
                        a,
                        true,
                    ) && call_ensures(with_previous_entry, a, t);
                assert(call_ensures(with_previous_entry, (&*a.0, &old(self)@[key@]), t));
                assert(projects_entry(with_previous_entry, key@, old(self)@[key@], t));
            } else {
                if old(self)@.contains_key(key@) {
                    let a = choose|a: (&K, &V)|
                        a.0@ == key@ && *a.1 == old(self)@[key@] && #[trigger] call_ensures(
                            cond,
                            a,
                            false,
                        );
                    assert(false);
                }
            }
        }
        r
    }

    /// Removes `key` if `condition` approves of the live pair, returning
    /// the removed value.
    pub fn remove_if<F: Fn(&K, &V) -> bool>(&mut self, key: &K, condition: F) -> (r: Option<V>)
        where V: Clone
        requires
            old(self).inv(),
            forall|a: (&K, &V)| #[trigger] call_requires(condition, a),
        ensures
            final(self).inv(),
            final(self).segments@.len() == old(self).segments@.len(),
            final(self).segment_shift == old(self).segment_shift,
            final(self).build_hasher == old(self).build_hasher,
            final(self).load() <= old(self).load(),
            match r {
                Some(v) => old(self)@.contains_key(key@) && cloned(old(self)@[key@], v)
                    && final(self)@ == old(self)@.remove(key@) && exists|a: (&K, &V)|
                    a.0@ == key@ && *a.1 == old(self)@[key@] && #[trigger] call_ensures(
                        condition,
                        a,
                        true,
                    ),
                None => final(self)@ == old(self)@ && (old(self)@.contains_key(key@)
                    ==> exists|a: (&K, &V)|
                    a.0@ == key@ && *a.1 == old(self)@[key@] && #[trigger] call_ensures(
                        condition,
                        a,
                        false,
                    )),
            },
    {
        let proj = |_k: &K, v: &V| -> (c: V)
            ensures
                cloned(*v, c),
            {
                v.clone()
            };
        let r = self.remove_entry_if_and(key, condition, proj);
        proof {
            if r is Some {
                let t = r->0;
                let a = choose|a: (&K, &V)|
                    a.0@ == key@ && *a.1 == old(self)@[key@] && #[trigger] call_ensures(
                        condition,
                        a,
                        true,
                    ) && call_ensures(proj, a, t);
                assert(cloned(old(self)@[key@], t));
            }
        }
        r
    }

    /// Removes `key` if `condition` approves of the live pair, returning
    /// the removed pair.
    pub fn remove_entry_if<F: Fn(&K, &V) -> bool>(&mut self, key: &K, condition: F) -> (r: Option<
        (K, V),
    >) where K: Clone, V: Clone
        requires
            old(self).inv(),
            forall|a: (&K, &V)| #[trigger] call_requires(condition, a),
        ensures
            final(self).inv(),
            final(self).segments@.len() == old(self).segments@.len(),
            final(self).segment_shift == old(self).segment_shift,
            final(self).build_hasher == old(self).build_hasher,
            final(self).load() <= old(self).load(),
            match r {
                Some(p) => old(self)@.contains_key(key@) && p.0@ == key@ && cloned(
                    old(self)@[key@],
                    p.1,
                ) && final(self)@ == old(self)@.remove(key@) && exists|a: (&K, &V)|
                    a.0@ == key@ && *a.1 == old(self)@[key@] && #[trigger] call_ensures(
                        condition,
                        a,
                        true,
                    ),
                None => final(self)@ == old(self)@ && (old(self)@.contains_key(key@)
                    ==> exists|a: (&K, &V)|
                    a.0@ == key@ && *a.1 == old(self)@[key@] && #[trigger] call_ensures(
                        condition,
                        a,
                        false,
                    )),
            },
    {
        let proj = |k: &K, v: &V| -> (p: (K, V))
            ensures
                p.0@ == k@ && cloned(*v, p.1),
            {
                (k.key_clone(), v.clone())
            };
        let r = self.remove_entry_if_and(key, condition, proj);
        proof {
            if r is Some {
                let t = r->0;
                let a = choose|a: (&K, &V)|
                    a.0@ == key@ && *a.1 == old(self)@[key@] && #[trigger] call_ensures(
                        condition,
                        a,
                        true,
                    ) && call_ensures(proj, a, t);
                assert(t.0@ == key@ && cloned(old(self)@[key@], t.1));
            }
        }
        r
    }

    /// Removes `key` if `condition` approves of the live pair, applying
    /// `with_previous_value` to the removed value.
    pub fn remove_if_and<F: Fn(&K, &V) -> bool, G: FnOnce(&V) -> T, T>(
        &mut self,
        key: &K,
        condition: F,
        with_previous_value: G,
    ) -> (r: Option<T>)
        requires
            old(self).inv(),
            forall|a: (&K, &V)| #[trigger] call_requires(condition, a),
            old(self)@.contains_key(key@) ==> forall|a: (&V,)|
                *a.0 == old(self)@[key@] ==> #[trigger] call_requires(with_previous_value, a),
        ensures
            final(self).inv(),
            final(self).segments@.len() == old(self).segments@.len(),
            final(self).segment_shift == old(self).segment_shift,
            final(self).build_hasher == old(self).build_hasher,
            final(self).load() <= old(self).load(),
            match r {
                Some(t) => old(self)@.contains_key(key@) && call_ensures(
                    with_previous_value,
                    (&old(self)@[key@],),
                    t,
                ) && final(self)@ == old(self)@.remove(key@) && exists|a: (&K, &V)|
                    a.0@ == key@ && *a.1 == old(self)@[key@] && #[trigger] call_ensures(
                        condition,
                        a,
                        true,
                    ),
                None => final(self)@ == old(self)@ && (old(self)@.contains_key(key@)
                    ==> exists|a: (&K, &V)|
                    a.0@ == key@ && *a.1 == old(self)@[key@] && #[trigger] call_ensures(
                        condition,
                        a,
                        false,
                    )),
            },
    {
        let proj = |_k: &K, v: &V| -> (t: T)
            requires
                call_requires(with_previous_value, (v,)),
            ensures
                call_ensures(with_previous_value, (v,), t),
            {
                with_previous_value(v)
            };
        proof {
            if old(self)@.contains_key(key@) {
                assert forall|a: (&K, &V)|
                    a.0@ == key@ && *a.1 == old(self)@[key@] implies #[trigger] call_requires(
                    proj,
                    a,
                ) by {
                    assert(call_requires(with_previous_value, (a.1,)));
                }
            }
        }
        let r = self.remove_entry_if_and(key, condition, proj);
        proof {
            if r is Some {
                let t = r->0;
                let a = choose|a: (&K, &V)|
                    a.0@ == key@ && *a.1 == old(self)@[key@] && #[trigger] call_ensures(
                        condition,
                        a,
                        true,
                    ) && call_ensures(proj, a, t);
                assert(call_ensures(with_previous_value, (&old(self)@[key@],), t));
            }
        }
        r
    }
}

impl<K: MapKey, V> HashMap<K, V> {
    /// Applies `on_modify` to the live mapping for `key`, returning the
    /// previous value. An absent key is left absent.
    pub fn modify<F: Fn(&K, &V) -> V>(&mut self, key: K, on_modify: F) -> (r: Option<V>) where
        V: Clone

        requires
            old(self).inv(),
            forall|a: (&K, &V)| #[trigger] call_requires(on_modify, a),
        ensures
            final(self).inv(),
            final(self).segments@.len() == old(self).segments@.len(),
            final(self).segment_shift == old(self).segment_shift,
            final(self).build_hasher == old(self).build_hasher,
            final(self).load() <= old(self).load(),
            match r {
                Some(c) => old(self)@.contains_key(key@) && cloned(old(self)@[key@], c)
                    && final(self)@ == old(self)@.insert(key@, final(self)@[key@])
                    && modifies_entry(on_modify, key@, old(self)@[key@], final(self)@[key@]),
                None => !old(self)@.contains_key(key@) && final(self)@ == old(self)@,
            },
    {
        let proj = |_k: &K, v: &V| -> (c: V)
            ensures
                cloned(*v, c),
            {
                v.clone()
            };
        let r = self.modify_entry_and(key, on_modify, proj);
        proof {
            if r is Some {
                let t = r->0;
                let (a, nv) = choose|a: (&K, &V), nv: V|
                    a.0@ == key@ && *a.1 == old(self)@[key@] && #[trigger] call_ensures(
                        on_modify,
                        a,
                        nv,
                    ) && call_ensures(proj, a, t) && final(self)@ == old(self)@.insert(key@, nv);
                assert(cloned(old(self)@[key@], t));
                assert(final(self)@[key@] == nv);
                assert(call_ensures(on_modify, (&*a.0, &old(self)@[key@]), nv));
                assert(modifies_entry(on_modify, key@, old(self)@[key@], nv));
            }
        }
        r
    }

    /// Applies `on_modify` to the live mapping for `key`, returning the
    /// previous pair. An absent key is left absent.
    pub fn modify_entry<F: Fn(&K, &V) -> V>(&mut self, key: K, on_modify: F) -> (r: Option<
        (K, V),
    >) where K: Clone, V: Clone
        requires
            old(self).inv(),
            forall|a: (&K, &V)| #[trigger] call_requires(on_modify, a),
        ensures
            final(self).inv(),
            final(self).segments@.len() == old(self).segments@.len(),
            final(self).segment_shift == old(self).segment_shift,
            final(self).build_hasher == old(self).build_hasher,
            final(self).load() <= old(self).load(),
            match r {
                Some(p) => old(self)@.contains_key(key@) && p.0@ == key@ && cloned(
                    old(self)@[key@],
                    p.1,
                ) && final(self)@ == old(self)@.insert(key@, final(self)@[key@])
                    && modifies_entry(on_modify, key@, old(self)@[key@], final(self)@[key@]),
                None => !old(self)@.contains_key(key@) && final(self)@ == old(self)@,
            },
    {
        let proj = |k: &K, v: &V| -> (p: (K, V))
            ensures
                p.0@ == k@ && cloned(*v, p.1),
            {
                (k.key_clone(), v.clone())
            };
        let r = self.modify_entry_and(key, on_modify, proj);
        proof {
            if r is Some {
                let t = r->0;
                let (a, nv) = choose|a: (&K, &V), nv: V|
                    a.0@ == key@ && *a.1 == old(self)@[key@] && #[trigger] call_ensures(
                        on_modify,
                        a,
                        nv,
                    ) && call_ensures(proj, a, t) && final(self)@ == old(self)@.insert(key@, nv);
                assert(t.0@ == key@ && cloned(old(self)@[key@], t.1));
                assert(final(self)@[key@] == nv);
                assert(call_ensures(on_modify, (&*a.0, &old(self)@[key@]), nv));
                assert(modifies_entry(on_modify, key@, old(self)@[key@], nv));
            }
        }
        r
    }

    /// Applies `on_modify` to the live mapping for `key`, handing the
    /// previous value to `with_old_value`. An absent key is left absent.
    pub fn modify_and<F: Fn(&K, &V) -> V, G: FnOnce(&V) -> T, T>(
        &mut self,
        key: K,
        on_modify: F,
        with_old_value: G,
    ) -> (r: Option<T>)
        requires
            old(self).inv(),
            forall|a: (&K, &V)| #[trigger] call_requires(on_modify, a),
            old(self)@.contains_key(key@) ==> forall|a: (&V,)|
                *a.0 == old(self)@[key@] ==> #[trigger] call_requires(with_old_value, a),
        ensures
            final(self).inv(),
            final(self).segments@.len() == old(self).segments@.len(),
            final(self).segment_shift == old(self).segment_shift,
            final(self).build_hasher == old(self).build_hasher,
            final(self).load() <= old(self).load(),
            match r {
                Some(t) => old(self)@.contains_key(key@) && call_ensures(
                    with_old_value,
                    (&old(self)@[key@],),
                    t,
                ) && final(self)@ == old(self)@.insert(key@, final(self)@[key@])
                    && modifies_entry(on_modify, key@, old(self)@[key@], final(self)@[key@]),
                None => !old(self)@.contains_key(key@) && final(self)@ == old(self)@,
            },
    {
        let proj = |_k: &K, v: &V| -> (t: T)
            requires
                call_requires(with_old_value, (v,)),
            ensures
                call_ensures(with_old_value, (v,), t),
            {
                with_old_value(v)
            };
        proof {
            if old(self)@.contains_key(key@) {
                assert forall|a: (&K, &V)|
                    a.0@ == key@ && *a.1 == old(self)@[key@] implies #[trigger] call_requires(
                    proj,
                    a,
                ) by {
                    assert(call_requires(with_old_value, (a.1,)));
                }
            }
        }
        let r = self.modify_entry_and(key, on_modify, proj);
        proof {
            if r is Some {
                let t = r->0;
                let (a, nv) = choose|a: (&K, &V), nv: V|
                    a.0@ == key@ && *a.1 == old(self)@[key@] && #[trigger] call_ensures(
                        on_modify,
                        a,
                        nv,
                    ) && call_ensures(proj, a, t) && final(self)@ == old(self)@.insert(key@, nv);
                assert(call_ensures(with_old_value, (&old(self)@[key@],), t));
                assert(final(self)@[key@] == nv);
                assert(call_ensures(on_modify, (&*a.0, &old(self)@[key@]), nv));
                assert(modifies_entry(on_modify, key@, old(self)@[key@], nv));
            }
        }
        r
    }

    /// Inserts `value` if `key` is absent; otherwise installs
    /// `on_modify`'s result and returns the previous value.
    pub fn insert_or_modify<F: Fn(&K, &V) -> V>(&mut self, key: K, value: V, on_modify: F) -> (r:
        Option<V>) where V: Clone
        requires
            old(self).inv(),
            old(self).has_room(),
            forall|a: (&K, &V)| #[trigger] call_requires(on_modify, a),
        ensures
            final(self).inv(),
            final(self).segments@.len() == old(self).segments@.len(),
            final(self).segment_shift == old(self).segment_shift,
            final(self).build_hasher == old(self).build_hasher,
            final(self).load() <= old(self).load() + 1,
            match r {
                Some(c) => old(self)@.contains_key(key@) && cloned(old(self)@[key@], c)
                    && final(self)@ == old(self)@.insert(key@, final(self)@[key@])
                    && modifies_entry(on_modify, key@, old(self)@[key@], final(self)@[key@]),
                None => !old(self)@.contains_key(key@) && final(self)@ == old(self)@.insert(
                    key@,
                    value,
                ),
            },
    {
        let on_insert = move || -> (iv: V)
            ensures
                iv == value,
            {
                value
            };
        let proj = |_k: &K, v: &V| -> (c: V)
            ensures
                cloned(*v, c),
            {
                v.clone()
            };
        let r = self.insert_with_or_modify_entry_and(key, on_insert, on_modify, proj);
        proof {
            if r is Some {
                let t = r->0;
                let (a, nv) = choose|a: (&K, &V), nv: V|
                    a.0@ == key@ && *a.1 == old(self)@[key@] && #[trigger] call_ensures(
                        on_modify,
                        a,
                        nv,
                    ) && call_ensures(proj, a, t) && final(self)@ == old(self)@.insert(key@, nv);
                assert(cloned(old(self)@[key@], t));
                assert(final(self)@[key@] == nv);
                assert(call_ensures(on_modify, (&*a.0, &old(self)@[key@]), nv));
                assert(modifies_entry(on_modify, key@, old(self)@[key@], nv));
            } else {
                let nv = choose|nv: V|
                    #[trigger] call_ensures(on_insert, (), nv) && final(self)@ == old(
                        self,
                    )@.insert(key@, nv);
                assert(nv == value);
            }
        }
        r
    }

    /// Inserts `value` if `key` is absent; otherwise installs
    /// `on_modify`'s result and returns the previous pair.
    pub fn insert_or_modify_entry<F: Fn(&K, &V) -> V>(&mut self, key: K, value: V, on_modify: F)
        -> (r: Option<(K, V)>) where K: Clone, V: Clone
        requires
            old(self).inv(),
            old(self).has_room(),
            forall|a: (&K, &V)| #[trigger] call_requires(on_modify, a),
        ensures
            final(self).inv(),
            final(self).segments@.len() == old(self).segments@.len(),
            final(self).segment_shift == old(self).segment_shift,
            final(self).build_hasher == old(self).build_hasher,
            final(self).load() <= old(self).load() + 1,
            match r {
                Some(p) => old(self)@.contains_key(key@) && p.0@ == key@ && cloned(
                    old(self)@[key@],
                    p.1,
                ) && final(self)@ == old(self)@.insert(key@, final(self)@[key@])
                    && modifies_entry(on_modify, key@, old(self)@[key@], final(self)@[key@]),
                None => !old(self)@.contains_key(key@) && final(self)@ == old(self)@.insert(
                    key@,
                    value,
                ),
            },
    {
        let on_insert = move || -> (iv: V)
            ensures
                iv == value,
            {
                value
            };
        let proj = |k: &K, v: &V| -> (p: (K, V))
            ensures
                p.0@ == k@ && cloned(*v, p.1),
            {
                (k.key_clone(), v.clone())
            };
        let r = self.insert_with_or_modify_entry_and(key, on_insert, on_modify, proj);
        proof {
            if r is Some {
                let t = r->0;
                let (a, nv) = choose|a: (&K, &V), nv: V|
                    a.0@ == key@ && *a.1 == old(self)@[key@] && #[trigger] call_ensures(
                        on_modify,
                        a,
                        nv,
                    ) && call_ensures(proj, a, t) && final(self)@ == old(self)@.insert(key@, nv);
                assert(t.0@ == key@ && cloned(old(self)@[key@], t.1));
                assert(final(self)@[key@] == nv);
                assert(call_ensures(on_modify, (&*a.0, &old(self)@[key@]), nv));
                assert(modifies_entry(on_modify, key@, old(self)@[key@], nv));
            } else {
                let nv = choose|nv: V|
                    #[trigger] call_ensures(on_insert, (), nv) && final(self)@ == old(
                        self,
                    )@.insert(key@, nv);
                assert(nv == value);
            }
        }
        r
    }

    /// Inserts `value` if `key` is absent; otherwise installs
    /// `on_modify`'s result, handing the previous value to
    /// `with_old_value`.
    pub fn insert_or_modify_and<F: Fn(&K, &V) -> V, G: FnOnce(&V) -> T, T>(
        &mut self,
        key: K,
        value: V,
        on_modify: F,
        with_old_value: G,
    ) -> (r: Option<T>)
        requires
            old(self).inv(),
            old(self).has_room(),
            forall|a: (&K, &V)| #[trigger] call_requires(on_modify, a),
            old(self)@.contains_key(key@) ==> forall|a: (&V,)|
                *a.0 == old(self)@[key@] ==> #[trigger] call_requires(with_old_value, a),
        ensures
            final(self).inv(),
            final(self).segments@.len() == old(self).segments@.len(),
            final(self).segment_shift == old(self).segment_shift,
            final(self).build_hasher == old(self).build_hasher,
            final(self).load() <= old(self).load() + 1,
            match r {
                Some(t) => old(self)@.contains_key(key@) && call_ensures(
                    with_old_value,
                    (&old(self)@[key@],),
                    t,
                ) && final(self)@ == old(self)@.insert(key@, final(self)@[key@])
                    && modifies_entry(on_modify, key@, old(self)@[key@], final(self)@[key@]),
                None => !old(self)@.contains_key(key@) && final(self)@ == old(self)@.insert(
                    key@,
                    value,
                ),
            },
    {
        let on_insert = move || -> (iv: V)
            ensures
                iv == value,
            {
                value
            };
        let proj = |_k: &K, v: &V| -> (t: T)
            requires
                call_requires(with_old_value, (v,)),
            ensures
                call_ensures(with_old_value, (v,), t),
            {
                with_old_value(v)
            };
        proof {
            if old(self)@.contains_key(key@) {
                assert forall|a: (&K, &V)|
                    a.0@ == key@ && *a.1 == old(self)@[key@] implies #[trigger] call_requires(
                    proj,
                    a,
                ) by {
                    assert(call_requires(with_old_value, (a.1,)));
                }
            }
        }
        let r = self.insert_with_or_modify_entry_and(key, on_insert, on_modify, proj);
        proof {
            if r is Some {
                let t = r->0;
                let (a, nv) = choose|a: (&K, &V), nv: V|
                    a.0@ == key@ && *a.1 == old(self)@[key@] && #[trigger] call_ensures(
                        on_modify,
                        a,
                        nv,
                    ) && call_ensures(proj, a, t) && final(self)@ == old(self)@.insert(key@, nv);
                assert(call_ensures(with_old_value, (&old(self)@[key@],), t));
                assert(final(self)@[key@] == nv);
                assert(call_ensures(on_modify, (&*a.0, &old(self)@[key@]), nv));
                assert(modifies_entry(on_modify, key@, old(self)@[key@], nv));
            } else {
                let nv = choose|nv: V|
                    #[trigger] call_ensures(on_insert, (), nv) && final(self)@ == old(
                        self,
                    )@.insert(key@, nv);
                assert(nv == value);
            }
        }
        r
    }

    /// Inserts `value` if `key` is absent; otherwise installs
    /// `on_modify`'s result, handing the previous pair to
    /// `with_old_entry`.
    pub fn insert_or_modify_entry_and<F: Fn(&K, &V) -> V, G: FnOnce(&K, &V) -> T, T>(
        &mut self,
        key: K,
        value: V,
        on_modify: F,
        with_old_entry: G,
    ) -> (r: Option<T>)
        requires
            old(self).inv(),
            old(self).has_room(),
            forall|a: (&K, &V)| #[trigger] call_requires(on_modify, a),
            old(self)@.contains_key(key@) ==> forall|a: (&K, &V)|
                a.0@ == key@ && *a.1 == old(self)@[key@] ==> #[trigger] call_requires(
                    with_old_entry,
                    a,
                ),
        ensures
            final(self).inv(),
            final(self).segments@.len() == old(self).segments@.len(),
            final(self).segment_shift == old(self).segment_shift,
            final(self).build_hasher == old(self).build_hasher,
            final(self).load() <= old(self).load() + 1,
            match r {
                Some(t) => old(self)@.contains_key(key@) && projects_entry(
                    with_old_entry,
                    key@,
                    old(self)@[key@],
                    t,
                ) && final(self)@ == old(self)@.insert(key@, final(self)@[key@])
                    && modifies_entry(on_modify, key@, old(self)@[key@], final(self)@[key@]),
                None => !old(self)@.contains_key(key@) && final(self)@ == old(self)@.insert(
                    key@,
                    value,
                ),
            },
    {
        let on_insert = move || -> (iv: V)
            ensures
                iv == value,
            {
                value
            };
        let r = self.insert_with_or_modify_entry_and(key, on_insert, on_modify, with_old_entry);
        proof {
            if r is Some {
                let t = r->0;
                let (a, nv) = choose|a: (&K, &V), nv: V|
                    a.0@ == key@ && *a.1 == old(self)@[key@] && #[trigger] call_ensures(
                        on_modify,
                        a,
                        nv,
                    ) && call_ensures(with_old_entry, a, t) && final(self)@ == old(
                        self,
                    )@.insert(key@, nv);
                assert(call_ensures(with_old_entry, (&*a.0, &old(self)@[key@]), t));
                assert(projects_entry(with_old_entry, key@, old(self)@[key@], t));
                assert(final(self)@[key@] == nv);
                assert(call_ensures(on_modify, (&*a.0, &old(self)@[key@]), nv));
                assert(modifies_entry(on_modify, key@, old(self)@[key@], nv));
            } else {
                let nv = choose|nv: V|
                    #[trigger] call_ensures(on_insert, (), nv) && final(self)@ == old(
                        self,
                    )@.insert(key@, nv);
                assert(nv == value);
            }
        }
        r
    }

    /// Inserts `on_insert`'s result if `key` is absent; otherwise installs
    /// `on_modify`'s result and returns the previous value.
    pub fn insert_with_or_modify<F: FnOnce() -> V, G: Fn(&K, &V) -> V>(
        &mut self,
        key: K,
        on_insert: F,
        on_modify: G,
    ) -> (r: Option<V>) where V: Clone
        requires
            old(self).inv(),
            old(self).has_room(),
            call_requires(on_insert, ()),
            forall|a: (&K, &V)| #[trigger] call_requires(on_modify, a),
        ensures
            final(self).inv(),
            final(self).segments@.len() == old(self).segments@.len(),
            final(self).segment_shift == old(self).segment_shift,
            final(self).build_hasher == old(self).build_hasher,
            final(self).load() <= old(self).load() + 1,
            match r {
                Some(c) => old(self)@.contains_key(key@) && cloned(old(self)@[key@], c)
                    && final(self)@ == old(self)@.insert(key@, final(self)@[key@])
                    && modifies_entry(on_modify, key@, old(self)@[key@], final(self)@[key@]),
                None => !old(self)@.contains_key(key@) && final(self)@ == old(self)@.insert(
                    key@,
                    final(self)@[key@],
                ) && call_ensures(on_insert, (), final(self)@[key@]),
            },
    {
        let proj = |_k: &K, v: &V| -> (c: V)
            ensures
                cloned(*v, c),
            {
                v.clone()
            };
        let r = self.insert_with_or_modify_entry_and(key, on_insert, on_modify, proj);
        proof {
            if r is Some {
                let t = r->0;
                let (a, nv) = choose|a: (&K, &V), nv: V|
                    a.0@ == key@ && *a.1 == old(self)@[key@] && #[trigger] call_ensures(
                        on_modify,
                        a,
                        nv,
                    ) && call_ensures(proj, a, t) && final(self)@ == old(self)@.insert(key@, nv);
                assert(cloned(old(self)@[key@], t));
                assert(final(self)@[key@] == nv);
                assert(call_ensures(on_modify, (&*a.0, &old(self)@[key@]), nv));
                assert(modifies_entry(on_modify, key@, old(self)@[key@], nv));
            } else {
                let nv = choose|nv: V|
                    #[trigger] call_ensures(on_insert, (), nv) && final(self)@ == old(
                        self,
                    )@.insert(key@, nv);
                assert(final(self)@[key@] == nv);
            }
        }
        r
    }

    /// Inserts `on_insert`'s result if `key` is absent; otherwise installs
    /// `on_modify`'s result and returns the previous pair.
    pub fn insert_with_or_modify_entry<F: FnOnce() -> V, G: Fn(&K, &V) -> V>(
        &mut self,
        key: K,
        on_insert: F,
        on_modify: G,
    ) -> (r: Option<(K, V)>) where K: Clone, V: Clone
        requires
            old(self).inv(),
            old(self).has_room(),
            call_requires(on_insert, ()),
            forall|a: (&K, &V)| #[trigger] call_requires(on_modify, a),
        ensures
            final(self).inv(),
            final(self).segments@.len() == old(self).segments@.len(),
            final(self).segment_shift == old(self).segment_shift,
            final(self).build_hasher == old(self).build_hasher,
            final(self).load() <= old(self).load() + 1,
            match r {
                Some(p) => old(self)@.contains_key(key@) && p.0@ == key@ && cloned(
                    old(self)@[key@],
                    p.1,
                ) && final(self)@ == old(self)@.insert(key@, final(self)@[key@])
                    && modifies_entry(on_modify, key@, old(self)@[key@], final(self)@[key@]),
                None => !old(self)@.contains_key(key@) && final(self)@ == old(self)@.insert(
                    key@,
                    final(self)@[key@],
                ) && call_ensures(on_insert, (), final(self)@[key@]),
            },
    {
        let proj = |k: &K, v: &V| -> (p: (K, V))
            ensures
                p.0@ == k@ && cloned(*v, p.1),
            {
                (k.key_clone(), v.clone())
            };
        let r = self.insert_with_or_modify_entry_and(key, on_insert, on_modify, proj);
        proof {
            if r is Some {
                let t = r->0;
                let (a, nv) = choose|a: (&K, &V), nv: V|
                    a.0@ == key@ && *a.1 == old(self)@[key@] && #[trigger] call_ensures(
                        on_modify,
                        a,
                        nv,
                    ) && call_ensures(proj, a, t) && final(self)@ == old(self)@.insert(key@, nv);
                assert(t.0@ == key@ && cloned(old(self)@[key@], t.1));
                assert(final(self)@[key@] == nv);
                assert(call_ensures(on_modify, (&*a.0, &old(self)@[key@]), nv));
                assert(modifies_entry(on_modify, key@, old(self)@[key@], nv));
            } else {
                let nv = choose|nv: V|
                    #[trigger] call_ensures(on_insert, (), nv) && final(self)@ == old(
                        self,
                    )@.insert(key@, nv);
                assert(final(self)@[key@] == nv);
            }
        }
        r
    }

    /// Inserts `on_insert`'s result if `key` is absent; otherwise installs
    /// `on_modify`'s result, handing the previous value to
    /// `with_old_value`.
    pub fn insert_with_or_modify_and<F: FnOnce() -> V, G: Fn(&K, &V) -> V, H: FnOnce(&V) -> T, T>(
        &mut self,
        key: K,
        on_insert: F,
        on_modify: G,
        with_old_value: H,
    ) -> (r: Option<T>)
        requires
            old(self).inv(),
            old(self).has_room(),
            call_requires(on_insert, ()),
            forall|a: (&K, &V)| #[trigger] call_requires(on_modify, a),
            old(self)@.contains_key(key@) ==> forall|a: (&V,)|
                *a.0 == old(self)@[key@] ==> #[trigger] call_requires(with_old_value, a),
        ensures
            final(self).inv(),
            final(self).segments@.len() == old(self).segments@.len(),
            final(self).segment_shift == old(self).segment_shift,
            final(self).build_hasher == old(self).build_hasher,
            final(self).load() <= old(self).load() + 1,
            match r {
                Some(t) => old(self)@.contains_key(key@) && call_ensures(
                    with_old_value,
                    (&old(self)@[key@],),
                    t,
                ) && final(self)@ == old(self)@.insert(key@, final(self)@[key@])
                    && modifies_entry(on_modify, key@, old(self)@[key@], final(self)@[key@]),
                None => !old(self)@.contains_key(key@) && final(self)@ == old(self)@.insert(
                    key@,
                    final(self)@[key@],
                ) && call_ensures(on_insert, (), final(self)@[key@]),
            },
    {
        let proj = |_k: &K, v: &V| -> (t: T)
            requires
                call_requires(with_old_value, (v,)),
            ensures
                call_ensures(with_old_value, (v,), t),
            {
                with_old_value(v)
            };
        proof {
            if old(self)@.contains_key(key@) {
                assert forall|a: (&K, &V)|
                    a.0@ == key@ && *a.1 == old(self)@[key@] implies #[trigger] call_requires(
                    proj,
                    a,
                ) by {
                    assert(call_requires(with_old_value, (a.1,)));
                }
            }
        }
        let r = self.insert_with_or_modify_entry_and(key, on_insert, on_modify, proj);
        proof {
            if r is Some {
                let t = r->0;
                let (a, nv) = choose|a: (&K, &V), nv: V|
                    a.0@ == key@ && *a.1 == old(self)@[key@] && #[trigger] call_ensures(
                        on_modify,
                        a,
                        nv,
                    ) && call_ensures(proj, a, t) && final(self)@ == old(self)@.insert(key@, nv);
                assert(call_ensures(with_old_value, (&old(self)@[key@],), t));
                assert(final(self)@[key@] == nv);
                assert(call_ensures(on_modify, (&*a.0, &old(self)@[key@]), nv));
                assert(modifies_entry(on_modify, key@, old(self)@[key@], nv));
            } else {
                let nv = choose|nv: V|
                    #[trigger] call_ensures(on_insert, (), nv) && final(self)@ == old(
                        self,
                    )@.insert(key@, nv);
                assert(final(self)@[key@] == nv);
            }
        }
        r
    }

    /// True when every segment can still take one more occupied slot, so
    /// that an insert is within the map's limits.
    pub fn can_insert(&self) -> (b: bool)
        requires
            self.inv(),
        ensures
            b == self.has_room(),
    {
        if self.len == usize::MAX {
            return false;
        }
        let mut i: usize = 0;
        let n = self.segments.len();
        while i < n
            invariant
                self.inv(),
                i <= n,
                n == self.segments@.len(),
                forall|t: int| 0 <= t < i ==> (#[trigger] self.segments@[t]).has_room(),
            decreases n - i,
        {
            let seg = &self.segments[i];
            match &seg.bucket_array {
                Some(a) => {
                    proof {
                        lemma_count_le::<K, V>(a.buckets@);
                    }
                    if 2 * (a.filled + 1) > MAX_CAPACITY {
                        return false;
                    }
                },
                None => {},
            }
            i += 1;
        }
        true
    }

    /// An empty map with twice as many segments as the system has CPUs.
    /// Allocation of the bucket arrays is deferred to the first insert of
    /// each segment.
    pub fn new() -> (r: Self)
        ensures
            r.inv(),
            r@ == Map::<K::V, V>::empty(),
            r.len == 0,
            r.load() == 0,
            r.segments@.len() >= 2,
            forall|i: int|
                0 <= i < r.segments@.len() ==> (#[trigger] r.segments@[i]).bucket_array is None,
    {
        Self::with_num_segments_capacity_and_hasher(default_num_segments(), 0, HashBuilder::default())
    }

    /// An empty map able to hold `capacity` mappings per segment before
    /// growing, with twice as many segments as the system has CPUs.
    pub fn with_capacity(capacity: usize) -> (r: Self)
        requires
            capacity <= MAX_CAPACITY / 4,
        ensures
            r.inv(),
            r@ == Map::<K::V, V>::empty(),
            r.len == 0,
            r.load() == 0,
            r.segments@.len() >= 2,
            capacity == 0 ==> forall|i: int|
                0 <= i < r.segments@.len() ==> (#[trigger] r.segments@[i]).bucket_array is None,
            capacity > 0 ==> forall|i: int|
                0 <= i < r.segments@.len() ==> (#[trigger] r.segments@[i]).bucket_array is Some
                    && r.segments@[i].bucket_array->0.cap() >= 2 * capacity
                    && r.segments@[i].bucket_array->0.cap() < 4 * capacity,
    {
        Self::with_num_segments_capacity_and_hasher(
            default_num_segments(),
            capacity,
            HashBuilder::default(),
        )
    }

    /// An empty map hashing with `build_hasher`, with twice as many
    /// segments as the system has CPUs.
    pub fn with_hasher(build_hasher: HashBuilder) -> (r: Self)
        ensures
            r.inv(),
            r@ == Map::<K::V, V>::empty(),
            r.len == 0,
            r.load() == 0,
            r.build_hasher == build_hasher,
            r.segments@.len() >= 2,
            forall|i: int|
                0 <= i < r.segments@.len() ==> (#[trigger] r.segments@[i]).bucket_array is None,
    {
        Self::with_num_segments_capacity_and_hasher(default_num_segments(), 0, build_hasher)
    }

    /// An empty map with the given capacity and hash builder, with twice
    /// as many segments as the system has CPUs.
    pub fn with_capacity_and_hasher(capacity: usize, build_hasher: HashBuilder) -> (r: Self)
        requires
            capacity <= MAX_CAPACITY / 4,
        ensures
            r.inv(),
            r@ == Map::<K::V, V>::empty(),
            r.len == 0,
            r.load() == 0,
            r.build_hasher == build_hasher,
            r.segments@.len() >= 2,
            capacity == 0 ==> forall|i: int|
                0 <= i < r.segments@.len() ==> (#[trigger] r.segments@[i]).bucket_array is None,
            capacity > 0 ==> forall|i: int|
                0 <= i < r.segments@.len() ==> (#[trigger] r.segments@[i]).bucket_array is Some
                    && r.segments@[i].bucket_array->0.cap() >= 2 * capacity
                    && r.segments@[i].bucket_array->0.cap() < 4 * capacity,
    {
        Self::with_num_segments_capacity_and_hasher(default_num_segments(), capacity, build_hasher)
    }

    /// An empty map with the given number of segments and no allocated
    /// arrays.
    pub fn with_num_segments(num_segments: usize) -> (r: Self)
        requires
            1 <= num_segments <= MAX_SEGMENTS,
        ensures
            r.inv(),
            r@ == Map::<K::V, V>::empty(),
            r.len == 0,
            r.load() == 0,
            num_segments <= r.segments@.len() && (r.segments@.len() as int) < 2 * (
            num_segments as int),
            num_segments == 1 ==> r.segment_shift == 64,
            forall|i: int|
                0 <= i < r.segments@.len() ==> (#[trigger] r.segments@[i]).bucket_array is None,
    {
        Self::with_num_segments_capacity_and_hasher(num_segments, 0, HashBuilder::default())
    }

    /// An empty map with the given number of segments and per-segment
    /// capacity.
    pub fn with_num_segments_and_capacity(num_segments: usize, capacity: usize) -> (r: Self)
        requires
            1 <= num_segments <= MAX_SEGMENTS,
            capacity <= MAX_CAPACITY / 4,
        ensures
            r.inv(),
            r@ == Map::<K::V, V>::empty(),
            r.len == 0,
            r.load() == 0,
            num_segments <= r.segments@.len() && (r.segments@.len() as int) < 2 * (
            num_segments as int),
            capacity == 0 ==> forall|i: int|
                0 <= i < r.segments@.len() ==> (#[trigger] r.segments@[i]).bucket_array is None,
            capacity > 0 ==> forall|i: int|
                0 <= i < r.segments@.len() ==> (#[trigger] r.segments@[i]).bucket_array is Some
                    && r.segments@[i].bucket_array->0.cap() >= 2 * capacity
                    && r.segments@[i].bucket_array->0.cap() < 4 * capacity,
    {
        Self::with_num_segments_capacity_and_hasher(num_segments, capacity, HashBuilder::default())
    }

    /// An empty map with the given number of segments and hash builder.
    pub fn with_num_segments_and_hasher(num_segments: usize, build_hasher: HashBuilder) -> (r: Self)
        requires
            1 <= num_segments <= MAX_SEGMENTS,
        ensures
            r.inv(),
            r@ == Map::<K::V, V>::empty(),
            r.len == 0,
            r.build_hasher == build_hasher,
            r.load() == 0,
            num_segments <= r.segments@.len() && (r.segments@.len() as int) < 2 * (
            num_segments as int),
            forall|i: int|
                0 <= i < r.segments@.len() ==> (#[trigger] r.segments@[i]).bucket_array is None,
    {
        Self::with_num_segments_capacity_and_hasher(num_segments, 0, build_hasher)
    }
}

impl<K: MapKey, V> Default for HashMap<K, V> {
    /// An empty map with the default hasher and twice as many segments as
    /// the system has CPUs.
    fn default() -> (r: Self)
        ensures
            r.inv(),
            r@ == Map::<K::V, V>::empty(),
            r.len == 0,
            r.load() == 0,
            r.segments@.len() >= 2,
            forall|i: int|
                0 <= i < r.segments@.len() ==> (#[trigger] r.segments@[i]).bucket_array is None,
    {
        Self::new()
    }
}

/// A sequence of insertions, latest last.
pub open spec fn insert_seq<KV, V>(m: Map<KV, V>, ks: Seq<KV>, vs: Seq<V>) -> Map<KV, V>
    recommends
        ks.len() == vs.len(),
    decreases ks.len(),
{
    if ks.len() == 0 || ks.len() != vs.len() {
        m
    } else {
        insert_seq(m, ks.drop_last(), vs.drop_last()).insert(ks.last(), vs.last())
    }
}

/// After an insert, and before any further operation on that key, a
/// lookup of the key sees exactly the inserted value.
pub proof fn lemma_insert_then_lookup<KV, V>(m: Map<KV, V>, k: KV, v: V)
    ensures
        m.insert(k, v).contains_key(k),
        m.insert(k, v)[k] == v,
{
}

/// After a removal, and before any further operation on that key, a
/// lookup of the key sees it absent.
pub proof fn lemma_remove_then_lookup<KV, V>(m: Map<KV, V>, k: KV)
    ensures
        !m.remove(k).contains_key(k),
{
}

/// Inserting an already-present key keeps the size; a fresh key grows it
/// by one. In particular, repeated inserts of one key from any number of
/// writers leave exactly one mapping behind.
pub proof fn lemma_insert_len<KV, V>(m: Map<KV, V>, k: KV, v: V)
    requires
        m.dom().finite(),
    ensures
        m.contains_key(k) ==> m.insert(k, v).len() == m.len(),
        !m.contains_key(k) ==> m.insert(k, v).len() == m.len() + 1,
{
    if m.contains_key(k) {
        assert(m.insert(k, v).dom() =~= m.dom());
    } else {
        assert(m.insert(k, v).dom() =~= m.dom().insert(k));
    }
}

/// Removing a live key and re-inserting it restores the size: a deletion
/// followed by a re-insert of the same key is a net length change of zero.
pub proof fn lemma_remove_reinsert_len<KV, V>(m: Map<KV, V>, k: KV, v: V)
    requires
        m.dom().finite(),
        m.contains_key(k),
    ensures
        m.remove(k).insert(k, v).len() == m.len(),
        m.remove(k).insert(k, v).dom() == m.dom(),
{
    assert(m.remove(k).insert(k, v).dom() =~= m.dom());
}

/// Inserting any number of distinct fresh keys into an empty map yields a
/// map holding exactly those keys, one mapping each.
pub proof fn lemma_distinct_inserts<KV, V>(ks: Seq<KV>, vs: Seq<V>)
    requires
        ks.no_duplicates(),
        ks.len() == vs.len(),
    ensures
        insert_seq(Map::<KV, V>::empty(), ks, vs).dom() =~= ks.to_set(),
        insert_seq(Map::<KV, V>::empty(), ks, vs).len() == ks.len(),
    decreases ks.len(),
{
    let m = insert_seq(Map::<KV, V>::empty(), ks, vs);
    if ks.len() == 0 {
        assert(m.dom() =~= Set::<KV>::empty());
    } else {
        let kpre = ks.drop_last();
        let vpre = vs.drop_last();
        assert(kpre.no_duplicates());
        lemma_distinct_inserts::<KV, V>(kpre, vpre);
        let mpre = insert_seq(Map::<KV, V>::empty(), kpre, vpre);
        assert(ks.to_set() =~= kpre.to_set().insert(ks.last())) by {
            assert forall|x: KV| ks.to_set().contains(x) implies kpre.to_set().insert(
                ks.last(),
            ).contains(x) by {
                let i = choose|i: int| 0 <= i < ks.len() && ks[i] == x;
                if i < ks.len() - 1 {
                    assert(kpre[i] == x);
                }
            }
            assert forall|x: KV| kpre.to_set().insert(ks.last()).contains(x) implies ks.to_set().contains(
                x,
            ) by {
                if kpre.to_set().contains(x) {
                    let i = choose|i: int| 0 <= i < kpre.len() && kpre[i] == x;
                    assert(ks[i] == x);
                }
            }
        }
        assert(!kpre.to_set().contains(ks.last())) by {
            if kpre.to_set().contains(ks.last()) {
                let i = choose|i: int| 0 <= i < kpre.len() && kpre[i] == ks.last();
                assert(ks[i] == ks[ks.len() - 1]);
            }
        }
        assert(m.dom() =~= mpre.dom().insert(ks.last()));
    }
}

/// With a single segment, the shift is the full hash width and every hash
/// routes to segment zero.
pub proof fn lemma_single_segment_routing<K: MapKey, V>(m: HashMap<K, V>, h: u64)
    requires
        m.inv(),
        m.segments@.len() == 1,
    ensures
        m.segment_shift == 64,
        segment_of(h, m.segment_shift) == 0,
{
    if m.segment_shift < 64 {
        lemma_pow2_strictly_increases(0, (64 - m.segment_shift) as nat);
        lemma2_to64();
        assert(false);
    }
}

} // verus!



