//! Bucket arrays: open-addressed slot vectors with linear probing.
//!
//! A bucket array is a power-of-two-length vector of slots. Each slot is
//! either empty (never written), a live key-value pair, a tombstone (a
//! deleted key, kept so that probe chains stay intact), or a sentinel (a
//! slot already migrated into a successor array while the array is being
//! rebuilt). A key's probe starts at its hash modulo the length and walks
//! forward with wraparound; it ends at the key's own slot or at the first
//! empty slot.
//!
//! The abstract model of an array is the finite map from the views of the
//! live keys to their values, and every operation is specified against it.

use vstd::prelude::*;
use vstd::pervasive::VecAdditionalExecFns;
use vstd::pervasive::unreached;
use vstd::arithmetic::power2::{pow2, lemma_pow2_adds, lemma_pow2_pos, lemma2_to64, lemma2_to64_rest};
use crate::hasher::{HashBuilder, MapKey};

verus! {

/// The largest number of slots one bucket array may have: a quarter of
/// the addressable words, so that doubling the array during a rebuild
/// stays within `usize` whatever the machine word is.
pub const MAX_CAPACITY: usize = usize::MAX / 4 + 1;

/// The number of slots allocated by the first insert into a segment that
/// was created without a capacity.
pub const DEFAULT_CAPACITY: usize = 8;

/// One slot of a bucket array.
pub enum Bucket<K, V> {
    /// Never written; ends every probe that reaches it.
    Empty,
    /// A live mapping.
    Live { key: K, value: V },
    /// A deleted mapping; the key is kept so that probes for other keys
    /// that collided past this slot still find them.
    Tombstone { key: K },
    /// Migrated into the successor array during a rebuild; terminal.
    Sentinel,
}

impl<K: MapKey, V> Bucket<K, V> {
    /// A slot that holds a key: live or tombstone.
    pub open spec fn is_occupied(self) -> bool {
        self is Live || self is Tombstone
    }

    /// The view of the key held by this slot, if any.
    pub open spec fn key_view(self) -> Option<K::V> {
        match self {
            Bucket::Live { key, .. } => Some(key@),
            Bucket::Tombstone { key } => Some(key@),
            _ => None,
        }
    }

    /// True when this slot is the live slot of the key with view `kv`.
    pub open spec fn is_live_for(self, kv: K::V) -> bool {
        self is Live && self.key_view() == Some(kv)
    }

    /// The value of a live slot.
    pub open spec fn value_at(self) -> V {
        match self {
            Bucket::Live { value, .. } => value,
            _ => vstd::pervasive::arbitrary(),
        }
    }
}

/// How many slots of `s` hold a key (live slots and tombstones).
pub open spec fn count_occupied<K: MapKey, V>(s: Seq<Bucket<K, V>>) -> nat
    decreases s.len(),
{
    if s.len() == 0 {
        0
    } else {
        count_occupied(s.drop_last()) + if s.last().is_occupied() {
            1nat
        } else {
            0nat
        }
    }
}

/// The map held by the slots of `s`: every live slot contributes its pair.
pub open spec fn slots_map<K: MapKey, V>(s: Seq<Bucket<K, V>>) -> Map<K::V, V>
    decreases s.len(),
{
    if s.len() == 0 {
        Map::empty()
    } else {
        let m = slots_map(s.drop_last());
        match s.last() {
            Bucket::Live { key, value } => m.insert(key@, value),
            _ => m,
        }
    }
}

/// No two slots hold the same key.
pub open spec fn distinct_keys<K: MapKey, V>(s: Seq<Bucket<K, V>>) -> bool {
    forall|i: int, j: int|
        0 <= i < s.len() && 0 <= j < s.len() && i != j && (#[trigger] s[i]).key_view() is Some
            && (#[trigger] s[j]).key_view() is Some ==> s[i].key_view() != s[j].key_view()
}

/// The slot reached after `j` probe steps from the starting slot `h0` in an
/// array of `c` slots.
pub open spec fn probe_at(h0: int, j: int, c: int) -> int {
    if h0 + j < c {
        h0 + j
    } else {
        h0 + j - c
    }
}

/// The number of probe steps from the starting slot `h0` to the slot `i`.
pub open spec fn probe_dist(h0: int, i: int, c: int) -> int {
    if i >= h0 {
        i - h0
    } else {
        i + c - h0
    }
}

/// The starting slot of the probe for a key with view `kv`.
pub open spec fn home_slot<K: MapKey, V>(kv: K::V, b: HashBuilder, c: int) -> int {
    (K::hash_of(kv, b) as int) % c
}

/// Every occupied slot is reachable from its key's starting slot without
/// stepping over an empty or migrated slot: each slot strictly between the
/// start and the key's slot in probe order holds some key.
pub open spec fn chained<K: MapKey, V>(s: Seq<Bucket<K, V>>, b: HashBuilder) -> bool {
    let c = s.len() as int;
    forall|i: int, p: int|
        0 <= i < c && 0 <= p < c && (#[trigger] s[i]).key_view() is Some && probe_dist(
            home_slot::<K, V>(s[i].key_view()->0, b, c),
            p,
            c,
        ) < probe_dist(home_slot::<K, V>(s[i].key_view()->0, b, c), i, c) ==> (#[trigger] s[p]).is_occupied()
}

/// A power of two.
pub open spec fn is_pow2(n: nat) -> bool
    decreases n,
{
    if n == 0 {
        false
    } else if n == 1 {
        true
    } else {
        n % 2 == 0 && is_pow2(n / 2)
    }
}

/// Between two powers of two, the smaller doubled still does not pass the
/// larger.
pub proof fn lemma_pow2_double_le(c: nat, m: nat)
    requires
        is_pow2(c),
        is_pow2(m),
        c < m,
    ensures
        2 * c <= m,
    decreases c + m,
{
    if c == 1 {
        assert(m != 1);
        assert(m % 2 == 0 && is_pow2(m / 2));
        assert(m >= 2);
    } else {
        assert(c % 2 == 0 && is_pow2(c / 2));
        assert(m != 1) by {
            assert(c >= 1);
        }
        assert(m % 2 == 0 && is_pow2(m / 2));
        lemma_pow2_double_le(c / 2, m / 2);
    }
}

/// Powers of two satisfy [`is_pow2`].
pub proof fn lemma_is_pow2_pow2(e: nat)
    ensures
        is_pow2(pow2(e)),
    decreases e,
{
    lemma2_to64();
    if e > 0 {
        lemma_is_pow2_pow2((e - 1) as nat);
        lemma_pow2_adds((e - 1) as nat, 1);
        lemma_pow2_pos((e - 1) as nat);
        assert(pow2(e) == 2 * pow2((e - 1) as nat));
    }
}

/// `MAX_CAPACITY` is a power of two on every machine word.
pub proof fn lemma_max_capacity_pow2()
    ensures
        is_pow2(MAX_CAPACITY as nat),
{
    lemma2_to64();
    lemma2_to64_rest();
    if usize::MAX as nat == 0xffff_ffffnat {
        assert(MAX_CAPACITY as nat == pow2(30));
        lemma_is_pow2_pow2(30);
    } else {
        assert(usize::MAX as nat == 0xffff_ffff_ffff_ffffnat);
        assert(MAX_CAPACITY as nat == pow2(62));
        lemma_is_pow2_pow2(62);
    }
}

/// Appending a slot adds its contribution to the occupied count and to the
/// slot map.
pub proof fn lemma_slots_push<K: MapKey, V>(s: Seq<Bucket<K, V>>, b: Bucket<K, V>)
    ensures
        count_occupied(s.push(b)) == count_occupied(s) + if b.is_occupied() {
            1nat
        } else {
            0nat
        },
        slots_map(s.push(b)) == (match b {
            Bucket::Live { key, value } => slots_map(s).insert(key@, value),
            _ => slots_map(s),
        }),
{
    assert(s.push(b).drop_last() =~= s);
    assert(s.push(b).last() == b);
}

/// What the slot map holds: a key is present exactly when some slot is live
/// for it; with distinct keys, the value is that slot's value. The map is
/// finite and no larger than the occupied count.
pub proof fn lemma_slots_map_char<K: MapKey, V>(s: Seq<Bucket<K, V>>)
    ensures
        slots_map(s).dom().finite(),
        slots_map(s).dom().len() <= count_occupied(s),
        forall|kv: K::V|
            slots_map(s).contains_key(kv) <==> exists|i: int|
                0 <= i < s.len() && (#[trigger] s[i]).is_live_for(kv),
        distinct_keys(s) ==> forall|i: int|
            0 <= i < s.len() && (#[trigger] s[i]) is Live ==> slots_map(s).contains_key(
                s[i].key_view()->0,
            ) && slots_map(s)[s[i].key_view()->0] == s[i].value_at(),
    decreases s.len(),
{
    if s.len() == 0 {
    } else {
        let pre = s.drop_last();
        lemma_slots_map_char(pre);
        assert(distinct_keys(s) ==> distinct_keys(pre)) by {
            if distinct_keys(s) {
                assert forall|i: int, j: int|
                    0 <= i < pre.len() && 0 <= j < pre.len() && i != j && (
                    #[trigger] pre[i]).key_view() is Some && (
                    #[trigger] pre[j]).key_view() is Some implies pre[i].key_view()
                    != pre[j].key_view() by {
                    assert(pre[i] == s[i]);
                    assert(pre[j] == s[j]);
                }
            }
        }
        // membership characterisation
        assert forall|kv: K::V| slots_map(s).contains_key(kv) implies exists|i: int|
            0 <= i < s.len() && (#[trigger] s[i]).is_live_for(kv) by {
            match s.last() {
                Bucket::Live { key, value } => {
                    if key@ == kv {
                        assert(s[s.len() - 1].is_live_for(kv));
                    } else {
                        let i = choose|i: int| 0 <= i < pre.len() && (#[trigger] pre[i]).is_live_for(kv);
                        assert(s[i].is_live_for(kv));
                    }
                },
                _ => {
                    let i = choose|i: int| 0 <= i < pre.len() && (#[trigger] pre[i]).is_live_for(kv);
                    assert(s[i].is_live_for(kv));
                },
            }
        }
        assert forall|kv: K::V|
            (exists|i: int| 0 <= i < s.len() && (#[trigger] s[i]).is_live_for(kv)) implies slots_map(
            s,
        ).contains_key(kv) by {
            let i = choose|i: int| 0 <= i < s.len() && (#[trigger] s[i]).is_live_for(kv);
            if i < s.len() - 1 {
                assert(pre[i].is_live_for(kv));
            }
        }
        // value characterisation
        if distinct_keys(s) {
            assert forall|i: int| 0 <= i < s.len() && (#[trigger] s[i]) is Live implies slots_map(
                s,
            ).contains_key(s[i].key_view()->0) && slots_map(s)[s[i].key_view()->0]
                == s[i].value_at() by {
                let kv = s[i].key_view()->0;
                assert(s[i].is_live_for(kv));
                if i == s.len() - 1 {
                } else {
                    assert(pre[i] == s[i]);
                    match s.last() {
                        Bucket::Live { key, value } => {
                            assert(s[s.len() - 1].key_view() is Some);
                            assert(key@ != kv);
                        },
                        _ => {},
                    }
                }
            }
        }
    }
}

/// The occupied count of a full prefix never exceeds that of the whole.
pub proof fn lemma_count_take_le<K: MapKey, V>(s: Seq<Bucket<K, V>>, n: int)
    requires
        0 <= n <= s.len(),
    ensures
        count_occupied(s.take(n)) <= count_occupied(s),
    decreases s.len() - n,
{
    if n == s.len() {
        assert(s.take(n) =~= s);
    } else {
        let t = s.take(n + 1);
        assert(t.drop_last() =~= s.take(n));
        lemma_count_take_le(s, n + 1);
    }
}

/// The occupied count never exceeds the number of slots.
pub proof fn lemma_count_le<K: MapKey, V>(s: Seq<Bucket<K, V>>)
    ensures
        count_occupied(s) <= s.len(),
    decreases s.len(),
{
    if s.len() > 0 {
        lemma_count_le(s.drop_last());
    }
}

/// If every slot of `s` is occupied, the occupied count is the length.
pub proof fn lemma_count_full<K: MapKey, V>(s: Seq<Bucket<K, V>>)
    requires
        forall|i: int| 0 <= i < s.len() ==> (#[trigger] s[i]).is_occupied(),
    ensures
        count_occupied(s) == s.len(),
    decreases s.len(),
{
    if s.len() > 0 {
        let pre = s.drop_last();
        assert(forall|i: int| 0 <= i < pre.len() ==> (#[trigger] pre[i]) == s[i]);
        lemma_count_full(pre);
    }
}

/// Replacing one slot changes the occupied count by the difference of the
/// two slots' contributions.
pub proof fn lemma_count_update<K: MapKey, V>(s: Seq<Bucket<K, V>>, i: int, b: Bucket<K, V>)
    requires
        0 <= i < s.len(),
    ensures
        count_occupied(s.update(i, b)) + (if s[i].is_occupied() {
            1nat
        } else {
            0nat
        }) == count_occupied(s) + (if b.is_occupied() {
            1nat
        } else {
            0nat
        }),
    decreases s.len(),
{
    let t = s.update(i, b);
    if i == s.len() - 1 {
        assert(t.drop_last() =~= s.drop_last());
        assert(t.last() == b);
    } else {
        assert(t.drop_last() =~= s.drop_last().update(i, b));
        assert(t.last() == s.last());
        lemma_count_update(s.drop_last(), i, b);
    }
}

/// Replacing the slot of a key (or the empty slot where it is about to be
/// placed) updates the slot map pointwise: a live slot inserts the pair, a
/// tombstone removes the key.
pub proof fn lemma_slots_map_update<K: MapKey, V>(
    s: Seq<Bucket<K, V>>,
    i: int,
    nb: Bucket<K, V>,
    kv: K::V,
)
    requires
        0 <= i < s.len(),
        distinct_keys(s),
        nb.key_view() == Some(kv),
        s[i].key_view() is Some ==> s[i].key_view() == Some(kv),
        forall|j: int| 0 <= j < s.len() && j != i ==> (#[trigger] s[j]).key_view() != Some(kv),
    ensures
        distinct_keys(s.update(i, nb)),
        nb is Live ==> slots_map(s.update(i, nb)) == slots_map(s).insert(kv, nb.value_at()),
        nb is Tombstone ==> slots_map(s.update(i, nb)) == slots_map(s).remove(kv),
{
    let t = s.update(i, nb);
    let c = s.len() as int;
    lemma_slots_map_char(s);
    assert forall|a: int, j: int|
        0 <= a < c && 0 <= j < c && a != j && (#[trigger] t[a]).key_view() is Some && (
        #[trigger] t[j]).key_view() is Some implies t[a].key_view() != t[j].key_view() by {
        if a != i && j != i {
            assert(t[a] == s[a] && t[j] == s[j]);
        } else if a == i {
            assert(t[j] == s[j]);
        } else {
            assert(t[a] == s[a]);
        }
    }
    lemma_slots_map_char(t);
    if nb is Live {
        assert forall|kv2: K::V| #[trigger]
            slots_map(t).contains_key(kv2) == slots_map(s).insert(kv, nb.value_at()).contains_key(
            kv2,
        ) && (slots_map(t).contains_key(kv2) ==> slots_map(t)[kv2] == slots_map(s).insert(
            kv,
            nb.value_at(),
        )[kv2]) by {
            if kv2 == kv {
                assert(t[i].is_live_for(kv));
                assert(slots_map(t).contains_key(kv));
                assert(slots_map(t)[kv] == nb.value_at());
            } else {
                if slots_map(t).contains_key(kv2) {
                    let a = choose|a: int| 0 <= a < c && (#[trigger] t[a]).is_live_for(kv2);
                    assert(a != i);
                    assert(s[a].is_live_for(kv2));
                    assert(slots_map(t)[kv2] == t[a].value_at());
                    assert(slots_map(s)[kv2] == s[a].value_at());
                }
                if slots_map(s).contains_key(kv2) {
                    let a = choose|a: int| 0 <= a < c && (#[trigger] s[a]).is_live_for(kv2);
                    assert(a != i);
                    assert(t[a].is_live_for(kv2));
                }
            }
        }
        assert(slots_map(t) =~= slots_map(s).insert(kv, nb.value_at()));
    }
    if nb is Tombstone {
        assert forall|kv2: K::V| #[trigger]
            slots_map(t).contains_key(kv2) == slots_map(s).remove(kv).contains_key(kv2) && (
        slots_map(t).contains_key(kv2) ==> slots_map(t)[kv2] == slots_map(s).remove(kv)[kv2]) by {
            if kv2 == kv {
                if slots_map(t).contains_key(kv) {
                    let a = choose|a: int| 0 <= a < c && (#[trigger] t[a]).is_live_for(kv);
                    assert(a != i);
                    assert(s[a].key_view() == Some(kv));
                    assert(false);
                }
            } else {
                if slots_map(t).contains_key(kv2) {
                    let a = choose|a: int| 0 <= a < c && (#[trigger] t[a]).is_live_for(kv2);
                    assert(a != i);
                    assert(s[a].is_live_for(kv2));
                    assert(slots_map(t)[kv2] == t[a].value_at());
                    assert(slots_map(s)[kv2] == s[a].value_at());
                }
                if slots_map(s).contains_key(kv2) {
                    let a = choose|a: int| 0 <= a < c && (#[trigger] s[a]).is_live_for(kv2);
                    assert(a != i);
                    assert(t[a].is_live_for(kv2));
                }
            }
        }
        assert(slots_map(t) =~= slots_map(s).remove(kv));
    }
}

/// Replacing one slot with an occupied slot of the same key keeps every
/// probe chain unbroken, provided the chain of the new slot's own key held
/// beforehand.
pub proof fn lemma_chained_update<K: MapKey, V>(
    s: Seq<Bucket<K, V>>,
    b: HashBuilder,
    i: int,
    nb: Bucket<K, V>,
    kv: K::V,
)
    requires
        0 <= i < s.len(),
        chained(s, b),
        nb.key_view() == Some(kv),
        forall|t: int|
            0 <= t < probe_dist(home_slot::<K, V>(kv, b, s.len() as int), i, s.len() as int) ==> (
            #[trigger] s[probe_at(
                home_slot::<K, V>(kv, b, s.len() as int),
                t,
                s.len() as int,
            )]).is_occupied(),
    ensures
        chained(s.update(i, nb), b),
{
    let c = s.len() as int;
    let t2 = s.update(i, nb);
    assert forall|a: int, p: int|
        0 <= a < c && 0 <= p < c && (#[trigger] t2[a]).key_view() is Some && probe_dist(
            home_slot::<K, V>(t2[a].key_view()->0, b, c),
            p,
            c,
        ) < probe_dist(home_slot::<K, V>(t2[a].key_view()->0, b, c), a, c) implies (
    #[trigger] t2[p]).is_occupied() by {
        let kva = t2[a].key_view()->0;
        let h0 = home_slot::<K, V>(kva, b, c);
        if a == i {
            let dp = probe_dist(h0, p, c);
            assert(probe_at(h0, dp, c) == p);
            assert(s[p].is_occupied());
            if p != i {
                assert(t2[p] == s[p]);
            }
        } else {
            assert(s[a] == t2[a]);
            assert(s[p].is_occupied());
            if p == i {
                assert(nb.is_occupied());
            } else {
                assert(t2[p] == s[p]);
            }
        }
    }
}

/// An open-addressed array of slots, with the count of occupied slots and
/// the (ghost) hash builder that placed its keys.
pub struct BucketArray<K, V> {
    pub buckets: Vec<Bucket<K, V>>,
    pub filled: usize,
    pub builder: Ghost<HashBuilder>,
}

impl<K: MapKey, V> BucketArray<K, V> {
    /// The slots.
    pub open spec fn slots(self) -> Seq<Bucket<K, V>> {
        self.buckets@
    }

    /// The number of slots.
    pub open spec fn cap(self) -> int {
        self.buckets@.len() as int
    }

    /// The abstract content: the map of the live key views to their values.
    pub open spec fn as_map(self) -> Map<K::V, V> {
        slots_map(self.buckets@)
    }

    /// No slot is a tombstone (true of a freshly rebuilt array).
    pub open spec fn no_tombstones(self) -> bool {
        forall|i: int| 0 <= i < self.cap() ==> !((#[trigger] self.slots()[i]) is Tombstone)
    }

    /// Some slot holds the key with view `kv`, live or as a tombstone.
    pub open spec fn occupies(self, kv: K::V) -> bool {
        exists|i: int| 0 <= i < self.cap() && (#[trigger] self.slots()[i]).key_view() == Some(kv)
    }

    /// Structural well-formedness: a power-of-two number of slots within
    /// bounds, a correct occupied count, no sentinels, at most one slot per
    /// key, and unbroken probe chains.
    pub open spec fn inv(self) -> bool {
        let s = self.buckets@;
        &&& 0 < self.cap() <= MAX_CAPACITY as int
        &&& is_pow2(self.buckets@.len() as nat)
        &&& self.filled as nat == count_occupied(s)
        &&& forall|i: int| 0 <= i < self.cap() ==> !((#[trigger] s[i]) is Sentinel)
        &&& distinct_keys(s)
        &&& chained(s, self.builder@)
    }

    /// At most half of the slots are occupied, so probes terminate with
    /// room to spare.
    pub open spec fn below_half(self) -> bool {
        2 * (self.filled as int) <= self.cap()
    }

    /// The number of slots, as reported to diagnostics.
    pub fn capacity(&self) -> (c: usize)
        ensures
            c as int == self.cap(),
    {
        self.buckets.len()
    }

    /// An array of `capacity` empty slots.
    pub fn with_capacity(capacity: usize, Ghost(b): Ghost<HashBuilder>) -> (r: Self)
        requires
            0 < capacity <= MAX_CAPACITY,
            is_pow2(capacity as nat),
        ensures
            r.inv(),
            r.below_half(),
            r.no_tombstones(),
            r.builder@ == b,
            r.cap() == capacity,
            r.filled == 0,
            r.as_map() == Map::<K::V, V>::empty(),
    {
        let mut buckets: Vec<Bucket<K, V>> = Vec::new();
        let mut i: usize = 0;
        while i < capacity
            invariant
                i <= capacity,
                buckets@.len() == i,
                forall|t: int| 0 <= t < i ==> (#[trigger] buckets@[t]) is Empty,
                count_occupied(buckets@) == 0,
                slots_map(buckets@) == Map::<K::V, V>::empty(),
            decreases capacity - i,
        {
            let ghost prev = buckets@;
            buckets.push(Bucket::Empty);
            proof {
                lemma_slots_push(prev, Bucket::<K, V>::Empty);
            }
            i += 1;
        }
        let r = BucketArray { buckets, filled: 0, builder: Ghost(b) };
        proof {
            assert(r.inv());
        }
        r
    }

    /// Walks the probe sequence of `key` and returns the index of the
    /// key's own slot (live or tombstone) or of the first empty slot. The
    /// slots strictly before it in probe order all hold other keys.
    fn probe(&self, key: &K, h: u64) -> (idx: usize)
        requires
            self.inv(),
            (self.filled as int) < self.cap(),
            h == K::hash_of(key@, self.builder@),
        ensures
            0 <= (idx as int) < self.cap(),
            !(self.slots()[idx as int] is Sentinel),
            self.slots()[idx as int].key_view() is Some ==> self.slots()[idx as int].key_view()
                == Some(key@),
            self.slots()[idx as int] is Empty ==> forall|i: int|
                0 <= i < self.cap() ==> (#[trigger] self.slots()[i]).key_view() != Some(key@),
            forall|t: int|
                0 <= t < probe_dist(
                    home_slot::<K, V>(key@, self.builder@, self.cap()),
                    idx as int,
                    self.cap(),
                ) ==> (#[trigger] self.slots()[probe_at(
                    home_slot::<K, V>(key@, self.builder@, self.cap()),
                    t,
                    self.cap(),
                )]).is_occupied() && self.slots()[probe_at(
                    home_slot::<K, V>(key@, self.builder@, self.cap()),
                    t,
                    self.cap(),
                )].key_view() != Some(key@),
    {
        let ghost s = self.buckets@;
        let ghost b = self.builder@;
        let c = self.buckets.len();
        let ghost c_int = c as int;
        let ghost h0 = home_slot::<K, V>(key@, b, c_int);
        let start = (h % (c as u64)) as usize;
        proof {
            assert(start as int == h0);
            assert(0 <= h0 < c_int);
        }
        let mut j: usize = 0;
        let mut idx: usize = start;
        loop
            invariant
                self.inv(),
                (self.filled as int) < self.cap(),
                h == K::hash_of(key@, b),
                b == self.builder@,
                s == self.buckets@,
                c == self.buckets.len(),
                c_int == c as int,
                h0 == home_slot::<K, V>(key@, b, c_int),
                0 <= h0 < c_int,
                (j as int) < c_int,
                idx as int == probe_at(h0, j as int, c_int),
                forall|t: int|
                    0 <= t < j ==> (#[trigger] s[probe_at(h0, t, c_int)]).is_occupied() && s[probe_at(
                        h0,
                        t,
                        c_int,
                    )].key_view() != Some(key@),
            decreases c_int - j,
        {
            match &self.buckets[idx] {
                Bucket::Empty => {
                    proof {
                        assert forall|i2: int|
                            0 <= i2 < c_int implies (#[trigger] s[i2]).key_view() != Some(key@) by {
                            if s[i2].key_view() == Some(key@) {
                                let d = probe_dist(h0, i2, c_int);
                                assert(home_slot::<K, V>(s[i2].key_view()->0, b, c_int) == h0);
                                assert(probe_at(h0, d, c_int) == i2);
                                if d < j as int {
                                    assert(s[probe_at(h0, d, c_int)].key_view() != Some(key@));
                                } else if d == j as int {
                                    assert(i2 == idx as int);
                                } else {
                                    assert(probe_dist(h0, idx as int, c_int) == j as int);
                                    assert(s[idx as int].is_occupied());
                                }
                            }
                        }
                    }
                    return idx;
                },
                Bucket::Live { key: k2, .. } => {
                    if k2.key_eq(key) {
                        return idx;
                    }
                },
                Bucket::Tombstone { key: k2 } => {
                    if k2.key_eq(key) {
                        return idx;
                    }
                },
                Bucket::Sentinel => {
                    proof {
                        assert(false);
                    }
                },
            }
            proof {
                assert(s[idx as int].is_occupied());
                assert(s[idx as int].key_view() != Some(key@));
                if j as int + 1 == c_int {
                    assert forall|i2: int| 0 <= i2 < c_int implies (
                    #[trigger] s[i2]).is_occupied() by {
                        let t = probe_dist(h0, i2, c_int);
                        assert(probe_at(h0, t, c_int) == i2);
                        if t < j as int {
                            assert(s[probe_at(h0, t, c_int)].is_occupied());
                        } else {
                            assert(t == j as int);
                            assert(i2 == idx as int);
                        }
                    }
                    lemma_count_full::<K, V>(s);
                    assert(false);
                }
            }
            j += 1;
            idx = if idx + 1 == c { 0 } else { idx + 1 };
        }
    }

    /// Finds the slot of the live mapping for `key`, if there is one.
    pub fn find_index(&self, key: &K, h: u64) -> (r: Option<usize>)
        requires
            self.inv(),
            self.below_half(),
            h == K::hash_of(key@, self.builder@),
        ensures
            match r {
                Some(i) => 0 <= (i as int) < self.cap() && self.slots()[i as int].is_live_for(key@)
                    && self.as_map().contains_key(key@) && self.as_map()[key@]
                    == self.slots()[i as int].value_at(),
                None => !self.as_map().contains_key(key@),
            },
    {
        proof {
            assert((self.filled as int) < self.cap());
            lemma_slots_map_char::<K, V>(self.buckets@);
        }
        let idx = self.probe(key, h);
        match &self.buckets[idx] {
            Bucket::Live { .. } => Some(idx),
            Bucket::Tombstone { .. } => {
                proof {
                    if self.as_map().contains_key(key@) {
                        let j = choose|j: int|
                            0 <= j < self.cap() && (#[trigger] self.slots()[j]).is_live_for(key@);
                        assert(j == idx as int);
                        assert(false);
                    }
                }
                None
            },
            Bucket::Empty => {
                proof {
                    if self.as_map().contains_key(key@) {
                        let j = choose|j: int|
                            0 <= j < self.cap() && (#[trigger] self.slots()[j]).is_live_for(key@);
                        assert(false);
                    }
                }
                None
            },
            Bucket::Sentinel => {
                proof {
                    assert(false);
                }
                None
            },
        }
    }

    /// Borrows the key and value of a live slot.
    pub fn live_entry(&self, i: usize) -> (e: (&K, &V))
        requires
            (i as int) < self.slots().len(),
            self.slots()[i as int] is Live,
        ensures
            Some(e.0@) == self.slots()[i as int].key_view(),
            *e.1 == self.slots()[i as int].value_at(),
    {
        match &self.buckets[i] {
            Bucket::Live { key, value } => (key, value),
            _ => unreached(),
        }
    }

    /// Installs a live mapping for `key`, reusing the key's own slot (live
    /// or tombstone) or the first empty slot of its probe sequence, and
    /// hands back the displaced pair if the key was live.
    #[verifier::rlimit(60)]
    pub fn insert(&mut self, key: K, value: V, h: u64) -> (prev: Option<(K, V)>)
        requires
            old(self).inv(),
            old(self).below_half(),
            h == K::hash_of(key@, old(self).builder@),
        ensures
            final(self).inv(),
            final(self).builder@ == old(self).builder@,
            final(self).cap() == old(self).cap(),
            final(self).as_map() == old(self).as_map().insert(key@, value),
            old(self).no_tombstones() ==> final(self).no_tombstones(),
            final(self).filled as int <= old(self).filled as int + 1,
            match prev {
                Some(p) => old(self).as_map().contains_key(key@) && p.0@ == key@ && p.1 == old(
                    self,
                ).as_map()[key@] && final(self).filled == old(self).filled,
                None => !old(self).as_map().contains_key(key@) && (old(self).occupies(key@)
                    ==> final(self).filled == old(self).filled) && (!old(self).occupies(key@)
                    ==> final(self).filled as int == old(self).filled as int + 1),
            },
    {
        proof {
            assert((self.filled as int) < self.cap());
        }
        let idx = self.probe(&key, h);
        let ghost s = self.buckets@;
        let ghost kv = key@;
        let mut tmp = Bucket::Live { key, value };
        self.buckets.set_and_swap(idx, &mut tmp);
        proof {
            let nb = self.buckets@[idx as int];
            assert(nb.key_view() == Some(kv) && nb is Live);
            assert forall|j: int| 0 <= j < s.len() && j != idx as int implies (
            #[trigger] s[j]).key_view() != Some(kv) by {
                if s[idx as int].key_view() is Some {
                } else {
                    assert(s[j].key_view() != Some(kv));
                }
            }
            lemma_slots_map_char::<K, V>(s);
            lemma_slots_map_update(s, idx as int, nb, kv);
            lemma_count_update(s, idx as int, nb);
            if !(s[idx as int] is Empty) {
                assert forall|t: int|
                    0 <= t < probe_dist(
                        home_slot::<K, V>(kv, old(self).builder@, s.len() as int),
                        idx as int,
                        s.len() as int,
                    ) implies (#[trigger] s[probe_at(
                    home_slot::<K, V>(kv, old(self).builder@, s.len() as int),
                    t,
                    s.len() as int,
                )]).is_occupied() by {}
            }
            lemma_chained_update(s, old(self).builder@, idx as int, nb, kv);
        }
        match tmp {
            Bucket::Empty => {
                self.filled += 1;
                proof {
                    assert(!old(self).occupies(kv));
                }
                None
            },
            Bucket::Tombstone { .. } => {
                proof {
                    if old(self).as_map().contains_key(kv) {
                        let j = choose|j: int|
                            0 <= j < s.len() && (#[trigger] s[j]).is_live_for(kv);
                        assert(j == idx as int);
                        assert(false);
                    }
                    assert(old(self).occupies(kv));
                }
                None
            },
            Bucket::Live { key: old_key, value: old_value } => {
                proof {
                    assert(s[idx as int].is_live_for(kv));
                }
                Some((old_key, old_value))
            },
            Bucket::Sentinel => unreached(),
        }
    }

    /// Deletes the live mapping in slot `i`, leaving a tombstone with the
    /// same key, and hands back the value.
    #[verifier::spinoff_prover]
    #[verifier::rlimit(60)]
    pub fn remove_at(&mut self, i: usize) -> (v: V)
        requires
            old(self).inv(),
            (i as int) < old(self).cap(),
            old(self).slots()[i as int] is Live,
        ensures
            final(self).inv(),
            final(self).builder@ == old(self).builder@,
            final(self).cap() == old(self).cap(),
            final(self).filled == old(self).filled,
            final(self).as_map() == old(self).as_map().remove(
                old(self).slots()[i as int].key_view()->0,
            ),
            v == old(self).slots()[i as int].value_at(),
    {
        let ghost s = self.buckets@;
        let ghost kv = s[i as int].key_view()->0;
        let mut tmp = Bucket::Empty;
        self.buckets.set_and_swap(i, &mut tmp);
        match tmp {
            Bucket::Live { key, value } => {
                self.buckets.set(i, Bucket::Tombstone { key });
                proof {
                    assert(self.buckets@ =~= s.update(i as int, self.buckets@[i as int]));
                    let nb = self.buckets@[i as int];
                    lemma_slots_map_char::<K, V>(s);
                    lemma_slots_map_update(s, i as int, nb, kv);
                    lemma_count_update(s, i as int, nb);
                    assert forall|t: int|
                        0 <= t < probe_dist(
                            home_slot::<K, V>(kv, old(self).builder@, s.len() as int),
                            i as int,
                            s.len() as int,
                        ) implies (#[trigger] s[probe_at(
                        home_slot::<K, V>(kv, old(self).builder@, s.len() as int),
                        t,
                        s.len() as int,
                    )]).is_occupied() by {}
                    lemma_chained_update(s, old(self).builder@, i as int, nb, kv);
                }
                value
            },
            _ => unreached(),
        }
    }

    /// Replaces the value of the live mapping in slot `i`, keeping the key,
    /// and hands back the previous value.
    #[verifier::spinoff_prover]
    #[verifier::rlimit(60)]
    pub fn replace_at(&mut self, i: usize, value: V) -> (prev: V)
        requires
            old(self).inv(),
            (i as int) < old(self).cap(),
            old(self).slots()[i as int] is Live,
        ensures
            final(self).inv(),
            final(self).builder@ == old(self).builder@,
            final(self).cap() == old(self).cap(),
            final(self).filled == old(self).filled,
            old(self).no_tombstones() ==> final(self).no_tombstones(),
            final(self).as_map() == old(self).as_map().insert(
                old(self).slots()[i as int].key_view()->0,
                value,
            ),
            prev == old(self).slots()[i as int].value_at(),
    {
        let ghost s = self.buckets@;
        let ghost kv = s[i as int].key_view()->0;
        let mut tmp = Bucket::Empty;
        self.buckets.set_and_swap(i, &mut tmp);
        match tmp {
            Bucket::Live { key, value: old_value } => {
                self.buckets.set(i, Bucket::Live { key, value });
                proof {
                    assert(self.buckets@ =~= s.update(i as int, self.buckets@[i as int]));
                    let nb = self.buckets@[i as int];
                    lemma_slots_map_char::<K, V>(s);
                    lemma_slots_map_update(s, i as int, nb, kv);
                    lemma_count_update(s, i as int, nb);
                    assert forall|t: int|
                        0 <= t < probe_dist(
                            home_slot::<K, V>(kv, old(self).builder@, s.len() as int),
                            i as int,
                            s.len() as int,
                        ) implies (#[trigger] s[probe_at(
                        home_slot::<K, V>(kv, old(self).builder@, s.len() as int),
                        t,
                        s.len() as int,
                    )]).is_occupied() by {}
                    lemma_chained_update(s, old(self).builder@, i as int, nb, kv);
                }
                old_value
            },
            _ => unreached(),
        }
    }

    /// Migrates every slot into a fresh array of twice as many slots,
    /// marking each old slot as a sentinel as it is taken: live mappings are
    /// re-inserted at their new probe positions, tombstones are dropped.
    /// The array's content is unchanged and at most half of the new slots
    /// are occupied.
    pub fn rebuild(&mut self, hasher: &HashBuilder)
        requires
            old(self).inv(),
            old(self).cap() < MAX_CAPACITY as int,
            *hasher == old(self).builder@,
        ensures
            final(self).inv(),
            final(self).below_half(),
            final(self).no_tombstones(),
            final(self).builder@ == old(self).builder@,
            final(self).cap() == 2 * old(self).cap(),
            final(self).as_map() == old(self).as_map(),
            final(self).filled as nat <= old(self).filled as nat,
    {
        proof {
            lemma_max_capacity_pow2();
            lemma_pow2_double_le(old(self).buckets@.len() as nat, MAX_CAPACITY as nat);
            lemma_count_le::<K, V>(old(self).buckets@);
        }
        let c = self.buckets.len();
        let new_cap = 2 * c;
        let ghost b = self.builder@;
        proof {
            assert(is_pow2(new_cap as nat));
        }
        let mut fresh: BucketArray<K, V> = BucketArray::with_capacity(new_cap, Ghost(b));
        let ghost orig = self.buckets@;
        proof {
            assert(orig.take(0) =~= Seq::<Bucket<K, V>>::empty());
        }
        let mut i: usize = 0;
        while i < c
            invariant
                i <= c,
                c == orig.len(),
                new_cap == 2 * c,
                2 * c <= MAX_CAPACITY,
                self.buckets@.len() == orig.len(),
                c == self.buckets.len(),
                self.builder@ == b,
                forall|t: int| i <= t < c ==> (#[trigger] self.buckets@[t]) == orig[t],
                forall|t: int| 0 <= t < i ==> (#[trigger] self.buckets@[t]) is Sentinel,
                fresh.inv(),
                fresh.no_tombstones(),
                fresh.builder@ == b,
                fresh.cap() == new_cap as int,
                fresh.as_map() == slots_map(orig.take(i as int)),
                fresh.filled as nat <= count_occupied(orig.take(i as int)),
                count_occupied(orig) <= orig.len(),
                distinct_keys(orig),
                *hasher == b,
                forall|t: int| 0 <= t < c ==> !((#[trigger] orig[t]) is Sentinel),
            decreases c - i,
        {
            let mut tmp = Bucket::Sentinel;
            self.buckets.set_and_swap(i, &mut tmp);
            let ghost pre_map = fresh.as_map();
            let ghost pre_filled = fresh.filled;
            proof {
                assert(tmp == orig[i as int]);
                lemma_count_take_le(orig, i as int);
                assert(orig.take(i as int + 1).drop_last() =~= orig.take(i as int));
                assert(orig.take(i as int + 1).last() == orig[i as int]);
                lemma_slots_map_char::<K, V>(orig.take(i as int));
            }
            match tmp {
                Bucket::Live { key, value } => {
                    let h = key.key_hash(hasher);
                    proof {
                        if fresh.as_map().contains_key(key@) {
                            let j = choose|j: int|
                                0 <= j < orig.take(i as int).len() && (#[trigger] orig.take(
                                    i as int,
                                )[j]).is_live_for(key@);
                            assert(orig[j].key_view() == Some(key@));
                            assert(orig[i as int].key_view() == Some(key@));
                            assert(false);
                        }
                        if fresh.occupies(key@) {
                            let j = choose|j: int|
                                0 <= j < fresh.cap() && (#[trigger] fresh.slots()[j]).key_view()
                                    == Some(key@);
                            assert(fresh.slots()[j] is Live);
                            assert(fresh.slots()[j].is_live_for(key@));
                            lemma_slots_map_char::<K, V>(fresh.buckets@);
                            assert(false);
                        }
                    }
                    let prev = fresh.insert(key, value, h);
                    proof {
                        assert(prev is None);
                        assert(fresh.as_map() == slots_map(orig.take(i as int + 1)));
                        assert(fresh.filled as nat <= count_occupied(orig.take(i as int + 1)));
                    }
                },
                Bucket::Tombstone { .. } => {
                    proof {
                        assert(fresh.as_map() == slots_map(orig.take(i as int + 1)));
                        assert(fresh.filled as nat <= count_occupied(orig.take(i as int + 1)));
                    }
                },
                Bucket::Empty => {
                    proof {
                        assert(fresh.as_map() == slots_map(orig.take(i as int + 1)));
                        assert(fresh.filled as nat <= count_occupied(orig.take(i as int + 1)));
                    }
                },
                Bucket::Sentinel => {
                    proof {
                        assert(!(orig[i as int] is Sentinel));
                        assert(false);
                    }
                },
            }
            i += 1;
        }
        proof {
            assert(orig.take(c as int) =~= orig);
        }
        *self = fresh;
    }
}

} // verus!

