//! The Robin Hood hash table and its invariants.

use crate::arith::add_idx;
use crate::arith::dist_idx;
use crate::arith::lemma_add_add;
use crate::arith::lemma_add_dist;
use crate::arith::lemma_dist_add;
use crate::arith::lemma_mod_range;
use crate::arith::lemma_mod_small;
use crate::arith::lemma_prev_add;
use crate::arith::prev_idx;
use vstd::prelude::*;
use vstd::std_specs::cmp::PartialEqSpec;

verus! {

/// An occupied slot: a key, its value, and the entry's probe sequence
/// length (psl), the number of slots between the entry's ideal bucket and
/// the slot it occupies.
pub struct Elem<K, V> {
    pub key: K,
    pub value: V,
    pub psl: usize,
}

/// An open-addressing hash table with Robin Hood displacement and
/// backward-shift deletion.
///
/// The caller supplies the hash function as a closure `H`; it must be
/// deterministic, which the contracts state by asking for a spec function
/// that pins down every result the closure may return.
#[verifier::reject_recursive_types(K)]
pub struct HashMap<K, V, H> {
    pub buffer: Vec<Option<Elem<K, V>>>,
    pub capacity: usize,
    pub hasher: H,
    pub len: usize,
    pub hash_fn: Ghost<spec_fn(K) -> u32>,
}

/// How many slots of `s` are occupied.
pub open spec fn count_occ<K, V>(s: Seq<Option<Elem<K, V>>>) -> int
    decreases s.len(),
{
    if s.len() == 0 {
        0
    } else {
        count_occ(s.drop_last()) + if s.last() is Some {
            1int
        } else {
            0int
        }
    }
}

/// Updating one slot changes the occupied count by the difference of the
/// old and new slot states.
proof fn lemma_count_update<K, V>(s: Seq<Option<Elem<K, V>>>, i: int, v: Option<Elem<K, V>>)
    requires
        0 <= i < s.len(),
    ensures
        count_occ(s.update(i, v)) == count_occ(s) - (if s[i] is Some {
            1int
        } else {
            0int
        }) + (if v is Some {
            1int
        } else {
            0int
        }),
    decreases s.len(),
{
    let t = s.update(i, v);
    if i == s.len() - 1 {
        assert(t.drop_last() =~= s.drop_last());
        assert(t.last() == v);
    } else {
        assert(t.drop_last() =~= s.drop_last().update(i, v));
        lemma_count_update(s.drop_last(), i, v);
        assert(t.last() == s.last());
    }
}

/// The occupied count lies between zero and the number of slots.
proof fn lemma_count_bounds<K, V>(s: Seq<Option<Elem<K, V>>>)
    ensures
        0 <= count_occ(s) <= s.len(),
    decreases s.len(),
{
    if s.len() > 0 {
        lemma_count_bounds(s.drop_last());
    }
}

/// A slot array with fewer occupants than slots has an empty slot.
proof fn lemma_exists_empty<K, V>(s: Seq<Option<Elem<K, V>>>)
    requires
        count_occ(s) < s.len(),
    ensures
        exists|j: int| 0 <= j < s.len() && !(#[trigger] s[j] is Some),
    decreases s.len(),
{
    if s.len() > 0 {
        if s.last() is Some {
            lemma_exists_empty(s.drop_last());
            let j = choose|j: int| 0 <= j < s.drop_last().len() && !(#[trigger] s.drop_last()[j] is Some);
            assert(!(s[j] is Some));
        } else {
            assert(!(s[s.len() - 1] is Some));
        }
    }
}

/// Whether the occupied slots of `s` hold pairwise distinct keys.
pub open spec fn seq_keys_unique<K, V>(s: Seq<Option<Elem<K, V>>>) -> bool {
    forall|i: int, j: int|
        0 <= i < s.len() && 0 <= j < s.len() && i != j && s[i] is Some && s[j] is Some
            ==> (#[trigger] s[i])->0.key != (#[trigger] s[j])->0.key
}

/// The map holding the entries of slots `n` and onward of `s`, earlier
/// slots taking precedence on a repeated key.
pub open spec fn map_of<K, V>(s: Seq<Option<Elem<K, V>>>, n: int) -> Map<K, V>
    decreases s.len() - n,
{
    if n < 0 || n >= s.len() {
        Map::empty()
    } else {
        match s[n] {
            Some(e) => map_of(s, n + 1).insert(e.key, e.value),
            None => map_of(s, n + 1),
        }
    }
}

/// A key is in `map_of(s, n)` exactly when some slot at `n` or later holds it.
proof fn lemma_map_of_contains<K, V>(s: Seq<Option<Elem<K, V>>>, n: int, k: K)
    requires
        0 <= n <= s.len(),
    ensures
        map_of(s, n).contains_key(k) <==> exists|m: int|
            n <= m < s.len() && (#[trigger] s[m]) is Some && s[m]->0.key == k,
    decreases s.len() - n,
{
    if n < s.len() {
        lemma_map_of_contains(s, n + 1, k);
        if s[n] is Some && s[n]->0.key == k {
            assert(map_of(s, n).contains_key(k));
        }
        if map_of(s, n).contains_key(k) && !(s[n] is Some && s[n]->0.key == k) {
            let m = choose|m: int|
                n + 1 <= m < s.len() && (#[trigger] s[m]) is Some && s[m]->0.key == k;
            assert(n <= m < s.len() && s[m] is Some && s[m]->0.key == k);
        }
        if exists|m: int| n <= m < s.len() && (#[trigger] s[m]) is Some && s[m]->0.key == k {
            let m = choose|m: int| n <= m < s.len() && (#[trigger] s[m]) is Some && s[m]->0.key == k;
            if m > n {
                assert(map_of(s, n + 1).contains_key(k));
            }
        }
    }
}

/// With unique keys, the value `map_of` holds for a key is the value
/// stored beside that key.
proof fn lemma_map_of_value<K, V>(s: Seq<Option<Elem<K, V>>>, n: int, m: int)
    requires
        seq_keys_unique(s),
        0 <= n <= m < s.len(),
        s[m] is Some,
    ensures
        map_of(s, n).contains_key(s[m]->0.key),
        map_of(s, n)[s[m]->0.key] == s[m]->0.value,
    decreases m - n,
{
    if n == m {
    } else {
        lemma_map_of_value(s, n + 1, m);
    }
}

/// A slot array of `n` empty slots.
fn empty_slots<K, V>(n: usize) -> (v: Vec<Option<Elem<K, V>>>)
    ensures
        v@.len() == n,
        forall|j: int| 0 <= j < n ==> !((#[trigger] v@[j]) is Some),
        count_occ(v@) == 0,
{
    let mut v: Vec<Option<Elem<K, V>>> = Vec::new();
    let mut i: usize = 0;
    while i < n
        invariant
            i <= n,
            v@.len() == i as int,
            count_occ(v@) == 0,
            forall|j: int| 0 <= j < v@.len() ==> !((#[trigger] v@[j]) is Some),
        decreases n - i,
    {
        let ghost prior = v@;
        v.push(None);
        proof {
            assert(v@.drop_last() =~= prior);
        }
        i = i + 1;
    }
    v
}

/// The pairs of `ps` inserted into `m` in order.
pub open spec fn insert_all<K, V>(m: Map<K, V>, ps: Seq<(K, V)>) -> Map<K, V>
    decreases ps.len(),
{
    if ps.len() == 0 {
        m
    } else {
        insert_all(m, ps.drop_last()).insert(ps.last().0, ps.last().1)
    }
}

/// Round trip: after any sequence of inserts with pairwise distinct keys,
/// every inserted key is present and maps to the value inserted beside it
/// — so a lookup returns the most recently inserted value for that key.
pub proof fn lemma_round_trip<K, V>(m: Map<K, V>, ps: Seq<(K, V)>, i: int)
    requires
        forall|a: int, b: int|
            0 <= a < ps.len() && 0 <= b < ps.len() && a != b ==> (#[trigger] ps[a]).0 != (
            #[trigger] ps[b]).0,
        0 <= i < ps.len(),
    ensures
        insert_all(m, ps).contains_key(ps[i].0),
        insert_all(m, ps)[ps[i].0] == ps[i].1,
    decreases ps.len(),
{
    if i < ps.len() - 1 {
        lemma_round_trip(m, ps.drop_last(), i);
        assert(ps.last().0 != ps[i].0);
    }
}

/// Overwrite: inserting the same key twice is inserting the second value
/// once, and after the first insert the key is present — so the second
/// insert leaves the table's length unchanged and a lookup returns the
/// second value.
pub proof fn lemma_overwrite<K, V>(m: Map<K, V>, k: K, v1: V, v2: V)
    ensures
        m.insert(k, v1).insert(k, v2) == m.insert(k, v2),
        m.insert(k, v1).contains_key(k),
{
    assert(m.insert(k, v1).insert(k, v2) =~= m.insert(k, v2));
}

/// The set of keys held by the slots of `s`.
pub open spec fn key_set<K, V>(s: Seq<Option<Elem<K, V>>>) -> Set<K>
    decreases s.len(),
{
    if s.len() == 0 {
        Set::empty()
    } else {
        if s.last() is Some {
            key_set(s.drop_last()).insert(s.last()->0.key)
        } else {
            key_set(s.drop_last())
        }
    }
}

/// The key set of a slot array is finite.
proof fn lemma_key_set_finite<K, V>(s: Seq<Option<Elem<K, V>>>)
    ensures
        key_set(s).finite(),
    decreases s.len(),
{
    if s.len() > 0 {
        lemma_key_set_finite(s.drop_last());
    }
}

/// A key is in the key set exactly when some slot holds it.
proof fn lemma_key_set_contains<K, V>(s: Seq<Option<Elem<K, V>>>, k: K)
    ensures
        key_set(s).contains(k) <==> exists|m: int|
            0 <= m < s.len() && (#[trigger] s[m]) is Some && s[m]->0.key == k,
    decreases s.len(),
{
    if s.len() > 0 {
        lemma_key_set_contains(s.drop_last(), k);
        if key_set(s).contains(k) {
            if s.last() is Some && s.last()->0.key == k {
                assert(s[s.len() - 1] is Some && s[s.len() - 1]->0.key == k);
            } else {
                let m = choose|m: int|
                    0 <= m < s.drop_last().len() && (#[trigger] s.drop_last()[m]) is Some
                        && s.drop_last()[m]->0.key == k;
                assert(s[m] is Some && s[m]->0.key == k);
            }
        }
        if exists|m: int| 0 <= m < s.len() && (#[trigger] s[m]) is Some && s[m]->0.key == k {
            let m = choose|m: int|
                0 <= m < s.len() && (#[trigger] s[m]) is Some && s[m]->0.key == k;
            if m < s.len() - 1 {
                assert(s.drop_last()[m] is Some && s.drop_last()[m]->0.key == k);
                assert(key_set(s.drop_last()).contains(k));
            }
        }
    }
}

/// With unique keys there are as many keys as occupied slots.
proof fn lemma_key_set_card<K, V>(s: Seq<Option<Elem<K, V>>>)
    requires
        seq_keys_unique(s),
    ensures
        key_set(s).len() == count_occ(s),
    decreases s.len(),
{
    if s.len() > 0 {
        assert(seq_keys_unique(s.drop_last())) by {
            assert forall|a: int, b: int|
                0 <= a < s.drop_last().len() && 0 <= b < s.drop_last().len() && a != b
                    && s.drop_last()[a] is Some && s.drop_last()[b] is Some implies (
            #[trigger] s.drop_last()[a])->0.key != (#[trigger] s.drop_last()[b])->0.key by {
                assert(s.drop_last()[a] == s[a]);
                assert(s.drop_last()[b] == s[b]);
            }
        }
        lemma_key_set_card(s.drop_last());
        lemma_key_set_finite(s.drop_last());
        if s.last() is Some {
            let k = s.last()->0.key;
            lemma_key_set_contains(s.drop_last(), k);
            if key_set(s.drop_last()).contains(k) {
                let m = choose|m: int|
                    0 <= m < s.drop_last().len() && (#[trigger] s.drop_last()[m]) is Some
                        && s.drop_last()[m]->0.key == k;
                assert(s[m] is Some && s[m]->0.key == k);
                assert(s[s.len() - 1] is Some && s[s.len() - 1]->0.key == k);
                assert(false);
            }
            vstd::set::axiom_set_insert_len(key_set(s.drop_last()), k);
        }
    }
}

impl<K: PartialEq, V, H: Fn(&K) -> u32> HashMap<K, V, H> {
    /// The capacity as a mathematical integer.
    pub open spec fn cap(self) -> int {
        self.capacity as int
    }

    /// Whether slot `i` is occupied.
    pub open spec fn occ(self, i: int) -> bool {
        self.buffer@[i] is Some
    }

    /// The key stored in slot `i`.
    pub open spec fn key_at(self, i: int) -> K {
        self.buffer@[i]->0.key
    }

    /// The value stored in slot `i`.
    pub open spec fn val_at(self, i: int) -> V {
        self.buffer@[i]->0.value
    }

    /// The stored probe sequence length of slot `i`.
    pub open spec fn psl_at(self, i: int) -> int {
        self.buffer@[i]->0.psl as int
    }

    /// The hash of `k` under the table's hash function.
    pub open spec fn hash_of(self, k: K) -> u32 {
        (self.hash_fn@)(k)
    }

    /// The ideal bucket of `k`: its hash reduced modulo the capacity.
    pub open spec fn bucket_of(self, k: K) -> int {
        (self.hash_of(k) as int) % self.cap()
    }

    /// The stored psl of an occupied slot equals the true distance from the
    /// entry's ideal bucket, and an entry away from its bucket sits right
    /// after a slot that is occupied by an entry at most one step richer.
    pub open spec fn slot_ok(self, i: int) -> bool {
        self.occ(i) ==> {
            &&& self.psl_at(i) == dist_idx(self.bucket_of(self.key_at(i)), i, self.cap())
            &&& self.psl_at(i) > 0 ==> {
                &&& self.occ(prev_idx(i, self.cap()))
                &&& self.psl_at(prev_idx(i, self.cap())) >= self.psl_at(i) - 1
            }
        }
    }

    /// Every slot satisfies the psl invariant.
    pub open spec fn slots_ok(self) -> bool {
        forall|i: int| 0 <= i < self.cap() ==> #[trigger] self.slot_ok(i)
    }

    /// No key occupies two slots.
    pub open spec fn keys_unique(self) -> bool {
        forall|i: int, j: int|
            0 <= i < self.cap() && 0 <= j < self.cap() && i != j && self.occ(i) && self.occ(j)
                ==> #[trigger] self.key_at(i) != #[trigger] self.key_at(j)
    }

    /// Exec equality on `K` coincides with mathematical equality.
    pub open spec fn eq_ok() -> bool {
        &&& K::obeys_eq_spec()
        &&& forall|x: K, y: K| #[trigger] x.eq_spec(&y) <==> x == y
    }

    /// `hasher` is total and deterministic: every result it may return on
    /// `k` equals `f(k)`.
    pub open spec fn hasher_obeys(hasher: H, f: spec_fn(K) -> u32) -> bool {
        &&& forall|k: &K| #[trigger] call_requires(hasher, (k,))
        &&& forall|k: &K, r: u32| #[trigger] call_ensures(hasher, (k,), r) ==> r == f(*k)
    }

    /// The stored closure computes the table's ghost hash function.
    pub open spec fn hasher_ok(self) -> bool {
        Self::hasher_obeys(self.hasher, self.hash_fn@)
    }

    /// Well-formedness: the slot array matches the capacity, `len` counts
    /// the occupied slots and leaves at least one slot free, every entry's
    /// psl is correct, keys are unique, and the hash function behaves.
    pub open spec fn wf(self) -> bool {
        &&& self.capacity >= 1
        &&& self.buffer@.len() == self.cap()
        &&& (self.len as int) < self.cap()
        &&& self.len as int == count_occ(self.buffer@)
        &&& self.slots_ok()
        &&& self.keys_unique()
        &&& self.hasher_ok()
        &&& Self::eq_ok()
    }

    /// Slot `i` holds key `k`.
    pub open spec fn contains_key_at(self, i: int, k: K) -> bool {
        0 <= i < self.cap() && self.occ(i) && self.key_at(i) == k
    }

    /// Some slot holds key `k`.
    pub open spec fn has_key(self, k: K) -> bool {
        exists|i: int| self.contains_key_at(i, k)
    }

    /// The slot holding key `k` (meaningful when `has_key(k)`).
    pub open spec fn slot_for(self, k: K) -> int {
        choose|i: int| self.contains_key_at(i, k)
    }

    /// The table as a mathematical map from keys to values.
    pub open spec fn view(self) -> Map<K, V> {
        Map::new(|k: K| self.has_key(k), |k: K| self.val_at(self.slot_for(k)))
    }

    /// Walking back from an occupied slot along its probe path, each of the
    /// `t` preceding slots is occupied, by entries losing at most one psl
    /// per step.
    proof fn lemma_chain(self, m: int, t: int)
        requires
            self.capacity >= 1,
            self.buffer@.len() == self.cap(),
            self.slots_ok(),
            0 <= m < self.cap(),
            self.occ(m),
            0 <= t <= self.psl_at(m),
        ensures
            self.occ(add_idx(m, -t, self.cap())),
            self.psl_at(add_idx(m, -t, self.cap())) >= self.psl_at(m) - t,
        decreases t,
    {
        let c = self.cap();
        lemma_mod_range(m - t, c);
        if t == 0 {
            lemma_mod_small(m, c);
        } else {
            assert(self.slot_ok(m));
            let p = prev_idx(m, c);
            lemma_mod_range(m - 1, c);
            self.lemma_chain(p, t - 1);
            crate::arith::lemma_mod_add_assoc(m - 1, 1 - t, c);
            assert(add_idx(p, -(t - 1), c) == add_idx(m, -t, c));
        }
    }

    /// If key `k` occupies slot `m`, every probe-path slot at distance `d`
    /// at most `k`'s own distance is occupied by an entry with psl at
    /// least `d`.
    proof fn lemma_probe_path(self, k: K, m: int, d: int)
        requires
            self.capacity >= 1,
            self.buffer@.len() == self.cap(),
            self.slots_ok(),
            self.contains_key_at(m, k),
            0 <= d <= self.psl_at(m),
        ensures
            self.occ(add_idx(self.bucket_of(k), d, self.cap())),
            self.psl_at(add_idx(self.bucket_of(k), d, self.cap())) >= d,
    {
        let c = self.cap();
        let b = self.bucket_of(k);
        assert(self.slot_ok(m));
        let p = self.psl_at(m);
        lemma_mod_range(m - b, c);
        lemma_add_dist(b, m, c);
        assert(add_idx(b, p, c) == m);
        self.lemma_chain(m, p - d);
        lemma_add_add(b, p, -(p - d), c);
        assert(add_idx(m, -(p - d), c) == add_idx(b, d, c));
    }

    /// If the first `d` probe-path slots for `k` do not hold `k`, and the
    /// slot at distance `d` is empty or holds an entry that is closer to
    /// its own bucket than `d`, then `k` is nowhere in the table.
    proof fn lemma_absent(self, k: K, d: int)
        requires
            self.capacity >= 1,
            self.buffer@.len() == self.cap(),
            self.slots_ok(),
            0 <= d < self.cap(),
            forall|t: int| 0 <= t < d
                ==> !self.contains_key_at(add_idx(self.bucket_of(k), t, self.cap()), k),
            !self.occ(add_idx(self.bucket_of(k), d, self.cap()))
                || self.psl_at(add_idx(self.bucket_of(k), d, self.cap())) < d,
        ensures
            !self.has_key(k),
    {
        let c = self.cap();
        let b = self.bucket_of(k);
        if self.has_key(k) {
            let m = choose|i: int| self.contains_key_at(i, k);
            assert(self.slot_ok(m));
            let dm = self.psl_at(m);
            lemma_mod_range(m - b, c);
            lemma_add_dist(b, m, c);
            if dm < d {
                assert(self.contains_key_at(add_idx(b, dm, c), k));
            } else {
                self.lemma_probe_path(k, m, d);
            }
        }
    }

    /// Changing only slot `i` keeps membership and value of every key that
    /// slot `i` holds neither before nor after the change.
    proof fn lemma_view_frame(pre: Self, post: Self, i: int)
        requires
            pre.capacity == post.capacity,
            pre.hash_fn == post.hash_fn,
            pre.buffer@.len() == pre.cap(),
            post.buffer@.len() == post.cap(),
            0 <= i < pre.cap(),
            forall|j: int| 0 <= j < pre.cap() && j != i ==> pre.buffer@[j] == post.buffer@[j],
            pre.keys_unique(),
            post.keys_unique(),
        ensures
            forall|k: K|
                !pre.contains_key_at(i, k) && !post.contains_key_at(i, k) ==> {
                    &&& (#[trigger] post@.contains_key(k) <==> pre@.contains_key(k))
                    &&& (pre@.contains_key(k) ==> post@[k] == pre@[k])
                },
    {
        assert forall|k: K| !pre.contains_key_at(i, k) && !post.contains_key_at(i, k) implies {
            &&& (#[trigger] post@.contains_key(k) <==> pre@.contains_key(k))
            &&& (pre@.contains_key(k) ==> post@[k] == pre@[k])
        } by {
            if pre.has_key(k) {
                let m = choose|m: int| pre.contains_key_at(m, k);
                assert(m != i);
                assert(post.contains_key_at(m, k));
                pre.lemma_slot_for_is(m, k);
                post.lemma_slot_for_is(m, k);
            } else {
                if post.has_key(k) {
                    let m = choose|m: int| post.contains_key_at(m, k);
                    assert(m != i);
                    assert(pre.contains_key_at(m, k));
                }
            }
        }
    }

    /// With unique keys, the slot the view reads a key from is the slot
    /// that holds it.
    proof fn lemma_slot_for_is(self, i: int, k: K)
        requires
            self.keys_unique(),
            self.contains_key_at(i, k),
        ensures
            self.slot_for(k) == i,
            self.has_key(k),
            self@.contains_key(k),
            self@[k] == self.val_at(i),
    {
        assert(self.has_key(k));
        let j = self.slot_for(k);
        assert(self.contains_key_at(j, k));
    }

    /// Length accounting: the stored length of a well-formed table always
    /// equals the number of distinct keys it holds — the keys inserted and
    /// still live after removals.
    pub proof fn lemma_len_counts_keys(self)
        requires
            self.wf(),
        ensures
            self@.dom().finite(),
            self@.dom().len() == self.len,
    {
        assert(seq_keys_unique(self.buffer@)) by {
            assert forall|a: int, b: int|
                0 <= a < self.buffer@.len() && 0 <= b < self.buffer@.len() && a != b
                    && self.buffer@[a] is Some && self.buffer@[b] is Some implies (
            #[trigger] self.buffer@[a])->0.key != (#[trigger] self.buffer@[b])->0.key by {
                assert(self.occ(a) && self.occ(b));
                assert(self.key_at(a) != self.key_at(b));
            }
        }
        lemma_key_set_finite(self.buffer@);
        lemma_key_set_card(self.buffer@);
        assert forall|k: K|
            #[trigger] self@.dom().contains(k) == key_set(self.buffer@).contains(k) by {
            lemma_key_set_contains(self.buffer@, k);
            if self.has_key(k) {
                let m = choose|m: int| self.contains_key_at(m, k);
                assert(self.buffer@[m] is Some && self.buffer@[m]->0.key == k);
            } else {
                if key_set(self.buffer@).contains(k) {
                    let m = choose|m: int|
                        0 <= m < self.buffer@.len() && (#[trigger] self.buffer@[m]) is Some
                            && self.buffer@[m]->0.key == k;
                    assert(self.contains_key_at(m, k));
                    assert(false);
                }
            }
        }
        assert(self@.dom() =~= key_set(self.buffer@));
    }

    /// After removing the entry at slot `i`, each of the next `r` entries
    /// moved back one slot with one psl less, the slot at distance `r`
    /// from `i` is empty, every slot outside that run is untouched, and
    /// the run ends before an empty slot or an entry already at its
    /// bucket.
    pub open spec fn backshifted(self, post: Self, i: int, r: int) -> bool {
        let c = self.cap();
        &&& 0 <= r < c
        &&& forall|t: int|
            1 <= t <= r ==> self.occ(#[trigger] add_idx(i, t, c)) && self.psl_at(add_idx(i, t, c))
                > 0
        &&& forall|t: int|
            1 <= t <= r ==> post.buffer@[add_idx(i, t - 1, c)] == Some(
                Elem {
                    key: self.key_at(#[trigger] add_idx(i, t, c)),
                    value: self.val_at(add_idx(i, t, c)),
                    psl: (self.psl_at(add_idx(i, t, c)) - 1) as usize,
                },
            )
        &&& !post.occ(add_idx(i, r, c))
        &&& forall|j: int|
            0 <= j < c && dist_idx(i, j, c) > r ==> post.buffer@[j] == self.buffer@[j]
        &&& (r + 1 < c ==> !self.occ(add_idx(i, r + 1, c)) || self.psl_at(add_idx(i, r + 1, c))
            == 0)
    }

    /// Creates a table with the default capacity of 256 slots.
    pub fn new(hasher: H) -> (r: Self)
        requires
            Self::eq_ok(),
            exists|f: spec_fn(K) -> u32| #[trigger] Self::hasher_obeys(hasher, f),
        ensures
            r.wf(),
            r@ == Map::<K, V>::empty(),
            r.capacity == 256,
            r.len == 0,
    {
        Self::with_capacity(256, hasher)
    }

    /// Creates a table with `capacity` slots, all empty.
    pub fn with_capacity(capacity: usize, hasher: H) -> (r: Self)
        requires
            capacity >= 1,
            Self::eq_ok(),
            exists|f: spec_fn(K) -> u32| #[trigger] Self::hasher_obeys(hasher, f),
        ensures
            r.wf(),
            r@ == Map::<K, V>::empty(),
            r.capacity == capacity,
            r.len == 0,
    {
        let ghost f = choose|f: spec_fn(K) -> u32| Self::hasher_obeys(hasher, f);
        let buffer = empty_slots(capacity);
        let r = Self { buffer, capacity, hasher, len: 0, hash_fn: Ghost(f) };
        proof {
            assert forall|i2: int| 0 <= i2 < r.cap() implies #[trigger] r.slot_ok(i2) by {
                assert(!r.occ(i2));
            }
            assert(r@ =~= Map::<K, V>::empty());
        }
        r
    }

    /// Walks the probe path of `key` and returns the index of the slot
    /// that settles the lookup: the slot holding `key`, or, when `key` is
    /// absent, an empty slot or one whose entry is closer to its own
    /// bucket than the probe has walked.
    fn find_elem(&self, key: &K) -> (r: usize)
        requires
            self.wf(),
        ensures
            r < self.capacity,
            self.has_key(*key) ==> self.contains_key_at(r as int, *key),
            !self.has_key(*key) ==> !(self.occ(r as int) && self.key_at(r as int) == *key),
    {
        let c = self.capacity;
        let ghost ci = self.cap();
        let h = (self.hasher)(key);
        let mut index: usize = (h as usize) % c;
        let mut psl: usize = 0;
        let ghost b = self.bucket_of(*key);
        proof {
            assert(h == self.hash_of(*key));
            lemma_mod_range(h as int, ci);
            lemma_mod_small(b, ci);
            assert(index as int == add_idx(b, 0, ci));
        }
        let ghost e = {
            lemma_count_bounds(self.buffer@);
            lemma_exists_empty(self.buffer@);
            let j0 = choose|j: int| 0 <= j < self.buffer@.len() && !(#[trigger] self.buffer@[j] is Some);
            lemma_add_dist(b, j0, ci);
            lemma_mod_range(j0 - b, ci);
            dist_idx(b, j0, ci)
        };
        loop
            invariant
                self.wf(),
                c == self.capacity,
                ci == self.cap(),
                b == self.bucket_of(*key),
                0 <= e < ci,
                !self.occ(add_idx(b, e, ci)),
                (psl as int) <= e,
                index < c,
                index as int == add_idx(b, psl as int, ci),
                forall|t: int|
                    0 <= t < psl as int ==> #[trigger] self.occ(add_idx(b, t, ci))
                        && self.key_at(add_idx(b, t, ci)) != *key,
            decreases e - psl as int,
        {
            let (is_empty, key_eq, rpsl): (bool, bool, usize) = match &self.buffer[index] {
                None => (true, false, 0),
                Some(elem) => (false, elem.key == *key, elem.psl),
            };
            if is_empty {
                proof {
                    self.lemma_absent(*key, psl as int);
                }
                return index;
            }
            if psl > rpsl {
                proof {
                    assert(self.psl_at(index as int) == rpsl as int);
                    self.lemma_absent(*key, psl as int);
                    if self.key_at(index as int) == *key {
                        assert(self.contains_key_at(index as int, *key));
                        assert(false);
                    }
                }
                return index;
            }
            if key_eq {
                proof {
                    self.lemma_slot_for_is(index as int, *key);
                }
                return index;
            }
            proof {
                assert((psl as int) < e);
                assert(key_eq == (self.key_at(index as int) == *key));
                crate::arith::lemma_mod_add_assoc(b + psl as int, 1, ci);
                lemma_mod_range(b + psl as int + 1, ci);
                assert forall|t: int| 0 <= t < (psl as int) + 1 implies #[trigger] self.occ(
                    add_idx(b, t, ci),
                ) && self.key_at(add_idx(b, t, ci)) != *key by {
                    if t == psl as int {
                        assert(add_idx(b, t, ci) == index as int);
                    }
                }
            }
            index = (index + 1) % c;
            psl = psl + 1;
        }
    }

    /// Places `key` with `value` by the Robin Hood walk: overwrite on an
    /// equal key, displace entries closer to their buckets than the
    /// candidate, settle in the first empty slot. Does not check the load
    /// threshold; callers keep a free slot in reserve.
    fn insert_elem(&mut self, key: K, value: V)
        requires
            old(self).wf(),
            old(self).len + 1 < old(self).capacity,
        ensures
            final(self).wf(),
            final(self)@ == old(self)@.insert(key, value),
            old(self)@.contains_key(key) ==> final(self).len == old(self).len,
            !old(self)@.contains_key(key) ==> final(self).len == old(self).len + 1,
            final(self).capacity == old(self).capacity,
            final(self).hasher == old(self).hasher,
            final(self).hash_fn == old(self).hash_fn,
    {
        let ghost t0 = *self;
        let c = self.capacity;
        let ghost ci = self.cap();
        let h = (self.hasher)(&key);
        let mut index: usize = (h as usize) % c;
        let ghost b0 = self.bucket_of(key);
        proof {
            assert(h == self.hash_of(key));
            lemma_mod_range(h as int, ci);
            lemma_mod_small(b0, ci);
            assert(index as int == add_idx(b0, 0, ci));
        }
        let ghost e = {
            lemma_count_bounds(self.buffer@);
            lemma_exists_empty(self.buffer@);
            let j0 = choose|j: int| 0 <= j < self.buffer@.len() && !(#[trigger] self.buffer@[j] is Some);
            lemma_add_dist(b0, j0, ci);
            lemma_mod_range(j0 - b0, ci);
            dist_idx(b0, j0, ci)
        };
        let mut cur = Elem { key, value, psl: 0usize };
        let ghost mut n: int = 0;
        loop
            invariant
                t0 == *old(self),
                self.wf(),
                t0.wf(),
                self.capacity == t0.capacity,
                self.len == t0.len,
                self.hasher == t0.hasher,
                self.hash_fn == t0.hash_fn,
                c == self.capacity,
                ci == self.cap(),
                (t0.len as int) + 1 < ci,
                b0 == t0.bucket_of(key),
                0 <= e < ci,
                !self.occ(add_idx(b0, e, ci)),
                0 <= n <= e,
                index < c,
                index as int == add_idx(b0, n, ci),
                forall|t: int| 0 <= t < n ==> #[trigger] self.occ(add_idx(b0, t, ci)),
                (cur.psl as int) <= n,
                index as int == add_idx(self.bucket_of(cur.key), cur.psl as int, ci),
                (cur.psl as int) > 0 ==> self.occ(prev_idx(index as int, ci)) && self.psl_at(
                    prev_idx(index as int, ci),
                ) >= (cur.psl as int) - 1,
                self@.insert(cur.key, cur.value) == t0@.insert(key, value),
                (cur.key == key && self.buffer@ == t0.buffer@ && n == cur.psl as int && (forall|
                    t: int,
                |
                    0 <= t < n ==> #[trigger] self.key_at(add_idx(b0, t, ci)) != key)) || (
                !t0@.contains_key(key) && !self.has_key(cur.key)),
            decreases e - n,
        {
            let (is_empty, key_eq, rpsl): (bool, bool, usize) = match &self.buffer[index] {
                None => (true, false, 0),
                Some(elem) => (false, elem.key == cur.key, elem.psl),
            };
            if is_empty {
                proof {
                    if !(!t0@.contains_key(key) && !self.has_key(cur.key)) {
                        assert(cur.key == key && self.buffer@ == t0.buffer@ && n
                            == cur.psl as int);
                        self.lemma_absent(key, n);
                        if t0@.contains_key(key) {
                            let m = choose|m: int| t0.contains_key_at(m, key);
                            assert(self.contains_key_at(m, key));
                        }
                    }
                    assert(!t0@.contains_key(key) && !self.has_key(cur.key));
                }
                let ghost pre = *self;
                let ghost cure = cur;
                self.buffer[index] = Some(cur);
                self.len = self.len + 1;
                proof {
                    let ii = index as int;
                    lemma_count_update(pre.buffer@, ii, Some(cure));
                    lemma_dist_add(pre.bucket_of(cure.key), cure.psl as int, ci);
                    assert forall|j: int| 0 <= j < ci implies #[trigger] self.slot_ok(j) by {
                        assert(pre.slot_ok(j));
                        if j != ii {
                            lemma_mod_range(j - 1, ci);
                            assert(pre.buffer@[j] == self.buffer@[j]);
                            if self.occ(j) && self.psl_at(j) > 0 {
                                if prev_idx(j, ci) != ii {
                                    assert(self.buffer@[prev_idx(j, ci)] == pre.buffer@[
                                        prev_idx(j, ci)]);
                                }
                            }
                        }
                    }
                    assert forall|i2: int, j2: int|
                        0 <= i2 < ci && 0 <= j2 < ci && i2 != j2 && self.occ(i2) && self.occ(
                            j2,
                        ) implies #[trigger] self.key_at(i2) != #[trigger] self.key_at(j2) by {
                        if i2 == ii {
                            assert(self.key_at(ii) == cure.key);
                            assert(self.buffer@[j2] == pre.buffer@[j2]);
                            if self.key_at(j2) == cure.key {
                                assert(pre.contains_key_at(j2, cure.key));
                                assert(false);
                            }
                        } else if j2 == ii {
                            assert(self.key_at(ii) == cure.key);
                            assert(self.buffer@[i2] == pre.buffer@[i2]);
                            if self.key_at(i2) == cure.key {
                                assert(pre.contains_key_at(i2, cure.key));
                                assert(false);
                            }
                        } else {
                            assert(self.buffer@[i2] == pre.buffer@[i2]);
                            assert(self.buffer@[j2] == pre.buffer@[j2]);
                            assert(pre.key_at(i2) != pre.key_at(j2));
                        }
                    }
                    Self::lemma_view_frame(pre, *self, ii);
                    self.lemma_slot_for_is(ii, cure.key);
                    assert forall|k: K| #[trigger] self@.contains_key(k) == pre@.insert(
                        cure.key,
                        cure.value,
                    ).contains_key(k) && (self@.contains_key(k) ==> self@[k] == pre@.insert(
                        cure.key,
                        cure.value,
                    )[k]) by {
                        if k == cure.key {
                        } else {
                            assert(!pre.contains_key_at(ii, k));
                            assert(!self.contains_key_at(ii, k));
                        }
                    }
                    assert(self@ =~= pre@.insert(cure.key, cure.value));
                }
                return ;
            }
            if key_eq {
                proof {
                    assert(self.contains_key_at(index as int, cur.key));
                    if !t0@.contains_key(key) && !self.has_key(cur.key) {
                        assert(false);
                    }
                    assert(cur.key == key && self.buffer@ == t0.buffer@);
                    assert(t0.contains_key_at(index as int, key));
                    t0.lemma_slot_for_is(index as int, key);
                }
                let ghost pre = *self;
                let ghost cure = cur;
                self.buffer[index] = Some(Elem { key: cur.key, value: cur.value, psl: rpsl });
                proof {
                    let ii = index as int;
                    lemma_count_update(pre.buffer@, ii, self.buffer@[ii]);
                    assert(self.key_at(ii) == pre.key_at(ii));
                    assert(self.psl_at(ii) == pre.psl_at(ii));
                    assert forall|j: int| 0 <= j < ci implies #[trigger] self.slot_ok(j) by {
                        assert(pre.slot_ok(j));
                        lemma_mod_range(j - 1, ci);
                        if j != ii {
                            assert(pre.buffer@[j] == self.buffer@[j]);
                        }
                        if self.occ(j) && self.psl_at(j) > 0 {
                            assert(self.occ(prev_idx(j, ci)) == pre.occ(prev_idx(j, ci)));
                            assert(self.psl_at(prev_idx(j, ci)) == pre.psl_at(prev_idx(j, ci)));
                        }
                    }
                    assert forall|i2: int, j2: int|
                        0 <= i2 < ci && 0 <= j2 < ci && i2 != j2 && self.occ(i2) && self.occ(
                            j2,
                        ) implies #[trigger] self.key_at(i2) != #[trigger] self.key_at(j2) by {
                        assert(self.key_at(i2) == pre.key_at(i2));
                        assert(self.key_at(j2) == pre.key_at(j2));
                    }
                    Self::lemma_view_frame(pre, *self, ii);
                    self.lemma_slot_for_is(ii, cure.key);
                    assert forall|k: K| #[trigger] self@.contains_key(k) == pre@.insert(
                        cure.key,
                        cure.value,
                    ).contains_key(k) && (self@.contains_key(k) ==> self@[k] == pre@.insert(
                        cure.key,
                        cure.value,
                    )[k]) by {
                        if k == cure.key {
                        } else {
                            assert(!pre.contains_key_at(ii, k));
                            assert(!self.contains_key_at(ii, k));
                        }
                    }
                    assert(self@ =~= pre@.insert(cure.key, cure.value));
                }
                return ;
            }
            proof {
                if n == e {
                    assert(self.occ(add_idx(b0, e, ci)));
                }
                assert(n < e);
            }
            if cur.psl > rpsl {
                proof {
                    assert(self.psl_at(index as int) == rpsl as int);
                    if !(!t0@.contains_key(key) && !self.has_key(cur.key)) {
                        assert(cur.key == key && n == cur.psl as int);
                        self.lemma_absent(key, n);
                        if t0@.contains_key(key) {
                            let m = choose|m: int| t0.contains_key_at(m, key);
                            assert(self.contains_key_at(m, key));
                        }
                    }
                    assert(!t0@.contains_key(key) && !self.has_key(cur.key));
                }
                let ghost pre = *self;
                let ghost cure = cur;
                let r_opt = self.buffer[index].take();
                let resident = r_opt.unwrap();
                self.buffer[index] = Some(cur);
                cur = resident;
                proof {
                    let ii = index as int;
                    assert(self.buffer@ =~= pre.buffer@.update(ii, Some(cure)));
                    lemma_count_update(pre.buffer@, ii, Some(cure));
                    lemma_dist_add(pre.bucket_of(cure.key), cure.psl as int, ci);
                    // the resident sat where its stored psl says
                    assert(pre.slot_ok(ii));
                    assert((cur.psl as int) == pre.psl_at(ii));
                    lemma_add_dist(pre.bucket_of(cur.key), ii, ci);
                    // occupancy is unchanged
                    assert forall|j: int| 0 <= j < ci implies (self.occ(j) <==> pre.occ(j)) by {
                        if j != ii {
                            assert(self.buffer@[j] == pre.buffer@[j]);
                        }
                    }
                    assert forall|j: int| 0 <= j < ci implies #[trigger] self.slot_ok(j) by {
                        assert(pre.slot_ok(j));
                        lemma_mod_range(j - 1, ci);
                        if j != ii {
                            assert(pre.buffer@[j] == self.buffer@[j]);
                            if self.occ(j) && self.psl_at(j) > 0 {
                                if prev_idx(j, ci) == ii {
                                    assert(self.psl_at(ii) == cure.psl as int);
                                    assert(pre.psl_at(ii) == rpsl as int);
                                }
                            }
                        }
                    }
                    assert forall|i2: int, j2: int|
                        0 <= i2 < ci && 0 <= j2 < ci && i2 != j2 && self.occ(i2) && self.occ(
                            j2,
                        ) implies #[trigger] self.key_at(i2) != #[trigger] self.key_at(j2) by {
                        if i2 == ii {
                            assert(self.key_at(ii) == cure.key);
                            assert(self.buffer@[j2] == pre.buffer@[j2]);
                            if self.key_at(j2) == cure.key {
                                assert(pre.contains_key_at(j2, cure.key));
                                assert(false);
                            }
                        } else if j2 == ii {
                            assert(self.key_at(ii) == cure.key);
                            assert(self.buffer@[i2] == pre.buffer@[i2]);
                            if self.key_at(i2) == cure.key {
                                assert(pre.contains_key_at(i2, cure.key));
                                assert(false);
                            }
                        } else {
                            assert(self.buffer@[i2] == pre.buffer@[i2]);
                            assert(self.buffer@[j2] == pre.buffer@[j2]);
                            assert(pre.key_at(i2) != pre.key_at(j2));
                        }
                    }
                    // the displaced key now lives nowhere in the buffer
                    assert forall|m: int| !self.contains_key_at(m, cur.key) by {
                        if self.contains_key_at(m, cur.key) {
                            assert(m != ii);
                            assert(pre.contains_key_at(m, cur.key));
                            assert(pre.contains_key_at(ii, cur.key));
                            assert(pre.key_at(m) != pre.key_at(ii));
                        }
                    }
                    assert(!self.has_key(cur.key));
                    // view shift: storing the candidate and picking up the
                    // resident trades one pending insertion for another
                    Self::lemma_view_frame(pre, *self, ii);
                    self.lemma_slot_for_is(ii, cure.key);
                    pre.lemma_slot_for_is(ii, cur.key);
                    assert forall|k: K| #[trigger] self@.insert(cur.key, cur.value).contains_key(
                        k,
                    ) == pre@.insert(cure.key, cure.value).contains_key(k) && (self@.insert(
                        cur.key,
                        cur.value,
                    ).contains_key(k) ==> self@.insert(cur.key, cur.value)[k] == pre@.insert(
                        cure.key,
                        cure.value,
                    )[k]) by {
                        if k == cure.key {
                        } else if k == cur.key {
                        } else {
                            assert(!pre.contains_key_at(ii, k));
                            assert(!self.contains_key_at(ii, k));
                        }
                    }
                    assert(self@.insert(cur.key, cur.value) =~= pre@.insert(
                        cure.key,
                        cure.value,
                    ));
                    assert forall|t: int| 0 <= t < n implies #[trigger] self.occ(
                        add_idx(b0, t, ci),
                    ) by {
                        lemma_mod_range(b0 + t, ci);
                        if add_idx(b0, t, ci) != ii {
                            assert(self.buffer@[add_idx(b0, t, ci)] == pre.buffer@[add_idx(
                                b0,
                                t,
                                ci,
                            )]);
                        }
                        assert(pre.occ(add_idx(b0, t, ci)));
                    }
                }
            } else {
                proof {
                    assert(key_eq == (self.key_at(index as int) == cur.key));
                    if cur.key == key && self.buffer@ == t0.buffer@ && n == cur.psl as int {
                        assert forall|t: int| 0 <= t < n + 1 implies #[trigger] self.key_at(
                            add_idx(b0, t, ci),
                        ) != key by {
                            lemma_mod_range(b0 + t, ci);
                            let s2 = add_idx(b0, t, ci);
                            if t == n {
                                assert(s2 == index as int);
                            } else {
                                assert(self.occ(s2));
                            }
                            if self.key_at(s2) == key {
                                assert(self.contains_key_at(s2, key));
                                if !t0@.contains_key(key) && !self.has_key(cur.key) {
                                    assert(t0.contains_key_at(s2, key));
                                    assert(t0@.contains_key(key) == t0.has_key(key));
                                    assert(false);
                                } else {
                                    assert(false);
                                }
                            }
                        }
                    }
                }
            }
            proof {
                let ii = index as int;
                let bc = self.bucket_of(cur.key);
                assert(self.occ(ii));
                assert(self.psl_at(ii) >= cur.psl as int);
                assert(ii == add_idx(bc, cur.psl as int, ci));
                crate::arith::lemma_mod_add_assoc(b0 + n, 1, ci);
                crate::arith::lemma_mod_add_assoc(bc + cur.psl as int, 1, ci);
                lemma_mod_range(b0 + n + 1, ci);
                lemma_prev_add(b0, n + 1, ci);
                assert(prev_idx(add_idx(b0, n + 1, ci), ci) == ii);
                assert forall|t: int| 0 <= t < n + 1 implies #[trigger] self.occ(
                    add_idx(b0, t, ci),
                ) by {
                    lemma_mod_range(b0 + t, ci);
                    if t == n {
                        assert(add_idx(b0, t, ci) == ii);
                    }
                }
            }
            index = (index + 1) % c;
            cur.psl = cur.psl + 1;
            proof {
                n = n + 1;
            }
        }
    }

    /// Doubles the capacity and re-inserts every entry into a fresh slot
    /// array by the same displacement walk, re-establishing the psl
    /// invariant against the new modulus.
    fn resize(&mut self)
        requires
            old(self).wf(),
            old(self).capacity <= usize::MAX / 2,
        ensures
            final(self).wf(),
            final(self)@ == old(self)@,
            final(self).len == old(self).len,
            final(self).capacity == 2 * old(self).capacity,
            final(self).hasher == old(self).hasher,
            final(self).hash_fn == old(self).hash_fn,
    {
        let ghost t0 = *self;
        let mut org: Vec<Option<Elem<K, V>>> = Vec::new();
        core::mem::swap(&mut org, &mut self.buffer);
        let newcap = self.capacity * 2;
        self.buffer = empty_slots(newcap);
        self.capacity = newcap;
        self.len = 0;
        let ghost org0 = org@;
        proof {
            assert forall|i2: int| 0 <= i2 < self.cap() implies #[trigger] self.slot_ok(i2) by {
                assert(!self.occ(i2));
            }
            assert(self@ =~= Map::<K, V>::empty());
            assert(seq_keys_unique(org0)) by {
                assert forall|i2: int, j2: int|
                    0 <= i2 < org0.len() && 0 <= j2 < org0.len() && i2 != j2 && org0[i2] is Some
                        && org0[j2] is Some implies (#[trigger] org0[i2])->0.key != (
                #[trigger] org0[j2])->0.key by {
                    assert(t0.occ(i2) && t0.occ(j2));
                    assert(t0.key_at(i2) != t0.key_at(j2));
                }
            }
            assert(org0.subrange(0, org0.len() as int) =~= org0);
        }
        while org.len() > 0
            invariant
                t0 == *old(self),
                self.wf(),
                t0.wf(),
                seq_keys_unique(org0),
                self.capacity == 2 * t0.capacity,
                t0.capacity <= usize::MAX / 2,
                self.hasher == t0.hasher,
                self.hash_fn == t0.hash_fn,
                org@ == org0.subrange(0, org@.len() as int),
                org@.len() <= org0.len(),
                org0.len() == t0.cap(),
                count_occ(org0) == t0.len,
                self@ == map_of(org0, org@.len() as int),
                self.len as int == count_occ(org0) - count_occ(
                    org0.subrange(0, org@.len() as int),
                ),
            decreases org@.len(),
        {
            let ghost norg = org@.len() as int;
            proof {
                lemma_count_bounds(org0.subrange(0, norg));
                lemma_count_bounds(org0.subrange(0, norg - 1));
                assert(org0.subrange(0, norg).drop_last() =~= org0.subrange(0, norg - 1));
                assert(org0.subrange(0, norg).last() == org0[norg - 1]);
            }
            let slot = org.pop().unwrap();
            proof {
                assert(org@ =~= org0.subrange(0, norg - 1));
                assert(slot == org0[norg - 1]);
            }
            match slot {
                Some(elem) => {
                    proof {
                        lemma_map_of_contains(org0, norg, elem.key);
                        if map_of(org0, norg).contains_key(elem.key) {
                            let m = choose|m: int|
                                norg <= m < org0.len() && (#[trigger] org0[m]) is Some
                                    && org0[m]->0.key == elem.key;
                            assert(false);
                        }
                    }
                    self.insert_elem(elem.key, elem.value);
                },
                None => {
                },
            }
        }
        proof {
            assert(org0.subrange(0, 0) =~= Seq::<Option<Elem<K, V>>>::empty());
            assert(count_occ(org0.subrange(0, 0)) == 0);
            assert forall|k: K|
                #[trigger] t0@.contains_key(k) == map_of(org0, 0).contains_key(k) && (
                t0@.contains_key(k) ==> map_of(org0, 0)[k] == t0@[k]) by {
                lemma_map_of_contains(org0, 0, k);
                if t0.has_key(k) {
                    let m = choose|m: int| t0.contains_key_at(m, k);
                    t0.lemma_slot_for_is(m, k);
                    lemma_map_of_value(org0, 0, m);
                } else {
                    if map_of(org0, 0).contains_key(k) {
                        let m = choose|m: int|
                            0 <= m < org0.len() && (#[trigger] org0[m]) is Some && org0[m]->0.key
                                == k;
                        assert(t0.contains_key_at(m, k));
                        assert(false);
                    }
                }
            }
            assert(t0@ =~= map_of(org0, 0));
        }
    }

    /// Inserts `key` with `value`: resizes first when the load factor has
    /// reached the four-fifths threshold, then places the entry by the
    /// Robin Hood walk. Afterwards a lookup of `key` yields `value`; the
    /// length grows exactly when the key was new.
    pub fn insert(&mut self, key: K, value: V)
        requires
            old(self).wf(),
            old(self).len as int >= 4 * old(self).cap() / 5 ==> old(self).capacity <= usize::MAX
                / 2,
        ensures
            final(self).wf(),
            final(self)@ == old(self)@.insert(key, value),
            old(self)@.contains_key(key) ==> final(self).len == old(self).len,
            !old(self)@.contains_key(key) ==> final(self).len == old(self).len + 1,
            final(self).capacity as int == if old(self).len as int >= 4 * old(self).cap() / 5 {
                2 * old(self).cap()
            } else {
                old(self).cap()
            },
    {
        let threshold = (self.capacity as u128) * 4 / 5;
        let do_resize = (self.len as u128) >= threshold;
        proof {
            assert(threshold as int == 4 * self.cap() / 5);
        }
        if do_resize {
            self.resize();
        } else {
            proof {
                let c5 = self.cap();
                vstd::arithmetic::div_mod::lemma_fundamental_div_mod(4 * c5, 5);
                lemma_mod_range(4 * c5, 5);
                assert(4 * c5 / 5 < c5);
            }
        }
        self.insert_elem(key, value);
    }

    /// Looks `key` up and returns a copy of its value, or nothing when the
    /// key is absent. Leaves the table unchanged.
    pub fn get(&mut self, key: K) -> (r: Option<V>) where V: Copy
        requires
            old(self).wf(),
        ensures
            *final(self) == *old(self),
            r == if old(self)@.contains_key(key) {
                Some(old(self)@[key])
            } else {
                None::<V>
            },
    {
        let index = self.find_elem(&key);
        match &self.buffer[index] {
            Some(elem) => {
                if elem.key == key {
                    proof {
                        self.lemma_slot_for_is(index as int, key);
                    }
                    Some(elem.value)
                } else {
                    proof {
                        assert(!self.has_key(key));
                        assert(!self@.contains_key(key));
                    }
                    None
                }
            },
            None => {
                proof {
                    assert(!self.has_key(key));
                    assert(!self@.contains_key(key));
                }
                None
            },
        }
    }

    /// The relation between a table and its old self once a backward
    /// shift of `r` entries from slot `i0` has finished.
    spec fn backshift_ctx(self, t0: Self, key: K, i0: int, r: int, e: int) -> bool {
        &&& t0.wf()
        &&& self.capacity == t0.capacity
        &&& self.hasher == t0.hasher
        &&& self.hash_fn == t0.hash_fn
        &&& self.buffer@.len() == self.cap()
        &&& t0.contains_key_at(i0, key)
        &&& 0 <= i0 < self.cap()
        &&& 0 <= r
        &&& r + 1 <= e
        &&& 1 <= e < self.cap()
        &&& t0.backshifted(self, i0, r)
    }

    /// After the shift every slot satisfies the psl invariant again.
    #[verifier::rlimit(100)]
    proof fn lemma_backshift_slots_ok(self, t0: Self, key: K, i0: int, r: int, e: int)
        requires
            self.backshift_ctx(t0, key, i0, r, e),
        ensures
            self.slots_ok(),
    {
        let c = self.cap();
        assert(forall|k: K| self.bucket_of(k) == t0.bucket_of(k));
        assert forall|j: int| 0 <= j < c implies #[trigger] self.slot_ok(j) by {
            let d = dist_idx(i0, j, c);
            lemma_mod_range(j - i0, c);
            lemma_add_dist(i0, j, c);
            if d == r {
                assert(!self.occ(j));
            } else if d < r {
                let src = add_idx(i0, d + 1, c);
                lemma_mod_range(i0 + d + 1, c);
                assert(self.buffer@[add_idx(i0, d, c)] == Some(
                    Elem {
                        key: t0.key_at(src),
                        value: t0.val_at(src),
                        psl: (t0.psl_at(src) - 1) as usize,
                    },
                ));
                assert(t0.slot_ok(src));
                let p = t0.psl_at(src);
                let be = t0.bucket_of(t0.key_at(src));
                assert(t0.occ(src) && p > 0);
                assert(p == dist_idx(be, src, c));
                lemma_prev_add(i0, d + 1, c);
                lemma_mod_range(src - be, c);
                lemma_add_dist(be, src, c);
                lemma_prev_add(be, p, c);
                lemma_dist_add(be, p - 1, c);
                assert(self.psl_at(j) == p - 1);
                assert(self.bucket_of(self.key_at(j)) == be);
                assert(dist_idx(be, j, c) == p - 1);
                if self.psl_at(j) > 0 {
                    lemma_mod_range(j - 1, c);
                    if d >= 1 {
                        lemma_prev_add(i0, d, c);
                        assert(t0.occ(add_idx(i0, d, c)) && t0.psl_at(add_idx(i0, d, c)) > 0);
                        assert(self.buffer@[add_idx(i0, d - 1, c)] == Some(
                            Elem {
                                key: t0.key_at(add_idx(i0, d, c)),
                                value: t0.val_at(add_idx(i0, d, c)),
                                psl: (t0.psl_at(add_idx(i0, d, c)) - 1) as usize,
                            },
                        ));
                        assert(t0.psl_at(j) >= p - 1);
                        assert(self.occ(prev_idx(j, c)));
                        assert(self.psl_at(prev_idx(j, c)) == t0.psl_at(j) - 1);
                    } else {
                        crate::arith::lemma_prev_dist(i0, c);
                        assert(dist_idx(i0, prev_idx(i0, c), c) == c - 1);
                        assert(self.buffer@[prev_idx(i0, c)] == t0.buffer@[prev_idx(i0, c)]);
                        lemma_prev_add(i0, 1, c);
                        lemma_mod_small(i0, c);
                        assert(prev_idx(src, c) == i0);
                        assert(t0.psl_at(i0) >= p - 1);
                        assert(t0.slot_ok(i0));
                        assert(t0.occ(prev_idx(i0, c)));
                        assert(t0.psl_at(prev_idx(i0, c)) >= t0.psl_at(i0) - 1);
                    }
                }
            } else {
                assert(self.buffer@[j] == t0.buffer@[j]);
                assert(t0.slot_ok(j));
                if self.occ(j) && self.psl_at(j) > 0 {
                    lemma_mod_range(j - 1, c);
                    lemma_prev_add(i0, d, c);
                    lemma_dist_add(i0, d - 1, c);
                    if d - 1 > r {
                        assert(self.buffer@[prev_idx(j, c)] == t0.buffer@[prev_idx(j, c)]);
                    } else {
                        assert(d == r + 1);
                        assert(!t0.occ(add_idx(i0, r + 1, c)) || t0.psl_at(add_idx(i0, r + 1, c))
                            == 0);
                        assert(false);
                    }
                }
            }
        }
    }

    /// Each slot still occupied drew its entry from a distinct slot of
    /// the old table, never from the cleared one.
    #[verifier::rlimit(100)]
    proof fn lemma_backshift_sources(self, t0: Self, key: K, i0: int, r: int, e: int)
        requires
            self.backshift_ctx(t0, key, i0, r, e),
        ensures
            forall|j: int| 0 <= j < self.cap() && self.occ(j) ==> {
                &&& t0.occ(#[trigger] self.src_of(i0, r, j))
                &&& 0 <= self.src_of(i0, r, j) < self.cap()
                &&& self.src_of(i0, r, j) != i0
                &&& self.key_at(j) == t0.key_at(self.src_of(i0, r, j))
                &&& self.val_at(j) == t0.val_at(self.src_of(i0, r, j))
                &&& dist_idx(i0, self.src_of(i0, r, j), self.cap()) == (if dist_idx(i0, j, self.cap()) < r {
                    dist_idx(i0, j, self.cap()) + 1
                } else {
                    dist_idx(i0, j, self.cap())
                })
            },
    {
        let c = self.cap();
        // every occupied slot's entry comes from a distinct source slot of
        // the old table, and never from the removed one
        assert forall|j: int| 0 <= j < c && self.occ(j) implies {
            &&& t0.occ(self.src_of(i0, r, j))
            &&& 0 <= self.src_of(i0, r, j) < c
            &&& self.src_of(i0, r, j) != i0
            &&& self.key_at(j) == t0.key_at(self.src_of(i0, r, j))
            &&& self.val_at(j) == t0.val_at(self.src_of(i0, r, j))
            &&& dist_idx(i0, self.src_of(i0, r, j), c) == (if dist_idx(i0, j, c) < r {
                dist_idx(i0, j, c) + 1
            } else {
                dist_idx(i0, j, c)
            })
        } by {
            let d = dist_idx(i0, j, c);
            lemma_mod_range(j - i0, c);
            lemma_add_dist(i0, j, c);
            assert(d != r);
            if d < r {
                lemma_mod_range(i0 + d + 1, c);
                lemma_dist_add(i0, d + 1, c);
                assert(self.buffer@[add_idx(i0, d, c)] == Some(
                    Elem {
                        key: t0.key_at(add_idx(i0, d + 1, c)),
                        value: t0.val_at(add_idx(i0, d + 1, c)),
                        psl: (t0.psl_at(add_idx(i0, d + 1, c)) - 1) as usize,
                    },
                ));
                lemma_dist_add(i0, 0, c);
            } else {
                assert(self.buffer@[j] == t0.buffer@[j]);
                lemma_dist_add(i0, 0, c);
                if j == i0 {
                    assert(d == 0);
                    assert(false);
                }
            }
        }
    }

    /// A finished backward shift leaves a well-formed table whose map is
    /// the old one without the removed key.
    #[verifier::rlimit(50)]
    proof fn lemma_after_backshift(self, t0: Self, key: K, i0: int, r: int, e: int)
        requires
            self.backshift_ctx(t0, key, i0, r, e),
            self.len as int == t0.len - 1,
            self.len as int == count_occ(self.buffer@),
            t0.slot_for(key) == i0,
        ensures
            self.wf(),
            self@ == t0@.remove(key),
            forall|i: int| 0 <= i < self.cap() && self.occ(i) ==> self.key_at(i) != key,
    {
        let c = self.cap();
        assert(forall|k: K| self.bucket_of(k) == t0.bucket_of(k));
        self.lemma_backshift_slots_ok(t0, key, i0, r, e);
        self.lemma_backshift_sources(t0, key, i0, r, e);
        assert forall|i2: int, j2: int|
            0 <= i2 < c && 0 <= j2 < c && i2 != j2 && self.occ(i2) && self.occ(j2) implies #[
        trigger] self.key_at(i2) != #[trigger] self.key_at(j2) by {
            let s1 = self.src_of(i0, r, i2);
            let s2 = self.src_of(i0, r, j2);
            lemma_mod_range(i2 - i0, c);
            lemma_mod_range(j2 - i0, c);
            lemma_add_dist(i0, i2, c);
            lemma_add_dist(i0, j2, c);
            if s1 == s2 {
                assert(dist_idx(i0, s1, c) == dist_idx(i0, s2, c));
                assert(dist_idx(i0, i2, c) == dist_idx(i0, j2, c));
                assert(false);
            }
            assert(t0.key_at(s1) != t0.key_at(s2));
        }
        assert forall|j: int| 0 <= j < c && self.occ(j) implies self.key_at(j) != key by {
            let s = self.src_of(i0, r, j);
            if self.key_at(j) == key {
                assert(t0.key_at(s) == key);
                assert(t0.key_at(s) != t0.key_at(i0));
            }
        }
        // the map lost exactly the removed key
        assert forall|k: K|
            #[trigger] self@.contains_key(k) == t0@.remove(key).contains_key(k) && (
            self@.contains_key(k) ==> self@[k] == t0@.remove(key)[k]) by {
            if self.has_key(k) {
                let m = choose|m: int| self.contains_key_at(m, k);
                let s = self.src_of(i0, r, m);
                assert(t0.contains_key_at(s, k));
                assert(k != key) by {
                    if k == key {
                        assert(t0.key_at(s) != t0.key_at(i0));
                    }
                }
                self.lemma_slot_for_is(m, k);
                t0.lemma_slot_for_is(s, k);
                assert(self@[k] == self.val_at(m));
                assert(t0@[k] == t0.val_at(s));
            } else {
                if t0@.remove(key).contains_key(k) {
                    assert(k != key && t0.has_key(k));
                    let m = choose|m: int| t0.contains_key_at(m, k);
                    assert(m != i0) by {
                        if m == i0 {
                            assert(t0.key_at(i0) == key);
                        }
                    }
                    let dm = dist_idx(i0, m, c);
                    lemma_mod_range(m - i0, c);
                    lemma_add_dist(i0, m, c);
                    assert(dm >= 1) by {
                        lemma_mod_small(i0, c);
                        if dm == 0 {
                            assert(m == add_idx(i0, 0, c));
                            assert(m == i0);
                        }
                    }
                    if dm <= r {
                        lemma_mod_range(i0 + dm - 1, c);
                        assert(self.buffer@[add_idx(i0, dm - 1, c)] == Some(
                            Elem {
                                key: t0.key_at(add_idx(i0, dm, c)),
                                value: t0.val_at(add_idx(i0, dm, c)),
                                psl: (t0.psl_at(add_idx(i0, dm, c)) - 1) as usize,
                            },
                        ));
                        assert(self.contains_key_at(add_idx(i0, dm - 1, c), k));
                        assert(false);
                    } else {
                        assert(self.buffer@[m] == t0.buffer@[m]);
                        assert(self.contains_key_at(m, k));
                        assert(false);
                    }
                }
            }
        }
        assert(self@ =~= t0@.remove(key));
    }

    /// The slot of the old table whose entry slot `j` now holds after a
    /// backward shift of `r` entries starting at `i0`.
    pub open spec fn src_of(self, i0: int, r: int, j: int) -> int {
        if dist_idx(i0, j, self.cap()) < r {
            add_idx(i0, dist_idx(i0, j, self.cap()) + 1, self.cap())
        } else {
            j
        }
    }

    /// Removes `key`: locates it as a lookup does, clears its slot, and
    /// backward-shifts the displaced entries that follow so that no
    /// tombstone is left. Absent keys are a silent no-op.
    pub fn remove(&mut self, key: K)
        requires
            old(self).wf(),
        ensures
            final(self).wf(),
            final(self)@ == old(self)@.remove(key),
            old(self)@.contains_key(key) ==> final(self).len == old(self).len - 1,
            !old(self)@.contains_key(key) ==> *final(self) == *old(self),
            final(self).capacity == old(self).capacity,
            forall|i: int|
                0 <= i < final(self).cap() && final(self).occ(i) ==> final(self).key_at(i)
                    != key,
            old(self)@.contains_key(key) ==> exists|r: int|
                old(self).backshifted(*final(self), old(self).slot_for(key), r),
    {
        let ghost t0 = *self;
        let c = self.capacity;
        let ghost ci = self.cap();
        let index0 = self.find_elem(&key);
        let is_match: bool = match &self.buffer[index0] {
            Some(elem) => elem.key == key,
            None => false,
        };
        if !is_match {
            proof {
                if self.has_key(key) {
                    assert(self.contains_key_at(index0 as int, key));
                    assert(false);
                }
                assert(!self@.contains_key(key));
                assert(self@ =~= t0@.remove(key));
                assert forall|i: int| 0 <= i < self.cap() && self.occ(i) implies self.key_at(i)
                    != key by {
                    if self.key_at(i) == key {
                        assert(self.contains_key_at(i, key));
                    }
                }
            }
            return ;
        }
        let ghost i0 = index0 as int;
        proof {
            self.lemma_slot_for_is(i0, key);
            lemma_count_update(t0.buffer@, i0, None);
            lemma_count_bounds(t0.buffer@.update(i0, None));
            lemma_mod_small(i0, ci);
        }
        let mut index = index0;
        self.buffer[index] = None;
        self.len = self.len - 1;
        let ghost mut r: int = 0;
        let ghost e = {
            lemma_exists_empty(t0.buffer@);
            let j0 = choose|j: int|
                0 <= j < t0.buffer@.len() && !(#[trigger] t0.buffer@[j] is Some);
            lemma_add_dist(i0, j0, ci);
            lemma_mod_range(j0 - i0, ci);
            dist_idx(i0, j0, ci)
        };
        proof {
            if e == 0 {
                assert(add_idx(i0, 0, ci) == i0);
            }
            assert forall|j: int| 0 <= j < ci && dist_idx(i0, j, ci) > 0 implies self.buffer@[j]
                == t0.buffer@[j] by {
                if j == i0 {
                    lemma_dist_add(i0, 0, ci);
                }
            }
        }
        loop
            invariant
                t0 == *old(self),
                t0.wf(),
                c == self.capacity,
                ci == self.cap(),
                self.capacity == t0.capacity,
                self.hasher == t0.hasher,
                self.hash_fn == t0.hash_fn,
                self.buffer@.len() == ci,
                self.len as int == t0.len - 1,
                self.len as int == count_occ(self.buffer@),
                t0.contains_key_at(i0, key),
                t0.slot_for(key) == i0,
                0 <= i0 < ci,
                0 <= r,
                r + 1 <= e,
                1 <= e < ci,
                !t0.occ(add_idx(i0, e, ci)),
                index < c,
                index as int == add_idx(i0, r, ci),
                !self.occ(add_idx(i0, r, ci)),
                forall|t: int|
                    1 <= t <= r ==> t0.occ(#[trigger] add_idx(i0, t, ci)) && t0.psl_at(
                        add_idx(i0, t, ci),
                    ) > 0,
                forall|t: int|
                    1 <= t <= r ==> self.buffer@[add_idx(i0, t - 1, ci)] == Some(
                        Elem {
                            key: t0.key_at(#[trigger] add_idx(i0, t, ci)),
                            value: t0.val_at(add_idx(i0, t, ci)),
                            psl: (t0.psl_at(add_idx(i0, t, ci)) - 1) as usize,
                        },
                    ),
                forall|j: int|
                    0 <= j < ci && dist_idx(i0, j, ci) > r ==> self.buffer@[j] == t0.buffer@[j],
            ensures
                t0 == *old(self),
                t0.wf(),
                c == self.capacity,
                ci == self.cap(),
                self.capacity == t0.capacity,
                self.hasher == t0.hasher,
                self.hash_fn == t0.hash_fn,
                self.buffer@.len() == ci,
                self.len as int == t0.len - 1,
                self.len as int == count_occ(self.buffer@),
                t0.contains_key_at(i0, key),
                t0.slot_for(key) == i0,
                0 <= r,
                r + 1 <= e,
                1 <= e < ci,
                t0.backshifted(*self, i0, r),
            decreases e - r,
        {
            let next = if index + 1 == c {
                0
            } else {
                index + 1
            };
            proof {
                crate::arith::lemma_mod_add_assoc(i0 + r, 1, ci);
                if index + 1 == c {
                    vstd::arithmetic::div_mod::lemma_mod_self_0(ci);
                    assert(next as int == add_idx(i0, r + 1, ci));
                } else {
                    lemma_mod_small(index as int + 1, ci);
                    assert(next as int == add_idx(i0, r + 1, ci));
                }
                lemma_dist_add(i0, r + 1, ci);
                assert(self.buffer@[next as int] == t0.buffer@[next as int]);
            }
            let (stop, npsl): (bool, usize) = match &self.buffer[next] {
                None => (true, 0),
                Some(elem) => (elem.psl == 0, elem.psl),
            };
            if stop {
                proof {
                    assert(t0.backshifted(*self, i0, r));
                }
                break ;
            }
            proof {
                assert(self.occ(next as int) && self.psl_at(next as int) == npsl as int);
                assert(t0.occ(next as int) && t0.psl_at(next as int) == npsl as int);
                if r + 1 == e {
                    assert(false);
                }
            }
            let ghost pre = *self;
            let entry_opt = self.buffer[next].take();
            let entry = entry_opt.unwrap();
            self.buffer[index] = Some(
                Elem { key: entry.key, value: entry.value, psl: entry.psl - 1 },
            );
            proof {
                let ni = next as int;
                let ii = index as int;
                assert(ni != ii) by {
                    lemma_dist_add(i0, r, ci);
                }
                assert(self.buffer@ =~= pre.buffer@.update(ni, None).update(ii, Some(
                    Elem { key: entry.key, value: entry.value, psl: (entry.psl - 1) as usize },
                )));
                lemma_count_update(pre.buffer@, ni, None);
                lemma_count_update(pre.buffer@.update(ni, None), ii, self.buffer@[ii]);
                r = r + 1;
                assert(!self.occ(add_idx(i0, r, ci)));
                assert forall|t: int|
                    1 <= t <= r implies self.buffer@[add_idx(i0, t - 1, ci)] == Some(
                        Elem {
                            key: t0.key_at(#[trigger] add_idx(i0, t, ci)),
                            value: t0.val_at(add_idx(i0, t, ci)),
                            psl: (t0.psl_at(add_idx(i0, t, ci)) - 1) as usize,
                        },
                    ) by {
                    lemma_mod_range(i0 + t, ci);
                    lemma_mod_range(i0 + t - 1, ci);
                    if t == r {
                        assert(add_idx(i0, t - 1, ci) == ii);
                        assert(add_idx(i0, t, ci) == ni);
                    } else {
                        lemma_dist_add(i0, t - 1, ci);
                        assert(add_idx(i0, t - 1, ci) != ni);
                        assert(add_idx(i0, t - 1, ci) != ii) by {
                            lemma_dist_add(i0, r - 1, ci);
                        }
                        assert(self.buffer@[add_idx(i0, t - 1, ci)] == pre.buffer@[add_idx(
                            i0,
                            t - 1,
                            ci,
                        )]);
                    }
                }
                assert forall|j: int|
                    0 <= j < ci && dist_idx(i0, j, ci) > r implies self.buffer@[j]
                        == t0.buffer@[j] by {
                    lemma_add_dist(i0, j, ci);
                    if j == ni {
                        lemma_dist_add(i0, r, ci);
                        assert(false);
                    }
                    if j == ii {
                        lemma_dist_add(i0, r - 1, ci);
                        assert(false);
                    }
                    assert(self.buffer@[j] == pre.buffer@[j]);
                }
            }
            index = next;
        }
        proof {
            self.lemma_after_backshift(t0, key, i0, r, e);
            assert(t0.backshifted(*self, t0.slot_for(key), r));
        }
    }
}

} // verus!
