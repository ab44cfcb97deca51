//! The bounded index assignment table (an index hash table, or IHT).
//!
//! The table maps coordinate vectors to dense indices in first-seen order:
//! the first distinct vector gets index 0, the next 1, and so on. Once
//! `size` distinct vectors are stored the table never grows again; further
//! unknown vectors fall back to the content hash, which may collide but is
//! a pure function of the vector, so a given vector always collides onto
//! the same index.
//!
//! The specification model is a sequence of stored keys (as integer
//! sequences): a key's index is its position, so first-seen order and
//! index stability are built into the model itself.

use vstd::prelude::*;
use vstd::arithmetic::div_mod::lemma_mod_bound;
use crate::hash::{base_hash, hash_seq, lemma_hash_seq_bound, lemma_to_int_seq_injective,
    to_int_seq};

verus! {

/// Position of the first occurrence of `k` among the stored keys, or -1.
pub open spec fn find_key(s: Seq<Seq<int>>, k: Seq<int>) -> int
    decreases s.len(),
{
    if s.len() == 0 {
        -1
    } else if s[0] == k {
        0
    } else {
        let r = find_key(s.skip(1), k);
        if r < 0 {
            -1
        } else {
            r + 1
        }
    }
}

/// No two stored keys are equal.
pub open spec fn distinct_seq(s: Seq<Seq<int>>) -> bool {
    forall|i: int, j: int| 0 <= i < j < s.len() ==> s[i] != s[j]
}

/// What a table's stored keys always satisfy.
pub open spec fn table_wf(s: Seq<Seq<int>>, size: int) -> bool {
    &&& 1 <= size
    &&& s.len() <= size
    &&& distinct_seq(s)
}

/// The stored keys after one inserting lookup of `k`.
pub open spec fn tbl_step(s: Seq<Seq<int>>, size: int, k: Seq<int>) -> Seq<Seq<int>> {
    if find_key(s, k) >= 0 || s.len() >= size {
        s
    } else {
        s.push(k)
    }
}

/// The index one inserting lookup of `k` returns: the stored position if
/// present, the next dense index if there is room, else the content hash
/// reduced into `[0, size)`.
pub open spec fn tbl_assign(s: Seq<Seq<int>>, size: int, k: Seq<int>) -> int {
    if find_key(s, k) >= 0 {
        find_key(s, k)
    } else if s.len() < size {
        s.len() as int
    } else {
        hash_seq(k) % size
    }
}

/// A counter increment that cannot pass the machine word's ceiling.
pub open spec fn bump(o: int) -> int {
    if o < usize::MAX {
        o + 1
    } else {
        o
    }
}

/// The overflow counter after one inserting lookup of `k`: it grows exactly
/// when the lookup was served by the collision fallback.
pub open spec fn tbl_overfull_step(s: Seq<Seq<int>>, size: int, k: Seq<int>, o: int) -> int {
    if find_key(s, k) < 0 && s.len() >= size {
        bump(o)
    } else {
        o
    }
}

/// `find_key` stays in range, lands on `k` when non-negative, and is -1
/// exactly when `k` is absent.
pub proof fn lemma_find_key_props(s: Seq<Seq<int>>, k: Seq<int>)
    ensures
        -1 <= find_key(s, k) < s.len(),
        find_key(s, k) >= 0 ==> s[find_key(s, k)] == k,
        find_key(s, k) == -1 ==> forall|i: int| 0 <= i < s.len() ==> s[i] != k,
    decreases s.len(),
{
    if s.len() == 0 {
    } else if s[0] == k {
    } else {
        lemma_find_key_props(s.skip(1), k);
        assert forall|i: int| find_key(s, k) == -1 && 0 <= i < s.len() implies s[i] != k by {
            if i > 0 {
                assert(s.skip(1)[i - 1] != k);
            }
        }
    }
}

/// A key first occurring at position `i` is found there.
pub proof fn lemma_find_key_first(s: Seq<Seq<int>>, k: Seq<int>, i: int)
    requires
        0 <= i < s.len(),
        s[i] == k,
        forall|j: int| 0 <= j < i ==> s[j] != k,
    ensures
        find_key(s, k) == i,
    decreases i,
{
    if i == 0 {
    } else {
        assert(s[0] != k);
        assert(s.skip(1)[i - 1] == k);
        assert forall|j: int| 0 <= j < i - 1 implies s.skip(1)[j] != k by {
            assert(s[j + 1] != k);
        }
        lemma_find_key_first(s.skip(1), k, i - 1);
    }
}

/// A key equal to no stored key is not found.
pub proof fn lemma_find_key_absent(s: Seq<Seq<int>>, k: Seq<int>)
    requires
        forall|i: int| 0 <= i < s.len() ==> s[i] != k,
    ensures
        find_key(s, k) == -1,
{
    lemma_find_key_props(s, k);
    if find_key(s, k) >= 0 {
        assert(s[find_key(s, k)] != k);
    }
}

/// How appending a key moves `find_key`: an already-found key keeps its
/// position, the appended key is found at the end, everything else stays
/// absent.
pub proof fn lemma_find_key_push(s: Seq<Seq<int>>, k2: Seq<int>, k: Seq<int>)
    ensures
        find_key(s.push(k2), k) == if find_key(s, k) >= 0 {
            find_key(s, k)
        } else if k == k2 {
            s.len() as int
        } else {
            -1
        },
    decreases s.len(),
{
    if s.len() == 0 {
        assert(s.push(k2).len() == 1);
        assert(s.push(k2)[0] == k2);
        assert(s.push(k2).skip(1) =~= Seq::<Seq<int>>::empty());
        if k == k2 {
            assert(find_key(s.push(k2), k) == 0);
        } else {
            assert(find_key(s.push(k2).skip(1), k) == -1);
            assert(find_key(s.push(k2), k) == -1);
        }
    } else {
        assert(s.push(k2)[0] == s[0]);
        assert(s.push(k2).skip(1) =~= s.skip(1).push(k2));
        lemma_find_key_push(s.skip(1), k2, k);
        if s[0] == k {
            assert(find_key(s.push(k2), k) == 0);
            assert(find_key(s, k) == 0);
        } else {
            let r = find_key(s.skip(1), k);
            let rp = find_key(s.push(k2).skip(1), k);
            assert(rp == find_key(s.skip(1).push(k2), k));
            assert(find_key(s, k) == if r < 0 { -1 } else { r + 1 });
            assert(find_key(s.push(k2), k) == if rp < 0 { -1 } else { rp + 1 });
            assert(s.skip(1).len() == s.len() - 1);
        }
    }
}

/// Range bound: whatever the table holds, an inserting lookup's index lies
/// in `[0, size)`.
pub proof fn lemma_assign_in_range(s: Seq<Seq<int>>, size: int, k: Seq<int>)
    requires
        table_wf(s, size),
    ensures
        0 <= tbl_assign(s, size, k) < size,
{
    lemma_find_key_props(s, k);
    if find_key(s, k) < 0 && s.len() >= size {
        lemma_hash_seq_bound(k);
        lemma_mod_bound(hash_seq(k), size);
    }
}

/// Determinism: looking the same vector up again, with the table otherwise
/// untouched, returns the same index and leaves the stored keys unchanged.
pub proof fn lemma_lookup_deterministic(s: Seq<Seq<int>>, size: int, k: Seq<int>)
    ensures
        tbl_assign(tbl_step(s, size, k), size, k) == tbl_assign(s, size, k),
        tbl_step(tbl_step(s, size, k), size, k) == tbl_step(s, size, k),
{
    lemma_find_key_props(s, k);
    if find_key(s, k) < 0 && s.len() < size {
        lemma_find_key_push(s, k, k);
    }
}

/// Stability: once a vector holds a dedicated index, no later inserting
/// lookup of any vector moves it.
pub proof fn lemma_index_stable(s: Seq<Seq<int>>, size: int, k: Seq<int>, k2: Seq<int>)
    requires
        find_key(s, k) >= 0,
    ensures
        find_key(tbl_step(s, size, k2), k) == find_key(s, k),
{
    if find_key(s, k2) < 0 && s.len() < size {
        lemma_find_key_push(s, k2, k);
    }
}

/// Read-only non-mutation: the read-only lookup borrows the table shared,
/// so the stored keys and the occupancy cannot change; after a read-only
/// miss on a table with room, an inserting lookup of the same vector still
/// assigns the next dense index, exactly as if the read had never happened.
pub proof fn lemma_read_only_harmless(s: Seq<Seq<int>>, size: int, k: Seq<int>)
    requires
        find_key(s, k) == -1,
        s.len() < size,
    ensures
        tbl_assign(s, size, k) == s.len(),
        tbl_step(s, size, k) == s.push(k),
{
}

/// The stored keys after presenting each vector of `ks` in turn.
pub open spec fn tbl_run(s: Seq<Seq<int>>, size: int, ks: Seq<Seq<int>>) -> Seq<Seq<int>>
    decreases ks.len(),
{
    if ks.len() == 0 {
        s
    } else {
        tbl_step(tbl_run(s, size, ks.drop_last()), size, ks.last())
    }
}

/// The overflow counter after presenting each vector of `ks` in turn.
pub open spec fn tbl_run_overfull(s0: Seq<Seq<int>>, o0: int, size: int, ks: Seq<Seq<int>>) -> int
    decreases ks.len(),
{
    if ks.len() == 0 {
        o0
    } else {
        tbl_overfull_step(
            tbl_run(s0, size, ks.drop_last()),
            size,
            ks.last(),
            tbl_run_overfull(s0, o0, size, ks.drop_last()),
        )
    }
}

/// Density before overflow: presenting up to `size` distinct vectors to a
/// fresh table stores exactly those vectors in presentation order, the
/// i-th receiving the dense index i.
pub proof fn lemma_density(size: int, ks: Seq<Seq<int>>)
    requires
        1 <= size,
        ks.len() <= size,
        distinct_seq(ks),
    ensures
        tbl_run(Seq::empty(), size, ks) == ks,
        forall|i: int| 0 <= i < ks.len() ==> #[trigger] tbl_assign(
            tbl_run(Seq::empty(), size, ks.take(i)),
            size,
            ks[i],
        ) == i,
    decreases ks.len(),
{
    if ks.len() == 0 {
        assert(tbl_run(Seq::empty(), size, ks) =~= ks);
    } else {
        let prefix = ks.drop_last();
        let last = ks.last();
        assert(distinct_seq(prefix)) by {
            assert forall|i: int, j: int| 0 <= i < j < prefix.len() implies prefix[i]
                != prefix[j] by {
                assert(ks[i] != ks[j]);
            }
        }
        lemma_density(size, prefix);
        assert(tbl_run(Seq::empty(), size, prefix) == prefix);
        assert forall|i: int| 0 <= i < prefix.len() implies prefix[i] != last by {
            assert(ks[i] != ks[prefix.len() as int]);
        }
        lemma_find_key_absent(prefix, last);
        assert(tbl_run(Seq::empty(), size, ks) == prefix.push(last));
        assert(prefix.push(last) =~= ks);
        assert forall|i: int| 0 <= i < ks.len() implies #[trigger] tbl_assign(
            tbl_run(Seq::empty(), size, ks.take(i)),
            size,
            ks[i],
        ) == i by {
            if i < prefix.len() {
                assert(ks.take(i) =~= prefix.take(i));
                assert(tbl_assign(tbl_run(Seq::empty(), size, prefix.take(i)), size, prefix[i])
                    == i);
            } else {
                assert(ks.take(i) =~= prefix);
                assert(tbl_assign(tbl_run(Seq::empty(), size, prefix), size, last)
                    == prefix.len());
            }
        }
    }
}

/// The bounded index assignment table. Vectors are stored in first-seen
/// order; a stored vector's index is its position.
pub struct IHT {
    size: usize,
    overfull_count: usize,
    keys: Vec<Vec<isize>>,
}

impl IHT {
    /// The stored keys, in first-seen order, as integer sequences.
    pub closed spec fn key_seq(self) -> Seq<Seq<int>> {
        self.keys@.map_values(|k: Vec<isize>| to_int_seq(k@))
    }

    /// The fixed capacity.
    pub closed spec fn size_spec(self) -> int {
        self.size as int
    }

    /// How many distinct vectors hold a dedicated index.
    pub open spec fn count_spec(self) -> int {
        self.key_seq().len() as int
    }

    /// How many lookups the collision fallback has served.
    pub closed spec fn overfull_spec(self) -> int {
        self.overfull_count as int
    }

    #[verifier::type_invariant]
    spec fn inv(self) -> bool {
        table_wf(self.key_seq(), self.size_spec())
    }

    /// Creates an empty table of the given capacity. Lookups will never
    /// report an index at or above `size`.
    pub fn new(size: usize) -> (r: IHT)
        requires
            1 <= size,
        ensures
            r.size_spec() == size,
            r.key_seq() == Seq::<Seq<int>>::empty(),
            r.overfull_spec() == 0,
    {
        IHT { size, overfull_count: 0, keys: Vec::with_capacity(size) }
    }

    /// The inserting lookup: returns the stored index of `obj`, or stores
    /// it under the next dense index, or — when the table is already full —
    /// hashes it into `[0, size)` and counts the overflow.
    pub fn get_index(&mut self, obj: Vec<isize>) -> (r: usize)
        ensures
            r == tbl_assign(old(self).key_seq(), old(self).size_spec(), to_int_seq(obj@)),
            final(self).key_seq() == tbl_step(
                old(self).key_seq(),
                old(self).size_spec(),
                to_int_seq(obj@),
            ),
            final(self).size_spec() == old(self).size_spec(),
            final(self).overfull_spec() == tbl_overfull_step(
                old(self).key_seq(),
                old(self).size_spec(),
                to_int_seq(obj@),
                old(self).overfull_spec(),
            ),
            0 <= r < old(self).size_spec(),
    {
        proof {
            use_type_invariant(&*self);
        }
        let ghost s0 = self.key_seq();
        let ghost km = to_int_seq(obj@);
        let count = self.keys.len();
        let mut i: usize = 0;
        while i < count
            invariant
                *self == *old(self),
                count == self.keys@.len(),
                i <= count,
                s0 == self.key_seq(),
                km == to_int_seq(obj@),
                forall|j: int| 0 <= j < i ==> s0[j] != km,
            decreases count - i,
        {
            if self.keys[i] == obj {
                proof {
                    use_type_invariant(&*self);
                    assert(self.keys@[i as int]@ =~= obj@);
                    assert(s0[i as int] == km);
                    lemma_find_key_first(s0, km, i as int);
                }
                return i;
            }
            proof {
                if s0[i as int] == km {
                    lemma_to_int_seq_injective(self.keys@[i as int]@, obj@);
                    assert(false);
                }
            }
            i = i + 1;
        }
        proof {
            lemma_find_key_absent(s0, km);
        }
        if count < self.size {
            let mut keys: Vec<Vec<isize>> = Vec::new();
            std::mem::swap(&mut keys, &mut self.keys);
            keys.push(obj);
            proof {
                assert(keys@.map_values(|k: Vec<isize>| to_int_seq(k@)) =~= s0.push(km));
                assert forall|a: int, b: int|
                    0 <= a < b < s0.push(km).len() implies s0.push(km)[a] != s0.push(km)[b] by {
                    if b < s0.len() {
                        assert(s0[a] != s0[b]);
                    } else {
                        assert(s0[a] != km);
                    }
                }
            }
            self.keys = keys;
            count
        } else {
            if self.overfull_count < usize::MAX {
                self.overfull_count = self.overfull_count + 1;
            }
            let h = base_hash(&obj);
            proof {
                lemma_hash_seq_bound(km);
                lemma_mod_bound(hash_seq(km), self.size as int);
            }
            h % self.size
        }
    }

    /// The read-only lookup: reports the stored index of `obj`, or `None`
    /// when the vector is unknown — whether or not the table is full. It
    /// takes the table by shared reference, so it can never change the
    /// stored keys, the occupancy, or the overflow counter.
    pub fn get_index_read_only(&self, obj: Vec<isize>) -> (r: Option<usize>)
        ensures
            r == if find_key(self.key_seq(), to_int_seq(obj@)) >= 0 {
                Some(find_key(self.key_seq(), to_int_seq(obj@)) as usize)
            } else {
                None::<usize>
            },
    {
        proof {
            use_type_invariant(&*self);
        }
        let ghost s0 = self.key_seq();
        let ghost km = to_int_seq(obj@);
        let count = self.keys.len();
        let mut i: usize = 0;
        while i < count
            invariant
                count == self.keys@.len(),
                i <= count,
                s0 == self.key_seq(),
                km == to_int_seq(obj@),
                forall|j: int| 0 <= j < i ==> s0[j] != km,
            decreases count - i,
        {
            if self.keys[i] == obj {
                proof {
                    assert(self.keys@[i as int]@ =~= obj@);
                    assert(s0[i as int] == km);
                    lemma_find_key_first(s0, km, i as int);
                }
                return Some(i);
            }
            proof {
                if s0[i as int] == km {
                    lemma_to_int_seq_injective(self.keys@[i as int]@, obj@);
                    assert(false);
                }
            }
            i = i + 1;
        }
        proof {
            lemma_find_key_absent(s0, km);
        }
        None
    }

    /// Whether the table is full: further unknown vectors will collide
    /// rather than receive new indices.
    pub fn full(&self) -> (r: bool)
        ensures
            r == (self.count_spec() >= self.size_spec()),
    {
        self.keys.len() >= self.size
    }

    /// How many distinct vectors hold a dedicated index; at most `size`.
    pub fn count(&self) -> (r: usize)
        ensures
            r == self.count_spec(),
    {
        self.keys.len()
    }

    /// The fixed capacity the table was created with.
    pub fn size(&self) -> (r: usize)
        ensures
            r == self.size_spec(),
    {
        self.size
    }

    /// How many lookups the collision fallback has served so far. Overflow
    /// is degraded quality, never an error; this counter is how it shows.
    pub fn overfull_count(&self) -> (r: usize)
        ensures
            r == self.overfull_spec(),
    {
        self.overfull_count
    }
}

} // verus!
