//! Deterministic content hash of coordinate vectors.
//!
//! Both the unbounded tile coders and the collision fallback of the bounded
//! table reduce a coordinate vector to an integer with this hash. It is a
//! pure function of the vector's elements (value and order): it depends on
//! no per-process seed, so equal vectors hash alike in every run.

use vstd::prelude::*;
use vstd::arithmetic::div_mod::lemma_mod_bound;

verus! {

/// Modulus of the content hash; a Mersenne prime, so residues spread well.
pub const HASH_MOD: u64 = 0x7FFF_FFFF;

/// Multiplier folding each further coordinate into the running digest.
pub const HASH_MULT: u64 = 1_000_003;

/// A coordinate vector read as a sequence of mathematical integers.
pub open spec fn to_int_seq(v: Seq<isize>) -> Seq<int> {
    v.map_values(|x: isize| x as int)
}

/// Reading vectors as integer sequences loses nothing: equal images come
/// only from equal vectors.
pub proof fn lemma_to_int_seq_injective(a: Seq<isize>, b: Seq<isize>)
    ensures
        to_int_seq(a) == to_int_seq(b) ==> a == b,
{
    if to_int_seq(a) == to_int_seq(b) {
        assert(to_int_seq(a).len() == a.len());
        assert(to_int_seq(b).len() == b.len());
        assert forall|i: int| 0 <= i < a.len() implies a[i] == b[i] by {
            assert(to_int_seq(a)[i] == a[i] as int);
            assert(to_int_seq(b)[i] == b[i] as int);
        }
        assert(a =~= b);
    }
}

/// The non-negative residue one coordinate contributes to the digest.
pub open spec fn elem_unit(c: int) -> int {
    (c - isize::MIN) % (HASH_MOD as int)
}

/// One folding step of the content hash.
pub open spec fn hash_fold(h: int, c: int) -> int {
    (h * (HASH_MULT as int) + elem_unit(c)) % (HASH_MOD as int)
}

/// Content hash of a coordinate vector, folded left to right.
pub open spec fn hash_seq(v: Seq<int>) -> int
    decreases v.len(),
{
    if v.len() == 0 {
        0
    } else {
        hash_fold(hash_seq(v.drop_last()), v.last())
    }
}

/// The digest always lies below the modulus.
pub proof fn lemma_hash_seq_bound(v: Seq<int>)
    ensures
        0 <= hash_seq(v) < HASH_MOD,
    decreases v.len(),
{
    if v.len() == 0 {
    } else {
        lemma_hash_seq_bound(v.drop_last());
        lemma_mod_bound(
            hash_seq(v.drop_last()) * (HASH_MULT as int) + elem_unit(v.last()),
            HASH_MOD as int,
        );
    }
}

/// Hashes a coordinate vector into a machine word. Used by the collision
/// fallback of the bounded table and by the unbounded tile coders.
pub fn base_hash(obj: &Vec<isize>) -> (r: usize)
    ensures
        r == hash_seq(to_int_seq(obj@)),
        r < HASH_MOD,
{
    let ghost s = to_int_seq(obj@);
    let mut h: u64 = 0;
    let mut i: usize = 0;
    while i < obj.len()
        invariant
            i <= obj.len(),
            s == to_int_seq(obj@),
            h == hash_seq(s.take(i as int)),
            h < HASH_MOD,
        decreases obj.len() - i,
    {
        let c: isize = obj[i];
        let shifted: i128 = c as i128 - isize::MIN as i128;
        let unit: u64 = (shifted % (HASH_MOD as i128)) as u64;
        proof {
            lemma_mod_bound(shifted as int, HASH_MOD as int);
            assert(unit == elem_unit(c as int));
        }
        h = (h * HASH_MULT + unit) % HASH_MOD;
        proof {
            lemma_mod_bound(
                hash_seq(s.take(i as int)) * (HASH_MULT as int) + elem_unit(c as int),
                HASH_MOD as int,
            );
            assert(s.take(i + 1).drop_last() =~= s.take(i as int));
            assert(s.take(i + 1).last() == s[i as int]);
            assert(h == hash_seq(s.take(i + 1)));
        }
        i = i + 1;
    }
    proof {
        assert(s.take(obj.len() as int) =~= s);
    }
    h as usize
}

} // verus!
