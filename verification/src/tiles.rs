//! The tile coders: one call turns quantized inputs into `num_tilings`
//! indices, one per tiling.
//!
//! The bounded variants run every tiling's coordinate vector through an
//! [`IHT`]; the free functions hash each vector directly into `[0, size)`
//! with no table at all, for index spaces too large to materialize.

use vstd::prelude::*;
use vstd::arithmetic::div_mod::lemma_mod_bound;
use crate::coords::{
    calculate_coords, calculate_coords_wrap, coord_vector, coords_req,
    lemma_coords_req_monotonic, opt_ints_seq, widths_int_seq, widths_ok, wrap_coord_vector,
};
use crate::hash::{base_hash, hash_seq, lemma_hash_seq_bound, to_int_seq};
use crate::table::{find_key, tbl_assign, tbl_run, tbl_run_overfull, tbl_step, IHT};

verus! {

/// The coordinate vectors one non-wrap request presents, tiling by tiling.
pub open spec fn request_keys(num_tilings: int, q: Seq<int>, tags: Seq<int>) -> Seq<Seq<int>> {
    Seq::new(num_tilings as nat, |t: int| coord_vector(t, num_tilings, q, tags))
}

/// The coordinate vectors one wrap request presents, tiling by tiling.
pub open spec fn request_keys_wrap(
    num_tilings: int,
    q: Seq<int>,
    widths: Seq<Option<int>>,
    tags: Seq<int>,
) -> Seq<Seq<int>> {
    Seq::new(num_tilings as nat, |t: int| wrap_coord_vector(t, num_tilings, q, widths, tags))
}

impl IHT {
    /// Encodes quantized values (and optional discrete tags) as one index
    /// per tiling, inserting unknown coordinate vectors into the table.
    /// Whatever the inputs — negative included — the result holds exactly
    /// `num_tilings` indices, each below the table's size.
    pub fn tiles_quantized(
        &mut self,
        num_tilings: usize,
        q_floats: &Vec<isize>,
        ints: Option<&[isize]>,
    ) -> (r: Vec<usize>)
        requires
            1 <= num_tilings,
            coords_req(num_tilings - 1, num_tilings as int, to_int_seq(q_floats@)),
            q_floats@.len() < usize::MAX,
        ensures
            r@.len() == num_tilings,
            forall|t: int| 0 <= t < num_tilings ==> 0 <= #[trigger] r@[t] < old(self).size_spec(),
            forall|t: int| 0 <= t < num_tilings ==> r@[t] as int == tbl_assign(
                tbl_run(
                    old(self).key_seq(),
                    old(self).size_spec(),
                    request_keys(
                        num_tilings as int,
                        to_int_seq(q_floats@),
                        opt_ints_seq(ints),
                    ).take(t),
                ),
                old(self).size_spec(),
                request_keys(num_tilings as int, to_int_seq(q_floats@), opt_ints_seq(ints))[t],
            ),
            final(self).key_seq() == tbl_run(
                old(self).key_seq(),
                old(self).size_spec(),
                request_keys(num_tilings as int, to_int_seq(q_floats@), opt_ints_seq(ints)),
            ),
            final(self).overfull_spec() == tbl_run_overfull(
                old(self).key_seq(),
                old(self).overfull_spec(),
                old(self).size_spec(),
                request_keys(num_tilings as int, to_int_seq(q_floats@), opt_ints_seq(ints)),
            ),
            final(self).size_spec() == old(self).size_spec(),
    {
        let ghost qs = to_int_seq(q_floats@);
        let ghost tags = opt_ints_seq(ints);
        let ghost ks = request_keys(num_tilings as int, qs, tags);
        let ghost s0 = self.key_seq();
        let ghost o0 = self.overfull_spec();
        let ghost size = self.size_spec();
        let mut tiles: Vec<usize> = Vec::with_capacity(num_tilings);
        let mut t: usize = 0;
        proof {
            assert(ks.take(0) =~= Seq::<Seq<int>>::empty());
        }
        while t < num_tilings
            invariant
                t <= num_tilings,
                qs == to_int_seq(q_floats@),
                tags == opt_ints_seq(ints),
                ks == request_keys(num_tilings as int, qs, tags),
                coords_req(num_tilings - 1, num_tilings as int, qs),
                q_floats@.len() < usize::MAX,
                1 <= num_tilings,
                self.key_seq() == tbl_run(s0, size, ks.take(t as int)),
                self.overfull_spec() == tbl_run_overfull(s0, o0, size, ks.take(t as int)),
                self.size_spec() == size,
                tiles@.len() == t,
                forall|j: int| 0 <= j < t ==> 0 <= #[trigger] tiles@[j] < size,
                forall|j: int| 0 <= j < t ==> tiles@[j] as int == tbl_assign(
                    tbl_run(s0, size, ks.take(j)),
                    size,
                    ks[j],
                ),
            decreases num_tilings - t,
        {
            proof {
                lemma_coords_req_monotonic(t as int, num_tilings - 1, num_tilings as int, qs);
            }
            let coords = calculate_coords(t, num_tilings, q_floats, ints);
            let idx = self.get_index(coords);
            tiles.push(idx);
            proof {
                assert(ks.take(t + 1).drop_last() =~= ks.take(t as int));
                assert(ks.take(t + 1).last() == ks[t as int]);
            }
            t = t + 1;
        }
        proof {
            assert(ks.take(num_tilings as int) =~= ks);
        }
        tiles
    }

    /// The wrap-around sibling of `tiles_quantized`: dimensions with a
    /// wrap width are reduced to `[0, width)` before index assignment, so
    /// inputs one full width apart share tiles. Widths parallel the
    /// quantized values one for one; `None` leaves a dimension unwrapped.
    pub fn tiles_wrap_quantized(
        &mut self,
        num_tilings: usize,
        q_floats: &Vec<isize>,
        wrap_widths: &[Option<isize>],
        ints: Option<&[isize]>,
    ) -> (r: Vec<usize>)
        requires
            1 <= num_tilings,
            coords_req(num_tilings - 1, num_tilings as int, to_int_seq(q_floats@)),
            q_floats@.len() < usize::MAX,
            wrap_widths@.len() == q_floats@.len(),
            widths_ok(widths_int_seq(wrap_widths@)),
        ensures
            r@.len() == num_tilings,
            forall|t: int| 0 <= t < num_tilings ==> 0 <= #[trigger] r@[t] < old(self).size_spec(),
            forall|t: int| 0 <= t < num_tilings ==> r@[t] as int == tbl_assign(
                tbl_run(
                    old(self).key_seq(),
                    old(self).size_spec(),
                    request_keys_wrap(
                        num_tilings as int,
                        to_int_seq(q_floats@),
                        widths_int_seq(wrap_widths@),
                        opt_ints_seq(ints),
                    ).take(t),
                ),
                old(self).size_spec(),
                request_keys_wrap(
                    num_tilings as int,
                    to_int_seq(q_floats@),
                    widths_int_seq(wrap_widths@),
                    opt_ints_seq(ints),
                )[t],
            ),
            final(self).key_seq() == tbl_run(
                old(self).key_seq(),
                old(self).size_spec(),
                request_keys_wrap(
                    num_tilings as int,
                    to_int_seq(q_floats@),
                    widths_int_seq(wrap_widths@),
                    opt_ints_seq(ints),
                ),
            ),
            final(self).overfull_spec() == tbl_run_overfull(
                old(self).key_seq(),
                old(self).overfull_spec(),
                old(self).size_spec(),
                request_keys_wrap(
                    num_tilings as int,
                    to_int_seq(q_floats@),
                    widths_int_seq(wrap_widths@),
                    opt_ints_seq(ints),
                ),
            ),
            final(self).size_spec() == old(self).size_spec(),
    {
        let ghost qs = to_int_seq(q_floats@);
        let ghost ws = widths_int_seq(wrap_widths@);
        let ghost tags = opt_ints_seq(ints);
        let ghost ks = request_keys_wrap(num_tilings as int, qs, ws, tags);
        let ghost s0 = self.key_seq();
        let ghost o0 = self.overfull_spec();
        let ghost size = self.size_spec();
        let mut tiles: Vec<usize> = Vec::with_capacity(num_tilings);
        let mut t: usize = 0;
        proof {
            assert(ks.take(0) =~= Seq::<Seq<int>>::empty());
        }
        while t < num_tilings
            invariant
                t <= num_tilings,
                qs == to_int_seq(q_floats@),
                ws == widths_int_seq(wrap_widths@),
                tags == opt_ints_seq(ints),
                ks == request_keys_wrap(num_tilings as int, qs, ws, tags),
                coords_req(num_tilings - 1, num_tilings as int, qs),
                q_floats@.len() < usize::MAX,
                wrap_widths@.len() == q_floats@.len(),
                widths_ok(ws),
                1 <= num_tilings,
                self.key_seq() == tbl_run(s0, size, ks.take(t as int)),
                self.overfull_spec() == tbl_run_overfull(s0, o0, size, ks.take(t as int)),
                self.size_spec() == size,
                tiles@.len() == t,
                forall|j: int| 0 <= j < t ==> 0 <= #[trigger] tiles@[j] < size,
                forall|j: int| 0 <= j < t ==> tiles@[j] as int == tbl_assign(
                    tbl_run(s0, size, ks.take(j)),
                    size,
                    ks[j],
                ),
            decreases num_tilings - t,
        {
            proof {
                lemma_coords_req_monotonic(t as int, num_tilings - 1, num_tilings as int, qs);
            }
            let coords = calculate_coords_wrap(t, num_tilings, q_floats, wrap_widths, ints);
            let idx = self.get_index(coords);
            tiles.push(idx);
            proof {
                assert(ks.take(t + 1).drop_last() =~= ks.take(t as int));
                assert(ks.take(t + 1).last() == ks[t as int]);
            }
            t = t + 1;
        }
        proof {
            assert(ks.take(num_tilings as int) =~= ks);
        }
        tiles
    }

    /// The read-only sibling of `tiles_wrap_quantized`: reports each
    /// tiling's stored index, or `None` where the wrapped coordinate
    /// vector is unknown. The table never changes.
    pub fn tiles_wrap_quantized_read_only(
        &self,
        num_tilings: usize,
        q_floats: &Vec<isize>,
        wrap_widths: &[Option<isize>],
        ints: Option<&[isize]>,
    ) -> (r: Vec<Option<usize>>)
        requires
            1 <= num_tilings,
            coords_req(num_tilings - 1, num_tilings as int, to_int_seq(q_floats@)),
            q_floats@.len() < usize::MAX,
            wrap_widths@.len() == q_floats@.len(),
            widths_ok(widths_int_seq(wrap_widths@)),
        ensures
            r@.len() == num_tilings,
            forall|t: int| 0 <= t < num_tilings ==> #[trigger] r@[t] == {
                let k = request_keys_wrap(
                    num_tilings as int,
                    to_int_seq(q_floats@),
                    widths_int_seq(wrap_widths@),
                    opt_ints_seq(ints),
                )[t];
                if find_key(self.key_seq(), k) >= 0 {
                    Some(find_key(self.key_seq(), k) as usize)
                } else {
                    None::<usize>
                }
            },
    {
        let ghost qs = to_int_seq(q_floats@);
        let ghost ws = widths_int_seq(wrap_widths@);
        let ghost tags = opt_ints_seq(ints);
        let ghost ks = request_keys_wrap(num_tilings as int, qs, ws, tags);
        let mut tiles: Vec<Option<usize>> = Vec::with_capacity(num_tilings);
        let mut t: usize = 0;
        while t < num_tilings
            invariant
                t <= num_tilings,
                qs == to_int_seq(q_floats@),
                ws == widths_int_seq(wrap_widths@),
                tags == opt_ints_seq(ints),
                ks == request_keys_wrap(num_tilings as int, qs, ws, tags),
                coords_req(num_tilings - 1, num_tilings as int, qs),
                q_floats@.len() < usize::MAX,
                wrap_widths@.len() == q_floats@.len(),
                widths_ok(ws),
                1 <= num_tilings,
                tiles@.len() == t,
                forall|j: int| 0 <= j < t ==> #[trigger] tiles@[j] == (if find_key(
                    self.key_seq(),
                    ks[j],
                ) >= 0 {
                    Some(find_key(self.key_seq(), ks[j]) as usize)
                } else {
                    None::<usize>
                }),
            decreases num_tilings - t,
        {
            proof {
                lemma_coords_req_monotonic(t as int, num_tilings - 1, num_tilings as int, qs);
            }
            let coords = calculate_coords_wrap(t, num_tilings, q_floats, wrap_widths, ints);
            let idx = self.get_index_read_only(coords);
            tiles.push(idx);
            t = t + 1;
        }
        tiles
    }

    /// The read-only sibling of `tiles_quantized`: reports each tiling's
    /// stored index, or `None` where the coordinate vector is unknown.
    /// The table is taken by shared reference and never changes.
    pub fn tiles_quantized_read_only(
        &self,
        num_tilings: usize,
        q_floats: &Vec<isize>,
        ints: Option<&[isize]>,
    ) -> (r: Vec<Option<usize>>)
        requires
            1 <= num_tilings,
            coords_req(num_tilings - 1, num_tilings as int, to_int_seq(q_floats@)),
            q_floats@.len() < usize::MAX,
        ensures
            r@.len() == num_tilings,
            forall|t: int| 0 <= t < num_tilings ==> #[trigger] r@[t] == {
                let k = request_keys(
                    num_tilings as int,
                    to_int_seq(q_floats@),
                    opt_ints_seq(ints),
                )[t];
                if find_key(self.key_seq(), k) >= 0 {
                    Some(find_key(self.key_seq(), k) as usize)
                } else {
                    None::<usize>
                }
            },
    {
        let ghost qs = to_int_seq(q_floats@);
        let ghost tags = opt_ints_seq(ints);
        let ghost ks = request_keys(num_tilings as int, qs, tags);
        let mut tiles: Vec<Option<usize>> = Vec::with_capacity(num_tilings);
        let mut t: usize = 0;
        while t < num_tilings
            invariant
                t <= num_tilings,
                qs == to_int_seq(q_floats@),
                tags == opt_ints_seq(ints),
                ks == request_keys(num_tilings as int, qs, tags),
                coords_req(num_tilings - 1, num_tilings as int, qs),
                q_floats@.len() < usize::MAX,
                1 <= num_tilings,
                tiles@.len() == t,
                forall|j: int| 0 <= j < t ==> #[trigger] tiles@[j] == (if find_key(
                    self.key_seq(),
                    ks[j],
                ) >= 0 {
                    Some(find_key(self.key_seq(), ks[j]) as usize)
                } else {
                    None::<usize>
                }),
            decreases num_tilings - t,
        {
            proof {
                lemma_coords_req_monotonic(t as int, num_tilings - 1, num_tilings as int, qs);
            }
            let coords = calculate_coords(t, num_tilings, q_floats, ints);
            let idx = self.get_index_read_only(coords);
            tiles.push(idx);
            t = t + 1;
        }
        tiles
    }
}

/// Encodes quantized values as one index per tiling with no table at all:
/// each coordinate vector's content hash is reduced into `[0, size)`.
/// Deterministic, stateless, collision-prone by design.
pub fn tiles_quantized(
    size: usize,
    num_tilings: usize,
    q_floats: &Vec<isize>,
    ints: Option<&[isize]>,
) -> (r: Vec<usize>)
    requires
        1 <= size,
        1 <= num_tilings,
        coords_req(num_tilings - 1, num_tilings as int, to_int_seq(q_floats@)),
        q_floats@.len() < usize::MAX,
    ensures
        r@.len() == num_tilings,
        forall|t: int| 0 <= t < num_tilings ==> 0 <= #[trigger] r@[t] < size,
        forall|t: int| 0 <= t < num_tilings ==> #[trigger] r@[t] as int == hash_seq(
            request_keys(num_tilings as int, to_int_seq(q_floats@), opt_ints_seq(ints))[t],
        ) % (size as int),
{
    let ghost qs = to_int_seq(q_floats@);
    let ghost tags = opt_ints_seq(ints);
    let ghost ks = request_keys(num_tilings as int, qs, tags);
    let mut tiles: Vec<usize> = Vec::with_capacity(num_tilings);
    let mut t: usize = 0;
    while t < num_tilings
        invariant
            t <= num_tilings,
            qs == to_int_seq(q_floats@),
            tags == opt_ints_seq(ints),
            ks == request_keys(num_tilings as int, qs, tags),
            coords_req(num_tilings - 1, num_tilings as int, qs),
            q_floats@.len() < usize::MAX,
            1 <= num_tilings,
            1 <= size,
            tiles@.len() == t,
            forall|j: int| 0 <= j < t ==> 0 <= #[trigger] tiles@[j] < size,
            forall|j: int| 0 <= j < t ==> #[trigger] tiles@[j] as int == hash_seq(ks[j]) % (
            size as int),
        decreases num_tilings - t,
    {
        proof {
            lemma_coords_req_monotonic(t as int, num_tilings - 1, num_tilings as int, qs);
        }
        let coords = calculate_coords(t, num_tilings, q_floats, ints);
        let h = base_hash(&coords);
        proof {
            lemma_hash_seq_bound(ks[t as int]);
            lemma_mod_bound(hash_seq(ks[t as int]), size as int);
        }
        tiles.push(h % size);
        t = t + 1;
    }
    tiles
}

/// The wrap-around sibling of the free `tiles_quantized`: wrapped
/// dimensions are reduced to `[0, width)` before hashing, so inputs one
/// full width apart share indices. Stateless and deterministic.
pub fn tiles_wrap_quantized(
    size: usize,
    num_tilings: usize,
    q_floats: &Vec<isize>,
    wrap_widths: &[Option<isize>],
    ints: Option<&[isize]>,
) -> (r: Vec<usize>)
    requires
        1 <= size,
        1 <= num_tilings,
        coords_req(num_tilings - 1, num_tilings as int, to_int_seq(q_floats@)),
        q_floats@.len() < usize::MAX,
        wrap_widths@.len() == q_floats@.len(),
        widths_ok(widths_int_seq(wrap_widths@)),
    ensures
        r@.len() == num_tilings,
        forall|t: int| 0 <= t < num_tilings ==> 0 <= #[trigger] r@[t] < size,
        forall|t: int| 0 <= t < num_tilings ==> #[trigger] r@[t] as int == hash_seq(
            request_keys_wrap(
                num_tilings as int,
                to_int_seq(q_floats@),
                widths_int_seq(wrap_widths@),
                opt_ints_seq(ints),
            )[t],
        ) % (size as int),
{
    let ghost qs = to_int_seq(q_floats@);
    let ghost ws = widths_int_seq(wrap_widths@);
    let ghost tags = opt_ints_seq(ints);
    let ghost ks = request_keys_wrap(num_tilings as int, qs, ws, tags);
    let mut tiles: Vec<usize> = Vec::with_capacity(num_tilings);
    let mut t: usize = 0;
    while t < num_tilings
        invariant
            t <= num_tilings,
            qs == to_int_seq(q_floats@),
            ws == widths_int_seq(wrap_widths@),
            tags == opt_ints_seq(ints),
            ks == request_keys_wrap(num_tilings as int, qs, ws, tags),
            coords_req(num_tilings - 1, num_tilings as int, qs),
            q_floats@.len() < usize::MAX,
            wrap_widths@.len() == q_floats@.len(),
            widths_ok(ws),
            1 <= num_tilings,
            1 <= size,
            tiles@.len() == t,
            forall|j: int| 0 <= j < t ==> 0 <= #[trigger] tiles@[j] < size,
            forall|j: int| 0 <= j < t ==> #[trigger] tiles@[j] as int == hash_seq(ks[j]) % (
            size as int),
        decreases num_tilings - t,
    {
        proof {
            lemma_coords_req_monotonic(t as int, num_tilings - 1, num_tilings as int, qs);
        }
        let coords = calculate_coords_wrap(t, num_tilings, q_floats, wrap_widths, ints);
        let h = base_hash(&coords);
        proof {
            lemma_hash_seq_bound(ks[t as int]);
            lemma_mod_bound(hash_seq(ks[t as int]), size as int);
        }
        tiles.push(h % size);
        t = t + 1;
    }
    tiles
}

} // verus!
