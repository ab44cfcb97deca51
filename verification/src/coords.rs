//! Tiling-coordinate generation.
//!
//! For tiling `t` of `num_tilings`, the displacement at continuous dimension
//! `i` is `t * (1 + 2*i)`: it starts at `t` and grows by `2*t` per dimension,
//! the odd-number scheme that offsets each tiling diagonally from its
//! neighbour. A coordinate vector is the tiling index, then one floored
//! quotient per quantized value, then any discrete tags verbatim.

use vstd::prelude::*;
use vstd::arithmetic::div_mod::{
    lemma_div_is_ordered, lemma_div_nonincreasing, lemma_div_plus_one, lemma_div_pos_is_pos,
    lemma_fundamental_div_mod, lemma_fundamental_div_mod_converse, lemma_mod_bound,
    lemma_mod_multiples_vanish,
};
use vstd::arithmetic::mul::{
    lemma_mul_inequality, lemma_mul_is_distributive_add, lemma_mul_nonnegative,
};
use crate::hash::to_int_seq;

verus! {

/// Displacement of tiling `tiling` at continuous dimension `dim`.
pub open spec fn displacement(tiling: int, dim: int) -> int {
    tiling * (1 + 2 * dim)
}

/// Coordinate element of the non-wrap variant:
/// `floor((q + displacement) / num_tilings)`, floored toward negative
/// infinity so that negative inputs land in well-defined tiles.
pub open spec fn tile_coord(q: int, tiling: int, dim: int, num_tilings: int) -> int {
    (q + displacement(tiling, dim)) / num_tilings
}

/// Coordinate element of the wrap variant. The displacement is reduced
/// modulo `num_tilings` before combining, so wrap boundaries align across
/// displaced tilings; a supplied width then reduces the element to
/// `[0, width)`.
pub open spec fn wrap_coord(q: int, tiling: int, dim: int, num_tilings: int, width: Option<
    int,
>) -> int {
    let c = (q + displacement(tiling, dim) % num_tilings) / num_tilings;
    match width {
        Some(w) => c % w,
        None => c,
    }
}

/// The discrete tags appended verbatim to every coordinate vector.
pub open spec fn opt_ints_seq(ints: Option<&[isize]>) -> Seq<int> {
    match ints {
        Some(s) => to_int_seq(s@),
        None => Seq::empty(),
    }
}

/// The wrap widths as mathematical integers.
pub open spec fn widths_int_seq(widths: Seq<Option<isize>>) -> Seq<Option<int>> {
    widths.map_values(
        |x: Option<isize>|
            match x {
                Some(w) => Some(w as int),
                None => None::<int>,
            },
    )
}

/// The full coordinate vector of one tiling, non-wrap variant.
pub open spec fn coord_vector(tiling: int, num_tilings: int, q: Seq<int>, tags: Seq<int>) -> Seq<
    int,
> {
    seq![tiling] + Seq::new(q.len(), |i: int| tile_coord(q[i], tiling, i, num_tilings)) + tags
}

/// The full coordinate vector of one tiling, wrap variant.
pub open spec fn wrap_coord_vector(
    tiling: int,
    num_tilings: int,
    q: Seq<int>,
    widths: Seq<Option<int>>,
    tags: Seq<int>,
) -> Seq<int> {
    seq![tiling] + Seq::new(q.len(), |i: int| wrap_coord(q[i], tiling, i, num_tilings, widths[i]))
        + tags
}

/// Machine-width bounds under which one tiling's coordinates can be
/// computed in `isize` arithmetic. Nothing here narrows the mathematical
/// inputs: it only keeps the quantities the generator forms representable.
pub open spec fn coords_req(tiling: int, num_tilings: int, q: Seq<int>) -> bool {
    &&& 1 <= num_tilings <= isize::MAX
    &&& 0 <= tiling <= isize::MAX
    &&& tiling * (1 + 2 * q.len()) <= isize::MAX
    &&& forall|i: int| 0 <= i < q.len() ==> q[i] + #[trigger] displacement(tiling, i)
        <= isize::MAX
}

/// Every wrap width supplied is a positive period.
pub open spec fn widths_ok(widths: Seq<Option<int>>) -> bool {
    forall|i: int| 0 <= i < widths.len() ==> (#[trigger] widths[i] matches Some(w) ==> w > 0)
}

/// The bounds only relax as the tiling index shrinks.
pub proof fn lemma_coords_req_monotonic(t1: int, t2: int, num_tilings: int, q: Seq<int>)
    requires
        0 <= t1 <= t2,
        coords_req(t2, num_tilings, q),
    ensures
        coords_req(t1, num_tilings, q),
{
    lemma_mul_inequality(t1, t2, 1 + 2 * q.len() as int);
    assert forall|i: int| 0 <= i < q.len() implies q[i] + #[trigger] displacement(t1, i)
        <= isize::MAX by {
        assert(q[i] + displacement(t2, i) <= isize::MAX);
        lemma_mul_inequality(t1, t2, 1 + 2 * i);
    }
}

/// One dimension's step of the running displacement: adding `2 * tiling`
/// moves from `displacement(tiling, i)` to `displacement(tiling, i + 1)`,
/// and the result stays below the bound `coords_req` grants.
proof fn lemma_displacement_step(ti: int, i: int, len: int)
    requires
        0 <= ti,
        0 <= i < len,
        ti * (1 + 2 * len) <= isize::MAX,
    ensures
        displacement(ti, i) + 2 * ti == displacement(ti, i + 1),
        displacement(ti, i + 1) <= isize::MAX,
        0 <= displacement(ti, i),
{
    lemma_mul_nonnegative(ti, 1 + 2 * i);
    lemma_mul_is_distributive_add(ti, 1 + 2 * i, 2);
    assert(ti * (1 + 2 * i) + ti * 2 == ti * (1 + 2 * i + 2));
    lemma_mul_inequality(1 + 2 * (i + 1), 1 + 2 * len, ti);
    assert((1 + 2 * (i + 1)) * ti == ti * (1 + 2 * (i + 1))) by (nonlinear_arith);
    assert((1 + 2 * len) * ti == ti * (1 + 2 * len)) by (nonlinear_arith);
}

/// Floor division by a positive divisor. Rust's `/` truncates toward zero;
/// in specifications `/` is Euclidean, which floors when the divisor is
/// positive, so a negative dividend with a remainder steps down by one.
fn div_floor(a: isize, d: isize) -> (r: isize)
    requires
        0 < d,
    ensures
        r == a as int / d as int,
{
    let q = a / d;
    let rem = a % d;
    if rem < 0 {
        proof {
            let ai = a as int;
            let di = d as int;
            let q2 = (-ai) / di;
            let r2 = (-ai) % di;
            lemma_div_pos_is_pos(-ai, di);
            lemma_mod_bound(-ai, di);
            lemma_fundamental_div_mod(-ai, di);
            assert(r2 > 0);
            // q == -q2 is within isize, and q > isize::MIN: otherwise
            // di * q2 + r2 == -ai would overshoot -isize::MIN.
            assert(q2 <= -ai) by {
                lemma_div_nonincreasing(-ai, di);
            }
            assert(q2 <= q2 * di) by {
                lemma_mul_inequality(1, di, q2);
            }
            assert(ai == di * (q as int - 1) + (di - r2)) by (nonlinear_arith)
                requires
                    -ai == di * q2 + r2,
                    q == -q2,
            ;
            lemma_fundamental_div_mod_converse(ai, di, q as int - 1, di - r2);
        }
        q - 1
    } else {
        proof {
            let ai = a as int;
            let di = d as int;
            if a < 0 {
                let q2 = (-ai) / di;
                let r2 = (-ai) % di;
                lemma_div_pos_is_pos(-ai, di);
                lemma_mod_bound(-ai, di);
                lemma_fundamental_div_mod(-ai, di);
                assert(r2 == 0);
                assert(ai == di * (q as int) + 0) by (nonlinear_arith)
                    requires
                        -ai == di * q2 + r2,
                        r2 == 0,
                        q == -q2,
                ;
                lemma_fundamental_div_mod_converse(ai, di, q as int, 0);
            }
        }
        q
    }
}

/// Euclidean remainder by a positive modulus: the result lies in `[0, m)`.
fn mod_euclid(a: isize, m: isize) -> (r: isize)
    requires
        0 < m,
    ensures
        r == a as int % m as int,
        0 <= r < m,
{
    let rem = a % m;
    if rem < 0 {
        proof {
            let ai = a as int;
            let mi = m as int;
            let q2 = (-ai) / mi;
            let r2 = (-ai) % mi;
            lemma_mod_bound(-ai, mi);
            lemma_fundamental_div_mod(-ai, mi);
            assert(ai == mi * (-q2 - 1) + (mi - r2)) by (nonlinear_arith)
                requires
                    -ai == mi * q2 + r2,
            ;
            lemma_fundamental_div_mod_converse(ai, mi, -q2 - 1, mi - r2);
        }
        rem + m
    } else {
        proof {
            let ai = a as int;
            let mi = m as int;
            if a < 0 {
                let q2 = (-ai) / mi;
                let r2 = (-ai) % mi;
                lemma_mod_bound(-ai, mi);
                lemma_fundamental_div_mod(-ai, mi);
                assert(r2 == 0);
                assert(ai == mi * (-q2) + 0) by (nonlinear_arith)
                    requires
                        -ai == mi * q2 + r2,
                        r2 == 0,
                ;
                lemma_fundamental_div_mod_converse(ai, mi, -q2, 0);
            } else {
                lemma_mod_bound(ai, mi);
            }
        }
        rem
    }
}

/// Builds the coordinate vector of one tiling, non-wrap variant: the tiling
/// index, then `floor((q + displacement) / num_tilings)` per quantized value,
/// then the discrete tags verbatim.
pub fn calculate_coords(
    tiling: usize,
    num_tilings: usize,
    q_floats: &Vec<isize>,
    ints: Option<&[isize]>,
) -> (r: Vec<isize>)
    requires
        coords_req(tiling as int, num_tilings as int, to_int_seq(q_floats@)),
        q_floats@.len() < usize::MAX,
    ensures
        to_int_seq(r@) == coord_vector(
            tiling as int,
            num_tilings as int,
            to_int_seq(q_floats@),
            opt_ints_seq(ints),
        ),
{
    let ghost ti = tiling as int;
    let ghost ni = num_tilings as int;
    let ghost qs = to_int_seq(q_floats@);
    let n: isize = num_tilings as isize;
    let t_step: isize = tiling as isize;
    let mut coords: Vec<isize> = Vec::with_capacity(1 + q_floats.len());
    coords.push(t_step);
    let mut b: isize = t_step;
    let mut i: usize = 0;
    proof {
        lemma_mul_inequality(1, 1 + 2 * qs.len() as int, ti);
    }
    while i < q_floats.len()
        invariant
            i <= q_floats.len(),
            qs == to_int_seq(q_floats@),
            coords_req(ti, ni, qs),
            ti == tiling as int,
            ni == num_tilings as int,
            n as int == ni,
            t_step as int == ti,
            b as int == displacement(ti, i as int),
            coords@.len() == 1 + i,
            coords@[0] as int == ti,
            forall|j: int| 0 <= j < i ==> coords@[1 + j] as int == tile_coord(qs[j], ti, j, ni),
        decreases q_floats.len() - i,
    {
        proof {
            assert(qs[i as int] + displacement(ti, i as int) <= isize::MAX);
            lemma_displacement_step(ti, i as int, qs.len() as int);
        }
        let c = div_floor(q_floats[i] + b, n);
        coords.push(c);
        b = b + t_step;
        b = b + t_step;
        i = i + 1;
    }
    if let Some(tags) = ints {
        let mut k: usize = 0;
        while k < tags.len()
            invariant
                k <= tags@.len(),
                coords@.len() == 1 + qs.len() + k,
                coords@[0] as int == ti,
                qs == to_int_seq(q_floats@),
                forall|j: int| 0 <= j < qs.len() ==> coords@[1 + j] as int == tile_coord(
                    qs[j],
                    ti,
                    j,
                    ni,
                ),
                forall|j: int| 0 <= j < k ==> coords@[1 + qs.len() + j] == tags@[j],
            decreases tags@.len() - k,
        {
            coords.push(tags[k]);
            k = k + 1;
        }
    }
    proof {
        assert(to_int_seq(coords@) =~= coord_vector(ti, ni, qs, opt_ints_seq(ints)));
    }
    coords
}

/// Builds the coordinate vector of one tiling, wrap variant: dimensions with
/// a width are reduced to `[0, width)`, the others behave as in the non-wrap
/// path. Wrap widths parallel the quantized values one for one.
pub fn calculate_coords_wrap(
    tiling: usize,
    num_tilings: usize,
    q_floats: &Vec<isize>,
    wrap_widths: &[Option<isize>],
    ints: Option<&[isize]>,
) -> (r: Vec<isize>)
    requires
        coords_req(tiling as int, num_tilings as int, to_int_seq(q_floats@)),
        q_floats@.len() < usize::MAX,
        wrap_widths@.len() == q_floats@.len(),
        widths_ok(widths_int_seq(wrap_widths@)),
    ensures
        to_int_seq(r@) == wrap_coord_vector(
            tiling as int,
            num_tilings as int,
            to_int_seq(q_floats@),
            widths_int_seq(wrap_widths@),
            opt_ints_seq(ints),
        ),
{
    let ghost ti = tiling as int;
    let ghost ni = num_tilings as int;
    let ghost qs = to_int_seq(q_floats@);
    let ghost ws = widths_int_seq(wrap_widths@);
    let n: isize = num_tilings as isize;
    let t_step: isize = tiling as isize;
    let mut coords: Vec<isize> = Vec::with_capacity(1 + q_floats.len());
    coords.push(t_step);
    let mut b: isize = t_step;
    let mut i: usize = 0;
    proof {
        lemma_mul_inequality(1, 1 + 2 * qs.len() as int, ti);
    }
    while i < q_floats.len()
        invariant
            i <= q_floats.len(),
            qs == to_int_seq(q_floats@),
            ws == widths_int_seq(wrap_widths@),
            qs.len() == ws.len(),
            coords_req(ti, ni, qs),
            widths_ok(ws),
            ti == tiling as int,
            ni == num_tilings as int,
            n as int == ni,
            t_step as int == ti,
            b as int == displacement(ti, i as int),
            coords@.len() == 1 + i,
            coords@[0] as int == ti,
            forall|j: int| 0 <= j < i ==> coords@[1 + j] as int == wrap_coord(
                qs[j],
                ti,
                j,
                ni,
                ws[j],
            ),
        decreases q_floats.len() - i,
    {
        proof {
            assert(qs[i as int] + displacement(ti, i as int) <= isize::MAX);
            lemma_displacement_step(ti, i as int, qs.len() as int);
            lemma_mod_bound(b as int, ni);
            // the reduced displacement is no larger than the full one
            assert(b as int % ni <= b as int) by (nonlinear_arith)
                requires
                    b >= 0,
                    ni >= 1,
            ;
        }
        let b_mod: isize = b % n;
        let c = div_floor(q_floats[i] + b_mod, n);
        let elem = match wrap_widths[i] {
            Some(w) => {
                proof {
                    assert(ws[i as int] == Some(w as int));
                }
                mod_euclid(c, w)
            },
            None => c,
        };
        proof {
            assert(ws[i as int] == widths_int_seq(wrap_widths@)[i as int]);
            assert(elem as int == wrap_coord(qs[i as int], ti, i as int, ni, ws[i as int]));
        }
        coords.push(elem);
        b = b + t_step;
        b = b + t_step;
        i = i + 1;
    }
    if let Some(tags) = ints {
        let mut k: usize = 0;
        while k < tags.len()
            invariant
                k <= tags@.len(),
                coords@.len() == 1 + qs.len() + k,
                coords@[0] as int == ti,
                qs == to_int_seq(q_floats@),
                ws == widths_int_seq(wrap_widths@),
                qs.len() == ws.len(),
                forall|j: int| 0 <= j < qs.len() ==> coords@[1 + j] as int == wrap_coord(
                    qs[j],
                    ti,
                    j,
                    ni,
                    ws[j],
                ),
                forall|j: int| 0 <= j < k ==> coords@[1 + qs.len() + j] == tags@[j],
            decreases tags@.len() - k,
        {
            coords.push(tags[k]);
            k = k + 1;
        }
    }
    proof {
        assert(to_int_seq(coords@) =~= wrap_coord_vector(ti, ni, qs, ws, opt_ints_seq(ints)));
    }
    coords
}

/// Locality, separated case: if two quantized inputs lie at least one full
/// tile width (`num_tilings` quantized units) apart in some dimension, their
/// coordinate vectors differ in every tiling, whatever tags are appended.
pub proof fn lemma_locality_separated(
    q1: Seq<int>,
    q2: Seq<int>,
    tags1: Seq<int>,
    tags2: Seq<int>,
    tiling: int,
    num_tilings: int,
    dim: int,
)
    requires
        1 <= num_tilings,
        q1.len() == q2.len(),
        0 <= dim < q1.len(),
        q1[dim] + num_tilings <= q2[dim],
    ensures
        coord_vector(tiling, num_tilings, q1, tags1) != coord_vector(
            tiling,
            num_tilings,
            q2,
            tags2,
        ),
{
    let b = displacement(tiling, dim);
    lemma_div_plus_one(q1[dim] + b, num_tilings);
    lemma_div_is_ordered(q1[dim] + b + num_tilings, q2[dim] + b, num_tilings);
    assert(tile_coord(q1[dim], tiling, dim, num_tilings) < tile_coord(
        q2[dim],
        tiling,
        dim,
        num_tilings,
    ));
    assert(coord_vector(tiling, num_tilings, q1, tags1)[1 + dim] != coord_vector(
        tiling,
        num_tilings,
        q2,
        tags2,
    )[1 + dim]);
}

/// Wrap equivalence, one dimension: shifting a quantized value by
/// `width * num_tilings` — one full wrap width of the unquantized input —
/// leaves the wrapped coordinate element unchanged.
pub proof fn lemma_wrap_equivalence(q: int, w: int, tiling: int, dim: int, num_tilings: int)
    requires
        1 <= num_tilings,
        0 < w,
    ensures
        wrap_coord(q + w * num_tilings, tiling, dim, num_tilings, Some(w)) == wrap_coord(
            q,
            tiling,
            dim,
            num_tilings,
            Some(w),
        ),
{
    let bm = displacement(tiling, dim) % num_tilings;
    let c = (q + bm) / num_tilings;
    assert((q + w * num_tilings + bm) / num_tilings == c + w) by {
        lemma_div_multiples_vanish_fancy_shift(q + bm, w, num_tilings);
    }
    assert((c + w) % w == c % w) by {
        lemma_mod_multiples_vanish(1, c, w);
        assert(w * 1 + c == c + w);
    }
}

/// Adding `k` divisor multiples to the dividend adds `k` to the quotient.
proof fn lemma_div_multiples_vanish_fancy_shift(a: int, k: int, d: int)
    requires
        0 < d,
    ensures
        (a + k * d) / d == a / d + k,
{
    lemma_fundamental_div_mod(a, d);
    lemma_mod_bound(a, d);
    assert(a + k * d == d * (a / d + k) + a % d) by (nonlinear_arith)
        requires
            a == d * (a / d) + a % d,
    ;
    lemma_fundamental_div_mod_converse(a + k * d, d, a / d + k, a % d);
}

/// Wrap equivalence, whole vector: if one wrapped dimension is shifted by a
/// full wrap width and every other quantized value is unchanged, the two
/// coordinate vectors are identical.
pub proof fn lemma_wrap_vector_equivalence(
    q1: Seq<int>,
    q2: Seq<int>,
    widths: Seq<Option<int>>,
    tags: Seq<int>,
    tiling: int,
    num_tilings: int,
    dim: int,
    w: int,
)
    requires
        1 <= num_tilings,
        0 < w,
        q1.len() == q2.len(),
        widths.len() == q1.len(),
        0 <= dim < q1.len(),
        widths[dim] == Some(w),
        q2[dim] == q1[dim] + w * num_tilings,
        forall|i: int| 0 <= i < q1.len() && i != dim ==> q1[i] == q2[i],
    ensures
        wrap_coord_vector(tiling, num_tilings, q2, widths, tags) == wrap_coord_vector(
            tiling,
            num_tilings,
            q1,
            widths,
            tags,
        ),
{
    lemma_wrap_equivalence(q1[dim], w, tiling, dim, num_tilings);
    assert(wrap_coord_vector(tiling, num_tilings, q2, widths, tags) =~= wrap_coord_vector(
        tiling,
        num_tilings,
        q1,
        widths,
        tags,
    ));
}

} // verus!
