//! Nearest-neighbour resampling: which source column and row each target
//! pixel takes, and the integer error accumulators that find them.
use vstd::arithmetic::div_mod::{
    lemma_fundamental_div_mod, lemma_fundamental_div_mod_converse, lemma_mod_pos_bound,
};
use vstd::prelude::*;

verus! {

/// The source column of target column `t` when `old_w` columns become `new_w`.
pub open spec fn scale_src_col(old_w: nat, new_w: nat, t: nat) -> int {
    (t * old_w + new_w - 1) as int / new_w as int
}

/// The source column that target column `t` takes: the accumulator's
/// column, or the last column for the target columns it never reaches.
pub open spec fn scale_col(old_w: nat, new_w: nat, t: nat) -> int {
    if scale_src_col(old_w, new_w, t) < old_w {
        scale_src_col(old_w, new_w, t)
    } else {
        old_w - 1
    }
}

/// The source row of target row `r` when `old_h` rows become `new_h`.
pub open spec fn scale_src_row(old_h: nat, new_h: nat, r: nat) -> int {
    ((r + 1) * old_h - 1) as int / new_h as int
}

/// The first `m` entries of `c` are the source columns of their target
/// columns, each within the source.
pub open spec fn columns_reached(c: Seq<usize>, ow: nat, nw: nat, m: int) -> bool {
    forall|t: int|
        0 <= t < m ==> #[trigger] c[t] == scale_src_col(ow, nw, t as nat) && scale_src_col(ow, nw, t as nat) < ow
}

/// The source column of each of `new_w` target columns, by the error
/// accumulator over the `old_w` source columns; the target columns past the
/// accumulator's last one take the last source column.
pub fn scale_columns(old_w: usize, new_w: usize) -> (cols: Vec<usize>)
    requires
        old_w > 0,
        new_w > 0,
    ensures
        cols@.len() == new_w,
        forall|t: int|
            0 <= t < new_w ==> #[trigger] cols@[t] == scale_col(old_w as nat, new_w as nat, t as nat)
                && cols@[t] < old_w,
{
    let ghost ow = old_w as int;
    let ghost nw = new_w as int;
    let mut cols: Vec<usize> = Vec::with_capacity(new_w);
    let mut errx: i128 = old_w as i128 - new_w as i128;
    let mut i: usize = 0;
    while i < old_w
        invariant
            old_w > 0,
            new_w > 0,
            ow == old_w,
            nw == new_w,
            i <= old_w,
            errx == ow - nw + i * nw - cols@.len() * ow,
            -nw <= errx < ow,
            cols@.len() <= new_w,
            columns_reached(cols@, old_w as nat, new_w as nat, cols@.len() as int),
        decreases old_w - i,
    {
        errx = errx + new_w as i128;
        proof {
            assert((i + 1) * nw == i * nw + nw) by (nonlinear_arith);
        }
        while errx >= old_w as i128
            invariant
                new_w > 0,
                ow == old_w,
                nw == new_w,
                i < old_w,
                errx == ow - nw + (i + 1) * nw - cols@.len() * ow,
                errx >= 0,
                errx < ow + nw,
                cols@.len() * ow + nw > i * nw,
                cols@.len() <= new_w,
                columns_reached(cols@, old_w as nat, new_w as nat, cols@.len() as int),
            decreases errx,
        {
            let m = cols.len();
            proof {
                let mm = m as int;
                assert(mm * ow <= i * nw) by (nonlinear_arith)
                    requires
                        errx == ow - nw + (i + 1) * nw - mm * ow,
                        errx >= ow,
                ;
                assert(mm < nw) by (nonlinear_arith)
                    requires
                        mm * ow <= i * nw,
                        i < ow,
                        nw > 0,
                        mm >= 0,
                ;
                lemma_scale_col_exact(ow, nw, mm, i as int);
            }
            cols.push(i);
            errx = errx - old_w as i128;
            assert(columns_reached(cols@, old_w as nat, new_w as nat, cols@.len() as int));
            proof {
                assert((m + 1) * ow == m * ow + ow) by (nonlinear_arith);
            }
        }
        i += 1;
    }
    let ghost m0 = cols@.len() as int;
    proof {
        assert(m0 * ow > (ow - 1) * nw) by (nonlinear_arith)
            requires
                errx == ow - nw + ow * nw - m0 * ow,
                errx < ow,
        ;
    }
    while cols.len() < new_w
        invariant
            old_w > 0,
            new_w > 0,
            ow == old_w,
            nw == new_w,
            0 <= m0 <= cols@.len() <= new_w,
            m0 * ow > (ow - 1) * nw,
            columns_reached(cols@, old_w as nat, new_w as nat, m0),
            forall|t: int| m0 <= t < cols@.len() ==> #[trigger] cols@[t] == old_w - 1,
        decreases new_w - cols@.len(),
    {
        proof {
            let t = cols@.len() as int;
            lemma_scale_col_past(ow, nw, m0, t);
        }
        cols.push(old_w - 1);
    }
    proof {
        assert forall|t: int| 0 <= t < new_w implies #[trigger] cols@[t] == scale_col(old_w as nat, new_w as nat, t as nat)
            && cols@[t] < old_w by {
            if t >= m0 {
                lemma_scale_col_past(ow, nw, m0, t);
            }
        }
    }
    cols
}

/// A target column reached while the accumulator stands at source column `i`
/// takes that column.
proof fn lemma_scale_col_exact(ow: int, nw: int, m: int, i: int)
    requires
        nw > 0,
        0 <= m,
        0 <= i < ow,
        m * ow <= i * nw,
        m * ow + nw > i * nw,
    ensures
        scale_src_col(ow as nat, nw as nat, m as nat) == i,
{
    assert((m * ow + nw - 1) == i * nw + (m * ow + nw - 1 - i * nw));
    lemma_fundamental_div_mod_converse(m * ow + nw - 1, nw, i, m * ow + nw - 1 - i * nw);
    assert(m as nat * ow as nat == m * ow) by (nonlinear_arith)
        requires
            m >= 0,
            ow >= 0,
    ;
}

/// Target columns at or past `m0`, where `m0 * ow > (ow - 1) * nw`, have no source column.
proof fn lemma_scale_col_past(ow: int, nw: int, m0: int, t: int)
    requires
        nw > 0,
        ow >= 0,
        0 <= m0 <= t,
        m0 * ow > (ow - 1) * nw,
    ensures
        scale_src_col(ow as nat, nw as nat, t as nat) >= ow,
{
    assert(t * ow > (ow - 1) * nw) by (nonlinear_arith)
        requires
            m0 <= t,
            ow >= 0,
            m0 * ow > (ow - 1) * nw,
    ;
    assert(t as nat * ow as nat == t * ow) by (nonlinear_arith)
        requires
            t >= 0,
            ow >= 0,
    ;
    let q = (t * ow + nw - 1) / nw;
    lemma_fundamental_div_mod(t * ow + nw - 1, nw);
    lemma_mod_pos_bound(t * ow + nw - 1, nw);
    assert(q >= ow) by (nonlinear_arith)
        requires
            t * ow + nw - 1 == nw * q + (t * ow + nw - 1) % nw,
            0 <= (t * ow + nw - 1) % nw < nw,
            t * ow > (ow - 1) * nw,
            nw > 0,
    ;
}

/// The first `m` entries of `r` are the source rows of their target rows,
/// each within the source.
pub open spec fn rows_reached(r: Seq<usize>, oh: nat, nh: nat, m: int) -> bool {
    forall|t: int|
        0 <= t < m ==> #[trigger] r[t] == scale_src_row(oh, nh, t as nat) && scale_src_row(oh, nh, t as nat) < oh
}

/// The source row of each of `new_h` target rows, by the error accumulator
/// over the `old_h` source rows.
pub fn scale_rows(old_h: usize, new_h: usize) -> (rows: Vec<usize>)
    requires
        old_h > 0,
        new_h > 0,
    ensures
        rows@.len() == new_h,
        rows_reached(rows@, old_h as nat, new_h as nat, new_h as int),
{
    let ghost oh = old_h as int;
    let ghost nh = new_h as int;
    let mut rows: Vec<usize> = Vec::with_capacity(new_h);
    let mut erry: i128 = 0;
    let mut j: usize = 0;
    assert(0 * nh - 0 * oh == 0) by (nonlinear_arith);
    while j < old_h
        invariant
            old_h > 0,
            new_h > 0,
            oh == old_h,
            nh == new_h,
            j <= old_h,
            erry == j * nh - rows@.len() * oh,
            0 <= erry < oh,
            rows@.len() <= new_h,
            rows_reached(rows@, old_h as nat, new_h as nat, rows@.len() as int),
        decreases old_h - j,
    {
        erry = erry + new_h as i128;
        proof {
            assert((j + 1) * nh == j * nh + nh) by (nonlinear_arith);
        }
        while erry >= old_h as i128
            invariant
                old_h > 0,
                new_h > 0,
                oh == old_h,
                nh == new_h,
                j < old_h,
                erry == (j + 1) * nh - rows@.len() * oh,
                erry >= 0,
                rows@.len() * oh + oh > j * nh,
                rows@.len() <= new_h,
                rows_reached(rows@, old_h as nat, new_h as nat, rows@.len() as int),
            decreases erry,
        {
            let m = rows.len();
            proof {
                let mm = m as int;
                assert((mm + 1) * oh == mm * oh + oh) by (nonlinear_arith);
                assert(mm < nh) by (nonlinear_arith)
                    requires
                        (mm + 1) * oh <= (j + 1) * nh,
                        j < oh,
                        oh > 0,
                        mm >= 0,
                ;
                lemma_scale_row_exact(oh, nh, mm, j as int);
            }
            rows.push(j);
            erry = erry - old_h as i128;
            assert(rows_reached(rows@, old_h as nat, new_h as nat, rows@.len() as int));
        }
        j += 1;
    }
    proof {
        let m = rows@.len() as int;
        assert(m == nh) by (nonlinear_arith)
            requires
                erry == oh * nh - m * oh,
                0 <= erry < oh,
                oh > 0,
        ;
    }
    rows
}

/// A target row reached while the accumulator stands at source row `j`
/// takes that row.
proof fn lemma_scale_row_exact(oh: int, nh: int, m: int, j: int)
    requires
        nh > 0,
        oh > 0,
        0 <= m,
        0 <= j < oh,
        (m + 1) * oh <= (j + 1) * nh,
        (m + 1) * oh > j * nh,
    ensures
        scale_src_row(oh as nat, nh as nat, m as nat) == j,
{
    let x = (m + 1) * oh - 1;
    assert((j + 1) * nh == j * nh + nh) by (nonlinear_arith);
    assert(x == j * nh + (x - j * nh));
    lemma_fundamental_div_mod_converse(x, nh, j, x - j * nh);
    assert((m as nat + 1) * oh as nat == (m + 1) * oh) by (nonlinear_arith)
        requires
            m >= 0,
            oh >= 0,
    ;
}

} // verus!
