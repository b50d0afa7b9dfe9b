use vstd::arithmetic::div_mod::{lemma_fundamental_div_mod, lemma_mod_division_less_than_divisor};
use vstd::math::abs;
use vstd::prelude::*;

verus! {

/// The chosen geometry of the output image: how many lines go into one
/// column, and how many columns the image needs to hold them all.
#[derive(Clone, Copy, PartialEq, Eq, Structural, Debug)]
pub struct Layout {
    pub lines_per_column: u32,
    pub required_columns: u32,
}

/// Integer division rounding up.
pub open spec fn ceil_div(n: int, d: int) -> int
    recommends
        n >= 0,
        d >= 1,
{
    (n + d - 1) / d
}

/// How many columns are required when each column holds `l` lines.
pub open spec fn spec_required_columns(total: int, l: int) -> int {
    ceil_div(total, l)
}

/// Numerator of the aspect ratio achieved with `l` lines per column:
/// required columns times the column width in pixels.
pub open spec fn rnum(total: int, cw: int, l: int) -> int {
    spec_required_columns(total, l) * cw
}

/// Denominator of the achieved aspect ratio: the column height in pixels.
pub open spec fn rden(lh: int, l: int) -> int {
    l * lh
}

/// Numerator of the deviation of the achieved ratio from the target `tn/td`,
/// over the common denominator `rden(lh, l) * td`.
pub open spec fn dnum(total: int, cw: int, lh: int, tn: int, td: int, l: int) -> int {
    abs(rnum(total, cw, l) * td - tn * rden(lh, l)) as int
}

/// The achieved ratio at `a` lines per column deviates from the target no
/// more than the one at `b` lines per column (compared as fractions by
/// cross-multiplication).
pub open spec fn dist_le(total: int, cw: int, lh: int, tn: int, td: int, a: int, b: int) -> bool {
    dnum(total, cw, lh, tn, td, a) * rden(lh, b) <= dnum(total, cw, lh, tn, td, b) * rden(lh, a)
}

/// Strictly smaller deviation.
pub open spec fn dist_lt(total: int, cw: int, lh: int, tn: int, td: int, a: int, b: int) -> bool {
    dnum(total, cw, lh, tn, td, a) * rden(lh, b) < dnum(total, cw, lh, tn, td, b) * rden(lh, a)
}

/// Which lines-per-column values the search may settle on. Without
/// `force_full_columns` every value counts; with it, only values at which
/// the required column count actually changes, so that no step wastes an
/// increment that adds no full column.
pub open spec fn candidate(total: int, force: bool, l: int) -> bool {
    !force || l == 1 || spec_required_columns(total, l) != spec_required_columns(total, l - 1)
}

/// The products the search compares stay below `u128::MAX`; a machine
/// limit on the configuration, far above any real image geometry.
pub open spec fn layout_inputs_bounded(total: int, cw: int, lh: int, tn: int, td: int) -> bool {
    (total * cw * td + tn * (total * lh)) * (total * lh) < u128::MAX
}

proof fn lemma_ceil_div_props(n: int, l: int)
    requires
        n >= 1,
        l >= 1,
    ensures
        1 <= ceil_div(n, l) <= n,
        ceil_div(n, l) * l >= n,
        ceil_div(n, l) * l <= n + l - 1,
{
    let m = n + l - 1;
    let q = m / l;
    lemma_fundamental_div_mod(m, l);
    lemma_mod_division_less_than_divisor(m, l);
    assert(q * l == m - m % l) by (nonlinear_arith)
        requires
            m == l * q + m % l,
    ;
    assert(q >= 1) by (nonlinear_arith)
        requires
            q * l >= n,
            n >= 1,
            l >= 1,
    ;
    assert(q <= n) by (nonlinear_arith)
        requires
            q * l <= n + l - 1,
            n >= 1,
            l >= 1,
            q >= 1,
    ;
}

proof fn lemma_ceil_div_antitone(n: int, l1: int, l2: int)
    requires
        n >= 1,
        1 <= l1 <= l2,
    ensures
        ceil_div(n, l1) >= ceil_div(n, l2),
{
    let q1 = ceil_div(n, l1);
    let q2 = ceil_div(n, l2);
    lemma_ceil_div_props(n, l1);
    lemma_ceil_div_props(n, l2);
    assert(q1 * l2 >= n) by (nonlinear_arith)
        requires
            q1 * l1 >= n,
            q1 >= 1,
            1 <= l1 <= l2,
    ;
    assert(q1 >= q2) by (nonlinear_arith)
        requires
            q1 * l2 >= n,
            q2 * l2 <= n + l2 - 1,
            l2 >= 1,
    ;
}

proof fn lemma_ratio_strict_dec(total: int, cw: int, lh: int, l: int, k: int)
    requires
        total >= 1,
        cw >= 1,
        lh >= 1,
        1 <= l < k,
    ensures
        rnum(total, cw, l) * rden(lh, k) > rnum(total, cw, k) * rden(lh, l),
{
    let ql = ceil_div(total, l);
    let qk = ceil_div(total, k);
    lemma_ceil_div_props(total, l);
    lemma_ceil_div_props(total, k);
    lemma_ceil_div_antitone(total, l, k);
    assert(ql * k > qk * l) by (nonlinear_arith)
        requires
            ql >= qk,
            qk >= 1,
            1 <= l < k,
    ;
    assert((ql * cw) * (k * lh) > (qk * cw) * (l * lh)) by (nonlinear_arith)
        requires
            ql * k > qk * l,
            ql >= 1,
            qk >= 1,
            cw >= 1,
            lh >= 1,
            l >= 1,
            k >= 1,
    ;
}

proof fn lemma_dist_le_trans(
    total: int,
    cw: int,
    lh: int,
    tn: int,
    td: int,
    a: int,
    b: int,
    c: int,
)
    requires
        lh >= 1,
        a >= 1,
        b >= 1,
        c >= 1,
        dist_le(total, cw, lh, tn, td, a, b),
        dist_le(total, cw, lh, tn, td, b, c),
    ensures
        dist_le(total, cw, lh, tn, td, a, c),
{
    let da = dnum(total, cw, lh, tn, td, a);
    let db = dnum(total, cw, lh, tn, td, b);
    let dc = dnum(total, cw, lh, tn, td, c);
    let ra = rden(lh, a);
    let rb = rden(lh, b);
    let rc = rden(lh, c);
    assert(da >= 0 && db >= 0 && dc >= 0);
    assert(ra >= 1 && rb >= 1 && rc >= 1) by (nonlinear_arith)
        requires
            lh >= 1,
            a >= 1,
            b >= 1,
            c >= 1,
            ra == a * lh,
            rb == b * lh,
            rc == c * lh,
    ;
    assert(da * rc <= dc * ra) by (nonlinear_arith)
        requires
            da * rb <= db * ra,
            db * rc <= dc * rb,
            da >= 0,
            db >= 0,
            dc >= 0,
            ra >= 1,
            rb >= 1,
            rc >= 1,
    ;
}

proof fn lemma_dist_lt_le_trans(
    total: int,
    cw: int,
    lh: int,
    tn: int,
    td: int,
    a: int,
    b: int,
    c: int,
)
    requires
        lh >= 1,
        a >= 1,
        b >= 1,
        c >= 1,
        dist_lt(total, cw, lh, tn, td, a, b),
        dist_le(total, cw, lh, tn, td, b, c),
    ensures
        dist_lt(total, cw, lh, tn, td, a, c),
{
    let da = dnum(total, cw, lh, tn, td, a);
    let db = dnum(total, cw, lh, tn, td, b);
    let dc = dnum(total, cw, lh, tn, td, c);
    let ra = rden(lh, a);
    let rb = rden(lh, b);
    let rc = rden(lh, c);
    assert(da >= 0 && db >= 0 && dc >= 0);
    assert(ra >= 1 && rb >= 1 && rc >= 1) by (nonlinear_arith)
        requires
            lh >= 1,
            a >= 1,
            b >= 1,
            c >= 1,
            ra == a * lh,
            rb == b * lh,
            rc == c * lh,
    ;
    assert(da * rc < dc * ra) by (nonlinear_arith)
        requires
            da * rb < db * ra,
            db * rc <= dc * rb,
            da >= 0,
            db >= 0,
            dc >= 0,
            ra >= 1,
            rb >= 1,
            rc >= 1,
    ;
}

/// Once the deviation stops shrinking at the next considered value `k0`,
/// every later value `k` deviates at least as much as `l` does: the
/// achievable ratio falls strictly as lines per column grow, so the
/// deviation is unimodal along the search.
proof fn lemma_tail(total: int, cw: int, lh: int, tn: int, td: int, l: int, k0: int, k: int)
    requires
        total >= 1,
        cw >= 1,
        lh >= 1,
        tn >= 0,
        td >= 1,
        1 <= l < k0 <= k,
        !dist_lt(total, cw, lh, tn, td, k0, l),
    ensures
        dist_le(total, cw, lh, tn, td, l, k),
{
    let al = rnum(total, cw, l) * td;
    let bl = tn * rden(lh, l);
    let a0 = rnum(total, cw, k0) * td;
    let b0 = tn * rden(lh, k0);
    let ak = rnum(total, cw, k) * td;
    let bk = tn * rden(lh, k);
    let rl = rden(lh, l);
    let r0 = rden(lh, k0);
    let rk = rden(lh, k);
    assert(rl >= 1 && r0 >= 1 && rk >= 1) by (nonlinear_arith)
        requires
            lh >= 1,
            l >= 1,
            k0 >= 1,
            k >= 1,
            rl == l * lh,
            r0 == k0 * lh,
            rk == k * lh,
    ;
    lemma_ratio_strict_dec(total, cw, lh, l, k0);
    // ratios compared over the common factor td
    assert(al * r0 > a0 * rl) by (nonlinear_arith)
        requires
            rnum(total, cw, l) * r0 > rnum(total, cw, k0) * rl,
            td >= 1,
            al == rnum(total, cw, l) * td,
            a0 == rnum(total, cw, k0) * td,
    ;
    if a0 > b0 {
        // the next ratio still lies above the target: the deviation would
        // have shrunk, contradicting the hypothesis
        assert(al * r0 > b0 * rl) by (nonlinear_arith)
            requires
                al * r0 > a0 * rl,
                a0 > b0,
                rl >= 1,
                r0 >= 1,
        ;
        assert(bl * r0 == b0 * rl) by (nonlinear_arith)
            requires
                bl == tn * (l * lh),
                b0 == tn * (k0 * lh),
                rl == l * lh,
                r0 == k0 * lh,
        ;
        assert(al > bl) by (nonlinear_arith)
            requires
                al * r0 > bl * r0,
                r0 >= 1,
        ;
        assert((al - bl) * r0 > (a0 - b0) * rl) by (nonlinear_arith)
            requires
                al * r0 > a0 * rl,
                bl * r0 == b0 * rl,
        ;
        assert(dnum(total, cw, lh, tn, td, l) == al - bl);
        assert(dnum(total, cw, lh, tn, td, k0) == a0 - b0);
        assert(false);
    } else {
        // the next ratio is at or below the target; every later one is
        // further below it
        if k > k0 {
            lemma_ratio_strict_dec(total, cw, lh, k0, k);
            assert(ak * r0 <= a0 * rk) by (nonlinear_arith)
                requires
                    rnum(total, cw, k) * r0 < rnum(total, cw, k0) * rk,
                    td >= 1,
                    ak == rnum(total, cw, k) * td,
                    a0 == rnum(total, cw, k0) * td,
            ;
        } else {
            assert(ak * r0 == a0 * rk);
        }
        assert(b0 * rk == bk * r0) by (nonlinear_arith)
            requires
                bk == tn * (k * lh),
                b0 == tn * (k0 * lh),
                rk == k * lh,
                r0 == k0 * lh,
        ;
        assert(ak <= bk) by (nonlinear_arith)
            requires
                ak * r0 <= a0 * rk,
                a0 <= b0,
                b0 * rk == bk * r0,
                rk >= 1,
                r0 >= 1,
        ;
        assert((bk - ak) * r0 >= (b0 - a0) * rk) by (nonlinear_arith)
            requires
                ak * r0 <= a0 * rk,
                b0 * rk == bk * r0,
        ;
        assert(dnum(total, cw, lh, tn, td, k) == bk - ak);
        assert(dnum(total, cw, lh, tn, td, k0) == b0 - a0);
        assert(dist_le(total, cw, lh, tn, td, k0, k));
        assert(dist_le(total, cw, lh, tn, td, l, k0)) by {
            assert(dnum(total, cw, lh, tn, td, l) * r0 <= dnum(total, cw, lh, tn, td, k0) * rl);
        }
        lemma_dist_le_trans(total, cw, lh, tn, td, l, k0, k);
    }
}

/// How many columns a layout of `l` lines per column requires.
pub fn required_columns_for(total: u32, l: u32) -> (rc: u64)
    requires
        total >= 1,
        l >= 1,
    ensures
        rc == spec_required_columns(total as int, l as int),
        1 <= rc <= total,
{
    proof {
        lemma_ceil_div_props(total as int, l as int);
    }
    (total as u64 + l as u64 - 1) / (l as u64)
}

/// The deviation numerator and the ratio denominator at `l` lines per
/// column, as exact 128-bit integers.
fn dist_parts(total: u32, cw: u32, lh: u32, tn: u32, td: u32, l: u32) -> (out: (u128, u128))
    requires
        total >= 1,
        cw >= 1,
        lh >= 1,
        td >= 1,
        1 <= l <= total,
    ensures
        out.0 == dnum(total as int, cw as int, lh as int, tn as int, td as int, l as int),
        out.1 == rden(lh as int, l as int),
        out.0 <= total as int * cw as int * td as int + tn as int * (total as int * lh as int),
        out.1 <= total as int * lh as int,
{
    let q: u64 = required_columns_for(total, l);
    proof {
        assert(q as int * cw as int <= u64::MAX) by (nonlinear_arith)
            requires
                0 <= q <= u32::MAX,
                0 <= cw <= u32::MAX,
        ;
        assert(q as int * cw as int * td as int <= u128::MAX) by (nonlinear_arith)
            requires
                0 <= q as int * cw as int <= u64::MAX,
                0 <= td <= u32::MAX,
        ;
    }
    let a: u128 = (q as u128) * (cw as u128) * (td as u128);
    proof {
        assert(l as int * lh as int <= u64::MAX) by (nonlinear_arith)
            requires
                0 <= l <= u32::MAX,
                0 <= lh <= u32::MAX,
        ;
        assert(tn as int * (l as int * lh as int) <= u128::MAX) by (nonlinear_arith)
            requires
                0 <= l as int * lh as int <= u64::MAX,
                0 <= tn <= u32::MAX,
        ;
    }
    let rd: u128 = (l as u128) * (lh as u128);
    let b: u128 = (tn as u128) * rd;
    proof {
        assert(a <= total as int * cw as int * td as int) by (nonlinear_arith)
            requires
                a == q as int * cw as int * td as int,
                1 <= q <= total,
                cw >= 1,
                td >= 1,
        ;
        assert(rd <= total as int * lh as int) by (nonlinear_arith)
            requires
                rd == l as int * lh as int,
                1 <= l <= total,
                lh >= 1,
        ;
        assert(b <= tn as int * (total as int * lh as int)) by (nonlinear_arith)
            requires
                b == tn as int * rd,
                rd <= total as int * lh as int,
        ;
    }
    let d: u128 = if a >= b {
        a - b
    } else {
        b - a
    };
    (d, rd)
}

/// Whether the layout with `a` lines per column comes strictly closer to
/// the target ratio than the one with `b`.
fn dist_less(total: u32, cw: u32, lh: u32, tn: u32, td: u32, a: u32, b: u32) -> (r: bool)
    requires
        total >= 1,
        cw >= 1,
        lh >= 1,
        td >= 1,
        1 <= a <= total,
        1 <= b <= total,
        layout_inputs_bounded(total as int, cw as int, lh as int, tn as int, td as int),
    ensures
        r == dist_lt(total as int, cw as int, lh as int, tn as int, td as int, a as int, b as int),
{
    let (da, ra) = dist_parts(total, cw, lh, tn, td, a);
    let (db, rb) = dist_parts(total, cw, lh, tn, td, b);
    proof {
        let bound = total as int * cw as int * td as int + tn as int * (total as int * lh as int);
        let rbound = total as int * lh as int;
        assert(da * rb < u128::MAX && db * ra < u128::MAX) by (nonlinear_arith)
            requires
                0 <= da <= bound,
                0 <= db <= bound,
                0 <= ra <= rbound,
                0 <= rb <= rbound,
                bound * rbound < u128::MAX,
        ;
    }
    da * rb < db * ra
}

/// The smallest candidate value above `cur`, if any exists up to `total`.
/// Without `force_full_columns` that is simply the next value; with it,
/// the next value at which the required column count changes.
fn next_candidate(total: u32, force: bool, cur: u32) -> (out: Option<u32>)
    requires
        total >= 1,
        1 <= cur <= total,
    ensures
        match out {
            Some(nx) => {
                &&& cur < nx <= total
                &&& candidate(total as int, force, nx as int)
                &&& forall|m: int|
                    cur < m < nx ==> !candidate(total as int, force, m)
            },
            None => forall|m: int| cur < m <= total ==> !candidate(total as int, force, m),
        },
{
    if !force {
        if cur < total {
            Some(cur + 1)
        } else {
            None
        }
    } else {
        let rc_cur: u64 = required_columns_for(total, cur);
        let mut j: u32 = cur;
        loop
            invariant
                total >= 1,
                force,
                1 <= cur <= j <= total,
                rc_cur == spec_required_columns(total as int, cur as int),
                forall|m: int|
                    cur <= m <= j ==> spec_required_columns(total as int, m) == rc_cur,
            decreases total - j,
        {
            if j >= total {
                assert forall|m: int| cur < m <= total implies !candidate(
                    total as int,
                    force,
                    m,
                ) by {
                    assert(spec_required_columns(total as int, m) == rc_cur);
                    assert(spec_required_columns(total as int, m - 1) == rc_cur);
                }
                return None;
            }
            let nx = j + 1;
            let rc_nx: u64 = required_columns_for(total, nx);
            if rc_nx != rc_cur {
                assert(candidate(total as int, force, nx as int));
                assert forall|m: int| cur < m < nx implies !candidate(
                    total as int,
                    force,
                    m,
                ) by {
                    assert(spec_required_columns(total as int, m) == rc_cur);
                    assert(spec_required_columns(total as int, m - 1) == rc_cur);
                }
                return Some(nx);
            }
            j = nx;
        }
    }
}

/// Chooses the number of lines per column, and with it the number of
/// columns, whose achievable aspect ratio `required_columns * column_width
/// / (lines_per_column * line_height)` comes closest to the target ratio
/// `target_num / target_den`, among all candidate values; with
/// `force_full_columns` only values at which the column count changes
/// count as candidates.
pub fn determine_dimensions(
    target_num: u32,
    target_den: u32,
    column_width: u32,
    total_line_count: u32,
    line_height: u32,
    force_full_columns: bool,
) -> (out: Layout)
    requires
        total_line_count >= 1,
        column_width >= 1,
        line_height >= 1,
        target_den >= 1,
        layout_inputs_bounded(
            total_line_count as int,
            column_width as int,
            line_height as int,
            target_num as int,
            target_den as int,
        ),
    ensures
        1 <= out.lines_per_column <= total_line_count,
        1 <= out.required_columns <= total_line_count,
        out.required_columns == spec_required_columns(
            total_line_count as int,
            out.lines_per_column as int,
        ),
        out.required_columns as int * out.lines_per_column as int >= total_line_count,
        candidate(total_line_count as int, force_full_columns, out.lines_per_column as int),
        forall|k: int|
            1 <= k < out.lines_per_column && candidate(total_line_count as int, force_full_columns, k)
                ==> dist_lt(
                total_line_count as int,
                column_width as int,
                line_height as int,
                target_num as int,
                target_den as int,
                out.lines_per_column as int,
                k,
            ),
        forall|k: int|
            1 <= k <= total_line_count && candidate(total_line_count as int, force_full_columns, k)
                ==> dist_le(
                total_line_count as int,
                column_width as int,
                line_height as int,
                target_num as int,
                target_den as int,
                out.lines_per_column as int,
                k,
            ),
{
    let total = total_line_count;
    let cw = column_width;
    let lh = line_height;
    let tn = target_num;
    let td = target_den;
    let ghost ti = total as int;
    let ghost cwi = cw as int;
    let ghost lhi = lh as int;
    let ghost tni = tn as int;
    let ghost tdi = td as int;
    let mut cur: u32 = 1;
    loop
        invariant
            total >= 1,
            cw >= 1,
            lh >= 1,
            td >= 1,
            1 <= cur <= total,
            layout_inputs_bounded(ti, cwi, lhi, tni, tdi),
            ti == total as int && cwi == cw as int && lhi == lh as int && tni == tn as int
                && tdi == td as int,
            candidate(ti, force_full_columns, cur as int),
            forall|k: int|
                1 <= k <= cur && candidate(ti, force_full_columns, k) ==> dist_le(
                    ti,
                    cwi,
                    lhi,
                    tni,
                    tdi,
                    cur as int,
                    k,
                ),
            forall|k: int|
                1 <= k < cur && candidate(ti, force_full_columns, k) ==> dist_lt(
                    ti,
                    cwi,
                    lhi,
                    tni,
                    tdi,
                    cur as int,
                    k,
                ),
        ensures
            1 <= cur <= total,
            candidate(ti, force_full_columns, cur as int),
            forall|k: int|
                1 <= k <= ti && candidate(ti, force_full_columns, k) ==> dist_le(
                    ti,
                    cwi,
                    lhi,
                    tni,
                    tdi,
                    cur as int,
                    k,
                ),
            forall|k: int|
                1 <= k < cur && candidate(ti, force_full_columns, k) ==> dist_lt(
                    ti,
                    cwi,
                    lhi,
                    tni,
                    tdi,
                    cur as int,
                    k,
                ),
        decreases total - cur,
    {
        match next_candidate(total, force_full_columns, cur) {
            None => {
                assert forall|k: int|
                    1 <= k <= ti && candidate(ti, force_full_columns, k) implies dist_le(
                    ti,
                    cwi,
                    lhi,
                    tni,
                    tdi,
                    cur as int,
                    k,
                ) by {
                    if k > cur as int {
                        assert(!candidate(ti, force_full_columns, k));
                    }
                }
                break ;
            },
            Some(nx) => {
                if dist_less(total, cw, lh, tn, td, nx, cur) {
                    assert forall|k: int|
                        1 <= k <= nx && candidate(ti, force_full_columns, k) implies dist_le(
                        ti,
                        cwi,
                        lhi,
                        tni,
                        tdi,
                        nx as int,
                        k,
                    ) by {
                        if k == nx as int {
                        } else if k <= cur as int {
                            assert(dist_le(ti, cwi, lhi, tni, tdi, cur as int, k));
                            assert(dist_le(ti, cwi, lhi, tni, tdi, nx as int, cur as int));
                            lemma_dist_le_trans(ti, cwi, lhi, tni, tdi, nx as int, cur as int, k);
                        } else {
                            assert(!candidate(ti, force_full_columns, k));
                        }
                    }
                    assert forall|k: int|
                        1 <= k < nx && candidate(ti, force_full_columns, k) implies dist_lt(
                        ti,
                        cwi,
                        lhi,
                        tni,
                        tdi,
                        nx as int,
                        k,
                    ) by {
                        if k <= cur as int {
                            assert(dist_le(ti, cwi, lhi, tni, tdi, cur as int, k));
                            lemma_dist_lt_le_trans(ti, cwi, lhi, tni, tdi, nx as int, cur as int, k);
                        } else {
                            assert(!candidate(ti, force_full_columns, k));
                        }
                    }
                    cur = nx;
                } else {
                    assert forall|k: int|
                        1 <= k <= ti && candidate(ti, force_full_columns, k) implies dist_le(
                        ti,
                        cwi,
                        lhi,
                        tni,
                        tdi,
                        cur as int,
                        k,
                    ) by {
                        if k > cur as int {
                            if k < nx as int {
                                assert(!candidate(ti, force_full_columns, k));
                            } else {
                                lemma_tail(ti, cwi, lhi, tni, tdi, cur as int, nx as int, k);
                            }
                        }
                    }
                    break ;
                }
            },
        }
    }
    let rc: u64 = required_columns_for(total, cur);
    proof {
        lemma_ceil_div_props(ti, cur as int);
    }
    Layout { lines_per_column: cur, required_columns: rc as u32 }
}

} // verus!
