//! What the pair of rules integrates exactly: straight lines; and how the half line is seen from
//! the unit interval.
use crate::exact::{
    decimal_exact, exact, lemma_half, lemma_literal, lemma_multiple, lemma_sign_of_factor,
    lemma_square_of_product, lemma_times_add, lemma_times_assoc, lemma_times_comm, lemma_times_neg,
    lemma_times_not_negative, lemma_times_positive, lemma_times_sub, lemma_times_unit, power_of_ten,
    times,
};
use crate::number::{decimal_of, frac, is_finite_of, magnitude, num, sum, Elementary, Number};
use crate::quadrature::{
    g7_weight, gk15_panel_spec, gk_node, gk_weight, node_values, on_unit_interval, Tangent, G7_IDX,
    G7_WEIGHTS, GK_NODES, GK_WEIGHTS,
};
use vstd::prelude::*;
use vstd::std_specs::cmp::PartialOrdIs;
use vstd::std_specs::ops::{AddSpec, DivSpec, MulSpec, SubSpec};

verus! {

/// The nodes lie in pairs on either side of the middle, with the same weight in the rules that
/// take them.
pub proof fn law_rules_are_balanced(k: int)
    requires
        1 <= k <= 7,
    ensures
        GK_NODES[0] == 0,
        GK_NODES[2 * k] == -GK_NODES[2 * k - 1],
        GK_WEIGHTS[2 * k] == GK_WEIGHTS[2 * k - 1],
        k <= 3 ==> G7_WEIGHTS[2 * k] == G7_WEIGHTS[2 * k - 1],
        k <= 3 ==> G7_IDX[2 * k] == 4 * k && G7_IDX[2 * k - 1] == 4 * k - 1,
{
}

/// Ten to the sixteenth times a decimal of sixteen places.
proof fn lemma_sixteen_places<T: Number, M: Elementary<T>>(m: M, v: spec_fn(T) -> real, d: int)
    requires
        decimal_exact(m, v),
        i64::MIN <= d <= i64::MAX,
    ensures
        10000000000000000real * v(decimal_of::<T, M>(m, d, -16)) == d as real,
{
    let x = v(decimal_of::<T, M>(m, d, -16));
    reveal_with_fuel(power_of_ten, 17);
    assert(power_of_ten(16) == 10000000000000000real);
    assert(times(x, power_of_ten((-(-16int)) as nat)) == d as real);
    lemma_literal(10000000000000000real, x);
}

/// The samples of a line at two nodes on either side of the middle, with the same weight, add up to
/// twice the weight times the value in the middle.
proof fn lemma_pair(w: real, base: real, slope: real, x: real, y: real)
    requires
        y == -x,
    ensures
        times(w, base + times(slope, x)) + times(w, base + times(slope, y)) == 2real * times(
            w,
            base,
        ),
{
    lemma_times_neg(slope, x);
    lemma_times_add(w, base, times(slope, x));
    lemma_times_add(w, base, times(slope, y));
    lemma_times_neg(w, times(slope, x));
}

/// The samples of a line, at the nodes of the Kronrod rule.
pub open spec fn samples_line<T: Number, M: Elementary<T>>(
    m: M,
    v: spec_fn(T) -> real,
    s: Seq<T>,
    base: real,
    slope: real,
) -> bool {
    &&& s.len() == 15
    &&& forall|i: int|
        0 <= i < 15 ==> v(#[trigger] s[i]) == base + times(slope, v(gk_node::<T, M>(m, i)))
}

/// The samples at two nodes on either side of the middle, under a weight.
proof fn lemma_node_pair<T: Number, M: Elementary<T>>(
    m: M,
    v: spec_fn(T) -> real,
    s: Seq<T>,
    base: real,
    slope: real,
    w: real,
    k: int,
)
    requires
        decimal_exact(m, v),
        samples_line::<T, M>(m, v, s, base, slope),
        1 <= k <= 7,
    ensures
        times(w, v(s[2 * k - 1])) + times(w, v(s[2 * k])) == 2real * times(w, base),
{
    law_rules_are_balanced(k);
    let (p, q) = (2 * k - 1, 2 * k);
    lemma_sixteen_places::<T, M>(m, v, GK_NODES[p] as int);
    lemma_sixteen_places::<T, M>(m, v, GK_NODES[q] as int);
    let (x, y) = (v(gk_node::<T, M>(m, p)), v(gk_node::<T, M>(m, q)));
    assert(y == -x);
    assert(v(s[p]) == base + times(slope, x));
    assert(v(s[q]) == base + times(slope, y));
    lemma_pair(w, base, slope, x, y);
}

/// The sample in the middle.
proof fn lemma_middle<T: Number, M: Elementary<T>>(
    m: M,
    v: spec_fn(T) -> real,
    s: Seq<T>,
    base: real,
    slope: real,
)
    requires
        decimal_exact(m, v),
        samples_line::<T, M>(m, v, s, base, slope),
    ensures
        v(s[0]) == base,
{
    law_rules_are_balanced(1);
    lemma_sixteen_places::<T, M>(m, v, 0);
    assert(gk_node::<T, M>(m, 0) == decimal_of::<T, M>(m, 0, -16));
    lemma_times_unit(slope);
}

/// The sum of the Kronrod samples of a line is twice its value in the middle.
proof fn lemma_kronrod_sum<T: Number, M: Elementary<T>>(
    m: M,
    v: spec_fn(T) -> real,
    s: Seq<T>,
    base: real,
    slope: real,
    f: spec_fn(int) -> T,
)
    requires
        exact(v),
        decimal_exact(m, v),
        samples_line::<T, M>(m, v, s, base, slope),
        forall|i: int|
            0 <= i < 15 ==> #[trigger] f(i) == gk_weight::<T, M>(m, i).mul_spec(s[i]),
    ensures
        v(sum(f, 15)) == 2real * base,
{
    let w = |i: int| v(gk_weight::<T, M>(m, i));
    assert forall|i: int| 0 <= i < 15 implies 10000000000000000real * #[trigger] w(i) == (
    GK_WEIGHTS[i] as int) as real by {
        lemma_sixteen_places::<T, M>(m, v, GK_WEIGHTS[i] as int);
    }
    assert forall|i: int| 0 <= i < 15 implies v(#[trigger] f(i)) == times(w(i), v(s[i])) by {}
    lemma_middle::<T, M>(m, v, s, base, slope);
    lemma_node_pair::<T, M>(m, v, s, base, slope, w(1), 1);
    lemma_node_pair::<T, M>(m, v, s, base, slope, w(3), 2);
    lemma_node_pair::<T, M>(m, v, s, base, slope, w(5), 3);
    lemma_node_pair::<T, M>(m, v, s, base, slope, w(7), 4);
    lemma_node_pair::<T, M>(m, v, s, base, slope, w(9), 5);
    lemma_node_pair::<T, M>(m, v, s, base, slope, w(11), 6);
    lemma_node_pair::<T, M>(m, v, s, base, slope, w(13), 7);
    assert(w(2) == w(1) && w(4) == w(3) && w(6) == w(5) && w(8) == w(7));
    assert(w(10) == w(9) && w(12) == w(11) && w(14) == w(13));
    assert(v(sum(f, 15)) == v(f(0)) + v(f(1)) + v(f(2)) + v(f(3)) + v(f(4)) + v(f(5)) + v(f(6)) + v(
        f(7),
    ) + v(f(8)) + v(f(9)) + v(f(10)) + v(f(11)) + v(f(12)) + v(f(13)) + v(f(14))) by {
        reveal_with_fuel(sum, 16);
    }
    // The weights add up to two.
    let t1 = w(1) + w(3);
    let t2 = t1 + w(5);
    let t3 = t2 + w(7);
    let t4 = t3 + w(9);
    let t5 = t4 + w(11);
    let t6 = t5 + w(13);
    lemma_times_add(base, w(1), w(3));
    lemma_times_add(base, t1, w(5));
    lemma_times_add(base, t2, w(7));
    lemma_times_add(base, t3, w(9));
    lemma_times_add(base, t4, w(11));
    lemma_times_add(base, t5, w(13));
    lemma_multiple(2real, t6, base);
    lemma_times_add(base, w(0), 2real * t6);
    assert(w(0) + 2real * t6 == 2real);
    lemma_literal(2real, base);
}

/// The sum of the Gauss samples of a line is twice its value in the middle, but for what its
/// weights lack of two in the last place.
proof fn lemma_gauss_sum<T: Number, M: Elementary<T>>(
    m: M,
    v: spec_fn(T) -> real,
    s: Seq<T>,
    base: real,
    slope: real,
    f: spec_fn(int) -> T,
)
    requires
        exact(v),
        decimal_exact(m, v),
        samples_line::<T, M>(m, v, s, base, slope),
        forall|j: int|
            0 <= j < 7 ==> #[trigger] f(j) == g7_weight::<T, M>(m, j).mul_spec(
                s[G7_IDX[j] as int],
            ),
    ensures
        v(sum(f, 7)) == 2real * base - 2real * base / 10000000000000000real,
{
    let w = |j: int| v(g7_weight::<T, M>(m, j));
    assert forall|j: int| 0 <= j < 7 implies 10000000000000000real * #[trigger] w(j) == (
    G7_WEIGHTS[j] as int) as real by {
        lemma_sixteen_places::<T, M>(m, v, G7_WEIGHTS[j] as int);
    }
    assert forall|j: int| 0 <= j < 7 implies v(#[trigger] f(j)) == times(
        w(j),
        v(s[G7_IDX[j] as int]),
    ) by {}
    lemma_middle::<T, M>(m, v, s, base, slope);
    lemma_node_pair::<T, M>(m, v, s, base, slope, w(1), 2);
    lemma_node_pair::<T, M>(m, v, s, base, slope, w(3), 4);
    lemma_node_pair::<T, M>(m, v, s, base, slope, w(5), 6);
    assert(w(2) == w(1) && w(4) == w(3) && w(6) == w(5));
    assert(v(sum(f, 7)) == v(f(0)) + v(f(1)) + v(f(2)) + v(f(3)) + v(f(4)) + v(f(5)) + v(f(6))) by {
        reveal_with_fuel(sum, 8);
    }
    let t1 = w(1) + w(3);
    let t2 = t1 + w(5);
    lemma_times_add(base, w(1), w(3));
    lemma_times_add(base, t1, w(5));
    lemma_multiple(2real, t2, base);
    lemma_times_add(base, w(0), 2real * t2);
    let all = 19999999999999998real / 10000000000000000real;
    assert(w(0) + 2real * t2 == all);
    lemma_literal(all, base);
}

/// A panel integrates straight lines exactly: its value is the length of the interval times the
/// value of the line in the middle. The error that it reports is a unit in the sixteenth place of
/// that.
pub proof fn law_panel_exact_on_lines<T: Number, W: Tangent<T, M>, M: Elementary<T>>(
    m: M,
    v: spec_fn(T) -> real,
    f: spec_fn(T) -> (T, W),
    a: T,
    b: T,
    level: real,
    slope: real,
)
    requires
        exact(v),
        decimal_exact(m, v),
        forall|x: T| v((#[trigger] f(x)).0) == level + times(slope, v(x)),
        v(a) <= v(b),
    ensures
        ({
            let p = gk15_panel_spec(m, f, a, b);
            let middle = (v(a) + v(b)) / 2real;
            &&& v(p.val) == times(v(b) - v(a), level + times(slope, middle))
            &&& 10000000000000000real * v(p.err) == if v(p.val) < 0real {
                -v(p.val)
            } else {
                v(p.val)
            }
            &&& p.a == a && p.b == b
        }),
{
    let p = gk15_panel_spec(m, f, a, b);
    let (ct, ht) = (
        frac::<T>(1, 2).mul_spec(a.add_spec(b)),
        frac::<T>(1, 2).mul_spec(b.sub_spec(a)),
    );
    lemma_half::<T>(v);
    lemma_literal(1real / 2real, v(a) + v(b));
    lemma_literal(1real / 2real, v(b) - v(a));
    let (c, h) = (v(ct), v(ht));
    let base = level + times(slope, c);
    let fv = node_values(m, f, a, b);
    let s = Seq::new(15, |i: int| fv[i].0);
    assert forall|i: int| 0 <= i < 15 implies v(#[trigger] s[i]) == base + times(
        times(slope, h),
        v(gk_node::<T, M>(m, i)),
    ) by {
        let node = gk_node::<T, M>(m, i);
        let at = ct.add_spec(ht.mul_spec(node));
        assert(v(f(at).0) == level + times(slope, v(at)));
        lemma_times_add(slope, c, times(h, v(node)));
        lemma_times_assoc(slope, h, v(node));
    }
    let gk = |i: int| gk_weight::<T, M>(m, i).mul_spec(fv[i].0);
    let gg = |j: int| g7_weight::<T, M>(m, j).mul_spec(fv[G7_IDX[j] as int].0);
    lemma_kronrod_sum(m, v, s, base, times(slope, h), gk);
    lemma_gauss_sum(m, v, s, base, times(slope, h), gg);
    let (k, g) = (sum(gk, 15), sum(gg, 7));
    assert(v(k) == 2real * base);
    let size = if base < 0real {
        -base
    } else {
        base
    };
    let unit = 2real / 10000000000000000real;
    assert(v(magnitude(k.sub_spec(g))) == unit * size);
    lemma_multiple(unit, size, h);
    lemma_multiple(2real, base, h);
    lemma_multiple(1real / 2real, base, v(b) - v(a));
    lemma_multiple(1real / 2real, size, v(b) - v(a));
    lemma_times_comm(base, v(b) - v(a));
    lemma_times_neg(base, v(b) - v(a));
    lemma_times_not_negative(size, v(b) - v(a));
    assert(h == (1real / 2real) * (v(b) - v(a)));
}

/// The half line is seen from the unit interval without distortion: an integrand that falls with
/// the square of one more than its argument is constant there, with the same integral. Beyond the
/// ends it is zero.
pub proof fn law_half_line_on_unit_interval<T: Number, W: Tangent<T, M>, M: Elementary<T>>(
    m: M,
    v: spec_fn(T) -> real,
    f: spec_fn(T) -> (T, W),
    t: T,
    c: real,
)
    requires
        exact(v),
        forall|x: T|
            v(x) > 0real ==> times(v((#[trigger] f(x)).0), times(1real + v(x), 1real + v(x))) == c,
        forall|x: T| is_finite_of(m, x),
        forall|w: W| #[trigger] w.usable_spec(m),
        v(decimal_of::<T, M>(m, 1, -12)) > 0real,
    ensures
        ({
            let r = v(on_unit_interval(m, &f, t).0);
            let least = v(decimal_of::<T, M>(m, 1, -12));
            &&& v(t) > 0real && times(1real + least, v(t)) <= 1real ==> r == c
            &&& v(t) <= 0real || v(t) >= 1real ==> r == 0real
        }),
{
    let ut = num::<T>(1).sub_spec(t).div_spec(t);
    let (x, u) = (v(t), v(ut));
    let least_t = decimal_of::<T, M>(m, 1, -12);
    let least = v(least_t);
    assert(t.is_le(&num::<T>(0)) == (x <= 0real));
    assert(ut.is_lt(&least_t) == (u < least));
    if x > 0real {
        assert(times(u, x) == 1real - x);
        lemma_times_add(x, 1real, u);
        lemma_times_unit(x);
        assert(times(1real + u, x) == 1real);
        lemma_times_add(x, 1real, least);
        lemma_times_sub(x, u, least);
        lemma_times_comm(x, u - least);
        lemma_times_positive(least, x);
        if times(1real + least, x) <= 1real {
            assert(x < 1real);
            assert(times(x, u - least) >= 0real);
            lemma_sign_of_factor(x, u - least);
            let y = v(f(ut).0);
            let tt = t.mul_spec(t);
            lemma_times_positive(x, x);
            let r = v(f(ut).0.div_spec(tt));
            assert(times(r, times(x, x)) == y);
            let w = 1real + u;
            lemma_times_assoc(r, times(x, x), times(w, w));
            lemma_square_of_product(x, w);
            lemma_times_comm(x, w);
            lemma_times_unit(1real);
            lemma_times_unit(r);
            assert(r == c);
        }
        if x >= 1real && u >= least {
            lemma_times_not_negative(x, u - least);
            assert(false);
        }
    }
}

} // verus!
