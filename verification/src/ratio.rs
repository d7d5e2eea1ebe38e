//! The mathematical model of probabilities: exact fractions of
//! unbounded integers, with the algebraic facts the library's laws are
//! built on.  Everything in this module is specification-only.

use vstd::arithmetic::mul::lemma_mul_is_distributive_add_other_way;
use vstd::prelude::*;

verus! {

/// The mathematical value of a [`Probability`]: a fraction of two
/// unbounded integers.  This type exists only in specifications.
pub struct Ratio {
    pub num: int,
    pub den: int,
}

/// A ratio denotes a nonnegative rational number: the denominator is
/// positive and the numerator nonnegative.
pub open spec fn rat_wf(a: Ratio) -> bool {
    a.den >= 1 && a.num >= 0
}

/// The additive identity, `0 / 1`.
#[verifier::inline]
pub open spec fn rat_zero() -> Ratio {
    Ratio { num: 0, den: 1 }
}

/// The multiplicative identity, `1 / 1`.
#[verifier::inline]
pub open spec fn rat_one() -> Ratio {
    Ratio { num: 1, den: 1 }
}

/// Two ratios denote the same rational number (cross-multiplication).
pub open spec fn rat_eq(a: Ratio, b: Ratio) -> bool {
    a.num * b.den == b.num * a.den
}

/// The sum of two ratios.  When the denominators agree the sum keeps
/// that denominator, exactly as the executable addition does; otherwise
/// the fractions are brought to the product denominator.
pub open spec fn rat_add(a: Ratio, b: Ratio) -> Ratio {
    if a.den == b.den {
        Ratio { num: a.num + b.num, den: a.den }
    } else {
        Ratio { num: a.num * b.den + b.num * a.den, den: a.den * b.den }
    }
}

/// The difference of two ratios, mirroring [`rat_add`].
pub open spec fn rat_sub(a: Ratio, b: Ratio) -> Ratio {
    if a.den == b.den {
        Ratio { num: a.num - b.num, den: a.den }
    } else {
        Ratio { num: a.num * b.den - b.num * a.den, den: a.den * b.den }
    }
}

/// The product of two ratios.
pub open spec fn rat_mul(a: Ratio, b: Ratio) -> Ratio {
    Ratio { num: a.num * b.num, den: a.den * b.den }
}

/// The quotient of two ratios (defined when `b` is nonzero).
pub open spec fn rat_div(a: Ratio, b: Ratio) -> Ratio {
    Ratio { num: a.num * b.den, den: a.den * b.num }
}

/// The ratio scaled by a whole number.
pub open spec fn rat_scale(v: int, a: Ratio) -> Ratio {
    Ratio { num: v * a.num, den: a.den }
}

/// The ratio is representable by a [`Probability`]: both components fit
/// in a `u64` and the denominator is positive.
pub open spec fn rat_fits(a: Ratio) -> bool {
    0 <= a.num <= u64::MAX && 1 <= a.den <= u64::MAX
}

/// The sum over the product denominator, regardless of whether the
/// denominators agree; used to reason about [`rat_add`] uniformly.
spec fn rat_add_cross(a: Ratio, b: Ratio) -> Ratio {
    Ratio { num: a.num * b.den + b.num * a.den, den: a.den * b.den }
}

/// The sum of well-formed ratios is well-formed.
pub proof fn lemma_rat_add_wf(a: Ratio, b: Ratio)
    requires
        rat_wf(a),
        rat_wf(b),
    ensures
        rat_wf(rat_add(a, b)),
{
    assert(a.den * b.den >= 1 && a.num * b.den >= 0 && b.num * a.den >= 0) by (nonlinear_arith)
        requires
            a.den >= 1 && b.den >= 1 && a.num >= 0 && b.num >= 0,
    ;
}

/// The product of well-formed ratios is well-formed.
pub proof fn lemma_rat_mul_wf(a: Ratio, b: Ratio)
    requires
        rat_wf(a),
        rat_wf(b),
    ensures
        rat_wf(rat_mul(a, b)),
{
    assert(a.den * b.den >= 1 && a.num * b.num >= 0) by (nonlinear_arith)
        requires
            a.den >= 1 && b.den >= 1 && a.num >= 0 && b.num >= 0,
    ;
}

/// The quotient by a nonzero well-formed ratio is well-formed.
pub proof fn lemma_rat_div_wf(a: Ratio, b: Ratio)
    requires
        rat_wf(a),
        rat_wf(b),
        b.num >= 1,
    ensures
        rat_wf(rat_div(a, b)),
{
    assert(a.den * b.num >= 1 && a.num * b.den >= 0) by (nonlinear_arith)
        requires
            a.den >= 1 && b.den >= 1 && a.num >= 0 && b.num >= 1,
    ;
}

/// Denoting the same rational number is transitive (over well-formed
/// ratios); with its evident reflexivity and symmetry, [`rat_eq`] is an
/// equivalence relation.
pub proof fn lemma_rat_eq_trans(a: Ratio, b: Ratio, c: Ratio)
    requires
        rat_wf(a),
        rat_wf(b),
        rat_wf(c),
        rat_eq(a, b),
        rat_eq(b, c),
    ensures
        rat_eq(a, c),
{
    assert(a.num * c.den == c.num * a.den) by (nonlinear_arith)
        requires
            a.num * b.den == b.num * a.den,
            b.num * c.den == c.num * b.den,
            b.den >= 1,
    ;
}

/// Zero is the additive identity, exactly (not merely up to
/// [`rat_eq`]).
pub proof fn lemma_rat_add_zero(a: Ratio)
    requires
        rat_wf(a),
    ensures
        rat_add(rat_zero(), a) == a,
        rat_add(a, rat_zero()) == a,
{
    assert(rat_add(rat_zero(), a) == a);
    assert(rat_add(a, rat_zero()) == a);
}

/// Addition of ratios is commutative, exactly.
pub proof fn lemma_rat_add_comm(a: Ratio, b: Ratio)
    ensures
        rat_add(a, b) == rat_add(b, a),
{
}

/// Addition agrees with the sum over the product denominator.
proof fn lemma_rat_add_cross_eq(a: Ratio, b: Ratio)
    requires
        rat_wf(a),
        rat_wf(b),
    ensures
        rat_eq(rat_add(a, b), rat_add_cross(a, b)),
        rat_wf(rat_add_cross(a, b)),
{
    lemma_rat_add_wf(a, b);
    if a.den == b.den {
        assert((a.num + b.num) * (a.den * b.den) == (a.num * b.den + b.num * a.den)
            * a.den) by (nonlinear_arith)
            requires
                a.den == b.den,
        ;
    }
    assert(a.den * b.den >= 1 && a.num * b.den + b.num * a.den >= 0) by (nonlinear_arith)
        requires
            a.den >= 1 && b.den >= 1 && a.num >= 0 && b.num >= 0,
    ;
}

/// Multiplication respects [`rat_eq`].
pub proof fn lemma_rat_mul_congruence(a: Ratio, b: Ratio, x: Ratio, y: Ratio)
    requires
        rat_eq(a, x),
        rat_eq(b, y),
    ensures
        rat_eq(rat_mul(a, b), rat_mul(x, y)),
{
    assert((a.num * b.num) * (x.den * y.den) == (x.num * y.num) * (a.den
        * b.den)) by (nonlinear_arith)
        requires
            a.num * x.den == x.num * a.den,
            b.num * y.den == y.num * b.den,
    ;
}

/// Multiplying by a ratio equal to one leaves the value unchanged.
pub proof fn lemma_rat_mul_one(a: Ratio, x: Ratio)
    requires
        rat_eq(x, rat_one()),
    ensures
        rat_eq(rat_mul(a, x), a),
        rat_eq(rat_mul(x, a), a),
{
    assert(x.num == x.den);
    assert((a.num * x.num) * a.den == a.num * (a.den * x.den) && (x.num * a.num) * a.den == a.num
        * (x.den * a.den)) by (nonlinear_arith)
        requires
            x.num == x.den,
    ;
}

/// Multiplying a ratio equal to zero gives a ratio equal to zero.
pub proof fn lemma_rat_mul_zero(a: Ratio, x: Ratio)
    requires
        rat_eq(x, rat_zero()),
    ensures
        rat_eq(rat_mul(a, x), rat_zero()),
        rat_eq(rat_mul(x, a), rat_zero()),
{
    assert(a.num * x.num == 0 && x.num * a.num == 0) by (nonlinear_arith)
        requires
            x.num == 0,
    ;
}

/// A nonzero ratio divided by itself equals one.
pub proof fn lemma_rat_div_self(f: Ratio)
    requires
        rat_wf(f),
        f.num >= 1,
    ensures
        rat_eq(rat_div(f, f), rat_one()),
{
    assert((f.num * f.den) * 1 == 1 * (f.den * f.num)) by (nonlinear_arith);
}






/// Cross-multiplied sums agree when each summand pair cross-multiplies
/// equal: the arithmetic core of addition's congruence.
proof fn lemma_cross_sum_eq(
    an: int,
    ad: int,
    bn: int,
    bd: int,
    xn: int,
    xd: int,
    yn: int,
    yd: int,
)
    requires
        an * xd == xn * ad,
        bn * yd == yn * bd,
    ensures
        (an * bd + bn * ad) * (xd * yd) == (xn * yd + yn * xd) * (ad * bd),
{
    lemma_mul_is_distributive_add_other_way(xd * yd, an * bd, bn * ad);
    lemma_mul_is_distributive_add_other_way(ad * bd, xn * yd, yn * xd);
    assert((an * bd) * (xd * yd) == (xn * yd) * (ad * bd)) by (nonlinear_arith)
        requires
            an * xd == xn * ad,
    ;
    assert((bn * ad) * (xd * yd) == (yn * xd) * (ad * bd)) by (nonlinear_arith)
        requires
            bn * yd == yn * bd,
    ;
}

/// Addition respects [`rat_eq`]: replacing either summand by an equal
/// ratio gives an equal sum.
pub proof fn lemma_rat_add_congruence(a: Ratio, b: Ratio, x: Ratio, y: Ratio)
    requires
        rat_wf(a),
        rat_wf(b),
        rat_wf(x),
        rat_wf(y),
        rat_eq(a, x),
        rat_eq(b, y),
    ensures
        rat_eq(rat_add(a, b), rat_add(x, y)),
{
    lemma_rat_add_cross_eq(a, b);
    lemma_rat_add_cross_eq(x, y);
    lemma_cross_sum_eq(a.num, a.den, b.num, b.den, x.num, x.den, y.num, y.den);
    assert(rat_eq(rat_add_cross(a, b), rat_add_cross(x, y)));
    lemma_rat_add_wf(a, b);
    lemma_rat_add_wf(x, y);
    lemma_rat_eq_trans(rat_add(a, b), rat_add_cross(a, b), rat_add_cross(x, y));
    lemma_rat_eq_trans(rat_add(a, b), rat_add_cross(x, y), rat_add(x, y));
}

/// Addition of ratios is associative, up to [`rat_eq`].
pub proof fn lemma_rat_add_assoc(a: Ratio, b: Ratio, c: Ratio)
    requires
        rat_wf(a),
        rat_wf(b),
        rat_wf(c),
    ensures
        rat_eq(rat_add(rat_add(a, b), c), rat_add(a, rat_add(b, c))),
{
    lemma_rat_add_cross_eq(a, b);
    lemma_rat_add_cross_eq(b, c);
    lemma_rat_add_wf(a, b);
    lemma_rat_add_wf(b, c);
    lemma_rat_add_wf(rat_add(a, b), c);
    lemma_rat_add_wf(a, rat_add(b, c));
    lemma_rat_add_congruence(rat_add(a, b), c, rat_add_cross(a, b), c);
    lemma_rat_add_congruence(a, rat_add(b, c), a, rat_add_cross(b, c));
    lemma_rat_add_cross_eq(rat_add_cross(a, b), c);
    lemma_rat_add_cross_eq(a, rat_add_cross(b, c));
    let l = rat_add_cross(rat_add_cross(a, b), c);
    let r = rat_add_cross(a, rat_add_cross(b, c));
    assert(rat_eq(l, r)) by {
        assert(l.num == r.num && l.den == r.den) by {
            lemma_mul_is_distributive_add_other_way(c.den, a.num * b.den, b.num * a.den);
            lemma_mul_is_distributive_add_other_way(a.den, b.num * c.den, c.num * b.den);
            assert((a.num * b.den) * c.den == a.num * (b.den * c.den)) by (nonlinear_arith);
            assert((b.num * a.den) * c.den == (b.num * c.den) * a.den) by (nonlinear_arith);
            assert(c.num * (a.den * b.den) == (c.num * b.den) * a.den) by (nonlinear_arith);
            assert((a.den * b.den) * c.den == a.den * (b.den * c.den)) by (nonlinear_arith);
        }
    }
    assert(rat_wf(l) && rat_wf(r)) by {
        lemma_rat_add_cross_eq(rat_add_cross(a, b), c);
        lemma_rat_add_cross_eq(a, rat_add_cross(b, c));
    }
    lemma_rat_add_wf(rat_add_cross(a, b), c);
    lemma_rat_add_wf(a, rat_add_cross(b, c));
    lemma_rat_eq_trans(
        rat_add(rat_add(a, b), c),
        rat_add(rat_add_cross(a, b), c),
        rat_add_cross(rat_add_cross(a, b), c),
    );
    lemma_rat_eq_trans(rat_add(rat_add(a, b), c), l, r);
    lemma_rat_eq_trans(rat_add(rat_add(a, b), c), r, rat_add(a, rat_add_cross(b, c)));
    lemma_rat_eq_trans(
        rat_add(rat_add(a, b), c),
        rat_add(a, rat_add_cross(b, c)),
        rat_add(a, rat_add(b, c)),
    );
}

/// Multiplication distributes over addition, up to [`rat_eq`].
pub proof fn lemma_rat_mul_dist_add(p: Ratio, a: Ratio, b: Ratio)
    requires
        rat_wf(p),
        rat_wf(a),
        rat_wf(b),
    ensures
        rat_eq(rat_mul(p, rat_add(a, b)), rat_add(rat_mul(p, a), rat_mul(p, b))),
{
    lemma_rat_add_cross_eq(a, b);
    lemma_rat_add_wf(a, b);
    lemma_rat_mul_wf(p, a);
    lemma_rat_mul_wf(p, b);
    lemma_rat_mul_wf(p, rat_add(a, b));
    lemma_rat_mul_wf(p, rat_add_cross(a, b));
    lemma_rat_add_cross_eq(rat_mul(p, a), rat_mul(p, b));
    lemma_rat_add_wf(rat_mul(p, a), rat_mul(p, b));
    let u = rat_mul(p, rat_add_cross(a, b));
    let v = rat_add_cross(rat_mul(p, a), rat_mul(p, b));
    assert(rat_eq(u, v)) by {
        assert(u.num * ((p.den * a.den) * (p.den * b.den)) == ((p.num * a.num) * (p.den * b.den) + (
        p.num * b.num) * (p.den * a.den)) * u.den) by {
            lemma_mul_dist_core(p.num, p.den, a.num, a.den, b.num, b.den);
        }
    }
    lemma_rat_mul_congruence(p, rat_add(a, b), p, rat_add_cross(a, b));
    lemma_rat_eq_trans(rat_mul(p, rat_add(a, b)), u, v);
    lemma_rat_eq_trans(rat_mul(p, rat_add(a, b)), v, rat_add(rat_mul(p, a), rat_mul(p, b)));
}

/// The arithmetic core of distributivity, over plain integers.
proof fn lemma_mul_dist_core(pn: int, pd: int, an: int, ad: int, bn: int, bd: int)
    ensures
        (pn * (an * bd + bn * ad)) * ((pd * ad) * (pd * bd)) == ((pn * an) * (pd * bd) + (pn * bn)
            * (pd * ad)) * (pd * (ad * bd)),
{
    assert(pn * (an * bd + bn * ad) == pn * (an * bd) + pn * (bn * ad)) by {
        vstd::arithmetic::mul::lemma_mul_is_distributive_add(pn, an * bd, bn * ad);
    }
    lemma_mul_is_distributive_add_other_way(
        (pd * ad) * (pd * bd),
        pn * (an * bd),
        pn * (bn * ad),
    );
    lemma_mul_is_distributive_add_other_way(
        pd * (ad * bd),
        (pn * an) * (pd * bd),
        (pn * bn) * (pd * ad),
    );
    assert((pn * (an * bd)) * ((pd * ad) * (pd * bd)) == ((pn * an) * (pd * bd)) * (pd * (ad
        * bd))) by (nonlinear_arith);
    assert((pn * (bn * ad)) * ((pd * ad) * (pd * bd)) == ((pn * bn) * (pd * ad)) * (pd * (ad
        * bd))) by (nonlinear_arith);
}

/// Division distributes over addition: dividing each summand by `f` and
/// adding is dividing the sum by `f`.
pub proof fn lemma_rat_div_add(x: Ratio, y: Ratio, f: Ratio)
    requires
        rat_wf(x),
        rat_wf(y),
        rat_wf(f),
        f.num >= 1,
    ensures
        rat_eq(rat_add(rat_div(x, f), rat_div(y, f)), rat_div(rat_add(x, y), f)),
{
    lemma_rat_div_wf(x, f);
    lemma_rat_div_wf(y, f);
    lemma_rat_add_cross_eq(rat_div(x, f), rat_div(y, f));
    lemma_rat_add_cross_eq(x, y);
    lemma_rat_add_wf(rat_div(x, f), rat_div(y, f));
    lemma_rat_add_wf(x, y);
    lemma_rat_div_wf(rat_add(x, y), f);
    let u = rat_add_cross(rat_div(x, f), rat_div(y, f));
    let w = rat_add_cross(x, y);
    assert(rat_wf(u) && rat_wf(w));
    lemma_rat_div_wf(w, f);
    assert(rat_eq(u, rat_div(w, f))) by {
        lemma_div_add_core(x.num, x.den, y.num, y.den, f.num, f.den);
    }
    assert(rat_eq(rat_div(w, f), rat_div(rat_add(x, y), f))) by {
        assert((w.num * f.den) * (rat_add(x, y).den * f.num) == (rat_add(x, y).num * f.den) * (w.den
            * f.num)) by (nonlinear_arith)
            requires
                w.num * rat_add(x, y).den == rat_add(x, y).num * w.den,
        ;
    }
    lemma_rat_eq_trans(rat_add(rat_div(x, f), rat_div(y, f)), u, rat_div(w, f));
    lemma_rat_eq_trans(
        rat_add(rat_div(x, f), rat_div(y, f)),
        rat_div(w, f),
        rat_div(rat_add(x, y), f),
    );
}


/// Regrouping a repeated factor across a product of four terms.
proof fn lemma_factor_shuffle(b: int, c: int, d: int, e: int)
    ensures
        (b * e) * ((c * d) * e) == b * ((c * e) * (d * e)),
{
    assert((b * e) * ((c * d) * e) == b * ((c * e) * (d * e))) by (nonlinear_arith);
}

/// The arithmetic core of division's distributivity, over plain
/// integers.
proof fn lemma_div_add_core(xn: int, xd: int, yn: int, yd: int, fn_: int, fd: int)
    ensures
        ((xn * fd) * (yd * fn_) + (yn * fd) * (xd * fn_)) * ((xd * yd) * fn_) == ((xn * yd + yn
            * xd) * fd) * ((xd * fn_) * (yd * fn_)),
{
    lemma_mul_is_distributive_add_other_way(
        (xd * yd) * fn_,
        (xn * fd) * (yd * fn_),
        (yn * fd) * (xd * fn_),
    );
    lemma_mul_is_distributive_add_other_way(fd, xn * yd, yn * xd);
    lemma_mul_is_distributive_add_other_way((xd * fn_) * (yd * fn_), (xn * yd) * fd, (yn * xd) * fd);
    assert((xn * fd) * (yd * fn_) == ((xn * yd) * fd) * fn_) by (nonlinear_arith);
    lemma_factor_shuffle((xn * yd) * fd, xd, yd, fn_);
    assert((yn * fd) * (xd * fn_) == ((yn * xd) * fd) * fn_) by (nonlinear_arith);
    lemma_factor_shuffle((yn * xd) * fd, xd, yd, fn_);
}

/// The order of two added contributions can be exchanged, up to
/// [`rat_eq`].
pub proof fn lemma_rat_add_swap(a: Ratio, b: Ratio, c: Ratio)
    requires
        rat_wf(a),
        rat_wf(b),
        rat_wf(c),
    ensures
        rat_eq(rat_add(rat_add(a, b), c), rat_add(rat_add(a, c), b)),
{
    lemma_rat_add_assoc(a, b, c);
    lemma_rat_add_assoc(a, c, b);
    lemma_rat_add_comm(b, c);
    lemma_rat_add_wf(a, b);
    lemma_rat_add_wf(a, c);
    lemma_rat_add_wf(b, c);
    lemma_rat_add_wf(rat_add(a, b), c);
    lemma_rat_add_wf(a, rat_add(b, c));
    lemma_rat_add_wf(rat_add(a, c), b);
    lemma_rat_eq_trans(rat_add(rat_add(a, b), c), rat_add(a, rat_add(b, c)), rat_add(rat_add(a, c), b));
}

} // verus!
