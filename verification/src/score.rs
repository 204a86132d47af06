//! The numbers that routes and purchases are judged by.

use vstd::prelude::*;

verus! {

/// A number to judge by. Each operation is named by a function, and nothing more is asked of it,
/// so floating-point numbers serve as well as whole ones.
pub trait Score: Copy {
    /// Less than any number.
    spec fn bottom() -> Self;

    /// Zero.
    spec fn nil() -> Self;

    /// The whole number `n`.
    spec fn whole(n: i32) -> Self;

    /// The fraction `n / d`.
    spec fn part(n: i32, d: i32) -> Self;

    /// `a + b`.
    spec fn sum(a: Self, b: Self) -> Self;

    /// `a > b`.
    spec fn above(a: Self, b: Self) -> bool;

    /// `a >= b`.
    spec fn reaches(a: Self, b: Self) -> bool;

    /// The number is neither infinite nor undefined.
    spec fn finite(a: Self) -> bool;

    /// The greater of the two.
    spec fn upper(a: Self, b: Self) -> Self;

    fn neg_infinity() -> (r: Self)
        ensures
            r == Self::bottom(),
    ;

    fn zero() -> (r: Self)
        ensures
            r == Self::nil(),
    ;

    fn from_int(n: i32) -> (r: Self)
        ensures
            r == Self::whole(n),
    ;

    fn ratio(n: i32, d: i32) -> (r: Self)
        requires
            d > 0,
        ensures
            r == Self::part(n, d),
    ;

    fn plus(self, other: Self) -> (r: Self)
        ensures
            r == Self::sum(self, other),
    ;

    fn exceeds(self, other: Self) -> (r: bool)
        ensures
            r == Self::above(self, other),
    ;

    fn at_least(self, other: Self) -> (r: bool)
        ensures
            r == Self::reaches(self, other),
    ;

    fn is_finite(self) -> (r: bool)
        ensures
            r == Self::finite(self),
    ;

    fn larger(self, other: Self) -> (r: Self)
        ensures
            r == Self::upper(self, other),
    ;
}

/// `a` is not above `b`.
pub open spec fn at_most<S: Score>(a: S, b: S) -> bool {
    !S::above(a, b)
}

/// Comparing is a total order on the finite numbers, adding keeps numbers finite and in order,
/// and the greater of two numbers is what it is called.
pub open spec fn orderly<S: Score>() -> bool {
    &&& S::finite(S::nil())
    &&& !S::finite(S::bottom())
    &&& forall|a: S| S::finite(a) ==> #[trigger] S::above(a, S::bottom())
    &&& forall|a: S| !#[trigger] S::above(S::bottom(), a)
    &&& forall|a: S| #[trigger] S::finite(a) ==> S::upper(S::bottom(), a) == a
    &&& forall|a: S, b: S| S::finite(a) && S::finite(b) ==> S::finite(#[trigger] S::sum(a, b))
    &&& forall|a: S, b: S|
        S::finite(a) && S::finite(b) ==> {
            &&& #[trigger] S::upper(a, b) == a || S::upper(a, b) == b
            &&& at_most(a, S::upper(a, b))
            &&& at_most(b, S::upper(a, b))
        }
    &&& forall|a: S| S::finite(a) ==> #[trigger] at_most(a, a)
    &&& forall|a: S, b: S|
        S::finite(a) && S::finite(b) && #[trigger] S::above(a, b) ==> at_most(b, a)
    &&& forall|a: S, b: S, c: S|
        S::finite(a) && S::finite(b) && S::finite(c) && #[trigger] at_most(a, b)
            && #[trigger] at_most(b, c) ==> at_most(a, c)
    &&& forall|a: S, b: S, c: S|
        #![trigger S::sum(c, a), S::sum(c, b)]
        S::finite(a) && S::finite(b) && S::finite(c) && at_most(a, b) ==> at_most(
            S::sum(c, a),
            S::sum(c, b),
        )
}

/// A score in fixed point, in parts of a unit. Sums that leave the range stop at its end, and a
/// fraction is cut off after the eighteenth place.
#[derive(Clone, Copy, PartialEq, Eq, Debug, Structural)]
pub enum Fixed {
    NegInfinity,
    Of(i128),
}

/// How many parts make a unit.
pub const UNIT: i128 = 1_000_000_000_000_000_000;

/// `n`, or the end of the range of `i128` that it lies beyond.
pub open spec fn clamped(n: int) -> i128 {
    if n > i128::MAX {
        i128::MAX
    } else if n < i128::MIN {
        i128::MIN
    } else {
        n as i128
    }
}

/// `n / d` in parts of a unit, cut off towards zero.
pub open spec fn parts_of(n: int, d: int) -> int {
    if n >= 0 {
        UNIT * n / d
    } else {
        -(UNIT * (-n) / d)
    }
}

impl Score for Fixed {
    open spec fn bottom() -> Fixed {
        Fixed::NegInfinity
    }

    open spec fn nil() -> Fixed {
        Fixed::Of(0)
    }

    open spec fn whole(n: i32) -> Fixed {
        Fixed::Of(clamped(UNIT * n))
    }

    open spec fn part(n: i32, d: i32) -> Fixed {
        Fixed::Of(clamped(parts_of(n as int, d as int)))
    }

    open spec fn sum(a: Fixed, b: Fixed) -> Fixed {
        match (a, b) {
            (Fixed::Of(x), Fixed::Of(y)) => Fixed::Of(clamped(x + y)),
            _ => Fixed::NegInfinity,
        }
    }

    open spec fn above(a: Fixed, b: Fixed) -> bool {
        match (a, b) {
            (Fixed::Of(x), Fixed::Of(y)) => x > y,
            (Fixed::Of(_), Fixed::NegInfinity) => true,
            _ => false,
        }
    }

    open spec fn reaches(a: Fixed, b: Fixed) -> bool {
        !Fixed::above(b, a)
    }

    open spec fn finite(a: Fixed) -> bool {
        a is Of
    }

    open spec fn upper(a: Fixed, b: Fixed) -> Fixed {
        if Fixed::above(b, a) {
            b
        } else {
            a
        }
    }

    fn neg_infinity() -> Fixed {
        Fixed::NegInfinity
    }

    fn zero() -> Fixed {
        Fixed::Of(0)
    }

    fn from_int(n: i32) -> Fixed {
        Fixed::Of(UNIT * (n as i128))
    }

    fn ratio(n: i32, d: i32) -> Fixed {
        let size: i128 = if n < 0 {
            -(n as i128)
        } else {
            n as i128
        };
        let whole: i128 = UNIT * size;
        let cut: i128 = whole / (d as i128);
        assert(0 <= cut <= whole) by (nonlinear_arith)
            requires
                whole >= 0,
                d > 0,
                cut == whole / d as i128,
        ;
        if n < 0 {
            Fixed::Of(-cut)
        } else {
            Fixed::Of(cut)
        }
    }

    fn plus(self, other: Fixed) -> Fixed {
        match (self, other) {
            (Fixed::Of(x), Fixed::Of(y)) => {
                if y > 0 && x > i128::MAX - y {
                    Fixed::Of(i128::MAX)
                } else if y < 0 && x < i128::MIN - y {
                    Fixed::Of(i128::MIN)
                } else {
                    Fixed::Of(x + y)
                }
            },
            _ => Fixed::NegInfinity,
        }
    }

    fn exceeds(self, other: Fixed) -> bool {
        match (self, other) {
            (Fixed::Of(x), Fixed::Of(y)) => x > y,
            (Fixed::Of(_), Fixed::NegInfinity) => true,
            _ => false,
        }
    }

    fn at_least(self, other: Fixed) -> bool {
        !other.exceeds(self)
    }

    fn is_finite(self) -> bool {
        match self {
            Fixed::Of(_) => true,
            Fixed::NegInfinity => false,
        }
    }

    fn larger(self, other: Fixed) -> Fixed {
        if other.exceeds(self) {
            other
        } else {
            self
        }
    }
}

/// Scores in fixed point compare and add up as numbers should.
pub proof fn fixed_point_is_orderly()
    ensures
        orderly::<Fixed>(),
{
}

/// The score of `t` thousandths.
pub open spec fn thousandths(t: int) -> Fixed {
    Fixed::Of(clamped(1_000_000_000_000_000 * t))
}

/// Cutting a fraction off does not show when it is compared with a number of thousandths: it is
/// above it just if the fraction itself is.
pub proof fn fractions_compare_exactly(n: i32, d: i32, t: i32)
    requires
        n >= 0,
        d > 0,
    ensures
        Fixed::above(Fixed::part(n, d), thousandths(t as int)) <==> 1000 * n > t * d,
        Fixed::above(thousandths(t as int), Fixed::part(n, d)) <==> 1000 * n < t * d,
{
    let unit = UNIT as int;
    let q = unit * n / d as int;
    let r = unit * n % d as int;
    let td = t * d;
    vstd::arithmetic::div_mod::lemma_fundamental_div_mod(unit * n, d as int);
    assert(0 <= r < d) by (nonlinear_arith)
        requires
            d > 0,
            r == unit * n % d as int,
    ;
    let qd = d as int * q;
    assert(unit * n == qd + r);
    assert(0 <= q <= unit * n) by (nonlinear_arith)
        requires
            d > 0,
            n >= 0,
            unit >= 0,
            q == unit * n / d as int,
    ;
    let bar = 1_000_000_000_000_000 * t;
    assert(bar * d == 1_000_000_000_000_000 * td) by (nonlinear_arith)
        requires
            bar == 1_000_000_000_000_000 * t,
            td == t * d,
    ;
    if q > bar {
        assert(qd >= bar * d + d) by (nonlinear_arith)
            requires
                q >= bar + 1,
                qd == d as int * q,
                d > 0,
        ;
    } else {
        assert(qd <= bar * d) by (nonlinear_arith)
            requires
                q <= bar,
                qd == d as int * q,
                d > 0,
        ;
    }
    if q < bar {
        assert(qd <= bar * d - d) by (nonlinear_arith)
            requires
                q <= bar - 1,
                qd == d as int * q,
                d > 0,
        ;
    } else {
        assert(qd >= bar * d) by (nonlinear_arith)
            requires
                q >= bar,
                qd == d as int * q,
                d > 0,
        ;
    }
}

/// Scores in fixed point add up without loss as long as they stay in range; whole numbers add up
/// as such, a whole number of wholes is that number, and a fraction is cut off by less than a part.
pub proof fn fixed_point_adds_up(a: i128, b: i128, n: i32, m: i32, d: i32)
    requires
        i128::MIN <= a + b <= i128::MAX,
        i32::MIN <= n + m <= i32::MAX,
        n >= 0,
        d > 0,
    ensures
        Fixed::sum(Fixed::Of(a), Fixed::Of(b)) == Fixed::Of((a + b) as i128),
        Fixed::sum(Fixed::whole(n), Fixed::whole(m)) == Fixed::whole((n + m) as i32),
        Fixed::part(n, 1) == Fixed::whole(n),
        0 <= UNIT * n - d * Fixed::part(n, d)->Of_0 < d,
        Fixed::above(Fixed::Of(a), Fixed::Of(b)) <==> a > b,
        Fixed::reaches(Fixed::Of(a), Fixed::Of(b)) <==> a >= b,
{
    let unit = UNIT as int;
    let q = unit * n / d as int;
    vstd::arithmetic::div_mod::lemma_fundamental_div_mod(unit * n, d as int);
    let r = unit * n % d as int;
    assert(0 <= r < d) by (nonlinear_arith)
        requires
            d > 0,
            r == unit * n % d as int,
    ;
    assert(0 <= q <= unit * n) by (nonlinear_arith)
        requires
            d > 0,
            n >= 0,
            unit >= 0,
            q == unit * n / d as int,
    ;
}

} // verus!
