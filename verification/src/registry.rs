//! The registry of physical dimensions and units, and the exponent-vector
//! algebra. A dimension type is a mapping from base dimensions to nonzero
//! rational exponents, kept in canonical form: entries sorted by dimension
//! identity, zero exponents elided. The types form a free abelian group:
//! unity is the empty mapping, combination adds exponents componentwise,
//! inversion negates them, scaling multiplies them by a rational.

use vstd::prelude::*;
use crate::rational::{
    gcd, lemma_add_sub_roundtrip, lemma_reduce_canonical, lemma_reduce_props,
    lemma_reduce_value_unique, nat_abs, Rational,
};

verus! {

/// The two ways to combine dimension types: multiplication of quantities
/// adds exponents, division subtracts them.
#[derive(Debug, Clone, Copy, PartialEq, Eq, Structural)]
pub enum CombineOp {
    Multiply,
    Divide,
}

/// Exponent list well-formedness: strictly sorted by dimension identity,
/// every exponent canonical and nonzero.
pub open spec fn seq_wf(s: Seq<(u64, Rational)>) -> bool {
    &&& forall|i: int|
        0 <= i < s.len() ==> (#[trigger] s[i]).1.wf() && s[i].1.num != 0
    &&& forall|i: int, j: int| 0 <= i < j < s.len() ==> (#[trigger] s[i]).0 < (#[trigger] s[j]).0
}

/// The exponent of dimension `k` in the list `s`; zero when absent.
pub open spec fn seq_exp(s: Seq<(u64, Rational)>, k: int) -> Rational
    decreases s.len(),
{
    if s.len() == 0 {
        Rational::spec_zero()
    } else if s.last().0 == k {
        s.last().1
    } else {
        seq_exp(s.drop_last(), k)
    }
}

/// Whether the list `s` carries an entry for dimension `k`.
pub open spec fn seq_has(s: Seq<(u64, Rational)>, k: int) -> bool {
    exists|i: int| 0 <= i < s.len() && (#[trigger] s[i]).0 == k
}

/// Componentwise combination of two exponents.
pub open spec fn spec_combine_exp(x: Rational, y: Rational, op: CombineOp) -> Option<Rational> {
    match op {
        CombineOp::Multiply => x.spec_add(y),
        CombineOp::Divide => x.spec_sub(y),
    }
}

proof fn lemma_exp_absent(s: Seq<(u64, Rational)>, k: int)
    requires
        !seq_has(s, k),
    ensures
        seq_exp(s, k) == Rational::spec_zero(),
    decreases s.len(),
{
    if s.len() > 0 {
        assert(s.last().0 != k);
        assert(forall|i: int|
            0 <= i < s.drop_last().len() ==> (#[trigger] s.drop_last()[i]) == s[i]);
        lemma_exp_absent(s.drop_last(), k);
    }
}

proof fn lemma_exp_at_index(s: Seq<(u64, Rational)>, i: int)
    requires
        seq_wf(s),
        0 <= i < s.len(),
    ensures
        seq_exp(s, s[i].0 as int) == s[i].1,
    decreases s.len(),
{
    if i == s.len() - 1 {
    } else {
        assert(s[i].0 < s.last().0);
        assert(forall|t: int|
            0 <= t < s.drop_last().len() ==> (#[trigger] s.drop_last()[t]) == s[t]);
        lemma_exp_at_index(s.drop_last(), i);
    }
}

proof fn lemma_exp_bounded(s: Seq<(u64, Rational)>, k: int)
    requires
        seq_wf(s),
        s.len() > 0,
        k > s.last().0,
    ensures
        seq_exp(s, k) == Rational::spec_zero(),
{
    assert forall|i: int| 0 <= i < s.len() implies (#[trigger] s[i]).0 != k by {
        if i < s.len() - 1 {
            assert(s[i].0 < s.last().0);
        }
    }
    lemma_exp_absent(s, k);
}

/// Two canonical exponent lists with the same exponent at every dimension
/// are the same list: the canonical form is unique.
proof fn lemma_seq_ext(s: Seq<(u64, Rational)>, t: Seq<(u64, Rational)>)
    requires
        seq_wf(s),
        seq_wf(t),
        forall|k: int| #[trigger] seq_exp(s, k) == seq_exp(t, k),
    ensures
        s == t,
    decreases s.len() + t.len(),
{
    if s.len() == 0 && t.len() == 0 {
        assert(s =~= t);
    } else if s.len() > 0 && t.len() == 0 {
        let i = s.len() - 1;
        let k0 = s[i].0 as int;
        lemma_exp_at_index(s, i);
        assert(s[i].1.num != 0);
        assert(seq_exp(s, k0) == seq_exp(t, k0));
        assert(false);
    } else if s.len() == 0 && t.len() > 0 {
        let i = t.len() - 1;
        let k0 = t[i].0 as int;
        lemma_exp_at_index(t, i);
        assert(t[i].1.num != 0);
        assert(seq_exp(s, k0) == seq_exp(t, k0));
        assert(false);
    } else {
        let si = s.len() - 1;
        let ti = t.len() - 1;
        let ks = s[si].0;
        let kt = t[ti].0;
        if ks < kt {
            lemma_exp_at_index(t, ti);
            assert(t[ti].1.num != 0);
            lemma_exp_bounded(s, kt as int);
            assert(seq_exp(s, kt as int) == seq_exp(t, kt as int));
            assert(false);
        } else if kt < ks {
            lemma_exp_at_index(s, si);
            assert(s[si].1.num != 0);
            lemma_exp_bounded(t, ks as int);
            assert(seq_exp(s, ks as int) == seq_exp(t, ks as int));
            assert(false);
        }
        assert(ks == kt);
        lemma_exp_at_index(s, si);
        lemma_exp_at_index(t, ti);
        assert(seq_exp(s, ks as int) == seq_exp(t, ks as int));
        assert(s[si].1 == t[ti].1);
        let s1 = s.drop_last();
        let t1 = t.drop_last();
        assert(forall|i: int| 0 <= i < s1.len() ==> (#[trigger] s1[i]) == s[i]);
        assert(forall|i: int| 0 <= i < t1.len() ==> (#[trigger] t1[i]) == t[i]);
        assert(seq_wf(s1));
        assert(seq_wf(t1));
        assert forall|k: int| #[trigger] seq_exp(s1, k) == seq_exp(t1, k) by {
            if k == ks as int {
                assert(forall|i: int| 0 <= i < s1.len() ==> (#[trigger] s1[i]).0 < k);
                assert(forall|i: int| 0 <= i < t1.len() ==> (#[trigger] t1[i]).0 < k);
                lemma_exp_bounded_strict(s1, k);
                lemma_exp_bounded_strict(t1, k);
            } else {
                assert(seq_exp(s, k) == seq_exp(s1, k));
                assert(seq_exp(t, k) == seq_exp(t1, k));
                assert(seq_exp(s, k) == seq_exp(t, k));
            }
        }
        lemma_seq_ext(s1, t1);
        assert forall|i: int| 0 <= i < s.len() implies s[i] == t[i] by {
            if i < s.len() - 1 {
                assert(s1[i] == t1[i]);
            }
        }
        assert(s =~= t);
    }
}

proof fn lemma_exp_bounded_strict(s: Seq<(u64, Rational)>, k: int)
    requires
        seq_wf(s),
        forall|i: int| 0 <= i < s.len() ==> (#[trigger] s[i]).0 < k,
    ensures
        seq_exp(s, k) == Rational::spec_zero(),
{
    lemma_exp_absent(s, k);
}

/// A dimension type: the canonical exponent vector. `Type` in the typed
/// syntax tree is an alias for this.
#[derive(Debug, Clone, PartialEq)]
pub struct BaseRepresentation {
    pub factors: Vec<(u64, Rational)>,
}

impl BaseRepresentation {
    /// Canonical form.
    pub open spec fn wf(self) -> bool {
        seq_wf(self.factors@)
    }

    /// The exponent this type gives to dimension `k` (zero when absent).
    pub open spec fn exp(self, k: int) -> Rational {
        seq_exp(self.factors@, k)
    }

    /// Spec-level equality of dimension types: same canonical entries.
    pub open spec fn same(self, other: BaseRepresentation) -> bool {
        self.factors@ == other.factors@
    }

    /// The dimensionless type: the group identity, an empty exponent vector.
    pub fn unity() -> (r: BaseRepresentation)
        ensures
            r.wf(),
            r.factors@.len() == 0,
            forall|k: int| #[trigger] r.exp(k) == Rational::spec_zero(),
    {
        let r = BaseRepresentation { factors: Vec::new() };
        proof {
            assert forall|k: int| #[trigger] r.exp(k) == Rational::spec_zero() by {
                lemma_exp_absent(r.factors@, k);
            }
        }
        r
    }

    /// The type of a base dimension: that dimension at exponent one.
    pub fn from_dimension(dim: u64) -> (r: BaseRepresentation)
        ensures
            r.wf(),
            r.exp(dim as int) == Rational::spec_one(),
            forall|k: int| k != dim as int ==> #[trigger] r.exp(k) == Rational::spec_zero(),
            r.factors@ == seq![(dim, Rational::spec_one())],
            r.factors@.len() == 1,
    {
        let one = Rational::one();
        let mut factors: Vec<(u64, Rational)> = Vec::new();
        factors.push((dim, one));
        let r = BaseRepresentation { factors };
        proof {
            assert forall|k: int| k != dim as int implies #[trigger] r.exp(k)
                == Rational::spec_zero() by {
                lemma_exp_absent(r.factors@, k);
            }
            assert(r.factors@ =~= seq![(dim, Rational::spec_one())]);
        }
        r
    }

    /// True exactly of the dimensionless type.
    pub fn is_unity(&self) -> (r: bool)
        requires
            self.wf(),
        ensures
            r == (self.factors@.len() == 0),
            r == (forall|k: int| #[trigger] self.exp(k) == Rational::spec_zero()),
    {
        proof {
            if self.factors@.len() == 0 {
                assert forall|k: int| #[trigger] self.exp(k) == Rational::spec_zero() by {
                    lemma_exp_absent(self.factors@, k);
                }
            } else {
                let k0 = self.factors@.last().0 as int;
                lemma_exp_at_index(self.factors@, self.factors@.len() - 1);
                assert(self.exp(k0) != Rational::spec_zero());
            }
        }
        self.factors.len() == 0
    }

    /// Structural equality of two dimension types, decided entry by entry.
    /// Exact equality of canonical forms is dimension equality.
    pub fn same_as(&self, other: &BaseRepresentation) -> (r: bool)
        ensures
            r == self.same(*other),
    {
        if self.factors.len() != other.factors.len() {
            proof {
                assert(self.factors@.len() != other.factors@.len());
            }
            return false;
        }
        let n = self.factors.len();
        let mut i: usize = 0;
        while i < n
            invariant
                0 <= i <= n,
                n == self.factors@.len(),
                n == other.factors@.len(),
                forall|t: int| 0 <= t < i ==> (#[trigger] self.factors@[t]) == other.factors@[t],
            decreases n - i,
        {
            let (ka, ea) = self.factors[i];
            let (kb, eb) = other.factors[i];
            if ka != kb || ea.num != eb.num || ea.den != eb.den {
                proof {
                    assert(self.factors@[i as int] != other.factors@[i as int]);
                }
                return false;
            }
            i += 1;
        }
        proof {
            assert(self.factors@ =~= other.factors@);
        }
        true
    }

    /// An entrywise copy of this type.
    pub fn duplicate(&self) -> (r: BaseRepresentation)
        ensures
            r.factors@ == self.factors@,
    {
        let n = self.factors.len();
        let mut factors: Vec<(u64, Rational)> = Vec::new();
        let mut i: usize = 0;
        while i < n
            invariant
                0 <= i <= n,
                n == self.factors@.len(),
                factors@.len() == i,
                forall|t: int| 0 <= t < i ==> (#[trigger] factors@[t]) == self.factors@[t],
            decreases n - i,
        {
            let e = self.factors[i];
            factors.push(e);
            i += 1;
        }
        proof {
            assert(factors@ =~= self.factors@);
        }
        BaseRepresentation { factors }
    }

    /// The group inverse: every exponent negated. Total: negation of a
    /// canonical exponent never leaves the machine range.
    pub fn invert(&self) -> (r: BaseRepresentation)
        requires
            self.wf(),
        ensures
            r.wf(),
            forall|k: int| #[trigger] r.exp(k) == self.exp(k).spec_neg(),
    {
        let n = self.factors.len();
        let mut factors: Vec<(u64, Rational)> = Vec::new();
        let mut i: usize = 0;
        while i < n
            invariant
                0 <= i <= n,
                n == self.factors@.len(),
                seq_wf(self.factors@),
                factors@.len() == i,
                forall|t: int|
                    0 <= t < i ==> (#[trigger] factors@[t]) == (
                    self.factors@[t].0,
                    self.factors@[t].1.spec_neg(),
                ),
            decreases n - i,
        {
            let (k, e) = self.factors[i];
            let ne = e.neg();
            factors.push((k, ne));
            i += 1;
        }
        let r = BaseRepresentation { factors };
        proof {
            assert(seq_wf(r.factors@));
            assert forall|k: int| #[trigger] r.exp(k) == self.exp(k).spec_neg() by {
                lemma_invert_exp(self.factors@, r.factors@, k);
            }
        }
        r
    }
}

/// The first not-yet-consumed dimension identity of `s`, or a sentinel
/// above every `u64` when `s` is exhausted.
pub open spec fn lo(s: Seq<(u64, Rational)>, i: int) -> int {
    if i < s.len() {
        s[i].0 as int
    } else {
        0x1_0000_0000_0000_0000
    }
}

pub open spec fn spec_min(a: int, b: int) -> int {
    if a < b {
        a
    } else {
        b
    }
}

proof fn lemma_exp_push(s: Seq<(u64, Rational)>, e: (u64, Rational))
    ensures
        forall|k: int| #[trigger]
            seq_exp(s.push(e), k) == (if e.0 == k {
                e.1
            } else {
                seq_exp(s, k)
            }),
{
    assert(s.push(e).last() == e);
    assert(s.push(e).drop_last() =~= s);
}

/// A canonical exponent is zero exactly when its numerator is.
proof fn lemma_num_zero(q: Rational)
    requires
        q.wf(),
        q.num == 0,
    ensures
        q == Rational::spec_zero(),
{
    assert(nat_abs(0int) == 0);
    assert(gcd(0, q.den as nat) == gcd(q.den as nat, 0nat)) by {
        assert(0nat % (q.den as nat) == 0);
    }
    assert(q.den == 1);
}

/// Combining an exponent with zero: the identities of the exponent group.
proof fn lemma_combine_zero(e: Rational)
    requires
        e.wf(),
    ensures
        spec_combine_exp(e, Rational::spec_zero(), CombineOp::Multiply) == Some(e),
        spec_combine_exp(e, Rational::spec_zero(), CombineOp::Divide) == Some(e),
        spec_combine_exp(Rational::spec_zero(), e, CombineOp::Multiply) == Some(e),
        spec_combine_exp(Rational::spec_zero(), e, CombineOp::Divide) == Some(e.spec_neg()),
        e.spec_neg().wf(),
{
    crate::rational::lemma_zero_one_wf();
    lemma_reduce_canonical(e);
    assert(e.num * 1 + 0 * e.den == e.num);
    assert(e.num * 1 - 0 * e.den == e.num);
    assert(0 * e.den + e.num * 1 == e.num);
    assert(e.den * 1 == e.den);
    assert(1 * e.den == e.den);
    let ne = e.spec_neg();
    assert(nat_abs(ne.num as int) == nat_abs(e.num as int));
    assert(ne.wf());
    assert(0 * e.den - e.num * 1 == ne.num as int);
    assert(ne.num * e.den == ne.num * ne.den);
    lemma_reduce_value_unique(ne.num as int, e.den as int, ne);
}

proof fn lemma_combine_zero_zero(op: CombineOp)
    ensures
        spec_combine_exp(Rational::spec_zero(), Rational::spec_zero(), op) == Some(
            Rational::spec_zero(),
        ),
{
    crate::rational::lemma_zero_one_wf();
    lemma_combine_zero(Rational::spec_zero());
    assert(Rational::spec_zero().spec_neg() == Rational::spec_zero());
}

/// The canonical factor list that combines `a` and `b`, as a specification
/// value: it exists and is unique by canonical-form uniqueness. `None`
/// exactly when some combined exponent leaves the machine range.
pub open spec fn spec_combine_seq(
    a: Seq<(u64, Rational)>,
    b: Seq<(u64, Rational)>,
    op: CombineOp,
) -> Option<Seq<(u64, Rational)>> {
    if exists|k: int| #[trigger] spec_combine_exp(seq_exp(a, k), seq_exp(b, k), op) is None {
        None
    } else {
        Some(
            choose|s: Seq<(u64, Rational)>|
                seq_wf(s) && forall|k: int|
                    Some(#[trigger] seq_exp(s, k)) == spec_combine_exp(
                        seq_exp(a, k),
                        seq_exp(b, k),
                        op,
                    ),
        )
    }
}

/// The canonical factor list that scales `a` by the rational `m`, as a
/// specification value. `None` exactly when some scaled exponent leaves the
/// machine range.
pub open spec fn spec_scale_seq(a: Seq<(u64, Rational)>, m: Rational) -> Option<
    Seq<(u64, Rational)>,
> {
    if exists|k: int| (#[trigger] seq_exp(a, k)).spec_mul(m) is None {
        None
    } else {
        Some(
            choose|s: Seq<(u64, Rational)>|
                seq_wf(s) && forall|k: int|
                    Some(#[trigger] seq_exp(s, k)) == seq_exp(a, k).spec_mul(m),
        )
    }
}

/// Componentwise combination of two dimension types: exponentwise addition
/// (multiplication of quantities) or subtraction (division). `None` exactly
/// when some combined exponent leaves the machine range.
#[verifier::rlimit(60)]
pub fn combine(a: &BaseRepresentation, b: &BaseRepresentation, op: CombineOp) -> (r: Option<
    BaseRepresentation,
>)
    requires
        a.wf(),
        b.wf(),
    ensures
        r is Some ==> r->Some_0.wf(),
        r is Some ==> forall|k: int|
            Some(#[trigger] r->Some_0.exp(k)) == spec_combine_exp(a.exp(k), b.exp(k), op),
        r is None ==> exists|k: int|
            spec_combine_exp(#[trigger] a.exp(k), b.exp(k), op) is None,
        r is Some ==> Some(r->Some_0.factors@) == spec_combine_seq(a.factors@, b.factors@, op),
        r is None ==> spec_combine_seq(a.factors@, b.factors@, op) is None,
{
    let na = a.factors.len();
    let nb = b.factors.len();
    let mut out: Vec<(u64, Rational)> = Vec::new();
    let mut i: usize = 0;
    let mut j: usize = 0;
    proof {
        let f0 = spec_min(lo(a.factors@, 0), lo(b.factors@, 0));
        assert forall|k: int| k < f0 implies Some(#[trigger] seq_exp(out@, k)) == spec_combine_exp(
            seq_exp(a.factors@, k),
            seq_exp(b.factors@, k),
            op,
        ) by {
            lemma_not_has_between(a.factors@, 0, k);
            lemma_not_has_between(b.factors@, 0, k);
            lemma_exp_absent(a.factors@, k);
            lemma_exp_absent(b.factors@, k);
            assert(!seq_has(out@, k));
            lemma_exp_absent(out@, k);
            lemma_combine_zero_zero(op);
        }
    }
    while i < na || j < nb
        invariant
            a.wf(),
            b.wf(),
            0 <= i <= na,
            0 <= j <= nb,
            na == a.factors@.len(),
            nb == b.factors@.len(),
            seq_wf(out@),
            forall|t: int|
                0 <= t < out@.len() ==> (#[trigger] out@[t]).0 < spec_min(
                    lo(a.factors@, i as int),
                    lo(b.factors@, j as int),
                ),
            forall|t: int|
                0 <= t < i ==> (#[trigger] a.factors@[t]).0 < spec_min(
                    lo(a.factors@, i as int),
                    lo(b.factors@, j as int),
                ),
            forall|t: int|
                0 <= t < j ==> (#[trigger] b.factors@[t]).0 < spec_min(
                    lo(a.factors@, i as int),
                    lo(b.factors@, j as int),
                ),
            forall|k: int|
                k < spec_min(lo(a.factors@, i as int), lo(b.factors@, j as int)) ==> Some(
                    #[trigger] seq_exp(out@, k),
                ) == spec_combine_exp(seq_exp(a.factors@, k), seq_exp(b.factors@, k), op),
        decreases na - i + nb - j,
    {
        let ghost fr_old = spec_min(lo(a.factors@, i as int), lo(b.factors@, j as int));
        let take_a = if j >= nb {
            true
        } else if i < na {
            a.factors[i].0 < b.factors[j].0
        } else {
            false
        };
        let take_b = if i >= na {
            true
        } else if j < nb {
            b.factors[j].0 < a.factors[i].0
        } else {
            false
        };
        if take_a {
            let (k0, e) = a.factors[i];
            proof {
                lemma_exp_at_index(a.factors@, i as int);
                lemma_not_has_between(b.factors@, j as int, k0 as int);
                lemma_exp_absent(b.factors@, k0 as int);
                lemma_combine_zero(e);
                lemma_exp_push(out@, (k0, e));
            }
            out.push((k0, e));
            i += 1;
            proof {
                lemma_step_frame(a.factors@, b.factors@, out@, i as int, j as int, fr_old, op);
            }
        } else if take_b {
            let (k0, e) = b.factors[j];
            proof {
                lemma_exp_at_index(b.factors@, j as int);
                lemma_not_has_between(a.factors@, i as int, k0 as int);
                lemma_exp_absent(a.factors@, k0 as int);
                lemma_combine_zero(e);
            }
            let entry = match op {
                CombineOp::Multiply => (k0, e),
                CombineOp::Divide => (k0, e.neg()),
            };
            proof {
                lemma_exp_push(out@, entry);
            }
            out.push(entry);
            j += 1;
            proof {
                lemma_step_frame(a.factors@, b.factors@, out@, i as int, j as int, fr_old, op);
            }
        } else {
            let (k0, ea) = a.factors[i];
            let eb = b.factors[j].1;
            proof {
                lemma_exp_at_index(a.factors@, i as int);
                lemma_exp_at_index(b.factors@, j as int);
            }
            let c = match op {
                CombineOp::Multiply => ea.add(&eb),
                CombineOp::Divide => ea.sub(&eb),
            };
            match c {
                None => {
                    proof {
                        assert(spec_combine_exp(
                            a.exp(k0 as int),
                            b.exp(k0 as int),
                            op,
                        ) is None);
                    }
                    return None;
                },
                Some(q) => {
                    proof {
                        assert(ea.den * eb.den != 0) by (nonlinear_arith)
                            requires
                                ea.den > 0,
                                eb.den > 0,
                        ;
                        lemma_reduce_props(
                            match op {
                                CombineOp::Multiply => ea.num * eb.den + eb.num * ea.den,
                                CombineOp::Divide => ea.num * eb.den - eb.num * ea.den,
                            },
                            ea.den * eb.den,
                        );
                        assert(q.wf());
                    }
                    if q.num != 0 {
                        proof {
                            lemma_exp_push(out@, (k0, q));
                        }
                        out.push((k0, q));
                    } else {
                        proof {
                            lemma_num_zero(q);
                            lemma_not_has_above(out@, k0 as int);
                            lemma_exp_absent(out@, k0 as int);
                        }
                    }
                    i += 1;
                    j += 1;
                    proof {
                        lemma_step_frame(
                            a.factors@,
                            b.factors@,
                            out@,
                            i as int,
                            j as int,
                            fr_old,
                            op,
                        );
                    }
                },
            }
        }
    }
    let r = BaseRepresentation { factors: out };
    proof {
        assert forall|k: int| Some(#[trigger] r.exp(k)) == spec_combine_exp(
            a.exp(k),
            b.exp(k),
            op,
        ) by {
            let f = spec_min(lo(a.factors@, na as int), lo(b.factors@, nb as int));
            if k < f {
            } else {
                lemma_not_has_above_all(a.factors@, k);
                lemma_not_has_above_all(b.factors@, k);
                lemma_not_has_above_all(r.factors@, k);
                lemma_exp_absent(a.factors@, k);
                lemma_exp_absent(b.factors@, k);
                lemma_exp_absent(r.factors@, k);
                lemma_combine_zero_zero(op);
            }
        }
        assert forall|k: int| !(#[trigger] spec_combine_exp(
            seq_exp(a.factors@, k),
            seq_exp(b.factors@, k),
            op,
        ) is None) by {
            assert(Some(r.exp(k)) == spec_combine_exp(a.exp(k), b.exp(k), op));
        }
        assert forall|k: int|
            Some(#[trigger] seq_exp(r.factors@, k)) == spec_combine_exp(
            seq_exp(a.factors@, k),
            seq_exp(b.factors@, k),
            op,
        ) by {
            assert(Some(r.exp(k)) == spec_combine_exp(a.exp(k), b.exp(k), op));
        }
        assert(seq_wf(r.factors@));
        let s0 = choose|s: Seq<(u64, Rational)>|
            seq_wf(s) && forall|k: int|
                Some(#[trigger] seq_exp(s, k)) == spec_combine_exp(
                    seq_exp(a.factors@, k),
                    seq_exp(b.factors@, k),
                    op,
                );
        assert(seq_wf(s0) && forall|k: int|
            Some(#[trigger] seq_exp(s0, k)) == spec_combine_exp(
                seq_exp(a.factors@, k),
                seq_exp(b.factors@, k),
                op,
            ));
        assert forall|k: int| #[trigger] seq_exp(s0, k) == seq_exp(r.factors@, k) by {
            assert(Some(seq_exp(s0, k)) == spec_combine_exp(
                seq_exp(a.factors@, k),
                seq_exp(b.factors@, k),
                op,
            ));
            assert(Some(seq_exp(r.factors@, k)) == spec_combine_exp(
                seq_exp(a.factors@, k),
                seq_exp(b.factors@, k),
                op,
            ));
        }
        lemma_seq_ext(s0, r.factors@);
    }
    Some(r)
}

/// Keys at or past the frontier do not occur in the part of `s` before
/// index `i` (they are all below the frontier), nor at or past `i` when
/// they are below `lo(s, i)`.
proof fn lemma_not_has_between(s: Seq<(u64, Rational)>, i: int, k: int)
    requires
        seq_wf(s),
        0 <= i <= s.len(),
        forall|t: int| 0 <= t < i ==> (#[trigger] s[t]).0 < k,
        k < lo(s, i),
    ensures
        !seq_has(s, k),
{
    assert forall|t: int| 0 <= t < s.len() implies (#[trigger] s[t]).0 != k by {
        if t >= i {
            assert(i < s.len());
            assert(t == i || s[i].0 < s[t].0);
        }
    }
}

proof fn lemma_not_has_above(s: Seq<(u64, Rational)>, k: int)
    requires
        forall|t: int| 0 <= t < s.len() ==> (#[trigger] s[t]).0 < k,
    ensures
        !seq_has(s, k),
{
}

proof fn lemma_not_has_above_all(s: Seq<(u64, Rational)>, k: int)
    requires
        k >= 0x1_0000_0000_0000_0000,
    ensures
        !seq_has(s, k),
{
}

/// After one merge step the frontier has moved strictly up, and every
/// dimension strictly between the old and new frontier is bound in
/// neither input, so the combined exponent there is zero.
#[verifier::spinoff_prover]
proof fn lemma_step_frame(
    sa: Seq<(u64, Rational)>,
    sb: Seq<(u64, Rational)>,
    out: Seq<(u64, Rational)>,
    i: int,
    j: int,
    fr_old: int,
    op: CombineOp,
)
    requires
        seq_wf(sa),
        seq_wf(sb),
        seq_wf(out),
        0 <= i <= sa.len(),
        0 <= j <= sb.len(),
        fr_old < spec_min(lo(sa, i), lo(sb, j)),
        forall|t: int| 0 <= t < i ==> (#[trigger] sa[t]).0 <= fr_old,
        forall|t: int| 0 <= t < j ==> (#[trigger] sb[t]).0 <= fr_old,
        forall|t: int| 0 <= t < out.len() ==> (#[trigger] out[t]).0 <= fr_old,
        forall|k: int|
            k <= fr_old ==> Some(#[trigger] seq_exp(out, k)) == spec_combine_exp(
                seq_exp(sa, k),
                seq_exp(sb, k),
                op,
            ),
    ensures
        forall|k: int|
            k < spec_min(lo(sa, i), lo(sb, j)) ==> Some(#[trigger] seq_exp(out, k))
                == spec_combine_exp(seq_exp(sa, k), seq_exp(sb, k), op),
{
    let f = spec_min(lo(sa, i), lo(sb, j));
    assert forall|k: int|
        k < f implies Some(#[trigger] seq_exp(out, k)) == spec_combine_exp(
        seq_exp(sa, k),
        seq_exp(sb, k),
        op,
    ) by {
        if k > fr_old {
            lemma_not_has_between(sa, i, k);
            lemma_not_has_between(sb, j, k);
            lemma_not_has_above(out, k);
            lemma_exp_absent(sa, k);
            lemma_exp_absent(sb, k);
            lemma_exp_absent(out, k);
            lemma_combine_zero_zero(op);
        }
    }
}

/// Scaling the zero exponent gives zero.
proof fn lemma_mul_zero(k: Rational)
    requires
        k.wf(),
    ensures
        Rational::spec_zero().spec_mul(k) == Some(Rational::spec_zero()),
{
    crate::rational::lemma_zero_one_wf();
    assert(0 * k.num == 0);
    assert(1 * k.den == k.den);
    assert(0 * k.den == 0 * 1);
    lemma_reduce_value_unique(0, k.den as int, Rational::spec_zero());
}

/// Every exponent a canonical list assigns is itself canonical.
proof fn lemma_exp_wf(s: Seq<(u64, Rational)>, k: int)
    requires
        seq_wf(s),
    ensures
        seq_exp(s, k).wf(),
    decreases s.len(),
{
    crate::rational::lemma_zero_one_wf();
    if s.len() > 0 && s.last().0 != k {
        assert(forall|i: int|
            0 <= i < s.drop_last().len() ==> (#[trigger] s.drop_last()[i]) == s[i]);
        lemma_exp_wf(s.drop_last(), k);
    }
}

/// After one scaling step, every dimension strictly between the consumed
/// entry and the next one is bound in neither list.
proof fn lemma_scale_frame(
    sa: Seq<(u64, Rational)>,
    out: Seq<(u64, Rational)>,
    i: int,
    fr_old: int,
    k: Rational,
)
    requires
        seq_wf(sa),
        seq_wf(out),
        k.wf(),
        0 <= i <= sa.len(),
        fr_old < lo(sa, i),
        forall|t: int| 0 <= t < i ==> (#[trigger] sa[t]).0 <= fr_old,
        forall|t: int| 0 <= t < out.len() ==> (#[trigger] out[t]).0 <= fr_old,
        forall|d: int|
            d <= fr_old ==> Some(#[trigger] seq_exp(out, d)) == seq_exp(sa, d).spec_mul(k),
    ensures
        forall|d: int|
            d < lo(sa, i) ==> Some(#[trigger] seq_exp(out, d)) == seq_exp(sa, d).spec_mul(k),
{
    assert forall|d: int|
        d < lo(sa, i) implies Some(#[trigger] seq_exp(out, d)) == seq_exp(sa, d).spec_mul(k) by {
        if d > fr_old {
            lemma_not_has_between(sa, i, d);
            lemma_not_has_above(out, d);
            lemma_exp_absent(sa, d);
            lemma_exp_absent(out, d);
            lemma_mul_zero(k);
        }
    }
}

/// Scale every exponent of `a` by the rational `k`: exponentiation of a
/// quantity by a constant. `None` exactly when some scaled exponent leaves
/// the machine range.
pub fn scale(a: &BaseRepresentation, k: &Rational) -> (r: Option<BaseRepresentation>)
    requires
        a.wf(),
        k.wf(),
    ensures
        r is Some ==> r->Some_0.wf(),
        r is Some ==> forall|d: int|
            Some(#[trigger] r->Some_0.exp(d)) == a.exp(d).spec_mul(*k),
        r is None ==> exists|d: int| (#[trigger] a.exp(d)).spec_mul(*k) is None,
        r is Some ==> Some(r->Some_0.factors@) == spec_scale_seq(a.factors@, *k),
        r is None ==> spec_scale_seq(a.factors@, *k) is None,
{
    let n = a.factors.len();
    let mut out: Vec<(u64, Rational)> = Vec::new();
    let mut i: usize = 0;
    proof {
        assert forall|d: int|
            d < lo(a.factors@, 0) implies Some(#[trigger] seq_exp(out@, d)) == seq_exp(
            a.factors@,
            d,
        ).spec_mul(*k) by {
            lemma_not_has_between(a.factors@, 0, d);
            lemma_exp_absent(a.factors@, d);
            assert(!seq_has(out@, d));
            lemma_exp_absent(out@, d);
            lemma_mul_zero(*k);
        }
    }
    while i < n
        invariant
            a.wf(),
            k.wf(),
            0 <= i <= n,
            n == a.factors@.len(),
            seq_wf(out@),
            forall|t: int|
                0 <= t < out@.len() ==> (#[trigger] out@[t]).0 < lo(a.factors@, i as int),
            forall|t: int| 0 <= t < i ==> (#[trigger] a.factors@[t]).0 < lo(a.factors@, i as int),
            forall|d: int|
                d < lo(a.factors@, i as int) ==> Some(#[trigger] seq_exp(out@, d)) == seq_exp(
                    a.factors@,
                    d,
                ).spec_mul(*k),
        decreases n - i,
    {
        let ghost fr_old = lo(a.factors@, i as int);
        let (k0, e) = a.factors[i];
        proof {
            lemma_exp_at_index(a.factors@, i as int);
        }
        let c = e.mul(k);
        match c {
            None => {
                proof {
                    assert(a.exp(k0 as int).spec_mul(*k) is None);
                }
                return None;
            },
            Some(q) => {
                proof {
                    assert(e.den * k.den != 0) by (nonlinear_arith)
                        requires
                            e.den > 0,
                            k.den > 0,
                    ;
                    lemma_reduce_props(e.num * k.num, e.den * k.den);
                    assert(q.wf());
                }
                if q.num != 0 {
                    proof {
                        lemma_exp_push(out@, (k0, q));
                    }
                    out.push((k0, q));
                } else {
                    proof {
                        lemma_num_zero(q);
                        lemma_not_has_above(out@, k0 as int);
                        lemma_exp_absent(out@, k0 as int);
                    }
                }
                i += 1;
                proof {
                    lemma_scale_frame(a.factors@, out@, i as int, fr_old, *k);
                }
            },
        }
    }
    let r = BaseRepresentation { factors: out };
    proof {
        assert forall|d: int| Some(#[trigger] r.exp(d)) == a.exp(d).spec_mul(*k) by {
            if d >= lo(a.factors@, n as int) {
                lemma_not_has_above_all(a.factors@, d);
                lemma_not_has_above_all(r.factors@, d);
                lemma_exp_absent(a.factors@, d);
                lemma_exp_absent(r.factors@, d);
                lemma_mul_zero(*k);
            }
        }
        assert forall|d: int| !((#[trigger] seq_exp(a.factors@, d)).spec_mul(*k) is None) by {
            assert(Some(r.exp(d)) == a.exp(d).spec_mul(*k));
        }
        assert forall|d: int|
            Some(#[trigger] seq_exp(r.factors@, d)) == seq_exp(a.factors@, d).spec_mul(*k) by {
            assert(Some(r.exp(d)) == a.exp(d).spec_mul(*k));
        }
        assert(seq_wf(r.factors@));
        let s0 = choose|s: Seq<(u64, Rational)>|
            seq_wf(s) && forall|d: int|
                Some(#[trigger] seq_exp(s, d)) == seq_exp(a.factors@, d).spec_mul(*k);
        assert(seq_wf(s0) && forall|d: int|
            Some(#[trigger] seq_exp(s0, d)) == seq_exp(a.factors@, d).spec_mul(*k));
        assert forall|d: int| #[trigger] seq_exp(s0, d) == seq_exp(r.factors@, d) by {
            assert(Some(seq_exp(s0, d)) == seq_exp(a.factors@, d).spec_mul(*k));
            assert(Some(seq_exp(r.factors@, d)) == seq_exp(a.factors@, d).spec_mul(*k));
        }
        lemma_seq_ext(s0, r.factors@);
    }
    Some(r)
}

/// The specification-level scaled vector is pinned by any canonical
/// witness with the right exponents.
pub proof fn lemma_scale_choose(
    lt: Seq<(u64, Rational)>,
    v: Rational,
    s: Seq<(u64, Rational)>,
    w: Seq<(u64, Rational)>,
)
    requires
        seq_wf(w),
        forall|k: int| Some(#[trigger] seq_exp(w, k)) == seq_exp(lt, k).spec_mul(v),
        spec_scale_seq(lt, v) == Some(s),
    ensures
        s == w,
        forall|k: int| Some(#[trigger] seq_exp(s, k)) == seq_exp(lt, k).spec_mul(v),
{
    assert forall|k: int| !((#[trigger] seq_exp(lt, k)).spec_mul(v) is None) by {
        assert(Some(seq_exp(w, k)) == seq_exp(lt, k).spec_mul(v));
    }
    let s0 = choose|t: Seq<(u64, Rational)>|
        seq_wf(t) && forall|k: int| Some(#[trigger] seq_exp(t, k)) == seq_exp(lt, k).spec_mul(v);
    assert(seq_wf(s0) && forall|k: int|
        Some(#[trigger] seq_exp(s0, k)) == seq_exp(lt, k).spec_mul(v));
    assert(s == s0);
    assert forall|k: int| #[trigger] seq_exp(s0, k) == seq_exp(w, k) by {
        assert(Some(seq_exp(s0, k)) == seq_exp(lt, k).spec_mul(v));
        assert(Some(seq_exp(w, k)) == seq_exp(lt, k).spec_mul(v));
    }
    lemma_seq_ext(s0, w);
}

/// Law: for all dimension types `a` and `b`, combining by multiplication
/// and then dividing by the same type returns exactly `a` — the
/// group-inverse round trip of the exponent algebra.
pub proof fn lemma_combine_roundtrip(
    a: BaseRepresentation,
    b: BaseRepresentation,
    ab: BaseRepresentation,
    back: BaseRepresentation,
)
    requires
        a.wf(),
        b.wf(),
        ab.wf(),
        back.wf(),
        forall|k: int|
            Some(#[trigger] ab.exp(k)) == spec_combine_exp(a.exp(k), b.exp(k), CombineOp::Multiply),
        forall|k: int|
            Some(#[trigger] back.exp(k)) == spec_combine_exp(
                ab.exp(k),
                b.exp(k),
                CombineOp::Divide,
            ),
    ensures
        back.same(a),
{
    assert forall|k: int| #[trigger] seq_exp(back.factors@, k) == seq_exp(a.factors@, k) by {
        lemma_exp_wf(a.factors@, k);
        lemma_exp_wf(b.factors@, k);
        assert(Some(ab.exp(k)) == a.exp(k).spec_add(b.exp(k)));
        lemma_add_sub_roundtrip(a.exp(k), b.exp(k));
        assert(ab.exp(k).spec_sub(b.exp(k)) == Some(a.exp(k)));
        assert(Some(back.exp(k)) == ab.exp(k).spec_sub(b.exp(k)));
    }
    lemma_seq_ext(back.factors@, a.factors@);
}

proof fn lemma_invert_exp(s: Seq<(u64, Rational)>, t: Seq<(u64, Rational)>, k: int)
    requires
        s.len() == t.len(),
        forall|i: int| 0 <= i < s.len() ==> (#[trigger] t[i]) == (s[i].0, s[i].1.spec_neg()),
    ensures
        seq_exp(t, k) == seq_exp(s, k).spec_neg(),
    decreases s.len(),
{
    if s.len() == 0 {
        assert(Rational::spec_zero().spec_neg() == Rational::spec_zero());
    } else {
        assert(t.last() == (s.last().0, s.last().1.spec_neg()));
        if s.last().0 == k {
        } else {
            assert(forall|i: int|
                0 <= i < s.drop_last().len() ==> (#[trigger] s.drop_last()[i]) == s[i]);
            assert(forall|i: int|
                0 <= i < t.drop_last().len() ==> (#[trigger] t.drop_last()[i]) == t[i]);
            lemma_invert_exp(s.drop_last(), t.drop_last(), k);
        }
    }
}


/// The index at which a registry binds a dimension name; meaningful when
/// `has_dimension` holds, and then unique because names are bound once.
pub open spec fn dimension_index(reg: Registry, name: Seq<char>) -> int {
    choose|i: int| 0 <= i < reg.dimensions@.len() && (#[trigger] reg.dimensions@[i])@ == name
}

/// In a well-formed registry the dimension index is the only index bearing
/// the name.
pub proof fn lemma_dimension_index_unique(reg: Registry, name: Seq<char>, j: int)
    requires
        reg.wf(),
        0 <= j < reg.dimensions@.len(),
        (reg.dimensions@[j])@ == name,
    ensures
        dimension_index(reg, name) == j,
{
    let i = dimension_index(reg, name);
    assert(0 <= i < reg.dimensions@.len() && (reg.dimensions@[i])@ == name);
    if i < j {
        assert((reg.dimensions@[i])@ != (reg.dimensions@[j])@);
    } else if j < i {
        assert((reg.dimensions@[j])@ != (reg.dimensions@[i])@);
    }
}

/// Why a registration was refused. Registrations are atomic: a refused
/// registration leaves the registry exactly as it was.
#[derive(Debug, Clone, Copy, PartialEq, Eq, Structural)]
pub enum RegistryError {
    DuplicateDimension,
    NameCollision,
}

/// The registry of declared base dimensions and units. Dimensions are
/// identified by their index in declaration order; a unit binds a name to a
/// dimension type.
pub struct Registry {
    pub dimensions: Vec<String>,
    pub units: Vec<(String, BaseRepresentation)>,
}

impl Registry {
    /// Names are bound at most once, across dimensions and units, and every
    /// unit type is canonical over declared dimensions.
    pub open spec fn wf(self) -> bool {
        &&& forall|i: int, j: int|
            0 <= i < j < self.dimensions@.len() ==> (#[trigger] self.dimensions@[i])@ != (
            #[trigger] self.dimensions@[j])@
        &&& forall|i: int, j: int|
            0 <= i < j < self.units@.len() ==> (#[trigger] self.units@[i]).0@ != (
            #[trigger] self.units@[j]).0@
        &&& forall|i: int, j: int|
            0 <= i < self.dimensions@.len() && 0 <= j < self.units@.len() ==> (
            #[trigger] self.dimensions@[i])@ != (#[trigger] self.units@[j]).0@
        &&& forall|j: int| 0 <= j < self.units@.len() ==> (#[trigger] self.units@[j]).1.wf()
    }

    /// Whether `name` is already a declared base dimension.
    pub open spec fn has_dimension(self, name: Seq<char>) -> bool {
        exists|i: int| 0 <= i < self.dimensions@.len() && (#[trigger] self.dimensions@[i])@ == name
    }

    /// Whether `name` is already a declared unit.
    pub open spec fn has_unit(self, name: Seq<char>) -> bool {
        exists|i: int| 0 <= i < self.units@.len() && (#[trigger] self.units@[i]).0@ == name
    }

    /// An empty registry.
    pub fn new() -> (r: Registry)
        ensures
            r.wf(),
            r.dimensions@.len() == 0,
            r.units@.len() == 0,
    {
        Registry { dimensions: Vec::new(), units: Vec::new() }
    }

    /// Find a dimension by name.
    pub fn dimension_id(&self, name: &str) -> (r: Option<u64>)
        ensures
            r is Some <==> self.has_dimension(name@),
            r is Some ==> 0 <= r->Some_0 < self.dimensions@.len() && (
            self.dimensions@[r->Some_0 as int])@ == name@,
    {
        let owned: String = name.to_owned();
        let n = self.dimensions.len();
        let mut i: usize = 0;
        while i < n
            invariant
                0 <= i <= n,
                n == self.dimensions@.len(),
                owned@ == name@,
                forall|t: int| 0 <= t < i ==> (#[trigger] self.dimensions@[t])@ != name@,
            decreases n - i,
        {
            if self.dimensions[i] == owned {
                return Some(i as u64);
            }
            i += 1;
        }
        None
    }

    /// Find a unit by name; hands back a copy of its dimension type.
    pub fn unit_type(&self, name: &str) -> (r: Option<BaseRepresentation>)
        requires
            self.wf(),
        ensures
            r is Some <==> self.has_unit(name@),
            r is Some ==> r->Some_0.wf(),
            r is Some ==> exists|i: int|
                0 <= i < self.units@.len() && (#[trigger] self.units@[i]).0@ == name@
                    && r->Some_0.factors@ == self.units@[i].1.factors@,
    {
        let owned: String = name.to_owned();
        let n = self.units.len();
        let mut i: usize = 0;
        while i < n
            invariant
                0 <= i <= n,
                n == self.units@.len(),
                owned@ == name@,
                self.wf(),
                forall|t: int| 0 <= t < i ==> (#[trigger] self.units@[t]).0@ != name@,
            decreases n - i,
        {
            if self.units[i].0 == owned {
                let t = self.units[i].1.duplicate();
                return Some(t);
            }
            i += 1;
        }
        None
    }

    /// Declare a new base dimension. Atomic: on failure the registry is
    /// unchanged. Fails with `DuplicateDimension` when the name already
    /// denotes a dimension, `NameCollision` when it denotes a unit.
    pub fn register_base_dimension(&mut self, name: &str) -> (r: Result<u64, RegistryError>)
        requires
            old(self).wf(),
        ensures
            final(self).wf(),
            old(self).has_dimension(name@) ==> r == Result::<u64, RegistryError>::Err(
                RegistryError::DuplicateDimension,
            ) && *final(self) == *old(self),
            !old(self).has_dimension(name@) && old(self).has_unit(name@) ==> r == Result::<
                u64,
                RegistryError,
            >::Err(RegistryError::NameCollision) && *final(self) == *old(self),
            !old(self).has_dimension(name@) && !old(self).has_unit(name@) ==> {
                &&& r == Result::<u64, RegistryError>::Ok(old(self).dimensions@.len() as u64)
                &&& final(self).dimensions@.len() == old(self).dimensions@.len() + 1
                &&& final(self).dimensions@[old(self).dimensions@.len() as int]@ == name@
                &&& forall|t: int|
                    0 <= t < old(self).dimensions@.len() ==> (#[trigger] final(self).dimensions@[t]) == old(self).dimensions@[t]
                &&& final(self).units@ == old(self).units@
                &&& final(self).has_dimension(name@)
            },
    {
        if self.dimension_id(name).is_some() {
            return Err(RegistryError::DuplicateDimension);
        }
        if self.unit_lookup_exists(name) {
            return Err(RegistryError::NameCollision);
        }
        let id = self.dimensions.len() as u64;
        self.dimensions.push(name.to_owned());
        proof {
            let ghost d = self.dimensions@;
            assert(d[d.len() - 1]@ == name@);
        }
        Ok(id)
    }

    /// Whether a unit of this name exists.
    pub fn unit_lookup_exists(&self, name: &str) -> (r: bool)
        ensures
            r == self.has_unit(name@),
    {
        let owned: String = name.to_owned();
        let n = self.units.len();
        let mut i: usize = 0;
        while i < n
            invariant
                0 <= i <= n,
                n == self.units@.len(),
                owned@ == name@,
                forall|t: int| 0 <= t < i ==> (#[trigger] self.units@[t]).0@ != name@,
            decreases n - i,
        {
            if self.units[i].0 == owned {
                return true;
            }
            i += 1;
        }
        false
    }

    /// Declare a base unit: binds `name` to the type that is `dimension` at
    /// exponent one. Atomic; fails with `NameCollision` when the name is
    /// already bound.
    pub fn register_base_unit(&mut self, name: &str, dimension: u64) -> (r: Result<
        (),
        RegistryError,
    >)
        requires
            old(self).wf(),
        ensures
            final(self).wf(),
            old(self).has_dimension(name@) || old(self).has_unit(name@) ==> r == Result::<
                (),
                RegistryError,
            >::Err(RegistryError::NameCollision) && *final(self) == *old(self),
            !(old(self).has_dimension(name@) || old(self).has_unit(name@)) ==> {
                &&& r == Result::<(), RegistryError>::Ok(())
                &&& final(self).dimensions@ == old(self).dimensions@
                &&& final(self).units@.len() == old(self).units@.len() + 1
                &&& final(self).units@.last().0@ == name@
                &&& final(self).units@.last().1.wf()
                &&& final(self).units@.last().1.exp(dimension as int) == Rational::spec_one()
                &&& forall|k: int|
                    k != dimension as int ==> #[trigger] final(self).units@.last().1.exp(k)
                        == Rational::spec_zero()
                &&& forall|t: int|
                    0 <= t < old(self).units@.len() ==> (#[trigger] final(self).units@[t]) == old(self).units@[t]
                &&& final(self).has_unit(name@)
            },
    {
        if self.dimension_id(name).is_some() || self.unit_lookup_exists(name) {
            return Err(RegistryError::NameCollision);
        }
        let t = BaseRepresentation::from_dimension(dimension);
        self.units.push((name.to_owned(), t));
        proof {
            let ghost u = self.units@;
            assert(u[u.len() - 1].0@ == name@);
        }
        Ok(())
    }

    /// Declare a derived unit: binds `name` to an arbitrary canonical type,
    /// established by the caller (by type-checking the defining expression).
    /// Atomic; fails with `NameCollision` when the name is already bound.
    pub fn register_derived_unit(&mut self, name: &str, t: BaseRepresentation) -> (r: Result<
        (),
        RegistryError,
    >)
        requires
            old(self).wf(),
            t.wf(),
        ensures
            final(self).wf(),
            old(self).has_dimension(name@) || old(self).has_unit(name@) ==> r == Result::<
                (),
                RegistryError,
            >::Err(RegistryError::NameCollision) && *final(self) == *old(self),
            !(old(self).has_dimension(name@) || old(self).has_unit(name@)) ==> {
                &&& r == Result::<(), RegistryError>::Ok(())
                &&& final(self).dimensions@ == old(self).dimensions@
                &&& final(self).units@.len() == old(self).units@.len() + 1
                &&& final(self).units@.last().0@ == name@
                &&& final(self).units@.last().1 == t
                &&& forall|tt: int|
                    0 <= tt < old(self).units@.len() ==> (#[trigger] final(self).units@[tt]) == old(self).units@[tt]
                &&& final(self).has_unit(name@)
            },
    {
        if self.dimension_id(name).is_some() || self.unit_lookup_exists(name) {
            return Err(RegistryError::NameCollision);
        }
        self.units.push((name.to_owned(), t));
        proof {
            let ghost u = self.units@;
            assert(u[u.len() - 1].0@ == name@);
        }
        Ok(())
    }
}

} // verus!
