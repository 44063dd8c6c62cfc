//! The exponent algebra: canonical rationals, combination, inversion,
//! scaling, and the group-inverse round trip.

use numbat::rational::{reduce, Rational};
use numbat::registry::{combine, scale, BaseRepresentation, CombineOp, Registry, RegistryError};

fn rat(num: i64, den: i64) -> Rational {
    reduce(num as i128, den as i128).unwrap()
}

#[test]
fn reduce_puts_fractions_in_lowest_terms() {
    let r = rat(8, 60);
    assert_eq!(r.num, 2);
    assert_eq!(r.den, 15);
    let r = rat(-8, 60);
    assert_eq!(r.num, -2);
    assert_eq!(r.den, 15);
    let r = rat(8, -60);
    assert_eq!(r.num, -2);
    assert_eq!(r.den, 15);
    let r = rat(0, 17);
    assert_eq!(r.num, 0);
    assert_eq!(r.den, 1);
}

#[test]
fn rational_add_is_exact() {
    // 1/6 + 1/10 == 4/15, exactly.
    let a = rat(1, 6);
    let b = rat(1, 10);
    let c = a.add(&b).unwrap();
    assert_eq!(c.num, 4);
    assert_eq!(c.den, 15);
}

#[test]
fn rational_add_overflow_is_reported() {
    let a = rat(i64::MAX, 1);
    let b = rat(i64::MAX, 1);
    assert!(a.add(&b).is_none());
}

fn ty(entries: &[(u64, i64, i64)]) -> BaseRepresentation {
    let mut t = BaseRepresentation::unity();
    t.factors.clear();
    for &(d, n, m) in entries {
        t.factors.push((d, rat(n, m)));
    }
    t
}

#[test]
fn combine_multiply_adds_exponents() {
    // length^1 * length^1 == length^2
    let a = ty(&[(0, 1, 1)]);
    let b = ty(&[(0, 1, 1)]);
    let c = combine(&a, &b, CombineOp::Multiply).unwrap();
    assert_eq!(c.factors, vec![(0, rat(2, 1))]);
}

#[test]
fn combine_divide_elides_zero_exponents() {
    // length / length == unity: the zero entry is dropped.
    let a = ty(&[(0, 1, 1)]);
    let c = combine(&a, &a, CombineOp::Divide).unwrap();
    assert!(c.is_unity());
    assert_eq!(c.factors.len(), 0);
}

#[test]
fn combine_roundtrip_restores_the_original() {
    // combine(combine(a, b, multiply), b, divide) == a, on a mixed pair.
    let a = ty(&[(0, 1, 1), (1, -2, 1), (3, 1, 2)]);
    let b = ty(&[(1, 2, 1), (2, 5, 3), (3, -1, 2)]);
    let ab = combine(&a, &b, CombineOp::Multiply).unwrap();
    let back = combine(&ab, &b, CombineOp::Divide).unwrap();
    assert_eq!(back, a);
}

#[test]
fn invert_negates_every_exponent() {
    let a = ty(&[(0, 1, 1), (1, -2, 3)]);
    let inv = a.invert();
    assert_eq!(inv.factors, vec![(0, rat(-1, 1)), (1, rat(2, 3))]);
}

#[test]
fn scale_multiplies_every_exponent() {
    // (length^1 time^-2) ^ 3 == length^3 time^-6
    let a = ty(&[(0, 1, 1), (1, -2, 1)]);
    let s = scale(&a, &rat(3, 1)).unwrap();
    assert_eq!(s.factors, vec![(0, rat(3, 1)), (1, rat(-6, 1))]);
    // scaling by zero gives unity
    let z = scale(&a, &rat(0, 1)).unwrap();
    assert!(z.is_unity());
}

#[test]
fn registry_rejects_duplicate_dimensions() {
    let mut reg = Registry::new();
    assert_eq!(reg.register_base_dimension("Length"), Ok(0));
    assert_eq!(
        reg.register_base_dimension("Length"),
        Err(RegistryError::DuplicateDimension)
    );
    // The registry retains only the first binding.
    assert_eq!(reg.dimensions.len(), 1);
    assert_eq!(reg.dimension_id("Length"), Some(0));
}

#[test]
fn registry_units_bind_names_to_types() {
    let mut reg = Registry::new();
    let len = reg.register_base_dimension("Length").unwrap();
    assert_eq!(reg.register_base_unit("meter", len), Ok(()));
    assert_eq!(
        reg.register_base_unit("meter", len),
        Err(RegistryError::NameCollision)
    );
    let t = reg.unit_type("meter").unwrap();
    assert_eq!(t.factors, vec![(0, rat(1, 1))]);
    assert!(reg.unit_type("second").is_none());
}
