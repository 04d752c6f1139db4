use ec_elgamal::algebra::ops;
use ec_elgamal::algebra::{
    exp, monoid_exp, try_exp, CommutativeMonoid, CommutativeOp, Configurable, Identity,
};

/// A synthetic additive monoid: plain addition, with a made-up neutral
/// element. The ghost items of the traits are given as plain functions.
#[derive(Clone, Copy, PartialEq)]
struct Q {
    val: u32,
}

impl Configurable for Q {
    type Cfg = ();

    fn cfg_ok(_c: &Self::Cfg) -> bool {
        true
    }

    fn valid(self, _c: &Self::Cfg) -> bool {
        true
    }

    fn is_valid(self, _c: &Self::Cfg) -> bool {
        true
    }

    fn same(self, rhs: Self) -> bool {
        self == rhs
    }
}

impl CommutativeOp<ops::Add> for Q {
    fn op_defined(_a: Self, _b: Self, _c: &Self::Cfg) -> bool {
        true
    }

    fn op_spec(a: Self, b: Self, _c: &Self::Cfg) -> Self {
        Q { val: a.val + b.val }
    }

    fn lemma_op_valid(_a: Self, _b: Self, _c: &Self::Cfg) {}

    fn op(a: Self, b: Self, _c: &Self::Cfg) -> Self {
        Q { val: a.val + b.val }
    }

    fn try_op(a: Self, b: Self, _c: &Self::Cfg) -> Option<Self> {
        Some(Q { val: a.val + b.val })
    }
}

impl Identity<ops::Add> for Q {
    fn identity_spec(_c: &Self::Cfg) -> Self {
        Self { val: 1234 }
    }

    fn lemma_identity_valid(_c: &Self::Cfg) {}

    fn identity(_c: &Self::Cfg) -> Self {
        Self { val: 1234 }
    }
}

impl CommutativeMonoid<ops::Add> for Q {
    fn lemma_total(_a: Self, _b: Self, _c: &Self::Cfg) {}

    fn lemma_commutative(_a: Self, _b: Self, _c: &Self::Cfg) {}

    fn lemma_associative(_a: Self, _b: Self, _d: Self, _c: &Self::Cfg) {}

    fn lemma_neutral(_a: Self, _c: &Self::Cfg) {}
}

#[test]
fn exp1() {
    let q = Q { val: 7 };
    assert_eq!(exp::<ops::Add, Q, u64>(q, 9u64, &()).val, 63);
}

#[test]
fn exp2() {
    let q = Q { val: 7 };
    assert_eq!(exp::<ops::Add, Q, u64>(q, 6u64, &()).val, 42);
}

#[test]
fn exp3() {
    let q = Q { val: 7 };
    assert_eq!(exp::<ops::Add, Q, u64>(q, 1u64, &()).val, 7);
}

#[test]
#[should_panic]
fn exp4() {
    let q = Q { val: 7 };
    try_exp::<ops::Add, Q, u64>(q, 0u64, &()).unwrap();
}

#[test]
fn exp5() {
    let q = Q { val: 7 };
    assert_eq!(monoid_exp::<ops::Add, Q, u64>(q, 0u64, &()).val, 1234);
}

#[test]
fn try_exp_agrees_with_exp() {
    let q = Q { val: 7 };
    for n in 1u64..40 {
        assert_eq!(try_exp::<ops::Add, Q, u64>(q, n, &()).unwrap().val, 7 * n as u32);
        assert_eq!(exp::<ops::Add, Q, u64>(q, n, &()).val, 7 * n as u32);
        assert_eq!(monoid_exp::<ops::Add, Q, u64>(q, n, &()).val, 7 * n as u32);
    }
}
