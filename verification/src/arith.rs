//! Broadcasting arithmetic over bubbles. A binary operation applies
//! directly to two scalars; a scalar is broadcast against every element
//! of a collection; two collections pair up positionally from the tail
//! (rightmost-aligned) up to the shorter one's length.
use vstd::prelude::*;

use crate::bubble::{bubble_model, models_of, Bubble, BubbleModel};
use crate::errors::RunError;

verus! {

broadcast use vstd::std_specs::vec::group_vec_axioms;

/// The four broadcasting arithmetic operations.
#[derive(Clone, Copy, Debug, PartialEq, Eq, Structural)]
pub enum BinOp {
    /// Wrapping addition.
    Add,
    /// Wrapping subtraction.
    Sub,
    /// Wrapping multiplication.
    Mul,
    /// Division into `[remainder, quotient]`.
    Div,
}

/// The truncating (toward-zero) remainder, with `i32::MIN % -1` taken as
/// its true mathematical value 0.
pub open spec fn spec_div_rem(a: i32, b: i32) -> i32
    recommends
        b != 0,
{
    match a.checked_rem(b) {
        Some(r) => r,
        None => 0i32,
    }
}

/// The quotient, rounded toward the more negative value when the exact
/// quotient is negative and toward zero otherwise — that is, the floor
/// of the exact quotient. The one unrepresentable case,
/// `i32::MIN / -1`, saturates to `i32::MAX`.
pub open spec fn spec_div_quot(a: i32, b: i32) -> i32
    recommends
        b != 0,
{
    match a.checked_div(b) {
        Some(q) => if spec_div_rem(a, b) != 0 && ((a < 0) != (b < 0)) {
            (q - 1) as i32
        } else {
            q
        },
        None => i32::MAX,
    }
}

/// What one operation yields on two scalars. Division yields the
/// 2-element collection `[remainder, quotient]`; the remainder is
/// computed independently of the floored quotient, so
/// `dividend == quotient * divisor + remainder` is not guaranteed.
pub open spec fn spec_scalar_op(op: BinOp, a: i32, b: i32) -> BubbleModel {
    match op {
        BinOp::Add => BubbleModel::Int(a.wrapping_add(b)),
        BinOp::Sub => BubbleModel::Int(a.wrapping_sub(b)),
        BinOp::Mul => BubbleModel::Int(a.wrapping_mul(b)),
        BinOp::Div => BubbleModel::Coll(
            seq![
                BubbleModel::Int(spec_div_rem(a, b)),
                BubbleModel::Int(spec_div_quot(a, b)),
            ],
        ),
    }
}

/// Whether broadcasting meets no zero divisor anywhere in the paired
/// structure. For the three non-division operations this is irrelevant.
pub open spec fn spec_div_defined(a: BubbleModel, b: BubbleModel) -> bool
    decreases a, b,
{
    match (a, b) {
        (BubbleModel::Int(_), BubbleModel::Int(y)) => y != 0,
        (BubbleModel::Coll(s), BubbleModel::Int(_)) => forall|i: int|
            0 <= i < s.len() ==> spec_div_defined(#[trigger] s[i], b),
        (BubbleModel::Int(_), BubbleModel::Coll(s)) => forall|i: int|
            0 <= i < s.len() ==> spec_div_defined(a, #[trigger] s[i]),
        (BubbleModel::Coll(s1), BubbleModel::Coll(s2)) => forall|i1: int, i2: int|
            0 <= i1 < s1.len() && 0 <= i2 < s2.len() && s1.len() - i1 == s2.len() - i2
                ==> spec_div_defined(#[trigger] s1[i1], #[trigger] s2[i2]),
    }
}

/// Whether the operation is defined on the pair: only division can be
/// undefined, on a zero divisor.
pub open spec fn spec_op_defined(op: BinOp, a: BubbleModel, b: BubbleModel) -> bool {
    op is Div ==> spec_div_defined(a, b)
}

/// The result of broadcasting one operation over a pair of bubbles:
/// scalar-scalar applies the operation; scalar-collection and
/// collection-scalar broadcast the scalar over every element, keeping
/// the collection's shape; collection-collection pairs elements from
/// the tail up to the shorter length and yields a collection of that
/// length.
pub open spec fn spec_operate(op: BinOp, a: BubbleModel, b: BubbleModel) -> BubbleModel
    decreases a, b,
{
    match (a, b) {
        (BubbleModel::Int(x), BubbleModel::Int(y)) => spec_scalar_op(op, x, y),
        (BubbleModel::Coll(s), BubbleModel::Int(_)) => BubbleModel::Coll(
            Seq::new(
                s.len(),
                |i: int|
                    if 0 <= i < s.len() {
                        spec_operate(op, s[i], b)
                    } else {
                        BubbleModel::Int(0)
                    },
            ),
        ),
        (BubbleModel::Int(_), BubbleModel::Coll(s)) => BubbleModel::Coll(
            Seq::new(
                s.len(),
                |i: int|
                    if 0 <= i < s.len() {
                        spec_operate(op, a, s[i])
                    } else {
                        BubbleModel::Int(0)
                    },
            ),
        ),
        (BubbleModel::Coll(s1), BubbleModel::Coll(s2)) => {
            let n = if s1.len() <= s2.len() {
                s1.len() as int
            } else {
                s2.len() as int
            };
            BubbleModel::Coll(
                Seq::new(
                    n as nat,
                    |i: int|
                        if 0 <= i < n {
                            spec_operate(op, s1[s1.len() - n + i], s2[s2.len() - n + i])
                        } else {
                            BubbleModel::Int(0)
                        },
                ),
            )
        },
    }
}

/// Wrapping addition of two scalar bubbles.
pub fn add_bubbles(bubble1: &Bubble, bubble2: &Bubble) -> (r: Bubble)
    requires
        bubble1@ is Int,
        bubble2@ is Int,
    ensures
        r@ == spec_scalar_op(BinOp::Add, bubble1@->Int_0, bubble2@->Int_0),
{
    Bubble::Simple(bubble1.get_val().wrapping_add(bubble2.get_val()))
}

/// Wrapping subtraction of two scalar bubbles.
pub fn sub_bubbles(bubble1: &Bubble, bubble2: &Bubble) -> (r: Bubble)
    requires
        bubble1@ is Int,
        bubble2@ is Int,
    ensures
        r@ == spec_scalar_op(BinOp::Sub, bubble1@->Int_0, bubble2@->Int_0),
{
    Bubble::Simple(bubble1.get_val().wrapping_sub(bubble2.get_val()))
}

/// Wrapping multiplication of two scalar bubbles.
pub fn mul_bubbles(bubble1: &Bubble, bubble2: &Bubble) -> (r: Bubble)
    requires
        bubble1@ is Int,
        bubble2@ is Int,
    ensures
        r@ == spec_scalar_op(BinOp::Mul, bubble1@->Int_0, bubble2@->Int_0),
{
    Bubble::Simple(bubble1.get_val().wrapping_mul(bubble2.get_val()))
}

/// Division of two scalar bubbles into the collection
/// `[remainder, quotient]`: the remainder truncates toward zero, the
/// quotient is the floor of the exact quotient.
pub fn div_bubbles(bubble1: &Bubble, bubble2: &Bubble) -> (r: Bubble)
    requires
        bubble1@ is Int,
        bubble2@ is Int,
        bubble2@->Int_0 != 0,
    ensures
        r@ == spec_scalar_op(BinOp::Div, bubble1@->Int_0, bubble2@->Int_0),
{
    let val1 = bubble1.get_val();
    let val2 = bubble2.get_val();
    let rem: i32 = match val1.checked_rem(val2) {
        Some(r) => r,
        None => 0,
    };
    let quot: i32 = match val1.checked_div(val2) {
        Some(q) => {
            if rem != 0 && ((val1 < 0) != (val2 < 0)) {
                proof {
                    let x = val1 as int;
                    let d = val2 as int;
                    if q == i32::MIN {
                        if x < 0 && d > 0 {
                            let a = -x;
                            assert(a / d == 0x8000_0000int);
                            vstd::arithmetic::div_mod::lemma_div_nonincreasing(a, d);
                            assert(a == 0x8000_0000int);
                            if d >= 2 {
                                vstd::arithmetic::div_mod::lemma_div_decreases(a, d);
                            }
                            assert(d == 1);
                            assert(a % d == 0);
                            assert(false);
                        } else {
                            assert(x > 0 && d < 0);
                            assert(x / (-d) == 0x8000_0000int);
                            vstd::arithmetic::div_mod::lemma_div_nonincreasing(x, -d);
                            assert(false);
                        }
                    }
                }
                q - 1
            } else {
                q
            }
        },
        None => i32::MAX,
    };
    proof {
        assert(rem == spec_div_rem(bubble1@->Int_0, bubble2@->Int_0));
        assert(quot == spec_div_quot(bubble1@->Int_0, bubble2@->Int_0));
    }
    let mut bubbles: Vec<Bubble> = Vec::new();
    bubbles.push(Bubble::Simple(rem));
    bubbles.push(Bubble::Simple(quot));
    let r = Bubble::Double(bubbles);
    proof {
        assert(bubbles@[0] == Bubble::Simple(rem));
        assert(bubbles@[1] == Bubble::Simple(quot));
        assert(r@->Coll_0.len() == 2);
        assert(bubble_model(Bubble::Simple(rem)) == BubbleModel::Int(rem));
        assert(bubble_model(Bubble::Simple(quot)) == BubbleModel::Int(quot));
        assert(r@->Coll_0[0] == BubbleModel::Int(rem));
        assert(r@->Coll_0[1] == BubbleModel::Int(quot));
        assert(r@->Coll_0 =~= spec_scalar_op(
            BinOp::Div,
            bubble1@->Int_0,
            bubble2@->Int_0,
        )->Coll_0);
    }
    r
}

/// Broadcast one operation over a pair of bubbles, per the shape rules
/// of [`spec_operate`]. Fails exactly when a division meets a zero
/// divisor somewhere in the paired structure.
#[verifier::loop_isolation(false)]
pub fn operate_bubbles(op: BinOp, bubble1: &Bubble, bubble2: &Bubble) -> (r: Result<
    Bubble,
    RunError,
>)
    ensures
        r is Ok <==> spec_op_defined(op, bubble1@, bubble2@),
        r is Ok ==> r->Ok_0@ == spec_operate(op, bubble1@, bubble2@),
        r is Err ==> r->Err_0 == RunError::DivideByZero,
    decreases *bubble1, *bubble2,
{
    match (bubble1, bubble2) {
        (Bubble::Simple(v1), Bubble::Simple(v2)) => {
            if op == BinOp::Div && *v2 == 0 {
                Err(RunError::DivideByZero)
            } else {
                match op {
                    BinOp::Add => Ok(add_bubbles(bubble1, bubble2)),
                    BinOp::Sub => Ok(sub_bubbles(bubble1, bubble2)),
                    BinOp::Mul => Ok(mul_bubbles(bubble1, bubble2)),
                    BinOp::Div => Ok(div_bubbles(bubble1, bubble2)),
                }
            }
        },
        (Bubble::Double(bs), Bubble::Simple(_)) => {
            let ghost s = bubble1@->Coll_0;
            proof {
                assert(s =~= models_of(bs@));
            }
            let n = bs.len();
            let mut out: Vec<Bubble> = Vec::new();
            let mut i: usize = 0;
            while i < n
                invariant
                    0 <= i <= n,
                    out@.len() == i,
                    forall|j: int|
                        0 <= j < i ==> spec_op_defined(op, s[j], bubble2@) && (#[trigger] out[j])@
                            == spec_operate(op, s[j], bubble2@),
                decreases n - i,
            {
                proof {
                    assert(decreases_to!(*bubble1 => bubble1->Double_0));
                    assert(bubble1->Double_0 == *bs);
                    assert(decreases_to!(*bs => bs@));
                    assert(decreases_to!(bs@ => bs@[i as int]));
                    assert(s[i as int] == bubble_model(bs@[i as int]));
                }
                match operate_bubbles(op, &bs[i], bubble2) {
                    Ok(b) => {
                        out.push(b);
                    },
                    Err(e) => {
                        proof {
                            assert(!spec_op_defined(op, bubble1@, bubble2@));
                        }
                        return Err(e);
                    },
                }
                i += 1;
            }
            let r = Bubble::Double(out);
            proof {
                if op == BinOp::Div {
                    assert forall|j: int| 0 <= j < s.len() implies spec_div_defined(
                        #[trigger] s[j],
                        bubble2@,
                    ) by {
                        assert(out[j]@ == spec_operate(op, s[j], bubble2@));
                        assert(spec_op_defined(op, s[j], bubble2@));
                    }
                }
                assert(spec_op_defined(op, bubble1@, bubble2@));
                assert(r@->Coll_0 =~= spec_operate(op, bubble1@, bubble2@)->Coll_0);
            }
            Ok(r)
        },
        (Bubble::Simple(_), Bubble::Double(bs)) => {
            let ghost s = bubble2@->Coll_0;
            proof {
                assert(s =~= models_of(bs@));
            }
            let n = bs.len();
            let mut out: Vec<Bubble> = Vec::new();
            let mut i: usize = 0;
            while i < n
                invariant
                    0 <= i <= n,
                    out@.len() == i,
                    forall|j: int|
                        0 <= j < i ==> spec_op_defined(op, bubble1@, s[j]) && (#[trigger] out[j])@
                            == spec_operate(op, bubble1@, s[j]),
                decreases n - i,
            {
                proof {
                    assert(decreases_to!(*bubble2 => bubble2->Double_0));
                    assert(bubble2->Double_0 == *bs);
                    assert(decreases_to!(*bs => bs@));
                    assert(decreases_to!(bs@ => bs@[i as int]));
                    assert(s[i as int] == bubble_model(bs@[i as int]));
                }
                match operate_bubbles(op, bubble1, &bs[i]) {
                    Ok(b) => {
                        out.push(b);
                    },
                    Err(e) => {
                        proof {
                            assert(!spec_op_defined(op, bubble1@, bubble2@));
                        }
                        return Err(e);
                    },
                }
                i += 1;
            }
            let r = Bubble::Double(out);
            proof {
                if op == BinOp::Div {
                    assert forall|j: int| 0 <= j < s.len() implies spec_div_defined(
                        bubble1@,
                        #[trigger] s[j],
                    ) by {
                        assert(out[j]@ == spec_operate(op, bubble1@, s[j]));
                        assert(spec_op_defined(op, bubble1@, s[j]));
                    }
                }
                assert(spec_op_defined(op, bubble1@, bubble2@));
                assert(r@->Coll_0 =~= spec_operate(op, bubble1@, bubble2@)->Coll_0);
            }
            Ok(r)
        },
        (Bubble::Double(bs1), Bubble::Double(bs2)) => {
            let ghost s1 = bubble1@->Coll_0;
            let ghost s2 = bubble2@->Coll_0;
            proof {
                assert(s1 =~= models_of(bs1@));
                assert(s2 =~= models_of(bs2@));
            }
            let l1 = bs1.len();
            let l2 = bs2.len();
            let n = if l1 <= l2 {
                l1
            } else {
                l2
            };
            let mut out: Vec<Bubble> = Vec::new();
            let mut i: usize = 0;
            while i < n
                invariant
                    0 <= i <= n,
                    out@.len() == i,
                    forall|j: int|
                        0 <= j < i ==> spec_op_defined(op, s1[l1 - n + j], s2[l2 - n + j]) && (
                        #[trigger] out[j])@ == spec_operate(op, s1[l1 - n + j], s2[l2 - n + j]),
                decreases n - i,
            {
                let i1 = l1 - n + i;
                let i2 = l2 - n + i;
                proof {
                    assert(decreases_to!(*bubble1 => bubble1->Double_0));
                    assert(bubble1->Double_0 == *bs1);
                    assert(decreases_to!(*bs1 => bs1@));
                    assert(decreases_to!(bs1@ => bs1@[i1 as int]));
                    assert(s1[i1 as int] == bubble_model(bs1@[i1 as int]));
                    assert(s2[i2 as int] == bubble_model(bs2@[i2 as int]));
                }
                match operate_bubbles(op, &bs1[i1], &bs2[i2]) {
                    Ok(b) => {
                        out.push(b);
                    },
                    Err(e) => {
                        proof {
                            assert(!spec_div_defined(s1[i1 as int], s2[i2 as int]));
                            assert(s1.len() - i1 == s2.len() - i2);
                            assert(!spec_op_defined(op, bubble1@, bubble2@));
                        }
                        return Err(e);
                    },
                }
                i += 1;
            }
            let r = Bubble::Double(out);
            proof {
                if op == BinOp::Div {
                    assert forall|i1: int, i2: int|
                        0 <= i1 < s1.len() && 0 <= i2 < s2.len() && s1.len() - i1 == s2.len()
                            - i2 implies spec_div_defined(
                        #[trigger] s1[i1],
                        #[trigger] s2[i2],
                    ) by {
                        let j = i1 - (l1 - n);
                        assert(0 <= j < n);
                        assert(i1 == l1 - n + j && i2 == l2 - n + j);
                        assert(out[j]@ == spec_operate(op, s1[l1 - n + j], s2[l2 - n + j]));
                        assert(spec_op_defined(op, s1[l1 - n + j], s2[l2 - n + j]));
                    }
                }
                assert(spec_op_defined(op, bubble1@, bubble2@));
                assert(r@->Coll_0 =~= spec_operate(op, bubble1@, bubble2@)->Coll_0);
            }
            Ok(r)
        },
    }
}

} // verus!
