use awa5_rs::arith::{add_bubbles, div_bubbles, mul_bubbles, operate_bubbles, sub_bubbles, BinOp};
use awa5_rs::bubble::{clone_bubble, merge_bubbles, Bubble, BubbleAbyss};
use awa5_rs::errors::RunError;

fn coll(vals: &[i32]) -> Bubble {
    let mut v = Vec::new();
    for x in vals {
        v.push(Bubble::Simple(*x));
    }
    Bubble::Double(v)
}

fn scalar_items(b: &Bubble) -> Vec<i32> {
    let mut out = Vec::new();
    for e in b.get_bubbles() {
        out.push(e.get_val());
    }
    out
}

#[test]
fn bubble_accessors() {
    let s = Bubble::Simple(7);
    assert!(!s.is_double());
    assert_eq!(s.get_val(), 7);
    let d = coll(&[1, 2]);
    assert!(d.is_double());
    assert_eq!(d.get_bubbles().len(), 2);
}

#[test]
fn bubble_to_byte_array() {
    assert_eq!(Bubble::Simple(0x41).to_u8_array(), vec![0x41]);
    assert_eq!(Bubble::Simple(-1).to_u8_array(), vec![0xff]);
    assert_eq!(coll(&[1, 258, -2]).to_u8_array(), vec![1, 2, 0xfe]);
}

#[test]
fn bubble_deep_clone() {
    let mut outer = Vec::new();
    outer.push(coll(&[1, 2]));
    outer.push(Bubble::Simple(3));
    let b = Bubble::Double(outer);
    let c = clone_bubble(&b);
    assert!(c.is_double());
    let items = c.get_bubbles();
    assert_eq!(scalar_items(&items[0]), vec![1, 2]);
    assert_eq!(items[1].get_val(), 3);
}

#[test]
fn abyss_stack_order() {
    let mut abyss = BubbleAbyss::new();
    assert!(abyss.is_empty());
    abyss.push(Bubble::Simple(1));
    abyss.push(Bubble::Simple(2));
    assert_eq!(abyss.len(), 2);
    assert_eq!(abyss.top().unwrap().get_val(), 2);
    assert_eq!(abyss.before_top().unwrap().get_val(), 1);
    assert_eq!(abyss.pop().unwrap().get_val(), 2);
    assert_eq!(abyss.pop().unwrap().get_val(), 1);
    assert!(abyss.pop().is_none());
    assert!(abyss.top().is_none());
    assert!(abyss.before_top().is_none());
}

#[test]
fn scalar_arithmetic() {
    let a = Bubble::Simple(30);
    let b = Bubble::Simple(12);
    assert_eq!(add_bubbles(&a, &b).get_val(), 42);
    assert_eq!(sub_bubbles(&a, &b).get_val(), 18);
    assert_eq!(mul_bubbles(&a, &b).get_val(), 360);
}

#[test]
fn wrapping_arithmetic() {
    let a = Bubble::Simple(i32::MAX);
    let b = Bubble::Simple(1);
    assert_eq!(add_bubbles(&a, &b).get_val(), i32::MIN);
}

#[test]
fn division_floors_negative_quotients() {
    // the exact quotient -1.5 floors to -2; the remainder keeps
    // truncating (toward-zero) semantics
    let r = div_bubbles(&Bubble::Simple(-3), &Bubble::Simple(2));
    assert_eq!(scalar_items(&r), vec![-1, -2]);
    let r = div_bubbles(&Bubble::Simple(3), &Bubble::Simple(-2));
    assert_eq!(scalar_items(&r), vec![1, -2]);
    let r = div_bubbles(&Bubble::Simple(7), &Bubble::Simple(2));
    assert_eq!(scalar_items(&r), vec![1, 3]);
    let r = div_bubbles(&Bubble::Simple(-7), &Bubble::Simple(-2));
    assert_eq!(scalar_items(&r), vec![-1, 3]);
}

#[test]
fn broadcast_scalar_over_collection() {
    // 3 + [1,2,3] = [4,5,6] elementwise, either operand order
    let r = operate_bubbles(BinOp::Add, &Bubble::Simple(3), &coll(&[1, 2, 3])).unwrap();
    assert_eq!(scalar_items(&r), vec![4, 5, 6]);
    let r = operate_bubbles(BinOp::Add, &coll(&[1, 2, 3]), &Bubble::Simple(3)).unwrap();
    assert_eq!(scalar_items(&r), vec![4, 5, 6]);
    // a shorter collection is still a plain per-element broadcast
    let r = operate_bubbles(BinOp::Add, &Bubble::Simple(3), &coll(&[1, 2])).unwrap();
    assert_eq!(scalar_items(&r), vec![4, 5]);
}

#[test]
fn broadcast_pairs_collections_from_the_tail() {
    // [1,2,3] and [10,20]: only the tails [2,3] and [10,20] pair up
    let r = operate_bubbles(BinOp::Add, &coll(&[1, 2, 3]), &coll(&[10, 20])).unwrap();
    assert_eq!(scalar_items(&r), vec![12, 23]);
    let r = operate_bubbles(BinOp::Add, &coll(&[10, 20]), &coll(&[1, 2, 3])).unwrap();
    assert_eq!(scalar_items(&r), vec![12, 23]);
}

#[test]
fn broadcast_recurses_into_nesting() {
    let mut outer = Vec::new();
    outer.push(coll(&[1, 2]));
    outer.push(Bubble::Simple(10));
    let nested = Bubble::Double(outer);
    let r = operate_bubbles(BinOp::Add, &Bubble::Simple(5), &nested).unwrap();
    let items = r.get_bubbles();
    assert_eq!(scalar_items(&items[0]), vec![6, 7]);
    assert_eq!(items[1].get_val(), 15);
}

#[test]
fn division_by_zero_is_an_error() {
    let r = operate_bubbles(BinOp::Div, &Bubble::Simple(1), &Bubble::Simple(0));
    assert_eq!(r.unwrap_err(), RunError::DivideByZero);
    // a zero anywhere in the broadcast structure fails the whole step
    let r = operate_bubbles(BinOp::Div, &Bubble::Simple(6), &coll(&[1, 0, 2]));
    assert_eq!(r.unwrap_err(), RunError::DivideByZero);
}

#[test]
fn division_broadcast_yields_pairs() {
    let r = operate_bubbles(BinOp::Div, &coll(&[7, 9]), &Bubble::Simple(2)).unwrap();
    let items = r.get_bubbles();
    assert_eq!(scalar_items(&items[0]), vec![1, 3]);
    assert_eq!(scalar_items(&items[1]), vec![1, 4]);
}

#[test]
fn merge_two_scalars() {
    // 5 pushed first, 7 pushed second: 7 is popped first and the
    // merged collection reads [5, 7]
    let r = merge_bubbles(Bubble::Simple(7), Bubble::Simple(5));
    assert_eq!(scalar_items(&r), vec![5, 7]);
}

#[test]
fn merge_scalar_with_collection() {
    let r = merge_bubbles(coll(&[1, 2]), Bubble::Simple(9));
    assert_eq!(scalar_items(&r), vec![9, 1, 2]);
    let r = merge_bubbles(Bubble::Simple(9), coll(&[1, 2]));
    assert_eq!(scalar_items(&r), vec![9, 1, 2]);
}

#[test]
fn merge_two_collections() {
    let r = merge_bubbles(coll(&[1, 2]), coll(&[3, 4]));
    assert_eq!(scalar_items(&r), vec![3, 4, 1, 2]);
}

#[test]
fn clone_trait_copies_deeply() {
    let b = coll(&[4, 5]);
    let c = b.clone();
    assert_eq!(scalar_items(&c), vec![4, 5]);
}
