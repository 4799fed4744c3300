//! The runtime value model: a recursive sum type of scalars and ordered,
//! recursively nestable collections, and the single global value stack
//! ("bubble abyss") the execution engine operates on.
use vstd::prelude::*;

verus! {

broadcast use vstd::std_specs::vec::group_vec_axioms;

/// A runtime value: a scalar 32-bit integer or an ordered collection of
/// further bubbles, nested to any depth. Every bubble reachable from the
/// stack is owned exclusively by its slot; operations consume popped
/// bubbles and push new ones.
#[derive(Debug)]
pub enum Bubble {
    /// A scalar value.
    Simple(i32),
    /// An ordered collection of nested bubbles.
    Double(Vec<Bubble>),
}

/// The mathematical shape of a bubble: the same tree with a `Seq` in
/// place of each `Vec`. Contracts speak of this model.
pub enum BubbleModel {
    /// A scalar value.
    Int(i32),
    /// An ordered collection.
    Coll(Seq<BubbleModel>),
}

impl BubbleModel {
    /// Whether the model is a scalar.
    pub open spec fn is_scalar(self) -> bool {
        self is Int
    }
}

/// The model a bubble denotes: the same tree over `Seq`.
pub open spec fn bubble_model(b: Bubble) -> BubbleModel
    decreases b,
{
    match b {
        Bubble::Simple(v) => BubbleModel::Int(v),
        Bubble::Double(bs) => BubbleModel::Coll(
            Seq::new(
                bs@.len(),
                |i: int|
                    if 0 <= i < bs@.len() {
                        bubble_model(bs[i])
                    } else {
                        BubbleModel::Int(0)
                    },
            ),
        ),
    }
}

impl View for Bubble {
    type V = BubbleModel;

    open spec fn view(&self) -> BubbleModel {
        bubble_model(*self)
    }
}

/// The models of a sequence of bubbles, in order.
pub open spec fn models_of(bs: Seq<Bubble>) -> Seq<BubbleModel> {
    Seq::new(bs.len(), |i: int| bubble_model(bs[i]))
}

impl Bubble {
    /// Whether this bubble is a collection ("double bubble").
    pub fn is_double(&self) -> (r: bool)
        ensures
            r == (self@ is Coll),
    {
        match self {
            Bubble::Simple(_) => false,
            Bubble::Double(_) => true,
        }
    }

    /// The elements of a collection bubble.
    pub fn get_bubbles(&self) -> (r: &Vec<Bubble>)
        requires
            self@ is Coll,
        ensures
            models_of(r@) == self@->Coll_0,
    {
        match self {
            Bubble::Double(bubbles) => {
                proof {
                    assert(models_of(bubbles@) =~= self@->Coll_0);
                }
                bubbles
            },
            Bubble::Simple(_) => vstd::pervasive::unreached(),
        }
    }

    /// The value of a scalar bubble.
    pub fn get_val(&self) -> (r: i32)
        requires
            self@ is Int,
        ensures
            r == self@->Int_0,
    {
        match self {
            Bubble::Simple(val) => *val,
            Bubble::Double(_) => 0,
        }
    }

    /// The flat byte form of a bubble whose nesting is at most one deep:
    /// a scalar becomes its low byte; a collection becomes one low byte
    /// per scalar element.
    pub open spec fn spec_flat_bytes(b: BubbleModel) -> Seq<u8> {
        match b {
            BubbleModel::Int(v) => seq![v as u8],
            BubbleModel::Coll(s) => Seq::new(s.len(), |i: int| s[i]->Int_0 as u8),
        }
    }

    /// Whether a bubble is flat enough for `to_u8_array`: a scalar, or a
    /// collection of scalars only.
    pub open spec fn spec_flat_ok(b: BubbleModel) -> bool {
        match b {
            BubbleModel::Int(_) => true,
            BubbleModel::Coll(s) => forall|i: int| 0 <= i < s.len() ==> (#[trigger] s[i]) is Int,
        }
    }

    /// Flatten a scalar, or a collection of scalars, into one byte per
    /// value (each scalar truncated to its low byte).
    pub fn to_u8_array(&self) -> (r: Vec<u8>)
        requires
            Bubble::spec_flat_ok(self@),
        ensures
            r@ == Bubble::spec_flat_bytes(self@),
    {
        let mut vec: Vec<u8> = Vec::new();
        match self {
            Bubble::Simple(val) => {
                vec.push(#[verifier::truncate] (*val as u8));
                proof {
                    assert(vec@ =~= Bubble::spec_flat_bytes(self@));
                }
            },
            Bubble::Double(bubbles) => {
                proof {
                    assert(self@->Coll_0 =~= models_of(bubbles@));
                }
                let n = bubbles.len();
                let mut i: usize = 0;
                while i < n
                    invariant
                        0 <= i <= n,
                        n == bubbles@.len(),
                        self@ is Coll,
                        Bubble::spec_flat_ok(self@),
                        self@->Coll_0 == models_of(bubbles@),
                        vec@ =~= Bubble::spec_flat_bytes(self@).subrange(0, i as int),
                    decreases n - i,
                {
                    proof {
                        assert(models_of(bubbles@)[i as int] == bubble_model(bubbles@[i as int]));
                        assert(self@->Coll_0[i as int] is Int);
                    }
                    vec.push(#[verifier::truncate] (bubbles[i].get_val() as u8));
                    proof {
                        assert(vec@ =~= Bubble::spec_flat_bytes(self@).subrange(0, i + 1 as int));
                    }
                    i += 1;
                }
                proof {
                    assert(vec@ =~= Bubble::spec_flat_bytes(self@));
                }
            },
        }
        vec
    }
}

impl Clone for Bubble {
    /// A deep copy with the same model.
    fn clone(&self) -> (res: Self)
        ensures
            res@ == self@,
    {
        clone_bubble(self)
    }
}

/// Deep-copy a bubble; the copy has the same model.
#[verifier::loop_isolation(false)]
pub fn clone_bubble(b: &Bubble) -> (res: Bubble)
    ensures
        res@ == b@,
    decreases b,
{
    match b {
        Bubble::Simple(v) => Bubble::Simple(*v),
        Bubble::Double(bs) => {
            let n = bs.len();
            let mut out: Vec<Bubble> = Vec::new();
            let mut i: usize = 0;
            while i < n
                invariant
                    0 <= i <= n,
                    n == bs@.len(),
                    out@.len() == i,
                    forall|j: int| 0 <= j < i ==> (#[trigger] out[j])@ == bs[j]@,
                decreases n - i,
            {
                proof {
                    assert(decreases_to!(*b => b->Double_0));
                    assert(b->Double_0 == *bs);
                    assert(decreases_to!(*bs => bs@));
                    assert(decreases_to!(bs@ => bs@[i as int]));
                }
                out.push(clone_bubble(&bs[i]));
                i += 1;
            }
            let res = Bubble::Double(out);
            proof {
                assert(res@->Coll_0 =~= b@->Coll_0);
            }
            res
        },
    }
}

/// What merging two popped bubbles yields, `a` popped first (the old
/// top), `b` popped second: two scalars make the collection `[b, a]`; a
/// scalar and a collection make the collection with the scalar
/// prepended; two collections concatenate, the second-popped elements
/// first.
pub open spec fn spec_merge(a: BubbleModel, b: BubbleModel) -> BubbleModel {
    match (a, b) {
        (BubbleModel::Int(_), BubbleModel::Int(_)) => BubbleModel::Coll(seq![b, a]),
        (BubbleModel::Coll(s), BubbleModel::Int(_)) => BubbleModel::Coll(seq![b] + s),
        (BubbleModel::Int(_), BubbleModel::Coll(s)) => BubbleModel::Coll(seq![a] + s),
        (BubbleModel::Coll(s1), BubbleModel::Coll(s2)) => BubbleModel::Coll(s2 + s1),
    }
}

/// Merge two popped bubbles into one collection, `bubble1` popped
/// first, per the shape rules of [`spec_merge`].
pub fn merge_bubbles(bubble1: Bubble, bubble2: Bubble) -> (r: Bubble)
    ensures
        r@ == spec_merge(bubble1@, bubble2@),
{
    let ghost a = bubble1@;
    let ghost b = bubble2@;
    match (bubble1, bubble2) {
        (Bubble::Simple(v1), Bubble::Simple(v2)) => {
            let mut vec: Vec<Bubble> = Vec::new();
            vec.push(Bubble::Simple(v2));
            vec.push(Bubble::Simple(v1));
            let r = Bubble::Double(vec);
            proof {
                assert(r@->Coll_0 =~= spec_merge(a, b)->Coll_0);
            }
            r
        },
        (Bubble::Double(mut bs1), Bubble::Simple(v2)) => {
            bs1.insert(0, Bubble::Simple(v2));
            let r = Bubble::Double(bs1);
            proof {
                assert(r@->Coll_0 =~= spec_merge(a, b)->Coll_0);
            }
            r
        },
        (Bubble::Simple(v1), Bubble::Double(mut bs2)) => {
            bs2.insert(0, Bubble::Simple(v1));
            let r = Bubble::Double(bs2);
            proof {
                assert(r@->Coll_0 =~= spec_merge(a, b)->Coll_0);
            }
            r
        },
        (Bubble::Double(mut bs1), Bubble::Double(mut bs2)) => {
            bs2.append(&mut bs1);
            let r = Bubble::Double(bs2);
            proof {
                assert(r@->Coll_0 =~= spec_merge(a, b)->Coll_0);
            }
            r
        },
    }
}

/// The single global value stack. All mutation is sequential; the stack
/// exclusively owns every bubble reachable from it.
#[derive(Debug)]
pub struct BubbleAbyss {
    pub(crate) bubbles: Vec<Bubble>,
}

impl View for BubbleAbyss {
    type V = Seq<BubbleModel>;

    /// The stack's model, bottom first: the last element is the top.
    closed spec fn view(&self) -> Seq<BubbleModel> {
        models_of(self.bubbles@)
    }
}

impl BubbleAbyss {
    /// The empty stack.
    pub fn new() -> (r: Self)
        ensures
            r@ =~= Seq::<BubbleModel>::empty(),
    {
        BubbleAbyss { bubbles: Vec::new() }
    }

    /// Push a bubble on top.
    pub fn push(&mut self, bubble: Bubble)
        ensures
            final(self)@ =~= old(self)@.push(bubble@),
    {
        self.bubbles.push(bubble);
    }

    /// Pop the top bubble; `None` on an empty stack.
    pub fn pop(&mut self) -> (r: Option<Bubble>)
        ensures
            old(self)@.len() == 0 ==> r is None && final(self)@ =~= old(self)@,
            old(self)@.len() > 0 ==> r is Some && r->0@ == old(self)@.last() && final(self)@
                =~= old(self)@.drop_last(),
    {
        let r = self.bubbles.pop();
        proof {
            if old(self)@.len() > 0 {
                assert(final(self)@ =~= old(self)@.drop_last());
            }
        }
        r
    }

    /// Borrow the top bubble; `None` on an empty stack.
    pub fn top(&self) -> (r: Option<&Bubble>)
        ensures
            self@.len() == 0 ==> r is None,
            self@.len() > 0 ==> r is Some && r->0@ == self@.last(),
    {
        if self.bubbles.len() == 0 {
            None
        } else {
            let i = self.bubbles.len() - 1;
            Some(&self.bubbles[i])
        }
    }

    /// Borrow the bubble just under the top; `None` with fewer than two.
    pub fn before_top(&self) -> (r: Option<&Bubble>)
        ensures
            self@.len() < 2 ==> r is None,
            self@.len() >= 2 ==> r is Some && r->0@ == self@[self@.len() - 2],
    {
        if self.bubbles.len() >= 2 {
            let i = self.bubbles.len() - 2;
            Some(&self.bubbles[i])
        } else {
            None
        }
    }

    /// The number of bubbles on the stack.
    pub fn len(&self) -> (r: usize)
        ensures
            r == self@.len(),
    {
        self.bubbles.len()
    }

    /// Whether the stack holds no bubbles.
    pub fn is_empty(&self) -> (r: bool)
        ensures
            r == (self@.len() == 0),
    {
        self.bubbles.is_empty()
    }

    /// Insert a bubble at a position counted from the bottom (0 inserts
    /// at the very bottom).
    pub fn insert_at(&mut self, index: usize, bubble: Bubble)
        requires
            index <= old(self)@.len(),
        ensures
            final(self)@ =~= old(self)@.insert(index as int, bubble@),
    {
        self.bubbles.insert(index, bubble);
    }
}

} // verus!
