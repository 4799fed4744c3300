//! The foreign-call marshaler: converts a bubble describing a function
//! name and a list of typed argument descriptors into a flat byte
//! buffer for a natively loaded function.
use vstd::prelude::*;

use crate::bubble::{bubble_model, models_of, Bubble, BubbleModel};
use crate::errors::RunError;
use crate::text::awascii_seq;

verus! {

broadcast use vstd::std_specs::vec::group_vec_axioms;

/// The ASCII byte of one alphabet symbol.
pub open spec fn spec_awascii_byte(i: int) -> u8 {
    awascii_seq()[i] as u8
}

proof fn lemma_awascii_char_small(i: int)
    requires
        0 <= i < 64,
    ensures
        (awascii_seq()[i] as int) < 128,
{
    reveal_strlit("AWawJELYHOSIUMjelyhosiumPCNTpcntBDFGRbdfgr0123456789 .,!'()~_/;\n");
}

/// The ASCII byte of the alphabet symbol at a given index.
pub fn awascii_byte_at(i: usize) -> (b: u8)
    requires
        i < 64,
    ensures
        b == spec_awascii_byte(i as int),
{
    let c = crate::text::awascii_at(i);
    let u = c as u32;
    proof {
        lemma_awascii_char_small(i as int);
    }
    u as u8
}

/// The bytes one argument descriptor marshals to, or `None` where the
/// descriptor is malformed. A descriptor is a collection
/// `[type_tag, payload]`; its tags are: 0 = the payload's flat bytes
/// (a scalar's low byte, or one low byte per scalar element); 1 = one
/// alphabet symbol indexed by the payload scalar, as one byte; 2 = the
/// payload scalar as one raw byte; 3 = the payload elements as alphabet
/// symbols, in reverse order, NUL-terminated; 4 = the payload elements
/// as raw bytes, in reverse order, NUL-terminated.
pub open spec fn spec_marshal_arg(d: BubbleModel) -> Option<Seq<u8>> {
    if !(d is Coll) {
        None
    } else {
        let s = d->Coll_0;
        if s.len() < 2 || !(s[0] is Int) {
            None
        } else {
            let tag = s[0]->Int_0;
            let payload = s[1];
            if tag == 0 {
                if Bubble::spec_flat_ok(payload) {
                    Some(Bubble::spec_flat_bytes(payload))
                } else {
                    None
                }
            } else if tag == 1 {
                if payload is Int && 0 <= payload->Int_0 < 64 {
                    Some(seq![spec_awascii_byte(payload->Int_0 as int)])
                } else {
                    None
                }
            } else if tag == 2 {
                if payload is Int {
                    Some(seq![payload->Int_0 as u8])
                } else {
                    None
                }
            } else if tag == 3 {
                if payload is Coll && (forall|i: int|
                    0 <= i < payload->Coll_0.len() ==> (#[trigger] payload->Coll_0[i]) is Int && 0
                        <= payload->Coll_0[i]->Int_0 < 64) {
                    let p = payload->Coll_0;
                    Some(
                        Seq::new(
                            p.len(),
                            |i: int| spec_awascii_byte(p[p.len() - 1 - i]->Int_0 as int),
                        ).push(0u8),
                    )
                } else {
                    None
                }
            } else if tag == 4 {
                if payload is Coll && (forall|i: int|
                    0 <= i < payload->Coll_0.len() ==> (#[trigger] payload->Coll_0[i]) is Int) {
                    let p = payload->Coll_0;
                    Some(
                        Seq::new(p.len(), |i: int| p[p.len() - 1 - i]->Int_0 as u8).push(0u8),
                    )
                } else {
                    None
                }
            } else {
                None
            }
        }
    }
}

/// The flat buffer a whole descriptor list marshals to: each
/// descriptor's bytes in order, or `None` if any descriptor is
/// malformed.
pub open spec fn spec_marshal_args(s: Seq<BubbleModel>) -> Option<Seq<u8>>
    decreases s.len(),
{
    if s.len() == 0 {
        Some(seq![])
    } else {
        match (spec_marshal_args(s.drop_last()), spec_marshal_arg(s.last())) {
            (Some(init), Some(last)) => Some(init + last),
            _ => None,
        }
    }
}

/// The byte one string-payload element contributes: its alphabet
/// symbol for tag 3, its low byte for tag 4.
pub open spec fn spec_str_byte(b: BubbleModel, tag: int) -> u8 {
    if tag == 3 {
        spec_awascii_byte(b->Int_0 as int)
    } else {
        b->Int_0 as u8
    }
}

/// Marshal one argument descriptor, appending its bytes.
#[verifier::loop_isolation(false)]
fn marshal_arg(d: &Bubble, out: &mut Vec<u8>) -> (ok: bool)
    ensures
        ok <==> spec_marshal_arg(d@) is Some,
        ok ==> final(out)@ == old(out)@ + spec_marshal_arg(d@)->0,
{
    let bs = match d {
        Bubble::Double(bs) => bs,
        Bubble::Simple(_) => {
            return false;
        },
    };
    proof {
        assert(d@->Coll_0 =~= models_of(bs@));
    }
    if bs.len() < 2 {
        return false;
    }
    let tag: i32 = match &bs[0] {
        Bubble::Simple(v) => *v,
        Bubble::Double(_) => {
            proof {
                assert(d@->Coll_0[0] == bubble_model(bs@[0]));
            }
            return false;
        },
    };
    let payload = &bs[1];
    proof {
        assert(d@->Coll_0[0] == bubble_model(bs@[0]));
        assert(d@->Coll_0[1] == bubble_model(bs@[1]));
    }
    if tag == 0 {
        let flat_ok = match payload {
            Bubble::Simple(_) => true,
            Bubble::Double(elems) => {
                proof {
                    assert(payload@->Coll_0 =~= models_of(elems@));
                }
                let mut all_simple = true;
                let mut i: usize = 0;
                let n = elems.len();
                while i < n && all_simple
                    invariant
                        0 <= i <= n,
                        all_simple ==> forall|j: int|
                            0 <= j < i ==> (#[trigger] payload@->Coll_0[j]) is Int,
                        !all_simple ==> exists|j: int|
                            0 <= j < n && !((#[trigger] payload@->Coll_0[j]) is Int),
                    decreases n - i,
                {
                    proof {
                        assert(payload@->Coll_0[i as int] == bubble_model(elems@[i as int]));
                    }
                    if elems[i].is_double() {
                        all_simple = false;
                    }
                    i += 1;
                }
                all_simple
            },
        };
        if !flat_ok {
            proof {
                assert(!Bubble::spec_flat_ok(payload@));
            }
            return false;
        }
        let mut bytes = payload.to_u8_array();
        out.append(&mut bytes);
        return true;
    }
    if tag == 1 {
        let v: i32 = match payload {
            Bubble::Simple(v) => *v,
            Bubble::Double(_) => {
                return false;
            },
        };
        if v < 0 || v >= 64 {
            return false;
        }
        out.push(awascii_byte_at(v as usize));
        proof {
            assert(out@ =~= old(out)@ + spec_marshal_arg(d@)->0);
        }
        return true;
    }
    if tag == 2 {
        let v: i32 = match payload {
            Bubble::Simple(v) => *v,
            Bubble::Double(_) => {
                return false;
            },
        };
        out.push(#[verifier::truncate] (v as u8));
        proof {
            assert(out@ =~= old(out)@ + spec_marshal_arg(d@)->0);
        }
        return true;
    }
    if tag == 3 || tag == 4 {
        let elems = match payload {
            Bubble::Simple(_) => {
                return false;
            },
            Bubble::Double(elems) => elems,
        };
        proof {
            assert(payload@->Coll_0 =~= models_of(elems@));
        }
        let ghost p = payload@->Coll_0;
        let n = elems.len();
        let mut i: usize = 0;
        // walk the payload back to front
        while i < n
            invariant
                0 <= i <= n,
                forall|t: int|
                    n - i <= t < n ==> (#[trigger] p[t]) is Int && (tag == 3 ==> 0 <= p[t]->Int_0
                        < 64),
                out@ =~= old(out)@ + Seq::new(
                    i as nat,
                    |j: int| spec_str_byte(p[p.len() - 1 - j], tag as int),
                ),
            decreases n - i,
        {
            let idx = n - 1 - i;
            proof {
                assert(p[idx as int] == bubble_model(elems@[idx as int]));
            }
            let v: i32 = match &elems[idx] {
                Bubble::Simple(v) => *v,
                Bubble::Double(_) => {
                    return false;
                },
            };
            if tag == 3 {
                if v < 0 || v >= 64 {
                    return false;
                }
                out.push(awascii_byte_at(v as usize));
            } else {
                out.push(#[verifier::truncate] (v as u8));
            }
            i += 1;
            proof {
                assert(out@ =~= old(out)@ + Seq::new(
                    i as nat,
                    |j: int| spec_str_byte(p[p.len() - 1 - j], tag as int),
                ));
            }
        }
        out.push(0u8);
        proof {
            assert(spec_marshal_arg(d@) is Some);
            assert(out@ =~= old(out)@ + spec_marshal_arg(d@)->0);
        }
        return true;
    }
    false
}

/// Marshal a foreign call's argument-descriptor list into one flat
/// byte buffer, per [`spec_marshal_args`]. The argument bubble must be
/// a collection of well-formed descriptors; anything else is a
/// marshaling error, never a guess.
pub fn parse_fn_args(bubble: &Bubble) -> (r: Result<Vec<u8>, RunError>)
    ensures
        r is Ok <==> (bubble@ is Coll && spec_marshal_args(bubble@->Coll_0) is Some),
        r is Ok ==> r->Ok_0@ == spec_marshal_args(bubble@->Coll_0)->0,
        r is Err ==> r->Err_0 == RunError::MalformedForeignArgument,
{
    let bs = match bubble {
        Bubble::Double(bs) => bs,
        Bubble::Simple(_) => {
            return Err(RunError::MalformedForeignArgument);
        },
    };
    proof {
        assert(bubble@->Coll_0 =~= models_of(bs@));
    }
    let ghost s = bubble@->Coll_0;
    let mut args: Vec<u8> = Vec::new();
    let n = bs.len();
    let mut i: usize = 0;
    while i < n
        invariant
            0 <= i <= n,
            n == bs@.len(),
            bubble@ is Coll,
            s == bubble@->Coll_0,
            s == models_of(bs@),
            Some(args@) == spec_marshal_args(s.take(i as int)),
        decreases n - i,
    {
        proof {
            assert(s[i as int] == bubble_model(bs@[i as int]));
        }
        let ok = marshal_arg(&bs[i], &mut args);
        if !ok {
            proof {
                assert(s.take(i + 1 as int).drop_last() =~= s.take(i as int));
                assert(s.take(i + 1 as int).last() == s[i as int]);
                assert(spec_marshal_args(s.take(i + 1 as int)) is None);
                lemma_marshal_args_none_extends(s, i + 1 as int);
            }
            return Err(RunError::MalformedForeignArgument);
        }
        i += 1;
        proof {
            assert(s.take(i as int).drop_last() =~= s.take(i - 1));
            assert(s.take(i as int).last() == s[i - 1]);
            assert(Some(args@) == spec_marshal_args(s.take(i as int)));
        }
    }
    proof {
        assert(s.take(n as int) =~= s);
    }
    Ok(args)
}

/// Once a descriptor prefix fails to marshal, the whole list fails.
proof fn lemma_marshal_args_none_extends(s: Seq<BubbleModel>, i: int)
    requires
        0 <= i <= s.len(),
        spec_marshal_args(s.take(i)) is None,
    ensures
        spec_marshal_args(s) is None,
    decreases s.len() - i,
{
    if i < s.len() {
        assert(s.take(i + 1).drop_last() =~= s.take(i));
        lemma_marshal_args_none_extends(s, i + 1);
    } else {
        assert(s.take(i) =~= s);
    }
}

/// A foreign function's name, decoded from its reversed byte form.
///
/// Relies on `String::from_utf8`: bytes that are all ASCII decode to
/// the string with exactly those characters, one per byte; bytes that
/// are not valid UTF-8 are rejected.
#[verifier::external_body]
pub fn parse_fn_name(data: &[u8]) -> (r: Option<String>)
    ensures
        (forall|i: int| 0 <= i < data@.len() ==> data@[i] < 0x80) ==> r is Some && r->0@.len()
            == data@.len() && (forall|i: int|
            0 <= i < data@.len() ==> r->0@[i] == data@[i] as char),
{
    match String::from_utf8(data.to_vec()) {
        Ok(s) => Some(s),
        Err(_) => None,
    }
}

} // verus!
