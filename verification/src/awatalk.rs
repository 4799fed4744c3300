//! The unary ("awatalk") text decoder: normalizes raw text to its
//! `a` / `w` / space skeleton, lexes the two-token alphabet into bits,
//! and groups the bits into instructions.
use vstd::prelude::*;

use crate::assembler::{
    record_arg, record_op, spec_awa_records, spec_awa_text, spec_bits, spec_decode,
    spec_record_tokens, spec_tokens, valid_object,
};
use crate::errors::TalkError;
use crate::isa::{Awatism, Instruction};
use vstd::string::StrSliceExecFns;

verus! {

broadcast use vstd::std_specs::vec::group_vec_axioms;

/// Whether a character survives normalization.
pub open spec fn spec_is_aw(c: char) -> bool {
    c == 'a' || c == 'w' || c == ' '
}

/// The subsequence of `a`, `w` and space characters.
pub open spec fn spec_filter_aw(s: Seq<char>) -> Seq<char>
    decreases s.len(),
{
    if s.len() == 0 {
        Seq::empty()
    } else {
        spec_filter_aw(s.drop_last()) + (if spec_is_aw(s.last()) {
            seq![s.last()]
        } else {
            Seq::empty()
        })
    }
}

/// The whitespace-collapsing fold: the text normalized so far, and
/// whether a space is pending between it and the next word character.
pub open spec fn spec_norm_state(s: Seq<char>) -> (Seq<char>, bool)
    decreases s.len(),
{
    if s.len() == 0 {
        (Seq::empty(), false)
    } else {
        let (r, p) = spec_norm_state(s.drop_last());
        let c = s.last();
        if c == ' ' {
            (r, r.len() > 0)
        } else if p {
            (r + seq![' '] + seq![c], false)
        } else {
            (r + seq![c], false)
        }
    }
}

/// Normalized text: only `a`, `w` and space characters, runs of spaces
/// collapsed to one, no leading or trailing space.
pub open spec fn spec_normalize(s: Seq<char>) -> Seq<char> {
    spec_norm_state(spec_filter_aw(s)).0
}

/// Greedy lexing of the two-token alphabet: the 4-character token
/// `" awa"` is bit 0, the 2-character token `"wa"` is bit 1; lexing
/// stops at the first character run that is neither.
pub open spec fn spec_lex(s: Seq<char>) -> Seq<bool>
    decreases s.len(),
{
    if s.len() >= 4 && s.take(4) == " awa"@ {
        seq![false] + spec_lex(s.skip(4))
    } else if s.len() >= 2 && s.take(2) == "wa"@ {
        seq![true] + spec_lex(s.skip(2))
    } else {
        Seq::empty()
    }
}

/// The value of a bit run, most significant bit first.
pub open spec fn spec_bits_value(bits: Seq<bool>) -> int
    decreases bits.len(),
{
    if bits.len() == 0 {
        0
    } else {
        spec_bits_value(bits.drop_last()) * 2 + (if bits.last() {
            1int
        } else {
            0int
        })
    }
}

/// Group a bit stream into instructions: 5 bits of opcode, then the
/// argument's bits where the opcode carries an argument. A trailing
/// group too short to complete is dropped; an opcode outside the
/// catalog is an error.
pub open spec fn spec_group(bits: Seq<bool>) -> Option<Seq<Awatism>>
    decreases bits.len(),
{
    if bits.len() < 5 {
        Some(Seq::empty())
    } else {
        let op = spec_bits_value(bits.take(5)) as u8;
        if Awatism::spec_needs_args(op) {
            let w = Awatism::spec_arg_bits(op) as int;
            if bits.len() < 5 + w {
                Some(Seq::empty())
            } else {
                let arg = spec_bits_value(bits.subrange(5, 5 + w)) as u8;
                match (Awatism::spec_from_u8(op, arg), spec_group(bits.skip(5 + w))) {
                    (Some(a), Some(rest)) => Some(seq![a] + rest),
                    _ => None,
                }
            }
        } else {
            match (Awatism::spec_from_u8(op, 0), spec_group(bits.skip(5))) {
                (Some(a), Some(rest)) => Some(seq![a] + rest),
                _ => None,
            }
        }
    }
}

/// What parsing unary text yields: the text must normalize to
/// something starting with the literal `awa`; the rest is lexed to
/// bits and grouped into instructions.
pub open spec fn spec_parse_awatalk(s: Seq<char>) -> Option<Seq<Awatism>> {
    let norm = spec_normalize(s);
    if norm.len() < 3 || norm.take(3) != "awa"@ {
        None
    } else {
        spec_group(spec_lex(norm.skip(3)))
    }
}

/// Normalize raw text to its `a` / `w` / space skeleton with collapsed
/// spacing, per [`spec_normalize`].
fn normalize_chars(content: &str) -> (r: Vec<char>)
    ensures
        r@ == spec_normalize(content@),
{
    let len = content.unicode_len();
    let mut out: Vec<char> = Vec::new();
    let mut pending = false;
    let mut i: usize = 0;
    while i < len
        invariant
            0 <= i <= len,
            len == content@.len(),
            (out@, pending) == spec_norm_state(spec_filter_aw(content@.take(i as int))),
        decreases len - i,
    {
        let c = content.get_char(i);
        proof {
            assert(content@.take(i + 1).drop_last() =~= content@.take(i as int));
            assert(content@.take(i + 1).last() == content@[i as int]);
        }
        if c == 'a' || c == 'w' || c == ' ' {
            proof {
                assert(spec_filter_aw(content@.take(i + 1)) =~= spec_filter_aw(
                    content@.take(i as int),
                ) + seq![content@[i as int]]);
                assert(spec_filter_aw(content@.take(i + 1)).drop_last() =~= spec_filter_aw(
                    content@.take(i as int),
                ));
            }
            if c == ' ' {
                if out.len() > 0 {
                    pending = true;
                }
            } else {
                if pending {
                    out.push(' ');
                }
                out.push(c);
                pending = false;
            }
        } else {
            proof {
                assert(spec_filter_aw(content@.take(i + 1)) =~= spec_filter_aw(
                    content@.take(i as int),
                ));
            }
        }
        i += 1;
    }
    proof {
        assert(content@.take(len as int) =~= content@);
    }
    out
}

/// Parse unary ("awatalk") text into instructions, per
/// [`spec_parse_awatalk`]: text whose normal form does not begin with
/// `awa` is rejected, and a decoded opcode outside the catalog is an
/// error; lexing stops silently at the first malformed token, and a
/// trailing group too short to complete an instruction is dropped.
pub fn parse_string(content: &str) -> (r: Result<Vec<Instruction>, TalkError>)
    ensures
        r is Ok <==> spec_parse_awatalk(content@) is Some,
        r is Ok ==> {
            let instrs = spec_parse_awatalk(content@)->0;
            &&& r->Ok_0@.len() == instrs.len()
            &&& forall|i: int|
                0 <= i < instrs.len() ==> (#[trigger] r->Ok_0@[i]).awatism == instrs[i]
        },
        r is Err ==> (r->Err_0 == TalkError::NotAwatalk <==> {
            let norm = spec_normalize(content@);
            norm.len() < 3 || norm.take(3) != "awa"@
        }),
{
    let norm = normalize_chars(content);
    proof {
        reveal_strlit("awa");
    }
    if norm.len() < 3 {
        return Err(TalkError::NotAwatalk);
    }
    if !(norm[0] == 'a' && norm[1] == 'w' && norm[2] == 'a') {
        proof {
            if norm@.take(3) == "awa"@ {
                assert(norm@[0] == norm@.take(3)[0] && norm@[1] == norm@.take(3)[1] && norm@[2]
                    == norm@.take(3)[2]);
                assert(false);
            }
        }
        return Err(TalkError::NotAwatalk);
    }
    proof {
        assert(norm@.take(3) =~= "awa"@);
    }
    let ghost body = norm@.skip(3);
    // lex the token stream into bits
    let mut bits: Vec<bool> = Vec::new();
    let len = norm.len();
    let mut p: usize = 3;
    while p < len
        invariant
            3 <= p <= len,
            len == norm@.len(),
            body == norm@.skip(3),
            spec_lex(body) == bits@ + spec_lex(norm@.skip(p as int)),
        ensures
            3 <= p <= len,
            spec_lex(body) == bits@ + spec_lex(norm@.skip(p as int)),
            p == len || spec_lex(norm@.skip(p as int)) == Seq::<bool>::empty(),
        decreases len - p,
    {
        proof {
            reveal_strlit(" awa");
            reveal_strlit("wa");
        }
        if len - p >= 4 && norm[p] == ' ' && norm[p + 1] == 'a' && norm[p + 2] == 'w' && norm[p
            + 3] == 'a' {
            bits.push(false);
            proof {
                assert(norm@.skip(p as int).take(4) =~= " awa"@);
                assert(norm@.skip(p as int).skip(4) =~= norm@.skip(p + 4));
                assert(spec_lex(norm@.skip(p as int)) == seq![false] + spec_lex(
                    norm@.skip(p + 4),
                ));
                assert(bits@ + spec_lex(norm@.skip(p + 4)) =~= spec_lex(body));
            }
            p = p + 4;
        } else if len - p >= 2 && norm[p] == 'w' && norm[p + 1] == 'a' {
            bits.push(true);
            proof {
                let sp = norm@.skip(p as int);
                assert(sp.take(2) =~= "wa"@);
                if sp.len() >= 4 && sp.take(4) == " awa"@ {
                    assert(sp.take(4)[0] == ' ');
                    assert(sp.take(2)[0] == 'w');
                    assert(false);
                }
                assert(sp.skip(2) =~= norm@.skip(p + 2));
                assert(spec_lex(sp) == seq![true] + spec_lex(norm@.skip(p + 2)));
                assert(bits@ + spec_lex(norm@.skip(p + 2)) =~= spec_lex(body));
            }
            p = p + 2;
        } else {
            proof {
                reveal_strlit(" awa");
                reveal_strlit("wa");
                let sp = norm@.skip(p as int);
                if sp.len() >= 4 && sp.take(4) == " awa"@ {
                    assert(sp.take(4)[0] == ' ' && sp.take(4)[1] == 'a' && sp.take(4)[2] == 'w'
                        && sp.take(4)[3] == 'a');
                    assert(sp[0] == norm@[p as int] && sp[1] == norm@[p + 1] && sp[2] == norm@[p
                        + 2] && sp[3] == norm@[p + 3]);
                    assert(false);
                }
                if sp.len() >= 2 && sp.take(2) == "wa"@ {
                    assert(sp.take(2)[0] == 'w' && sp.take(2)[1] == 'a');
                    assert(sp[0] == norm@[p as int] && sp[1] == norm@[p + 1]);
                    assert(false);
                }
                assert(spec_lex(sp) =~= Seq::<bool>::empty());
                assert(bits@ + spec_lex(norm@.skip(p as int)) =~= bits@);
            }
            break ;
        }
    }
    proof {
        if p == len {
            assert(norm@.skip(len as int) =~= Seq::<char>::empty());
            assert(spec_lex(norm@.skip(len as int)) =~= Seq::<bool>::empty());
        }
        assert(bits@ + Seq::<bool>::empty() =~= bits@);
        assert(spec_lex(body) == bits@);
    }
    // group the bits into instructions
    let mut instructions: Vec<Instruction> = Vec::new();
    let nbits = bits.len();
    let mut q: usize = 0;
    proof {
        assert(bits@.skip(0) =~= bits@);
        match spec_group(bits@) {
            Some(rest) => {
                assert(Seq::new(instructions@.len(), |t: int| instructions@[t].awatism) + rest
                    =~= rest);
            },
            None => {},
        }
    }
    while nbits - q >= 5
        invariant
            0 <= q <= nbits,
            nbits == bits@.len(),
            norm@ == spec_normalize(content@),
            norm@.len() >= 3,
            norm@.take(3) == "awa"@,
            body == norm@.skip(3),
            spec_lex(body) == bits@,
            (match spec_group(bits@.skip(q as int)) {
                Some(rest) => spec_group(bits@) == Some(
                    Seq::new(instructions@.len(), |t: int| instructions@[t].awatism) + rest,
                ),
                None => spec_group(bits@) is None,
            }),
        ensures
            0 <= q <= nbits,
            nbits == bits@.len(),
            bits@.skip(q as int).len() < 5,
            (match spec_group(bits@.skip(q as int)) {
                Some(rest) => spec_group(bits@) == Some(
                    Seq::new(instructions@.len(), |t: int| instructions@[t].awatism) + rest,
                ),
                None => spec_group(bits@) is None,
            }),
        decreases nbits - q,
    {
        let ghost tail = bits@.skip(q as int);
        let ghost acc = Seq::new(instructions@.len(), |t: int| instructions@[t].awatism);
        let mut op: u8 = 0;
        let mut t: usize = 0;
        while t < 5
            invariant
                0 <= t <= 5,
                q + 5 <= nbits,
                nbits == bits@.len(),
                op as int == spec_bits_value(bits@.subrange(q as int, q + t)),
            decreases 5 - t,
        {
            proof {
                assert(bits@.subrange(q as int, q + t + 1).drop_last() =~= bits@.subrange(
                    q as int,
                    q + t,
                ));
                assert(bits@.subrange(q as int, q + t + 1).last() == bits@[q + t]);
                lemma_bits_value_bound(bits@.subrange(q as int, q + t));
            }
            op = 2 * op + (if bits[q + t] {
                1
            } else {
                0
            });
            t += 1;
        }
        proof {
            lemma_bits_value_bound(bits@.subrange(q as int, q + 5));
        }
        proof {
            assert(tail.take(5) =~= bits@.subrange(q as int, q + 5));
        }
        let width = Awatism::arg_bits(op);
        if Awatism::needs_args(op) {
            if width > nbits - (q + 5) {
                proof {
                    assert(tail.len() < 5 + width);
                    assert(spec_group(tail) == Some(Seq::<Awatism>::empty()));
                    assert(acc + Seq::<Awatism>::empty() =~= acc);
                }
                q = nbits;
                break ;
            }
            let mut arg: u8 = 0;
            let mut u: usize = 0;
            while u < width
                invariant
                    0 <= u <= width,
                    width <= 8,
                    q + 5 + width <= nbits,
                    nbits == bits@.len(),
                    arg as int == spec_bits_value(bits@.subrange(q + 5, q + 5 + u)),
                decreases width - u,
            {
                proof {
                    assert(bits@.subrange(q + 5, q + 5 + u + 1).drop_last() =~= bits@.subrange(
                        q + 5,
                        q + 5 + u,
                    ));
                    assert(bits@.subrange(q + 5, q + 5 + u + 1).last() == bits@[q + 5 + u]);
                    assert(spec_bits_value(bits@.subrange(q + 5, q + 5 + u)) < 128) by {
                        lemma_bits_value_bound(bits@.subrange(q + 5, q + 5 + u));
                    }
                }
                arg = 2 * arg + (if bits[q + 5 + u] {
                    1
                } else {
                    0
                });
                u += 1;
            }
            proof {
                assert(tail.subrange(5, 5 + width as int) =~= bits@.subrange(
                    q + 5,
                    q + 5 + width,
                ));
            }
            match Awatism::from_u8(op, arg) {
                Some(a) => {
                    let ghost aw = a;
                    instructions.push(Instruction { awatism: a });
                    proof {
                        assert(tail.skip(5 + width as int) =~= bits@.skip(q + 5 + width));
                        let newacc = Seq::new(
                            instructions@.len(),
                            |t2: int| instructions@[t2].awatism,
                        );
                        assert(newacc =~= acc + seq![aw]);
                        match spec_group(bits@.skip(q + 5 + width)) {
                            Some(rest2) => {
                                assert(spec_group(tail) == Some(seq![aw] + rest2));
                                assert(newacc + rest2 =~= acc + (seq![aw] + rest2));
                            },
                            None => {
                                assert(spec_group(tail) is None);
                            },
                        }
                    }
                    q = q + 5 + width;
                },
                None => {
                    proof {
                        assert(spec_group(tail) is None);
                    }
                    return Err(TalkError::UnknownOpcode);
                },
            }
        } else {
            match Awatism::from_u8(op, 0) {
                Some(a) => {
                    let ghost aw = a;
                    instructions.push(Instruction { awatism: a });
                    proof {
                        assert(tail.skip(5) =~= bits@.skip(q + 5));
                        let newacc = Seq::new(
                            instructions@.len(),
                            |t2: int| instructions@[t2].awatism,
                        );
                        assert(newacc =~= acc + seq![aw]);
                        match spec_group(bits@.skip(q + 5)) {
                            Some(rest2) => {
                                assert(spec_group(tail) == Some(seq![aw] + rest2));
                                assert(newacc + rest2 =~= acc + (seq![aw] + rest2));
                            },
                            None => {
                                assert(spec_group(tail) is None);
                            },
                        }
                    }
                    q = q + 5;
                },
                None => {
                    proof {
                        assert(spec_group(tail) is None);
                    }
                    return Err(TalkError::UnknownOpcode);
                },
            }
        }
    }
    proof {
        assert(spec_group(bits@.skip(q as int)) == Some(Seq::<Awatism>::empty()));
        assert(Seq::new(instructions@.len(), |t: int| instructions@[t].awatism)
            + Seq::<Awatism>::empty() =~= Seq::new(
            instructions@.len(),
            |t: int| instructions@[t].awatism,
        ));
        assert(spec_parse_awatalk(content@) == Some(
            Seq::new(instructions@.len(), |t: int| instructions@[t].awatism),
        ));
    }
    Ok(instructions)
}

/// A bit run of length `w` has a value below two to the `w`.
proof fn lemma_bits_value_bound(bits: Seq<bool>)
    ensures
        bits.len() <= 1 ==> spec_bits_value(bits) < 2,
        bits.len() <= 2 ==> spec_bits_value(bits) < 4,
        bits.len() <= 3 ==> spec_bits_value(bits) < 8,
        bits.len() <= 4 ==> spec_bits_value(bits) < 16,
        bits.len() <= 5 ==> spec_bits_value(bits) < 32,
        bits.len() <= 6 ==> spec_bits_value(bits) < 64,
        bits.len() <= 7 ==> spec_bits_value(bits) < 128,
        bits.len() <= 8 ==> spec_bits_value(bits) < 256,
        spec_bits_value(bits) >= 0,
    decreases bits.len(),
{
    if bits.len() > 0 {
        lemma_bits_value_bound(bits.drop_last());
    }
}


/// A buffer that is valid and whose 5-bit arguments fit their width,
/// so that the unary encoding loses nothing.
pub open spec fn valid_awa_object(v: Seq<u8>) -> bool {
    &&& valid_object(v)
    &&& forall|i: int|
        0 <= i < v.len() / 2 && Awatism::spec_needs_args(#[trigger] record_op(v, i))
            && Awatism::spec_arg_bits(record_op(v, i)) == 5 ==> record_arg(v, i) < 32
}

/// The bit stream of a whole buffer: each record's opcode bits, then
/// its argument bits where the opcode carries an argument.
pub open spec fn spec_record_bits(op: u8, arg: u8) -> Seq<bool> {
    spec_bits(op, 5) + (if Awatism::spec_needs_args(op) {
        spec_bits(arg, Awatism::spec_arg_bits(op) as int)
    } else {
        Seq::empty()
    })
}

/// The bit stream of a buffer's records, in order.
pub open spec fn spec_obj_bits(v: Seq<u8>) -> Seq<bool>
    decreases v.len(),
{
    if v.len() < 2 {
        Seq::empty()
    } else {
        spec_record_bits(v[0], v[1]) + spec_obj_bits(v.skip(2))
    }
}

/// Every character of unary token text is `a`, `w` or space, and every
/// space is immediately followed by `a`.
pub open spec fn spec_token_shaped(s: Seq<char>) -> bool {
    &&& forall|i: int| 0 <= i < s.len() ==> spec_is_aw(#[trigger] s[i])
    &&& forall|i: int| 0 <= i < s.len() && #[trigger] s[i] == ' ' ==> i + 1 < s.len() && s[i + 1] == 'a'
}

proof fn lemma_token_shaped_concat(a: Seq<char>, b: Seq<char>)
    requires
        spec_token_shaped(a),
        spec_token_shaped(b),
    ensures
        spec_token_shaped(a + b),
{
    let c = a + b;
    assert forall|i: int| 0 <= i < c.len() implies spec_is_aw(#[trigger] c[i]) by {
        if i < a.len() {
            assert(c[i] == a[i]);
        } else {
            assert(c[i] == b[i - a.len()]);
        }
    }
    assert forall|i: int| 0 <= i < c.len() && #[trigger] c[i] == ' ' implies i + 1 < c.len() && c[i
        + 1] == 'a' by {
        if i < a.len() {
            assert(c[i] == a[i]);
            assert(a[i + 1] == 'a');
            assert(c[i + 1] == a[i + 1]);
        } else {
            assert(c[i] == b[i - a.len()]);
            assert(b[i - a.len() + 1] == 'a');
            assert(c[i + 1] == b[i - a.len() + 1]);
        }
    }
}

proof fn lemma_tokens_shaped(bits: Seq<bool>)
    ensures
        spec_token_shaped(spec_tokens(bits)),
    decreases bits.len(),
{
    reveal_strlit(" awa");
    reveal_strlit("wa");
    if bits.len() == 0 {
    } else {
        lemma_tokens_shaped(bits.drop_last());
        if bits.last() {
            assert(spec_token_shaped("wa"@)) by {
                assert("wa"@[0] == 'w' && "wa"@[1] == 'a');
            }
            lemma_token_shaped_concat(spec_tokens(bits.drop_last()), "wa"@);
        } else {
            assert(spec_token_shaped(" awa"@)) by {
                assert(" awa"@[0] == ' ' && " awa"@[1] == 'a' && " awa"@[2] == 'w' && " awa"@[3]
                    == 'a');
            }
            lemma_token_shaped_concat(spec_tokens(bits.drop_last()), " awa"@);
        }
    }
}

proof fn lemma_tokens_concat(b1: Seq<bool>, b2: Seq<bool>)
    ensures
        spec_tokens(b1 + b2) == spec_tokens(b1) + spec_tokens(b2),
    decreases b2.len(),
{
    if b2.len() == 0 {
        assert(b1 + b2 =~= b1);
        assert(spec_tokens(b1) + spec_tokens(b2) =~= spec_tokens(b1));
    } else {
        lemma_tokens_concat(b1, b2.drop_last());
        assert((b1 + b2).drop_last() =~= b1 + b2.drop_last());
        assert((b1 + b2).last() == b2.last());
        assert(spec_tokens(b1) + spec_tokens(b2) =~= (spec_tokens(b1) + spec_tokens(
            b2.drop_last(),
        )) + (if b2.last() {
            "wa"@
        } else {
            " awa"@
        }));
    }
}

proof fn lemma_tokens_first(bits: Seq<bool>)
    requires
        bits.len() > 0,
    ensures
        spec_tokens(bits) == (if bits.first() {
            "wa"@
        } else {
            " awa"@
        }) + spec_tokens(bits.drop_first()),
{
    reveal_strlit(" awa");
    reveal_strlit("wa");
    assert(bits =~= seq![bits.first()] + bits.drop_first());
    lemma_tokens_concat(seq![bits.first()], bits.drop_first());
    let one = seq![bits.first()];
    assert(one.drop_last() =~= Seq::<bool>::empty());
    assert(spec_tokens(one.drop_last()) =~= Seq::<char>::empty());
    if bits.first() {
        assert(spec_tokens(one) =~= "wa"@);
    } else {
        assert(spec_tokens(one) =~= " awa"@);
    }
    assert(spec_tokens(seq![bits.first()] + bits.drop_first()) == spec_tokens(bits));
}

/// Lexing the token text of a bit run followed by any remainder
/// recovers the bits and goes on with the remainder.
proof fn lemma_lex_tokens(bits: Seq<bool>, rest: Seq<char>)
    ensures
        spec_lex(spec_tokens(bits) + rest) == bits + spec_lex(rest),
    decreases bits.len(),
{
    reveal_strlit(" awa");
    reveal_strlit("wa");
    if bits.len() == 0 {
        assert(spec_tokens(bits) + rest =~= rest);
        assert(bits + spec_lex(rest) =~= spec_lex(rest));
    } else {
        lemma_tokens_first(bits);
        let tail = spec_tokens(bits.drop_first()) + rest;
        lemma_lex_tokens(bits.drop_first(), rest);
        if bits.first() {
            let s = spec_tokens(bits) + rest;
            assert(s =~= "wa"@ + tail);
            assert(s.take(2) =~= "wa"@);
            if s.len() >= 4 && s.take(4) == " awa"@ {
                assert(s.take(4)[0] == ' ');
                assert(s.take(2)[0] == 'w');
                assert(s[0] == 'w' && s[0] == ' ');
                assert(false);
            }
            assert(s.skip(2) =~= tail);
            assert(spec_lex(s) == seq![true] + (bits.drop_first() + spec_lex(rest)));
            assert(seq![true] + (bits.drop_first() + spec_lex(rest)) =~= bits + spec_lex(rest));
        } else {
            let s = spec_tokens(bits) + rest;
            assert(s =~= " awa"@ + tail);
            assert(s.take(4) =~= " awa"@);
            assert(s.skip(4) =~= tail);
            assert(spec_lex(s) == seq![false] + (bits.drop_first() + spec_lex(rest)));
            assert(seq![false] + (bits.drop_first() + spec_lex(rest)) =~= bits + spec_lex(rest));
        }
    }
}

/// A byte's low bits, rendered most significant first, evaluate back
/// to the byte.
proof fn lemma_bits_value_inverse(v: u8, w: int)
    requires
        0 <= w <= 8,
        v >> (w as u8) == 0,
    ensures
        spec_bits_value(spec_bits(v, w)) == v,
    decreases w,
{
    if w == 0 {
        assert(v >> 0u8 == v) by (bit_vector);
        assert(spec_bits(v, 0) =~= Seq::<bool>::empty());
    } else {
        let half = v >> 1u8;
        let wu = w as u8;
        let wm1: u8 = (w - 1) as u8;
        assert(half >> wm1 == 0) by (bit_vector)
            requires
                v >> wu == 0,
                half == v >> 1u8,
                wu <= 8,
                wm1 + 1 == wu,
        ;
        lemma_bits_value_inverse(half, w - 1);
        assert(spec_bits(v, w).drop_last() =~= spec_bits(half, w - 1)) by {
            assert forall|i: int| 0 <= i < w - 1 implies spec_bits(v, w).drop_last()[i]
                == spec_bits(half, w - 1)[i] by {
                let a1 = ((w - 1 - i) as u8);
                let a2 = ((w - 1 - i - 1) as u8);
                assert((v >> a1) & 1 == ((v >> 1u8) >> a2) & 1) by (bit_vector)
                    requires
                        a1 == a2 + 1,
                        a1 <= 8,
                ;
            }
        }
        assert(spec_bits(v, w).last() == ((v >> 0u8) & 1 == 1));
        let low = if (v >> 0u8) & 1 == 1 {
            1int
        } else {
            0int
        };
        assert(spec_bits_value(spec_bits(v, w)) == half * 2 + low);
        assert(v == (v >> 1u8) * 2 + (if (v >> 0u8) & 1 == 1 {
            1u8
        } else {
            0u8
        })) by (bit_vector);
    }
}

/// Grouping the bit stream of a valid buffer recovers its decoded
/// instruction list.
proof fn lemma_group_obj_bits(v: Seq<u8>)
    requires
        valid_awa_object(v),
    ensures
        spec_group(spec_obj_bits(v)) == Some(spec_decode(v)),
    decreases v.len(),
{
    if v.len() == 0 {
        assert(spec_obj_bits(v) =~= Seq::<bool>::empty());
        assert(spec_decode(v) =~= Seq::<Awatism>::empty());
    } else {
        let op = v[0];
        let arg = v[1];
        assert(record_op(v, 0) == op && record_arg(v, 0) == arg);
        assert(Awatism::spec_from_u8(op, arg) is Some);
        assert(op < 32);
        let rest = v.skip(2);
        assert forall|i: int| 0 <= i < rest.len() / 2 implies Awatism::spec_from_u8(
            #[trigger] record_op(rest, i),
            record_arg(rest, i),
        ) is Some && (!Awatism::spec_needs_args(record_op(rest, i)) ==> record_arg(rest, i) == 0u8)
            && (Awatism::spec_needs_args(record_op(rest, i)) && Awatism::spec_arg_bits(
            record_op(rest, i),
        ) == 5 ==> record_arg(rest, i) < 32) by {
            assert(record_op(rest, i) == record_op(v, i + 1));
            assert(record_arg(rest, i) == record_arg(v, i + 1));
            assert(Awatism::spec_from_u8(record_op(v, i + 1), record_arg(v, i + 1)) is Some);
        }
        lemma_group_obj_bits(rest);
        let rb = spec_record_bits(op, arg);
        let bits = spec_obj_bits(v);
        assert(bits == rb + spec_obj_bits(rest));
        let w: int = if Awatism::spec_needs_args(op) {
            Awatism::spec_arg_bits(op) as int
        } else {
            0
        };
        assert(rb.len() == 5 + w);
        assert(bits.len() >= 5);
        assert(bits.take(5) =~= spec_bits(op, 5));
        assert(op >> 5u8 == 0) by (bit_vector)
            requires
                op < 32,
        ;
        lemma_bits_value_inverse(op, 5);
        assert(spec_bits_value(bits.take(5)) == op);
        if Awatism::spec_needs_args(op) {
            assert(bits.len() >= 5 + w);
            assert(bits.subrange(5, 5 + w) =~= spec_bits(arg, w));
            if w == 5 {
                assert(arg < 32);
                assert(arg >> 5u8 == 0) by (bit_vector)
                    requires
                        arg < 32,
                ;
                lemma_bits_value_inverse(arg, 5);
            } else {
                assert(w == 8);
                assert(arg >> 8u8 == 0) by (bit_vector);
                lemma_bits_value_inverse(arg, 8);
            }
            assert(spec_bits_value(bits.subrange(5, 5 + w)) == arg);
            assert(bits.skip(5 + w) =~= spec_obj_bits(rest));
            assert(spec_group(bits) == Some(
                seq![Awatism::spec_from_u8(op, arg)->0] + spec_decode(rest),
            ));
        } else {
            assert(arg == 0u8);
            assert(bits.skip(5) =~= spec_obj_bits(rest));
            assert(spec_group(bits) == Some(
                seq![Awatism::spec_from_u8(op, 0)->0] + spec_decode(rest),
            ));
        }
        assert(seq![Awatism::spec_from_u8(op, arg)->0] + spec_decode(rest) =~= spec_decode(v)) by {
            assert forall|i: int| 0 <= i < spec_decode(v).len() implies (seq![
                Awatism::spec_from_u8(op, arg)->0,
            ] + spec_decode(rest))[i] == spec_decode(v)[i] by {
                if i > 0 {
                    assert(record_op(rest, i - 1) == record_op(v, i));
                    assert(record_arg(rest, i - 1) == record_arg(v, i));
                }
            }
        }
    }
}

/// The unary text of a buffer's records is the token text of its bit
/// stream.
proof fn lemma_records_are_tokens(v: Seq<u8>, k: int)
    requires
        0 <= 2 * k <= v.len(),
    ensures
        spec_awa_records(v, k) == spec_tokens(spec_obj_bits(v.take(2 * k))),
    decreases k,
{
    if k == 0 {
        assert(v.take(0) =~= Seq::<u8>::empty());
        assert(spec_obj_bits(v.take(0)) =~= Seq::<bool>::empty());
    } else {
        lemma_records_are_tokens(v, k - 1);
        let prefix = v.take(2 * k);
        lemma_obj_bits_snoc(prefix);
        assert(prefix.take(prefix.len() - 2) =~= v.take(2 * (k - 1)));
        assert(prefix[prefix.len() - 2] == record_op(v, k - 1));
        assert(prefix[prefix.len() - 1] == record_arg(v, k - 1));
        lemma_tokens_concat(
            spec_obj_bits(v.take(2 * (k - 1))),
            spec_record_bits(record_op(v, k - 1), record_arg(v, k - 1)),
        );
        assert(spec_record_tokens(record_op(v, k - 1), record_arg(v, k - 1)) == spec_tokens(
            spec_record_bits(record_op(v, k - 1), record_arg(v, k - 1)),
        )) by {
            lemma_tokens_concat(
                spec_bits(record_op(v, k - 1), 5),
                (if Awatism::spec_needs_args(record_op(v, k - 1)) {
                    spec_bits(
                        record_arg(v, k - 1),
                        Awatism::spec_arg_bits(record_op(v, k - 1)) as int,
                    )
                } else {
                    Seq::empty()
                }),
            );
            assert(spec_tokens(Seq::<bool>::empty()) =~= Seq::<char>::empty());
            assert(spec_tokens(spec_bits(record_op(v, k - 1), 5)) + Seq::<char>::empty()
                =~= spec_tokens(spec_bits(record_op(v, k - 1), 5)));
        }
    }
}

/// A nonempty buffer's bit stream splits off its last record.
proof fn lemma_obj_bits_snoc(v: Seq<u8>)
    requires
        v.len() >= 2,
        v.len() % 2 == 0,
    ensures
        spec_obj_bits(v) == spec_obj_bits(v.take(v.len() - 2)) + spec_record_bits(
            v[v.len() - 2],
            v[v.len() - 1],
        ),
    decreases v.len(),
{
    if v.len() == 2 {
        assert(v.take(0) =~= Seq::<u8>::empty());
        assert(v.skip(2) =~= Seq::<u8>::empty());
        assert(spec_obj_bits(v.skip(2)) =~= Seq::<bool>::empty());
        assert(spec_record_bits(v[0], v[1]) + Seq::<bool>::empty() =~= spec_record_bits(
            v[0],
            v[1],
        ));
        assert(spec_obj_bits(v.take(0)) + spec_record_bits(v[0], v[1]) =~= spec_record_bits(
            v[0],
            v[1],
        ));
    } else {
        let rest = v.skip(2);
        lemma_obj_bits_snoc(rest);
        assert(rest.take(rest.len() - 2) =~= v.take(v.len() - 2).skip(2));
        assert(rest[rest.len() - 2] == v[v.len() - 2]);
        assert(rest[rest.len() - 1] == v[v.len() - 1]);
        assert(spec_obj_bits(v) == spec_record_bits(v[0], v[1]) + spec_obj_bits(rest));
        assert(v.take(v.len() - 2)[0] == v[0] && v.take(v.len() - 2)[1] == v[1]);
        assert(spec_obj_bits(v.take(v.len() - 2)) == spec_record_bits(v[0], v[1])
            + spec_obj_bits(v.take(v.len() - 2).skip(2)));
        assert(spec_record_bits(v[0], v[1]) + (spec_obj_bits(v.take(v.len() - 2).skip(2))
            + spec_record_bits(v[v.len() - 2], v[v.len() - 1])) =~= (spec_record_bits(v[0], v[1])
            + spec_obj_bits(v.take(v.len() - 2).skip(2))) + spec_record_bits(
            v[v.len() - 2],
            v[v.len() - 1],
        ));
    }
}

/// The normalization fold leaves clean text as it is: text with no
/// leading space and every space followed by a word character comes
/// back unchanged, with a pending space exactly after a trailing
/// space.
proof fn lemma_norm_clean(u: Seq<char>)
    requires
        forall|i: int| 0 <= i < u.len() && #[trigger] u[i] == ' ' ==> i > 0 && u[i - 1] != ' ',
    ensures
        spec_norm_state(u) == (
            (if u.len() > 0 && u.last() == ' ' {
                u.drop_last()
            } else {
                u
            }),
            u.len() > 0 && u.last() == ' ',
        ),
    decreases u.len(),
{
    if u.len() > 0 {
        let w = u.drop_last();
        assert forall|i: int| 0 <= i < w.len() && #[trigger] w[i] == ' ' implies i > 0 && w[i - 1]
            != ' ' by {
            assert(w[i] == u[i]);
            if i > 0 {
                assert(w[i - 1] == u[i - 1]);
            }
        }
        lemma_norm_clean(w);
        let c = u.last();
        if c == ' ' {
            assert(u.len() > 1 && u[u.len() - 2] != ' ');
            assert(w.len() > 0 && w.last() != ' ');
            assert(spec_norm_state(u) == (w, w.len() > 0));
        } else {
            if w.len() > 0 && w.last() == ' ' {
                assert(spec_norm_state(u) == (w.drop_last() + seq![' '] + seq![c], false));
                assert(w.drop_last() + seq![' '] + seq![c] =~= u);
            } else {
                assert(spec_norm_state(u) == (w + seq![c], false));
                assert(w + seq![c] =~= u);
            }
        }
    }
}

/// Filtering keeps clean token text as it is.
proof fn lemma_filter_aw_id(u: Seq<char>)
    requires
        forall|i: int| 0 <= i < u.len() ==> spec_is_aw(#[trigger] u[i]),
    ensures
        spec_filter_aw(u) == u,
    decreases u.len(),
{
    if u.len() > 0 {
        let w = u.drop_last();
        assert forall|i: int| 0 <= i < w.len() implies spec_is_aw(#[trigger] w[i]) by {
            assert(w[i] == u[i]);
        }
        lemma_filter_aw_id(w);
        assert(spec_filter_aw(u) =~= u);
    }
}

/// Re-decoding the unary text of a valid buffer yields the buffer's
/// own instruction list: the unary rendering loses nothing as long as
/// every 5-bit argument fits its width.
pub proof fn lemma_unary_roundtrip(v: Seq<u8>)
    requires
        valid_awa_object(v),
    ensures
        spec_parse_awatalk(spec_awa_text(v)) == Some(spec_decode(v)),
{
    reveal_strlit("awa");
    reveal_strlit(" awa");
    reveal_strlit("wa");
    let n = (v.len() / 2) as int;
    lemma_records_are_tokens(v, n);
    assert(v.take(2 * n) =~= v);
    let toks = spec_tokens(spec_obj_bits(v));
    let x = "awa"@ + toks;
    let text = spec_awa_text(v);
    assert(text =~= x + seq!['\n']);
    // filtering drops only the newline
    lemma_tokens_shaped(spec_obj_bits(v));
    assert(spec_token_shaped("awa"@)) by {
        assert("awa"@[0] == 'a' && "awa"@[1] == 'w' && "awa"@[2] == 'a');
    }
    lemma_token_shaped_concat("awa"@, toks);
    lemma_filter_aw_id(x);
    assert(spec_filter_aw(text) == x) by {
        assert(text.drop_last() =~= x);
        assert(text.last() == '\n');
        assert(!spec_is_aw('\n'));
        assert(spec_filter_aw(text) =~= spec_filter_aw(x));
    }
    // collapsing changes nothing: x is clean
    assert forall|i: int| 0 <= i < x.len() && #[trigger] x[i] == ' ' implies i > 0 && x[i - 1]
        != ' ' by {
        assert(x[0] == 'a');
        if i > 0 && x[i - 1] == ' ' {
            assert(x[i] == 'a');
            assert(false);
        }
    }
    lemma_norm_clean(x);
    assert(x.len() > 0 && x.last() != ' ') by {
        if toks.len() == 0 {
            assert(x.last() == 'a');
        } else {
            assert(x.last() == toks.last());
            if toks.last() == ' ' {
                assert(false);
            }
        }
    }
    assert(spec_normalize(text) == x);
    // the prefix is the literal and the rest is the token text
    assert(x.take(3) =~= "awa"@);
    assert(x.skip(3) =~= toks);
    assert(x.len() >= 3);
    // lexing recovers the bits, grouping recovers the instructions
    lemma_lex_tokens(spec_obj_bits(v), Seq::empty());
    assert(toks + Seq::<char>::empty() =~= toks);
    assert(spec_lex(Seq::<char>::empty()) =~= Seq::<bool>::empty());
    assert(spec_obj_bits(v) + Seq::<bool>::empty() =~= spec_obj_bits(v));
    assert(spec_lex(toks) == spec_obj_bits(v));
    lemma_group_obj_bits(v);
}

} // verus!
