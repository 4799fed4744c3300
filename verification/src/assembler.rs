//! Binary encoding and decoding of instructions: two bytes per
//! instruction, `[opcode_byte, argument_byte]`, the argument byte 0x00
//! when the opcode carries none.
use vstd::prelude::*;

use crate::errors::{BuildError, DecodeError};
use crate::isa::{Awatism, Instruction};
use crate::text::{push_udec, spec_udec};
use vstd::string::{StrSliceExecFns, StringExecFns};

verus! {

broadcast use vstd::std_specs::vec::group_vec_axioms;

/// The bytes one instruction encodes to: its opcode byte and its argument
/// byte (0x00 when it carries no argument). The assembly-time
/// pseudo-instructions encode to nothing (`StrLbl`) or to the
/// relative-jump marker pair `[0x18, 0x00]` (`JmpRelStr`), which is not
/// itself a decodable instruction.
pub open spec fn spec_assemble(a: Awatism) -> Seq<u8> {
    match a {
        Awatism::Nop => seq![0x00u8, 0x00u8],
        Awatism::Prn => seq![0x01u8, 0x00u8],
        Awatism::Pr1 => seq![0x02u8, 0x00u8],
        Awatism::Red => seq![0x03u8, 0x00u8],
        Awatism::R3d => seq![0x04u8, 0x00u8],
        Awatism::Blo(arg) => seq![0x05u8, arg],
        Awatism::Sbm(arg) => seq![0x06u8, arg],
        Awatism::Pop => seq![0x07u8, 0x00u8],
        Awatism::Dpl => seq![0x08u8, 0x00u8],
        Awatism::Srn(arg) => seq![0x09u8, arg],
        Awatism::Mrg => seq![0x0au8, 0x00u8],
        Awatism::Add => seq![0x0bu8, 0x00u8],
        Awatism::Sub => seq![0x0cu8, 0x00u8],
        Awatism::Mul => seq![0x0du8, 0x00u8],
        Awatism::Div => seq![0x0eu8, 0x00u8],
        Awatism::Cnt => seq![0x0fu8, 0x00u8],
        Awatism::Lbl(arg) => seq![0x10u8, arg],
        Awatism::Jmp(arg) => seq![0x11u8, arg],
        Awatism::Eql => seq![0x12u8, 0x00u8],
        Awatism::Lss => seq![0x13u8, 0x00u8],
        Awatism::Gr8 => seq![0x14u8, 0x00u8],
        Awatism::Lib => seq![0x17u8, 0x00u8],
        Awatism::Trm => seq![0x1fu8, 0x00u8],
        Awatism::StrLbl(_) => seq![],
        Awatism::JmpRelStr(_) => seq![0x18u8, 0x00u8],
    }
}

/// Encode one instruction into its fixed-width byte pair.
pub fn assemble_awatism(instruction: &Instruction) -> (r: Vec<u8>)
    ensures
        r@ == spec_assemble(instruction.awatism),
{
    match &instruction.awatism {
        Awatism::Nop => vec![0x00, 0x00],
        Awatism::Prn => vec![0x01, 0x00],
        Awatism::Pr1 => vec![0x02, 0x00],
        Awatism::Red => vec![0x03, 0x00],
        Awatism::R3d => vec![0x04, 0x00],
        Awatism::Blo(arg) => vec![0x05, *arg],
        Awatism::Sbm(arg) => vec![0x06, *arg],
        Awatism::Pop => vec![0x07, 0x00],
        Awatism::Dpl => vec![0x08, 0x00],
        Awatism::Srn(arg) => vec![0x09, *arg],
        Awatism::Mrg => vec![0x0a, 0x00],
        Awatism::Add => vec![0x0b, 0x00],
        Awatism::Sub => vec![0x0c, 0x00],
        Awatism::Mul => vec![0x0d, 0x00],
        Awatism::Div => vec![0x0e, 0x00],
        Awatism::Cnt => vec![0x0f, 0x00],
        Awatism::Lbl(arg) => vec![0x10, *arg],
        Awatism::Jmp(arg) => vec![0x11, *arg],
        Awatism::Eql => vec![0x12, 0x00],
        Awatism::Lss => vec![0x13, 0x00],
        Awatism::Gr8 => vec![0x14, 0x00],
        Awatism::Lib => vec![0x17, 0x00],
        Awatism::Trm => vec![0x1f, 0x00],
        Awatism::StrLbl(_) => Vec::new(),
        Awatism::JmpRelStr(_) => vec![0x18, 0x00],
    }
}

/// The opcode byte of the buffer's `i`-th 2-byte record.
pub open spec fn record_op(v: Seq<u8>, i: int) -> u8 {
    v[2 * i]
}

/// The argument byte of the buffer's `i`-th 2-byte record.
pub open spec fn record_arg(v: Seq<u8>, i: int) -> u8 {
    v[2 * i + 1]
}

/// The buffer splits into 2-byte records whose opcode bytes all decode.
pub open spec fn decodable_object(v: Seq<u8>) -> bool {
    &&& v.len() % 2 == 0
    &&& forall|i: int|
        0 <= i < v.len() / 2 ==> Awatism::spec_from_u8(
            #[trigger] record_op(v, i),
            record_arg(v, i),
        ) is Some
}

/// A decodable buffer whose argument bytes are 0x00 wherever the opcode
/// carries no argument — the invariant every assembled buffer satisfies.
pub open spec fn valid_object(v: Seq<u8>) -> bool {
    &&& decodable_object(v)
    &&& forall|i: int|
        0 <= i < v.len() / 2 && !Awatism::spec_needs_args(#[trigger] record_op(v, i))
            ==> record_arg(v, i) == 0u8
}

/// The instructions a decodable buffer denotes, one per 2-byte record.
pub open spec fn spec_decode(v: Seq<u8>) -> Seq<Awatism> {
    Seq::new((v.len() / 2) as nat, |i: int| Awatism::spec_from_u8(record_op(v, i), record_arg(v, i))->Some_0)
}

/// Decode a flat byte buffer into its instruction list. Succeeds exactly
/// on the buffers that split into 2-byte records with decodable opcodes;
/// an odd length or an unknown opcode byte is an error, never skipped.
pub fn parse_object_vec(v: &Vec<u8>) -> (r: Result<Vec<Instruction>, DecodeError>)
    ensures
        r is Ok <==> decodable_object(v@),
        r is Ok ==> {
            let instrs = r->Ok_0;
            &&& instrs@.len() == v@.len() / 2
            &&& forall|i: int|
                0 <= i < instrs@.len() ==> (#[trigger] instrs@[i]).awatism == spec_decode(v@)[i]
        },
        r is Err ==> (r->Err_0 == DecodeError::OddLength <==> v@.len() % 2 != 0),
{
    if v.len() % 2 != 0 {
        return Err(DecodeError::OddLength);
    }
    let mut instrs: Vec<Instruction> = Vec::new();
    let len = v.len();
    let n = len / 2;
    let mut i: usize = 0;
    while i < n
        invariant
            0 <= i <= n,
            len == v@.len(),
            n == len / 2,
            v@.len() % 2 == 0,
            instrs@.len() == i,
            forall|j: int|
                0 <= j < i ==> Awatism::spec_from_u8(
                    #[trigger] record_op(v@, j),
                    record_arg(v@, j),
                ) is Some,
            forall|j: int|
                0 <= j < i ==> (#[trigger] instrs@[j]).awatism == Awatism::spec_from_u8(
                    record_op(v@, j),
                    record_arg(v@, j),
                )->Some_0,
        decreases n - i,
    {
        let op = v[2 * i];
        let arg = v[2 * i + 1];
        match Awatism::from_u8(op, arg) {
            Some(a) => {
                instrs.push(Instruction { awatism: a });
            },
            None => {
                proof {
                    assert(record_op(v@, i as int) == v@[2 * i]);
                    assert(record_arg(v@, i as int) == v@[2 * i + 1]);
                }
                return Err(DecodeError::UnknownOpcode);
            },
        }
        i += 1;
    }
    Ok(instrs)
}

/// The flat byte buffer a whole instruction list encodes to.
pub open spec fn spec_object_bytes(instrs: Seq<Awatism>) -> Seq<u8>
    decreases instrs.len(),
{
    if instrs.len() == 0 {
        seq![]
    } else {
        spec_assemble(instrs[0]) + spec_object_bytes(instrs.drop_first())
    }
}

/// Re-encoding the instruction one valid record decodes to gives back
/// that record.
proof fn lemma_record_roundtrip(op: u8, arg: u8)
    requires
        Awatism::spec_from_u8(op, arg) is Some,
        !Awatism::spec_needs_args(op) ==> arg == 0u8,
    ensures
        spec_assemble(Awatism::spec_from_u8(op, arg)->Some_0) =~= seq![op, arg],
{
}

/// Decoding a valid buffer and re-encoding the instructions yields the
/// original buffer byte for byte.
pub proof fn lemma_object_roundtrip(v: Seq<u8>)
    requires
        valid_object(v),
    ensures
        spec_object_bytes(spec_decode(v)) =~= v,
    decreases v.len(),
{
    if v.len() == 0 {
        assert(spec_decode(v) =~= Seq::<Awatism>::empty());
    } else {
        let rest = v.subrange(2, v.len() as int);
        assert forall|i: int| 0 <= i < rest.len() / 2 implies Awatism::spec_from_u8(
            #[trigger] record_op(rest, i),
            record_arg(rest, i),
        ) is Some && (!Awatism::spec_needs_args(record_op(rest, i)) ==> record_arg(rest, i)
            == 0u8) by {
            assert(record_op(rest, i) == record_op(v, i + 1));
            assert(record_arg(rest, i) == record_arg(v, i + 1));
            assert(Awatism::spec_from_u8(record_op(v, i + 1), record_arg(v, i + 1)) is Some);
        }
        lemma_object_roundtrip(rest);
        assert(Awatism::spec_from_u8(record_op(v, 0), record_arg(v, 0)) is Some);
        lemma_record_roundtrip(v[0], v[1]);
        assert(spec_decode(v).drop_first() =~= spec_decode(rest)) by {
            assert forall|i: int| 0 <= i < spec_decode(rest).len() implies spec_decode(
                v,
            ).drop_first()[i] == spec_decode(rest)[i] by {
                assert(record_op(rest, i) == record_op(v, i + 1));
                assert(record_arg(rest, i) == record_arg(v, i + 1));
            }
        }
        assert(spec_decode(v)[0] == Awatism::spec_from_u8(v[0], v[1])->Some_0);
        assert(spec_object_bytes(spec_decode(v)) =~= seq![v[0], v[1]] + spec_object_bytes(
            spec_decode(rest),
        ));
        assert(seq![v[0], v[1]] + rest =~= v);
    }
}


/// The mnemonic line one instruction disassembles to, without its
/// trailing newline; an argument is printed in decimal after one
/// space. An assembly-time symbolic label prints nothing; a relative
/// jump prints its mnemonic.
pub open spec fn spec_awasm_line(a: Awatism) -> Seq<char> {
    match a {
        Awatism::Nop => "nop"@,
        Awatism::Prn => "prn"@,
        Awatism::Pr1 => "pr1"@,
        Awatism::Red => "red"@,
        Awatism::R3d => "r3d"@,
        Awatism::Blo(arg) => "blo "@ + spec_udec(arg as int),
        Awatism::Sbm(arg) => "sbm "@ + spec_udec(arg as int),
        Awatism::Pop => "pop"@,
        Awatism::Dpl => "dpl"@,
        Awatism::Srn(arg) => "srn "@ + spec_udec(arg as int),
        Awatism::Mrg => "mrg"@,
        Awatism::Add => "4dd"@,
        Awatism::Sub => "sub"@,
        Awatism::Mul => "mul"@,
        Awatism::Div => "div"@,
        Awatism::Cnt => "cnt"@,
        Awatism::Lbl(arg) => "lbl "@ + spec_udec(arg as int),
        Awatism::Jmp(arg) => "jmp "@ + spec_udec(arg as int),
        Awatism::Eql => "eql"@,
        Awatism::Lss => "lss"@,
        Awatism::Gr8 => "gr8"@,
        Awatism::Lib => "lib"@,
        Awatism::Trm => "trm"@,
        Awatism::StrLbl(_) => Seq::<char>::empty(),
        Awatism::JmpRelStr(_) => "jro"@,
    }
}

/// The whole assembly text of an instruction list: one line per
/// instruction, each ended by a newline.
pub open spec fn spec_awasm_text(instrs: Seq<Awatism>) -> Seq<char>
    decreases instrs.len(),
{
    if instrs.len() == 0 {
        Seq::empty()
    } else {
        spec_awasm_text(instrs.drop_last()) + spec_awasm_line(instrs.last()) + seq!['\n']
    }
}

/// Append one instruction's mnemonic line, without the newline.
fn push_awasm_line(s: &mut String, a: &Awatism)
    ensures
        final(s)@ == old(s)@ + spec_awasm_line(*a),
{
    match a {
        Awatism::Nop => s.append("nop"),
        Awatism::Prn => s.append("prn"),
        Awatism::Pr1 => s.append("pr1"),
        Awatism::Red => s.append("red"),
        Awatism::R3d => s.append("r3d"),
        Awatism::Blo(arg) => {
            s.append("blo ");
            push_udec(s, *arg as u64);
            proof {
                assert(s@ =~= old(s)@ + spec_awasm_line(*a));
            }
        },
        Awatism::Sbm(arg) => {
            s.append("sbm ");
            push_udec(s, *arg as u64);
            proof {
                assert(s@ =~= old(s)@ + spec_awasm_line(*a));
            }
        },
        Awatism::Pop => s.append("pop"),
        Awatism::Dpl => s.append("dpl"),
        Awatism::Srn(arg) => {
            s.append("srn ");
            push_udec(s, *arg as u64);
            proof {
                assert(s@ =~= old(s)@ + spec_awasm_line(*a));
            }
        },
        Awatism::Mrg => s.append("mrg"),
        Awatism::Add => s.append("4dd"),
        Awatism::Sub => s.append("sub"),
        Awatism::Mul => s.append("mul"),
        Awatism::Div => s.append("div"),
        Awatism::Cnt => s.append("cnt"),
        Awatism::Lbl(arg) => {
            s.append("lbl ");
            push_udec(s, *arg as u64);
            proof {
                assert(s@ =~= old(s)@ + spec_awasm_line(*a));
            }
        },
        Awatism::Jmp(arg) => {
            s.append("jmp ");
            push_udec(s, *arg as u64);
            proof {
                assert(s@ =~= old(s)@ + spec_awasm_line(*a));
            }
        },
        Awatism::Eql => s.append("eql"),
        Awatism::Lss => s.append("lss"),
        Awatism::Gr8 => s.append("gr8"),
        Awatism::Lib => s.append("lib"),
        Awatism::Trm => s.append("trm"),
        Awatism::StrLbl(_) => {
            proof {
                assert(old(s)@ + spec_awasm_line(*a) =~= old(s)@);
            }
        },
        Awatism::JmpRelStr(_) => s.append("jro"),
    }
}

/// Disassemble a flat byte buffer into assembly text, one mnemonic
/// line per instruction, per [`spec_awasm_text`]. Fails exactly where
/// the buffer does not decode: an odd length or an unknown opcode is
/// an error, never skipped.
pub fn object_to_awasm(vec: &Vec<u8>) -> (r: Result<String, DecodeError>)
    ensures
        r is Ok <==> decodable_object(vec@),
        r is Ok ==> r->Ok_0@ == spec_awasm_text(spec_decode(vec@)),
        r is Err ==> (r->Err_0 == DecodeError::OddLength <==> vec@.len() % 2 != 0),
{
    let instrs = match parse_object_vec(vec) {
        Ok(instrs) => instrs,
        Err(e) => {
            return Err(e);
        },
    };
    let ghost prog = spec_decode(vec@);
    let mut result = String::new();
    let n = instrs.len();
    let mut i: usize = 0;
    while i < n
        invariant
            0 <= i <= n,
            n == instrs@.len(),
            n == prog.len(),
            forall|j: int| 0 <= j < n ==> (#[trigger] instrs@[j]).awatism == prog[j],
            result@ == spec_awasm_text(prog.take(i as int)),
        decreases n - i,
    {
        push_awasm_line(&mut result, &instrs[i].awatism);
        push_newline(&mut result);
        proof {
            assert(prog.take(i + 1).drop_last() =~= prog.take(i as int));
            assert(prog.take(i + 1).last() == prog[i as int]);
            assert(result@ =~= spec_awasm_text(prog.take(i + 1)));
        }
        i += 1;
    }
    proof {
        assert(prog.take(n as int) =~= prog);
    }
    Ok(result)
}

/// Append one newline character.
fn push_newline(s: &mut String)
    ensures
        final(s)@ == old(s)@ + seq!['\n'],
{
    crate::text::push_char(s, '\n');
    proof {
        assert(s@ =~= old(s)@ + seq!['\n']);
    }
}

/// The low `width` bits of a byte, most significant first.
pub open spec fn spec_bits(v: u8, width: int) -> Seq<bool> {
    Seq::new(width as nat, |i: int| (v >> ((width - 1 - i) as u8)) & 1 == 1)
}

/// The unary token text of a bit sequence: bit 0 renders as the
/// 4-character token `" awa"`, bit 1 as the 2-character token `"wa"`.
pub open spec fn spec_tokens(bits: Seq<bool>) -> Seq<char>
    decreases bits.len(),
{
    if bits.len() == 0 {
        Seq::empty()
    } else {
        spec_tokens(bits.drop_last()) + (if bits.last() {
            "wa"@
        } else {
            " awa"@
        })
    }
}

/// Append the unary tokens of the low `size` bits of a byte, most
/// significant bit first.
fn push_mapping(s: &mut String, num: u8, size: usize)
    requires
        size <= 8,
    ensures
        final(s)@ == old(s)@ + spec_tokens(spec_bits(num, size as int)),
{
    let ghost bits = spec_bits(num, size as int);
    let mut t: usize = 0;
    while t < size
        invariant
            0 <= t <= size,
            size <= 8,
            bits == spec_bits(num, size as int),
            s@ == old(s)@ + spec_tokens(bits.take(t as int)),
        decreases size - t,
    {
        let bit = (num >> ((size - 1 - t) as u8)) & 1;
        if bit == 1 {
            s.append("wa");
        } else {
            s.append(" awa");
        }
        proof {
            assert(bits.take(t + 1).drop_last() =~= bits.take(t as int));
            assert(bits.take(t + 1).last() == bits[t as int]);
            assert(bits[t as int] == ((num >> ((size - 1 - t) as u8)) & 1 == 1));
            assert(s@ =~= old(s)@ + spec_tokens(bits.take(t + 1)));
        }
        t += 1;
    }
    proof {
        assert(bits.take(size as int) =~= bits);
    }
}

/// The unary tokens of one 2-byte record: the opcode's 5 bits, then
/// the argument's bits where the opcode carries an argument.
pub open spec fn spec_record_tokens(op: u8, arg: u8) -> Seq<char> {
    spec_tokens(spec_bits(op, 5)) + (if Awatism::spec_needs_args(op) {
        spec_tokens(spec_bits(arg, Awatism::spec_arg_bits(op) as int))
    } else {
        Seq::empty()
    })
}

/// The unary tokens of a buffer's first `k` records, in order.
pub open spec fn spec_awa_records(v: Seq<u8>, k: int) -> Seq<char>
    decreases k,
{
    if k <= 0 {
        Seq::empty()
    } else {
        spec_awa_records(v, k - 1) + spec_record_tokens(record_op(v, k - 1), record_arg(v, k - 1))
    }
}

/// The whole unary ("awatalk") text of a program image: the literal
/// prefix `awa`, each record's tokens, and a final newline.
pub open spec fn spec_awa_text(v: Seq<u8>) -> Seq<char> {
    "awa"@ + spec_awa_records(v, v.len() as int / 2) + seq!['\n']
}

/// Re-encode a flat byte buffer as unary ("awatalk") text, per
/// [`spec_awa_text`]: a lossless bit-for-bit alternate rendering of
/// the same instruction stream. Fails exactly where the buffer does
/// not decode.
pub fn object_to_awa(vec: &Vec<u8>) -> (r: Result<String, DecodeError>)
    ensures
        r is Ok <==> decodable_object(vec@),
        r is Ok ==> r->Ok_0@ == spec_awa_text(vec@),
        r is Err ==> (r->Err_0 == DecodeError::OddLength <==> vec@.len() % 2 != 0),
{
    if vec.len() % 2 != 0 {
        return Err(DecodeError::OddLength);
    }
    let len = vec.len();
    let n = len / 2;
    let mut i: usize = 0;
    let mut result = String::new();
    result.append("awa");
    while i < n
        invariant
            0 <= i <= n,
            len == vec@.len(),
            n == len / 2,
            len % 2 == 0,
            forall|j: int|
                0 <= j < i ==> Awatism::spec_from_u8(
                    #[trigger] record_op(vec@, j),
                    record_arg(vec@, j),
                ) is Some,
            result@ == "awa"@ + spec_awa_records(vec@, i as int),
        decreases n - i,
    {
        let op = vec[2 * i];
        let arg = vec[2 * i + 1];
        if Awatism::from_u8(op, arg).is_none() {
            proof {
                assert(record_op(vec@, i as int) == vec@[2 * i]);
                assert(record_arg(vec@, i as int) == vec@[2 * i + 1]);
            }
            return Err(DecodeError::UnknownOpcode);
        }
        push_mapping(&mut result, op, 5);
        if Awatism::needs_args(op) {
            let bits = Awatism::arg_bits(op);
            push_mapping(&mut result, arg, bits);
        }
        proof {
            assert(record_op(vec@, i as int) == vec@[2 * i]);
            assert(record_arg(vec@, i as int) == vec@[2 * i + 1]);
            assert(result@ =~= "awa"@ + spec_awa_records(vec@, i + 1));
        }
        i += 1;
    }
    push_newline(&mut result);
    proof {
        assert(result@ =~= spec_awa_text(vec@));
    }
    Ok(result)
}


/// The byte footprint of one instruction in the assembled buffer: a
/// symbolic label takes nothing, a relative jump expands to six
/// encoded instructions (four load-immediates carrying the
/// displacement, one group-into-collection, and the jump marker), and
/// every other instruction takes one 2-byte record.
pub open spec fn spec_instr_size(a: Awatism) -> int {
    match a {
        Awatism::StrLbl(_) => 0,
        Awatism::JmpRelStr(_) => 12,
        _ => 2,
    }
}

/// The byte offset at which the `i`-th instruction's encoding begins.
pub open spec fn spec_prefix_size(instrs: Seq<Awatism>, i: int) -> int
    decreases i,
{
    if i <= 0 {
        0
    } else {
        spec_prefix_size(instrs, i - 1) + spec_instr_size(instrs[i - 1])
    }
}

/// A symbolic label beginning with `.` is qualified by the nearest
/// preceding non-dotted label; any other label stands alone.
pub open spec fn spec_qualify(parent: Seq<char>, label: Seq<char>) -> Seq<char> {
    if label.len() > 0 && label[0] == '.' {
        parent + label
    } else {
        label
    }
}

/// The nearest non-dotted symbolic label defined before the `i`-th
/// instruction; empty if there is none.
pub open spec fn spec_parent_at(instrs: Seq<Awatism>, i: int) -> Seq<char>
    decreases i,
{
    if i <= 0 {
        Seq::empty()
    } else {
        match instrs[i - 1] {
            Awatism::StrLbl(l) => if l@.len() > 0 && l@[0] == '.' {
                spec_parent_at(instrs, i - 1)
            } else {
                l@
            },
            _ => spec_parent_at(instrs, i - 1),
        }
    }
}

/// The byte offset of the last definition of a fully-qualified label
/// among the first `i` instructions; a later definition of the same
/// label overrides an earlier one.
pub open spec fn spec_label_lookup(instrs: Seq<Awatism>, i: int, key: Seq<char>) -> Option<int>
    decreases i,
{
    if i <= 0 {
        None
    } else {
        match instrs[i - 1] {
            Awatism::StrLbl(l) => if spec_qualify(spec_parent_at(instrs, i - 1), l@) == key {
                Some(spec_prefix_size(instrs, i - 1))
            } else {
                spec_label_lookup(instrs, i - 1, key)
            },
            _ => spec_label_lookup(instrs, i - 1, key),
        }
    }
}

/// The fully-qualified target of the relative jump at index `i`.
pub open spec fn spec_jump_key(instrs: Seq<Awatism>, i: int) -> Seq<char> {
    spec_qualify(spec_parent_at(instrs, i), instrs[i]->JmpRelStr_0@)
}

/// Every relative jump names a label that is defined somewhere in the
/// program.
pub open spec fn spec_jumps_resolve(instrs: Seq<Awatism>) -> bool {
    forall|i: int|
        0 <= i < instrs.len() && (#[trigger] instrs[i]) is JmpRelStr ==> spec_label_lookup(
            instrs,
            instrs.len() as int,
            spec_jump_key(instrs, i),
        ) is Some
}

/// The four little-endian bytes of a signed 32-bit value.
pub open spec fn spec_le_bytes(v: i32) -> Seq<u8> {
    seq![v as u8, (v >> 8) as u8, (v >> 16) as u8, (v >> 24) as u8]
}

/// The bytes the `i`-th instruction contributes to the buffer: a
/// relative jump becomes four load-immediates carrying the
/// little-endian displacement from its own offset to its label's
/// offset, a group-into-collection of 4, and the jump marker pair.
pub open spec fn spec_emit_one(instrs: Seq<Awatism>, i: int) -> Seq<u8> {
    match instrs[i] {
        Awatism::JmpRelStr(_) => {
            let target = spec_label_lookup(instrs, instrs.len() as int, spec_jump_key(instrs, i));
            let disp = (target->0 - spec_prefix_size(instrs, i)) as i32;
            let b = spec_le_bytes(disp);
            seq![0x05u8, b[0], 0x05u8, b[1], 0x05u8, b[2], 0x05u8, b[3], 0x09u8, 4u8, 0x18u8, 0x00u8]
        },
        a => spec_assemble(a),
    }
}

/// The bytes the first `i` instructions assemble to.
pub open spec fn spec_object_vec(instrs: Seq<Awatism>, i: int) -> Seq<u8>
    decreases i,
{
    if i <= 0 {
        Seq::empty()
    } else {
        spec_object_vec(instrs, i - 1) + spec_emit_one(instrs, i - 1)
    }
}

/// The last entry in a label table whose key matches, if any.
pub open spec fn spec_entries_lookup(entries: Seq<(String, usize)>, key: Seq<char>) -> Option<
    int,
>
    decreases entries.len(),
{
    if entries.len() == 0 {
        None
    } else if entries.last().0@ == key {
        Some(entries.last().1 as int)
    } else {
        spec_entries_lookup(entries.drop_last(), key)
    }
}

/// Find the last table entry for a key.
fn lookup_label(labels: &Vec<(String, usize)>, key: &String) -> (r: Option<usize>)
    ensures
        (match r {
            Some(u) => spec_entries_lookup(labels@, key@) == Some(u as int),
            None => spec_entries_lookup(labels@, key@) is None,
        }),
{
    let mut j: usize = labels.len();
    proof {
        assert(labels@.take(labels@.len() as int) =~= labels@);
    }
    while j > 0
        invariant
            0 <= j <= labels@.len(),
            spec_entries_lookup(labels@, key@) == spec_entries_lookup(
                labels@.take(j as int),
                key@,
            ),
        decreases j,
    {
        j = j - 1;
        proof {
            assert(labels@.take(j + 1).drop_last() =~= labels@.take(j as int));
            assert(labels@.take(j + 1).last() == labels@[j as int]);
        }
        if labels[j].0.eq(key) {
            return Some(labels[j].1);
        }
    }
    proof {
        assert(labels@.take(0) =~= Seq::<(String, usize)>::empty());
    }
    None
}

/// Whether a symbolic label begins with `.`.
fn is_dotted(label: &String) -> (r: bool)
    ensures
        r == (label@.len() > 0 && label@[0] == '.'),
{
    label.as_str().unicode_len() > 0 && label.as_str().get_char(0) == '.'
}

/// The fully-qualified form of a symbolic label under a parent.
fn qualify(parent: &String, label: &String) -> (r: String)
    ensures
        r@ == spec_qualify(parent@, label@),
{
    if is_dotted(label) {
        let mut q = parent.clone();
        q.append(label.as_str());
        q
    } else {
        label.clone()
    }
}

/// Assemble an instruction list into a flat byte buffer, resolving
/// relative jumps in two passes per [`spec_object_vec`]: the first
/// pass records every symbolic label's byte offset (a later definition
/// of the same label overriding an earlier one), the second emits
/// bytes, encoding each relative jump's displacement from its own
/// offset to its label's. A jump whose label is nowhere defined is a
/// build error, never deferred to run time; so is a program whose byte
/// offsets outgrow a signed 32-bit displacement.
pub fn make_object_vec(instructions: &[Instruction]) -> (r: Result<Vec<u8>, BuildError>)
    ensures
        ({
            let prog = Seq::new(instructions@.len(), |i: int| instructions@[i].awatism);
            &&& (r is Ok <==> spec_jumps_resolve(prog) && spec_prefix_size(prog, prog.len() as int)
                <= i32::MAX)
            &&& r is Ok ==> r->Ok_0@ == spec_object_vec(prog, prog.len() as int)
            &&& r is Err ==> (r->Err_0 == BuildError::ProgramTooLong <==> spec_prefix_size(
                prog,
                prog.len() as int,
            ) > i32::MAX)
        }),
{
    let ghost prog = Seq::new(instructions@.len(), |i: int| instructions@[i].awatism);
    let n = instructions.len();
    // first pass: byte offsets of every label definition
    let mut labels: Vec<(String, usize)> = Vec::new();
    let mut parent = String::new();
    let mut cur: usize = 0;
    let mut i: usize = 0;
    while i < n
        invariant
            0 <= i <= n,
            n == instructions@.len(),
            prog == Seq::new(instructions@.len(), |t: int| instructions@[t].awatism),
            parent@ == spec_parent_at(prog, i as int),
            cur == spec_prefix_size(prog, i as int),
            cur <= i32::MAX,
            forall|key: Seq<char>|
                #[trigger] spec_entries_lookup(labels@, key) == spec_label_lookup(
                    prog,
                    i as int,
                    key,
                ),
        decreases n - i,
    {
        proof {
            assert(prog[i as int] == instructions@[i as int].awatism);
        }
        match &instructions[i].awatism {
            Awatism::StrLbl(l) => {
                let key = qualify(&parent, l);
                let ghost keyv = key@;
                let ghost old_labels = labels@;
                labels.push((key, cur));
                proof {
                    assert(labels@.drop_last() =~= old_labels);
                    assert(labels@.last().0@ == keyv);
                    assert(keyv == spec_qualify(spec_parent_at(prog, i as int), l@));
                    assert forall|k2: Seq<char>| #[trigger] spec_entries_lookup(labels@, k2)
                        == spec_label_lookup(prog, i + 1, k2) by {
                        if keyv == k2 {
                            assert(spec_entries_lookup(labels@, k2) == Some(cur as int));
                            assert(spec_label_lookup(prog, i + 1, k2) == Some(
                                spec_prefix_size(prog, i as int),
                            ));
                        } else {
                            assert(spec_entries_lookup(labels@, k2) == spec_entries_lookup(
                                old_labels,
                                k2,
                            ));
                            assert(spec_label_lookup(prog, i + 1, k2) == spec_label_lookup(
                                prog,
                                i as int,
                                k2,
                            ));
                        }
                    }
                }
                if !is_dotted(l) {
                    parent = l.clone();
                }
            },
            Awatism::JmpRelStr(_) => {
                if cur > 0x7fff_ffff - 12 {
                    proof {
                        lemma_prefix_size_mono(prog, i + 1, n as int);
                    }
                    return Err(BuildError::ProgramTooLong);
                }
                cur = cur + 12;
                proof {
                    assert forall|k2: Seq<char>| #[trigger] spec_entries_lookup(labels@, k2)
                        == spec_label_lookup(prog, i + 1, k2) by {}
                }
            },
            _ => {
                if cur > 0x7fff_ffff - 2 {
                    proof {
                        lemma_prefix_size_mono(prog, i + 1, n as int);
                    }
                    return Err(BuildError::ProgramTooLong);
                }
                cur = cur + 2;
                proof {
                    assert forall|k2: Seq<char>| #[trigger] spec_entries_lookup(labels@, k2)
                        == spec_label_lookup(prog, i + 1, k2) by {}
                }
            },
        }
        i += 1;
    }
    // second pass: emit bytes, splicing each jump's displacement
    let mut out: Vec<u8> = Vec::new();
    let mut parent2 = String::new();
    let mut cur2: usize = 0;
    let mut t: usize = 0;
    while t < n
        invariant
            0 <= t <= n,
            n == instructions@.len(),
            prog == Seq::new(instructions@.len(), |t2: int| instructions@[t2].awatism),
            parent2@ == spec_parent_at(prog, t as int),
            cur2 == spec_prefix_size(prog, t as int),
            spec_prefix_size(prog, n as int) <= i32::MAX,
            forall|key: Seq<char>|
                #[trigger] spec_entries_lookup(labels@, key) == spec_label_lookup(
                    prog,
                    n as int,
                    key,
                ),
            forall|i2: int|
                0 <= i2 < t && (#[trigger] prog[i2]) is JmpRelStr ==> spec_label_lookup(
                    prog,
                    n as int,
                    spec_jump_key(prog, i2),
                ) is Some,
            out@ == spec_object_vec(prog, t as int),
        decreases n - t,
    {
        proof {
            assert(prog[t as int] == instructions@[t as int].awatism);
        }
        match &instructions[t].awatism {
            Awatism::StrLbl(l) => {
                if !is_dotted(l) {
                    parent2 = l.clone();
                }
                proof {
                    assert(out@ =~= spec_object_vec(prog, t + 1));
                }
            },
            Awatism::JmpRelStr(l) => {
                let key = qualify(&parent2, l);
                proof {
                    assert(key@ == spec_jump_key(prog, t as int));
                }
                let target = match lookup_label(&labels, &key) {
                    Some(off) => off,
                    None => {
                        proof {
                            assert(spec_label_lookup(prog, n as int, spec_jump_key(prog, t as int))
                                is None);
                            assert(!spec_jumps_resolve(prog));
                        }
                        return Err(BuildError::UnresolvedLabel);
                    },
                };
                proof {
                    lemma_prefix_size_mono(prog, t as int, n as int);
                    lemma_label_offset_bounds(prog, n as int, key@);
                }
                let disp: i32 = (target as i64 - cur2 as i64) as i32;
                let b0: u8 = #[verifier::truncate] (disp as u8);
                let b1: u8 = #[verifier::truncate] ((disp >> 8) as u8);
                let b2: u8 = #[verifier::truncate] ((disp >> 16) as u8);
                let b3: u8 = #[verifier::truncate] ((disp >> 24) as u8);
                out.push(0x05);
                out.push(b0);
                out.push(0x05);
                out.push(b1);
                out.push(0x05);
                out.push(b2);
                out.push(0x05);
                out.push(b3);
                out.push(0x09);
                out.push(4);
                out.push(0x18);
                out.push(0x00);
                proof {
                    lemma_prefix_size_mono(prog, t + 1, n as int);
                }
                cur2 = cur2 + 12;
                proof {
                    assert(out@ =~= spec_object_vec(prog, t + 1));
                }
            },
            _ => {
                let mut bytes = assemble_awatism(&instructions[t]);
                out.append(&mut bytes);
                proof {
                    lemma_prefix_size_mono(prog, t + 1, n as int);
                }
                cur2 = cur2 + 2;
                proof {
                    assert(out@ =~= spec_object_vec(prog, t + 1));
                }
            },
        }
        t += 1;
    }
    Ok(out)
}

/// Byte offsets never shrink as the instruction list goes on.
proof fn lemma_prefix_size_mono(instrs: Seq<Awatism>, i: int, j: int)
    requires
        i <= j,
    ensures
        spec_prefix_size(instrs, i) <= spec_prefix_size(instrs, j),
    decreases j - i,
{
    if i < j {
        lemma_prefix_size_mono(instrs, i, j - 1);
    }
}

/// A defined label's offset lies within the program's byte size.
proof fn lemma_label_offset_bounds(instrs: Seq<Awatism>, i: int, key: Seq<char>)
    requires
        spec_label_lookup(instrs, i, key) is Some,
        i <= instrs.len(),
    ensures
        0 <= spec_label_lookup(instrs, i, key)->0 <= spec_prefix_size(instrs, instrs.len() as int),
    decreases i,
{
    if i > 0 {
        match instrs[i - 1] {
            Awatism::StrLbl(l) => {
                if spec_qualify(spec_parent_at(instrs, i - 1), l@) == key {
                    lemma_prefix_size_mono(instrs, 0, i - 1);
                    lemma_prefix_size_mono(instrs, i - 1, instrs.len() as int);
                } else {
                    lemma_label_offset_bounds(instrs, i - 1, key);
                }
            },
            _ => {
                lemma_label_offset_bounds(instrs, i - 1, key);
            },
        }
    }
}

} // verus!
