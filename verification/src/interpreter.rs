//! The execution engine: a fetch-decode-execute state machine over a
//! decoded program, a label map and the bubble stack. Anything the
//! engine cannot do alone — reading a line, emitting text, performing a
//! foreign call — it surfaces as an effect for the caller to carry out;
//! the engine itself never touches the outside world.
use vstd::prelude::*;

use crate::arith::{operate_bubbles, spec_op_defined, spec_operate, BinOp};
use crate::bubble::{
    bubble_model, merge_bubbles, models_of, spec_merge, Bubble, BubbleAbyss, BubbleModel,
};
use crate::errors::{DecodeError, RunError};
use crate::isa::{Awatism, Instruction};
use crate::marshal::{parse_fn_args, spec_marshal_args};
use crate::text::{
    awascii_index, push_decimal, push_char, spec_awascii_index, spec_dec, spec_parse_number,
    awascii_at, awascii_seq, parse_number_line,
};
use vstd::string::StrSliceExecFns;

verus! {

broadcast use vstd::std_specs::vec::group_vec_axioms;

/// The text a print instruction produces for one bubble: a scalar
/// prints its alphabet symbol (nothing if out of the alphabet's range)
/// in character mode, or its decimal value and a space in numeric mode;
/// a collection prints its elements from the last to the first.
pub open spec fn spec_render(b: BubbleModel, numeric: bool) -> Seq<char>
    decreases b,
{
    match b {
        BubbleModel::Int(v) => if numeric {
            spec_dec(v as int) + seq![' ']
        } else if 0 <= v < 64 {
            seq![awascii_seq()[v as int]]
        } else {
            seq![]
        },
        BubbleModel::Coll(s) => spec_render_elems(s, numeric),
    }
}

/// The text a collection's elements produce, last element first.
pub open spec fn spec_render_elems(s: Seq<BubbleModel>, numeric: bool) -> Seq<char>
    decreases s,
{
    if s.len() == 0 {
        Seq::empty()
    } else {
        spec_render_elems(s.drop_first(), numeric) + spec_render(s.first(), numeric)
    }
}

/// Append the rendering of one bubble, per [`spec_render`].
#[verifier::loop_isolation(false)]
fn render_bubble(b: &Bubble, numeric: bool, out: &mut String)
    ensures
        final(out)@ == old(out)@ + spec_render(b@, numeric),
    decreases *b,
{
    match b {
        Bubble::Simple(v) => {
            if numeric {
                push_decimal(out, *v);
                push_char(out, ' ');
                proof {
                    assert(out@ =~= old(out)@ + spec_render(b@, numeric));
                }
            } else {
                if *v >= 0 && *v < 64 {
                    push_char(out, awascii_at(*v as usize));
                    proof {
                        assert(out@ =~= old(out)@ + spec_render(b@, numeric));
                    }
                } else {
                    proof {
                        assert(out@ =~= old(out)@ + spec_render(b@, numeric));
                    }
                }
            }
        },
        Bubble::Double(bs) => {
            let ghost s = b@->Coll_0;
            proof {
                assert(s =~= models_of(bs@));
            }
            let n = bs.len();
            let mut i: usize = n;
            while i > 0
                invariant
                    0 <= i <= n,
                    out@ == old(out)@ + spec_render_elems(s.skip(i as int), numeric),
                decreases i,
            {
                i = i - 1;
                proof {
                    assert(decreases_to!(*b => b->Double_0));
                    assert(b->Double_0 == *bs);
                    assert(decreases_to!(*bs => bs@));
                    assert(decreases_to!(bs@ => bs@[i as int]));
                    assert(s[i as int] == bubble_model(bs@[i as int]));
                }
                render_bubble(&bs[i], numeric, out);
                proof {
                    assert(s.skip(i as int).drop_first() =~= s.skip(i + 1));
                    assert(s.skip(i as int).first() == s[i as int]);
                    assert(spec_render_elems(s.skip(i as int), numeric) == spec_render_elems(
                        s.skip(i + 1),
                        numeric,
                    ) + spec_render(s[i as int], numeric));
                    assert(out@ =~= old(out)@ + spec_render_elems(s.skip(i as int), numeric));
                }
            }
            proof {
                assert(s.skip(0) =~= s);
            }
        },
    }
}

/// The first position at or after `i` whose character lies outside the
/// alphabet.
pub open spec fn spec_awa_prefix_end(s: Seq<char>, i: int) -> int
    decreases s.len() - i,
{
    if 0 <= i < s.len() && spec_awascii_index(s[i]) is Some {
        spec_awa_prefix_end(s, i + 1)
    } else {
        i
    }
}

proof fn lemma_awa_prefix_end_props(s: Seq<char>, i: int)
    requires
        0 <= i <= s.len(),
    ensures
        i <= spec_awa_prefix_end(s, i) <= s.len(),
        spec_awa_prefix_end(s, i) == s.len() || !(spec_awascii_index(
            s[spec_awa_prefix_end(s, i)],
        ) is Some),
        forall|t: int|
            i <= t < spec_awa_prefix_end(s, i) ==> spec_awascii_index(#[trigger] s[t]) is Some,
    decreases s.len() - i,
{
    if i < s.len() && spec_awascii_index(s[i]) is Some {
        lemma_awa_prefix_end_props(s, i + 1);
    }
}

/// What a read-characters instruction makes of an input line: the
/// longest prefix of alphabet symbols, each mapped to its alphabet
/// index, pushed as one collection in reverse order (the line's first
/// character ends up last).
pub open spec fn spec_char_line_bubble(s: Seq<char>) -> BubbleModel {
    let k = spec_awa_prefix_end(s, 0);
    BubbleModel::Coll(
        Seq::new(
            k as nat,
            |i: int| BubbleModel::Int(spec_awascii_index(s[k - 1 - i])->0 as i32),
        ),
    )
}

/// Build the bubble a read-characters instruction pushes for a line.
fn make_char_line_bubble(line: &str) -> (r: Bubble)
    ensures
        r@ == spec_char_line_bubble(line@),
{
    let len = line.unicode_len();
    let ghost k = spec_awa_prefix_end(line@, 0);
    proof {
        lemma_awa_prefix_end_props(line@, 0);
    }
    let mut vals: Vec<u8> = Vec::new();
    let mut i: usize = 0;
    while i < len
        invariant
            0 <= i <= len,
            len == line@.len(),
            k == spec_awa_prefix_end(line@, 0),
            0 <= k <= len,
            k == len || !(spec_awascii_index(line@[k]) is Some),
            forall|t: int| 0 <= t < k ==> spec_awascii_index(#[trigger] line@[t]) is Some,
            i <= k,
            vals@.len() == i,
            forall|t: int|
                0 <= t < i ==> #[trigger] vals@[t] as int == spec_awascii_index(line@[t])->0,
        ensures
            i as int == k,
            vals@.len() == i,
            forall|t: int|
                0 <= t < i ==> #[trigger] vals@[t] as int == spec_awascii_index(line@[t])->0,
        decreases len - i,
    {
        let c = line.get_char(i);
        match awascii_index(c) {
            Some(v) => {
                vals.push(v);
            },
            None => {
                proof {
                    assert(i as int == k);
                }
                break ;
            },
        }
        i += 1;
    }
    proof {
        assert(i as int == k) by {
            if i < k {
                assert(spec_awascii_index(line@[i as int]) is Some);
            }
        }
    }
    let count = vals.len();
    let mut bubbles: Vec<Bubble> = Vec::new();
    let mut j: usize = 0;
    while j < count
        invariant
            0 <= j <= count,
            count == vals@.len(),
            count == k,
            vals@.len() == k,
            forall|t: int|
                0 <= t < count ==> #[trigger] vals@[t] as int == spec_awascii_index(line@[t])->0,
            bubbles@.len() == j,
            forall|t: int|
                0 <= t < j ==> (#[trigger] bubbles@[t]) == Bubble::Simple(
                    vals@[count - 1 - t] as i32,
                ),
        decreases count - j,
    {
        let idx = count - 1 - j;
        bubbles.push(Bubble::Simple(vals[idx] as i32));
        j += 1;
    }
    let r = Bubble::Double(bubbles);
    proof {
        assert forall|t: int| 0 <= t < count implies r@->Coll_0[t] == spec_char_line_bubble(
            line@,
        )->Coll_0[t] by {
            let v = vals@[count - 1 - t];
            assert(bubble_model(Bubble::Simple(v as i32)) == BubbleModel::Int(v as i32));
            assert(v as int == spec_awascii_index(line@[count - 1 - t])->0);
        }
        assert(r@->Coll_0 =~= spec_char_line_bubble(line@)->Coll_0);
    }
    r
}

/// The position of the last instruction defining a label, if any: a
/// later definition of the same label overrides an earlier one.
pub open spec fn spec_label_pos(prog: Seq<Awatism>, l: u8) -> Option<int>
    decreases prog.len(),
{
    if prog.len() == 0 {
        None
    } else if prog.last() == Awatism::Lbl(l) {
        Some(prog.len() - 1)
    } else {
        spec_label_pos(prog.drop_last(), l)
    }
}

proof fn lemma_label_pos_in_range(prog: Seq<Awatism>, l: u8)
    ensures
        spec_label_pos(prog, l) is Some ==> 0 <= spec_label_pos(prog, l)->0 < prog.len(),
    decreases prog.len(),
{
    if prog.len() > 0 && !(prog.last() == Awatism::Lbl(l)) {
        lemma_label_pos_in_range(prog.drop_last(), l);
    }
}


/// Whether a bubble is a scalar or a collection of scalars only.
fn bubble_is_flat(b: &Bubble) -> (r: bool)
    ensures
        r == Bubble::spec_flat_ok(b@),
{
    match b {
        Bubble::Simple(_) => true,
        Bubble::Double(elems) => {
            proof {
                assert(b@->Coll_0 =~= models_of(elems@));
            }
            let mut all_simple = true;
            let mut i: usize = 0;
            let n = elems.len();
            while i < n && all_simple
                invariant
                    0 <= i <= n,
                    n == elems@.len(),
                    b@ is Coll,
                    b@->Coll_0 == models_of(elems@),
                    all_simple ==> forall|j: int| 0 <= j < i ==> (#[trigger] b@->Coll_0[j]) is Int,
                    !all_simple ==> exists|j: int|
                        0 <= j < n && !((#[trigger] b@->Coll_0[j]) is Int),
                decreases n - i,
            {
                proof {
                    assert(b@->Coll_0[i as int] == bubble_model(elems@[i as int]));
                }
                if elems[i].is_double() {
                    all_simple = false;
                }
                i += 1;
            }
            all_simple
        },
    }
}

/// The bytes of a buffer in reverse order.
fn reversed_bytes(v: &Vec<u8>) -> (r: Vec<u8>)
    ensures
        r@ == v@.reverse(),
{
    let n = v.len();
    let mut out: Vec<u8> = Vec::new();
    let mut i: usize = 0;
    while i < n
        invariant
            0 <= i <= n,
            n == v@.len(),
            out@.len() == i,
            forall|j: int| 0 <= j < i ==> #[trigger] out@[j] == v@[n - 1 - j],
        decreases n - i,
    {
        out.push(v[n - 1 - i]);
        i += 1;
    }
    proof {
        assert(out@ =~= v@.reverse());
    }
    out
}

/// One step's outcome in the model: the next program counter and stack
/// where execution goes on, together with what the step asks of the
/// outside world.
pub enum StepModel {
    /// An ordinary step: the new program counter and stack.
    Run { pc: int, stack: Seq<BubbleModel> },
    /// A print step: the new state and the text written out.
    Out { pc: int, stack: Seq<BubbleModel>, text: Seq<char> },
    /// The engine needs a line of input read as characters.
    AwaitChar,
    /// The engine needs a line of input read as a number.
    AwaitNum,
    /// A foreign call: the new state, the function name (already
    /// reversed into reading order) and the marshaled argument bytes.
    Foreign { pc: int, stack: Seq<BubbleModel>, name: Seq<u8>, args: Seq<u8> },
    /// Execution ends cleanly: a terminate instruction, or the program
    /// counter ran past the end.
    Halt,
    /// Execution aborts with a fatal error.
    Fail(RunError),
}

/// Whether a conditional-skip comparison holds of the top two stack
/// entries: both must be scalars, and collections never compare true.
pub open spec fn spec_cmp_holds(op: Awatism, top: BubbleModel, second: BubbleModel) -> bool {
    &&& top is Int
    &&& second is Int
    &&& match op {
        Awatism::Eql => top->Int_0 == second->Int_0,
        Awatism::Lss => top->Int_0 < second->Int_0,
        Awatism::Gr8 => top->Int_0 > second->Int_0,
        _ => false,
    }
}

/// The step relation: what executing the instruction at `pc` does to
/// the machine, per the instruction set's semantics. This is the
/// engine's whole contract; `step` implements exactly this function.
pub open spec fn spec_step(prog: Seq<Awatism>, pc: int, stack: Seq<BubbleModel>) -> StepModel {
    if !(0 <= pc < prog.len()) {
        StepModel::Halt
    } else {
        let instr = prog[pc];
        match instr {
            Awatism::Nop => StepModel::Run { pc: pc + 1, stack },
            Awatism::Prn => if stack.len() == 0 {
                StepModel::Fail(RunError::StackUnderflow)
            } else {
                StepModel::Out {
                    pc: pc + 1,
                    stack: stack.drop_last(),
                    text: spec_render(stack.last(), false),
                }
            },
            Awatism::Pr1 => if stack.len() == 0 {
                StepModel::Fail(RunError::StackUnderflow)
            } else {
                StepModel::Out {
                    pc: pc + 1,
                    stack: stack.drop_last(),
                    text: spec_render(stack.last(), true),
                }
            },
            Awatism::Red => StepModel::AwaitChar,
            Awatism::R3d => StepModel::AwaitNum,
            Awatism::Blo(arg) => StepModel::Run {
                pc: pc + 1,
                stack: stack.push(BubbleModel::Int((arg as i8) as i32)),
            },
            Awatism::Sbm(arg) => if stack.len() == 0 || arg as int > stack.len() - 1 {
                StepModel::Fail(RunError::StackUnderflow)
            } else {
                StepModel::Run {
                    pc: pc + 1,
                    stack: stack.drop_last().insert(arg as int, stack.last()),
                }
            },
            Awatism::Pop => if stack.len() == 0 {
                StepModel::Fail(RunError::StackUnderflow)
            } else {
                match stack.last() {
                    BubbleModel::Int(_) => StepModel::Run { pc: pc + 1, stack: stack.drop_last() },
                    BubbleModel::Coll(s) => if s.len() == 0 {
                        StepModel::Fail(RunError::StackUnderflow)
                    } else {
                        StepModel::Run { pc: pc + 1, stack: stack.drop_last().push(s[0]) }
                    },
                }
            },
            Awatism::Dpl => if stack.len() == 0 {
                StepModel::Fail(RunError::StackUnderflow)
            } else {
                StepModel::Run { pc: pc + 1, stack: stack.push(stack.last()) }
            },
            Awatism::Srn(arg) => if arg as int > stack.len() {
                StepModel::Fail(RunError::StackUnderflow)
            } else {
                StepModel::Run {
                    pc: pc + 1,
                    stack: stack.take(stack.len() - arg as int).push(
                        BubbleModel::Coll(stack.skip(stack.len() - arg as int)),
                    ),
                }
            },
            Awatism::Mrg => if stack.len() < 2 {
                StepModel::Fail(RunError::StackUnderflow)
            } else {
                StepModel::Run {
                    pc: pc + 1,
                    stack: stack.take(stack.len() - 2).push(
                        spec_merge(stack.last(), stack[stack.len() - 2]),
                    ),
                }
            },
            Awatism::Add => spec_arith_step(BinOp::Add, pc, stack),
            Awatism::Sub => spec_arith_step(BinOp::Sub, pc, stack),
            Awatism::Mul => spec_arith_step(BinOp::Mul, pc, stack),
            Awatism::Div => spec_arith_step(BinOp::Div, pc, stack),
            Awatism::Cnt => if stack.len() == 0 {
                StepModel::Fail(RunError::StackUnderflow)
            } else {
                match stack.last() {
                    BubbleModel::Int(_) => StepModel::Run {
                        pc: pc + 1,
                        stack: stack.push(BubbleModel::Int(0)),
                    },
                    BubbleModel::Coll(s) => StepModel::Run {
                        pc: pc + 1,
                        stack: stack.push(BubbleModel::Int(s.len() as i32)),
                    },
                }
            },
            Awatism::Lbl(_) => StepModel::Run { pc: pc + 1, stack },
            Awatism::Jmp(arg) => match spec_label_pos(prog, arg) {
                Some(t) => StepModel::Run { pc: t + 1, stack },
                None => StepModel::Fail(RunError::UnresolvedLabel),
            },
            Awatism::Eql | Awatism::Lss | Awatism::Gr8 => if stack.len() < 2 {
                StepModel::Fail(RunError::StackUnderflow)
            } else {
                StepModel::Run {
                    pc: pc + (if spec_cmp_holds(instr, stack.last(), stack[stack.len() - 2]) {
                        1int
                    } else {
                        2int
                    }),
                    stack,
                }
            },
            Awatism::Lib => if stack.len() == 0 {
                StepModel::Fail(RunError::StackUnderflow)
            } else {
                match stack.last() {
                    BubbleModel::Int(_) => StepModel::Run { pc: pc + 1, stack: stack.drop_last() },
                    BubbleModel::Coll(s) => if s.len() == 0 || !Bubble::spec_flat_ok(s[0]) {
                        StepModel::Fail(RunError::MalformedForeignArgument)
                    } else {
                        let name = Bubble::spec_flat_bytes(s[0]).reverse();
                        if s.len() == 1 {
                            StepModel::Foreign {
                                pc: pc + 1,
                                stack: stack.drop_last(),
                                name,
                                args: seq![],
                            }
                        } else if s[1] is Coll && spec_marshal_args(s[1]->Coll_0) is Some {
                            StepModel::Foreign {
                                pc: pc + 1,
                                stack: stack.drop_last(),
                                name,
                                args: spec_marshal_args(s[1]->Coll_0)->0,
                            }
                        } else {
                            StepModel::Fail(RunError::MalformedForeignArgument)
                        }
                    },
                }
            },
            Awatism::Trm => StepModel::Halt,
            // assembly-time pseudo-instructions never appear in a
            // decoded program; the engine refuses to run past one
            Awatism::StrLbl(_) => StepModel::Halt,
            Awatism::JmpRelStr(_) => StepModel::Halt,
        }
    }
}

/// The step an arithmetic instruction takes: pop two bubbles (the
/// first-popped is the left operand) and push the broadcast result.
pub open spec fn spec_arith_step(op: BinOp, pc: int, stack: Seq<BubbleModel>) -> StepModel {
    if stack.len() < 2 {
        StepModel::Fail(RunError::StackUnderflow)
    } else {
        let a = stack.last();
        let b = stack[stack.len() - 2];
        if !spec_op_defined(op, a, b) {
            StepModel::Fail(RunError::DivideByZero)
        } else {
            StepModel::Run {
                pc: pc + 1,
                stack: stack.take(stack.len() - 2).push(spec_operate(op, a, b)),
            }
        }
    }
}

/// What one step asks of the engine's driver.
#[derive(Debug)]
pub enum StepEffect {
    /// An instruction ran; nothing to do.
    Ran,
    /// Text to write to the output.
    Output(String),
    /// Read one line and hand it back through `provide_line`.
    AwaitCharLine,
    /// Read one line and hand it back through `provide_line`.
    AwaitNumberLine,
    /// Resolve the named function, call it with the argument bytes, and
    /// free whatever buffer it returns; an unresolvable name is fatal.
    ForeignCall {
        /// The function's name bytes, in reading order.
        name: Vec<u8>,
        /// The marshaled argument buffer.
        args: Vec<u8>,
    },
    /// Execution has ended cleanly.
    Halted,
}

/// The execution engine's state: the decoded program, the label map,
/// the program counter and the bubble stack.
#[derive(Debug)]
pub struct Interpreter {
    instructions: Vec<Instruction>,
    label_map: Vec<Option<usize>>,
    abyss: BubbleAbyss,
    pc: usize,
    halted: bool,
}

impl Interpreter {
    /// The program being executed.
    pub closed spec fn prog(&self) -> Seq<Awatism> {
        Seq::new(self.instructions@.len(), |i: int| self.instructions@[i].awatism)
    }

    /// The bubble stack's model, bottom first.
    pub closed spec fn stack(&self) -> Seq<BubbleModel> {
        self.abyss@
    }

    /// The current program counter, as an instruction index.
    pub closed spec fn spec_pc(&self) -> int {
        self.pc as int
    }

    /// Whether execution has ended.
    pub closed spec fn spec_halted(&self) -> bool {
        self.halted
    }

    /// The engine's internal invariant: the label map has one slot per
    /// possible label and agrees with the program, and the program
    /// holds no assembly-time pseudo-instruction.
    pub closed spec fn wf(&self) -> bool {
        &&& 2 * self.instructions@.len() <= usize::MAX
        &&& self.label_map@.len() == 256
        &&& forall|l: int|
            0 <= l < 256 ==> spec_label_entry_ok(self.prog(), l as u8, #[trigger] self.label_map@[l])
        &&& forall|i: int|
            0 <= i < self.prog().len() ==> !((#[trigger] self.prog()[i]) is StrLbl) && !(
            self.prog()[i] is JmpRelStr)
    }

    /// Whether the engine is stopped at a read instruction, waiting for
    /// `provide_line`.
    pub open spec fn awaiting_line(&self) -> bool {
        &&& !self.spec_halted()
        &&& 0 <= self.spec_pc() < self.prog().len()
        &&& (self.prog()[self.spec_pc()] is Red || self.prog()[self.spec_pc()] is R3d)
    }

    /// Decode a program image and set up the engine: the label map is
    /// built by a pre-scan recording each label-definition's index, a
    /// later definition overriding an earlier one; the stack starts
    /// empty and the program counter at the first instruction. Fails
    /// exactly where decoding fails.
    pub fn new(object_vec: &Vec<u8>) -> (r: Result<Interpreter, DecodeError>)
        ensures
            r is Ok <==> crate::assembler::decodable_object(object_vec@),
            r is Ok ==> {
                let it = r->Ok_0;
                &&& it.wf()
                &&& it.prog() == crate::assembler::spec_decode(object_vec@)
                &&& it.stack() =~= Seq::<BubbleModel>::empty()
                &&& it.spec_pc() == 0
                &&& !it.spec_halted()
            },
            r is Err ==> (r->Err_0 == DecodeError::OddLength <==> object_vec@.len() % 2 != 0),
    {
        proof {
            assert(vstd::std_specs::vec::spec_vec_len(object_vec) == object_vec@.len());
        }
        let instructions = match crate::assembler::parse_object_vec(object_vec) {
            Ok(instrs) => instrs,
            Err(e) => {
                return Err(e);
            },
        };
        let ghost prog = Seq::new(instructions@.len(), |i: int| instructions@[i].awatism);
        proof {
            assert(prog =~= crate::assembler::spec_decode(object_vec@));
            assert forall|i: int| 0 <= i < prog.len() implies !((#[trigger] prog[i]) is StrLbl)
                && !(prog[i] is JmpRelStr) by {
                assert(prog[i] == crate::assembler::spec_decode(object_vec@)[i]);
            }
        }
        let mut label_map: Vec<Option<usize>> = Vec::new();
        let mut k: usize = 0;
        while k < 256
            invariant
                0 <= k <= 256,
                label_map@.len() == k,
                forall|l: int| 0 <= l < k ==> #[trigger] label_map@[l] is None,
            decreases 256 - k,
        {
            label_map.push(None);
            k += 1;
        }
        let n = instructions.len();
        let mut i: usize = 0;
        while i < n
            invariant
                0 <= i <= n,
                n == instructions@.len(),
                prog == Seq::new(instructions@.len(), |t: int| instructions@[t].awatism),
                label_map@.len() == 256,
                forall|l: int|
                    0 <= l < 256 ==> spec_label_entry_ok(
                        prog.take(i as int),
                        l as u8,
                        #[trigger] label_map@[l],
                    ),
            decreases n - i,
        {
            let is_lbl: Option<u8> = match &instructions[i].awatism {
                Awatism::Lbl(arg) => Some(*arg),
                _ => None,
            };
            proof {
                assert(prog[i as int] == instructions@[i as int].awatism);
            }
            match is_lbl {
                Some(arg) => {
                    label_map.set(arg as usize, Some(i));
                },
                None => {},
            }
            proof {
                assert(prog.take(i + 1).drop_last() =~= prog.take(i as int));
                assert(prog.take(i + 1).last() == prog[i as int]);
                assert forall|l: int| 0 <= l < 256 implies spec_label_entry_ok(
                    prog.take(i + 1),
                    l as u8,
                    #[trigger] label_map@[l],
                ) by {
                    match is_lbl {
                        Some(arg) => {
                            if l == arg as int {
                                assert(prog.take(i + 1).last() == Awatism::Lbl(arg));
                            } else {
                                assert(!(prog.take(i + 1).last() == Awatism::Lbl(l as u8)));
                            }
                        },
                        None => {
                            assert(!(prog.take(i + 1).last() == Awatism::Lbl(l as u8)));
                        },
                    }
                }
            }
            i += 1;
        }
        proof {
            assert(prog.take(n as int) =~= prog);
        }
        let it = Interpreter {
            instructions,
            label_map,
            abyss: BubbleAbyss::new(),
            pc: 0,
            halted: false,
        };
        proof {
            assert(it.prog() =~= prog);
        }
        Ok(it)
    }
}

/// Whether one label-map slot agrees with the program: it holds the
/// position of the label's last definition, or nothing where the label
/// is undefined.
pub open spec fn spec_label_entry_ok(prog: Seq<Awatism>, l: u8, entry: Option<usize>) -> bool {
    match (entry, spec_label_pos(prog, l)) {
        (Some(u), Some(t)) => u as int == t,
        (None, None) => true,
        _ => false,
    }
}


/// Whether one step's exec outcome agrees with the model: `pre` the
/// state before, `post` the state after, `r` what `step` returned.
pub open spec fn spec_step_matches(
    m: StepModel,
    pre: Interpreter,
    post: Interpreter,
    r: Result<StepEffect, RunError>,
) -> bool {
    match m {
        StepModel::Run { pc, stack } => r matches Ok(StepEffect::Ran) && post.spec_pc() == pc
            && post.stack() == stack && !post.spec_halted(),
        StepModel::Out { pc, stack, text } => (r matches Ok(StepEffect::Output(s)) && s@ == text)
            && post.spec_pc() == pc && post.stack() == stack && !post.spec_halted(),
        StepModel::AwaitChar => r matches Ok(StepEffect::AwaitCharLine) && post == pre,
        StepModel::AwaitNum => r matches Ok(StepEffect::AwaitNumberLine) && post == pre,
        StepModel::Foreign { pc, stack, name, args } => (r matches Ok(
            StepEffect::ForeignCall { name: n, args: a },
        ) && n@ == name && a@ == args) && post.spec_pc() == pc && post.stack() == stack
            && !post.spec_halted(),
        StepModel::Halt => r matches Ok(StepEffect::Halted) && post.spec_halted() && post.stack()
            == pre.stack() && post.spec_pc() == pre.spec_pc(),
        StepModel::Fail(e) => (r matches Err(e2) && e2 == e) && post.spec_halted(),
    }
}

impl Interpreter {
    /// Execute the instruction at the current program counter, per the
    /// step relation [`spec_step`]: the effect says what, if anything,
    /// the caller must do before stepping again. A read instruction
    /// asks for a line and leaves the state unchanged until
    /// [`Interpreter::provide_line`] supplies one. Every fatal
    /// condition — stack underflow, a jump to an undefined label, a
    /// malformed foreign call, a zero divisor — aborts execution with
    /// its error, never silently.
    pub fn step(&mut self) -> (r: Result<StepEffect, RunError>)
        requires
            old(self).wf(),
        ensures
            final(self).wf(),
            final(self).prog() == old(self).prog(),
            old(self).spec_halted() ==> (r matches Ok(StepEffect::Halted) && *final(self)
                == *old(self)),
            !old(self).spec_halted() ==> spec_step_matches(
                spec_step(old(self).prog(), old(self).spec_pc(), old(self).stack()),
                *old(self),
                *final(self),
                r,
            ),
    {
        let ghost m = spec_step(self.prog(), self.spec_pc(), self.stack());
        if self.halted {
            return Ok(StepEffect::Halted);
        }
        if self.pc >= self.instructions.len() {
            self.halted = true;
            return Ok(StepEffect::Halted);
        }
        let pc = self.pc;
        let instr = self.instructions[pc].awatism.clone();
        proof {
            assert(self.prog()[pc as int] == self.instructions@[pc as int].awatism);
            assert(instr == self.prog()[pc as int]);
        }
        match instr {
            Awatism::Nop => {
                self.pc = pc + 1;
                Ok(StepEffect::Ran)
            },
            Awatism::Lbl(_) => {
                self.pc = pc + 1;
                Ok(StepEffect::Ran)
            },
            Awatism::Prn => self.print_step(pc, false),
            Awatism::Pr1 => self.print_step(pc, true),
            Awatism::Red => Ok(StepEffect::AwaitCharLine),
            Awatism::R3d => Ok(StepEffect::AwaitNumberLine),
            Awatism::Blo(arg) => {
                self.abyss.push(Bubble::Simple((#[verifier::truncate] (arg as i8)) as i32));
                self.pc = pc + 1;
                Ok(StepEffect::Ran)
            },
            Awatism::Sbm(arg) => {
                let top = match self.abyss.pop() {
                    Some(b) => b,
                    None => {
                        self.halted = true;
                        return Err(RunError::StackUnderflow);
                    },
                };
                if arg as usize > self.abyss.len() {
                    self.halted = true;
                    return Err(RunError::StackUnderflow);
                }
                self.abyss.insert_at(arg as usize, top);
                self.pc = pc + 1;
                Ok(StepEffect::Ran)
            },
            Awatism::Pop => {
                let top = match self.abyss.pop() {
                    Some(b) => b,
                    None => {
                        self.halted = true;
                        return Err(RunError::StackUnderflow);
                    },
                };
                match top {
                    Bubble::Simple(_) => {},
                    Bubble::Double(mut bs) => {
                        let ghost popped = bubble_model(Bubble::Double(bs));
                        if bs.len() == 0 {
                            proof {
                                assert(popped->Coll_0 =~= models_of(bs@));
                            }
                            self.halted = true;
                            return Err(RunError::StackUnderflow);
                        }
                        proof {
                            assert(popped->Coll_0 =~= models_of(bs@));
                            assert(popped->Coll_0[0] == bubble_model(bs@[0]));
                        }
                        let first = bs.remove(0);
                        self.abyss.push(first);
                    },
                }
                self.pc = pc + 1;
                Ok(StepEffect::Ran)
            },
            Awatism::Dpl => {
                let dup = match self.abyss.top() {
                    Some(b) => b.clone(),
                    None => {
                        self.halted = true;
                        return Err(RunError::StackUnderflow);
                    },
                };
                self.abyss.push(dup);
                self.pc = pc + 1;
                Ok(StepEffect::Ran)
            },
            Awatism::Srn(arg) => {
                let k = arg as usize;
                if k > self.abyss.len() {
                    self.halted = true;
                    return Err(RunError::StackUnderflow);
                }
                let ghost stack0 = self.stack();
                let mut tmp: Vec<Bubble> = Vec::new();
                let mut c: usize = 0;
                while c < k
                    invariant
                        0 <= c <= k,
                        k <= stack0.len(),
                        self.stack() =~= stack0.take(stack0.len() - c),
                        tmp@.len() == c,
                        forall|j: int|
                            0 <= j < c ==> bubble_model(#[trigger] tmp@[j]) == stack0[stack0.len()
                                - 1 - j],
                        self.instructions == old(self).instructions,
                        self.label_map == old(self).label_map,
                        self.pc == old(self).pc,
                        self.halted == old(self).halted,
                    decreases k - c,
                {
                    let b = match self.abyss.pop() {
                        Some(b) => b,
                        None => {
                            proof {
                                assert(false);
                            }
                            return Err(RunError::StackUnderflow);
                        },
                    };
                    tmp.push(b);
                    proof {
                        assert(self.stack() =~= stack0.take(stack0.len() - (c + 1)));
                    }
                    c += 1;
                }
                let mut grouped: Vec<Bubble> = Vec::new();
                let mut j: usize = 0;
                while j < k
                    invariant
                        0 <= j <= k,
                        k <= stack0.len(),
                        tmp@.len() == k - j,
                        forall|t: int|
                            0 <= t < k - j ==> bubble_model(#[trigger] tmp@[t]) == stack0[stack0.len()
                                - 1 - t],
                        grouped@.len() == j,
                        forall|t: int|
                            0 <= t < j ==> bubble_model(#[trigger] grouped@[t]) == stack0[stack0.len()
                                - k + t],
                    decreases k - j,
                {
                    let b = match tmp.pop() {
                        Some(b) => b,
                        None => {
                            proof {
                                assert(false);
                            }
                            return Err(RunError::StackUnderflow);
                        },
                    };
                    grouped.push(b);
                    j += 1;
                }
                let gb = Bubble::Double(grouped);
                proof {
                    assert(gb@->Coll_0 =~= stack0.skip(stack0.len() - k));
                }
                self.abyss.push(gb);
                self.pc = pc + 1;
                proof {
                    assert(self.stack() =~= stack0.take(stack0.len() - k).push(
                        BubbleModel::Coll(stack0.skip(stack0.len() - k)),
                    ));
                }
                Ok(StepEffect::Ran)
            },
            Awatism::Mrg => {
                if self.abyss.len() < 2 {
                    self.halted = true;
                    return Err(RunError::StackUnderflow);
                }
                let ghost stack0 = self.stack();
                let b1 = match self.abyss.pop() {
                    Some(b) => b,
                    None => {
                        proof {
                            assert(false);
                        }
                        return Err(RunError::StackUnderflow);
                    },
                };
                let b2 = match self.abyss.pop() {
                    Some(b) => b,
                    None => {
                        proof {
                            assert(false);
                        }
                        return Err(RunError::StackUnderflow);
                    },
                };
                let merged = merge_bubbles(b1, b2);
                self.abyss.push(merged);
                self.pc = pc + 1;
                proof {
                    assert(self.stack() =~= stack0.take(stack0.len() - 2).push(
                        spec_merge(stack0.last(), stack0[stack0.len() - 2]),
                    ));
                }
                Ok(StepEffect::Ran)
            },
            Awatism::Add => self.arith_step(pc, BinOp::Add),
            Awatism::Sub => self.arith_step(pc, BinOp::Sub),
            Awatism::Mul => self.arith_step(pc, BinOp::Mul),
            Awatism::Div => self.arith_step(pc, BinOp::Div),
            Awatism::Cnt => {
                let cnt: i32 = match self.abyss.top() {
                    Some(Bubble::Simple(_)) => 0,
                    Some(Bubble::Double(bs)) => {
                        let m = bs.len();
                        proof {
                            let t = self.stack().last();
                            assert(t->Coll_0 =~= models_of(bs@));
                        }
                        #[verifier::truncate] (m as i32)
                    },
                    None => {
                        self.halted = true;
                        return Err(RunError::StackUnderflow);
                    },
                };
                self.abyss.push(Bubble::Simple(cnt));
                self.pc = pc + 1;
                Ok(StepEffect::Ran)
            },
            Awatism::Jmp(arg) => {
                let entry = self.label_map[arg as usize];
                match entry {
                    Some(t) => {
                        proof {
                            lemma_label_pos_in_range(self.prog(), arg);
                        }
                        self.pc = t + 1;
                        Ok(StepEffect::Ran)
                    },
                    None => {
                        self.halted = true;
                        Err(RunError::UnresolvedLabel)
                    },
                }
            },
            Awatism::Eql => self.cmp_step(pc, 0),
            Awatism::Lss => self.cmp_step(pc, 1),
            Awatism::Gr8 => self.cmp_step(pc, 2),
            Awatism::Lib => {
                let top = match self.abyss.pop() {
                    Some(b) => b,
                    None => {
                        self.halted = true;
                        return Err(RunError::StackUnderflow);
                    },
                };
                let ghost topm = bubble_model(top);
                match top {
                    Bubble::Simple(_) => {
                        self.pc = pc + 1;
                        Ok(StepEffect::Ran)
                    },
                    Bubble::Double(bs) => {
                        proof {
                            assert(topm->Coll_0 =~= models_of(bs@));
                        }
                        if bs.len() == 0 {
                            self.halted = true;
                            return Err(RunError::MalformedForeignArgument);
                        }
                        proof {
                            assert(topm->Coll_0[0] == bubble_model(bs@[0]));
                        }
                        if !bubble_is_flat(&bs[0]) {
                            self.halted = true;
                            return Err(RunError::MalformedForeignArgument);
                        }
                        let name_bytes = bs[0].to_u8_array();
                        let name = reversed_bytes(&name_bytes);
                        if bs.len() == 1 {
                            self.pc = pc + 1;
                            Ok(StepEffect::ForeignCall { name, args: Vec::new() })
                        } else {
                            proof {
                                assert(topm->Coll_0[1] == bubble_model(bs@[1]));
                            }
                            match parse_fn_args(&bs[1]) {
                                Ok(args) => {
                                    self.pc = pc + 1;
                                    Ok(StepEffect::ForeignCall { name, args })
                                },
                                Err(e) => {
                                    self.halted = true;
                                    Err(e)
                                },
                            }
                        }
                    },
                }
            },
            Awatism::Trm => {
                self.halted = true;
                Ok(StepEffect::Halted)
            },
            Awatism::StrLbl(_) => vstd::pervasive::unreached(),
            Awatism::JmpRelStr(_) => vstd::pervasive::unreached(),
        }
    }

    /// One print step: pop the top bubble and render it.
    fn print_step(&mut self, pc: usize, numeric: bool) -> (r: Result<StepEffect, RunError>)
        requires
            old(self).wf(),
            !old(self).spec_halted(),
            old(self).spec_pc() == pc,
            0 <= pc < old(self).prog().len(),
            old(self).prog()[pc as int] == (if numeric {
                Awatism::Pr1
            } else {
                Awatism::Prn
            }),
        ensures
            final(self).wf(),
            final(self).prog() == old(self).prog(),
            spec_step_matches(
                spec_step(old(self).prog(), old(self).spec_pc(), old(self).stack()),
                *old(self),
                *final(self),
                r,
            ),
    {
        let top = match self.abyss.pop() {
            Some(b) => b,
            None => {
                self.halted = true;
                return Err(RunError::StackUnderflow);
            },
        };
        let mut text = String::new();
        render_bubble(&top, numeric, &mut text);
        self.pc = pc + 1;
        Ok(StepEffect::Output(text))
    }

    /// One arithmetic step: pop two bubbles and push the broadcast
    /// result.
    fn arith_step(&mut self, pc: usize, op: BinOp) -> (r: Result<StepEffect, RunError>)
        requires
            old(self).wf(),
            !old(self).spec_halted(),
            old(self).spec_pc() == pc,
            0 <= pc < old(self).prog().len(),
            old(self).prog()[pc as int] == (match op {
                BinOp::Add => Awatism::Add,
                BinOp::Sub => Awatism::Sub,
                BinOp::Mul => Awatism::Mul,
                BinOp::Div => Awatism::Div,
            }),
        ensures
            final(self).wf(),
            final(self).prog() == old(self).prog(),
            spec_step_matches(
                spec_step(old(self).prog(), old(self).spec_pc(), old(self).stack()),
                *old(self),
                *final(self),
                r,
            ),
    {
        if self.abyss.len() < 2 {
            self.halted = true;
            return Err(RunError::StackUnderflow);
        }
        let ghost stack0 = self.stack();
        let b1 = match self.abyss.pop() {
            Some(b) => b,
            None => {
                proof {
                    assert(false);
                }
                return Err(RunError::StackUnderflow);
            },
        };
        let b2 = match self.abyss.pop() {
            Some(b) => b,
            None => {
                proof {
                    assert(false);
                }
                return Err(RunError::StackUnderflow);
            },
        };
        match operate_bubbles(op, &b1, &b2) {
            Ok(res) => {
                self.abyss.push(res);
                self.pc = pc + 1;
                proof {
                    assert(self.stack() =~= stack0.take(stack0.len() - 2).push(
                        spec_operate(op, stack0.last(), stack0[stack0.len() - 2]),
                    ));
                }
                Ok(StepEffect::Ran)
            },
            Err(e) => {
                self.halted = true;
                Err(e)
            },
        }
    }

    /// One conditional-skip step: peek the top two bubbles and advance
    /// one instruction when the comparison holds, two when it does not.
    fn cmp_step(&mut self, pc: usize, which: u8) -> (r: Result<StepEffect, RunError>)
        requires
            old(self).wf(),
            !old(self).spec_halted(),
            old(self).spec_pc() == pc,
            0 <= pc < old(self).prog().len(),
            old(self).prog()[pc as int] == (if which == 0 {
                Awatism::Eql
            } else if which == 1 {
                Awatism::Lss
            } else {
                Awatism::Gr8
            }),
        ensures
            final(self).wf(),
            final(self).prog() == old(self).prog(),
            spec_step_matches(
                spec_step(old(self).prog(), old(self).spec_pc(), old(self).stack()),
                *old(self),
                *final(self),
                r,
            ),
    {
        if self.abyss.len() < 2 {
            self.halted = true;
            return Err(RunError::StackUnderflow);
        }
        let hold: bool = {
            let t = self.abyss.top();
            let s = self.abyss.before_top();
            match (t, s) {
                (Some(Bubble::Simple(a)), Some(Bubble::Simple(b))) => {
                    if which == 0 {
                        *a == *b
                    } else if which == 1 {
                        *a < *b
                    } else {
                        *a > *b
                    }
                },
                _ => false,
            }
        };
        if hold {
            self.pc = pc + 1;
        } else {
            self.pc = pc + 2;
        }
        Ok(StepEffect::Ran)
    }

    /// Hand the engine the line a read instruction asked for: a
    /// read-characters instruction pushes the line's alphabet prefix as
    /// one collection, per [`spec_char_line_bubble`]; a read-number
    /// instruction parses a decimal value, per
    /// [`crate::text::spec_parse_number`], and rejects an unusable line
    /// as a fatal error.
    pub fn provide_line(&mut self, line: &str) -> (r: Result<(), RunError>)
        requires
            old(self).wf(),
            old(self).awaiting_line(),
        ensures
            final(self).wf(),
            final(self).prog() == old(self).prog(),
            old(self).prog()[old(self).spec_pc()] is Red ==> r is Ok && final(self).stack()
                == old(self).stack().push(spec_char_line_bubble(line@)) && final(self).spec_pc()
                == old(self).spec_pc() + 1 && !final(self).spec_halted(),
            old(self).prog()[old(self).spec_pc()] is R3d ==> (match spec_parse_number(line@) {
                Some(v) => r is Ok && final(self).stack() == old(self).stack().push(
                    BubbleModel::Int(v),
                ) && final(self).spec_pc() == old(self).spec_pc() + 1
                    && !final(self).spec_halted(),
                None => r is Err && r->Err_0 == RunError::InvalidNumberInput
                    && final(self).spec_halted(),
            }),
    {
        let pc = self.pc;
        proof {
            assert(self.prog()[pc as int] == self.instructions@[pc as int].awatism);
        }
        let is_red = match &self.instructions[pc].awatism {
            Awatism::Red => true,
            _ => false,
        };
        if is_red {
            let b = make_char_line_bubble(line);
            self.abyss.push(b);
            self.pc = pc + 1;
            Ok(())
        } else {
            match parse_number_line(line) {
                Ok(v) => {
                    self.abyss.push(Bubble::Simple(v));
                    self.pc = pc + 1;
                    Ok(())
                },
                Err(e) => {
                    self.halted = true;
                    Err(e)
                },
            }
        }
    }

    /// Whether execution has ended, cleanly or fatally.
    pub fn is_halted(&self) -> (r: bool)
        ensures
            r == self.spec_halted(),
    {
        self.halted
    }
}

} // verus!
