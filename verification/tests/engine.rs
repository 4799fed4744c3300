use awa5_rs::bubble::Bubble;
use awa5_rs::errors::RunError;
use awa5_rs::interpreter::{Interpreter, StepEffect};
use awa5_rs::marshal::{parse_fn_args, parse_fn_name};
use awa5_rs::text::{awa_scii, awascii_at, awascii_index, parse_number_line};

/// Drive a program without input to completion, collecting its output.
fn run_program(object: &[u8]) -> Result<String, RunError> {
    let mut it = Interpreter::new(&object.to_vec()).unwrap();
    let mut out = String::new();
    loop {
        match it.step()? {
            StepEffect::Ran => {},
            StepEffect::Output(s) => out.push_str(&s),
            StepEffect::Halted => return Ok(out),
            e => panic!("program asked for outside help: {:?}", e),
        }
    }
}

fn coll(vals: &[i32]) -> Bubble {
    let mut v = Vec::new();
    for x in vals {
        v.push(Bubble::Simple(*x));
    }
    Bubble::Double(v)
}

#[test]
fn prints_one_alphabet_character_and_halts() {
    // load-immediate 0, print-as-char, terminate: symbol 0 is 'A'
    let out = run_program(&[0x05, 0, 0x01, 0, 0x1f, 0]).unwrap();
    assert_eq!(out, "A");
}

#[test]
fn out_of_alphabet_code_points_print_nothing() {
    // the fixed alphabet has 64 symbols; code point 65 lies outside it
    let out = run_program(&[0x05, 65, 0x01, 0, 0x1f, 0]).unwrap();
    assert_eq!(out, "");
}

#[test]
fn prints_negative_numbers_in_decimal() {
    // 5 then 2 pushed; subtraction takes the top (2) minus the second
    // (5) and pr1 prints the result with a trailing space
    let out = run_program(&[0x05, 5, 0x05, 2, 0x0c, 0, 0x02, 0, 0x1f, 0]).unwrap();
    assert_eq!(out, "-3 ");
}

#[test]
fn halts_at_end_of_program_without_terminate() {
    let out = run_program(&[0x05, 1, 0x00, 0]).unwrap();
    assert_eq!(out, "");
}

#[test]
fn jump_to_undefined_label_is_fatal() {
    // an absolute jump to label 5 with no definition anywhere
    let err = run_program(&[0x11, 5]).unwrap_err();
    assert_eq!(err, RunError::UnresolvedLabel);
}

#[test]
fn group_with_too_few_elements_underflows() {
    // group-into-collection(3) on a stack of two
    let err = run_program(&[0x05, 1, 0x05, 2, 0x09, 3]).unwrap_err();
    assert_eq!(err, RunError::StackUnderflow);
}

#[test]
fn print_on_empty_stack_underflows() {
    assert_eq!(run_program(&[0x01, 0]).unwrap_err(), RunError::StackUnderflow);
    assert_eq!(run_program(&[0x02, 0]).unwrap_err(), RunError::StackUnderflow);
}

#[test]
fn load_immediate_sign_extends() {
    // 0xff sign-extends to -1
    let out = run_program(&[0x05, 0xff, 0x02, 0, 0x1f, 0]).unwrap();
    assert_eq!(out, "-1 ");
}

#[test]
fn group_and_print_reverses_back() {
    // push 0,1,2, group them, and print: a collection prints its
    // elements from the last to the first
    let out = run_program(&[0x05, 0, 0x05, 1, 0x05, 2, 0x09, 3, 0x02, 0, 0x1f, 0]).unwrap();
    assert_eq!(out, "2 1 0 ");
}

#[test]
fn merge_on_stack_orders_first_pushed_first() {
    // 5 pushed first, 7 second; the merged collection prints 7 first
    // (last element first)
    let out = run_program(&[0x05, 5, 0x05, 7, 0x0a, 0, 0x02, 0, 0x1f, 0]).unwrap();
    assert_eq!(out, "7 5 ");
}

#[test]
fn submerge_to_bottom() {
    // push 1,2,3; submerge the top to the bottom; print all three
    let out = run_program(&[
        0x05, 1, 0x05, 2, 0x05, 3, 0x06, 0, 0x02, 0, 0x02, 0, 0x02, 0, 0x1f, 0,
    ])
    .unwrap();
    assert_eq!(out, "2 1 3 ");
}

#[test]
fn submerge_to_depth() {
    // push 1,2,3; reinsert the top at depth 1 from the bottom
    let out = run_program(&[
        0x05, 1, 0x05, 2, 0x05, 3, 0x06, 1, 0x02, 0, 0x02, 0, 0x02, 0, 0x1f, 0,
    ])
    .unwrap();
    assert_eq!(out, "2 3 1 ");
}

#[test]
fn pop_unwraps_first_element_of_a_collection() {
    // group 1,2 and pop: only the first element (1) comes back
    let out = run_program(&[0x05, 1, 0x05, 2, 0x09, 2, 0x07, 0, 0x02, 0, 0x1f, 0]).unwrap();
    assert_eq!(out, "1 ");
}

#[test]
fn pop_discards_a_scalar() {
    let out = run_program(&[0x05, 1, 0x05, 2, 0x07, 0, 0x02, 0, 0x1f, 0]).unwrap();
    assert_eq!(out, "1 ");
}

#[test]
fn duplicate_top() {
    let out = run_program(&[0x05, 4, 0x08, 0, 0x02, 0, 0x02, 0, 0x1f, 0]).unwrap();
    assert_eq!(out, "4 4 ");
}

#[test]
fn count_pushes_zero_for_scalars_and_length_for_collections() {
    let out = run_program(&[0x05, 9, 0x0f, 0, 0x02, 0, 0x1f, 0]).unwrap();
    assert_eq!(out, "0 ");
    let out = run_program(&[0x05, 1, 0x05, 2, 0x09, 2, 0x0f, 0, 0x02, 0, 0x1f, 0]).unwrap();
    assert_eq!(out, "2 ");
}

#[test]
fn equal_skip_runs_next_on_equal_scalars() {
    // 3 == 3 holds: the next instruction (print) runs
    let out = run_program(&[0x05, 3, 0x05, 3, 0x12, 0, 0x02, 0, 0x1f, 0]).unwrap();
    assert_eq!(out, "3 ");
    // 3 != 4: the print is skipped
    let out = run_program(&[0x05, 4, 0x05, 3, 0x12, 0, 0x02, 0, 0x1f, 0]).unwrap();
    assert_eq!(out, "");
}

#[test]
fn comparisons_against_collections_never_hold() {
    // group two equal collections; eql still skips
    let out = run_program(&[
        0x05, 1, 0x09, 1, 0x05, 1, 0x09, 1, 0x12, 0, 0x02, 0, 0x1f, 0,
    ])
    .unwrap();
    assert_eq!(out, "");
}

#[test]
fn less_than_and_greater_than_compare_top_against_second() {
    // top 2, second 5: 2 < 5 holds
    let out = run_program(&[0x05, 5, 0x05, 2, 0x13, 0, 0x02, 0, 0x1f, 0]).unwrap();
    assert_eq!(out, "2 ");
    // top 5, second 2: 5 > 2 holds
    let out = run_program(&[0x05, 2, 0x05, 5, 0x14, 0, 0x02, 0, 0x1f, 0]).unwrap();
    assert_eq!(out, "5 ");
}

#[test]
fn absolute_jump_runs_from_after_the_label() {
    // jump over a print to the label, then print 1 and halt
    let object = [
        0x05, 1, // blo 1
        0x11, 9, // jmp 9
        0x02, 0, // pr1 (skipped)
        0x10, 9, // lbl 9
        0x02, 0, // pr1
        0x1f, 0, // trm
    ];
    let out = run_program(&object).unwrap();
    assert_eq!(out, "1 ");
}

#[test]
fn countdown_loop_terminates() {
    // decrement a counter with a backward jump until an equal-skip
    // sees it reach zero
    let object = [
        0x05, 2,    // blo 2
        0x10, 1,    // lbl 1
        0x05, 0xff, // blo -1
        0x0b, 0,    // 4dd: counter - 1
        0x08, 0,    // dpl
        0x05, 0,    // blo 0
        0x12, 0,    // eql: continue to trm only when the counter is 0
        0x1f, 0,    // trm
        0x07, 0,    // pop the comparison operand
        0x07, 0,    // pop the duplicate
        0x11, 1,    // jmp 1
    ];
    let _ = run_program(&object).unwrap();
}

#[test]
fn division_program_prints_remainder_and_quotient() {
    // 2 pushed first (divisor side), -3 on top: -3 / 2 floors to -2
    // with truncating remainder -1; the pair prints quotient first
    let out = run_program(&[0x05, 2, 0x05, 0xfd, 0x0e, 0, 0x02, 0, 0x1f, 0]).unwrap();
    assert_eq!(out, "-2 -1 ");
}

#[test]
fn division_by_zero_aborts_the_run() {
    let err = run_program(&[0x05, 0, 0x05, 6, 0x0e, 0, 0x1f, 0]).unwrap_err();
    assert_eq!(err, RunError::DivideByZero);
}

#[test]
fn read_characters_round_trips_through_print() {
    // red reads a line into a reversed collection of alphabet
    // indices; prn prints it back in reading order
    let object = vec![0x03, 0, 0x01, 0, 0x1f, 0];
    let mut it = Interpreter::new(&object).unwrap();
    assert!(matches!(it.step().unwrap(), StepEffect::AwaitCharLine));
    it.provide_line("AWax").unwrap();
    match it.step().unwrap() {
        StepEffect::Output(s) => assert_eq!(s, "AWa"),
        e => panic!("unexpected effect: {:?}", e),
    }
    assert!(matches!(it.step().unwrap(), StepEffect::Halted));
}

#[test]
fn read_number_parses_a_leading_decimal() {
    let object = vec![0x04, 0, 0x02, 0, 0x1f, 0];
    let mut it = Interpreter::new(&object).unwrap();
    assert!(matches!(it.step().unwrap(), StepEffect::AwaitNumberLine));
    it.provide_line("-42x7\n").unwrap();
    match it.step().unwrap() {
        StepEffect::Output(s) => assert_eq!(s, "-42 "),
        e => panic!("unexpected effect: {:?}", e),
    }
}

#[test]
fn read_number_rejects_a_line_without_digits() {
    let object = vec![0x04, 0, 0x1f, 0];
    let mut it = Interpreter::new(&object).unwrap();
    assert!(matches!(it.step().unwrap(), StepEffect::AwaitNumberLine));
    assert_eq!(it.provide_line("awa\n").unwrap_err(), RunError::InvalidNumberInput);
    assert!(it.is_halted());
}

#[test]
fn foreign_call_effect_carries_name_and_arguments() {
    // build the name "hi" as a reversed byte collection, wrap it, and
    // invoke the foreign-call instruction
    let object = vec![
        0x05, 105, // blo 'i'
        0x05, 104, // blo 'h'
        0x09, 2,  // srn 2: [105, 104]
        0x09, 1,  // srn 1: [[105, 104]]
        0x17, 0,  // lib
        0x1f, 0,  // trm
    ];
    let mut it = Interpreter::new(&object).unwrap();
    for _ in 0..4 {
        assert!(matches!(it.step().unwrap(), StepEffect::Ran));
    }
    match it.step().unwrap() {
        StepEffect::ForeignCall { name, args } => {
            assert_eq!(parse_fn_name(&name).unwrap(), "hi");
            assert_eq!(args, Vec::<u8>::new());
        },
        e => panic!("unexpected effect: {:?}", e),
    }
    assert!(matches!(it.step().unwrap(), StepEffect::Halted));
}

#[test]
fn foreign_call_on_a_scalar_is_discarded() {
    let out = run_program(&[0x05, 1, 0x17, 0, 0x1f, 0]).unwrap();
    assert_eq!(out, "");
}

#[test]
fn marshals_each_argument_kind() {
    let mut descriptors = Vec::new();
    // tag 0: raw value bytes of a scalar
    descriptors.push(Bubble::Double(vec![Bubble::Simple(0), Bubble::Simple(0x41)]));
    // tag 1: one alphabet symbol by index ('A' is symbol 0)
    descriptors.push(Bubble::Double(vec![Bubble::Simple(1), Bubble::Simple(0)]));
    // tag 2: one raw byte
    descriptors.push(Bubble::Double(vec![Bubble::Simple(2), Bubble::Simple(33)]));
    // tag 3: an alphabet string, payload in reverse order, NUL-ended
    descriptors.push(Bubble::Double(vec![Bubble::Simple(3), coll(&[1, 0])]));
    // tag 4: a raw string, payload in reverse order, NUL-ended
    descriptors.push(Bubble::Double(vec![Bubble::Simple(4), coll(&[0x62, 0x61])]));
    let args = parse_fn_args(&Bubble::Double(descriptors)).unwrap();
    assert_eq!(args, vec![0x41, b'A', 33, b'A', b'W', 0, b'a', b'b', 0]);
}

#[test]
fn marshaling_rejects_unknown_type_tags() {
    let descriptors = vec![Bubble::Double(vec![Bubble::Simple(7), Bubble::Simple(1)])];
    let err = parse_fn_args(&Bubble::Double(descriptors)).unwrap_err();
    assert_eq!(err, RunError::MalformedForeignArgument);
}

#[test]
fn marshaling_rejects_malformed_descriptors() {
    // not a collection at all
    assert_eq!(
        parse_fn_args(&Bubble::Simple(3)).unwrap_err(),
        RunError::MalformedForeignArgument
    );
    // a descriptor with no payload
    let descriptors = vec![Bubble::Double(vec![Bubble::Simple(0)])];
    assert_eq!(
        parse_fn_args(&Bubble::Double(descriptors)).unwrap_err(),
        RunError::MalformedForeignArgument
    );
    // an alphabet index outside the 64 symbols
    let descriptors = vec![Bubble::Double(vec![Bubble::Simple(1), Bubble::Simple(64)])];
    assert_eq!(
        parse_fn_args(&Bubble::Double(descriptors)).unwrap_err(),
        RunError::MalformedForeignArgument
    );
}

#[test]
fn function_names_decode_from_ascii_bytes() {
    assert_eq!(parse_fn_name(&[104, 105]).unwrap(), "hi");
    assert_eq!(parse_fn_name(&[]).unwrap(), "");
}

#[test]
fn the_alphabet_has_sixty_four_symbols() {
    let alphabet = awa_scii();
    assert_eq!(alphabet.chars().count(), 64);
    assert_eq!(alphabet.chars().next().unwrap(), 'A');
    assert_eq!(alphabet.chars().last().unwrap(), '\n');
}

#[test]
fn number_lines_parse_like_the_engine_reads_them() {
    assert_eq!(parse_number_line("123").unwrap(), 123);
    assert_eq!(parse_number_line("-8 trailing").unwrap(), -8);
    assert_eq!(parse_number_line("2147483647").unwrap(), i32::MAX);
    assert!(parse_number_line("2147483648").is_err());
    assert!(parse_number_line("").is_err());
    assert!(parse_number_line("-").is_err());
}

#[test]
fn stepping_a_halted_engine_stays_halted() {
    let object = vec![0x1f, 0];
    let mut it = Interpreter::new(&object).unwrap();
    assert!(matches!(it.step().unwrap(), StepEffect::Halted));
    assert!(it.is_halted());
    assert!(matches!(it.step().unwrap(), StepEffect::Halted));
}

#[test]
fn alphabet_indices_round_trip() {
    for i in 0..64usize {
        let c = awascii_at(i);
        assert_eq!(awascii_index(c), Some(i as u8));
    }
    assert_eq!(awascii_index('x'), None);
    assert_eq!(awascii_index('#'), None);
}
