use awa5_rs::assembler::{assemble_awatism, make_object_vec, object_to_awa, object_to_awasm,
    parse_object_vec};
use awa5_rs::awatalk::parse_string;
use awa5_rs::errors::{BuildError, DecodeError, TalkError};
use awa5_rs::isa::{Awatism, Instruction};

fn instr(a: Awatism) -> Instruction {
    Instruction { awatism: a }
}

#[test]
fn decode_catalog() {
    assert!(matches!(Awatism::from_u8(0x00, 0), Some(Awatism::Nop)));
    assert!(matches!(Awatism::from_u8(0x05, 0xff), Some(Awatism::Blo(0xff))));
    assert!(matches!(Awatism::from_u8(0x0a, 0), Some(Awatism::Mrg)));
    assert!(matches!(Awatism::from_u8(0x11, 7), Some(Awatism::Jmp(7))));
    assert!(matches!(Awatism::from_u8(0x17, 0), Some(Awatism::Lib)));
    assert!(matches!(Awatism::from_u8(0x1f, 0), Some(Awatism::Trm)));
}

#[test]
fn reserved_opcodes_decode_to_error() {
    assert!(Awatism::from_u8(0x15, 0).is_none());
    assert!(Awatism::from_u8(0x16, 0).is_none());
    assert!(Awatism::from_u8(0x18, 0).is_none());
    assert!(Awatism::from_u8(0x20, 0).is_none());
    assert!(Awatism::from_u8(0x90, 0).is_none());
}

#[test]
fn argument_widths() {
    assert!(Awatism::needs_args(0x05));
    assert!(Awatism::needs_args(0x06));
    assert!(Awatism::needs_args(0x09));
    assert!(Awatism::needs_args(0x10));
    assert!(Awatism::needs_args(0x11));
    assert!(!Awatism::needs_args(0x00));
    assert!(!Awatism::needs_args(0x1f));
    assert_eq!(Awatism::arg_bits(0x05), 8);
    assert_eq!(Awatism::arg_bits(0x06), 5);
    assert_eq!(Awatism::arg_bits(0x09), 5);
    assert_eq!(Awatism::arg_bits(0x10), 5);
    assert_eq!(Awatism::arg_bits(0x11), 5);
    assert_eq!(Awatism::arg_bits(0x0a), 0);
    assert!(Awatism::is_relative(0x90));
    assert!(!Awatism::is_relative(0x11));
}

#[test]
fn encode_each_instruction() {
    assert_eq!(assemble_awatism(&instr(Awatism::Nop)), vec![0x00, 0x00]);
    assert_eq!(assemble_awatism(&instr(Awatism::Blo(65))), vec![0x05, 65]);
    assert_eq!(assemble_awatism(&instr(Awatism::Srn(4))), vec![0x09, 4]);
    assert_eq!(assemble_awatism(&instr(Awatism::Trm)), vec![0x1f, 0x00]);
    assert_eq!(assemble_awatism(&instr(Awatism::StrLbl("x".to_string()))), Vec::<u8>::new());
    assert_eq!(
        assemble_awatism(&instr(Awatism::JmpRelStr("x".to_string()))),
        vec![0x18, 0x00]
    );
}

#[test]
fn decode_then_encode_is_identity() {
    let object: Vec<u8> = vec![
        0x05, 0x41, 0x05, 0x02, 0x0b, 0x00, 0x01, 0x00, 0x10, 0x03, 0x11, 0x03, 0x1f, 0x00,
    ];
    let instrs = parse_object_vec(&object).unwrap();
    let again = make_object_vec(&instrs).unwrap();
    assert_eq!(again, object);
}

#[test]
fn decode_rejects_odd_length() {
    let object: Vec<u8> = vec![0x05, 0x41, 0x1f];
    assert_eq!(parse_object_vec(&object).unwrap_err(), DecodeError::OddLength);
}

#[test]
fn decode_rejects_unknown_opcode() {
    let object: Vec<u8> = vec![0x05, 0x41, 0x15, 0x00];
    assert_eq!(parse_object_vec(&object).unwrap_err(), DecodeError::UnknownOpcode);
}

#[test]
fn disassembles_each_mnemonic() {
    let object: Vec<u8> = vec![
        0x00, 0x00, 0x05, 0x41, 0x06, 0x01, 0x09, 0x02, 0x0a, 0x00, 0x0b, 0x00, 0x0c, 0x00,
        0x0d, 0x00, 0x0e, 0x00, 0x0f, 0x00, 0x10, 0x05, 0x11, 0x05, 0x12, 0x00, 0x13, 0x00,
        0x14, 0x00, 0x17, 0x00, 0x1f, 0x00,
    ];
    let text = object_to_awasm(&object).unwrap();
    assert_eq!(
        text,
        "nop\nblo 65\nsbm 1\nsrn 2\nmrg\n4dd\nsub\nmul\ndiv\ncnt\nlbl 5\njmp 5\neql\nlss\ngr8\nlib\ntrm\n"
    );
}

#[test]
fn disassembles_io_mnemonics() {
    let object: Vec<u8> = vec![0x01, 0x00, 0x02, 0x00, 0x03, 0x00, 0x04, 0x00, 0x07, 0x00, 0x08, 0x00];
    let text = object_to_awasm(&object).unwrap();
    assert_eq!(text, "prn\npr1\nred\nr3d\npop\ndpl\n");
}

#[test]
fn unary_text_of_one_argless_instruction() {
    // mrg = 0x0a = bits 01010
    let object: Vec<u8> = vec![0x0a, 0x00];
    let text = object_to_awa(&object).unwrap();
    assert_eq!(text, "awa awawa awawa awa\n");
}

#[test]
fn unary_text_carries_argument_bits() {
    // blo 1 = opcode 00101, argument 00000001 over 8 bits
    let object: Vec<u8> = vec![0x05, 0x01];
    let text = object_to_awa(&object).unwrap();
    assert_eq!(text, "awa awa awawa awawa awa awa awa awa awa awa awawa\n");
}

#[test]
fn parse_unary_text() {
    let instrs = parse_string("awa awa awawa awawa awa awa awa awa awa awa awawa").unwrap();
    assert_eq!(instrs.len(), 1);
    assert!(matches!(instrs[0].awatism, Awatism::Blo(1)));
}

#[test]
fn parse_unary_ignores_foreign_characters() {
    // decoration characters collapse away in normalization
    let instrs = parse_string("xawa awa awawa awawa awa  awa awa awa awa awa awawa\n").unwrap();
    assert_eq!(instrs.len(), 1);
    assert!(matches!(instrs[0].awatism, Awatism::Blo(1)));
}

#[test]
fn parse_unary_requires_prefix() {
    assert_eq!(parse_string("wa wa wa").unwrap_err(), TalkError::NotAwatalk);
    assert_eq!(parse_string("").unwrap_err(), TalkError::NotAwatalk);
}

#[test]
fn parse_unary_drops_trailing_partial_group() {
    // the prefix and then only three bits: no complete instruction
    let instrs = parse_string("awa awa awawa").unwrap();
    assert_eq!(instrs.len(), 0);
}

#[test]
fn unary_round_trip() {
    let object: Vec<u8> = vec![
        0x05, 0x41, 0x05, 0x02, 0x0b, 0x00, 0x01, 0x00, 0x10, 0x03, 0x11, 0x03, 0x09, 0x1f,
        0x06, 0x00, 0x1f, 0x00,
    ];
    let text = object_to_awa(&object).unwrap();
    let instrs = parse_string(&text).unwrap();
    let again = make_object_vec(&instrs).unwrap();
    assert_eq!(again, object);
}

#[test]
fn assembles_relative_jump() {
    let instrs = vec![
        instr(Awatism::StrLbl("start".to_string())),
        instr(Awatism::Nop),
        instr(Awatism::JmpRelStr("start".to_string())),
    ];
    let object = make_object_vec(&instrs).unwrap();
    // nop, then four load-immediates carrying -2 little endian, a
    // group-into-collection of 4, and the jump marker
    assert_eq!(
        object,
        vec![
            0x00, 0x00, 0x05, 0xfe, 0x05, 0xff, 0x05, 0xff, 0x05, 0xff, 0x09, 0x04, 0x18, 0x00
        ]
    );
}

#[test]
fn assembles_forward_relative_jump() {
    let instrs = vec![
        instr(Awatism::JmpRelStr("end".to_string())),
        instr(Awatism::Nop),
        instr(Awatism::StrLbl("end".to_string())),
    ];
    let object = make_object_vec(&instrs).unwrap();
    // the jump site is offset 0, the label sits at offset 14
    assert_eq!(
        object,
        vec![
            0x05, 0x0e, 0x05, 0x00, 0x05, 0x00, 0x05, 0x00, 0x09, 0x04, 0x18, 0x00, 0x00, 0x00
        ]
    );
}

#[test]
fn resolves_dotted_labels_through_parent() {
    let instrs = vec![
        instr(Awatism::StrLbl("main".to_string())),
        instr(Awatism::StrLbl(".loop".to_string())),
        instr(Awatism::JmpRelStr(".loop".to_string())),
    ];
    let object = make_object_vec(&instrs).unwrap();
    assert_eq!(
        object,
        vec![0x05, 0x00, 0x05, 0x00, 0x05, 0x00, 0x05, 0x00, 0x09, 0x04, 0x18, 0x00]
    );
}

#[test]
fn unresolved_symbolic_label_fails_the_build() {
    let instrs = vec![instr(Awatism::JmpRelStr("nowhere".to_string()))];
    assert_eq!(make_object_vec(&instrs).unwrap_err(), BuildError::UnresolvedLabel);
}

#[test]
fn later_label_definition_wins() {
    let instrs = vec![
        instr(Awatism::StrLbl("x".to_string())),
        instr(Awatism::Nop),
        instr(Awatism::StrLbl("x".to_string())),
        instr(Awatism::JmpRelStr("x".to_string())),
    ];
    let object = make_object_vec(&instrs).unwrap();
    // the jump targets the second definition, at byte offset 2
    assert_eq!(object[0..2], [0x00, 0x00]);
    assert_eq!(object[2..4], [0x05, 0x00]);
}

#[test]
fn unary_encoder_rejects_bad_buffers() {
    assert_eq!(object_to_awa(&vec![0x05]).unwrap_err(), DecodeError::OddLength);
    assert_eq!(object_to_awa(&vec![0x16, 0x00]).unwrap_err(), DecodeError::UnknownOpcode);
    assert_eq!(object_to_awasm(&vec![0x05]).unwrap_err(), DecodeError::OddLength);
    assert_eq!(object_to_awasm(&vec![0x42, 0x00]).unwrap_err(), DecodeError::UnknownOpcode);
}
