use adversembly::assembler::{program, Datum, ParseError, ParseErrorKind, Syntax};
use adversembly::nibble::u4;
use adversembly::vm::Opcode;

fn compile_to_bytes(text: &str) -> Vec<u8> {
    let nodes = program(text).expect("parse failure");
    Syntax::compile(nodes).into_iter().map(|n| n.to_u8()).collect()
}

#[test]
fn parses_all_instruction_sigils() {
    let nodes = program("? > + j c r l s !").expect("parse failure");
    assert_eq!(nodes.len(), 9);
    assert!(matches!(nodes[0], Syntax::Nop));
    assert!(matches!(nodes[1], Syntax::Pop));
    assert!(matches!(nodes[2], Syntax::Add));
    assert!(matches!(nodes[3], Syntax::JumpNonZero));
    assert!(matches!(nodes[4], Syntax::Call));
    assert!(matches!(nodes[5], Syntax::Return));
    assert!(matches!(nodes[6], Syntax::Load));
    assert!(matches!(nodes[7], Syntax::Store));
    assert!(matches!(nodes[8], Syntax::Halt));
}

#[test]
fn parses_push_literal() {
    let nodes = program("<x5f").expect("parse failure");
    assert_eq!(nodes.len(), 1);
    match &nodes[0] {
        Syntax::Push(Datum::Literal(v)) => {
            assert_eq!(v.len(), 2);
            assert_eq!(v[0].to_u8(), 5);
            assert_eq!(v[1].to_u8(), 0xF);
        }
        other => panic!("expected a push literal, got {other:?}"),
    }
}

#[test]
fn parses_filler_label_and_comment() {
    let nodes = program(".x123 'top .'top (note)").expect("parse failure");
    assert_eq!(nodes.len(), 4);
    match &nodes[0] {
        Syntax::Filler(Datum::Literal(v)) => assert_eq!(v.len(), 3),
        other => panic!("expected a filler literal, got {other:?}"),
    }
    match &nodes[1] {
        Syntax::Label(name) => assert_eq!(name.as_str(), "top"),
        other => panic!("expected a label, got {other:?}"),
    }
    match &nodes[2] {
        Syntax::Filler(Datum::Label(name)) => assert_eq!(name.as_str(), "top"),
        other => panic!("expected a filler label reference, got {other:?}"),
    }
    match &nodes[3] {
        Syntax::Comment(text) => assert_eq!(text.as_str(), "note"),
        other => panic!("expected a comment, got {other:?}"),
    }
}

#[test]
fn tokens_may_abut_without_whitespace() {
    let nodes = program("<x5<x3+").expect("parse failure");
    assert_eq!(nodes.len(), 3);
    assert!(matches!(nodes[2], Syntax::Add));
}

#[test]
fn whitespace_variants_separate_tokens() {
    let nodes = program("?\n\t? \r ?").expect("parse failure");
    assert_eq!(nodes.len(), 3);
}

#[test]
fn comment_spans_token_boundaries() {
    let nodes = program("( anything ! < . goes )?").expect("parse failure");
    assert_eq!(nodes.len(), 2);
    assert!(matches!(nodes[0], Syntax::Comment(_)));
    assert!(matches!(nodes[1], Syntax::Nop));
}

#[test]
fn unterminated_comment_is_fatal() {
    let e = program("? ( never closed").expect_err("should fail");
    assert_eq!(
        e,
        ParseError { position: 2, kind: ParseErrorKind::UnterminatedComment }
    );
}

#[test]
fn unrecognized_token_is_fatal() {
    let e = program("z").expect_err("should fail");
    assert_eq!(
        e,
        ParseError { position: 0, kind: ParseErrorKind::UnrecognizedToken }
    );
    let e = program("? %").expect_err("should fail");
    assert_eq!(
        e,
        ParseError { position: 2, kind: ParseErrorKind::UnrecognizedToken }
    );
}

#[test]
fn malformed_literal_is_fatal() {
    // `x` with no digits
    let e = program("<x").expect_err("should fail");
    assert_eq!(
        e,
        ParseError { position: 2, kind: ParseErrorKind::MalformedLiteral }
    );
    // a datum position holding neither a literal nor a label
    let e = program("<z").expect_err("should fail");
    assert_eq!(
        e,
        ParseError { position: 1, kind: ParseErrorKind::MalformedLiteral }
    );
    let e = program(".").expect_err("should fail");
    assert_eq!(
        e,
        ParseError { position: 1, kind: ParseErrorKind::MalformedLiteral }
    );
}

#[test]
fn malformed_label_is_fatal() {
    let e = program("'").expect_err("should fail");
    assert_eq!(
        e,
        ParseError { position: 1, kind: ParseErrorKind::MalformedLabel }
    );
    let e = program("'1up").expect_err("should fail");
    assert_eq!(
        e,
        ParseError { position: 1, kind: ParseErrorKind::MalformedLabel }
    );
}

#[test]
fn node_lengths_are_fixed_per_kind() {
    let nodes = program("'a (c) ? <x12 .x345 .'a <'a").expect("parse failure");
    let lens: Vec<usize> = nodes.iter().map(|n| n.len()).collect();
    assert_eq!(lens, vec![0, 0, 1, 4, 3, 2, 4]);
    assert!(nodes[0].is_empty());
    assert!(!nodes[2].is_empty());
    match &nodes[3] {
        Syntax::Push(d) => assert_eq!(d.len(), 2),
        other => panic!("expected a push, got {other:?}"),
    }
}

#[test]
fn compile_encodes_the_fixed_table() {
    assert_eq!(
        compile_to_bytes("? > + j c r l s !"),
        vec![0, 2, 3, 5, 6, 7, 8, 9, 15]
    );
}

#[test]
fn round_trip_recovers_the_opcode_sequence() {
    // assembling a label-free program and decoding each nibble through the
    // fixed opcode table gives back the original instructions
    let text = "? > + j c r l s !";
    let expected = [
        Opcode::Nop,
        Opcode::Pop,
        Opcode::Add,
        Opcode::JumpNonZero,
        Opcode::Call,
        Opcode::Return,
        Opcode::Load,
        Opcode::Store,
        Opcode::Halt,
    ];
    let nodes = program(text).expect("parse failure");
    let code = Syntax::compile(nodes);
    assert_eq!(code.len(), expected.len());
    for (n, want) in code.iter().zip(expected.iter()) {
        assert_eq!(Opcode::decode(*n), Some(*want));
    }
}

#[test]
fn push_encodes_an_opcode_per_nibble() {
    assert_eq!(compile_to_bytes("<x5f"), vec![1, 5, 1, 0xF]);
    assert_eq!(compile_to_bytes(".xabc"), vec![0xA, 0xB, 0xC]);
}

#[test]
fn forward_reference_resolves_to_the_forward_address() {
    // the reference comes before the definition: push(label) is 4 nibbles,
    // halt 1, so 'end stands at offset 5
    assert_eq!(compile_to_bytes("<'end ! 'end"), vec![1, 0, 1, 5, 15]);
}

#[test]
fn backward_reference_resolves_the_same_way() {
    assert_eq!(compile_to_bytes("'top ? <'top"), vec![0, 1, 0, 1, 0]);
}

#[test]
fn undefined_label_compiles_as_zero_placeholder() {
    assert_eq!(compile_to_bytes("<'nowhere"), vec![1, 0, 1, 0]);
    assert_eq!(compile_to_bytes(".'nowhere"), vec![0, 0]);
}

#[test]
fn later_definition_of_a_label_shadows_earlier() {
    // both definitions stand in the table; the second, at offset 1, wins
    assert_eq!(compile_to_bytes("'a ? 'a <'a"), vec![0, 1, 0, 1, 1]);
}

#[test]
fn filler_label_reference_resolves_to_two_nibbles() {
    // nop, then a filler holding the address of 'here (offsets 1+2+1 = 4)
    assert_eq!(compile_to_bytes("? .'here ? 'here"), vec![0, 0, 4, 0]);
}

#[test]
fn resolve_labels_rewrites_in_place() {
    let mut nodes = program("'a <'a").expect("parse failure");
    Syntax::resolve_labels(&mut nodes);
    match &nodes[1] {
        Syntax::Push(Datum::Literal(v)) => {
            assert_eq!(v.len(), 2);
            assert_eq!(v[0].to_u8(), 0);
            assert_eq!(v[1].to_u8(), 0);
        }
        other => panic!("expected a resolved push, got {other:?}"),
    }
}

#[test]
fn encode_single_nodes() {
    let halt = Syntax::Halt.encode();
    assert_eq!(halt.len(), 1);
    assert_eq!(halt[0].to_u8(), 15);
    let label = Syntax::Label(String::from("x")).encode();
    assert!(label.is_empty());
    let push = Syntax::Push(Datum::Literal(vec![u4::from_u8(9)])).encode();
    let bytes: Vec<u8> = push.into_iter().map(|n| n.to_u8()).collect();
    assert_eq!(bytes, vec![1, 9]);
}

#[test]
fn subtract_is_shadowed_by_add_in_the_grammar() {
    // `+` parses as Add: Subtract is reachable only programmatically
    let nodes = program("+").expect("parse failure");
    assert!(matches!(nodes[0], Syntax::Add));
    let code = Syntax::compile(vec![Syntax::Subtract]);
    assert_eq!(code[0].to_u8(), 4);
}

#[test]
fn empty_and_blank_programs_parse_to_nothing() {
    assert_eq!(program("").expect("parse failure").len(), 0);
    assert_eq!(program("  \n ").expect("parse failure").len(), 0);
}
