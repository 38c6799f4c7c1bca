use std::rc::Rc;

use disasm::disassembler::{Action, Disassembler, Expr, Next, ToExpr};
use disasm::pattern::{compile_pattern, PatternError};
use disasm::state::State;

type St = State<u64, (), ()>;

#[derive(Clone, Copy, Debug)]
enum Act {
    Accept,
    Reject,
    /// Emits a mnemonic of the given length and a jump past it.
    Emit(&'static str, usize),
    /// Emits a mnemonic, then rejects.
    EmitReject(&'static str),
}

impl Action<u64, (), ()> for Act {
    fn apply(&self, st: &mut St) -> bool {
        match *self {
            Act::Accept => true,
            Act::Reject => false,
            Act::Emit(name, len) => {
                let next = st.address;
                st.mnemonic(len, name, "", vec![], Vec::new);
                st.jump(next + len as u64, ());
                true
            }
            Act::EmitReject(name) => {
                st.mnemonic(1, name, "", vec![], Vec::new);
                false
            }
        }
    }
}

fn pat(s: &str) -> Expr<Act> {
    Expr::Pattern(s.to_string())
}

fn lit(c: u64) -> Expr<Act> {
    Expr::Terminal(c)
}

fn sub(d: &Rc<Disassembler<Act>>) -> Expr<Act> {
    Expr::Subdecoder(d.clone())
}

fn stream(b: &[u8]) -> Vec<Option<u8>> {
    b.iter().map(|x| Some(*x)).collect()
}

fn group(st: &St, name: &str) -> Option<u64> {
    st.group(name)
}

fn fixture() -> (Rc<Disassembler<Act>>, Rc<Disassembler<Act>>, Rc<Disassembler<Act>>, Vec<Option<u8>>) {
    let mut sub1 = Disassembler::new(8);
    sub1.add_expr(vec![lit(2)], Act::Emit("BA", 2)).unwrap();
    let sub1 = Rc::new(sub1);
    let mut sub2 = Disassembler::new(8);
    sub2.add_expr(vec![lit(8)], Act::Reject).unwrap();
    let sub2 = Rc::new(sub2);

    let mut main = Disassembler::new(8);
    main.add_expr(vec![lit(1), sub(&sub1)], Act::Accept).unwrap();
    main.add_expr(vec![lit(1)], Act::Emit("A", 1)).unwrap();
    main.add_expr(vec![pat("0 k@..... 11")], Act::Emit("C", 1)).unwrap();
    main.set_default(Act::Emit("UNK", 1));
    (sub1, sub2, Rc::new(main), stream(&[1, 1, 2, 1, 3, 8, 1, 8]))
}

#[test]
fn decode_macro() {
    let mut lock_prfx = Disassembler::new(8);
    assert!(lock_prfx.add_expr(vec![lit(0x06)], Act::Accept).is_ok());
    let lock_prfx = Rc::new(lock_prfx);

    let mut main = Disassembler::new(8);
    assert!(main.add_expr(vec![lit(22), lit(21), sub(&lock_prfx)], Act::Accept).is_ok());
    assert!(main.add_expr(vec![pat("....11 d@00")], Act::Accept).is_ok());
    assert!(main.add_expr(vec![pat("....11 d@00"), pat(".. d@0011. 0")], Act::Accept).is_ok());
    assert_eq!(main.len(), 3);
}

#[test]
fn single_decoder() {
    let (_, _, main, def) = fixture();
    let st = St::new(0);
    let mut pos: usize = 0;

    let r = main.next_match(&def, &mut pos, &st);
    assert!(r.is_some());
    let st = r.unwrap();
    assert_eq!(pos, 1);
    assert_eq!(st.address, 0);
    assert_eq!(st.tokens, vec![1]);
    assert!(st.groups.is_empty());
    assert_eq!(st.mnemonics.len(), 1);
    assert_eq!(st.mnemonics[0].opcode, "A");
    assert_eq!((st.mnemonics[0].start, st.mnemonics[0].end), (0, 1));
    assert!(st.mnemonics[0].instructions.is_empty());
    assert_eq!(st.jumps.len(), 1);
    assert_eq!(st.jumps[0].0, 1);
}

#[test]
fn whole_stream_end_to_end() {
    let (_, _, main, def) = fixture();
    let mut pos: usize = 0;
    let mut seen = Vec::new();
    while pos < def.len() {
        let st = St::new(pos as u64);
        let r = main.next_match(&def, &mut pos, &st).expect("fallback decodes any byte");
        let m = &r.mnemonics[0];
        seen.push((m.opcode.clone(), m.start, m.end, r.jumps[0].0));
    }
    let want: Vec<(String, u64, u64, u64)> = vec![
        ("A".to_string(), 0, 1, 1),
        ("BA".to_string(), 1, 3, 3),
        ("A".to_string(), 3, 4, 4),
        ("C".to_string(), 4, 5, 5),
        ("UNK".to_string(), 5, 6, 6),
        ("A".to_string(), 6, 7, 7),
        ("UNK".to_string(), 7, 8, 8),
    ];
    assert_eq!(seen, want);
}

#[test]
fn literal_pattern_matches_only_its_token() {
    let p = compile_pattern("1100 1010", 8).unwrap();
    assert_eq!(p.value, 0xCA);
    assert_eq!(p.mask, 0xFF);
    for t in 0u64..256 {
        assert_eq!(t & p.mask == p.value, t == 0xCA, "token {}", t);
    }
    let mut d = Disassembler::new(8);
    d.add_expr(vec![pat("1100 1010")], Act::Accept).unwrap();
    let st = St::new(0);
    let mut pos = 0;
    assert!(d.next_match(&stream(&[0xCA]), &mut pos, &st).is_some());
    assert_eq!(pos, 1);
    let mut pos = 0;
    assert!(d.next_match(&stream(&[0xCB]), &mut pos, &st).is_none());
    assert!(d.next_match(&stream(&[0x4A]), &mut pos, &st).is_none());
    assert_eq!(pos, 0);
}

#[test]
fn wildcards_and_literals_build_value_and_mask() {
    let p = compile_pattern("1.0. ..11", 8).unwrap();
    assert_eq!(p.value, 0b1000_0011);
    assert_eq!(p.mask, 0b1010_0011);
    assert!(p.names.is_empty());
}

#[test]
fn wrong_length_patterns_fail() {
    assert_eq!(compile_pattern("111111111", 8).err(), Some(PatternError::WrongLength));
    assert_eq!(compile_pattern("1111111", 8).err(), Some(PatternError::WrongLength));
    assert_eq!(compile_pattern("k@.........", 8).err(), Some(PatternError::WrongLength));
    assert!(pat("1111111").matches(8).is_empty());
    assert!(pat("111111111").matches(8).is_empty());
    let mut d = Disassembler::new(8);
    assert_eq!(d.add_expr(vec![pat("1111111")], Act::Accept), Err(PatternError::WrongLength));
    assert_eq!(d.len(), 0);
    assert_eq!(compile_pattern("1111 1111 0000 000", 16).err(), Some(PatternError::WrongLength));
    assert!(compile_pattern("1111 1111 0000 0000", 16).is_ok());
}

#[test]
fn malformed_patterns_fail() {
    assert_eq!(compile_pattern("a111111", 8).err(), Some(PatternError::UnclosedName));
    assert_eq!(compile_pattern("1111111 a", 8).err(), Some(PatternError::UnclosedName));
    assert_eq!(compile_pattern("@11111111", 8).err(), Some(PatternError::AnonymousGroup));
    assert_eq!(compile_pattern("1111 1112", 8).err(), Some(PatternError::InvalidCharacter('2')));
    assert_eq!(compile_pattern("1111_1111", 8).err(), Some(PatternError::InvalidCharacter('_')));
}

#[test]
fn rule_errors_leave_table_unchanged() {
    let mut d: Disassembler<Act> = Disassembler::new(8);
    assert_eq!(d.add_expr(vec![], Act::Accept), Err(PatternError::EmptyRule));
    assert_eq!(d.add_expr(vec![lit(256)], Act::Accept), Err(PatternError::ConstantTooWide));
    let wide = Rc::new(Disassembler::new(16));
    assert_eq!(d.add_expr(vec![lit(1), sub(&wide)], Act::Accept), Err(PatternError::WidthMismatch));
    assert_eq!(
        d.add_expr(vec![lit(1), pat("2"), pat("x")], Act::Accept),
        Err(PatternError::InvalidCharacter('2'))
    );
    assert_eq!(d.len(), 0);
    assert!(lit(255).matches(8).len() == 1);
    assert!(lit(256).matches(8).is_empty());
}

#[test]
fn capture_group_value() {
    let mut d = Disassembler::new(8);
    d.add_expr(vec![pat("0 k@..... 11")], Act::Emit("C", 1)).unwrap();
    let st = St::new(0);
    let mut pos = 0;
    let r = d.next_match(&stream(&[0b0_10100_11]), &mut pos, &st).unwrap();
    assert_eq!(pos, 1);
    assert_eq!(r.tokens, vec![0b0_10100_11]);
    assert_eq!(r.groups.len(), 1);
    assert_eq!(group(&r, "k"), Some(20));
    let mut pos = 0;
    assert!(d.next_match(&stream(&[0b1_10100_11]), &mut pos, &st).is_none());
}

#[test]
fn group_closed_by_whitespace() {
    let p = compile_pattern("0 k@..... 11", 8).unwrap();
    assert_eq!(p.names, vec!["k".to_string()]);
    assert_eq!(p.masks, vec![0b0_11111_00]);
    assert_eq!(p.mask, 0b1_00000_11);
    assert_eq!(p.value, 0b0_00000_11);
    let p = compile_pattern("a@1. b@.. a@.1..", 8).unwrap();
    assert_eq!(p.names, vec!["a".to_string(), "b".to_string()]);
    assert_eq!(p.masks, vec![0b11_00_1111, 0b00_11_0000]);
}

#[test]
fn first_declared_rule_wins() {
    let mut d = Disassembler::new(8);
    d.add_expr(vec![lit(0xCA)], Act::Emit("FIRST", 1)).unwrap();
    d.add_expr(vec![pat("1100 ....")], Act::Emit("SECOND", 1)).unwrap();
    let mut pos = 0;
    let r = d.next_match(&stream(&[0xCA]), &mut pos, &St::new(0)).unwrap();
    assert_eq!(r.mnemonics.len(), 1);
    assert_eq!(r.mnemonics[0].opcode, "FIRST");
}

#[test]
fn rejected_rule_falls_to_next() {
    let mut d = Disassembler::new(8);
    d.add_expr(vec![lit(0xCA)], Act::EmitReject("FIRST")).unwrap();
    d.add_expr(vec![pat("1100 ....")], Act::Emit("SECOND", 1)).unwrap();
    let mut pos = 0;
    let r = d.next_match(&stream(&[0xCA]), &mut pos, &St::new(0)).unwrap();
    assert_eq!(r.mnemonics.len(), 1);
    assert_eq!(r.mnemonics[0].opcode, "SECOND");
    assert_eq!(r.tokens, vec![0xCA]);
}

#[test]
fn candidates_in_declaration_order() {
    let mut d = Disassembler::new(8);
    d.add_expr(vec![lit(1)], Act::Accept).unwrap();
    d.add_expr(vec![lit(0xCA)], Act::Reject).unwrap();
    d.add_expr(vec![lit(3)], Act::Accept).unwrap();
    d.add_expr(vec![pat("1100 ....")], Act::Accept).unwrap();
    let bytes = stream(&[0xCA]);
    assert_eq!(d.first_candidate(&bytes, 0, 0), Some(1));
    assert_eq!(d.first_candidate(&bytes, 0, 2), Some(3));
    assert_eq!(d.first_candidate(&bytes, 0, 4), None);
    assert_eq!(d.first_candidate(&bytes, 1, 0), None);
    assert_eq!(d.first_candidate(&bytes, 5, 0), None);
}

#[test]
fn steps_after_each_answer() {
    let mut d = Disassembler::new(8);
    d.add_expr(vec![lit(0xCA)], Act::Accept).unwrap();
    d.add_expr(vec![lit(1)], Act::Accept).unwrap();
    d.add_expr(vec![pat("1100 ....")], Act::Accept).unwrap();
    let bytes = stream(&[0xCA]);
    assert_eq!(d.begin(&bytes, 0), Next::Try(0));
    assert_eq!(d.after_answer(&bytes, 0, Some(0), true), Next::Commit(1));
    assert_eq!(d.after_answer(&bytes, 0, Some(0), false), Next::Try(2));
    assert_eq!(d.after_answer(&bytes, 0, Some(2), false), Next::NoDecode);
    assert_eq!(d.begin(&bytes, 1), Next::NoDecode);
    d.set_default(Act::Accept);
    assert_eq!(d.after_answer(&bytes, 0, Some(2), false), Next::Fallback);
    assert_eq!(d.after_answer(&bytes, 0, None, true), Next::Commit(1));
    assert_eq!(d.after_answer(&bytes, 0, None, false), Next::NoDecode);
    assert_eq!(d.begin(&stream(&[7]), 0), Next::Fallback);
    assert_eq!(d.begin(&[], 0), Next::NoDecode);
}

#[test]
fn fallback_only_when_nothing_commits() {
    let mut d = Disassembler::new(8);
    d.add_expr(vec![lit(7)], Act::Emit("SEVEN", 1)).unwrap();
    d.add_expr(vec![lit(9)], Act::Reject).unwrap();
    d.set_default(Act::Emit("UNK", 1));
    let st = St::new(0);

    let mut pos = 0;
    let r = d.next_match(&stream(&[7]), &mut pos, &st).unwrap();
    assert_eq!(r.mnemonics[0].opcode, "SEVEN");

    let mut pos = 0;
    let r = d.next_match(&stream(&[5, 7]), &mut pos, &st).unwrap();
    assert_eq!(r.mnemonics[0].opcode, "UNK");
    assert_eq!(r.tokens, vec![5]);
    assert_eq!(pos, 1);

    let mut pos = 0;
    let r = d.next_match(&stream(&[9]), &mut pos, &st).unwrap();
    assert_eq!(r.mnemonics[0].opcode, "UNK");
    assert_eq!(r.mnemonics.len(), 1);
}

#[test]
fn empty_stream_never_matches() {
    let mut d = Disassembler::new(8);
    d.add_expr(vec![pat("........")], Act::Accept).unwrap();
    d.set_default(Act::Emit("UNK", 1));
    let st = St::new(0);
    let mut pos = 0;
    assert!(d.next_match(&[], &mut pos, &st).is_none());
    assert_eq!(pos, 0);
    let mut pos = 3;
    assert!(d.next_match(&stream(&[1, 2, 3]), &mut pos, &st).is_none());
    assert_eq!(pos, 3);
    let mut pos = 0;
    assert!(d.next_match(&[None, Some(1)], &mut pos, &st).is_none());
    assert_eq!(pos, 0);
}

#[test]
fn no_match_without_fallback() {
    let mut d = Disassembler::new(8);
    d.add_expr(vec![lit(1)], Act::Accept).unwrap();
    let st = St::new(4);
    let mut pos = 0;
    assert!(d.next_match(&stream(&[2]), &mut pos, &st).is_none());
    assert_eq!(pos, 0);
    assert!(st.tokens.is_empty());
}

#[test]
fn prefix_with_subdecoder_fans_out() {
    let mut s = Disassembler::new(8);
    s.add_expr(vec![lit(2)], Act::Accept).unwrap();
    s.add_expr(vec![lit(8)], Act::Accept).unwrap();
    let s = Rc::new(s);
    let mut d = Disassembler::new(8);
    d.add_expr(vec![lit(1), sub(&s)], Act::Emit("AB", 2)).unwrap();
    assert_eq!(d.len(), 2);
    assert_eq!(*d.get(0).patterns(), vec![(1, 0xFF), (2, 0xFF)]);
    assert_eq!(*d.get(1).patterns(), vec![(1, 0xFF), (8, 0xFF)]);
    assert_eq!(d.get(0).action_count(), 2);
    let st = St::new(0);
    for second in [2u8, 8] {
        let mut pos = 0;
        let r = d.next_match(&stream(&[1, second]), &mut pos, &st).unwrap();
        assert_eq!(pos, 2);
        assert_eq!(r.tokens, vec![1, second as u64]);
    }
    let mut pos = 0;
    assert!(d.next_match(&stream(&[1, 3]), &mut pos, &st).is_none());
}

#[test]
fn subdecoder_actions_run_before_rule_action() {
    let (sub1, _, _, _) = fixture();
    let mut d = Disassembler::new(8);
    d.add_expr(vec![lit(1), sub(&sub1)], Act::EmitReject("OUTER")).unwrap();
    let mut pos = 0;
    assert!(d.next_match(&stream(&[1, 2]), &mut pos, &St::new(0)).is_none());
    let mut d = Disassembler::new(8);
    d.add_expr(vec![lit(1), sub(&sub1)], Act::Accept).unwrap();
    let r = d.next_match(&stream(&[1, 2]), &mut pos, &St::new(1)).unwrap();
    assert_eq!(r.mnemonics[0].opcode, "BA");
    assert_eq!((r.mnemonics[0].start, r.mnemonics[0].end), (1, 3));
    assert_eq!(r.jumps[0].0, 3);
}

#[test]
fn rejecting_subdecoder_blocks_rule() {
    let (_, sub2, _, _) = fixture();
    let mut d = Disassembler::new(8);
    d.add_expr(vec![lit(1), sub(&sub2)], Act::Emit("X", 2)).unwrap();
    let mut pos = 0;
    assert!(d.next_match(&stream(&[1, 8]), &mut pos, &St::new(0)).is_none());
    assert_eq!(pos, 0);
}

#[test]
fn group_spans_two_terms() {
    let mut d = Disassembler::new(8);
    d.add_expr(vec![pat("000000 a@.."), pat("a@.... 0000")], Act::Accept).unwrap();
    let mut pos = 0;
    let r = d.next_match(&stream(&[0b000000_10, 0b1011_0000]), &mut pos, &St::new(0)).unwrap();
    assert_eq!(pos, 2);
    assert_eq!(group(&r, "a"), Some(0b10_1011));
}

#[test]
fn group_in_one_term_only() {
    let mut d = Disassembler::new(8);
    d.add_expr(vec![pat("a@11 ......"), pat("b@.... 1111")], Act::Accept).unwrap();
    let mut pos = 0;
    let r = d.next_match(&stream(&[0b1100_0000, 0b0110_1111]), &mut pos, &St::new(0)).unwrap();
    assert_eq!(group(&r, "a"), Some(0b11));
    assert_eq!(group(&r, "b"), Some(0b0110));
    assert_eq!(r.groups.len(), 2);
}

#[test]
fn empty_capture_group_is_absent() {
    let mut d = Disassembler::new(8);
    d.add_expr(vec![pat("01 a@.. 1 b@ c@...")], Act::Emit("1", 1)).unwrap();
    let mut pos = 0;
    let r = d.next_match(&stream(&[127]), &mut pos, &St::new(0)).unwrap();
    assert_eq!(pos, 1);
    assert_eq!(r.tokens, vec![127]);
    assert_eq!(r.groups.len(), 2);
    assert_eq!(group(&r, "a"), Some(3));
    assert_eq!(group(&r, "c"), Some(7));
    assert_eq!(group(&r, "b"), None);
    assert_eq!((r.mnemonics[0].start, r.mnemonics[0].end), (0, 1));
}

#[test]
fn fixed_capture_group_contents() {
    let mut d = Disassembler::new(8);
    d.add_expr(vec![pat("01111111"), pat("a@11111111")], Act::Accept).unwrap();
    let mut pos = 0;
    let r = d.next_match(&stream(&[127, 255]), &mut pos, &St::new(0)).unwrap();
    assert_eq!(pos, 2);
    assert_eq!(group(&r, "a"), Some(255));
    let mut pos = 0;
    assert!(d.next_match(&stream(&[127, 254]), &mut pos, &St::new(0)).is_none());
}

#[test]
fn capture_appends_to_earlier_value() {
    let mut d = Disassembler::new(8);
    d.add_expr(vec![pat("k@.... 0000")], Act::Accept).unwrap();
    let mut st = St::new(0);
    st.groups.push(("k".to_string(), 1));
    let r = d.try_match(0, &stream(&[0xA0]), 0, &st).unwrap();
    assert_eq!(group(&r, "k"), Some(0b1_1010));
    assert_eq!(r.groups.len(), 1);
    assert!(d.try_match(0, &stream(&[0xA1]), 0, &st).is_none());
}

#[test]
fn wide_tokens_read_most_significant_byte_first() {
    let mut d = Disassembler::new(16);
    d.add_expr(vec![lit(0x1122)], Act::Emit("A", 2)).unwrap();
    d.add_expr(vec![lit(0x3344)], Act::Emit("B", 2)).unwrap();
    let bytes = stream(&[0x11, 0x22, 0x33, 0x44, 0x55]);
    let mut pos = 0;
    let r = d.next_match(&bytes, &mut pos, &St::new(0)).unwrap();
    assert_eq!(pos, 2);
    assert_eq!(r.tokens, vec![0x1122]);
    assert_eq!(r.mnemonics[0].opcode, "A");
    let r = d.next_match(&bytes, &mut pos, &St::new(2)).unwrap();
    assert_eq!(pos, 4);
    assert_eq!(r.mnemonics[0].opcode, "B");
    assert!(d.next_match(&bytes, &mut pos, &St::new(4)).is_none());
    assert_eq!(pos, 4);
}

#[test]
fn undefined_bytes_skip_longer_candidates() {
    let mut d = Disassembler::new(8);
    d.add_expr(vec![lit(1), lit(2)], Act::Emit("LONG", 2)).unwrap();
    d.add_expr(vec![lit(1)], Act::Emit("SHORT", 1)).unwrap();
    let mut pos = 0;
    let r = d.next_match(&[Some(1), None], &mut pos, &St::new(0)).unwrap();
    assert_eq!(r.mnemonics[0].opcode, "SHORT");
    assert_eq!(pos, 1);
    let mut pos = 0;
    let r = d.next_match(&[Some(1), Some(2)], &mut pos, &St::new(0)).unwrap();
    assert_eq!(r.mnemonics[0].opcode, "LONG");
    assert_eq!(pos, 2);
}

#[test]
fn mnemonics_are_contiguous() {
    let mut st = St::new(10);
    st.mnemonic(2, "X", "{}", vec![1], || vec![()]);
    st.mnemonic_dynargs(3, "Y", "", || (vec![4, 5], vec![]));
    assert_eq!((st.mnemonics[0].start, st.mnemonics[0].end), (10, 12));
    assert_eq!((st.mnemonics[1].start, st.mnemonics[1].end), (12, 15));
    assert_eq!(st.mnemonics[0].instructions.len(), 1);
    assert_eq!(st.mnemonics[0].operands, vec![1]);
    assert_eq!(st.mnemonics[1].operands, vec![4, 5]);
    assert_eq!(st.mnemonics[0].format, "{}");
    assert_eq!(st.next_address, 15);
    st.jump(20, ());
    assert_eq!(st.jumps.len(), 1);
}

#[test]
fn terms_from_values() {
    match ToExpr::<Act>::to_expr(&"1100 1010") {
        Expr::Pattern(s) => assert_eq!(s, "1100 1010"),
        _ => panic!("expected a pattern"),
    }
    match ToExpr::<Act>::to_expr(&5usize) {
        Expr::Terminal(c) => assert_eq!(c, 5),
        _ => panic!("expected a constant"),
    }
    let s: Rc<Disassembler<Act>> = Rc::new(Disassembler::new(8));
    match s.to_expr() {
        Expr::Subdecoder(d) => assert_eq!(d.width(), 8),
        _ => panic!("expected a nested decoder"),
    }
}
