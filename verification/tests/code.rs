use mir_vm::code::{Addr, Instr, Program, Value};

fn listing(p: &Program) -> String {
    let mut out = String::new();
    p.write(&mut out);
    out
}

#[test]
fn addr_incr_steps_by_one() {
    assert_eq!(Addr(7).incr(), Addr(8));
}

#[test]
fn addr_jump_forward_and_back() {
    assert_eq!(Addr(10).jump(5), Addr(15));
    assert_eq!(Addr(10).jump(-10), Addr(0));
}

#[test]
fn addr_jump_below_zero_wraps_like_a_cast() {
    assert_eq!(Addr(0).jump(-1), Addr(usize::MAX));
}

#[test]
fn addr_jump_to_measures_distance() {
    assert_eq!(Addr(3).jump_to(Addr(10)), 7);
    assert_eq!(Addr(10).jump_to(Addr(3)), -7);
}

#[test]
fn addr_jump_to_then_jump_lands_on_target() {
    for (a, b) in [(0usize, 9usize), (9, 0), (1000, 17), (usize::MAX, 0)] {
        let rel = Addr(a).jump_to(Addr(b));
        assert_eq!(Addr(a).jump(rel), Addr(b));
    }
}

#[test]
fn addr_default_is_zero() {
    assert_eq!(Addr::default(), Addr(0));
}

#[test]
fn instr_bool_is_immediate() {
    assert!(matches!(Instr::bool(true), Instr::Imm(Value::Bool(true))));
    assert!(matches!(Instr::bool(false), Instr::Imm(Value::Bool(false))));
}

#[test]
fn push_returns_address_and_instr_reads_back() {
    let mut p = Program::default();
    assert_eq!(p.next_addr(), Addr(0));
    let a = p.push(Instr::Dup);
    let b = p.push(Instr::Pop(3));
    assert_eq!(a, Addr(0));
    assert_eq!(b, Addr(1));
    assert_eq!(p.next_addr(), Addr(2));
    assert!(matches!(p.instr(a), Instr::Dup));
    assert!(matches!(p.instr(b), Instr::Pop(3)));
}

#[test]
fn instr_past_end_is_error() {
    let mut p = Program::default();
    p.push(Instr::Nop);
    match p.instr(Addr(1)) {
        Instr::Error(msg) => assert_eq!(msg, "out of bounds instruction"),
        other => panic!("unexpected {:?}", other),
    }
}

#[test]
fn fixup_patches_relative_jump() {
    let mut p = Program::default();
    let start = p.push(Instr::Nop);
    p.push(Instr::Nop);
    let j = p.push(Instr::Jump(0));
    let end = p.push(Instr::Ret);
    p.fixup(j, start, Instr::Jump);
    assert!(matches!(p.instr(j), Instr::Jump(-2)));
    p.fixup(j, end, |rel| Instr::Call(rel));
    assert!(matches!(p.instr(j), Instr::Call(1)));
    assert!(matches!(p.instr(end), Instr::Ret));
}

#[test]
fn write_lists_notes_before_their_instruction() {
    let mut p = Program::default();
    p.debug("start".to_string());
    p.push(Instr::bool(true));
    p.push(Instr::IfNot);
    let j = p.push(Instr::Jump(0));
    p.push(Instr::Pop(2));
    p.debug("end".to_string());
    p.push(Instr::Ret);
    p.fixup(j, Addr(0), Instr::Jump);
    let expected = [
        " ...  | <--------- start\n",
        "0x000 |  +1 | imm `true`\n",
        "0x001 |  -1 | if_not\n",
        "0x002 |  +0 | jump -2 (0x000)\n",
        "0x003 |  -2 | pop 2\n",
        " ...  | <--------- end\n",
        "0x004 |  +0 | ret\n",
        "5 instructions in total.\n",
    ]
.concat();
    assert_eq!(listing(&p), expected);
}

#[test]
fn write_empty_program() {
    let p = Program::default();
    assert_eq!(listing(&p), "0 instructions in total.\n");
}

#[test]
fn write_drops_note_after_last_instruction() {
    let mut p = Program::default();
    p.push(Instr::Nop);
    p.debug("dangling".to_string());
    assert_eq!(listing(&p), "0x000 |  +0 | nop\n1 instructions in total.\n");
}

#[test]
fn write_appends_to_existing_text() {
    let mut p = Program::default();
    p.push(Instr::Break);
    let mut out = String::from(">>");
    p.write(&mut out);
    assert_eq!(out, ">>0x000 |  +0 | break\n1 instructions in total.\n");
}

#[test]
fn write_formats_operands() {
    let mut p = Program::default();
    p.push(Instr::MakeFunc(3, 2));
    p.push(Instr::MakeList(4));
    p.push(Instr::IndexList(1));
    p.push(Instr::SkipList(2));
    p.push(Instr::MakeSum(5));
    p.push(Instr::IndexSum(6));
    p.push(Instr::PopLocal(7));
    p.push(Instr::GetLocal(8));
    p.push(Instr::Call(-8));
    p.push(Instr::Imm(Value::Int(-42)));
    p.push(Instr::Imm(Value::Char('x')));
    p.push(Instr::Error("boom"));
    p.push(Instr::Pop(12));
    let expected = [
        "0x000 |  -2 | func.make +3 (0x003) 2\n",
        "0x001 |  -3 | list.make 4\n",
        "0x002 |  +0 | list.index #1\n",
        "0x003 |  +0 | list.skip #2\n",
        "0x004 |  +0 | sum.make #5\n",
        "0x005 |  +0 | sum.index #6\n",
        "0x006 |  +0 | local.pop 7\n",
        "0x007 |  +1 | local.get +8\n",
        "0x008 |  +0 | call -8 (0x000)\n",
        "0x009 |  +1 | imm `-42`\n",
        "0x00A |  +1 | imm `x`\n",
        "0x00B |  +0 | error \"boom\"\n",
        "0x00C | -12 | pop 12\n",
        "13 instructions in total.\n",
    ]
.concat();
    assert_eq!(listing(&p), expected);
}

#[test]
fn write_formats_every_mnemonic() {
    let cases: Vec<(Instr, &str, &str)> = vec![
        (Instr::Nop, "+0", "nop"),
        (Instr::Replace, "-1", "replace"),
        (Instr::Ret, "+0", "ret"),
        (Instr::ApplyFunc, "+0", "func.apply"),
        (Instr::LenList, "+0", "list.len"),
        (Instr::JoinList, "-1", "list.join"),
        (Instr::VariantSum, "+0", "sum.variant"),
        (Instr::Dup, "+1", "dup"),
        (Instr::IfNot, "-1", "if_not"),
        (Instr::PushLocal, "-1", "local.push"),
        (Instr::NotBool, "+0", "bool.not"),
        (Instr::AndBool, "-1", "bool.and"),
        (Instr::EqBool, "-1", "bool.eq"),
        (Instr::NegInt, "+0", "int.neg"),
        (Instr::AddInt, "-1", "int.add"),
        (Instr::SubInt, "-1", "int.sub"),
        (Instr::MulInt, "-1", "int.mul"),
        (Instr::DivInt, "-1", "int.div"),
        (Instr::RemInt, "-1", "int.rem"),
        (Instr::EqInt, "-1", "int.eq"),
        (Instr::LessInt, "-1", "int.less"),
        (Instr::MoreInt, "-1", "int.more"),
        (Instr::LessEqInt, "-1", "int.less_eq"),
        (Instr::MoreEqInt, "-1", "int.more_eq"),
        (Instr::NegNum, "+0", "num.neg"),
        (Instr::AddNum, "-1", "num.add"),
        (Instr::SubNum, "-1", "num.sub"),
        (Instr::MulNum, "-1", "num.mul"),
        (Instr::DivNum, "-1", "num.div"),
        (Instr::EqNum, "-1", "num.eq"),
        (Instr::LessNum, "-1", "num.less"),
        (Instr::MoreNum, "-1", "num.more"),
        (Instr::LessEqNum, "-1", "num.less_eq"),
        (Instr::MoreEqNum, "-1", "num.more_eq"),
        (Instr::EqChar, "-1", "char.eq"),
        (Instr::Imm(Value::Bool(false)), "+1", "imm `false`"),
    ];
    for (instr, diff, text) in cases {
        let mut p = Program::default();
        p.push(instr);
        assert_eq!(
            listing(&p),
            format!("0x000 | {:>3} | {}\n1 instructions in total.\n", diff, text)
        );
    }
}

#[test]
fn write_hex_addresses_past_three_digits() {
    let mut p = Program::default();
    for _ in 0..0x1000 {
        p.push(Instr::Nop);
    }
    p.push(Instr::Jump(-0x1000));
    let text = listing(&p);
    assert!(text.contains("0x0FF |  +0 | nop\n"));
    assert!(text.contains("0x1000 |  +0 | jump -4096 (0x000)\n"));
    assert!(text.ends_with("4097 instructions in total.\n"));
}

#[test]
fn entry_is_public_and_defaults_to_zero() {
    let mut p = Program::default();
    assert_eq!(p.entry, Addr(0));
    p.entry = Addr(3);
    assert_eq!(p.entry, Addr(3));
}

#[test]
fn listable_rejects_overflowing_counts_and_jumps() {
    let min_count = isize::MAX as usize + 1;
    assert!(!mir_vm::code::instr_listable(Instr::Pop(min_count), Addr(0)));
    assert!(!mir_vm::code::instr_listable(Instr::MakeList(min_count + 1), Addr(0)));
    assert!(mir_vm::code::instr_listable(Instr::MakeList(min_count + 2), Addr(0)));
    assert!(!mir_vm::code::instr_listable(Instr::MakeFunc(0, min_count), Addr(0)));
    assert!(!mir_vm::code::instr_listable(Instr::Jump(isize::MAX), Addr(1)));
    assert!(mir_vm::code::instr_listable(Instr::Jump(isize::MAX), Addr(0)));
    assert!(!mir_vm::code::instr_listable(Instr::Call(isize::MIN), Addr(usize::MAX)));
    assert!(mir_vm::code::instr_listable(Instr::Pop(3), Addr(0)));
    let mut p = Program::default();
    p.push(Instr::Nop);
    assert!(p.is_listable());
    p.push(Instr::Pop(min_count));
    assert!(!p.is_listable());
}

#[test]
fn write_lists_large_counts_as_negative_words() {
    let mut p = Program::default();
    p.push(Instr::Pop(usize::MAX));
    assert_eq!(
        listing(&p),
        format!("0x000 |  +1 | pop {}\n1 instructions in total.\n", usize::MAX)
    );
}

#[test]
fn programs_built_by_the_api_are_well_formed() {
    let mut p = Program::default();
    assert!(p.is_well_formed());
    p.debug("a".to_string());
    p.push(Instr::Nop);
    p.debug("b".to_string());
    p.debug("c".to_string());
    let j = p.push(Instr::Jump(0));
    p.fixup(j, Addr(0), Instr::Jump);
    p.debug("after".to_string());
    assert!(p.is_well_formed());
}

#[test]
fn note_keeps_its_place_after_later_pushes() {
    let mut p = Program::default();
    p.push(Instr::Nop);
    p.debug("first".to_string());
    p.debug("second".to_string());
    p.push(Instr::Dup);
    p.push(Instr::Ret);
    p.debug("late".to_string());
    p.push(Instr::Break);
    let expected = [
        "0x000 |  +0 | nop\n",
        " ...  | <--------- first\n",
        " ...  | <--------- second\n",
        "0x001 |  +1 | dup\n",
        "0x002 |  +0 | ret\n",
        " ...  | <--------- late\n",
        "0x003 |  +0 | break\n",
        "4 instructions in total.\n",
    ]
    .concat();
    assert_eq!(listing(&p), expected);
}

#[test]
fn entry_accessors() {
    let mut p = Program::default();
    assert_eq!(p.entry(), Addr(0));
    p.set_entry(Addr(5));
    assert_eq!(p.entry(), Addr(5));
    assert_eq!(p.entry, Addr(5));
    assert_eq!(p.next_addr(), Addr(0));
}
