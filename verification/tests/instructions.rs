use irisc_asm::fields::{
    Funct, Label, Off14, Off9, Opcode, ParseImmidiateError, ParseOffsetError, ParseRegisterError,
    Rd, Reg, Rs, Rt, Simm, StoreOff16, Uimm,
};
use irisc_asm::instructions::{Instruction, ParseErrorKind};

#[test]
fn instruction_parse_addi() {
    let instructions = Instruction::parse("addi r5, r0, 0x1234").unwrap();
    assert_eq!(
        instructions,
        vec![Instruction::Addi(
            "r5".parse().unwrap(),
            "r0".parse().unwrap(),
            Simm::new(0x1234).unwrap()
        ),]
    );
}

#[test]
fn instruction_parse_unki() {
    let instructions = Instruction::parse("unk.i 0x12, r5, r0, 0x1234").unwrap();
    assert_eq!(
        instructions,
        vec![Instruction::Unki(
            Opcode::fixed(0x12),
            "r5".parse().unwrap(),
            "r0".parse().unwrap(),
            Uimm(0x1234)
        ),]
    );
}

#[test]
fn instruction_parse_unkr() {
    let instructions = Instruction::parse("unk.r 0x12, r5, r0, r6, 0x34").unwrap();
    assert_eq!(
        instructions,
        vec![Instruction::Unkr(
            Opcode::fixed(0x12),
            "r5".parse().unwrap(),
            "r0".parse().unwrap(),
            "r6".parse().unwrap(),
            Uimm(0x34)
        ),]
    );
}

#[test]
fn instruction_parse_jump() {
    let instructions = Instruction::parse("jump foobar").unwrap();
    assert_eq!(
        instructions,
        vec![Instruction::Jump("foobar".parse().unwrap()),]
    );
}

#[test]
fn instruction_parse_call() {
    let instructions = Instruction::parse("call foobar").unwrap();
    assert_eq!(
        instructions,
        vec![Instruction::Call("foobar".parse().unwrap()),]
    );
}

#[test]
fn instruction_parse_set32() {
    let instructions = Instruction::parse("set32 r5, 0x12345678").unwrap();
    assert_eq!(
        instructions,
        vec![Instruction::Set32("r5".parse().unwrap(), Uimm(0x12345678)),]
    );
}

#[test]
fn instruction_parse_set64() {
    let instructions = Instruction::parse("set64 r5, 0x8765432112345678").unwrap();
    assert_eq!(
        instructions,
        vec![Instruction::Set64(
            "r5".parse().unwrap(),
            Uimm(0x8765432112345678)
        ),]
    );
}

#[test]
fn instruction_parse_retd() {
    let instructions = Instruction::parse("ret.d").unwrap();
    assert_eq!(instructions, vec![Instruction::Retd])
}

#[test]
fn instruction_parse_multiple() {
    let instructions = Instruction::parse(
        r#"
            addi r5, r0, 0x1234
            unk.i 0x13, r5, r0, 0x1234
            unk.r 0x13, r5, r0, r7, 0x34
            # this is a comment
            jump foobar

            call foobar
        "#,
    )
    .unwrap();
    assert_eq!(
        instructions,
        vec![
            Instruction::Addi(
                "r5".parse().unwrap(),
                "r0".parse().unwrap(),
                Simm::new(0x1234).unwrap()
            ),
            Instruction::Unki(
                Opcode::fixed(0x13),
                "r5".parse().unwrap(),
                "r0".parse().unwrap(),
                Uimm(0x1234)
            ),
            Instruction::Unkr(
                Opcode::fixed(0x13),
                "r5".parse().unwrap(),
                "r0".parse().unwrap(),
                "r7".parse().unwrap(),
                Uimm(0x34)
            ),
            Instruction::Jump("foobar".parse().unwrap()),
            Instruction::Call("foobar".parse().unwrap()),
        ]
    );
}

#[test]
fn every_mnemonic_is_read() {
    let rd = Rd(Reg(1));
    let rs = Rs(Reg(2));
    let rt = Rt(Reg(3));
    let cases: Vec<(&str, Instruction)> = vec![
        ("lbl here", Instruction::Label(Label("here".to_string()))),
        ("set0 r1, r2, 7", Instruction::Set0(rd, rs, Uimm(7))),
        ("set1 r1, r2, 7", Instruction::Set1(rd, rs, Uimm(7))),
        ("set2 r1, r2, 7", Instruction::Set2(rd, rs, Uimm(7))),
        ("set3 r1, r2, 7", Instruction::Set3(rd, rs, Uimm(7))),
        ("alu.r 0x2d, r1, r2, r3", Instruction::Alur(Funct(Uimm(0x2d)), rd, rs, rt)),
        ("add r1, r2, r3", Instruction::Add(rd, rs, rt)),
        ("sub r1, r2, r3", Instruction::Sub(rd, rs, rt)),
        ("subs r1, r2, r3", Instruction::Subs(rd, rs, rt)),
        ("ld.b r1, r2, -4", Instruction::Ldb(rd, rs, Simm(-4))),
        ("ld.q r1, r2, 8", Instruction::Ldq(rd, rs, Off14(Uimm(2)))),
        ("ld.uw r1, r2, 8", Instruction::Lduw(rd, rs, Off14(Uimm(2)))),
        ("ld.d r1, r2, 8", Instruction::Ldd(rd, rs, Off14(Uimm(2)))),
        ("ld.lw r1, r2, 8", Instruction::Ldlw(rd, rs, Off14(Uimm(2)))),
        ("st.b r3, r2, 9", Instruction::Stb(rt, rs, StoreOff16(Simm(9)))),
        ("st.d r1, r2, r3, 12", Instruction::Std(rd, rs, rt, Off9(Uimm(3)))),
        ("st.q r1, r2, r3, 12", Instruction::Stq(rd, rs, rt, Off9(Uimm(3)))),
    ];
    for (line, expected) in cases {
        assert_eq!(line.parse::<Instruction>(), Ok(expected), "{}", line);
    }
}

#[test]
fn operands_are_trimmed_and_empty_ones_dropped() {
    assert_eq!(
        "  add   r1 ,r2,  r3  ".parse::<Instruction>(),
        Ok(Instruction::Add(Rd(Reg(1)), Rs(Reg(2)), Rt(Reg(3))))
    );
    assert_eq!(
        "add r1,,r2,r3,".parse::<Instruction>(),
        Ok(Instruction::Add(Rd(Reg(1)), Rs(Reg(2)), Rt(Reg(3))))
    );
    assert_eq!(
        "add\tr1, r2, r3".parse::<Instruction>(),
        Err(ParseErrorKind::UnknownInstruction)
    );
    assert_eq!("ret.d ".parse::<Instruction>(), Ok(Instruction::Retd));
}

#[test]
fn lines_that_are_no_instruction() {
    assert_eq!(
        "nop".parse::<Instruction>(),
        Err(ParseErrorKind::UnknownInstruction)
    );
    assert_eq!(
        "ADD r1, r2, r3".parse::<Instruction>(),
        Err(ParseErrorKind::UnknownInstruction)
    );
    assert_eq!(
        "".parse::<Instruction>(),
        Err(ParseErrorKind::UnknownInstruction)
    );
    assert_eq!(
        "add r1, r2".parse::<Instruction>(),
        Err(ParseErrorKind::WrongOperandCount)
    );
    assert_eq!(
        "ret.d r1".parse::<Instruction>(),
        Err(ParseErrorKind::WrongOperandCount)
    );
    assert_eq!(
        "lbl".parse::<Instruction>(),
        Err(ParseErrorKind::WrongOperandCount)
    );
    assert_eq!(
        "add r1, r2, r32".parse::<Instruction>(),
        Err(ParseErrorKind::Register(ParseRegisterError::InvalidRegister))
    );
    assert_eq!(
        "addi r1, r2, 0x8000".parse::<Instruction>(),
        Err(ParseErrorKind::Immidiate(ParseImmidiateError::OutOfRange))
    );
    assert_eq!(
        "set0 r1, r2, -1".parse::<Instruction>(),
        Err(ParseErrorKind::Immidiate(ParseImmidiateError::InvalidNumber))
    );
    assert_eq!(
        "unk.i 64, r1, r2, 0".parse::<Instruction>(),
        Err(ParseErrorKind::Immidiate(ParseImmidiateError::OutOfRange))
    );
    assert_eq!(
        "ld.q r1, r2, 1".parse::<Instruction>(),
        Err(ParseErrorKind::Offset(ParseOffsetError::Unaligned))
    );
    assert_eq!(
        "st.d r1, r2, r3, 2".parse::<Instruction>(),
        Err(ParseErrorKind::Offset(ParseOffsetError::Unaligned))
    );
}

#[test]
fn the_first_bad_operand_is_reported() {
    assert_eq!(
        "addi r99, r2, 0x8000".parse::<Instruction>(),
        Err(ParseErrorKind::Register(ParseRegisterError::InvalidRegister))
    );
    assert_eq!(
        "addi r1, r2, zzz, r99".parse::<Instruction>(),
        Err(ParseErrorKind::WrongOperandCount)
    );
}

#[test]
fn the_failing_line_is_carried() {
    let error = Instruction::parse("add r1, r2, r3\n  bogus r1  \nalso bad").unwrap_err();
    assert_eq!(error.line, "bogus r1");
    assert_eq!(error.kind, ParseErrorKind::UnknownInstruction);
    let error = Instruction::parse("# fine\n\nld.d r1, r2, 1\n").unwrap_err();
    assert_eq!(error.line, "ld.d r1, r2, 1");
    assert_eq!(error.kind, ParseErrorKind::Offset(ParseOffsetError::Unaligned));
}

#[test]
fn comments_and_blank_lines_are_left_out() {
    assert_eq!(Instruction::parse("").unwrap(), vec![]);
    assert_eq!(Instruction::parse("\n\n   \n").unwrap(), vec![]);
    assert_eq!(Instruction::parse("# add r1, r2, r3").unwrap(), vec![]);
    assert_eq!(
        Instruction::parse("   # indented\r\nret.d\r\n").unwrap(),
        vec![Instruction::Retd]
    );
}
