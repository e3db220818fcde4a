use irisc_asm::fields::{
    Bits, Funct, Jmpop, Label, Off14, Off9, Opcode, Or, ParseImmidiateError, ParseOffsetError,
    ParseRegisterError, Rd, Reg, Rs, Rt, Simm, StoreOff16, Uimm,
};

#[test]
fn parse_uimm() {
    assert_eq!("0x00".parse::<Uimm<8>>(), Ok(Uimm(0)));
    assert_eq!("10".parse::<Uimm<8>>(), Ok(Uimm(10)));
    assert_eq!("255".parse::<Uimm<8>>(), Ok(Uimm(255)));
    assert_eq!(
        "256".parse::<Uimm<8>>(),
        Err(ParseImmidiateError::OutOfRange)
    );
    assert_eq!(
        "-10".parse::<Uimm<8>>(),
        Err(ParseImmidiateError::InvalidNumber)
    );
    assert_eq!("0x1ffff".parse::<Uimm<17>>(), Ok(Uimm(0x1ffff)));
}

#[test]
fn bits_uimm() {
    assert_eq!(Uimm::<11>(10).bits(), 10u32);
    assert_eq!(Uimm::<11>(0x7ff).bits(), 0x7ffu32);
    assert_eq!(Uimm::<11>(0xfff).bits(), 0x7ffu32);
}

#[test]
fn parse_simm() {
    assert_eq!("0x00".parse::<Simm<8>>(), Ok(Simm(0)));
    assert_eq!("10".parse::<Simm<8>>(), Ok(Simm(10)));
    assert_eq!(
        "255".parse::<Simm<8>>(),
        Err(ParseImmidiateError::OutOfRange)
    );
    assert_eq!(
        "256".parse::<Simm<8>>(),
        Err(ParseImmidiateError::OutOfRange)
    );
    assert_eq!("-10".parse::<Simm<8>>(), Ok(Simm(-10)));
    assert_eq!(
        "0x1ffff".parse::<Simm<17>>(),
        Err(ParseImmidiateError::OutOfRange)
    );
    assert_eq!("0xffff".parse::<Simm<17>>(), Ok(Simm(0xffff)));
    assert_eq!(
        "0x10000".parse::<Simm<17>>(),
        Err(ParseImmidiateError::OutOfRange)
    );
    assert_eq!("-0x10000".parse::<Simm<17>>(), Ok(Simm(-0x10000)));
    assert_eq!(
        "-0x10001".parse::<Simm<17>>(),
        Err(ParseImmidiateError::OutOfRange)
    );
}

#[test]
fn bits_simm() {
    assert_eq!(Simm::<11>(10).bits(), 10u32);
    assert_eq!(Simm::<11>(0x7ff).bits(), 0x7ffu32);
    assert_eq!(Simm::<11>(-10).bits(), 0x000007f6);
}

#[test]
fn parse_opcode() {
    assert_eq!("0x00".parse::<Opcode>(), Ok(Opcode(Uimm(0))));
    assert_eq!("0x3f".parse::<Opcode>(), Ok(Opcode(Uimm(63))));
    assert_eq!("32".parse::<Opcode>(), Ok(Opcode(Uimm(32))));
    assert_eq!("64".parse::<Opcode>(), Err(ParseImmidiateError::OutOfRange));
    assert_eq!(
        "-1".parse::<Opcode>(),
        Err(ParseImmidiateError::InvalidNumber)
    );
}

#[test]
fn bits_opcode() {
    assert_eq!(Opcode(Uimm(0x00)).bits(), 0x00000000u32);
    assert_eq!(Opcode(Uimm(0x01)).bits(), 0x04000000u32);
    assert_eq!(Opcode(Uimm(0x02)).bits(), 0x08000000u32);
    assert_eq!(Opcode(Uimm(0x04)).bits(), 0x10000000u32);
    assert_eq!(Opcode(Uimm(0x08)).bits(), 0x20000000u32);
    assert_eq!(Opcode(Uimm(0x10)).bits(), 0x40000000u32);
    assert_eq!(Opcode(Uimm(0x20)).bits(), 0x80000000u32);
    assert_eq!(Opcode(Uimm(0x3e)).bits(), 0xf8000000u32);
}

#[test]
fn parse_reg() {
    assert_eq!("zero".parse::<Reg>(), Ok(Reg(0)));
}

#[test]
fn bits_rd() {
    assert_eq!(Rd(Reg(1)).bits(), 0x00010000u32);
    assert_eq!(Rd(Reg(2)).bits(), 0x00020000u32);
    assert_eq!(Rd(Reg(4)).bits(), 0x00040000u32);
    assert_eq!(Rd(Reg(8)).bits(), 0x00080000u32);
    assert_eq!(Rd(Reg(16)).bits(), 0x00100000u32);
    assert_eq!(Rd(Reg(27)).bits(), 0x001b0000u32);
}

#[test]
fn bits_rs() {
    assert_eq!(Rs(Reg(1)).bits(), 0x00200000u32);
    assert_eq!(Rs(Reg(2)).bits(), 0x00400000u32);
    assert_eq!(Rs(Reg(4)).bits(), 0x00800000u32);
    assert_eq!(Rs(Reg(8)).bits(), 0x01000000u32);
    assert_eq!(Rs(Reg(16)).bits(), 0x02000000u32);
    assert_eq!(Rs(Reg(27)).bits(), 0x03600000u32);
}

#[test]
fn bits_rt() {
    assert_eq!(Rt(Reg(1)).bits(), 0x00000800u32);
    assert_eq!(Rt(Reg(2)).bits(), 0x00001000u32);
    assert_eq!(Rt(Reg(4)).bits(), 0x00002000u32);
    assert_eq!(Rt(Reg(8)).bits(), 0x00004000u32);
    assert_eq!(Rt(Reg(16)).bits(), 0x00008000u32);
    assert_eq!(Rt(Reg(27)).bits(), 0x0000d800u32);
}

#[test]
fn bits_jmpop() {
    assert_eq!(Jmpop::Call.bits(), 0x00000000);
    assert_eq!(Jmpop::Jump.bits(), 0x01000000);
}

#[test]
fn uimm_new_accepts_exactly_what_fits() {
    assert_eq!(Uimm::<1>::new(0), Ok(Uimm(0)));
    assert_eq!(Uimm::<1>::new(1), Ok(Uimm(1)));
    assert_eq!(Uimm::<1>::new(2), Err(ParseImmidiateError::OutOfRange));
    assert_eq!(Uimm::<16>::new(0xffff), Ok(Uimm(0xffff)));
    assert_eq!(Uimm::<16>::new(0x10000), Err(ParseImmidiateError::OutOfRange));
    assert_eq!(Uimm::<32>::new(0xffff_ffff), Ok(Uimm(0xffff_ffff)));
    assert_eq!(
        Uimm::<32>::new(0x1_0000_0000),
        Err(ParseImmidiateError::OutOfRange)
    );
    assert_eq!(Uimm::<63>::new(1 << 63), Err(ParseImmidiateError::OutOfRange));
    assert_eq!(Uimm::<0>::new(0), Ok(Uimm(0)));
    assert_eq!(Uimm::<0>::new(1), Err(ParseImmidiateError::OutOfRange));
}

#[test]
fn uimm_of_width_64_takes_every_value() {
    assert_eq!(Uimm::<64>::new(u64::MAX), Ok(Uimm(u64::MAX)));
    assert_eq!(
        "0xffffffffffffffff".parse::<Uimm<64>>(),
        Ok(Uimm(u64::MAX))
    );
    assert_eq!(
        "0x10000000000000000".parse::<Uimm<64>>(),
        Err(ParseImmidiateError::InvalidNumber)
    );
}

#[test]
fn uimm_renders_what_fits_as_itself() {
    for v in 0..64u64 {
        assert_eq!(Uimm::<6>::new(v).unwrap().bits(), v as u32);
    }
    assert_eq!(Uimm::<16>(0xabcd).bits(), 0xabcd);
    assert_eq!(Uimm::<32>(0xdead_beef).bits(), 0xdead_beef);
    assert_eq!(Uimm::<64>(0x1234_5678_9abc_def0).bits(), 0x9abc_def0);
    assert_eq!(Uimm::<0>(7).bits(), 0);
}

#[test]
fn simm_new_accepts_exactly_what_fits() {
    assert_eq!(Simm::<8>::new(-128), Ok(Simm(-128)));
    assert_eq!(Simm::<8>::new(127), Ok(Simm(127)));
    assert_eq!(Simm::<8>::new(-129), Err(ParseImmidiateError::OutOfRange));
    assert_eq!(Simm::<8>::new(128), Err(ParseImmidiateError::OutOfRange));
    assert_eq!(Simm::<1>::new(-1), Ok(Simm(-1)));
    assert_eq!(Simm::<1>::new(0), Ok(Simm(0)));
    assert_eq!(Simm::<1>::new(1), Err(ParseImmidiateError::OutOfRange));
    assert_eq!(Simm::<0>::new(0), Err(ParseImmidiateError::OutOfRange));
    assert_eq!(Simm::<24>::new(-(1 << 23)), Ok(Simm(-(1 << 23))));
    assert_eq!(Simm::<24>::new((1 << 23) - 1), Ok(Simm((1 << 23) - 1)));
    assert_eq!(Simm::<24>::new(1 << 23), Err(ParseImmidiateError::OutOfRange));
    assert_eq!(Simm::<64>::new(i64::MIN), Ok(Simm(i64::MIN)));
    assert_eq!(Simm::<64>::new(i64::MAX), Ok(Simm(i64::MAX)));
}

#[test]
fn simm_renders_twos_complement() {
    assert_eq!(Simm::<16>(-1).bits(), 0xffff);
    assert_eq!(Simm::<16>(-32768).bits(), 0x8000);
    assert_eq!(Simm::<24>(-1).bits(), 0x00ff_ffff);
    assert_eq!(Simm::<24>(-2).bits(), 0x00ff_fffe);
    assert_eq!(Simm::<32>(-1).bits(), 0xffff_ffff);
    assert_eq!(Simm::<64>(i64::MIN).bits(), 0);
    assert_eq!(Simm::<8>(5).bits(), 5);
}

#[test]
fn simm_text_forms() {
    assert_eq!("+5".parse::<Simm<8>>(), Err(ParseImmidiateError::InvalidNumber));
    assert_eq!("--5".parse::<Simm<8>>(), Err(ParseImmidiateError::InvalidNumber));
    assert_eq!("-+5".parse::<Simm<8>>(), Err(ParseImmidiateError::InvalidNumber));
    assert_eq!("-0x-5".parse::<Simm<8>>(), Err(ParseImmidiateError::InvalidNumber));
    assert_eq!("-0".parse::<Simm<8>>(), Ok(Simm(0)));
    assert_eq!("-0x80".parse::<Simm<8>>(), Ok(Simm(-128)));
    assert_eq!("".parse::<Simm<8>>(), Err(ParseImmidiateError::InvalidNumber));
    assert_eq!("-".parse::<Simm<8>>(), Err(ParseImmidiateError::InvalidNumber));
    assert_eq!("0x".parse::<Simm<8>>(), Err(ParseImmidiateError::InvalidNumber));
    assert_eq!("1_0".parse::<Simm<8>>(), Err(ParseImmidiateError::InvalidNumber));
    assert_eq!(" 1".parse::<Simm<8>>(), Err(ParseImmidiateError::InvalidNumber));
    assert_eq!(
        "9223372036854775808".parse::<Simm<64>>(),
        Err(ParseImmidiateError::InvalidNumber)
    );
    assert_eq!(
        "-9223372036854775807".parse::<Simm<64>>(),
        Ok(Simm(-9223372036854775807))
    );
    assert_eq!(
        "-9223372036854775808".parse::<Simm<64>>(),
        Err(ParseImmidiateError::InvalidNumber)
    );
}

#[test]
fn uimm_text_forms() {
    assert_eq!("+7".parse::<Uimm<8>>(), Err(ParseImmidiateError::InvalidNumber));
    assert_eq!("0x+7".parse::<Uimm<8>>(), Err(ParseImmidiateError::InvalidNumber));
    assert_eq!("0xFf".parse::<Uimm<8>>(), Ok(Uimm(255)));
    assert_eq!("007".parse::<Uimm<8>>(), Ok(Uimm(7)));
    assert_eq!("".parse::<Uimm<8>>(), Err(ParseImmidiateError::InvalidNumber));
    assert_eq!("0x".parse::<Uimm<8>>(), Err(ParseImmidiateError::InvalidNumber));
    assert_eq!("0X10".parse::<Uimm<8>>(), Err(ParseImmidiateError::InvalidNumber));
    assert_eq!("12a".parse::<Uimm<8>>(), Err(ParseImmidiateError::InvalidNumber));
    assert_eq!(
        "18446744073709551616".parse::<Uimm<8>>(),
        Err(ParseImmidiateError::InvalidNumber)
    );
    assert_eq!(
        "18446744073709551615".parse::<Uimm<8>>(),
        Err(ParseImmidiateError::OutOfRange)
    );
}

#[test]
fn opcode_and_funct_constructors() {
    assert_eq!(Opcode::new(63), Ok(Opcode(Uimm(63))));
    assert_eq!(Opcode::new(64), Err(ParseImmidiateError::OutOfRange));
    assert_eq!(Opcode::fixed(0x25), Opcode(Uimm(0x25)));
    assert_eq!(Opcode::fixed(0x25).bits(), 0x9400_0000);
    assert_eq!(Funct::new(0x7ff), Ok(Funct(Uimm(0x7ff))));
    assert_eq!(Funct::new(0x800), Err(ParseImmidiateError::OutOfRange));
    assert_eq!(Funct::fixed(0x02d).bits(), 0x02d);
    assert_eq!("0x7ff".parse::<Funct>(), Ok(Funct(Uimm(0x7ff))));
    assert_eq!("2048".parse::<Funct>(), Err(ParseImmidiateError::OutOfRange));
}

#[test]
fn registers_by_name() {
    assert_eq!("r0".parse::<Reg>(), Ok(Reg(0)));
    assert_eq!("r31".parse::<Reg>(), Ok(Reg(31)));
    assert_eq!("r32".parse::<Reg>(), Err(ParseRegisterError::InvalidRegister));
    assert_eq!("".parse::<Reg>(), Err(ParseRegisterError::InvalidRegister));
    assert_eq!("r".parse::<Reg>(), Err(ParseRegisterError::InvalidRegister));
    assert_eq!("x5".parse::<Reg>(), Err(ParseRegisterError::InvalidRegister));
    assert_eq!("R5".parse::<Reg>(), Err(ParseRegisterError::InvalidRegister));
    assert_eq!("r-1".parse::<Reg>(), Err(ParseRegisterError::InvalidRegister));
    assert_eq!("r+5".parse::<Reg>(), Err(ParseRegisterError::InvalidRegister));
    assert_eq!("r05".parse::<Reg>(), Ok(Reg(5)));
    assert_eq!("r0x1".parse::<Reg>(), Err(ParseRegisterError::InvalidRegister));
    assert_eq!("zero ".parse::<Reg>(), Err(ParseRegisterError::InvalidRegister));
    assert_eq!("\u{e9}5".parse::<Reg>(), Err(ParseRegisterError::InvalidRegister));
    assert_eq!("r5".parse::<Rd>(), Ok(Rd(Reg(5))));
    assert_eq!("zero".parse::<Rs>(), Ok(Rs(Reg(0))));
    assert_eq!("r17".parse::<Rt>(), Ok(Rt(Reg(17))));
    assert_eq!("r99".parse::<Rt>(), Err(ParseRegisterError::InvalidRegister));
}

#[test]
fn aligned_offsets() {
    assert_eq!("0".parse::<Off9>(), Ok(Off9(Uimm(0))));
    assert_eq!("8".parse::<Off9>(), Ok(Off9(Uimm(2))));
    assert_eq!("0x7fc".parse::<Off9>(), Ok(Off9(Uimm(0x1ff))));
    assert_eq!("1".parse::<Off9>(), Err(ParseOffsetError::Unaligned));
    assert_eq!("6".parse::<Off9>(), Err(ParseOffsetError::Unaligned));
    assert_eq!(
        "0x800".parse::<Off9>(),
        Err(ParseOffsetError::Immidiate(ParseImmidiateError::OutOfRange))
    );
    assert_eq!(
        "x".parse::<Off9>(),
        Err(ParseOffsetError::Immidiate(ParseImmidiateError::InvalidNumber))
    );
    assert_eq!("0xfffc".parse::<Off14>(), Ok(Off14(Uimm(0x3fff))));
    assert_eq!("3".parse::<Off14>(), Err(ParseOffsetError::Unaligned));
    assert_eq!(
        "0x10000".parse::<Off14>(),
        Err(ParseOffsetError::Immidiate(ParseImmidiateError::OutOfRange))
    );
    assert_eq!(Off9(Uimm(2)).bits(), 8);
    assert_eq!(Off9(Uimm(0x1ff)).bits(), 0x7fc);
    assert_eq!(Off14(Uimm(0x3fff)).bits(), 0xfffc);
}

#[test]
fn store_offset_lies_around_the_register() {
    assert_eq!("5".parse::<StoreOff16>(), Ok(StoreOff16(Simm(5))));
    assert_eq!(StoreOff16(Simm(5)).bits(), 5);
    assert_eq!(StoreOff16(Simm(0x7ff)).bits(), 0x7ff);
    assert_eq!(StoreOff16(Simm(0x800)).bits(), 0x0001_0000);
    assert_eq!(StoreOff16(Simm(0x7fff)).bits(), 0x000f_07ff);
    assert_eq!(StoreOff16(Simm(-1)).bits(), 0x001f_07ff);
    assert_eq!(StoreOff16(Simm(-1)).bits() & Rt(Reg(31)).bits(), 0);
    assert_eq!(
        "32768".parse::<StoreOff16>(),
        Err(ParseImmidiateError::OutOfRange)
    );
}

#[test]
fn fragments_combine_by_or() {
    let word = Opcode::fixed(0x3f)
        .or(Rd(Reg(1)))
        .or(Rs(Reg(2)))
        .or(Rt(Reg(3)))
        .or(Funct::fixed(0x004));
    assert_eq!(word.bits(), 0xfc41_1804);
    assert_eq!(Or::new(Rd(Reg(1)), Rs(Reg(2))).bits(), 0x0041_0000);
    assert_eq!(
        Or::new(Rd(Reg(1)), Or::new(Rs(Reg(2)), Rt(Reg(3)))).bits(),
        Or::new(Or::new(Rd(Reg(1)), Rs(Reg(2))), Rt(Reg(3))).bits()
    );
}

#[test]
fn label_from_text() {
    assert_eq!("loop".parse::<Label>(), Ok(Label("loop".to_string())));
    assert_eq!("".parse::<Label>(), Ok(Label(String::new())));
}

fn disjoint(fragments: &[u32]) -> bool {
    let mut seen = 0u32;
    for fragment in fragments {
        if seen & fragment != 0 {
            return false;
        }
        seen |= fragment;
    }
    true
}

#[test]
fn fragments_of_every_layout_lie_apart() {
    let op = Opcode(Uimm(0x3f)).bits();
    let rd = Rd(Reg(31)).bits();
    let rs = Rs(Reg(31)).bits();
    let rt = Rt(Reg(31)).bits();
    let sub = Uimm::<2>(3).bits();
    assert!(disjoint(&[op, rd, rs, Uimm::<16>(0xffff).bits()]));
    assert!(disjoint(&[op, rd, rs, Simm::<16>(-1).bits()]));
    assert!(disjoint(&[op, rd, rs, rt, Uimm::<11>(0x7ff).bits()]));
    assert!(disjoint(&[op, rd, rs, rt, Funct(Uimm(0x7ff)).bits()]));
    assert!(disjoint(&[op, Jmpop::Jump.bits(), Simm::<24>(-1).bits()]));
    assert!(disjoint(&[op, rd, rs, Off14(Uimm(0x3fff)).bits(), sub]));
    assert!(disjoint(&[op, rd, rs, rt, Off9(Uimm(0x1ff)).bits(), sub]));
    assert!(disjoint(&[op, rs, rt, StoreOff16(Simm(-1)).bits()]));
    assert_eq!(
        op | rd | rs | rt | Uimm::<11>(0x7ff).bits(),
        0xffff_ffff
    );
}
