//! The bit-field model: typed operands, each of which renders to a fragment of
//! a 32-bit instruction word at its own offset.

use crate::text::{parse_u64, parse_u64_spec, str_eq, strip_prefix_str};
use std::convert::Infallible;
use std::str::FromStr;
use vstd::arithmetic::div_mod::*;
use vstd::arithmetic::power2::*;
use vstd::bits::*;
use vstd::prelude::*;
use vstd::string::*;

verus! {

/// A value that renders to a fragment of an instruction word.
pub trait Bits {
    spec fn spec_bits(&self) -> u32;

    fn bits(&self) -> (word: u32)
        ensures
            word == self.spec_bits(),
    ;
}

/// Two fragments combined. The two are meant to occupy different bits.
pub struct Or<A: Bits, B: Bits>(pub A, pub B);

impl<A: Bits, B: Bits> Or<A, B> {
    /// The two fragments combined.
    pub fn new(left: A, right: B) -> (both: Self)
        ensures
            both.0 == left,
            both.1 == right,
    {
        Or(left, right)
    }

    /// This fragment combined with one more.
    pub fn or<R: Bits>(self, rhs: R) -> (both: Or<Or<A, B>, R>)
        ensures
            both.0 == self,
            both.1 == rhs,
    {
        Or(self, rhs)
    }
}

impl<A: Bits, B: Bits> Bits for Or<A, B> {
    open spec fn spec_bits(&self) -> u32 {
        self.0.spec_bits() | self.1.spec_bits()
    }

    fn bits(&self) -> (word: u32) {
        self.0.bits() | self.1.bits()
    }
}

/// Why a text is no immediate of its field.
#[derive(Debug, Clone, Copy, PartialEq, Eq, PartialOrd)]
pub enum ParseImmidiateError {
    /// The text is no decimal or `0x` hexadecimal number.
    InvalidNumber,
    /// The number does not fit the field.
    OutOfRange,
}

/// Why a text is no register.
#[derive(Debug, Clone, Copy, PartialEq, Eq, PartialOrd)]
pub enum ParseRegisterError {
    InvalidRegister,
}

/// Why a text is no aligned offset.
#[derive(Debug, Clone, Copy, PartialEq, Eq, PartialOrd)]
pub enum ParseOffsetError {
    /// The offset is no number, or does not fit.
    Immidiate(ParseImmidiateError),
    /// The offset is not a multiple of four.
    Unaligned,
}

/// The low `width` bits of `value`, as far as they fit a word: `value` modulo
/// `2^width`, modulo `2^32`. For a negative `value` this is its two's
/// complement pattern.
pub open spec fn field(value: int, width: nat) -> u32 {
    ((value % (pow2(width) as int)) % 0x1_0000_0000) as u32
}

/// The characters `0x`, which open a hexadecimal number.
pub open spec fn hex_prefix() -> Seq<char> {
    seq!['0', 'x']
}

/// A decimal number, or a hexadecimal one after `0x`, that fits 64 bits.
pub open spec fn unsigned_number(s: Seq<char>) -> Option<u64> {
    if hex_prefix().is_prefix_of(s) {
        parse_u64_spec(s.skip(2), 16)
    } else {
        parse_u64_spec(s, 10)
    }
}

/// A decimal number, or a hexadecimal one after `0x`, that fits 64 bits as a
/// signed number: one below `2^63`.
pub open spec fn signed_magnitude(s: Seq<char>) -> Option<i64> {
    match unsigned_number(s) {
        Some(v) => if v <= i64::MAX {
            Some(v as i64)
        } else {
            None
        },
        None => None,
    }
}

/// Whether a text begins with `-`.
pub open spec fn is_negated(s: Seq<char>) -> bool {
    s.len() > 0 && s.first() == '-'
}

/// A number with an optional `-` before it: the number after the `-`,
/// negated, or the number itself.
pub open spec fn signed_number(s: Seq<char>) -> Option<int> {
    if is_negated(s) {
        match signed_magnitude(s.drop_first()) {
            Some(v) => Some(-(v as int)),
            None => None,
        }
    } else {
        match signed_magnitude(s) {
            Some(v) => Some(v as int),
            None => None,
        }
    }
}

/// Whether `value` is an unsigned number of `width` bits.
pub open spec fn fits_unsigned(value: int, width: nat) -> bool {
    0 <= value < pow2(width)
}

/// Whether `value` is a two's complement number of `width` bits.
pub open spec fn fits_signed(value: int, width: nat) -> bool {
    width >= 1 && -pow2((width - 1) as nat) <= value < pow2((width - 1) as nat)
}

/// What the text of an unsigned immediate of `width` bits stands for.
pub open spec fn parse_unsigned(s: Seq<char>, width: nat) -> Result<u64, ParseImmidiateError> {
    match unsigned_number(s) {
        None => Err(ParseImmidiateError::InvalidNumber),
        Some(v) => if fits_unsigned(v as int, width) {
            Ok(v)
        } else {
            Err(ParseImmidiateError::OutOfRange)
        },
    }
}

/// What the text of a signed immediate of `width` bits stands for.
pub open spec fn parse_signed(s: Seq<char>, width: nat) -> Result<i64, ParseImmidiateError> {
    match signed_number(s) {
        None => Err(ParseImmidiateError::InvalidNumber),
        Some(v) => if fits_signed(v, width) {
            Ok(v as i64)
        } else {
            Err(ParseImmidiateError::OutOfRange)
        },
    }
}

/// What the text of a byte offset stands for: an unsigned number of `width`
/// bits that is a multiple of four, counted in words.
pub open spec fn parse_offset(s: Seq<char>, width: nat) -> Result<u64, ParseOffsetError> {
    match parse_unsigned(s, width) {
        Err(e) => Err(ParseOffsetError::Immidiate(e)),
        Ok(v) => if v % 4 == 0 {
            Ok(v / 4)
        } else {
            Err(ParseOffsetError::Unaligned)
        },
    }
}

/// What the text of a register stands for: `zero`, or `r` and a decimal
/// number up to 31.
pub open spec fn parse_register(s: Seq<char>) -> Result<u32, ParseRegisterError> {
    if s == "zero"@ {
        Ok(0)
    } else if s.len() > 0 && s.first() == 'r' {
        match parse_u64_spec(s.drop_first(), 10) {
            Some(n) => if n <= 31 {
                Ok(n as u32)
            } else {
                Err(ParseRegisterError::InvalidRegister)
            },
            None => Err(ParseRegisterError::InvalidRegister),
        }
    } else {
        Err(ParseRegisterError::InvalidRegister)
    }
}

proof fn lemma_pow2_32()
    ensures
        pow2(32) == 0x1_0000_0000,
        pow2(64) == 0x1_0000_0000_0000_0000,
{
    lemma2_to64();
    lemma2_to64_rest();
}

proof fn lemma_pow2_wide(width: nat, least: nat)
    requires
        width >= least,
    ensures
        pow2(width) == pow2(least) * pow2((width - least) as nat),
        pow2(width) >= pow2(least),
        pow2((width - least) as nat) > 0,
{
    lemma_pow2_adds(least, (width - least) as nat);
    lemma_pow2_pos((width - least) as nat);
    lemma_pow2_pos(least);
    let a = pow2(least) as int;
    let b = pow2((width - least) as nat) as int;
    assert(a * b >= a) by (nonlinear_arith)
        requires
            a > 0,
            b >= 1,
    ;
}

/// A field of 32 bits or more renders as the value modulo `2^32`.
pub proof fn lemma_field_wide(value: int, width: nat)
    requires
        width >= 32,
    ensures
        field(value, width) == (value % 0x1_0000_0000) as u32,
{
    lemma_pow2_32();
    lemma_pow2_wide(width, 32);
    lemma_mod_mod(value, 0x1_0000_0000, pow2((width - 32) as nat) as int);
}

/// A field depends on its value modulo `2^64` only.
pub proof fn lemma_field_pattern(value: int, width: nat)
    ensures
        field(value % 0x1_0000_0000_0000_0000, width) == field(value, width),
{
    lemma_pow2_32();
    let pattern = value % 0x1_0000_0000_0000_0000;
    if width >= 32 {
        lemma_field_wide(value, width);
        lemma_field_wide(pattern, width);
        lemma_mod_mod(value, 0x1_0000_0000, 0x1_0000_0000);
    } else {
        lemma_pow2_wide(64, width);
        lemma_pow2_pos(width);
        lemma_mod_mod(value, pow2(width) as int, pow2((64 - width) as nat) as int);
    }
}

/// An unsigned value that fits its field, and a word, renders as itself.
pub proof fn lemma_field_of_unsigned(value: int, width: nat)
    requires
        fits_unsigned(value, width),
        value <= u32::MAX,
    ensures
        field(value, width) == value,
{
    lemma_pow2_32();
    lemma_small_mod(value as nat, pow2(width));
    lemma_small_mod(value as nat, 0x1_0000_0000);
}

/// A signed value that fits a field of at most 32 bits renders as its two's
/// complement pattern of that width: itself, or `2^width` more where it is
/// negative.
pub proof fn lemma_field_of_signed(value: int, width: nat)
    requires
        fits_signed(value, width),
        width <= 32,
    ensures
        field(value, width) == if value >= 0 {
            value
        } else {
            pow2(width) + value
        },
        0 <= pow2(width) + value,
{
    lemma_pow2_32();
    lemma_pow2_wide(32, width);
    lemma_pow2_unfold(width);
    let m = pow2(width) as int;
    if value >= 0 {
        lemma_small_mod(value as nat, pow2(width));
        lemma_small_mod(value as nat, 0x1_0000_0000);
    } else {
        lemma_mod_add_multiples_vanish(value, m);
        lemma_small_mod((m + value) as nat, pow2(width));
        lemma_small_mod((m + value) as nat, 0x1_0000_0000);
    }
}

fn low_bits(pattern: u64, width: usize) -> (word: u32)
    ensures
        word == field(pattern as int, width as nat),
{
    if width >= 32 {
        let low: u64 = pattern & 0xffff_ffff;
        proof {
            assert(pattern & 0xffff_ffff == pattern % 0x1_0000_0000) by (bit_vector);
            lemma_field_wide(pattern as int, width as nat);
        }
        low as u32
    } else {
        let shift: u64 = width as u64;
        proof {
            lemma_pow2_32();
            lemma_pow2_wide(32, width as nat);
            lemma_u64_pow2_no_overflow(width as nat);
            lemma_u64_shl_is_mul(1, shift);
            lemma_u64_low_bits_mask_is_mod(pattern, width as nat);
            lemma_pow2_pos(width as nat);
            lemma_mod_bound(pattern as int, pow2(width as nat) as int);
            lemma_small_mod((pattern % (pow2(width as nat) as u64)) as nat, 0x1_0000_0000);
        }
        let mask: u64 = (1u64 << shift) - 1;
        let low: u64 = pattern & mask;
        low as u32
    }
}

/// The two's complement pattern of a signed number.
fn pattern_of(value: i64) -> (pattern: u64)
    ensures
        pattern as int == (value as int) % 0x1_0000_0000_0000_0000,
{
    if value >= 0 {
        proof {
            lemma_small_mod(value as nat, 0x1_0000_0000_0000_0000);
        }
        value as u64
    } else {
        let below: u64 = (-(value + 1)) as u64;
        proof {
            lemma_mod_add_multiples_vanish(value as int, 0x1_0000_0000_0000_0000);
            lemma_small_mod((0x1_0000_0000_0000_0000 + value) as nat, 0x1_0000_0000_0000_0000);
        }
        u64::MAX - below
    }
}

/// What follows `0x` in `s`, where `s` begins with it.
fn strip_hex<'a>(s: &'a str) -> (r: Option<&'a str>)
    ensures
        match r {
            Some(rest) => hex_prefix().is_prefix_of(s@) && rest@ == s@.skip(2),
            None => !hex_prefix().is_prefix_of(s@),
        },
{
    proof {
        reveal_strlit("0x");
        assert("0x"@ =~= hex_prefix());
    }
    strip_prefix_str(s, "0x")
}

/// Reads a decimal number, or a hexadecimal one after `0x`.
pub fn parse_unsigned_number(s: &str) -> (r: Option<u64>)
    ensures
        r == unsigned_number(s@),
{
    match strip_hex(s) {
        Some(rest) => parse_u64(rest, 16),
        None => parse_u64(s, 10),
    }
}

/// What follows `-` in `s`, where `s` begins with it.
pub fn strip_minus<'a>(s: &'a str) -> (r: Option<&'a str>)
    ensures
        match r {
            Some(rest) => is_negated(s@) && rest@ == s@.drop_first(),
            None => !is_negated(s@),
        },
{
    proof {
        reveal_strlit("-");
        assert("-"@ =~= seq!['-']);
        if is_negated(s@) {
            assert(s@.subrange(0, 1) =~= seq!['-']);
        }
    }
    let r = strip_prefix_str(s, "-");
    proof {
        if r is Some {
            assert(s@.subrange(0, 1)[0] == '-');
            assert(s@.skip(1) =~= s@.drop_first());
        }
    }
    r
}

/// Reads a decimal number, or a hexadecimal one after `0x`, as a signed
/// number.
pub fn parse_signed_magnitude(s: &str) -> (r: Option<i64>)
    ensures
        r == signed_magnitude(s@),
{
    match parse_unsigned_number(s) {
        Some(v) => {
            if v <= 0x7fff_ffff_ffff_ffff {
                Some(v as i64)
            } else {
                None
            }
        },
        None => None,
    }
}

/// An unsigned immediate of `BITS` bits.
#[derive(Debug, Clone, Copy, PartialEq, Eq, PartialOrd)]
pub struct Uimm<const BITS: usize>(pub u64);

impl<const BITS: usize> Uimm<BITS> {
    /// What `from_str` makes of a text.
    pub open spec fn spec_from_str(s: Seq<char>) -> Result<Self, ParseImmidiateError> {
        match parse_unsigned(s, BITS as nat) {
            Ok(v) => Ok(Uimm(v)),
            Err(e) => Err(e),
        }
    }

    /// The immediate `number`, where it fits `BITS` bits.
    pub fn new(number: u64) -> (r: Result<Self, ParseImmidiateError>)
        ensures
            r == if fits_unsigned(number as int, BITS as nat) {
                Ok::<Self, ParseImmidiateError>(Uimm(number))
            } else {
                Err(ParseImmidiateError::OutOfRange)
            },
    {
        if BITS >= 64 {
            proof {
                lemma_pow2_32();
                lemma_pow2_wide(BITS as nat, 64);
            }
            return Ok(Uimm(number));
        }
        let shift: u64 = BITS as u64;
        proof {
            lemma_u64_pow2_no_overflow(BITS as nat);
            lemma_u64_shl_is_mul(1, shift);
        }
        let limit: u64 = 1u64 << shift;
        if number >= limit {
            Err(ParseImmidiateError::OutOfRange)
        } else {
            Ok(Uimm(number))
        }
    }
}

impl<const BITS: usize> FromStr for Uimm<BITS> {
    type Err = ParseImmidiateError;

    fn from_str(s: &str) -> (r: Result<Self, ParseImmidiateError>)
        ensures
            r == Self::spec_from_str(s@),
    {
        match parse_unsigned_number(s) {
            Some(number) => Self::new(number),
            None => Err(ParseImmidiateError::InvalidNumber),
        }
    }
}

impl<const BITS: usize> Bits for Uimm<BITS> {
    open spec fn spec_bits(&self) -> u32 {
        field(self.0 as int, BITS as nat)
    }

    fn bits(&self) -> (word: u32) {
        low_bits(self.0, BITS)
    }
}

/// A signed immediate of `BITS` bits, in two's complement.
#[derive(Debug, Clone, Copy, PartialEq, Eq, PartialOrd)]
pub struct Simm<const BITS: usize>(pub i64);

impl<const BITS: usize> Simm<BITS> {
    /// What `from_str` makes of a text.
    pub open spec fn spec_from_str(s: Seq<char>) -> Result<Self, ParseImmidiateError> {
        match parse_signed(s, BITS as nat) {
            Ok(v) => Ok(Simm(v)),
            Err(e) => Err(e),
        }
    }

    /// The immediate `number`, where it fits `BITS` bits.
    pub fn new(number: i64) -> (r: Result<Self, ParseImmidiateError>)
        ensures
            r == if fits_signed(number as int, BITS as nat) {
                Ok::<Self, ParseImmidiateError>(Simm(number))
            } else {
                Err(ParseImmidiateError::OutOfRange)
            },
    {
        if BITS == 0 {
            return Err(ParseImmidiateError::OutOfRange);
        }
        if BITS >= 64 {
            proof {
                lemma_pow2_32();
                lemma2_to64_rest();
                lemma_pow2_wide((BITS - 1) as nat, 63);
            }
            return Ok(Simm(number));
        }
        let shift: u64 = (BITS - 1) as u64;
        proof {
            lemma2_to64_rest();
            lemma_pow2_wide(62, (BITS - 1) as nat);
            lemma_u64_shl_is_mul(1, shift);
        }
        let half: i64 = (1u64 << shift) as i64;
        if number < -half || number >= half {
            Err(ParseImmidiateError::OutOfRange)
        } else {
            Ok(Simm(number))
        }
    }
}

impl<const BITS: usize> FromStr for Simm<BITS> {
    type Err = ParseImmidiateError;

    fn from_str(s: &str) -> (r: Result<Self, ParseImmidiateError>)
        ensures
            r == Self::spec_from_str(s@),
    {
        match strip_minus(s) {
            Some(body) => match parse_signed_magnitude(body) {
                Some(v) => Self::new(-v),
                None => Err(ParseImmidiateError::InvalidNumber),
            },
            None => match parse_signed_magnitude(s) {
                Some(v) => Self::new(v),
                None => Err(ParseImmidiateError::InvalidNumber),
            },
        }
    }
}

impl<const BITS: usize> Bits for Simm<BITS> {
    open spec fn spec_bits(&self) -> u32 {
        field(self.0 as int, BITS as nat)
    }

    fn bits(&self) -> (word: u32) {
        let pattern: u64 = pattern_of(self.0);
        proof {
            lemma_field_pattern(self.0 as int, BITS as nat);
        }
        low_bits(pattern, BITS)
    }
}

/// The primary operation code, in the six highest bits of the word.
#[derive(Debug, Clone, Copy, PartialEq, Eq, PartialOrd)]
pub struct Opcode(pub Uimm<6>);

impl Opcode {
    /// What `from_str` makes of a text.
    pub open spec fn spec_from_str(s: Seq<char>) -> Result<Self, ParseImmidiateError> {
        match Uimm::<6>::spec_from_str(s) {
            Ok(v) => Ok(Opcode(v)),
            Err(e) => Err(e),
        }
    }

    /// The opcode `number`, where it fits six bits.
    pub fn new(number: u32) -> (r: Result<Self, ParseImmidiateError>)
        ensures
            r == if number < 64 {
                Ok::<Self, ParseImmidiateError>(Opcode(Uimm(number as u64)))
            } else {
                Err(ParseImmidiateError::OutOfRange)
            },
    {
        proof {
            lemma2_to64();
        }
        match Uimm::<6>::new(number as u64) {
            Ok(v) => Ok(Opcode(v)),
            Err(e) => Err(e),
        }
    }

    /// The opcode `number`, unchecked: it renders modulo 64.
    pub fn fixed(number: u32) -> (op: Self)
        ensures
            op == Opcode(Uimm(number as u64)),
    {
        Opcode(Uimm(number as u64))
    }

    /// This opcode combined with another fragment.
    pub fn or<R: Bits>(self, rhs: R) -> (both: Or<Opcode, R>)
        ensures
            both.0 == self,
            both.1 == rhs,
    {
        Or(self, rhs)
    }
}

impl FromStr for Opcode {
    type Err = ParseImmidiateError;

    fn from_str(s: &str) -> (r: Result<Self, ParseImmidiateError>)
        ensures
            r == Self::spec_from_str(s@),
    {
        match Uimm::<6>::from_str(s) {
            Ok(v) => Ok(Opcode(v)),
            Err(e) => Err(e),
        }
    }
}

impl Bits for Opcode {
    open spec fn spec_bits(&self) -> u32 {
        self.0.spec_bits() << 26u32
    }

    fn bits(&self) -> (word: u32) {
        self.0.bits() << 26u32
    }
}

/// The secondary operation code, in the eleven lowest bits of the word.
#[derive(Debug, Clone, Copy, PartialEq, Eq, PartialOrd)]
pub struct Funct(pub Uimm<11>);

impl Funct {
    /// What `from_str` makes of a text.
    pub open spec fn spec_from_str(s: Seq<char>) -> Result<Self, ParseImmidiateError> {
        match Uimm::<11>::spec_from_str(s) {
            Ok(v) => Ok(Funct(v)),
            Err(e) => Err(e),
        }
    }

    /// The function code `number`, where it fits eleven bits.
    pub fn new(number: u32) -> (r: Result<Self, ParseImmidiateError>)
        ensures
            r == if number < 2048 {
                Ok::<Self, ParseImmidiateError>(Funct(Uimm(number as u64)))
            } else {
                Err(ParseImmidiateError::OutOfRange)
            },
    {
        proof {
            lemma2_to64();
        }
        match Uimm::<11>::new(number as u64) {
            Ok(v) => Ok(Funct(v)),
            Err(e) => Err(e),
        }
    }

    /// The function code `number`, unchecked: it renders modulo 2048.
    pub fn fixed(number: u32) -> (funct: Self)
        ensures
            funct == Funct(Uimm(number as u64)),
    {
        Funct(Uimm(number as u64))
    }
}

impl FromStr for Funct {
    type Err = ParseImmidiateError;

    fn from_str(s: &str) -> (r: Result<Self, ParseImmidiateError>)
        ensures
            r == Self::spec_from_str(s@),
    {
        match Uimm::<11>::from_str(s) {
            Ok(v) => Ok(Funct(v)),
            Err(e) => Err(e),
        }
    }
}

impl Bits for Funct {
    open spec fn spec_bits(&self) -> u32 {
        self.0.spec_bits()
    }

    fn bits(&self) -> (word: u32) {
        self.0.bits()
    }
}

/// Reads a byte offset of `width` bits that must be a multiple of four.
fn read_offset(s: &str, width: usize) -> (r: Result<u64, ParseOffsetError>)
    requires
        width == 11 || width == 16,
    ensures
        r == parse_offset(s@, width as nat),
{
    let number: u64 = match parse_unsigned_number(s) {
        Some(number) => number,
        None => {
            return Err(ParseOffsetError::Immidiate(ParseImmidiateError::InvalidNumber));
        },
    };
    proof {
        lemma2_to64();
    }
    let limit: u64 = if width == 11 {
        0x800
    } else {
        0x1_0000
    };
    if number >= limit {
        return Err(ParseOffsetError::Immidiate(ParseImmidiateError::OutOfRange));
    }
    if number % 4 != 0 {
        return Err(ParseOffsetError::Unaligned);
    }
    Ok(number / 4)
}

/// A byte offset below 2048 that is a multiple of four, held in words.
#[derive(Debug, Clone, Copy, PartialEq, Eq, PartialOrd)]
pub struct Off9(pub Uimm<9>);

impl Off9 {
    /// What `from_str` makes of a text.
    pub open spec fn spec_from_str(s: Seq<char>) -> Result<Self, ParseOffsetError> {
        match parse_offset(s, 11) {
            Ok(v) => Ok(Off9(Uimm(v))),
            Err(e) => Err(e),
        }
    }
}

impl FromStr for Off9 {
    type Err = ParseOffsetError;

    fn from_str(s: &str) -> (r: Result<Self, ParseOffsetError>)
        ensures
            r == Self::spec_from_str(s@),
    {
        match read_offset(s, 11) {
            Ok(v) => Ok(Off9(Uimm(v))),
            Err(e) => Err(e),
        }
    }
}

impl Bits for Off9 {
    open spec fn spec_bits(&self) -> u32 {
        self.0.spec_bits() << 2u32
    }

    fn bits(&self) -> (word: u32) {
        self.0.bits() << 2u32
    }
}

/// A byte offset below 65536 that is a multiple of four, held in words.
#[derive(Debug, Clone, Copy, PartialEq, Eq, PartialOrd)]
pub struct Off14(pub Uimm<14>);

impl Off14 {
    /// What `from_str` makes of a text.
    pub open spec fn spec_from_str(s: Seq<char>) -> Result<Self, ParseOffsetError> {
        match parse_offset(s, 16) {
            Ok(v) => Ok(Off14(Uimm(v))),
            Err(e) => Err(e),
        }
    }
}

impl FromStr for Off14 {
    type Err = ParseOffsetError;

    fn from_str(s: &str) -> (r: Result<Self, ParseOffsetError>)
        ensures
            r == Self::spec_from_str(s@),
    {
        match read_offset(s, 16) {
            Ok(v) => Ok(Off14(Uimm(v))),
            Err(e) => Err(e),
        }
    }
}

impl Bits for Off14 {
    open spec fn spec_bits(&self) -> u32 {
        self.0.spec_bits() << 2u32
    }

    fn bits(&self) -> (word: u32) {
        self.0.bits() << 2u32
    }
}

/// The signed 16-bit byte offset of a byte store. The word has a register in
/// bits 11 to 15, so the offset lies in two parts: its five high bits in bits
/// 16 to 20, its eleven low bits in bits 0 to 10.
#[derive(Debug, Clone, Copy, PartialEq, Eq, PartialOrd)]
pub struct StoreOff16(pub Simm<16>);

impl StoreOff16 {
    /// What `from_str` makes of a text.
    pub open spec fn spec_from_str(s: Seq<char>) -> Result<Self, ParseImmidiateError> {
        match Simm::<16>::spec_from_str(s) {
            Ok(v) => Ok(StoreOff16(v)),
            Err(e) => Err(e),
        }
    }
}

impl FromStr for StoreOff16 {
    type Err = ParseImmidiateError;

    fn from_str(s: &str) -> (r: Result<Self, ParseImmidiateError>)
        ensures
            r == Self::spec_from_str(s@),
    {
        match Simm::<16>::from_str(s) {
            Ok(v) => Ok(StoreOff16(v)),
            Err(e) => Err(e),
        }
    }
}

impl Bits for StoreOff16 {
    open spec fn spec_bits(&self) -> u32 {
        ((self.0.spec_bits() >> 11u32) << 16u32) | (self.0.spec_bits() & 0x7ff)
    }

    fn bits(&self) -> (word: u32) {
        let pattern: u32 = self.0.bits();
        ((pattern >> 11u32) << 16u32) | (pattern & 0x7ff)
    }
}

/// A register, `r0` to `r31`.
#[derive(Debug, Clone, Copy, PartialEq, Eq, PartialOrd)]
pub struct Reg(pub u32);

impl Reg {
    /// What `from_str` makes of a text.
    pub open spec fn spec_from_str(s: Seq<char>) -> Result<Self, ParseRegisterError> {
        match parse_register(s) {
            Ok(n) => Ok(Reg(n)),
            Err(e) => Err(e),
        }
    }
}

impl FromStr for Reg {
    type Err = ParseRegisterError;

    fn from_str(s: &str) -> (r: Result<Self, ParseRegisterError>)
        ensures
            r == Self::spec_from_str(s@),
    {
        if str_eq(s, "zero") {
            return Ok(Reg(0));
        }
        proof {
            reveal_strlit("r");
            assert("r"@ =~= seq!['r']);
            if s@.len() > 0 && s@.first() == 'r' {
                assert(s@.subrange(0, 1) =~= seq!['r']);
            }
        }
        match strip_prefix_str(s, "r") {
            Some(rest) => {
                assert(s@.subrange(0, 1)[0] == 'r');
                assert(rest@ =~= s@.drop_first());
                match parse_u64(rest, 10) {
                    Some(n) => {
                        if n <= 31 {
                            Ok(Reg(n as u32))
                        } else {
                            Err(ParseRegisterError::InvalidRegister)
                        }
                    },
                    None => Err(ParseRegisterError::InvalidRegister),
                }
            },
            None => Err(ParseRegisterError::InvalidRegister),
        }
    }
}

impl Bits for Reg {
    open spec fn spec_bits(&self) -> u32 {
        self.0
    }

    fn bits(&self) -> (word: u32) {
        self.0
    }
}

/// The destination register, in bits 16 to 20.
#[derive(Debug, Clone, Copy, PartialEq, Eq, PartialOrd)]
pub struct Rd(pub Reg);

impl Rd {
    /// What `from_str` makes of a text.
    pub open spec fn spec_from_str(s: Seq<char>) -> Result<Self, ParseRegisterError> {
        match Reg::spec_from_str(s) {
            Ok(reg) => Ok(Rd(reg)),
            Err(e) => Err(e),
        }
    }
}

impl FromStr for Rd {
    type Err = ParseRegisterError;

    fn from_str(s: &str) -> (r: Result<Self, ParseRegisterError>)
        ensures
            r == Self::spec_from_str(s@),
    {
        match Reg::from_str(s) {
            Ok(reg) => Ok(Rd(reg)),
            Err(e) => Err(e),
        }
    }
}

impl Bits for Rd {
    open spec fn spec_bits(&self) -> u32 {
        self.0.spec_bits() << 16u32
    }

    fn bits(&self) -> (word: u32) {
        self.0.bits() << 16u32
    }
}

/// The first source register, in bits 21 to 25.
#[derive(Debug, Clone, Copy, PartialEq, Eq, PartialOrd)]
pub struct Rs(pub Reg);

impl Rs {
    /// What `from_str` makes of a text.
    pub open spec fn spec_from_str(s: Seq<char>) -> Result<Self, ParseRegisterError> {
        match Reg::spec_from_str(s) {
            Ok(reg) => Ok(Rs(reg)),
            Err(e) => Err(e),
        }
    }
}

impl FromStr for Rs {
    type Err = ParseRegisterError;

    fn from_str(s: &str) -> (r: Result<Self, ParseRegisterError>)
        ensures
            r == Self::spec_from_str(s@),
    {
        match Reg::from_str(s) {
            Ok(reg) => Ok(Rs(reg)),
            Err(e) => Err(e),
        }
    }
}

impl Bits for Rs {
    open spec fn spec_bits(&self) -> u32 {
        self.0.spec_bits() << 21u32
    }

    fn bits(&self) -> (word: u32) {
        self.0.bits() << 21u32
    }
}

/// The second source register, in bits 11 to 15.
#[derive(Debug, Clone, Copy, PartialEq, Eq, PartialOrd)]
pub struct Rt(pub Reg);

impl Rt {
    /// What `from_str` makes of a text.
    pub open spec fn spec_from_str(s: Seq<char>) -> Result<Self, ParseRegisterError> {
        match Reg::spec_from_str(s) {
            Ok(reg) => Ok(Rt(reg)),
            Err(e) => Err(e),
        }
    }
}

impl FromStr for Rt {
    type Err = ParseRegisterError;

    fn from_str(s: &str) -> (r: Result<Self, ParseRegisterError>)
        ensures
            r == Self::spec_from_str(s@),
    {
        match Reg::from_str(s) {
            Ok(reg) => Ok(Rt(reg)),
            Err(e) => Err(e),
        }
    }
}

impl Bits for Rt {
    open spec fn spec_bits(&self) -> u32 {
        self.0.spec_bits() << 11u32
    }

    fn bits(&self) -> (word: u32) {
        self.0.bits() << 11u32
    }
}

/// Which of the two control transfers an instruction makes, in bit 24.
#[derive(Debug, Clone, Copy, PartialEq, Eq, PartialOrd)]
pub enum Jmpop {
    Jump,
    Call,
}

impl Bits for Jmpop {
    open spec fn spec_bits(&self) -> u32 {
        match *self {
            Jmpop::Call => 0,
            Jmpop::Jump => 0x0100_0000,
        }
    }

    fn bits(&self) -> (word: u32) {
        match *self {
            Jmpop::Call => 0,
            Jmpop::Jump => 0x0100_0000,
        }
    }
}

/// The name of a label.
#[derive(Debug, Clone, PartialEq, Eq, PartialOrd)]
pub struct Label(pub String);

impl FromStr for Label {
    type Err = Infallible;

    fn from_str(s: &str) -> (r: Result<Self, Infallible>)
        ensures
            r is Ok,
            r->Ok_0.0@ == s@,
    {
        Ok(Label(s.to_owned()))
    }
}

/// An unsigned immediate whose value fits its `BITS` bits, and a word,
/// renders as the value itself: no higher bit is set.
pub proof fn lemma_uimm_renders_itself<const BITS: usize>(value: u64)
    requires
        fits_unsigned(value as int, BITS as nat),
        value <= u32::MAX,
    ensures
        Uimm::<BITS>(value).spec_bits() == value,
{
    lemma_field_of_unsigned(value as int, BITS as nat);
}

/// A signed immediate whose value fits its `BITS` bits, for at most 32 bits,
/// renders as its two's complement pattern of that width: the value itself,
/// or `2^BITS` more where it is negative.
pub proof fn lemma_simm_renders_twos_complement<const BITS: usize>(value: i64)
    requires
        fits_signed(value as int, BITS as nat),
        BITS <= 32,
    ensures
        Simm::<BITS>(value).spec_bits() == if value >= 0 {
            value as int
        } else {
            pow2(BITS as nat) + value
        },
{
    lemma_field_of_signed(value as int, BITS as nat);
}

} // verus!
