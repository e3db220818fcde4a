//! The parameter engine: value-set expressions, and every combination of one
//! value for each parameter.

use crate::fields::{
    is_negated, parse_signed_magnitude, parse_unsigned_number, signed_magnitude, strip_minus,
    unsigned_number,
};
use crate::text::{
    find, find_pair, parse_u64, parse_u64_spec, split, split_once_pair, split_once_str, split_str,
    str_eq, views,
};
use vstd::arithmetic::div_mod::*;
use vstd::arithmetic::power2::*;
use vstd::bits::*;
use vstd::prelude::*;
use vstd::string::*;

verus! {

/// Why a value-set expression is refused.
#[derive(Debug, Clone, Copy, PartialEq, Eq)]
pub enum ParameterErrorKind {
    /// A term is no number that fits 64 bits.
    InvalidNumber,
    /// What follows the `:` of a generator is no count.
    InvalidCount,
    /// No generator has the name before the `:`.
    UnknownGenerator,
    /// `bits` is asked for more powers of two than 64 bits hold.
    TooManyBits,
    /// A parameter has no `=` between its name and its values.
    MissingEquals,
}

/// The term that is refused, and why.
#[derive(Debug, Clone, PartialEq, Eq)]
pub struct ParameterError {
    pub kind: ParameterErrorKind,
    pub term: String,
}

/// A refusal as a mathematical value.
pub struct ParameterFailure {
    pub kind: ParameterErrorKind,
    pub term: Seq<char>,
}

impl View for ParameterError {
    type V = ParameterFailure;

    open spec fn view(&self) -> ParameterFailure {
        ParameterFailure { kind: self.kind, term: self.term@ }
    }
}

/// What a term of a value-set expression asks for.
#[derive(Debug, Clone, Copy, PartialEq, Eq)]
pub enum Shape {
    /// Random values of so many bits, 8, 16, 32 or 64, and how many.
    Random(u32, u64),
    /// So many powers of two, from one on.
    Bits(u64),
    /// The numbers from the first up to, not including, the second, counted
    /// modulo `2^64`.
    Range(u64, u64),
    /// One number.
    Single(u64),
}

/// The 64-bit number that a text stands for: a decimal or `0x` hexadecimal
/// number, or the two's complement of the signed number after a `-`.
pub open spec fn number(s: Seq<char>) -> Option<u64> {
    if is_negated(s) {
        match signed_magnitude(s.drop_first()) {
            Some(v) => Some((-(v as int) % 0x1_0000_0000_0000_0000) as u64),
            None => None,
        }
    } else {
        unsigned_number(s)
    }
}

/// What a generator term asks for: a name, `:` and a count.
pub open spec fn generator(name: Seq<char>, count: Seq<char>) -> Result<Shape, ParameterErrorKind> {
    match parse_u64_spec(count, 10) {
        None => Err(ParameterErrorKind::InvalidCount),
        Some(n) => if name == "rand8"@ {
            Ok(Shape::Random(8, n))
        } else if name == "rand16"@ {
            Ok(Shape::Random(16, n))
        } else if name == "rand32"@ {
            Ok(Shape::Random(32, n))
        } else if name == "rand64"@ {
            Ok(Shape::Random(64, n))
        } else if name == "bits"@ {
            if n <= 64 {
                Ok(Shape::Bits(n))
            } else {
                Err(ParameterErrorKind::TooManyBits)
            }
        } else {
            Err(ParameterErrorKind::UnknownGenerator)
        },
    }
}

/// What a term asks for: a generator where it holds a `:`, else a range where
/// it holds `..`, else one number.
pub open spec fn shape_of(term: Seq<char>) -> Result<Shape, ParameterErrorKind> {
    let colon = find(term, ':');
    let dots = find_pair(term, '.');
    if colon < term.len() {
        generator(term.take(colon as int), term.skip(colon as int + 1))
    } else if dots < term.len() {
        match number(term.take(dots as int)) {
            None => Err(ParameterErrorKind::InvalidNumber),
            Some(low) => match number(term.skip(dots as int + 2)) {
                None => Err(ParameterErrorKind::InvalidNumber),
                Some(high) => Ok(Shape::Range(low, high)),
            },
        }
    } else {
        match number(term) {
            None => Err(ParameterErrorKind::InvalidNumber),
            Some(n) => Ok(Shape::Single(n)),
        }
    }
}

/// How many values a term yields.
pub open spec fn shape_len(shape: Shape) -> nat {
    match shape {
        Shape::Random(_, count) => count as nat,
        Shape::Bits(count) => count as nat,
        Shape::Range(low, high) => ((high - low) % 0x1_0000_0000_0000_0000) as nat,
        Shape::Single(_) => 1,
    }
}

/// How many random values a term asks for.
pub open spec fn draws_of(shape: Shape) -> nat {
    match shape {
        Shape::Random(_, count) => count as nat,
        _ => 0,
    }
}

/// How many random values some terms ask for.
pub open spec fn draws_needed(shapes: Seq<Shape>) -> nat
    decreases shapes.len(),
{
    if shapes.len() == 0 {
        0
    } else {
        draws_needed(shapes.drop_last()) + draws_of(shapes.last())
    }
}

/// Whether a term is one that a text can ask for: random values of a width
/// that there is, and no more powers of two than 64 bits hold.
pub open spec fn is_generated(shape: Shape) -> bool {
    match shape {
        Shape::Random(width, _) => width == 8 || width == 16 || width == 32 || width == 64,
        Shape::Bits(count) => count <= 64,
        _ => true,
    }
}

/// Whether every term is one that a text can ask for.
pub open spec fn all_generated(shapes: Seq<Shape>) -> bool {
    forall|i: int| 0 <= i < shapes.len() ==> is_generated(#[trigger] shapes[i])
}

/// Whether a value is one that a draw of `width` bits can give.
pub open spec fn is_drawn(width: u32, draw: u64) -> bool {
    draw < pow2(width as nat)
}

/// The values of a term, given the values drawn for it: for a random term
/// the drawn values as they are, in their order.
pub open spec fn values_of(shape: Shape, draws: Seq<u64>) -> Seq<u64> {
    match shape {
        Shape::Random(_, _) => draws,
        Shape::Bits(count) => Seq::new(count as nat, |i: int| pow2(i as nat) as u64),
        Shape::Range(low, _) => Seq::new(
            shape_len(shape),
            |i: int| ((low + i) % 0x1_0000_0000_0000_0000) as u64,
        ),
        Shape::Single(n) => seq![n],
    }
}

/// The values of some terms, one term after the other, given the values
/// drawn for all of them in the order of the draws.
pub open spec fn expansion(shapes: Seq<Shape>, draws: Seq<u64>) -> Seq<u64>
    decreases shapes.len(),
{
    if shapes.len() == 0 {
        Seq::empty()
    } else {
        let before = draws_needed(shapes.drop_last()) as int;
        expansion(shapes.drop_last(), draws.take(before)) + values_of(
            shapes.last(),
            draws.skip(before),
        )
    }
}

/// Whether `draws` holds what the terms ask for: for each random term, in
/// order, as many values as it asks for, each of its width.
pub open spec fn draws_fit(shapes: Seq<Shape>, draws: Seq<u64>) -> bool
    decreases shapes.len(),
{
    if shapes.len() == 0 {
        draws.len() == 0
    } else {
        let before = draws_needed(shapes.drop_last()) as int;
        &&& draws.len() == before + draws_of(shapes.last())
        &&& draws_fit(shapes.drop_last(), draws.take(before))
        &&& match shapes.last() {
            Shape::Random(width, _) => forall|i: int|
                before <= i < draws.len() ==> is_drawn(width, #[trigger] draws[i]),
            _ => true,
        }
    }
}

/// What the terms ask for, where none is refused.
pub open spec fn shapes_of(terms: Seq<Seq<char>>) -> Seq<Shape> {
    Seq::new(terms.len(), |i: int| shape_of(terms[i])->Ok_0)
}

/// Whether `values` is what a term may yield: for a random term any values
/// of its width, for every other term its values exactly.
pub open spec fn admits(shape: Shape, values: Seq<u64>) -> bool {
    values.len() == shape_len(shape) && match shape {
        Shape::Random(width, _) => forall|i: int|
            0 <= i < values.len() ==> (#[trigger] values[i]) < pow2(width as nat),
        Shape::Bits(_) => forall|i: int|
            0 <= i < values.len() ==> (#[trigger] values[i]) == pow2(i as nat),
        Shape::Range(low, _) => forall|i: int|
            0 <= i < values.len() ==> (#[trigger] values[i]) == (low + i) % 0x1_0000_0000_0000_0000,
        Shape::Single(n) => values[0] == n,
    }
}

/// Whether `values` is what the terms may yield, one after the other.
pub open spec fn expands(terms: Seq<Seq<char>>, values: Seq<u64>) -> bool
    decreases terms.len(),
{
    if terms.len() == 0 {
        values.len() == 0
    } else {
        match shape_of(terms.last()) {
            Err(_) => false,
            Ok(shape) => {
                let n = shape_len(shape);
                n <= values.len() && admits(shape, values.skip(values.len() - n)) && expands(
                    terms.drop_last(),
                    values.take(values.len() - n),
                )
            },
        }
    }
}

/// The first term that is refused, if any.
pub open spec fn first_failure(terms: Seq<Seq<char>>) -> Option<ParameterFailure>
    decreases terms.len(),
{
    if terms.len() == 0 {
        None
    } else {
        match first_failure(terms.drop_last()) {
            Some(failure) => Some(failure),
            None => match shape_of(terms.last()) {
                Err(kind) => Some(ParameterFailure { kind, term: terms.last() }),
                Ok(_) => None,
            },
        }
    }
}

/// Once a term is refused, more terms change nothing.
pub proof fn lemma_first_failure_stays(terms: Seq<Seq<char>>, upto: int)
    requires
        0 <= upto <= terms.len(),
        first_failure(terms.take(upto)) is Some,
    ensures
        first_failure(terms) == first_failure(terms.take(upto)),
    decreases terms.len() - upto,
{
    if upto == terms.len() {
        assert(terms.take(upto) =~= terms);
    } else {
        assert(terms.drop_last().take(upto) =~= terms.take(upto));
        lemma_first_failure_stays(terms.drop_last(), upto);
    }
}

/// A random value of 8 bits, from `rand::random`. Nothing is claimed of it
/// but its type.
#[verifier::external_body]
fn random_u8() -> (value: u8) {
    rand::random::<u8>()
}

/// A random value of 16 bits, from `rand::random`. Nothing is claimed of it
/// but its type.
#[verifier::external_body]
fn random_u16() -> (value: u16) {
    rand::random::<u16>()
}

/// A random value of 32 bits, from `rand::random`. Nothing is claimed of it
/// but its type.
#[verifier::external_body]
fn random_u32() -> (value: u32) {
    rand::random::<u32>()
}

/// A random value of 64 bits, from `rand::random`. Nothing is claimed of it
/// but its type.
#[verifier::external_body]
fn random_u64() -> (value: u64) {
    rand::random::<u64>()
}

/// The two's complement of a number below `2^63`.
fn negated(v: i64) -> (n: u64)
    requires
        v >= 0,
    ensures
        n == (-(v as int)) % 0x1_0000_0000_0000_0000,
{
    if v > 0 {
        proof {
            lemma_mod_add_multiples_vanish(-(v as int), 0x1_0000_0000_0000_0000);
            lemma_small_mod((0x1_0000_0000_0000_0000 - v) as nat, 0x1_0000_0000_0000_0000);
        }
        u64::MAX - (v as u64) + 1
    } else {
        0
    }
}

/// Reads a number of 64 bits. A number after `-` is negated in two's
/// complement.
pub fn parse_number(number: &str) -> (r: Result<u64, ParameterErrorKind>)
    ensures
        r == match self::number(number@) {
            Some(n) => Ok::<u64, ParameterErrorKind>(n),
            None => Err(ParameterErrorKind::InvalidNumber),
        },
{
    let parsed: Option<u64> = match strip_minus(number) {
        Some(body) => match parse_signed_magnitude(body) {
            Some(v) => Some(negated(v)),
            None => None,
        },
        None => parse_unsigned_number(number),
    };
    match parsed {
        Some(n) => Ok(n),
        None => Err(ParameterErrorKind::InvalidNumber),
    }
}

/// Appends a value that was drawn, as it is: none is dropped, changed or
/// merged with one that is there.
pub fn push_drawn(values: &mut Vec<u64>, draw: u64)
    ensures
        final(values)@ == old(values)@.push(draw),
{
    values.push(draw);
}

/// Draws a random value of `width` bits; of 64 bits where there is no such
/// width.
fn draw(width: u32) -> (value: u64)
    ensures
        width == 8 || width == 16 || width == 32 || width == 64 ==> is_drawn(width, value),
{
    proof {
        lemma2_to64();
        lemma2_to64_rest();
    }
    if width == 8 {
        random_u8() as u64
    } else if width == 16 {
        random_u16() as u64
    } else if width == 32 {
        random_u32() as u64
    } else {
        random_u64()
    }
}

/// Draws the random values that the terms ask for, term by term.
fn draw_for(shapes: &Vec<Shape>) -> (draws: Vec<u64>)
    requires
        all_generated(shapes@),
    ensures
        draws_fit(shapes@, draws@),
{
    let mut draws: Vec<u64> = Vec::new();
    let mut i: usize = 0;
    assert(shapes@.take(0) =~= Seq::<Shape>::empty());
    while i < shapes.len()
        invariant
            i <= shapes.len(),
            all_generated(shapes@),
            draws_fit(shapes@.take(i as int), draws@),
            draws@.len() == draws_needed(shapes@.take(i as int)),
        decreases shapes.len() - i,
    {
        let ghost before = draws@;
        let ghost upto = shapes@.take(i + 1);
        proof {
            assert(upto.drop_last() =~= shapes@.take(i as int));
            assert(upto.last() == shapes@[i as int]);
            assert(draws@.take(before.len() as int) =~= before);
        }
        match shapes[i] {
            Shape::Random(width, count) => {
                let mut j: u64 = 0;
                while j < count
                    invariant
                        j <= count,
                        width == 8 || width == 16 || width == 32 || width == 64,
                        draws@.len() == before.len() + j,
                        draws@.take(before.len() as int) == before,
                        forall|k: int|
                            before.len() <= k < draws@.len() ==> is_drawn(
                                width,
                                #[trigger] draws@[k],
                            ),
                    decreases count - j,
                {
                    let value: u64 = draw(width);
                    let ghost previous = draws@;
                    push_drawn(&mut draws, value);
                    proof {
                        assert(draws@.take(before.len() as int) =~= previous.take(
                            before.len() as int,
                        ));
                    }
                    j += 1;
                }
            },
            _ => {},
        }
        i += 1;
    }
    assert(shapes@.take(shapes@.len() as int) =~= shapes@);
    draws
}

/// Appends the first `count` powers of two.
fn push_bits(values: &mut Vec<u64>, count: u64)
    requires
        count <= 64,
    ensures
        final(values)@ == old(values)@ + values_of(Shape::Bits(count), Seq::empty()),
{
    let ghost before = values@;
    let mut i: u64 = 0;
    assert(values@ =~= before + Seq::new(0, |k: int| pow2(k as nat) as u64));
    while i < count
        invariant
            i <= count <= 64,
            values@ == before + Seq::new(i as nat, |k: int| pow2(k as nat) as u64),
        decreases count - i,
    {
        proof {
            lemma_u64_pow2_no_overflow(i as nat);
            lemma_u64_shl_is_mul(1, i);
        }
        let ghost previous = values@;
        values.push(1u64 << i);
        proof {
            assert(values@ =~= before + Seq::new((i + 1) as nat, |k: int| pow2(k as nat) as u64));
        }
        i += 1;
    }
}

/// Appends the numbers from `low` up to, not including, `high`, counted
/// modulo `2^64`.
fn push_range(values: &mut Vec<u64>, low: u64, high: u64)
    ensures
        final(values)@ == old(values)@ + values_of(Shape::Range(low, high), Seq::empty()),
{
    let ghost before = values@;
    let count: u64 = if high >= low {
        proof {
            lemma_small_mod((high - low) as nat, 0x1_0000_0000_0000_0000);
        }
        high - low
    } else {
        proof {
            lemma_mod_add_multiples_vanish(high - low, 0x1_0000_0000_0000_0000);
            lemma_small_mod(
                (0x1_0000_0000_0000_0000 + high - low) as nat,
                0x1_0000_0000_0000_0000,
            );
        }
        u64::MAX - low + high + 1
    };
    let mut i: u64 = 0;
    assert(values@ =~= before + Seq::new(
        0,
        |k: int| ((low + k) % 0x1_0000_0000_0000_0000) as u64,
    ));
    while i < count
        invariant
            i <= count,
            count == shape_len(Shape::Range(low, high)),
            values@ == before + Seq::new(
                i as nat,
                |k: int| ((low + k) % 0x1_0000_0000_0000_0000) as u64,
            ),
        decreases count - i,
    {
        let value: u64 = if i <= u64::MAX - low {
            proof {
                lemma_small_mod((low + i) as nat, 0x1_0000_0000_0000_0000);
            }
            low + i
        } else {
            proof {
                lemma_mod_sub_multiples_vanish(low + i, 0x1_0000_0000_0000_0000);
                lemma_small_mod(
                    (low + i - 0x1_0000_0000_0000_0000) as nat,
                    0x1_0000_0000_0000_0000,
                );
            }
            i - (u64::MAX - low) - 1
        };
        values.push(value);
        proof {
            assert(values@ =~= before + Seq::new(
                (i + 1) as nat,
                |k: int| ((low + k) % 0x1_0000_0000_0000_0000) as u64,
            ));
        }
        i += 1;
    }
}

/// Whether a term is one that a text can ask for.
fn generated(shape: Shape) -> (b: bool)
    ensures
        b == is_generated(shape),
{
    match shape {
        Shape::Random(width, _) => width == 8 || width == 16 || width == 32 || width == 64,
        Shape::Bits(count) => count <= 64,
        _ => true,
    }
}

/// Terms that come first ask for no more draws than all of them.
proof fn lemma_draws_needed_grows(shapes: Seq<Shape>, upto: int)
    requires
        0 <= upto <= shapes.len(),
    ensures
        draws_needed(shapes.take(upto)) <= draws_needed(shapes),
    decreases shapes.len() - upto,
{
    if upto == shapes.len() {
        assert(shapes.take(upto) =~= shapes);
    } else {
        assert(shapes.drop_last().take(upto) =~= shapes.take(upto));
        lemma_draws_needed_grows(shapes.drop_last(), upto);
    }
}

/// The values of the terms, given the values that were drawn for them: each
/// random term takes its values from `draws` as they are and in their order,
/// and every other term gives its own. `None` where a term is none that a
/// text can ask for, or `draws` holds another number of values than the
/// terms ask for.
pub fn expand(shapes: &Vec<Shape>, draws: &Vec<u64>) -> (r: Option<Vec<u64>>)
    ensures
        r is Some <==> all_generated(shapes@) && draws@.len() == draws_needed(shapes@),
        r is Some ==> r->Some_0@ == expansion(shapes@, draws@),
{
    let mut values: Vec<u64> = Vec::new();
    let mut i: usize = 0;
    let mut taken: usize = 0;
    proof {
        assert(shapes@.take(0) =~= Seq::<Shape>::empty());
    }
    while i < shapes.len()
        invariant
            i <= shapes.len(),
            taken <= draws@.len(),
            taken == draws_needed(shapes@.take(i as int)),
            all_generated(shapes@.take(i as int)),
            values@ == expansion(shapes@.take(i as int), draws@.take(taken as int)),
        decreases shapes.len() - i,
    {
        let shape: Shape = shapes[i];
        let ghost before = values@;
        let ghost upto = shapes@.take(i + 1);
        proof {
            assert(upto.drop_last() =~= shapes@.take(i as int));
            assert(upto.last() == shape);
            lemma_draws_needed_grows(shapes@, i + 1);
        }
        if !generated(shape) {
            assert(!is_generated(shapes@[i as int]));
            return None;
        }
        assert(all_generated(upto)) by {
            assert forall|k: int| 0 <= k < upto.len() implies is_generated(#[trigger] upto[k]) by {
                if k < i {
                    assert(upto[k] == shapes@.take(i as int)[k]);
                }
            }
        }
        match shape {
            Shape::Random(_, count) => {
                if ((draws.len() - taken) as u64) < count {
                    return None;
                }
                let end: usize = taken + count as usize;
                let mut j: usize = taken;
                assert(values@ =~= before + draws@.subrange(taken as int, j as int));
                while j < end
                    invariant
                        taken <= j <= end <= draws@.len(),
                        values@ == before + draws@.subrange(taken as int, j as int),
                    decreases end - j,
                {
                    push_drawn(&mut values, draws[j]);
                    j += 1;
                    assert(values@ =~= before + draws@.subrange(taken as int, j as int));
                }
                proof {
                    assert(draws@.take(end as int).take(taken as int) =~= draws@.take(taken as int));
                    assert(draws@.take(end as int).skip(taken as int) =~= draws@.subrange(
                        taken as int,
                        end as int,
                    ));
                }
                taken = end;
            },
            Shape::Bits(count) => {
                push_bits(&mut values, count);
                proof {
                    assert(draws@.take(taken as int).take(taken as int) =~= draws@.take(
                        taken as int,
                    ));
                }
            },
            Shape::Range(low, high) => {
                push_range(&mut values, low, high);
                proof {
                    assert(draws@.take(taken as int).take(taken as int) =~= draws@.take(
                        taken as int,
                    ));
                }
            },
            Shape::Single(n) => {
                values.push(n);
                proof {
                    assert(values@ =~= before + seq![n]);
                    assert(draws@.take(taken as int).take(taken as int) =~= draws@.take(
                        taken as int,
                    ));
                }
            },
        }
        i += 1;
    }
    proof {
        assert(shapes@.take(shapes@.len() as int) =~= shapes@);
    }
    if taken != draws.len() {
        return None;
    }
    proof {
        assert(draws@.take(taken as int) =~= draws@);
    }
    Some(values)
}

/// Reads what a generator term asks for.
fn parse_generator(name: &str, count: &str) -> (r: Result<Shape, ParameterErrorKind>)
    ensures
        r == generator(name@, count@),
{
    let n: u64 = match parse_u64(count, 10) {
        Some(n) => n,
        None => {
            return Err(ParameterErrorKind::InvalidCount);
        },
    };
    if str_eq(name, "rand8") {
        Ok(Shape::Random(8, n))
    } else if str_eq(name, "rand16") {
        Ok(Shape::Random(16, n))
    } else if str_eq(name, "rand32") {
        Ok(Shape::Random(32, n))
    } else if str_eq(name, "rand64") {
        Ok(Shape::Random(64, n))
    } else if str_eq(name, "bits") {
        if n > 64 {
            Err(ParameterErrorKind::TooManyBits)
        } else {
            Ok(Shape::Bits(n))
        }
    } else {
        Err(ParameterErrorKind::UnknownGenerator)
    }
}

/// Reads what one term asks for: a generator where it holds a `:`, else a
/// range where it holds `..`, else one number.
pub fn parse_term(term: &str) -> (r: Result<Shape, ParameterErrorKind>)
    ensures
        r == shape_of(term@),
        r is Ok ==> is_generated(r->Ok_0),
{
    match split_once_str(term, ':') {
        Some((name, count)) => {
            return parse_generator(name, count);
        },
        None => {},
    }
    match split_once_pair(term, '.') {
        Some((low, high)) => {
            let low: u64 = parse_number(low)?;
            let high: u64 = parse_number(high)?;
            Ok(Shape::Range(low, high))
        },
        None => {
            let n: u64 = parse_number(term)?;
            Ok(Shape::Single(n))
        },
    }
}

/// Reads what the terms of a value-set expression ask for, or the first
/// term that is refused.
pub fn parse_terms(s: &str) -> (r: Result<Vec<Shape>, ParameterError>)
    ensures
        match first_failure(split(s@, ',')) {
            Some(failure) => r is Err && r->Err_0@ == failure,
            None => r is Ok && r->Ok_0@ == shapes_of(split(s@, ',')) && all_generated(r->Ok_0@),
        },
{
    let terms: Vec<&str> = split_str(s, ',');
    let mut shapes: Vec<Shape> = Vec::new();
    let mut i: usize = 0;
    proof {
        assert(views(terms@).take(0) =~= Seq::<Seq<char>>::empty());
        assert(shapes@ =~= shapes_of(views(terms@).take(0)));
    }
    while i < terms.len()
        invariant
            i <= terms.len(),
            views(terms@) == split(s@, ','),
            first_failure(views(terms@).take(i as int)) is None,
            shapes@ == shapes_of(views(terms@).take(i as int)),
            all_generated(shapes@),
        decreases terms.len() - i,
    {
        let ghost upto = views(terms@).take(i + 1);
        let ghost before = shapes@;
        proof {
            assert(upto.drop_last() =~= views(terms@).take(i as int));
            assert(upto.last() == terms@[i as int]@);
        }
        match parse_term(terms[i]) {
            Ok(shape) => {
                shapes.push(shape);
                proof {
                    assert(shapes@ =~= shapes_of(upto)) by {
                        assert forall|k: int| 0 <= k < shapes@.len() implies shapes@[k]
                            == shapes_of(upto)[k] by {
                            if k < i {
                                assert(shapes@[k] == before[k]);
                                assert(upto[k] == views(terms@).take(i as int)[k]);
                            }
                        }
                    }
                    assert forall|k: int| 0 <= k < shapes@.len() implies is_generated(
                        #[trigger] shapes@[k],
                    ) by {
                        if k < i {
                            assert(shapes@[k] == before[k]);
                        }
                    }
                }
            },
            Err(kind) => {
                proof {
                    lemma_first_failure_stays(views(terms@), i + 1);
                }
                return Err(ParameterError { kind, term: terms[i].to_owned() });
            },
        }
        i += 1;
    }
    proof {
        assert(views(terms@).take(terms@.len() as int) =~= views(terms@));
    }
    Ok(shapes)
}

/// Draws that fit are as many as the terms ask for.
pub proof fn lemma_draws_fit_len(shapes: Seq<Shape>, draws: Seq<u64>)
    requires
        draws_fit(shapes, draws),
    ensures
        draws.len() == draws_needed(shapes),
{
}

/// The values that the terms give with draws that fit are values that the
/// terms may yield.
pub proof fn lemma_expansion_expands(terms: Seq<Seq<char>>, draws: Seq<u64>)
    requires
        first_failure(terms) is None,
        draws_fit(shapes_of(terms), draws),
    ensures
        expands(terms, expansion(shapes_of(terms), draws)),
    decreases terms.len(),
{
    let shapes = shapes_of(terms);
    if terms.len() > 0 {
        let before = draws_needed(shapes.drop_last()) as int;
        assert(shapes.drop_last() =~= shapes_of(terms.drop_last()));
        assert(shapes.last() == shape_of(terms.last())->Ok_0);
        lemma_expansion_expands(terms.drop_last(), draws.take(before));
        let shape = shapes.last();
        let head = expansion(shapes.drop_last(), draws.take(before));
        let tail = values_of(shape, draws.skip(before));
        let all = expansion(shapes, draws);
        assert(tail.len() == shape_len(shape));
        assert(all.skip(all.len() - tail.len()) =~= tail);
        assert(all.take(all.len() - tail.len()) =~= head);
        match shape {
            Shape::Random(width, _) => {
                assert forall|i: int| 0 <= i < tail.len() implies (#[trigger] tail[i]) < pow2(
                    width as nat,
                ) by {
                    assert(tail[i] == draws[before + i]);
                }
            },
            Shape::Bits(count) => {
                assert forall|i: int| 0 <= i < tail.len() implies (#[trigger] tail[i]) == pow2(
                    i as nat,
                ) by {
                    lemma_u64_pow2_no_overflow(i as nat);
                }
            },
            Shape::Range(low, _) => {
                assert forall|i: int| 0 <= i < tail.len() implies (#[trigger] tail[i]) == (low + i)
                    % 0x1_0000_0000_0000_0000 by {
                    lemma_mod_bound(low + i, 0x1_0000_0000_0000_0000);
                }
            },
            Shape::Single(_) => {},
        }
    }
}

/// Reads a value-set expression: terms between commas, each a number, a
/// range `low..high` or a generator `name:count`; the values of the terms
/// follow one another. The random values are drawn once all terms are read,
/// and stand in the result as they were drawn.
pub fn parse_ranges(s: &str) -> (r: Result<Vec<u64>, ParameterError>)
    ensures
        match first_failure(split(s@, ',')) {
            Some(failure) => r is Err && r->Err_0@ == failure,
            None => r is Ok && expands(split(s@, ','), r->Ok_0@) && exists|draws: Seq<u64>|
                draws_fit(shapes_of(split(s@, ',')), draws) && r->Ok_0@ == #[trigger] expansion(
                    shapes_of(split(s@, ',')),
                    draws,
                ),
        },
{
    let shapes: Vec<Shape> = parse_terms(s)?;
    let draws: Vec<u64> = draw_for(&shapes);
    proof {
        lemma_draws_fit_len(shapes@, draws@);
        lemma_expansion_expands(split(s@, ','), draws@);
    }
    match expand(&shapes, &draws) {
        Some(values) => Ok(values),
        None => unreached(),
    }
}

/// What the text of a parameter stands for: the name before the first `=`
/// and the values of the expression after it.
pub open spec fn parameter_failure(s: Seq<char>) -> Option<ParameterFailure> {
    if find(s, '=') < s.len() {
        first_failure(split(s.skip(find(s, '=') as int + 1), ','))
    } else {
        Some(ParameterFailure { kind: ParameterErrorKind::MissingEquals, term: s })
    }
}

/// Reads a parameter: its name, `=`, and a value-set expression.
pub fn parse_parameter(s: &str) -> (r: Result<(String, Vec<u64>), ParameterError>)
    ensures
        match parameter_failure(s@) {
            Some(failure) => r is Err && r->Err_0@ == failure,
            None => r is Ok && r->Ok_0.0@ == s@.take(find(s@, '=') as int) && expands(
                split(s@.skip(find(s@, '=') as int + 1), ','),
                r->Ok_0.1@,
            ) && exists|draws: Seq<u64>|
                draws_fit(shapes_of(split(s@.skip(find(s@, '=') as int + 1), ',')), draws)
                    && r->Ok_0.1@ == #[trigger] expansion(
                    shapes_of(split(s@.skip(find(s@, '=') as int + 1), ',')),
                    draws,
                ),
        },
{
    match split_once_str(s, '=') {
        Some((key, ranges)) => {
            let values: Vec<u64> = parse_ranges(ranges)?;
            Ok((key.to_owned(), values))
        },
        None => Err(
            ParameterError { kind: ParameterErrorKind::MissingEquals, term: s.to_owned() },
        ),
    }
}

/// Every way to pick one value from each set, as rows of pairs of a set's
/// name and the value picked. The values of the first set change slowest,
/// and a row names the sets from the last to the first.
pub open spec fn product<K, V>(sets: Seq<(K, Seq<V>)>) -> Seq<Seq<(K, V)>>
    decreases sets.len(),
{
    if sets.len() == 0 {
        seq![Seq::empty()]
    } else {
        let rest = product(sets.drop_first());
        Seq::new(
            sets.first().1.len() * rest.len(),
            |i: int|
                rest[i % (rest.len() as int)].push(
                    (sets.first().0, sets.first().1[i / (rest.len() as int)]),
                ),
        )
    }
}

/// The product of the sizes of the sets.
pub open spec fn combinations<K, V>(sets: Seq<(K, Seq<V>)>) -> nat
    decreases sets.len(),
{
    if sets.len() == 0 {
        1
    } else {
        sets.first().1.len() * combinations(sets.drop_first())
    }
}

/// There are as many rows as the product of the sizes of the sets, and each
/// row has one pair for each set.
pub proof fn lemma_product_len<K, V>(sets: Seq<(K, Seq<V>)>)
    ensures
        product(sets).len() == combinations(sets),
        forall|i: int| 0 <= i < product(sets).len() ==> (#[trigger] product(sets)[i]).len() == sets.len(),
    decreases sets.len(),
{
    if sets.len() > 0 {
        lemma_product_len(sets.drop_first());
        let rest = product(sets.drop_first());
        assert forall|i: int| 0 <= i < product(sets).len() implies (#[trigger] product(
            sets,
        )[i]).len() == sets.len() by {
            lemma_index_in_rest(i, sets.first().1.len() as int, rest.len() as int);
        }
    }
}

/// An index into `m` blocks of `n` lies in one block, at one place.
proof fn lemma_index_in_rest(i: int, m: int, n: int)
    requires
        0 <= i < m * n,
        0 <= m,
        0 <= n,
    ensures
        n > 0,
        0 <= i % n < n,
        0 <= i / n < m,
{
    assert(n > 0) by (nonlinear_arith)
        requires
            0 <= i < m * n,
            0 <= n,
    ;
    lemma_mod_bound(i, n);
    lemma_fundamental_div_mod(i, n);
    assert(0 <= i / n < m) by (nonlinear_arith)
        requires
            0 <= i < m * n,
            n > 0,
            i == n * (i / n) + i % n,
            0 <= i % n < n,
    ;
}

/// Place `j` of block `i`, among blocks of `n`, is index `i * n + j`.
proof fn lemma_index_of_place(i: int, j: int, n: int)
    requires
        0 <= j < n,
        0 <= i,
    ensures
        (i * n + j) / n == i,
        (i * n + j) % n == j,
        0 <= i * n + j,
{
    lemma_fundamental_div_mod_converse(i * n + j, n, i, j);
    assert(i * n >= 0) by (nonlinear_arith)
        requires
            i >= 0,
            n > 0,
    ;
}

/// The row that pairs value `i` of the first of two sets with value `j` of
/// the second.
pub open spec fn pairing<K, V>(sets: Seq<(K, Seq<V>)>, i: int, j: int) -> Seq<(K, V)> {
    seq![(sets[1].0, sets[1].1[j]), (sets[0].0, sets[0].1[i])]
}

/// Two sets of `m` and `n` values give `m * n` rows, and the row at
/// `i * n + j` pairs value `i` of the first set with value `j` of the second.
pub proof fn lemma_product_of_two<K, V>(sets: Seq<(K, Seq<V>)>, i: int, j: int)
    requires
        sets.len() == 2,
        0 <= i < sets[0].1.len(),
        0 <= j < sets[1].1.len(),
    ensures
        product(sets).len() == sets[0].1.len() * sets[1].1.len(),
        0 <= i * sets[1].1.len() + j < product(sets).len(),
        product(sets)[i * sets[1].1.len() + j] == pairing(sets, i, j),
{
    let m = sets[0].1.len() as int;
    let n = sets[1].1.len() as int;
    lemma_index_of_place(i, j, n);
    assert(i * n + j < m * n) by (nonlinear_arith)
        requires
            0 <= i < m,
            0 <= j < n,
    ;
    lemma_product_len(sets);
    lemma_combinations_of_two(sets);
    lemma_row_of_two(sets, i * n + j);
}

/// The sizes of two sets multiply.
proof fn lemma_combinations_of_two<K, V>(sets: Seq<(K, Seq<V>)>)
    requires
        sets.len() == 2,
    ensures
        combinations(sets) == sets[0].1.len() * sets[1].1.len(),
{
    let rest = sets.drop_first();
    assert(rest.first() == sets[1]);
    assert(rest.drop_first().len() == 0);
    assert(combinations(rest.drop_first()) == 1);
    assert(combinations(rest) == sets[1].1.len() * 1);
}

/// Every row of the product of two sets pairs a value of the first with a
/// value of the second: row `r` pairs value `r / n` with value `r % n`, where
/// the second set has `n` values. So no pairing stands in two rows.
pub proof fn lemma_row_of_two<K, V>(sets: Seq<(K, Seq<V>)>, r: int)
    requires
        sets.len() == 2,
        0 <= r < product(sets).len(),
    ensures
        sets[1].1.len() > 0,
        0 <= r / (sets[1].1.len() as int) < sets[0].1.len(),
        0 <= r % (sets[1].1.len() as int) < sets[1].1.len(),
        product(sets)[r] == pairing(
            sets,
            r / (sets[1].1.len() as int),
            r % (sets[1].1.len() as int),
        ),
{
    let first = sets[0];
    let second = sets[1];
    let m = first.1.len() as int;
    let n = second.1.len() as int;
    assert(sets.drop_first() =~= seq![second]);
    assert(seq![second].drop_first() =~= Seq::<(K, Seq<V>)>::empty());
    let none = product(Seq::<(K, Seq<V>)>::empty());
    assert(none =~= seq![Seq::<(K, V)>::empty()]);
    let inner = product(seq![second]);
    assert(inner.len() == n * 1);
    assert forall|j: int| 0 <= j < n implies #[trigger] inner[j] == seq![(second.0, second.1[j])] by {
        assert(inner[j] =~= seq![(second.0, second.1[j])]);
    }
    assert(product(sets).len() == m * n);
    lemma_index_in_rest(r, m, n);
    assert(product(sets)[r] =~= pairing(sets, r / n, r % n));
}

/// The place in set `j` of the value that row `r` picks.
pub open spec fn picked<K, V>(sets: Seq<(K, Seq<V>)>, r: int, j: int) -> int
    decreases sets.len(),
{
    let n = combinations(sets.drop_first()) as int;
    if sets.len() == 0 || n == 0 {
        0
    } else if j == 0 {
        r / n
    } else {
        picked(sets.drop_first(), r % n, j - 1)
    }
}

/// The row that picks, from each set `j`, the value at place `places[j]`.
pub open spec fn row_of<K, V>(sets: Seq<(K, Seq<V>)>, places: Seq<int>) -> int
    decreases sets.len(),
{
    if sets.len() == 0 {
        0
    } else {
        places.first() * combinations(sets.drop_first()) + row_of(
            sets.drop_first(),
            places.drop_first(),
        )
    }
}

/// Whether `places` names one value of each set.
pub open spec fn are_places<K, V>(sets: Seq<(K, Seq<V>)>, places: Seq<int>) -> bool {
    places.len() == sets.len() && forall|j: int|
        0 <= j < sets.len() ==> 0 <= #[trigger] places[j] < sets[j].1.len()
}

/// The places that row `r` picks, one of each set.
pub open spec fn places_of<K, V>(sets: Seq<(K, Seq<V>)>, r: int) -> Seq<int> {
    Seq::new(sets.len(), |j: int| picked(sets, r, j))
}

/// Every row has one entry for each set, the last set first: the entry for
/// set `j` is that set's name with the value that the row picks from it.
pub proof fn lemma_row_entries<K, V>(sets: Seq<(K, Seq<V>)>, r: int, j: int)
    requires
        0 <= r < product(sets).len(),
        0 <= j < sets.len(),
    ensures
        product(sets)[r].len() == sets.len(),
        0 <= picked(sets, r, j) < sets[j].1.len(),
        product(sets)[r][sets.len() - 1 - j] == (sets[j].0, sets[j].1[picked(sets, r, j)]),
    decreases sets.len(),
{
    let rest = product(sets.drop_first());
    let n = rest.len() as int;
    lemma_product_len(sets);
    lemma_product_len(sets.drop_first());
    lemma_index_in_rest(r, sets.first().1.len() as int, n);
    assert(product(sets)[r] == rest[r % n].push((sets.first().0, sets.first().1[r / n])));
    if j > 0 {
        assert(sets.drop_first()[j - 1] == sets[j]);
        lemma_row_entries(sets.drop_first(), r % n, j - 1);
    }
}

/// Every choice of one value from each set stands in a row, and that row
/// picks just those values.
pub proof fn lemma_row_of_places<K, V>(sets: Seq<(K, Seq<V>)>, places: Seq<int>, j: int)
    requires
        are_places(sets, places),
        0 <= j < sets.len(),
    ensures
        0 <= row_of(sets, places) < product(sets).len(),
        picked(sets, row_of(sets, places), j) == places[j],
    decreases sets.len(),
{
    lemma_row_of_in_range(sets, places);
    let n = combinations(sets.drop_first()) as int;
    let inner = row_of(sets.drop_first(), places.drop_first());
    lemma_places_of_rest(sets, places);
    lemma_row_of_in_range(sets.drop_first(), places.drop_first());
    lemma_product_len(sets.drop_first());
    assert(0 <= places[0]);
    lemma_index_of_place(places[0], inner, n);
    if j > 0 {
        lemma_row_of_places(sets.drop_first(), places.drop_first(), j - 1);
    }
}

/// A choice of one value from each set is, after the first set, a choice of
/// one value from each of the others.
proof fn lemma_places_of_rest<K, V>(sets: Seq<(K, Seq<V>)>, places: Seq<int>)
    requires
        are_places(sets, places),
        sets.len() > 0,
    ensures
        are_places(sets.drop_first(), places.drop_first()),
{
    let rest = sets.drop_first();
    let others = places.drop_first();
    assert forall|j: int| 0 <= j < rest.len() implies 0 <= #[trigger] others[j] < rest[j].1.len() by {
        assert(others[j] == places[j + 1]);
        assert(rest[j] == sets[j + 1]);
    }
}

/// The row of a choice is one of the rows.
proof fn lemma_row_of_in_range<K, V>(sets: Seq<(K, Seq<V>)>, places: Seq<int>)
    requires
        are_places(sets, places),
    ensures
        0 <= row_of(sets, places) < product(sets).len(),
    decreases sets.len(),
{
    lemma_product_len(sets);
    if sets.len() > 0 {
        lemma_places_of_rest(sets, places);
        lemma_row_of_in_range(sets.drop_first(), places.drop_first());
        lemma_product_len(sets.drop_first());
        let n = combinations(sets.drop_first()) as int;
        let m = sets.first().1.len() as int;
        let i = places.first();
        let inner = row_of(sets.drop_first(), places.drop_first());
        assert(0 <= places[0] < sets[0].1.len());
        assert(0 <= i * n + inner < m * n) by (nonlinear_arith)
            requires
                0 <= i < m,
                0 <= inner < n,
        ;
    }
}

/// A row is the row of the values it picks: no two rows pick the same.
pub proof fn lemma_places_of_row<K, V>(sets: Seq<(K, Seq<V>)>, r: int)
    requires
        0 <= r < product(sets).len(),
    ensures
        are_places(sets, places_of(sets, r)),
        row_of(sets, places_of(sets, r)) == r,
    decreases sets.len(),
{
    lemma_product_len(sets);
    assert forall|j: int| 0 <= j < sets.len() implies 0 <= #[trigger] places_of(sets, r)[j]
        < sets[j].1.len() by {
        lemma_row_entries(sets, r, j);
    }
    if sets.len() > 0 {
        let n = combinations(sets.drop_first()) as int;
        lemma_product_len(sets.drop_first());
        lemma_index_in_rest(r, sets.first().1.len() as int, n);
        lemma_places_of_row(sets.drop_first(), r % n);
        assert(places_of(sets, r).drop_first() =~= places_of(sets.drop_first(), r % n));
        assert(places_of(sets, r).first() == r / n);
        lemma_fundamental_div_mod(r, n);
        assert((r / n) * n == n * (r / n)) by (nonlinear_arith);
    }
}

/// A copy of a row.
fn copy_row(row: &Vec<(String, u64)>) -> (copy: Vec<(String, u64)>)
    ensures
        copy@ == row@,
{
    let mut copy: Vec<(String, u64)> = Vec::new();
    let mut i: usize = 0;
    while i < row.len()
        invariant
            i <= row.len(),
            copy@ == row@.take(i as int),
        decreases row.len() - i,
    {
        let name: String = row[i].0.clone();
        copy.push((name, row[i].1));
        proof {
            assert(copy@ =~= row@.take(i + 1));
        }
        i += 1;
    }
    proof {
        assert(row@.take(row@.len() as int) =~= row@);
    }
    copy
}

/// The rows for the sets from `from` on.
fn product_from(sets: &Vec<(String, Vec<u64>)>, from: usize) -> (rows: Vec<Vec<(String, u64)>>)
    requires
        from <= sets@.len(),
    ensures
        rows.deep_view() == product(sets.deep_view().skip(from as int)),
    decreases sets@.len() - from,
{
    let ghost these = sets.deep_view().skip(from as int);
    let mut rows: Vec<Vec<(String, u64)>> = Vec::new();
    if from == sets.len() {
        rows.push(Vec::new());
        proof {
            assert(rows.deep_view() =~= seq![Seq::<(Seq<char>, u64)>::empty()]) by {
                assert(rows@[0].deep_view() =~= Seq::<(Seq<char>, u64)>::empty());
            }
        }
        return rows;
    }
    let rest: Vec<Vec<(String, u64)>> = product_from(sets, from + 1);
    let values: &Vec<u64> = &sets[from].1;
    let ghost n = rest@.len() as int;
    let ghost key = sets@[from as int].0@;
    proof {
        assert(these.drop_first() =~= sets.deep_view().skip(from + 1));
        assert(these.first() == sets.deep_view()[from as int]);
        assert(these.first().0 == key);
        assert(these.first().1 =~= values@) by {
            assert(these.first().1 == sets@[from as int].1.deep_view());
        }
        assert(rest.deep_view().len() == n);
    }
    let mut i: usize = 0;
    while i < values.len()
        invariant
            i <= values@.len(),
            from < sets@.len(),
            n == rest@.len(),
            key == sets@[from as int].0@,
            values@ == sets@[from as int].1@,
            rows@.len() == i * n,
            forall|r: int|
                0 <= r < rows@.len() ==> n > 0 && (#[trigger] rows@[r]).deep_view()
                    == rest.deep_view()[r % n].push((key, values@[r / n])),
        decreases values@.len() - i,
    {
        let mut j: usize = 0;
        while j < rest.len()
            invariant
                i < values@.len(),
                j <= rest@.len(),
                from < sets@.len(),
                n == rest@.len(),
                key == sets@[from as int].0@,
                values@ == sets@[from as int].1@,
                rows@.len() == i * n + j,
                forall|r: int|
                    0 <= r < rows@.len() ==> n > 0 && (#[trigger] rows@[r]).deep_view()
                        == rest.deep_view()[r % n].push((key, values@[r / n])),
            decreases rest@.len() - j,
        {
            let mut row: Vec<(String, u64)> = copy_row(&rest[j]);
            let name: String = sets[from].0.clone();
            row.push((name, values[i]));
            let ghost previous = rows@;
            proof {
                lemma_index_of_place(i as int, j as int, n);
                assert(row.deep_view() =~= rest.deep_view()[j as int].push((key, values@[i as int])))
                    by {
                    assert(rest.deep_view()[j as int] == rest@[j as int].deep_view());
                    assert(forall|k: int|
                        0 <= k < rest@[j as int]@.len() ==> row@[k] == rest@[j as int]@[k]);
                }
            }
            rows.push(row);
            proof {
                assert forall|r: int| 0 <= r < rows@.len() implies n > 0 && (#[trigger] rows@[r]).deep_view()
                    == rest.deep_view()[r % n].push((key, values@[r / n])) by {
                    if r < previous.len() {
                        assert(rows@[r] == previous[r]);
                    }
                }
            }
            j += 1;
        }
        proof {
            assert(i * n + n == (i + 1) * n) by (nonlinear_arith);
        }
        i += 1;
    }
    proof {
        let target = product(these);
        assert(target.len() == values@.len() * n);
        assert(rows.deep_view() =~= target);
    }
    rows
}

/// Every way to pick one value from each set. The values of the first set
/// change slowest; no sets give the one empty row.
pub fn cartesian_product(sets: Vec<(String, Vec<u64>)>) -> (rows: Vec<Vec<(String, u64)>>)
    ensures
        rows.deep_view() == product(sets.deep_view()),
{
    proof {
        assert(sets.deep_view().skip(0) =~= sets.deep_view());
    }
    product_from(&sets, 0)
}

} // verus!
