//! What the two passes compute, stated over the program itself: where each
//! instruction lies, which bytes it encodes to, and that the second pass finds
//! every label where the first pass put it.

use crate::assembler::{
    address_space, assemble_program_spec, assemble_spec, assembled_as, be_bytes, discovered, written,
    LabelAssembler, LabelPass, LabelTable, OutputAssembler, OutputPass, SourceError,
};
use crate::fields::{
    field, fits_signed, lemma_field_of_signed, lemma_field_of_unsigned, Bits, Jmpop,
};
use crate::instructions::{
    branch, branch_word, emit_all, jump_offset, run, step, AssembleError, Assembler,
    InstructionView,
};
use vstd::arithmetic::power2::*;
use vstd::prelude::*;

verus! {

/// The number of words that an instruction takes.
pub open spec fn size(instruction: InstructionView) -> nat {
    match instruction {
        InstructionView::Label(_) => 0,
        InstructionView::Jump(_) => 1,
        InstructionView::Call(_) => 1,
        _ => instruction.words().len(),
    }
}

/// The number of words that a program takes.
pub open spec fn total_size(program: Seq<InstructionView>) -> nat
    decreases program.len(),
{
    if program.len() == 0 {
        0
    } else {
        size(program.first()) + total_size(program.drop_first())
    }
}

/// The address of instruction `i` of a program that lies at `base`.
pub open spec fn address_at(base: u32, program: Seq<InstructionView>, i: int) -> int {
    base + 4 * total_size(program.take(i))
}

/// Whether the program declares the label `name`.
pub open spec fn declares(program: Seq<InstructionView>, name: Seq<char>) -> bool {
    exists|k: int| 0 <= k < program.len() && #[trigger] program[k] == InstructionView::Label(name)
}

/// An instruction of the program that declares the label `name`.
pub open spec fn declared_at(program: Seq<InstructionView>, name: Seq<char>) -> int {
    choose|k: int| 0 <= k < program.len() && #[trigger] program[k] == InstructionView::Label(name)
}

/// Whether a jump or call at instruction `i` can be encoded: the program
/// declares the label, and the distance to it in words fits 24 bits.
pub open spec fn reaches(
    base: u32,
    program: Seq<InstructionView>,
    i: int,
    name: Seq<char>,
) -> bool {
    declares(program, name) && fits_signed(
        (address_at(base, program, declared_at(program, name)) - address_at(base, program, i)) / 4,
        24,
    )
}

/// Whether a program at `base` can be assembled: it ends within the address
/// space, every label lies at a 32-bit address, no label is declared twice,
/// and every jump and call reaches its label.
pub open spec fn can_be_assembled(base: u32, program: Seq<InstructionView>) -> bool {
    &&& base + 4 * total_size(program) <= address_space()
    &&& forall|i: int|
        0 <= i < program.len() && (#[trigger] program[i]) is Label ==> address_at(base, program, i)
            <= u32::MAX
    &&& forall|i: int, j: int|
        0 <= i < j < program.len() && (#[trigger] program[i]) is Label && (
        #[trigger] program[j]) is Label ==> program[i]->Label_0 != program[j]->Label_0
    &&& forall|i: int|
        0 <= i < program.len() && (#[trigger] program[i]) is Jump ==> reaches(
            base,
            program,
            i,
            program[i]->Jump_0,
        )
    &&& forall|i: int|
        0 <= i < program.len() && (#[trigger] program[i]) is Call ==> reaches(
            base,
            program,
            i,
            program[i]->Call_0,
        )
}

/// Whether `labels` holds every label of the program, and nothing else, at
/// the address of the instruction after it.
pub open spec fn is_layout(
    base: u32,
    program: Seq<InstructionView>,
    labels: Map<Seq<char>, u32>,
) -> bool {
    &&& forall|i: int|
        0 <= i < program.len() && (#[trigger] program[i]) is Label ==> labels.dom().contains(
            program[i]->Label_0,
        ) && labels[program[i]->Label_0] == address_at(base, program, i)
    &&& forall|name: Seq<char>| #[trigger] labels.dom().contains(name) ==> declares(program, name)
}

/// The bytes of some words, each word's most significant byte first.
pub open spec fn bytes_of(words: Seq<u32>) -> Seq<u8>
    decreases words.len(),
{
    if words.len() == 0 {
        Seq::empty()
    } else {
        be_bytes(words.first()) + bytes_of(words.drop_first())
    }
}

/// The bytes of an instruction at `address`, with the labels at the addresses
/// that `labels` gives.
pub open spec fn image_of(
    labels: Map<Seq<char>, u32>,
    address: int,
    instruction: InstructionView,
) -> Seq<u8> {
    match instruction {
        InstructionView::Label(_) => Seq::empty(),
        InstructionView::Jump(name) => be_bytes(
            branch_word(Jmpop::Jump, jump_offset(labels[name], address as u32)),
        ),
        InstructionView::Call(name) => be_bytes(
            branch_word(Jmpop::Call, jump_offset(labels[name], address as u32)),
        ),
        _ => bytes_of(instruction.words()),
    }
}

/// The bytes of a program whose first instruction lies at `address`.
pub open spec fn image(
    labels: Map<Seq<char>, u32>,
    address: int,
    program: Seq<InstructionView>,
) -> Seq<u8>
    decreases program.len(),
{
    if program.len() == 0 {
        Seq::empty()
    } else {
        image_of(labels, address, program.first()) + image(
            labels,
            address + 4 * size(program.first()),
            program.drop_first(),
        )
    }
}

/// Every word has four bytes.
pub proof fn lemma_bytes_of_len(words: Seq<u32>)
    ensures
        bytes_of(words).len() == 4 * words.len(),
    decreases words.len(),
{
    if words.len() > 0 {
        lemma_bytes_of_len(words.drop_first());
    }
}

/// An instruction has four bytes for each of its words.
pub proof fn lemma_image_of_len(
    labels: Map<Seq<char>, u32>,
    address: int,
    instruction: InstructionView,
)
    ensures
        image_of(labels, address, instruction).len() == 4 * size(instruction),
{
    match instruction {
        InstructionView::Label(_) => {},
        InstructionView::Jump(_) => {},
        InstructionView::Call(_) => {},
        _ => {
            lemma_bytes_of_len(instruction.words());
        },
    }
}

/// The size of a program up to instruction `i`, after its first instruction.
proof fn lemma_total_size_take(program: Seq<InstructionView>, i: int)
    requires
        0 < i <= program.len(),
    ensures
        total_size(program.take(i)) == size(program.first()) + total_size(
            program.drop_first().take(i - 1),
        ),
{
    assert(program.take(i).first() == program.first());
    assert(program.take(i).drop_first() =~= program.drop_first().take(i - 1));
}

/// What the first pass does with some words: it counts them, where the
/// address after them is still a 32-bit one.
proof fn lemma_label_emit_all(state: LabelPass, words: Seq<u32>)
    requires
        0 <= state.offset,
        state.base + state.offset <= address_space(),
    ensures
        emit_all::<LabelAssembler>(state, words) == if state.base + state.offset + 4 * words.len()
            > address_space() {
            Err::<LabelPass, AssembleError>(AssembleError::AddressOverflow)
        } else {
            Ok(
                LabelPass {
                    base: state.base,
                    offset: state.offset + 4 * words.len(),
                    labels: state.labels,
                },
            )
        },
    decreases words.len(),
{
    if words.len() > 0 {
        match LabelAssembler::emitted(state, words.first()) {
            Ok(next) => {
                lemma_label_emit_all(next, words.drop_first());
            },
            Err(_) => {},
        }
    }
}

/// What the second pass does with some words: it writes their bytes, where
/// the address after them is still a 32-bit one.
proof fn lemma_output_emit_all(state: OutputPass, words: Seq<u32>)
    requires
        state.base + state.output.len() <= address_space(),
    ensures
        emit_all::<OutputAssembler>(state, words) == if state.base + state.output.len() + 4
            * words.len() > address_space() {
            Err::<OutputPass, AssembleError>(AssembleError::AddressOverflow)
        } else {
            Ok(
                OutputPass {
                    base: state.base,
                    labels: state.labels,
                    output: state.output + bytes_of(words),
                },
            )
        },
    decreases words.len(),
{
    if words.len() == 0 {
        assert(state.output + bytes_of(words) =~= state.output);
    } else {
        match OutputAssembler::emitted(state, words.first()) {
            Ok(next) => {
                lemma_output_emit_all(next, words.drop_first());
                lemma_bytes_of_len(words.drop_first());
                assert(next.output + bytes_of(words.drop_first()) =~= state.output + bytes_of(
                    words,
                ));
            },
            Err(_) => {},
        }
    }
}

/// What the first pass does with one instruction.
pub open spec fn first_pass_step(state: LabelPass, instruction: InstructionView) -> Result<
    LabelPass,
    AssembleError,
> {
    match instruction {
        InstructionView::Label(name) => if state.base + state.offset > u32::MAX {
            Err(AssembleError::AddressOverflow)
        } else if state.labels.dom().contains(name) {
            Err(AssembleError::DuplicateLabel)
        } else {
            Ok(
                LabelPass {
                    base: state.base,
                    offset: state.offset,
                    labels: state.labels.insert(name, (state.base + state.offset) as u32),
                },
            )
        },
        _ => if state.base + state.offset + 4 * size(instruction) > address_space() {
            Err(AssembleError::AddressOverflow)
        } else {
            Ok(
                LabelPass {
                    base: state.base,
                    offset: state.offset + 4 * size(instruction),
                    labels: state.labels,
                },
            )
        },
    }
}

/// The first pass records a label at its address unless its name is taken,
/// and counts the words of every other instruction; a jump or call counts as
/// one word whether its label is known or not. A label must lie at a 32-bit
/// address, and every word must end within the address space.
pub proof fn lemma_first_pass_step(state: LabelPass, instruction: InstructionView)
    requires
        0 <= state.offset,
        state.base + state.offset <= address_space(),
    ensures
        step::<LabelAssembler>(state, instruction) == first_pass_step(state, instruction),
{
    match instruction {
        InstructionView::Label(_) => {},
        InstructionView::Jump(name) => {
            lemma_pow2_pos(23);
            if LabelAssembler::address_of(state) is Ok {
                let here = LabelAssembler::address_of(state)->Ok_0;
                assert(jump_offset(here, here) == 0);
            }
        },
        InstructionView::Call(name) => {
            lemma_pow2_pos(23);
            if LabelAssembler::address_of(state) is Ok {
                let here = LabelAssembler::address_of(state)->Ok_0;
                assert(jump_offset(here, here) == 0);
            }
        },
        _ => {
            lemma_label_emit_all(state, instruction.words());
        },
    }
}

/// What the second pass does with a jump or call at `address`.
pub open spec fn second_pass_branch(state: OutputPass, op: Jmpop, name: Seq<char>) -> Result<
    OutputPass,
    AssembleError,
> {
    let address = state.base + state.output.len();
    if !state.labels.dom().contains(name) {
        Err(AssembleError::UndefinedLabel)
    } else if address > u32::MAX {
        Err(AssembleError::AddressOverflow)
    } else if !fits_signed(jump_offset(state.labels[name], address as u32), 24) {
        Err(AssembleError::OffsetOutOfRange)
    } else if address + 4 > address_space() {
        Err(AssembleError::AddressOverflow)
    } else {
        Ok(
            OutputPass {
                base: state.base,
                labels: state.labels,
                output: state.output + be_bytes(
                    branch_word(op, jump_offset(state.labels[name], address as u32)),
                ),
            },
        )
    }
}

/// What the second pass does with one instruction.
pub open spec fn second_pass_step(state: OutputPass, instruction: InstructionView) -> Result<
    OutputPass,
    AssembleError,
> {
    let address = state.base + state.output.len();
    match instruction {
        InstructionView::Label(name) => if address > u32::MAX {
            Err(AssembleError::AddressOverflow)
        } else if state.labels.dom().contains(name) && state.labels[name] != address {
            Err(AssembleError::LabelMismatch)
        } else {
            Ok(state)
        },
        InstructionView::Jump(name) => second_pass_branch(state, Jmpop::Jump, name),
        InstructionView::Call(name) => second_pass_branch(state, Jmpop::Call, name),
        _ => if address + 4 * size(instruction) > address_space() {
            Err(AssembleError::AddressOverflow)
        } else {
            Ok(
                OutputPass {
                    base: state.base,
                    labels: state.labels,
                    output: state.output + image_of(state.labels, address, instruction),
                },
            )
        },
    }
}

/// The second pass checks a label against the table, encodes a jump or call
/// to a label of the table over the distance in words from the jump to the
/// label, which must fit 24 bits, and writes the words of every other
/// instruction.
pub proof fn lemma_second_pass_step(state: OutputPass, instruction: InstructionView)
    requires
        state.base + state.output.len() <= address_space(),
    ensures
        step::<OutputAssembler>(state, instruction) == second_pass_step(state, instruction),
{
    match instruction {
        InstructionView::Label(_) => {},
        InstructionView::Jump(name) => {},
        InstructionView::Call(name) => {},
        _ => {
            lemma_output_emit_all(state, instruction.words());
        },
    }
}

/// The first pass, where it succeeds, has counted the words of the whole
/// program, has kept the labels it began with, and has put each label of the
/// program at the address of the instruction after it.
pub proof fn lemma_first_pass(state: LabelPass, program: Seq<InstructionView>)
    requires
        0 <= state.offset,
        state.base + state.offset <= address_space(),
        run::<LabelAssembler>(state, program) is Ok,
    ensures
        ({
            let end = run::<LabelAssembler>(state, program)->Ok_0;
            &&& end.base == state.base
            &&& end.offset == state.offset + 4 * total_size(program)
            &&& state.base + end.offset <= address_space()
            &&& state.labels.submap_of(end.labels)
            &&& forall|i: int|
                0 <= i < program.len() && (#[trigger] program[i]) is Label
                    ==> end.labels.dom().contains(program[i]->Label_0)
                    && end.labels[program[i]->Label_0] == state.base + state.offset + 4
                    * total_size(program.take(i))
            &&& forall|name: Seq<char>| #[trigger]
                end.labels.dom().contains(name) ==> state.labels.dom().contains(name) || exists|
                    i: int,
                |
                    0 <= i < program.len() && #[trigger] program[i] == InstructionView::Label(name)
        }),
    decreases program.len(),
{
    let end = run::<LabelAssembler>(state, program)->Ok_0;
    if program.len() > 0 {
        let first = program.first();
        let rest = program.drop_first();
        lemma_first_pass_step(state, first);
        let next = step::<LabelAssembler>(state, first)->Ok_0;
        lemma_first_pass(next, rest);
        assert(state.labels.submap_of(next.labels));
        assert(end == run::<LabelAssembler>(next, rest)->Ok_0);
        assert(end.base == state.base);
        assert(end.offset == state.offset + 4 * total_size(program));
        assert(state.labels.submap_of(end.labels)) by {
            assert forall|name: Seq<char>| state.labels.dom().contains(name) implies #[trigger]
                end.labels.dom().contains(name) && state.labels[name] == end.labels[name] by {
                assert(next.labels.dom().contains(name));
            }
        }
        assert forall|i: int| 0 <= i < program.len() && (#[trigger] program[i]) is Label implies
            end.labels.dom().contains(program[i]->Label_0) && end.labels[program[i]->Label_0]
            == state.base + state.offset + 4 * total_size(program.take(i)) by {
            if i == 0 {
                assert(program.take(0) =~= Seq::<InstructionView>::empty());
                assert(next.labels.dom().contains(first->Label_0));
            } else {
                assert(program[i] == rest[i - 1]);
                lemma_total_size_take(program, i);
            }
        }
        assert forall|name: Seq<char>| #[trigger]
            end.labels.dom().contains(name) implies state.labels.dom().contains(name) || exists|
            i: int,
        |
            0 <= i < program.len() && #[trigger] program[i] == InstructionView::Label(name) by {
            if !state.labels.dom().contains(name) {
                if next.labels.dom().contains(name) {
                    assert(program[0] == InstructionView::Label(name));
                } else {
                    let j = choose|j: int|
                        0 <= j < rest.len() && #[trigger] rest[j] == InstructionView::Label(name);
                    assert(program[j + 1] == rest[j]);
                }
            }
        }
    }
}

/// A program that declares a label twice, or declares one that is already
/// recorded, fails in the first pass.
proof fn lemma_first_pass_taken(state: LabelPass, program: Seq<InstructionView>, j: int)
    requires
        0 <= state.offset,
        state.base + state.offset <= address_space(),
        0 <= j < program.len(),
        program[j] is Label,
        state.labels.dom().contains(program[j]->Label_0),
    ensures
        run::<LabelAssembler>(state, program) is Err,
    decreases program.len(),
{
    lemma_first_pass_step(state, program.first());
    if j > 0 {
        match step::<LabelAssembler>(state, program.first()) {
            Ok(next) => {
                assert(program.drop_first()[j - 1] == program[j]);
                lemma_first_pass_taken(next, program.drop_first(), j - 1);
            },
            Err(_) => {},
        }
    }
}

proof fn lemma_first_pass_twice(
    state: LabelPass,
    program: Seq<InstructionView>,
    i: int,
    j: int,
)
    requires
        0 <= state.offset,
        state.base + state.offset <= address_space(),
        0 <= i < j < program.len(),
        program[i] is Label,
        program[j] is Label,
        program[i]->Label_0 == program[j]->Label_0,
    ensures
        run::<LabelAssembler>(state, program) is Err,
    decreases program.len(),
{
    lemma_first_pass_step(state, program.first());
    match step::<LabelAssembler>(state, program.first()) {
        Ok(next) => {
            assert(program.drop_first()[j - 1] == program[j]);
            if i == 0 {
                lemma_first_pass_taken(next, program.drop_first(), j - 1);
            } else {
                assert(program.drop_first()[i - 1] == program[i]);
                lemma_first_pass_twice(next, program.drop_first(), i - 1, j - 1);
            }
        },
        Err(_) => {},
    }
}

/// The second pass, where it succeeds, has kept the table and has written the
/// bytes of the program.
pub proof fn lemma_second_pass(state: OutputPass, program: Seq<InstructionView>)
    requires
        state.base + state.output.len() <= address_space(),
        run::<OutputAssembler>(state, program) is Ok,
    ensures
        ({
            let end = run::<OutputAssembler>(state, program)->Ok_0;
            &&& end.base == state.base
            &&& end.labels == state.labels
            &&& end.output == state.output + image(
                state.labels,
                state.base + state.output.len(),
                program,
            )
            &&& end.output.len() == state.output.len() + 4 * total_size(program)
            &&& state.base + end.output.len() <= address_space()
        }),
    decreases program.len(),
{
    let end = run::<OutputAssembler>(state, program)->Ok_0;
    let address = state.base + state.output.len();
    if program.len() == 0 {
        assert(state.output + image(state.labels, address, program) =~= state.output);
    } else {
        let first = program.first();
        let rest = program.drop_first();
        lemma_second_pass_step(state, first);
        lemma_image_of_len(state.labels, address, first);
        let next = step::<OutputAssembler>(state, first)->Ok_0;
        lemma_second_pass(next, rest);
        assert(next.output.len() == state.output.len() + 4 * size(first));
        assert(next.output =~= state.output + image_of(state.labels, address, first));
        assert(end.output =~= state.output + image(state.labels, address, program));
    }
}

/// The second pass over a program whose labels the table holds at their
/// addresses, and which ends within the address space, fails only where a
/// jump or call names a label that the table lacks or that is out of reach.
proof fn lemma_second_pass_agrees(state: OutputPass, program: Seq<InstructionView>)
    requires
        state.base + state.output.len() + 4 * total_size(program) <= address_space(),
        forall|i: int|
            0 <= i < program.len() && (#[trigger] program[i]) is Label
                ==> state.labels.dom().contains(program[i]->Label_0)
                && state.labels[program[i]->Label_0] == state.base + state.output.len() + 4
                * total_size(program.take(i)),
    ensures
        match run::<OutputAssembler>(state, program) {
            Ok(_) => true,
            Err(e) => e == AssembleError::UndefinedLabel || e == AssembleError::OffsetOutOfRange,
        },
    decreases program.len(),
{
    if program.len() > 0 {
        let first = program.first();
        let rest = program.drop_first();
        let address = state.base + state.output.len();
        lemma_second_pass_step(state, first);
        lemma_image_of_len(state.labels, address, first);
        if first is Label {
            assert(program[0] is Label);
            assert(program.take(0) =~= Seq::<InstructionView>::empty());
        }
        match step::<OutputAssembler>(state, first) {
            Ok(next) => {
                assert(next.output.len() == state.output.len() + 4 * size(first));
                assert forall|i: int| 0 <= i < rest.len() && (#[trigger] rest[i]) is Label implies
                    next.labels.dom().contains(rest[i]->Label_0) && next.labels[rest[i]->Label_0]
                    == next.base + next.output.len() + 4 * total_size(rest.take(i)) by {
                    assert(rest[i] == program[i + 1]);
                    lemma_total_size_take(program, i + 1);
                }
                lemma_second_pass_agrees(next, rest);
            },
            Err(_) => {},
        }
    }
}

/// Where the first pass succeeds, the program ends within the address space,
/// and every label of the program, and nothing else, is recorded at the
/// address of the instruction after it.
pub proof fn lemma_labels_lie_at_their_instructions(base: u32, program: Seq<InstructionView>)
    requires
        discovered(base, program) is Ok,
    ensures
        base + 4 * total_size(program) <= address_space(),
        discovered(base, program)->Ok_0.offset == 4 * total_size(program),
        is_layout(base, program, discovered(base, program)->Ok_0.labels),
{
    lemma_first_pass(LabelPass { base, offset: 0, labels: Map::empty() }, program);
}

/// A program that declares a label twice is refused.
pub proof fn lemma_duplicate_label_is_refused(
    base: u32,
    program: Seq<InstructionView>,
    i: int,
    j: int,
)
    requires
        0 <= i < j < program.len(),
        program[i] is Label,
        program[j] is Label,
        program[i]->Label_0 == program[j]->Label_0,
    ensures
        discovered(base, program) is Err,
        assemble_program_spec(base, program) is Err,
{
    lemma_first_pass_twice(LabelPass { base, offset: 0, labels: Map::empty() }, program, i, j);
}

/// The two passes agree. After a first pass that succeeds, the second pass
/// finds every label where the table has it and the program within the
/// address space: it fails only where a jump or call names a label that the
/// program does not declare, or one that is out of its reach. Where it
/// succeeds, it hands back the table of the first pass and the bytes of the
/// program, four for each word.
pub proof fn lemma_passes_agree(base: u32, program: Seq<InstructionView>)
    requires
        discovered(base, program) is Ok,
    ensures
        match written(base, discovered(base, program)->Ok_0.labels, program) {
            Ok(end) => end.labels == discovered(base, program)->Ok_0.labels && end.output
                == image(end.labels, base as int, program) && end.output.len() == 4 * total_size(
                program,
            ),
            Err(e) => e == AssembleError::UndefinedLabel || e == AssembleError::OffsetOutOfRange,
        },
{
    let labels = discovered(base, program)->Ok_0.labels;
    let start = OutputPass { base, labels, output: Seq::empty() };
    lemma_labels_lie_at_their_instructions(base, program);
    lemma_second_pass_agrees(start, program);
    if run::<OutputAssembler>(start, program) is Ok {
        lemma_second_pass(start, program);
        let end = run::<OutputAssembler>(start, program)->Ok_0;
        assert(start.output + image(labels, base as int, program) =~= image(
            labels,
            base as int,
            program,
        ));
    }
}

/// The first pass succeeds on a program that ends within the address space
/// and declares neither a label twice nor one that is already recorded.
proof fn lemma_first_pass_succeeds(state: LabelPass, program: Seq<InstructionView>)
    requires
        0 <= state.offset,
        state.base + state.offset + 4 * total_size(program) <= address_space(),
        forall|i: int|
            0 <= i < program.len() && (#[trigger] program[i]) is Label ==> state.base
                + state.offset + 4 * total_size(program.take(i)) <= u32::MAX,
        forall|i: int|
            0 <= i < program.len() && (#[trigger] program[i]) is Label
                ==> !state.labels.dom().contains(program[i]->Label_0),
        forall|i: int, j: int|
            0 <= i < j < program.len() && (#[trigger] program[i]) is Label && (
            #[trigger] program[j]) is Label ==> program[i]->Label_0 != program[j]->Label_0,
    ensures
        run::<LabelAssembler>(state, program) is Ok,
    decreases program.len(),
{
    if program.len() > 0 {
        let first = program.first();
        let rest = program.drop_first();
        lemma_first_pass_step(state, first);
        if first is Label {
            assert(program[0] is Label);
        }
        let next = step::<LabelAssembler>(state, first)->Ok_0;
        assert forall|i: int| 0 <= i < rest.len() && (#[trigger] rest[i]) is Label implies
            !next.labels.dom().contains(rest[i]->Label_0) by {
            assert(rest[i] == program[i + 1]);
            if first is Label {
                assert(program[0] is Label && program[i + 1] is Label);
            }
        }
        assert forall|i: int, j: int|
            0 <= i < j < rest.len() && (#[trigger] rest[i]) is Label && (
            #[trigger] rest[j]) is Label implies rest[i]->Label_0 != rest[j]->Label_0 by {
            assert(rest[i] == program[i + 1]);
            assert(rest[j] == program[j + 1]);
        }
        assert forall|i: int| 0 <= i < rest.len() && (#[trigger] rest[i]) is Label implies
            next.base + next.offset + 4 * total_size(rest.take(i)) <= u32::MAX by {
            assert(rest[i] == program[i + 1]);
            assert(program[i + 1] is Label);
            lemma_total_size_take(program, i + 1);
        }
        lemma_first_pass_succeeds(next, rest);
    }
}

/// Whether the second pass can encode instruction `i` of what is left of a
/// program: the table holds the label of a jump or call within reach.
pub open spec fn resolves(state: OutputPass, program: Seq<InstructionView>, i: int) -> bool {
    let here = state.base + state.output.len() + 4 * total_size(program.take(i));
    match program[i] {
        InstructionView::Jump(name) => state.labels.dom().contains(name) && fits_signed(
            (state.labels[name] - here) / 4,
            24,
        ),
        InstructionView::Call(name) => state.labels.dom().contains(name) && fits_signed(
            (state.labels[name] - here) / 4,
            24,
        ),
        _ => true,
    }
}

/// The second pass succeeds on a program that ends within the address space,
/// whose labels the table holds at their addresses, and whose jumps and calls
/// the table resolves within reach.
proof fn lemma_second_pass_succeeds(state: OutputPass, program: Seq<InstructionView>)
    requires
        state.base + state.output.len() + 4 * total_size(program) <= address_space(),
        forall|i: int|
            0 <= i < program.len() && (#[trigger] program[i]) is Label
                ==> state.labels.dom().contains(program[i]->Label_0)
                && state.labels[program[i]->Label_0] == state.base + state.output.len() + 4
                * total_size(program.take(i)),
        forall|i: int| 0 <= i < program.len() ==> #[trigger] resolves(state, program, i),
    ensures
        run::<OutputAssembler>(state, program) is Ok,
    decreases program.len(),
{
    if program.len() > 0 {
        let first = program.first();
        let rest = program.drop_first();
        let address = state.base + state.output.len();
        lemma_second_pass_step(state, first);
        lemma_image_of_len(state.labels, address, first);
        assert(program.take(0) =~= Seq::<InstructionView>::empty());
        assert(resolves(state, program, 0));
        if first is Label {
            assert(program[0] is Label);
        }
        let next = step::<OutputAssembler>(state, first)->Ok_0;
        assert(next.output.len() == state.output.len() + 4 * size(first));
        assert forall|i: int| 0 <= i < rest.len() && (#[trigger] rest[i]) is Label implies
            next.labels.dom().contains(rest[i]->Label_0) && next.labels[rest[i]->Label_0]
            == next.base + next.output.len() + 4 * total_size(rest.take(i)) by {
            assert(rest[i] == program[i + 1]);
            lemma_total_size_take(program, i + 1);
        }
        assert forall|i: int| 0 <= i < rest.len() implies #[trigger] resolves(next, rest, i) by {
            assert(rest[i] == program[i + 1]);
            lemma_total_size_take(program, i + 1);
            assert(resolves(state, program, i + 1));
        }
        lemma_second_pass_succeeds(next, rest);
    }
}

/// Where the second pass succeeds, the table has resolved every jump and
/// call within reach.
proof fn lemma_second_pass_resolved(state: OutputPass, program: Seq<InstructionView>)
    requires
        state.base + state.output.len() <= address_space(),
        run::<OutputAssembler>(state, program) is Ok,
    ensures
        forall|i: int| 0 <= i < program.len() ==> #[trigger] resolves(state, program, i),
    decreases program.len(),
{
    if program.len() > 0 {
        let first = program.first();
        let rest = program.drop_first();
        let address = state.base + state.output.len();
        lemma_second_pass_step(state, first);
        lemma_image_of_len(state.labels, address, first);
        let next = step::<OutputAssembler>(state, first)->Ok_0;
        assert(next.output.len() == state.output.len() + 4 * size(first));
        lemma_second_pass_resolved(next, rest);
        assert forall|i: int| 0 <= i < program.len() implies #[trigger] resolves(
            state,
            program,
            i,
        ) by {
            if i == 0 {
                assert(program.take(0) =~= Seq::<InstructionView>::empty());
            } else {
                assert(program[i] == rest[i - 1]);
                lemma_total_size_take(program, i);
                assert(resolves(next, rest, i - 1));
            }
        }
    }
}

/// A program is assembled exactly where it ends within the address space
/// with every label at a 32-bit address, declares no label twice, and every
/// jump and call reaches its label.
pub proof fn lemma_assembled_iff_well_formed(base: u32, program: Seq<InstructionView>)
    ensures
        assemble_program_spec(base, program) is Ok <==> can_be_assembled(base, program),
{
    let start = LabelPass { base, offset: 0, labels: Map::empty() };
    if can_be_assembled(base, program) {
        lemma_first_pass_succeeds(start, program);
        lemma_labels_lie_at_their_instructions(base, program);
        let labels = discovered(base, program)->Ok_0.labels;
        let begin = OutputPass { base, labels, output: Seq::empty() };
        assert forall|i: int| 0 <= i < program.len() implies #[trigger] resolves(
            begin,
            program,
            i,
        ) by {
            match program[i] {
                InstructionView::Jump(name) => {
                    assert(program[i] is Jump);
                    assert(reaches(base, program, i, name));
                    let k = declared_at(program, name);
                    assert(program[k] is Label);
                },
                InstructionView::Call(name) => {
                    assert(program[i] is Call);
                    assert(reaches(base, program, i, name));
                    let k = declared_at(program, name);
                    assert(program[k] is Label);
                },
                _ => {},
            }
        }
        lemma_second_pass_succeeds(begin, program);
    }
    if assemble_program_spec(base, program) is Ok {
        lemma_labels_lie_at_their_instructions(base, program);
        let labels = discovered(base, program)->Ok_0.labels;
        let begin = OutputPass { base, labels, output: Seq::empty() };
        lemma_second_pass_resolved(begin, program);
        assert forall|i: int, j: int|
            0 <= i < j < program.len() && (#[trigger] program[i]) is Label && (
            #[trigger] program[j]) is Label implies program[i]->Label_0 != program[j]->Label_0 by {
            if program[i]->Label_0 == program[j]->Label_0 {
                lemma_duplicate_label_is_refused(base, program, i, j);
            }
        }
        assert forall|i: int| 0 <= i < program.len() && (#[trigger] program[i]) is Jump implies
            reaches(base, program, i, program[i]->Jump_0) by {
            let name = program[i]->Jump_0;
            assert(resolves(begin, program, i));
            assert(labels.dom().contains(name));
            let k = declared_at(program, name);
            assert(program[k] is Label);
        }
        assert forall|i: int| 0 <= i < program.len() && (#[trigger] program[i]) is Call implies
            reaches(base, program, i, program[i]->Call_0) by {
            let name = program[i]->Call_0;
            assert(resolves(begin, program, i));
            assert(labels.dom().contains(name));
            let k = declared_at(program, name);
            assert(program[k] is Label);
        }
    }
}

/// What assembling a program gives, stated over the program itself. It
/// succeeds exactly where the program can be assembled; the labels then lie at
/// their instructions, and the bytes are those of the instructions in order,
/// four for each word.
pub proof fn lemma_assembly(base: u32, program: Seq<InstructionView>)
    ensures
        assemble_program_spec(base, program) is Ok <==> can_be_assembled(base, program),
        assemble_program_spec(base, program) is Ok ==> ({
            let (bytes, labels) = assemble_program_spec(base, program)->Ok_0;
            &&& is_layout(base, program, labels)
            &&& bytes == image(labels, base as int, program)
            &&& bytes.len() == 4 * total_size(program)
        }),
{
    lemma_assembled_iff_well_formed(base, program);
    if assemble_program_spec(base, program) is Ok {
        lemma_labels_lie_at_their_instructions(base, program);
        lemma_passes_agree(base, program);
    }
}

/// The word of a jump or call is the opcode `0x25` in the six highest bits,
/// bit 24 set for a jump and clear for a call, and the offset in the low 24
/// bits in two's complement.
pub proof fn lemma_branch_word(op: Jmpop, offset: int)
    requires
        fits_signed(offset, 24),
    ensures
        branch_word(op, offset) == 0x9400_0000 + op.spec_bits() + if offset >= 0 {
            offset
        } else {
            0x100_0000 + offset
        },
{
    lemma2_to64();
    lemma2_to64_rest();
    lemma_field_of_unsigned(0x25, 6);
    lemma_field_of_signed(offset, 24);
    let opcode: u32 = 0x25;
    let kind: u32 = op.spec_bits();
    let low: u32 = field(offset, 24);
    assert(((opcode << 26u32) | kind | low) == 0x9400_0000 + kind + low) by (bit_vector)
        requires
            opcode == 0x25,
            kind == 0 || kind == 0x0100_0000,
            low < 0x0100_0000,
    ;
}

/// Assembling a source text twice at the same base address gives the same
/// bytes and the same labels, or the same failure.
pub proof fn lemma_assemble_is_deterministic(
    base: u32,
    source: Seq<char>,
    first: Result<(Vec<u8>, LabelTable), SourceError>,
    second: Result<(Vec<u8>, LabelTable), SourceError>,
)
    requires
        assembled_as(first, assemble_spec(base, source)),
        assembled_as(second, assemble_spec(base, source)),
    ensures
        first is Ok <==> second is Ok,
        first is Ok ==> first->Ok_0.0@ == second->Ok_0.0@ && first->Ok_0.1@ == second->Ok_0.1@,
        first is Err ==> first->Err_0@ == second->Err_0@,
{
}

} // verus!
