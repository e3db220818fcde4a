//! The two-pass assembler: a first pass that finds where each label lies, a
//! second that resolves the labels and writes the bytes.

use crate::fields::Bits;
use crate::instructions::{
    assemble_program, parse_source, program_view, run, AssembleError, Assembler, Instruction,
    InstructionView, ParseError, ParseFailure,
};
use crate::layout::{can_be_assembled, image, is_layout, lemma_assembly};
use crate::template::{is_plain_template, plain_template};
use crate::text::str_eq;
use std::collections::BTreeMap;
use vstd::prelude::*;
use vstd::string::*;

verus! {

/// The labels of a program with their addresses, in the order in which they
/// were entered. Where a name stands twice, the later entry counts.
///
/// The table is a list and not a `BTreeMap`: of a map whose keys are strings
/// vstd tells neither what `insert` leaves in it nor what `get` finds, so
/// nothing could be proved of the labels.
#[derive(Debug, Clone, PartialEq, Eq)]
pub struct LabelTable {
    pub entries: Vec<(String, u32)>,
}

/// The mapping that a list of entries stands for.
pub open spec fn table_of(entries: Seq<(String, u32)>) -> Map<Seq<char>, u32>
    decreases entries.len(),
{
    if entries.len() == 0 {
        Map::empty()
    } else {
        table_of(entries.drop_last()).insert(entries.last().0@, entries.last().1)
    }
}

impl View for LabelTable {
    type V = Map<Seq<char>, u32>;

    open spec fn view(&self) -> Map<Seq<char>, u32> {
        table_of(self.entries@)
    }
}

/// A name that none of the entries has is not in the mapping.
pub proof fn lemma_table_without(entries: Seq<(String, u32)>, name: Seq<char>)
    requires
        forall|i: int| 0 <= i < entries.len() ==> (#[trigger] entries[i]).0@ != name,
    ensures
        !table_of(entries).dom().contains(name),
    decreases entries.len(),
{
    if entries.len() > 0 {
        let before = entries.drop_last();
        assert forall|i: int| 0 <= i < before.len() implies (#[trigger] before[i]).0@ != name by {
            assert(before[i] == entries[i]);
        }
        lemma_table_without(before, name);
        assert(entries.last() == entries[entries.len() - 1]);
    }
}

/// The mapping gives a name the address of the last entry that has it.
pub proof fn lemma_table_last(entries: Seq<(String, u32)>, name: Seq<char>, at: int)
    requires
        0 <= at < entries.len(),
        entries[at].0@ == name,
        forall|i: int| at < i < entries.len() ==> (#[trigger] entries[i]).0@ != name,
    ensures
        table_of(entries).dom().contains(name),
        table_of(entries)[name] == entries[at].1,
    decreases entries.len(),
{
    if at < entries.len() - 1 {
        let before = entries.drop_last();
        assert forall|i: int| at < i < before.len() implies (#[trigger] before[i]).0@ != name by {
            assert(before[i] == entries[i]);
        }
        assert(before[at] == entries[at]);
        lemma_table_last(before, name, at);
        assert(entries.last() == entries[entries.len() - 1]);
    }
}

impl LabelTable {
    /// The table without labels.
    pub fn new() -> (table: Self)
        ensures
            table@ == Map::<Seq<char>, u32>::empty(),
    {
        LabelTable { entries: Vec::new() }
    }

    /// The address of the label `name`.
    pub fn get(&self, name: &str) -> (address: Option<u32>)
        ensures
            address == if self@.dom().contains(name@) {
                Some(self@[name@])
            } else {
                None
            },
    {
        let mut i: usize = self.entries.len();
        while i > 0
            invariant
                i <= self.entries.len(),
                forall|k: int| i <= k < self.entries.len() ==> (#[trigger] self.entries@[k]).0@ != name@,
            decreases i,
        {
            i -= 1;
            if str_eq(self.entries[i].0.as_str(), name) {
                proof {
                    lemma_table_last(self.entries@, name@, i as int);
                }
                return Some(self.entries[i].1);
            }
        }
        proof {
            lemma_table_without(self.entries@, name@);
        }
        None
    }

    /// Enters the label `name` at `address`.
    pub fn insert(&mut self, name: &str, address: u32)
        ensures
            final(self)@ == old(self)@.insert(name@, address),
    {
        let ghost before = self.entries@;
        let owned: String = name.to_owned();
        self.entries.push((owned, address));
        proof {
            assert(self.entries@.drop_last() =~= before);
        }
    }
}

/// A failure to assemble a source text.
#[derive(Debug, Clone, PartialEq, Eq)]
pub enum SourceError {
    /// A line is no instruction.
    Parse(ParseError),
    /// The program cannot be laid out or encoded.
    Assemble(AssembleError),
}

/// A failure to assemble, as a mathematical value.
pub enum SourceFailure {
    Parse(ParseFailure),
    Assemble(AssembleError),
}

impl View for SourceError {
    type V = SourceFailure;

    open spec fn view(&self) -> SourceFailure {
        match *self {
            SourceError::Parse(e) => SourceFailure::Parse(e@),
            SourceError::Assemble(e) => SourceFailure::Assemble(e),
        }
    }
}

/// The end of the address space: one more than the last 32-bit address.
pub open spec fn address_space() -> int {
    0x1_0000_0000
}

/// The address `offset` bytes after `base`, where it is a 32-bit address.
pub open spec fn address_after(base: u32, offset: int) -> Result<u32, AssembleError> {
    if base + offset <= u32::MAX {
        Ok((base + offset) as u32)
    } else {
        Err(AssembleError::AddressOverflow)
    }
}

/// The state of the pass that finds the labels.
pub struct LabelPass {
    pub base: u32,
    /// The bytes that the instructions so far take.
    pub offset: int,
    pub labels: Map<Seq<char>, u32>,
}

/// The first pass: it counts the words and records where each label lies.
pub struct LabelAssembler {
    base_addr: u32,
    labels: LabelTable,
    offset: u64,
}

impl View for LabelAssembler {
    type V = LabelPass;

    closed spec fn view(&self) -> LabelPass {
        LabelPass { base: self.base_addr, offset: self.offset as int, labels: self.labels@ }
    }
}

impl LabelAssembler {
    /// The pass before its first instruction, at `base_addr`.
    pub fn new(base_addr: u32) -> (pass: Self)
        ensures
            pass.wf(),
            pass@ == (LabelPass { base: base_addr, offset: 0, labels: Map::empty() }),
    {
        LabelAssembler { base_addr, labels: LabelTable::new(), offset: 0 }
    }

    /// The labels found.
    pub fn into_labels(self) -> (labels: LabelTable)
        ensures
            labels@ == self@.labels,
    {
        self.labels
    }
}

impl Assembler for LabelAssembler {
    closed spec fn wf(&self) -> bool {
        self.base_addr + self.offset <= address_space()
    }

    open spec fn address_of(state: LabelPass) -> Result<u32, AssembleError> {
        address_after(state.base, state.offset)
    }

    /// A label is recorded unless its name is taken.
    open spec fn labelled(state: LabelPass, name: Seq<char>, address: u32) -> Result<
        LabelPass,
        AssembleError,
    > {
        if state.labels.dom().contains(name) {
            Err(AssembleError::DuplicateLabel)
        } else {
            Ok(
                LabelPass {
                    base: state.base,
                    offset: state.offset,
                    labels: state.labels.insert(name, address),
                },
            )
        }
    }

    /// Every name resolves to the current address: a jump over no distance,
    /// which can always be encoded.
    open spec fn looked_up(state: LabelPass, name: Seq<char>) -> Result<u32, AssembleError> {
        Self::address_of(state)
    }

    /// A word is counted where it ends within the address space.
    open spec fn emitted(state: LabelPass, word: u32) -> Result<LabelPass, AssembleError> {
        if state.base + state.offset + 4 > address_space() {
            Err(AssembleError::AddressOverflow)
        } else {
            Ok(LabelPass { base: state.base, offset: state.offset + 4, labels: state.labels })
        }
    }

    fn current_address(&self) -> (r: Result<u32, AssembleError>) {
        let address: u64 = self.base_addr as u64 + self.offset;
        if address > 0xffff_ffff {
            Err(AssembleError::AddressOverflow)
        } else {
            Ok(address as u32)
        }
    }

    fn label(&mut self, name: &str, address: u32) -> (r: Result<(), AssembleError>) {
        match self.labels.get(name) {
            Some(_) => Err(AssembleError::DuplicateLabel),
            None => {
                self.labels.insert(name, address);
                Ok(())
            },
        }
    }

    fn lookup(&self, name: &str) -> (r: Result<u32, AssembleError>) {
        self.current_address()
    }

    fn emit<B: Bits>(&mut self, bits: B) -> (r: Result<(), AssembleError>) {
        if self.base_addr as u64 + self.offset + 4 > 0x1_0000_0000 {
            Err(AssembleError::AddressOverflow)
        } else {
            self.offset = self.offset + 4;
            Ok(())
        }
    }
}

/// The state of the pass that writes the bytes.
pub struct OutputPass {
    pub base: u32,
    pub labels: Map<Seq<char>, u32>,
    pub output: Seq<u8>,
}

/// The four bytes of a word, the most significant first.
pub open spec fn be_bytes(word: u32) -> Seq<u8> {
    seq![
        (word / 0x100_0000) as u8,
        ((word / 0x1_0000) % 0x100) as u8,
        ((word / 0x100) % 0x100) as u8,
        (word % 0x100) as u8,
    ]
}

/// The second pass: it resolves the labels from a table and writes each word
/// as four bytes.
pub struct OutputAssembler {
    base_addr: u32,
    labels: LabelTable,
    output: Vec<u8>,
}

impl View for OutputAssembler {
    type V = OutputPass;

    closed spec fn view(&self) -> OutputPass {
        OutputPass { base: self.base_addr, labels: self.labels@, output: self.output@ }
    }
}

impl OutputAssembler {
    /// The pass before its first instruction, at `base_addr`, with the labels
    /// that were found.
    pub fn new(base_addr: u32, labels: LabelTable) -> (pass: Self)
        ensures
            pass.wf(),
            pass@ == (OutputPass { base: base_addr, labels: labels@, output: Seq::empty() }),
    {
        OutputAssembler { base_addr, labels, output: Vec::new() }
    }

    /// The bytes written and the labels.
    pub fn into_parts(self) -> (parts: (Vec<u8>, LabelTable))
        ensures
            parts.0@ == self@.output,
            parts.1@ == self@.labels,
    {
        (self.output, self.labels)
    }
}

impl Assembler for OutputAssembler {
    closed spec fn wf(&self) -> bool {
        self.base_addr + self.output@.len() <= address_space()
    }

    open spec fn address_of(state: OutputPass) -> Result<u32, AssembleError> {
        address_after(state.base, state.output.len() as int)
    }

    /// A label must lie where the table says. One that the table does not
    /// hold is passed over.
    open spec fn labelled(state: OutputPass, name: Seq<char>, address: u32) -> Result<
        OutputPass,
        AssembleError,
    > {
        if state.labels.dom().contains(name) && state.labels[name] != address {
            Err(AssembleError::LabelMismatch)
        } else {
            Ok(state)
        }
    }

    /// A name resolves to its address in the table.
    open spec fn looked_up(state: OutputPass, name: Seq<char>) -> Result<u32, AssembleError> {
        if state.labels.dom().contains(name) {
            Ok(state.labels[name])
        } else {
            Err(AssembleError::UndefinedLabel)
        }
    }

    /// A word is written where it ends within the address space.
    open spec fn emitted(state: OutputPass, word: u32) -> Result<OutputPass, AssembleError> {
        if state.base + state.output.len() + 4 > address_space() {
            Err(AssembleError::AddressOverflow)
        } else {
            Ok(
                OutputPass {
                    base: state.base,
                    labels: state.labels,
                    output: state.output + be_bytes(word),
                },
            )
        }
    }

    fn current_address(&self) -> (r: Result<u32, AssembleError>) {
        let address: u64 = self.base_addr as u64 + self.output.len() as u64;
        if address > 0xffff_ffff {
            Err(AssembleError::AddressOverflow)
        } else {
            Ok(address as u32)
        }
    }

    fn label(&mut self, name: &str, address: u32) -> (r: Result<(), AssembleError>) {
        match self.labels.get(name) {
            Some(recorded) => {
                if recorded != address {
                    Err(AssembleError::LabelMismatch)
                } else {
                    Ok(())
                }
            },
            None => Ok(()),
        }
    }

    fn lookup(&self, name: &str) -> (r: Result<u32, AssembleError>) {
        match self.labels.get(name) {
            Some(address) => Ok(address),
            None => Err(AssembleError::UndefinedLabel),
        }
    }

    fn emit<B: Bits>(&mut self, bits: B) -> (r: Result<(), AssembleError>) {
        if self.base_addr as u64 + self.output.len() as u64 + 4 > 0x1_0000_0000 {
            return Err(AssembleError::AddressOverflow);
        }
        let word: u32 = bits.bits();
        let ghost before = self.output@;
        proof {
            assert(word >> 24u32 == word / 0x100_0000) by (bit_vector);
            assert((word >> 16u32) & 0xff == (word / 0x1_0000) % 0x100) by (bit_vector);
            assert((word >> 8u32) & 0xff == (word / 0x100) % 0x100) by (bit_vector);
            assert(word & 0xff == word % 0x100) by (bit_vector);
        }
        self.output.push((word >> 24u32) as u8);
        self.output.push(((word >> 16u32) & 0xff) as u8);
        self.output.push(((word >> 8u32) & 0xff) as u8);
        self.output.push((word & 0xff) as u8);
        proof {
            assert(self.output@ =~= before + be_bytes(word));
        }
        Ok(())
    }
}

/// The first pass over a program at `base`.
pub open spec fn discovered(base: u32, program: Seq<InstructionView>) -> Result<
    LabelPass,
    AssembleError,
> {
    run::<LabelAssembler>(LabelPass { base, offset: 0, labels: Map::empty() }, program)
}

/// The second pass over a program at `base`, with the labels of the first.
pub open spec fn written(
    base: u32,
    labels: Map<Seq<char>, u32>,
    program: Seq<InstructionView>,
) -> Result<OutputPass, AssembleError> {
    run::<OutputAssembler>(OutputPass { base, labels, output: Seq::empty() }, program)
}

/// The bytes and labels of a program at `base`: the second pass after the
/// first, or the first failure of either.
pub open spec fn assemble_program_spec(base: u32, program: Seq<InstructionView>) -> Result<
    (Seq<u8>, Map<Seq<char>, u32>),
    AssembleError,
> {
    match discovered(base, program) {
        Err(e) => Err(e),
        Ok(first) => match written(base, first.labels, program) {
            Err(e) => Err(e),
            Ok(second) => Ok((second.output, second.labels)),
        },
    }
}

/// The bytes and labels of a source text at `base`.
pub open spec fn assemble_spec(base: u32, source: Seq<char>) -> Result<
    (Seq<u8>, Map<Seq<char>, u32>),
    SourceFailure,
> {
    match parse_source(source) {
        Err(e) => Err(SourceFailure::Parse(e)),
        Ok(program) => match assemble_program_spec(base, program) {
            Err(e) => Err(SourceFailure::Assemble(e)),
            Ok(out) => Ok(out),
        },
    }
}

/// Whether a result is the one expected, bytes for bytes and label for label.
pub open spec fn assembled_as(
    r: Result<(Vec<u8>, LabelTable), SourceError>,
    expected: Result<(Seq<u8>, Map<Seq<char>, u32>), SourceFailure>,
) -> bool {
    match expected {
        Ok((bytes, labels)) => r is Ok && r->Ok_0.0@ == bytes && r->Ok_0.1@ == labels,
        Err(e) => r is Err && r->Err_0@ == e,
    }
}

/// Assembles the program: both passes over the same instructions.
pub fn assemble_instructions(base_addr: u32, instructions: &Vec<Instruction>) -> (r: Result<
    (Vec<u8>, LabelTable),
    AssembleError,
>)
    ensures
        match assemble_program_spec(base_addr, program_view(instructions@)) {
            Ok((bytes, labels)) => r is Ok && r->Ok_0.0@ == bytes && r->Ok_0.1@ == labels,
            Err(e) => r == Err::<(Vec<u8>, LabelTable), AssembleError>(e),
        },
        r is Ok <==> can_be_assembled(base_addr, program_view(instructions@)),
        r is Ok ==> is_layout(base_addr, program_view(instructions@), r->Ok_0.1@) && r->Ok_0.0@
            == image(r->Ok_0.1@, base_addr as int, program_view(instructions@)),
{
    proof {
        lemma_assembly(base_addr, program_view(instructions@));
    }
    let mut label_assembler: LabelAssembler = LabelAssembler::new(base_addr);
    assemble_program(&mut label_assembler, instructions.as_slice())?;
    let mut output_assembler: OutputAssembler = OutputAssembler::new(
        base_addr,
        label_assembler.into_labels(),
    );
    assemble_program(&mut output_assembler, instructions.as_slice())?;
    Ok(output_assembler.into_parts())
}

/// Assembles the source text at `base_addr` into its bytes and its labels.
pub fn assemble(base_addr: u32, source: &str) -> (r: Result<(Vec<u8>, LabelTable), SourceError>)
    ensures
        assembled_as(r, assemble_spec(base_addr, source@)),
        r is Ok <==> parse_source(source@) is Ok && can_be_assembled(
            base_addr,
            parse_source(source@)->Ok_0,
        ),
        r is Ok ==> is_layout(base_addr, parse_source(source@)->Ok_0, r->Ok_0.1@) && r->Ok_0.0@
            == image(r->Ok_0.1@, base_addr as int, parse_source(source@)->Ok_0),
{
    let instructions: Vec<Instruction> = match Instruction::parse(source) {
        Ok(instructions) => instructions,
        Err(e) => {
            return Err(SourceError::Parse(e));
        },
    };
    match assemble_instructions(base_addr, &instructions) {
        Ok(out) => Ok(out),
        Err(e) => Err(SourceError::Assemble(e)),
    }
}

/// The type `tera::Error`, which is carried through as it comes.
#[verifier::external_type_specification]
#[verifier::external_body]
pub struct ExTemplateFault(tera::Error);

/// A failure to assemble a template.
#[derive(Debug)]
pub enum TemplateError {
    /// The template asks for more than plain substitution, and was not handed
    /// to the expander.
    NotPlain,
    /// The template cannot be expanded: it names a parameter that is not
    /// given, or a word that is no name.
    Template(tera::Error),
    /// The expanded text cannot be assembled.
    Assemble(SourceError),
}

/// The text that `tera::Tera::one_off` makes of a template of plain
/// substitution and the parameters, or `None` where it gives an error.
pub uninterp spec fn expanded_text(template: Seq<char>, parameters: Map<String, u64>) -> Option<
    Seq<char>,
>;

/// Expands `template` with `tera::Tera::one_off`, in a context that holds
/// each parameter under its name, without escaping. Only a template of plain
/// substitution is handed over: the expander's expressions and tags can fail
/// to come back, and can read the environment. Of a plain template the text
/// that comes back, or that none does, depends on the template and the
/// parameters alone; what that text is, is left to the expander.
#[verifier::external_body]
fn expand_template(template: &str, parameters: &BTreeMap<String, u64>) -> (r: Result<
    String,
    tera::Error,
>)
    requires
        plain_template(template@),
    ensures
        match expanded_text(template@, parameters@) {
            Some(text) => r is Ok && r->Ok_0@ == text,
            None => r is Err,
        },
{
    let mut context = tera::Context::new();
    for (key, value) in parameters.iter() {
        context.insert(key, value);
    }
    tera::Tera::one_off(template, &context, false)
}

/// Assembles what a template expanded to, or hands on why it did not expand.
pub fn assemble_expanded(base_addr: u32, expanded: Result<String, tera::Error>) -> (r: Result<
    (Vec<u8>, LabelTable),
    TemplateError,
>)
    ensures
        match expanded {
            Err(fault) => r is Err && r->Err_0 is Template && r->Err_0->Template_0 == fault,
            Ok(source) => match assemble_spec(base_addr, source@) {
                Ok((bytes, labels)) => r is Ok && r->Ok_0.0@ == bytes && r->Ok_0.1@ == labels,
                Err(e) => r is Err && r->Err_0 is Assemble && r->Err_0->Assemble_0@ == e,
            },
        },
{
    match expanded {
        Err(fault) => Err(TemplateError::Template(fault)),
        Ok(source) => match assemble(base_addr, source.as_str()) {
            Ok(out) => Ok(out),
            Err(e) => Err(TemplateError::Assemble(e)),
        },
    }
}

/// What assembling a template gives: a template that is not plain
/// substitution is refused, one that does not expand fails, and the text of
/// one that expands is assembled at `base`.
pub open spec fn assemble_template_spec(
    base: u32,
    template: Seq<char>,
    parameters: Map<String, u64>,
    r: Result<(Vec<u8>, LabelTable), TemplateError>,
) -> bool {
    if !plain_template(template) {
        r is Err && r->Err_0 is NotPlain
    } else {
        match expanded_text(template, parameters) {
            None => r is Err && r->Err_0 is Template,
            Some(text) => match assemble_spec(base, text) {
                Ok((bytes, labels)) => r is Ok && r->Ok_0.0@ == bytes && r->Ok_0.1@ == labels,
                Err(e) => r is Err && r->Err_0 is Assemble && r->Err_0->Assemble_0@ == e,
            },
        }
    }
}

/// Expands the template with the parameters and assembles the text that
/// comes of it at `base_addr`. The template must be plain substitution: text
/// in which `{{ name }}` stands for the value of the parameter `name`. Any
/// other template is refused before it is expanded.
pub fn assemble_template(
    base_addr: u32,
    template: &str,
    parameters: &BTreeMap<String, u64>,
) -> (r: Result<(Vec<u8>, LabelTable), TemplateError>)
    ensures
        assemble_template_spec(base_addr, template@, parameters@, r),
{
    if !is_plain_template(template) {
        return Err(TemplateError::NotPlain);
    }
    assemble_expanded(base_addr, expand_template(template, parameters))
}

} // verus!
