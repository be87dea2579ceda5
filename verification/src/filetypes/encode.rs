//! Drawing instructions as operators with their operands, and as the bytes
//! of a content stream.

use vstd::prelude::*;
use vstd::string::*;
use crate::text::{decimal, decimal_string};
use crate::filetypes::content::{Instruction, InstructionView, PageContent};

verus! {

/// What an operator works on.
#[derive(Debug)]
pub enum Operand {
    /// A whole number.
    Integer(i64),
    /// A name.
    Name(String),
    /// A piece of text.
    Text(String),
}

/// An `Operand` as a mathematical value.
pub enum OperandView {
    Integer(int),
    Name(Seq<char>),
    Text(Seq<char>),
}

impl View for Operand {
    type V = OperandView;

    open spec fn view(&self) -> OperandView {
        match self {
            Operand::Integer(number) => OperandView::Integer(*number as int),
            Operand::Name(name) => OperandView::Name(name@),
            Operand::Text(text) => OperandView::Text(text@),
        }
    }
}

/// An operator of a content stream with what it works on.
#[derive(Debug)]
pub struct Operation {
    pub operator: String,
    pub operands: Vec<Operand>,
}

/// An `Operation` as a mathematical value.
pub struct OperationView {
    pub operator: Seq<char>,
    pub operands: Seq<OperandView>,
}

impl View for Operation {
    type V = OperationView;

    open spec fn view(&self) -> OperationView {
        OperationView {
            operator: self.operator@,
            operands: self.operands@.map_values(|operand: Operand| operand@),
        }
    }
}

/// The operations as mathematical values.
pub open spec fn operation_views(operations: Seq<Operation>) -> Seq<OperationView> {
    operations.map_values(|operation: Operation| operation@)
}

/// The name under which a page's resources hold the image with this number.
pub open spec fn image_name(id: nat) -> Seq<char> {
    "Im"@ + decimal(id)
}

/// The name under which a page's resources hold the font.
pub open spec fn font_name() -> Seq<char> {
    "F1"@
}

/// The operator and the operands that stand for an instruction.
pub open spec fn operation_of(instruction: InstructionView) -> OperationView {
    match instruction {
        InstructionView::BeginText => OperationView { operator: "BT"@, operands: seq![] },
        InstructionView::EndText => OperationView { operator: "ET"@, operands: seq![] },
        InstructionView::SelectFont { size } => OperationView {
            operator: "Tf"@,
            operands: seq![OperandView::Name(font_name()), OperandView::Integer(size)],
        },
        InstructionView::MoveText { dx, dy } => OperationView {
            operator: "Td"@,
            operands: seq![OperandView::Integer(dx), OperandView::Integer(dy)],
        },
        InstructionView::ShowText { text } => OperationView {
            operator: "Tj"@,
            operands: seq![OperandView::Text(text)],
        },
        InstructionView::SaveState => OperationView { operator: "q"@, operands: seq![] },
        InstructionView::RestoreState => OperationView { operator: "Q"@, operands: seq![] },
        InstructionView::Transform { width, height, x, y } => OperationView {
            operator: "cm"@,
            operands: seq![
                OperandView::Integer(width),
                OperandView::Integer(0),
                OperandView::Integer(0),
                OperandView::Integer(height),
                OperandView::Integer(x),
                OperandView::Integer(y),
            ],
        },
        InstructionView::DrawImage { id } => OperationView {
            operator: "Do"@,
            operands: seq![OperandView::Name(image_name(id))],
        },
    }
}

/// The operations that stand for the instructions, one for one.
pub open spec fn operations_of(instructions: Seq<InstructionView>) -> Seq<OperationView> {
    instructions.map_values(|instruction: InstructionView| operation_of(instruction))
}

/// The name under which a page's resources hold the image with this number.
pub fn image_resource_name(id: u32) -> (name: String)
    ensures
        name@ == image_name(id as nat),
{
    let mut name = "Im".to_owned();
    let digits = decimal_string(id as usize);
    name.append(digits.as_str());
    name
}

/// The operator and the operands that stand for an instruction.
pub fn operation(instruction: &Instruction) -> (made: Operation)
    ensures
        made@ == operation_of(instruction@),
{
    let made = match instruction {
        Instruction::BeginText => Operation { operator: "BT".to_owned(), operands: vec![] },
        Instruction::EndText => Operation { operator: "ET".to_owned(), operands: vec![] },
        Instruction::SelectFont { size } => Operation {
            operator: "Tf".to_owned(),
            operands: vec![Operand::Name("F1".to_owned()), Operand::Integer(*size)],
        },
        Instruction::MoveText { dx, dy } => Operation {
            operator: "Td".to_owned(),
            operands: vec![Operand::Integer(*dx), Operand::Integer(*dy)],
        },
        Instruction::ShowText { text } => Operation {
            operator: "Tj".to_owned(),
            operands: vec![Operand::Text(text.clone())],
        },
        Instruction::SaveState => Operation { operator: "q".to_owned(), operands: vec![] },
        Instruction::RestoreState => Operation { operator: "Q".to_owned(), operands: vec![] },
        Instruction::Transform { width, height, x, y } => Operation {
            operator: "cm".to_owned(),
            operands: vec![
                Operand::Integer(*width),
                Operand::Integer(0),
                Operand::Integer(0),
                Operand::Integer(*height),
                Operand::Integer(*x),
                Operand::Integer(*y),
            ],
        },
        Instruction::DrawImage { id } => Operation {
            operator: "Do".to_owned(),
            operands: vec![Operand::Name(image_resource_name(*id))],
        },
    };
    assert(made@.operands =~= operation_of(instruction@).operands);
    made
}

/// The operations that stand for the instructions of a page, one for one.
pub fn operations(page: &PageContent) -> (made: Vec<Operation>)
    ensures
        operation_views(made@) == operations_of(page@),
{
    let mut made: Vec<Operation> = Vec::new();
    let mut i: usize = 0;
    while i < page.instructions.len()
        invariant
            i <= page.instructions.len(),
            made.len() == i,
            forall|j: int| 0 <= j < i ==> (#[trigger] made[j])@ == operation_of(page@[j]),
        decreases page.instructions.len() - i,
    {
        made.push(operation(&page.instructions[i]));
        i += 1;
    }
    assert(operation_views(made@) =~= operations_of(page@));
    made
}

/// The bytes of the content stream that holds the operations, or `None`
/// where they cannot be written.
pub uninterp spec fn encoded_operations(operations: Seq<OperationView>) -> Option<Seq<u8>>;

/// Calls `lopdf::content::Content::encode` on the operations, whose operands
/// are handed over as `lopdf::Object`s: whole numbers as `Integer`, names as
/// `Name`, text as a literal string. It writes each operation as its
/// operands and its operator, one operation to a line. The contract gives
/// the outcome the name `encoded_operations` and claims nothing else of it.
#[verifier::external_body]
fn encode_operations(operations: &Vec<Operation>) -> (encoded: Result<Vec<u8>, lopdf::Error>)
    ensures
        match encoded {
            Ok(bytes) => encoded_operations(operation_views(operations@)) == Some(bytes@),
            Err(_) => encoded_operations(operation_views(operations@)) is None,
        },
{
    let operations = operations.iter().map(|operation| {
        let operands = operation.operands.iter().map(|operand| match operand {
            Operand::Integer(number) => lopdf::Object::Integer(*number),
            Operand::Name(name) => lopdf::Object::Name(name.clone().into_bytes()),
            Operand::Text(text) => lopdf::Object::string_literal(text.clone()),
        }).collect();
        lopdf::content::Operation::new(&operation.operator, operands)
    }).collect::<Vec<_>>();
    lopdf::content::Content { operations }.encode()
}

/// An error of the crate `lopdf`.
#[verifier::external_type_specification]
#[verifier::external_body]
pub struct ExLopdfError(lopdf::Error);

/// The bytes of the content stream that draws a page, or `None` where the
/// instructions cannot be written.
pub open spec fn encoded_page(page: Seq<InstructionView>) -> Option<Seq<u8>> {
    encoded_operations(operations_of(page))
}

/// Writes the instructions of a page as the bytes of a content stream.
pub fn encode_page(page: &PageContent) -> (encoded: Option<Vec<u8>>)
    ensures
        match encoded {
            Some(bytes) => encoded_page(page@) == Some(bytes@),
            None => encoded_page(page@) is None,
        },
{
    let made = operations(page);
    match encode_operations(&made) {
        Ok(bytes) => Some(bytes),
        Err(_) => None,
    }
}

} // verus!
