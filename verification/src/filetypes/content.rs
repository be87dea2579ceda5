//! What a page is made of: drawing instructions and the images they place.

use vstd::prelude::*;

verus! {

/// The identifier of an object of a document: its number and its generation.
pub type ObjectId = (u32, u16);

/// One drawing instruction of a page.
#[derive(Debug)]
pub enum Instruction {
    /// Opens a block of text.
    BeginText,
    /// Closes the block of text.
    EndText,
    /// Selects the document's font in the given size.
    SelectFont { size: i64 },
    /// Moves the text position by the given distances.
    MoveText { dx: i64, dy: i64 },
    /// Shows a line of text at the text position.
    ShowText { text: String },
    /// Saves the graphics state.
    SaveState,
    /// Restores the graphics state that was saved last.
    RestoreState,
    /// Maps the unit square to a rectangle of the given size whose lower
    /// left corner is at `(x, y)`.
    Transform { width: i64, height: i64, x: i64, y: i64 },
    /// Draws the image that the page's resources hold under the name `Im`
    /// followed by `id`.
    DrawImage { id: u32 },
}

/// An `Instruction` as a mathematical value.
pub enum InstructionView {
    BeginText,
    EndText,
    SelectFont { size: int },
    MoveText { dx: int, dy: int },
    ShowText { text: Seq<char> },
    SaveState,
    RestoreState,
    Transform { width: int, height: int, x: int, y: int },
    DrawImage { id: nat },
}

impl View for Instruction {
    type V = InstructionView;

    open spec fn view(&self) -> InstructionView {
        match self {
            Instruction::BeginText => InstructionView::BeginText,
            Instruction::EndText => InstructionView::EndText,
            Instruction::SelectFont { size } => InstructionView::SelectFont { size: *size as int },
            Instruction::MoveText { dx, dy } => InstructionView::MoveText {
                dx: *dx as int,
                dy: *dy as int,
            },
            Instruction::ShowText { text } => InstructionView::ShowText { text: text@ },
            Instruction::SaveState => InstructionView::SaveState,
            Instruction::RestoreState => InstructionView::RestoreState,
            Instruction::Transform { width, height, x, y } => InstructionView::Transform {
                width: *width as int,
                height: *height as int,
                x: *x as int,
                y: *y as int,
            },
            Instruction::DrawImage { id } => InstructionView::DrawImage { id: *id as nat },
        }
    }
}

/// The drawing instructions of one page, in the order in which they are
/// carried out.
#[derive(Debug)]
pub struct PageContent {
    pub instructions: Vec<Instruction>,
}

impl View for PageContent {
    type V = Seq<InstructionView>;

    open spec fn view(&self) -> Seq<InstructionView> {
        self.instructions@.map_values(|instruction: Instruction| instruction@)
    }
}

impl PageContent {
    /// Adds an instruction at the end.
    pub fn push(&mut self, instruction: Instruction)
        ensures
            final(self)@ == old(self)@.push(instruction@),
    {
        self.instructions.push(instruction);
        assert(self@ =~= old(self)@.push(instruction@));
    }
}

/// An image of the source document: where it is found again and what is
/// needed to draw it and to copy it.
#[derive(Debug)]
pub struct ImageDescriptor {
    /// The identifier of the image in the source document.
    pub id: ObjectId,
    /// The image data, as the source document stores it.
    pub content: Vec<u8>,
    /// The width in samples.
    pub width: u32,
    /// The height in samples.
    pub height: u32,
    /// The name of the colour space, where the source names one.
    pub color_space: Option<String>,
    /// The number of bits of each colour component, where the source says.
    pub bits_per_component: Option<i64>,
    /// The names of the filters that decode the data, in their order.
    pub filters: Option<Vec<String>>,
}

/// An `ImageDescriptor` as a mathematical value.
pub struct ImageView {
    pub id: (nat, nat),
    pub content: Seq<u8>,
    pub width: nat,
    pub height: nat,
    pub color_space: Option<Seq<char>>,
    pub bits_per_component: Option<int>,
    pub filters: Option<Seq<Seq<char>>>,
}

impl View for ImageDescriptor {
    type V = ImageView;

    open spec fn view(&self) -> ImageView {
        ImageView {
            id: (self.id.0 as nat, self.id.1 as nat),
            content: self.content@,
            width: self.width as nat,
            height: self.height as nat,
            color_space: match self.color_space {
                Some(name) => Some(name@),
                None => None,
            },
            bits_per_component: match self.bits_per_component {
                Some(bits) => Some(bits as int),
                None => None,
            },
            filters: match self.filters {
                Some(names) => Some(names.deep_view()),
                None => None,
            },
        }
    }
}

/// The images as mathematical values.
pub open spec fn image_views(images: Seq<ImageDescriptor>) -> Seq<ImageView> {
    images.map_values(|image: ImageDescriptor| image@)
}

} // verus!
