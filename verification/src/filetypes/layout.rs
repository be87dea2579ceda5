//! Laying text and images out on pages: word wrap, paragraph spacing, page
//! breaks and the placing of images, in one pass.

use vstd::prelude::*;
use vstd::string::*;
use crate::options::PdfOptions;
use crate::text::{char_is_whitespace, chars_of, is_whitespace_char, split_words, words};
use crate::filetypes::content::{
    image_views, ImageDescriptor, ImageView, Instruction, InstructionView, PageContent,
};

verus! {

/// The distance of text and images from the left edge of the page.
pub const LEFT_MARGIN: i64 = 50;

/// Where the text position is put when a page is begun.
pub const PAGE_TOP: i64 = 750;

/// The size in which the font is selected.
pub const FONT_SIZE: i64 = 12;

/// The distance that is left free below an image.
pub const IMAGE_GAP: i64 = 10;

/// The width that every character is taken to have.
pub const CHAR_WIDTH: u32 = 7;

/// The cursor never sinks below this.
pub const CURSOR_FLOOR: i64 = -0x2_0000_0000;

/// The instructions that every page begins with.
pub open spec fn fresh_page() -> Seq<InstructionView> {
    seq![
        InstructionView::BeginText,
        InstructionView::SelectFont { size: FONT_SIZE as int },
        InstructionView::MoveText { dx: LEFT_MARGIN as int, dy: PAGE_TOP as int },
    ]
}

/// The instructions that a page begun for an image holds before the image.
pub open spec fn image_page(o: PdfOptions) -> Seq<InstructionView> {
    fresh_page() + seq![
        InstructionView::BeginText,
        InstructionView::MoveText { dx: LEFT_MARGIN as int, dy: o.max_y_pos as int },
        InstructionView::EndText,
    ]
}

/// The width that a line is estimated to have.
pub open spec fn text_width(line: Seq<char>) -> int {
    line.len() * CHAR_WIDTH
}

/// The line with one more word: the word alone where the line is empty, else
/// the line, a space and the word.
pub open spec fn join_word(line: Seq<char>, word: Seq<char>) -> Seq<char> {
    if line.len() == 0 {
        word
    } else {
        line + seq![' '] + word
    }
}

/// The factor by which an image is drawn, as a fraction.
#[derive(Clone, Copy, Debug, PartialEq, Eq, Structural)]
pub struct ImageScale {
    pub numerator: u32,
    pub denominator: u32,
}

/// The largest factor, not above one, with which an image of the given size
/// is neither wider nor taller than the options allow, as numerator and
/// denominator.
pub open spec fn scale_of(width: int, height: int, max_width: int, max_height: int) -> (int, int) {
    if width <= max_width && height <= max_height {
        (1, 1)
    } else if width > 0 && max_width * height <= max_height * width {
        (max_width, width)
    } else {
        (max_height, height)
    }
}

/// A length under a scale, rounded down to a whole point.
pub open spec fn scaled(length: int, scale: (int, int)) -> int {
    (length * scale.0) / scale.1
}

/// The pages laid out so far and the height at which the next thing is
/// placed, as a mathematical value.
pub struct LayoutView {
    pub pages: Seq<Seq<InstructionView>>,
    pub y_pos: int,
}

impl LayoutView {
    /// There is a page to draw on, and the cursor is within its limits.
    pub open spec fn wf(self) -> bool {
        &&& self.pages.len() > 0
        &&& CURSOR_FLOOR <= self.y_pos <= u32::MAX
    }

    /// The state with these instructions added to the last page.
    pub open spec fn append(self, instructions: Seq<InstructionView>) -> Self {
        LayoutView {
            pages: self.pages.update(self.pages.len() - 1, self.pages.last() + instructions),
            ..self
        }
    }

    /// The state with one more page, the cursor at `y_pos`.
    pub open spec fn open_page(self, page: Seq<InstructionView>, y_pos: int) -> Self {
        LayoutView { pages: self.pages.push(page), y_pos }
    }

    /// The state after a line has been shown and the cursor moved down by
    /// `line_height`.
    pub open spec fn add_line(self, line: Seq<char>, line_height: int) -> Self {
        LayoutView {
            y_pos: self.y_pos - line_height,
            ..self.append(
                seq![
                    InstructionView::ShowText { text: line },
                    InstructionView::MoveText { dx: 0, dy: -line_height },
                ],
            )
        }
    }

    /// The state after a page has been begun where the cursor had come down
    /// to the lower limit: nothing is shown at or below it.
    pub open spec fn check_new_page(self, o: PdfOptions) -> Self {
        if self.y_pos <= o.min_y_pos {
            self.open_page(fresh_page(), o.max_y_pos as int)
        } else {
            self
        }
    }

    /// The state after the space that follows a paragraph: the cursor moves
    /// down, and where it comes down to the lower limit the block of text
    /// is closed and a page begun.
    pub open spec fn paragraph_spacing(self, o: PdfOptions) -> Self {
        let moved = LayoutView {
            y_pos: self.y_pos - o.paragraph_spacing,
            ..self.append(
                seq![InstructionView::MoveText { dx: 0, dy: -(o.paragraph_spacing as int) }],
            )
        };
        if moved.y_pos <= o.min_y_pos {
            moved.append(
                seq![
                    InstructionView::EndText,
                    InstructionView::BeginText,
                    InstructionView::MoveText { dx: LEFT_MARGIN as int, dy: o.max_y_pos as int },
                ],
            ).open_page(fresh_page(), o.max_y_pos as int)
        } else {
            moved
        }
    }

    /// The state after the block of text has been closed.
    pub open spec fn end_text(self) -> Self {
        self.append(seq![InstructionView::EndText])
    }

    /// The state and the line in the making after one more word: where the
    /// line with the word would be too wide, the line as it was is shown and
    /// the word begins the next one.
    pub open spec fn place_word(self, o: PdfOptions, line: Seq<char>, word: Seq<char>) -> (
        LayoutView,
        Seq<char>,
    ) {
        let candidate = join_word(line, word);
        if text_width(candidate) > o.max_width {
            (self.add_line(line, o.line_height as int).check_new_page(o), word)
        } else {
            (self.check_new_page(o), candidate)
        }
    }

    /// The state and the line in the making after the words, one after the
    /// other.
    pub open spec fn place_words(self, o: PdfOptions, line: Seq<char>, words: Seq<Seq<char>>) -> (
        LayoutView,
        Seq<char>,
    )
        decreases words.len(),
    {
        if words.len() == 0 {
            (self, line)
        } else {
            let (state, pending) = self.place_words(o, line, words.drop_last());
            state.place_word(o, pending, words.last())
        }
    }

    /// The state after a paragraph of these words: the words are placed, what
    /// is left of the last line is shown without moving the cursor, and the
    /// paragraph's space follows.
    pub open spec fn paragraph(self, o: PdfOptions, words: Seq<Seq<char>>) -> Self {
        let (state, pending) = self.place_words(o, Seq::empty(), words);
        let flushed = if pending.len() > 0 {
            state.add_line(pending, 0)
        } else {
            state
        };
        flushed.paragraph_spacing(o)
    }

    /// The state after the paragraphs, one after the other.
    pub open spec fn paragraphs(self, o: PdfOptions, texts: Seq<Seq<char>>) -> Self
        decreases texts.len(),
    {
        if texts.len() == 0 {
            self
        } else {
            self.paragraphs(o, texts.drop_last()).paragraph(o, words(texts.last()))
        }
    }

    /// The state after an image has been placed: scaled down where it is too
    /// large, on a page of its own where it does not fit above the lower
    /// limit, at the left margin with its top at the cursor, and with the
    /// cursor below it.
    pub open spec fn add_image(self, o: PdfOptions, image: ImageView) -> Self {
        let scale = scale_of(
            image.width as int,
            image.height as int,
            o.max_image_width as int,
            o.max_image_height as int,
        );
        let width = scaled(image.width as int, scale);
        let height = scaled(image.height as int, scale);
        let paged = if self.y_pos - height < o.min_y_pos {
            self.open_page(image_page(o), o.max_y_pos as int)
        } else {
            self
        };
        LayoutView {
            y_pos: paged.y_pos - (height + IMAGE_GAP),
            ..paged.append(
                seq![
                    InstructionView::SaveState,
                    InstructionView::Transform {
                        width,
                        height,
                        x: LEFT_MARGIN as int,
                        y: paged.y_pos - height,
                    },
                    InstructionView::DrawImage { id: image.id.0 },
                    InstructionView::RestoreState,
                ],
            )
        }
    }

    /// The state after the images, one after the other.
    pub open spec fn add_images(self, o: PdfOptions, images: Seq<ImageView>) -> Self
        decreases images.len(),
    {
        if images.len() == 0 {
            self
        } else {
            self.add_images(o, images.drop_last()).add_image(o, images.last())
        }
    }

    /// The state after one unit of the source: its paragraphs, the end of the
    /// text, its images, and the end of the text once more.
    pub open spec fn content(
        self,
        o: PdfOptions,
        paragraphs: Seq<Seq<char>>,
        images: Seq<ImageView>,
    ) -> Self {
        self.paragraphs(o, paragraphs).end_text().add_images(o, images).end_text()
    }
}


/// The instructions as mathematical values.
pub open spec fn instruction_views(instructions: Seq<Instruction>) -> Seq<InstructionView> {
    instructions.map_values(|instruction: Instruction| instruction@)
}

/// Adding instructions in two steps is adding them in one.
pub proof fn lemma_append_twice(
    state: LayoutView,
    first: Seq<InstructionView>,
    second: Seq<InstructionView>,
)
    requires
        state.pages.len() > 0,
    ensures
        state.append(first).append(second) == state.append(first + second),
{
    assert((state.pages.last() + first) + second =~= state.pages.last() + (first + second));
    assert(state.append(first).append(second).pages =~= state.append(first + second).pages);
}

/// What the image scale is like: a fraction that is not above one, under
/// which the image is neither enlarged nor larger than allowed, and which is
/// one where the image fits as it is.
pub proof fn lemma_scale(width: int, height: int, max_width: int, max_height: int)
    requires
        0 <= width,
        0 <= height,
        0 <= max_width,
        0 <= max_height,
    ensures
        ({
            let scale = scale_of(width, height, max_width, max_height);
            &&& 0 <= scale.0 <= scale.1
            &&& 0 < scale.1
            &&& 0 <= scaled(width, scale) <= width
            &&& 0 <= scaled(height, scale) <= height
            &&& scaled(width, scale) <= max_width
            &&& scaled(height, scale) <= max_height
            &&& (width <= max_width && height <= max_height) ==> scale == (1int, 1int) && scaled(
                width,
                scale,
            ) == width && scaled(height, scale) == height
        }),
{
    let scale = scale_of(width, height, max_width, max_height);
    if width <= max_width && height <= max_height {
        assert(width * 1 / 1 == width);
        assert(height * 1 / 1 == height);
    } else if width > 0 && max_width * height <= max_height * width {
        assert(max_width <= width) by (nonlinear_arith)
            requires
                width > 0,
                0 <= height,
                0 <= max_width,
                0 <= max_height,
                max_width * height <= max_height * width,
                !(width <= max_width && height <= max_height),
        ;
        assert(width * max_width == max_width * width && height * max_width == max_width * height)
            by (nonlinear_arith);
        lemma_scaled_down(width, max_width, width, max_width);
        lemma_scaled_down(height, max_width, width, max_height);
    } else {
        assert(max_height < height && height > 0) by (nonlinear_arith)
            requires
                0 <= width,
                0 <= height,
                0 <= max_width,
                0 <= max_height,
                !(width > 0 && max_width * height <= max_height * width),
                !(width <= max_width && height <= max_height),
        ;
        assert(width * max_height <= max_width * height) by (nonlinear_arith)
            requires
                0 <= width,
                0 <= height,
                0 <= max_width,
                0 <= max_height,
                !(width > 0 && max_width * height <= max_height * width),
        ;
        assert(height * max_height == max_height * height) by (nonlinear_arith);
        lemma_scaled_down(height, max_height, height, max_height);
        lemma_scaled_down(width, max_height, height, max_width);
    }
}

/// A length times a fraction that is not above one, rounded down, is not
/// above the length, nor above any bound that the exact product is not above.
proof fn lemma_scaled_down(length: int, numerator: int, denominator: int, bound: int)
    requires
        0 <= length,
        0 <= numerator <= denominator,
        0 < denominator,
        length * numerator <= bound * denominator,
    ensures
        0 <= (length * numerator) / denominator <= length,
        (length * numerator) / denominator <= bound,
{
    let product = length * numerator;
    let quotient = product / denominator;
    vstd::arithmetic::div_mod::lemma_fundamental_div_mod(product, denominator);
    vstd::arithmetic::div_mod::lemma_mod_pos_bound(product, denominator);
    assert(0 <= product <= length * denominator) by (nonlinear_arith)
        requires
            0 <= length,
            0 <= numerator <= denominator,
            product == length * numerator,
    ;
    assert(0 <= quotient <= length && quotient <= bound) by (nonlinear_arith)
        requires
            product == denominator * quotient + product % denominator,
            0 <= product % denominator < denominator,
            0 <= product <= length * denominator,
            product <= bound * denominator,
            0 < denominator,
    ;
}

/// The product of two lengths fits into 64 bits.
proof fn lemma_product_fits(a: u32, b: u32)
    ensures
        a * b <= u64::MAX,
{
    assert(a * b <= 0xffff_ffff * 0xffff_ffff) by (nonlinear_arith)
        requires
            0 <= a <= 0xffff_ffff,
            0 <= b <= 0xffff_ffff,
    ;
}

/// The pages laid out so far and the height at which the next thing is
/// placed.
#[derive(Debug)]
pub struct PagesState {
    /// The pages, in their order; the last one is the one that is written.
    pub pages: Vec<PageContent>,
    /// The cursor: the height of the next line or of the top of the next
    /// image.
    pub y_pos: i64,
}

impl View for PagesState {
    type V = LayoutView;

    open spec fn view(&self) -> LayoutView {
        LayoutView {
            pages: self.pages@.map_values(|page: PageContent| page@),
            y_pos: self.y_pos as int,
        }
    }
}

/// The instructions that every page begins with.
pub fn new_page_operations() -> (instructions: Vec<Instruction>)
    ensures
        instruction_views(instructions@) == fresh_page(),
{
    let instructions = vec![
        Instruction::BeginText,
        Instruction::SelectFont { size: FONT_SIZE },
        Instruction::MoveText { dx: LEFT_MARGIN, dy: PAGE_TOP },
    ];
    assert(instruction_views(instructions@) =~= fresh_page());
    instructions
}

impl PagesState {
    /// One fresh page, the cursor at the upper limit.
    pub fn new(options: &PdfOptions) -> (state: Self)
        ensures
            state@ == (LayoutView { pages: seq![fresh_page()], y_pos: options.max_y_pos as int }),
            state@.wf(),
    {
        let page = PageContent { instructions: new_page_operations() };
        let state = PagesState { pages: vec![page], y_pos: options.max_y_pos as i64 };
        assert(state@.pages =~= seq![fresh_page()]);
        state
    }

    /// Adds an instruction to the last page.
    fn emit(&mut self, instruction: Instruction)
        requires
            old(self)@.pages.len() > 0,
        ensures
            final(self)@ == old(self)@.append(seq![instruction@]),
    {
        let last = self.pages.len() - 1;
        self.pages[last].push(instruction);
        proof {
            let before = old(self)@;
            assert(self.pages.len() == old(self).pages.len());
            assert(self.pages[last as int]@ == old(self).pages[last as int]@.push(instruction@));
            assert(before.pages.last() + seq![instruction@] =~= before.pages.last().push(
                instruction@,
            ));
            assert forall|i: int| 0 <= i < last implies self.pages[i] == old(self).pages[i] by {}
            assert(self@.pages =~= before.append(seq![instruction@]).pages);
        }
    }

    /// Begins a page with these instructions.
    fn open(&mut self, instructions: Vec<Instruction>, y_pos: i64)
        ensures
            final(self)@ == old(self)@.open_page(instruction_views(instructions@), y_pos as int),
    {
        self.pages.push(PageContent { instructions });
        self.y_pos = y_pos;
        assert(self@.pages =~= old(self)@.open_page(
            instruction_views(instructions@),
            y_pos as int,
        ).pages);
    }
}

/// The width that a line is estimated to have: so much for each character.
pub fn string_width(line: &str) -> (width: u128)
    ensures
        width == text_width(line@),
{
    let count = line.unicode_len();
    let each = CHAR_WIDTH as u128;
    assert(count * each <= u128::MAX) by (nonlinear_arith)
        requires
            0 <= count <= u64::MAX,
            each == 7,
    ;
    (count as u128) * each
}

/// Shows a line on the last page and moves the cursor down.
fn add_line_to_page(state: &mut PagesState, line: &str, line_height: u32)
    requires
        old(state)@.pages.len() > 0,
        old(state).y_pos - line_height >= i64::MIN,
    ensures
        final(state)@ == old(state)@.add_line(line@, line_height as int),
{
    let ghost before = state@;
    let down = -(line_height as i64);
    state.emit(Instruction::ShowText { text: line.to_owned() });
    state.emit(Instruction::MoveText { dx: 0, dy: down });
    state.y_pos = state.y_pos - line_height as i64;
    proof {
        let shown = seq![InstructionView::ShowText { text: line@ }];
        let moved = seq![InstructionView::MoveText { dx: 0, dy: -(line_height as int) }];
        lemma_append_twice(before, shown, moved);
        assert(shown + moved =~= seq![
            InstructionView::ShowText { text: line@ },
            InstructionView::MoveText { dx: 0, dy: -(line_height as int) },
        ]);
    }
}

/// Begins a page where the cursor has come down to the lower limit.
fn check_and_create_new_page(state: &mut PagesState, options: &PdfOptions)
    ensures
        final(state)@ == old(state)@.check_new_page(*options),
{
    if state.y_pos <= options.min_y_pos as i64 {
        state.open(new_page_operations(), options.max_y_pos as i64);
    }
}

/// Moves the cursor down by the space that follows a paragraph and begins a
/// page where it comes down to the lower limit.
fn add_paragraph_spacing(options: &PdfOptions, state: &mut PagesState)
    requires
        old(state)@.pages.len() > 0,
        old(state).y_pos - options.paragraph_spacing >= i64::MIN,
    ensures
        final(state)@ == old(state)@.paragraph_spacing(*options),
{
    let ghost before = state@;
    let down = -(options.paragraph_spacing as i64);
    state.emit(Instruction::MoveText { dx: 0, dy: down });
    state.y_pos = state.y_pos - options.paragraph_spacing as i64;
    if state.y_pos <= options.min_y_pos as i64 {
        let ghost moved = state@;
        state.emit(Instruction::EndText);
        state.emit(Instruction::BeginText);
        state.emit(Instruction::MoveText { dx: LEFT_MARGIN, dy: options.max_y_pos as i64 });
        proof {
            let closing = seq![InstructionView::EndText];
            let opening = seq![InstructionView::BeginText];
            let placing = seq![
                InstructionView::MoveText { dx: LEFT_MARGIN as int, dy: options.max_y_pos as int },
            ];
            lemma_append_twice(moved, closing, opening);
            lemma_append_twice(moved, closing + opening, placing);
            assert(closing + opening + placing =~= seq![
                InstructionView::EndText,
                InstructionView::BeginText,
                InstructionView::MoveText { dx: LEFT_MARGIN as int, dy: options.max_y_pos as int },
            ]);
        }
        state.open(new_page_operations(), options.max_y_pos as i64);
    }
}

/// Closes the block of text on the last page.
pub fn end_text_section(state: &mut PagesState)
    requires
        old(state)@.pages.len() > 0,
    ensures
        final(state)@ == old(state)@.end_text(),
{
    state.emit(Instruction::EndText);
}

/// The factor by which an image is drawn: the largest one, not above one,
/// with which it is neither wider than `max_width` nor taller than
/// `max_height`.
pub fn calculate_image_scale(image: &ImageDescriptor, max_width: u32, max_height: u32) -> (scale:
    ImageScale)
    ensures
        (scale.numerator as int, scale.denominator as int) == scale_of(
            image.width as int,
            image.height as int,
            max_width as int,
            max_height as int,
        ),
        0 < scale.denominator,
        scale.numerator <= scale.denominator,
        image.width <= max_width && image.height <= max_height ==> scale.numerator == 1
            && scale.denominator == 1,
{
    proof {
        lemma_scale(image.width as int, image.height as int, max_width as int, max_height as int);
        lemma_product_fits(max_width, image.height);
        lemma_product_fits(max_height, image.width);
    }
    if image.width <= max_width && image.height <= max_height {
        ImageScale { numerator: 1, denominator: 1 }
    } else if image.width > 0 && (max_width as u64) * (image.height as u64) <= (max_height as u64)
        * (image.width as u64) {
        ImageScale { numerator: max_width, denominator: image.width }
    } else {
        ImageScale { numerator: max_height, denominator: image.height }
    }
}

/// A length under a scale, rounded down to a whole point.
pub fn scale_length(length: u32, scale: ImageScale) -> (reduced: u32)
    requires
        0 < scale.denominator,
        scale.numerator <= scale.denominator,
    ensures
        reduced == scaled(length as int, (scale.numerator as int, scale.denominator as int)),
        reduced <= length,
{
    proof {
        assert(length * scale.numerator <= length * scale.denominator) by (nonlinear_arith)
            requires
                0 <= length,
                scale.numerator <= scale.denominator,
        ;
        lemma_scaled_down(
            length as int,
            scale.numerator as int,
            scale.denominator as int,
            length as int,
        );
        lemma_product_fits(length, scale.numerator);
    }
    let product = (length as u64) * (scale.numerator as u64);
    (product / (scale.denominator as u64)) as u32
}

/// Begins a page for an image that does not fit on the last one.
fn create_new_page_for_image(state: &mut PagesState, options: &PdfOptions)
    ensures
        final(state)@ == old(state)@.open_page(image_page(*options), options.max_y_pos as int),
{
    let mut instructions = new_page_operations();
    let ghost fresh = instruction_views(instructions@);
    instructions.push(Instruction::BeginText);
    instructions.push(Instruction::MoveText { dx: LEFT_MARGIN, dy: options.max_y_pos as i64 });
    instructions.push(Instruction::EndText);
    assert(instruction_views(instructions@) =~= image_page(*options));
    state.open(instructions, options.max_y_pos as i64);
}

/// Draws an image of the given size with its top at the cursor.
fn add_image_operations(state: &mut PagesState, id: u32, width: u32, height: u32)
    requires
        old(state)@.pages.len() > 0,
        old(state).y_pos - height >= i64::MIN,
    ensures
        final(state)@ == old(state)@.append(
            seq![
                InstructionView::SaveState,
                InstructionView::Transform {
                    width: width as int,
                    height: height as int,
                    x: LEFT_MARGIN as int,
                    y: old(state).y_pos - height,
                },
                InstructionView::DrawImage { id: id as nat },
                InstructionView::RestoreState,
            ],
        ),
{
    let ghost before = state@;
    let y = state.y_pos - height as i64;
    state.emit(Instruction::SaveState);
    state.emit(
        Instruction::Transform { width: width as i64, height: height as i64, x: LEFT_MARGIN, y },
    );
    state.emit(Instruction::DrawImage { id });
    state.emit(Instruction::RestoreState);
    proof {
        let a = seq![InstructionView::SaveState];
        let b = seq![
            InstructionView::Transform {
                width: width as int,
                height: height as int,
                x: LEFT_MARGIN as int,
                y: y as int,
            },
        ];
        let c = seq![InstructionView::DrawImage { id: id as nat }];
        let d = seq![InstructionView::RestoreState];
        lemma_append_twice(before, a, b);
        lemma_append_twice(before, a + b, c);
        lemma_append_twice(before, a + b + c, d);
        assert(a + b + c + d =~= seq![
            InstructionView::SaveState,
            InstructionView::Transform {
                width: width as int,
                height: height as int,
                x: LEFT_MARGIN as int,
                y: y as int,
            },
            InstructionView::DrawImage { id: id as nat },
            InstructionView::RestoreState,
        ]);
    }
}

/// Places an image below what has been laid out, on a page of its own where
/// it does not fit above the lower limit.
pub fn add_image(options: &PdfOptions, state: &mut PagesState, image: &ImageDescriptor)
    requires
        old(state)@.wf(),
    ensures
        final(state)@ == old(state)@.add_image(*options, image@),
        final(state)@.wf(),
{
    let scale = calculate_image_scale(image, options.max_image_width, options.max_image_height);
    let width = scale_length(image.width, scale);
    let height = scale_length(image.height, scale);
    if state.y_pos - (height as i64) < options.min_y_pos as i64 {
        create_new_page_for_image(state, options);
    }
    add_image_operations(state, image.id.0, width, height);
    state.y_pos = state.y_pos - (height as i64 + IMAGE_GAP);
    assert(state@.pages =~= old(state)@.add_image(*options, image@).pages);
}

/// Lays out a paragraph: its words are wrapped into lines that are not wider
/// than allowed, and the paragraph's space follows.
pub fn format_paragraph(options: &PdfOptions, state: &mut PagesState, paragraph: &str)
    requires
        old(state)@.wf(),
    ensures
        final(state)@ == old(state)@.paragraph(*options, words(paragraph@)),
        final(state)@.wf(),
        final(state).y_pos >= 0,
{
    let found = split_words(paragraph);
    let ghost start = state@;
    let ghost all = words(paragraph@);
    let mut line = String::new();
    let mut k: usize = 0;
    proof {
        reveal_strlit(" ");
        assert(" "@ =~= seq![' ']);
    }
    while k < found.len()
        invariant
            k <= found.len(),
            found.deep_view() == all,
            " "@ == seq![' '],
            state@.pages.len() > 0,
            CURSOR_FLOOR <= state.y_pos <= u32::MAX,
            k > 0 ==> state.y_pos >= 0,
            (state@, line@) == start.place_words(*options, Seq::empty(), all.take(k as int)),
        decreases found.len() - k,
    {
        let word = &found[k];
        let ghost pending = line@;
        let ghost so_far = state@;
        let candidate = if line.as_str().is_empty() {
            word.clone()
        } else {
            let mut joined = line.clone();
            joined.append(" ");
            joined.append(word.as_str());
            joined
        };
        assert(candidate@ =~= join_word(pending, word@));
        if string_width(candidate.as_str()) > options.max_width as u128 {
            add_line_to_page(state, line.as_str(), options.line_height);
            line = word.clone();
        } else {
            line = candidate;
        }
        check_and_create_new_page(state, options);
        proof {
            assert(all.take(k + 1).drop_last() =~= all.take(k as int));
            assert(all.take(k + 1).last() == all[k as int]);
            assert(all[k as int] == word@);
            assert((state@, line@) == so_far.place_word(*options, pending, word@));
        }
        k += 1;
    }
    assert(all.take(k as int) =~= all);
    if !line.as_str().is_empty() {
        add_line_to_page(state, line.as_str(), 0);
    }
    add_paragraph_spacing(options, state);
}

/// Lays out the paragraphs, one after the other.
fn format_paragraphs(options: &PdfOptions, state: &mut PagesState, paragraphs: &Vec<String>)
    requires
        old(state)@.wf(),
    ensures
        final(state)@ == old(state)@.paragraphs(*options, paragraphs.deep_view()),
        final(state)@.wf(),
{
    let ghost start = state@;
    let ghost texts = paragraphs.deep_view();
    let mut p: usize = 0;
    while p < paragraphs.len()
        invariant
            p <= paragraphs.len(),
            texts == paragraphs.deep_view(),
            state@.wf(),
            state@ == start.paragraphs(*options, texts.take(p as int)),
        decreases paragraphs.len() - p,
    {
        proof {
            assert(texts.take(p + 1).drop_last() =~= texts.take(p as int));
            assert(texts.take(p + 1).last() == paragraphs[p as int]@);
        }
        format_paragraph(options, state, paragraphs[p].as_str());
        p += 1;
    }
    assert(texts.take(p as int) =~= texts);
}

/// Places the images, one after the other.
fn add_images(options: &PdfOptions, state: &mut PagesState, images: &Vec<ImageDescriptor>)
    requires
        old(state)@.wf(),
    ensures
        final(state)@ == old(state)@.add_images(*options, image_views(images@)),
        final(state)@.wf(),
{
    let ghost start = state@;
    let ghost views = image_views(images@);
    let mut i: usize = 0;
    while i < images.len()
        invariant
            i <= images.len(),
            views == image_views(images@),
            state@.wf(),
            state@ == start.add_images(*options, views.take(i as int)),
        decreases images.len() - i,
    {
        proof {
            assert(views.take(i + 1).drop_last() =~= views.take(i as int));
            assert(views.take(i + 1).last() == images[i as int]@);
        }
        add_image(options, state, &images[i]);
        i += 1;
    }
    assert(views.take(i as int) =~= views);
}

/// Lays out one unit of the source whose text has been cut into paragraphs:
/// the paragraphs, the end of the text, the unit's images, and the end of
/// the text once more.
pub fn layout_content(
    options: &PdfOptions,
    state: &mut PagesState,
    paragraphs: &Vec<String>,
    images: &Vec<ImageDescriptor>,
)
    requires
        old(state)@.wf(),
    ensures
        final(state)@ == old(state)@.content(
            *options,
            paragraphs.deep_view(),
            image_views(images@),
        ),
        final(state)@.wf(),
{
    format_paragraphs(options, state, paragraphs);
    end_text_section(state);
    add_images(options, state, images);
    end_text_section(state);
}

/// The position of the last line break in the white space that stands from
/// position `j` on without a break, or `last` where there is none.
pub open spec fn last_break(text: Seq<char>, j: int, last: int) -> int
    decreases text.len() - j,
{
    if j < 0 || j >= text.len() || !char_is_whitespace(text[j]) {
        last
    } else if text[j] == '\n' {
        last_break(text, j + 1, j)
    } else {
        last_break(text, j + 1, last)
    }
}

/// The length of the stretch that parts two paragraphs and begins at
/// position `i`, or zero where none begins there: such a stretch runs from
/// a line break, over white space only, to the last line break that can be
/// reached so.
pub open spec fn separator_len(text: Seq<char>, i: int) -> nat {
    let end = last_break(text, i + 1, i);
    if 0 <= i < text.len() && text[i] == '\n' && i < end < text.len() {
        (end + 1 - i) as nat
    } else {
        0
    }
}

/// The paragraphs of what is left of a text from position `i` on, the first
/// of which began at position `start`.
pub open spec fn paragraphs_from(text: Seq<char>, start: int, i: int) -> Seq<Seq<char>>
    decreases text.len() - i,
{
    if i < 0 || i >= text.len() {
        seq![text.subrange(start, text.len() as int)]
    } else if separator_len(text, i) > 0 {
        seq![text.subrange(start, i)] + paragraphs_from(
            text,
            i + separator_len(text, i),
            i + separator_len(text, i),
        )
    } else {
        paragraphs_from(text, start, i + 1)
    }
}

/// The paragraphs of a text: its parts between the places where a line
/// break, any white space and a line break follow one another. A text
/// without such a place is one paragraph.
pub open spec fn paragraph_split(text: Seq<char>) -> Seq<Seq<char>> {
    paragraphs_from(text, 0, 0)
}

/// Cuts a text into its paragraphs.
pub fn split_paragraphs(text: &str) -> (paragraphs: Vec<String>)
    ensures
        paragraphs.deep_view() == paragraph_split(text@),
{
    let chars = chars_of(text);
    let n = chars.len();
    let ghost whole = paragraph_split(text@);
    let mut paragraphs: Vec<String> = Vec::new();
    let mut start: usize = 0;
    let mut i: usize = 0;
    assert(paragraphs.deep_view() + whole =~= whole);
    while i < n
        invariant
            chars@ == text@,
            n == chars.len(),
            start <= i <= n,
            paragraphs.deep_view() + paragraphs_from(text@, start as int, i as int) == whole,
        decreases n - i,
    {
        if chars[i] != '\n' {
            i += 1;
        } else {
            let mut end = i;
            let mut j = i + 1;
            while j < n && is_whitespace_char(chars[j])
                invariant
                    chars@ == text@,
                    n == chars.len(),
                    i <= end < j <= n,
                    last_break(text@, i + 1, i as int) == last_break(text@, j as int, end as int),
                decreases n - j,
            {
                if chars[j] == '\n' {
                    end = j;
                }
                j += 1;
            }
            if end == i {
                i += 1;
            } else {
                let piece = text.substring_char(start, i);
                let ghost before = paragraphs.deep_view();
                let ghost rest = paragraphs_from(text@, end + 1, end + 1);
                paragraphs.push(piece.to_owned());
                proof {
                    assert(paragraphs.deep_view() =~= before.push(piece@));
                    assert(before.push(piece@) + rest =~= before + (seq![piece@] + rest));
                }
                i = end + 1;
                start = i;
            }
        }
    }
    let last = text.substring_char(start, n);
    let ghost before = paragraphs.deep_view();
    paragraphs.push(last.to_owned());
    proof {
        assert(paragraphs.deep_view() =~= before.push(last@));
        assert(before.push(last@) =~= before + seq![last@]);
    }
    paragraphs
}

/// Lays out one unit of the source: the paragraphs of its text, the end of
/// the text, its images, and the end of the text once more.
pub fn format_content(
    options: &PdfOptions,
    state: &mut PagesState,
    text: &str,
    images: &Vec<ImageDescriptor>,
)
    requires
        old(state)@.wf(),
    ensures
        final(state)@ == old(state)@.content(
            *options,
            paragraph_split(text@),
            image_views(images@),
        ),
        final(state)@.wf(),
{
    let paragraphs = split_paragraphs(text);
    layout_content(options, state, &paragraphs, images);
}

} // verus!
