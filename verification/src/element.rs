use crate::bitmap::{chars_of, renderable, BitmapConfiguration};
use crate::color::ObjectColor;
use crate::config::{
    BorderWidth, ChildAlignment, ChildLayoutDirection, ChildXAlignment, ChildYAlignment,
    CornerRadius, LayoutConfig, Padding, SizeLimit, Sizing, SizingMode,
};
use crate::wrap::MAX_TEXT;
use vstd::prelude::*;

verus! {

/// A texture and its size in pixels.
#[derive(Clone, Copy, Debug, PartialEq, Eq, Structural)]
pub struct CatplushTextureData {
    /// The name of the texture; never 0.
    pub texture_id: u32,
    pub width: i32,
    pub height: i32,
}

impl CatplushTextureData {
    /// The texture is named and has an area.
    pub open spec fn valid(self) -> bool {
        self.texture_id != 0 && self.width >= 1 && self.height >= 1
    }
}

/// What a text element shows.
pub struct CatplushTextData {
    pub bitmap: BitmapConfiguration,
    pub text: String,
    /// The height of a line, in pixels.
    pub font_size: u32,
    /// The indices of the characters at which a line ends. The element holds
    /// those of the line feeds; the solver adds where it wraps.
    pub split_indices: Vec<usize>,
    /// Whether a line without a space may be cut where it overflows.
    pub break_on_overflow: bool,
}

/// The indices of the line feeds among the first `n` characters.
pub open spec fn line_feeds(text: Seq<char>, n: int) -> Seq<int>
    decreases n,
{
    if n <= 0 {
        Seq::empty()
    } else if text[n - 1] == '\n' {
        line_feeds(text, n - 1).push(n - 1)
    } else {
        line_feeds(text, n - 1)
    }
}

/// The line feeds come in rising order and lie among the first `n`
/// characters.
pub proof fn lemma_line_feeds(text: Seq<char>, n: int)
    requires
        0 <= n,
    ensures
        line_feeds(text, n).len() <= n,
        forall|i: int|
            0 <= i < line_feeds(text, n).len() ==> 0 <= #[trigger] line_feeds(text, n)[i] < n,
        forall|i: int, j: int|
            0 <= i < j < line_feeds(text, n).len() ==> line_feeds(text, n)[i] < line_feeds(
                text,
                n,
            )[j],
    decreases n,
{
    if n > 0 {
        lemma_line_feeds(text, n - 1);
    }
}

/// The indices of the line feeds of a text.
pub fn find_line_feeds(text: &Vec<char>) -> (found: Vec<usize>)
    ensures
        found@.map_values(|i: usize| i as int) == line_feeds(text@, text.len() as int),
{
    let mut found: Vec<usize> = Vec::new();
    let mut i: usize = 0;
    while i < text.len()
        invariant
            i <= text.len(),
            found@.map_values(|i: usize| i as int) == line_feeds(text@, i as int),
        decreases text.len() - i,
    {
        let ghost before = found@.map_values(|i: usize| i as int);
        if text[i] == '\n' {
            found.push(i);
            assert(found@.map_values(|i: usize| i as int) =~= before.push(i as int));
        }
        i = i + 1;
    }
    found
}

impl CatplushTextData {
    /// The font is valid and has a glyph for every character, the text is
    /// not too long, and the breaks are its line feeds.
    pub open spec fn valid(&self) -> bool {
        &&& self.bitmap.valid()
        &&& self.text@.len() <= MAX_TEXT
        &&& renderable(self.bitmap.character_list@, self.text@)
        &&& self.split_indices@.map_values(|i: usize| i as int) == line_feeds(
            self.text@,
            self.text@.len() as int,
        )
    }
}

/// What an element is drawn as.
pub enum ObjectType {
    /// Nothing: the element only takes part in the layout.
    Unset,
    Rectangle,
    Text(CatplushTextData),
    Image(CatplushTextureData),
}

/// One element of the interface: what it is drawn as and how it is laid out.
pub struct UiElement {
    pub object_type: ObjectType,
    pub id: Option<&'static str>,
    pub layout: LayoutConfig,
    pub color: ObjectColor,
    pub stroke_color: ObjectColor,
    pub corner_radius: CornerRadius,
    pub border_width: BorderWidth,
}

/// `amount * num / den`, and the largest `i32` where that is larger.
pub open spec fn scaled(amount: int, num: int, den: int) -> int {
    if (amount * num) / den > i32::MAX {
        i32::MAX as int
    } else {
        (amount * num) / den
    }
}

/// The size at which an image is shown. With `ignore_aspect_ratio` what is
/// asked for is taken, and the texture's own size for what is not. Without
/// it a width that is asked for decides, and the height is that width
/// times the texture's width by its height; a height alone decides the
/// width in the same way; and the texture's own size stands where nothing
/// is asked for.
pub open spec fn image_size(
    texture: CatplushTextureData,
    width: Option<i32>,
    height: Option<i32>,
    ignore_aspect_ratio: bool,
) -> (int, int) {
    if ignore_aspect_ratio {
        (
            match width {
                Some(w) => w as int,
                None => texture.width as int,
            },
            match height {
                Some(h) => h as int,
                None => texture.height as int,
            },
        )
    } else {
        match (width, height) {
            (Some(w), _) => (
                w as int,
                scaled(w as int, texture.width as int, texture.height as int),
            ),
            (None, Some(h)) => (
                scaled(h as int, texture.height as int, texture.width as int),
                h as int,
            ),
            (None, None) => (texture.width as int, texture.height as int),
        }
    }
}

/// `amount * num / den`, and the largest `i32` where that is larger.
pub fn scale(amount: i32, num: i32, den: i32) -> (r: i32)
    requires
        amount >= 0,
        num >= 1,
        den >= 1,
    ensures
        r == scaled(amount as int, num as int, den as int),
        r >= 0,
{
    proof {
        assert(0 <= amount * num <= 0x7fff_ffff * 0x7fff_ffff) by (nonlinear_arith)
            requires
                0 <= amount <= 0x7fff_ffff,
                0 <= num <= 0x7fff_ffff,
        ;
    }
    let product: i64 = (amount as i64) * (num as i64);
    let quotient: i64 = product / (den as i64);
    if quotient > 0x7fff_ffff {
        0x7fff_ffff
    } else {
        quotient as i32
    }
}

impl UiElement {
    /// The element on which nothing has been set.
    pub open spec fn blank() -> UiElement {
        UiElement {
            object_type: ObjectType::Unset,
            id: None,
            layout: LayoutConfig::initial(),
            color: ObjectColor(0, 0, 0, 0),
            stroke_color: ObjectColor(0, 0, 0, 0),
            corner_radius: CornerRadius {
                top_right: 0,
                bottom_right: 0,
                bottom_left: 0,
                top_left: 0,
            },
            border_width: BorderWidth { top: 0, right: 0, bottom: 0, left: 0 },
        }
    }

    /// The layout configuration is valid, and so is the text, if it is one.
    pub open spec fn valid(&self) -> bool {
        &&& self.layout.valid()
        &&& self.object_type matches ObjectType::Text(t) ==> t.valid()
    }

    pub fn new() -> (e: Self)
        ensures
            e == Self::blank(),
            e.valid(),
    {
        UiElement {
            object_type: ObjectType::Unset,
            id: None,
            layout: LayoutConfig::default(),
            color: ObjectColor(0, 0, 0, 0),
            stroke_color: ObjectColor(0, 0, 0, 0),
            corner_radius: CornerRadius::default(),
            border_width: BorderWidth::default(),
        }
    }

    /// Makes the element a rectangle of this colour with these corners.
    pub fn rectangle(self, color: ObjectColor, corner_radius: CornerRadius) -> (e: Self)
        ensures
            e == (UiElement { object_type: ObjectType::Rectangle, color, corner_radius, ..self }),
            self.layout.valid() ==> e.valid(),
    {
        let mut e = self;
        e.object_type = ObjectType::Rectangle;
        e.color = color;
        e.corner_radius = corner_radius;
        e
    }

    /// Sets the colour and the widths of the border. What the element is
    /// drawn as stays.
    pub fn border(self, stroke_color: ObjectColor, border_width: BorderWidth) -> (e: Self)
        ensures
            e == (UiElement { stroke_color, border_width, ..self }),
            self.valid() ==> e.valid(),
    {
        let mut e = self;
        e.border_width = border_width;
        e.stroke_color = stroke_color;
        e
    }

    /// Makes the element an image of `texture`, of a fixed size.
    pub fn image(
        self,
        texture: CatplushTextureData,
        width: Option<i32>,
        height: Option<i32>,
        ignore_aspect_ratio: bool,
    ) -> (e: Self)
        requires
            texture.valid(),
            width matches Some(w) ==> w >= 0,
            height matches Some(h) ==> h >= 0,
        ensures
            ({
                let (w, h) = image_size(texture, width, height, ignore_aspect_ratio);
                &&& 0 <= w <= i32::MAX
                &&& 0 <= h <= i32::MAX
                &&& e == (UiElement {
                    object_type: ObjectType::Image(
                        CatplushTextureData {
                            texture_id: texture.texture_id,
                            width: w as i32,
                            height: h as i32,
                        },
                    ),
                    layout: LayoutConfig {
                        sizing: Sizing {
                            width: SizingMode::Fixed(w as i32),
                            height: SizingMode::Fixed(h as i32),
                        },
                        ..self.layout
                    },
                    ..self
                })
            }),
            self.layout.valid() ==> e.valid(),
    {
        let actual_width: i32;
        let actual_height: i32;
        if ignore_aspect_ratio {
            actual_width = match width {
                Some(w) => w,
                None => texture.width,
            };
            actual_height = match height {
                Some(h) => h,
                None => texture.height,
            };
        } else {
            match (width, height) {
                (Some(amount), _) => {
                    actual_width = amount;
                    actual_height = scale(amount, texture.width, texture.height);
                },
                (None, Some(amount)) => {
                    actual_height = amount;
                    actual_width = scale(amount, texture.height, texture.width);
                },
                (None, None) => {
                    actual_width = texture.width;
                    actual_height = texture.height;
                },
            }
        }
        let mut e = self;
        e.object_type = ObjectType::Image(
            CatplushTextureData {
                texture_id: texture.texture_id,
                width: actual_width,
                height: actual_height,
            },
        );
        e.layout.sizing = Sizing {
            width: SizingMode::Fixed(actual_width),
            height: SizingMode::Fixed(actual_height),
        };
        e
    }

    /// Makes the element a line of text in the font `bitmap`: as wide as
    /// its glyphs at `font_size` and no wider, and `font_size` high.
    pub fn text(self, bitmap: &BitmapConfiguration, text: &str, font_size: u32) -> (e: Self)
        requires
            bitmap.valid(),
            renderable(bitmap.character_list@, text@),
            text@.len() <= MAX_TEXT,
            font_size <= i32::MAX,
            bitmap.text_width(text@.len() as int, font_size as int) <= i32::MAX,
        ensures
            e.object_type matches ObjectType::Text(t) && {
                &&& t.bitmap == *bitmap
                &&& t.text@ == text@
                &&& t.font_size == font_size
                &&& t.split_indices@.map_values(|i: usize| i as int) == line_feeds(
                    text@,
                    text@.len() as int,
                )
                &&& !t.break_on_overflow
            },
            e.id == self.id,
            e.color == self.color,
            e.stroke_color == self.stroke_color,
            e.corner_radius == self.corner_radius,
            e.border_width == self.border_width,
            e.layout == (LayoutConfig {
                sizing: Sizing {
                    width: SizingMode::Fixed(
                        bitmap.text_width(text@.len() as int, font_size as int) as i32,
                    ),
                    height: SizingMode::Fixed(font_size as i32),
                },
                size_constraints: crate::config::SizingLimits {
                    width: SizeLimit {
                        min: self.layout.size_constraints.width.min,
                        max: bitmap.text_width(text@.len() as int, font_size as int) as i32,
                    },
                    height: self.layout.size_constraints.height,
                },
                ..self.layout
            }),
            self.layout.valid() ==> e.valid(),
    {
        let chars: Vec<char> = chars_of(text);
        let width: u128 = bitmap.measure(chars.len(), font_size);
        let feeds: Vec<usize> = find_line_feeds(&chars);
        let mut e = self;
        e.layout.sizing = Sizing {
            width: SizingMode::Fixed(width as i32),
            height: SizingMode::Fixed(font_size as i32),
        };
        e.layout.size_constraints.width.max = width as i32;
        e.object_type = ObjectType::Text(
            CatplushTextData {
                bitmap: bitmap.duplicate(),
                text: text.to_owned(),
                font_size,
                split_indices: feeds,
                break_on_overflow: false,
            },
        );
        e
    }

    /// Lets the lines of a text be cut where they overflow and have no
    /// space to break at. An element that is no text stays as it is.
    pub fn break_on_overflow(self) -> (e: Self)
        ensures
            e.id == self.id,
            e.layout == self.layout,
            e.color == self.color,
            e.stroke_color == self.stroke_color,
            e.corner_radius == self.corner_radius,
            e.border_width == self.border_width,
            match self.object_type {
                ObjectType::Text(t) => e.object_type == ObjectType::Text(
                    CatplushTextData { break_on_overflow: true, ..t },
                ),
                _ => e.object_type == self.object_type,
            },
            self.valid() ==> e.valid(),
    {
        let mut e = self;
        match e.object_type {
            ObjectType::Text(t) => {
                let mut t = t;
                t.break_on_overflow = true;
                e.object_type = ObjectType::Text(t);
            },
            other => {
                e.object_type = other;
            },
        }
        e
    }

    /// Sets the space between one child and the next.
    pub fn child_gap(self, amount: i32) -> (e: Self)
        requires
            amount >= 0,
        ensures
            e == (UiElement { layout: LayoutConfig { child_gap: amount, ..self.layout }, ..self }),
            self.valid() ==> e.valid(),
    {
        let mut e = self;
        e.layout.child_gap = amount;
        e
    }

    /// Sets the space between the edges of the element and its children.
    pub fn padding(self, padding: Padding) -> (e: Self)
        requires
            padding.valid(),
        ensures
            e == (UiElement { layout: LayoutConfig { padding, ..self.layout }, ..self }),
            self.valid() ==> e.valid(),
    {
        let mut e = self;
        e.layout.padding = padding;
        e
    }

    /// Sets how the element gets its width and its height.
    pub fn sizing(self, width: SizingMode, height: SizingMode) -> (e: Self)
        requires
            width.valid(),
            height.valid(),
        ensures
            e == (UiElement {
                layout: LayoutConfig { sizing: Sizing { width, height }, ..self.layout },
                ..self
            }),
            self.valid() ==> e.valid(),
    {
        let mut e = self;
        e.layout.sizing = Sizing { width, height };
        e
    }

    /// Reserved: sets a flag that nothing reads yet.
    pub fn keep_aspect_ratio(self) -> (e: Self)
        ensures
            e == (UiElement {
                layout: LayoutConfig { keep_aspect_ratio: true, ..self.layout },
                ..self
            }),
            self.valid() ==> e.valid(),
    {
        let mut e = self;
        e.layout.keep_aspect_ratio = true;
        e
    }

    /// Lets the children that grow all take the same share of the free
    /// space, whatever their sizes.
    pub fn grow_elements_unevenly(self) -> (e: Self)
        ensures
            e == (UiElement {
                layout: LayoutConfig { grow_elements_unevenly: true, ..self.layout },
                ..self
            }),
            self.valid() ==> e.valid(),
    {
        let mut e = self;
        e.layout.grow_elements_unevenly = true;
        e
    }

    /// Sets the least and the greatest width, in pixels.
    pub fn limit_width(self, min: i32, max: i32) -> (e: Self)
        requires
            0 <= min,
            0 <= max,
        ensures
            e == (UiElement {
                layout: LayoutConfig {
                    size_constraints: crate::config::SizingLimits {
                        width: SizeLimit { min, max },
                        height: self.layout.size_constraints.height,
                    },
                    ..self.layout
                },
                ..self
            }),
            self.valid() ==> e.valid(),
    {
        let mut e = self;
        e.layout.size_constraints.width = SizeLimit { min, max };
        e
    }

    /// Sets the least and the greatest height, in pixels.
    pub fn limit_height(self, min: i32, max: i32) -> (e: Self)
        requires
            0 <= min,
            0 <= max,
        ensures
            e == (UiElement {
                layout: LayoutConfig {
                    size_constraints: crate::config::SizingLimits {
                        width: self.layout.size_constraints.width,
                        height: SizeLimit { min, max },
                    },
                    ..self.layout
                },
                ..self
            }),
            self.valid() ==> e.valid(),
    {
        let mut e = self;
        e.layout.size_constraints.height = SizeLimit { min, max };
        e
    }

    /// Sets the direction in which the children are lined up.
    pub fn layout_direction(self, direction: ChildLayoutDirection) -> (e: Self)
        ensures
            e == (UiElement {
                layout: LayoutConfig { layout_direction: direction, ..self.layout },
                ..self
            }),
            self.valid() ==> e.valid(),
    {
        let mut e = self;
        e.layout.layout_direction = direction;
        e
    }

    /// Sets where the children go in the space that they leave free.
    pub fn alignment(self, x_align: ChildXAlignment, y_align: ChildYAlignment) -> (e: Self)
        ensures
            e == (UiElement {
                layout: LayoutConfig {
                    child_alignment: ChildAlignment { x: x_align, y: y_align },
                    ..self.layout
                },
                ..self
            }),
            self.valid() ==> e.valid(),
    {
        let mut e = self;
        e.layout.child_alignment = ChildAlignment { x: x_align, y: y_align };
        e
    }
}

impl Default for UiElement {
    fn default() -> (e: Self)
        ensures
            e == Self::blank(),
            e.valid(),
    {
        UiElement::new()
    }
}

} // verus!
