use vstd::prelude::*;

verus! {

/// Every length the solver computes is counted in this many parts of a
/// pixel: a hundred for each node that a layout can hold. An even split
/// of free space leaves less than one part for each child that shares it,
/// so what a row leaves free is less than a hundredth of a pixel in all.
pub const SUBPIXELS: i128 = 26_214_400;

/// The greatest size, in pixels, of an element that was given no limit.
pub const UNLIMITED: i32 = 999_999_999;

/// One of the two directions in which the solver works.
#[derive(Clone, Copy, Debug, PartialEq, Eq, Structural)]
pub enum Axis {
    X,
    Y,
}

/// The direction in which an element lines up its children.
#[derive(Clone, Copy, Debug, PartialEq, Eq, Structural)]
pub enum ChildLayoutDirection {
    LeftToRight,
    TopToBottom,
}

impl ChildLayoutDirection {
    /// Whether children are lined up along `axis`.
    pub open spec fn runs_along(self, axis: Axis) -> bool {
        match axis {
            Axis::X => self == ChildLayoutDirection::LeftToRight,
            Axis::Y => self == ChildLayoutDirection::TopToBottom,
        }
    }

    /// Whether children are lined up along `axis`.
    pub fn is_along(self, axis: Axis) -> (b: bool)
        ensures
            b == self.runs_along(axis),
    {
        match axis {
            Axis::X => self == ChildLayoutDirection::LeftToRight,
            Axis::Y => self == ChildLayoutDirection::TopToBottom,
        }
    }
}

/// How an element gets its size along one axis.
#[derive(Clone, Copy, Debug, PartialEq, Eq, Structural)]
pub enum SizingMode {
    /// Exactly this many pixels.
    Fixed(i32),
    /// As large as the contents, the padding and the gaps need.
    Fit,
    /// As `Fit`, and then a share of what the parent has left over.
    Grow,
}

impl SizingMode {
    /// A fixed size is not negative.
    pub open spec fn valid(self) -> bool {
        self matches SizingMode::Fixed(n) ==> n >= 0
    }
}

/// The sizing modes of an element, one for each axis.
#[derive(Clone, Copy, Debug, PartialEq, Eq, Structural)]
pub struct Sizing {
    pub width: SizingMode,
    pub height: SizingMode,
}

impl Sizing {
    pub open spec fn valid(self) -> bool {
        self.width.valid() && self.height.valid()
    }

    pub open spec fn along(self, axis: Axis) -> SizingMode {
        match axis {
            Axis::X => self.width,
            Axis::Y => self.height,
        }
    }

    pub fn new(width: SizingMode, height: SizingMode) -> (s: Self)
        ensures
            s == (Sizing { width, height }),
    {
        Sizing { width, height }
    }

    pub fn both(size: SizingMode) -> (s: Self)
        ensures
            s == (Sizing { width: size, height: size }),
    {
        Sizing { width: size, height: size }
    }

    /// The mode for `axis`.
    pub fn mode(&self, axis: Axis) -> (m: SizingMode)
        ensures
            m == self.along(axis),
    {
        match axis {
            Axis::X => self.width,
            Axis::Y => self.height,
        }
    }
}

/// The least and the greatest size, in pixels, that an element may take
/// along one axis.
#[derive(Clone, Copy, Debug, PartialEq, Eq, Structural)]
pub struct SizeLimit {
    pub min: i32,
    pub max: i32,
}

impl SizeLimit {
    /// Neither bound is negative.
    pub open spec fn valid(self) -> bool {
        0 <= self.min && 0 <= self.max
    }
}

impl Default for SizeLimit {
    fn default() -> (l: Self)
        ensures
            l == (SizeLimit { min: 0, max: UNLIMITED }),
    {
        SizeLimit { min: 0, max: UNLIMITED }
    }
}

/// The size limits of an element, one pair for each axis.
#[derive(Clone, Copy, Debug, PartialEq, Eq, Structural)]
pub struct SizingLimits {
    pub width: SizeLimit,
    pub height: SizeLimit,
}

impl SizingLimits {
    pub open spec fn valid(self) -> bool {
        self.width.valid() && self.height.valid()
    }

    pub open spec fn along(self, axis: Axis) -> SizeLimit {
        match axis {
            Axis::X => self.width,
            Axis::Y => self.height,
        }
    }

    /// The limits for `axis`.
    pub fn limit(&self, axis: Axis) -> (l: SizeLimit)
        ensures
            l == self.along(axis),
    {
        match axis {
            Axis::X => self.width,
            Axis::Y => self.height,
        }
    }
}

impl Default for SizingLimits {
    fn default() -> (l: Self)
        ensures
            l.width == (SizeLimit { min: 0, max: UNLIMITED }),
            l.height == (SizeLimit { min: 0, max: UNLIMITED }),
    {
        SizingLimits {
            width: SizeLimit { min: 0, max: UNLIMITED },
            height: SizeLimit { min: 0, max: UNLIMITED },
        }
    }
}

/// The radius of each corner of a rectangle, in pixels.
#[derive(Clone, Copy, Debug, PartialEq, Eq, Structural)]
pub struct CornerRadius {
    pub top_right: i32,
    pub bottom_right: i32,
    pub bottom_left: i32,
    pub top_left: i32,
}

impl CornerRadius {
    pub fn new(top_right: i32, bottom_right: i32, bottom_left: i32, top_left: i32) -> (r: Self)
        ensures
            r == (CornerRadius { top_right, bottom_right, bottom_left, top_left }),
    {
        CornerRadius { top_right, bottom_right, bottom_left, top_left }
    }

    pub fn all(radius: i32) -> (r: Self)
        ensures
            r == (CornerRadius {
                top_right: radius,
                bottom_right: radius,
                bottom_left: radius,
                top_left: radius,
            }),
    {
        CornerRadius {
            top_right: radius,
            bottom_right: radius,
            bottom_left: radius,
            top_left: radius,
        }
    }
}

impl Default for CornerRadius {
    fn default() -> (r: Self)
        ensures
            r == (CornerRadius { top_right: 0, bottom_right: 0, bottom_left: 0, top_left: 0 }),
    {
        CornerRadius { top_right: 0, bottom_right: 0, bottom_left: 0, top_left: 0 }
    }
}

/// The width of the border on each side of a rectangle, in pixels.
#[derive(Clone, Copy, Debug, PartialEq, Eq, Structural)]
pub struct BorderWidth {
    pub top: i32,
    pub right: i32,
    pub bottom: i32,
    pub left: i32,
}

impl BorderWidth {
    pub fn new(top: i32, right: i32, bottom: i32, left: i32) -> (w: Self)
        ensures
            w == (BorderWidth { top, right, bottom, left }),
    {
        BorderWidth { top, right, bottom, left }
    }

    pub fn all(width: i32) -> (w: Self)
        ensures
            w == (BorderWidth { top: width, right: width, bottom: width, left: width }),
    {
        BorderWidth { top: width, right: width, bottom: width, left: width }
    }
}

impl Default for BorderWidth {
    fn default() -> (w: Self)
        ensures
            w == (BorderWidth { top: 0, right: 0, bottom: 0, left: 0 }),
    {
        BorderWidth { top: 0, right: 0, bottom: 0, left: 0 }
    }
}

/// The space, in pixels, between the edges of an element and its children.
#[derive(Clone, Copy, Debug, PartialEq, Eq, Structural)]
pub struct Padding {
    pub left: i32,
    pub right: i32,
    pub top: i32,
    pub bottom: i32,
}

impl Padding {
    /// No side is negative.
    pub open spec fn valid(self) -> bool {
        self.left >= 0 && self.right >= 0 && self.top >= 0 && self.bottom >= 0
    }

    /// The padding in front of the children along `axis`: left or top.
    pub open spec fn near(self, axis: Axis) -> int {
        match axis {
            Axis::X => self.left as int,
            Axis::Y => self.top as int,
        }
    }

    /// The padding behind the children along `axis`: right or bottom.
    pub open spec fn far(self, axis: Axis) -> int {
        match axis {
            Axis::X => self.right as int,
            Axis::Y => self.bottom as int,
        }
    }

    pub fn new(left: i32, right: i32, top: i32, bottom: i32) -> (p: Self)
        requires
            left >= 0,
            right >= 0,
            top >= 0,
            bottom >= 0,
        ensures
            p == (Padding { left, right, top, bottom }),
            p.valid(),
    {
        Padding { left, right, top, bottom }
    }

    pub fn hv(left_right: i32, top_bottom: i32) -> (p: Self)
        requires
            left_right >= 0,
            top_bottom >= 0,
        ensures
            p == (Padding {
                left: left_right,
                right: left_right,
                top: top_bottom,
                bottom: top_bottom,
            }),
            p.valid(),
    {
        Padding { left: left_right, right: left_right, top: top_bottom, bottom: top_bottom }
    }

    pub fn all(padding: i32) -> (p: Self)
        requires
            padding >= 0,
        ensures
            p == (Padding { left: padding, right: padding, top: padding, bottom: padding }),
            p.valid(),
    {
        Padding { left: padding, right: padding, top: padding, bottom: padding }
    }

    /// The padding in front of the children along `axis`, in pixels.
    pub fn before(&self, axis: Axis) -> (p: i32)
        ensures
            p == self.near(axis),
    {
        match axis {
            Axis::X => self.left,
            Axis::Y => self.top,
        }
    }

    /// The padding behind the children along `axis`, in pixels.
    pub fn after(&self, axis: Axis) -> (p: i32)
        ensures
            p == self.far(axis),
    {
        match axis {
            Axis::X => self.right,
            Axis::Y => self.bottom,
        }
    }
}

/// Where an element puts its children from left to right.
#[derive(Clone, Copy, Debug, PartialEq, Eq, Structural)]
pub enum ChildXAlignment {
    Left,
    Center,
    Right,
}

impl Default for ChildXAlignment {
    fn default() -> (a: Self)
        ensures
            a == ChildXAlignment::Left,
    {
        ChildXAlignment::Left
    }
}

/// Where an element puts its children from top to bottom.
#[derive(Clone, Copy, Debug, PartialEq, Eq, Structural)]
pub enum ChildYAlignment {
    Top,
    Center,
    Bottom,
}

impl Default for ChildYAlignment {
    fn default() -> (a: Self)
        ensures
            a == ChildYAlignment::Top,
    {
        ChildYAlignment::Top
    }
}

/// Where the free space goes along one axis.
#[derive(Clone, Copy, Debug, PartialEq, Eq, Structural)]
pub enum Anchor {
    /// All of it behind the children: `Left` or `Top`.
    Start,
    /// Half of it in front of them.
    Middle,
    /// All of it in front of them: `Right` or `Bottom`.
    End,
}

/// Where an element puts its children, for each axis.
#[derive(Clone, Copy, Debug, PartialEq, Eq, Structural)]
pub struct ChildAlignment {
    pub x: ChildXAlignment,
    pub y: ChildYAlignment,
}

impl ChildAlignment {
    pub open spec fn along(self, axis: Axis) -> Anchor {
        match axis {
            Axis::X => match self.x {
                ChildXAlignment::Left => Anchor::Start,
                ChildXAlignment::Center => Anchor::Middle,
                ChildXAlignment::Right => Anchor::End,
            },
            Axis::Y => match self.y {
                ChildYAlignment::Top => Anchor::Start,
                ChildYAlignment::Center => Anchor::Middle,
                ChildYAlignment::Bottom => Anchor::End,
            },
        }
    }

    pub fn new(x_align: ChildXAlignment, y_align: ChildYAlignment) -> (a: Self)
        ensures
            a == (ChildAlignment { x: x_align, y: y_align }),
    {
        ChildAlignment { x: x_align, y: y_align }
    }

    /// Where the free space goes along `axis`.
    pub fn anchor(&self, axis: Axis) -> (a: Anchor)
        ensures
            a == self.along(axis),
    {
        match axis {
            Axis::X => match self.x {
                ChildXAlignment::Left => Anchor::Start,
                ChildXAlignment::Center => Anchor::Middle,
                ChildXAlignment::Right => Anchor::End,
            },
            Axis::Y => match self.y {
                ChildYAlignment::Top => Anchor::Start,
                ChildYAlignment::Center => Anchor::Middle,
                ChildYAlignment::Bottom => Anchor::End,
            },
        }
    }
}

impl Default for ChildAlignment {
    fn default() -> (a: Self)
        ensures
            a == (ChildAlignment { x: ChildXAlignment::Left, y: ChildYAlignment::Top }),
    {
        ChildAlignment { x: ChildXAlignment::Left, y: ChildYAlignment::Top }
    }
}

/// Everything about an element that the solver reads.
#[derive(Clone, Copy, Debug, PartialEq, Eq, Structural)]
pub struct LayoutConfig {
    pub sizing: Sizing,
    pub size_constraints: SizingLimits,
    /// Reserved: nothing reads it yet.
    pub keep_aspect_ratio: bool,
    pub padding: Padding,
    /// The space, in pixels, between one child and the next.
    pub child_gap: i32,
    pub layout_direction: ChildLayoutDirection,
    pub child_alignment: ChildAlignment,
    /// Whether children that grow all get the same share of the free space,
    /// whatever their sizes, in place of the smallest being raised first.
    pub grow_elements_unevenly: bool,
}

impl LayoutConfig {
    /// No length is negative.
    pub open spec fn valid(self) -> bool {
        &&& self.sizing.valid()
        &&& self.size_constraints.valid()
        &&& self.padding.valid()
        &&& self.child_gap >= 0
    }

    /// The configuration of an element on which nothing was set.
    pub open spec fn initial() -> LayoutConfig {
        LayoutConfig {
            sizing: Sizing { width: SizingMode::Fit, height: SizingMode::Fit },
            size_constraints: SizingLimits {
                width: SizeLimit { min: 0, max: UNLIMITED },
                height: SizeLimit { min: 0, max: UNLIMITED },
            },
            keep_aspect_ratio: true,
            padding: Padding { left: 0, right: 0, top: 0, bottom: 0 },
            child_gap: 0,
            layout_direction: ChildLayoutDirection::LeftToRight,
            child_alignment: ChildAlignment { x: ChildXAlignment::Left, y: ChildYAlignment::Top },
            grow_elements_unevenly: false,
        }
    }
}

impl Default for LayoutConfig {
    fn default() -> (c: Self)
        ensures
            c == LayoutConfig::initial(),
            c.valid(),
    {
        LayoutConfig {
            sizing: Sizing::both(SizingMode::Fit),
            size_constraints: SizingLimits::default(),
            keep_aspect_ratio: true,
            padding: Padding::all(0),
            child_gap: 0,
            layout_direction: ChildLayoutDirection::LeftToRight,
            child_alignment: ChildAlignment::default(),
            grow_elements_unevenly: false,
        }
    }
}

} // verus!
