use crate::config::Anchor;
use vstd::prelude::*;

verus! {

/// No length that the solver handles for one parent is larger than this
/// many subpixels (2 to the power of 106).
pub const REACH: i128 = 0x400_0000_0000_0000_0000_0000_0000;

/// No child starts further from where its parent starts than this many
/// subpixels (four times `REACH`).
pub const STRIDE: i128 = 0x1000_0000_0000_0000_0000_0000_0000;

/// What an element offers the children it places along one axis. Lengths
/// are in subpixels.
#[derive(Clone, Copy, Debug, PartialEq, Eq, Structural)]
pub struct Frame {
    /// Where the element itself starts.
    pub origin: i128,
    /// Its size.
    pub extent: i128,
    /// Its padding in front of the children.
    pub near: i128,
    /// Its padding behind them.
    pub far: i128,
    /// The gap between one child and the next.
    pub gap: i128,
    /// Whether it lines its children up along this axis.
    pub along: bool,
    /// Where the free space goes.
    pub anchor: Anchor,
}

/// The first `n` sizes, added up.
pub open spec fn sum(sizes: Seq<i128>, n: int) -> int
    decreases n,
{
    if n <= 0 {
        0
    } else {
        sum(sizes, n - 1) + sizes[n - 1]
    }
}

/// The gaps between `count` children in a row.
pub open spec fn gap_total(count: int, gap: int) -> int {
    if count >= 1 {
        (count - 1) * gap
    } else {
        0
    }
}

/// Gaps that are `scale` times as wide are `scale` times as wide together.
pub proof fn lemma_gap_total_scales(count: int, gap: int, scale: int)
    ensures
        gap_total(count, gap * scale) == gap_total(count, gap) * scale,
        count >= 0 && gap >= 0 && scale >= 0 ==> gap_total(count, gap) * scale >= 0,
{
    if count >= 1 {
        assert((count - 1) * (gap * scale) == ((count - 1) * gap) * scale) by (nonlinear_arith);
        if gap >= 0 && scale >= 0 {
            assert(((count - 1) * gap) * scale >= 0) by (nonlinear_arith)
                requires
                    count >= 1,
                    gap >= 0,
                    scale >= 0,
            ;
        }
    }
}

/// Half of `x`, rounded towards zero.
pub open spec fn half(x: int) -> int {
    if x >= 0 {
        x / 2
    } else {
        -((-x) / 2)
    }
}

/// The part of the free space `slack` that goes in front of the children.
pub open spec fn anchor_offset(anchor: Anchor, slack: int) -> int {
    match anchor {
        Anchor::Start => 0,
        Anchor::Middle => half(slack),
        Anchor::End => slack,
    }
}

impl Frame {
    /// The space between the two paddings.
    pub open spec fn interior(self) -> int {
        self.extent - self.near - self.far
    }

    /// What a row of children of these sizes leaves free.
    pub open spec fn main_slack(self, sizes: Seq<i128>) -> int {
        self.interior() - gap_total(sizes.len() as int, self.gap as int) - sum(
            sizes,
            sizes.len() as int,
        )
    }

    /// What the child `k` leaves free across the row.
    pub open spec fn cross_slack(self, sizes: Seq<i128>, k: int) -> int {
        self.interior() - sizes[k]
    }

    /// Where the child `k` starts. Along the row, each child follows the
    /// one before and the free space moves them all alike; across it, each
    /// child is moved by the space that it leaves free itself.
    pub open spec fn position(self, sizes: Seq<i128>, k: int) -> int {
        if self.along {
            self.origin + self.near + sum(sizes, k) + k * self.gap + anchor_offset(
                self.anchor,
                self.main_slack(sizes),
            )
        } else {
            self.origin + self.near + anchor_offset(self.anchor, self.cross_slack(sizes, k))
        }
    }

    /// The lengths are not negative and small enough for the arithmetic.
    pub open spec fn fits(self, sizes: Seq<i128>) -> bool {
        &&& 0 <= self.extent <= REACH
        &&& 0 <= self.near <= REACH
        &&& 0 <= self.far <= REACH
        &&& 0 <= self.gap
        &&& self.gap * sizes.len() <= REACH
        &&& forall|k: int| 0 <= k < sizes.len() ==> 0 <= #[trigger] sizes[k] <= REACH
        &&& self.along ==> sum(sizes, sizes.len() as int) <= REACH
        &&& -(i128::MAX - STRIDE) <= self.origin <= i128::MAX - STRIDE
    }
}

/// Of sizes that are not negative, a shorter row adds up to no more than
/// a longer one.
pub proof fn lemma_sum_monotone(sizes: Seq<i128>, i: int, j: int)
    requires
        0 <= i <= j <= sizes.len(),
        forall|k: int| 0 <= k < sizes.len() ==> sizes[k] >= 0,
    ensures
        0 <= sum(sizes, i) <= sum(sizes, j),
    decreases j,
{
    if i < j {
        lemma_sum_monotone(sizes, i, j - 1);
    } else if i > 0 {
        lemma_sum_monotone(sizes, i - 1, i - 1);
    }
}

/// Along the row each child starts where the one before it ends, one gap
/// further.
pub proof fn law_children_follow(f: Frame, sizes: Seq<i128>, k: int)
    requires
        f.along,
        0 <= k,
        k + 1 < sizes.len(),
    ensures
        f.position(sizes, k + 1) == f.position(sizes, k) + sizes[k] + f.gap,
{
    assert((k + 1) * f.gap == k * f.gap + f.gap) by (nonlinear_arith);
}

/// Along the row, children that leave free space stay between the two
/// paddings of their parent.
pub proof fn lemma_row_inside(f: Frame, sizes: Seq<i128>, k: int)
    requires
        f.along,
        0 <= k < sizes.len(),
        f.gap >= 0,
        forall|j: int| 0 <= j < sizes.len() ==> sizes[j] >= 0,
        f.main_slack(sizes) >= 0,
    ensures
        f.origin + f.near <= f.position(sizes, k),
        f.position(sizes, k) + sizes[k] <= f.origin + f.extent - f.far,
{
    let n = sizes.len() as int;
    lemma_sum_monotone(sizes, k, k);
    lemma_sum_monotone(sizes, k + 1, n);
    assert(0 <= k * f.gap <= (n - 1) * f.gap) by (nonlinear_arith)
        requires
            0 <= k <= n - 1,
            f.gap >= 0,
    ;
}

/// Along the row, children that are moved to the far side end in front
/// of the far padding of their parent, whether they leave free space or
/// not.
pub proof fn lemma_row_ends_inside(f: Frame, sizes: Seq<i128>, k: int)
    requires
        f.along,
        f.anchor == Anchor::End,
        0 <= k < sizes.len(),
        f.gap >= 0,
        forall|j: int| 0 <= j < sizes.len() ==> sizes[j] >= 0,
    ensures
        f.position(sizes, k) + sizes[k] <= f.origin + f.extent - f.far,
{
    let n = sizes.len() as int;
    lemma_sum_monotone(sizes, k + 1, n);
    assert(0 <= k * f.gap <= (n - 1) * f.gap) by (nonlinear_arith)
        requires
            0 <= k <= n - 1,
            f.gap >= 0,
    ;
}

/// Across the row, a child that is not larger than the space between the
/// two paddings of its parent stays between them.
pub proof fn lemma_column_inside(f: Frame, sizes: Seq<i128>, k: int)
    requires
        !f.along,
        0 <= k < sizes.len(),
        f.cross_slack(sizes, k) >= 0,
    ensures
        f.origin + f.near <= f.position(sizes, k),
        f.position(sizes, k) + sizes[k] <= f.origin + f.extent - f.far,
{
}

/// Half of `x`, rounded towards zero.
pub fn halve(x: i128) -> (h: i128)
    requires
        x > i128::MIN,
    ensures
        h == half(x as int),
{
    if x >= 0 {
        x / 2
    } else {
        -((-x) / 2)
    }
}

/// Where each child starts.
pub fn place_children(frame: &Frame, sizes: &Vec<i128>) -> (pos: Vec<i128>)
    requires
        frame.fits(sizes@),
    ensures
        pos.len() == sizes.len(),
        forall|k: int| 0 <= k < sizes.len() ==> pos[k] == frame.position(sizes@, k),
        forall|k: int|
            0 <= k < sizes.len() ==> frame.origin - STRIDE <= #[trigger] pos[k] <= frame.origin
                + STRIDE,
{
    let n: usize = sizes.len();
    let interior: i128 = frame.extent - frame.near - frame.far;
    let mut pos: Vec<i128> = Vec::new();
    if frame.along {
        let mut content: i128 = 0;
        let mut i: usize = 0;
        while i < n
            invariant
                i <= n == sizes.len(),
                content == sum(sizes@, i as int),
                0 <= content <= REACH,
                frame.fits(sizes@),
                frame.along,
            decreases n - i,
        {
            proof {
                lemma_sum_monotone(sizes@, i as int + 1, n as int);
            }
            content = content + sizes[i];
            i = i + 1;
        }
        proof {
            if n >= 1 {
                assert(0 <= (n - 1) * frame.gap <= REACH) by (nonlinear_arith)
                    requires
                        n >= 1,
                        frame.gap >= 0,
                        frame.gap * n <= REACH,
                ;
            }
        }
        let gaps: i128 = if n >= 1 {
            (n as i128 - 1) * frame.gap
        } else {
            0
        };
        let slack: i128 = interior - gaps - content;
        let offset: i128 = match frame.anchor {
            Anchor::Start => 0,
            Anchor::Middle => halve(slack),
            Anchor::End => slack,
        };
        let mut before: i128 = 0;
        let mut k: usize = 0;
        while k < n
            invariant
                k <= n == sizes.len(),
                pos.len() == k,
                frame.fits(sizes@),
                frame.along,
                before == sum(sizes@, k as int),
                0 <= before <= REACH,
                offset == anchor_offset(frame.anchor, frame.main_slack(sizes@)),
                -4 * REACH <= offset <= REACH,
                forall|j: int| 0 <= j < k ==> pos[j] == frame.position(sizes@, j),
                forall|j: int|
                    0 <= j < k ==> frame.origin - STRIDE <= #[trigger] pos[j] <= frame.origin
                        + STRIDE,
            decreases n - k,
        {
            proof {
                lemma_sum_monotone(sizes@, k as int + 1, n as int);
                assert(0 <= k * frame.gap <= REACH) by (nonlinear_arith)
                    requires
                        0 <= k < n,
                        frame.gap >= 0,
                        frame.gap * n <= REACH,
                ;
            }
            let at: i128 = frame.origin + frame.near + before + (k as i128) * frame.gap + offset;
            pos.push(at);
            before = before + sizes[k];
            k = k + 1;
        }
    } else {
        let mut k: usize = 0;
        while k < n
            invariant
                k <= n == sizes.len(),
                pos.len() == k,
                frame.fits(sizes@),
                !frame.along,
                interior == frame.interior(),
                forall|j: int| 0 <= j < k ==> pos[j] == frame.position(sizes@, j),
                forall|j: int|
                    0 <= j < k ==> frame.origin - STRIDE <= #[trigger] pos[j] <= frame.origin
                        + STRIDE,
            decreases n - k,
        {
            proof {
                lemma_sum_monotone(sizes@, k as int, k as int + 1);
                lemma_sum_monotone(sizes@, k as int + 1, n as int);
            }
            let slack: i128 = interior - sizes[k];
            let offset: i128 = match frame.anchor {
                Anchor::Start => 0,
                Anchor::Middle => halve(slack),
                Anchor::End => slack,
            };
            pos.push(frame.origin + frame.near + offset);
            k = k + 1;
        }
    }
    pos
}

} // verus!
