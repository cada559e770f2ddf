use vstd::prelude::*;

verus! {

/// One child as its parent sees it while sizing along one axis. Lengths are
/// in subpixels.
#[derive(Clone, Copy, Debug, PartialEq, Eq, Structural)]
pub struct Span {
    /// The size the child has now.
    pub size: i128,
    /// The size it may not grow beyond.
    pub cap: i128,
    /// Whether it takes a share of the free space at all.
    pub grows: bool,
}

impl Span {
    /// A child can still be raised if it grows and is below its cap.
    pub open spec fn eligible(self) -> bool {
        self.grows && self.size < self.cap
    }

    /// The child after one round in which the children at `tier` (or, when
    /// growing unevenly, all that are eligible) are raised by `step`, but
    /// none beyond its cap.
    pub open spec fn raised(self, tier: int, step: int, unevenly: bool) -> Span {
        if self.eligible() && (unevenly || self.size == tier) {
            Span {
                size: (if step < self.cap - self.size {
                    self.size + step
                } else {
                    self.cap as int
                }) as i128,
                cap: self.cap,
                grows: self.grows,
            }
        } else {
            self
        }
    }
}

/// The sizes of the first `n` children, added up.
pub open spec fn total(s: Seq<Span>, n: int) -> int
    decreases n,
{
    if n <= 0 {
        0
    } else {
        total(s, n - 1) + s[n - 1].size
    }
}

/// How many of the first `n` children are eligible.
pub open spec fn eligible_count(s: Seq<Span>, n: int) -> int
    decreases n,
{
    if n <= 0 {
        0
    } else {
        eligible_count(s, n - 1) + if s[n - 1].eligible() {
            1int
        } else {
            0int
        }
    }
}

/// The smallest size among those of the first `n` children that are
/// eligible and, where `floor` is given, larger than it.
pub open spec fn lowest_above(s: Seq<Span>, floor: Option<int>, n: int) -> Option<int>
    decreases n,
{
    if n <= 0 {
        None
    } else {
        let rest = lowest_above(s, floor, n - 1);
        let sp = s[n - 1];
        if sp.eligible() && (floor matches Some(f) ==> sp.size > f) && (rest matches Some(m)
            ==> sp.size < m) {
            Some(sp.size as int)
        } else {
            rest
        }
    }
}

/// The size of the smallest eligible child (0 where none is eligible).
pub open spec fn lowest_tier(s: Seq<Span>) -> int {
    match lowest_above(s, None, s.len() as int) {
        Some(m) => m,
        None => 0,
    }
}

/// By how much one round raises a child that has the room: an even share
/// of the free space, and, unless growing unevenly, no more than takes the
/// smallest children up to the next larger ones.
pub open spec fn round_step(s: Seq<Span>, slack: int, unevenly: bool) -> int {
    let share = slack / eligible_count(s, s.len() as int);
    if unevenly {
        share
    } else {
        match lowest_above(s, Some(lowest_tier(s)), s.len() as int) {
            Some(next) => if next - lowest_tier(s) < share {
                next - lowest_tier(s)
            } else {
                share
            },
            None => share,
        }
    }
}

/// The children after one round of growth with `slack` subpixels free.
pub open spec fn round(s: Seq<Span>, slack: int, unevenly: bool) -> Seq<Span> {
    Seq::new(
        s.len(),
        |i: int| s[i].raised(lowest_tier(s), round_step(s, slack, unevenly), unevenly),
    )
}

/// The children after the free space `slack` has been handed out: round
/// after round, until no child is eligible or the space left is less than
/// one subpixel for each eligible child.
pub open spec fn distribute(s: Seq<Span>, slack: int, unevenly: bool) -> Seq<Span>
    decreases slack,
    via distribute_decreases
{
    let n = eligible_count(s, s.len() as int);
    if n <= 0 || slack < n {
        s
    } else {
        let r = round(s, slack, unevenly);
        distribute(r, slack - (total(r, r.len() as int) - total(s, s.len() as int)), unevenly)
    }
}

#[via_fn]
proof fn distribute_decreases(s: Seq<Span>, slack: int, unevenly: bool) {
    let n = eligible_count(s, s.len() as int);
    if !(n <= 0 || slack < n) {
        lemma_round_gain(s, slack, unevenly);
    }
}

/// Where a child is eligible, there is a smallest eligible size, some
/// eligible child has it, and no eligible child is smaller.
pub proof fn lemma_lowest(s: Seq<Span>, floor: Option<int>, n: int)
    requires
        0 <= n <= s.len(),
    ensures
        match lowest_above(s, floor, n) {
            Some(m) => {
                &&& exists|j: int|
                    0 <= j < n && s[j].eligible() && s[j].size == m
                &&& floor matches Some(f) ==> m > f
                &&& forall|j: int|
                    0 <= j < n && s[j].eligible() && (floor matches Some(f) ==> s[j].size > f)
                        ==> m <= #[trigger] s[j].size
            },
            None => forall|j: int|
                0 <= j < n && #[trigger] s[j].eligible() ==> (floor matches Some(f) && s[j].size
                    <= f),
        },
        floor is None && eligible_count(s, n) > 0 ==> lowest_above(s, floor, n) is Some,
    decreases n,
{
    if n > 0 {
        lemma_lowest(s, floor, n - 1);
        let rest = lowest_above(s, floor, n - 1);
        if rest is Some {
            let m = rest->0;
            let j = choose|j: int| 0 <= j < n - 1 && s[j].eligible() && s[j].size == m;
            assert(0 <= j < n && s[j].eligible() && s[j].size == m);
        }
        let sp = s[n - 1];
        if sp.eligible() && (floor matches Some(f) ==> sp.size > f) && (rest matches Some(m)
            ==> sp.size < m) {
            assert(0 <= n - 1 < n && s[n - 1].eligible() && s[n - 1].size == sp.size);
        }
    }
}

/// The number of eligible children among the first `n` lies between 0 and `n`.
pub proof fn lemma_eligible_count_bounds(s: Seq<Span>, n: int)
    requires
        0 <= n,
    ensures
        0 <= eligible_count(s, n) <= n,
    decreases n,
{
    if n > 0 {
        lemma_eligible_count_bounds(s, n - 1);
    }
}

/// What a round with a step of at least 1 does to the first `n` children:
/// none shrinks, and together they gain no more than `step` for each
/// eligible one.
proof fn lemma_round_prefix(
    s: Seq<Span>,
    r: Seq<Span>,
    tier: int,
    step: int,
    unevenly: bool,
    n: int,
)
    requires
        0 <= n <= s.len(),
        r.len() == s.len(),
        step >= 0,
        forall|i: int| 0 <= i < s.len() ==> r[i] == #[trigger] s[i].raised(tier, step, unevenly),
    ensures
        0 <= total(r, n) - total(s, n) <= step * eligible_count(s, n),
        forall|j: int|
            0 <= j < n && s[j].eligible() && (unevenly || s[j].size == tier) && step >= 1
                ==> total(r, n) - total(s, n) >= 1,
    decreases n,
{
    if n > 0 {
        lemma_round_prefix(s, r, tier, step, unevenly, n - 1);
        let sp = s[n - 1];
        assert(r[n - 1] == sp.raised(tier, step, unevenly));
        assert(step * (eligible_count(s, n - 1) + 1) == step * eligible_count(s, n - 1) + step)
            by (nonlinear_arith);
    }
}

/// The step of a round is at least 1, and all eligible children together
/// can take it without using more than the free space.
proof fn lemma_round_step(s: Seq<Span>, slack: int, unevenly: bool)
    requires
        eligible_count(s, s.len() as int) >= 1,
        slack >= eligible_count(s, s.len() as int),
    ensures
        1 <= round_step(s, slack, unevenly),
        round_step(s, slack, unevenly) * eligible_count(s, s.len() as int) <= slack,
{
    let n = eligible_count(s, s.len() as int);
    let share = slack / n;
    assert(1 <= share && share * n <= slack) by (nonlinear_arith)
        requires
            n >= 1,
            slack >= n,
            share == slack / n,
    ;
    lemma_lowest(s, None, s.len() as int);
    lemma_lowest(s, Some(lowest_tier(s)), s.len() as int);
    let step = round_step(s, slack, unevenly);
    assert(1 <= step <= share);
    assert(step * n <= share * n) by (nonlinear_arith)
        requires
            step <= share,
            n >= 1,
    ;
}

/// A round that is played hands out at least one subpixel and no more than
/// there is.
pub proof fn lemma_round_gain(s: Seq<Span>, slack: int, unevenly: bool)
    requires
        eligible_count(s, s.len() as int) >= 1,
        slack >= eligible_count(s, s.len() as int),
    ensures
        round(s, slack, unevenly).len() == s.len(),
        1 <= total(round(s, slack, unevenly), s.len() as int) - total(s, s.len() as int) <= slack,
{
    let r = round(s, slack, unevenly);
    let tier = lowest_tier(s);
    let step = round_step(s, slack, unevenly);
    lemma_round_step(s, slack, unevenly);
    lemma_round_prefix(s, r, tier, step, unevenly, s.len() as int);
    lemma_lowest(s, None, s.len() as int);
    let j = choose|j: int| 0 <= j < s.len() && s[j].eligible() && s[j].size == tier;
    assert(0 <= j < s.len() && s[j].eligible() && (unevenly || s[j].size == tier));
}

/// What the first `n` children gain in a round, all children gain too.
proof fn lemma_round_prefix_gain(s: Seq<Span>, slack: int, unevenly: bool, n: int)
    requires
        eligible_count(s, s.len() as int) >= 1,
        slack >= eligible_count(s, s.len() as int),
        0 <= n <= s.len(),
    ensures
        0 <= total(round(s, slack, unevenly), n) - total(s, n) <= slack,
    decreases s.len() - n,
{
    let r = round(s, slack, unevenly);
    if n < s.len() {
        lemma_round_prefix_gain(s, slack, unevenly, n + 1);
        lemma_round_step(s, slack, unevenly);
        lemma_round_prefix(s, r, lowest_tier(s), round_step(s, slack, unevenly), unevenly, n);
        assert(r[n] == s[n].raised(lowest_tier(s), round_step(s, slack, unevenly), unevenly));
        assert(total(r, n + 1) == total(r, n) + r[n].size);
        assert(total(s, n + 1) == total(s, n) + s[n].size);
    } else {
        lemma_round_gain(s, slack, unevenly);
    }
}

/// What handing out the free space does and does not do: it keeps the
/// caps and the order, shrinks no child, changes no child that does not
/// grow, raises none beyond its cap, hands out no more than `slack`, and
/// stops only when no child is eligible or less than one subpixel is left
/// for each eligible child.
pub proof fn lemma_distribute(s: Seq<Span>, slack: int, unevenly: bool)
    ensures
        distribute(s, slack, unevenly).len() == s.len(),
        forall|i: int|
            0 <= i < s.len() ==> {
                let d = #[trigger] distribute(s, slack, unevenly)[i];
                &&& d.cap == s[i].cap
                &&& d.grows == s[i].grows
                &&& d.size >= s[i].size
                &&& !s[i].eligible() ==> d.size == s[i].size
                &&& s[i].eligible() ==> d.size <= s[i].cap
            },
        0 <= total(distribute(s, slack, unevenly), s.len() as int) - total(s, s.len() as int),
        slack >= 0 ==> total(distribute(s, slack, unevenly), s.len() as int) - total(
            s,
            s.len() as int,
        ) <= slack,
        slack < 0 ==> distribute(s, slack, unevenly) == s,
        eligible_count(distribute(s, slack, unevenly), s.len() as int) == 0 || slack - (total(
            distribute(s, slack, unevenly),
            s.len() as int,
        ) - total(s, s.len() as int)) < eligible_count(
            distribute(s, slack, unevenly),
            s.len() as int,
        ),
    decreases slack,
{
    let n = eligible_count(s, s.len() as int);
    lemma_eligible_count_bounds(s, s.len() as int);
    if !(n <= 0 || slack < n) {
        let r = round(s, slack, unevenly);
        lemma_round_gain(s, slack, unevenly);
        let used = total(r, r.len() as int) - total(s, s.len() as int);
        lemma_distribute(r, slack - used, unevenly);
        let d = distribute(s, slack, unevenly);
        assert(d == distribute(r, slack - used, unevenly));
        assert forall|i: int| 0 <= i < s.len() implies {
            let e = #[trigger] d[i];
            &&& e.cap == s[i].cap
            &&& e.grows == s[i].grows
            &&& e.size >= s[i].size
            &&& !s[i].eligible() ==> e.size == s[i].size
            &&& s[i].eligible() ==> e.size <= s[i].cap
        } by {
            lemma_round_step(s, slack, unevenly);
            assert(r[i] == s[i].raised(lowest_tier(s), round_step(s, slack, unevenly), unevenly));
        }
    }
}

/// Growth evens the children up: a child that grows is left smaller than
/// another that grows only if it has reached its cap, or if the other did
/// not grow at all.
pub proof fn law_growth_evens_up(s: Seq<Span>, slack: int, i: int, j: int)
    requires
        0 <= i < s.len(),
        0 <= j < s.len(),
        s[i].grows,
        s[j].grows,
    ensures
        distribute(s, slack, false)[i].size < distribute(s, slack, false)[j].size ==> distribute(
            s,
            slack,
            false,
        )[i].size >= s[i].cap || distribute(s, slack, false)[j].size == s[j].size,
    decreases slack,
{
    let n = eligible_count(s, s.len() as int);
    if !(n <= 0 || slack < n) {
        let r = round(s, slack, false);
        let tier = lowest_tier(s);
        let step = round_step(s, slack, false);
        lemma_round_gain(s, slack, false);
        let used = total(r, r.len() as int) - total(s, s.len() as int);
        law_growth_evens_up(r, slack - used, i, j);
        lemma_distribute(r, slack - used, false);
        lemma_round_step(s, slack, false);
        lemma_lowest(s, None, s.len() as int);
        lemma_lowest(s, Some(tier), s.len() as int);
        let d = distribute(s, slack, false);
        assert(d == distribute(r, slack - used, false));
        assert(r[i] == s[i].raised(tier, step, false));
        assert(r[j] == s[j].raised(tier, step, false));
        assert(d[i].size >= r[i].size);
        assert(d[j].size >= r[j].size);
    }
}

/// Uneven growth treats the children alike: two children that grow and
/// stay below their caps gain the same.
pub proof fn law_growth_keeps_differences(s: Seq<Span>, slack: int, i: int, j: int)
    requires
        0 <= i < s.len(),
        0 <= j < s.len(),
        s[i].grows,
        s[j].grows,
        distribute(s, slack, true)[i].size < s[i].cap,
        distribute(s, slack, true)[j].size < s[j].cap,
    ensures
        distribute(s, slack, true)[i].size - s[i].size == distribute(s, slack, true)[j].size
            - s[j].size,
    decreases slack,
{
    let n = eligible_count(s, s.len() as int);
    if !(n <= 0 || slack < n) {
        let r = round(s, slack, true);
        let tier = lowest_tier(s);
        let step = round_step(s, slack, true);
        lemma_round_gain(s, slack, true);
        let used = total(r, r.len() as int) - total(s, s.len() as int);
        lemma_distribute(r, slack - used, true);
        lemma_round_step(s, slack, true);
        let d = distribute(s, slack, true);
        assert(d == distribute(r, slack - used, true));
        assert(r[i] == s[i].raised(tier, step, true));
        assert(r[j] == s[j].raised(tier, step, true));
        assert(d[i].size >= r[i].size);
        assert(d[j].size >= r[j].size);
        law_growth_keeps_differences(r, slack - used, i, j);
    }
}

/// Hands out the free space `slack` among the children that grow.
pub fn distribute_slack(spans: &mut Vec<Span>, slack: i128, unevenly: bool)
    requires
        forall|i: int| 0 <= i < old(spans).len() ==> old(spans)[i].size >= 0,
    ensures
        final(spans)@ == distribute(old(spans)@, slack as int, unevenly),
{
    let mut left: i128 = slack;
    let len: usize = spans.len();
    loop
        invariant
            spans.len() == len,
            distribute(spans@, left as int, unevenly) == distribute(
                old(spans)@,
                slack as int,
                unevenly,
            ),
            forall|i: int| 0 <= i < spans.len() ==> spans[i].size >= 0,
        ensures
            spans@ == distribute(old(spans)@, slack as int, unevenly),
        decreases left,
    {
        let ghost orig = spans@;
        // The eligible children and the smallest of them.
        let mut count: usize = 0;
        let mut low: i128 = 0;
        let mut i: usize = 0;
        while i < len
            invariant
                i <= len,
                spans.len() == len,
                spans@ == orig,
                count == eligible_count(orig, i as int),
                count <= i,
                low >= 0,
                forall|i: int| 0 <= i < len ==> orig[i].size >= 0,
                count == 0 ==> lowest_above(orig, None, i as int) is None,
                count > 0 ==> lowest_above(orig, None, i as int) == Some(low as int),
            decreases len - i,
        {
            let sp = spans[i];
            if sp.grows && sp.size < sp.cap {
                if count == 0 || sp.size < low {
                    low = sp.size;
                }
                count = count + 1;
            }
            i = i + 1;
        }
        if count == 0 || left < count as i128 {
            break ;
        }
        proof {
            lemma_round_gain(orig, left as int, unevenly);
            lemma_round_step(orig, left as int, unevenly);
            lemma_lowest(orig, Some(low as int), len as int);
        }
        // The next larger size, and from it the step of this round.
        let share: i128 = left / (count as i128);
        let mut step: i128 = share;
        if !unevenly {
            let mut next: i128 = 0;
            let mut found: bool = false;
            let mut j: usize = 0;
            while j < len
                invariant
                    j <= len,
                    spans.len() == len,
                    spans@ == orig,
                    low >= 0,
                    found ==> next > low,
                    !found ==> lowest_above(orig, Some(low as int), j as int) is None,
                    found ==> lowest_above(orig, Some(low as int), j as int) == Some(next as int),
                decreases len - j,
            {
                let sp = spans[j];
                if sp.grows && sp.size < sp.cap && sp.size > low && (!found || sp.size < next) {
                    next = sp.size;
                    found = true;
                }
                j = j + 1;
            }
            if found && next - low < share {
                step = next - low;
            }
        }
        assert(step == round_step(orig, left as int, unevenly));
        // Raise the children of this round.
        let ghost r = round(orig, left as int, unevenly);
        let mut used: i128 = 0;
        let mut k: usize = 0;
        while k < len
            invariant
                k <= len,
                spans.len() == len,
                orig.len() == len,
                r == round(orig, left as int, unevenly),
                low == lowest_tier(orig),
                step == round_step(orig, left as int, unevenly),
                eligible_count(orig, len as int) >= 1,
                left >= eligible_count(orig, len as int),
                forall|i: int| 0 <= i < k ==> spans[i] == r[i],
                forall|i: int| k <= i < len ==> spans[i] == orig[i],
                forall|i: int| 0 <= i < len ==> orig[i].size >= 0,
                used == total(r, k as int) - total(orig, k as int),
                0 <= used <= left,
            decreases len - k,
        {
            let sp = spans[k];
            proof {
                lemma_round_prefix_gain(orig, left as int, unevenly, k as int + 1);
                assert(r[k as int] == orig[k as int].raised(low as int, step as int, unevenly));
            }
            if sp.grows && sp.size < sp.cap && (unevenly || sp.size == low) {
                let room: i128 = sp.cap - sp.size;
                let add: i128 = if step < room {
                    step
                } else {
                    room
                };
                spans[k].size = sp.size + add;
                used = used + add;
            }
            k = k + 1;
        }
        proof {
            assert(spans@ =~= r);
            assert(forall|i: int| 0 <= i < len ==> r[i].size >= orig[i].size) by {
                assert forall|i: int| 0 <= i < len implies r[i].size >= orig[i].size by {
                    assert(r[i] == orig[i].raised(low as int, step as int, unevenly));
                }
            }
        }
        left = left - used;
    }
}

} // verus!
