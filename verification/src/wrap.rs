use crate::config::SUBPIXELS;
use vstd::prelude::*;

verus! {

/// The longest text that an element can hold, in characters.
pub const MAX_TEXT: usize = 0x7fff_ffff;

/// How many glyph cells of `cell` pixels go into `available` subpixels.
pub open spec fn line_capacity(cell: int, available: int) -> int {
    if available <= 0 || cell <= 0 {
        0
    } else {
        available / (cell * SUBPIXELS)
    }
}

/// How many times a text of `len` characters is wrapped: once for each
/// time that `available` subpixels go into its unscaled width, and never
/// more often than it has characters.
pub open spec fn wrap_count(len: int, cell: int, available: int) -> int {
    if available <= 0 || cell <= 0 {
        0
    } else if (cell * SUBPIXELS * len) / available < len {
        (cell * SUBPIXELS * len) / available
    } else {
        len
    }
}

/// Where the wrap `j` would cut a text that has no space to break at.
pub open spec fn wrap_boundary(len: int, per_line: int, j: int) -> int {
    if (j + 1) * per_line < len {
        (j + 1) * per_line
    } else {
        len
    }
}

/// The rightmost space among the characters `from..to`.
pub open spec fn last_space(text: Seq<char>, from: int, to: int) -> Option<int>
    decreases to - from,
{
    if to <= from {
        None
    } else if text[to - 1] == ' ' {
        Some(to - 1)
    } else {
        last_space(text, from, to - 1)
    }
}

/// The breaks that the wraps `j..count` add when the line being filled
/// starts at `start`. A break is the index of the last character of a
/// line. A wrap breaks at the rightmost space between `start` and its
/// boundary; where there is none it ends the line with the last character
/// before the boundary, if the text may be cut, and else not at all. The
/// next line starts behind the break.
pub open spec fn wrap_from(
    text: Seq<char>,
    per_line: int,
    cut: bool,
    j: int,
    count: int,
    start: int,
) -> Seq<int>
    decreases count - j,
{
    if j >= count {
        Seq::empty()
    } else {
        let boundary = wrap_boundary(text.len() as int, per_line, j);
        match last_space(text, start, boundary) {
            Some(s) => seq![s] + wrap_from(text, per_line, cut, j + 1, count, s + 1),
            None => if cut && start < boundary < text.len() {
                seq![boundary - 1] + wrap_from(text, per_line, cut, j + 1, count, boundary)
            } else {
                wrap_from(text, per_line, cut, j + 1, count, start)
            },
        }
    }
}

/// The indices at which a text is broken to go into `available` subpixels,
/// with glyph cells that are `cell` pixels wide.
pub open spec fn wrap_breaks(text: Seq<char>, cell: int, available: int, cut: bool) -> Seq<int> {
    wrap_from(
        text,
        line_capacity(cell, available),
        cut,
        0,
        wrap_count(text.len() as int, cell, available),
        0,
    )
}

/// The rightmost space of a range, if there is one, lies in the range, is
/// a space, and has no space behind it.
pub proof fn lemma_last_space(text: Seq<char>, from: int, to: int)
    requires
        0 <= from,
        to <= text.len(),
    ensures
        match last_space(text, from, to) {
            Some(s) => from <= s < to && text[s] == ' ' && forall|i: int|
                s < i < to ==> text[i] != ' ',
            None => forall|i: int| from <= i < to ==> text[i] != ' ',
        },
    decreases to - from,
{
    if to > from && text[to - 1] != ' ' {
        lemma_last_space(text, from, to - 1);
    }
}

/// The breaks of a text come in strictly rising order, each of them is the
/// index of one of its characters, and each is a space unless the text
/// may be cut. There are no more breaks than wraps.
pub proof fn lemma_wrap_from(
    text: Seq<char>,
    per_line: int,
    cut: bool,
    j: int,
    count: int,
    start: int,
)
    requires
        0 <= j,
        0 <= start,
        0 <= per_line,
    ensures
        wrap_from(text, per_line, cut, j, count, start).len() <= if j < count {
            count - j
        } else {
            0
        },
        forall|i: int|
            0 <= i < wrap_from(text, per_line, cut, j, count, start).len() ==> {
                let b = #[trigger] wrap_from(text, per_line, cut, j, count, start)[i];
                &&& start <= b < text.len()
                &&& text[b] == ' ' || cut
            },
        forall|i: int, k: int|
            0 <= i < k < wrap_from(text, per_line, cut, j, count, start).len() ==> wrap_from(
                text,
                per_line,
                cut,
                j,
                count,
                start,
            )[i] < wrap_from(text, per_line, cut, j, count, start)[k],
    decreases count - j,
{
    if j < count {
        let len = text.len() as int;
        let boundary = wrap_boundary(len, per_line, j);
        assert(0 <= (j + 1) * per_line) by (nonlinear_arith)
            requires
                0 <= j,
                0 <= per_line,
        ;
        if start <= boundary {
            lemma_last_space(text, start, boundary);
        }
        let all = wrap_from(text, per_line, cut, j, count, start);
        match last_space(text, start, boundary) {
            Some(s) => {
                let rest = wrap_from(text, per_line, cut, j + 1, count, s + 1);
                lemma_wrap_from(text, per_line, cut, j + 1, count, s + 1);
                assert(all =~= seq![s] + rest);
                assert forall|i: int| 0 <= i < all.len() implies {
                    let b = #[trigger] all[i];
                    &&& start <= b < text.len()
                    &&& text[b] == ' ' || cut
                } by {
                    if i > 0 {
                        assert(all[i] == rest[i - 1]);
                    }
                }
                assert forall|i: int, k: int| 0 <= i < k < all.len() implies all[i] < all[k] by {
                    assert(all[k] == rest[k - 1]);
                    if i > 0 {
                        assert(all[i] == rest[i - 1]);
                    }
                }
            },
            None => {
                if cut && start < boundary < text.len() {
                    let rest = wrap_from(text, per_line, cut, j + 1, count, boundary);
                    lemma_wrap_from(text, per_line, cut, j + 1, count, boundary);
                    assert(all =~= seq![boundary - 1] + rest);
                    assert forall|i: int| 0 <= i < all.len() implies {
                        let b = #[trigger] all[i];
                        &&& start <= b < text.len()
                        &&& text[b] == ' ' || cut
                    } by {
                        if i > 0 {
                            assert(all[i] == rest[i - 1]);
                        }
                    }
                    assert forall|i: int, k: int| 0 <= i < k < all.len() implies all[i]
                        < all[k] by {
                        assert(all[k] == rest[k - 1]);
                        if i > 0 {
                            assert(all[i] == rest[i - 1]);
                        }
                    }
                } else {
                    lemma_wrap_from(text, per_line, cut, j + 1, count, start);
                }
            },
        }
    }
}

/// A text is broken at its own characters, in rising order, at spaces or,
/// where it may be cut, before the boundaries of its wraps, and no more
/// often than it has characters.
pub proof fn lemma_wrap_breaks(text: Seq<char>, cell: int, available: int, cut: bool)
    ensures
        wrap_breaks(text, cell, available, cut).len() <= text.len(),
        rising(wrap_breaks(text, cell, available, cut)),
        forall|i: int|
            0 <= i < wrap_breaks(text, cell, available, cut).len() ==> {
                let b = #[trigger] wrap_breaks(text, cell, available, cut)[i];
                &&& 0 <= b < text.len()
                &&& text[b] == ' ' || cut
            },
{
    let len = text.len() as int;
    let per_line = line_capacity(cell, available);
    let count = wrap_count(len, cell, available);
    if available > 0 && cell > 0 {
        assert(0 <= available / (cell * SUBPIXELS)) by (nonlinear_arith)
            requires
                available > 0,
                cell * SUBPIXELS > 0,
        ;
        assert(0 <= (cell * SUBPIXELS * len) / available) by (nonlinear_arith)
            requires
                available > 0,
                cell * SUBPIXELS * len >= 0,
        ;
    }
    lemma_wrap_from(text, per_line, cut, 0, count, 0);
}

/// The index of the rightmost space among the characters `from..to`.
pub fn find_last_space(text: &Vec<char>, from: usize, to: usize) -> (found: Option<usize>)
    requires
        to <= text.len(),
    ensures
        match found {
            Some(s) => last_space(text@, from as int, to as int) == Some(s as int),
            None => last_space(text@, from as int, to as int) is None,
        },
{
    let mut at: usize = to;
    while at > from
        invariant
            at <= to <= text.len(),
            last_space(text@, from as int, at as int) == last_space(text@, from as int, to as int),
        decreases at,
    {
        if text[at - 1] == ' ' {
            return Some(at - 1);
        }
        at = at - 1;
    }
    None
}

/// The indices at which `text` is broken to go into `available` subpixels,
/// with glyph cells that are `cell` pixels wide; `cut` says whether a line
/// without a space may be broken where it overflows.
pub fn wrap_text(text: &Vec<char>, cell: u32, available: i128, cut: bool) -> (breaks: Vec<usize>)
    requires
        text.len() <= MAX_TEXT,
    ensures
        breaks@.len() == wrap_breaks(text@, cell as int, available as int, cut).len(),
        forall|i: int|
            0 <= i < breaks@.len() ==> breaks[i] as int == wrap_breaks(
                text@,
                cell as int,
                available as int,
                cut,
            )[i],
{
    let len: usize = text.len();
    let mut breaks: Vec<usize> = Vec::new();
    if available <= 0 || cell == 0 {
        return breaks;
    }
    let width: i128 = (cell as i128) * SUBPIXELS;
    proof {
        assert(0 <= width * len <= 0x1_0000_0000 * 26_214_400 * 0x7fff_ffff) by (nonlinear_arith)
            requires
                0 <= width <= 0x1_0000_0000 * 26_214_400,
                0 <= len <= 0x7fff_ffff,
        ;
    }
    let natural: i128 = width * (len as i128);
    let wraps: i128 = natural / available;
    let count: usize = if wraps < len as i128 {
        wraps as usize
    } else {
        len
    };
    let capacity: i128 = available / width;
    // A line never holds more than the whole text.
    let per_line: usize = if capacity < len as i128 {
        capacity as usize
    } else {
        len
    };
    let ghost spec_per_line = line_capacity(cell as int, available as int);
    let ghost all = wrap_breaks(text@, cell as int, available as int, cut);
    let mut start: usize = 0;
    let mut j: usize = 0;
    while j < count
        invariant
            j <= count <= len == text.len(),
            len <= MAX_TEXT,
            start <= len,
            per_line <= len,
            spec_per_line == capacity,
            capacity >= 0,
            per_line as int == if capacity < len {
                capacity as int
            } else {
                len as int
            },
            all == breaks@.map_values(|b: usize| b as int) + wrap_from(
                text@,
                spec_per_line,
                cut,
                j as int,
                count as int,
                start as int,
            ),
        decreases count - j,
    {
        proof {
            assert((j + 1) * per_line <= 0x7fff_ffff * 0x7fff_ffff) by (nonlinear_arith)
                requires
                    0 <= j < 0x7fff_ffff,
                    0 <= per_line <= 0x7fff_ffff,
            ;
            if capacity >= len {
                assert((j + 1) * capacity >= len && (j + 1) * len >= len) by (nonlinear_arith)
                    requires
                        j >= 0,
                        capacity >= len,
                        len >= 0,
                ;
            }
        }
        let reach: u64 = (j as u64 + 1) * (per_line as u64);
        let boundary: usize = if reach < len as u64 {
            reach as usize
        } else {
            len
        };
        assert(boundary as int == wrap_boundary(len as int, spec_per_line, j as int));
        let ghost before = breaks@.map_values(|b: usize| b as int);
        match find_last_space(text, start, boundary) {
            Some(s) => {
                proof {
                    lemma_last_space(text@, start as int, boundary as int);
                }
                breaks.push(s);
                start = s + 1;
                proof {
                    let rest = wrap_from(
                        text@,
                        spec_per_line,
                        cut,
                        j as int + 1,
                        count as int,
                        s as int + 1,
                    );
                    assert(breaks@.map_values(|b: usize| b as int) =~= before + seq![s as int]);
                    assert(all =~= (before + seq![s as int]) + rest);
                }
            },
            None => {
                if cut && start < boundary && boundary < len {
                    breaks.push(boundary - 1);
                    start = boundary;
                    proof {
                        let rest = wrap_from(
                            text@,
                            spec_per_line,
                            cut,
                            j as int + 1,
                            count as int,
                            boundary as int,
                        );
                        assert(breaks@.map_values(|b: usize| b as int) =~= before + seq![
                            boundary as int - 1,
                        ]);
                        assert(all =~= (before + seq![boundary as int - 1]) + rest);
                    }
                }
            },
        }
        j = j + 1;
    }
    proof {
        assert(all =~= breaks@.map_values(|b: usize| b as int));
    }
    breaks
}

/// Whether the entries of `s` rise strictly.
pub open spec fn rising(s: Seq<int>) -> bool {
    forall|i: int, j: int| 0 <= i < j < s.len() ==> s[i] < s[j]
}

/// The entries of `a` from `i` on and those of `b` from `j` on, merged in
/// rising order, with an entry that both hold taken once.
pub open spec fn merged_from(a: Seq<int>, b: Seq<int>, i: int, j: int) -> Seq<int>
    decreases a.len() - i + b.len() - j,
{
    if i < 0 || j < 0 || i > a.len() || j > b.len() || (i == a.len() && j == b.len()) {
        Seq::empty()
    } else if j >= b.len() || (i < a.len() && a[i] < b[j]) {
        seq![a[i]] + merged_from(a, b, i + 1, j)
    } else if i >= a.len() || b[j] < a[i] {
        seq![b[j]] + merged_from(a, b, i, j + 1)
    } else {
        seq![a[i]] + merged_from(a, b, i + 1, j + 1)
    }
}

/// The entries of `a` and of `b` in rising order, each once.
pub open spec fn merged(a: Seq<int>, b: Seq<int>) -> Seq<int> {
    merged_from(a, b, 0, 0)
}

/// Merging two rising rows gives a rising row that holds what either
/// holds and nothing else.
pub proof fn lemma_merged_from(a: Seq<int>, b: Seq<int>, i: int, j: int)
    requires
        rising(a),
        rising(b),
        0 <= i <= a.len(),
        0 <= j <= b.len(),
    ensures
        rising(merged_from(a, b, i, j)),
        merged_from(a, b, i, j).len() <= a.len() - i + b.len() - j,
        forall|x: int| #[trigger]
            merged_from(a, b, i, j).contains(x) <==> (exists|k: int|
                i <= k < a.len() && a[k] == x) || (exists|k: int| j <= k < b.len() && b[k] == x),
    decreases a.len() - i + b.len() - j,
{
    let all = merged_from(a, b, i, j);
    if i >= a.len() && j >= b.len() {
    } else {
        let head = all[0];
        let (ni, nj) = if j >= b.len() || (i < a.len() && a[i] < b[j]) {
            (i + 1, j)
        } else if i >= a.len() || b[j] < a[i] {
            (i, j + 1)
        } else {
            (i + 1, j + 1)
        };
        let rest = merged_from(a, b, ni, nj);
        lemma_merged_from(a, b, ni, nj);
        assert(all =~= seq![head] + rest);
        assert forall|k: int| 0 <= k < rest.len() implies head < rest[k] by {
            assert(rest.contains(rest[k]));
        }
        assert forall|x: int, y: int| 0 <= x < y < all.len() implies all[x] < all[y] by {
            assert(all[y] == rest[y - 1]);
            if x > 0 {
                assert(all[x] == rest[x - 1]);
            }
        }
        assert forall|x: int| #[trigger]
            all.contains(x) <==> (exists|k: int| i <= k < a.len() && a[k] == x) || (exists|k: int|
                j <= k < b.len() && b[k] == x) by {
            if all.contains(x) {
                let k = choose|k: int| 0 <= k < all.len() && all[k] == x;
                if k > 0 {
                    assert(rest[k - 1] == x);
                    assert(rest.contains(x));
                }
            }
            if (exists|k: int| i <= k < a.len() && a[k] == x) || (exists|k: int|
                j <= k < b.len() && b[k] == x) {
                if x == head {
                    assert(all[0] == x);
                } else {
                    assert(rest.contains(x));
                    let k = choose|k: int| 0 <= k < rest.len() && rest[k] == x;
                    assert(all[k + 1] == x);
                }
            }
        }
    }
}

/// The entries of two rising rows in rising order, each once.
pub fn merge_breaks(a: &Vec<usize>, b: &Vec<usize>) -> (all: Vec<usize>)
    ensures
        all@.map_values(|x: usize| x as int) == merged(
            a@.map_values(|x: usize| x as int),
            b@.map_values(|x: usize| x as int),
        ),
{
    let ghost sa = a@.map_values(|x: usize| x as int);
    let ghost sb = b@.map_values(|x: usize| x as int);
    let mut all: Vec<usize> = Vec::new();
    let mut i: usize = 0;
    let mut j: usize = 0;
    while i < a.len() || j < b.len()
        invariant
            i <= a.len(),
            j <= b.len(),
            sa == a@.map_values(|x: usize| x as int),
            sb == b@.map_values(|x: usize| x as int),
            merged(sa, sb) == all@.map_values(|x: usize| x as int) + merged_from(
                sa,
                sb,
                i as int,
                j as int,
            ),
        decreases a.len() - i + b.len() - j,
    {
        let ghost before = all@.map_values(|x: usize| x as int);
        let ghost rest = merged_from(sa, sb, i as int, j as int);
        let next: usize;
        if j >= b.len() || (i < a.len() && a[i] < b[j]) {
            next = a[i];
            i = i + 1;
        } else if i >= a.len() || b[j] < a[i] {
            next = b[j];
            j = j + 1;
        } else {
            next = a[i];
            i = i + 1;
            j = j + 1;
        }
        all.push(next);
        proof {
            let tail = merged_from(sa, sb, i as int, j as int);
            assert(rest =~= seq![next as int] + tail);
            assert(all@.map_values(|x: usize| x as int) =~= before + seq![next as int]);
            assert(merged(sa, sb) =~= (before + seq![next as int]) + tail);
        }
    }
    proof {
        assert(merged(sa, sb) =~= all@.map_values(|x: usize| x as int));
    }
    all
}

/// Where a character stands in a text that is broken into lines.
#[derive(Clone, Copy, Debug, PartialEq, Eq, Structural)]
pub struct GlyphSpot {
    /// The line, counted from 0.
    pub line: usize,
    /// The place in the line, counted from 0.
    pub column: usize,
}

/// How many of the first `n` breaks lie in front of character `i`: the
/// line of the character.
pub open spec fn line_of(breaks: Seq<int>, i: int, n: int) -> int
    decreases n,
{
    if n <= 0 {
        0
    } else {
        line_of(breaks, i, n - 1) + if breaks[n - 1] < i {
            1int
        } else {
            0int
        }
    }
}

/// The first character of the line of character `i`, going by the first
/// `n` breaks: the character behind the last break in front of `i`.
pub open spec fn line_start(breaks: Seq<int>, i: int, n: int) -> int
    decreases n,
{
    if n <= 0 {
        0
    } else if breaks[n - 1] < i && breaks[n - 1] + 1 > line_start(breaks, i, n - 1) {
        breaks[n - 1] + 1
    } else {
        line_start(breaks, i, n - 1)
    }
}

/// A line starts at or in front of each of its characters, and a text
/// has no more lines in front of a character than breaks.
pub proof fn lemma_line_start(breaks: Seq<int>, i: int, n: int)
    requires
        0 <= i,
    ensures
        0 <= line_start(breaks, i, n) <= i,
        0 <= line_of(breaks, i, n) <= if n > 0 {
            n
        } else {
            0
        },
    decreases n,
{
    if n > 0 {
        lemma_line_start(breaks, i, n - 1);
    }
}

/// The line and the column of each of `len` characters in a text whose
/// lines end at `breaks`.
pub fn glyph_spots(len: usize, breaks: &Vec<usize>) -> (spots: Vec<GlyphSpot>)
    ensures
        spots.len() == len,
        forall|i: int|
            0 <= i < len ==> {
                let all = breaks@.map_values(|b: usize| b as int);
                &&& (#[trigger] spots[i]).line == line_of(all, i, all.len() as int)
                &&& spots[i].column == i - line_start(all, i, all.len() as int)
            },
{
    let ghost all = breaks@.map_values(|b: usize| b as int);
    let mut spots: Vec<GlyphSpot> = Vec::new();
    let mut i: usize = 0;
    while i < len
        invariant
            i <= len,
            all == breaks@.map_values(|b: usize| b as int),
            spots.len() == i,
            forall|j: int|
                0 <= j < i ==> (#[trigger] spots[j]).line == line_of(all, j, all.len() as int)
                    && spots[j].column == j - line_start(all, j, all.len() as int),
        decreases len - i,
    {
        let mut line: usize = 0;
        let mut start: usize = 0;
        let mut b: usize = 0;
        while b < breaks.len()
            invariant
                b <= breaks.len(),
                i < len,
                all == breaks@.map_values(|b: usize| b as int),
                line == line_of(all, i as int, b as int),
                start == line_start(all, i as int, b as int),
                line <= b,
                start <= i,
            decreases breaks.len() - b,
        {
            if breaks[b] < i {
                line = line + 1;
                if breaks[b] + 1 > start {
                    start = breaks[b] + 1;
                }
            }
            b = b + 1;
        }
        spots.push(GlyphSpot { line, column: i - start });
        i = i + 1;
    }
    spots
}

} // verus!
