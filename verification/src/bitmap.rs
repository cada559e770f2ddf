use crate::wrap::MAX_TEXT;
use vstd::prelude::*;

verus! {

/// A width and a height in whole pixels.
#[derive(Clone, Copy, Debug, PartialEq, Eq, Structural)]
pub struct PixelSize {
    pub x: u32,
    pub y: u32,
}

/// A font as a grid of equal cells in one texture. The glyph of a
/// character sits in the cell whose number is the byte offset of the
/// character in `character_list`, counted row by row.
pub struct BitmapConfiguration {
    /// The texture that holds the glyphs; never 0.
    pub texture: u32,
    /// The size of that texture.
    pub texture_size: PixelSize,
    /// The size of one cell.
    pub cell_size: PixelSize,
    /// The characters that have a glyph.
    pub character_list: String,
    /// How many cells one row of the texture holds.
    pub characters_per_row: u8,
}

/// The cell of a glyph in its texture.
#[derive(Clone, Copy, Debug, PartialEq, Eq, Structural)]
pub struct GlyphCell {
    pub column: u8,
    pub row: u64,
}

/// How many bytes a character takes in a string.
pub open spec fn utf8_len(c: char) -> int {
    if (c as u32) < 0x80 {
        1
    } else if (c as u32) < 0x800 {
        2
    } else if (c as u32) < 0x1_0000 {
        3
    } else {
        4
    }
}

/// The byte at which the character `i` of a string starts.
pub open spec fn byte_offset(list: Seq<char>, i: int) -> int
    decreases i,
{
    if i <= 0 {
        0
    } else {
        byte_offset(list, i - 1) + utf8_len(list[i - 1])
    }
}

/// The index of the first `c` among the characters from `i` on.
pub open spec fn first_at(list: Seq<char>, c: char, i: int) -> Option<int>
    decreases list.len() - i,
{
    if i < 0 || i >= list.len() {
        None
    } else if list[i] == c {
        Some(i)
    } else {
        first_at(list, c, i + 1)
    }
}

/// The number of the cell that holds the glyph of `c`: the byte at which
/// `c` first stands in `list`.
pub open spec fn glyph_index(list: Seq<char>, c: char) -> Option<int> {
    match first_at(list, c, 0) {
        Some(i) => Some(byte_offset(list, i)),
        None => None,
    }
}

/// Whether every character of `text` has a glyph.
pub open spec fn renderable(list: Seq<char>, text: Seq<char>) -> bool {
    forall|i: int| 0 <= i < text.len() ==> list.contains(#[trigger] text[i])
}

/// `first_at` finds a character exactly if the rest of the list holds it,
/// and what it finds is the first.
pub proof fn lemma_first_at(list: Seq<char>, c: char, i: int)
    requires
        0 <= i,
    ensures
        match first_at(list, c, i) {
            Some(k) => i <= k < list.len() && list[k] == c && forall|j: int|
                i <= j < k ==> list[j] != c,
            None => forall|j: int| i <= j < list.len() ==> list[j] != c,
        },
    decreases list.len() - i,
{
    if i < list.len() && list[i] != c {
        lemma_first_at(list, c, i + 1);
    }
}

/// A character has a glyph exactly if the list holds it.
pub proof fn lemma_glyph_index(list: Seq<char>, c: char)
    ensures
        glyph_index(list, c) is Some <==> list.contains(c),
{
    lemma_first_at(list, c, 0);
    if list.contains(c) {
        let j = choose|j: int| 0 <= j < list.len() && list[j] == c;
        assert(list[j] == c);
    }
}

/// A character starts no further into a string than four bytes for each
/// character before it.
pub proof fn lemma_byte_offset_bound(list: Seq<char>, i: int)
    requires
        0 <= i,
    ensures
        i <= byte_offset(list, i) <= 4 * i,
    decreases i,
{
    if i > 0 {
        lemma_byte_offset_bound(list, i - 1);
    }
}

/// The characters of a string, one by one.
pub fn chars_of(s: &str) -> (v: Vec<char>)
    ensures
        v@ == s@,
{
    let mut v: Vec<char> = Vec::new();
    for c in it: s.chars()
        invariant
            it.seq() == s@,
            v@ == it.seq().take(it.index()),
    {
        v.push(c);
    }
    v
}

/// The cell number of the glyph of `c` in a list of characters.
pub fn find_glyph(list: &Vec<char>, c: char) -> (found: Option<u64>)
    requires
        list.len() <= MAX_TEXT,
    ensures
        match found {
            Some(n) => glyph_index(list@, c) == Some(n as int),
            None => glyph_index(list@, c) is None,
        },
{
    let mut offset: u64 = 0;
    let mut i: usize = 0;
    while i < list.len()
        invariant
            i <= list.len() <= MAX_TEXT,
            offset == byte_offset(list@, i as int),
            first_at(list@, c, 0) == first_at(list@, c, i as int),
        decreases list.len() - i,
    {
        proof {
            lemma_byte_offset_bound(list@, i as int);
        }
        let at: char = list[i];
        if at == c {
            return Some(offset);
        }
        let code: u32 = at as u32;
        let width: u64 = if code < 0x80 {
            1
        } else if code < 0x800 {
            2
        } else if code < 0x1_0000 {
            3
        } else {
            4
        };
        offset = offset + width;
        i = i + 1;
    }
    None
}

impl BitmapConfiguration {
    /// The texture is named, a cell has a height, a row holds a cell, and
    /// the list of characters is not longer than a text may be.
    pub open spec fn valid(&self) -> bool {
        &&& self.texture != 0
        &&& self.cell_size.y >= 1
        &&& self.characters_per_row >= 1
        &&& self.character_list@.len() <= MAX_TEXT
    }

    /// How far, in whole pixels, a text of `len` characters runs at
    /// `font_size`: the width of its cells, scaled as the height of a cell
    /// is scaled to `font_size`.
    pub open spec fn text_width(&self, len: int, font_size: int) -> int {
        (self.cell_size.x * font_size * len) / (self.cell_size.y as int)
    }

    /// The cell of the glyph of `c`: its number, counted row by row.
    pub open spec fn cell_of(&self, c: char) -> Option<GlyphCell> {
        match glyph_index(self.character_list@, c) {
            Some(n) => Some(
                GlyphCell {
                    column: (n % (self.characters_per_row as int)) as u8,
                    row: (n / (self.characters_per_row as int)) as u64,
                },
            ),
            None => None,
        }
    }

    /// A copy of the font.
    pub fn duplicate(&self) -> (b: Self)
        ensures
            b == *self,
    {
        BitmapConfiguration {
            texture: self.texture,
            texture_size: self.texture_size,
            cell_size: self.cell_size,
            character_list: self.character_list.clone(),
            characters_per_row: self.characters_per_row,
        }
    }

    /// Whether every character of `text` has a glyph in this font.
    pub fn can_render(&self, text: &str) -> (ok: bool)
        requires
            self.valid(),
        ensures
            ok == renderable(self.character_list@, text@),
    {
        let list: Vec<char> = chars_of(self.character_list.as_str());
        let wanted: Vec<char> = chars_of(text);
        let mut i: usize = 0;
        while i < wanted.len()
            invariant
                i <= wanted.len(),
                list@ == self.character_list@,
                list.len() <= MAX_TEXT,
                wanted@ == text@,
                forall|j: int| 0 <= j < i ==> list@.contains(#[trigger] wanted@[j]),
            decreases wanted.len() - i,
        {
            proof {
                lemma_glyph_index(list@, wanted@[i as int]);
            }
            if find_glyph(&list, wanted[i]).is_none() {
                return false;
            }
            i = i + 1;
        }
        true
    }

    /// The cell of the glyph of `c`, if the font has one.
    pub fn glyph_cell(&self, c: char) -> (cell: Option<GlyphCell>)
        requires
            self.valid(),
        ensures
            cell == self.cell_of(c),
    {
        let list: Vec<char> = chars_of(self.character_list.as_str());
        match find_glyph(&list, c) {
            Some(n) => {
                let per_row: u64 = self.characters_per_row as u64;
                Some(GlyphCell { column: (n % per_row) as u8, row: n / per_row })
            },
            None => None,
        }
    }

    /// The width of `len` characters at `font_size`, in whole pixels.
    pub fn measure(&self, len: usize, font_size: u32) -> (width: u128)
        requires
            self.valid(),
            len <= MAX_TEXT,
        ensures
            width == self.text_width(len as int, font_size as int),
    {
        let cell: u128 = self.cell_size.x as u128;
        proof {
            assert(0 <= self.cell_size.x * font_size * len <= 0xffff_ffff * 0xffff_ffff
                * 0x7fff_ffff) by (nonlinear_arith)
                requires
                    0 <= self.cell_size.x <= 0xffff_ffff,
                    0 <= font_size <= 0xffff_ffff,
                    0 <= len <= 0x7fff_ffff,
            ;
            assert(0 <= self.cell_size.x * font_size <= 0xffff_ffff * 0xffff_ffff)
                by (nonlinear_arith)
                requires
                    0 <= self.cell_size.x <= 0xffff_ffff,
                    0 <= font_size <= 0xffff_ffff,
            ;
        }
        let run: u128 = cell * (font_size as u128) * (len as u128);
        run / (self.cell_size.y as u128)
    }
}

impl Clone for BitmapConfiguration {
    fn clone(&self) -> (b: Self)
        ensures
            b == *self,
    {
        self.duplicate()
    }
}

} // verus!
