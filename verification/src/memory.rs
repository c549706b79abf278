//! The text screen: which cells a text goes to.
use vstd::prelude::*;

verus! {

pub const WHITE_ON_BLUE: u8 = 0x1f;

pub const VGA_WIDTH: usize = 80;

pub const VGA_HEIGHT: usize = 25;

#[derive(Debug, Clone, Copy, PartialEq, Eq, Structural)]
pub struct ScreenChar {
    pub ascii_character: u8,
    pub color_code: u8,
}

/// A cell of the screen, counted from the top left, and what goes there.
#[derive(Debug, Clone, Copy, PartialEq, Eq, Structural)]
pub struct CellWrite {
    pub offset: usize,
    pub cell: ScreenChar,
}

/// The write of a byte to a cell, in the colours of the kernel.
pub open spec fn cell_write(offset: int, byte: u8) -> CellWrite {
    CellWrite {
        offset: offset as usize,
        cell: ScreenChar { ascii_character: byte, color_code: WHITE_ON_BLUE },
    }
}

/// The byte of the screen's character set for a character: a line for an em dash, ASCII as it
/// is, and a question mark for the rest.
pub open spec fn vga_code(character: char) -> u8 {
    if character as u32 == 0x2014 {
        0xc4
    } else if (character as u32) < 128 {
        character as u8
    } else {
        0x3f
    }
}

/// The writes for a text that starts at `row` and `column`: as many characters as fit into the
/// row, and none outside of the screen.
pub open spec fn text_writes(row: int, column: int, characters: Seq<char>) -> Seq<CellWrite> {
    if row >= 25 || column >= 80 {
        Seq::empty()
    } else {
        let room = 80 - column;
        let shown = if characters.len() < room {
            characters.len() as int
        } else {
            room
        };
        Seq::new(
            shown as nat,
            |i: int| cell_write(row * 80 + column + i, vga_code(characters[i])),
        )
    }
}

/// The column at which a text starts that is to stand in the middle.
pub open spec fn centered_column(length: nat) -> int {
    if length >= 80 {
        0
    } else {
        (80 - length) / 2
    }
}

fn write_cell(offset: usize, byte: u8) -> (r: CellWrite)
    ensures
        r == cell_write(offset as int, byte),
{
    CellWrite { offset, cell: ScreenChar { ascii_character: byte, color_code: WHITE_ON_BLUE } }
}

/// The writes that blank the whole screen.
pub fn clear_screen() -> (r: Vec<CellWrite>)
    ensures
        r@ == Seq::new(2000, |i: int| cell_write(i, 0x20)),
{
    let mut writes: Vec<CellWrite> = Vec::new();
    let mut offset: usize = 0;
    while offset < VGA_WIDTH * VGA_HEIGHT
        invariant
            offset <= 2000,
            writes@ == Seq::new(offset as nat, |i: int| cell_write(i, 0x20)),
        decreases 2000 - offset,
    {
        writes.push(write_cell(offset, 0x20));
        offset = offset + 1;
        assert(writes@ =~= Seq::new(offset as nat, |i: int| cell_write(i, 0x20)));
    }
    writes
}

/// The writes that put a text into the middle of a row.
pub fn write_centered(row: usize, s: &str) -> (r: Vec<CellWrite>)
    ensures
        r@ == text_writes(row as int, centered_column(s@.len()), s@),
{
    let length: usize = s.unicode_len();
    let width: usize = if length < VGA_WIDTH {
        length
    } else {
        VGA_WIDTH
    };
    let column: usize = (VGA_WIDTH - width) / 2;
    write_string_at(row, column, s)
}

/// The writes that put a text at a place of the screen.
pub fn write_string_at(row: usize, column: usize, s: &str) -> (r: Vec<CellWrite>)
    ensures
        r@ == text_writes(row as int, column as int, s@),
{
    let mut writes: Vec<CellWrite> = Vec::new();
    if row >= VGA_HEIGHT || column >= VGA_WIDTH {
        assert(writes@ =~= text_writes(row as int, column as int, s@));
        return writes;
    }
    let start: usize = row * VGA_WIDTH + column;
    let room: usize = VGA_WIDTH - column;
    let length: usize = s.unicode_len();
    let shown: usize = if length < room {
        length
    } else {
        room
    };
    let ghost all = text_writes(row as int, column as int, s@);
    let mut offset: usize = 0;
    while offset < shown
        invariant
            row < 25,
            column < 80,
            start == row * 80 + column,
            shown <= s@.len(),
            shown <= 80,
            offset <= shown,
            all == text_writes(row as int, column as int, s@),
            all.len() == shown,
            writes@ == all.take(offset as int),
        decreases shown - offset,
    {
        let character: char = s.get_char(offset);
        writes.push(write_cell(start + offset, vga_byte(character)));
        offset = offset + 1;
        assert(writes@ =~= all.take(offset as int));
    }
    assert(all.take(offset as int) =~= all);
    writes
}

/// The byte of the screen's character set for a character.
pub fn vga_byte(character: char) -> (r: u8)
    ensures
        r == vga_code(character),
{
    let code: u32 = character as u32;
    if code == 0x2014 {
        0xc4
    } else if code < 128 {
        code as u8
    } else {
        0x3f
    }
}

/// Text never goes outside of the screen, nor into another row than its own.
pub proof fn law_texts_stay_in_their_row(row: nat, column: nat, characters: Seq<char>, i: int)
    requires
        0 <= i < text_writes(row as int, column as int, characters).len(),
    ensures
        ({
            let offset = text_writes(row as int, column as int, characters)[i].offset;
            row * 80 <= offset < row * 80 + 80 && offset < 2000
        }),
{
}

/// A text that starts on the screen shows as many of its characters as fit into the row, one cell
/// behind the other, in white on blue: ASCII as it is, an em dash as a line, and a question mark
/// for any other. A text that starts outside shows nothing.
pub proof fn law_texts_show_what_fits(row: nat, column: nat, characters: Seq<char>, i: int)
    ensures
        ({
            let writes = text_writes(row as int, column as int, characters);
            &&& row >= 25 || column >= 80 ==> writes.len() == 0
            &&& row < 25 && column < 80 && column + characters.len() <= 80 ==> writes.len()
                == characters.len()
            &&& row < 25 && column < 80 && column + characters.len() > 80 ==> writes.len() + column
                == 80
            &&& 0 <= i < writes.len() ==> {
                let code = characters[i] as u32;
                &&& writes[i].offset == row * 80 + column + i
                &&& writes[i].cell.color_code == WHITE_ON_BLUE
                &&& code < 128 ==> writes[i].cell.ascii_character == characters[i] as u8
                &&& code == 0x2014 ==> writes[i].cell.ascii_character == 0xc4
                &&& code >= 128 && code != 0x2014 ==> writes[i].cell.ascii_character == 0x3f
            }
        }),
{
}

/// A centered text has as many cells to its left as to its right, or one fewer.
pub proof fn law_centered_texts_are_in_the_middle(length: nat)
    ensures
        ({
            let left = centered_column(length);
            &&& length < 80 ==> left >= 0 && left <= 80 - length - left <= left + 1
            &&& length >= 80 ==> left == 0
        }),
{
}

} // verus!
