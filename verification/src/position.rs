use text_lines::TextLines;
use vstd::prelude::*;

verus! {

/// The byte-order mark, which may stand at the very start of a text and
/// takes no column.
pub const BOM: char = '\u{FEFF}';

/// The number of columns that a tab takes.
pub const TAB_WIDTH: usize = 4;

/// The number of bytes that a character takes in UTF-8.
pub open spec fn utf8_width(c: char) -> nat {
    if (c as u32) < 0x80 {
        1
    } else if (c as u32) < 0x800 {
        2
    } else if (c as u32) < 0x10000 {
        3
    } else {
        4
    }
}

/// The number of bytes that the first `k` characters of a text take in
/// UTF-8: the byte index of the character at `k`.
pub open spec fn byte_offset(text: Seq<char>, k: int) -> nat
    decreases k,
{
    if k <= 0 {
        0
    } else {
        byte_offset(text, k - 1) + utf8_width(text[k - 1])
    }
}

/// The number of bytes that a text takes in UTF-8.
pub open spec fn byte_len(text: Seq<char>) -> nat {
    byte_offset(text, text.len() as int)
}

/// The line of the character at `k`, counted from 1: one more than the
/// number of line feeds before it.
pub open spec fn line_number(text: Seq<char>, k: int) -> nat
    decreases k,
{
    if k <= 0 {
        1
    } else if text[k - 1] == '\n' {
        line_number(text, k - 1) + 1
    } else {
        line_number(text, k - 1)
    }
}

/// The column of the character at `k`, counted from 1: each character
/// before it on its line takes one column, but a tab takes four and a
/// byte-order mark at the start of the text takes none.
pub open spec fn column_number(text: Seq<char>, k: int) -> nat
    decreases k,
{
    if k <= 0 {
        1
    } else if text[k - 1] == '\n' {
        1
    } else if k == 1 && text[0] == BOM {
        1
    } else if text[k - 1] == '\t' {
        column_number(text, k - 1) + TAB_WIDTH as nat
    } else {
        column_number(text, k - 1) + 1
    }
}

/// A text short enough for columns to be counted on this machine.
pub open spec fn countable(text: Seq<char>) -> bool {
    TAB_WIDTH * byte_len(text) + 1 <= usize::MAX
}

/// `text_lines::TextLines::line_and_column_display`, asked of the index
/// that `text_lines::TextLines::new` builds for the text: for a byte index
/// at which a character of the text starts, or at which the text ends, the
/// line number and the column number of that place, both counted from 1,
/// with tabs four columns wide and no column for a byte-order mark at the
/// start of the text. The byte index must not lie beyond the text, and the
/// text must be short enough for four times its length to be a number of
/// the machine.
#[verifier::external_body]
fn display_position(text: &str, byte_index: usize) -> (at: (usize, usize))
    requires
        byte_index <= byte_len(text@),
        countable(text@),
    ensures
        forall|k: int|
            0 <= k <= text@.len() && #[trigger] byte_offset(text@, k) == byte_index ==> at.0
                == line_number(text@, k) && at.1 == column_number(text@, k),
{
    let at = TextLines::new(text).line_and_column_display(byte_index);
    (at.line_number, at.column_number)
}

/// The number of bytes that a character takes in UTF-8.
pub fn width_of(c: char) -> (width: usize)
    ensures
        width == utf8_width(c),
{
    let v = c as u32;
    if v < 0x80 {
        1
    } else if v < 0x800 {
        2
    } else if v < 0x10000 {
        3
    } else {
        4
    }
}

/// Byte offsets grow with the number of characters.
pub proof fn lemma_byte_offset_grows(text: Seq<char>, i: int, j: int)
    requires
        0 <= i <= j,
    ensures
        byte_offset(text, i) <= byte_offset(text, j),
        j - i <= byte_offset(text, j) - byte_offset(text, i) <= 4 * (j - i),
    decreases j - i,
{
    if i < j {
        lemma_byte_offset_grows(text, i, j - 1);
    }
}

/// Line and column of the character at index `k` of a text, both counted
/// from 1. A text that is too long for its columns to be counted has no
/// places: every index of it is at line 0 and column 0.
pub open spec fn place(text: Seq<char>, k: int) -> (usize, usize) {
    if countable(text) {
        (line_number(text, k) as usize, column_number(text, k) as usize)
    } else {
        (0, 0)
    }
}

/// Lines and columns are no more than the bytes of the text allow.
pub proof fn lemma_place_fits(text: Seq<char>, k: int)
    requires
        0 <= k <= text.len(),
    ensures
        line_number(text, k) <= 1 + byte_offset(text, k),
        column_number(text, k) <= 1 + TAB_WIDTH * byte_offset(text, k),
    decreases k,
{
    if k > 0 {
        lemma_place_fits(text, k - 1);
    }
}

/// Tells whether a text is short enough for its columns to be counted.
pub fn is_countable(chars: &Vec<char>) -> (ok: bool)
    ensures
        ok == countable(chars@),
{
    let limit: usize = (usize::MAX - 1) / TAB_WIDTH;
    let mut bytes: usize = 0;
    let mut i: usize = 0;
    while i < chars.len()
        invariant
            i <= chars@.len(),
            limit == (usize::MAX - 1) / (TAB_WIDTH as int),
            bytes == byte_offset(chars@, i as int),
            bytes <= limit,
        decreases chars@.len() - i,
    {
        let width = width_of(chars[i]);
        if bytes > limit - width {
            proof {
                lemma_byte_offset_grows(chars@, i + 1, chars@.len() as int);
            }
            return false;
        }
        bytes = bytes + width;
        i += 1;
    }
    true
}

/// Line and column, both counted from 1, of the character at index `k` of
/// a text, or of the end of the text where `k` is its length. `chars` holds
/// the characters of the text.
pub fn locate(text: &str, chars: &Vec<char>, k: usize) -> (at: (usize, usize))
    requires
        chars@ == text@,
        k <= chars@.len(),
    ensures
        at == place(text@, k as int),
{
    if !is_countable(chars) {
        return (0, 0);
    }
    let mut byte_index: usize = 0;
    let mut i: usize = 0;
    proof {
        lemma_byte_offset_grows(text@, 0, text@.len() as int);
    }
    while i < k
        invariant
            i <= k <= chars@.len(),
            chars@ == text@,
            byte_index == byte_offset(text@, i as int),
            byte_len(text@) <= usize::MAX,
        decreases k - i,
    {
        proof {
            lemma_byte_offset_grows(text@, i + 1, text@.len() as int);
        }
        byte_index = byte_index + width_of(chars[i]);
        i += 1;
    }
    proof {
        lemma_byte_offset_grows(text@, k as int, text@.len() as int);
        lemma_place_fits(text@, k as int);
    }
    display_position(text, byte_index)
}

} // verus!
