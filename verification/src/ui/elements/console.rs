//! Structured activity console: the text layout behind the console panel.
//!
//! The panel lists one header row per entry and, for an expanded entry, its
//! detail text wrapped into fixed-column rows. Everything here is the layout
//! and text side of that; painting stays with the GUI.
use std::collections::HashSet;
use vstd::prelude::*;

use crate::text::{
    byte_len, chars_of, is_ascii, is_ascii_char, len_utf8, lemma_byte_len_push, lines, push_str,
    text_lines, utf8_len,
};

verus! {

/// Stable identity of a console entry.
pub type ConsoleEntryId = u64;

#[derive(Clone, Copy, Debug, PartialEq, Eq)]
pub enum ConsoleSeverity {
    Info,
    Success,
    Warn,
    Error,
}

#[derive(Clone, Copy, Debug, PartialEq, Eq)]
pub enum ConsoleEntryState {
    Pending,
    Finished,
}

/// One entry of the activity log.
#[derive(Clone, Debug)]
pub struct ConsoleEntry {
    pub id: ConsoleEntryId,
    pub timestamp: String,
    pub severity: ConsoleSeverity,
    pub state: ConsoleEntryState,
    pub title: String,
    pub summary: String,
    pub details: Vec<String>,
}

// ---------------------------------------------------------------------------
// Fixed-column wrapping
// ---------------------------------------------------------------------------

/// Monospace cells a character takes in the middle of a row: a tab advances
/// to the next four-column stop, ASCII takes one cell, anything else two.
pub open spec fn cell_width(c: char, used: int) -> int {
    if c == '\t' {
        4 - used % 4
    } else if is_ascii_char(c) {
        1
    } else {
        2
    }
}

/// `x + y` saturated at `usize::MAX`.
pub open spec fn sat_add(x: int, y: int) -> int {
    if x + y > usize::MAX {
        usize::MAX as int
    } else {
        x + y
    }
}

/// The rows still to come when the scan stands at character `i` (byte
/// `byte`) with the current row starting at byte `row_start` and `used`
/// cells already taken.
pub open spec fn wrap_from(
    cs: Seq<char>,
    columns: int,
    i: int,
    byte: int,
    row_start: int,
    used: int,
) -> Seq<(int, int)>
    decreases cs.len() - i,
{
    if i >= cs.len() || i < 0 {
        seq![(row_start, byte)]
    } else {
        let c = cs[i];
        let next = byte + utf8_len(c);
        if c == '\n' {
            seq![(row_start, byte)] + wrap_from(cs, columns, i + 1, next, next, 0)
        } else {
            let width = cell_width(c, used);
            if used > 0 && sat_add(used, width) > columns {
                let width = if c == '\t' {
                    4
                } else {
                    width
                };
                seq![(row_start, byte)] + wrap_from(cs, columns, i + 1, next, byte, sat_add(0, width))
            } else {
                wrap_from(cs, columns, i + 1, next, row_start, sat_add(used, width))
            }
        }
    }
}

/// Byte ranges of the rows `text` wraps into at `columns` columns (at least
/// one): newlines always start a new row (and belong to no row), and a
/// character that would overflow a non-empty row starts the next one.
pub open spec fn wrapped_rows(text: Seq<char>, columns: int) -> Seq<(int, int)> {
    wrap_from(text, if columns < 1 { 1 } else { columns }, 0, 0, 0, 0)
}

/// Byte ranges for fixed-column rows. Newlines always start a new row, tabs
/// advance to four-column stops, and non-ASCII glyphs conservatively reserve
/// two monospace cells. Every returned boundary is a UTF-8 character boundary.
pub fn wrapped_row_ranges(text: &str, columns: usize) -> (ranges: Vec<(usize, usize)>)
    ensures
        ranges.len() == wrapped_rows(text@, columns as int).len(),
        forall|k: int|
            0 <= k < ranges.len() ==> (#[trigger] ranges@[k]).0 == wrapped_rows(text@, columns as int)[k].0
                && ranges@[k].1 == wrapped_rows(text@, columns as int)[k].1,
{
    let columns = if columns < 1 {
        1
    } else {
        columns
    };
    let cs = chars_of(text);
    let total_bytes = text.as_bytes().len();
    let mut ranges: Vec<(usize, usize)> = Vec::new();
    let mut row_start: usize = 0;
    let mut used: usize = 0;
    let mut byte: usize = 0;
    let mut i: usize = 0;
    let ghost total = wrapped_rows(text@, columns as int);
    proof {
        assert(text@.take(0) =~= Seq::<char>::empty());
    }
    while i < cs.len()
        invariant
            cs@ == text@,
            columns >= 1,
            i <= cs.len(),
            byte == byte_len(text@.take(i as int)),
            total_bytes == byte_len(text@),
            row_start <= byte,
            total == wrapped_rows(text@, columns as int),
            total == ranges@.map_values(|r: (usize, usize)| (r.0 as int, r.1 as int)) + wrap_from(
                text@,
                columns as int,
                i as int,
                byte as int,
                row_start as int,
                used as int,
            ),
        decreases cs.len() - i,
    {
        let c = cs[i];
        proof {
            lemma_byte_len_push(text@.take(i as int), c);
            assert(text@.take(i as int).push(c) =~= text@.take(i + 1));
            lemma_byte_len_prefix(text@, i as int + 1);
        }
        let next = byte + len_utf8(c);
        let ghost before = ranges@;
        if c == '\n' {
            ranges.push((row_start, byte));
            row_start = next;
            used = 0;
        } else {
            let mut width: usize = if c == '\t' {
                4 - used % 4
            } else if is_ascii(c) {
                1
            } else {
                2
            };
            if used > 0 && used.saturating_add(width) > columns {
                ranges.push((row_start, byte));
                row_start = byte;
                used = 0;
                if c == '\t' {
                    width = 4;
                }
            }
            used = used.saturating_add(width);
        }
        proof {
            assert(ranges@.map_values(|r: (usize, usize)| (r.0 as int, r.1 as int)) =~= before.map_values(
                |r: (usize, usize)| (r.0 as int, r.1 as int),
            ) + if ranges@.len() > before.len() {
                seq![(ranges@.last().0 as int, ranges@.last().1 as int)]
            } else {
                Seq::<(int, int)>::empty()
            });
        }
        byte = next;
        i = i + 1;
    }
    proof {
        assert(text@.take(i as int) =~= text@);
    }
    ranges.push((row_start, total_bytes));
    proof {
        assert(ranges@.map_values(|r: (usize, usize)| (r.0 as int, r.1 as int)) =~= total);
    }
    ranges
}

/// A prefix never has more bytes than the whole sequence.
proof fn lemma_byte_len_prefix(s: Seq<char>, n: int)
    requires
        0 <= n <= s.len(),
    ensures
        byte_len(s.take(n)) <= byte_len(s),
{
    crate::text::lemma_encode_concat(s.take(n), s.skip(n));
    assert(s.take(n) + s.skip(n) =~= s);
}

/// Whether `b` is the byte offset at which some character of `cs` starts
/// (or the end of the text): a UTF-8 character boundary.
pub open spec fn is_char_offset(cs: Seq<char>, b: int) -> bool {
    exists|j: int| 0 <= j <= cs.len() && #[trigger] byte_len(cs.take(j)) == b
}

/// A longer prefix has at least as many bytes.
proof fn lemma_byte_len_prefix_monotone(s: Seq<char>, a: int, b: int)
    requires
        0 <= a <= b <= s.len(),
    ensures
        byte_len(s.take(a)) <= byte_len(s.take(b)),
{
    crate::text::lemma_encode_concat(s.take(a), s.subrange(a, b));
    assert(s.take(a) + s.subrange(a, b) =~= s.take(b));
}

proof fn lemma_wrap_from_rows(cs: Seq<char>, columns: int, i: int, byte: int, row_start: int, used: int, js: int)
    requires
        0 <= js <= i <= cs.len(),
        byte == byte_len(cs.take(i)),
        row_start == byte_len(cs.take(js)),
    ensures
        ({
            let rows = wrap_from(cs, columns, i, byte, row_start, used);
            &&& rows.len() >= 1
            &&& rows[0].0 == row_start
            &&& rows.last().1 == byte_len(cs)
            &&& forall|k: int|
                0 <= k < rows.len() ==> (#[trigger] rows[k]).0 <= rows[k].1 && is_char_offset(cs, rows[k].0)
                    && is_char_offset(cs, rows[k].1)
            &&& forall|k: int| 0 <= k < rows.len() - 1 ==> (#[trigger] rows[k]).1 <= rows[k + 1].0
        }),
    decreases cs.len() - i,
{
    let rows = wrap_from(cs, columns, i, byte, row_start, used);
    lemma_byte_len_prefix_monotone(cs, js, i);
    assert(byte_len(cs.take(js)) == row_start);
    assert(byte_len(cs.take(i)) == byte);
    if i >= cs.len() {
        assert(cs.take(i) =~= cs);
    } else {
        let c = cs[i];
        let next = byte + utf8_len(c);
        crate::text::lemma_byte_len_push(cs.take(i), c);
        assert(cs.take(i).push(c) =~= cs.take(i + 1));
        assert(byte_len(cs.take(i + 1)) == next);
        let width = cell_width(c, used);
        if c == '\n' {
            lemma_wrap_from_rows(cs, columns, i + 1, next, next, 0, i + 1);
            let rest = wrap_from(cs, columns, i + 1, next, next, 0);
            assert(rows == seq![(row_start, byte)] + rest);
            assert forall|k: int| 0 <= k < rows.len() implies (#[trigger] rows[k]).0 <= rows[k].1 && is_char_offset(cs, rows[k].0)
                && is_char_offset(cs, rows[k].1) by {
                if k > 0 {
                    assert(rows[k] == rest[k - 1]);
                }
            }
            assert forall|k: int| 0 <= k < rows.len() - 1 implies (#[trigger] rows[k]).1 <= rows[k + 1].0 by {
                if k > 0 {
                    assert(rows[k] == rest[k - 1]);
                    assert(rows[k + 1] == rest[k]);
                }
            }
        } else if used > 0 && sat_add(used, width) > columns {
            let w2 = if c == '\t' {
                4
            } else {
                width
            };
            lemma_wrap_from_rows(cs, columns, i + 1, next, byte, sat_add(0, w2), i);
            let rest = wrap_from(cs, columns, i + 1, next, byte, sat_add(0, w2));
            assert(rows == seq![(row_start, byte)] + rest);
            assert forall|k: int| 0 <= k < rows.len() implies (#[trigger] rows[k]).0 <= rows[k].1 && is_char_offset(cs, rows[k].0)
                && is_char_offset(cs, rows[k].1) by {
                if k > 0 {
                    assert(rows[k] == rest[k - 1]);
                }
            }
            assert forall|k: int| 0 <= k < rows.len() - 1 implies (#[trigger] rows[k]).1 <= rows[k + 1].0 by {
                if k > 0 {
                    assert(rows[k] == rest[k - 1]);
                    assert(rows[k + 1] == rest[k]);
                }
            }
        } else {
            lemma_wrap_from_rows(cs, columns, i + 1, next, row_start, sat_add(used, width), js);
        }
    }
}

/// The wrapped rows of a text run in order through it: the first starts at
/// byte 0, the last ends at the end of the text, each row ends no later
/// than the next begins, and every row boundary is a character boundary.
pub proof fn law_wrapped_rows_cover_text_in_order(text: Seq<char>, columns: int)
    ensures
        ({
            let rows = wrapped_rows(text, columns);
            &&& rows.len() >= 1
            &&& rows[0].0 == 0
            &&& rows.last().1 == byte_len(text)
            &&& forall|k: int|
                0 <= k < rows.len() ==> (#[trigger] rows[k]).0 <= rows[k].1 && is_char_offset(text, rows[k].0)
                    && is_char_offset(text, rows[k].1)
            &&& forall|k: int| 0 <= k < rows.len() - 1 ==> (#[trigger] rows[k]).1 <= rows[k + 1].0
        }),
{
    assert(text.take(0) =~= Seq::<char>::empty());
    lemma_wrap_from_rows(text, if columns < 1 { 1 } else { columns }, 0, 0, 0, 0, 0);
}

/// Cells a row of characters takes when laid out from its start.
pub open spec fn row_cells(s: Seq<char>) -> int
    decreases s.len(),
{
    if s.len() == 0 {
        0
    } else {
        let before = row_cells(s.drop_last());
        sat_add(before, cell_width(s.last(), before))
    }
}

/// The rows of [`wrap_from`] as character positions: `a` is the character
/// the current row starts at.
pub open spec fn wrap_chars(cs: Seq<char>, columns: int, i: int, a: int, used: int) -> Seq<(int, int)>
    decreases cs.len() - i,
{
    if i >= cs.len() || i < 0 {
        seq![(a, i)]
    } else {
        let c = cs[i];
        if c == '\n' {
            seq![(a, i)] + wrap_chars(cs, columns, i + 1, i + 1, 0)
        } else {
            let width = cell_width(c, used);
            if used > 0 && sat_add(used, width) > columns {
                let width = if c == '\t' {
                    4
                } else {
                    width
                };
                seq![(a, i)] + wrap_chars(cs, columns, i + 1, i, sat_add(0, width))
            } else {
                wrap_chars(cs, columns, i + 1, a, sat_add(used, width))
            }
        }
    }
}

/// The rows `text` wraps into at `columns` columns, as character positions.
pub open spec fn wrapped_char_rows(text: Seq<char>, columns: int) -> Seq<(int, int)> {
    wrap_chars(text, if columns < 1 { 1 } else { columns }, 0, 0, 0)
}

/// The byte offset at which character `j` of `cs` starts.
pub open spec fn byte_at(cs: Seq<char>, j: int) -> int {
    byte_len(cs.take(j)) as int
}

/// Row `r` (character positions `r.0..r.1`) of `cs` at `columns` columns:
/// it holds no newline, and it fits in the columns unless it is a single
/// character.
pub open spec fn row_fits(cs: Seq<char>, columns: int, r: (int, int)) -> bool {
    &&& forall|m: int| r.0 <= m < r.1 ==> #[trigger] cs[m] != '\n'
    &&& (r.1 - r.0 <= 1 || row_cells(cs.subrange(r.0, r.1)) <= columns)
}

/// Row `r` is followed by row `next` only because it had to be: the
/// character after `r` is a newline that `next` starts after, or it would
/// not have fitted on the non-empty row `r`, and `next` starts with it.
pub open spec fn row_ends_greedily(cs: Seq<char>, columns: int, r: (int, int), next: (int, int)) -> bool {
    ||| cs[r.1] == '\n' && next.0 == r.1 + 1
    ||| r.1 > r.0 && next.0 == r.1 && row_cells(cs.subrange(r.0, r.1 + 1)) > columns
}

proof fn lemma_wrap_chars_bytes(cs: Seq<char>, columns: int, i: int, a: int, used: int)
    requires
        0 <= a <= i <= cs.len(),
    ensures
        wrap_from(cs, columns, i, byte_at(cs, i), byte_at(cs, a), used) == wrap_chars(cs, columns, i, a, used).map_values(
            |r: (int, int)| (byte_at(cs, r.0), byte_at(cs, r.1)),
        ),
    decreases cs.len() - i,
{
    let f = |r: (int, int)| (byte_at(cs, r.0), byte_at(cs, r.1));
    if i < cs.len() {
        let c = cs[i];
        crate::text::lemma_byte_len_push(cs.take(i), c);
        assert(cs.take(i).push(c) =~= cs.take(i + 1));
        let width = cell_width(c, used);
        if c == '\n' {
            lemma_wrap_chars_bytes(cs, columns, i + 1, i + 1, 0);
            let rest = wrap_chars(cs, columns, i + 1, i + 1, 0);
            assert((seq![(a, i)] + rest).map_values(f) =~= seq![f((a, i))] + rest.map_values(f));
        } else if used > 0 && sat_add(used, width) > columns {
            let w2 = if c == '\t' {
                4
            } else {
                width
            };
            lemma_wrap_chars_bytes(cs, columns, i + 1, i, sat_add(0, w2));
            let rest = wrap_chars(cs, columns, i + 1, i, sat_add(0, w2));
            assert((seq![(a, i)] + rest).map_values(f) =~= seq![f((a, i))] + rest.map_values(f));
        } else {
            lemma_wrap_chars_bytes(cs, columns, i + 1, a, sat_add(used, width));
        }
    } else {
        assert(seq![(a, i)].map_values(f) =~= seq![f((a, i))]);
    }
}

proof fn lemma_wrap_chars_rows(cs: Seq<char>, columns: int, i: int, a: int, used: int)
    requires
        0 <= a <= i <= cs.len(),
        columns >= 1,
        forall|m: int| a <= m < i ==> #[trigger] cs[m] != '\n',
        used == row_cells(cs.subrange(a, i)),
        used >= 0,
        i > a ==> used > 0,
        i - a <= 1 || used <= columns,
    ensures
        ({
            let rows = wrap_chars(cs, columns, i, a, used);
            &&& rows.len() >= 1
            &&& rows[0].0 == a
            &&& rows.last().1 == cs.len()
            &&& forall|k: int|
                0 <= k < rows.len() ==> a <= (#[trigger] rows[k]).0 <= rows[k].1 <= cs.len() && row_fits(
                    cs,
                    columns,
                    rows[k],
                )
            &&& forall|k: int|
                0 <= k < rows.len() - 1 ==> row_ends_greedily(cs, columns, #[trigger] rows[k], rows[k + 1])
        }),
    decreases cs.len() - i,
{
    let rows = wrap_chars(cs, columns, i, a, used);
    if i >= cs.len() {
        assert(rows == seq![(a, i)]);
    } else {
        let c = cs[i];
        let width = cell_width(c, used);
        assert(cs.subrange(a, i + 1).drop_last() =~= cs.subrange(a, i));
        assert(cs.subrange(a, i + 1).last() == c);
        assert(row_cells(cs.subrange(a, i + 1)) == sat_add(used, width));
        if c == '\n' {
            assert(cs.subrange(i + 1, i + 1) =~= Seq::<char>::empty());
            lemma_wrap_chars_rows(cs, columns, i + 1, i + 1, 0);
            let rest = wrap_chars(cs, columns, i + 1, i + 1, 0);
            assert(rows == seq![(a, i)] + rest);
            assert forall|k: int| 0 <= k < rows.len() implies a <= (#[trigger] rows[k]).0 <= rows[k].1 <= cs.len()
                && row_fits(cs, columns, rows[k]) by {
                if k > 0 {
                    assert(rows[k] == rest[k - 1]);
                }
            }
            assert forall|k: int| 0 <= k < rows.len() - 1 implies row_ends_greedily(
                cs,
                columns,
                #[trigger] rows[k],
                rows[k + 1],
            ) by {
                assert(rows[k + 1] == rest[k]);
                if k > 0 {
                    assert(rows[k] == rest[k - 1]);
                }
            }
        } else if used > 0 && sat_add(used, width) > columns {
            let w2 = if c == '\t' {
                4
            } else {
                width
            };
            assert(cs.subrange(i, i + 1).drop_last() =~= Seq::<char>::empty());
            assert(cs.subrange(i, i + 1).last() == c);
            assert(row_cells(Seq::<char>::empty()) == 0);
            assert(cell_width(c, 0) == w2);
            assert(row_cells(cs.subrange(i, i + 1)) == sat_add(0, cell_width(c, 0)));
            lemma_wrap_chars_rows(cs, columns, i + 1, i, sat_add(0, w2));
            let rest = wrap_chars(cs, columns, i + 1, i, sat_add(0, w2));
            assert(rows == seq![(a, i)] + rest);
            assert forall|k: int| 0 <= k < rows.len() implies a <= (#[trigger] rows[k]).0 <= rows[k].1 <= cs.len()
                && row_fits(cs, columns, rows[k]) by {
                if k > 0 {
                    assert(rows[k] == rest[k - 1]);
                }
            }
            assert forall|k: int| 0 <= k < rows.len() - 1 implies row_ends_greedily(
                cs,
                columns,
                #[trigger] rows[k],
                rows[k + 1],
            ) by {
                assert(rows[k + 1] == rest[k]);
                if k > 0 {
                    assert(rows[k] == rest[k - 1]);
                }
            }
        } else {
            lemma_wrap_chars_rows(cs, columns, i + 1, a, sat_add(used, width));
        }
    }
}

/// How the console wraps text: the byte rows of [`wrapped_rows`] are the
/// character rows of [`wrapped_char_rows`], which run from the first
/// character to the last; no row holds a newline, every row fits in the
/// columns unless it is one character wider than them, and a row ends only
/// at a newline or where its next character would not fit.
pub proof fn law_wrapped_rows_fill_greedily(text: Seq<char>, columns: int)
    ensures
        ({
            let width = if columns < 1 { 1 } else { columns };
            let rows = wrapped_char_rows(text, columns);
            &&& wrapped_rows(text, columns) == rows.map_values(
                |r: (int, int)| (byte_at(text, r.0), byte_at(text, r.1)),
            )
            &&& rows.len() >= 1
            &&& rows[0].0 == 0
            &&& rows.last().1 == text.len()
            &&& forall|k: int|
                0 <= k < rows.len() ==> 0 <= (#[trigger] rows[k]).0 <= rows[k].1 <= text.len() && row_fits(
                    text,
                    width,
                    rows[k],
                )
            &&& forall|k: int|
                0 <= k < rows.len() - 1 ==> row_ends_greedily(text, width, #[trigger] rows[k], rows[k + 1])
        }),
{
    let width = if columns < 1 { 1 } else { columns };
    assert(text.take(0) =~= Seq::<char>::empty());
    assert(text.subrange(0, 0) =~= Seq::<char>::empty());
    lemma_wrap_chars_bytes(text, width, 0, 0, 0);
    lemma_wrap_chars_rows(text, width, 0, 0, 0);
}

// ---------------------------------------------------------------------------
// Tab expansion
// ---------------------------------------------------------------------------

/// Columns a non-tab character takes: one for ASCII, two for anything else.
pub open spec fn glyph_cells(c: char) -> int {
    if is_ascii_char(c) {
        1
    } else {
        2
    }
}

/// Text of `cs` with each tab replaced by spaces up to the next multiple of
/// `tab_width` columns, starting at column `column`; ASCII characters take
/// one column and all others two.
pub open spec fn expand_from(cs: Seq<char>, tab_width: int, column: int) -> Seq<char>
    decreases cs.len(),
{
    if cs.len() == 0 {
        Seq::empty()
    } else if cs[0] == '\t' {
        let spaces = tab_width - column % tab_width;
        Seq::new(spaces as nat, |k: int| ' ') + expand_from(cs.drop_first(), tab_width, column + spaces)
    } else {
        seq![cs[0]] + expand_from(
            cs.drop_first(),
            tab_width,
            column + glyph_cells(cs[0]),
        )
    }
}

/// The column reached after laying out `cs` from column `column`.
pub open spec fn end_column(cs: Seq<char>, tab_width: int, column: int) -> int
    decreases cs.len(),
{
    if cs.len() == 0 {
        column
    } else if cs[0] == '\t' {
        end_column(cs.drop_first(), tab_width, column + (tab_width - column % tab_width))
    } else {
        end_column(
            cs.drop_first(),
            tab_width,
            column + glyph_cells(cs[0]),
        )
    }
}

proof fn lemma_end_column_monotone(cs: Seq<char>, tab_width: int, column: int)
    requires
        tab_width > 0 || forall|k: int| 0 <= k < cs.len() ==> cs[k] != '\t',
        column >= 0,
    ensures
        end_column(cs, tab_width, column) >= column,
    decreases cs.len(),
{
    if cs.len() > 0 {
        let step = if cs[0] == '\t' {
            tab_width - column % tab_width
        } else {
            glyph_cells(cs[0])
        };
        assert(forall|k: int| 0 <= k < cs.drop_first().len() ==> cs.drop_first()[k] == cs[k + 1]);
        lemma_end_column_monotone(cs.drop_first(), tab_width, column + step);
    }
}

/// Display columns of text without tabs: one for each ASCII character, two
/// for any other.
pub open spec fn text_columns(s: Seq<char>) -> int
    decreases s.len(),
{
    if s.len() == 0 {
        0
    } else {
        text_columns(s.drop_last()) + if (s.last() as u32) < 128 {
            1int
        } else {
            2int
        }
    }
}

proof fn lemma_text_columns_concat(a: Seq<char>, b: Seq<char>)
    ensures
        text_columns(a + b) == text_columns(a) + text_columns(b),
    decreases b.len(),
{
    if b.len() == 0 {
        assert(a + b =~= a);
    } else {
        lemma_text_columns_concat(a, b.drop_last());
        assert((a + b).drop_last() =~= a + b.drop_last());
        assert((a + b).last() == b.last());
    }
}

proof fn lemma_text_columns_spaces(n: nat)
    ensures
        text_columns(Seq::new(n, |k: int| ' ')) == n,
    decreases n,
{
    if n > 0 {
        lemma_text_columns_spaces((n - 1) as nat);
        assert(Seq::new(n, |k: int| ' ').drop_last() =~= Seq::new((n - 1) as nat, |k: int| ' '));
    }
}

/// Expanding one more character appends what that character expands to at
/// the column the text before it reached.
proof fn lemma_expand_push(a: Seq<char>, c: char, tab_width: int, column: int)
    ensures
        expand_from(a.push(c), tab_width, column) == expand_from(a, tab_width, column) + expand_from(
            seq![c],
            tab_width,
            end_column(a, tab_width, column),
        ),
    decreases a.len(),
{
    if a.len() == 0 {
        assert(a.push(c) =~= seq![c]);
        assert(expand_from(a, tab_width, column) =~= Seq::<char>::empty());
        assert(Seq::<char>::empty() + expand_from(seq![c], tab_width, column) =~= expand_from(seq![c], tab_width, column));
    } else {
        assert(a.push(c).drop_first() =~= a.drop_first().push(c));
        assert(a.push(c)[0] == a[0]);
        let step = if a[0] == '\t' {
            tab_width - column % tab_width
        } else {
            glyph_cells(a[0])
        };
        lemma_expand_push(a.drop_first(), c, tab_width, column + step);
        let head = if a[0] == '\t' {
            Seq::new(step as nat, |k: int| ' ')
        } else {
            seq![a[0]]
        };
        assert(expand_from(a.push(c), tab_width, column) == head + expand_from(a.drop_first().push(c), tab_width, column + step));
        assert(expand_from(a, tab_width, column) == head + expand_from(a.drop_first(), tab_width, column + step));
        assert(head + (expand_from(a.drop_first(), tab_width, column + step) + expand_from(
            seq![c],
            tab_width,
            end_column(a, tab_width, column),
        )) =~= (head + expand_from(a.drop_first(), tab_width, column + step)) + expand_from(
            seq![c],
            tab_width,
            end_column(a, tab_width, column),
        ));
    }
}

/// The expansion of `a` from column `column` takes the columns up to where
/// the layout ends.
proof fn lemma_expand_columns(a: Seq<char>, tab_width: int, column: int)
    requires
        tab_width > 0,
        column >= 0,
    ensures
        text_columns(expand_from(a, tab_width, column)) == end_column(a, tab_width, column) - column,
    decreases a.len(),
{
    if a.len() > 0 {
        let step = if a[0] == '\t' {
            tab_width - column % tab_width
        } else {
            glyph_cells(a[0])
        };
        lemma_expand_columns(a.drop_first(), tab_width, column + step);
        let head = if a[0] == '\t' {
            Seq::new(step as nat, |k: int| ' ')
        } else {
            seq![a[0]]
        };
        assert(expand_from(a, tab_width, column) == head + expand_from(a.drop_first(), tab_width, column + step));
        assert(end_column(a, tab_width, column) == end_column(a.drop_first(), tab_width, column + step));
        lemma_text_columns_concat(head, expand_from(a.drop_first(), tab_width, column + step));
        if a[0] == '\t' {
            lemma_text_columns_spaces(step as nat);
        } else {
            assert(seq![a[0]].drop_last() =~= Seq::<char>::empty());
            assert(text_columns(Seq::<char>::empty()) == 0);
            assert(seq![a[0]].last() == a[0]);
            assert(text_columns(seq![a[0]]) == glyph_cells(a[0]));
        }
    } else {
        assert(expand_from(a, tab_width, column) =~= Seq::<char>::empty());
    }
}

/// How tabs expand: reading the text one character at a time, a character
/// other than a tab is copied, and a tab becomes between one and
/// `tab_width` spaces, just enough that the columns laid out so far (one per
/// ASCII character, two per other) reach a multiple of `tab_width`.
pub proof fn law_tabs_reach_tab_stops(text: Seq<char>, tab_width: int)
    requires
        tab_width > 0,
    ensures
        expand_from(text.take(0), tab_width, 0) == Seq::<char>::empty(),
        forall|i: int|
            0 <= i < text.len() ==> {
                let before = expand_from(text.take(i), tab_width, 0);
                let after = #[trigger] expand_from(text.take(i + 1), tab_width, 0);
                if text[i] == '\t' {
                    &&& before.len() < after.len() <= before.len() + tab_width
                    &&& after == before + Seq::new((after.len() - before.len()) as nat, |k: int| ' ')
                    &&& text_columns(after) % tab_width == 0
                } else {
                    after == before.push(text[i])
                }
            },
{
    assert(expand_from(text.take(0), tab_width, 0) =~= Seq::<char>::empty());
    assert forall|i: int| 0 <= i < text.len() implies {
        let before = expand_from(text.take(i), tab_width, 0);
        let after = #[trigger] expand_from(text.take(i + 1), tab_width, 0);
        if text[i] == '\t' {
            &&& before.len() < after.len() <= before.len() + tab_width
            &&& after == before + Seq::new((after.len() - before.len()) as nat, |k: int| ' ')
            &&& text_columns(after) % tab_width == 0
        } else {
            after == before.push(text[i])
        }
    } by {
        let a = text.take(i);
        let c = text[i];
        assert(a.push(c) =~= text.take(i + 1));
        lemma_expand_push(a, c, tab_width, 0);
        let e = end_column(a, tab_width, 0);
        lemma_end_column_monotone(a, tab_width, 0);
        let before = expand_from(a, tab_width, 0);
        let tail = expand_from(seq![c], tab_width, e);
        assert(seq![c].drop_first() =~= Seq::<char>::empty());
        if c == '\t' {
            let spaces = tab_width - e % tab_width;
            assert(expand_from(seq![c].drop_first(), tab_width, e + spaces) =~= Seq::<char>::empty());
            assert(tail =~= Seq::new(spaces as nat, |k: int| ' '));
            lemma_expand_columns(a, tab_width, 0);
            lemma_text_columns_concat(before, tail);
            lemma_text_columns_spaces(spaces as nat);
            vstd::arithmetic::div_mod::lemma_fundamental_div_mod(e, tab_width);
            vstd::arithmetic::mul::lemma_mul_is_distributive_add(tab_width, e / tab_width, 1);
            vstd::arithmetic::div_mod::lemma_mod_multiples_vanish(e / tab_width + 1, 0, tab_width);
            assert(text_columns(before + tail) == tab_width * (e / tab_width + 1));
        } else {
            assert(expand_from(seq![c].drop_first(), tab_width, e + glyph_cells(c)) =~= Seq::<char>::empty());
            assert(tail =~= seq![c]);
            assert(before + seq![c] =~= before.push(c));
        }
    }
}

/// `text` with every tab expanded to spaces at `tab_width`-column stops.
pub fn expand_tabs(text: &str, tab_width: usize) -> (output: String)
    requires
        tab_width > 0 || !text@.contains('\t'),
        end_column(text@, tab_width as int, 0) <= usize::MAX,
    ensures
        output@ == expand_from(text@, tab_width as int, 0),
{
    let cs = chars_of(text);
    let mut output = String::new();
    let mut column: usize = 0;
    let mut i: usize = 0;
    proof {
        assert(text@.skip(0) =~= text@);
    }
    while i < cs.len()
        invariant
            cs@ == text@,
            tab_width > 0 || forall|k: int| 0 <= k < text@.len() ==> text@[k] != '\t',
            i <= cs.len(),
            output@ + expand_from(text@.skip(i as int), tab_width as int, column as int) == expand_from(
                text@,
                tab_width as int,
                0,
            ),
            end_column(text@.skip(i as int), tab_width as int, column as int) == end_column(
                text@,
                tab_width as int,
                0,
            ),
            end_column(text@, tab_width as int, 0) <= usize::MAX,
        decreases cs.len() - i,
    {
        let character = cs[i];
        let ghost rest = text@.skip(i as int);
        proof {
            assert(rest[0] == character);
            assert(rest.drop_first() =~= text@.skip(i + 1));
        }
        if character == '\t' {
            let spaces = tab_width - column % tab_width;
            proof {
                lemma_end_column_monotone(rest.drop_first(), tab_width as int, column + spaces);
            }
            let ghost start = output@;
            let mut k: usize = 0;
            while k < spaces
                invariant
                    k <= spaces,
                    output@ == start + Seq::new(k as nat, |m: int| ' '),
                decreases spaces - k,
            {
                output.push(' ');
                k = k + 1;
                proof {
                    assert(start + Seq::new(k as nat, |m: int| ' ') =~= (start + Seq::new(
                        (k - 1) as nat,
                        |m: int| ' ',
                    )).push(' '));
                }
            }
            column = column + spaces;
        } else {
            let step: usize = if is_ascii(character) {
                1
            } else {
                2
            };
            proof {
                lemma_end_column_monotone(rest.drop_first(), tab_width as int, column + step);
            }
            output.push(character);
            column = column + step;
        }
        proof {
            let tail = expand_from(rest.drop_first(), tab_width as int, column as int);
            assert(output@ + tail =~= expand_from(text@, tab_width as int, 0));
        }
        i = i + 1;
    }
    proof {
        assert(text@.skip(i as int) =~= Seq::<char>::empty());
        assert(output@ + Seq::<char>::empty() =~= output@);
    }
    output
}


// ---------------------------------------------------------------------------
// Copyable text
// ---------------------------------------------------------------------------

/// The severity tag of an entry in copied text.
pub open spec fn severity_label(state: ConsoleEntryState, severity: ConsoleSeverity) -> Seq<char> {
    match (state, severity) {
        (ConsoleEntryState::Pending, _) => "PENDING"@,
        (_, ConsoleSeverity::Info) => "INFO"@,
        (_, ConsoleSeverity::Success) => "SUCCESS"@,
        (_, ConsoleSeverity::Warn) => "WARN"@,
        (_, ConsoleSeverity::Error) => "ERROR"@,
    }
}

/// Detail lines, each indented by two spaces and ended by a newline.
pub open spec fn indented_lines(ls: Seq<Seq<char>>) -> Seq<char>
    decreases ls.len(),
{
    if ls.len() == 0 {
        Seq::empty()
    } else {
        indented_lines(ls.drop_last()) + "  "@ + ls.last() + seq!['\n']
    }
}

/// The copied text of the first `n` details.
pub open spec fn details_text(details: Seq<String>, n: int) -> Seq<char>
    decreases n,
{
    if n <= 0 {
        Seq::empty()
    } else {
        details_text(details, n - 1) + indented_lines(lines(details[n - 1]@))
    }
}

/// The copied text of one entry: `[timestamp] [SEVERITY] title: summary`
/// on one line, then every line of every detail indented by two spaces.
pub open spec fn entry_text(entry: ConsoleEntry) -> Seq<char> {
    seq!['['] + entry.timestamp@ + "] ["@ + severity_label(entry.state, entry.severity) + "] "@
        + entry.title@ + ": "@ + entry.summary@ + seq!['\n'] + details_text(
        entry.details@,
        entry.details@.len() as int,
    )
}

/// The copied text of the first `n` entries, one after another.
pub open spec fn entries_text(entries: Seq<ConsoleEntry>, n: int) -> Seq<char>
    decreases n,
{
    if n <= 0 {
        Seq::empty()
    } else {
        entries_text(entries, n - 1) + entry_text(entries[n - 1])
    }
}

/// The severity tag shown for an entry in copied text; a pending entry is
/// tagged as such whatever its severity.
pub fn console_severity_label(entry: &ConsoleEntry) -> (label: &'static str)
    ensures
        label@ == severity_label(entry.state, entry.severity),
{
    match (entry.state, entry.severity) {
        (ConsoleEntryState::Pending, _) => "PENDING",
        (_, ConsoleSeverity::Info) => "INFO",
        (_, ConsoleSeverity::Success) => "SUCCESS",
        (_, ConsoleSeverity::Warn) => "WARN",
        (_, ConsoleSeverity::Error) => "ERROR",
    }
}

/// Appends the copied text of `entry` to `text`.
pub fn append_console_entry(text: &mut String, entry: &ConsoleEntry)
    ensures
        final(text)@ == old(text)@ + entry_text(*entry),
{
    let ghost start = text@;
    text.push('[');
    push_str(text, entry.timestamp.as_str());
    push_str(text, "] [");
    push_str(text, console_severity_label(entry));
    push_str(text, "] ");
    push_str(text, entry.title.as_str());
    push_str(text, ": ");
    push_str(text, entry.summary.as_str());
    text.push('\n');
    let ghost head = text@;
    proof {
        assert(head =~= start + (seq!['['] + entry.timestamp@ + "] ["@ + severity_label(
            entry.state,
            entry.severity,
        ) + "] "@ + entry.title@ + ": "@ + entry.summary@ + seq!['\n']));
    }
    let mut d: usize = 0;
    while d < entry.details.len()
        invariant
            d <= entry.details.len(),
            text@ == head + details_text(entry.details@, d as int),
        decreases entry.details.len() - d,
    {
        let detail_lines = text_lines(entry.details[d].as_str());
        let ghost ls = lines(entry.details@[d as int]@);
        let ghost before = text@;
        let mut k: usize = 0;
        proof {
            assert(ls.take(0) =~= Seq::<Seq<char>>::empty());
        }
        while k < detail_lines.len()
            invariant
                k <= detail_lines.len(),
                detail_lines@.map_values(|l: String| l@) == ls,
                text@ == before + indented_lines(ls.take(k as int)),
            decreases detail_lines.len() - k,
        {
            push_str(text, "  ");
            push_str(text, detail_lines[k].as_str());
            text.push('\n');
            proof {
                assert(ls[k as int] == detail_lines@[k as int]@);
                assert(ls.take(k + 1).drop_last() =~= ls.take(k as int));
                assert(text@ =~= before + indented_lines(ls.take(k + 1)));
            }
            k = k + 1;
        }
        proof {
            assert(ls.take(k as int) =~= ls);
            assert(text@ =~= head + details_text(entry.details@, d + 1));
        }
        d = d + 1;
    }
    proof {
        assert(text@ =~= start + entry_text(*entry));
    }
}

/// The copied text of one entry.
pub fn console_entry_text(entry: &ConsoleEntry) -> (text: String)
    ensures
        text@ == entry_text(*entry),
{
    let mut text = String::new();
    append_console_entry(&mut text, entry);
    proof {
        assert(text@ =~= entry_text(*entry));
    }
    text
}

/// The copied text of every entry, oldest first.
pub fn console_text(entries: &[ConsoleEntry]) -> (text: String)
    ensures
        text@ == entries_text(entries@, entries@.len() as int),
{
    let mut text = String::new();
    let mut i: usize = 0;
    while i < entries.len()
        invariant
            i <= entries.len(),
            text@ == entries_text(entries@, i as int),
        decreases entries.len() - i,
    {
        append_console_entry(&mut text, &entries[i]);
        i = i + 1;
    }
    text
}

// ---------------------------------------------------------------------------
// Disclosure state and row layout
// ---------------------------------------------------------------------------

/// Per-panel UI state: which entries are expanded, a disclosure click that
/// waits for its frame to finish, and a counter bumped on every change of
/// the row layout.
pub struct ConsoleUiState {
    pub expanded: HashSet<ConsoleEntryId>,
    pub pending_toggle: Option<(ConsoleEntryId, u64)>,
    pub presentation_revision: u64,
}

impl Default for ConsoleUiState {
    fn default() -> (state: Self)
        ensures
            state.expanded@ == Set::<ConsoleEntryId>::empty(),
            state.pending_toggle.is_none(),
            state.presentation_revision == 0,
    {
        ConsoleUiState { expanded: HashSet::new(), pending_toggle: None, presentation_revision: 0 }
    }
}

/// `expanded` with `id` opened if it was closed and closed if it was open.
pub open spec fn toggled(expanded: Set<ConsoleEntryId>, id: ConsoleEntryId) -> Set<ConsoleEntryId> {
    if expanded.contains(id) {
        expanded.remove(id)
    } else {
        expanded.insert(id)
    }
}

/// Toggling the same entry twice leaves the set of expanded entries as it
/// was, and every other entry keeps its state through a toggle.
pub proof fn law_toggle_twice_restores(expanded: Set<ConsoleEntryId>, id: ConsoleEntryId, other: ConsoleEntryId)
    ensures
        toggled(toggled(expanded, id), id) == expanded,
        toggled(expanded, id).contains(id) != expanded.contains(id),
        other != id ==> toggled(expanded, id).contains(other) == expanded.contains(other),
{
    assert(toggled(toggled(expanded, id), id) =~= expanded);
}

/// Apply a queued disclosure change after the click frame has completed.
///
/// `Some(true)` means an entry opened, `Some(false)` means one closed, and
/// `None` means no change was ready for this frame.
pub fn apply_pending_toggle(state: &mut ConsoleUiState, frame_nr: u64) -> (changed: Option<bool>)
    ensures
        match old(state).pending_toggle {
            Some((entry_id, queued_frame)) if queued_frame < frame_nr => {
                &&& final(state).pending_toggle.is_none()
                &&& final(state).presentation_revision == (if old(state).presentation_revision
                    == u64::MAX {
                    0
                } else {
                    old(state).presentation_revision + 1
                })
                &&& changed == Some(!old(state).expanded@.contains(entry_id))
                &&& final(state).expanded@ == toggled(old(state).expanded@, entry_id)
            },
            _ => {
                &&& changed.is_none()
                &&& final(state).expanded@ == old(state).expanded@
                &&& final(state).pending_toggle == old(state).pending_toggle
                &&& final(state).presentation_revision == old(state).presentation_revision
            },
        },
{
    let (entry_id, queued_frame) = match state.pending_toggle {
        Some(p) => p,
        None => {
            return None;
        },
    };
    if queued_frame >= frame_nr {
        return None;
    }
    state.pending_toggle = None;
    let expanded = if state.expanded.remove(&entry_id) {
        false
    } else {
        state.expanded.insert(entry_id);
        true
    };
    state.presentation_revision = state.presentation_revision.wrapping_add(1);
    Some(expanded)
}

/// One row of the console list: an entry's header, or one wrapped row of
/// one of its details (given as a byte range of that detail).
#[derive(Clone, Copy, Debug, PartialEq, Eq)]
pub enum PresentationRow {
    Header { entry_index: usize },
    Detail { entry_index: usize, detail_index: usize, byte_range: (usize, usize) },
}

/// Detail rows for the wrapped byte ranges of one detail.
pub open spec fn detail_rows(entry_index: int, detail_index: int, ranges: Seq<(int, int)>) -> Seq<
    PresentationRow,
> {
    Seq::new(
        ranges.len(),
        |k: int|
            PresentationRow::Detail {
                entry_index: entry_index as usize,
                detail_index: detail_index as usize,
                byte_range: (ranges[k].0 as usize, ranges[k].1 as usize),
            },
    )
}

/// Rows of the first `n` details of an entry.
pub open spec fn details_rows(entry_index: int, details: Seq<String>, columns: int, n: int) -> Seq<
    PresentationRow,
>
    decreases n,
{
    if n <= 0 {
        Seq::empty()
    } else {
        details_rows(entry_index, details, columns, n - 1) + detail_rows(
            entry_index,
            n - 1,
            wrapped_rows(details[n - 1]@, columns),
        )
    }
}

/// Rows of one entry: its header, then, when it is expanded, the wrapped
/// rows of all its details.
pub open spec fn entry_rows(entry_index: int, entry: ConsoleEntry, expanded: Set<ConsoleEntryId>, columns: int) -> Seq<
    PresentationRow,
> {
    seq![PresentationRow::Header { entry_index: entry_index as usize }] + if expanded.contains(
        entry.id,
    ) {
        details_rows(entry_index, entry.details@, columns, entry.details@.len() as int)
    } else {
        Seq::empty()
    }
}

/// Rows of the first `n` entries.
pub open spec fn presentation_rows(entries: Seq<ConsoleEntry>, expanded: Set<ConsoleEntryId>, columns: int, n: int) -> Seq<
    PresentationRow,
>
    decreases n,
{
    if n <= 0 {
        Seq::empty()
    } else {
        presentation_rows(entries, expanded, columns, n - 1) + entry_rows(
            n - 1,
            entries[n - 1],
            expanded,
            columns,
        )
    }
}

/// Every row of the console list, in display order.
pub fn build_presentation_rows(entries: &[ConsoleEntry], state: &ConsoleUiState, columns: usize) -> (rows: Vec<PresentationRow>)
    ensures
        rows@ == presentation_rows(entries@, state.expanded@, columns as int, entries@.len() as int),
{
    let mut rows: Vec<PresentationRow> = Vec::new();
    let mut entry_index: usize = 0;
    while entry_index < entries.len()
        invariant
            entry_index <= entries.len(),
            rows@ == presentation_rows(entries@, state.expanded@, columns as int, entry_index as int),
        decreases entries.len() - entry_index,
    {
        let entry = &entries[entry_index];
        let ghost before = rows@;
        rows.push(PresentationRow::Header { entry_index });
        if state.expanded.contains(&entry.id) {
            let mut detail_index: usize = 0;
            while detail_index < entry.details.len()
                invariant
                    detail_index <= entry.details.len(),
                    entry == &entries@[entry_index as int],
                    state.expanded@.contains(entry.id),
                    rows@ == before + seq![PresentationRow::Header { entry_index }] + details_rows(
                        entry_index as int,
                        entry.details@,
                        columns as int,
                        detail_index as int,
                    ),
                decreases entry.details.len() - detail_index,
            {
                let ranges = wrapped_row_ranges(entry.details[detail_index].as_str(), columns);
                let ghost mid = rows@;
                let ghost spec_ranges = wrapped_rows(entry.details@[detail_index as int]@, columns as int);
                let mut k: usize = 0;
                while k < ranges.len()
                    invariant
                        k <= ranges.len(),
                        ranges.len() == spec_ranges.len(),
                        forall|m: int|
                            0 <= m < ranges.len() ==> (#[trigger] ranges@[m]).0 == spec_ranges[m].0
                                && ranges@[m].1 == spec_ranges[m].1,
                        rows@ == mid + detail_rows(entry_index as int, detail_index as int, spec_ranges).take(k as int),
                    decreases ranges.len() - k,
                {
                    rows.push(PresentationRow::Detail {
                        entry_index,
                        detail_index,
                        byte_range: (ranges[k].0, ranges[k].1),
                    });
                    proof {
                        assert(rows@ =~= mid + detail_rows(entry_index as int, detail_index as int, spec_ranges).take(k + 1));
                    }
                    k = k + 1;
                }
                proof {
                    assert(detail_rows(entry_index as int, detail_index as int, spec_ranges).take(k as int) =~= detail_rows(entry_index as int, detail_index as int, spec_ranges));
                    assert(rows@ =~= before + seq![PresentationRow::Header { entry_index }] + details_rows(
                        entry_index as int,
                        entry.details@,
                        columns as int,
                        detail_index + 1,
                    ));
                }
                detail_index = detail_index + 1;
            }
            proof {
                assert(rows@ =~= presentation_rows(entries@, state.expanded@, columns as int, entry_index + 1));
            }
        } else {
            proof {
                assert(rows@ =~= presentation_rows(entries@, state.expanded@, columns as int, entry_index + 1));
            }
        }
        entry_index = entry_index + 1;
    }
    rows
}

} // verus!
