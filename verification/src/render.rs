//! What the screen shows: the visible part of each text row, the status bar
//! and where the cursor is drawn.

use vstd::prelude::*;
use vstd::utf8::*;
use crate::editor::{visible_cols, visible_rows, EditorConfig, EditorState, Mode};
use crate::text::{boundary, byte_len, bytes_of, string_push, string_push_str};

verus! {

broadcast use group_utf8_lib;

/// The part of a row that fits on the screen: the bytes from `col_offset`
/// on, cut to `cols` bytes.
pub open spec fn visible_text(row: Seq<u8>, col_offset: int, cols: int) -> Seq<u8> {
    if row.len() > col_offset {
        let rest = row.skip(col_offset);
        if cols < rest.len() {
            rest.take(cols)
        } else {
            rest
        }
    } else {
        Seq::empty()
    }
}

/// The row can be cut for the screen without a failure: the first column
/// shown and the end of the shown part fall on character boundaries.
pub open spec fn row_cuttable(row: Seq<u8>, col_offset: int, cols: int) -> bool {
    row.len() > col_offset ==> {
        &&& boundary(row, col_offset)
        &&& (cols < row.len() - col_offset ==> boundary(row.skip(col_offset), cols))
    }
}

/// The bytes of the marker drawn for a screen row below the end of the text.
pub open spec fn tilde_line() -> Seq<u8> {
    seq![126u8]
}

/// Screen row `y` of the text area: the visible part of text row
/// `row_offset + y`, or the marker below the end of the text.
pub open spec fn screen_line(s: EditorState, y: int) -> Seq<u8> {
    let idx = s.row_offset + y;
    if idx < s.rows.len() {
        visible_text(s.rows[idx], s.col_offset as int, visible_cols(s))
    } else {
        tilde_line()
    }
}

/// The text area can be drawn without a failure.
pub open spec fn can_draw(s: EditorState) -> bool {
    &&& s.screen_rows >= 1
    &&& s.row_offset + visible_rows(s) <= usize::MAX
    &&& forall|y: int|
        0 <= y < visible_rows(s) && s.row_offset + y < s.rows.len() ==> row_cuttable(
            #[trigger] s.rows[s.row_offset + y],
            s.col_offset as int,
            visible_cols(s),
        )
}

/// The decimal digit for `d`.
pub open spec fn digit_char(d: int) -> char {
    if d == 0 {
        '0'
    } else if d == 1 {
        '1'
    } else if d == 2 {
        '2'
    } else if d == 3 {
        '3'
    } else if d == 4 {
        '4'
    } else if d == 5 {
        '5'
    } else if d == 6 {
        '6'
    } else if d == 7 {
        '7'
    } else if d == 8 {
        '8'
    } else {
        '9'
    }
}

/// The decimal notation of `n`.
pub open spec fn decimal(n: nat) -> Seq<char>
    decreases n,
{
    if n < 10 {
        seq![digit_char(n as int)]
    } else {
        decimal(n / 10).push(digit_char((n % 10) as int))
    }
}

/// `s` followed by spaces up to `width` characters.
pub open spec fn padded(s: Seq<char>, width: int) -> Seq<char> {
    if s.len() < width {
        s + Seq::new((width - s.len()) as nat, |i: int| ' ')
    } else {
        s
    }
}

/// The name of the mode shown in the status bar.
pub open spec fn mode_label(m: Mode) -> Seq<char> {
    match m {
        Mode::Normal => "-- NORMAL --"@,
        Mode::Insert => "-- INSERT --"@,
        Mode::Command => Seq::empty(),
    }
}

/// The status text: mode, cursor position (column, row) and message.
pub open spec fn status_text(s: EditorState) -> Seq<char> {
    mode_label(s.mode) + " | Pos: "@ + decimal(s.cx as nat) + ","@ + decimal(s.cy as nat) + " | "@
        + s.status
}

/// The status bar: the command line after `:` in Command mode; otherwise the
/// status text padded to the screen width, in reverse video.
pub open spec fn status_bar_text(s: EditorState) -> Seq<char> {
    if s.mode == Mode::Command {
        ":"@ + s.command
    } else {
        "\x1b[7m"@ + padded(status_text(s), s.screen_cols as int) + "\x1b[m"@
    }
}

/// The cursor can be placed on the screen: it is at or after the offsets, and
/// the 1-based screen position fits in a `u16`.
pub open spec fn cursor_placeable(s: EditorState) -> bool {
    &&& (s.row_offset as u16) <= s.cy
    &&& (s.col_offset as u16) <= s.cx
    &&& s.cy - (s.row_offset as u16) < u16::MAX
    &&& s.cx - (s.col_offset as u16) < u16::MAX
}

/// The digit character for `d < 10`.
fn digit(d: u16) -> (c: char)
    requires
        d < 10,
    ensures
        c == digit_char(d as int),
{
    if d == 0 {
        '0'
    } else if d == 1 {
        '1'
    } else if d == 2 {
        '2'
    } else if d == 3 {
        '3'
    } else if d == 4 {
        '4'
    } else if d == 5 {
        '5'
    } else if d == 6 {
        '6'
    } else if d == 7 {
        '7'
    } else if d == 8 {
        '8'
    } else {
        '9'
    }
}

/// Appends the decimal notation of `n` to `s`.
pub fn push_decimal(s: &mut String, n: u16)
    ensures
        final(s)@ == old(s)@ + decimal(n as nat),
    decreases n,
{
    if n >= 10 {
        push_decimal(s, n / 10);
        string_push(s, digit(n % 10));
        assert(s@ =~= old(s)@ + decimal(n as nat));
    } else {
        string_push(s, digit(n));
        assert(s@ =~= old(s)@ + decimal(n as nat));
    }
}

/// Appends spaces to `s` until it has `width` characters.
pub fn pad_to(s: &mut String, width: usize)
    ensures
        final(s)@ == padded(old(s)@, width as int),
{
    let len = crate::text::chars_of(s.as_str()).len();
    if len < width {
        let mut i = len;
        while i < width
            invariant
                len <= i <= width,
                len == old(s)@.len(),
                s@ == old(s)@ + Seq::new((i - len) as nat, |k: int| ' '),
            decreases width - i,
        {
            string_push(s, ' ');
            assert(s@ =~= old(s)@ + Seq::new((i + 1 - len) as nat, |k: int| ' '));
            i = i + 1;
        }
    }
}

impl EditorConfig {
    /// The text of each screen row of the text area, top to bottom.
    pub fn screen_lines(&self) -> (lines: Vec<String>)
        requires
            can_draw(self@),
        ensures
            lines.len() == visible_rows(self@),
            forall|y: int|
                0 <= y < lines.len() ==> bytes_of(#[trigger] lines[y]@) == screen_line(self@, y),
    {
        let n_rows = (self.screen_rows - 1) as usize;
        let n_cols = self.screen_cols as usize;
        let mut lines: Vec<String> = Vec::new();
        let mut y: usize = 0;
        while y < n_rows
            invariant
                can_draw(self@),
                n_rows == visible_rows(self@),
                n_cols == visible_cols(self@),
                y <= n_rows,
                lines.len() == y,
                forall|k: int|
                    0 <= k < y ==> bytes_of(#[trigger] lines[k]@) == screen_line(self@, k),
            decreases n_rows - y,
        {
            let idx = y + self.row_offset;
            let line: String;
            if idx < self.buffer.rows.len() {
                let content = self.buffer.rows[idx].content.as_str();
                let len = byte_len(&self.buffer.rows[idx].content);
                assert(self@.rows[self.row_offset + y as int] == self@.rows[idx as int]);
                if len > self.col_offset {
                    let (_, rest) = content.split_at(self.col_offset);
                    let rest_len = len - self.col_offset;
                    if n_cols < rest_len {
                        let (shown, _) = rest.split_at(n_cols);
                        line = shown.to_owned();
                    } else {
                        line = rest.to_owned();
                    }
                } else {
                    line = String::new();
                }
            } else {
                line = "~".to_owned();
                proof {
                    reveal_strlit("~");
                    assert(bytes_of("~"@) =~= tilde_line()) by {
                        assert("~"@ =~= seq!['~']);
                        crate::text::lemma_bytes_of_single('~');
                        crate::text::lemma_char_bytes('~');
                    }
                }
            }
            lines.push(line);
            y = y + 1;
        }
        lines
    }

    /// What the status bar shows.
    pub fn status_bar(&self) -> (bar: String)
        ensures
            bar@ == status_bar_text(self@),
    {
        if self.mode == Mode::Command {
            let mut bar = ":".to_owned();
            string_push_str(&mut bar, self.command_buffer.as_str());
            bar
        } else {
            let mut status = if self.mode == Mode::Normal {
                "-- NORMAL --".to_owned()
            } else {
                "-- INSERT --".to_owned()
            };
            string_push_str(&mut status, " | Pos: ");
            push_decimal(&mut status, self.cx);
            string_push_str(&mut status, ",");
            push_decimal(&mut status, self.cy);
            string_push_str(&mut status, " | ");
            string_push_str(&mut status, self.status_msg.as_str());
            pad_to(&mut status, self.screen_cols as usize);
            let mut bar = "\x1b[7m".to_owned();
            string_push_str(&mut bar, status.as_str());
            string_push_str(&mut bar, "\x1b[m");
            bar
        }
    }

    /// The 1-based (row, column) of the screen cell where the cursor is drawn.
    pub fn cursor_on_screen(&self) -> (pos: (u16, u16))
        requires
            cursor_placeable(self@),
        ensures
            pos.0 == self.cy - (self.row_offset as u16) + 1,
            pos.1 == self.cx - (self.col_offset as u16) + 1,
    {
        let screen_y = self.cy - #[verifier::truncate] (self.row_offset as u16);
        let screen_x = self.cx - #[verifier::truncate] (self.col_offset as u16);
        (screen_y + 1, screen_x + 1)
    }

    /// Whether `screen_lines` can run on this state.
    pub fn can_draw_now(&self) -> (r: bool)
        ensures
            r == can_draw(self@),
    {
        if self.screen_rows < 1 {
            return false;
        }
        let n_rows = (self.screen_rows - 1) as usize;
        let n_cols = self.screen_cols as usize;
        if self.row_offset > usize::MAX - n_rows {
            return false;
        }
        let mut y: usize = 0;
        while y < n_rows
            invariant
                self.screen_rows >= 1,
                n_rows == visible_rows(self@),
                n_cols == visible_cols(self@),
                self.row_offset + n_rows <= usize::MAX,
                y <= n_rows,
                forall|k: int|
                    0 <= k < y && self.row_offset + k < self@.rows.len() ==> row_cuttable(
                        #[trigger] self@.rows[self.row_offset + k],
                        self.col_offset as int,
                        n_cols as int,
                    ),
            decreases n_rows - y,
        {
            let idx = y + self.row_offset;
            if idx < self.buffer.rows.len() {
                let content = self.buffer.rows[idx].content.as_str();
                let len = byte_len(&self.buffer.rows[idx].content);
                assert(self@.rows[self.row_offset + y as int] == self@.rows[idx as int]);
                if len > self.col_offset {
                    if !content.is_char_boundary(self.col_offset) {
                        return false;
                    }
                    let (_, rest) = content.split_at(self.col_offset);
                    if n_cols < len - self.col_offset && !rest.is_char_boundary(n_cols) {
                        return false;
                    }
                }
            }
            y = y + 1;
        }
        true
    }

    /// Whether `cursor_on_screen` can run on this state.
    pub fn cursor_placeable_now(&self) -> (r: bool)
        ensures
            r == cursor_placeable(self@),
    {
        let ro = #[verifier::truncate] (self.row_offset as u16);
        let co = #[verifier::truncate] (self.col_offset as u16);
        ro <= self.cy && co <= self.cx && self.cy - ro < u16::MAX && self.cx - co < u16::MAX
    }
}

} // verus!
