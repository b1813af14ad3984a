//! The editor: rows of text, the cursor, the three modes and the handling of
//! each key.
//!
//! Positions in a row are byte positions in its UTF-8 text, so the view of a
//! row is its bytes; the cursor always stands on a character boundary and
//! moves, types and deletes whole characters. Work that the editor hands to the outside (saving a file,
//! running a script, offering a key to the plugin bindings) is returned as an
//! [`Action`] or a [`Command`]; the result of that work comes back through the
//! `finish_*` methods.

use vstd::prelude::*;
use vstd::utf8::*;
use crate::text::{
    boundary, byte_len, bytes_of, ceil_boundary, char_bytes, chars_of, deleted, floor_boundary,
    inserted, join_lines, lemma_boundary_concat, lemma_boundary_ends,
    lemma_bytes_of_concat, lemma_bytes_of_push, lemma_bytes_of_single, lemma_control_bytes,
    lemma_deleted_boundary, lemma_floor_boundary, lemma_inserted_boundary, next_boundary,
    prev_boundary, split_lines, string_insert, string_pop, string_push, string_push_str,
    string_remove, string_split_off, strings_bytes, text_lines,
};

verus! {

broadcast use group_utf8_lib;

/// The editing mode.
#[derive(Clone, Copy, PartialEq, Eq, Structural, Debug)]
pub enum Mode {
    Normal,
    Insert,
    Command,
}

/// One line of text.
pub struct Row {
    pub content: String,
}

impl View for Row {
    type V = Seq<u8>;

    /// The UTF-8 bytes of the line.
    open spec fn view(&self) -> Seq<u8> {
        bytes_of(self.content@)
    }
}

impl Row {
    pub fn new(s: String) -> (r: Row)
        ensures
            r.content@ == s@,
    {
        Row { content: s }
    }

    /// Inserts `c` at byte position `at`, or appends it when `at` is at or
    /// past the end. Inside the row, `at` must start a character.
    pub fn insert_char(&mut self, at: usize, c: char)
        requires
            at >= old(self)@.len() || boundary(old(self)@, at as int),
        ensures
            final(self)@ == inserted(old(self)@, at as int, c),
    {
        let len = byte_len(&self.content);
        if at >= len {
            let ghost before = self.content@;
            string_push(&mut self.content, c);
            proof {
                lemma_bytes_of_push(before, c);
            }
        } else {
            string_insert(&mut self.content, at, c);
        }
    }

    /// Removes the character that starts at byte position `at`; does nothing
    /// when `at` is at or past the end.
    pub fn delete_char(&mut self, at: usize)
        requires
            at < old(self)@.len() ==> boundary(old(self)@, at as int),
        ensures
            final(self)@ == deleted(old(self)@, at as int),
    {
        if at < byte_len(&self.content) {
            string_remove(&mut self.content, at);
        }
    }
}

/// The text of an editor: a sequence of rows.
pub struct EditorBuffer {
    pub rows: Vec<Row>,
}

impl View for EditorBuffer {
    type V = Seq<Seq<u8>>;

    /// The bytes of each row, in order.
    open spec fn view(&self) -> Seq<Seq<u8>> {
        self.rows@.map_values(|r: Row| r@)
    }
}

/// The rows made from a text read from a file: its lines, or one empty row
/// when it has none.
pub open spec fn loaded_rows(b: Seq<u8>) -> Seq<Seq<u8>> {
    if text_lines(b).len() == 0 {
        seq![Seq::<u8>::empty()]
    } else {
        text_lines(b)
    }
}

impl EditorBuffer {
    /// A buffer of one empty row.
    pub fn new() -> (b: EditorBuffer)
        ensures
            b@ == seq![Seq::<u8>::empty()],
    {
        let b = EditorBuffer { rows: vec![Row::new(String::new())] };
        assert(b@ =~= seq![Seq::<u8>::empty()]);
        b
    }

    /// The whole text: the rows joined with a line feed between each two.
    pub fn rows_to_string(&self) -> (s: String)
        ensures
            bytes_of(s@) == join_lines(self@),
    {
        let mut out = String::new();
        let n = self.rows.len();
        let mut i: usize = 0;
        while i < n
            invariant
                n == self.rows.len(),
                i <= n,
                bytes_of(out@) == join_lines(self@.take(i as int)),
            decreases n - i,
        {
            let ghost before = out@;
            let ghost line = self.rows[i as int].content@;
            if i > 0 {
                string_push(&mut out, '\n');
                proof {
                    lemma_bytes_of_push(before, '\n');
                    lemma_control_bytes();
                }
            }
            let ghost mid = out@;
            string_push_str(&mut out, self.rows[i].content.as_str());
            proof {
                lemma_bytes_of_concat(mid, line);
                let t = self@.take(i + 1);
                assert(t.drop_last() =~= self@.take(i as int));
                assert(t.last() == bytes_of(line));
                if i == 0 {
                    assert(before =~= Seq::<char>::empty());
                    assert(bytes_of(Seq::<char>::empty()) == Seq::<u8>::empty());
                    assert(join_lines(t) == t[0]);
                    assert(bytes_of(out@) =~= join_lines(t));
                } else {
                    assert(bytes_of(out@) =~= join_lines(t));
                }
            }
            i = i + 1;
        }
        assert(self@.take(n as int) =~= self@);
        out
    }

    /// Replaces the rows by the lines of `content`, or by one empty row when
    /// `content` has no lines.
    pub fn load_text(&mut self, content: &str)
        ensures
            final(self)@ == loaded_rows(bytes_of(content@)),
    {
        let lines = split_lines(content);
        self.rows.clear();
        let n = lines.len();
        let mut i: usize = 0;
        while i < n
            invariant
                n == lines.len(),
                i <= n,
                strings_bytes(lines@) == text_lines(bytes_of(content@)),
                self@ == strings_bytes(lines@).take(i as int),
            decreases n - i,
        {
            let ghost before = self.rows@;
            let ghost before_view = self@;
            let line = lines[i].clone();
            let row = Row::new(line);
            self.rows.push(row);
            proof {
                assert(self.rows@ == before.push(row));
                assert(row@ == strings_bytes(lines@)[i as int]);
                assert(self@ =~= before_view.push(row@));
                assert(self@ =~= strings_bytes(lines@).take(i + 1));
            }
            i = i + 1;
        }
        if self.rows.len() == 0 {
            self.rows.push(Row::new(String::new()));
        }
        assert(self@ =~= loaded_rows(bytes_of(content@)));
    }
}

/// The whole state of the editor.
pub struct EditorConfig {
    pub cx: u16,
    pub cy: u16,
    pub screen_cols: u16,
    pub screen_rows: u16,
    pub row_offset: usize,
    pub col_offset: usize,
    pub mode: Mode,
    pub buffer: EditorBuffer,
    pub command_buffer: String,
    pub status_msg: String,
    pub filename: Option<String>,
}

/// The mathematical state of an editor: its fields, with each text by its
/// view (rows by their bytes, the other strings by their characters).
pub struct EditorState {
    pub cx: u16,
    pub cy: u16,
    pub screen_cols: u16,
    pub screen_rows: u16,
    pub row_offset: usize,
    pub col_offset: usize,
    pub mode: Mode,
    pub rows: Seq<Seq<u8>>,
    pub command: Seq<char>,
    pub status: Seq<char>,
    pub filename: Option<Seq<char>>,
}

impl View for EditorConfig {
    type V = EditorState;

    open spec fn view(&self) -> EditorState {
        EditorState {
            cx: self.cx,
            cy: self.cy,
            screen_cols: self.screen_cols,
            screen_rows: self.screen_rows,
            row_offset: self.row_offset,
            col_offset: self.col_offset,
            mode: self.mode,
            rows: self.buffer@,
            command: self.command_buffer@,
            status: self.status_msg@,
            filename: match self.filename {
                Some(f) => Some(f@),
                None => None,
            },
        }
    }
}

/// The invariant of an editor: there is at least one row and the cursor is on
/// one of them.
pub open spec fn well_formed(s: EditorState) -> bool {
    &&& s.rows.len() >= 1
    &&& s.cy < s.rows.len()
    &&& forall|i: int| 0 <= i < s.rows.len() ==> valid_utf8(#[trigger] s.rows[i])
    &&& (s.cx > s.rows[s.cy as int].len() || boundary(s.rows[s.cy as int], s.cx as int))
}

/// The column where the cursor acts: its column, or the end of its row when
/// it stands past the end.
pub open spec fn col(s: EditorState) -> int {
    if s.cx > s.rows[s.cy as int].len() {
        s.rows[s.cy as int].len() as int
    } else {
        s.cx as int
    }
}

/// The column on row `b` nearest to `cx`: the end when `cx` is past it,
/// otherwise the last character boundary at or before `cx`.
pub open spec fn clamp_col(b: Seq<u8>, cx: int) -> int {
    if cx > b.len() {
        b.len() as int
    } else {
        floor_boundary(b, cx)
    }
}

/// The message shown when the editor starts.
pub open spec fn welcome_message() -> Seq<char> {
    "WELCOME! :q to quit"@
}

/// The state of a new editor on a terminal of `cols` columns and `rows` rows.
pub open spec fn initial_state(cols: u16, rows: u16) -> EditorState {
    EditorState {
        cx: 0,
        cy: 0,
        screen_cols: cols,
        screen_rows: rows,
        row_offset: 0,
        col_offset: 0,
        mode: Mode::Normal,
        rows: seq![Seq::<u8>::empty()],
        command: Seq::empty(),
        status: welcome_message(),
        filename: None,
    }
}

/// Moving the cursor with `h`, `j`, `k` or `l` (left, down, up, right), one
/// character or one row at a time; the column then goes to the nearest
/// character boundary of the cursor's row at or before it.
pub open spec fn after_move(s: EditorState, key: char) -> EditorState {
    let moved = moved_state(s, key);
    EditorState { cx: clamp_col(moved.rows[moved.cy as int], moved.cx as int) as u16, ..moved }
}

/// The step of a motion before the column is brought to a boundary.
pub open spec fn moved_state(s: EditorState, key: char) -> EditorState {
    let row = s.rows[s.cy as int];
    if key == 'h' {
        if s.cx > 0 { EditorState { cx: prev_boundary(row, s.cx as int) as u16, ..s } } else { s }
    } else if key == 'j' {
        if s.cy < s.rows.len() - 1 { EditorState { cy: (s.cy + 1) as u16, ..s } } else { s }
    } else if key == 'k' {
        if s.cy > 0 { EditorState { cy: (s.cy - 1) as u16, ..s } } else { s }
    } else if key == 'l' {
        if s.cx < row.len() { EditorState { cx: next_boundary(row, s.cx as int) as u16, ..s } } else { s }
    } else {
        s
    }
}

/// Moving can be done within the `u16` row and column numbers.
pub open spec fn can_move(s: EditorState, key: char) -> bool {
    &&& (key == 'j' && s.cy < s.rows.len() - 1 ==> s.cy < u16::MAX)
    &&& (key == 'l' && s.cx < s.rows[s.cy as int].len() ==> next_boundary(
        s.rows[s.cy as int],
        s.cx as int,
    ) <= u16::MAX)
}

/// Typing `c` keeps the column within a `u16`.
pub open spec fn can_insert(s: EditorState, c: char) -> bool {
    col(s) + char_bytes(c).len() <= u16::MAX
}

/// Typing `c`: it goes into the cursor's row at the cursor column (at the end
/// when the cursor is past it), and the cursor moves past it.
pub open spec fn after_insert(s: EditorState, c: char) -> EditorState {
    EditorState {
        cx: (col(s) + char_bytes(c).len()) as u16,
        rows: s.rows.update(s.cy as int, inserted(s.rows[s.cy as int], col(s), c)),
        ..s
    }
}

/// Backspace keeps the column within a `u16`: joining a row to the one above
/// puts the cursor after the whole row above.
pub open spec fn can_delete(s: EditorState) -> bool {
    col(s) == 0 && s.cy > 0 ==> s.rows[s.cy - 1].len() <= u16::MAX
}

/// Backspace, with a cursor past the end of its row first brought to the
/// end: at the very start of the text nothing else happens; inside a row the
/// character that ends at the column is removed and the cursor goes to where
/// it started; at the start of a later row that row is joined to the end of
/// the one above, and the cursor goes to the join.
pub open spec fn after_delete(s: EditorState) -> EditorState {
    if col(s) == 0 && s.cy == 0 {
        EditorState { cx: 0, ..s }
    } else if col(s) > 0 {
        let start = prev_boundary(s.rows[s.cy as int], col(s));
        EditorState {
            cx: start as u16,
            rows: s.rows.update(s.cy as int, deleted(s.rows[s.cy as int], start)),
            ..s
        }
    } else {
        let prev = s.rows[s.cy - 1];
        EditorState {
            cx: prev.len() as u16,
            cy: (s.cy - 1) as u16,
            rows: s.rows.take(s.cy - 1).push(prev + s.rows[s.cy as int]) + s.rows.skip(s.cy + 1),
            ..s
        }
    }
}

/// Enter can be done without a failure: the cursor is within its row, and
/// the row number can grow.
pub open spec fn can_split(s: EditorState) -> bool {
    &&& s.cy < u16::MAX
    &&& s.cx <= s.rows[s.cy as int].len()
}

/// Enter in Insert mode: the row is cut at the column; its tail becomes a new
/// row below, and the cursor goes to the start of that row.
pub open spec fn after_split(s: EditorState) -> EditorState {
    let row = s.rows[s.cy as int];
    EditorState {
        cx: 0,
        cy: (s.cy + 1) as u16,
        rows: s.rows.take(s.cy as int).push(row.take(s.cx as int)).push(row.skip(s.cx as int))
            + s.rows.skip(s.cy + 1),
        ..s
    }
}

/// The number of text rows on the screen: all but the status bar.
pub open spec fn visible_rows(s: EditorState) -> int {
    s.screen_rows - 1
}

/// The number of text columns on the screen.
pub open spec fn visible_cols(s: EditorState) -> int {
    s.screen_cols as int
}

/// Scrolling can be done without a failure: there is a status bar row, and
/// the offsets plus the screen size stay within `usize`.
pub open spec fn can_scroll(s: EditorState) -> bool {
    &&& s.screen_rows >= 1
    &&& s.row_offset + visible_rows(s) <= usize::MAX
    &&& s.col_offset + visible_cols(s) <= usize::MAX
}

/// The offset that brings position `p` into a window of `size` starting at
/// `offset`, moving the window as little as possible.
pub open spec fn follow(p: int, offset: int, size: int) -> int {
    let o = if p < offset { p } else { offset };
    if p >= o + size { p - size + 1 } else { o }
}

/// Scrolling: the row and column offsets follow the cursor.
pub open spec fn after_scroll(s: EditorState) -> EditorState {
    EditorState {
        row_offset: follow(s.cy as int, s.row_offset as int, visible_rows(s)) as usize,
        col_offset: follow(s.cx as int, s.col_offset as int, visible_cols(s)) as usize,
        ..s
    }
}

/// The message shown when there is no file name to save to.
pub open spec fn no_file_message() -> Seq<char> {
    "No file name! Use :w <filename> (TBD)"@
}

/// The state with the status message `msg`.
pub open spec fn with_status(s: EditorState, msg: Seq<char>) -> EditorState {
    EditorState { status: msg, ..s }
}

/// Starting to save: without a file name, the message that says so and no
/// job; otherwise the same state, and the file name with the bytes to write.
pub open spec fn save_outcome(s: EditorState) -> (EditorState, Option<(Seq<char>, Seq<u8>)>) {
    match s.filename {
        None => (with_status(s, no_file_message()), None),
        Some(f) => (s, Some((f, join_lines(s.rows)))),
    }
}

/// The message after `w`.
pub open spec fn write_message(outcome: Result<(), String>) -> Seq<char> {
    match outcome {
        Ok(_) => "Saved"@,
        Err(e) => "Error: "@ + e@,
    }
}

/// The message after evaluating a script.
pub open spec fn eval_message(outcome: Result<String, String>) -> Seq<char> {
    match outcome {
        Ok(v) => "=> "@ + v@,
        Err(e) => "pi error: "@ + e@,
    }
}

/// A command line entered in Command mode, as the editor reads it.
#[derive(Debug)]
pub enum Command {
    /// `w`: save the text.
    Write,
    /// `q`: quit.
    Quit,
    /// `wq`: save the text, then quit.
    WriteQuit,
    /// `pi <source>`: evaluate the script source.
    Eval(String),
    /// Anything else: a command that plugins may define.
    User(String),
}

/// The mathematical form of a [`Command`].
pub enum CommandSpec {
    Write,
    Quit,
    WriteQuit,
    Eval(Seq<char>),
    User(Seq<char>),
}

impl View for Command {
    type V = CommandSpec;

    open spec fn view(&self) -> CommandSpec {
        match self {
            Command::Write => CommandSpec::Write,
            Command::Quit => CommandSpec::Quit,
            Command::WriteQuit => CommandSpec::WriteQuit,
            Command::Eval(src) => CommandSpec::Eval(src@),
            Command::User(cmd) => CommandSpec::User(cmd@),
        }
    }
}

impl Command {
    /// Whether the editor keeps running once the command is done: all but
    /// `q` and `wq`.
    pub fn keeps_running(&self) -> (b: bool)
        ensures
            b == !(self@ is Quit || self@ is WriteQuit),
    {
        match self {
            Command::Quit => false,
            Command::WriteQuit => false,
            _ => true,
        }
    }
}

/// What remains to be done outside after a key was handled.
#[derive(Debug)]
pub enum Action {
    /// Nothing: the editor keeps running.
    Continue,
    /// Offer the key to the plugin key bindings of the mode; the editor keeps
    /// running.
    DispatchKey(Mode, char),
    /// Run the entered command line.
    Execute(Command),
}

/// The mathematical form of an [`Action`].
pub enum ActionSpec {
    Continue,
    DispatchKey(Mode, char),
    Execute(CommandSpec),
}

impl View for Action {
    type V = ActionSpec;

    open spec fn view(&self) -> ActionSpec {
        match self {
            Action::Continue => ActionSpec::Continue,
            Action::DispatchKey(m, c) => ActionSpec::DispatchKey(*m, *c),
            Action::Execute(cmd) => ActionSpec::Execute(cmd@),
        }
    }
}

/// The control characters: Unicode general category Cc, `U+0000` to `U+001F`
/// and `U+007F` to `U+009F`.
pub open spec fn control_char(c: char) -> bool {
    (c as u32) <= 0x1f || (0x7f <= (c as u32) && (c as u32) <= 0x9f)
}

/// Whether `c` is a control character (`char::is_control`).
pub fn is_control(c: char) -> (b: bool)
    ensures
        b == control_char(c),
{
    let u = c as u32;
    u <= 0x1f || (0x7f <= u && u <= 0x9f)
}

/// The prefix that marks a script to evaluate: `"pi "`.
pub open spec fn pi_prefix() -> Seq<char> {
    seq!['p', 'i', ' ']
}

/// `s` without the copies of `"pi "` it starts with (`trim_start_matches`).
pub open spec fn strip_pi_prefixes(s: Seq<char>) -> Seq<char>
    decreases s.len(),
{
    if s.len() >= 3 && s.take(3) == pi_prefix() {
        strip_pi_prefixes(s.skip(3))
    } else {
        s
    }
}

/// The command that a command line stands for.
pub open spec fn command_of(cmd: Seq<char>) -> CommandSpec {
    if cmd == seq!['w'] {
        CommandSpec::Write
    } else if cmd == seq!['q'] {
        CommandSpec::Quit
    } else if cmd == seq!['w', 'q'] {
        CommandSpec::WriteQuit
    } else if cmd.len() >= 3 && cmd.take(3) == pi_prefix() {
        CommandSpec::Eval(strip_pi_prefixes(cmd))
    } else {
        CommandSpec::User(cmd)
    }
}

/// Entering the command line: back to Normal mode with an empty command line,
/// and the command to run.
pub open spec fn after_execute(s: EditorState) -> (EditorState, CommandSpec) {
    (EditorState { mode: Mode::Normal, command: Seq::empty(), ..s }, command_of(s.command))
}

/// The keys of the modes.
pub open spec fn is_escape(key: char) -> bool {
    key == '\x1b'
}

pub open spec fn is_enter(key: char) -> bool {
    key == '\r' || key == '\n'
}

pub open spec fn is_backspace(key: char) -> bool {
    key == '\x7f' || key == '\x08'
}

pub open spec fn is_motion(key: char) -> bool {
    key == 'h' || key == 'j' || key == 'k' || key == 'l'
}

/// The key can be handled without a failure.
pub open spec fn key_allowed(s: EditorState, key: char) -> bool {
    match s.mode {
        Mode::Normal => is_motion(key) ==> can_move(s, key),
        Mode::Insert => {
            if is_escape(key) {
                true
            } else if is_enter(key) {
                can_split(s)
            } else if is_backspace(key) {
                can_delete(s)
            } else if !control_char(key) {
                can_insert(s, key)
            } else {
                true
            }
        },
        Mode::Command => true,
    }
}

/// Handling one key: the next state and what remains to be done outside.
pub open spec fn key_step(s: EditorState, key: char) -> (EditorState, ActionSpec) {
    match s.mode {
        Mode::Normal => {
            if key == 'i' {
                (EditorState { mode: Mode::Insert, ..s }, ActionSpec::Continue)
            } else if key == ':' {
                (
                    EditorState { mode: Mode::Command, command: Seq::empty(), ..s },
                    ActionSpec::Continue,
                )
            } else if is_motion(key) {
                (after_move(s, key), ActionSpec::Continue)
            } else {
                (s, ActionSpec::DispatchKey(Mode::Normal, key))
            }
        },
        Mode::Insert => {
            if is_escape(key) {
                (EditorState { mode: Mode::Normal, ..s }, ActionSpec::Continue)
            } else if is_enter(key) {
                (after_split(s), ActionSpec::Continue)
            } else if is_backspace(key) {
                (after_delete(s), ActionSpec::Continue)
            } else if !control_char(key) {
                (after_insert(s, key), ActionSpec::Continue)
            } else {
                (s, ActionSpec::DispatchKey(Mode::Insert, key))
            }
        },
        Mode::Command => {
            if is_escape(key) {
                (EditorState { mode: Mode::Normal, ..s }, ActionSpec::Continue)
            } else if is_enter(key) {
                (after_execute(s).0, ActionSpec::Execute(after_execute(s).1))
            } else if is_backspace(key) {
                (
                    EditorState {
                        command: if s.command.len() > 0 {
                            s.command.drop_last()
                        } else {
                            s.command
                        },
                        ..s
                    },
                    ActionSpec::Continue,
                )
            } else if !control_char(key) {
                (EditorState { command: s.command.push(key), ..s }, ActionSpec::Continue)
            } else {
                (s, ActionSpec::DispatchKey(Mode::Command, key))
            }
        },
    }
}

/// The characters `cs[start..]` as a string.
fn string_from_chars(cs: &Vec<char>, start: usize) -> (s: String)
    requires
        start <= cs.len(),
    ensures
        s@ == cs@.skip(start as int),
{
    let mut s = String::new();
    let mut i = start;
    while i < cs.len()
        invariant
            start <= i <= cs.len(),
            s@ == cs@.subrange(start as int, i as int),
        decreases cs.len() - i,
    {
        string_push(&mut s, cs[i]);
        assert(cs@.subrange(start as int, i + 1) =~= cs@.subrange(start as int, i as int).push(cs@[i as int]));
        i = i + 1;
    }
    assert(cs@.subrange(start as int, cs.len() as int) =~= cs@.skip(start as int));
    s
}

/// The command that the command line `text` stands for.
pub fn parse_command(text: &str) -> (cmd: Command)
    ensures
        cmd@ == command_of(text@),
{
    let cs = chars_of(text);
    let n = cs.len();
    if n == 1 && cs[0] == 'w' {
        assert(cs@ =~= seq!['w']);
        Command::Write
    } else if n == 1 && cs[0] == 'q' {
        assert(cs@ =~= seq!['q']);
        Command::Quit
    } else if n == 2 && cs[0] == 'w' && cs[1] == 'q' {
        assert(cs@ =~= seq!['w', 'q']);
        Command::WriteQuit
    } else if n >= 3 && cs[0] == 'p' && cs[1] == 'i' && cs[2] == ' ' {
        assert(cs@.take(3) =~= pi_prefix());
        assert(cs@ != seq!['w'] && cs@ != seq!['q'] && cs@ != seq!['w', 'q']);
        let mut i: usize = 0;
        assert(cs@.skip(0) =~= cs@);
        while i <= n - 3 && cs[i] == 'p' && cs[i + 1] == 'i' && cs[i + 2] == ' '
            invariant
                n == cs.len(),
                n >= 3,
                i <= n,
                strip_pi_prefixes(cs@.skip(i as int)) == strip_pi_prefixes(cs@),
            decreases n - i,
        {
            assert(cs@.skip(i as int).take(3) =~= pi_prefix());
            assert(cs@.skip(i as int).skip(3) =~= cs@.skip(i + 3));
            i = i + 3;
        }
        proof {
            let rest = cs@.skip(i as int);
            if rest.len() >= 3 && rest.take(3) == pi_prefix() {
                assert(rest[0] == 'p' && rest[1] == 'i' && rest[2] == ' ');
                assert(false);
            }
        }
        Command::Eval(string_from_chars(&cs, i))
    } else {
        proof {
            if cs@.len() >= 3 && cs@.take(3) == pi_prefix() {
                assert(cs@[0] == cs@.take(3)[0]);
                assert(cs@[1] == cs@.take(3)[1]);
                assert(cs@[2] == cs@.take(3)[2]);
            }
            if cs@ == seq!['w'] || cs@ == seq!['q'] {
                assert(cs@[0] == 'w' || cs@[0] == 'q');
            }
            if cs@ == seq!['w', 'q'] {
                assert(cs@[0] == 'w' && cs@[1] == 'q');
            }
        }
        Command::User(text.to_owned())
    }
}

/// The text to write and where to write it.
pub struct SaveJob {
    pub path: String,
    pub content: String,
}

impl View for SaveJob {
    type V = (Seq<char>, Seq<u8>);

    /// The file name and the bytes to write.
    open spec fn view(&self) -> (Seq<char>, Seq<u8>) {
        (self.path@, bytes_of(self.content@))
    }
}

/// The rows of every editor are UTF-8 text.
pub proof fn lemma_rows_valid(e: &EditorConfig)
    ensures
        forall|i: int| 0 <= i < e@.rows.len() ==> valid_utf8(#[trigger] e@.rows[i]),
{
    assert forall|i: int| 0 <= i < e@.rows.len() implies valid_utf8(#[trigger] e@.rows[i]) by {
        assert(e@.rows[i] == bytes_of(e.buffer.rows@[i].content@));
    }
}

/// The last character boundary of `s` at or before byte `i`.
fn floor_boundary_of(s: &String, i: usize) -> (r: usize)
    ensures
        r == floor_boundary(bytes_of(s@), i as int),
{
    let t = s.as_str();
    let mut j = i;
    while j > 0 && !t.is_char_boundary(j)
        invariant
            t@ == s@,
            floor_boundary(bytes_of(s@), j as int) == floor_boundary(bytes_of(s@), i as int),
        decreases j,
    {
        j = j - 1;
    }
    j
}

/// The first character boundary of `s` at or after byte `i`.
fn ceil_boundary_of(s: &String, i: usize) -> (r: usize)
    requires
        i <= bytes_of(s@).len(),
    ensures
        r == ceil_boundary(bytes_of(s@), i as int),
{
    let t = s.as_str();
    let len = byte_len(s);
    let mut j = i;
    while j < len && !t.is_char_boundary(j)
        invariant
            t@ == s@,
            len == bytes_of(s@).len(),
            j <= len,
            ceil_boundary(bytes_of(s@), j as int) == ceil_boundary(bytes_of(s@), i as int),
        decreases len - j,
    {
        j = j + 1;
    }
    j
}

/// Opening the file `name`: the file of the editor, and a message that
/// says whether it was read or is new.
pub open spec fn after_open(s: EditorState, name: Seq<char>, opened: bool) -> EditorState {
    EditorState {
        filename: Some(name),
        status: if opened {
            "Opened: "@ + name
        } else {
            "New file: "@ + name
        },
        ..s
    }
}

/// The view of a job that may be absent.
pub open spec fn job_view(job: Option<SaveJob>) -> Option<(Seq<char>, Seq<u8>)> {
    match job {
        Some(j) => Some(j@),
        None => None,
    }
}

impl EditorConfig {
    /// A new editor on a terminal of `term_size = (columns, rows)`.
    pub fn new(term_size: (u16, u16)) -> (e: EditorConfig)
        ensures
            e@ == initial_state(term_size.0, term_size.1),
            well_formed(e@),
    {
        let (cols, rows) = term_size;
        EditorConfig {
            cx: 0,
            cy: 0,
            screen_cols: cols,
            screen_rows: rows,
            row_offset: 0,
            col_offset: 0,
            mode: Mode::Normal,
            buffer: EditorBuffer::new(),
            command_buffer: String::new(),
            status_msg: "WELCOME! :q to quit".to_owned(),
            filename: None,
        }
    }

    /// Moves the cursor for `h`, `j`, `k` or `l` and keeps the column within
    /// the cursor's row.
    pub fn move_cursor(&mut self, key: char)
        requires
            well_formed(old(self)@),
            can_move(old(self)@, key),
        ensures
            final(self)@ == after_move(old(self)@, key),
            well_formed(final(self)@),
    {
        let row_count = self.buffer.rows.len();
        if key == 'h' {
            if self.cx > 0 {
                let p = floor_boundary_of(&self.buffer.rows[self.cy as usize].content, self.cx as usize - 1);
                proof {
                    lemma_floor_boundary(self@.rows[self.cy as int], self.cx - 1);
                }
                self.cx = p as u16;
            }
        } else if key == 'j' {
            if (self.cy as usize) < row_count - 1 {
                self.cy = self.cy + 1;
            }
        } else if key == 'k' {
            if self.cy > 0 {
                self.cy = self.cy - 1;
            }
        } else if key == 'l' {
            let len = byte_len(&self.buffer.rows[self.cy as usize].content);
            if (self.cx as usize) < len {
                let n = ceil_boundary_of(&self.buffer.rows[self.cy as usize].content, self.cx as usize + 1);
                self.cx = n as u16;
            }
        }
        let len = byte_len(&self.buffer.rows[self.cy as usize].content);
        if (self.cx as usize) > len {
            self.cx = len as u16;
        } else {
            let f = floor_boundary_of(&self.buffer.rows[self.cy as usize].content, self.cx as usize);
            proof {
                lemma_floor_boundary(self@.rows[self.cy as int], self.cx as int);
            }
            self.cx = f as u16;
        }
        proof {
            lemma_rows_valid(self);
            lemma_boundary_ends(self@.rows[self.cy as int]);
            lemma_floor_boundary(self@.rows[self.cy as int], old(self)@.cx as int);
        }
    }

    /// Types `c` at the cursor and moves the cursor past it.
    pub fn insert_char(&mut self, c: char)
        requires
            well_formed(old(self)@),
            can_insert(old(self)@, c),
        ensures
            final(self)@ == after_insert(old(self)@, c),
            well_formed(final(self)@),
    {
        let ghost old_rows = self.buffer.rows@;
        let cy = self.cy as usize;
        let len = byte_len(&self.buffer.rows[cy].content);
        let at = if (self.cx as usize) <= len {
            self.cx as usize
        } else {
            len
        };
        proof {
            lemma_boundary_ends(old(self)@.rows[cy as int]);
            lemma_inserted_boundary(old(self)@.rows[cy as int], at as int, c);
        }
        self.buffer.rows[cy].insert_char(at, c);
        let after = byte_len(&self.buffer.rows[cy].content);
        self.cx = (at + (after - len)) as u16;
        proof {
            assert(self.buffer.rows@ == old_rows.update(cy as int, self.buffer.rows@[cy as int]));
            assert(self.buffer@ =~= old(self)@.rows.update(
                cy as int,
                inserted(old(self)@.rows[cy as int], at as int, c),
            ));
            lemma_rows_valid(self);
        }
    }

    /// Backspace: removes the character before the cursor, or joins the
    /// cursor's row to the row above when the cursor is at the start of a row.
    pub fn delete_char(&mut self)
        requires
            well_formed(old(self)@),
            can_delete(old(self)@),
        ensures
            final(self)@ == after_delete(old(self)@),
            well_formed(final(self)@),
    {
        let len = byte_len(&self.buffer.rows[self.cy as usize].content);
        let at = if (self.cx as usize) <= len {
            self.cx as usize
        } else {
            len
        };
        proof {
            lemma_boundary_ends(old(self)@.rows[self.cy as int]);
        }
        if at == 0 && self.cy == 0 {
            self.cx = 0;
            proof {
                lemma_rows_valid(self);
            }
            return;
        }
        let ghost old_rows = self.buffer.rows@;
        if at > 0 {
            let cy = self.cy as usize;
            let start = floor_boundary_of(&self.buffer.rows[cy].content, at - 1);
            proof {
                lemma_floor_boundary(old(self)@.rows[cy as int], at - 1);
                lemma_deleted_boundary(old(self)@.rows[cy as int], start as int);
            }
            self.buffer.rows[cy].delete_char(start);
            self.cx = start as u16;
            proof {
                assert(self.buffer.rows@ == old_rows.update(cy as int, self.buffer.rows@[cy as int]));
                assert(self.buffer@ =~= after_delete(old(self)@).rows);
                lemma_rows_valid(self);
            }
        } else {
            let current_row = self.buffer.rows.remove(self.cy as usize);
            let current = current_row.content;
            self.cy = self.cy - 1;
            let cy = self.cy as usize;
            let ghost mid_rows = self.buffer.rows@;
            let prev_len = byte_len(&self.buffer.rows[cy].content);
            self.cx = prev_len as u16;
            let ghost prev = self.buffer.rows[cy as int].content@;
            string_push_str(&mut self.buffer.rows[cy].content, current.as_str());
            proof {
                lemma_bytes_of_concat(prev, current@);
                assert(self.buffer.rows@ == mid_rows.update(cy as int, self.buffer.rows@[cy as int]));
                assert(mid_rows == old_rows.remove(cy + 1));
                assert(self.buffer@ =~= after_delete(old(self)@).rows);
                lemma_boundary_concat(bytes_of(prev), bytes_of(current@));
                lemma_rows_valid(self);
            }
        }
    }

    /// Enter in Insert mode: cuts the cursor's row at the cursor; the rest of
    /// the row becomes a new row below, where the cursor goes.
    fn split_row(&mut self)
        requires
            well_formed(old(self)@),
            can_split(old(self)@),
        ensures
            final(self)@ == after_split(old(self)@),
            well_formed(final(self)@),
    {
        let ghost old_rows = self.buffer.rows@;
        let cy = self.cy as usize;
        proof {
            lemma_boundary_ends(old(self)@.rows[cy as int]);
        }
        let remaining = string_split_off(&mut self.buffer.rows[cy].content, self.cx as usize);
        let ghost mid_rows = self.buffer.rows@;
        self.buffer.rows.insert(cy + 1, Row::new(remaining));
        self.cy = self.cy + 1;
        self.cx = 0;
        proof {
            assert(mid_rows == old_rows.update(cy as int, mid_rows[cy as int]));
            assert(self.buffer.rows@ == mid_rows.insert(cy + 1, self.buffer.rows@[cy + 1]));
            assert(self.buffer@ =~= after_split(old(self)@).rows);
            lemma_rows_valid(self);
            lemma_boundary_ends(self@.rows[self.cy as int]);
        }
    }

    /// Enters the command line: the editor goes back to Normal mode with an
    /// empty command line, and returns the command to run.
    pub fn execute_command(&mut self) -> (cmd: Command)
        ensures
            (final(self)@, cmd@) == after_execute(old(self)@),
    {
        let cmd = parse_command(self.command_buffer.as_str());
        self.mode = Mode::Normal;
        self.command_buffer = String::new();
        cmd
    }

    /// Handles one key and returns what remains to be done outside.
    pub fn handle_keypress(&mut self, key: char) -> (act: Action)
        requires
            well_formed(old(self)@),
            key_allowed(old(self)@, key),
        ensures
            (final(self)@, act@) == key_step(old(self)@, key),
            well_formed(final(self)@),
    {
        match self.mode {
            Mode::Normal => {
                if key == 'i' {
                    self.mode = Mode::Insert;
                } else if key == ':' {
                    self.mode = Mode::Command;
                    self.command_buffer = String::new();
                } else if key == 'h' || key == 'j' || key == 'k' || key == 'l' {
                    self.move_cursor(key);
                } else {
                    return Action::DispatchKey(Mode::Normal, key);
                }
            },
            Mode::Insert => {
                if key == '\x1b' {
                    self.mode = Mode::Normal;
                } else if key == '\r' || key == '\n' {
                    self.split_row();
                } else if key == '\x7f' || key == '\x08' {
                    self.delete_char();
                } else if !is_control(key) {
                    self.insert_char(key);
                } else {
                    return Action::DispatchKey(Mode::Insert, key);
                }
            },
            Mode::Command => {
                if key == '\x1b' {
                    self.mode = Mode::Normal;
                } else if key == '\r' || key == '\n' {
                    return Action::Execute(self.execute_command());
                } else if key == '\x7f' || key == '\x08' {
                    string_pop(&mut self.command_buffer);
                } else if !is_control(key) {
                    string_push(&mut self.command_buffer, key);
                } else {
                    return Action::DispatchKey(Mode::Command, key);
                }
            },
        }
        Action::Continue
    }

    /// Moves the row and column offsets so that the cursor is on the screen,
    /// as little as possible.
    pub fn scroll(&mut self)
        requires
            can_scroll(old(self)@),
        ensures
            final(self)@ == after_scroll(old(self)@),
    {
        let visible_rows = (self.screen_rows - 1) as usize;
        let visible_cols = self.screen_cols as usize;
        if (self.cy as usize) < self.row_offset {
            self.row_offset = self.cy as usize;
        }
        if (self.cy as usize) >= self.row_offset + visible_rows {
            self.row_offset = (self.cy as usize) - visible_rows + 1;
        }
        if (self.cx as usize) < self.col_offset {
            self.col_offset = self.cx as usize;
        }
        if (self.cx as usize) >= self.col_offset + visible_cols {
            self.col_offset = (self.cx as usize) - visible_cols + 1;
        }
    }

    /// Starts saving: without a file name, sets the message that says so and
    /// returns `None`; otherwise returns the file name and the text to write.
    pub fn save(&mut self) -> (job: Option<SaveJob>)
        ensures
            (final(self)@, job_view(job)) == save_outcome(old(self)@),
    {
        match &self.filename {
            Some(name) => {
                let path = name.clone();
                let content = self.buffer.rows_to_string();
                Some(SaveJob { path, content })
            },
            None => {
                self.status_msg = "No file name! Use :w <filename> (TBD)".to_owned();
                None
            },
        }
    }

    /// Opening the file `name`: it becomes the editor's file, and the message
    /// says whether it was read or is new.
    pub fn finish_open(&mut self, name: String, opened: bool)
        ensures
            final(self)@ == after_open(old(self)@, name@, opened),
    {
        let mut msg = if opened {
            "Opened: ".to_owned()
        } else {
            "New file: ".to_owned()
        };
        string_push_str(&mut msg, name.as_str());
        self.status_msg = msg;
        self.filename = Some(name);
    }

    /// The text was written to `path`: says so.
    pub fn saved(&mut self, path: &str)
        ensures
            final(self)@ == with_status(old(self)@, "Saved to "@ + path@),
    {
        let mut msg = "Saved to ".to_owned();
        string_push_str(&mut msg, path);
        self.status_msg = msg;
    }

    /// The outcome of `w`: `Saved`, or the error's message.
    pub fn finish_write(&mut self, outcome: Result<(), String>)
        ensures
            final(self)@ == with_status(old(self)@, write_message(outcome)),
    {
        match outcome {
            Ok(_) => {
                self.status_msg = "Saved".to_owned();
            },
            Err(e) => {
                let mut msg = "Error: ".to_owned();
                string_push_str(&mut msg, e.as_str());
                self.status_msg = msg;
            },
        }
    }

    /// The outcome of evaluating a script: its value after `=> `, or the
    /// error after `pi error: `.
    pub fn finish_eval(&mut self, outcome: Result<String, String>)
        ensures
            final(self)@ == with_status(old(self)@, eval_message(outcome)),
    {
        match outcome {
            Ok(v) => {
                let mut msg = "=> ".to_owned();
                string_push_str(&mut msg, v.as_str());
                self.status_msg = msg;
            },
            Err(e) => {
                let mut msg = "pi error: ".to_owned();
                string_push_str(&mut msg, e.as_str());
                self.status_msg = msg;
            },
        }
    }

    /// The outcome of offering the command `cmd` to the plugins: when none
    /// defines it, says that it is unknown.
    pub fn finish_user_command(&mut self, cmd: &str, found: bool)
        ensures
            found ==> final(self)@ == old(self)@,
            !found ==> final(self)@ == with_status(old(self)@, "Unknown: "@ + cmd@),
    {
        if !found {
            let mut msg = "Unknown: ".to_owned();
            string_push_str(&mut msg, cmd);
            self.status_msg = msg;
        }
    }

    /// Whether `handle_keypress(key)` can run on this state: the editor is
    /// well formed and the key can be handled without a failure.
    pub fn can_handle(&self, key: char) -> (r: bool)
        ensures
            r == (well_formed(self@) && key_allowed(self@, key)),
    {
        let n = self.buffer.rows.len();
        if n == 0 || (self.cy as usize) >= n {
            return false;
        }
        let cy = self.cy as usize;
        let cx = self.cx as usize;
        proof {
            lemma_rows_valid(self);
        }
        let len = byte_len(&self.buffer.rows[cy].content);
        if cx <= len && !self.buffer.rows[cy].content.as_str().is_char_boundary(cx) {
            return false;
        }
        let at = if cx <= len {
            cx
        } else {
            len
        };
        match self.mode {
            Mode::Normal => {
                if key == 'j' && cy < n - 1 {
                    self.cy < u16::MAX
                } else if key == 'l' && cx < len {
                    ceil_boundary_of(&self.buffer.rows[cy].content, cx + 1) <= u16::MAX as usize
                } else {
                    true
                }
            },
            Mode::Insert => {
                if key == '\x1b' {
                    true
                } else if key == '\r' || key == '\n' {
                    self.cy < u16::MAX && cx <= len
                } else if key == '\x7f' || key == '\x08' {
                    if at == 0 && cy > 0 {
                        byte_len(&self.buffer.rows[cy - 1].content) <= u16::MAX as usize
                    } else {
                        true
                    }
                } else if !is_control(key) {
                    let mut t = String::new();
                    string_push(&mut t, key);
                    proof {
                        assert(t@ =~= seq![key]);
                        lemma_bytes_of_single(key);
                    }
                    at + byte_len(&t) <= u16::MAX as usize
                } else {
                    true
                }
            },
            Mode::Command => true,
        }
    }

    /// Whether `scroll` can run on this state.
    pub fn can_scroll_now(&self) -> (r: bool)
        ensures
            r == can_scroll(self@),
    {
        self.screen_rows >= 1 && self.row_offset <= usize::MAX - (self.screen_rows - 1) as usize
            && self.col_offset <= usize::MAX - self.screen_cols as usize
    }
}

} // verus!
