//! Properties that hold across the editor's operations.

use vstd::prelude::*;
use vstd::utf8::*;
use crate::editor::{
    after_delete, after_insert, after_move, after_scroll, after_split, can_insert,
    can_move, can_scroll, can_split, col, control_char, is_backspace, is_enter, is_escape,
    key_allowed, key_step, loaded_rows,
    moved_state, visible_cols, visible_rows, well_formed, command_of, pi_prefix, strip_pi_prefixes, CommandSpec, save_outcome, ActionSpec,
    EditorState, Mode,
};

use crate::plugin::{
    binds_key, comparable, find_command, find_key, hook_handlers_of, hooks_after_add,
    hooks_after_remove, names_string, same_name, HookRun, Name,
};
use crate::render::{can_draw, cursor_placeable, screen_line};
use crate::text::{
    cr_byte, inserted, join_lines, lemma_boundary_ends, lemma_boundary_in_range,
    lemma_boundary_next, lemma_ceil_boundary, lemma_char_bytes, char_bytes, deleted, prev_boundary, lemma_delete_inserted, lemma_floor_boundary,
    lemma_inserted_prev_boundary, lemma_scan_lines_newline, lemma_scan_lines_no_newline,
    newline_byte, scan_lines, strip_cr, boundary, lemma_floor_boundary_last,
    lemma_ceil_boundary_first, text_lines,
};

verus! {

broadcast use group_utf8_lib;

/// After scrolling on a screen of at least one text row and one column, the
/// cursor can be drawn: its screen position is defined.
pub proof fn law_scrolled_cursor_placeable(s: EditorState)
    requires
        can_scroll(s),
        s.screen_rows >= 2,
        s.screen_cols >= 1,
    ensures
        cursor_placeable(after_scroll(s)),
{
}

/// After scrolling, the cursor is on the screen: its row is one of the visible
/// text rows and its column one of the visible columns (given a screen of at
/// least one text row and one column).
pub proof fn law_scroll_shows_cursor(s: EditorState)
    requires
        can_scroll(s),
        s.screen_rows >= 2,
        s.screen_cols >= 1,
    ensures
        after_scroll(s).row_offset <= s.cy < after_scroll(s).row_offset + visible_rows(s),
        after_scroll(s).col_offset <= s.cx < after_scroll(s).col_offset + visible_cols(s),
{
}

/// Scrolling does not move the screen while the cursor is on it.
pub proof fn law_scroll_still_when_cursor_visible(s: EditorState)
    requires
        s.row_offset <= s.cy < s.row_offset + visible_rows(s),
        s.col_offset <= s.cx < s.col_offset + visible_cols(s),
    ensures
        after_scroll(s) == s,
{
}

/// Scrolling twice is scrolling once.
pub proof fn law_scroll_idempotent(s: EditorState)
    requires
        can_scroll(s),
        s.screen_rows >= 2,
        s.screen_cols >= 1,
    ensures
        after_scroll(after_scroll(s)) == after_scroll(s),
{
}

/// A cursor motion leaves the text as it is and keeps the editor well formed:
/// the cursor stays on a row, at a character boundary of it.
pub proof fn law_motion_keeps_text(s: EditorState, key: char)
    requires
        well_formed(s),
        can_move(s, key),
    ensures
        after_move(s, key).rows == s.rows,
        well_formed(after_move(s, key)),
{
    let row = s.rows[s.cy as int];
    if s.cx > 0 {
        lemma_floor_boundary(row, s.cx - 1);
    }
    if s.cx < row.len() {
        lemma_ceil_boundary(row, s.cx + 1);
    }
    let m = moved_state(s, key);
    lemma_floor_boundary(m.rows[m.cy as int], m.cx as int);
    lemma_boundary_ends(m.rows[m.cy as int]);
}

/// Escape brings Insert and Command mode back to Normal mode, and changes
/// neither the text nor the cursor.
pub proof fn law_escape_returns_to_normal(s: EditorState)
    requires
        s.mode != Mode::Normal,
    ensures
        key_step(s, '\x1b').0.mode == Mode::Normal,
        key_step(s, '\x1b').0.rows == s.rows,
        key_step(s, '\x1b').0.cx == s.cx,
        key_step(s, '\x1b').0.cy == s.cy,
        key_step(s, '\x1b').1 is Continue,
{
}

/// Only Insert mode edits the text: in Normal and Command mode no key changes
/// the rows.
pub proof fn law_text_changes_only_in_insert_mode(s: EditorState, key: char)
    requires
        well_formed(s),
        s.mode != Mode::Insert,
    ensures
        key_step(s, key).0.rows == s.rows,
{
}

/// In Insert mode, Backspace right after typing a character takes the
/// character out again: text and cursor are as before (for a cursor within
/// its row).
pub proof fn law_backspace_undoes_typing(s: EditorState, c: char)
    requires
        well_formed(s),
        s.mode == Mode::Insert,
        !control_char(c),
        can_insert(s, c),
        s.cx <= s.rows[s.cy as int].len(),
    ensures
        key_allowed(key_step(s, c).0, '\x7f'),
        key_step(key_step(s, c).0, '\x7f').0 == s,
{
    let row = s.rows[s.cy as int];
    lemma_boundary_in_range(row, s.cx as int);
    lemma_delete_inserted(row, s.cx as int, c);
    lemma_inserted_prev_boundary(row, s.cx as int, c);
    lemma_char_bytes(c);
    assert(key_step(s, c).0 == after_insert(s, c));
    let t = after_insert(s, c);
    assert(t.rows[t.cy as int] == inserted(row, s.cx as int, c));
    assert(key_step(t, '\x7f').0 == after_delete(t));
    assert(after_delete(t).rows =~= s.rows);
}

/// In Insert mode, Backspace right after Enter joins the two halves again:
/// text and cursor are as before.
pub proof fn law_backspace_undoes_enter(s: EditorState)
    requires
        well_formed(s),
        s.mode == Mode::Insert,
        can_split(s),
    ensures
        key_allowed(key_step(s, '\n').0, '\x7f'),
        key_step(key_step(s, '\n').0, '\x7f').0 == s,
{
    let row = s.rows[s.cy as int];
    lemma_boundary_in_range(row, s.cx as int);
    let t = after_split(s);
    assert(key_step(s, '\n').0 == t);
    assert(t.rows[t.cy - 1] == row.take(s.cx as int));
    assert(t.rows[t.cy as int] == row.skip(s.cx as int));
    assert(row.take(s.cx as int) + row.skip(s.cx as int) =~= row);
    assert(key_step(t, '\x7f').0 == after_delete(t));
    assert(after_delete(t).rows =~= s.rows);
}

/// Every byte is an ASCII code.
pub open spec fn ascii_bytes(b: Seq<u8>) -> bool {
    forall|j: int| 0 <= j < b.len() ==> #[trigger] b[j] < 0x80
}

/// Every row is ASCII text.
pub open spec fn ascii_rows(rows: Seq<Seq<u8>>) -> bool {
    forall|i: int| 0 <= i < rows.len() ==> ascii_bytes(#[trigger] rows[i])
}

proof fn lemma_ascii_concat(a: Seq<u8>, b: Seq<u8>)
    requires
        ascii_bytes(a),
        ascii_bytes(b),
    ensures
        ascii_bytes(a + b),
{
    assert forall|j: int| 0 <= j < (a + b).len() implies #[trigger] (a + b)[j] < 0x80 by {
        if j < a.len() {
            assert((a + b)[j] == a[j]);
        } else {
            assert((a + b)[j] == b[j - a.len()]);
        }
    }
}

proof fn lemma_ascii_subrange(b: Seq<u8>, i: int, k: int)
    requires
        ascii_bytes(b),
        0 <= i <= k <= b.len(),
    ensures
        ascii_bytes(b.subrange(i, k)),
{
    assert forall|j: int| 0 <= j < b.subrange(i, k).len() implies #[trigger] b.subrange(i, k)[j]
        < 0x80 by {
        assert(b.subrange(i, k)[j] == b[i + j]);
    }
}

proof fn lemma_ascii_update(rows: Seq<Seq<u8>>, i: int, r: Seq<u8>)
    requires
        ascii_rows(rows),
        ascii_bytes(r),
        0 <= i < rows.len(),
    ensures
        ascii_rows(rows.update(i, r)),
{
    assert forall|k: int| 0 <= k < rows.update(i, r).len() implies ascii_bytes(
        #[trigger] rows.update(i, r)[k],
    ) by {
        if k != i {
            assert(rows.update(i, r)[k] == rows[k]);
        }
    }
}

/// Typing ASCII keys keeps ASCII text ASCII: no key changes an ASCII row into
/// one that holds another byte.
pub proof fn law_ascii_stays_ascii(s: EditorState, key: char)
    requires
        well_formed(s),
        key_allowed(s, key),
        ascii_rows(s.rows),
        (key as u32) < 0x80,
    ensures
        ascii_rows(key_step(s, key).0.rows),
{
    let cy = s.cy as int;
    let row = s.rows[cy];
    assert(ascii_bytes(row));
    lemma_boundary_ends(row);
    if s.mode == Mode::Insert {
        if is_escape(key) {
        } else if is_enter(key) {
            lemma_ascii_subrange(row, 0, s.cx as int);
            lemma_ascii_subrange(row, s.cx as int, row.len() as int);
            assert(row.take(s.cx as int) =~= row.subrange(0, s.cx as int));
            assert(row.skip(s.cx as int) =~= row.subrange(s.cx as int, row.len() as int));
            let r2 = after_split(s).rows;
            assert forall|i: int| 0 <= i < r2.len() implies ascii_bytes(#[trigger] r2[i]) by {
                if i < cy {
                    assert(r2[i] == s.rows[i]);
                } else if i == cy {
                    assert(r2[i] == row.take(s.cx as int));
                } else if i == cy + 1 {
                    assert(r2[i] == row.skip(s.cx as int));
                } else {
                    assert(r2[i] == s.rows[i - 1]);
                }
            }
        } else if is_backspace(key) {
            let c = col(s);
            if c == 0 && s.cy == 0 {
            } else if c > 0 {
                let start = prev_boundary(row, c);
                lemma_floor_boundary(row, c - 1);
                lemma_boundary_next(row, start);
                let l = length_of_first_scalar(row.skip(start));
                lemma_ascii_subrange(row, 0, start);
                lemma_ascii_subrange(row, start + l, row.len() as int);
                assert(row.take(start) =~= row.subrange(0, start));
                assert(row.skip(start + l) =~= row.subrange(start + l, row.len() as int));
                lemma_ascii_concat(row.take(start), row.skip(start + l));
                lemma_ascii_update(s.rows, cy, deleted(row, start));
            } else {
                let prev = s.rows[cy - 1];
                assert(ascii_bytes(prev));
                lemma_ascii_concat(prev, row);
                let r2 = after_delete(s).rows;
                assert forall|i: int| 0 <= i < r2.len() implies ascii_bytes(#[trigger] r2[i]) by {
                    if i < cy - 1 {
                        assert(r2[i] == s.rows[i]);
                    } else if i == cy - 1 {
                        assert(r2[i] == prev + row);
                    } else {
                        assert(r2[i] == s.rows[i + 1]);
                    }
                }
            }
        } else if !control_char(key) {
            let c = col(s);
            lemma_char_bytes(key);
            assert(ascii_bytes(char_bytes(key)));
            if c >= row.len() {
                lemma_ascii_concat(row, char_bytes(key));
            } else {
                lemma_ascii_subrange(row, 0, c);
                lemma_ascii_subrange(row, c, row.len() as int);
                assert(row.take(c) =~= row.subrange(0, c));
                assert(row.skip(c) =~= row.subrange(c, row.len() as int));
                lemma_ascii_concat(row.take(c), char_bytes(key));
                lemma_ascii_concat(row.take(c) + char_bytes(key), row.skip(c));
            }
            lemma_ascii_update(s.rows, cy, inserted(row, c, key));
        }
    }
}

/// No line feed among the bytes.
pub open spec fn no_newline(b: Seq<u8>) -> bool {
    forall|i: int| 0 <= i < b.len() ==> #[trigger] b[i] != newline_byte()
}

/// Rows that a written file gives back unchanged when it is read again: none
/// holds a line feed, none but the last ends with a carriage return, and the
/// last is not empty unless it is the only one.
pub open spec fn rows_survive_text(rows: Seq<Seq<u8>>) -> bool {
    &&& rows.len() >= 1
    &&& forall|i: int| 0 <= i < rows.len() ==> no_newline(#[trigger] rows[i])
    &&& forall|i: int|
        0 <= i < rows.len() - 1 ==> strip_cr(#[trigger] rows[i]) == rows[i]
    &&& (rows.len() == 1 || rows.last().len() > 0)
}

/// Reading the joined rows back gives all rows but the last as completed
/// lines and the last as the line being read.
proof fn lemma_scan_join(rows: Seq<Seq<u8>>)
    requires
        rows.len() >= 1,
        forall|i: int| 0 <= i < rows.len() ==> no_newline(#[trigger] rows[i]),
        forall|i: int| 0 <= i < rows.len() - 1 ==> strip_cr(#[trigger] rows[i]) == rows[i],
    ensures
        scan_lines(join_lines(rows)) == (rows.drop_last(), rows.last()),
    decreases rows.len(),
{
    if rows.len() == 1 {
        lemma_scan_lines_no_newline(Seq::empty(), rows[0]);
        assert(Seq::<u8>::empty() + rows[0] =~= rows[0]);
        assert(rows.drop_last() =~= Seq::<Seq<u8>>::empty());
    } else {
        let r = rows.drop_last();
        assert forall|i: int| 0 <= i < r.len() implies no_newline(#[trigger] r[i]) by {
            assert(r[i] == rows[i]);
        }
        assert forall|i: int| 0 <= i < r.len() - 1 implies strip_cr(#[trigger] r[i]) == r[i] by {
            assert(r[i] == rows[i]);
        }
        lemma_scan_join(r);
        let j = join_lines(r);
        lemma_scan_lines_newline(j);
        assert(r.last() == rows[rows.len() - 2]);
        assert(strip_cr(r.last()) == r.last());
        assert(r.drop_last().push(r.last()) =~= r);
        assert(no_newline(rows.last()));
        lemma_scan_lines_no_newline(j.push(newline_byte()), rows.last());
        assert(j + seq![newline_byte()] + rows.last() =~= j.push(newline_byte()) + rows.last());
        assert(Seq::<u8>::empty() + rows.last() =~= rows.last());
    }
}

/// Reading back a written text gives the rows that were written, for rows
/// that a text can hold (see [`rows_survive_text`]).
pub proof fn law_read_what_was_written(rows: Seq<Seq<u8>>)
    requires
        rows_survive_text(rows),
    ensures
        loaded_rows(join_lines(rows)) == rows,
{
    lemma_scan_join(rows);
    if rows.len() == 1 && rows[0].len() == 0 {
        assert(rows =~= seq![Seq::<u8>::empty()]);
    } else {
        assert(rows.drop_last().push(rows.last()) =~= rows);
    }
}

/// A text whose line endings are all single line feeds: no carriage return
/// right before a line feed.
pub open spec fn text_survives_rows(b: Seq<u8>) -> bool {
    forall|i: int| 0 <= i < b.len() - 1 && b[i + 1] == newline_byte() ==> #[trigger] b[i] != cr_byte()
}

/// A text without the line feed that ends it, if it ends with one.
pub open spec fn without_final_newline(b: Seq<u8>) -> Seq<u8> {
    if b.len() > 0 && b.last() == newline_byte() {
        b.drop_last()
    } else {
        b
    }
}

/// Joining with a longer last line.
proof fn lemma_join_extend_last(p: Seq<Seq<u8>>, l: Seq<u8>, x: u8)
    ensures
        join_lines(p.push(l.push(x))) == join_lines(p.push(l)).push(x),
{
    let a = p.push(l.push(x));
    let b = p.push(l);
    assert(a.drop_last() =~= p);
    assert(b.drop_last() =~= p);
    if p.len() == 0 {
    } else {
        assert(join_lines(p) + seq![newline_byte()] + l.push(x) =~= (join_lines(p) + seq![newline_byte()] + l).push(x));
    }
}

/// Rejoining the lines read from a text, the line being read included, gives
/// the text back when no carriage return precedes a line feed.
proof fn lemma_join_scan(b: Seq<u8>)
    requires
        forall|i: int| 0 <= i < b.len() - 1 && b[i + 1] == newline_byte() ==> #[trigger] b[i] != cr_byte(),
    ensures
        join_lines(scan_lines(b).0.push(scan_lines(b).1)) == b,
        scan_lines(b).1.len() > 0 ==> b.len() > 0 && scan_lines(b).1.last() == b.last(),
        b.len() > 0 && scan_lines(b).1.len() == 0 ==> b.last() == newline_byte(),
    decreases b.len(),
{
    if b.len() == 0 {
        assert(Seq::<Seq<u8>>::empty().push(Seq::<u8>::empty()) =~= seq![Seq::<u8>::empty()]);
    } else {
        let b0 = b.drop_last();
        assert forall|i: int| 0 <= i < b0.len() - 1 && b0[i + 1] == newline_byte() implies #[trigger] b0[i] != cr_byte() by {
            assert(b0[i] == b[i] && b0[i + 1] == b[i + 1]);
        }
        lemma_join_scan(b0);
        let (done, cur) = scan_lines(b0);
        if b.last() == newline_byte() {
            if cur.len() > 0 {
                assert(b[b.len() - 2] != cr_byte());
            }
            assert(strip_cr(cur) == cur);
            let d = done.push(cur);
            assert(d.push(Seq::<u8>::empty()).drop_last() =~= d);
            assert(join_lines(d.push(Seq::<u8>::empty())) == join_lines(d) + seq![newline_byte()] + Seq::<u8>::empty());
            assert(b0.push(newline_byte()) =~= b);
            assert(join_lines(d) + seq![newline_byte()] + Seq::<u8>::empty() =~= b);
        } else {
            lemma_join_extend_last(done, cur, b.last());
            assert(b0.push(b.last()) =~= b);
        }
    }
}

/// Writing the rows read from a text gives the text back, less the line feed
/// that ended it, if any (for texts whose line endings are single line
/// feeds, see [`text_survives_rows`]).
pub proof fn law_write_what_was_read(b: Seq<u8>)
    requires
        text_survives_rows(b),
    ensures
        join_lines(loaded_rows(b)) == without_final_newline(b),
{
    lemma_join_scan(b);
    if b.len() == 0 {
        assert(join_lines(seq![Seq::<u8>::empty()]) == Seq::<u8>::empty());
        assert(b =~= Seq::<u8>::empty());
    } else if b.last() == newline_byte() {
        let (done, cur) = scan_lines(b);
        assert(cur.len() == 0);
        assert(done.len() >= 1);
        let d = done.push(cur);
        assert(d.drop_last() =~= done);
        assert(join_lines(d) == join_lines(done) + seq![newline_byte()] + cur);
        assert(b.drop_last() =~= join_lines(done)) by {
            assert(join_lines(done) + seq![newline_byte()] + cur =~= join_lines(done).push(newline_byte()));
        }
    }
}

/// A key binding replaces every earlier binding of the same key in the same
/// mode, and leaves the bindings of other keys and modes as they were.
pub proof fn law_newest_key_binding_wins(
    keymaps: Seq<(Name, Name, u64)>,
    b: (Name, Name, u64),
    mode: Seq<char>,
    key: char,
)
    ensures
        binds_key(b, mode, key) ==> find_key(keymaps.push(b), mode, key) == Some(b.2),
        !binds_key(b, mode, key) ==> find_key(keymaps.push(b), mode, key) == find_key(
            keymaps,
            mode,
            key,
        ),
{
    assert(keymaps.push(b).drop_last() =~= keymaps);
}

/// Defining a command again under a name that already has one changes
/// nothing: the first definition stays the one that runs; a name without a
/// command gets the new one.
pub proof fn law_first_command_wins(commands: Seq<(Name, u64)>, b: (Name, u64), cmd: Seq<char>)
    ensures
        find_command(commands.push(b), cmd) == match find_command(commands, cmd) {
            Some(h) => Some(h),
            None => if names_string(b.0, cmd) {
                Some(b.1)
            } else {
                None
            },
        },
    decreases commands.len(),
{
    let c2 = commands.push(b);
    if commands.len() == 0 {
        assert(c2.drop_first() =~= Seq::<(Name, u64)>::empty());
        assert(c2[0] == b);
        assert(find_command(c2.drop_first(), cmd) is None);
    } else {
        assert(c2[0] == commands[0]);
        assert(c2.drop_first() =~= commands.drop_first().push(b));
        law_first_command_wins(commands.drop_first(), b, cmd);
    }
}

/// Every name that holds no `Other` equals itself; a list or a function is
/// thus found again under an equal name.
pub proof fn law_same_name_reflexive(n: Name)
    requires
        comparable(n),
    ensures
        same_name(n, n),
    decreases n,
{
    match n {
        Name::List(xs) => {
            assert forall|i: int| 0 <= i < xs@.len() implies same_name(#[trigger] xs@[i], xs@[i]) by {
                assert(decreases_to!(n => n->List_0));
                law_same_name_reflexive(xs@[i]);
            }
        },
        Name::Lambda(pa, ba) => {
            law_same_name_reflexive(*ba);
        },
        _ => {},
    }
}

/// After a hook is removed, triggering it runs nothing.
pub proof fn law_removed_hook_runs_nothing(hooks: Seq<(Name, Seq<u64>)>, name: Name)
    ensures
        hook_handlers_of(hooks_after_remove(hooks, name), name) == Seq::<u64>::empty(),
    decreases hooks.len(),
{
    if hooks.len() > 0 {
        law_removed_hook_runs_nothing(hooks.drop_last(), name);
        let rest = hooks_after_remove(hooks.drop_last(), name);
        if !same_name(hooks.last().0, name) {
            assert(rest.push(hooks.last()).drop_last() =~= rest);
        }
    }
}

/// Removing one hook leaves what triggering any other hook runs unchanged.
pub proof fn law_remove_hook_keeps_others(
    hooks: Seq<(Name, Seq<u64>)>,
    name: Name,
    other: Name,
)
    requires
        forall|n: Name| same_name(n, other) ==> !same_name(n, name),
    ensures
        hook_handlers_of(hooks_after_remove(hooks, name), other) == hook_handlers_of(hooks, other),
    decreases hooks.len(),
{
    if hooks.len() > 0 {
        law_remove_hook_keeps_others(hooks.drop_last(), name, other);
        let rest = hooks_after_remove(hooks.drop_last(), name);
        if !same_name(hooks.last().0, name) {
            assert(rest.push(hooks.last()).drop_last() =~= rest);
        }
    }
}

/// The handlers of the hook `name` after `handler` was added to entries whose
/// prefix `hooks.take(k)` already had the rest.
proof fn lemma_handlers_after_add_prefix(
    hooks: Seq<(Name, Seq<u64>)>,
    name: Name,
    handler: u64,
    k: int,
)
    requires
        0 <= k <= hooks.len(),
    ensures
        hook_handlers_of(
            Seq::new(
                k as nat,
                |i: int|
                    if same_name(hooks[i].0, name) {
                        (hooks[i].0, hooks[i].1.push(handler))
                    } else {
                        hooks[i]
                    },
            ),
            name,
        ).len() >= hook_handlers_of(hooks.take(k), name).len(),
        (exists|i: int| 0 <= i < k && same_name(#[trigger] hooks[i].0, name)) ==> {
            let hs = hook_handlers_of(
                Seq::new(
                    k as nat,
                    |i: int|
                        if same_name(hooks[i].0, name) {
                            (hooks[i].0, hooks[i].1.push(handler))
                        } else {
                            hooks[i]
                        },
                ),
                name,
            );
            hs.len() > 0 && hs.last() == handler
        },
    decreases k,
{
    let f = |i: int|
        if same_name(hooks[i].0, name) {
            (hooks[i].0, hooks[i].1.push(handler))
        } else {
            hooks[i]
        };
    let s = Seq::new(k as nat, f);
    if k > 0 {
        lemma_handlers_after_add_prefix(hooks, name, handler, k - 1);
        assert(s.drop_last() =~= Seq::new((k - 1) as nat, f));
        assert(hooks.take(k).drop_last() =~= hooks.take(k - 1));
        assert(hooks.take(k).last() == hooks[k - 1]);
        if (exists|i: int| 0 <= i < k && same_name(#[trigger] hooks[i].0, name)) {
            if !same_name(hooks[k - 1].0, name) {
                let i = choose|i: int| 0 <= i < k && same_name(#[trigger] hooks[i].0, name);
                assert(0 <= i < k - 1);
            }
        }
    } else {
        assert(hooks.take(0) =~= Seq::<(Name, Seq<u64>)>::empty());
    }
}

/// After a handler is added to a hook, triggering that hook runs the handler
/// last (for any name that holds no `Other`).
pub proof fn law_added_hook_runs_last(
    hooks: Seq<(Name, Seq<u64>)>,
    name: Name,
    handler: u64,
)
    requires
        comparable(name),
    ensures
        hook_handlers_of(hooks_after_add(hooks, name, handler), name).len() > 0,
        hook_handlers_of(hooks_after_add(hooks, name, handler), name).last() == handler,
{
    law_same_name_reflexive(name);
    if exists|i: int| 0 <= i < hooks.len() && same_name(#[trigger] hooks[i].0, name) {
        lemma_handlers_after_add_prefix(hooks, name, handler, hooks.len() as int);
    } else {
        let h2 = hooks.push((name, seq![handler]));
        assert(h2.drop_last() =~= hooks);
        assert(h2.last() == (name, seq![handler]));
    }
}

/// Adding to a hook a second time keeps one entry for it: the second handler
/// joins the first (for any name that holds no `Other`, lists included).
pub proof fn law_second_add_joins_first(
    hooks: Seq<(Name, Seq<u64>)>,
    name: Name,
    first: u64,
    second: u64,
)
    requires
        comparable(name),
    ensures
        hooks_after_add(hooks_after_add(hooks, name, first), name, second).len()
            == hooks_after_add(hooks, name, first).len(),
{
    law_same_name_reflexive(name);
    let h1 = hooks_after_add(hooks, name, first);
    if exists|i: int| 0 <= i < hooks.len() && same_name(#[trigger] hooks[i].0, name) {
        let i = choose|i: int| 0 <= i < hooks.len() && same_name(#[trigger] hooks[i].0, name);
        assert(same_name(h1[i].0, name));
    } else {
        assert(h1[hooks.len() as int].0 == name);
        assert(same_name(h1[hooks.len() as int].0, name));
    }
}

/// A run that does not stop at failure is over only once every handler has
/// been handed out, whatever failed; a run that stops at failure is over as
/// soon as one failed.
pub proof fn law_trigger_runs_every_handler(r: HookRun)
    requires
        r.next <= r.handlers.len(),
    ensures
        !r.stop_at_failure ==> (r.finished() <==> r.next == r.handlers.len()),
        r.stop_at_failure && r.failed ==> r.finished(),
{
}

/// In Command mode Enter runs the command line, whether it arrives as
/// `'\r'` or as `'\n'`: the command the line stands for is returned, the mode
/// goes back to Normal, the command line is emptied, and text and cursor stay.
pub proof fn law_enter_runs_command_line(s: EditorState, key: char)
    requires
        s.mode == Mode::Command,
        key == '\r' || key == '\n',
    ensures
        key_step(s, key).1 == ActionSpec::Execute(command_of(s.command)),
        key_step(s, key).0.mode == Mode::Normal,
        key_step(s, key).0.command == Seq::<char>::empty(),
        key_step(s, key).0.rows == s.rows,
        key_step(s, key).0.cx == s.cx,
        key_step(s, key).0.cy == s.cy,
        key_step(s, key).0.status == s.status,
{
}

/// Outside Normal mode, `'\n'` and `'\r'` are the same key: Enter.
pub proof fn law_newline_is_enter(s: EditorState)
    requires
        s.mode != Mode::Normal,
    ensures
        key_step(s, '\n') == key_step(s, '\r'),
{
}

/// In Normal mode `h` moves the cursor back to the start of the character
/// before it: the column decreases, lands on a character boundary, and no
/// boundary of the row lies between the new column and the old one; text,
/// row and mode stay, and nothing is handed to the plugins.
pub proof fn law_h_moves_back_one_character(s: EditorState)
    requires
        well_formed(s),
        s.mode == Mode::Normal,
        s.cx > 0,
    ensures
        key_step(s, 'h').1 == ActionSpec::Continue,
        key_step(s, 'h').0.rows == s.rows,
        key_step(s, 'h').0.cy == s.cy,
        key_step(s, 'h').0.mode == Mode::Normal,
        key_step(s, 'h').0.cx < s.cx,
        boundary(s.rows[s.cy as int], key_step(s, 'h').0.cx as int),
        forall|j: int|
            key_step(s, 'h').0.cx < j < s.cx && j <= s.rows[s.cy as int].len() ==> !boundary(
                s.rows[s.cy as int],
                j,
            ),
{
    let row = s.rows[s.cy as int];
    lemma_floor_boundary(row, s.cx - 1);
    lemma_floor_boundary_last(row, s.cx - 1);
    let p = prev_boundary(row, s.cx as int);
    lemma_boundary_in_range(row, p);
    lemma_floor_boundary(row, p);
}

/// In Normal mode `l` moves the cursor on to the end of the character under
/// it: the column increases, lands on a character boundary, and no boundary of
/// the row lies between the old column and the new one; text, row and mode
/// stay, and nothing is handed to the plugins.
pub proof fn law_l_moves_on_one_character(s: EditorState)
    requires
        well_formed(s),
        s.mode == Mode::Normal,
        s.cx < s.rows[s.cy as int].len(),
        can_move(s, 'l'),
    ensures
        key_step(s, 'l').1 == ActionSpec::Continue,
        key_step(s, 'l').0.rows == s.rows,
        key_step(s, 'l').0.cy == s.cy,
        key_step(s, 'l').0.mode == Mode::Normal,
        key_step(s, 'l').0.cx > s.cx,
        boundary(s.rows[s.cy as int], key_step(s, 'l').0.cx as int),
        forall|j: int|
            s.cx < j < key_step(s, 'l').0.cx ==> !boundary(s.rows[s.cy as int], j),
{
    let row = s.rows[s.cy as int];
    lemma_ceil_boundary(row, s.cx + 1);
    lemma_ceil_boundary_first(row, s.cx + 1);
    let n = crate::text::next_boundary(row, s.cx as int);
    lemma_floor_boundary(row, n);
}

/// In Normal mode `j` and `k` move the cursor one row down or up when there is
/// such a row; the column goes to a character boundary of the new row, no
/// further right than it was.
pub proof fn law_j_k_move_one_row(s: EditorState, key: char)
    requires
        well_formed(s),
        s.mode == Mode::Normal,
        key == 'j' || key == 'k',
        can_move(s, key),
    ensures
        key_step(s, key).1 == ActionSpec::Continue,
        key_step(s, key).0.rows == s.rows,
        key == 'j' && s.cy + 1 < s.rows.len() ==> key_step(s, key).0.cy == s.cy + 1,
        key == 'k' && s.cy > 0 ==> key_step(s, key).0.cy == s.cy - 1,
        key == 'j' && s.cy + 1 >= s.rows.len() ==> key_step(s, key).0.cy == s.cy,
        key == 'k' && s.cy == 0 ==> key_step(s, key).0.cy == s.cy,
        key_step(s, key).0.cx <= s.cx,
        boundary(
            s.rows[key_step(s, key).0.cy as int],
            key_step(s, key).0.cx as int,
        ),
{
    let m = moved_state(s, key);
    let row = m.rows[m.cy as int];
    lemma_floor_boundary(row, m.cx as int);
    lemma_boundary_ends(row);
}

/// Each text row on the screen shows that row's bytes from the first visible
/// column on, cut to the screen width; an empty row shows an empty line. The
/// end-of-text marker `~` shows only below the last row.
pub proof fn law_screen_shows_rows(s: EditorState, y: int)
    requires
        can_draw(s),
        0 <= y < visible_rows(s),
    ensures
        s.row_offset + y < s.rows.len() && s.rows[s.row_offset + y].len() <= s.col_offset
            ==> screen_line(s, y) == Seq::<u8>::empty(),
        s.row_offset + y < s.rows.len() && s.rows[s.row_offset + y].len() > s.col_offset
            ==> screen_line(s, y) == s.rows[s.row_offset + y].subrange(
            s.col_offset as int,
            if s.rows[s.row_offset + y].len() < s.col_offset + visible_cols(s) {
                s.rows[s.row_offset + y].len() as int
            } else {
                s.col_offset + visible_cols(s)
            },
        ),
        s.row_offset + y >= s.rows.len() ==> screen_line(s, y) == seq![126u8],
{
    let idx = s.row_offset + y;
    if idx < s.rows.len() {
        let row = s.rows[idx];
        if row.len() > s.col_offset {
            let rest = row.skip(s.col_offset as int);
            if visible_cols(s) < rest.len() {
                assert(rest.take(visible_cols(s)) =~= row.subrange(
                    s.col_offset as int,
                    s.col_offset + visible_cols(s),
                ));
            } else {
                assert(rest =~= row.subrange(s.col_offset as int, row.len() as int));
            }
        }
    }
}

/// Saving writes every row: the job goes to the editor's file, and reading
/// the written text back gives exactly the rows, blank rows included, for
/// rows a text can hold (see [`rows_survive_text`]). The state is unchanged.
pub proof fn law_save_writes_every_row(s: EditorState)
    requires
        s.filename is Some,
        rows_survive_text(s.rows),
    ensures
        save_outcome(s).0 == s,
        save_outcome(s).1 is Some,
        save_outcome(s).1.unwrap().0 == s.filename.unwrap(),
        loaded_rows(save_outcome(s).1.unwrap().1) == s.rows,
{
    law_read_what_was_written(s.rows);
}

/// Neither a line feed nor a carriage return among the bytes.
pub open spec fn plain_line(b: Seq<u8>) -> bool {
    forall|i: int| 0 <= i < b.len() ==> #[trigger] b[i] != newline_byte() && b[i] != cr_byte()
}

/// Lines each followed by `"\r\n"`, as a text in Windows format.
pub open spec fn crlf_text(lines: Seq<Seq<u8>>) -> Seq<u8>
    decreases lines.len(),
{
    if lines.len() == 0 {
        Seq::empty()
    } else {
        crlf_text(lines.drop_last()) + lines.last() + seq![cr_byte(), newline_byte()]
    }
}

proof fn lemma_scan_crlf(lines: Seq<Seq<u8>>)
    requires
        forall|i: int| 0 <= i < lines.len() ==> plain_line(#[trigger] lines[i]),
    ensures
        scan_lines(crlf_text(lines)) == (lines, Seq::<u8>::empty()),
    decreases lines.len(),
{
    if lines.len() > 0 {
        let ls = lines.drop_last();
        assert forall|i: int| 0 <= i < ls.len() implies plain_line(#[trigger] ls[i]) by {
            assert(ls[i] == lines[i]);
        }
        lemma_scan_crlf(ls);
        let x = crlf_text(ls);
        let l = lines.last();
        assert(plain_line(l));
        lemma_scan_lines_no_newline(x, l);
        assert(Seq::<u8>::empty() + l =~= l);
        let y = l.push(cr_byte());
        lemma_scan_lines_no_newline(x, y);
        assert(Seq::<u8>::empty() + y =~= y);
        assert(x + y =~= (x + l).push(cr_byte()));
        lemma_scan_lines_newline(x + y);
        assert(y.drop_last() =~= l);
        assert(strip_cr(y) == l);
        assert(crlf_text(lines) =~= (x + y).push(newline_byte()));
        assert(ls.push(l) =~= lines);
    }
}

/// Reading a text in Windows format gives its lines with no carriage return
/// left: lines without line endings, each followed by `"\r\n"`, come back
/// exactly, empty lines included.
pub proof fn law_crlf_lines_read_back(lines: Seq<Seq<u8>>)
    requires
        forall|i: int| 0 <= i < lines.len() ==> plain_line(#[trigger] lines[i]),
    ensures
        text_lines(crlf_text(lines)) == lines,
        lines.len() > 0 ==> loaded_rows(crlf_text(lines)) == lines,
{
    lemma_scan_crlf(lines);
}

/// `k` copies of the prefix `"pi "`.
pub open spec fn pi_prefixes(k: nat) -> Seq<char>
    decreases k,
{
    if k == 0 {
        Seq::empty()
    } else {
        pi_prefix() + pi_prefixes((k - 1) as nat)
    }
}

/// Removing the leading copies of `"pi "` leaves a text that does not start
/// with it, and the text is that many copies followed by what is left.
pub proof fn law_strip_pi_prefixes(s: Seq<char>)
    ensures
        exists|k: nat| s == pi_prefixes(k) + strip_pi_prefixes(s),
        !(strip_pi_prefixes(s).len() >= 3 && strip_pi_prefixes(s).take(3) == pi_prefix()),
    decreases s.len(),
{
    if s.len() >= 3 && s.take(3) == pi_prefix() {
        law_strip_pi_prefixes(s.skip(3));
        let k = choose|k: nat| s.skip(3) == pi_prefixes(k) + strip_pi_prefixes(s.skip(3));
        assert(pi_prefixes(k + 1) == pi_prefix() + pi_prefixes(k));
        let rest = strip_pi_prefixes(s.skip(3));
        assert(s =~= s.take(3) + s.skip(3));
        assert(pi_prefix() + (pi_prefixes(k) + rest) =~= (pi_prefix() + pi_prefixes(k)) + rest);
        assert(s =~= pi_prefixes(k + 1) + strip_pi_prefixes(s));
    } else {
        assert(s =~= pi_prefixes(0) + strip_pi_prefixes(s));
    }
}

/// A command line that starts with `"pi "` evaluates the source after all its
/// leading copies of `"pi "`: the line is those copies followed by the source,
/// and the source does not start with another copy.
pub proof fn law_pi_command_evaluates_rest(cmd: Seq<char>)
    requires
        cmd.len() >= 3,
        cmd.take(3) == pi_prefix(),
    ensures
        command_of(cmd) matches CommandSpec::Eval(src) && (exists|k: nat| k >= 1 && cmd
            == pi_prefixes(k) + src) && !(src.len() >= 3 && src.take(3) == pi_prefix()),
{
    assert(cmd != seq!['w'] && cmd != seq!['q'] && cmd != seq!['w', 'q']) by {
        assert(cmd.len() >= 3);
    }
    law_strip_pi_prefixes(cmd.skip(3));
    let src = strip_pi_prefixes(cmd);
    assert(src == strip_pi_prefixes(cmd.skip(3)));
    let k = choose|k: nat| cmd.skip(3) == pi_prefixes(k) + strip_pi_prefixes(cmd.skip(3));
    assert(pi_prefixes(k + 1) == pi_prefix() + pi_prefixes(k));
    assert(cmd =~= cmd.take(3) + cmd.skip(3));
    assert(pi_prefix() + (pi_prefixes(k) + src) =~= (pi_prefix() + pi_prefixes(k)) + src);
    assert(cmd =~= pi_prefixes(k + 1) + src);
}

} // verus!
