use spica::editor::{EditorConfig, Mode, Row};

fn editor_with(rows: &[&str]) -> EditorConfig {
    let mut e = EditorConfig::new((10, 4));
    e.buffer.rows = rows.iter().map(|r| Row::new(r.to_string())).collect();
    e
}

#[test]
fn screen_lines_show_visible_part_and_tildes() {
    let mut e = editor_with(&["hello world", "hi"]);
    e.screen_cols = 5;
    let lines = e.screen_lines();
    assert_eq!(lines, vec!["hello", "hi", "~"]);
    e.col_offset = 3;
    let lines = e.screen_lines();
    assert_eq!(lines, vec!["lo wo", "", "~"]);
    e.row_offset = 1;
    e.col_offset = 0;
    let lines = e.screen_lines();
    assert_eq!(lines, vec!["hi", "~", "~"]);
}

#[test]
fn status_bar_in_each_mode() {
    let mut e = editor_with(&["abc"]);
    e.screen_cols = 40;
    e.cx = 2;
    e.cy = 0;
    e.status_msg = "ok".into();
    let bar = e.status_bar();
    let text = "-- NORMAL -- | Pos: 2,0 | ok";
    assert_eq!(bar, format!("\x1b[7m{:40}\x1b[m", text));
    e.mode = Mode::Insert;
    e.cx = 123;
    e.cy = 45;
    let bar = e.status_bar();
    assert_eq!(bar, format!("\x1b[7m{:40}\x1b[m", "-- INSERT -- | Pos: 123,45 | ok"));
    e.screen_cols = 3;
    let bar = e.status_bar();
    assert_eq!(bar, "\x1b[7m-- INSERT -- | Pos: 123,45 | ok\x1b[m");
    e.mode = Mode::Command;
    e.command_buffer = "wq".into();
    assert_eq!(e.status_bar(), ":wq");
}

#[test]
fn status_bar_pads_by_characters() {
    let mut e = editor_with(&["abc"]);
    e.screen_cols = 40;
    e.status_msg = "é".into();
    assert_eq!(e.status_bar(), format!("\x1b[7m{:40}\x1b[m", "-- NORMAL -- | Pos: 0,0 | é"));
}

#[test]
fn cursor_position_on_screen() {
    let mut e = editor_with(&["abc"; 40]);
    e.cy = 30;
    e.cx = 2;
    e.scroll();
    assert_eq!(e.row_offset, 28);
    assert_eq!(e.cursor_on_screen(), (3, 3));
}

#[test]
fn law_scroll_shows_cursor_example() {
    let mut e = editor_with(&["x"; 100]);
    e.screen_rows = 6;
    e.screen_cols = 8;
    for (cy, cx) in [(0u16, 0u16), (99, 30), (50, 7), (3, 100)] {
        e.cy = cy;
        e.cx = cx;
        e.scroll();
        assert!(e.row_offset <= cy as usize && (cy as usize) < e.row_offset + 5);
        assert!(e.col_offset <= cx as usize && (cx as usize) < e.col_offset + 8);
        let before = (e.row_offset, e.col_offset);
        e.scroll();
        assert_eq!((e.row_offset, e.col_offset), before);
    }
}
