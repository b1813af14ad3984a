use spica::editor::{Action, Command, EditorBuffer, EditorConfig, Mode, Row};

fn editor_with(rows: &[&str]) -> EditorConfig {
    let mut e = EditorConfig::new((80, 24));
    e.buffer.rows = rows.iter().map(|r| Row::new(r.to_string())).collect();
    e
}

fn texts(e: &EditorConfig) -> Vec<String> {
    e.buffer.rows.iter().map(|r| r.content.clone()).collect()
}

fn keys(e: &mut EditorConfig, ks: &str) -> Vec<Action> {
    ks.chars().map(|k| e.handle_keypress(k)).collect()
}

#[test]
fn row_insert_in_middle_and_past_end() {
    let mut r = Row::new("ac".to_string());
    r.insert_char(1, 'b');
    assert_eq!(r.content, "abc");
    r.insert_char(3, 'd');
    assert_eq!(r.content, "abcd");
    r.insert_char(100, 'e');
    assert_eq!(r.content, "abcde");
}

#[test]
fn row_insert_multibyte() {
    let mut r = Row::new("ab".to_string());
    r.insert_char(1, 'é');
    assert_eq!(r.content, "aéb");
    assert_eq!(r.content.len(), 4);
}

#[test]
fn row_delete_char() {
    let mut r = Row::new("aéb".to_string());
    r.delete_char(1);
    assert_eq!(r.content, "ab");
    r.delete_char(5);
    assert_eq!(r.content, "ab");
    r.delete_char(1);
    assert_eq!(r.content, "a");
}

#[test]
fn buffer_new_has_one_empty_row() {
    let b = EditorBuffer::new();
    assert_eq!(b.rows.len(), 1);
    assert_eq!(b.rows[0].content, "");
    assert_eq!(b.rows_to_string(), "");
}

#[test]
fn buffer_rows_to_string_joins_with_newlines() {
    let mut b = EditorBuffer::new();
    b.rows = vec![Row::new("one".into()), Row::new("".into()), Row::new("three".into())];
    assert_eq!(b.rows_to_string(), "one\n\nthree");
}

#[test]
fn buffer_load_text_splits_lines() {
    let mut b = EditorBuffer::new();
    b.load_text("a\r\nb\nc");
    let rows: Vec<&str> = b.rows.iter().map(|r| r.content.as_str()).collect();
    assert_eq!(rows, vec!["a", "b", "c"]);
    b.load_text("x\n\n");
    let rows: Vec<&str> = b.rows.iter().map(|r| r.content.as_str()).collect();
    assert_eq!(rows, vec!["x", ""]);
    b.load_text("a\rb\r");
    let rows: Vec<&str> = b.rows.iter().map(|r| r.content.as_str()).collect();
    assert_eq!(rows, vec!["a\rb\r"]);
}

#[test]
fn buffer_load_empty_text_gives_one_empty_row() {
    let mut b = EditorBuffer::new();
    b.rows.push(Row::new("extra".into()));
    b.load_text("");
    assert_eq!(b.rows.len(), 1);
    assert_eq!(b.rows[0].content, "");
    b.load_text("\n");
    assert_eq!(b.rows.len(), 1);
    assert_eq!(b.rows[0].content, "");
}

#[test]
fn config_new_state() {
    let e = EditorConfig::new((100, 30));
    assert_eq!((e.cx, e.cy), (0, 0));
    assert_eq!((e.screen_cols, e.screen_rows), (100, 30));
    assert_eq!((e.row_offset, e.col_offset), (0, 0));
    assert!(e.mode == Mode::Normal);
    assert_eq!(e.status_msg, "WELCOME! :q to quit");
    assert_eq!(e.command_buffer, "");
    assert!(e.filename.is_none());
    assert_eq!(texts(&e), vec![""]);
}

#[test]
fn move_cursor_stays_in_text() {
    let mut e = editor_with(&["abc", "x"]);
    e.move_cursor('h');
    assert_eq!((e.cx, e.cy), (0, 0));
    e.move_cursor('l');
    e.move_cursor('l');
    e.move_cursor('l');
    e.move_cursor('l');
    assert_eq!((e.cx, e.cy), (3, 0));
    e.move_cursor('j');
    assert_eq!((e.cx, e.cy), (1, 1));
    e.move_cursor('j');
    assert_eq!((e.cx, e.cy), (1, 1));
    e.move_cursor('k');
    assert_eq!((e.cx, e.cy), (1, 0));
    e.move_cursor('k');
    assert_eq!((e.cx, e.cy), (1, 0));
    e.move_cursor('h');
    assert_eq!((e.cx, e.cy), (0, 0));
}

#[test]
fn move_cursor_steps_over_whole_characters() {
    let mut e = editor_with(&["é", "aé€b"]);
    e.move_cursor('l');
    assert_eq!(e.cx, 2);
    assert!(e.buffer.rows[0].content.is_char_boundary(e.cx as usize));
    e.move_cursor('l');
    assert_eq!(e.cx, 2);
    e.move_cursor('j');
    assert_eq!((e.cx, e.cy), (1, 1));
    e.move_cursor('l');
    assert_eq!(e.cx, 3);
    e.move_cursor('l');
    assert_eq!(e.cx, 6);
    e.move_cursor('h');
    assert_eq!(e.cx, 3);
    e.move_cursor('l');
    e.move_cursor('k');
    assert_eq!((e.cx, e.cy), (2, 0));
    e.move_cursor('j');
    assert_eq!(e.cx, 1);
    e.move_cursor('l');
    e.move_cursor('l');
    assert_eq!(e.cx, 6);
    e.move_cursor('k');
    assert_eq!((e.cx, e.cy), (2, 0));
}

#[test]
fn typing_multibyte_characters_keeps_going() {
    let mut e = EditorConfig::new((80, 24));
    e.insert_char('é');
    assert_eq!(e.cx, 2);
    e.insert_char('a');
    assert_eq!(texts(&e), vec!["éa"]);
    assert_eq!(e.cx, 3);
    e.insert_char('€');
    assert_eq!(e.cx, 6);
    e.delete_char();
    assert_eq!(texts(&e), vec!["éa"]);
    assert_eq!(e.cx, 3);
    e.delete_char();
    e.delete_char();
    assert_eq!(texts(&e), vec![""]);
    assert_eq!(e.cx, 0);
}

#[test]
fn keys_in_insert_mode_with_multibyte_text() {
    let mut e = EditorConfig::new((80, 24));
    assert!(e.can_handle('i'));
    e.handle_keypress('i');
    for k in "ü€x".chars() {
        assert!(e.can_handle(k));
        e.handle_keypress(k);
    }
    assert_eq!(texts(&e), vec!["ü€x"]);
    assert_eq!(e.cx, 6);
    assert!(e.can_handle('\x7f'));
    e.handle_keypress('\x7f');
    e.handle_keypress('\x7f');
    assert_eq!(texts(&e), vec!["ü"]);
    assert_eq!(e.cx, 2);
}

#[test]
fn can_handle_refuses_a_cursor_inside_a_character() {
    let mut e = editor_with(&["é"]);
    e.cx = 1;
    assert!(!e.can_handle('l'));
    e.cx = 2;
    assert!(e.can_handle('l'));
    e.cx = 65535;
    e.buffer.rows[0] = Row::new("a".repeat(65535));
    e.mode = Mode::Insert;
    assert!(!e.can_handle('b'));
    assert!(e.can_handle('\x1b'));
}

#[test]
fn finish_open_sets_file_and_message() {
    let mut e = EditorConfig::new((80, 24));
    e.finish_open("a.txt".into(), true);
    assert_eq!(e.filename.as_deref(), Some("a.txt"));
    assert_eq!(e.status_msg, "Opened: a.txt");
    e.finish_open("b.txt".into(), false);
    assert_eq!(e.filename.as_deref(), Some("b.txt"));
    assert_eq!(e.status_msg, "New file: b.txt");
}

#[test]
fn insert_char_advances_cursor() {
    let mut e = editor_with(&["ac"]);
    e.cx = 1;
    e.insert_char('b');
    assert_eq!(texts(&e), vec!["abc"]);
    assert_eq!(e.cx, 2);
}

#[test]
fn delete_char_at_start_of_text_does_nothing() {
    let mut e = editor_with(&["abc"]);
    e.delete_char();
    assert_eq!(texts(&e), vec!["abc"]);
    assert_eq!((e.cx, e.cy), (0, 0));
}

#[test]
fn delete_char_inside_row() {
    let mut e = editor_with(&["abc"]);
    e.cx = 2;
    e.delete_char();
    assert_eq!(texts(&e), vec!["ac"]);
    assert_eq!(e.cx, 1);
}

#[test]
fn delete_char_joins_rows() {
    let mut e = editor_with(&["ab", "cd", "ef"]);
    e.cy = 1;
    e.delete_char();
    assert_eq!(texts(&e), vec!["abcd", "ef"]);
    assert_eq!((e.cx, e.cy), (2, 0));
}

#[test]
fn normal_mode_keys() {
    let mut e = editor_with(&["abc"]);
    assert!(matches!(e.handle_keypress('l'), Action::Continue));
    assert_eq!(e.cx, 1);
    assert!(matches!(e.handle_keypress('x'), Action::DispatchKey(Mode::Normal, 'x')));
    assert!(matches!(e.handle_keypress('i'), Action::Continue));
    assert!(e.mode == Mode::Insert);
}

#[test]
fn insert_mode_typing_enter_and_backspace() {
    let mut e = EditorConfig::new((80, 24));
    keys(&mut e, "ihello");
    assert_eq!(texts(&e), vec!["hello"]);
    assert_eq!(e.cx, 5);
    e.cx = 2;
    e.handle_keypress('\r');
    assert_eq!(texts(&e), vec!["he", "llo"]);
    assert_eq!((e.cx, e.cy), (0, 1));
    e.handle_keypress('\x7f');
    assert_eq!(texts(&e), vec!["hello"]);
    assert_eq!((e.cx, e.cy), (2, 0));
    e.handle_keypress('\x08');
    assert_eq!(texts(&e), vec!["hllo"]);
    assert!(matches!(e.handle_keypress('\x01'), Action::DispatchKey(Mode::Insert, '\x01')));
    e.handle_keypress('\x1b');
    assert!(e.mode == Mode::Normal);
}

#[test]
fn command_mode_editing() {
    let mut e = EditorConfig::new((80, 24));
    e.command_buffer = "old".to_string();
    keys(&mut e, ":ab");
    assert!(e.mode == Mode::Command);
    assert_eq!(e.command_buffer, "ab");
    e.handle_keypress('\x7f');
    assert_eq!(e.command_buffer, "a");
    e.handle_keypress('\x7f');
    e.handle_keypress('\x7f');
    assert_eq!(e.command_buffer, "");
    assert!(matches!(e.handle_keypress('\x02'), Action::DispatchKey(Mode::Command, '\x02')));
    e.handle_keypress('z');
    e.handle_keypress('\x1b');
    assert!(e.mode == Mode::Normal);
    assert_eq!(e.command_buffer, "z");
}

fn run_command(text: &str) -> (EditorConfig, Action) {
    let mut e = EditorConfig::new((80, 24));
    e.handle_keypress(':');
    for k in text.chars() {
        e.handle_keypress(k);
    }
    let a = e.handle_keypress('\r');
    (e, a)
}

#[test]
fn command_write_quit_and_both() {
    let (e, a) = run_command("w");
    assert!(matches!(a, Action::Execute(Command::Write)));
    assert!(e.mode == Mode::Normal);
    assert_eq!(e.command_buffer, "");
    let (_, a) = run_command("q");
    assert!(matches!(a, Action::Execute(Command::Quit)));
    let (_, a) = run_command("wq");
    assert!(matches!(a, Action::Execute(Command::WriteQuit)));
}

#[test]
fn command_eval_strips_every_pi_prefix() {
    let (_, a) = run_command("pi (+ 1 2)");
    match a {
        Action::Execute(Command::Eval(src)) => assert_eq!(src, "(+ 1 2)"),
        other => panic!("unexpected {:?}", other),
    }
    let (_, a) = run_command("pi pi x");
    match a {
        Action::Execute(Command::Eval(src)) => assert_eq!(src, "x"),
        other => panic!("unexpected {:?}", other),
    }
    let (_, a) = run_command("pi ");
    match a {
        Action::Execute(Command::Eval(src)) => assert_eq!(src, ""),
        other => panic!("unexpected {:?}", other),
    }
}

#[test]
fn command_user_defined() {
    let (_, a) = run_command("pix");
    match a {
        Action::Execute(Command::User(cmd)) => assert_eq!(cmd, "pix"),
        other => panic!("unexpected {:?}", other),
    }
    let (_, a) = run_command("");
    match a {
        Action::Execute(Command::User(cmd)) => assert_eq!(cmd, ""),
        other => panic!("unexpected {:?}", other),
    }
}

#[test]
fn command_keeps_running() {
    assert!(Command::Write.keeps_running());
    assert!(!Command::Quit.keeps_running());
    assert!(!Command::WriteQuit.keeps_running());
    assert!(Command::Eval("x".into()).keeps_running());
    assert!(Command::User("x".into()).keeps_running());
}

#[test]
fn scroll_follows_cursor() {
    let mut e = editor_with(&["a"; 50]);
    e.screen_rows = 11;
    e.screen_cols = 5;
    e.cy = 30;
    e.cx = 7;
    e.scroll();
    assert_eq!(e.row_offset, 21);
    assert_eq!(e.col_offset, 3);
    e.cy = 2;
    e.cx = 0;
    e.scroll();
    assert_eq!(e.row_offset, 2);
    assert_eq!(e.col_offset, 0);
    e.cy = 5;
    e.scroll();
    assert_eq!(e.row_offset, 2);
}

#[test]
fn save_without_file_name() {
    let mut e = EditorConfig::new((80, 24));
    assert!(e.save().is_none());
    assert_eq!(e.status_msg, "No file name! Use :w <filename> (TBD)");
}

#[test]
fn save_with_file_name() {
    let mut e = editor_with(&["a", "b"]);
    e.filename = Some("f.txt".into());
    let job = e.save().expect("job");
    assert_eq!(job.path, "f.txt");
    assert_eq!(job.content, "a\nb");
    assert_eq!(e.status_msg, "WELCOME! :q to quit");
    e.saved("f.txt");
    assert_eq!(e.status_msg, "Saved to f.txt");
}

#[test]
fn finish_messages() {
    let mut e = EditorConfig::new((80, 24));
    e.finish_write(Ok(()));
    assert_eq!(e.status_msg, "Saved");
    e.finish_write(Err("disk full".into()));
    assert_eq!(e.status_msg, "Error: disk full");
    e.finish_eval(Ok("3".into()));
    assert_eq!(e.status_msg, "=> 3");
    e.finish_eval(Err("bad".into()));
    assert_eq!(e.status_msg, "pi error: bad");
    e.finish_user_command("foo", true);
    assert_eq!(e.status_msg, "pi error: bad");
    e.finish_user_command("foo", false);
    assert_eq!(e.status_msg, "Unknown: foo");
}

#[test]
fn law_backspace_undoes_typing_example() {
    let mut e = editor_with(&["héllo"]);
    e.handle_keypress('i');
    e.cx = 3;
    e.handle_keypress('ü');
    assert_eq!(texts(&e), vec!["héüllo"]);
    e.handle_keypress('\x7f');
    assert_eq!(texts(&e), vec!["héllo"]);
    assert_eq!(e.cx, 3);
}

#[test]
fn law_backspace_undoes_enter_example() {
    let mut e = editor_with(&["abc", "def"]);
    e.handle_keypress('i');
    e.cy = 1;
    e.cx = 1;
    e.handle_keypress('\n');
    assert_eq!(texts(&e), vec!["abc", "d", "ef"]);
    e.handle_keypress('\x7f');
    assert_eq!(texts(&e), vec!["abc", "def"]);
    assert_eq!((e.cx, e.cy), (1, 1));
}

#[test]
fn law_escape_returns_to_normal_example() {
    let mut e = editor_with(&["abc"]);
    keys(&mut e, ":wq");
    e.handle_keypress('\x1b');
    assert!(e.mode == Mode::Normal);
    assert_eq!(texts(&e), vec!["abc"]);
}

#[test]
fn law_read_what_was_written_example() {
    let mut b = EditorBuffer::new();
    b.rows = vec![Row::new("x\r".into()), Row::new("".into()), Row::new("z".into())];
    let text = b.rows_to_string();
    // a carriage return before the line feed counts as part of the line ending
    let mut c = EditorBuffer::new();
    c.load_text(&text);
    let rows: Vec<&str> = c.rows.iter().map(|r| r.content.as_str()).collect();
    assert_eq!(rows, vec!["x", "", "z"]);
    b.rows = vec![Row::new("x".into()), Row::new("".into()), Row::new("z\r".into())];
    let text = b.rows_to_string();
    c.load_text(&text);
    let rows: Vec<&str> = c.rows.iter().map(|r| r.content.as_str()).collect();
    assert_eq!(rows, vec!["x", "", "z\r"]);
}

#[test]
fn command_defined_twice_runs_the_first() {
    let mut p = spica::plugin::Plugins::new();
    p.define_command(spica::plugin::Name::Str("x".into()), 1);
    p.define_command(spica::plugin::Name::Str("x".into()), 2);
    assert_eq!(p.command_handler("x"), Some(1));
}

#[test]
fn law_write_what_was_read_example() {
    let mut b = EditorBuffer::new();
    for text in ["", "one", "a\n\nb", "é\rx\n y"] {
        b.load_text(text);
        assert_eq!(b.rows_to_string(), text);
    }
    for (text, back) in [("ends\n", "ends"), ("\n", ""), ("a\n\n", "a\n"), ("x\ny\n", "x\ny")] {
        b.load_text(text);
        assert_eq!(b.rows_to_string(), back);
    }
}

#[test]
fn cursor_past_the_end_of_its_row() {
    let mut e = editor_with(&["ab", "cd"]);
    e.cx = 9;
    e.move_cursor('z');
    assert_eq!(e.cx, 2);
    e.cx = 9;
    e.move_cursor('h');
    assert_eq!(e.cx, 2);
    e.cx = 9;
    e.insert_char('é');
    assert_eq!(texts(&e), vec!["abé", "cd"]);
    assert_eq!(e.cx, 4);
    e.cx = 9;
    e.delete_char();
    assert_eq!(texts(&e), vec!["ab", "cd"]);
    assert_eq!(e.cx, 2);
    e.cy = 1;
    e.cx = 7;
    e.mode = Mode::Insert;
    assert!(e.can_handle('x'));
    assert!(!e.can_handle('\r'));
    e.buffer.rows[1] = Row::new(String::new());
    e.delete_char();
    assert_eq!(texts(&e), vec!["ab"]);
    assert_eq!((e.cx, e.cy), (2, 0));
}

#[test]
fn law_ascii_stays_ascii_example() {
    let mut e = editor_with(&["abc", "de"]);
    for k in "ilxz\x7f\r q\x7f\x7f\x1bjk:w\x1b".chars() {
        assert!(e.can_handle(k));
        e.handle_keypress(k);
        assert!(e.buffer.rows.iter().all(|r| r.content.is_ascii()));
    }
}
