use kartei::input::Input;

#[test]
fn typing_inserts_at_the_cursor_and_backspace_deletes_before_it() {
    let mut input = Input::new("ac".into());
    input.left();
    input.insert('b');
    assert_eq!(input.text(), "abc");
    input.backspace();
    input.backspace();
    assert_eq!(input.text(), "c");
    input.backspace();
    assert_eq!(input.text(), "c");
    input.delete();
    assert_eq!(input.text(), "");
}

#[test]
fn cursor_moves_by_character_and_counts_display_cells() {
    let mut input = Input::new("日本é".into());
    assert_eq!(input.cursor(), (0, 5));
    input.left();
    assert_eq!(input.cursor(), (0, 4));
    input.left();
    input.backspace();
    assert_eq!(input.text(), "本é");
    assert_eq!(input.cursor(), (0, 0));
    input.left();
    input.right();
    input.right();
    input.right();
    assert_eq!(input.cursor(), (0, 3));
    input.delete();
    assert_eq!(input.text(), "本é");
}

#[test]
fn newlines_move_the_cursor_to_the_next_row() {
    let mut input = Input::new("ab".into());
    input.insert('\n');
    assert_eq!(input.cursor(), (1, 0));
    input.insert('ü');
    assert_eq!(input.cursor(), (1, 1));
    assert_eq!(input.text(), "ab\nü");
}

#[test]
fn backspace_after_typing_gives_the_text_back() {
    let mut input = Input::new("héllo".into());
    input.left();
    input.left();
    input.insert('x');
    assert_eq!(input.text(), "hélxlo");
    input.backspace();
    assert_eq!(input.text(), "héllo");
    assert_eq!(input.cursor(), (0, 3));
}

#[test]
fn moving_past_either_end_keeps_the_cursor_there() {
    let mut input = Input::new("ab".into());
    input.right();
    assert_eq!(input.cursor(), (0, 2));
    input.delete();
    assert_eq!(input.text(), "ab");
    input.left();
    input.left();
    input.left();
    assert_eq!(input.cursor(), (0, 0));
    input.backspace();
    assert_eq!(input.text(), "ab");
    input.replace("xyz".into());
    assert_eq!(input.text(), "xyz");
    assert_eq!(input.cursor(), (0, 3));
}
