use truth_tables::ui::{App, Key, State};

fn typed(text: &str) -> App {
    let mut app = App::default();
    for c in text.chars() {
        app.input_char(c);
    }
    app
}

fn line(app: &App) -> String {
    app.input.iter().collect()
}

#[test]
fn fresh_session() {
    let app = App::default();
    assert_eq!(app.state, State::Input);
    assert_eq!(line(&app), "");
    assert!(app.truth_table.is_none());
}

#[test]
fn plain_characters_are_remapped_as_typed() {
    assert_eq!(line(&typed("a&b")), "a∧b");
    assert_eq!(line(&typed("a*b")), "a∧b");
    assert_eq!(line(&typed("a|b")), "a∨b");
    assert_eq!(line(&typed("a+b")), "a∨b");
    assert_eq!(line(&typed("a=b")), "a≡b");
    assert_eq!(line(&typed("-a")), "¬a");
    assert_eq!(line(&typed("!a")), "¬a");
}

#[test]
fn bang_equals_becomes_one_inequality_sign() {
    assert_eq!(line(&typed("a!=b")), "a≢b");
}

#[test]
fn dash_greater_becomes_conditional() {
    assert_eq!(line(&typed("a->b")), "a→b");
}

#[test]
fn angle_dash_greater_becomes_biconditional() {
    assert_eq!(line(&typed("a<->b")), "a↔b");
}

#[test]
fn backspace_removes_the_last_character() {
    let mut app = typed("ab");
    app.process_input(Key::Backspace);
    assert_eq!(line(&app), "a");
    let mut empty = App::default();
    empty.process_input(Key::Backspace);
    assert_eq!(line(&empty), "");
}

#[test]
fn submitting_a_valid_line_shows_its_table() {
    let mut app = typed("a&b");
    app.process_input(Key::Enter);
    assert_eq!(app.state, State::Display);
    assert_eq!(line(&app), "a∧b");
    let table = app.truth_table.as_ref().expect("a table should be there");
    assert_eq!(table.input_vars, vec!['a', 'b']);
    assert_eq!(table.outputs, vec![true, false, false, false]);
}

#[test]
fn submitting_an_invalid_line_discards_it() {
    let mut app = typed("((");
    app.process_input(Key::Enter);
    assert_eq!(app.state, State::Input);
    assert_eq!(line(&app), "");
    assert!(app.truth_table.is_none());
}

#[test]
fn a_key_on_the_display_screen_starts_a_new_line() {
    let mut app = typed("p");
    app.process_input(Key::Enter);
    assert_eq!(app.state, State::Display);
    app.process_input(Key::Char('q'));
    assert_eq!(app.state, State::Input);
    assert_eq!(line(&app), "q");
    // the previous table stays until the next submission
    assert!(app.truth_table.is_some());
}

#[test]
fn any_other_key_on_the_display_screen_just_returns() {
    let mut app = typed("p");
    app.process_input(Key::Enter);
    app.process_input(Key::Other);
    assert_eq!(app.state, State::Input);
    assert_eq!(line(&app), "");
}

#[test]
fn quit_closes_from_any_screen() {
    let mut app = typed("p");
    app.process_input(Key::Quit);
    assert_eq!(app.state, State::Closed);
    app.process_input(Key::Char('x'));
    assert_eq!(app.state, State::Closed);
    assert_eq!(line(&app), "p");
}

#[test]
fn submitting_through_the_session_matches_direct_typing() {
    let mut app = App::default();
    for c in "x->y".chars() {
        app.process_input(Key::Char(c));
    }
    assert_eq!(line(&app), "x→y");
    app.process_input(Key::Enter);
    let table = app.truth_table.as_ref().expect("a table should be there");
    assert_eq!(table.outputs, vec![true, false, true, true]);
}
