use ropey::Rope;

use washtank::editor::aggregate::KeyPress;
use washtank::editor::fold_line::FoldLine;
use washtank::editor::{Event, Mode, OpenFile, Size};
use washtank::fold::Range;
use washtank::{Editor, EventAggregator, Fold, TreeSitterHighlight};

fn editor_for(text: &str) -> Editor {
    let highlights: Vec<TreeSitterHighlight> = vec![];
    Editor::new(
        OpenFile::from_contents(text, None),
        highlights,
        Size { height: 26, width: 80 },
        false,
        false,
    )
}

fn run(editor: &mut Editor, keys: &str) {
    let mut aggregator = EventAggregator::new(false, false);
    for ch in keys.chars() {
        if let Some(event) = aggregator.receive(KeyPress::Char(ch)) {
            assert!(editor.can_receive(event));
            editor.receive(event);
        }
    }
}

fn foo_rs() -> String {
    let mut text = String::from("fn foo() {\n");
    text.push_str("    let foo = \"foo\";\n");
    for i in 0..10 {
        text.push_str(&format!("    foo({i});\n"));
    }
    text.push_str("}\n");
    text
}

#[test]
fn motions_are_taken_on_ordinary_lines() {
    let editor = editor_for(&foo_rs());
    assert!(editor.can_receive(Event::MoveCursorDownNLines(1)));
    assert!(editor.can_receive(Event::MoveCursorDownNLines(5)));
    assert!(editor.can_receive(Event::MoveCursorUpNLines(1)));
    assert!(!editor.can_receive(Event::MoveCursorUpNLines(2)));
    assert!(editor.can_receive(Event::MoveCursorRightNColumns(3)));
    assert!(editor.can_receive(Event::MoveCursorToEndOfLine));
    assert!(editor.can_receive(Event::MoveCursorLeftNColumns(1)));
    assert!(editor.can_receive(Event::MoveCursorToBeginningOfLine));
}

#[test]
fn sideways_motions_are_not_taken_on_a_fold_row() {
    let mut editor = editor_for(&foo_rs());
    run(&mut editor, "j");
    assert!(!editor.can_receive(Event::MoveCursorRightNColumns(1)));
    assert!(!editor.can_receive(Event::MoveCursorLeftNColumns(1)));
    assert!(!editor.can_receive(Event::MoveCursorToEndOfLine));
    assert!(!editor.can_receive(Event::MoveCursorToBeginningOfLine));
    assert!(editor.can_receive(Event::CloseFoldUnderCursorOneLevel));
    // Closing the file's last fold all the way again would take one fold
    // too many out of the list.
    assert!(!editor.can_receive(Event::FullyCloseFoldUnderCursor));
}

#[test]
fn a_line_too_long_for_a_column_number_cannot_be_walked_along() {
    let text = format!("short\n{}\n", "x".repeat(70000));
    let editor = editor_for(&text);
    assert!(!editor.can_receive(Event::MoveCursorDownNLines(1)));
    assert!(editor.can_receive(Event::MoveCursorRightNColumns(1)));
    // A blank line has its line feed to stand on.
    let mut blank_line = editor_for("a\n\nb\n");
    assert!(blank_line.can_receive(Event::MoveCursorDownNLines(2)));
    run(&mut blank_line, "j");
    assert!(blank_line.can_receive(Event::MoveCursorToEndOfLine));
    // An empty last line has nothing.
    let empty_last = editor_for("a\n\n");
    assert!(!empty_last.can_receive(Event::MoveCursorDownNLines(1)));
}

#[test]
fn ex_commands_need_ex_mode_and_only_q_finishes() {
    let mut editor = editor_for("a\n");
    assert!(!editor.can_receive(Event::ExCommandChar('q')));
    assert!(!editor.can_receive(Event::FinishExCommand));
    editor.receive(Event::GoIntoExCommandMode);
    assert!(editor.can_receive(Event::ExCommandChar('w')));
    editor.receive(Event::ExCommandChar('w'));
    assert!(!editor.can_receive(Event::FinishExCommand));
    editor.mode = Mode::ExCommand(String::from("q"));
    assert!(editor.can_receive(Event::FinishExCommand));
}

#[test]
fn inserting_needs_the_cursor_within_the_text() {
    let mut editor = editor_for("ab\ncd\n");
    assert!(editor.can_insert_char());
    editor.cursor_position.column = 2;
    assert!(editor.can_insert_char());
    editor.cursor_position.row = 1;
    editor.cursor_position.column = 3;
    assert!(!editor.can_insert_char());
    assert!(!editor.can_receive(Event::InsertChar('x')));
}

#[test]
fn closing_the_enclosing_fold_from_inside_it_is_taken() {
    let text = "fn foo() {\n    a\n    b\n        c\n        d\n    e\n}\n";
    let mut editor = editor_for(text);
    run(&mut editor, "jzOjjj");
    assert!(editor.can_close_fold_under_cursor_one_level());
    assert!(editor.can_fully_close_fold_under_cursor());
    run(&mut editor, "zC");
    assert_eq!(editor.folds.len(), 1);
    assert_eq!(editor.folds[0].range, Range { start: 1, end: 6 });
}

#[test]
fn a_fold_line_cannot_be_printed_narrower_than_its_header() {
    let rope = Rope::from_str("a\n  héllo\n");
    let fold = Fold {
        range: Range { start: 1, end: 2 },
        num_closes: 1,
        full_num_indents: 1,
        nested: vec![],
    };
    let line = FoldLine::new(&fold, &rope);
    assert!(line.can_print(80));
    assert!(line.can_print(16));
    // The 15th byte falls inside `é`.
    assert!(!line.can_print(15));
    assert!(!line.can_print(10));
    let blank = Rope::from_str("a\n    \n");
    assert!(FoldLine::new(&fold, &blank).can_print(5));
}

#[test]
fn aggregator_refuses_unexpected_key_without_changing() {
    let mut aggregator = EventAggregator::new(false, false);
    assert!(aggregator.receive_if_accepted(KeyPress::Enter).is_none());
    assert!(matches!(aggregator.receive_if_accepted(KeyPress::Char('2')), Some(None)));
    assert!(matches!(aggregator.receive_if_accepted(KeyPress::Char('j')), Some(Some(_))));
}
