use washtank::editor::aggregate::KeyPress;
use washtank::editor::view::{RelativeLineNumber, RelativeOrCurrentLineNum};
use washtank::editor::{Event, OpenFile, Size};
use washtank::jsonrpc::{parse_header_field, Message};
use washtank::{Editor, EventAggregator, TreeSitterHighlight};

fn editor_for(text: &str) -> Editor {
    let highlights: Vec<TreeSitterHighlight> = vec![];
    Editor::new(
        OpenFile::from_contents(text, None),
        highlights,
        Size { height: 26, width: 80 },
        false,
        false,
    )
}

fn feed(aggregator: &mut EventAggregator, keys: &str) -> Vec<Event> {
    let mut events = vec![];
    for ch in keys.chars() {
        let key = KeyPress::Char(ch);
        assert!(aggregator.accepts(key));
        if let Some(event) = aggregator.receive(key) {
            events.push(event);
        }
    }
    events
}

fn run(editor: &mut Editor, aggregator: &mut EventAggregator, keys: &str) {
    for event in feed(aggregator, keys) {
        editor.receive(event);
    }
}

#[test]
fn a_count_before_a_motion_moves_that_far() {
    let mut aggregator = EventAggregator::new(false, false);
    assert_eq!(feed(&mut aggregator, "12j"), vec![Event::MoveCursorDownNLines(12)]);
    assert_eq!(feed(&mut aggregator, "305l"), vec![Event::MoveCursorRightNColumns(305)]);
    assert_eq!(feed(&mut aggregator, "7h"), vec![Event::MoveCursorLeftNColumns(7)]);
    assert_eq!(feed(&mut aggregator, "10k"), vec![Event::MoveCursorUpNLines(10)]);
    assert_eq!(feed(&mut aggregator, "65535j"), vec![Event::MoveCursorDownNLines(65535)]);
}

#[test]
fn a_count_too_large_for_a_motion_is_not_accepted() {
    let mut aggregator = EventAggregator::new(false, false);
    assert!(feed(&mut aggregator, "65536").is_empty());
    assert!(!aggregator.accepts(KeyPress::Char('j')));
}

#[test]
fn escape_resets_from_every_state() {
    for prefix in ["", "z", "12", ":", "i"] {
        let mut aggregator = EventAggregator::new(false, false);
        feed(&mut aggregator, prefix);
        assert!(aggregator.accepts(KeyPress::Esc));
        assert_eq!(aggregator.receive(KeyPress::Esc), Some(Event::GoIntoNormalMode));
        assert_eq!(feed(&mut aggregator, "j"), vec![Event::MoveCursorDownNLines(1)]);
    }
}

#[test]
fn closing_a_level_after_opening_one_restores_the_fold() {
    let text = "fn foo() {\n        a\n        b\n}\n";
    let mut editor = editor_for(text);
    let before: Vec<_> = editor.folds.iter().map(|f| f.duplicate()).collect();
    assert_eq!(before.len(), 1);
    assert_eq!(before[0].num_closes, 2);
    assert_eq!(before[0].full_num_indents, 2);
    let mut aggregator = EventAggregator::new(false, false);
    run(&mut editor, &mut aggregator, "jzo");
    assert_eq!(editor.folds[0].num_closes, 1);
    run(&mut editor, &mut aggregator, "zc");
    assert_eq!(editor.folds, before);
}

#[test]
fn opening_a_level_after_closing_one_restores_the_fold() {
    let text = "fn foo() {\n        a\n        b\n}\n";
    let mut editor = editor_for(text);
    let mut aggregator = EventAggregator::new(false, false);
    run(&mut editor, &mut aggregator, "jzo");
    let opened_once: Vec<_> = editor.folds.iter().map(|f| f.duplicate()).collect();
    run(&mut editor, &mut aggregator, "zc");
    assert_eq!(editor.folds[0].num_closes, 2);
    run(&mut editor, &mut aggregator, "zo");
    assert_eq!(editor.folds, opened_once);
}

#[test]
fn number_column_has_the_width_it_is_given() {
    for columns in 3..7u16 {
        for line in [0usize, 8, 9, 98, 99, 998, 9998] {
            let current = RelativeLineNumber::new(columns, RelativeOrCurrentLineNum::Current(line));
            if line + 1 < 10usize.pow(u32::from(columns)) {
                assert_eq!(current.text().chars().count(), usize::from(columns));
            }
        }
        for distance in [0u16, 9, 10, 99, 100, 999] {
            let relative = RelativeLineNumber::new(columns, RelativeOrCurrentLineNum::Relative(distance));
            assert_eq!(relative.text().chars().count(), usize::from(columns));
        }
    }
}

#[test]
fn a_header_field_reads_back_as_written() {
    for (name, value) in [("Content-Type", "text/plain"), ("X-A", "b: c"), ("N", "")] {
        let line = format!("{}: {}", name, value);
        assert_eq!(
            parse_header_field(&line),
            Ok(Some((String::from(name), String::from(value))))
        );
    }
}

#[test]
fn written_content_has_its_utf8_length() {
    let message = Message::new(String::from("añb"));
    let bytes = message.to_bytes();
    assert!(bytes.ends_with("añb".as_bytes()));
    assert!(bytes.starts_with(b"Content-Length: 4\r\n"));
}

#[test]
fn moving_down_then_up_and_up_then_down_return_to_the_row() {
    let mut editor = editor_for("a\nbb\nccc\ndddd\n");
    let mut aggregator = EventAggregator::new(false, false);
    run(&mut editor, &mut aggregator, "jj");
    assert_eq!(editor.cursor_position.row, 2);
    let rows = editor.printed_lines.len();
    run(&mut editor, &mut aggregator, "jk");
    assert_eq!(editor.cursor_position.row, 2);
    run(&mut editor, &mut aggregator, "kj");
    assert_eq!(editor.cursor_position.row, 2);
    assert_eq!(editor.printed_lines.len(), rows);
}
