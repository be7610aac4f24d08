use ropey::Rope;

use washtank::fold::{NestedFold, Range};
use washtank::{calculate_folds, calculate_indents, strip_trailing_newline, Fold, IndentLevel};

fn folds_of(text: &str) -> Vec<Fold> {
    let indents = calculate_indents(&Rope::from(strip_trailing_newline(text)), 4);
    calculate_folds(&indents)
}

fn calculate_folds_test(text: &str, expected: Vec<Fold>) {
    assert_eq!(folds_of(text), expected);
}

fn calculate_indent_test(text: &str, expected: Vec<IndentLevel>) {
    assert_eq!(
        calculate_indents(&Rope::from(strip_trailing_newline(text)), 4),
        expected
    );
}

#[test]
fn test_calculate_folds() {
    calculate_folds_test(
        "fn foo() {\n    \"foo\";\n    \"foo\";\n}\n",
        vec![Fold {
            range: Range { start: 1, end: 3 },
            num_closes: 1,
            full_num_indents: 1,
            nested: vec![],
        }],
    );

    calculate_folds_test(
        "fn foo() {\n    \"foo\";\n\n    \"foo\";\n}\n",
        vec![Fold {
            range: Range { start: 1, end: 4 },
            num_closes: 1,
            full_num_indents: 1,
            nested: vec![],
        }],
    );

    calculate_folds_test(
        "fn foo() {\n        \"foo\";\n        \"foo\";\n    \"foo\";\n    \"foo\";\n        \"foo\";\n        \"foo\";\n}\n",
        vec![Fold {
            range: Range { start: 1, end: 7 },
            num_closes: 1,
            full_num_indents: 1,
            nested: vec![
                NestedFold {
                    range: Range { start: 1, end: 3 },
                    additional_num_closes: 1,
                    additional_full_num_indents: 1,
                    nested: vec![],
                },
                NestedFold {
                    range: Range { start: 5, end: 7 },
                    additional_num_closes: 1,
                    additional_full_num_indents: 1,
                    nested: vec![],
                },
            ],
        }],
    );

    calculate_folds_test(
        "fn foo() {\n    \"foo\";\n    \"foo\";\n        \"foo\";\n        \"foo\";\n    \"foo\";\n    \"foo\";\n}\n",
        vec![Fold {
            range: Range { start: 1, end: 7 },
            num_closes: 1,
            full_num_indents: 1,
            nested: vec![NestedFold {
                range: Range { start: 3, end: 5 },
                additional_num_closes: 1,
                additional_full_num_indents: 1,
                nested: vec![],
            }],
        }],
    );
}

#[test]
fn test_calculate_indents() {
    calculate_indent_test(
        "fn foo() {\n    \"foo\";\n}\n",
        vec![
            IndentLevel::Level(0),
            IndentLevel::Level(1),
            IndentLevel::Level(0),
        ],
    );

    calculate_indent_test(
        "fn foo() {\n    \"foo\";\n}\n\ntrait Foo {\n    fn whee() -> Whee;\n}\n",
        vec![
            IndentLevel::Level(0),
            IndentLevel::Level(1),
            IndentLevel::Level(0),
            IndentLevel::BlankLine,
            IndentLevel::Level(0),
            IndentLevel::Level(1),
            IndentLevel::Level(0),
        ],
    );
}

#[test]
fn indents_round_up_partial_shift_widths_and_spot_blank_lines() {
    calculate_indent_test(
        "a\n      b\n   \n  c",
        vec![
            IndentLevel::Level(0),
            IndentLevel::Level(2),
            IndentLevel::BlankLine,
            IndentLevel::Level(1),
        ],
    );
}

#[test]
fn fold_running_to_the_end_of_the_file_closes_there() {
    let folds = folds_of("fn foo() {\n    a\n    b");
    assert_eq!(folds.len(), 1);
    assert_eq!(folds[0].range, Range { start: 1, end: 3 });
}

#[test]
fn deeper_start_gives_more_levels() {
    let folds = folds_of("x\n        a\n        b\ny\n");
    assert_eq!(folds.len(), 1);
    assert_eq!(folds[0].range, Range { start: 1, end: 3 });
    assert_eq!(folds[0].num_closes, 2);
    assert_eq!(folds[0].full_num_indents, 2);
}

#[test]
fn unindented_file_has_no_folds() {
    assert!(folds_of("a\nb\n\nc\n").is_empty());
}

#[test]
fn two_separate_folds() {
    let folds = folds_of("f {\n    a\n}\ng {\n    b\n    c\n}\n");
    assert_eq!(folds.len(), 2);
    assert_eq!(folds[0].range, Range { start: 1, end: 2 });
    assert_eq!(folds[1].range, Range { start: 4, end: 6 });
}

#[test]
fn deeper_lines_inside_a_nested_fold_stay_in_one_fold() {
    calculate_folds_test(
        "a\n    b\n        c\n            d\n        e\n            f\ng\n",
        vec![Fold {
            range: Range { start: 1, end: 6 },
            num_closes: 1,
            full_num_indents: 1,
            nested: vec![NestedFold {
                range: Range { start: 2, end: 6 },
                additional_num_closes: 1,
                additional_full_num_indents: 1,
                nested: vec![NestedFold {
                    range: Range { start: 3, end: 6 },
                    additional_num_closes: 1,
                    additional_full_num_indents: 1,
                    nested: vec![],
                }],
            }],
        }],
    );
}

#[test]
fn lines_getting_shallower_nest_what_came_before() {
    calculate_folds_test(
        "a\n            b\n        c\n    d\ne\n",
        vec![Fold {
            range: Range { start: 1, end: 4 },
            num_closes: 1,
            full_num_indents: 1,
            nested: vec![NestedFold {
                range: Range { start: 1, end: 3 },
                additional_num_closes: 1,
                additional_full_num_indents: 1,
                nested: vec![NestedFold {
                    range: Range { start: 1, end: 2 },
                    additional_num_closes: 1,
                    additional_full_num_indents: 1,
                    nested: vec![],
                }],
            }],
        }],
    );
}

#[test]
fn runs_of_deeper_lines_split_at_the_fold_level() {
    calculate_folds_test(
        "a\n    b\n        c\n    d\n        e\n\n        f\ng\n",
        vec![Fold {
            range: Range { start: 1, end: 7 },
            num_closes: 1,
            full_num_indents: 1,
            nested: vec![
                NestedFold {
                    range: Range { start: 2, end: 3 },
                    additional_num_closes: 1,
                    additional_full_num_indents: 1,
                    nested: vec![],
                },
                NestedFold {
                    range: Range { start: 4, end: 7 },
                    additional_num_closes: 1,
                    additional_full_num_indents: 1,
                    nested: vec![],
                },
            ],
        }],
    );
}
