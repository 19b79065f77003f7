use edits::align::{run_length_encode, Alignment, Operation};
use edits::distance::{Distance, Ratio};
use edits::edits::{annotate, annotate_runs, tokenize};
use edits::text::{chars_of, is_separator_char, same_text, trim, weigh};

#[test]
fn tokenize_empty_line_has_no_token() {
    assert_eq!(tokenize(""), Vec::<&str>::new());
}

#[test]
fn tokenize_leading_separator_gives_no_empty_token() {
    assert_eq!(tokenize(" a"), vec![" ", "a"]);
    assert_eq!(tokenize("(x)"), vec!["(", "x", ")"]);
}

#[test]
fn tokenize_trailing_separator_gives_no_empty_token() {
    assert_eq!(tokenize("a, "), vec!["a", ", "]);
}

#[test]
fn tokenize_only_separators_is_one_token() {
    assert_eq!(tokenize(" ,;.:()[]<>"), vec![" ,;.:()[]<>"]);
}

#[test]
fn tokenize_without_separator_is_one_token() {
    assert_eq!(tokenize("a-b_c'd!e"), vec!["a-b_c'd!e"]);
}

#[test]
fn tokenize_every_separator_delimits() {
    for separator in [' ', ',', ';', '.', ':', '(', ')', '[', ']', '<', '>'] {
        let line = format!("a{}b", separator);
        let expected = vec!["a".to_string(), separator.to_string(), "b".to_string()];
        assert_eq!(tokenize(&line), expected);
        assert!(is_separator_char(separator));
    }
    for other in ['a', '-', '_', '\'', '!', '{', '}', '\t', 'á'] {
        assert!(!is_separator_char(other));
    }
}

#[test]
fn tokenize_keeps_characters_of_several_bytes_whole() {
    assert_eq!(tokenize("á,日本 e\u{301}"), vec!["á", ",", "日本", " ", "e\u{301}"]);
}

#[test]
fn tokens_joined_are_the_line() {
    for line in [
        "",
        " ",
        "aaa bbb",
        "  leading and trailing  ",
        "fn coalesce_edits<'a, EditOperation>(",
        "á á b á á c á á b",
        ")]);",
    ] {
        assert_eq!(tokenize(line).concat(), line);
    }
}

#[test]
fn tokens_take_turns() {
    let tokens = tokenize("  a, b;c  (d)");
    assert_eq!(tokens, vec!["  ", "a", ", ", "b", ";", "c", "  (", "d", ")"]);
    for pair in tokens.windows(2) {
        let first = is_separator_char(pair[0].chars().next().unwrap());
        let second = is_separator_char(pair[1].chars().next().unwrap());
        assert_ne!(first, second);
    }
}

#[test]
fn chars_of_gives_the_characters() {
    assert_eq!(chars_of("aé日"), vec!['a', 'é', '日']);
    assert_eq!(chars_of(""), Vec::<char>::new());
}

#[test]
fn same_text_compares_contents() {
    assert!(same_text("", ""));
    assert!(same_text("áb", "áb"));
    assert!(!same_text("ab", "abc"));
    assert!(!same_text("abc", "abd"));
    assert!(!same_text("e\u{301}", "é"));
}

#[test]
fn trim_removes_white_space_at_both_ends() {
    assert_eq!(trim("  a b \t"), "a b");
    assert_eq!(trim("a"), "a");
    assert_eq!(trim(""), "");
    assert_eq!(trim(" \t\n "), "");
    assert_eq!(trim("\u{2003}x y\u{a0}"), "x y");
    assert_eq!(trim("_ _"), "_ _");
}

#[test]
fn weigh_counts_grapheme_clusters() {
    assert_eq!(weigh("ab"), 2);
    assert_eq!(weigh("a b"), 3);
    assert_eq!(weigh("e\u{301}a\u{310}"), 2);
    assert_eq!(weigh("\r\n"), 0);
    assert_eq!(weigh("a\r\nb"), 3);
}

#[test]
fn weigh_ignores_white_space_around() {
    assert_eq!(weigh("  ab\t"), 2);
    assert_eq!(weigh(" "), 0);
    assert_eq!(weigh(""), 0);
    assert_eq!(weigh(" , "), 1);
}

#[test]
fn operations_of_empty_sequences() {
    assert_eq!(Alignment::new(vec![], vec![]).operations(), vec![]);
    assert_eq!(
        Alignment::new(vec!["a", "b"], vec![]).operations(),
        vec![Operation::Deletion, Operation::Deletion]
    );
    assert_eq!(
        Alignment::new(vec![], vec!["a", "b"]).operations(),
        vec![Operation::Insertion, Operation::Insertion]
    );
}

#[test]
fn operations_keep_substitute_delete_and_insert() {
    assert_eq!(
        Alignment::new(vec!["a", "b", "c"], vec!["a", "b", "c"]).operations(),
        vec![Operation::NoOp, Operation::NoOp, Operation::NoOp]
    );
    assert_eq!(
        Alignment::new(vec!["a", "b", "c"], vec!["a", "x", "c"]).operations(),
        vec![Operation::NoOp, Operation::Substitution, Operation::NoOp]
    );
    assert_eq!(
        Alignment::new(vec!["a", "b", "c"], vec!["a", "c"]).operations(),
        vec![Operation::NoOp, Operation::Deletion, Operation::NoOp]
    );
    assert_eq!(
        Alignment::new(vec!["a", "c"], vec!["a", "b", "c"]).operations(),
        vec![Operation::NoOp, Operation::Insertion, Operation::NoOp]
    );
}

#[test]
fn operations_prefer_pairing_then_deleting() {
    // Keeping the second ", " and inserting what precedes it costs as much
    // as keeping the first and inserting what follows.
    assert_eq!(
        Alignment::new(vec!["a", ", ", "c"], vec!["a", ", ", "b", ", ", "c"]).operations(),
        vec![
            Operation::NoOp,
            Operation::Insertion,
            Operation::Insertion,
            Operation::NoOp,
            Operation::NoOp
        ]
    );
    assert_eq!(
        Alignment::new(vec!["a", ", ", "b", ", ", "c"], vec!["a", ", ", "c"]).operations(),
        vec![
            Operation::NoOp,
            Operation::Deletion,
            Operation::Deletion,
            Operation::NoOp,
            Operation::NoOp
        ]
    );
    // Deleting then inserting costs as much as inserting then deleting.
    assert_eq!(
        Alignment::new(vec!["a", "b"], vec!["b", "c"]).operations(),
        vec![Operation::Substitution, Operation::Substitution]
    );
}

#[test]
fn alignment_holds_its_tokens() {
    let alignment = Alignment::new(vec!["a", " ", "b"], vec!["c"]);
    assert_eq!(alignment.x(), &vec!["a", " ", "b"]);
    assert_eq!(alignment.y(), &vec!["c"]);
}

#[test]
fn coalesced_operations_are_runs() {
    assert_eq!(
        Alignment::new(vec!["a", " ", "b", " ", "c"], vec!["a", " ", "x", " ", "c", "!"])
            .coalesced_operations(),
        vec![
            (Operation::NoOp, 2),
            (Operation::Substitution, 1),
            (Operation::NoOp, 2),
            (Operation::Insertion, 1)
        ]
    );
    assert_eq!(Alignment::new(vec![], vec![]).coalesced_operations(), vec![]);
}

#[test]
fn run_length_encode_writes_each_run_once() {
    assert_eq!(run_length_encode(&vec![]), vec![]);
    assert_eq!(
        run_length_encode(&vec![
            Operation::NoOp,
            Operation::NoOp,
            Operation::Deletion,
            Operation::NoOp,
            Operation::Insertion,
            Operation::Insertion,
            Operation::Insertion
        ]),
        vec![
            (Operation::NoOp, 2),
            (Operation::Deletion, 1),
            (Operation::NoOp, 1),
            (Operation::Insertion, 3)
        ]
    );
}

#[test]
fn distance_parts_count_changes_and_steps() {
    assert_eq!(
        Alignment::new(vec!["a", " ", "b"], vec!["a", " ", "c", "!"]).distance_parts(),
        (2, 4)
    );
    assert_eq!(Alignment::new(vec![], vec![]).distance_parts(), (0, 0));
    assert_eq!(Alignment::new(vec!["a"], vec!["a"]).distance_parts(), (0, 1));
}

fn annotated<'a>(
    minus_line: &'a str,
    plus_line: &'a str,
) -> (Vec<(char, &'a str)>, Vec<(char, &'a str)>, Distance) {
    annotate(
        Alignment::new(tokenize(minus_line), tokenize(plus_line)),
        '.',
        '-',
        ':',
        '+',
        minus_line,
        plus_line,
    )
}

#[test]
fn annotate_labels_each_run() {
    let (minus, plus, distance) = annotated("a b c", "a x c d");
    assert_eq!(minus, vec![('.', "a "), ('-', "b"), ('.', " c")]);
    assert_eq!(plus, vec![(':', "a "), ('+', "x"), (':', " c"), ('+', " d")]);
    // changed: "b" and " d" weigh 1 each; kept: "a " and " c" weigh 1 each
    assert_eq!(distance, Distance { numer: 2, denom: 4 });
}

#[test]
fn annotate_deletion_appears_on_the_minus_side_only() {
    let (minus, plus, distance) = annotated("a b c d", "a b");
    assert_eq!(minus, vec![('.', "a b"), ('-', " c d")]);
    assert_eq!(plus, vec![(':', "a b")]);
    assert_eq!(distance, Distance { numer: 3, denom: 6 });
}

#[test]
fn annotate_distance_of_six_ninths() {
    let (_, _, distance) = annotated("á a a á a a á a a", "á á b á á c á á b");
    assert_eq!(distance, Distance { numer: 6, denom: 9 });
}

#[test]
fn annotate_kept_runs_weigh_their_minus_side_once() {
    let (minus, plus, distance) = annotated("a b", "a b");
    assert_eq!(minus, vec![('.', "a b")]);
    assert_eq!(plus, vec![(':', "a b")]);
    assert_eq!(distance, Distance { numer: 0, denom: 3 });
}

#[test]
fn annotate_substitution_weighs_its_minus_side_only() {
    let (_, _, distance) = annotated("ab", "cdefg");
    assert_eq!(distance, Distance { numer: 2, denom: 2 });
}

#[test]
fn annotate_empty_lines_are_at_distance_zero() {
    let (minus, plus, distance) = annotated("", "");
    assert_eq!(minus, vec![]);
    assert_eq!(plus, vec![]);
    assert_eq!(distance, Distance { numer: 0, denom: 1 });
}

#[test]
fn annotate_changes_of_white_space_weigh_nothing() {
    let (minus, plus, distance) = annotated("a b", "a  b");
    assert_eq!(minus, vec![('.', "a"), ('-', " "), ('.', "b")]);
    assert_eq!(plus, vec![(':', "a"), ('+', "  "), (':', "b")]);
    assert_eq!(distance, Distance { numer: 0, denom: 2 });
}

#[test]
fn annotate_against_an_empty_line() {
    let (minus, plus, distance) = annotated("a b", "");
    assert_eq!(minus, vec![('-', "a b")]);
    assert_eq!(plus, vec![]);
    assert_eq!(distance, Distance { numer: 3, denom: 3 });
    let (minus, plus, distance) = annotated("", "a b");
    assert_eq!(minus, vec![]);
    assert_eq!(plus, vec![('+', "a b")]);
    assert_eq!(distance, Distance { numer: 3, denom: 3 });
}

#[test]
fn annotate_sections_joined_are_the_lines() {
    for (minus_line, plus_line) in [
        ("d.iteritems()", "d.items()"),
        ("  let mut i = 0;", "    s0.zip(s1)"),
        ("á a a", "á á b á"),
        ("", "x"),
    ] {
        let (minus, plus, distance) = annotated(minus_line, plus_line);
        let joined: String = minus.iter().map(|section| section.1).collect();
        assert_eq!(joined, minus_line);
        let joined: String = plus.iter().map(|section| section.1).collect();
        assert_eq!(joined, plus_line);
        assert!(distance.numer <= distance.denom);
        assert!(distance.denom > 0);
    }
}

#[test]
fn distance_new_of_nothing_is_zero() {
    assert_eq!(Distance::new(0, 0), Distance { numer: 0, denom: 1 });
    assert_eq!(Distance::new(2, 5), Distance { numer: 2, denom: 5 });
}

#[test]
fn distance_is_within_compares_fractions() {
    let third = Distance { numer: 1, denom: 3 };
    assert!(third.is_within(Ratio { numer: 1, denom: 3 }));
    assert!(third.is_within(Ratio { numer: 2, denom: 6 }));
    assert!(third.is_within(Ratio { numer: 34, denom: 100 }));
    assert!(!third.is_within(Ratio { numer: 33, denom: 100 }));
    assert!(third.is_within(Ratio { numer: 1, denom: 1 }));
    assert!(!third.is_within(Ratio { numer: 0, denom: 1 }));
    let zero = Distance { numer: 0, denom: 7 };
    assert!(zero.is_within(Ratio { numer: 0, denom: 1 }));
    let exact = Distance { numer: 33, denom: 50 };
    assert!(exact.is_within(Ratio { numer: 66, denom: 100 }));
}

#[test]
fn distance_is_within_no_negative_limit() {
    let zero = Distance { numer: 0, denom: 1 };
    assert!(!zero.is_within(Ratio { numer: -1, denom: 1 }));
    assert!(!zero.is_within(Ratio { numer: -1, denom: 1000 }));
    assert!(!zero.is_within(Ratio { numer: i64::MIN, denom: u64::MAX }));
}

#[test]
fn distance_is_within_a_limit_without_denominator() {
    let one = Distance { numer: 9, denom: 9 };
    assert!(one.is_within(Ratio { numer: 0, denom: 0 }));
    assert!(one.is_within(Ratio { numer: 5, denom: 0 }));
    assert!(!one.is_within(Ratio { numer: -5, denom: 0 }));
}

#[test]
fn distance_is_within_large_parts() {
    let half = Distance { numer: u64::MAX as u128, denom: 2 * (u64::MAX as u128) };
    assert!(half.is_within(Ratio { numer: 1, denom: 2 }));
    assert!(half.is_within(Ratio { numer: i64::MAX, denom: u64::MAX - 1 }));
    // (2^63 - 1) / (2^64 - 1) is just under one half
    assert!(!half.is_within(Ratio { numer: i64::MAX, denom: u64::MAX }));
    let whole = Distance { numer: 2 * (u64::MAX as u128), denom: 2 * (u64::MAX as u128) };
    assert!(!whole.is_within(Ratio { numer: i64::MAX, denom: u64::MAX }));
    assert!(whole.is_within(Ratio { numer: i64::MAX, denom: i64::MAX as u64 }));
}

#[test]
fn annotate_runs_follows_any_total_script() {
    // Deleting and inserting where the alignment would substitute.
    let (minus_line, plus_line) = ("a b", "a c");
    let runs = vec![
        (Operation::NoOp, 2),
        (Operation::Deletion, 1),
        (Operation::Insertion, 1),
    ];
    let (minus, plus, distance) = annotate_runs(
        &runs,
        &tokenize(minus_line),
        &tokenize(plus_line),
        '.',
        '-',
        ':',
        '+',
        minus_line,
        plus_line,
    );
    assert_eq!(minus, vec![('.', "a "), ('-', "b")]);
    assert_eq!(plus, vec![(':', "a "), ('+', "c")]);
    assert_eq!(distance, Distance { numer: 2, denom: 3 });
}

#[test]
fn annotate_runs_without_runs() {
    let (minus, plus, distance) =
        annotate_runs(&vec![], &vec![], &vec![], '.', '-', ':', '+', "", "");
    assert_eq!(minus, vec![]);
    assert_eq!(plus, vec![]);
    assert_eq!(distance, Distance { numer: 0, denom: 1 });
}
