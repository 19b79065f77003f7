use edits::distance::Ratio;
use edits::edits::infer_edits;

#[derive(Clone, Copy, Debug, PartialEq)]
enum Label {
    MinusKept,
    Minus,
    PlusKept,
    Plus,
}

type Lines<'a> = Vec<Vec<(Label, &'a str)>>;

fn lines(texts: &[&str]) -> Vec<String> {
    texts.iter().map(|text| text.to_string()).collect()
}

fn infer<'a>(minus: &'a Vec<String>, plus: &'a Vec<String>, limit: Ratio) -> (Lines<'a>, Lines<'a>) {
    infer_edits(
        minus,
        plus,
        Label::MinusKept,
        Label::Minus,
        Label::PlusKept,
        Label::Plus,
        limit,
    )
}

fn hundredths(numer: i64) -> Ratio {
    Ratio { numer, denom: 100 }
}

// The indices of the lines that show a change: those that are not annotated
// whole under the label of kept lines. (A line paired with one that has the
// same tokens shows none.)
fn changed(lines: &Lines, kept: Label) -> Vec<usize> {
    (0..lines.len())
        .filter(|&i| !(lines[i].len() == 1 && lines[i][0].0 == kept))
        .collect()
}

fn joined(line: &Vec<(Label, &str)>) -> String {
    line.iter().map(|section| section.1).collect()
}

const BLOCK_MINUS: [&str; 6] = [
    "fn tokenize(line: &str) -> Vec<&str> {",
    "    let mut tokens = Vec::new();",
    "    let mut offset = 0;",
    "    for m in separators.find_iter(line) {",
    "        tokens.push(&line[offset..m.start()]);",
    "} // tokenize",
];

const BLOCK_PLUS: [&str; 5] = [
    "fn tokenize(line: &str) -> Vec<(usize, &str)> {",
    "    let mut offset = 0usize;",
    "    let mut tokens = Vec::with_capacity(8);",
    "        tokens.push((offset, &line[offset..m.start()]));",
    "} // tokens",
];

#[test]
fn infer_edits_without_lines() {
    let (minus, plus) = (lines(&[]), lines(&[]));
    assert_eq!(infer(&minus, &plus, hundredths(100)), (vec![], vec![]));
}

#[test]
fn infer_edits_without_plus_lines() {
    let (minus, plus) = (lines(&["a", "b c"]), lines(&[]));
    assert_eq!(
        infer(&minus, &plus, hundredths(100)),
        (
            vec![vec![(Label::MinusKept, "a")], vec![(Label::MinusKept, "b c")]],
            vec![]
        )
    );
}

#[test]
fn infer_edits_without_minus_lines() {
    let (minus, plus) = (lines(&[]), lines(&["a", "b c"]));
    assert_eq!(
        infer(&minus, &plus, hundredths(100)),
        (
            vec![],
            vec![vec![(Label::PlusKept, "a")], vec![(Label::PlusKept, "b c")]]
        )
    );
}

#[test]
fn infer_edits_pairs_empty_lines() {
    let (minus, plus) = (lines(&[""]), lines(&[""]));
    assert_eq!(infer(&minus, &plus, hundredths(0)), (vec![vec![]], vec![vec![]]));
}

#[test]
fn infer_edits_pairs_equal_lines_at_limit_zero() {
    let (minus, plus) = (lines(&["a b", "c"]), lines(&["a b", "c"]));
    assert_eq!(
        infer(&minus, &plus, hundredths(0)),
        (
            vec![vec![(Label::MinusKept, "a b")], vec![(Label::MinusKept, "c")]],
            vec![vec![(Label::PlusKept, "a b")], vec![(Label::PlusKept, "c")]]
        )
    );
}

#[test]
fn infer_edits_pairs_nothing_under_a_negative_limit() {
    let (minus, plus) = (lines(&["a b", "c"]), lines(&["a b!", "c!"]));
    let edits = infer(&minus, &plus, hundredths(100));
    assert_eq!(changed(&edits.0, Label::MinusKept), vec![0, 1]);
    assert_eq!(changed(&edits.1, Label::PlusKept), vec![0, 1]);
    assert_eq!(
        infer(&minus, &plus, hundredths(-1)),
        (
            vec![vec![(Label::MinusKept, "a b")], vec![(Label::MinusKept, "c")]],
            vec![vec![(Label::PlusKept, "a b!")], vec![(Label::PlusKept, "c!")]]
        )
    );
}

#[test]
fn infer_edits_pairs_lines_that_differ_in_white_space_only() {
    let (minus, plus) = (lines(&["a b"]), lines(&["a  b"]));
    assert_eq!(
        infer(&minus, &plus, hundredths(0)),
        (
            vec![vec![
                (Label::MinusKept, "a"),
                (Label::Minus, " "),
                (Label::MinusKept, "b")
            ]],
            vec![vec![
                (Label::PlusKept, "a"),
                (Label::Plus, "  "),
                (Label::PlusKept, "b")
            ]]
        )
    );
}

#[test]
fn infer_edits_takes_the_first_plus_line_within_the_limit() {
    let (minus, plus) = (lines(&["a b c"]), lines(&["x y z", "a b d", "a b c"]));
    assert_eq!(
        infer(&minus, &plus, hundredths(50)),
        (
            vec![vec![(Label::MinusKept, "a b "), (Label::Minus, "c")]],
            vec![
                vec![(Label::PlusKept, "x y z")],
                vec![(Label::PlusKept, "a b "), (Label::Plus, "d")],
                vec![(Label::PlusKept, "a b c")]
            ]
        )
    );
}

#[test]
fn infer_edits_accepts_a_distance_equal_to_the_limit() {
    // "ab cd" against "ab ce": "ab " weighs two, "cd" two.
    let (minus, plus) = (lines(&["ab cd"]), lines(&["ab ce"]));
    let paired = (
        vec![vec![(Label::MinusKept, "ab "), (Label::Minus, "cd")]],
        vec![vec![(Label::PlusKept, "ab "), (Label::Plus, "ce")]],
    );
    let unpaired = (
        vec![vec![(Label::MinusKept, "ab cd")]],
        vec![vec![(Label::PlusKept, "ab ce")]],
    );
    assert_eq!(infer(&minus, &plus, Ratio { numer: 1, denom: 2 }), paired);
    assert_eq!(infer(&minus, &plus, Ratio { numer: 2, denom: 4 }), paired);
    assert_eq!(infer(&minus, &plus, Ratio { numer: 51, denom: 100 }), paired);
    assert_eq!(infer(&minus, &plus, Ratio { numer: 49, denom: 100 }), unpaired);
}

#[test]
fn infer_edits_never_looks_back() {
    // The second minus line is close to the first plus line, which the
    // first minus line has passed.
    let (minus, plus) = (lines(&["c d e!", "a b c!"]), lines(&["a b c?", "c d e?"]));
    assert_eq!(
        infer(&minus, &plus, hundredths(50)),
        (
            vec![
                vec![(Label::MinusKept, "c d "), (Label::Minus, "e!")],
                vec![(Label::MinusKept, "a b c!")]
            ],
            vec![
                vec![(Label::PlusKept, "a b c?")],
                vec![(Label::PlusKept, "c d "), (Label::Plus, "e?")]
            ]
        )
    );
    let minus = lines(&["a b c!"]);
    assert_eq!(
        infer(&minus, &plus, hundredths(50)),
        (
            vec![vec![(Label::MinusKept, "a b "), (Label::Minus, "c!")]],
            vec![
                vec![(Label::PlusKept, "a b "), (Label::Plus, "c?")],
                vec![(Label::PlusKept, "c d e?")]
            ]
        )
    );
}

#[test]
fn infer_edits_gives_one_annotated_line_for_each_line() {
    let (minus, plus) = (lines(&BLOCK_MINUS), lines(&BLOCK_PLUS));
    for limit in [-1, 0, 10, 30, 50, 66, 90, 100] {
        let edits = infer(&minus, &plus, hundredths(limit));
        assert_eq!(edits.0.len(), minus.len());
        assert_eq!(edits.1.len(), plus.len());
    }
}

#[test]
fn infer_edits_annotated_lines_joined_are_the_lines() {
    let (minus, plus) = (lines(&BLOCK_MINUS), lines(&BLOCK_PLUS));
    let mut some_change = false;
    for limit in [-1, 0, 10, 30, 50, 66, 90, 100] {
        let edits = infer(&minus, &plus, hundredths(limit));
        for (annotated, line) in edits.0.iter().zip(&minus) {
            assert_eq!(&joined(annotated), line);
        }
        for (annotated, line) in edits.1.iter().zip(&plus) {
            assert_eq!(&joined(annotated), line);
        }
        some_change = some_change || !changed(&edits.0, Label::MinusKept).is_empty();
    }
    assert!(some_change);
}

#[test]
fn infer_edits_pairs_in_order() {
    let minus = lines(&["a b c!", "c d e!", "f g h!"]);
    let plus = lines(&["x y z", "a b c?", "q", "c d e?", "f g h?"]);
    assert_eq!(
        infer(&minus, &plus, hundredths(50)),
        (
            vec![
                vec![(Label::MinusKept, "a b "), (Label::Minus, "c!")],
                vec![(Label::MinusKept, "c d "), (Label::Minus, "e!")],
                vec![(Label::MinusKept, "f g "), (Label::Minus, "h!")]
            ],
            vec![
                vec![(Label::PlusKept, "x y z")],
                vec![(Label::PlusKept, "a b "), (Label::Plus, "c?")],
                vec![(Label::PlusKept, "q")],
                vec![(Label::PlusKept, "c d "), (Label::Plus, "e?")],
                vec![(Label::PlusKept, "f g "), (Label::Plus, "h?")]
            ]
        )
    );
}

#[test]
fn raising_the_limit_keeps_the_first_minus_line_paired() {
    // The minus line is at distance 1 from the first plus line, 4/9 from
    // the second and 2/10 from the third.
    let minus = lines(&["ab cd fg hi"]);
    let plus = lines(&["zz", "ab cd xx yy", "ab cd fg yy"]);
    let partner = |limit: i64| changed(&infer(&minus, &plus, hundredths(limit)).1, Label::PlusKept);
    assert_eq!(partner(10), Vec::<usize>::new());
    assert_eq!(partner(20), vec![2]);
    assert_eq!(partner(30), vec![2]);
    assert_eq!(partner(44), vec![2]);
    assert_eq!(partner(45), vec![1]);
    assert_eq!(partner(99), vec![1]);
    assert_eq!(partner(100), vec![0]);
}

#[test]
fn raising_the_limit_can_take_a_later_line_its_partner() {
    // "a b c d" is at distance 3/6 from "a b", and "a b e" at distance 1/4.
    let (minus, plus) = (lines(&["a b c d", "a b e"]), lines(&["a b"]));
    assert_eq!(
        infer(&minus, &plus, hundredths(30)),
        (
            vec![
                vec![(Label::MinusKept, "a b c d")],
                vec![(Label::MinusKept, "a b"), (Label::Minus, " e")]
            ],
            vec![vec![(Label::PlusKept, "a b")]]
        )
    );
    assert_eq!(
        infer(&minus, &plus, hundredths(60)),
        (
            vec![
                vec![(Label::MinusKept, "a b"), (Label::Minus, " c d")],
                vec![(Label::MinusKept, "a b e")]
            ],
            vec![vec![(Label::PlusKept, "a b")]]
        )
    );
}

#[test]
fn infer_edits_with_no_pair_within_the_limit() {
    let (minus, plus) = (lines(&["aaa", "bbb ccc"]), lines(&["ddd", "eee fff", "ggg"]));
    assert_eq!(
        infer(&minus, &plus, hundredths(50)),
        (
            vec![
                vec![(Label::MinusKept, "aaa")],
                vec![(Label::MinusKept, "bbb ccc")]
            ],
            vec![
                vec![(Label::PlusKept, "ddd")],
                vec![(Label::PlusKept, "eee fff")],
                vec![(Label::PlusKept, "ggg")]
            ]
        )
    );
}
