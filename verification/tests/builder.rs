use refdes::builder::{build, build_inner};
use refdes::designator::Designator;
use refdes::parser::Parser;

fn texts(list: &[&str]) -> Vec<String> {
    list.iter().map(|s| s.to_string()).collect()
}

fn designators(list: &[&str]) -> Vec<Designator> {
    list.iter().map(|s| Designator::from(*s)).collect()
}

#[test]
fn test_builder() {
    let designators = vec![
        "R5".to_string(),
        "R1".to_string(),
        "(R2)".to_string(),
        "R3".to_string(),
        "(R1)".to_string(),
        "R6".to_string(),
        "R8".to_string(),
        "R2".to_string(),
        "(R3)".to_string(),
    ];

    let s = build(designators);
    assert_eq!(
        r#"R1~3,5,6,8,
(R1~3)"#
            .to_string(),
        s
    );
}

#[test]
fn build_of_nothing_is_empty() {
    assert_eq!(build(Vec::new()), "");
}

#[test]
fn build_of_one_text_gives_it_back() {
    assert_eq!(build(texts(&["R1"])), "R1");
    assert_eq!(build(texts(&["  anything at all "])), "  anything at all ");
    assert_eq!(build(texts(&["(R01)"])), "(R01)");
}

#[test]
fn runs_of_two_are_written_one_by_one() {
    assert_eq!(build(texts(&["R2", "R1"])), "R1,2");
    assert_eq!(build(texts(&["R1", "R2", "R4", "R5"])), "R1,2,4,5");
}

#[test]
fn runs_of_three_and_more_are_ranges() {
    assert_eq!(build(texts(&["R3", "R1", "R2"])), "R1~3");
    assert_eq!(build(texts(&["R1", "R2", "R3", "R4", "R7"])), "R1~4,7");
    assert_eq!(
        build(texts(&["R1", "R2", "R3", "R5", "R6", "R7"])),
        "R1~3,5~7"
    );
}

#[test]
fn prefixes_are_written_once() {
    assert_eq!(build(texts(&["R1", "C1", "R5", "C2"])), "C1,2,R1,5");
    assert_eq!(build(texts(&["C1", "C2", "C3", "R1"])), "C1~3,R1");
}

#[test]
fn suffixes_make_runs_of_their_own() {
    assert_eq!(build(texts(&["R1a", "R1b", "R1c"])), "R1a~1c");
    assert_eq!(build(texts(&["R1a", "R1b"])), "R1a,1b");
    assert_eq!(build(texts(&["R1", "R1a", "R2"])), "R1,1a,2");
    assert_eq!(build(texts(&["R1Z", "R1a"])), "R1Z,1a");
}

#[test]
fn words_are_written_in_full() {
    assert_eq!(build(texts(&["VCC", "GND"])), "GND,VCC");
    assert_eq!(build(texts(&["R1", "R"])), "R,R1");
    assert_eq!(build(texts(&["GND", "R1", "R2"])), "GND,R1,2");
}

#[test]
fn a_word_stands_in_a_run_with_the_numbers_of_its_prefix() {
    assert_eq!(build(texts(&["R1", "R", "R2"])), "R~2");
}

#[test]
fn doubles_stay() {
    assert_eq!(build(texts(&["R1", "R1", "R2", "R3"])), "R1,1~3");
}

#[test]
fn only_a_group_in_parentheses() {
    assert_eq!(build(texts(&["(R2)", "(R1)"])), "(R1,2)");
    assert_eq!(build(texts(&["(R2)", "(R1)", "(R3)"])), "(R1~3)");
}

#[test]
fn empty_texts_leave_no_comma_in_front() {
    assert_eq!(build(texts(&["", "R1"])), "R1");
    assert_eq!(build(texts(&["", ""])), "");
}

#[test]
fn build_inner_sorts_and_collapses() {
    assert_eq!(
        build_inner(designators(&["R5", "R1", "R3", "R6", "R8", "R2"]), false),
        "R1~3,5,6,8"
    );
    assert_eq!(
        build_inner(designators(&["(R2)", "(R1)", "(R3)"]), true),
        "(R1~3)"
    );
}

#[test]
fn build_inner_of_nothing() {
    assert_eq!(build_inner(Vec::new(), false), "");
    assert_eq!(build_inner(Vec::new(), true), "()");
}

#[test]
fn parse_reads_what_build_writes() {
    let given = texts(&[
        "R5", "R1", "(R2)", "R3", "(R1)", "R6", "R8", "R2", "(R3)", "C1a", "C1b", "C1c", "GND",
        "R10", "R11",
    ]);
    let text = build(given.clone());
    assert_eq!(text, "C1a~1c,GND,R1~3,5,6,8,10,11,\n(R1~3)");
    let mut read = Parser::new(&text).parse();
    let mut wanted = given;
    read.sort();
    wanted.sort();
    assert_eq!(read, wanted);
}

#[test]
fn long_lists_are_sorted() {
    let mut given: Vec<String> = (1..2003u64)
        .map(|i| format!("R{}", (i * 7) % 2003))
        .collect();
    assert_eq!(build(given.clone()), "R1~2002");
    given.push("(C7)".to_string());
    given.push("C9".to_string());
    given.push("R1000".to_string());
    assert_eq!(build(given), "C9,R1~1000,1000~2002,\n(C7)");
}
