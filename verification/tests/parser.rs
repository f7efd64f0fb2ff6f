use refdes::parser::{parse, Parser};

fn texts(list: &[&str]) -> Vec<String> {
    list.iter().map(|s| s.to_string()).collect()
}

#[test]
fn test_parser() {
    let input = r"(IC1)";
    let mut parser = Parser::new(input);
    let designators = parser.parse();
    assert_eq!(designators.len(), 1);
}

#[test]
fn parses_ranges_lists_and_groups() {
    assert_eq!(
        parse("R1-3,5,6,(C3)"),
        texts(&["R1", "R2", "R3", "R5", "R6", "(C3)"])
    );
}

#[test]
fn a_single_group_is_one_designator() {
    assert_eq!(parse("(IC1)"), texts(&["(IC1)"]));
}

#[test]
fn two_range_symbols_do_not_expand() {
    assert_eq!(parse("R1~2~3"), texts(&["R1~2~3"]));
}

#[test]
fn a_single_letter_is_a_suffix_behind_a_suffix() {
    assert_eq!(parse("R1a,b"), texts(&["R1a", "R1b"]));
}

#[test]
fn chains_of_letters_follow_each_other() {
    assert_eq!(parse("R1a,b,c"), texts(&["R1a", "R1b", "R1c"]));
}

#[test]
fn a_single_letter_stays_a_word_behind_a_number() {
    assert_eq!(parse("R1,b"), texts(&["R1", "b"]));
}

#[test]
fn empty_text_gives_nothing() {
    assert_eq!(parse(""), Vec::<String>::new());
    assert_eq!(parse("   "), Vec::<String>::new());
    assert_eq!(parse(" , , "), Vec::<String>::new());
}

#[test]
fn parsing_twice_gives_nothing_more() {
    let mut parser = Parser::new("R1,R2");
    assert_eq!(parser.parse(), texts(&["R1", "R2"]));
    assert_eq!(parser.parse(), Vec::<String>::new());
}

#[test]
fn whitespace_and_commas_separate_alike() {
    assert_eq!(
        parse("R5, R1, (R2), R3, (R1), R6, R8, R2, (R3)"),
        texts(&["R5", "R1", "(R2)", "R3", "(R1)", "R6", "R8", "R2", "(R3)"])
    );
    assert_eq!(parse("R1 R2  R3"), texts(&["R1", "R2", "R3"]));
    assert_eq!(parse(",,R1,,,R2,"), texts(&["R1", "R2"]));
}

#[test]
fn numbers_take_the_prefix_in_front() {
    assert_eq!(parse("R1,2,C3,4"), texts(&["R1", "R2", "C3", "C4"]));
}

#[test]
fn all_range_symbols_expand() {
    assert_eq!(parse("R1~3"), texts(&["R1", "R2", "R3"]));
    assert_eq!(parse("R1-3"), texts(&["R1", "R2", "R3"]));
    assert_eq!(parse("R1\u{ff5e}3"), texts(&["R1", "R2", "R3"]));
    assert_eq!(parse("R1~R3"), texts(&["R1", "R2", "R3"]));
}

#[test]
fn whitespace_around_a_range_symbol_is_soft() {
    assert_eq!(parse("R1 - R3"), texts(&["R1", "R2", "R3"]));
    assert_eq!(parse("R1 -3"), texts(&["R1", "R2", "R3"]));
    assert_eq!(parse("R1- 3,C1"), texts(&["R1", "R2", "R3", "C1"]));
}

#[test]
fn ranges_of_suffixes_expand() {
    assert_eq!(parse("R1a~d"), texts(&["R1a", "R1b", "R1c", "R1d"]));
    assert_eq!(parse("R1A-1C"), texts(&["R1A", "R1B", "R1C"]));
}

#[test]
fn a_range_in_a_group_is_in_parentheses() {
    assert_eq!(parse("(R1~3)"), texts(&["(R1)", "(R2)", "(R3)"]));
    assert_eq!(
        parse("R1~3,5,6,8,\n(R1~3)"),
        texts(&["R1", "R2", "R3", "R5", "R6", "R8", "(R1)", "(R2)", "(R3)"])
    );
}

#[test]
fn a_group_holds_several_designators() {
    assert_eq!(parse("(R1,2 C5)"), texts(&["(R1)", "(R2)", "(C5)"]));
}

#[test]
fn a_range_that_does_not_rise_is_taken_as_text() {
    assert_eq!(parse("R3-1"), texts(&["R3-1"]));
    assert_eq!(parse("R1-R1"), texts(&["R1-R1"]));
    assert_eq!(parse("A-B"), texts(&["A-B"]));
    assert_eq!(parse("R1a-1B"), texts(&["R1a-1B"]));
}

#[test]
fn a_range_that_does_not_rise_is_split_at_whitespace() {
    assert_eq!(parse("A - B"), texts(&["A", "-", "B"]));
    assert_eq!(parse("A -B"), texts(&["A", "-B"]));
    assert_eq!(parse("A- B"), texts(&["A-", "B"]));
    assert_eq!(parse("(A - B)"), texts(&["(A)", "-", "(B)"]));
    assert_eq!(parse("(A-B)"), texts(&["(A-B)"]));
}

#[test]
fn a_range_symbol_without_two_ends_is_text() {
    assert_eq!(parse("-"), texts(&["-"]));
    assert_eq!(parse("R1-"), texts(&["R1-"]));
    assert_eq!(parse("-R1"), texts(&["-R1"]));
    assert_eq!(parse("R1,-,R2"), texts(&["R1", "-", "R2"]));
}

#[test]
fn parentheses_behind_an_identifier_belong_to_it() {
    assert_eq!(parse("IC1(DIP8)"), texts(&["IC1(DIP8)"]));
    assert_eq!(parse("IC1(DIP8),R2"), texts(&["IC1(DIP8)", "R2"]));
    assert_eq!(parse("IC1(DIP 8)"), texts(&["IC1(DIP 8)"]));
    assert_eq!(parse("IC1(a(b)c)d"), texts(&["IC1(a(b)c)d"]));
}

#[test]
fn a_closing_parenthesis_ends_the_inline_part() {
    assert_eq!(parse("IC1(DIP8) R2"), texts(&["IC1(DIP8)", "R2"]));
    assert_eq!(parse("IC1(DIP8) (R2)"), texts(&["IC1(DIP8)", "(R2)"]));
}

#[test]
fn a_comma_ends_the_inline_part() {
    assert_eq!(parse("IC1(DIP,R2"), texts(&["IC1(DIP", "R2"]));
}

#[test]
fn parentheses_without_partner_are_text() {
    assert_eq!(parse("(R1"), texts(&["(R1"]));
    assert_eq!(parse("R1)"), texts(&["R1)"]));
    assert_eq!(parse(")R1("), texts(&[")R1("]));
    assert_eq!(parse("(R1))"), texts(&["(R1)", ")"]));
}

#[test]
fn the_rest_of_a_part_behind_its_first_identifier_is_dropped() {
    assert_eq!(parse("R1~ ~R2"), texts(&["R1~"]));
}

#[test]
fn words_are_kept_as_they_are() {
    assert_eq!(parse("GND,VCC"), texts(&["GND", "VCC"]));
    assert_eq!(parse("R1ab,5"), texts(&["R1ab", "5"]));
    assert_eq!(parse("R1,GND,5"), texts(&["R1", "GND", "5"]));
}

#[test]
fn a_word_and_a_number_make_a_range() {
    assert_eq!(parse("R-R3"), texts(&["R", "R3"]));
}

#[test]
fn numbers_that_are_too_long_make_words() {
    assert_eq!(
        parse("R99999999999999999999999999"),
        texts(&["R99999999999999999999999999"])
    );
}

#[test]
fn leading_zeros_are_lost() {
    assert_eq!(parse("R01,R002a"), texts(&["R1", "R2a"]));
    assert_eq!(parse("R0"), texts(&["R"]));
}

#[test]
fn the_parser_and_the_function_give_the_same() {
    for text in ["R1-3,5,6,(C3)", "  a b ", "IC1(DIP8) x", "", "R1~2~3", "(R1"] {
        assert_eq!(Parser::new(text).parse(), parse(text));
    }
}
