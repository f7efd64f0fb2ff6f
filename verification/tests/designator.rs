use refdes::designator::Designator;

fn d(text: &str) -> Designator {
    Designator::from(text)
}

#[test]
fn text_comes_back() {
    for text in ["R1", "R12a", "(R1)", "GND", "", "()", "IC100", "(VCC)", "5", "7b"] {
        assert_eq!(d(text).to_string(), text);
    }
}

#[test]
fn empty_and_word() {
    assert!(d("").is_empty());
    assert!(d("()").is_empty());
    assert!(d("()").has_paren());
    assert!(!d("").is_word());
    assert!(d("GND").is_word());
    assert!(!d("GND").is_empty());
    assert!(!d("R1").is_word());
    assert!(!d("R1").is_empty());
    assert!(!d("1").is_empty());
    assert!(Designator::new().is_empty());
    assert!(!Designator::new().has_paren());
    assert!(Designator::word("abc".to_string(), true).is_word());
    assert_eq!(Designator::word("abc".to_string(), true).to_string(), "(abc)");
}

#[test]
fn texts_with_more_behind_the_number_are_words() {
    assert!(d("R1ab").is_word());
    assert!(d("R1_").is_word());
    assert!(d("R1-2").is_word());
    assert!(d("R1a2").is_word());
    assert!(!d("R1a").is_word());
    assert_eq!(d("R1ab").to_string(), "R1ab");
}

#[test]
fn a_number_that_does_not_fit_makes_a_word() {
    let long = "R123456789012345678901234567890";
    assert!(d(long).is_word());
    assert_eq!(d(long).to_string(), long);
}

#[test]
fn the_largest_number_is_kept() {
    let text = format!("R{}", isize::MAX);
    assert!(!d(&text).is_word());
    assert_eq!(d(&text).to_string(), text);
    let beyond = format!("R{}", (isize::MAX as usize) + 1);
    assert!(d(&beyond).is_word());
}

#[test]
fn parentheses_need_a_pair() {
    assert!(!d("(").has_paren());
    assert!(d("(").is_word());
    assert!(!d("(R1").has_paren());
    assert!(!d("R1)").has_paren());
    assert!(d("(R1)").has_paren());
    assert_eq!(d("(R1)").without_parentheses().to_string(), "R1");
    assert_eq!(d("R1").without_parentheses().to_string(), "R1");
}

#[test]
fn only_the_first_and_last_character_are_stripped() {
    assert_eq!(d("(\u{e9}1)").without_parentheses().to_string(), "\u{e9}1");
}

#[test]
fn omitted_text_leaves_out_the_same_prefix() {
    assert_eq!(d("R2").to_omitted_string(&d("R1")), "2");
    assert_eq!(d("R2a").to_omitted_string(&d("R1")), "2a");
    assert_eq!(d("C2").to_omitted_string(&d("R1")), "C2");
    assert_eq!(d("(R2)").to_omitted_string(&d("(R1)")), "2");
    assert_eq!(d("(C2)").to_omitted_string(&d("R1")), "C2");
}

#[test]
fn omitted_text_of_words_and_empty_is_full() {
    assert_eq!(d("GND").to_omitted_string(&d("R1")), "GND");
    assert_eq!(d("R1").to_omitted_string(&d("R")), "R1");
    assert_eq!(d("(R1)").to_omitted_string(&d("")), "(R1)");
    assert_eq!(d("").to_omitted_string(&d("R1")), "");
    assert_eq!(d("(GND)").to_omitted_string(&d("GND")), "(GND)");
}

#[test]
fn difference_of_numbers() {
    assert_eq!(d("R5").difference(&d("R2")), Some(3));
    assert_eq!(d("R2").difference(&d("R5")), Some(-3));
    assert_eq!(d("R2").difference(&d("R2")), Some(0));
    assert_eq!(d("(R3)").difference(&d("R2")), Some(1));
    assert_eq!(d("R3").difference(&d("R")), Some(3));
}

#[test]
fn difference_of_suffixes() {
    assert_eq!(d("R1c").difference(&d("R1a")), Some(2));
    assert_eq!(d("R1A").difference(&d("R1C")), Some(-2));
    assert_eq!(d("R1a").difference(&d("R1A")), None);
    assert_eq!(d("R1a").difference(&d("R2a")), None);
}

#[test]
fn difference_needs_the_same_shape() {
    assert_eq!(d("R1").difference(&d("C1")), None);
    assert_eq!(d("R1a").difference(&d("R1")), None);
    assert_eq!(d("R1").difference(&d("R1a")), None);
}

#[test]
fn next_moves_on_by_one() {
    assert_eq!(d("R1").next().unwrap().to_string(), "R2");
    assert_eq!(d("R9").next().unwrap().to_string(), "R10");
    assert_eq!(d("R1a").next().unwrap().to_string(), "R1b");
    assert_eq!(d("(R1)").next().unwrap().to_string(), "(R2)");
    assert_eq!(d("R1z").next().unwrap().to_string(), "R1{");
    assert_eq!(d("7").next().unwrap().to_string(), "8");
}

#[test]
fn next_of_words_and_empty_is_none() {
    assert!(d("GND").next().is_none());
    assert!(d("").next().is_none());
    assert!(d("()").next().is_none());
}

#[test]
fn complement_takes_the_prefix() {
    let mut x = d("5");
    x.complement(&d("R1"));
    assert_eq!(x.to_string(), "R5");
    let mut y = d("(5a)");
    y.complement(&d("R1"));
    assert_eq!(y.to_string(), "(R5a)");
}

#[test]
fn complement_reads_a_letter_as_suffix() {
    let mut x = d("b");
    x.complement(&d("R1a"));
    assert_eq!(x.to_string(), "R1b");
    let mut y = d("b");
    y.complement(&d("R1"));
    assert_eq!(y.to_string(), "b");
    let mut z = d("bc");
    z.complement(&d("R1a"));
    assert_eq!(z.to_string(), "bc");
    let mut w = d("\u{e9}");
    w.complement(&d("R1a"));
    assert_eq!(w.to_string(), "\u{e9}");
}

#[test]
fn complement_leaves_alone_what_is_complete() {
    let mut x = d("C7");
    x.complement(&d("R1"));
    assert_eq!(x.to_string(), "C7");
    let mut y = d("C7a");
    y.complement(&d("R1b"));
    assert_eq!(y.to_string(), "C7a");
}

#[test]
fn complement_does_nothing_with_empty_or_word() {
    let mut x = d("");
    x.complement(&d("R1"));
    assert_eq!(x.to_string(), "");
    let mut y = d("5");
    y.complement(&d(""));
    assert_eq!(y.to_string(), "5");
    let mut z = d("5");
    z.complement(&d("GND"));
    assert_eq!(z.to_string(), "5");
}

#[test]
fn complement_twice_is_complement_once() {
    for (own, other) in [("b", "R1a"), ("5", "R1"), ("5a", "R1b"), ("C7", "R1"), ("", "R1")] {
        let mut once = d(own);
        once.complement(&d(other));
        let mut twice = d(own);
        twice.complement(&d(other));
        twice.complement(&d(other));
        assert_eq!(once.to_string(), twice.to_string());
    }
}

#[test]
fn order_goes_by_parentheses_prefix_number_suffix() {
    assert!(d("R9").precedes(&d("(R1)")));
    assert!(!d("(R1)").precedes(&d("R9")));
    assert!(d("C9").precedes(&d("R1")));
    assert!(d("R").precedes(&d("R1")));
    assert!(d("R2").precedes(&d("R10")));
    assert!(d("R1").precedes(&d("R1a")));
    assert!(d("R1A").precedes(&d("R1a")));
    assert!(!d("R1").precedes(&d("R1")));
    assert!(d("R1").same_as(&d("R01")));
    assert!(!d("R1").same_as(&d("(R1)")));
}

#[test]
fn clone_keeps_every_part() {
    let x = d("(R12c)");
    let y = x.clone();
    assert!(x.same_as(&y));
    assert_eq!(y.to_string(), "(R12c)");
}

#[test]
fn parenthesize_sets_the_flag() {
    let mut x = d("R1");
    x.parenthesize();
    assert_eq!(x.to_string(), "(R1)");
    x.parenthesize();
    assert_eq!(x.to_string(), "(R1)");
}

#[test]
fn equality_and_order_of_designators() {
    assert_eq!(d("R1"), d("R01"));
    assert_ne!(d("R1"), d("(R1)"));
    assert_ne!(d("R1"), d("R1a"));
    assert!(d("R2") < d("R10"));
    assert!(d("R10") > d("R2"));
    assert!(d("R9") < d("(R1)"));
    assert!(d("R1") <= d("R1"));
    assert!(d("R1") >= d("R1"));
    assert!(d("C1") < d("R1"));
    assert_eq!(d("R1").partial_cmp(&d("R1")), Some(std::cmp::Ordering::Equal));
}

#[test]
fn sorting_goes_by_the_order_of_designators() {
    let mut list = vec![
        d("(R1)"),
        d("R10"),
        d("R2"),
        d("C3"),
        d("R2a"),
        d("R"),
        d("(C1)"),
        d("R2A"),
    ];
    list.sort();
    let sorted: Vec<String> = list.iter().map(|x| x.to_string()).collect();
    assert_eq!(
        sorted,
        vec!["C3", "R", "R2", "R2A", "R2a", "R10", "(C1)", "(R1)"]
    );
    for pair in list.windows(2) {
        assert!(pair[0].precedes(&pair[1]));
        assert!(pair[0] < pair[1]);
        assert_eq!(pair[0].cmp(&pair[1]), std::cmp::Ordering::Less);
    }
}

#[test]
fn designators_at_the_limits_cannot_step() {
    assert!(d("R1").can_step());
    assert!(d("R1z").can_step());
    assert!(d("GND").can_step());
    assert!(d("").can_step());
    let last = d(&format!("R{}", isize::MAX));
    assert!(!last.can_step());
    let before = d(&format!("R{}", isize::MAX - 1));
    assert!(before.can_step());
    assert_eq!(before.next().unwrap().to_string(), last.to_string());
    let mut suffix = d("R1z");
    while suffix.can_step() {
        suffix = suffix.next().unwrap();
    }
    assert_eq!(suffix.to_string(), "R1\u{ff}");
    assert_eq!(suffix.difference(&d("R1b")), None);
}

#[test]
fn a_text_turns_into_a_designator() {
    let x: Designator = "(R7b)".into();
    assert!(x.has_paren());
    assert_eq!(x.to_string(), "(R7b)");
    assert_eq!(x, Designator::from("(R7b)"));
}
