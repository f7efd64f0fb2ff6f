use refdes::builder::build;
use refdes::parser::Parser;

struct Random(u64);

impl Random {
    fn next(&mut self, bound: u64) -> u64 {
        self.0 = self
            .0
            .wrapping_mul(6364136223846793005)
            .wrapping_add(1442695040888963407);
        (self.0 >> 33) % bound
    }
}

fn designator(random: &mut Random) -> String {
    let words = ["GND", "VCC", "Ab", "3V3", "R1ab", "C2_"];
    let prefixes = ["R", "C", "IC", "r"];
    let suffixes = ["", "", "", "a", "b", "c", "d", "A", "B", "Z", "z"];
    let body = if random.next(8) == 0 {
        words[random.next(6) as usize].to_string()
    } else {
        format!(
            "{}{}{}",
            prefixes[random.next(4) as usize],
            1 + random.next(12),
            suffixes[random.next(11) as usize]
        )
    };
    if random.next(3) == 0 {
        format!("({})", body)
    } else {
        body
    }
}

#[test]
fn parse_gives_back_what_build_was_given() {
    let mut random = Random(20240229);
    for round in 0..3000 {
        let length = random.next(12) as usize;
        let given: Vec<String> = (0..length).map(|_| designator(&mut random)).collect();
        let text = build(given.clone());
        let mut read = Parser::new(&text).parse();
        let mut wanted = given.clone();
        read.sort();
        wanted.sort();
        assert_eq!(read, wanted, "round {}: {:?} gave {:?}", round, given, text);
    }
}

#[test]
fn a_word_in_a_run_is_not_read_back() {
    let text = build(vec!["R".to_string(), "R1".to_string(), "R2".to_string()]);
    assert_eq!(text, "R~2");
    assert_eq!(Parser::new(&text).parse(), vec!["R~2"]);
}

#[test]
fn a_single_letter_behind_a_suffix_is_not_read_back() {
    let text = build(vec!["R1a".to_string(), "b".to_string()]);
    assert_eq!(text, "R1a,b");
    assert_eq!(Parser::new(&text).parse(), vec!["R1a", "R1b"]);
}
