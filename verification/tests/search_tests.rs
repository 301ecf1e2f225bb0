use find_pazl::config::{parse_config, ConfigError};
use find_pazl::search::{start_positions, warmup_candidate, Search, SearchError};
use find_pazl::text::conf_text;

fn lines(t: &str) -> Vec<String> {
    t.lines().map(|l| l.to_string()).collect()
}

#[test]
fn search_new_errors() {
    assert!(matches!(Search::new("0123", "", 0, 0), Err(SearchError::NoDigits)));
    assert!(matches!(Search::new("", "", 3, 0), Err(SearchError::EmptyAlphabet)));
    assert!(matches!(Search::new("01", "", 3, 4), Err(SearchError::CounterTooLong)));
    assert!(Search::new("01", "", 3, 3).is_ok());
}

#[test]
fn search_starts_from_the_start_text() {
    let s = Search::new("0123456789ABCDEF", "1A838B13505B26867", 17, 7).ok().unwrap();
    assert_eq!(s.candidate(), "1A838B13505B26867");
}

#[test]
fn search_counts_the_leading_digits() {
    let mut s = Search::new("0123456789ABCDEF", "1A838B13505B26867", 17, 7).ok().unwrap();
    assert_eq!(s.step(), "1A838B13505B26867");
    assert_eq!(s.step(), "1A838B23505B26867");
    assert_eq!(s.candidate(), "1A838B33505B26867");
}

#[test]
fn search_carries_into_higher_digits() {
    let mut s = Search::new("0123456789ABCDEF", "1FF", 3, 3).ok().unwrap();
    assert_eq!(s.step(), "1FF");
    assert_eq!(s.candidate(), "200");
}

#[test]
fn search_wraps_back_to_the_start() {
    let mut s = Search::new("ABC", "BA", 3, 2).ok().unwrap();
    let fallback = vec![2usize, 2, 2];
    let first = s.step_with(&fallback);
    assert_eq!(&first[..2], "BA");
    let third = first.chars().nth(2).unwrap();
    let mut seen = Vec::new();
    for _ in 0..5 {
        seen.push(s.step_with(&fallback));
    }
    let expect: Vec<String> = ["BB", "BC", "CA", "CB", "CC"].iter().map(|p| format!("{}{}", p, third)).collect();
    assert_eq!(seen, expect);
    assert_eq!(s.candidate(), "BAC");
}

#[test]
fn search_without_counter_restarts_when_first_is_zero() {
    let mut s = Search::new("01", "0", 2, 0).ok().unwrap();
    let c = s.step_with(&vec![1, 1]);
    assert_eq!(&c[..1], "0");
    assert_eq!(s.candidate(), "01");
}

#[test]
fn start_positions_use_fallback_where_unfixed() {
    let cs: Vec<char> = "ABCA".chars().collect();
    let st: Vec<char> = "AZ".chars().collect();
    assert_eq!(start_positions(&cs, &st, 3, &vec![9, 8, 7]), vec![0, 8, 7]);
}

#[test]
fn random_start_stays_in_the_alphabet() {
    for _ in 0..20 {
        let s = Search::new("XYZ", "", 5, 1).ok().unwrap();
        assert!(s.candidate().chars().all(|c| "XYZ".contains(c)));
        assert_eq!(s.candidate().chars().count(), 5);
    }
}

#[test]
fn warmup_is_all_a() {
    assert_eq!(warmup_candidate(3), "aaa");
    assert_eq!(warmup_candidate(0), "");
}

#[test]
fn default_configuration_parses() {
    let c = parse_config(&lines(&conf_text(4))).ok().unwrap();
    assert_eq!(c.num_cores, 1);
    assert_eq!(c.pazl, 17);
    assert_eq!(c.custom_digit_start, "1A838B13505B26867");
    assert_eq!(c.enum_start, 7);
    assert_eq!(c.alphabet, "0123456789ABCDEF");
    assert!(c.show_info);
}

#[test]
fn configuration_errors() {
    assert_eq!(parse_config(&vec![]).err(), Some(ConfigError::MissingLine(0)));
    assert_eq!(parse_config(&lines("x")).err(), Some(ConfigError::NumCores));
    assert_eq!(parse_config(&lines("200")).err(), Some(ConfigError::NumCores));
    assert_eq!(parse_config(&lines("2")).err(), Some(ConfigError::MissingLine(1)));
    assert_eq!(parse_config(&lines("2\n-3")).err(), Some(ConfigError::Pazl));
    assert_eq!(parse_config(&lines("2\n3\nab")).err(), Some(ConfigError::MissingLine(3)));
    assert_eq!(parse_config(&lines("2\n3\nab\nq")).err(), Some(ConfigError::EnumStart));
    assert_eq!(parse_config(&lines("2\n3\nab\n1\n01")).err(), Some(ConfigError::MissingLine(5)));
    assert_eq!(parse_config(&lines("2\n3\nab\n1\n01\nmaybe")).err(), Some(ConfigError::ShowInfo));
}

#[test]
fn configuration_yes_no_words() {
    for (w, b) in [("TRUE", true), ("t", true), ("Yes", true), ("y", true), ("1", true), ("False", false), ("F", false), ("NO", false), ("n", false), ("0", false)] {
        let c = parse_config(&lines(&format!("-2\n+3\nab\n1\n01\n{} tail", w))).ok().unwrap();
        assert_eq!(c.show_info, b);
        assert_eq!(c.num_cores, -2);
        assert_eq!(c.pazl, 3);
        assert_eq!(c.custom_digit_start, "AB");
    }
}
