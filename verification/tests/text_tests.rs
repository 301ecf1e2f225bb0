use find_pazl::text::{chars_vec, conf_text, decimal_string, is_space_char, parse_i8, parse_usize};
use find_pazl::{first_word, get_conf_text, start_zero};

#[test]
fn start_zero_pads_to_64_digits() {
    assert_eq!(start_zero(17), "0".repeat(47));
    assert_eq!(start_zero(0), "0".repeat(64));
    assert_eq!(start_zero(63), "0");
}

#[test]
fn start_zero_is_empty_from_64_on() {
    assert_eq!(start_zero(64), "");
    assert_eq!(start_zero(100), "");
}

#[test]
fn first_word_takes_the_first_run() {
    assert_eq!(first_word(&"17  -ДЛИННА ПАЗЛА".to_string()), "17");
    assert_eq!(first_word(&"   \t 0123456789ABCDEF -АЛФАВИТ".to_string()), "0123456789ABCDEF");
    assert_eq!(first_word(&"word".to_string()), "word");
}

#[test]
fn first_word_of_blank_line_is_empty() {
    assert_eq!(first_word(&"".to_string()), "");
    assert_eq!(first_word(&" \u{3000}\n ".to_string()), "");
}

#[test]
fn first_word_splits_on_unicode_space() {
    assert_eq!(first_word(&"ab\u{00A0}cd".to_string()), "ab");
}

#[test]
fn decimal_strings() {
    assert_eq!(decimal_string(0), "0");
    assert_eq!(decimal_string(7), "7");
    assert_eq!(decimal_string(12345), "12345");
    assert_eq!(decimal_string(usize::MAX), usize::MAX.to_string());
}

#[test]
fn parse_usize_like_std() {
    for s in ["17", "+17", "0", "007", "", "+", "-1", "1a", " 1", "18446744073709551615", "18446744073709551616"] {
        assert_eq!(parse_usize(s), s.parse::<usize>().ok(), "input {:?}", s);
    }
}

#[test]
fn parse_i8_like_std() {
    for s in ["1", "-1", "+1", "127", "128", "-128", "-129", "-", "+", "", "--1", "1-", "0"] {
        assert_eq!(parse_i8(s), s.parse::<i8>().ok(), "input {:?}", s);
    }
}

#[test]
fn decimal_round_trip() {
    for n in [0usize, 1, 9, 10, 99, 100, 65535, 1234567890] {
        assert_eq!(parse_usize(&decimal_string(n)), Some(n));
    }
}

#[test]
fn chars_vec_keeps_order() {
    assert_eq!(chars_vec("aЖb"), vec!['a', 'Ж', 'b']);
}

#[test]
fn conf_text_holds_the_processor_count() {
    let t = conf_text(8);
    assert!(t.starts_with("1   -КОЛИЧЕСТВО ПОТОКОВ ПРОЦЕССОРА 1/8\n"));
    assert!(t.contains("17  -ДЛИННА ПАЗЛА(17-40)"));
    assert!(t.ends_with("UQD4ULmR2ddYigLQ82D-_MPbSXkIzasHA73JFg1-hY4l-Ft4"));
}

#[test]
fn get_conf_text_matches_the_default_file() {
    let expected = format!(
           "1   -КОЛИЧЕСТВО ПОТОКОВ ПРОЦЕССОРА 1/{}\n\
            17  -ДЛИННА ПАЗЛА(17-40). 66,67,68 ПАЗЛ = 17 ЗНАКОВ\n\
            1a838b13505b26867 -НАЧАЛЬНОЕ ЗНАЧЕНИЕ(0123456789ABCDEF)(для теста 65 пазл 1a838b13505b26867)\n\
            7   -КОЛИЧЕСТВО СИМВОЛОВ ПОСЛЕДОВАТЕЛЬНОГО ПЕРЕБОРА СЛЕВА\n\
            0123456789ABCDEF -АЛФАВИТ(0123456789ABCDEF)\n\
            1   -ОТОБРАЖЕНИЕ СКОРОСТИ И ТЕКУЩЕГО ПОДБОРА(0-выкл, 1-включенно) \n\n
            Найденное сохраниться в  FOUND_PAZL.txt\n\
            ---Задонатить:------\n\
            (BTC)              bc1qg89l3580w7zgqkc54kufgpdyk3ur88d772l9y0\n\
            (KASPA)            kaspa:qpjmst279twpa48yyql3frxk8k2fsa6sh2pky7szv27s9ftq0wwssaffg58up\n\
            (TONCOIN telegram) UQD4ULmR2ddYigLQ82D-_MPbSXkIzasHA73JFg1-hY4l-Ft4", num_cpus::get());
    assert_eq!(get_conf_text(), expected);
}

#[test]
fn white_space_matches_std() {
    for x in 0u32..0x3100 {
        if let Some(c) = char::from_u32(x) {
            assert_eq!(is_space_char(c), c.is_whitespace(), "char {:#x}", x);
        }
    }
    assert_eq!(is_space_char('\u{FEFF}'), '\u{FEFF}'.is_whitespace());
}
