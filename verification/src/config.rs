//! The six-line configuration file: threads, candidate length, start
//! text, counting digits, alphabet, progress display.

use vstd::prelude::*;
use rustils::parse::boolean::string_to_bool;
use crate::text::{first_word, first_word_spec, parse_i8, parse_signed, parse_unsigned, parse_usize};

verus! {

/// `c` with ASCII capitals made small.
pub open spec fn ascii_lower(c: char) -> char {
    if 'A' <= c <= 'Z' {
        (c as int + 32) as char
    } else {
        c
    }
}

/// What a yes/no word means, compared without regard to ASCII case:
/// `true`, `t`, `yes`, `y`, `1` are yes; `false`, `f`, `no`, `n`, `0` are
/// no; anything else is no such word.
pub open spec fn bool_word(s: Seq<char>) -> Option<bool> {
    let l = s.map_values(|c: char| ascii_lower(c));
    if l == seq!['t', 'r', 'u', 'e'] || l == seq!['t'] || l == seq!['y', 'e', 's'] || l == seq!['y']
        || l == seq!['1'] {
        Some(true)
    } else if l == seq!['f', 'a', 'l', 's', 'e'] || l == seq!['f'] || l == seq!['n', 'o'] || l
        == seq!['n'] || l == seq!['0'] {
        Some(false)
    } else {
        None
    }
}

/// `rustils::parse::boolean::string_to_bool`: it lowercases the text and
/// returns the meaning of a yes/no word; on any other text it panics. On
/// the ASCII words admitted here Unicode lowercasing is ASCII lowercasing.
#[verifier::external_body]
fn text_to_bool(a: String) -> (res: bool)
    requires
        bool_word(a@) is Some,
    ensures
        res == bool_word(a@).unwrap(),
{
    string_to_bool(a)
}

/// The uppercase form of `s` as `str::to_uppercase` gives it (Unicode
/// case mapping).
pub uninterp spec fn spec_to_uppercase(s: Seq<char>) -> Seq<char>;

/// `str::to_uppercase`: the result is the Unicode uppercase form of the
/// text, a function of the text alone; the mapping itself is not stated.
#[verifier::external_body]
fn to_uppercase(s: &str) -> (res: String)
    ensures
        res@ == spec_to_uppercase(s@),
{
    s.to_uppercase()
}

/// Whether `s` is a yes/no word, and which.
fn bool_word_of(s: &str) -> (res: Option<bool>)
    ensures
        res == bool_word(s@),
{
    let cs = crate::text::chars_vec(s);
    let mut l: Vec<char> = Vec::new();
    let mut i: usize = 0;
    while i < cs.len()
        invariant
            i <= cs@.len(),
            cs@ == s@,
            l@ == s@.map_values(|c: char| ascii_lower(c)).take(i as int),
        decreases cs@.len() - i,
    {
        let c = cs[i];
        let lc = if 'A' <= c && c <= 'Z' {
            ((c as u32 + 32) as u8) as char
        } else {
            c
        };
        l.push(lc);
        i = i + 1;
        assert(l@ =~= s@.map_values(|c: char| ascii_lower(c)).take(i as int));
    }
    let ghost low = s@.map_values(|c: char| ascii_lower(c));
    assert(l@ =~= low);
    let n = l.len();
    if n == 1 {
        let c = l[0];
        if c == 't' || c == 'y' || c == '1' {
            assert(low == seq![c]);
            return Some(true);
        } else if c == 'f' || c == 'n' || c == '0' {
            assert(low == seq![c]);
            return Some(false);
        }
        assert(low == seq![c]);
        None
    } else if n == 2 {
        if l[0] == 'n' && l[1] == 'o' {
            assert(low =~= seq!['n', 'o']);
            return Some(false);
        }
        assert(low != seq!['n', 'o']);
        None
    } else if n == 3 {
        if l[0] == 'y' && l[1] == 'e' && l[2] == 's' {
            assert(low =~= seq!['y', 'e', 's']);
            return Some(true);
        }
        assert(low != seq!['y', 'e', 's']);
        None
    } else if n == 4 {
        if l[0] == 't' && l[1] == 'r' && l[2] == 'u' && l[3] == 'e' {
            assert(low =~= seq!['t', 'r', 'u', 'e']);
            return Some(true);
        }
        assert(low != seq!['t', 'r', 'u', 'e']);
        None
    } else if n == 5 {
        if l[0] == 'f' && l[1] == 'a' && l[2] == 'l' && l[3] == 's' && l[4] == 'e' {
            assert(low =~= seq!['f', 'a', 'l', 's', 'e']);
            return Some(false);
        }
        assert(low != seq!['f', 'a', 'l', 's', 'e']);
        None
    } else {
        None
    }
}

} // verus!

verus! {

/// Which line of the configuration could not be used.
#[derive(Debug, Clone, Copy, PartialEq, Eq, Structural)]
pub enum ConfigError {
    /// The file has fewer lines than the one with this index (from 0).
    MissingLine(usize),
    /// The first word of the thread line is not an `i8`.
    NumCores,
    /// The first word of the length line is not a `usize`.
    Pazl,
    /// The first word of the counting line is not a `usize`.
    EnumStart,
    /// The first word of the display line is not a yes/no word.
    ShowInfo,
}

/// The settings read from the configuration lines.
pub struct Config {
    /// Worker threads to start.
    pub num_cores: i8,
    /// Digits of a candidate.
    pub pazl: usize,
    /// Start text, in upper case.
    pub custom_digit_start: String,
    /// Leading digits that count up.
    pub enum_start: usize,
    /// The candidates' alphabet.
    pub alphabet: String,
    /// Whether to show progress.
    pub show_info: bool,
}

/// The first word of line `i`.
pub open spec fn word_of(lines: Seq<Seq<char>>, i: int) -> Seq<char> {
    first_word_spec(lines[i])
}

/// The first thing wrong with the configuration lines, in the order in
/// which they are read, if anything.
pub open spec fn config_error(lines: Seq<Seq<char>>) -> Option<ConfigError> {
    if lines.len() < 1 {
        Some(ConfigError::MissingLine(0))
    } else if parse_signed(word_of(lines, 0), -128, 127) is None {
        Some(ConfigError::NumCores)
    } else if lines.len() < 2 {
        Some(ConfigError::MissingLine(1))
    } else if parse_unsigned(word_of(lines, 1), usize::MAX as int) is None {
        Some(ConfigError::Pazl)
    } else if lines.len() < 3 {
        Some(ConfigError::MissingLine(2))
    } else if lines.len() < 4 {
        Some(ConfigError::MissingLine(3))
    } else if parse_unsigned(word_of(lines, 3), usize::MAX as int) is None {
        Some(ConfigError::EnumStart)
    } else if lines.len() < 5 {
        Some(ConfigError::MissingLine(4))
    } else if lines.len() < 6 {
        Some(ConfigError::MissingLine(5))
    } else if bool_word(word_of(lines, 5)) is None {
        Some(ConfigError::ShowInfo)
    } else {
        None
    }
}

/// The text of each line.
pub open spec fn line_texts(lines: Seq<String>) -> Seq<Seq<char>> {
    lines.map_values(|s: String| s@)
}

/// Reads the settings from the first word of each of the six lines.
pub fn parse_config(lines: &Vec<String>) -> (res: Result<Config, ConfigError>)
    ensures
        match config_error(line_texts(lines@)) {
            Some(e) => res matches Err(r) && r == e,
            None => res matches Ok(c) && {
                let l = line_texts(lines@);
                &&& c.num_cores as int == parse_signed(word_of(l, 0), -128, 127).unwrap()
                &&& c.pazl as int == parse_unsigned(word_of(l, 1), usize::MAX as int).unwrap()
                &&& c.custom_digit_start@ == spec_to_uppercase(word_of(l, 2))
                &&& c.enum_start as int == parse_unsigned(word_of(l, 3), usize::MAX as int).unwrap()
                &&& c.alphabet@ == word_of(l, 4)
                &&& c.show_info == bool_word(word_of(l, 5)).unwrap()
            },
        },
{
    let ghost l = line_texts(lines@);
    if lines.len() < 1 {
        return Err(ConfigError::MissingLine(0));
    }
    assert(l[0] == lines@[0]@);
    let w0 = first_word(&lines[0]);
    let num_cores = match parse_i8(w0.as_str()) {
        Some(v) => v,
        None => {
            return Err(ConfigError::NumCores);
        },
    };
    if lines.len() < 2 {
        return Err(ConfigError::MissingLine(1));
    }
    assert(l[1] == lines@[1]@);
    let w1 = first_word(&lines[1]);
    let pazl = match parse_usize(w1.as_str()) {
        Some(v) => v,
        None => {
            return Err(ConfigError::Pazl);
        },
    };
    if lines.len() < 3 {
        return Err(ConfigError::MissingLine(2));
    }
    assert(l[2] == lines@[2]@);
    let w2 = first_word(&lines[2]);
    let custom_digit_start = to_uppercase(w2.as_str());
    if lines.len() < 4 {
        return Err(ConfigError::MissingLine(3));
    }
    assert(l[3] == lines@[3]@);
    let w3 = first_word(&lines[3]);
    let enum_start = match parse_usize(w3.as_str()) {
        Some(v) => v,
        None => {
            return Err(ConfigError::EnumStart);
        },
    };
    if lines.len() < 5 {
        return Err(ConfigError::MissingLine(4));
    }
    assert(l[4] == lines@[4]@);
    let alphabet = first_word(&lines[4]);
    if lines.len() < 6 {
        return Err(ConfigError::MissingLine(5));
    }
    assert(l[5] == lines@[5]@);
    let w5 = first_word(&lines[5]);
    if bool_word_of(w5.as_str()).is_none() {
        return Err(ConfigError::ShowInfo);
    }
    let show_info = text_to_bool(w5);
    Ok(Config { num_cores, pazl, custom_digit_start, enum_start, alphabet, show_info })
}

} // verus!
