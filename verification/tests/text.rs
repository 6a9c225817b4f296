use cpusim::text::{
    chars_of, i32_literal_at, mnemonic_at, register_name_string, trim_commas_end, u128_literal_at,
    upper_letters_of, usize_literal_at, white_space, word_spans, Mnemonic,
};

fn all_chars() -> impl Iterator<Item = char> {
    (0u32..=0x10FFFF).filter_map(char::from_u32)
}

#[test]
fn white_space_matches_std_for_every_char() {
    for c in all_chars() {
        assert_eq!(white_space(c), c.is_whitespace(), "char {:?}", c);
    }
}

#[test]
fn upper_letters_match_std_for_every_char() {
    for c in all_chars() {
        let upper: String = c.to_uppercase().collect();
        let ours: String = upper_letters_of(c).into_iter().collect();
        if upper.chars().all(|u| u.is_ascii_uppercase()) {
            assert_eq!(ours, upper, "char {:?}", c);
        } else {
            assert!(ours.is_empty(), "char {:?}", c);
        }
    }
}

fn words_of(s: &str) -> Vec<String> {
    let cs = chars_of(s);
    word_spans(&cs).iter().map(|&(a, b)| cs[a..b].iter().collect()).collect()
}

#[test]
fn words_match_split_whitespace() {
    for s in [
        "",
        "   ",
        "MOV R1, 10",
        "  MOV\tR1,\n10  ",
        "a\u{a0}b\u{3000}c\u{2009}d",
        "x",
        " trailing ",
        "ßtore R1 2",
    ] {
        let expected: Vec<String> = s.split_whitespace().map(|w| w.to_string()).collect();
        assert_eq!(words_of(s), expected, "text {:?}", s);
    }
}

#[test]
fn trailing_commas_are_trimmed() {
    let cs = chars_of("R1,,,");
    assert_eq!(trim_commas_end(&cs, 0, cs.len()), 2);
    let cs = chars_of(",");
    assert_eq!(trim_commas_end(&cs, 0, cs.len()), 0);
    let cs = chars_of("R1,x");
    assert_eq!(trim_commas_end(&cs, 0, cs.len()), 4);
}

fn mnemonic(s: &str) -> Option<Mnemonic> {
    let cs = chars_of(s);
    mnemonic_at(&cs, 0, cs.len())
}

#[test]
fn mnemonics_are_read_in_any_case() {
    assert_eq!(mnemonic("MOV"), Some(Mnemonic::Mov));
    assert_eq!(mnemonic("mov"), Some(Mnemonic::Mov));
    assert_eq!(mnemonic("xOr"), Some(Mnemonic::Xor));
    assert_eq!(mnemonic("\u{fb06}ore"), Some(Mnemonic::Store));
    assert_eq!(mnemonic("\u{fb05}ate"), Some(Mnemonic::State));
    assert_eq!(mnemonic("exit"), Some(Mnemonic::Exit));
    assert_eq!(mnemonic("load"), Some(Mnemonic::Load));
    assert_eq!(mnemonic("MOVE"), None);
    assert_eq!(mnemonic("MO"), None);
    assert_eq!(mnemonic("M0V"), None);
    assert_eq!(mnemonic(""), None);
    for word in ["mov", "ADD", "sub", "MuL", "div", "and", "or", "xor", "not", "shl", "shr", "load", "store", "exit", "state", "ſhl", "dıv"] {
        let upper = word.to_uppercase();
        let expected = match upper.as_str() {
            "MOV" => Some(Mnemonic::Mov),
            "ADD" => Some(Mnemonic::Add),
            "SUB" => Some(Mnemonic::Sub),
            "MUL" => Some(Mnemonic::Mul),
            "DIV" => Some(Mnemonic::Div),
            "AND" => Some(Mnemonic::And),
            "OR" => Some(Mnemonic::Or),
            "XOR" => Some(Mnemonic::Xor),
            "NOT" => Some(Mnemonic::Not),
            "SHL" => Some(Mnemonic::Shl),
            "SHR" => Some(Mnemonic::Shr),
            "LOAD" => Some(Mnemonic::Load),
            "STORE" => Some(Mnemonic::Store),
            "EXIT" => Some(Mnemonic::Exit),
            "STATE" => Some(Mnemonic::State),
            _ => None,
        };
        assert_eq!(mnemonic(word), expected, "word {:?}", word);
    }
}

const SAMPLES: &[&str] = &[
    "", "0", "7", "-7", "+7", "-", "+", "--1", "+-1", "-+1", "12a", "a12", " 1", "1 ", "007",
    "2147483647", "2147483648", "-2147483648", "-2147483649", "4294967295", "4294967296",
    "18446744073709551615", "18446744073709551616",
    "340282366920938463463374607431768211455", "340282366920938463463374607431768211456",
    "99999999999999999999999999999999999999999999", "ff", "FF", "fF", "+ff", "-ff", "1_0", "٣",
];

fn span(s: &str) -> (Vec<char>, usize) {
    let cs = chars_of(s);
    let n = cs.len();
    (cs, n)
}

#[test]
fn i32_literals_match_std() {
    for s in SAMPLES {
        let (cs, n) = span(s);
        assert_eq!(i32_literal_at(&cs, 0, n), s.parse::<i32>().ok(), "text {:?}", s);
    }
}

#[test]
fn u128_literals_match_std() {
    for s in SAMPLES {
        let (cs, n) = span(s);
        assert_eq!(u128_literal_at(&cs, 0, n, 10), s.parse::<u128>().ok(), "text {:?}", s);
        assert_eq!(u128_literal_at(&cs, 0, n, 16), u128::from_str_radix(s, 16).ok(), "text {:?}", s);
    }
}

#[test]
fn usize_literals_match_std() {
    for s in SAMPLES {
        let (cs, n) = span(s);
        assert_eq!(usize_literal_at(&cs, 0, n), s.parse::<usize>().ok(), "text {:?}", s);
    }
}

#[test]
fn register_names_are_decimal() {
    assert_eq!(register_name_string(0), "R0");
    assert_eq!(register_name_string(12), "R12");
    assert_eq!(register_name_string(usize::MAX), format!("R{}", usize::MAX));
}

#[test]
fn decimal_text_reads_back() {
    for n in [0usize, 9, 10, 99, 100, 65535, usize::MAX] {
        let name = register_name_string(n);
        let (cs, len) = span(&name);
        assert_eq!(usize_literal_at(&cs, 1, len), Some(n));
    }
}
