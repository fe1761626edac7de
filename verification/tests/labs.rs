use rust_labs::lab01::{bottles_of_beer, coprime, prime};
use rust_labs::lab02::{add_chars_n, add_chars_n2, add_float_digits, add_integer, add_space, add_str};
use rust_labs::lab03::{
    addition, addition_r, char_to_number, char_to_number_hex, multiplication, multiplication_r,
    next_prime, print_char_text, to_lowercase, to_uppercase, ErrorChar,
};
use rust_labs::lab03_ops::{compute_op, ErrorOp};
use rust_labs::lab04::{expand_abbreviations, key_value_report, longest_lines, pb2};
use rust_labs::lab06::{LineAction, Terminal};
use rust_labs::text::{decimal_string, parse_usize};

#[test]
fn prime_small_values() {
    let primes: Vec<i32> = (0..30).filter(|&a| prime(a)).collect();
    assert_eq!(primes, vec![2, 3, 5, 7, 11, 13, 17, 19, 23, 29]);
}

#[test]
fn prime_accepts_negative_numbers() {
    assert!(prime(-7));
    assert!(prime(-4));
    assert!(!prime(0));
    assert!(!prime(1));
}

#[test]
fn coprime_pairs() {
    assert!(coprime(8, 15));
    assert!(!coprime(12, 18));
    assert!(coprime(1, 100));
    assert!(coprime(1, 1));
    assert!(!coprime(7, 7));
    assert!(!coprime(0, 0));
}

#[test]
fn coprime_is_symmetric_on_examples() {
    for a in 1..40 {
        for b in 1..40 {
            assert_eq!(coprime(a, b), coprime(b, a));
        }
    }
}

#[test]
fn bottles_song_start_and_end() {
    let song = bottles_of_beer();
    assert!(song.starts_with("99 bottles of beer on the wall,\n99 bottles of beer,\nTake one down, pass it around,\n98 bottles of beer on the wall.\n \n"));
    assert!(song.ends_with("2 bottles of beer on the wall,\n2 bottles of beer,\nTake one down, pass it around,\n1 bottles of beer on the wall.\n \n1 bottle of beer on the wall,\n1 bottle of beer,\nTake one down, pass it around,\nNo bottles of beer on the wall.\n \n"));
    assert_eq!(song.matches("Take one down").count(), 99);
}

#[test]
fn chars_and_spaces() {
    assert_eq!(add_chars_n(String::from("ab"), 'x', 3), "abxxx");
    assert_eq!(add_chars_n(String::from("ab"), 'x', -2), "ab");
    let mut s = String::from("q");
    add_chars_n2(&mut s, 'z', 2);
    assert_eq!(s, "qzz");
    assert_eq!(add_space(String::from("I"), 2), "I  ");
    assert_eq!(add_str(String::from("RUST"), String::from(".")), "RUST.");
}

#[test]
fn alphabet_pyramid_start() {
    let mut s = String::new();
    for i in 0..3u8 {
        s = add_chars_n(s, (i + b'a') as char, 26 - i as i32);
    }
    assert_eq!(s.len(), 26 + 25 + 24);
    assert!(s.starts_with("aaaa"));
    assert!(s.ends_with("bcccccccccccccccccccccccc"));
}

#[test]
fn integers_with_separators() {
    assert_eq!(add_integer(String::new(), 306437968), "306_437_968");
    assert_eq!(add_integer(String::new(), 1234567), "1_234_567");
    assert_eq!(add_integer(String::new(), 12), "12");
    assert_eq!(add_integer(String::from("x"), 0), "x");
    assert_eq!(add_integer(String::from("x"), -5), "x");
}

#[test]
fn integers_lose_trailing_zeros() {
    assert_eq!(add_integer(String::new(), 100), "1");
    assert_eq!(add_integer(String::new(), 1000), "1_");
    assert_eq!(add_integer(String::new(), 1200300), "1_200_3");
}

#[test]
fn float_digits() {
    assert_eq!(add_float_digits(String::new(), 2, 38), "2.038");
    assert_eq!(add_float_digits(String::new(), -10, 0), "0.000");
    assert_eq!(add_float_digits(String::from("x"), -2147483640, -1000), "x0.000");
    assert_eq!(add_float_digits(String::new(), 1234, 500), "1_234.500");
    assert_eq!(add_float_digits(String::new(), 0, 5), "00.005");
    assert_eq!(add_float_digits(String::new(), 1000000, 1000), "1_000_000.000");
    assert_eq!(add_float_digits(String::new(), 3, -1000), "3.000");
}

#[test]
fn next_prime_values() {
    assert_eq!(next_prime(0), Some(1));
    assert_eq!(next_prime(1), Some(2));
    assert_eq!(next_prime(7), Some(11));
    assert_eq!(next_prime(62591), Some(62597));
    assert_eq!(next_prime(65521), None);
    assert_eq!(next_prime(65534), None);
}

#[test]
fn checked_arithmetic() {
    assert_eq!(addition(123, 345), 468);
    assert_eq!(multiplication(1234, 3), 3702);
    assert_eq!(addition_r(1, 2), Ok(3));
    assert_eq!(addition_r(2000000000, 1500000000), Ok(3500000000));
    assert_eq!(addition_r(3000000000, 1500000000), Err("!!!!the value doesnt fit in an u32!!!!"));
    assert_eq!(addition_r(u32::MAX - 1, 1), Err("!!!!the value doesnt fit in an u32!!!!"));
    assert_eq!(multiplication_r(50000, 100000), Err("!!!!the value doesnt fit in an u32!!!!"));
    assert_eq!(multiplication_r(90000, 3), Ok(270000));
}

#[test]
fn compute_op_results() {
    assert_eq!(compute_op(1234, 45678), Ok((46912, 56366652)));
    assert_eq!(compute_op(1234564, 45345678), Err(ErrorOp::Mutipl));
    assert_eq!(compute_op(u32::MAX, u32::MAX), Err(ErrorOp::Addit));
}

#[test]
fn letters_and_digits() {
    assert_eq!(to_uppercase(b'a'), Ok(b'A'));
    assert_eq!(to_uppercase(b'Q'), Ok(b'Q'));
    assert_eq!(to_lowercase(b'G'), Ok(b'g'));
    assert_eq!(to_lowercase(b'1'), Err(ErrorChar::NonLetter));
    assert_eq!(to_uppercase(200), Err(ErrorChar::NonLetter));
    assert_eq!(char_to_number(b'8'), Ok(8));
    assert_eq!(char_to_number(b'x'), Err(ErrorChar::NonDigit));
    assert_eq!(char_to_number(0xC3), Err(ErrorChar::NonAscii));
    assert_eq!(char_to_number_hex(b'F'), Ok(15));
    assert_eq!(char_to_number_hex(b'a'), Ok(10));
    assert_eq!(char_to_number_hex(b'7'), Ok(7));
    assert_eq!(char_to_number_hex(b'g'), Err(ErrorChar::NonBase16Digit));
    assert_eq!(char_to_number_hex(0xFF), Err(ErrorChar::NonAscii));
}

#[test]
fn hex_agrees_with_decimal_on_digits() {
    for c in 0..=255u8 {
        if let Ok(v) = char_to_number(c) {
            assert_eq!(char_to_number_hex(c), Ok(v));
        }
    }
}

#[test]
fn case_round_trip() {
    for c in (b'a'..=b'z').chain(b'A'..=b'Z') {
        let up = to_uppercase(c).unwrap();
        assert_eq!(to_lowercase(up), to_lowercase(c));
    }
}

#[test]
fn printable_bytes() {
    assert_eq!(print_char_text(b'A').unwrap(), "() 65");
    assert_eq!(print_char_text(200).unwrap(), "() 200");
    assert_eq!(print_char_text(b'\n'), Err(ErrorChar::NonPrintable));
    assert_eq!(print_char_text(127), Err(ErrorChar::NonPrintable));
    assert_eq!(ErrorChar::NonPrintable.message(), "char not printable");
    assert_eq!(ErrorChar::NonBase16Digit.message(), "char not a base 16 digit");
}

#[test]
fn rot13_words() {
    assert_eq!(pb2("ProgramareRust"), Ok(String::from("CebtenznerEhfg")));
    assert_eq!(pb2("Hello World"), Err(' '));
    assert_eq!(pb2("abc1"), Err('1'));
    assert_eq!(pb2(""), Ok(String::new()));
    let once = pb2("Zebra").unwrap();
    assert_eq!(pb2(&once), Ok(String::from("Zebra")));
}

#[test]
fn longest_lines_by_bytes_and_chars() {
    let r = longest_lines("ab\nțțț\nxyz\n");
    assert_eq!(r.by_bytes, "țțț");
    assert_eq!(r.bytes, 6);
    assert_eq!(r.by_chars, "țțț");
    assert_eq!(r.chars, 3);
    let r = longest_lines("abcd\nțțț\r\n");
    assert_eq!(r.by_bytes, "țțț");
    assert_eq!(r.bytes, 6);
    assert_eq!(r.by_chars, "abcd");
    assert_eq!(r.chars, 4);
    let r = longest_lines("\n\n");
    assert_eq!(r.by_bytes, "");
    assert_eq!(r.bytes, 0);
}

#[test]
fn abbreviations() {
    assert_eq!(
        expand_abbreviations("Multumesc dl Popescu pt ajutor si dna Ionescu ptr tot."),
        "Multumesc domnul Popescu pentru ajutor si doamna Ionescu pentru tot."
    );
    assert_eq!(expand_abbreviations("pt inceput"), "pt inceput");
    assert_eq!(expand_abbreviations("a pt pt b"), "a pentru pt b");
}

#[test]
fn key_value_lines() {
    assert_eq!(key_value_report("# comment\nname  ana extra\nsolo\n\n"), "name => ana\nsolo => \n => \n");
    assert_eq!(key_value_report(""), "");
}

#[test]
fn parse_and_print_numbers() {
    assert_eq!(parse_usize("42"), Some(42));
    assert_eq!(parse_usize("+7"), Some(7));
    assert_eq!(parse_usize("+"), None);
    assert_eq!(parse_usize("-1"), None);
    assert_eq!(parse_usize(""), None);
    assert_eq!(parse_usize("1a"), None);
    assert_eq!(parse_usize("99999999999999999999999"), None);
    assert_eq!(decimal_string(0), "0");
    assert_eq!(decimal_string(1007), "1007");
}

fn terminal() -> Terminal {
    let mut t = Terminal::new();
    for name in ["ping", "count", "times", "sum"] {
        t.register(String::from(name));
    }
    t
}

fn args_of(a: &LineAction) -> Vec<String> {
    match a {
        LineAction::Run { args, .. } | LineAction::Suggest { args, .. } => args.clone(),
        _ => vec![],
    }
}

#[test]
fn terminal_runs_known_commands() {
    let t = terminal();
    let a = t.interpret_line("  count a  b c ").unwrap();
    assert!(matches!(a, LineAction::Run { index: 1, .. }));
    assert_eq!(args_of(&a), vec!["a", "b", "c"]);
    let a = t.interpret_line("ping").unwrap();
    assert!(matches!(a, LineAction::Run { index: 0, .. }));
    assert!(args_of(&a).is_empty());
}

#[test]
fn terminal_blank_and_stop() {
    let t = terminal();
    assert!(matches!(t.interpret_line("   ").unwrap(), LineAction::Skip));
    assert!(matches!(t.interpret_line("stop now").unwrap(), LineAction::Stop));
}

#[test]
fn terminal_suggests_close_names() {
    let t = terminal();
    let a = t.interpret_line("PING 1").unwrap();
    assert!(matches!(a, LineAction::Suggest { index: 0, .. }));
    assert_eq!(args_of(&a), vec!["1"]);
    assert!(matches!(t.interpret_line("cound").unwrap(), LineAction::Suggest { index: 1, .. }));
    assert!(matches!(t.interpret_line("tames 2").unwrap(), LineAction::Suggest { index: 2, .. }));
    assert!(matches!(t.interpret_line("hello").unwrap(), LineAction::Invalid));
    assert!(matches!(t.interpret_line("pong").unwrap(), LineAction::Suggest { index: 0, .. }));
}

#[test]
fn terminal_refuses_lines_it_cannot_compare() {
    let t = terminal();
    // Four bytes like "ping" but only three characters.
    assert_eq!("aéb".len(), 4);
    assert!(t.interpret_line("aéb").is_none());
    assert!(t.interpret_line("aéb 1 2").is_none());
}

#[test]
fn primes_after_follows_next_prime() {
    let r = rust_labs::lab03::primes_after(62591);
    assert_eq!(&r[..5], &[62597, 62603, 62617, 62627, 62633]);
    assert_eq!(r.len(), 259);
    assert_eq!(*r.last().unwrap(), 65521);
    assert_eq!(rust_labs::lab03::primes_after(65521), Vec::<u16>::new());
    assert_eq!(rust_labs::lab03::primes_after(65534), Vec::<u16>::new());
}

#[test]
fn script_stops_at_stop_line() {
    let t = terminal();
    let (acts, fails) = t.script_actions("ping\n\nCount a b\nstop now\nping\naéb\n");
    assert!(!fails);
    assert_eq!(acts.len(), 4);
    assert!(matches!(acts[0], LineAction::Run { index: 0, .. }));
    assert!(matches!(acts[1], LineAction::Skip));
    assert!(matches!(acts[2], LineAction::Suggest { index: 1, .. }));
    assert_eq!(args_of(&acts[2]), vec!["a", "b"]);
    assert!(matches!(acts[3], LineAction::Stop));

    let (acts, fails) = t.script_actions("ping\nhello\n");
    assert!(!fails);
    assert_eq!(acts.len(), 2);
    assert!(matches!(acts[1], LineAction::Invalid));

    let (acts, fails) = t.script_actions("times\naéb\nstop\n");
    assert!(fails);
    assert_eq!(acts.len(), 1);

    let (acts, fails) = t.script_actions("");
    assert!(!fails);
    assert!(acts.is_empty());
}
