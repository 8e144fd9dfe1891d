use salary_pipeline::bark_generic;
use salary_pipeline::bark_integer;
use salary_pipeline::bark_something;
use salary_pipeline::decimal::{push_decimal, push_digits};
use salary_pipeline::fixed::round_div_wide;
use salary_pipeline::number::{parse_integer, parse_number};
use salary_pipeline::root::isqrt;
use salary_pipeline::sorting::sort;
use salary_pipeline::text::{chars_of, compare_text, split_text, string_of, Place};

fn chars(s: &str) -> Vec<char> {
    s.chars().collect()
}

#[test]
fn integer_dog_barks() {
    assert_eq!(bark_integer::run(), vec!["Bark! Bark! I'm an integer: 42"]);
    assert_eq!(bark_integer::Dog::bark(&-7), "Bark! Bark! I'm an integer: -7");
    assert_eq!(bark_integer::Dog::bark(&i32::MIN), "Bark! Bark! I'm an integer: -2147483648");
}

#[test]
fn anything_written_out_barks() {
    assert_eq!(
        bark_something::run(),
        vec!["Bark! Bark! I'm something: 42", "Bark! Bark! I'm something: hello"]
    );
    assert_eq!(bark_something::Dog::bark(&0), "Bark! Bark! I'm something: 0");
    assert_eq!(bark_something::Dog::bark(&""), "Bark! Bark! I'm something: ");
}

#[test]
fn make_dog_bark_lets_any_dog_bark() {
    assert_eq!(
        bark_generic::run(),
        vec!["Bark! Bark! I'm something: 42", "Bark! Bark! I'm something: hello"]
    );
    assert_eq!(bark_generic::make_dog_bark(1000), "Bark! Bark! I'm something: 1000");
    assert_eq!(bark_generic::make_dog_bark("wuff"), "Bark! Bark! I'm something: wuff");
}

#[test]
fn decimal_notation() {
    let mut s = String::from("n=");
    push_decimal(&mut s, 0);
    s.push(' ');
    push_decimal(&mut s, -120);
    s.push(' ');
    push_decimal(&mut s, i64::MAX);
    s.push(' ');
    push_decimal(&mut s, i64::MIN);
    s.push(' ');
    push_digits(&mut s, u64::MAX);
    assert_eq!(
        s,
        "n=0 -120 9223372036854775807 -9223372036854775808 18446744073709551615"
    );
}

#[test]
fn strings_and_characters_convert_both_ways() {
    assert_eq!(chars_of("añb"), vec!['a', 'ñ', 'b']);
    assert_eq!(chars_of(""), Vec::<char>::new());
    assert_eq!(string_of(&vec!['a', 'b']), "ab");
    assert_eq!(string_of(&Vec::new()), "");
    assert_eq!(string_of(&chars_of("Data Scientist")), "Data Scientist");
}

#[test]
fn texts_compare_lexicographically() {
    assert_eq!(compare_text(&chars("abc"), &chars("abd")), Place::Before);
    assert_eq!(compare_text(&chars("abc"), &chars("abc")), Place::Same);
    assert_eq!(compare_text(&chars("abd"), &chars("abc")), Place::After);
    assert_eq!(compare_text(&chars("ab"), &chars("abc")), Place::Before);
    assert_eq!(compare_text(&chars("abc"), &chars("ab")), Place::After);
    assert_eq!(compare_text(&chars(""), &chars("")), Place::Same);
    assert_eq!(compare_text(&chars(""), &chars("a")), Place::Before);
    assert_eq!(compare_text(&chars("B"), &chars("a")), Place::Before);
}

#[test]
fn split_cuts_at_every_separator() {
    let pieces = |s: &str| -> Vec<String> {
        split_text(&chars(s), ',').iter().map(|p| p.iter().collect()).collect()
    };
    assert_eq!(pieces("a,b,c"), vec!["a", "b", "c"]);
    assert_eq!(pieces(""), vec![""]);
    assert_eq!(pieces(","), vec!["", ""]);
    assert_eq!(pieces("a,,b,"), vec!["a", "", "b", ""]);
    assert_eq!(pieces("abc"), vec!["abc"]);
}

#[test]
fn integers_are_parsed() {
    assert_eq!(parse_integer(&chars("2022")), Some(2022));
    assert_eq!(parse_integer(&chars("-5")), Some(-5));
    assert_eq!(parse_integer(&chars("+5")), Some(5));
    assert_eq!(parse_integer(&chars("007")), Some(7));
    assert_eq!(parse_integer(&chars("-0")), Some(0));
    assert_eq!(parse_integer(&chars("2147483647")), Some(i32::MAX));
    assert_eq!(parse_integer(&chars("-2147483648")), Some(i32::MIN));
    assert_eq!(parse_integer(&chars("2147483648")), None);
    assert_eq!(parse_integer(&chars("")), None);
    assert_eq!(parse_integer(&chars("+")), None);
    assert_eq!(parse_integer(&chars("1-")), None);
    assert_eq!(parse_integer(&chars("1.0")), None);
}

#[test]
fn numbers_are_parsed() {
    assert_eq!(parse_number(&chars("100501.7")), Some(100_501_700_000));
    assert_eq!(parse_number(&chars("2.5")), Some(2_500_000));
    assert_eq!(parse_number(&chars("-2.5")), Some(-2_500_000));
    assert_eq!(parse_number(&chars("3")), Some(3_000_000));
    assert_eq!(parse_number(&chars("3.")), Some(3_000_000));
    assert_eq!(parse_number(&chars(".5")), Some(500_000));
    assert_eq!(parse_number(&chars("-.5")), Some(-500_000));
    assert_eq!(parse_number(&chars("0.1234567")), Some(123_457));
    assert_eq!(parse_number(&chars("0.12345649")), Some(123_456));
    assert_eq!(parse_number(&chars("0.9999995")), Some(1_000_000));
    assert_eq!(parse_number(&chars("-0.0000004")), Some(0));
    assert_eq!(parse_number(&chars("1e3")), None);
    assert_eq!(parse_number(&chars("")), None);
    assert_eq!(parse_number(&chars(".")), None);
    assert_eq!(parse_number(&chars("1..2")), None);
    assert_eq!(parse_number(&chars("1.-2")), None);
    assert_eq!(parse_number(&chars("NaN")), None);
}

#[test]
fn quotients_round_to_nearest() {
    assert_eq!(round_div_wide(7, 2), 4);
    assert_eq!(round_div_wide(-7, 2), -4);
    assert_eq!(round_div_wide(7, 3), 2);
    assert_eq!(round_div_wide(8, 3), 3);
    assert_eq!(round_div_wide(-8, 3), -3);
    assert_eq!(round_div_wide(0, 5), 0);
    assert_eq!(round_div_wide(i128::MIN, 1), i128::MIN);
    assert_eq!(round_div_wide(i128::MAX, 1), i128::MAX);
    assert_eq!(round_div_wide(i128::MAX, u128::MAX), 0);
    assert_eq!(round_div_wide(i128::MIN, u128::MAX), -1);
}

#[test]
fn square_roots_round_down() {
    assert_eq!(isqrt(0), 0);
    assert_eq!(isqrt(1), 1);
    assert_eq!(isqrt(3), 1);
    assert_eq!(isqrt(4), 2);
    assert_eq!(isqrt(99), 9);
    assert_eq!(isqrt(100), 10);
    assert_eq!(isqrt(u128::MAX), u64::MAX);
    assert_eq!(isqrt((1u128 << 64) - 1), (1u64 << 32) - 1);
}

#[test]
fn sort_gives_an_ascending_copy() {
    let v = vec![5, -1, 3, 3, i64::MIN, 9, 0, i64::MAX, -1];
    let sorted = sort(&v);
    assert_eq!(sorted, vec![i64::MIN, -1, -1, 0, 3, 3, 5, 9, i64::MAX]);
    assert_eq!(v[0], 5);
    assert_eq!(sort(&Vec::new()), Vec::<i64>::new());
    assert_eq!(sort(&vec![1]), vec![1]);
}
