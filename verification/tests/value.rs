use kvstore::KvEnum;

#[test]
fn from_text_reads_truth_values() {
    assert_eq!(KvEnum::from_text("true"), KvEnum::Bool(true));
    assert_eq!(KvEnum::from_text("false"), KvEnum::Bool(false));
}

#[test]
fn from_text_reads_only_the_exact_words_as_truth_values() {
    assert_eq!(KvEnum::from_text("True"), KvEnum::Str("True".to_string()));
    assert_eq!(KvEnum::from_text("FALSE"), KvEnum::Str("FALSE".to_string()));
    assert_eq!(KvEnum::from_text("true "), KvEnum::Str("true ".to_string()));
    assert_eq!(KvEnum::from_text("tru"), KvEnum::Str("tru".to_string()));
    assert_eq!(KvEnum::from_text("truth"), KvEnum::Str("truth".to_string()));
    assert_eq!(KvEnum::from_text("falsy"), KvEnum::Str("falsy".to_string()));
    assert_eq!(KvEnum::from_text("1true"), KvEnum::Str("1true".to_string()));
}

#[test]
fn from_text_reads_numerals() {
    assert_eq!(KvEnum::from_text("0"), KvEnum::Int(0));
    assert_eq!(KvEnum::from_text("7"), KvEnum::Int(7));
    assert_eq!(KvEnum::from_text("42"), KvEnum::Int(42));
    assert_eq!(KvEnum::from_text("1234567890"), KvEnum::Int(1234567890));
    assert_eq!(KvEnum::from_text("007"), KvEnum::Int(7));
    assert_eq!(KvEnum::from_text("000"), KvEnum::Int(0));
    assert_eq!(KvEnum::from_text("+42"), KvEnum::Int(42));
    assert_eq!(KvEnum::from_text("+0"), KvEnum::Int(0));
}

#[test]
fn from_text_agrees_with_the_standard_parser() {
    let samples = [
        "", "+", "-", "0", "+0", "-0", "12", "+12", "-12", "++1", "+-1", "1+", "1 ", " 1", "1_000",
        "0x10", "1e3", "1.0", "٣", "１", "99999999999999999999999999", "00000000000000000000000001",
        "4294967295", "4294967296", "18446744073709551615", "18446744073709551616", "abc", "12a",
    ];
    for raw in samples {
        let expected = match raw.parse::<usize>() {
            Ok(number) => KvEnum::Int(number),
            Err(_) => KvEnum::Str(raw.to_string()),
        };
        assert_eq!(KvEnum::from_text(raw), expected, "raw text {:?}", raw);
    }
}

#[test]
fn from_text_reads_the_largest_number() {
    let largest = usize::MAX.to_string();
    assert_eq!(KvEnum::from_text(&largest), KvEnum::Int(usize::MAX));
    let with_sign = format!("+{}", largest);
    assert_eq!(KvEnum::from_text(&with_sign), KvEnum::Int(usize::MAX));
}

#[test]
fn from_text_keeps_a_number_too_large_as_text() {
    let too_large = format!("{}0", usize::MAX);
    assert_eq!(KvEnum::from_text(&too_large), KvEnum::Str(too_large.clone()));
    let next = "18446744073709551616";
    if usize::MAX as u128 == u64::MAX as u128 {
        assert_eq!(KvEnum::from_text(next), KvEnum::Str(next.to_string()));
    }
    let long = "340282366920938463463374607431768211456";
    assert_eq!(KvEnum::from_text(long), KvEnum::Str(long.to_string()));
}

#[test]
fn from_text_keeps_what_is_no_numeral_as_text() {
    assert_eq!(KvEnum::from_text(""), KvEnum::Str(String::new()));
    assert_eq!(KvEnum::from_text("+"), KvEnum::Str("+".to_string()));
    assert_eq!(KvEnum::from_text("-1"), KvEnum::Str("-1".to_string()));
    assert_eq!(KvEnum::from_text("++1"), KvEnum::Str("++1".to_string()));
    assert_eq!(KvEnum::from_text("1+"), KvEnum::Str("1+".to_string()));
    assert_eq!(KvEnum::from_text("4 2"), KvEnum::Str("4 2".to_string()));
    assert_eq!(KvEnum::from_text(" 42"), KvEnum::Str(" 42".to_string()));
    assert_eq!(KvEnum::from_text("42 "), KvEnum::Str("42 ".to_string()));
    assert_eq!(KvEnum::from_text("4.2"), KvEnum::Str("4.2".to_string()));
    assert_eq!(KvEnum::from_text("0x2a"), KvEnum::Str("0x2a".to_string()));
    assert_eq!(KvEnum::from_text("hello"), KvEnum::Str("hello".to_string()));
    assert_eq!(KvEnum::from_text("٤٢"), KvEnum::Str("٤٢".to_string()));
}

#[test]
fn to_text_writes_each_kind_of_value() {
    assert_eq!(KvEnum::Int(0).to_text(), "0");
    assert_eq!(KvEnum::Int(9).to_text(), "9");
    assert_eq!(KvEnum::Int(10).to_text(), "10");
    assert_eq!(KvEnum::Int(42).to_text(), "42");
    assert_eq!(KvEnum::Int(1000).to_text(), "1000");
    assert_eq!(KvEnum::Int(9876543210).to_text(), "9876543210");
    assert_eq!(KvEnum::Int(usize::MAX).to_text(), usize::MAX.to_string());
    assert_eq!(KvEnum::Bool(true).to_text(), "true");
    assert_eq!(KvEnum::Bool(false).to_text(), "false");
    assert_eq!(KvEnum::Str("hello".to_string()).to_text(), "hello");
    assert_eq!(KvEnum::Str(String::new()).to_text(), "");
}

#[test]
fn push_text_appends_to_what_is_there() {
    let mut out = String::from("n=");
    KvEnum::Int(305).push_text(&mut out);
    assert_eq!(out, "n=305");
    KvEnum::Bool(false).push_text(&mut out);
    assert_eq!(out, "n=305false");
    KvEnum::Str("é!".to_string()).push_text(&mut out);
    assert_eq!(out, "n=305falseé!");
}

#[test]
fn to_text_then_from_text_gives_back_numbers_and_truth_values() {
    for number in [0usize, 1, 9, 10, 11, 99, 100, 101, 65535, 65536, usize::MAX - 1, usize::MAX] {
        let value = KvEnum::Int(number);
        assert_eq!(KvEnum::from_text(&value.to_text()), value);
    }
    for truth in [true, false] {
        let value = KvEnum::Bool(truth);
        assert_eq!(KvEnum::from_text(&value.to_text()), value);
    }
}

#[test]
fn clone_gives_an_equal_value() {
    let values = [KvEnum::Int(5), KvEnum::Str("five".to_string()), KvEnum::Bool(true)];
    for value in values.iter() {
        assert_eq!(&value.clone(), value);
    }
}
