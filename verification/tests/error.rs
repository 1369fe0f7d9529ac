use roll_dice::error::Error;
use roll_dice::roll;

#[test]
fn fixed_messages() {
    assert_eq!(Error::overflow().message, "integer overflow");
    assert_eq!(Error::divide_by_zero().message, "can't divide by zero");
    assert_eq!(Error::roll_min_times().message, "can't roll less than 0 times");
    assert_eq!(Error::roll_min_sides().message, "can't roll a less than 0-sided die");
    assert_eq!(Error::too_many_rolls().message, "too many rolls");
    assert_eq!(Error::unexpected_eof().message, "unexpected end of input");
}

#[test]
fn messages_that_quote() {
    assert_eq!(Error::unexpected_input("*").message, "unexpected input: \"*\"");
    assert_eq!(Error::unexpected_input("").message, "unexpected input: \"\"");
    assert_eq!(Error::unexpected_input("a\"b\\c\n").message, "unexpected input: \"a\\\"b\\\\c\\n\"");
    assert_eq!(Error::unexpected_input("it's").message, "unexpected input: \"it's\"");
    assert_eq!(Error::expected_input(")", "+").message, "expected \")\", got \"+\"");
    assert_eq!(Error::expected_input("\t", "\u{7f}").message, "expected \"\\t\", got \"\\u{7f}\"");
    assert_eq!(Error::expected_before_end(")").message, "expected \")\", got end of input");
    assert_eq!(
        Error::invalid_integer("12x", "invalid digit found in string").message,
        "invalid integer \"12x\": invalid digit found in string"
    );
}

#[test]
fn quoting_is_that_of_debug() {
    for text in ["", "plain", "\"", "\\", "\r\n\t", "\u{0}\u{1b}", "\u{e9}\u{301}", "\u{feff}x"] {
        assert_eq!(Error::unexpected_input(text).message, format!("unexpected input: {text:?}"));
        assert_eq!(
            Error::expected_input(text, text).message,
            format!("expected {text:?}, got {text:?}")
        );
    }
}

#[test]
fn new_keeps_the_message() {
    assert_eq!(Error::new("anything").message, "anything");
    assert_eq!(Error::new(""), Error { message: String::new() });
    assert_ne!(Error::new("a"), Error::new("b"));
}

#[test]
fn printed_with_a_prefix() {
    assert_eq!(Error::new("too many rolls").to_string(), "error: too many rolls");
    assert_eq!(Error::overflow().to_string(), "error: integer overflow");
}

#[test]
fn text_is_compiled_and_evaluated() {
    assert_eq!(roll("10 + 5", 0, 0), Ok(15));
    assert_eq!(roll("1d20", 1423, u64::MAX), Ok(12));
    assert_eq!(roll("3d6+2", 7, 3), Ok(17));
    assert_eq!(roll("(1d20)d(1d20)", 0, u64::MAX), Ok(16));
    assert_eq!(roll("(1d20)d(1d20)", 1, u64::MAX), Ok(70));
    assert_eq!(roll("(1d20)d(1d20)", 2, u64::MAX), Ok(113));
    assert_eq!(roll("(1d20)d(1d20)", 3, u64::MAX), Ok(7));
    assert_eq!(roll("(1d20)d(1d20)", 1, 16), Err(Error::too_many_rolls()));
    assert_eq!(roll("1000000000d1000000000", 0, 1000), Err(Error::too_many_rolls()));
    assert_eq!(roll("10 * asd", 0, 0), Err(Error::new("unexpected input: \"as\"")));
    assert_eq!(roll("1/0", 0, 0), Err(Error::divide_by_zero()));
    assert_eq!(roll("", 0, 0), Err(Error::unexpected_eof()));
}

#[test]
fn the_same_seed_gives_the_same_result() {
    for seed in [0u64, 1, 99, u64::MAX] {
        for text in ["100d6", "(1d20)d(1d20)", "d1000000 * d1000000", "1/(d2-1)", "2d"] {
            assert_eq!(roll(text, seed, 100), roll(text, seed, 100));
        }
    }
}

#[test]
fn dice_stay_within_their_faces() {
    for seed in 0..200u64 {
        let one = roll("1d6", seed, 1).unwrap();
        assert!((1..=6).contains(&one));
        let three = roll("3d6", seed, 3).unwrap();
        assert!((3..=18).contains(&three));
    }
}
