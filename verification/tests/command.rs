use roll_dice::command::{parse_cmd, Command};
use roll_dice::error::Error;
use roll_dice::eval::Op;

fn seed(line: &str) -> Option<u64> {
    match parse_cmd(line) {
        Ok(Command::SetSeed(seed)) => seed,
        other => panic!("{line:?} gave {other:?}"),
    }
}

fn refused(line: &str) -> String {
    match parse_cmd(line) {
        Err(Error { message }) => message,
        other => panic!("{line:?} gave {other:?}"),
    }
}

#[test]
fn the_seed_is_printed() {
    for line in ["!seed", "!seed ", "!seed \t\u{a0}\u{3000} ", "!seed\n"] {
        assert!(matches!(parse_cmd(line), Ok(Command::PrintSeed)), "{line:?}");
    }
}

#[test]
fn a_fresh_seed_is_asked_for() {
    for line in ["!seed none", "!seednone", "!seed   none  ", "!seed\tnone\n"] {
        assert_eq!(seed(line), None, "{line:?}");
    }
}

#[test]
fn a_seed_is_set() {
    assert_eq!(seed("!seed 42"), Some(42));
    assert_eq!(seed("!seed42"), Some(42));
    assert_eq!(seed("!seed 0"), Some(0));
    assert_eq!(seed("!seed +7"), Some(7));
    assert_eq!(seed("!seed 007 "), Some(7));
    assert_eq!(seed("!seed 18446744073709551615"), Some(u64::MAX));
    assert_eq!(seed("!seed 000000000000000000000018446744073709551615"), Some(u64::MAX));
}

#[test]
fn what_is_no_seed_is_refused() {
    for line in [
        "!seed x",
        "!seed -1",
        "!seed +",
        "!seed ++1",
        "!seed 1 2",
        "!seed 1+",
        "!seed 18446744073709551616",
        "!seed 99999999999999999999999999",
        "!seed 99999999999999999999999999x",
        "!seed None",
        "!seed nonee",
        "!seed non",
        "!seed \u{661}",
        "!seeds",
    ] {
        assert_eq!(refused(line), "failed to parse seed", "{line:?}");
    }
}

#[test]
fn seeds_are_those_of_std() {
    for text in [
        "1", "+1", "-1", "+", "-", "", " ", "12a", "a12", "0x10", "1_000", "18446744073709551615",
        "18446744073709551616", "+18446744073709551615", "00", "\u{ff11}", "1e3", "1.0", "+-1",
    ] {
        let line = format!("!seed {text}");
        let rest = line.strip_prefix("!seed").unwrap().trim();
        if rest.is_empty() {
            assert!(matches!(parse_cmd(&line), Ok(Command::PrintSeed)));
        } else {
            match rest.parse::<u64>() {
                Ok(value) => assert_eq!(seed(&line), Some(value), "{line:?}"),
                Err(_) => assert_eq!(refused(&line), "failed to parse seed", "{line:?}"),
            }
        }
    }
}

#[test]
fn trimming_is_that_of_std() {
    for code in 0..=0x3100u32 {
        if let Some(c) = char::from_u32(code) {
            let line = format!("!seed{c}5{c}");
            let rest = line.strip_prefix("!seed").unwrap().trim();
            match rest.parse::<u64>() {
                Ok(value) => assert_eq!(seed(&line), Some(value), "{code:#x}"),
                Err(_) => assert_eq!(refused(&line), "failed to parse seed", "{code:#x}"),
            }
        }
    }
}

#[test]
fn other_lines_are_rolls() {
    match parse_cmd("3d6 + 2") {
        Ok(Command::Eval(roll)) => {
            assert_eq!(roll.ops, vec![Op::Num(3), Op::Num(6), Op::Dice, Op::Num(2), Op::Add]);
            assert_eq!(roll.stack_size, 2);
            assert!(roll.is_well_formed());
        }
        other => panic!("{other:?}"),
    }
    assert!(matches!(parse_cmd("7"), Ok(Command::Eval(_))));
    assert!(matches!(parse_cmd("d6 !seed"), Err(_)));
}

#[test]
fn what_is_no_roll_is_refused() {
    for line in ["", " ", "seed", "!", "!see", " !seed", "!Seed 1", "!SEED", "1 +", "(1", "abc"] {
        assert_eq!(refused(line), "failed to parse roll", "{line:?}");
    }
}
