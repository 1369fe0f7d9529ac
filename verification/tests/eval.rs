use roll_dice::error::Error;
use roll_dice::eval::Op::{Add, Dice, Div, Mul, Neg, Num, Sub};
use roll_dice::eval::{roll, Op, Roll};
use roll_dice::parse::parse;
use roll_dice::rng::{fake, BasicRng, FakeRng, Rng};

/// A sampler that makes every die show the face in the middle.
struct Midpoint;

impl Rng for Midpoint {
    fn range(&mut self, max: u64) -> u64 {
        (max / 2).saturating_sub(1)
    }
}

fn check(input: &str, result: i64) {
    assert_eq!(
        parse(input).and_then(|roll| roll.eval_with_rng(u64::MAX, &mut Midpoint)),
        Ok(result)
    )
}

fn check_err(input: &str, err: &str, limit: u64) {
    assert_eq!(
        parse(input).and_then(|roll| roll.eval_with_rng(limit, &mut Midpoint)),
        Err(Error::new(err))
    )
}

#[test]
fn eval_test() {
    check("10 + 5", 15);
    check("10 - 5", 5);
    check("10 * 5", 50);
    check("10 / 5", 2);
    check("10 d 5", 10 * 2);
    check("- 5", -5);
    check("d 5", 2);
    check("10 d ( 50 + 50 )", 10 * 50);
    check("10 + 5 * 5", 35);
    check("10 * 5 + 5", 55);
    check_err("(-1)d1", "can't roll less than 0 times", u64::MAX);
    check_err("10d(-1)", "can't roll a less than 0-sided die", u64::MAX);
    check_err("2d5", "too many rolls", 1);
    check_err("1/0", "can't divide by zero", u64::MAX);
}

fn check_roll(seed: u64, times: u64, sides: u64, result: i64) {
    assert_eq!(
        roll(times, sides, &mut fake(Some(seed))),
        Ok(result),
        "failed to eval {}d{} with seed {}",
        times,
        sides,
        seed,
    )
}

#[test]
fn test_rolls() {
    check_roll(0, 0, 0, 0);
    check_roll(0, 1, 0, 0);
    check_roll(0, 0, 1, 0);

    check_roll(0, 1, 1, 1);
    check_roll(0, 1, 2, 1);

    check_roll(0, 1, 1000, 1);
    check_roll(1000, 1, 1000, 1000);

    check_roll(0, 2, 1000, 2);
    check_roll(1000, 2, 1000, 2000);

    check_roll(0, 100, 5, 100);
    check_roll(100, 100, 5, 500);
}

fn eval_with(input: &str, limit: u64, rng: &mut FakeRng) -> Result<i64, Error> {
    parse(input).and_then(|roll| roll.eval_with_rng(limit, rng))
}

#[test]
fn fixed_sampler_gives_times_one_plus_value() {
    for (k, n, v) in [(3u64, 6u64, 2u64), (10, 5, 100), (7, 1, 0), (4, 20, 19), (0, 6, 3), (5, 0, 3)] {
        let face = if n == 0 { 0 } else { 1 + v.min(n - 1) };
        assert_eq!(roll(k, n, &mut fake(Some(v))), Ok((k * face) as i64));
        assert_eq!(eval_with(&format!("{k}d{n}"), u64::MAX, &mut fake(Some(v))), Ok((k * face) as i64));
    }
}

#[test]
fn centered_sampler_shows_one_more_than_half() {
    assert_eq!(eval_with("10 d 5", u64::MAX, &mut fake(None)), Ok(30));
    assert_eq!(eval_with("d 5", u64::MAX, &mut fake(None)), Ok(3));
    assert_eq!(eval_with("10 d ( 50 + 50 )", u64::MAX, &mut fake(None)), Ok(510));
    assert_eq!(eval_with("1d1", u64::MAX, &mut fake(None)), Ok(1));
}

#[test]
fn round_trip_of_a_sum() {
    let compiled = parse("10 + 5").unwrap();
    assert_eq!(compiled.ops, vec![Num(10), Num(5), Add]);
    assert_eq!(compiled.eval_with_rng(u64::MAX, &mut fake(None)), Ok(15));
    assert_eq!(compiled.eval(0, 0), Ok(15));
}

#[test]
fn precedence_of_product_over_sum() {
    assert_eq!(eval_with("10 + 5 * 5", 0, &mut fake(None)), Ok(35));
    assert_eq!(eval_with("10 * 5 + 5", 0, &mut fake(None)), Ok(55));
    assert_eq!(eval_with("(10 + 5) * 5", 0, &mut fake(None)), Ok(75));
}

#[test]
fn guards_of_the_dice() {
    let e = |kind: Error| Err::<i64, Error>(kind);
    assert_eq!(eval_with("2d5", 1, &mut fake(None)), e(Error::too_many_rolls()));
    assert_eq!(eval_with("2d5", 2, &mut fake(None)), Ok(6));
    assert_eq!(eval_with("0d5", 0, &mut fake(None)), Ok(0));
    assert_eq!(eval_with("1d5", 0, &mut fake(None)), e(Error::too_many_rolls()));
    assert_eq!(eval_with("(-1)d1", u64::MAX, &mut fake(None)), e(Error::roll_min_times()));
    assert_eq!(eval_with("10d(-1)", u64::MAX, &mut fake(None)), e(Error::roll_min_sides()));
    assert_eq!(eval_with("(-1)d(-1)", u64::MAX, &mut fake(None)), e(Error::roll_min_times()));
    assert_eq!(eval_with("1/0", u64::MAX, &mut fake(None)), e(Error::divide_by_zero()));
    assert_eq!(eval_with("0/0", u64::MAX, &mut fake(None)), e(Error::divide_by_zero()));
}

#[test]
fn the_limit_comes_before_the_empty_die() {
    assert_eq!(eval_with("5d0", 4, &mut fake(None)), Err(Error::too_many_rolls()));
    assert_eq!(eval_with("5d0", 5, &mut fake(None)), Ok(0));
}

#[test]
fn division_rounds_toward_zero() {
    assert_eq!(eval_with("7/2", 0, &mut fake(None)), Ok(3));
    assert_eq!(eval_with("-7/2", 0, &mut fake(None)), Ok(-3));
    assert_eq!(eval_with("7/-2", 0, &mut fake(None)), Ok(-3));
    assert_eq!(eval_with("-7/-2", 0, &mut fake(None)), Ok(3));
    assert_eq!(eval_with("0/5", 0, &mut fake(None)), Ok(0));
    assert_eq!(eval_with("-1/2", 0, &mut fake(None)), Ok(0));
}

#[test]
fn arithmetic_overflows() {
    let overflow = Err::<i64, Error>(Error::overflow());
    assert_eq!(eval_with("9223372036854775807 + 1", 0, &mut fake(None)), overflow);
    assert_eq!(eval_with("9223372036854775807 + 0", 0, &mut fake(None)), Ok(i64::MAX));
    assert_eq!(eval_with("-9223372036854775807 - 1", 0, &mut fake(None)), Ok(i64::MIN));
    assert_eq!(eval_with("-9223372036854775807 - 2", 0, &mut fake(None)), overflow);
    assert_eq!(eval_with("4611686018427387904 * 2", 0, &mut fake(None)), overflow);
    assert_eq!(eval_with("4611686018427387904 * -2", 0, &mut fake(None)), Ok(i64::MIN));
    assert_eq!(eval_with("-(-9223372036854775807 - 1)", 0, &mut fake(None)), overflow);
    assert_eq!(eval_with("(-9223372036854775807 - 1) / -1", 0, &mut fake(None)), overflow);
    assert_eq!(eval_with("(-9223372036854775807 - 1) / 1", 0, &mut fake(None)), Ok(i64::MIN));
}

#[test]
fn dice_sums_overflow() {
    let overflow = Err::<i64, Error>(Error::overflow());
    let max = i64::MAX as u64;
    assert_eq!(roll(1, max, &mut fake(Some(u64::MAX))), Ok(i64::MAX));
    assert_eq!(roll(2, max, &mut fake(Some(u64::MAX))), overflow);
    assert_eq!(roll(1, u64::MAX, &mut fake(Some(max))), overflow);
    assert_eq!(roll(1, u64::MAX, &mut fake(Some(max - 1))), Ok(i64::MAX));
    assert_eq!(roll(1, u64::MAX, &mut fake(Some(u64::MAX))), overflow);
    assert_eq!(roll(1, u64::MAX, &mut fake(None)), overflow);
    assert_eq!(roll(1, u64::MAX - 1, &mut fake(None)), overflow);
    assert_eq!(roll(1, u64::MAX - 2, &mut fake(None)), Ok(i64::MAX));
    assert_eq!(roll(3, 6, &mut fake(Some(5))), Ok(18));
    assert_eq!(eval_with("3d9223372036854775807", u64::MAX, &mut fake(Some(u64::MAX))), overflow);
}

#[test]
fn dice_draw_once_each_and_no_dice_draw_nothing() {
    let mut rng = BasicRng::new(5);
    let mut twin = BasicRng::new(5);
    assert_eq!(roll(0, 6, &mut rng), Ok(0));
    assert_eq!(roll(6, 0, &mut rng), Ok(0));
    assert_eq!(rng.state, 5);
    let sum = roll(3, 6, &mut rng).unwrap();
    let by_hand = 3 + twin.range(6) + twin.range(6) + twin.range(6);
    assert_eq!(sum as u64, by_hand);
    assert_eq!(rng.state, twin.state);
}

#[test]
fn a_user_sampler_is_asked_once_per_die() {
    struct Counting(u64);
    impl Rng for Counting {
        fn range(&mut self, max: u64) -> u64 {
            self.0 += 1;
            max - 1
        }
    }
    let mut rng = Counting(0);
    assert_eq!(parse("4d6 + 2d8").unwrap().eval_with_rng(4, &mut rng), Ok(24 + 16));
    assert_eq!(rng.0, 6);
}

#[test]
fn a_roll_is_evaluated_many_times() {
    let compiled = parse("2d6 + 1").unwrap();
    assert_eq!(compiled.eval_with_rng(2, &mut fake(Some(0))), Ok(3));
    assert_eq!(compiled.eval_with_rng(2, &mut fake(Some(5))), Ok(13));
    assert_eq!(compiled.eval_with_rng(1, &mut fake(Some(5))), Err(Error::too_many_rolls()));
    assert_eq!(compiled.eval(9, 2), compiled.eval(9, 2));
}

#[test]
fn rolls_made_by_hand() {
    let ok = Roll { ops: vec![Num(6), Num(3), Sub, Neg], stack_size: 2 };
    assert!(ok.is_well_formed());
    assert_eq!(ok.eval(0, 0), Ok(-3));
    let roomy = Roll { ops: vec![Num(6), Num(3), Mul], stack_size: 9 };
    assert!(roomy.is_well_formed());
    assert_eq!(roomy.eval(0, 0), Ok(18));
    let left_right = Roll { ops: vec![Num(7), Num(2), Div], stack_size: 2 };
    assert_eq!(left_right.eval(0, 0), Ok(3));
    for (ops, stack_size) in [
        (vec![], 0),
        (vec![Add], 2),
        (vec![Num(1), Add], 2),
        (vec![Neg], 1),
        (vec![Num(1), Num(2)], 2),
        (vec![Num(1), Num(2), Add], 1),
        (vec![Num(1), Num(2), Dice, Neg, Add], 2),
    ] {
        let ops: Vec<Op> = ops;
        assert!(!Roll { ops, stack_size }.is_well_formed());
    }
}

#[test]
fn a_number_becomes_an_instruction() {
    assert_eq!(Op::from(7), Num(7));
    let op: Op = (-7).into();
    assert_eq!(op, Num(-7));
}
