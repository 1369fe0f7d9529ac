//! The stack machine that evaluates a compiled roll.

use crate::error::{agrees, Error, ErrorKind};
use crate::rng::{BasicRng, FakeRng, Rng};
use vstd::prelude::*;

verus! {

/// One instruction of the stack machine.
#[derive(Debug, PartialEq, Eq, Clone, Copy)]
pub enum Op {
    /// Pushes the number.
    Num(i64),
    /// Pops `r`, then `l`, and pushes `l + r`.
    Add,
    /// Pops `r`, then `l`, and pushes `l - r`.
    Sub,
    /// Pops `r`, then `l`, and pushes `l * r`.
    Mul,
    /// Pops `r`, then `l`, and pushes `l / r`, rounded toward zero.
    Div,
    /// Pops `v` and pushes `-v`.
    Neg,
    /// Pops `sides`, then `times`, and pushes the sum of `times` dice.
    Dice,
}

impl From<i64> for Op {
    fn from(value: i64) -> (op: Op) {
        Op::Num(value)
    }
}

impl vstd::std_specs::convert::FromSpecImpl<i64> for Op {
    open spec fn obeys_from_spec() -> bool {
        true
    }

    open spec fn from_spec(value: i64) -> Op {
        Op::Num(value)
    }
}

/// A compiled roll: the instructions in the order in which they run, and
/// the number of stack slots that running them takes.
#[derive(Debug)]
pub struct Roll {
    pub ops: Vec<Op>,
    pub stack_size: usize,
}

/// How many values `op` takes off the stack. Every instruction then pushes
/// one.
pub open spec fn pops(op: Op) -> nat {
    match op {
        Op::Num(_) => 0,
        Op::Neg => 1,
        _ => 2,
    }
}

/// The number of values on the stack after `ops` ran on an empty stack.
pub open spec fn depth(ops: Seq<Op>) -> int
    decreases ops.len(),
{
    if ops.len() == 0 {
        0
    } else {
        depth(ops.drop_last()) - pops(ops.last()) + 1
    }
}

/// The largest number of values on the stack at any time while `ops` runs
/// on an empty stack.
pub open spec fn peak(ops: Seq<Op>) -> int
    decreases ops.len(),
{
    if ops.len() == 0 {
        0
    } else if peak(ops.drop_last()) >= depth(ops) {
        peak(ops.drop_last())
    } else {
        depth(ops)
    }
}

/// No instruction of `ops` finds fewer values on the stack than it pops.
pub open spec fn grounded(ops: Seq<Op>) -> bool {
    forall|i: int| 0 <= i < ops.len() ==> depth(#[trigger] ops.take(i)) >= pops(ops[i])
}

impl Roll {
    /// The roll runs in `stack_size` slots without ever popping an empty
    /// stack, and leaves exactly one value.
    pub open spec fn well_formed(&self) -> bool {
        &&& grounded(self.ops@)
        &&& depth(self.ops@) == 1
        &&& peak(self.ops@) <= self.stack_size
    }
}

/// Whether `v` is a value of `i64`.
pub open spec fn fits(v: int) -> bool {
    i64::MIN <= v <= i64::MAX
}

/// The quotient of `l` by `r`, rounded toward zero.
pub open spec fn quotient(l: int, r: int) -> int {
    if l >= 0 && r > 0 {
        l / r
    } else if l >= 0 {
        -(l / (-r))
    } else if r > 0 {
        -((-l) / r)
    } else {
        (-l) / (-r)
    }
}

/// The sum of `times` further dice with `sides` sides on top of `sum`, and
/// the sampler after them. A die shows one more than the sampler returns.
/// The first die that takes the sum out of `i64` ends the roll.
pub open spec fn rolled<R: Rng>(times: nat, sides: u64, sum: int, rng: R) -> (
    Result<i64, ErrorKind>,
    R,
)
    decreases times,
{
    if times == 0 {
        (Ok(sum as i64), rng)
    } else {
        let face = rng.drawn(sides) + 1;
        let after = rng.advanced(sides);
        if sum + face > i64::MAX {
            (Err(ErrorKind::Overflow), after)
        } else {
            rolled((times - 1) as nat, sides, sum + face, after)
        }
    }
}

/// What rolling `times` dice with `sides` sides gives, and the sampler
/// after the roll. No dice, or dice without sides, give zero and draw
/// nothing.
pub open spec fn roll_outcome<R: Rng>(times: u64, sides: u64, rng: R) -> (
    Result<i64, ErrorKind>,
    R,
) {
    if times == 0 || sides == 0 {
        (Ok(0), rng)
    } else {
        rolled(times as nat, sides, 0, rng)
    }
}

/// `rest` with `v` pushed, where `v` is a value of `i64`.
pub open spec fn pushed(rest: Seq<i64>, v: int) -> Result<Seq<i64>, ErrorKind> {
    if fits(v) {
        Ok(rest.push(v as i64))
    } else {
        Err(ErrorKind::Overflow)
    }
}

/// The stack and the sampler after `op` ran on `stack`, or the failure that
/// stopped it. Of two operands the one pushed first is the left one.
pub open spec fn step<R: Rng>(op: Op, stack: Seq<i64>, limit: u64, rng: R) -> (
    Result<Seq<i64>, ErrorKind>,
    R,
) {
    let n = stack.len() as int;
    let l = stack[n - 2] as int;
    let r = stack[n - 1] as int;
    let rest = stack.take(n - 2);
    match op {
        Op::Num(v) => (Ok(stack.push(v)), rng),
        Op::Add => (pushed(rest, l + r), rng),
        Op::Sub => (pushed(rest, l - r), rng),
        Op::Mul => (pushed(rest, l * r), rng),
        Op::Div => if r == 0 {
            (Err(ErrorKind::DivideByZero), rng)
        } else {
            (pushed(rest, quotient(l, r)), rng)
        },
        Op::Neg => (pushed(stack.take(n - 1), -r), rng),
        Op::Dice => if l < 0 {
            (Err(ErrorKind::RollMinTimes), rng)
        } else if r < 0 {
            (Err(ErrorKind::RollMinSides), rng)
        } else if l > limit {
            (Err(ErrorKind::TooManyRolls), rng)
        } else {
            match roll_outcome(l as u64, r as u64, rng) {
                (Ok(sum), after) => (Ok(rest.push(sum)), after),
                (Err(kind), after) => (Err(kind), after),
            }
        },
    }
}

/// The stack and the sampler after `ops` ran on `stack` from left to right,
/// or the first failure.
pub open spec fn run<R: Rng>(ops: Seq<Op>, stack: Seq<i64>, limit: u64, rng: R) -> (
    Result<Seq<i64>, ErrorKind>,
    R,
)
    decreases ops.len(),
{
    if ops.len() == 0 {
        (Ok(stack), rng)
    } else {
        match step(ops[0], stack, limit, rng) {
            (Ok(next), after) => run(ops.drop_first(), next, limit, after),
            (Err(kind), after) => (Err(kind), after),
        }
    }
}

/// What `ops` evaluates to on an empty stack: the value on top at the end.
pub open spec fn outcome<R: Rng>(ops: Seq<Op>, limit: u64, rng: R) -> (Result<i64, ErrorKind>, R) {
    match run(ops, Seq::empty(), limit, rng) {
        (Ok(stack), after) => (Ok(stack.last()), after),
        (Err(kind), after) => (Err(kind), after),
    }
}

/// Rolls `times` dice with `sides` sides and sums what they show.
#[verifier::loop_isolation(false)]
pub fn roll<R: Rng>(times: u64, sides: u64, rng: &mut R) -> (result: Result<i64, Error>)
    ensures
        agrees(result, roll_outcome(times, sides, *old(rng)).0),
        *final(rng) == roll_outcome(times, sides, *old(rng)).1,
{
    if times == 0 {
        return Ok(0);
    }
    if sides == 0 {
        return Ok(0);
    }
    let ghost start = *rng;
    let mut sum: i64 = 0;
    let mut left: u64 = times;
    while left > 0
        invariant
            sides > 0,
            sum >= 0,
            rolled(times as nat, sides, 0, start) == rolled(left as nat, sides, sum as int, *rng),
        decreases left,
    {
        let drawn = rng.range(sides);
        if drawn > i64::MAX as u64 {
            return Err(Error::overflow());
        }
        let face = match (drawn as i64).checked_add(1i64) {
            Some(face) => face,
            None => {
                return Err(Error::overflow());
            },
        };
        sum = match sum.checked_add(face) {
            Some(sum) => sum,
            None => {
                return Err(Error::overflow());
            },
        };
        left -= 1;
    }
    Ok(sum)
}

fn operands(op: Op) -> (n: usize)
    ensures
        n == pops(op),
{
    match op {
        Op::Num(_) => 0,
        Op::Neg => 1,
        _ => 2,
    }
}

impl Roll {
    /// Whether the roll may be evaluated: follows the depth of the stack
    /// through the instructions and holds it against `stack_size`.
    #[verifier::loop_isolation(false)]
    pub fn is_well_formed(&self) -> (ok: bool)
        ensures
            ok == self.well_formed(),
    {
        let ghost ops = self.ops@;
        let mut current: usize = 0;
        let mut max: usize = 0;
        let mut i: usize = 0;
        proof {
            assert(ops.take(0) == Seq::<Op>::empty());
        }
        while i < self.ops.len()
            invariant
                i <= ops.len(),
                grounded(ops.take(i as int)),
                current == depth(ops.take(i as int)),
                max == peak(ops.take(i as int)),
            decreases ops.len() - i,
        {
            let op = self.ops[i];
            let needed = operands(op);
            proof {
                let front = ops.take(i as int);
                assert(front.push(op) == ops.take(i + 1));
                assert(front.take(i as int) == front);
                lemma_depth_bounds(front, i as int);
                lemma_depth_push(front, op);
            }
            if current < needed {
                return false;
            }
            proof {
                lemma_grounded_push(ops.take(i as int), op);
            }
            current = current - needed + 1;
            if current > max {
                max = current;
            }
            i += 1;
        }
        proof {
            assert(ops.take(i as int) == ops);
        }
        current == 1 && max <= self.stack_size
    }

    /// Evaluates the roll with a sampler seeded with `seed`.
    pub fn eval(&self, seed: u64, limit: u64) -> (result: Result<i64, Error>)
        requires
            self.well_formed(),
        ensures
            agrees(result, outcome(self.ops@, limit, BasicRng { state: seed }).0),
    {
        let mut rng = BasicRng::new(seed);
        self.eval_with_rng(limit, &mut rng)
    }

    /// Runs the instructions from left to right on an empty stack and
    /// returns the value that is left. No dice roll may ask for more than
    /// `limit` dice.
    #[verifier::loop_isolation(false)]
    pub fn eval_with_rng<R: Rng>(&self, limit: u64, rng: &mut R) -> (result: Result<i64, Error>)
        requires
            self.well_formed(),
        ensures
            agrees(result, outcome(self.ops@, limit, *old(rng)).0),
            *final(rng) == outcome(self.ops@, limit, *old(rng)).1,
    {
        let ghost start = *rng;
        let ghost ops = self.ops@;
        let mut stack: Vec<i64> = vec![0i64; self.stack_size];
        let mut top: usize = 0;
        let mut i: usize = 0;
        proof {
            assert(ops.take(0) == Seq::<Op>::empty());
            assert(ops.skip(0) == ops);
            assert(stack@.take(0) == Seq::<i64>::empty());
        }
        while i < self.ops.len()
            invariant
                ops == self.ops@,
                self.well_formed(),
                i <= ops.len(),
                stack.len() == self.stack_size,
                top == depth(ops.take(i as int)),
                top <= stack.len(),
                run(ops, Seq::empty(), limit, start) == run(
                    ops.skip(i as int),
                    stack@.take(top as int),
                    limit,
                    *rng,
                ),
            decreases ops.len() - i,
        {
            let op = self.ops[i];
            let ghost before = stack@.take(top as int);
            proof {
                lemma_depth_take(ops, i as int);
                lemma_depth_bounds(ops, i as int + 1);
                assert(ops.skip(i as int)[0] == op);
                assert(ops.skip(i as int).drop_first() == ops.skip(i as int + 1));
                assert(before.len() == top);
                if top >= 1 {
                    assert(before[top - 1] == stack[top - 1]);
                }
                if top >= 2 {
                    assert(before[top - 2] == stack[top - 2]);
                }
            }
            match op {
                Op::Num(v) => {
                    stack[top] = v;
                    top += 1;
                    assert(stack@.take(top as int) == before.push(v));
                },
                Op::Neg => {
                    let v = stack[top - 1];
                    let value = match 0i64.checked_sub(v) {
                        Some(value) => value,
                        None => {
                            return Err(Error::overflow());
                        },
                    };
                    stack[top - 1] = value;
                    assert(stack@.take(top as int) == before.take(top - 1).push(value));
                },
                Op::Dice => {
                    let times = stack[top - 2];
                    let sides = stack[top - 1];
                    if times < 0 {
                        return Err(Error::roll_min_times());
                    }
                    if sides < 0 {
                        return Err(Error::roll_min_sides());
                    }
                    if times as u64 > limit {
                        return Err(Error::too_many_rolls());
                    }
                    let value = match roll(times as u64, sides as u64, rng) {
                        Ok(value) => value,
                        Err(e) => {
                            return Err(e);
                        },
                    };
                    top -= 1;
                    stack[top - 1] = value;
                    assert(stack@.take(top as int) == before.take(top - 1).push(value));
                },
                _ => {
                    let l = stack[top - 2];
                    let r = stack[top - 1];
                    let computed = match op {
                        Op::Add => l.checked_add(r),
                        Op::Sub => l.checked_sub(r),
                        Op::Mul => l.checked_mul(r),
                        _ => {
                            if r == 0 {
                                return Err(Error::divide_by_zero());
                            }
                            l.checked_div(r)
                        },
                    };
                    let value = match computed {
                        Some(value) => value,
                        None => {
                            return Err(Error::overflow());
                        },
                    };
                    top -= 1;
                    stack[top - 1] = value;
                    assert(stack@.take(top as int) == before.take(top - 1).push(value));
                },
            }
            i += 1;
        }
        proof {
            assert(ops.skip(i as int).len() == 0);
            assert(ops.take(i as int) == ops);
            assert(stack@.take(top as int).last() == stack[top - 1]);
        }
        Ok(stack[top - 1])
    }
}

/// Appending an instruction changes the depth by what it pushes less what
/// it pops.
pub proof fn lemma_depth_push(ops: Seq<Op>, op: Op)
    ensures
        depth(ops.push(op)) == depth(ops) - pops(op) + 1,
        peak(ops.push(op)) == if peak(ops) >= depth(ops.push(op)) {
            peak(ops)
        } else {
            depth(ops.push(op))
        },
{
    assert(ops.push(op).drop_last() == ops);
}

/// An instruction that finds its operands keeps the program grounded.
pub proof fn lemma_grounded_push(ops: Seq<Op>, op: Op)
    requires
        grounded(ops),
        depth(ops) >= pops(op),
    ensures
        grounded(ops.push(op)),
{
    let longer = ops.push(op);
    assert forall|i: int| 0 <= i < longer.len() implies depth(#[trigger] longer.take(i)) >= pops(
        longer[i],
    ) by {
        if i < ops.len() {
            assert(longer.take(i) == ops.take(i));
        } else {
            assert(longer.take(i) == ops);
        }
    }
}

/// The depth of a prefix one instruction longer.
pub proof fn lemma_depth_take(ops: Seq<Op>, i: int)
    requires
        0 <= i < ops.len(),
    ensures
        depth(ops.take(i + 1)) == depth(ops.take(i)) - pops(ops[i]) + 1,
{
    assert(ops.take(i + 1).drop_last() == ops.take(i));
}

/// The stack never holds more than the peak, nor fewer than no values.
pub proof fn lemma_depth_bounds(ops: Seq<Op>, i: int)
    requires
        0 <= i <= ops.len(),
        grounded(ops),
    ensures
        0 <= depth(ops.take(i)) <= peak(ops),
        peak(ops) <= ops.len(),
    decreases ops.len(),
{
    if ops.len() == 0 {
        assert(ops.take(i) == ops);
    } else {
        let front = ops.drop_last();
        assert forall|j: int| 0 <= j < front.len() implies depth(#[trigger] front.take(j)) >= pops(
            front[j],
        ) by {
            assert(front.take(j) == ops.take(j));
        }
        assert(front == ops.take(ops.len() - 1));
        lemma_depth_bounds(front, front.len() as int);
        assert(front.take(front.len() as int) == front);
        if i == ops.len() {
            assert(ops.take(i) == ops);
        } else {
            lemma_depth_bounds(front, i);
            assert(front.take(i) == ops.take(i));
        }
    }
}

/// Running a grounded program on from its instruction `i`, with as many
/// values on the stack as the instructions before have left, ends with as
/// many values as the depth of the whole program says.
pub proof fn lemma_run_depth<R: Rng>(ops: Seq<Op>, i: int, stack: Seq<i64>, limit: u64, rng: R)
    requires
        grounded(ops),
        0 <= i <= ops.len(),
        stack.len() == depth(ops.take(i)),
    ensures
        run(ops.skip(i), stack, limit, rng).0 matches Ok(last) ==> last.len() == depth(ops),
    decreases ops.len() - i,
{
    if i == ops.len() {
        assert(ops.take(i) == ops);
    } else {
        lemma_depth_take(ops, i);
        assert(ops.skip(i)[0] == ops[i]);
        assert(ops.skip(i).drop_first() == ops.skip(i + 1));
        match step(ops[i], stack, limit, rng) {
            (Ok(next), after) => {
                lemma_run_depth(ops, i + 1, next, limit, after);
            },
            (Err(_), _) => {},
        }
    }
}

/// A well-formed roll that evaluates leaves exactly one value on the
/// stack: its result.
pub proof fn lemma_one_value_left<R: Rng>(roll: Roll, limit: u64, rng: R)
    requires
        roll.well_formed(),
    ensures
        run(roll.ops@, Seq::empty(), limit, rng).0 matches Ok(last) ==> last.len() == 1,
{
    assert(roll.ops@.take(0) == Seq::<Op>::empty());
    assert(roll.ops@.skip(0) == roll.ops@);
    lemma_run_depth(roll.ops@, 0, Seq::empty(), limit, rng);
}

/// The sum of `times` dice that all show `face`, or the overflow that the
/// sum runs into.
pub open spec fn repeated(times: int, face: int) -> Result<i64, ErrorKind> {
    if times * face <= i64::MAX {
        Ok((times * face) as i64)
    } else {
        Err(ErrorKind::Overflow)
    }
}

/// With a fixed sampler every die shows the same face, so that `times` more
/// dice add `times` times that face, and the sampler stays as it is.
pub proof fn lemma_fixed_rolled(times: nat, sides: u64, sum: int, rng: FakeRng)
    requires
        0 <= sum <= i64::MAX,
    ensures
        rolled(times, sides, sum, rng) == (
            if sum + times * (rng.drawn(sides) + 1) <= i64::MAX {
                Ok::<i64, ErrorKind>((sum + times * (rng.drawn(sides) + 1)) as i64)
            } else {
                Err(ErrorKind::Overflow)
            },
            rng,
        ),
    decreases times,
{
    let face = rng.drawn(sides) + 1;
    if times > 0 {
        assert(times * face == (times - 1) * face + face) by (nonlinear_arith);
        assert((times - 1) * face >= 0) by (nonlinear_arith)
            requires
                times >= 1,
                face >= 1,
        ;
        if sum + face <= i64::MAX {
            lemma_fixed_rolled((times - 1) as nat, sides, sum + face, rng);
        }
    } else {
        assert(times * face == 0) by (nonlinear_arith)
            requires
                times == 0,
        ;
    }
}

/// With the sampler fixed at `v`, `times` dice with `sides` sides sum to
/// `times * (1 + min(v, sides - 1))`, unless that leaves the range of `i64`.
pub proof fn lemma_fixed_roll(times: u64, sides: u64, v: u64)
    ensures
        roll_outcome(times, sides, FakeRng { value: Some(v) }) == (
            repeated(times as int, 1 + vstd::math::min(v as int, sides - 1)),
            FakeRng { value: Some(v) },
        ),
{
    let rng = FakeRng { value: Some(v) };
    let face = 1 + vstd::math::min(v as int, sides - 1);
    if times == 0 || sides == 0 {
        assert(times * face == 0) by (nonlinear_arith)
            requires
                times == 0 || face == 0,
        ;
    } else {
        lemma_fixed_rolled(times as nat, sides, 0, rng);
    }
}

/// With the sampler that is not set to a value, every die shows one more
/// than half its sides.
pub proof fn lemma_centered_roll(times: u64, sides: u64)
    requires
        sides > 0,
    ensures
        roll_outcome(times, sides, FakeRng { value: None }) == (
            repeated(times as int, 1 + sides as int / 2),
            FakeRng { value: None },
        ),
{
    let rng = FakeRng { value: None };
    if times == 0 {
        assert(times * (1 + sides as int / 2) == 0) by (nonlinear_arith)
            requires
                times == 0,
        ;
    } else {
        lemma_fixed_rolled(times as nat, sides, 0, rng);
    }
}

/// The program of `k d n`, evaluated with the sampler fixed at `v`, gives
/// `k * (1 + min(v, n - 1))`, unless a guard of the dice stops it or the sum
/// is no value of `i64`.
pub proof fn lemma_fixed_dice(k: i64, n: i64, limit: u64, v: u64)
    ensures
        outcome(seq![Op::Num(k), Op::Num(n), Op::Dice], limit, FakeRng { value: Some(v) }).0 == if k
            < 0 {
            Err::<i64, ErrorKind>(ErrorKind::RollMinTimes)
        } else if n < 0 {
            Err(ErrorKind::RollMinSides)
        } else if k > limit {
            Err(ErrorKind::TooManyRolls)
        } else {
            repeated(k as int, 1 + vstd::math::min(v as int, n - 1))
        },
{
    let rng = FakeRng { value: Some(v) };
    let ops = seq![Op::Num(k), Op::Num(n), Op::Dice];
    let none = Seq::<i64>::empty();
    let one = none.push(k);
    let two = one.push(n);
    assert(ops.drop_first() == seq![Op::Num(n), Op::Dice]);
    assert(ops.drop_first().drop_first() == seq![Op::Dice]);
    assert(ops.drop_first().drop_first().drop_first() == Seq::<Op>::empty());
    assert(step(ops[0], none, limit, rng) == (Ok::<Seq<i64>, ErrorKind>(one), rng));
    assert(step(Op::Num(n), one, limit, rng) == (Ok::<Seq<i64>, ErrorKind>(two), rng));
    assert(two.take(0) == none);
    reveal_with_fuel(run, 4);
    if 0 <= k <= limit && 0 <= n {
        lemma_fixed_roll(k as u64, n as u64, v);
        match repeated(k as int, 1 + vstd::math::min(v as int, n - 1)) {
            Ok(sum) => {
                assert(step(Op::Dice, two, limit, rng) == (
                    Ok::<Seq<i64>, ErrorKind>(none.push(sum)),
                    rng,
                ));
            },
            Err(kind) => {
                assert(step(Op::Dice, two, limit, rng) == (Err::<Seq<i64>, ErrorKind>(kind), rng));
            },
        }
    }
}

} // verus!
