//! The compiler: from text to the instructions of a roll.
//!
//! The grammar, from the loosest binding to the tightest:
//!
//! ```text
//! expr        := term
//! term        := factor (("+" | "-") factor)*
//! factor      := prefix (("*" | "/") prefix)*
//! prefix      := "-" dice_unary | dice_unary
//! dice_unary  := "d" primary | dice_binary
//! dice_binary := primary ("d" primary)?
//! primary     := NUMBER | "(" ... "(" expr ")" ... ")"
//! ```
//!
//! Each rule appends the instructions of what it recognised, operands before
//! the operator that takes them. What follows the expression is not read.
//!
//! The spec functions of this module say what each rule makes of a text
//! from a position on: the instructions, and the number of characters up to
//! the end of the last token that the rule passed.

use crate::error::{agrees, Error, ErrorKind};
use crate::eval::{
    depth, grounded, lemma_depth_bounds, lemma_depth_push, lemma_grounded_push, peak, pops, Op,
    Roll,
};
use crate::lex::{
    required, lemma_lexeme_at, lexeme_at, passed, spelling, Lexer, Span, Token,
};
use vstd::prelude::*;
use vstd::string::StrSliceExecFns;

verus! {

/// What a rule makes of a text: the instructions and the number of
/// characters that it took, or the failure.
pub type Parsed = Result<(Seq<Op>, nat), ErrorKind>;

/// The number that the decimal digits spell.
pub open spec fn number_value(digits: Seq<char>) -> int
    decreases digits.len(),
{
    if digits.len() == 0 {
        0
    } else {
        number_value(digits.drop_last()) * 10 + (digits.last() as int - '0' as int)
    }
}

/// The number that `digits` spell as an `i64`, or the failure to fit one.
pub open spec fn literal(digits: Seq<char>) -> Result<i64, ErrorKind> {
    if number_value(digits) <= i64::MAX {
        Ok(number_value(digits) as i64)
    } else {
        Err(ErrorKind::InvalidInteger(digits, "number too large to fit in target type"@))
    }
}

/// The number of characters of `text` from `from` on.
pub open spec fn remaining(text: Seq<char>, from: int) -> nat {
    if from < text.len() {
        (text.len() - from) as nat
    } else {
        0
    }
}

/// The instruction for `token` between two factors.
pub open spec fn additive(token: Token) -> Option<Op> {
    match token {
        Token::Plus => Some(Op::Add),
        Token::Minus => Some(Op::Sub),
        _ => None,
    }
}

/// The instruction for `token` between two prefixes.
pub open spec fn multiplicative(token: Token) -> Option<Op> {
    match token {
        Token::Star => Some(Op::Mul),
        Token::Slash => Some(Op::Div),
        _ => None,
    }
}

/// `rest` after `code`, which took `used` characters: the instructions of
/// both in that order and the characters of both.
pub open spec fn after(code: Seq<Op>, used: nat, rest: Parsed) -> Parsed {
    match rest {
        Ok((more, further)) => Ok((code + more, used + further)),
        Err(kind) => Err(kind),
    }
}

/// `parsed` with `op` as its last instruction.
pub open spec fn with_op(parsed: Parsed, op: Op) -> Parsed {
    match parsed {
        Ok((code, used)) => Ok((code.push(op), used)),
        Err(kind) => Err(kind),
    }
}

/// `rest` with `count` more parentheses and `used` more characters.
pub open spec fn and_opened(count: nat, used: nat, rest: Result<(nat, nat), ErrorKind>) -> Result<
    (nat, nat),
    ErrorKind,
> {
    match rest {
        Ok((others, further)) => Ok((count + others, used + further)),
        Err(kind) => Err(kind),
    }
}

/// `rest` with `used` more characters.
pub open spec fn and_closed(used: nat, rest: Result<nat, ErrorKind>) -> Result<nat, ErrorKind> {
    match rest {
        Ok(further) => Ok(used + further),
        Err(kind) => Err(kind),
    }
}

/// The `(` in a row at `from`: how many there are and the characters taken.
#[verifier::opaque]
pub open spec fn opened(text: Seq<char>, from: int) -> Result<(nat, nat), ErrorKind>
    decreases remaining(text, from),
{
    if lexeme_at(text, from).token == Token::ParenL {
        match passed(text, from) {
            Err(kind) => Err(kind),
            Ok(n) => and_opened(1, n, opened(text, from + n)),
        }
    } else {
        Ok((0, 0))
    }
}

/// `count` times `)` at `from`: the characters taken.
#[verifier::opaque]
pub open spec fn closed(text: Seq<char>, from: int, count: nat) -> Result<nat, ErrorKind>
    decreases count,
{
    if count == 0 {
        Ok(0)
    } else {
        match required(text, from, Token::ParenR) {
            Err(kind) => Err(kind),
            Ok(n) => and_closed(n, closed(text, from + n, (count - 1) as nat)),
        }
    }
}

/// `primary := NUMBER | "(" ... "(" expr ")" ... ")"`, with as many `)` as `(`.
#[verifier::opaque]
pub open spec fn primary(text: Seq<char>, from: int) -> Parsed
    decreases remaining(text, from), 1int,
{
    let found = lexeme_at(text, from);
    if found.token == Token::Number {
        match passed(text, from) {
            Err(kind) => Err(kind),
            Ok(n) => match literal(spelling(text, found)) {
                Err(kind) => Err(kind),
                Ok(v) => Ok((seq![Op::Num(v)], n)),
            },
        }
    } else if found.token == Token::ParenL {
        match passed(text, from) {
            Err(kind) => Err(kind),
            Ok(first) => match opened(text, from + first) {
                Err(kind) => Err(kind),
                Ok((count, n)) => match expr(text, from + first + n) {
                    Err(kind) => Err(kind),
                    Ok((code, used)) => match closed(text, from + first + n + used, count + 1) {
                        Err(kind) => Err(kind),
                        Ok(last) => Ok((code, first + n + used + last)),
                    },
                },
            },
        }
    } else if found.token == Token::Eof {
        Err(ErrorKind::UnexpectedEof)
    } else {
        Err(ErrorKind::UnexpectedInput(spelling(text, found)))
    }
}

/// `dice_binary := primary ("d" primary)?`
#[verifier::opaque]
pub open spec fn dice_binary(text: Seq<char>, from: int) -> Parsed
    decreases remaining(text, from), 2int,
{
    match primary(text, from) {
        Err(kind) => Err(kind),
        Ok((code, used)) => if lexeme_at(text, from + used).token == Token::Dice {
            match passed(text, from + used) {
                Err(kind) => Err(kind),
                Ok(n) => after(code, used + n, with_op(primary(text, from + used + n), Op::Dice)),
            }
        } else {
            Ok((code, used))
        },
    }
}

/// `dice_unary := "d" primary | dice_binary`, where `d` alone rolls one die.
#[verifier::opaque]
pub open spec fn dice_unary(text: Seq<char>, from: int) -> Parsed
    decreases remaining(text, from), 3int,
{
    if lexeme_at(text, from).token == Token::Dice {
        match passed(text, from) {
            Err(kind) => Err(kind),
            Ok(n) => after(seq![Op::Num(1)], n, with_op(primary(text, from + n), Op::Dice)),
        }
    } else {
        dice_binary(text, from)
    }
}

/// `prefix := "-" dice_unary | dice_unary`
#[verifier::opaque]
pub open spec fn prefix(text: Seq<char>, from: int) -> Parsed
    decreases remaining(text, from), 4int,
{
    if lexeme_at(text, from).token == Token::Minus {
        match passed(text, from) {
            Err(kind) => Err(kind),
            Ok(n) => after(Seq::empty(), n, with_op(dice_unary(text, from + n), Op::Neg)),
        }
    } else {
        dice_unary(text, from)
    }
}

/// `(("*" | "/") prefix)*`: what follows the first prefix of a factor.
#[verifier::opaque]
pub open spec fn factor_tail(text: Seq<char>, from: int) -> Parsed
    decreases remaining(text, from), 0int,
{
    match multiplicative(lexeme_at(text, from).token) {
        None => Ok((Seq::empty(), 0)),
        Some(op) => match passed(text, from) {
            Err(kind) => Err(kind),
            Ok(n) => match prefix(text, from + n) {
                Err(kind) => Err(kind),
                Ok((code, used)) => after(
                    code.push(op),
                    n + used,
                    factor_tail(text, from + n + used),
                ),
            },
        },
    }
}

/// `factor := prefix (("*" | "/") prefix)*`
#[verifier::opaque]
pub open spec fn factor(text: Seq<char>, from: int) -> Parsed
    decreases remaining(text, from), 5int,
{
    match prefix(text, from) {
        Err(kind) => Err(kind),
        Ok((code, used)) => after(code, used, factor_tail(text, from + used)),
    }
}

/// `(("+" | "-") factor)*`: what follows the first factor of a term.
#[verifier::opaque]
pub open spec fn term_tail(text: Seq<char>, from: int) -> Parsed
    decreases remaining(text, from), 0int,
{
    match additive(lexeme_at(text, from).token) {
        None => Ok((Seq::empty(), 0)),
        Some(op) => match passed(text, from) {
            Err(kind) => Err(kind),
            Ok(n) => match factor(text, from + n) {
                Err(kind) => Err(kind),
                Ok((code, used)) => after(code.push(op), n + used, term_tail(text, from + n + used)),
            },
        },
    }
}

/// `term := factor (("+" | "-") factor)*`
#[verifier::opaque]
pub open spec fn term(text: Seq<char>, from: int) -> Parsed
    decreases remaining(text, from), 6int,
{
    match factor(text, from) {
        Err(kind) => Err(kind),
        Ok((code, used)) => after(code, used, term_tail(text, from + used)),
    }
}

/// `expr := term`
#[verifier::opaque]
pub open spec fn expr(text: Seq<char>, from: int) -> Parsed
    decreases remaining(text, from), 7int,
{
    term(text, from)
}

/// The instructions that `text` compiles to, or the failure.
pub open spec fn compiled(text: Seq<char>) -> Result<Seq<Op>, ErrorKind> {
    match expr(text, 0) {
        Ok((code, _)) => Ok(code),
        Err(kind) => Err(kind),
    }
}

/// The depth of the evaluation stack as the compiler follows it: where it
/// stands and the highest it has stood.
pub struct Stack {
    pub current: usize,
    pub max: usize,
}

impl Stack {
    /// `n` values more on the stack.
    pub fn push(&mut self, n: usize)
        requires
            old(self).current + n <= usize::MAX,
        ensures
            final(self).current == old(self).current + n,
            final(self).max == vstd::math::max(old(self).max as int, final(self).current as int),
    {
        self.current += n;
        if self.current > self.max {
            self.max = self.current;
        }
    }

    /// `n` values fewer on the stack.
    pub fn pop(&mut self, n: usize)
        requires
            old(self).current >= n,
        ensures
            final(self).current == old(self).current - n,
            final(self).max == old(self).max,
    {
        self.current -= n;
    }
}

impl Op {
    /// Follows on `stack` what the instruction does to the evaluation
    /// stack: it pops its operands and pushes its result.
    pub fn stack_effects(&self, stack: &mut Stack)
        requires
            old(stack).current >= pops(*self),
            old(stack).current - pops(*self) < usize::MAX,
        ensures
            final(stack).current == old(stack).current - pops(*self) + 1,
            final(stack).max == vstd::math::max(
                old(stack).max as int,
                final(stack).current as int,
            ),
    {
        match self {
            Op::Num(_) => {
                stack.push(1);
            },
            Op::Add => {
                stack.pop(2);
                stack.push(1);
            },
            Op::Sub => {
                stack.pop(2);
                stack.push(1);
            },
            Op::Mul => {
                stack.pop(2);
                stack.push(1);
            },
            Op::Div => {
                stack.pop(2);
                stack.push(1);
            },
            Op::Neg => {
                stack.pop(1);
                stack.push(1);
            },
            Op::Dice => {
                stack.pop(2);
                stack.push(1);
            },
        }
    }
}

/// A roll in the making.
pub struct RollBuilder {
    pub ops: Vec<Op>,
    pub stack: Stack,
}

impl Roll {
    /// A roll without instructions yet.
    pub fn builder() -> (roll: RollBuilder)
        ensures
            roll.well_formed(),
            roll.ops@ == Seq::<Op>::empty(),
    {
        RollBuilder { ops: Vec::with_capacity(64), stack: Stack { current: 0, max: 0 } }
    }
}

impl RollBuilder {
    /// No instruction so far pops an empty stack, and `stack` holds the
    /// depth after them and the peak among them.
    pub open spec fn well_formed(&self) -> bool {
        &&& grounded(self.ops@)
        &&& self.stack.current == depth(self.ops@)
        &&& self.stack.max == peak(self.ops@)
    }

    /// The roll of the instructions, sized to the peak of the stack.
    pub fn finish(self) -> (roll: Roll)
        requires
            self.well_formed(),
            depth(self.ops@) == 1,
        ensures
            roll.ops@ == self.ops@,
            roll.stack_size == peak(self.ops@),
            roll.well_formed(),
    {
        Roll { ops: self.ops, stack_size: self.stack.max }
    }

    /// Appends `op`, which finds its operands on the stack.
    pub fn emit(&mut self, op: Op)
        requires
            old(self).well_formed(),
            depth(old(self).ops@) >= pops(op),
        ensures
            final(self).well_formed(),
            final(self).ops@ == old(self).ops@.push(op),
            depth(final(self).ops@) == depth(old(self).ops@) - pops(op) + 1,
    {
        proof {
            lemma_depth_push(self.ops@, op);
            lemma_grounded_push(self.ops@, op);
            lemma_depth_bounds(self.ops@, self.ops@.len() as int);
            assert(self.ops@.take(self.ops@.len() as int) == self.ops@);
        }
        self.ops.push(op);
        assert(self.ops.len() <= usize::MAX);
        op.stack_effects(&mut self.stack);
    }
}

/// A longer row of digits spells no smaller a number.
proof fn lemma_number_value_grows(digits: Seq<char>, k: int)
    requires
        0 <= k <= digits.len(),
        forall|i: int| 0 <= i < digits.len() ==> '0' <= #[trigger] digits[i] <= '9',
    ensures
        0 <= number_value(digits.take(k)) <= number_value(digits),
    decreases digits.len(),
{
    if digits.len() == 0 {
        assert(digits.take(k) == digits);
    } else {
        let front = digits.drop_last();
        lemma_number_value_grows(front, front.len() as int);
        assert(front.take(front.len() as int) == front);
        if k == digits.len() {
            assert(digits.take(k) == digits);
        } else {
            lemma_number_value_grows(front, k);
            assert(front.take(k) == digits.take(k));
        }
    }
}

/// The number that the digits of `number` spell.
#[verifier::loop_isolation(false)]
fn parse_int(lex: &Lexer, number: Span) -> (result: Result<i64, Error>)
    requires
        lex.well_formed(),
        number.start <= number.end <= lex.chars.len(),
        forall|i: int| number.start <= i < number.end ==> '0' <= #[trigger] lex.chars@[i] <= '9',
    ensures
        agrees(result, literal(spelling(lex.chars@, number@))),
{
    let ghost digits = spelling(lex.chars@, number@);
    let mut value: i64 = 0;
    let mut i = number.start;
    proof {
        assert(digits.take(0) == Seq::<char>::empty());
    }
    while i < number.end
        invariant
            number.start <= i <= number.end,
            value == number_value(digits.take(i - number.start)),
        decreases number.end - i,
    {
        let digit = (lex.chars[i] as u32 - '0' as u32) as i64;
        proof {
            let k = i - number.start;
            assert(digits.take(k + 1).drop_last() == digits.take(k));
            assert(digits.take(k + 1).last() == lex.chars@[i as int]);
            lemma_number_value_grows(digits, k + 1);
            lemma_number_value_grows(digits, k);
        }
        let next = match value.checked_mul(10) {
            Some(tens) => tens.checked_add(digit),
            None => None,
        };
        match next {
            Some(next) => {
                value = next;
            },
            None => {
                let text = lex.input.substring_char(number.start, number.end);
                return Err(Error::invalid_integer(text, "number too large to fit in target type"));
            },
        }
        i += 1;
    }
    proof {
        assert(digits.take(i - number.start) == digits);
    }
    Ok(value)
}

/// Whether a rule that began with `lex0` and `roll0` ended as `parsed`
/// says: with the cursor moved on by the characters taken, the instructions
/// appended and the stack one value deeper, or with the failure. Either way
/// the lexer is still at a token of the same text, and the roll in the
/// making is sound.
pub open spec fn follows(
    lex0: Lexer,
    roll0: RollBuilder,
    lex: Lexer,
    roll: RollBuilder,
    result: Result<(), Error>,
    parsed: Parsed,
) -> bool {
    &&& lex.well_formed()
    &&& lex.input == lex0.input
    &&& lex.chars == lex0.chars
    &&& roll.well_formed()
    &&& match parsed {
        Ok((code, used)) => {
            &&& result is Ok
            &&& lex.position == lex0.position + used
            &&& roll.ops@ == roll0.ops@ + code
            &&& depth(roll.ops@) == depth(roll0.ops@) + 1
        },
        Err(kind) => result matches Err(e) && e.is_kind(kind),
    }
}

/// Whether `result` is what compiling `text` gives: the roll with the
/// instructions of the text, sized to their peak, or the failure.
pub open spec fn compiles_to(text: Seq<char>, result: Result<Roll, Error>) -> bool {
    match compiled(text) {
        Ok(code) => {
            &&& result matches Ok(roll)
            &&& roll.ops@ == code
            &&& roll.stack_size == peak(code)
            &&& roll.well_formed()
        },
        Err(kind) => result matches Err(e) && e.is_kind(kind),
    }
}

/// Whether two results of compiling are alike: the same instructions and
/// stack size, or the same message.
pub open spec fn alike(a: Result<Roll, Error>, b: Result<Roll, Error>) -> bool {
    match (a, b) {
        (Ok(x), Ok(y)) => x.ops@ == y.ops@ && x.stack_size == y.stack_size,
        (Err(x), Err(y)) => x.message@ == y.message@,
        _ => false,
    }
}

/// Compiling a text twice gives the same instructions and the same stack
/// size twice, or the same failure.
pub proof fn lemma_compile_deterministic(
    text: Seq<char>,
    first: Result<Roll, Error>,
    second: Result<Roll, Error>,
)
    requires
        compiles_to(text, first),
        compiles_to(text, second),
    ensures
        alike(first, second),
{
}

/// Instructions put before a rule's may be put there in two steps.
proof fn lemma_after_after(first: Seq<Op>, used: nat, second: Seq<Op>, further: nat, rest: Parsed)
    ensures
        after(first, used, after(second, further, rest)) == after(
            first + second,
            used + further,
            rest,
        ),
{
    match rest {
        Ok((more, last)) => {
            assert(first + (second + more) == (first + second) + more);
        },
        Err(_) => {},
    }
}

/// A rule that adds nothing leaves what stands before it.
proof fn lemma_after_nothing(code: Seq<Op>, used: nat)
    ensures
        after(code, used, Ok((Seq::empty(), 0))) == Ok::<(Seq<Op>, nat), ErrorKind>((code, used)),
{
    assert(code + Seq::<Op>::empty() == code);
}

/// What [`expr`] is, written out.
proof fn lemma_expr(text: Seq<char>, from: int)
    ensures
        expr(text, from) == term(text, from),
{
    reveal(expr);
    reveal(term);
}

/// What [`term`] is, written out.
proof fn lemma_term(text: Seq<char>, from: int)
    ensures
        term(text, from) == match factor(text, from) {
            Err(kind) => Err(kind),
            Ok((code, used)) => after(code, used, term_tail(text, from + used)),
        },
{
    reveal(term);
    reveal(factor);
    reveal(term_tail);
}

/// What [`term_tail`] is, written out.
proof fn lemma_term_tail(text: Seq<char>, from: int)
    ensures
        term_tail(text, from) == match additive(lexeme_at(text, from).token) {
            None => Ok((Seq::empty(), 0)),
            Some(op) => match passed(text, from) {
                Err(kind) => Err(kind),
                Ok(n) => match factor(text, from + n) {
                    Err(kind) => Err(kind),
                    Ok((code, used)) => after(
                        code.push(op),
                        n + used,
                        term_tail(text, from + n + used),
                    ),
                },
            },
        },
{
    reveal(term_tail);
    reveal(factor);
}

/// What [`factor`] is, written out.
proof fn lemma_factor(text: Seq<char>, from: int)
    ensures
        factor(text, from) == match prefix(text, from) {
            Err(kind) => Err(kind),
            Ok((code, used)) => after(code, used, factor_tail(text, from + used)),
        },
{
    reveal(factor);
    reveal(prefix);
    reveal(factor_tail);
}

/// What [`factor_tail`] is, written out.
proof fn lemma_factor_tail(text: Seq<char>, from: int)
    ensures
        factor_tail(text, from) == match multiplicative(lexeme_at(text, from).token) {
            None => Ok((Seq::empty(), 0)),
            Some(op) => match passed(text, from) {
                Err(kind) => Err(kind),
                Ok(n) => match prefix(text, from + n) {
                    Err(kind) => Err(kind),
                    Ok((code, used)) => after(
                        code.push(op),
                        n + used,
                        factor_tail(text, from + n + used),
                    ),
                },
            },
        },
{
    reveal(factor_tail);
    reveal(prefix);
}

/// What [`prefix`] is, written out.
proof fn lemma_prefix(text: Seq<char>, from: int)
    ensures
        prefix(text, from) == if lexeme_at(text, from).token == Token::Minus {
            match passed(text, from) {
                Err(kind) => Err(kind),
                Ok(n) => after(Seq::empty(), n, with_op(dice_unary(text, from + n), Op::Neg)),
            }
        } else {
            dice_unary(text, from)
        },
{
    reveal(prefix);
    reveal(dice_unary);
}

/// What [`dice_unary`] is, written out.
proof fn lemma_dice_unary(text: Seq<char>, from: int)
    ensures
        dice_unary(text, from) == if lexeme_at(text, from).token == Token::Dice {
            match passed(text, from) {
                Err(kind) => Err(kind),
                Ok(n) => after(seq![Op::Num(1)], n, with_op(primary(text, from + n), Op::Dice)),
            }
        } else {
            dice_binary(text, from)
        },
{
    reveal(dice_unary);
    reveal(dice_binary);
    reveal(primary);
}

/// What [`dice_binary`] is, written out.
proof fn lemma_dice_binary(text: Seq<char>, from: int)
    ensures
        dice_binary(text, from) == match primary(text, from) {
            Err(kind) => Err(kind),
            Ok((code, used)) => if lexeme_at(text, from + used).token == Token::Dice {
                match passed(text, from + used) {
                    Err(kind) => Err(kind),
                    Ok(n) => after(
                        code,
                        used + n,
                        with_op(primary(text, from + used + n), Op::Dice),
                    ),
                }
            } else {
                Ok((code, used))
            },
        },
{
    reveal(dice_binary);
    reveal(primary);
}

/// What [`primary`] is, written out.
proof fn lemma_primary(text: Seq<char>, from: int)
    ensures
        primary(text, from) == {
            let found = lexeme_at(text, from);
            if found.token == Token::Number {
                match passed(text, from) {
                    Err(kind) => Err(kind),
                    Ok(n) => match literal(spelling(text, found)) {
                        Err(kind) => Err(kind),
                        Ok(v) => Ok((seq![Op::Num(v)], n)),
                    },
                }
            } else if found.token == Token::ParenL {
                match passed(text, from) {
                    Err(kind) => Err(kind),
                    Ok(first) => match opened(text, from + first) {
                        Err(kind) => Err(kind),
                        Ok((count, n)) => match expr(text, from + first + n) {
                            Err(kind) => Err(kind),
                            Ok((code, used)) => match closed(
                                text,
                                from + first + n + used,
                                count + 1,
                            ) {
                                Err(kind) => Err(kind),
                                Ok(last) => Ok((code, first + n + used + last)),
                            },
                        },
                    },
                }
            } else if found.token == Token::Eof {
                Err(ErrorKind::UnexpectedEof)
            } else {
                Err(ErrorKind::UnexpectedInput(spelling(text, found)))
            }
        },
{
    reveal(primary);
    reveal(expr);
}

/// What [`opened`] is, written out.
proof fn lemma_opened(text: Seq<char>, from: int)
    ensures
        opened(text, from) == if lexeme_at(text, from).token == Token::ParenL {
            match passed(text, from) {
                Err(kind) => Err(kind),
                Ok(n) => and_opened(1, n, opened(text, from + n)),
            }
        } else {
            Ok((0, 0))
        },
{
    reveal(opened);
}

/// What [`closed`] is, written out.
proof fn lemma_closed(text: Seq<char>, from: int, count: nat)
    ensures
        closed(text, from, count) == if count == 0 {
            Ok(0)
        } else {
            match required(text, from, Token::ParenR) {
                Err(kind) => Err(kind),
                Ok(n) => and_closed(n, closed(text, from + n, (count - 1) as nat)),
            }
        },
{
    reveal(closed);
}

/// Compiles `input` to a roll.
pub fn parse(input: &str) -> (result: Result<Roll, Error>)
    ensures
        compiles_to(input@, result),
{
    let mut lex = Lexer::new(input);
    let mut roll = Roll::builder();
    match parse_expr(&mut lex, &mut roll) {
        Ok(()) => {
            assert(Seq::<Op>::empty() + roll.ops@ == roll.ops@);
            Ok(roll.finish())
        },
        Err(e) => Err(e),
    }
}

/// Compiles an `expr` at the cursor.
fn parse_expr(lex: &mut Lexer, roll: &mut RollBuilder) -> (result: Result<(), Error>)
    requires
        old(lex).well_formed(),
        old(roll).well_formed(),
    ensures
        follows(
            *old(lex),
            *old(roll),
            *final(lex),
            *final(roll),
            result,
            expr(old(lex).chars@, old(lex).position as int),
        ),
    decreases remaining(old(lex).chars@, old(lex).position as int), 7int,
{
    proof {
        lemma_expr(lex.chars@, lex.position as int);
    }
    parse_term(lex, roll)
}

/// The instruction for `token` between two factors.
fn additive_op(token: Token) -> (op: Option<Op>)
    ensures
        op == additive(token),
{
    match token {
        Token::Plus => Some(Op::Add),
        Token::Minus => Some(Op::Sub),
        _ => None,
    }
}

/// The instruction for `token` between two prefixes.
fn multiplicative_op(token: Token) -> (op: Option<Op>)
    ensures
        op == multiplicative(token),
{
    match token {
        Token::Star => Some(Op::Mul),
        Token::Slash => Some(Op::Div),
        _ => None,
    }
}

/// Compiles a `term` at the cursor.
#[verifier::loop_isolation(false)]
fn parse_term(lex: &mut Lexer, roll: &mut RollBuilder) -> (result: Result<(), Error>)
    requires
        old(lex).well_formed(),
        old(roll).well_formed(),
    ensures
        follows(
            *old(lex),
            *old(roll),
            *final(lex),
            *final(roll),
            result,
            term(old(lex).chars@, old(lex).position as int),
        ),
    decreases remaining(old(lex).chars@, old(lex).position as int), 6int,
{
    let ghost text = lex.chars@;
    let ghost from = lex.position as int;
    let ghost base = roll.ops@;
    proof {
        lemma_term(text, from);
    }
    match parse_factor(lex, roll) {
        Ok(()) => {},
        Err(e) => {
            return Err(e);
        },
    }
    let ghost done = factor(text, from)->Ok_0.0;
    let mut found = additive_op(lex.current());
    while found.is_some()
        invariant
            lex.well_formed(),
            lex.input == old(lex).input,
            lex.chars == old(lex).chars,
            lex.position >= from,
            roll.well_formed(),
            roll.ops@ == base + done,
            depth(roll.ops@) == depth(base) + 1,
            found == additive(lex.current.token),
            term(text, from) == after(
                done,
                (lex.position - from) as nat,
                term_tail(text, lex.position as int),
            ),
        decreases remaining(text, lex.position as int),
    {
        let op = found.unwrap();
        let ghost here = lex.position as int;
        proof {
            lemma_lexeme_at(text, here);
            lemma_term_tail(text, here);
        }
        match lex.bump() {
            Ok(_) => {},
            Err(e) => {
                return Err(e);
            },
        }
        let ghost next = lex.position as int;
        match parse_factor(lex, roll) {
            Ok(()) => {},
            Err(e) => {
                return Err(e);
            },
        }
        roll.emit(op);
        proof {
            let (code, used) = factor(text, next)->Ok_0;
            let n = (next - here) as nat;
            lemma_after_after(
                done,
                (here - from) as nat,
                code.push(op),
                n + used,
                term_tail(text, lex.position as int),
            );
            assert(roll.ops@ == base + (done + code.push(op)));
            done = done + code.push(op);
        }
        found = additive_op(lex.current());
    }
    proof {
        lemma_term_tail(text, lex.position as int);
        lemma_after_nothing(done, (lex.position - from) as nat);
    }
    Ok(())
}

/// Compiles a `factor` at the cursor.
#[verifier::loop_isolation(false)]
fn parse_factor(lex: &mut Lexer, roll: &mut RollBuilder) -> (result: Result<(), Error>)
    requires
        old(lex).well_formed(),
        old(roll).well_formed(),
    ensures
        follows(
            *old(lex),
            *old(roll),
            *final(lex),
            *final(roll),
            result,
            factor(old(lex).chars@, old(lex).position as int),
        ),
    decreases remaining(old(lex).chars@, old(lex).position as int), 5int,
{
    let ghost text = lex.chars@;
    let ghost from = lex.position as int;
    let ghost base = roll.ops@;
    proof {
        lemma_factor(text, from);
    }
    match parse_prefix(lex, roll) {
        Ok(()) => {},
        Err(e) => {
            return Err(e);
        },
    }
    let ghost done = prefix(text, from)->Ok_0.0;
    let mut found = multiplicative_op(lex.current());
    while found.is_some()
        invariant
            lex.well_formed(),
            lex.input == old(lex).input,
            lex.chars == old(lex).chars,
            lex.position >= from,
            roll.well_formed(),
            roll.ops@ == base + done,
            depth(roll.ops@) == depth(base) + 1,
            found == multiplicative(lex.current.token),
            factor(text, from) == after(
                done,
                (lex.position - from) as nat,
                factor_tail(text, lex.position as int),
            ),
        decreases remaining(text, lex.position as int),
    {
        let op = found.unwrap();
        let ghost here = lex.position as int;
        proof {
            lemma_lexeme_at(text, here);
            lemma_factor_tail(text, here);
        }
        match lex.bump() {
            Ok(_) => {},
            Err(e) => {
                return Err(e);
            },
        }
        let ghost next = lex.position as int;
        match parse_prefix(lex, roll) {
            Ok(()) => {},
            Err(e) => {
                return Err(e);
            },
        }
        roll.emit(op);
        proof {
            let (code, used) = prefix(text, next)->Ok_0;
            let n = (next - here) as nat;
            lemma_after_after(
                done,
                (here - from) as nat,
                code.push(op),
                n + used,
                factor_tail(text, lex.position as int),
            );
            assert(roll.ops@ == base + (done + code.push(op)));
            done = done + code.push(op);
        }
        found = multiplicative_op(lex.current());
    }
    proof {
        lemma_factor_tail(text, lex.position as int);
        lemma_after_nothing(done, (lex.position - from) as nat);
    }
    Ok(())
}

/// Compiles a `prefix` at the cursor.
fn parse_prefix(lex: &mut Lexer, roll: &mut RollBuilder) -> (result: Result<(), Error>)
    requires
        old(lex).well_formed(),
        old(roll).well_formed(),
    ensures
        follows(
            *old(lex),
            *old(roll),
            *final(lex),
            *final(roll),
            result,
            prefix(old(lex).chars@, old(lex).position as int),
        ),
    decreases remaining(old(lex).chars@, old(lex).position as int), 4int,
{
    let ghost text = lex.chars@;
    let ghost from = lex.position as int;
    let ghost base = roll.ops@;
    proof {
        lemma_lexeme_at(text, from);
        lemma_prefix(text, from);
    }
    match lex.bump_if(Token::Minus) {
        Ok(true) => {
            let ghost next = lex.position as int;
            match parse_dice_unary(lex, roll) {
                Ok(()) => {},
                Err(e) => {
                    return Err(e);
                },
            }
            roll.emit(Op::Neg);
            proof {
                let (code, used) = dice_unary(text, next)->Ok_0;
                assert(Seq::<Op>::empty() + code.push(Op::Neg) == code.push(Op::Neg));
                assert(roll.ops@ == base + code.push(Op::Neg));
            }
            Ok(())
        },
        Ok(false) => parse_dice_unary(lex, roll),
        Err(e) => Err(e),
    }
}

/// Compiles a `dice_unary` at the cursor.
fn parse_dice_unary(lex: &mut Lexer, roll: &mut RollBuilder) -> (result: Result<(), Error>)
    requires
        old(lex).well_formed(),
        old(roll).well_formed(),
    ensures
        follows(
            *old(lex),
            *old(roll),
            *final(lex),
            *final(roll),
            result,
            dice_unary(old(lex).chars@, old(lex).position as int),
        ),
    decreases remaining(old(lex).chars@, old(lex).position as int), 3int,
{
    let ghost text = lex.chars@;
    let ghost from = lex.position as int;
    let ghost base = roll.ops@;
    proof {
        lemma_lexeme_at(text, from);
        lemma_dice_unary(text, from);
    }
    match lex.bump_if(Token::Dice) {
        Ok(true) => {
            roll.emit(Op::Num(1));
            let ghost next = lex.position as int;
            match parse_primary(lex, roll) {
                Ok(()) => {},
                Err(e) => {
                    return Err(e);
                },
            }
            roll.emit(Op::Dice);
            proof {
                let (code, used) = primary(text, next)->Ok_0;
                assert(roll.ops@ == base + (seq![Op::Num(1)] + code.push(Op::Dice)));
            }
            Ok(())
        },
        Ok(false) => parse_dice_binary(lex, roll),
        Err(e) => Err(e),
    }
}

/// Compiles a `dice_binary` at the cursor.
fn parse_dice_binary(lex: &mut Lexer, roll: &mut RollBuilder) -> (result: Result<(), Error>)
    requires
        old(lex).well_formed(),
        old(roll).well_formed(),
    ensures
        follows(
            *old(lex),
            *old(roll),
            *final(lex),
            *final(roll),
            result,
            dice_binary(old(lex).chars@, old(lex).position as int),
        ),
    decreases remaining(old(lex).chars@, old(lex).position as int), 2int,
{
    let ghost text = lex.chars@;
    let ghost from = lex.position as int;
    let ghost base = roll.ops@;
    proof {
        lemma_dice_binary(text, from);
    }
    match parse_primary(lex, roll) {
        Ok(()) => {},
        Err(e) => {
            return Err(e);
        },
    }
    let ghost middle = lex.position as int;
    proof {
        lemma_lexeme_at(text, middle);
    }
    match lex.bump_if(Token::Dice) {
        Ok(true) => {
            let ghost next = lex.position as int;
            match parse_primary(lex, roll) {
                Ok(()) => {},
                Err(e) => {
                    return Err(e);
                },
            }
            roll.emit(Op::Dice);
            proof {
                let (code, used) = primary(text, from)->Ok_0;
                let (more, rest) = primary(text, next)->Ok_0;
                assert(roll.ops@ == base + (code + more.push(Op::Dice)));
            }
            Ok(())
        },
        Ok(false) => Ok(()),
        Err(e) => Err(e),
    }
}

/// Compiles a `primary` at the cursor.
#[verifier::loop_isolation(false)]
fn parse_primary(lex: &mut Lexer, roll: &mut RollBuilder) -> (result: Result<(), Error>)
    requires
        old(lex).well_formed(),
        old(roll).well_formed(),
    ensures
        follows(
            *old(lex),
            *old(roll),
            *final(lex),
            *final(roll),
            result,
            primary(old(lex).chars@, old(lex).position as int),
        ),
    decreases remaining(old(lex).chars@, old(lex).position as int), 1int,
{
    let ghost text = lex.chars@;
    let ghost from = lex.position as int;
    let ghost base = roll.ops@;
    proof {
        lemma_lexeme_at(text, from);
        lemma_primary(text, from);
    }
    if lex.check(Token::Number) {
        let number = match lex.bump() {
            Ok(number) => number,
            Err(e) => {
                return Err(e);
            },
        };
        let value = match parse_int(lex, number) {
            Ok(value) => value,
            Err(e) => {
                return Err(e);
            },
        };
        roll.emit(Op::Num(value));
        proof {
            assert(roll.ops@ == base + seq![Op::Num(value)]);
        }
        return Ok(());
    }
    match lex.bump_if(Token::ParenL) {
        Ok(true) => {
            let ghost inner = lex.position as int;
            let mut n: usize = 1;
            while lex.check(Token::ParenL)
                invariant
                    lex.well_formed(),
                    lex.input == old(lex).input,
                    lex.chars == old(lex).chars,
                    lex.position >= inner,
                    1 <= n <= lex.position - from,
                    opened(text, inner) == and_opened(
                        (n - 1) as nat,
                        (lex.position - inner) as nat,
                        opened(text, lex.position as int),
                    ),
                decreases remaining(text, lex.position as int),
            {
                proof {
                    lemma_lexeme_at(text, lex.position as int);
                    lemma_opened(text, lex.position as int);
                }
                match lex.bump() {
                    Ok(_) => {},
                    Err(e) => {
                        return Err(e);
                    },
                }
                n += 1;
            }
            proof {
                lemma_opened(text, lex.position as int);
            }
            let ghost body = lex.position as int;
            match parse_expr(lex, roll) {
                Ok(()) => {},
                Err(e) => {
                    return Err(e);
                },
            }
            let ghost end = lex.position as int;
            let mut i: usize = 0;
            while i < n
                invariant
                    lex.well_formed(),
                    lex.input == old(lex).input,
                    lex.chars == old(lex).chars,
                    lex.position >= end,
                    i <= n,
                    closed(text, end, n as nat) == and_closed(
                        (lex.position - end) as nat,
                        closed(text, lex.position as int, (n - i) as nat),
                    ),
                decreases n - i,
            {
                proof {
                    lemma_closed(text, lex.position as int, (n - i) as nat);
                }
                match lex.expect(Token::ParenR) {
                    Ok(()) => {},
                    Err(e) => {
                        return Err(e);
                    },
                }
                i += 1;
            }
            proof {
                lemma_closed(text, lex.position as int, 0);
            }
            return Ok(());
        },
        Ok(false) => {},
        Err(e) => {
            return Err(e);
        },
    }
    if lex.check(Token::Eof) {
        Err(Error::unexpected_eof())
    } else {
        Err(Error::unexpected_input(lex.slice()))
    }
}

} // verus!
