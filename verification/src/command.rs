//! The lines that an interactive shell takes: a roll to evaluate, or a word
//! on the seed.
//!
//! ```text
//! !seed          print the seed
//! !seed none     take a fresh seed
//! !seed 42       take 42 as the seed
//! 3d6 + 2        evaluate the roll
//! ```

use crate::error::Error;
use crate::eval::{peak, Op, Roll};
use crate::lex::{chars_of, is_space, is_whitespace};
use crate::parse::{compiled, number_value, parse};
use vstd::prelude::*;

verus! {

/// What a line asks for.
#[derive(Debug)]
pub enum Command {
    PrintSeed,
    /// The seed to take, or `None` for a fresh one.
    SetSeed(Option<u64>),
    Eval(Roll),
}

/// What a line asks for, with a roll as its instructions.
pub enum Order {
    PrintSeed,
    SetSeed(Option<u64>),
    Eval(Seq<Op>),
}

/// What is wrong with a line.
pub enum Refusal {
    /// What follows `!seed` is no seed.
    Seed,
    /// The line is no roll.
    Roll,
}

impl Refusal {
    /// The message of an error for this refusal.
    pub open spec fn message(self) -> Seq<char> {
        match self {
            Refusal::Seed => "failed to parse seed"@,
            Refusal::Roll => "failed to parse roll"@,
        }
    }
}

/// The word that begins a line on the seed.
pub open spec fn keyword() -> Seq<char> {
    seq!['!', 's', 'e', 'e', 'd']
}

/// `text` without the white space at its start.
pub open spec fn trim_start(text: Seq<char>) -> Seq<char>
    decreases text.len(),
{
    if text.len() > 0 && is_space(text[0]) {
        trim_start(text.drop_first())
    } else {
        text
    }
}

/// `text` without the white space at its end.
pub open spec fn trim_end(text: Seq<char>) -> Seq<char>
    decreases text.len(),
{
    if text.len() > 0 && is_space(text.last()) {
        trim_end(text.drop_last())
    } else {
        text
    }
}

/// Whether `text` is made of decimal digits, and of one at least.
pub open spec fn is_number(text: Seq<char>) -> bool {
    &&& text.len() > 0
    &&& forall|i: int| 0 <= i < text.len() ==> '0' <= #[trigger] text[i] <= '9'
}

/// The seed that `text` spells: decimal digits, after a `+` or without,
/// that make a `u64`.
pub open spec fn seed_of(text: Seq<char>) -> Option<u64> {
    let digits = if text.len() > 0 && text[0] == '+' {
        text.drop_first()
    } else {
        text
    };
    if is_number(digits) && number_value(digits) <= u64::MAX {
        Some(number_value(digits) as u64)
    } else {
        None
    }
}

/// What `line` asks for. A line that begins with `!seed` is about the seed
/// and goes by what follows the word, white space around it aside: nothing,
/// `none`, or a seed. Any other line is a roll.
pub open spec fn order_of(line: Seq<char>) -> Result<Order, Refusal> {
    if keyword().is_prefix_of(line) {
        let rest = trim_end(trim_start(line.skip(5)));
        if rest.len() == 0 {
            Ok(Order::PrintSeed)
        } else if rest == seq!['n', 'o', 'n', 'e'] {
            Ok(Order::SetSeed(None))
        } else {
            match seed_of(rest) {
                Some(seed) => Ok(Order::SetSeed(Some(seed))),
                None => Err(Refusal::Seed),
            }
        }
    } else {
        match compiled(line) {
            Ok(code) => Ok(Order::Eval(code)),
            Err(_) => Err(Refusal::Roll),
        }
    }
}

/// Whether `result` is what `expected` describes.
pub open spec fn obeys(result: Result<Command, Error>, expected: Result<Order, Refusal>) -> bool {
    match expected {
        Ok(Order::PrintSeed) => result matches Ok(Command::PrintSeed),
        Ok(Order::SetSeed(seed)) => result matches Ok(Command::SetSeed(s)) && s == seed,
        Ok(Order::Eval(code)) => {
            &&& result matches Ok(Command::Eval(roll))
            &&& roll.ops@ == code
            &&& roll.stack_size == peak(code)
            &&& roll.well_formed()
        },
        Err(refusal) => result matches Err(e) && e.message@ == refusal.message(),
    }
}

/// Whether `chars` begins with `!seed`.
fn has_keyword(chars: &Vec<char>) -> (has: bool)
    ensures
        has == keyword().is_prefix_of(chars@),
{
    let has = chars.len() >= 5 && chars[0] == '!' && chars[1] == 's' && chars[2] == 'e' && chars[3]
        == 'e' && chars[4] == 'd';
    proof {
        if has {
            assert(chars@.subrange(0, 5) == keyword());
        } else if chars.len() >= 5 {
            let head = chars@.subrange(0, 5);
            assert(head[0] == chars[0] && head[1] == chars[1] && head[2] == chars[2] && head[3]
                == chars[3] && head[4] == chars[4]);
        }
    }
    has
}

/// The seed that the characters of `chars` from `from` up to `to` spell.
#[verifier::loop_isolation(false)]
fn parse_seed(chars: &Vec<char>, from: usize, to: usize) -> (seed: Option<u64>)
    requires
        from < to <= chars.len(),
    ensures
        seed == seed_of(chars@.subrange(from as int, to as int)),
{
    let ghost text = chars@.subrange(from as int, to as int);
    let first = if chars[from] == '+' {
        from + 1
    } else {
        from
    };
    let ghost digits = chars@.subrange(first as int, to as int);
    proof {
        assert(text[0] == chars[from as int]);
        if first > from {
            assert(text.drop_first() == digits);
        } else {
            assert(text == digits);
        }
        assert(digits.take(0) == Seq::<char>::empty());
    }
    if first == to {
        return None;
    }
    let mut seed: u64 = 0;
    let mut overflown = false;
    let mut i = first;
    while i < to
        invariant
            first <= i <= to,
            forall|j: int| 0 <= j < i - first ==> '0' <= #[trigger] digits[j] <= '9',
            !overflown ==> seed == number_value(digits.take(i - first)),
            overflown ==> number_value(digits.take(i - first)) > u64::MAX,
        decreases to - i,
    {
        let c = chars[i];
        proof {
            assert(digits[i - first] == c);
        }
        if !('0' <= c && c <= '9') {
            return None;
        }
        proof {
            let k = i - first;
            assert(digits.take(k + 1).drop_last() == digits.take(k));
            assert(digits.take(k + 1).last() == c);
        }
        if !overflown {
            let digit = (c as u32 - '0' as u32) as u64;
            let next = match seed.checked_mul(10) {
                Some(tens) => tens.checked_add(digit),
                None => None,
            };
            match next {
                Some(next) => {
                    seed = next;
                },
                None => {
                    overflown = true;
                },
            }
        }
        i += 1;
    }
    proof {
        assert(digits.take(i - first) == digits);
    }
    if overflown {
        None
    } else {
        Some(seed)
    }
}

/// Reads a line of the shell.
#[verifier::loop_isolation(false)]
pub fn parse_cmd(line: &str) -> (result: Result<Command, Error>)
    ensures
        obeys(result, order_of(line@)),
{
    let chars = chars_of(line);
    if !has_keyword(&chars) {
        return match parse(line) {
            Ok(roll) => Ok(Command::Eval(roll)),
            Err(_) => Err(Error::new("failed to parse roll")),
        };
    }
    let ghost tail = chars@.skip(5);
    let mut from: usize = 5;
    let mut to: usize = chars.len();
    proof {
        assert(chars@.subrange(5, to as int) == tail);
    }
    while from < to && is_whitespace(chars[from])
        invariant
            5 <= from <= to == chars.len(),
            trim_start(tail) == trim_start(chars@.subrange(from as int, to as int)),
        decreases to - from,
    {
        proof {
            let here = chars@.subrange(from as int, to as int);
            assert(here[0] == chars[from as int]);
            assert(here.drop_first() == chars@.subrange(from + 1, to as int));
        }
        from += 1;
    }
    let ghost start = chars@.subrange(from as int, to as int);
    proof {
        if from < to {
            assert(start[0] == chars[from as int]);
        }
        assert(trim_start(tail) == start);
    }
    while from < to && is_whitespace(chars[to - 1])
        invariant
            5 <= from <= to <= chars.len(),
            trim_end(start) == trim_end(chars@.subrange(from as int, to as int)),
        decreases to - from,
    {
        proof {
            let here = chars@.subrange(from as int, to as int);
            assert(here.last() == chars[to - 1]);
            assert(here.drop_last() == chars@.subrange(from as int, to - 1));
        }
        to -= 1;
    }
    let ghost rest = chars@.subrange(from as int, to as int);
    proof {
        if from < to {
            assert(rest.last() == chars[to - 1]);
        }
        assert(trim_end(start) == rest);
    }
    if from == to {
        return Ok(Command::PrintSeed);
    }
    let none = to - from == 4 && chars[from] == 'n' && chars[from + 1] == 'o' && chars[from + 2]
        == 'n' && chars[from + 3] == 'e';
    proof {
        let word = seq!['n', 'o', 'n', 'e'];
        if none {
            assert(rest == word);
        } else if rest.len() == 4 {
            assert(rest[0] == chars[from as int] && rest[1] == chars[from + 1] && rest[2]
                == chars[from + 2] && rest[3] == chars[from + 3]);
            assert(word[0] == 'n' && word[1] == 'o' && word[2] == 'n' && word[3] == 'e');
        }
    }
    if none {
        return Ok(Command::SetSeed(None));
    }
    match parse_seed(&chars, from, to) {
        Some(seed) => Ok(Command::SetSeed(Some(seed))),
        None => Err(Error::new("failed to parse seed")),
    }
}

} // verus!
