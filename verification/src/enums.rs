//! Enums and pattern matching: optional and fallible results, a traffic
//! light and a small command language.
use crate::text::{dec, dec_int, parse_i32, parse_u32, parsed_i32, parsed_u32, push_dec, push_dec_i64};
use vstd::prelude::*;

verus! {

/// The first even number of `s`.
pub open spec fn first_even(s: Seq<i32>) -> Option<i32>
    decreases s.len(),
{
    if s.len() == 0 {
        None
    } else if s[0] % 2 == 0 {
        Some(s[0])
    } else {
        first_even(s.drop_first())
    }
}

/// The first even number in `numbers`, if any.
pub fn find_even(numbers: &[i32]) -> (r: Option<i32>)
    ensures
        r == first_even(numbers@),
{
    let mut i: usize = 0;
    assert(numbers@.skip(0) =~= numbers@);
    while i < numbers.len()
        invariant
            i <= numbers@.len(),
            first_even(numbers@) == first_even(numbers@.skip(i as int)),
        decreases numbers@.len() - i,
    {
        assert(numbers@.skip(i as int).drop_first() =~= numbers@.skip(i + 1));
        if numbers[i] % 2 == 0 {
            return Some(numbers[i]);
        }
        i = i + 1;
    }
    None
}

/// The message for input that is not a number: `'input'は数値ではありません`.
pub open spec fn not_a_number(input: Seq<char>) -> Seq<char> {
    "'"@ + input + "'は数値ではありません"@
}

fn not_a_number_message(input: &str) -> (s: String)
    ensures
        s@ == not_a_number(input@),
{
    let mut s = String::from_str("'");
    s.append(input);
    s.append("'は数値ではありません");
    s
}

/// An age read from text: a `u32` up to 150.
pub open spec fn age_of(input: Seq<char>) -> Result<u32, Seq<char>> {
    match parsed_u32(input) {
        None => Err(not_a_number(input)),
        Some(age) => if age > 150 {
            Err("年齢が大きすぎます"@)
        } else {
            Ok(age)
        },
    }
}

/// Reads an age: a non-negative number no greater than 150.
pub fn parse_age(input: &str) -> (r: Result<u32, String>)
    ensures
        match (r, age_of(input@)) {
            (Ok(a), Ok(b)) => a == b,
            (Err(e), Err(m)) => e@ == m,
            _ => false,
        },
{
    let age = match parse_u32(input) {
        Ok(a) => a,
        Err(_) => {
            return Err(not_a_number_message(input));
        },
    };
    if age > 150 {
        return Err(String::from_str("年齢が大きすぎます"));
    }
    Ok(age)
}

/// `N歳は成人です` from 18 on, `N歳は未成年です` below.
pub open spec fn age_sentence(age: u32) -> Seq<char> {
    dec(age as nat) + "歳は"@ + (if age >= 18 {
        "成人"@
    } else {
        "未成年"@
    }) + "です"@
}

/// Reads an age and says whether it is that of an adult.
pub fn process_age(input: &str) -> (r: Result<String, String>)
    ensures
        match (r, age_of(input@)) {
            (Ok(s), Ok(a)) => s@ == age_sentence(a),
            (Err(e), Err(m)) => e@ == m,
            _ => false,
        },
{
    let age = match parse_age(input) {
        Ok(a) => a,
        Err(e) => {
            return Err(e);
        },
    };
    let mut s = String::new();
    push_dec(&mut s, age as u64);
    s.append("歳は");
    if age >= 18 {
        s.append("成人");
    } else {
        s.append("未成年");
    }
    s.append("です");
    assert(s@ =~= age_sentence(age));
    Ok(s)
}

/// A traffic light's colours.
#[derive(Clone, Copy, Debug, PartialEq, Eq, Structural)]
pub enum TrafficLight {
    Red,
    Yellow,
    Green,
}

impl TrafficLight {
    /// What the light tells a driver: stop, caution, go.
    pub fn message(&self) -> (m: &'static str)
        ensures
            m@ == (match *self {
                TrafficLight::Red => "止まれ"@,
                TrafficLight::Yellow => "注意"@,
                TrafficLight::Green => "進め"@,
            }),
    {
        match self {
            TrafficLight::Red => "止まれ",
            TrafficLight::Yellow => "注意",
            TrafficLight::Green => "進め",
        }
    }
}

/// Commands, each carrying its own data.
pub enum Command {
    Quit,
    Echo(String),
    Move { x: i32, y: i32 },
    Color(u8, u8, u8),
}

/// The report of carrying out a command.
pub open spec fn command_report(cmd: Command) -> Seq<char> {
    match cmd {
        Command::Quit => "終了します"@,
        Command::Echo(text) => text@,
        Command::Move { x, y } => "("@ + dec_int(x as int) + ", "@ + dec_int(y as int) + ") に移動"@,
        Command::Color(r, g, b) => "色: rgb("@ + dec(r as nat) + ", "@ + dec(g as nat) + ", "@
            + dec(b as nat) + ")"@,
    }
}

/// Carries out a command and reports what it did.
pub fn execute(cmd: &Command) -> (s: String)
    ensures
        s@ == command_report(*cmd),
{
    match cmd {
        Command::Quit => String::from_str("終了します"),
        Command::Echo(text) => text.clone(),
        Command::Move { x, y } => {
            let mut s = String::from_str("(");
            push_dec_i64(&mut s, *x as i64);
            s.append(", ");
            push_dec_i64(&mut s, *y as i64);
            s.append(") に移動");
            s
        },
        Command::Color(r, g, b) => {
            let mut s = String::from_str("色: rgb(");
            push_dec(&mut s, *r as u64);
            s.append(", ");
            push_dec(&mut s, *g as u64);
            s.append(", ");
            push_dec(&mut s, *b as u64);
            s.append(")");
            s
        },
    }
}

/// Reads an `i32` and keeps it only when it is positive and even.
pub fn check_even_positive(input: &str) -> (r: Result<Option<i32>, String>)
    ensures
        match parsed_i32(input@) {
            None => r matches Err(e) && e@ == not_a_number(input@),
            Some(n) => r == Ok::<Option<i32>, String>(
                if n > 0 && n % 2 == 0 {
                    Some(n)
                } else {
                    None
                },
            ),
        },
{
    match parse_i32(input) {
        Err(_) => Err(not_a_number_message(input)),
        Ok(n) => Ok(
            if n > 0 && n % 2 == 0 {
                Some(n)
            } else {
                None
            },
        ),
    }
}

} // verus!
