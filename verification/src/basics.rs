//! Functions and control flow: arithmetic helpers, FizzBuzz and Fibonacci.
use crate::text::{dec, push_dec};
use vstd::prelude::*;

verus! {

/// The sum of two numbers.
pub fn add(a: i32, b: i32) -> (r: i32)
    requires
        i32::MIN <= a + b <= i32::MAX,
    ensures
        r == a + b,
{
    a + b
}

/// Twice a number.
pub fn double(x: i32) -> (r: i32)
    requires
        i32::MIN <= 2 * x <= i32::MAX,
    ensures
        r == 2 * x,
{
    x * 2
}

/// The absolute value.
pub fn abs(x: i32) -> (r: i32)
    requires
        x > i32::MIN,
    ensures
        r == (if x < 0 {
            -x
        } else {
            x as int
        }),
{
    if x < 0 {
        return -x;
    }
    x
}

/// The FizzBuzz word for `i`: `FizzBuzz` for multiples of 15, `Fizz` for
/// other multiples of 3, `Buzz` for other multiples of 5, else the number.
pub open spec fn fizz_buzz_word(i: nat) -> Seq<char> {
    if i % 15 == 0 {
        "FizzBuzz"@
    } else if i % 3 == 0 {
        "Fizz"@
    } else if i % 5 == 0 {
        "Buzz"@
    } else {
        dec(i)
    }
}

/// The FizzBuzz lines for 1 ..= n (none when n < 1).
pub fn fizz_buzz(n: i32) -> (lines: Vec<String>)
    ensures
        lines@.len() == (if n < 1 {
            0
        } else {
            n as int
        }),
        forall|k: int| 0 <= k < lines@.len() ==> #[trigger] lines@[k]@ == fizz_buzz_word(
            (k + 1) as nat,
        ),
{
    let mut lines: Vec<String> = Vec::new();
    let mut i: i64 = 1;
    while i <= n as i64
        invariant
            1 <= i,
            i <= (if n < 1 {
                1
            } else {
                n + 1
            }),
            lines@.len() == i - 1,
            forall|k: int| 0 <= k < lines@.len() ==> #[trigger] lines@[k]@ == fizz_buzz_word(
                (k + 1) as nat,
            ),
        decreases n + 1 - i,
    {
        let line = if i % 15 == 0 {
            String::from_str("FizzBuzz")
        } else if i % 3 == 0 {
            String::from_str("Fizz")
        } else if i % 5 == 0 {
            String::from_str("Buzz")
        } else {
            let mut s = String::new();
            push_dec(&mut s, i as u64);
            assert(s@ =~= dec(i as nat));
            s
        };
        lines.push(line);
        i = i + 1;
    }
    lines
}

/// The Fibonacci numbers: 0, 1, 1, 2, 3, 5, ...
pub open spec fn fib_of(n: nat) -> nat
    decreases n,
{
    if n == 0 {
        0
    } else if n == 1 {
        1
    } else {
        fib_of((n - 1) as nat) + fib_of((n - 2) as nat)
    }
}

/// The n-th Fibonacci number, by the defining recursion.
pub fn fib(n: u32) -> (r: u32)
    requires
        fib_of(n as nat) <= u32::MAX,
    ensures
        r == fib_of(n as nat),
    decreases n,
{
    if n == 0 {
        0
    } else if n == 1 {
        1
    } else {
        fib(n - 1) + fib(n - 2)
    }
}

} // verus!
