//! Structs and methods: a book record and a counter.
use crate::text::{dec, push_dec};
use vstd::prelude::*;

verus! {

/// A book: title, author and page count.
pub struct Book {
    pub title: String,
    pub author: String,
    pub pages: u32,
}

impl Book {
    /// A book with the given fields.
    pub fn new(title: &str, author: &str, pages: u32) -> (b: Self)
        ensures
            b.title@ == title@,
            b.author@ == author@,
            b.pages == pages,
    {
        Book { title: String::from_str(title), author: String::from_str(author), pages }
    }

    /// `title by author (Np)`.
    pub fn summary(&self) -> (s: String)
        ensures
            s@ == self.title@ + " by "@ + self.author@ + " ("@ + dec(self.pages as nat) + "p)"@,
    {
        let mut s = String::from_str(self.title.as_str());
        s.append(" by ");
        s.append(self.author.as_str());
        s.append(" (");
        push_dec(&mut s, self.pages as u64);
        s.append("p)");
        s
    }
}

/// A counter that starts at zero and steps up and down by one.
pub struct Counter {
    count: i32,
}

impl View for Counter {
    type V = int;

    closed spec fn view(&self) -> int {
        self.count as int
    }
}

impl Counter {
    /// A counter at zero.
    pub fn new() -> (c: Self)
        ensures
            c@ == 0,
    {
        Counter { count: 0 }
    }

    /// Adds one.
    pub fn increment(&mut self)
        requires
            old(self)@ < i32::MAX,
        ensures
            final(self)@ == old(self)@ + 1,
    {
        self.count = self.count + 1;
    }

    /// Subtracts one.
    pub fn decrement(&mut self)
        requires
            old(self)@ > i32::MIN,
        ensures
            final(self)@ == old(self)@ - 1,
    {
        self.count = self.count - 1;
    }

    /// The current count.
    pub fn value(&self) -> (v: i32)
        ensures
            v == self@,
    {
        self.count
    }
}


/// How many of `steps` are `up` (true for an increment, false for a
/// decrement).
pub open spec fn step_count(steps: Seq<bool>, up: bool) -> nat
    decreases steps.len(),
{
    if steps.len() == 0 {
        0
    } else {
        step_count(steps.drop_last(), up) + if steps.last() == up {
            1nat
        } else {
            0nat
        }
    }
}

/// A counter run: `states[0]` is what `new` gives, and each next state is
/// what `increment` (for a true step) or `decrement` (for a false step)
/// leaves; then the count is the number of increments minus the number of
/// decrements, in whatever order they came.
pub proof fn counter_run(steps: Seq<bool>, states: Seq<Counter>)
    requires
        states.len() == steps.len() + 1,
        states[0]@ == 0,
        forall|k: int|
            0 <= k < steps.len() ==> #[trigger] states[k + 1]@ == if steps[k] {
                states[k]@ + 1
            } else {
                states[k]@ - 1
            },
    ensures
        states.last()@ == step_count(steps, true) - step_count(steps, false),
    decreases steps.len(),
{
    if steps.len() > 0 {
        let k = steps.len() - 1;
        let s2 = steps.drop_last();
        let t2 = states.drop_last();
        assert forall|j: int| 0 <= j < s2.len() implies #[trigger] t2[j + 1]@ == if s2[j] {
            t2[j]@ + 1
        } else {
            t2[j]@ - 1
        } by {
            assert(states[j + 1]@ == if steps[j] {
                states[j]@ + 1
            } else {
                states[j]@ - 1
            });
        }
        counter_run(s2, t2);
        assert(states[k + 1]@ == if steps[k] {
            states[k]@ + 1
        } else {
            states[k]@ - 1
        });
    }
}

} // verus!
