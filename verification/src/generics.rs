//! Traits and generics: a generic maximum and pair, the longer of two
//! slices, and summaries of different kinds of items.
use crate::text::{dec, push_dec};
use vstd::prelude::*;
use vstd::std_specs::cmp::{PartialOrdIs, PartialOrdSpec};

verus! {

/// The larger of two values; `a` when they compare equal. For types whose
/// comparison follows its specification the choice is exact; for others it
/// is still one of the two.
pub fn max_value<T: PartialOrd>(a: T, b: T) -> (r: T)
    ensures
        r == a || r == b,
        T::obeys_partial_cmp_spec() ==> r == (if a.is_ge(&b) {
            a
        } else {
            b
        }),
{
    if a >= b {
        a
    } else {
        b
    }
}

/// Two values of one type.
pub struct Pair<T> {
    pub first: T,
    pub second: T,
}

impl<T> Pair<T> {
    /// A pair of the two values.
    pub fn new(first: T, second: T) -> (p: Self)
        ensures
            p.first == first,
            p.second == second,
    {
        Pair { first, second }
    }
}

impl<T: PartialOrd + Copy> Pair<T> {
    /// The larger of the two; the first when they compare equal.
    pub fn max(&self) -> (r: T)
        ensures
            r == self.first || r == self.second,
            T::obeys_partial_cmp_spec() ==> r == (if self.first.is_ge(&self.second) {
                self.first
            } else {
                self.second
            }),
    {
        if self.first >= self.second {
            self.first
        } else {
            self.second
        }
    }
}

/// The longer of two slices; `a` when they are equally long.
pub fn longest<'a, T>(a: &'a [T], b: &'a [T]) -> (r: &'a [T])
    ensures
        r == (if a@.len() >= b@.len() {
            a
        } else {
            b
        }),
{
    if a.len() >= b.len() {
        a
    } else {
        b
    }
}

/// Things that can be summed up in one line.
pub trait Summary {
    fn summarize(&self) -> String;
}

/// A news article.
pub struct NewsArticle {
    pub title: String,
    pub author: String,
}

/// A short post.
pub struct Tweet {
    pub username: String,
    pub content: String,
}

impl Summary for NewsArticle {
    /// `title by author`.
    fn summarize(&self) -> (s: String)
        ensures
            s@ == self.title@ + " by "@ + self.author@,
    {
        let mut s = String::from_str(self.title.as_str());
        s.append(" by ");
        s.append(self.author.as_str());
        s
    }
}

impl Summary for Tweet {
    /// `@username: content`.
    fn summarize(&self) -> (s: String)
        ensures
            s@ == "@"@ + self.username@ + ": "@ + self.content@,
    {
        let mut s = String::from_str("@");
        s.append(self.username.as_str());
        s.append(": ");
        s.append(self.content.as_str());
        s
    }
}

/// An article with a title and a body.
pub struct Article {
    pub title: String,
    pub body: String,
}

/// The first 20 characters of a body, followed by `...` when it is longer.
pub open spec fn preview_of(body: Seq<char>) -> Seq<char> {
    if body.len() > 20 {
        body.take(20) + "..."@
    } else {
        body
    }
}

impl Article {
    /// The body as shown in a listing: its first 20 characters, with `...`
    /// when there is more.
    pub fn preview(&self) -> (s: String)
        ensures
            s@ == preview_of(self.body@),
    {
        let chars = crate::text::chars_of(self.body.as_str());
        if chars.len() > 20 {
            let mut s = crate::text::string_of(&chars, 0, 20);
            s.append("...");
            assert(chars@.subrange(0, 20) =~= self.body@.take(20));
            s
        } else {
            assert(chars@.subrange(0, chars@.len() as int) =~= chars@);
            crate::text::string_of(&chars, 0, chars.len())
        }
    }
}

/// A colour by its red, green and blue components.
pub struct Color {
    pub r: u8,
    pub g: u8,
    pub b: u8,
}

impl Color {
    /// `rgb(r, g, b)`.
    pub fn rgb_text(&self) -> (s: String)
        ensures
            s@ == "rgb("@ + dec(self.r as nat) + ", "@ + dec(self.g as nat) + ", "@ + dec(
                self.b as nat,
            ) + ")"@,
    {
        let mut s = String::from_str("rgb(");
        push_dec(&mut s, self.r as u64);
        s.append(", ");
        push_dec(&mut s, self.g as u64);
        s.append(", ");
        push_dec(&mut s, self.b as u64);
        s.append(")");
        s
    }
}

} // verus!
