//! Error handling: parse errors passed through, errors of the library's
//! own, and validation that reports which check failed.
use crate::text::{find_char, index_of, lemma_find_char, parse_i32, parsed_i32, chars_of};
use std::num::ParseIntError;
use vstd::prelude::*;

verus! {

/// Reads an `i32`; the error is the standard library's.
pub fn parse_number(s: &str) -> (r: Result<i32, ParseIntError>)
    ensures
        r is Ok <==> parsed_i32(s@) is Some,
        r matches Ok(n) ==> parsed_i32(s@) == Some(n),
{
    parse_i32(s)
}

/// Reads an `i32` and doubles it.
pub fn double_parse(s: &str) -> (r: Result<i32, ParseIntError>)
    requires
        parsed_i32(s@) matches Some(n) ==> i32::MIN <= 2 * n <= i32::MAX,
    ensures
        r is Ok <==> parsed_i32(s@) is Some,
        r matches Ok(m) ==> parsed_i32(s@) matches Some(n) && m == 2 * n,
{
    let n = parse_i32(s)?;
    Ok(n * 2)
}

/// Why an age was refused.
pub enum ValidationError {
    /// The text is not a number.
    ParseError(ParseIntError),
    /// The number lies outside `min ..= max`.
    OutOfRange { value: i32, min: i32, max: i32 },
}

impl From<ParseIntError> for ValidationError {
    fn from(e: ParseIntError) -> (r: Self) {
        ValidationError::ParseError(e)
    }
}

impl vstd::std_specs::convert::FromSpecImpl<ParseIntError> for ValidationError {
    open spec fn obeys_from_spec() -> bool {
        true
    }

    open spec fn from_spec(e: ParseIntError) -> Self {
        ValidationError::ParseError(e)
    }
}

/// Reads an age in 0 ..= 150.
pub fn validate_age(input: &str) -> (r: Result<i32, ValidationError>)
    ensures
        match parsed_i32(input@) {
            None => r matches Err(ValidationError::ParseError(_)),
            Some(age) => if 0 <= age <= 150 {
                r == Ok::<i32, ValidationError>(age)
            } else {
                r matches Err(ValidationError::OutOfRange { value, min, max }) && value == age
                    && min == 0 && max == 150
            },
        },
{
    let age = match parse_i32(input) {
        Ok(a) => a,
        Err(e) => {
            return Err(ValidationError::from(e));
        },
    };
    if !(0 <= age && age <= 150) {
        return Err(ValidationError::OutOfRange { value: age, min: 0, max: 150 });
    }
    Ok(age)
}

/// Why a user could not be created.
pub enum UserError {
    /// The name is empty.
    EmptyName,
    /// The age is not a number.
    InvalidAge(ParseIntError),
    /// The age lies outside `min ..= max`.
    AgeOutOfRange { value: i32, min: i32, max: i32 },
}

/// A user: name and age.
pub struct User {
    pub name: String,
    pub age: i32,
}

/// Creates a user from a name and an age in text: the name must not be
/// empty, and the age must be a number in 0 ..= 150; the checks are made in
/// that order.
pub fn create_user(name: &str, age_str: &str) -> (r: Result<User, UserError>)
    ensures
        name@.len() == 0 ==> r matches Err(UserError::EmptyName),
        name@.len() > 0 ==> match parsed_i32(age_str@) {
            None => r matches Err(UserError::InvalidAge(_)),
            Some(age) => if 0 <= age <= 150 {
                r matches Ok(u) && u.name@ == name@ && u.age == age
            } else {
                r matches Err(UserError::AgeOutOfRange { value, min, max }) && value == age && min
                    == 0 && max == 150
            },
        },
{
    if name.is_empty() {
        return Err(UserError::EmptyName);
    }
    let age = match parse_i32(age_str) {
        Ok(a) => a,
        Err(e) => {
            return Err(UserError::InvalidAge(e));
        },
    };
    if !(0 <= age && age <= 150) {
        return Err(UserError::AgeOutOfRange { value: age, min: 0, max: 150 });
    }
    Ok(User { name: String::from_str(name), age })
}

/// The first line of a text, as `str::lines` yields it: up to the first
/// `\n`, without it or a `\r` before it; the whole text when it has no
/// `\n`; nothing when the text is empty.
pub open spec fn first_line(s: Seq<char>) -> Option<Seq<char>> {
    if s.len() == 0 {
        None
    } else {
        match find_char(s, '\n') {
            Some(i) => if i > 0 && s[i - 1] == '\r' {
                Some(s.take(i - 1))
            } else {
                Some(s.take(i))
            },
            None => Some(s),
        }
    }
}

/// Why no number could be read from the first line.
pub enum FirstLineError {
    /// The text is empty.
    Empty,
    /// The first line is not a number.
    Parse(ParseIntError),
}

/// The number on the first line of a text.
pub fn first_line_number(content: &str) -> (r: Result<i32, FirstLineError>)
    ensures
        match first_line(content@) {
            None => r matches Err(FirstLineError::Empty),
            Some(line) => match parsed_i32(line) {
                Some(n) => r matches Ok(m) && m == n,
                None => r matches Err(FirstLineError::Parse(_)),
            },
        },
{
    let chars = chars_of(content);
    if chars.len() == 0 {
        return Err(FirstLineError::Empty);
    }
    proof {
        lemma_find_char(content@, '\n');
    }
    assert(chars@.subrange(0, chars@.len() as int) =~= chars@);
    let end = match index_of(&chars, 0, chars.len(), '\n') {
        Some(i) => if i > 0 && chars[i - 1] == '\r' {
            i - 1
        } else {
            i
        },
        None => chars.len(),
    };
    let line = content.substring_char(0, end);
    assert(content@.subrange(0, end as int) =~= content@.take(end as int));
    match parse_i32(line) {
        Ok(n) => Ok(n),
        Err(e) => Err(FirstLineError::Parse(e)),
    }
}

} // verus!
