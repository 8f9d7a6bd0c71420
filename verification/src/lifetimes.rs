//! Lifetimes: functions and structs that hand back references into their
//! arguments.
use crate::text::{chars_of, find_char, index_of, is_whitespace, lemma_find_char, trim_start};
use vstd::prelude::*;
use vstd::string::StringSliceAdditionalSpecFns;

verus! {

/// The text before the first space, or all of `s` when it has none.
pub open spec fn first_word_of(s: Seq<char>) -> Seq<char> {
    match find_char(s, ' ') {
        Some(i) => s.take(i),
        None => s,
    }
}

/// The first word of `s`: everything before its first space.
pub fn first_word(s: &str) -> (w: &str)
    ensures
        w@ == first_word_of(s@),
{
    let chars = chars_of(s);
    proof {
        lemma_find_char(s@, ' ');
    }
    assert(chars@.subrange(0, chars@.len() as int) =~= chars@);
    match index_of(&chars, 0, chars.len(), ' ') {
        Some(i) => s.substring_char(0, i),
        None => s,
    }
}

/// The longer of two strings by byte length; `y` on a tie.
pub fn longest<'a>(x: &'a str, y: &'a str) -> (r: &'a str)
    ensures
        r == (if x.spec_bytes().len() > y.spec_bytes().len() {
            x
        } else {
            y
        }),
{
    if x.as_bytes().len() > y.as_bytes().len() {
        x
    } else {
        y
    }
}

/// The shorter of two strings by byte length; `y` on a tie.
pub fn shortest<'a>(x: &'a str, y: &'a str) -> (r: &'a str)
    ensures
        r == (if x.spec_bytes().len() < y.spec_bytes().len() {
            x
        } else {
            y
        }),
{
    if x.as_bytes().len() < y.as_bytes().len() {
        x
    } else {
        y
    }
}

/// The first word and what follows the space after it; all of `s` and an
/// empty rest when there is no space.
pub fn split_first_word(s: &str) -> (r: (&str, &str))
    ensures
        match find_char(s@, ' ') {
            Some(i) => r.0@ == s@.take(i) && r.1@ == s@.skip(i + 1),
            None => r.0@ == s@ && r.1@ == Seq::<char>::empty(),
        },
{
    let chars = chars_of(s);
    proof {
        lemma_find_char(s@, ' ');
        reveal_strlit("");
    }
    assert(chars@.subrange(0, chars@.len() as int) =~= chars@);
    match index_of(&chars, 0, chars.len(), ' ') {
        Some(i) => {
            let head = s.substring_char(0, i);
            let tail = s.substring_char(i + 1, chars.len());
            assert(s@.subrange(i + 1, s@.len() as int) =~= s@.skip(i + 1));
            (head, tail)
        },
        None => (s, ""),
    }
}

/// Position of the first whitespace character in `s`, or its length.
pub open spec fn word_end(s: Seq<char>) -> int
    decreases s.len(),
{
    if s.len() == 0 || is_whitespace(s[0]) {
        0
    } else {
        1 + word_end(s.drop_first())
    }
}

proof fn lemma_word_end(s: Seq<char>)
    ensures
        0 <= word_end(s) <= s.len(),
        forall|k: int| 0 <= k < word_end(s) ==> !is_whitespace(#[trigger] s[k]),
        word_end(s) < s.len() ==> is_whitespace(s[word_end(s)]),
    decreases s.len(),
{
    if s.len() > 0 && !is_whitespace(s[0]) {
        lemma_word_end(s.drop_first());
        assert forall|k: int| 0 < k < word_end(s) implies !is_whitespace(#[trigger] s[k]) by {
            assert(s[k] == s.drop_first()[k - 1]);
        }
    }
}

proof fn lemma_trim_start(s: Seq<char>)
    ensures
        trim_start(s).len() <= s.len(),
        trim_start(s) == s.skip(s.len() - trim_start(s).len()),
        trim_start(s).len() > 0 ==> !is_whitespace(trim_start(s)[0]),
    decreases s.len(),
{
    if s.len() > 0 && is_whitespace(s[0]) {
        lemma_trim_start(s.drop_first());
        assert(s.drop_first().skip(s.drop_first().len() - trim_start(s).len()) =~= s.skip(
            s.len() - trim_start(s).len(),
        ));
    } else {
        assert(s.skip(0) =~= s);
    }
}

/// The whitespace-separated words of `s`, as `str::split_whitespace` gives
/// them.
pub open spec fn words_of(s: Seq<char>) -> Seq<Seq<char>>
    decreases s.len(),
{
    let t = trim_start(s);
    let k = word_end(t);
    if t.len() == 0 || t.len() > s.len() || k < 1 || k > t.len() {
        Seq::empty()
    } else {
        seq![t.take(k)] + words_of(t.skip(k))
    }
}

/// Length in bytes of a text.
pub open spec fn byte_len(w: Seq<char>) -> nat {
    vstd::utf8::encode_utf8(w).len()
}

/// The longest word by byte length, the last of them on a tie; empty when
/// there is none.
pub open spec fn longest_word(ws: Seq<Seq<char>>) -> Seq<char>
    decreases ws.len(),
{
    if ws.len() == 0 {
        Seq::empty()
    } else if ws.len() == 1 {
        ws[0]
    } else {
        let best = longest_word(ws.drop_last());
        if byte_len(ws.last()) >= byte_len(best) {
            ws.last()
        } else {
            best
        }
    }
}

/// A text together with its most notable part, its longest word.
pub struct Highlight<'a> {
    pub text: &'a str,
    pub part: &'a str,
}

impl<'a> Highlight<'a> {
    /// Highlights the longest whitespace-separated word of `text` (by
    /// bytes, the last one on a tie; empty when `text` has no word).
    pub fn new(text: &'a str) -> (h: Self)
        ensures
            h.text == text,
            h.part@ == longest_word(words_of(text@)),
    {
        let chars = chars_of(text);
        let n = chars.len();
        let mut pos: usize = 0;
        let mut best: &'a str = "";
        let mut best_len: usize = 0;
        let mut found = false;
        let ghost mut done: Seq<Seq<char>> = Seq::empty();
        proof {
            reveal_strlit("");
            assert(text@.skip(0) =~= text@);
            assert(done + words_of(text@) =~= words_of(text@));
        }
        loop
            invariant_except_break
                words_of(text@) == done + words_of(text@.skip(pos as int)),
            invariant
                pos <= n,
                n == text@.len(),
                chars@ == text@,
                best@ == longest_word(done),
                best_len == byte_len(best@),
                found == (done.len() > 0),
            ensures
                words_of(text@) == done,
                best@ == longest_word(done),
            decreases n - pos,
        {
            let ghost rest = text@.skip(pos as int);
            let ghost t = trim_start(rest);
            proof {
                lemma_trim_start(rest);
            }
            while pos < n && crate::text::whitespace(chars[pos])
                invariant
                    pos <= n,
                    n == text@.len(),
                    chars@ == text@,
                    t == trim_start(text@.skip(pos as int)),
                decreases n - pos,
            {
                assert(text@.skip(pos as int).drop_first() =~= text@.skip(pos + 1));
                pos = pos + 1;
            }
            assert(t == text@.skip(pos as int));
            if pos == n {
                assert(done + Seq::empty() =~= done);
                break;
            }
            let start = pos;
            while pos < n && !crate::text::whitespace(chars[pos])
                invariant
                    start <= pos <= n,
                    n == text@.len(),
                    chars@ == text@,
                    word_end(text@.skip(start as int)) == (pos - start) + word_end(
                        text@.skip(pos as int),
                    ),
                decreases n - pos,
            {
                assert(text@.skip(pos as int).drop_first() =~= text@.skip(pos + 1));
                pos = pos + 1;
            }
            let ghost word = text@.subrange(start as int, pos as int);
            proof {
                let k = pos - start;
                assert(word_end(t) == k);
                assert(t.take(k) =~= word);
                assert(t.skip(k) =~= text@.skip(pos as int));
                assert(words_of(rest) == seq![word] + words_of(text@.skip(pos as int)));
                assert(done + (seq![word] + words_of(text@.skip(pos as int))) =~= done.push(word)
                    + words_of(text@.skip(pos as int)));
                assert(done.push(word).drop_last() =~= done);
            }
            let w = text.substring_char(start, pos);
            let wl = w.as_bytes().len();
            if !found || best_len <= wl {
                best = w;
                best_len = wl;
            }
            found = true;
            proof {
                done = done.push(word);
            }
        }
        Highlight { text, part: best }
    }
}

} // verus!
