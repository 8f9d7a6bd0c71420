//! Collections and iterators: filtering and mapping a list, counting
//! characters in a map, and ranking scores above the average.
use crate::text::{dec_int, push_dec_i64};
use std::collections::HashMap;
use vstd::prelude::*;
use vstd::std_specs::hash::group_hash_axioms;
use vstd::utf8::encode_utf8;

verus! {

broadcast use group_hash_axioms;

/// The squares of the odd numbers of `s`, in order.
pub open spec fn odd_squares_of(s: Seq<i32>) -> Seq<int>
    decreases s.len(),
{
    if s.len() == 0 {
        Seq::empty()
    } else if s.last() % 2 != 0 {
        odd_squares_of(s.drop_last()).push(s.last() * s.last())
    } else {
        odd_squares_of(s.drop_last())
    }
}

/// The squares of the odd numbers in `nums`, in their order.
pub fn odd_squares(nums: &[i32]) -> (out: Vec<i32>)
    requires
        forall|i: int| 0 <= i < nums@.len() && #[trigger] nums@[i] % 2 != 0 ==> nums@[i] * nums@[i]
            <= i32::MAX,
    ensures
        out@.map_values(|x: i32| x as int) == odd_squares_of(nums@),
{
    let mut out: Vec<i32> = Vec::new();
    let mut i: usize = 0;
    assert(nums@.take(0) =~= Seq::<i32>::empty());
    assert(out@.map_values(|x: i32| x as int) =~= Seq::<int>::empty());
    while i < nums.len()
        invariant
            i <= nums@.len(),
            forall|j: int| 0 <= j < nums@.len() && #[trigger] nums@[j] % 2 != 0 ==> nums@[j]
                * nums@[j] <= i32::MAX,
            out@.map_values(|x: i32| x as int) == odd_squares_of(nums@.take(i as int)),
        decreases nums@.len() - i,
    {
        let x = nums[i];
        assert(nums@.take(i + 1).drop_last() =~= nums@.take(i as int));
        assert(nums@.take(i + 1).last() == x);
        if x % 2 != 0 {
            assert(nums@[i as int] % 2 != 0);
            assert(x * x >= 0) by (nonlinear_arith);
            out.push(x * x);
            assert(out@.map_values(|x: i32| x as int) =~= odd_squares_of(nums@.take(i as int)).push(
                x * x,
            ));
        }
        i = i + 1;
    }
    assert(nums@.take(nums@.len() as int) =~= nums@);
    out
}

/// How often the character with code point `k` occurs in `s`.
pub open spec fn count_in(s: Seq<char>, k: u32) -> nat
    decreases s.len(),
{
    if s.len() == 0 {
        0
    } else {
        count_in(s.drop_last(), k) + if s.last() as u32 == k {
            1nat
        } else {
            0nat
        }
    }
}

/// Counting a prefix counts no more than counting the whole.
proof fn lemma_count_prefix(s: Seq<char>, j: int, k: u32)
    requires
        0 <= j <= s.len(),
    ensures
        count_in(s.take(j), k) <= count_in(s, k),
    decreases s.len(),
{
    if j < s.len() {
        lemma_count_prefix(s.drop_last(), j, k);
        assert(s.drop_last().take(j) =~= s.take(j));
    } else {
        assert(s.take(j) =~= s);
    }
}

/// How often each character of `s` occurs, keyed by code point; characters
/// that do not occur have no entry. No character may occur more than
/// `i32::MAX` times (its count would overflow).
pub fn char_count(s: &str) -> (m: HashMap<u32, i32>)
    requires
        forall|k: u32| #[trigger] count_in(s@, k) <= i32::MAX,
    ensures
        forall|k: u32| #[trigger] m@.contains_key(k) <==> count_in(s@, k) > 0,
        forall|k: u32| #[trigger] m@.contains_key(k) ==> m@[k] == count_in(s@, k),
{
    let chars = crate::text::chars_of(s);
    let mut m: HashMap<u32, i32> = HashMap::new();
    let mut i: usize = 0;
    assert(chars@.take(0) =~= Seq::<char>::empty());
    while i < chars.len()
        invariant
            i <= chars@.len(),
            chars@ == s@,
            forall|k: u32| #[trigger] count_in(s@, k) <= i32::MAX,
            forall|k: u32| #[trigger] m@.contains_key(k) <==> count_in(chars@.take(i as int), k)
                > 0,
            forall|k: u32| #[trigger] m@.contains_key(k) ==> m@[k] == count_in(
                chars@.take(i as int),
                k,
            ),
        decreases chars@.len() - i,
    {
        let c = chars[i];
        let key = c as u32;
        let ghost prefix = chars@.take(i as int);
        let ghost next = chars@.take(i + 1);
        assert(next.drop_last() =~= prefix);
        proof {
            lemma_count_prefix(chars@, i + 1, key);
            assert(count_in(s@, key) <= i32::MAX);
        }
        let n = match m.get(&key) {
            Some(v) => *v,
            None => 0,
        };
        m.insert(key, n + 1);
        assert forall|k: u32| #[trigger] m@.contains_key(k) <==> count_in(next, k) > 0 by {}
        assert forall|k: u32| #[trigger] m@.contains_key(k) implies m@[k] == count_in(next, k) by {}
        i = i + 1;
    }
    assert(chars@.take(chars@.len() as int) =~= chars@);
    m
}

/// Byte-wise lexicographic order, the order `String` compares by.
pub open spec fn bytes_lt(a: Seq<u8>, b: Seq<u8>) -> bool
    decreases a.len(),
{
    if a.len() == 0 {
        b.len() > 0
    } else if b.len() == 0 {
        false
    } else if a[0] != b[0] {
        a[0] < b[0]
    } else {
        bytes_lt(a.drop_first(), b.drop_first())
    }
}

proof fn lemma_bytes_lt_order(a: Seq<u8>, b: Seq<u8>, c: Seq<u8>)
    ensures
        !bytes_lt(a, a),
        bytes_lt(a, b) && bytes_lt(b, c) ==> bytes_lt(a, c),
        a != b ==> bytes_lt(a, b) || bytes_lt(b, a),
    decreases a.len(),
{
    if a.len() > 0 && b.len() > 0 && c.len() > 0 {
        lemma_bytes_lt_order(a.drop_first(), b.drop_first(), c.drop_first());
        if a != b && a[0] == b[0] {
            assert(a.drop_first() != b.drop_first()) by {
                if a.drop_first() == b.drop_first() {
                    assert(a =~= seq![a[0]] + a.drop_first());
                    assert(b =~= seq![b[0]] + b.drop_first());
                }
            }
        }
    } else if a.len() > 0 && b.len() > 0 {
        lemma_bytes_lt_order(a.drop_first(), b.drop_first(), a.drop_first());
        if a != b && a[0] == b[0] {
            assert(a.drop_first() != b.drop_first()) by {
                if a.drop_first() == b.drop_first() {
                    assert(a =~= seq![a[0]] + a.drop_first());
                    assert(b =~= seq![b[0]] + b.drop_first());
                }
            }
        }
    } else if a.len() > 0 {
        lemma_bytes_lt_order(a.drop_first(), a.drop_first(), a.drop_first());
    } else if b.len() == 0 {
        assert(a =~= b);
    }
}

/// The bytes of the `j`-th name.
pub open spec fn name_bytes(scores: Seq<(String, i32)>, j: int) -> Seq<u8> {
    encode_utf8(scores[j].0@)
}

/// Entry `j` ranks before entry `l`: a smaller name, or the same name and
/// an earlier place.
pub open spec fn ranks_before(scores: Seq<(String, i32)>, j: int, l: int) -> bool {
    bytes_lt(name_bytes(scores, j), name_bytes(scores, l)) || (name_bytes(scores, j)
        == name_bytes(scores, l) && j < l)
}

/// The sum of the scores.
pub open spec fn total_of(s: Seq<(String, i32)>) -> int
    decreases s.len(),
{
    if s.len() == 0 {
        0
    } else {
        total_of(s.drop_last()) + s.last().1
    }
}

/// The average score, the quotient rounded toward zero.
pub open spec fn average(s: Seq<(String, i32)>) -> int {
    let t = total_of(s);
    if t >= 0 {
        t / (s.len() as int)
    } else {
        -((-t) / (s.len() as int))
    }
}

/// `name: score`.
pub open spec fn score_line(p: (String, i32)) -> Seq<char> {
    p.0@ + ": "@ + dec_int(p.1 as int)
}

/// The texts of a sequence of strings.
pub open spec fn strings_view(v: Seq<String>) -> Seq<Seq<char>> {
    v.map_values(|l: String| l@)
}

/// `lines` are the `name: score` lines of the entries at positions
/// `order`: exactly the entries scoring at least the average, each once,
/// ordered by `ranks_before`.
pub open spec fn ranked_lines(scores: Seq<(String, i32)>, order: Seq<int>, lines: Seq<Seq<char>>) -> bool {
    &&& order.len() == lines.len()
    &&& forall|k: int|
        0 <= k < order.len() ==> 0 <= #[trigger] order[k] < scores.len() && lines[k]
            == score_line(scores[order[k]])
    &&& forall|k: int, l: int|
        0 <= k < l < order.len() ==> ranks_before(scores, #[trigger] order[k], #[trigger] order[l])
    &&& forall|j: int|
        0 <= j < scores.len() ==> (scores[j].1 >= average(scores) <==> order.contains(j))
}

/// The entries with at least the average score, as `name: score` lines
/// sorted by name (byte-wise; entries with equal names keep their order).
pub fn top_students(scores: &[(String, i32)]) -> (out: Vec<String>)
    requires
        0 < scores@.len() <= i32::MAX,
        forall|j: int|
            0 <= j <= scores@.len() ==> i32::MIN <= #[trigger] total_of(scores@.take(j))
                <= i32::MAX,
    ensures
        exists|order: Seq<int>|
            #[trigger] ranked_lines(scores@, order, strings_view(out@)),
{
    let n = scores.len();
    let mut total: i32 = 0;
    let mut i: usize = 0;
    assert(scores@.take(0) =~= Seq::<(String, i32)>::empty());
    while i < n
        invariant
            i <= n == scores@.len(),
            total == total_of(scores@.take(i as int)),
            forall|j: int|
                0 <= j <= scores@.len() ==> i32::MIN <= #[trigger] total_of(scores@.take(j))
                    <= i32::MAX,
        decreases n - i,
    {
        assert(scores@.take(i + 1).drop_last() =~= scores@.take(i as int));
        assert(total_of(scores@.take(i + 1)) <= i32::MAX);
        total = total + scores[i].1;
        i = i + 1;
    }
    assert(scores@.take(n as int) =~= scores@);
    let avg = total / (n as i32);
    assert(avg == average(scores@));
    let mut order: Vec<usize> = Vec::new();
    let mut j: usize = 0;
    while j < n
        invariant
            j <= n == scores@.len(),
            avg == average(scores@),
            forall|k: int| 0 <= k < order@.len() ==> #[trigger] order@[k] < j,
            forall|k: int, l: int|
                0 <= k < l < order@.len() ==> ranks_before(
                    scores@,
                    #[trigger] order@[k] as int,
                    #[trigger] order@[l] as int,
                ),
            forall|t: int|
                0 <= t < j ==> (scores@[t].1 >= avg <==> exists|k: int|
                    0 <= k < order@.len() && #[trigger] order@[k] as int == t),
        decreases n - j,
    {
        let ghost old_order = order@;
        if scores[j].1 >= avg {
            let name = scores[j].0.as_str().as_bytes();
            let mut pos: usize = 0;
            while pos < order.len() && !bytes_less(
                name,
                scores[order[pos]].0.as_str().as_bytes(),
            )
                invariant
                    pos <= order@.len(),
                    j < n == scores@.len(),
                    name@ == name_bytes(scores@, j as int),
                    forall|k: int| 0 <= k < order@.len() ==> #[trigger] order@[k] < j,
                    forall|k: int|
                        0 <= k < pos ==> !bytes_lt(
                            name@,
                            name_bytes(scores@, #[trigger] order@[k] as int),
                        ),
                decreases order@.len() - pos,
            {
                pos = pos + 1;
            }
            order.insert(pos, j);
            proof {
                assert(forall|k: int| 0 <= k < pos ==> order@[k] == old_order[k]);
                assert(order@[pos as int] == j);
                assert(forall|k: int| pos < k < order@.len() ==> order@[k] == old_order[k - 1]);
                assert forall|k: int, l: int|
                    0 <= k < l < order@.len() implies ranks_before(
                        scores@,
                        #[trigger] order@[k] as int,
                        #[trigger] order@[l] as int,
                    ) by {
                    let a = order@[k] as int;
                    let b = order@[l] as int;
                    if k < pos && l == pos {
                        lemma_bytes_lt_order(
                            name_bytes(scores@, a),
                            name_bytes(scores@, b),
                            name_bytes(scores@, b),
                        );
                    } else if k == pos && l > pos {
                        let p = old_order[pos as int] as int;
                        if l - 1 > pos {
                            assert(ranks_before(scores@, p, b));
                            lemma_bytes_lt_order(
                                name_bytes(scores@, a),
                                name_bytes(scores@, p),
                                name_bytes(scores@, b),
                            );
                        }
                    } else if k < pos && l > pos {
                        assert(ranks_before(scores@, old_order[k] as int, old_order[l - 1] as int));
                    } else if k > pos {
                        assert(ranks_before(
                            scores@,
                            old_order[k - 1] as int,
                            old_order[l - 1] as int,
                        ));
                    }
                }
                assert forall|t: int| 0 <= t <= j implies (scores@[t].1 >= avg <==> exists|k: int|
                    0 <= k < order@.len() && #[trigger] order@[k] as int == t) by {
                    if t < j {
                        if scores@[t].1 >= avg {
                            let k = choose|k: int|
                                0 <= k < old_order.len() && #[trigger] old_order[k] as int == t;
                            if k < pos {
                                assert(order@[k] as int == t);
                            } else {
                                assert(order@[k + 1] as int == t);
                            }
                        }
                        if exists|k: int| 0 <= k < order@.len() && #[trigger] order@[k] as int == t {
                            let k = choose|k: int|
                                0 <= k < order@.len() && #[trigger] order@[k] as int == t;
                            if k < pos {
                                assert(old_order[k] as int == t);
                            } else if k > pos {
                                assert(old_order[k - 1] as int == t);
                            }
                        }
                    } else {
                        assert(order@[pos as int] as int == t);
                    }
                }
            }
        } else {
            proof {
                assert forall|t: int| 0 <= t <= j implies (scores@[t].1 >= avg <==> exists|k: int|
                    0 <= k < order@.len() && #[trigger] order@[k] as int == t) by {
                    if t == j {
                        if exists|k: int| 0 <= k < order@.len() && #[trigger] order@[k] as int == t {
                            let k = choose|k: int|
                                0 <= k < order@.len() && #[trigger] order@[k] as int == t;
                            assert(order@[k] < j);
                        }
                    }
                }
            }
        }
        j = j + 1;
    }
    let mut out: Vec<String> = Vec::new();
    let mut k: usize = 0;
    while k < order.len()
        invariant
            k <= order@.len(),
            out@.len() == k,
            forall|q: int| 0 <= q < order@.len() ==> #[trigger] order@[q] < scores@.len(),
            forall|q: int|
                0 <= q < k ==> #[trigger] out@[q]@ == score_line(scores@[order@[q] as int]),
        decreases order@.len() - k,
    {
        let entry = &scores[order[k]];
        let mut line = String::from_str(entry.0.as_str());
        line.append(": ");
        push_dec_i64(&mut line, entry.1 as i64);
        out.push(line);
        k = k + 1;
    }
    let ghost ord = order@.map_values(|x: usize| x as int);
    proof {
        assert forall|t: int| 0 <= t < scores@.len() implies (scores@[t].1 >= average(scores@)
            <==> ord.contains(t)) by {
            if scores@[t].1 >= avg {
                let q = choose|q: int| 0 <= q < order@.len() && #[trigger] order@[q] as int == t;
                assert(ord[q] == t);
            }
            if ord.contains(t) {
                let q = choose|q: int| 0 <= q < ord.len() && ord[q] == t;
                assert(order@[q] as int == t);
            }
        }
        assert forall|q: int, l: int| 0 <= q < l < ord.len() implies ranks_before(
            scores@,
            #[trigger] ord[q],
            #[trigger] ord[l],
        ) by {
            assert(ranks_before(scores@, order@[q] as int, order@[l] as int));
        }
        assert(ranked_lines(scores@, ord, strings_view(out@)));
    }
    out
}

/// Whether `a` comes before `b` byte-wise.
pub fn bytes_less(a: &[u8], b: &[u8]) -> (r: bool)
    ensures
        r == bytes_lt(a@, b@),
{
    let mut i: usize = 0;
    assert(a@.skip(0) =~= a@);
    assert(b@.skip(0) =~= b@);
    while i < a.len() && i < b.len() && a[i] == b[i]
        invariant
            i <= a@.len(),
            i <= b@.len(),
            bytes_lt(a@, b@) == bytes_lt(a@.skip(i as int), b@.skip(i as int)),
        decreases a@.len() - i,
    {
        assert(a@.skip(i as int).drop_first() =~= a@.skip(i + 1));
        assert(b@.skip(i as int).drop_first() =~= b@.skip(i + 1));
        i = i + 1;
    }
    if i == a.len() {
        i < b.len()
    } else if i == b.len() {
        false
    } else {
        a[i] < b[i]
    }
}

} // verus!
