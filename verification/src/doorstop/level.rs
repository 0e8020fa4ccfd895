//! The level-key algebra.
//!
//! A level is a dotted outline position such as `2.3.1`. Its key is the
//! sequence of the integers found between the dots; a piece that does not
//! denote an integer from 0 up is dropped. Keys are ordered as tuples are,
//! and trailing zeros (the mark of a heading) do not count towards the
//! depth.

use vstd::prelude::*;
use crate::doorstop::text::chars_of;

verus! {

/// Whether `c` is one of the ten decimal digits.
pub open spec fn is_digit(c: char) -> bool {
    '0' <= c && c <= '9'
}

/// The number a decimal digit stands for.
pub open spec fn digit_value(c: char) -> int {
    c as int - '0' as int
}

/// Whether every character of `s` is a decimal digit.
pub open spec fn all_digits(s: Seq<char>) -> bool {
    forall|i: int| 0 <= i < s.len() ==> is_digit(#[trigger] s[i])
}

/// The number that a string of decimal digits denotes (0 for the empty one).
pub open spec fn digits_value(s: Seq<char>) -> int
    decreases s.len(),
{
    if s.len() == 0 {
        0
    } else {
        10 * digits_value(s.drop_last()) + digit_value(s.last())
    }
}

/// What is left of a piece once one leading `+` or `-` is taken off.
pub open spec fn unsigned_part(s: Seq<char>) -> Seq<char> {
    if s.len() > 0 && (s[0] == '+' || s[0] == '-') {
        s.skip(1)
    } else {
        s
    }
}

/// The integer that a piece denotes: an optional sign, then one digit or
/// more and nothing else. `None` for any other piece.
pub open spec fn segment_value(s: Seq<char>) -> Option<int> {
    let digits = unsigned_part(s);
    if digits.len() == 0 || !all_digits(digits) {
        None
    } else if s[0] == '-' {
        Some(-digits_value(digits))
    } else {
        Some(digits_value(digits))
    }
}

/// The piece as a segment of a key: the integer that it denotes, where
/// that is not negative and fits 32 bits.
pub open spec fn parse_segment(s: Seq<char>) -> Option<i32> {
    match segment_value(s) {
        Some(v) => if 0 <= v <= i32::MAX {
            Some(v as i32)
        } else {
            None
        },
        None => None,
    }
}

/// The position of the first `.` in `s`, or the length of `s` if it has none.
pub open spec fn first_dot(s: Seq<char>) -> nat
    decreases s.len(),
{
    if s.len() == 0 || s[0] == '.' {
        0
    } else {
        1 + first_dot(s.skip(1))
    }
}

/// The key of a level: the pieces between the dots, each parsed, those
/// that give no segment left out.
pub open spec fn level_key(s: Seq<char>) -> Seq<i32>
    decreases s.len(),
{
    let d = first_dot(s) as int;
    let head = match parse_segment(s.take(d)) {
        Some(v) => seq![v],
        None => Seq::<i32>::empty(),
    };
    if d < s.len() {
        head + level_key(s.skip(d + 1))
    } else {
        head
    }
}

/// The key without its trailing zeros.
pub open spec fn strip_trailing_zeros(key: Seq<i32>) -> Seq<i32>
    decreases key.len(),
{
    if key.len() > 0 && key.last() == 0 {
        strip_trailing_zeros(key.drop_last())
    } else {
        key
    }
}

/// The nesting depth of a key: one less than the number of segments that
/// are left once the trailing zeros are gone, and 0 where none is left.
pub open spec fn depth_of(key: Seq<i32>) -> int {
    let n = strip_trailing_zeros(key).len();
    if n == 0 {
        0
    } else {
        n - 1
    }
}

/// The order of keys: segment by segment, and a key comes before every
/// longer key that starts with it.
pub open spec fn key_lt(a: Seq<i32>, b: Seq<i32>) -> bool
    decreases a.len(),
{
    if b.len() == 0 {
        false
    } else if a.len() == 0 {
        true
    } else if a[0] != b[0] {
        a[0] < b[0]
    } else {
        key_lt(a.drop_first(), b.drop_first())
    }
}

/// How one key stands to another in the order of keys.
#[derive(Debug, Clone, Copy, PartialEq, Eq)]
pub enum KeyOrder {
    Before,
    Same,
    After,
}

/// `first_dot` finds the dot at `d` when nothing before `d` is a dot.
pub proof fn lemma_first_dot(s: Seq<char>, d: int)
    requires
        0 <= d <= s.len(),
        forall|i: int| 0 <= i < d ==> s[i] != '.',
        d < s.len() ==> s[d] == '.',
    ensures
        first_dot(s) == d,
    decreases d,
{
    if d > 0 {
        let rest = s.skip(1);
        assert forall|i: int| 0 <= i < d - 1 implies rest[i] != '.' by {
            assert(rest[i] == s[i + 1]);
        }
        lemma_first_dot(rest, d - 1);
    }
}

/// `first_dot` is a position in `s` or its length, nothing before it is a
/// dot, and what stands at it is one.
pub proof fn lemma_first_dot_is_first(s: Seq<char>)
    ensures
        first_dot(s) <= s.len(),
        forall|i: int| 0 <= i < first_dot(s) ==> s[i] != '.',
        first_dot(s) < s.len() ==> s[first_dot(s) as int] == '.',
    decreases s.len(),
{
    if s.len() > 0 && s[0] != '.' {
        let rest = s.skip(1);
        lemma_first_dot_is_first(rest);
        assert forall|i: int| 0 <= i < first_dot(s) implies s[i] != '.' by {
            if i > 0 {
                assert(rest[i - 1] == s[i]);
            }
        }
        if first_dot(s) < s.len() {
            assert(rest[first_dot(rest) as int] == s[first_dot(s) as int]);
        }
    }
}

/// A key has no more segments than its level has characters.
pub proof fn lemma_key_len_bound(s: Seq<char>)
    ensures
        level_key(s).len() <= s.len(),
    decreases s.len(),
{
    lemma_first_dot_is_first(s);
    let d = first_dot(s) as int;
    if d < s.len() {
        lemma_key_len_bound(s.skip(d + 1));
    }
}

/// No segment of a key is negative.
pub proof fn lemma_key_is_non_negative(s: Seq<char>)
    ensures
        forall|k: int| 0 <= k < level_key(s).len() ==> #[trigger] level_key(s)[k] >= 0,
    decreases s.len(),
{
    lemma_first_dot_is_first(s);
    let d = first_dot(s) as int;
    let head = match parse_segment(s.take(d)) {
        Some(v) => seq![v],
        None => Seq::<i32>::empty(),
    };
    if d < s.len() {
        let rest = s.skip(d + 1);
        lemma_key_is_non_negative(rest);
        assert forall|k: int| 0 <= k < level_key(s).len() implies #[trigger] level_key(s)[k]
            >= 0 by {
            if k >= head.len() {
                assert(level_key(s)[k] == level_key(rest)[k - head.len()]);
            } else {
                assert(level_key(s)[k] == head[k]);
            }
        }
    }
}

/// A string of digits never denotes a negative number, and one more digit
/// never makes the number smaller.
pub proof fn lemma_digits_value_grows(s: Seq<char>)
    requires
        all_digits(s),
    ensures
        0 <= digits_value(s),
        s.len() > 0 ==> digits_value(s.drop_last()) <= digits_value(s),
    decreases s.len(),
{
    if s.len() > 0 {
        let front = s.drop_last();
        assert forall|i: int| 0 <= i < front.len() implies is_digit(#[trigger] front[i]) by {
            assert(front[i] == s[i]);
        }
        lemma_digits_value_grows(front);
        assert(is_digit(s[s.len() - 1]));
    }
}

/// Parses the piece `chars[from..to]`.
fn parse_piece(chars: &Vec<char>, from: usize, to: usize) -> (r: Option<i32>)
    requires
        from <= to <= chars.len(),
    ensures
        r == parse_segment(chars@.subrange(from as int, to as int)),
{
    let ghost piece = chars@.subrange(from as int, to as int);
    if from == to {
        return None;
    }
    let first = chars[from];
    assert(piece[0] == first);
    let negative = first == '-';
    let start: usize = if first == '-' || first == '+' {
        from + 1
    } else {
        from
    };
    let ghost digits = chars@.subrange(start as int, to as int);
    assert(digits =~= unsigned_part(piece));
    if start == to {
        return None;
    }
    // The magnitude read so far, as long as it is at most 2^31.
    let mut acc: i64 = 0;
    let mut too_large = false;
    let mut i: usize = start;
    while i < to
        invariant
            from <= start <= i <= to <= chars.len(),
            piece == chars@.subrange(from as int, to as int),
            digits == chars@.subrange(start as int, to as int),
            digits == unsigned_part(piece),
            negative == (piece[0] == '-'),
            all_digits(digits.take(i - start)),
            0 <= acc <= 0x8000_0000,
            !too_large ==> acc == digits_value(digits.take(i - start)),
            too_large ==> digits_value(digits.take(i - start)) > 0x8000_0000,
        decreases to - i,
    {
        let c = chars[i];
        let ghost seen = digits.take(i - start);
        let ghost next = digits.take(i - start + 1);
        assert(digits[i - start] == c);
        if !('0' <= c && c <= '9') {
            assert(!is_digit(digits[i - start]));
            return None;
        }
        assert(next.drop_last() =~= seen);
        assert(next.last() == c);
        assert forall|k: int| 0 <= k < next.len() implies is_digit(#[trigger] next[k]) by {
            if k < seen.len() {
                assert(seen[k] == next[k]);
            }
        }
        proof {
            lemma_digits_value_grows(next);
        }
        let d: i64 = (c as u32 - '0' as u32) as i64;
        if !too_large {
            acc = acc * 10 + d;
            if acc > 0x8000_0000 {
                too_large = true;
                acc = 0;
            }
        }
        i = i + 1;
    }
    assert(digits.take(i - start) =~= digits);
    if too_large {
        None
    } else if negative {
        if acc == 0 {
            Some(0)
        } else {
            None
        }
    } else if acc <= 0x7fff_ffff {
        Some(acc as i32)
    } else {
        None
    }
}

/// Parses a dotted level into its key.
pub fn parse_level_key(level: &str) -> (key: Vec<i32>)
    ensures
        key@ == level_key(level@),
        forall|k: int| 0 <= k < key.len() ==> #[trigger] key[k] >= 0,
{
    proof {
        lemma_key_is_non_negative(level@);
    }
    let chars = chars_of(level);
    let n: usize = chars.len();
    let mut key: Vec<i32> = Vec::new();
    let mut start: usize = 0;
    let mut done = false;
    assert(chars@.skip(0) =~= chars@);
    assert(key@ + level_key(chars@) =~= level_key(chars@));
    while !done
        invariant
            n == chars.len(),
            chars@ == level@,
            start <= n,
            !done ==> key@ + level_key(chars@.skip(start as int)) == level_key(chars@),
            done ==> key@ == level_key(chars@),
        decreases n - start + if done { 0int } else { 1int },
    {
        let ghost rest = chars@.skip(start as int);
        let mut end: usize = start;
        while end < n && chars[end] != '.'
            invariant
                n == chars.len(),
                start <= end <= n,
                forall|i: int| start <= i < end ==> chars@[i] != '.',
            decreases n - end,
        {
            end = end + 1;
        }
        proof {
            assert forall|i: int| 0 <= i < end - start implies rest[i] != '.' by {
                assert(rest[i] == chars@[start + i]);
            }
            lemma_first_dot(rest, end - start);
            assert(rest.take(end - start) =~= chars@.subrange(start as int, end as int));
        }
        match parse_piece(&chars, start, end) {
            Some(v) => {
                key.push(v);
            },
            None => {},
        }
        if end < n {
            assert(rest.skip(end - start + 1) =~= chars@.skip(end + 1));
            start = end + 1;
        } else {
            done = true;
        }
    }
    key
}

/// How `a` stands to `b` in the order of keys.
pub open spec fn key_order_of(a: Seq<i32>, b: Seq<i32>) -> KeyOrder {
    if key_lt(a, b) {
        KeyOrder::Before
    } else if a == b {
        KeyOrder::Same
    } else {
        KeyOrder::After
    }
}

/// What stripping leaves is the start of the key, it does not end in a
/// zero, and all that it took off is zeros.
pub proof fn lemma_strip_trailing_zeros(key: Seq<i32>)
    ensures
        strip_trailing_zeros(key).len() <= key.len(),
        strip_trailing_zeros(key) == key.take(strip_trailing_zeros(key).len() as int),
        strip_trailing_zeros(key).len() > 0 ==> strip_trailing_zeros(key).last() != 0,
        forall|i: int| strip_trailing_zeros(key).len() <= i < key.len() ==> key[i] == 0,
    decreases key.len(),
{
    if key.len() > 0 && key.last() == 0 {
        let front = key.drop_last();
        lemma_strip_trailing_zeros(front);
        let n = strip_trailing_zeros(front).len() as int;
        assert(front.take(n) =~= key.take(n));
        assert forall|i: int| n <= i < key.len() implies key[i] == 0 by {
            if i < front.len() {
                assert(front[i] == key[i]);
            }
        }
    } else {
        assert(key.take(key.len() as int) =~= key);
    }
}

/// Two keys that agree on their first `i` segments are ordered as what
/// follows those segments is.
pub proof fn lemma_key_lt_after_common_prefix(a: Seq<i32>, b: Seq<i32>, i: int)
    requires
        0 <= i <= a.len(),
        i <= b.len(),
        forall|k: int| 0 <= k < i ==> a[k] == b[k],
    ensures
        key_lt(a, b) == key_lt(a.skip(i), b.skip(i)),
    decreases i,
{
    if i == 0 {
        assert(a.skip(0) =~= a);
        assert(b.skip(0) =~= b);
    } else {
        let a1 = a.drop_first();
        let b1 = b.drop_first();
        assert(a[0] == b[0]);
        assert forall|k: int| 0 <= k < i - 1 implies a1[k] == b1[k] by {
            assert(a1[k] == a[k + 1]);
            assert(b1[k] == b[k + 1]);
        }
        lemma_key_lt_after_common_prefix(a1, b1, i - 1);
        assert(a1.skip(i - 1) =~= a.skip(i));
        assert(b1.skip(i - 1) =~= b.skip(i));
    }
}

/// No key comes before itself.
pub proof fn lemma_key_lt_irreflexive(a: Seq<i32>)
    ensures
        !key_lt(a, a),
    decreases a.len(),
{
    if a.len() > 0 {
        lemma_key_lt_irreflexive(a.drop_first());
    }
}

/// Of two keys at most one comes before the other.
pub proof fn lemma_key_lt_asymmetric(a: Seq<i32>, b: Seq<i32>)
    requires
        key_lt(a, b),
    ensures
        !key_lt(b, a),
    decreases a.len(),
{
    if a.len() > 0 && b.len() > 0 && a[0] == b[0] {
        lemma_key_lt_asymmetric(a.drop_first(), b.drop_first());
    }
}

/// The order of keys is transitive.
pub proof fn lemma_key_lt_transitive(a: Seq<i32>, b: Seq<i32>, c: Seq<i32>)
    requires
        key_lt(a, b),
        key_lt(b, c),
    ensures
        key_lt(a, c),
    decreases a.len(),
{
    if a.len() > 0 && b.len() > 0 && c.len() > 0 && a[0] == b[0] && b[0] == c[0] {
        lemma_key_lt_transitive(a.drop_first(), b.drop_first(), c.drop_first());
    }
}

/// Two different keys are ordered one way or the other.
pub proof fn lemma_key_lt_connected(a: Seq<i32>, b: Seq<i32>)
    ensures
        a == b || key_lt(a, b) || key_lt(b, a),
    decreases a.len(),
{
    if a.len() == 0 || b.len() == 0 {
        if a.len() == 0 && b.len() == 0 {
            assert(a =~= b);
        }
    } else if a[0] == b[0] {
        let a1 = a.drop_first();
        let b1 = b.drop_first();
        lemma_key_lt_connected(a1, b1);
        if a1 == b1 {
            assert(a =~= seq![a[0]] + a1);
            assert(b =~= seq![b[0]] + b1);
        }
    }
}

/// `a` comes after `b` exactly when `b` comes before `a`.
pub proof fn lemma_key_order_of_after(a: Seq<i32>, b: Seq<i32>)
    ensures
        key_order_of(a, b) is After <==> key_lt(b, a),
{
    lemma_key_lt_connected(a, b);
    lemma_key_lt_irreflexive(a);
    if key_lt(a, b) {
        lemma_key_lt_asymmetric(a, b);
    }
}

/// The number of segments that are left of `key` without its trailing zeros.
pub fn stripped_len(key: &Vec<i32>) -> (n: usize)
    ensures
        n == strip_trailing_zeros(key@).len(),
{
    let mut n: usize = key.len();
    assert(key@.take(n as int) =~= key@);
    while n > 0 && key[n - 1] == 0
        invariant
            n <= key.len(),
            strip_trailing_zeros(key@) == strip_trailing_zeros(key@.take(n as int)),
        decreases n,
    {
        assert(key@.take(n as int).drop_last() =~= key@.take(n - 1));
        n = n - 1;
    }
    n
}

/// Compares two keys in the order of keys.
pub fn key_order(a: &Vec<i32>, b: &Vec<i32>) -> (r: KeyOrder)
    ensures
        r == key_order_of(a@, b@),
        r is After <==> key_lt(b@, a@),
{
    proof {
        lemma_key_order_of_after(a@, b@);
    }
    let mut i: usize = 0;
    while i < a.len() && i < b.len()
        invariant
            i <= a.len(),
            i <= b.len(),
            forall|k: int| 0 <= k < i ==> a@[k] == b@[k],
            key_order_of(a@, b@) is After <==> key_lt(b@, a@),
        decreases a.len() - i,
    {
        if a[i] != b[i] {
            proof {
                lemma_key_lt_after_common_prefix(a@, b@, i as int);
                assert(a@.skip(i as int)[0] == a@[i as int]);
                assert(b@.skip(i as int)[0] == b@[i as int]);
            }
            if a[i] < b[i] {
                return KeyOrder::Before;
            } else {
                return KeyOrder::After;
            }
        }
        i = i + 1;
    }
    proof {
        lemma_key_lt_after_common_prefix(a@, b@, i as int);
    }
    if a.len() == b.len() {
        assert(a@ =~= b@);
        KeyOrder::Same
    } else if a.len() < b.len() {
        KeyOrder::Before
    } else {
        KeyOrder::After
    }
}

} // verus!
