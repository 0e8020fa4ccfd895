//! Small helpers on strings, seen as sequences of characters.

use vstd::prelude::*;

verus! {

/// The position of the last `.` in `s`, if it has one.
pub open spec fn last_dot(s: Seq<char>) -> Option<int>
    decreases s.len(),
{
    if s.len() == 0 {
        None
    } else if s.last() == '.' {
        Some(s.len() - 1)
    } else {
        last_dot(s.drop_last())
    }
}

/// The stem of a file name: what stands before its last `.`, and the whole
/// name where it has no `.` or only the one it starts with.
pub open spec fn file_stem(name: Seq<char>) -> Seq<char> {
    match last_dot(name) {
        Some(d) => if d > 0 {
            name.take(d)
        } else {
            name
        },
        None => name,
    }
}

/// `last_dot` finds the dot at `d` when nothing after `d` is a dot, and
/// finds none when the string has none.
pub proof fn lemma_last_dot(s: Seq<char>, d: int)
    requires
        -1 <= d < s.len(),
        forall|i: int| d < i < s.len() ==> s[i] != '.',
        d >= 0 ==> s[d] == '.',
    ensures
        d >= 0 ==> last_dot(s) == Some(d),
        d < 0 ==> last_dot(s) is None,
    decreases s.len(),
{
    if s.len() > 0 && d < s.len() - 1 {
        let front = s.drop_last();
        assert forall|i: int| d < i < front.len() implies front[i] != '.' by {
            assert(front[i] == s[i]);
        }
        lemma_last_dot(front, d);
    }
}

/// The stem of a name is the beginning of the name, and it is empty only
/// where the name is.
pub proof fn lemma_file_stem(name: Seq<char>)
    ensures
        file_stem(name).is_prefix_of(name),
        name.len() > 0 ==> file_stem(name).len() > 0,
        last_dot(name) matches Some(d) ==> 0 <= d < name.len() && name[d] == '.',
    decreases name.len(),
{
    if name.len() > 0 {
        let front = name.drop_last();
        lemma_file_stem(front);
        if let Some(d) = last_dot(name) {
            if d < name.len() - 1 {
                assert(front[d] == name[d]);
            }
            assert(name.take(d) =~= name.subrange(0, d));
        }
    }
    assert(name =~= name.subrange(0, name.len() as int));
}

/// The characters of `s`, in order.
pub fn chars_of(s: &str) -> (chars: Vec<char>)
    ensures
        chars@ == s@,
{
    broadcast use vstd::string::axiom_spec_iter;

    let mut chars: Vec<char> = Vec::new();
    for c in it: s.chars()
        invariant
            it.seq() == s@,
            chars@ == it.seq().take(it.index()),
    {
        chars.push(c);
    }
    chars
}

/// Whether the two texts are the same.
pub fn same_text(a: &str, b: &str) -> (same: bool)
    ensures
        same == (a@ == b@),
{
    let x = chars_of(a);
    let y = chars_of(b);
    if x.len() != y.len() {
        return false;
    }
    let mut i: usize = 0;
    while i < x.len()
        invariant
            x@ == a@,
            y@ == b@,
            x.len() == y.len(),
            i <= x.len(),
            forall|k: int| 0 <= k < i ==> x@[k] == y@[k],
        decreases x.len() - i,
    {
        if x[i] != y[i] {
            return false;
        }
        i = i + 1;
    }
    assert(x@ =~= y@);
    true
}

/// Whether `s` begins with `prefix`.
pub fn has_prefix(s: &str, prefix: &str) -> (found: bool)
    ensures
        found == prefix@.is_prefix_of(s@),
{
    let text = chars_of(s);
    let head = chars_of(prefix);
    if head.len() > text.len() {
        return false;
    }
    let mut i: usize = 0;
    while i < head.len()
        invariant
            text@ == s@,
            head@ == prefix@,
            head.len() <= text.len(),
            i <= head.len(),
            forall|k: int| 0 <= k < i ==> head@[k] == text@[k],
        decreases head.len() - i,
    {
        if head[i] != text[i] {
            assert(text@.subrange(0, head.len() as int)[i as int] == text@[i as int]);
            return false;
        }
        i = i + 1;
    }
    assert(head@ =~= text@.subrange(0, head.len() as int));
    true
}

/// Whether `s` ends with `suffix`.
pub fn has_suffix(s: &str, suffix: &str) -> (found: bool)
    ensures
        found == suffix@.is_suffix_of(s@),
{
    let text = chars_of(s);
    let tail = chars_of(suffix);
    if tail.len() > text.len() {
        return false;
    }
    let shift: usize = text.len() - tail.len();
    let mut i: usize = 0;
    while i < tail.len()
        invariant
            text@ == s@,
            tail@ == suffix@,
            tail.len() <= text.len(),
            shift == text.len() - tail.len(),
            i <= tail.len(),
            forall|k: int| 0 <= k < i ==> tail@[k] == text@[shift + k],
        decreases tail.len() - i,
    {
        if tail[i] != text[shift + i] {
            assert(text@.subrange(shift as int, text.len() as int)[i as int] == text@[shift + i]);
            return false;
        }
        i = i + 1;
    }
    assert(tail@ =~= text@.subrange(shift as int, text.len() as int));
    true
}

/// The stem of the file name `name`.
pub fn stem_of(name: &str) -> (stem: String)
    ensures
        stem@ == file_stem(name@),
{
    let chars = chars_of(name);
    let mut end: usize = chars.len();
    while end > 0 && chars[end - 1] != '.'
        invariant
            end <= chars.len(),
            forall|i: int| end <= i < chars.len() ==> chars@[i] != '.',
        decreases end,
    {
        end = end - 1;
    }
    proof {
        lemma_last_dot(chars@, end - 1);
    }
    if end > 1 {
        let stem = name.substring_char(0, end - 1);
        assert(name@.subrange(0, end - 1) =~= name@.take(end - 1));
        stem.to_owned()
    } else {
        name.to_owned()
    }
}

} // verus!
