//! Text: white space, blank strings, and white-space separated tokens.

use vstd::prelude::*;

verus! {

/// Whether a character has the Unicode property White_Space.
pub open spec fn is_white_space(c: char) -> bool {
    let u = c as u32;
    ||| 0x09 <= u <= 0x0D
    ||| u == 0x20
    ||| u == 0x85
    ||| u == 0xA0
    ||| u == 0x1680
    ||| 0x2000 <= u <= 0x200A
    ||| u == 0x2028
    ||| u == 0x2029
    ||| u == 0x202F
    ||| u == 0x205F
    ||| u == 0x3000
}

/// A string is blank if nothing is left of it once white space is trimmed
/// off both ends: every character of it is white space.
pub open spec fn is_blank(s: Seq<char>) -> bool {
    forall|i: int| 0 <= i < s.len() ==> is_white_space(#[trigger] s[i])
}

/// `from..to` is a token of `s`: a run of characters that are not white
/// space, with white space or an end of the string on either side.
pub open spec fn is_token_at(s: Seq<char>, from: int, to: int) -> bool {
    &&& 0 <= from < to <= s.len()
    &&& forall|i: int| from <= i < to ==> !is_white_space(#[trigger] s[i])
    &&& from == 0 || is_white_space(s[from - 1])
    &&& to == s.len() || is_white_space(s[to])
}

/// Whether `token` is one of the white-space separated tokens of `s`.
pub open spec fn has_token(s: Seq<char>, token: Seq<char>) -> bool {
    exists|from: int, to: int| is_token_at(s, from, to) && #[trigger] s.subrange(from, to) == token
}

/// Whether a character is white space.
pub fn is_whitespace(c: char) -> (b: bool)
    ensures
        b == is_white_space(c),
{
    let u: u32 = c as u32;
    (0x09 <= u && u <= 0x0D) || u == 0x20 || u == 0x85 || u == 0xA0 || u == 0x1680 || (0x2000 <= u
        && u <= 0x200A) || u == 0x2028 || u == 0x2029 || u == 0x202F || u == 0x205F || u == 0x3000
}

/// The characters of a string.
pub fn chars_of(s: &str) -> (v: Vec<char>)
    ensures
        v@ == s@,
{
    let mut v: Vec<char> = Vec::new();
    for c in it: s.chars()
        invariant
            v@ == it.seq().take(it.index() as int),
            it.seq() == s@,
    {
        v.push(c);
    }
    v
}

/// Whether a string is blank.
pub fn text_is_blank(s: &str) -> (b: bool)
    ensures
        b == is_blank(s@),
{
    let v = chars_of(s);
    let mut i: usize = 0;
    while i < v.len()
        invariant
            i <= v.len(),
            v@ == s@,
            forall|k: int| 0 <= k < i ==> is_white_space(#[trigger] v@[k]),
        decreases v.len() - i,
    {
        if !is_whitespace(v[i]) {
            return false;
        }
        i = i + 1;
    }
    true
}

fn run_equals(v: &Vec<char>, from: usize, to: usize, token: &Vec<char>) -> (b: bool)
    requires
        from <= to <= v.len(),
    ensures
        b == (v@.subrange(from as int, to as int) == token@),
{
    if to - from != token.len() {
        return false;
    }
    let mut k: usize = 0;
    while k < token.len()
        invariant
            from <= to <= v.len(),
            to - from == token.len(),
            k <= token.len(),
            forall|j: int| 0 <= j < k ==> v@[from + j] == token@[j],
        decreases token.len() - k,
    {
        if v[from + k] != token[k] {
            assert(v@.subrange(from as int, to as int)[k as int] != token@[k as int]);
            return false;
        }
        k = k + 1;
    }
    assert(v@.subrange(from as int, to as int) =~= token@);
    true
}

/// Whether `token` is one of the white-space separated tokens of `value`.
pub fn contains_token(value: &str, token: &str) -> (b: bool)
    ensures
        b == has_token(value@, token@),
{
    let v = chars_of(value);
    let t = chars_of(token);
    let mut i: usize = 0;
    while i < v.len()
        invariant
            i <= v.len(),
            v@ == value@,
            t@ == token@,
            i == 0 || i == v.len() || is_white_space(v@[i - 1]) || is_white_space(v@[i as int]),
            forall|from: int, to: int|
                is_token_at(v@, from, to) && to <= i ==> #[trigger] v@.subrange(from, to) != t@,
            forall|from: int, to: int| #[trigger] is_token_at(v@, from, to) ==> to <= i || i <= from,
        decreases v.len() - i,
    {
        if is_whitespace(v[i]) {
            i = i + 1;
        } else {
            let start = i;
            while i < v.len() && !is_whitespace(v[i])
                invariant
                    start <= i <= v.len(),
                    start < v.len(),
                    forall|k: int| start <= k < i ==> !is_white_space(#[trigger] v@[k]),
                decreases v.len() - i,
            {
                i = i + 1;
            }
            assert(is_token_at(v@, start as int, i as int));
            assert forall|from: int, to: int| #[trigger]
                is_token_at(v@, from, to) && to <= i && start < to implies from == start && to
                == i by {
                if to < i {
                    assert(!is_white_space(v@[to]));
                }
                if from < start {
                    assert(!is_white_space(v@[start - 1]));
                }
                if from > start {
                    assert(!is_white_space(v@[from - 1]));
                }
            }
            assert forall|from: int, to: int| #[trigger] is_token_at(v@, from, to) implies to <= i
                || i <= from by {
                if from < i && i < to {
                    if from < start {
                        assert(!is_white_space(v@[start - 1]));
                    } else if from > start {
                        assert(!is_white_space(v@[from - 1]));
                    } else {
                        assert(!is_white_space(v@[i as int]));
                    }
                }
            }
            if run_equals(&v, start, i, &t) {
                return true;
            }
        }
    }
    assert forall|from: int, to: int| is_token_at(v@, from, to) implies #[trigger] v@.subrange(
        from,
        to,
    ) != t@ by {}
    false
}

} // verus!
