//! Character-level helpers: trimming whitespace from entry text and building
//! strings character by character.

use vstd::prelude::*;

verus! {

/// Whether `c` has the Unicode `White_Space` property: the characters that
/// trimming removes.
pub open spec fn is_space(c: char) -> bool {
    let u = c as u32;
    (9 <= u && u <= 13) || u == 32 || u == 0x85 || u == 0xA0 || u == 0x1680 || (0x2000 <= u && u
        <= 0x200A) || u == 0x2028 || u == 0x2029 || u == 0x202F || u == 0x205F || u == 0x3000
}

/// Whether `c` has the Unicode `White_Space` property.
pub fn is_space_char(c: char) -> (r: bool)
    ensures
        r == is_space(c),
{
    let u = c as u32;
    (9 <= u && u <= 13) || u == 32 || u == 0x85 || u == 0xA0 || u == 0x1680 || (0x2000 <= u && u
        <= 0x200A) || u == 0x2028 || u == 0x2029 || u == 0x202F || u == 0x205F || u == 0x3000
}

/// Index of the first character of `s` that is not whitespace; `s.len()` when
/// every character is whitespace.
pub open spec fn first_keep(s: Seq<char>) -> int
    decreases s.len(),
{
    if s.len() == 0 {
        0
    } else if !is_space(s[0]) {
        0
    } else {
        1 + first_keep(s.drop_first())
    }
}

/// Index one past the last character of `s` that is not whitespace; `0` when
/// every character is whitespace.
pub open spec fn last_keep(s: Seq<char>) -> int
    decreases s.len(),
{
    if s.len() == 0 {
        0
    } else if !is_space(s.last()) {
        s.len() as int
    } else {
        last_keep(s.drop_last())
    }
}

/// `s` with leading and trailing whitespace removed.
pub open spec fn trim_spec(s: Seq<char>) -> Seq<char> {
    if first_keep(s) < last_keep(s) {
        s.subrange(first_keep(s), last_keep(s))
    } else {
        Seq::empty()
    }
}

/// `first_keep` is the position where a left-to-right scan over whitespace
/// stops.
proof fn lemma_first_keep_at(s: Seq<char>, k: int)
    requires
        0 <= k <= s.len(),
        forall|j: int| 0 <= j < k ==> is_space(s[j]),
        k < s.len() ==> !is_space(s[k]),
    ensures
        first_keep(s) == k,
    decreases s.len(),
{
    if k == 0 {
    } else {
        lemma_first_keep_at(s.drop_first(), k - 1);
    }
}

/// `last_keep` is the position where a right-to-left scan over whitespace
/// stops.
proof fn lemma_last_keep_at(s: Seq<char>, k: int)
    requires
        0 <= k <= s.len(),
        forall|j: int| k <= j < s.len() ==> is_space(s[j]),
        k > 0 ==> !is_space(s[k - 1]),
    ensures
        last_keep(s) == k,
    decreases s.len(),
{
    if k == s.len() {
        if s.len() == 0 {
        }
    } else {
        assert(is_space(s.last()));
        lemma_last_keep_at(s.drop_last(), k);
    }
}

/// A copy of `s` with leading and trailing whitespace removed.
pub fn trim(s: &str) -> (r: String)
    ensures
        r@ == trim_spec(s@),
{
    let n = s.unicode_len();
    let mut a: usize = 0;
    while a < n && is_space_char(s.get_char(a))
        invariant
            a <= n,
            n == s@.len(),
            forall|j: int| 0 <= j < a ==> is_space(s@[j]),
        decreases n - a,
    {
        a = a + 1;
    }
    proof {
        lemma_first_keep_at(s@, a as int);
    }
    let mut b: usize = n;
    while b > a && is_space_char(s.get_char(b - 1))
        invariant
            a <= b <= n,
            n == s@.len(),
            forall|j: int| b <= j < n ==> is_space(s@[j]),
        decreases b,
    {
        b = b - 1;
    }
    if a >= b {
        proof {
            lemma_last_keep_at(s@, 0);
        }
        String::new()
    } else {
        proof {
            lemma_last_keep_at(s@, b as int);
        }
        let sub = s.substring_char(a, b);
        sub.to_owned()
    }
}

/// Relies on `String::push`: appends the given character to the end of the
/// string.
#[verifier::external_body]
pub fn push_char(s: &mut String, c: char)
    ensures
        final(s)@ == old(s)@.push(c),
{
    s.push(c)
}

/// The characters of `s`, in order.
pub fn chars_of(s: &str) -> (r: Vec<char>)
    ensures
        r@ == s@,
{
    let n = s.unicode_len();
    let mut v: Vec<char> = Vec::new();
    let mut i: usize = 0;
    while i < n
        invariant
            i <= n,
            n == s@.len(),
            v@ == s@.take(i as int),
        decreases n - i,
    {
        v.push(s.get_char(i));
        i = i + 1;
        proof {
            assert(v@ =~= s@.take(i as int));
        }
    }
    proof {
        assert(s@.take(n as int) =~= s@);
    }
    v
}

} // verus!
