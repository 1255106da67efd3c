//! Character classes, ASCII case folding and the input rules of the service.
use vstd::prelude::*;

verus! {

pub const MIN_USERNAME_LEN: usize = 4;
pub const MAX_USERNAME_LEN: usize = 64;
pub const MIN_PASSWORD_LEN: usize = 8;
pub const MAX_PASSWORD_LEN: usize = 64;
pub const MAX_ROOM_NAME_LEN: usize = 64;

pub open spec fn is_ascii_alnum(c: char) -> bool {
    ('0' <= c && c <= '9') || ('a' <= c && c <= 'z') || ('A' <= c && c <= 'Z')
}

pub open spec fn all_alnum(s: Seq<char>) -> bool {
    forall|i: int| 0 <= i < s.len() ==> is_ascii_alnum(#[trigger] s[i])
}

/// Room names admit letters, digits and the space.
pub open spec fn all_room_chars(s: Seq<char>) -> bool {
    forall|i: int| 0 <= i < s.len() ==> (is_ascii_alnum(#[trigger] s[i]) || s[i] == ' ')
}

/// Two characters that are equal once ASCII letters are folded to one case.
pub open spec fn char_eq_ignore_case(a: char, b: char) -> bool {
    let x = a as u32;
    let y = b as u32;
    x == y || (97 <= x <= 122 && y + 32 == x) || (97 <= y <= 122 && x + 32 == y)
}

pub open spec fn eq_ignore_case(a: Seq<char>, b: Seq<char>) -> bool {
    a.len() == b.len() && forall|i: int|
        0 <= i < a.len() ==> char_eq_ignore_case(#[trigger] a[i], b[i])
}

/// `needle` occurs in `hay` at position `i`, ignoring ASCII case.
pub open spec fn occurs_at(hay: Seq<char>, needle: Seq<char>, i: int) -> bool {
    0 <= i && i + needle.len() <= hay.len() && eq_ignore_case(
        hay.subrange(i, i + needle.len()),
        needle,
    )
}

pub open spec fn contains_ignore_case(hay: Seq<char>, needle: Seq<char>) -> bool {
    exists|i: int| occurs_at(hay, needle, i)
}

pub fn is_ascii_alnum_char(c: char) -> (r: bool)
    ensures
        r == is_ascii_alnum(c),
{
    ('0' <= c && c <= '9') || ('a' <= c && c <= 'z') || ('A' <= c && c <= 'Z')
}

pub fn char_eq_ignore_ascii_case(a: char, b: char) -> (r: bool)
    ensures
        r == char_eq_ignore_case(a, b),
{
    let x = a as u32;
    let y = b as u32;
    x == y || (97 <= x && x <= 122 && y + 32 == x) || (97 <= y && y <= 122 && x + 32 == y)
}

pub fn char_count(s: &str) -> (n: usize)
    ensures
        n == s@.len(),
{
    s.unicode_len()
}

/// Case-insensitive equality reads the same both ways round.
pub proof fn eq_ignore_case_symmetric(a: Seq<char>, b: Seq<char>)
    requires
        eq_ignore_case(a, b),
    ensures
        eq_ignore_case(b, a),
{
    assert forall|i: int| 0 <= i < b.len() implies char_eq_ignore_case(#[trigger] b[i], a[i]) by {
        assert(char_eq_ignore_case(a[i], b[i]));
    }
}

/// Two strings equal to a third, ignoring case, are equal to each other.
pub proof fn eq_ignore_case_transitive(a: Seq<char>, b: Seq<char>, c: Seq<char>)
    requires
        eq_ignore_case(a, b),
        eq_ignore_case(b, c),
    ensures
        eq_ignore_case(a, c),
{
    assert forall|i: int| 0 <= i < a.len() implies char_eq_ignore_case(#[trigger] a[i], c[i]) by {
        assert(char_eq_ignore_case(a[i], b[i]));
        assert(char_eq_ignore_case(b[i], c[i]));
    }
}

/// Whether every character of `s` is an ASCII letter or digit.
pub fn is_alphanumeric(s: &str) -> (r: bool)
    ensures
        r == all_alnum(s@),
{
    let n = s.unicode_len();
    let mut i: usize = 0;
    while i < n
        invariant
            n == s@.len(),
            i <= n,
            forall|j: int| 0 <= j < i ==> is_ascii_alnum(#[trigger] s@[j]),
        decreases n - i,
    {
        if !is_ascii_alnum_char(s.get_char(i)) {
            return false;
        }
        i = i + 1;
    }
    true
}

/// Whether every character of `s` is an ASCII letter, digit or space.
pub fn is_room_name_text(s: &str) -> (r: bool)
    ensures
        r == all_room_chars(s@),
{
    let n = s.unicode_len();
    let mut i: usize = 0;
    while i < n
        invariant
            n == s@.len(),
            i <= n,
            forall|j: int| 0 <= j < i ==> (is_ascii_alnum(#[trigger] s@[j]) || s@[j] == ' '),
        decreases n - i,
    {
        let c = s.get_char(i);
        if !is_ascii_alnum_char(c) && c != ' ' {
            return false;
        }
        i = i + 1;
    }
    true
}

pub fn same_text(a: &str, b: &str) -> (r: bool)
    ensures
        r == (a@ == b@),
{
    let n = a.unicode_len();
    if n != b.unicode_len() {
        return false;
    }
    let mut i: usize = 0;
    while i < n
        invariant
            n == a@.len(),
            n == b@.len(),
            i <= n,
            forall|j: int| 0 <= j < i ==> a@[j] == b@[j],
        decreases n - i,
    {
        if a.get_char(i) != b.get_char(i) {
            return false;
        }
        i = i + 1;
    }
    assert(a@ =~= b@);
    true
}

/// Equality of two strings once ASCII letters are folded to one case.
pub fn eq_ignore_ascii_case(a: &str, b: &str) -> (r: bool)
    ensures
        r == eq_ignore_case(a@, b@),
{
    let n = a.unicode_len();
    if n != b.unicode_len() {
        return false;
    }
    let mut i: usize = 0;
    while i < n
        invariant
            n == a@.len(),
            n == b@.len(),
            i <= n,
            forall|j: int| 0 <= j < i ==> char_eq_ignore_case(#[trigger] a@[j], b@[j]),
        decreases n - i,
    {
        if !char_eq_ignore_ascii_case(a.get_char(i), b.get_char(i)) {
            return false;
        }
        i = i + 1;
    }
    true
}

/// Whether `needle` occurs in `hay` at character position `at`, ignoring ASCII case.
fn occurs_at_exec(hay: &str, needle: &str, at: usize, hay_len: usize, needle_len: usize) -> (r:
    bool)
    requires
        hay_len == hay@.len(),
        needle_len == needle@.len(),
        at + needle_len <= hay_len,
    ensures
        r == occurs_at(hay@, needle@, at as int),
{
    let mut k: usize = 0;
    while k < needle_len
        invariant
            hay_len == hay@.len(),
            needle_len == needle@.len(),
            at + needle_len <= hay_len,
            k <= needle_len,
            forall|j: int|
                0 <= j < k ==> char_eq_ignore_case(#[trigger] hay@[at + j], needle@[j]),
        decreases needle_len - k,
    {
        if !char_eq_ignore_ascii_case(hay.get_char(at + k), needle.get_char(k)) {
            assert(!char_eq_ignore_case(
                hay@.subrange(at as int, at + needle_len)[k as int],
                needle@[k as int],
            ));
            return false;
        }
        k = k + 1;
    }
    assert forall|j: int| 0 <= j < needle_len implies char_eq_ignore_case(
        #[trigger] hay@.subrange(at as int, at + needle_len)[j],
        needle@[j],
    ) by {
        assert(char_eq_ignore_case(hay@[at + j], needle@[j]));
    }
    true
}

/// Whether `needle` occurs anywhere in `hay`, ignoring ASCII case.
pub fn contains_ignore_ascii_case(hay: &str, needle: &str) -> (r: bool)
    ensures
        r == contains_ignore_case(hay@, needle@),
{
    let h = hay.unicode_len();
    let n = needle.unicode_len();
    if n > h {
        return false;
    }
    let mut i: usize = 0;
    while i <= h - n
        invariant
            h == hay@.len(),
            n == needle@.len(),
            n <= h,
            i <= h - n + 1,
            forall|j: int| 0 <= j < i ==> !occurs_at(hay@, needle@, j),
        decreases h - i,
    {
        if occurs_at_exec(hay, needle, i, h, n) {
            return true;
        }
        i = i + 1;
    }
    assert forall|j: int| !occurs_at(hay@, needle@, j) by {
        if 0 <= j && j + n <= h {
            assert(j < i);
        }
    }
    false
}

} // verus!
