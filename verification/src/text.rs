//! Character-level helpers shared by the playlist codec and the
//! command-line option parser: character classes, first-occurrence
//! search, blank trimming and string equality.

use vstd::prelude::*;

verus! {

/// The blank characters that are stripped around display names and
/// target lines.
pub open spec fn is_space_char(c: char) -> bool {
    c == ' ' || c == '\t' || c == '\r'
}

pub open spec fn is_digit_char(c: char) -> bool {
    48 <= c as u32 && c as u32 <= 57
}

pub open spec fn is_alpha_char(c: char) -> bool {
    (65 <= c as u32 && c as u32 <= 90) || (97 <= c as u32 && c as u32 <= 122)
}

/// Index of the first occurrence of `c1` or `c2` in `s`, if any.
pub open spec fn find_first(s: Seq<char>, c1: char, c2: char) -> Option<int>
    decreases s.len(),
{
    if s.len() == 0 {
        None
    } else if s[0] == c1 || s[0] == c2 {
        Some(0)
    } else {
        match find_first(s.drop_first(), c1, c2) {
            Some(i) => Some(i + 1),
            None => None,
        }
    }
}

/// Index of the first occurrence of `c` in `s`, if any.
pub open spec fn find_char(s: Seq<char>, c: char) -> Option<int> {
    find_first(s, c, c)
}

/// `find_first` returns the least index holding one of the two
/// characters, and `None` exactly when neither occurs.
pub proof fn lemma_find_first(s: Seq<char>, c1: char, c2: char)
    ensures
        match find_first(s, c1, c2) {
            Some(i) => 0 <= i < s.len() && (s[i] == c1 || s[i] == c2) && (forall|j: int|
                0 <= j < i ==> s[j] != c1 && s[j] != c2),
            None => forall|j: int| 0 <= j < s.len() ==> s[j] != c1 && s[j] != c2,
        },
    decreases s.len(),
{
    if s.len() > 0 && s[0] != c1 && s[0] != c2 {
        let rest = s.drop_first();
        lemma_find_first(rest, c1, c2);
        assert(forall|j: int| 1 <= j < s.len() ==> s[j] == rest[j - 1]);
        match find_first(rest, c1, c2) {
            Some(i) => {
                assert(forall|j: int| 0 <= j < i + 1 ==> s[j] != c1 && s[j] != c2) by {
                    assert(forall|j: int| 1 <= j < i + 1 ==> s[j] == rest[j - 1]);
                }
            },
            None => {
                assert(forall|j: int| 0 <= j < s.len() ==> s[j] != c1 && s[j] != c2) by {
                    assert(forall|j: int| 1 <= j < s.len() ==> s[j] == rest[j - 1]);
                }
            },
        }
    }
}

/// Searching a concatenation whose first part holds neither character
/// searches the second part, shifted.
pub proof fn lemma_find_first_append(a: Seq<char>, b: Seq<char>, c1: char, c2: char)
    requires
        forall|j: int| 0 <= j < a.len() ==> a[j] != c1 && a[j] != c2,
    ensures
        find_first(a + b, c1, c2) == match find_first(b, c1, c2) {
            Some(i) => Some(i + a.len()),
            None => None::<int>,
        },
    decreases a.len(),
{
    if a.len() == 0 {
        assert(a + b =~= b);
    } else {
        assert((a + b).drop_first() =~= a.drop_first() + b);
        lemma_find_first_append(a.drop_first(), b, c1, c2);
    }
}

/// `s` without its leading spaces.
pub open spec fn skip_spaces(s: Seq<char>) -> Seq<char>
    decreases s.len(),
{
    if s.len() > 0 && s[0] == ' ' {
        skip_spaces(s.drop_first())
    } else {
        s
    }
}

pub proof fn lemma_skip_spaces_len(s: Seq<char>)
    ensures
        skip_spaces(s).len() <= s.len(),
    decreases s.len(),
{
    if s.len() > 0 && s[0] == ' ' {
        lemma_skip_spaces_len(s.drop_first());
    }
}

/// `s` without its trailing blanks.
pub open spec fn trim_end(s: Seq<char>) -> Seq<char>
    decreases s.len(),
{
    if s.len() > 0 && is_space_char(s.last()) {
        trim_end(s.drop_last())
    } else {
        s
    }
}

/// `s` without its leading blanks.
pub open spec fn trim_start(s: Seq<char>) -> Seq<char>
    decreases s.len(),
{
    if s.len() > 0 && is_space_char(s[0]) {
        trim_start(s.drop_first())
    } else {
        s
    }
}

/// `s` without leading and trailing blanks.
pub open spec fn trim(s: Seq<char>) -> Seq<char> {
    trim_start(trim_end(s))
}

/// A string with no blank first or last character trims to itself.
pub proof fn lemma_trim_noop(s: Seq<char>)
    requires
        s.len() > 0 ==> !is_space_char(s[0]) && !is_space_char(s.last()),
    ensures
        trim(s) == s,
{
}

pub fn is_space(c: char) -> (r: bool)
    ensures
        r == is_space_char(c),
{
    c == ' ' || c == '\t' || c == '\r'
}

pub fn is_alpha(c: char) -> (r: bool)
    ensures
        r == is_alpha_char(c),
{
    let u = c as u32;
    (65 <= u && u <= 90) || (97 <= u && u <= 122)
}

pub fn is_digit(c: char) -> (r: bool)
    ensures
        r == is_digit_char(c),
{
    let u = c as u32;
    48 <= u && u <= 57
}

/// Finds the first occurrence of `c1` or `c2` in `s`.
pub fn find_first_in(s: &str, c1: char, c2: char) -> (r: Option<usize>)
    ensures
        match r {
            Some(i) => find_first(s@, c1, c2) == Some(i as int),
            None => find_first(s@, c1, c2) is None,
        },
{
    let n = s.unicode_len();
    let mut i: usize = 0;
    proof {
        lemma_find_first(s@, c1, c2);
    }
    while i < n
        invariant
            n == s@.len(),
            0 <= i <= n,
            forall|j: int| 0 <= j < i ==> s@[j] != c1 && s@[j] != c2,
            match find_first(s@, c1, c2) {
                Some(k) => 0 <= k < s@.len() && (s@[k] == c1 || s@[k] == c2) && (forall|j: int|
                    0 <= j < k ==> s@[j] != c1 && s@[j] != c2),
                None => forall|j: int| 0 <= j < s@.len() ==> s@[j] != c1 && s@[j] != c2,
            },
        decreases n - i,
    {
        let c = s.get_char(i);
        if c == c1 || c == c2 {
            return Some(i);
        }
        i += 1;
    }
    None
}

/// Finds the first occurrence of `c` in `s`.
pub fn find_char_in(s: &str, c: char) -> (r: Option<usize>)
    ensures
        match r {
            Some(i) => find_char(s@, c) == Some(i as int),
            None => find_char(s@, c) is None,
        },
{
    find_first_in(s, c, c)
}

/// Strips the leading spaces off `s`.
pub fn skip_spaces_str<'a>(s: &'a str) -> (r: &'a str)
    ensures
        r@ == skip_spaces(s@),
{
    let n = s.unicode_len();
    let mut b: usize = 0;
    proof {
        assert(s@.skip(0) =~= s@);
    }
    while b < n && s.get_char(b) == ' '
        invariant
            n == s@.len(),
            0 <= b <= n,
            skip_spaces(s@) == skip_spaces(s@.skip(b as int)),
        decreases n - b,
    {
        proof {
            assert(s@.skip(b as int)[0] == s@[b as int]);
            assert(s@.skip(b as int).drop_first() =~= s@.skip(b as int + 1));
        }
        b += 1;
    }
    let r = s.substring_char(b, n);
    proof {
        if b < n {
            assert(s@.skip(b as int)[0] == s@[b as int]);
        }
        assert(r@ =~= s@.skip(b as int));
    }
    r
}

/// Strips the blanks off both ends of `s`.
pub fn trim_str<'a>(s: &'a str) -> (r: &'a str)
    ensures
        r@ == trim(s@),
{
    let n = s.unicode_len();
    let mut e: usize = n;
    proof {
        assert(s@.take(n as int) =~= s@);
    }
    while e > 0 && is_space(s.get_char(e - 1))
        invariant
            n == s@.len(),
            0 <= e <= n,
            trim_end(s@) == trim_end(s@.take(e as int)),
        decreases e,
    {
        proof {
            let t = s@.take(e as int);
            assert(t.last() == s@[e as int - 1]);
            assert(t.drop_last() =~= s@.take(e as int - 1));
        }
        e -= 1;
    }
    proof {
        if e > 0 {
            assert(s@.take(e as int).last() == s@[e as int - 1]);
        }
        assert(trim_end(s@) == s@.take(e as int));
    }
    let mut b: usize = 0;
    proof {
        assert(s@.subrange(0, e as int) =~= s@.take(e as int));
    }
    while b < e && is_space(s.get_char(b))
        invariant
            n == s@.len(),
            0 <= b <= e <= n,
            trim_end(s@) == s@.take(e as int),
            trim_start(s@.take(e as int)) == trim_start(s@.subrange(b as int, e as int)),
        decreases e - b,
    {
        proof {
            let t = s@.subrange(b as int, e as int);
            assert(t[0] == s@[b as int]);
            assert(t.drop_first() =~= s@.subrange(b as int + 1, e as int));
        }
        b += 1;
    }
    let r = s.substring_char(b, e);
    proof {
        let t = s@.subrange(b as int, e as int);
        if b < e {
            assert(t[0] == s@[b as int]);
        }
        assert(trim_start(t) == t);
        assert(r@ =~= t);
    }
    r
}

/// Whether `a` and `b` hold the same characters.
pub fn str_eq(a: &str, b: &str) -> (r: bool)
    ensures
        r == (a@ == b@),
{
    let a_len = a.unicode_len();
    let b_len = b.unicode_len();
    if a_len != b_len {
        assert(a@ != b@);
        return false;
    }
    let mut i: usize = 0;
    while i < a_len
        invariant
            a_len == a@.len(),
            b_len == b@.len(),
            a_len == b_len,
            0 <= i <= a_len,
            forall|j: int| 0 <= j < i ==> a@[j] == b@[j],
        decreases a_len - i,
    {
        if a.get_char(i) != b.get_char(i) {
            assert(a@ != b@);
            return false;
        }
        i += 1;
    }
    proof {
        assert(a@ =~= b@);
    }
    true
}

} // verus!
