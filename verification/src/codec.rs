//! The playlist codec: parsing the `#EXTM3U`/`#EXTINF` text format
//! into entries and serializing entries back to that exact textual
//! form.
//!
//! The accepted shape of a record is
//! `#EXTINF:<duration>,<key>="<value>" ... <display name>` followed by
//! one target line (a URL or a local path). A quote embedded in an
//! attribute value is escaped by doubling it: inside a quoted value
//! `""` stands for one literal quote, and a lone quote closes the
//! value. The encoder writes every value in that form, so any value
//! at all survives the trip.

use vstd::prelude::*;
use crate::entry::{Entry, EntryView, Target, TargetView};
use crate::text::{
    find_char, find_first, is_alpha_char, is_digit_char, is_space_char, lemma_find_first,
    lemma_find_first_append, lemma_skip_spaces_len, skip_spaces, trim,
};

verus! {

/// Failure to decode a single record; the decoder resynchronizes and
/// goes on with the next directive.
#[derive(Clone, Copy, Debug, PartialEq, Eq)]
pub enum DecodeError {
    /// The text between `#EXTINF:` and the first comma is not a
    /// decimal number.
    InvalidDuration,
    /// An `#EXTINF` line without a following target line, a target
    /// line without a preceding `#EXTINF` line, or an `#EXTINF` line
    /// without a comma.
    MalformedEntry,
}

/// The decoded head of a record: everything the `#EXTINF` line holds.
#[verifier::ext_equal]
pub struct ExtinfView {
    pub duration: Seq<char>,
    pub attributes: Seq<(Seq<char>, Seq<char>)>,
    pub display_name: Seq<char>,
}

/// The views of a list of attribute pairs.
pub open spec fn pairs_view(attrs: Seq<(String, String)>) -> Seq<(Seq<char>, Seq<char>)> {
    Seq::new(attrs.len(), |i: int| (attrs[i].0@, attrs[i].1@))
}

/// The views of a list of entries.
pub open spec fn views_of(entries: Seq<Entry>) -> Seq<EntryView> {
    entries.map_values(|e: Entry| e@)
}

// ------------------------------------------------------------------
// The duration grammar: an optional sign, then digits with at most
// one decimal point and at least one digit.
// ------------------------------------------------------------------

pub open spec fn all_digits(s: Seq<char>) -> bool {
    forall|i: int| 0 <= i < s.len() ==> is_digit_char(#[trigger] s[i])
}

/// The mantissa of a duration: digits with at most one decimal point
/// and at least one digit.
pub open spec fn is_mantissa_text(s: Seq<char>) -> bool {
    ||| (s.len() > 0 && all_digits(s))
    ||| (s.len() > 1 && exists|i: int|
        0 <= i < s.len() && #[trigger] s[i] == '.' && all_digits(s.take(i)) && all_digits(
            s.skip(i + 1),
        ))
}

/// An exponent: an optional sign, then at least one digit.
pub open spec fn is_exponent_text(s: Seq<char>) -> bool {
    let digits = if s.len() > 0 && (s[0] == '+' || s[0] == '-') {
        s.skip(1)
    } else {
        s
    };
    digits.len() > 0 && all_digits(digits)
}

/// An unsigned duration: a mantissa, optionally followed by `e` or
/// `E` and an exponent.
pub open spec fn is_unsigned_duration(s: Seq<char>) -> bool {
    ||| is_mantissa_text(s)
    ||| exists|i: int|
        0 <= i < s.len() && ((#[trigger] s[i]) == 'e' || s[i] == 'E') && is_mantissa_text(
            s.take(i),
        ) && is_exponent_text(s.skip(i + 1))
}

/// The decimal texts the decoder accepts as a duration.
pub open spec fn is_duration_text(s: Seq<char>) -> bool {
    if s.len() > 0 && (s[0] == '+' || s[0] == '-') {
        is_unsigned_duration(s.skip(1))
    } else {
        is_unsigned_duration(s)
    }
}

// ------------------------------------------------------------------
// Line classification and the URL test.
// ------------------------------------------------------------------

pub open spec fn is_blank_line(line: Seq<char>) -> bool {
    forall|i: int| 0 <= i < line.len() ==> is_space_char(#[trigger] line[i])
}

pub open spec fn is_extinf_line(line: Seq<char>) -> bool {
    line.len() >= 8 && line.take(8) == "#EXTINF:"@
}

/// A target is a URL when it opens with a nonempty alphabetic scheme
/// followed by `://`; anything else is a local path.
pub open spec fn is_url_text(s: Seq<char>) -> bool {
    exists|i: int|
        1 <= i && i + 3 <= s.len() && (forall|j: int| 0 <= j < i ==> is_alpha_char(#[trigger] s[j]))
            && #[trigger] s[i] == ':' && s[i + 1] == '/' && s[i + 2] == '/'
}

// ------------------------------------------------------------------
// Parsing, at the level of character sequences.
// ------------------------------------------------------------------

/// Reads a quoted value off the front of `s`, unescaping doubled
/// quotes, up to the lone quote that closes it. Returns the value and
/// the text after the closing quote, or `None` when no quote closes.
pub open spec fn scan_value(s: Seq<char>) -> Option<(Seq<char>, Seq<char>)>
    decreases s.len(),
{
    if s.len() == 0 {
        None
    } else if s[0] == '"' {
        if s.len() >= 2 && s[1] == '"' {
            match scan_value(s.skip(2)) {
                Some((v, r)) => Some((seq!['"'] + v, r)),
                None => None,
            }
        } else {
            Some((Seq::<char>::empty(), s.skip(1)))
        }
    } else {
        match scan_value(s.skip(1)) {
            Some((v, r)) => Some((seq![s[0]] + v, r)),
            None => None,
        }
    }
}

pub proof fn lemma_scan_value_shrinks(s: Seq<char>)
    ensures
        scan_value(s) matches Some(t) ==> t.1.len() < s.len(),
    decreases s.len(),
{
    if s.len() > 0 {
        if s[0] == '"' && s.len() >= 2 && s[1] == '"' {
            lemma_scan_value_shrinks(s.skip(2));
        } else if s[0] != '"' {
            lemma_scan_value_shrinks(s.skip(1));
        }
    }
}

/// Tries to read one `key="value"` pair off the front of `s`: the key
/// runs to the first `=`, which must be followed by a quoted value.
/// Returns the key, the unescaped value and the text after the
/// closing quote.
pub open spec fn spec_try_attr(s: Seq<char>) -> Option<(Seq<char>, Seq<char>, Seq<char>)> {
    match find_first(s, '=', '"') {
        Some(i) => if 1 <= i && i + 1 < s.len() && s[i] == '=' && s[i + 1] == '"' {
            match scan_value(s.skip(i + 2)) {
                Some((v, r)) => Some((s.take(i), v, r)),
                None => None,
            }
        } else {
            None
        },
        None => None,
    }
}

pub proof fn lemma_try_attr_shrinks(s: Seq<char>)
    ensures
        spec_try_attr(s) matches Some(t) ==> t.2.len() < s.len(),
{
    lemma_find_first(s, '=', '"');
    if let Some(i) = find_first(s, '=', '"') {
        if 1 <= i && i + 1 < s.len() && s[i] == '=' && s[i + 1] == '"' {
            lemma_scan_value_shrinks(s.skip(i + 2));
        }
    }
}

/// Reads attributes until the text stops looking like one; skips the
/// blanks between them. Returns the attributes and the leftover text,
/// which is the display-name part.
pub open spec fn spec_parse_attrs(s: Seq<char>) -> (Seq<(Seq<char>, Seq<char>)>, Seq<char>)
    decreases s.len(),
    via spec_parse_attrs_decreases
{
    match spec_try_attr(s) {
        Some((k, v, rest)) => {
            let (more, name) = spec_parse_attrs(skip_spaces(rest));
            (seq![(k, v)] + more, name)
        },
        None => (Seq::<(Seq<char>, Seq<char>)>::empty(), s),
    }
}

#[via_fn]
proof fn spec_parse_attrs_decreases(s: Seq<char>) {
    lemma_try_attr_shrinks(s);
    if let Some((k, v, rest)) = spec_try_attr(s) {
        lemma_skip_spaces_len(rest);
    }
}

/// What decoding an `#EXTINF` line yields: its head, or the error of
/// that record. An absent duration defaults to `-1`.
pub open spec fn spec_parse_extinf(line: Seq<char>) -> Result<ExtinfView, DecodeError> {
    let rest = line.skip(8);
    match find_char(rest, ',') {
        None => Err(DecodeError::MalformedEntry),
        Some(i) => {
            let raw = rest.take(i);
            let dur = if raw.len() == 0 {
                "-1"@
            } else {
                raw
            };
            if !is_duration_text(dur) {
                Err(DecodeError::InvalidDuration)
            } else {
                let (attrs, namepart) = spec_parse_attrs(skip_spaces(rest.skip(i + 1)));
                Ok(
                    ExtinfView {
                        duration: dur,
                        attributes: attrs,
                        display_name: trim(namepart),
                    },
                )
            }
        },
    }
}

/// The entry made of a decoded head and a target line: the target is
/// tagged a URL exactly when it opens with a scheme.
pub open spec fn entry_of(h: ExtinfView, t: Seq<char>) -> EntryView {
    EntryView {
        duration: h.duration,
        display_name: h.display_name,
        attributes: h.attributes,
        target: if is_url_text(t) {
            TargetView::Url(t)
        } else {
            TargetView::Path(t)
        },
    }
}

/// Where the decoder stands between lines.
pub enum DecodeState {
    /// Outside any record.
    Scanning,
    /// An `#EXTINF` head was read; its target line is owed.
    AwaitingTarget(ExtinfView),
    /// A record just failed; skipping until the next directive.
    Resyncing,
}

/// The records decoded from `lines`, starting in state `st`: blank
/// lines and comments are skipped, each well-formed `#EXTINF` line
/// plus target line yields one entry, and each broken record yields
/// one error after which the decoder resynchronizes on the next
/// `#EXTINF` directive.
pub open spec fn spec_decode_lines(lines: Seq<Seq<char>>, st: DecodeState) -> Seq<
    Result<EntryView, DecodeError>,
>
    decreases lines.len(),
{
    if lines.len() == 0 {
        match st {
            DecodeState::AwaitingTarget(_) => seq![
                Err::<EntryView, DecodeError>(DecodeError::MalformedEntry),
            ],
            _ => Seq::<Result<EntryView, DecodeError>>::empty(),
        }
    } else {
        let line = lines[0];
        let rest = lines.drop_first();
        match st {
            DecodeState::Scanning => {
                if is_blank_line(line) {
                    spec_decode_lines(rest, DecodeState::Scanning)
                } else if is_extinf_line(line) {
                    match spec_parse_extinf(line) {
                        Ok(h) => spec_decode_lines(rest, DecodeState::AwaitingTarget(h)),
                        Err(e) => seq![Err::<EntryView, DecodeError>(e)] + spec_decode_lines(
                            rest,
                            DecodeState::Resyncing,
                        ),
                    }
                } else if line[0] == '#' {
                    spec_decode_lines(rest, DecodeState::Scanning)
                } else {
                    seq![Err::<EntryView, DecodeError>(DecodeError::MalformedEntry)]
                        + spec_decode_lines(rest, DecodeState::Resyncing)
                }
            },
            DecodeState::AwaitingTarget(h) => {
                if is_blank_line(line) {
                    spec_decode_lines(rest, DecodeState::AwaitingTarget(h))
                } else if is_extinf_line(line) {
                    seq![Err::<EntryView, DecodeError>(DecodeError::MalformedEntry)] + (
                    match spec_parse_extinf(line) {
                        Ok(h2) => spec_decode_lines(rest, DecodeState::AwaitingTarget(h2)),
                        Err(e) => seq![Err::<EntryView, DecodeError>(e)] + spec_decode_lines(
                            rest,
                            DecodeState::Resyncing,
                        ),
                    })
                } else if line[0] == '#' {
                    spec_decode_lines(rest, DecodeState::AwaitingTarget(h))
                } else {
                    seq![Ok::<EntryView, DecodeError>(entry_of(h, line))]
                        + spec_decode_lines(rest, DecodeState::Scanning)
                }
            },
            DecodeState::Resyncing => {
                if is_extinf_line(line) {
                    match spec_parse_extinf(line) {
                        Ok(h) => spec_decode_lines(rest, DecodeState::AwaitingTarget(h)),
                        Err(e) => seq![Err::<EntryView, DecodeError>(e)] + spec_decode_lines(
                            rest,
                            DecodeState::Resyncing,
                        ),
                    }
                } else {
                    spec_decode_lines(rest, DecodeState::Resyncing)
                }
            },
        }
    }
}

/// The lines of `s`, split on `\n`; a trailing newline closes the
/// last line rather than opening an empty one.
pub open spec fn spec_split_lines(s: Seq<char>) -> Seq<Seq<char>>
    decreases s.len(),
    via spec_split_lines_decreases
{
    if s.len() == 0 {
        Seq::<Seq<char>>::empty()
    } else {
        match find_char(s, '\n') {
            Some(i) => seq![s.take(i)] + spec_split_lines(s.skip(i + 1)),
            None => seq![s],
        }
    }
}

#[via_fn]
proof fn spec_split_lines_decreases(s: Seq<char>) {
    lemma_find_first(s, '\n', '\n');
}

/// What decoding a whole text yields.
pub open spec fn spec_decode(text: Seq<char>) -> Seq<Result<EntryView, DecodeError>> {
    spec_decode_lines(spec_split_lines(text), DecodeState::Scanning)
}

// ------------------------------------------------------------------
// The classification helpers of the decoder.
// ------------------------------------------------------------------

fn is_blank_exec(line: &str) -> (r: bool)
    ensures
        r == is_blank_line(line@),
{
    let n = line.unicode_len();
    let mut i: usize = 0;
    while i < n
        invariant
            n == line@.len(),
            0 <= i <= n,
            forall|j: int| 0 <= j < i ==> is_space_char(#[trigger] line@[j]),
        decreases n - i,
    {
        if !crate::text::is_space(line.get_char(i)) {
            return false;
        }
        i += 1;
    }
    true
}

fn is_extinf_exec(line: &str) -> (r: bool)
    ensures
        r == is_extinf_line(line@),
{
    let n = line.unicode_len();
    if n < 8 {
        return false;
    }
    let p = line.substring_char(0, 8);
    proof {
        assert(p@ =~= line@.take(8));
    }
    crate::text::str_eq(p, "#EXTINF:")
}

fn is_url_exec(s: &str) -> (r: bool)
    ensures
        r == is_url_text(s@),
{
    let n = s.unicode_len();
    let mut i: usize = 0;
    while i < n && crate::text::is_alpha(s.get_char(i))
        invariant
            n == s@.len(),
            0 <= i <= n,
            forall|j: int| 0 <= j < i ==> is_alpha_char(#[trigger] s@[j]),
        decreases n - i,
    {
        i += 1;
    }
    // i is now the length of the maximal alphabetic prefix
    if 1 <= i && n >= 3 && i <= n - 3 {
        if s.get_char(i) == ':' && s.get_char(i + 1) == '/' && s.get_char(i + 2) == '/' {
            proof {
                assert(is_url_text(s@));
            }
            return true;
        }
    }
    proof {
        assert(!is_url_text(s@)) by {
            if is_url_text(s@) {
                let k = choose|k: int|
                    1 <= k && k + 3 <= s@.len() && (forall|j: int|
                        0 <= j < k ==> is_alpha_char(#[trigger] s@[j])) && #[trigger] s@[k] == ':'
                        && s@[k + 1] == '/' && s@[k + 2] == '/';
                assert(!is_alpha_char(':')) by {
                    assert(':' as u32 == 58);
                }
                if k < i {
                    assert(is_alpha_char(s@[k]));
                } else if k > i {
                    assert(i < n);
                    assert(is_alpha_char(s@[i as int]));
                }
                assert(k == i);
            }
        }
    }
    false
}

fn is_mantissa_exec(s: &str) -> (r: bool)
    ensures
        r == is_mantissa_text(s@),
{
    let n = s.unicode_len();
    let mut digits: usize = 0;
    let mut dot: Option<usize> = None;
    let mut j: usize = 0;
    while j < n
        invariant
            n == s@.len(),
            0 <= j <= n,
            digits + (if dot is Some { 1int } else { 0int }) == j,
            match dot {
                Some(d) => 0 <= d < j && s@[d as int] == '.' && (forall|t: int|
                    0 <= t < j && t != d ==> is_digit_char(#[trigger] s@[t])),
                None => forall|t: int| 0 <= t < j ==> is_digit_char(#[trigger] s@[t]),
            },
        decreases n - j,
    {
        let c = s.get_char(j);
        if crate::text::is_digit(c) {
            digits += 1;
        } else if c == '.' && dot.is_none() {
            dot = Some(j);
        } else {
            proof {
                lemma_mantissa_scan_bad(s@, j as int, dot);
            }
            return false;
        }
        j += 1;
    }
    if digits == 0 {
        proof {
            assert(!is_mantissa_text(s@)) by {
                match dot {
                    Some(d) => {
                        assert(n == 1);
                        assert(d == 0);
                        assert(!is_digit_char('.')) by {
                            assert('.' as u32 == 46);
                        }
                        assert(!all_digits(s@));
                        assert(!(s@.len() > 1));
                    },
                    None => {
                        assert(s@.len() == 0);
                    },
                }
            }
        }
        return false;
    }
    proof {
        assert(is_mantissa_text(s@)) by {
            match dot {
                Some(d) => {
                    let i = d as int;
                    assert(forall|t: int| 0 <= t < i ==> #[trigger] s@.take(i)[t] == s@[t]);
                    assert(all_digits(s@.take(i)));
                    assert(forall|t: int|
                        0 <= t < s@.skip(i + 1).len() ==> #[trigger] s@.skip(i + 1)[t] == s@[t + i
                            + 1]);
                    assert(all_digits(s@.skip(i + 1)));
                    assert(s@.len() == digits + 1 >= 2);
                },
                None => {
                    assert(all_digits(s@));
                    assert(s@.len() > 0);
                },
            }
        }
    }
    true
}

/// A character that is neither a digit nor a first decimal point
/// refutes the mantissa grammar.
proof fn lemma_mantissa_scan_bad(s: Seq<char>, j: int, dot: Option<usize>)
    requires
        0 <= j < s.len(),
        !is_digit_char(s[j]),
        s[j] == '.' ==> (dot matches Some(d) && 0 <= d < j && s[d as int] == '.'),
    ensures
        !is_mantissa_text(s),
{
    assert(!all_digits(s));
    assert(!is_digit_char('.')) by {
        assert('.' as u32 == 46);
    }
    assert forall|i: int|
        0 <= i < s.len() && #[trigger] s[i] == '.' implies !(all_digits(s.take(i)) && all_digits(
        s.skip(i + 1),
    )) by {
        if i == j {
            // the offending character is a second dot; the first one
            // sits in the digits-only region before it
            let d = dot->Some_0 as int;
            assert(d < i);
            assert(s.take(i)[d] == s[d]);
            assert(!all_digits(s.take(i)));
        } else if j < i {
            assert(s.take(i)[j] == s[j]);
            assert(!all_digits(s.take(i)));
        } else {
            assert(s.skip(i + 1)[j - i - 1] == s[j]);
            assert(!all_digits(s.skip(i + 1)));
        }
    }
}

/// The characters of a mantissa: digits and at most one dot.
proof fn lemma_mantissa_chars(s: Seq<char>)
    requires
        is_mantissa_text(s),
    ensures
        s.len() > 0,
        forall|i: int| 0 <= i < s.len() ==> is_digit_char(#[trigger] s[i]) || s[i] == '.',
{
    assert forall|i: int|
        0 <= i < s.len() implies is_digit_char(#[trigger] s[i]) || s[i] == '.' by {
        if !(s.len() > 0 && all_digits(s)) {
            let k = choose|k: int|
                0 <= k < s.len() && #[trigger] s[k] == '.' && all_digits(s.take(k)) && all_digits(
                    s.skip(k + 1),
                );
            if i < k {
                assert(s.take(k)[i] == s[i]);
                assert(is_digit_char(s.take(k)[i]));
            } else if i > k {
                assert(s.skip(k + 1)[i - k - 1] == s[i]);
                assert(is_digit_char(s.skip(k + 1)[i - k - 1]));
            }
        }
    }
}

fn is_exp_exec(s: &str) -> (r: bool)
    ensures
        r == is_exponent_text(s@),
{
    let n = s.unicode_len();
    let mut start: usize = 0;
    if n > 0 {
        let c0 = s.get_char(0);
        if c0 == '+' || c0 == '-' {
            start = 1;
        }
    }
    let ghost digits = if s@.len() > 0 && (s@[0] == '+' || s@[0] == '-') {
        s@.skip(1)
    } else {
        s@
    };
    proof {
        if start == 0 {
            assert(s@.skip(0) =~= s@);
        }
        assert(digits == s@.skip(start as int));
        assert(forall|t: int| 0 <= t < digits.len() ==> digits[t] == s@[t + start]);
    }
    if start >= n {
        proof {
            assert(digits.len() == 0);
        }
        return false;
    }
    let mut j: usize = start;
    while j < n
        invariant
            n == s@.len(),
            start <= j <= n,
            start <= 1,
            digits == s@.skip(start as int),
            digits == (if s@.len() > 0 && (s@[0] == '+' || s@[0] == '-') {
                s@.skip(1)
            } else {
                s@
            }),
            forall|t: int| start <= t < j ==> is_digit_char(#[trigger] s@[t]),
        decreases n - j,
    {
        if !crate::text::is_digit(s.get_char(j)) {
            proof {
                assert(digits[j as int - start as int] == s@[j as int]);
                assert(!all_digits(digits));
            }
            return false;
        }
        j += 1;
    }
    proof {
        assert(forall|t: int| 0 <= t < digits.len() ==> is_digit_char(#[trigger] digits[t]));
        assert(digits.len() == n - start > 0);
    }
    true
}

fn is_unsigned_exec(b: &str) -> (r: bool)
    ensures
        r == is_unsigned_duration(b@),
{
    let m = b.unicode_len();
    match crate::text::find_first_in(b, 'e', 'E') {
        None => {
            proof {
                lemma_find_first(b@, 'e', 'E');
                assert(is_unsigned_duration(b@) == is_mantissa_text(b@)) by {
                    if !is_mantissa_text(b@) && is_unsigned_duration(b@) {
                        let i = choose|i: int|
                            0 <= i < b@.len() && ((#[trigger] b@[i]) == 'e' || b@[i] == 'E')
                                && is_mantissa_text(b@.take(i)) && is_exponent_text(
                                b@.skip(i + 1),
                            );
                        assert(false);
                    }
                }
            }
            is_mantissa_exec(b)
        },
        Some(j) => {
            proof {
                lemma_find_first(b@, 'e', 'E');
            }
            let mant = b.substring_char(0, j);
            let expn = b.substring_char(j + 1, m);
            proof {
                assert(mant@ =~= b@.take(j as int));
                assert(expn@ =~= b@.skip(j as int + 1));
            }
            let rm = is_mantissa_exec(mant);
            let re = is_exp_exec(expn);
            proof {
                assert(is_unsigned_duration(b@) == (rm && re)) by {
                    if rm && re {
                        assert(b@[j as int] == 'e' || b@[j as int] == 'E');
                        assert(is_unsigned_duration(b@));
                    } else {
                        if is_mantissa_text(b@) {
                            lemma_mantissa_chars(b@);
                            assert(is_digit_char(b@[j as int]) || b@[j as int] == '.');
                            assert(is_digit_char('e') || 'e' as u32 == 101);
                            assert(false);
                        }
                        if is_unsigned_duration(b@) {
                            let i = choose|i: int|
                                0 <= i < b@.len() && ((#[trigger] b@[i]) == 'e' || b@[i] == 'E')
                                    && is_mantissa_text(b@.take(i)) && is_exponent_text(
                                    b@.skip(i + 1),
                                );
                            if i > j as int {
                                lemma_mantissa_chars(b@.take(i));
                                assert(b@.take(i)[j as int] == b@[j as int]);
                                assert(false);
                            }
                            assert(i == j as int);
                            assert(false);
                        }
                    }
                }
            }
            rm && re
        },
    }
}

fn is_duration_exec(s: &str) -> (r: bool)
    ensures
        r == is_duration_text(s@),
{
    let n = s.unicode_len();
    let mut start: usize = 0;
    if n > 0 {
        let c0 = s.get_char(0);
        if c0 == '+' || c0 == '-' {
            start = 1;
        }
    }
    let body = s.substring_char(start, n);
    proof {
        assert(body@ =~= s@.skip(start as int));
        if start == 0 {
            assert(s@.skip(0) =~= s@);
        }
    }
    is_unsigned_exec(body)
}

// ------------------------------------------------------------------
// The decoder.
// ------------------------------------------------------------------

fn scan_value_exec<'a>(s: &'a str) -> (r: Option<(String, &'a str)>)
    ensures
        match r {
            Some(t) => scan_value(s@) == Some((t.0@, t.1@)),
            None => scan_value(s@) is None,
        },
{
    let n = s.unicode_len();
    let mut val = String::new();
    let mut p: usize = 0;
    proof {
        assert(s@.skip(0) =~= s@);
    }
    loop
        invariant
            0 <= p <= n,
            n == s@.len(),
            match scan_value(s@.skip(p as int)) {
                Some(t) => scan_value(s@) == Some((val@ + t.0, t.1)),
                None => scan_value(s@) is None,
            },
        decreases n - p,
    {
        if p >= n {
            proof {
                assert(s@.skip(n as int) =~= Seq::<char>::empty());
            }
            return None;
        }
        let ghost tail = s@.skip(p as int);
        proof {
            assert(tail[0] == s@[p as int]);
        }
        let c = s.get_char(p);
        if c == '"' {
            if p + 1 < n && s.get_char(p + 1) == '"' {
                let piece = s.substring_char(p, p + 1);
                let ghost before = val@;
                val.append(piece);
                proof {
                    assert(tail[1] == s@[p as int + 1]);
                    assert(tail.skip(2) =~= s@.skip(p as int + 2));
                    assert(piece@ =~= seq!['"']);
                    if let Some((v2, r2)) = scan_value(s@.skip(p as int + 2)) {
                        assert(scan_value(tail) == Some((seq!['"'] + v2, r2)));
                        assert(before + (seq!['"'] + v2) =~= val@ + v2);
                    }
                }
                p += 2;
            } else {
                let rest = s.substring_char(p + 1, n);
                proof {
                    if p + 1 < n {
                        assert(tail[1] == s@[p as int + 1]);
                    }
                    assert(tail.skip(1) =~= s@.skip(p as int + 1));
                    assert(scan_value(tail) == Some((
                        Seq::<char>::empty(),
                        s@.skip(p as int + 1),
                    )));
                    assert(val@ + Seq::<char>::empty() =~= val@);
                    assert(rest@ =~= s@.skip(p as int + 1));
                }
                return Some((val, rest));
            }
        } else {
            let piece = s.substring_char(p, p + 1);
            let ghost before = val@;
            val.append(piece);
            proof {
                assert(tail.skip(1) =~= s@.skip(p as int + 1));
                assert(piece@ =~= seq![s@[p as int]]);
                if let Some((v2, r2)) = scan_value(s@.skip(p as int + 1)) {
                    assert(scan_value(tail) == Some((seq![tail[0]] + v2, r2)));
                    assert(before + (seq![tail[0]] + v2) =~= val@ + v2);
                }
            }
            p += 1;
        }
    }
}

fn try_attr_exec<'a>(s: &'a str) -> (r: Option<(&'a str, String, &'a str)>)
    ensures
        match r {
            Some(t) => spec_try_attr(s@) == Some((t.0@, t.1@, t.2@)),
            None => spec_try_attr(s@) is None,
        },
{
    let n = s.unicode_len();
    match crate::text::find_first_in(s, '=', '"') {
        None => None,
        Some(i) => {
            proof {
                lemma_find_first(s@, '=', '"');
            }
            if 1 <= i && i + 1 < n && s.get_char(i) == '=' && s.get_char(i + 1) == '"' {
                let rest1 = s.substring_char(i + 2, n);
                proof {
                    assert(rest1@ =~= s@.skip(i as int + 2));
                }
                match scan_value_exec(rest1) {
                    None => None,
                    Some((val, rest)) => {
                        let key = s.substring_char(0, i);
                        proof {
                            assert(key@ =~= s@.take(i as int));
                        }
                        Some((key, val, rest))
                    },
                }
            } else {
                None
            }
        },
    }
}

fn parse_attrs_exec<'a>(s: &'a str) -> (r: (Vec<(String, String)>, &'a str))
    ensures
        pairs_view(r.0@) == spec_parse_attrs(s@).0,
        r.1@ == spec_parse_attrs(s@).1,
{
    let mut attrs: Vec<(String, String)> = Vec::new();
    let mut cur: &'a str = s;
    proof {
        assert(pairs_view(attrs@) =~= Seq::<(Seq<char>, Seq<char>)>::empty());
    }
    loop
        invariant
            spec_parse_attrs(s@).0 == pairs_view(attrs@) + spec_parse_attrs(cur@).0,
            spec_parse_attrs(s@).1 == spec_parse_attrs(cur@).1,
        decreases cur@.len(),
    {
        match try_attr_exec(cur) {
            None => {
                proof {
                    assert(spec_parse_attrs(cur@).0 =~= Seq::<(Seq<char>, Seq<char>)>::empty());
                    assert(pairs_view(attrs@) + Seq::<(Seq<char>, Seq<char>)>::empty()
                        =~= pairs_view(attrs@));
                }
                return (attrs, cur);
            },
            Some((k, v, rest)) => {
                proof {
                    lemma_try_attr_shrinks(cur@);
                    lemma_skip_spaces_len(rest@);
                }
                let next = crate::text::skip_spaces_str(rest);
                let ghost before = attrs@;
                attrs.push((k.to_owned(), v));
                proof {
                    assert(pairs_view(attrs@) =~= pairs_view(before).push((k@, v@)));
                    assert(spec_parse_attrs(cur@).0 == seq![(k@, v@)] + spec_parse_attrs(
                        next@,
                    ).0);
                    assert(pairs_view(before) + (seq![(k@, v@)] + spec_parse_attrs(next@).0)
                        =~= pairs_view(attrs@) + spec_parse_attrs(next@).0);
                }
                cur = next;
            },
        }
    }
}

fn parse_extinf_exec(line: &str) -> (r: Result<
    (String, Vec<(String, String)>, String),
    DecodeError,
>)
    requires
        is_extinf_line(line@),
    ensures
        match r {
            Ok(h) => spec_parse_extinf(line@) == Ok::<ExtinfView, DecodeError>(
                ExtinfView {
                    duration: h.0@,
                    attributes: pairs_view(h.1@),
                    display_name: h.2@,
                },
            ),
            Err(e) => spec_parse_extinf(line@) == Err::<ExtinfView, DecodeError>(e),
        },
{
    let n = line.unicode_len();
    let rest = line.substring_char(8, n);
    proof {
        assert(rest@ =~= line@.skip(8));
    }
    match crate::text::find_char_in(rest, ',') {
        None => Err(DecodeError::MalformedEntry),
        Some(i) => {
            proof {
                lemma_find_first(rest@, ',', ',');
            }
            let m = rest.unicode_len();
            let raw = rest.substring_char(0, i);
            proof {
                assert(raw@ =~= rest@.take(i as int));
            }
            let dur: String = if raw.unicode_len() == 0 {
                String::from_str("-1")
            } else {
                raw.to_owned()
            };
            if !is_duration_exec(dur.as_str()) {
                return Err(DecodeError::InvalidDuration);
            }
            let tail0 = rest.substring_char(i + 1, m);
            proof {
                assert(tail0@ =~= rest@.skip(i as int + 1));
            }
            let tail = crate::text::skip_spaces_str(tail0);
            let (attrs, namepart) = parse_attrs_exec(tail);
            let name = crate::text::trim_str(namepart).to_owned();
            proof {
                assert(spec_parse_extinf(line@) == Ok::<ExtinfView, DecodeError>(
                    ExtinfView {
                        duration: dur@,
                        attributes: pairs_view(attrs@),
                        display_name: name@,
                    },
                )) by {
                    let got = spec_parse_extinf(line@)->Ok_0;
                    assert(got =~= ExtinfView {
                        duration: dur@,
                        attributes: pairs_view(attrs@),
                        display_name: name@,
                    });
                }
            }
            Ok((dur, attrs, name))
        },
    }
}

/// The views of a list of borrowed lines.
pub open spec fn lines_view(lines: Seq<&str>) -> Seq<Seq<char>> {
    Seq::new(lines.len(), |i: int| lines[i]@)
}

fn split_lines_exec<'a>(text: &'a str) -> (r: Vec<&'a str>)
    ensures
        lines_view(r@) == spec_split_lines(text@),
{
    let mut out: Vec<&'a str> = Vec::new();
    let mut cur: &'a str = text;
    proof {
        assert(lines_view(out@) =~= Seq::<Seq<char>>::empty());
    }
    loop
        invariant
            spec_split_lines(text@) == lines_view(out@) + spec_split_lines(cur@),
        decreases cur@.len(),
    {
        let m = cur.unicode_len();
        if m == 0 {
            proof {
                assert(lines_view(out@) + Seq::<Seq<char>>::empty() =~= lines_view(out@));
            }
            return out;
        }
        match crate::text::find_char_in(cur, '\n') {
            Some(i) => {
                proof {
                    lemma_find_first(cur@, '\n', '\n');
                }
                let line = cur.substring_char(0, i);
                let next = cur.substring_char(i + 1, m);
                let ghost before = out@;
                out.push(line);
                proof {
                    assert(line@ =~= cur@.take(i as int));
                    assert(next@ =~= cur@.skip(i as int + 1));
                    assert(lines_view(out@) =~= lines_view(before).push(line@));
                    assert(lines_view(before) + (seq![line@] + spec_split_lines(next@))
                        =~= lines_view(out@) + spec_split_lines(next@));
                }
                cur = next;
            },
            None => {
                let ghost before = out@;
                out.push(cur);
                proof {
                    assert(spec_split_lines(cur@) == seq![cur@]);
                    assert(lines_view(out@) =~= lines_view(before).push(cur@));
                    assert(lines_view(before) + seq![cur@] =~= lines_view(out@));
                    assert(lines_view(out@) + Seq::<Seq<char>>::empty() =~= lines_view(out@));
                    assert(spec_split_lines(Seq::<char>::empty()) =~= Seq::<Seq<char>>::empty());
                }
                let done = cur.substring_char(m, m);
                proof {
                    assert(done@ =~= Seq::<char>::empty());
                }
                cur = done;
                return out;
            },
        }
    }
}

/// The decoder's position between lines, with the owned pieces of a
/// head whose target line is still owed.
enum Cursor {
    Scanning,
    AwaitingTarget(String, Vec<(String, String)>, String),
    Resyncing,
}

spec fn cursor_view(c: Cursor) -> DecodeState {
    match c {
        Cursor::Scanning => DecodeState::Scanning,
        Cursor::AwaitingTarget(d, a, nm) => DecodeState::AwaitingTarget(
            ExtinfView { duration: d@, attributes: pairs_view(a@), display_name: nm@ },
        ),
        Cursor::Resyncing => DecodeState::Resyncing,
    }
}

/// The views of decoded records.
pub open spec fn results_view(rs: Seq<Result<Entry, DecodeError>>) -> Seq<
    Result<EntryView, DecodeError>,
> {
    Seq::new(
        rs.len(),
        |i: int|
            match rs[i] {
                Ok(e) => Ok(e@),
                Err(er) => Err(er),
            },
    )
}

proof fn lemma_emit(
    a: Seq<Result<EntryView, DecodeError>>,
    x: Result<EntryView, DecodeError>,
    b: Seq<Result<EntryView, DecodeError>>,
)
    ensures
        a + (seq![x] + b) == a.push(x) + b,
{
    assert(a + (seq![x] + b) =~= a.push(x) + b);
}

/// Decodes a playlist text into its records, one `Ok` entry per
/// well-formed `#EXTINF`-plus-target pair and one error per broken
/// record; blank lines, the header and other comments are skipped.
pub fn decode_playlist(text: &str) -> (r: Vec<Result<Entry, DecodeError>>)
    ensures
        results_view(r@) == spec_decode(text@),
{
    let lines = split_lines_exec(text);
    let ghost lviews = lines_view(lines@);
    let mut out: Vec<Result<Entry, DecodeError>> = Vec::new();
    let mut st = Cursor::Scanning;
    let n = lines.len();
    let mut i: usize = 0;
    proof {
        assert(results_view(out@) =~= Seq::<Result<EntryView, DecodeError>>::empty());
        assert(lviews.skip(0) =~= lviews);
        assert(Seq::<Result<EntryView, DecodeError>>::empty() + spec_decode_lines(
            lviews,
            DecodeState::Scanning,
        ) =~= spec_decode_lines(lviews, DecodeState::Scanning));
    }
    while i < n
        invariant
            n == lines.len(),
            0 <= i <= n,
            lviews == lines_view(lines@),
            spec_decode_lines(lviews, DecodeState::Scanning) == results_view(out@)
                + spec_decode_lines(lviews.skip(i as int), cursor_view(st)),
        decreases n - i,
    {
        let line: &str = lines[i];
        proof {
            assert(lviews.skip(i as int)[0] == line@);
            assert(lviews.skip(i as int).drop_first() =~= lviews.skip(i as int + 1));
        }
        let ghost tail_lines = lviews.skip(i as int + 1);
        let blank = is_blank_exec(line);
        let extinf = is_extinf_exec(line);
        let ghost out_before = results_view(out@);
        st = match st {
            Cursor::Scanning => {
                if blank {
                    Cursor::Scanning
                } else if extinf {
                    match parse_extinf_exec(line) {
                        Ok((d, a, nm)) => Cursor::AwaitingTarget(d, a, nm),
                        Err(e) => {
                            out.push(Err(e));
                            proof {
                                assert(results_view(out@) =~= out_before.push(
                                    Err::<EntryView, DecodeError>(e),
                                ));
                                lemma_emit(
                                    out_before,
                                    Err::<EntryView, DecodeError>(e),
                                    spec_decode_lines(tail_lines, DecodeState::Resyncing),
                                );
                            }
                            Cursor::Resyncing
                        },
                    }
                } else if line.get_char(0) == '#' {
                    Cursor::Scanning
                } else {
                    out.push(Err(DecodeError::MalformedEntry));
                    proof {
                        assert(results_view(out@) =~= out_before.push(
                            Err::<EntryView, DecodeError>(DecodeError::MalformedEntry),
                        ));
                        lemma_emit(
                            out_before,
                            Err::<EntryView, DecodeError>(DecodeError::MalformedEntry),
                            spec_decode_lines(tail_lines, DecodeState::Resyncing),
                        );
                    }
                    Cursor::Resyncing
                }
            },
            Cursor::AwaitingTarget(d, a, nm) => {
                let ghost h = cursor_view(Cursor::AwaitingTarget(d, a, nm))->AwaitingTarget_0;
                if blank {
                    Cursor::AwaitingTarget(d, a, nm)
                } else if extinf {
                    out.push(Err(DecodeError::MalformedEntry));
                    let ghost out_mid = results_view(out@);
                    proof {
                        assert(out_mid =~= out_before.push(
                            Err::<EntryView, DecodeError>(DecodeError::MalformedEntry),
                        ));
                    }
                    match parse_extinf_exec(line) {
                        Ok((d2, a2, nm2)) => {
                            proof {
                                lemma_emit(
                                    out_before,
                                    Err::<EntryView, DecodeError>(DecodeError::MalformedEntry),
                                    spec_decode_lines(
                                        tail_lines,
                                        cursor_view(
                                            Cursor::AwaitingTarget(d2, a2, nm2),
                                        ),
                                    ),
                                );
                            }
                            Cursor::AwaitingTarget(d2, a2, nm2)
                        },
                        Err(e) => {
                            out.push(Err(e));
                            proof {
                                assert(results_view(out@) =~= out_mid.push(
                                    Err::<EntryView, DecodeError>(e),
                                ));
                                lemma_emit(
                                    out_mid,
                                    Err::<EntryView, DecodeError>(e),
                                    spec_decode_lines(tail_lines, DecodeState::Resyncing),
                                );
                                lemma_emit(
                                    out_before,
                                    Err::<EntryView, DecodeError>(DecodeError::MalformedEntry),
                                    seq![Err::<EntryView, DecodeError>(e)] + spec_decode_lines(
                                        tail_lines,
                                        DecodeState::Resyncing,
                                    ),
                                );
                            }
                            Cursor::Resyncing
                        },
                    }
                } else if line.get_char(0) == '#' {
                    Cursor::AwaitingTarget(d, a, nm)
                } else {
                    // the target is the line verbatim: nothing trimmed
                    let t = line.to_owned();
                    let target = if is_url_exec(t.as_str()) {
                        Target::Url(t)
                    } else {
                        Target::Path(t)
                    };
                    let e = Entry { duration: d, display_name: nm, attributes: a, target };
                    proof {
                        assert(e@ =~= entry_of(h, line@));
                    }
                    out.push(Ok(e));
                    proof {
                        assert(results_view(out@) =~= out_before.push(
                            Ok::<EntryView, DecodeError>(entry_of(h, line@)),
                        ));
                        lemma_emit(
                            out_before,
                            Ok::<EntryView, DecodeError>(entry_of(h, line@)),
                            spec_decode_lines(tail_lines, DecodeState::Scanning),
                        );
                    }
                    Cursor::Scanning
                }
            },
            Cursor::Resyncing => {
                if extinf {
                    match parse_extinf_exec(line) {
                        Ok((d, a, nm)) => Cursor::AwaitingTarget(d, a, nm),
                        Err(e) => {
                            out.push(Err(e));
                            proof {
                                assert(results_view(out@) =~= out_before.push(
                                    Err::<EntryView, DecodeError>(e),
                                ));
                                lemma_emit(
                                    out_before,
                                    Err::<EntryView, DecodeError>(e),
                                    spec_decode_lines(tail_lines, DecodeState::Resyncing),
                                );
                            }
                            Cursor::Resyncing
                        },
                    }
                } else {
                    Cursor::Resyncing
                }
            },
        };
        i += 1;
    }
    proof {
        assert(lviews.skip(n as int) =~= Seq::<Seq<char>>::empty());
    }
    let ghost out_end = results_view(out@);
    match &st {
        Cursor::AwaitingTarget(_, _, _) => {
            out.push(Err(DecodeError::MalformedEntry));
            proof {
                assert(results_view(out@) =~= out_end.push(
                    Err::<EntryView, DecodeError>(DecodeError::MalformedEntry),
                ));
                assert(out_end + seq![Err::<EntryView, DecodeError>(DecodeError::MalformedEntry)]
                    =~= results_view(out@));
            }
        },
        _ => {
            proof {
                assert(out_end + Seq::<Result<EntryView, DecodeError>>::empty() =~= out_end);
            }
        },
    }
    out
}

/// The entries among decoded records, in order, the errors dropped.
pub open spec fn ok_records(rs: Seq<Result<EntryView, DecodeError>>) -> Seq<EntryView>
    decreases rs.len(),
{
    if rs.len() == 0 {
        Seq::<EntryView>::empty()
    } else {
        match rs[0] {
            Ok(e) => seq![e] + ok_records(rs.drop_first()),
            Err(_) => ok_records(rs.drop_first()),
        }
    }
}

/// Keeps the decoded entries and drops the per-record errors: a
/// malformed record is skipped with no output of its own, and the
/// well-formed records around it survive.
pub fn ok_entries(records: Vec<Result<Entry, DecodeError>>) -> (r: Vec<Entry>)
    ensures
        views_of(r@) == ok_records(results_view(records@)),
{
    let ghost all = results_view(records@);
    let mut rest = records;
    let mut out: Vec<Entry> = Vec::new();
    proof {
        assert(views_of(out@) =~= Seq::<EntryView>::empty());
        assert(Seq::<EntryView>::empty() + ok_records(results_view(rest@)) =~= ok_records(
            results_view(rest@),
        ));
    }
    while rest.len() > 0
        invariant
            ok_records(all) == views_of(out@) + ok_records(results_view(rest@)),
        decreases rest.len(),
    {
        let ghost before_rest = results_view(rest@);
        let ghost before_out = views_of(out@);
        let rec = rest.remove(0);
        proof {
            assert(results_view(rest@) =~= before_rest.drop_first());
        }
        match rec {
            Ok(e) => {
                proof {
                    assert(before_rest[0] == Ok::<EntryView, DecodeError>(e@));
                }
                out.push(e);
                proof {
                    assert(views_of(out@) =~= before_out.push(e@));
                    assert(before_out + (seq![e@] + ok_records(before_rest.drop_first()))
                        =~= views_of(out@) + ok_records(before_rest.drop_first()));
                }
            },
            Err(er) => {
                proof {
                    assert(before_rest[0] == Err::<EntryView, DecodeError>(er));
                }
            },
        }
    }
    proof {
        assert(results_view(rest@) =~= Seq::<Result<EntryView, DecodeError>>::empty());
        assert(views_of(out@) + Seq::<EntryView>::empty() =~= views_of(out@));
    }
    out
}

// ------------------------------------------------------------------
// Encoding, at the level of character sequences.
// ------------------------------------------------------------------

/// An attribute value as it is written: every quote doubled.
pub open spec fn escape_value(v: Seq<char>) -> Seq<char>
    decreases v.len(),
{
    if v.len() == 0 {
        Seq::<char>::empty()
    } else if v[0] == '"' {
        seq!['"', '"'] + escape_value(v.drop_first())
    } else {
        seq![v[0]] + escape_value(v.drop_first())
    }
}

pub proof fn lemma_escape_push(v: Seq<char>, c: char)
    ensures
        escape_value(v.push(c)) == escape_value(v) + (if c == '"' {
            seq!['"', '"']
        } else {
            seq![c]
        }),
    decreases v.len(),
{
    let tail = if c == '"' {
        seq!['"', '"']
    } else {
        seq![c]
    };
    assert(v.push(c).len() == v.len() + 1);
    assert(escape_value(v.push(c)) == (if v.push(c)[0] == '"' {
        seq!['"', '"']
    } else {
        seq![v.push(c)[0]]
    }) + escape_value(v.push(c).drop_first()));
    if v.len() == 0 {
        assert(v.push(c)[0] == c);
        assert(v.push(c).drop_first() =~= Seq::<char>::empty());
        assert(escape_value(Seq::<char>::empty()) == Seq::<char>::empty());
        assert(escape_value(v) == Seq::<char>::empty());
        assert(tail + Seq::<char>::empty() =~= tail);
        assert(Seq::<char>::empty() + tail =~= tail);
    } else {
        assert(v.push(c)[0] == v[0]);
        assert(v.push(c).drop_first() =~= v.drop_first().push(c));
        lemma_escape_push(v.drop_first(), c);
        let head = if v[0] == '"' {
            seq!['"', '"']
        } else {
            seq![v[0]]
        };
        assert(escape_value(v) == head + escape_value(v.drop_first()));
        assert(escape_value(v.push(c)) == head + (escape_value(v.drop_first()) + tail));
        assert(head + (escape_value(v.drop_first()) + tail) =~= (head + escape_value(
            v.drop_first(),
        )) + tail);
    }
}

/// One serialized attribute, its value escaped, with its trailing
/// separator blank.
pub open spec fn attr_text(a: (Seq<char>, Seq<char>)) -> Seq<char> {
    a.0 + seq!['=', '"'] + escape_value(a.1) + seq!['"', ' ']
}

pub open spec fn spec_encode_attrs(attrs: Seq<(Seq<char>, Seq<char>)>) -> Seq<char>
    decreases attrs.len(),
{
    if attrs.len() == 0 {
        Seq::<char>::empty()
    } else {
        attr_text(attrs[0]) + spec_encode_attrs(attrs.drop_first())
    }
}

pub open spec fn head_of(e: EntryView) -> ExtinfView {
    ExtinfView {
        duration: e.duration,
        attributes: e.attributes,
        display_name: e.display_name,
    }
}

pub open spec fn spec_encode_extinf(h: ExtinfView) -> Seq<char> {
    "#EXTINF:"@ + h.duration + seq![','] + spec_encode_attrs(h.attributes) + h.display_name
}

pub open spec fn target_text(t: TargetView) -> Seq<char> {
    match t {
        TargetView::Url(u) => u,
        TargetView::Path(p) => p,
    }
}

/// The two lines of one serialized entry.
pub open spec fn spec_encode_entry(e: EntryView) -> Seq<char> {
    spec_encode_extinf(head_of(e)) + seq!['\n'] + target_text(e.target) + seq!['\n']
}

pub open spec fn spec_encode_entries(entries: Seq<EntryView>) -> Seq<char>
    decreases entries.len(),
{
    if entries.len() == 0 {
        Seq::<char>::empty()
    } else {
        spec_encode_entry(entries[0]) + spec_encode_entries(entries.drop_first())
    }
}

/// A serialized playlist: the header line, then every entry.
pub open spec fn spec_encode_playlist(entries: Seq<EntryView>) -> Seq<char> {
    "#EXTM3U"@ + seq!['\n'] + spec_encode_entries(entries)
}

pub proof fn lemma_encode_attrs_push(s: Seq<(Seq<char>, Seq<char>)>, a: (Seq<char>, Seq<char>))
    ensures
        spec_encode_attrs(s.push(a)) == spec_encode_attrs(s) + attr_text(a),
    decreases s.len(),
{
    assert(s.push(a).len() == s.len() + 1);
    assert(spec_encode_attrs(s.push(a)) == attr_text(s.push(a)[0]) + spec_encode_attrs(
        s.push(a).drop_first(),
    ));
    if s.len() == 0 {
        assert(s.push(a)[0] == a);
        assert(s.push(a).drop_first() =~= Seq::<(Seq<char>, Seq<char>)>::empty());
        assert(spec_encode_attrs(Seq::<(Seq<char>, Seq<char>)>::empty()) == Seq::<char>::empty());
        assert(attr_text(a) + Seq::<char>::empty() =~= attr_text(a));
        assert(spec_encode_attrs(s) == Seq::<char>::empty());
        assert(Seq::<char>::empty() + attr_text(a) =~= attr_text(a));
    } else {
        assert(s.push(a)[0] == s[0]);
        assert(s.push(a).drop_first() =~= s.drop_first().push(a));
        lemma_encode_attrs_push(s.drop_first(), a);
        assert(spec_encode_attrs(s) == attr_text(s[0]) + spec_encode_attrs(s.drop_first()));
        assert(attr_text(s[0]) + (spec_encode_attrs(s.drop_first()) + attr_text(a)) =~= (attr_text(
            s[0],
        ) + spec_encode_attrs(s.drop_first())) + attr_text(a));
    }
}

pub proof fn lemma_encode_entries_push(s: Seq<EntryView>, e: EntryView)
    ensures
        spec_encode_entries(s.push(e)) == spec_encode_entries(s) + spec_encode_entry(e),
    decreases s.len(),
{
    assert(s.push(e).len() == s.len() + 1);
    assert(spec_encode_entries(s.push(e)) == spec_encode_entry(s.push(e)[0]) + spec_encode_entries(
        s.push(e).drop_first(),
    ));
    if s.len() == 0 {
        assert(s.push(e)[0] == e);
        assert(s.push(e).drop_first() =~= Seq::<EntryView>::empty());
        assert(spec_encode_entries(Seq::<EntryView>::empty()) == Seq::<char>::empty());
        assert(spec_encode_entry(e) + Seq::<char>::empty() =~= spec_encode_entry(e));
        assert(spec_encode_entries(s) == Seq::<char>::empty());
        assert(Seq::<char>::empty() + spec_encode_entry(e) =~= spec_encode_entry(e));
    } else {
        assert(s.push(e)[0] == s[0]);
        assert(s.push(e).drop_first() =~= s.drop_first().push(e));
        lemma_encode_entries_push(s.drop_first(), e);
        assert(spec_encode_entries(s) == spec_encode_entry(s[0]) + spec_encode_entries(
            s.drop_first(),
        ));
        assert(spec_encode_entry(s[0]) + (spec_encode_entries(s.drop_first()) + spec_encode_entry(
            e,
        )) =~= (spec_encode_entry(s[0]) + spec_encode_entries(s.drop_first())) + spec_encode_entry(
            e,
        ));
    }
}

// ------------------------------------------------------------------
// The encoder.
// ------------------------------------------------------------------

/// Appends `v` to `out` with every quote doubled.
fn append_escaped(out: &mut String, v: &str)
    ensures
        final (out)@ == old(out)@ + escape_value(v@),
{
    let ghost start = out@;
    let n = v.unicode_len();
    let mut i: usize = 0;
    proof {
        assert(v@.take(0) =~= Seq::<char>::empty());
        assert(escape_value(Seq::<char>::empty()) == Seq::<char>::empty());
        assert(start + Seq::<char>::empty() =~= start);
    }
    while i < n
        invariant
            n == v@.len(),
            0 <= i <= n,
            out@ == start + escape_value(v@.take(i as int)),
        decreases n - i,
    {
        let piece = v.substring_char(i, i + 1);
        let c = v.get_char(i);
        out.append(piece);
        if c == '"' {
            out.append(piece);
        }
        proof {
            assert(piece@ =~= seq![v@[i as int]]);
            lemma_escape_push(v@.take(i as int), v@[i as int]);
            assert(v@.take(i as int).push(v@[i as int]) =~= v@.take(i as int + 1));
            if c == '"' {
                assert(out@ =~= start + (escape_value(v@.take(i as int)) + seq!['"', '"']));
            } else {
                assert(out@ =~= start + (escape_value(v@.take(i as int)) + seq![v@[i as int]]));
            }
        }
        i += 1;
    }
    proof {
        assert(v@.take(n as int) =~= v@);
    }
}

/// Serializes one entry and appends its two lines to `out`.
fn encode_entry_into(out: &mut String, e: &Entry)
    ensures
        final (out)@ == old(out)@ + spec_encode_entry(e@),
{
    proof {
        reveal_strlit(",");
        reveal_strlit("=\"");
        reveal_strlit("\" ");
        reveal_strlit("\n");
    }
    let ghost start = out@;
    out.append("#EXTINF:");
    out.append(e.duration.as_str());
    out.append(",");
    proof {
        assert(out@ =~= start + "#EXTINF:"@ + e@.duration + seq![','] + Seq::<char>::empty());
        assert(Seq::<char>::empty() =~= spec_encode_attrs(e@.attributes.take(0)));
    }
    let n = e.attributes.len();
    let mut i: usize = 0;
    while i < n
        invariant
            n == e.attributes.len(),
            0 <= i <= n,
            out@ == start + "#EXTINF:"@ + e@.duration + seq![','] + spec_encode_attrs(
                e@.attributes.take(i as int),
            ),
        decreases n - i,
    {
        let ghost sofar = e@.attributes.take(i as int);
        out.append(e.attributes[i].0.as_str());
        out.append("=\"");
        append_escaped(out, e.attributes[i].1.as_str());
        out.append("\" ");
        proof {
            reveal_strlit("=\"");
            reveal_strlit("\" ");
            lemma_encode_attrs_push(sofar, e@.attributes[i as int]);
            assert(sofar.push(e@.attributes[i as int]) =~= e@.attributes.take(i as int + 1));
            assert(e@.attributes[i as int] == (e.attributes@[i as int].0@,
            e.attributes@[i as int].1@));
            assert(out@ =~= start + "#EXTINF:"@ + e@.duration + seq![','] + (spec_encode_attrs(
                sofar,
            ) + attr_text(e@.attributes[i as int])));
        }
        i += 1;
    }
    proof {
        assert(e@.attributes.take(n as int) =~= e@.attributes);
    }
    out.append(e.display_name.as_str());
    out.append("\n");
    match &e.target {
        Target::Url(u) => out.append(u.as_str()),
        Target::Path(p) => out.append(p.as_str()),
    }
    out.append("\n");
    proof {
        assert(spec_encode_extinf(head_of(e@)) =~= "#EXTINF:"@ + e@.duration + seq![',']
            + spec_encode_attrs(e@.attributes) + e@.display_name);
        assert(out@ =~= start + (spec_encode_extinf(head_of(e@)) + seq!['\n'] + target_text(
            e@.target,
        ) + seq!['\n']));
    }
}

/// Serializes a playlist: the header line, then each entry in order.
pub fn encode_playlist(entries: &Vec<Entry>) -> (r: String)
    ensures
        r@ == spec_encode_playlist(views_of(entries@)),
{
    proof {
        reveal_strlit("\n");
    }
    let mut out = String::from_str("#EXTM3U");
    out.append("\n");
    proof {
        assert(views_of(entries@).take(0) =~= Seq::<EntryView>::empty());
        assert(out@ =~= "#EXTM3U"@ + seq!['\n'] + spec_encode_entries(views_of(entries@).take(0)));
    }
    let n = entries.len();
    let mut i: usize = 0;
    while i < n
        invariant
            n == entries.len(),
            0 <= i <= n,
            out@ == "#EXTM3U"@ + seq!['\n'] + spec_encode_entries(views_of(entries@).take(i as int)),
        decreases n - i,
    {
        let ghost sofar = views_of(entries@).take(i as int);
        encode_entry_into(&mut out, &entries[i]);
        proof {
            lemma_encode_entries_push(sofar, entries@[i as int]@);
            assert(sofar.push(entries@[i as int]@) =~= views_of(entries@).take(i as int + 1));
            assert(out@ =~= "#EXTM3U"@ + seq!['\n'] + (spec_encode_entries(sofar)
                + spec_encode_entry(entries@[i as int]@)));
        }
        i += 1;
    }
    proof {
        assert(views_of(entries@).take(n as int) =~= views_of(entries@));
    }
    out
}

// ------------------------------------------------------------------
// The round-trip law: decoding what the encoder wrote gives back the
// same entries, so re-encoding them reproduces the bytes.
// ------------------------------------------------------------------

/// An attribute key the codec round-trips: nonempty, and free of the
/// delimiters `=`, `"`, line breaks and blanks.
pub open spec fn wf_attr_key(k: Seq<char>) -> bool {
    k.len() > 0 && forall|i: int|
        0 <= i < k.len() ==> #[trigger] k[i] != '=' && k[i] != '"' && k[i] != '\n'
            && !is_space_char(k[i])
}

/// An attribute value the codec round-trips: free of line breaks.
/// Quotes are fine: the escaping handles them.
pub open spec fn wf_attr_value(v: Seq<char>) -> bool {
    forall|i: int| 0 <= i < v.len() ==> #[trigger] v[i] != '\n'
}

/// A display name the codec round-trips: free of quotes and line
/// breaks, with no blank at either end (the decoder trims them off).
pub open spec fn wf_display_name(nm: Seq<char>) -> bool {
    &&& forall|i: int| 0 <= i < nm.len() ==> #[trigger] nm[i] != '"' && nm[i] != '\n'
    &&& nm.len() > 0 ==> !is_space_char(nm[0]) && !is_space_char(nm.last())
}

/// A target line the codec round-trips: not all blanks, not shaped
/// like a comment, and free of line breaks. The decoder hands the
/// line back verbatim.
pub open spec fn wf_target_text(t: Seq<char>) -> bool {
    &&& !is_blank_line(t)
    &&& t[0] != '#'
    &&& forall|i: int| 0 <= i < t.len() ==> #[trigger] t[i] != '\n'
}

/// The canonical shape of an entry, the one the encoder itself
/// writes: the round-trip law below holds of exactly these. A decoded
/// entry may fall outside it (a key with a blank in it, a name with a
/// quote); what the decoder returns for such lines is still fixed by
/// `spec_decode`, only the byte-identity of re-encoding is not owed.
pub open spec fn wf_entry(e: EntryView) -> bool {
    &&& is_duration_text(e.duration)
    &&& forall|i: int|
        0 <= i < e.attributes.len() ==> wf_attr_key((#[trigger] e.attributes[i]).0)
            && wf_attr_value(e.attributes[i].1)
    &&& wf_display_name(e.display_name)
    &&& match e.target {
        TargetView::Url(u) => wf_target_text(u) && is_url_text(u),
        TargetView::Path(p) => wf_target_text(p) && !is_url_text(p),
    }
}

/// Every character of a duration text is a sign, a digit or the
/// decimal point.
/// A duration is made of digits, dots, signs and the exponent marks.
proof fn lemma_duration_chars(d: Seq<char>)
    requires
        is_duration_text(d),
    ensures
        d.len() > 0,
        forall|i: int|
            0 <= i < d.len() ==> is_digit_char(#[trigger] d[i]) || d[i] == '.' || d[i] == '+'
                || d[i] == '-' || d[i] == 'e' || d[i] == 'E',
{
    let signed = d.len() > 0 && (d[0] == '+' || d[0] == '-');
    let body = if signed {
        d.skip(1)
    } else {
        d
    };
    if !signed {
        assert(d.skip(0) =~= d);
    }
    assert(is_unsigned_duration(body));
    assert forall|i: int|
        0 <= i < body.len() implies is_digit_char(#[trigger] body[i]) || body[i] == '.' || body[i]
        == '+' || body[i] == '-' || body[i] == 'e' || body[i] == 'E' by {
        if is_mantissa_text(body) {
            lemma_mantissa_chars(body);
        } else {
            let k = choose|k: int|
                0 <= k < body.len() && ((#[trigger] body[k]) == 'e' || body[k] == 'E')
                    && is_mantissa_text(body.take(k)) && is_exponent_text(body.skip(k + 1));
            lemma_mantissa_chars(body.take(k));
            if i < k {
                assert(body.take(k)[i] == body[i]);
            } else if i > k {
                let ex = body.skip(k + 1);
                let ex_signed = ex.len() > 0 && (ex[0] == '+' || ex[0] == '-');
                let digits = if ex_signed {
                    ex.skip(1)
                } else {
                    ex
                };
                if !ex_signed {
                    assert(ex.skip(0) =~= ex);
                }
                assert(ex[i - k - 1] == body[i]);
                if ex_signed {
                    if i - k - 1 >= 1 {
                        assert(digits[i - k - 2] == ex[i - k - 1]);
                        assert(is_digit_char(digits[i - k - 2]));
                    }
                    // the sign position itself is a `+` or `-`
                } else {
                    assert(digits[i - k - 1] == ex[i - k - 1]);
                    assert(is_digit_char(digits[i - k - 1]));
                }
            }
        }
    }
    assert(body.len() > 0) by {
        if is_mantissa_text(body) {
            lemma_mantissa_chars(body);
        } else {
            let k = choose|k: int|
                0 <= k < body.len() && ((#[trigger] body[k]) == 'e' || body[k] == 'E')
                    && is_mantissa_text(body.take(k)) && is_exponent_text(body.skip(k + 1));
        }
    }
    assert forall|i: int|
        0 <= i < d.len() implies is_digit_char(#[trigger] d[i]) || d[i] == '.' || d[i] == '+'
        || d[i] == '-' || d[i] == 'e' || d[i] == 'E' by {
        if signed && i >= 1 {
            assert(body[i - 1] == d[i]);
        } else if !signed {
            assert(body[i] == d[i]);
        }
    }
}

/// An escaped value holds only the value's characters and quotes, so
/// a break-free value escapes to a break-free text.
proof fn lemma_escape_chars(v: Seq<char>)
    requires
        forall|i: int| 0 <= i < v.len() ==> #[trigger] v[i] != '\n',
    ensures
        forall|i: int| 0 <= i < escape_value(v).len() ==> #[trigger] escape_value(v)[i] != '\n',
    decreases v.len(),
{
    if v.len() > 0 {
        assert(forall|i: int|
            0 <= i < v.drop_first().len() ==> #[trigger] v.drop_first()[i] != '\n');
        lemma_escape_chars(v.drop_first());
        let head = if v[0] == '"' {
            seq!['"', '"']
        } else {
            seq![v[0]]
        };
        let e = escape_value(v);
        assert(e == head + escape_value(v.drop_first()));
        assert forall|i: int| 0 <= i < e.len() implies #[trigger] e[i] != '\n' by {
            if i < head.len() {
                assert(e[i] == head[i]);
            } else {
                assert(e[i] == escape_value(v.drop_first())[i - head.len()]);
            }
        }
    }
}

/// Scanning an escaped value followed by its closing quote recovers
/// the value and leaves what follows, provided what follows does not
/// itself open with a quote.
proof fn lemma_scan_escape(v: Seq<char>, rest: Seq<char>)
    requires
        rest.len() > 0 ==> rest[0] != '"',
    ensures
        scan_value(escape_value(v) + seq!['"'] + rest) == Some((v, rest)),
    decreases v.len(),
{
    let s = escape_value(v) + seq!['"'] + rest;
    if v.len() == 0 {
        assert(s =~= seq!['"'] + rest);
        assert(s[0] == '"');
        if s.len() >= 2 {
            assert(s[1] == rest[0]);
        }
        assert(s.skip(1) =~= rest);
    } else if v[0] == '"' {
        assert(s =~= seq!['"', '"'] + (escape_value(v.drop_first()) + seq!['"'] + rest));
        assert(s[0] == '"' && s[1] == '"');
        assert(s.skip(2) =~= escape_value(v.drop_first()) + seq!['"'] + rest);
        lemma_scan_escape(v.drop_first(), rest);
        assert(seq!['"'] + v.drop_first() =~= v);
    } else {
        assert(s =~= seq![v[0]] + (escape_value(v.drop_first()) + seq!['"'] + rest));
        assert(s[0] == v[0]);
        assert(s.skip(1) =~= escape_value(v.drop_first()) + seq!['"'] + rest);
        lemma_scan_escape(v.drop_first(), rest);
        assert(seq![v[0]] + v.drop_first() =~= v);
    }
}

/// What the serialized attributes look like: no line break anywhere,
/// and when there are any, they open with the first key's first
/// character.
proof fn lemma_encode_attrs_chars(attrs: Seq<(Seq<char>, Seq<char>)>)
    requires
        forall|i: int|
            0 <= i < attrs.len() ==> wf_attr_key((#[trigger] attrs[i]).0) && wf_attr_value(
                attrs[i].1,
            ),
    ensures
        forall|i: int| 0 <= i < spec_encode_attrs(attrs).len() ==> #[trigger] spec_encode_attrs(
            attrs,
        )[i] != '\n',
        attrs.len() > 0 ==> spec_encode_attrs(attrs).len() > 0 && spec_encode_attrs(attrs)[0]
            == attrs[0].0[0],
    decreases attrs.len(),
{
    if attrs.len() > 0 {
        lemma_encode_attrs_chars(attrs.drop_first());
        let a = attrs[0];
        let e = spec_encode_attrs(attrs);
        let head = attr_text(a);
        assert(e == head + spec_encode_attrs(attrs.drop_first()));
        assert(wf_attr_key(a.0) && wf_attr_value(a.1));
        lemma_escape_chars(a.1);
        let ev = escape_value(a.1);
        assert forall|i: int| 0 <= i < e.len() implies #[trigger] e[i] != '\n' by {
            if i < head.len() {
                assert(e[i] == head[i]);
                if i < a.0.len() {
                    assert(head[i] == a.0[i]);
                } else if i < a.0.len() + 2 {
                    assert(head[i] == seq!['=', '"'][i - a.0.len()]);
                } else if i < a.0.len() + 2 + ev.len() {
                    assert(head[i] == ev[i - a.0.len() - 2]);
                } else {
                    assert(head[i] == seq!['"', ' '][i - a.0.len() - 2 - ev.len()]);
                }
            } else {
                assert(e[i] == spec_encode_attrs(attrs.drop_first())[i - head.len()]);
            }
        }
        assert(e[0] == head[0]);
        assert(head[0] == a.0[0]);
    }
}

/// No character of a serialized `#EXTINF` line is a line break.
proof fn lemma_encode_extinf_chars(h: ExtinfView)
    requires
        is_duration_text(h.duration),
        forall|i: int|
            0 <= i < h.attributes.len() ==> wf_attr_key((#[trigger] h.attributes[i]).0)
                && wf_attr_value(h.attributes[i].1),
        wf_display_name(h.display_name),
    ensures
        forall|i: int| 0 <= i < spec_encode_extinf(h).len() ==> #[trigger] spec_encode_extinf(
            h,
        )[i] != '\n',
        spec_encode_extinf(h).len() >= 8,
        spec_encode_extinf(h)[0] == '#',
{
    reveal_strlit("#EXTINF:");
    lemma_duration_chars(h.duration);
    lemma_encode_attrs_chars(h.attributes);
    let p = "#EXTINF:"@;
    let e = spec_encode_extinf(h);
    let ea = spec_encode_attrs(h.attributes);
    assert(p.len() == 8);
    assert forall|i: int| 0 <= i < e.len() implies #[trigger] e[i] != '\n' by {
        if i < 8 {
            assert(e[i] == p[i]);
        } else if i < 8 + h.duration.len() {
            assert(e[i] == h.duration[i - 8]);
        } else if i == 8 + h.duration.len() {
            assert(e[i] == seq![','][0]);
        } else if i < 8 + h.duration.len() + 1 + ea.len() {
            assert(e[i] == ea[i - 8 - h.duration.len() - 1]);
        } else {
            assert(e[i] == h.display_name[i - 8 - h.duration.len() - 1 - ea.len()]);
        }
    }
    assert(e[0] == p[0]);
}

/// Splitting a text that opens with a break-free line takes that line
/// off the front.
proof fn lemma_split_lines_prepend(a: Seq<char>, b: Seq<char>)
    requires
        forall|i: int| 0 <= i < a.len() ==> #[trigger] a[i] != '\n',
    ensures
        spec_split_lines(a + seq!['\n'] + b) == seq![a] + spec_split_lines(b),
{
    let s = a + seq!['\n'] + b;
    assert(s =~= a + (seq!['\n'] + b));
    lemma_find_first_append(a, seq!['\n'] + b, '\n', '\n');
    assert((seq!['\n'] + b)[0] == '\n');
    assert(find_first(seq!['\n'] + b, '\n', '\n') == Some(0int));
    assert(find_char(s, '\n') == Some(a.len() as int));
    assert(s.len() > 0);
    assert(s.take(a.len() as int) =~= a);
    assert(s.skip(a.len() as int + 1) =~= b);
}

/// Parsing what the attribute encoder wrote, with any quote-free text
/// after it, recovers the attributes and leaves exactly that text.
#[verifier::rlimit(100)]
#[verifier::spinoff_prover]
proof fn lemma_parse_attrs_round_trip(attrs: Seq<(Seq<char>, Seq<char>)>, name: Seq<char>)
    requires
        forall|i: int|
            0 <= i < attrs.len() ==> wf_attr_key((#[trigger] attrs[i]).0) && wf_attr_value(
                attrs[i].1,
            ),
        forall|i: int| 0 <= i < name.len() ==> #[trigger] name[i] != '"',
        name.len() > 0 ==> name[0] != ' ',
    ensures
        spec_parse_attrs(spec_encode_attrs(attrs) + name) == (attrs, name),
    decreases attrs.len(),
{
    let s = spec_encode_attrs(attrs) + name;
    if attrs.len() == 0 {
        assert(s =~= name);
        lemma_find_first(name, '=', '"');
        match find_first(name, '=', '"') {
            Some(p) => {
                assert(name[p] != '"');
                assert(name[p] == '=');
                if p + 1 < name.len() {
                    assert(name[p + 1] != '"');
                }
                assert(spec_try_attr(name) is None);
            },
            None => {},
        }
        assert(spec_parse_attrs(s).0 =~= attrs);
    } else {
        let a = attrs[0];
        let key = a.0;
        let val = a.1;
        let erest = spec_encode_attrs(attrs.drop_first());
        let eval = escape_value(val);
        let tail1 = seq!['=', '"'] + eval + seq!['"', ' '] + erest + name;
        assert(s =~= key + tail1);
        // the key scan stops at the `=` that follows it
        lemma_find_first_append(key, tail1, '=', '"');
        assert(tail1[0] == '=');
        assert(find_first(tail1, '=', '"') == Some(0int));
        let i = key.len() as int;
        assert(find_first(s, '=', '"') == Some(i));
        assert(s[i] == tail1[0]);
        assert(s[i + 1] == tail1[1]);
        assert(tail1[1] == '"');
        assert(i + 1 < s.len());
        assert(s.take(i) =~= key);
        // the escaped value scans back to the value itself
        let rest1 = s.skip(i + 2);
        let after = seq![' '] + (erest + name);
        assert(rest1 =~= eval + seq!['"'] + after);
        lemma_scan_escape(val, after);
        assert(scan_value(rest1) == Some((val, after)));
        assert(spec_try_attr(s) == Some((key, val, after)));
        // one blank separates the attribute from what follows
        assert(after[0] == ' ');
        assert(after.drop_first() =~= erest + name);
        assert(skip_spaces(after) == skip_spaces(erest + name));
        lemma_encode_attrs_chars(attrs.drop_first());
        if attrs.drop_first().len() > 0 {
            assert((erest + name)[0] == erest[0]);
            assert(!is_space_char(attrs.drop_first()[0].0[0]));
            assert(skip_spaces(erest + name) == erest + name);
        } else {
            assert(erest + name =~= name);
            assert(skip_spaces(name) == name);
        }
        lemma_parse_attrs_round_trip(attrs.drop_first(), name);
        assert(spec_parse_attrs(s).0 == seq![(key, val)] + attrs.drop_first());
        assert(seq![(key, val)] + attrs.drop_first() =~= attrs);
        assert(spec_parse_attrs(s).1 == name);
    }
}

/// Parsing what the `#EXTINF` encoder wrote recovers the head.
proof fn lemma_parse_extinf_round_trip(h: ExtinfView)
    requires
        is_duration_text(h.duration),
        forall|i: int|
            0 <= i < h.attributes.len() ==> wf_attr_key((#[trigger] h.attributes[i]).0)
                && wf_attr_value(h.attributes[i].1),
        wf_display_name(h.display_name),
    ensures
        is_extinf_line(spec_encode_extinf(h)),
        spec_parse_extinf(spec_encode_extinf(h)) == Ok::<ExtinfView, DecodeError>(h),
{
    reveal_strlit("#EXTINF:");
    let line = spec_encode_extinf(h);
    let p = "#EXTINF:"@;
    let dur = h.duration;
    let ea = spec_encode_attrs(h.attributes);
    let name = h.display_name;
    assert(p.len() == 8);
    assert(line.take(8) =~= p);
    assert(is_extinf_line(line));
    let rest = line.skip(8);
    assert(rest =~= dur + (seq![','] + (ea + name)));
    lemma_duration_chars(dur);
    assert forall|t: int| 0 <= t < dur.len() implies #[trigger] dur[t] != ',' && dur[t] != '"' by {
        assert(',' as u32 == 44);
        assert('"' as u32 == 34);
        assert('.' as u32 == 46);
        assert('+' as u32 == 43);
        assert('-' as u32 == 45);
        assert('e' as u32 == 101);
        assert('E' as u32 == 69);
    }
    lemma_find_first_append(dur, seq![','] + (ea + name), ',', ',');
    assert((seq![','] + (ea + name))[0] == ',');
    assert(find_first(seq![','] + (ea + name), ',', ',') == Some(0int));
    let i = dur.len() as int;
    assert(find_char(rest, ',') == Some(i));
    assert(rest.take(i) =~= dur);
    assert(dur.len() > 0) by {
        lemma_duration_chars(dur);
    }
    let tail0 = rest.skip(i + 1);
    assert(tail0 =~= ea + name);
    lemma_encode_attrs_chars(h.attributes);
    if h.attributes.len() > 0 {
        assert(tail0[0] == ea[0]);
        assert(!is_space_char(h.attributes[0].0[0]));
        assert(skip_spaces(tail0) == tail0);
    } else {
        assert(tail0 =~= name);
        assert(name.len() > 0 ==> name[0] != ' ');
        assert(skip_spaces(tail0) == tail0);
    }
    assert(tail0 =~= ea + name);
    lemma_parse_attrs_round_trip(h.attributes, name);
    assert(spec_parse_attrs(skip_spaces(tail0)) == (h.attributes, name));
    crate::text::lemma_trim_noop(name);
    assert(spec_parse_extinf(line)->Ok_0 =~= h);
}

/// The entries' encoding decodes line pair by line pair back to the
/// same entries.
#[verifier::rlimit(100)]
#[verifier::spinoff_prover]
proof fn lemma_decode_encoded_entries(entries: Seq<EntryView>)
    requires
        forall|i: int| 0 <= i < entries.len() ==> wf_entry(#[trigger] entries[i]),
    ensures
        spec_decode_lines(spec_split_lines(spec_encode_entries(entries)), DecodeState::Scanning)
            == entries.map_values(|e: EntryView| Ok::<EntryView, DecodeError>(e)),
    decreases entries.len(),
{
    let ok_of = |e: EntryView| Ok::<EntryView, DecodeError>(e);
    if entries.len() == 0 {
        assert(spec_split_lines(spec_encode_entries(entries)) =~= Seq::<Seq<char>>::empty());
        assert(entries.map_values(ok_of) =~= Seq::<Result<EntryView, DecodeError>>::empty());
    } else {
        let e0 = entries[0];
        let h = head_of(e0);
        let ext = spec_encode_extinf(h);
        let t = target_text(e0.target);
        let text_rest = spec_encode_entries(entries.drop_first());
        let text = spec_encode_entries(entries);
        assert(wf_entry(e0));
        assert(wf_target_text(t));
        lemma_encode_extinf_chars(h);
        assert(text =~= ext + seq!['\n'] + (t + seq!['\n'] + text_rest));
        lemma_split_lines_prepend(ext, t + seq!['\n'] + text_rest);
        lemma_split_lines_prepend(t, text_rest);
        let lines = spec_split_lines(text);
        let lines_rest = spec_split_lines(text_rest);
        assert(lines == seq![ext] + (seq![t] + lines_rest));
        // the #EXTINF line opens a record
        assert(lines[0] == ext);
        assert(lines.drop_first() =~= seq![t] + lines_rest);
        assert(!is_blank_line(ext)) by {
            assert(ext[0] == '#');
            assert(!is_space_char('#')) by {
                assert('#' as u32 == 35);
            }
        }
        lemma_parse_extinf_round_trip(h);
        let lines2 = seq![t] + lines_rest;
        assert(spec_decode_lines(lines, DecodeState::Scanning) == spec_decode_lines(
            lines2,
            DecodeState::AwaitingTarget(h),
        ));
        // the target line closes it
        assert(lines2[0] == t);
        assert(lines2.drop_first() =~= lines_rest);
        assert(!is_blank_line(t));
        assert(t.len() > 0) by {
            let j = choose|j: int| 0 <= j < t.len() && !is_space_char(#[trigger] t[j]);
        }
        assert(!is_extinf_line(t)) by {
            reveal_strlit("#EXTINF:");
            if is_extinf_line(t) {
                assert(t.take(8)[0] == "#EXTINF:"@[0]);
                assert(t[0] == '#');
            }
        }
        assert(t[0] != '#');
        assert(entry_of(h, t) =~= e0);
        assert(spec_decode_lines(lines2, DecodeState::AwaitingTarget(h)) == seq![ok_of(e0)]
            + spec_decode_lines(lines_rest, DecodeState::Scanning));
        lemma_decode_encoded_entries(entries.drop_first());
        assert(seq![ok_of(e0)] + entries.drop_first().map_values(ok_of) =~= entries.map_values(
            ok_of,
        ));
    }
}

/// Every record the decoder can yield from `lines` is either an
/// error or an entry with a nonempty target.
proof fn lemma_decode_lines_targets_nonempty(lines: Seq<Seq<char>>, st: DecodeState)
    ensures
        forall|i: int|
            0 <= i < spec_decode_lines(lines, st).len() ==> ((#[trigger] spec_decode_lines(
                lines,
                st,
            )[i]) matches Ok(e) ==> target_text(e.target).len() > 0),
    decreases lines.len(),
{
    if lines.len() > 0 {
        let line = lines[0];
        let rest = lines.drop_first();
        let out = spec_decode_lines(lines, st);
        lemma_decode_lines_targets_nonempty(rest, DecodeState::Scanning);
        lemma_decode_lines_targets_nonempty(rest, DecodeState::Resyncing);
        if is_extinf_line(line) {
            if let Ok(h2) = spec_parse_extinf(line) {
                lemma_decode_lines_targets_nonempty(rest, DecodeState::AwaitingTarget(h2));
            }
        }
        match st {
            DecodeState::AwaitingTarget(h) => {
                lemma_decode_lines_targets_nonempty(rest, DecodeState::AwaitingTarget(h));
                if !is_blank_line(line) && !is_extinf_line(line) && line[0] != '#' {
                    let j = choose|j: int| 0 <= j < line.len() && !is_space_char(#[trigger] line[j]);
                    assert(line.len() > 0);
                    assert(out == seq![Ok::<EntryView, DecodeError>(entry_of(h, line))]
                        + spec_decode_lines(rest, DecodeState::Scanning));
                    assert(target_text(entry_of(h, line).target) == line);
                }
            },
            _ => {},
        }
    }
}

/// The target invariant: every entry decoded from any text at all
/// points at a nonempty target.
pub proof fn lemma_decoded_targets_nonempty(text: Seq<char>)
    ensures
        forall|i: int|
            0 <= i < spec_decode(text).len() ==> ((#[trigger] spec_decode(text)[i]) matches Ok(e)
                ==> target_text(e.target).len() > 0),
{
    lemma_decode_lines_targets_nonempty(spec_split_lines(text), DecodeState::Scanning);
}

/// The round-trip law: decoding a serialized playlist of well-formed
/// entries yields exactly those entries, each wrapped in `Ok`, so
/// re-encoding reproduces the text byte for byte.
pub proof fn lemma_round_trip(entries: Seq<EntryView>)
    requires
        forall|i: int| 0 <= i < entries.len() ==> wf_entry(#[trigger] entries[i]),
    ensures
        spec_decode(spec_encode_playlist(entries)) == entries.map_values(
            |e: EntryView| Ok::<EntryView, DecodeError>(e),
        ),
{
    reveal_strlit("#EXTM3U");
    let hdr = "#EXTM3U"@;
    assert(hdr.len() == 7);
    let body = spec_encode_entries(entries);
    let text = spec_encode_playlist(entries);
    assert(text =~= hdr + seq!['\n'] + body);
    assert forall|i: int| 0 <= i < hdr.len() implies #[trigger] hdr[i] != '\n' by {}
    lemma_split_lines_prepend(hdr, body);
    let lines = spec_split_lines(text);
    assert(lines == seq![hdr] + spec_split_lines(body));
    assert(lines[0] == hdr);
    assert(lines.drop_first() =~= spec_split_lines(body));
    assert(!is_blank_line(hdr)) by {
        assert(hdr[0] == '#');
        assert(!is_space_char('#')) by {
            assert('#' as u32 == 35);
        }
    }
    assert(!is_extinf_line(hdr));
    lemma_decode_encoded_entries(entries);
    assert(spec_decode(text) == spec_decode_lines(
        spec_split_lines(body),
        DecodeState::Scanning,
    ));
}

} // verus!
