//! Verified text utilities: white space, trimming, line splitting and
//! integer parsing, each stated against a small spec function.

use vstd::prelude::*;
use vstd::string::*;

verus! {

/// The Unicode white-space characters, the set Rust's `char::is_whitespace`
/// recognizes.
pub open spec fn is_space(c: char) -> bool {
    c == ' ' || c == '\t' || c == '\n' || c == '\u{b}' || c == '\u{c}' || c == '\r'
        || c == '\u{85}' || c == '\u{a0}' || c == '\u{1680}'
        || (0x2000 <= c as u32 && c as u32 <= 0x200a)
        || c == '\u{2028}' || c == '\u{2029}' || c == '\u{202f}' || c == '\u{205f}'
        || c == '\u{3000}'
}

/// Decides `is_space`.
pub fn space_char(c: char) -> (r: bool)
    ensures
        r == is_space(c),
{
    c == ' ' || c == '\t' || c == '\n' || c == '\u{b}' || c == '\u{c}' || c == '\r'
        || c == '\u{85}' || c == '\u{a0}' || c == '\u{1680}'
        || (0x2000 <= c as u32 && c as u32 <= 0x200a)
        || c == '\u{2028}' || c == '\u{2029}' || c == '\u{202f}' || c == '\u{205f}'
        || c == '\u{3000}'
}

/// `s` with its leading white space removed.
pub open spec fn trimmed_start(s: Seq<char>) -> Seq<char>
    decreases s.len(),
{
    if s.len() > 0 && is_space(s[0]) {
        trimmed_start(s.drop_first())
    } else {
        s
    }
}

/// `s` with its trailing white space removed.
pub open spec fn trimmed_end(s: Seq<char>) -> Seq<char>
    decreases s.len(),
{
    if s.len() > 0 && is_space(s.last()) {
        trimmed_end(s.drop_last())
    } else {
        s
    }
}

/// `s` with white space removed at both ends.
pub open spec fn trimmed(s: Seq<char>) -> Seq<char> {
    trimmed_end(trimmed_start(s))
}

/// If the first `i` characters of `s` are white space and the character at
/// `i` (if any) is not, then trimming the start of `s` drops exactly those
/// `i` characters.
proof fn lemma_trimmed_start_at(s: Seq<char>, i: int)
    requires
        0 <= i <= s.len(),
        forall|j: int| 0 <= j < i ==> is_space(#[trigger] s[j]),
        i < s.len() ==> !is_space(s[i]),
    ensures
        trimmed_start(s) == s.subrange(i, s.len() as int),
    decreases i,
{
    if i == 0 {
        assert(trimmed_start(s) =~= s.subrange(0, s.len() as int));
    } else {
        assert(is_space(s[0]));
        let t = s.drop_first();
        assert(forall|j: int| 0 <= j < i - 1 ==> is_space(#[trigger] t[j]));
        lemma_trimmed_start_at(t, i - 1);
        assert(t.subrange(i - 1, t.len() as int) =~= s.subrange(i, s.len() as int));
    }
}

/// Mirror of `lemma_trimmed_start_at` for the end of the sequence.
proof fn lemma_trimmed_end_at(s: Seq<char>, i: int)
    requires
        0 <= i <= s.len(),
        forall|j: int| i <= j < s.len() ==> is_space(#[trigger] s[j]),
        i > 0 ==> !is_space(s[i - 1]),
    ensures
        trimmed_end(s) == s.subrange(0, i),
    decreases s.len() - i,
{
    if i == s.len() {
        assert(trimmed_end(s) =~= s.subrange(0, i));
    } else {
        assert(is_space(s.last()));
        let t = s.drop_last();
        lemma_trimmed_end_at(t, i);
        assert(t.subrange(0, i) =~= s.subrange(0, i));
    }
}

/// `s` with its leading white space removed.
pub fn trim_start(s: &str) -> (r: &str)
    ensures
        r@ == trimmed_start(s@),
{
    let n = s.unicode_len();
    let mut i: usize = 0;
    while i < n && space_char(s.get_char(i))
        invariant
            0 <= i <= n,
            n == s@.len(),
            forall|j: int| 0 <= j < i ==> is_space(#[trigger] s@[j]),
        decreases n - i,
    {
        i = i + 1;
    }
    proof {
        lemma_trimmed_start_at(s@, i as int);
    }
    s.substring_char(i, n)
}

/// `s` with its trailing white space removed.
pub fn trim_end(s: &str) -> (r: &str)
    ensures
        r@ == trimmed_end(s@),
{
    let n = s.unicode_len();
    let mut i: usize = n;
    while i > 0 && space_char(s.get_char(i - 1))
        invariant
            0 <= i <= n,
            n == s@.len(),
            forall|j: int| i <= j < n ==> is_space(#[trigger] s@[j]),
        decreases i,
    {
        i = i - 1;
    }
    proof {
        lemma_trimmed_end_at(s@, i as int);
    }
    s.substring_char(0, i)
}

/// `s` with white space removed at both ends.
pub fn trim(s: &str) -> (r: &str)
    ensures
        r@ == trimmed(s@),
{
    trim_end(trim_start(s))
}

/// The index of the first occurrence of `c` in `s`, or `s.len()` if
/// there is none.
pub open spec fn first_pos(s: Seq<char>, c: char) -> int
    decreases s.len(),
{
    if s.len() == 0 {
        0
    } else if s[0] == c {
        0
    } else {
        1 + first_pos(s.drop_first(), c)
    }
}

/// `first_pos` really is the index of the first occurrence.
pub proof fn lemma_first_pos_bounds(s: Seq<char>, c: char)
    ensures
        0 <= first_pos(s, c) <= s.len(),
        first_pos(s, c) < s.len() ==> s[first_pos(s, c)] == c,
        forall|j: int| 0 <= j < first_pos(s, c) ==> s[j] != c,
    decreases s.len(),
{
    if s.len() > 0 && s[0] != c {
        lemma_first_pos_bounds(s.drop_first(), c);
        assert forall|j: int| 0 <= j < first_pos(s, c) implies s[j] != c by {
            if j > 0 {
                assert(s.drop_first()[j - 1] != c);
            }
        }
    }
}

/// An index with no occurrence of `c` before it and an occurrence (or
/// the end) at it is `first_pos`.
pub proof fn lemma_first_pos_is(s: Seq<char>, c: char, k: int)
    requires
        0 <= k <= s.len(),
        forall|j: int| 0 <= j < k ==> s[j] != c,
        k < s.len() ==> s[k] == c,
    ensures
        first_pos(s, c) == k,
    decreases s.len(),
{
    if s.len() > 0 && s[0] != c {
        lemma_first_pos_is(s.drop_first(), c, k - 1);
    }
}

/// The lines of `s`, as splitting at each newline gives them: every
/// line keeps its terminating newline, and a last line without one is
/// kept as well.  Empty text has no lines.
pub open spec fn lines_of(s: Seq<char>) -> Seq<Seq<char>>
    decreases s.len(),
    via lines_of_dec
{
    if s.len() == 0 {
        Seq::empty()
    } else {
        let cut = if first_pos(s, '\n') < s.len() {
            first_pos(s, '\n') + 1
        } else {
            s.len() as int
        };
        seq![s.subrange(0, cut)] + lines_of(s.subrange(cut, s.len() as int))
    }
}

#[via_fn]
proof fn lines_of_dec(s: Seq<char>) {
    lemma_first_pos_bounds(s, '\n');
}

/// A text has at least as many characters as lines.
pub proof fn lemma_lines_of_count(s: Seq<char>)
    ensures
        lines_of(s).len() <= s.len(),
    decreases s.len(),
{
    if s.len() > 0 {
        lemma_first_pos_bounds(s, '\n');
        let cut = if first_pos(s, '\n') < s.len() {
            first_pos(s, '\n') + 1
        } else {
            s.len() as int
        };
        lemma_lines_of_count(s.subrange(cut, s.len() as int));
    }
}

/// Does `s` start with the character `c`?
pub open spec fn starts_with(s: Seq<char>, c: char) -> bool {
    s.len() > 0 && s[0] == c
}

/// Decides `starts_with`.
pub fn starts_with_char(s: &str, c: char) -> (r: bool)
    ensures
        r == starts_with(s@, c),
{
    s.unicode_len() > 0 && s.get_char(0) == c
}

/// Splits `s` into its lines, each keeping its terminating newline.
pub fn split_lines(s: &str) -> (r: Vec<String>)
    ensures
        r@.map_values(|l: String| l@) == lines_of(s@),
{
    let n = s.unicode_len();
    let mut r: Vec<String> = Vec::new();
    let mut pos: usize = 0;
    proof {
        assert(r@.map_values(|l: String| l@) =~= Seq::<Seq<char>>::empty());
        assert(s@.subrange(0, n as int) =~= s@);
        assert(Seq::<Seq<char>>::empty() + lines_of(s@) =~= lines_of(s@));
    }
    while pos < n
        invariant
            0 <= pos <= n,
            n == s@.len(),
            lines_of(s@) == r@.map_values(|l: String| l@) + lines_of(
                s@.subrange(pos as int, n as int),
            ),
        decreases n - pos,
    {
        let mut j: usize = pos;
        while j < n && s.get_char(j) != '\n'
            invariant
                pos <= j <= n,
                n == s@.len(),
                forall|t: int| pos <= t < j ==> s@[t] != '\n',
            decreases n - j,
        {
            j = j + 1;
        }
        let cut = if j < n {
            j + 1
        } else {
            n
        };
        let line = String::from_str(s.substring_char(pos, cut));
        proof {
            let rem = s@.subrange(pos as int, n as int);
            assert(forall|t: int| 0 <= t < j - pos ==> rem[t] != '\n');
            lemma_first_pos_is(rem, '\n', j - pos);
            assert(line@ =~= rem.subrange(0, cut - pos));
            assert(rem.subrange(cut - pos, rem.len() as int) =~= s@.subrange(
                cut as int,
                n as int,
            ));
            assert(r@.push(line).map_values(|l: String| l@) =~= r@.map_values(|l: String| l@)
                + seq![line@]);
            assert(seq![rem.subrange(0, cut - pos)] + lines_of(
                s@.subrange(cut as int, n as int),
            ) =~= lines_of(rem));
            assert(r@.push(line).map_values(|l: String| l@) + lines_of(
                s@.subrange(cut as int, n as int),
            ) =~= r@.map_values(|l: String| l@) + lines_of(rem));
        }
        r.push(line);
        pos = cut;
    }
    proof {
        assert(s@.subrange(pos as int, n as int).len() == 0);
        assert(r@.map_values(|l: String| l@) + lines_of(s@.subrange(pos as int, n as int)) =~= r@
            .map_values(|l: String| l@));
    }
    r
}

/// Character-by-character string equality.
pub fn str_eq(a: &str, b: &str) -> (r: bool)
    ensures
        r == (a@ == b@),
{
    let n = a.unicode_len();
    let m = b.unicode_len();
    if n != m {
        return false;
    }
    let mut i: usize = 0;
    while i < n
        invariant
            0 <= i <= n,
            n == a@.len(),
            n == b@.len(),
            forall|j: int| 0 <= j < i ==> a@[j] == b@[j],
        decreases n - i,
    {
        if a.get_char(i) != b.get_char(i) {
            return false;
        }
        i = i + 1;
    }
    proof {
        assert(a@ =~= b@);
    }
    true
}

/// A decimal digit.
pub open spec fn is_digit(c: char) -> bool {
    0x30 <= c as u32 && c as u32 <= 0x39
}

/// Decides `is_digit`.
pub fn digit_char(c: char) -> (r: bool)
    ensures
        r == is_digit(c),
{
    0x30 <= c as u32 && c as u32 <= 0x39
}

/// The numeric value of a sequence of decimal digits, most significant
/// first.
pub open spec fn digits_val(s: Seq<char>) -> int
    decreases s.len(),
{
    if s.len() == 0 {
        0
    } else {
        digits_val(s.drop_last()) * 10 + (s.last() as u32 - 0x30)
    }
}

/// Every character of `s` is a decimal digit.
pub open spec fn all_digits(s: Seq<char>) -> bool {
    forall|i: int| 0 <= i < s.len() ==> is_digit(#[trigger] s[i])
}

/// The digits of a signed decimal numeral: what follows the sign, if any.
pub open spec fn int_body(s: Seq<char>) -> Seq<char> {
    if s.len() > 0 && (s[0] == '+' || s[0] == '-') {
        s.drop_first()
    } else {
        s
    }
}

/// The numeral carries a minus sign.
pub open spec fn int_negative(s: Seq<char>) -> bool {
    s.len() > 0 && s[0] == '-'
}

/// `s` is a well-formed signed decimal numeral: an optional sign
/// followed by one or more digits and nothing else.
pub open spec fn valid_int_str(s: Seq<char>) -> bool {
    int_body(s).len() > 0 && all_digits(int_body(s))
}

/// The mathematical value of the numeral `s`.
pub open spec fn int_val(s: Seq<char>) -> int {
    if int_negative(s) {
        -digits_val(int_body(s))
    } else {
        digits_val(int_body(s))
    }
}

/// The value of a digit sequence is never negative.
proof fn lemma_digits_val_nonneg(s: Seq<char>)
    requires
        all_digits(s),
    ensures
        digits_val(s) >= 0,
    decreases s.len(),
{
    if s.len() > 0 {
        assert(all_digits(s.drop_last()));
        lemma_digits_val_nonneg(s.drop_last());
    }
}

/// Extending a digit sequence to the right never shrinks its value.
proof fn lemma_digits_val_prefix_le(s: Seq<char>, k: int)
    requires
        all_digits(s),
        0 <= k <= s.len(),
    ensures
        digits_val(s.subrange(0, k)) <= digits_val(s),
    decreases s.len() - k,
{
    if k == s.len() {
        assert(s.subrange(0, k) =~= s);
    } else {
        let t = s.subrange(0, k + 1);
        assert(t.drop_last() =~= s.subrange(0, k));
        assert(all_digits(s.subrange(0, k)));
        lemma_digits_val_nonneg(s.subrange(0, k));
        assert(digits_val(s.subrange(0, k)) <= digits_val(t));
        lemma_digits_val_prefix_le(s, k + 1);
    }
}

/// Parses `s` as a signed machine integer, exactly as the numeral
/// grammar above describes: an optional `+` or `-` sign, then one or
/// more decimal digits, and a value that fits the machine type.
pub fn parse_i32(s: &str) -> (r: Result<i32, crate::error::Error>)
    ensures
        r is Ok <==> valid_int_str(s@) && i32::MIN <= int_val(s@) <= i32::MAX,
        r matches Ok(v) ==> v as int == int_val(s@),
        r matches Err(e) ==> e == crate::error::Error::MalformedErrorCode,
{
    let n = s.unicode_len();
    let mut i: usize = 0;
    let mut neg = false;
    if n > 0 {
        let c0 = s.get_char(0);
        if c0 == '+' {
            i = 1;
        } else if c0 == '-' {
            neg = true;
            i = 1;
        }
    }
    if i >= n {
        // no digits at all
        return Err(crate::error::Error::MalformedErrorCode);
    }
    let ghost body = int_body(s@);
    proof {
        assert(body =~= s@.subrange(i as int, n as int));
    }
    let mut mag: u64 = 0;
    let mut j: usize = i;
    while j < n
        invariant
            i <= j <= n,
            i < n,
            n == s@.len(),
            body == s@.subrange(i as int, n as int),
            body == int_body(s@),
            mag <= 0x8000_0000,
            all_digits(s@.subrange(i as int, j as int)),
            mag == digits_val(s@.subrange(i as int, j as int)),
            valid_int_str(s@) <==> all_digits(body),
            neg == int_negative(s@),
        decreases n - j,
    {
        let c = s.get_char(j);
        if !digit_char(c) {
            proof {
                assert(body[j - i] == c);
            }
            return Err(crate::error::Error::MalformedErrorCode);
        }
        let d: u64 = (c as u32 - 0x30) as u64;
        let next: u64 = mag * 10 + d;
        proof {
            let p = s@.subrange(i as int, j + 1);
            assert(p.drop_last() =~= s@.subrange(i as int, j as int));
            assert(p.last() == c);
            assert(next == digits_val(p));
        }
        if next > 0x8000_0000 {
            // the magnitude already exceeds what the machine type can
            // hold, whatever digits follow
            proof {
                if all_digits(body) {
                    lemma_digits_val_prefix_le(body, j + 1 - i);
                    assert(body.subrange(0, j + 1 - i) =~= s@.subrange(i as int, j + 1));
                }
            }
            return Err(crate::error::Error::MalformedErrorCode);
        }
        mag = next;
        j = j + 1;
        proof {
            assert(s@.subrange(i as int, j as int) =~= s@.subrange(i as int, j - 1).push(c));
        }
    }
    proof {
        assert(s@.subrange(i as int, j as int) =~= body);
    }
    if neg {
        if mag == 0x8000_0000 {
            Ok(i32::MIN)
        } else {
            let v = mag as i32;
            Ok(-v)
        }
    } else {
        if mag > 0x7FFF_FFFF {
            return Err(crate::error::Error::MalformedErrorCode);
        }
        Ok(mag as i32)
    }
}

} // verus!
