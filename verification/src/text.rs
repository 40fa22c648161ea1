//! Bytes and text: UTF-8 decoding (strict and lossy), byte search, and decimal
//! numbers written and read as ASCII digits.
use vstd::prelude::*;
use vstd::string::StrSliceExecFns;
use vstd::utf8::*;

verus! {

/// The text that `String::from_utf8_lossy` makes of `bytes`.
pub uninterp spec fn lossy_utf8(bytes: Seq<u8>) -> Seq<char>;

/// Calls `String::from_utf8_lossy`. The result is named `lossy_utf8`; as the
/// standard library documents, on valid UTF-8 it is the decoded text itself.
#[verifier::external_body]
pub(crate) fn utf8_lossy(bytes: &[u8]) -> (s: String)
    ensures
        s@ == lossy_utf8(bytes@),
        valid_utf8(bytes@) ==> s@ == decode_utf8(bytes@),
{
    String::from_utf8_lossy(bytes).into_owned()
}

/// Calls `std::str::from_utf8`: it succeeds exactly on valid UTF-8, and then
/// gives the decoded text.
#[verifier::external_body]
pub(crate) fn utf8_decode(bytes: &[u8]) -> (r: Option<String>)
    ensures
        r is Some <==> valid_utf8(bytes@),
        r matches Some(s) ==> s@ == decode_utf8(bytes@),
{
    std::str::from_utf8(bytes).ok().map(|s| s.to_string())
}

/// The first index at or after `start` where `s` holds `b`.
pub open spec fn find_byte(s: Seq<u8>, b: u8, start: int) -> Option<int>
    decreases s.len() - start,
{
    if start < 0 || start >= s.len() {
        None
    } else if s[start] == b {
        Some(start)
    } else {
        find_byte(s, b, start + 1)
    }
}

/// What `find_byte` finds: the first occurrence, or none at all.
pub proof fn lemma_find_byte(s: Seq<u8>, b: u8, start: int)
    requires
        0 <= start,
    ensures
        match find_byte(s, b, start) {
            Some(k) => start <= k < s.len() && s[k] == b && forall|j: int|
                start <= j < k ==> s[j] != b,
            None => forall|j: int| start <= j < s.len() ==> s[j] != b,
        },
    decreases s.len() - start,
{
    if start < s.len() && s[start] != b {
        lemma_find_byte(s, b, start + 1);
    }
}

/// Searches `s` for `b` from `start` on.
pub fn find_byte_from(s: &[u8], b: u8, start: usize) -> (r: Option<usize>)
    ensures
        match r {
            Some(k) => find_byte(s@, b, start as int) == Some(k as int),
            None => find_byte(s@, b, start as int) is None,
        },
{
    let mut j = start;
    while j < s.len()
        invariant
            start <= j,
            find_byte(s@, b, start as int) == find_byte(s@, b, j as int),
        decreases s.len() - j,
    {
        if s[j] == b {
            return Some(j);
        }
        j = j + 1;
    }
    None
}

/// Copies `d[start..end]`.
pub fn copy_range(d: &[u8], start: usize, end: usize) -> (r: Vec<u8>)
    requires
        start <= end <= d@.len(),
    ensures
        r@ == d@.subrange(start as int, end as int),
{
    let mut r: Vec<u8> = Vec::new();
    let mut k = start;
    while k < end
        invariant
            start <= k <= end <= d@.len(),
            r@ == d@.subrange(start as int, k as int),
        decreases end - k,
    {
        r.push(d[k]);
        proof {
            assert(r@ =~= d@.subrange(start as int, k + 1));
        }
        k = k + 1;
    }
    r
}

/// Whether `c` is an ASCII digit.
pub open spec fn is_digit_char(c: char) -> bool {
    '0' <= c && c <= '9'
}

/// The value of a string of ASCII digits.
pub open spec fn digits_value(s: Seq<char>) -> int
    decreases s.len(),
{
    if s.len() == 0 {
        0
    } else {
        digits_value(s.drop_last()) * 10 + (s.last() as int - '0' as int)
    }
}

/// The digits of `s`: after a sign, if there is one.
pub open spec fn digits_part(s: Seq<char>) -> Seq<char> {
    if s.len() > 0 && (s[0] == '+' || s[0] == '-') {
        s.drop_first()
    } else {
        s
    }
}

/// The integer that `s` writes as an optional `+` or `-` followed by one or
/// more ASCII digits, and nothing else.
pub open spec fn signed_decimal_value(s: Seq<char>) -> Option<int> {
    let d = digits_part(s);
    if d.len() > 0 && (forall|i: int| 0 <= i < d.len() ==> is_digit_char(#[trigger] d[i])) {
        Some(
            if s[0] == '-' {
                -digits_value(d)
            } else {
                digits_value(d)
            },
        )
    } else {
        None
    }
}

/// The `i8` that `s` writes, where it writes one in range.
pub open spec fn i8_text_value(s: Seq<char>) -> Option<i8> {
    match signed_decimal_value(s) {
        Some(v) => if -128 <= v <= 127 {
            Some(v as i8)
        } else {
            None
        },
        None => None,
    }
}

/// Digits read as no more than digits that extend them.
proof fn lemma_digits_value_prefix(d: Seq<char>, k: int)
    requires
        0 <= k <= d.len(),
        forall|i: int| 0 <= i < d.len() ==> is_digit_char(#[trigger] d[i]),
    ensures
        0 <= digits_value(d.take(k)) <= digits_value(d),
    decreases d.len(),
{
    if k < d.len() {
        let r = d.drop_last();
        assert(r.take(k) =~= d.take(k));
        lemma_digits_value_prefix(r, k);
        lemma_digits_value_prefix(r, r.len() as int);
        assert(r.take(r.len() as int) =~= r);
        assert(is_digit_char(d[d.len() - 1]));
    } else {
        assert(d.take(k) =~= d);
        if d.len() > 0 {
            let r = d.drop_last();
            lemma_digits_value_prefix(r, r.len() as int);
            assert(r.take(r.len() as int) =~= r);
            assert(is_digit_char(d[d.len() - 1]));
        }
    }
}

/// A character that is no digit makes the text no number.
proof fn lemma_not_digit(s: Seq<char>, k: int)
    requires
        0 <= k < digits_part(s).len(),
        !is_digit_char(digits_part(s)[k]),
    ensures
        i8_text_value(s) is None,
{
    let d = digits_part(s);
    assert(!is_digit_char(d[k]));
    assert(!(forall|i: int| 0 <= i < d.len() ==> is_digit_char(#[trigger] d[i])));
}

/// Digits whose value leaves the range of `i8` make no `i8`.
proof fn lemma_out_of_range(s: Seq<char>)
    requires
        forall|i: int| 0 <= i < digits_part(s).len() ==> is_digit_char(#[trigger] digits_part(s)[i]),
        digits_value(digits_part(s)) > 128,
    ensures
        i8_text_value(s) is None,
{
}

/// Digits give their value, with the sign.
proof fn lemma_digits_number(s: Seq<char>)
    requires
        digits_part(s).len() > 0,
        forall|i: int| 0 <= i < digits_part(s).len() ==> is_digit_char(#[trigger] digits_part(s)[i]),
    ensures
        signed_decimal_value(s) == Some(
            if s[0] == '-' {
                -digits_value(digits_part(s))
            } else {
                digits_value(digits_part(s))
            },
        ),
{
}

/// Reads `s` as `str::parse::<i8>` does: an optional `+` or `-` followed
/// by digits only, the value in range.
pub fn parse_i8(s: &str) -> (r: Option<i8>)
    ensures
        r == i8_text_value(s@),
{
    let n = s.unicode_len();
    if n == 0 {
        return None;
    }
    let first = s.get_char(0);
    let signed = first == '+' || first == '-';
    let neg = first == '-';
    let start: usize = if signed {
        1
    } else {
        0
    };
    if start == n {
        proof {
            assert(s@.drop_first().len() == 0);
        }
        return None;
    }
    let ghost d = if signed {
        s@.drop_first()
    } else {
        s@
    };
    proof {
        assert(d =~= s@.subrange(start as int, n as int));
    }
    let mut v: u32 = 0;
    let mut i: usize = start;
    proof {
        assert(d.take(0) =~= Seq::<char>::empty());
    }
    while i < n
        invariant
            start <= i <= n,
            n == s@.len(),
            d == s@.subrange(start as int, n as int),
            d == digits_part(s@),
            signed == (s@.len() > 0 && (s@[0] == '+' || s@[0] == '-')),
            neg == (s@[0] == '-'),
            start < n,
            forall|j: int| 0 <= j < i - start ==> is_digit_char(#[trigger] d[j]),
            v == digits_value(d.take(i - start)),
            v <= 128,
        decreases n - i,
    {
        let c = s.get_char(i);
        proof {
            assert(d[i - start] == c);
        }
        if !('0' <= c && c <= '9') {
            proof {
                lemma_not_digit(s@, i - start);
            }
            return None;
        }
        let digit: u32 = (c as u32) - ('0' as u32);
        let nv: u32 = v * 10 + digit;
        proof {
            assert(d.take(i - start + 1).drop_last() =~= d.take(i - start));
        }
        proof {
            assert(d.take(i - start + 1).last() == c);
            assert(nv == digits_value(d.take(i - start + 1)));
        }
        if nv > 128 {
            proof {
                if forall|j: int| 0 <= j < d.len() ==> is_digit_char(#[trigger] d[j]) {
                    lemma_digits_value_prefix(d, i - start + 1);
                    lemma_out_of_range(s@);
                } else {
                    let j = choose|j: int| 0 <= j < d.len() && !is_digit_char(#[trigger] d[j]);
                    lemma_not_digit(s@, j);
                }
            }
            return None;
        }
        v = nv;
        i = i + 1;
    }
    proof {
        assert(d.take(d.len() as int) =~= d);
        lemma_digits_number(s@);
    }
    if neg {
        Some((0 - (v as i32)) as i8)
    } else if v <= 127 {
        Some(v as i8)
    } else {
        None
    }
}

} // verus!
