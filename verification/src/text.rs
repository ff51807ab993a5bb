//! Small pieces of text: numbers in decimal, file names, file name endings.
use vstd::prelude::*;
use vstd::string::StrSliceExecFns;
use vstd::string::StringExecFns;

verus! {

/// The digit for `d`.
pub open spec fn digit(d: nat) -> char {
    (48 + d) as char
}

/// `n` in decimal.
pub open spec fn decimal(n: nat) -> Seq<char>
    decreases n,
{
    if n < 10 {
        seq![digit(n)]
    } else {
        decimal(n / 10).push(digit(n % 10))
    }
}

fn digit_text(d: u64) -> (s: &'static str)
    requires
        d < 10,
    ensures
        s@ == seq![digit(d as nat)],
{
    proof {
        reveal_strlit("0");
        reveal_strlit("1");
        reveal_strlit("2");
        reveal_strlit("3");
        reveal_strlit("4");
        reveal_strlit("5");
        reveal_strlit("6");
        reveal_strlit("7");
        reveal_strlit("8");
        reveal_strlit("9");
    }
    let s: &'static str = if d == 0 {
        "0"
    } else if d == 1 {
        "1"
    } else if d == 2 {
        "2"
    } else if d == 3 {
        "3"
    } else if d == 4 {
        "4"
    } else if d == 5 {
        "5"
    } else if d == 6 {
        "6"
    } else if d == 7 {
        "7"
    } else if d == 8 {
        "8"
    } else {
        "9"
    };
    assert(s@ =~= seq![digit(d as nat)]);
    s
}

/// `n` in decimal.
pub fn to_decimal(n: u64) -> (s: String)
    ensures
        s@ == decimal(n as nat),
    decreases n,
{
    if n < 10 {
        String::from_str(digit_text(n))
    } else {
        let mut s: String = to_decimal(n / 10);
        s.append(digit_text(n % 10));
        assert(s@ =~= decimal(n as nat));
        s
    }
}

/// `before`, `n` in decimal, and `after`.
pub open spec fn framed(before: Seq<char>, n: nat, after: Seq<char>) -> Seq<char> {
    before + decimal(n) + after
}

/// `before`, `n` in decimal, and `after`.
pub fn frame(before: &str, n: u64, after: &str) -> (s: String)
    ensures
        s@ == framed(before@, n as nat, after@),
{
    let mut s: String = String::from_str(before);
    let number: String = to_decimal(n);
    s.append(number.as_str());
    s.append(after);
    s
}

/// What `String::from_utf8_lossy` makes of bytes that are not UTF-8.
pub uninterp spec fn patched_text(bytes: Seq<u8>) -> Seq<char>;

/// The text that `bytes` encode, with replacement characters if they are not UTF-8.
pub open spec fn lossy_text(bytes: Seq<u8>) -> Seq<char> {
    if vstd::utf8::valid_utf8(bytes) {
        vstd::utf8::decode_utf8(bytes)
    } else {
        patched_text(bytes)
    }
}

/// Decoding gives back the text that was encoded.
pub proof fn lemma_text_back(text: Seq<char>)
    ensures
        lossy_text(vstd::utf8::encode_utf8(text)) == text,
{
    vstd::utf8::encode_utf8_valid_utf8(text);
    vstd::utf8::encode_utf8_decode_utf8(text);
}

/// Calls `String::from_utf8_lossy`: UTF-8 is decoded, and what becomes of other
/// bytes is a function of them.
#[verifier::external_body]
pub(crate) fn decode_lossy(bytes: &[u8]) -> (s: String)
    ensures
        vstd::utf8::valid_utf8(bytes@) ==> s@ == vstd::utf8::decode_utf8(bytes@),
        !vstd::utf8::valid_utf8(bytes@) ==> s@ == patched_text(bytes@),
{
    String::from_utf8_lossy(bytes).to_string()
}

/// The lower-case form of an ASCII letter, and any other character itself.
pub open spec fn lower(c: char) -> char {
    if 'A' <= c <= 'Z' {
        (c as u32 + 32) as char
    } else {
        c
    }
}

/// `name` ends with `ending` whatever the case of its ASCII letters.
pub open spec fn has_ending(name: Seq<char>, ending: Seq<char>) -> bool {
    &&& ending.len() <= name.len()
    &&& forall|k: int|
        0 <= k < ending.len() ==> lower(name[name.len() - ending.len() + k]) == #[trigger] ending[k]
}

/// `name` ends with `ending`, but for small letters that may be capital ones: those stand
/// thirty-two places before the small ones.
pub open spec fn ends_in(name: Seq<char>, ending: Seq<char>) -> bool {
    &&& ending.len() <= name.len()
    &&& forall|k: int|
        0 <= k < ending.len() ==> {
            let c = name[name.len() - ending.len() + k] as int;
            let e = #[trigger] ending[k] as int;
            c == e || (97 <= e <= 122 && c + 32 == e)
        }
}

/// An ending without capital letters is found whatever the case of the letters.
pub proof fn law_case_makes_no_difference(name: Seq<char>, ending: Seq<char>)
    requires
        forall|k: int| 0 <= k < ending.len() ==> !(65 <= (#[trigger] ending[k] as int) <= 90),
    ensures
        has_ending(name, ending) <==> ends_in(name, ending),
{
    if ending.len() <= name.len() {
        assert forall|k: int| 0 <= k < ending.len() implies (lower(
            name[name.len() - ending.len() + k],
        ) == #[trigger] ending[k] <==> {
            let c = name[name.len() - ending.len() + k] as int;
            let e = ending[k] as int;
            c == e || (97 <= e <= 122 && c + 32 == e)
        }) by {
            let c = name[name.len() - ending.len() + k];
            if 'A' <= c <= 'Z' {
                assert(lower(c) as int == c as int + 32);
            }
        }
        if has_ending(name, ending) {
            assert forall|k: int| 0 <= k < ending.len() implies {
                let c = name[name.len() - ending.len() + k] as int;
                let e = #[trigger] ending[k] as int;
                c == e || (97 <= e <= 122 && c + 32 == e)
            } by {
                assert(lower(name[name.len() - ending.len() + k]) == ending[k]);
            }
        }
        if ends_in(name, ending) {
            assert forall|k: int| 0 <= k < ending.len() implies lower(
                name[name.len() - ending.len() + k],
            ) == #[trigger] ending[k] by {}
        }
    }
}

fn to_lower(c: char) -> (r: char)
    ensures
        r == lower(c),
{
    if 'A' <= c && c <= 'Z' {
        ((c as u32 + 32) as u8) as char
    } else {
        c
    }
}

/// Whether `name` ends with `ending` whatever the case of its ASCII letters.
pub fn ends_with_ignoring_case(name: &str, ending: &str) -> (r: bool)
    ensures
        r == has_ending(name@, ending@),
{
    let n: usize = name.unicode_len();
    let m: usize = ending.unicode_len();
    if m > n {
        return false;
    }
    for k in 0..m
        invariant
            n == name@.len(),
            m == ending@.len(),
            m <= n,
            forall|j: int| 0 <= j < k ==> lower(name@[n - m + j]) == #[trigger] ending@[j],
    {
        if to_lower(name.get_char(n - m + k)) != ending.get_char(k) {
            assert(lower(name@[n - m + k]) != ending@[k as int]);
            return false;
        }
    }
    true
}

/// The character is a decimal digit.
pub open spec fn is_digit(c: char) -> bool {
    '0' <= c <= '9'
}

/// The number that the first `n` characters, all digits, stand for in decimal.
pub open spec fn value_upto(s: Seq<char>, from: int, n: int) -> nat
    decreases n - from,
{
    if n <= from {
        0
    } else {
        10 * value_upto(s, from, n - 1) + (s[n - 1] as u32 - 48) as nat
    }
}

/// Where the digits of a number begin: behind a plus sign, if there is one.
pub open spec fn digits_at(s: Seq<char>) -> int {
    if s.len() > 0 && s[0] == '+' {
        1
    } else {
        0
    }
}

/// The number that `s` stands for, if it is one that fits: digits, at least one, with
/// or without a plus sign in front.
pub open spec fn number_of(s: Seq<char>) -> Option<usize> {
    let from = digits_at(s);
    let value = value_upto(s, from, s.len() as int);
    if from < s.len() && (forall|i: int| from <= i < s.len() ==> is_digit(#[trigger] s[i]))
        && value <= usize::MAX {
        Some(value as usize)
    } else {
        None
    }
}

/// The number that `s` stands for, if it is one that fits.
pub fn parse_number(s: &str) -> (r: Option<usize>)
    ensures
        r == number_of(s@),
{
    let n: usize = s.unicode_len();
    let from: usize = if n > 0 && s.get_char(0) == '+' {
        1
    } else {
        0
    };
    if from >= n {
        return None;
    }
    let mut value: usize = 0;
    let mut fits: bool = true;
    for i in from..n
        invariant
            n == s@.len(),
            from == digits_at(s@),
            fits ==> value == value_upto(s@, from as int, i as int),
            !fits ==> value_upto(s@, from as int, i as int) > usize::MAX,
            forall|k: int| from <= k < i ==> is_digit(#[trigger] s@[k]),
    {
        let c: char = s.get_char(i);
        if !('0' <= c && c <= '9') {
            assert(!is_digit(s@[i as int]));
            return None;
        }
        if fits {
            let d: usize = (c as u32 - 48) as usize;
            match value.checked_mul(10) {
                Some(ten) => match ten.checked_add(d) {
                    Some(next) => {
                        value = next;
                    },
                    None => {
                        fits = false;
                    },
                },
                None => {
                    fits = false;
                },
            }
        }
    }
    if fits {
        Some(value)
    } else {
        None
    }
}

/// A number in decimal is made of digits and has no zero in front; the digits stand for the
/// number.
pub proof fn law_decimal_stands_for_the_number(n: nat)
    ensures
        decimal(n).len() > 0,
        forall|k: int| 0 <= k < decimal(n).len() ==> '0' <= (#[trigger] decimal(n)[k]) <= '9',
        value_upto(decimal(n), 0, decimal(n).len() as int) == n,
        n > 0 ==> decimal(n)[0] != '0',
        n < 10 ==> decimal(n) == seq![(48 + n) as char],
        n >= 10 ==> decimal(n) == decimal(n / 10).push((48 + n % 10) as char),
    decreases n,
{
    let d = decimal(n);
    if n >= 10 {
        let front = decimal(n / 10);
        law_decimal_stands_for_the_number(n / 10);
        lemma_value_of_front(front, d, front.len() as int);
        assert(n == 10 * (n / 10) + n % 10);
    } else {
        assert(value_upto(d, 0, 0) == 0);
    }
}

proof fn lemma_value_of_front(a: Seq<char>, b: Seq<char>, n: int)
    requires
        0 <= n <= a.len() <= b.len(),
        forall|k: int| 0 <= k < a.len() ==> a[k] == b[k],
    ensures
        value_upto(a, 0, n) == value_upto(b, 0, n),
    decreases n,
{
    if n > 0 {
        lemma_value_of_front(a, b, n - 1);
    }
}

/// What is written in decimal is read back; a plus sign in front makes no difference, and a
/// number that does not fit is none.
pub proof fn law_number_is_read_back(n: nat)
    ensures
        number_of(decimal(n)) == if n <= usize::MAX {
            Some(n as usize)
        } else {
            None
        },
        number_of(seq!['+'] + decimal(n)) == number_of(decimal(n)),
{
    let d = decimal(n);
    let p = seq!['+'] + d;
    law_decimal_stands_for_the_number(n);
    assert('0' <= d[0] <= '9');
    assert(digits_at(d) == 0);
    assert(p[0] == '+');
    lemma_value_behind(d, p, d.len() as int);
    assert forall|i: int| 0 <= i < d.len() implies is_digit(#[trigger] d[i]) by {}
    assert forall|i: int| 1 <= i < p.len() implies is_digit(#[trigger] p[i]) by {
        assert(p[i] == d[i - 1]);
    }
}

proof fn lemma_value_behind(a: Seq<char>, b: Seq<char>, n: int)
    requires
        0 <= n <= a.len(),
        b.len() == a.len() + 1,
        forall|k: int| 0 <= k < a.len() ==> a[k] == b[k + 1],
    ensures
        value_upto(a, 0, n) == value_upto(b, 1, n + 1),
    decreases n,
{
    if n > 0 {
        lemma_value_behind(a, b, n - 1);
    }
}

/// Text is a number only if it is digits, one at least, with or without a plus sign in front;
/// zeros in front of digits make no difference.
pub proof fn law_only_digits_are_numbers(s: Seq<char>)
    ensures
        number_of(s) is Some ==> {
            let from: int = if s[0] == '+' {
                1
            } else {
                0
            };
            &&& from < s.len()
            &&& forall|i: int| from <= i < s.len() ==> '0' <= (#[trigger] s[i]) <= '9'
        },
        s.len() > 0 && s[0] != '+' ==> number_of(seq!['0'] + s) == number_of(s),
{
    if number_of(s) is Some {
        let from = digits_at(s);
        assert forall|i: int| from <= i < s.len() implies '0' <= (#[trigger] s[i]) <= '9' by {
            assert(is_digit(s[i]));
        }
    }
    if s.len() > 0 && s[0] != '+' {
        let z = seq!['0'] + s;
        lemma_value_behind(s, z, s.len() as int);
        lemma_leading_zero(z, z.len() as int);
        if forall|i: int| 0 <= i < s.len() ==> is_digit(#[trigger] s[i]) {
            assert forall|i: int| 0 <= i < z.len() implies is_digit(#[trigger] z[i]) by {
                if i > 0 {
                    assert(z[i] == s[i - 1]);
                }
            }
        }
        if forall|i: int| 0 <= i < z.len() ==> is_digit(#[trigger] z[i]) {
            assert forall|i: int| 0 <= i < s.len() implies is_digit(#[trigger] s[i]) by {
                assert(s[i] == z[i + 1]);
            }
        }
    }
}

proof fn lemma_leading_zero(z: Seq<char>, n: int)
    requires
        1 <= n <= z.len(),
        z[0] == '0',
    ensures
        value_upto(z, 0, n) == value_upto(z, 1, n),
    decreases n,
{
    if n > 1 {
        lemma_leading_zero(z, n - 1);
    } else {
        assert(value_upto(z, 0, 0) == 0);
        assert(value_upto(z, 1, 1) == 0);
    }
}

/// A framed number has the texts in front of it and behind it, and in between what it is in
/// decimal.
pub proof fn law_frame_holds_the_number(before: Seq<char>, n: nat, after: Seq<char>)
    ensures
        ({
            let s = framed(before, n, after);
            let d = decimal(n);
            &&& s.len() == before.len() + d.len() + after.len()
            &&& s.take(before.len() as int) == before
            &&& s.subrange(before.len() as int, before.len() + d.len() as int) == d
            &&& s.skip(before.len() + d.len() as int) == after
        }),
{
    let s = framed(before, n, after);
    let d = decimal(n);
    assert(s.take(before.len() as int) =~= before);
    assert(s.subrange(before.len() as int, before.len() + d.len() as int) =~= d);
    assert(s.skip(before.len() + d.len() as int) =~= after);
}

} // verus!
