//! Verified text utilities: ASCII case folding, string equality, the
//! escaped-text decoder and the signed decimal integer parser.

use vstd::prelude::*;

use crate::datetime::{digit, is_digit};

verus! {

/// ASCII upper-casing of one character; every other character is unchanged.
pub open spec fn upper_char(c: char) -> char {
    if 97 <= c as int <= 122 {
        ((c as int - 32) as u8) as char
    } else {
        c
    }
}

/// ASCII upper-casing of a whole text, character by character.
pub open spec fn upper_seq(s: Seq<char>) -> Seq<char> {
    s.map_values(|c: char| upper_char(c))
}

fn upper_char_x(c: char) -> (r: char)
    ensures
        r == upper_char(c),
{
    let d = c as u32;
    if 97 <= d && d <= 122 {
        ((d - 32) as u8) as char
    } else {
        c
    }
}

/// Relies on `String::push`: appends the given character to the end of the
/// string.
#[verifier::external_body]
fn push_char(s: &mut String, c: char)
    ensures
        final(s)@ == old(s)@.push(c),
{
    s.push(c);
}

/// Upper-case every ASCII letter of a text, leaving all other characters as
/// they are.
pub fn to_upper(s: &str) -> (r: String)
    ensures
        r@ == upper_seq(s@),
{
    let n = s.unicode_len();
    let mut out = String::new();
    let mut i: usize = 0;
    while i < n
        invariant
            n == s@.len(),
            i <= n,
            out@ =~= upper_seq(s@).subrange(0, i as int),
        decreases n - i,
    {
        let c = s.get_char(i);
        push_char(&mut out, upper_char_x(c));
        proof {
            assert(upper_seq(s@)[i as int] == upper_char(s@[i as int]));
            assert(upper_seq(s@).subrange(0, i as int).push(upper_char(s@[i as int])) =~= upper_seq(
                s@,
            ).subrange(0, i + 1));
        }
        i = i + 1;
    }
    proof {
        assert(upper_seq(s@).subrange(0, n as int) =~= upper_seq(s@));
    }
    out
}

/// Character-by-character equality of two texts.
pub fn str_eq(a: &str, b: &str) -> (r: bool)
    ensures
        r == (a@ == b@),
{
    let n = a.unicode_len();
    if n != b.unicode_len() {
        return false;
    }
    let mut i: usize = 0;
    while i < n
        invariant
            n == a@.len(),
            n == b@.len(),
            i <= n,
            forall|j: int| 0 <= j < i ==> a@[j] == b@[j],
        decreases n - i,
    {
        if a.get_char(i) != b.get_char(i) {
            return false;
        }
        i = i + 1;
    }
    proof {
        assert(a@ =~= b@);
    }
    true
}

/// The decoded form of one recognized escape pair `\c`, if `c` closes one.
pub open spec fn escape_replacement(c: char) -> Option<char> {
    if c == 'n' || c == 'N' {
        Some('\n')
    } else if c == ';' {
        Some(';')
    } else if c == ',' {
        Some(',')
    } else if c == '\\' {
        Some('\\')
    } else {
        None
    }
}

/// One left-to-right pass over non-overlapping two-character escape
/// sequences: `\n` and `\N` become a line break, `\;` a semicolon, `\,` a
/// comma, `\\` a backslash; any other backslash pair is kept verbatim, and
/// decoded characters are never re-scanned.
pub open spec fn unescape_spec(s: Seq<char>) -> Seq<char>
    decreases s.len(),
{
    if s.len() == 0 {
        Seq::empty()
    } else if s[0] == '\\' && s.len() >= 2 {
        match escape_replacement(s[1]) {
            Some(r) => seq![r] + unescape_spec(s.skip(2)),
            None => seq!['\\', s[1]] + unescape_spec(s.skip(2)),
        }
    } else {
        seq![s[0]] + unescape_spec(s.skip(1))
    }
}

/// Decode the escape sequences of a text, as [`unescape_spec`] states.
pub fn unescape(s: &str) -> (r: String)
    ensures
        r@ == unescape_spec(s@),
{
    let n = s.unicode_len();
    let mut out = String::new();
    let mut i: usize = 0;
    proof {
        assert(s@.skip(0) =~= s@);
        assert(out@ + unescape_spec(s@) =~= unescape_spec(s@));
    }
    while i < n
        invariant
            n == s@.len(),
            i <= n,
            unescape_spec(s@) =~= out@ + unescape_spec(s@.skip(i as int)),
        decreases n - i,
    {
        let ghost pending = s@.skip(i as int);
        let c = s.get_char(i);
        proof {
            assert(pending[0] == s@[i as int]);
        }
        if c == '\\' && i + 1 < n {
            let c2 = s.get_char(i + 1);
            proof {
                assert(pending[1] == s@[i + 1]);
                assert(pending.skip(2) =~= s@.skip(i + 2));
            }
            if c2 == 'n' || c2 == 'N' {
                push_char(&mut out, '\n');
            } else if c2 == ';' {
                push_char(&mut out, ';');
            } else if c2 == ',' {
                push_char(&mut out, ',');
            } else if c2 == '\\' {
                push_char(&mut out, '\\');
            } else {
                push_char(&mut out, '\\');
                push_char(&mut out, c2);
            }
            proof {
                assert(unescape_spec(s@) =~= out@ + unescape_spec(s@.skip(i + 2)));
            }
            i = i + 2;
        } else {
            push_char(&mut out, c);
            proof {
                assert(pending.skip(1) =~= s@.skip(i + 1));
                assert(unescape_spec(s@) =~= out@ + unescape_spec(s@.skip(i + 1)));
            }
            i = i + 1;
        }
    }
    proof {
        assert(s@.skip(n as int) =~= Seq::<char>::empty());
        assert(unescape_spec(s@) =~= out@);
    }
    out
}

/// A text whose decoding leaves every character alone is returned unchanged.
pub proof fn lemma_unescape_identity(s: Seq<char>)
    requires
        forall|i: int| 0 <= i < s.len() ==> s[i] != '\\',
    ensures
        unescape_spec(s) == s,
    decreases s.len(),
{
    if s.len() == 0 {
        assert(unescape_spec(s) =~= s);
    } else {
        lemma_unescape_identity(s.skip(1));
        assert(unescape_spec(s) =~= s);
    }
}

/// The numeric value spelled by a digit text, most significant digit first.
pub open spec fn digits_val(s: Seq<char>) -> int
    decreases s.len(),
{
    if s.len() == 0 {
        0
    } else {
        digits_val(s.drop_last()) * 10 + digit(s.last())
    }
}

pub open spec fn all_digits(s: Seq<char>) -> bool {
    forall|i: int| 0 <= i < s.len() ==> is_digit(#[trigger] s[i])
}

/// The digit run of a signed decimal text: everything after one optional
/// leading sign.
pub open spec fn int_text_body(s: Seq<char>) -> Seq<char> {
    if s.len() > 0 && (s[0] == '-' || s[0] == '+') {
        s.skip(1)
    } else {
        s
    }
}

pub open spec fn int_text_negative(s: Seq<char>) -> bool {
    s.len() > 0 && s[0] == '-'
}

/// What parsing a signed 32-bit decimal text returns: an optional sign, one
/// or more digits, and a value within the 32-bit range; anything else is
/// rejected.
pub open spec fn parse_i32_spec(s: Seq<char>) -> Option<i32> {
    let body = int_text_body(s);
    let v = if int_text_negative(s) {
        -digits_val(body)
    } else {
        digits_val(body)
    };
    if body.len() > 0 && all_digits(body) && i32::MIN <= v <= i32::MAX {
        Some(v as i32)
    } else {
        None
    }
}

proof fn lemma_digits_val_nonneg(s: Seq<char>)
    requires
        all_digits(s),
    ensures
        digits_val(s) >= 0,
    decreases s.len(),
{
    if s.len() > 0 {
        assert(all_digits(s.drop_last()));
        lemma_digits_val_nonneg(s.drop_last());
    }
}

proof fn lemma_digits_val_mono(s: Seq<char>, i: int, j: int)
    requires
        all_digits(s),
        0 <= i <= j <= s.len(),
    ensures
        digits_val(s.take(i)) <= digits_val(s.take(j)),
    decreases j - i,
{
    if i < j {
        lemma_digits_val_mono(s, i, j - 1);
        let p = s.take(j);
        assert(p.drop_last() =~= s.take(j - 1));
        assert(all_digits(s.take(j - 1)));
        lemma_digits_val_nonneg(s.take(j - 1));
        assert(is_digit(p.last()));
    }
}

/// The decimal digit run spelling a non-negative number, most significant
/// digit first.
pub open spec fn dec_digits(n: int) -> Seq<char>
    decreases n,
{
    if n < 10 {
        seq![crate::datetime::digit_char(n)]
    } else {
        dec_digits(n / 10).push(crate::datetime::digit_char(n % 10))
    }
}

/// The decimal text representation of an integer: a minus sign for a
/// negative one, then its digit run.
pub open spec fn dec_rep(n: int) -> Seq<char> {
    if n < 0 {
        seq!['-'] + dec_digits(-n)
    } else {
        dec_digits(n)
    }
}

proof fn lemma_dec_digits(n: int)
    requires
        n >= 0,
    ensures
        all_digits(dec_digits(n)),
        dec_digits(n).len() >= 1,
        digits_val(dec_digits(n)) == n,
    decreases n,
{
    let s = dec_digits(n);
    if n < 10 {
        crate::datetime::lemma_digit_char(n);
        assert(s.drop_last() =~= Seq::<char>::empty());
        assert(digits_val(s) == digits_val(s.drop_last()) * 10 + digit(s.last()));
    } else {
        lemma_dec_digits(n / 10);
        crate::datetime::lemma_digit_char(n % 10);
        assert(s.drop_last() =~= dec_digits(n / 10));
        assert(s.last() == crate::datetime::digit_char(n % 10));
        assert(digits_val(s) == (n / 10) * 10 + n % 10);
        vstd::arithmetic::div_mod::lemma_fundamental_div_mod(n, 10);
        assert forall|i: int| 0 <= i < s.len() implies is_digit(#[trigger] s[i]) by {
            if i < s.len() - 1 {
                assert(s[i] == dec_digits(n / 10)[i]);
            }
        }
    }
}

/// Parsing the decimal text representation of any 32-bit integer returns
/// exactly that integer.
pub proof fn lemma_parse_i32_round_trip(n: i32)
    ensures
        parse_i32_spec(dec_rep(n as int)) == Some(n),
{
    let s = dec_rep(n as int);
    if n >= 0 {
        lemma_dec_digits(n as int);
        assert(is_digit(s[0]));
        assert(s[0] != '-' && s[0] != '+');
        assert(int_text_body(s) == s);
        assert(!int_text_negative(s));
    } else {
        let m = -(n as int);
        lemma_dec_digits(m);
        assert(s[0] == '-');
        assert(int_text_body(s) =~= dec_digits(m));
        assert(int_text_negative(s));
        assert(digits_val(int_text_body(s)) == m);
    }
}

fn digit_of(c: char) -> (r: Option<u8>)
    ensures
        match r {
            Some(d) => is_digit(c) && d == digit(c),
            None => !is_digit(c),
        },
{
    let d = c as u32;
    if 48 <= d && d <= 57 {
        Some((d - 48) as u8)
    } else {
        None
    }
}

/// Parse a signed 32-bit decimal integer, as [`parse_i32_spec`] states.
pub fn parse_i32(s: &str) -> (r: Option<i32>)
    ensures
        r == parse_i32_spec(s@),
{
    let n = s.unicode_len();
    if n == 0 {
        return None;
    }
    let first = s.get_char(0);
    let neg = first == '-';
    let start: usize = if first == '-' || first == '+' {
        1
    } else {
        0
    };
    let ghost body = int_text_body(s@);
    proof {
        assert(body =~= s@.subrange(start as int, n as int));
    }
    if start == n {
        return None;
    }
    let mut acc: u64 = 0;
    let mut i: usize = start;
    while i < n
        invariant
            n == s@.len(),
            start <= i <= n,
            start < n,
            body == int_text_body(s@),
            body =~= s@.subrange(start as int, n as int),
            all_digits(s@.subrange(start as int, i as int)),
            acc == digits_val(s@.subrange(start as int, i as int)),
            acc <= 2147483648,
        decreases n - i,
    {
        let ghost done = s@.subrange(start as int, i as int);
        let c = s.get_char(i);
        let d = match digit_of(c) {
            Some(d) => d,
            None => {
                proof {
                    assert(body[i - start] == s@[i as int]);
                }
                return None;
            },
        };
        let next = acc * 10 + d as u64;
        proof {
            let done2 = s@.subrange(start as int, i + 1);
            assert(done2.drop_last() =~= done);
            assert(done2.last() == s@[i as int]);
        }
        if next > 2147483648 {
            proof {
                let done2 = s@.subrange(start as int, i + 1);
                if all_digits(body) {
                    assert(done2 =~= body.take(i + 1 - start));
                    lemma_digits_val_mono(body, i + 1 - start, body.len() as int);
                    assert(body.take(body.len() as int) =~= body);
                }
            }
            return None;
        }
        acc = next;
        i = i + 1;
    }
    proof {
        assert(s@.subrange(start as int, n as int) =~= body);
    }
    if neg {
        let v: i64 = -(acc as i64);
        proof {
            assert(v as i32 as i64 == v);
        }
        Some(v as i32)
    } else {
        if acc > 2147483647 {
            return None;
        }
        Some(acc as i32)
    }
}

} // verus!
