//! Small text utilities: building strings char by char, and rendering
//! integers in decimal and hexadecimal.

use vstd::prelude::*;

verus! {

/// Calls `String::push`: appends one char.
#[verifier::external_body]
pub(crate) fn push_char(s: &mut String, c: char)
    ensures
        final(s)@ == old(s)@.push(c),
{
    s.push(c);
}

/// The digit of value `d` (0 to 15), lower case.
pub open spec fn hex_digit(d: nat) -> char {
    if d < 10 {
        (d + 48) as char
    } else {
        (d + 87) as char
    }
}

/// Hexadecimal rendering, lower case, no leading zeros ("0" for zero).
pub open spec fn hex_model(n: nat) -> Seq<char>
    decreases n,
{
    if n < 16 {
        seq![hex_digit(n)]
    } else {
        hex_model(n / 16).push(hex_digit(n % 16))
    }
}

/// Decimal rendering of a natural number, no leading zeros ("0" for zero).
pub open spec fn decimal_model(n: nat) -> Seq<char>
    decreases n,
{
    if n < 10 {
        seq![(n + 48) as char]
    } else {
        decimal_model(n / 10).push(((n % 10) + 48) as char)
    }
}

/// Decimal rendering of an integer, with a leading '-' for negatives.
pub open spec fn int_model(i: int) -> Seq<char> {
    if i < 0 {
        seq!['-'] + decimal_model((-i) as nat)
    } else {
        decimal_model(i as nat)
    }
}

fn digit_char(d: u64, base: u64) -> (c: char)
    requires
        d < base,
        base == 10 || base == 16,
    ensures
        base == 16 ==> c == hex_digit(d as nat),
        base == 10 ==> c == ((d + 48) as char),
{
    if d < 10 {
        let v: u8 = (d as u8) + 48u8;
        v as char
    } else {
        let v: u8 = (d as u8) + 87u8;
        v as char
    }
}

/// Renders `n` in the given base (10 or 16), most significant digit first.
fn render(n: u64, base: u64) -> (r: String)
    requires
        base == 10 || base == 16,
    ensures
        base == 10 ==> r@ == decimal_model(n as nat),
        base == 16 ==> r@ == hex_model(n as nat),
{
    let mut digits: Vec<char> = Vec::new();
    let mut m: u64 = n;
    let ghost mut tail: Seq<char> = Seq::empty();
    // digits holds the low-order digits, least significant first
    while m >= base
        invariant
            base == 10 || base == 16,
            m <= n,
            base == 10 ==> decimal_model(n as nat) == decimal_model(m as nat) + digits@.reverse(),
            base == 16 ==> hex_model(n as nat) == hex_model(m as nat) + digits@.reverse(),
        decreases m,
    {
        let d = m % base;
        let c = digit_char(d, base);
        proof {
            let q = (m / base) as nat;
            assert(digits@.push(c).reverse() =~= seq![c] + digits@.reverse());
            if base == 10 {
                assert(decimal_model(m as nat) == decimal_model(q).push(c));
                assert(decimal_model(q).push(c) + digits@.reverse() =~= decimal_model(q) + (
                seq![c] + digits@.reverse()));
            } else {
                assert(hex_model(m as nat) == hex_model(q).push(c));
                assert(hex_model(q).push(c) + digits@.reverse() =~= hex_model(q) + (seq![c]
                    + digits@.reverse()));
            }
        }
        digits.push(c);
        m = m / base;
    }
    let c = digit_char(m, base);
    let mut s = String::new();
    push_char(&mut s, c);
    proof {
        if base == 10 {
            assert(decimal_model(m as nat) =~= seq![c]);
        } else {
            assert(hex_model(m as nat) =~= seq![c]);
        }
    }
    let mut i: usize = digits.len();
    while i > 0
        invariant
            i <= digits@.len(),
            base == 10 ==> decimal_model(n as nat) == s@ + digits@.subrange(0, i as int).reverse(),
            base == 16 ==> hex_model(n as nat) == s@ + digits@.subrange(0, i as int).reverse(),
        decreases i,
    {
        proof {
            let a = digits@.subrange(0, i as int);
            let b = digits@.subrange(0, i - 1);
            assert(a.reverse() =~= seq![digits@[i - 1]] + b.reverse());
            assert(s@ + a.reverse() =~= s@.push(digits@[i - 1]) + b.reverse());
        }
        i = i - 1;
        push_char(&mut s, digits[i]);
    }
    assert(digits@.subrange(0, 0).reverse() =~= Seq::<char>::empty());
    assert(s@ + Seq::<char>::empty() =~= s@);
    s
}

/// Lower-case hexadecimal rendering of `n`.
pub fn hex_lower(n: u32) -> (r: String)
    ensures
        r@ == hex_model(n as nat),
{
    render(n as u64, 16)
}

/// Decimal rendering of `n`.
pub fn usize_to_string(n: usize) -> (r: String)
    ensures
        r@ == decimal_model(n as nat),
{
    render(n as u64, 10)
}

/// Decimal rendering of `i`.
pub fn int_to_string(i: i64) -> (r: String)
    ensures
        r@ == int_model(i as int),
{
    if i < 0 {
        let mag: u64 = if i == i64::MIN {
            9223372036854775808u64
        } else {
            (-i) as u64
        };
        let digits = render(mag, 10);
        let mut s = String::from_str("-");
        s.append(digits.as_str());
        proof {
            reveal_strlit("-");
        }
        assert(s@ =~= seq!['-'] + decimal_model((-i) as nat));
        s
    } else {
        render(i as u64, 10)
    }
}

/// The value of a run of decimal digits.
pub open spec fn digits_value(s: Seq<char>) -> int
    decreases s.len(),
{
    if s.len() == 0 {
        0
    } else {
        digits_value(s.drop_last()) * 10 + (s.last() as int - 48)
    }
}

pub open spec fn all_digits(s: Seq<char>) -> bool {
    forall|i: int| 0 <= i < s.len() ==> '0' <= #[trigger] s[i] && s[i] <= '9'
}

/// The length of the sign in front of the digits: 0 or 1.
pub open spec fn sign_len(s: Seq<char>) -> int {
    if s.len() > 0 && (s[0] == '-' || s[0] == '+') {
        1
    } else {
        0
    }
}

/// What `str::parse::<i64>` gives: an optional sign, then one or more decimal
/// digits, with a value in range.
pub open spec fn parse_i64_model(s: Seq<char>) -> Option<i64> {
    let neg = s.len() > 0 && s[0] == '-';
    let body = s.skip(sign_len(s));
    if body.len() == 0 || !all_digits(body) {
        None
    } else {
        let v = if neg {
            -digits_value(body)
        } else {
            digits_value(body)
        };
        if i64::MIN <= v <= i64::MAX {
            Some(v as i64)
        } else {
            None
        }
    }
}

/// Parses a decimal integer the way `str::parse::<i64>` does.
pub fn parse_i64(s: &String) -> (r: Option<i64>)
    ensures
        r == parse_i64_model(s@),
{
    let n = s.as_str().unicode_len();
    let ghost v = s@;
    let mut start: usize = 0;
    let mut neg = false;
    if n > 0 {
        let c0 = s.as_str().get_char(0);
        if c0 == '-' {
            neg = true;
            start = 1;
        } else if c0 == '+' {
            start = 1;
        }
    }
    let ghost body = v.skip(start as int);
    assert(start == sign_len(v));
    assert(neg == (v.len() > 0 && v[0] == '-'));
    if start >= n {
        assert(body.len() == 0);
        return None;
    }
    // accumulate as a non-positive number so that i64::MIN is reachable
    let mut acc: i64 = 0;
    let mut i: usize = start;
    while i < n
        invariant
            start <= i <= n,
            n == v.len(),
            v == s@,
            body == v.skip(start as int),
            start == sign_len(v),
            neg == (v.len() > 0 && v[0] == '-'),
            all_digits(body.subrange(0, i - start)),
            acc == -digits_value(body.subrange(0, i - start)),
            i64::MIN <= acc <= 0,
        decreases n - i,
    {
        let c = s.as_str().get_char(i);
        proof {
            assert(body.subrange(0, i + 1 - start).drop_last() =~= body.subrange(0, i - start));
            assert(body.subrange(0, i + 1 - start).last() == c);
        }
        if !('0' <= c && c <= '9') {
            proof {
                assert(body[i - start] == v[i as int]);
                assert(body[i - start] == c);
                assert(!all_digits(body));
            }
            return None;
        }
        let d: i64 = (c as u32 - '0' as u32) as i64;
        let next = match acc.checked_mul(10) {
            Some(m) => m.checked_sub(d),
            None => None,
        };
        match next {
            None => {
                proof {
                    assert(body[i - start] == c);
                    lemma_digits_overflow(body, (i - start) as int, acc as int, d as int);
                    assert(body.len() > 0);
                    if all_digits(body) {
                        assert(digits_value(body) > i64::MAX);
                    }
                }
                return None;
            },
            Some(x) => {
                acc = x;
            },
        }
        i = i + 1;
        proof {
            let t = body.subrange(0, i - start);
            assert forall|j: int| 0 <= j < t.len() implies '0' <= #[trigger] t[j] && t[j] <= '9' by {
                if j < t.len() - 1 {
                    assert(t[j] == body.subrange(0, i - 1 - start)[j]);
                }
            }
        }
    }
    assert(body.subrange(0, n - start) =~= body);
    if neg {
        Some(acc)
    } else {
        if acc == i64::MIN {
            None
        } else {
            Some(-acc)
        }
    }
}

proof fn lemma_digits_monotone(s: Seq<char>, k: int)
    requires
        0 <= k <= s.len(),
        all_digits(s),
    ensures
        digits_value(s) >= digits_value(s.subrange(0, k)),
        digits_value(s.subrange(0, k)) >= 0,
    decreases s.len(),
{
    if s.len() == 0 {
    } else if k == s.len() {
        assert(s.subrange(0, k) =~= s);
        lemma_digits_monotone(s.drop_last(), s.len() - 1);
        assert(s.drop_last().subrange(0, s.len() - 1) =~= s.drop_last());
    } else {
        assert(all_digits(s.drop_last()));
        lemma_digits_monotone(s.drop_last(), k);
        assert(s.drop_last().subrange(0, k) =~= s.subrange(0, k));
        lemma_digits_monotone(s.drop_last(), s.len() - 1);
        assert(s.drop_last().subrange(0, s.len() - 1) =~= s.drop_last());
    }
}

proof fn lemma_digits_overflow(body: Seq<char>, k: int, acc: int, d: int)
    requires
        0 <= k < body.len(),
        acc == -digits_value(body.subrange(0, k)),
        0 <= d <= 9,
        d == body[k] as int - 48,
        acc * 10 - d < i64::MIN,
    ensures
        !(all_digits(body) && -digits_value(body) >= i64::MIN),
{
    if all_digits(body) {
        let t = body.subrange(0, k + 1);
        assert(t.drop_last() =~= body.subrange(0, k));
        assert(digits_value(t) == digits_value(body.subrange(0, k)) * 10 + d);
        lemma_digits_monotone(body, k + 1);
    }
}


/// Lexicographic comparison by code point: -1, 0 or 1.
pub open spec fn seq_order(a: Seq<char>, b: Seq<char>) -> int
    decreases a.len(),
{
    if a.len() == 0 {
        if b.len() == 0 { 0 } else { -1 }
    } else if b.len() == 0 {
        1
    } else if a[0] != b[0] {
        if (a[0] as u32) < (b[0] as u32) { -1 } else { 1 }
    } else {
        seq_order(a.drop_first(), b.drop_first())
    }
}

proof fn lemma_seq_order_skip(a: Seq<char>, b: Seq<char>, i: int)
    requires
        0 <= i < a.len(),
        i < b.len(),
        a[i] == b[i],
    ensures
        seq_order(a.skip(i), b.skip(i)) == seq_order(a.skip(i + 1), b.skip(i + 1)),
{
    assert(a.skip(i).drop_first() =~= a.skip(i + 1));
    assert(b.skip(i).drop_first() =~= b.skip(i + 1));
}

/// Compares two strings as `Ord` on `String` does (by code point, which is
/// the order of their UTF-8 bytes).
pub fn str_order(a: &String, b: &String) -> (r: i8)
    ensures
        r as int == seq_order(a@, b@),
{
    let n = a.as_str().unicode_len();
    let m = b.as_str().unicode_len();
    let mut i: usize = 0;
    proof {
        assert(a@.skip(0) =~= a@);
        assert(b@.skip(0) =~= b@);
    }
    while i < n && i < m
        invariant
            n == a@.len(),
            m == b@.len(),
            i <= n,
            i <= m,
            seq_order(a@, b@) == seq_order(a@.skip(i as int), b@.skip(i as int)),
        decreases n - i,
    {
        let x = a.as_str().get_char(i);
        let y = b.as_str().get_char(i);
        if x != y {
            proof {
                assert(a@.skip(i as int)[0] == x);
                assert(b@.skip(i as int)[0] == y);
            }
            if (x as u32) < (y as u32) {
                return -1;
            } else {
                return 1;
            }
        }
        proof {
            lemma_seq_order_skip(a@, b@, i as int);
        }
        i = i + 1;
    }
    proof {
        assert(a@.skip(i as int).len() == n - i);
        assert(b@.skip(i as int).len() == m - i);
    }
    if i < n {
        1
    } else if i < m {
        -1
    } else {
        0
    }
}

/// How many bytes UTF-8 takes for the char.
pub open spec fn char_utf8_len(c: char) -> nat {
    if (c as u32) < 0x80 { 1 } else if (c as u32) < 0x800 { 2 } else if (c as u32) < 0x10000 { 3 } else { 4 }
}

/// How many bytes UTF-8 takes for the text.
pub open spec fn utf8_len(s: Seq<char>) -> nat
    decreases s.len(),
{
    if s.len() == 0 { 0 } else { utf8_len(s.drop_last()) + char_utf8_len(s.last()) }
}

/// The length of the string in UTF-8 bytes, as `str::len` gives it; none
/// where that does not fit in a `usize`.
pub fn utf8_length(s: &String) -> (r: Option<usize>)
    ensures
        r matches Some(n) ==> n as nat == utf8_len(s@),
        r is None ==> utf8_len(s@) > usize::MAX,
{
    let n = s.as_str().unicode_len();
    let mut acc: usize = 0;
    let mut i: usize = 0;
    while i < n
        invariant
            n == s@.len(),
            i <= n,
            acc as nat == utf8_len(s@.take(i as int)),
        decreases n - i,
    {
        let c = s.as_str().get_char(i);
        let w: usize = if (c as u32) < 0x80 { 1 } else if (c as u32) < 0x800 { 2 } else if (c as u32) < 0x10000 { 3 } else { 4 };
        proof {
            assert(s@.take(i + 1).drop_last() =~= s@.take(i as int));
            assert(s@.take(i + 1).last() == c);
        }
        if acc > usize::MAX - w {
            proof {
                lemma_utf8_len_prefix(s@, i + 1);
            }
            return None;
        }
        acc = acc + w;
        i = i + 1;
    }
    proof {
        assert(s@.take(n as int) =~= s@);
    }
    Some(acc)
}

proof fn lemma_utf8_len_prefix(s: Seq<char>, k: int)
    requires
        0 <= k <= s.len(),
    ensures
        utf8_len(s.take(k)) <= utf8_len(s),
    decreases s.len() - k,
{
    if k < s.len() {
        lemma_utf8_len_prefix(s, k + 1);
        assert(s.take(k + 1).drop_last() =~= s.take(k));
    } else {
        assert(s.take(k) =~= s);
    }
}
} // verus!
