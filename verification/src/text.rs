//! Numbers and bytes as text.
use vstd::prelude::*;
use vstd::string::*;
use vstd::utf8::*;

verus! {

/// The decimal digit `d` as a character.
pub open spec fn digit_char(d: int) -> char {
    (('0' as int) + d) as char
}

/// The decimal text of `n`, without leading zeros.
pub open spec fn dec(n: int) -> Seq<char>
    decreases n,
{
    if n < 10 {
        seq![digit_char(n)]
    } else {
        dec(n / 10).push(digit_char(n % 10))
    }
}

/// Whether `c` is a decimal digit.
pub open spec fn is_digit(c: char) -> bool {
    '0' <= c <= '9'
}

/// The number that a string of decimal digits stands for.
pub open spec fn digits_value(s: Seq<char>) -> int
    decreases s.len(),
{
    if s.len() == 0 {
        0
    } else {
        digits_value(s.drop_last()) * 10 + (s.last() as int - '0' as int)
    }
}

/// Whether every character is a decimal digit.
pub open spec fn all_digits(s: Seq<char>) -> bool {
    forall|i: int| 0 <= i < s.len() ==> is_digit(s[i])
}

/// The text without one leading `+`.
pub open spec fn without_plus(s: Seq<char>) -> Seq<char> {
    if s.len() > 0 && s[0] == '+' {
        s.skip(1)
    } else {
        s
    }
}

/// The unsigned number not above `max` that a text stands for: an optional
/// `+`, then one or more decimal digits.
pub open spec fn parse_dec(s: Seq<char>, max: int) -> Option<int> {
    let d = without_plus(s);
    if d.len() > 0 && all_digits(d) && digits_value(d) <= max {
        Some(digits_value(d))
    } else {
        None
    }
}

proof fn lemma_dec(n: int)
    requires
        0 <= n,
    ensures
        dec(n).len() > 0,
        all_digits(dec(n)),
        digits_value(dec(n)) == n,
    decreases n,
{
    if n < 10 {
        assert(dec(n).drop_last() =~= Seq::<char>::empty());
        assert(digits_value(Seq::<char>::empty()) == 0);
        assert(dec(n).last() == digit_char(n));
    } else {
        lemma_dec(n / 10);
        assert(dec(n).drop_last() =~= dec(n / 10));
        assert(dec(n).last() == digit_char(n % 10));
    }
}

/// Reading the decimal text of a number gives the number back.
pub proof fn law_dec_round_trip(n: int, max: int)
    requires
        0 <= n <= max,
    ensures
        parse_dec(dec(n), max) == Some(n),
{
    lemma_dec(n);
    assert(is_digit(dec(n)[0]));
}

fn digit_text(d: u64) -> (r: &'static str)
    requires
        d < 10,
    ensures
        r@ == seq![digit_char(d as int)],
{
    proof {
        reveal_strlit("0");
        reveal_strlit("1");
        reveal_strlit("2");
        reveal_strlit("3");
        reveal_strlit("4");
        reveal_strlit("5");
        reveal_strlit("6");
        reveal_strlit("7");
        reveal_strlit("8");
        reveal_strlit("9");
    }
    let r = match d {
        0 => "0",
        1 => "1",
        2 => "2",
        3 => "3",
        4 => "4",
        5 => "5",
        6 => "6",
        7 => "7",
        8 => "8",
        _ => "9",
    };
    assert(r@ =~= seq![digit_char(d as int)]);
    r
}

/// The decimal text of `n`.
pub fn dec_string(n: u64) -> (r: String)
    ensures
        r@ == dec(n as int),
    decreases n,
{
    if n < 10 {
        let s = String::from_str(digit_text(n));
        return s;
    }
    let mut s = dec_string(n / 10);
    s.append(digit_text(n % 10));
    assert(s@ =~= dec(n as int));
    s
}

/// `a` followed by `b`.
pub fn join2(a: &str, b: &str) -> (r: String)
    ensures
        r@ == a@ + b@,
{
    let mut s = String::from_str(a);
    s.append(b);
    s
}

/// `a` followed by the decimal text of `n`.
pub fn join_num(a: &str, n: u64) -> (r: String)
    ensures
        r@ == a@ + dec(n as int),
{
    let mut s = String::from_str(a);
    let d = dec_string(n);
    s.append(d.as_str());
    s
}

/// `a`, a number, `b`, another number.
pub fn text_num2(a: &str, x: u64, b: &str, y: u64) -> (r: String)
    ensures
        r@ == a@ + dec(x as int) + b@ + dec(y as int),
{
    let mut s = join_num(a, x);
    s.append(b);
    let d = dec_string(y);
    s.append(d.as_str());
    s
}

/// Appends a label and the decimal text of a number.
pub fn put_num(out: &mut String, label: &str, n: u64)
    ensures
        final(out)@ == old(out)@ + label@ + dec(n as int),
{
    out.append(label);
    let d = dec_string(n);
    out.append(d.as_str());
}

/// Whether two texts are equal.
pub fn str_eq(a: &str, b: &str) -> (r: bool)
    ensures
        r == (a@ == b@),
{
    let n: usize = a.unicode_len();
    if n != b.unicode_len() {
        return false;
    }
    let mut i: usize = 0;
    while i < n
        invariant
            n == a@.len(),
            n == b@.len(),
            i <= n,
            forall|k: int| 0 <= k < i ==> a@[k] == b@[k],
        decreases n - i,
    {
        if a.get_char(i) != b.get_char(i) {
            return false;
        }
        i += 1;
    }
    assert(a@ =~= b@);
    true
}

/// `s` without the prefix `p`.
pub open spec fn stripped_prefix(s: Seq<char>, p: Seq<char>) -> Option<Seq<char>> {
    if p.len() <= s.len() && s.take(p.len() as int) == p {
        Some(s.skip(p.len() as int))
    } else {
        None
    }
}

/// `s` without the suffix `p`.
pub open spec fn stripped_suffix(s: Seq<char>, p: Seq<char>) -> Option<Seq<char>> {
    if p.len() <= s.len() && s.skip(s.len() - p.len()) == p {
        Some(s.take(s.len() - p.len()))
    } else {
        None
    }
}

/// The rest of `s` behind the prefix `p`.
pub fn strip_prefix<'a>(s: &'a str, p: &str) -> (r: Option<&'a str>)
    ensures
        match r {
            Some(t) => stripped_prefix(s@, p@) == Some(t@),
            None => stripped_prefix(s@, p@) is None,
        },
{
    let n: usize = s.unicode_len();
    let k: usize = p.unicode_len();
    if k > n {
        return None;
    }
    let head = s.substring_char(0, k);
    assert(head@ =~= s@.take(k as int));
    if !str_eq(head, p) {
        return None;
    }
    let rest = s.substring_char(k, n);
    assert(rest@ =~= s@.skip(k as int));
    Some(rest)
}

/// The part of `s` before the suffix `p`.
pub fn strip_suffix<'a>(s: &'a str, p: &str) -> (r: Option<&'a str>)
    ensures
        match r {
            Some(t) => stripped_suffix(s@, p@) == Some(t@),
            None => stripped_suffix(s@, p@) is None,
        },
{
    let n: usize = s.unicode_len();
    let k: usize = p.unicode_len();
    if k > n {
        return None;
    }
    let tail = s.substring_char(n - k, n);
    assert(tail@ =~= s@.skip(n - k));
    if !str_eq(tail, p) {
        return None;
    }
    let rest = s.substring_char(0, n - k);
    assert(rest@ =~= s@.take(n - k));
    Some(rest)
}

/// `p` stands in `s` at `i`.
pub open spec fn stands_at(s: Seq<char>, p: Seq<char>, i: int) -> bool {
    0 <= i && i + p.len() <= s.len() && s.subrange(i, i + p.len()) == p
}

/// `p` stands somewhere in `s`.
pub open spec fn has_text(s: Seq<char>, p: Seq<char>) -> bool {
    exists|i: int| #[trigger] stands_at(s, p, i)
}

/// Whether `p` stands somewhere in `s`.
pub fn contains_text(s: &str, p: &str) -> (r: bool)
    ensures
        r == has_text(s@, p@),
{
    let n: usize = s.unicode_len();
    let k: usize = p.unicode_len();
    if k > n {
        return false;
    }
    let mut i: usize = 0;
    while i <= n - k
        invariant
            n == s@.len(),
            k == p@.len(),
            k <= n,
            i <= n - k + 1,
            forall|j: int| 0 <= j < i ==> !#[trigger] stands_at(s@, p@, j),
        decreases n - k + 1 - i,
    {
        let part = s.substring_char(i, i + k);
        if str_eq(part, p) {
            assert(stands_at(s@, p@, i as int));
            return true;
        }
        if i == n - k {
            assert forall|j: int| !#[trigger] stands_at(s@, p@, j) by {}
            return false;
        }
        i += 1;
    }
    false
}

/// The lower-case letter of an upper-case ASCII letter; other characters stay.
pub open spec fn ascii_lower(c: char) -> char {
    if 'A' <= c && c <= 'Z' {
        ((c as int) + 32) as char
    } else {
        c
    }
}

pub open spec fn lower_text(s: Seq<char>) -> Seq<char> {
    Seq::new(s.len(), |i: int| ascii_lower(s[i]))
}

/// Whether `s` in lower case is `t`.
pub fn lower_eq(s: &str, t: &str) -> (r: bool)
    ensures
        r == (lower_text(s@) == t@),
{
    let n: usize = s.unicode_len();
    if n != t.unicode_len() {
        assert(lower_text(s@).len() != t@.len());
        return false;
    }
    let mut i: usize = 0;
    while i < n
        invariant
            n == s@.len(),
            n == t@.len(),
            i <= n,
            forall|j: int| 0 <= j < i ==> ascii_lower(#[trigger] s@[j]) == t@[j],
        decreases n - i,
    {
        let c = s.get_char(i);
        let d = t.get_char(i);
        let x: u32 = c as u32;
        let y: u32 = if 65 <= x && x <= 90 {
            x + 32
        } else {
            x
        };
        if y != d as u32 {
            assert(lower_text(s@)[i as int] != t@[i as int]);
            return false;
        }
        assert(ascii_lower(c) == d);
        i += 1;
    }
    assert(lower_text(s@) =~= t@);
    true
}

/// `n` copies of the character zero.
pub open spec fn zero_chars(n: int) -> Seq<char> {
    Seq::new(
        if n < 0 {
            0
        } else {
            n as nat
        },
        |i: int| '0',
    )
}

/// The decimal text of `n`, filled up with zeros on the left to `width` characters.
pub open spec fn padded_dec(n: int, width: int) -> Seq<char> {
    zero_chars(width - dec(n).len()) + dec(n)
}

/// The decimal text of `n`, filled up with zeros on the left to `width` characters.
pub fn padded_string(n: u64, width: usize) -> (r: String)
    ensures
        r@ == padded_dec(n as int, width as int),
{
    let d = dec_string(n);
    let k: usize = d.as_str().unicode_len();
    let mut out = String::from_str("");
    let mut i: usize = k;
    proof {
        reveal_strlit("");
        reveal_strlit("0");
        assert(out@ =~= zero_chars(0));
    }
    while i < width
        invariant
            k <= i,
            i <= width || i == k,
            out@ == zero_chars(i - k),
        decreases width - i,
    {
        out.append("0");
        proof {
            reveal_strlit("0");
        }
        i += 1;
        assert(out@ =~= zero_chars(i - k));
    }
    assert(zero_chars(width - k) =~= zero_chars(i - k));
    out.append(d.as_str());
    out
}

proof fn lemma_zeros_value(z: Seq<char>, d: Seq<char>)
    requires
        forall|i: int| 0 <= i < z.len() ==> z[i] == '0',
    ensures
        digits_value(z + d) == digits_value(d),
    decreases d.len(), z.len(),
{
    if d.len() > 0 {
        assert((z + d).drop_last() =~= z + d.drop_last());
        lemma_zeros_value(z, d.drop_last());
    } else {
        assert(z + d =~= z);
        if z.len() > 0 {
            lemma_zeros_value(z.drop_last(), d);
            assert(z.drop_last() + d =~= z.drop_last());
        }
    }
}

/// Reading a number that was written with leading zeros gives the number back.
pub proof fn law_padded_round_trip(n: int, width: int, max: int)
    requires
        0 <= n <= max,
    ensures
        parse_dec(padded_dec(n, width), max) == Some(n),
{
    lemma_dec(n);
    let z = zero_chars(width - dec(n).len());
    let s = padded_dec(n, width);
    lemma_zeros_value(z, dec(n));
    assert forall|i: int| 0 <= i < s.len() implies is_digit(s[i]) by {
        if i >= z.len() {
            assert(s[i] == dec(n)[i - z.len()]);
        }
    }
    assert(is_digit(s[0]));
}

/// Reads an unsigned number not above `max`; see `parse_dec`.
pub fn parse_number(s: &str, max: u64) -> (r: Option<u64>)
    ensures
        match r {
            Some(v) => parse_dec(s@, max as int) == Some(v as int),
            None => parse_dec(s@, max as int) is None,
        },
{
    let n: usize = s.unicode_len();
    let mut i: usize = 0;
    if n > 0 && s.get_char(0) == '+' {
        i = 1;
    }
    let start: usize = i;
    let ghost d = without_plus(s@);
    if start == n {
        return None;
    }
    let mut v: u64 = 0;
    while i < n
        invariant
            n == s@.len(),
            start <= i <= n,
            start <= 1,
            d == s@.skip(start as int),
            d == without_plus(s@),
            n - start == d.len(),
            d.len() > 0,
            v == digits_value(d.take(i - start)),
            v <= max,
            forall|k: int| 0 <= k < i - start ==> is_digit(d[k]),
        decreases n - i,
    {
        let c = s.get_char(i);
        assert(c == d[i - start]);
        if c < '0' || c > '9' {
            assert(!is_digit(d[i - start]));
            return None;
        }
        let x: u64 = (c as u32 - '0' as u32) as u64;
        assert(d.take(i - start + 1).drop_last() =~= d.take(i - start));
        assert(digits_value(d.take(i - start + 1)) == v * 10 + x);
        if x > max || v > (max - x) / 10 {
            proof {
                if all_digits(d) {
                    lemma_digits_grow(d, i - start + 1, d.len() as int);
                    assert(d.take(d.len() as int) =~= d);
                }
            }
            return None;
        }
        v = v * 10 + x;
        i += 1;
    }
    assert(d.take(d.len() as int) =~= d);
    Some(v)
}

proof fn lemma_digits_grow(d: Seq<char>, n: int, m: int)
    requires
        0 <= n <= m <= d.len(),
        all_digits(d),
    ensures
        0 <= digits_value(d.take(n)) <= digits_value(d.take(m)),
    decreases m,
{
    if n < m {
        lemma_digits_grow(d, n, m - 1);
        assert(d.take(m).drop_last() =~= d.take(m - 1));
        assert(is_digit(d[m - 1]));
    } else if n > 0 {
        lemma_digits_grow(d, n - 1, n - 1);
        assert(d.take(n).drop_last() =~= d.take(n - 1));
        assert(is_digit(d[n - 1]));
    }
}

/// The lower-case hexadecimal digit `d` as a character.
pub open spec fn hex_char(d: int) -> char {
    if d < 10 {
        (('0' as int) + d) as char
    } else {
        (('a' as int) + d - 10) as char
    }
}

/// Two lower-case hexadecimal digits for each byte, the high one first.
pub open spec fn hex_text(s: Seq<u8>) -> Seq<char> {
    Seq::new(
        2 * s.len(),
        |i: int| hex_char(
            if i % 2 == 0 {
                s[i / 2] as int / 16
            } else {
                s[i / 2] as int % 16
            },
        ),
    )
}

/// `hex::encode`: the lower-case hexadecimal text of the bytes.
#[verifier::external_body]
pub(crate) fn hex_string(s: &[u8]) -> (r: String)
    ensures
        r@ == hex_text(s@),
{
    hex::encode(s)
}

/// The text of the error that `std::str::from_utf8` gives for bytes that are
/// not UTF-8.
pub uninterp spec fn utf8_error_text(bytes: Seq<u8>) -> Seq<char>;

/// `std::str::from_utf8`: the text that the bytes encode, if they are UTF-8,
/// and the text of the error if they are not.
#[verifier::external_body]
pub(crate) fn utf8_string(bytes: &[u8]) -> (r: std::result::Result<String, String>)
    ensures
        match r {
            Ok(t) => valid_utf8(bytes@) && t@ == decode_utf8(bytes@),
            Err(m) => !valid_utf8(bytes@) && m@ == utf8_error_text(bytes@),
        },
{
    match std::str::from_utf8(bytes) {
        Ok(t) => Ok(t.to_string()),
        Err(e) => Err(e.to_string()),
    }
}

pub(crate) proof fn lemma_parse_range(s: Seq<char>, max: int)
    ensures
        parse_dec(s, max) matches Some(v) ==> 0 <= v <= max,
{
    if parse_dec(s, max) is Some {
        lemma_digits_value(without_plus(s));
    }
}

proof fn lemma_digits_value(s: Seq<char>)
    requires
        all_digits(s),
    ensures
        digits_value(s) >= 0,
    decreases s.len(),
{
    if s.len() > 0 {
        assert(is_digit(s[s.len() - 1]));
        assert forall|i: int| 0 <= i < s.drop_last().len() implies is_digit(s.drop_last()[i]) by {
            assert(is_digit(s[i]));
        }
        lemma_digits_value(s.drop_last());
    }
}

/// Decimal text: a number below ten is its digit, and another digit behind the text of
/// `q` makes the text of ten times `q` and that digit.
pub proof fn law_decimal_digits(q: int, d: int)
    requires
        0 <= q,
        0 <= d < 10,
    ensures
        dec(d) == seq![(48 + d) as char],
        q > 0 ==> dec(10 * q + d) == dec(q).push((48 + d) as char),
{
    assert((10 * q + d) / 10 == q && (10 * q + d) % 10 == d);
}

/// A text of digits is read digit by digit, each worth ten times less than the one
/// before it. A text with another character, without digits, or beyond the limit is not
/// read; one plus sign in front is allowed.
pub proof fn law_number_is_read(s: Seq<char>, max: int, c: char)
    ensures
        parse_dec(s, max) matches Some(v) ==> 0 <= v <= max,
        parse_dec(s, max) is Some && s.len() > 0 && '0' <= c <= '9' && 10 * parse_dec(s, max)->0 + (
        c as int - 48) <= max ==> parse_dec(s.push(c), max) == Some(
            10 * parse_dec(s, max)->0 + (c as int - 48),
        ),
        '0' <= c <= '9' && c as int - 48 <= max ==> parse_dec(seq![c], max) == Some(c as int - 48),
        (exists|i: int| 0 < i < s.len() && !('0' <= #[trigger] s[i] <= '9')) ==> parse_dec(s, max)
            is None,
        s.len() > 0 && s[0] != '+' && !('0' <= s[0] <= '9') ==> parse_dec(s, max) is None,
        s.len() == 0 ==> parse_dec(s, max) is None,
        s.len() > 0 && s[0] == '+' ==> parse_dec(s, max) == (if s.len() > 1 && s[1] == '+' {
            None
        } else {
            parse_dec(s.skip(1), max)
        }),
{
    lemma_parse_range(s, max);
    let d = without_plus(s);
    if parse_dec(s, max) is Some && s.len() > 0 && '0' <= c <= '9' {
        let e = without_plus(s.push(c));
        assert(e =~= d.push(c));
        assert(e.drop_last() =~= d);
        assert forall|i: int| 0 <= i < e.len() implies is_digit(e[i]) by {
            if i < d.len() {
                assert(is_digit(d[i]));
            }
        }
    }
    if '0' <= c <= '9' {
        let one = seq![c];
        assert(without_plus(one) =~= one);
        assert(one.drop_last() =~= Seq::<char>::empty());
        assert(digits_value(Seq::<char>::empty()) == 0);
        assert(digits_value(one) == c as int - 48);
        assert(all_digits(one));
    }
    if exists|i: int| 0 < i < s.len() && !('0' <= #[trigger] s[i] <= '9') {
        let i = choose|i: int| 0 < i < s.len() && !('0' <= #[trigger] s[i] <= '9');
        if s[0] == '+' {
            assert(d[i - 1] == s[i]);
            assert(!is_digit(d[i - 1]));
        } else {
            assert(!is_digit(d[i]));
        }
    }
    if s.len() > 0 && s[0] != '+' && !('0' <= s[0] <= '9') {
        assert(!is_digit(d[0]));
    }
    if s.len() > 0 && s[0] == '+' {
        let t = s.skip(1);
        if s.len() > 1 && s[1] == '+' {
            assert(d[0] == '+');
            assert(!is_digit(d[0]));
        } else {
            assert(without_plus(t) =~= t);
        }
    }
}

/// Lower case changes the letters from A to Z, each by 32, and no other character.
pub proof fn law_lower_case(s: Seq<char>, i: int)
    requires
        0 <= i < s.len(),
    ensures
        lower_text(s).len() == s.len(),
        'A' <= s[i] <= 'Z' ==> lower_text(s)[i] as int == s[i] as int + 32,
        !('A' <= s[i] <= 'Z') ==> lower_text(s)[i] == s[i],
{
}

/// A text without a prefix, or a suffix, is what has to be put to it to get the text back.
pub proof fn law_stripped_text(s: Seq<char>, p: Seq<char>)
    ensures
        stripped_prefix(p + s, p) == Some(s),
        stripped_suffix(s + p, p) == Some(s),
        stripped_prefix(s, p) matches Some(t) ==> p + t == s,
        stripped_suffix(s, p) matches Some(t) ==> t + p == s,
{
    assert((p + s).take(p.len() as int) =~= p);
    assert((p + s).skip(p.len() as int) =~= s);
    assert((s + p).skip(s.len() as int) =~= p);
    assert((s + p).take(s.len() as int) =~= s);
    if let Some(t) = stripped_prefix(s, p) {
        assert(p + t =~= s) by {
            assert(s.take(p.len() as int) + s.skip(p.len() as int) =~= s);
        }
    }
    if let Some(t) = stripped_suffix(s, p) {
        assert(t + p =~= s) by {
            assert(s.take(s.len() - p.len()) + s.skip(s.len() - p.len()) =~= s);
        }
    }
}

/// A text stands in another exactly if something can be put before and behind it to get
/// the other.
pub proof fn law_text_is_within(a: Seq<char>, p: Seq<char>, b: Seq<char>)
    ensures
        has_text(a + p + b, p),
        p.len() > a.len() ==> !has_text(a, p),
{
    let s = a + p + b;
    assert(s.subrange(a.len() as int, a.len() as int + p.len()) =~= p);
    assert(stands_at(s, p, a.len() as int));
}

} // verus!
