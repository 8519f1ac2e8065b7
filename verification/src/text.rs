use vstd::prelude::*;
use vstd::utf8::*;
use vstd::string::StringSliceAdditionalSpecFns;

verus! {

broadcast use vstd::string::is_ascii_spec_bytes, vstd::utf8::encode_utf8_decode_utf8;

/// Unicode `White_Space` property, the set of characters that `str::trim`
/// and `char::is_whitespace` treat as whitespace.
pub open spec fn is_white_space(c: char) -> bool {
    ||| ('\u{9}' <= c && c <= '\u{d}')
    ||| c == ' '
    ||| c == '\u{85}'
    ||| c == '\u{a0}'
    ||| c == '\u{1680}'
    ||| ('\u{2000}' <= c && c <= '\u{200a}')
    ||| c == '\u{2028}'
    ||| c == '\u{2029}'
    ||| c == '\u{202f}'
    ||| c == '\u{205f}'
    ||| c == '\u{3000}'
}

/// `s` without its leading whitespace.
pub open spec fn trim_start_ws(s: Seq<char>) -> Seq<char>
    decreases s.len(),
{
    if s.len() > 0 && is_white_space(s[0]) {
        trim_start_ws(s.drop_first())
    } else {
        s
    }
}

/// `s` without its trailing whitespace.
pub open spec fn trim_end_ws(s: Seq<char>) -> Seq<char>
    decreases s.len(),
{
    if s.len() > 0 && is_white_space(s.last()) {
        trim_end_ws(s.drop_last())
    } else {
        s
    }
}

/// `s` without leading and trailing whitespace.
pub open spec fn trim_ws(s: Seq<char>) -> Seq<char> {
    trim_end_ws(trim_start_ws(s))
}

/// The slice of `s` with its leading and trailing characters of the Unicode
/// `White_Space` property removed, as `str::trim` gives it.
pub fn trim(s: &str) -> (r: &str)
    ensures
        r@ == trim_ws(s@),
{
    let bytes = s.as_bytes();
    let n = bytes.len();
    let ghost cs = s@;
    proof {
        vstd::utf8::encode_utf8_valid_utf8(cs);
        assert(cs.take(0) =~= Seq::<char>::empty());
    }
    let mut p: usize = 0;
    let mut start: usize = 0;
    let mut end: usize = 0;
    let ghost mut k: int = 0;
    let ghost mut a: int = 0;
    let ghost mut e: int = 0;
    while p < n
        invariant
            bytes@ == encode_utf8(cs),
            cs == s@,
            n == bytes@.len(),
            0 <= a <= e <= k <= cs.len(),
            p as int == encode_utf8(cs.take(k)).len(),
            start as int == encode_utf8(cs.take(a)).len(),
            end as int == encode_utf8(cs.take(e)).len(),
            all_white_space(cs.take(a)),
            a < k ==> !is_white_space(cs[a]),
            a == k ==> e == k,
            all_white_space(cs.subrange(e, k)),
            e > a ==> !is_white_space(cs[e - 1]),
        decreases n - p,
    {
        proof {
            lemma_take_len_bound(cs, k);
            if k == cs.len() {
                assert(cs.take(k) =~= cs);
            }
        }
        let (v, w) = decode_at(bytes, p, Ghost(cs), Ghost(k));
        proof {
            lemma_take_step(cs, k);
        }
        let ws = is_white_space_code(v, Ghost(cs[k]));
        let next = p + w;
        if ws {
            if start == p {
                proof {
                    lemma_take_len_monotone(cs, a, k);
                    a = k + 1;
                    e = k + 1;
                    assert forall|i: int| 0 <= i < a implies is_white_space(#[trigger] cs.take(a)[i]) by {
                        if i < k {
                            assert(cs.take(a)[i] == cs.take(k)[i]);
                        }
                    }
                    assert(cs.subrange(e, k + 1) =~= Seq::<char>::empty());
                }
                start = next;
                end = next;
            } else {
                proof {
                    assert forall|i: int| 0 <= i < k + 1 - e implies is_white_space(#[trigger] cs.subrange(e, k + 1)[i]) by {
                        if i < k - e {
                            assert(cs.subrange(e, k + 1)[i] == cs.subrange(e, k)[i]);
                        }
                    }
                }
            }
        } else {
            proof {
                if a == k {
                    assert(start == p);
                }
                e = k + 1;
                assert(cs.subrange(e, k + 1) =~= Seq::<char>::empty());
            }
            end = next;
        }
        p = next;
        proof {
            k = k + 1;
        }
    }
    proof {
        lemma_take_len_bound(cs, k);
        if k < cs.len() {
            assert(false);
        }
        assert(k == cs.len());
        lemma_prefix_boundary(cs, a);
        lemma_prefix_boundary(cs, e);
        lemma_encode_utf8_concat(cs.take(a), cs.skip(a));
        assert(cs =~= cs.take(a) + cs.skip(a));
        lemma_take_len_monotone(cs, a, e);
    }
    let (_, rest) = s.split_at(start);
    proof {
        assert(rest.spec_bytes() =~= encode_utf8(cs.skip(a)));
        assert(decode_utf8(encode_utf8(rest@)) == rest@);
        assert(decode_utf8(encode_utf8(cs.skip(a))) == cs.skip(a));
        assert(rest@ == cs.skip(a));
        let t = cs.skip(a);
        assert(t.take(e - a) + t.skip(e - a) =~= t);
        lemma_encode_utf8_concat(t.take(e - a), t.skip(e - a));
        assert(cs.take(e) =~= cs.take(a) + t.take(e - a));
        lemma_encode_utf8_concat(cs.take(a), t.take(e - a));
        lemma_prefix_boundary(t, e - a);
    }
    let (mid, _) = rest.split_at(end - start);
    proof {
        let t = cs.skip(a);
        assert(mid.spec_bytes() =~= encode_utf8(t.take(e - a)));
        assert(decode_utf8(encode_utf8(mid@)) == mid@);
        assert(decode_utf8(encode_utf8(t.take(e - a))) == t.take(e - a));
        assert(mid@ =~= cs.subrange(a, e));
        lemma_trim_by_bounds(cs, a, e);
    }
    mid
}

/// Two string slices hold the same characters exactly when their UTF-8
/// encodings are equal.
pub proof fn lemma_bytes_eq_iff_chars_eq(a: &str, b: &str)
    ensures
        (a.spec_bytes() == b.spec_bytes()) <==> (a@ == b@),
{
    if a.spec_bytes() == b.spec_bytes() {
        assert(decode_utf8(encode_utf8(a@)) == a@);
        assert(decode_utf8(encode_utf8(b@)) == b@);
    }
}

/// Character-wise equality of two string slices.
pub fn str_eq(a: &str, b: &str) -> (r: bool)
    ensures
        r == (a@ == b@),
{
    let ab = a.as_bytes();
    let bb = b.as_bytes();
    proof { lemma_bytes_eq_iff_chars_eq(a, b); }
    if ab.len() != bb.len() {
        return false;
    }
    let mut i: usize = 0;
    while i < ab.len()
        invariant
            ab@ == a.spec_bytes(),
            bb@ == b.spec_bytes(),
            ab@.len() == bb@.len(),
            i <= ab@.len(),
            forall|j: int| 0 <= j < i ==> ab@[j] == bb@[j],
        decreases ab@.len() - i,
    {
        if ab[i] != bb[i] {
            return false;
        }
        i = i + 1;
    }
    assert(ab@ =~= bb@);
    true
}


/// Index of the first occurrence of `c` in `s`, or `s.len()` when `c` does not occur.
pub open spec fn index_of_char(s: Seq<char>, c: char) -> int
    decreases s.len(),
{
    if s.len() == 0 {
        0
    } else if s[0] == c {
        0
    } else {
        1 + index_of_char(s.drop_first(), c)
    }
}

pub proof fn lemma_index_of_char_bounds(s: Seq<char>, c: char)
    ensures
        0 <= index_of_char(s, c) <= s.len(),
        index_of_char(s, c) < s.len() ==> s[index_of_char(s, c)] == c,
        forall|j: int| 0 <= j < index_of_char(s, c) ==> s[j] != c,
    decreases s.len(),
{
    if s.len() > 0 && s[0] != c {
        lemma_index_of_char_bounds(s.drop_first(), c);
        assert forall|j: int| 0 <= j < index_of_char(s, c) implies s[j] != c by {
            if j > 0 {
                assert(s[j] == s.drop_first()[j - 1]);
            }
        }
    }
}

/// UTF-8 encoding distributes over concatenation.
pub proof fn lemma_encode_utf8_concat(a: Seq<char>, b: Seq<char>)
    ensures
        encode_utf8(a + b) == encode_utf8(a) + encode_utf8(b),
    decreases a.len(),
{
    if a.len() == 0 {
        assert(a + b =~= b);
        assert(encode_utf8(a) =~= Seq::<u8>::empty());
        assert(encode_utf8(a) + encode_utf8(b) =~= encode_utf8(b));
    } else {
        assert((a + b).drop_first() =~= a.drop_first() + b);
        assert((a + b)[0] == a[0]);
        lemma_encode_utf8_concat(a.drop_first(), b);
        assert(encode_utf8(a + b) =~= encode_scalar(a[0] as u32) + (encode_utf8(a.drop_first()) + encode_utf8(b)));
    }
}

proof fn lemma_high_bytes(v: u32)
    ensures
        leading_byte_width_2(v) >= 0x80,
        leading_byte_width_3(v) >= 0x80,
        leading_byte_width_4(v) >= 0x80,
        last_continuation_byte(v) >= 0x80,
        second_last_continuation_byte(v) >= 0x80,
        third_last_continuation_byte(v) >= 0x80,
{
    assert(leading_byte_width_2(v) >= 0x80) by (bit_vector);
    assert(leading_byte_width_3(v) >= 0x80) by (bit_vector);
    assert(leading_byte_width_4(v) >= 0x80) by (bit_vector);
    assert(last_continuation_byte(v) >= 0x80) by (bit_vector);
    assert(second_last_continuation_byte(v) >= 0x80) by (bit_vector);
    assert(third_last_continuation_byte(v) >= 0x80) by (bit_vector);
}

proof fn lemma_width_1_byte(v: u32)
    requires
        v <= 0x7f,
    ensures
        leading_byte_width_1(v) == v,
{
    assert(v <= 0x7f ==> (v & 0x7f) == v) by (bit_vector);
}

/// An ASCII byte occurs in the encoding of a character only when the
/// character is that ASCII character, whose encoding is the single byte.
pub proof fn lemma_ascii_byte_in_scalar(c: char, b: u8)
    requires
        b < 0x80,
    ensures
        (c as u32 != b as u32) ==> forall|j: int|
            0 <= j < encode_scalar(c as u32).len() ==> #[trigger] encode_scalar(c as u32)[j] != b,
        (c as u32 == b as u32) ==> encode_scalar(c as u32) == seq![b],
{
    let v = c as u32;
    lemma_high_bytes(v);
    if has_width_1_encoding(v) {
        lemma_width_1_byte(v);
    }
}

/// The first occurrence of an ASCII character `c` in `cs` corresponds to the
/// first occurrence of its byte in the UTF-8 encoding of `cs`.
pub proof fn lemma_index_of_ascii_char(cs: Seq<char>, c: char)
    requires
        (c as u32) < 0x80,
    ensures
        ({
            let k = index_of_char(cs, c);
            let e = encode_utf8(cs);
            let p = encode_utf8(cs.take(k));
            &&& 0 <= k <= cs.len()
            &&& e == p + encode_utf8(cs.skip(k))
            &&& forall|j: int| 0 <= j < p.len() ==> e[j] != c as u8
            &&& k < cs.len() ==> p.len() < e.len() && e[p.len() as int] == c as u8
            &&& k == cs.len() ==> p.len() == e.len()
        }),
    decreases cs.len(),
{
    let k = index_of_char(cs, c);
    lemma_index_of_char_bounds(cs, c);
    assert(cs =~= cs.take(k) + cs.skip(k));
    lemma_encode_utf8_concat(cs.take(k), cs.skip(k));
    let b = c as u8;
    assert(b as u32 == c as u32);
    if cs.len() == 0 {
    } else if cs[0] == c {
        assert(cs.take(k) =~= Seq::<char>::empty());
        lemma_ascii_byte_in_scalar(cs[0], b);
        assert(encode_utf8(cs) == encode_scalar(cs[0] as u32) + encode_utf8(cs.drop_first()));
    } else {
        let t = cs.drop_first();
        lemma_index_of_ascii_char(t, c);
        let kt = index_of_char(t, c);
        assert(k == 1 + kt);
        assert(cs.take(k) =~= seq![cs[0]] + t.take(kt));
        assert(cs.skip(k) =~= t.skip(kt));
        lemma_encode_utf8_concat(seq![cs[0]], t.take(kt));
        let s0 = encode_scalar(cs[0] as u32);
        assert(seq![cs[0]].drop_first() =~= Seq::<char>::empty());
        assert(seq![cs[0]][0] == cs[0]);
        assert(encode_utf8(Seq::<char>::empty()) =~= Seq::<u8>::empty());
        assert(encode_utf8(seq![cs[0]]) =~= s0);
        lemma_ascii_byte_in_scalar(cs[0], b);
        if cs[0] as u32 == b as u32 {
            vstd::utf8::char_u32_cast(cs[0], cs[0] as u32);
            vstd::utf8::char_u32_cast(c, c as u32);
        }
        assert(cs[0] as u32 != b as u32);
        let e = encode_utf8(cs);
        let p = encode_utf8(cs.take(k));
        let et = encode_utf8(t);
        let pt = encode_utf8(t.take(kt));
        assert(e =~= s0 + et);
        assert(p =~= s0 + pt);
        assert forall|j: int| 0 <= j < p.len() implies e[j] != b by {
            if j < s0.len() {
                assert(e[j] == s0[j]);
            } else {
                assert(e[j] == et[j - s0.len()]);
            }
        }
        if k < cs.len() {
            assert(e[p.len() as int] == et[pt.len() as int]);
        }
    }
}

fn find_byte(bytes: &[u8], b: u8) -> (r: usize)
    ensures
        r <= bytes@.len(),
        forall|j: int| 0 <= j < r ==> bytes@[j] != b,
        r < bytes@.len() ==> bytes@[r as int] == b,
{
    let mut i: usize = 0;
    while i < bytes.len()
        invariant
            i <= bytes@.len(),
            forall|j: int| 0 <= j < i ==> bytes@[j] != b,
        decreases bytes@.len() - i,
    {
        if bytes[i] == b {
            return i;
        }
        i = i + 1;
    }
    i
}

/// Splits `s` at the first occurrence of the ASCII character `c`: the part
/// before it, and the rest starting with `c` itself (empty when `c` does not occur).
pub fn split_at_ascii(s: &str, c: u8) -> (r: (&str, &str))
    requires
        c < 0x80,
    ensures
        r.0@ == s@.take(index_of_char(s@, c as char)),
        r.1@ == s@.skip(index_of_char(s@, c as char)),
{
    let bytes = s.as_bytes();
    let j = find_byte(bytes, c);
    let ghost cs = s@;
    let ghost ch = c as char;
    proof {
        assert((ch as u32) < 0x80);
        assert(ch as u8 == c);
        lemma_index_of_ascii_char(cs, ch);
        let k = index_of_char(cs, ch);
        let e = encode_utf8(cs);
        let p = encode_utf8(cs.take(k));
        vstd::utf8::encode_utf8_valid_utf8(cs);
        // the first byte equal to `c` is where the character `c` starts
        if k < cs.len() {
            assert(j as int == p.len()) by {
                if (j as int) < p.len() {
                    assert(e[j as int] != c);
                }
                if (j as int) > p.len() {
                    assert(bytes@[p.len() as int] != c);
                }
            }
            assert(!is_continuation_byte(c)) by (bit_vector) requires c < 0x80;
            vstd::utf8::is_char_boundary_iff_not_is_continuation_byte(e, j as int);
        } else {
            assert(j as int == p.len()) by {
                if (j as int) < p.len() {
                    assert(e[j as int] != c);
                }
            }
            vstd::utf8::is_char_boundary_start_end_of_seq(e);
        }
    }
    let (head, tail) = s.split_at(j);
    proof {
        let k = index_of_char(cs, ch);
        let e = encode_utf8(cs);
        assert(head.spec_bytes() =~= encode_utf8(cs.take(k)));
        assert(tail.spec_bytes() =~= encode_utf8(cs.skip(k)));
        assert(decode_utf8(encode_utf8(head@)) == head@);
        assert(decode_utf8(encode_utf8(cs.take(k))) == cs.take(k));
        assert(decode_utf8(encode_utf8(tail@)) == tail@);
        assert(decode_utf8(encode_utf8(cs.skip(k))) == cs.skip(k));
    }
    (head, tail)
}


pub open spec fn is_digit(c: char) -> bool {
    '0' <= c && c <= '9'
}

pub open spec fn digit_value(c: char) -> nat {
    (c as u32 - '0' as u32) as nat
}

/// The decimal character of a digit value below ten.
pub open spec fn digit_char(d: nat) -> char
    recommends
        d < 10,
{
    ((d + '0' as u32) as u32) as char
}

pub open spec fn all_digits(d: Seq<char>) -> bool {
    forall|i: int| 0 <= i < d.len() ==> is_digit(#[trigger] d[i])
}

/// The value of a sequence of decimal digits, most significant first.
pub open spec fn decimal_value(d: Seq<char>) -> nat
    decreases d.len(),
{
    if d.len() == 0 {
        0
    } else {
        decimal_value(d.drop_last()) * 10 + digit_value(d.last())
    }
}

/// The digits of `s` once an optional leading `+` is removed.
pub open spec fn unsigned_digits(s: Seq<char>) -> Seq<char> {
    if s.len() > 0 && s[0] == '+' {
        s.drop_first()
    } else {
        s
    }
}

/// `u64::from_str_radix(s, 10)`: an optional `+` followed by one or more
/// decimal digits whose value fits in a `u64`.
pub open spec fn parse_u64(s: Seq<char>) -> Option<u64> {
    let d = unsigned_digits(s);
    if d.len() > 0 && all_digits(d) && decimal_value(d) <= u64::MAX {
        Some(decimal_value(d) as u64)
    } else {
        None
    }
}

/// The decimal representation of `n`, without sign or leading zeros.
pub open spec fn decimal(n: nat) -> Seq<char>
    decreases n,
{
    if n < 10 {
        seq![digit_char(n)]
    } else {
        decimal(n / 10).push(digit_char(n % 10))
    }
}

proof fn lemma_digit_char(d: nat)
    requires
        d < 10,
    ensures
        is_digit(digit_char(d)),
        digit_value(digit_char(d)) == d,
        digit_char(d) != '+',
        !is_white_space(digit_char(d)),
        digit_char(d) != ' ',
{
}

/// Prefixes of a digit sequence never have a larger value.
proof fn lemma_decimal_value_prefix(d: Seq<char>, n: int)
    requires
        0 <= n <= d.len(),
    ensures
        decimal_value(d.take(n)) <= decimal_value(d),
    decreases d.len(),
{
    if n < d.len() {
        assert(d.drop_last().take(n) =~= d.take(n));
        lemma_decimal_value_prefix(d.drop_last(), n);
    } else {
        assert(d.take(n) =~= d);
    }
}

/// The decimal representation of `n` reads back as `n`.
pub proof fn lemma_decimal_digits(n: nat)
    ensures
        decimal(n).len() > 0,
        all_digits(decimal(n)),
        decimal_value(decimal(n)) == n,
        decimal(n)[0] != '+',
        !is_white_space(decimal(n)[0]),
        !is_white_space(decimal(n).last()),
        index_of_char(decimal(n), ' ') == decimal(n).len(),
    decreases n,
{
    if n < 10 {
        lemma_digit_char(n);
        assert(decimal(n).drop_last() =~= Seq::<char>::empty());
        assert(decimal(n).drop_first() =~= Seq::<char>::empty());
        assert(decimal_value(Seq::<char>::empty()) == 0);
        assert(decimal(n).last() == digit_char(n));
        assert(decimal_value(decimal(n)) == n);
        lemma_char_absent(decimal(n), ' ');
    } else {
        lemma_decimal_digits(n / 10);
        lemma_digit_char(n % 10);
        let p = decimal(n / 10);
        assert(decimal(n).drop_last() =~= p);
        assert(decimal(n)[0] == p[0]);
        assert forall|i: int| 0 <= i < decimal(n).len() implies is_digit(#[trigger] decimal(n)[i]) by {
            if i < p.len() {
                assert(decimal(n)[i] == p[i]);
            }
        }
        assert(decimal(n).last() == digit_char(n % 10));
        assert(decimal_value(decimal(n)) == decimal_value(p) * 10 + digit_value(digit_char(n % 10)));
        assert((n / 10) * 10 + n % 10 == n) by (nonlinear_arith);
        lemma_char_absent(decimal(n), ' ');
    }
}

/// Formatting a `u64` in decimal and parsing it back gives the same value.
pub proof fn lemma_parse_decimal(n: u64)
    ensures
        parse_u64(decimal(n as nat)) == Some(n),
{
    lemma_decimal_digits(n as nat);
}

fn digit_str(d: u64) -> (r: &'static str)
    requires
        d < 10,
    ensures
        r@ == seq![digit_char(d as nat)],
{
    proof {
        reveal_strlit("0");
        reveal_strlit("1");
        reveal_strlit("2");
        reveal_strlit("3");
        reveal_strlit("4");
        reveal_strlit("5");
        reveal_strlit("6");
        reveal_strlit("7");
        reveal_strlit("8");
        reveal_strlit("9");
    }
    if d == 0 {
        "0"
    } else if d == 1 {
        "1"
    } else if d == 2 {
        "2"
    } else if d == 3 {
        "3"
    } else if d == 4 {
        "4"
    } else if d == 5 {
        "5"
    } else if d == 6 {
        "6"
    } else if d == 7 {
        "7"
    } else if d == 8 {
        "8"
    } else {
        "9"
    }
}

/// Appends the decimal representation of `n` to `out`.
pub fn push_decimal(out: &mut String, n: u64)
    ensures
        final(out)@ == old(out)@ + decimal(n as nat),
    decreases n,
{
    if n >= 10 {
        push_decimal(out, n / 10);
    }
    out.append(digit_str(n % 10));
    proof {
        if n >= 10 {
            assert(decimal(n as nat) == decimal((n / 10) as nat).push(digit_char((n % 10) as nat)));
        }
    }
    assert(out@ =~= old(out)@ + decimal(n as nat));
}


proof fn lemma_ascii_char_byte(c: char, b: u8)
    requires
        '\0' <= c <= '\u{7f}',
        c as u8 == b,
    ensures
        c as u32 == b as u32,
        is_digit(c) <==> (48 <= b && b <= 57),
        is_digit(c) ==> digit_value(c) == b - 48,
        (c == '+') <==> (b == 43),
{
    let v = c as u32;
    assert(v <= 0x7f ==> (v as u8) as u32 == v) by (bit_vector);
    if b == 43 {
        vstd::utf8::char_u32_cast(c, 43u32);
    }
}

/// `u64::from_str_radix(s, 10)`, as an `Option`.
pub fn parse_u64_str(s: &str) -> (r: Option<u64>)
    ensures
        r == parse_u64(s@),
{
    let ghost cs = s@;
    let ghost d = unsigned_digits(cs);
    if !s.is_ascii() {
        proof {
            let i = choose|i: int| 0 <= i < cs.len() && !('\0' <= #[trigger] cs[i] <= '\u{7f}');
            if cs.len() > 0 && cs[0] == '+' {
                assert(d[i - 1] == cs[i]);
                assert(!is_digit(d[i - 1]));
            } else {
                assert(!is_digit(d[i]));
            }
        }
        return None;
    }
    let bytes = s.as_bytes();
    proof {
        vstd::utf8::is_ascii_chars_encode_utf8(cs);
    }
    let n = bytes.len();
    let mut start: usize = 0;
    if n > 0 && bytes[0] == 43u8 {
        proof { lemma_ascii_char_byte(cs[0], bytes@[0]); }
        start = 1;
    }
    proof {
        if n > 0 {
            lemma_ascii_char_byte(cs[0], bytes@[0]);
        }
        assert(d =~= cs.skip(start as int));
    }
    if start == n {
        return None;
    }
    let mut v: u64 = 0;
    let mut i: usize = start;
    while i < n
        invariant
            bytes@.len() == n,
            n == cs.len(),
            d == cs.skip(start as int),
            d == unsigned_digits(cs),
            cs == s@,
            start <= i <= n,
            start < n,
            forall|j: int| 0 <= j < n ==> '\0' <= #[trigger] cs[j] <= '\u{7f}' && cs[j] as u8 == bytes@[j],
            all_digits(d.take(i - start)),
            v == decimal_value(d.take(i - start)),
        decreases n - i,
    {
        let b = bytes[i];
        proof { lemma_ascii_char_byte(cs[i as int], b); }
        assert(d[i - start] == cs[i as int]);
        if b < 48u8 || b > 57u8 {
            assert(!is_digit(d[i - start]));
            return None;
        }
        let dv = (b - 48u8) as u64;
        let ghost k = i - start;
        assert(d.take(k + 1).drop_last() =~= d.take(k));
        assert(d.take(k + 1).last() == d[k]);
        assert(is_digit(d[k]) && digit_value(d[k]) == dv);
        assert(decimal_value(d.take(k + 1)) == v * 10 + dv);
        if v > (u64::MAX - dv) / 10 {
            proof {
                assert(v * 10 + dv > u64::MAX) by (nonlinear_arith)
                    requires v > (u64::MAX - dv) / 10, dv <= 9;
                if all_digits(d) {
                    lemma_decimal_value_prefix(d, k + 1);
                }
            }
            return None;
        }
        proof {
            assert(v * 10 + dv <= u64::MAX) by (nonlinear_arith)
                requires v <= (u64::MAX - dv) / 10, dv <= 9;
        }
        v = v * 10 + dv;
        i = i + 1;
        assert forall|j: int| 0 <= j < d.take(k + 1).len() implies is_digit(#[trigger] d.take(k + 1)[j]) by {
            if j < k {
                assert(d.take(k + 1)[j] == d.take(k)[j]);
            }
        }
    }
    assert(d.take(n - start) =~= d);
    Some(v)
}


/// The part of `s` before its first space.
pub open spec fn first_word(s: Seq<char>) -> Seq<char> {
    s.take(index_of_char(s, ' '))
}

/// What follows the first word of `s`, with surrounding whitespace removed.
pub open spec fn after_first_word(s: Seq<char>) -> Seq<char> {
    trim_ws(s.skip(index_of_char(s, ' ')))
}

/// Splits `s` at its first space into the word before it and the trimmed remainder.
pub fn split_first_word(s: &str) -> (r: (&str, &str))
    ensures
        r.0@ == first_word(s@),
        r.1@ == after_first_word(s@),
{
    let (head, tail) = split_at_ascii(s, 32u8);
    assert((32u8 as char) == ' ');
    (head, trim(tail))
}


pub open spec fn all_white_space(s: Seq<char>) -> bool {
    forall|i: int| 0 <= i < s.len() ==> is_white_space(#[trigger] s[i])
}

/// `trim_start_ws` drops a prefix of whitespace and keeps the rest.
pub proof fn lemma_trim_start_shape(s: Seq<char>)
    ensures
        trim_start_ws(s).len() <= s.len(),
        trim_start_ws(s) == s.skip(s.len() - trim_start_ws(s).len()),
        all_white_space(s.take(s.len() - trim_start_ws(s).len())),
        trim_start_ws(s).len() > 0 ==> !is_white_space(trim_start_ws(s)[0]),
    decreases s.len(),
{
    if s.len() > 0 && is_white_space(s[0]) {
        let t = s.drop_first();
        lemma_trim_start_shape(t);
        let k = s.len() - trim_start_ws(s).len();
        assert(t.skip(t.len() - trim_start_ws(t).len()) =~= s.skip(k));
        assert forall|i: int| 0 <= i < k implies is_white_space(#[trigger] s.take(k)[i]) by {
            if i > 0 {
                assert(s.take(k)[i] == t.take(k - 1)[i - 1]);
            }
        }
    } else {
        assert(s.skip(0) =~= s);
    }
}

/// `trim_end_ws` keeps a prefix and drops a suffix of whitespace.
pub proof fn lemma_trim_end_shape(s: Seq<char>)
    ensures
        trim_end_ws(s).len() <= s.len(),
        trim_end_ws(s) == s.take(trim_end_ws(s).len() as int),
        all_white_space(s.skip(trim_end_ws(s).len() as int)),
        trim_end_ws(s).len() > 0 ==> !is_white_space(trim_end_ws(s).last()),
    decreases s.len(),
{
    if s.len() > 0 && is_white_space(s.last()) {
        let t = s.drop_last();
        lemma_trim_end_shape(t);
        let k = trim_end_ws(s).len() as int;
        assert(t.take(k) =~= s.take(k));
        assert forall|i: int| 0 <= i < s.skip(k).len() implies is_white_space(#[trigger] s.skip(k)[i]) by {
            if k + i < s.len() - 1 {
                assert(s.skip(k)[i] == t.skip(k)[i]);
            }
        }
    } else {
        assert(s.take(s.len() as int) =~= s);
        assert(s.skip(s.len() as int) =~= Seq::<char>::empty());
    }
}

pub proof fn lemma_trim_all_white_space(s: Seq<char>)
    requires
        all_white_space(s),
    ensures
        trim_start_ws(s) == Seq::<char>::empty(),
        trim_end_ws(s) == Seq::<char>::empty(),
    decreases s.len(),
{
    if s.len() > 0 {
        assert(is_white_space(s[0]));
        assert(is_white_space(s.last()));
        assert forall|i: int| 0 <= i < s.drop_first().len() implies is_white_space(#[trigger] s.drop_first()[i]) by {
            assert(s.drop_first()[i] == s[i + 1]);
        }
        assert forall|i: int| 0 <= i < s.drop_last().len() implies is_white_space(#[trigger] s.drop_last()[i]) by {
            assert(s.drop_last()[i] == s[i]);
        }
        lemma_trim_all_white_space(s.drop_first());
        lemma_trim_all_white_space(s.drop_last());
    } else {
        assert(s =~= Seq::<char>::empty());
    }
}

pub proof fn lemma_trim_start_concat(x: Seq<char>, y: Seq<char>)
    ensures
        trim_start_ws(x + y) == (if trim_start_ws(x).len() > 0 {
            trim_start_ws(x) + y
        } else {
            trim_start_ws(y)
        }),
    decreases x.len(),
{
    if x.len() == 0 {
        assert(x + y =~= y);
    } else {
        assert((x + y)[0] == x[0]);
        if is_white_space(x[0]) {
            assert((x + y).drop_first() =~= x.drop_first() + y);
            lemma_trim_start_concat(x.drop_first(), y);
        }
    }
}

pub proof fn lemma_trim_end_concat(x: Seq<char>, y: Seq<char>)
    ensures
        trim_end_ws(x + y) == (if trim_end_ws(y).len() > 0 {
            x + trim_end_ws(y)
        } else {
            trim_end_ws(x)
        }),
    decreases y.len(),
{
    if y.len() == 0 {
        assert(x + y =~= x);
    } else {
        assert((x + y).last() == y.last());
        if is_white_space(y.last()) {
            assert((x + y).drop_last() =~= x + y.drop_last());
            lemma_trim_end_concat(x, y.drop_last());
        }
    }
}

/// Removing trailing whitespace first does not change what trimming gives.
pub proof fn lemma_trim_ws_of_trim_end(p: Seq<char>)
    ensures
        trim_ws(trim_end_ws(p)) == trim_ws(p),
{
    let te = trim_end_ws(p);
    lemma_trim_end_shape(p);
    let w = p.skip(te.len() as int);
    assert(p =~= te + w);
    lemma_trim_all_white_space(w);
    lemma_trim_start_concat(te, w);
    if trim_start_ws(te).len() > 0 {
        lemma_trim_end_concat(trim_start_ws(te), w);
    }
}

/// Trimming twice is trimming once.
pub proof fn lemma_trim_ws_idempotent(p: Seq<char>)
    ensures
        trim_ws(trim_ws(p)) == trim_ws(p),
{
    let ts = trim_start_ws(p);
    let t = trim_ws(p);
    lemma_trim_start_shape(p);
    lemma_trim_end_shape(ts);
    if t.len() > 0 {
        assert(t[0] == ts[0]);
        assert(trim_start_ws(t) == t);
        assert(trim_end_ws(t) == t);
    } else {
        assert(t =~= Seq::<char>::empty());
    }
}

/// Text that starts and ends with non-whitespace is left as it is by trimming.
pub proof fn lemma_trim_ws_unchanged(p: Seq<char>)
    requires
        p.len() > 0,
        !is_white_space(p[0]),
        !is_white_space(p.last()),
    ensures
        trim_ws(p) == p,
{
}

pub proof fn lemma_index_of_char_concat(x: Seq<char>, y: Seq<char>, c: char)
    requires
        index_of_char(x, c) == x.len(),
    ensures
        index_of_char(x + y, c) == x.len() + index_of_char(y, c),
    decreases x.len(),
{
    if x.len() == 0 {
        assert(x + y =~= y);
    } else {
        assert((x + y)[0] == x[0]);
        assert((x + y).drop_first() =~= x.drop_first() + y);
        lemma_index_of_char_concat(x.drop_first(), y, c);
    }
}

/// Reading the first word of `decimal(n) ++ " " ++ rest` gives back `n` and
/// the trimmed `rest`.
pub proof fn lemma_words_of_decimal(n: u64, rest: Seq<char>)
    ensures
        first_word(decimal(n as nat) + seq![' '] + rest) == decimal(n as nat),
        parse_u64(first_word(decimal(n as nat) + seq![' '] + rest)) == Some(n),
        after_first_word(decimal(n as nat) + seq![' '] + rest) == trim_ws(rest),
{
    let d = decimal(n as nat);
    let m = d + seq![' '] + rest;
    lemma_decimal_digits(n as nat);
    lemma_parse_decimal(n);
    assert(m =~= d + (seq![' '] + rest));
    lemma_index_of_char_concat(d, seq![' '] + rest, ' ');
    assert((seq![' '] + rest)[0] == ' ');
    assert(m.take(d.len() as int) =~= d);
    assert(m.skip(d.len() as int) =~= seq![' '] + rest);
    lemma_trim_start_concat(seq![' '], rest);
    assert(seq![' '].drop_first() =~= Seq::<char>::empty());
    assert(trim_start_ws(seq![' ']) == trim_start_ws(Seq::<char>::empty()));
}


/// A character that does not occur is found at the end.
pub proof fn lemma_char_absent(s: Seq<char>, c: char)
    requires
        forall|i: int| 0 <= i < s.len() ==> s[i] != c,
    ensures
        index_of_char(s, c) == s.len(),
    decreases s.len(),
{
    if s.len() > 0 {
        assert(s[0] != c);
        assert forall|i: int| 0 <= i < s.drop_first().len() implies s.drop_first()[i] != c by {
            assert(s.drop_first()[i] == s[i + 1]);
        }
        lemma_char_absent(s.drop_first(), c);
    }
}


/// The byte length of the encoding of the first `k` characters never exceeds
/// that of all of them, and is smaller when characters remain.
proof fn lemma_take_len_bound(cs: Seq<char>, k: int)
    requires
        0 <= k <= cs.len(),
    ensures
        encode_utf8(cs.take(k)).len() <= encode_utf8(cs).len(),
        k < cs.len() ==> encode_utf8(cs.take(k)).len() < encode_utf8(cs).len(),
{
    assert(cs =~= cs.take(k) + cs.skip(k));
    lemma_encode_utf8_concat(cs.take(k), cs.skip(k));
    if k < cs.len() {
        lemma_scalar_len(cs.skip(k)[0]);
        assert(encode_utf8(cs.skip(k)) == encode_scalar(cs.skip(k)[0] as u32) + encode_utf8(cs.skip(k).drop_first()));
    }
}

proof fn lemma_take_len_monotone(cs: Seq<char>, a: int, e: int)
    requires
        0 <= a <= e <= cs.len(),
    ensures
        encode_utf8(cs.take(a)).len() <= encode_utf8(cs.take(e)).len(),
        a < e ==> encode_utf8(cs.take(a)).len() < encode_utf8(cs.take(e)).len(),
{
    lemma_take_len_bound(cs.take(e), a);
    assert(cs.take(e).take(a) =~= cs.take(a));
}

proof fn lemma_scalar_len(c: char)
    ensures
        1 <= encode_scalar(c as u32).len() <= 4,
{
}

/// One more character adds the length of its encoding.
proof fn lemma_take_step(cs: Seq<char>, k: int)
    requires
        0 <= k < cs.len(),
    ensures
        encode_utf8(cs.take(k + 1)).len() == encode_utf8(cs.take(k)).len() + encode_scalar(cs[k] as u32).len(),
{
    assert(cs.take(k + 1) =~= cs.take(k) + seq![cs[k]]);
    lemma_encode_utf8_concat(cs.take(k), seq![cs[k]]);
    assert(seq![cs[k]].drop_first() =~= Seq::<char>::empty());
    assert(seq![cs[k]][0] == cs[k]);
    assert(encode_utf8(Seq::<char>::empty()) =~= Seq::<u8>::empty());
    assert(encode_utf8(seq![cs[k]]) =~= encode_scalar(cs[k] as u32));
}

/// The end of the encoding of a prefix is a character boundary.
proof fn lemma_prefix_boundary(cs: Seq<char>, k: int)
    requires
        0 <= k <= cs.len(),
    ensures
        is_char_boundary(encode_utf8(cs), encode_utf8(cs.take(k)).len() as int),
        valid_utf8(encode_utf8(cs)),
{
    let bytes = encode_utf8(cs);
    vstd::utf8::encode_utf8_valid_utf8(cs);
    lemma_take_len_bound(cs, k);
    let p = encode_utf8(cs.take(k)).len() as int;
    if k == cs.len() {
        assert(cs.take(k) =~= cs);
        vstd::utf8::is_char_boundary_start_end_of_seq(bytes);
    } else {
        assert(cs =~= cs.take(k) + cs.skip(k));
        lemma_encode_utf8_concat(cs.take(k), cs.skip(k));
        vstd::utf8::encode_utf8_first_scalar(cs.skip(k));
        let r = encode_utf8(cs.skip(k));
        assert(bytes[p] == r[0]);
        assert(!is_continuation_byte(r[0]));
        vstd::utf8::is_char_boundary_iff_not_is_continuation_byte(bytes, p);
    }
}

/// Decodes the character at index `k`, whose encoding starts at byte `p`:
/// its scalar value and the length of its encoding.
fn decode_at(bytes: &[u8], p: usize, Ghost(cs): Ghost<Seq<char>>, Ghost(k): Ghost<int>) -> (r: (u32, usize))
    requires
        bytes@ == encode_utf8(cs),
        0 <= k < cs.len(),
        p as int == encode_utf8(cs.take(k)).len(),
    ensures
        r.0 == cs[k] as u32,
        r.1 as int == encode_scalar(cs[k] as u32).len(),
        p + r.1 <= bytes@.len(),
{
    proof {
        assert(cs =~= cs.take(k) + cs.skip(k));
        lemma_encode_utf8_concat(cs.take(k), cs.skip(k));
        vstd::utf8::encode_utf8_first_scalar(cs.skip(k));
        lemma_take_step(cs, k);
        lemma_take_len_bound(cs, k + 1);
    }
    let ghost r = encode_utf8(cs.skip(k));
    assert(forall|j: int| 0 <= j < r.len() ==> #[trigger] r[j] == bytes@[p + j]);
    let b0 = bytes[p];
    assert(b0 == r[0]);
    if b0 <= 0x7f {
        ((b0 & 0x7f) as u32, 1)
    } else if b0 >= 0xc0 && b0 <= 0xdf {
        let b1 = bytes[p + 1];
        assert(b1 == r[1]);
        ((((b0 & 0x1f) as u32) << 6) | ((b1 & 0x3f) as u32), 2)
    } else if b0 >= 0xe0 && b0 <= 0xef {
        let b1 = bytes[p + 1];
        let b2 = bytes[p + 2];
        assert(b1 == r[1] && b2 == r[2]);
        ((((b0 & 0x0f) as u32) << 12) | (((b1 & 0x3f) as u32) << 6) | ((b2 & 0x3f) as u32), 3)
    } else {
        let b1 = bytes[p + 1];
        let b2 = bytes[p + 2];
        let b3 = bytes[p + 3];
        assert(b1 == r[1] && b2 == r[2] && b3 == r[3]);
        (
            (((b0 & 0x07) as u32) << 18) | (((b1 & 0x3f) as u32) << 12) | (((b2 & 0x3f) as u32) << 6) | ((
            b3 & 0x3f) as u32),
            4,
        )
    }
}

/// Whether the character with scalar value `v` has the `White_Space` property.
fn is_white_space_code(v: u32, Ghost(c): Ghost<char>) -> (r: bool)
    requires
        v == c as u32,
    ensures
        r == is_white_space(c),
{
    (0x9 <= v && v <= 0xd) || v == 0x20 || v == 0x85 || v == 0xa0 || v == 0x1680 || (0x2000 <= v && v
        <= 0x200a) || v == 0x2028 || v == 0x2029 || v == 0x202f || v == 0x205f || v == 0x3000
}

/// Trimming removes exactly the leading and the trailing whitespace: when
/// `s[..a]` and `s[e..]` are whitespace and `s[a]`, `s[e - 1]` are not (or
/// `a == e` and all of `s` is whitespace), the trimmed text is `s[a..e]`.
pub proof fn lemma_trim_by_bounds(s: Seq<char>, a: int, e: int)
    requires
        0 <= a <= e <= s.len(),
        all_white_space(s.take(a)),
        all_white_space(s.subrange(e, s.len() as int)),
        a < e ==> !is_white_space(s[a]) && !is_white_space(s[e - 1]),
        a == e ==> all_white_space(s),
    ensures
        trim_ws(s) == s.subrange(a, e),
{
    lemma_trim_start_shape(s);
    let ts = trim_start_ws(s);
    let a2 = s.len() - ts.len();
    if a == e {
        lemma_trim_all_white_space(s);
        assert(trim_ws(s) =~= s.subrange(a, e));
    } else {
        // the leading whitespace ends at a
        if a2 < a {
            assert(!is_white_space(ts[0]));
            assert(ts[0] == s[a2]);
            assert(s.take(a)[a2] == s[a2]);
        }
        if a2 > a {
            assert(s.take(a2)[a] == s[a]);
        }
        assert(a2 == a);
        assert(ts =~= s.skip(a));
        lemma_trim_end_shape(ts);
        let te = trim_end_ws(ts);
        let e2 = a + te.len();
        if e2 < e {
            assert(ts.skip(te.len() as int)[e - 1 - e2] == s[e - 1]);
        }
        if e2 > e {
            assert(te.last() == s[e2 - 1]);
            assert(s.subrange(e, s.len() as int)[e2 - 1 - e] == s[e2 - 1]);
        }
        assert(e2 == e);
        assert(te =~= s.subrange(a, e));
    }
}

/// Trimming removes exactly the leading and trailing whitespace of `s`: the
/// result is the part of `s` between a whitespace prefix and a whitespace
/// suffix, and it neither starts nor ends with whitespace.
pub proof fn law_trim_removes_surrounding_white_space(s: Seq<char>)
    ensures
        exists|a: int, e: int|
            #![trigger s.subrange(a, e)]
            0 <= a <= e <= s.len() && all_white_space(s.take(a)) && all_white_space(
                s.subrange(e, s.len() as int),
            ) && trim_ws(s) == s.subrange(a, e),
        trim_ws(s).len() > 0 ==> !is_white_space(trim_ws(s)[0]) && !is_white_space(trim_ws(s).last()),
{
    lemma_trim_start_shape(s);
    let ts = trim_start_ws(s);
    let a = s.len() - ts.len();
    lemma_trim_end_shape(ts);
    let te = trim_end_ws(ts);
    let e = a + te.len();
    assert(te =~= s.subrange(a, e));
    assert(ts.skip(te.len() as int) =~= s.subrange(e, s.len() as int));
    if te.len() > 0 {
        assert(te[0] == ts[0]);
    }
    assert(trim_ws(s) == s.subrange(a, e));
}

} // verus!
