//! Byte-level text helpers: buffer appends, decimal parsing and formatting,
//! and `key=value` lookup in `&`-separated query strings.

use vstd::prelude::*;
use vstd::string::StringSliceAdditionalSpecFns;

verus! {

/// ASCII code of `'0'`.
pub const ZERO: u8 = 48;

/// `b` is an ASCII decimal digit.
pub open spec fn is_digit(b: u8) -> bool {
    48 <= b <= 57
}

/// Every byte of `s` is an ASCII decimal digit.
pub open spec fn all_digits(s: Seq<u8>) -> bool {
    forall|i: int| 0 <= i < s.len() ==> is_digit(#[trigger] s[i])
}

/// The number written in decimal by the digits of `s` (the empty text counts as zero).
pub open spec fn decimal_value(s: Seq<u8>) -> nat
    decreases s.len(),
{
    if s.len() == 0 {
        0
    } else {
        decimal_value(s.drop_last()) * 10 + (s.last() - 48) as nat
    }
}

/// The canonical decimal text of `n`: no leading zeros, and `"0"` for zero.
pub open spec fn decimal_digits(n: nat) -> Seq<u8>
    decreases n,
{
    if n < 10 {
        seq![(48 + n) as u8]
    } else {
        decimal_digits(n / 10).push((48 + n % 10) as u8)
    }
}

/// Ten to the power `k`.
pub open spec fn pow10(k: nat) -> nat
    decreases k,
{
    if k == 0 {
        1
    } else {
        10 * pow10((k - 1) as nat)
    }
}

/// `buf` after `data` has been written over it starting at `pos`.
pub open spec fn spliced(buf: Seq<u8>, pos: int, data: Seq<u8>) -> Seq<u8> {
    buf.subrange(0, pos) + data + buf.subrange(pos + data.len(), buf.len() as int)
}

/// A digit prefix of a digit text never has a larger value than the whole text.
pub proof fn lemma_decimal_prefix_le(s: Seq<u8>, k: int)
    requires
        all_digits(s),
        0 <= k <= s.len(),
    ensures
        decimal_value(s.take(k)) <= decimal_value(s),
    decreases s.len(),
{
    if k == s.len() {
        assert(s.take(k) =~= s);
    } else {
        let t = s.drop_last();
        assert(all_digits(t)) by {
            assert forall|i: int| 0 <= i < t.len() implies is_digit(#[trigger] t[i]) by {
                assert(t[i] == s[i]);
            }
        }
        lemma_decimal_prefix_le(t, k);
        assert(t.take(k) =~= s.take(k));
    }
}

/// The value of a digit prefix grows by one decimal place per digit.
pub proof fn lemma_decimal_take_step(s: Seq<u8>, i: int)
    requires
        0 <= i < s.len(),
    ensures
        decimal_value(s.take(i + 1)) == decimal_value(s.take(i)) * 10 + (s[i] - 48) as nat,
{
    assert(s.take(i + 1).drop_last() =~= s.take(i));
}

/// The canonical decimal text of a number below `10^k` has at most `k` digits.
pub proof fn lemma_decimal_digits_len(n: nat, k: nat)
    requires
        k >= 1,
        n < pow10(k),
    ensures
        decimal_digits(n).len() <= k,
    decreases n,
{
    if n >= 10 {
        assert(k >= 2) by {
            if k == 1 {
                assert(pow10(1) == 10) by {
                    assert(pow10(0) == 1);
                }
            }
        }
        assert(n / 10 < pow10((k - 1) as nat)) by (nonlinear_arith)
            requires
                n < pow10(k),
                pow10(k) == 10 * pow10((k - 1) as nat),
        ;
        lemma_decimal_digits_len(n / 10, (k - 1) as nat);
    }
}

/// Canonical decimal digits are digits, start with a non-zero digit unless the number is zero,
/// and read back as the number they were made from.
pub proof fn lemma_decimal_digits_roundtrip(n: nat)
    ensures
        all_digits(decimal_digits(n)),
        decimal_digits(n).len() >= 1,
        decimal_value(decimal_digits(n)) == n,
    decreases n,
{
    if n >= 10 {
        lemma_decimal_digits_roundtrip(n / 10);
        let d = decimal_digits(n);
        assert(d.drop_last() =~= decimal_digits(n / 10));
        assert(d.last() == (48 + n % 10) as u8);
        assert(((48 + n % 10) as u8) as int == 48 + n % 10);
        assert(n == (n / 10) * 10 + n % 10);
        assert(decimal_value(d) == decimal_value(d.drop_last()) * 10 + (d.last() - 48) as nat);
        assert(decimal_value(d) == (n / 10) * 10 + n % 10);
        assert forall|i: int| 0 <= i < d.len() implies is_digit(#[trigger] d[i]) by {
            if i < d.len() - 1 {
                assert(d[i] == decimal_digits(n / 10)[i]);
            }
        }
    } else {
        let d = decimal_digits(n);
        assert(d.drop_last() =~= Seq::<u8>::empty());
        assert(d.last() as int == 48 + n);
        assert(decimal_value(d) == decimal_value(d.drop_last()) * 10 + (d.last() - 48) as nat);
        assert(decimal_value(d.drop_last()) == 0);
    }
}

/// The largest `u64` has twenty decimal digits.
pub proof fn lemma_u64_digits_len(n: u64)
    ensures
        decimal_digits(n as nat).len() <= 20,
{
    reveal_with_fuel(pow10, 21);
    assert(pow10(20) == 100000000000000000000nat);
    lemma_decimal_digits_len(n as nat, 20);
}

/// The largest `u32` has ten decimal digits.
pub proof fn lemma_u32_digits_len(n: u32)
    ensures
        decimal_digits(n as nat).len() <= 10,
{
    reveal_with_fuel(pow10, 11);
    assert(pow10(10) == 10000000000nat);
    lemma_decimal_digits_len(n as nat, 10);
}

/// What `format_u64` (or `format_u32`) writes for `n` is read back as `n` by `parse_u64`: it is
/// all digits and its value is `n`.
pub proof fn lemma_format_parse_roundtrip(n: u64)
    ensures
        all_digits(decimal_digits(n as nat)),
        decimal_value(decimal_digits(n as nat)) == n,
        decimal_value(decimal_digits(n as nat)) <= u64::MAX,
{
    lemma_decimal_digits_roundtrip(n as nat);
}

/// Appending `a` at `pos` and then `b` where the first append ended writes `a` followed by `b`.
pub proof fn lemma_append_chain(buf: Seq<u8>, pos: int, a: Seq<u8>, b: Seq<u8>)
    requires
        0 <= pos,
        pos + a.len() + b.len() <= buf.len(),
    ensures
        spliced(spliced(buf, pos, a), pos + a.len(), b) == spliced(buf, pos, a + b),
{
    assert(spliced(spliced(buf, pos, a), pos + a.len(), b) =~= spliced(buf, pos, a + b));
}

/// Copies `data` into `buf` starting at `pos` and returns the position just past it.
pub fn append_bytes(buf: &mut [u8], pos: usize, data: &[u8]) -> (end: usize)
    requires
        pos + data@.len() <= old(buf)@.len(),
    ensures
        end == pos + data@.len(),
        final(buf)@ == spliced(old(buf)@, pos as int, data@),
{
    let blen = buf.len();
    let mut i: usize = 0;
    while i < data.len()
        invariant
            i <= data@.len(),
            pos + data@.len() <= blen,
            blen == old(buf)@.len(),
            buf@.len() == old(buf)@.len(),
            forall|k: int| 0 <= k < pos ==> buf@[k] == old(buf)@[k],
            forall|k: int| 0 <= k < i ==> buf@[pos + k] == data@[k],
            forall|k: int| pos + i <= k < buf@.len() ==> buf@[k] == old(buf)@[k],
        decreases data@.len() - i,
    {
        buf[pos + i] = data[i];
        i = i + 1;
    }
    assert(buf@ =~= spliced(old(buf)@, pos as int, data@));
    pos + data.len()
}

/// Reads `s` as an unsigned decimal number. Every byte must be a digit and the value must fit
/// in a `u64`; the empty text reads as zero.
pub fn parse_u64(s: &str) -> (res: Result<u64, ()>)
    ensures
        res is Ok <==> all_digits(s.spec_bytes()) && decimal_value(s.spec_bytes()) <= u64::MAX,
        res matches Ok(v) ==> v == decimal_value(s.spec_bytes()),
{
    let bytes = s.as_bytes();
    let ghost b = bytes@;
    let mut n: u64 = 0;
    let mut i: usize = 0;
    assert(b.take(0) =~= Seq::<u8>::empty());
    while i < bytes.len()
        invariant
            b == bytes@,
            b == s.spec_bytes(),
            i <= b.len(),
            all_digits(b.take(i as int)),
            n == decimal_value(b.take(i as int)),
        decreases b.len() - i,
    {
        let c = bytes[i];
        if c < ZERO || c > 57 {
            return Err(());
        }
        proof {
            lemma_decimal_take_step(b, i as int);
            assert(all_digits(b.take(i + 1))) by {
                assert forall|k: int| 0 <= k < i + 1 implies is_digit(#[trigger] b.take(i + 1)[k]) by {
                    if k < i {
                        assert(b.take(i + 1)[k] == b.take(i as int)[k]);
                    }
                }
            }
        }
        match n.checked_mul(10) {
            None => {
                proof {
                    if all_digits(b) {
                        lemma_decimal_prefix_le(b, i + 1);
                    }
                }
                return Err(());
            },
            Some(m) => match m.checked_add((c - ZERO) as u64) {
                None => {
                    proof {
                        if all_digits(b) {
                            lemma_decimal_prefix_le(b, i + 1);
                        }
                    }
                    return Err(());
                },
                Some(v) => {
                    n = v;
                },
            },
        }
        i = i + 1;
    }
    assert(b.take(i as int) =~= b);
    Ok(n)
}

/// Writes the decimal text of `n` to the front of `buf` and returns its length.
///
/// For a non-zero `n` the digits are first laid down at the back of `buf` and then moved to the
/// front, so the bytes past the text hold either their old value or the tail of that copy.
pub fn format_u64(n: u64, buf: &mut [u8; 20]) -> (len: usize)
    ensures
        len == decimal_digits(n as nat).len(),
        final(buf)@.subrange(0, len as int) == decimal_digits(n as nat),
        n == 0 ==> final(buf)@.subrange(1, 20) == old(buf)@.subrange(1, 20),
        n > 0 ==> forall|k: int|
            len <= k < 20 ==> #[trigger] final(buf)@[k] == if k < 20 - len {
                old(buf)@[k]
            } else {
                decimal_digits(n as nat)[k - (20 - len)]
            },
{
    let ghost digits = decimal_digits(n as nat);
    proof {
        lemma_u64_digits_len(n);
    }
    if n == 0 {
        buf[0] = ZERO;
        assert(buf@.subrange(0, 1) =~= digits);
        assert(buf@.subrange(1, 20) =~= old(buf)@.subrange(1, 20));
        return 1;
    }
    let mut m: u64 = n;
    let mut i: usize = 20;
    while m > 0
        invariant
            i <= 20,
            buf@.len() == 20,
            digits == decimal_digits(n as nat),
            digits.len() <= 20,
            m > 0 ==> digits =~= decimal_digits(m as nat) + buf@.subrange(i as int, 20),
            m == 0 ==> digits =~= buf@.subrange(i as int, 20),
            forall|k: int| 0 <= k < i ==> buf@[k] == old(buf)@[k],
        decreases m,
    {
        proof {
            lemma_decimal_digits_roundtrip(m as nat);
        }
        let d: u8 = (m % 10) as u8;
        i = i - 1;
        buf[i] = ZERO + d;
        let ghost prev = m;
        m = m / 10;
        proof {
            if prev >= 10 {
                assert(decimal_digits(prev as nat) =~= decimal_digits(m as nat).push((48 + prev % 10) as u8));
            }
        }
    }
    let len: usize = 20 - i;
    let ghost mid = buf@;
    let mut k: usize = 0;
    while k < len
        invariant
            i + len == 20,
            k <= len,
            buf@.len() == 20,
            mid.len() == 20,
            forall|j: int| 0 <= j < k ==> buf@[j] == mid[i + j],
            forall|j: int| k <= j < 20 ==> buf@[j] == mid[j],
        decreases len - k,
    {
        let v = buf[i + k];
        buf[k] = v;
        k = k + 1;
    }
    assert(buf@.subrange(0, len as int) =~= digits);
    len
}

/// Writes the decimal text of `n` to the back of `buf` and returns that text.
/// Zero is answered with a constant text and leaves `buf` untouched.
pub fn format_u32(n: u32, buf: &mut [u8; 10]) -> (text: &[u8])
    ensures
        text@ == decimal_digits(n as nat),
        n == 0 ==> final(buf)@ == old(buf)@,
        n > 0 ==> final(buf)@ == old(buf)@.subrange(0, 10 - text@.len()) + text@,
{
    let ghost digits = decimal_digits(n as nat);
    proof {
        lemma_u32_digits_len(n);
    }
    if n == 0 {
        proof {
            reveal_strlit("0");
            vstd::string::is_ascii_spec_bytes("0");
        }
        let zero = "0".as_bytes();
        assert(zero@ =~= digits);
        return zero;
    }
    let mut m: u32 = n;
    let mut i: usize = 10;
    while m > 0
        invariant
            i <= 10,
            buf@.len() == 10,
            digits == decimal_digits(n as nat),
            digits.len() <= 10,
            m > 0 ==> digits =~= decimal_digits(m as nat) + buf@.subrange(i as int, 10),
            m == 0 ==> digits =~= buf@.subrange(i as int, 10),
            forall|k: int| 0 <= k < i ==> buf@[k] == old(buf)@[k],
        decreases m,
    {
        proof {
            lemma_decimal_digits_roundtrip(m as nat);
        }
        let d: u8 = (m % 10) as u8;
        i = i - 1;
        buf[i] = ZERO + d;
        let ghost prev = m;
        m = m / 10;
        proof {
            if prev >= 10 {
                assert(decimal_digits(prev as nat) =~= decimal_digits(m as nat).push((48 + prev % 10) as u8));
            }
        }
    }
    assert(buf@ =~= old(buf)@.subrange(0, i as int) + digits);
    vstd::slice::slice_subrange(buf.as_slice(), i, 10)
}

/// ASCII code of `'&'`, the separator between query parameters.
pub const AMPERSAND: u8 = 38;

/// ASCII code of `'='`, the separator between a parameter's key and value.
pub const EQUALS: u8 = 61;

/// Length of the first `sep`-separated segment of `s`: the index of the first `sep`, or the
/// whole length when `s` holds none.
pub open spec fn seg_len(s: Seq<u8>, sep: u8) -> nat
    decreases s.len(),
{
    if s.len() == 0 {
        0
    } else if s[0] == sep {
        0
    } else {
        1 + seg_len(s.drop_first(), sep)
    }
}

/// `seg_len` is the position of the first separator, or the length when there is none.
pub proof fn lemma_seg_len(s: Seq<u8>, sep: u8, m: int)
    requires
        0 <= m <= s.len(),
        forall|i: int| 0 <= i < m ==> s[i] != sep,
        m == s.len() || s[m] == sep,
    ensures
        seg_len(s, sep) == m,
    decreases s.len(),
{
    if s.len() > 0 && m > 0 {
        assert forall|i: int| 0 <= i < m - 1 implies s.drop_first()[i] != sep by {
            assert(s.drop_first()[i] == s[i + 1]);
        }
        lemma_seg_len(s.drop_first(), sep, m - 1);
    }
}

/// The segment `seg` names `key`: it starts with `key` followed by `'='`.
pub open spec fn param_matches(seg: Seq<u8>, key: Seq<u8>) -> bool {
    &&& seg.len() > key.len()
    &&& seg.take(key.len() as int) == key
    &&& seg[key.len() as int] == EQUALS
}

/// The value of the first `&`-separated segment of `query` that names `key`, if any.
pub open spec fn param_value(query: Seq<u8>, key: Seq<u8>) -> Option<Seq<u8>>
    decreases query.len(),
{
    let e = seg_len(query, AMPERSAND) as int;
    let seg = query.take(e);
    if param_matches(seg, key) {
        Some(seg.skip(key.len() as int + 1))
    } else if e >= query.len() {
        None
    } else {
        param_value(query.skip(e + 1), key)
    }
}

/// `seg_len` never exceeds the length of the text.
pub proof fn lemma_seg_len_bound(s: Seq<u8>, sep: u8)
    ensures
        seg_len(s, sep) <= s.len(),
        seg_len(s, sep) < s.len() ==> s[seg_len(s, sep) as int] == sep,
        forall|i: int| 0 <= i < seg_len(s, sep) ==> s[i] != sep,
    decreases s.len(),
{
    if s.len() > 0 && s[0] != sep {
        lemma_seg_len_bound(s.drop_first(), sep);
        assert forall|i: int| 0 <= i < seg_len(s, sep) implies s[i] != sep by {
            if i > 0 {
                assert(s[i] == s.drop_first()[i - 1]);
            }
        }
    }
}

/// In valid UTF-8, the position of an ASCII byte and the position just after it are
/// character boundaries.
pub proof fn lemma_ascii_boundaries(bytes: Seq<u8>, i: int)
    requires
        vstd::utf8::valid_utf8(bytes),
        0 <= i < bytes.len(),
        bytes[i] < 128,
    ensures
        vstd::utf8::is_char_boundary(bytes, i),
        vstd::utf8::is_char_boundary(bytes, i + 1),
{
    vstd::utf8::is_char_boundary_iff_not_is_continuation_byte(bytes, i);
    if i + 1 == bytes.len() {
        vstd::utf8::is_char_boundary_start_end_of_seq(bytes);
    } else {
        vstd::utf8::valid_utf8_split(bytes, i);
        let tail = bytes.subrange(i, bytes.len() as int);
        assert(tail[0] == bytes[i]);
        assert(vstd::utf8::pop_first_scalar(tail) =~= bytes.subrange(i + 1, bytes.len() as int));
        let rest = bytes.subrange(i + 1, bytes.len() as int);
        assert(vstd::utf8::valid_utf8(rest));
        assert(rest[0] == bytes[i + 1]);
        vstd::utf8::is_char_boundary_iff_not_is_continuation_byte(bytes, i + 1);
    }
}

/// The bytes `s[from..to]` of `s`, both ends being character boundaries.
pub(crate) fn substr(s: &str, from: usize, to: usize) -> (r: &str)
    requires
        from <= to <= s.spec_bytes().len(),
        vstd::utf8::is_char_boundary(s.spec_bytes(), from as int),
        vstd::utf8::is_char_boundary(s.spec_bytes(), to as int),
    ensures
        r.spec_bytes() == s.spec_bytes().subrange(from as int, to as int),
{
    let ghost b = s.spec_bytes();
    proof {
        vstd::utf8::encode_utf8_valid_utf8(s@);
    }
    let (_, tail) = s.split_at(from);
    proof {
        vstd::utf8::encode_utf8_valid_utf8(tail@);
        let t = tail.spec_bytes();
        assert(t =~= b.subrange(from as int, b.len() as int));
        if to < b.len() {
            let k = (to - from) as int;
            // `to` is a boundary of `s`, so the byte there is not a continuation byte.
            vstd::utf8::is_char_boundary_iff_not_is_continuation_byte(b, to as int);
            assert(t[k] == b[to as int]);
            vstd::utf8::is_char_boundary_iff_not_is_continuation_byte(t, k);
        } else {
            vstd::utf8::is_char_boundary_start_end_of_seq(t);
        }
    }
    let (head, _) = tail.split_at(to - from);
    assert(head.spec_bytes() =~= b.subrange(from as int, to as int));
    head
}

/// The two byte strings are equal.
pub fn bytes_eq(a: &[u8], b: &[u8]) -> (r: bool)
    ensures
        r == (a@ == b@),
{
    if a.len() != b.len() {
        return false;
    }
    let mut i: usize = 0;
    while i < a.len()
        invariant
            a@.len() == b@.len(),
            i <= a@.len(),
            forall|k: int| 0 <= k < i ==> a@[k] == b@[k],
        decreases a@.len() - i,
    {
        if a[i] != b[i] {
            return false;
        }
        i = i + 1;
    }
    assert(a@ =~= b@);
    true
}

/// The two strings are equal.
pub fn str_eq(a: &str, b: &str) -> (r: bool)
    ensures
        r == (a@ == b@),
{
    let r = bytes_eq(a.as_bytes(), b.as_bytes());
    proof {
        vstd::utf8::encode_utf8_decode_utf8(a@);
        vstd::utf8::encode_utf8_decode_utf8(b@);
    }
    r
}

/// Appends the bytes of `s` to `out`.
pub fn push_bytes(out: &mut Vec<u8>, s: &[u8])
    ensures
        final(out)@ == old(out)@ + s@,
{
    let mut i: usize = 0;
    while i < s.len()
        invariant
            i <= s@.len(),
            out@ == old(out)@ + s@.take(i as int),
        decreases s@.len() - i,
    {
        out.push(s[i]);
        assert(s@.take(i + 1) =~= s@.take(i as int).push(s@[i as int]));
        i = i + 1;
    }
    assert(s@.take(i as int) =~= s@);
}

/// Index of the first `sep` in `bytes[start..]`, or the length when there is none.
pub(crate) fn find_byte(bytes: &[u8], start: usize, sep: u8) -> (end: usize)
    requires
        start <= bytes@.len(),
    ensures
        end == start + seg_len(bytes@.skip(start as int), sep),
        start <= end <= bytes@.len(),
{
    let mut j = start;
    while j < bytes.len() && bytes[j] != sep
        invariant
            start <= j <= bytes@.len(),
            forall|k: int| start <= k < j ==> bytes@[k] != sep,
        decreases bytes@.len() - j,
    {
        j = j + 1;
    }
    proof {
        let rest = bytes@.skip(start as int);
        assert forall|i: int| 0 <= i < j - start implies rest[i] != sep by {
            assert(rest[i] == bytes@[start + i]);
        }
        if j < bytes@.len() {
            assert(rest[j - start] == bytes@[j as int]);
        }
        lemma_seg_len(rest, sep, j - start);
    }
    j
}

/// `bytes[start..end]` names `key`: it starts with `key` followed by `'='`.
fn segment_names(bytes: &[u8], start: usize, end: usize, key: &[u8]) -> (r: bool)
    requires
        start <= end <= bytes@.len(),
    ensures
        r == param_matches(bytes@.subrange(start as int, end as int), key@),
{
    let ghost seg = bytes@.subrange(start as int, end as int);
    if end - start <= key.len() {
        return false;
    }
    let mut i: usize = 0;
    while i < key.len()
        invariant
            i <= key@.len(),
            key@.len() < end - start,
            start <= end <= bytes@.len(),
            seg == bytes@.subrange(start as int, end as int),
            forall|k: int| 0 <= k < i ==> seg[k] == key@[k],
        decreases key@.len() - i,
    {
        if bytes[start + i] != key[i] {
            assert(seg.take(key@.len() as int)[i as int] != key@[i as int]);
            return false;
        }
        i = i + 1;
    }
    assert(seg.take(key@.len() as int) =~= key@);
    bytes[start + key.len()] == EQUALS
}

/// The value of the first `&`-separated parameter of `query` whose key is `key`.
pub fn parse_param<'a>(query: &'a str, key: &str) -> (res: Option<&'a str>)
    ensures
        res is Some <==> param_value(query.spec_bytes(), key.spec_bytes()) is Some,
        res matches Some(v) ==> v.spec_bytes() == param_value(query.spec_bytes(), key.spec_bytes())->0,
{
    let q = query.as_bytes();
    let k = key.as_bytes();
    let ghost qb = q@;
    proof {
        vstd::utf8::encode_utf8_valid_utf8(query@);
    }
    let mut start: usize = 0;
    assert(qb.skip(0) =~= qb);
    loop
        invariant
            qb == q@,
            qb == query.spec_bytes(),
            k@ == key.spec_bytes(),
            vstd::utf8::valid_utf8(qb),
            start <= qb.len(),
            start == 0 || qb[start - 1] == AMPERSAND,
            param_value(qb, k@) == param_value(qb.skip(start as int), k@),
        decreases qb.len() - start,
    {
        let end = find_byte(q, start, AMPERSAND);
        let ghost rest = qb.skip(start as int);
        proof {
            lemma_seg_len_bound(rest, AMPERSAND);
            assert(rest.take(end - start) =~= qb.subrange(start as int, end as int));
        }
        if segment_names(q, start, end, k) {
            let from = start + k.len() + 1;
            proof {
                lemma_ascii_boundaries(qb, from - 1);
                if end < qb.len() {
                    assert(qb[end as int] == rest[end - start]);
                    lemma_ascii_boundaries(qb, end as int);
                } else {
                    vstd::utf8::is_char_boundary_start_end_of_seq(qb);
                }
                assert(rest.take(end - start).skip(k@.len() as int + 1) =~= qb.subrange(from as int, end as int));
            }
            return Some(substr(query, from, end));
        }
        if end == q.len() {
            return None;
        }
        proof {
            assert(qb[end as int] == rest[end - start]);
            assert(rest.skip(end - start + 1) =~= qb.skip(end + 1));
        }
        start = end + 1;
    }
}

} // verus!
