//! Lookup of a partition's offset and size in an ESP-IDF partition table written as CSV.
//!
//! Each line of the table is `name, type, subtype, offset, size[, flags]`; lines that are empty
//! or start with `#` are skipped. Offsets and sizes are hexadecimal, with an optional `0x`/`0X`.

use vstd::prelude::*;
use vstd::string::StringSliceAdditionalSpecFns;

use crate::text::{find_byte, lemma_seg_len, lemma_seg_len_bound, seg_len};

verus! {

/// ASCII line feed, the separator between table lines.
pub const NEWLINE: u8 = 10;

/// ASCII comma, the separator between the fields of a line.
pub const COMMA: u8 = 44;

/// ASCII space, skipped before each field.
pub const SPACE: u8 = 32;

/// ASCII `'#'`, which starts a comment line.
pub const HASH: u8 = 35;

/// The number of spaces at the start of `s`.
pub open spec fn leading_spaces(s: Seq<u8>) -> nat
    decreases s.len(),
{
    if s.len() > 0 && s[0] == SPACE {
        1 + leading_spaces(s.drop_first())
    } else {
        0
    }
}

/// `s` without its leading spaces.
pub open spec fn trim_start(s: Seq<u8>) -> Seq<u8> {
    s.skip(leading_spaces(s) as int)
}

/// The value of one hexadecimal digit; any other byte counts as zero.
pub open spec fn hex_digit_value(b: u8) -> nat {
    if 48 <= b <= 57 {
        (b - 48) as nat
    } else if 97 <= b <= 102 {
        (b - 87) as nat
    } else if 65 <= b <= 70 {
        (b - 55) as nat
    } else {
        0
    }
}

/// The value of `s` read as hexadecimal digits, most significant first; every byte is one
/// place, a byte that is not a hexadecimal digit being a zero digit.
pub open spec fn hex_digits_value(s: Seq<u8>) -> nat
    decreases s.len(),
{
    if s.len() == 0 {
        0
    } else {
        hex_digits_value(s.drop_last()) * 16 + hex_digit_value(s.last())
    }
}

/// `s` starts with `0x` or `0X` and has at least one byte after it.
pub open spec fn has_hex_prefix(s: Seq<u8>) -> bool {
    s.len() > 2 && s[0] == 48 && (s[1] == 120 || s[1] == 88)
}

/// The value of a hexadecimal field, with its `0x`/`0X` prefix dropped when it has one.
pub open spec fn hex_value(s: Seq<u8>) -> nat {
    if has_hex_prefix(s) {
        hex_digits_value(s.skip(2))
    } else {
        hex_digits_value(s)
    }
}

/// Field `k` (counting from zero) of a comma-separated line; empty when the line has fewer
/// fields.
pub open spec fn field(line: Seq<u8>, k: nat) -> Seq<u8>
    decreases k,
{
    let e = seg_len(line, COMMA) as int;
    if k == 0 {
        line.take(e)
    } else if e >= line.len() {
        Seq::<u8>::empty()
    } else {
        field(line.skip(e + 1), (k - 1) as nat)
    }
}

/// A table line that is neither empty nor a comment.
pub open spec fn is_entry(line: Seq<u8>) -> bool {
    line.len() > 0 && line[0] != HASH
}

/// A table entry whose first field, after leading spaces, is exactly `name`.
pub open spec fn entry_named(line: Seq<u8>, name: Seq<u8>) -> bool {
    is_entry(line) && trim_start(field(line, 0)) == name
}

/// The offset field (the fourth) of a line.
pub open spec fn entry_offset(line: Seq<u8>) -> nat {
    hex_value(trim_start(field(line, 3)))
}

/// The size field (the fifth) of a line.
pub open spec fn entry_size(line: Seq<u8>) -> nat {
    hex_value(trim_start(field(line, 4)))
}

/// Offset and size of the first entry of `csv` named `name`, or `(0, 0)` when there is none.
pub open spec fn partition_lookup(csv: Seq<u8>, name: Seq<u8>) -> (nat, nat)
    decreases csv.len(),
{
    let e = seg_len(csv, NEWLINE) as int;
    let line = csv.take(e);
    if entry_named(line, name) {
        (entry_offset(line), entry_size(line))
    } else if e >= csv.len() {
        (0, 0)
    } else {
        partition_lookup(csv.skip(e + 1), name)
    }
}

/// Every entry read by the lookup of `name`, up to and including the match, has an offset
/// and a size that fit in a `usize`.
pub open spec fn lookup_fits(csv: Seq<u8>, name: Seq<u8>) -> bool
    decreases csv.len(),
{
    let e = seg_len(csv, NEWLINE) as int;
    let line = csv.take(e);
    &&& is_entry(line) ==> entry_offset(line) <= usize::MAX && entry_size(line) <= usize::MAX
    &&& (entry_named(line, name) || e >= csv.len() || lookup_fits(csv.skip(e + 1), name))
}

/// A line followed by a line break, at the front of a table, is read as one line: the lookup
/// sees exactly `line` and then goes on with `rest`.
proof fn lemma_front_line(line: Seq<u8>, rest: Seq<u8>)
    requires
        forall|i: int| 0 <= i < line.len() ==> line[i] != NEWLINE,
    ensures
        ({
            let s = line + seq![NEWLINE] + rest;
            &&& seg_len(s, NEWLINE) == line.len()
            &&& s.take(line.len() as int) == line
            &&& s.skip(line.len() as int + 1) == rest
            &&& line.len() < s.len()
        }),
{
    let s = line + seq![NEWLINE] + rest;
    assert forall|i: int| 0 <= i < line.len() implies s[i] != NEWLINE by {
        assert(s[i] == line[i]);
    }
    assert(s[line.len() as int] == NEWLINE);
    lemma_seg_len(s, NEWLINE, line.len() as int);
    assert(s.take(line.len() as int) =~= line);
    assert(s.skip(line.len() as int + 1) =~= rest);
}

/// Lines before the first entry named `name` do not change the lookup, whatever they hold:
/// comments, blank lines and other entries are passed over and the lookup goes on with the
/// rest of the table.
pub proof fn lemma_lookup_skips_line(line: Seq<u8>, rest: Seq<u8>, name: Seq<u8>)
    requires
        forall|i: int| 0 <= i < line.len() ==> line[i] != NEWLINE,
        !entry_named(line, name),
    ensures
        partition_lookup(line + seq![NEWLINE] + rest, name) == partition_lookup(rest, name),
{
    lemma_front_line(line, rest);
}

/// A blank line anywhere before the entry does not change the lookup: prefixing a table with
/// a line break gives the same result.
pub proof fn lemma_lookup_blank_line(csv: Seq<u8>, name: Seq<u8>)
    ensures
        partition_lookup(seq![NEWLINE] + csv, name) == partition_lookup(csv, name),
{
    let empty = Seq::<u8>::empty();
    assert(!is_entry(empty));
    lemma_lookup_skips_line(empty, csv, name);
    assert(empty + seq![NEWLINE] + csv =~= seq![NEWLINE] + csv);
}

/// The first entry named `name` decides the lookup: its offset and size are the result,
/// whatever follows it, and also when it is the last line of the table.
pub proof fn lemma_lookup_first_match(line: Seq<u8>, rest: Seq<u8>, name: Seq<u8>)
    requires
        forall|i: int| 0 <= i < line.len() ==> line[i] != NEWLINE,
        entry_named(line, name),
    ensures
        partition_lookup(line + seq![NEWLINE] + rest, name) == (entry_offset(line), entry_size(line)),
        partition_lookup(line, name) == (entry_offset(line), entry_size(line)),
{
    lemma_front_line(line, rest);
    lemma_seg_len(line, NEWLINE, line.len() as int);
    assert(line.take(line.len() as int) =~= line);
}

/// A table with no entry named `name` gives `(0, 0)`.
pub proof fn lemma_lookup_absent(csv: Seq<u8>, name: Seq<u8>)
    requires
        forall|a: int, b: int|
            0 <= a <= b <= csv.len() && (a == 0 || csv[a - 1] == NEWLINE)
                && (b == csv.len() || csv[b] == NEWLINE)
                && (forall|i: int| a <= i < b ==> csv[i] != NEWLINE)
                ==> !entry_named(#[trigger] csv.subrange(a, b), name),
    ensures
        partition_lookup(csv, name) == (0nat, 0nat),
    decreases csv.len(),
{
    lemma_seg_len_bound(csv, NEWLINE);
    let e = seg_len(csv, NEWLINE) as int;
    assert(csv.take(e) =~= csv.subrange(0, e));
    if e < csv.len() {
        let rest = csv.skip(e + 1);
        assert forall|a: int, b: int|
            0 <= a <= b <= rest.len() && (a == 0 || rest[a - 1] == NEWLINE)
                && (b == rest.len() || rest[b] == NEWLINE)
                && (forall|i: int| a <= i < b ==> rest[i] != NEWLINE)
                implies !entry_named(#[trigger] rest.subrange(a, b), name) by {
            assert(rest.subrange(a, b) =~= csv.subrange(a + e + 1, b + e + 1));
            if a > 0 {
                assert(rest[a - 1] == csv[a + e]);
            }
            if b < rest.len() {
                assert(rest[b] == csv[b + e + 1]);
            }
            assert forall|i: int| a + e + 1 <= i < b + e + 1 implies csv[i] != NEWLINE by {
                assert(csv[i] == rest[i - e - 1]);
            }
        }
        lemma_lookup_absent(rest, name);
    }
}

proof fn lemma_leading_spaces(s: Seq<u8>, m: int)
    requires
        0 <= m <= s.len(),
        forall|i: int| 0 <= i < m ==> s[i] == SPACE,
        m == s.len() || s[m] != SPACE,
    ensures
        leading_spaces(s) == m,
    decreases s.len(),
{
    if m > 0 {
        assert forall|i: int| 0 <= i < m - 1 implies s.drop_first()[i] == SPACE by {
            assert(s.drop_first()[i] == s[i + 1]);
        }
        lemma_leading_spaces(s.drop_first(), m - 1);
    }
}

proof fn lemma_hex_prefix_le(s: Seq<u8>, k: int)
    requires
        0 <= k <= s.len(),
    ensures
        hex_digits_value(s.take(k)) <= hex_digits_value(s),
    decreases s.len(),
{
    if k < s.len() {
        lemma_hex_prefix_le(s.drop_last(), k);
        assert(s.drop_last().take(k) =~= s.take(k));
    } else {
        assert(s.take(k) =~= s);
    }
}

/// Index of the first byte in `bytes[start..end]` that is not a space, or `end`.
fn skip_spaces(bytes: &[u8], start: usize, end: usize) -> (k: usize)
    requires
        start <= end <= bytes@.len(),
    ensures
        k == start + leading_spaces(bytes@.subrange(start as int, end as int)),
        start <= k <= end,
{
    let mut k = start;
    while k < end && bytes[k] == SPACE
        invariant
            start <= k <= end <= bytes@.len(),
            forall|i: int| start <= i < k ==> bytes@[i] == SPACE,
        decreases end - k,
    {
        k = k + 1;
    }
    proof {
        let s = bytes@.subrange(start as int, end as int);
        lemma_leading_spaces(s, k - start);
    }
    k
}

/// `haystack[offset..offset + needle.len()]` equals `needle`.
fn bytes_equal(haystack: &[u8], offset: usize, needle: &[u8]) -> (r: bool)
    requires
        offset + needle@.len() <= haystack@.len(),
    ensures
        r == (haystack@.subrange(offset as int, offset + needle@.len()) == needle@),
{
    let ghost window = haystack@.subrange(offset as int, offset + needle@.len());
    let mut i: usize = 0;
    while i < needle.len()
        invariant
            i <= needle@.len(),
            offset + needle@.len() <= haystack.len(),
            window == haystack@.subrange(offset as int, offset + needle@.len()),
            forall|k: int| 0 <= k < i ==> window[k] == needle@[k],
        decreases needle@.len() - i,
    {
        if haystack[offset + i] != needle[i] {
            assert(window[i as int] != needle@[i as int]);
            return false;
        }
        i = i + 1;
    }
    assert(window =~= needle@);
    true
}

/// Reads `bytes[start..end]` as a hexadecimal number (see `hex_value`).
fn parse_hex_slice(bytes: &[u8], start: usize, end: usize) -> (r: usize)
    requires
        start <= end <= bytes@.len(),
        hex_value(bytes@.subrange(start as int, end as int)) <= usize::MAX,
    ensures
        r == hex_value(bytes@.subrange(start as int, end as int)),
{
    let ghost s = bytes@.subrange(start as int, end as int);
    let mut result: usize = 0;
    let mut i = start;
    if end - start > 2 && bytes[start] == 48 && (bytes[start + 1] == 120 || bytes[start + 1] == 88) {
        i = start + 2;
    }
    let ghost first = i;
    let ghost digits = bytes@.subrange(first as int, end as int);
    assert(digits =~= if has_hex_prefix(s) { s.skip(2) } else { s });
    assert(digits.take(0) =~= Seq::<u8>::empty());
    while i < end
        invariant
            start <= first <= i <= end <= bytes@.len(),
            digits == bytes@.subrange(first as int, end as int),
            hex_digits_value(digits) <= usize::MAX,
            result == hex_digits_value(digits.take(i - first)),
        decreases end - i,
    {
        proof {
            assert(digits.take(i - first + 1).drop_last() =~= digits.take(i - first));
            assert(digits.take(i - first + 1).last() == bytes@[i as int]);
            lemma_hex_prefix_le(digits, i - first + 1);
        }
        let b = bytes[i];
        result = result * 16;
        if b >= 48 && b <= 57 {
            result = result + (b - 48) as usize;
        } else if b >= 97 && b <= 102 {
            result = result + (b - 87) as usize;
        } else if b >= 65 && b <= 70 {
            result = result + (b - 55) as usize;
        }
        i = i + 1;
    }
    assert(digits.take(i - first) =~= digits);
    result
}

proof fn lemma_empty_field_value()
    ensures
        hex_value(trim_start(Seq::<u8>::empty())) == 0,
{
    let e = Seq::<u8>::empty();
    assert(leading_spaces(e) == 0);
    assert(trim_start(e) =~= e);
}

/// Reads the line `bytes[start..end]`: whether its first field, after leading spaces, is
/// `name`, and its offset and size fields.
fn parse_line(bytes: &[u8], start: usize, end: usize, name: &[u8]) -> (r: (bool, usize, usize))
    requires
        start <= end <= bytes@.len(),
        entry_offset(bytes@.subrange(start as int, end as int)) <= usize::MAX,
        entry_size(bytes@.subrange(start as int, end as int)) <= usize::MAX,
    ensures
        r.0 == (trim_start(field(bytes@.subrange(start as int, end as int), 0)) == name@),
        r.1 == entry_offset(bytes@.subrange(start as int, end as int)),
        r.2 == entry_size(bytes@.subrange(start as int, end as int)),
{
    let ghost line = bytes@.subrange(start as int, end as int);
    let mut field_idx: usize = 0;
    let mut fstart: usize = start;
    let mut j: usize = start;
    let mut name_matches = false;
    let mut offset_val: usize = 0;
    let mut size_val: usize = 0;
    let ghost mut rest = line;
    proof {
        lemma_empty_field_value();
    }
    loop
        invariant_except_break
            start <= fstart <= j <= end <= bytes@.len(),
            line == bytes@.subrange(start as int, end as int),
            entry_offset(line) <= usize::MAX,
            entry_size(line) <= usize::MAX,
            rest == bytes@.subrange(fstart as int, end as int),
            forall|i: int| fstart <= i < j ==> bytes@[i] != COMMA,
            field_idx <= j - start,
            field_idx == 0 ==> field(line, 0) == field(rest, 0),
            field_idx <= 3 ==> field(line, 3) == field(rest, (3 - field_idx) as nat),
            field_idx <= 4 ==> field(line, 4) == field(rest, (4 - field_idx) as nat),
            field_idx > 0 ==> name_matches == (trim_start(field(line, 0)) == name@),
            field_idx == 0 ==> !name_matches,
            field_idx > 3 ==> offset_val == entry_offset(line),
            field_idx <= 3 ==> offset_val == 0,
            field_idx > 4 ==> size_val == entry_size(line),
            field_idx <= 4 ==> size_val == 0,
            hex_value(trim_start(Seq::<u8>::empty())) == 0,
        ensures
            name_matches == (trim_start(field(line, 0)) == name@),
            offset_val == entry_offset(line),
            size_val == entry_size(line),
        decreases end - j,
    {
        if j == end || bytes[j] == COMMA {
            let ghost cur = bytes@.subrange(fstart as int, j as int);
            proof {
                if j < end {
                    assert(rest[j - fstart] == bytes@[j as int]);
                }
                lemma_seg_len(rest, COMMA, j - fstart);
                assert(rest.take(j - fstart) =~= cur);
            }
            let t = skip_spaces(bytes, fstart, j);
            proof {
                assert(cur.skip(t - fstart) =~= bytes@.subrange(t as int, j as int));
                assert(field(rest, 0) == cur);
                assert(trim_start(cur) == bytes@.subrange(t as int, j as int));
                if field_idx == 0 {
                    assert(trim_start(field(line, 0)) == bytes@.subrange(t as int, j as int));
                }
            }
            if field_idx == 0 && j - t == name.len() {
                name_matches = bytes_equal(bytes, t, name);
            } else if field_idx == 3 {
                offset_val = parse_hex_slice(bytes, t, j);
            } else if field_idx == 4 {
                size_val = parse_hex_slice(bytes, t, j);
            }
            if j == end {
                proof {
                    assert(seg_len(rest, COMMA) == rest.len());
                    if field_idx < 3 {
                        assert(field(rest, (3 - field_idx) as nat) =~= Seq::<u8>::empty());
                    }
                    if field_idx < 4 {
                        assert(field(rest, (4 - field_idx) as nat) =~= Seq::<u8>::empty());
                    }
                }
                break;
            }
            proof {
                assert(rest.skip(j - fstart + 1) =~= bytes@.subrange(j + 1, end as int));
                rest = bytes@.subrange(j + 1, end as int);
            }
            field_idx = field_idx + 1;
            fstart = j + 1;
        }
        j = j + 1;
    }
    (name_matches, offset_val, size_val)
}

/// Index of the first comma in `bytes[start..limit]`, or `limit` when there is none.
fn find_comma(bytes: &[u8], start: usize, limit: usize) -> (e: usize)
    requires
        start <= limit <= bytes@.len(),
    ensures
        e == start + seg_len(bytes@.subrange(start as int, limit as int), COMMA),
        start <= e <= limit,
{
    let mut j = start;
    while j < limit && bytes[j] != COMMA
        invariant
            start <= j <= limit <= bytes@.len(),
            forall|k: int| start <= k < j ==> bytes@[k] != COMMA,
        decreases limit - j,
    {
        j = j + 1;
    }
    proof {
        let rest = bytes@.subrange(start as int, limit as int);
        assert forall|i: int| 0 <= i < j - start implies rest[i] != COMMA by {
            assert(rest[i] == bytes@[start + i]);
        }
        if j < limit {
            assert(rest[j - start] == bytes@[j as int]);
        }
        lemma_seg_len(rest, COMMA, j - start);
    }
    j
}

/// Where field `k` of the line `bytes[start..end]` lies, without its leading spaces.
fn field_range(bytes: &[u8], start: usize, end: usize, k: usize) -> (r: (usize, usize))
    requires
        start <= end <= bytes@.len(),
    ensures
        start <= r.0 <= r.1 <= end,
        bytes@.subrange(r.0 as int, r.1 as int) == trim_start(field(bytes@.subrange(start as int, end as int), k as nat)),
{
    let ghost line = bytes@.subrange(start as int, end as int);
    let mut pos = start;
    let mut i: usize = 0;
    while i < k
        invariant
            start <= pos <= end <= bytes@.len(),
            line == bytes@.subrange(start as int, end as int),
            i <= k,
            field(line, k as nat) == field(bytes@.subrange(pos as int, end as int), (k - i) as nat),
        decreases k - i,
    {
        let e = find_comma(bytes, pos, end);
        let ghost rest = bytes@.subrange(pos as int, end as int);
        if e == end {
            proof {
                assert(field(rest, (k - i) as nat) =~= Seq::<u8>::empty());
                lemma_empty_field_trim();
                assert(bytes@.subrange(end as int, end as int) =~= Seq::<u8>::empty());

            }
            return (end, end);
        }
        proof {
            lemma_seg_len_bound(rest, COMMA);
            assert(rest.skip(e - pos + 1) =~= bytes@.subrange(e + 1, end as int));
        }
        pos = e + 1;
        i = i + 1;
    }
    let e = find_comma(bytes, pos, end);
    let ghost rest = bytes@.subrange(pos as int, end as int);
    let ghost cur = bytes@.subrange(pos as int, e as int);
    assert(rest.take(e - pos) =~= cur);
    let t = skip_spaces(bytes, pos, e);
    assert(cur.skip(t - pos) =~= bytes@.subrange(t as int, e as int));
    (t, e)
}

proof fn lemma_empty_field_trim()
    ensures
        trim_start(Seq::<u8>::empty()) == Seq::<u8>::empty(),
{
    assert(leading_spaces(Seq::<u8>::empty()) == 0);
    assert(Seq::<u8>::empty().skip(0) =~= Seq::<u8>::empty());
}

/// Whether `bytes[start..end]`, read as a hexadecimal field, fits in a `usize`.
fn hex_fits(bytes: &[u8], start: usize, end: usize) -> (r: bool)
    requires
        start <= end <= bytes@.len(),
    ensures
        r == (hex_value(bytes@.subrange(start as int, end as int)) <= usize::MAX),
{
    let ghost s = bytes@.subrange(start as int, end as int);
    let mut result: usize = 0;
    let mut i = start;
    if end - start > 2 && bytes[start] == 48 && (bytes[start + 1] == 120 || bytes[start + 1] == 88) {
        i = start + 2;
    }
    let ghost first = i;
    let ghost digits = bytes@.subrange(first as int, end as int);
    assert(digits =~= if has_hex_prefix(s) { s.skip(2) } else { s });
    assert(digits.take(0) =~= Seq::<u8>::empty());
    while i < end
        invariant
            start <= first <= i <= end <= bytes@.len(),
            digits == bytes@.subrange(first as int, end as int),
            s == bytes@.subrange(start as int, end as int),
            hex_value(s) == hex_digits_value(digits),
            result == hex_digits_value(digits.take(i - first)),
        decreases end - i,
    {
        proof {
            assert(digits.take(i - first + 1).drop_last() =~= digits.take(i - first));
            assert(digits.take(i - first + 1).last() == bytes@[i as int]);
            lemma_hex_prefix_le(digits, i - first + 1);
        }
        let b = bytes[i];
        let d: usize = if b >= 48 && b <= 57 {
            (b - 48) as usize
        } else if b >= 97 && b <= 102 {
            (b - 87) as usize
        } else if b >= 65 && b <= 70 {
            (b - 55) as usize
        } else {
            0
        };
        match result.checked_mul(16) {
            None => {
                proof {
                    let t = digits.take(i - first + 1);
                    assert(hex_digits_value(t) == hex_digits_value(t.drop_last()) * 16 + hex_digit_value(t.last()));
                    assert(hex_digits_value(t) >= result * 16);
                }
                return false;
            },
            Some(m) => match m.checked_add(d) {
                None => return false,
                Some(v) => {
                    result = v;
                },
            },
        }
        i = i + 1;
    }
    assert(digits.take(i - first) =~= digits);
    true
}

/// Whether `find_partition(csv, name)` reads only offsets and sizes that fit in a `usize`.
pub fn partition_lookup_fits(csv: &str, name: &str) -> (r: bool)
    ensures
        r == lookup_fits(csv.spec_bytes(), name.spec_bytes()),
{
    let c = csv.as_bytes();
    let nm = name.as_bytes();
    let ghost cb = c@;
    let mut line_start: usize = 0;
    assert(cb.skip(0) =~= cb);
    loop
        invariant
            cb == c@,
            cb == csv.spec_bytes(),
            nm@ == name.spec_bytes(),
            line_start <= cb.len(),
            lookup_fits(cb, nm@) == lookup_fits(cb.skip(line_start as int), nm@),
        decreases cb.len() - line_start,
    {
        let line_end = find_byte(c, line_start, NEWLINE);
        let ghost rest = cb.skip(line_start as int);
        let ghost line = cb.subrange(line_start as int, line_end as int);
        proof {
            lemma_seg_len_bound(rest, NEWLINE);
            assert(rest.take(line_end - line_start) =~= line);
        }
        if line_end > line_start && c[line_start] != HASH {
            let (a, b) = field_range(c, line_start, line_end, 3);
            if !hex_fits(c, a, b) {
                return false;
            }
            let (a, b) = field_range(c, line_start, line_end, 4);
            if !hex_fits(c, a, b) {
                return false;
            }
            let (a, b) = field_range(c, line_start, line_end, 0);
            if b - a == nm.len() && bytes_equal(c, a, nm) {
                return true;
            }
        }
        if line_end == c.len() {
            return true;
        }
        proof {
            assert(rest[line_end - line_start] == cb[line_end as int]);
            assert(rest.skip(line_end - line_start + 1) =~= cb.skip(line_end + 1));
        }
        line_start = line_end + 1;
    }
}

/// Offset and size of the partition `name` in the partition table `csv`, or `(0, 0)` when the
/// table has no entry of that name.
pub fn find_partition(csv: &str, name: &str) -> (res: (usize, usize))
    requires
        lookup_fits(csv.spec_bytes(), name.spec_bytes()),
    ensures
        res.0 == partition_lookup(csv.spec_bytes(), name.spec_bytes()).0,
        res.1 == partition_lookup(csv.spec_bytes(), name.spec_bytes()).1,
{
    let c = csv.as_bytes();
    let nm = name.as_bytes();
    let ghost cb = c@;
    let mut line_start: usize = 0;
    assert(cb.skip(0) =~= cb);
    loop
        invariant
            cb == c@,
            cb == csv.spec_bytes(),
            nm@ == name.spec_bytes(),
            line_start <= cb.len(),
            partition_lookup(cb, nm@) == partition_lookup(cb.skip(line_start as int), nm@),
            lookup_fits(cb.skip(line_start as int), nm@),
        decreases cb.len() - line_start,
    {
        let line_end = find_byte(c, line_start, NEWLINE);
        let ghost rest = cb.skip(line_start as int);
        let ghost line = cb.subrange(line_start as int, line_end as int);
        proof {
            lemma_seg_len_bound(rest, NEWLINE);
            assert(rest.take(line_end - line_start) =~= line);
        }
        if line_end > line_start && c[line_start] != HASH {
            let (m, off, size) = parse_line(c, line_start, line_end, nm);
            if m {
                return (off, size);
            }
        }
        if line_end == c.len() {
            return (0, 0);
        }
        proof {
            assert(rest[line_end - line_start] == cb[line_end as int]);
            assert(rest.skip(line_end - line_start + 1) =~= cb.skip(line_end + 1));
        }
        line_start = line_end + 1;
    }
}

} // verus!
