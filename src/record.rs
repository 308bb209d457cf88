//! The stored form of a file record: `path|hash|mtime`, the path and the hash
//! as UTF-8 and the modification time as a decimal number.

use vstd::prelude::*;
use vstd::utf8::*;
use vstd::string::*;

verus! {

broadcast use vstd::seq::group_seq_axioms, vstd::seq_lib::group_seq_properties;

/// The byte that separates the fields of a stored record (`|`).
pub const SEPARATOR: u8 = 124;

/// A cached record of one file: its path, the hex digest of its content and
/// its modification time in seconds since the epoch.
#[derive(Debug, Clone)]
pub struct FileEntry {
    pub path: String,
    pub hash: String,
    pub mtime: u64,
}

/// The mathematical value of a `FileEntry`.
pub struct EntryView {
    pub path: Seq<char>,
    pub hash: Seq<char>,
    pub mtime: u64,
}

impl View for FileEntry {
    type V = EntryView;

    open spec fn view(&self) -> EntryView {
        EntryView { path: self.path@, hash: self.hash@, mtime: self.mtime }
    }
}

pub open spec fn is_digit(b: u8) -> bool {
    48 <= b <= 57
}

pub open spec fn all_digits(s: Seq<u8>) -> bool {
    forall|i: int| 0 <= i < s.len() ==> is_digit(#[trigger] s[i])
}

/// The shortest decimal spelling of `n`.
pub open spec fn decimal(n: nat) -> Seq<u8>
    decreases n,
{
    if n < 10 {
        seq![(48 + n) as u8]
    } else {
        decimal(n / 10).push((48 + n % 10) as u8)
    }
}

/// The number that a sequence of decimal digits spells.
pub open spec fn digits_value(s: Seq<u8>) -> nat
    decreases s.len(),
{
    if s.len() == 0 {
        0
    } else {
        digits_value(s.drop_last()) * 10 + (s.last() - 48) as nat
    }
}

/// An unsigned 64-bit number in text: an optional `+`, then one or more
/// decimal digits whose value fits in `u64`.
pub open spec fn parse_u64(s: Seq<u8>) -> Option<u64> {
    let d = if s.len() > 0 && s[0] == 43 {
        s.drop_first()
    } else {
        s
    };
    if d.len() > 0 && all_digits(d) && digits_value(d) <= u64::MAX {
        Some(digits_value(d) as u64)
    } else {
        None
    }
}

/// `b` cut at every `sep`: `k` separators give `k + 1` parts, empty ones included.
pub open spec fn split_on(b: Seq<u8>, sep: u8) -> Seq<Seq<u8>>
    decreases b.len(),
{
    if b.len() == 0 {
        seq![Seq::<u8>::empty()]
    } else {
        let r = split_on(b.drop_last(), sep);
        if b.last() == sep {
            r.push(Seq::<u8>::empty())
        } else {
            r.update(r.len() - 1, r.last().push(b.last()))
        }
    }
}

pub open spec fn free_of(s: Seq<u8>, sep: u8) -> bool {
    forall|i: int| 0 <= i < s.len() ==> #[trigger] s[i] != sep
}

/// A field that can be stored: it holds no `|`.
pub open spec fn storable(s: Seq<char>) -> bool {
    forall|i: int| 0 <= i < s.len() ==> #[trigger] s[i] != '|'
}

/// The stored bytes of a record.
pub open spec fn encode_entry(e: EntryView) -> Seq<u8> {
    encode_utf8(e.path) + seq![SEPARATOR] + encode_utf8(e.hash) + seq![SEPARATOR] + decimal(
        e.mtime as nat,
    )
}

/// The record that stored bytes hold: exactly three fields, the first two
/// valid UTF-8 and the third a number; `None` for anything else.
pub open spec fn decode_entry(b: Seq<u8>) -> Option<EntryView> {
    let parts = split_on(b, SEPARATOR);
    if parts.len() == 3 && valid_utf8(parts[0]) && valid_utf8(parts[1]) && parse_u64(
        parts[2],
    ) is Some {
        Some(
            EntryView {
                path: decode_utf8(parts[0]),
                hash: decode_utf8(parts[1]),
                mtime: parse_u64(parts[2])->0,
            },
        )
    } else {
        None
    }
}

pub open spec fn well_formed_entry(e: EntryView) -> bool {
    storable(e.path) && storable(e.hash)
}

// ---------------------------------------------------------------- lemmas

proof fn lemma_split_free(c: Seq<u8>, sep: u8)
    requires
        free_of(c, sep),
    ensures
        split_on(c, sep) == seq![c],
    decreases c.len(),
{
    if c.len() > 0 {
        lemma_split_free(c.drop_last(), sep);
        assert(c.drop_last().push(c.last()) =~= c);
    }
}

proof fn lemma_split_after(a: Seq<u8>, c: Seq<u8>, sep: u8)
    requires
        free_of(c, sep),
    ensures
        split_on(a + seq![sep] + c, sep) == split_on(a, sep).push(c),
    decreases c.len(),
{
    let whole = a + seq![sep] + c;
    if c.len() == 0 {
        assert(whole.drop_last() =~= a);
    } else {
        lemma_split_after(a, c.drop_last(), sep);
        assert(whole.drop_last() =~= a + seq![sep] + c.drop_last());
        assert(c.drop_last().push(c.last()) =~= c);
        assert(split_on(a, sep).push(c.drop_last()).update(
            split_on(a, sep).len() as int,
            c.drop_last().push(c.last()),
        ) =~= split_on(a, sep).push(c));
    }
}

proof fn lemma_scalar_free(c: char)
    requires
        c != '|',
    ensures
        free_of(encode_scalar(c as u32), SEPARATOR),
{
    let s = c as u32;
    let e = encode_scalar(s);
    if has_width_1_encoding(s) {
        assert((s & 0x7F) == s) by (bit_vector)
            requires
                s <= 0x7F,
        ;
        assert(s != 124) by {
            vstd::utf8::char_u32_cast(c, s);
        }
    } else {
        let x = ((s >> 6) & 0x1F) as u8;
        let y = ((s >> 12) & 0x0F) as u8;
        let z = ((s >> 18) & 0x7) as u8;
        let w = (s & 0x3F) as u8;
        let v = ((s >> 6) & 0x3F) as u8;
        let u = ((s >> 12) & 0x3F) as u8;
        assert(0xC0 | x != 124u8) by (bit_vector);
        assert(0xE0 | y != 124u8) by (bit_vector);
        assert(0xF0 | z != 124u8) by (bit_vector);
        assert(0x80 | w != 124u8) by (bit_vector);
        assert(0x80 | v != 124u8) by (bit_vector);
        assert(0x80 | u != 124u8) by (bit_vector);
    }
}

proof fn lemma_encode_free(s: Seq<char>)
    requires
        storable(s),
    ensures
        free_of(encode_utf8(s), SEPARATOR),
    decreases s.len(),
{
    if s.len() > 0 {
        lemma_scalar_free(s[0]);
        lemma_encode_free(s.drop_first());
    }
}

proof fn lemma_decimal(n: nat)
    ensures
        decimal(n).len() > 0,
        all_digits(decimal(n)),
        digits_value(decimal(n)) == n,
    decreases n,
{
    if n >= 10 {
        lemma_decimal(n / 10);
        assert(decimal(n).drop_last() =~= decimal(n / 10));
        assert((n / 10) * 10 + n % 10 == n) by (nonlinear_arith);
        assert(decimal(n).last() == 48 + n % 10);
        assert(digits_value(decimal(n)) == digits_value(decimal(n / 10)) * 10 + n % 10);
    } else {
        assert(decimal(n).drop_last() =~= Seq::<u8>::empty());
        assert(decimal(n).last() == 48 + n);
        assert(digits_value(decimal(n)) == digits_value(Seq::<u8>::empty()) * 10 + n);
    }
}

proof fn lemma_parse_decimal(n: u64)
    ensures
        parse_u64(decimal(n as nat)) == Some(n),
        free_of(decimal(n as nat), SEPARATOR),
{
    lemma_decimal(n as nat);
    let d = decimal(n as nat);
    assert(is_digit(d[0]));
}

/// Stored bytes of a record whose path and hash hold no `|` read back as
/// the same record.
pub proof fn lemma_entry_round_trip(e: EntryView)
    requires
        well_formed_entry(e),
    ensures
        decode_entry(encode_entry(e)) == Some(e),
{
    let p = encode_utf8(e.path);
    let h = encode_utf8(e.hash);
    let m = decimal(e.mtime as nat);
    lemma_encode_free(e.path);
    lemma_encode_free(e.hash);
    lemma_parse_decimal(e.mtime);
    lemma_split_free(p, SEPARATOR);
    lemma_split_after(p, h, SEPARATOR);
    lemma_split_after(p + seq![SEPARATOR] + h, m, SEPARATOR);
    encode_utf8_valid_utf8(e.path);
    encode_utf8_valid_utf8(e.hash);
    encode_utf8_decode_utf8(e.path);
    encode_utf8_decode_utf8(e.hash);
    assert(split_on(encode_entry(e), SEPARATOR) =~= seq![p, h, m]);
}

proof fn lemma_prefix_value_le(d: Seq<u8>, k: int)
    requires
        all_digits(d),
        0 <= k <= d.len(),
    ensures
        digits_value(d.subrange(0, k)) <= digits_value(d),
    decreases d.len(),
{
    if k == d.len() {
        assert(d.subrange(0, k) =~= d);
    } else {
        lemma_prefix_value_le(d.drop_last(), k);
        assert(d.drop_last().subrange(0, k) =~= d.subrange(0, k));
    }
}

// ---------------------------------------------------------------- code

/// Relies on `String::from_utf8`: it succeeds exactly on valid UTF-8, and
/// the string then holds the characters that the bytes encode.
#[verifier::external_body]
fn string_from_utf8(bytes: Vec<u8>) -> (r: Option<String>)
    ensures
        r is Some <==> valid_utf8(bytes@),
        r matches Some(s) ==> s@ == decode_utf8(bytes@),
{
    String::from_utf8(bytes).ok()
}

/// The decimal digits of `n`.
pub fn decimal_bytes(n: u64) -> (r: Vec<u8>)
    ensures
        r@ == decimal(n as nat),
    decreases n,
{
    if n < 10 {
        let mut v: Vec<u8> = Vec::new();
        v.push((48 + n) as u8);
        v
    } else {
        let mut v = decimal_bytes(n / 10);
        v.push((48 + n % 10) as u8);
        v
    }
}

/// Reads an unsigned 64-bit number: an optional `+` and one or more digits.
pub fn parse_u64_bytes(s: &[u8]) -> (r: Option<u64>)
    ensures
        r == parse_u64(s@),
{
    let mut start: usize = 0;
    if s.len() > 0 && s[0] == 43 {
        start = 1;
    }
    let ghost d = s@.subrange(start as int, s@.len() as int);
    proof {
        if start == 1 {
            assert(d =~= s@.drop_first());
        } else {
            assert(d =~= s@);
        }
    }
    let ghost expected = if d.len() > 0 && all_digits(d) && digits_value(d) <= u64::MAX {
        Some(digits_value(d) as u64)
    } else {
        None
    };
    assert(parse_u64(s@) == expected);
    if start >= s.len() {
        return None;
    }
    let mut value: u64 = 0;
    let mut i: usize = start;
    while i < s.len()
        invariant
            start <= i <= s.len(),
            d == s@.subrange(start as int, s@.len() as int),
            parse_u64(s@) == expected,
            expected == (if d.len() > 0 && all_digits(d) && digits_value(d) <= u64::MAX {
                Some(digits_value(d) as u64)
            } else {
                None
            }),
            all_digits(d.subrange(0, i - start)),
            value == digits_value(d.subrange(0, i - start)),
        decreases s.len() - i,
    {
        let b = s[i];
        if b < 48 || b > 57 {
            assert(!is_digit(d[i - start]));
            return None;
        }
        let digit = (b - 48) as u64;
        let ghost next = d.subrange(0, i - start + 1);
        assert(next.drop_last() =~= d.subrange(0, i - start));
        assert(all_digits(next));
        if value > (u64::MAX - digit) / 10 {
            assert(value * 10 + digit > u64::MAX) by (nonlinear_arith)
                requires
                    value > (u64::MAX - digit) / 10,
                    digit <= 9,
            ;
            proof {
                if all_digits(d) {
                    lemma_prefix_value_le(d, i - start + 1);
                }
            }
            return None;
        }
        assert(value * 10 + digit <= u64::MAX) by (nonlinear_arith)
            requires
                value <= (u64::MAX - digit) / 10,
                digit <= 9,
        ;
        value = value * 10 + digit;
        i += 1;
    }
    assert(d.subrange(0, d.len() as int) =~= d);
    Some(value)
}

/// `bytes` cut at every separator.
fn split_fields(bytes: &[u8]) -> (r: Vec<Vec<u8>>)
    ensures
        r@.map_values(|p: Vec<u8>| p@) == split_on(bytes@, SEPARATOR),
{
    let mut parts: Vec<Vec<u8>> = Vec::new();
    let mut current: Vec<u8> = Vec::new();
    let mut i: usize = 0;
    assert(bytes@.subrange(0, 0) =~= Seq::<u8>::empty());
    assert(parts@.map_values(|p: Vec<u8>| p@).push(current@) =~= seq![Seq::<u8>::empty()]);
    while i < bytes.len()
        invariant
            i <= bytes.len(),
            parts@.map_values(|p: Vec<u8>| p@).push(current@) == split_on(
                bytes@.subrange(0, i as int),
                SEPARATOR,
            ),
        decreases bytes.len() - i,
    {
        let ghost before = parts@.map_values(|p: Vec<u8>| p@).push(current@);
        let b = bytes[i];
        assert(bytes@.subrange(0, i + 1).drop_last() =~= bytes@.subrange(0, i as int));
        if b == SEPARATOR {
            let done = current;
            parts.push(done);
            current = Vec::new();
            assert(parts@.map_values(|p: Vec<u8>| p@).push(current@) =~= before.push(
                Seq::<u8>::empty(),
            ));
        } else {
            current.push(b);
            assert(parts@.map_values(|p: Vec<u8>| p@).push(current@) =~= before.update(
                before.len() - 1,
                before.last().push(b),
            ));
        }
        i += 1;
    }
    assert(bytes@.subrange(0, bytes@.len() as int) =~= bytes@);
    parts.push(current);
    assert(parts@.map_values(|p: Vec<u8>| p@) =~= split_on(bytes@, SEPARATOR));
    parts
}

impl FileEntry {
    /// The stored bytes of this record.
    pub fn to_bytes(&self) -> (r: Vec<u8>)
        ensures
            r@ == encode_entry(self@),
    {
        let mut out = self.path.as_str().as_bytes_vec();
        out.push(SEPARATOR);
        let mut h = self.hash.as_str().as_bytes_vec();
        out.append(&mut h);
        out.push(SEPARATOR);
        let mut m = decimal_bytes(self.mtime);
        out.append(&mut m);
        out
    }

    /// The record that stored bytes hold, or `None` where they are malformed.
    pub fn from_bytes(bytes: &[u8]) -> (r: Option<FileEntry>)
        ensures
            match r {
                Some(e) => decode_entry(bytes@) == Some(e@),
                None => decode_entry(bytes@) is None,
            },
    {
        let mut parts = split_fields(bytes);
        let ghost spec_parts = split_on(bytes@, SEPARATOR);
        if parts.len() != 3 {
            return None;
        }
        assert(parts@[0]@ == spec_parts[0]);
        assert(parts@[1]@ == spec_parts[1]);
        assert(parts@[2]@ == spec_parts[2]);
        let mtime_part = match parts.pop() {
            Some(p) => p,
            None => return None,
        };
        let hash_part = match parts.pop() {
            Some(p) => p,
            None => return None,
        };
        let path_part = match parts.pop() {
            Some(p) => p,
            None => return None,
        };
        let mtime = match parse_u64_bytes(mtime_part.as_slice()) {
            Some(m) => m,
            None => return None,
        };
        let path = match string_from_utf8(path_part) {
            Some(p) => p,
            None => return None,
        };
        let hash = match string_from_utf8(hash_part) {
            Some(h) => h,
            None => return None,
        };
        Some(FileEntry { path, hash, mtime })
    }
}

} // verus!
