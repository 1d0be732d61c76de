//! Fixed-width byte strings used on the wire for user-visible names, and the
//! conversions between them and `String`.

use vstd::prelude::*;

verus! {

/// Wire form of a short name: its UTF-8 bytes, truncated to 32 bytes and
/// padded with zero bytes.
pub type BoundedString = [u8; 32];

/// Relies on `String::push`: appends the given character to the end of the
/// string.
pub assume_specification [ String::push ](s: &mut String, ch: char)
    ensures
        final(s)@ == old(s)@.push(ch),
;

/// The 32 bytes that `bound_string` produces from the UTF-8 bytes `bs`.
pub open spec fn bounded_of_bytes(bs: Seq<u8>) -> Seq<u8> {
    Seq::new(32, |i: int| if i < bs.len() { bs[i] } else { 0u8 })
}

/// Truncate a name to its fixed wire width: the first 32 UTF-8 bytes,
/// zero-padded on the right.
pub fn bound_string(s: String) -> (r: BoundedString)
    ensures
        r@ == bounded_of_bytes(vstd::utf8::encode_utf8(s@)),
{
    let bytes: &[u8] = s.as_str().as_bytes();
    let mut bounded: BoundedString = [0u8; 32];
    assert(bytes@ == vstd::utf8::encode_utf8(s@));
    let mut i: usize = 0;
    while i < 32
        invariant
            i <= 32,
            bounded@.len() == 32,
            bytes@ == vstd::utf8::encode_utf8(s@),
            forall|k: int|
                0 <= k < i ==> bounded@[k] == (if k < bytes@.len() {
                    bytes@[k]
                } else {
                    0u8
                }),
            forall|k: int| i <= k < 32 ==> bounded@[k] == 0u8,
        decreases 32 - i,
    {
        if i < bytes.len() {
            bounded[i] = bytes[i];
        }
        i = i + 1;
    }
    assert(bounded@ =~= bounded_of_bytes(vstd::utf8::encode_utf8(s@)));
    bounded
}

/// ASCII whitespace, as trimmed from the ends of a stored name.
pub open spec fn is_ws(b: u8) -> bool {
    b == 32 || b == 9 || b == 10 || b == 13
}

/// Index of the first zero byte at or after `i`, or `bs.len()` if none.
pub open spec fn first_nul_from(bs: Seq<u8>, i: int) -> int
    decreases bs.len() - i,
{
    if i < 0 || i >= bs.len() {
        bs.len() as int
    } else if bs[i] == 0 {
        i
    } else {
        first_nul_from(bs, i + 1)
    }
}

/// First non-whitespace index in `[i, end)`, or `end` if all whitespace.
pub open spec fn skip_ws_from(bs: Seq<u8>, i: int, end: int) -> int
    decreases end - i,
{
    if i < 0 || i >= end || i >= bs.len() {
        end
    } else if is_ws(bs[i]) {
        skip_ws_from(bs, i + 1, end)
    } else {
        i
    }
}

/// End of the span `[lo, hi)` once trailing whitespace is dropped.
pub open spec fn drop_ws_back(bs: Seq<u8>, lo: int, hi: int) -> int
    decreases hi - lo,
{
    if hi <= lo || hi > bs.len() || hi < 1 {
        lo
    } else if is_ws(bs[hi - 1]) {
        drop_ws_back(bs, lo, hi - 1)
    } else {
        hi
    }
}

/// The character a stored byte prints as: itself for ASCII, a placeholder
/// otherwise.
pub open spec fn char_of_byte(b: u8) -> char {
    if b < 128 {
        b as char
    } else {
        '?'
    }
}

/// What `bounded_printable` shows for the stored bytes `bs`: the bytes before
/// the first zero byte, whitespace-trimmed at both ends, as characters.
pub open spec fn printable_of(bs: Seq<u8>) -> Seq<char> {
    let end = first_nul_from(bs, 0);
    let lo = skip_ws_from(bs, 0, end);
    let hi = drop_ws_back(bs, lo, end);
    Seq::new((hi - lo) as nat, |k: int| char_of_byte(bs[lo + k]))
}

/// Recover the readable name from its fixed wire form: the content before the
/// zero padding, with surrounding whitespace removed.
pub fn bounded_printable(b: BoundedString) -> (r: String)
    ensures
        r@ == printable_of(b@),
{
    let mut end: usize = 0;
    while end < 32 && b[end] != 0
        invariant
            0 <= end <= 32,
            b@.len() == 32,
            first_nul_from(b@, 0) == first_nul_from(b@, end as int),
            forall|k: int| 0 <= k < end ==> b@[k] != 0,
        decreases 32 - end,
    {
        end = end + 1;
    }
    assert(first_nul_from(b@, 0) == end);
    let mut lo: usize = 0;
    while lo < end && (b[lo] == 32 || b[lo] == 9 || b[lo] == 10 || b[lo] == 13)
        invariant
            0 <= lo <= end <= 32,
            b@.len() == 32,
            skip_ws_from(b@, 0, end as int) == skip_ws_from(b@, lo as int, end as int),
        decreases end - lo,
    {
        lo = lo + 1;
    }
    assert(skip_ws_from(b@, 0, end as int) == lo);
    let mut hi: usize = end;
    while hi > lo && (b[hi - 1] == 32 || b[hi - 1] == 9 || b[hi - 1] == 10 || b[hi - 1] == 13)
        invariant
            0 <= lo <= hi <= end <= 32,
            b@.len() == 32,
            drop_ws_back(b@, lo as int, end as int) == drop_ws_back(b@, lo as int, hi as int),
        decreases hi - lo,
    {
        hi = hi - 1;
    }
    assert(drop_ws_back(b@, lo as int, end as int) == hi);
    let mut r = String::new();
    let mut k: usize = lo;
    while k < hi
        invariant
            lo <= k <= hi <= 32,
            b@.len() == 32,
            r@ == Seq::new((k - lo) as nat, |j: int| char_of_byte(b@[lo + j])),
        decreases hi - k,
    {
        let byte = b[k];
        if byte < 128 {
            r.push(byte as char);
        } else {
            r.push('?');
        }
        assert(r@ =~= Seq::new((k + 1 - lo) as nat, |j: int| char_of_byte(b@[lo + j])));
        k = k + 1;
    }
    assert(r@ =~= printable_of(b@));
    r
}

/// Index of the first occurrence of `target` at or after `i`, or `bs.len()`
/// if none.
pub open spec fn first_byte_from(bs: Seq<u8>, target: u8, i: int) -> int
    decreases bs.len() - i,
{
    if i < 0 || i >= bs.len() {
        bs.len() as int
    } else if bs[i] == target {
        i
    } else {
        first_byte_from(bs, target, i + 1)
    }
}

/// Bound the bytes of `bs[lo..hi]` to the fixed wire width.
pub fn bound_bytes_range(bs: &[u8], lo: usize, hi: usize) -> (r: BoundedString)
    requires
        lo <= hi <= bs@.len(),
    ensures
        r@ == bounded_of_bytes(bs@.subrange(lo as int, hi as int)),
{
    let mut bounded: BoundedString = [0u8; 32];
    let mut i: usize = 0;
    while i < 32
        invariant
            i <= 32,
            lo <= hi <= bs@.len(),
            bounded@.len() == 32,
            forall|k: int|
                0 <= k < i ==> bounded@[k] == (if lo + k < hi {
                    bs@[lo + k]
                } else {
                    0u8
                }),
            forall|k: int| i <= k < 32 ==> bounded@[k] == 0u8,
        decreases 32 - i,
    {
        if i < hi - lo {
            bounded[i] = bs[lo + i];
        }
        i = i + 1;
    }
    assert(bounded@ =~= bounded_of_bytes(bs@.subrange(lo as int, hi as int)));
    bounded
}

/// Bytewise equality of two fixed-width names.
pub fn bounded_eq(a: &BoundedString, b: &BoundedString) -> (r: bool)
    ensures
        r <==> a@ =~= b@,
{
    let mut i: usize = 0;
    while i < 32
        invariant
            i <= 32,
            a@.len() == 32,
            b@.len() == 32,
            forall|k: int| 0 <= k < i ==> a@[k] == b@[k],
        decreases 32 - i,
    {
        if a[i] != b[i] {
            return false;
        }
        i = i + 1;
    }
    true
}

} // verus!
