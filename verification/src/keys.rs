//! The storage key-naming convention this subsystem owns: each resource kind
//! is saved under a type tag plus its numeric id, e.g. `loc_prim_7` and
//! `loc_diffs_7` for location 7.

use vstd::prelude::*;
use crate::identity::LocationID;

verus! {

/// The character printing a single decimal digit.
pub open spec fn digit_char(d: int) -> char {
    ((48 + d) as u8) as char
}

/// The decimal numeral of `n`, most significant digit first.
pub open spec fn decimal_chars(n: int) -> Seq<char>
    decreases n,
{
    if n < 10 {
        seq![digit_char(if n >= 0 {
            n % 10
        } else {
            0
        })]
    } else {
        decimal_chars(n / 10).push(digit_char(n % 10))
    }
}

/// Append the decimal numeral of `n` to `out`.
fn push_decimal(out: &mut String, n: u32)
    ensures
        final(out)@ == old(out)@ + decimal_chars(n as int),
{
    let mut digits: Vec<u8> = Vec::new();
    let mut x: u32 = n;
    digits.push((x % 10) as u8);
    proof {
        assert(digits@.len() == 1);
        assert(digits@.last() == (x % 10) as u8);
        assert(digits@.drop_last() =~= Seq::<u8>::empty());
        assert(rev_digit_chars(digits@.drop_last()) =~= Seq::<char>::empty());
        assert(rev_digit_chars(digits@) == seq![digit_char(digits@.last() as int)]
            + rev_digit_chars(digits@.drop_last()));
        assert(rev_digit_chars(digits@) =~= seq![digit_char((x % 10) as int)]);
        if x >= 10 {
            assert(decimal_chars(n as int) =~= decimal_chars((x / 10) as int) + seq![
                digit_char((x % 10) as int),
            ]);
        }
    }
    x = x / 10;
    while x > 0
        invariant
            x > 0 ==> decimal_chars(n as int) =~= decimal_chars(x as int) + rev_digit_chars(
                digits@,
            ),
            x == 0 ==> decimal_chars(n as int) =~= rev_digit_chars(digits@),
            forall|j: int| 0 <= j < digits@.len() ==> (#[trigger] digits@[j]) < 10,
            digits@.len() >= 1,
        decreases x,
    {
        let ghost pre_digits = digits@;
        let d = (x % 10) as u8;
        digits.push(d);
        proof {
            assert(digits@.drop_last() =~= pre_digits);
            assert(rev_digit_chars(digits@) =~= seq![digit_char((x % 10) as int)]
                + rev_digit_chars(pre_digits));
            if x >= 10 {
                assert(decimal_chars(x as int) =~= decimal_chars((x / 10) as int) + seq![
                    digit_char((x % 10) as int),
                ]);
                assert(decimal_chars((x / 10) as int) + rev_digit_chars(digits@)
                    =~= (decimal_chars((x / 10) as int) + seq![digit_char((x % 10) as int)])
                    + rev_digit_chars(pre_digits));
            } else {
                assert(decimal_chars(x as int) =~= seq![digit_char((x % 10) as int)]);
                assert(rev_digit_chars(digits@) =~= decimal_chars(x as int) + rev_digit_chars(
                    pre_digits,
                ));
            }
        }
        x = x / 10;
    }
    let m = digits.len();
    proof {
        lemma_rev_digit_chars_len(digits@);
    }
    let mut i: usize = 0;
    while i < m
        invariant
            m == digits@.len(),
            rev_digit_chars(digits@).len() == m,
            i <= m,
            decimal_chars(n as int) =~= rev_digit_chars(digits@),
            out@ == old(out)@ + rev_digit_chars(digits@).subrange(0, i as int),
            forall|j: int| 0 <= j < m ==> (#[trigger] digits@[j]) < 10,
        decreases m - i,
    {
        let d = digits[m - 1 - i];
        proof {
            lemma_rev_digit_chars_index(digits@, i as int);
        }
        out.push((48 + d) as char);
        proof {
            assert(out@ =~= old(out)@ + rev_digit_chars(digits@).subrange(0, i + 1));
        }
        i = i + 1;
    }
    proof {
        lemma_rev_digit_chars_len(digits@);
        assert(rev_digit_chars(digits@).subrange(0, m as int) =~= rev_digit_chars(digits@));
    }
}

/// The characters of a digit list read back-to-front.
pub open spec fn rev_digit_chars(ds: Seq<u8>) -> Seq<char>
    decreases ds.len(),
{
    if ds.len() == 0 {
        Seq::empty()
    } else {
        seq![digit_char(ds.last() as int)] + rev_digit_chars(ds.drop_last())
    }
}

proof fn lemma_rev_digit_chars_index(ds: Seq<u8>, i: int)
    requires
        0 <= i < ds.len(),
    ensures
        rev_digit_chars(ds).len() == ds.len(),
        rev_digit_chars(ds)[i] == digit_char(ds[ds.len() - 1 - i] as int),
    decreases ds.len(),
{
    if ds.len() > 0 {
        lemma_rev_digit_chars_len(ds.drop_last());
        if i > 0 {
            lemma_rev_digit_chars_index(ds.drop_last(), i - 1);
        }
    }
}

proof fn lemma_rev_digit_chars_len(ds: Seq<u8>)
    ensures
        rev_digit_chars(ds).len() == ds.len(),
    decreases ds.len(),
{
    if ds.len() > 0 {
        lemma_rev_digit_chars_len(ds.drop_last());
    }
}

/// Storage key of a location's primitive: `loc_prim_<id>`.
pub fn location_primitive_save_path(lid: LocationID) -> (r: String)
    ensures
        r@ == "loc_prim_"@ + decimal_chars(lid as int),
{
    let mut s = String::from_str("loc_prim_");
    push_decimal(&mut s, lid);
    s
}

/// Storage key of a location's diff log: `loc_diffs_<id>`.
pub fn location_diffs_save_path(lid: LocationID) -> (r: String)
    ensures
        r@ == "loc_diffs_"@ + decimal_chars(lid as int),
{
    let mut s = String::from_str("loc_diffs_");
    push_decimal(&mut s, lid);
    s
}

} // verus!
