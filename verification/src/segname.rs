//! Segment file names.
//!
//! A segment is stored in a file named by the decimal form of its base
//! offset, left-padded with zeroes to at least eight characters. Formatting
//! and parsing are verified against one decimal-value specification, so a
//! name formatted here always parses back to the same base offset; a file
//! whose name does not parse is a corrupt catalog.

use vstd::prelude::*;

use vstd::string::StrSliceExecFns;

use crate::record::{ascii_chars, ascii_to_string};

verus! {

/// The decimal digit character for a value in `0..=9`.
pub open spec fn digit_char(d: int) -> char {
    ((48 + d) as u8) as char
}

/// Whether a character is a decimal digit.
pub open spec fn is_digit_char(c: char) -> bool {
    48 <= c as u32 && c as u32 <= 57
}

/// The value a digit character contributes; a non-digit contributes zero.
pub open spec fn digit_val(c: char) -> nat {
    if is_digit_char(c) {
        (c as u32 - 48) as nat
    } else {
        0
    }
}

/// The decimal digits of `n`, most significant first, without leading
/// zeroes (`0` itself is the single digit `0`).
pub open spec fn dec_digits(n: nat) -> Seq<char>
    decreases n,
{
    if n < 10 {
        seq![digit_char(n as int)]
    } else {
        dec_digits(n / 10).push(digit_char((n % 10) as int))
    }
}

/// The numeric value of a digit string, most significant first.
pub open spec fn dec_val(s: Seq<char>) -> nat
    decreases s.len(),
{
    if s.len() == 0 {
        0
    } else {
        dec_val(s.drop_last()) * 10 + digit_val(s.last())
    }
}

/// The file name of the segment with base offset `n`: its decimal digits,
/// left-padded with zeroes to at least eight characters.
pub open spec fn seg_name(n: nat) -> Seq<char> {
    let d = dec_digits(n);
    if d.len() >= 8 {
        d
    } else {
        Seq::new((8 - d.len()) as nat, |i: int| digit_char(0)) + d
    }
}

/// Every character `dec_digits` produces is a digit, and there is at least
/// one.
pub proof fn lemma_dec_digits_are_digits(n: nat)
    ensures
        dec_digits(n).len() >= 1,
        forall|i: int|
            0 <= i < dec_digits(n).len() ==> is_digit_char(#[trigger] dec_digits(n)[i]),
    decreases n,
{
    if n < 10 {
    } else {
        lemma_dec_digits_are_digits(n / 10);
        let d = dec_digits(n);
        assert forall|i: int| 0 <= i < d.len() implies is_digit_char(#[trigger] d[i]) by {
            if i < d.len() - 1 {
                assert(d[i] == dec_digits(n / 10)[i]);
            }
        }
    }
}

/// The digits of `n` evaluate back to `n`.
pub proof fn lemma_dec_val_of_digits(n: nat)
    ensures
        dec_val(dec_digits(n)) == n,
    decreases n,
{
    if n < 10 {
        let s = seq![digit_char(n as int)];
        assert(s.drop_last() =~= Seq::<char>::empty());
        assert(dec_val(s.drop_last()) == 0);
        assert(s.last() == digit_char(n as int));
        assert(digit_char(n as int) as u32 == 48 + n);
        assert(is_digit_char(s.last()));
        assert(digit_val(s.last()) == n);
        assert(dec_val(s) == n);
    } else {
        lemma_dec_val_of_digits(n / 10);
        let s = dec_digits(n);
        assert(s.drop_last() =~= dec_digits(n / 10));
        assert(s.last() == digit_char((n % 10) as int));
        assert(digit_val(s.last()) == n % 10);
        assert(dec_val(s) == dec_val(dec_digits(n / 10)) * 10 + n % 10);
        assert(dec_val(s) == (n / 10) * 10 + n % 10);
        assert((n / 10) * 10 + n % 10 == n);
    }
}

/// Leading zeroes do not change the value of a digit string.
pub proof fn lemma_dec_val_pad(k: nat, s: Seq<char>)
    ensures
        dec_val(Seq::new(k, |i: int| digit_char(0)) + s) == dec_val(s),
    decreases s.len(),
{
    let pad = Seq::new(k, |i: int| digit_char(0));
    if s.len() == 0 {
        assert(pad + s =~= pad);
        lemma_dec_val_zeros(k);
    } else {
        assert((pad + s).drop_last() =~= pad + s.drop_last());
        assert((pad + s).last() == s.last());
        lemma_dec_val_pad(k, s.drop_last());
    }
}

/// A string of zero digits evaluates to zero.
proof fn lemma_dec_val_zeros(k: nat)
    ensures
        dec_val(Seq::new(k, |i: int| digit_char(0))) == 0,
    decreases k,
{
    let pad = Seq::new(k, |i: int| digit_char(0));
    if k == 0 {
    } else {
        assert(pad.drop_last() =~= Seq::new((k - 1) as nat, |i: int| digit_char(0)));
        lemma_dec_val_zeros((k - 1) as nat);
        assert(digit_val(pad.last()) == 0);
    }
}

/// A value never shrinks when more digits are appended: the value of a
/// prefix bounds the value of the whole string.
pub proof fn lemma_dec_val_take_le(s: Seq<char>, j: int)
    requires
        0 <= j <= s.len(),
    ensures
        dec_val(s.take(j)) <= dec_val(s),
    decreases s.len() - j,
{
    if j == s.len() {
        assert(s.take(j) =~= s);
    } else {
        assert(s.take(j + 1).drop_last() =~= s.take(j));
        assert(dec_val(s.take(j + 1)) == dec_val(s.take(j)) * 10 + digit_val(s.take(j + 1).last()));
        lemma_dec_val_take_le(s, j + 1);
    }
}

/// Round trip: the name formatted for a base offset is all digits, at least
/// eight characters long, and parses back to the same offset.
pub proof fn lemma_seg_name_round_trip(n: nat)
    ensures
        seg_name(n).len() >= 8,
        seg_name(n).len() >= 1,
        forall|i: int| 0 <= i < seg_name(n).len() ==> is_digit_char(#[trigger] seg_name(n)[i]),
        dec_val(seg_name(n)) == n,
{
    lemma_dec_digits_are_digits(n);
    lemma_dec_val_of_digits(n);
    let d = dec_digits(n);
    if d.len() >= 8 {
    } else {
        let k = (8 - d.len()) as nat;
        lemma_dec_val_pad(k, d);
        let pad = Seq::new(k, |i: int| digit_char(0));
        assert forall|i: int| 0 <= i < seg_name(n).len() implies is_digit_char(
            #[trigger] seg_name(n)[i],
        ) by {
            if i < k {
                assert(seg_name(n)[i] == digit_char(0));
            } else {
                assert(seg_name(n)[i] == d[i - k]);
            }
        }
    }
}

/// Appends the decimal digits of `n` to `out`, most significant first.
fn push_digits(n: u64, out: &mut Vec<u8>)
    ensures
        final(out)@.len() == old(out)@.len() + dec_digits(n as nat).len(),
        ascii_chars(final(out)@) == ascii_chars(old(out)@) + dec_digits(n as nat),
        forall|i: int|
            old(out)@.len() <= i < final(out)@.len() ==> 48 <= #[trigger] final(out)@[i] <= 57,
        forall|i: int| 0 <= i < old(out)@.len() ==> #[trigger] final(out)@[i] == old(out)@[i],
    decreases n,
{
    let ghost out0 = out@;
    if n < 10 {
        let b: u8 = 48 + (n as u8);
        out.push(b);
        proof {
            assert(b as char == digit_char(n as int));
            assert(ascii_chars(out@) =~= ascii_chars(out0) + dec_digits(n as nat));
        }
    } else {
        push_digits(n / 10, out);
        let ghost mid = out@;
        let b: u8 = 48 + ((n % 10) as u8);
        out.push(b);
        proof {
            assert(b as char == digit_char((n % 10) as int));
            assert(ascii_chars(mid) == ascii_chars(out0) + dec_digits((n / 10) as nat));
            let whole = ascii_chars(out0) + dec_digits(n as nat);
            assert(out@.len() == whole.len());
            assert forall|i: int| 0 <= i < out@.len() implies ascii_chars(out@)[i] == whole[i] by {
                if i < mid.len() {
                    assert(ascii_chars(out@)[i] == out@[i] as char);
                    assert(out@[i] == mid[i]);
                    assert(ascii_chars(mid)[i] == mid[i] as char);
                    assert(whole[i] == (ascii_chars(out0) + dec_digits((n / 10) as nat))[i]);
                } else {
                    assert(out@[i] == b);
                    assert(whole[i] == digit_char((n % 10) as int));
                }
            }
            assert(ascii_chars(out@) =~= whole);
        }
    }
}

/// The file name of the segment with base offset `shard_id`.
pub fn format_segment_name(shard_id: u64) -> (r: String)
    ensures
        r@ == seg_name(shard_id as nat),
{
    let mut digits: Vec<u8> = Vec::new();
    push_digits(shard_id, &mut digits);
    let mut bytes: Vec<u8> = Vec::new();
    while bytes.len() + digits.len() < 8
        invariant
            digits@.len() == dec_digits(shard_id as nat).len(),
            ascii_chars(digits@) == dec_digits(shard_id as nat),
            forall|i: int| 0 <= i < digits@.len() ==> 48 <= #[trigger] digits@[i] <= 57,
            forall|i: int| 0 <= i < bytes@.len() ==> #[trigger] bytes@[i] == 48,
            digits@.len() >= 8 ==> bytes@.len() == 0,
            digits@.len() < 8 ==> bytes@.len() + digits@.len() <= 8,
        decreases 8 - bytes@.len(),
    {
        bytes.push(48);
    }
    let ghost pad_len = bytes@.len();
    bytes.append(&mut digits);
    proof {
        let d = dec_digits(shard_id as nat);
        lemma_dec_digits_are_digits(shard_id as nat);
        if d.len() >= 8 {
            assert(pad_len == 0);
            assert(ascii_chars(bytes@) =~= seg_name(shard_id as nat));
        } else {
            assert(pad_len == 8 - d.len());
            assert(ascii_chars(bytes@) =~= Seq::new((8 - d.len()) as nat, |i: int| digit_char(0))
                + d);
        }
        assert(crate::framing::all_ascii(bytes@));
    }
    ascii_to_string(bytes)
}

/// Parses a segment file name: the base offset it denotes, or `None` if the
/// name is not a plain decimal number that fits a 64-bit offset.
pub fn parse_segment_name(name: &str) -> (r: Option<u64>)
    ensures
        r is Some <==> (name@.len() > 0 && (forall|i: int|
            0 <= i < name@.len() ==> is_digit_char(#[trigger] name@[i])) && dec_val(name@)
            <= u64::MAX),
        r matches Some(v) ==> v as nat == dec_val(name@),
{
    let len = name.unicode_len();
    if len == 0 {
        return None;
    }
    let mut acc: u64 = 0;
    let mut i: usize = 0;
    while i < len
        invariant
            len as nat == name@.len(),
            i <= len,
            forall|j: int| 0 <= j < i ==> is_digit_char(#[trigger] name@[j]),
            acc as nat == dec_val(name@.take(i as int)),
        decreases len - i,
    {
        let c = name.get_char(i);
        let u = c as u32;
        if u < 48 || u > 57 {
            proof {
                assert(!is_digit_char(name@[i as int]));
            }
            return None;
        }
        let d = (u - 48) as u64;
        proof {
            assert(is_digit_char(c));
            assert(d as nat == digit_val(c));
            assert(name@.take(i + 1 as int).drop_last() =~= name@.take(i as int));
            assert(name@.take(i + 1 as int).last() == c);
        }
        let next = match acc.checked_mul(10) {
            Some(x) => x.checked_add(d),
            None => None,
        };
        match next {
            Some(v) => {
                acc = v;
            },
            None => {
                proof {
                    assert(dec_val(name@.take(i + 1 as int)) > u64::MAX);
                    lemma_dec_val_take_le(name@, i + 1 as int);
                }
                return None;
            },
        }
        i = i + 1;
    }
    proof {
        assert(name@.take(i as int) =~= name@);
    }
    Some(acc)
}

} // verus!

