//! Numbers and digests as ASCII text.

use vstd::prelude::*;

verus! {

/// The decimal digits of `n`, most significant first, with no leading zero.
pub open spec fn spec_decimal(n: nat) -> Seq<u8>
    decreases n,
{
    if n < 10 {
        seq![(48 + n) as u8]
    } else {
        spec_decimal(n / 10).push((48 + n % 10) as u8)
    }
}

/// Every byte of a decimal rendering is a digit.
pub proof fn lemma_decimal_digits(n: nat)
    ensures
        spec_decimal(n).len() > 0,
        forall|i: int| 0 <= i < spec_decimal(n).len() ==> 48 <= #[trigger] spec_decimal(n)[i] <= 57,
    decreases n,
{
    if n >= 10 {
        lemma_decimal_digits(n / 10);
    }
}

/// The decimal digits of `n`.
pub fn decimal(n: usize) -> (r: Vec<u8>)
    ensures
        r@ == spec_decimal(n as nat),
    decreases n,
{
    if n < 10 {
        let d: u8 = 48 + (n as u8);
        let r: Vec<u8> = vec![d];
        proof {
            assert(r@ =~= spec_decimal(n as nat));
        }
        r
    } else {
        let mut r = decimal(n / 10);
        let d: u8 = 48 + ((n % 10) as u8);
        r.push(d);
        r
    }
}

/// The lowercase hexadecimal digit for `d`, which is below 16.
pub open spec fn spec_hex_digit(d: u8) -> u8 {
    if d < 10 {
        (48 + d) as u8
    } else {
        (87 + d) as u8
    }
}

/// Two lowercase hexadecimal digits for each byte of `s`, high digit first.
pub open spec fn spec_hex(s: Seq<u8>) -> Seq<u8> {
    Seq::new(
        2 * s.len(),
        |i: int|
            if i % 2 == 0 {
                spec_hex_digit(s[i / 2] / 16)
            } else {
                spec_hex_digit(s[i / 2] % 16)
            },
    )
}

/// A hexadecimal rendering holds no white space.
pub proof fn lemma_hex_clean(s: Seq<u8>)
    ensures
        spec_hex(s).len() == 2 * s.len(),
        forall|i: int|
            0 <= i < spec_hex(s).len() ==> !crate::bytes::spec_is_space(#[trigger] spec_hex(s)[i]),
{
    assert forall|i: int| 0 <= i < spec_hex(s).len() implies !crate::bytes::spec_is_space(
        #[trigger] spec_hex(s)[i],
    ) by {
        let b = s[i / 2];
        assert(b / 16 < 16 && b % 16 < 16) by (bit_vector);
    }
}

fn hex_digit(d: u8) -> (r: u8)
    requires
        d < 16,
    ensures
        r == spec_hex_digit(d),
{
    if d < 10 {
        48 + d
    } else {
        87 + d
    }
}

/// `s` in lowercase hexadecimal.
pub fn hex(s: &[u8]) -> (r: Vec<u8>)
    ensures
        r@ == spec_hex(s@),
{
    let mut r: Vec<u8> = Vec::new();
    let mut i: usize = 0;
    while i < s.len()
        invariant
            i <= s.len(),
            r@.len() == 2 * i,
            forall|k: int| 0 <= k < 2 * i ==> r@[k] == spec_hex(s@)[k],
        decreases s.len() - i,
    {
        let b = s[i];
        r.push(hex_digit(b / 16));
        r.push(hex_digit(b % 16));
        i += 1;
    }
    proof {
        assert(r@ =~= spec_hex(s@));
    }
    r
}

} // verus!
