use vstd::prelude::*;

verus! {

/// The value of one base-62 digit: `A`..`Z` are 0..25, `a`..`z` are 26..51,
/// `0`..`9` are 52..61; any other byte counts as 0.
pub open spec fn base62_digit(b: u8) -> nat {
    if 48 <= b && b <= 57 {
        (52 + (b - 48)) as nat
    } else if 65 <= b && b <= 90 {
        (b - 65) as nat
    } else if 97 <= b && b <= 122 {
        (26 + (b - 97)) as nat
    } else {
        0
    }
}

/// 62 to the power `n`.
pub open spec fn pow62(n: nat) -> nat
    decreases n,
{
    if n == 0 {
        1
    } else {
        62 * pow62((n - 1) as nat)
    }
}

/// The number that `digits` spells in base 62, least significant digit first.
pub open spec fn base62_value(digits: Seq<u8>) -> nat
    decreases digits.len(),
{
    if digits.len() == 0 {
        0
    } else {
        base62_value(digits.drop_last()) + pow62((digits.len() - 1) as nat) * base62_digit(
            digits.last(),
        )
    }
}

/// What `dec_base62` gives for a string whose UTF-8 bytes are `bytes`.
pub open spec fn spec_dec_base62(bytes: Seq<u8>) -> nat {
    if bytes.len() > 4 {
        0
    } else {
        base62_value(bytes)
    }
}

/// Decodes a page id written in base 62 (least significant digit first).
/// Strings longer than four bytes decode to 0.
pub fn dec_base62(s: &String) -> (r: u32)
    ensures
        r == spec_dec_base62(vstd::utf8::encode_utf8(s@)),
        vstd::utf8::encode_utf8(s@).len() > 4 ==> r == 0,
{
    let bytes = s.as_str().as_bytes();
    let mut r: u32 = 0;
    let mut dig: u32 = 1;
    if bytes.len() > 4 {
        return 0;
    }
    let n = bytes.len();
    let mut d: usize = 0;
    while d < n
        invariant
            n == bytes@.len(),
            n <= 4,
            d <= n,
            dig == pow62(d as nat),
            r == base62_value(bytes@.take(d as int)),
            r < dig,
        decreases n - d,
    {
        let b = bytes[d];
        let a: u32 = if 48u8 <= b && b <= 57u8 {
            52 + ((b - 48u8) as u32)
        } else if 65u8 <= b && b <= 90u8 {
            (b - 65u8) as u32
        } else if 97u8 <= b && b <= 122u8 {
            26 + ((b - 97u8) as u32)
        } else {
            0
        };
        assert(bytes@.take(d + 1).drop_last() =~= bytes@.take(d as int));
        assert(dig <= 238328) by {
            reveal_with_fuel(pow62, 5);
        }
        assert(r + dig * a < 62 * dig) by (nonlinear_arith)
            requires
                r < dig,
                a <= 61,
        ;
        r = r + dig * a;
        dig = dig * 62;
        d = d + 1;
    }
    assert(bytes@.take(n as int) =~= bytes@);
    r
}

/// The bytes that are base-62 digits: ASCII letters and digits.
pub open spec fn is_base62_byte(b: u8) -> bool {
    (48 <= b && b <= 57) || (65 <= b && b <= 90) || (97 <= b && b <= 122)
}

proof fn lemma_pow62_positive(n: nat)
    ensures
        pow62(n) >= 1,
    decreases n,
{
    if n > 0 {
        lemma_pow62_positive((n - 1) as nat);
    }
}

/// A number of `n` base-62 digits is below 62 to the `n`.
pub proof fn law_value_below_power(digits: Seq<u8>)
    ensures
        base62_value(digits) < pow62(digits.len()),
    decreases digits.len(),
{
    if digits.len() > 0 {
        let n = (digits.len() - 1) as nat;
        law_value_below_power(digits.drop_last());
        let p = pow62(n);
        let d = base62_digit(digits.last());
        let x = base62_value(digits.drop_last());
        assert(d <= 61);
        assert(x + p * d < 62 * p) by (nonlinear_arith)
            requires
                x < p,
                d <= 61,
        ;
    }
}

/// Every page id decodes to a number below 62 to the 4th, 14776336.
pub proof fn law_page_id_bound(bytes: Seq<u8>)
    ensures
        spec_dec_base62(bytes) < 14776336,
{
    if bytes.len() <= 4 {
        law_value_below_power(bytes);
        lemma_pow62_monotone(bytes.len(), 4);
        reveal_with_fuel(pow62, 5);
    }
}

proof fn lemma_pow62_monotone(a: nat, b: nat)
    requires
        a <= b,
    ensures
        pow62(a) <= pow62(b),
    decreases b,
{
    if a < b {
        lemma_pow62_monotone(a, (b - 1) as nat);
        lemma_pow62_positive((b - 1) as nat);
    }
}

proof fn lemma_digit_split(x1: nat, d1: nat, x2: nat, d2: nat, p: nat)
    requires
        x1 < p,
        x2 < p,
        x1 + p * d1 == x2 + p * d2,
    ensures
        d1 == d2,
        x1 == x2,
{
    if d1 < d2 {
        assert(p * d1 + p <= p * d2) by (nonlinear_arith)
            requires
                d1 < d2,
        ;
    } else if d2 < d1 {
        assert(p * d2 + p <= p * d1) by (nonlinear_arith)
            requires
                d2 < d1,
        ;
    }
}

/// Page ids of the same length made only of base-62 digits decode to
/// different numbers when they differ: the decoding loses nothing.
pub proof fn law_base62_injective(a: Seq<u8>, b: Seq<u8>)
    requires
        a.len() == b.len(),
        forall|i: int| 0 <= i < a.len() ==> is_base62_byte(#[trigger] a[i]),
        forall|i: int| 0 <= i < b.len() ==> is_base62_byte(#[trigger] b[i]),
        base62_value(a) == base62_value(b),
    ensures
        a == b,
    decreases a.len(),
{
    if a.len() > 0 {
        let n = (a.len() - 1) as nat;
        law_value_below_power(a.drop_last());
        law_value_below_power(b.drop_last());
        lemma_digit_split(
            base62_value(a.drop_last()),
            base62_digit(a.last()),
            base62_value(b.drop_last()),
            base62_digit(b.last()),
            pow62(n),
        );
        assert(is_base62_byte(a[a.len() - 1]));
        assert(is_base62_byte(b[b.len() - 1]));
        assert(a.last() == b.last());
        assert forall|i: int| 0 <= i < a.drop_last().len() implies is_base62_byte(
            #[trigger] a.drop_last()[i],
        ) by {
            assert(a.drop_last()[i] == a[i]);
        }
        assert forall|i: int| 0 <= i < b.drop_last().len() implies is_base62_byte(
            #[trigger] b.drop_last()[i],
        ) by {
            assert(b.drop_last()[i] == b[i]);
        }
        law_base62_injective(a.drop_last(), b.drop_last());
        assert(a =~= a.drop_last().push(a.last()));
        assert(b =~= b.drop_last().push(b.last()));
    } else {
        assert(a =~= b);
    }
}

/// Every string of more than four bytes decodes to 0: such a string is a
/// page name, not a page id.
pub proof fn law_long_string_decodes_to_zero(bytes: Seq<u8>)
    requires
        bytes.len() > 4,
    ensures
        spec_dec_base62(bytes) == 0,
{
}

/// A trailing `A` (the digit 0, most significant) does not change a page id
/// of at most four bytes.
pub proof fn law_trailing_zero_digit(bytes: Seq<u8>)
    requires
        bytes.len() < 4,
    ensures
        spec_dec_base62(bytes.push(65)) == spec_dec_base62(bytes),
{
    let t = bytes.push(65u8);
    assert(t.drop_last() =~= bytes);
    assert(t.last() == 65u8);
    assert(base62_digit(65u8) == 0);
    let p = pow62((t.len() - 1) as nat);
    assert(p * 0 == 0);
    assert(base62_value(t) == base62_value(bytes) + p * base62_digit(t.last()));
}

/// The base-62 digit byte for the value `d` (0..61).
pub open spec fn digit_byte(d: nat) -> u8 {
    if d < 26 {
        (65 + d) as u8
    } else if d < 52 {
        (97 + d - 26) as u8
    } else {
        (48 + d - 52) as u8
    }
}

/// The lowest `k` base-62 digits of `n`, least significant first.
pub open spec fn base62_digits(n: nat, k: nat) -> Seq<u8>
    decreases k,
{
    if k == 0 {
        Seq::empty()
    } else {
        base62_digits(n, (k - 1) as nat).push(
            digit_byte(((n / pow62((k - 1) as nat)) % 62) as nat),
        )
    }
}

proof fn lemma_digits_value(n: nat, k: nat)
    ensures
        base62_digits(n, k).len() == k,
        base62_value(base62_digits(n, k)) == n % pow62(k),
    decreases k,
{
    if k == 0 {
        assert(n % 1 == 0);
    } else {
        let km = (k - 1) as nat;
        lemma_digits_value(n, km);
        lemma_pow62_positive(km);
        let p = pow62(km);
        let d = ((n / p) % 62) as nat;
        assert(base62_digits(n, k).drop_last() =~= base62_digits(n, km));
        assert(base62_digit(digit_byte(d)) == d);
        vstd::arithmetic::div_mod::lemma_breakdown(n as int, p as int, 62);
        assert(p * 62 == 62 * p) by (nonlinear_arith);
    }
}

/// Decoding the four base-62 digits of a number below 62 to the 4th gives
/// the number back.
pub proof fn law_decode_four_digits(n: nat)
    requires
        n < 14776336,
    ensures
        spec_dec_base62(base62_digits(n, 4)) == n,
{
    lemma_digits_value(n, 4);
    reveal_with_fuel(pow62, 5);
    assert(pow62(4) == 14776336);
    vstd::arithmetic::div_mod::lemma_small_mod(n, 14776336);
}

} // verus!
