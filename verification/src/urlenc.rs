use vstd::prelude::*;
use vstd::utf8::encode_utf8;

verus! {

/// The bytes that percent-encoding leaves as they are: ASCII letters and
/// digits, `-`, `.`, `_` and `~`.
pub open spec fn is_unreserved(b: u8) -> bool {
    ||| (48 <= b && b <= 57)
    ||| (65 <= b && b <= 90)
    ||| (97 <= b && b <= 122)
    ||| b == 45
    ||| b == 46
    ||| b == 95
    ||| b == 126
}

/// The upper-case hexadecimal digit for `d` (0..15).
pub open spec fn hex_digit(d: u8) -> char {
    if d < 10 {
        (48 + d) as char
    } else {
        (55 + d) as char
    }
}

/// How percent-encoding writes one byte.
pub open spec fn pct_byte(b: u8) -> Seq<char> {
    if is_unreserved(b) {
        seq![b as char]
    } else {
        seq!['%', hex_digit(b / 16), hex_digit(b % 16)]
    }
}

/// Percent-encoding of a byte sequence.
pub open spec fn pct_bytes(bs: Seq<u8>) -> Seq<char>
    decreases bs.len(),
{
    if bs.len() == 0 {
        Seq::empty()
    } else {
        pct_bytes(bs.drop_last()) + pct_byte(bs.last())
    }
}

/// Percent-encoding of the UTF-8 bytes of `s`.
pub open spec fn url_encode(s: Seq<char>) -> Seq<char> {
    pct_bytes(encode_utf8(s))
}

/// The upper-case hexadecimal digit for `d` (0..15).
fn hex_digit_char(d: u8) -> (c: char)
    requires
        d < 16,
    ensures
        c == hex_digit(d),
{
    if d < 10 {
        (48u8 + d) as char
    } else {
        (55u8 + d) as char
    }
}

/// Percent-encodes the UTF-8 bytes of `s` as `urlencoding::encode` does:
/// ASCII letters, digits, `-`, `.`, `_` and `~` stay as they are, every
/// other byte becomes `%` and two upper-case hex digits.
pub(crate) fn url_encode_str(s: &str) -> (r: String)
    ensures
        r@ == url_encode(s@),
{
    let bytes = s.as_bytes();
    let n = bytes.len();
    let mut r = String::new();
    let mut i: usize = 0;
    while i < n
        invariant
            n == bytes@.len(),
            bytes@ == encode_utf8(s@),
            i <= n,
            r@ == pct_bytes(bytes@.take(i as int)),
        decreases n - i,
    {
        let b = bytes[i];
        let ghost before = r@;
        if (48u8 <= b && b <= 57u8) || (65u8 <= b && b <= 90u8) || (97u8 <= b && b <= 122u8) || b
            == 45u8 || b == 46u8 || b == 95u8 || b == 126u8 {
            r.push(b as char);
        } else {
            r.push('%');
            r.push(hex_digit_char(b / 16));
            r.push(hex_digit_char(b % 16));
        }
        assert(r@ =~= before + pct_byte(b));
        i = i + 1;
        assert(bytes@.take(i as int).drop_last() =~= bytes@.take(i - 1));
        assert(bytes@.take(i as int).last() == b);
    }
    assert(bytes@.take(n as int) =~= bytes@);
    r
}

/// The chars that can stand in a percent-encoded text: `%`, ASCII letters
/// and digits, `-`, `.`, `_` and `~`.
pub open spec fn is_url_safe(c: char) -> bool {
    ||| c == '%'
    ||| ('0' <= c && c <= '9')
    ||| ('A' <= c && c <= 'Z')
    ||| ('a' <= c && c <= 'z')
    ||| c == '-'
    ||| c == '.'
    ||| c == '_'
    ||| c == '~'
}

proof fn lemma_pct_byte_safe(b: u8)
    ensures
        forall|i: int| 0 <= i < pct_byte(b).len() ==> is_url_safe(#[trigger] pct_byte(b)[i]),
{
    let e = pct_byte(b);
    assert(b / 16 < 16 && b % 16 < 16);
    assert forall|i: int| 0 <= i < e.len() implies is_url_safe(#[trigger] e[i]) by {
        if is_unreserved(b) {
            assert(e[i] == b as char);
        } else if i == 1 {
            assert(e[i] == hex_digit(b / 16));
        } else if i == 2 {
            assert(e[i] == hex_digit(b % 16));
        }
    }
}

/// Percent-encoded text holds nothing but `%`, ASCII letters and digits and
/// `-`, `.`, `_`, `~`: no quote, space or markup char can get through.
pub proof fn law_url_encoding_is_safe(s: Seq<char>)
    ensures
        forall|i: int| 0 <= i < url_encode(s).len() ==> is_url_safe(#[trigger] url_encode(s)[i]),
{
    lemma_pct_bytes_safe(encode_utf8(s));
}

proof fn lemma_pct_bytes_safe(bs: Seq<u8>)
    ensures
        forall|i: int| 0 <= i < pct_bytes(bs).len() ==> is_url_safe(#[trigger] pct_bytes(bs)[i]),
    decreases bs.len(),
{
    if bs.len() > 0 {
        lemma_pct_bytes_safe(bs.drop_last());
        lemma_pct_byte_safe(bs.last());
        let p = pct_bytes(bs.drop_last());
        let q = pct_byte(bs.last());
        let e = pct_bytes(bs);
        assert(e == p + q);
        assert forall|i: int| 0 <= i < e.len() implies is_url_safe(#[trigger] e[i]) by {
            if i < p.len() {
                assert(e[i] == p[i]);
            } else {
                assert(e[i] == q[i - p.len()]);
            }
        }
    }
}

/// The value of an upper-case hexadecimal digit.
pub open spec fn hex_value(c: char) -> Option<u8> {
    if '0' <= c && c <= '9' {
        Some((c as u32 - 48) as u8)
    } else if 'A' <= c && c <= 'F' {
        Some((c as u32 - 55) as u8)
    } else {
        None
    }
}

/// Percent-decoding: `%` and two upper-case hex digits stand for one byte,
/// every other char for its own code.
pub open spec fn pct_decode(t: Seq<char>) -> Seq<u8>
    decreases t.len(),
{
    if t.len() == 0 {
        Seq::empty()
    } else if t.len() >= 3 && t[t.len() - 3] == '%' && hex_value(t[t.len() - 2]) is Some
        && hex_value(t[t.len() - 1]) is Some {
        pct_decode(t.take(t.len() - 3)).push(
            (16 * hex_value(t[t.len() - 2])->0 + hex_value(t[t.len() - 1])->0) as u8,
        )
    } else {
        pct_decode(t.drop_last()).push(t.last() as u8)
    }
}

proof fn lemma_pct_bytes_percent(bs: Seq<u8>)
    ensures
        forall|i: int|
            0 <= i < pct_bytes(bs).len() && #[trigger] pct_bytes(bs)[i] == '%' ==> i + 2 < pct_bytes(
                bs,
            ).len(),
    decreases bs.len(),
{
    if bs.len() > 0 {
        lemma_pct_bytes_percent(bs.drop_last());
        let p = pct_bytes(bs.drop_last());
        let b = bs.last();
        let q = pct_byte(b);
        let t = pct_bytes(bs);
        assert(t == p + q);
        assert(b / 16 < 16 && b % 16 < 16);
        assert forall|i: int| 0 <= i < t.len() && #[trigger] t[i] == '%' implies i + 2 < t.len() by {
            if i < p.len() {
                assert(t[i] == p[i]);
            } else {
                assert(t[i] == q[i - p.len()]);
                if is_unreserved(b) {
                    assert(q[0] == b as char);
                }
            }
        }
    }
}

proof fn lemma_pct_decode_bytes(bs: Seq<u8>)
    ensures
        pct_decode(pct_bytes(bs)) == bs,
    decreases bs.len(),
{
    if bs.len() > 0 {
        let x = bs.drop_last();
        let b = bs.last();
        lemma_pct_decode_bytes(x);
        lemma_pct_bytes_percent(x);
        let p = pct_bytes(x);
        let q = pct_byte(b);
        let t = pct_bytes(bs);
        assert(t == p + q);
        assert(b / 16 < 16 && b % 16 < 16);
        if is_unreserved(b) {
            assert(t.drop_last() =~= p);
            assert(t.last() == b as char);
            if t.len() >= 3 && t[t.len() - 3] == '%' {
                assert(p[p.len() - 2] == '%');
                assert(false);
            }
        } else {
            assert(t.take(t.len() - 3) =~= p);
            assert(t[t.len() - 3] == '%');
            assert(hex_value(t[t.len() - 2]) == Some(b / 16));
            assert(hex_value(t[t.len() - 1]) == Some(b % 16));
        }
        assert(bs =~= x.push(b));
    } else {
        assert(pct_bytes(bs) =~= Seq::<char>::empty());
    }
}

/// Percent-decoding the percent-encoding of `s` gives back the UTF-8 bytes
/// of `s`: the encoding of a page name loses nothing and uses upper-case hex.
pub proof fn law_url_encoding_decodes_back(s: Seq<char>)
    ensures
        pct_decode(url_encode(s)) == encode_utf8(s),
{
    lemma_pct_decode_bytes(encode_utf8(s));
}

} // verus!
