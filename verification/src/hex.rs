//! Hexadecimal encoding and decoding of byte strings.
//!
//! Seed hashes and revealed seeds travel as lowercase hex text; decoding
//! accepts either case, as the shuffle verifier compares case-insensitively.

use vstd::prelude::*;

verus! {

/// The lowercase hex digit for a value below 16.
pub open spec fn hex_char(n: int) -> char {
    if n == 0 {
        '0'
    } else if n == 1 {
        '1'
    } else if n == 2 {
        '2'
    } else if n == 3 {
        '3'
    } else if n == 4 {
        '4'
    } else if n == 5 {
        '5'
    } else if n == 6 {
        '6'
    } else if n == 7 {
        '7'
    } else if n == 8 {
        '8'
    } else if n == 9 {
        '9'
    } else if n == 10 {
        'a'
    } else if n == 11 {
        'b'
    } else if n == 12 {
        'c'
    } else if n == 13 {
        'd'
    } else if n == 14 {
        'e'
    } else {
        'f'
    }
}

/// The value of a hex digit, in either case; `None` for any other character.
pub open spec fn hex_digit_value(c: char) -> Option<u8> {
    if c == '0' {
        Some(0u8)
    } else if c == '1' {
        Some(1u8)
    } else if c == '2' {
        Some(2u8)
    } else if c == '3' {
        Some(3u8)
    } else if c == '4' {
        Some(4u8)
    } else if c == '5' {
        Some(5u8)
    } else if c == '6' {
        Some(6u8)
    } else if c == '7' {
        Some(7u8)
    } else if c == '8' {
        Some(8u8)
    } else if c == '9' {
        Some(9u8)
    } else if c == 'a' || c == 'A' {
        Some(10u8)
    } else if c == 'b' || c == 'B' {
        Some(11u8)
    } else if c == 'c' || c == 'C' {
        Some(12u8)
    } else if c == 'd' || c == 'D' {
        Some(13u8)
    } else if c == 'e' || c == 'E' {
        Some(14u8)
    } else if c == 'f' || c == 'F' {
        Some(15u8)
    } else {
        None
    }
}

/// Hex text of a byte string: two lowercase digits per byte, high nibble first.
pub open spec fn hex_of(bytes: Seq<u8>) -> Seq<char> {
    Seq::new(
        2 * bytes.len(),
        |i: int| if i % 2 == 0 {
            hex_char(bytes[i / 2] as int / 16)
        } else {
            hex_char(bytes[i / 2] as int % 16)
        },
    )
}

/// The bytes a character string denotes in hex, or `None` where it is not
/// well-formed hex (odd length, or a character that is no hex digit).
pub open spec fn hex_to_bytes(s: Seq<char>) -> Option<Seq<u8>>
    decreases s.len(),
{
    if s.len() % 2 != 0 {
        None
    } else if s.len() == 0 {
        Some(Seq::empty())
    } else {
        match (hex_digit_value(s[0]), hex_digit_value(s[1])) {
            (Some(hi), Some(lo)) => match hex_to_bytes(s.skip(2)) {
                Some(rest) => Some(seq![(hi * 16 + lo) as u8] + rest),
                None => None,
            },
            _ => None,
        }
    }
}

/// Decoding inverts encoding: the hex text of any byte string decodes back
/// to that byte string.
pub proof fn lemma_hex_round_trip(bytes: Seq<u8>)
    ensures
        hex_to_bytes(hex_of(bytes)) == Some(bytes),
    decreases bytes.len(),
{
    let s = hex_of(bytes);
    if bytes.len() == 0 {
        assert(s.len() == 0);
        assert(hex_to_bytes(s) == Some(Seq::<u8>::empty()));
        assert(bytes =~= Seq::<u8>::empty());
    } else {
        let b0 = bytes[0];
        assert(s[0] == hex_char(b0 as int / 16));
        assert(s[1] == hex_char(b0 as int % 16));
        assert(hex_digit_value(hex_char(b0 as int / 16)) == Some((b0 / 16) as u8));
        assert(hex_digit_value(hex_char(b0 as int % 16)) == Some((b0 % 16) as u8));
        assert(s.skip(2) =~= hex_of(bytes.skip(1)));
        lemma_hex_round_trip(bytes.skip(1));
        assert((b0 / 16) * 16 + b0 % 16 == b0) by (nonlinear_arith);
        assert(seq![b0] + bytes.skip(1) =~= bytes);
    }
}

/// The hex digit (as one-character text) for a nibble.
pub fn hex_digit_str(n: u8) -> (r: &'static str)
    requires
        n < 16,
    ensures
        r@ =~= seq![hex_char(n as int)],
{
    proof {
        reveal_strlit("0");
        reveal_strlit("1");
        reveal_strlit("2");
        reveal_strlit("3");
        reveal_strlit("4");
        reveal_strlit("5");
        reveal_strlit("6");
        reveal_strlit("7");
        reveal_strlit("8");
        reveal_strlit("9");
        reveal_strlit("a");
        reveal_strlit("b");
        reveal_strlit("c");
        reveal_strlit("d");
        reveal_strlit("e");
        reveal_strlit("f");
    }
    if n == 0 {
        "0"
    } else if n == 1 {
        "1"
    } else if n == 2 {
        "2"
    } else if n == 3 {
        "3"
    } else if n == 4 {
        "4"
    } else if n == 5 {
        "5"
    } else if n == 6 {
        "6"
    } else if n == 7 {
        "7"
    } else if n == 8 {
        "8"
    } else if n == 9 {
        "9"
    } else if n == 10 {
        "a"
    } else if n == 11 {
        "b"
    } else if n == 12 {
        "c"
    } else if n == 13 {
        "d"
    } else if n == 14 {
        "e"
    } else {
        "f"
    }
}

/// Encodes bytes as lowercase hex text.
pub fn encode(bytes: &Vec<u8>) -> (r: String)
    ensures
        r@ == hex_of(bytes@),
{
    let mut out = String::new();
    let mut i: usize = 0;
    while i < bytes.len()
        invariant
            i <= bytes@.len(),
            out@ =~= hex_of(bytes@.take(i as int)),
        decreases bytes@.len() - i,
    {
        let b = bytes[i];
        out.append(hex_digit_str(b / 16));
        out.append(hex_digit_str(b % 16));
        proof {
            let t0 = bytes@.take(i as int);
            let t1 = bytes@.take(i + 1);
            assert(t1 =~= t0.push(b));
            assert(hex_of(t1) =~= hex_of(t0) + seq![
                hex_char(b as int / 16),
                hex_char(b as int % 16),
            ]);
        }
        i = i + 1;
    }
    proof {
        assert(bytes@.take(bytes@.len() as int) =~= bytes@);
    }
    out
}

/// The value of an exec hex digit character, if it is one.
fn digit_value(c: char) -> (r: Option<u8>)
    ensures
        r == hex_digit_value(c),
{
    match c {
        '0' => Some(0),
        '1' => Some(1),
        '2' => Some(2),
        '3' => Some(3),
        '4' => Some(4),
        '5' => Some(5),
        '6' => Some(6),
        '7' => Some(7),
        '8' => Some(8),
        '9' => Some(9),
        'a' | 'A' => Some(10),
        'b' | 'B' => Some(11),
        'c' | 'C' => Some(12),
        'd' | 'D' => Some(13),
        'e' | 'E' => Some(14),
        'f' | 'F' => Some(15),
        _ => None,
    }
}

/// Decodes hex text to bytes; fails on odd length or a non-hex character.
pub fn decode(s: &str) -> (r: Result<Vec<u8>, ()>)
    ensures
        match r {
            Ok(v) => hex_to_bytes(s@) == Some(v@),
            Err(_) => hex_to_bytes(s@) is None,
        },
{
    let len = s.unicode_len();
    if len % 2 != 0 {
        return Err(());
    }
    let mut out: Vec<u8> = Vec::new();
    let mut i: usize = 0;
    proof {
        assert(s@.skip(0) =~= s@);
        match hex_to_bytes(s@) {
            Some(rest) => {
                assert(Seq::<u8>::empty() + rest =~= rest);
            },
            None => {},
        }
    }
    while i < len
        invariant
            len == s@.len(),
            len % 2 == 0,
            i <= len,
            i % 2 == 0,
            hex_to_bytes(s@) == match hex_to_bytes(s@.skip(i as int)) {
                Some(rest) => Some(out@ + rest),
                None => None::<Seq<u8>>,
            },
        decreases len - i,
    {
        let hi = s.get_char(i);
        let lo = s.get_char(i + 1);
        let hv = digit_value(hi);
        let lv = digit_value(lo);
        match (hv, lv) {
            (Some(h), Some(l)) => {
                let ghost out_before = out@;
                out.push(h * 16 + l);
                proof {
                    let tail = s@.skip(i as int);
                    assert(tail[0] == s@[i as int]);
                    assert(tail[1] == s@[i + 1]);
                    assert(tail.len() % 2 == 0);
                    assert(tail.skip(2) =~= s@.skip(i + 2));
                    let b = (h * 16 + l) as u8;
                    match hex_to_bytes(s@.skip(i + 2)) {
                        Some(rest2) => {
                            assert(hex_to_bytes(tail) == Some(seq![b] + rest2));
                            assert(out_before + (seq![b] + rest2) =~= out@ + rest2);
                        },
                        None => {
                            assert(hex_to_bytes(tail) is None);
                        },
                    }
                }
                i = i + 2;
            },
            _ => {
                proof {
                    let tail = s@.skip(i as int);
                    assert(tail[0] == s@[i as int]);
                    assert(tail[1] == s@[i + 1]);
                    assert(tail.len() % 2 == 0);
                    assert(hex_to_bytes(tail) is None);
                }
                return Err(());
            },
        }
    }
    proof {
        assert(s@.skip(len as int) =~= Seq::<char>::empty());
        assert(hex_to_bytes(s@.skip(len as int)) == Some(Seq::<u8>::empty()));
        assert(out@ + Seq::<u8>::empty() =~= out@);
    }
    Ok(out)
}

} // verus!
