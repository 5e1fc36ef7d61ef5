use vstd::prelude::*;
use vstd::string::StringSliceAdditionalSpecFns;
use crate::ast::push_char;

verus! {

/// An ASCII hex digit, as a byte of the input text.
pub open spec fn is_hex_byte(b: u8) -> bool {
    (48 <= b && b <= 57) || (97 <= b && b <= 102) || (65 <= b && b <= 70)
}

/// The value of an ASCII hex digit.
pub open spec fn hex_byte_val(b: u8) -> u8 {
    if 48 <= b && b <= 57 {
        (b - 48) as u8
    } else if 97 <= b && b <= 102 {
        (b - 87) as u8
    } else if 65 <= b && b <= 70 {
        (b - 55) as u8
    } else {
        0
    }
}

/// An ASCII whitespace byte: space, or one of tab, line feed, vertical
/// tab, form feed, carriage return.
pub open spec fn is_space_byte(b: u8) -> bool {
    b == 32 || (9 <= b && b <= 13)
}

/// The input's bytes with whitespace removed. In well-formed hex input
/// this leaves the hex digits and nothing else.
pub open spec fn non_space_of(s: Seq<u8>) -> Seq<u8>
    decreases s.len(),
{
    if s.len() == 0 {
        Seq::empty()
    } else if is_space_byte(s.last()) {
        non_space_of(s.drop_last())
    } else {
        non_space_of(s.drop_last()).push(s.last())
    }
}

/// Every byte is a hex digit.
pub open spec fn all_hex(h: Seq<u8>) -> bool {
    forall|k: int| 0 <= k < h.len() ==> is_hex_byte(#[trigger] h[k])
}

/// Digit pairs read as bytes, high digit first.
pub open spec fn hex_pairs(h: Seq<u8>) -> Seq<u8>
    decreases h.len(),
{
    if h.len() < 2 {
        Seq::empty()
    } else {
        hex_pairs(h.drop_last().drop_last()).push(
            (hex_byte_val(h[h.len() - 2]) * 16 + hex_byte_val(h.last())) as u8,
        )
    }
}

/// What the scan has kept after a prefix stays a prefix of what the whole
/// input keeps.
proof fn lemma_non_space_prefix(s: Seq<u8>, j: int)
    requires
        0 <= j <= s.len(),
    ensures
        non_space_of(s.take(j)).is_prefix_of(non_space_of(s)),
    decreases s.len() - j,
{
    if j == s.len() {
        assert(s.take(j) =~= s);
    } else {
        lemma_non_space_prefix(s, j + 1);
        assert(s.take(j + 1).drop_last() =~= s.take(j));
        assert(s.take(j + 1).last() == s[j]);
        let a = non_space_of(s.take(j));
        let b = non_space_of(s.take(j + 1));
        let c = non_space_of(s);
        assert(a.is_prefix_of(b));
        assert(a =~= c.subrange(0, a.len() as int));
    }
}

/// Read a target byte sequence from hex text: whitespace is ignored, any
/// other character that is not a hex digit is malformed, and the digits
/// must pair up evenly.
pub fn parse_hex_bytes(s: &str) -> (r: Result<Vec<u8>, String>)
    ensures
        ({
            let digits = non_space_of(s.spec_bytes());
            match r {
                Ok(v) => all_hex(digits) && digits.len() % 2 == 0 && v@ == hex_pairs(digits),
                Err(e) => (!all_hex(digits) || digits.len() % 2 != 0) && (!all_hex(digits)
                    ==> e@ == "Invalid hex digit"@) && (all_hex(digits) && digits.len() % 2 != 0
                    ==> e@ == "Hex string must have an even number of hex digits"@),
            }
        }),
{
    let bs = s.as_bytes();
    let mut digs: Vec<u8> = Vec::new();
    let mut i: usize = 0;
    while i < bs.len()
        invariant
            i <= bs@.len(),
            bs@ == s.spec_bytes(),
            digs@ == non_space_of(bs@.take(i as int)),
            all_hex(digs@),
        decreases bs@.len() - i,
    {
        let b = bs[i];
        proof {
            assert(bs@.take(i + 1).drop_last() =~= bs@.take(i as int));
            assert(bs@.take(i + 1).last() == bs@[i as int]);
        }
        if b == 32 || (9 <= b && b <= 13) {
            // whitespace: ignored
        } else if (48 <= b && b <= 57) || (97 <= b && b <= 102) || (65 <= b && b <= 70) {
            digs.push(b);
        } else {
            proof {
                lemma_non_space_prefix(bs@, i + 1);
                let kept = non_space_of(bs@.take(i + 1));
                let whole = non_space_of(bs@);
                assert(kept =~= digs@.push(b));
                assert(kept[kept.len() - 1] == b);
                assert(kept.len() <= whole.len() && kept == whole.subrange(
                    0,
                    kept.len() as int,
                ));
                assert(whole.subrange(0, kept.len() as int)[kept.len() - 1] == whole[kept.len()
                    - 1]);
                assert(whole[kept.len() - 1] == b);
            }
            return Err("Invalid hex digit".to_owned());
        }
        i = i + 1;
    }
    proof {
        assert(bs@.take(bs@.len() as int) =~= bs@);
    }
    if digs.len() % 2 != 0 {
        return Err("Hex string must have an even number of hex digits".to_owned());
    }
    let mut out: Vec<u8> = Vec::new();
    let mut j: usize = 0;
    while j + 1 < digs.len()
        invariant
            j <= digs@.len(),
            j % 2 == 0,
            digs@.len() % 2 == 0,
            digs@ == non_space_of(s.spec_bytes()),
            all_hex(digs@),
            out@ == hex_pairs(digs@.take(j as int)),
        decreases digs@.len() - j,
    {
        let hi = digs[j];
        let lo = digs[j + 1];
        let hv = if hi <= 57 {
            hi - 48
        } else if hi >= 97 {
            hi - 87
        } else {
            hi - 55
        };
        let lv = if lo <= 57 {
            lo - 48
        } else if lo >= 97 {
            lo - 87
        } else {
            lo - 55
        };
        out.push(hv * 16 + lv);
        proof {
            assert(digs@.take(j + 2).drop_last().drop_last() =~= digs@.take(j as int));
            assert(digs@.take(j + 2).last() == digs@[j + 1]);
            assert(digs@.take(j + 2)[j as int] == digs@[j as int]);
        }
        j = j + 2;
    }
    proof {
        assert(digs@.take(digs@.len() as int) =~= digs@);
    }
    Ok(out)
}

/// One byte rendered in decimal, no leading zeros.
pub open spec fn dec_digits(b: u8) -> Seq<char> {
    if b < 10 {
        seq![((48 + b) as u8) as char]
    } else if b < 100 {
        seq![((48 + b / 10) as u8) as char, ((48 + b % 10) as u8) as char]
    } else {
        seq![
            ((48 + b / 100) as u8) as char,
            ((48 + (b / 10) % 10) as u8) as char,
            ((48 + b % 10) as u8) as char,
        ]
    }
}

/// A byte sequence rendered in decimal, one space between numbers.
pub open spec fn dec_text(s: Seq<u8>) -> Seq<char>
    decreases s.len(),
{
    if s.len() == 0 {
        Seq::empty()
    } else if s.len() == 1 {
        dec_digits(s[0])
    } else {
        dec_text(s.drop_last()) + seq![' '] + dec_digits(s.last())
    }
}

/// Render bytes as space-separated decimal numbers.
pub fn to_dec(bytes: &[u8]) -> (r: String)
    ensures
        r@ == dec_text(bytes@),
{
    let mut s = String::new();
    let mut i: usize = 0;
    while i < bytes.len()
        invariant
            i <= bytes@.len(),
            s@ == dec_text(bytes@.take(i as int)),
        decreases bytes@.len() - i,
    {
        if i > 0 {
            push_char(&mut s, ' ');
        }
        let b = bytes[i];
        if b >= 100 {
            push_char(&mut s, (48 + b / 100) as char);
            push_char(&mut s, (48 + (b / 10) % 10) as char);
            push_char(&mut s, (48 + b % 10) as char);
        } else if b >= 10 {
            push_char(&mut s, (48 + b / 10) as char);
            push_char(&mut s, (48 + b % 10) as char);
        } else {
            push_char(&mut s, (48 + b) as char);
        }
        proof {
            assert(bytes@.take(i + 1).drop_last() =~= bytes@.take(i as int));
            assert(bytes@.take(i + 1).last() == bytes@[i as int]);
            assert(s@ =~= dec_text(bytes@.take(i + 1)));
        }
        i = i + 1;
    }
    proof {
        assert(bytes@.take(bytes@.len() as int) =~= bytes@);
    }
    s
}

} // verus!
