//! Low-level helpers for the JSON byte formats.
//!
//! Both persisted documents (the sealed envelope and the plaintext record
//! collection) are canonical JSON byte strings.  This module holds what the
//! two codecs share: the escaping of string contents, the parsing of quoted
//! strings and fixed literals, and the conversion of parsed bytes back into
//! text.
//!
//! The parsing functions mirror tail-recursive specification parsers
//! (`sp_*`) exactly, so every property of the byte format is proved once, at
//! the specification level, and carries over to the executable code.

use vstd::prelude::*;
use vstd::utf8::{valid_utf8, decode_utf8};

verus! {

/// ASCII decimal digit.
pub open spec fn is_digit(b: u8) -> bool {
    48 <= b <= 57
}

/// Lowercase hexadecimal digit, the canonical form used in escapes.
pub open spec fn is_hex_lc(b: u8) -> bool {
    is_digit(b) || (97 <= b <= 102)
}

/// Value of a lowercase hexadecimal digit.
pub open spec fn hex_val(b: u8) -> u8 {
    if b <= 57 {
        (b - 48) as u8
    } else {
        (b - 87) as u8
    }
}

/// The lowercase hexadecimal digit for a value below 16.
pub open spec fn hex_char(v: u8) -> u8 {
    if v < 10 {
        (48 + v) as u8
    } else {
        (87 + v) as u8
    }
}

/// Canonical escape of one byte of string content: `"` and `\` take a
/// backslash escape, control bytes take a `\u00xx` escape with lowercase
/// hexadecimal digits, every other byte stands for itself.
pub open spec fn esc_byte(b: u8) -> Seq<u8> {
    if b == 34 {
        seq![92u8, 34u8]
    } else if b == 92 {
        seq![92u8, 92u8]
    } else if b < 32 {
        seq![92u8, 117u8, 48u8, 48u8, hex_char(b / 16), hex_char(b % 16)]
    } else {
        seq![b]
    }
}

/// Canonical escape of a whole byte sequence.
pub open spec fn esc_bytes(s: Seq<u8>) -> Seq<u8>
    decreases s.len(),
{
    if s.len() == 0 {
        Seq::<u8>::empty()
    } else {
        esc_byte(s[0]) + esc_bytes(s.drop_first())
    }
}

pub proof fn lemma_esc_bytes_snoc(s: Seq<u8>, b: u8)
    ensures
        esc_bytes(s.push(b)) == esc_bytes(s) + esc_byte(b),
    decreases s.len(),
{
    if s.len() == 0 {
        let t = s.push(b);
        assert(t[0] == b);
        assert(t.drop_first() =~= Seq::<u8>::empty());
        assert(esc_bytes(t) == esc_byte(b) + esc_bytes(t.drop_first()));
        assert(esc_bytes(t) =~= esc_bytes(s) + esc_byte(b));
    } else {
        assert(s.push(b).drop_first() =~= s.drop_first().push(b));
        lemma_esc_bytes_snoc(s.drop_first(), b);
        assert(esc_bytes(s.push(b)) =~= esc_bytes(s) + esc_byte(b));
    }
}

/// Matching a fixed literal at a position: the position just after it, if
/// the bytes there are exactly the literal.
pub open spec fn sp_lit(b: Seq<u8>, i: int, lit: Seq<u8>) -> Option<int> {
    if 0 <= i && i + lit.len() <= b.len() && b.subrange(i, i + lit.len()) == lit {
        Some(i + lit.len())
    } else {
        None
    }
}

/// Specification parser for the inside of a quoted string, entered just
/// after the opening quote.  `acc` holds the content bytes read so far;
/// the result is the full content and the position just after the closing
/// quote.  Only canonical escapes are accepted, and raw control bytes are
/// rejected.
pub open spec fn sp_qstr(b: Seq<u8>, i: int, acc: Seq<u8>) -> Option<(Seq<u8>, int)>
    decreases b.len() - i,
{
    if i < 0 || i >= b.len() {
        None
    } else if b[i] == 34 {
        Some((acc, i + 1))
    } else if b[i] == 92 {
        if i + 1 < b.len() {
            if b[i + 1] == 34 {
                sp_qstr(b, i + 2, acc.push(34))
            } else if b[i + 1] == 92 {
                sp_qstr(b, i + 2, acc.push(92))
            } else if b[i + 1] == 117 {
                if i + 5 < b.len() && b[i + 2] == 48 && b[i + 3] == 48 && is_hex_lc(b[i + 4])
                    && is_hex_lc(b[i + 5]) && hex_val(b[i + 4]) * 16 + hex_val(b[i + 5]) < 32 {
                    sp_qstr(b, i + 6, acc.push((hex_val(b[i + 4]) * 16 + hex_val(b[i + 5])) as u8))
                } else {
                    None
                }
            } else {
                None
            }
        } else {
            None
        }
    } else if b[i] < 32 {
        None
    } else {
        sp_qstr(b, i + 1, acc.push(b[i]))
    }
}

/// A successful string parse always advances and stays inside the input.
pub proof fn lemma_sp_qstr_bounds(b: Seq<u8>, i: int, acc: Seq<u8>)
    requires
        sp_qstr(b, i, acc) is Some,
    ensures
        i < sp_qstr(b, i, acc).unwrap().1 <= b.len(),
    decreases b.len() - i,
{
    if i < 0 || i >= b.len() {
    } else if b[i] == 34 {
    } else if b[i] == 92 {
        if b[i + 1] == 34 {
            lemma_sp_qstr_bounds(b, i + 2, acc.push(34));
        } else if b[i + 1] == 92 {
            lemma_sp_qstr_bounds(b, i + 2, acc.push(92));
        } else {
            lemma_sp_qstr_bounds(b, i + 6, acc.push((hex_val(b[i + 4]) * 16 + hex_val(b[i + 5])) as u8));
        }
    } else {
        lemma_sp_qstr_bounds(b, i + 1, acc.push(b[i]));
    }
}

/// Parsing the canonical escape of `s` followed by a closing quote yields
/// exactly `s`, appended to whatever was accumulated.
pub proof fn lemma_sp_qstr_complete(b: Seq<u8>, i: int, acc: Seq<u8>, s: Seq<u8>)
    requires
        0 <= i,
        i + esc_bytes(s).len() + 1 <= b.len(),
        b.subrange(i, i + esc_bytes(s).len() + 1) == esc_bytes(s) + seq![34u8],
    ensures
        sp_qstr(b, i, acc) == Some((acc + s, i + esc_bytes(s).len() + 1)),
    decreases s.len(),
{
    let e = esc_bytes(s);
    let w = b.subrange(i, i + e.len() + 1);
    if s.len() == 0 {
        assert(w[0] == 34);
        assert(b[i] == 34);
        assert(acc + s =~= acc);
    } else {
        let s0 = s[0];
        let rest = s.drop_first();
        let e0 = esc_byte(s0);
        assert(e == e0 + esc_bytes(rest));
        if s0 == 34 || s0 == 92 {
            assert(w[0] == 92 && w[1] == e0[1]);
            assert(b[i] == 92 && b[i + 1] == e0[1]);
        } else if s0 < 32 {
            assert(w[0] == 92 && w[1] == 117 && w[2] == 48 && w[3] == 48 && w[4] == hex_char(
                s0 / 16,
            ) && w[5] == hex_char(s0 % 16));
            assert(b[i] == 92 && b[i + 1] == 117 && b[i + 2] == 48 && b[i + 3] == 48 && b[i + 4]
                == hex_char(s0 / 16) && b[i + 5] == hex_char(s0 % 16));
        } else {
            assert(w[0] == s0);
            assert(b[i] == s0);
        }
        let i2 = i + e0.len();
        assert(b.subrange(i2, i2 + esc_bytes(rest).len() + 1) =~= esc_bytes(rest) + seq![34u8]) by {
            assert(forall|k: int| 0 <= k < esc_bytes(rest).len() + 1 ==> #[trigger] b.subrange(
                i2,
                i2 + esc_bytes(rest).len() + 1,
            )[k] == w[e0.len() + k]);
        }
        if s0 == 34 {
            assert(b[i] == 92 && b[i + 1] == 34);
            lemma_sp_qstr_complete(b, i2, acc.push(34), rest);
            assert(acc.push(34) + rest =~= acc + s);
        } else if s0 == 92 {
            assert(b[i] == 92 && b[i + 1] == 92);
            lemma_sp_qstr_complete(b, i2, acc.push(92), rest);
            assert(acc.push(92) + rest =~= acc + s);
        } else if s0 < 32 {
            assert(b[i] == 92 && b[i + 1] == 117 && b[i + 2] == 48 && b[i + 3] == 48);
            assert(b[i + 4] == hex_char(s0 / 16) && b[i + 5] == hex_char(s0 % 16));
            assert(is_hex_lc(hex_char(s0 / 16)) && hex_val(hex_char(s0 / 16)) == s0 / 16);
            assert(is_hex_lc(hex_char(s0 % 16)) && hex_val(hex_char(s0 % 16)) == s0 % 16);
            assert(hex_val(b[i + 4]) * 16 + hex_val(b[i + 5]) == s0);
            lemma_sp_qstr_complete(b, i2, acc.push(s0), rest);
            assert(acc.push(s0) + rest =~= acc + s);
        } else {
            assert(b[i] == s0);
            assert(s0 != 34 && s0 != 92 && s0 >= 32);
            lemma_sp_qstr_complete(b, i2, acc.push(s0), rest);
            assert(acc.push(s0) + rest =~= acc + s);
        }
    }
}

/// A successful string parse read exactly the canonical escape of what it
/// returned beyond the accumulator, followed by the closing quote.
pub proof fn lemma_sp_qstr_sound(b: Seq<u8>, i: int, acc: Seq<u8>)
    requires
        sp_qstr(b, i, acc) is Some,
    ensures
        ({
            let (s, j) = sp_qstr(b, i, acc).unwrap();
            acc.len() <= s.len() && s.subrange(0, acc.len() as int) == acc && i <= j - 1
                && b.subrange(i, j) == esc_bytes(s.subrange(acc.len() as int, s.len() as int))
                + seq![34u8]
        }),
    decreases b.len() - i,
{
    let (s, j) = sp_qstr(b, i, acc).unwrap();
    if i < 0 || i >= b.len() {
    } else if b[i] == 34 {
        assert(s == acc);
        assert(s.subrange(0, acc.len() as int) =~= acc);
        assert(esc_bytes(s.subrange(acc.len() as int, s.len() as int)) =~= Seq::<u8>::empty());
        assert(b.subrange(i, j) =~= esc_bytes(s.subrange(acc.len() as int, s.len() as int))
            + seq![34u8]);
    } else {
        let (c, i2): (u8, int) = if b[i] == 92 {
            if b[i + 1] == 34 {
                (34u8, i + 2)
            } else if b[i + 1] == 92 {
                (92u8, i + 2)
            } else {
                ((hex_val(b[i + 4]) * 16 + hex_val(b[i + 5])) as u8, i + 6)
            }
        } else {
            (b[i], i + 1)
        };
        let acc2 = acc.push(c);
        lemma_sp_qstr_sound(b, i2, acc2);
        lemma_sp_qstr_bounds(b, i2, acc2);
        assert(s.subrange(0, acc2.len() as int) == acc2);
        assert(s.subrange(0, acc.len() as int) =~= acc) by {
            assert(forall|k: int| 0 <= k < acc.len() ==> s.subrange(0, acc.len() as int)[k]
                == s.subrange(0, acc2.len() as int)[k]);
        }
        assert(s[acc.len() as int] == c) by {
            assert(s.subrange(0, acc2.len() as int)[acc.len() as int] == c);
        }
        let tail = s.subrange(acc.len() as int, s.len() as int);
        let tail2 = s.subrange(acc2.len() as int, s.len() as int);
        assert(tail =~= seq![c] + tail2);
        assert(tail.drop_first() =~= tail2);
        assert(esc_bytes(tail) == esc_byte(c) + esc_bytes(tail2));
        // the bytes read for this step are exactly esc_byte(c)
        assert(b.subrange(i, i2) =~= esc_byte(c)) by {
            if b[i] == 92 {
                if b[i + 1] == 34 {
                } else if b[i + 1] == 92 {
                } else {
                    assert(b[i + 2] == 48 && b[i + 3] == 48);
                    assert(c < 32);
                    assert(hex_char(c / 16) == b[i + 4]) by {
                        assert(hex_val(b[i + 4]) == c / 16);
                        if is_digit(b[i + 4]) {
                        } else {
                        }
                    }
                    assert(hex_char(c % 16) == b[i + 5]) by {
                        assert(hex_val(b[i + 5]) == c % 16);
                        if is_digit(b[i + 5]) {
                        } else {
                        }
                    }
                }
            } else {
                assert(c >= 32 && c != 34 && c != 92);
            }
        }
        assert(b.subrange(i, j) =~= b.subrange(i, i2) + b.subrange(i2, j));
        assert(b.subrange(i, j) =~= esc_bytes(tail) + seq![34u8]);
    }
}

/// Appends the canonical escape of `bytes` to `out`.
pub fn push_escaped(out: &mut Vec<u8>, bytes: &[u8])
    ensures
        final(out)@ == old(out)@ + esc_bytes(bytes@),
{
    let n = bytes.len();
    let mut i: usize = 0;
    while i < n
        invariant
            n == bytes@.len(),
            i <= n,
            out@ == old(out)@ + esc_bytes(bytes@.subrange(0, i as int)),
        decreases n - i,
    {
        let ghost pre = bytes@.subrange(0, i as int);
        let c = bytes[i];
        if c == 34 {
            out.push(92);
            out.push(34);
        } else if c == 92 {
            out.push(92);
            out.push(92);
        } else if c < 32 {
            out.push(92);
            out.push(117);
            out.push(48);
            out.push(48);
            out.push(48 + c / 16);
            let lo = c % 16;
            if lo < 10 {
                out.push(48 + lo);
            } else {
                out.push(87 + lo);
            }
        } else {
            out.push(c);
        }
        proof {
            if c < 32 {
                assert(hex_char(c / 16) == 48 + c / 16);
            }
            assert(bytes@.subrange(0, i + 1) =~= pre.push(c));
            lemma_esc_bytes_snoc(pre, c);
            assert(out@ =~= old(out)@ + esc_bytes(bytes@.subrange(0, i + 1)));
        }
        i = i + 1;
    }
    proof {
        assert(bytes@.subrange(0, n as int) =~= bytes@);
    }
}

/// Matches the fixed literal `lit` at position `i`, mirroring [`sp_lit`].
pub fn p_lit(b: &Vec<u8>, i: usize, lit: &Vec<u8>) -> (r: Option<usize>)
    ensures
        match r {
            Some(j) => sp_lit(b@, i as int, lit@) == Some(j as int),
            None => sp_lit(b@, i as int, lit@) is None,
        },
{
    if i > b.len() || b.len() - i < lit.len() {
        return None;
    }
    let mut k: usize = 0;
    while k < lit.len()
        invariant
            k <= lit@.len(),
            i + lit@.len() <= b@.len(),
            b@.len() <= usize::MAX,
            forall|m: int| 0 <= m < k ==> b@[i + m] == lit@[m],
        decreases lit@.len() - k,
    {
        if b[i + k] != lit[k] {
            proof {
                assert(b@.subrange(i as int, i + lit@.len())[k as int] != lit@[k as int]);
            }
            return None;
        }
        k = k + 1;
    }
    proof {
        assert(b@.subrange(i as int, i + lit@.len()) =~= lit@);
    }
    Some(i + lit.len())
}

/// Parses the inside of a quoted string, mirroring [`sp_qstr`] started with
/// an empty accumulator.
pub fn p_qstr(b: &Vec<u8>, i: usize) -> (r: Option<(Vec<u8>, usize)>)
    ensures
        match r {
            Some(p) => sp_qstr(b@, i as int, Seq::<u8>::empty()) == Some((p.0@, p.1 as int)),
            None => sp_qstr(b@, i as int, Seq::<u8>::empty()) is None,
        },
{
    let mut acc: Vec<u8> = Vec::new();
    let mut j: usize = i;
    loop
        invariant
            i <= j <= b@.len() || (j == i && i > b@.len()),
            sp_qstr(b@, i as int, Seq::<u8>::empty()) == sp_qstr(b@, j as int, acc@),
        decreases b@.len() - j,
    {
        if j >= b.len() {
            return None;
        }
        let c = b[j];
        if c == 34 {
            return Some((acc, j + 1));
        } else if c == 92 {
            if j + 1 >= b.len() {
                return None;
            }
            let d = b[j + 1];
            if d == 34 {
                acc.push(34);
                j = j + 2;
            } else if d == 92 {
                acc.push(92);
                j = j + 2;
            } else if d == 117 {
                if b.len() - j <= 5 {
                    return None;
                }
                let h1 = b[j + 4];
                let h2 = b[j + 5];
                let ok1 = (48 <= h1 && h1 <= 57) || (97 <= h1 && h1 <= 102);
                let ok2 = (48 <= h2 && h2 <= 57) || (97 <= h2 && h2 <= 102);
                if b[j + 2] == 48 && b[j + 3] == 48 && ok1 && ok2 {
                    let v1 = if h1 <= 57 { h1 - 48 } else { h1 - 87 };
                    let v2 = if h2 <= 57 { h2 - 48 } else { h2 - 87 };
                    let v = v1 * 16 + v2;
                    if v < 32 {
                        acc.push(v);
                        j = j + 6;
                    } else {
                        return None;
                    }
                } else {
                    return None;
                }
            } else {
                return None;
            }
        } else if c < 32 {
            return None;
        } else {
            acc.push(c);
            j = j + 1;
        }
    }
}

/// Relies on `String::from_utf8`: it succeeds exactly on valid UTF-8 input
/// and then decodes those bytes to the characters they encode.
#[verifier::external_body]
pub(crate) fn string_from_utf8(v: Vec<u8>) -> (r: Option<String>)
    ensures
        r is Some <==> valid_utf8(v@),
        r is Some ==> r.unwrap()@ == decode_utf8(v@),
{
    String::from_utf8(v).ok()
}

} // verus!
