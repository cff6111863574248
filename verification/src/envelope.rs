//! Byte format of the sealed on-disk envelope.
//!
//! A stored vault file is one canonical JSON object,
//! `{"salt":[..],"nonce":[..],"ciphertext":[..]}`, each list holding the
//! bytes as decimal integers 0..=255.  [`envelope_json`] specifies the
//! document exactly; [`encode_envelope`] produces it and
//! [`decode_envelope`] accepts exactly it, so storing and reloading an
//! envelope is proved to be lossless.

use vstd::prelude::*;
use crate::json::{is_digit, sp_lit, p_lit};
use crate::models::{EncryptedVault, EnvelopeModel};
use crate::errors::StoreError;

verus! {

/// Canonical decimal encoding of one byte: no leading zeros.
pub open spec fn num_json(v: u8) -> Seq<u8> {
    if v < 10 {
        seq![(48 + v) as u8]
    } else if v < 100 {
        seq![(48 + v / 10) as u8, (48 + v % 10) as u8]
    } else {
        seq![(48 + v / 100) as u8, (48 + (v / 10) % 10) as u8, (48 + v % 10) as u8]
    }
}

/// Comma-prefixed encodings of every list element after the first.
pub open spec fn nums_tail_json(s: Seq<u8>) -> Seq<u8>
    decreases s.len(),
{
    if s.len() == 0 {
        Seq::<u8>::empty()
    } else {
        seq![44u8] + num_json(s[0]) + nums_tail_json(s.drop_first())
    }
}

/// Comma-separated encodings of all list elements.
pub open spec fn nums_json(s: Seq<u8>) -> Seq<u8> {
    if s.len() == 0 {
        Seq::<u8>::empty()
    } else {
        num_json(s[0]) + nums_tail_json(s.drop_first())
    }
}

/// A full bracketed byte list.
pub open spec fn bytes_json(s: Seq<u8>) -> Seq<u8> {
    seq![91u8] + nums_json(s) + seq![93u8]
}

/// `{"salt":`
pub open spec fn lit_env_salt() -> Seq<u8> {
    seq![123u8, 34u8, 115u8, 97u8, 108u8, 116u8, 34u8, 58u8]
}

/// `,"nonce":`
pub open spec fn lit_env_nonce() -> Seq<u8> {
    seq![44u8, 34u8, 110u8, 111u8, 110u8, 99u8, 101u8, 34u8, 58u8]
}

/// `,"ciphertext":`
pub open spec fn lit_env_ct() -> Seq<u8> {
    seq![44u8, 34u8, 99u8, 105u8, 112u8, 104u8, 101u8, 114u8, 116u8, 101u8, 120u8, 116u8, 34u8, 58u8]
}

/// The whole canonical envelope document.
pub open spec fn envelope_json(salt: Seq<u8>, nonce: Seq<u8>, ct: Seq<u8>) -> Seq<u8> {
    lit_env_salt() + bytes_json(salt) + lit_env_nonce() + bytes_json(nonce) + lit_env_ct()
        + bytes_json(ct) + seq![125u8]
}

/// Specification parser for one canonical decimal byte.
pub open spec fn sp_num(b: Seq<u8>, i: int) -> Option<(u8, int)> {
    if i < 0 || i >= b.len() || !is_digit(b[i]) {
        None
    } else if b[i] == 48 {
        if i + 1 < b.len() && is_digit(b[i + 1]) {
            None
        } else {
            Some((0, i + 1))
        }
    } else {
        let d1 = (b[i] - 48) as u8;
        if i + 1 < b.len() && is_digit(b[i + 1]) {
            let d2 = (b[i + 1] - 48) as u8;
            if i + 2 < b.len() && is_digit(b[i + 2]) {
                let d3 = (b[i + 2] - 48) as u8;
                let v = d1 * 100 + d2 * 10 + d3;
                if v <= 255 && !(i + 3 < b.len() && is_digit(b[i + 3])) {
                    Some(((d1 * 100 + d2 * 10 + d3) as u8, i + 3))
                } else {
                    None
                }
            } else {
                Some(((d1 * 10 + d2) as u8, i + 2))
            }
        } else {
            Some((d1, i + 1))
        }
    }
}

/// Specification parser for the bracketed list, entered just after `[`.
pub open spec fn sp_nums(b: Seq<u8>, i: int, acc: Seq<u8>) -> Option<(Seq<u8>, int)>
    decreases b.len() - i,
{
    if i < 0 || i >= b.len() {
        None
    } else if b[i] == 93 {
        Some((acc, i + 1))
    } else if acc.len() > 0 && b[i] != 44 {
        None
    } else {
        let start = if acc.len() == 0 {
            i
        } else {
            i + 1
        };
        match sp_num(b, start) {
            None => None,
            Some((v, j)) => if i < j <= b.len() {
                sp_nums(b, j, acc.push(v))
            } else {
                None
            },
        }
    }
}

/// Specification parser for the whole envelope document.
pub open spec fn sp_envelope(b: Seq<u8>) -> Option<EnvelopeModel> {
    match sp_lit(b, 0, lit_env_salt()) {
        None => None,
        Some(j1) => if j1 < b.len() && b[j1] == 91 {
            match sp_nums(b, j1 + 1, Seq::<u8>::empty()) {
                None => None,
                Some((salt, j2)) => match sp_lit(b, j2, lit_env_nonce()) {
                    None => None,
                    Some(j3) => if j3 < b.len() && b[j3] == 91 {
                        match sp_nums(b, j3 + 1, Seq::<u8>::empty()) {
                            None => None,
                            Some((nonce, j4)) => match sp_lit(b, j4, lit_env_ct()) {
                                None => None,
                                Some(j5) => if j5 < b.len() && b[j5] == 91 {
                                    match sp_nums(b, j5 + 1, Seq::<u8>::empty()) {
                                        None => None,
                                        Some((ct, j6)) => if j6 + 1 == b.len() && b[j6] == 125 {
                                            Some(
                                                (EnvelopeModel {
                                                    salt: salt,
                                                    nonce: nonce,
                                                    ciphertext: ct,
                                                }),
                                            )
                                        } else {
                                            None
                                        },
                                    }
                                } else {
                                    None
                                },
                            },
                        }
                    } else {
                        None
                    },
                },
            }
        } else {
            None
        },
    }
}

pub proof fn lemma_nums_tail_snoc(s: Seq<u8>, v: u8)
    ensures
        nums_tail_json(s.push(v)) == nums_tail_json(s) + seq![44u8] + num_json(v),
    decreases s.len(),
{
    let t2 = s.push(v);
    if s.len() == 0 {
        assert(t2[0] == v);
        assert(t2.drop_first() =~= Seq::<u8>::empty());
        assert(nums_tail_json(t2.drop_first()) == Seq::<u8>::empty());
        assert(nums_tail_json(t2) == seq![44u8] + num_json(v) + nums_tail_json(t2.drop_first()));
        assert(nums_tail_json(s) == Seq::<u8>::empty());
        assert(nums_tail_json(t2) =~= nums_tail_json(s) + seq![44u8] + num_json(v));
    } else {
        assert(t2[0] == s[0]);
        assert(t2.drop_first() =~= s.drop_first().push(v));
        lemma_nums_tail_snoc(s.drop_first(), v);
        assert(nums_tail_json(t2) == seq![44u8] + num_json(t2[0]) + nums_tail_json(
            t2.drop_first(),
        ));
        assert(nums_tail_json(t2) =~= nums_tail_json(s) + seq![44u8] + num_json(v));
    }
}

pub proof fn lemma_nums_json_snoc(s: Seq<u8>, v: u8)
    ensures
        nums_json(s.push(v)) == if s.len() == 0 {
            num_json(v)
        } else {
            nums_json(s) + seq![44u8] + num_json(v)
        },
{
    if s.len() == 0 {
        assert(s.push(v)[0] == v);
        assert(s.push(v).drop_first() =~= Seq::<u8>::empty());
        assert(nums_json(s.push(v)) =~= num_json(v));
    } else {
        assert(s.push(v)[0] == s[0]);
        assert(s.push(v).drop_first() =~= s.drop_first().push(v));
        lemma_nums_tail_snoc(s.drop_first(), v);
        assert(nums_json(s.push(v)) =~= nums_json(s) + seq![44u8] + num_json(v));
    }
}

/// Parsing the canonical encoding of a byte, followed by a non-digit,
/// yields exactly that byte.
pub proof fn lemma_sp_num_complete(b: Seq<u8>, i: int, v: u8)
    requires
        0 <= i,
        i + num_json(v).len() < b.len(),
        b.subrange(i, i + num_json(v).len()) == num_json(v),
        !is_digit(b[i + num_json(v).len()]),
    ensures
        sp_num(b, i) == Some((v, i + num_json(v).len())),
{
    let nj = num_json(v);
    let w = b.subrange(i, i + nj.len());
    if v < 10 {
        assert(w[0] == 48 + v);
        assert(b[i] == 48 + v);
    } else if v < 100 {
        assert(w[0] == 48 + v / 10 && w[1] == 48 + v % 10);
        assert(b[i] == 48 + v / 10 && b[i + 1] == 48 + v % 10);
        assert(b[i] != 48);
        assert((b[i] - 48) * 10 + (b[i + 1] - 48) == v);
    } else {
        assert(w[0] == 48 + v / 100 && w[1] == 48 + (v / 10) % 10 && w[2] == 48 + v % 10);
        assert(b[i] == 48 + v / 100 && b[i + 1] == 48 + (v / 10) % 10 && b[i + 2] == 48 + v % 10);
        assert(b[i] != 48);
        assert((b[i] - 48) * 100 + (b[i + 1] - 48) * 10 + (b[i + 2] - 48) == v);
    }
}

/// A successful byte parse read exactly that byte's canonical encoding.
pub proof fn lemma_sp_num_sound(b: Seq<u8>, i: int)
    requires
        sp_num(b, i) is Some,
    ensures
        ({
            let (v, j) = sp_num(b, i).unwrap();
            0 <= i && i < j <= b.len() && j == i + num_json(v).len() && b.subrange(i, j)
                == num_json(v)
        }),
{
    let (v, j) = sp_num(b, i).unwrap();
    if b[i] == 48 {
        assert(b.subrange(i, j) =~= num_json(v));
    } else {
        let d1 = (b[i] - 48) as u8;
        if i + 1 < b.len() && is_digit(b[i + 1]) {
            let d2 = (b[i + 1] - 48) as u8;
            if i + 2 < b.len() && is_digit(b[i + 2]) {
                let d3 = (b[i + 2] - 48) as u8;
                assert(v == d1 * 100 + d2 * 10 + d3);
                assert(d1 >= 1);
                assert(v >= 100);
                assert(v / 100 == d1 && (v / 10) % 10 == d2 && v % 10 == d3);
                assert(b.subrange(i, j) =~= num_json(v));
            } else {
                assert(v == d1 * 10 + d2);
                assert(d1 >= 1);
                assert(10 <= v < 100);
                assert(v / 10 == d1 && v % 10 == d2);
                assert(b.subrange(i, j) =~= num_json(v));
            }
        } else {
            assert(v == d1 && v < 10 && v >= 1);
            assert(b.subrange(i, j) =~= num_json(v));
        }
    }
}

/// Parsing the tail encoding (comma-separated bytes then `]`) appends
/// those bytes to the accumulator.
pub proof fn lemma_sp_nums_tail_complete(b: Seq<u8>, i: int, acc: Seq<u8>, ts: Seq<u8>)
    requires
        0 <= i,
        acc.len() > 0,
        i + nums_tail_json(ts).len() + 1 <= b.len(),
        b.subrange(i, i + nums_tail_json(ts).len() + 1) == nums_tail_json(ts) + seq![93u8],
    ensures
        sp_nums(b, i, acc) == Some((acc + ts, i + nums_tail_json(ts).len() + 1)),
    decreases ts.len(),
{
    let t = nums_tail_json(ts);
    let w = t + seq![93u8];
    if ts.len() == 0 {
        assert(w[0] == 93);
        assert(b.subrange(i, i + 1)[0] == w[0]);
        assert(b[i] == 93);
        assert(acc + ts =~= acc);
    } else {
        let n0 = num_json(ts[0]);
        let rest = nums_tail_json(ts.drop_first());
        assert(t == seq![44u8] + n0 + rest);
        assert(w[0] == 44);
        assert(b.subrange(i, i + w.len())[0] == w[0]);
        assert(b[i] == 44 && b[i] != 93);
        let nl: int = n0.len() as int;
        crate::vault_codec::lemma_window(b, i, w, 1, 1 + nl);
        assert(w.subrange(1, 1 + nl) =~= n0);
        // the byte after the number is ',' or ']', never a digit
        assert(w[1 + nl] == 44 || w[1 + nl] == 93) by {
            if ts.drop_first().len() == 0 {
                assert(rest.len() == 0);
                assert(w[1 + nl] == 93);
            } else {
                assert(rest[0] == 44);
                assert(w[1 + nl] == 44);
            }
        }
        assert(b[i + 1 + nl] == w[1 + nl]) by {
            assert(b.subrange(i, i + w.len())[1 + nl] == w[1 + nl]);
        }
        lemma_sp_num_complete(b, i + 1, ts[0]);
        let j = i + 1 + nl;
        crate::vault_codec::lemma_window(b, i, w, 1 + nl, w.len() as int);
        assert(w.subrange(1 + nl, w.len() as int) =~= rest + seq![93u8]);
        lemma_sp_nums_tail_complete(b, j, acc.push(ts[0]), ts.drop_first());
        assert(acc.push(ts[0]) + ts.drop_first() =~= acc + ts);
    }
}

/// Parsing the full list encoding yields exactly those bytes.
pub proof fn lemma_sp_nums_complete(b: Seq<u8>, i: int, s: Seq<u8>)
    requires
        0 <= i,
        i + nums_json(s).len() + 1 <= b.len(),
        b.subrange(i, i + nums_json(s).len() + 1) == nums_json(s) + seq![93u8],
    ensures
        sp_nums(b, i, Seq::<u8>::empty()) == Some((s, i + nums_json(s).len() + 1)),
{
    let t = nums_json(s);
    let w = t + seq![93u8];
    if s.len() == 0 {
        assert(w[0] == 93);
        assert(b.subrange(i, i + 1)[0] == w[0]);
        assert(b[i] == 93);
        assert(Seq::<u8>::empty() + s =~= s);
    } else {
        let n0 = num_json(s[0]);
        let rest = nums_tail_json(s.drop_first());
        assert(t == n0 + rest);
        let nl: int = n0.len() as int;
        assert(n0[0] == 48 + s[0] / 100 || n0[0] == 48 + s[0] / 10 || n0[0] == 48 + s[0]);
        assert(is_digit(n0[0]));
        assert(w[0] == n0[0]);
        assert(b.subrange(i, i + w.len())[0] == w[0]);
        assert(b[i] == n0[0]);
        assert(b[i] != 93 && b[i] != 44);
        crate::vault_codec::lemma_window(b, i, w, 0, nl);
        assert(w.subrange(0, nl) =~= n0);
        assert(w[nl] == 44 || w[nl] == 93) by {
            if s.drop_first().len() == 0 {
                assert(rest.len() == 0);
                assert(w[nl] == 93);
            } else {
                assert(rest[0] == 44);
                assert(w[nl] == 44);
            }
        }
        assert(b[i + nl] == w[nl]) by {
            assert(b.subrange(i, i + w.len())[nl] == w[nl]);
        }
        lemma_sp_num_complete(b, i, s[0]);
        let j = i + nl;
        crate::vault_codec::lemma_window(b, i, w, nl, w.len() as int);
        assert(w.subrange(nl, w.len() as int) =~= rest + seq![93u8]);
        lemma_sp_nums_tail_complete(b, j, Seq::<u8>::empty().push(s[0]), s.drop_first());
        assert(Seq::<u8>::empty().push(s[0]) + s.drop_first() =~= s);
    }
}

/// A successful list parse read exactly the encoding of what it added to
/// the accumulator, followed by the closing bracket.
#[verifier::rlimit(80)]
pub proof fn lemma_sp_nums_sound(b: Seq<u8>, i: int, acc: Seq<u8>)
    requires
        sp_nums(b, i, acc) is Some,
    ensures
        ({
            let (s, j) = sp_nums(b, i, acc).unwrap();
            acc.len() <= s.len() && s.subrange(0, acc.len() as int) == acc && 0 <= i && i < j
                <= b.len() && b.subrange(i, j) == (if acc.len() == 0 {
                nums_json(s.subrange(acc.len() as int, s.len() as int))
            } else {
                nums_tail_json(s.subrange(acc.len() as int, s.len() as int))
            }) + seq![93u8]
        }),
    decreases b.len() - i,
{
    let (s, j) = sp_nums(b, i, acc).unwrap();
    if b[i] == 93 {
        assert(s == acc);
        assert(s.subrange(0, acc.len() as int) =~= acc);
        let ts = s.subrange(acc.len() as int, s.len() as int);
        assert(ts =~= Seq::<u8>::empty());
        if acc.len() == 0 {
            assert(nums_json(ts) =~= Seq::<u8>::empty());
        } else {
            assert(nums_tail_json(ts) =~= Seq::<u8>::empty());
        }
        assert(b.subrange(i, i + 1) =~= seq![93u8]);
    } else {
        let start = if acc.len() == 0 {
            i
        } else {
            i + 1
        };
        let (v, jv) = sp_num(b, start).unwrap();
        lemma_sp_num_sound(b, start);
        let acc2 = acc.push(v);
        lemma_sp_nums_sound(b, jv, acc2);
        assert(s.subrange(0, acc2.len() as int) == acc2);
        assert(s.subrange(0, acc.len() as int) =~= acc) by {
            assert(forall|k: int| 0 <= k < acc.len() ==> #[trigger] s.subrange(
                0,
                acc.len() as int,
            )[k] == s.subrange(0, acc2.len() as int)[k]);
        }
        assert(s[acc.len() as int] == v) by {
            assert(s.subrange(0, acc2.len() as int)[acc.len() as int] == v);
        }
        let ts = s.subrange(acc.len() as int, s.len() as int);
        let ts2 = s.subrange(acc2.len() as int, s.len() as int);
        assert(ts =~= seq![v] + ts2);
        assert(ts.drop_first() =~= ts2);
        assert(ts[0] == v);
        assert(acc2.len() > 0);
        assert(b.subrange(jv, j) == nums_tail_json(ts2) + seq![93u8]);
        if acc.len() == 0 {
            assert(b.subrange(i, j) =~= b.subrange(start, jv) + b.subrange(jv, j));
            assert(nums_json(ts) == num_json(v) + nums_tail_json(ts2));
            assert(b.subrange(i, j) =~= nums_json(ts) + seq![93u8]);
        } else {
            assert(b[i] == 44);
            assert(b.subrange(i, i + 1) =~= seq![44u8]);
            assert(b.subrange(i, j) =~= b.subrange(i, i + 1) + b.subrange(start, jv) + b.subrange(
                jv,
                j,
            ));
            assert(nums_tail_json(ts) == seq![44u8] + num_json(v) + nums_tail_json(ts2));
            assert(b.subrange(i, j) =~= nums_tail_json(ts) + seq![93u8]);
        }
    }
}

/// Parsing the canonical document of any envelope yields exactly it.
#[verifier::rlimit(100)]
pub proof fn lemma_sp_envelope_complete(salt: Seq<u8>, nonce: Seq<u8>, ct: Seq<u8>)
    ensures
        sp_envelope(envelope_json(salt, nonce, ct)) == Some(
            (EnvelopeModel { salt: salt, nonce: nonce, ciphertext: ct }),
        ),
{
    let b = envelope_json(salt, nonce, ct);
    let l1: int = lit_env_salt().len() as int;
    let s1: int = bytes_json(salt).len() as int;
    let l2: int = lit_env_nonce().len() as int;
    let s2: int = bytes_json(nonce).len() as int;
    let l3: int = lit_env_ct().len() as int;
    let s3: int = bytes_json(ct).len() as int;
    assert(b.len() == l1 + s1 + l2 + s2 + l3 + s3 + 1);
    assert(b.subrange(0, b.len() as int) =~= b);
    crate::vault_codec::lemma_window(b, 0, b, 0, l1);
    assert(b.subrange(0, l1) =~= lit_env_salt());
    assert(sp_lit(b, 0, lit_env_salt()) == Some(l1));
    let o1 = l1;
    assert(b[o1] == 91) by {
        assert(b.subrange(0, b.len() as int)[o1] == b[o1]);
        assert(bytes_json(salt)[0] == 91);
    }
    crate::vault_codec::lemma_window(b, 0, b, o1 + 1, o1 + s1);
    assert(b.subrange(o1 + 1, o1 + s1) =~= nums_json(salt) + seq![93u8]);
    lemma_sp_nums_complete(b, o1 + 1, salt);
    let o2 = o1 + s1;
    crate::vault_codec::lemma_window(b, 0, b, o2, o2 + l2);
    assert(b.subrange(o2, o2 + l2) =~= lit_env_nonce());
    assert(sp_lit(b, o2, lit_env_nonce()) == Some(o2 + l2));
    assert(b[o2 + l2] == 91) by {
        assert(bytes_json(nonce)[0] == 91);
    }
    crate::vault_codec::lemma_window(b, 0, b, o2 + l2 + 1, o2 + l2 + s2);
    assert(b.subrange(o2 + l2 + 1, o2 + l2 + s2) =~= nums_json(nonce) + seq![93u8]);
    lemma_sp_nums_complete(b, o2 + l2 + 1, nonce);
    let o3 = o2 + l2 + s2;
    crate::vault_codec::lemma_window(b, 0, b, o3, o3 + l3);
    assert(b.subrange(o3, o3 + l3) =~= lit_env_ct());
    assert(sp_lit(b, o3, lit_env_ct()) == Some(o3 + l3));
    assert(b[o3 + l3] == 91) by {
        assert(bytes_json(ct)[0] == 91);
    }
    crate::vault_codec::lemma_window(b, 0, b, o3 + l3 + 1, o3 + l3 + s3);
    assert(b.subrange(o3 + l3 + 1, o3 + l3 + s3) =~= nums_json(ct) + seq![93u8]);
    lemma_sp_nums_complete(b, o3 + l3 + 1, ct);
    let o4 = o3 + l3 + s3;
    assert(b[o4] == 125);
}

/// A successfully parsed document is exactly the canonical encoding of its
/// result.
#[verifier::rlimit(100)]
pub proof fn lemma_sp_envelope_sound(b: Seq<u8>)
    requires
        sp_envelope(b) is Some,
    ensures
        b == envelope_json(
            sp_envelope(b).unwrap().salt,
            sp_envelope(b).unwrap().nonce,
            sp_envelope(b).unwrap().ciphertext,
        ),
{
    let m = sp_envelope(b).unwrap();
    let j1 = sp_lit(b, 0, lit_env_salt()).unwrap();
    let (salt, j2) = sp_nums(b, j1 + 1, Seq::<u8>::empty()).unwrap();
    let j3 = sp_lit(b, j2, lit_env_nonce()).unwrap();
    let (nonce, j4) = sp_nums(b, j3 + 1, Seq::<u8>::empty()).unwrap();
    let j5 = sp_lit(b, j4, lit_env_ct()).unwrap();
    let (ct, j6) = sp_nums(b, j5 + 1, Seq::<u8>::empty()).unwrap();
    lemma_sp_nums_sound(b, j1 + 1, Seq::<u8>::empty());
    lemma_sp_nums_sound(b, j3 + 1, Seq::<u8>::empty());
    lemma_sp_nums_sound(b, j5 + 1, Seq::<u8>::empty());
    assert(salt.subrange(0, salt.len() as int) =~= salt);
    assert(nonce.subrange(0, nonce.len() as int) =~= nonce);
    assert(ct.subrange(0, ct.len() as int) =~= ct);
    let c = envelope_json(salt, nonce, ct);
    assert(b.subrange(0, j1) == lit_env_salt());
    assert(b.subrange(j1 + 1, j2) == nums_json(salt) + seq![93u8]);
    assert(b.subrange(j2, j3) == lit_env_nonce());
    assert(b.subrange(j3 + 1, j4) == nums_json(nonce) + seq![93u8]);
    assert(b.subrange(j4, j5) == lit_env_ct());
    assert(b.subrange(j5 + 1, j6) == nums_json(ct) + seq![93u8]);
    assert(b.subrange(j1, j1 + 1) =~= seq![91u8]) by {
        assert(b.subrange(j1, j1 + 1)[0] == b[j1]);
    }
    assert(b.subrange(j3, j3 + 1) =~= seq![91u8]) by {
        assert(b.subrange(j3, j3 + 1)[0] == b[j3]);
    }
    assert(b.subrange(j5, j5 + 1) =~= seq![91u8]) by {
        assert(b.subrange(j5, j5 + 1)[0] == b[j5]);
    }
    assert(b.subrange(j6, j6 + 1) =~= seq![125u8]) by {
        assert(b.subrange(j6, j6 + 1)[0] == b[j6]);
    }
    assert(seq![91u8] + (nums_json(salt) + seq![93u8]) =~= bytes_json(salt));
    assert(seq![91u8] + (nums_json(nonce) + seq![93u8]) =~= bytes_json(nonce));
    assert(seq![91u8] + (nums_json(ct) + seq![93u8]) =~= bytes_json(ct));
    assert(b =~= b.subrange(0, j1) + b.subrange(j1, j1 + 1) + b.subrange(j1 + 1, j2) + b.subrange(
        j2,
        j3,
    ) + b.subrange(j3, j3 + 1) + b.subrange(j3 + 1, j4) + b.subrange(j4, j5) + b.subrange(
        j5,
        j5 + 1,
    ) + b.subrange(j5 + 1, j6) + b.subrange(j6, j6 + 1));
    assert(b =~= c);
}

/// The canonical document determines the envelope: no two different
/// (salt, nonce, ciphertext) triples serialize to the same bytes, so a
/// stored vault file denotes exactly one sealed envelope.
pub proof fn lemma_envelope_json_injective(
    s1: Seq<u8>,
    n1: Seq<u8>,
    c1: Seq<u8>,
    s2: Seq<u8>,
    n2: Seq<u8>,
    c2: Seq<u8>,
)
    requires
        envelope_json(s1, n1, c1) == envelope_json(s2, n2, c2),
    ensures
        s1 == s2 && n1 == n2 && c1 == c2,
{
    lemma_sp_envelope_complete(s1, n1, c1);
    lemma_sp_envelope_complete(s2, n2, c2);
}

fn lit_env_salt_vec() -> (r: Vec<u8>)
    ensures
        r@ == lit_env_salt(),
{
    let mut v: Vec<u8> = Vec::new();
    v.push(123);
    v.push(34);
    v.push(115);
    v.push(97);
    v.push(108);
    v.push(116);
    v.push(34);
    v.push(58);
    proof {
        assert(v@ =~= lit_env_salt());
    }
    v
}

fn lit_env_nonce_vec() -> (r: Vec<u8>)
    ensures
        r@ == lit_env_nonce(),
{
    let mut v: Vec<u8> = Vec::new();
    v.push(44);
    v.push(34);
    v.push(110);
    v.push(111);
    v.push(110);
    v.push(99);
    v.push(101);
    v.push(34);
    v.push(58);
    proof {
        assert(v@ =~= lit_env_nonce());
    }
    v
}

fn lit_env_ct_vec() -> (r: Vec<u8>)
    ensures
        r@ == lit_env_ct(),
{
    let mut v: Vec<u8> = Vec::new();
    v.push(44);
    v.push(34);
    v.push(99);
    v.push(105);
    v.push(112);
    v.push(104);
    v.push(101);
    v.push(114);
    v.push(116);
    v.push(101);
    v.push(120);
    v.push(116);
    v.push(34);
    v.push(58);
    proof {
        assert(v@ =~= lit_env_ct());
    }
    v
}

/// Appends the canonical decimal encoding of one byte.
fn push_num(out: &mut Vec<u8>, v: u8)
    ensures
        final(out)@ == old(out)@ + num_json(v),
{
    if v < 10 {
        out.push(48 + v);
    } else if v < 100 {
        out.push(48 + v / 10);
        out.push(48 + v % 10);
    } else {
        out.push(48 + v / 100);
        out.push(48 + (v / 10) % 10);
        out.push(48 + v % 10);
    }
    proof {
        assert(out@ =~= old(out)@ + num_json(v));
    }
}

/// Appends a full bracketed byte list.
fn push_bytes_json(out: &mut Vec<u8>, s: &Vec<u8>)
    ensures
        final(out)@ == old(out)@ + bytes_json(s@),
{
    out.push(91);
    proof {
        assert(nums_json(s@.subrange(0, 0)) =~= Seq::<u8>::empty());
        assert(out@ =~= old(out)@ + seq![91u8] + nums_json(s@.subrange(0, 0)));
    }
    let n = s.len();
    let mut k: usize = 0;
    while k < n
        invariant
            n == s@.len(),
            k <= n,
            out@ == old(out)@ + seq![91u8] + nums_json(s@.subrange(0, k as int)),
        decreases n - k,
    {
        let ghost pre = s@.subrange(0, k as int);
        if k > 0 {
            out.push(44);
        }
        push_num(out, s[k]);
        proof {
            assert(s@.subrange(0, k + 1) =~= pre.push(s@[k as int]));
            lemma_nums_json_snoc(pre, s@[k as int]);
            assert(out@ =~= old(out)@ + seq![91u8] + nums_json(s@.subrange(0, k + 1)));
        }
        k = k + 1;
    }
    out.push(93);
    proof {
        assert(s@.subrange(0, n as int) =~= s@);
        assert(out@ =~= old(out)@ + bytes_json(s@));
    }
}

/// Serializes a sealed envelope into its canonical JSON document, the exact
/// bytes that get persisted.
pub fn encode_envelope(env: &EncryptedVault) -> (r: Vec<u8>)
    ensures
        r@ == envelope_json(env@.salt, env@.nonce, env@.ciphertext),
{
    let mut out = lit_env_salt_vec();
    push_bytes_json(&mut out, &env.salt);
    let ghost snap1 = out@;
    let mut l2 = lit_env_nonce_vec();
    out.append(&mut l2);
    push_bytes_json(&mut out, &env.nonce);
    let ghost snap2 = out@;
    let mut l3 = lit_env_ct_vec();
    out.append(&mut l3);
    push_bytes_json(&mut out, &env.ciphertext);
    out.push(125);
    proof {
        assert(snap1 =~= lit_env_salt() + bytes_json(env@.salt));
        assert(snap2 =~= snap1 + lit_env_nonce() + bytes_json(env@.nonce));
        assert(out@ =~= envelope_json(env@.salt, env@.nonce, env@.ciphertext));
    }
    out
}

/// Parses one canonical decimal byte, mirroring [`sp_num`].
fn p_num(b: &Vec<u8>, i: usize) -> (r: Option<(u8, usize)>)
    ensures
        match r {
            Some(p) => sp_num(b@, i as int) == Some((p.0, p.1 as int)),
            None => sp_num(b@, i as int) is None,
        },
{
    if i >= b.len() {
        return None;
    }
    let c = b[i];
    if !(48 <= c && c <= 57) {
        return None;
    }
    if c == 48 {
        if i + 1 < b.len() {
            let d = b[i + 1];
            if 48 <= d && d <= 57 {
                return None;
            }
        }
        return Some((0, i + 1));
    }
    let d1 = c - 48;
    if i + 1 < b.len() && 48 <= b[i + 1] && b[i + 1] <= 57 {
        let d2 = b[i + 1] - 48;
        if i + 2 < b.len() && 48 <= b[i + 2] && b[i + 2] <= 57 {
            let d3 = b[i + 2] - 48;
            let v: u32 = (d1 as u32) * 100 + (d2 as u32) * 10 + (d3 as u32);
            let more = i + 3 < b.len() && 48 <= b[i + 3] && b[i + 3] <= 57;
            if v <= 255 && !more {
                return Some((v as u8, i + 3));
            }
            return None;
        }
        return Some((d1 * 10 + d2, i + 2));
    }
    Some((d1, i + 1))
}

/// Parses the byte list, mirroring [`sp_nums`].
fn p_nums(b: &Vec<u8>, i: usize) -> (r: Option<(Vec<u8>, usize)>)
    ensures
        match r {
            Some(p) => sp_nums(b@, i as int, Seq::<u8>::empty()) == Some((p.0@, p.1 as int)),
            None => sp_nums(b@, i as int, Seq::<u8>::empty()) is None,
        },
{
    let mut acc: Vec<u8> = Vec::new();
    let mut j: usize = i;
    let _blen = b.len();
    loop
        invariant
            b@.len() <= usize::MAX,
            sp_nums(b@, i as int, Seq::<u8>::empty()) == sp_nums(b@, j as int, acc@),
        decreases b@.len() - j,
    {
        if j >= b.len() {
            return None;
        }
        if b[j] == 93 {
            return Some((acc, j + 1));
        }
        let is_first = acc.len() == 0;
        let start: usize = if is_first {
            j
        } else {
            if b[j] != 44 {
                return None;
            }
            j + 1
        };
        match p_num(b, start) {
            None => {
                return None;
            },
            Some((v, j2)) => {
                acc.push(v);
                j = j2;
            },
        }
    }
}

/// Deserializes stored bytes back into a sealed envelope.
///
/// Accepts exactly what [`encode_envelope`] produces, and additionally
/// requires the stored salt and nonce to have their mandatory lengths;
/// anything else is a malformed envelope.
pub fn decode_envelope(bytes: &Vec<u8>) -> (r: Result<EncryptedVault, StoreError>)
    ensures
        forall|s: Seq<u8>, n: Seq<u8>, c: Seq<u8>|
            bytes@ == #[trigger] envelope_json(s, n, c) && s.len() == 16 && n.len() == 12
                ==> r is Ok && r->Ok_0@ == (EnvelopeModel { salt: s, nonce: n, ciphertext: c }),
        r is Ok ==> r->Ok_0.wf() && bytes@ == envelope_json(
            r->Ok_0@.salt,
            r->Ok_0@.nonce,
            r->Ok_0@.ciphertext,
        ),
        r is Err ==> r->Err_0 == StoreError::MalformedEnvelope,
{
    let l1 = lit_env_salt_vec();
    let j1 = match p_lit(bytes, 0, &l1) {
        Some(j) => j,
        None => {
            proof {
                err_envelope_no_model(bytes@);
            }
            return Err(StoreError::MalformedEnvelope);
        },
    };
    if !(j1 < bytes.len() && bytes[j1] == 91) {
        proof {
            err_envelope_no_model(bytes@);
        }
        return Err(StoreError::MalformedEnvelope);
    }
    let (salt, j2) = match p_nums(bytes, j1 + 1) {
        Some(p) => p,
        None => {
            proof {
                err_envelope_no_model(bytes@);
            }
            return Err(StoreError::MalformedEnvelope);
        },
    };
    let l2 = lit_env_nonce_vec();
    let j3 = match p_lit(bytes, j2, &l2) {
        Some(j) => j,
        None => {
            proof {
                err_envelope_no_model(bytes@);
            }
            return Err(StoreError::MalformedEnvelope);
        },
    };
    if !(j3 < bytes.len() && bytes[j3] == 91) {
        proof {
            err_envelope_no_model(bytes@);
        }
        return Err(StoreError::MalformedEnvelope);
    }
    let (nonce, j4) = match p_nums(bytes, j3 + 1) {
        Some(p) => p,
        None => {
            proof {
                err_envelope_no_model(bytes@);
            }
            return Err(StoreError::MalformedEnvelope);
        },
    };
    let l3 = lit_env_ct_vec();
    let j5 = match p_lit(bytes, j4, &l3) {
        Some(j) => j,
        None => {
            proof {
                err_envelope_no_model(bytes@);
            }
            return Err(StoreError::MalformedEnvelope);
        },
    };
    if !(j5 < bytes.len() && bytes[j5] == 91) {
        proof {
            err_envelope_no_model(bytes@);
        }
        return Err(StoreError::MalformedEnvelope);
    }
    let (ct, j6) = match p_nums(bytes, j5 + 1) {
        Some(p) => p,
        None => {
            proof {
                err_envelope_no_model(bytes@);
            }
            return Err(StoreError::MalformedEnvelope);
        },
    };
    if !(j6 < bytes.len() && bytes[j6] == 125 && j6 + 1 == bytes.len()) {
        proof {
            assert(sp_envelope(bytes@) is None);
            err_envelope_no_model(bytes@);
        }
        return Err(StoreError::MalformedEnvelope);
    }
    if !(salt.len() == 16 && nonce.len() == 12) {
        proof {
            let m = (EnvelopeModel { salt: salt@, nonce: nonce@, ciphertext: ct@ });
            assert(sp_envelope(bytes@) == Some(m));
            assert forall|s: Seq<u8>, n: Seq<u8>, c: Seq<u8>|
                !(bytes@ == #[trigger] envelope_json(s, n, c) && s.len() == 16 && n.len()
                    == 12) by {
                if bytes@ == envelope_json(s, n, c) {
                    lemma_sp_envelope_complete(s, n, c);
                }
            }
        }
        return Err(StoreError::MalformedEnvelope);
    }
    let env = EncryptedVault { salt, nonce, ciphertext: ct };
    proof {
        assert(sp_envelope(bytes@) == Some(env@));
        lemma_sp_envelope_sound(bytes@);
        assert forall|s: Seq<u8>, n: Seq<u8>, c: Seq<u8>|
            bytes@ == #[trigger] envelope_json(s, n, c) && s.len() == 16 && n.len() == 12
                implies env@ == (EnvelopeModel { salt: s, nonce: n, ciphertext: c }) by {
            lemma_sp_envelope_complete(s, n, c);
        }
    }
    Ok(env)
}

/// When parsing fails, the input is not the canonical document of any
/// envelope at all.
proof fn err_envelope_no_model(b: Seq<u8>)
    requires
        sp_envelope(b) is None,
    ensures
        forall|s: Seq<u8>, n: Seq<u8>, c: Seq<u8>| b != #[trigger] envelope_json(s, n, c),
{
    assert forall|s: Seq<u8>, n: Seq<u8>, c: Seq<u8>| b != #[trigger] envelope_json(s, n, c) by {
        if b == envelope_json(s, n, c) {
            lemma_sp_envelope_complete(s, n, c);
        }
    }
}

} // verus!
