//! Byte format of the plaintext record collection.
//!
//! An unlocked vault serializes to one canonical JSON document,
//! `{"entries":[{"service":"..","username":"..","password":".."},..]}`,
//! whose bytes are what the cipher seals.  [`vault_json`] is the exact
//! specification of that document; [`encode_vault`] produces it and
//! [`decode_vault`] accepts exactly it, so that decoding is proved to invert
//! encoding for every vault.

use vstd::prelude::*;
use vstd::utf8::{valid_utf8, decode_utf8, encode_utf8};
use crate::json::{
    esc_bytes, sp_lit, sp_qstr, lemma_sp_qstr_bounds, lemma_sp_qstr_complete, lemma_sp_qstr_sound,
    push_escaped, p_lit, p_qstr, string_from_utf8,
};
use crate::models::{EntryModel, PasswordEntry, PasswordVault};
use crate::errors::VaultError;

verus! {


/// Byte-level view of one record: the UTF-8 bytes of its three fields.
pub ghost struct EntryBytes {
    pub service: Seq<u8>,
    pub username: Seq<u8>,
    pub password: Seq<u8>,
}

/// `{"service":"`
pub open spec fn lit_entry_service() -> Seq<u8> {
    seq![123u8, 34u8, 115u8, 101u8, 114u8, 118u8, 105u8, 99u8, 101u8, 34u8, 58u8, 34u8]
}

/// `,"username":"`
pub open spec fn lit_sep_username() -> Seq<u8> {
    seq![44u8, 34u8, 117u8, 115u8, 101u8, 114u8, 110u8, 97u8, 109u8, 101u8, 34u8, 58u8, 34u8]
}

/// `,"password":"`
pub open spec fn lit_sep_password() -> Seq<u8> {
    seq![44u8, 34u8, 112u8, 97u8, 115u8, 115u8, 119u8, 111u8, 114u8, 100u8, 34u8, 58u8, 34u8]
}

/// `{"entries":[`
pub open spec fn lit_vault_open() -> Seq<u8> {
    seq![123u8, 34u8, 101u8, 110u8, 116u8, 114u8, 105u8, 101u8, 115u8, 34u8, 58u8, 91u8]
}

/// Escaped string content followed by its closing quote.
pub open spec fn qchunk(s: Seq<u8>) -> Seq<u8> {
    esc_bytes(s) + seq![34u8]
}

/// The canonical JSON object for one record.
pub open spec fn entry_json_b(e: EntryBytes) -> Seq<u8> {
    lit_entry_service() + qchunk(e.service) + lit_sep_username() + qchunk(e.username)
        + lit_sep_password() + qchunk(e.password) + seq![125u8]
}

/// Comma-prefixed encodings of every record after the first.
pub open spec fn entries_tail_json_b(ts: Seq<EntryBytes>) -> Seq<u8>
    decreases ts.len(),
{
    if ts.len() == 0 {
        Seq::<u8>::empty()
    } else {
        seq![44u8] + entry_json_b(ts[0]) + entries_tail_json_b(ts.drop_first())
    }
}

/// Comma-separated encodings of all records.
pub open spec fn entries_json_b(es: Seq<EntryBytes>) -> Seq<u8> {
    if es.len() == 0 {
        Seq::<u8>::empty()
    } else {
        entry_json_b(es[0]) + entries_tail_json_b(es.drop_first())
    }
}

/// The whole canonical document over byte-level records.
pub open spec fn vault_json_b(es: Seq<EntryBytes>) -> Seq<u8> {
    lit_vault_open() + entries_json_b(es) + seq![93u8, 125u8]
}

/// The byte-level view of a record model.
pub open spec fn entry_bytes_of(e: EntryModel) -> EntryBytes {
    EntryBytes {
        service: encode_utf8(e.service),
        username: encode_utf8(e.username),
        password: encode_utf8(e.password),
    }
}

pub open spec fn entries_bytes_of(es: Seq<EntryModel>) -> Seq<EntryBytes> {
    es.map_values(|e: EntryModel| entry_bytes_of(e))
}

/// The canonical serialized document of a vault: what `encode_vault`
/// returns and what gets sealed.
pub open spec fn vault_json(es: Seq<EntryModel>) -> Seq<u8> {
    vault_json_b(entries_bytes_of(es))
}

/// Specification parser for one record object.
pub open spec fn sp_entry(b: Seq<u8>, i: int) -> Option<(EntryBytes, int)> {
    match sp_lit(b, i, lit_entry_service()) {
        None => None,
        Some(j1) => match sp_qstr(b, j1, Seq::<u8>::empty()) {
            None => None,
            Some((s, j2)) => match sp_lit(b, j2, lit_sep_username()) {
                None => None,
                Some(j3) => match sp_qstr(b, j3, Seq::<u8>::empty()) {
                    None => None,
                    Some((u, j4)) => match sp_lit(b, j4, lit_sep_password()) {
                        None => None,
                        Some(j5) => match sp_qstr(b, j5, Seq::<u8>::empty()) {
                            None => None,
                            Some((p, j6)) => if j6 < b.len() && b[j6] == 125 {
                                Some(
                                    (
                                        EntryBytes { service: s, username: u, password: p },
                                        j6 + 1,
                                    ),
                                )
                            } else {
                                None
                            },
                        },
                    },
                },
            },
        },
    }
}

pub proof fn lemma_sp_entry_bounds(b: Seq<u8>, i: int)
    requires
        sp_entry(b, i) is Some,
    ensures
        i < sp_entry(b, i).unwrap().1 <= b.len(),
{
    let j1 = sp_lit(b, i, lit_entry_service()).unwrap();
    lemma_sp_qstr_bounds(b, j1, Seq::<u8>::empty());
    let j2 = sp_qstr(b, j1, Seq::<u8>::empty()).unwrap().1;
    let j3 = sp_lit(b, j2, lit_sep_username()).unwrap();
    lemma_sp_qstr_bounds(b, j3, Seq::<u8>::empty());
    let j4 = sp_qstr(b, j3, Seq::<u8>::empty()).unwrap().1;
    let j5 = sp_lit(b, j4, lit_sep_password()).unwrap();
    lemma_sp_qstr_bounds(b, j5, Seq::<u8>::empty());
}

/// Specification parser for the bracketed record list, entered just after
/// the opening bracket.
pub open spec fn sp_entries(b: Seq<u8>, i: int, acc: Seq<EntryBytes>) -> Option<
    (Seq<EntryBytes>, int),
>
    decreases b.len() - i,
{
    if i < 0 || i >= b.len() {
        None
    } else if b[i] == 93 {
        Some((acc, i + 1))
    } else if acc.len() > 0 && b[i] != 44 {
        None
    } else {
        let start = if acc.len() == 0 {
            i
        } else {
            i + 1
        };
        match sp_entry(b, start) {
            None => None,
            Some((e, j)) => if i < j <= b.len() {
                sp_entries(b, j, acc.push(e))
            } else {
                None
            },
        }
    }
}

/// Specification parser for the whole document.
pub open spec fn sp_vault(b: Seq<u8>) -> Option<Seq<EntryBytes>> {
    match sp_lit(b, 0, lit_vault_open()) {
        None => None,
        Some(j) => match sp_entries(b, j, Seq::<EntryBytes>::empty()) {
            None => None,
            Some((es, j2)) => if j2 + 1 == b.len() && b[j2] == 125 {
                Some(es)
            } else {
                None
            },
        },
    }
}

/// Appending one record to a list appends its (comma-separated) encoding.
pub proof fn lemma_entries_tail_snoc(ts: Seq<EntryBytes>, e: EntryBytes)
    ensures
        entries_tail_json_b(ts.push(e)) == entries_tail_json_b(ts) + seq![44u8] + entry_json_b(e),
    decreases ts.len(),
{
    let t2 = ts.push(e);
    if ts.len() == 0 {
        assert(t2[0] == e);
        assert(t2.drop_first() =~= Seq::<EntryBytes>::empty());
        assert(entries_tail_json_b(t2.drop_first()) == Seq::<u8>::empty());
        assert(entries_tail_json_b(t2) == seq![44u8] + entry_json_b(e) + entries_tail_json_b(
            t2.drop_first(),
        ));
        assert(entries_tail_json_b(ts) == Seq::<u8>::empty());
        assert(entries_tail_json_b(t2) =~= entries_tail_json_b(ts) + seq![44u8] + entry_json_b(e));
    } else {
        assert(t2[0] == ts[0]);
        assert(t2.drop_first() =~= ts.drop_first().push(e));
        lemma_entries_tail_snoc(ts.drop_first(), e);
        assert(entries_tail_json_b(t2) == seq![44u8] + entry_json_b(t2[0]) + entries_tail_json_b(
            t2.drop_first(),
        ));
        assert(entries_tail_json_b(t2) =~= entries_tail_json_b(ts) + seq![44u8] + entry_json_b(e));
    }
}

pub proof fn lemma_entries_json_snoc(es: Seq<EntryBytes>, e: EntryBytes)
    ensures
        entries_json_b(es.push(e)) == if es.len() == 0 {
            entry_json_b(e)
        } else {
            entries_json_b(es) + seq![44u8] + entry_json_b(e)
        },
{
    if es.len() == 0 {
        assert(es.push(e)[0] == e);
        assert(es.push(e).drop_first() =~= Seq::<EntryBytes>::empty());
        assert(entries_json_b(es.push(e)) =~= entry_json_b(e));
    } else {
        assert(es.push(e)[0] == es[0]);
        assert(es.push(e).drop_first() =~= es.drop_first().push(e));
        lemma_entries_tail_snoc(es.drop_first(), e);
        assert(entries_json_b(es.push(e)) =~= entries_json_b(es) + seq![44u8] + entry_json_b(e));
    }
}

/// A window of `b` that holds a known byte sequence can be split into
/// windows of its pieces.
pub proof fn lemma_window(b: Seq<u8>, i: int, w: Seq<u8>, a1: int, a2: int)
    requires
        0 <= i,
        i + w.len() <= b.len(),
        b.subrange(i, i + w.len()) == w,
        0 <= a1 <= a2 <= w.len(),
    ensures
        b.subrange(i + a1, i + a2) == w.subrange(a1, a2),
{
    assert(b.subrange(i + a1, i + a2) =~= w.subrange(a1, a2)) by {
        assert forall|k: int| 0 <= k < a2 - a1 implies #[trigger] b.subrange(i + a1, i + a2)[k]
            == w.subrange(a1, a2)[k] by {
            assert(b.subrange(i, i + w.len())[a1 + k] == w[a1 + k]);
        }
    }
}

/// Parsing the encoding of a record yields exactly that record.
pub proof fn lemma_sp_entry_complete(b: Seq<u8>, i: int, e: EntryBytes)
    requires
        0 <= i,
        i + entry_json_b(e).len() <= b.len(),
        b.subrange(i, i + entry_json_b(e).len()) == entry_json_b(e),
    ensures
        sp_entry(b, i) == Some((e, i + entry_json_b(e).len())),
{
    let ee = entry_json_b(e);
    let a1 = lit_entry_service().len() as int;
    let a2 = a1 + qchunk(e.service).len();
    let a3 = a2 + lit_sep_username().len();
    let a4 = a3 + qchunk(e.username).len();
    let a5 = a4 + lit_sep_password().len();
    let a6 = a5 + qchunk(e.password).len();
    assert(ee.len() == a6 + 1);

    assert(ee.subrange(0, a1) =~= lit_entry_service());
    assert(ee.subrange(a1, a2) =~= qchunk(e.service));
    assert(ee.subrange(a2, a3) =~= lit_sep_username());
    assert(ee.subrange(a3, a4) =~= qchunk(e.username));
    assert(ee.subrange(a4, a5) =~= lit_sep_password());
    assert(ee.subrange(a5, a6) =~= qchunk(e.password));
    assert(ee[a6] == 125);

    lemma_window(b, i, ee, 0, a1);
    lemma_window(b, i, ee, a1, a2);
    lemma_window(b, i, ee, a2, a3);
    lemma_window(b, i, ee, a3, a4);
    lemma_window(b, i, ee, a4, a5);
    lemma_window(b, i, ee, a5, a6);

    assert(sp_lit(b, i, lit_entry_service()) == Some(i + a1));
    lemma_sp_qstr_complete(b, i + a1, Seq::<u8>::empty(), e.service);
    assert(Seq::<u8>::empty() + e.service =~= e.service);
    assert(sp_qstr(b, i + a1, Seq::<u8>::empty()) == Some((e.service, i + a2)));
    assert(sp_lit(b, i + a2, lit_sep_username()) == Some(i + a3));
    lemma_sp_qstr_complete(b, i + a3, Seq::<u8>::empty(), e.username);
    assert(Seq::<u8>::empty() + e.username =~= e.username);
    assert(sp_qstr(b, i + a3, Seq::<u8>::empty()) == Some((e.username, i + a4)));
    assert(sp_lit(b, i + a4, lit_sep_password()) == Some(i + a5));
    lemma_sp_qstr_complete(b, i + a5, Seq::<u8>::empty(), e.password);
    assert(Seq::<u8>::empty() + e.password =~= e.password);
    assert(sp_qstr(b, i + a5, Seq::<u8>::empty()) == Some((e.password, i + a6)));
    assert(b[i + a6] == ee[a6]) by {
        assert(b.subrange(i, i + ee.len())[a6] == ee[a6]);
    }
    assert(e == (EntryBytes { service: e.service, username: e.username, password: e.password }));
}

/// Parsing the tail encoding (comma-separated records then `]`) appends
/// those records to the accumulator.
pub proof fn lemma_sp_entries_tail_complete(b: Seq<u8>, i: int, acc: Seq<EntryBytes>, ts: Seq<EntryBytes>)
    requires
        0 <= i,
        acc.len() > 0,
        i + entries_tail_json_b(ts).len() + 1 <= b.len(),
        b.subrange(i, i + entries_tail_json_b(ts).len() + 1) == entries_tail_json_b(ts)
            + seq![93u8],
    ensures
        sp_entries(b, i, acc) == Some((acc + ts, i + entries_tail_json_b(ts).len() + 1)),
    decreases ts.len(),
{
    let t = entries_tail_json_b(ts);
    let w = t + seq![93u8];
    if ts.len() == 0 {
        assert(w[0] == 93);
        assert(b.subrange(i, i + 1)[0] == w[0]);
        assert(b[i] == 93);
        assert(acc + ts =~= acc);
    } else {
        let e0 = entry_json_b(ts[0]);
        let rest = entries_tail_json_b(ts.drop_first());
        assert(t == seq![44u8] + e0 + rest);
        assert(w[0] == 44);
        assert(b.subrange(i, i + w.len())[0] == w[0]);
        assert(b[i] == 44);
        assert(b[i] != 93);
        let el: int = e0.len() as int;
        lemma_window(b, i, w, 1, 1 + el);
        assert(w.subrange(1, 1 + el) =~= e0);
        lemma_sp_entry_complete(b, i + 1, ts[0]);
        let j = i + 1 + el;
        lemma_window(b, i, w, 1 + el, w.len() as int);
        assert(w.subrange(1 + el, w.len() as int) =~= rest + seq![93u8]);
        lemma_sp_entries_tail_complete(b, j, acc.push(ts[0]), ts.drop_first());
        assert(acc.push(ts[0]) + ts.drop_first() =~= acc + ts);
    }
}

/// Parsing the full list encoding yields exactly those records.
pub proof fn lemma_sp_entries_complete(b: Seq<u8>, i: int, es: Seq<EntryBytes>)
    requires
        0 <= i,
        i + entries_json_b(es).len() + 1 <= b.len(),
        b.subrange(i, i + entries_json_b(es).len() + 1) == entries_json_b(es) + seq![93u8],
    ensures
        sp_entries(b, i, Seq::<EntryBytes>::empty()) == Some(
            (es, i + entries_json_b(es).len() + 1),
        ),
{
    let t = entries_json_b(es);
    let w = t + seq![93u8];
    if es.len() == 0 {
        assert(w[0] == 93);
        assert(b.subrange(i, i + 1)[0] == w[0]);
        assert(b[i] == 93);
        assert(Seq::<EntryBytes>::empty() + es =~= es);
    } else {
        let e0 = entry_json_b(es[0]);
        let rest = entries_tail_json_b(es.drop_first());
        assert(t == e0 + rest);
        assert(e0[0] == 123);
        assert(w[0] == 123);
        assert(b.subrange(i, i + w.len())[0] == w[0]);
        assert(b[i] == 123);
        assert(b[i] != 93 && b[i] != 44);
        lemma_window(b, i, w, 0, e0.len() as int);
        assert(w.subrange(0, e0.len() as int) =~= e0);
        lemma_sp_entry_complete(b, i, es[0]);
        let j = i + e0.len();
        lemma_window(b, i, w, e0.len() as int, w.len() as int);
        assert(w.subrange(e0.len() as int, w.len() as int) =~= rest + seq![93u8]);
        lemma_sp_entries_tail_complete(b, j, Seq::<EntryBytes>::empty().push(es[0]), es.drop_first());
        assert(Seq::<EntryBytes>::empty().push(es[0]) + es.drop_first() =~= es);
    }
}

/// Parsing the canonical document of any record list yields exactly it.
pub proof fn lemma_sp_vault_complete(es: Seq<EntryBytes>)
    ensures
        sp_vault(vault_json_b(es)) == Some(es),
{
    let b = vault_json_b(es);
    let lo = lit_vault_open();
    let mid = entries_json_b(es);
    let ol: int = lo.len() as int;
    let ml: int = mid.len() as int;
    assert(b.len() == ol + ml + 2);
    assert(b.subrange(0, b.len() as int) =~= b);
    lemma_window(b, 0, b, 0, ol);
    assert(b.subrange(0, ol) =~= lo);
    assert(sp_lit(b, 0, lo) == Some(ol));
    lemma_window(b, 0, b, ol, ol + ml + 1);
    assert(b.subrange(ol, ol + ml + 1) =~= mid + seq![93u8]);
    lemma_sp_entries_complete(b, ol, es);
    let j2: int = ol + ml + 1;
    assert(b[j2] == 125);
}

/// A successful record parse read exactly that record's encoding.
pub proof fn lemma_sp_entry_sound(b: Seq<u8>, i: int)
    requires
        sp_entry(b, i) is Some,
    ensures
        ({
            let (e, j) = sp_entry(b, i).unwrap();
            0 <= i && i < j <= b.len() && b.subrange(i, j) == entry_json_b(e)
        }),
{
    let (e, j) = sp_entry(b, i).unwrap();
    let j1 = sp_lit(b, i, lit_entry_service()).unwrap();
    let (s, j2) = sp_qstr(b, j1, Seq::<u8>::empty()).unwrap();
    let j3 = sp_lit(b, j2, lit_sep_username()).unwrap();
    let (u, j4) = sp_qstr(b, j3, Seq::<u8>::empty()).unwrap();
    let j5 = sp_lit(b, j4, lit_sep_password()).unwrap();
    let (p, j6) = sp_qstr(b, j5, Seq::<u8>::empty()).unwrap();
    lemma_sp_qstr_bounds(b, j1, Seq::<u8>::empty());
    lemma_sp_qstr_bounds(b, j3, Seq::<u8>::empty());
    lemma_sp_qstr_bounds(b, j5, Seq::<u8>::empty());
    lemma_sp_qstr_sound(b, j1, Seq::<u8>::empty());
    lemma_sp_qstr_sound(b, j3, Seq::<u8>::empty());
    lemma_sp_qstr_sound(b, j5, Seq::<u8>::empty());
    assert(s.subrange(0, s.len() as int) =~= s);
    assert(u.subrange(0, u.len() as int) =~= u);
    assert(p.subrange(0, p.len() as int) =~= p);
    assert(b.subrange(j1, j2) == qchunk(s));
    assert(b.subrange(j3, j4) == qchunk(u));
    assert(b.subrange(j5, j6) == qchunk(p));
    assert(b.subrange(j6, j6 + 1) =~= seq![125u8]);
    assert(b.subrange(i, j) =~= b.subrange(i, j1) + b.subrange(j1, j2) + b.subrange(j2, j3)
        + b.subrange(j3, j4) + b.subrange(j4, j5) + b.subrange(j5, j6) + b.subrange(j6, j));
    assert(b.subrange(i, j) =~= entry_json_b(e));
}

/// A successful list parse read exactly the tail encoding of what it added
/// to the accumulator, followed by the closing bracket.
#[verifier::rlimit(100)]
#[verifier::spinoff_prover]
pub proof fn lemma_sp_entries_sound(b: Seq<u8>, i: int, acc: Seq<EntryBytes>)
    requires
        sp_entries(b, i, acc) is Some,
    ensures
        ({
            let (es, j) = sp_entries(b, i, acc).unwrap();
            acc.len() <= es.len() && es.subrange(0, acc.len() as int) == acc && 0 <= i && i < j
                <= b.len() && b.subrange(i, j) == (if acc.len() == 0 {
                entries_json_b(es.subrange(acc.len() as int, es.len() as int))
            } else {
                entries_tail_json_b(es.subrange(acc.len() as int, es.len() as int))
            }) + seq![93u8]
        }),
    decreases b.len() - i,
{
    let (es, j) = sp_entries(b, i, acc).unwrap();
    if b[i] == 93 {
        assert(es == acc);
        assert(es.subrange(0, acc.len() as int) =~= acc);
        let ts = es.subrange(acc.len() as int, es.len() as int);
        assert(ts =~= Seq::<EntryBytes>::empty());
        if acc.len() == 0 {
            assert(entries_json_b(ts) =~= Seq::<u8>::empty());
        } else {
            assert(entries_tail_json_b(ts) =~= Seq::<u8>::empty());
        }
        assert(b.subrange(i, i + 1) =~= seq![93u8]);
    } else {
        let start = if acc.len() == 0 {
            i
        } else {
            i + 1
        };
        let (e, je) = sp_entry(b, start).unwrap();
        lemma_sp_entry_sound(b, start);
        let acc2 = acc.push(e);
        lemma_sp_entries_sound(b, je, acc2);
        assert(es.subrange(0, acc2.len() as int) == acc2);
        assert(es.subrange(0, acc.len() as int) =~= acc) by {
            assert(forall|k: int| 0 <= k < acc.len() ==> #[trigger] es.subrange(
                0,
                acc.len() as int,
            )[k] == es.subrange(0, acc2.len() as int)[k]);
        }
        assert(es[acc.len() as int] == e) by {
            assert(es.subrange(0, acc2.len() as int)[acc.len() as int] == e);
        }
        let ts = es.subrange(acc.len() as int, es.len() as int);
        let ts2 = es.subrange(acc2.len() as int, es.len() as int);
        assert(ts =~= seq![e] + ts2);
        assert(ts.drop_first() =~= ts2);
        assert(ts[0] == e);
        let tail_rest: Seq<u8> = if acc2.len() == 0 {
            entries_json_b(ts2)
        } else {
            entries_tail_json_b(ts2)
        };
        assert(acc2.len() > 0);
        assert(b.subrange(je, j) == entries_tail_json_b(ts2) + seq![93u8]);
        if acc.len() == 0 {
            assert(b.subrange(i, j) =~= b.subrange(start, je) + b.subrange(je, j));
            assert(entries_json_b(ts) == entry_json_b(e) + entries_tail_json_b(ts2));
            assert(b.subrange(i, j) =~= entries_json_b(ts) + seq![93u8]);
        } else {
            assert(b[i] == 44);
            assert(b.subrange(i, i + 1) =~= seq![44u8]);
            assert(b.subrange(i, j) =~= b.subrange(i, i + 1) + b.subrange(start, je) + b.subrange(
                je,
                j,
            ));
            assert(entries_tail_json_b(ts) == seq![44u8] + entry_json_b(e)
                + entries_tail_json_b(ts2));
            assert(b.subrange(i, j) =~= entries_tail_json_b(ts) + seq![93u8]);
        }
    }
}

/// A successfully parsed document is exactly the canonical encoding of its
/// result.
#[verifier::rlimit(100)]
pub proof fn lemma_sp_vault_sound(b: Seq<u8>)
    requires
        sp_vault(b) is Some,
    ensures
        b == vault_json_b(sp_vault(b).unwrap()),
{
    let es = sp_vault(b).unwrap();
    let j = sp_lit(b, 0, lit_vault_open()).unwrap();
    let (es0, j2) = sp_entries(b, j, Seq::<EntryBytes>::empty()).unwrap();
    lemma_sp_entries_sound(b, j, Seq::<EntryBytes>::empty());
    assert(es0.subrange(0, es0.len() as int) =~= es0);
    assert(b.subrange(j, j2) == entries_json_b(es0) + seq![93u8]);
    assert(b.subrange(0, j) == lit_vault_open());
    let c = vault_json_b(es);
    assert(c == lit_vault_open() + entries_json_b(es) + seq![93u8, 125u8]);
    assert(es == es0);
    assert(j == 12);
    assert(j2 + 1 == b.len());
    assert(j < j2 <= b.len());
    assert(b.subrange(j, j2).len() == j2 - j);
    assert(j2 - j == entries_json_b(es0).len() + 1);
    assert(c.len() == 12 + entries_json_b(es).len() + 2);
    assert(b.len() == c.len());
    assert forall|k: int| 0 <= k < b.len() implies b[k] == c[k] by {
        if k < j {
            assert(b.subrange(0, j)[k] == b[k]);
            assert(c[k] == lit_vault_open()[k]);
        } else if k < j2 {
            assert(b.subrange(j, j2)[k - j] == b[k]);
            assert((entries_json_b(es0) + seq![93u8])[k - j] == c[k]);
        } else {
            assert(k == j2);
            assert(c[k] == 125);
        }
    }
    assert(b =~= c);
}

/// The canonical document determines the vault: no two different record
/// collections serialize to the same bytes.  Together with the contracts
/// of `encode_vault` and `decode_vault` this pins the round trip down:
/// decoding an encoded vault can only ever yield that vault.
pub proof fn lemma_vault_json_injective(es1: Seq<EntryModel>, es2: Seq<EntryModel>)
    requires
        vault_json(es1) == vault_json(es2),
    ensures
        es1 == es2,
{
    broadcast use vstd::utf8::encode_utf8_decode_utf8;

    lemma_sp_vault_complete(entries_bytes_of(es1));
    lemma_sp_vault_complete(entries_bytes_of(es2));
    assert(entries_bytes_of(es1) == entries_bytes_of(es2));
    assert(es1.len() == es2.len()) by {
        assert(entries_bytes_of(es1).len() == es1.len());
        assert(entries_bytes_of(es2).len() == es2.len());
    }
    assert forall|i: int| 0 <= i < es1.len() implies es1[i] == es2[i] by {
        assert(entries_bytes_of(es1)[i] == entry_bytes_of(es1[i]));
        assert(entries_bytes_of(es2)[i] == entry_bytes_of(es2[i]));
        assert(decode_utf8(encode_utf8(es1[i].service)) == decode_utf8(
            encode_utf8(es2[i].service),
        ));
        assert(decode_utf8(encode_utf8(es1[i].username)) == decode_utf8(
            encode_utf8(es2[i].username),
        ));
        assert(decode_utf8(encode_utf8(es1[i].password)) == decode_utf8(
            encode_utf8(es2[i].password),
        ));
    }
    assert(es1 =~= es2);
}

/// Byte-level view of one parsed record held in executable form.
pub open spec fn teb(t: (Vec<u8>, Vec<u8>, Vec<u8>)) -> EntryBytes {
    EntryBytes { service: t.0@, username: t.1@, password: t.2@ }
}

pub open spec fn tuples_model(s: Seq<(Vec<u8>, Vec<u8>, Vec<u8>)>) -> Seq<EntryBytes> {
    s.map_values(|t: (Vec<u8>, Vec<u8>, Vec<u8>)| teb(t))
}

fn lit_entry_service_vec() -> (r: Vec<u8>)
    ensures
        r@ == lit_entry_service(),
{
    let mut v: Vec<u8> = Vec::new();
    v.push(123);
    v.push(34);
    v.push(115);
    v.push(101);
    v.push(114);
    v.push(118);
    v.push(105);
    v.push(99);
    v.push(101);
    v.push(34);
    v.push(58);
    v.push(34);
    proof {
        assert(v@ =~= lit_entry_service());
    }
    v
}

fn lit_sep_username_vec() -> (r: Vec<u8>)
    ensures
        r@ == lit_sep_username(),
{
    let mut v: Vec<u8> = Vec::new();
    v.push(44);
    v.push(34);
    v.push(117);
    v.push(115);
    v.push(101);
    v.push(114);
    v.push(110);
    v.push(97);
    v.push(109);
    v.push(101);
    v.push(34);
    v.push(58);
    v.push(34);
    proof {
        assert(v@ =~= lit_sep_username());
    }
    v
}

fn lit_sep_password_vec() -> (r: Vec<u8>)
    ensures
        r@ == lit_sep_password(),
{
    let mut v: Vec<u8> = Vec::new();
    v.push(44);
    v.push(34);
    v.push(112);
    v.push(97);
    v.push(115);
    v.push(115);
    v.push(119);
    v.push(111);
    v.push(114);
    v.push(100);
    v.push(34);
    v.push(58);
    v.push(34);
    proof {
        assert(v@ =~= lit_sep_password());
    }
    v
}

fn lit_vault_open_vec() -> (r: Vec<u8>)
    ensures
        r@ == lit_vault_open(),
{
    let mut v: Vec<u8> = Vec::new();
    v.push(123);
    v.push(34);
    v.push(101);
    v.push(110);
    v.push(116);
    v.push(114);
    v.push(105);
    v.push(101);
    v.push(115);
    v.push(34);
    v.push(58);
    v.push(91);
    proof {
        assert(v@ =~= lit_vault_open());
    }
    v
}

/// Appends the canonical JSON object of one record.
fn push_entry_json(out: &mut Vec<u8>, e: &PasswordEntry)
    ensures
        final(out)@ == old(out)@ + entry_json_b(entry_bytes_of(e@)),
{
    let mut l1 = lit_entry_service_vec();
    out.append(&mut l1);
    push_escaped(out, e.service.as_str().as_bytes());
    out.push(34);
    proof {
        assert(out@ =~= old(out)@ + lit_entry_service() + qchunk(encode_utf8(e.service@)));
    }
    let ghost snap1 = out@;
    let mut l2 = lit_sep_username_vec();
    out.append(&mut l2);
    push_escaped(out, e.username.as_str().as_bytes());
    out.push(34);
    proof {
        assert(out@ =~= snap1 + lit_sep_username() + qchunk(encode_utf8(e.username@)));
    }
    let ghost snap2 = out@;
    let mut l3 = lit_sep_password_vec();
    out.append(&mut l3);
    push_escaped(out, e.password.as_str().as_bytes());
    out.push(34);
    out.push(125);
    proof {
        assert(out@ =~= snap2 + lit_sep_password() + qchunk(encode_utf8(e.password@))
            + seq![125u8]);
        assert(out@ =~= old(out)@ + entry_json_b(entry_bytes_of(e@)));
    }
}

/// Serializes a vault into its canonical JSON document.
pub fn encode_vault(v: &PasswordVault) -> (r: Vec<u8>)
    ensures
        r@ == vault_json(v@),
{
    let mut out = lit_vault_open_vec();
    proof {
        assert(entries_bytes_of(v@.subrange(0, 0)) =~= Seq::<EntryBytes>::empty());
        assert(out@ =~= lit_vault_open() + entries_json_b(entries_bytes_of(v@.subrange(0, 0))));
    }
    let n = v.entries.len();
    let mut k: usize = 0;
    while k < n
        invariant
            n == v.entries@.len(),
            k <= n,
            out@ == lit_vault_open() + entries_json_b(entries_bytes_of(v@.subrange(0, k as int))),
        decreases n - k,
    {
        let ghost pre = entries_bytes_of(v@.subrange(0, k as int));
        if k > 0 {
            out.push(44);
        }
        let ghost out1 = out@;
        push_entry_json(&mut out, &v.entries[k]);
        proof {
            let eb = entry_bytes_of(v@[k as int]);
            assert(v.entries@[k as int]@ == v@[k as int]);
            assert(v@.subrange(0, k + 1) =~= v@.subrange(0, k as int).push(v@[k as int]));
            assert(entries_bytes_of(v@.subrange(0, k + 1)) =~= pre.push(eb));
            lemma_entries_json_snoc(pre, eb);
            if k == 0 {
                assert(pre.len() == 0);
                assert(out@ =~= lit_vault_open() + entries_json_b(pre.push(eb)));
            } else {
                assert(pre.len() > 0);
                assert(out@ =~= lit_vault_open() + entries_json_b(pre.push(eb)));
            }
        }
        k = k + 1;
    }
    out.push(93);
    out.push(125);
    proof {
        assert(v@.subrange(0, n as int) =~= v@);
        assert(out@ =~= vault_json(v@));
    }
    out
}

/// Parses one record object, mirroring [`sp_entry`].
fn p_entry(b: &Vec<u8>, i: usize) -> (r: Option<((Vec<u8>, Vec<u8>, Vec<u8>), usize)>)
    ensures
        match r {
            Some(p) => sp_entry(b@, i as int) == Some((teb(p.0), p.1 as int)),
            None => sp_entry(b@, i as int) is None,
        },
{
    let l1 = lit_entry_service_vec();
    let j1 = match p_lit(b, i, &l1) {
        Some(j) => j,
        None => {
            return None;
        },
    };
    let (s, j2) = match p_qstr(b, j1) {
        Some(p) => p,
        None => {
            return None;
        },
    };
    let l2 = lit_sep_username_vec();
    let j3 = match p_lit(b, j2, &l2) {
        Some(j) => j,
        None => {
            return None;
        },
    };
    let (u, j4) = match p_qstr(b, j3) {
        Some(p) => p,
        None => {
            return None;
        },
    };
    let l3 = lit_sep_password_vec();
    let j5 = match p_lit(b, j4, &l3) {
        Some(j) => j,
        None => {
            return None;
        },
    };
    let (p, j6) = match p_qstr(b, j5) {
        Some(p) => p,
        None => {
            return None;
        },
    };
    if j6 < b.len() && b[j6] == 125 {
        Some(((s, u, p), j6 + 1))
    } else {
        None
    }
}

/// Parses the record list, mirroring [`sp_entries`].
fn p_entries(b: &Vec<u8>, i: usize) -> (r: Option<(Vec<(Vec<u8>, Vec<u8>, Vec<u8>)>, usize)>)
    ensures
        match r {
            Some(p) => sp_entries(b@, i as int, Seq::<EntryBytes>::empty()) == Some(
                (tuples_model(p.0@), p.1 as int),
            ),
            None => sp_entries(b@, i as int, Seq::<EntryBytes>::empty()) is None,
        },
{
    let mut acc: Vec<(Vec<u8>, Vec<u8>, Vec<u8>)> = Vec::new();
    let mut j: usize = i;
    let _blen = b.len();
    proof {
        assert(tuples_model(acc@) =~= Seq::<EntryBytes>::empty());
    }
    loop
        invariant
            b@.len() <= usize::MAX,
            sp_entries(b@, i as int, Seq::<EntryBytes>::empty()) == sp_entries(
                b@,
                j as int,
                tuples_model(acc@),
            ),
        decreases b@.len() - j,
    {
        if j >= b.len() {
            return None;
        }
        if b[j] == 93 {
            return Some((acc, j + 1));
        }
        let is_first = acc.len() == 0;
        let start: usize = if is_first {
            j
        } else {
            if b[j] != 44 {
                return None;
            }
            j + 1
        };
        proof {
            assert(tuples_model(acc@).len() == acc@.len());
        }
        match p_entry(b, start) {
            None => {
                return None;
            },
            Some((t, j2)) => {
                proof {
                    lemma_sp_entry_bounds(b@, start as int);
                }
                let ghost acc0 = acc@;
                acc.push(t);
                proof {
                    assert(tuples_model(acc@) =~= tuples_model(acc0).push(teb(t)));
                }
                j = j2;
            },
        }
    }
}

/// Deserializes the canonical JSON document back into a vault.
///
/// Accepts exactly what [`encode_vault`] produces: decoding is proved to
/// succeed on, and only on, the canonical document of some vault, and to
/// return exactly that vault.
pub fn decode_vault(bytes: &Vec<u8>) -> (r: Result<PasswordVault, VaultError>)
    ensures
        forall|es: Seq<EntryModel>| bytes@ == #[trigger] vault_json(es) ==> r is Ok
            && r->Ok_0@ == es,
        r is Ok ==> bytes@ == vault_json(r->Ok_0@),
        r is Err ==> r->Err_0 == VaultError::CorruptVault,
{
    broadcast use {
        vstd::utf8::encode_utf8_valid_utf8,
        vstd::utf8::encode_utf8_decode_utf8,
        vstd::utf8::decode_utf8_encode_utf8,
    };

    let lo = lit_vault_open_vec();
    let jo = match p_lit(bytes, 0, &lo) {
        Some(j) => j,
        None => {
            proof {
                assert forall|es: Seq<EntryModel>| bytes@ != #[trigger] vault_json(es) by {
                    if bytes@ == vault_json(es) {
                        lemma_sp_vault_complete(entries_bytes_of(es));
                    }
                }
            }
            return Err(VaultError::CorruptVault);
        },
    };
    let (mut ts, j2) = match p_entries(bytes, jo) {
        Some(p) => p,
        None => {
            proof {
                assert forall|es: Seq<EntryModel>| bytes@ != #[trigger] vault_json(es) by {
                    if bytes@ == vault_json(es) {
                        lemma_sp_vault_complete(entries_bytes_of(es));
                    }
                }
            }
            return Err(VaultError::CorruptVault);
        },
    };
    if !(j2 < bytes.len() && bytes[j2] == 125 && j2 + 1 == bytes.len()) {
        proof {
            assert(sp_vault(bytes@) is None);
            assert forall|es: Seq<EntryModel>| bytes@ != #[trigger] vault_json(es) by {
                if bytes@ == vault_json(es) {
                    lemma_sp_vault_complete(entries_bytes_of(es));
                }
            }
        }
        return Err(VaultError::CorruptVault);
    }
    let ghost tm = tuples_model(ts@);
    proof {
        assert(sp_vault(bytes@) == Some(tm));
    }
    let mut entries: Vec<PasswordEntry> = Vec::new();
    let ghost tm_full = tm;
    while ts.len() > 0
        invariant
            sp_vault(bytes@) == Some(tm_full),
            entries@.len() + ts@.len() == tm_full.len(),
            tuples_model(ts@) =~= tm_full.subrange(entries@.len() as int, tm_full.len() as int),
            forall|k: int| 0 <= k < entries@.len() ==> valid_utf8(#[trigger] tm_full[k].service)
                && valid_utf8(tm_full[k].username) && valid_utf8(tm_full[k].password),
            forall|k: int| 0 <= k < entries@.len() ==> #[trigger] entries@[k]@
                == (EntryModel {
                service: decode_utf8(tm_full[k].service),
                username: decode_utf8(tm_full[k].username),
                password: decode_utf8(tm_full[k].password),
            }),
        decreases ts@.len(),
    {
        let ghost ts0 = ts@;
        let ghost ne = entries@.len() as int;
        let t = ts.remove(0);
        proof {
            assert(tuples_model(ts0)[0] == teb(t));
            assert(tm_full[ne] == teb(t));
            assert(tuples_model(ts@) =~= tuples_model(ts0).drop_first());
            assert(tuples_model(ts@) =~= tm_full.subrange(ne + 1, tm_full.len() as int));
        }
        let (sv, uv, pv) = t;
        let s = match string_from_utf8(sv) {
            Some(s) => s,
            None => {
                proof {
                    err_no_model(bytes@, tm_full, ne);
                }
                return Err(VaultError::CorruptVault);
            },
        };
        let u = match string_from_utf8(uv) {
            Some(u) => u,
            None => {
                proof {
                    err_no_model(bytes@, tm_full, ne);
                }
                return Err(VaultError::CorruptVault);
            },
        };
        let p = match string_from_utf8(pv) {
            Some(p) => p,
            None => {
                proof {
                    err_no_model(bytes@, tm_full, ne);
                }
                return Err(VaultError::CorruptVault);
            },
        };
        entries.push(PasswordEntry { service: s, username: u, password: p });
    }
    let out = PasswordVault { entries };
    proof {
        lemma_sp_vault_sound(bytes@);
        assert(out@.len() == tm_full.len());
        assert(entries_bytes_of(out@) =~= tm_full);
        assert(bytes@ == vault_json(out@));
        assert forall|es: Seq<EntryModel>| bytes@ == #[trigger] vault_json(es) implies out@
            == es by {
            lemma_sp_vault_complete(entries_bytes_of(es));
            assert(entries_bytes_of(es) == tm_full);
            assert(out@ =~= es);
        }
    }
    Ok(out)
}

/// When the parsed model holds a field that is not valid UTF-8, the input
/// cannot be the canonical document of any vault.
proof fn err_no_model(b: Seq<u8>, tm: Seq<EntryBytes>, ne: int)
    requires
        sp_vault(b) == Some(tm),
        0 <= ne < tm.len(),
        !(valid_utf8(tm[ne].service) && valid_utf8(tm[ne].username) && valid_utf8(
            tm[ne].password,
        )),
    ensures
        forall|es: Seq<EntryModel>| b != #[trigger] vault_json(es),
{
    broadcast use vstd::utf8::encode_utf8_valid_utf8;

    assert forall|es: Seq<EntryModel>| b != #[trigger] vault_json(es) by {
        if b == vault_json(es) {
            lemma_sp_vault_complete(entries_bytes_of(es));
            assert(entries_bytes_of(es) == tm);
            assert(tm[ne] == entry_bytes_of(es[ne]));
        }
    }
}

} // verus!
