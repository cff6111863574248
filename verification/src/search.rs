//! Ranked, case-insensitive search over the decrypted records.
//!
//! A free-text query is matched against the `service` and `username`
//! fields of every record, case-insensitively.  Exact matches rank above
//! prefix matches, prefix matches above substring matches, the service
//! field above the username field; records that match nowhere are
//! excluded.  Results come back ordered by descending score, ties broken
//! by original insertion order.  This is a pure ranking over plaintext
//! already in memory: it never touches ciphertext and performs no I/O.

use vstd::prelude::*;
use crate::models::{EntryModel, PasswordEntry, PasswordVault};

verus! {

/// The Unicode lowercase mapping of a character sequence: the result of
/// `str::to_lowercase`, which depends on the characters alone.
pub uninterp spec fn lower_of(s: Seq<char>) -> Seq<char>;

/// Relies on `str::to_lowercase`: returns the lowercase mapping of the
/// input characters; lowercasing the empty string yields the empty string.
#[verifier::external_body]
fn to_lower_chars(s: &str) -> (r: Vec<char>)
    ensures
        r@ == lower_of(s@),
        s@.len() == 0 ==> r@.len() == 0,
{
    s.to_lowercase().chars().collect()
}

/// `p` is a prefix of `s`.
pub open spec fn is_prefix(p: Seq<char>, s: Seq<char>) -> bool {
    p.len() <= s.len() && s.subrange(0, p.len() as int) == p
}

/// `sub` occurs in `s` at position `i`.
pub open spec fn occurs_at(s: Seq<char>, sub: Seq<char>, i: int) -> bool {
    0 <= i && i + sub.len() <= s.len() && s.subrange(i, i + sub.len()) == sub
}

/// `sub` occurs somewhere in `s`.
pub open spec fn contains_seq(s: Seq<char>, sub: Seq<char>) -> bool {
    exists|i: int| occurs_at(s, sub, i)
}

/// The score of one record against an already-lowercased query.
///
/// Tiers: exact match on either field 1000; service prefix 100; username
/// prefix 80; service substring 10; username substring 5; the tiers that
/// apply add up.  An empty query scores 0.
pub open spec fn score_of(e: EntryModel, ql: Seq<char>) -> int {
    if ql.len() == 0 {
        0
    } else {
        let s = lower_of(e.service);
        let u = lower_of(e.username);
        (if s == ql || u == ql {
            1000int
        } else {
            0int
        }) + (if is_prefix(ql, s) {
            100int
        } else {
            0int
        }) + (if is_prefix(ql, u) {
            80int
        } else {
            0int
        }) + (if contains_seq(s, ql) {
            10int
        } else {
            0int
        }) + (if contains_seq(u, ql) {
            5int
        } else {
            0int
        })
    }
}

/// A record belongs in the result: every record does for an empty query,
/// otherwise exactly those with a nonzero score.
pub open spec fn hit(e: EntryModel, ql: Seq<char>) -> bool {
    ql.len() == 0 || score_of(e, ql) > 0
}

/// `x` ranks strictly before `y`: higher score, or equal score and
/// earlier original position.
pub open spec fn rank_before(x: (usize, u32), y: (usize, u32)) -> bool {
    x.1 > y.1 || (x.1 == y.1 && x.0 < y.0)
}

/// One result element is sound: a real index, the record at it, its exact
/// score, and a genuine hit.
pub open spec fn valid_hit(
    entries: Seq<EntryModel>,
    ql: Seq<char>,
    idx: int,
    e: EntryModel,
    sc: int,
) -> bool {
    0 <= idx < entries.len() && e == entries[idx] && sc == score_of(entries[idx], ql) && hit(
        entries[idx],
        ql,
    )
}

fn chars_eq(a: &Vec<char>, b: &Vec<char>) -> (r: bool)
    ensures
        r == (a@ == b@),
{
    if a.len() != b.len() {
        proof {
            assert(a@ != b@);
        }
        return false;
    }
    let n = a.len();
    let mut i: usize = 0;
    while i < n
        invariant
            n == a@.len() && n == b@.len(),
            i <= n,
            forall|k: int| 0 <= k < i ==> a@[k] == b@[k],
        decreases n - i,
    {
        if a[i] != b[i] {
            return false;
        }
        i = i + 1;
    }
    proof {
        assert(a@ =~= b@);
    }
    true
}

/// Does `s` start with `p`?
fn starts_with_chars(s: &Vec<char>, p: &Vec<char>) -> (r: bool)
    ensures
        r == is_prefix(p@, s@),
{
    if p.len() > s.len() {
        return false;
    }
    let n = p.len();
    let mut i: usize = 0;
    while i < n
        invariant
            n == p@.len(),
            n <= s@.len(),
            i <= n,
            forall|k: int| 0 <= k < i ==> s@[k] == p@[k],
        decreases n - i,
    {
        if s[i] != p[i] {
            proof {
                assert(s@.subrange(0, n as int)[i as int] != p@[i as int]);
            }
            return false;
        }
        i = i + 1;
    }
    proof {
        assert(s@.subrange(0, n as int) =~= p@);
    }
    true
}

/// Does `sub` occur anywhere in `s`?
fn contains_chars(s: &Vec<char>, sub: &Vec<char>) -> (r: bool)
    ensures
        r == contains_seq(s@, sub@),
{
    if sub.len() > s.len() {
        proof {
            assert(forall|i: int| !occurs_at(s@, sub@, i));
        }
        return false;
    }
    if sub.len() == 0 {
        proof {
            assert(s@.subrange(0, 0) =~= sub@);
            assert(occurs_at(s@, sub@, 0));
        }
        return true;
    }
    let last = s.len() - sub.len();
    let mut i: usize = 0;
    while i <= last
        invariant
            1 <= sub@.len() <= s@.len(),
            s@.len() <= usize::MAX,
            last == s@.len() - sub@.len(),
            i <= last + 1,
            forall|k: int| 0 <= k < i ==> !occurs_at(s@, sub@, k),
        decreases last + 1 - i,
    {
        let n = sub.len();
        let mut j: usize = 0;
        let mut matches = true;
        while j < n
            invariant
                n == sub@.len(),
                1 <= n,
                i + n <= s@.len(),
                s@.len() <= usize::MAX,
                j <= n,
                matches == (forall|k: int| 0 <= k < j ==> s@[i + k] == sub@[k]),
            decreases n - j,
        {
            if s[i + j] != sub[j] {
                matches = false;
                proof {
                    assert(s@[i + j] != sub@[j as int]);
                }
                j = n;
            } else {
                j = j + 1;
            }
        }
        if matches {
            proof {
                assert(s@.subrange(i as int, i + sub@.len()) =~= sub@);
                assert(occurs_at(s@, sub@, i as int));
            }
            return true;
        }
        proof {
            assert(!occurs_at(s@, sub@, i as int)) by {
                if occurs_at(s@, sub@, i as int) {
                    assert(forall|k: int| 0 <= k < sub@.len() ==> #[trigger] s@.subrange(
                        i as int,
                        i + sub@.len(),
                    )[k] == s@[i + k]);
                }
            }
        }
        i = i + 1;
    }
    proof {
        assert(forall|k: int| !occurs_at(s@, sub@, k)) by {
            assert(forall|k: int| k > last ==> !occurs_at(s@, sub@, k));
        }
    }
    false
}

/// Exchanging two positions keeps exactly the same set of elements.
proof fn lemma_swap_contains(s1: Seq<(usize, u32)>, s2: Seq<(usize, u32)>, p: int, q: int)
    requires
        0 <= p < s1.len(),
        0 <= q < s1.len(),
        s2 == s1.update(p, s1[q]).update(q, s1[p]),
    ensures
        forall|x: (usize, u32)| s1.contains(x) <==> s2.contains(x),
{
    assert forall|x: (usize, u32)| s1.contains(x) implies s2.contains(x) by {
        let w = choose|w: int| 0 <= w < s1.len() && s1[w] == x;
        if w == p {
            assert(s2[q] == x);
        } else if w == q {
            assert(s2[p] == x);
        } else {
            assert(s2[w] == x);
        }
    }
    assert forall|x: (usize, u32)| s2.contains(x) implies s1.contains(x) by {
        let w = choose|w: int| 0 <= w < s2.len() && s2[w] == x;
        if w == p {
            assert(s1[q] == x);
        } else if w == q {
            assert(s1[p] == x);
        } else {
            assert(s1[w] == x);
        }
    }
}

/// Sorts the (index, score) pairs by descending score, ties by ascending
/// index, keeping exactly the same elements.
fn sort_hits(v: &mut Vec<(usize, u32)>)
    requires
        forall|a: int, b: int| 0 <= a < b < old(v)@.len() ==> old(v)@[a].0 != old(v)@[b].0,
    ensures
        final(v)@.len() == old(v)@.len(),
        forall|x: (usize, u32)| old(v)@.contains(x) <==> final(v)@.contains(x),
        forall|a: int, b: int| 0 <= a < b < final(v)@.len() ==> rank_before(
            final(v)@[a],
            final(v)@[b],
        ),
        forall|a: int, b: int| 0 <= a < b < final(v)@.len() ==> final(v)@[a].0 != final(v)@[b].0,
{
    let n = v.len();
    let mut k: usize = 1;
    if n == 0 {
        return;
    }
    while k < n
        invariant
            n == v@.len(),
            1 <= k <= n,
            forall|x: (usize, u32)| old(v)@.contains(x) <==> v@.contains(x),
            forall|a: int, b: int| 0 <= a < b < n ==> v@[a].0 != v@[b].0,
            forall|a: int, b: int| 0 <= a < b < k ==> rank_before(v@[a], v@[b]),
        decreases n - k,
    {
        let mut j: usize = k;
        while j > 0 && rank_cmp(v[j], v[j - 1])
            invariant
                n == v@.len(),
                1 <= k < n,
                0 <= j <= k,
                forall|x: (usize, u32)| old(v)@.contains(x) <==> v@.contains(x),
                forall|a: int, b: int| 0 <= a < b < n ==> v@[a].0 != v@[b].0,
                forall|a: int, b: int| 0 <= a < b <= k && b != j ==> rank_before(v@[a], v@[b]),
                forall|b: int| j < b <= k ==> rank_before(v@[j as int], v@[b]),
            decreases j,
        {
            let ghost s1 = v@;
            let x = v[j];
            let y = v[j - 1];
            v[j - 1] = x;
            v[j] = y;
            proof {
                lemma_swap_contains(s1, v@, j - 1, j as int);
            }
            j = j - 1;
        }
        proof {
            assert forall|a: int, b: int| 0 <= a < b <= k implies rank_before(v@[a], v@[b]) by {
                if b == j {
                    if j > 0 {
                        assert(!rank_before(v@[j as int], v@[j - 1]));
                        assert(v@[j - 1].0 != v@[j as int].0);
                        assert(rank_before(v@[j - 1], v@[j as int]));
                        if a < j - 1 {
                            assert(rank_before(v@[a], v@[j - 1]));
                        }
                    }
                }
            }
        }
        k = k + 1;
    }
}

/// Executable mirror of [`rank_before`].
fn rank_cmp(x: (usize, u32), y: (usize, u32)) -> (r: bool)
    ensures
        r == rank_before(x, y),
{
    x.1 > y.1 || (x.1 == y.1 && x.0 < y.0)
}

impl PasswordVault {
    /// Ranks the records against a free-text query.
    ///
    /// Returns, for every matching record, its original index, a copy of
    /// the record and its score, ordered by descending score with ties in
    /// original order.  An empty query returns every record, in original
    /// order, with score 0; a query that matches nothing returns an empty
    /// result.
    pub fn search_entries(&self, query: &str) -> (r: Vec<(usize, PasswordEntry, u32)>)
        ensures
            forall|j: int| 0 <= j < r@.len() ==> valid_hit(
                self@,
                lower_of(query@),
                #[trigger] r@[j].0 as int,
                r@[j].1@,
                r@[j].2 as int,
            ),
            forall|i: int| 0 <= i < self@.len() && hit(self@[i], lower_of(query@))
                ==> exists|j: int| 0 <= j < r@.len() && #[trigger] r@[j].0 == i,
            forall|j1: int, j2: int| 0 <= j1 < j2 < r@.len() ==> r@[j1].2 > r@[j2].2 || (r@[j1].2
                == r@[j2].2 && r@[j1].0 < r@[j2].0),
    {
        let ql = to_lower_chars(query);
        let ghost qls = lower_of(query@);
        let n = self.entries.len();
        let mut scored: Vec<(usize, u32)> = Vec::new();
        let mut i: usize = 0;
        while i < n
            invariant
                n == self.entries@.len(),
                i <= n,
                ql@ == qls,
                forall|a: int, b: int| 0 <= a < b < scored@.len() ==> #[trigger] scored@[a].0
                    < #[trigger] scored@[b].0,
                forall|a: int| 0 <= a < scored@.len() ==> (#[trigger] scored@[a].0 as int) < i
                    && valid_hit(
                    self@,
                    qls,
                    scored@[a].0 as int,
                    self@[scored@[a].0 as int],
                    scored@[a].1 as int,
                ),
                forall|ii: int| 0 <= ii < i && hit(#[trigger] self@[ii], qls)
                    ==> exists|a: int| 0 <= a < scored@.len() && (#[trigger] scored@[a].0 as int)
                    == ii,
            decreases n - i,
        {
            let sl = to_lower_chars(self.entries[i].service.as_str());
            let ul = to_lower_chars(self.entries[i].username.as_str());
            proof {
                assert(self.entries@[i as int]@ == self@[i as int]);
            }
            let ghost s0 = scored@;
            if ql.len() == 0 {
                scored.push((i, 0));
                proof {
                    assert forall|ii2: int| 0 <= ii2 < i + 1 && hit(#[trigger] self@[ii2], qls)
                        implies exists|a: int| 0 <= a < scored@.len() && (
                    #[trigger] scored@[a].0 as int) == ii2 by {
                        if ii2 < i {
                            let a = choose|a: int| 0 <= a < s0.len() && (
                            #[trigger] s0[a].0 as int) == ii2;
                            assert(scored@[a].0 as int == ii2);
                        } else {
                            assert(scored@[scored@.len() - 1].0 as int == ii2);
                        }
                    }
                }
            } else {
                let mut sc: u32 = 0;
                if chars_eq(&sl, &ql) || chars_eq(&ul, &ql) {
                    sc = sc + 1000;
                }
                if starts_with_chars(&sl, &ql) {
                    sc = sc + 100;
                }
                if starts_with_chars(&ul, &ql) {
                    sc = sc + 80;
                }
                if contains_chars(&sl, &ql) {
                    sc = sc + 10;
                }
                if contains_chars(&ul, &ql) {
                    sc = sc + 5;
                }
                proof {
                    assert(sc as int == score_of(self@[i as int], qls));
                }
                if sc > 0 {
                    scored.push((i, sc));
                    proof {
                        assert forall|ii2: int| 0 <= ii2 < i + 1 && hit(
                            #[trigger] self@[ii2],
                            qls,
                        ) implies exists|a: int| 0 <= a < scored@.len() && (
                        #[trigger] scored@[a].0 as int) == ii2 by {
                            if ii2 < i {
                                let a = choose|a: int| 0 <= a < s0.len() && (
                                #[trigger] s0[a].0 as int) == ii2;
                                assert(scored@[a].0 as int == ii2);
                            } else {
                                assert(scored@[scored@.len() - 1].0 as int == ii2);
                            }
                        }
                    }
                }
            }
            i = i + 1;
        }
        let ghost pre = scored@;
        sort_hits(&mut scored);
        let ghost sorted = scored@;
        proof {
            assert forall|a: int| 0 <= a < sorted.len() implies valid_hit(
                self@,
                qls,
                #[trigger] sorted[a].0 as int,
                self@[sorted[a].0 as int],
                sorted[a].1 as int,
            ) by {
                let x = sorted[a];
                assert(sorted.contains(x));
                assert(pre.contains(x));
                let w = choose|w: int| 0 <= w < pre.len() && pre[w] == x;
            }
        }
        let mut r: Vec<(usize, PasswordEntry, u32)> = Vec::new();
        let m = scored.len();
        let mut j: usize = 0;
        while j < m
            invariant
                m == sorted.len(),
                scored@ == sorted,
                j <= m,
                n == self.entries@.len(),
                forall|a: int| 0 <= a < sorted.len() ==> valid_hit(
                    self@,
                    qls,
                    #[trigger] sorted[a].0 as int,
                    self@[sorted[a].0 as int],
                    sorted[a].1 as int,
                ),
                r@.len() == j,
                forall|a: int| 0 <= a < j ==> (#[trigger] r@[a]).0 == sorted[a].0,
                forall|a: int| 0 <= a < j ==> (#[trigger] r@[a]).2 == sorted[a].1,
                forall|a: int| 0 <= a < j ==> (#[trigger] r@[a]).1@ == self@[sorted[a].0 as int],
            decreases m - j,
        {
            proof {
                assert(valid_hit(
                    self@,
                    qls,
                    sorted[j as int].0 as int,
                    self@[sorted[j as int].0 as int],
                    sorted[j as int].1 as int,
                ));
            }
            let (idx, sc) = scored[j];
            let entry = self.entries[idx].clone();
            proof {
                assert(self.entries@[idx as int]@ == self@[idx as int]);
            }
            r.push((idx, entry, sc));
            j = j + 1;
        }
        proof {
            assert forall|ii: int| 0 <= ii < self@.len() && hit(self@[ii], qls)
                implies exists|jj: int| 0 <= jj < r@.len() && #[trigger] r@[jj].0 == ii by {
                let a = choose|a: int| 0 <= a < pre.len() && (#[trigger] pre[a].0 as int) == ii;
                let x = pre[a];
                assert(pre.contains(x));
                assert(sorted.contains(x));
                let jj = choose|jj: int| 0 <= jj < sorted.len() && sorted[jj] == x;
                assert((r@[jj]).0 == ii);
            }
            assert forall|j1: int, j2: int| 0 <= j1 < j2 < r@.len() implies (r@[j1].2 > r@[j2].2
                || (r@[j1].2 == r@[j2].2 && r@[j1].0 < r@[j2].0)) by {
                assert(rank_before(sorted[j1], sorted[j2]));
                assert((r@[j1]).0 == sorted[j1].0 && (r@[j1]).2 == sorted[j1].1);
                assert((r@[j2]).0 == sorted[j2].0 && (r@[j2]).2 == sorted[j2].1);
            }
        }
        r
    }
}

} // verus!
