//! The optional password generator and strength score.
//!
//! The generator draws characters uniformly from the character classes the
//! configuration enables.  The strength score is a coarse 0..=100 rating
//! over the password's UTF-8 bytes: length and byte variety add points,
//! runs of sequential or repeating bytes subtract them.  Both are
//! conveniences around the vault, not part of its security argument.

use vstd::prelude::*;
use vstd::utf8::{
    valid_utf8, encode_utf8, partial_valid_utf8, is_leading_byte_width_1,
    partial_valid_utf8_extend_ascii_block, decode_utf8_encode_utf8,
};
use rand::RngExt;
use crate::json::string_from_utf8;

verus! {

/// What the generator may use: the intended length and the enabled
/// character classes.
pub struct PasswordGeneratorConfig {
    /// Intended length of a generated password, in characters.
    pub length: usize,
    pub include_uppercase: bool,
    pub include_lowercase: bool,
    pub include_numbers: bool,
    pub include_symbols: bool,
    /// Whether to prefer memorable words over fully random characters.
    pub use_words: bool,
}

impl Default for PasswordGeneratorConfig {
    /// 16 characters from every class, fully random.
    fn default() -> (r: Self)
        ensures
            r.length == 16,
            r.include_uppercase && r.include_lowercase && r.include_numbers && r.include_symbols,
            !r.use_words,
    {
        PasswordGeneratorConfig {
            length: 16,
            include_uppercase: true,
            include_lowercase: true,
            include_numbers: true,
            include_symbols: true,
            use_words: false,
        }
    }
}

/// The generator: its configuration and the last generated password.
pub struct PasswordGenerator {
    pub generated_password: String,
    pub config: PasswordGeneratorConfig,
}

impl Default for PasswordGenerator {
    fn default() -> (r: Self)
        ensures
            r.generated_password@.len() == 0,
            r.config.length == 16,
            r.config.include_uppercase && r.config.include_lowercase && r.config.include_numbers
                && r.config.include_symbols,
            !r.config.use_words,
    {
        PasswordGenerator {
            generated_password: String::new(),
            config: PasswordGeneratorConfig::default(),
        }
    }
}

/// The uppercase letters A..=Z as bytes.
pub open spec fn upper_bytes() -> Seq<u8> {
    Seq::new(26, |i: int| (65 + i) as u8)
}

/// The lowercase letters a..=z as bytes.
pub open spec fn lower_bytes() -> Seq<u8> {
    Seq::new(26, |i: int| (97 + i) as u8)
}

/// The digits 0..=9 as bytes.
pub open spec fn digit_bytes() -> Seq<u8> {
    Seq::new(10, |i: int| (48 + i) as u8)
}

/// The punctuation characters the generator may draw from.
pub open spec fn symbol_bytes() -> Seq<u8> {
    seq![126u8, 96u8, 33u8, 64u8, 35u8, 36u8, 37u8, 94u8, 38u8, 42u8, 40u8, 41u8, 45u8, 95u8,
        61u8, 43u8, 91u8, 93u8, 123u8, 125u8, 124u8, 59u8, 58u8, 44u8, 46u8, 60u8, 62u8, 63u8]
}

/// The byte pool a configuration enables.
pub open spec fn charset_of(c: PasswordGeneratorConfig) -> Seq<u8> {
    (if c.include_uppercase {
        upper_bytes()
    } else {
        Seq::<u8>::empty()
    }) + (if c.include_lowercase {
        lower_bytes()
    } else {
        Seq::<u8>::empty()
    }) + (if c.include_numbers {
        digit_bytes()
    } else {
        Seq::<u8>::empty()
    }) + (if c.include_symbols {
        symbol_bytes()
    } else {
        Seq::<u8>::empty()
    })
}

/// Relies on rand's `Rng::random_range` on the thread-local CSPRNG: a
/// random index below the bound.  Nothing can be promised about which one.
#[verifier::external_body]
fn rand_index(bound: usize) -> (r: usize)
    requires
        bound > 0,
    ensures
        r < bound,
{
    rand::rng().random_range(0..bound)
}

#[verifier::rlimit(100)]
fn build_charset(c: &PasswordGeneratorConfig) -> (r: Vec<u8>)
    ensures
        r@ == charset_of(*c),
        forall|k: int| 0 <= k < r@.len() ==> r@[k] < 127,
{
    let mut v: Vec<u8> = Vec::new();
    if c.include_uppercase {
        let mut i: u8 = 0;
        while i < 26
            invariant
                i <= 26,
                v@.len() == i as nat,
                forall|k: int| 0 <= k < i ==> v@[k] == 65 + k,
            decreases 26 - i,
        {
            v.push(65 + i);
            i = i + 1;
        }
    }
    proof {
        if c.include_uppercase {
            assert(v@ =~= upper_bytes());
        } else {
            assert(v@ =~= Seq::<u8>::empty());
        }
    }
    let ghost part1 = v@;
    if c.include_lowercase {
        let mut i: u8 = 0;
        let base = v.len();
        while i < 26
            invariant
                i <= 26,
                v@.len() == base + i as nat,
                v@.subrange(0, base as int) == part1,
                forall|k: int| base <= k < v@.len() ==> v@[k] == 97 + (k - base),
            decreases 26 - i,
        {
            v.push(97 + i);
            proof {
                assert(v@.subrange(0, base as int) =~= part1);
            }
            i = i + 1;
        }
        proof {
            assert(v@ =~= part1 + lower_bytes());
        }
    }
    let ghost part2 = v@;
    proof {
        assert(part2 == part1 + (if c.include_lowercase {
            lower_bytes()
        } else {
            Seq::<u8>::empty()
        })) by {
            if !c.include_lowercase {
                assert(part2 =~= part1 + Seq::<u8>::empty());
            }
        }
    }
    if c.include_numbers {
        let mut i: u8 = 0;
        let base = v.len();
        while i < 10
            invariant
                i <= 10,
                v@.len() == base + i as nat,
                v@.subrange(0, base as int) == part2,
                forall|k: int| base <= k < v@.len() ==> v@[k] == 48 + (k - base),
            decreases 10 - i,
        {
            v.push(48 + i);
            proof {
                assert(v@.subrange(0, base as int) =~= part2);
            }
            i = i + 1;
        }
        proof {
            assert(v@ =~= part2 + digit_bytes());
        }
    }
    let ghost part3 = v@;
    proof {
        assert(part3 == part2 + (if c.include_numbers {
            digit_bytes()
        } else {
            Seq::<u8>::empty()
        })) by {
            if !c.include_numbers {
                assert(part3 =~= part2 + Seq::<u8>::empty());
            }
        }
    }
    if c.include_symbols {
        v.push(126);
        v.push(96);
        v.push(33);
        v.push(64);
        v.push(35);
        v.push(36);
        v.push(37);
        v.push(94);
        v.push(38);
        v.push(42);
        v.push(40);
        v.push(41);
        v.push(45);
        v.push(95);
        v.push(61);
        v.push(43);
        v.push(91);
        v.push(93);
        v.push(123);
        v.push(125);
        v.push(124);
        v.push(59);
        v.push(58);
        v.push(44);
        v.push(46);
        v.push(60);
        v.push(62);
        v.push(63);
        proof {
            assert(v@ =~= part3 + symbol_bytes());
        }
    }
    proof {
        assert(v@ == part3 + (if c.include_symbols {
            symbol_bytes()
        } else {
            Seq::<u8>::empty()
        })) by {
            if !c.include_symbols {
                assert(v@ =~= part3 + Seq::<u8>::empty());
            }
        }
        assert(v@ == charset_of(*c));
        assert forall|k: int| 0 <= k < v@.len() implies v@[k] < 127 by {
            let su: Seq<u8> = if c.include_uppercase {
                upper_bytes()
            } else {
                Seq::<u8>::empty()
            };
            let sl: Seq<u8> = if c.include_lowercase {
                lower_bytes()
            } else {
                Seq::<u8>::empty()
            };
            let sd: Seq<u8> = if c.include_numbers {
                digit_bytes()
            } else {
                Seq::<u8>::empty()
            };
            let ss: Seq<u8> = if c.include_symbols {
                symbol_bytes()
            } else {
                Seq::<u8>::empty()
            };
            assert(v@ == su + sl + sd + ss);
            if k < su.len() {
                assert(v@[k] == su[k]);
            } else if k < su.len() + sl.len() {
                assert(v@[k] == sl[k - su.len()]);
            } else if k < su.len() + sl.len() + sd.len() {
                assert(v@[k] == sd[k - su.len() - sl.len()]);
            } else {
                let j = k - su.len() - sl.len() - sd.len();
                assert(v@[k] == ss[j]);
                assert(symbol_bytes()[j] < 127);
            }
        }
    }
    v
}

impl PasswordGenerator {
    /// Generates a fresh random password of the configured length from the
    /// enabled character classes.
    ///
    /// Returns `None` exactly when no character class is enabled.  Every
    /// byte of a generated password (the characters are all ASCII) comes
    /// from the enabled pool.
    pub fn generate(&mut self) -> (r: Option<String>)
        ensures
            *final(self) == *old(self),
            r is Some <==> (old(self).config.include_uppercase
                || old(self).config.include_lowercase || old(self).config.include_numbers
                || old(self).config.include_symbols),
            r is Some ==> ({
                let bytes = encode_utf8(r.unwrap()@);
                bytes.len() == old(self).config.length && (forall|k: int|
                    0 <= k < bytes.len() ==> charset_of(old(self).config).contains(bytes[k]))
            }),
    {
        let charset = build_charset(&self.config);
        if charset.len() == 0 {
            proof {
                if self.config.include_uppercase || self.config.include_lowercase
                    || self.config.include_numbers || self.config.include_symbols {
                    assert(charset_of(self.config).len() > 0);
                }
            }
            return None;
        }
        proof {
            assert(self.config.include_uppercase || self.config.include_lowercase
                || self.config.include_numbers || self.config.include_symbols) by {
                if !self.config.include_uppercase && !self.config.include_lowercase
                    && !self.config.include_numbers && !self.config.include_symbols {
                    assert(charset_of(self.config) =~= Seq::<u8>::empty());
                }
            }
        }
        let n = self.config.length;
        let mut bytes: Vec<u8> = Vec::new();
        let mut i: usize = 0;
        while i < n
            invariant
                i <= n,
                charset@ == charset_of(self.config),
                charset@.len() > 0,
                bytes@.len() == i as nat,
                forall|k: int| 0 <= k < i ==> charset_of(self.config).contains(
                    #[trigger] bytes@[k],
                ),
                forall|k: int| 0 <= k < i ==> bytes@[k] < 127,
            decreases n - i,
        {
            let pick = rand_index(charset.len());
            let b = charset[pick];
            bytes.push(b);
            proof {
                assert(charset_of(self.config).contains(charset@[pick as int]));
            }
            i = i + 1;
        }
        let ghost bs = bytes@;
        proof {
            assert(valid_utf8(bs)) by {
                assert(partial_valid_utf8(bs, 0)) by {
                    assert(bs.subrange(0, 0) =~= Seq::<u8>::empty());
                }
                assert(forall|k: int| 0 <= k < bs.len() ==> is_leading_byte_width_1(
                    #[trigger] bs[k],
                ));
                partial_valid_utf8_extend_ascii_block(bs, 0, bs.len() as int);
                assert(bs.subrange(0, bs.len() as int) =~= bs);
            }
        }
        match string_from_utf8(bytes) {
            Some(s) => {
                proof {
                    decode_utf8_encode_utf8(bs);
                    assert(encode_utf8(s@) == bs);
                }
                Some(s)
            },
            None => {
                proof {
                    assert(false);
                }
                None
            },
        }
    }

    /// A 0..=100 strength score of a password.
    ///
    /// Computed over the password's UTF-8 bytes: points for length and for
    /// having lowercase, uppercase, digit and other bytes; deductions for
    /// a run of three sequential bytes or a repeated byte inside a window
    /// of three.  Every non-ASCII byte counts toward the "other" class.
    pub fn calc_strength(password: &str) -> (r: u8)
        ensures
            r as int == strength_of(encode_utf8(password@)),
            r <= 100,
    {
        let bytes = password.as_bytes();
        proof {
            assert(bytes@ == encode_utf8(password@));
        }
        let n = bytes.len();
        if n == 0 {
            return 0;
        }
        let mut score: u8 = if n <= 7 {
            0
        } else if n <= 11 {
            20
        } else if n <= 15 {
            30
        } else if n <= 19 {
            40
        } else {
            50
        };
        let mut has_lower = false;
        let mut has_upper = false;
        let mut has_digit = false;
        let mut has_other = false;
        let mut i: usize = 0;
        while i < n
            invariant
                n == bytes@.len(),
                i <= n,
                has_lower == (exists|k: int| 0 <= k < i && is_lower_byte(#[trigger] bytes@[k])),
                has_upper == (exists|k: int| 0 <= k < i && is_upper_byte(#[trigger] bytes@[k])),
                has_digit == (exists|k: int| 0 <= k < i && is_digit_byte(#[trigger] bytes@[k])),
                has_other == (exists|k: int| 0 <= k < i && !is_alnum_byte(#[trigger] bytes@[k])),
            decreases n - i,
        {
            let b = bytes[i];
            if 97 <= b && b <= 122 {
                has_lower = true;
            }
            if 65 <= b && b <= 90 {
                has_upper = true;
            }
            if 48 <= b && b <= 57 {
                has_digit = true;
            }
            if !((97 <= b && b <= 122) || (65 <= b && b <= 90) || (48 <= b && b <= 57)) {
                has_other = true;
            }
            i = i + 1;
        }
        if has_lower {
            score = score + 10;
        }
        if has_upper {
            score = score + 10;
        }
        if has_digit {
            score = score + 15;
        }
        if has_other {
            score = score + 15;
        }
        if Self::has_sequential_chars(password) {
            if score >= 20 {
                score = score - 20;
            } else {
                score = 0;
            }
        }
        if Self::has_repeating_chars(password) {
            if score >= 10 {
                score = score - 10;
            } else {
                score = 0;
            }
        }
        if score > 100 {
            score = 100;
        }
        score
    }

    /// Whether the password's bytes hold a run of three consecutive
    /// values, such as `abc` or `123`.
    pub fn has_sequential_chars(password: &str) -> (r: bool)
        ensures
            r == has_seq_run(encode_utf8(password@)),
    {
        let bytes = password.as_bytes();
        proof {
            assert(bytes@ == encode_utf8(password@));
        }
        let n = bytes.len();
        if n < 3 {
            proof {
                assert(forall|k: int| !seq_run_at(bytes@, k));
            }
            return false;
        }
        let mut i: usize = 0;
        while i + 2 < n
            invariant
                n == bytes@.len(),
                n <= usize::MAX,
                i + 2 <= n,
                bytes@ == encode_utf8(password@),
                forall|k: int| 0 <= k < i ==> !seq_run_at(bytes@, k),
            decreases n - i,
        {
            if bytes[i + 1] as u32 == bytes[i] as u32 + 1 && bytes[i + 2] as u32 == bytes[i
                + 1] as u32 + 1 {
                proof {
                    assert(bytes@ == encode_utf8(password@));
                    assert(seq_run_at(encode_utf8(password@), i as int));
                }
                return true;
            }
            i = i + 1;
        }
        proof {
            assert(forall|k: int| k >= i ==> !seq_run_at(bytes@, k));
        }
        false
    }

    /// Whether some window of three bytes holds two equal bytes.
    pub fn has_repeating_chars(password: &str) -> (r: bool)
        ensures
            r == has_rep(encode_utf8(password@)),
    {
        let bytes = password.as_bytes();
        proof {
            assert(bytes@ == encode_utf8(password@));
        }
        let n = bytes.len();
        if n < 3 {
            proof {
                assert(forall|k: int| !rep_at(bytes@, k));
            }
            return false;
        }
        let mut i: usize = 0;
        while i + 2 < n
            invariant
                n == bytes@.len(),
                n <= usize::MAX,
                i + 2 <= n,
                bytes@ == encode_utf8(password@),
                forall|k: int| 0 <= k < i ==> !rep_at(bytes@, k),
            decreases n - i,
        {
            if bytes[i] == bytes[i + 1] || bytes[i + 1] == bytes[i + 2] || bytes[i] == bytes[i
                + 2] {
                proof {
                    assert(bytes@ == encode_utf8(password@));
                    assert(rep_at(encode_utf8(password@), i as int));
                }
                return true;
            }
            i = i + 1;
        }
        proof {
            assert(forall|k: int| k >= i ==> !rep_at(bytes@, k));
        }
        false
    }
}

pub open spec fn is_lower_byte(b: u8) -> bool {
    97 <= b <= 122
}

pub open spec fn is_upper_byte(b: u8) -> bool {
    65 <= b <= 90
}

pub open spec fn is_digit_byte(b: u8) -> bool {
    48 <= b <= 57
}

pub open spec fn is_alnum_byte(b: u8) -> bool {
    is_lower_byte(b) || is_upper_byte(b) || is_digit_byte(b)
}

/// Three consecutive byte values start at position `k`.
pub open spec fn seq_run_at(b: Seq<u8>, k: int) -> bool {
    0 <= k && k + 2 < b.len() && b[k + 1] as int == b[k] as int + 1 && b[k + 2] as int == b[k
        + 1] as int + 1
}

pub open spec fn has_seq_run(b: Seq<u8>) -> bool {
    exists|k: int| seq_run_at(b, k)
}

/// A window of three starting at `k` holds two equal bytes.
pub open spec fn rep_at(b: Seq<u8>, k: int) -> bool {
    0 <= k && k + 2 < b.len() && (b[k] == b[k + 1] || b[k + 1] == b[k + 2] || b[k] == b[k + 2])
}

pub open spec fn has_rep(b: Seq<u8>) -> bool {
    exists|k: int| rep_at(b, k)
}

/// Points for the password's byte length.
pub open spec fn length_points(n: int) -> int {
    if n <= 7 {
        0
    } else if n <= 11 {
        20
    } else if n <= 15 {
        30
    } else if n <= 19 {
        40
    } else {
        50
    }
}

/// The full strength score of a password's bytes.
pub open spec fn strength_of(b: Seq<u8>) -> int {
    if b.len() == 0 {
        0
    } else {
        let s1 = length_points(b.len() as int) + (if (exists|k: int|
            0 <= k < b.len() && is_lower_byte(#[trigger] b[k])) {
            10int
        } else {
            0int
        }) + (if (exists|k: int| 0 <= k < b.len() && is_upper_byte(#[trigger] b[k])) {
            10int
        } else {
            0int
        }) + (if (exists|k: int| 0 <= k < b.len() && is_digit_byte(#[trigger] b[k])) {
            15int
        } else {
            0int
        }) + (if (exists|k: int| 0 <= k < b.len() && !is_alnum_byte(#[trigger] b[k])) {
            15int
        } else {
            0int
        });
        let s2 = if has_seq_run(b) {
            if s1 >= 20 {
                s1 - 20
            } else {
                0int
            }
        } else {
            s1
        };
        let s3 = if has_rep(b) {
            if s2 >= 10 {
                s2 - 10
            } else {
                0int
            }
        } else {
            s2
        };
        if s3 > 100 {
            100int
        } else {
            s3
        }
    }
}

} // verus!
