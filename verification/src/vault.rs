//! The pure parts of the storage-area helpers.
//!
//! Loading, saving, listing and deleting vault files is I/O and lives with
//! the caller; what belongs here is the logic those helpers share: which
//! directory entries count as vault files, and the built-in help text.

use vstd::prelude::*;
use vstd::string::StringExecFns;
use vstd::utf8::encode_utf8;

verus! {

/// The built-in help text, as markdown.
pub open spec fn spec_help_text() -> Seq<char> {
    "# PixelVault\n\nA small local credential manager.\n\n## Vaults\n\nEach vault is one file. Its records are sealed as a whole under a key derived from your master password (Argon2id) with AES-256-GCM; the master password itself is never stored, and without it a vault cannot be opened.\n\n## Use\n\n- Create a vault, choose a master password, and unlock it.\n- Add, search and delete service/username/password records.\n- Every change re-seals and rewrites the whole vault with a fresh salt and nonce.\n\n## Caution\n\nIf the master password is lost, the vault cannot be recovered.\n"@
}

/// Returns the built-in help text.
pub fn get_readme() -> (r: String)
    ensures
        r@ == spec_help_text(),
{
    String::from_str(
        "# PixelVault\n\nA small local credential manager.\n\n## Vaults\n\nEach vault is one file. Its records are sealed as a whole under a key derived from your master password (Argon2id) with AES-256-GCM; the master password itself is never stored, and without it a vault cannot be opened.\n\n## Use\n\n- Create a vault, choose a master password, and unlock it.\n- Add, search and delete service/username/password records.\n- Every change re-seals and rewrites the whole vault with a fresh salt and nonce.\n\n## Caution\n\nIf the master password is lost, the vault cannot be recovered.\n",
    )
}

/// A path names a vault file: its UTF-8 bytes end in `.json`.
pub open spec fn is_vault_file_name(b: Seq<u8>) -> bool {
    b.len() >= 5 && b.subrange(b.len() - 5, b.len() as int) == seq![
        46u8,
        106u8,
        115u8,
        111u8,
        110u8,
    ]
}

/// Does this path name a vault file?
pub fn is_vault_path(name: &str) -> (r: bool)
    ensures
        r == is_vault_file_name(encode_utf8(name@)),
{
    let bytes = name.as_bytes();
    proof {
        assert(bytes@ == encode_utf8(name@));
    }
    let n = bytes.len();
    if n < 5 {
        return false;
    }
    let suffix_ok = bytes[n - 5] == 46 && bytes[n - 4] == 106 && bytes[n - 3] == 115 && bytes[n
        - 2] == 111 && bytes[n - 1] == 110;
    proof {
        let tail = bytes@.subrange(n - 5, n as int);
        if suffix_ok {
            assert(tail =~= seq![46u8, 106u8, 115u8, 111u8, 110u8]);
        } else {
            assert(tail != seq![46u8, 106u8, 115u8, 111u8, 110u8]) by {
                if tail == seq![46u8, 106u8, 115u8, 111u8, 110u8] {
                    assert(tail[0] == 46 && tail[1] == 106 && tail[2] == 115 && tail[3] == 111
                        && tail[4] == 110);
                }
            }
        }
    }
    suffix_ok
}

/// Keeps exactly the paths that name vault files, in their given order.
///
/// This is the discovery rule of the storage area; enumerating the
/// directory itself is the caller's I/O.  Over an empty listing it returns
/// an empty listing and never fails.
pub fn filter_vault_paths(names: &Vec<String>) -> (r: Vec<String>)
    ensures
        r@.map_values(|s: String| s@) == names@.map_values(|s: String| s@).filter(
            |s: Seq<char>| is_vault_file_name(encode_utf8(s)),
        ),
{
    let mut r: Vec<String> = Vec::new();
    let n = names.len();
    let mut i: usize = 0;
    proof {
        assert(names@.map_values(|s: String| s@).subrange(0, 0) =~= Seq::<Seq<char>>::empty());
        assert(r@.map_values(|s: String| s@) =~= Seq::<Seq<char>>::empty().filter(
            |s: Seq<char>| is_vault_file_name(encode_utf8(s)),
        ));
    }
    while i < n
        invariant
            n == names@.len(),
            i <= n,
            r@.map_values(|s: String| s@) == names@.map_values(|s: String| s@).subrange(
                0,
                i as int,
            ).filter(|s: Seq<char>| is_vault_file_name(encode_utf8(s))),
        decreases n - i,
    {
        let ghost vs = names@.map_values(|s: String| s@);
        let ghost pre = vs.subrange(0, i as int);
        let keep = is_vault_path(names[i].as_str());
        if keep {
            let ghost r0 = r@;
            r.push(names[i].clone());
            proof {
                assert(r@.map_values(|s: String| s@) =~= r0.map_values(|s: String| s@).push(
                    names@[i as int]@,
                ));
            }
        }
        proof {
            let f = |s: Seq<char>| is_vault_file_name(encode_utf8(s));
            assert(vs.subrange(0, i + 1) =~= pre.push(vs[i as int]));
            assert(pre.push(vs[i as int]).drop_last() =~= pre);
            assert(pre.push(vs[i as int]).last() == vs[i as int]);
            reveal_with_fuel(Seq::filter, 2);
            assert(pre.push(vs[i as int]).filter(f) == if f(vs[i as int]) {
                pre.filter(f).push(vs[i as int])
            } else {
                pre.filter(f)
            });
            assert(vs[i as int] == names@[i as int]@);
        }
        i = i + 1;
    }
    proof {
        assert(names@.map_values(|s: String| s@).subrange(0, n as int) =~= names@.map_values(
            |s: String| s@,
        ));
    }
    r
}

} // verus!
