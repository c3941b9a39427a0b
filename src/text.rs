//! Small facts about string text used across the crate.

use vstd::prelude::*;
use vstd::string::*;
use vstd::utf8::*;

verus! {

broadcast use group_utf8_lib;

/// Compares two strings character for character.
pub fn same_text(a: &str, b: &str) -> (r: bool)
    ensures
        r == (a@ == b@),
{
    let x = a.as_bytes();
    let y = b.as_bytes();
    if x.len() != y.len() {
        return false;
    }
    let mut i: usize = 0;
    while i < x.len()
        invariant
            x@ == a.spec_bytes(),
            y@ == b.spec_bytes(),
            x@.len() == y@.len(),
            i <= x@.len(),
            forall|k: int| 0 <= k < i ==> x@[k] == y@[k],
        decreases x@.len() - i,
    {
        if x[i] != y[i] {
            return false;
        }
        i = i + 1;
    }
    proof {
        assert(x@ =~= y@);
        assert(decode_utf8(encode_utf8(a@)) == a@);
        assert(decode_utf8(encode_utf8(b@)) == b@);
    }
    true
}

/// Whether the name starts with `._` (an AppleDouble companion) or is
/// exactly `.DS_Store`.
pub open spec fn junk_name(n: Seq<char>) -> bool {
    ||| (n.len() >= 2 && n[0] == '.' && n[1] == '_')
    ||| n == seq!['.', 'D', 'S', '_', 'S', 't', 'o', 'r', 'e']
}

/// Whether a file name is one of the common junk files that a search skips;
/// a path without a (UTF-8) file name is never junk.
pub fn is_junk_file(file_name: Option<&str>) -> (r: bool)
    ensures
        r == match file_name {
            Some(n) => junk_name(n@),
            None => false,
        },
{
    match file_name {
        Some(name) => {
            if name.unicode_len() >= 2 && name.get_char(0) == '.' && name.get_char(1) == '_' {
                return true;
            }
            proof {
                reveal_strlit(".DS_Store");
            }
            let r = same_text(name, ".DS_Store");
            assert(".DS_Store"@ =~= seq!['.', 'D', 'S', '_', 'S', 't', 'o', 'r', 'e']);
            r
        },
        None => false,
    }
}

} // verus!
