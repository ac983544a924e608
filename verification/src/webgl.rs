//! Whether a WebGL context can take S3TC (DXT) compressed textures.

use crate::text::{contains, has_substring};
use vstd::prelude::*;

verus! {

/// Whether an extension's name marks S3TC compressed-texture support.
pub open spec fn names_s3tc(ext: Seq<char>) -> bool {
    has_substring(ext, "compressed_texture_s3tc"@) || has_substring(
        ext,
        "WEBGL_compressed_texture_s3tc"@,
    )
}

/// Whether an entry of the extension list is a string that marks S3TC support.
pub open spec fn entry_names_s3tc(entry: Option<String>) -> bool {
    entry matches Some(name) && names_s3tc(name@)
}

/// Whether an extension list (`None` when the context lists none) holds a
/// string that marks S3TC support.
pub open spec fn lists_s3tc(extensions: Option<Vec<Option<String>>>) -> bool {
    match extensions {
        Some(list) => any_names_s3tc(list@),
        None => false,
    }
}

/// Whether some entry of `list` is a string that marks S3TC support.
pub open spec fn any_names_s3tc(list: Seq<Option<String>>) -> bool {
    exists|i: int| 0 <= i < list.len() && #[trigger] entry_names_s3tc(list[i])
}

/// Whether the supported extensions that a WebGL context lists (`None` when
/// it lists none; `None` for an entry that is not a string) include S3TC
/// compressed textures.
pub fn check_compressed_texture_support(extensions: &Option<Vec<Option<String>>>) -> (b: bool)
    ensures
        b == lists_s3tc(*extensions),
{
    match extensions {
        None => false,
        Some(list) => {
            let n: usize = list.len();
            let mut i: usize = 0;
            while i < n
                invariant
                    n == list@.len(),
                    *extensions == Some(*list),
                    i <= n,
                    forall|j: int| 0 <= j < i ==> !entry_names_s3tc(#[trigger] list@[j]),
                decreases n - i,
            {
                match &list[i] {
                    Some(name) => {
                        if contains(name.as_str(), "compressed_texture_s3tc") || contains(
                            name.as_str(),
                            "WEBGL_compressed_texture_s3tc",
                        ) {
                            let ghost whole: Vec<Option<String>> = *list;
                            assert(entry_names_s3tc(whole@[i as int]));
                            return true;
                        }
                    },
                    None => {},
                }
                i = i + 1;
            }
            false
        },
    }
}


/// A list supports S3TC as soon as one string entry, at any position, names
/// `compressed_texture_s3tc`.
pub proof fn lemma_any_entry_marks_support(list: Seq<Option<String>>, i: int)
    requires
        0 <= i < list.len(),
        list[i] matches Some(name) && has_substring(name@, "compressed_texture_s3tc"@),
    ensures
        any_names_s3tc(list),
{
    assert(entry_names_s3tc(list[i]));
}

/// Without a string entry that names `compressed_texture_s3tc` (or
/// `WEBGL_compressed_texture_s3tc`), a list does not support S3TC.
pub proof fn lemma_no_marking_entry_no_support(list: Seq<Option<String>>)
    requires
        forall|i: int|
            0 <= i < list.len() ==> (#[trigger] list[i] matches Some(name) ==> !has_substring(
                name@,
                "compressed_texture_s3tc"@,
            ) && !has_substring(name@, "WEBGL_compressed_texture_s3tc"@)),
    ensures
        !any_names_s3tc(list),
{
    assert forall|i: int| 0 <= i < list.len() implies !#[trigger] entry_names_s3tc(list[i]) by {
        if let Some(name) = list[i] {
            assert(!names_s3tc(name@));
        }
    }
}

/// Support is found in a joined list exactly where it is found in either
/// part, so appending entries never loses it and the order of the parts
/// does not matter.
pub proof fn lemma_support_of_joined_lists(a: Seq<Option<String>>, b: Seq<Option<String>>)
    ensures
        any_names_s3tc(a + b) == (any_names_s3tc(a) || any_names_s3tc(b)),
        any_names_s3tc(a + b) == any_names_s3tc(b + a),
{
    let ab = a + b;
    let ba = b + a;
    if any_names_s3tc(a) {
        let i = choose|i: int| 0 <= i < a.len() && #[trigger] entry_names_s3tc(a[i]);
        assert(ab[i] == a[i]);
        assert(entry_names_s3tc(ab[i]));
        assert(ba[b.len() + i] == a[i]);
        assert(entry_names_s3tc(ba[b.len() + i]));
    }
    if any_names_s3tc(b) {
        let i = choose|i: int| 0 <= i < b.len() && #[trigger] entry_names_s3tc(b[i]);
        assert(ab[a.len() + i] == b[i]);
        assert(entry_names_s3tc(ab[a.len() + i]));
        assert(ba[i] == b[i]);
        assert(entry_names_s3tc(ba[i]));
    }
    if any_names_s3tc(ab) {
        let i = choose|i: int| 0 <= i < ab.len() && #[trigger] entry_names_s3tc(ab[i]);
        if i < a.len() {
            assert(entry_names_s3tc(a[i]));
        } else {
            assert(ab[i] == b[i - a.len()]);
            assert(entry_names_s3tc(b[i - a.len()]));
        }
    }
    if any_names_s3tc(ba) {
        let i = choose|i: int| 0 <= i < ba.len() && #[trigger] entry_names_s3tc(ba[i]);
        if i < b.len() {
            assert(entry_names_s3tc(b[i]));
        } else {
            assert(ba[i] == a[i - b.len()]);
            assert(entry_names_s3tc(a[i - b.len()]));
        }
    }
}

} // verus!
