//! Where a corpus is to be fetched from, as far as its name tells.

use crate::text::chars_of;
use vstd::prelude::*;

verus! {

/// The name is a web address: it starts with `http://` or `https://`.
pub open spec fn is_remote_name(name: Seq<char>) -> bool {
    "http://"@.is_prefix_of(name) || "https://"@.is_prefix_of(name)
}

/// Whether `text` starts with `prefix`.
fn has_prefix(text: &Vec<char>, prefix: &Vec<char>) -> (b: bool)
    ensures
        b == prefix@.is_prefix_of(text@),
{
    let n: usize = prefix.len();
    if n > text.len() {
        return false;
    }
    let mut i: usize = 0;
    while i < n
        invariant
            0 <= i <= n,
            n == prefix@.len(),
            n <= text@.len(),
            forall|k: int| 0 <= k < i ==> prefix@[k] == text@[k],
        decreases n - i,
    {
        if prefix[i] != text[i] {
            return false;
        }
        i = i + 1;
    }
    true
}

/// Whether the corpus named `name` is to be fetched from the web rather
/// than read from a local file.
pub fn is_remote(name: &str) -> (b: bool)
    ensures
        b == is_remote_name(name@),
{
    let text = chars_of(name);
    let plain = chars_of("http://");
    let secure = chars_of("https://");
    has_prefix(&text, &plain) || has_prefix(&text, &secure)
}

} // verus!
