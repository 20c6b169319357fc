//! Telling file paths from plain names.
use vstd::prelude::*;

verus! {

/// True when the text holds a path separator, `/` or `\`.
pub fn check_if_a_path(string: &str) -> (r: bool)
    ensures
        r == exists|i: int| 0 <= i < string@.len() && (#[trigger] string@[i] == '/' || string@[i] == '\\'),
{
    let n = string.unicode_len();
    let mut i: usize = 0;
    while i < n
        invariant
            n == string@.len(),
            i <= n,
            forall|j: int| 0 <= j < i ==> #[trigger] string@[j] != '/' && string@[j] != '\\',
        decreases n - i,
    {
        let c = string.get_char(i);
        if c == '/' || c == '\\' {
            return true;
        }
        i = i + 1;
    }
    false
}

} // verus!
