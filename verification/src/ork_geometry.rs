//! The key a design is filed under in RocketSerializer's record.
use vstd::prelude::*;

use crate::text::{chars_of, last_index_of, last_of, string_of, trim_start_char, trim_start_char_slice};

verus! {

/// `s` with each `\` made a `/`.
pub open spec fn slashed(s: Seq<char>) -> Seq<char> {
    s.map_values(|c: char| if c == '\\' { '/' } else { c })
}

/// The key a design is filed under: its path with `/` for `\`, or, for an entry of the jar, what
/// follows the last `!` without leading `/`.
pub open spec fn key_spec(name: Seq<char>) -> Seq<char> {
    let n = slashed(name);
    match last_of(n, '!') {
        Some(i) => trim_start_char(n.skip(i + 1), '/'),
        None => n,
    }
}

/// The key a design is filed under: its path from the repository root, or its entry in the jar.
pub fn key(name: &str) -> (k: String)
    ensures
        k@ == key_spec(name@),
{
    let chars = chars_of(name);
    let mut n: Vec<char> = Vec::new();
    let mut i: usize = 0;
    while i < chars.len()
        invariant
            0 <= i <= chars.len(),
            n@ == slashed(chars@).take(i as int),
        decreases chars.len() - i,
    {
        n.push(if chars[i] == '\\' { '/' } else { chars[i] });
        assert(slashed(chars@).take(i + 1) =~= n@);
        i += 1;
    }
    assert(slashed(chars@).take(chars.len() as int) =~= slashed(chars@));
    match last_index_of(n.as_slice(), '!') {
        Some(at) => {
            let entry = &n.as_slice()[at + 1..n.len()];
            assert(entry@ =~= n@.skip(at + 1));
            string_of(trim_start_char_slice(entry, '/'))
        },
        None => string_of(n.as_slice()),
    }
}

} // verus!
