use vstd::prelude::*;

verus! {

/// Position of `c` in the RFC 4648 base32 alphabet `A`-`Z`, `2`-`7`, if it belongs to it.
pub open spec fn alphabet_pos(c: char) -> Option<nat> {
    if 'A' <= c && c <= 'Z' {
        Some((c as nat - 'A' as nat) as nat)
    } else if '2' <= c && c <= '7' {
        Some((c as nat - '2' as nat + 26) as nat)
    } else {
        None
    }
}

/// Looks up `c` in the base32 alphabet.
pub fn alphabet_index(c: char) -> (r: Option<u8>)
    ensures
        match alphabet_pos(c) {
            Some(p) => r == Some(p as u8),
            None => r is None,
        },
{
    if 'A' <= c && c <= 'Z' {
        Some((c as u32 - 'A' as u32) as u8)
    } else if '2' <= c && c <= '7' {
        Some((c as u32 - '2' as u32 + 26) as u8)
    } else {
        None
    }
}

} // verus!
