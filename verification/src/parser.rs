//! The proxy descriptor parser.
//!
//! A descriptor `proxyUser:targetUser@targetHost` is split on the delimiter
//! set `{':', '@'}` and must yield exactly three non-empty tokens, in that
//! order.  No further validation is applied to the tokens.

use vstd::prelude::*;
use crate::Error;
use crate::text::{free_of2, lemma_split_concat, lemma_split_free, split_at_delims, split_two};

verus! {

/// The tokens of a descriptor: its pieces between occurrences of ':' and '@'.
pub open spec fn descriptor_tokens(s: Seq<char>) -> Seq<Seq<char>> {
    split_at_delims(s, ':', '@')
}

/// A descriptor is well-formed when it has exactly three non-empty tokens.
pub open spec fn descriptor_ok(s: Seq<char>) -> bool {
    let t = descriptor_tokens(s);
    t.len() == 3 && t[0].len() > 0 && t[1].len() > 0 && t[2].len() > 0
}

/// Splits a descriptor into `(proxy_user, target_user, target_host)`.
///
/// Succeeds exactly on well-formed descriptors and returns their three
/// tokens; any other string is rejected as malformed, carried back in the
/// error.
pub fn parse_proxy_string(s: &str) -> (r: Result<(String, String, String), Error>)
    ensures
        match r {
            Ok(t) => descriptor_ok(s@) && t.0@ == descriptor_tokens(s@)[0] && t.1@
                == descriptor_tokens(s@)[1] && t.2@ == descriptor_tokens(s@)[2],
            Err(Error::MalformedDescriptor(b)) => !descriptor_ok(s@) && b@ == s@,
            Err(_) => false,
        },
{
    let parts = split_two(s, ':', '@');
    if parts.len() != 3 {
        return Err(Error::MalformedDescriptor(String::from_str(s)));
    }
    if parts[0].as_str().unicode_len() == 0 || parts[1].as_str().unicode_len() == 0
        || parts[2].as_str().unicode_len() == 0 {
        return Err(Error::MalformedDescriptor(String::from_str(s)));
    }
    let p = parts[0].clone();
    let q = parts[1].clone();
    let h = parts[2].clone();
    Ok((p, q, h))
}

/// Completeness of the descriptor grammar: for any non-empty,
/// delimiter-free `p`, `q` and `h`, the descriptor `p:q@h` tokenizes to
/// exactly `(p, q, h)` and is well-formed.
pub proof fn lemma_descriptor_complete(p: Seq<char>, q: Seq<char>, h: Seq<char>)
    requires
        p.len() > 0,
        q.len() > 0,
        h.len() > 0,
        free_of2(p, ':', '@'),
        free_of2(q, ':', '@'),
        free_of2(h, ':', '@'),
    ensures
        descriptor_tokens(p + seq![':'] + q + seq!['@'] + h) == seq![p, q, h],
        descriptor_ok(p + seq![':'] + q + seq!['@'] + h),
{
    let s = p + seq![':'] + q + seq!['@'] + h;
    let rest = q + seq!['@'] + h;
    assert(s =~= p + seq![':'] + rest);
    lemma_split_concat(p, ':', rest, ':', '@');
    lemma_split_concat(q, '@', h, ':', '@');
    lemma_split_free(h, ':', '@');
    assert(descriptor_tokens(s) =~= seq![p, q, h]);
    assert(descriptor_tokens(s)[0] == p);
    assert(descriptor_tokens(s)[1] == q);
    assert(descriptor_tokens(s)[2] == h);
}

} // verus!
