//! Turning the daemon's path strings into content roots and descriptor
//! paths: home-directory expansion, then the root's preconditions.
use vstd::prelude::*;
use vstd::utf8::encode_utf8;
use crate::path::copy_range;
use crate::plan::{Fault, check_root, root_is_valid, root_fault};

verus! {

/// Relies on shellexpand::tilde: an input that does not start with `~`, or
/// starts with `~` followed by neither nothing nor `/`, comes back unchanged;
/// otherwise the leading `~` is replaced by the home directory, or the input
/// comes back unchanged when no home directory is known.
#[verifier::external_body]
fn expand_tilde(s: &str) -> (r: String)
    ensures
        !(s@.len() > 0 && s@[0] == '~') ==> r@ == s@,
        s@.len() > 1 && s@[0] == '~' && s@[1] != '/' ==> r@ == s@,
        r@ == s@ || (r@.len() >= s@.len() - 1 && r@.subrange(r@.len() - (s@.len() - 1), r@.len() as int)
            == s@.skip(1)),
{
    shellexpand::tilde(s).into_owned()
}

/// `raw` needs no home-directory expansion.
pub open spec fn is_plain(raw: Seq<char>) -> bool {
    !(raw.len() > 0 && raw[0] == '~')
}

/// `e` is `raw` unchanged, or ends with what follows its leading `~`.
pub open spec fn expansion_of(raw: Seq<char>, e: Seq<char>) -> bool {
    e == raw || (e.len() >= raw.len() - 1 && e.subrange(e.len() - (raw.len() - 1), e.len() as int) == raw.skip(1))
}

/// The bytes of `raw` after home-directory expansion.
pub fn expand_path(raw: &str) -> (r: Vec<u8>)
    ensures
        is_plain(raw@) ==> r@ == encode_utf8(raw@),
        raw@.len() > 1 && raw@[0] == '~' && raw@[1] != '/' ==> r@ == encode_utf8(raw@),
        exists|e: Seq<char>| expansion_of(raw@, e) && r@ == encode_utf8(e),
{
    let e = expand_tilde(raw);
    let b = e.as_str().as_bytes();
    let r = copy_range(b, 0, b.len());
    assert(expansion_of(raw@, e@) && r@ == encode_utf8(e@));
    r
}

/// The content root named by `raw`, expanded and checked.
pub fn content_root(raw: &str) -> (r: Result<Vec<u8>, Fault>)
    ensures
        r matches Ok(p) ==> root_is_valid(p@) && exists|e: Seq<char>| expansion_of(raw@, e) && p@ == encode_utf8(e),
        is_plain(raw@) ==> (r is Ok <==> root_is_valid(encode_utf8(raw@))),
        is_plain(raw@) && r is Ok ==> r->Ok_0@ == encode_utf8(raw@),
        is_plain(raw@) && r is Err ==> r == Err::<Vec<u8>, Fault>(root_fault(encode_utf8(raw@))),
{
    let p = expand_path(raw);
    match check_root(p.as_slice()) {
        Ok(()) => Ok(p),
        Err(f) => Err(f),
    }
}

} // verus!
