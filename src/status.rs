//! Which torrents are candidates: those whose tracker message, compared
//! without regard to case, begins with the tracker's rejection marker.
use vstd::prelude::*;
use vstd::utf8::encode_utf8;

verus! {

/// The start of the message a tracker sends for a torrent it no longer knows.
pub const UNREGISTERED_MARKER: &'static str = "Tracker: [Failure reason \"Unregistered torrent";

/// What `str::to_lowercase` makes of a string.
pub uninterp spec fn lower_of(s: Seq<char>) -> Seq<char>;

/// Relies on str::to_lowercase: the result depends on the characters alone.
#[verifier::external_body]
fn lowercase(s: &str) -> (r: String)
    ensures
        r@ == lower_of(s@),
{
    s.to_lowercase()
}

/// Whether the already lowercased `status` begins with the already
/// lowercased `marker`, byte for byte.
pub fn marker_matches(status: &str, marker: &str) -> (r: bool)
    ensures
        r == encode_utf8(marker@).is_prefix_of(encode_utf8(status@)),
{
    let s = status.as_bytes();
    let m = marker.as_bytes();
    if m.len() > s.len() {
        return false;
    }
    let mut i: usize = 0;
    while i < m.len()
        invariant
            m@.len() <= s@.len(),
            s@ == encode_utf8(status@),
            m@ == encode_utf8(marker@),
            i <= m@.len(),
            forall|k: int| 0 <= k < i ==> m@[k] == s@[k],
        decreases m@.len() - i,
    {
        if m[i] != s[i] {
            assert(s@.subrange(0, m@.len() as int)[i as int] != m@[i as int]);
            assert(!(m@ =~= s@.subrange(0, m@.len() as int)));
            return false;
        }
        i = i + 1;
    }
    assert(m@ =~= s@.take(m@.len() as int));
    true
}

/// Whether a tracker message marks its torrent as unregistered.
pub fn is_unregistered(status: &str) -> (r: bool)
    ensures
        r == encode_utf8(lower_of(UNREGISTERED_MARKER@)).is_prefix_of(encode_utf8(lower_of(status@))),
{
    let s = lowercase(status);
    let m = lowercase(UNREGISTERED_MARKER);
    marker_matches(s.as_str(), m.as_str())
}

} // verus!
