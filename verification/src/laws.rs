use vstd::prelude::*;

use crate::frames::frames_of;
use crate::reader::DecryptedReader;
use crate::writer::EncryptedWriter;

verus! {

/// Round trip: feed everything an `EncryptedWriter` has flushed into a
/// `DecryptedReader` built over the same kind and pre-shared key; once the
/// reader has consumed the whole stream and stands at the closing frame
/// boundary, what it delivered is exactly the concatenation of the plaintext
/// chunks the writer accepted, in order, and it took two cipher operations
/// per frame on each side.
pub proof fn lemma_round_trip(w: EncryptedWriter, r: DecryptedReader)
    requires
        w.wf(),
        r.wf(),
        w.is_idle(),
        w.accepted().len() > 0,
        2 * w.accepted().len() + 2 <= u64::MAX,
        r.spec_kind() == w.kind(),
        r.spec_key() == w.key(),
        r.spec_handshaked(),
        r.at_frame_boundary(),
        r.consumed() == w.flushed(),
    ensures
        r.delivered() == w.accepted().flatten(),
        r.seg_count() == 2 * w.accepted().len(),
        r.spec_salt() == Some(w.spec_salt()),
{
    w.lemma_flushed_shape();
    r.lemma_salt_observation();
    let salt_len = w.kind().spec_salt_len() as int;
    assert(r.consumed().take(salt_len) =~= w.spec_salt());
    assert(r.sk() == w.sk());
    r.lemma_reader_decodes(w.accepted());
}

/// Salt exposure: whenever a reader that has consumed a prefix of some
/// writer's output completes its handshake, the salt it observes is the very
/// salt the writer emitted as the literal first bytes of the stream.
pub proof fn lemma_salt_exposure(w: EncryptedWriter, r: DecryptedReader)
    requires
        w.wf(),
        r.wf(),
        r.spec_handshaked(),
        r.spec_kind() == w.kind(),
        r.consumed().is_prefix_of(w.flushed()),
    ensures
        r.spec_salt() == Some(w.spec_salt()),
{
    w.lemma_flushed_prefix();
    r.lemma_salt_observation();
    let whole = w.spec_salt() + frames_of(w.kind(), w.sk(), 0, w.accepted());
    let salt_len = w.kind().spec_salt_len() as int;
    assert(r.consumed().len() >= salt_len);
    assert(r.consumed().take(salt_len) =~= whole.take(salt_len));
    assert(whole.take(salt_len) =~= w.spec_salt());
}

} // verus!
