use vstd::prelude::*;

use crate::crypto::{Cipher, CipherKind};
use crate::errors::{IoErrorKind, ProtocolError};
use crate::frames::{frame_facts, frame_of, frames_of, len_bytes, lemma_frames_push, seal_facts};
use crate::transport::{copy_bytes, Poll, SinkBuf};

verus! {

/// Send state: either the buffer holds at most the one-shot salt prefix and
/// the next call assembles a frame, or an assembled packet is being drained.
#[derive(Clone, Copy)]
pub enum EncryptWriteState {
    AssemblePacket,
    Writing { pos: usize },
}

/// Writer wrapper that encrypts data automatically: plaintext in, framed and
/// authenticated ciphertext out.
pub struct EncryptedWriter {
    cipher: Cipher,
    buffer: Vec<u8>,
    state: EncryptWriteState,
    salt: Vec<u8>,
    accepted: Ghost<Seq<Seq<u8>>>,
    flushed: Ghost<Seq<u8>>,
}

impl EncryptedWriter {
    pub closed spec fn kind(self) -> CipherKind {
        self.cipher.kind()
    }

    /// The subkey this writer's cipher seals with.
    pub closed spec fn sk(self) -> Seq<u8> {
        self.cipher.sk()
    }

    /// The pre-shared key the cipher was derived from.
    pub closed spec fn key(self) -> Seq<u8> {
        self.cipher.key()
    }

    /// The salt sent ahead of the first frame.
    pub closed spec fn spec_salt(self) -> Seq<u8> {
        self.salt@
    }

    /// The plaintext chunks accepted so far, one per assembled frame.
    pub closed spec fn accepted(self) -> Seq<Seq<u8>> {
        self.accepted@
    }

    /// Every byte the transport has accepted from this writer.
    pub closed spec fn flushed(self) -> Seq<u8> {
        self.flushed@
    }

    /// The cipher's nonce counter.
    pub closed spec fn spec_nonce(self) -> u64 {
        self.cipher.nonce_ctr()
    }

    /// Whether the writer is between packets rather than mid-drain.
    pub closed spec fn is_idle(self) -> bool {
        self.state is AssemblePacket
    }

    spec fn pos_eff(self) -> int {
        match self.state {
            EncryptWriteState::AssemblePacket => 0,
            EncryptWriteState::Writing { pos } => pos as int,
        }
    }

    /// Bytes assembled but not yet accepted by the transport.
    pub closed spec fn pending_wire(self) -> Seq<u8> {
        self.buffer@.skip(self.pos_eff())
    }

    pub closed spec fn wf(self) -> bool {
        &&& self.cipher.wf()
        &&& self.cipher.salt() == self.salt@
        &&& self.salt@.len() == self.kind().spec_salt_len()
        &&& self.cipher.nonce_ctr() == 2 * self.accepted@.len()
        &&& self.buffer@.len() <= 0x4041
        &&& seal_facts(self.kind(), self.sk(), 0, self.accepted@)
        &&& self.flushed@ + self.buffer@.skip(self.pos_eff()) == self.salt@ + frames_of(
            self.kind(),
            self.sk(),
            0,
            self.accepted@,
        )
        &&& match self.state {
            EncryptWriteState::AssemblePacket => {
                if self.accepted@.len() == 0 {
                    self.buffer@ == self.salt@ && self.flushed@ == Seq::<u8>::empty()
                } else {
                    self.buffer@.len() == 0
                }
            },
            EncryptWriteState::Writing { pos } => pos <= self.buffer@.len()
                && self.accepted@.len() > 0,
        }
    }

    /// Creates a writer for `(kind, key)` whose cipher is keyed with the
    /// freshly generated `nonce` (the salt); the salt bytes are queued as the
    /// literal first bytes handed to the transport.
    pub fn new(kind: CipherKind, key: &[u8], nonce: &[u8]) -> (r: EncryptedWriter)
        requires
            nonce@.len() == kind.spec_salt_len(),
        ensures
            r.wf(),
            r.kind() == kind,
            r.key() == key@,
            r.sk() == crate::crypto::subkey_of(kind, key@, nonce@),
            r.spec_salt() == nonce@,
            r.accepted() == Seq::<Seq<u8>>::empty(),
            r.flushed() == Seq::<u8>::empty(),
            r.spec_nonce() == 0,
            r.is_idle(),
    {
        let buffer = copy_bytes(nonce);
        let salt = copy_bytes(nonce);
        let r = EncryptedWriter {
            cipher: Cipher::new(kind, key, nonce),
            buffer,
            state: EncryptWriteState::AssemblePacket,
            salt,
            accepted: Ghost(Seq::empty()),
            flushed: Ghost(Seq::empty()),
        };
        proof {
            assert(r.flushed@ + r.buffer@.skip(0) =~= r.salt@ + frames_of(
                kind,
                r.cipher.sk(),
                0,
                r.accepted@,
            ));
        }
        r
    }

    /// What a fully drained writer has put on the wire: the salt, then every
    /// accepted chunk sealed as one frame, with two counters per frame.
    pub proof fn lemma_flushed_shape(self)
        requires
            self.wf(),
            self.is_idle(),
            self.accepted().len() > 0,
        ensures
            self.flushed() == self.spec_salt() + frames_of(
                self.kind(),
                self.sk(),
                0,
                self.accepted(),
            ),
            seal_facts(self.kind(), self.sk(), 0, self.accepted()),
            self.spec_salt().len() == self.kind().spec_salt_len(),
            self.sk() == crate::crypto::subkey_of(self.kind(), self.key(), self.spec_salt()),
            2 * self.accepted().len() <= u64::MAX,
    {
        self.cipher.lemma_subkey();
        assert(self.buffer@.skip(0) =~= self.buffer@);
        assert(self.flushed() =~= self.spec_salt() + frames_of(
            self.kind(),
            self.sk(),
            0,
            self.accepted(),
        ));
    }

    /// Whatever the drain state, the bytes flushed so far are a prefix of
    /// the salt followed by the accepted chunks' frames.
    pub proof fn lemma_flushed_prefix(self)
        requires
            self.wf(),
        ensures
            self.flushed().is_prefix_of(
                self.spec_salt() + frames_of(self.kind(), self.sk(), 0, self.accepted()),
            ),
            self.spec_salt().len() == self.kind().spec_salt_len(),
            self.sk() == crate::crypto::subkey_of(self.kind(), self.key(), self.spec_salt()),
    {
        self.cipher.lemma_subkey();
        let whole = self.spec_salt() + frames_of(self.kind(), self.sk(), 0, self.accepted());
        assert(self.flushed() + self.buffer@.skip(self.pos_eff()) == whole);
        assert(self.flushed() =~= whole.take(self.flushed().len() as int));
    }

    /// The salt (nonce) this writer sends ahead of its first frame.
    pub fn salt(&self) -> (r: &[u8])
        ensures
            r@ == self.spec_salt(),
    {
        self.salt.as_slice()
    }

    /// Accepts at most `MAX_PACKET_SIZE` bytes of `buf`, seals them as one
    /// frame (length field first, payload second, consecutive nonces), and
    /// drains the packet to the transport. Resuming after a partial write
    /// drains the previously assembled packet without sealing anything again.
    /// Returns the count of plaintext bytes accepted.
    pub fn poll_write_encrypted(&mut self, sink: &mut SinkBuf, buf: &[u8]) -> (r: Poll<
        Result<usize, ProtocolError>,
    >)
        requires
            old(self).wf(),
            2 * old(self).accepted().len() + 2 <= u64::MAX,
            old(sink).sent().len() + 0x8100 <= usize::MAX,
        ensures
            final(self).wf(),
            final(sink).spec_closed() == old(sink).spec_closed(),
            final(self).kind() == old(self).kind(),
            final(self).key() == old(self).key(),
            final(self).sk() == old(self).sk(),
            final(self).spec_salt() == old(self).spec_salt(),
            old(self).flushed().is_prefix_of(final(self).flushed()),
            final(sink).sent() == old(sink).sent() + final(self).flushed().skip(
                old(self).flushed().len() as int,
            ),
            final(sink).spec_budget() == old(sink).spec_budget() - (final(self).flushed().len()
                - old(self).flushed().len()),
            final(self).flushed() + final(self).pending_wire() == final(self).spec_salt()
                + frames_of(final(self).kind(), final(self).sk(), 0, final(self).accepted()),
            seal_facts(final(self).kind(), final(self).sk(), 0, final(self).accepted()),
            old(sink).spec_closed() && (old(self).is_idle() || old(self).pending_wire().len() > 0)
                ==> (r matches Poll::Ready(Err(efail)) && efail == ProtocolError::IoError(
                IoErrorKind::UnexpectedEof,
            )),
            old(self).is_idle() ==> final(self).accepted() == old(self).accepted().push(
                buf@.take(
                    if buf@.len() > crate::MAX_PACKET_SIZE {
                        crate::MAX_PACKET_SIZE as int
                    } else {
                        buf@.len() as int
                    },
                ),
            ) && final(self).spec_nonce() == old(self).spec_nonce() + 2,
            !old(self).is_idle() ==> final(self).accepted() == old(self).accepted()
                && final(self).spec_nonce() == old(self).spec_nonce(),
            match r {
                Poll::Ready(res) => match res {
                    Ok(n) => {
                        &&& n == (if buf@.len() > crate::MAX_PACKET_SIZE {
                            crate::MAX_PACKET_SIZE as int
                        } else {
                            buf@.len() as int
                        })
                        &&& final(self).is_idle()
                        &&& final(self).pending_wire().len() == 0
                        &&& final(self).flushed() == final(self).spec_salt() + frames_of(
                            final(self).kind(),
                            final(self).sk(),
                            0,
                            final(self).accepted(),
                        )
                        &&& seal_facts(
                            final(self).kind(),
                            final(self).sk(),
                            0,
                            final(self).accepted(),
                        )
                    },
                    Err(e) => {
                        &&& e == ProtocolError::IoError(IoErrorKind::UnexpectedEof)
                        &&& old(sink).spec_closed()
                    },
                },
                Poll::Pending => {
                    &&& final(sink).spec_budget() == 0
                    &&& !old(sink).spec_closed()
                    &&& final(self).pending_wire().len() > 0
                },
            },
    {
        let max = crate::MAX_PACKET_SIZE;
        let consumed = if buf.len() > max {
            max
        } else {
            buf.len()
        };
        let ghost entry_accepted = self.accepted@;
        let ghost entry_flushed = self.flushed@;

        if let EncryptWriteState::AssemblePacket = self.state {
            // Step 1: seal the two-byte big-endian length field.
            let mut lb: Vec<u8> = Vec::new();
            lb.push((consumed / 256) as u8);
            lb.push((consumed % 256) as u8);
            proof {
                assert(lb@ =~= len_bytes(consumed as nat));
            }
            let mut lseg = self.cipher.encrypt(lb.as_slice());
            self.buffer.append(&mut lseg);

            // Step 2: seal the payload with the next nonce.
            let mut pt: Vec<u8> = Vec::new();
            let mut i: usize = 0;
            while i < consumed
                invariant
                    i <= consumed,
                    consumed <= buf@.len(),
                    pt@ == buf@.take(i as int),
                decreases consumed - i,
            {
                pt.push(buf[i]);
                i = i + 1;
                proof {
                    assert(buf@.take(i as int) =~= buf@.take(i - 1) + seq![buf@[i - 1]]);
                }
            }
            let mut dseg = self.cipher.encrypt(pt.as_slice());
            self.buffer.append(&mut dseg);

            self.state = EncryptWriteState::Writing { pos: 0 };
            self.accepted = Ghost(entry_accepted.push(pt@));
            proof {
                lemma_frames_push(self.kind(), self.sk(), 0, entry_accepted, pt@);
                assert forall|j: int| 0 <= j < self.accepted@.len() implies frame_facts(
                    self.kind(),
                    self.sk(),
                    ((2 * j) as u64),
                    #[trigger] self.accepted@[j],
                ) by {
                    if j < entry_accepted.len() {
                        assert(frame_facts(
                            self.kind(),
                            self.sk(),
                            ((2 * j) as u64),
                            entry_accepted[j],
                        ));
                    }
                }
                assert(self.flushed@ + self.buffer@.skip(0) =~= self.salt@ + frames_of(
                    self.kind(),
                    self.sk(),
                    0,
                    self.accepted@,
                ));
                assert(self.wf());
            }
        }

        let mut pos: usize = match self.state {
            EncryptWriteState::Writing { pos } => pos,
            EncryptWriteState::AssemblePacket => 0,
        };
        proof {
            assert(sink.sent() =~= old(sink).sent() + self.flushed@.skip(
                entry_flushed.len() as int,
            ));
        }

        while pos < self.buffer.len()
            invariant
                self.wf(),
                old(self).wf(),
                2 * old(self).accepted().len() + 2 <= u64::MAX,
                self.state == (EncryptWriteState::Writing { pos }),
                old(self).is_idle() ==> self.accepted@ == old(self).accepted().push(
                    buf@.take(
                        if buf@.len() > crate::MAX_PACKET_SIZE {
                            crate::MAX_PACKET_SIZE as int
                        } else {
                            buf@.len() as int
                        },
                    ),
                ),
                !old(self).is_idle() ==> self.accepted@ == old(self).accepted(),
                consumed == (if buf@.len() > crate::MAX_PACKET_SIZE {
                    crate::MAX_PACKET_SIZE as int
                } else {
                    buf@.len() as int
                }),
                self.kind() == old(self).kind(),
                self.key() == old(self).key(),
                self.sk() == old(self).sk(),
                self.salt@ == old(self).salt@,
                old(self).flushed().is_prefix_of(self.flushed@),
                sink.sent() == old(sink).sent() + self.flushed@.skip(
                    old(self).flushed().len() as int,
                ),
                sink.spec_closed() == old(sink).spec_closed(),
                old(sink).sent().len() + 0x8100 <= usize::MAX,
                sink.sent().len() <= old(sink).sent().len() + pos,
                sink.spec_budget() == old(sink).spec_budget() - (self.flushed@.len() - old(
                    self,
                ).flushed().len()),
                old(sink).spec_closed() ==> self.flushed@ == old(self).flushed(),
            decreases self.buffer@.len() - pos,
        {
            match sink.write_from(&self.buffer, pos) {
                Poll::Pending => {
                    return Poll::Pending;
                },
                Poll::Ready(n) => {
                    if n == 0 {
                        return Poll::Ready(
                            Err(ProtocolError::IoError(IoErrorKind::UnexpectedEof)),
                        );
                    }
                    self.flushed = Ghost(self.flushed@ + self.buffer@.subrange(pos as int, pos + n));
                    pos = pos + n;
                    self.state = EncryptWriteState::Writing { pos };
                    proof {
                        assert(sink.sent() =~= old(sink).sent() + self.flushed@.skip(
                            old(self).flushed().len() as int,
                        ));
                        assert(self.flushed@ + self.buffer@.skip(pos as int) =~= self.salt@
                            + frames_of(self.kind(), self.sk(), 0, self.accepted@));
                    }
                },
            }
        }

        self.state = EncryptWriteState::AssemblePacket;
        self.buffer.clear();
        proof {
            assert(self.flushed@ + self.buffer@.skip(0) =~= self.flushed@);
            assert(self.flushed@ =~= self.salt@ + frames_of(
                self.kind(),
                self.sk(),
                0,
                self.accepted@,
            ));
            assert(self.pending_wire().len() == 0);
            if old(sink).spec_closed() {
                // A closed sink accepts nothing, so a fully drained buffer
                // means there was never anything to drain.
                if old(self).is_idle() {
                    let k = old(self).accepted().len();
                    let p = buf@.take(
                        if buf@.len() > crate::MAX_PACKET_SIZE {
                            crate::MAX_PACKET_SIZE as int
                        } else {
                            buf@.len() as int
                        },
                    );
                    lemma_frames_push(self.kind(), self.sk(), 0, old(self).accepted(), p);
                    assert(frame_facts(self.kind(), self.sk(), ((2 * k) as u64), p));
                    assert(frame_of(self.kind(), self.sk(), ((2 * k) as u64), p).len() >= 34);
                    assert(false);
                } else {
                    assert(old(self).pending_wire().len() == 0);
                }
            }
        }
        Poll::Ready(Ok(consumed))
    }
}

} // verus!
