use vstd::prelude::*;

use crate::crypto::{open_of, subkey_of, Cipher, CipherKind};
use crate::errors::{IoErrorKind, ProtocolError};
use crate::frames::{decode_len, len_bytes, lemma_decode_len_bytes, seg_fact, segs_payload, segs_wf};
use crate::transport::{copy_bytes, Poll, ReadBuf, SourceBuf};

verus! {

/// Receive state: accumulate the salt, then alternate between a sealed
/// length field, a sealed payload, and handing buffered plaintext out.
pub enum DecryptReadState {
    WaitSalt,
    ReadLength,
    ReadData { length: usize },
    BufferedData { pos: usize },
}

/// Reader wrapper that decrypts data automatically: framed ciphertext in,
/// plaintext out.
pub struct DecryptedReader {
    state: DecryptReadState,
    kind: CipherKind,
    key: Vec<u8>,
    cipher: Option<Cipher>,
    buffer: Vec<u8>,
    salt: Option<Vec<u8>>,
    handshaked: bool,
    consumed: Ghost<Seq<u8>>,
    segs: Ghost<Seq<Seq<u8>>>,
    delivered: Ghost<Seq<u8>>,
}

impl DecryptedReader {
    pub closed spec fn spec_kind(self) -> CipherKind {
        self.kind
    }

    pub closed spec fn spec_key(self) -> Seq<u8> {
        self.key@
    }

    /// Every transport byte this reader has consumed, in order.
    pub closed spec fn consumed(self) -> Seq<u8> {
        self.consumed@
    }

    /// Every plaintext byte this reader has handed to its consumer, in order.
    pub closed spec fn delivered(self) -> Seq<u8> {
        self.delivered@
    }

    /// The completed cipher segments, in order; segment `i` was opened with
    /// nonce counter `i`.
    pub closed spec fn spec_segs(self) -> Seq<Seq<u8>> {
        self.segs@
    }

    /// How many cipher segments have been completed.
    pub open spec fn seg_count(self) -> nat {
        self.spec_segs().len()
    }

    pub closed spec fn spec_handshaked(self) -> bool {
        self.handshaked
    }

    /// The salt observed at the start of the stream, once the handshake done.
    pub closed spec fn spec_salt(self) -> Option<Seq<u8>> {
        match self.salt {
            Some(s) => Some(s@),
            None => None,
        }
    }

    /// The subkey the handshake derived.
    pub closed spec fn sk(self) -> Seq<u8> {
        self.cipher.unwrap().sk()
    }

    spec fn loop_rank(self) -> int {
        match self.state {
            DecryptReadState::BufferedData { .. } => 1,
            _ => 0,
        }
    }

    /// Standing exactly between frames: the next byte expected is the first
    /// of a sealed length field.
    pub closed spec fn at_frame_boundary(self) -> bool {
        self.state is ReadLength && self.buffer@.len() == 0
    }

    /// Why a fatal error was returned. The parse state is anchored to the
    /// consumed bytes: the salt is their prefix, the subkey is its
    /// derivation, every completed segment opened at the counter equal to
    /// its index, and the delivered plaintext is what the completed payload
    /// segments opened to. Each decrypt failure names the exact next sealed
    /// segment that did not open, and an end-of-stream failure occurs only
    /// with the source closed and drained inside an incomplete segment, so
    /// errors can only arise from genuinely bad or truncated input.
    #[verifier::opaque]
    pub open spec fn err_explained(self, src: SourceBuf, e: ProtocolError) -> bool {
        let seg = self.consumed().skip(
            (self.spec_salt().unwrap().len() + self.spec_segs().flatten().len()) as int,
        );
        let tag = self.spec_kind().spec_tag_len();
        &&& (self.spec_handshaked() ==> {
            &&& self.spec_salt() matches Some(s) && s.len() == self.spec_kind().spec_salt_len()
                && s == self.consumed().take(self.spec_kind().spec_salt_len() as int)
                && self.sk() == subkey_of(self.spec_kind(), self.spec_key(), s)
            &&& segs_wf(self.spec_kind(), self.sk(), 0, self.spec_segs())
            &&& self.consumed() == self.spec_salt().unwrap() + self.spec_segs().flatten() + seg
            &&& self.delivered() == (if self.seg_count() % 2 == 0 {
                segs_payload(self.spec_kind(), self.sk(), 0, self.spec_segs())
            } else {
                segs_payload(
                    self.spec_kind(),
                    self.sk(),
                    0,
                    self.spec_segs().take(self.seg_count() - 1),
                )
            })
        })
        &&& (e matches ProtocolError::IoError(k) ==> {
            &&& k == IoErrorKind::UnexpectedEof
            &&& src.spec_eof()
            &&& src.avail().len() == 0
            &&& (if !self.spec_handshaked() {
                self.consumed().len() < self.spec_kind().spec_salt_len()
            } else if self.seg_count() % 2 == 1 {
                seg.len() < decode_len(
                    open_of(
                        self.spec_kind(),
                        self.sk(),
                        ((self.seg_count() - 1) as u64),
                        self.spec_segs().last(),
                    ).unwrap(),
                ) + tag
            } else {
                0 < seg.len() < 2 + tag
            })
        })
        &&& (e is DecryptLengthError ==> self.spec_handshaked() && self.seg_count() % 2 == 0
            && seg.len() == 2 + tag
            && open_of(self.spec_kind(), self.sk(), (self.seg_count() as u64), seg) is None)
        &&& (e matches ProtocolError::DataTooLong(n) ==> self.spec_handshaked()
            && self.seg_count() % 2 == 0 && seg.len() == 2 + tag
            && crate::MAX_PACKET_SIZE < n <= 0xFFFF
            && open_of(self.spec_kind(), self.sk(), (self.seg_count() as u64), seg)
            == Some(len_bytes(n as nat)))
        &&& (e is DecryptDataError ==> self.spec_handshaked() && self.seg_count() % 2 == 1
            && seg.len() == decode_len(
            open_of(
                self.spec_kind(),
                self.sk(),
                ((self.seg_count() - 1) as u64),
                self.spec_segs().last(),
            ).unwrap(),
        ) + tag
            && open_of(self.spec_kind(), self.sk(), (self.seg_count() as u64), seg) is None)
    }

    spec fn hs_ok(self) -> bool {
        &&& self.handshaked
        &&& self.cipher is Some
        &&& self.salt is Some
        &&& self.salt.unwrap()@.len() == self.kind.spec_salt_len()
        &&& self.cipher.unwrap().wf()
        &&& self.cipher.unwrap().kind() == self.kind
        &&& self.cipher.unwrap().key() == self.key@
        &&& self.cipher.unwrap().salt() == self.salt.unwrap()@
        &&& self.cipher.unwrap().nonce_ctr() == self.segs@.len()
        &&& segs_wf(self.kind, self.sk(), 0, self.segs@)
        &&& self.consumed@.take(self.kind.spec_salt_len() as int) == self.salt.unwrap()@
    }

    pub closed spec fn wf(self) -> bool {
        match self.state {
            DecryptReadState::WaitSalt => {
                &&& !self.handshaked
                &&& self.cipher is None
                &&& self.salt is None
                &&& self.segs@ == Seq::<Seq<u8>>::empty()
                &&& self.delivered@ == Seq::<u8>::empty()
                &&& self.consumed@ == self.buffer@
                &&& self.buffer@.len() < self.kind.spec_salt_len()
            },
            DecryptReadState::ReadLength => {
                &&& self.hs_ok()
                &&& self.segs@.len() % 2 == 0
                &&& self.consumed@ == self.salt.unwrap()@ + self.segs@.flatten() + self.buffer@
                &&& self.buffer@.len() < 2 + self.kind.spec_tag_len()
                &&& self.delivered@ == segs_payload(self.kind, self.sk(), 0, self.segs@)
            },
            DecryptReadState::ReadData { length } => {
                &&& self.hs_ok()
                &&& self.segs@.len() % 2 == 1
                &&& length <= crate::MAX_PACKET_SIZE
                &&& open_of(
                    self.kind,
                    self.sk(),
                    ((self.segs@.len() - 1) as u64),
                    self.segs@.last(),
                ) == Some(len_bytes(length as nat))
                &&& self.consumed@ == self.salt.unwrap()@ + self.segs@.flatten() + self.buffer@
                &&& self.buffer@.len() < length + self.kind.spec_tag_len()
                &&& self.delivered@ == segs_payload(
                    self.kind,
                    self.sk(),
                    0,
                    self.segs@.take(self.segs@.len() - 1),
                )
            },
            DecryptReadState::BufferedData { pos } => {
                &&& self.hs_ok()
                &&& self.segs@.len() % 2 == 0
                &&& self.segs@.len() > 0
                &&& self.consumed@ == self.salt.unwrap()@ + self.segs@.flatten()
                &&& open_of(
                    self.kind,
                    self.sk(),
                    ((self.segs@.len() - 1) as u64),
                    self.segs@.last(),
                ) == Some(self.buffer@)
                &&& pos <= self.buffer@.len()
                &&& self.buffer@.len() <= crate::MAX_PACKET_SIZE
                &&& self.delivered@ + self.buffer@.skip(pos as int) == segs_payload(
                    self.kind,
                    self.sk(),
                    0,
                    self.segs@,
                )
            },
        }
    }

    /// Creates a reader for `(kind, key)`, waiting for the peer's salt.
    pub fn new(kind: CipherKind, key: &[u8]) -> (r: DecryptedReader)
        ensures
            r.wf(),
            r.spec_kind() == kind,
            r.spec_key() == key@,
            !r.spec_handshaked(),
            r.spec_salt() is None,
            r.consumed() == Seq::<u8>::empty(),
            r.delivered() == Seq::<u8>::empty(),
            r.seg_count() == 0,
    {
        DecryptedReader {
            state: DecryptReadState::WaitSalt,
            kind,
            key: copy_bytes(key),
            cipher: None,
            buffer: Vec::new(),
            salt: None,
            handshaked: false,
            consumed: Ghost(Seq::empty()),
            segs: Ghost(Seq::empty()),
            delivered: Ghost(Seq::empty()),
        }
    }

    /// The salt observed from the peer, or nothing before the handshake.
    pub fn salt(&self) -> (r: Option<&Vec<u8>>)
        ensures
            match r {
                Some(s) => self.spec_salt() == Some(s@),
                None => self.spec_salt() is None,
            },
    {
        self.salt.as_ref()
    }

    /// Whether the handshake finished: true exactly once the salt has been
    /// read and the cipher built, and never reverts.
    pub fn handshaked(&self) -> (r: bool)
        ensures
            r == self.spec_handshaked(),
    {
        self.handshaked
    }

    /// Accumulates transport bytes in `self.buffer` until it holds `size`
    /// bytes. A short source yields pending; end of stream on an empty buffer
    /// is the clean result 0; end of stream mid-accumulation is an error.
    fn poll_read_exact(&mut self, src: &mut SourceBuf, size: usize) -> (r: Poll<
        Result<usize, ProtocolError>,
    >)
        requires
            old(self).buffer@.len() < size,
            size <= 0x4100,
            old(src).wf(),
        ensures
            final(src).wf(),
            final(src).spec_eof() == old(src).spec_eof(),
            final(self).state == old(self).state,
            final(self).kind == old(self).kind,
            final(self).key == old(self).key,
            final(self).cipher == old(self).cipher,
            final(self).salt == old(self).salt,
            final(self).handshaked == old(self).handshaked,
            final(self).segs@ == old(self).segs@,
            final(self).delivered@ == old(self).delivered@,
            final(self).buffer@.len() >= old(self).buffer@.len(),
            final(self).buffer@.len() - old(self).buffer@.len() <= old(src).avail().len(),
            final(self).buffer@ == old(self).buffer@ + old(src).avail().take(
                final(self).buffer@.len() - old(self).buffer@.len(),
            ),
            final(src).avail() == old(src).avail().skip(
                final(self).buffer@.len() - old(self).buffer@.len(),
            ),
            final(self).consumed@ == old(self).consumed@ + old(src).avail().take(
                final(self).buffer@.len() - old(self).buffer@.len(),
            ),
            match r {
                Poll::Ready(res) => match res {
                    Ok(n) => (n == size && final(self).buffer@.len() == size) || (n == 0
                        && old(self).buffer@.len() == 0 && final(self).buffer@.len() == 0 && old(src).avail().len() == 0 && old(src).spec_eof()),
                    Err(e) => {
                        &&& e == ProtocolError::IoError(IoErrorKind::UnexpectedEof)
                        &&& old(src).spec_eof()
                        &&& final(self).buffer@.len() < size
                        &&& final(self).buffer@.len() > 0
                        &&& final(src).avail().len() == 0
                    },
                },
                Poll::Pending => {
                    &&& !old(src).spec_eof()
                    &&& final(src).avail().len() == 0
                    &&& final(self).buffer@.len() < size
                },
            },
    {
        let need = size - self.buffer.len();
        let ghost pre_avail = src.avail();
        let n = src.read_into(&mut self.buffer, need);
        self.consumed = Ghost(self.consumed@ + pre_avail.take(n as int));
        if self.buffer.len() == size {
            return Poll::Ready(Ok(size));
        }
        if !src.is_eof() {
            return Poll::Pending;
        }
        if self.buffer.len() == 0 {
            return Poll::Ready(Ok(0));
        }
        Poll::Ready(Err(ProtocolError::IoError(IoErrorKind::UnexpectedEof)))
    }

    /// Attempts to deliver as much plaintext as possible into `out`. Ready
    /// with bytes appended means progress; ready with nothing appended while
    /// `out` had room means the peer closed cleanly at a frame boundary;
    /// pending means no progress was possible without more transport bytes;
    /// an error is fatal and the reader must not be used further.
    ///
    /// The nonce-headroom precondition is a machine limit: the counter is 64
    /// bits wide and two cipher operations happen per frame.
    #[verifier::rlimit(100)]
    #[verifier::spinoff_prover]
    pub fn poll_read_decrypted(&mut self, src: &mut SourceBuf, out: &mut ReadBuf) -> (r: Poll<
        Result<(), ProtocolError>,
    >)
        requires
            old(self).wf(),
            old(src).wf(),
            old(out).wf(),
            old(self).seg_count() + 2 * old(src).avail().len() + 2 <= u64::MAX,
        ensures
            final(src).wf(),
            final(out).wf(),
            final(out).spec_cap() == old(out).spec_cap(),
            final(src).spec_eof() == old(src).spec_eof(),
            final(self).spec_kind() == old(self).spec_kind(),
            final(self).spec_key() == old(self).spec_key(),
            old(self).spec_handshaked() ==> final(self).spec_handshaked(),
            old(self).spec_salt() is Some ==> final(self).spec_salt() == old(self).spec_salt(),
            final(self).spec_handshaked() ==> final(self).spec_salt() == Some(
                final(self).consumed().take(final(self).spec_kind().spec_salt_len() as int),
            ),
            final(src).avail().len() <= old(src).avail().len(),
            final(src).avail() == old(src).avail().skip(
                old(src).avail().len() - final(src).avail().len(),
            ),
            final(self).consumed() == old(self).consumed() + old(src).avail().take(
                old(src).avail().len() - final(src).avail().len(),
            ),
            old(self).delivered().is_prefix_of(final(self).delivered()),
            final(out).filled() == old(out).filled() + final(self).delivered().skip(
                old(self).delivered().len() as int,
            ),
            final(self).seg_count() + 2 * final(src).avail().len() <= old(self).seg_count() + 2
                * old(src).avail().len(),
            match r {
                Poll::Ready(res) => match res {
                    Ok(u) => {
                        &&& final(self).wf()
                        &&& (final(out).filled() == old(out).filled() && old(out).remaining() > 0
                            ==> final(src).spec_eof() && final(src).avail().len() == 0
                                && final(self).at_frame_boundary() && final(self).spec_handshaked())
                    },
                    Err(e) => {
                        &&& final(out).filled() == old(out).filled()
                        &&& final(self).delivered() == old(self).delivered()
                        &&& !(e matches ProtocolError::HeaderTooShort(_, _))
                        &&& (e matches ProtocolError::IoError(k) ==> k
                            == IoErrorKind::UnexpectedEof && final(src).spec_eof())
                        &&& (e matches ProtocolError::DataTooLong(n) ==> n
                            > crate::MAX_PACKET_SIZE)
                        &&& final(self).err_explained(*final(src), e)
                    },
                },
                Poll::Pending => {
                    &&& final(self).wf()
                    &&& !final(src).spec_eof()
                    &&& final(src).avail().len() == 0
                    &&& final(out).filled() == old(out).filled()
                    &&& final(self).delivered() == old(self).delivered()
                },
            },
    {
        loop
            invariant
                self.wf(),
                src.wf(),
                out.wf(),
                old(self).wf(),
                old(self).seg_count() + 2 * old(src).avail().len() + 2 <= u64::MAX,
                out.spec_cap() == old(out).spec_cap(),
                out.filled() == old(out).filled(),
                src.spec_eof() == old(src).spec_eof(),
                self.kind == old(self).kind,
                self.key@ == old(self).key@,
                old(self).spec_handshaked() ==> self.handshaked,
                old(self).spec_salt() is Some ==> self.spec_salt() == old(self).spec_salt(),
                src.avail().len() <= old(src).avail().len(),
                src.avail() == old(src).avail().skip(
                    old(src).avail().len() - src.avail().len(),
                ),
                self.consumed@ == old(self).consumed@ + old(src).avail().take(
                    old(src).avail().len() - src.avail().len(),
                ),
                self.delivered@ == old(self).delivered@,
                self.segs@.len() + 2 * src.avail().len() <= old(self).seg_count() + 2 * old(src).avail().len(),
            decreases src.avail().len(), self.loop_rank(),
        {
            let ghost pre = *self;
            let ghost pre_src = *src;
            let ghost k1 = old(src).avail().len() - src.avail().len();
            match self.state {
                DecryptReadState::WaitSalt => {
                    match self.poll_read_salt(src) {
                        Poll::Pending => {
                            proof {
                                Self::lemma_step(
                                    *old(self),
                                    pre,
                                    *self,
                                    *old(src),
                                    pre_src,
                                    *src,
                                );
                                if !(self.state is WaitSalt) {
                                    assert(self.consumed@ =~= self.salt.unwrap()@
                                        + self.segs@.flatten() + self.buffer@);
                                    assert(self.consumed@.take(self.kind.spec_salt_len() as int)
                                        =~= self.salt.unwrap()@);
                                }
                                assert(self.wf());
                                assert(out.filled() =~= old(out).filled() + self.delivered@.skip(
                                    old(self).delivered@.len() as int,
                                ));
                            }
                            return Poll::Pending;
                        },
                        Poll::Ready(Err(e)) => {
                            proof {
                                Self::lemma_step(
                                    *old(self),
                                    pre,
                                    *self,
                                    *old(src),
                                    pre_src,
                                    *src,
                                );
                                assert(out.filled() =~= old(out).filled() + self.delivered@.skip(
                                    old(self).delivered@.len() as int,
                                ));
                                Self::lemma_err_site(
                                    pre,
                                    *self,
                                    *src,
                                    e,
                                    pre_src.avail().take(self.buffer@.len() - pre.buffer@.len()),
                                );
                            }
                            return Poll::Ready(Err(e));
                        },
                        Poll::Ready(Ok(_)) => {},
                    }
                    self.buffer.clear();
                    self.state = DecryptReadState::ReadLength;
                    self.handshaked = true;
                    proof {
                        Self::lemma_step(*old(self), pre, *self, *old(src), pre_src, *src);
                        assert(self.segs@.flatten() =~= Seq::<u8>::empty());
                        assert(self.consumed@ =~= self.salt.unwrap()@ + self.segs@.flatten()
                            + self.buffer@);
                        assert(self.consumed@.take(self.kind.spec_salt_len() as int)
                            =~= self.salt.unwrap()@);
                        assert(self.wf());
                    }
                },
                DecryptReadState::ReadLength => {
                    match self.poll_read_length(src) {
                        Poll::Pending => {
                            proof {
                                Self::lemma_step(
                                    *old(self),
                                    pre,
                                    *self,
                                    *old(src),
                                    pre_src,
                                    *src,
                                );
                                if !(self.state is WaitSalt) {
                                    assert(self.consumed@ =~= self.salt.unwrap()@
                                        + self.segs@.flatten() + self.buffer@);
                                    assert(self.consumed@.take(self.kind.spec_salt_len() as int)
                                        =~= self.salt.unwrap()@);
                                }
                                assert(self.wf());
                                assert(out.filled() =~= old(out).filled() + self.delivered@.skip(
                                    old(self).delivered@.len() as int,
                                ));
                            }
                            return Poll::Pending;
                        },
                        Poll::Ready(Err(e)) => {
                            proof {
                                Self::lemma_step(
                                    *old(self),
                                    pre,
                                    *self,
                                    *old(src),
                                    pre_src,
                                    *src,
                                );
                                assert(out.filled() =~= old(out).filled() + self.delivered@.skip(
                                    old(self).delivered@.len() as int,
                                ));
                                Self::lemma_err_site(
                                    pre,
                                    *self,
                                    *src,
                                    e,
                                    pre_src.avail().take(self.buffer@.len() - pre.buffer@.len()),
                                );
                            }
                            return Poll::Ready(Err(e));
                        },
                        Poll::Ready(Ok(None)) => {
                            proof {
                                Self::lemma_step(
                                    *old(self),
                                    pre,
                                    *self,
                                    *old(src),
                                    pre_src,
                                    *src,
                                );
                                assert(self.consumed@ =~= self.salt.unwrap()@
                                    + self.segs@.flatten() + self.buffer@);
                                assert(self.consumed@.take(self.kind.spec_salt_len() as int)
                                    =~= self.salt.unwrap()@);
                                assert(self.wf());
                                assert(out.filled() =~= old(out).filled() + self.delivered@.skip(
                                    old(self).delivered@.len() as int,
                                ));
                            }
                            return Poll::Ready(Ok(()));
                        },
                        Poll::Ready(Ok(Some(length))) => {
                            let ghost ct = self.buffer@;
                            self.buffer.clear();
                            self.state = DecryptReadState::ReadData { length };
                            proof {
                                Self::lemma_step(
                                    *old(self),
                                    pre,
                                    *self,
                                    *old(src),
                                    pre_src,
                                    *src,
                                );
                                pre.segs@.lemma_flatten_push(ct);
                                crate::frames::lemma_len_bytes_decode(length as nat);
                                assert(self.consumed@ =~= self.salt.unwrap()@
                                    + self.segs@.flatten() + self.buffer@);
                                assert(self.consumed@.take(self.kind.spec_salt_len() as int)
                                    =~= self.salt.unwrap()@);
                                assert forall|i: int| 0 <= i < self.segs@.len() implies
                                    #[trigger] seg_fact(
                                    self.kind,
                                    self.sk(),
                                    0,
                                    self.segs@,
                                    i,
                                ) by {
                                    if i < pre.segs@.len() {
                                        assert(seg_fact(pre.kind, pre.sk(), 0, pre.segs@, i));
                                        assert(self.segs@[i] == pre.segs@[i]);
                                        if i + 1 < pre.segs@.len() {
                                            assert(self.segs@[i + 1] == pre.segs@[i + 1]);
                                        }
                                    }
                                }
                                assert(self.segs@.take(self.segs@.len() - 1) =~= pre.segs@);
                                assert(self.wf());
                            }
                        },
                    }
                },
                DecryptReadState::ReadData { length } => {
                    match self.poll_read_data(src, length) {
                        Poll::Pending => {
                            proof {
                                Self::lemma_step(
                                    *old(self),
                                    pre,
                                    *self,
                                    *old(src),
                                    pre_src,
                                    *src,
                                );
                                if !(self.state is WaitSalt) {
                                    assert(self.consumed@ =~= self.salt.unwrap()@
                                        + self.segs@.flatten() + self.buffer@);
                                    assert(self.consumed@.take(self.kind.spec_salt_len() as int)
                                        =~= self.salt.unwrap()@);
                                }
                                assert(self.wf());
                                assert(out.filled() =~= old(out).filled() + self.delivered@.skip(
                                    old(self).delivered@.len() as int,
                                ));
                            }
                            return Poll::Pending;
                        },
                        Poll::Ready(Err(e)) => {
                            proof {
                                Self::lemma_step(
                                    *old(self),
                                    pre,
                                    *self,
                                    *old(src),
                                    pre_src,
                                    *src,
                                );
                                assert(out.filled() =~= old(out).filled() + self.delivered@.skip(
                                    old(self).delivered@.len() as int,
                                ));
                                Self::lemma_err_site(
                                    pre,
                                    *self,
                                    *src,
                                    e,
                                    pre_src.avail().take(self.buffer@.len() - pre.buffer@.len()),
                                );
                            }
                            return Poll::Ready(Err(e));
                        },
                        Poll::Ready(Ok(_)) => {
                            self.state = DecryptReadState::BufferedData { pos: 0 };
                            proof {
                                Self::lemma_step(
                                    *old(self),
                                    pre,
                                    *self,
                                    *old(src),
                                    pre_src,
                                    *src,
                                );
                                crate::frames::lemma_len_bytes_decode(length as nat);
                                let even = pre.segs@.take(pre.segs@.len() - 1);
                                let lseg = pre.segs@.last();
                                let seg = self.segs@.last();
                                assert(pre.segs@ =~= even.push(lseg));
                                assert(self.segs@ =~= even.push(lseg).push(seg));
                                crate::frames::lemma_payload_push2(
                                    self.kind,
                                    self.sk(),
                                    0,
                                    even,
                                    lseg,
                                    seg,
                                );
                                assert(self.consumed@.take(self.kind.spec_salt_len() as int)
                                    =~= self.salt.unwrap()@);
                                assert forall|i: int| 0 <= i < self.segs@.len() implies
                                    #[trigger] seg_fact(
                                    self.kind,
                                    self.sk(),
                                    0,
                                    self.segs@,
                                    i,
                                ) by {
                                    if i < pre.segs@.len() {
                                        assert(seg_fact(pre.kind, pre.sk(), 0, pre.segs@, i));
                                        assert(self.segs@[i] == pre.segs@[i]);
                                        if i + 1 < pre.segs@.len() {
                                            assert(self.segs@[i + 1] == pre.segs@[i + 1]);
                                        }
                                    }
                                }
                                assert(self.delivered@ + self.buffer@.skip(0) =~= segs_payload(
                                    self.kind,
                                    self.sk(),
                                    0,
                                    self.segs@,
                                ));
                                assert(self.wf());
                            }
                        },
                    }
                },
                DecryptReadState::BufferedData { pos } => {
                    let pos_v = pos;
                    if pos_v < self.buffer.len() {
                        let room = out.remaining_len();
                        let left = self.buffer.len() - pos_v;
                        let n = if left < room {
                            left
                        } else {
                            room
                        };
                        out.put_from(&self.buffer, pos_v, n);
                        self.delivered = Ghost(
                            self.delivered@ + self.buffer@.subrange(pos_v as int, pos_v + n),
                        );
                        self.state = DecryptReadState::BufferedData { pos: pos_v + n };
                        proof {
                            assert(self.delivered@ + self.buffer@.skip(pos_v + n) =~= pre.delivered@
                                + self.buffer@.skip(pos_v as int));
                            assert(self.wf());
                            assert(self.delivered@.skip(old(self).delivered@.len() as int)
                                =~= self.buffer@.subrange(pos_v as int, pos_v + n));
                            assert(out.filled() =~= old(out).filled() + self.delivered@.skip(
                                old(self).delivered@.len() as int,
                            ));
                        }
                        return Poll::Ready(Ok(()));
                    }
                    self.buffer.clear();
                    self.state = DecryptReadState::ReadLength;
                    proof {
                        assert(self.delivered@ =~= pre.delivered@ + pre.buffer@.skip(pos_v as int));
                        assert(self.consumed@ =~= self.salt.unwrap()@ + self.segs@.flatten()
                            + self.buffer@);
                        assert(self.wf());
                    }
                },
            }
        }
    }

    /// A handshaken reader's observed salt is exactly the first `salt_len`
    /// bytes it consumed, and it was observed before any plaintext.
    pub proof fn lemma_salt_observation(self)
        requires
            self.wf(),
            self.spec_handshaked(),
        ensures
            self.spec_salt() == Some(
                self.consumed().take(self.spec_kind().spec_salt_len() as int),
            ),
            self.consumed().len() >= self.spec_kind().spec_salt_len(),
            self.sk() == subkey_of(
                self.spec_kind(),
                self.spec_key(),
                self.spec_salt().unwrap(),
            ),
    {
        self.cipher.unwrap().lemma_subkey();
    }

    /// Receive-side nonce discipline: every completed segment was opened at
    /// the counter equal to its index — two cipher operations per frame, in
    /// order, none repeated — and the delivered plaintext is a prefix of
    /// what the completed payload segments opened to.
    pub proof fn lemma_parse_discipline(self)
        requires
            self.wf(),
            self.spec_handshaked(),
        ensures
            segs_wf(self.spec_kind(), self.sk(), 0, self.spec_segs()),
            self.delivered().is_prefix_of(
                segs_payload(
                    self.spec_kind(),
                    self.sk(),
                    0,
                    if self.seg_count() % 2 == 0 {
                        self.spec_segs()
                    } else {
                        self.spec_segs().take(self.seg_count() - 1)
                    },
                ),
            ),
    {
        match self.state {
            DecryptReadState::BufferedData { pos } => {
                let pl = segs_payload(self.spec_kind(), self.sk(), 0, self.spec_segs());
                assert(self.delivered@ =~= pl.subrange(0, self.delivered@.len() as int));
            },
            _ => {
                assert(self.delivered@ =~= self.delivered@.subrange(
                    0,
                    self.delivered@.len() as int,
                ));
            },
        }
    }

    /// The handshake flag is true exactly when the salt has been observed
    /// and the cipher exists: before it, not even a full salt was consumed.
    pub proof fn lemma_handshake_iff(self)
        requires
            self.wf(),
        ensures
            self.spec_handshaked() <==> self.spec_salt() is Some,
            !self.spec_handshaked() ==> self.consumed().len()
                < self.spec_kind().spec_salt_len(),
    {
    }

    /// No plaintext is ever delivered before the handshake completes, so the
    /// observed salt is available strictly before the first delivered byte.
    pub proof fn lemma_no_delivery_before_handshake(self)
        requires
            self.wf(),
        ensures
            !self.spec_handshaked() ==> self.delivered() == Seq::<u8>::empty(),
    {
    }

    /// A prefix aligned after a known head splits: the head is literal and
    /// the remainder is a prefix of the rest.
    proof fn lemma_prefix_parts(x: Seq<u8>, h: Seq<u8>, rest: Seq<u8>)
        requires
            x.is_prefix_of(h + rest),
            x.len() >= h.len(),
        ensures
            x.take(h.len() as int) == h,
            x.skip(h.len() as int).is_prefix_of(rest),
    {
        let w = h + rest;
        assert(x.take(h.len() as int) =~= h) by {
            assert forall|i: int| 0 <= i < h.len() implies x[i] == h[i] by {
                assert(x[i] == w[i]);
            }
        }
        assert(x.skip(h.len() as int) =~= rest.take(x.len() - h.len())) by {
            assert forall|i: int| 0 <= i < x.len() - h.len() implies x[h.len() + i] == rest[i] by {
                assert(x[h.len() + i] == w[h.len() + i]);
            }
        }
    }

    /// Along any prefix of a validly sealed stream, the next complete
    /// segment is the corresponding sealed half of a frame, so it opens: to
    /// the sealed length field of the next payload after an even run, and to
    /// the payload itself after an odd run.
    proof fn lemma_prefix_parse(
        kind: CipherKind,
        sk: Seq<u8>,
        c0: u64,
        segs: Seq<Seq<u8>>,
        tail: Seq<u8>,
        ps: Seq<Seq<u8>>,
    )
        requires
            segs_wf(kind, sk, c0, segs),
            crate::frames::seal_facts(kind, sk, c0, ps),
            c0 + 2 * ps.len() + 2 <= u64::MAX,
            c0 + segs.len() + 2 <= u64::MAX,
            (segs.flatten() + tail).is_prefix_of(crate::frames::frames_of(kind, sk, c0, ps)),
        ensures
            segs.len() % 2 == 0 && tail.len() == 2 + kind.spec_tag_len() ==> ({
                let k = segs.len() / 2;
                &&& k < ps.len()
                &&& ps[k as int].len() <= crate::MAX_PACKET_SIZE
                &&& open_of(kind, sk, ((c0 + segs.len()) as u64), tail) == Some(
                    len_bytes(ps[k as int].len()),
                )
            }),
            segs.len() % 2 == 1 && tail.len() == decode_len(
                open_of(kind, sk, ((c0 + segs.len() - 1) as u64), segs.last()).unwrap(),
            ) + kind.spec_tag_len() ==> open_of(kind, sk, ((c0 + segs.len()) as u64), tail)
                is Some,
        decreases segs.len(),
    {
        let tag = kind.spec_tag_len();
        let x = segs.flatten() + tail;
        if segs.len() == 0 {
            if tail.len() == 2 + tag {
                assert(x.len() > 0);
                assert(ps.len() > 0);
                let p0 = ps[0];
                assert(crate::frames::frame_facts(kind, sk, ((c0 + 2 * 0) as u64), ps[0]));
                let seal_l = crate::crypto::seal_of(kind, sk, c0, len_bytes(p0.len()));
                let seal_d = crate::crypto::seal_of(kind, sk, ((c0 + 1) as u64), p0);
                let rest2 = crate::frames::frames_of(kind, sk, ((c0 + 2) as u64), ps.skip(1));
                assert(x.is_prefix_of(seal_l + (seal_d + rest2))) by {
                    assert(crate::frames::frames_of(kind, sk, c0, ps) =~= seal_l + (seal_d
                        + rest2));
                }
                Self::lemma_prefix_parts(x, seal_l, seal_d + rest2);
                assert(tail =~= x.take(seal_l.len() as int));
                crate::frames::lemma_len_bytes_decode(p0.len());
            }
        } else if segs.len() == 1 {
            let l = segs[0];
            assert(seg_fact(kind, sk, c0, segs, 0));
            assert(x.len() >= 2 + tag) by {
                assert(segs.flatten() == segs.first() + segs.drop_first().flatten());
            }
            assert(ps.len() > 0);
            let p0 = ps[0];
            assert(crate::frames::frame_facts(kind, sk, ((c0 + 2 * 0) as u64), ps[0]));
            let seal_l = crate::crypto::seal_of(kind, sk, c0, len_bytes(p0.len()));
            let seal_d = crate::crypto::seal_of(kind, sk, ((c0 + 1) as u64), p0);
            let rest2 = crate::frames::frames_of(kind, sk, ((c0 + 2) as u64), ps.skip(1));
            assert(x =~= l + tail) by {
                assert(segs.flatten() == segs.first() + segs.drop_first().flatten());
                assert(segs.drop_first().flatten() =~= Seq::<u8>::empty()) by {
                    assert(segs.drop_first() =~= Seq::<Seq<u8>>::empty());
                }
            }
            assert(x.is_prefix_of(seal_l + (seal_d + rest2))) by {
                assert(crate::frames::frames_of(kind, sk, c0, ps) =~= seal_l + (seal_d + rest2));
            }
            Self::lemma_prefix_parts(x, seal_l, seal_d + rest2);
            assert(l =~= x.take(seal_l.len() as int));
            crate::frames::lemma_len_bytes_decode(p0.len());
            if tail.len() == decode_len(
                open_of(kind, sk, ((c0 + segs.len() - 1) as u64), segs.last()).unwrap(),
            ) + tag {
                assert(tail.len() == seal_d.len());
                assert(x.skip(seal_l.len() as int) =~= tail);
                Self::lemma_prefix_parts(tail, seal_d, rest2);
                assert(tail =~= tail.take(seal_d.len() as int));
            }
        } else {
            let s0 = segs[0];
            let s1 = segs[1];
            assert(seg_fact(kind, sk, c0, segs, 0));
            assert(seg_fact(kind, sk, c0, segs, 1));
            assert(ps.len() > 0) by {
                assert(x.len() >= 2 + tag) by {
                    assert(segs.flatten() == segs.first() + segs.drop_first().flatten());
                }
            }
            let p0 = ps[0];
            assert(crate::frames::frame_facts(kind, sk, ((c0 + 2 * 0) as u64), ps[0]));
            let seal_l = crate::crypto::seal_of(kind, sk, c0, len_bytes(p0.len()));
            let seal_d = crate::crypto::seal_of(kind, sk, ((c0 + 1) as u64), p0);
            let rest2 = crate::frames::frames_of(kind, sk, ((c0 + 2) as u64), ps.skip(1));
            let y = s1 + (segs.skip(2).flatten() + tail);
            assert(x =~= s0 + y) by {
                assert(segs.flatten() == segs.first() + segs.drop_first().flatten());
                assert(segs.drop_first().flatten() == segs.drop_first().first()
                    + segs.drop_first().drop_first().flatten());
                assert(segs.drop_first().first() == segs[1]);
                assert(segs.drop_first().drop_first() =~= segs.skip(2));
            }
            assert(x.is_prefix_of(seal_l + (seal_d + rest2))) by {
                assert(crate::frames::frames_of(kind, sk, c0, ps) =~= seal_l + (seal_d + rest2));
            }
            assert(x.len() >= seal_l.len());
            Self::lemma_prefix_parts(x, seal_l, seal_d + rest2);
            assert(s0 =~= x.take(seal_l.len() as int));
            assert(open_of(kind, sk, ((c0 + 0) as u64), s0) == Some(len_bytes(p0.len())));
            crate::frames::lemma_len_bytes_decode(p0.len());
            assert(s1.len() == p0.len() + tag);
            assert(x.skip(seal_l.len() as int) =~= y);
            assert(y.len() >= seal_d.len());
            Self::lemma_prefix_parts(y, seal_d, rest2);
            assert(s1 =~= y.take(seal_d.len() as int));
            assert(y.skip(seal_d.len() as int) =~= segs.skip(2).flatten() + tail);
            // Shift one frame and recurse.
            assert(segs_wf(kind, sk, ((c0 + 2) as u64), segs.skip(2))) by {
                assert forall|j: int| 0 <= j < segs.skip(2).len() implies #[trigger] seg_fact(
                    kind,
                    sk,
                    ((c0 + 2) as u64),
                    segs.skip(2),
                    j,
                ) by {
                    assert(seg_fact(kind, sk, c0, segs, j + 2));
                    assert(segs.skip(2)[j] == segs[j + 2]);
                    if j % 2 == 0 && j + 1 < segs.skip(2).len() {
                        assert(segs.skip(2)[j + 1] == segs[j + 3]);
                    }
                }
            }
            assert(crate::frames::seal_facts(kind, sk, ((c0 + 2) as u64), ps.skip(1))) by {
                assert forall|j: int| 0 <= j < ps.skip(1).len() implies crate::frames::frame_facts(
                    kind,
                    sk,
                    ((((c0 + 2) as u64) + 2 * j) as u64),
                    #[trigger] ps.skip(1)[j],
                ) by {
                    assert(crate::frames::frame_facts(
                        kind,
                        sk,
                        ((c0 + 2 * (j + 1)) as u64),
                        ps[j + 1],
                    ));
                    assert(ps.skip(1)[j] == ps[j + 1]);
                }
            }
            Self::lemma_prefix_parse(kind, sk, ((c0 + 2) as u64), segs.skip(2), tail, ps.skip(1));
            if segs.len() % 2 == 0 && tail.len() == 2 + tag {
                let k = segs.len() / 2;
                assert(segs.skip(2).len() / 2 == k - 1);
                assert(ps.skip(1)[k - 2 + 1] == ps[k as int]);
            } else if segs.len() % 2 == 1 && tail.len() == decode_len(
                open_of(kind, sk, ((c0 + segs.len() - 1) as u64), segs.last()).unwrap(),
            ) + tag {
                assert(segs.skip(2).last() == segs.last());
            }
        }
    }

    /// Success is owed: on input that is a prefix of a validly sealed stream
    /// for this reader's kind, key and salt, no poll can have reported a
    /// decrypt failure or an oversized length — `err_explained` is refuted.
    pub proof fn lemma_valid_stream_refutes_decrypt_errors(
        self,
        src: SourceBuf,
        e: ProtocolError,
        key: Seq<u8>,
        salt: Seq<u8>,
        ps: Seq<Seq<u8>>,
    )
        requires
            self.err_explained(src, e),
            self.spec_key() == key,
            salt.len() == self.spec_kind().spec_salt_len(),
            crate::frames::seal_facts(
                self.spec_kind(),
                subkey_of(self.spec_kind(), key, salt),
                0,
                ps,
            ),
            2 * ps.len() + 2 <= u64::MAX,
            self.seg_count() + 2 <= u64::MAX,
            self.consumed().is_prefix_of(
                salt + crate::frames::frames_of(
                    self.spec_kind(),
                    subkey_of(self.spec_kind(), key, salt),
                    0,
                    ps,
                ),
            ),
        ensures
            !(e is DecryptLengthError),
            !(e is DecryptDataError),
            !(e matches ProtocolError::DataTooLong(_)),
    {
        reveal(DecryptedReader::err_explained);
        if e is DecryptLengthError || e is DecryptDataError || (e matches
            ProtocolError::DataTooLong(_)) {
            let kind = self.spec_kind();
            let sk0 = subkey_of(kind, key, salt);
            let frames = crate::frames::frames_of(kind, sk0, 0, ps);
            let rsalt = self.spec_salt().unwrap();
            let seg = self.consumed().skip(
                (rsalt.len() + self.spec_segs().flatten().len()) as int,
            );
            assert(self.consumed().len() >= salt.len());
            assert(rsalt =~= salt) by {
                assert forall|i: int| 0 <= i < salt.len() implies rsalt[i] == salt[i] by {
                    assert(self.consumed()[i] == (salt + frames)[i]);
                    assert(self.consumed()[i] == (rsalt + (self.spec_segs().flatten() + seg))[i]);
                }
            }
            assert(self.sk() == sk0);
            assert((self.spec_segs().flatten() + seg).is_prefix_of(frames)) by {
                assert(self.consumed() =~= rsalt + (self.spec_segs().flatten() + seg));
                Self::lemma_prefix_parts(self.consumed(), salt, frames);
                assert(self.consumed().skip(salt.len() as int) =~= self.spec_segs().flatten()
                    + seg);
            }
            Self::lemma_prefix_parse(kind, sk0, 0, self.spec_segs(), seg, ps);
            match e {
                ProtocolError::DataTooLong(n) => {
                    let k = self.seg_count() / 2;
                    crate::frames::lemma_len_bytes_decode(ps[k as int].len());
                    crate::frames::lemma_len_bytes_decode(n as nat);
                },
                _ => {},
            }
            assert(false);
        }
    }

    /// Equal sequences split equally around a prefix of known equal length.
    proof fn lemma_prefix_split(x: Seq<u8>, a: Seq<u8>, b: Seq<u8>, c: Seq<u8>, d: Seq<u8>)
        requires
            x == a + b,
            x == c + d,
            a.len() == c.len(),
        ensures
            a == c,
            b == d,
    {
        assert(a =~= c) by {
            assert forall|i: int| 0 <= i < a.len() implies a[i] == c[i] by {
                assert(a[i] == x[i]);
                assert(c[i] == x[i]);
            }
        }
        assert(x.len() == a.len() + b.len());
        assert(x.len() == c.len() + d.len());
        assert(b =~= d) by {
            assert forall|i: int| 0 <= i < b.len() implies b[i] == d[i] by {
                assert((a + b)[a.len() + i] == b[i]);
                assert((c + d)[c.len() + i] == d[i]);
            }
        }
    }

    /// Parsing is unambiguous: if the segments a receiver completed
    /// concatenate to exactly the frames a sender sealed from payloads `ps`
    /// at the same counters, then the segments are those frames' two halves
    /// and their payload is the concatenation of `ps`.
    proof fn lemma_parse_unique(
        kind: CipherKind,
        sk: Seq<u8>,
        c0: u64,
        segs: Seq<Seq<u8>>,
        ps: Seq<Seq<u8>>,
    )
        requires
            segs_wf(kind, sk, c0, segs),
            segs.len() % 2 == 0,
            crate::frames::seal_facts(kind, sk, c0, ps),
            c0 + 2 * ps.len() + 2 <= u64::MAX,
            c0 + segs.len() <= u64::MAX,
            segs.flatten() == crate::frames::frames_of(kind, sk, c0, ps),
        ensures
            segs.len() == 2 * ps.len(),
            segs_payload(kind, sk, c0, segs) == ps.flatten(),
        decreases ps.len(),
    {
        let tag = kind.spec_tag_len();
        if ps.len() == 0 {
            if segs.len() > 0 {
                assert(seg_fact(kind, sk, c0, segs, 0));
                assert(segs.flatten() =~= segs.first() + segs.drop_first().flatten());
                assert(segs.flatten().len() >= 2 + tag);
                assert(false);
            }
            assert(segs_payload(kind, sk, c0, segs) =~= ps.flatten());
        } else {
            let p0 = ps[0];
            assert(crate::frames::frame_facts(kind, sk, ((c0 + 2 * 0) as u64), ps[0]));
            let seal_l = crate::crypto::seal_of(kind, sk, c0, len_bytes(p0.len()));
            let seal_d = crate::crypto::seal_of(kind, sk, ((c0 + 1) as u64), p0);
            let rest2 = crate::frames::frames_of(kind, sk, ((c0 + 2) as u64), ps.skip(1));
            assert(segs.flatten() == (seal_l + seal_d) + rest2);
            if segs.len() == 0 {
                assert(segs.flatten() =~= Seq::<u8>::empty());
                assert((seal_l + seal_d + rest2).len() >= 2 + tag);
                assert(false);
            }
            assert(segs.len() >= 2);
            assert(seg_fact(kind, sk, c0, segs, 0));
            assert(seg_fact(kind, sk, c0, segs, 1));
            // Unfold the flattening twice.
            let rest1 = segs.skip(2).flatten();
            assert(segs.flatten() =~= segs[0] + (segs[1] + rest1)) by {
                assert(segs.flatten() == segs.first() + segs.drop_first().flatten());
                assert(segs.drop_first().flatten() == segs.drop_first().first()
                    + segs.drop_first().drop_first().flatten());
                assert(segs.drop_first().first() == segs[1]);
                assert(segs.drop_first().drop_first() =~= segs.skip(2));
                assert(segs.flatten() =~= segs[0] + (segs[1]
                    + segs.drop_first().drop_first().flatten()));
            }
            // First segment is the sealed length field.
            assert(segs.flatten() == seal_l + (seal_d + rest2)) by {
                assert(segs.flatten() =~= seal_l + (seal_d + rest2));
            }
            Self::lemma_prefix_split(
                segs.flatten(),
                segs[0],
                segs[1] + rest1,
                seal_l,
                seal_d + rest2,
            );
            assert(open_of(kind, sk, ((c0 + 0) as u64), segs[0]) == Some(len_bytes(p0.len())));
            crate::frames::lemma_len_bytes_decode(p0.len());
            assert(segs[1].len() == p0.len() + tag);
            // Second segment is the sealed payload.
            Self::lemma_prefix_split(segs[1] + rest1, segs[1], rest1, seal_d, rest2);
            assert(open_of(kind, sk, ((c0 + 1) as u64), segs[1]) == Some(p0));
            // Shift everything by one frame and recurse.
            assert(segs_wf(kind, sk, ((c0 + 2) as u64), segs.skip(2))) by {
                assert forall|j: int| 0 <= j < segs.skip(2).len() implies #[trigger] seg_fact(
                    kind,
                    sk,
                    ((c0 + 2) as u64),
                    segs.skip(2),
                    j,
                ) by {
                    assert(seg_fact(kind, sk, c0, segs, j + 2));
                    assert(segs.skip(2)[j] == segs[j + 2]);
                    if j % 2 == 0 && j + 1 < segs.skip(2).len() {
                        assert(segs.skip(2)[j + 1] == segs[j + 3]);
                    }
                }
            }
            assert(crate::frames::seal_facts(kind, sk, ((c0 + 2) as u64), ps.skip(1))) by {
                assert forall|j: int| 0 <= j < ps.skip(1).len() implies crate::frames::frame_facts(
                    kind,
                    sk,
                    ((((c0 + 2) as u64) + 2 * j) as u64),
                    #[trigger] ps.skip(1)[j],
                ) by {
                    assert(crate::frames::frame_facts(
                        kind,
                        sk,
                        ((c0 + 2 * (j + 1)) as u64),
                        ps[j + 1],
                    ));
                    assert(ps.skip(1)[j] == ps[j + 1]);
                }
            }
            Self::lemma_parse_unique(kind, sk, ((c0 + 2) as u64), segs.skip(2), ps.skip(1));
            assert(segs_payload(kind, sk, c0, segs) == p0 + ps.skip(1).flatten());
            assert(ps.flatten() =~= p0 + ps.skip(1).flatten()) by {
                assert(ps.flatten() == ps.first() + ps.drop_first().flatten());
                assert(ps.drop_first() =~= ps.skip(1));
            }
        }
    }

    /// Feeding a reader exactly the wire form of payload chunks `ps`, sealed
    /// with its own kind and subkey from counter zero, delivers exactly their
    /// concatenation once it stands at the closing frame boundary.
    pub proof fn lemma_reader_decodes(self, ps: Seq<Seq<u8>>)
        requires
            self.wf(),
            self.spec_handshaked(),
            self.at_frame_boundary(),
            crate::frames::seal_facts(self.spec_kind(), self.sk(), 0, ps),
            2 * ps.len() + 2 <= u64::MAX,
            self.consumed() == self.spec_salt().unwrap() + crate::frames::frames_of(
                self.spec_kind(),
                self.sk(),
                0,
                ps,
            ),
        ensures
            self.delivered() == ps.flatten(),
            self.seg_count() == 2 * ps.len(),
    {
        assert(self.consumed@ =~= self.salt.unwrap()@ + self.segs@.flatten());
        Self::lemma_prefix_split(
            self.consumed@,
            self.salt.unwrap()@,
            self.segs@.flatten(),
            self.spec_salt().unwrap(),
            crate::frames::frames_of(self.spec_kind(), self.sk(), 0, ps),
        );
        Self::lemma_parse_unique(self.spec_kind(), self.sk(), 0, self.segs@, ps);
    }

    /// After a fatal error, the final parse state explains it: this ties the
    /// helpers' error postconditions to `err_explained`.
    proof fn lemma_err_site(
        pre: DecryptedReader,
        cur: DecryptedReader,
        cur_src: SourceBuf,
        e: ProtocolError,
        taken: Seq<u8>,
    )
        requires
            pre.wf(),
            !(pre.state is BufferedData),
            cur.state == pre.state,
            cur.kind == pre.kind,
            cur.key == pre.key,
            cur.salt == pre.salt,
            cur.handshaked == pre.handshaked,
            cur.segs@ == pre.segs@,
            cur.delivered@ == pre.delivered@,
            cur.consumed@ == pre.consumed@ + taken,
            cur.buffer@ == pre.buffer@ + taken,
            pre.handshaked ==> (cur.cipher matches Some(c) && c.sk() == pre.sk()),
            !(e matches ProtocolError::HeaderTooShort(_, _)),
            e matches ProtocolError::IoError(k) ==> k == IoErrorKind::UnexpectedEof
                && cur_src.spec_eof() && cur_src.avail().len() == 0 && (match pre.state {
                DecryptReadState::WaitSalt => cur.buffer@.len() < pre.kind.spec_salt_len(),
                DecryptReadState::ReadLength => 0 < cur.buffer@.len() < 2
                    + pre.kind.spec_tag_len(),
                DecryptReadState::ReadData { length } => cur.buffer@.len() < length
                    + pre.kind.spec_tag_len(),
                DecryptReadState::BufferedData { .. } => false,
            }),
            e is DecryptLengthError ==> pre.state is ReadLength && cur.buffer@.len() == 2
                + pre.kind.spec_tag_len() && open_of(
                pre.kind,
                pre.sk(),
                (pre.segs@.len() as u64),
                cur.buffer@,
            ) is None,
            e matches ProtocolError::DataTooLong(n) ==> pre.state is ReadLength
                && crate::MAX_PACKET_SIZE < n <= 0xFFFF
                && cur.buffer@.len() == 2 + pre.kind.spec_tag_len() && open_of(
                pre.kind,
                pre.sk(),
                (pre.segs@.len() as u64),
                cur.buffer@,
            ) == Some(len_bytes(n as nat)),
            e is DecryptDataError ==> (pre.state matches DecryptReadState::ReadData { length }
                && cur.buffer@.len() == length + pre.kind.spec_tag_len() && open_of(
                pre.kind,
                pre.sk(),
                (pre.segs@.len() as u64),
                cur.buffer@,
            ) is None),
        ensures
            cur.err_explained(cur_src, e),
    {
        reveal(DecryptedReader::err_explained);
        if pre.handshaked {
            pre.cipher.unwrap().lemma_subkey();
            assert(cur.consumed@ =~= cur.salt.unwrap()@ + cur.segs@.flatten() + cur.buffer@);
            assert(cur.consumed@.skip(
                (cur.salt.unwrap()@.len() + cur.segs@.flatten().len()) as int,
            ) =~= cur.buffer@);
            assert(cur.consumed@.take(cur.kind.spec_salt_len() as int)
                =~= pre.consumed@.take(pre.kind.spec_salt_len() as int));
            match pre.state {
                DecryptReadState::ReadData { length } => {
                    crate::frames::lemma_len_bytes_decode(length as nat);
                },
                _ => {},
            }
        } else {
            assert(cur.consumed@ =~= cur.buffer@);
        }
    }

    /// Composition of two front-consumption steps of the same source.
    proof fn lemma_step(
        base: DecryptedReader,
        pre: DecryptedReader,
        cur: DecryptedReader,
        base_src: SourceBuf,
        pre_src: SourceBuf,
        cur_src: SourceBuf,
    )
        requires
            pre_src.avail().len() <= base_src.avail().len(),
            pre_src.avail() == base_src.avail().skip(
                base_src.avail().len() - pre_src.avail().len(),
            ),
            pre.consumed@ == base.consumed@ + base_src.avail().take(
                base_src.avail().len() - pre_src.avail().len(),
            ),
            cur_src.avail().len() <= pre_src.avail().len(),
            cur_src.avail() == pre_src.avail().skip(
                pre_src.avail().len() - cur_src.avail().len(),
            ),
            cur.consumed@ == pre.consumed@ + pre_src.avail().take(
                pre_src.avail().len() - cur_src.avail().len(),
            ),
        ensures
            cur_src.avail().len() <= base_src.avail().len(),
            cur_src.avail() == base_src.avail().skip(
                base_src.avail().len() - cur_src.avail().len(),
            ),
            cur.consumed@ == base.consumed@ + base_src.avail().take(
                base_src.avail().len() - cur_src.avail().len(),
            ),
    {
        let k1 = base_src.avail().len() - pre_src.avail().len();
        let k2 = pre_src.avail().len() - cur_src.avail().len();
        assert(cur_src.avail() =~= base_src.avail().skip(k1 + k2));
        assert(base_src.avail().take(k1 + k2) =~= base_src.avail().take(k1)
            + base_src.avail().skip(k1).take(k2));
        assert(cur.consumed@ =~= base.consumed@ + base_src.avail().take(k1 + k2));
    }

    /// Reads the peer's salt, remembers it, and builds the cipher. The salt
    /// is recorded before any decryption; replay filtering is the caller's
    /// concern and is deliberately not done here.
    fn poll_read_salt(&mut self, src: &mut SourceBuf) -> (r: Poll<Result<(), ProtocolError>>)
        requires
            old(self).wf(),
            old(self).state is WaitSalt,
            old(src).wf(),
        ensures
            final(src).wf(),
            final(src).spec_eof() == old(src).spec_eof(),
            final(self).state == old(self).state,
            final(self).kind == old(self).kind,
            final(self).key == old(self).key,
            final(self).handshaked == old(self).handshaked,
            final(self).segs@ == old(self).segs@,
            final(self).delivered@ == old(self).delivered@,
            final(self).buffer@.len() >= old(self).buffer@.len(),
            final(self).buffer@.len() - old(self).buffer@.len() <= old(src).avail().len(),
            final(self).buffer@ == old(self).buffer@ + old(src).avail().take(
                final(self).buffer@.len() - old(self).buffer@.len(),
            ),
            final(src).avail() == old(src).avail().skip(
                final(self).buffer@.len() - old(self).buffer@.len(),
            ),
            final(self).consumed@ == old(self).consumed@ + old(src).avail().take(
                final(self).buffer@.len() - old(self).buffer@.len(),
            ),
            match r {
                Poll::Ready(res) => match res {
                    Ok(u) => {
                        &&& final(self).buffer@.len() == old(self).kind.spec_salt_len()
                        &&& final(self).consumed@ == final(self).buffer@
                        &&& final(self).salt matches Some(s) && s@ == final(self).buffer@
                        &&& final(self).cipher matches Some(c) && c.wf() && c.kind() == old(self).kind && c.key() == old(self).key@ && c.salt() == final(self).buffer@
                            && c.nonce_ctr() == 0
                    },
                    Err(e) => {
                        &&& e == ProtocolError::IoError(IoErrorKind::UnexpectedEof)
                        &&& old(src).spec_eof()
                        &&& final(src).avail().len() == 0
                        &&& final(self).buffer@.len() < old(self).kind.spec_salt_len()
                        &&& final(self).cipher is None
                        &&& final(self).salt is None
                    },
                },
                Poll::Pending => {
                    &&& !old(src).spec_eof()
                    &&& final(src).avail().len() == 0
                    &&& final(self).buffer@.len() < old(self).kind.spec_salt_len()
                    &&& final(self).cipher is None
                    &&& final(self).salt is None
                },
            },
    {
        let salt_len = self.kind.salt_len();
        match self.poll_read_exact(src, salt_len) {
            Poll::Pending => {
                return Poll::Pending;
            },
            Poll::Ready(Err(e)) => {
                return Poll::Ready(Err(e));
            },
            Poll::Ready(Ok(n)) => {
                if n < salt_len {
                    return Poll::Ready(Err(ProtocolError::IoError(IoErrorKind::UnexpectedEof)));
                }
            },
        }
        let s = copy_bytes(self.buffer.as_slice());
        self.salt = Some(s);
        let c = Cipher::new(self.kind, self.key.as_slice(), self.buffer.as_slice());
        self.cipher = Some(c);
        Poll::Ready(Ok(()))
    }

    /// Reads and opens one sealed length field. A clean end of stream right
    /// at the frame boundary is reported as `Ok(None)`.
    fn poll_read_length(&mut self, src: &mut SourceBuf) -> (r: Poll<
        Result<Option<usize>, ProtocolError>,
    >)
        requires
            old(self).wf(),
            old(self).state is ReadLength,
            old(self).segs@.len() + 1 <= u64::MAX,
            old(src).wf(),
        ensures
            final(src).wf(),
            final(src).spec_eof() == old(src).spec_eof(),
            final(self).state == old(self).state,
            final(self).kind == old(self).kind,
            final(self).key == old(self).key,
            final(self).salt == old(self).salt,
            final(self).handshaked == old(self).handshaked,
            final(self).delivered@ == old(self).delivered@,
            final(self).buffer@.len() >= old(self).buffer@.len(),
            final(self).buffer@.len() - old(self).buffer@.len() <= old(src).avail().len(),
            final(self).buffer@ == old(self).buffer@ + old(src).avail().take(
                final(self).buffer@.len() - old(self).buffer@.len(),
            ),
            final(src).avail() == old(src).avail().skip(
                final(self).buffer@.len() - old(self).buffer@.len(),
            ),
            final(self).consumed@ == old(self).consumed@ + old(src).avail().take(
                final(self).buffer@.len() - old(self).buffer@.len(),
            ),
            match r {
                Poll::Ready(res) => match res {
                    Ok(opt) => match opt {
                        Some(l) => {
                            &&& l <= crate::MAX_PACKET_SIZE
                            &&& final(self).segs@ == old(self).segs@.push(final(self).buffer@)
                            &&& final(self).buffer@.len() == 2 + old(self).kind.spec_tag_len()
                            &&& old(src).avail().len() >= 1
                            &&& open_of(
                                old(self).kind,
                                old(self).sk(),
                                (old(self).segs@.len() as u64),
                                final(self).buffer@,
                            ) == Some(len_bytes(l as nat))
                            &&& final(self).cipher matches Some(c) && c.wf() && c.kind() == old(self).kind && c.key() == old(self).key@ && c.salt() == old(self).salt.unwrap()@ && c.sk() == old(self).sk() && c.nonce_ctr() == old(self).segs@.len() + 1
                        },
                        None => {
                            &&& final(self).segs@ == old(self).segs@
                            &&& final(self).cipher == old(self).cipher
                            &&& old(self).buffer@.len() == 0
                            &&& final(self).buffer@.len() == 0
                            &&& old(src).avail().len() == 0
                            &&& old(src).spec_eof()
                        },
                    },
                    Err(e) => {
                        &&& final(self).segs@ == old(self).segs@
                        &&& final(self).cipher matches Some(c) && c.sk() == old(self).sk()
                        &&& (e matches ProtocolError::IoError(k2) ==> old(src).spec_eof()
                            && final(src).avail().len() == 0 && 0 < final(self).buffer@.len() < 2
                            + old(self).kind.spec_tag_len())
                        &&& (e matches ProtocolError::DataTooLong(n) ==> n > crate::MAX_PACKET_SIZE
                            && n <= 0xFFFF
                            && final(self).buffer@.len() == 2 + old(self).kind.spec_tag_len()
                            && open_of(
                            old(self).kind,
                            old(self).sk(),
                            (old(self).segs@.len() as u64),
                            final(self).buffer@,
                        ) == Some(len_bytes(n as nat)))
                        &&& (e is DecryptLengthError ==> final(self).buffer@.len() == 2 + old(
                            self,
                        ).kind.spec_tag_len() && open_of(
                            old(self).kind,
                            old(self).sk(),
                            (old(self).segs@.len() as u64),
                            final(self).buffer@,
                        ) is None)
                        &&& !(e is DecryptDataError)
                        &&& !(e is HeaderTooShort)
                        &&& (e matches ProtocolError::IoError(k) ==> k
                            == IoErrorKind::UnexpectedEof)
                    },
                },
                Poll::Pending => {
                    &&& !old(src).spec_eof()
                    &&& final(src).avail().len() == 0
                    &&& final(self).segs@ == old(self).segs@
                    &&& final(self).cipher == old(self).cipher
                    &&& final(self).buffer@.len() < 2 + old(self).kind.spec_tag_len()
                },
            },
    {
        let length_len = 2 + self.kind.tag_len();
        match self.poll_read_exact(src, length_len) {
            Poll::Pending => {
                return Poll::Pending;
            },
            Poll::Ready(Err(e)) => {
                return Poll::Ready(Err(e));
            },
            Poll::Ready(Ok(n)) => {
                if n == 0 {
                    return Poll::Ready(Ok(None));
                }
            },
        }
        let length = match &mut self.cipher {
            Some(c) => {
                match Self::decrypt_length(c, self.buffer.as_slice()) {
                    Ok(l) => l,
                    Err(e) => {
                        return Poll::Ready(Err(e));
                    },
                }
            },
            None => {
                proof {
                    assert(false);
                }
                return Poll::Ready(Err(ProtocolError::DecryptLengthError));
            },
        };
        self.segs = Ghost(self.segs@.push(self.buffer@));
        Poll::Ready(Ok(Some(length)))
    }

    /// Reads and opens one sealed payload segment; on success the buffer
    /// holds the frame's plaintext.
    fn poll_read_data(&mut self, src: &mut SourceBuf, size: usize) -> (r: Poll<
        Result<(), ProtocolError>,
    >)
        requires
            old(self).wf(),
            old(self).state == (DecryptReadState::ReadData { length: size }),
            old(self).segs@.len() + 1 <= u64::MAX,
            old(src).wf(),
        ensures
            final(src).wf(),
            final(src).spec_eof() == old(src).spec_eof(),
            final(self).state == old(self).state,
            final(self).kind == old(self).kind,
            final(self).key == old(self).key,
            final(self).salt == old(self).salt,
            final(self).handshaked == old(self).handshaked,
            final(self).delivered@ == old(self).delivered@,
            match r {
                Poll::Ready(res) => match res {
                    Ok(u) => ({
                        let delta = size + old(self).kind.spec_tag_len()
                            - old(self).buffer@.len();
                        let seg = old(self).buffer@ + old(src).avail().take(delta);
                        &&& delta <= old(src).avail().len()
                        &&& old(src).avail().len() >= 1
                        &&& final(self).segs@ == old(self).segs@.push(seg)
                        &&& final(src).avail() == old(src).avail().skip(delta)
                        &&& final(self).consumed@ == old(self).consumed@ + old(src).avail().take(
                            delta,
                        )
                        &&& final(self).consumed@ == old(self).salt.unwrap()@ + final(self).segs@.flatten()
                        &&& seg.len() == size + old(self).kind.spec_tag_len()
                        &&& open_of(
                            old(self).kind,
                            old(self).sk(),
                            (old(self).segs@.len() as u64),
                            seg,
                        ) == Some(final(self).buffer@)
                        &&& final(self).buffer@.len() == size
                        &&& final(self).cipher matches Some(c) && c.wf() && c.kind() == old(self).kind && c.key() == old(self).key@ && c.salt() == old(self).salt.unwrap()@ && c.sk() == old(self).sk() && c.nonce_ctr() == old(self).segs@.len() + 1
                    }),
                    Err(e) => {
                        &&& final(self).buffer@.len() >= old(self).buffer@.len()
                        &&& final(self).buffer@.len() - old(self).buffer@.len() <= old(
                            src,
                        ).avail().len()
                        &&& final(self).buffer@ == old(self).buffer@ + old(src).avail().take(
                            final(self).buffer@.len() - old(self).buffer@.len(),
                        )
                        &&& final(src).avail() == old(src).avail().skip(
                            final(self).buffer@.len() - old(self).buffer@.len(),
                        )
                        &&& final(self).consumed@ == old(self).consumed@ + old(src).avail().take(
                            final(self).buffer@.len() - old(self).buffer@.len(),
                        )
                        &&& final(self).segs@ == old(self).segs@
                        &&& final(self).cipher matches Some(c) && c.sk() == old(self).sk()
                        &&& (e matches ProtocolError::IoError(k2) ==> old(src).spec_eof()
                            && final(src).avail().len() == 0 && final(self).buffer@.len() < size
                            + old(self).kind.spec_tag_len())
                        &&& (e is DecryptDataError ==> open_of(
                            old(self).kind,
                            old(self).sk(),
                            (old(self).segs@.len() as u64),
                            final(self).buffer@,
                        ) is None && final(self).buffer@.len() == size + old(self).kind.spec_tag_len())
                        &&& !(e is DecryptLengthError)
                        &&& !(e matches ProtocolError::DataTooLong(_))
                        &&& !(e matches ProtocolError::HeaderTooShort(_, _))
                        &&& (e matches ProtocolError::IoError(k) ==> k
                            == IoErrorKind::UnexpectedEof)
                    },
                },
                Poll::Pending => {
                    &&& !old(src).spec_eof()
                    &&& final(src).avail().len() == 0
                    &&& final(self).segs@ == old(self).segs@
                    &&& final(self).cipher == old(self).cipher
                    &&& final(self).buffer@.len() < size + old(self).kind.spec_tag_len()
                    &&& final(self).buffer@.len() >= old(self).buffer@.len()
                    &&& final(self).buffer@.len() - old(self).buffer@.len() <= old(
                        src,
                    ).avail().len()
                    &&& final(self).buffer@ == old(self).buffer@ + old(src).avail().take(
                        final(self).buffer@.len() - old(self).buffer@.len(),
                    )
                    &&& final(src).avail() == old(src).avail().skip(
                        final(self).buffer@.len() - old(self).buffer@.len(),
                    )
                    &&& final(self).consumed@ == old(self).consumed@ + old(src).avail().take(
                        final(self).buffer@.len() - old(self).buffer@.len(),
                    )
                },
            },
    {
        let data_len = size + self.kind.tag_len();
        match self.poll_read_exact(src, data_len) {
            Poll::Pending => {
                return Poll::Pending;
            },
            Poll::Ready(Err(e)) => {
                return Poll::Ready(Err(e));
            },
            Poll::Ready(Ok(n)) => {
                if n == 0 {
                    return Poll::Ready(Err(ProtocolError::IoError(IoErrorKind::UnexpectedEof)));
                }
            },
        }
        let pt = match &mut self.cipher {
            Some(c) => {
                match c.decrypt(self.buffer.as_slice()) {
                    None => {
                        return Poll::Ready(Err(ProtocolError::DecryptDataError));
                    },
                    Some(p) => p,
                }
            },
            None => {
                proof {
                    assert(false);
                }
                return Poll::Ready(Err(ProtocolError::DecryptDataError));
            },
        };
        self.segs = Ghost(self.segs@.push(self.buffer@));
        proof {
            old(self).segs@.lemma_flatten_push(self.buffer@);
            assert(self.consumed@ =~= old(self).salt.unwrap()@ + self.segs@.flatten());
        }
        self.buffer = pt;
        Poll::Ready(Ok(()))
    }

    /// Opens a completed sealed length field and checks the ceiling: the
    /// decoded value is the next payload's length, and values above
    /// `MAX_PACKET_SIZE` (the reserved upper two bits) are rejected.
    fn decrypt_length(cipher: &mut Cipher, m: &[u8]) -> (r: Result<usize, ProtocolError>)
        requires
            old(cipher).wf(),
            old(cipher).nonce_ctr() < u64::MAX,
            m@.len() == 2 + old(cipher).kind().spec_tag_len(),
        ensures
            final(cipher).wf(),
            final(cipher).kind() == old(cipher).kind(),
            final(cipher).sk() == old(cipher).sk(),
            final(cipher).key() == old(cipher).key(),
            final(cipher).salt() == old(cipher).salt(),
            final(cipher).nonce_ctr() == old(cipher).nonce_ctr() + 1,
            match r {
                Ok(l) => l <= crate::MAX_PACKET_SIZE && open_of(
                    old(cipher).kind(),
                    old(cipher).sk(),
                    old(cipher).nonce_ctr(),
                    m@,
                ) == Some(len_bytes(l as nat)),
                Err(e) => match e {
                    ProtocolError::DecryptLengthError => open_of(
                        old(cipher).kind(),
                        old(cipher).sk(),
                        old(cipher).nonce_ctr(),
                        m@,
                    ) is None,
                    ProtocolError::DataTooLong(n) => n > crate::MAX_PACKET_SIZE && n <= 0xFFFF
                        && open_of(
                        old(cipher).kind(),
                        old(cipher).sk(),
                        old(cipher).nonce_ctr(),
                        m@,
                    ) == Some(len_bytes(n as nat)),
                    _ => false,
                },
            },
    {
        let pt = match cipher.decrypt(m) {
            None => {
                return Err(ProtocolError::DecryptLengthError);
            },
            Some(p) => p,
        };
        let plen: usize = (pt[0] as usize) * 256 + (pt[1] as usize);
        proof {
            lemma_decode_len_bytes(pt@);
            assert(plen == decode_len(pt@));
        }
        if plen > crate::MAX_PACKET_SIZE {
            return Err(ProtocolError::DataTooLong(plen));
        }
        Ok(plen)
    }
}

} // verus!
