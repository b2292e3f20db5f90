use vstd::prelude::*;

verus! {

/// Outcome of one non-blocking step: either a value, or "no progress was
/// possible; try again once the transport can move".
pub enum Poll<T> {
    Ready(T),
    Pending,
}

/// The receive side of a non-blocking byte stream, as plain values: the bytes
/// that have arrived and not yet been taken, and whether the peer has closed.
/// A driver appends freshly received bytes with `feed` and marks the close
/// with `close`; the framer only ever takes bytes from the front.
pub struct SourceBuf {
    data: Vec<u8>,
    pos: usize,
    eof: bool,
}

impl SourceBuf {
    pub closed spec fn wf(self) -> bool {
        self.pos <= self.data@.len()
    }

    /// The bytes available to read, oldest first.
    pub closed spec fn avail(self) -> Seq<u8> {
        self.data@.skip(self.pos as int)
    }

    /// Whether the peer has closed its sending half.
    pub closed spec fn spec_eof(self) -> bool {
        self.eof
    }

    pub fn new() -> (r: SourceBuf)
        ensures
            r.wf(),
            r.avail() == Seq::<u8>::empty(),
            !r.spec_eof(),
    {
        let r = SourceBuf { data: Vec::new(), pos: 0, eof: false };
        proof {
            assert(r.avail() =~= Seq::<u8>::empty());
        }
        r
    }

    /// Append bytes that arrived from the peer. Bytes already taken are
    /// compacted away first, so the backing store holds only `avail()`.
    pub fn feed(&mut self, bytes: &[u8])
        requires
            old(self).wf(),
            old(self).avail().len() + bytes@.len() <= usize::MAX,
        ensures
            final(self).wf(),
            final(self).avail() == old(self).avail() + bytes@,
            final(self).spec_eof() == old(self).spec_eof(),
    {
        let mut nd: Vec<u8> = Vec::new();
        let mut j: usize = self.pos;
        while j < self.data.len()
            invariant
                self.wf(),
                self == old(self),
                self.pos <= j <= self.data@.len(),
                nd@ == self.avail().take(j - self.pos),
            decreases self.data@.len() - j,
        {
            nd.push(self.data[j]);
            j = j + 1;
            proof {
                assert(self.avail().take(j - self.pos) =~= self.avail().take(
                    j - 1 - self.pos,
                ) + seq![self.avail()[j - 1 - self.pos]]);
            }
        }
        proof {
            assert(nd@ =~= old(self).avail());
        }
        let mut i: usize = 0;
        while i < bytes.len()
            invariant
                i <= bytes@.len(),
                nd@.len() <= usize::MAX - (bytes@.len() - i),
                nd@ == old(self).avail() + bytes@.take(i as int),
            decreases bytes@.len() - i,
        {
            nd.push(bytes[i]);
            i = i + 1;
            proof {
                assert(bytes@.take(i as int) =~= bytes@.take(i - 1) + seq![bytes@[i - 1]]);
                assert(nd@ =~= old(self).avail() + bytes@.take(i as int));
            }
        }
        self.data = nd;
        self.pos = 0;
        proof {
            assert(bytes@.take(bytes@.len() as int) =~= bytes@);
            assert(self.avail() =~= old(self).avail() + bytes@);
        }
    }

    /// Record that the peer closed its sending half.
    pub fn close(&mut self)
        requires
            old(self).wf(),
        ensures
            final(self).wf(),
            final(self).avail() == old(self).avail(),
            final(self).spec_eof(),
    {
        self.eof = true;
    }

    pub fn is_eof(&self) -> (r: bool)
        ensures
            r == self.spec_eof(),
    {
        self.eof
    }

    /// Take up to `want` bytes from the front of the available bytes and
    /// append them to `dst`: one non-blocking read of the model transport.
    pub fn read_into(&mut self, dst: &mut Vec<u8>, want: usize) -> (n: usize)
        requires
            old(self).wf(),
            old(dst)@.len() + want <= usize::MAX,
        ensures
            final(self).wf(),
            final(self).spec_eof() == old(self).spec_eof(),
            n == if want <= old(self).avail().len() { want as int } else { old(self).avail().len() as int },
            final(self).avail() == old(self).avail().skip(n as int),
            final(dst)@ == old(dst)@ + old(self).avail().take(n as int),
    {
        let dlen: usize = self.data.len();
        let have = dlen - self.pos;
        let n = if want <= have { want } else { have };
        let mut i: usize = 0;
        while i < n
            invariant
                self.wf(),
                i <= n,
                dlen == self.data@.len(),
                self.pos + (n - i) <= dlen,
                self.data@ == old(self).data@,
                self.eof == old(self).eof,
                self.pos == old(self).pos + i,
                dst@ == old(dst)@ + old(self).avail().take(i as int),
            decreases n - i,
        {
            let b = self.data[self.pos];
            dst.push(b);
            self.pos = self.pos + 1;
            i = i + 1;
            proof {
                assert(old(self).avail().take(i as int) =~= old(self).avail().take(i - 1) + seq![
                    old(self).avail()[i - 1],
                ]);
                assert(dst@ =~= old(dst)@ + old(self).avail().take(i as int));
            }
        }
        proof {
            assert(self.avail() =~= old(self).avail().skip(n as int));
        }
        n
    }
}

/// A fresh vector holding the same bytes as `bytes`.
pub fn copy_bytes(bytes: &[u8]) -> (r: Vec<u8>)
    ensures
        r@ == bytes@,
{
    let mut r: Vec<u8> = Vec::new();
    let mut i: usize = 0;
    while i < bytes.len()
        invariant
            i <= bytes@.len(),
            r@ == bytes@.take(i as int),
        decreases bytes@.len() - i,
    {
        r.push(bytes[i]);
        i = i + 1;
        proof {
            assert(bytes@.take(i as int) =~= bytes@.take(i - 1) + seq![bytes@[i - 1]]);
        }
    }
    proof {
        assert(bytes@.take(bytes@.len() as int) =~= bytes@);
    }
    r
}

/// The send side of a non-blocking byte stream, as plain values: every byte
/// the transport has accepted so far, how many more it will accept before
/// reporting "pending", and whether it has been closed. A driver raises the
/// budget with `allow` as the peer drains data.
pub struct SinkBuf {
    data: Vec<u8>,
    budget: usize,
    closed: bool,
}

impl SinkBuf {
    /// All bytes the transport has accepted, oldest first.
    pub closed spec fn sent(self) -> Seq<u8> {
        self.data@
    }

    /// How many more bytes the transport will accept before "pending".
    pub closed spec fn spec_budget(self) -> usize {
        self.budget
    }

    pub closed spec fn spec_closed(self) -> bool {
        self.closed
    }

    pub fn new(budget: usize) -> (r: SinkBuf)
        ensures
            r.sent() == Seq::<u8>::empty(),
            r.spec_budget() == budget,
            !r.spec_closed(),
    {
        let r = SinkBuf { data: Vec::new(), budget, closed: false };
        proof {
            assert(r.sent() =~= Seq::<u8>::empty());
        }
        r
    }

    /// Let the transport accept `n` more bytes.
    pub fn allow(&mut self, n: usize)
        requires
            old(self).spec_budget() + n <= usize::MAX,
        ensures
            final(self).sent() == old(self).sent(),
            final(self).spec_budget() == old(self).spec_budget() + n,
            final(self).spec_closed() == old(self).spec_closed(),
    {
        self.budget = self.budget + n;
    }

    /// Record that the transport can take nothing further.
    pub fn close(&mut self)
        ensures
            final(self).sent() == old(self).sent(),
            final(self).spec_budget() == old(self).spec_budget(),
            final(self).spec_closed(),
    {
        self.closed = true;
    }

    pub fn sent_bytes(&self) -> (r: &Vec<u8>)
        ensures
            r@ == self.sent(),
    {
        &self.data
    }

    /// Offer the bytes `src[from..]`: one non-blocking write of the model
    /// transport. A closed transport accepts zero bytes; an open one with no
    /// budget is pending; otherwise it accepts as much as the budget allows.
    pub fn write_from(&mut self, src: &Vec<u8>, from: usize) -> (r: Poll<usize>)
        requires
            from < src@.len(),
            old(self).sent().len() + src@.len() <= usize::MAX,
        ensures
            final(self).spec_closed() == old(self).spec_closed(),
            match r {
                Poll::Ready(n) => {
                    if old(self).spec_closed() {
                        &&& n == 0
                        &&& *final(self) == *old(self)
                    } else {
                        &&& n == (if old(self).spec_budget() <= src@.len() - from {
                            old(self).spec_budget() as int
                        } else {
                            src@.len() - from
                        })
                        &&& n > 0
                        &&& final(self).sent() == old(self).sent() + src@.subrange(
                            from as int,
                            from + n,
                        )
                        &&& final(self).spec_budget() == old(self).spec_budget() - n
                    }
                },
                Poll::Pending => {
                    &&& !old(self).spec_closed()
                    &&& old(self).spec_budget() == 0
                    &&& *final(self) == *old(self)
                },
            },
    {
        if self.closed {
            return Poll::Ready(0);
        }
        if self.budget == 0 {
            return Poll::Pending;
        }
        let slen: usize = src.len();
        let rem = slen - from;
        let n = if self.budget <= rem { self.budget } else { rem };
        let mut i: usize = 0;
        while i < n
            invariant
                i <= n,
                slen == src@.len(),
                from + n <= slen,
                self.data@.len() <= usize::MAX - (n - i),
                self.budget == old(self).budget,
                self.closed == old(self).closed,
                self.data@ == old(self).data@ + src@.subrange(from as int, from + i),
            decreases n - i,
        {
            self.data.push(src[from + i]);
            i = i + 1;
            proof {
                assert(src@.subrange(from as int, from + i) =~= src@.subrange(
                    from as int,
                    from + i - 1,
                ) + seq![src@[from + i - 1]]);
                assert(self.data@ =~= old(self).data@ + src@.subrange(from as int, from + i));
            }
        }
        self.budget = self.budget - n;
        Poll::Ready(n)
    }
}

/// The consumer's output buffer: delivered plaintext plus a fixed capacity,
/// the model of a caller-supplied read buffer.
pub struct ReadBuf {
    data: Vec<u8>,
    cap: usize,
}

impl ReadBuf {
    pub closed spec fn wf(self) -> bool {
        self.data@.len() <= self.cap
    }

    /// The plaintext delivered so far.
    pub closed spec fn filled(self) -> Seq<u8> {
        self.data@
    }

    pub closed spec fn spec_cap(self) -> usize {
        self.cap
    }

    /// Room left for further plaintext.
    pub open spec fn remaining(self) -> int {
        self.spec_cap() - self.filled().len()
    }

    pub fn with_capacity(cap: usize) -> (r: ReadBuf)
        ensures
            r.wf(),
            r.filled() == Seq::<u8>::empty(),
            r.spec_cap() == cap,
    {
        let r = ReadBuf { data: Vec::new(), cap };
        proof {
            assert(r.filled() =~= Seq::<u8>::empty());
        }
        r
    }

    pub fn remaining_len(&self) -> (r: usize)
        requires
            self.wf(),
        ensures
            r == self.remaining(),
    {
        self.cap - self.data.len()
    }

    pub fn filled_bytes(&self) -> (r: &Vec<u8>)
        ensures
            r@ == self.filled(),
    {
        &self.data
    }

    pub fn filled_len(&self) -> (r: usize)
        ensures
            r == self.filled().len(),
    {
        self.data.len()
    }

    /// Hand the delivered plaintext over, consuming the buffer.
    pub fn into_vec(self) -> (r: Vec<u8>)
        ensures
            r@ == self.filled(),
    {
        self.data
    }

    /// Append `count` bytes of `src` starting at `from`.
    pub fn put_from(&mut self, src: &Vec<u8>, from: usize, count: usize)
        requires
            old(self).wf(),
            from + count <= src@.len(),
            count <= old(self).remaining(),
        ensures
            final(self).wf(),
            final(self).spec_cap() == old(self).spec_cap(),
            final(self).filled() == old(self).filled() + src@.subrange(from as int, from + count),
    {
        let slen: usize = src.len();
        let mut i: usize = 0;
        while i < count
            invariant
                self.cap == old(self).cap,
                i <= count,
                slen == src@.len(),
                from + count <= slen,
                self.data@.len() + count - i <= self.cap,
                self.data@ == old(self).data@ + src@.subrange(from as int, from + i),
            decreases count - i,
        {
            self.data.push(src[from + i]);
            i = i + 1;
            proof {
                assert(src@.subrange(from as int, from + i) =~= src@.subrange(
                    from as int,
                    from + i - 1,
                ) + seq![src@[from + i - 1]]);
                assert(self.data@ =~= old(self).data@ + src@.subrange(from as int, from + i));
            }
        }
    }
}

} // verus!
