use vstd::prelude::*;

use crate::crypto::{open_of, seal_of, CipherKind};

verus! {

/// The two bytes of a frame's length field: the payload length, big-endian.
pub open spec fn len_bytes(l: nat) -> Seq<u8> {
    seq![((l / 256) as u8), ((l % 256) as u8)]
}

/// The payload length a two-byte length field decodes to, big-endian.
pub open spec fn decode_len(s: Seq<u8>) -> nat {
    (s[0] as nat) * 256 + (s[1] as nat)
}

pub proof fn lemma_len_bytes_decode(l: nat)
    requires
        l <= 0xFFFF,
    ensures
        len_bytes(l).len() == 2,
        decode_len(len_bytes(l)) == l,
{
    assert(l / 256 <= 255 && l % 256 <= 255 && (l / 256) * 256 + l % 256 == l)
        by (nonlinear_arith)
        requires
            l <= 0xFFFF,
    ;
}

pub proof fn lemma_decode_len_bytes(s: Seq<u8>)
    requires
        s.len() == 2,
    ensures
        decode_len(s) <= 0xFFFF,
        len_bytes(decode_len(s)) == s,
{
    let a = s[0] as nat;
    let b = s[1] as nat;
    assert((a * 256 + b) / 256 == a && (a * 256 + b) % 256 == b && a * 256 + b <= 0xFFFF)
        by (nonlinear_arith)
        requires
            a <= 255 && b <= 255,
    ;
    assert(len_bytes(decode_len(s)) =~= s);
}

/// One frame on the wire: the sealed two-byte length field at counter `ctr`,
/// then the sealed payload at counter `ctr + 1`.
pub open spec fn frame_of(kind: CipherKind, sk: Seq<u8>, ctr: u64, p: Seq<u8>) -> Seq<u8> {
    seal_of(kind, sk, ctr, len_bytes(p.len())) + seal_of(kind, sk, ((ctr + 1) as u64), p)
}

/// The wire bytes of a run of frames, counters advancing by two per frame.
pub open spec fn frames_of(kind: CipherKind, sk: Seq<u8>, ctr: u64, ps: Seq<Seq<u8>>) -> Seq<u8>
    decreases ps.len(),
{
    if ps.len() == 0 {
        Seq::<u8>::empty()
    } else {
        frame_of(kind, sk, ctr, ps[0]) + frames_of(kind, sk, ((ctr + 2) as u64), ps.skip(1))
    }
}

/// What the two trusted seal calls of one frame guarantee: segment lengths,
/// and that opening each sealed segment gives back what was sealed.
pub open spec fn frame_facts(kind: CipherKind, sk: Seq<u8>, ctr: u64, p: Seq<u8>) -> bool {
    &&& p.len() <= crate::MAX_PACKET_SIZE
    &&& seal_of(kind, sk, ctr, len_bytes(p.len())).len() == 2 + kind.spec_tag_len()
    &&& open_of(kind, sk, ctr, seal_of(kind, sk, ctr, len_bytes(p.len()))) == Some(
        len_bytes(p.len()),
    )
    &&& seal_of(kind, sk, ((ctr + 1) as u64), p).len() == p.len() + kind.spec_tag_len()
    &&& open_of(kind, sk, ((ctr + 1) as u64), seal_of(kind, sk, ((ctr + 1) as u64), p)) == Some(p)
}

/// `frame_facts` for every frame of a run starting at counter `c0`, frame `i`
/// at counter `c0 + 2 * i`.
pub open spec fn seal_facts(kind: CipherKind, sk: Seq<u8>, c0: u64, ps: Seq<Seq<u8>>) -> bool {
    forall|i: int|
        0 <= i < ps.len() ==> frame_facts(kind, sk, ((c0 + 2 * i) as u64), #[trigger] ps[i])
}

/// What the receiver knows of the `i`-th cipher segment it completed: even
/// positions are sealed length fields, odd positions sealed payloads; segment
/// `i` was opened at counter `c0 + i`.
pub open spec fn seg_fact(kind: CipherKind, sk: Seq<u8>, c0: u64, segs: Seq<Seq<u8>>, i: int) -> bool {
    if i % 2 == 0 {
        &&& segs[i].len() == 2 + kind.spec_tag_len()
        &&& open_of(kind, sk, ((c0 + i) as u64), segs[i]) is Some
        &&& open_of(kind, sk, ((c0 + i) as u64), segs[i]).unwrap().len() == 2
        &&& decode_len(open_of(kind, sk, ((c0 + i) as u64), segs[i]).unwrap())
            <= crate::MAX_PACKET_SIZE
        &&& i + 1 < segs.len() ==> segs[i + 1].len() == decode_len(
            open_of(kind, sk, ((c0 + i) as u64), segs[i]).unwrap(),
        ) + kind.spec_tag_len()
    } else {
        &&& segs[i].len() >= kind.spec_tag_len()
        &&& open_of(kind, sk, ((c0 + i) as u64), segs[i]) is Some
        &&& open_of(kind, sk, ((c0 + i) as u64), segs[i]).unwrap().len() == segs[i].len()
            - kind.spec_tag_len()
    }
}

/// `seg_fact` for every completed segment of a receive stream.
pub open spec fn segs_wf(kind: CipherKind, sk: Seq<u8>, c0: u64, segs: Seq<Seq<u8>>) -> bool {
    forall|i: int| 0 <= i < segs.len() ==> #[trigger] seg_fact(kind, sk, c0, segs, i)
}

/// The plaintext a run of completed segments carries: what the odd (payload)
/// segments opened to, in order.
pub open spec fn segs_payload(kind: CipherKind, sk: Seq<u8>, c0: u64, segs: Seq<Seq<u8>>) -> Seq<
    u8,
>
    decreases segs.len(),
{
    if segs.len() < 2 {
        Seq::<u8>::empty()
    } else {
        open_of(kind, sk, ((c0 + 1) as u64), segs[1]).unwrap() + segs_payload(
            kind,
            sk,
            ((c0 + 2) as u64),
            segs.skip(2),
        )
    }
}

pub proof fn lemma_payload_push2(
    kind: CipherKind,
    sk: Seq<u8>,
    c0: u64,
    segs: Seq<Seq<u8>>,
    l: Seq<u8>,
    d: Seq<u8>,
)
    requires
        segs.len() % 2 == 0,
        c0 + segs.len() + 2 <= u64::MAX,
    ensures
        segs_payload(kind, sk, c0, segs.push(l).push(d)) == segs_payload(kind, sk, c0, segs)
            + open_of(kind, sk, ((c0 + segs.len() + 1) as u64), d).unwrap(),
    decreases segs.len(),
{
    let two = segs.push(l).push(d);
    if segs.len() == 0 {
        assert(two.len() == 2);
        assert(two[1] == d);
        assert(two.skip(2) =~= Seq::<Seq<u8>>::empty());
        assert(segs_payload(kind, sk, ((c0 + 2) as u64), two.skip(2)) == Seq::<u8>::empty());
        assert(segs_payload(kind, sk, c0, two) =~= segs_payload(kind, sk, c0, segs) + open_of(
            kind,
            sk,
            ((c0 + 1) as u64),
            d,
        ).unwrap());
    } else {
        assert(two.skip(2) =~= segs.skip(2).push(l).push(d));
        lemma_payload_push2(kind, sk, ((c0 + 2) as u64), segs.skip(2), l, d);
        assert(two[1] == segs[1]);
        assert(((c0 + 2) as u64) + segs.skip(2).len() + 1 == c0 + segs.len() + 1);
        assert(segs_payload(kind, sk, c0, two) =~= (open_of(
            kind,
            sk,
            ((c0 + 1) as u64),
            segs[1],
        ).unwrap() + segs_payload(kind, sk, ((c0 + 2) as u64), segs.skip(2))) + open_of(
            kind,
            sk,
            ((c0 + segs.len() + 1) as u64),
            d,
        ).unwrap());
    }
}

pub proof fn lemma_frames_push(kind: CipherKind, sk: Seq<u8>, ctr: u64, ps: Seq<Seq<u8>>, p: Seq<
    u8,
>)
    requires
        ctr + 2 * ps.len() + 2 <= u64::MAX,
    ensures
        frames_of(kind, sk, ctr, ps.push(p)) == frames_of(kind, sk, ctr, ps) + frame_of(
            kind,
            sk,
            ((ctr + 2 * ps.len()) as u64),
            p,
        ),
    decreases ps.len(),
{
    if ps.len() == 0 {
        assert(ps.push(p).skip(1) =~= Seq::<Seq<u8>>::empty());
        assert(ps.push(p)[0] == p);
        assert(frames_of(kind, sk, ((ctr + 2) as u64), ps.push(p).skip(1))
            == Seq::<u8>::empty());
        assert(frames_of(kind, sk, ctr, ps.push(p)) == frame_of(kind, sk, ctr, p) + Seq::<
            u8,
        >::empty());
        assert(frame_of(kind, sk, ctr, p) + Seq::<u8>::empty() =~= frame_of(kind, sk, ctr, p));
        assert(frames_of(kind, sk, ctr, ps) == Seq::<u8>::empty());
        assert(Seq::<u8>::empty() + frame_of(kind, sk, ((ctr + 2 * ps.len()) as u64), p)
            =~= frame_of(kind, sk, ((ctr + 2 * ps.len()) as u64), p));
        assert(((ctr + 2 * ps.len()) as u64) == ctr);
    } else {
        assert(ps.push(p).skip(1) =~= ps.skip(1).push(p));
        lemma_frames_push(kind, sk, ((ctr + 2) as u64), ps.skip(1), p);
        assert(((ctr + 2) as u64) + 2 * ps.skip(1).len() == ctr + 2 * ps.len());
        assert(frames_of(kind, sk, ((ctr + 2) as u64), ps.skip(1).push(p)) == frames_of(
            kind,
            sk,
            ((ctr + 2) as u64),
            ps.skip(1),
        ) + frame_of(kind, sk, ((ctr + 2 * ps.len()) as u64), p));
        assert(frames_of(kind, sk, ctr, ps.push(p)) == frame_of(kind, sk, ctr, ps[0]) + (frames_of(
            kind,
            sk,
            ((ctr + 2) as u64),
            ps.skip(1),
        ) + frame_of(kind, sk, ((ctr + 2 * ps.len()) as u64), p)));
        assert(frames_of(kind, sk, ctr, ps.push(p)) =~= (frame_of(kind, sk, ctr, ps[0])
            + frames_of(kind, sk, ((ctr + 2) as u64), ps.skip(1))) + frame_of(
            kind,
            sk,
            ((ctr + 2 * ps.len()) as u64),
            p,
        ));
    }
}

} // verus!
