//! Properties of decoding, stated over the model that `convert_from_uf2` is
//! proved to follow.

use vstd::prelude::*;
use crate::block::{
    accepted, family_id, has_family, magic_ok, payload, payload_len, target_addr, Uf2Error,
    MAX_PADDING, MAX_PAYLOAD,
};
use crate::decode::{
    advance, blocks_of, block_count, decode, decode_state, initial_state, run, step, zeros,
    DecodeState,
};

verus! {

/// The value decoding yields, or `None` where it fails.
pub open spec fn decoded(buf: Seq<u8>) -> Option<(Seq<u8>, Map<u32, usize>)> {
    match decode(buf) {
        Ok(v) => Some(v),
        Err(_) => None,
    }
}

/// The state a run ends in, or `None` where it fails.
pub open spec fn run_outcome(r: Result<DecodeState, Uf2Error>) -> Option<DecodeState> {
    match r {
        Ok(st) => Some(st),
        Err(_) => None,
    }
}

/// Chunking a buffer whose first part is a whole number of blocks chunks each
/// part on its own.
proof fn lemma_blocks_of_concat(p: Seq<u8>, s: Seq<u8>)
    requires
        p.len() % 512 == 0,
    ensures
        blocks_of(p + s) == blocks_of(p) + blocks_of(s),
{
    let np = p.len() / 512;
    assert(p.len() == 512 * np);
    assert((p + s).len() / 512 == np + s.len() / 512) by (nonlinear_arith)
        requires
            (p + s).len() == p.len() + s.len(),
            p.len() == 512 * np,
    ;
    let l = blocks_of(p + s);
    let r = blocks_of(p) + blocks_of(s);
    assert(l.len() == r.len());
    assert forall|i: int| 0 <= i < l.len() implies l[i] == r[i] by {
        if i < np {
            assert(512 * i + 512 <= p.len()) by (nonlinear_arith)
                requires
                    i < np,
                    p.len() == 512 * np,
            ;
            assert(l[i] =~= r[i]);
        } else {
            let k = i - np;
            assert(512 * i == p.len() + 512 * k) by (nonlinear_arith)
                requires
                    k == i - np,
                    p.len() == 512 * np,
            ;
            assert(512 * k + 512 <= s.len()) by (nonlinear_arith)
                requires
                    0 <= k,
                    k < s.len() / 512,
            ;
            assert(l[i] =~= r[i]);
        }
    }
    assert(l =~= r);
}

/// A single 512-byte buffer is one block.
proof fn lemma_blocks_of_one(b: Seq<u8>)
    requires
        b.len() == 512,
    ensures
        blocks_of(b) == seq![b],
{
    assert(blocks_of(b)[0] =~= b);
    assert(blocks_of(b) =~= seq![b]);
}

/// Running two sequences of blocks one after the other runs their
/// concatenation.
proof fn lemma_run_concat(st: DecodeState, a: Seq<Seq<u8>>, c: Seq<Seq<u8>>, idx: nat)
    ensures
        run(st, a + c, idx) == match run(st, a, idx) {
            Ok(mid) => run(mid, c, idx + a.len()),
            Err(e) => Err(e),
        },
    decreases a.len(),
{
    if a.len() == 0 {
        assert(a + c =~= c);
    } else {
        assert((a + c).drop_first() =~= a.drop_first() + c);
        assert((a + c)[0] == a[0]);
        match step(st, a[0], idx) {
            Ok(next) => {
                lemma_run_concat(next, a.drop_first(), c, idx + 1);
            },
            Err(_) => {},
        }
    }
}

/// Whether a run succeeds, and the state it ends in, do not depend on the
/// number given to its first block.
proof fn lemma_run_outcome_ignores_index(st: DecodeState, bs: Seq<Seq<u8>>, i: nat, j: nat)
    ensures
        run_outcome(run(st, bs, i)) == run_outcome(run(st, bs, j)),
    decreases bs.len(),
{
    reveal(step);
    if bs.len() > 0 {
        match step(st, bs[0], i) {
            Ok(next) => {
                lemma_run_outcome_ignores_index(next, bs.drop_first(), i + 1, j + 1);
            },
            Err(_) => {},
        }
    }
}

/// A run over blocks none of which is accepted leaves the state as it was.
proof fn lemma_run_all_skipped(st: DecodeState, bs: Seq<Seq<u8>>, idx: nat)
    requires
        forall|i: int| 0 <= i < bs.len() ==> !accepted(#[trigger] bs[i]),
    ensures
        run(st, bs, idx) == Ok::<DecodeState, Uf2Error>(st),
    decreases bs.len(),
{
    reveal(step);
    if bs.len() > 0 {
        assert(!accepted(bs[0]));
        let rest = bs.drop_first();
        assert forall|i: int| 0 <= i < rest.len() implies !accepted(#[trigger] rest[i]) by {
            assert(rest[i] == bs[i + 1]);
        }
        lemma_run_all_skipped(st, rest, idx + 1);
    }
}

/// Decoding a buffer followed by one more block applies that block to the
/// buffer's final state.
proof fn lemma_decode_one_more(p: Seq<u8>, b: Seq<u8>)
    requires
        p.len() % 512 == 0,
        b.len() == 512,
    ensures
        decode_state(p + b) == match decode_state(p) {
            Ok(st) => step(st, b, block_count(p)),
            Err(e) => Err(e),
        },
{
    lemma_blocks_of_concat(p, b);
    lemma_blocks_of_one(b);
    lemma_run_concat(initial_state(), blocks_of(p), seq![b], 0);
    assert(blocks_of(p).len() == block_count(p));
    match decode_state(p) {
        Ok(st) => {
            assert(seq![b][0] == b);
            match step(st, b, block_count(p)) {
                Ok(next) => {
                    assert(seq![b].drop_first() =~= Seq::<Seq<u8>>::empty());
                    assert(run(next, Seq::<Seq<u8>>::empty(), block_count(p) + 1) == Ok::<
                        DecodeState,
                        Uf2Error,
                    >(next));
                },
                Err(_) => {},
            }
        },
        Err(_) => {},
    }
}

/// A buffer shorter than one block, or one in which no block is accepted,
/// decodes to an empty image and an empty family table.
pub proof fn lemma_nothing_accepted_decodes_empty(buf: Seq<u8>)
    requires
        buf.len() < 512 || forall|i: int|
            0 <= i < block_count(buf) ==> !accepted(#[trigger] blocks_of(buf)[i]),
    ensures
        decode(buf) == Ok::<(Seq<u8>, Map<u32, usize>), Uf2Error>(
            (Seq::empty(), Map::empty()),
        ),
{
    lemma_run_all_skipped(initial_state(), blocks_of(buf), 0);
}

/// A block without both magic words is skipped: inserting it anywhere on a
/// block boundary changes neither whether decoding succeeds nor what it yields.
pub proof fn lemma_bad_magic_block_skipped(p: Seq<u8>, b: Seq<u8>, s: Seq<u8>)
    requires
        p.len() % 512 == 0,
        b.len() == 512,
        !magic_ok(b),
    ensures
        decoded(p + b + s) == decoded(p + s),
{
    reveal(step);
    lemma_blocks_of_concat(p, b);
    lemma_blocks_of_one(b);
    assert((p + b).len() % 512 == 0);
    lemma_blocks_of_concat(p + b, s);
    lemma_blocks_of_concat(p, s);
    let bp = blocks_of(p);
    let bs = blocks_of(s);
    let np = bp.len();
    assert(blocks_of(p + b + s) =~= bp + (seq![b] + bs));
    lemma_run_concat(initial_state(), bp, seq![b] + bs, 0);
    lemma_run_concat(initial_state(), bp, bs, 0);
    match run(initial_state(), bp, 0) {
        Ok(mid) => {
            assert((seq![b] + bs)[0] == b);
            assert((seq![b] + bs).drop_first() =~= bs);
            assert(step(mid, b, np) == Ok::<DecodeState, Uf2Error>(mid));
            lemma_run_outcome_ignores_index(mid, bs, np + 1, np);
        },
        Err(_) => {},
    }
}

/// Once decoding has reached an accepted block whose declared payload is over
/// 476 bytes, it fails with an invalid data size naming that block.
pub proof fn lemma_oversized_payload_fails(p: Seq<u8>, b: Seq<u8>, s: Seq<u8>)
    requires
        p.len() % 512 == 0,
        decode(p) is Ok,
        b.len() == 512,
        accepted(b),
        payload_len(b) > MAX_PAYLOAD,
    ensures
        decode(p + b + s) == Err::<(Seq<u8>, Map<u32, usize>), Uf2Error>(
            Uf2Error::InvalidDataSize(block_count(p) as usize),
        ),
{
    reveal(step);
    lemma_blocks_of_concat(p, b);
    lemma_blocks_of_one(b);
    assert((p + b).len() % 512 == 0);
    lemma_blocks_of_concat(p + b, s);
    lemma_run_concat(initial_state(), blocks_of(p), seq![b], 0);
    lemma_run_concat(initial_state(), blocks_of(p + b), blocks_of(s), 0);
}

/// Two consecutive accepted blocks of one family, the second starting `pad`
/// bytes after the end of the first, with `pad` a multiple of 4 of at most
/// 10 MiB: the image holds the first payload, then exactly `pad` zero bytes,
/// then the second payload.
pub proof fn lemma_gap_is_zero_filled(p: Seq<u8>, b1: Seq<u8>, b2: Seq<u8>, pad: nat)
    requires
        p.len() % 512 == 0,
        b1.len() == 512,
        b2.len() == 512,
        accepted(b1),
        accepted(b2),
        has_family(b1),
        has_family(b2),
        family_id(b1) == family_id(b2),
        payload_len(b1) <= MAX_PAYLOAD,
        payload_len(b2) <= MAX_PAYLOAD,
        pad % 4 == 0,
        pad <= MAX_PADDING,
        target_addr(b2) == target_addr(b1) + pad + payload_len(b1),
        decode(p + b1) is Ok,
    ensures
        decode(p + b1 + b2) is Ok,
        ({
            let first = decode(p + b1)->Ok_0.0;
            let both = decode(p + b1 + b2)->Ok_0.0;
            &&& first.subrange(first.len() - payload_len(b1), first.len() as int) == payload(b1)
            &&& both == first + zeros(pad) + payload(b2)
        }),
{
    reveal(step);
    lemma_decode_one_more(p, b1);
    assert((p + b1).len() % 512 == 0);
    lemma_decode_one_more(p + b1, b2);
    let st0 = decode_state(p)->Ok_0;
    let st1 = decode_state(p + b1)->Ok_0;
    assert(st1 == advance(st0, b1));
    assert(st1.family == Some(family_id(b1)));
    let first = st1.image;
    let len1 = payload_len(b1) as int;
    assert(first.subrange(first.len() - len1, first.len() as int) =~= payload(b1));
    assert(step(st1, b2, block_count(p + b1)) == Ok::<DecodeState, Uf2Error>(advance(st1, b2)));
}

/// The blocks laid end to end as one buffer.
pub open spec fn concat_blocks(bs: Seq<Seq<u8>>) -> Seq<u8>
    decreases bs.len(),
{
    if bs.len() == 0 {
        Seq::empty()
    } else {
        concat_blocks(bs.drop_last()) + bs.last()
    }
}

/// The blocks' payloads laid end to end.
pub open spec fn concat_payloads(bs: Seq<Seq<u8>>) -> Seq<u8>
    decreases bs.len(),
{
    if bs.len() == 0 {
        Seq::empty()
    } else {
        concat_payloads(bs.drop_last()) + payload(bs.last())
    }
}

/// The blocks form one contiguous image of family `family` starting at
/// `base`: each is an accepted, family-tagged block of that family whose
/// target address is where the payloads before it end.
pub open spec fn contiguous_single_family(bs: Seq<Seq<u8>>, family: u32, base: u32) -> bool {
    forall|k: int|
        0 <= k < bs.len() ==> {
            &&& (#[trigger] bs[k]).len() == 512
            &&& accepted(bs[k])
            &&& has_family(bs[k])
            &&& family_id(bs[k]) == family
            &&& payload_len(bs[k]) <= MAX_PAYLOAD
            &&& target_addr(bs[k]) == base + concat_payloads(bs.take(k)).len()
        }
}

proof fn lemma_concat_blocks_len(bs: Seq<Seq<u8>>)
    requires
        forall|k: int| 0 <= k < bs.len() ==> (#[trigger] bs[k]).len() == 512,
    ensures
        concat_blocks(bs).len() == 512 * bs.len(),
    decreases bs.len(),
{
    if bs.len() > 0 {
        let front = bs.drop_last();
        assert forall|k: int| 0 <= k < front.len() implies (#[trigger] front[k]).len() == 512 by {
            assert(front[k] == bs[k]);
        }
        lemma_concat_blocks_len(front);
    }
}

/// The state that a contiguous image of `family` starting at `base` has
/// reached once `image` is decoded.
pub open spec fn contiguous_state(image: Seq<u8>, family: u32, base: u32) -> DecodeState {
    DecodeState {
        addr: Some(base + image.len()),
        family: Some(family),
        image,
        families: map![family => base as usize],
    }
}

/// An accepted block of one family, tagged, with a payload of at most 476
/// bytes.
pub open spec fn plain_block_of(b: Seq<u8>, family: u32) -> bool {
    &&& b.len() == 512
    &&& accepted(b)
    &&& has_family(b)
    &&& family_id(b) == family
    &&& payload_len(b) <= MAX_PAYLOAD
}

proof fn lemma_first_block(b: Seq<u8>, idx: nat, family: u32)
    requires
        plain_block_of(b, family),
    ensures
        step(initial_state(), b, idx) == Ok::<DecodeState, Uf2Error>(
            contiguous_state(payload(b), family, target_addr(b)),
        ),
{
    reveal(step);
    let st = advance(initial_state(), b);
    assert(st.image =~= payload(b));
    assert(st.families =~= map![family => target_addr(b) as usize]);
}

proof fn lemma_next_block(image: Seq<u8>, b: Seq<u8>, idx: nat, family: u32, base: u32)
    requires
        plain_block_of(b, family),
        target_addr(b) == base + image.len(),
    ensures
        step(contiguous_state(image, family, base), b, idx) == Ok::<DecodeState, Uf2Error>(
            contiguous_state(image + payload(b), family, base),
        ),
{
    reveal(step);
    let st0 = contiguous_state(image, family, base);
    assert(!crate::decode::starts_segment(st0, b));
    let st = advance(st0, b);
    assert(st.image =~= image + payload(b));
    assert(st.families =~= map![family => base as usize]);
}

/// The state after decoding a non-empty contiguous single-family stream.
proof fn lemma_contiguous_state(bs: Seq<Seq<u8>>, family: u32, base: u32)
    requires
        bs.len() > 0,
        contiguous_single_family(bs, family, base),
    ensures
        decode_state(concat_blocks(bs)) == Ok::<DecodeState, Uf2Error>(
            contiguous_state(concat_payloads(bs), family, base),
        ),
    decreases bs.len(),
{
    let n = bs.len();
    let front = bs.drop_last();
    let b = bs.last();
    assert(bs[n - 1] == b);
    assert(plain_block_of(b, family));
    assert(bs.take(n - 1) =~= front);
    assert forall|k: int| 0 <= k < front.len() implies (#[trigger] front[k]).len() == 512 by {
        assert(front[k] == bs[k]);
    }
    lemma_concat_blocks_len(front);
    lemma_decode_one_more(concat_blocks(front), b);
    if n == 1 {
        assert(front =~= Seq::<Seq<u8>>::empty());
        assert(blocks_of(Seq::<u8>::empty()) =~= Seq::<Seq<u8>>::empty());
        assert(decode_state(Seq::<u8>::empty()) == Ok::<DecodeState, Uf2Error>(initial_state()));
        assert(concat_payloads(front) =~= Seq::<u8>::empty());
        assert(concat_payloads(bs) =~= payload(b));
        lemma_first_block(b, 0, family);
    } else {
        assert forall|k: int| 0 <= k < front.len() implies {
            &&& (#[trigger] front[k]).len() == 512
            &&& accepted(front[k])
            &&& has_family(front[k])
            &&& family_id(front[k]) == family
            &&& payload_len(front[k]) <= MAX_PAYLOAD
            &&& target_addr(front[k]) == base + concat_payloads(front.take(k)).len()
        } by {
            assert(front[k] == bs[k]);
            assert(front.take(k) =~= bs.take(k));
        }
        lemma_contiguous_state(front, family, base);
        lemma_next_block(concat_payloads(front), b, block_count(concat_blocks(front)), family, base);
    }
}

/// A contiguous image of one family, starting at `base` and cut into
/// accepted blocks of that family laid end to end, decodes to exactly that
/// image, with one family entry mapping the family to `base`.
pub proof fn lemma_contiguous_stream_round_trips(bs: Seq<Seq<u8>>, family: u32, base: u32)
    requires
        bs.len() > 0,
        contiguous_single_family(bs, family, base),
    ensures
        decode(concat_blocks(bs)) == Ok::<(Seq<u8>, Map<u32, usize>), Uf2Error>(
            (concat_payloads(bs), map![family => base as usize]),
        ),
{
    lemma_contiguous_state(bs, family, base);
}

/// Decoding is a function of the bytes alone: equal buffers decode alike.
pub proof fn lemma_decode_deterministic(a: Seq<u8>, b: Seq<u8>)
    requires
        a == b,
    ensures
        decode(a) == decode(b),
{
}

} // verus!
