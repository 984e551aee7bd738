//! The decoding pass: a model of it as a fold of a step function over the
//! buffer's blocks, and the executable decoder proved equal to that model.

use std::collections::HashMap;
use vstd::prelude::*;
use crate::block::{
    accepted, family_id, has_family, payload, payload_len, read_u32_le, target_addr, Uf2Error,
    BLOCK_SIZE, FLAG_FAMILY_ID_PRESENT, FLAG_NOT_MAIN_FLASH, HEADER_SIZE, MAGIC_START0,
    MAGIC_START1, MAX_PADDING, MAX_PAYLOAD,
};

verus! {

broadcast use vstd::std_specs::hash::group_hash_axioms;

/// What the decoder has accumulated after some prefix of the blocks.
pub struct DecodeState {
    /// The address the image has been filled up to; `None` before the first
    /// accepted block.
    pub addr: Option<int>,
    /// The family of the segment in progress.
    pub family: Option<u32>,
    /// The image built so far.
    pub image: Seq<u8>,
    /// For each family seen with the family flag, its lowest target address.
    pub families: Map<u32, usize>,
}

/// The state before any block.
pub open spec fn initial_state() -> DecodeState {
    DecodeState { addr: None, family: None, image: Seq::empty(), families: Map::empty() }
}

/// `n` zero bytes.
pub open spec fn zeros(n: nat) -> Seq<u8> {
    Seq::new(n, |i: int| 0u8)
}

/// Number of full 512-byte chunks in `buf`; a trailing partial chunk is ignored.
pub open spec fn block_count(buf: Seq<u8>) -> nat {
    buf.len() / BLOCK_SIZE as nat
}

/// The full 512-byte chunks of `buf`, in order.
pub open spec fn blocks_of(buf: Seq<u8>) -> Seq<Seq<u8>> {
    Seq::new(block_count(buf), |i: int| buf.subrange(512 * i, 512 * i + 512))
}

/// The family in force once a tagged block's family has been taken up where
/// none was set yet.
pub open spec fn family_before_segment_check(st: DecodeState, b: Seq<u8>) -> Option<u32> {
    if has_family(b) && st.family is None {
        Some(family_id(b))
    } else {
        st.family
    }
}

/// An accepted block opens a new segment: it is the first one, or it is tagged
/// with a family other than the one in progress.
pub open spec fn starts_segment(st: DecodeState, b: Seq<u8>) -> bool {
    st.addr is None || (has_family(b) && Some(family_id(b)) != family_before_segment_check(st, b))
}

/// The address a block's gap is measured from.
pub open spec fn gap_origin(st: DecodeState, b: Seq<u8>) -> int {
    if starts_segment(st, b) {
        target_addr(b) as int
    } else {
        st.addr.unwrap()
    }
}

/// The gap between the image so far and the block's target address.
pub open spec fn gap(st: DecodeState, b: Seq<u8>) -> int {
    target_addr(b) as int - gap_origin(st, b)
}

/// The family table after recording a tagged block.
pub open spec fn record_family(fams: Map<u32, usize>, b: Seq<u8>) -> Map<u32, usize> {
    if has_family(b) && (!fams.contains_key(family_id(b)) || fams[family_id(b)]
        > target_addr(b) as usize) {
        fams.insert(family_id(b), target_addr(b) as usize)
    } else {
        fams
    }
}

/// The state after a block that passed every check.
pub open spec fn advance(st: DecodeState, b: Seq<u8>) -> DecodeState {
    DecodeState {
        addr: Some(target_addr(b) as int + payload_len(b) as int),
        family: if starts_segment(st, b) {
            Some(family_id(b))
        } else {
            family_before_segment_check(st, b)
        },
        image: st.image + zeros(gap(st, b) as nat) + if has_family(b) {
            payload(b)
        } else {
            Seq::empty()
        },
        families: record_family(st.families, b),
    }
}

/// One block, number `idx` among the buffer's full chunks, applied to a state.
#[verifier::opaque]
pub open spec fn step(st: DecodeState, b: Seq<u8>, idx: nat) -> Result<DecodeState, Uf2Error> {
    if !accepted(b) {
        Ok(st)
    } else if payload_len(b) > MAX_PAYLOAD {
        Err(Uf2Error::InvalidDataSize(idx as usize))
    } else if gap(st, b) < 0 || gap(st, b) > MAX_PADDING {
        Err(Uf2Error::TooMuchPaddingRequired(idx as usize))
    } else if gap(st, b) % 4 != 0 {
        Err(Uf2Error::NonWordPaddingSize(idx as usize))
    } else {
        Ok(advance(st, b))
    }
}

/// The blocks applied in order, the first of them being number `idx`; the
/// first error ends the run.
pub open spec fn run(st: DecodeState, blocks: Seq<Seq<u8>>, idx: nat) -> Result<
    DecodeState,
    Uf2Error,
>
    decreases blocks.len(),
{
    if blocks.len() == 0 {
        Ok(st)
    } else {
        match step(st, blocks[0], idx) {
            Ok(next) => run(next, blocks.drop_first(), idx + 1),
            Err(e) => Err(e),
        }
    }
}

/// The decoder's final state on a whole buffer.
pub open spec fn decode_state(buf: Seq<u8>) -> Result<DecodeState, Uf2Error> {
    run(initial_state(), blocks_of(buf), 0)
}

/// What decoding a buffer yields: the image and the family table, or the
/// first error.
pub open spec fn decode(buf: Seq<u8>) -> Result<(Seq<u8>, Map<u32, usize>), Uf2Error> {
    match decode_state(buf) {
        Ok(st) => Ok((st.image, st.families)),
        Err(e) => Err(e),
    }
}

/// The model state that the decoder's local variables stand for.
pub open spec fn state_of(
    addr: Option<u64>,
    family: Option<u32>,
    image: Seq<u8>,
    families: Map<u32, usize>,
) -> DecodeState {
    DecodeState {
        addr: match addr {
            Some(a) => Some(a as int),
            None => None,
        },
        family,
        image,
        families,
    }
}

/// The decoder's running state: the address reached, the family of the segment
/// in progress, the image so far and the family table.
pub struct Decoder {
    curr_addr: Option<u64>,
    curr_family: Option<u32>,
    outp: Vec<u8>,
    families: HashMap<u32, usize>,
}

impl View for Decoder {
    type V = DecodeState;

    closed spec fn view(&self) -> DecodeState {
        state_of(self.curr_addr, self.curr_family, self.outp@, self.families@)
    }
}

/// Appends `n` zero bytes.
fn append_zeros(outp: &mut Vec<u8>, n: u64)
    ensures
        final(outp)@ == old(outp)@ + zeros(n as nat),
{
    let ghost before = outp@;
    let mut k: u64 = 0;
    while k < n
        invariant
            k <= n,
            outp@ == before + zeros(k as nat),
        decreases n - k,
    {
        outp.push(0u8);
        k = k + 1;
        assert(outp@ =~= before + zeros(k as nat));
    }
}

/// Appends `buf[start..start + len]`.
fn append_bytes(outp: &mut Vec<u8>, buf: &[u8], start: usize, len: usize)
    requires
        start + len <= buf@.len(),
    ensures
        final(outp)@ == old(outp)@ + buf@.subrange(start as int, start + len),
{
    let ghost before = outp@;
    let total: usize = buf.len();
    let mut j: usize = 0;
    while j < len
        invariant
            j <= len,
            start + len <= buf@.len(),
            total == buf@.len(),
            outp@ == before + buf@.subrange(start as int, start + j),
        decreases len - j,
    {
        outp.push(buf[start + j]);
        j = j + 1;
        assert(outp@ =~= before + buf@.subrange(start as int, start + j));
    }
}

impl Decoder {
    /// The address reached stays within what a 32-bit target plus a payload
    /// can reach.
    pub closed spec fn well_formed(&self) -> bool {
        match self.curr_addr {
            Some(a) => a <= u32::MAX as u64 + MAX_PAYLOAD as u64,
            None => true,
        }
    }

    /// A decoder that has seen no block.
    pub fn new() -> (d: Decoder)
        ensures
            d@ == initial_state(),
            d.well_formed(),
    {
        let d = Decoder {
            curr_addr: None,
            curr_family: None,
            outp: Vec::new(),
            families: HashMap::new(),
        };
        assert(d@ =~= initial_state());
        d
    }

    /// Records a tagged block's target address for its family, keeping the
    /// lowest one.
    fn note_family(&mut self, family: u32, addr: u32)
        ensures
            final(self).families@ == (if !old(self).families@.contains_key(family)
                || old(self).families@[family] > addr as usize {
                old(self).families@.insert(family, addr as usize)
            } else {
                old(self).families@
            }),
            final(self).curr_addr == old(self).curr_addr,
            final(self).curr_family == old(self).curr_family,
            final(self).outp@ == old(self).outp@,
    {
        let existing: Option<usize> = match self.families.get(&family) {
            Some(v) => Some(*v),
            None => None,
        };
        match existing {
            Some(v) => {
                if v > addr as usize {
                    self.families.insert(family, addr as usize);
                }
            },
            None => {
                self.families.insert(family, addr as usize);
            },
        }
    }

    /// Applies block number `index` of `buf`, which starts at byte `base`.
    pub fn feed_block(&mut self, buf: &[u8], base: usize, index: usize) -> (r: Result<(), Uf2Error>)
        requires
            old(self).well_formed(),
            base + BLOCK_SIZE <= buf@.len(),
        ensures
            final(self).well_formed(),
            match r {
                Ok(()) => step(old(self)@, buf@.subrange(base as int, base + 512), index as nat)
                    == Ok::<DecodeState, Uf2Error>(final(self)@),
                Err(e) => step(old(self)@, buf@.subrange(base as int, base + 512), index as nat)
                    == Err::<DecodeState, Uf2Error>(e),
            },
    {
        reveal(step);
        let ghost st = self@;
        let ghost b = buf@.subrange(base as int, base + 512);
        let total: usize = buf.len();
        let magic0 = read_u32_le(buf, base);
        let magic1 = read_u32_le(buf, base + 4);
        let flags = read_u32_le(buf, base + 8);
        let new_addr = read_u32_le(buf, base + 12);
        let data_len = read_u32_le(buf, base + 16);
        let family = read_u32_le(buf, base + 28);
        assert(magic0 == crate::block::magic0(b));
        assert(magic1 == crate::block::magic1(b));
        assert(flags == crate::block::flags(b));
        assert(new_addr == target_addr(b));
        assert(data_len == payload_len(b));
        assert(family == family_id(b));
        if magic0 != MAGIC_START0 || magic1 != MAGIC_START1 || flags & FLAG_NOT_MAIN_FLASH != 0 {
            return Ok(());
        }
        if data_len > MAX_PAYLOAD {
            return Err(Uf2Error::InvalidDataSize(index));
        }
        let tagged = flags & FLAG_FAMILY_ID_PRESENT != 0;
        if tagged && self.curr_family.is_none() {
            self.curr_family = Some(family);
        }
        let new_segment = match self.curr_addr {
            None => true,
            Some(_) => tagged && match self.curr_family {
                Some(f) => f != family,
                None => true,
            },
        };
        assert(new_segment == starts_segment(st, b));
        if new_segment {
            self.curr_family = Some(family);
            self.curr_addr = Some(new_addr as u64);
        }
        let origin: u64 = match self.curr_addr {
            Some(a) => a,
            None => new_addr as u64,
        };
        assert(origin == gap_origin(st, b));
        if (new_addr as u64) < origin || new_addr as u64 - origin > MAX_PADDING {
            return Err(Uf2Error::TooMuchPaddingRequired(index));
        }
        let padding: u64 = new_addr as u64 - origin;
        if padding % 4 != 0 {
            return Err(Uf2Error::NonWordPaddingSize(index));
        }
        append_zeros(&mut self.outp, padding);
        if tagged {
            append_bytes(&mut self.outp, buf, base + HEADER_SIZE, data_len as usize);
            assert(buf@.subrange(base + HEADER_SIZE, base + HEADER_SIZE + data_len) =~= payload(
                b,
            ));
        } else {
            assert(self.outp@ =~= self.outp@ + Seq::<u8>::empty());
        }
        self.curr_addr = Some(new_addr as u64 + data_len as u64);
        if tagged {
            self.note_family(family, new_addr);
        }
        assert(self@ =~= advance(st, b));
        Ok(())
    }

    /// Hands out the image and the family table.
    pub fn finish(self) -> (r: (Vec<u8>, HashMap<u32, usize>))
        ensures
            r.0@ == self@.image,
            r.1@ == self@.families,
    {
        (self.outp, self.families)
    }
}

/// Takes a UF2 buffer and returns the raw binary image, coupled with the
/// lowest target address of each family found.
pub fn convert_from_uf2(buf: &[u8]) -> (r: Result<(Vec<u8>, HashMap<u32, usize>), Uf2Error>)
    ensures
        match r {
            Ok((image, families)) => decode(buf@) == Ok::<(Seq<u8>, Map<u32, usize>), Uf2Error>(
                (image@, families@),
            ),
            Err(e) => decode(buf@) == Err::<(Seq<u8>, Map<u32, usize>), Uf2Error>(e),
        },
{
    let ghost blocks = blocks_of(buf@);
    let total: usize = buf.len();
    let n: usize = total / BLOCK_SIZE;
    let mut decoder = Decoder::new();
    let mut index: usize = 0;
    assert(blocks.subrange(0, n as int) =~= blocks);
    while index < n
        invariant
            n == block_count(buf@),
            total == buf@.len(),
            blocks == blocks_of(buf@),
            index <= n,
            decoder.well_formed(),
            decode_state(buf@) == run(
                decoder@,
                blocks.subrange(index as int, n as int),
                index as nat,
            ),
        decreases n - index,
    {
        assert(index * 512 + 512 <= total) by (nonlinear_arith)
            requires
                index < n,
                n == total / 512,
        ;
        let base: usize = index * BLOCK_SIZE;
        assert(blocks[index as int] == buf@.subrange(base as int, base + 512));
        assert(blocks.subrange(index as int, n as int).drop_first() =~= blocks.subrange(
            index + 1,
            n as int,
        ));
        match decoder.feed_block(buf, base, index) {
            Ok(()) => {},
            Err(e) => {
                return Err(e);
            },
        }
        index = index + 1;
    }
    assert(blocks.subrange(n as int, n as int) =~= Seq::<Seq<u8>>::empty());
    Ok(decoder.finish())
}

} // verus!
