//! Length-prefixed sub-blocks: each is one length byte followed by that many
//! bytes, and a zero length ends the chain.

use vstd::prelude::*;

use crate::error::{eof, DecodeError};
use crate::reader::Reader;

verus! {

/// The chain of sub-blocks that starts at `pos`, and the position behind its
/// terminator. Nothing where the input ends before the terminator.
pub open spec fn sub_blocks(data: Seq<u8>, pos: int) -> Option<(Seq<Seq<u8>>, int)>
    decreases data.len() - pos,
{
    if pos < 0 || pos >= data.len() {
        None
    } else if data[pos] == 0 {
        Some((Seq::empty(), pos + 1))
    } else if pos + 1 + data[pos] > data.len() {
        None
    } else {
        match sub_blocks(data, pos + 1 + data[pos]) {
            None => None,
            Some((rest, end)) => Some(
                (seq![data.subrange(pos + 1, pos + 1 + data[pos])] + rest, end),
            ),
        }
    }
}

/// A chain ends behind the place it starts at, and within the input.
pub proof fn lemma_sub_blocks_end(data: Seq<u8>, pos: int)
    ensures
        sub_blocks(data, pos) matches Some((_, end)) ==> pos < end <= data.len(),
    decreases data.len() - pos,
{
    if 0 <= pos < data.len() && data[pos] != 0 && pos + 1 + data[pos] <= data.len() {
        lemma_sub_blocks_end(data, pos + 1 + data[pos]);
    }
}

/// A chain that is cut short has no end: of an input that holds a whole
/// chain, no prefix that stops before the end of the chain holds one.
pub proof fn lemma_truncated_chain(data: Seq<u8>, pos: int, cut: int)
    requires
        sub_blocks(data, pos) matches Some((_, end)) && pos <= cut < end,
    ensures
        sub_blocks(data.take(cut), pos).is_none(),
    decreases data.len() - pos,
{
    lemma_sub_blocks_end(data, pos);
    let short = data.take(cut);
    if pos < cut && data[pos] != 0 && pos + 1 + data[pos] <= cut {
        lemma_truncated_chain(data, pos + 1 + data[pos], cut);
    }
}

/// A chain that lies within a prefix of the input is the same chain there.
pub proof fn lemma_chain_in_prefix(data: Seq<u8>, pos: int, cut: int)
    requires
        0 <= pos,
        cut <= data.len(),
        sub_blocks(data, pos) matches Some((_, end)) && end <= cut,
    ensures
        sub_blocks(data.take(cut), pos) == sub_blocks(data, pos),
    decreases data.len() - pos,
{
    lemma_sub_blocks_end(data, pos);
    if data[pos] != 0 {
        let next = pos + 1 + data[pos];
        lemma_sub_blocks_end(data, next);
        lemma_chain_in_prefix(data, next, cut);
        assert(data.take(cut).subrange(pos + 1, next) =~= data.subrange(pos + 1, next));
    }
}

/// The byte sequences that a list of buffers holds.
pub open spec fn byte_seqs(blocks: Seq<Vec<u8>>) -> Seq<Seq<u8>> {
    Seq::new(blocks.len(), |i: int| blocks[i]@)
}

/// A chain that was read up to `pos`, continued by what follows at `pos`.
pub open spec fn continued(read: Seq<Seq<u8>>, rest: Option<(Seq<Seq<u8>>, int)>) -> Option<
    (Seq<Seq<u8>>, int),
> {
    match rest {
        None => None,
        Some((more, end)) => Some((read + more, end)),
    }
}

/// Reads a chain of sub-blocks up to and including its terminator.
///
/// Fails with end-of-input exactly when the input ends before the
/// terminator; the position is then unspecified.
pub fn read_blocks(rdr: &mut Reader) -> (r: Result<Vec<Vec<u8>>, DecodeError>)
    requires
        old(rdr).wf(),
    ensures
        final(rdr).wf(),
        final(rdr).data == old(rdr).data,
        match sub_blocks(old(rdr).data@, old(rdr).pos as int) {
            Some((blocks, end)) => r matches Ok(got) && byte_seqs(got@) == blocks
                && final(rdr).pos == end,
            None => r matches Err(e) && e@ == eof(),
        },
{
    let mut blocks: Vec<Vec<u8>> = Vec::new();
    let ghost data = rdr.data@;
    let ghost start = rdr.pos as int;
    assert(byte_seqs(blocks@) + Seq::<Seq<u8>>::empty() =~= Seq::<Seq<u8>>::empty());
    loop
        invariant_except_break
            sub_blocks(data, start) == continued(
                byte_seqs(blocks@),
                sub_blocks(data, rdr.pos as int),
            ),
        invariant
            rdr.wf(),
            rdr.data == old(rdr).data,
            data == rdr.data@,
            start == old(rdr).pos,
        ensures
            sub_blocks(data, start) == Some((byte_seqs(blocks@), rdr.pos as int)),
        decreases data.len() - rdr.pos,
    {
        let ghost here = rdr.pos as int;
        let block_size = rdr.read_u8()?;
        if block_size == 0 {
            assert(byte_seqs(blocks@) + Seq::<Seq<u8>>::empty() =~= byte_seqs(blocks@));
            break ;
        }
        let bytes = rdr.read_exact(block_size as usize)?;
        let block = vstd::slice::slice_to_vec(bytes);
        let ghost before = byte_seqs(blocks@);
        blocks.push(block);
        proof {
            let rest = sub_blocks(data, rdr.pos as int);
            assert(byte_seqs(blocks@) =~= before.push(bytes@));
            if let Some((more, end)) = rest {
                assert(before + (seq![bytes@] + more) =~= before.push(bytes@) + more);
            }
        }
    }
    Ok(blocks)
}

/// Joins the blocks of a chain into one buffer.
pub fn join(blocks: &Vec<Vec<u8>>) -> (all: Vec<u8>)
    ensures
        all@ == byte_seqs(blocks@).flatten(),
{
    let mut all: Vec<u8> = Vec::new();
    let mut i: usize = 0;
    assert(byte_seqs(blocks@).take(0).flatten() =~= Seq::<u8>::empty());
    while i < blocks.len()
        invariant
            i <= blocks.len(),
            all@ == byte_seqs(blocks@).take(i as int).flatten(),
        decreases blocks.len() - i,
    {
        let ghost before = all@;
        all.extend_from_slice(blocks[i].as_slice());
        proof {
            let views = byte_seqs(blocks@);
            assert(all@ =~= before + blocks[i as int]@);
            assert(views.take(i + 1) =~= views.take(i as int).push(views[i as int]));
            views.take(i as int).lemma_flatten_push(views[i as int]);
        }
        i += 1;
    }
    assert(byte_seqs(blocks@).take(i as int) =~= byte_seqs(blocks@));
    all
}

} // verus!
