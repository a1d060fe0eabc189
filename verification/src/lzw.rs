//! The LZW decompressor: a dictionary of byte runs that grows as codes are
//! read from a bitstream of variable width.

use vstd::arithmetic::power2::{lemma2_to64, lemma_pow2_adds, lemma_pow2_strictly_increases, pow2};
use vstd::bits::lemma_usize_shl_is_mul;
use vstd::prelude::*;

use crate::bits::{lemma_bits_value_bound, BitCursor, BitStream};
use crate::blocks::byte_seqs;
use crate::error::LZWError;

verus! {

/// The narrowest minimum code size that a frame may declare.
pub const MIN_CODE_SIZE: u8 = 2;

/// The widest minimum code size that a frame may declare.
pub const MAX_MIN_CODE_SIZE: u8 = 8;

/// The widest code of a stream.
pub const MAX_CODE_SIZE: u8 = 12;

/// The most entries that the table holds: one for each code of the widest
/// kind.
pub const MAX_CODE_TABLE_SIZE: usize = 4096;

/// The table that decoding starts from and that a clear code restores: one
/// single-byte run for each of the `2^min_code_size` plain codes, followed by
/// two empty slots in the places of the clear and the end code.
pub open spec fn initial_table(min_code_size: nat) -> Seq<Seq<u8>> {
    Seq::new(
        pow2(min_code_size) + 2,
        |i: int|
            if i < pow2(min_code_size) {
                seq![i as u8]
            } else {
                Seq::empty()
            },
    )
}

/// What one code of the bitstream leads to.
pub enum Step {
    /// The run of indices that the code stands for.
    Sequence(Seq<u8>),
    ClearCode,
    EndCode,
    Error(LZWError),
}

/// The mathematical content of an [`LZWIterator`].
pub struct Lzw {
    pub bits: BitStream,
    pub min_code_size: nat,
    /// The number of bits of the next code.
    pub width: nat,
    pub table: Seq<Seq<u8>>,
    /// The last code that stood for a run, if any since the last reset.
    pub prev: Option<nat>,
    /// Whether an end code was read.
    pub finished: bool,
}

impl Lzw {
    /// The state before the first code of `bytes` is read.
    pub open spec fn initial(bytes: Seq<u8>, min_code_size: nat) -> Lzw {
        Lzw {
            bits: BitStream { bytes, pos: 0, finished: false },
            min_code_size,
            width: min_code_size + 1,
            table: initial_table(min_code_size),
            prev: None,
            finished: false,
        }
    }

    /// The code that resets the table.
    pub open spec fn clear_code(self) -> nat {
        pow2(self.min_code_size)
    }

    /// The code that ends the stream.
    pub open spec fn end_code(self) -> nat {
        pow2(self.min_code_size) + 1
    }

    /// How many bits of the input are still unread.
    pub open spec fn remaining(self) -> int {
        8 * self.bits.bytes.len() - self.bits.pos
    }

    /// What holds of the table at every step: it starts with the initial
    /// table, holds 4096 entries at most and no more than the width of the
    /// codes can name, every entry behind the initial ones has two symbols or
    /// more, and the previous code names an entry that is a run.
    pub open spec fn wf(self) -> bool {
        &&& MIN_CODE_SIZE <= self.min_code_size <= MAX_MIN_CODE_SIZE
        &&& self.min_code_size + 1 <= self.width <= MAX_CODE_SIZE
        &&& self.clear_code() + 2 <= self.table.len() <= MAX_CODE_TABLE_SIZE
        &&& self.table.len() <= pow2(self.width)
        &&& self.table.len() == pow2(self.width) ==> self.width == MAX_CODE_SIZE
        &&& self.table.take(self.clear_code() as int + 2) == initial_table(self.min_code_size)
        &&& forall|i: int| self.end_code() < i < self.table.len() ==> #[trigger] self.table[i].len() >= 2
        &&& forall|i: int| 0 <= i < self.table.len() ==> #[trigger] self.table[i].len() <= i + 1
        &&& self.prev matches Some(p) ==> p < self.table.len() && p != self.clear_code() && p
            != self.end_code()
        &&& self.bits.pos <= 8 * self.bits.bytes.len()
    }

    /// Whether the table can resolve `code`: it names an entry, or it is the
    /// index of the entry that this very step adds.
    pub open spec fn resolves(self, code: nat) -> bool {
        code < self.table.len() || (code == self.table.len() && self.prev.is_some()
            && self.table.len() < MAX_CODE_TABLE_SIZE)
    }

    /// The table after `code` was read: while there is room and a previous
    /// code, the run of the previous code grows by one symbol and becomes a
    /// new entry. The symbol is the first of the run of `code`, which for a
    /// code that names the new entry itself is the first of the previous run.
    pub open spec fn grown(self, code: nat) -> Seq<Seq<u8>> {
        match self.prev {
            Some(p) if self.table.len() < MAX_CODE_TABLE_SIZE => {
                let symbol = if code == self.table.len() {
                    self.table[p as int][0]
                } else {
                    self.table[code as int][0]
                };
                self.table.push(self.table[p as int].push(symbol))
            },
            _ => self.table,
        }
    }

    /// The state after a clear code: the table, the width and the memory of
    /// the previous code are as at the start.
    pub open spec fn cleared(self) -> Lzw {
        Lzw {
            table: initial_table(self.min_code_size),
            width: self.min_code_size + 1,
            prev: None,
            ..self
        }
    }

    /// The state after `code` was resolved.
    pub open spec fn resolved(self, code: nat) -> Lzw {
        let table = self.grown(code);
        let width = if self.width < MAX_CODE_SIZE && table.len() == pow2(self.width) {
            self.width + 1
        } else {
            self.width
        };
        Lzw { table, width, prev: Some(code), ..self }
    }

    /// What the code `code` does to the state, and what it yields.
    pub open spec fn apply(self, code: nat) -> (Lzw, Step) {
        if code == self.end_code() {
            (Lzw { finished: true, ..self }, Step::EndCode)
        } else if code == self.clear_code() {
            (self.cleared(), Step::ClearCode)
        } else if !self.resolves(code) {
            (self, Step::Error(LZWError::CodeOutOfBounds(code as usize, self.table.len() as usize)))
        } else {
            let next = self.resolved(code);
            (next, Step::Sequence(next.table[code as int]))
        }
    }

    /// One step of decompression: reads a code of the current width and
    /// applies it. Where the input has run out, the step counts as an end
    /// code.
    pub open spec fn next_sequence(self) -> (Lzw, Step) {
        let bits = self.bits.advance(self.width);
        match self.bits.peek(self.width) {
            None => (Lzw { bits, ..self }, Step::EndCode),
            Some(code) => (Lzw { bits, ..self }).apply(code),
        }
    }

    /// Steps until a code yields a run, ends the stream or fails.
    pub open spec fn skip_clears(self) -> (Lzw, Option<Result<Seq<u8>, LZWError>>)
        decreases self.remaining(),
        when self.width > 0
    {
        let (next, step) = self.next_sequence();
        match step {
            Step::Sequence(run) => (next, Some(Ok(run))),
            Step::EndCode => (next, None),
            Step::Error(e) => (next, Some(Err(e))),
            Step::ClearCode => next.skip_clears(),
        }
    }

    /// Everything that the decompressor yields from here on: the indices of
    /// all runs up to the end of the stream or the first failure, and that
    /// failure.
    pub open spec fn drain(self) -> (Seq<u8>, Option<LZWError>)
        decreases self.remaining(),
        when self.width > 0
    {
        if self.finished {
            (Seq::empty(), None)
        } else {
            let (next, step) = self.next_sequence();
            match step {
                Step::EndCode => (Seq::empty(), None),
                Step::Error(e) => (Seq::empty(), Some(e)),
                Step::ClearCode => next.drain(),
                Step::Sequence(run) => (run + next.drain().0, next.drain().1),
            }
        }
    }

    /// What the iterator yields next: nothing once an end code was read.
    pub open spec fn next(self) -> (Lzw, Option<Result<Seq<u8>, LZWError>>) {
        if self.finished {
            (self, None)
        } else {
            self.skip_clears()
        }
    }
}

/// The table stays within its bounds whatever code is read: a step keeps a
/// well-formed state well-formed. In particular the table never holds more
/// than 4096 entries, and a clear code shrinks it to its initial size.
pub proof fn lemma_apply_keeps_wf(s: Lzw, code: nat)
    requires
        s.wf(),
        code < pow2(s.width),
    ensures
        s.apply(code).0.wf(),
{
    lemma_table_sizes();
    let base = s.clear_code();
    if code == s.end_code() {
    } else if code == s.clear_code() {
        let c = s.cleared();
        assert(c.table.take(base as int + 2) =~= c.table);
        lemma_pow2_strictly_increases(s.min_code_size, s.min_code_size + 1);
        lemma_pow2_adds(s.min_code_size, 1);
    } else if !s.resolves(code) {
    } else {
        let r = s.resolved(code);
        assert(r.table.take(base as int + 2) =~= s.table.take(base as int + 2));
        if s.width < MAX_CODE_SIZE {
            lemma_pow2_adds(s.width, 1);
        }
        if r.table.len() > s.table.len() {
            let p = s.prev.unwrap();
            assert(initial_table(s.min_code_size)[p as int] == s.table.take(base as int + 2)[p as int]
                || p > s.end_code());
            assert(s.table[p as int].len() >= 1);
        }
    }
}

/// A clear code resets decoding: whatever the table held, what follows the
/// clear code is decoded as by a decompressor that starts behind it with the
/// initial table.
pub proof fn lemma_clear_code_resets(s: Lzw)
    requires
        s.wf(),
        !s.finished,
        s.bits.peek(s.width) == Some(s.clear_code()),
    ensures
        ({
            let fresh = Lzw {
                bits: s.bits.advance(s.width),
                ..Lzw::initial(s.bits.bytes, s.min_code_size)
            };
            &&& s.next_sequence() == (fresh, Step::ClearCode)
            &&& s.drain() == fresh.drain()
            &&& s.next() == fresh.next()
        }),
{
    let fresh = Lzw { bits: s.bits.advance(s.width), ..Lzw::initial(s.bits.bytes, s.min_code_size) };
    assert(s.next_sequence().0 == fresh);
}

/// A code behind the next free entry of the table fails with that code and
/// the size that the table has when the code is read, and changes nothing.
pub proof fn lemma_code_out_of_bounds(s: Lzw, code: nat)
    requires
        s.wf(),
        code > s.table.len(),
    ensures
        s.apply(code) == (
            s,
            Step::Error(LZWError::CodeOutOfBounds(code as usize, s.table.len() as usize)),
        ),
{
}

/// A code below the clear code stands for itself, whatever was read before.
pub proof fn lemma_plain_code(s: Lzw, code: nat)
    requires
        s.wf(),
        code < s.clear_code(),
    ensures
        s.apply(code).1 == Step::Sequence(seq![code as u8]),
        s.apply(code).0.prev == Some(code),
{
    let base = s.clear_code();
    let next = s.resolved(code);
    assert(s.table.take(base as int + 2)[code as int] == s.table[code as int]);
    assert(next.table[code as int] == s.table[code as int]);
}

/// A stream without an end code is tolerated: no step fails for the want of
/// one.
pub proof fn lemma_end_code_not_missed(s: Lzw)
    ensures
        s.next_sequence().1 != Step::Error(LZWError::MissingEndCode),
        s.bits.peek(s.width).is_none() ==> s.next_sequence().1 == Step::EndCode,
{
}

/// A code that stands for a run stands for one index at least.
pub proof fn lemma_run_not_empty(s: Lzw, code: nat)
    requires
        s.wf(),
    ensures
        s.apply(code).1 matches Step::Sequence(run) ==> run.len() >= 1,
{
    if code != s.end_code() && code != s.clear_code() && s.resolves(code) {
        let base = s.clear_code();
        let next = s.resolved(code);
        if let Some(p) = s.prev {
            assert(s.table.take(base as int + 2)[p as int] == s.table[p as int] || p > s.end_code());
        }
        if code < s.table.len() {
            assert(s.table.take(base as int + 2)[code as int] == s.table[code as int] || code
                > s.end_code());
            assert(next.table[code as int] == s.table[code as int]);
        }
    }
}

/// Draining a decompressor is the same as taking its next item and draining
/// what is left.
pub proof fn lemma_drain_unfolds(s: Lzw)
    requires
        s.wf(),
    ensures
        match s.next().1 {
            None => s.drain() == (Seq::<u8>::empty(), None::<LZWError>),
            Some(Err(e)) => s.drain() == (Seq::<u8>::empty(), Some(e)),
            Some(Ok(run)) => s.drain() == (run + s.next().0.drain().0, s.next().0.drain().1),
        },
        s.next().1.is_some() ==> s.next().0.remaining() < s.remaining(),
    decreases s.remaining(),
{
    if !s.finished {
        let (next, step) = s.next_sequence();
        if step is ClearCode {
            let code = s.bits.peek(s.width).unwrap();
            lemma_bits_value_bound(s.bits.bytes, s.bits.pos as int, s.width);
            lemma_apply_keeps_wf(Lzw { bits: s.bits.advance(s.width), ..s }, code);
            lemma_drain_unfolds(next);
        }
    }
}

/// Powers of two up to the largest table.
pub proof fn lemma_table_sizes()
    ensures
        pow2(2) == 4,
        pow2(3) == 8,
        pow2(4) == 16,
        pow2(5) == 32,
        pow2(6) == 64,
        pow2(7) == 128,
        pow2(8) == 256,
        pow2(9) == 512,
        pow2(10) == 1024,
        pow2(11) == 2048,
        pow2(12) == 4096,
{
    lemma2_to64();
}

/// What a step of the decompressor hands back.
pub enum NextSeqResult {
    /// The run of indices that the code of this step stands for.
    Sequence(Vec<u8>),
    /// The code reset the table; the step yields no indices.
    ClearCode,
    /// The stream has ended, with an end code or with the input.
    EndCode,
    /// The table could not resolve the code.
    Error(LZWError),
}

impl View for NextSeqResult {
    type V = Step;

    open spec fn view(&self) -> Step {
        match *self {
            NextSeqResult::Sequence(run) => Step::Sequence(run@),
            NextSeqResult::ClearCode => Step::ClearCode,
            NextSeqResult::EndCode => Step::EndCode,
            NextSeqResult::Error(e) => Step::Error(e),
        }
    }
}

/// A decompressor over a buffer of LZW data. Each call of
/// [`LZWIterator::next`] yields the next run of palette indices.
pub struct LZWIterator {
    pub bits: BitCursor,
    pub min_code_size: u8,
    pub cur_code_size: u8,
    pub code_table: Vec<Vec<u8>>,
    pub clear_code: usize,
    pub end_code: usize,
    pub prev_code: Option<usize>,
    pub finished: bool,
}

impl View for LZWIterator {
    type V = Lzw;

    open spec fn view(&self) -> Lzw {
        Lzw {
            bits: self.bits@,
            min_code_size: self.min_code_size as nat,
            width: self.cur_code_size as nat,
            table: byte_seqs(self.code_table@),
            prev: match self.prev_code {
                Some(p) => Some(p as nat),
                None => None,
            },
            finished: self.finished,
        }
    }
}

/// `2^exponent` for the exponents that code sizes take.
pub(crate) fn power_of_two(exponent: u8) -> (p: usize)
    requires
        exponent <= MAX_CODE_SIZE,
    ensures
        p == pow2(exponent as nat),
{
    proof {
        lemma2_to64();
        lemma_usize_shl_is_mul(1usize, exponent as usize);
    }
    1usize << exponent
}

impl LZWIterator {
    /// The table is well-formed, and the two special codes are those of the
    /// minimum code size.
    pub open spec fn wf(&self) -> bool {
        &&& self@.wf()
        &&& self.bits.wf()
        &&& self.clear_code == self@.clear_code()
        &&& self.end_code == self@.end_code()
    }

    /// Sets up a decompressor for `seq`. The minimum code size must lie in
    /// `[2, 8]`.
    pub fn new(seq: Vec<u8>, min_code_size: u8) -> (r: Result<Self, LZWError>)
        ensures
            MIN_CODE_SIZE <= min_code_size <= MAX_MIN_CODE_SIZE ==> (r matches Ok(it) && it.wf()
                && it@ == Lzw::initial(seq@, min_code_size as nat)),
            !(MIN_CODE_SIZE <= min_code_size <= MAX_MIN_CODE_SIZE) ==> r == Err::<Self, LZWError>(
                LZWError::CodeSizeOutOfRange(min_code_size),
            ),
    {
        if min_code_size < MIN_CODE_SIZE || min_code_size > MAX_MIN_CODE_SIZE {
            return Err(LZWError::CodeSizeOutOfRange(min_code_size));
        }
        proof {
            lemma_table_sizes();
        }
        let n = power_of_two(min_code_size);
        let mut code_table: Vec<Vec<u8>> = Vec::new();
        let mut i: usize = 0;
        while i < n
            invariant
                i <= n <= 256,
                code_table@.len() == i,
                forall|j: int| 0 <= j < i ==> (#[trigger] code_table@[j])@ == seq![j as u8],
            decreases n - i,
        {
            code_table.push(vec![i as u8]);
            i += 1;
        }
        // Two slots in the places of the clear and the end code, so that the
        // entries behind them can be found by their code.
        code_table.push(Vec::new());
        code_table.push(Vec::new());
        let it = LZWIterator {
            bits: BitCursor::new(seq),
            min_code_size,
            cur_code_size: min_code_size + 1,
            code_table,
            clear_code: n,
            end_code: n + 1,
            prev_code: None,
            finished: false,
        };
        proof {
            let table = initial_table(min_code_size as nat);
            assert(it@.table =~~= table);
            assert(table.take(n as int + 2) =~= table);
            lemma_pow2_adds(min_code_size as nat, 1);
        }
        Ok(it)
    }

    /// Shrinks the table to its initial entries and forgets the previous
    /// code.
    pub fn handle_clear_code(&mut self)
        requires
            old(self).wf(),
        ensures
            final(self).wf(),
            final(self)@ == old(self)@.cleared(),
    {
        proof {
            lemma_table_sizes();
        }
        let n = power_of_two(self.min_code_size);
        self.code_table.truncate(n + 2);
        self.cur_code_size = self.min_code_size + 1;
        self.prev_code = None;
        proof {
            let table = initial_table(self.min_code_size as nat);
            assert(self@.table =~= old(self)@.table.take(n as int + 2));
            assert(table.take(n as int + 2) =~= table);
            lemma_pow2_adds(self.min_code_size as nat, 1);
        }
    }

    /// Reads one code and applies it.
    ///
    /// A code that the table cannot resolve fails with the code and the size
    /// of the table before the step; the state is then as if the code had
    /// been skipped.
    pub fn next_sequence(&mut self) -> (r: NextSeqResult)
        requires
            old(self).wf(),
        ensures
            final(self).wf(),
            final(self)@ == old(self)@.next_sequence().0,
            r@ == old(self)@.next_sequence().1,
    {
        let ghost before = self@;
        let code = match self.bits.take_n(self.cur_code_size) {
            Some(n) => n,
            // Data that ends in the middle of a code is taken as an early end
            // code. The frame then comes out too short, which its reader
            // reports.
            None => {
                return NextSeqResult::EndCode;
            },
        };
        let ghost state = self@;
        proof {
            lemma_table_sizes();
            lemma_bits_value_bound(before.bits.bytes, before.bits.pos as int, before.width);
            lemma_pow2_strictly_increases_to(before.width);
            lemma_apply_keeps_wf(state, code as nat);
            assert(state == (Lzw { bits: before.bits.advance(before.width), ..before }));
        }

        if code == self.end_code {
            self.finished = true;
            return NextSeqResult::EndCode;
        } else if code == self.clear_code {
            self.handle_clear_code();
            return NextSeqResult::ClearCode;
        }
        let len = self.code_table.len();
        if code > len || (code == len && self.prev_code.is_none()) {
            return NextSeqResult::Error(LZWError::CodeOutOfBounds(code, len));
        }
        // Extend the table while there is room.

        if len < MAX_CODE_TABLE_SIZE {
            if let Some(prev_code) = self.prev_code {
                proof {
                    assert(initial_table(state.min_code_size)[prev_code as int] == state.table.take(
                        state.clear_code() as int + 2,
                    )[prev_code as int] || prev_code > state.end_code());
                    assert(state.table[prev_code as int].len() >= 1);
                    if code != len {
                        assert(initial_table(state.min_code_size)[code as int] == state.table.take(
                            state.clear_code() as int + 2,
                        )[code as int] || code > state.end_code());
                        assert(state.table[code as int].len() >= 1);
                    }
                }
                let next_symbol = if code == len {
                    self.code_table[prev_code][0]
                } else {
                    self.code_table[code][0]
                };
                let mut new_sequence = self.code_table[prev_code].clone();
                new_sequence.push(next_symbol);
                assert(new_sequence@ =~= state.table[prev_code as int].push(next_symbol));
                self.code_table.push(new_sequence);
                assert(self@.table =~= state.grown(code as nat));
            }
        }
        assert(self@.table == state.grown(code as nat));
        // Widen the codes once the table has outgrown the current width.
        if self.cur_code_size < MAX_CODE_SIZE && self.code_table.len() == power_of_two(
            self.cur_code_size,
        ) {
            self.cur_code_size += 1;
        }
        self.prev_code = Some(code);
        assert(self@ == state.resolved(code as nat));
        let run = self.code_table[code].clone();
        assert(run@ =~= self@.table[code as int]);
        NextSeqResult::Sequence(run)
    }

    /// The next run of indices, or the failure that ends the stream. Clear
    /// codes are passed over. `None` marks the end: an end code, or input
    /// that has run out.
    pub fn next(&mut self) -> (r: Option<Result<Vec<u8>, LZWError>>)
        requires
            old(self).wf(),
        ensures
            final(self).wf(),
            final(self)@ == old(self)@.next().0,
            match old(self)@.next().1 {
                Some(Ok(run)) => r matches Some(Ok(got)) && got@ == run,
                Some(Err(e)) => r == Some(Err::<Vec<u8>, LZWError>(e)),
                None => r.is_none(),
            },
    {
        if self.finished {
            return None;
        }
        loop
            invariant
                self.wf(),
                old(self).wf(),
                !old(self).finished,
                self@.skip_clears() == old(self)@.skip_clears(),
            decreases self@.remaining(),
        {
            let ghost state = self@;
            assert(state.skip_clears() == old(self)@.next());
            match self.next_sequence() {
                NextSeqResult::Sequence(seq) => {
                    return Some(Ok(seq));
                },
                NextSeqResult::ClearCode => {},
                NextSeqResult::EndCode => {
                    return None;
                },
                NextSeqResult::Error(e) => {
                    return Some(Err(e));
                },
            }
        }
    }
}

/// The value of a code of `width` bits fits the table's index type.
proof fn lemma_pow2_strictly_increases_to(width: nat)
    requires
        width <= MAX_CODE_SIZE,
    ensures
        pow2(width) <= MAX_CODE_TABLE_SIZE,
{
    lemma_table_sizes();
    if width < 12 {
        lemma_pow2_strictly_increases(width, 12);
    }
}

} // verus!
