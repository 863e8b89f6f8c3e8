use vstd::prelude::*;
use vstd::string::StringSliceAdditionalSpecFns;
use crate::number::{
    abs, accumulate, apply_sign, digit_run, digits_used, frac_pending, int_result, int_step,
    int_used, int_value, is_digit, lemma_digit_run, lemma_wrap_id, lemma_wrap_neg,
    lemma_wrap_step, push_digit, unsigned_abs, wrap_i32, FracStep, IntParse, IntStep,
};

verus! {

/// Number of bytes asked of the underlying stream on each refill.
pub const CHUNK: usize = 400_000;

/// A chunked byte source with a cursor.
///
/// A reader either holds a fixed byte sequence that is never refilled, or is
/// backed by a stream: then, once every buffered byte has been read, the driver
/// hands it the next chunk through [`Reader::refill`] as long as
/// [`Reader::needs_refill`] asks for one.
pub struct Reader {
    buffer: Vec<u8>,
    index: usize,
    len: usize,
    refills: bool,
}

impl Reader {
    /// The cursor never passes the valid length, which never passes the buffer.
    pub open spec fn wf(&self) -> bool {
        self.index_spec() <= self.len_spec() <= self.buffer_spec().len()
    }

    /// `self` is `prev` with the cursor moved `n` bytes forward: buffer, valid
    /// length and refill state are as they were.
    pub open spec fn advanced_from(&self, prev: Reader, n: nat) -> bool {
        &&& self.buffer_spec() == prev.buffer_spec()
        &&& self.len_spec() == prev.len_spec()
        &&& self.index_spec() == prev.index_spec() + n
        &&& self.refills_spec() == prev.refills_spec()
    }

    /// The bytes held in the buffer, valid or not.
    pub closed spec fn buffer_spec(&self) -> Seq<u8> {
        self.buffer@
    }

    pub closed spec fn index_spec(&self) -> nat {
        self.index as nat
    }

    pub closed spec fn len_spec(&self) -> nat {
        self.len as nat
    }

    /// Whether another chunk may still come from the stream once these bytes are read.
    pub closed spec fn refills_spec(&self) -> bool {
        self.refills
    }

    /// The buffered bytes not yet read.
    pub open spec fn rest(&self) -> Seq<u8> {
        self.buffer_spec().subrange(self.index_spec() as int, self.len_spec() as int)
    }

    /// A stream-backed reader with nothing loaded yet: it asks for a chunk first.
    pub fn new() -> (r: Self)
        ensures
            r.wf(),
            r.buffer_spec().len() == 0,
            r.index_spec() == 0,
            r.len_spec() == 0,
            r.rest().len() == 0,
            r.refills_spec(),
    {
        Reader { buffer: Vec::with_capacity(CHUNK), index: 0, len: 0, refills: true }
    }

    /// A reader over the bytes of `input`, which it never refills.
    pub fn from_str(input: &str) -> (r: Self)
        ensures
            r.wf(),
            r.buffer_spec() == input.spec_bytes(),
            r.index_spec() == 0,
            r.len_spec() == input.spec_bytes().len(),
            r.rest() == input.spec_bytes(),
            !r.refills_spec(),
    {
        let bytes = input.as_bytes();
        let mut buffer: Vec<u8> = Vec::new();
        let mut i: usize = 0;
        while i < bytes.len()
            invariant
                i <= bytes@.len(),
                buffer@ == bytes@.subrange(0, i as int),
            decreases bytes@.len() - i,
        {
            buffer.push(bytes[i]);
            i += 1;
        }
        proof {
            assert(buffer@ == bytes@.subrange(0, bytes@.len() as int));
            assert(buffer@ == bytes@);
        }
        let len = buffer.len();
        Reader { buffer, index: 0, len, refills: false }
    }

    /// The next buffered byte, or `None` once every buffered byte has been read.
    pub fn next(&mut self) -> (r: Option<u8>)
        requires
            old(self).wf(),
        ensures
            final(self).wf(),
            final(self).advanced_from(*old(self), if old(self).rest().len() > 0 { 1nat } else { 0nat }),
            old(self).rest().len() == 0 ==> r is None && *final(self) == *old(self),
            old(self).rest().len() > 0 ==> r == Some(old(self).rest()[0])
                && final(self).rest() == old(self).rest().drop_first(),
            r matches Some(b) ==> b == final(self).buffer_spec()[final(self).index_spec() - 1],
    {
        if self.index >= self.len {
            return None;
        }
        let b = self.buffer[self.index];
        self.index = self.index + 1;
        Some(b)
    }

    /// Runs the integer parser from `state` over the buffered bytes; `more`
    /// says whether another chunk follows them.
    fn scan_i32(&mut self, state: IntParse, more: bool) -> (r: IntStep)
        requires
            old(self).wf(),
        ensures
            final(self).wf(),
            final(self).advanced_from(*old(self), (int_used(state, old(self).rest())) as nat),
            r == int_step(state, old(self).rest(), more),
            final(self).rest() == old(self).rest().skip(int_used(state, old(self).rest()) as int),
    {
        let ghost s0 = self.rest();
        let ghost index0 = self.index as int;
        let (mut value, negative, mut last) = match state {
            IntParse::Start => {
                if self.index >= self.len {
                    return if more {
                        IntStep::Pending(IntParse::Start)
                    } else {
                        IntStep::Done(None)
                    };
                }
                let b = self.buffer[self.index];
                assert(b == s0[0]);
                if 48 <= b && b <= 57 {
                    (0i32, false, 48u8)
                } else if b == 45 || b == 43 {
                    self.index = self.index + 1;
                    (0i32, b == 45, 48u8)
                } else {
                    self.index = self.index + 1;
                    proof {
                        assert(self.rest() =~= s0.skip(1));
                    }
                    return IntStep::Done(None);
                }
            },
            IntParse::Digits { value, negative, last } => (value, negative, last),
        };
        let ghost base = self.index as int;
        let ghost v0 = value;
        let ghost last0 = last;
        let ghost t = self.buffer@.subrange(base, self.len as int);
        while self.index < self.len && 48 <= self.buffer[self.index as usize] && self.buffer[self.index as usize] <= 57
            invariant
                self.wf(),
                self.refills_spec() == old(self).refills_spec(),
                self.buffer@ == old(self).buffer@,
                self.len == old(self).len,
                0 <= base <= self.index <= self.len,
                t == self.buffer@.subrange(base, self.len as int),
                forall|i: int| base <= i < self.index ==> is_digit(#[trigger] self.buffer@[i]),
                value as int == wrap_i32(accumulate(v0 as int, self.buffer@.subrange(base, self.index as int))),
                last == (if self.index > base { self.buffer@[self.index - 1] } else { last0 }),
            decreases self.len - self.index,
        {
            let b = self.buffer[self.index];
            proof {
                let prev = self.buffer@.subrange(base, self.index as int);
                let next = self.buffer@.subrange(base, self.index + 1);
                assert(next.drop_last() =~= prev);
                assert(next.last() == b);
                lemma_wrap_step(accumulate(v0 as int, prev), b - 48);
            }
            value = push_digit(value, b);
            last = b;
            self.index = self.index + 1;
        }
        let ghost k = self.index - base;
        proof {
            assert forall|i: int| 0 <= i < k implies is_digit(#[trigger] t[i]) by {
                assert(t[i] == self.buffer@[base + i]);
            }
            if k < t.len() {
                assert(t[k] == self.buffer@[self.index as int]);
            }
            lemma_digit_run(t, k);
            assert(t.take(k) =~= self.buffer@.subrange(base, self.index as int));
            let acc = accumulate(v0 as int, t.take(k));
            lemma_wrap_neg(acc);
            lemma_wrap_id(value as int);
            if k > 0 {
                assert(t[k - 1] == self.buffer@[self.index - 1]);
            }
            if state == IntParse::Start && base > index0 {
                assert(t =~= s0.drop_first());
            } else {
                assert(t =~= s0);
            }
        }
        let signed = apply_sign(value, negative);
        if self.index < self.len {
            let term = self.buffer[self.index];
            self.index = self.index + 1;
            proof {
                assert(self.rest() =~= s0.skip(int_used(state, s0) as int));
            }
            IntStep::Done(Some((signed, term as i32)))
        } else {
            proof {
                assert(self.rest() =~= s0.skip(int_used(state, s0) as int));
            }
            if more {
                IntStep::Pending(IntParse::Digits { value, negative, last })
            } else {
                IntStep::Done(Some((signed, last as i32)))
            }
        }
    }

    /// Runs the integer parser from `state` over the buffered bytes. Where they
    /// run out inside a number and another chunk is due, it hands back the
    /// state to resume from once [`Reader::refill`] has brought that chunk.
    pub fn resume_i32(&mut self, state: IntParse) -> (r: IntStep)
        requires
            old(self).wf(),
        ensures
            final(self).wf(),
            final(self).advanced_from(*old(self), (int_used(state, old(self).rest())) as nat),
            r == int_step(state, old(self).rest(), old(self).refills_spec()),
            final(self).rest() == old(self).rest().skip(int_used(state, old(self).rest()) as int),
    {
        let more = self.refills;
        self.scan_i32(state, more)
    }

    /// The next integer of the buffered bytes, with the byte that ended it.
    ///
    /// A digit or a sign opens the number; any other byte, or the end of the
    /// buffered bytes, gives `None`. The digits are read up to the first byte
    /// that is not a digit, which is taken too and returned beside the value.
    /// Where the bytes end inside the digits, the last digit read, or `'0'`
    /// after a bare sign, stands in for that byte.
    pub fn read_i32(&mut self) -> (r: Option<(i32, i32)>)
        requires
            old(self).wf(),
        ensures
            final(self).wf(),
            final(self).advanced_from(*old(self), (int_used(IntParse::Start, old(self).rest())) as nat),
            r == int_result(old(self).rest()),
            final(self).rest() == old(self).rest().skip(int_used(IntParse::Start, old(self).rest()) as int),
    {
        match self.scan_i32(IntParse::Start, false) {
            IntStep::Done(o) => o,
            IntStep::Pending(_) => None,
        }
    }

    /// The next `u32`: the magnitude of the next integer.
    pub fn next_u32(&mut self) -> (r: Option<u32>)
        requires
            old(self).wf(),
        ensures
            final(self).wf(),
            final(self).advanced_from(*old(self), (int_used(IntParse::Start, old(self).rest())) as nat),
            r == (match int_value(old(self).rest()) {
                Some(v) => Some(abs(v as int) as u32),
                None => None,
            }),
            final(self).rest() == old(self).rest().skip(int_used(IntParse::Start, old(self).rest()) as int),
    {
        match self.read_i32() {
            Some(p) => Some(unsigned_abs(p.0)),
            None => None,
        }
    }

    /// The next `usize`: the magnitude of the next integer.
    pub fn next_usize(&mut self) -> (r: Option<usize>)
        requires
            old(self).wf(),
        ensures
            final(self).wf(),
            final(self).advanced_from(*old(self), (int_used(IntParse::Start, old(self).rest())) as nat),
            r == (match int_value(old(self).rest()) {
                Some(v) => Some(abs(v as int) as usize),
                None => None,
            }),
            final(self).rest() == old(self).rest().skip(int_used(IntParse::Start, old(self).rest()) as int),
    {
        match self.read_i32() {
            Some(p) => Some(unsigned_abs(p.0) as usize),
            None => None,
        }
    }

    /// The next `i32`.
    pub fn next_i32(&mut self) -> (r: Option<i32>)
        requires
            old(self).wf(),
        ensures
            final(self).wf(),
            final(self).advanced_from(*old(self), (int_used(IntParse::Start, old(self).rest())) as nat),
            r == int_value(old(self).rest()),
            final(self).rest() == old(self).rest().skip(int_used(IntParse::Start, old(self).rest()) as int),
    {
        match self.read_i32() {
            Some(p) => Some(p.0),
            None => None,
        }
    }

    /// The next byte as a character; separators are characters too.
    pub fn next_char(&mut self) -> (r: Option<char>)
        requires
            old(self).wf(),
        ensures
            final(self).wf(),
            final(self).advanced_from(*old(self), if old(self).rest().len() > 0 { 1nat } else { 0nat }),
            old(self).rest().len() == 0 ==> r is None && *final(self) == *old(self),
            old(self).rest().len() > 0 ==> r == Some(old(self).rest()[0] as char)
                && final(self).rest() == old(self).rest().drop_first(),
    {
        match self.next() {
            Some(b) => Some(b as char),
            None => None,
        }
    }

    /// The next two integers; `None` where either is missing.
    pub fn next_pair(&mut self) -> (r: Option<(i32, i32)>)
        requires
            old(self).wf(),
        ensures
            final(self).wf(),
            final(self).refills_spec() == old(self).refills_spec(),
            ({
                let s = old(self).rest();
                let t = s.skip(int_used(IntParse::Start, s) as int);
                let u = t.skip(int_used(IntParse::Start, t) as int);
                &&& r == (match (int_value(s), int_value(t)) {
                    (Some(a), Some(b)) => Some((a, b)),
                    _ => None,
                })
                &&& final(self).rest() == if int_value(s) is None { t } else { u }
                &&& final(self).advanced_from(*old(self), if int_value(s) is None {
                    int_used(IntParse::Start, s)
                } else {
                    int_used(IntParse::Start, s) + int_used(IntParse::Start, t)
                })
            }),
    {
        let a = match self.read_i32() {
            Some(p) => p.0,
            None => return None,
        };
        let b = match self.read_i32() {
            Some(p) => p.0,
            None => return None,
        };
        Some((a, b))
    }

    /// Appends to `digits` the run of digits at the cursor, and takes the byte
    /// after it; says whether the buffered bytes ran out inside the run while
    /// `more` holds.
    fn scan_fraction(&mut self, digits: &mut Vec<u8>, more: bool) -> (pending: bool)
        requires
            old(self).wf(),
        ensures
            final(self).wf(),
            final(self).advanced_from(*old(self), (digits_used(old(self).rest())) as nat),
            final(digits)@ == old(digits)@ + old(self).rest().take(digit_run(old(self).rest()) as int),
            pending == frac_pending(old(self).rest(), more),
            final(self).rest() == old(self).rest().skip(digits_used(old(self).rest()) as int),
    {
        let ghost s0 = self.rest();
        let ghost base = self.index as int;
        let ghost d0 = digits@;
        while self.index < self.len && 48 <= self.buffer[self.index as usize] && self.buffer[self.index as usize] <= 57
            invariant
                self.wf(),
                self.refills_spec() == old(self).refills_spec(),
                self.buffer@ == old(self).buffer@,
                self.len == old(self).len,
                base == old(self).index,
                0 <= base <= self.index <= self.len,
                s0 == self.buffer@.subrange(base, self.len as int),
                forall|i: int| base <= i < self.index ==> is_digit(#[trigger] self.buffer@[i]),
                digits@ == d0 + self.buffer@.subrange(base, self.index as int),
            decreases self.len - self.index,
        {
            let b = self.buffer[self.index];
            digits.push(b);
            proof {
                assert(self.buffer@.subrange(base, self.index + 1) =~= self.buffer@.subrange(base, self.index as int).push(b));
            }
            self.index = self.index + 1;
        }
        let ghost k = self.index - base;
        proof {
            assert forall|i: int| 0 <= i < k implies is_digit(#[trigger] s0[i]) by {
                assert(s0[i] == self.buffer@[base + i]);
            }
            if k < s0.len() {
                assert(s0[k] == self.buffer@[self.index as int]);
            }
            lemma_digit_run(s0, k);
            assert(s0.take(k) =~= self.buffer@.subrange(base, self.index as int));
        }
        if self.index < self.len {
            self.index = self.index + 1;
            proof {
                assert(self.rest() =~= s0.skip(digits_used(s0) as int));
            }
            false
        } else {
            proof {
                assert(self.rest() =~= s0.skip(digits_used(s0) as int));
            }
            more
        }
    }

    /// Continues the digits of a fraction, `digits` being those read so far:
    /// reads the run of digits at the cursor and the byte after it. Where the
    /// buffered bytes run out inside the run and another chunk is due, the
    /// digits come back as pending.
    pub fn resume_fraction(&mut self, digits: Vec<u8>) -> (r: FracStep)
        requires
            old(self).wf(),
        ensures
            final(self).wf(),
            final(self).advanced_from(*old(self), (digits_used(old(self).rest())) as nat),
            ({
                let s = old(self).rest();
                let ds = digits@ + s.take(digit_run(s) as int);
                match r {
                    FracStep::Done(v) => !frac_pending(s, old(self).refills_spec()) && v@ == ds,
                    FracStep::Pending(v) => frac_pending(s, old(self).refills_spec()) && v@ == ds,
                }
            }),
            final(self).rest() == old(self).rest().skip(digits_used(old(self).rest()) as int),
    {
        let mut digits = digits;
        let more = self.refills;
        if self.scan_fraction(&mut digits, more) {
            FracStep::Pending(digits)
        } else {
            FracStep::Done(digits)
        }
    }

    /// The digit bytes of a fraction: the run of digits at the cursor. The
    /// byte after them is taken too.
    pub fn read_fraction(&mut self) -> (r: Vec<u8>)
        requires
            old(self).wf(),
        ensures
            final(self).wf(),
            final(self).advanced_from(*old(self), (digits_used(old(self).rest())) as nat),
            r@ == old(self).rest().take(digit_run(old(self).rest()) as int),
            final(self).rest() == old(self).rest().skip(digits_used(old(self).rest()) as int),
    {
        let mut digits: Vec<u8> = Vec::new();
        let _ = self.scan_fraction(&mut digits, false);
        proof {
            assert(digits@ =~= old(self).rest().take(digit_run(old(self).rest()) as int));
        }
        digits
    }

    /// Whether the reader waits for another chunk: every buffered byte has
    /// been read, and the stream may still hold more.
    pub fn needs_refill(&self) -> (r: bool)
        requires
            self.wf(),
        ensures
            r == (self.rest().len() == 0 && self.refills_spec()),
    {
        self.index >= self.len && self.refills
    }

    /// Replaces the spent buffer with the next chunk of the stream. A chunk
    /// shorter than a full one, an empty one above all, means that the stream
    /// has ended: no further refill is asked for.
    pub fn refill(&mut self, chunk: Vec<u8>)
        requires
            old(self).wf(),
            old(self).rest().len() == 0,
            old(self).refills_spec(),
            chunk@.len() <= CHUNK,
        ensures
            final(self).wf(),
            final(self).buffer_spec() == chunk@,
            final(self).index_spec() == 0,
            final(self).len_spec() == chunk@.len(),
            final(self).rest() == chunk@,
            final(self).refills_spec() == (chunk@.len() == CHUNK),
    {
        let len = chunk.len();
        self.buffer = chunk;
        self.index = 0;
        self.len = len;
        self.refills = len == CHUNK;
        proof {
            assert(self.rest() =~= chunk@);
        }
    }

    /// All bytes held in the buffer.
    pub fn buffer(&self) -> (r: &[u8])
        ensures
            r@ == self.buffer_spec(),
    {
        self.buffer.as_slice()
    }

    /// Position of the next byte to read.
    pub fn index(&self) -> (r: usize)
        ensures
            r == self.index_spec(),
    {
        self.index
    }

    /// Number of valid bytes in the buffer.
    pub fn len(&self) -> (r: usize)
        ensures
            r == self.len_spec(),
    {
        self.len
    }
}

} // verus!
