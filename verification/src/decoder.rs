//! Byte decoders and their composition.
//!
//! Every decoder is described by the infinite stream of bytes it will produce from its current
//! state on (`stream`), and by how many of them it can produce without running into an invalid
//! input (`can_produce`). Decoding a byte returns the head of the stream and leaves the decoder
//! describing the rest.
use vstd::prelude::*;
use crate::lz77::LZ77Decoder;
use crate::lz78::LZ78Decoder;
use crate::range_coding::RCDecoder;

verus! {

/// The stream `s` without its first `k` bytes.
pub open spec fn shift(s: spec_fn(nat) -> u8, k: nat) -> spec_fn(nat) -> u8 {
    |i: nat| s(i + k)
}

/// Whether the stream `s` starts with `bytes`.
pub open spec fn starts_with(s: spec_fn(nat) -> u8, bytes: Seq<u8>) -> bool {
    forall|i: nat| i < bytes.len() ==> s(i) == #[trigger] bytes[i as int]
}

/// The first `n` bytes of the stream `s`.
pub open spec fn take(s: spec_fn(nat) -> u8, n: nat) -> Seq<u8> {
    Seq::new(n, |i: int| s(i as nat))
}

/// A decoder of a byte stream.
pub trait Decoder {
    /// The bytes this decoder produces from now on.
    spec fn stream(&self) -> spec_fn(nat) -> u8;

    /// Whether the next `n` bytes can be decoded.
    spec fn can_produce(&self, n: nat) -> bool;

    /// A decoder that can produce some bytes can produce fewer.
    proof fn lemma_produce_monotone(&self, a: nat, b: nat)
        requires
            a <= b,
            self.can_produce(b),
        ensures
            self.can_produce(a),
    ;

    /// Decode the next byte from the data stream.
    ///
    /// This method does not indicate when the meaningful data
    /// has ended, so the length of the original data must be
    /// known to the caller.
    fn decode_u8(&mut self) -> (out: u8)
        requires
            old(self).can_produce(1),
        ensures
            out == old(self).stream()(0),
            final(self).stream() == shift(old(self).stream(), 1),
            forall|n: nat| #[trigger] final(self).can_produce(n) <== old(self).can_produce(n + 1),
    ;
}

/// Reads the bytes of a slice, and zeros once the slice is exhausted.
pub struct RawSliceDecoder<'a> {
    pub data: &'a [u8],
    pub index: u16,
}

/// The bytes of `data` from `index` on, followed by zeros.
pub open spec fn raw_stream(data: Seq<u8>, index: nat) -> spec_fn(nat) -> u8 {
    |i: nat|
        if index + i < data.len() {
            data[(index + i) as int]
        } else {
            0u8
        }
}

impl<'a> RawSliceDecoder<'a> {
    /// A decoder over `data`, positioned at its start.
    pub fn new(data: &'a [u8]) -> (out: RawSliceDecoder<'a>)
        ensures
            out.data@ == data@,
            out.index == 0,
    {
        RawSliceDecoder { data, index: 0 }
    }

    /// The bytes this decoder produces from now on.
    pub open spec fn spec_stream(&self) -> spec_fn(nat) -> u8 {
        raw_stream(self.data@, self.index as nat)
    }

    /// The position counter is 16 bits wide: the next `n` bytes can be read as long as the
    /// position stays representable while the slice lasts.
    pub open spec fn spec_can_produce(&self, n: nat) -> bool {
        self.index + n <= 65535 || self.data@.len() <= 65535
    }
}

impl<'a> Decoder for RawSliceDecoder<'a> {
    open spec fn stream(&self) -> spec_fn(nat) -> u8 {
        self.spec_stream()
    }

    open spec fn can_produce(&self, n: nat) -> bool {
        self.spec_can_produce(n)
    }

    proof fn lemma_produce_monotone(&self, a: nat, b: nat) {
    }

    fn decode_u8(&mut self) -> (out: u8) {
        self.decode()
    }
}

impl<'a> RawSliceDecoder<'a> {
    /// Reads the next byte, or 0 past the end of the slice.
    pub fn decode(&mut self) -> (out: u8)
        requires
            old(self).spec_can_produce(1),
        ensures
            out == old(self).spec_stream()(0),
            final(self).data@ == old(self).data@,
            final(self).spec_stream() == shift(old(self).spec_stream(), 1),
            forall|n: nat| #[trigger] final(self).spec_can_produce(n) <== old(self).spec_can_produce(n + 1),
    {
        let out = if (self.index as usize) < self.data.len() {
            let out = self.data[self.index as usize];
            self.index = self.index + 1;
            out
        } else {
            0
        };
        proof {
            assert(self.spec_stream() =~= shift(old(self).spec_stream(), 1));
        }
        out
    }
}

/// Whether `cur` can produce whatever `orig` could produce after its first `r` bytes.
pub open spec fn can_follow(cur: SourceDecoder, orig: SourceDecoder, r: nat) -> bool {
    forall|m: nat| orig.src_can_produce(m + r) ==> #[trigger] cur.src_can_produce(m)
}

/// After one more byte is read, the reader can follow the original one byte further.
pub proof fn lemma_can_follow_step(cur: SourceDecoder, before: SourceDecoder, orig: SourceDecoder, r: nat)
    requires
        can_follow(before, orig, r),
        forall|n: nat| #[trigger] cur.src_can_produce(n) <== before.src_can_produce(n + 1),
    ensures
        can_follow(cur, orig, r + 1),
{
    assert forall|m: nat| orig.src_can_produce(m + (r + 1)) implies #[trigger] cur.src_can_produce(m) by {
        assert(before.src_can_produce((m + 1) as nat) <== orig.src_can_produce((m + 1) + r));
    }
}

pub proof fn lemma_shift_shift(s: spec_fn(nat) -> u8, a: nat)
    ensures
        shift(shift(s, a), 1) == shift(s, a + 1),
{
    assert(shift(shift(s, a), 1) =~= shift(s, a + 1));
}

/// Shifting a stream twice is shifting it once by the sum.
pub proof fn lemma_shift_twice(s: spec_fn(nat) -> u8, a: nat, b: nat)
    ensures
        shift(shift(s, a), b) == shift(s, a + b),
{
    assert(shift(shift(s, a), b) =~= shift(s, a + b));
}

/// A decoder at any stage of a decoder chain.
pub enum SourceDecoder<'a> {
    Raw(RawSliceDecoder<'a>),
    LZ77(Box<LZ77Decoder<'a>>),
    LZ78(Box<LZ78Decoder<'a>>),
    RC(Box<RCDecoder<'a>>),
}

impl<'a> SourceDecoder<'a> {
    pub open spec fn wf(&self) -> bool
        decreases self,
    {
        match self {
            SourceDecoder::Raw(_) => true,
            SourceDecoder::LZ77(d) => d.wf(),
            SourceDecoder::LZ78(d) => d.wf(),
            SourceDecoder::RC(d) => d.wf(),
        }
    }

    /// The number of decoders stacked on the raw data.
    pub open spec fn depth(&self) -> nat
        decreases self,
    {
        match self {
            SourceDecoder::Raw(_) => 0,
            SourceDecoder::LZ77(d) => 1 + d.source.depth(),
            SourceDecoder::LZ78(d) => 1 + d.source.depth(),
            SourceDecoder::RC(d) => 1 + d.source.depth(),
        }
    }

    pub open spec fn src_stream(&self) -> spec_fn(nat) -> u8
        decreases self,
    {
        match self {
            SourceDecoder::Raw(d) => d.spec_stream(),
            SourceDecoder::LZ77(d) => d.spec_stream(),
            SourceDecoder::LZ78(d) => d.spec_stream(),
            SourceDecoder::RC(d) => d.spec_stream(),
        }
    }

    pub open spec fn src_can_produce(&self, n: nat) -> bool
        decreases self,
    {
        match self {
            SourceDecoder::Raw(d) => d.spec_can_produce(n),
            SourceDecoder::LZ77(d) => d.spec_can_produce(n),
            SourceDecoder::LZ78(d) => d.spec_can_produce(n),
            SourceDecoder::RC(d) => d.spec_can_produce(n),
        }
    }

    pub proof fn lemma_can_produce_monotone(&self, a: nat, b: nat)
        requires
            a <= b,
            self.wf(),
            self.src_can_produce(b),
        ensures
            self.src_can_produce(a),
        decreases self,
    {
        match self {
            SourceDecoder::Raw(d) => {},
            SourceDecoder::LZ77(d) => d.lemma_can_produce_monotone(a, b),
            SourceDecoder::LZ78(d) => d.lemma_can_produce_monotone(a, b),
            SourceDecoder::RC(d) => d.lemma_can_produce_monotone(a, b),
        }
    }

    /// Decodes the next byte.
    pub fn decode(&mut self) -> (out: u8)
        requires
            old(self).wf(),
            old(self).src_can_produce(1),
        ensures
            final(self).wf(),
            out == old(self).src_stream()(0),
            final(self).src_stream() == shift(old(self).src_stream(), 1),
            forall|n: nat| #[trigger] final(self).src_can_produce(n) <== old(self).src_can_produce(n + 1),
            final(self).depth() == old(self).depth(),
        decreases old(self).depth(), 3nat,
    {
        let out = match self {
            SourceDecoder::Raw(d) => d.decode(),
            SourceDecoder::LZ77(d) => d.decode(),
            SourceDecoder::LZ78(d) => d.decode(),
            SourceDecoder::RC(d) => d.decode(),
        };
        proof {
            assert forall|n: nat| old(self).src_can_produce(n + 1) implies #[trigger] self.src_can_produce(n) by {
                match (*old(self), *self) {
                    (SourceDecoder::Raw(d0), SourceDecoder::Raw(d1)) => {
                        assert(d1.spec_can_produce(n) <== d0.spec_can_produce(n + 1));
                    },
                    (SourceDecoder::LZ77(d0), SourceDecoder::LZ77(d1)) => {
                        assert(d1.spec_can_produce(n) <== d0.spec_can_produce(n + 1));
                    },
                    (SourceDecoder::LZ78(d0), SourceDecoder::LZ78(d1)) => {
                        assert(d1.spec_can_produce(n) <== d0.spec_can_produce(n + 1));
                    },
                    (SourceDecoder::RC(d0), SourceDecoder::RC(d1)) => {
                        assert(d1.spec_can_produce(n) <== d0.spec_can_produce(n + 1));
                    },
                    _ => {},
                }
            }
        }
        out
    }
}

impl<'a> Decoder for SourceDecoder<'a> {
    open spec fn stream(&self) -> spec_fn(nat) -> u8 {
        self.src_stream()
    }

    open spec fn can_produce(&self, n: nat) -> bool {
        self.wf() && self.src_can_produce(n)
    }

    proof fn lemma_produce_monotone(&self, a: nat, b: nat) {
        self.lemma_can_produce_monotone(a, b);
    }

    fn decode_u8(&mut self) -> (out: u8) {
        self.decode()
    }
}

/// The stream a raw decoder reads from the start of `data` starts with `data`, so the round
/// trips of the compression methods apply to a decoder built on a `RawSliceDecoder`.
pub proof fn lemma_raw_stream_starts_with(data: Seq<u8>)
    ensures
        starts_with(raw_stream(data, 0), data),
{
}

} // verus!
