//! Chaining compression methods, and building the matching chain of decoders.
//!
//! Compressed data starts with a tag byte naming the last method applied; the data that method
//! decodes to starts with the tag of the method applied before it, and so on down to the tag 0
//! of the raw data.
use vstd::prelude::*;
use crate::decoder::{RawSliceDecoder, SourceDecoder, raw_stream, shift};
use crate::lz77::{LZ77Decoder, decoder_run, encode_lz77, initial_decoder_model, lz77_counts_fit, lz77_decode_stream, lz77_encode};
use crate::lz78::{LZ78Decoder, encode_lz78, lz78_encode, lz78_initial, lz78_output, lz78_run};
use crate::range_coding::{RCDecoder, encode_rc, rc_dec_initial, rc_dec_output, rc_dec_run, rc_encode};

verus! {

/// The available compression methods.
#[derive(Clone, Copy)]
pub enum CompressionMethods {
    Raw,
    LZ77,
    LZ78,
    RC,
}

/// The tag byte that names a compression method in compressed data.
pub open spec fn method_tag(m: CompressionMethods) -> u8 {
    match m {
        CompressionMethods::Raw => 0,
        CompressionMethods::LZ77 => 1,
        CompressionMethods::LZ78 => 2,
        CompressionMethods::RC => 3,
    }
}

impl CompressionMethods {
    /// The tag byte that names this method in compressed data.
    pub fn tag(&self) -> (out: u8)
        ensures
            out == method_tag(*self),
    {
        match self {
            CompressionMethods::Raw => 0,
            CompressionMethods::LZ77 => 1,
            CompressionMethods::LZ78 => 2,
            CompressionMethods::RC => 3,
        }
    }
}

/// Information on the invocation of a compression method.
pub struct CompressionReport {
    /// The compression method used.
    pub method: CompressionMethods,
    /// The size of the data after compression. If this method was skipped,
    /// this will hold the size of the uncompressed data.
    pub compressed_size: usize,
    /// Whether this method was skipped within `compress`
    pub skipped: bool,
}

/// The data encoded with method `m`.
pub open spec fn apply_method(m: CompressionMethods, data: Seq<u8>) -> Seq<u8> {
    match m {
        CompressionMethods::Raw => data,
        CompressionMethods::LZ77 => lz77_encode(data),
        CompressionMethods::LZ78 => lz78_encode(data),
        CompressionMethods::RC => rc_encode(data),
    }
}

/// Applies method `m` to the tagged data `prev`: the tagged result, or `prev` unchanged when the
/// result (with its tag) would not be shorter; and whether the method was skipped.
pub open spec fn compress_step(prev: Seq<u8>, m: CompressionMethods) -> (Seq<u8>, bool) {
    let new = apply_method(m, prev);
    if new.len() + 1 < prev.len() {
        (seq![method_tag(m)] + new, false)
    } else {
        (prev, true)
    }
}

/// The tagged data after the first `k` methods.
pub open spec fn compress_after(data: Seq<u8>, methods: Seq<CompressionMethods>, k: nat) -> Seq<u8>
    decreases k,
{
    if k == 0 {
        seq![0u8] + data
    } else {
        compress_step(compress_after(data, methods, (k - 1) as nat), methods[k - 1]).0
    }
}

/// The report on the `k`-th method.
pub open spec fn compress_report(data: Seq<u8>, methods: Seq<CompressionMethods>, k: nat) -> (CompressionMethods, nat, bool) {
    (methods[k as int], compress_after(data, methods, k + 1).len(), compress_step(compress_after(data, methods, k), methods[k as int]).1)
}

/// Whether the byte statistics of every LZ77 step fit the 32-bit counters of the encoder.
pub open spec fn compress_fits(data: Seq<u8>, methods: Seq<CompressionMethods>) -> bool {
    forall|k: nat|
        k < methods.len() && methods[k as int] is LZ77 ==> lz77_counts_fit(#[trigger] compress_after(data, methods, k))
}

proof fn lemma_compress_nonempty(data: Seq<u8>, methods: Seq<CompressionMethods>, k: nat)
    requires
        k <= methods.len(),
    ensures
        compress_after(data, methods, k).len() >= 1,
    decreases k,
{
    if k > 0 {
        lemma_compress_nonempty(data, methods, (k - 1) as nat);
    }
}

/// Compresses the data using the list of `CompressionMethods`.
/// If the use of a compression did not decrease the size of the data,
/// it is skipped.
///
/// The function returns both the compressed data and a list of `CompressionReport`s,
/// with one entry for each compression method.
pub fn compress(data: &[u8], methods: &[CompressionMethods]) -> (out: (Vec<u8>, Vec<CompressionReport>))
    requires
        data@.len() < usize::MAX,
        data@.len() < 65535 || compress_fits(data@, methods@),
    ensures
        out.0@ == compress_after(data@, methods@, methods@.len()),
        out.1@.len() == methods@.len(),
        forall|k: int|
            0 <= k < methods@.len() ==> ((#[trigger] out.1@[k]).method, out.1@[k].compressed_size as nat, out.1@[k].skipped)
                == compress_report(data@, methods@, k as nat),
{
    proof {
        if data@.len() < 65535 {
            crate::compress_round_trip::lemma_compress_fits(data@, methods@);
        }
    }
    let mut out = vstd::slice::slice_to_vec(data);
    let mut reports: Vec<CompressionReport> = Vec::with_capacity(methods.len());
    out.insert(0, 0);
    proof {
        assert(out@ =~= seq![0u8] + data@);
    }
    let mut i: usize = 0;
    while i < methods.len()
        invariant
            i <= methods@.len(),
            compress_fits(data@, methods@),
            out@ == compress_after(data@, methods@, i as nat),
            reports@.len() == i,
            forall|k: int|
                0 <= k < i ==> ((#[trigger] reports@[k]).method, reports@[k].compressed_size as nat, reports@[k].skipped)
                    == compress_report(data@, methods@, k as nat),
        decreases methods@.len() - i,
    {
        let method = methods[i];
        proof {
            lemma_compress_nonempty(data@, methods@, i as nat);
            if method is LZ77 {
                assert(lz77_counts_fit(compress_after(data@, methods@, i as nat)));
            }
        }
        let mut new = match method {
            CompressionMethods::Raw => {
                let copy = out.clone();
                assert(copy@ =~= out@);
                copy
            },
            CompressionMethods::LZ77 => encode_lz77(&out),
            CompressionMethods::LZ78 => encode_lz78(&out),
            CompressionMethods::RC => encode_rc(&out),
        };
        assert(new@ == apply_method(method, out@));
        if new.len() < out.len() - 1 {
            let mut tag = vec![method.tag()];
            tag.append(&mut new);
            out = tag;
            reports.push(CompressionReport { method, compressed_size: out.len(), skipped: false });
        } else {
            reports.push(CompressionReport { method, compressed_size: out.len(), skipped: true });
        }
        proof {
            assert(out@ == compress_after(data@, methods@, (i + 1) as nat));
            assert forall|k: int|
                0 <= k < i + 1 implies ((#[trigger] reports@[k]).method, reports@[k].compressed_size as nat,
                reports@[k].skipped) == compress_report(data@, methods@, k as nat) by {}
        }
        i = i + 1;
    }
    (out, reports)
}

/// A decoder in a chain, described by the bytes it produces and by a condition on `n` under
/// which it can produce `n` bytes.
pub struct DecoderLevel {
    pub stream: spec_fn(nat) -> u8,
    pub ok: spec_fn(nat) -> bool,
}

/// The decoder for tag `tag` on top of a source producing `rest`, which can produce `n` bytes
/// when `ok(n)`.
pub open spec fn wrap_level(tag: u8, rest: spec_fn(nat) -> u8, ok: spec_fn(nat) -> bool) -> DecoderLevel {
    if tag == 1 {
        DecoderLevel {
            stream: lz77_decode_stream(rest),
            ok: |n: nat| ok(decoder_run(initial_decoder_model(rest(0)), shift(rest, 1), 0, n).1 + 1),
        }
    } else if tag == 2 {
        DecoderLevel {
            stream: lz78_output(lz78_initial(), rest),
            ok: |n: nat| lz78_run(lz78_initial(), rest, 0, n).2 && ok(lz78_run(lz78_initial(), rest, 0, n).1),
        }
    } else {
        DecoderLevel {
            stream: rc_dec_output(rc_dec_initial(rest), shift(rest, 8)),
            ok: |n: nat|
                rc_dec_run(rc_dec_initial(rest), shift(rest, 8), 0, n).2 && ok(
                    rc_dec_run(rc_dec_initial(rest), shift(rest, 8), 0, n).1 + 8,
                ),
        }
    }
}

/// The `i`-th decoder of the chain for `data`: the raw data, then each decoder on top of the
/// one before, once that one's tag byte is read.
pub open spec fn chain_level(data: Seq<u8>, i: nat) -> DecoderLevel
    decreases i,
{
    if i == 0 {
        DecoderLevel { stream: raw_stream(data, 0), ok: |n: nat| n <= 65535 || data.len() <= 65535 }
    } else {
        let prev = chain_level(data, (i - 1) as nat);
        wrap_level((prev.stream)(0), shift(prev.stream, 1), |n: nat| (prev.ok)(n + 1))
    }
}

/// Whether `t` is the tag of a compression method other than the raw data.
pub open spec fn is_method_tag(t: u8) -> bool {
    1 <= t <= 3
}

/// Whether the tag of a decoder can be read and the decoder it names be built on it.
pub open spec fn level_readable(l: DecoderLevel) -> bool {
    let t = (l.stream)(0);
    if t == 1 {
        (l.ok)(2)
    } else if t == 3 {
        (l.ok)(9)
    } else {
        (l.ok)(1)
    }
}

/// Whether the chain for `data` has `len` decoders on top of the raw data, each of which can
/// be built.
pub open spec fn chain_ends_at(data: Seq<u8>, len: nat) -> bool {
    &&& !is_method_tag((chain_level(data, len).stream)(0))
    &&& forall|i: nat| i < len ==> is_method_tag((#[trigger] chain_level(data, i).stream)(0))
    &&& forall|i: nat| i <= len ==> level_readable(#[trigger] chain_level(data, i))
}

/// Whether a chain of decoders can be built for `data`.
pub open spec fn decodable(data: Seq<u8>) -> bool {
    exists|len: nat| chain_ends_at(data, len)
}

/// The number of decoders on top of the raw data in the chain for `data`.
pub open spec fn chain_length(data: Seq<u8>) -> nat {
    choose|len: nat| chain_ends_at(data, len)
}

proof fn lemma_chain_length(data: Seq<u8>, len: nat)
    requires
        chain_ends_at(data, len),
    ensures
        chain_length(data) == len,
{
    let l2 = chain_length(data);
    assert(chain_ends_at(data, l2));
    if l2 < len {
        assert(is_method_tag((chain_level(data, l2).stream)(0)));
    } else if len < l2 {
        assert(is_method_tag((chain_level(data, len).stream)(0)));
    }
}

/// An LZ77 decoder on top of `source`.
#[verifier::rlimit(60)]
fn wrap_lz77<'a>(
    source: SourceDecoder<'a>,
    Ghost(rest): Ghost<spec_fn(nat) -> u8>,
    Ghost(ok): Ghost<spec_fn(nat) -> bool>,
) -> (out: SourceDecoder<'a>)
    requires
        source.wf(),
        source.src_stream() == rest,
        forall|n: nat| ok(n) ==> #[trigger] source.src_can_produce(n),
        ok(1),
    ensures
        out.wf(),
        out.src_stream() == wrap_level(1, rest, ok).stream,
        forall|n: nat| (wrap_level(1, rest, ok).ok)(n) ==> #[trigger] out.src_can_produce(n),
{
    let d = LZ77Decoder::new(Box::new(source));
    let out = SourceDecoder::LZ77(Box::new(d));
    proof {
        assert forall|n: nat| (wrap_level(1, rest, ok).ok)(n) implies #[trigger] out.src_can_produce(n) by {
            let m = decoder_run(initial_decoder_model(rest(0)), shift(rest, 1), 0, n).1;
            assert(ok(m + 1));
            assert(source.src_can_produce(m + 1));
            assert(d.spec_can_produce(n));
        }
    }
    out
}

/// An LZ78 decoder on top of `source`.
fn wrap_lz78<'a>(
    source: SourceDecoder<'a>,
    Ghost(rest): Ghost<spec_fn(nat) -> u8>,
    Ghost(ok): Ghost<spec_fn(nat) -> bool>,
) -> (out: SourceDecoder<'a>)
    requires
        source.wf(),
        source.src_stream() == rest,
        forall|n: nat| ok(n) ==> #[trigger] source.src_can_produce(n),
    ensures
        out.wf(),
        out.src_stream() == wrap_level(2, rest, ok).stream,
        forall|n: nat| (wrap_level(2, rest, ok).ok)(n) ==> #[trigger] out.src_can_produce(n),
{
    let d = LZ78Decoder::new(Box::new(source));
    let out = SourceDecoder::LZ78(Box::new(d));
    proof {
        assert forall|n: nat| (wrap_level(2, rest, ok).ok)(n) implies #[trigger] out.src_can_produce(n) by {
            assert(source.src_can_produce(lz78_run(lz78_initial(), rest, 0, n).1));
        }
    }
    out
}

/// A range decoder on top of `source`.
#[verifier::rlimit(60)]
fn wrap_rc<'a>(
    source: SourceDecoder<'a>,
    Ghost(rest): Ghost<spec_fn(nat) -> u8>,
    Ghost(ok): Ghost<spec_fn(nat) -> bool>,
) -> (out: SourceDecoder<'a>)
    requires
        source.wf(),
        source.src_stream() == rest,
        forall|n: nat| ok(n) ==> #[trigger] source.src_can_produce(n),
        ok(8),
    ensures
        out.wf(),
        out.src_stream() == wrap_level(3, rest, ok).stream,
        forall|n: nat| (wrap_level(3, rest, ok).ok)(n) ==> #[trigger] out.src_can_produce(n),
{
    let d = RCDecoder::new(Box::new(source));
    let out = SourceDecoder::RC(Box::new(d));
    proof {
        assert forall|n: nat| (wrap_level(3, rest, ok).ok)(n) implies #[trigger] out.src_can_produce(n) by {
            let r = rc_dec_run(rc_dec_initial(rest), shift(rest, 8), 0, n);
            assert(r.2);
            assert(ok(r.1 + 8));
            assert(source.src_can_produce(r.1 + 8));
            assert(d.source.src_can_produce(r.1));
            assert(d.spec_can_produce(n));
        }
    }
    out
}

/// Creates a `Decoder` for the compressed data.
///
/// The data must describe a chain of decoders that can be built (as data made by `compress`
/// does); the returned decoder does not know the original length of the data.
pub fn make_decoder<'a>(data: &'a [u8]) -> (out: SourceDecoder<'a>)
    requires
        decodable(data@),
    ensures
        out.wf(),
        out.src_stream() == shift(chain_level(data@, chain_length(data@)).stream, 1),
        forall|n: nat|
            (chain_level(data@, chain_length(data@)).ok)(n + 1) ==> #[trigger] out.src_can_produce(n),
{
    let ghost len = chain_length(data@);
    proof {
        let l = choose|l: nat| chain_ends_at(data@, l);
        lemma_chain_length(data@, l);
    }
    let mut decoder: SourceDecoder<'a> = SourceDecoder::Raw(RawSliceDecoder::new(data));
    let ghost mut i: nat = 0;
    proof {
        assert(decoder.src_stream() =~= chain_level(data@, 0).stream);
    }
    loop
        invariant
            decoder.wf(),
            chain_ends_at(data@, len),
            len == chain_length(data@),
            i <= len,
            decoder.src_stream() == chain_level(data@, i).stream,
            forall|n: nat| (chain_level(data@, i).ok)(n) ==> #[trigger] decoder.src_can_produce(n),
        decreases len - i,
    {
        let ghost lvl = chain_level(data@, i);
        assert(level_readable(lvl));
        proof {
            if (lvl.stream)(0) == 1 {
                decoder.lemma_can_produce_monotone(1, 2);
            } else if (lvl.stream)(0) == 3 {
                decoder.lemma_can_produce_monotone(1, 9);
            }
        }
        let ghost before = decoder;
        let method = decoder.decode();
        let ghost next = chain_level(data@, i + 1);
        proof {
            assert(next == wrap_level(method, shift(lvl.stream, 1), |n: nat| (lvl.ok)(n + 1)));
        }
        proof {
            assert forall|n: nat| (|n: nat| (lvl.ok)(n + 1))(n) implies #[trigger] decoder.src_can_produce(n) by {
                assert(before.src_can_produce(n + 1));
            }
        }
        if !(1 <= method && method <= 3) {
            return decoder;
        }
        let ghost rest = shift(lvl.stream, 1);
        let ghost ok = |n: nat| (lvl.ok)(n + 1);
        decoder = if method == 1 {
            wrap_lz77(decoder, Ghost(rest), Ghost(ok))
        } else if method == 2 {
            wrap_lz78(decoder, Ghost(rest), Ghost(ok))
        } else {
            wrap_rc(decoder, Ghost(rest), Ghost(ok))
        };
        proof {
            assert(i < len);
            i = i + 1;
        }
    }
}

} // verus!
