//! The chain of decoders built for compressed data gives back the data.
use vstd::prelude::*;
use crate::compression::{
    apply_method, chain_ends_at, compress_fits, chain_length, chain_level, compress_after, compress_step, decodable,
    is_method_tag, level_readable, method_tag, wrap_level, CompressionMethods, DecoderLevel,
};
use crate::lz77::{decoder_run, initial_decoder_model, lz77_counts_fit, lz77_encode};
use crate::lz78::{lz78_encode, lz78_initial, lz78_run};
use crate::range_coding::{rc_dec_initial, rc_dec_run, rc_encode};
use crate::decoder::{raw_stream, shift, starts_with};
use crate::lz77_round_trip::{lemma_lz77_counts_fit, lemma_lz77_round_trip};
use crate::lz78_round_trip::lemma_lz78_round_trip;
use crate::rc_round_trip::lemma_rc_round_trip;

verus! {

/// The number of methods from the `k`-th on that were applied rather than skipped.
pub open spec fn applied_from(data: Seq<u8>, methods: Seq<CompressionMethods>, k: nat) -> nat
    decreases methods.len() - k,
{
    if k >= methods.len() {
        0
    } else if compress_step(compress_after(data, methods, k), methods[k as int]).1 {
        applied_from(data, methods, k + 1)
    } else {
        applied_from(data, methods, k + 1) + 1
    }
}

proof fn lemma_tagged_nonempty(data: Seq<u8>, methods: Seq<CompressionMethods>, k: nat)
    ensures
        compress_after(data, methods, k).len() >= 1,
    decreases k,
{
    if k > 0 {
        lemma_tagged_nonempty(data, methods, (k - 1) as nat);
    }
}

/// Where a stream starts with data encoded by a method, the decoder for that method's tag on
/// the rest of the stream starts with the data.
proof fn lemma_wrap_decodes(m: CompressionMethods, prev: Seq<u8>, s: spec_fn(nat) -> u8, ok: spec_fn(nat) -> bool)
    requires
        !compress_step(prev, m).1,
        prev.len() >= 1,
        starts_with(s, compress_step(prev, m).0),
    ensures
        is_method_tag(s(0)),
        starts_with(wrap_level(s(0), shift(s, 1), ok).stream, prev),
{
    let tagged = compress_step(prev, m).0;
    assert(s(0) == tagged[0]);
    let rest = shift(s, 1);
    let encoded = tagged.subrange(1, tagged.len() as int);
    assert(starts_with(rest, encoded)) by {
        assert forall|i: nat| i < encoded.len() implies rest(i) == #[trigger] encoded[i as int] by {
            assert(s(i + 1) == tagged[(i + 1) as int]);
        }
    }
    match m {
        CompressionMethods::Raw => {},
        CompressionMethods::LZ77 => {
            assert(encoded =~= crate::lz77::lz77_encode(prev));
            lemma_lz77_round_trip(prev, rest);
        },
        CompressionMethods::LZ78 => {
            assert(encoded =~= crate::lz78::lz78_encode(prev));
            lemma_lz78_round_trip(prev, rest);
        },
        CompressionMethods::RC => {
            assert(encoded =~= crate::range_coding::rc_encode(prev));
            lemma_rc_round_trip(prev, rest);
        },
    }
}

/// The decoder at level `applied_from(k)` of the chain for the compressed data starts with the
/// data tagged after the first `k` methods, and every level below it starts with a method tag.
proof fn lemma_chain_from(data: Seq<u8>, methods: Seq<CompressionMethods>, k: nat)
    requires
        k <= methods.len(),
    ensures
        ({
            let c = compress_after(data, methods, methods.len());
            let i = applied_from(data, methods, k);
            &&& starts_with(chain_level(c, i).stream, compress_after(data, methods, k))
            &&& forall|j: nat| j < i ==> is_method_tag((#[trigger] chain_level(c, j).stream)(0))
        }),
    decreases methods.len() - k,
{
    let c = compress_after(data, methods, methods.len());
    if k == methods.len() {
        assert(starts_with(chain_level(c, 0).stream, c)) by {
            assert forall|j: nat| j < c.len() implies (chain_level(c, 0).stream)(j) == #[trigger] c[j as int] by {
                assert(chain_level(c, 0).stream == raw_stream(c, 0));
            }
        }
    } else {
        lemma_chain_from(data, methods, k + 1);
        let prev = compress_after(data, methods, k);
        let m = methods[k as int];
        let i1 = applied_from(data, methods, k + 1);
        assert(compress_after(data, methods, k + 1) == compress_step(prev, m).0);
        if !compress_step(prev, m).1 {
            let lvl = chain_level(c, i1);
            lemma_tagged_nonempty(data, methods, k);
            lemma_wrap_decodes(m, prev, lvl.stream, |n: nat| (lvl.ok)(n + 1));
            assert(chain_level(c, i1 + 1).stream == wrap_level((lvl.stream)(0), shift(lvl.stream, 1), |n: nat| (lvl.ok)(n + 1)).stream);
        }
    }
}

/// Compressing data and building the chain of decoders for the result: the chain has one
/// decoder for each method applied, and the last one yields the tag of the raw data followed
/// by the data; so the decoder `make_decoder` returns, where it can be built, yields the data.
pub proof fn lemma_compress_round_trip(data: Seq<u8>, methods: Seq<CompressionMethods>)
    ensures
        ({
            let c = compress_after(data, methods, methods.len());
            let l = applied_from(data, methods, 0);
            &&& forall|j: nat| j < l ==> is_method_tag((#[trigger] chain_level(c, j).stream)(0))
            &&& !is_method_tag((chain_level(c, l).stream)(0))
            &&& forall|j: nat| j < data.len() ==> #[trigger] shift(chain_level(c, l).stream, 1)(j) == data[j as int]
            &&& decodable(c) ==> chain_length(c) == l
        }),
{
    let c = compress_after(data, methods, methods.len());
    let l = applied_from(data, methods, 0);
    lemma_chain_from(data, methods, 0);
    let t0 = compress_after(data, methods, 0);
    assert(t0 == seq![0u8] + data);
    let s = chain_level(c, l).stream;
    assert(s(0) == t0[0]);
    assert forall|j: nat| j < data.len() implies #[trigger] shift(s, 1)(j) == data[j as int] by {
        assert(s(j + 1) == t0[(j + 1) as int]);
    }
    if decodable(c) {
        let len = chain_length(c);
        assert(chain_ends_at(c, len));
        if len < l {
            assert(is_method_tag((chain_level(c, len).stream)(0)));
        } else if l < len {
            assert(is_method_tag((chain_level(c, l).stream)(0)));
        }
    }
}


/// Whether the methods from the `k`-th on are all the raw method or LZ77.
pub open spec fn only_lz77_from(methods: Seq<CompressionMethods>, k: nat) -> bool {
    forall|j: int| k <= j < methods.len() ==> (#[trigger] methods[j] is Raw || methods[j] is LZ77)
}

/// Whether every range-coding step is followed only by raw or LZ77 steps. The range decoder
/// holds the next four code bytes, which may reach up to three bytes past the coded data; the
/// decoders of the raw data and of LZ77 can always produce such bytes.
pub open spec fn range_coding_last(methods: Seq<CompressionMethods>) -> bool {
    forall|k: int| 0 <= k < methods.len() && (#[trigger] methods[k] is RC) ==> only_lz77_from(methods, (k + 1) as nat)
}

proof fn lemma_compress_len(data: Seq<u8>, methods: Seq<CompressionMethods>, k: nat)
    ensures
        compress_after(data, methods, k).len() <= data.len() + 1,
    decreases k,
{
    if k > 0 {
        lemma_compress_len(data, methods, (k - 1) as nat);
    }
}

/// The tag at the start of the data after `k` methods names the last method applied: an LZ77
/// tag is followed by at least one byte, and a range-coding tag comes from one of the methods.
proof fn lemma_tag_facts(data: Seq<u8>, methods: Seq<CompressionMethods>, k: nat)
    requires
        k <= methods.len(),
    ensures
        ({
            let t = compress_after(data, methods, k);
            &&& t.len() >= 1
            &&& t[0] <= 3
            &&& t[0] == 1 ==> t.len() >= 2
            &&& t[0] == 3 ==> exists|j: int| 0 <= j < k && #[trigger] methods[j] is RC
        }),
    decreases k,
{
    lemma_tagged_nonempty(data, methods, k);
    if k > 0 {
        let j = (k - 1) as nat;
        lemma_tag_facts(data, methods, j);
        let prev = compress_after(data, methods, j);
        let m = methods[j as int];
        if !compress_step(prev, m).1 {
            let t = compress_after(data, methods, k);
            assert(t == seq![method_tag(m)] + apply_method(m, prev));
            if m is LZ77 {
                assert(lz77_encode(prev).len() >= 1);
            }
            if m is RC {
                assert(methods[j as int] is RC);
            }
        } else {
            if compress_after(data, methods, j)[0] == 3 {
                let w = choose|w: int| 0 <= w < j && #[trigger] methods[w] is RC;
                assert(methods[w] is RC);
            }
        }
    }
}

/// The decoder for the method of an applied step, built on a decoder that yields the step's
/// tagged output and can produce all of it, can produce all the data the step was applied to;
/// it can produce any number of bytes for LZ77 on a decoder that can.
#[verifier::rlimit(40)]
proof fn lemma_level_step(low: DecoderLevel, m: CompressionMethods, prev: Seq<u8>)
    requires
        !compress_step(prev, m).1,
        prev.len() >= 1,
        starts_with(low.stream, compress_step(prev, m).0),
        forall|n: nat| n <= compress_step(prev, m).0.len() ==> #[trigger] (low.ok)(n),
        m is RC ==> forall|n: nat| #[trigger] (low.ok)(n),
    ensures
        ({
            let lvl = wrap_level((low.stream)(0), shift(low.stream, 1), |n: nat| (low.ok)(n + 1));
            &&& forall|n: nat| n <= prev.len() ==> #[trigger] (lvl.ok)(n)
            &&& (m is LZ77 && forall|n: nat| #[trigger] (low.ok)(n)) ==> forall|n: nat| #[trigger] (lvl.ok)(n)
        }),
{
    let s = low.stream;
    let ok1 = |n: nat| (low.ok)(n + 1);
    let rest = shift(s, 1);
    let enc = apply_method(m, prev);
    let tagged = compress_step(prev, m).0;
    let lvl = wrap_level(s(0), rest, ok1);
    assert(tagged == seq![method_tag(m)] + enc);
    assert(s(0) == tagged[0]);
    assert(starts_with(rest, enc)) by {
        assert forall|q: nat| q < enc.len() implies rest(q) == #[trigger] enc[q as int] by {
            assert(s(q + 1) == tagged[(q + 1) as int]);
        }
    }
    match m {
        CompressionMethods::Raw => {},
        CompressionMethods::LZ77 => {
            lemma_lz77_round_trip(prev, rest);
            assert forall|n: nat| n <= prev.len() implies #[trigger] (lvl.ok)(n) by {
                let p = decoder_run(initial_decoder_model(rest(0)), shift(rest, 1), 0, n).1;
                assert(p + 1 <= lz77_encode(prev).len());
                assert((low.ok)(p + 2));
            }
        },
        CompressionMethods::LZ78 => {
            lemma_lz78_round_trip(prev, rest);
            assert forall|n: nat| n <= prev.len() implies #[trigger] (lvl.ok)(n) by {
                let r = lz78_run(lz78_initial(), rest, 0, n);
                assert(r.2 && r.1 <= lz78_encode(prev).len());
                assert((low.ok)(r.1 + 1));
            }
        },
        CompressionMethods::RC => {
            lemma_rc_round_trip(prev, rest);
            assert forall|n: nat| n <= prev.len() implies #[trigger] (lvl.ok)(n) by {
                let r = rc_dec_run(rc_dec_initial(rest), shift(rest, 8), 0, n);
                assert(r.2);
                assert((low.ok)(r.1 + 9));
            }
        },
    }
}

/// Along the chain of decoders for the compressed data, the decoder at level
/// `applied_from(k)` can produce all the bytes of the data after the first `k` methods, and any
/// number of bytes where only raw and LZ77 steps follow.
#[verifier::rlimit(40)]
#[verifier::spinoff_prover]
proof fn lemma_chain_ok(data: Seq<u8>, methods: Seq<CompressionMethods>, k: nat)
    requires
        data.len() < 65535,
        k <= methods.len(),
        range_coding_last(methods),
    ensures
        ({
            let lvl = chain_level(compress_after(data, methods, methods.len()), applied_from(data, methods, k));
            &&& forall|n: nat| n <= compress_after(data, methods, k).len() ==> #[trigger] (lvl.ok)(n)
            &&& only_lz77_from(methods, k) ==> forall|n: nat| #[trigger] (lvl.ok)(n)
        }),
    decreases methods.len() - k,
{
    let c = compress_after(data, methods, methods.len());
    let i = applied_from(data, methods, k);
    let lvl = chain_level(c, i);
    if k == methods.len() {
        lemma_compress_len(data, methods, k);
        assert(i == 0);
        assert forall|n: nat| #[trigger] (lvl.ok)(n) by {}
    } else {
        lemma_chain_ok(data, methods, k + 1);
        lemma_chain_from(data, methods, k + 1);
        let i1 = applied_from(data, methods, k + 1);
        let low = chain_level(c, i1);
        let prev = compress_after(data, methods, k);
        let m = methods[k as int];
        assert(compress_after(data, methods, k + 1) == compress_step(prev, m).0);
        if compress_step(prev, m).1 {
            assert(i == i1);
            assert(only_lz77_from(methods, k) ==> only_lz77_from(methods, k + 1));
        } else {
            assert(i == i1 + 1);
            lemma_tagged_nonempty(data, methods, k);
            if m is RC {
                assert(methods[k as int] is RC);
                assert(only_lz77_from(methods, k + 1));
            }
            lemma_level_step(low, m, prev);
            assert(lvl == wrap_level((low.stream)(0), shift(low.stream, 1), |n: nat| (low.ok)(n + 1)));
            if only_lz77_from(methods, k) {
                assert(methods[k as int] is Raw || methods[k as int] is LZ77);
                assert(only_lz77_from(methods, k + 1));
            }
        }
    }
}

/// Every decoder of the chain up to level `applied_from(k)` can be built.
#[verifier::rlimit(40)]
#[verifier::spinoff_prover]
proof fn lemma_chain_readable(data: Seq<u8>, methods: Seq<CompressionMethods>, k: nat)
    requires
        data.len() < 65535,
        k <= methods.len(),
        range_coding_last(methods),
    ensures
        forall|j: nat|
            j <= applied_from(data, methods, k) ==> level_readable(
                #[trigger] chain_level(compress_after(data, methods, methods.len()), j),
            ),
    decreases methods.len() - k,
{
    let c = compress_after(data, methods, methods.len());
    let i = applied_from(data, methods, k);
    let lvl = chain_level(c, i);
    lemma_chain_ok(data, methods, k);
    lemma_chain_from(data, methods, k);
    lemma_tag_facts(data, methods, k);
    let prev = compress_after(data, methods, k);
    let t = prev[0];
    assert((lvl.stream)(0) == t);
    if t == 3 {
        let w = choose|w: int| 0 <= w < k && #[trigger] methods[w] is RC;
        assert(methods[w] is RC);
        assert(only_lz77_from(methods, (w + 1) as nat));
        assert(only_lz77_from(methods, k));
        assert((lvl.ok)(9));
    } else if t == 1 {
        assert((lvl.ok)(2));
    } else {
        assert((lvl.ok)(1));
    }
    assert(level_readable(lvl));
    if k < methods.len() {
        lemma_chain_readable(data, methods, k + 1);
        let i1 = applied_from(data, methods, k + 1);
        assert(i == i1 || i == i1 + 1);
        assert forall|j: nat| j <= i implies level_readable(#[trigger] chain_level(c, j)) by {
            if j < i {
                assert(j <= i1);
            }
        }
    } else {
        assert forall|j: nat| j <= i implies level_readable(#[trigger] chain_level(c, j)) by {
            assert(j == i);
        }
    }
}

/// The data `compress` returns for fewer than 65535 bytes describes a chain of decoders that
/// can be built, where every range-coding step is followed only by raw or LZ77 steps (as for
/// the LZ77 then range coding of `CompressionBuffer::encode`); the last decoder of the chain can
/// produce the tag of the raw data and all the data after it.
pub proof fn lemma_compress_decodable(data: Seq<u8>, methods: Seq<CompressionMethods>)
    requires
        data.len() < 65535,
        range_coding_last(methods),
    ensures
        ({
            let c = compress_after(data, methods, methods.len());
            &&& decodable(c)
            &&& chain_length(c) == applied_from(data, methods, 0)
            &&& forall|n: nat| n <= data.len() ==> #[trigger] (chain_level(c, chain_length(c)).ok)(n + 1)
        }),
{
    let c = compress_after(data, methods, methods.len());
    let l = applied_from(data, methods, 0);
    lemma_compress_round_trip(data, methods);
    lemma_chain_ok(data, methods, 0);
    lemma_chain_readable(data, methods, 0);
    assert(compress_after(data, methods, 0).len() == data.len() + 1);
    assert(chain_ends_at(c, l));
    lemma_compress_round_trip(data, methods);
    assert forall|n: nat| n <= data.len() implies #[trigger] (chain_level(c, chain_length(c)).ok)(n + 1) by {
        assert((chain_level(c, l).ok)(n + 1));
    }
}

/// Compressing fewer than 65535 bytes keeps every LZ77 step within the encoder's 32-bit
/// counters, so `compress` accepts such data with any methods.
pub proof fn lemma_compress_fits(data: Seq<u8>, methods: Seq<CompressionMethods>)
    requires
        data.len() < 65535,
    ensures
        compress_fits(data, methods),
{
    assert forall|k: nat| k < methods.len() && methods[k as int] is LZ77 implies lz77_counts_fit(
        #[trigger] compress_after(data, methods, k),
    ) by {
        lemma_compress_len(data, methods, k);
        lemma_lz77_counts_fit(compress_after(data, methods, k));
    }
}

} // verus!
