//! Dictionary coding: chunks of up to four samples are replaced by a 16-bit
//! code once they have been seen.
//!
//! Format, per chunk: a flag byte, then either the code as a little-endian
//! `u16` (flag 1), or the chunk's four samples as little-endian `u64`s, a
//! short last chunk padded with zero samples (flag 0).
use vstd::prelude::*;
use crate::bytes::{get_le16, get_le64, le16, le64, lemma_read16_le16, lemma_read64_le64, push_le16, push_le64, read16, read64};

verus! {

/// How many patterns a dictionary can learn; codes run from 0 up to one less.
pub const DICTIONARY_CAPACITY: usize = 65535;

/// The `j`-th sample of `chunk`, padded with zero samples up to four.
pub open spec fn padded(chunk: Seq<u64>, j: int) -> u64 {
    if j < chunk.len() {
        chunk[j]
    } else {
        0
    }
}

/// The 33 bytes that store `chunk` literally.
pub open spec fn literal_bytes(chunk: Seq<u64>) -> Seq<u8> {
    seq![0u8] + le64(padded(chunk, 0)) + le64(padded(chunk, 1)) + le64(padded(chunk, 2)) + le64(
        padded(chunk, 3),
    )
}

/// The 3 bytes that refer to dictionary entry `code`.
pub open spec fn reference_bytes(code: u16) -> Seq<u8> {
    seq![1u8] + le16(code)
}

/// Encoding one chunk against the patterns learned so far: the patterns
/// afterwards, and the bytes written.
pub open spec fn encode_chunk(pats: Seq<Seq<u64>>, chunk: Seq<u64>) -> (Seq<Seq<u64>>, Seq<u8>) {
    if pats.contains(chunk) {
        (pats, reference_bytes(pats.index_of(chunk) as u16))
    } else if pats.len() < DICTIONARY_CAPACITY {
        (pats.push(chunk), literal_bytes(chunk))
    } else {
        (pats, literal_bytes(chunk))
    }
}

/// The first chunk of `data`: its first four samples, or all of them if fewer.
pub open spec fn first_chunk(data: Seq<u64>) -> Seq<u64> {
    if data.len() <= 4 {
        data
    } else {
        data.take(4)
    }
}

/// Encoding `data` chunk by chunk, starting from the patterns `pats`: the
/// patterns learned by the end, and the bytes written.
pub open spec fn dict_encode(pats: Seq<Seq<u64>>, data: Seq<u64>) -> (Seq<Seq<u64>>, Seq<u8>)
    decreases data.len(),
{
    if data.len() == 0 {
        (pats, Seq::empty())
    } else {
        let c = first_chunk(data);
        let step = encode_chunk(pats, c);
        let rest = dict_encode(step.0, data.skip(c.len() as int));
        (rest.0, step.1 + rest.1)
    }
}

/// The samples that dictionary entry `code` stands for; nothing if no such
/// entry has been learned.
pub open spec fn lookup(pats: Seq<Seq<u64>>, code: u16) -> Seq<u64> {
    if code < pats.len() {
        pats[code as int]
    } else {
        Seq::empty()
    }
}

/// The four samples stored literally after the flag byte at `s[0]`.
pub open spec fn literal_samples(s: Seq<u8>) -> Seq<u64> {
    seq![read64(s, 1), read64(s, 9), read64(s, 17), read64(s, 25)]
}

/// Decoding `s` against the patterns `pats`. A reference (flag 1 with two
/// bytes after it) yields the entry's samples; anything else with 32 bytes
/// after the flag is read as a literal; decoding stops at the first flag
/// that has neither.
pub open spec fn dict_decode(pats: Seq<Seq<u64>>, s: Seq<u8>) -> Seq<u64>
    decreases s.len(),
{
    if s.len() == 0 {
        Seq::empty()
    } else if s[0] == 1 && s.len() >= 3 {
        lookup(pats, read16(s, 1)) + dict_decode(pats, s.skip(3))
    } else if s.len() >= 33 {
        literal_samples(s) + dict_decode(pats, s.skip(33))
    } else {
        Seq::empty()
    }
}

/// The four samples of `chunk`, padded with zero samples.
pub open spec fn padded4(chunk: Seq<u64>) -> Seq<u64> {
    seq![padded(chunk, 0), padded(chunk, 1), padded(chunk, 2), padded(chunk, 3)]
}

/// The patterns after a decoder that learns as it reads has met the literal
/// `chunk`: it is learned, as the encoder did, if new and while codes remain.
pub open spec fn learn(pats: Seq<Seq<u64>>, chunk: Seq<u64>) -> Seq<Seq<u64>> {
    if !pats.contains(chunk) && pats.len() < DICTIONARY_CAPACITY {
        pats.push(chunk)
    } else {
        pats
    }
}

/// Decoding `s` while learning each literal as the encoder did, starting
/// from the patterns `pats`: a stream encoded from `pats` carries every
/// pattern its references need.
pub open spec fn dict_decode_learning(pats: Seq<Seq<u64>>, s: Seq<u8>) -> Seq<u64>
    decreases s.len(),
{
    if s.len() == 0 {
        Seq::empty()
    } else if s[0] == 1 && s.len() >= 3 {
        lookup(pats, read16(s, 1)) + dict_decode_learning(pats, s.skip(3))
    } else if s.len() >= 33 {
        literal_samples(s) + dict_decode_learning(learn(pats, literal_samples(s)), s.skip(33))
    } else {
        Seq::empty()
    }
}

/// The zero samples that pad `n` samples up to a multiple of four.
pub open spec fn zero_pad(n: nat) -> Seq<u64> {
    Seq::new(((4 - n % 4) % 4) as nat, |_i: int| 0u64)
}

/// Every learned pattern is a full chunk of four samples.
pub open spec fn full_patterns(pats: Seq<Seq<u64>>) -> bool {
    forall|i: int| 0 <= i < pats.len() ==> #[trigger] pats[i].len() == 4
}

/// `big` agrees with `small` on every code `small` has.
pub open spec fn extends(big: Seq<Seq<u64>>, small: Seq<Seq<u64>>) -> bool {
    &&& small.len() <= big.len()
    &&& forall|i: int| 0 <= i < small.len() ==> #[trigger] big[i] == small[i]
}

/// A set of learned patterns that an encoder can hold.
pub open spec fn patterns_ok(pats: Seq<Seq<u64>>) -> bool {
    pats.len() <= DICTIONARY_CAPACITY && pats.no_duplicates()
}

proof fn lemma_encode_grows(pats: Seq<Seq<u64>>, data: Seq<u64>)
    requires
        patterns_ok(pats),
    ensures
        patterns_ok(dict_encode(pats, data).0),
        extends(dict_encode(pats, data).0, pats),
    decreases data.len(),
{
    if data.len() > 0 {
        let c = first_chunk(data);
        let step = encode_chunk(pats, c);
        if !pats.contains(c) && pats.len() < DICTIONARY_CAPACITY {
            assert forall|i: int, j: int|
                0 <= i < step.0.len() && 0 <= j < step.0.len() && i != j implies step.0[i]
                != step.0[j] by {
                if i == pats.len() as int {
                    assert(!pats.contains(c));
                    assert(step.0[j] == pats[j]);
                } else if j == pats.len() as int {
                    assert(!pats.contains(c));
                    assert(step.0[i] == pats[i]);
                }
            }
        }
        lemma_encode_grows(step.0, data.skip(c.len() as int));
    }
}

proof fn lemma_reference_parts(code: u16, rest: Seq<u8>)
    ensures
        (reference_bytes(code) + rest)[0] == 1,
        (reference_bytes(code) + rest).len() >= 3,
        read16(reference_bytes(code) + rest, 1) == code,
        (reference_bytes(code) + rest).skip(3) == rest,
{
    let s = reference_bytes(code) + rest;
    assert(s.subrange(1, 3) =~= le16(code));
    lemma_read16_le16(s, 1, code);
    assert(s.skip(3) =~= rest);
}

proof fn lemma_literal_parts(chunk: Seq<u64>, rest: Seq<u8>)
    ensures
        (literal_bytes(chunk) + rest)[0] == 0,
        (literal_bytes(chunk) + rest).len() >= 33,
        literal_samples(literal_bytes(chunk) + rest) == padded4(chunk),
        (literal_bytes(chunk) + rest).skip(33) == rest,
{
    let s = literal_bytes(chunk) + rest;
    assert(s.subrange(1, 9) =~= le64(padded(chunk, 0)));
    assert(s.subrange(9, 17) =~= le64(padded(chunk, 1)));
    assert(s.subrange(17, 25) =~= le64(padded(chunk, 2)));
    assert(s.subrange(25, 33) =~= le64(padded(chunk, 3)));
    lemma_read64_le64(s, 1, padded(chunk, 0));
    lemma_read64_le64(s, 9, padded(chunk, 1));
    lemma_read64_le64(s, 17, padded(chunk, 2));
    lemma_read64_le64(s, 25, padded(chunk, 3));
    assert(s.skip(33) =~= rest);
    assert(literal_samples(s) =~= padded4(chunk));
}

proof fn lemma_decode_chunk(big: Seq<Seq<u64>>, pats: Seq<Seq<u64>>, c: Seq<u64>, rest: Seq<u8>)
    requires
        patterns_ok(pats),
        c.len() == 4,
        extends(big, encode_chunk(pats, c).0),
    ensures
        dict_decode(big, encode_chunk(pats, c).1 + rest) == c + dict_decode(big, rest),
{
    if pats.contains(c) {
        let code = pats.index_of(c);
        lemma_reference_parts(code as u16, rest);
        assert(big[code] == pats[code]);
    } else {
        lemma_literal_parts(c, rest);
        assert(padded4(c) =~= c);
    }
}

#[verifier::spinoff_prover]
proof fn lemma_roundtrip_from(big: Seq<Seq<u64>>, pats: Seq<Seq<u64>>, data: Seq<u64>)
    requires
        patterns_ok(pats),
        data.len() % 4 == 0,
        extends(big, dict_encode(pats, data).0),
    ensures
        dict_decode(big, dict_encode(pats, data).1) == data,
    decreases data.len(),
{
    if data.len() > 0 {
        let c = first_chunk(data);
        assert(c.len() == 4);
        let step = encode_chunk(pats, c);
        let rest = data.skip(4);
        lemma_encode_grows(step.0, rest);
        lemma_roundtrip_from(big, step.0, rest);
        lemma_decode_chunk(big, pats, c, dict_encode(step.0, rest).1);
        assert(c + rest =~= data);
    } else {
        assert(data =~= Seq::<u64>::empty());
    }
}

/// Decoding, with the patterns learned by the end, what `encode` produced
/// gives back the samples when their number is a multiple of four (shorter
/// last chunks are padded with zero samples when stored literally).
pub proof fn lemma_dictionary_roundtrip(pats: Seq<Seq<u64>>, data: Seq<u64>)
    requires
        patterns_ok(pats),
        data.len() % 4 == 0,
    ensures
        dict_decode(dict_encode(pats, data).0, dict_encode(pats, data).1) == data,
{
    lemma_roundtrip_from(dict_encode(pats, data).0, pats, data);
}

proof fn lemma_encode_keeps_full(pats: Seq<Seq<u64>>, c: Seq<u64>)
    requires
        full_patterns(pats),
        c.len() == 4,
    ensures
        full_patterns(encode_chunk(pats, c).0),
{
    let p2 = encode_chunk(pats, c).0;
    assert forall|i: int| 0 <= i < p2.len() implies #[trigger] p2[i].len() == 4 by {
        if i < pats.len() {
            assert(p2[i] == pats[i]);
        }
    }
}

proof fn lemma_short_chunk_new(pats: Seq<Seq<u64>>, c: Seq<u64>)
    requires
        full_patterns(pats),
        c.len() < 4,
    ensures
        !pats.contains(c),
{
    if pats.contains(c) {
        let i = choose|i: int| 0 <= i < pats.len() && pats[i] == c;
        assert(pats[i].len() == 4);
    }
}

proof fn lemma_zero_pad_step(n: nat)
    requires
        n >= 4,
    ensures
        zero_pad(n) == zero_pad((n - 4) as nat),
{
    assert(((4 - n % 4) % 4) == ((4 - (n - 4) as nat % 4) % 4));
}

#[verifier::spinoff_prover]
proof fn lemma_padded_from(big: Seq<Seq<u64>>, pats: Seq<Seq<u64>>, data: Seq<u64>)
    requires
        patterns_ok(pats),
        full_patterns(pats),
        extends(big, dict_encode(pats, data).0),
    ensures
        dict_decode(big, dict_encode(pats, data).1) == data + zero_pad(data.len()),
    decreases data.len(),
{
    let c = first_chunk(data);
    if data.len() == 0 {
        assert(data + zero_pad(0) =~= Seq::<u64>::empty());
    } else if data.len() >= 4 {
        assert(c.len() == 4);
        let step = encode_chunk(pats, c);
        let rest = data.skip(4);
        lemma_encode_grows(step.0, rest);
        lemma_encode_keeps_full(pats, c);
        lemma_encode_grows(pats, c);
        lemma_padded_from(big, step.0, rest);
        lemma_decode_chunk(big, pats, c, dict_encode(step.0, rest).1);
        lemma_zero_pad_step(data.len());
        assert(c + (rest + zero_pad(rest.len())) =~= data + zero_pad(data.len()));
    } else {
        assert(c == data);
        lemma_short_chunk_new(pats, c);
        let step = encode_chunk(pats, c);
        let rest = data.skip(c.len() as int);
        assert(rest =~= Seq::<u64>::empty());
        assert(dict_encode(step.0, rest).1 == Seq::<u8>::empty());
        lemma_literal_parts(c, Seq::<u8>::empty());
        assert(literal_bytes(c) + Seq::<u8>::empty() =~= literal_bytes(c));
        assert(dict_decode(big, Seq::<u8>::empty()) == Seq::<u64>::empty());
        assert(dict_decode(big, literal_bytes(c)) == padded4(c) + dict_decode(big, Seq::<u8>::empty()));
        assert(padded4(c) =~= data + zero_pad(data.len()));
        assert(dict_encode(pats, data).1 =~= literal_bytes(c));
    }
}

/// Decoding, with the patterns learned by the end, what `encode` produced
/// from full-chunk patterns (a fresh encoder's, say) gives back the samples,
/// followed by the zero samples that padded a short last chunk.
pub proof fn lemma_dictionary_roundtrip_padded(pats: Seq<Seq<u64>>, data: Seq<u64>)
    requires
        patterns_ok(pats),
        full_patterns(pats),
    ensures
        dict_decode(dict_encode(pats, data).0, dict_encode(pats, data).1) == data + zero_pad(
            data.len(),
        ),
{
    lemma_encode_grows(pats, data);
    lemma_padded_from(dict_encode(pats, data).0, pats, data);
}

proof fn lemma_learning_chunk(pats: Seq<Seq<u64>>, c: Seq<u64>, tail: Seq<u8>)
    requires
        patterns_ok(pats),
        c.len() == 4,
    ensures
        dict_decode_learning(pats, encode_chunk(pats, c).1 + tail) == c + dict_decode_learning(
            encode_chunk(pats, c).0,
            tail,
        ),
{
    let step = encode_chunk(pats, c);
    if pats.contains(c) {
        let code = pats.index_of(c);
        lemma_reference_parts(code as u16, tail);
        assert(lookup(pats, code as u16) == c);
    } else {
        lemma_literal_parts(c, tail);
        assert(padded4(c) =~= c);
        assert(learn(pats, padded4(c)) == step.0);
    }
}

proof fn lemma_learning_short(pats: Seq<Seq<u64>>, data: Seq<u64>)
    requires
        patterns_ok(pats),
        full_patterns(pats),
        0 < data.len() < 4,
    ensures
        dict_decode_learning(pats, dict_encode(pats, data).1) == data + zero_pad(data.len()),
{
    let c = first_chunk(data);
    assert(c == data);
    lemma_short_chunk_new(pats, c);
    let step = encode_chunk(pats, c);
    let rest = data.skip(c.len() as int);
    assert(rest =~= Seq::<u64>::empty());
    assert(dict_encode(step.0, rest).1 == Seq::<u8>::empty());
    lemma_literal_parts(c, Seq::<u8>::empty());
    assert(literal_bytes(c) + Seq::<u8>::empty() =~= literal_bytes(c));
    assert(dict_encode(pats, data).1 =~= literal_bytes(c));
    assert(dict_decode_learning(learn(pats, padded4(c)), Seq::<u8>::empty()) == Seq::<u64>::empty());
    assert(padded4(c) =~= data + zero_pad(data.len()));
}

proof fn lemma_learning_from(pats: Seq<Seq<u64>>, data: Seq<u64>)
    requires
        patterns_ok(pats),
        full_patterns(pats),
    ensures
        dict_decode_learning(pats, dict_encode(pats, data).1) == data + zero_pad(data.len()),
    decreases data.len(),
{
    if data.len() == 0 {
        assert(data + zero_pad(0) =~= Seq::<u64>::empty());
    } else if data.len() >= 4 {
        let c = first_chunk(data);
        assert(c.len() == 4);
        let step = encode_chunk(pats, c);
        let rest = data.skip(4);
        lemma_encode_keeps_full(pats, c);
        lemma_encode_grows(pats, c);
        lemma_learning_from(step.0, rest);
        lemma_learning_chunk(pats, c, dict_encode(step.0, rest).1);
        lemma_zero_pad_step(data.len());
        assert(c + (rest + zero_pad(rest.len())) =~= data + zero_pad(data.len()));
    } else {
        lemma_learning_short(pats, data);
    }
}

/// A decoder that starts from the same full-chunk patterns as the encoder
/// and learns literals as the encoder did needs no other dictionary: it gives
/// back the samples, followed by the zero samples that padded a short last
/// chunk.
pub proof fn lemma_dictionary_self_contained(pats: Seq<Seq<u64>>, data: Seq<u64>)
    requires
        patterns_ok(pats),
        full_patterns(pats),
    ensures
        dict_decode_learning(pats, dict_encode(pats, data).1) == data + zero_pad(data.len()),
{
    lemma_learning_from(pats, data);
}

/// Chunk `k` of `data`: samples `4k` to `4k + 3`, or fewer at the end.
pub open spec fn chunk_at(data: Seq<u64>, k: int) -> Seq<u64> {
    data.subrange(4 * k, if 4 * k + 4 <= data.len() {
        4 * k + 4
    } else {
        data.len() as int
    })
}

/// How many chunks `data` falls into.
pub open spec fn chunk_count(data: Seq<u64>) -> nat {
    (data.len() + 3) / 4
}

/// The distinct chunks of `data`.
pub open spec fn chunk_set(data: Seq<u64>) -> Set<Seq<u64>> {
    Set::new(|c: Seq<u64>| exists|k: int| 0 <= k < chunk_count(data) && c == #[trigger] chunk_at(data, k))
}

proof fn lemma_chunks_of_rest(data: Seq<u64>, k: int)
    requires
        data.len() >= 4,
        0 <= k < chunk_count(data.skip(4)),
    ensures
        chunk_at(data.skip(4), k) == chunk_at(data, k + 1),
        k + 1 < chunk_count(data),
{
    assert(chunk_at(data.skip(4), k) =~= chunk_at(data, k + 1));
}

proof fn lemma_learns_chunks(pats: Seq<Seq<u64>>, data: Seq<u64>)
    requires
        patterns_ok(pats),
    ensures
        forall|i: int|
            pats.len() <= i < dict_encode(pats, data).0.len() ==> #[trigger] chunk_set(data).contains(
                dict_encode(pats, data).0[i],
            ),
        forall|k: int|
            0 <= k < chunk_count(data) ==> dict_encode(pats, data).0.contains(#[trigger] chunk_at(data, k))
                || dict_encode(pats, data).0.len() == DICTIONARY_CAPACITY,
    decreases data.len(),
{
    if data.len() > 0 {
        let c = first_chunk(data);
        let step = encode_chunk(pats, c);
        let rest = data.skip(c.len() as int);
        let fin = dict_encode(pats, data).0;
        lemma_encode_grows(pats, c);
        lemma_encode_grows(step.0, rest);
        lemma_learns_chunks(step.0, rest);
        assert(c =~= chunk_at(data, 0));
        assert forall|i: int| pats.len() <= i < fin.len() implies #[trigger] chunk_set(data).contains(
            fin[i],
        ) by {
            if i < step.0.len() {
                assert(fin[i] == step.0[i]);
                assert(step.0[i] == c);
                assert(c == chunk_at(data, 0));
            } else {
                assert(chunk_set(rest).contains(fin[i]));
                let k = choose|k: int| 0 <= k < chunk_count(rest) && fin[i] == #[trigger] chunk_at(rest, k);
                if data.len() >= 4 {
                    assert(rest == data.skip(4));
                    lemma_chunks_of_rest(data, k);
                    assert(fin[i] == chunk_at(data, k + 1));
                } else {
                    assert(rest.len() == 0);
                }
            }
        }
        assert forall|k: int| 0 <= k < chunk_count(data) implies fin.contains(#[trigger] chunk_at(data, k))
            || fin.len() == DICTIONARY_CAPACITY by {
            if k == 0 {
                if !pats.contains(c) && pats.len() < DICTIONARY_CAPACITY {
                    assert(step.0[pats.len() as int] == c);
                }
                if step.0.contains(c) {
                    let j = choose|j: int| 0 <= j < step.0.len() && step.0[j] == c;
                    assert(fin[j] == step.0[j]);
                } else {
                    assert(step.0.len() == DICTIONARY_CAPACITY);
                }
            } else {
                assert(data.len() >= 4);
                assert(rest == data.skip(4));
                assert(k - 1 < chunk_count(rest));
                lemma_chunks_of_rest(data, k - 1);
            }
        }
    }
}

/// Encoding learns exactly the distinct chunks of the data that the
/// dictionary did not hold yet, until the codes run out: every pattern
/// afterwards was held before or is a chunk, none is held twice, and every
/// chunk is held unless the dictionary is full. So after any series of
/// encodes from a fresh dictionary its size is the number of distinct chunks
/// seen, or the capacity if that is smaller.
pub proof fn lemma_dictionary_size(pats: Seq<Seq<u64>>, data: Seq<u64>)
    requires
        patterns_ok(pats),
    ensures
        ({
            let fin = dict_encode(pats, data).0;
            &&& fin.no_duplicates()
            &&& fin.len() <= DICTIONARY_CAPACITY
            &&& fin.to_set().subset_of(pats.to_set() + chunk_set(data))
            &&& fin.len() < DICTIONARY_CAPACITY ==> fin.to_set() == pats.to_set() + chunk_set(data)
                && fin.len() == (pats.to_set() + chunk_set(data)).len()
        }),
{
    let fin = dict_encode(pats, data).0;
    lemma_encode_grows(pats, data);
    lemma_learns_chunks(pats, data);
    assert forall|c: Seq<u64>| fin.to_set().contains(c) implies (pats.to_set() + chunk_set(
        data,
    )).contains(c) by {
        let i = choose|i: int| 0 <= i < fin.len() && fin[i] == c;
        if i < pats.len() {
            assert(fin[i] == pats[i]);
            assert(pats.to_set().contains(pats[i]));
        } else {
            assert(chunk_set(data).contains(fin[i]));
        }
    }
    if fin.len() < DICTIONARY_CAPACITY {
        assert forall|c: Seq<u64>| (pats.to_set() + chunk_set(data)).contains(c) implies fin.to_set().contains(
            c,
        ) by {
            if pats.to_set().contains(c) {
                let i = choose|i: int| 0 <= i < pats.len() && pats[i] == c;
                assert(fin[i] == pats[i]);
            } else {
                let k = choose|k: int| 0 <= k < chunk_count(data) && c == #[trigger] chunk_at(data, k);
                assert(fin.contains(chunk_at(data, k)));
            }
        }
        assert(fin.to_set() =~= pats.to_set() + chunk_set(data));
        fin.unique_seq_to_set();
    }
}

/// Decoding goes item by item: a reference yields the entry's samples if
/// the code is learned and nothing if it is not, and decoding carries on
/// after its three bytes either way; a literal yields its four samples. The
/// same holds when decoding learns literals, the literal then being learned.
pub proof fn lemma_decode_items(pats: Seq<Seq<u64>>, code: u16, chunk: Seq<u64>, rest: Seq<u8>)
    ensures
        code < pats.len() ==> dict_decode(pats, reference_bytes(code) + rest) == pats[code as int]
            + dict_decode(pats, rest),
        code >= pats.len() ==> dict_decode(pats, reference_bytes(code) + rest) == dict_decode(
            pats,
            rest,
        ),
        code < pats.len() ==> dict_decode_learning(pats, reference_bytes(code) + rest)
            == pats[code as int] + dict_decode_learning(pats, rest),
        code >= pats.len() ==> dict_decode_learning(pats, reference_bytes(code) + rest)
            == dict_decode_learning(pats, rest),
        dict_decode(pats, literal_bytes(chunk) + rest) == padded4(chunk) + dict_decode(pats, rest),
        dict_decode_learning(pats, literal_bytes(chunk) + rest) == padded4(chunk)
            + dict_decode_learning(learn(pats, padded4(chunk)), rest),
{
    lemma_reference_parts(code, rest);
    lemma_literal_parts(chunk, rest);
    if code >= pats.len() {
        assert(Seq::<u64>::empty() + dict_decode(pats, rest) =~= dict_decode(pats, rest));
        assert(Seq::<u64>::empty() + dict_decode_learning(pats, rest) =~= dict_decode_learning(
            pats,
            rest,
        ));
    }
}

/// Chunks that are already in the dictionary cost three bytes each and teach
/// it nothing.
pub proof fn lemma_dictionary_known_chunks(pats: Seq<Seq<u64>>, data: Seq<u64>)
    requires
        patterns_ok(pats),
        data.len() % 4 == 0,
        forall|k: int|
            0 <= k < data.len() / 4 ==> pats.contains(#[trigger] data.subrange(4 * k, 4 * k + 4)),
    ensures
        dict_encode(pats, data).0 == pats,
        dict_encode(pats, data).1.len() == 3 * (data.len() / 4),
    decreases data.len(),
{
    if data.len() > 0 {
        let c = first_chunk(data);
        assert(c =~= data.subrange(0, 4));
        assert(pats.contains(data.subrange(4 * 0int, 4 * 0int + 4)));
        assert(pats.contains(c));
        let rest = data.skip(4);
        assert(rest.len() / 4 == data.len() / 4 - 1);
        assert forall|k: int| 0 <= k < rest.len() / 4 implies pats.contains(
            #[trigger] rest.subrange(4 * k, 4 * k + 4),
        ) by {
            assert(rest.subrange(4 * k, 4 * k + 4) =~= data.subrange(4 * (k + 1), 4 * (k + 1) + 4));
        }
        lemma_dictionary_known_chunks(pats, rest);
    }
}

/// Dictionary encoder: chunks of four samples are mapped to 16-bit codes.
/// The learned patterns persist across calls of `encode`.
#[derive(Debug, Clone)]
pub struct DictionaryEncoder {
    patterns: Vec<Vec<u64>>,
}

impl DictionaryEncoder {
    /// The learned patterns; the code of each is its position.
    pub closed spec fn patterns(&self) -> Seq<Seq<u64>> {
        Seq::new(self.patterns@.len(), |i: int| self.patterns@[i]@)
    }

    /// No pattern is learned twice, and no more than the codes allow.
    pub open spec fn wf(&self) -> bool {
        &&& self.patterns().len() <= DICTIONARY_CAPACITY
        &&& self.patterns().no_duplicates()
    }

    pub fn new() -> (e: Self)
        ensures
            e.wf(),
            e.patterns() == Seq::<Seq<u64>>::empty(),
    {
        let e = Self { patterns: Vec::new() };
        assert(e.patterns() =~= Seq::<Seq<u64>>::empty());
        e
    }

    /// Number of learned patterns.
    pub fn dictionary_size(&self) -> (n: usize)
        ensures
            n == self.patterns().len(),
    {
        self.patterns.len()
    }

    /// The code of `chunk`, if it has been learned.
    fn find(&self, chunk: &Vec<u64>) -> (r: Option<u16>)
        requires
            self.wf(),
        ensures
            match r {
                Some(c) => self.patterns().contains(chunk@) && c as int == self.patterns().index_of(
                    chunk@,
                ),
                None => !self.patterns().contains(chunk@),
            },
    {
        let mut k: usize = 0;
        while k < self.patterns.len()
            invariant
                self.wf(),
                k <= self.patterns().len(),
                forall|j: int| 0 <= j < k ==> self.patterns()[j] != chunk@,
            decreases self.patterns().len() - k,
        {
            if same_samples(&self.patterns[k], chunk) {
                proof {
                    assert(self.patterns()[k as int] == chunk@);
                    assert(self.patterns().contains(chunk@));
                    let i = self.patterns().index_of(chunk@);
                    assert(self.patterns()[i] == chunk@);
                    assert(i == k);
                }
                return Some(k as u16);
            }
            assert(self.patterns()[k as int] != chunk@);
            k = k + 1;
        }
        None
    }

    /// Encodes `data` chunk by chunk, learning each new chunk while codes
    /// remain.
    pub fn encode(&mut self, data: &[u64]) -> (out: Vec<u8>)
        requires
            old(self).wf(),
        ensures
            final(self).wf(),
            (final(self).patterns(), out@) == dict_encode(old(self).patterns(), data@),
    {
        let mut out: Vec<u8> = Vec::new();
        let mut pos: usize = 0;
        assert(data@.skip(0) =~= data@);
        assert(out@ + dict_encode(self.patterns(), data@).1 =~= dict_encode(self.patterns(), data@).1);
        while pos < data.len()
            invariant
                self.wf(),
                pos <= data@.len(),
                dict_encode(self.patterns(), data@.skip(pos as int)).0 == dict_encode(
                    old(self).patterns(),
                    data@,
                ).0,
                out@ + dict_encode(self.patterns(), data@.skip(pos as int)).1 == dict_encode(
                    old(self).patterns(),
                    data@,
                ).1,
            decreases data@.len() - pos,
        {
            let end = if data.len() - pos <= 4 {
                data.len()
            } else {
                pos + 4
            };
            let mut chunk: Vec<u64> = Vec::new();
            let mut j = pos;
            while j < end
                invariant
                    pos <= j <= end <= data@.len(),
                    chunk@ == data@.subrange(pos as int, j as int),
                decreases end - j,
            {
                chunk.push(data[j]);
                j = j + 1;
                assert(chunk@ =~= data@.subrange(pos as int, j as int));
            }
            let ghost rest = data@.skip(pos as int);
            let ghost pats = self.patterns();
            let ghost old_out = out@;
            assert(chunk@ =~= first_chunk(rest));
            assert(data@.skip(end as int) =~= rest.skip(chunk@.len() as int));
            match self.find(&chunk) {
                Some(code) => {
                    out.push(1u8);
                    push_le16(&mut out, code);
                },
                None => {
                    if self.patterns.len() < DICTIONARY_CAPACITY {
                        let ghost before = self.patterns();
                        self.patterns.push(chunk.clone());
                        assert(self.patterns() =~= before.push(chunk@));
                    }
                    push_literal(&mut out, &chunk);
                },
            }
            proof {
                let step = encode_chunk(pats, chunk@);
                assert(self.patterns() == step.0);
                assert(out@ == old_out + step.1);
                assert(out@ + dict_encode(self.patterns(), data@.skip(end as int)).1 =~= old_out
                    + dict_encode(pats, rest).1);
            }
            pos = end;
        }
        assert(data@.skip(pos as int) =~= Seq::<u64>::empty());
        out
    }

    /// Decodes against the learned patterns. A reference to a code that has
    /// not been learned yields nothing.
    pub fn decode(&self, data: &[u8]) -> (out: Vec<u64>)
        ensures
            out@ == dict_decode(self.patterns(), data@),
    {
        let ghost pats = self.patterns();
        let mut out: Vec<u64> = Vec::new();
        let mut pos: usize = 0;
        let mut stop = false;
        assert(data@.skip(0) =~= data@);
        while !stop && pos < data.len()
            invariant
                pats == self.patterns(),
                pos <= data@.len(),
                stop ==> dict_decode(pats, data@.skip(pos as int)) == Seq::<u64>::empty(),
                out@ + dict_decode(pats, data@.skip(pos as int)) == dict_decode(pats, data@),
            decreases data@.len() - pos + (if stop { 0int } else { 1int }),
        {
            match self.read_item(data, pos, &mut out) {
                None => {
                    stop = true;
                },
                Some((next, _)) => {
                    pos = next;
                },
            }
        }
        if !stop {
            assert(data@.skip(pos as int) =~= Seq::<u8>::empty());
        }
        assert(out@ =~= dict_decode(pats, data@));
        out
    }

    /// Reads the item at `data[pos]` and appends its samples to `out`:
    /// `None` if decoding stops there, else the position after it and, for a
    /// literal, its samples.
    fn read_item(&self, data: &[u8], pos: usize, out: &mut Vec<u64>) -> (r: Option<
        (usize, Option<Vec<u64>>),
    >)
        requires
            pos < data@.len(),
        ensures
            ({
                let s = data@.skip(pos as int);
                let pats = self.patterns();
                match r {
                    None => {
                        &&& final(out)@ == old(out)@
                        &&& dict_decode(pats, s) == Seq::<u64>::empty()
                        &&& dict_decode_learning(pats, s) == Seq::<u64>::empty()
                    },
                    Some((next, lit)) => {
                        let rest = data@.skip(next as int);
                        &&& pos < next <= data@.len()
                        &&& match lit {
                            None => {
                                &&& final(out)@ == old(out)@ + lookup(pats, read16(s, 1))
                                &&& dict_decode(pats, s) == lookup(pats, read16(s, 1))
                                    + dict_decode(pats, rest)
                                &&& dict_decode_learning(pats, s) == lookup(pats, read16(s, 1))
                                    + dict_decode_learning(pats, rest)
                            },
                            Some(chunk) => {
                                &&& final(out)@ == old(out)@ + chunk@
                                &&& dict_decode(pats, s) == chunk@ + dict_decode(pats, rest)
                                &&& dict_decode_learning(pats, s) == chunk@
                                    + dict_decode_learning(learn(pats, chunk@), rest)
                            },
                        }
                    },
                }
            }),
    {
        let ghost s = data@.skip(pos as int);
        let flag = data[pos];
        if flag == 1 && data.len() - pos >= 3 {
            let code = get_le16(data, pos + 1);
            assert(read16(s, 1) == code);
            if (code as usize) < self.patterns.len() {
                append_samples(out, &self.patterns[code as usize]);
            }
            assert(s.skip(3) =~= data@.skip(pos + 3));
            Some((pos + 3, None))
        } else if data.len() - pos >= 33 {
            let mut chunk: Vec<u64> = Vec::new();
            chunk.push(get_le64(data, pos + 1));
            chunk.push(get_le64(data, pos + 9));
            chunk.push(get_le64(data, pos + 17));
            chunk.push(get_le64(data, pos + 25));
            append_samples(out, &chunk);
            assert(literal_samples(s) =~= chunk@);
            assert(s.skip(33) =~= data@.skip(pos + 33));
            Some((pos + 33, Some(chunk)))
        } else {
            None
        }
    }
}

impl DictionaryEncoder {
    /// Decodes a stream while learning each literal as the encoder did, so
    /// that references to patterns first sent in the same stream resolve.
    pub(crate) fn decode_learning(&mut self, data: &[u8]) -> (out: Vec<u64>)
        requires
            old(self).wf(),
        ensures
            final(self).wf(),
            out@ == dict_decode_learning(old(self).patterns(), data@),
    {
        let mut out: Vec<u64> = Vec::new();
        let mut pos: usize = 0;
        let mut stop = false;
        assert(data@.skip(0) =~= data@);
        while !stop && pos < data.len()
            invariant
                self.wf(),
                pos <= data@.len(),
                stop ==> dict_decode_learning(self.patterns(), data@.skip(pos as int))
                    == Seq::<u64>::empty(),
                out@ + dict_decode_learning(self.patterns(), data@.skip(pos as int))
                    == dict_decode_learning(old(self).patterns(), data@),
            decreases data@.len() - pos + (if stop { 0int } else { 1int }),
        {
            let ghost pats = self.patterns();
            match self.read_item(data, pos, &mut out) {
                None => {
                    stop = true;
                },
                Some((next, None)) => {
                    pos = next;
                },
                Some((next, Some(chunk))) => {
                    self.learn_literal(chunk);
                    assert(self.patterns() == learn(pats, chunk@));
                    pos = next;
                },
            }
        }
        if !stop {
            assert(data@.skip(pos as int) =~= Seq::<u8>::empty());
        }
        assert(out@ =~= dict_decode_learning(old(self).patterns(), data@));
        out
    }

    /// Learns `chunk` as the encoder does: if new, and while codes remain.
    fn learn_literal(&mut self, chunk: Vec<u64>)
        requires
            old(self).wf(),
        ensures
            final(self).wf(),
            final(self).patterns() == learn(old(self).patterns(), chunk@),
    {
        let ghost pats = self.patterns();
        match self.find(&chunk) {
            Some(_) => {},
            None => {
                if self.patterns.len() < DICTIONARY_CAPACITY {
                    self.patterns.push(chunk);
                    assert(self.patterns() =~= pats.push(chunk@));
                    assert forall|i: int, j: int|
                        0 <= i < self.patterns().len() && 0 <= j < self.patterns().len() && i
                            != j implies self.patterns()[i] != self.patterns()[j] by {
                        if i == pats.len() as int {
                            assert(self.patterns()[j] == pats[j]);
                        } else if j == pats.len() as int {
                            assert(self.patterns()[i] == pats[i]);
                        }
                    }
                }
            },
        }
    }
}

/// Appends the samples of `src`.
fn append_samples(out: &mut Vec<u64>, src: &Vec<u64>)
    ensures
        final(out)@ == old(out)@ + src@,
{
    let mut i: usize = 0;
    while i < src.len()
        invariant
            i <= src@.len(),
            out@ == old(out)@ + src@.take(i as int),
        decreases src@.len() - i,
    {
        out.push(src[i]);
        i = i + 1;
        assert(out@ =~= old(out)@ + src@.take(i as int));
    }
    assert(src@.take(src@.len() as int) =~= src@);
}

/// Appends the literal form of `chunk`.
fn push_literal(out: &mut Vec<u8>, chunk: &Vec<u64>)
    requires
        chunk@.len() <= 4,
    ensures
        final(out)@ == old(out)@ + literal_bytes(chunk@),
{
    out.push(0u8);
    push_le64(out, sample_or_zero(chunk, 0));
    push_le64(out, sample_or_zero(chunk, 1));
    push_le64(out, sample_or_zero(chunk, 2));
    push_le64(out, sample_or_zero(chunk, 3));
    assert(final(out)@ =~= old(out)@ + literal_bytes(chunk@));
}

/// The `j`-th sample of `chunk`, or the zero sample past its end.
fn sample_or_zero(chunk: &Vec<u64>, j: usize) -> (v: u64)
    ensures
        v == padded(chunk@, j as int),
{
    if j < chunk.len() {
        chunk[j]
    } else {
        0
    }
}

impl Default for DictionaryEncoder {
    fn default() -> (e: Self)
        ensures
            e.wf(),
            e.patterns() == Seq::<Seq<u64>>::empty(),
    {
        Self::new()
    }
}

/// Whether two sample sequences are the same.
fn same_samples(a: &Vec<u64>, b: &Vec<u64>) -> (r: bool)
    ensures
        r == (a@ == b@),
{
    if a.len() != b.len() {
        return false;
    }
    let mut i: usize = 0;
    while i < a.len()
        invariant
            a@.len() == b@.len(),
            i <= a@.len(),
            forall|j: int| 0 <= j < i ==> a@[j] == b@[j],
        decreases a@.len() - i,
    {
        if a[i] != b[i] {
            return false;
        }
        i = i + 1;
    }
    assert(a@ =~= b@);
    true
}

} // verus!
