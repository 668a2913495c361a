//! The flat tuple format: no header, 16 bytes per tuple, an 8-byte key then
//! an 8-byte payload, each in a given byte order.
use vstd::prelude::*;

use crate::tuple::Tuple;

verus! {

/// Bytes per stored tuple.
pub const TUPLE_BYTES: usize = 16;

/// Byte order of the 64-bit words in the stored format.
#[derive(Clone, Copy, Debug, PartialEq, Eq, Structural)]
pub enum ByteOrder {
    Little,
    Big,
}

/// Why stored bytes cannot be read as tuples.
#[derive(Clone, Copy, Debug, PartialEq, Eq, Structural)]
pub enum FormatError {
    /// The byte count is not a multiple of the tuple size.
    TruncatedRecord,
}

pub open spec fn pow256(k: nat) -> nat
    decreases k,
{
    if k == 0 {
        1
    } else {
        256 * pow256((k - 1) as nat)
    }
}

/// Value of bytes read least significant first.
pub open spec fn le_value(b: Seq<u8>) -> nat
    decreases b.len(),
{
    if b.len() == 0 {
        0
    } else {
        (b[0] + 256 * le_value(b.drop_first())) as nat
    }
}

/// The `k` low bytes of `x`, least significant first.
pub open spec fn le_bytes(x: nat, k: nat) -> Seq<u8>
    decreases k,
{
    if k == 0 {
        Seq::empty()
    } else {
        seq![(x % 256) as u8] + le_bytes(x / 256, (k - 1) as nat)
    }
}

pub open spec fn reversed(b: Seq<u8>) -> Seq<u8> {
    Seq::new(b.len(), |i: int| b[b.len() - 1 - i])
}

/// The bytes of `b` from least to most significant.
pub open spec fn significance_order(b: Seq<u8>, order: ByteOrder) -> Seq<u8> {
    match order {
        ByteOrder::Little => b,
        ByteOrder::Big => reversed(b),
    }
}

/// Value of a stored word.
pub open spec fn word_value(b: Seq<u8>, order: ByteOrder) -> nat {
    le_value(significance_order(b, order))
}

/// The eight stored bytes of `x`.
pub open spec fn word_bytes(x: u64, order: ByteOrder) -> Seq<u8> {
    significance_order(le_bytes(x as nat, 8), order)
}

/// The stored form of a sequence of tuples.
pub open spec fn encoded(ts: Seq<Tuple>, order: ByteOrder) -> Seq<u8>
    decreases ts.len(),
{
    if ts.len() == 0 {
        Seq::empty()
    } else {
        encoded(ts.drop_last(), order) + word_bytes(ts.last().key, order) + word_bytes(
            ts.last().payload,
            order,
        )
    }
}

/// The tuples stored in `b`, whose length is a multiple of the tuple size.
pub open spec fn decoded(b: Seq<u8>, order: ByteOrder) -> Seq<Tuple> {
    Seq::new(
        b.len() / 16,
        |i: int|
            Tuple {
                key: word_value(b.subrange(16 * i, 16 * i + 8), order) as u64,
                payload: word_value(b.subrange(16 * i + 8, 16 * i + 16), order) as u64,
            },
    )
}

proof fn lemma_pow256_mono(j: nat, k: nat)
    requires
        j <= k,
    ensures
        1 <= pow256(j) <= pow256(k),
    decreases k,
{
    if j < k {
        lemma_pow256_mono(j, (k - 1) as nat);
    } else if k > 0 {
        lemma_pow256_mono(0, (k - 1) as nat);
    }
}

proof fn lemma_le_value_bound(b: Seq<u8>)
    ensures
        le_value(b) < pow256(b.len()),
    decreases b.len(),
{
    if b.len() > 0 {
        lemma_le_value_bound(b.drop_first());
    }
}

proof fn lemma_le_bytes_len(x: nat, k: nat)
    ensures
        le_bytes(x, k).len() == k,
    decreases k,
{
    if k > 0 {
        lemma_le_bytes_len(x / 256, (k - 1) as nat);
    }
}

proof fn lemma_le_round_trip(x: nat, k: nat)
    requires
        x < pow256(k),
    ensures
        le_value(le_bytes(x, k)) == x,
        le_bytes(x, k).len() == k,
    decreases k,
{
    if k > 0 {
        let k0 = (k - 1) as nat;
        assert(x / 256 < pow256(k0)) by (nonlinear_arith)
            requires
                x < 256 * pow256(k0),
        ;
        lemma_le_round_trip(x / 256, k0);
        assert(le_bytes(x, k).drop_first() =~= le_bytes(x / 256, k0));
    }
}

/// Reading back the stored bytes of a word gives the word.
pub proof fn lemma_word_round_trip(x: u64, order: ByteOrder)
    ensures
        word_bytes(x, order).len() == 8,
        word_value(word_bytes(x, order), order) == x,
{
    reveal_with_fuel(pow256, 9);
    lemma_le_round_trip(x as nat, 8);
    assert(reversed(reversed(le_bytes(x as nat, 8))) =~= le_bytes(x as nat, 8));
}

proof fn lemma_encoded_len(ts: Seq<Tuple>, order: ByteOrder)
    ensures
        encoded(ts, order).len() == 16 * ts.len(),
    decreases ts.len(),
{
    if ts.len() > 0 {
        lemma_encoded_len(ts.drop_last(), order);
        lemma_word_round_trip(ts.last().key, order);
        lemma_word_round_trip(ts.last().payload, order);
    }
}

proof fn lemma_encoded_record(ts: Seq<Tuple>, order: ByteOrder, i: int)
    requires
        0 <= i < ts.len(),
    ensures
        encoded(ts, order).subrange(16 * i, 16 * i + 8) == word_bytes(ts[i].key, order),
        encoded(ts, order).subrange(16 * i + 8, 16 * i + 16) == word_bytes(ts[i].payload, order),
    decreases ts.len(),
{
    let t0 = ts.drop_last();
    lemma_encoded_len(t0, order);
    lemma_word_round_trip(ts.last().key, order);
    lemma_word_round_trip(ts.last().payload, order);
    let e = encoded(ts, order);
    if i < ts.len() - 1 {
        lemma_encoded_record(t0, order, i);
        assert(e.subrange(16 * i, 16 * i + 8) =~= encoded(t0, order).subrange(16 * i, 16 * i + 8));
        assert(e.subrange(16 * i + 8, 16 * i + 16) =~= encoded(t0, order).subrange(
            16 * i + 8,
            16 * i + 16,
        ));
    } else {
        assert(e.subrange(16 * i, 16 * i + 8) =~= word_bytes(ts[i].key, order));
        assert(e.subrange(16 * i + 8, 16 * i + 16) =~= word_bytes(ts[i].payload, order));
    }
}

/// Reading back the stored form of any tuples gives the same tuples.
pub proof fn lemma_round_trip(ts: Seq<Tuple>, order: ByteOrder)
    ensures
        encoded(ts, order).len() % 16 == 0,
        decoded(encoded(ts, order), order) == ts,
{
    lemma_encoded_len(ts, order);
    assert forall|i: int| 0 <= i < ts.len() implies #[trigger] decoded(encoded(ts, order), order)[i]
        == ts[i] by {
        lemma_encoded_record(ts, order, i);
        lemma_word_round_trip(ts[i].key, order);
        lemma_word_round_trip(ts[i].payload, order);
    }
    assert(decoded(encoded(ts, order), order) =~= ts);
}

/// The stored bytes of `x`.
pub fn encode_word(x: u64, order: ByteOrder) -> (r: Vec<u8>)
    ensures
        r@ == word_bytes(x, order),
        r.len() == 8,
{
    proof {
        lemma_le_bytes_len(x as nat, 8);
    }
    let mut low_first: Vec<u8> = Vec::new();
    let mut rest: u64 = x;
    let mut k: usize = 0;
    while k < 8
        invariant
            k <= 8,
            low_first@ + le_bytes(rest as nat, (8 - k) as nat) == le_bytes(x as nat, 8),
        decreases 8 - k,
    {
        proof {
            assert(le_bytes(rest as nat, (8 - k) as nat) =~= seq![(rest % 256) as u8] + le_bytes(
                rest as nat / 256,
                (8 - k - 1) as nat,
            ));
        }
        low_first.push((rest % 256) as u8);
        rest = rest / 256;
        k = k + 1;
    }
    assert(low_first@ =~= le_bytes(x as nat, 8));
    match order {
        ByteOrder::Little => low_first,
        ByteOrder::Big => {
            let mut r: Vec<u8> = Vec::new();
            let mut j: usize = 0;
            while j < 8
                invariant
                    j <= 8,
                    low_first@ == le_bytes(x as nat, 8),
                    low_first.len() == 8,
                    r@ =~= reversed(low_first@).subrange(0, j as int),
                decreases 8 - j,
            {
                r.push(low_first[7 - j]);
                j = j + 1;
            }
            assert(r@ =~= reversed(low_first@));
            r
        },
    }
}

/// The word stored at `bytes[at .. at + 8]`.
pub fn decode_word(bytes: &Vec<u8>, at: usize, order: ByteOrder) -> (r: u64)
    requires
        at + 8 <= bytes.len(),
    ensures
        r == word_value(bytes@.subrange(at as int, at + 8), order),
{
    let ghost w = bytes@.subrange(at as int, at + 8);
    let ghost sig = significance_order(w, order);
    let mut v: u64 = 0;
    let mut k: usize = 8;
    proof {
        assert(sig.subrange(8, 8) =~= Seq::<u8>::empty());
    }
    while k > 0
        invariant
            k <= 8,
            at + 8 <= bytes.len(),
            w == bytes@.subrange(at as int, at + 8),
            sig == significance_order(w, order),
            sig.len() == 8,
            v == le_value(sig.subrange(k as int, 8)),
        decreases k,
    {
        k = k - 1;
        let idx = match order {
            ByteOrder::Little => at + k,
            ByteOrder::Big => at + (7 - k),
        };
        proof {
            lemma_le_value_bound(sig.subrange(k + 1, 8));
            lemma_pow256_mono((7 - k) as nat, 7);
            reveal_with_fuel(pow256, 8);
            assert(sig.subrange(k as int, 8).drop_first() =~= sig.subrange(k + 1, 8));
            assert(bytes[idx as int] == sig[k as int]);
        }
        v = v * 256 + bytes[idx] as u64;
    }
    assert(sig.subrange(0, 8) =~= sig);
    v
}

/// The stored form of `tuples`.
pub fn encode_tuples(tuples: &Vec<Tuple>, order: ByteOrder) -> (r: Vec<u8>)
    ensures
        r@ == encoded(tuples@, order),
        r.len() == TUPLE_BYTES * tuples.len(),
{
    let mut r: Vec<u8> = Vec::new();
    let mut i: usize = 0;
    while i < tuples.len()
        invariant
            i <= tuples.len(),
            r@ == encoded(tuples@.subrange(0, i as int), order),
        decreases tuples.len() - i,
    {
        let t = tuples[i];
        let kb = encode_word(t.key, order);
        let pb = encode_word(t.payload, order);
        let ghost before = r@;
        let mut j: usize = 0;
        while j < 8
            invariant
                j <= 8,
                kb@ == word_bytes(t.key, order),
                kb.len() == 8,
                r@ == before + kb@.subrange(0, j as int),
            decreases 8 - j,
        {
            proof { lemma_word_round_trip(t.key, order); }
            r.push(kb[j]);
            j = j + 1;
            assert(r@ =~= before + kb@.subrange(0, j as int));
        }
        let mut j: usize = 0;
        while j < 8
            invariant
                j <= 8,
                pb@ == word_bytes(t.payload, order),
                pb.len() == 8,
                r@ == before + kb@ + pb@.subrange(0, j as int),
            decreases 8 - j,
        {
            proof { lemma_word_round_trip(t.payload, order); }
            r.push(pb[j]);
            j = j + 1;
            assert(r@ =~= before + kb@ + pb@.subrange(0, j as int));
        }
        proof {
            lemma_word_round_trip(t.key, order);
            lemma_word_round_trip(t.payload, order);
            assert(kb@.subrange(0, 8) =~= kb@);
            assert(pb@.subrange(0, 8) =~= pb@);
            assert(tuples@.subrange(0, i + 1).drop_last() =~= tuples@.subrange(0, i as int));
        }
        i = i + 1;
    }
    assert(tuples@.subrange(0, i as int) =~= tuples@);
    proof { lemma_encoded_len(tuples@, order); }
    r
}

/// Reads stored tuples. Fails exactly when the byte count is not a multiple
/// of the tuple size.
pub fn decode_tuples(bytes: &Vec<u8>, order: ByteOrder) -> (r: Result<Vec<Tuple>, FormatError>)
    ensures
        bytes.len() % 16 != 0 <==> r == Err::<Vec<Tuple>, FormatError>(FormatError::TruncatedRecord),
        r is Ok ==> r->Ok_0@ == decoded(bytes@, order),
{
    if bytes.len() % TUPLE_BYTES != 0 {
        return Err(FormatError::TruncatedRecord);
    }
    let n = bytes.len() / TUPLE_BYTES;
    let mut r: Vec<Tuple> = Vec::new();
    let mut i: usize = 0;
    while i < n
        invariant
            n == bytes.len() / 16,
            bytes.len() % 16 == 0,
            i <= n,
            r@ == decoded(bytes@, order).subrange(0, i as int),
        decreases n - i,
    {
        let key = decode_word(bytes, 16 * i, order);
        let payload = decode_word(bytes, 16 * i + 8, order);
        proof {
            lemma_le_value_bound(significance_order(bytes@.subrange(16 * i, 16 * i + 8), order));
            lemma_le_value_bound(significance_order(bytes@.subrange(16 * i + 8, 16 * i + 16), order));
        }
        r.push(Tuple { key, payload });
        i = i + 1;
        assert(r@ =~= decoded(bytes@, order).subrange(0, i as int));
    }
    assert(decoded(bytes@, order).subrange(0, n as int) =~= decoded(bytes@, order));
    Ok(r)
}

/// Relies on std's `u64::to_ne_bytes`: the word's bytes in the machine's
/// byte order, which is little-endian or big-endian.
#[verifier::external_body]
fn native_word_bytes(x: u64) -> (r: [u8; 8])
    ensures
        r@ == word_bytes(x, ByteOrder::Little) || r@ == word_bytes(x, ByteOrder::Big),
{
    x.to_ne_bytes()
}

/// The byte order of the machine, the order of the stored format.
pub fn native_order() -> (r: ByteOrder) {
    let probe = native_word_bytes(1);
    if probe[0] == 1 {
        ByteOrder::Little
    } else {
        ByteOrder::Big
    }
}

} // verus!
