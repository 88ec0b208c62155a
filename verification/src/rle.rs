//! The run-length codec itself: `encode`, `decode`, and the specification
//! functions their contracts are stated over.

use vstd::prelude::*;

verus! {

/// Error returned by `decode`.
#[derive(Debug, Clone, Copy, PartialEq, Eq, Structural)]
pub enum RleError {
    /// The encoded buffer has odd length: its final record is truncated.
    MalformedInput,
}

/// Number of leading bytes of `s` equal to `v`.
pub open spec fn run_len(s: Seq<u8>, v: u8) -> nat
    decreases s.len(),
{
    if s.len() == 0 || s[0] != v {
        0
    } else {
        1 + run_len(s.drop_first(), v)
    }
}

/// The leading run never extends past the end of the buffer.
pub proof fn lemma_run_len_le(s: Seq<u8>, v: u8)
    ensures
        run_len(s, v) <= s.len(),
    decreases s.len(),
{
    if s.len() > 0 && s[0] == v {
        lemma_run_len_le(s.drop_first(), v);
    }
}

/// Every byte inside the leading run equals the run's value.
pub proof fn lemma_run_len_prefix(s: Seq<u8>, v: u8)
    ensures
        forall|i: int| 0 <= i < run_len(s, v) ==> s[i] == v,
    decreases s.len(),
{
    if s.len() > 0 && s[0] == v {
        lemma_run_len_le(s, v);
        lemma_run_len_prefix(s.drop_first(), v);
        assert forall|i: int| 0 <= i < run_len(s, v) implies s[i] == v by {
            if i > 0 {
                assert(s.drop_first()[i - 1] == v);
            }
        }
    }
}

/// A prefix of `m` bytes equal to `v` puts the leading run at `m` at least.
pub proof fn lemma_run_len_at_least(s: Seq<u8>, v: u8, m: nat)
    requires
        m <= s.len(),
        forall|i: int| 0 <= i < m ==> s[i] == v,
    ensures
        run_len(s, v) >= m,
    decreases s.len(),
{
    if m > 0 {
        assert(s[0] == v);
        assert forall|i: int| 0 <= i < m - 1 implies s.drop_first()[i] == v by {
            assert(s[i + 1] == v);
        }
        lemma_run_len_at_least(s.drop_first(), v, (m - 1) as nat);
    }
}

/// A prefix of `m` bytes equal to `v`, followed by the end of the buffer or
/// by a different byte, is exactly the leading run.
pub proof fn lemma_run_len_exact(s: Seq<u8>, v: u8, m: nat)
    requires
        m <= s.len(),
        forall|i: int| 0 <= i < m ==> s[i] == v,
        m == s.len() || s[m as int] != v,
    ensures
        run_len(s, v) == m,
    decreases s.len(),
{
    if m == 0 {
        if s.len() > 0 {
            assert(s[0] != v);
        }
    } else {
        assert(s[0] == v);
        assert forall|i: int| 0 <= i < m - 1 implies s.drop_first()[i] == v by {
            assert(s[i + 1] == v);
        }
        lemma_run_len_exact(s.drop_first(), v, (m - 1) as nat);
    }
}

/// Length of the first record's count field: the leading run, capped at the
/// largest count a single byte can hold.
pub open spec fn capped_run(s: Seq<u8>) -> nat {
    if run_len(s, s[0]) > 255 {
        255
    } else {
        run_len(s, s[0])
    }
}

/// The run-length encoding of `s`: two-byte records of value then count,
/// with runs longer than 255 split across consecutive records.
pub open spec fn encode_spec(s: Seq<u8>) -> Seq<u8>
    decreases s.len(),
    via encode_spec_decreases
{
    if s.len() == 0 {
        Seq::empty()
    } else {
        seq![s[0], capped_run(s) as u8] + encode_spec(s.skip(capped_run(s) as int))
    }
}

#[via_fn]
proof fn encode_spec_decreases(s: Seq<u8>) {
    if s.len() > 0 {
        lemma_run_len_le(s, s[0]);
    }
}

/// The expansion of an encoded buffer: each record's value repeated by its
/// count, records in order, concatenated. A dangling final byte carries no
/// whole record and contributes nothing; `decode` rejects such buffers
/// instead of using this function on them.
pub open spec fn decode_spec(s: Seq<u8>) -> Seq<u8>
    decreases s.len(),
{
    if s.len() < 2 {
        Seq::empty()
    } else {
        Seq::new(s[1] as nat, |i: int| s[0]) + decode_spec(s.skip(2))
    }
}

/// Encodes a byte buffer. Pure: the result is a function of `data` alone,
/// and every buffer is representable, so no error can arise.
pub fn encode(data: &[u8]) -> (encoded: Vec<u8>)
    ensures
        encoded@ == encode_spec(data@),
{
    let mut encoded: Vec<u8> = Vec::new();
    let mut i: usize = 0;
    proof {
        assert(data@.skip(0) =~= data@);
        assert(Seq::<u8>::empty() + encode_spec(data@) =~= encode_spec(data@));
    }
    while i < data.len()
        invariant
            i <= data@.len(),
            encode_spec(data@) == encoded@ + encode_spec(data@.skip(i as int)),
        decreases data@.len() - i,
    {
        let v = data[i];
        let mut j: usize = i + 1;
        while j < data.len() && data[j] == v && j - i < 255
            invariant
                i < j <= data@.len(),
                j - i <= 255,
                forall|t: int| i <= t < j ==> data@[t] == v,
            decreases data@.len() - j,
        {
            j = j + 1;
        }
        let count: u8 = (j - i) as u8;
        let ghost prev = encoded@;
        encoded.push(v);
        encoded.push(count);
        proof {
            let s = data@.skip(i as int);
            let m = (j - i) as nat;
            assert forall|t: int| 0 <= t < m implies s[t] == v by {
                assert(data@[i + t] == v);
            }
            if m < 255 {
                lemma_run_len_exact(s, v, m);
            } else {
                lemma_run_len_at_least(s, v, m);
            }
            assert(capped_run(s) == m);
            assert(s.skip(m as int) =~= data@.skip(j as int));
            assert(encode_spec(s) == seq![v, count] + encode_spec(data@.skip(j as int)));
            assert(encoded@ =~= prev + seq![v, count]);
            assert((prev + seq![v, count]) + encode_spec(data@.skip(j as int)) =~= prev
                + (seq![v, count] + encode_spec(data@.skip(j as int))));
        }
        i = j;
    }
    proof {
        assert(data@.skip(data@.len() as int) =~= Seq::<u8>::empty());
        assert(encoded@ + Seq::<u8>::empty() =~= encoded@);
    }
    encoded
}

/// Decodes an encoded buffer back to the raw bytes it stands for.
///
/// Succeeds exactly on buffers of even length, a whole number of records;
/// an odd length means the final record was truncated, and the dangling
/// byte is reported as `MalformedInput` rather than silently dropped.
pub fn decode(data: &[u8]) -> (r: Result<Vec<u8>, RleError>)
    ensures
        match r {
            Ok(decoded) => data@.len() % 2 == 0 && decoded@ == decode_spec(data@),
            Err(e) => data@.len() % 2 != 0 && e == RleError::MalformedInput,
        },
{
    if data.len() % 2 != 0 {
        return Err(RleError::MalformedInput);
    }
    let mut decoded: Vec<u8> = Vec::new();
    let mut i: usize = 0;
    proof {
        assert(data@.skip(0) =~= data@);
        assert(Seq::<u8>::empty() + decode_spec(data@) =~= decode_spec(data@));
    }
    while i < data.len()
        invariant
            i <= data@.len(),
            i % 2 == 0,
            data@.len() % 2 == 0,
            decode_spec(data@) == decoded@ + decode_spec(data@.skip(i as int)),
        decreases data@.len() - i,
    {
        assert(i + 2 <= data@.len());
        let v = data[i];
        let count = data[i + 1];
        let ghost prev = decoded@;
        let mut c: u8 = 0;
        while c < count
            invariant
                c <= count,
                decoded@ == prev + Seq::new(c as nat, |t: int| v),
            decreases count - c,
        {
            decoded.push(v);
            c = c + 1;
            proof {
                assert(decoded@ =~= prev + Seq::new(c as nat, |t: int| v));
            }
        }
        proof {
            let s = data@.skip(i as int);
            assert(s[0] == v && s[1] == count);
            assert(s.skip(2) =~= data@.skip(i + 2));
            assert(decode_spec(s) == Seq::new(count as nat, |t: int| v) + decode_spec(
                data@.skip(i + 2),
            ));
            assert((prev + Seq::new(count as nat, |t: int| v)) + decode_spec(data@.skip(i + 2))
                =~= prev + (Seq::new(count as nat, |t: int| v) + decode_spec(data@.skip(i + 2))));
        }
        i = i + 2;
    }
    proof {
        assert(data@.skip(data@.len() as int) =~= Seq::<u8>::empty());
        assert(decoded@ + Seq::<u8>::empty() =~= decoded@);
    }
    Ok(decoded)
}

/// The codec is lossless: decoding an encoded buffer gives back the raw
/// buffer, for every byte buffer — empty, single-byte, or with runs longer
/// than a single record's count can hold.
pub proof fn lemma_round_trip(b: Seq<u8>)
    ensures
        decode_spec(encode_spec(b)) == b,
    decreases b.len(),
{
    if b.len() == 0 {
        assert(decode_spec(encode_spec(b)) =~= b);
    } else {
        let v = b[0];
        let k = capped_run(b);
        lemma_run_len_le(b, v);
        lemma_run_len_prefix(b, v);
        let e = encode_spec(b);
        let rest = encode_spec(b.skip(k as int));
        assert(e == seq![v, k as u8] + rest);
        assert(e.skip(2) =~= rest);
        assert(decode_spec(e) == Seq::new((k as u8) as nat, |t: int| v) + decode_spec(rest));
        lemma_round_trip(b.skip(k as int));
        assert(Seq::new(k, |t: int| v) =~= b.take(k as int));
        assert(b.take(k as int) + b.skip(k as int) =~= b);
    }
}

/// The encoded form is well framed: its length is even, and every count
/// byte — each byte at an odd offset — lies between 1 and 255.
pub proof fn lemma_encode_format(b: Seq<u8>)
    ensures
        encode_spec(b).len() % 2 == 0,
        forall|i: int|
            0 <= i < encode_spec(b).len() && i % 2 == 1 ==> 1 <= #[trigger] encode_spec(b)[i]
                <= 255,
    decreases b.len(),
{
    if b.len() > 0 {
        let v = b[0];
        let k = capped_run(b);
        lemma_run_len_le(b, v);
        let rest = encode_spec(b.skip(k as int));
        lemma_encode_format(b.skip(k as int));
        assert(encode_spec(b) == seq![v, k as u8] + rest);
        assert forall|i: int|
            0 <= i < encode_spec(b).len() && i % 2 == 1 implies 1 <= #[trigger] encode_spec(b)[i]
            <= 255 by {
            if i == 1 {
                assert(encode_spec(b)[1] == k as u8);
            } else {
                assert(encode_spec(b)[i] == rest[i - 2]);
            }
        }
    }
}

} // verus!
