//! How content is cut up: a torrent into pieces of one length, a piece
//! into blocks of one length, the last of each as long as what is left.

use vstd::prelude::*;

verus! {

/// The number of chunks of length `chunk` that cover `total` bytes; the
/// last one may be shorter.
pub open spec fn spec_chunk_count(total: nat, chunk: nat) -> nat {
    if chunk == 0 {
        0
    } else {
        ((total + chunk - 1) / chunk as int) as nat
    }
}

/// The length of chunk `index` when `total` bytes are cut into chunks of
/// length `chunk`: the full length, but for the last chunk what is left,
/// and nothing beyond the end.
pub open spec fn spec_chunk_length(total: nat, chunk: nat, index: nat) -> nat {
    if index * chunk >= total {
        0
    } else if total - index * chunk > chunk {
        chunk
    } else {
        (total - index * chunk) as nat
    }
}

/// The lengths of the first `n` chunks, added up.
pub open spec fn chunk_lengths_sum(total: nat, chunk: nat, n: nat) -> nat
    decreases n,
{
    if n == 0 {
        0
    } else {
        chunk_lengths_sum(total, chunk, (n - 1) as nat) + spec_chunk_length(
            total,
            chunk,
            (n - 1) as nat,
        )
    }
}

/// The first `n` chunks cover the first `n * chunk` bytes, or all of them
/// where there are fewer.
pub proof fn lemma_chunk_lengths_sum(total: nat, chunk: nat, n: nat)
    ensures
        chunk_lengths_sum(total, chunk, n) == if n * chunk <= total {
            n * chunk
        } else {
            total
        },
    decreases n,
{
    if n > 0 {
        let m = (n - 1) as nat;
        lemma_chunk_lengths_sum(total, chunk, m);
        assert(n * chunk == m * chunk + chunk) by (nonlinear_arith)
            requires
                n == m + 1,
        ;
    } else {
        assert(n * chunk == 0) by (nonlinear_arith)
            requires
                n == 0,
        ;
    }
}

/// With a chunk length above zero, the chunks are as many as it takes to
/// cover the total, and no more.
pub proof fn lemma_chunk_count(total: nat, chunk: nat)
    requires
        chunk > 0,
    ensures
        spec_chunk_count(total, chunk) * chunk >= total,
        total > 0 ==> (spec_chunk_count(total, chunk) - 1) * chunk < total,
        total == 0 ==> spec_chunk_count(total, chunk) == 0,
{
    let count = spec_chunk_count(total, chunk);
    let top = total + chunk - 1;
    assert(top == chunk * (top / chunk as int) + top % (chunk as int)) by (nonlinear_arith)
        requires
            chunk > 0,
    ;
    assert(0 <= top % (chunk as int) < chunk) by (nonlinear_arith)
        requires
            chunk > 0,
    ;
    assert(count * chunk == chunk * (top / chunk as int)) by (nonlinear_arith)
        requires
            count == top / chunk as int,
    ;
    assert((count - 1) * chunk == count * chunk - chunk) by (nonlinear_arith);
    if total == 0 {
        assert(top / chunk as int == 0) by (nonlinear_arith)
            requires
                0 <= top < chunk,
        ;
    }
}

/// The lengths of all chunks add up to the total: the chunks cover the
/// content exactly. This holds of the pieces of a torrent and of the
/// blocks of a piece alike.
pub proof fn lemma_chunks_cover(total: nat, chunk: nat)
    requires
        chunk > 0,
    ensures
        chunk_lengths_sum(total, chunk, spec_chunk_count(total, chunk)) == total,
{
    lemma_chunk_count(total, chunk);
    lemma_chunk_lengths_sum(total, chunk, spec_chunk_count(total, chunk));
}

/// Every chunk before the last has the full length, and the last one has
/// what the others leave, which is not nothing.
pub proof fn lemma_chunk_lengths(total: nat, chunk: nat, index: nat)
    requires
        chunk > 0,
        index < spec_chunk_count(total, chunk),
    ensures
        index + 1 < spec_chunk_count(total, chunk) ==> spec_chunk_length(total, chunk, index)
            == chunk,
        index + 1 == spec_chunk_count(total, chunk) ==> spec_chunk_length(total, chunk, index)
            == total - chunk * (spec_chunk_count(total, chunk) - 1),
        0 < spec_chunk_length(total, chunk, index) <= chunk,
        index * chunk < total,
{
    let count = spec_chunk_count(total, chunk);
    lemma_chunk_count(total, chunk);
    assert(index * chunk <= (count - 1) * chunk) by (nonlinear_arith)
        requires
            index <= count - 1,
            chunk > 0,
    ;
    assert(chunk * (count - 1) == (count - 1) * chunk) by (nonlinear_arith);
    assert((count - 1) * chunk == count * chunk - chunk) by (nonlinear_arith);
    if index + 1 == count {
        assert(index * chunk == (count - 1) * chunk) by (nonlinear_arith)
            requires
                index == count - 1,
        ;
    }
    if index + 1 < count {
        assert((index + 1) * chunk <= (count - 1) * chunk) by (nonlinear_arith)
            requires
                index + 1 <= count - 1,
                chunk > 0,
        ;
        assert((index + 1) * chunk == index * chunk + chunk) by (nonlinear_arith);
    }
}

/// The number of chunks of length `chunk` that cover `total` bytes.
pub fn chunk_count(total: u64, chunk: u32) -> (count: u64)
    ensures
        count == spec_chunk_count(total as nat, chunk as nat),
{
    if chunk == 0 {
        0
    } else {
        let whole = total / (chunk as u64);
        let left = total % (chunk as u64);
        proof {
            let t = total as int;
            let c = chunk as int;
            assert((t + c - 1) / c == if t % c == 0 {
                t / c
            } else {
                t / c + 1
            }) by (nonlinear_arith)
                requires
                    c > 0,
                    t >= 0,
            ;
        }
        if left == 0 {
            whole
        } else {
            proof {
                let w = whole as int;
                let c = chunk as int;
                assert(total == c * w + left) by (nonlinear_arith)
                    requires
                        c > 0,
                        w == total as int / c,
                        left as int == total as int % c,
                ;
                assert(w <= c * w) by (nonlinear_arith)
                    requires
                        c > 0,
                        w >= 0,
                ;
            }
            whole + 1
        }
    }
}

/// The length of chunk `index` when `total` bytes are cut into chunks of
/// length `chunk`.
pub fn chunk_length(total: u64, chunk: u32, index: u64) -> (length: u32)
    ensures
        length == spec_chunk_length(total as nat, chunk as nat, index as nat),
{
    if chunk == 0 {
        proof {
            assert(index * 0 == 0) by (nonlinear_arith);
        }
        return 0;
    }
    // Chunks that would start at or after the end have no bytes.
    if index > total / (chunk as u64) {
        proof {
            let t = total as int;
            let c = chunk as int;
            let i = index as int;
            assert(i * c >= t) by (nonlinear_arith)
                requires
                    c > 0,
                    t >= 0,
                    i > t / c,
            ;
        }
        return 0;
    }
    proof {
        let t = total as int;
        let c = chunk as int;
        let i = index as int;
        assert(i * c <= t) by (nonlinear_arith)
            requires
                c > 0,
                t >= 0,
                0 <= i <= t / c,
        ;
    }
    let offset = index * (chunk as u64);
    let left = total - offset;
    if left > chunk as u64 {
        chunk
    } else {
        left as u32
    }
}

} // verus!
