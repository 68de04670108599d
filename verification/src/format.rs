//! The COBS format as a specification.
//!
//! A payload is split into blocks. A block holds up to 253 nonzero bytes
//! followed by a zero (or by the end of the payload), or exactly 254 nonzero
//! bytes. It is written as a code byte (one more than its count of nonzero
//! bytes, `0xFF` for a full block) followed by those nonzero bytes; the zero
//! that ends a short block is implied by the code. A full block at the very
//! end of the payload receives no further code byte.
use vstd::prelude::*;

verus! {

/// Index at which the run of nonzero bytes starting at `i` ends, counting at
/// most up to index 254.
pub open spec fn run_end(s: Seq<u8>, i: nat) -> nat
    decreases 254 - i,
{
    if i >= s.len() || i >= 254 || s[i as int] == 0 {
        i
    } else {
        run_end(s, i + 1)
    }
}

/// Number of payload bytes of the first block of `s`: the number of leading
/// nonzero bytes, at most 254.
pub open spec fn block_len(s: Seq<u8>) -> nat {
    run_end(s, 0)
}

/// `k` is the length of the first block of `s`.
pub open spec fn is_block_len(s: Seq<u8>, k: nat) -> bool {
    &&& k <= 254
    &&& k <= s.len()
    &&& forall|j: int| 0 <= j < k ==> s[j] != 0
    &&& (k < 254 && k < s.len()) ==> s[k as int] == 0
}

/// The COBS encoding of `s`, without delimiters.
pub open spec fn cobs_encode(s: Seq<u8>) -> Seq<u8>
    decreases s.len(),
{
    let k = block_len(s);
    if k >= 254 {
        if s.len() <= 254 {
            seq![255u8] + s
        } else {
            seq![255u8] + s.take(254) + cobs_encode(s.skip(254))
        }
    } else if k >= s.len() {
        seq![(k + 1) as u8] + s
    } else {
        seq![(k + 1) as u8] + s.take(k as int) + cobs_encode(s.skip(k + 1int))
    }
}

/// The first `k` bytes of the encoding of `s` end strictly inside a block:
/// after a code byte whose block still expects data bytes that are not
/// among them. A block of the encoding is its code byte followed by its
/// `block_len` data bytes; the encoding of the rest follows it.
pub open spec fn inside_block(s: Seq<u8>, k: int) -> bool
    decreases s.len(),
{
    let b = block_len(s);
    if 1 <= k <= b {
        true
    } else if b >= 254 {
        s.len() > 254 && k > 255 && inside_block(s.skip(254), k - 255)
    } else {
        b < s.len() && k > b + 1 && inside_block(s.skip(b + 1int), k - b - 1)
    }
}

/// `s` holds no zero byte, so it can be delimited by zeros.
pub open spec fn zero_free(s: Seq<u8>) -> bool {
    forall|i: int| 0 <= i < s.len() ==> s[i] != 0
}

/// An encoding split at the block that is still open: `head` encodes the
/// closed blocks; `run` holds the nonzero bytes of the open block. When
/// `deferred`, the payload ended with a full block and no block is open.
pub struct EncodingParts {
    pub head: Seq<u8>,
    pub run: Seq<u8>,
    pub deferred: bool,
}

impl EncodingParts {
    /// The complete encoding: the open block receives its code byte.
    pub open spec fn finish(self) -> Seq<u8> {
        if self.deferred {
            self.head
        } else {
            self.head + seq![(self.run.len() + 1) as u8] + self.run
        }
    }
}

/// The encoding of `s` split at its open block.
pub open spec fn encoding_parts(s: Seq<u8>) -> EncodingParts
    decreases s.len(),
{
    let k = block_len(s);
    if k >= 254 {
        if s.len() <= 254 {
            EncodingParts { head: seq![255u8] + s, run: seq![], deferred: true }
        } else {
            let p = encoding_parts(s.skip(254));
            EncodingParts { head: seq![255u8] + s.take(254) + p.head, run: p.run, deferred: p.deferred }
        }
    } else if k >= s.len() {
        EncodingParts { head: seq![], run: s, deferred: false }
    } else {
        let p = encoding_parts(s.skip(k + 1int));
        EncodingParts {
            head: seq![(k + 1) as u8] + s.take(k as int) + p.head,
            run: p.run,
            deferred: p.deferred,
        }
    }
}

proof fn lemma_run_end(s: Seq<u8>, i: nat)
    requires
        i <= s.len(),
        i <= 254,
        forall|j: int| 0 <= j < i ==> s[j] != 0,
    ensures
        i <= run_end(s, i),
        is_block_len(s, run_end(s, i)),
    decreases 254 - i,
{
    if i >= s.len() || i >= 254 || s[i as int] == 0 {
    } else {
        lemma_run_end(s, i + 1);
    }
}

/// `block_len` is the unique length that `is_block_len` describes.
pub proof fn lemma_block_len(s: Seq<u8>)
    ensures
        is_block_len(s, block_len(s)),
        forall|k: nat| is_block_len(s, k) ==> k == block_len(s),
{
    lemma_run_end(s, 0);
    let b = block_len(s);
    assert forall|k: nat| is_block_len(s, k) implies k == b by {
        if k < b {
            assert(s[k as int] != 0);
        } else if k > b {
            assert(s[b as int] != 0);
        }
    }
}

/// The first block of `s` is determined by at most its first 255 bytes.
proof fn lemma_block_len_push(s: Seq<u8>, b: u8)
    ensures
        (block_len(s) < s.len() || block_len(s) >= 254) ==> block_len(s.push(b)) == block_len(s),
        (block_len(s) == s.len() && block_len(s) < 254) ==> block_len(s.push(b)) == (if b == 0 {
            block_len(s)
        } else {
            block_len(s) + 1
        }),
{
    lemma_block_len(s);
    lemma_block_len(s.push(b));
    let k = block_len(s);
    let t = s.push(b);
    if k < s.len() || k >= 254 {
        assert(is_block_len(t, k));
    } else if b == 0 {
        assert(is_block_len(t, k));
    } else {
        assert(is_block_len(t, k + 1));
    }
}

/// The parts of an encoding reassemble to the encoding.
pub proof fn lemma_parts_finish(s: Seq<u8>)
    ensures
        encoding_parts(s).finish() == cobs_encode(s),
        encoding_parts(s).run.len() < 254,
        zero_free(encoding_parts(s).run),
        zero_free(encoding_parts(s).head),
        encoding_parts(s).deferred ==> encoding_parts(s).run.len() == 0,
    decreases s.len(),
{
    lemma_block_len(s);
    let k = block_len(s);
    if k >= 254 {
        if s.len() <= 254 {
            assert(seq![255u8] + s == cobs_encode(s));
        } else {
            let r = s.skip(254);
            lemma_parts_finish(r);
            let p = encoding_parts(r);
            let q = encoding_parts(s);
            assert(zero_free(q.head));
            if p.deferred {
                assert(q.finish() =~= cobs_encode(s));
            } else {
                assert(q.finish() =~= cobs_encode(s));
            }
        }
    } else if k >= s.len() {
        assert(encoding_parts(s).finish() =~= cobs_encode(s));
    } else {
        let r = s.skip(k + 1int);
        lemma_parts_finish(r);
        let p = encoding_parts(r);
        let q = encoding_parts(s);
        assert(zero_free(q.head));
        assert(q.finish() =~= cobs_encode(s));
    }
}

/// How appending one payload byte changes the parts of an encoding.
pub proof fn lemma_parts_push(s: Seq<u8>, b: u8)
    ensures
        ({
            let p = encoding_parts(s);
            let q = encoding_parts(s.push(b));
            if p.deferred {
                if b == 0 {
                    q == EncodingParts { head: p.head + seq![1u8], run: seq![], deferred: false }
                } else {
                    q == EncodingParts { head: p.head, run: seq![b], deferred: false }
                }
            } else if b == 0 {
                q == EncodingParts {
                    head: p.head + seq![(p.run.len() + 1) as u8] + p.run,
                    run: seq![],
                    deferred: false,
                }
            } else if p.run.len() + 1 < 254 {
                q == EncodingParts { head: p.head, run: p.run.push(b), deferred: false }
            } else {
                q == EncodingParts {
                    head: p.head + seq![255u8] + p.run.push(b),
                    run: seq![],
                    deferred: true,
                }
            }
        }),
    decreases s.len(),
{
    lemma_block_len(s);
    lemma_block_len_push(s, b);
    let k = block_len(s);
    let t = s.push(b);
    if k >= 254 {
        if s.len() <= 254 {
            assert(t.skip(254) =~= seq![b]);
            assert(t.take(254) =~= s);
            let e = encoding_parts(seq![b]);
            lemma_block_len(seq![b]);
            if b == 0 {
                assert(block_len(seq![b]) == 0);
                assert(seq![b].skip(1) =~= Seq::<u8>::empty());
                assert(encoding_parts(Seq::<u8>::empty()).head =~= Seq::<u8>::empty());
                assert(e.head =~= seq![1u8]);
                assert(encoding_parts(t).head =~= encoding_parts(s).head + seq![1u8]);
            } else {
                assert(block_len(seq![b]) == 1);
                assert(encoding_parts(t).head =~= encoding_parts(s).head);
            }
        } else {
            let r = s.skip(254);
            assert(t.skip(254) =~= r.push(b));
            assert(t.take(254) =~= s.take(254));
            lemma_parts_push(r, b);
            let p = encoding_parts(s);
            let q = encoding_parts(t);
            let pr = encoding_parts(r);
            let qr = encoding_parts(r.push(b));
            if pr.deferred {
                if b == 0 {
                    assert(q.head =~= p.head + seq![1u8]);
                } else {
                    assert(q.head =~= p.head);
                }
            } else if b == 0 {
                assert(q.head =~= p.head + seq![(p.run.len() + 1) as u8] + p.run);
            } else if pr.run.len() + 1 < 254 {
                assert(q.head =~= p.head);
            } else {
                assert(q.head =~= p.head + seq![255u8] + p.run.push(b));
            }
        }
    } else if k >= s.len() {
        if b == 0 {
            assert(t.take(k as int) =~= s);
            assert(t.skip(k + 1int) =~= Seq::<u8>::empty());
            assert(encoding_parts(Seq::<u8>::empty()).head =~= Seq::<u8>::empty());
            assert(encoding_parts(t).head =~= seq![(k + 1) as u8] + s);
        } else if k + 1 < 254 {
        } else {
            assert(encoding_parts(t).head =~= seq![255u8] + t);
        }
    } else {
        let r = s.skip(k + 1int);
        assert(t.skip(k + 1int) =~= r.push(b));
        assert(t.take(k as int) =~= s.take(k as int));
        lemma_parts_push(r, b);
        let p = encoding_parts(s);
        let q = encoding_parts(t);
        let pr = encoding_parts(r);
        let c = seq![(k + 1) as u8] + s.take(k as int);
        if pr.deferred {
            if b == 0 {
                assert(q.head =~= p.head + seq![1u8]);
            } else {
                assert(q.head =~= p.head);
            }
        } else if b == 0 {
            assert(q.head =~= p.head + seq![(p.run.len() + 1) as u8] + p.run);
        } else if pr.run.len() + 1 < 254 {
            assert(q.head =~= p.head);
        } else {
            assert(q.head =~= p.head + seq![255u8] + p.run.push(b));
        }
    }
}

/// An encoding never holds a zero byte, so zero can delimit frames.
pub proof fn lemma_encode_zero_free(s: Seq<u8>)
    ensures
        zero_free(cobs_encode(s)),
        cobs_encode(s).len() >= 1,
{
    lemma_parts_finish(s);
    let p = encoding_parts(s);
    if p.deferred {
        lemma_encode_nonempty(s);
    } else {
        assert(zero_free(p.finish()));
    }
}

proof fn lemma_encode_nonempty(s: Seq<u8>)
    ensures
        cobs_encode(s).len() >= 1,
        cobs_encode(s)[0] != 0,
{
    lemma_block_len(s);
}

/// The length of an encoding is bounded by the payload length plus
/// `ceil(len / 254)` (plus one for an empty payload).
pub proof fn lemma_encode_len(s: Seq<u8>)
    ensures
        cobs_encode(s).len() <= s.len() + crate::spec_max_encoding_overhead(s.len() as int),
        cobs_encode(s).len() > s.len(),
    decreases s.len(),
{
    lemma_block_len(s);
    let k = block_len(s);
    let n = s.len() as int;
    if k >= 254 {
        if s.len() <= 254 {
        } else {
            let r = s.skip(254);
            lemma_encode_len(r);
            let m = r.len() as int;
            assert(m == n - 254);
            assert((m + 253) / 254 + 1 == (n + 253) / 254) by {
                vstd::arithmetic::div_mod::lemma_div_plus_one(m + 253, 254);
            }
        }
    } else if k >= s.len() {
    } else {
        let r = s.skip(k + 1int);
        lemma_encode_len(r);
        let m = r.len() as int;
        assert(m < n);
        if m > 0 {
            assert((m + 253) / 254 <= (n + 253) / 254) by {
                vstd::arithmetic::div_mod::lemma_div_is_ordered(m + 253, n + 253, 254);
            }
        }
        assert(1 <= (n + 253) / 254) by {
            vstd::arithmetic::div_mod::lemma_div_is_ordered(254, n + 253, 254);
        }
    }
}

} // verus!
