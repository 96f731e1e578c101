//! The batch pipeline's verified half: reads are scored chunk by chunk,
//! strictly sequentially within a chunk, and the results of the reads that
//! produced a hit are collected in read order. The result is a function of
//! the model and the reads alone — the chunk size never shows in it, which
//! is what lets a driver hand the chunks to parallel workers.

use vstd::prelude::*;

use crate::hmm::HMM;
use crate::hmm::SCALE;
use crate::hmm::spec_collapse;
use crate::hmm::spec_has_hit;
use crate::hmm::spec_retained;
use crate::vdjmodeler::spec_model_name;

verus! {

/// One query read: identifier bytes and sequence bytes.
pub struct Seqrec {
    /// The read's identifier.
    pub id: Vec<u8>,
    /// The read's sequence.
    pub seq: Vec<u8>,
}

impl Seqrec {
    /// A read from its identifier and sequence bytes.
    pub fn new(id: &[u8], seq: &[u8]) -> (r: Self)
        ensures
            r.id@ == id@,
            r.seq@ == seq@,
    {
        Self { id: slice_to_vec(id), seq: slice_to_vec(seq) }
    }

    /// The read's identifier bytes.
    pub fn id(&self) -> (r: &[u8])
        ensures
            r@ == self.id@,
    {
        self.id.as_slice()
    }

    /// The read's sequence bytes.
    pub fn seq(&self) -> (r: &[u8])
        ensures
            r@ == self.seq@,
    {
        self.seq.as_slice()
    }
}

/// A copy of a byte slice.
fn slice_to_vec(s: &[u8]) -> (r: Vec<u8>)
    ensures
        r@ == s@,
{
    let mut r: Vec<u8> = Vec::new();
    let mut i: usize = 0;
    while i < s.len()
        invariant
            i <= s@.len(),
            r@ =~= s@.take(i as int),
        decreases s@.len() - i,
    {
        r.push(s[i]);
        i += 1;
    }
    proof {
        assert(r@ =~= s@);
    }
    r
}

/// The score views of one scored read's result row.
pub open spec fn score_views(v: Seq<(String, u64)>) -> Seq<(Seq<char>, u64)> {
    v.map_values(|p: (String, u64)| (p.0@, p.1))
}

/// The result of scoring one read: the per-locus collapsed mapping when the
/// read hits, nothing when it does not.
pub open spec fn spec_read_result(m: &HMM, seq: Seq<u8>) -> Option<Seq<(Seq<char>, u64)>> {
    if spec_has_hit(m, seq) {
        Some(
            Seq::new(
                m.spec_num_loci() as nat,
                |j: int|
                    (
                        spec_model_name(m.names@[j]),
                        spec_collapse(
                            m,
                            seq,
                            spec_retained(m, seq, m.spec_num_loci()),
                            j,
                        ) as u64,
                    ),
            ),
        )
    } else {
        None
    }
}

/// The batch's outcome: one `(identifier, sequence, collapsed mapping)`
/// entry per read that produced a hit, in read order. Defined over the model
/// and the reads alone: no chunking shows in it.
pub open spec fn spec_batch(m: &HMM, reads: Seq<Seqrec>) -> Seq<
    (Seq<u8>, Seq<u8>, Seq<(Seq<char>, u64)>),
>
    decreases reads.len(),
{
    if reads.len() == 0 {
        Seq::empty()
    } else {
        spec_batch(m, reads.drop_last()) + (match spec_read_result(m, reads.last().seq@) {
            Some(s) => seq![(reads.last().id@, reads.last().seq@, s)],
            None => Seq::empty(),
        })
    }
}

/// Score a batch of reads chunk by chunk: the reads of each chunk are scored
/// strictly sequentially, and every read that produced a hit contributes one
/// `(identifier, sequence, collapsed mapping)` entry, in read order. The
/// result equals `spec_batch` of the model and the reads whatever the chunk
/// size: chunking never changes what the batch produces, so a driver may
/// hand the chunks to parallel workers and concatenate their outputs.
pub fn process_batch(hmm: &HMM, batch: &Vec<Seqrec>, chunk_size: usize) -> (r: Vec<
    (Vec<u8>, Vec<u8>, Vec<(String, u64)>),
>)
    requires
        hmm.wf(),
        hmm.states@.len() >= 1,
        chunk_size >= 1,
    ensures
        r@.len() == spec_batch(hmm, batch@).len(),
        forall|i: int|
            0 <= i < r@.len() ==> ((#[trigger] r@[i]).0@, r@[i].1@, score_views(r@[i].2@))
                == spec_batch(hmm, batch@)[i],
{
    let n = batch.len();
    let mut results: Vec<(Vec<u8>, Vec<u8>, Vec<(String, u64)>)> = Vec::new();
    let mut start: usize = 0;
    proof {
        assert(batch@.take(0) =~= Seq::<Seqrec>::empty());
    }
    while start < n
        invariant
            start <= n,
            n == batch@.len(),
            hmm.wf(),
            hmm.states@.len() >= 1,
            chunk_size >= 1,
            results@.len() == spec_batch(hmm, batch@.take(start as int)).len(),
            forall|i: int|
                0 <= i < results@.len() ==> ((#[trigger] results@[i]).0@, results@[i].1@,
                score_views(results@[i].2@)) == spec_batch(hmm, batch@.take(start as int))[i],
        decreases n - start,
    {
        let end = if n - start > chunk_size {
            start + chunk_size
        } else {
            n
        };
        // score this chunk's reads, strictly sequentially
        let mut k: usize = start;
        while k < end
            invariant
                start <= k <= end <= n,
                n == batch@.len(),
                hmm.wf(),
                hmm.states@.len() >= 1,
                results@.len() == spec_batch(hmm, batch@.take(k as int)).len(),
                forall|i: int|
                    0 <= i < results@.len() ==> ((#[trigger] results@[i]).0@, results@[i].1@,
                    score_views(results@[i].2@)) == spec_batch(hmm, batch@.take(k as int))[i],
            decreases end - k,
        {
            proof {
                assert(batch@.take(k + 1).drop_last() =~= batch@.take(k as int));
                assert(batch@.take(k + 1).last() == batch@[k as int]);
            }
            let record = &batch[k];
            if let Some(hmm_result) = hmm.forward_algorithm(record.seq.as_slice()) {
                proof {
                    let expect = spec_read_result(hmm, batch@[k as int].seq@)->Some_0;
                    assert(score_views(hmm_result@) =~= expect);
                }
                results.push((slice_to_vec(record.id.as_slice()), slice_to_vec(
                    record.seq.as_slice(),
                ), hmm_result));
            }
            k += 1;
        }
        start = end;
    }
    proof {
        assert(batch@.take(n as int) =~= batch@);
    }
    results
}

} // verus!
