//! The locus catalog: the closed set of immune-receptor loci, their V/D/J
//! segment structure, segment start offsets inside a locus's position array,
//! and the classification of reference-record identifiers.

use vstd::prelude::*;

use crate::hmm::HMM;
use crate::hmm::is_iupac;
use crate::hmm::lemma_iupac_props;
use crate::hmm::spec_iupac;

verus! {

/// One of the three gene segments of a locus. Light-chain loci have no D
/// segment; asking for one is a contract violation, not a data error.
#[derive(Clone, Copy, PartialEq, Eq, Structural, Debug)]
pub enum Chain {
    V,
    D,
    J,
}

/// Column index of a segment inside a locus's length row.
pub open spec fn spec_chain_id(c: Chain) -> int {
    match c {
        Chain::V => 0,
        Chain::D => 1,
        Chain::J => 2,
    }
}

/// Start offset of a segment inside a locus's position array, given the row
/// of observed maximal segment lengths `data` = [V, D, J]. Segments are laid
/// out contiguously in V, D, J order: each segment starts where the previous
/// required segment's observed maximum ends.
pub open spec fn spec_chain_start(c: Chain, heavy: bool, data: Seq<usize>) -> int {
    match c {
        Chain::V => 0,
        Chain::D => data[0] as int,
        Chain::J => if heavy {
            data[0] + data[1]
        } else {
            data[0] as int
        },
    }
}

impl Chain {
    /// Stable index of the segment: V, D, J in order.
    pub fn id(&self) -> (r: usize)
        ensures
            r == spec_chain_id(*self),
    {
        match self {
            Chain::V => 0,
            Chain::D => 1,
            Chain::J => 2,
        }
    }

    /// Start offset of this segment for a locus of the given structure
    /// (`mode` is `"HeavyChain"` or `"LightChain"`); `data` is the locus's
    /// row of observed maximal segment lengths. A light chain has no D
    /// segment, so a D offset may not be requested for one.
    pub fn starts_at(&self, mode: &str, data: &Vec<usize>) -> (r: usize)
        requires
            mode@ == "HeavyChain"@ || mode@ == "LightChain"@,
            mode@ == "LightChain"@ ==> !(*self is D),
            data.len() == 3,
            data[0] + data[1] <= usize::MAX,
        ensures
            r == spec_chain_start(*self, mode@ == "HeavyChain"@, data@),
    {
        proof {
            reveal_strlit("HeavyChain");
            reveal_strlit("LightChain");
        }
        let heavy = mode.get_char(0) == 'H';
        match self {
            Chain::V => 0,
            Chain::D => data[0],
            Chain::J => if heavy {
                data[0] + data[1]
            } else {
                data[0]
            },
        }
    }
}

/// The closed set of recognizable immune-receptor loci.
#[derive(Clone, Copy, PartialEq, Eq, Structural, Hash, Debug)]
pub enum SequenceModel {
    IGH,
    IGL,
    IGK,
    TRA,
    TRB,
    TRG,
    TRD,
}

/// Stable integer id of a locus.
pub open spec fn spec_model_id(m: SequenceModel) -> int {
    match m {
        SequenceModel::IGH => 0,
        SequenceModel::IGL => 1,
        SequenceModel::IGK => 2,
        SequenceModel::TRA => 3,
        SequenceModel::TRB => 4,
        SequenceModel::TRG => 5,
        SequenceModel::TRD => 6,
    }
}

/// Whether a locus has heavy-chain structure (three segments V, D, J).
/// The others have light-chain structure (two segments V and J).
pub open spec fn spec_is_heavy(m: SequenceModel) -> bool {
    m is IGH || m is TRB || m is TRD
}

/// A locus has sufficient data when every one of its required segments was
/// observed at least once, i.e. has a non-zero maximal length in its row
/// `data` = [V, D, J] of the length matrix.
pub open spec fn spec_has_data(m: SequenceModel, data: Seq<usize>) -> bool {
    if spec_is_heavy(m) {
        data[0] != 0 && data[1] != 0 && data[2] != 0
    } else {
        data[0] != 0 && data[2] != 0
    }
}

/// Start offset of a segment of this locus inside its position array.
pub open spec fn spec_starts_at(m: SequenceModel, c: Chain, data: Seq<usize>) -> int {
    spec_chain_start(c, spec_is_heavy(m), data)
}

impl SequenceModel {
    /// Stable integer id of the locus; inverse of `from_index`.
    pub fn id(&self) -> (r: usize)
        ensures
            r == spec_model_id(*self),
    {
        match self {
            SequenceModel::IGH => 0,
            SequenceModel::IGL => 1,
            SequenceModel::IGK => 2,
            SequenceModel::TRA => 3,
            SequenceModel::TRB => 4,
            SequenceModel::TRG => 5,
            SequenceModel::TRD => 6,
        }
    }

    /// Number of loci in the closed set.
    pub fn length() -> (r: usize)
        ensures
            r == 7,
    {
        7
    }

    /// The locus with the given id, if any; inverse of `id`.
    pub fn from_index(index: usize) -> (r: Option<Self>)
        ensures
            index < 7 ==> (r matches Some(m) && spec_model_id(m) == index),
            index >= 7 ==> r is None,
    {
        match index {
            0 => Some(SequenceModel::IGH),
            1 => Some(SequenceModel::IGL),
            2 => Some(SequenceModel::IGK),
            3 => Some(SequenceModel::TRA),
            4 => Some(SequenceModel::TRB),
            5 => Some(SequenceModel::TRG),
            6 => Some(SequenceModel::TRD),
            _ => None,
        }
    }

    /// True iff every required segment of this locus has a non-zero observed
    /// maximal length in its length-matrix row `data` = [V, D, J].
    pub fn has_data(&self, data: &Vec<usize>) -> (r: bool)
        requires
            data.len() == 3,
        ensures
            r == spec_has_data(*self, data@),
    {
        if self.is_heavy() {
            data[0] != 0 && data[1] != 0 && data[2] != 0
        } else {
            data[0] != 0 && data[2] != 0
        }
    }

    /// Whether this locus has heavy-chain structure (a D segment).
    pub fn is_heavy(&self) -> (r: bool)
        ensures
            r == spec_is_heavy(*self),
    {
        match self {
            SequenceModel::IGH | SequenceModel::TRB | SequenceModel::TRD => true,
            _ => false,
        }
    }

    /// Display name of the locus.
    pub fn name(&self) -> (r: String)
        ensures
            r@ == spec_model_name(*self),
    {
        match self {
            SequenceModel::IGH => String::from_str("IGH-VDJ"),
            SequenceModel::IGL => String::from_str("IGL-VDJ"),
            SequenceModel::IGK => String::from_str("IGK-VDJ"),
            SequenceModel::TRA => String::from_str("TRA-VDJ"),
            SequenceModel::TRB => String::from_str("TRB-VDJ"),
            SequenceModel::TRG => String::from_str("TRG-VDJ"),
            SequenceModel::TRD => String::from_str("TRD-VDJ"),
        }
    }

    /// Start offset of the given segment of this locus inside its position
    /// array, from its length-matrix row `data` = [V, D, J].
    pub fn starts_at(&self, chain: &Chain, data: &Vec<usize>) -> (r: usize)
        requires
            data.len() == 3,
            data[0] + data[1] <= usize::MAX,
            !spec_is_heavy(*self) ==> !(*chain is D),
        ensures
            r == spec_starts_at(*self, *chain, data@),
    {
        proof {
            reveal_strlit("HeavyChain");
            reveal_strlit("LightChain");
            assert("HeavyChain"@[0] != "LightChain"@[0]);
        }
        if self.is_heavy() {
            chain.starts_at("HeavyChain", data)
        } else {
            chain.starts_at("LightChain", data)
        }
    }
}

/// The per-position nucleotide counts of one alignment position: one count
/// for each of the four canonical bases, plus a catch-all slot.
#[derive(Clone)]
pub struct HMMcollector {
    /// Counts for A, G, C, T and the catch-all slot, in that order.
    pub states: Vec<usize>,
}

impl HMMcollector {
    /// A copy of this count vector.
    pub fn duplicate(&self) -> (r: HMMcollector)
        ensures
            r.states@ == self.states@,
    {
        HMMcollector { states: self.states.clone() }
    }
}

impl Default for HMMcollector {
    /// A fresh position with every count zero.
    fn default() -> (r: Self)
        ensures
            r.states@ == seq![0usize, 0usize, 0usize, 0usize, 0usize],
    {
        let states = vec![0, 0, 0, 0, 0];
        proof {
            assert(states@ =~= seq![0usize, 0usize, 0usize, 0usize, 0usize]);
        }
        Self { states }
    }
}

/// Length of the prefix of `seq` made of recognized IUPAC bytes: the index of
/// the first unrecognized byte, or the whole length if there is none. A
/// record contributes counts only from this prefix.
pub open spec fn valid_prefix_len(seq: Seq<u8>) -> int
    decreases seq.len(),
{
    if seq.len() == 0 {
        0
    } else if !is_iupac(seq[0]) {
        0
    } else {
        1 + valid_prefix_len(seq.drop_first())
    }
}

/// Characterization of `valid_prefix_len`: every byte before it is a
/// recognized IUPAC code, and the byte at it (if any) is not.
pub proof fn lemma_valid_prefix_len(seq: Seq<u8>)
    ensures
        0 <= valid_prefix_len(seq) <= seq.len(),
        forall|i: int| 0 <= i < valid_prefix_len(seq) ==> is_iupac(seq[i]),
        valid_prefix_len(seq) < seq.len() ==> !is_iupac(seq[valid_prefix_len(seq)]),
    decreases seq.len(),
{
    if seq.len() > 0 && is_iupac(seq[0]) {
        lemma_valid_prefix_len(seq.drop_first());
        assert forall|i: int| 0 <= i < valid_prefix_len(seq) implies is_iupac(seq[i]) by {
            if i >= 1 {
                assert(seq[i] == seq.drop_first()[i - 1]);
            }
        }
        if valid_prefix_len(seq) < seq.len() {
            assert(seq[valid_prefix_len(seq)] == seq.drop_first()[valid_prefix_len(
                seq.drop_first(),
            )]);
        }
    }
}

/// What one consumed record adds to the count cell at position `k`, slot
/// `j`, when its sequence is accumulated from start offset `start`: one unit
/// exactly for the cells that the IUPAC expansion of the byte at `k - start`
/// names, over the record's valid prefix.
pub open spec fn consume_delta(seq: Seq<u8>, start: int, k: int, j: int) -> int {
    if start <= k < start + valid_prefix_len(seq) && spec_iupac(seq[k - start]).contains(
        j as usize,
    ) {
        1
    } else {
        0
    }
}

/// The count matrix of one locus while the model is being built: one
/// `HMMcollector` per alignment position of the locus.
#[derive(Clone)]
pub struct HMMmodel {
    /// The locus these counts belong to.
    pub name: SequenceModel,
    /// One count vector per alignment position.
    pub collector: Vec<HMMcollector>,
}

impl HMMmodel {
    /// Every position has exactly the five count slots.
    pub open spec fn wf(&self) -> bool {
        forall|k: int|
            0 <= k < self.collector@.len() ==> (#[trigger] self.collector@[k]).states@.len() == 5
    }

    /// A fresh count matrix for `name` with `size` positions, all zero.
    pub fn new(name: SequenceModel, size: usize) -> (r: Self)
        ensures
            r.name == name,
            r.collector@.len() == size,
            r.wf(),
            forall|k: int, j: int|
                0 <= k < size && 0 <= j < 5 ==> #[trigger] r.collector@[k].states@[j] == 0,
    {
        let mut collector: Vec<HMMcollector> = Vec::new();
        let mut i: usize = 0;
        while i < size
            invariant
                i <= size,
                collector@.len() == i,
                forall|k: int|
                    0 <= k < i ==> (#[trigger] collector@[k]).states@ == seq![
                        0usize,
                        0usize,
                        0usize,
                        0usize,
                        0usize,
                    ],
            decreases size - i,
        {
            collector.push(HMMcollector::default());
            i += 1;
        }
        Self { name, collector }
    }

    /// Accumulate one reference record into this count matrix. Does nothing
    /// and reports `false` when the record's locus is not this matrix's
    /// locus, so heterogeneous records can be dispatched without branching.
    /// Otherwise every byte of the record's valid prefix adds one unit to
    /// the count cell of each base its IUPAC expansion names, at the
    /// position `start_at` plus the byte's offset; accumulation stops at the
    /// first unrecognized byte, which makes the rest of the record
    /// contribute nothing.
    pub fn consume(&mut self, model: SequenceModel, start_at: usize, seq: &[u8]) -> (r: bool)
        requires
            old(self).wf(),
            model == old(self).name ==> start_at + seq@.len() <= old(self).collector@.len(),
            forall|k: int, j: int|
                0 <= k < old(self).collector@.len() && 0 <= j < 5
                    ==> #[trigger] old(self).collector@[k].states@[j] < usize::MAX,
        ensures
            r == (model == old(self).name),
            final(self).name == old(self).name,
            final(self).collector@.len() == old(self).collector@.len(),
            final(self).wf(),
            !r ==> final(self).collector@ == old(self).collector@,
            r ==> forall|k: int, j: int|
                0 <= k < old(self).collector@.len() && 0 <= j < 5
                    ==> #[trigger] final(self).collector@[k].states@[j]
                        == old(self).collector@[k].states@[j]
                        + consume_delta(seq@, start_at as int, k, j),
    {
        if !(model == self.name) {
            return false;
        }
        proof {
            lemma_valid_prefix_len(seq@);
        }
        let avail = self.collector.len();
        assert(start_at + seq@.len() <= avail);
        let ghost orig = *self;
        let mut pos: usize = 0;
        let mut stopped: bool = false;
        while pos < seq.len() && !stopped
            invariant
                old(self).wf(),
                self.wf(),
                orig == *old(self),
                pos <= seq@.len(),
                start_at + seq@.len() <= self.collector@.len(),
                start_at + seq@.len() <= usize::MAX,
                self.name == orig.name,
                self.collector@.len() == orig.collector@.len(),
                !stopped ==> pos <= valid_prefix_len(seq@),
                stopped ==> pos == valid_prefix_len(seq@),
                forall|k: int, j: int|
                    0 <= k < self.collector@.len() && 0 <= j < 5 ==> #[trigger] self.collector@[k].states@[j]
                        == orig.collector@[k].states@[j] + prefix_delta(
                        seq@,
                        start_at as int,
                        k,
                        j,
                        pos as int,
                    ),
                forall|k: int, j: int|
                    0 <= k < orig.collector@.len() && 0 <= j < 5
                        ==> #[trigger] orig.collector@[k].states@[j] < usize::MAX,
            decreases seq@.len() - pos, (if stopped { 0int } else { 1int }),
        {
            let value = seq[pos];
            if !HMM::is_iupac_code(value) {
                stopped = true;
                proof {
                    lemma_valid_prefix_len(seq@);
                    lemma_valid_prefix_unique(seq@, pos as int);
                }
            } else {
                proof {
                    lemma_iupac_props(value);
                    lemma_valid_prefix_len(seq@);
                    assert(pos < valid_prefix_len(seq@));
                }
                let ids = HMM::iupac_char2pos(value);
                let cell = pos + start_at;
                let mut x: usize = 0;
                while x < ids.len()
                    invariant
                        self.wf(),
                        ids@ == spec_iupac(seq@[pos as int]),
                        forall|i: int| 0 <= i < ids@.len() ==> ids@[i] < 4,
                        forall|i: int, j: int|
                            0 <= i < j < ids@.len() ==> ids@[i] != ids@[j],
                        x <= ids@.len(),
                        pos < seq@.len(),
                        cell == pos + start_at,
                        start_at + seq@.len() <= self.collector@.len(),
                        self.name == orig.name,
                        self.collector@.len() == orig.collector@.len(),
                        forall|k: int, j: int|
                            0 <= k < self.collector@.len() && 0 <= j < 5 && k != cell ==> #[trigger] self.collector@[k].states@[j] == orig.collector@[k].states@[j]
                                + prefix_delta(seq@, start_at as int, k, j, pos as int),
                        forall|j: int|
                            0 <= j < 5 ==> #[trigger] self.collector@[cell as int].states@[j]
                                == orig.collector@[cell as int].states@[j] + prefix_delta(
                                seq@,
                                start_at as int,
                                cell as int,
                                j,
                                pos as int,
                            ) + (if ids@.take(x as int).contains(j as usize) {
                                1int
                            } else {
                                0int
                            }),
                        forall|k: int, j: int|
                            0 <= k < orig.collector@.len() && 0 <= j < 5 ==> #[trigger] orig.collector@[k].states@[j] < usize::MAX,
                    decreases ids@.len() - x,
                {
                    let id = ids[x];
                    proof {
                        assert(prefix_delta(seq@, start_at as int, cell as int, id as int, pos as int)
                            <= 1) by {
                            lemma_prefix_delta_bound(seq@, start_at as int, cell as int, id as int, pos as int);
                        }
                        assert(!ids@.take(x as int).contains(id)) by {
                            assert(forall|i: int| 0 <= i < x ==> ids@.take(x as int)[i] == ids@[i]);
                        }
                    }
                    self.collector[cell].states[id] = self.collector[cell].states[id] + 1;
                    x += 1;
                    proof {
                        assert(ids@.take(x as int).drop_last() =~= ids@.take(x as int - 1));
                        assert(forall|j: usize|
                            ids@.take(x as int).contains(j) <==> (ids@.take(x as int - 1).contains(
                                j,
                            ) || j == ids@[x as int - 1])) by {
                            assert(forall|j: usize| #[trigger] ids@.take(x as int - 1).contains(j)
                                ==> ids@.take(x as int).contains(j)) by {
                                assert(forall|i: int|
                                    0 <= i < x - 1 ==> ids@.take(x as int)[i] == ids@.take(
                                        x as int - 1,
                                    )[i]);
                            }
                            assert(ids@.take(x as int)[x as int - 1] == ids@[x as int - 1]);
                        }
                    }
                }
                pos += 1;
                proof {
                    assert(forall|k: int, j: int|
                        0 <= k < self.collector@.len() && 0 <= j < 5 && k != cell ==>
                            prefix_delta(seq@, start_at as int, k, j, pos as int) == prefix_delta(
                                seq@,
                                start_at as int,
                                k,
                                j,
                                pos as int - 1,
                            ));
                    assert(ids@.take(ids@.len() as int) =~= ids@);
                    assert(forall|j: int|
                        0 <= j < 5 ==> prefix_delta(seq@, start_at as int, cell as int, j, pos as int)
                            == prefix_delta(seq@, start_at as int, cell as int, j, pos as int - 1)
                            + (if spec_iupac(seq@[pos - 1]).contains(j as usize) {
                            1int
                        } else {
                            0int
                        }));
                }
            }
        }
        proof {
            if !stopped {
                assert(pos == seq@.len());
                assert(valid_prefix_len(seq@) == seq@.len()) by {
                    if valid_prefix_len(seq@) < seq@.len() {
                        assert(pos > valid_prefix_len(seq@));
                    }
                }
            }
            assert(forall|k: int, j: int|
                0 <= k < self.collector@.len() && 0 <= j < 5 ==> prefix_delta(
                    seq@,
                    start_at as int,
                    k,
                    j,
                    valid_prefix_len(seq@),
                ) == consume_delta(seq@, start_at as int, k, j));
        }
        true
    }
}

/// Accumulating a single ambiguous base adds one unit to exactly the count
/// cells of the canonical bases its IUPAC expansion names, at the start
/// offset, and to no other cell. With `consume`'s contract this pins what
/// one base contributes to a count matrix.
pub proof fn lemma_single_base_expansion(b: u8, start: int, k: int, j: int)
    requires
        is_iupac(b),
    ensures
        consume_delta(seq![b], start, k, j) == (if k == start && spec_iupac(b).contains(j as usize) {
            1int
        } else {
            0int
        }),
{
    assert(seq![b].drop_first() =~= Seq::<u8>::empty());
    assert(valid_prefix_len(Seq::<u8>::empty()) == 0);
    assert(seq![b][0] == b);
    assert(valid_prefix_len(seq![b]) == 1);
}

/// Like `consume_delta`, but counting only the first `upto` bytes of the
/// record (used to state the accumulation loop's progress).
pub open spec fn prefix_delta(seq: Seq<u8>, start: int, k: int, j: int, upto: int) -> int {
    if start <= k < start + upto && upto <= valid_prefix_len(seq) && spec_iupac(
        seq[k - start],
    ).contains(j as usize) {
        1
    } else {
        0
    }
}

/// `prefix_delta` is zero or one.
pub proof fn lemma_prefix_delta_bound(seq: Seq<u8>, start: int, k: int, j: int, upto: int)
    ensures
        0 <= prefix_delta(seq, start, k, j, upto) <= 1,
{
}

/// A position where an unrecognized byte sits, all earlier bytes being
/// recognized, is exactly the valid prefix length.
pub proof fn lemma_valid_prefix_unique(seq: Seq<u8>, p: int)
    requires
        0 <= p < seq.len(),
        !is_iupac(seq[p]),
        forall|i: int| 0 <= i < p ==> is_iupac(seq[i]),
    ensures
        valid_prefix_len(seq) == p,
{
    lemma_valid_prefix_len(seq);
}

/// Display name of a locus, as a sequence of characters.
pub open spec fn spec_model_name(m: SequenceModel) -> Seq<char> {
    match m {
        SequenceModel::IGH => "IGH-VDJ"@,
        SequenceModel::IGL => "IGL-VDJ"@,
        SequenceModel::IGK => "IGK-VDJ"@,
        SequenceModel::TRA => "TRA-VDJ"@,
        SequenceModel::TRB => "TRB-VDJ"@,
        SequenceModel::TRG => "TRG-VDJ"@,
        SequenceModel::TRD => "TRD-VDJ"@,
    }
}

/// Whether the four characters `a b c d` occur contiguously in `s`.
pub open spec fn contains_tok(s: Seq<char>, a: char, b: char, c: char, d: char) -> bool {
    exists|i: int|
        0 <= i && i + 4 <= s.len() && s[i] == a && s[i + 1] == b && #[trigger] s[i + 2] == c && s[i
            + 3] == d
}

/// Classification of a reference-record identifier: the first locus/segment
/// token it contains, in the fixed catalog order.
pub open spec fn spec_identify(s: Seq<char>) -> Option<(SequenceModel, Chain)> {
    if contains_tok(s, 'I', 'G', 'H', 'V') {
        Some((SequenceModel::IGH, Chain::V))
    } else if contains_tok(s, 'I', 'G', 'H', 'D') {
        Some((SequenceModel::IGH, Chain::D))
    } else if contains_tok(s, 'I', 'G', 'H', 'J') {
        Some((SequenceModel::IGH, Chain::J))
    } else if contains_tok(s, 'I', 'G', 'L', 'V') {
        Some((SequenceModel::IGL, Chain::V))
    } else if contains_tok(s, 'I', 'G', 'L', 'D') {
        Some((SequenceModel::IGL, Chain::D))
    } else if contains_tok(s, 'I', 'G', 'L', 'J') {
        Some((SequenceModel::IGL, Chain::J))
    } else if contains_tok(s, 'I', 'G', 'K', 'V') {
        Some((SequenceModel::IGK, Chain::V))
    } else if contains_tok(s, 'I', 'G', 'K', 'D') {
        Some((SequenceModel::IGK, Chain::D))
    } else if contains_tok(s, 'I', 'G', 'K', 'J') {
        Some((SequenceModel::IGK, Chain::J))
    } else if contains_tok(s, 'T', 'R', 'A', 'V') {
        Some((SequenceModel::TRA, Chain::V))
    } else if contains_tok(s, 'T', 'R', 'A', 'D') {
        Some((SequenceModel::TRA, Chain::D))
    } else if contains_tok(s, 'T', 'R', 'A', 'J') {
        Some((SequenceModel::TRA, Chain::J))
    } else if contains_tok(s, 'T', 'R', 'B', 'V') {
        Some((SequenceModel::TRB, Chain::V))
    } else if contains_tok(s, 'T', 'R', 'B', 'D') {
        Some((SequenceModel::TRB, Chain::D))
    } else if contains_tok(s, 'T', 'R', 'B', 'J') {
        Some((SequenceModel::TRB, Chain::J))
    } else if contains_tok(s, 'T', 'R', 'G', 'V') {
        Some((SequenceModel::TRG, Chain::V))
    } else if contains_tok(s, 'T', 'R', 'G', 'D') {
        Some((SequenceModel::TRG, Chain::D))
    } else if contains_tok(s, 'T', 'R', 'G', 'J') {
        Some((SequenceModel::TRG, Chain::J))
    } else if contains_tok(s, 'T', 'R', 'D', 'V') {
        Some((SequenceModel::TRD, Chain::V))
    } else if contains_tok(s, 'T', 'R', 'D', 'D') {
        Some((SequenceModel::TRD, Chain::D))
    } else if contains_tok(s, 'T', 'R', 'D', 'J') {
        Some((SequenceModel::TRD, Chain::J))
    } else {
        None
    }
}

/// Whether a (locus, segment) pair can occur: a light-chain locus has no D
/// segment, so a record naming one is skipped entirely.
pub open spec fn spec_valid_combo(m: SequenceModel, c: Chain) -> bool {
    spec_is_heavy(m) || !(c is D)
}

/// The locus with a given id.
pub open spec fn spec_model_of(id: int) -> SequenceModel {
    if id == 0 {
        SequenceModel::IGH
    } else if id == 1 {
        SequenceModel::IGL
    } else if id == 2 {
        SequenceModel::IGK
    } else if id == 3 {
        SequenceModel::TRA
    } else if id == 4 {
        SequenceModel::TRB
    } else if id == 5 {
        SequenceModel::TRG
    } else {
        SequenceModel::TRD
    }
}

/// One cell of the length matrix: the greatest sequence length among the
/// records classified into locus id `m`, segment column `c`.
pub open spec fn spec_len_cell(records: Seq<(String, Vec<u8>)>, m: int, c: int) -> int
    decreases records.len(),
{
    if records.len() == 0 {
        0
    } else {
        let rest = spec_len_cell(records.drop_last(), m, c);
        let r = records.last();
        match spec_identify(r.0@) {
            Some(pair) => {
                if spec_model_id(pair.0) == m && spec_chain_id(pair.1) == c && spec_valid_combo(
                    pair.0,
                    pair.1,
                ) && r.1@.len() > rest {
                    r.1@.len() as int
                } else {
                    rest
                }
            },
            None => rest,
        }
    }
}

/// Whether a locus has sufficient data in the reference database: every one
/// of its required segments was observed at least once.
pub open spec fn spec_model_has_data(records: Seq<(String, Vec<u8>)>, m: SequenceModel) -> bool {
    let id = spec_model_id(m);
    if spec_is_heavy(m) {
        spec_len_cell(records, id, 0) != 0 && spec_len_cell(records, id, 1) != 0 && spec_len_cell(
            records,
            id,
            2,
        ) != 0
    } else {
        spec_len_cell(records, id, 0) != 0 && spec_len_cell(records, id, 2) != 0
    }
}

/// The loci with sufficient data among the first `upto` locus ids, in id
/// order: exactly the loci the finished model scores against.
pub open spec fn spec_included(records: Seq<(String, Vec<u8>)>, upto: int) -> Seq<SequenceModel>
    decreases upto,
{
    if upto <= 0 {
        Seq::empty()
    } else {
        let rest = spec_included(records, upto - 1);
        if spec_model_has_data(records, spec_model_of(upto - 1)) {
            rest.push(spec_model_of(upto - 1))
        } else {
            rest
        }
    }
}

/// The number of positions of a locus's count matrix: the sum of its
/// segments' greatest observed lengths.
pub open spec fn spec_model_len(records: Seq<(String, Vec<u8>)>, m: SequenceModel) -> int {
    let id = spec_model_id(m);
    spec_len_cell(records, id, 0) + spec_len_cell(records, id, 1) + spec_len_cell(records, id, 2)
}

/// The start offset inside a locus's position array at which a record of
/// segment `c` is accumulated.
pub open spec fn spec_start_off(records: Seq<(String, Vec<u8>)>, m: SequenceModel, c: Chain) -> int {
    let id = spec_model_id(m);
    match c {
        Chain::V => 0,
        Chain::D => spec_len_cell(records, id, 0),
        Chain::J => if spec_is_heavy(m) {
            spec_len_cell(records, id, 0) + spec_len_cell(records, id, 1)
        } else {
            spec_len_cell(records, id, 0)
        },
    }
}

/// The count cell of locus `m` at position `k`, slot `j`, after all records
/// of the database were accumulated: the sum of each matching record's
/// contribution from its segment's start offset.
pub open spec fn spec_count(
    records: Seq<(String, Vec<u8>)>,
    all: Seq<(String, Vec<u8>)>,
    m: SequenceModel,
    k: int,
    j: int,
) -> int
    decreases records.len(),
{
    if records.len() == 0 {
        0
    } else {
        let rest = spec_count(records.drop_last(), all, m, k, j);
        let r = records.last();
        match spec_identify(r.0@) {
            Some(pair) => {
                if pair.0 == m && spec_valid_combo(pair.0, pair.1) {
                    rest + consume_delta(r.1@, spec_start_off(all, m, pair.1), k, j)
                } else {
                    rest
                }
            },
            None => rest,
        }
    }
}

/// The five count cells of locus `m` at position `k`.
pub open spec fn spec_count_row(records: Seq<(String, Vec<u8>)>, m: SequenceModel, k: int) -> Seq<
    int,
> {
    Seq::new(5, |j: int| spec_count(records, records, m, k, j))
}

/// A length cell never exceeds the greatest record length.
pub proof fn lemma_len_cell_bound(records: Seq<(String, Vec<u8>)>, m: int, c: int, b: int)
    requires
        b >= 0,
        forall|i: int| 0 <= i < records.len() ==> (#[trigger] records[i].1)@.len() <= b,
    ensures
        0 <= spec_len_cell(records, m, c) <= b,
    decreases records.len(),
{
    if records.len() > 0 {
        lemma_len_cell_bound(records.drop_last(), m, c, b);
    }
}

/// A classified record's length is at most its length cell.
pub proof fn lemma_record_le_cell(records: Seq<(String, Vec<u8>)>, i: int)
    requires
        0 <= i < records.len(),
        spec_identify(records[i].0@) is Some,
    ensures
        ({
            let pair = spec_identify(records[i].0@)->Some_0;
            spec_valid_combo(pair.0, pair.1) ==> records[i].1@.len() <= spec_len_cell(
                records,
                spec_model_id(pair.0),
                spec_chain_id(pair.1),
            )
        }),
    decreases records.len(),
{
    let pair = spec_identify(records[i].0@)->Some_0;
    if i == records.len() - 1 {
        lemma_len_cell_nonneg(records.drop_last(), spec_model_id(pair.0), spec_chain_id(pair.1));
    } else {
        lemma_record_le_cell(records.drop_last(), i);
    }
}

/// A length cell is never negative.
pub proof fn lemma_len_cell_nonneg(records: Seq<(String, Vec<u8>)>, m: int, c: int)
    ensures
        spec_len_cell(records, m, c) >= 0,
    decreases records.len(),
{
    if records.len() > 0 {
        lemma_len_cell_nonneg(records.drop_last(), m, c);
    }
}

/// A count cell after `records` were accumulated is between zero and the
/// number of records: each record adds at most one unit to any one cell.
pub proof fn lemma_count_bound(
    records: Seq<(String, Vec<u8>)>,
    all: Seq<(String, Vec<u8>)>,
    m: SequenceModel,
    k: int,
    j: int,
)
    ensures
        0 <= spec_count(records, all, m, k, j) <= records.len(),
    decreases records.len(),
{
    if records.len() > 0 {
        lemma_count_bound(records.drop_last(), all, m, k, j);
    }
}

/// `spec_model_of` inverts the locus id.
pub proof fn lemma_model_id_inverse(m: SequenceModel)
    ensures
        spec_model_of(spec_model_id(m)) == m,
{
}

/// The number of positions common to all loci of the finished model: the
/// least of the included loci's own lengths.
pub open spec fn spec_axis_len(records: Seq<(String, Vec<u8>)>, names: Seq<SequenceModel>) -> int
    decreases names.len(),
{
    if names.len() == 0 {
        0
    } else if names.len() == 1 {
        spec_model_len(records, names[0])
    } else {
        let rest = spec_axis_len(records, names.drop_last());
        let last = spec_model_len(records, names.last());
        if last < rest {
            last
        } else {
            rest
        }
    }
}

/// The grand total of counts at position `k` over the included loci.
pub open spec fn spec_axis_total(
    records: Seq<(String, Vec<u8>)>,
    names: Seq<SequenceModel>,
    k: int,
) -> int
    decreases names.len(),
{
    if names.len() == 0 {
        0
    } else {
        spec_axis_total(records, names.drop_last(), k) + crate::hmm::sum_int(
            spec_count_row(records, names.last(), k),
        )
    }
}

/// Builder of the per-locus count matrices from a reference database.
pub struct VDJmodeler {}

impl VDJmodeler {
    /// The characters of a string, in order.
    fn str_to_chars(s: &str) -> (r: Vec<char>)
        ensures
            r@ == s@,
    {
        let n = s.unicode_len();
        let mut r: Vec<char> = Vec::new();
        let mut i: usize = 0;
        while i < n
            invariant
                i <= n,
                n == s@.len(),
                r@ =~= s@.take(i as int),
            decreases n - i,
        {
            r.push(s.get_char(i));
            i += 1;
        }
        proof {
            assert(r@ =~= s@);
        }
        r
    }

    /// Whether the four characters occur contiguously in `v`.
    fn contains4(v: &Vec<char>, a: char, b: char, c: char, d: char) -> (r: bool)
        ensures
            r == contains_tok(v@, a, b, c, d),
    {
        if v.len() < 4 {
            return false;
        }
        let mut i: usize = 0;
        while i <= v.len() - 4
            invariant
                v@.len() >= 4,
                i <= v@.len() - 4 + 1,
                forall|k: int|
                    0 <= k < i ==> !(v@[k] == a && v@[k + 1] == b && #[trigger] v@[k + 2] == c
                        && v@[k + 3] == d),
            decreases v@.len() - i,
        {
            if v[i] == a && v[i + 1] == b && v[i + 2] == c && v[i + 3] == d {
                return true;
            }
            i += 1;
        }
        false
    }

    /// Classify a reference-record identifier into the (locus, segment) pair
    /// of the first locus/segment token it contains, in the fixed catalog
    /// order; `None` when no token matches, which excludes the record from
    /// model construction without error.
    pub fn identify_model_type(record: &str) -> (r: Option<(SequenceModel, Chain)>)
        ensures
            r == spec_identify(record@),
    {
        let name = Self::str_to_chars(record);

        if Self::contains4(&name, 'I', 'G', 'H', 'V') {
            Some((SequenceModel::IGH, Chain::V))
        } else if Self::contains4(&name, 'I', 'G', 'H', 'D') {
            Some((SequenceModel::IGH, Chain::D))
        } else if Self::contains4(&name, 'I', 'G', 'H', 'J') {
            Some((SequenceModel::IGH, Chain::J))
        } else if Self::contains4(&name, 'I', 'G', 'L', 'V') {
            Some((SequenceModel::IGL, Chain::V))
        } else if Self::contains4(&name, 'I', 'G', 'L', 'D') {
            Some((SequenceModel::IGL, Chain::D))
        } else if Self::contains4(&name, 'I', 'G', 'L', 'J') {
            Some((SequenceModel::IGL, Chain::J))
        } else if Self::contains4(&name, 'I', 'G', 'K', 'V') {
            Some((SequenceModel::IGK, Chain::V))
        } else if Self::contains4(&name, 'I', 'G', 'K', 'D') {
            Some((SequenceModel::IGK, Chain::D))
        } else if Self::contains4(&name, 'I', 'G', 'K', 'J') {
            Some((SequenceModel::IGK, Chain::J))
        } else if Self::contains4(&name, 'T', 'R', 'A', 'V') {
            Some((SequenceModel::TRA, Chain::V))
        } else if Self::contains4(&name, 'T', 'R', 'A', 'D') {
            Some((SequenceModel::TRA, Chain::D))
        } else if Self::contains4(&name, 'T', 'R', 'A', 'J') {
            Some((SequenceModel::TRA, Chain::J))
        } else if Self::contains4(&name, 'T', 'R', 'B', 'V') {
            Some((SequenceModel::TRB, Chain::V))
        } else if Self::contains4(&name, 'T', 'R', 'B', 'D') {
            Some((SequenceModel::TRB, Chain::D))
        } else if Self::contains4(&name, 'T', 'R', 'B', 'J') {
            Some((SequenceModel::TRB, Chain::J))
        } else if Self::contains4(&name, 'T', 'R', 'G', 'V') {
            Some((SequenceModel::TRG, Chain::V))
        } else if Self::contains4(&name, 'T', 'R', 'G', 'D') {
            Some((SequenceModel::TRG, Chain::D))
        } else if Self::contains4(&name, 'T', 'R', 'G', 'J') {
            Some((SequenceModel::TRG, Chain::J))
        } else if Self::contains4(&name, 'T', 'R', 'D', 'V') {
            Some((SequenceModel::TRD, Chain::V))
        } else if Self::contains4(&name, 'T', 'R', 'D', 'D') {
            Some((SequenceModel::TRD, Chain::D))
        } else if Self::contains4(&name, 'T', 'R', 'D', 'J') {
            Some((SequenceModel::TRD, Chain::J))
        } else {
            None
        }
    }

    /// Build the per-locus count matrices from the reference records: scan
    /// once for each locus's greatest segment lengths, keep the loci whose
    /// required segments were all observed, and accumulate every classified
    /// record's counts at its segment's start offset. The result lists the
    /// kept loci in id order, each with its exact count matrix.
    pub fn collect_models(records: &Vec<(String, Vec<u8>)>) -> (r: Vec<HMMmodel>)
        requires
            forall|i: int|
                0 <= i < records@.len() ==> (#[trigger] records@[i].1)@.len() <= usize::MAX / 3,
        ensures
            r@.len() == spec_included(records@, 7).len(),
            forall|s: int|
                0 <= s < r@.len() ==> (#[trigger] r@[s]).name == spec_included(records@, 7)[s],
            forall|s: int| 0 <= s < r@.len() ==> (#[trigger] r@[s]).wf(),
            forall|s: int|
                0 <= s < r@.len() ==> (#[trigger] r@[s]).collector@.len() == spec_model_len(
                    records@,
                    r@[s].name,
                ),
            forall|s: int, k: int, j: int|
                0 <= s < r@.len() && 0 <= k < r@[s].collector@.len() && 0 <= j < 5
                    ==> #[trigger] r@[s].collector@[k].states@[j] as int == spec_count(
                    records@,
                    records@,
                    r@[s].name,
                    k,
                    j,
                ),
    {
        let n = records.len();

        // first pass: the greatest observed length per locus and segment
        let mut full_matrix: Vec<Vec<usize>> = Vec::new();
        let mut id0: usize = 0;
        while id0 < 7
            invariant
                id0 <= 7,
                full_matrix@.len() == id0,
                forall|m: int| 0 <= m < id0 ==> (#[trigger] full_matrix@[m])@.len() == 3,
                forall|m: int, c: int|
                    0 <= m < id0 && 0 <= c < 3 ==> #[trigger] full_matrix@[m]@[c] == 0,
            decreases 7 - id0,
        {
            full_matrix.push(vec![0, 0, 0]);
            id0 += 1;
        }
        let mut i: usize = 0;
        while i < n
            invariant
                i <= n,
                n == records@.len(),
                forall|q: int|
                    0 <= q < records@.len() ==> (#[trigger] records@[q].1)@.len() <= usize::MAX / 3,
                full_matrix@.len() == 7,
                forall|m: int| 0 <= m < 7 ==> (#[trigger] full_matrix@[m])@.len() == 3,
                forall|m: int, c: int|
                    0 <= m < 7 && 0 <= c < 3 ==> #[trigger] full_matrix@[m]@[c] as int
                        == spec_len_cell(records@.take(i as int), m, c),
            decreases n - i,
        {
            proof {
                assert(records@.take(i + 1).drop_last() =~= records@.take(i as int));
                assert(records@.take(i + 1).last() == records@[i as int]);
            }
            let ids = VDJmodeler::identify_model_type(records[i].0.as_str());
            if let Some((model, chain)) = ids {
                let is_d = match chain {
                    Chain::D => true,
                    _ => false,
                };
                if model.is_heavy() || !is_d {
                    let mid = model.id();
                    let cid = chain.id();
                    let l = records[i].1.len();
                    if l > full_matrix[mid][cid] {
                        full_matrix[mid][cid] = l;
                    }
                }
            }
            i += 1;
        }
        proof {
            assert(records@.take(n as int) =~= records@);
            assert forall|m: int, c: int| 0 <= m < 7 && 0 <= c < 3 implies #[trigger] full_matrix@[m]@[c]
                <= usize::MAX / 3 by {
                lemma_len_cell_bound(records@, m, c, (usize::MAX / 3) as int);
            }
        }

        // second pass: one empty count matrix per locus with sufficient data
        let mut models: Vec<HMMmodel> = Vec::new();
        let mut slot: Vec<usize> = Vec::new();
        let mut id: usize = 0;
        while id < 7
            invariant
                id <= 7,
                full_matrix@.len() == 7,
                forall|m: int| 0 <= m < 7 ==> (#[trigger] full_matrix@[m])@.len() == 3,
                forall|m: int, c: int|
                    0 <= m < 7 && 0 <= c < 3 ==> #[trigger] full_matrix@[m]@[c] as int
                        == spec_len_cell(records@, m, c),
                forall|m: int, c: int|
                    0 <= m < 7 && 0 <= c < 3 ==> #[trigger] full_matrix@[m]@[c] <= usize::MAX / 3,
                slot@.len() == id,
                models@.len() == spec_included(records@, id as int).len(),
                models@.len() <= id,
                forall|s: int|
                    0 <= s < models@.len() ==> (#[trigger] models@[s]).name == spec_included(
                        records@,
                        id as int,
                    )[s],
                forall|s: int| 0 <= s < models@.len() ==> (#[trigger] models@[s]).wf(),
                forall|s: int|
                    0 <= s < models@.len() ==> (#[trigger] models@[s]).collector@.len()
                        == spec_model_len(records@, models@[s].name),
                forall|s: int, k: int, j: int|
                    0 <= s < models@.len() && 0 <= k < models@[s].collector@.len() && 0 <= j < 5
                        ==> #[trigger] models@[s].collector@[k].states@[j] == 0,
                forall|s: int|
                    0 <= s < models@.len() ==> spec_model_has_data(
                        records@,
                        (#[trigger] models@[s]).name,
                    ),
                forall|d: int|
                    0 <= d < id ==> (spec_model_has_data(records@, spec_model_of(d))
                        ==> #[trigger] slot@[d] < models@.len() && models@[slot@[d] as int].name
                        == spec_model_of(d)),
                forall|d: int|
                    0 <= d < id ==> (!spec_model_has_data(records@, spec_model_of(d))
                        ==> #[trigger] slot@[d] == usize::MAX),
                forall|s1: int, s2: int|
                    0 <= s1 < s2 < models@.len() ==> spec_model_id((#[trigger] models@[s1]).name)
                        < spec_model_id((#[trigger] models@[s2]).name),
                forall|s: int|
                    0 <= s < models@.len() ==> spec_model_id((#[trigger] models@[s]).name) < id,
            decreases 7 - id,
        {
            let m = match SequenceModel::from_index(id) {
                Some(m) => m,
                None => {
                    proof {
                        assert(false);
                    }
                    vstd::pervasive::unreached()
                },
            };
            proof {
                lemma_model_id_inverse(m);
            }
            if m.has_data(&full_matrix[id]) {
                let sum = full_matrix[id][0] + full_matrix[id][1] + full_matrix[id][2];
                slot.push(models.len());
                models.push(HMMmodel::new(m, sum));
            } else {
                slot.push(usize::MAX);
            }
            id += 1;
        }

        // third pass: accumulate every classified record into its locus
        let mut i2: usize = 0;
        while i2 < n
            invariant
                i2 <= n,
                n == records@.len(),
                full_matrix@.len() == 7,
                forall|m: int| 0 <= m < 7 ==> (#[trigger] full_matrix@[m])@.len() == 3,
                forall|m: int, c: int|
                    0 <= m < 7 && 0 <= c < 3 ==> #[trigger] full_matrix@[m]@[c] as int
                        == spec_len_cell(records@, m, c),
                forall|m: int, c: int|
                    0 <= m < 7 && 0 <= c < 3 ==> #[trigger] full_matrix@[m]@[c] <= usize::MAX / 3,
                slot@.len() == 7,
                models@.len() == spec_included(records@, 7).len(),
                models@.len() <= 7,
                forall|s: int|
                    0 <= s < models@.len() ==> (#[trigger] models@[s]).name == spec_included(
                        records@,
                        7,
                    )[s],
                forall|s: int| 0 <= s < models@.len() ==> (#[trigger] models@[s]).wf(),
                forall|s: int|
                    0 <= s < models@.len() ==> (#[trigger] models@[s]).collector@.len()
                        == spec_model_len(records@, models@[s].name),
                forall|s: int|
                    0 <= s < models@.len() ==> spec_model_has_data(
                        records@,
                        (#[trigger] models@[s]).name,
                    ),
                forall|d: int|
                    0 <= d < 7 ==> (spec_model_has_data(records@, spec_model_of(d))
                        ==> #[trigger] slot@[d] < models@.len() && models@[slot@[d] as int].name
                        == spec_model_of(d)),
                forall|d: int|
                    0 <= d < 7 ==> (!spec_model_has_data(records@, spec_model_of(d))
                        ==> #[trigger] slot@[d] == usize::MAX),
                forall|s1: int, s2: int|
                    0 <= s1 < s2 < models@.len() ==> spec_model_id((#[trigger] models@[s1]).name)
                        < spec_model_id((#[trigger] models@[s2]).name),
                forall|s: int, k: int, j: int|
                    0 <= s < models@.len() && 0 <= k < models@[s].collector@.len() && 0 <= j < 5
                        ==> #[trigger] models@[s].collector@[k].states@[j] as int == spec_count(
                        records@.take(i2 as int),
                        records@,
                        models@[s].name,
                        k,
                        j,
                    ),
            decreases n - i2,
        {
            proof {
                assert(records@.take(i2 + 1).drop_last() =~= records@.take(i2 as int));
                assert(records@.take(i2 + 1).last() == records@[i2 as int]);
            }
            let ids = VDJmodeler::identify_model_type(records[i2].0.as_str());
            if let Some((model, chain)) = ids {
                let is_d = match chain {
                    Chain::D => true,
                    _ => false,
                };
                if model.is_heavy() || !is_d {
                    let mid = model.id();
                    proof {
                        lemma_model_id_inverse(model);
                    }
                    let sid = slot[mid];
                    if sid != usize::MAX {
                        let ghost pre = models@;
                        proof {
                            lemma_record_le_cell(records@, i2 as int);
                            assert forall|k: int, j: int|
                                0 <= k < models@[sid as int].collector@.len() && 0 <= j < 5
                                    implies #[trigger] models@[sid as int].collector@[k].states@[j]
                                < usize::MAX by {
                                lemma_count_bound(
                                    records@.take(i2 as int),
                                    records@,
                                    models@[sid as int].name,
                                    k,
                                    j,
                                );
                            }
                        }
                        let start = model.starts_at(&chain, &full_matrix[mid]);
                        proof {
                            assert(start as int == spec_start_off(records@, model, chain));
                            lemma_len_cell_nonneg(records@, mid as int, 0);
                            lemma_len_cell_nonneg(records@, mid as int, 1);
                            lemma_len_cell_nonneg(records@, mid as int, 2);
                        }
                        let consumed = models[sid].consume(model, start, records[i2].1.as_slice());
                        proof {
                            assert(consumed);
                            assert forall|s: int, k: int, j: int|
                                0 <= s < models@.len() && 0 <= k < models@[s].collector@.len() && 0
                                    <= j < 5 implies #[trigger] models@[s].collector@[k].states@[j]
                                as int == spec_count(
                                records@.take(i2 + 1),
                                records@,
                                models@[s].name,
                                k,
                                j,
                            ) by {
                                if s != sid {
                                    assert(models@[s].name != model);
                                    assert(models@[s] == pre[s]);
                                }
                            }
                        }
                    } else {
                        proof {
                            assert(!spec_model_has_data(records@, model));
                            assert forall|s: int|
                                0 <= s < models@.len() implies (#[trigger] models@[s]).name
                                != model by {
                                assert(spec_model_has_data(records@, models@[s].name));
                            }
                        }
                    }
                }
            }
            i2 += 1;
        }
        proof {
            assert(records@.take(n as int) =~= records@);
        }
        models
    }

    /// Build the finished scoring model from a reference database given as
    /// `(identifier, sequence)` records: collect the per-locus count
    /// matrices of the loci with sufficient data, then turn them into
    /// probability matrices over the position axis common to those loci,
    /// with the fixed near-diagonal transition matrix.
    pub fn build_models(records: &Vec<(String, Vec<u8>)>) -> (r: HMM)
        requires
            forall|i: int|
                0 <= i < records@.len() ==> (#[trigger] records@[i].1)@.len() <= usize::MAX / 3,
        ensures
            r.wf(),
            r.names@ == spec_included(records@, 7),
            r.states@.len() == spec_axis_len(records@, spec_included(records@, 7)),
            forall|i: int, j: int|
                0 <= i < r.states@.len() && 0 <= j < r.names@.len() ==> crate::hmm::to_int_u64(
                    #[trigger] r.states@[i].match_emission@[j]@,
                ) == crate::hmm::spec_prob_row(
                    spec_count_row(records@, r.names@[j], i),
                    spec_axis_total(records@, r.names@, i),
                ),
            forall|i: int, j: int|
                0 <= i < r.names@.len() && 0 <= j < r.names@.len()
                    ==> #[trigger] r.transition_matrix@[i]@[j] == crate::hmm::spec_transition(
                    r.names@.len() as int,
                    i,
                    j,
                ),
    {
        let models = Self::collect_models(records);
        proof {
            lemma_included_len(records@, 7);
        }
        let r = HMM::from_sequence_models(models);
        proof {
            let names = spec_included(records@, 7);
            assert(r.names@ =~= names);
            lemma_axis_len(models@, records@, names);
            assert forall|i: int, j: int|
                0 <= i < r.states@.len() && 0 <= j < r.names@.len() implies crate::hmm::to_int_u64(
                #[trigger] r.states@[i].match_emission@[j]@,
            ) == crate::hmm::spec_prob_row(
                spec_count_row(records@, r.names@[j], i),
                spec_axis_total(records@, r.names@, i),
            ) by {
                assert forall|s: int| 0 <= s < models@.len() implies i < (
                #[trigger] models@[s]).collector@.len() by {
                    crate::hmm::lemma_common_len_le(models@, s);
                }
                lemma_axis_total(models@, records@, names, i);
                assert(crate::hmm::to_int_usize(models@[j].collector@[i].states@)
                    =~= spec_count_row(records@, names[j], i));
            }
        }
        r
    }
}

/// Count matrices whose loci and lengths correspond share their common axis
/// length with the records-level statement of it.
pub proof fn lemma_axis_len(
    models: Seq<HMMmodel>,
    records: Seq<(String, Vec<u8>)>,
    names: Seq<SequenceModel>,
)
    requires
        models.len() == names.len(),
        forall|s: int| 0 <= s < models.len() ==> (#[trigger] models[s]).name == names[s],
        forall|s: int|
            0 <= s < models.len() ==> (#[trigger] models[s]).collector@.len() == spec_model_len(
                records,
                names[s],
            ),
    ensures
        crate::hmm::spec_common_len(models) == spec_axis_len(records, names),
    decreases models.len(),
{
    if models.len() > 1 {
        assert(forall|s: int| 0 <= s < models.len() - 1 ==> models.drop_last()[s] == models[s]);
        assert(forall|s: int| 0 <= s < names.len() - 1 ==> names.drop_last()[s] == names[s]);
        lemma_axis_len(models.drop_last(), records, names.drop_last());
    }
}

/// Count matrices whose cells match the records-level counts total the same
/// grand total at every common position.
pub proof fn lemma_axis_total(
    models: Seq<HMMmodel>,
    records: Seq<(String, Vec<u8>)>,
    names: Seq<SequenceModel>,
    k: int,
)
    requires
        models.len() == names.len(),
        forall|s: int| 0 <= s < models.len() ==> (#[trigger] models[s]).name == names[s],
        forall|s: int| 0 <= s < models.len() ==> (#[trigger] models[s]).wf(),
        forall|s: int| 0 <= s < models.len() ==> k < (#[trigger] models[s]).collector@.len(),
        0 <= k,
        forall|s: int, j: int|
            0 <= s < models.len() && 0 <= j < 5
                ==> #[trigger] models[s].collector@[k].states@[j] as int == spec_count(
                records,
                records,
                names[s],
                k,
                j,
            ),
    ensures
        crate::hmm::spec_pos_total(models, k) == spec_axis_total(records, names, k),
    decreases models.len(),
{
    if models.len() > 0 {
        assert(forall|s: int| 0 <= s < models.len() - 1 ==> models.drop_last()[s] == models[s]);
        assert(forall|s: int| 0 <= s < names.len() - 1 ==> names.drop_last()[s] == names[s]);
        lemma_axis_total(models.drop_last(), records, names.drop_last(), k);
        assert(models.last().wf());
        assert(models.last().collector@[k].states@.len() == 5);
        assert(crate::hmm::to_int_usize(models.last().collector@[k].states@) =~= spec_count_row(
            records,
            names.last(),
            k,
        ));
    }
}

/// At most one locus is included per locus id.
pub proof fn lemma_included_len(records: Seq<(String, Vec<u8>)>, upto: int)
    requires
        upto >= 0,
    ensures
        spec_included(records, upto).len() <= upto,
    decreases upto,
{
    if upto > 0 {
        lemma_included_len(records, upto - 1);
    }
}

} // verus!
