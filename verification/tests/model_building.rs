use hmm_mapper::HMMState;
use hmm_mapper::SequenceModel;
use hmm_mapper::hmm::FLOOR_PROB;
use hmm_mapper::hmm::HMM;
use hmm_mapper::hmm::LOW_TRANS;
use hmm_mapper::hmm::SCALE;
use hmm_mapper::vdjmodeler::HMMcollector;
use hmm_mapper::vdjmodeler::HMMmodel;
use hmm_mapper::vdjmodeler::VDJmodeler;

fn zero_counts() -> HMMcollector {
    HMMcollector { states: vec![0, 0, 0, 0, 0] }
}

#[test]
fn new_model_is_all_zero() {
    let m = HMMmodel::new(SequenceModel::IGH, 4);
    assert_eq!(m.collector.len(), 4);
    for c in &m.collector {
        assert_eq!(c.states, vec![0, 0, 0, 0, 0]);
    }
}

#[test]
fn consume_expands_one_ambiguous_base() {
    // the purine code R stands for A or G: accumulating a single R adds one
    // unit to exactly the A and G cells at the start offset, and nowhere else
    let mut m = HMMmodel::new(SequenceModel::IGH, 5);
    let ok = m.consume(SequenceModel::IGH, 2, b"R");
    assert!(ok);
    for (k, c) in m.collector.iter().enumerate() {
        if k == 2 {
            assert_eq!(c.states, vec![1, 1, 0, 0, 0]);
        } else {
            assert_eq!(c.states, vec![0, 0, 0, 0, 0]);
        }
    }
}

#[test]
fn consume_counts_plain_bases() {
    let mut m = HMMmodel::new(SequenceModel::TRB, 4);
    let ok = m.consume(SequenceModel::TRB, 0, b"AGCT");
    assert!(ok);
    assert_eq!(m.collector[0].states, vec![1, 0, 0, 0, 0]);
    assert_eq!(m.collector[1].states, vec![0, 1, 0, 0, 0]);
    assert_eq!(m.collector[2].states, vec![0, 0, 1, 0, 0]);
    assert_eq!(m.collector[3].states, vec![0, 0, 0, 1, 0]);
}

#[test]
fn consume_ignores_other_loci() {
    let mut m = HMMmodel::new(SequenceModel::IGH, 3);
    let ok = m.consume(SequenceModel::TRB, 0, b"AAA");
    assert!(!ok);
    for c in &m.collector {
        assert_eq!(c.states, vec![0, 0, 0, 0, 0]);
    }
}

#[test]
fn consume_stops_at_the_first_unrecognized_byte() {
    let mut m = HMMmodel::new(SequenceModel::IGH, 4);
    let ok = m.consume(SequenceModel::IGH, 0, b"AXGG");
    assert!(ok);
    // the A before the bad byte counts; everything after it does not
    assert_eq!(m.collector[0].states, vec![1, 0, 0, 0, 0]);
    assert_eq!(m.collector[1].states, vec![0, 0, 0, 0, 0]);
    assert_eq!(m.collector[2].states, vec![0, 0, 0, 0, 0]);
    assert_eq!(m.collector[3].states, vec![0, 0, 0, 0, 0]);
}

#[test]
fn zero_count_position_becomes_uniform() {
    // a position with no counts at all turns into the uniform distribution
    // over the floored, renormalized entries
    let st = HMMState::from_collectors(&[zero_counts(), zero_counts()]);
    assert_eq!(st.len(), 2);
    for row in &st.match_emission {
        assert_eq!(row.len(), 5);
        for &p in row {
            assert_eq!(p, SCALE / 5);
        }
        let total: u64 = row.iter().sum();
        assert_eq!(total, SCALE);
    }
}

#[test]
fn finalized_rows_are_normalized_and_zero_free() {
    // positions with real counts: every row sums to exactly SCALE and no
    // entry is zero
    let a = HMMcollector { states: vec![3, 0, 0, 0, 0] };
    let b = HMMcollector { states: vec![0, 1, 1, 0, 0] };
    let st = HMMState::from_collectors(&[a, b]);
    for row in &st.match_emission {
        let total: u64 = row.iter().sum();
        assert_eq!(total, SCALE);
        for &p in row {
            assert!(p >= 1);
            assert!(p <= SCALE);
        }
    }
    // the dominant base towers over the unseen ones
    assert!(st.match_emission[0][0] > 9 * (SCALE / 10));
    assert!(st.match_emission[0][1] < SCALE / 100);
}

#[test]
fn floor_probability_keeps_unseen_bases_possible() {
    let a = HMMcollector { states: vec![1, 0, 0, 0, 0] };
    let st = HMMState::from_collectors(&[a]);
    // the unseen bases sit near the floor probability after renormalization
    let row = &st.match_emission[0];
    assert!(row[1] > 0);
    assert!(row[1] < 2 * FLOOR_PROB);
}

#[test]
fn prob_for_pos_reads_one_base_column() {
    let a = HMMcollector { states: vec![4, 0, 0, 0, 0] };
    let b = HMMcollector { states: vec![0, 4, 0, 0, 0] };
    let st = HMMState::from_collectors(&[a, b]);
    let col = st.prob_for_pos(0);
    assert_eq!(col.len(), 2);
    assert_eq!(col[0], st.match_emission[0][0]);
    assert_eq!(col[1], st.match_emission[1][0]);
}

#[test]
fn transition_matrix_is_near_diagonal() {
    let models = vec![
        HMMmodel::new(SequenceModel::IGH, 2),
        HMMmodel::new(SequenceModel::TRB, 2),
    ];
    let hmm = HMM::from_sequence_models(models);
    assert_eq!(hmm.transition_matrix.len(), 2);
    for i in 0..2 {
        let mut total: u64 = 0;
        for j in 0..2 {
            let t = hmm.transition_matrix[i][j];
            if i == j {
                assert_eq!(t, SCALE - LOW_TRANS);
            } else {
                assert_eq!(t, LOW_TRANS);
            }
            total += t;
        }
        assert_eq!(total, SCALE);
    }
}

#[test]
fn char2pos_maps_canonical_bases_only() {
    assert_eq!(HMM::char2pos(b'A'), Some(0));
    assert_eq!(HMM::char2pos(b'g'), Some(1));
    assert_eq!(HMM::char2pos(b'C'), Some(2));
    assert_eq!(HMM::char2pos(b't'), Some(3));
    assert_eq!(HMM::char2pos(b'N'), None);
    assert_eq!(HMM::char2pos(b'R'), None);
    assert_eq!(HMM::char2pos(b'X'), None);
}

#[test]
fn iupac_char2pos_expands_every_code() {
    assert_eq!(HMM::iupac_char2pos(b'A'), vec![0]);
    assert_eq!(HMM::iupac_char2pos(b'G'), vec![1]);
    assert_eq!(HMM::iupac_char2pos(b'C'), vec![2]);
    assert_eq!(HMM::iupac_char2pos(b'T'), vec![3]);
    assert_eq!(HMM::iupac_char2pos(b'.'), vec![0, 1, 2, 3]);
    assert_eq!(HMM::iupac_char2pos(b'N'), vec![0, 1, 2, 3]);
    assert_eq!(HMM::iupac_char2pos(b'R'), vec![0, 1]);
    assert_eq!(HMM::iupac_char2pos(b'Y'), vec![2, 3]);
    assert_eq!(HMM::iupac_char2pos(b'W'), vec![0, 3]);
    assert_eq!(HMM::iupac_char2pos(b'S'), vec![1, 2]);
    assert_eq!(HMM::iupac_char2pos(b'K'), vec![1, 3]);
    assert_eq!(HMM::iupac_char2pos(b'M'), vec![0, 2]);
    assert_eq!(HMM::iupac_char2pos(b'B'), vec![1, 2, 3]);
    assert_eq!(HMM::iupac_char2pos(b'D'), vec![0, 1, 3]);
    assert_eq!(HMM::iupac_char2pos(b'H'), vec![0, 2, 3]);
    assert_eq!(HMM::iupac_char2pos(b'V'), vec![0, 1, 2]);
    assert_eq!(HMM::iupac_char2pos(b'r'), vec![0, 1]);
}

#[test]
fn insufficient_locus_is_left_out_of_the_model() {
    // one locus with all three required segments, one light-chain locus with
    // only a V segment: the latter is excluded from the finished model
    let records: Vec<(String, Vec<u8>)> = vec![
        ("IGHV1".to_string(), b"ACGTACGTAC".to_vec()),
        ("IGHD1".to_string(), b"GGGGG".to_vec()),
        ("IGHJ1".to_string(), b"TTTTTTTT".to_vec()),
        ("IGLV1".to_string(), b"ACACACA".to_vec()),
    ];
    let hmm = VDJmodeler::build_models(&records);
    assert_eq!(hmm.names, vec![SequenceModel::IGH]);
    // the IGH matrix spans V, D and J: 10 + 5 + 8 positions
    assert_eq!(hmm.states().len(), 23);
}
