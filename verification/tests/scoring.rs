use hmm_mapper::hmm::HMM;
use hmm_mapper::hmm::SCALE;
use hmm_mapper::vdjmodeler::VDJmodeler;

/// A reference database with two heavy-chain loci: one with varied
/// segments, one all-T, so a read copied from the first locus matches the
/// second poorly at every start offset.
fn two_locus_model() -> HMM {
    let records: Vec<(String, Vec<u8>)> = vec![
        ("IGHV1".to_string(), b"ACGTACGTAC".to_vec()),
        ("IGHD1".to_string(), b"GGGGG".to_vec()),
        ("IGHJ1".to_string(), b"TTTTTTTT".to_vec()),
        ("TRBV1".to_string(), b"TTTTTTTTTT".to_vec()),
        ("TRBD1".to_string(), b"TTTTT".to_vec()),
        ("TRBJ1".to_string(), b"TTTTTTTT".to_vec()),
    ];
    VDJmodeler::build_models(&records)
}

fn score_of(result: &Vec<(String, u64)>, name: &str) -> u64 {
    for (n, s) in result {
        if n == name {
            return *s;
        }
    }
    panic!("locus {} missing from the result", name);
}

#[test]
fn read_equal_to_a_reference_segment_scores_its_locus_at_one() {
    let hmm = two_locus_model();
    let result = hmm.forward_algorithm(b"ACGTACGTAC").expect("the read should hit");
    assert_eq!(result.len(), 2);
    let igh = score_of(&result, "IGH-VDJ");
    let trb = score_of(&result, "TRB-VDJ");
    // the copied locus reports exactly 1.0; the other strictly less
    assert_eq!(igh, SCALE);
    assert!(trb < SCALE);
    assert!(trb >= 1);
}

#[test]
fn scores_stay_in_the_unit_interval_and_hit_one() {
    let hmm = two_locus_model();
    let queries: Vec<&[u8]> = vec![b"ACGTACGTAC", b"TTTTTTTTTT", b"CGTACG", b"TTTTT"];
    for q in queries {
        if let Some(result) = hmm.forward_algorithm(q) {
            let mut saw_top = false;
            for (_, s) in &result {
                assert!(*s >= 1, "a collapsed score of zero");
                assert!(*s <= SCALE, "a collapsed score above one");
                if *s == SCALE {
                    saw_top = true;
                }
            }
            assert!(saw_top, "no locus reports the top score");
        }
    }
}

#[test]
fn unrecognized_byte_discards_the_read_without_error() {
    let hmm = two_locus_model();
    // a non-IUPAC byte makes every candidate start offset unusable; the read
    // is dropped, not an error
    assert!(hmm.forward_algorithm(b"ACGTXACGTA").is_none());
    assert!(hmm.forward_algorithm(b"QQQQQ").is_none());
}

#[test]
fn ambiguity_codes_are_not_accepted_in_queries() {
    let hmm = two_locus_model();
    // IUPAC expansion serves model construction only; query scanning rejects
    // ambiguous bases outright
    assert!(hmm.forward_algorithm(b"ACGTNACGTA").is_none());
}

#[test]
fn read_below_the_confidence_threshold_yields_no_result() {
    let hmm = two_locus_model();
    // C runs match no locus well anywhere on the position axis
    assert!(hmm.forward_algorithm(b"CCCCCCCCCCCCCCCCCCCC").is_none());
}

#[test]
fn degenerate_reads_yield_no_result() {
    let hmm = two_locus_model();
    assert!(hmm.forward_algorithm(b"").is_none());
    // longer than the whole position axis
    let too_long = vec![b'A'; 1000];
    assert!(hmm.forward_algorithm(&too_long).is_none());
}

#[test]
fn find_probable_start_locates_the_copied_segment() {
    let hmm = two_locus_model();
    let starts = hmm.find_probable_start(b"ACGTACGTAC");
    assert_eq!(starts.len(), 2);
    // the IGH V segment sits at offset zero with a near-perfect average
    assert_eq!(starts[0].0, 0);
    assert!(starts[0].1 > 3 * (SCALE / 10));
    // the other locus matches poorly everywhere
    assert!(starts[1].1 <= 3 * (SCALE / 10));
}

#[test]
fn find_probable_start_is_all_zero_for_bad_reads() {
    let hmm = two_locus_model();
    let starts = hmm.find_probable_start(b"ACXGT");
    for (pos, avg) in starts {
        assert_eq!(pos, 0);
        assert_eq!(avg, 0);
    }
}

#[test]
fn forward_algorithm_pos_reports_relative_likelihoods() {
    let hmm = two_locus_model();
    let result = hmm.forward_algorithm_pos(b"ACGTACGTAC", 0).expect("clean read");
    assert_eq!(result.len(), 2);
    let mut saw_top = false;
    for (_, s) in &result {
        assert!(*s >= 1 && *s <= SCALE);
        if *s == SCALE {
            saw_top = true;
        }
    }
    assert!(saw_top);
    assert!(hmm.forward_algorithm_pos(b"ACGTX", 0).is_none());
}
