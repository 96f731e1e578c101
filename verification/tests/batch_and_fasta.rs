use hmm_mapper::FastaReader;
use hmm_mapper::FastaRecord;
use hmm_mapper::Seqrec;
use hmm_mapper::hmm::SCALE;
use hmm_mapper::process_batch;
use hmm_mapper::vdjmodeler::VDJmodeler;

fn reads() -> Vec<Seqrec> {
    vec![
        Seqrec::new(b"read1", b"ACGTACGTAC"),
        Seqrec::new(b"read2", b"CCCCCCCCCCCCCCCCCCCC"),
        Seqrec::new(b"read3", b"TTTTTTTTTT"),
        Seqrec::new(b"read4", b"ACGTXACGTA"),
        Seqrec::new(b"read5", b"CGTACG"),
    ]
}

fn model() -> hmm_mapper::HMM {
    let records: Vec<(String, Vec<u8>)> = vec![
        ("IGHV1".to_string(), b"ACGTACGTAC".to_vec()),
        ("IGHD1".to_string(), b"GGGGG".to_vec()),
        ("IGHJ1".to_string(), b"TTTTTTTT".to_vec()),
        ("TRBV1".to_string(), b"TTTTTTTTTT".to_vec()),
        ("TRBD1".to_string(), b"TTTTT".to_vec()),
        ("TRBJ1".to_string(), b"TTTTTTTT".to_vec()),
    ];
    VDJmodeler::build_models(&records)
}

#[test]
fn chunk_size_never_changes_the_batch_outcome() {
    let hmm = model();
    let batch = reads();
    let r1 = process_batch(&hmm, &batch, 1);
    let r2 = process_batch(&hmm, &batch, 2);
    let r3 = process_batch(&hmm, &batch, 100);
    assert_eq!(r1.len(), r2.len());
    assert_eq!(r1.len(), r3.len());
    for i in 0..r1.len() {
        assert_eq!(r1[i].0, r2[i].0);
        assert_eq!(r1[i].1, r2[i].1);
        assert_eq!(r1[i].2, r2[i].2);
        assert_eq!(r1[i].0, r3[i].0);
        assert_eq!(r1[i].1, r3[i].1);
        assert_eq!(r1[i].2, r3[i].2);
    }
}

#[test]
fn batch_keeps_hits_in_read_order_and_drops_the_rest() {
    let hmm = model();
    let batch = reads();
    let out = process_batch(&hmm, &batch, 2);
    // read2 matches nothing and read4 holds a bad byte: both are dropped
    // silently; the others appear in input order
    assert_eq!(out.len(), 3);
    assert_eq!(out[0].0, b"read1".to_vec());
    assert_eq!(out[1].0, b"read3".to_vec());
    assert_eq!(out[2].0, b"read5".to_vec());
    assert_eq!(out[0].1, b"ACGTACGTAC".to_vec());
    for entry in &out {
        let mut saw_top = false;
        for (_, s) in &entry.2 {
            assert!(*s >= 1 && *s <= SCALE);
            if *s == SCALE {
                saw_top = true;
            }
        }
        assert!(saw_top);
    }
}

#[test]
fn seqrec_copies_its_parts() {
    let r = Seqrec::new(b"id-7", b"ACGT");
    assert_eq!(r.id(), b"id-7");
    assert_eq!(r.seq(), b"ACGT");
}

#[test]
fn parse_records_splits_headers_and_joins_sequence_lines() {
    let text = ">h1 first\nACGT\nGGG\n>h2 second\nTTT";
    let records = FastaReader::parse_records(text);
    assert_eq!(records.len(), 2);
    assert_eq!(records[0].id(), ">h1 first");
    assert_eq!(records[0].seq(), "ACGTGGG");
    assert_eq!(records[1].id(), ">h2 second");
    assert_eq!(records[1].seq(), "TTT");
}

#[test]
fn parse_records_handles_crlf_and_leading_text() {
    let text = "junk before\n>h\r\nAC\r\nGT\r\n";
    let records = FastaReader::parse_records(text);
    assert_eq!(records.len(), 1);
    assert_eq!(records[0].id(), ">h");
    assert_eq!(records[0].seq(), "ACGT");
}

#[test]
fn parse_records_of_empty_text_is_empty() {
    assert_eq!(FastaReader::parse_records("").len(), 0);
    assert_eq!(FastaReader::parse_records("no header at all\nACGT").len(), 0);
}

#[test]
fn reader_pops_records_in_reverse_file_order() {
    let mut reader = FastaReader::from_content(">a\nAC\n>b\nGT\n");
    let last = reader.pop_record().unwrap();
    assert_eq!(last.id(), ">b");
    let first = reader.pop_record().unwrap();
    assert_eq!(first.id(), ">a");
    assert!(reader.pop_record().is_none());
}

#[test]
fn is_gzipped_checks_the_magic_bytes() {
    assert!(FastaReader::is_gzipped(&[0x1f, 0x8b, 0x08]));
    assert!(!FastaReader::is_gzipped(&[0x1f]));
    assert!(!FastaReader::is_gzipped(b">not compressed"));
    assert!(!FastaReader::is_gzipped(&[]));
}

#[test]
fn record_renders_as_wrapped_fasta() {
    let rec = FastaRecord::new(">x".to_string(), "A".repeat(70));
    let text = rec.to_fasta_string();
    let expected = format!(">x\n{}\n{}\n", "A".repeat(60), "A".repeat(10));
    assert_eq!(text, expected);
    let empty = FastaRecord::new(">y".to_string(), String::new());
    assert_eq!(empty.to_fasta_string(), ">y\n");
}
