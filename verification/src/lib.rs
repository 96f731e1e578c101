//! Classification of short nucleotide reads against per-locus position
//! probability matrices built from an immune-receptor reference database.
//!
//! Probabilities are held in fixed-point form: the value `SCALE` stands for
//! probability 1, so a matrix entry `p` denotes the probability `p / SCALE`.

pub mod batch;
pub mod fasta_reader;
pub mod hmm;
pub mod vdjmodeler;

pub use batch::Seqrec;
pub use batch::process_batch;
pub use fasta_reader::FastaReader;
pub use fasta_reader::FastaRecord;
pub use hmm::HMM;
pub use hmm::HMMState;
pub use vdjmodeler::Chain;
pub use vdjmodeler::SequenceModel;
