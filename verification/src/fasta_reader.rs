//! A small FASTA reader: record parsing from text already read into memory,
//! and the gzip signature test on a file's leading bytes. Opening and
//! decompressing files is left to the caller.

use vstd::prelude::*;

verus! {

/// Index of the first newline of a text, or its length if there is none.
pub open spec fn first_nl(s: Seq<char>) -> int
    decreases s.len(),
{
    if s.len() == 0 {
        0
    } else if s[0] == '\n' {
        0
    } else {
        1 + first_nl(s.drop_first())
    }
}

/// Characterization of `first_nl`: no newline before it, a newline at it
/// unless the text has none.
pub proof fn lemma_first_nl(s: Seq<char>)
    ensures
        0 <= first_nl(s) <= s.len(),
        forall|i: int| 0 <= i < first_nl(s) ==> s[i] != '\n',
        first_nl(s) < s.len() ==> s[first_nl(s)] == '\n',
    decreases s.len(),
{
    if s.len() > 0 && s[0] != '\n' {
        lemma_first_nl(s.drop_first());
        assert forall|i: int| 0 <= i < first_nl(s) implies s[i] != '\n' by {
            if i >= 1 {
                assert(s[i] == s.drop_first()[i - 1]);
            }
        }
        if first_nl(s) < s.len() {
            assert(s[first_nl(s)] == s.drop_first()[first_nl(s.drop_first())]);
        }
    }
}

/// A position with a newline, preceded by none, is exactly `first_nl`.
pub proof fn lemma_first_nl_unique(s: Seq<char>, p: int)
    requires
        0 <= p <= s.len(),
        p < s.len() ==> s[p] == '\n',
        forall|i: int| 0 <= i < p ==> s[i] != '\n',
    ensures
        p < s.len() ==> first_nl(s) == p,
        p == s.len() ==> first_nl(s) == s.len(),
    decreases s.len(),
{
    lemma_first_nl(s);
}

/// A line as `lines()` yields it: without a trailing carriage return.
pub open spec fn strip_cr(line: Seq<char>) -> Seq<char> {
    if line.len() > 0 && line.last() == '\r' {
        line.drop_last()
    } else {
        line
    }
}

/// The lines of a text, split on newlines, each without a trailing carriage
/// return; a trailing newline yields no extra empty line.
pub open spec fn spec_lines(s: Seq<char>) -> Seq<Seq<char>>
    decreases s.len(),
{
    if s.len() == 0 {
        Seq::empty()
    } else {
        let k = first_nl_clamped(s);
        let line = strip_cr(s.take(k));
        if k == s.len() {
            seq![line]
        } else {
            seq![line] + spec_lines(s.skip(k + 1))
        }
    }
}

/// `first_nl`, bounded by the text's length (which it never exceeds).
pub open spec fn first_nl_clamped(s: Seq<char>) -> int {
    if 0 <= first_nl(s) && first_nl(s) <= s.len() {
        first_nl(s)
    } else {
        s.len() as int
    }
}

/// The records parsed from a sequence of lines, given the pending header
/// and sequence text accumulated so far: a line starting with `>` closes
/// the pending record and opens a new one; any other line extends the
/// pending sequence; lines before the first header are ignored.
pub open spec fn spec_parse_from(
    lines: Seq<Seq<char>>,
    header: Option<Seq<char>>,
    acc: Seq<char>,
) -> Seq<(Seq<char>, Seq<char>)>
    decreases lines.len(),
{
    if lines.len() == 0 {
        match header {
            Some(h) => seq![(h, acc)],
            None => Seq::empty(),
        }
    } else {
        let l = lines[0];
        if l.len() > 0 && l[0] == '>' {
            match header {
                Some(h) => seq![(h, acc)] + spec_parse_from(
                    lines.drop_first(),
                    Some(l),
                    Seq::empty(),
                ),
                None => spec_parse_from(lines.drop_first(), Some(l), Seq::empty()),
            }
        } else {
            spec_parse_from(lines.drop_first(), header, acc + l)
        }
    }
}

/// The `(header, sequence)` records of a FASTA text: headers keep their
/// leading `>`, sequences are the concatenation of their lines.
pub open spec fn spec_parse(content: Seq<char>) -> Seq<(Seq<char>, Seq<char>)> {
    spec_parse_from(spec_lines(content), None, Seq::empty())
}

/// One record of a FASTA file: the full header line (with its leading `>`)
/// and the record's sequence with line breaks removed.
pub struct FastaRecord {
    /// The header line, `>` included.
    pub header: String,
    /// The sequence text, concatenated over its lines.
    pub sequence: String,
}

impl FastaRecord {
    /// A record from its parts.
    pub fn new(header: String, sequence: String) -> (r: Self)
        ensures
            r.header@ == header@,
            r.sequence@ == sequence@,
    {
        FastaRecord { header, sequence }
    }

    /// The record's sequence text.
    pub fn seq(&self) -> (r: &str)
        ensures
            r@ == self.sequence@,
    {
        self.sequence.as_str()
    }

    /// The record's header line.
    pub fn id(&self) -> (r: &str)
        ensures
            r@ == self.header@,
    {
        self.header.as_str()
    }

    /// The record as FASTA text: the header line, then the sequence wrapped
    /// to lines of at most sixty characters, each line newline-terminated.
    pub fn to_fasta_string(&self) -> (r: String)
        ensures
            r@ == self.header@ + seq!['\n'] + spec_wrap(self.sequence@),
    {
        let mut out = String::new();
        out.append(self.header.as_str());
        out.append("\n");
        proof {
            reveal_strlit("\n");
            assert(out@ =~= self.header@ + seq!['\n']);
            assert(self.sequence@.skip(0) =~= self.sequence@);
        }
        let n = self.sequence.unicode_len();
        let mut i: usize = 0;
        while i < n
            invariant
                i <= n,
                n == self.sequence@.len(),
                out@ + spec_wrap(self.sequence@.skip(i as int)) == self.header@ + seq!['\n']
                    + spec_wrap(self.sequence@),
            decreases n - i,
        {
            let end = if n - i > 60 {
                i + 60
            } else {
                n
            };
            let chunk = self.sequence.substring_char(i, end);
            out.append(chunk);
            out.append("\n");
            proof {
                reveal_strlit("\n");
                let tail = self.sequence@.skip(i as int);
                if n - i > 60 {
                    assert(tail.take(60) =~= self.sequence@.subrange(i as int, end as int));
                    assert(tail.skip(60) =~= self.sequence@.skip(end as int));
                    assert(spec_wrap(tail) == tail.take(60) + seq!['\n'] + spec_wrap(
                        tail.skip(60),
                    ));
                } else {
                    assert(tail =~= self.sequence@.subrange(i as int, end as int));
                    assert(spec_wrap(tail) == tail + seq!['\n']);
                    assert(self.sequence@.skip(end as int) =~= Seq::<char>::empty());
                    assert(spec_wrap(Seq::<char>::empty()) =~= Seq::<char>::empty());
                }
            }
            i = end;
        }
        proof {
            assert(self.sequence@.skip(i as int) =~= Seq::<char>::empty());
            assert(spec_wrap(Seq::<char>::empty()) =~= Seq::<char>::empty());
            assert(out@ + Seq::<char>::empty() =~= out@);
        }
        out
    }
}

/// A sequence wrapped to lines of at most sixty characters, each line
/// terminated by a newline; empty text wraps to nothing.
pub open spec fn spec_wrap(s: Seq<char>) -> Seq<char>
    decreases s.len(),
{
    if s.len() == 0 {
        Seq::empty()
    } else if s.len() <= 60 {
        s + seq!['\n']
    } else {
        s.take(60) + seq!['\n'] + spec_wrap(s.skip(60))
    }
}

/// A FASTA file read into memory, split into its records.
pub struct FastaReader {
    /// The parsed records, in file order.
    pub records: Vec<FastaRecord>,
}

impl FastaReader {
    /// A reader over the records of a FASTA text: the non-I/O half of
    /// opening a file, for a caller that has read (and, where needed,
    /// decompressed) the file's content.
    pub fn from_content(content: &str) -> (r: Self)
        ensures
            r.records@.len() == spec_parse(content@).len(),
            forall|i: int|
                0 <= i < r.records@.len() ==> (#[trigger] r.records@[i]).header@ == spec_parse(
                    content@,
                )[i].0 && r.records@[i].sequence@ == spec_parse(content@)[i].1,
    {
        FastaReader { records: Self::parse_records(content) }
    }

    /// The last record, removed from the reader; records are handed out in
    /// reverse file order, as popping from the parsed list.
    pub fn pop_record(&mut self) -> (r: Option<FastaRecord>)
        ensures
            old(self).records@.len() == 0 ==> r is None && final(self).records@
                == old(self).records@,
            old(self).records@.len() > 0 ==> (r matches Some(rec) && rec == old(
                self,
            ).records@.last() && final(self).records@ == old(self).records@.drop_last()),
    {
        self.records.pop()
    }

    /// Whether a file's leading bytes carry the gzip signature.
    pub fn is_gzipped(data: &[u8]) -> (r: bool)
        ensures
            r == (data@.len() >= 2 && data@[0] == 0x1f && data@[1] == 0x8b),
    {
        data.len() >= 2 && data[0] == 0x1f && data[1] == 0x8b
    }

    /// Parse a FASTA text into its records: a `>` line opens a record, the
    /// following lines up to the next `>` line hold its sequence; text
    /// before the first `>` line is ignored.
    pub fn parse_records(content: &str) -> (r: Vec<FastaRecord>)
        ensures
            r@.len() == spec_parse(content@).len(),
            forall|i: int|
                0 <= i < r@.len() ==> (#[trigger] r@[i]).header@ == spec_parse(content@)[i].0
                    && r@[i].sequence@ == spec_parse(content@)[i].1,
    {
        let clen = content.unicode_len();
        let mut records: Vec<FastaRecord> = Vec::new();
        let mut header: Option<String> = None;
        let mut sequence: String = String::new();
        let mut pos: usize = 0;

        proof {
            assert(content@.skip(0) =~= content@);
        }

        while pos < clen
            invariant
                pos <= clen,
                clen == content@.len(),
                spec_parse(content@) == views_of(records@) + spec_parse_from(
                    spec_lines(content@.skip(pos as int)),
                    match header {
                        Some(h) => Some(h@),
                        None => None,
                    },
                    sequence@,
                ),
            decreases clen - pos,
        {
            // find the end of the current line
            let mut j: usize = pos;
            while j < clen && content.get_char(j) != '\n'
                invariant
                    pos <= j <= clen,
                    clen == content@.len(),
                    forall|k: int| pos <= k < j ==> content@[k] != '\n',
                decreases clen - j,
            {
                j += 1;
            }
            let ghost rest = content@.skip(pos as int);
            proof {
                assert(forall|k: int| 0 <= k < rest.len() ==> rest[k] == content@[k + pos]);
                lemma_first_nl(rest);
                if j < clen {
                    lemma_first_nl_unique(rest, j - pos);
                } else {
                    lemma_first_nl_unique(rest, rest.len() as int);
                }
                assert(first_nl_clamped(rest) == j - pos);
            }
            // strip a trailing carriage return, as lines() does
            let line_end: usize = if j > pos && content.get_char(j - 1) == '\r' {
                j - 1
            } else {
                j
            };
            let ghost line = strip_cr(rest.take(j - pos));
            proof {
                assert(rest.take(j - pos) =~= content@.subrange(pos as int, j as int));
                assert(line =~= content@.subrange(pos as int, line_end as int));
            }
            let is_header = line_end > pos && content.get_char(pos) == '>';
            let ghost old_records = records@;
            let ghost old_header: Option<Seq<char>> = match &header {
                Some(h) => Some(h@),
                None => None,
            };
            let ghost old_sequence = sequence@;
            let line_str = content.substring_char(pos, line_end);
            if is_header {
                match header {
                    Some(h) => {
                        records.push(FastaRecord { header: h, sequence });
                        sequence = String::new();
                    },
                    None => {},
                }
                header = Some(String::from_str(line_str));
                sequence = String::new();
            } else {
                sequence.append(line_str);
            }
            // step past the line and its newline, if any
            let next = if j < clen {
                j + 1
            } else {
                j
            };
            proof {
                let lines_rest = spec_lines(rest);
                let tail_lines = spec_lines(content@.skip(next as int));
                if j < clen {
                    assert(rest.skip(j - pos + 1) =~= content@.skip(next as int));
                    assert(lines_rest == seq![line] + tail_lines);
                } else {
                    assert(j - pos == rest.len());
                    assert(lines_rest == seq![line]);
                    assert(content@.skip(next as int) =~= Seq::<char>::empty());
                    assert(lines_rest =~= seq![line] + tail_lines);
                }
                assert(lines_rest.drop_first() =~= tail_lines);
                assert(lines_rest[0] == line);
                assert(lines_rest.len() > 0);
                if is_header {
                    assert(line.len() > 0 && line[0] == '>');
                    match old_header {
                        Some(h) => {
                            assert(spec_parse_from(lines_rest, old_header, old_sequence) == seq![
                                (h, old_sequence),
                            ] + spec_parse_from(tail_lines, Some(line), Seq::empty()));
                            assert(views_of(records@) =~= views_of(old_records) + seq![
                                (h, old_sequence),
                            ]);
                            assert(views_of(old_records) + (seq![(h, old_sequence)]
                                + spec_parse_from(tail_lines, Some(line), Seq::empty()))
                                =~= views_of(records@) + spec_parse_from(
                                tail_lines,
                                Some(line),
                                Seq::empty(),
                            ));
                        },
                        None => {
                            assert(spec_parse_from(lines_rest, old_header, old_sequence)
                                == spec_parse_from(tail_lines, Some(line), Seq::empty()));
                        },
                    }
                    assert(sequence@ =~= Seq::<char>::empty());
                } else {
                    assert(!(line.len() > 0 && line[0] == '>'));
                    assert(spec_parse_from(lines_rest, old_header, old_sequence)
                        == spec_parse_from(tail_lines, old_header, old_sequence + line));
                    assert(sequence@ == old_sequence + line);
                }
            }
            pos = next;
        }
        proof {
            assert(content@.skip(pos as int) =~= Seq::<char>::empty());
            assert(spec_lines(Seq::<char>::empty()) =~= Seq::<Seq<char>>::empty());
        }
        let ghost old_records = records@;
        match header {
            Some(h) => {
                records.push(FastaRecord { header: h, sequence });
                proof {
                    assert(views_of(records@) =~= spec_parse(content@));
                }
            },
            None => {
                proof {
                    assert(views_of(records@) =~= spec_parse(content@));
                }
            },
        }
        proof {
            assert forall|i: int| 0 <= i < records@.len() implies (#[trigger] records@[i]).header@
                == spec_parse(content@)[i].0 && records@[i].sequence@ == spec_parse(content@)[i].1 by {
                assert(views_of(records@)[i] == (records@[i].header@, records@[i].sequence@));
            }
        }
        records
    }
}

/// The `(header view, sequence view)` pairs of parsed records.
pub open spec fn views_of(records: Seq<FastaRecord>) -> Seq<(Seq<char>, Seq<char>)> {
    records.map_values(|r: FastaRecord| (r.header@, r.sequence@))
}

} // verus!
