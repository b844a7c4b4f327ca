//! A concatenation of text files that can map a byte offset in the combined
//! text back to a file name, a line and a column.

use vstd::prelude::*;
use vstd::string::StringExecFns;
use vstd::utf8::encode_utf8;

pub mod laws;
pub mod model;
pub mod seq_sum;

use crate::model::{
    NEWLINE, SourceModel, closed_lines, lemma_add_well_formed, lemma_closed_lines,
    lemma_encode_empty, lemma_lines_le_sum, line_lengths_of, tail_len,
};
use crate::seq_sum::{
    bucket, bucket_from, lemma_bucket_in_range, lemma_bucket_out_of_range, lemma_prefix_sum_full,
    lemma_prefix_sum_le_sum, lemma_prefix_sum_monotone, lemma_prefix_sum_step, prefix_sum, sum,
};

verus! {

/// A concatenated string of files, with what is needed to map an offset back
/// to its file, line and column.
#[derive(Debug, Clone, Eq, PartialEq, Ord, PartialOrd, Hash)]
pub struct SourceFile {
    /// The full contents of all the files.
    pub contents: String,
    /// The names of the files, one per file.
    file_names: Vec<String>,
    /// The number of lines in each file.
    file_lines: Vec<usize>,
    /// The length in bytes of each line of all files, in order.
    line_lengths: Vec<usize>,
}

impl View for SourceFile {
    type V = SourceModel;

    closed spec fn view(&self) -> SourceModel {
        SourceModel {
            contents: self.contents@,
            file_names: self.file_names@.map_values(|s: String| s@),
            file_lines: self.file_lines@.map_values(|n: usize| n as int),
            line_lengths: self.line_lengths@.map_values(|n: usize| n as int),
        }
    }
}

impl Default for SourceFile {
    /// A source file with no file in it, as `SourceFile::new` makes.
    fn default() -> (r: SourceFile)
        ensures
            r.wf(),
            r@ == SourceModel::empty(),
    {
        SourceFile::new()
    }
}

/// `p` is where byte `offset` of the text that `m` models lies.
pub open spec fn is_position_of(m: SourceModel, offset: int, p: Position) -> bool {
    match m.position_of(offset) {
        Some((f, line, col)) => {
            &&& 0 <= f < m.file_names.len()
            &&& p.filename@ == m.file_names[f]
            &&& p.line == line
            &&& p.col == col
        },
        None => false,
    }
}

impl SourceFile {
    /// The model is well formed and the text's length in bytes fits a `usize`.
    pub closed spec fn wf(&self) -> bool {
        &&& self@.well_formed()
        &&& self@.bytes().len() <= usize::MAX
    }

    /// Creates a source file with no file in it.
    pub fn new() -> (r: SourceFile)
        ensures
            r.wf(),
            r@ == SourceModel::empty(),
    {
        let r = SourceFile {
            contents: String::new(),
            file_names: Vec::new(),
            file_lines: Vec::new(),
            line_lengths: Vec::new(),
        };
        assert(r@.contents =~= seq![]);
        assert(r@.file_names =~= seq![]);
        assert(r@.file_lines =~= seq![]);
        assert(r@.line_lengths =~= seq![]);
        r
    }

    /// Appends a file named `name` with text `contents`, recording its lines.
    /// A file with empty contents is skipped. A last line without a newline
    /// still counts as a line.
    pub fn add_file_raw(&mut self, name: &str, contents: &str)
        requires
            old(self).wf(),
            old(self)@.bytes().len() + encode_utf8(contents@).len() <= usize::MAX,
        ensures
            final(self).wf(),
            final(self)@ == old(self)@.add(name@, contents@),
    {
        proof {
            lemma_encode_empty(contents@);
        }
        if contents.is_empty() {
            return;
        }
        let ghost old_lines = self@.line_lengths;
        // Split on the newline byte itself, so that a carriage return before
        // it stays part of the line and of its length.
        let bytes = contents.as_bytes();
        let n = bytes.len();
        let mut num_lines: usize = 0;
        let mut cur: usize = 0;
        let mut i: usize = 0;
        while i < n
            invariant
                self.contents == old(self).contents,
                self.file_names == old(self).file_names,
                self.file_lines == old(self).file_lines,
                n == bytes@.len(),
                bytes@ == encode_utf8(contents@),
                old(self)@.bytes().len() + n <= usize::MAX,
                0 <= i <= n,
                cur == tail_len(bytes@.subrange(0, i as int)),
                num_lines == closed_lines(bytes@.subrange(0, i as int)).len(),
                self@.line_lengths == old_lines + closed_lines(bytes@.subrange(0, i as int)),
            decreases n - i,
        {
            proof {
                assert(bytes@.subrange(0, i + 1).drop_last() =~= bytes@.subrange(0, i as int));
                lemma_closed_lines(bytes@.subrange(0, i as int));
            }
            let ghost prev = self@.line_lengths;
            assert(bytes@.subrange(0, i + 1).last() == bytes@[i as int]);
            if bytes[i] == NEWLINE {
                self.line_lengths.push(cur + 1);
                assert(self@.line_lengths =~= prev.push(cur + 1));
                num_lines += 1;
                cur = 0;
                assert(self@.line_lengths =~= old_lines + closed_lines(bytes@.subrange(0, i + 1)));
            } else {
                cur += 1;
            }
            i += 1;
        }
        assert(bytes@.subrange(0, n as int) =~= bytes@);
        proof {
            lemma_closed_lines(bytes@);
        }
        let ghost prev = self@.line_lengths;
        if cur > 0 {
            self.line_lengths.push(cur);
            assert(self@.line_lengths =~= prev.push(cur as int));
            num_lines += 1;
        }
        assert(self@.line_lengths =~= old_lines + line_lengths_of(bytes@));
        self.file_names.push(name.to_owned());
        self.file_lines.push(num_lines);
        self.contents.append(contents);
        proof {
            lemma_add_well_formed(old(self)@, name@, contents@);
        }
        assert(self@.file_names =~= old(self)@.file_names.push(name@));
        assert(self@.file_lines =~= old(self)@.file_lines.push(line_lengths_of(bytes@).len() as int));
    }

    /// The length in bytes of the contents.
    pub fn byte_len(&self) -> (r: usize)
        requires
            self.wf(),
        ensures
            r == self@.bytes().len(),
    {
        self.contents.as_str().as_bytes().len()
    }

    /// The length in bytes of each line of all files, in order.
    pub fn line_lengths(&self) -> (r: &[usize])
        ensures
            r@.map_values(|n: usize| n as int) == self@.line_lengths,
    {
        self.line_lengths.as_slice()
    }

    /// Gets the file, line and column of byte `offset` of the contents; none
    /// when `offset` is at or past the end.
    pub fn resolve_offset<'a>(&'a self, offset: usize) -> (r: Option<Position<'a>>)
        requires
            self.wf(),
        ensures
            r.is_some() == ((offset as int) < self@.bytes().len()),
            r.is_some() == self@.position_of(offset as int).is_some(),
            r matches Some(p) ==> is_position_of(self@, offset as int, p),
    {
        let ghost ll = self@.line_lengths;
        let ghost fl = self@.file_lines;
        let ghost x = offset as int;
        proof {
            lemma_lines_le_sum(ll);
            lemma_lines_le_sum(fl);
            if x >= sum(ll) {
                lemma_bucket_out_of_range(ll, x, 0);
            }
        }
        // With no line at all, nothing can be resolved.
        if self.line_lengths.len() == 0 {
            return None;
        }
        proof {
            lemma_prefix_sum_step(ll, 0);
            lemma_prefix_sum_le_sum(ll, 1);
        }
        let mut line_acc: usize = self.line_lengths[0];
        let mut line_idx: usize = 0;
        while line_acc <= offset
            invariant
                self.wf(),
                ll == self@.line_lengths,
                x == offset,
                0 <= line_idx < ll.len(),
                line_acc == prefix_sum(ll, line_idx + 1),
                prefix_sum(ll, line_idx as int) <= x,
                bucket(ll, x) == bucket_from(ll, x, line_idx as int),
            decreases ll.len() - line_idx,
        {
            if line_idx == self.line_lengths.len() - 1 {
                // Every line has been passed: the offset is past the end.
                proof {
                    lemma_prefix_sum_full(ll);
                    assert(bucket_from(ll, x, ll.len() as int) == ll.len());
                }
                return None;
            }
            line_idx += 1;
            proof {
                lemma_prefix_sum_step(ll, line_idx as int);
                lemma_prefix_sum_le_sum(ll, line_idx + 1);
            }
            line_acc += self.line_lengths[line_idx];
        }
        // Back to the start of the line, to work out the column.
        proof {
            lemma_prefix_sum_step(ll, line_idx as int);
            lemma_prefix_sum_le_sum(ll, ll.len() as int);
            lemma_prefix_sum_full(ll);
            lemma_prefix_sum_monotone(ll, line_idx + 1, ll.len() as int);
        }
        proof {
            lemma_prefix_sum_le_sum(ll, line_idx as int);
        }
        let line_start = line_acc - self.line_lengths[line_idx];
        let ghost li = line_idx as int;
        proof {
            assert(fl.len() > 0);
            lemma_bucket_in_range(fl, li, 0);
            lemma_prefix_sum_step(fl, 0);
            lemma_prefix_sum_le_sum(fl, 1);
        }
        let mut file_acc: usize = self.file_lines[0];
        let mut file_idx: usize = 0;
        while file_acc <= line_idx
            invariant
                self.wf(),
                ll == self@.line_lengths,
                fl == self@.file_lines,
                li == line_idx,
                li < sum(fl),
                fl.len() <= sum(fl) == ll.len() <= usize::MAX,
                0 <= file_idx < fl.len(),
                file_acc == prefix_sum(fl, file_idx + 1),
                prefix_sum(fl, file_idx as int) <= li,
                bucket(fl, li) == bucket_from(fl, li, file_idx as int),
                bucket_from(fl, li, file_idx as int) < fl.len(),
            decreases fl.len() - file_idx,
        {
            proof {
                assert(bucket_from(fl, li, file_idx + 1) < fl.len());
            }
            file_idx += 1;
            proof {
                lemma_prefix_sum_step(fl, file_idx as int);
                lemma_prefix_sum_le_sum(fl, file_idx + 1);
            }
            file_acc += self.file_lines[file_idx];
        }
        proof {
            lemma_prefix_sum_step(fl, file_idx as int);
            lemma_prefix_sum_le_sum(fl, file_idx as int);
        }
        // Back to the start of the file, to work out the line.
        let file_start = file_acc - self.file_lines[file_idx];
        Some(Position::new(self.file_names[file_idx].as_str(), line_idx - file_start, offset - line_start))
    }

    /// Gets the positions of both ends of a span; none when `end` is before
    /// `start` or either end cannot be resolved.
    pub fn resolve_offset_span<'a>(&'a self, start: usize, end: usize) -> (r: Option<Span<'a>>)
        requires
            self.wf(),
        ensures
            r.is_some() == (start <= end && (end as int) < self@.bytes().len()),
            r.is_some() == (start <= end && self@.position_of(start as int).is_some()
                && self@.position_of(end as int).is_some()),
            r matches Some(s) ==> is_position_of(self@, start as int, s.start)
                && is_position_of(self@, end as int, s.end),
    {
        if end < start {
            return None;
        }
        let start = match self.resolve_offset(start) {
            Some(p) => p,
            None => return None,
        };
        let end = match self.resolve_offset(end) {
            Some(p) => p,
            None => return None,
        };
        Some(Span { start, end })
    }
}

/// A position in a source file.
#[derive(Debug, Copy, Clone, Eq, PartialEq, Ord, PartialOrd, Hash)]
pub struct Position<'a> {
    /// Name of the file the position is in.
    pub filename: &'a str,
    /// 0-indexed line number of position.
    pub line: usize,
    /// 0-indexed column number of position.
    pub col: usize,
}

impl<'a> Position<'a> {
    /// Makes a position from its parts.
    pub fn new(filename: &'a str, line: usize, col: usize) -> (r: Position<'a>)
        ensures
            r.filename == filename,
            r.line == line,
            r.col == col,
    {
        Position { filename, line, col }
    }
}

/// A span in a source file.
#[derive(Debug, Copy, Clone, Eq, PartialEq, Ord, PartialOrd, Hash)]
pub struct Span<'a> {
    pub start: Position<'a>,
    pub end: Position<'a>,
}

} // verus!
