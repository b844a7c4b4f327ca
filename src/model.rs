//! The mathematical model of a source map: the combined text, and the tables
//! that record, for each added file, its name and its number of lines, and for
//! each line its length in bytes.

use vstd::prelude::*;
use vstd::utf8::{encode_scalar, encode_utf8};

use crate::seq_sum::{bucket, lemma_sum_concat, prefix_sum, sum};

verus! {

/// The byte that ends a line.
pub const NEWLINE: u8 = 10;

/// The length of the run of bytes after the last newline of `b` (all of `b`
/// where it holds no newline).
pub open spec fn tail_len(b: Seq<u8>) -> int
    decreases b.len(),
{
    if b.len() == 0 {
        0
    } else if b.last() == NEWLINE {
        0
    } else {
        tail_len(b.drop_last()) + 1
    }
}

/// The lengths of the lines of `b` that a newline ends, each counting its newline.
pub open spec fn closed_lines(b: Seq<u8>) -> Seq<int>
    decreases b.len(),
{
    if b.len() == 0 {
        seq![]
    } else if b.last() == NEWLINE {
        closed_lines(b.drop_last()).push(tail_len(b.drop_last()) + 1)
    } else {
        closed_lines(b.drop_last())
    }
}

/// The lengths of the lines of `b`: those that a newline ends, then the bytes
/// after the last newline where there are any.
pub open spec fn line_lengths_of(b: Seq<u8>) -> Seq<int> {
    if tail_len(b) > 0 {
        closed_lines(b).push(tail_len(b))
    } else {
        closed_lines(b)
    }
}

/// The model of a source map.
pub struct SourceModel {
    /// The text of all added files, in order.
    pub contents: Seq<char>,
    /// The name of each added file.
    pub file_names: Seq<Seq<char>>,
    /// The number of lines of each added file.
    pub file_lines: Seq<int>,
    /// The length in bytes of each line of all files, in order.
    pub line_lengths: Seq<int>,
}

impl SourceModel {
    /// The model with no file.
    pub open spec fn empty() -> SourceModel {
        SourceModel {
            contents: seq![],
            file_names: seq![],
            file_lines: seq![],
            line_lengths: seq![],
        }
    }

    /// The combined text as UTF-8 bytes; offsets count these.
    pub open spec fn bytes(self) -> Seq<u8> {
        encode_utf8(self.contents)
    }

    /// The tables agree with each other and with the text: one line count per
    /// name, one length per line, every byte in exactly one line, no file and no
    /// line empty.
    pub open spec fn well_formed(self) -> bool {
        &&& self.file_names.len() == self.file_lines.len()
        &&& sum(self.file_lines) == self.line_lengths.len()
        &&& sum(self.line_lengths) == self.bytes().len()
        &&& forall|f: int| 0 <= f < self.file_lines.len() ==> self.file_lines[f] > 0
        &&& forall|j: int| 0 <= j < self.line_lengths.len() ==> self.line_lengths[j] > 0
    }

    /// The model after adding a file named `name` with text `text`; an empty
    /// text leaves the model as it was.
    pub open spec fn add(self, name: Seq<char>, text: Seq<char>) -> SourceModel {
        if text.len() == 0 {
            self
        } else {
            let lines = line_lengths_of(encode_utf8(text));
            SourceModel {
                contents: self.contents + text,
                file_names: self.file_names.push(name),
                file_lines: self.file_lines.push(lines.len() as int),
                line_lengths: self.line_lengths + lines,
            }
        }
    }

    /// Where byte `offset` of the combined text lies: the index of its file, its
    /// line within that file and its column, all from zero; none past the end.
    pub open spec fn position_of(self, offset: int) -> Option<(int, int, int)> {
        let i = bucket(self.line_lengths, offset);
        if 0 <= offset && i < self.line_lengths.len() {
            let f = bucket(self.file_lines, i);
            Some((f, i - prefix_sum(self.file_lines, f), offset - prefix_sum(self.line_lengths, i)))
        } else {
            None
        }
    }
}

/// The UTF-8 encoding of a concatenation is the concatenation of the encodings.
pub proof fn lemma_encode_concat(a: Seq<char>, b: Seq<char>)
    ensures
        encode_utf8(a + b) == encode_utf8(a) + encode_utf8(b),
    decreases a.len(),
{
    if a.len() == 0 {
        assert(a + b =~= b);
        assert(encode_utf8(a) + encode_utf8(b) =~= encode_utf8(b));
    } else {
        assert((a + b).drop_first() =~= a.drop_first() + b);
        assert((a + b)[0] == a[0]);
        lemma_encode_concat(a.drop_first(), b);
        assert(encode_utf8(a + b) =~= encode_utf8(a) + encode_utf8(b));
    }
}

/// A text is empty exactly when its encoding is.
pub proof fn lemma_encode_empty(a: Seq<char>)
    ensures
        (a.len() == 0) == (encode_utf8(a).len() == 0),
{
    if a.len() > 0 {
        assert(encode_utf8(a).len() >= encode_scalar(a[0] as u32).len());
    }
}

/// The closed lines and the tail of `b` together cover its bytes, and none of them is empty.
pub proof fn lemma_closed_lines(b: Seq<u8>)
    ensures
        sum(closed_lines(b)) + tail_len(b) == b.len(),
        0 <= tail_len(b) <= b.len(),
        closed_lines(b).len() + tail_len(b) <= b.len(),
        forall|j: int| 0 <= j < closed_lines(b).len() ==> closed_lines(b)[j] > 0,
    decreases b.len(),
{
    if b.len() > 0 {
        let c = closed_lines(b.drop_last());
        lemma_closed_lines(b.drop_last());
        assert(c.push(tail_len(b.drop_last()) + 1).drop_last() =~= c);
    }
}

/// The lines of a text cover its bytes, none is empty, and a text that is not
/// empty has at least one.
pub proof fn lemma_line_lengths_of(b: Seq<u8>)
    ensures
        sum(line_lengths_of(b)) == b.len(),
        forall|j: int| 0 <= j < line_lengths_of(b).len() ==> line_lengths_of(b)[j] > 0,
        b.len() > 0 ==> line_lengths_of(b).len() > 0,
        line_lengths_of(b).len() <= b.len(),
{
    lemma_closed_lines(b);
    let c = closed_lines(b);
    if tail_len(b) > 0 {
        assert(c.push(tail_len(b)).drop_last() =~= c);
    } else if b.len() > 0 {
        assert(c.len() > 0);
    }
    lemma_lines_le_sum(line_lengths_of(b));
}

/// A sequence of positive entries is no longer than its sum.
pub proof fn lemma_lines_le_sum(s: Seq<int>)
    requires
        forall|j: int| 0 <= j < s.len() ==> s[j] > 0,
    ensures
        s.len() <= sum(s),
    decreases s.len(),
{
    if s.len() > 0 {
        lemma_lines_le_sum(s.drop_last());
    }
}

/// Adding a file keeps the model well formed.
pub proof fn lemma_add_well_formed(m: SourceModel, name: Seq<char>, text: Seq<char>)
    requires
        m.well_formed(),
    ensures
        m.add(name, text).well_formed(),
        m.add(name, text).bytes() == m.bytes() + encode_utf8(text),
{
    lemma_encode_concat(m.contents, text);
    lemma_encode_empty(text);
    if text.len() == 0 {
        assert(m.bytes() + encode_utf8(text) =~= m.bytes());
    } else {
        let b = encode_utf8(text);
        let lines = line_lengths_of(b);
        let n = m.add(name, text);
        lemma_line_lengths_of(b);
        lemma_sum_concat(m.line_lengths, lines);
        assert(n.file_lines.drop_last() =~= m.file_lines);
        assert forall|j: int| 0 <= j < n.line_lengths.len() implies n.line_lengths[j] > 0 by {
            if j >= m.line_lengths.len() {
                assert(n.line_lengths[j] == lines[j - m.line_lengths.len()]);
            }
        }
    }
}

/// The number of newlines in `b`.
pub open spec fn newline_count(b: Seq<u8>) -> int
    decreases b.len(),
{
    if b.len() == 0 {
        0
    } else if b.last() == NEWLINE {
        newline_count(b.drop_last()) + 1
    } else {
        newline_count(b.drop_last())
    }
}

/// There is one closed line per newline.
pub proof fn lemma_closed_lines_count(b: Seq<u8>)
    ensures
        closed_lines(b).len() == newline_count(b),
    decreases b.len(),
{
    if b.len() > 0 {
        lemma_closed_lines_count(b.drop_last());
    }
}

/// The closed lines of a prefix of `b` start the closed lines of a longer prefix.
pub proof fn lemma_closed_lines_prefix(b: Seq<u8>, k: int, n: int)
    requires
        0 <= k <= n <= b.len(),
    ensures
        closed_lines(b.subrange(0, k)).len() <= closed_lines(b.subrange(0, n)).len(),
        forall|j: int| 0 <= j < closed_lines(b.subrange(0, k)).len()
            ==> #[trigger] closed_lines(b.subrange(0, n))[j] == closed_lines(b.subrange(0, k))[j],
    decreases n - k,
{
    if k < n {
        lemma_closed_lines_prefix(b, k, n - 1);
        assert(b.subrange(0, n).drop_last() =~= b.subrange(0, n - 1));
    }
}

/// The line that holds byte `k` of `b` comes after one line per newline before
/// `k`, and is longer than the run of bytes before `k` on it.
pub proof fn lemma_line_at(b: Seq<u8>, k: int)
    requires
        0 <= k < b.len(),
    ensures
        closed_lines(b.subrange(0, k)).len() < line_lengths_of(b).len(),
        line_lengths_of(b)[closed_lines(b.subrange(0, k)).len() as int] > tail_len(b.subrange(0, k)),
        forall|j: int| 0 <= j < closed_lines(b.subrange(0, k)).len()
            ==> #[trigger] line_lengths_of(b)[j] == closed_lines(b.subrange(0, k))[j],
    decreases b.len() - k,
{
    let p = b.subrange(0, k);
    let q = b.subrange(0, k + 1);
    let c = closed_lines(p).len();
    assert(q.drop_last() =~= p);
    assert(b.subrange(0, b.len() as int) =~= b);
    lemma_closed_lines_prefix(b, k, b.len() as int);
    lemma_closed_lines_prefix(b, k + 1, b.len() as int);
    assert(q.last() == b[k]);
    let cb = closed_lines(b);
    let lb = line_lengths_of(b);
    assert(forall|j: int| 0 <= j < cb.len() ==> lb[j] == cb[j]);
    assert(cb.len() <= lb.len());
    if b[k] == NEWLINE {
        assert(closed_lines(q) == closed_lines(p).push(tail_len(p) + 1));
        assert(closed_lines(q)[c as int] == tail_len(p) + 1);
        assert(cb[c as int] == tail_len(p) + 1);
    } else {
        assert(closed_lines(q) == closed_lines(p));
        assert(tail_len(q) == tail_len(p) + 1);
        if k + 1 == b.len() {
            assert(q =~= b);
            lemma_closed_lines(p);
        } else {
            lemma_line_at(b, k + 1);
        }
    }
}

} // verus!
