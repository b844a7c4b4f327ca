//! Laws of the source map model that hold across several additions.

use vstd::prelude::*;
use vstd::utf8::encode_utf8;

use crate::model::{
    SourceModel, closed_lines, lemma_add_well_formed, lemma_closed_lines, lemma_closed_lines_count, lemma_encode_empty,
    lemma_line_at, line_lengths_of, newline_count, tail_len,
};
use crate::seq_sum::{
    bucket, bucket_from, lemma_bucket_holds, lemma_bucket_in_range, lemma_bucket_unique,
    lemma_prefix_sum_concat, lemma_prefix_sum_full, lemma_prefix_sum_step, prefix_sum, sum,
};

verus! {

/// The model after adding, in order, file `names[i]` with text `texts[i]` for
/// each `i`, starting from no file.
pub open spec fn built(names: Seq<Seq<char>>, texts: Seq<Seq<char>>) -> SourceModel
    decreases texts.len(),
{
    if texts.len() == 0 || names.len() != texts.len() {
        SourceModel::empty()
    } else {
        built(names.drop_last(), texts.drop_last()).add(names.last(), texts.last())
    }
}

/// The total length in bytes of the UTF-8 encodings of `texts`.
pub open spec fn total_bytes(texts: Seq<Seq<char>>) -> int
    decreases texts.len(),
{
    if texts.len() == 0 {
        0
    } else {
        total_bytes(texts.drop_last()) + encode_utf8(texts.last()).len()
    }
}

/// Every text of `texts` is non-empty.
pub open spec fn all_non_empty(texts: Seq<Seq<char>>) -> bool {
    forall|i: int| 0 <= i < texts.len() ==> texts[i].len() > 0
}

/// Adding files in order keeps the model well formed, its text is as long as
/// all the texts together, and it records one name per file, in order.
pub proof fn lemma_built(names: Seq<Seq<char>>, texts: Seq<Seq<char>>)
    requires
        names.len() == texts.len(),
        all_non_empty(texts),
    ensures
        built(names, texts).well_formed(),
        built(names, texts).bytes().len() == total_bytes(texts),
        built(names, texts).file_names == names,
    decreases texts.len(),
{
    if texts.len() == 0 {
        assert(SourceModel::empty().bytes() =~= seq![]);
        assert(SourceModel::empty().file_names =~= names);
        assert(sum(seq![]) == 0);
    } else {
        let (n0, t0) = (names.drop_last(), texts.drop_last());
        lemma_built(n0, t0);
        lemma_add_well_formed(built(n0, t0), names.last(), texts.last());
        assert(n0.push(names.last()) =~= names);
    }
}

/// In a well-formed model with some text, offset zero is line zero, column
/// zero of the first file.
pub proof fn lemma_offset_zero(m: SourceModel)
    requires
        m.well_formed(),
        m.bytes().len() > 0,
    ensures
        m.position_of(0) == Some((0int, 0int, 0int)),
{
    assert(m.line_lengths.len() > 0) by {
        if m.line_lengths.len() == 0 {
            assert(sum(m.line_lengths) == 0);
        }
    }
    assert(m.file_lines.len() > 0) by {
        if m.file_lines.len() == 0 {
            assert(sum(m.file_lines) == 0);
        }
    }
    lemma_prefix_sum_step(m.line_lengths, 0);
    lemma_prefix_sum_step(m.file_lines, 0);
    assert(bucket_from(m.line_lengths, 0, 0) == 0);
    assert(bucket_from(m.file_lines, 0, 0) == 0);
    assert(prefix_sum(m.line_lengths, 0) == 0);
    assert(prefix_sum(m.file_lines, 0) == 0);
}

/// Appending non-empty texts in order: the combined text is as long as all of
/// them together, and offset zero resolves to the first file, line zero,
/// column zero.
pub proof fn law_append_in_order(names: Seq<Seq<char>>, texts: Seq<Seq<char>>)
    requires
        names.len() == texts.len(),
        texts.len() > 0,
        all_non_empty(texts),
    ensures
        built(names, texts).bytes().len() == total_bytes(texts),
        built(names, texts).position_of(0) == Some((0int, 0int, 0int)),
        built(names, texts).file_names[0] == names[0],
{
    lemma_built(names, texts);
    lemma_built(names.drop_last(), texts.drop_last());
    lemma_add_well_formed(built(names.drop_last(), texts.drop_last()), names.last(), texts.last());
    lemma_encode_empty(texts.last());
    lemma_offset_zero(built(names, texts));
}

/// Adding a file with empty text changes nothing.
pub proof fn law_empty_add_is_no_op(m: SourceModel, name: Seq<char>, text: Seq<char>)
    requires
        text.len() == 0,
    ensures
        m.add(name, text) == m,
{
}

/// With no file added, no offset resolves.
pub proof fn law_empty_resolves_nothing(offset: int)
    ensures
        SourceModel::empty().position_of(offset) is None,
{
}

/// The offset in the combined text at which file `f` of `texts` starts.
pub open spec fn file_start(texts: Seq<Seq<char>>, f: int) -> int {
    total_bytes(texts.subrange(0, f))
}

/// What walking file `f` of `texts` byte by byte up to offset `o` of the
/// combined text gives: the file, one line per newline passed, and the bytes
/// passed since the last newline.
pub open spec fn walk_position(texts: Seq<Seq<char>>, f: int, o: int) -> (int, int, int) {
    let before = encode_utf8(texts[f]).subrange(0, o - file_start(texts, f));
    (f, newline_count(before), tail_len(before))
}

/// Each offset inside the combined text resolves to the file whose bytes hold
/// it, to the number of newlines before it in that file, and to the number of
/// bytes between it and the start of its line.
pub proof fn law_offset_matches_walk(names: Seq<Seq<char>>, texts: Seq<Seq<char>>, o: int)
    requires
        names.len() == texts.len(),
        all_non_empty(texts),
        0 <= o < total_bytes(texts),
    ensures
        exists|f: int|
            0 <= f < texts.len() && file_start(texts, f) <= o < file_start(texts, f + 1)
                && built(names, texts).position_of(o) == Some(#[trigger] walk_position(texts, f, o)),
    decreases texts.len(),
{
    let (n0, t0) = (names.drop_last(), texts.drop_last());
    let m0 = built(n0, t0);
    let m = built(names, texts);
    let last = texts.len() - 1;
    let text = texts.last();
    assert(texts.len() > 0);
    lemma_built(n0, t0);
    lemma_built(names, texts);
    lemma_add_well_formed(m0, names.last(), text);
    let s0 = total_bytes(t0);
    let (ll0, fl0) = (m0.line_lengths, m0.file_lines);
    let b = encode_utf8(text);
    let lines = line_lengths_of(b);
    assert(m.line_lengths == ll0 + lines);
    assert(m.file_lines == fl0 + seq![lines.len() as int]);
    assert(texts.subrange(0, last) =~= t0);
    assert(texts.subrange(0, last + 1) =~= texts);
    if o >= s0 {
        let k = o - s0;
        let p = b.subrange(0, k);
        let c = closed_lines(p).len() as int;
        lemma_line_at(b, k);
        lemma_closed_lines_count(p);
        lemma_closed_lines(p);
        assert(lines.subrange(0, c) =~= closed_lines(p));
        lemma_prefix_sum_step(lines, c);
        lemma_prefix_sum_concat(ll0, lines, c);
        lemma_prefix_sum_concat(ll0, lines, c + 1);
        let i = ll0.len() + c;
        lemma_bucket_unique(m.line_lengths, o, i);
        lemma_prefix_sum_full(fl0);
        lemma_prefix_sum_full(m.file_lines);
        lemma_prefix_sum_concat(fl0, seq![lines.len() as int], 0);
        lemma_bucket_unique(m.file_lines, i, last);
        assert(walk_position(texts, last, o) == (last, c, tail_len(p)));
    } else {
        law_offset_matches_walk(n0, t0, o);
        let f0 = choose|f: int|
            0 <= f < t0.len() && file_start(t0, f) <= o < file_start(t0, f + 1)
                && m0.position_of(o) == Some(#[trigger] walk_position(t0, f, o));
        assert(ll0.len() > 0) by {
            if ll0.len() == 0 {
                assert(sum(ll0) == 0);
            }
        }
        lemma_bucket_in_range(ll0, o, 0);
        lemma_bucket_holds(ll0, o, 0);
        let i0 = bucket(ll0, o);
        lemma_prefix_sum_concat(ll0, lines, 0);
        lemma_bucket_unique(m.line_lengths, o, i0);
        assert(fl0.len() > 0) by {
            if fl0.len() == 0 {
                assert(sum(fl0) == 0);
            }
        }
        lemma_bucket_in_range(fl0, i0, 0);
        lemma_bucket_holds(fl0, i0, 0);
        let g = bucket(fl0, i0);
        lemma_prefix_sum_concat(fl0, seq![lines.len() as int], 0);
        lemma_bucket_unique(m.file_lines, i0, g);
        assert(m.position_of(o) == m0.position_of(o));
        assert(texts.subrange(0, f0) =~= t0.subrange(0, f0));
        assert(texts.subrange(0, f0 + 1) =~= t0.subrange(0, f0 + 1));
        assert(walk_position(texts, f0, o) == walk_position(t0, f0, o));
    }
}

} // verus!
