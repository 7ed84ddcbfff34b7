//! The line segmenter: from a line and its matches to plain and coloured
//! segments.

use crate::color::Color;
use crate::matcher::{in_order, Match};
use vstd::prelude::*;

verus! {

/// A stretch of a line: plain text, or matched text with the colour of
/// the pattern that matched.
#[derive(Debug, PartialEq, Eq)]
pub enum Segment {
    Plain(Vec<u8>),
    Colored(Vec<u8>, Color),
}

/// What a segment holds, as values.
pub enum SegmentView {
    Plain(Seq<u8>),
    Colored(Seq<u8>, Color),
}

impl SegmentView {
    /// The bytes of the line that the segment covers.
    pub open spec fn text(self) -> Seq<u8> {
        match self {
            SegmentView::Plain(t) => t,
            SegmentView::Colored(t, _) => t,
        }
    }
}

impl View for Segment {
    type V = SegmentView;

    open spec fn view(&self) -> SegmentView {
        match self {
            Segment::Plain(t) => SegmentView::Plain(t@),
            Segment::Colored(t, c) => SegmentView::Colored(t@, *c),
        }
    }
}

impl Segment {
    /// The bytes of the segment.
    pub fn text(&self) -> (t: &Vec<u8>)
        ensures
            t@ == self@.text(),
    {
        match self {
            Segment::Plain(t) => t,
            Segment::Colored(t, _) => t,
        }
    }

    /// The colour of a coloured segment, `None` for a plain one.
    pub fn color(&self) -> (c: Option<Color>)
        ensures
            c == (match self@ {
                SegmentView::Plain(_) => None,
                SegmentView::Colored(_, k) => Some(k),
            }),
    {
        match self {
            Segment::Plain(_) => None,
            Segment::Colored(_, k) => Some(*k),
        }
    }
}

/// The views of a sequence of segments.
pub open spec fn segment_views(segments: Seq<Segment>) -> Seq<SegmentView> {
    segments.map_values(|s: Segment| s@)
}

/// Where the text before the match at place `i` begins: at the end of
/// the match before it, or at the start of the line.
pub open spec fn end_before(found: Seq<Match>, i: int) -> int {
    if i <= 0 {
        0
    } else {
        found[i - 1].end as int
    }
}

/// The matches are such as the segmenter accepts: each names a pattern
/// that has a colour and covers at least one byte of the line, and each
/// starts no earlier than the matches before it end.
pub open spec fn valid_matches(found: Seq<Match>, line_len: int, patterns_len: int) -> bool {
    &&& forall|i: int|
        0 <= i < found.len() ==> {
            let m = #[trigger] found[i];
            &&& m.pattern_id < patterns_len
            &&& m.start < m.end
            &&& m.end <= line_len
        }
    &&& in_order(found)
}

/// The plain segment for the bytes `from..to` of the line, or nothing
/// where the range is empty.
pub open spec fn gap(line: Seq<u8>, from: int, to: int) -> Seq<SegmentView> {
    if from < to {
        seq![SegmentView::Plain(line.subrange(from, to))]
    } else {
        Seq::empty()
    }
}

/// The segments up to the end of the `n`-th match: before each match the
/// plain text since the match before it, if there is any, then the match
/// in its pattern's colour.
pub open spec fn matched_prefix(line: Seq<u8>, found: Seq<Match>, colors: Seq<Color>, n: int) -> Seq<
    SegmentView,
>
    decreases n,
{
    if n <= 0 {
        Seq::empty()
    } else {
        let m = found[n - 1];
        matched_prefix(line, found, colors, n - 1) + gap(line, end_before(found, n - 1), m.start as int)
            + seq![
            SegmentView::Colored(line.subrange(m.start as int, m.end as int), colors[m.pattern_id as int]),
        ]
    }
}

/// The segments of a line: those up to the end of the last match, then
/// the plain text that is left.
pub open spec fn segments_of(line: Seq<u8>, found: Seq<Match>, colors: Seq<Color>) -> Seq<SegmentView> {
    matched_prefix(line, found, colors, found.len() as int) + gap(
        line,
        end_before(found, found.len() as int),
        line.len() as int,
    )
}

/// The texts of the segments, one after the other.
pub open spec fn joined(segments: Seq<SegmentView>) -> Seq<u8>
    decreases segments.len(),
{
    if segments.len() == 0 {
        Seq::empty()
    } else {
        joined(segments.drop_last()) + segments.last().text()
    }
}

/// A copy of the bytes `from..to` of the line.
pub fn copy_range(line: &[u8], from: usize, to: usize) -> (bytes: Vec<u8>)
    requires
        from <= to <= line@.len(),
    ensures
        bytes@ == line@.subrange(from as int, to as int),
{
    let mut bytes: Vec<u8> = Vec::new();
    let mut i: usize = from;
    while i < to
        invariant
            from <= i <= to <= line@.len(),
            bytes@ == line@.subrange(from as int, i as int),
        decreases to - i,
    {
        bytes.push(line[i]);
        proof {
            assert(bytes@ =~= line@.subrange(from as int, i + 1));
        }
        i += 1;
    }
    bytes
}

/// Cuts the line at the matches. The result is exactly `segments_of`,
/// and its texts join back to the line.
pub fn segment_line(line: &[u8], found: &Vec<Match>, colors: &Vec<Color>) -> (segments: Vec<Segment>)
    requires
        valid_matches(found@, line@.len() as int, colors@.len() as int),
    ensures
        segment_views(segments@) == segments_of(line@, found@, colors@),
        joined(segment_views(segments@)) == line@,
{
    let mut segments: Vec<Segment> = Vec::new();
    let mut cursor: usize = 0;
    let mut i: usize = 0;
    proof {
        assert(segment_views(segments@) =~= matched_prefix(line@, found@, colors@, 0));
    }
    while i < found.len()
        invariant
            i <= found.len(),
            valid_matches(found@, line@.len() as int, colors@.len() as int),
            cursor == end_before(found@, i as int),
            cursor <= line@.len(),
            segment_views(segments@) == matched_prefix(line@, found@, colors@, i as int),
        decreases found.len() - i,
    {
        let m: Match = found[i];
        proof {
            assert(m == found@[i as int]);
        }
        if cursor < m.start {
            let text = copy_range(line, cursor, m.start);
            proof {
                lemma_views_push(segments@, Segment::Plain(text));
            }
            segments.push(Segment::Plain(text));
        }
        let text = copy_range(line, m.start, m.end);
        let color = colors[m.pattern_id];
        proof {
            lemma_views_push(segments@, Segment::Colored(text, color));
            lemma_prefix_step(line@, found@, colors@, i as int);
        }
        segments.push(Segment::Colored(text, color));
        cursor = m.end;
        i += 1;
    }
    if cursor < line.len() {
        let text = copy_range(line, cursor, line.len());
        proof {
            lemma_views_push(segments@, Segment::Plain(text));
        }
        segments.push(Segment::Plain(text));
    }
    proof {
        lemma_segments_rebuild_line(line@, found@, colors@);
    }
    segments
}

/// The views of a sequence that has grown by one segment.
proof fn lemma_views_push(segments: Seq<Segment>, s: Segment)
    ensures
        segment_views(segments.push(s)) == segment_views(segments).push(s@),
        segment_views(segments.push(s)) == segment_views(segments) + seq![s@],
{
    assert(segment_views(segments.push(s)) =~= segment_views(segments).push(s@));
    assert(segment_views(segments).push(s@) =~= segment_views(segments) + seq![s@]);
}

/// What one more match adds to the segments, with the plain text before
/// it and without.
proof fn lemma_prefix_step(line: Seq<u8>, found: Seq<Match>, colors: Seq<Color>, i: int)
    requires
        0 <= i < found.len(),
    ensures
        ({
            let before = matched_prefix(line, found, colors, i);
            let m = found[i];
            let from = end_before(found, i);
            let c = SegmentView::Colored(
                line.subrange(m.start as int, m.end as int),
                colors[m.pattern_id as int],
            );
            &&& from < m.start ==> matched_prefix(line, found, colors, i + 1) == before.push(
                SegmentView::Plain(line.subrange(from, m.start as int)),
            ).push(c)
            &&& from >= m.start ==> matched_prefix(line, found, colors, i + 1) == before.push(c)
        }),
{
    let before = matched_prefix(line, found, colors, i);
    let m = found[i];
    let from = end_before(found, i);
    let c = SegmentView::Colored(line.subrange(m.start as int, m.end as int), colors[m.pattern_id as int]);
    let next = matched_prefix(line, found, colors, i + 1);
    assert(next == before + gap(line, from, m.start as int) + seq![c]);
    if from < m.start {
        assert(next =~= before.push(SegmentView::Plain(line.subrange(from, m.start as int))).push(c));
    } else {
        assert(next =~= before.push(c));
    }
}

/// Joining distributes over appending one segment.
proof fn lemma_joined_push(segments: Seq<SegmentView>, s: SegmentView)
    ensures
        joined(segments.push(s)) == joined(segments) + s.text(),
{
    assert(segments.push(s).drop_last() =~= segments);
}

/// Appending the plain segment of a range appends the bytes of the range.
proof fn lemma_joined_gap(segments: Seq<SegmentView>, line: Seq<u8>, from: int, to: int)
    requires
        0 <= from <= to <= line.len(),
    ensures
        joined(segments + gap(line, from, to)) == joined(segments) + line.subrange(from, to),
{
    if from < to {
        let s = SegmentView::Plain(line.subrange(from, to));
        assert(segments + gap(line, from, to) =~= segments.push(s));
        lemma_joined_push(segments, s);
    } else {
        assert(segments + gap(line, from, to) =~= segments);
        assert(joined(segments) + line.subrange(from, to) =~= joined(segments));
    }
}

/// The segments up to the end of the `n`-th match join to the line up to
/// that end.
proof fn lemma_prefix_joins(line: Seq<u8>, found: Seq<Match>, colors: Seq<Color>, n: int)
    requires
        valid_matches(found, line.len() as int, colors.len() as int),
        0 <= n <= found.len(),
    ensures
        0 <= end_before(found, n) <= line.len(),
        joined(matched_prefix(line, found, colors, n)) == line.subrange(0, end_before(found, n)),
    decreases n,
{
    if n == 0 {
        assert(joined(matched_prefix(line, found, colors, n)) =~= line.subrange(0, 0));
    } else {
        lemma_prefix_joins(line, found, colors, n - 1);
        let m = found[n - 1];
        let head = matched_prefix(line, found, colors, n - 1);
        let from = end_before(found, n - 1);
        let mid = head + gap(line, from, m.start as int);
        let c = SegmentView::Colored(line.subrange(m.start as int, m.end as int), colors[m.pattern_id as int]);
        lemma_joined_gap(head, line, from, m.start as int);
        assert(matched_prefix(line, found, colors, n) =~= mid.push(c));
        lemma_joined_push(mid, c);
        assert(line.subrange(0, from) + line.subrange(from, m.start as int) + line.subrange(
            m.start as int,
            m.end as int,
        ) =~= line.subrange(0, m.end as int));
    }
}

/// The texts of a line's segments, joined in order, are the line: nothing
/// is lost, added or moved.
pub proof fn lemma_segments_rebuild_line(line: Seq<u8>, found: Seq<Match>, colors: Seq<Color>)
    requires
        valid_matches(found, line.len() as int, colors.len() as int),
    ensures
        joined(segments_of(line, found, colors)) == line,
{
    let n = found.len() as int;
    lemma_prefix_joins(line, found, colors, n);
    let cursor = end_before(found, n);
    lemma_joined_gap(matched_prefix(line, found, colors, n), line, cursor, line.len() as int);
    assert(line.subrange(0, cursor) + line.subrange(cursor, line.len() as int) =~= line);
}

/// A line without a match is one plain segment that holds the whole
/// line, and an empty line has no segment at all.
pub proof fn lemma_no_match_leaves_line_plain(line: Seq<u8>, colors: Seq<Color>)
    ensures
        line.len() > 0 ==> segments_of(line, Seq::<Match>::empty(), colors) == seq![SegmentView::Plain(line)],
        line.len() == 0 ==> segments_of(line, Seq::<Match>::empty(), colors) == Seq::<SegmentView>::empty(),
{
    let found = Seq::<Match>::empty();
    assert(matched_prefix(line, found, colors, 0) =~= Seq::<SegmentView>::empty());
    assert(line.subrange(0, line.len() as int) =~= line);
    assert(segments_of(line, found, colors) =~= gap(line, 0, line.len() as int));
}

/// An empty line admits no match, so it has no segment.
pub proof fn lemma_empty_line_has_no_segment(line: Seq<u8>, found: Seq<Match>, colors: Seq<Color>)
    requires
        line.len() == 0,
        valid_matches(found, line.len() as int, colors.len() as int),
    ensures
        found.len() == 0,
        segments_of(line, found, colors) == Seq::<SegmentView>::empty(),
{
    if found.len() > 0 {
        let m = found[0];
        assert(m.start < m.end <= 0);
    }
    assert(found =~= Seq::<Match>::empty());
    lemma_no_match_leaves_line_plain(line, colors);
}

} // verus!
