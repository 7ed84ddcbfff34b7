//! Rendering of a line's segments: plain text as it is, matched text
//! painted in its colour.

use crate::color::{named_fg_code, Color};
use crate::matcher::Match;
use crate::segment::{
    end_before, gap, joined, matched_prefix, segment_views, segments_of, valid_matches, Segment,
    SegmentView,
};
use crate::table::byte_strings;
use colored::Colorize;
use vstd::prelude::*;
use vstd::utf8::{encode_utf8, is_ascii_chars, valid_utf8};

verus! {

/// Text that painting leaves whole: valid UTF-8 without an escape byte.
pub open spec fn paintable(text: Seq<u8>) -> bool {
    &&& valid_utf8(text)
    &&& forall|i: int| 0 <= i < text.len() ==> #[trigger] text[i] != 27
}

/// The foreground parameter with which a name is painted: that of the
/// colour that the name resolves to, and that of white, `37`, for a name
/// that resolves to none.
pub open spec fn paint_code(name: Seq<char>) -> Seq<char> {
    match named_fg_code(name) {
        Some(code) => code,
        None => seq!['3', '7'],
    }
}

/// The text between the sequence that selects a foreground colour,
/// `ESC [ code m`, and the one that resets, `ESC [ 0 m`.
pub open spec fn wrapped(code: Seq<char>, text: Seq<u8>) -> Seq<u8> {
    seq![27u8, 91u8] + encode_utf8(code) + seq![109u8] + text + seq![27u8, 91u8, 48u8, 109u8]
}

/// `painted` is the text, either bare or wrapped in the colour.
pub open spec fn painted_as(text: Seq<u8>, code: Seq<char>, painted: Seq<u8>) -> bool {
    painted == text || painted == wrapped(code, text)
}

/// At the place of each coloured segment with paintable text stands that
/// text, bare or wrapped in the colour of the segment.
pub open spec fn painted_faithfully(segments: Seq<SegmentView>, painted: Seq<Seq<u8>>) -> bool {
    forall|i: int|
        0 <= i < segments.len() ==> match #[trigger] segments[i] {
            SegmentView::Plain(_) => true,
            SegmentView::Colored(t, c) => paintable(t) ==> painted_as(
                t,
                paint_code(c.spec_name()),
                painted[i],
            ),
        }
}

/// Calls `colored::Colorize::color` on the text, with a colour's name,
/// and formats the `colored::ColoredString` that it returns. The bytes
/// are read as UTF-8, and bytes that are no UTF-8 are replaced; `colored`
/// takes a name that it does not know for white, and repeats the colour
/// after a reset sequence inside the text. Whether escape sequences are
/// written depends on the process's colour switch and on variables such
/// as `NO_COLOR`. So the contract speaks of valid UTF-8 without an escape
/// byte, and says what holds with the switch on and with it off, as long
/// as nothing changes it during the call: the text comes back bare, or
/// between the sequence for the name's foreground parameter and the
/// reset sequence.
#[verifier::external_body]
fn paint(text: &[u8], name: &str) -> (painted: Vec<u8>)
    ensures
        paintable(text@) ==> painted_as(text@, paint_code(name@), painted@),
{
    String::from_utf8_lossy(text).color(name).to_string().into_bytes()
}

/// What stands in the output for a segment: the text of a plain segment,
/// and for a coloured one what painting it gave.
pub open spec fn shown(segment: SegmentView, painted: Seq<u8>) -> Seq<u8> {
    match segment {
        SegmentView::Plain(t) => t,
        SegmentView::Colored(_, _) => painted,
    }
}

/// The output for a line: what stands for each segment, one after the
/// other. `painted` holds at each coloured segment's place what painting
/// it gave.
pub open spec fn assembled(segments: Seq<SegmentView>, painted: Seq<Seq<u8>>) -> Seq<u8>
    decreases segments.len(),
{
    if segments.len() == 0 {
        Seq::empty()
    } else {
        assembled(segments.drop_last(), painted.drop_last()) + shown(segments.last(), painted.last())
    }
}

/// Every segment is a plain one.
pub open spec fn all_plain(segments: Seq<SegmentView>) -> bool {
    forall|i: int| 0 <= i < segments.len() ==> (#[trigger] segments[i]) is Plain
}

/// Puts the output together from the segments and from what painting
/// each coloured one gave.
pub fn assemble(segments: &Vec<Segment>, painted: &Vec<Vec<u8>>) -> (out: Vec<u8>)
    requires
        painted@.len() == segments@.len(),
    ensures
        out@ == assembled(segment_views(segments@), byte_strings(painted@)),
{
    let mut out: Vec<u8> = Vec::new();
    let mut i: usize = 0;
    while i < segments.len()
        invariant
            i <= segments@.len(),
            painted@.len() == segments@.len(),
            out@ == assembled(
                segment_views(segments@).take(i as int),
                byte_strings(painted@).take(i as int),
            ),
        decreases segments@.len() - i,
    {
        proof {
            let views = segment_views(segments@);
            let texts = byte_strings(painted@);
            assert(views.take(i + 1).drop_last() =~= views.take(i as int));
            assert(texts.take(i + 1).drop_last() =~= texts.take(i as int));
            assert(views.take(i + 1).last() == segments@[i as int]@);
            assert(texts.take(i + 1).last() == painted@[i as int]@);
        }
        match &segments[i] {
            Segment::Plain(t) => out.extend_from_slice(t.as_slice()),
            Segment::Colored(_, _) => out.extend_from_slice(painted[i].as_slice()),
        }
        i += 1;
    }
    proof {
        assert(segment_views(segments@).take(i as int) =~= segment_views(segments@));
        assert(byte_strings(painted@).take(i as int) =~= byte_strings(painted@));
    }
    out
}

/// Paints each coloured segment. The result has one place for each
/// segment; that of a plain segment is left empty, and that of a
/// coloured segment with paintable text holds the text, bare or wrapped
/// in the segment's colour.
pub fn paint_all(segments: &Vec<Segment>) -> (painted: Vec<Vec<u8>>)
    ensures
        painted@.len() == segments@.len(),
        forall|i: int|
            0 <= i < segments@.len() && segments@[i]@ is Plain ==> (#[trigger] painted@[i])@.len() == 0,
        painted_faithfully(segment_views(segments@), byte_strings(painted@)),
{
    let mut painted: Vec<Vec<u8>> = Vec::new();
    let mut i: usize = 0;
    while i < segments.len()
        invariant
            i <= segments@.len(),
            painted@.len() == i,
            forall|k: int| 0 <= k < i && segments@[k]@ is Plain ==> (#[trigger] painted@[k])@.len() == 0,
            painted_faithfully(segment_views(segments@).take(i as int), byte_strings(painted@)),
        decreases segments@.len() - i,
    {
        let ghost before = painted@;
        match &segments[i] {
            Segment::Plain(_) => painted.push(Vec::new()),
            Segment::Colored(t, c) => painted.push(paint(t.as_slice(), c.name())),
        }
        proof {
            let views = segment_views(segments@);
            let now = byte_strings(painted@);
            assert forall|k: int| 0 <= k < i + 1 implies match #[trigger] views.take(i + 1)[k] {
                SegmentView::Plain(_) => true,
                SegmentView::Colored(t, c) => paintable(t) ==> painted_as(
                    t,
                    paint_code(c.spec_name()),
                    now[k],
                ),
            } by {
                if k < i {
                    assert(views.take(i as int)[k] == views.take(i + 1)[k]);
                    assert(byte_strings(before)[k] == now[k]);
                } else {
                    assert(views.take(i + 1)[k] == segments@[i as int]@);
                }
            }
        }
        i += 1;
    }
    proof {
        assert(segment_views(segments@).take(i as int) =~= segment_views(segments@));
    }
    painted
}

/// Renders a line's segments: plain text unchanged and in its place,
/// and in the place of each coloured segment its text, bare or wrapped
/// in its colour, where the text is paintable. Where no segment is
/// coloured the output is the text of the segments and nothing else.
pub fn render_line(segments: &Vec<Segment>) -> (out: Vec<u8>)
    ensures
        exists|painted: Seq<Seq<u8>>|
            painted.len() == segments@.len() && painted_faithfully(
                segment_views(segments@),
                painted,
            ) && out@ == #[trigger] assembled(segment_views(segments@), painted),
        all_plain(segment_views(segments@)) ==> out@ == joined(segment_views(segments@)),
{
    let painted = paint_all(segments);
    proof {
        lemma_plain_is_shown_unchanged(segment_views(segments@), byte_strings(painted@));
    }
    assemble(segments, &painted)
}

/// Where every segment is plain, the output is the segments' texts
/// joined, whatever painting would give.
pub proof fn lemma_plain_is_shown_unchanged(segments: Seq<SegmentView>, painted: Seq<Seq<u8>>)
    ensures
        all_plain(segments) ==> assembled(segments, painted) == joined(segments),
    decreases segments.len(),
{
    if all_plain(segments) && segments.len() > 0 {
        assert(all_plain(segments.drop_last())) by {
            assert forall|i: int| 0 <= i < segments.drop_last().len() implies (
            #[trigger] segments.drop_last()[i]) is Plain by {
                assert(segments[i] is Plain);
            }
        }
        lemma_plain_is_shown_unchanged(segments.drop_last(), painted.drop_last());
        assert(segments.last() is Plain);
    }
}

/// Where every coloured segment comes back bare from painting, as it
/// does with colours switched off, the output is the segments' texts
/// joined.
pub proof fn lemma_bare_output_is_joined(segments: Seq<SegmentView>, painted: Seq<Seq<u8>>)
    requires
        painted.len() == segments.len(),
        forall|i: int|
            0 <= i < segments.len() && (#[trigger] segments[i]) is Colored ==> painted[i]
                == segments[i].text(),
    ensures
        assembled(segments, painted) == joined(segments),
    decreases segments.len(),
{
    if segments.len() > 0 {
        assert forall|i: int|
            0 <= i < segments.drop_last().len() && (#[trigger] segments.drop_last()[i])
                is Colored implies painted.drop_last()[i] == segments.drop_last()[i].text() by {
            assert(segments[i] is Colored);
        }
        lemma_bare_output_is_joined(segments.drop_last(), painted.drop_last());
        let last = segments.last();
        if last is Colored {
            assert(segments[segments.len() - 1] is Colored);
        }
    }
}

/// Every byte of the text is an ASCII byte other than the escape byte.
pub open spec fn plain_ascii(text: Seq<u8>) -> bool {
    forall|i: int| 0 <= i < text.len() ==> (#[trigger] text[i]) < 128 && text[i] != 27
}

/// Text of ASCII bytes without the escape byte is paintable.
pub proof fn lemma_ascii_is_paintable(text: Seq<u8>)
    requires
        plain_ascii(text),
    ensures
        paintable(text),
{
    let chars = Seq::new(text.len(), |i: int| text[i] as char);
    assert(is_ascii_chars(chars));
    vstd::utf8::is_ascii_chars_encode_utf8(chars);
    assert(encode_utf8(chars) =~= text);
    vstd::utf8::encode_utf8_valid_utf8(chars);
}

/// A stretch of a line of plain ASCII is plain ASCII.
proof fn lemma_stretch_is_ascii(line: Seq<u8>, from: int, to: int)
    requires
        plain_ascii(line),
        0 <= from <= to <= line.len(),
    ensures
        plain_ascii(line.subrange(from, to)),
{
    assert forall|i: int| 0 <= i < to - from implies (#[trigger] line.subrange(from, to)[i]) < 128
        && line.subrange(from, to)[i] != 27 by {
        assert(line.subrange(from, to)[i] == line[from + i]);
    }
}

/// In a line of plain ASCII, the segments up to the `n`-th match hold
/// plain ASCII.
proof fn lemma_prefix_is_ascii(line: Seq<u8>, found: Seq<Match>, colors: Seq<Color>, n: int)
    requires
        plain_ascii(line),
        valid_matches(found, line.len() as int, colors.len() as int),
        0 <= n <= found.len(),
    ensures
        0 <= end_before(found, n) <= line.len(),
        forall|i: int|
            0 <= i < matched_prefix(line, found, colors, n).len() ==> plain_ascii(
                (#[trigger] matched_prefix(line, found, colors, n)[i]).text(),
            ),
    decreases n,
{
    if n > 0 {
        lemma_prefix_is_ascii(line, found, colors, n - 1);
        let m = found[n - 1];
        let from = end_before(found, n - 1);
        if n > 1 {
            assert(found[n - 2].end <= found[n - 1].start);
        }
        let head = matched_prefix(line, found, colors, n - 1);
        let between = gap(line, from, m.start as int);
        let all = matched_prefix(line, found, colors, n);
        lemma_stretch_is_ascii(line, from, m.start as int);
        lemma_stretch_is_ascii(line, m.start as int, m.end as int);
        assert forall|i: int| 0 <= i < all.len() implies plain_ascii((#[trigger] all[i]).text()) by {
            if i < head.len() {
                assert(all[i] == head[i]);
            } else if i < head.len() + between.len() {
                assert(all[i] == between[i - head.len()]);
            }
        }
    }
}

/// In a line of ASCII bytes without the escape byte every segment is
/// paintable, so that painting keeps the text of every match.
pub proof fn lemma_ascii_line_is_paintable(line: Seq<u8>, found: Seq<Match>, colors: Seq<Color>)
    requires
        plain_ascii(line),
        valid_matches(found, line.len() as int, colors.len() as int),
    ensures
        forall|i: int|
            0 <= i < segments_of(line, found, colors).len() ==> paintable(
                (#[trigger] segments_of(line, found, colors)[i]).text(),
            ),
{
    let n = found.len() as int;
    lemma_prefix_is_ascii(line, found, colors, n);
    let head = matched_prefix(line, found, colors, n);
    let from = end_before(found, n);
    let all = segments_of(line, found, colors);
    lemma_stretch_is_ascii(line, from, line.len() as int);
    assert forall|i: int| 0 <= i < all.len() implies paintable((#[trigger] all[i]).text()) by {
        if i < head.len() {
            assert(all[i] == head[i]);
        } else {
            assert(all[i] == gap(line, from, line.len() as int)[i - head.len()]);
        }
        lemma_ascii_is_paintable(all[i].text());
    }
}

/// A line without a match is rendered as it is: the same bytes, and no
/// escape sequence among them. An empty line is rendered as nothing.
pub proof fn lemma_unmatched_line_is_unchanged(line: Seq<u8>, colors: Seq<Color>, painted: Seq<Seq<u8>>)
    ensures
        assembled(segments_of(line, Seq::<Match>::empty(), colors), painted) == line,
{
    let segments = segments_of(line, Seq::<Match>::empty(), colors);
    crate::segment::lemma_no_match_leaves_line_plain(line, colors);
    crate::segment::lemma_segments_rebuild_line(line, Seq::<Match>::empty(), colors);
    assert(all_plain(segments));
    lemma_plain_is_shown_unchanged(segments, painted);
}

} // verus!
