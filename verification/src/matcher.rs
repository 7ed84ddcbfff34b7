//! The pattern automaton: case-insensitive, leftmost-first search for a
//! fixed list of patterns.

use crate::color::Color;
use crate::render::{all_plain, assembled, painted_faithfully, render_line};
use crate::segment::{
    joined, lemma_empty_line_has_no_segment, lemma_no_match_leaves_line_plain, segment_line,
    segment_views, segments_of, valid_matches, Segment,
};
use crate::table::{colors_of, byte_strings, patterns_of, ColorSpec};
use vstd::prelude::*;

verus! {

/// `aho_corasick::AhoCorasick`, the automaton, taken as it is: nothing
/// inside it is visible here.
#[verifier::external_type_specification]
#[verifier::external_body]
pub struct ExAhoCorasick(aho_corasick::AhoCorasick);

/// `aho_corasick::BuildError`, the crate's account of a construction that
/// failed, taken as it is.
#[verifier::external_type_specification]
#[verifier::external_body]
pub struct ExAutomatonError(aho_corasick::BuildError);

/// One occurrence of a pattern in a line: the pattern's place in the list
/// and the bytes `start..end` of the line that it covers.
#[derive(Clone, Copy, Debug, PartialEq, Eq, Structural)]
pub struct Match {
    pub pattern_id: usize,
    pub start: usize,
    pub end: usize,
}

/// Why no highlighter could be built.
#[derive(Clone, Copy, Debug, PartialEq, Eq, Structural)]
pub enum SetupError {
    /// The table holds no pattern.
    EmptySet,
    /// The pattern at this place in the table is empty.
    EmptyPattern(usize),
    /// The automaton could not be constructed for the patterns.
    Automaton,
}

/// A byte with an ASCII capital letter replaced by its small letter.
pub open spec fn fold_ascii(b: u8) -> int {
    if 65 <= b <= 90 {
        b + 32
    } else {
        b as int
    }
}

/// The pattern stands in the line at byte `at`, ASCII letters compared
/// without regard to case.
pub open spec fn occurs_at(pattern: Seq<u8>, line: Seq<u8>, at: int) -> bool {
    &&& 0 <= at
    &&& at + pattern.len() <= line.len()
    &&& forall|k: int|
        0 <= k < pattern.len() ==> fold_ascii(#[trigger] line[at + k]) == fold_ascii(pattern[k])
}

/// Some pattern of the list stands in the line at byte `at`.
pub open spec fn any_occurs_at(patterns: Seq<Seq<u8>>, line: Seq<u8>, at: int) -> bool {
    exists|q: int| 0 <= q < patterns.len() && occurs_at(#[trigger] patterns[q], line, at)
}

/// Byte `at` of the line lies within one of the matches.
pub open spec fn covered(found: Seq<Match>, at: int) -> bool {
    exists|i: int| 0 <= i < found.len() && (#[trigger] found[i]).start <= at < found[i].end
}

/// Each match starts no earlier than the matches before it end.
pub open spec fn in_order(found: Seq<Match>) -> bool {
    forall|i: int, j: int|
        0 <= i < j < found.len() ==> (#[trigger] found[i]).end <= (#[trigger] found[j]).start
}

/// `found` is what a leftmost-first search without overlaps reports for
/// the line. Each match is an occurrence of its pattern, and no pattern
/// listed earlier occurs where it starts; the matches are in order and do
/// not overlap; and wherever a pattern occurs in the line, the occurrence
/// starts within a match, so that no match could have started further
/// left and none was passed over.
pub open spec fn is_leftmost_first_scan(
    patterns: Seq<Seq<u8>>,
    line: Seq<u8>,
    found: Seq<Match>,
) -> bool {
    &&& forall|i: int|
        0 <= i < found.len() ==> {
            let m = #[trigger] found[i];
            &&& m.pattern_id < patterns.len()
            &&& m.end == m.start + patterns[m.pattern_id as int].len()
            &&& occurs_at(patterns[m.pattern_id as int], line, m.start as int)
            &&& forall|q: int|
                0 <= q < m.pattern_id ==> !occurs_at(#[trigger] patterns[q], line, m.start as int)
        }
    &&& in_order(found)
    &&& forall|p: int| #[trigger] any_occurs_at(patterns, line, p) ==> covered(found, p)
}

/// The patterns that an automaton was built from, in their order.
pub uninterp spec fn automaton_patterns(automaton: aho_corasick::AhoCorasick) -> Seq<Seq<u8>>;

/// Whether an automaton was built to compare ASCII letters without regard
/// to case and to prefer, among the leftmost matches, the pattern listed
/// first.
pub uninterp spec fn automaton_is_caseless_leftmost_first(automaton: aho_corasick::AhoCorasick) -> bool;

/// Whether `aho_corasick` constructs an automaton for the patterns. The
/// construction fails only where the patterns are too many or too long
/// for its state and pattern identifiers, so the list decides.
pub uninterp spec fn automaton_builds(patterns: Seq<Seq<u8>>) -> bool;

/// No pattern of the list is empty.
pub open spec fn all_nonempty(patterns: Seq<Seq<u8>>) -> bool {
    forall|i: int| 0 <= i < patterns.len() ==> (#[trigger] patterns[i]).len() > 0
}

/// Calls `aho_corasick::AhoCorasickBuilder::build`, on a builder set to
/// ASCII case-insensitive matching and to the leftmost-first match kind.
/// Whether the construction succeeds depends on the patterns alone and
/// is named, not spelled out; an automaton that comes back was built from
/// the given patterns, in their order, with those two settings.
#[verifier::external_body]
fn build_automaton(patterns: &Vec<Vec<u8>>) -> (built: Result<
    aho_corasick::AhoCorasick,
    aho_corasick::BuildError,
>)
    ensures
        built.is_ok() == automaton_builds(byte_strings(patterns@)),
        built matches Ok(automaton) ==> automaton_patterns(automaton) == byte_strings(patterns@)
            && automaton_is_caseless_leftmost_first(automaton),
{
    aho_corasick::AhoCorasick::builder()
        .ascii_case_insensitive(true)
        .match_kind(aho_corasick::MatchKind::LeftmostFirst)
        .build(patterns)
}

/// Calls `aho_corasick::AhoCorasick::find_iter` and collects what it
/// yields. On an automaton with the two settings above and without an
/// empty pattern, the iterator reports the non-overlapping matches in
/// the line from left to right, each the leftmost from where the search
/// resumed and, among those that start together, the one whose pattern
/// was listed first.
#[verifier::external_body]
fn scan(automaton: &aho_corasick::AhoCorasick, line: &[u8]) -> (found: Vec<Match>)
    requires
        automaton_is_caseless_leftmost_first(*automaton),
        all_nonempty(automaton_patterns(*automaton)),
    ensures
        is_leftmost_first_scan(automaton_patterns(*automaton), line@, found@),
{
    automaton
        .find_iter(line)
        .map(|m| Match { pattern_id: m.pattern().as_usize(), start: m.start(), end: m.end() })
        .collect()
}

/// The pattern at place `i` is empty and none before it is.
pub open spec fn is_first_empty(patterns: Seq<Seq<u8>>, i: int) -> bool {
    &&& 0 <= i < patterns.len()
    &&& patterns[i].len() == 0
    &&& forall|j: int| 0 <= j < i ==> (#[trigger] patterns[j]).len() > 0
}

/// The place of the first empty pattern in the list, if there is one.
pub fn first_empty(patterns: &Vec<Vec<u8>>) -> (place: Option<usize>)
    ensures
        match place {
            Some(i) => is_first_empty(byte_strings(patterns@), i as int),
            None => all_nonempty(byte_strings(patterns@)),
        },
{
    let mut i: usize = 0;
    while i < patterns.len()
        invariant
            i <= patterns.len(),
            forall|j: int| 0 <= j < i ==> (#[trigger] byte_strings(patterns@)[j]).len() > 0,
        decreases patterns.len() - i,
    {
        if patterns[i].len() == 0 {
            return Some(i);
        }
        i += 1;
    }
    None
}

/// An automaton together with the colour of each of its patterns.
pub struct Highlighter {
    automaton: aho_corasick::AhoCorasick,
    colors: Vec<Color>,
}

impl Highlighter {
    /// The patterns that are searched for, in the order that breaks ties.
    pub closed spec fn patterns(&self) -> Seq<Seq<u8>> {
        automaton_patterns(self.automaton)
    }

    /// The colour of each pattern, by the pattern's place.
    pub closed spec fn colors(&self) -> Seq<Color> {
        self.colors@
    }

    /// There is at least one pattern, none is empty, each has its colour,
    /// and the automaton searches as this library requires.
    pub closed spec fn wf(&self) -> bool {
        &&& self.patterns().len() > 0
        &&& self.patterns().len() == self.colors().len()
        &&& all_nonempty(self.patterns())
        &&& automaton_is_caseless_leftmost_first(self.automaton)
    }

    /// What is returned once the automaton's construction has been tried
    /// for a table with at least one pattern and no empty one: the
    /// highlighter round the automaton, or `SetupError::Automaton`.
    pub fn from_built(
        built: Result<aho_corasick::AhoCorasick, aho_corasick::BuildError>,
        colors: Vec<Color>,
    ) -> (made: Result<Highlighter, SetupError>)
        requires
            built matches Ok(automaton) ==> automaton_patterns(automaton).len() == colors.len()
                && colors.len() > 0 && all_nonempty(automaton_patterns(automaton))
                && automaton_is_caseless_leftmost_first(automaton),
        ensures
            match built {
                Ok(automaton) => made.is_ok() && made.unwrap().wf() && made.unwrap().patterns()
                    == automaton_patterns(automaton) && made.unwrap().colors() == colors@,
                Err(_) => made == Err::<Highlighter, SetupError>(SetupError::Automaton),
            },
    {
        match built {
            Ok(automaton) => Ok(Highlighter { automaton, colors }),
            Err(_) => Err(SetupError::Automaton),
        }
    }

    /// Builds the highlighter for a table. An empty table and a table
    /// with an empty pattern are refused, the first with `EmptySet`, the
    /// second with the place of its first empty pattern. For any other
    /// table the automaton is constructed: where that succeeds, the
    /// highlighter searches for the table's patterns in the table's order
    /// and colours each as the table says; where it fails, the error is
    /// `Automaton`.
    pub fn build(table: &ColorSpec) -> (made: Result<Highlighter, SetupError>)
        requires
            table.wf(),
        ensures
            patterns_of(table@).len() == 0 ==> made == Err::<Highlighter, SetupError>(
                SetupError::EmptySet,
            ),
            forall|i: int|
                is_first_empty(patterns_of(table@), i) ==> made == Err::<Highlighter, SetupError>(
                    SetupError::EmptyPattern(i as usize),
                ),
            made.is_ok() <==> patterns_of(table@).len() > 0 && all_nonempty(patterns_of(table@))
                && automaton_builds(patterns_of(table@)),
            patterns_of(table@).len() > 0 && all_nonempty(patterns_of(table@)) && !automaton_builds(
                patterns_of(table@),
            ) ==> made == Err::<Highlighter, SetupError>(SetupError::Automaton),
            made matches Ok(h) ==> h.wf() && h.patterns() == patterns_of(table@) && h.colors()
                == colors_of(table@) && all_nonempty(h.patterns()) && h.patterns().len()
                == h.colors().len(),
    {
        if table.patterns().len() == 0 {
            return Err(SetupError::EmptySet);
        }
        match first_empty(table.patterns()) {
            Some(i) => Err(SetupError::EmptyPattern(i)),
            None => {
                let built = build_automaton(table.patterns());
                let mut colors: Vec<Color> = Vec::new();
                let mut i: usize = 0;
                while i < table.values().len()
                    invariant
                        i <= table.colors@.len(),
                        colors@ == table.colors@.subrange(0, i as int),
                    decreases table.colors@.len() - i,
                {
                    colors.push(table.values()[i]);
                    proof {
                        assert(colors@ =~= table.colors@.subrange(0, i + 1));
                    }
                    i += 1;
                }
                proof {
                    assert(colors@ =~= colors_of(table@));
                }
                Highlighter::from_built(built, colors)
            },
        }
    }

    /// All matches in the line, from left to right.
    pub fn find_all(&self, line: &[u8]) -> (found: Vec<Match>)
        requires
            self.wf(),
        ensures
            all_nonempty(self.patterns()),
            self.patterns().len() == self.colors().len(),
            is_leftmost_first_scan(self.patterns(), line@, found@),
            valid_matches(found@, line@.len() as int, self.colors().len() as int),
    {
        let found = scan(&self.automaton, line);
        proof {
            lemma_scan_is_ordered(self.patterns(), line@, found@);
        }
        found
    }

    /// Cuts the line at its matches into plain and coloured segments.
    pub fn highlight(&self, line: &[u8]) -> (segments: Vec<Segment>)
        requires
            self.wf(),
        ensures
            exists|found: Seq<Match>|
                #![auto]
                is_leftmost_first_scan(self.patterns(), line@, found) && segment_views(segments@)
                    == segments_of(line@, found, self.colors()),
            joined(segment_views(segments@)) == line@,
    {
        let found = self.find_all(line);
        segment_line(line, &found, &self.colors)
    }

    /// The line as it is to be written: the text outside the matches
    /// unchanged, and each match's text, where it is paintable, bare or
    /// wrapped in its pattern's colour. A line in
    /// which no pattern occurs comes back as it is, and an empty line as
    /// nothing.
    pub fn render(&self, line: &[u8]) -> (out: Vec<u8>)
        requires
            self.wf(),
        ensures
            exists|found: Seq<Match>, painted: Seq<Seq<u8>>|
                #![auto]
                is_leftmost_first_scan(self.patterns(), line@, found) && painted.len()
                    == segments_of(line@, found, self.colors()).len() && painted_faithfully(
                    segments_of(line@, found, self.colors()),
                    painted,
                ) && out@ == assembled(segments_of(line@, found, self.colors()), painted),
            (forall|p: int| !#[trigger] any_occurs_at(self.patterns(), line@, p)) ==> out@ == line@,
            line@.len() == 0 ==> out@.len() == 0,
    {
        let found = self.find_all(line);
        let segments = segment_line(line, &found, &self.colors);
        proof {
            if forall|p: int| !#[trigger] any_occurs_at(self.patterns(), line@, p) {
                lemma_no_occurrence_no_match(self.patterns(), line@, found@);
            }
            if line@.len() == 0 {
                lemma_empty_line_has_no_segment(line@, found@, self.colors());
            }
            if found@.len() == 0 {
                assert(found@ =~= Seq::<Match>::empty());
                lemma_no_match_leaves_line_plain(line@, self.colors());
                assert(all_plain(segment_views(segments@)));
            }
        }
        render_line(&segments)
    }
}

/// The matches of a leftmost-first search for non-empty patterns lie in
/// the line, each is non-empty, each names a pattern of the list, and
/// each starts no earlier than the one before it ends: their starts grow
/// strictly and they do not overlap.
pub proof fn lemma_scan_is_ordered(patterns: Seq<Seq<u8>>, line: Seq<u8>, found: Seq<Match>)
    requires
        all_nonempty(patterns),
        is_leftmost_first_scan(patterns, line, found),
    ensures
        valid_matches(found, line.len() as int, patterns.len() as int),
        forall|i: int, j: int|
            0 <= i < j < found.len() ==> (#[trigger] found[i]).start < found[i].end <= (
            #[trigger] found[j]).start && found[i].start < found[j].start,
{
    assert forall|i: int| 0 <= i < found.len() implies (#[trigger] found[i]).start < found[i].end
        <= line.len() by {
        assert(patterns[found[i].pattern_id as int].len() > 0);
    }
}

/// In a line in which no pattern occurs, the search finds nothing.
pub proof fn lemma_no_occurrence_no_match(patterns: Seq<Seq<u8>>, line: Seq<u8>, found: Seq<Match>)
    requires
        is_leftmost_first_scan(patterns, line, found),
        forall|p: int| !#[trigger] any_occurs_at(patterns, line, p),
    ensures
        found.len() == 0,
{
    if found.len() > 0 {
        let m = found[0];
        assert(occurs_at(patterns[m.pattern_id as int], line, m.start as int));
        assert(any_occurs_at(patterns, line, m.start as int));
    }
}

/// Two reports of a leftmost-first search for the same patterns in the
/// same line agree at every place of the first.
proof fn lemma_scans_agree_at(
    patterns: Seq<Seq<u8>>,
    line: Seq<u8>,
    f: Seq<Match>,
    g: Seq<Match>,
    i: int,
)
    requires
        all_nonempty(patterns),
        is_leftmost_first_scan(patterns, line, f),
        is_leftmost_first_scan(patterns, line, g),
        0 <= i < f.len(),
    ensures
        i < g.len(),
        f[i] == g[i],
    decreases i,
{
    let m = f[i];
    let s = m.start as int;
    assert(patterns[m.pattern_id as int].len() > 0);
    assert(any_occurs_at(patterns, line, s));
    assert(covered(g, s));
    let j = choose|j: int| 0 <= j < g.len() && (#[trigger] g[j]).start <= s < g[j].end;
    if j < i {
        lemma_scans_agree_at(patterns, line, f, g, j);
        assert(f[j].end <= f[i].start);
        assert(false);
    }
    let n = g[i];
    let t = n.start as int;
    assert(patterns[n.pattern_id as int].len() > 0);
    assert(t <= s) by {
        if i < j {
            assert(g[i].end <= g[j].start);
        }
    }
    assert(any_occurs_at(patterns, line, t));
    assert(covered(f, t));
    let k = choose|k: int| 0 <= k < f.len() && (#[trigger] f[k]).start <= t < f[k].end;
    if k < i {
        lemma_scans_agree_at(patterns, line, f, g, k);
        assert(g[k].end <= g[i].start);
        assert(false);
    }
    assert(s <= t) by {
        if i < k {
            assert(f[i].end <= f[k].start);
        }
    }
    if m.pattern_id < n.pattern_id {
        assert(!occurs_at(patterns[m.pattern_id as int], line, t));
        assert(false);
    }
    if n.pattern_id < m.pattern_id {
        assert(!occurs_at(patterns[n.pattern_id as int], line, s));
        assert(false);
    }
}

/// A line has one leftmost-first report and no other: the patterns, in
/// their order, and the line decide every match.
pub proof fn lemma_scan_is_unique(patterns: Seq<Seq<u8>>, line: Seq<u8>, f: Seq<Match>, g: Seq<Match>)
    requires
        all_nonempty(patterns),
        is_leftmost_first_scan(patterns, line, f),
        is_leftmost_first_scan(patterns, line, g),
    ensures
        f == g,
{
    assert forall|i: int| 0 <= i < f.len() implies i < g.len() && f[i] == g[i] by {
        lemma_scans_agree_at(patterns, line, f, g, i);
    }
    if f.len() < g.len() {
        lemma_scans_agree_at(patterns, line, g, f, f.len() as int);
    }
    if g.len() < f.len() {
        lemma_scans_agree_at(patterns, line, f, g, g.len() as int);
    }
    assert(f =~= g);
}

/// Two lines that differ only in the case of ASCII letters hold the same
/// occurrences of every pattern.
pub proof fn lemma_occurrence_ignores_case(pattern: Seq<u8>, a: Seq<u8>, b: Seq<u8>, at: int)
    requires
        a.len() == b.len(),
        forall|k: int| 0 <= k < a.len() ==> fold_ascii(#[trigger] a[k]) == fold_ascii(b[k]),
    ensures
        occurs_at(pattern, a, at) == occurs_at(pattern, b, at),
{
    if occurs_at(pattern, a, at) {
        assert forall|k: int| 0 <= k < pattern.len() implies fold_ascii(#[trigger] b[at + k])
            == fold_ascii(pattern[k]) by {
            assert(fold_ascii(a[at + k]) == fold_ascii(pattern[k]));
        }
    }
    if occurs_at(pattern, b, at) {
        assert forall|k: int| 0 <= k < pattern.len() implies fold_ascii(#[trigger] a[at + k])
            == fold_ascii(pattern[k]) by {
            assert(fold_ascii(b[at + k]) == fold_ascii(pattern[k]));
        }
    }
}

/// The search does not see the case of ASCII letters: what it reports
/// for a line, it reports for every line that differs from it only in
/// the case of such letters, at the same places.
pub proof fn lemma_scan_ignores_case(patterns: Seq<Seq<u8>>, a: Seq<u8>, b: Seq<u8>, found: Seq<Match>)
    requires
        a.len() == b.len(),
        forall|k: int| 0 <= k < a.len() ==> fold_ascii(#[trigger] a[k]) == fold_ascii(b[k]),
        is_leftmost_first_scan(patterns, a, found),
    ensures
        is_leftmost_first_scan(patterns, b, found),
{
    assert forall|q: int, at: int| 0 <= q < patterns.len() implies occurs_at(
        #[trigger] patterns[q],
        a,
        at,
    ) == #[trigger] occurs_at(patterns[q], b, at) by {
        lemma_occurrence_ignores_case(patterns[q], a, b, at);
    }
    assert forall|p: int| #[trigger] any_occurs_at(patterns, b, p) implies covered(found, p) by {
        let q = choose|q: int| 0 <= q < patterns.len() && occurs_at(#[trigger] patterns[q], b, p);
        assert(occurs_at(patterns[q], a, p));
        assert(any_occurs_at(patterns, a, p));
    }
    assert forall|i: int| 0 <= i < found.len() implies ({
        let m = #[trigger] found[i];
        &&& occurs_at(patterns[m.pattern_id as int], b, m.start as int)
        &&& forall|q: int| 0 <= q < m.pattern_id ==> !occurs_at(#[trigger] patterns[q], b, m.start as int)
    }) by {
        let m = found[i];
        assert(occurs_at(patterns[m.pattern_id as int], a, m.start as int));
        assert forall|q: int| 0 <= q < m.pattern_id implies !occurs_at(
            #[trigger] patterns[q],
            b,
            m.start as int,
        ) by {
            assert(!occurs_at(patterns[q], a, m.start as int));
        }
    }
}

} // verus!
