//! The table that binds patterns to colours.

use crate::color::{color_of_name, Color};
use crate::segment::copy_range;
use vstd::prelude::*;
use vstd::string::StrSliceExecFns;
use vstd::utf8::encode_utf8;

verus! {

/// The byte sequences that a list of byte strings holds.
pub open spec fn byte_strings(list: Seq<Vec<u8>>) -> Seq<Seq<u8>> {
    Seq::new(list.len(), |i: int| list[i]@)
}

/// The place at which the pattern stands in the table, if it does.
pub open spec fn place_of(table: Seq<(Seq<u8>, Color)>, pattern: Seq<u8>) -> Option<int> {
    if exists|i: int| 0 <= i < table.len() && (#[trigger] table[i]).0 == pattern {
        Some(choose|i: int| 0 <= i < table.len() && (#[trigger] table[i]).0 == pattern)
    } else {
        None
    }
}

/// The table after a pattern has been bound to a colour: a pattern that
/// the table holds keeps its place and takes the new colour; a new one
/// goes to the end.
pub open spec fn inserted(table: Seq<(Seq<u8>, Color)>, pattern: Seq<u8>, color: Color) -> Seq<
    (Seq<u8>, Color),
> {
    match place_of(table, pattern) {
        Some(i) => table.update(i, (pattern, color)),
        None => table.push((pattern, color)),
    }
}

/// The table that binding the entries one after the other gives.
pub open spec fn table_of(entries: Seq<(Seq<u8>, Color)>) -> Seq<(Seq<u8>, Color)>
    decreases entries.len(),
{
    if entries.len() == 0 {
        Seq::empty()
    } else {
        inserted(table_of(entries.drop_last()), entries.last().0, entries.last().1)
    }
}

/// The patterns of a table, in order.
pub open spec fn patterns_of(table: Seq<(Seq<u8>, Color)>) -> Seq<Seq<u8>> {
    Seq::new(table.len(), |i: int| table[i].0)
}

/// The colours of a table, in the order of their patterns.
pub open spec fn colors_of(table: Seq<(Seq<u8>, Color)>) -> Seq<Color> {
    Seq::new(table.len(), |i: int| table[i].1)
}

/// No pattern stands in the table twice.
pub open spec fn distinct_patterns(table: Seq<(Seq<u8>, Color)>) -> bool {
    forall|i: int, j: int|
        0 <= i < j < table.len() ==> (#[trigger] table[i]).0 != (#[trigger] table[j]).0
}

/// The `=` at place `i` is the only one in the token.
pub open spec fn is_separator(token: Seq<char>, i: int) -> bool {
    &&& 0 <= i < token.len()
    &&& token[i] == '='
    &&& forall|j: int| 0 <= j < token.len() && j != i ==> #[trigger] token[j] != '='
}

/// The text before and the text after the `=` of a token that holds
/// exactly one; `None` for a token with no `=` or with several.
pub open spec fn token_parts(token: Seq<char>) -> Option<(Seq<char>, Seq<char>)> {
    if exists|i: int| is_separator(token, i) {
        let i = choose|i: int| is_separator(token, i);
        Some((token.subrange(0, i), token.subrange(i + 1, token.len() as int)))
    } else {
        None
    }
}

/// The entry that a token stands for: the bytes of the text before its
/// `=` as the pattern, and the colour that the text after it names.
/// `None` where the token does not hold exactly one `=` or the name
/// resolves to no colour.
pub open spec fn parsed_entry(token: Seq<char>) -> Option<(Seq<u8>, Color)> {
    match token_parts(token) {
        Some((pattern, name)) => match color_of_name(name) {
            Some(color) => Some((encode_utf8(pattern), color)),
            None => None,
        },
        None => None,
    }
}

/// The entries of the first `n` tokens, each of which stands for one.
pub open spec fn parsed_entries(tokens: Seq<String>, n: int) -> Seq<(Seq<u8>, Color)> {
    Seq::new(n as nat, |k: int| parsed_entry(tokens[k]@).unwrap())
}

/// The views of a list of entries.
pub open spec fn entry_views(entries: Seq<(Vec<u8>, Color)>) -> Seq<(Seq<u8>, Color)> {
    Seq::new(entries.len(), |k: int| (entries[k].0@, entries[k].1))
}

/// Whether two byte strings are equal.
pub fn bytes_equal(a: &[u8], b: &[u8]) -> (same: bool)
    ensures
        same == (a@ == b@),
{
    if a.len() != b.len() {
        return false;
    }
    let mut i: usize = 0;
    while i < a.len()
        invariant
            a@.len() == b@.len(),
            i <= a@.len(),
            a@.subrange(0, i as int) == b@.subrange(0, i as int),
        decreases a@.len() - i,
    {
        if a[i] != b[i] {
            return false;
        }
        proof {
            assert(a@.subrange(0, i + 1) =~= a@.subrange(0, i as int).push(a@[i as int]));
            assert(b@.subrange(0, i + 1) =~= b@.subrange(0, i as int).push(b@[i as int]));
        }
        i += 1;
    }
    proof {
        assert(a@ =~= a@.subrange(0, i as int));
        assert(b@ =~= b@.subrange(0, i as int));
    }
    true
}

/// Cuts a token at its `=`.
pub fn split_token(token: &str) -> (parts: Option<(&str, &str)>)
    ensures
        match parts {
            Some((pattern, name)) => token_parts(token@) == Some((pattern@, name@)),
            None => token_parts(token@).is_none(),
        },
{
    let n: usize = token.unicode_len();
    let mut i: usize = 0;
    while i < n && token.get_char(i) != '='
        invariant
            n == token@.len(),
            i <= n,
            forall|k: int| 0 <= k < i ==> #[trigger] token@[k] != '=',
        decreases n - i,
    {
        i += 1;
    }
    if i == n {
        return None;
    }
    let mut j: usize = i + 1;
    while j < n && token.get_char(j) != '='
        invariant
            n == token@.len(),
            i < j <= n,
            forall|k: int| i < k < j ==> #[trigger] token@[k] != '=',
        decreases n - j,
    {
        j += 1;
    }
    if j < n {
        proof {
            assert forall|k: int| !is_separator(token@, k) by {
                if is_separator(token@, k) {
                    if k == i {
                        assert(token@[j as int] == '=');
                    } else {
                        assert(token@[i as int] == '=');
                    }
                }
            }
        }
        return None;
    }
    proof {
        assert(is_separator(token@, i as int));
        let k = choose|k: int| is_separator(token@, k);
        if k != i {
            assert(token@[i as int] == '=');
        }
    }
    Some((token.substring_char(0, i), token.substring_char(i + 1, n)))
}

/// An ordered table of patterns, each with its colour. A pattern's place
/// in the table is its identifier; no pattern stands in it twice.
#[derive(Debug)]
pub struct ColorSpec {
    pub patterns: Vec<Vec<u8>>,
    pub colors: Vec<Color>,
}

impl ColorSpec {
    /// Each pattern has one colour and no pattern occurs twice.
    pub open spec fn wf(&self) -> bool {
        &&& self.patterns@.len() == self.colors@.len()
        &&& distinct_patterns(self@)
    }

    /// The table without an entry.
    pub fn empty() -> (table: ColorSpec)
        ensures
            table.wf(),
            table@ == Seq::<(Seq<u8>, Color)>::empty(),
    {
        let table = ColorSpec { patterns: Vec::new(), colors: Vec::new() };
        proof {
            assert(table@ =~= Seq::<(Seq<u8>, Color)>::empty());
        }
        table
    }

    /// The table of a list of entries, bound one after the other: where a
    /// pattern comes twice, it stands at the place of the first and has
    /// the colour of the last.
    pub fn new(entries: Vec<(Vec<u8>, Color)>) -> (table: ColorSpec)
        ensures
            table.wf(),
            table@ == table_of(entry_views(entries@)),
    {
        let mut table = ColorSpec::empty();
        let mut i: usize = 0;
        while i < entries.len()
            invariant
                i <= entries.len(),
                table.wf(),
                table@ == table_of(entry_views(entries@).take(i as int)),
            decreases entries.len() - i,
        {
            let pattern = copy_range(entries[i].0.as_slice(), 0, entries[i].0.len());
            proof {
                let all = entry_views(entries@);
                assert(pattern@ =~= entries[i as int].0@);
                assert(all.take(i + 1).drop_last() =~= all.take(i as int));
                assert(all.take(i + 1).last() == all[i as int]);
            }
            table.insert(pattern, entries[i].1);
            i += 1;
        }
        proof {
            assert(entry_views(entries@).take(i as int) =~= entry_views(entries@));
        }
        table
    }

    /// The number of patterns.
    pub fn len(&self) -> (n: usize)
        ensures
            n == self@.len(),
    {
        self.patterns.len()
    }

    /// The place of a pattern in the table, `None` for one that the table
    /// does not hold.
    pub fn position(&self, pattern: &[u8]) -> (place: Option<usize>)
        requires
            self.wf(),
        ensures
            match place {
                Some(i) => place_of(self@, pattern@) == Some(i as int) && i < self@.len() && self@[i as int].0
                    == pattern@,
                None => place_of(self@, pattern@).is_none(),
            },
    {
        let mut i: usize = 0;
        while i < self.patterns.len()
            invariant
                i <= self.patterns@.len(),
                self.wf(),
                forall|k: int| 0 <= k < i ==> (#[trigger] self@[k]).0 != pattern@,
            decreases self.patterns@.len() - i,
        {
            if bytes_equal(self.patterns[i].as_slice(), pattern) {
                proof {
                    assert(self@[i as int].0 == pattern@);
                    let k = choose|k: int| 0 <= k < self@.len() && (#[trigger] self@[k]).0 == pattern@;
                    if k != i {
                        assert(self.patterns@[k]@ == self@[k].0);
                        assert(self.patterns@[i as int]@ == self@[i as int].0);
                    }
                }
                return Some(i);
            }
            i += 1;
        }
        None
    }

    /// Binds a pattern to a colour. A pattern that the table holds
    /// already keeps its place and takes the new colour.
    pub fn insert(&mut self, pattern: Vec<u8>, color: Color)
        requires
            old(self).wf(),
        ensures
            final(self).wf(),
            final(self)@ == inserted(old(self)@, pattern@, color),
    {
        match self.position(pattern.as_slice()) {
            Some(i) => {
                self.colors.set(i, color);
                proof {
                    assert(final(self)@ =~= old(self)@.update(i as int, (pattern@, color)));
                }
            },
            None => {
                proof {
                    assert forall|k: int| 0 <= k < old(self)@.len() implies old(self).patterns@[k]@
                        != pattern@ by {
                        assert(old(self)@[k].0 == old(self).patterns@[k]@);
                    }
                }
                self.patterns.push(pattern);
                self.colors.push(color);
                proof {
                    assert(final(self)@ =~= old(self)@.push((pattern@, color)));
                }
            },
        }
    }

    /// The patterns, in order.
    pub fn patterns(&self) -> (p: &Vec<Vec<u8>>)
        ensures
            p == &self.patterns,
            self.wf() ==> byte_strings(p@) == patterns_of(self@),
    {
        proof {
            if self.wf() {
                assert(byte_strings(self.patterns@) =~= patterns_of(self@));
            }
        }
        &self.patterns
    }

    /// The colours, in the order of their patterns.
    pub fn values(&self) -> (c: &Vec<Color>)
        ensures
            c == &self.colors,
            self.wf() ==> c@ == colors_of(self@),
    {
        proof {
            if self.wf() {
                assert(self.colors@ =~= colors_of(self@));
            }
        }
        &self.colors
    }
}

impl View for ColorSpec {
    type V = Seq<(Seq<u8>, Color)>;

    open spec fn view(&self) -> Seq<(Seq<u8>, Color)> {
        Seq::new(self.patterns@.len(), |i: int| (self.patterns@[i]@, self.colors@[i]))
    }
}

/// Binding a pattern gives it the colour, leaves every other pattern at
/// its place with its colour, adds at most one entry, and keeps the
/// table free of repeated patterns.
pub proof fn lemma_inserted_binds(table: Seq<(Seq<u8>, Color)>, pattern: Seq<u8>, color: Color)
    requires
        distinct_patterns(table),
    ensures
        distinct_patterns(inserted(table, pattern, color)),
        table.len() <= inserted(table, pattern, color).len() <= table.len() + 1,
        exists|i: int|
            0 <= i < inserted(table, pattern, color).len() && #[trigger] inserted(
                table,
                pattern,
                color,
            )[i] == (pattern, color),
        forall|i: int|
            0 <= i < table.len() && (#[trigger] table[i]).0 != pattern ==> inserted(
                table,
                pattern,
                color,
            )[i] == table[i],
{
    let after = inserted(table, pattern, color);
    match place_of(table, pattern) {
        Some(i) => {
            assert(after[i] == (pattern, color));
            assert forall|a: int, b: int| 0 <= a < b < after.len() implies (#[trigger] after[a]).0 != (
            #[trigger] after[b]).0 by {
                assert(after[a].0 == table[a].0);
                assert(after[b].0 == table[b].0);
            }
        },
        None => {
            assert(after[table.len() as int] == (pattern, color));
            assert forall|a: int, b: int| 0 <= a < b < after.len() implies (#[trigger] after[a]).0 != (
            #[trigger] after[b]).0 by {
                assert(table[a].0 != pattern);
                if b < table.len() {
                    assert(after[a].0 == table[a].0);
                    assert(after[b].0 == table[b].0);
                }
            }
        },
    }
}

/// The table of a list of entries holds no pattern twice and no more
/// entries than the list.
pub proof fn lemma_table_of_is_distinct(entries: Seq<(Seq<u8>, Color)>)
    ensures
        distinct_patterns(table_of(entries)),
        table_of(entries).len() <= entries.len(),
    decreases entries.len(),
{
    if entries.len() > 0 {
        lemma_table_of_is_distinct(entries.drop_last());
        lemma_inserted_binds(table_of(entries.drop_last()), entries.last().0, entries.last().1);
    }
}

/// Reads the table from tokens of the form `PATTERN=COLORNAME`. Every
/// token must hold exactly one `=` and a name that resolves to a colour;
/// otherwise there is no table. The entries are bound in the order of
/// the tokens.
pub fn parse_args(args: &Vec<String>) -> (table: Option<ColorSpec>)
    ensures
        table.is_some() <==> forall|k: int|
            0 <= k < args@.len() ==> parsed_entry((#[trigger] args@[k])@).is_some(),
        table matches Some(t) ==> t.wf() && t@ == table_of(parsed_entries(args@, args@.len() as int)),
{
    let mut table = ColorSpec::empty();
    let mut i: usize = 0;
    while i < args.len()
        invariant
            i <= args@.len(),
            table.wf(),
            forall|k: int| 0 <= k < i ==> parsed_entry((#[trigger] args@[k])@).is_some(),
            table@ == table_of(parsed_entries(args@, i as int)),
        decreases args@.len() - i,
    {
        let token: &str = args[i].as_str();
        match split_token(token) {
            None => {
                proof {
                    assert(parsed_entry(args@[i as int]@).is_none());
                }
                return None;
            },
            Some((pattern, name)) => match Color::from_name(name) {
                None => {
                    proof {
                        assert(parsed_entry(args@[i as int]@).is_none());
                    }
                    return None;
                },
                Some(color) => {
                    let bytes = pattern.as_bytes();
                    let owned = copy_range(bytes, 0, bytes.len());
                    proof {
                        assert(owned@ =~= encode_utf8(pattern@));
                        assert(parsed_entry(args@[i as int]@) == Some((owned@, color)));
                        assert(parsed_entries(args@, i + 1).drop_last() =~= parsed_entries(
                            args@,
                            i as int,
                        ));
                    }
                    table.insert(owned, color);
                },
            },
        }
        i += 1;
    }
    Some(table)
}

} // verus!
