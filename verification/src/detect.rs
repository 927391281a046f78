//! Placeholder detection in the text of a line, and the content-stream
//! slices that a detected placeholder occupies.
use vstd::prelude::*;
use crate::text::trim;

verus! {

/// Whether `p` occurs in `s` at position `i`.
pub open spec fn occurs_at(s: Seq<char>, p: Seq<char>, i: int) -> bool {
    0 <= i && i + p.len() <= s.len() && s.subrange(i, i + p.len()) == p
}

/// First position at or after `from` where `p` occurs in `s`.
pub open spec fn first_occurrence(s: Seq<char>, p: Seq<char>, from: int) -> Option<int>
    decreases s.len() + 1 - from,
{
    if from < 0 || from + p.len() > s.len() {
        None
    } else if occurs_at(s, p, from) {
        Some(from)
    } else {
        first_occurrence(s, p, from + 1)
    }
}

pub proof fn lemma_first_occurrence(s: Seq<char>, p: Seq<char>, from: int)
    requires
        0 <= from,
    ensures
        first_occurrence(s, p, from) matches Some(i) ==> from <= i && i + p.len() <= s.len()
            && occurs_at(s, p, i),
        first_occurrence(s, p, from) is None ==> forall|i: int| from <= i ==> !occurs_at(s, p, i),
    decreases s.len() + 1 - from,
{
    if from + p.len() <= s.len() && !occurs_at(s, p, from) {
        lemma_first_occurrence(s, p, from + 1);
        if first_occurrence(s, p, from) is None {
            assert forall|i: int| from <= i implies !occurs_at(s, p, i) by {
                if i > from {
                }
            }
        }
    }
}

/// A placeholder found in a line: the character positions of its first
/// character and just past its closing delimiter, its raw text and its
/// trimmed expression.
pub struct MatchModel {
    pub open_char: nat,
    pub close_char: nat,
    pub raw: Seq<char>,
    pub expression: Seq<char>,
}

/// Placeholders of line `s` found from character position `from` on, with
/// opening delimiter `o` and closing delimiter `c`. A match whose trimmed
/// expression is empty is passed over; the search resumes after it.
pub open spec fn matches_from(s: Seq<char>, o: Seq<char>, c: Seq<char>, from: int) -> Seq<MatchModel>
    decreases s.len() + 1 - from,
{
    if from < 0 || from > s.len() {
        Seq::empty()
    } else {
        match first_occurrence(s, o, from) {
            None => Seq::empty(),
            Some(co) => {
                let ca = co + o.len();
                match first_occurrence(s, c, ca) {
                    None => Seq::empty(),
                    Some(cc) => {
                        let ce = cc + c.len();
                        proof {
                            lemma_first_occurrence(s, o, from);
                            lemma_first_occurrence(s, c, ca);
                        }
                        let rest = if ce > from {
                            matches_from(s, o, c, ce)
                        } else {
                            Seq::empty()
                        };
                        let inner = trim(s.subrange(ca, cc));
                        if inner.len() > 0 {
                            seq![
                                MatchModel {
                                    open_char: co as nat,
                                    close_char: ce as nat,
                                    raw: s.subrange(co, ce),
                                    expression: inner,
                                },
                            ] + rest
                        } else {
                            rest
                        }
                    },
                }
            },
        }
    }
}

/// The shape of a placeholder found in line `s`: its raw text is the line's
/// characters from its start to its end, made of the opening delimiter, an
/// inner text in which the closing delimiter does not occur, and the
/// closing delimiter; its expression is the inner text trimmed, and is not
/// empty.
pub open spec fn match_well_formed(s: Seq<char>, o: Seq<char>, c: Seq<char>, m: MatchModel) -> bool {
    let inner = m.raw.subrange(o.len() as int, m.raw.len() - c.len());
    &&& m.open_char + o.len() + c.len() <= m.close_char <= s.len()
    &&& m.raw == s.subrange(m.open_char as int, m.close_char as int)
    &&& m.raw.subrange(0, o.len() as int) == o
    &&& m.raw.subrange(m.raw.len() - c.len(), m.raw.len() as int) == c
    &&& forall|q: int| 0 <= q && q + c.len() <= inner.len() ==> #[trigger] inner.subrange(q, q + c.len()) != c
    &&& m.expression == trim(inner)
    &&& m.expression.len() > 0
}

/// Every placeholder found is well formed (see [`match_well_formed`]),
/// starts at or after the search position, and ends before the next one
/// starts.
pub proof fn law_matches_well_formed(s: Seq<char>, o: Seq<char>, c: Seq<char>, from: int)
    requires
        0 <= from,
    ensures
        forall|i: int|
            0 <= i < matches_from(s, o, c, from).len() ==> match_well_formed(s, o, c, #[trigger] matches_from(s, o, c, from)[i])
                && from <= matches_from(s, o, c, from)[i].open_char,
        forall|i: int|
            0 <= i < matches_from(s, o, c, from).len() - 1 ==> (#[trigger] matches_from(s, o, c, from)[i]).close_char
                <= matches_from(s, o, c, from)[i + 1].open_char,
    decreases s.len() + 1 - from,
{
    let ms = matches_from(s, o, c, from);
    if from <= s.len() {
        lemma_first_occurrence(s, o, from);
        if let Some(co) = first_occurrence(s, o, from) {
            let ca = co + o.len();
            lemma_first_occurrence(s, c, ca);
            if c.len() == 0 {
                assert(s.subrange(ca, ca) =~= c);
                assert(first_occurrence(s, c, ca) == Some(ca));
                assert(s.subrange(ca, ca) =~= Seq::<char>::empty());
                assert(trim(s.subrange(ca, ca)).len() == 0);
            }
            if let Some(cc) = first_occurrence(s, c, ca) {
                let ce = cc + c.len();
                let rest = if ce > from { matches_from(s, o, c, ce) } else { Seq::empty() };
                if ce > from {
                    law_matches_well_formed(s, o, c, ce);
                }
                let inner = trim(s.subrange(ca, cc));
                if inner.len() > 0 {
                    let m = MatchModel {
                        open_char: co as nat,
                        close_char: ce as nat,
                        raw: s.subrange(co, ce),
                        expression: inner,
                    };
                    assert(ms == seq![m] + rest);
                    let raw = m.raw;
                    let inn = raw.subrange(o.len() as int, raw.len() - c.len());
                    assert(inn =~= s.subrange(ca, cc));
                    assert(raw.subrange(0, o.len() as int) =~= s.subrange(co, ca));
                    assert(raw.subrange(raw.len() - c.len(), raw.len() as int) =~= s.subrange(cc, ce));
                    assert forall|q: int| 0 <= q && q + c.len() <= inn.len() implies #[trigger] inn.subrange(q, q + c.len()) != c by {
                        assert(inn.subrange(q, q + c.len()) =~= s.subrange(ca + q, ca + q + c.len()));
                        if ca + q < cc {
                            assert(!occurs_at(s, c, ca + q)) by {
                                lemma_first_not_before(s, c, ca, cc, ca + q);
                            }
                        }
                    }
                    assert(match_well_formed(s, o, c, m));
                    assert forall|i: int| 0 <= i < ms.len() implies match_well_formed(s, o, c, #[trigger] ms[i])
                        && from <= ms[i].open_char by {
                        if i > 0 {
                            assert(ms[i] == rest[i - 1]);
                        }
                    }
                    assert forall|i: int| 0 <= i < ms.len() - 1 implies (#[trigger] ms[i]).close_char <= ms[i + 1].open_char by {
                        if i > 0 {
                            assert(ms[i] == rest[i - 1] && ms[i + 1] == rest[i]);
                        } else {
                            assert(ms[1] == rest[0]);
                        }
                    }
                } else {
                    assert(ms == rest);
                }
            }
        }
    }
}

/// The first occurrence is the least position with an occurrence.
proof fn lemma_first_is_least(s: Seq<char>, p: Seq<char>, from: int, at: int)
    requires
        0 <= from <= at,
        occurs_at(s, p, at),
        forall|i: int| from <= i < at ==> !occurs_at(s, p, i),
    ensures
        first_occurrence(s, p, from) == Some(at),
    decreases at - from,
{
    if from < at {
        lemma_first_is_least(s, p, from + 1, at);
    }
}

/// The first placeholder found from `from` opens at the first occurrence
/// of the opening delimiter there and closes at the first occurrence of the
/// closing delimiter after it, when the text between them is not blank.
pub proof fn law_first_placeholder_found(s: Seq<char>, o: Seq<char>, c: Seq<char>, from: int, co: int, cc: int)
    requires
        0 <= from <= co,
        occurs_at(s, o, co),
        forall|i: int| from <= i < co ==> !occurs_at(s, o, i),
        co + o.len() <= cc,
        occurs_at(s, c, cc),
        forall|i: int| co + o.len() <= i < cc ==> !occurs_at(s, c, i),
        trim(s.subrange(co + o.len(), cc)).len() > 0,
    ensures
        matches_from(s, o, c, from).len() > 0,
        matches_from(s, o, c, from)[0] == (MatchModel {
            open_char: co as nat,
            close_char: (cc + c.len()) as nat,
            raw: s.subrange(co, cc + c.len()),
            expression: trim(s.subrange(co + o.len(), cc)),
        }),
{
    lemma_first_is_least(s, o, from, co);
    lemma_first_is_least(s, c, co + o.len(), cc);
}

/// After a placeholder is found, the search goes on from its end: the
/// placeholders after the first are those found from the first one's end.
/// Together with the law above, no placeholder of the line is left out.
pub proof fn law_search_resumes_at_match_end(s: Seq<char>, o: Seq<char>, c: Seq<char>, from: int)
    requires
        0 <= from,
        matches_from(s, o, c, from).len() > 0,
    ensures
        matches_from(s, o, c, from).drop_first() == matches_from(
            s,
            o,
            c,
            matches_from(s, o, c, from)[0].close_char as int,
        ),
    decreases s.len() + 1 - from,
{
    let ms = matches_from(s, o, c, from);
    lemma_first_occurrence(s, o, from);
    let co = first_occurrence(s, o, from)->0;
    let ca = co + o.len();
    lemma_first_occurrence(s, c, ca);
    let cc = first_occurrence(s, c, ca)->0;
    let ce = cc + c.len();
    let inner = trim(s.subrange(ca, cc));
    if cc == ca {
        assert(s.subrange(ca, cc) =~= Seq::<char>::empty());
        assert(inner.len() == 0);
    }
    if inner.len() > 0 {
        assert(ce > from);
        assert(ms == seq![ms[0]] + matches_from(s, o, c, ce));
        assert(ms.drop_first() =~= matches_from(s, o, c, ce));
    } else {
        if ce > from {
            assert(ms == matches_from(s, o, c, ce));
            law_search_resumes_at_match_end(s, o, c, ce);
        }
    }
}

/// No occurrence starts between `from` and the first one.
proof fn lemma_first_not_before(s: Seq<char>, p: Seq<char>, from: int, first: int, i: int)
    requires
        0 <= from <= i < first,
        first_occurrence(s, p, from) == Some(first),
    ensures
        !occurs_at(s, p, i),
    decreases i - from,
{
    if i > from {
        assert(!occurs_at(s, p, from));
        lemma_first_not_before(s, p, from + 1, first, i);
    }
}

/// Finds placeholders between an opening and a closing delimiter.
#[derive(Clone, Debug)]
pub struct SpanMatcher {
    open_delim: String,
    close_delim: String,
}

/// A placeholder found in a line of text (see [`MatchModel`]).
#[derive(Clone, Debug, PartialEq)]
pub struct PlaceholderMatch {
    pub open_char: usize,
    pub close_char: usize,
    pub raw: String,
    pub expression: String,
}

impl View for PlaceholderMatch {
    type V = MatchModel;

    open spec fn view(&self) -> MatchModel {
        MatchModel {
            open_char: self.open_char as nat,
            close_char: self.close_char as nat,
            raw: self.raw@,
            expression: self.expression@,
        }
    }
}

pub open spec fn matches_view(v: Seq<PlaceholderMatch>) -> Seq<MatchModel> {
    v.map_values(|m: PlaceholderMatch| m@)
}

fn occurs_at_exec(s: &Vec<char>, p: &Vec<char>, i: usize) -> (b: bool)
    requires
        i + p@.len() <= s@.len(),
    ensures
        b == occurs_at(s@, p@, i as int),
{
    let sl = s.len();
    let mut j: usize = 0;
    while j < p.len()
        invariant
            sl == s@.len(),
            i + p@.len() <= s@.len(),
            j <= p@.len(),
            forall|m: int| 0 <= m < j ==> s@[i + m] == p@[m],
        decreases p@.len() - j,
    {
        if s[i + j] != p[j] {
            assert(s@.subrange(i as int, i + p@.len())[j as int] != p@[j as int]);
            return false;
        }
        j = j + 1;
    }
    assert(s@.subrange(i as int, i + p@.len()) =~= p@);
    true
}

fn first_occurrence_exec(s: &Vec<char>, p: &Vec<char>, from: usize) -> (r: Option<usize>)
    requires
        from <= s@.len(),
    ensures
        match first_occurrence(s@, p@, from as int) {
            Some(i) => r == Some(i as usize),
            None => r is None,
        },
{
    if p.len() > s.len() {
        return None;
    }
    let mut i = from;
    while i <= s.len() - p.len()
        invariant
            from <= i,
            p@.len() <= s@.len(),
            first_occurrence(s@, p@, i as int) == first_occurrence(s@, p@, from as int),
        decreases s@.len() - i,
    {
        proof {
            if p@.len() == 0 {
                assert(s@.subrange(i as int, i as int) =~= p@);
            }
        }
        if occurs_at_exec(s, p, i) {
            return Some(i);
        }
        i = i + 1;
    }
    None
}

impl SpanMatcher {
    pub closed spec fn open_view(&self) -> Seq<char> {
        self.open_delim@
    }

    pub closed spec fn close_view(&self) -> Seq<char> {
        self.close_delim@
    }

    /// A matcher for placeholders written `<open_delim>expression<close_delim>`.
    pub fn new(open_delim: &str, close_delim: &str) -> (m: Self)
        ensures
            m.open_view() == open_delim@,
            m.close_view() == close_delim@,
    {
        SpanMatcher {
            open_delim: crate::text::to_owned_string(open_delim),
            close_delim: crate::text::to_owned_string(close_delim),
        }
    }

    /// The placeholders of one line of text, left to right. With both
    /// delimiters empty the search would not advance, so at least one of
    /// them must be non-empty.
    pub fn find_placeholders_in_line(&self, line: &str) -> (r: Vec<PlaceholderMatch>)
        requires
            self.open_view().len() > 0 || self.close_view().len() > 0,
        ensures
            matches_view(r@) == matches_from(line@, self.open_view(), self.close_view(), 0),
    {
        let s = crate::text::chars_of(line);
        let o = crate::text::chars_of(self.open_delim.as_str());
        let c = crate::text::chars_of(self.close_delim.as_str());
        let n = s.len();
        let mut r: Vec<PlaceholderMatch> = Vec::new();
        let mut from: usize = 0;
        loop
            invariant
                s@ == line@,
                o@ == self.open_view(),
                c@ == self.close_view(),
                o@.len() > 0 || c@.len() > 0,
                n == s@.len(),
                from <= n,
                matches_view(r@) + matches_from(s@, o@, c@, from as int) == matches_from(s@, o@, c@, 0),
            decreases n - from,
        {
            let ghost before = r@;
            let ghost total = matches_from(s@, o@, c@, 0);
            let co = match first_occurrence_exec(&s, &o, from) {
                Some(i) => i,
                None => {
                    assert(matches_view(r@) =~= total);
                    return r;
                },
            };
            proof {
                lemma_first_occurrence(s@, o@, from as int);
            }
            let ca = co + o.len();
            let cc = match first_occurrence_exec(&s, &c, ca) {
                Some(i) => i,
                None => {
                    assert(matches_view(r@) =~= total);
                    return r;
                },
            };
            proof {
                lemma_first_occurrence(s@, c@, ca as int);
            }
            let ce = cc + c.len();
            let inner = crate::text::trim_str(line.substring_char(ca, cc));
            if !inner.is_empty() {
                let m = PlaceholderMatch {
                    open_char: co,
                    close_char: ce,
                    raw: crate::text::to_owned_string(line.substring_char(co, ce)),
                    expression: crate::text::to_owned_string(inner),
                };
                r.push(m);
                assert(matches_view(r@) =~= matches_view(before).push(m@));
            }
            assert(ce > from);
            assert(matches_view(r@) + matches_from(s@, o@, c@, ce as int) =~= total);
            from = ce;
        }
    }
}

} // verus!

verus! {

/// The part of a content-stream string operand that a placeholder covers:
/// operation index, element index inside a `TJ` array, character range and
/// byte range.
#[derive(Clone, Debug, PartialEq)]
pub struct SpanMatchRef {
    pub op_index: usize,
    pub sub_index: Option<usize>,
    pub start_char: usize,
    pub end_char: usize,
    pub byte_start: usize,
    pub byte_end: usize,
}

/// What the slicing of a placeholder needs to know of one text span.
#[derive(Clone, Debug, PartialEq)]
pub struct SpanText {
    pub op_index: usize,
    pub sub_index: Option<usize>,
    /// Number of characters of the span's decoded text.
    pub char_count: usize,
    /// Length in bytes of the span's decoded text.
    pub byte_len: usize,
    /// Byte range of each character of the decoded text.
    pub char_byte_ranges: Vec<(usize, usize)>,
}

/// The reference into span `sp`, the `idx`-th span of a line, for a
/// placeholder running from character `start_char` of span `start_span` to
/// character `end_char` of span `end_span`: the whole span except at the two
/// ends; byte offsets from the character ranges where they exist, else the
/// start or the text's length.
pub open spec fn span_ref_spec(
    sp: SpanText,
    idx: int,
    start_span: int,
    start_char: int,
    end_span: int,
    end_char: int,
) -> SpanMatchRef {
    let s_char = if idx == start_span { start_char } else { 0 };
    let e_char = if idx == end_span { end_char + 1 } else { sp.char_count as int };
    let ranges = sp.char_byte_ranges@;
    SpanMatchRef {
        op_index: sp.op_index,
        sub_index: sp.sub_index,
        start_char: s_char as usize,
        end_char: e_char as usize,
        byte_start: if s_char < ranges.len() { ranges[s_char].0 } else { 0 },
        byte_end: if e_char > 0 && e_char <= ranges.len() { ranges[e_char - 1].1 } else { sp.byte_len },
    }
}

/// References into spans `start_span..=end_span` of a line for a
/// placeholder (see [`span_ref_spec`]), one per span, in order.
pub fn span_refs(
    spans: &Vec<SpanText>,
    start_span: usize,
    start_char: usize,
    end_span: usize,
    end_char: usize,
) -> (r: Vec<SpanMatchRef>)
    requires
        end_span < spans@.len(),
        end_char < usize::MAX,
    ensures
        r@.len() == if start_span <= end_span { end_span - start_span + 1 } else { 0 },
        forall|k: int|
            0 <= k < r@.len() ==> #[trigger] r@[k] == span_ref_spec(
                spans@[start_span + k],
                start_span + k,
                start_span as int,
                start_char as int,
                end_span as int,
                end_char as int,
            ),
{
    let mut r: Vec<SpanMatchRef> = Vec::new();
    if start_span > end_span {
        return r;
    }
    let n = spans.len();
    let mut idx = start_span;
    while idx <= end_span
        invariant
            n == spans@.len(),
            end_span < spans@.len(),
            end_char < usize::MAX,
            start_span <= idx <= end_span + 1,
            r@.len() == idx - start_span,
            forall|k: int|
                0 <= k < r@.len() ==> #[trigger] r@[k] == span_ref_spec(
                    spans@[start_span + k],
                    start_span + k,
                    start_span as int,
                    start_char as int,
                    end_span as int,
                    end_char as int,
                ),
        decreases end_span + 1 - idx,
    {
        let sp = &spans[idx];
        let s_char = if idx == start_span { start_char } else { 0 };
        let e_char = if idx == end_span { end_char + 1 } else { sp.char_count };
        let b_start = if s_char < sp.char_byte_ranges.len() {
            sp.char_byte_ranges[s_char].0
        } else {
            0
        };
        let b_end = if e_char > 0 && e_char <= sp.char_byte_ranges.len() {
            sp.char_byte_ranges[e_char - 1].1
        } else {
            sp.byte_len
        };
        r.push(
            SpanMatchRef {
                op_index: sp.op_index,
                sub_index: sp.sub_index,
                start_char: s_char,
                end_char: e_char,
                byte_start: b_start,
                byte_end: b_end,
            },
        );
        idx = idx + 1;
    }
    r
}

/// Number of characters in the first `k` spans of a line.
pub open spec fn prefix_total(counts: Seq<usize>, k: int) -> int
    decreases k,
{
    if k <= 0 {
        0
    } else {
        prefix_total(counts, k - 1) + counts[k - 1]
    }
}

/// Where character `idx` of a line made of spans with `counts` characters
/// each comes from: the span and the character inside it; none past the
/// line's end.
pub fn locate_char(counts: &Vec<usize>, idx: usize) -> (r: Option<(usize, usize)>)
    ensures
        match r {
            Some((k, c)) => k < counts.len() && prefix_total(counts@, k as int) <= idx < prefix_total(
                counts@,
                k + 1,
            ) && c == idx - prefix_total(counts@, k as int),
            None => idx >= prefix_total(counts@, counts.len() as int),
        },
{
    let mut total: usize = 0;
    let mut k: usize = 0;
    while k < counts.len()
        invariant
            k <= counts.len(),
            total == prefix_total(counts@, k as int),
            total <= idx,
        decreases counts.len() - k,
    {
        if idx - total < counts[k] {
            return Some((k, idx - total));
        }
        total = total + counts[k];
        k = k + 1;
    }
    None
}

} // verus!
