//! The line grammar: which lines carry a message, and what they carry.
use vstd::prelude::*;

use crate::text::{chars_of, string_of};

verus! {

/// The component name that every candidate line must contain.
pub open spec fn marker_text() -> Seq<char> {
    "FormattedMessage"@
}

/// What precedes the identifier.
pub open spec fn open_text() -> Seq<char> {
    "<FormattedMessage id=\""@
}

/// What separates the identifier from the default text.
pub open spec fn mid_text() -> Seq<char> {
    "\" defaultMessage=\""@
}

pub open spec fn is_letter(c: char) -> bool {
    ('a' <= c && c <= 'z') || ('A' <= c && c <= 'Z')
}

/// What closes the default text.
pub open spec fn close_text() -> Seq<char> {
    "\""@
}

/// Characters allowed in an identifier.
pub open spec fn is_id_char(c: char) -> bool {
    is_letter(c) || ('0' <= c && c <= '9') || c == '.' || c == '-' || c == '_'
}

/// Characters allowed in a default text.
pub open spec fn is_msg_char(c: char) -> bool {
    is_letter(c) || c == ' ' || c == '.' || c == '-' || c == '_'
}

pub open spec fn in_class(c: char, ids: bool) -> bool {
    if ids {
        is_id_char(c)
    } else {
        is_msg_char(c)
    }
}

/// `t` occurs in `l` starting at position `i`.
pub open spec fn has_at(l: Seq<char>, i: int, t: Seq<char>) -> bool {
    0 <= i && i + t.len() <= l.len() && l.subrange(i, i + t.len()) == t
}

pub open spec fn contains(l: Seq<char>, t: Seq<char>) -> bool {
    exists|i: int| has_at(l, i, t)
}

/// Length of the longest run of class characters starting at `i`.
pub open spec fn span(l: Seq<char>, i: int, ids: bool) -> nat
    decreases l.len() - i,
{
    if 0 <= i < l.len() && in_class(l[i], ids) {
        1 + span(l, i + 1, ids)
    } else {
        0
    }
}

/// The (identifier, default text) pair of an invocation that starts at `i`:
/// the opening, a non-empty identifier, the separator, a non-empty default
/// text and its closing quote. Each quoted value is whole: it is made only of
/// its class's characters.
pub open spec fn match_at(l: Seq<char>, i: int) -> Option<(Seq<char>, Seq<char>)> {
    let a = i + open_text().len();
    let b = a + span(l, a, true);
    let c = b + mid_text().len();
    let d = c + span(l, c, false);
    if has_at(l, i, open_text()) && a < b && has_at(l, b, mid_text()) && c < d && has_at(
        l,
        d,
        close_text(),
    ) {
        Some((l.subrange(a, b), l.subrange(c, d)))
    } else {
        None
    }
}

/// The leftmost invocation at or after position `i`.
pub open spec fn first_match(l: Seq<char>, i: int) -> Option<(Seq<char>, Seq<char>)>
    decreases l.len() - i,
{
    if i < 0 || i >= l.len() {
        None
    } else if match_at(l, i) is Some {
        match_at(l, i)
    } else {
        first_match(l, i + 1)
    }
}

/// The entry of one line: only a line holding the marker is searched, and
/// the leftmost invocation on it is taken.
pub open spec fn line_entry(l: Seq<char>) -> Option<(Seq<char>, Seq<char>)> {
    if contains(l, marker_text()) {
        first_match(l, 0)
    } else {
        None
    }
}

/// Drops one carriage return that ends a line.
pub open spec fn strip_cr(l: Seq<char>) -> Seq<char> {
    if l.len() > 0 && l.last() == '\r' {
        l.drop_last()
    } else {
        l
    }
}

/// The lines of `s` from the line that starts at `start`, the scan being at
/// `i`: a line ends at a line feed, which is dropped with one carriage return
/// before it; a last line without a line feed is kept as it stands, and an
/// empty one after the final line feed is no line.
pub open spec fn lines_from(s: Seq<char>, start: int, i: int) -> Seq<Seq<char>>
    decreases s.len() - i,
{
    if i < 0 || i >= s.len() {
        if 0 <= start < s.len() {
            seq![s.subrange(start, s.len() as int)]
        } else {
            seq![]
        }
    } else if s[i] == '\n' {
        seq![strip_cr(s.subrange(start, i))] + lines_from(s, i + 1, i + 1)
    } else {
        lines_from(s, start, i + 1)
    }
}

pub open spec fn lines_of(s: Seq<char>) -> Seq<Seq<char>> {
    lines_from(s, 0, 0)
}

pub open spec fn option_seq<T>(o: Option<T>) -> Seq<T> {
    match o {
        Some(x) => seq![x],
        None => seq![],
    }
}

/// The entries of a sequence of lines, in line order.
pub open spec fn entries_of_lines(ls: Seq<Seq<char>>) -> Seq<(Seq<char>, Seq<char>)>
    decreases ls.len(),
{
    if ls.len() == 0 {
        seq![]
    } else {
        option_seq(line_entry(ls[0])) + entries_of_lines(ls.drop_first())
    }
}

/// The entries of a whole text.
pub open spec fn text_entries(s: Seq<char>) -> Seq<(Seq<char>, Seq<char>)> {
    entries_of_lines(lines_of(s))
}

proof fn lemma_first_match_witness(l: Seq<char>, i: int) -> (k: int)
    requires
        first_match(l, i) is Some,
    ensures
        i <= k < l.len(),
        match_at(l, k) is Some,
    decreases l.len() - i,
{
    if match_at(l, i) is Some {
        i
    } else {
        lemma_first_match_witness(l, i + 1)
    }
}

/// The marker test only spares work: every line that holds an invocation
/// holds the marker, so the entry of a line is its leftmost invocation.
pub proof fn lemma_marker_filter_loses_nothing(l: Seq<char>)
    ensures
        line_entry(l) == first_match(l, 0),
{
    if first_match(l, 0) is Some {
        let k = lemma_first_match_witness(l, 0);
        reveal_strlit("FormattedMessage");
        reveal_strlit("<FormattedMessage id=\"");
        assert(open_text().subrange(1, 17) =~= marker_text());
        assert(l.subrange(k + 1, k + 17) =~= l.subrange(k, k + 22).subrange(1, 17));
        assert(has_at(l, k + 1, marker_text()));
    }
}

/// A line that holds the marker but not the opening of an invocation yields
/// no entry.
pub proof fn lemma_marker_alone_yields_nothing(l: Seq<char>)
    requires
        !contains(l, open_text()),
    ensures
        line_entry(l) is None,
{
    if first_match(l, 0) is Some {
        let k = lemma_first_match_witness(l, 0);
        assert(has_at(l, k, open_text()));
    }
}

/// An extracted record: a message identifier and its default text.
pub struct Row {
    pub id: String,
    pub default_msg: String,
}

impl View for Row {
    type V = (Seq<char>, Seq<char>);

    open spec fn view(&self) -> (Seq<char>, Seq<char>) {
        (self.id@, self.default_msg@)
    }
}

pub open spec fn rows_view(v: Seq<Row>) -> Seq<(Seq<char>, Seq<char>)> {
    v.map_values(|r: Row| r@)
}

/// The fixed texts of the grammar, held as characters.
pub struct Pattern {
    marker: Vec<char>,
    open: Vec<char>,
    mid: Vec<char>,
    close: Vec<char>,
}

impl Pattern {
    pub closed spec fn wf(&self) -> bool {
        self.marker@ == marker_text() && self.open@ == open_text() && self.mid@ == mid_text()
            && self.close@ == close_text()
    }

    pub fn new() -> (p: Pattern)
        ensures
            p.wf(),
    {
        Pattern {
            marker: chars_of("FormattedMessage"),
            open: chars_of("<FormattedMessage id=\""),
            mid: chars_of("\" defaultMessage=\""),
            close: chars_of("\""),
        }
    }
}

fn is_id_char_exec(c: char) -> (r: bool)
    ensures
        r == is_id_char(c),
{
    ('a' <= c && c <= 'z') || ('A' <= c && c <= 'Z') || ('0' <= c && c <= '9') || c == '.'
        || c == '-' || c == '_'
}

fn is_msg_char_exec(c: char) -> (r: bool)
    ensures
        r == is_msg_char(c),
{
    ('a' <= c && c <= 'z') || ('A' <= c && c <= 'Z') || c == ' ' || c == '.' || c == '-' || c
        == '_'
}

fn in_class_exec(c: char, ids: bool) -> (r: bool)
    ensures
        r == in_class(c, ids),
{
    if ids {
        is_id_char_exec(c)
    } else {
        is_msg_char_exec(c)
    }
}

/// Whether `t` occurs in `l` at position `i`.
fn occurs_at(l: &Vec<char>, i: usize, t: &Vec<char>) -> (r: bool)
    ensures
        r == has_at(l@, i as int, t@),
{
    if i > l.len() || t.len() > l.len() - i {
        return false;
    }
    let mut j: usize = 0;
    while j < t.len()
        invariant
            i + t@.len() <= l@.len() == l.len(),
            j <= t@.len(),
            forall|k: int| 0 <= k < j ==> l@[i + k] == t@[k],
        decreases t@.len() - j,
    {
        if l[i + j] != t[j] {
            assert(l@.subrange(i as int, i + t@.len())[j as int] != t@[j as int]);
            return false;
        }
        j = j + 1;
    }
    assert(l@.subrange(i as int, i + t@.len()) =~= t@);
    true
}

/// Whether `t` occurs anywhere in `l`.
fn occurs(l: &Vec<char>, t: &Vec<char>) -> (r: bool)
    ensures
        r == contains(l@, t@),
{
    if t.len() > l.len() {
        return false;
    }
    let last = l.len() - t.len();
    let mut i: usize = 0;
    loop
        invariant
            last == l@.len() - t@.len(),
            i <= last,
            forall|k: int| 0 <= k < i ==> !has_at(l@, k, t@),
        decreases last - i,
    {
        if occurs_at(l, i, t) {
            return true;
        }
        if i == last {
            return false;
        }
        i = i + 1;
    }
}

/// End of the longest run of class characters starting at `i`.
fn span_end(l: &Vec<char>, i: usize, ids: bool) -> (j: usize)
    requires
        i <= l@.len(),
    ensures
        j == i + span(l@, i as int, ids),
        i <= j <= l@.len(),
{
    let mut j = i;
    while j < l.len() && in_class_exec(l[j], ids)
        invariant
            i <= j <= l@.len(),
            i + span(l@, i as int, ids) == j + span(l@, j as int, ids),
        decreases l@.len() - j,
    {
        j = j + 1;
    }
    j
}

/// The characters of `l` from `a` to `b`.
fn copy_range(l: &Vec<char>, a: usize, b: usize) -> (v: Vec<char>)
    requires
        a <= b <= l@.len(),
    ensures
        v@ == l@.subrange(a as int, b as int),
{
    let mut v: Vec<char> = Vec::new();
    let mut k = a;
    while k < b
        invariant
            a <= k <= b <= l@.len(),
            v@ == l@.subrange(a as int, k as int),
        decreases b - k,
    {
        v.push(l[k]);
        k = k + 1;
        assert(v@ =~= l@.subrange(a as int, k as int));
    }
    v
}

proof fn lemma_entries_cons(x: Seq<char>, rest: Seq<Seq<char>>)
    ensures
        entries_of_lines(seq![x] + rest) == option_seq(line_entry(x)) + entries_of_lines(rest),
{
    assert((seq![x] + rest).drop_first() =~= rest);
    assert((seq![x] + rest)[0] == x);
}

impl Pattern {
    /// Bounds of the two captures of an invocation that starts at `i`.
    fn match_bounds(&self, l: &Vec<char>, i: usize) -> (r: Option<(usize, usize, usize, usize)>)
        requires
            self.wf(),
        ensures
            r is Some <==> match_at(l@, i as int) is Some,
            r matches Some(q) ==> q.0 <= q.1 <= q.2 <= q.3 <= l@.len() && match_at(l@, i as int)
                == Some((l@.subrange(q.0 as int, q.1 as int), l@.subrange(q.2 as int, q.3 as int))),
    {
        let n = l.len();
        if !occurs_at(l, i, &self.open) {
            return None;
        }
        let a = i + self.open.len();
        let b = span_end(l, a, true);
        if a == b {
            return None;
        }
        if !occurs_at(l, b, &self.mid) {
            return None;
        }
        let c = b + self.mid.len();
        let d = span_end(l, c, false);
        if c == d || !occurs_at(l, d, &self.close) {
            return None;
        }
        Some((a, b, c, d))
    }

    /// The entry of one line, as [`line_entry`] gives it.
    pub fn extract_line(&self, l: &Vec<char>) -> (r: Option<Row>)
        requires
            self.wf(),
        ensures
            match r {
                Some(row) => line_entry(l@) == Some(row@),
                None => line_entry(l@) is None,
            },
    {
        if !occurs(l, &self.marker) {
            return None;
        }
        let mut i: usize = 0;
        while i < l.len()
            invariant
                self.wf(),
                i <= l@.len(),
                line_entry(l@) == first_match(l@, i as int),
            decreases l@.len() - i,
        {
            match self.match_bounds(l, i) {
                Some(q) => {
                    let id = string_of(&copy_range(l, q.0, q.1));
                    let default_msg = string_of(&copy_range(l, q.2, q.3));
                    let row = Row { id, default_msg };
                    return Some(row);
                },
                None => {},
            }
            i = i + 1;
        }
        None
    }

    /// The entries of every line of `text`, in line order.
    pub fn extract_rows(&self, text: &str) -> (rows: Vec<Row>)
        requires
            self.wf(),
        ensures
            rows_view(rows@) == text_entries(text@),
    {
        let s = chars_of(text);
        let mut rows: Vec<Row> = Vec::new();
        let mut start: usize = 0;
        let mut i: usize = 0;
        while i < s.len()
            invariant
                self.wf(),
                s@ == text@,
                start <= i <= s@.len(),
                rows_view(rows@) + entries_of_lines(lines_from(s@, start as int, i as int))
                    == text_entries(text@),
            decreases s@.len() - i,
        {
            if s[i] == '\n' {
                let mut end = i;
                if end > start && s[end - 1] == '\r' {
                    end = end - 1;
                }
                let line = copy_range(&s, start, end);
                assert(line@ == strip_cr(s@.subrange(start as int, i as int)));
                let rest = Ghost(lines_from(s@, i + 1, i + 1));
                proof {
                    lemma_entries_cons(line@, rest@);
                }
                let found = self.extract_line(&line);
                let ghost before = rows_view(rows@);
                match found {
                    Some(row) => {
                        rows.push(row);
                    },
                    None => {},
                }
                assert(rows_view(rows@) =~= before + option_seq(line_entry(line@)));
                start = i + 1;
            }
            i = i + 1;
        }
        if start < s.len() {
            let line = copy_range(&s, start, s.len());
            proof {
                lemma_entries_cons(line@, seq![]);
            }
            let found = self.extract_line(&line);
            let ghost before = rows_view(rows@);
            match found {
                Some(row) => {
                    rows.push(row);
                },
                None => {},
            }
            assert(rows_view(rows@) =~= before + option_seq(line_entry(line@)));
        }
        assert(rows_view(rows@) =~= text_entries(text@));
        rows
    }
}

} // verus!
