//! The decisions of a run over a source tree: the walk reports each node,
//! and the scan says whether to go on, collecting the entries of each file.
use vstd::prelude::*;

use crate::dictionary::{dict_of, document_of, render_items, DictError};
use crate::grammar::{rows_view, text_entries, Pattern, Row};

verus! {

/// What the walk of the source tree reports for one node.
pub enum WalkEvent {
    /// A directory: traversed, not read.
    Directory,
    /// A regular file, with its text.
    File(String),
    /// A regular file that could not be read as text.
    Unreadable,
    /// A node that could not be visited, at this depth below the root; depth
    /// zero is the root itself.
    WalkFailed(usize),
}

/// What the run does after an event.
#[derive(PartialEq, Eq, Structural, Debug)]
pub enum WalkStep {
    Continue,
    /// The source tree cannot be walked at all: no dictionary is produced.
    Abort,
}

/// The state of a run: the entries collected so far, in the order of the
/// files, and whether any node was skipped.
pub struct Scan {
    pattern: Pattern,
    rows: Vec<Row>,
    skipped: bool,
}

impl Scan {
    pub closed spec fn wf(&self) -> bool {
        self.pattern.wf()
    }

    /// The entries collected so far.
    pub closed spec fn entries(&self) -> Seq<(Seq<char>, Seq<char>)> {
        rows_view(self.rows@)
    }

    /// Whether a file or a node was skipped.
    pub closed spec fn skipped_any(&self) -> bool {
        self.skipped
    }

    pub fn new() -> (s: Scan)
        ensures
            s.wf(),
            s.entries() == Seq::<(Seq<char>, Seq<char>)>::empty(),
            !s.skipped_any(),
    {
        let s = Scan { pattern: Pattern::new(), rows: Vec::new(), skipped: false };
        assert(rows_view(s.rows@) =~= Seq::empty());
        s
    }

    /// Takes in one event of the walk. A file adds its entries; an unreadable
    /// file, or a node below the root that cannot be visited, is skipped; a
    /// root that cannot be walked ends the run.
    pub fn step(&mut self, ev: WalkEvent) -> (r: WalkStep)
        requires
            old(self).wf(),
        ensures
            final(self).wf(),
            match ev {
                WalkEvent::Directory => r == WalkStep::Continue && final(self).entries()
                    == old(self).entries() && final(self).skipped_any() == old(
                    self,
                ).skipped_any(),
                WalkEvent::File(text) => r == WalkStep::Continue && final(self).entries() == old(
                    self,
                ).entries() + text_entries(text@) && final(self).skipped_any() == old(
                    self,
                ).skipped_any(),
                WalkEvent::Unreadable => r == WalkStep::Continue && final(self).entries() == old(
                    self,
                ).entries() && final(self).skipped_any(),
                WalkEvent::WalkFailed(depth) => final(self).entries() == old(self).entries() && (
                depth == 0 ==> r == WalkStep::Abort && final(self).skipped_any() == old(
                    self,
                ).skipped_any()) && (depth > 0 ==> r == WalkStep::Continue
                    && final(self).skipped_any()),
            },
    {
        match ev {
            WalkEvent::Directory => WalkStep::Continue,
            WalkEvent::File(text) => {
                let mut found = self.pattern.extract_rows(&text);
                let ghost before = rows_view(self.rows@);
                let ghost added = rows_view(found@);
                self.rows.append(&mut found);
                assert(rows_view(self.rows@) =~= before + added);
                WalkStep::Continue
            },
            WalkEvent::Unreadable => {
                self.skipped = true;
                WalkStep::Continue
            },
            WalkEvent::WalkFailed(depth) => {
                if depth == 0 {
                    WalkStep::Abort
                } else {
                    self.skipped = true;
                    WalkStep::Continue
                }
            },
        }
    }

    /// The number of entries collected, before entries with one identifier
    /// are merged.
    pub fn entry_count(&self) -> (n: usize)
        ensures
            n == self.entries().len(),
    {
        self.rows.len()
    }

    /// Whether a file or a node was skipped.
    pub fn skipped(&self) -> (b: bool)
        ensures
            b == self.skipped_any(),
    {
        self.skipped
    }

    /// The document of the entries collected so far.
    pub fn render(&self) -> (r: Result<String, DictError>)
        ensures
            r matches Ok(s) && s@ == document_of(self.entries()),
            r matches Ok(s) && (self.entries().len() == 0 ==> s@ == "{}"@),
    {
        render_items(&self.rows)
    }
}

/// Two files that each yield one entry, under distinct identifiers, give a
/// dictionary of exactly those two identifiers with their texts.
pub proof fn lemma_two_files_aggregate(
    a: Seq<char>,
    b: Seq<char>,
    x: Seq<char>,
    tx: Seq<char>,
    z: Seq<char>,
    tz: Seq<char>,
)
    requires
        text_entries(a) == seq![(x, tx)],
        text_entries(b) == seq![(z, tz)],
        x != z,
    ensures
        dict_of(text_entries(a) + text_entries(b)) == map![x => tx, z => tz],
        dict_of(text_entries(a) + text_entries(b)).dom().len() == 2,
{
    let s = text_entries(a) + text_entries(b);
    assert(s.drop_last() =~= seq![(x, tx)]);
    assert(s.drop_last().drop_last() =~= Seq::<(Seq<char>, Seq<char>)>::empty());
    assert(s.last() == (z, tz));
    assert(s.drop_last().last() == (x, tx));
    assert(dict_of(s.drop_last().drop_last()) == Map::<Seq<char>, Seq<char>>::empty());
    assert(dict_of(s.drop_last()) == Map::<Seq<char>, Seq<char>>::empty().insert(x, tx));
    assert(dict_of(s) =~= map![x => tx, z => tz]);
    assert(map![x => tx, z => tz].dom() =~= set![x, z]);
}

} // verus!
