//! The dictionary: identifiers mapped to default texts, the entry seen last
//! winning, and its rendering as a JSON document.
use vstd::prelude::*;

use crate::grammar::{Row, rows_view};

verus! {

/// The dictionary of a sequence of entries: each identifier maps to the
/// default text of its last entry.
pub open spec fn dict_of(rows: Seq<(Seq<char>, Seq<char>)>) -> Map<Seq<char>, Seq<char>>
    decreases rows.len(),
{
    if rows.len() == 0 {
        Map::empty()
    } else {
        dict_of(rows.drop_last()).insert(rows.last().0, rows.last().1)
    }
}

pub open spec fn keys_unique(rows: Seq<(Seq<char>, Seq<char>)>) -> bool {
    forall|i: int, j: int| 0 <= i < j < rows.len() ==> rows[i].0 != rows[j].0
}

/// The text that `serde_json::to_string_pretty` makes of a string-to-string
/// object with these members.
pub uninterp spec fn pretty_json_of(m: Map<Seq<char>, Seq<char>>) -> Seq<char>;

/// The document rendered from a sequence of entries.
pub open spec fn document_of(rows: Seq<(Seq<char>, Seq<char>)>) -> Seq<char> {
    pretty_json_of(dict_of(rows))
}

/// The identifiers of the dictionary are those of the entries.
pub proof fn lemma_dict_keys(rows: Seq<(Seq<char>, Seq<char>)>, k: Seq<char>)
    ensures
        dict_of(rows).contains_key(k) <==> exists|i: int| 0 <= i < rows.len() && rows[i].0 == k,
    decreases rows.len(),
{
    if rows.len() > 0 {
        let p = rows.drop_last();
        lemma_dict_keys(p, k);
        if dict_of(p).contains_key(k) {
            let i = choose|i: int| 0 <= i < p.len() && p[i].0 == k;
            assert(rows[i].0 == k);
        }
        if exists|i: int| 0 <= i < rows.len() && rows[i].0 == k {
            let i = choose|i: int| 0 <= i < rows.len() && rows[i].0 == k;
            if i < rows.len() - 1 {
                assert(p[i].0 == k);
            }
        }
    }
}

/// Last write wins: an identifier maps to the default text of the last entry
/// that carries it, whatever entries with that identifier came before.
pub proof fn lemma_last_entry_wins(rows: Seq<(Seq<char>, Seq<char>)>, i: int)
    requires
        0 <= i < rows.len(),
        forall|j: int| i < j < rows.len() ==> rows[j].0 != rows[i].0,
    ensures
        dict_of(rows).contains_key(rows[i].0),
        dict_of(rows)[rows[i].0] == rows[i].1,
    decreases rows.len(),
{
    if i < rows.len() - 1 {
        let p = rows.drop_last();
        assert forall|j: int| i < j < p.len() implies p[j].0 != p[i].0 by {
            assert(p[j] == rows[j]);
        }
        lemma_last_entry_wins(p, i);
    }
}

/// Entries appended after others override them key by key.
pub proof fn lemma_dict_append(a: Seq<(Seq<char>, Seq<char>)>, b: Seq<(Seq<char>, Seq<char>)>)
    ensures
        dict_of(a + b) == dict_of(a).union_prefer_right(dict_of(b)),
    decreases b.len(),
{
    if b.len() == 0 {
        assert(a + b =~= a);
        assert(dict_of(a).union_prefer_right(dict_of(b)) =~= dict_of(a));
    } else {
        let bp = b.drop_last();
        lemma_dict_append(a, bp);
        assert((a + b).drop_last() =~= a + bp);
        assert((a + b).last() == b.last());
        assert(dict_of(a + b) =~= dict_of(a).union_prefer_right(dict_of(b)));
    }
}

/// Scanning the same entries a second time changes nothing: the document
/// rendered from the entries twice over is the one rendered from them once.
pub proof fn lemma_rescan_idempotent(rows: Seq<(Seq<char>, Seq<char>)>)
    ensures
        dict_of(rows + rows) == dict_of(rows),
        document_of(rows + rows) == document_of(rows),
{
    lemma_dict_append(rows, rows);
    assert(dict_of(rows).union_prefer_right(dict_of(rows)) =~= dict_of(rows));
}

/// Entries under distinct identifiers do not depend on each other's order:
/// two groups that share no identifier give one dictionary in either order.
pub proof fn lemma_disjoint_order_free(
    a: Seq<(Seq<char>, Seq<char>)>,
    b: Seq<(Seq<char>, Seq<char>)>,
)
    requires
        forall|i: int, j: int| 0 <= i < a.len() && 0 <= j < b.len() ==> a[i].0 != b[j].0,
    ensures
        dict_of(a + b) == dict_of(b + a),
{
    lemma_dict_append(a, b);
    lemma_dict_append(b, a);
    assert forall|k: Seq<char>| !(dict_of(a).contains_key(k) && dict_of(b).contains_key(k)) by {
        lemma_dict_keys(a, k);
        lemma_dict_keys(b, k);
    }
    assert(dict_of(a).union_prefer_right(dict_of(b)) =~= dict_of(b).union_prefer_right(
        dict_of(a),
    ));
}

proof fn lemma_unique_lookup(rows: Seq<(Seq<char>, Seq<char>)>, i: int)
    requires
        keys_unique(rows),
        0 <= i < rows.len(),
    ensures
        dict_of(rows).contains_key(rows[i].0),
        dict_of(rows)[rows[i].0] == rows[i].1,
{
    lemma_last_entry_wins(rows, i);
}

proof fn lemma_unique_update(rows: Seq<(Seq<char>, Seq<char>)>, i: int, v: Seq<char>)
    requires
        keys_unique(rows),
        0 <= i < rows.len(),
    ensures
        keys_unique(rows.update(i, (rows[i].0, v))),
        dict_of(rows.update(i, (rows[i].0, v))) == dict_of(rows).insert(rows[i].0, v),
{
    let t = rows.update(i, (rows[i].0, v));
    let m = dict_of(rows).insert(rows[i].0, v);
    assert forall|k: Seq<char>| dict_of(t).contains_key(k) <==> m.contains_key(k) by {
        lemma_dict_keys(t, k);
        lemma_dict_keys(rows, k);
        if exists|j: int| 0 <= j < t.len() && t[j].0 == k {
            let j = choose|j: int| 0 <= j < t.len() && t[j].0 == k;
            assert(rows[j].0 == k);
        }
        if exists|j: int| 0 <= j < rows.len() && rows[j].0 == k {
            let j = choose|j: int| 0 <= j < rows.len() && rows[j].0 == k;
            assert(t[j].0 == k);
        }
    }
    assert forall|k: Seq<char>| #[trigger] dict_of(t).contains_key(k) implies dict_of(t)[k]
        == m[k] by {
        lemma_dict_keys(t, k);
        let j = choose|j: int| 0 <= j < t.len() && t[j].0 == k;
        lemma_unique_lookup(t, j);
        if j != i {
            lemma_unique_lookup(rows, j);
        }
    }
    assert(dict_of(t) =~= m);
}

proof fn lemma_unique_len(rows: Seq<(Seq<char>, Seq<char>)>)
    requires
        keys_unique(rows),
    ensures
        dict_of(rows).dom().finite(),
        dict_of(rows).dom().len() == rows.len(),
    decreases rows.len(),
{
    if rows.len() > 0 {
        let p = rows.drop_last();
        lemma_unique_len(p);
        lemma_dict_keys(p, rows.last().0);
        if exists|i: int| 0 <= i < p.len() && p[i].0 == rows.last().0 {
            let i = choose|i: int| 0 <= i < p.len() && p[i].0 == rows.last().0;
            assert(rows[i].0 == rows[rows.len() - 1].0);
        }
    }
}

#[verifier::external_type_specification]
#[verifier::external_body]
pub struct ExJsonError(serde_json::Error);

/// Why a dictionary could not be rendered.
pub enum DictError {
    /// The JSON serializer failed.
    Serialize(serde_json::Error),
}

/// A dictionary held as entries with distinct identifiers.
pub struct Dictionary {
    entries: Vec<Row>,
}

impl View for Dictionary {
    type V = Map<Seq<char>, Seq<char>>;

    closed spec fn view(&self) -> Map<Seq<char>, Seq<char>> {
        dict_of(rows_view(self.entries@))
    }
}

impl Dictionary {
    pub closed spec fn wf(&self) -> bool {
        keys_unique(rows_view(self.entries@))
    }

    pub fn new() -> (d: Dictionary)
        ensures
            d.wf(),
            d@ == Map::<Seq<char>, Seq<char>>::empty(),
    {
        let d = Dictionary { entries: Vec::new() };
        assert(rows_view(d.entries@) =~= Seq::empty());
        d
    }

    /// Position of the entry with identifier `id`, if any.
    fn position(&self, id: &String) -> (r: Option<usize>)
        ensures
            match r {
                Some(i) => i < self.entries@.len() && self.entries@[i as int].id@ == id@,
                None => forall|i: int|
                    0 <= i < self.entries@.len() ==> self.entries@[i].id@ != id@,
            },
    {
        let mut i: usize = 0;
        while i < self.entries.len()
            invariant
                i <= self.entries@.len(),
                forall|j: int| 0 <= j < i ==> self.entries@[j].id@ != id@,
            decreases self.entries@.len() - i,
        {
            if self.entries[i].id == *id {
                return Some(i);
            }
            i = i + 1;
        }
        None
    }

    /// Adds an entry; an entry already held under its identifier is replaced.
    pub fn insert(&mut self, row: Row)
        requires
            old(self).wf(),
        ensures
            final(self).wf(),
            final(self)@ == old(self)@.insert(row@.0, row@.1),
    {
        let ghost s = rows_view(self.entries@);
        match self.position(&row.id) {
            Some(i) => {
                proof {
                    lemma_unique_update(s, i as int, row@.1);
                }
                self.entries.set(i, row);
                assert(rows_view(self.entries@) =~= s.update(i as int, (s[i as int].0, row@.1)));
            },
            None => {
                self.entries.push(row);
                assert(rows_view(self.entries@) =~= s.push(row@));
                assert(s.push(row@).drop_last() =~= s);
            },
        }
    }

    /// The dictionary of a sequence of entries, the last of each identifier
    /// winning.
    pub fn from_rows(rows: &Vec<Row>) -> (d: Dictionary)
        ensures
            d.wf(),
            d@ == dict_of(rows_view(rows@)),
    {
        let mut d = Dictionary::new();
        let mut i: usize = 0;
        while i < rows.len()
            invariant
                i <= rows@.len(),
                d.wf(),
                d@ == dict_of(rows_view(rows@).subrange(0, i as int)),
            decreases rows@.len() - i,
        {
            let r = Row { id: rows[i].id.clone(), default_msg: rows[i].default_msg.clone() };
            d.insert(r);
            assert(rows_view(rows@).subrange(0, i + 1).drop_last() =~= rows_view(rows@).subrange(
                0,
                i as int,
            ));
            i = i + 1;
        }
        assert(rows_view(rows@).subrange(0, i as int) =~= rows_view(rows@));
        d
    }

    /// The default text held for `id`.
    pub fn get(&self, id: &String) -> (r: Option<String>)
        requires
            self.wf(),
        ensures
            match r {
                Some(v) => self@.contains_key(id@) && self@[id@] == v@,
                None => !self@.contains_key(id@),
            },
    {
        proof {
            lemma_dict_keys(rows_view(self.entries@), id@);
        }
        match self.position(id) {
            Some(i) => {
                proof {
                    lemma_unique_lookup(rows_view(self.entries@), i as int);
                }
                Some(self.entries[i].default_msg.clone())
            },
            None => {
                assert(!exists|j: int|
                    0 <= j < rows_view(self.entries@).len() && rows_view(self.entries@)[j].0
                        == id@);
                None
            },
        }
    }

    /// Relies on `serde_json::to_string_pretty` applied to a `serde_json::Map`
    /// of string values. Without the `preserve_order` feature that map is a
    /// `BTreeMap`, so the text depends on the members alone, keys in sorted
    /// order, whatever the order of insertion. Serializing a map with string
    /// keys into memory does not fail, and an empty map is written `{}`.
    #[verifier::external_body]
    fn pretty_json(&self) -> (r: Result<String, serde_json::Error>)
        ensures
            r is Ok,
            r matches Ok(s) ==> s@ == pretty_json_of(self@),
            r matches Ok(s) ==> (self@ == Map::<Seq<char>, Seq<char>>::empty() ==> s@ == "{}"@),
    {
        let mut m = serde_json::Map::new();
        for row in self.entries.iter() {
            m.insert(row.id.clone(), serde_json::Value::String(row.default_msg.clone()));
        }
        serde_json::to_string_pretty(&m)
    }

    /// The dictionary as a pretty-printed JSON object.
    pub fn to_json(&self) -> (r: Result<String, DictError>)
        ensures
            r matches Ok(s) && s@ == pretty_json_of(self@),
            r matches Ok(s) && (self@ == Map::<Seq<char>, Seq<char>>::empty() ==> s@ == "{}"@),
    {
        match self.pretty_json() {
            Ok(s) => Ok(s),
            Err(e) => Err(DictError::Serialize(e)),
        }
    }

    /// The number of identifiers.
    pub fn len(&self) -> (n: usize)
        requires
            self.wf(),
        ensures
            self@.dom().finite(),
            n == self@.dom().len(),
    {
        proof {
            lemma_unique_len(rows_view(self.entries@));
        }
        self.entries.len()
    }
}

/// The document of a sequence of entries: their dictionary, the last entry
/// of each identifier winning, as a pretty-printed JSON object.
pub fn render_items(rows: &Vec<Row>) -> (r: Result<String, DictError>)
    ensures
        r matches Ok(s) && s@ == document_of(rows_view(rows@)),
        r matches Ok(s) && (rows@.len() == 0 ==> s@ == "{}"@),
{
    let d = Dictionary::from_rows(rows);
    d.to_json()
}

} // verus!
