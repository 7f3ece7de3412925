//! The keyed error collection and its location identity.
//!
//! [`Errors`] maps an [`ErrorKey`] — the stable identity of a render
//! position — to the failure captured there, held behind a shared ownership
//! handle so the reporting adapter and the rendering boundary can reference
//! the same value. A key maps to at most one error: inserting an existing
//! key overwrites the prior value, and removing an absent key is a no-op.

use std::sync::Arc;
use vstd::prelude::*;

verus! {

broadcast use vstd::map::group_map_axioms;

/// An application failure captured from a fallible render, reduced to the one
/// capability a boundary needs of it: a textual description.
#[derive(Debug)]
pub struct ErrorValue {
    message: String,
}

impl View for ErrorValue {
    type V = Seq<char>;

    closed spec fn view(&self) -> Seq<char> {
        self.message@
    }
}

impl ErrorValue {
    /// Captures a failure from its textual description.
    pub fn new(message: String) -> (e: ErrorValue)
        ensures
            e@ == message@,
    {
        ErrorValue { message }
    }

    /// The textual description of the failure.
    pub fn message(&self) -> (m: &str)
        ensures
            m@ == self@,
    {
        self.message.as_str()
    }
}

impl Clone for ErrorValue {
    fn clone(&self) -> (e: Self)
        ensures
            e@ == self@,
    {
        ErrorValue { message: self.message.clone() }
    }
}

/// A unique key for an error that occurs at a particular location in the
/// render tree. Keys with the same identity string are equal, so a node that
/// fails on one pass and is rendered again maps to the same entry.
#[derive(Debug, Hash)]
pub struct ErrorKey {
    key: String,
}

impl View for ErrorKey {
    type V = Seq<char>;

    closed spec fn view(&self) -> Seq<char> {
        self.key@
    }
}

impl ErrorKey {
    /// A key for the given location identity.
    pub fn new(key: String) -> (k: ErrorKey)
        ensures
            k@ == key@,
    {
        ErrorKey { key }
    }

    /// The identity string this key was built from.
    pub fn as_str(&self) -> (s: &str)
        ensures
            s@ == self@,
    {
        self.key.as_str()
    }
}

impl Clone for ErrorKey {
    fn clone(&self) -> (k: Self)
        ensures
            k@ == self@,
    {
        ErrorKey { key: self.key.clone() }
    }
}

impl PartialEq for ErrorKey {
    fn eq(&self, other: &Self) -> (r: bool) {
        self.key == other.key
    }
}

impl vstd::std_specs::cmp::PartialEqSpecImpl for ErrorKey {
    open spec fn obeys_eq_spec() -> bool {
        true
    }

    open spec fn eq_spec(&self, other: &Self) -> bool {
        self@ == other@
    }
}

impl Eq for ErrorKey {
}

impl Default for ErrorKey {
    /// The catch-all key, denoting no specific location.
    fn default() -> (k: Self)
        ensures
            k@ == Seq::<char>::empty(),
    {
        ErrorKey { key: String::new() }
    }
}

impl From<String> for ErrorKey {
    fn from(key: String) -> (k: ErrorKey)
        ensures
            k@ == key@,
    {
        ErrorKey { key }
    }
}

impl vstd::std_specs::convert::FromSpecImpl<String> for ErrorKey {
    open spec fn obeys_from_spec() -> bool {
        true
    }

    closed spec fn from_spec(key: String) -> ErrorKey {
        ErrorKey { key }
    }
}

/// Whether no two entries of the sequence carry the same key identity.
spec fn distinct_keys(s: Seq<(ErrorKey, Arc<ErrorValue>)>) -> bool {
    forall|i: int, j: int| 0 <= i < j < s.len() ==> s[i].0@ != s[j].0@
}

/// The mapping that a sequence of entries denotes: each key identity to the
/// description of the error stored under it, later entries overriding
/// earlier ones.
spec fn entries_map(s: Seq<(ErrorKey, Arc<ErrorValue>)>) -> Map<Seq<char>, Seq<char>>
    decreases s.len(),
{
    if s.len() == 0 {
        Map::empty()
    } else {
        entries_map(s.drop_last()).insert(s.last().0@, s.last().1@)
    }
}

proof fn lemma_distinct_drop_last(s: Seq<(ErrorKey, Arc<ErrorValue>)>)
    requires
        distinct_keys(s),
        s.len() > 0,
    ensures
        distinct_keys(s.drop_last()),
{
    assert forall|i: int, j: int|
        0 <= i < j < s.drop_last().len() implies s.drop_last()[i].0@ != s.drop_last()[j].0@ by {
        assert(s.drop_last()[i] == s[i]);
        assert(s.drop_last()[j] == s[j]);
    }
}

proof fn lemma_entries_map_contains(s: Seq<(ErrorKey, Arc<ErrorValue>)>, k: Seq<char>)
    ensures
        entries_map(s).contains_key(k) <==> (exists|i: int| 0 <= i < s.len() && s[i].0@ == k),
    decreases s.len(),
{
    if s.len() > 0 {
        lemma_entries_map_contains(s.drop_last(), k);
        if s.last().0@ == k {
            assert(s[s.len() - 1].0@ == k);
        } else {
            if entries_map(s).contains_key(k) {
                let i = choose|i: int| 0 <= i < s.drop_last().len() && s.drop_last()[i].0@ == k;
                assert(s[i].0@ == k);
            }
            if exists|i: int| 0 <= i < s.len() && s[i].0@ == k {
                let i = choose|i: int| 0 <= i < s.len() && s[i].0@ == k;
                assert(i < s.len() - 1);
                assert(s.drop_last()[i].0@ == k);
            }
        }
    }
}

proof fn lemma_entries_map_index(s: Seq<(ErrorKey, Arc<ErrorValue>)>, i: int)
    requires
        distinct_keys(s),
        0 <= i < s.len(),
    ensures
        entries_map(s).contains_key(s[i].0@),
        entries_map(s)[s[i].0@] == s[i].1@,
    decreases s.len(),
{
    if i < s.len() - 1 {
        lemma_distinct_drop_last(s);
        assert(s.drop_last()[i] == s[i]);
        lemma_entries_map_index(s.drop_last(), i);
        assert(s.last().0@ != s[i].0@);
    }
}

proof fn lemma_entries_map_push(s: Seq<(ErrorKey, Arc<ErrorValue>)>, e: (ErrorKey, Arc<ErrorValue>))
    ensures
        entries_map(s.push(e)) == entries_map(s).insert(e.0@, e.1@),
{
    assert(s.push(e).drop_last() =~= s);
    assert(s.push(e).last() == e);
}

proof fn lemma_entries_map_remove(s: Seq<(ErrorKey, Arc<ErrorValue>)>, i: int)
    requires
        distinct_keys(s),
        0 <= i < s.len(),
    ensures
        entries_map(s.remove(i)) == entries_map(s).remove(s[i].0@),
    decreases s.len(),
{
    let k = s[i].0@;
    if i == s.len() - 1 {
        assert(s.remove(i) =~= s.drop_last());
        lemma_entries_map_contains(s.drop_last(), k);
        assert(!entries_map(s.drop_last()).contains_key(k)) by {
            if exists|j: int| 0 <= j < s.drop_last().len() && s.drop_last()[j].0@ == k {
                let j = choose|j: int| 0 <= j < s.drop_last().len() && s.drop_last()[j].0@ == k;
                assert(s[j].0@ == k);
                assert(s[j].0@ != s[i].0@);
            }
        }
        assert(entries_map(s).remove(k) =~= entries_map(s.drop_last()));
    } else {
        lemma_distinct_drop_last(s);
        assert(s.drop_last()[i] == s[i]);
        lemma_entries_map_remove(s.drop_last(), i);
        assert(s.remove(i).drop_last() =~= s.drop_last().remove(i));
        assert(s.remove(i).last() == s.last());
        assert(s.len() - 1 > 0);
        assert(entries_map(s.remove(i)) == entries_map(s.drop_last().remove(i)).insert(
            s.last().0@,
            s.last().1@,
        ));
        assert(s.last().0@ != k);
        assert(entries_map(s.drop_last()).remove(k).insert(s.last().0@, s.last().1@)
            =~= entries_map(s.drop_last()).insert(s.last().0@, s.last().1@).remove(k));
    }
}

/// Holds every failure captured for one boundary, keyed by the position of
/// the node that produced it. Keys are unique; iteration order is
/// unspecified.
#[derive(Debug)]
pub struct Errors {
    entries: Vec<(ErrorKey, Arc<ErrorValue>)>,
}

impl View for Errors {
    type V = Map<Seq<char>, Seq<char>>;

    closed spec fn view(&self) -> Map<Seq<char>, Seq<char>> {
        entries_map(self.entries@)
    }
}

impl Errors {
    #[verifier::type_invariant]
    spec fn wf(&self) -> bool {
        distinct_keys(self.entries@)
    }

    /// An empty collection.
    pub fn new() -> (e: Errors)
        ensures
            e@ == Map::<Seq<char>, Seq<char>>::empty(),
    {
        Errors { entries: Vec::new() }
    }

    /// Returns `true` if there are no errors.
    pub fn is_empty(&self) -> (r: bool)
        ensures
            r == (self@ == Map::<Seq<char>, Seq<char>>::empty()),
    {
        proof {
            if self.entries@.len() > 0 {
                let last = self.entries@.last();
                assert(self@.contains_key(last.0@));
                assert(!Map::<Seq<char>, Seq<char>>::empty().contains_key(last.0@));
            }
        }
        self.entries.len() == 0
    }

    /// Stores `error` under `key`, overwriting any prior entry at that key.
    pub fn insert(&mut self, key: ErrorKey, error: ErrorValue)
        ensures
            final(self)@ == old(self)@.insert(key@, error@),
    {
        let handle: Arc<ErrorValue> = Arc::new(error);
        let _stale = self.remove(&key);
        proof {
            use_type_invariant(&*self);
            lemma_entries_map_contains(self.entries@, key@);
        }
        let ghost mid: Seq<(ErrorKey, Arc<ErrorValue>)> = self.entries@;
        let ghost entry: (ErrorKey, Arc<ErrorValue>) = (key, handle);
        let mut entries: Vec<(ErrorKey, Arc<ErrorValue>)> = Vec::new();
        std::mem::swap(&mut entries, &mut self.entries);
        entries.push((key, handle));
        proof {
            lemma_entries_map_push(mid, entry);
            assert(distinct_keys(entries@)) by {
                assert forall|i: int, j: int|
                    0 <= i < j < entries@.len() implies entries@[i].0@ != entries@[j].0@ by {
                    if j < mid.len() {
                        assert(entries@[i] == mid[i]);
                        assert(entries@[j] == mid[j]);
                    } else {
                        assert(entries@[i] == mid[i]);
                        assert(entries@[j].0@ == entry.0@);
                    }
                }
            }
            assert(old(self)@.remove(entry.0@).insert(entry.0@, entry.1@) =~= old(self)@.insert(
                entry.0@,
                entry.1@,
            ));
        }
        std::mem::swap(&mut entries, &mut self.entries);
    }

    /// Stores `error` under the catch-all key, for failures raised outside
    /// any specific render position; successive calls overwrite each other.
    pub fn insert_with_default_key(&mut self, error: ErrorValue)
        ensures
            final(self)@ == old(self)@.insert(Seq::<char>::empty(), error@),
    {
        self.insert(Default::default(), error)
    }

    /// Removes the entry at `key`, returning the shared handle to the stored
    /// error; a no-op returning `None` if the key is absent.
    pub fn remove(&mut self, key: &ErrorKey) -> (removed: Option<Arc<ErrorValue>>)
        ensures
            final(self)@ == old(self)@.remove(key@),
            !old(self)@.contains_key(key@) ==> final(self)@ == old(self)@ && removed is None,
            old(self)@.contains_key(key@) ==> (removed matches Some(e) && e@ == old(self)@[key@]),
    {
        proof {
            use_type_invariant(&*self);
            lemma_entries_map_contains(self.entries@, key@);
        }
        match find_index(&self.entries, key) {
            Some(i) => {
                proof {
                    lemma_entries_map_index(self.entries@, i as int);
                    lemma_entries_map_remove(self.entries@, i as int);
                    assert forall|a: int, b: int|
                        0 <= a < b < self.entries@.remove(i as int).len() implies self.entries@.remove(
                        i as int,
                    )[a].0@ != self.entries@.remove(i as int)[b].0@ by {
                        let s = self.entries@;
                        let ra = if a < i { a } else { a + 1 };
                        let rb = if b < i { b } else { b + 1 };
                        assert(s.remove(i as int)[a] == s[ra]);
                        assert(s.remove(i as int)[b] == s[rb]);
                    }
                }
                let mut entries: Vec<(ErrorKey, Arc<ErrorValue>)> = Vec::new();
                std::mem::swap(&mut entries, &mut self.entries);
                let (_k, value) = entries.remove(i);
                std::mem::swap(&mut entries, &mut self.entries);
                Some(value)
            },
            None => {
                proof {
                    assert(self@.remove(key@) =~= self@);
                }
                None
            },
        }
    }
}

impl Default for Errors {
    /// An empty collection.
    fn default() -> (e: Self)
        ensures
            e@ == Map::<Seq<char>, Seq<char>>::empty(),
    {
        Errors::new()
    }
}

/// The views of a sequence of entries: each entry as its (key, description)
/// pair.
spec fn pair_views(s: Seq<(ErrorKey, Arc<ErrorValue>)>) -> Seq<(Seq<char>, Seq<char>)> {
    s.map_values(|e: (ErrorKey, Arc<ErrorValue>)| (e.0@, e.1@))
}

/// An iterator over all the errors contained in the [`Errors`] struct, in
/// unspecified order.
pub struct Iter<'a> {
    entries: &'a Vec<(ErrorKey, Arc<ErrorValue>)>,
    pos: usize,
}

impl<'a> Iter<'a> {
    /// The (key, description) pairs this iterator ranges over.
    pub closed spec fn pairs(&self) -> Seq<(Seq<char>, Seq<char>)> {
        pair_views(self.entries@)
    }

    /// How many pairs have been yielded so far.
    pub closed spec fn cursor(&self) -> int {
        self.pos as int
    }

    /// The next (key, error) pair, or `None` once all pairs have been
    /// yielded.
    pub fn next(&mut self) -> (item: Option<(&'a ErrorKey, &'a Arc<ErrorValue>)>)
        ensures
            final(self).pairs() == old(self).pairs(),
            old(self).cursor() < old(self).pairs().len() ==> (item matches Some(p)
                && final(self).cursor() == old(self).cursor() + 1
                && p.0@ == old(self).pairs()[old(self).cursor()].0
                && p.1@ == old(self).pairs()[old(self).cursor()].1),
            old(self).cursor() >= old(self).pairs().len() ==> item is None && final(self).cursor()
                == old(self).cursor(),
    {
        let entries = self.entries;
        if self.pos < entries.len() {
            let pair = &entries[self.pos];
            self.pos = self.pos + 1;
            Some((&pair.0, &pair.1))
        } else {
            None
        }
    }
}

/// An owning iterator over all the errors contained in the [`Errors`]
/// struct, in unspecified order.
pub struct IntoIter {
    entries: Vec<(ErrorKey, Arc<ErrorValue>)>,
}

impl IntoIter {
    /// The (key, description) pairs not yet yielded.
    pub closed spec fn remaining(&self) -> Seq<(Seq<char>, Seq<char>)> {
        pair_views(self.entries@)
    }

    /// The next (key, error) pair, taking ownership of it, or `None` once
    /// all pairs have been yielded.
    pub fn next(&mut self) -> (item: Option<(ErrorKey, Arc<ErrorValue>)>)
        ensures
            old(self).remaining().len() > 0 ==> (item matches Some(p)
                && p.0@ == old(self).remaining().last().0
                && p.1@ == old(self).remaining().last().1
                && final(self).remaining() == old(self).remaining().drop_last()),
            old(self).remaining().len() == 0 ==> item is None && final(self).remaining() == old(
                self,
            ).remaining(),
    {
        proof {
            if self.entries@.len() > 0 {
                assert(pair_views(self.entries@.drop_last()) =~= pair_views(
                    self.entries@,
                ).drop_last());
            }
        }
        self.entries.pop()
    }
}

impl Errors {
    /// An iterator over all the errors, in arbitrary order. Every stored
    /// entry appears exactly once; it yields no pairs exactly when the
    /// collection is empty.
    pub fn iter(&self) -> (it: Iter<'_>)
        ensures
            it.cursor() == 0,
            forall|i: int|
                0 <= i < it.pairs().len() ==> self@.contains_key(#[trigger] it.pairs()[i].0)
                    && self@[it.pairs()[i].0] == it.pairs()[i].1,
            forall|k: Seq<char>|
                #[trigger] self@.contains_key(k) ==> exists|i: int|
                    0 <= i < it.pairs().len() && #[trigger] it.pairs()[i].0 == k,
            forall|i: int, j: int|
                0 <= i < j < it.pairs().len() ==> #[trigger] it.pairs()[i].0 != #[trigger] it.pairs()[j].0,
            (it.pairs().len() == 0) <==> (self@ == Map::<Seq<char>, Seq<char>>::empty()),
    {
        proof {
            use_type_invariant(self);
            lemma_pair_views_agree(self.entries@);
        }
        Iter { entries: &self.entries, pos: 0 }
    }

    /// Consuming iteration over all the errors, in arbitrary order; the
    /// pairs it will yield are exactly the stored entries.
    pub fn into_iter(self) -> (it: IntoIter)
        ensures
            forall|i: int|
                0 <= i < it.remaining().len() ==> self@.contains_key(
                    #[trigger] it.remaining()[i].0,
                ) && self@[it.remaining()[i].0] == it.remaining()[i].1,
            forall|k: Seq<char>|
                #[trigger] self@.contains_key(k) ==> exists|i: int|
                    0 <= i < it.remaining().len() && #[trigger] it.remaining()[i].0 == k,
            forall|i: int, j: int|
                0 <= i < j < it.remaining().len() ==> #[trigger] it.remaining()[i].0
                    != #[trigger] it.remaining()[j].0,
            (it.remaining().len() == 0) <==> (self@ == Map::<Seq<char>, Seq<char>>::empty()),
    {
        proof {
            use_type_invariant(&self);
            lemma_pair_views_agree(self.entries@);
        }
        IntoIter { entries: self.entries }
    }
}

/// The pair views of a distinct-keyed entry sequence list exactly the pairs
/// of the mapping it denotes.
proof fn lemma_pair_views_agree(s: Seq<(ErrorKey, Arc<ErrorValue>)>)
    requires
        distinct_keys(s),
    ensures
        forall|i: int|
            0 <= i < pair_views(s).len() ==> entries_map(s).contains_key(
                #[trigger] pair_views(s)[i].0,
            ) && entries_map(s)[pair_views(s)[i].0] == pair_views(s)[i].1,
        forall|k: Seq<char>|
            #[trigger] entries_map(s).contains_key(k) ==> exists|i: int|
                0 <= i < pair_views(s).len() && #[trigger] pair_views(s)[i].0 == k,
        forall|i: int, j: int|
            0 <= i < j < pair_views(s).len() ==> #[trigger] pair_views(s)[i].0
                != #[trigger] pair_views(s)[j].0,
        (pair_views(s).len() == 0) <==> (entries_map(s) == Map::<Seq<char>, Seq<char>>::empty()),
{
    assert forall|i: int|
        0 <= i < pair_views(s).len() implies entries_map(s).contains_key(
        #[trigger] pair_views(s)[i].0,
    ) && entries_map(s)[pair_views(s)[i].0] == pair_views(s)[i].1 by {
        lemma_entries_map_index(s, i);
    }
    assert forall|k: Seq<char>| #[trigger]
        entries_map(s).contains_key(k) implies exists|i: int|
        0 <= i < pair_views(s).len() && #[trigger] pair_views(s)[i].0 == k by {
        lemma_entries_map_contains(s, k);
        let i = choose|i: int| 0 <= i < s.len() && s[i].0@ == k;
        assert(pair_views(s)[i].0 == k);
    }
    if s.len() > 0 {
        lemma_entries_map_index(s, s.len() - 1);
        assert(entries_map(s) != Map::<Seq<char>, Seq<char>>::empty());
    }
}

/// Inserting an error at a key and then removing that key yields exactly the
/// inserted error, and afterwards the collection no longer contains the key;
/// every other key is left as it was.
pub proof fn lemma_insert_then_remove(m: Map<Seq<char>, Seq<char>>, k: Seq<char>, e: Seq<char>)
    ensures
        m.insert(k, e).contains_key(k),
        m.insert(k, e)[k] == e,
        !m.insert(k, e).remove(k).contains_key(k),
        forall|k2: Seq<char>|
            k2 != k ==> #[trigger] m.insert(k, e).remove(k).contains_key(k2) == m.contains_key(k2),
        forall|k2: Seq<char>|
            k2 != k && m.contains_key(k2) ==> #[trigger] m.insert(k, e).remove(k)[k2] == m[k2],
{
}

/// Removing an absent key leaves the collection unchanged.
pub proof fn lemma_remove_absent(m: Map<Seq<char>, Seq<char>>, k: Seq<char>)
    requires
        !m.contains_key(k),
    ensures
        m.remove(k) == m,
{
    assert(m.remove(k) =~= m);
}

/// Inserting twice at the same key leaves exactly one entry there, holding
/// the second value: the last write wins.
pub proof fn lemma_insert_overwrites(
    m: Map<Seq<char>, Seq<char>>,
    k: Seq<char>,
    e1: Seq<char>,
    e2: Seq<char>,
)
    ensures
        m.insert(k, e1).insert(k, e2) == m.insert(k, e2),
        m.insert(k, e1).insert(k, e2)[k] == e2,
{
    assert(m.insert(k, e1).insert(k, e2) =~= m.insert(k, e2));
}

/// The position of the entry carrying `key`, if any.
fn find_index(entries: &Vec<(ErrorKey, Arc<ErrorValue>)>, key: &ErrorKey) -> (found: Option<usize>)
    ensures
        match found {
            Some(i) => (i as int) < entries@.len() && entries@[i as int].0@ == key@,
            None => forall|i: int| 0 <= i < entries@.len() ==> entries@[i].0@ != key@,
        },
{
    let mut i: usize = 0;
    while i < entries.len()
        invariant
            i <= entries@.len(),
            forall|j: int| 0 <= j < i ==> entries@[j].0@ != key@,
        decreases entries@.len() - i,
    {
        if entries[i].0 == *key {
            return Some(i);
        }
        i = i + 1;
    }
    None
}

} // verus!
