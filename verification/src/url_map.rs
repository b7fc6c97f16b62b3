//! A mapping from URL strings to lists of URL strings, kept as an
//! association list in which the most recently added entry for a key is the
//! authoritative one. Both the result store and the in-memory link graph are
//! built on it.
use crate::urls::url_seq;
use vstd::prelude::*;

verus! {

/// The mapping an association list denotes: later entries win.
pub(crate) open spec fn map_of(entries: Seq<(String, Vec<String>)>) -> Map<
    Seq<char>,
    Seq<Seq<char>>,
>
    decreases entries.len(),
{
    if entries.len() == 0 {
        Map::empty()
    } else {
        map_of(entries.drop_last()).insert(entries.last().0@, url_seq(entries.last().1@))
    }
}

/// An entry whose key has no later occurrence gives the key's value.
proof fn lemma_map_of_match(entries: Seq<(String, Vec<String>)>, i: int)
    requires
        0 <= i < entries.len(),
        forall|j: int| i < j < entries.len() ==> entries[j].0@ != entries[i].0@,
    ensures
        map_of(entries).contains_key(entries[i].0@),
        map_of(entries)[entries[i].0@] == url_seq(entries[i].1@),
    decreases entries.len(),
{
    if i == entries.len() - 1 {
    } else {
        assert(entries.drop_last()[i] == entries[i]);
        lemma_map_of_match(entries.drop_last(), i);
    }
}

/// A key that occurs on no entry is absent from the mapping.
proof fn lemma_map_of_absent(entries: Seq<(String, Vec<String>)>, k: Seq<char>)
    requires
        forall|j: int| 0 <= j < entries.len() ==> entries[j].0@ != k,
    ensures
        !map_of(entries).contains_key(k),
    decreases entries.len(),
{
    if entries.len() > 0 {
        lemma_map_of_absent(entries.drop_last(), k);
    }
}

/// Every URL that some entry's list holds.
spec fn all_links_of(entries: Seq<(String, Vec<String>)>) -> Set<Seq<char>>
    decreases entries.len(),
{
    if entries.len() == 0 {
        Set::empty()
    } else {
        all_links_of(entries.drop_last()).union(url_seq(entries.last().1@).to_set())
    }
}

/// The mapping binds finitely many keys, to lists drawn from the finite
/// pool of listed URLs.
proof fn lemma_map_of_finite(entries: Seq<(String, Vec<String>)>)
    ensures
        map_of(entries).dom().finite(),
        all_links_of(entries).finite(),
        forall|k: Seq<char>| #[trigger]
            map_of(entries).contains_key(k) ==> map_of(entries)[k].to_set().subset_of(
                all_links_of(entries),
            ),
    decreases entries.len(),
{
    if entries.len() > 0 {
        lemma_map_of_finite(entries.drop_last());
    }
}

/// A mapping from URLs to URL lists. Its view is the mathematical map that
/// the entries denote; adding an entry for an existing key replaces the
/// key's value in that view.
pub(crate) struct UrlMap {
    entries: Vec<(String, Vec<String>)>,
}

impl View for UrlMap {
    type V = Map<Seq<char>, Seq<Seq<char>>>;

    closed spec fn view(&self) -> Map<Seq<char>, Seq<Seq<char>>> {
        map_of(self.entries@)
    }
}

impl UrlMap {
    /// Every URL that some bound list holds.
    pub(crate) closed spec fn links_acc(&self) -> Set<Seq<char>> {
        all_links_of(self.entries@)
    }

    /// The mapping binds finitely many keys, to lists drawn from the
    /// finite pool of listed URLs.
    pub(crate) proof fn lemma_finite(&self)
        ensures
            self@.dom().finite(),
            self.links_acc().finite(),
            forall|k: Seq<char>| #[trigger]
                self@.contains_key(k) ==> self@[k].to_set().subset_of(self.links_acc()),
    {
        lemma_map_of_finite(self.entries@);
    }

    /// The empty mapping.
    pub(crate) fn new() -> (m: UrlMap)
        ensures
            m@ == Map::<Seq<char>, Seq<Seq<char>>>::empty(),
    {
        UrlMap { entries: Vec::new() }
    }

    /// Binds `key` to `val`, replacing any earlier binding.
    pub(crate) fn put(&mut self, key: String, val: Vec<String>)
        ensures
            final (self)@ == old(self)@.insert(key@, url_seq(val@)),
    {
        let ghost before = self.entries@;
        self.entries.push((key, val));
        proof {
            assert(self.entries@.drop_last() =~= before);
        }
    }

    /// The value bound to `key`, if any.
    pub(crate) fn get<'a>(&'a self, key: &String) -> (r: Option<&'a Vec<String>>)
        ensures
            (match r {
                Some(v) => self@.contains_key(key@) && url_seq(v@) == self@[key@],
                None => !self@.contains_key(key@),
            }),
    {
        let mut i: usize = self.entries.len();
        while i > 0
            invariant
                i <= self.entries.len(),
                forall|j: int| i <= j < self.entries@.len() ==> self.entries@[j].0@ != key@,
            decreases i,
        {
            i = i - 1;
            if self.entries[i].0 == *key {
                proof {
                    lemma_map_of_match(self.entries@, i as int);
                }
                return Some(&self.entries[i].1);
            }
        }
        proof {
            lemma_map_of_absent(self.entries@, key@);
        }
        None
    }

    /// Whether `key` has a binding.
    pub(crate) fn contains_key(&self, key: &String) -> (r: bool)
        ensures
            r == self@.contains_key(key@),
    {
        self.get(key).is_some()
    }
}

} // verus!
