//! Spec-level views of collections of URL strings.
//!
//! Throughout the crate a URL is a `String` and its mathematical value is its
//! character sequence; a collection of URLs is viewed either as the sequence
//! of those character sequences (`url_seq`) or as the set they form
//! (`url_set`).
use vstd::prelude::*;

verus! {

/// The sequence of character sequences held by a sequence of strings.
pub open spec fn url_seq(s: Seq<String>) -> Seq<Seq<char>> {
    Seq::new(s.len(), |i: int| s[i]@)
}

/// The set of character sequences held by a sequence of strings.
pub open spec fn url_set(s: Seq<String>) -> Set<Seq<char>> {
    url_seq(s).to_set()
}

/// Appending a string appends its view.
pub proof fn lemma_url_seq_push(s: Seq<String>, x: String)
    ensures
        url_seq(s.push(x)) == url_seq(s).push(x@),
{
    assert(url_seq(s.push(x)) =~= url_seq(s).push(x@));
}

/// Appending an element inserts it into the sequence's set.
pub proof fn lemma_to_set_push(s: Seq<Seq<char>>, x: Seq<char>)
    ensures
        s.push(x).to_set() == s.to_set().insert(x),
{
    assert forall|u: Seq<char>| s.push(x).to_set().contains(u) <==> s.to_set().insert(x).contains(
        u,
    ) by {
        if s.push(x).contains(u) {
            let i = choose|i: int| 0 <= i < s.push(x).len() && s.push(x)[i] == u;
            if i < s.len() {
                assert(s[i] == u);
            }
        }
        if s.contains(u) {
            let i = choose|i: int| 0 <= i < s.len() && s[i] == u;
            assert(s.push(x)[i] == u);
        }
        if u == x {
            assert(s.push(x)[s.len() as int] == u);
        }
    }
    assert(s.push(x).to_set() =~= s.to_set().insert(x));
}

/// A one-element sequence of strings holds exactly its element's view.
pub proof fn lemma_url_set_singleton(s: Seq<String>)
    requires
        s.len() == 1,
    ensures
        url_set(s) == Set::empty().insert(s[0]@),
{
    assert forall|u: Seq<char>|
        url_set(s).contains(u) <==> Set::empty().insert(s[0]@).contains(u) by {
        if url_seq(s).contains(u) {
            let i = choose|i: int| 0 <= i < url_seq(s).len() && url_seq(s)[i] == u;
            assert(i == 0);
        }
        if u == s[0]@ {
            assert(url_seq(s)[0] == u);
        }
    }
    assert(url_set(s) =~= Set::empty().insert(s[0]@));
}

/// Extending a prefix by one element takes in exactly that element.
pub proof fn lemma_take_push(s: Seq<Seq<char>>, i: int)
    requires
        0 <= i < s.len(),
    ensures
        s.take(i + 1) == s.take(i).push(s[i]),
{
    assert(s.take(i + 1) =~= s.take(i).push(s[i]));
}

/// Dropping the front element of a suffix removes exactly that element from
/// the suffix's set (the element may still occur further on).
pub proof fn lemma_skip_to_set(s: Seq<Seq<char>>, j: int)
    requires
        0 <= j < s.len(),
    ensures
        s.skip(j).to_set() == s.skip(j + 1).to_set().insert(s[j]),
{
    assert forall|u: Seq<char>|
        s.skip(j).to_set().contains(u) <==> s.skip(j + 1).to_set().insert(s[j]).contains(u) by {
        if s.skip(j).contains(u) {
            let i = choose|i: int| 0 <= i < s.skip(j).len() && s.skip(j)[i] == u;
            if i > 0 {
                assert(s.skip(j + 1)[i - 1] == u);
            }
        }
        if s.skip(j + 1).contains(u) {
            let i = choose|i: int| 0 <= i < s.skip(j + 1).len() && #[trigger] s.skip(j + 1)[i]
                == u;
            assert(s.skip(j)[i + 1] == u);
        }
        if u == s[j] {
            assert(s.skip(j)[0] == u);
        }
    }
    assert(s.skip(j).to_set() =~= s.skip(j + 1).to_set().insert(s[j]));
}

} // verus!
