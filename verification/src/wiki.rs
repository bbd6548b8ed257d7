//! The documents of the corpus, and a search through their abstracts that
//! needs no index.

use vstd::prelude::*;
use crate::text::{chars_of, trim, trimmed, Delimiter};

verus! {

/// One document of the corpus: a title, the address it was taken from and
/// the abstract that is indexed.
#[derive(Debug, PartialEq)]
pub struct WikiDoc {
    pub id: String,
    pub title: String,
    pub url: String,
    pub abstract_text: String,
}

impl WikiDoc {
    /// A document that has no identifier yet.
    pub fn new(title: String, url: String, abstract_text: String) -> (doc: WikiDoc)
        ensures
            doc.id@ == Seq::<char>::empty(),
            doc.title == title,
            doc.url == url,
            doc.abstract_text == abstract_text,
    {
        WikiDoc { id: String::new(), title, url, abstract_text }
    }
}

/// `Uuid::new_v4` of the crate uuid, written out as `to_string` does: a
/// random identifier in its hyphenated form, which has 36 characters. Which
/// identifier comes is not known.
#[verifier::external_body]
fn fresh_id() -> (id: String)
    ensures
        id@.len() == 36,
{
    uuid::Uuid::new_v4().to_string()
}

/// Gives each document a fresh random identifier. Titles, addresses and
/// abstracts stay.
pub fn assign_ids(docs: &mut Vec<WikiDoc>)
    ensures
        final(docs)@.len() == old(docs)@.len(),
        forall|i: int|
            0 <= i < old(docs)@.len() ==> (#[trigger] final(docs)@[i]).id@.len() == 36
                && final(docs)@[i].title == old(docs)@[i].title && final(docs)@[i].url == old(
                docs,
            )@[i].url && final(docs)@[i].abstract_text == old(docs)@[i].abstract_text,
{
    let ghost before = docs@;
    let mut i: usize = 0;
    while i < docs.len()
        invariant
            i <= docs@.len(),
            docs@.len() == before.len(),
            forall|k: int|
                0 <= k < i ==> (#[trigger] docs@[k]).id@.len() == 36 && docs@[k].title
                    == before[k].title && docs@[k].url == before[k].url && docs@[k].abstract_text
                    == before[k].abstract_text,
            forall|k: int| i <= k < before.len() ==> #[trigger] docs@[k] == before[k],
        decreases docs@.len() - i,
    {
        docs[i].id = fresh_id();
        i += 1;
    }
}

/// Whether `needle` stands in `hay` from place `k` on.
pub open spec fn occurs_at(needle: Seq<char>, hay: Seq<char>, k: int) -> bool {
    0 <= k && k + needle.len() <= hay.len() && hay.subrange(k, k + needle.len()) == needle
}

/// Whether `needle` stands somewhere in `hay`. The empty text stands in
/// every text.
pub open spec fn occurs_in(needle: Seq<char>, hay: Seq<char>) -> bool {
    exists|k: int| occurs_at(needle, hay, k)
}

/// The documents whose abstract holds `needle`.
pub open spec fn holding(needle: Seq<char>) -> spec_fn(WikiDoc) -> bool {
    |d: WikiDoc| occurs_in(needle, d.abstract_text@)
}

/// The documents that a list of references leads to.
pub open spec fn referred(refs: Seq<&WikiDoc>) -> Seq<WikiDoc> {
    Seq::new(refs.len(), |i: int| *refs[i])
}

/// Whether `needle` stands somewhere in `hay`.
pub fn contains_text(hay: &Vec<char>, needle: &Vec<char>) -> (found: bool)
    ensures
        found == occurs_in(needle@, hay@),
{
    if needle.len() > hay.len() {
        assert forall|k: int| !occurs_at(needle@, hay@, k) by {}
        return false;
    }
    let last = hay.len() - needle.len();
    let mut k: usize = 0;
    while k <= last
        invariant
            needle.len() <= hay.len(),
            last == hay.len() - needle.len(),
            k <= last + 1,
            forall|j: int| 0 <= j < k ==> !occurs_at(needle@, hay@, j),
        decreases last + 1 - k,
    {
        let mut j: usize = 0;
        while j < needle.len() && hay[k + j] == needle[j]
            invariant
                needle.len() <= hay.len(),
                last == hay.len() - needle.len(),
                k <= last,
                j <= needle.len(),
                hay@.subrange(k as int, k + j) == needle@.take(j as int),
            decreases needle.len() - j,
        {
            j += 1;
            assert(hay@.subrange(k as int, k + j) =~= hay@.subrange(k as int, k + j - 1).push(
                hay@[k + j - 1],
            ));
            assert(needle@.take(j as int) =~= needle@.take(j - 1).push(needle@[j - 1]));
        }
        if j == needle.len() {
            assert(needle@.take(j as int) =~= needle@);
            assert(occurs_at(needle@, hay@, k as int));
            return true;
        }
        assert(!occurs_at(needle@, hay@, k as int)) by {
            if occurs_at(needle@, hay@, k as int) {
                assert(hay@.subrange(k as int, k + needle.len())[j as int] == needle@[j as int]);
            }
        }
        k += 1;
    }
    assert forall|j: int| !occurs_at(needle@, hay@, j) by {}
    false
}

/// The documents whose abstract holds `query`, blanks at its ends left out;
/// in the order of `docs`.
pub fn naive_search<'a>(query: &'a str, docs: &'a Vec<WikiDoc>) -> (res: Vec<&'a WikiDoc>)
    ensures
        referred(res@) == docs@.filter(holding(trimmed(query@, Delimiter::Blank))),
{
    let needle = trim(&chars_of(query), Delimiter::Blank);
    let ghost keep = holding(needle@);
    let mut res: Vec<&'a WikiDoc> = Vec::new();
    let mut i: usize = 0;
    proof {
        reveal(Seq::filter);
        assert(referred(res@) =~= docs@.take(0).filter(keep));
    }
    while i < docs.len()
        invariant
            i <= docs@.len(),
            needle@ == trimmed(query@, Delimiter::Blank),
            keep == holding(needle@),
            referred(res@) == docs@.take(i as int).filter(keep),
        decreases docs@.len() - i,
    {
        let doc = &docs[i];
        let ghost before = referred(res@);
        proof {
            reveal(Seq::filter);
            assert(docs@.take(i + 1).drop_last() =~= docs@.take(i as int));
            assert(docs@.take(i + 1).last() == docs@[i as int]);
        }
        if contains_text(&chars_of(doc.abstract_text.as_str()), &needle) {
            res.push(doc);
            assert(referred(res@) =~= before.push(docs@[i as int]));
        }
        i += 1;
    }
    assert(docs@.take(docs@.len() as int) =~= docs@);
    res
}

} // verus!
