//! The inverted index: for each term the list of the documents that hold
//! it, and the evaluation of boolean queries over those lists.

use vstd::prelude::*;
use vstd::hash_map::StringHashMap;
use crate::json::{decode_entries, encode_entries, json_entries, json_text, pairs};
use crate::postings::{
    all_documents, difference, intersect, intersect_not, intersection, is_ascending,
    lemma_ascending_of, lemma_ascending_of_own, merge, sorted_insert, union, universe,
    with_document,
};
use crate::query_parser::{
    classify, lemma_postfix_of_word, postfix_of, symbol_of, QueryParser, Symbol,
};
use crate::text::{
    chars_of, fragments, is_blank, is_paren, lowercase, split, strings_of, texts, Delimiter,
};
use crate::wiki::WikiDoc;

verus! {

/// Whether `p` can be the posting list of a term in an index of `doc_count`
/// documents: it is not empty, strictly ascending, and names documents of the
/// index only.
pub open spec fn valid_postings(p: Seq<usize>, doc_count: usize) -> bool {
    &&& p.len() > 0
    &&& is_ascending(p)
    &&& forall|k: int| 0 <= k < p.len() ==> p[k] < doc_count
}

/// Whether `p` can be the answer to a query over `doc_count` documents: it
/// is strictly ascending and names documents of the index only.
pub open spec fn is_result(p: Seq<usize>, doc_count: usize) -> bool {
    &&& is_ascending(p)
    &&& forall|k: int| 0 <= k < p.len() ==> p[k] < doc_count
}

/// Whether `m` can be the content of an index of `doc_count` documents: no
/// term is empty, and each posting list is valid.
pub open spec fn valid_index(m: Map<Seq<char>, Seq<usize>>, doc_count: usize) -> bool {
    forall|t: Seq<char>| #[trigger]
        m.contains_key(t) ==> t.len() > 0 && valid_postings(m[t], doc_count)
}

/// The posting list of `t` in `m`: empty where `m` does not know the term.
pub open spec fn postings_of(m: Map<Seq<char>, Seq<usize>>, t: Seq<char>) -> Seq<usize> {
    if m.contains_key(t) {
        m[t]
    } else {
        Seq::empty()
    }
}

/// The tokens of a text, each in its lowercase form, in the order of the
/// text.
pub open spec fn document_terms(text: Seq<char>) -> Seq<Seq<char>> {
    fragments(text, Delimiter::NonAlphanumeric).map_values(|t: Seq<char>| lowercase(t))
}

/// The index terms among `terms`, as a set: the empty text is no term.
pub open spec fn term_set(terms: Seq<Seq<char>>) -> Set<Seq<char>> {
    Set::new(|t: Seq<char>| t.len() > 0 && terms.contains(t))
}

/// The content `m` after a document with the terms `terms` was added under
/// the number `doc_id`: the document is in the list of each of its terms,
/// once, and the other lists are as they were.
pub open spec fn with_terms(
    m: Map<Seq<char>, Seq<usize>>,
    terms: Set<Seq<char>>,
    doc_id: usize,
) -> Map<Seq<char>, Seq<usize>> {
    Map::new(
        |t: Seq<char>| m.contains_key(t) || terms.contains(t),
        |t: Seq<char>|
            if terms.contains(t) {
                with_document(postings_of(m, t), doc_id)
            } else {
                m[t]
            },
    )
}

/// What a stack of posting lists holds.
pub open spec fn lists_of(v: Seq<Vec<usize>>) -> Seq<Seq<usize>> {
    Seq::new(v.len(), |i: int| v[i]@)
}

/// One step of the evaluation of a postfix program over the content `m` of
/// an index of `doc_count` documents. A word pushes its posting list, `NOT`
/// replaces the top by its complement among all documents, `AND` and `OR`
/// replace the two topmost lists by their intersection and union. `None`
/// where an operator finds too few lists.
pub open spec fn eval_step(
    m: Map<Seq<char>, Seq<usize>>,
    doc_count: usize,
    stack: Seq<Seq<usize>>,
    token: Seq<char>,
) -> Option<Seq<Seq<usize>>> {
    let n = stack.len() as int;
    match symbol_of(token) {
        Symbol::Not => if n < 1 {
            None
        } else {
            Some(stack.take(n - 1).push(difference(universe(doc_count as nat), stack[n - 1])))
        },
        Symbol::And => if n < 2 {
            None
        } else {
            Some(stack.take(n - 2).push(intersection(stack[n - 2], stack[n - 1])))
        },
        Symbol::Or => if n < 2 {
            None
        } else {
            Some(stack.take(n - 2).push(union(stack[n - 2], stack[n - 1])))
        },
        _ => Some(stack.push(postings_of(m, token))),
    }
}

/// The stack after all of `program`, or `None` where a step fails.
pub open spec fn eval_stack(
    m: Map<Seq<char>, Seq<usize>>,
    doc_count: usize,
    program: Seq<Seq<char>>,
) -> Option<Seq<Seq<usize>>>
    decreases program.len(),
{
    if program.len() == 0 {
        Some(Seq::empty())
    } else {
        match eval_stack(m, doc_count, program.drop_last()) {
            None => None,
            Some(stack) => eval_step(m, doc_count, stack, program.last()),
        }
    }
}

/// The result of a postfix program: the list on top of the stack at its end,
/// the empty list where the stack is empty, and `None` where an operator
/// found too few lists.
pub open spec fn eval(
    m: Map<Seq<char>, Seq<usize>>,
    doc_count: usize,
    program: Seq<Seq<char>>,
) -> Option<Seq<usize>> {
    match eval_stack(m, doc_count, program) {
        None => None,
        Some(stack) => Some(
            if stack.len() == 0 {
                Seq::empty()
            } else {
                stack.last()
            },
        ),
    }
}

/// The documents that match a query, in ascending order; `None` where the
/// query is malformed.
pub open spec fn answer(m: Map<Seq<char>, Seq<usize>>, doc_count: usize, query: Seq<char>) -> Option<
    Seq<usize>,
> {
    match postfix_of(query) {
        None => None,
        Some(program) => eval(m, doc_count, program),
    }
}

/// An ascending list whose documents all come from one of two results is a
/// result itself.
proof fn lemma_is_result(res: Seq<usize>, l: Seq<usize>, r: Seq<usize>, doc_count: usize)
    requires
        is_ascending(res),
        forall|x: usize| res.contains(x) ==> l.contains(x) || r.contains(x),
        forall|k: int| 0 <= k < l.len() ==> l[k] < doc_count,
        forall|k: int| 0 <= k < r.len() ==> r[k] < doc_count,
    ensures
        is_result(res, doc_count),
{
    assert forall|k: int| 0 <= k < res.len() implies res[k] < doc_count by {
        let x = res[k];
        assert(res.contains(x));
        if l.contains(x) {
            let j = choose|j: int| 0 <= j < l.len() && l[j] == x;
        } else {
            let j = choose|j: int| 0 <= j < r.len() && r[j] == x;
        }
    }
}

/// An evaluation that has failed on the first `i` tokens fails on the whole
/// program.
proof fn lemma_eval_stays_failed(
    m: Map<Seq<char>, Seq<usize>>,
    doc_count: usize,
    program: Seq<Seq<char>>,
    i: int,
)
    requires
        0 <= i <= program.len(),
        eval_stack(m, doc_count, program.take(i)) is None,
    ensures
        eval_stack(m, doc_count, program) is None,
    decreases program.len() - i,
{
    if i == program.len() {
        assert(program.take(i) =~= program);
    } else {
        assert(program.take(i + 1).drop_last() =~= program.take(i));
        lemma_eval_stays_failed(m, doc_count, program, i + 1);
    }
}

/// A query that is one word is answered by the posting list of the word:
/// the empty list where the index does not know the word.
pub proof fn lemma_single_term_query(m: Map<Seq<char>, Seq<usize>>, doc_count: usize, w: Seq<char>)
    requires
        w.len() > 0,
        forall|k: int| 0 <= k < w.len() ==> !is_blank(#[trigger] w[k]) && !is_paren(w[k]),
        symbol_of(w) == Symbol::Word,
    ensures
        answer(m, doc_count, w) == Some(postings_of(m, w)),
{
    lemma_postfix_of_word(w);
    let program = seq![w];
    assert(program.drop_last() =~= Seq::<Seq<char>>::empty());
    assert(program.last() == w);
    let empty = Seq::<Seq<usize>>::empty();
    assert(eval_stack(m, doc_count, program.drop_last()) == Some(empty));
    assert(eval_step(m, doc_count, empty, w) == Some(empty.push(postings_of(m, w))));
    assert(eval_stack(m, doc_count, program) == Some(empty.push(postings_of(m, w))));
}

/// The content `m` after the documents of `docs`, each given by its terms
/// and its number, were added in turn.
pub open spec fn with_documents(
    m: Map<Seq<char>, Seq<usize>>,
    docs: Seq<(Seq<Seq<char>>, usize)>,
) -> Map<Seq<char>, Seq<usize>>
    decreases docs.len(),
{
    if docs.len() == 0 {
        m
    } else {
        with_terms(with_documents(m, docs.drop_last()), term_set(docs.last().0), docs.last().1)
    }
}

/// The order of the terms within a document does not matter: two runs of
/// documents with the same numbers, in which each document has the same
/// terms as often, in whatever order, give the same content.
pub proof fn lemma_term_order_irrelevant(
    m: Map<Seq<char>, Seq<usize>>,
    first: Seq<(Seq<Seq<char>>, usize)>,
    second: Seq<(Seq<Seq<char>>, usize)>,
)
    requires
        first.len() == second.len(),
        forall|i: int|
            0 <= i < first.len() ==> (#[trigger] first[i]).1 == second[i].1
                && first[i].0.to_multiset() == second[i].0.to_multiset(),
    ensures
        with_documents(m, first) == with_documents(m, second),
    decreases first.len(),
{
    if first.len() > 0 {
        let a = first.last();
        let b = second.last();
        assert(a == first[first.len() - 1]);
        assert(b == second[second.len() - 1]);
        assert forall|i: int| 0 <= i < first.drop_last().len() implies (
        #[trigger] first.drop_last()[i]).1 == second.drop_last()[i].1
            && first.drop_last()[i].0.to_multiset() == second.drop_last()[i].0.to_multiset() by {
            assert(first.drop_last()[i] == first[i]);
            assert(second.drop_last()[i] == second[i]);
        }
        lemma_term_order_irrelevant(m, first.drop_last(), second.drop_last());
        a.0.to_multiset_ensures();
        b.0.to_multiset_ensures();
        assert forall|t: Seq<char>| a.0.contains(t) <==> b.0.contains(t) by {
            assert(a.0.to_multiset().count(t) == b.0.to_multiset().count(t));
        }
        assert(term_set(a.0) =~= term_set(b.0));
    }
}

/// The document numbers of a persisted list.
pub open spec fn as_documents(list: Seq<u64>) -> Seq<usize> {
    Seq::new(list.len(), |k: int| list[k] as usize)
}

/// Whether a persisted list can be a posting list of an index of `doc_count`
/// documents.
pub open spec fn list_acceptable(list: Seq<u64>, doc_count: usize) -> bool {
    &&& list.len() > 0
    &&& forall|k: int| 0 <= k < list.len() ==> list[k] < doc_count
    &&& forall|a: int, b: int| 0 <= a < b < list.len() ==> list[a] < list[b]
}

/// Whether persisted entries can be the content of an index of `doc_count`
/// documents: no term is empty or comes twice, and each list is not empty,
/// strictly ascending and names documents of the index only.
pub open spec fn acceptable(entries: Seq<(Seq<char>, Seq<u64>)>, doc_count: usize) -> bool {
    &&& forall|i: int|
        0 <= i < entries.len() ==> (#[trigger] entries[i]).0.len() > 0 && list_acceptable(
            entries[i].1,
            doc_count,
        )
    &&& forall|i: int, j: int|
        0 <= i < j < entries.len() ==> (#[trigger] entries[i]).0 != (#[trigger] entries[j]).0
}

/// The content that persisted entries describe.
pub open spec fn entries_map(entries: Seq<(Seq<char>, Seq<u64>)>) -> Map<Seq<char>, Seq<usize>>
    decreases entries.len(),
{
    if entries.len() == 0 {
        Map::empty()
    } else {
        entries_map(entries.drop_last()).insert(entries.last().0, as_documents(entries.last().1))
    }
}

/// Whether an index of `doc_count` documents reads the content `m` from the
/// JSON text `text`.
pub open spec fn reads_back(text: Seq<char>, m: Map<Seq<char>, Seq<usize>>, doc_count: usize) -> bool {
    json_entries(text) matches Some(entries) && acceptable(entries, doc_count) && entries_map(
        entries,
    ) == m
}

/// What an index of `doc_count` documents reads from a text, an index of
/// more documents reads too.
pub proof fn lemma_reads_back_grows(
    text: Seq<char>,
    m: Map<Seq<char>, Seq<usize>>,
    doc_count: usize,
    more: usize,
)
    requires
        reads_back(text, m, doc_count),
        doc_count <= more,
    ensures
        reads_back(text, m, more),
{
    let entries = json_entries(text)->0;
    assert forall|i: int| 0 <= i < entries.len() implies (#[trigger] entries[i]).0.len() > 0
        && list_acceptable(entries[i].1, more) by {
        assert(list_acceptable(entries[i].1, doc_count));
    }
}

/// Why an index could not be written or read.
#[derive(Clone, Copy, Debug, PartialEq, Eq, Structural)]
pub enum IndexError {
    /// The content of the index could not be written as JSON that reads
    /// back as this content.
    Encoding,
    /// The text is not a JSON object of arrays of document numbers.
    Syntax,
    /// The text describes no index of this corpus: a term is empty, or a
    /// list is empty, not strictly ascending, or names a document that the
    /// corpus does not have.
    Content,
}

/// An inverted index over a corpus of a known number of documents.
pub struct InvertedIndex {
    /// For each term its place in `terms` and `postings`.
    slots: StringHashMap<usize>,
    /// The terms in the order in which they were first seen.
    terms: Vec<String>,
    /// The posting list of each term.
    postings: Vec<Vec<usize>>,
    doc_count: usize,
}

impl View for InvertedIndex {
    type V = Map<Seq<char>, Seq<usize>>;

    /// The posting list of each term.
    closed spec fn view(&self) -> Map<Seq<char>, Seq<usize>> {
        Map::new(
            |t: Seq<char>| self.slots@.contains_key(t),
            |t: Seq<char>| self.postings@[self.slots@[t] as int]@,
        )
    }
}

impl InvertedIndex {
    /// The number of documents of the corpus, as given when the index was
    /// made. The documents have the numbers below it.
    pub closed spec fn doc_count(&self) -> usize {
        self.doc_count
    }

    /// The invariant of the index.
    pub closed spec fn wf(&self) -> bool {
        &&& self.terms@.len() == self.postings@.len()
        &&& forall|t: Seq<char>| #[trigger]
            self.slots@.contains_key(t) ==> self.slots@[t] < self.terms@.len()
                && self.terms@[self.slots@[t] as int]@ == t
        &&& forall|i: int|
            0 <= i < self.terms@.len() ==> self.slots@.contains_key(#[trigger] self.terms@[i]@)
                && self.slots@[self.terms@[i]@] == i
        &&& forall|i: int|
            0 <= i < self.postings@.len() ==> valid_postings(
                #[trigger] self.postings@[i]@,
                self.doc_count,
            )
        &&& forall|i: int| 0 <= i < self.terms@.len() ==> (#[trigger] self.terms@[i]@).len() > 0
    }

    /// Every posting list of an index is strictly ascending, holds no
    /// document twice, is not empty and names documents of the corpus only;
    /// and no term is empty.
    pub proof fn lemma_valid(&self)
        requires
            self.wf(),
        ensures
            valid_index(self@, self.doc_count()),
            forall|t: Seq<char>| #[trigger]
                self@.contains_key(t) ==> is_ascending(self@[t]) && self@[t].no_duplicates(),
    {
        assert forall|t: Seq<char>| #[trigger] self@.contains_key(t) implies t.len() > 0
            && valid_postings(self@[t], self.doc_count) && self@[t].no_duplicates() by {
            let i = self.slots@[t] as int;
            assert(self.terms@[i]@ == t);
            assert(valid_postings(self.postings@[i]@, self.doc_count));
            let p = self@[t];
            assert forall|a: int, b: int| 0 <= a < p.len() && 0 <= b < p.len() && a != b implies p[a]
                != p[b] by {
                if a < b {
                    assert(p[a] < p[b]);
                } else {
                    assert(p[b] < p[a]);
                }
            }
        }
    }

    /// An empty index for a corpus of `doc_count` documents.
    pub fn new(doc_count: usize) -> (index: InvertedIndex)
        ensures
            index.wf(),
            index@ == Map::<Seq<char>, Seq<usize>>::empty(),
            index.doc_count() == doc_count,
    {
        let index = InvertedIndex {
            slots: StringHashMap::new(),
            terms: Vec::new(),
            postings: Vec::new(),
            doc_count,
        };
        assert(index@ =~= Map::<Seq<char>, Seq<usize>>::empty());
        index
    }

    /// Cuts a text into its tokens: the runs of alphanumeric characters.
    pub fn tokenizer(phrase: String) -> (tokens: Vec<String>)
        ensures
            texts(tokens@) == fragments(phrase@, Delimiter::NonAlphanumeric),
    {
        let chars = chars_of(phrase.as_str());
        let pieces = split(&chars, Delimiter::NonAlphanumeric);
        strings_of(&pieces)
    }

    /// The lowercase form of each token.
    pub fn lowercase_filter(tokens: Vec<String>) -> (res: Vec<String>)
        ensures
            texts(res@) == texts(tokens@).map_values(|t: Seq<char>| lowercase(t)),
    {
        let mut res: Vec<String> = Vec::new();
        let mut i: usize = 0;
        while i < tokens.len()
            invariant
                i <= tokens.len(),
                res@.len() == i,
                forall|k: int| 0 <= k < i ==> (#[trigger] res@[k])@ == lowercase(tokens@[k]@),
            decreases tokens.len() - i,
        {
            let lowered = tokens[i].as_str().to_lowercase();
            res.push(lowered);
            i += 1;
        }
        assert(texts(res@) =~= texts(tokens@).map_values(|t: Seq<char>| lowercase(t)));
        res
    }

    /// Puts document `doc_id` into the posting list of `term`.
    fn add_posting(&mut self, term: String, doc_id: usize)
        requires
            old(self).wf(),
            doc_id < old(self).doc_count(),
            term@.len() > 0,
        ensures
            final(self).wf(),
            final(self).doc_count() == old(self).doc_count(),
            final(self)@ == old(self)@.insert(
                term@,
                with_document(postings_of(old(self)@, term@), doc_id),
            ),
            final(self)@[term@].contains(doc_id),
    {
        let ghost before = self@;
        let found = match self.slots.get(term.as_str()) {
            Some(slot) => Some(*slot),
            None => None,
        };
        match found {
            Some(slot) => {
                let ghost held = self.postings@;
                assert(valid_postings(held[slot as int]@, self.doc_count));
                sorted_insert(&mut self.postings[slot], doc_id);
                proof {
                    let list = self.postings@[slot as int]@;
                    assert(list.contains(doc_id));
                    assert forall|i: int| 0 <= i < self.postings@.len() implies valid_postings(
                        #[trigger] self.postings@[i]@,
                        self.doc_count,
                    ) by {
                        if i == slot {
                            assert forall|k: int| 0 <= k < list.len() implies list[k]
                                < self.doc_count by {
                                assert(list.contains(list[k]));
                                if list[k] != doc_id {
                                    let j = choose|j: int|
                                        0 <= j < held[slot as int]@.len() && held[slot as int]@[j]
                                            == list[k];
                                }
                            }
                        } else {
                            assert(self.postings@[i] == held[i]);
                        }
                    }
                    assert(self@ =~= before.insert(
                        term@,
                        with_document(postings_of(before, term@), doc_id),
                    ));
                }
            },
            None => {
                let slot = self.terms.len();
                let mut list: Vec<usize> = Vec::new();
                list.push(doc_id);
                proof {
                    assert(list@ =~= seq![doc_id]);
                    assert(list@[0] == doc_id);
                    assert(Seq::<usize>::empty().to_set().insert(doc_id) =~= set![doc_id]);
                    assert forall|x: usize| list@.contains(x) <==> set![doc_id].contains(x) by {
                        if x == doc_id {
                            assert(list@[0] == x);
                        }
                    }
                    lemma_ascending_of(list@, set![doc_id]);
                }
                self.slots.insert(term.clone(), slot);
                self.terms.push(term);
                self.postings.push(list);
                proof {
                    assert forall|t: Seq<char>| #[trigger]
                        self.slots@.contains_key(t) implies self.slots@[t] < self.terms@.len()
                        && self.terms@[self.slots@[t] as int]@ == t by {}
                    assert(self@ =~= before.insert(
                        term@,
                        with_document(postings_of(before, term@), doc_id),
                    ));
                }
            },
        }
    }

    /// Adds a document to the index under the number `doc_id`: the number
    /// is put into the posting list of each term of the abstract, once.
    pub fn add_wiki_doc(&mut self, doc: &WikiDoc, doc_id: usize)
        requires
            old(self).wf(),
            doc_id < old(self).doc_count(),
        ensures
            final(self).wf(),
            final(self).doc_count() == old(self).doc_count(),
            final(self)@ == with_terms(
                old(self)@,
                term_set(document_terms(doc.abstract_text@)),
                doc_id,
            ),
    {
        let tokens = InvertedIndex::tokenizer(doc.abstract_text.clone());
        let lowered_tokens = InvertedIndex::lowercase_filter(tokens);
        let ghost all = texts(lowered_tokens@);
        let ghost before = self@;
        assert(all == document_terms(doc.abstract_text@));
        let mut i: usize = 0;
        assert(self@ =~= with_terms(before, term_set(all.take(0)), doc_id));
        while i < lowered_tokens.len()
            invariant
                i <= lowered_tokens.len(),
                all == texts(lowered_tokens@),
                self.wf(),
                doc_id < self.doc_count(),
                self.doc_count() == old(self).doc_count(),
                self@ == with_terms(before, term_set(all.take(i as int)), doc_id),
                forall|t: Seq<char>|
                    term_set(all.take(i as int)).contains(t) ==> (#[trigger] self@[t]).contains(
                        doc_id,
                    ),
            decreases lowered_tokens.len() - i,
        {
            let ghost seen = term_set(all.take(i as int));
            let ghost held = self@;
            let ghost t = all[i as int];
            let term = lowered_tokens[i].clone();
            assert(term@ == t);
            let ghost shorter = all.take(i as int);
            let ghost longer = all.take(i + 1);
            let ghost next = term_set(longer);
            proof {
                assert forall|x: Seq<char>| next.contains(x) <==> (seen.contains(x) || (x == t
                    && t.len() > 0)) by {
                    if longer.contains(x) {
                        let k = choose|k: int| 0 <= k < longer.len() && longer[k] == x;
                        if k < i {
                            assert(shorter[k] == x);
                        }
                    }
                    if shorter.contains(x) {
                        let k = choose|k: int| 0 <= k < shorter.len() && shorter[k] == x;
                        assert(longer[k] == x);
                    }
                    if x == t {
                        assert(longer[i as int] == x);
                    }
                }
            }
            if !term.as_str().is_empty() {
                proof {
                    self.lemma_valid();
                    if seen.contains(t) {
                        let list = held[t];
                        assert(held.contains_key(t));
                        assert(valid_postings(list, self.doc_count()));
                        assert(list.contains(doc_id));
                        assert(list.to_set().insert(doc_id) =~= list.to_set());
                        lemma_ascending_of_own(list);
                    }
                }
                self.add_posting(term, doc_id);
                assert(self@ =~= with_terms(before, next, doc_id));
            } else {
                assert(next =~= seen);
            }
            i += 1;
        }
        assert(all.take(lowered_tokens.len() as int) =~= all);
    }

    /// Runs a postfix program over the index.
    pub fn evaluate(&self, program: &Vec<String>) -> (r: Option<Vec<usize>>)
        requires
            self.wf(),
        ensures
            match r {
                Some(list) => eval(self@, self.doc_count(), texts(program@)) == Some(list@)
                    && is_result(list@, self.doc_count()),
                None => eval(self@, self.doc_count(), texts(program@)) is None,
            },
    {
        let ghost all = texts(program@);
        let ghost m = self@;
        let everything = all_documents(self.doc_count);
        let mut stack: Vec<Vec<usize>> = Vec::new();
        let mut i: usize = 0;
        assert(lists_of(stack@) =~= Seq::<Seq<usize>>::empty());
        while i < program.len()
            invariant
                i <= program.len(),
                self.wf(),
                all == texts(program@),
                m == self@,
                everything@ == universe(self.doc_count() as nat),
                is_ascending(everything@),
                eval_stack(m, self.doc_count(), all.take(i as int)) == Some(lists_of(stack@)),
                forall|k: int|
                    0 <= k < stack@.len() ==> is_result(#[trigger] stack@[k]@, self.doc_count()),
            decreases program.len() - i,
        {
            let ghost before = lists_of(stack@);
            let ghost token = program@[i as int]@;
            assert(all.take(i + 1).drop_last() =~= all.take(i as int));
            assert(all.take(i + 1).last() == token);
            let symbol = classify(program[i].as_str());
            let ghost held = stack@;
            match symbol {
                Symbol::Not => {
                    if stack.len() < 1 {
                        proof {
                            lemma_eval_stays_failed(m, self.doc_count(), all, i + 1);
                        }
                        return None;
                    }
                    let p = stack.pop().unwrap();
                    assert(is_result(held[held.len() - 1]@, self.doc_count()));
                    let res = intersect_not(&everything, &p);
                    proof {
                        lemma_is_result(res@, everything@, everything@, self.doc_count());
                    }
                    stack.push(res);
                    assert(lists_of(stack@) =~= before.take(before.len() - 1).push(
                        difference(universe(self.doc_count() as nat), before[before.len() - 1]),
                    ));
                },
                Symbol::And => {
                    if stack.len() < 2 {
                        proof {
                            lemma_eval_stays_failed(m, self.doc_count(), all, i + 1);
                        }
                        return None;
                    }
                    let r = stack.pop().unwrap();
                    let l = stack.pop().unwrap();
                    assert(is_result(held[held.len() - 1]@, self.doc_count()));
                    assert(is_result(held[held.len() - 2]@, self.doc_count()));
                    let res = intersect(&l, &r);
                    proof {
                        lemma_is_result(res@, l@, r@, self.doc_count());
                    }
                    stack.push(res);
                    assert(lists_of(stack@) =~= before.take(before.len() - 2).push(
                        intersection(before[before.len() - 2], before[before.len() - 1]),
                    ));
                },
                Symbol::Or => {
                    if stack.len() < 2 {
                        proof {
                            lemma_eval_stays_failed(m, self.doc_count(), all, i + 1);
                        }
                        return None;
                    }
                    let r = stack.pop().unwrap();
                    let l = stack.pop().unwrap();
                    assert(is_result(held[held.len() - 1]@, self.doc_count()));
                    assert(is_result(held[held.len() - 2]@, self.doc_count()));
                    let res = merge(&l, &r);
                    proof {
                        lemma_is_result(res@, l@, r@, self.doc_count());
                    }
                    stack.push(res);
                    assert(lists_of(stack@) =~= before.take(before.len() - 2).push(
                        union(before[before.len() - 2], before[before.len() - 1]),
                    ));
                },
                _ => {
                    let list = self.postings_for(program[i].as_str());
                    stack.push(list);
                    assert(lists_of(stack@) =~= before.push(postings_of(m, token)));
                },
            }
            assert forall|k: int| 0 <= k < stack@.len() implies is_result(
                #[trigger] stack@[k]@,
                self.doc_count(),
            ) by {
                if k < stack@.len() - 1 {
                    assert(stack@[k] == held[k]);
                    assert(is_result(held[k]@, self.doc_count()));
                }
            }
            i += 1;
        }
        assert(all.take(program.len() as int) =~= all);
        if stack.len() > 0 {
            assert(is_result(stack@[stack@.len() - 1]@, self.doc_count()));
        }
        match stack.pop() {
            Some(top) => Some(top),
            None => Some(Vec::new()),
        }
    }

    /// A copy of the posting list of `term`; an empty list where the index
    /// does not know the term.
    pub fn postings_for(&self, term: &str) -> (list: Vec<usize>)
        requires
            self.wf(),
        ensures
            list@ == postings_of(self@, term@),
            is_result(list@, self.doc_count()),
    {
        let mut list: Vec<usize> = Vec::new();
        match self.slots.get(term) {
            Some(slot) => {
                let source = &self.postings[*slot];
                assert(valid_postings(source@, self.doc_count));
                let mut k: usize = 0;
                while k < source.len()
                    invariant
                        k <= source.len(),
                        list@ == source@.take(k as int),
                    decreases source.len() - k,
                {
                    list.push(source[k]);
                    k += 1;
                }
                assert(source@.take(source.len() as int) =~= source@);
            },
            None => {},
        }
        list
    }

    /// The documents that match `query`, in ascending order; `None` where the
    /// query is malformed: a parenthesis without a partner, or an operator
    /// without its operands.
    pub fn search(&self, query: &str) -> (r: Option<Vec<usize>>)
        requires
            self.wf(),
        ensures
            match r {
                Some(list) => answer(self@, self.doc_count(), query@) == Some(list@) && is_result(
                    list@,
                    self.doc_count(),
                ),
                None => answer(self@, self.doc_count(), query@) is None,
            },
    {
        let qp = QueryParser::new();
        match qp.to_postfix(query) {
            None => None,
            Some(tokens) => self.evaluate(&tokens),
        }
    }

    /// The content of the index as persisted entries: each term with its
    /// document numbers, in the order in which the terms were first seen.
    pub closed spec fn entries_spec(&self) -> Seq<(Seq<char>, Seq<u64>)> {
        Seq::new(
            self.terms@.len(),
            |i: int|
                (
                    self.terms@[i]@,
                    Seq::new(self.postings@[i]@.len(), |k: int| self.postings@[i]@[k] as u64),
                ),
        )
    }

    /// The content that the first `i` entries of the index describe.
    proof fn lemma_entries_prefix(&self, i: int)
        requires
            self.wf(),
            0 <= i <= self.terms@.len(),
        ensures
            entries_map(self.entries_spec().take(i)) == Map::new(
                |t: Seq<char>| self.slots@.contains_key(t) && self.slots@[t] < i,
                |t: Seq<char>| self.postings@[self.slots@[t] as int]@,
            ),
        decreases i,
    {
        let es = self.entries_spec();
        let target = Map::new(
            |t: Seq<char>| self.slots@.contains_key(t) && self.slots@[t] < i,
            |t: Seq<char>| self.postings@[self.slots@[t] as int]@,
        );
        if i == 0 {
            assert(entries_map(es.take(i)) =~= target);
        } else {
            self.lemma_entries_prefix(i - 1);
            assert(es.take(i).drop_last() =~= es.take(i - 1));
            assert(es.take(i).last() == es[i - 1]);
            assert(as_documents(es[i - 1].1) =~= self.postings@[i - 1]@);
            assert(self.slots@.contains_key(self.terms@[i - 1]@));
            assert(entries_map(es.take(i)) =~= target);
        }
    }

    /// What an index writes it reads back: its entries are acceptable to an
    /// index of the same number of documents, and describe its content.
    pub proof fn lemma_entries_round_trip(&self)
        requires
            self.wf(),
        ensures
            acceptable(self.entries_spec(), self.doc_count()),
            entries_map(self.entries_spec()) == self@,
    {
        let es = self.entries_spec();
        self.lemma_entries_prefix(self.terms@.len() as int);
        assert(es.take(self.terms@.len() as int) =~= es);
        assert(entries_map(es) =~= self@);
        assert forall|i: int| 0 <= i < es.len() implies (#[trigger] es[i]).0.len() > 0
            && list_acceptable(es[i].1, self.doc_count) by {
            assert(self.terms@[i]@.len() > 0);
            assert(valid_postings(self.postings@[i]@, self.doc_count));
        }
        assert forall|i: int, j: int| 0 <= i < j < es.len() implies (#[trigger] es[i]).0 != (
        #[trigger] es[j]).0 by {
            assert(self.slots@[self.terms@[i]@] == i);
            assert(self.slots@[self.terms@[j]@] == j);
        }
    }

    /// The content of the index as entries that can be persisted.
    pub fn entries(&self) -> (r: Vec<(String, Vec<u64>)>)
        requires
            self.wf(),
        ensures
            pairs(r@) == self.entries_spec(),
            acceptable(pairs(r@), self.doc_count()),
            entries_map(pairs(r@)) == self@,
    {
        proof {
            self.lemma_entries_round_trip();
        }
        let mut r: Vec<(String, Vec<u64>)> = Vec::new();
        let mut i: usize = 0;
        while i < self.terms.len()
            invariant
                self.wf(),
                i <= self.terms@.len(),
                r@.len() == i,
                forall|j: int| 0 <= j < i ==> (#[trigger] pairs(r@)[j]) == self.entries_spec()[j],
            decreases self.terms@.len() - i,
        {
            let source = &self.postings[i];
            let mut list: Vec<u64> = Vec::new();
            let mut k: usize = 0;
            while k < source.len()
                invariant
                    k <= source.len(),
                    list@.len() == k,
                    forall|a: int| 0 <= a < k ==> #[trigger] list@[a] == source@[a] as u64,
                decreases source.len() - k,
            {
                list.push(source[k] as u64);
                k += 1;
            }
            let ghost before = r@;
            let ghost wanted = self.entries_spec()[i as int];
            assert(list@ =~= wanted.1);
            r.push((self.terms[i].clone(), list));
            assert forall|j: int| 0 <= j < i + 1 implies (#[trigger] pairs(r@)[j])
                == self.entries_spec()[j] by {
                if j < i {
                    assert(pairs(before)[j] == self.entries_spec()[j]);
                    assert(r@[j] == before[j]);
                }
            }
            i += 1;
        }
        assert(pairs(r@) =~= self.entries_spec());
        r
    }

    /// Checks a persisted list and turns it into a posting list.
    fn posting_list(list: &Vec<u64>, doc_count: usize) -> (r: Option<Vec<usize>>)
        ensures
            match r {
                Some(v) => list_acceptable(list@, doc_count) && v@ == as_documents(list@)
                    && valid_postings(v@, doc_count),
                None => !list_acceptable(list@, doc_count),
            },
    {
        if list.len() == 0 {
            return None;
        }
        let mut v: Vec<usize> = Vec::new();
        let mut k: usize = 0;
        while k < list.len()
            invariant
                k <= list.len(),
                list.len() > 0,
                v@.len() == k,
                forall|a: int| 0 <= a < k ==> list@[a] < doc_count && #[trigger] v@[a] == list@[a],
                forall|a: int, b: int| 0 <= a < b < k ==> list@[a] < list@[b],
            decreases list.len() - k,
        {
            let d = list[k];
            if d >= doc_count as u64 {
                return None;
            }
            if k > 0 && list[k - 1] >= d {
                assert(!(list@[k - 1] < list@[k as int]));
                return None;
            }
            assert forall|a: int, b: int| 0 <= a < b < k + 1 implies list@[a] < list@[b] by {
                if b == k && a < k - 1 {
                    assert(list@[a] < list@[k - 1]);
                }
            }
            v.push(d as usize);
            k += 1;
        }
        assert(v@ =~= as_documents(list@));
        assert forall|a: int, b: int| 0 <= a < b < v@.len() implies v@[a] < v@[b] by {
            assert(list@[a] < list@[b]);
        }
        assert forall|a: int| 0 <= a < list@.len() implies list@[a] < doc_count by {
            assert(v@[a] == list@[a]);
        }
        Some(v)
    }

    /// Replaces the content of the index by what `entries` describe. Where
    /// they do not describe an index of this corpus, the index stays as it is.
    pub fn load_entries(&mut self, entries: &Vec<(String, Vec<u64>)>) -> (r: Result<(), IndexError>)
        requires
            old(self).wf(),
        ensures
            final(self).wf(),
            final(self).doc_count() == old(self).doc_count(),
            match r {
                Ok(_) => acceptable(pairs(entries@), old(self).doc_count()) && final(self)@
                    == entries_map(pairs(entries@)),
                Err(e) => e == IndexError::Content && !acceptable(
                    pairs(entries@),
                    old(self).doc_count(),
                ) && final(self)@ == old(self)@,
            },
    {
        let ghost es = pairs(entries@);
        let mut fresh = InvertedIndex::new(self.doc_count);
        let mut i: usize = 0;
        assert(fresh@ =~= entries_map(es.take(0)));
        while i < entries.len()
            invariant
                i <= entries.len(),
                es == pairs(entries@),
                *self == *old(self),
                self.wf(),
                fresh.wf(),
                fresh.doc_count == self.doc_count,
                acceptable(es.take(i as int), self.doc_count),
                fresh@ == entries_map(es.take(i as int)),
                forall|t: Seq<char>|
                    fresh@.contains_key(t) ==> exists|j: int| 0 <= j < i && (#[trigger] es[j]).0 == t,
                forall|j: int| 0 <= j < i ==> fresh@.contains_key((#[trigger] es[j]).0),
            decreases entries.len() - i,
        {
            let ghost shorter = es.take(i as int);
            let ghost longer = es.take(i + 1);
            assert(longer.drop_last() =~= shorter);
            assert(longer.last() == es[i as int]);
            let term = &entries[i].0;
            if term.as_str().is_empty() {
                assert(es[i as int].0.len() == 0);
                return Err(IndexError::Content);
            }
            if fresh.slots.contains_key(term.as_str()) {
                proof {
                    assert(fresh@.contains_key(term@));
                    let j = choose|j: int| 0 <= j < i && (#[trigger] es[j]).0 == term@;
                    assert(es[j].0 == es[i as int].0);
                }
                return Err(IndexError::Content);
            }
            match InvertedIndex::posting_list(&entries[i].1, self.doc_count) {
                None => {
                    assert(!list_acceptable(es[i as int].1, self.doc_count));
                    return Err(IndexError::Content);
                },
                Some(list) => {
                    let ghost held = fresh@;
                    assert(!held.contains_key(term@));
                    fresh.put(term.clone(), list);
                    proof {
                        assert(fresh@ == entries_map(longer));
                        assert forall|k: int| 0 <= k < longer.len() implies (#[trigger] longer[k]).0.len()
                            > 0 && list_acceptable(longer[k].1, self.doc_count) by {
                            if k < i {
                                assert(shorter[k] == longer[k]);
                            }
                        }
                        assert forall|a: int, b: int| 0 <= a < b < longer.len() implies (
                        #[trigger] longer[a]).0 != (#[trigger] longer[b]).0 by {
                            if b < i {
                                assert(shorter[a] == longer[a] && shorter[b] == longer[b]);
                            } else {
                                assert(held.contains_key(es[a].0));
                            }
                        }
                        assert forall|t: Seq<char>| fresh@.contains_key(t) implies exists|j: int|
                            0 <= j < i + 1 && (#[trigger] es[j]).0 == t by {
                            if t == term@ {
                                assert(es[i as int].0 == t);
                            } else {
                                assert(held.contains_key(t));
                                let j = choose|j: int| 0 <= j < i && (#[trigger] es[j]).0 == t;
                                assert(es[j].0 == t);
                            }
                        }
                    }
                },
            }
            i += 1;
        }
        assert(es.take(entries.len() as int) =~= es);
        *self = fresh;
        Ok(())
    }

    /// Gives the new term `term` the posting list `list`.
    fn put(&mut self, term: String, list: Vec<usize>)
        requires
            old(self).wf(),
            !old(self)@.contains_key(term@),
            term@.len() > 0,
            valid_postings(list@, old(self).doc_count()),
        ensures
            final(self).wf(),
            final(self).doc_count() == old(self).doc_count(),
            final(self)@ == old(self)@.insert(term@, list@),
    {
        let ghost before = self@;
        let slot = self.terms.len();
        self.slots.insert(term.clone(), slot);
        self.terms.push(term);
        self.postings.push(list);
        proof {
            assert forall|t: Seq<char>| #[trigger]
                self.slots@.contains_key(t) implies self.slots@[t] < self.terms@.len()
                && self.terms@[self.slots@[t] as int]@ == t by {}
            assert(self@ =~= before.insert(term@, list@));
        }
    }

    /// Whether the two posting lists hold the same documents.
    fn same_list(a: &Vec<usize>, b: &Vec<usize>) -> (same: bool)
        ensures
            same == (a@ == b@),
    {
        if a.len() != b.len() {
            return false;
        }
        let mut k: usize = 0;
        while k < a.len()
            invariant
                a.len() == b.len(),
                k <= a.len(),
                forall|j: int| 0 <= j < k ==> a@[j] == b@[j],
            decreases a.len() - k,
        {
            if a[k] != b[k] {
                return false;
            }
            k += 1;
        }
        assert(a@ =~= b@);
        true
    }

    /// Whether the two indexes hold the same posting list for each term.
    pub fn same_content(&self, other: &InvertedIndex) -> (same: bool)
        requires
            self.wf(),
            other.wf(),
        ensures
            same == (self@ == other@),
    {
        let mut i: usize = 0;
        while i < self.terms.len()
            invariant
                self.wf(),
                other.wf(),
                i <= self.terms@.len(),
                forall|k: int|
                    0 <= k < i ==> other@.contains_key(#[trigger] self.terms@[k]@) && other@[self.terms@[k]@]
                        == self@[self.terms@[k]@],
            decreases self.terms@.len() - i,
        {
            let ghost t = self.terms@[i as int]@;
            assert(self@.contains_key(t) && self@[t] == self.postings@[i as int]@);
            match other.slots.get(self.terms[i].as_str()) {
                None => {
                    assert(!other@.contains_key(t));
                    return false;
                },
                Some(slot) => {
                    assert(other@[t] == other.postings@[*slot as int]@);
                    if !InvertedIndex::same_list(&self.postings[i], &other.postings[*slot]) {
                        assert(self@[t] != other@[t]);
                        return false;
                    }
                },
            }
            i += 1;
        }
        let mut j: usize = 0;
        while j < other.terms.len()
            invariant
                self.wf(),
                other.wf(),
                j <= other.terms@.len(),
                forall|k: int|
                    0 <= k < self.terms@.len() ==> other@.contains_key(
                        #[trigger] self.terms@[k]@,
                    ) && other@[self.terms@[k]@] == self@[self.terms@[k]@],
                forall|k: int| 0 <= k < j ==> self@.contains_key(#[trigger] other.terms@[k]@),
            decreases other.terms@.len() - j,
        {
            let ghost t = other.terms@[j as int]@;
            assert(other@.contains_key(t));
            if !self.slots.contains_key(other.terms[j].as_str()) {
                assert(!self@.contains_key(t));
                return false;
            }
            j += 1;
        }
        proof {
            assert forall|t: Seq<char>| self@.contains_key(t) implies other@.contains_key(t)
                && other@[t] == self@[t] by {
                let k = self.slots@[t] as int;
                assert(self.terms@[k]@ == t);
            }
            assert forall|t: Seq<char>| other@.contains_key(t) implies self@.contains_key(t) by {
                let k = other.slots@[t] as int;
                assert(other.terms@[k]@ == t);
            }
            assert(self@ =~= other@);
        }
        true
    }

    /// The JSON text of the index: one object that maps each term to the
    /// array of its document numbers. Before the text is handed out it is
    /// read back: what comes out as `Ok` is a text from which an index of as
    /// many documents reads this very content.
    pub fn save_json(&self) -> (r: Result<String, IndexError>)
        requires
            self.wf(),
        ensures
            match r {
                Ok(text) => json_text(self.entries_spec()) == Some(text@) && reads_back(
                    text@,
                    self@,
                    self.doc_count(),
                ),
                Err(e) => e == IndexError::Encoding && (json_text(self.entries_spec())
                    matches Some(text) ==> !reads_back(text, self@, self.doc_count())),
            },
    {
        let entries = self.entries();
        match encode_entries(&entries) {
            Err(_) => Err(IndexError::Encoding),
            Ok(text) => {
                let mut copy = InvertedIndex::new(self.doc_count);
                match copy.open_json(text.as_str()) {
                    Err(_) => Err(IndexError::Encoding),
                    Ok(_) => {
                        if self.same_content(&copy) {
                            Ok(text)
                        } else {
                            Err(IndexError::Encoding)
                        }
                    },
                }
            },
        }
    }

    /// Replaces the content of the index by what the JSON text `text`
    /// describes. Where the text is no JSON of the expected form, or
    /// describes no index of this corpus, the index stays as it is. A text
    /// that `save_json` gave for an index of no more documents is read, and
    /// gives the content of that index.
    pub fn open_json(&mut self, text: &str) -> (r: Result<(), IndexError>)
        requires
            old(self).wf(),
        ensures
            final(self).wf(),
            final(self).doc_count() == old(self).doc_count(),
            match json_entries(text@) {
                None => r == Err::<(), IndexError>(IndexError::Syntax) && final(self)@ == old(
                    self,
                )@,
                Some(entries) => if acceptable(entries, old(self).doc_count()) {
                    r is Ok && final(self)@ == entries_map(entries)
                } else {
                    r == Err::<(), IndexError>(IndexError::Content) && final(self)@ == old(self)@
                },
            },
            forall|m: Map<Seq<char>, Seq<usize>>| #[trigger]
                reads_back(text@, m, old(self).doc_count()) ==> r is Ok && final(self)@ == m,
    {
        match decode_entries(text) {
            Err(_) => Err(IndexError::Syntax),
            Ok(entries) => self.load_entries(&entries),
        }
    }
}

} // verus!
