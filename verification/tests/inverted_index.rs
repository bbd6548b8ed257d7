use boolean_retrieval::inverted_index::{IndexError, InvertedIndex};
use boolean_retrieval::wiki::WikiDoc;

fn doc(text: &str) -> WikiDoc {
    WikiDoc::new("title".to_string(), "url".to_string(), text.to_string())
}

/// Documents 0 to 3 hold {cat, hat}, {cat, mat}, {dog, hat} and {bird}.
fn animals() -> InvertedIndex {
    let mut index = InvertedIndex::new(4);
    index.add_wiki_doc(&doc("cat hat"), 0);
    index.add_wiki_doc(&doc("cat mat"), 1);
    index.add_wiki_doc(&doc("dog hat"), 2);
    index.add_wiki_doc(&doc("bird"), 3);
    index
}

fn sorted_entries(index: &InvertedIndex) -> Vec<(String, Vec<u64>)> {
    let mut entries = index.entries();
    entries.sort();
    entries
}

#[test]
fn test_search() {
    let index = animals();
    assert_eq!(index.search("cat"), Some(vec![0, 1]));
    assert_eq!(index.search("cat AND hat"), Some(vec![0]));
    assert_eq!(index.search("cat OR dog"), Some(vec![0, 1, 2]));
    assert_eq!(index.search("NOT cat"), Some(vec![2, 3]));
    assert_eq!(index.search("NOT (cat OR dog)"), Some(vec![3]));
    assert_eq!(index.search("cat AND NOT mat"), Some(vec![0]));
}

#[test]
fn search_single_term() {
    assert_eq!(animals().search("cat"), Some(vec![0, 1]));
}

#[test]
fn search_and() {
    assert_eq!(animals().search("cat AND hat"), Some(vec![0]));
}

#[test]
fn search_or() {
    assert_eq!(animals().search("cat OR dog"), Some(vec![0, 1, 2]));
}

#[test]
fn search_not() {
    assert_eq!(animals().search("NOT cat"), Some(vec![2, 3]));
}

#[test]
fn search_not_of_a_group() {
    assert_eq!(animals().search("NOT (cat OR dog)"), Some(vec![3]));
}

#[test]
fn search_and_not() {
    assert_eq!(animals().search("cat AND NOT mat"), Some(vec![0]));
}

#[test]
fn search_for_an_unknown_word_finds_nothing() {
    assert_eq!(animals().search("fish"), Some(vec![]));
    assert_eq!(animals().search("NOT fish"), Some(vec![0, 1, 2, 3]));
    assert_eq!(animals().search("fish OR bird"), Some(vec![3]));
    assert_eq!(animals().search("fish AND bird"), Some(vec![]));
}

#[test]
fn search_every_term_gives_its_posting_list() {
    let index = animals();
    for (term, list) in index.entries() {
        let expected: Vec<usize> = list.iter().map(|d| *d as usize).collect();
        assert_eq!(index.search(&term), Some(expected.clone()));
        assert_eq!(index.postings_for(&term), expected);
    }
}

#[test]
fn search_does_not_lowercase_the_query() {
    assert_eq!(animals().search("Cat"), Some(vec![]));
    assert_eq!(animals().search("CAT OR dog"), Some(vec![2]));
}

#[test]
fn search_mixed_operators_follow_the_parser_not_the_textbook() {
    let index = animals();
    // cat AND (hat OR dog), not (cat AND hat) OR dog
    assert_eq!(index.search("cat AND hat OR dog"), Some(vec![0]));
    assert_eq!(index.search("(cat AND hat) OR dog"), Some(vec![0, 2]));
    // dog OR (hat AND cat)
    assert_eq!(index.search("dog OR hat AND cat"), Some(vec![0, 2]));
    // bird OR (cat AND (mat OR dog))
    assert_eq!(index.search("bird OR cat AND mat OR dog"), Some(vec![1, 3]));
}

#[test]
fn search_negations_of_both_sides() {
    let index = animals();
    assert_eq!(index.search("NOT cat AND NOT dog"), Some(vec![3]));
    assert_eq!(index.search("NOT cat OR NOT hat"), Some(vec![1, 2, 3]));
    assert_eq!(index.search("NOT (cat AND hat)"), Some(vec![1, 2, 3]));
    assert_eq!(index.search("NOT (NOT cat)"), Some(vec![0, 1]));
    // NOT binds to `cat` alone: (NOT cat) AND (hat OR bird)
    assert_eq!(index.search("NOT cat AND hat OR bird"), Some(vec![2, 3]));
    assert_eq!(index.search("NOT (cat AND hat OR bird)"), Some(vec![1, 2, 3]));
}

#[test]
fn search_malformed_queries_give_no_result() {
    let index = animals();
    assert_eq!(index.search("(cat"), None);
    assert_eq!(index.search("cat)"), None);
    assert_eq!(index.search(")"), None);
    assert_eq!(index.search("AND"), None);
    assert_eq!(index.search("cat AND"), None);
    assert_eq!(index.search("OR cat"), None);
    assert_eq!(index.search("NOT"), None);
    assert_eq!(index.search("cat AND OR hat"), None);
    assert_eq!(index.search("NOT NOT cat"), None);
}

#[test]
fn search_empty_query_is_an_empty_result() {
    assert_eq!(animals().search(""), Some(vec![]));
    assert_eq!(animals().search("  \n"), Some(vec![]));
}

#[test]
fn search_words_side_by_side_answer_the_last() {
    assert_eq!(animals().search("cat dog"), Some(vec![2]));
}

#[test]
fn evaluate_runs_a_postfix_program() {
    let index = animals();
    let program: Vec<String> = ["cat", "hat", "AND"].iter().map(|s| s.to_string()).collect();
    assert_eq!(index.evaluate(&program), Some(vec![0]));
    let program: Vec<String> = ["cat", "dog", "OR", "NOT"].iter().map(|s| s.to_string()).collect();
    assert_eq!(index.evaluate(&program), Some(vec![3]));
    let program: Vec<String> = ["cat", "AND"].iter().map(|s| s.to_string()).collect();
    assert_eq!(index.evaluate(&program), None);
    assert_eq!(index.evaluate(&Vec::new()), Some(vec![]));
}

#[test]
fn tokenizer_cuts_at_what_is_not_alphanumeric() {
    assert_eq!(
        InvertedIndex::tokenizer("The cat, the HAT; and 2 mats!".to_string()),
        vec!["The", "cat", "the", "HAT", "and", "2", "mats"]
    );
    assert_eq!(InvertedIndex::tokenizer("".to_string()), Vec::<String>::new());
    assert_eq!(InvertedIndex::tokenizer(" ,;".to_string()), Vec::<String>::new());
    assert_eq!(InvertedIndex::tokenizer(",,a,,b,,".to_string()), vec!["a", "b"]);
}

#[test]
fn lowercase_filter_lowers_each_token() {
    let tokens: Vec<String> = ["The", "CAT", "hat", "ÀÉ", "Σ3"].iter().map(|s| s.to_string()).collect();
    assert_eq!(
        InvertedIndex::lowercase_filter(tokens),
        vec!["the", "cat", "hat", "àé", "σ3"]
    );
    assert_eq!(InvertedIndex::lowercase_filter(Vec::new()), Vec::<String>::new());
}

#[test]
fn terms_are_lowercased() {
    let mut index = InvertedIndex::new(2);
    index.add_wiki_doc(&doc("The Cat"), 0);
    index.add_wiki_doc(&doc("the HAT, the cat"), 1);
    assert_eq!(
        sorted_entries(&index),
        vec![
            ("cat".to_string(), vec![0, 1]),
            ("hat".to_string(), vec![1]),
            ("the".to_string(), vec![0, 1]),
        ]
    );
}

#[test]
fn a_document_is_listed_once_per_term() {
    let mut index = InvertedIndex::new(3);
    index.add_wiki_doc(&doc("cat cat cat hat cat"), 1);
    assert_eq!(
        sorted_entries(&index),
        vec![("cat".to_string(), vec![1]), ("hat".to_string(), vec![1])]
    );
}

#[test]
fn adding_a_document_again_changes_nothing() {
    let mut index = animals();
    let before = sorted_entries(&index);
    index.add_wiki_doc(&doc("cat hat"), 0);
    index.add_wiki_doc(&doc("bird"), 3);
    assert_eq!(sorted_entries(&index), before);
}

#[test]
fn posting_lists_are_strictly_ascending() {
    let mut index = InvertedIndex::new(6);
    index.add_wiki_doc(&doc("a b c"), 4);
    index.add_wiki_doc(&doc("b c d"), 1);
    index.add_wiki_doc(&doc("c a"), 5);
    index.add_wiki_doc(&doc("a b c d"), 0);
    index.add_wiki_doc(&doc("a a"), 4);
    for (_, list) in index.entries() {
        assert!(!list.is_empty());
        for pair in list.windows(2) {
            assert!(pair[0] < pair[1]);
        }
        for d in list {
            assert!(d < 6);
        }
    }
    assert_eq!(index.search("a"), Some(vec![0, 4, 5]));
    assert_eq!(index.search("c"), Some(vec![0, 1, 4, 5]));
}

#[test]
fn documents_added_out_of_order_are_listed_in_order() {
    let mut index = InvertedIndex::new(4);
    index.add_wiki_doc(&doc("bird"), 3);
    index.add_wiki_doc(&doc("dog hat"), 2);
    index.add_wiki_doc(&doc("cat hat"), 0);
    index.add_wiki_doc(&doc("cat mat"), 1);
    assert_eq!(sorted_entries(&index), sorted_entries(&animals()));
    assert_eq!(index.search("hat"), Some(vec![0, 2]));
}

#[test]
fn the_order_of_the_terms_in_a_document_does_not_matter() {
    let mut first = InvertedIndex::new(3);
    first.add_wiki_doc(&doc("cat hat mat cat"), 0);
    first.add_wiki_doc(&doc("dog cat"), 1);
    first.add_wiki_doc(&doc("hat bird dog"), 2);
    let mut second = InvertedIndex::new(3);
    second.add_wiki_doc(&doc("mat cat cat hat"), 0);
    second.add_wiki_doc(&doc("cat dog"), 1);
    second.add_wiki_doc(&doc("dog hat bird"), 2);
    assert_eq!(sorted_entries(&first), sorted_entries(&second));
}

#[test]
fn a_text_without_words_adds_nothing() {
    let mut index = InvertedIndex::new(1);
    index.add_wiki_doc(&doc(" ... -- !"), 0);
    index.add_wiki_doc(&doc(""), 0);
    assert_eq!(index.entries(), Vec::new());
    assert_eq!(index.search("NOT x"), Some(vec![0]));
}

#[test]
fn an_index_of_no_documents() {
    let index = InvertedIndex::new(0);
    assert_eq!(index.search("cat"), Some(vec![]));
    assert_eq!(index.search("NOT cat"), Some(vec![]));
    assert_eq!(index.save_json(), Ok("{}".to_string()));
}

#[test]
fn save_json_writes_one_object_with_the_terms_in_order() {
    let mut index = InvertedIndex::new(2);
    index.add_wiki_doc(&doc("hat cat"), 0);
    index.add_wiki_doc(&doc("cat"), 1);
    assert_eq!(index.save_json(), Ok("{\"cat\":[0,1],\"hat\":[0]}".to_string()));
}

#[test]
fn open_json_reads_an_object_of_arrays() {
    let mut index = InvertedIndex::new(3);
    assert_eq!(index.open_json(" { \"hat\" : [0, 2], \"cat\": [1] } "), Ok(()));
    assert_eq!(
        sorted_entries(&index),
        vec![("cat".to_string(), vec![1]), ("hat".to_string(), vec![0, 2])]
    );
    assert_eq!(index.search("hat OR cat"), Some(vec![0, 1, 2]));
    assert_eq!(index.search("NOT hat"), Some(vec![1]));
}

#[test]
fn open_json_replaces_the_content() {
    let mut index = animals();
    assert_eq!(index.open_json("{\"fish\":[2]}"), Ok(()));
    assert_eq!(index.entries(), vec![("fish".to_string(), vec![2])]);
    assert_eq!(index.search("cat"), Some(vec![]));
    assert_eq!(index.open_json("{}"), Ok(()));
    assert_eq!(index.entries(), Vec::new());
}

#[test]
fn saved_index_is_read_back() {
    let index = animals();
    let text = index.save_json().unwrap();
    let mut copy = InvertedIndex::new(4);
    assert_eq!(copy.open_json(&text), Ok(()));
    assert_eq!(sorted_entries(&copy), sorted_entries(&index));
    for query in ["cat", "cat AND hat", "NOT (cat OR dog)", "bird OR mat", "NOT x"] {
        assert_eq!(copy.search(query), index.search(query));
    }
    assert_eq!(copy.save_json().unwrap(), text);
}

#[test]
fn saved_entries_are_read_back() {
    let index = animals();
    let mut copy = InvertedIndex::new(4);
    assert_eq!(copy.load_entries(&index.entries()), Ok(()));
    assert_eq!(copy.entries(), index.entries());
}

#[test]
fn open_json_refuses_what_is_no_json() {
    let mut index = animals();
    let before = sorted_entries(&index);
    assert_eq!(index.open_json("not json"), Err(IndexError::Syntax));
    assert_eq!(index.open_json(""), Err(IndexError::Syntax));
    assert_eq!(index.open_json("{\"cat\":[0,1]"), Err(IndexError::Syntax));
    assert_eq!(index.open_json("[0,1]"), Err(IndexError::Syntax));
    assert_eq!(index.open_json("{\"cat\":\"hat\"}"), Err(IndexError::Syntax));
    assert_eq!(index.open_json("{\"cat\":[-1]}"), Err(IndexError::Syntax));
    assert_eq!(index.open_json("{\"cat\":[0.5]}"), Err(IndexError::Syntax));
    assert_eq!(sorted_entries(&index), before);
}

#[test]
fn open_json_refuses_what_is_no_index() {
    let mut index = animals();
    let before = sorted_entries(&index);
    assert_eq!(index.open_json("{\"cat\":[1,0]}"), Err(IndexError::Content));
    assert_eq!(index.open_json("{\"cat\":[1,1]}"), Err(IndexError::Content));
    assert_eq!(index.open_json("{\"cat\":[]}"), Err(IndexError::Content));
    assert_eq!(index.open_json("{\"\":[0]}"), Err(IndexError::Content));
    assert_eq!(index.open_json("{\"cat\":[4]}"), Err(IndexError::Content));
    assert_eq!(index.open_json("{\"cat\":[0],\"hat\":[0,18446744073709551615]}"), Err(IndexError::Content));
    assert_eq!(sorted_entries(&index), before);
    assert_eq!(index.open_json("{\"cat\":[3]}"), Ok(()));
}

#[test]
fn load_entries_refuses_a_term_that_comes_twice() {
    let mut index = animals();
    let before = sorted_entries(&index);
    let entries = vec![
        ("cat".to_string(), vec![0u64]),
        ("hat".to_string(), vec![1]),
        ("cat".to_string(), vec![2]),
    ];
    assert_eq!(index.load_entries(&entries), Err(IndexError::Content));
    assert_eq!(sorted_entries(&index), before);
}

#[test]
fn entries_come_in_the_order_of_first_sight() {
    let mut index = InvertedIndex::new(2);
    index.add_wiki_doc(&doc("hat cat hat"), 1);
    index.add_wiki_doc(&doc("dog cat"), 0);
    assert_eq!(
        index.entries(),
        vec![
            ("hat".to_string(), vec![1]),
            ("cat".to_string(), vec![0, 1]),
            ("dog".to_string(), vec![0]),
        ]
    );
}

#[test]
fn search_with_parentheses_that_stand_alone() {
    let index = animals();
    assert_eq!(index.search("( cat )"), Some(vec![0, 1]));
    assert_eq!(index.search("( cat )"), index.search("cat"));
    assert_eq!(index.search("NOT ( cat OR dog )"), Some(vec![3]));
    assert_eq!(index.search("( cat AND hat ) OR ( dog )"), Some(vec![0, 2]));
    assert_eq!(index.search("( )"), Some(vec![]));
}

#[test]
fn answers_are_ascending_and_within_the_corpus() {
    let index = animals();
    for query in ["cat", "NOT fish", "cat OR dog OR bird", "NOT (cat AND hat)", "hat AND NOT cat"] {
        let answer = index.search(query).unwrap();
        for pair in answer.windows(2) {
            assert!(pair[0] < pair[1]);
        }
        for d in answer {
            assert!(d < 4);
        }
    }
}

#[test]
fn same_content_compares_the_posting_lists() {
    let index = animals();
    let mut other = InvertedIndex::new(9);
    other.add_wiki_doc(&doc("bird"), 3);
    other.add_wiki_doc(&doc("hat dog"), 2);
    other.add_wiki_doc(&doc("mat cat"), 1);
    assert!(!index.same_content(&other));
    assert!(!other.same_content(&index));
    other.add_wiki_doc(&doc("hat cat"), 0);
    assert!(index.same_content(&other));
    assert!(other.same_content(&index));
    other.add_wiki_doc(&doc("cat"), 2);
    assert!(!index.same_content(&other));
    other = animals();
    other.add_wiki_doc(&doc("fish"), 0);
    assert!(!index.same_content(&other));
    assert!(!other.same_content(&index));
    assert!(InvertedIndex::new(1).same_content(&InvertedIndex::new(2)));
}

#[test]
fn saved_text_is_read_by_an_index_of_more_documents() {
    let index = animals();
    let text = index.save_json().unwrap();
    let mut larger = InvertedIndex::new(10);
    assert_eq!(larger.open_json(&text), Ok(()));
    assert!(larger.same_content(&index));
    assert_eq!(larger.search("NOT cat"), Some(vec![2, 3, 4, 5, 6, 7, 8, 9]));
    let mut smaller = InvertedIndex::new(3);
    assert_eq!(smaller.open_json(&text), Err(IndexError::Content));
}
