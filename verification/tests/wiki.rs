use boolean_retrieval::wiki::{assign_ids, contains_text, naive_search, WikiDoc};

fn doc(title: &str, text: &str) -> WikiDoc {
    WikiDoc::new(title.to_string(), format!("http://x/{}", title), text.to_string())
}

fn corpus() -> Vec<WikiDoc> {
    vec![
        doc("a", "the cat sat on the mat"),
        doc("b", "a dog and a hat"),
        doc("c", "concatenate"),
        doc("d", ""),
    ]
}

fn titles(found: &[&WikiDoc]) -> Vec<String> {
    found.iter().map(|d| d.title.clone()).collect()
}

#[test]
fn new_document_has_no_identifier() {
    let d = WikiDoc::new("t".to_string(), "u".to_string(), "a".to_string());
    assert_eq!(d.id, "");
    assert_eq!(d.title, "t");
    assert_eq!(d.url, "u");
    assert_eq!(d.abstract_text, "a");
}

#[test]
fn naive_search_finds_the_abstracts_that_hold_the_query() {
    let docs = corpus();
    assert_eq!(titles(&naive_search("cat", &docs)), vec!["a", "c"]);
    assert_eq!(titles(&naive_search("hat", &docs)), vec!["b"]);
    assert_eq!(titles(&naive_search("a", &docs)), vec!["a", "b", "c"]);
    assert_eq!(titles(&naive_search("zebra", &docs)), Vec::<String>::new());
}

#[test]
fn naive_search_leaves_out_the_blanks_around_the_query() {
    let docs = corpus();
    assert_eq!(titles(&naive_search("  cat \t\n", &docs)), vec!["a", "c"]);
    assert_eq!(titles(&naive_search(" cat sat ", &docs)), vec!["a"]);
    assert_eq!(titles(&naive_search("cat  sat", &docs)), Vec::<String>::new());
}

#[test]
fn naive_search_matches_by_case() {
    let docs = corpus();
    assert_eq!(titles(&naive_search("Cat", &docs)), Vec::<String>::new());
}

#[test]
fn naive_search_for_nothing_finds_everything() {
    let docs = corpus();
    assert_eq!(titles(&naive_search("", &docs)), vec!["a", "b", "c", "d"]);
    assert_eq!(titles(&naive_search(" \n", &docs)), vec!["a", "b", "c", "d"]);
    assert_eq!(naive_search("cat", &Vec::new()).len(), 0);
}

#[test]
fn contains_text_agrees_with_std() {
    let hays = ["", "a", "ab", "aab", "abab", "日本語", "a日b"];
    let needles = ["", "a", "b", "ab", "ba", "aab", "abab", "abc", "日", "本語", "日b"];
    for hay in hays {
        for needle in needles {
            let h: Vec<char> = hay.chars().collect();
            let n: Vec<char> = needle.chars().collect();
            assert_eq!(contains_text(&h, &n), hay.contains(needle));
        }
    }
}

#[test]
fn assign_ids_gives_each_document_an_identifier_of_its_own() {
    let mut docs = corpus();
    assign_ids(&mut docs);
    assert_eq!(docs.len(), 4);
    assert_eq!(titles(&docs.iter().collect::<Vec<&WikiDoc>>()), vec!["a", "b", "c", "d"]);
    assert_eq!(docs[0].abstract_text, "the cat sat on the mat");
    assert_eq!(docs[1].url, "http://x/b");
    for d in &docs {
        assert_eq!(d.id.chars().count(), 36);
        assert_eq!(d.id.chars().filter(|c| *c == '-').count(), 4);
    }
    for i in 0..docs.len() {
        for j in 0..i {
            assert_ne!(docs[i].id, docs[j].id);
        }
    }
    let first = docs[0].id.clone();
    assign_ids(&mut docs);
    assert_ne!(docs[0].id, first);
}
