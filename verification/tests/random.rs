use boolean_retrieval::inverted_index::InvertedIndex;
use boolean_retrieval::postings::{intersect, intersect_not, merge, sorted_insert};
use boolean_retrieval::skiplist::SkipList;
use boolean_retrieval::wiki::WikiDoc;
use rand::Rng;
use std::collections::{BTreeMap, BTreeSet};

fn random_list(rng: &mut rand::rngs::ThreadRng, bound: usize) -> Vec<usize> {
    let mut set = BTreeSet::new();
    let n = rng.gen_range(0..12);
    for _ in 0..n {
        set.insert(rng.gen_range(0..bound));
    }
    set.into_iter().collect()
}

#[test]
fn skip_list_agrees_with_an_ordered_set() {
    let mut rng = rand::thread_rng();
    for round in 0..50 {
        let limit: u16 = rng.gen_range(1..20);
        let branching: u16 = rng.gen_range(0..6);
        let mut list: SkipList<u64> = SkipList::new(limit, branching);
        let mut set = BTreeSet::new();
        let inserts = rng.gen_range(0..200);
        for _ in 0..inserts {
            let x: u64 = rng.gen_range(0..100);
            list.insert(x);
            set.insert(x);
            assert_eq!(list.len(), set.len(), "round {}", round);
        }
        let mut seen = Vec::new();
        let mut it = list.iter();
        while let Some(x) = it.next() {
            seen.push(*x);
        }
        assert_eq!(seen, set.iter().cloned().collect::<Vec<u64>>());
        for x in 0..100u64 {
            assert_eq!(list.contains(&x), set.contains(&x));
        }
    }
}

#[test]
fn skip_list_of_strings_agrees_with_an_ordered_set() {
    let mut rng = rand::thread_rng();
    let letters = ['a', 'b', 'é', 'z', 'A', '日'];
    for _ in 0..30 {
        let mut list: SkipList<String> = SkipList::default();
        let mut set = BTreeSet::new();
        for _ in 0..100 {
            let n = rng.gen_range(0..4);
            let word: String = (0..n).map(|_| letters[rng.gen_range(0..letters.len())]).collect();
            list.insert(word.clone());
            set.insert(word);
        }
        let mut seen = Vec::new();
        let mut it = list.iter();
        while let Some(x) = it.next() {
            seen.push(x.clone());
        }
        assert_eq!(seen, set.iter().cloned().collect::<Vec<String>>());
        assert_eq!(list.len(), set.len());
    }
}

#[test]
fn insert_node_of_any_height_agrees_with_an_ordered_set() {
    let mut rng = rand::thread_rng();
    for _ in 0..50 {
        let limit: u16 = rng.gen_range(1..8);
        let mut list: SkipList<u64> = SkipList::new(limit, 4);
        let mut set = BTreeSet::new();
        for _ in 0..100 {
            let x: u64 = rng.gen_range(0..60);
            let h: u16 = rng.gen_range(1..=limit);
            list.insert_node(x, h);
            set.insert(x);
        }
        let mut seen = Vec::new();
        let mut it = list.iter();
        while let Some(x) = it.next() {
            seen.push(*x);
        }
        assert_eq!(seen, set.iter().cloned().collect::<Vec<u64>>());
    }
}

#[test]
fn posting_operations_agree_with_sets() {
    let mut rng = rand::thread_rng();
    for _ in 0..500 {
        let a = random_list(&mut rng, 15);
        let b = random_list(&mut rng, 15);
        let sa: BTreeSet<usize> = a.iter().cloned().collect();
        let sb: BTreeSet<usize> = b.iter().cloned().collect();
        assert_eq!(intersect(&a, &b), sa.intersection(&sb).cloned().collect::<Vec<usize>>());
        assert_eq!(merge(&a, &b), sa.union(&sb).cloned().collect::<Vec<usize>>());
        assert_eq!(intersect_not(&a, &b), sa.difference(&sb).cloned().collect::<Vec<usize>>());
        let v = rng.gen_range(0..15);
        let mut c = a.clone();
        sorted_insert(&mut c, v);
        let mut sc = sa.clone();
        sc.insert(v);
        assert_eq!(c, sc.into_iter().collect::<Vec<usize>>());
    }
}

#[test]
fn index_agrees_with_a_map_of_sets() {
    let mut rng = rand::thread_rng();
    let words = ["cat", "hat", "mat", "dog", "bird", "fish"];
    for _ in 0..30 {
        let count = rng.gen_range(1..12);
        let mut index = InvertedIndex::new(count);
        let mut model: BTreeMap<String, BTreeSet<u64>> = BTreeMap::new();
        for _ in 0..20 {
            let doc_id = rng.gen_range(0..count);
            let n = rng.gen_range(0..5);
            let picked: Vec<&str> = (0..n).map(|_| words[rng.gen_range(0..words.len())]).collect();
            let text = picked.join(", ").to_uppercase();
            index.add_wiki_doc(&WikiDoc::new("t".to_string(), "u".to_string(), text), doc_id);
            for w in picked {
                model.entry(w.to_string()).or_default().insert(doc_id as u64);
            }
        }
        let mut entries = index.entries();
        entries.sort();
        let expected: Vec<(String, Vec<u64>)> = model
            .iter()
            .map(|(k, v)| (k.clone(), v.iter().cloned().collect()))
            .collect();
        assert_eq!(entries, expected);
        let text = index.save_json().unwrap();
        let mut copy = InvertedIndex::new(count);
        assert_eq!(copy.open_json(&text), Ok(()));
        let mut read = copy.entries();
        read.sort();
        assert_eq!(read, expected);
        for a in words {
            for b in words {
                let la: BTreeSet<usize> = index.search(a).unwrap().into_iter().collect();
                let lb: BTreeSet<usize> = index.search(b).unwrap().into_iter().collect();
                let all: BTreeSet<usize> = (0..count).collect();
                assert_eq!(
                    index.search(&format!("{} AND {}", a, b)).unwrap(),
                    la.intersection(&lb).cloned().collect::<Vec<usize>>()
                );
                assert_eq!(
                    index.search(&format!("{} OR {}", a, b)).unwrap(),
                    la.union(&lb).cloned().collect::<Vec<usize>>()
                );
                assert_eq!(
                    index.search(&format!("{} AND NOT {}", a, b)).unwrap(),
                    la.difference(&lb).cloned().collect::<Vec<usize>>()
                );
                assert_eq!(
                    index.search(&format!("NOT ({} OR {})", a, b)).unwrap(),
                    all.difference(&la.union(&lb).cloned().collect())
                        .cloned()
                        .collect::<Vec<usize>>()
                );
            }
        }
    }
}
