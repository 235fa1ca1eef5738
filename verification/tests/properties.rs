use abbrev_tree::{common_prefix_length, AbbrevTree};

const WORDS: [&str; 14] = [
    "cat", "cargo", "chmod", "chown", "ls", "lshw", "c", "ca", "car", "lsof", "chgrp", "cargo",
    "x", "ch",
];

fn build(count: usize) -> AbbrevTree<usize> {
    let mut t = AbbrevTree::new();
    for (n, w) in WORDS.iter().take(count).enumerate() {
        t.add(w, n);
    }
    t
}

fn keys<T>(found: &Vec<(String, &T)>) -> Vec<String> {
    found.iter().map(|e| e.0.clone()).collect()
}

fn check_siblings<T>(node: &AbbrevTree<T>) {
    for i in 0..node.len() {
        for j in 0..node.len() {
            if i != j {
                assert_ne!(node.label(i), node.label(j));
                assert_eq!(common_prefix_length(node.label(i), node.label(j)), 0);
            }
        }
        check_siblings(node.subtree(i));
    }
}

#[test]
fn inserted_key_completes_to_itself_once() {
    for count in 1..=WORDS.len() {
        let t = build(count);
        let key = WORDS[count - 1];
        let found = t.complete(key);
        let hits: Vec<&(String, &usize)> = found.iter().filter(|e| e.0 == key).collect();
        assert_eq!(hits.len(), 1);
        assert_eq!(*hits[0].1, count - 1);
    }
}

#[test]
fn shorter_prefix_finds_at_least_as_much() {
    let t = build(WORDS.len());
    for w in WORDS.iter() {
        let chars: Vec<char> = w.chars().collect();
        for cut in 0..chars.len() {
            let shorter: String = chars[..cut].iter().collect();
            let longer: String = chars[..cut + 1].iter().collect();
            let wide = keys(&t.complete(&shorter));
            for k in keys(&t.complete(&longer)) {
                assert!(wide.contains(&k));
            }
        }
    }
}

#[test]
fn siblings_stay_apart_after_every_insertion() {
    for count in 0..=WORDS.len() {
        check_siblings(&build(count));
    }
}

#[test]
fn empty_prefix_finds_every_key() {
    let t = build(WORDS.len());
    let all = keys(&t.complete(""));
    for w in WORDS.iter() {
        assert!(all.contains(&w.to_string()));
    }
    assert_eq!(all.len(), 13);
    assert_eq!(
        all,
        vec![
            "cat", "cargo", "car", "ca", "chmod", "chown", "chgrp", "ch", "c", "ls", "lshw",
            "lsof", "x"
        ]
    );
}

#[test]
fn prefix_of_no_key_finds_nothing() {
    let t = build(WORDS.len());
    for q in ["d", "cb", "catt", "lst", "xx", "chx", "cargos"] {
        assert!(t.complete(q).is_empty());
    }
}

#[test]
fn completion_is_the_filter_of_all_entries() {
    let t = build(WORDS.len());
    let all = t.complete("");
    for q in ["", "c", "ca", "car", "carg", "ch", "cho", "l", "ls", "lsh", "x", "y"] {
        let expected: Vec<(String, usize)> = all
            .iter()
            .filter(|e| e.0.starts_with(q))
            .map(|e| (e.0.clone(), *e.1))
            .collect();
        let found: Vec<(String, usize)> =
            t.complete(q).iter().map(|e| (e.0.clone(), *e.1)).collect();
        assert_eq!(found, expected);
    }
}

#[test]
fn last_payload_of_a_key_is_kept() {
    let t = build(WORDS.len());
    let found = t.complete("cargo");
    assert_eq!(found.len(), 1);
    assert_eq!(found[0].0, "cargo");
    assert_eq!(*found[0].1, 11);
}

fn next(seed: &mut u64) -> u64 {
    *seed = seed
        .wrapping_mul(6364136223846793005)
        .wrapping_add(1442695040888963407);
    *seed >> 33
}

fn word(seed: &mut u64) -> String {
    let len = 1 + next(seed) % 5;
    (0..len)
        .map(|_| ['a', 'b', '\u{e9}'][(next(seed) % 3) as usize])
        .collect()
}

fn store(entries: &mut Vec<(String, u64)>, key: &str, payload: u64) {
    if let Some(e) = entries.iter_mut().find(|e| e.0 == key) {
        e.1 = payload;
        return;
    }
    let mut at = 0;
    let mut best = 0;
    for (i, e) in entries.iter().enumerate() {
        let shared = common_prefix_length(&e.0, key);
        if shared >= best {
            best = shared;
            at = i + 1;
        }
    }
    entries.insert(at, (key.to_string(), payload));
}

#[test]
fn entries_follow_every_insertion() {
    let mut seed = 7;
    let mut t = AbbrevTree::new();
    let mut entries: Vec<(String, u64)> = Vec::new();
    for n in 0..400 {
        let key = word(&mut seed);
        t.add(&key, n);
        store(&mut entries, &key, n);
        let found: Vec<(String, u64)> =
            t.complete("").iter().map(|e| (e.0.clone(), *e.1)).collect();
        assert_eq!(found, entries);
        check_siblings(&t);
        check_compressed(&t);
        let hits = t.complete(&key);
        assert_eq!(hits.iter().filter(|e| e.0 == key).count(), 1);
        assert!(hits.iter().all(|e| e.0.starts_with(&key)));
    }
    assert!(entries.len() > 100);
}

fn check_compressed<T>(node: &AbbrevTree<T>) {
    for i in 0..node.len() {
        let child = node.subtree(i);
        assert_ne!(child.len(), 1);
        assert_eq!(child.payload().is_some(), child.len() == 0);
        if node.label(i).is_empty() {
            assert_eq!(child.len(), 0);
        }
        check_compressed(child);
    }
}
