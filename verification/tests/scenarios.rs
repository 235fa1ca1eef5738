use abbrev_tree::quote::indented;
use abbrev_tree::{common_prefix_length, AbbrevTree, Completion};

fn keys<T>(found: &Vec<(String, &T)>) -> Vec<String> {
    found.iter().map(|e| e.0.clone()).collect()
}

fn tree_of(words: &[&str]) -> AbbrevTree<usize> {
    let mut t = AbbrevTree::new();
    for (n, w) in words.iter().enumerate() {
        t.add(w, n);
    }
    t
}

#[test]
fn shared_edge_branches_after_split() {
    let t = tree_of(&["cat", "cargo"]);
    assert_eq!(t.len(), 1);
    assert_eq!(t.label(0), "ca");
    assert_eq!(t.payload(), None);
    let ca = t.subtree(0);
    assert_eq!(ca.payload(), None);
    assert_eq!(ca.len(), 2);
    assert_eq!(ca.label(0), "t");
    assert_eq!(ca.subtree(0).payload(), Some(&0));
    assert_eq!(ca.label(1), "rgo");
    assert_eq!(ca.subtree(1).payload(), Some(&1));
}

#[test]
fn complete_lists_keys_in_edge_order() {
    let t = tree_of(&["cat", "cargo", "chmod", "chown"]);
    let found = t.complete("c");
    assert_eq!(keys(&found), vec!["cat", "cargo", "chmod", "chown"]);
    let payloads: Vec<usize> = found.iter().map(|e| *e.1).collect();
    assert_eq!(payloads, vec![0, 1, 2, 3]);
}

#[test]
fn key_that_extends_a_stored_key() {
    let t = tree_of(&["ls", "lshw"]);
    assert_eq!(keys(&t.complete("ls")), vec!["ls", "lshw"]);
    assert_eq!(keys(&t.complete("lsh")), vec!["lshw"]);
    assert_eq!(t.len(), 1);
    assert_eq!(t.label(0), "ls");
    let ls = t.subtree(0);
    assert_eq!(ls.len(), 2);
    assert_eq!(ls.label(0), "");
    assert_eq!(ls.subtree(0).payload(), Some(&0));
    assert_eq!(ls.label(1), "hw");
    assert_eq!(ls.subtree(1).payload(), Some(&1));
    assert_eq!(ls.payload(), None);
}

#[test]
fn unmatched_prefix_gives_nothing() {
    let t = tree_of(&["cat", "cargo", "chmod", "chown", "ls", "lshw"]);
    assert!(t.complete("x").is_empty());
    assert!(t.complete("xyz").is_empty());
    assert!(t.complete("cab").is_empty());
    assert!(t.complete("catalog").is_empty());
    assert!(t.complete("lshwx").is_empty());
}

#[test]
fn query_inside_an_edge_finds_the_key() {
    let t = tree_of(&["chown"]);
    assert_eq!(keys(&t.complete("cho")), vec!["chown"]);
    assert_eq!(keys(&t.complete("chow")), vec!["chown"]);
    assert_eq!(keys(&t.complete("chown")), vec!["chown"]);
    assert_eq!(keys(&t.complete("chowns")), Vec::<String>::new());
}

#[test]
fn empty_tree_completes_to_nothing() {
    let t: AbbrevTree<u8> = AbbrevTree::new();
    assert_eq!(t.len(), 0);
    assert_eq!(t.payload(), None);
    assert!(t.complete("").is_empty());
    assert!(t.complete("a").is_empty());
    assert_eq!(Completion::of(&t.complete("")), Completion::Zero);
    assert!(t.outline().is_empty());
}

#[test]
fn empty_key_is_not_stored() {
    let mut t = tree_of(&["cat"]);
    t.add("", 7);
    assert_eq!(t.len(), 1);
    assert_eq!(t.label(0), "cat");
    assert_eq!(t.payload(), None);
    assert_eq!(keys(&t.complete("")), vec!["cat"]);

    let mut empty: AbbrevTree<usize> = AbbrevTree::new();
    empty.add("", 7);
    assert_eq!(empty.len(), 0);
    assert_eq!(empty.payload(), None);
    assert!(empty.complete("").is_empty());
}

#[test]
fn stored_key_takes_the_new_payload() {
    let mut t = tree_of(&["cat", "cargo", "ls", "lshw"]);
    t.add("cat", 10);
    t.add("ls", 11);
    t.add("lshw", 12);
    let found = t.complete("");
    assert_eq!(keys(&found), vec!["cat", "cargo", "ls", "lshw"]);
    let payloads: Vec<usize> = found.iter().map(|e| *e.1).collect();
    assert_eq!(payloads, vec![10, 1, 11, 12]);
    assert_eq!(t.len(), 2);
    assert_eq!(t.subtree(0).len(), 2);
    assert_eq!(t.subtree(1).len(), 2);
    assert_eq!(t.subtree(1).label(0), "");
    assert_eq!(t.subtree(1).label(1), "hw");
}

#[test]
fn key_that_is_a_prefix_of_stored_keys() {
    let mut t = tree_of(&["cargo", "cat"]);
    t.add("ca", 5);
    assert_eq!(t.len(), 1);
    assert_eq!(t.label(0), "ca");
    let ca = t.subtree(0);
    assert_eq!(ca.len(), 3);
    assert_eq!(ca.label(0), "rgo");
    assert_eq!(ca.label(1), "t");
    assert_eq!(ca.label(2), "");
    assert_eq!(ca.subtree(2).payload(), Some(&5));
    assert_eq!(keys(&t.complete("ca")), vec!["cargo", "cat", "ca"]);
    assert_eq!(keys(&t.complete("cat")), vec!["cat"]);

    t.add("ca", 6);
    assert_eq!(t.subtree(0).len(), 3);
    assert_eq!(t.subtree(0).subtree(2).payload(), Some(&6));
    assert_eq!(keys(&t.complete("ca")), vec!["cargo", "cat", "ca"]);
}

#[test]
fn key_cut_inside_an_edge() {
    let mut t = tree_of(&["chown"]);
    t.add("ch", 1);
    assert_eq!(t.len(), 1);
    assert_eq!(t.label(0), "ch");
    let ch = t.subtree(0);
    assert_eq!(ch.len(), 2);
    assert_eq!(ch.label(0), "own");
    assert_eq!(ch.label(1), "");
    assert_eq!(keys(&t.complete("c")), vec!["chown", "ch"]);
    assert_eq!(*t.complete("ch")[1].1, 1);
}

#[test]
fn new_key_goes_behind_its_best_match() {
    let mut t = tree_of(&["cat", "dog", "cargo", "door"]);
    assert_eq!(keys(&t.complete("")), vec!["cat", "cargo", "dog", "door"]);
    t.add("cab", 9);
    assert_eq!(keys(&t.complete("")), vec!["cat", "cargo", "cab", "dog", "door"]);
    t.add("catalog", 10);
    assert_eq!(
        keys(&t.complete("")),
        vec!["cat", "catalog", "cargo", "cab", "dog", "door"]
    );
    t.add("emu", 11);
    assert_eq!(
        keys(&t.complete("")),
        vec!["cat", "catalog", "cargo", "cab", "dog", "door", "emu"]
    );
}

#[test]
fn labels_are_cut_between_characters() {
    let mut t = AbbrevTree::new();
    t.add("h\u{e9}llo", 1);
    t.add("h\u{e9}ron", 2);
    t.add("h\u{e8}re", 3);
    assert_eq!(t.len(), 1);
    assert_eq!(t.label(0), "h");
    let h = t.subtree(0);
    assert_eq!(h.len(), 2);
    assert_eq!(h.label(0), "\u{e9}");
    assert_eq!(h.label(1), "\u{e8}re");
    assert_eq!(h.subtree(0).label(0), "llo");
    assert_eq!(h.subtree(0).label(1), "ron");
    assert_eq!(
        keys(&t.complete("h\u{e9}")),
        vec!["h\u{e9}llo", "h\u{e9}ron"]
    );
    assert_eq!(keys(&t.complete("h\u{e8}")), vec!["h\u{e8}re"]);
    assert!(t.complete("he").is_empty());
}

#[test]
fn common_prefix_is_counted_in_characters() {
    assert_eq!(common_prefix_length("", ""), 0);
    assert_eq!(common_prefix_length("a", ""), 0);
    assert_eq!(common_prefix_length("h\u{e9}llo", "h\u{e9}ron"), 2);
    assert_eq!(common_prefix_length("h\u{e9}", "h\u{e8}"), 1);
    assert_eq!(common_prefix_length("\u{65e5}\u{672c}", "\u{65e5}\u{5149}"), 1);
    assert_eq!(common_prefix_length("\u{1f600}x", "\u{1f600}y"), 1);
    assert_eq!(common_prefix_length("abc", "abd"), 2);
    assert_eq!(common_prefix_length("abd", "abc"), 2);
}

#[test]
fn completion_sums_up_what_was_found() {
    let t = tree_of(&["cat", "cargo"]);
    assert_eq!(Completion::of(&t.complete("dog")), Completion::Zero);
    assert_eq!(
        Completion::of(&t.complete("car")),
        Completion::One("cargo".to_string())
    );
    assert_eq!(Completion::of(&t.complete("ca")), Completion::Many);
    assert_eq!(Completion::of(&t.complete("")), Completion::Many);
    let none: Vec<(String, &u8)> = Vec::new();
    assert_eq!(Completion::of(&none), Completion::Zero);
    let one = vec![("only".to_string(), &1u8)];
    assert_eq!(Completion::of(&one), Completion::One("only".to_string()));
    let two = vec![("a".to_string(), &1u8), ("b".to_string(), &2u8)];
    assert_eq!(Completion::of(&two), Completion::Many);
}

#[test]
fn outline_shows_every_edge_at_its_depth() {
    let t = tree_of(&["cat", "cargo", "chmod", "chown", "ls", "lshw"]);
    assert_eq!(
        t.outline(),
        vec![
            "\"c\"",
            "  \"a\"",
            "    \"t\"",
            "    \"rgo\"",
            "  \"h\"",
            "    \"mod\"",
            "    \"own\"",
            "\"ls\"",
            "  \"\"",
            "  \"hw\"",
        ]
    );
}

#[test]
fn outline_escapes_labels_as_debug_does() {
    let t = tree_of(&["\""]);
    assert_eq!(t.outline(), vec!["\"\\\"\""]);
    assert_eq!(t.outline()[0].chars().count(), 4);

    let t = tree_of(&["a\\b", "a\\c", "tab\there", "line\nbreak", "q\"uote"]);
    assert_eq!(
        t.outline(),
        vec![
            "\"a\\\\\"",
            "  \"b\"",
            "  \"c\"",
            "\"tab\\there\"",
            "\"line\\nbreak\"",
            "\"q\\\"uote\"",
        ]
    );
    for (line, label) in t.outline().iter().zip(["a\\", "b", "c"]) {
        assert_eq!(line.trim_start(), format!("{:?}", label));
    }
}

#[test]
fn indented_puts_the_text_behind_the_indent() {
    assert_eq!(indented("", ""), "");
    assert_eq!(indented("    ", "\"rgo\""), "    \"rgo\"");
    assert_eq!(indented("  ", "x"), "  x");
    assert_eq!(indented("", "\"\\\"\""), "\"\\\"\"");
}
