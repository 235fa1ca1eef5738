use abbrev_tree::{common_prefix_length, AbbrevTree, Completion};

#[test]
fn test_abbrev_tree() {
    let mut t = AbbrevTree::new();
    println!("{:?}", t.outline());
    assert_eq!(t.len(), 0);

    t.add("cat", ());
    println!("{:?}", t.outline());
    assert_eq!(t.len(), 1);
    assert_eq!(t.label(0), "cat");
    assert_eq!(t.subtree(0).len(), 0);

    t.add("cargo", ());
    println!("{:?}", t.outline());
    assert_eq!(t.len(), 1);
    assert_eq!(t.label(0), "ca");
    assert_eq!(t.subtree(0).len(), 2);
    assert_eq!(t.subtree(0).label(0), "t");
    assert_eq!(t.subtree(0).subtree(0).len(), 0);
    assert_eq!(t.subtree(0).label(1), "rgo");
    assert_eq!(t.subtree(0).subtree(1).len(), 0);

    t.add("chmod", ());
    println!("{:?}", t.outline());
    assert_eq!(t.len(), 1);
    assert_eq!(t.label(0), "c");

    t.add("chown", ());
    println!("{:?}", t.outline());
    assert_eq!(t.len(), 1);
    assert_eq!(t.label(0), "c");

    t.add("ls", ());
    println!("{:?}", t.outline());
    assert_eq!(t.len(), 2);
    assert_eq!(t.label(0), "c");
    assert_eq!(t.label(1), "ls");

    t.add("lshw", ());
    println!("{:?}", t.outline());

    assert_eq!(
        Completion::of(&t.complete("c")), Completion::Many
    );
    assert_eq!(
        Completion::of(&t.complete("ca")), Completion::Many
    );
    assert_eq!(
        Completion::of(&t.complete("cat")), Completion::One("cat".to_string())
    );
    assert_eq!(
        Completion::of(&t.complete("ch")), Completion::Many
    );
    assert_eq!(
        Completion::of(&t.complete("cho")), Completion::One("chown".to_string())
    );
    assert_eq!(
        Completion::of(&t.complete("chow")), Completion::One("chown".to_string())
    );
    assert_eq!(
        Completion::of(&t.complete("chown")), Completion::One("chown".to_string())
    );
    assert_eq!(
        Completion::of(&t.complete("l")), Completion::Many,
    );
    assert_eq!(
        Completion::of(&t.complete("ls")), Completion::Many,
    );
    assert_eq!(
        Completion::of(&t.complete("lsh")), Completion::One("lshw".to_string())
    );
    assert_eq!(
        Completion::of(&t.complete("lshw")), Completion::One("lshw".to_string())
    );
    assert_eq!(
        Completion::of(&t.complete("x")), Completion::Zero
    );
    assert_eq!(
        Completion::of(&t.complete("xyz")), Completion::Zero
    );
}

#[test]
fn test_common_prefix_length() {
    assert_eq!(common_prefix_length("", "foo"), 0);
    assert_eq!(common_prefix_length("foo", "foo"), 3);
    assert_eq!(common_prefix_length("foo", "foobar"), 3);
    assert_eq!(common_prefix_length("foobar", "foo"), 3);
    assert_eq!(common_prefix_length("foobar", "bar"), 0);
    assert_eq!(common_prefix_length("foobar", "foofuzz"), 3);
}
