use driftdb::{Subject, SubjectTree};

fn subject(s: &str) -> Subject {
    Subject::from_dotted(s)
}

#[test]
fn test_no_subscriptions() {
    let tree = SubjectTree::<Vec<usize>>::new();
    let subscriptions = tree.gather_prefix(&subject(""));
    assert_eq!(subscriptions.len(), 0);
}

#[test]
fn test_exact_subscription() {
    let mut tree = SubjectTree::<Vec<usize>>::new();
    let sub = subject("a");
    tree.push(&sub, 0);
    let subscriptions = tree.gather_prefix(&sub);
    assert_eq!(vec![&0], subscriptions);
}

#[test]
fn test_wildcard_subscription() {
    let mut tree = SubjectTree::<Vec<usize>>::new();
    tree.push(&subject("a"), 0);
    let subscriptions = tree.gather_prefix(&subject("a.b"));
    assert_eq!(vec![&0], subscriptions);
}

#[test]
fn test_wildcard_subscription_levels() {
    let mut tree = SubjectTree::<Vec<usize>>::new();
    tree.push(&subject("a"), 0);
    tree.push(&subject("a.b"), 1);
    tree.push(&subject("a.b.c"), 2);
    tree.push(&subject(""), 3);
    tree.push(&subject("a.b.c.d"), 4);
    let subscriptions = tree.gather_prefix(&subject("a.b.c"));
    assert_eq!(vec![&3, &0, &1, &2], subscriptions);
}

#[test]
fn gather_collects_values_below_a_prefix() {
    let mut tree = SubjectTree::<Vec<usize>>::new();
    tree.push(&subject("a"), 0);
    tree.push(&subject("a.b"), 1);
    tree.push(&subject("x"), 2);
    tree.push(&subject("a.b.c"), 3);
    tree.push(&subject("a"), 4);
    assert_eq!(vec![&0, &4, &1, &3], tree.gather(&subject("a")));
    assert_eq!(vec![&1, &3], tree.gather(&subject("a.b")));
    assert_eq!(Vec::<&usize>::new(), tree.gather(&subject("y")));
}

#[test]
fn gather_puts_the_subject_itself_first() {
    let mut tree = SubjectTree::<Vec<usize>>::new();
    tree.push(&subject("a.b"), 1);
    tree.push(&subject("a"), 0);
    tree.push(&subject("a.c"), 2);
    assert_eq!(vec![&0, &1, &2], tree.gather(&subject("a")));
    let mut named = SubjectTree::<Option<u32>>::new();
    named.set(&subject("a.b"), 1);
    named.set(&subject("a"), 0);
    assert_eq!(
        vec![(subject("a"), &0), (subject("a.b"), &1)],
        named.gather_with_subject(&subject("a"))
    );
}

#[test]
fn option_tree_set_get_and_default() {
    let mut tree = SubjectTree::<Option<u32>>::new();
    assert_eq!(None, tree.get(&subject("a.b")));
    tree.set(&subject("a.b"), 5);
    assert_eq!(Some(&5), tree.get(&subject("a.b")));
    tree.set(&subject("a.b"), 6);
    assert_eq!(Some(&6), tree.get(&subject("a.b")));
    *tree.get_or_default(&subject("a.b")) += 1;
    assert_eq!(Some(&7), tree.get(&subject("a.b")));
    assert_eq!(0, *tree.get_or_default(&subject("c")));
    assert_eq!(Some(&0), tree.get(&subject("c")));
}

#[test]
fn option_tree_gather_with_subject() {
    let mut tree = SubjectTree::<Option<u32>>::new();
    tree.set(&subject("a"), 1);
    tree.set(&subject("b"), 2);
    tree.set(&subject("a.c"), 3);
    let found = tree.gather_with_subject(&subject("a"));
    assert_eq!(vec![(subject("a"), &1), (subject("a.c"), &3)], found);
}

#[test]
fn test_deserialize_subject_string() {
    let subject = Subject::from_dotted("a.b.c");
    assert_eq!(&subject.0, &["a", "b", "c"]);
}

#[test]
fn test_deserialize_subject_list() {
    let subject = Subject(vec!["a".to_string(), "b".to_string(), "c".to_string()]);
    assert_eq!(&subject.0, &["a", "b", "c"]);
}

#[test]
fn test_deserialize_subject_list_containing_dots() {
    let subject = Subject(vec![
        "a".to_string(),
        "b".to_string(),
        "c".to_string(),
        "d.e.f".to_string(),
    ]);
    assert_eq!(&subject.0, &["a", "b", "c", "d.e.f"]);
}

#[test]
fn test_deserialize_empty_string() {
    let subject = Subject::from_dotted("");
    assert!(&subject.0.is_empty());
}

#[test]
fn dotted_subject_keeps_empty_parts() {
    assert_eq!(&Subject::from_dotted("a..b").0, &["a", "", "b"]);
    assert_eq!(&Subject::from_dotted(".").0, &["", ""]);
}
