use conflict_labels::labels::ConflictLabels;
use conflict_labels::merge::Merge;

fn strings(items: &[&str]) -> Vec<String> {
    items.iter().map(|s| s.to_string()).collect()
}

#[test]
fn test_conflict_labels_from_vec() {
    // From empty vec for unlabeled
    assert_eq!(
        ConflictLabels::from_vec(vec![]),
        ConflictLabels::unlabeled()
    );
    // From non-empty vec of terms
    assert_eq!(
        ConflictLabels::from_vec(vec![
            String::from("left"),
            String::from("base"),
            String::from("right")
        ]),
        ConflictLabels::from(Some(Merge::from_vec(vec!["left", "base", "right"])))
    );
}

#[test]
fn test_conflict_labels_as_slice() {
    // Empty slice for unlabeled
    let empty: &[String] = &[];
    assert_eq!(ConflictLabels::unlabeled().as_slice(), empty);
    // Slice of terms for labeled
    assert_eq!(
        ConflictLabels::from(Some(Merge::from_vec(vec!["left", "base", "right"]))).as_slice(),
        &[
            String::from("left"),
            String::from("base"),
            String::from("right")
        ]
    );
}

#[test]
fn positional_list_keeps_labels_and_sides() {
    let labels = ConflictLabels::from_vec(strings(&["a", "b", "c", "d", "e"]));
    assert!(labels.is_present());
    assert_eq!(labels.as_slice(), &strings(&["a", "b", "c", "d", "e"])[..]);
    assert_eq!(labels.num_sides(), Some(3));
    assert_eq!(labels.get_add(0), Some("a"));
    assert_eq!(labels.get_add(1), Some("c"));
    assert_eq!(labels.get_add(2), Some("e"));
    assert_eq!(labels.get_add(3), None);
    assert_eq!(labels.get_remove(0), Some("b"));
    assert_eq!(labels.get_remove(1), Some("d"));
    assert_eq!(labels.get_remove(2), None);
}

#[test]
fn empty_label_drops_all_labels() {
    let labels = ConflictLabels::new(Merge::from_vec(strings(&["left", "", "right"])));
    assert_eq!(labels, ConflictLabels::unlabeled());
    assert!(!labels.is_present());
    let labels = ConflictLabels::from_vec(strings(&["left", "base", ""]));
    assert_eq!(labels, ConflictLabels::unlabeled());
}

#[test]
fn resolved_merge_has_no_labels() {
    let labels = ConflictLabels::new(Merge::resolved(String::from("only")));
    assert_eq!(labels, ConflictLabels::unlabeled());
    assert_eq!(ConflictLabels::from_vec(strings(&["only"])), ConflictLabels::unlabeled());
}

#[test]
fn presence_accessors_agree() {
    let unlabeled = ConflictLabels::unlabeled();
    assert!(!unlabeled.is_present());
    assert!(unlabeled.as_merge().is_none());
    assert!(unlabeled.num_sides().is_none());
    assert_eq!(unlabeled.get_add(0), None);
    assert_eq!(unlabeled.get_remove(0), None);
    let labeled = ConflictLabels::from_vec(strings(&["left", "base", "right"]));
    assert!(labeled.is_present());
    assert!(labeled.as_merge().is_some());
    assert_eq!(labeled.num_sides(), Some(2));
}

#[test]
fn clones_share_labels() {
    let labels = ConflictLabels::from_vec(strings(&["left", "base", "right"]));
    let copy = labels.clone();
    assert_eq!(copy, labels);
    let a = labels.as_merge().unwrap();
    let b = copy.as_merge().unwrap();
    assert!(std::ptr::eq(a, b));
}

#[test]
fn round_trip_through_merges() {
    let labels = ConflictLabels::from_vec(strings(&["left", "base", "right"]));
    let borrowed: Vec<String> = labels.as_merge().unwrap().as_slice().to_vec();
    let shared = labels.clone();
    let owned = labels.into_merge().unwrap();
    assert_eq!(owned.as_slice(), &borrowed[..]);
    assert_eq!(owned.as_slice(), &strings(&["left", "base", "right"])[..]);
    let alone = shared.into_merge().unwrap();
    assert_eq!(alone.as_slice(), &borrowed[..]);
    assert!(ConflictLabels::unlabeled().into_merge().is_none());
}

#[test]
fn equality_ignores_how_unlabeled_was_made() {
    let a = ConflictLabels::unlabeled();
    let b = ConflictLabels::from_vec(vec![]);
    let c = ConflictLabels::new(Merge::from_vec(strings(&["x", "", "y"])));
    let d = ConflictLabels::from(None::<Merge<String>>);
    assert_eq!(a, b);
    assert_eq!(b, c);
    assert_eq!(a, c);
    assert_eq!(c, d);
    let x = ConflictLabels::from_vec(strings(&["left", "base", "right"]));
    let y = ConflictLabels::from(Merge::from_vec(strings(&["left", "base", "right"])));
    let z = ConflictLabels::from(Merge::from_vec(vec!["left", "base", "other"]));
    assert_eq!(x, x);
    assert_eq!(x, y);
    assert_eq!(y, x);
    assert_ne!(x, z);
    assert_ne!(x, a);
    assert_ne!(a, x);
}

#[test]
fn simplify_with_unlabeled_matches_simplify() {
    let values = Merge::from_vec(vec![1u64, 2, 2, 3, 4]);
    let (labels, simplified) = ConflictLabels::unlabeled().simplify_with(&values);
    assert_eq!(labels, ConflictLabels::unlabeled());
    assert_eq!(simplified.as_slice(), values.simplify().as_slice());
    assert_eq!(simplified.as_slice(), &[1u64, 3, 4]);
}

#[test]
fn simplify_with_equal_sides_keeps_everything() {
    // The two equal values are both add terms: no add term equals the remove term.
    let labels = ConflictLabels::from_vec(strings(&["left", "base", "right"]));
    let values = Merge::from_vec(vec!['A', 'B', 'A']);
    let (labels, simplified) = labels.simplify_with(&values);
    assert_eq!(labels.as_slice(), &strings(&["left", "base", "right"])[..]);
    assert_eq!(simplified.as_slice(), &['A', 'B', 'A']);
}

#[test]
fn simplify_with_keeps_labels_with_their_terms() {
    let labels = ConflictLabels::from_vec(strings(&["l1", "b1", "l2", "b2", "l3"]));
    let values = Merge::from_vec(vec!['X', 'Y', 'Y', 'Z', 'W']);
    let (labels, simplified) = labels.simplify_with(&values);
    assert_eq!(simplified.as_slice(), &['X', 'Z', 'W']);
    assert_eq!(labels.as_slice(), &strings(&["l1", "b2", "l3"])[..]);
    assert_eq!(labels.num_sides(), Some(2));
}

#[test]
fn simplify_with_moves_the_cancelled_add() {
    // The add at 0 matches the remove at 3; the add at 4 takes its place.
    let labels = ConflictLabels::from_vec(strings(&["l1", "b1", "l2", "b2", "l3"]));
    let values = Merge::from_vec(vec![7u64, 1, 2, 7, 3]);
    let (labels, simplified) = labels.simplify_with(&values);
    assert_eq!(simplified.as_slice(), &[3u64, 1, 2]);
    assert_eq!(labels.as_slice(), &strings(&["l3", "b1", "l2"])[..]);
}

#[test]
fn simplify_with_resolved_result_drops_labels() {
    let labels = ConflictLabels::from_vec(strings(&["left", "base", "right"]));
    let values = Merge::from_vec(vec![5u64, 5, 9]);
    let (labels, simplified) = labels.simplify_with(&values);
    assert_eq!(labels, ConflictLabels::unlabeled());
    assert_eq!(simplified.as_slice(), &[9u64]);
}

#[test]
fn merge_accessors() {
    let merge = Merge::from_vec(vec![10u64, 20, 30]);
    assert!(!merge.is_resolved());
    assert_eq!(merge.num_sides(), 2);
    assert_eq!(merge.get_add(1), Some(&30));
    assert_eq!(merge.get_remove(0), Some(&20));
    assert_eq!(merge.get_remove(1), None);
    assert!(Merge::resolved(1u64).is_resolved());
    assert_eq!(merge.simplified_positions(), vec![0usize, 1, 2]);
}

#[test]
fn debug_rendering_of_labels() {
    assert_eq!(ConflictLabels::unlabeled().debug_string(), "Unlabeled");
    let labels = ConflictLabels::from_vec(strings(&["left", "base", "right"]));
    assert_eq!(labels.debug_string(), r#"Labeled(["left", "base", "right"])"#);
    let labels = ConflictLabels::from_vec(strings(&["a\"b", "c\nd", "e"]));
    assert_eq!(labels.debug_string(), r#"Labeled(["a\"b", "c\nd", "e"])"#);
}

#[test]
fn present_labels_rebuild_to_the_same_set() {
    let labels = ConflictLabels::from_vec(strings(&["left", "base", "right"]));
    assert_eq!(ConflictLabels::from_vec(labels.as_slice().to_vec()), labels);
    assert_eq!(ConflictLabels::new(labels.as_merge().unwrap().clone()), labels);
    assert!(labels.num_sides().unwrap() >= 2);
    assert!(!labels.get_add(1).unwrap().is_empty());
    assert!(!labels.get_remove(0).unwrap().is_empty());
    let none = ConflictLabels::unlabeled();
    assert_eq!(ConflictLabels::from_vec(none.as_slice().to_vec()), none);
}

#[test]
fn from_optional_label_set() {
    let labels = ConflictLabels::from_vec(strings(&["left", "base", "right"]));
    assert_eq!(ConflictLabels::from(Some(labels.clone())), labels);
    assert_eq!(ConflictLabels::from(None::<ConflictLabels>), ConflictLabels::unlabeled());
}
