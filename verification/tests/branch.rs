//! Branch trees: branches, tags, roots and their stored form.

use substrate::branch::BranchTree;
use substrate::error::PagerError;
use substrate::manifest::ManifestId;

fn m(n: u8) -> ManifestId {
    ManifestId::from_bytes([n; 32])
}

#[test]
fn branches_move_and_tags_do_not() -> Result<(), PagerError> {
    let mut tree = BranchTree::rooted("main", m(1));

    let previous = tree.set_head("main", m(2))?;
    assert_eq!(previous, m(1));
    assert_eq!(tree.head("main"), Some(m(2)));

    tree.tag("v1.0", m(2))?;
    assert!(tree.tag("v1.0", m(3)).is_err(), "a tag that can be silently moved is not a tag");
    assert_eq!(tree.tagged("v1.0"), Some(m(2)));

    assert_eq!(tree.retag("v1.0", m(3)), Some(m(2)));
    assert_eq!(tree.tagged("v1.0"), Some(m(3)));
    Ok(())
}

#[test]
fn tagging_the_same_state_twice_is_a_no_op_not_an_error() -> Result<(), PagerError> {
    let mut tree = BranchTree::rooted("main", m(1));
    tree.tag("v1.0", m(1))?;
    tree.tag("v1.0", m(1))?;
    Ok(())
}

#[test]
fn creating_a_branch_that_exists_is_refused() -> Result<(), PagerError> {
    let mut tree = BranchTree::rooted("main", m(1));
    assert!(
        tree.branch("main", m(2)).is_err(),
        "silently moving main would discard whatever it pointed at"
    );
    tree.branch("experiment", m(1))?;
    assert_eq!(tree.head("experiment"), Some(m(1)));
    Ok(())
}

#[test]
fn moving_a_branch_that_does_not_exist_is_an_error_not_a_creation() {
    let mut tree = BranchTree::new();
    assert!(matches!(tree.set_head("ghost", m(1)), Err(PagerError::NoSuchRef { .. })));
}

#[test]
fn roots_are_every_branch_and_every_tag() -> Result<(), PagerError> {
    let mut tree = BranchTree::rooted("main", m(1));
    tree.branch("experiment", m(2))?;
    tree.tag("v1.0", m(3))?;

    let roots = tree.roots();
    assert!(roots.contains(&m(1)));
    assert!(roots.contains(&m(2)));
    assert!(roots.contains(&m(3)), "a tag is a GC root too");
    assert_eq!(roots.len(), 3);
    Ok(())
}

#[test]
fn a_deleted_branch_stops_being_a_root() -> Result<(), PagerError> {
    let mut tree = BranchTree::rooted("main", m(1));
    tree.branch("doomed", m(2))?;
    assert_eq!(tree.delete_branch("doomed")?, m(2));
    assert!(!tree.roots().contains(&m(2)));
    assert!(tree.delete_branch("doomed").is_err());
    Ok(())
}

#[test]
fn branch_round_trips_through_bytes() -> Result<(), PagerError> {
    let mut tree = BranchTree::rooted("main", m(1));
    tree.branch("experiment", m(2))?;
    tree.tag("v1.0", m(3))?;
    assert_eq!(BranchTree::decode(&tree.encode()?)?, tree);
    Ok(())
}

#[test]
fn a_branch_and_a_tag_may_share_a_name_and_a_manifest() -> Result<(), PagerError> {
    let mut tree = BranchTree::new();
    assert!(tree.is_empty());
    tree.branch("release", m(4))?;
    tree.tag("release", m(4))?;
    assert_eq!(tree.len(), 1, "branches are counted, tags are not");
    assert_eq!(tree.roots(), vec![m(4)]);
    assert_eq!(tree.branches(), vec![("release".to_string(), m(4))]);
    assert_eq!(tree.tags(), vec![("release".to_string(), m(4))]);
    Ok(())
}

#[test]
fn refusals_name_the_kind_and_the_name() {
    let mut tree = BranchTree::rooted("main", m(1));
    match tree.branch("main", m(1)) {
        Err(PagerError::RefExists { kind, name }) => {
            assert_eq!(kind, "branch");
            assert_eq!(name, "main");
        }
        other => panic!("{other:?}"),
    }
    match tree.delete_branch("gone") {
        Err(PagerError::NoSuchRef { kind, name }) => {
            assert_eq!(kind, "branch");
            assert_eq!(name, "gone");
        }
        other => panic!("{other:?}"),
    }
}

#[test]
fn bytes_that_are_no_tree_are_an_error() {
    assert!(matches!(BranchTree::decode(&[1, 2, 3]), Err(PagerError::Codec { .. })));
}

#[test]
fn a_cloned_tree_goes_its_own_way() -> Result<(), PagerError> {
    let mut tree = BranchTree::rooted("main", m(1));
    tree.tag("v1.0", m(1))?;
    let before = tree.clone();
    assert_eq!(before, tree);
    tree.set_head("main", m(2))?;
    assert_eq!(before.head("main"), Some(m(1)));
    assert_eq!(before.tagged("v1.0"), Some(m(1)));
    assert_ne!(before, tree);
    Ok(())
}
