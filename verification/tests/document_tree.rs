use lolite::document::{find_attribute, Document, DocumentError};
use lolite::Id;

fn ids(doc: &Document, indices: &[usize]) -> Vec<u64> {
    indices.iter().map(|i| doc.nodes[*i].id.value()).collect()
}

fn children_of(doc: &Document, id: u64) -> Vec<u64> {
    let index = doc.index_of(Id::from_u64(id)).unwrap();
    ids(doc, &doc.nodes[index].children)
}

fn parent_of(doc: &Document, id: u64) -> Option<u64> {
    let index = doc.index_of(Id::from_u64(id)).unwrap();
    doc.nodes[index].parent.map(|p| doc.nodes[p].id.value())
}

fn family() -> Document {
    // 0 -> 1 -> (2, 3), 4 detached
    let mut doc = Document::new();
    for id in 1..5 {
        doc.create_node(Id::from_u64(id), None);
    }
    doc.set_parent(Id::from_u64(0), Id::from_u64(1)).unwrap();
    doc.set_parent(Id::from_u64(1), Id::from_u64(2)).unwrap();
    doc.set_parent(Id::from_u64(1), Id::from_u64(3)).unwrap();
    doc
}

#[test]
fn id_round_trip() {
    assert_eq!(Id::from_u64(17).value(), 17);
    assert_eq!(Id::from_u64(17).as_u64(), 17);
    assert_eq!(Id::from_u64(u64::MAX).value(), u64::MAX);
    assert_eq!(Id::from_u64(5), Id::from_u64(5));
    assert_ne!(Id::from_u64(5), Id::from_u64(6));
    assert_eq!(Id::default().value(), 0);
}

#[test]
fn a_new_document_has_only_its_root() {
    let doc = Document::new();
    assert_eq!(doc.nodes.len(), 1);
    assert_eq!(doc.root_id(), Id::from_u64(0));
    assert_eq!(doc.index_of(Id::from_u64(0)), Some(0));
    assert_eq!(doc.index_of(Id::from_u64(1)), None);
    assert!(doc.nodes[0].children.is_empty());
    assert!(doc.nodes[0].parent.is_none());
}

#[test]
fn create_node_adds_a_detached_node() {
    let mut doc = Document::new();
    let id = doc.create_node(Id::from_u64(9), Some("hello".to_owned()));
    assert_eq!(id, Id::from_u64(9));
    assert_eq!(doc.nodes.len(), 2);
    assert_eq!(doc.index_of(id), Some(1));
    assert_eq!(doc.nodes[1].text.as_deref(), Some("hello"));
    assert!(doc.nodes[1].attributes.is_empty());
    assert!(doc.nodes[1].children.is_empty());
    assert!(doc.nodes[1].parent.is_none());
}

#[test]
fn create_node_with_a_taken_id_changes_nothing() {
    let mut doc = Document::new();
    doc.create_node(Id::from_u64(9), Some("first".to_owned()));
    let id = doc.create_node(Id::from_u64(9), Some("second".to_owned()));
    assert_eq!(id, Id::from_u64(9));
    assert_eq!(doc.nodes.len(), 2);
    assert_eq!(doc.nodes[1].text.as_deref(), Some("first"));
    doc.create_node(Id::from_u64(0), None);
    assert_eq!(doc.nodes.len(), 2);
}

#[test]
fn set_parent_appends_in_order() {
    let doc = family();
    assert_eq!(children_of(&doc, 0), vec![1]);
    assert_eq!(children_of(&doc, 1), vec![2, 3]);
    assert_eq!(parent_of(&doc, 1), Some(0));
    assert_eq!(parent_of(&doc, 2), Some(1));
    assert_eq!(parent_of(&doc, 3), Some(1));
    assert_eq!(parent_of(&doc, 4), None);
    assert_eq!(parent_of(&doc, 0), None);
}

#[test]
fn set_parent_moves_a_node_from_its_old_parent() {
    let mut doc = family();
    assert_eq!(doc.set_parent(Id::from_u64(0), Id::from_u64(2)), Ok(()));
    assert_eq!(children_of(&doc, 1), vec![3]);
    assert_eq!(children_of(&doc, 0), vec![1, 2]);
    assert_eq!(parent_of(&doc, 2), Some(0));

    // a node set to the parent it has goes to the end
    assert_eq!(doc.set_parent(Id::from_u64(0), Id::from_u64(1)), Ok(()));
    assert_eq!(children_of(&doc, 0), vec![2, 1]);
    assert_eq!(parent_of(&doc, 1), Some(0));
}

#[test]
fn set_parent_takes_a_younger_parent() {
    let mut doc = family();
    // 4 was created after 3 and becomes its parent's parent
    assert_eq!(doc.set_parent(Id::from_u64(0), Id::from_u64(4)), Ok(()));
    assert_eq!(doc.set_parent(Id::from_u64(4), Id::from_u64(1)), Ok(()));
    assert_eq!(children_of(&doc, 0), vec![4]);
    assert_eq!(children_of(&doc, 4), vec![1]);
    assert_eq!(children_of(&doc, 1), vec![2, 3]);
    assert_eq!(parent_of(&doc, 1), Some(4));
}

#[test]
fn set_parent_rejects_unknown_nodes() {
    let mut doc = family();
    assert_eq!(
        doc.set_parent(Id::from_u64(0), Id::from_u64(77)),
        Err(DocumentError::UnknownNode)
    );
    assert_eq!(
        doc.set_parent(Id::from_u64(77), Id::from_u64(1)),
        Err(DocumentError::UnknownNode)
    );
    assert_eq!(
        doc.set_parent(Id::from_u64(77), Id::from_u64(78)),
        Err(DocumentError::UnknownNode)
    );
    assert_eq!(children_of(&doc, 0), vec![1]);
    assert_eq!(children_of(&doc, 1), vec![2, 3]);
}

#[test]
fn set_parent_rejects_cycles() {
    let mut doc = family();
    assert_eq!(
        doc.set_parent(Id::from_u64(1), Id::from_u64(1)),
        Err(DocumentError::Cycle)
    );
    assert_eq!(
        doc.set_parent(Id::from_u64(2), Id::from_u64(1)),
        Err(DocumentError::Cycle)
    );
    assert_eq!(
        doc.set_parent(Id::from_u64(3), Id::from_u64(0)),
        Err(DocumentError::Cycle)
    );
    assert_eq!(children_of(&doc, 0), vec![1]);
    assert_eq!(children_of(&doc, 1), vec![2, 3]);
    assert_eq!(parent_of(&doc, 1), Some(0));
    assert_eq!(parent_of(&doc, 0), None);
}

#[test]
fn would_cycle_tells_ancestors() {
    let doc = family();
    let index = |id: u64| doc.index_of(Id::from_u64(id)).unwrap();
    assert!(doc.would_cycle(index(2), index(0)));
    assert!(doc.would_cycle(index(2), index(1)));
    assert!(doc.would_cycle(index(2), index(2)));
    assert!(!doc.would_cycle(index(2), index(3)));
    assert!(!doc.would_cycle(index(0), index(1)));
    assert!(!doc.would_cycle(index(1), index(4)));
}

#[test]
fn set_attribute_adds_and_replaces() {
    let mut doc = family();
    let node = Id::from_u64(2);
    doc.set_attribute(node, "class".to_owned(), "a b".to_owned());
    doc.set_attribute(node, "title".to_owned(), "t".to_owned());
    doc.set_attribute(node, "class".to_owned(), "c".to_owned());
    let attributes = &doc.nodes[doc.index_of(node).unwrap()].attributes;
    assert_eq!(attributes.len(), 2);
    assert_eq!(attributes[0].key, "class");
    assert_eq!(attributes[0].value, "c");
    assert_eq!(attributes[1].key, "title");
    assert_eq!(attributes[1].value, "t");
    assert_eq!(find_attribute(attributes, "class"), Some(0));
    assert_eq!(find_attribute(attributes, "title"), Some(1));
    assert_eq!(find_attribute(attributes, "id"), None);
    assert_eq!(find_attribute(attributes, "Class"), None);
}

#[test]
fn set_attribute_on_an_unknown_node_changes_nothing() {
    let mut doc = family();
    doc.set_attribute(Id::from_u64(77), "class".to_owned(), "a".to_owned());
    assert_eq!(doc.nodes.len(), 5);
    assert!(doc.nodes.iter().all(|node| node.attributes.is_empty()));
}
