use penumbra::layout::LayoutIndex;
use penumbra::notes::{Link, LinkKind, NoteId};

fn id(n: u128) -> NoteId {
    NoteId(n)
}

#[test]
fn nodes_are_indexed_in_order_once() {
    let mut index = LayoutIndex::new();
    assert!(index.add_node(id(7)));
    assert!(index.add_node(id(9)));
    assert!(!index.add_node(id(7)));
    assert_eq!(index.nodes(), &vec![id(7), id(9)]);
    assert_eq!(index.index_of(&id(9)), Some(1));
    assert_eq!(index.index_of(&id(3)), None);
}

#[test]
fn springs_follow_links_between_placed_notes() {
    let mut index = LayoutIndex::new();
    index.add_node(id(1));
    index.add_node(id(2));
    index.add_node(id(3));
    index.update_links(&vec![
        Link::new(id(1), id(3), LinkKind::Explicit),
        Link::new(id(2), id(4), LinkKind::Implicit),
        Link::new(id(3), id(2), LinkKind::Implicit),
    ]);
    assert_eq!(index.edges(), &vec![(0, 2), (2, 1)]);
}

#[test]
fn removing_a_node_drops_its_springs_and_renumbers_the_rest() {
    let mut index = LayoutIndex::new();
    for n in 1..=4 {
        index.add_node(id(n));
    }
    index.update_links(&vec![
        Link::new(id(1), id(2), LinkKind::Explicit),
        Link::new(id(3), id(4), LinkKind::Explicit),
        Link::new(id(2), id(3), LinkKind::Explicit),
    ]);
    assert_eq!(index.remove_node(&id(2)), Some(1));
    assert_eq!(index.nodes(), &vec![id(1), id(3), id(4)]);
    assert_eq!(index.index_of(&id(4)), Some(2));
    // The removed note's springs go; the others follow their notes.
    assert_eq!(index.edges(), &vec![(1, 2)]);
    assert_eq!(index.remove_node(&id(2)), None);
}

#[test]
fn springs_between_other_notes_survive_a_removal() {
    let mut index = LayoutIndex::new();
    for n in 1..=3 {
        index.add_node(id(n));
    }
    index.update_links(&vec![Link::new(id(2), id(3), LinkKind::Explicit)]);
    assert_eq!(index.remove_node(&id(1)), Some(0));
    assert_eq!(index.edges(), &vec![(0, 1)]);
}
