use scene_hierarchy::object::Hierarchy;
use scene_hierarchy::object::HierarchyError;
use scene_hierarchy::object::Object;

#[test]
fn object_world_translation_no_parent() {
    let mut h = Hierarchy::new();
    let a = h.create(0, 0);
    let b = h.create(0, 1);
    let c = h.create(3, 1);
    assert_eq!((0, 0), h.world_translation(a).unwrap());
    assert_eq!((0, 1), h.world_translation(b).unwrap());
    assert_eq!((3, 1), h.world_translation(c).unwrap());
}

#[test]
fn add_same_child_twice() {
    let mut h = Hierarchy::new();
    let parent = h.create(1, 2);
    let child = h.create(4, 3);

    assert_eq!(0, h.number_of_children(parent).unwrap());
    assert_eq!(0, h.number_of_children(child).unwrap());
    assert!(!h.has_parent(parent).unwrap());
    assert!(!h.has_parent(child).unwrap());

    h.add_child(parent, child).unwrap();
    assert_eq!(1, h.number_of_children(parent).unwrap());
    assert_eq!(0, h.number_of_children(child).unwrap());
    assert!(!h.has_parent(parent).unwrap());
    assert!(h.has_parent(child).unwrap());

    h.add_child(parent, child).unwrap();
    assert_eq!(1, h.number_of_children(parent).unwrap());
    assert_eq!(0, h.number_of_children(child).unwrap());
    assert!(!h.has_parent(parent).unwrap());
    assert!(h.has_parent(child).unwrap());
}

#[test]
fn add_a_child_that_looks_the_same() {
    let mut h = Hierarchy::new();
    let parent = h.create(1, 2);
    let child = h.create(4, 3);
    let child2 = h.create(4, 3);

    assert_eq!(0, h.number_of_children(parent).unwrap());
    assert_eq!(0, h.number_of_children(child).unwrap());
    assert_eq!(0, h.number_of_children(child2).unwrap());
    assert!(!h.has_parent(parent).unwrap());
    assert!(!h.has_parent(child).unwrap());
    assert!(!h.has_parent(child2).unwrap());

    h.add_child(parent, child).unwrap();
    assert_eq!(1, h.number_of_children(parent).unwrap());
    assert_eq!(0, h.number_of_children(child).unwrap());
    assert_eq!(0, h.number_of_children(child2).unwrap());
    assert!(!h.has_parent(parent).unwrap());
    assert!(h.has_parent(child).unwrap());
    assert!(!h.has_parent(child2).unwrap());

    h.add_child(parent, child2).unwrap();
    assert_eq!(2, h.number_of_children(parent).unwrap());
    assert_eq!(0, h.number_of_children(child).unwrap());
    assert_eq!(0, h.number_of_children(child2).unwrap());
    assert!(!h.has_parent(parent).unwrap());
    assert!(h.has_parent(child).unwrap());
    assert!(h.has_parent(child2).unwrap());
}

#[test]
fn remove_a_child_that_looks_the_same() {
    let mut h = Hierarchy::new();
    let parent = h.create(1, 2);
    let child = h.create(4, 3);
    let child2 = h.create(4, 3);

    assert_eq!(0, h.number_of_children(parent).unwrap());
    assert_eq!(0, h.number_of_children(child).unwrap());
    assert_eq!(0, h.number_of_children(child2).unwrap());
    assert!(!h.has_parent(parent).unwrap());
    assert!(!h.has_parent(child).unwrap());
    assert!(!h.has_parent(child2).unwrap());

    h.add_child(parent, child).unwrap();
    assert_eq!(1, h.number_of_children(parent).unwrap());
    assert_eq!(0, h.number_of_children(child).unwrap());
    assert_eq!(0, h.number_of_children(child2).unwrap());
    assert!(!h.has_parent(parent).unwrap());
    assert!(h.has_parent(child).unwrap());
    assert!(!h.has_parent(child2).unwrap());

    h.remove_child(parent, child2).unwrap();
    assert_eq!(1, h.number_of_children(parent).unwrap());
    assert_eq!(0, h.number_of_children(child).unwrap());
    assert_eq!(0, h.number_of_children(child2).unwrap());
    assert!(!h.has_parent(parent).unwrap());
    assert!(h.has_parent(child).unwrap());
    assert!(!h.has_parent(child2).unwrap());

    h.remove_child(parent, child).unwrap();
    assert_eq!(0, h.number_of_children(parent).unwrap());
    assert_eq!(0, h.number_of_children(child).unwrap());
    assert_eq!(0, h.number_of_children(child2).unwrap());
    assert!(!h.has_parent(parent).unwrap());
    assert!(!h.has_parent(child).unwrap());
    assert!(!h.has_parent(child2).unwrap());
}

#[test]
fn world_translation_with_parent() {
    let mut h = Hierarchy::new();
    let parent = h.create(1, 2);
    let child = h.create(4, 3);

    assert_eq!((1, 2), h.world_translation(parent).unwrap());
    assert_eq!((4, 3), h.world_translation(child).unwrap());
    assert_eq!(0, h.number_of_children(parent).unwrap());
    assert_eq!(0, h.number_of_children(child).unwrap());

    h.add_child(parent, child).unwrap();
    assert_eq!((1, 2), h.world_translation(parent).unwrap());
    assert_eq!((5, 5), h.world_translation(child).unwrap());
    assert_eq!(1, h.number_of_children(parent).unwrap());
    assert_eq!(0, h.number_of_children(child).unwrap());
}

#[test]
fn world_translation_with_parent_then_remove() {
    let mut h = Hierarchy::new();
    let parent = h.create(1, 2);
    let child = h.create(4, 3);

    assert_eq!((1, 2), h.world_translation(parent).unwrap());
    assert_eq!((4, 3), h.world_translation(child).unwrap());
    assert_eq!(0, h.number_of_children(parent).unwrap());
    assert_eq!(0, h.number_of_children(child).unwrap());

    h.add_child(parent, child).unwrap();
    assert_eq!((1, 2), h.world_translation(parent).unwrap());
    assert_eq!((5, 5), h.world_translation(child).unwrap());
    assert_eq!(1, h.number_of_children(parent).unwrap());
    assert_eq!(0, h.number_of_children(child).unwrap());

    h.remove_child(parent, child).unwrap();
    assert_eq!((1, 2), h.world_translation(parent).unwrap());
    assert_eq!((4, 3), h.world_translation(child).unwrap());
    assert_eq!(0, h.number_of_children(parent).unwrap());
    assert_eq!(0, h.number_of_children(child).unwrap());
}

#[test]
fn world_translation_with_parent_then_remove_wrong_child() {
    let mut h = Hierarchy::new();
    let parent = h.create(1, 2);
    let child = h.create(4, 3);
    let child2 = h.create(10, 11);

    assert_eq!((1, 2), h.world_translation(parent).unwrap());
    assert_eq!((4, 3), h.world_translation(child).unwrap());
    assert_eq!((10, 11), h.world_translation(child2).unwrap());
    assert_eq!(0, h.number_of_children(parent).unwrap());
    assert_eq!(0, h.number_of_children(child).unwrap());
    assert_eq!(0, h.number_of_children(child2).unwrap());

    h.add_child(parent, child).unwrap();
    assert_eq!((1, 2), h.world_translation(parent).unwrap());
    assert_eq!((5, 5), h.world_translation(child).unwrap());
    assert_eq!((10, 11), h.world_translation(child2).unwrap());
    assert_eq!(1, h.number_of_children(parent).unwrap());
    assert_eq!(0, h.number_of_children(child).unwrap());
    assert_eq!(0, h.number_of_children(child2).unwrap());

    h.remove_child(parent, child2).unwrap();
    assert_eq!((1, 2), h.world_translation(parent).unwrap());
    assert_eq!((5, 5), h.world_translation(child).unwrap());
    assert_eq!((10, 11), h.world_translation(child2).unwrap());
    assert_eq!(1, h.number_of_children(parent).unwrap());
    assert_eq!(0, h.number_of_children(child).unwrap());
    assert_eq!(0, h.number_of_children(child2).unwrap());

    h.remove_child(parent, child).unwrap();
    assert_eq!((1, 2), h.world_translation(parent).unwrap());
    assert_eq!((4, 3), h.world_translation(child).unwrap());
    assert_eq!((10, 11), h.world_translation(child2).unwrap());
    assert_eq!(0, h.number_of_children(parent).unwrap());
    assert_eq!(0, h.number_of_children(child).unwrap());
    assert_eq!(0, h.number_of_children(child2).unwrap());
}

#[test]
fn world_translation_with_another_parent() {
    let mut h = Hierarchy::new();
    let parent = h.create(1, 2);
    let child = h.create(4, 3);
    let parent2 = h.create(10, 11);

    assert_eq!((1, 2), h.world_translation(parent).unwrap());
    assert_eq!((4, 3), h.world_translation(child).unwrap());
    assert_eq!((10, 11), h.world_translation(parent2).unwrap());
    assert_eq!(0, h.number_of_children(parent).unwrap());
    assert_eq!(0, h.number_of_children(child).unwrap());
    assert_eq!(0, h.number_of_children(parent2).unwrap());

    h.add_child(parent, child).unwrap();
    assert_eq!((1, 2), h.world_translation(parent).unwrap());
    assert_eq!((5, 5), h.world_translation(child).unwrap());
    assert_eq!((10, 11), h.world_translation(parent2).unwrap());
    assert_eq!(1, h.number_of_children(parent).unwrap());
    assert_eq!(0, h.number_of_children(child).unwrap());
    assert_eq!(0, h.number_of_children(parent2).unwrap());

    h.add_child(parent2, child).unwrap();
    assert_eq!((1, 2), h.world_translation(parent).unwrap());
    assert_eq!((14, 14), h.world_translation(child).unwrap());
    assert_eq!((10, 11), h.world_translation(parent2).unwrap());
    assert_eq!(0, h.number_of_children(parent).unwrap());
    assert_eq!(0, h.number_of_children(child).unwrap());
    assert_eq!(1, h.number_of_children(parent2).unwrap());

    h.remove_child(parent2, child).unwrap();
    assert_eq!((1, 2), h.world_translation(parent).unwrap());
    assert_eq!((4, 3), h.world_translation(child).unwrap());
    assert_eq!((10, 11), h.world_translation(parent2).unwrap());
    assert_eq!(0, h.number_of_children(parent).unwrap());
    assert_eq!(0, h.number_of_children(child).unwrap());
    assert_eq!(0, h.number_of_children(parent2).unwrap());
}

#[test]
fn world_translation_with_grand_parent() {
    let mut h = Hierarchy::new();
    let grand_parent = h.create(7, 11);
    let parent = h.create(1, 2);
    let child = h.create(4, 9);

    assert_eq!((7, 11), h.world_translation(grand_parent).unwrap());
    assert_eq!((1, 2), h.world_translation(parent).unwrap());
    assert_eq!((4, 9), h.world_translation(child).unwrap());
    assert_eq!(0, h.number_of_children(grand_parent).unwrap());
    assert_eq!(0, h.number_of_children(parent).unwrap());
    assert_eq!(0, h.number_of_children(child).unwrap());
    assert!(!h.has_parent(grand_parent).unwrap());
    assert!(!h.has_parent(parent).unwrap());
    assert!(!h.has_parent(child).unwrap());

    h.add_child(grand_parent, parent).unwrap();
    h.add_child(parent, child).unwrap();
    assert_eq!((7, 11), h.world_translation(grand_parent).unwrap());
    assert_eq!((8, 13), h.world_translation(parent).unwrap());
    assert_eq!((12, 22), h.world_translation(child).unwrap());
    assert_eq!(1, h.number_of_children(grand_parent).unwrap());
    assert_eq!(1, h.number_of_children(parent).unwrap());
    assert_eq!(0, h.number_of_children(child).unwrap());
    assert!(!h.has_parent(grand_parent).unwrap());
    assert!(h.has_parent(parent).unwrap());
    assert!(h.has_parent(child).unwrap());
}

#[test]
fn object_node_basics() {
    let obj = Object::new(4, 3);
    assert_eq!((4, 3), obj.translation());
    assert_eq!(0, obj.number_of_children());
    assert!(!obj.has_parent());
}

#[test]
fn identifiers_are_issued_in_order() {
    let mut h = Hierarchy::new();
    assert_eq!(0, h.create(5, 6));
    assert_eq!(1, h.create(7, 8));
    assert_eq!(2, h.create(5, 6));
    assert_eq!((5, 6), h.translation(0).unwrap());
    assert_eq!((7, 8), h.translation(1).unwrap());
}

#[test]
fn unknown_identifiers_are_rejected() {
    let mut h = Hierarchy::new();
    let a = h.create(1, 1);
    assert_eq!(Err(HierarchyError::NotFound), h.translation(7));
    assert_eq!(Err(HierarchyError::NotFound), h.world_translation(7));
    assert_eq!(Err(HierarchyError::NotFound), h.parent(7));
    assert_eq!(Err(HierarchyError::NotFound), h.children(7));
    assert_eq!(Err(HierarchyError::NotFound), h.number_of_children(7));
    assert_eq!(Err(HierarchyError::NotFound), h.has_parent(7));
    assert_eq!(Err(HierarchyError::NotFound), h.detach(7));
    assert_eq!(Err(HierarchyError::NotFound), h.add_child(a, 7));
    assert_eq!(Err(HierarchyError::NotFound), h.add_child(7, a));
    assert_eq!(Err(HierarchyError::NotFound), h.remove_child(a, 7));
}

#[test]
fn attach_to_itself_is_a_cycle() {
    let mut h = Hierarchy::new();
    let a = h.create(1, 1);
    assert_eq!(Err(HierarchyError::CycleDetected), h.add_child(a, a));
    assert_eq!(0, h.number_of_children(a).unwrap());
    assert!(!h.has_parent(a).unwrap());
}

#[test]
fn attach_under_descendant_is_a_cycle() {
    let mut h = Hierarchy::new();
    let g = h.create(1, 1);
    let p = h.create(2, 2);
    let c = h.create(3, 3);
    h.add_child(g, p).unwrap();
    h.add_child(p, c).unwrap();
    assert_eq!(Err(HierarchyError::CycleDetected), h.add_child(c, g));
    assert_eq!(Err(HierarchyError::CycleDetected), h.add_child(p, g));
    // the failed attaches left the tree unchanged
    assert_eq!(vec![p], h.children(g).unwrap());
    assert_eq!(vec![c], h.children(p).unwrap());
    assert_eq!(None, h.parent(g).unwrap());
    assert_eq!((6, 6), h.world_translation(c).unwrap());
}

#[test]
fn detach_of_a_root_changes_nothing() {
    let mut h = Hierarchy::new();
    let a = h.create(9, 9);
    h.detach(a).unwrap();
    assert_eq!(None, h.parent(a).unwrap());
    assert_eq!((9, 9), h.world_translation(a).unwrap());
}

#[test]
fn detach_restores_local_translation() {
    let mut h = Hierarchy::new();
    let p = h.create(1, 2);
    let c = h.create(4, 3);
    h.add_child(p, c).unwrap();
    assert_eq!((5, 5), h.world_translation(c).unwrap());
    h.detach(c).unwrap();
    assert_eq!((4, 3), h.world_translation(c).unwrap());
    assert_eq!(Vec::<usize>::new(), h.children(p).unwrap());
    assert_eq!(None, h.parent(c).unwrap());
}

#[test]
fn reattach_moves_between_children_lists() {
    let mut h = Hierarchy::new();
    let a = h.create(1, 2);
    let b = h.create(10, 11);
    let c = h.create(4, 3);
    h.add_child(a, c).unwrap();
    assert_eq!(vec![c], h.children(a).unwrap());
    h.add_child(b, c).unwrap();
    assert_eq!(Vec::<usize>::new(), h.children(a).unwrap());
    assert_eq!(vec![c], h.children(b).unwrap());
    assert_eq!(Some(b), h.parent(c).unwrap());
    assert_eq!(0, h.number_of_children(a).unwrap());
    assert_eq!((14, 14), h.world_translation(c).unwrap());
}

#[test]
fn children_keep_attach_order() {
    let mut h = Hierarchy::new();
    let p = h.create(0, 0);
    let c1 = h.create(1, 0);
    let c2 = h.create(2, 0);
    let c3 = h.create(3, 0);
    h.add_child(p, c1).unwrap();
    h.add_child(p, c2).unwrap();
    h.add_child(p, c3).unwrap();
    assert_eq!(vec![c1, c2, c3], h.children(p).unwrap());
    // re-attaching to the same parent moves the child to the end and keeps
    // the order of the remaining siblings
    h.add_child(p, c1).unwrap();
    assert_eq!(vec![c2, c3, c1], h.children(p).unwrap());
    assert_eq!(3, h.number_of_children(p).unwrap());
}

#[test]
fn world_translation_of_a_deep_chain() {
    let mut h = Hierarchy::new();
    let mut ids = Vec::new();
    for i in 0..6u32 {
        ids.push(h.create(i, 2 * i));
    }
    for w in 0..5usize {
        h.add_child(ids[w], ids[w + 1]).unwrap();
    }
    // 0 + 1 + 2 + 3 + 4 + 5 and twice that for y
    assert_eq!((15, 30), h.world_translation(ids[5]).unwrap());
    assert_eq!((0, 0), h.world_translation(ids[0]).unwrap());
}
