use widget_core::geometry::{BoxConstraints, Rect};
use widget_core::layout::{run_layout, LayoutError, LayoutStrategy};
use widget_core::store::{Component, ComponentKind, ComponentStore};
use widget_core::tree::Tree;

fn bounds_of(store: &ComponentStore, e: usize) -> Rect {
    match store.get(e, ComponentKind::Bounds) {
        Ok(Component::Bounds(rect)) => rect,
        other => panic!("entity {} has no geometry: {:?}", e, other),
    }
}

#[test]
fn leaf_without_children_resolves_to_minimum_size() {
    let mut store = ComponentStore::new();
    let mut tree = Tree::new();
    let e = store.create();
    tree.register_node(e);
    let bc = BoxConstraints::new(15, 200, 25, 50);
    assert_eq!(Ok(()), run_layout(&mut store, &tree, &bc));
    assert_eq!(Rect::new(0, 0, 15, 25), bounds_of(&store, e));
}

#[test]
fn fixed_strategy_resolves_to_its_size() {
    let mut store = ComponentStore::new();
    let mut tree = Tree::new();
    let e = store.create();
    store.attach(e, Component::Layout(LayoutStrategy::Fixed(77, 33)));
    tree.register_node(e);
    let bc = BoxConstraints::new(0, 200, 0, 50);
    assert_eq!(Ok(()), run_layout(&mut store, &tree, &bc));
    assert_eq!(Rect::new(0, 0, 77, 33), bounds_of(&store, e));
}

#[test]
fn transparent_container_passes_through_its_only_child() {
    let mut store = ComponentStore::new();
    let mut tree = Tree::new();
    let container = store.create();
    let child = store.create();
    store.attach(child, Component::Layout(LayoutStrategy::Fixed(120, 40)));
    tree.register_node(container);
    tree.register_node(child);
    assert_eq!(Ok(()), tree.append_child(container, child));
    let bc = BoxConstraints::new(0, 200, 0, 50);
    assert_eq!(Ok(()), run_layout(&mut store, &tree, &bc));
    // The container resolves to exactly the child's resolved size, and the
    // child sits at the origin relative to the container.
    assert_eq!(Rect::new(0, 0, 120, 40), bounds_of(&store, container));
    assert_eq!(Rect::new(0, 0, 120, 40), bounds_of(&store, child));
}

#[test]
fn requesting_yourself_is_a_layout_cycle() {
    let mut store = ComponentStore::new();
    let mut tree = Tree::new();
    let e = store.create();
    store.attach(e, Component::Layout(LayoutStrategy::Deferred(e)));
    tree.register_node(e);
    let bc = BoxConstraints::new(0, 200, 0, 50);
    assert_eq!(Err(LayoutError::LayoutCycle), run_layout(&mut store, &tree, &bc));
}

#[test]
fn mutual_requests_are_a_layout_cycle() {
    let mut store = ComponentStore::new();
    let mut tree = Tree::new();
    let a = store.create();
    let b = store.create();
    store.attach(a, Component::Layout(LayoutStrategy::Deferred(b)));
    store.attach(b, Component::Layout(LayoutStrategy::Deferred(a)));
    tree.register_node(a);
    tree.register_node(b);
    let bc = BoxConstraints::new(0, 200, 0, 50);
    assert_eq!(Err(LayoutError::LayoutCycle), run_layout(&mut store, &tree, &bc));
}

#[test]
fn requesting_a_nonexistent_entity_is_missing_component() {
    let mut store = ComponentStore::new();
    let mut tree = Tree::new();
    let e = store.create();
    store.attach(e, Component::Layout(LayoutStrategy::Deferred(55)));
    tree.register_node(e);
    let bc = BoxConstraints::new(0, 200, 0, 50);
    assert_eq!(Err(LayoutError::MissingComponent), run_layout(&mut store, &tree, &bc));
}

#[test]
fn a_failed_pass_leaves_the_store_untouched() {
    let mut store = ComponentStore::new();
    let mut tree = Tree::new();
    let e = store.create();
    let stale = Rect::new(9, 9, 9, 9);
    store.attach(e, Component::Bounds(stale));
    store.attach(e, Component::Layout(LayoutStrategy::Deferred(e)));
    tree.register_node(e);
    let bc = BoxConstraints::new(0, 200, 0, 50);
    assert_eq!(Err(LayoutError::LayoutCycle), run_layout(&mut store, &tree, &bc));
    assert_eq!(stale, bounds_of(&store, e));
}

#[test]
fn an_empty_tree_lays_out_trivially() {
    let mut store = ComponentStore::new();
    let tree = Tree::new();
    let bc = BoxConstraints::new(0, 200, 0, 50);
    assert_eq!(Ok(()), run_layout(&mut store, &tree, &bc));
}
