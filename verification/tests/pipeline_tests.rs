use widget_core::pipeline::{compare, compute_view, Comparator, Comparison, Filter, PipelineError};
use widget_core::store::{Component, ComponentKind, ComponentStore, EntityId};

#[test]
fn the_comparator_answers_all_four_ways() {
    let mut store = ComponentStore::new();
    for _ in 0..3 {
        store.create();
    }
    store.attach(0, Component::Id(EntityId(5)));
    store.attach(1, Component::Id(EntityId(8)));
    assert_eq!(Comparison::Less, compare(&store, Comparator::ByCreationId, 0, 1));
    assert_eq!(Comparison::Greater, compare(&store, Comparator::ByCreationId, 1, 0));
    assert_eq!(Comparison::Equal, compare(&store, Comparator::ByCreationId, 0, 0));
    assert_eq!(Comparison::Incomparable, compare(&store, Comparator::ByCreationId, 0, 2));
}

#[test]
fn the_view_is_exactly_the_admitted_subset() {
    let mut store = ComponentStore::new();
    for _ in 0..5 {
        store.create();
    }
    store.attach(1, Component::Drawable);
    store.attach(3, Component::Drawable);
    store.attach(4, Component::Drawable);
    let view = compute_view(&store, Filter::HasKind(ComponentKind::Drawable), None).unwrap();
    assert_eq!(vec![1, 3, 4], view);
}

#[test]
fn the_comparator_orders_the_view_by_creation_id() {
    let mut store = ComponentStore::new();
    for _ in 0..3 {
        store.create();
    }
    store.attach(0, Component::Drawable);
    store.attach(0, Component::Id(EntityId(9)));
    store.attach(1, Component::Drawable);
    store.attach(1, Component::Id(EntityId(4)));
    store.attach(2, Component::Drawable);
    store.attach(2, Component::Id(EntityId(6)));
    let view = compute_view(
        &store,
        Filter::HasKind(ComponentKind::Drawable),
        Some(Comparator::ByCreationId),
    )
    .unwrap();
    assert_eq!(vec![1, 2, 0], view);
}

#[test]
fn equal_ids_keep_registration_order() {
    let mut store = ComponentStore::new();
    for _ in 0..4 {
        store.create();
    }
    for e in 0..4 {
        store.attach(e, Component::Drawable);
    }
    store.attach(0, Component::Id(EntityId(2)));
    store.attach(1, Component::Id(EntityId(1)));
    store.attach(2, Component::Id(EntityId(2)));
    store.attach(3, Component::Id(EntityId(1)));
    let view = compute_view(
        &store,
        Filter::HasKind(ComponentKind::Drawable),
        Some(Comparator::ByCreationId),
    )
    .unwrap();
    assert_eq!(vec![1, 3, 0, 2], view);
}

#[test]
fn an_admitted_entity_without_an_id_is_an_ordering_error() {
    let mut store = ComponentStore::new();
    for _ in 0..2 {
        store.create();
    }
    store.attach(0, Component::Drawable);
    store.attach(0, Component::Id(EntityId(0)));
    store.attach(1, Component::Drawable);
    let r = compute_view(
        &store,
        Filter::HasKind(ComponentKind::Drawable),
        Some(Comparator::ByCreationId),
    );
    assert_eq!(Err(PipelineError::OrderingError), r);
}

#[test]
fn an_unadmitted_entity_without_an_id_is_no_error() {
    let mut store = ComponentStore::new();
    for _ in 0..2 {
        store.create();
    }
    store.attach(0, Component::Drawable);
    store.attach(0, Component::Id(EntityId(0)));
    let view = compute_view(
        &store,
        Filter::HasKind(ComponentKind::Drawable),
        Some(Comparator::ByCreationId),
    )
    .unwrap();
    assert_eq!(vec![0], view);
}
