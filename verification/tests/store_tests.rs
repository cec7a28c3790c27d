use widget_core::geometry::Rect;
use widget_core::store::{Component, ComponentKind, ComponentStore, EntityId, StoreError};

#[test]
fn create_hands_out_monotonic_ids() {
    let mut store = ComponentStore::new();
    assert_eq!(0, store.create());
    assert_eq!(1, store.create());
    assert_eq!(2, store.create());
    assert_eq!(3, store.len());
}

#[test]
fn attach_then_get_returns_the_component() {
    let mut store = ComponentStore::new();
    let e = store.create();
    let rect = Rect::new(1, 2, 30, 40);
    store.attach(e, Component::Bounds(rect));
    store.attach(e, Component::Id(EntityId(0)));
    assert_eq!(Ok(Component::Bounds(rect)), store.get(e, ComponentKind::Bounds));
    assert_eq!(Ok(Component::Id(EntityId(0))), store.get(e, ComponentKind::Id));
}

#[test]
fn get_of_absent_kind_is_missing_component() {
    let mut store = ComponentStore::new();
    let e = store.create();
    store.attach(e, Component::Drawable);
    assert_eq!(Err(StoreError::MissingComponent), store.get(e, ComponentKind::Bounds));
}

#[test]
fn get_on_unknown_entity_is_missing_component() {
    let store = ComponentStore::new();
    assert_eq!(Err(StoreError::MissingComponent), store.get(7, ComponentKind::Drawable));
}

#[test]
fn later_attach_shadows_earlier_component_of_same_kind() {
    let mut store = ComponentStore::new();
    let e = store.create();
    store.attach(e, Component::Property(1, 5));
    store.attach(e, Component::Property(1, 9));
    store.attach(e, Component::Property(2, 7));
    assert_eq!(Ok(Component::Property(1, 9)), store.get(e, ComponentKind::Property(1)));
    assert_eq!(Ok(Component::Property(2, 7)), store.get(e, ComponentKind::Property(2)));
}
