use widget_core::geometry::{BoxConstraints, Rect};
use widget_core::layout::LayoutStrategy;
use widget_core::manager::{FrameError, TemplateShape, WidgetManager, WidgetTemplate};
use widget_core::store::{Component, ComponentKind};

fn leaf(layout: Option<LayoutStrategy>) -> WidgetTemplate {
    WidgetTemplate { properties: Vec::new(), layout, drawable: true, shape: TemplateShape::Leaf }
}

fn bounds_of(manager: &WidgetManager, e: usize) -> Rect {
    match manager.store().get(e, ComponentKind::Bounds) {
        Ok(Component::Bounds(rect)) => rect,
        other => panic!("entity {} has no geometry: {:?}", e, other),
    }
}

#[test]
fn a_two_level_template_expands_runs_and_draws_in_creation_order() {
    let mut manager = WidgetManager::new();
    let template = WidgetTemplate {
        properties: vec![(7, 42)],
        layout: None,
        drawable: true,
        shape: TemplateShape::Single(Box::new(leaf(Some(LayoutStrategy::Fixed(120, 40))))),
    };
    manager.root(&template);

    // Two entities; the child's parent is the container.
    assert_eq!(2, manager.store().len());
    assert_eq!(Some(0), manager.tree().root());
    assert_eq!(Some(0), manager.tree().parent(1));
    assert_eq!(vec![1], manager.tree().children(0));
    // The declared property was attached as a component.
    assert_eq!(Ok(Component::Property(7, 42)), manager.store().get(0, ComponentKind::Property(7)));

    // The container takes the child's natural size; the child sits at the
    // origin; render issues exactly two draw calls, in creation order.
    let bc = BoxConstraints::new(0, 200, 0, 50);
    let calls = manager.run(&bc).unwrap();
    assert_eq!(2, calls.len());
    assert_eq!(0, calls[0].entity);
    assert_eq!(1, calls[1].entity);
    assert_eq!(Rect::new(0, 0, 120, 40), bounds_of(&manager, 0));
    assert_eq!(Rect::new(0, 0, 120, 40), bounds_of(&manager, 1));
    assert_eq!(Rect::new(0, 0, 120, 40), calls[0].bounds);
}

#[test]
fn multi_children_expand_in_declaration_order() {
    let mut manager = WidgetManager::new();
    let template = WidgetTemplate {
        properties: Vec::new(),
        layout: None,
        drawable: false,
        shape: TemplateShape::Multi(vec![
            leaf(Some(LayoutStrategy::Fixed(10, 10))),
            leaf(None),
            leaf(Some(LayoutStrategy::Fixed(30, 30))),
        ]),
    };
    manager.root(&template);
    assert_eq!(4, manager.store().len());
    assert_eq!(vec![1, 2, 3], manager.tree().children(0));
    assert_eq!(Some(0), manager.tree().parent(2));
    // Creation-order ids equal the handles.
    for e in 0..4 {
        assert_eq!(
            Ok(Component::Id(widget_core::store::EntityId(e as u32))),
            manager.store().get(e, ComponentKind::Id)
        );
    }
}

#[test]
fn a_self_requesting_layout_fails_the_frame_with_a_cycle() {
    let mut manager = WidgetManager::new();
    // The first entity created will be entity 0; it defers to itself.
    let template = leaf(Some(LayoutStrategy::Deferred(0)));
    manager.root(&template);
    let bc = BoxConstraints::new(0, 200, 0, 50);
    assert_eq!(Err(FrameError::LayoutCycle), manager.run(&bc));
}

#[test]
fn an_undrawable_widget_is_not_rendered() {
    let mut manager = WidgetManager::new();
    let template = WidgetTemplate {
        properties: Vec::new(),
        layout: None,
        drawable: false,
        shape: TemplateShape::Single(Box::new(leaf(Some(LayoutStrategy::Fixed(3, 3))))),
    };
    manager.root(&template);
    let bc = BoxConstraints::new(0, 200, 0, 50);
    let calls = manager.run(&bc).unwrap();
    assert_eq!(1, calls.len());
    assert_eq!(1, calls[0].entity);
    assert_eq!(Rect::new(0, 0, 3, 3), calls[0].bounds);
}

#[test]
fn a_second_expansion_keeps_the_first_root() {
    let mut manager = WidgetManager::new();
    manager.root(&leaf(None));
    manager.root(&leaf(None));
    assert_eq!(2, manager.store().len());
    assert_eq!(Some(0), manager.tree().root());
    assert_eq!(None, manager.tree().parent(1));
}
