//! The widget manager: tree builder, system pipeline, and the per-frame
//! driver.
//!
//! `new` registers the two standard passes — layout at priority 0 and
//! render at priority 1, filtered to drawable entities and sorted by
//! creation-order id. `root` expands a declarative widget template into
//! entities, default components and tree nodes. `run` executes one frame:
//! the filter+sort phase recomputes the entity views, then the passes run
//! strictly in ascending priority order, each completing fully before the
//! next begins.

use vstd::prelude::*;

use crate::geometry::{BoxConstraints, Rect};
use crate::layout::{layout_pass_spec, run_layout, LayoutError, LayoutStrategy};
use crate::pipeline::{compare_spec, compute_view, filter_spec, lex_le, Comparator, Filter};
use crate::store::{
    lemma_row_get_push, row_get, Component, ComponentKind, ComponentStore, Entity, EntityId,
    StoreError,
};
use crate::tree::Tree;

verus! {

/// What a pass does when executed.
#[derive(Clone, Copy, PartialEq, Eq, Structural, Debug)]
pub enum PassKind {
    Layout,
    Render,
}

/// One registered pass: an ordering key, an optional entity-set filter, an
/// optional comparator over entities, and the pass logic. Built once at
/// setup; immutable during a run.
#[derive(Clone, Copy)]
pub struct SystemDescriptor {
    pub priority: u32,
    pub filter: Option<Filter>,
    pub comparator: Option<Comparator>,
    pub pass: PassKind,
}

/// The children a widget template declares.
pub enum TemplateShape {
    /// No children.
    Leaf,
    /// One child.
    Single(Box<WidgetTemplate>),
    /// Several children, in declaration order.
    Multi(Vec<WidgetTemplate>),
}

/// Declarative description of one widget: its opaque keyed properties, its
/// layout strategy (the transparent default when absent), whether it is
/// drawable, and its children shape.
pub struct WidgetTemplate {
    pub properties: Vec<(u32, i64)>,
    pub layout: Option<LayoutStrategy>,
    pub drawable: bool,
    pub shape: TemplateShape,
}

/// Number of entities an expansion of `t` creates.
pub open spec fn node_count(t: WidgetTemplate) -> nat
    decreases t, 0int,
{
    1 + match t.shape {
        TemplateShape::Leaf => 0,
        TemplateShape::Single(child) => node_count(*child),
        TemplateShape::Multi(children) => forest_count(children@, 0),
    }
}

/// Number of entities the templates of `ts` from index `i` on create.
pub open spec fn forest_count(ts: Seq<WidgetTemplate>, i: int) -> nat
    decreases ts, ts.len() - i,
{
    if i < 0 || i >= ts.len() {
        0
    } else {
        node_count(ts[i]) + forest_count(ts, i + 1)
    }
}

/// The layout strategy a widget declares, or the transparent default.
pub open spec fn declared_strategy(t: WidgetTemplate) -> LayoutStrategy {
    match t.layout {
        Some(s) => s,
        None => LayoutStrategy::Transparent,
    }
}

/// The value of the last declared property with key `k`, if any: a later
/// declaration of a key shadows an earlier one, as a later `attach` does.
pub open spec fn last_property(props: Seq<(u32, i64)>, k: u32) -> Option<i64>
    decreases props.len(),
{
    if props.len() == 0 {
        None
    } else if props.last().0 == k {
        Some(props.last().1)
    } else {
        last_property(props.drop_last(), k)
    }
}

/// The geometry every expansion attaches; the layout pass overwrites it.
pub open spec fn default_geometry() -> Rect {
    Rect { x: 10, y: 10, width: 200, height: 50 }
}

/// Handle of the root of the `i`-th declared child of an expansion rooted
/// at `e`: sibling subtrees occupy contiguous handle ranges, in declaration
/// order.
pub open spec fn child_root(cs: Seq<WidgetTemplate>, e: Entity, i: int) -> int {
    e + 1 + forest_count(cs, 0) - forest_count(cs, i)
}

/// The world `m` holds at `e` exactly the expansion of `t`: the default
/// geometry, the declared (or default) layout strategy, a creation id equal
/// to the handle, the drawable marker exactly when declared, the last
/// declared value of each property key and no other property; and, below
/// `e`, the expansions of the declared children, their roots appended under
/// `e` in declaration order, one contiguous handle range each — so ids are
/// assigned in preorder, siblings in declared order.
pub open spec fn subtree_built(m: WidgetManager, t: WidgetTemplate, e: Entity) -> bool
    decreases t, 0int,
{
    &&& m.spec_store().get_spec(e, ComponentKind::Bounds) == Some(
        Component::Bounds(default_geometry()),
    )
    &&& m.spec_store().get_spec(e, ComponentKind::Layout) == Some(
        Component::Layout(declared_strategy(t)),
    )
    &&& m.spec_store().get_spec(e, ComponentKind::Id) == Some(Component::Id(EntityId(e as u32)))
    &&& m.spec_store().get_spec(e, ComponentKind::Drawable) == if t.drawable {
        Some(Component::Drawable)
    } else {
        None::<Component>
    }
    &&& forall|k: u32|
        #[trigger] m.spec_store().get_spec(e, ComponentKind::Property(k)) == match last_property(
            t.properties@,
            k,
        ) {
            Some(v) => Some(Component::Property(k, v)),
            None => None::<Component>,
        }
    &&& match t.shape {
        TemplateShape::Leaf => m.spec_tree().spec_children(e) == Seq::<Entity>::empty(),
        TemplateShape::Single(child) => {
            &&& m.spec_tree().spec_children(e) == seq![((e + 1) as Entity)]
            &&& m.spec_tree().spec_parent(((e + 1) as Entity)) == Some(e)
            &&& subtree_built(m, *child, ((e + 1) as Entity))
        },
        TemplateShape::Multi(cs) => {
            &&& m.spec_tree().spec_children(e).len() == cs@.len()
            &&& forall|i: int|
                0 <= i < cs@.len() ==> #[trigger] m.spec_tree().spec_children(e)[i] == child_root(
                    cs@,
                    e,
                    i,
                )
            &&& forall|i: int|
                0 <= i < cs@.len() ==> #[trigger] m.spec_tree().spec_parent(
                    ((child_root(cs@, e, i)) as Entity),
                ) == Some(e)
            &&& forest_built(m, cs@, e, 0)
        },
    }
}

/// The expansions of the declared children of `e`, from index `i` on.
pub open spec fn forest_built(m: WidgetManager, cs: Seq<WidgetTemplate>, e: Entity, i: int) -> bool
    decreases cs, cs.len() - i,
{
    if i < 0 || i >= cs.len() {
        true
    } else {
        subtree_built(m, cs[i], ((child_root(cs, e, i)) as Entity)) && forest_built(m, cs, e, i + 1)
    }
}

/// The part count never grows along the forest: later suffixes count less.
proof fn lemma_forest_count_range(ts: Seq<WidgetTemplate>, a: int, b: int)
    requires
        0 <= a <= b <= ts.len(),
    ensures
        forest_count(ts, b) <= forest_count(ts, a),
    decreases b - a,
{
    if a < b {
        lemma_forest_count_range(ts, a + 1, b);
    }
}

/// Facts local to an expansion's handle range survive any change outside
/// that range.
proof fn lemma_subtree_built_frame(
    m1: WidgetManager,
    m2: WidgetManager,
    t: WidgetTemplate,
    e: Entity,
)
    requires
        subtree_built(m1, t, e),
        e + node_count(t) <= usize::MAX,
        e + node_count(t) <= m1.spec_store()@.len(),
        e + node_count(t) <= m2.spec_store()@.len(),
        forall|j: Entity|
            e <= j < e + node_count(t) ==> m2.spec_store()@[j as int] == m1.spec_store()@[j as int],
        forall|j: Entity|
            e <= j < e + node_count(t) ==> m2.spec_tree().spec_children(j)
                == m1.spec_tree().spec_children(j),
        forall|j: Entity|
            e < j < e + node_count(t) ==> m2.spec_tree().spec_parent(j)
                == m1.spec_tree().spec_parent(j),
    ensures
        subtree_built(m2, t, e),
    decreases t, 0int,
{
    assert(m2.spec_store()@[e as int] == m1.spec_store()@[e as int]);
    assert(m2.spec_tree().spec_children(e) == m1.spec_tree().spec_children(e));
    assert forall|k: u32|
        #[trigger] m2.spec_store().get_spec(e, ComponentKind::Property(k)) == m1.spec_store(
        ).get_spec(e, ComponentKind::Property(k)) by {}
    match t.shape {
        TemplateShape::Leaf => {},
        TemplateShape::Single(child) => {
            let c = ((e + 1) as Entity);
            assert(node_count(t) == 1 + node_count(*child));
            assert(m2.spec_tree().spec_parent(c) == m1.spec_tree().spec_parent(c));
            lemma_subtree_built_frame(m1, m2, *child, c);
        },
        TemplateShape::Multi(cs) => {
            assert forall|i: int| 0 <= i < cs@.len() implies #[trigger] m2.spec_tree().spec_parent(
                ((child_root(cs@, e, i)) as Entity),
            ) == Some(e) by {
                lemma_forest_count_mono(cs@, i);
                let c = ((child_root(cs@, e, i)) as Entity);
                assert(e < c < e + node_count(t));
                assert(m2.spec_tree().spec_parent(c) == m1.spec_tree().spec_parent(c));
            }
            lemma_forest_built_frame(m1, m2, cs@, e, 0, node_count(t));
        },
    }
}

/// As `lemma_subtree_built_frame`, for a run of declared children whose
/// ranges lie inside the parent expansion of `count` handles at `e`.
proof fn lemma_forest_built_frame(
    m1: WidgetManager,
    m2: WidgetManager,
    cs: Seq<WidgetTemplate>,
    e: Entity,
    i: int,
    count: nat,
)
    requires
        forest_built(m1, cs, e, i),
        e + count <= usize::MAX,
        count >= 1 + forest_count(cs, 0),
        e + count <= m1.spec_store()@.len(),
        e + count <= m2.spec_store()@.len(),
        forall|j: Entity|
            e <= j < e + count ==> m2.spec_store()@[j as int] == m1.spec_store()@[j as int],
        forall|j: Entity|
            e <= j < e + count ==> m2.spec_tree().spec_children(j) == m1.spec_tree().spec_children(
                j,
            ),
        forall|j: Entity|
            e < j < e + count ==> m2.spec_tree().spec_parent(j) == m1.spec_tree().spec_parent(j),
    ensures
        forest_built(m2, cs, e, i),
    decreases cs, cs.len() - i,
{
    if 0 <= i < cs.len() {
        lemma_forest_count_mono(cs, i);
        let c = ((child_root(cs, e, i)) as Entity);
        assert(c == child_root(cs, e, i));
        assert(c + node_count(cs[i]) == e + 1 + forest_count(cs, 0) - forest_count(cs, i + 1));
        lemma_subtree_built_frame(m1, m2, cs[i], c);
        lemma_forest_built_frame(m1, m2, cs, e, i + 1, count);
    }
}

/// Builds `forest_built` from per-child facts.
proof fn lemma_forest_built_intro(m: WidgetManager, cs: Seq<WidgetTemplate>, e: Entity, i: int)
    requires
        0 <= i <= cs.len(),
        forall|k: int|
            i <= k < cs.len() ==> #[trigger] subtree_built(
                m,
                cs[k],
                ((child_root(cs, e, k)) as Entity),
            ),
    ensures
        forest_built(m, cs, e, i),
    decreases cs.len() - i,
{
    if i < cs.len() {
        assert(subtree_built(m, cs[i], ((child_root(cs, e, i)) as Entity)));
        lemma_forest_built_intro(m, cs, e, i + 1);
    }
}

/// One draw call handed to the backend collaborator: an entity and its
/// final geometry.
#[derive(Clone, Copy, PartialEq, Eq, Structural, Debug)]
pub struct DrawCall {
    pub entity: Entity,
    pub bounds: Rect,
}

/// A frame failed; the run aborted.
#[derive(Clone, Copy, PartialEq, Eq, Structural, Debug)]
pub enum FrameError {
    /// The layout pass detected a negotiation cycle.
    LayoutCycle,
    /// A pass required a component that is absent.
    MissingComponent,
    /// A comparator returned no ordering for filter-admitted entities.
    OrderingError,
}

/// The two standard passes: layout strictly before render.
pub open spec fn standard_systems() -> Seq<SystemDescriptor> {
    seq![
        (SystemDescriptor { priority: 0, filter: None, comparator: None, pass: PassKind::Layout }),
        (SystemDescriptor {
            priority: 1,
            filter: Some(Filter::HasKind(ComponentKind::Drawable)),
            comparator: Some(Comparator::ByCreationId),
            pass: PassKind::Render,
        }),
    ]
}

/// How a layout failure surfaces to the frame's caller.
pub open spec fn frame_of(e: LayoutError) -> FrameError {
    match e {
        LayoutError::LayoutCycle => FrameError::LayoutCycle,
        LayoutError::MissingComponent => FrameError::MissingComponent,
    }
}

/// The render pass: one draw call per entity of the view, in view order,
/// each carrying the entity's current geometry. A missing geometry
/// component is fatal to the frame.
pub fn render(store: &ComponentStore, view: &Vec<Entity>) -> (r: Result<Vec<DrawCall>, StoreError>)
    ensures
        r matches Ok(calls) ==> {
            &&& calls@.len() == view@.len()
            &&& forall|i: int|
                0 <= i < calls@.len() ==> (#[trigger] calls@[i]).entity == view@[i]
                    && store.get_spec(view@[i], ComponentKind::Bounds) == Some(
                    Component::Bounds(calls@[i].bounds),
                )
        },
        r is Ok <==> (forall|i: int|
            0 <= i < view@.len() ==> (#[trigger] store.get_spec(view@[i], ComponentKind::Bounds))
                is Some),
        r is Err ==> r == Err::<Vec<DrawCall>, StoreError>(StoreError::MissingComponent),
{
    let mut calls: Vec<DrawCall> = Vec::new();
    let mut i: usize = 0;
    while i < view.len()
        invariant
            i <= view@.len(),
            calls@.len() == i,
            forall|j: int|
                0 <= j < i ==> (#[trigger] calls@[j]).entity == view@[j] && store.get_spec(
                    view@[j],
                    ComponentKind::Bounds,
                ) == Some(Component::Bounds(calls@[j].bounds)),
        decreases view@.len() - i,
    {
        let e = view[i];
        match store.get(e, ComponentKind::Bounds) {
            Ok(Component::Bounds(rect)) => {
                calls.push(DrawCall { entity: e, bounds: rect });
            },
            Ok(_) => {
                proof {
                    crate::store::lemma_row_get_kind(store@[e as int], ComponentKind::Bounds);
                    assert(false);
                }
                return Err(StoreError::MissingComponent);
            },
            Err(_) => {
                return Err(StoreError::MissingComponent);
            },
        }
        i = i + 1;
    }
    proof {
        assert forall|j: int| 0 <= j < view@.len() implies (#[trigger] store.get_spec(
            view@[j],
            ComponentKind::Bounds,
        )) is Some by {
            assert((#[trigger] calls@[j]).entity == view@[j]);
        }
    }
    Ok(calls)
}

/// Law: priorities order execution. In a pipeline sorted by priority, a
/// pass of strictly lower priority stands strictly earlier. Execution is
/// sequential in list order, each pass taking the store its predecessors
/// left behind and completing fully before the next begins, so every
/// component write made by the earlier pass is visible to the later one
/// (the frame driver's own contract shows the render pass reading exactly
/// the geometry the layout pass committed).
pub proof fn lemma_priority_order(systems: Seq<SystemDescriptor>, i: int, j: int)
    requires
        forall|p: int, q: int|
            0 <= p < q < systems.len() ==> (#[trigger] systems[p]).priority <= (
            #[trigger] systems[q]).priority,
        0 <= i < systems.len(),
        0 <= j < systems.len(),
        systems[i].priority < systems[j].priority,
    ensures
        i < j,
{
    if i > j {
        assert(systems[j].priority <= systems[i].priority);
    }
}

/// The standard pipeline is sorted by priority, layout before render.
pub proof fn lemma_standard_sorted()
    ensures
        forall|p: int, q: int|
            0 <= p < q < standard_systems().len() ==> (#[trigger] standard_systems()[p]).priority
                <= (#[trigger] standard_systems()[q]).priority,
{
    assert(standard_systems().len() == 2);
    assert(standard_systems()[0].priority == 0);
    assert(standard_systems()[1].priority == 1);
}

/// What one template expansion did: `post` extends `pre` with `count` fresh
/// entities starting at `e`. Everything older is untouched; every fresh
/// entity is a registered tree node carrying a creation-order id equal to
/// its handle, geometry and a layout strategy; every fresh entity but `e`
/// hangs under an earlier fresh entity; `e` itself stays parentless, and
/// becomes the root if the tree had none.
pub open spec fn expanded_from(
    pre: WidgetManager,
    post: WidgetManager,
    e: Entity,
    count: nat,
) -> bool {
    &&& e == pre.spec_store()@.len()
    &&& post.spec_store()@.len() == pre.spec_store()@.len() + count
    &&& post.spec_systems() == pre.spec_systems()
    &&& forall|j: int| 0 <= j < e ==> post.spec_store()@[j] == pre.spec_store()@[j]
    &&& forall|x: Entity|
        x < e ==> #[trigger] post.spec_tree().spec_contains(x) == pre.spec_tree().spec_contains(x)
    &&& forall|x: Entity|
        x < e ==> #[trigger] post.spec_tree().spec_parent(x) == pre.spec_tree().spec_parent(x)
    &&& forall|x: Entity|
        x < e ==> #[trigger] post.spec_tree().spec_children(x) == pre.spec_tree().spec_children(x)
    &&& post.spec_tree().spec_contains(e)
    &&& post.spec_tree().spec_parent(e) is None
    &&& forall|x: Entity|
        e <= x < post.spec_store()@.len() ==> #[trigger] post.spec_tree().spec_contains(x)
    &&& forall|x: Entity|
        e <= x < post.spec_store()@.len() ==> #[trigger] post.spec_store().get_spec(
            x,
            ComponentKind::Id,
        ) == Some(Component::Id(EntityId(x as u32)))
    &&& forall|x: Entity|
        e <= x < post.spec_store()@.len() ==> (#[trigger] post.spec_store().get_spec(
            x,
            ComponentKind::Bounds,
        )) is Some
    &&& forall|x: Entity|
        e <= x < post.spec_store()@.len() ==> (#[trigger] post.spec_store().get_spec(
            x,
            ComponentKind::Layout,
        )) is Some
    &&& forall|x: Entity|
        e < x < post.spec_store()@.len() ==> (#[trigger] post.spec_tree().spec_parent(x)) is Some
            && e <= post.spec_tree().spec_parent(x)->Some_0 < x
    &&& post.spec_tree().spec_root() == if pre.spec_tree().spec_root() is None {
        Some(e)
    } else {
        pre.spec_tree().spec_root()
    }
}

/// Unfolds one step of `forest_count` and bounds each part by the whole.
proof fn lemma_forest_count_mono(ts: Seq<WidgetTemplate>, i: int)
    requires
        0 <= i < ts.len(),
    ensures
        forest_count(ts, i) == node_count(ts[i]) + forest_count(ts, i + 1),
        forest_count(ts, i) <= forest_count(ts, 0),
        node_count(ts[i]) <= forest_count(ts, 0),
    decreases i,
{
    if i > 0 {
        lemma_forest_count_mono(ts, i - 1);
    }
}

/// Appending the freshly expanded subtree rooted at `c` under `e` extends
/// one expansion by another.
proof fn lemma_expand_compose(
    pre: WidgetManager,
    mid: WidgetManager,
    postx: WidgetManager,
    post: WidgetManager,
    e: Entity,
    c: Entity,
)
    requires
        expanded_from(pre, mid, e, (mid.spec_store()@.len() - pre.spec_store()@.len()) as nat),
        mid.spec_store()@.len() > pre.spec_store()@.len(),
        expanded_from(
            mid,
            postx,
            c,
            (postx.spec_store()@.len() - mid.spec_store()@.len()) as nat,
        ),
        postx.spec_store()@.len() > mid.spec_store()@.len(),
        postx.wf(),
        post.spec_tree().wf(),
        post.spec_store() == postx.spec_store(),
        post.spec_systems() == postx.spec_systems(),
        post.spec_tree().spec_parent(c) == Some(e),
        post.spec_tree().spec_children(e) == postx.spec_tree().spec_children(e).push(c),
        forall|x: Entity|
            x != c ==> #[trigger] post.spec_tree().spec_parent(x) == postx.spec_tree().spec_parent(
                x,
            ),
        forall|x: Entity|
            x != e ==> #[trigger] post.spec_tree().spec_children(x)
                == postx.spec_tree().spec_children(x),
        forall|x: Entity|
            #[trigger] post.spec_tree().spec_contains(x) == postx.spec_tree().spec_contains(x),
        post.spec_tree().spec_root() == postx.spec_tree().spec_root(),
    ensures
        post.wf(),
        expanded_from(pre, post, e, (post.spec_store()@.len() - pre.spec_store()@.len()) as nat),
{
    assert(e < mid.spec_store()@.len());
    assert(c == mid.spec_store()@.len());
    assert forall|x: Entity| x < e implies #[trigger] post.spec_tree().spec_parent(x)
        == pre.spec_tree().spec_parent(x) by {
        assert(postx.spec_tree().spec_parent(x) == mid.spec_tree().spec_parent(x));
    }
    assert forall|x: Entity| x < e implies #[trigger] post.spec_tree().spec_children(x)
        == pre.spec_tree().spec_children(x) by {
        assert(postx.spec_tree().spec_children(x) == mid.spec_tree().spec_children(x));
    }
    assert forall|x: Entity| x < e implies #[trigger] post.spec_tree().spec_contains(x)
        == pre.spec_tree().spec_contains(x) by {
        assert(postx.spec_tree().spec_contains(x) == mid.spec_tree().spec_contains(x));
    }
    assert forall|j: int| 0 <= j < e implies post.spec_store()@[j] == pre.spec_store()@[j] by {
        assert(postx.spec_store()@[j] == mid.spec_store()@[j]);
    }
    assert(post.spec_tree().spec_parent(e) is None);
    assert forall|x: Entity| e <= x < post.spec_store()@.len() implies
        #[trigger] post.spec_tree().spec_contains(x) by {
        if x < c {
            assert(postx.spec_tree().spec_contains(x) == mid.spec_tree().spec_contains(x));
            assert(mid.spec_tree().spec_contains(x));
        } else {
            assert(postx.spec_tree().spec_contains(x));
        }
    }
    assert forall|x: Entity| e <= x < post.spec_store()@.len() implies
        #[trigger] post.spec_store().get_spec(x, ComponentKind::Id) == Some(
        Component::Id(EntityId(x as u32)),
    ) by {
        if x < c {
            assert(postx.spec_store()@[x as int] == mid.spec_store()@[x as int]);
            assert(mid.spec_store().get_spec(x, ComponentKind::Id) == Some(
                Component::Id(EntityId(x as u32)),
            ));
        }
    }
    assert forall|x: Entity| e <= x < post.spec_store()@.len() implies (
    #[trigger] post.spec_store().get_spec(x, ComponentKind::Bounds)) is Some by {
        if x < c {
            assert(postx.spec_store()@[x as int] == mid.spec_store()@[x as int]);
            assert(mid.spec_store().get_spec(x, ComponentKind::Bounds) is Some);
        }
    }
    assert forall|x: Entity| e <= x < post.spec_store()@.len() implies (
    #[trigger] post.spec_store().get_spec(x, ComponentKind::Layout)) is Some by {
        if x < c {
            assert(postx.spec_store()@[x as int] == mid.spec_store()@[x as int]);
            assert(mid.spec_store().get_spec(x, ComponentKind::Layout) is Some);
        }
    }
    assert forall|x: Entity| e < x < post.spec_store()@.len() implies (
    #[trigger] post.spec_tree().spec_parent(x)) is Some && e <= post.spec_tree().spec_parent(
        x,
    )->Some_0 < x by {
        if x == c {
        } else if x < c {
            assert(post.spec_tree().spec_parent(x) == postx.spec_tree().spec_parent(x));
            assert(postx.spec_tree().spec_parent(x) == mid.spec_tree().spec_parent(x));
            assert(mid.spec_tree().spec_parent(x) is Some && e <= mid.spec_tree().spec_parent(
                x,
            )->Some_0 < x);
        } else {
            assert(post.spec_tree().spec_parent(x) == postx.spec_tree().spec_parent(x));
            assert(postx.spec_tree().spec_parent(x) is Some && c <= postx.spec_tree().spec_parent(
                x,
            )->Some_0 < x);
        }
    }
    assert(post.wf()) by {
        assert forall|x: Entity| #[trigger] post.spec_tree().spec_contains(x) implies x
            < post.spec_store()@.len() by {
            assert(postx.spec_tree().spec_contains(x));
        }
    }
}

/// Law: a layout function that requests its own entity directly fails the
/// frame with `LayoutCycle` — the pass stops at the first revisit of an
/// in-progress entity instead of recursing unboundedly. In a store where
/// every row carries a creation id (as in every store the builder makes),
/// the filter+sort phase cannot fail first, so together with the frame
/// driver's contract the frame's error is exactly the cycle.
pub proof fn lemma_frame_self_request_cycle(m: WidgetManager, bc: BoxConstraints, root: Entity)
    requires
        m.wf(),
        forall|e: Entity|
            e < m.spec_store()@.len() ==> (#[trigger] crate::pipeline::creation_id_of(
                m.spec_store()@,
                e,
            )) is Some,
        m.spec_tree().spec_root() == Some(root),
        root < m.spec_store()@.len(),
        crate::layout::strategy_of(m.spec_store()@, root) == LayoutStrategy::Deferred(root),
    ensures
        layout_pass_spec(m.spec_store()@, m.spec_tree(), bc).0 == Err::<(), LayoutError>(
            LayoutError::LayoutCycle,
        ),
        forall|a: Entity, b: Entity|
            filter_spec(m.spec_store()@, Filter::HasKind(ComponentKind::Drawable), a)
                && filter_spec(m.spec_store()@, Filter::HasKind(ComponentKind::Drawable), b)
                ==> !(#[trigger] compare_spec(m.spec_store()@, Comparator::ByCreationId, a, b)
                is Incomparable),
{
    let rows = m.spec_store()@;
    let empty_chain = Seq::<Entity>::empty();
    assert(crate::layout::chain_ok(rows.len() as nat, empty_chain));
    assert(!empty_chain.contains(root));
    crate::layout::lemma_self_request_cycle(rows, m.spec_tree(), root, bc, empty_chain);
    assert forall|a: Entity, b: Entity|
        filter_spec(rows, Filter::HasKind(ComponentKind::Drawable), a) && filter_spec(
            rows,
            Filter::HasKind(ComponentKind::Drawable),
            b,
        ) implies !(#[trigger] compare_spec(rows, Comparator::ByCreationId, a, b)
        is Incomparable) by {
        assert(crate::pipeline::creation_id_of(rows, a) is Some);
        assert(crate::pipeline::creation_id_of(rows, b) is Some);
    }
}

/// The expansion root's own components, once attached, transfer to any
/// later state whose row for `e` is unchanged.
proof fn lemma_own_row_built(built: WidgetManager, m: WidgetManager, t: WidgetTemplate, e: Entity)
    requires
        e < built.spec_store()@.len(),
        e < m.spec_store()@.len(),
        m.spec_store()@[e as int] == built.spec_store()@[e as int],
        built.spec_store().get_spec(e, ComponentKind::Bounds) == Some(
            Component::Bounds(default_geometry()),
        ),
        built.spec_store().get_spec(e, ComponentKind::Layout) == Some(
            Component::Layout(declared_strategy(t)),
        ),
        built.spec_store().get_spec(e, ComponentKind::Id) == Some(
            Component::Id(EntityId(e as u32)),
        ),
        built.spec_store().get_spec(e, ComponentKind::Drawable) == if t.drawable {
            Some(Component::Drawable)
        } else {
            None::<Component>
        },
        forall|k: u32|
            #[trigger] built.spec_store().get_spec(e, ComponentKind::Property(k))
                == match last_property(t.properties@, k) {
                Some(v) => Some(Component::Property(k, v)),
                None => None::<Component>,
            },
    ensures
        m.spec_store().get_spec(e, ComponentKind::Bounds) == Some(
            Component::Bounds(default_geometry()),
        ),
        m.spec_store().get_spec(e, ComponentKind::Layout) == Some(
            Component::Layout(declared_strategy(t)),
        ),
        m.spec_store().get_spec(e, ComponentKind::Id) == Some(Component::Id(EntityId(e as u32))),
        m.spec_store().get_spec(e, ComponentKind::Drawable) == if t.drawable {
            Some(Component::Drawable)
        } else {
            None::<Component>
        },
        forall|k: u32|
            #[trigger] m.spec_store().get_spec(e, ComponentKind::Property(k)) == match
                last_property(t.properties@, k) {
                Some(v) => Some(Component::Property(k, v)),
                None => None::<Component>,
            },
{
    assert forall|k: u32|
        #[trigger] m.spec_store().get_spec(e, ComponentKind::Property(k)) == match last_property(
            t.properties@,
            k,
        ) {
            Some(v) => Some(Component::Property(k, v)),
            None => None::<Component>,
        } by {
        assert(built.spec_store().get_spec(e, ComponentKind::Property(k)) == match last_property(
            t.properties@,
            k,
        ) {
            Some(v) => Some(Component::Property(k, v)),
            None => None::<Component>,
        });
    }
}

/// Owns the world: the component store, the tree and the registered
/// pipeline. Each pass receives exclusive access for the duration of its
/// own invocation only.
pub struct WidgetManager {
    store: ComponentStore,
    tree: Tree,
    systems: Vec<SystemDescriptor>,
}

impl WidgetManager {
    pub closed spec fn spec_store(self) -> ComponentStore {
        self.store
    }

    pub closed spec fn spec_tree(self) -> Tree {
        self.tree
    }

    pub closed spec fn spec_systems(self) -> Seq<SystemDescriptor> {
        self.systems@
    }

    /// Every registered tree node is a store row, every entity carries
    /// geometry, and the pipeline is the standard one, sorted by priority.
    pub open spec fn wf(self) -> bool {
        &&& self.spec_tree().wf()
        &&& forall|e: Entity|
            #[trigger] self.spec_tree().spec_contains(e) ==> e < self.spec_store()@.len()
        &&& forall|e: Entity|
            e < self.spec_store()@.len() ==> (#[trigger] self.spec_store().get_spec(
                e,
                ComponentKind::Bounds,
            )) is Some
        &&& self.spec_systems() == standard_systems()
    }

    pub fn new() -> (m: WidgetManager)
        ensures
            m.wf(),
            m.spec_store()@ == Seq::<Seq<Component>>::empty(),
            forall|e: Entity| !m.spec_tree().spec_contains(e),
            m.spec_tree().spec_root() is None,
            m.spec_systems() == standard_systems(),
    {
        let mut systems: Vec<SystemDescriptor> = Vec::new();
        systems.push(
            SystemDescriptor { priority: 0, filter: None, comparator: None, pass: PassKind::Layout },
        );
        systems.push(
            SystemDescriptor {
                priority: 1,
                filter: Some(Filter::HasKind(ComponentKind::Drawable)),
                comparator: Some(Comparator::ByCreationId),
                pass: PassKind::Render,
            },
        );
        let m = WidgetManager { store: ComponentStore::new(), tree: Tree::new(), systems };
        proof {
            assert(m.spec_systems() =~= standard_systems());
        }
        m
    }

    /// Expands `template` into entities, default components and tree nodes,
    /// rooted at a fresh, parentless entity, and returns that entity.
    ///
    /// Every created entity gets default geometry, a layout strategy (the
    /// widget's own, or the transparent default), a creation-order id equal
    /// to its handle, a drawable marker if the widget asks for one, and one
    /// opaque component per declared property; it is registered in the
    /// tree, and every created entity but the first is appended under the
    /// created entity it was declared in, in declaration order.
    fn expand(&mut self, template: &WidgetTemplate) -> (e: Entity)
        requires
            old(self).wf(),
            old(self).spec_store()@.len() + node_count(*template) <= u32::MAX,
        ensures
            final(self).wf(),
            expanded_from(*old(self), *final(self), e, node_count(*template)),
            subtree_built(*final(self), *template, e),
        decreases node_count(*template),
    {
        let ghost pre = *self;
        let entity = self.store.create();
        let ghost row0 = self.store@[entity as int];
        self.store.attach(entity, Component::Bounds(Rect::new(10, 10, 200, 50)));
        let ghost row1 = self.store@[entity as int];
        let strategy = match template.layout {
            Some(s) => s,
            None => LayoutStrategy::Transparent,
        };
        self.store.attach(entity, Component::Layout(strategy));
        let ghost row2 = self.store@[entity as int];
        self.store.attach(entity, Component::Id(EntityId(entity as u32)));
        let ghost row3 = self.store@[entity as int];
        if template.drawable {
            self.store.attach(entity, Component::Drawable);
            proof {
                lemma_row_get_push(row3, Component::Drawable, ComponentKind::Id);
                lemma_row_get_push(row3, Component::Drawable, ComponentKind::Bounds);
                lemma_row_get_push(row3, Component::Drawable, ComponentKind::Layout);
            }
        }
        proof {
            assert(strategy == declared_strategy(*template));
            lemma_row_get_push(row1, Component::Layout(strategy), ComponentKind::Bounds);
            lemma_row_get_push(row2, Component::Id(EntityId(entity as u32)), ComponentKind::Bounds);
            lemma_row_get_push(row2, Component::Id(EntityId(entity as u32)), ComponentKind::Layout);
            assert(row_get(row3, ComponentKind::Id) == Some(
                Component::Id(EntityId(entity as u32)),
            ));
            assert(row_get(row3, ComponentKind::Layout) == Some(Component::Layout(strategy)));
            assert(row_get(row3, ComponentKind::Bounds) == Some(
                Component::Bounds(default_geometry()),
            ));
            // No drawable marker stands in the row unless the widget asked
            // for one, and no property does yet.
            assert(row0.len() == 0);
            lemma_row_get_push(row0, Component::Bounds(default_geometry()), ComponentKind::Drawable);
            lemma_row_get_push(row1, Component::Layout(strategy), ComponentKind::Drawable);
            lemma_row_get_push(row2, Component::Id(EntityId(entity as u32)), ComponentKind::Drawable);
            assert(row_get(row3, ComponentKind::Drawable) is None);
            if template.drawable {
                assert(self.store@[entity as int] == row3.push(Component::Drawable));
                assert(self.store.get_spec(entity, ComponentKind::Drawable) == Some(
                    Component::Drawable,
                ));
            }
            assert forall|k: u32|
                #[trigger] self.store.get_spec(entity, ComponentKind::Property(k)) is None by {
                lemma_row_get_push(
                    row0,
                    Component::Bounds(default_geometry()),
                    ComponentKind::Property(k),
                );
                lemma_row_get_push(row1, Component::Layout(strategy), ComponentKind::Property(k));
                lemma_row_get_push(
                    row2,
                    Component::Id(EntityId(entity as u32)),
                    ComponentKind::Property(k),
                );
                if template.drawable {
                    lemma_row_get_push(row3, Component::Drawable, ComponentKind::Property(k));
                }
            }
        }
        let mut pi: usize = 0;
        while pi < template.properties.len()
            invariant
                pi <= template.properties@.len(),
                entity < self.store@.len(),
                self.store@.len() == pre.spec_store()@.len() + 1,
                entity == pre.spec_store()@.len(),
                forall|j: int| 0 <= j < entity ==> self.store@[j] == pre.spec_store()@[j],
                self.store.get_spec(entity, ComponentKind::Id) == Some(
                    Component::Id(EntityId(entity as u32)),
                ),
                self.store.get_spec(entity, ComponentKind::Bounds) == Some(
                    Component::Bounds(default_geometry()),
                ),
                self.store.get_spec(entity, ComponentKind::Layout) == Some(
                    Component::Layout(strategy),
                ),
                self.store.get_spec(entity, ComponentKind::Drawable) == if template.drawable {
                    Some(Component::Drawable)
                } else {
                    None::<Component>
                },
                forall|k: u32|
                    #[trigger] self.store.get_spec(entity, ComponentKind::Property(k))
                        == match last_property(template.properties@.take(pi as int), k) {
                        Some(v) => Some(Component::Property(k, v)),
                        None => None::<Component>,
                    },
                self.tree == pre.spec_tree(),
                self.systems@ == pre.spec_systems(),
            decreases template.properties@.len() - pi,
        {
            let ghost prow = self.store@[entity as int];
            let ghost before_attach = *self;
            let (key, value) = template.properties[pi];
            self.store.attach(entity, Component::Property(key, value));
            proof {
                lemma_row_get_push(prow, Component::Property(key, value), ComponentKind::Id);
                lemma_row_get_push(prow, Component::Property(key, value), ComponentKind::Bounds);
                lemma_row_get_push(prow, Component::Property(key, value), ComponentKind::Layout);
                lemma_row_get_push(prow, Component::Property(key, value), ComponentKind::Drawable);
                let props = template.properties@;
                assert(props.take(pi as int + 1).drop_last() =~= props.take(pi as int));
                assert(props.take(pi as int + 1).last() == (key, value));
                assert forall|k: u32|
                    #[trigger] self.store.get_spec(entity, ComponentKind::Property(k))
                        == match last_property(props.take(pi as int + 1), k) {
                        Some(v) => Some(Component::Property(k, v)),
                        None => None::<Component>,
                    } by {
                    assert(before_attach.store.get_spec(entity, ComponentKind::Property(k))
                        == match last_property(props.take(pi as int), k) {
                        Some(v) => Some(Component::Property(k, v)),
                        None => None::<Component>,
                    });
                    assert(before_attach.store.get_spec(entity, ComponentKind::Property(k))
                        == row_get(prow, ComponentKind::Property(k)));
                    lemma_row_get_push(
                        prow,
                        Component::Property(key, value),
                        ComponentKind::Property(k),
                    );
                }
            }
            pi = pi + 1;
        }
        proof {
            assert(template.properties@.take(template.properties@.len() as int)
                =~= template.properties@);
            let n: int = template.properties@.len() as int;
            assert forall|k: u32|
                #[trigger] self.store.get_spec(entity, ComponentKind::Property(k))
                    == match last_property(template.properties@, k) {
                    Some(v) => Some(Component::Property(k, v)),
                    None => None::<Component>,
                } by {
                assert(self.store.get_spec(entity, ComponentKind::Property(k)) == match
                    last_property(template.properties@.take(pi as int), k) {
                    Some(v) => Some(Component::Property(k, v)),
                    None => None::<Component>,
                });
                assert(template.properties@.take(pi as int) == template.properties@.take(n));
                assert(last_property(template.properties@.take(n), k) == last_property(
                    template.properties@,
                    k,
                ));
            }
        }
        let ghost built = *self;
        proof {
            assert(!self.tree.spec_contains(entity)) by {
                if self.tree.spec_contains(entity) {
                    assert(pre.spec_tree().spec_contains(entity));
                }
            }
        }
        self.tree.register_node(entity);
        proof {
            assert(self.wf()) by {
                assert forall|x: Entity| #[trigger] self.tree.spec_contains(x) implies x
                    < self.store@.len() by {
                    if x != entity {
                        assert(pre.spec_tree().spec_contains(x));
                    }
                }
                assert forall|x: Entity| x < self.store@.len() implies (
                #[trigger] self.store.get_spec(x, ComponentKind::Bounds)) is Some by {
                    if x < entity {
                        assert(pre.spec_store().get_spec(x, ComponentKind::Bounds) is Some);
                        assert(self.store@[x as int] == pre.spec_store()@[x as int]);
                    }
                }
            }
            assert(expanded_from(pre, *self, entity, 1));
            assert(pre.spec_tree().spec_children(entity) == Seq::<Entity>::empty());
            assert(self.tree.spec_children(entity) == Seq::<Entity>::empty());
            assert(self.store@ == built.spec_store()@);
        }
        match &template.shape {
            TemplateShape::Leaf => {
                proof {
                    assert(subtree_built(*self, *template, entity));
                }
            },
            TemplateShape::Single(child) => {
                proof {
                    assert(node_count(*template) == 1 + node_count(**child));
                }
                let ghost mid = *self;
                let c = self.expand(&**child);
                let ghost postx = *self;
                let res = self.tree.append_child(entity, c);
                proof {
                    assert(res is Ok);
                    lemma_expand_compose(pre, mid, postx, *self, entity, c);
                    assert(c == entity + 1);
                    // the child list is exactly the one declared child
                    assert(postx.spec_tree().spec_children(entity) == mid.spec_tree(
                    ).spec_children(entity));
                    assert(self.tree.spec_children(entity) =~= seq![c]);
                    assert(self.tree.spec_parent(c) == Some(entity));
                    // the child's expansion survives the append untouched
                    assert(self.store@ == postx.spec_store()@);
                    assert forall|j: Entity| c <= j < c + node_count(**child) implies
                        self.tree.spec_children(j) == postx.spec_tree().spec_children(j) by {}
                    assert forall|j: Entity| c < j < c + node_count(**child) implies
                        self.tree.spec_parent(j) == postx.spec_tree().spec_parent(j) by {}
                    lemma_subtree_built_frame(postx, *self, **child, c);
                    // the container's own row never changed again
                    assert(self.store@[entity as int] == built.spec_store()@[entity as int]);
                    lemma_own_row_built(built, *self, *template, entity);
                    assert(subtree_built(*self, *template, entity));
                }
            },
            TemplateShape::Multi(children) => {
                let mut ci: usize = 0;
                proof {
                    assert(node_count(*template) == 1 + forest_count(children@, 0));
                }
                while ci < children.len()
                    invariant
                        ci <= children@.len(),
                        self.wf(),
                        entity == pre.spec_store()@.len(),
                        pre.wf(),
                        pre.spec_store()@.len() + node_count(*template) <= u32::MAX,
                        node_count(*template) == 1 + forest_count(children@, 0),
                        self.store@.len() == pre.spec_store()@.len() + 1 + forest_count(
                            children@,
                            0,
                        ) - forest_count(children@, ci as int),
                        expanded_from(
                            pre,
                            *self,
                            entity,
                            (self.store@.len() - pre.spec_store()@.len()) as nat,
                        ),
                        self.store@[entity as int] == built.spec_store()@[entity as int],
                        entity < built.spec_store()@.len(),
                        self.tree.spec_children(entity).len() == ci,
                        forall|k: int|
                            0 <= k < ci ==> #[trigger] self.tree.spec_children(entity)[k]
                                == child_root(children@, entity, k),
                        forall|k: int|
                            0 <= k < ci ==> #[trigger] self.tree.spec_parent(
                                ((child_root(children@, entity, k)) as Entity),
                            ) == Some(entity),
                        forall|k: int|
                            0 <= k < ci ==> #[trigger] subtree_built(
                                *self,
                                children@[k],
                                ((child_root(children@, entity, k)) as Entity),
                            ),
                    decreases children@.len() - ci,
                {
                    proof {
                        lemma_forest_count_mono(children@, ci as int);
                    }
                    let ghost mid = *self;
                    let c = self.expand(&children[ci]);
                    let ghost postx = *self;
                    let res = self.tree.append_child(entity, c);
                    ci = ci + 1;
                    proof {
                        assert(res is Ok);
                        lemma_expand_compose(pre, mid, postx, *self, entity, c);
                        let cs = children@;
                        let prev: int = ci - 1;
                        assert(c == child_root(cs, entity, prev));
                        assert(self.store@ == postx.spec_store()@);
                        // the new child list is the old one with `c` at the end
                        assert(postx.spec_tree().spec_children(entity) == mid.spec_tree(
                        ).spec_children(entity));
                        assert(self.tree.spec_children(entity) == mid.spec_tree().spec_children(
                            entity,
                        ).push(c));
                        assert forall|k: int|
                            0 <= k < ci implies #[trigger] self.tree.spec_children(entity)[k]
                            == child_root(cs, entity, k) by {
                            if k < prev {
                                assert(mid.spec_tree().spec_children(entity)[k] == child_root(
                                    cs,
                                    entity,
                                    k,
                                ));
                            }
                        }
                        // earlier subtrees lie strictly below `c`
                        assert forall|k: int|
                            0 <= k < ci implies #[trigger] subtree_built(
                            *self,
                            cs[k],
                            ((child_root(cs, entity, k)) as Entity),
                        ) by {
                            lemma_forest_count_mono(cs, k);
                            let ck = ((child_root(cs, entity, k)) as Entity);
                            if k < prev {
                                lemma_forest_count_range(cs, k + 1, prev);
                                assert(ck + node_count(cs[k]) <= c);
                                assert(subtree_built(mid, cs[k], ck));
                                assert forall|j: Entity| ck <= j < ck + node_count(cs[k]) implies
                                    self.store@[j as int] == mid.spec_store()@[j as int] by {}
                                assert forall|j: Entity| ck <= j < ck + node_count(cs[k]) implies
                                    self.tree.spec_children(j) == mid.spec_tree().spec_children(
                                    j,
                                ) by {
                                    assert(postx.spec_tree().spec_children(j) == mid.spec_tree(
                                    ).spec_children(j));
                                }
                                assert forall|j: Entity| ck < j < ck + node_count(cs[k]) implies
                                    self.tree.spec_parent(j) == mid.spec_tree().spec_parent(
                                    j,
                                ) by {
                                    assert(postx.spec_tree().spec_parent(j) == mid.spec_tree(
                                    ).spec_parent(j));
                                }
                                lemma_subtree_built_frame(mid, *self, cs[k], ck);
                            } else {
                                assert(subtree_built(postx, cs[prev], c));
                                assert forall|j: Entity| c <= j < c + node_count(cs[prev]) implies
                                    self.tree.spec_children(j) == postx.spec_tree().spec_children(
                                    j,
                                ) by {}
                                assert forall|j: Entity| c < j < c + node_count(cs[prev]) implies
                                    self.tree.spec_parent(j) == postx.spec_tree().spec_parent(
                                    j,
                                ) by {}
                                lemma_subtree_built_frame(postx, *self, cs[prev], c);
                            }
                        }
                        assert forall|k: int|
                            0 <= k < ci implies #[trigger] self.tree.spec_parent(
                            ((child_root(cs, entity, k)) as Entity),
                        ) == Some(entity) by {
                            if k < prev {
                                lemma_forest_count_mono(cs, k);
                                lemma_forest_count_range(cs, k + 1, prev);
                                let ck = ((child_root(cs, entity, k)) as Entity);
                                assert(ck < c);
                                assert(postx.spec_tree().spec_parent(ck) == mid.spec_tree(
                                ).spec_parent(ck));
                                assert(mid.spec_tree().spec_parent(ck) == Some(entity));
                            }
                        }
                    }
                }
                proof {
                    assert(forall|k: int|
                        0 <= k < children@.len() ==> #[trigger] subtree_built(
                            *self,
                            children@[k],
                            ((child_root(children@, entity, k)) as Entity),
                        ));
                    lemma_forest_built_intro(*self, children@, entity, 0);
                    lemma_own_row_built(built, *self, *template, entity);
                    assert(subtree_built(*self, *template, entity));
                }
            },
        }
        entity
    }

    /// Expands a declarative widget template below a fresh root entity;
    /// the first expansion of a fresh manager designates the tree's root.
    pub fn root(&mut self, template: &WidgetTemplate)
        requires
            old(self).wf(),
            old(self).spec_store()@.len() + node_count(*template) <= u32::MAX,
        ensures
            final(self).wf(),
            expanded_from(
                *old(self),
                *final(self),
                old(self).spec_store()@.len() as usize,
                node_count(*template),
            ),
            subtree_built(
                *final(self),
                *template,
                old(self).spec_store()@.len() as usize,
            ),
    {
        let _ = self.expand(template);
    }

    /// Runs one frame: the filter+sort phase recomputes the entity views,
    /// then the passes execute strictly in ascending priority order — the
    /// layout pass first, then the render pass, which issues one draw call
    /// per drawable entity, in ascending creation order, carrying the
    /// geometry the layout pass just committed. A failed frame leaves the
    /// store untouched.
    pub fn run(&mut self, bc: &BoxConstraints) -> (r: Result<Vec<DrawCall>, FrameError>)
        requires
            old(self).wf(),
        ensures
            final(self).wf(),
            final(self).spec_tree() == old(self).spec_tree(),
            final(self).spec_systems() == old(self).spec_systems(),
            final(self).spec_store()@.len() == old(self).spec_store()@.len(),
            r is Err ==> final(self).spec_store()@ == old(self).spec_store()@,
            r == Err::<Vec<DrawCall>, FrameError>(FrameError::OrderingError) <==> (exists|
                a: Entity,
                b: Entity,
            |
                filter_spec(
                    old(self).spec_store()@,
                    Filter::HasKind(ComponentKind::Drawable),
                    a,
                ) && filter_spec(old(self).spec_store()@, Filter::HasKind(ComponentKind::Drawable), b)
                    && #[trigger] compare_spec(
                    old(self).spec_store()@,
                    Comparator::ByCreationId,
                    a,
                    b,
                ) is Incomparable),
            r != Err::<Vec<DrawCall>, FrameError>(FrameError::OrderingError) ==> ({
                let outcome = layout_pass_spec(
                    old(self).spec_store()@,
                    old(self).spec_tree(),
                    *bc,
                ).0;
                &&& (r is Err <==> outcome is Err)
                &&& (outcome matches Err(le) ==> r == Err::<Vec<DrawCall>, FrameError>(
                    frame_of(le),
                ))
            }),
            r matches Ok(calls) ==> ({
                let rows0 = old(self).spec_store()@;
                let writes = layout_pass_spec(rows0, old(self).spec_tree(), *bc).1;
                &&& forall|x: Entity, k: ComponentKind|
                    x < rows0.len() ==> #[trigger] final(self).spec_store().get_spec(x, k) == (if k
                        == ComponentKind::Bounds && writes.contains_key(x) {
                        Some(Component::Bounds(writes[x]))
                    } else {
                        old(self).spec_store().get_spec(x, k)
                    })
                &&& forall|x: Entity|
                    calls@.map_values(|dc: DrawCall| dc.entity).contains(x) <==> filter_spec(
                        rows0,
                        Filter::HasKind(ComponentKind::Drawable),
                        x,
                    )
                &&& forall|i: int, j: int|
                    0 <= i < j < calls@.len() ==> lex_le(
                        rows0,
                        Comparator::ByCreationId,
                        (#[trigger] calls@[i]).entity,
                        (#[trigger] calls@[j]).entity,
                    )
                &&& forall|i: int|
                    0 <= i < calls@.len() ==> final(self).spec_store().get_spec(
                        (#[trigger] calls@[i]).entity,
                        ComponentKind::Bounds,
                    ) == Some(Component::Bounds(calls@[i].bounds))
            }),
    {
        let ghost rows0 = self.store@;
        proof {
            assert(self.systems@[1] == standard_systems()[1]);
        }
        // Filter+sort phase: compute the render descriptor's entity view.
        let d = self.systems[1];
        let f = d.filter.unwrap();
        let view = match compute_view(&self.store, f, d.comparator) {
            Ok(v) => v,
            Err(_) => {
                proof {
                    assert(f == Filter::HasKind(ComponentKind::Drawable));
                    assert(d.comparator == Some(Comparator::ByCreationId));
                }
                return Err(FrameError::OrderingError);
            },
        };
        proof {
            assert(f == Filter::HasKind(ComponentKind::Drawable));
            assert(d.comparator == Some(Comparator::ByCreationId));
            assert forall|a: Entity, b: Entity|
                filter_spec(rows0, Filter::HasKind(ComponentKind::Drawable), a) && filter_spec(
                    rows0,
                    Filter::HasKind(ComponentKind::Drawable),
                    b,
                ) implies !(#[trigger] compare_spec(
                rows0,
                Comparator::ByCreationId,
                a,
                b,
            ) is Incomparable) by {
                assert(!(compare_spec(self.store@, d.comparator->Some_0, a, b) is Incomparable));
            }
        }
        // Execution phase, ascending priority: layout, then render.
        match run_layout(&mut self.store, &self.tree, bc) {
            Err(e) => {
                proof {
                    assert(self.store@ == rows0);
                    assert forall|x: Entity| x < self.store@.len() implies (
                    #[trigger] self.store.get_spec(x, ComponentKind::Bounds)) is Some by {
                        assert(old(self).spec_store().get_spec(x, ComponentKind::Bounds) is Some);
                    }
                }
                return Err(
                    match e {
                        LayoutError::LayoutCycle => FrameError::LayoutCycle,
                        LayoutError::MissingComponent => FrameError::MissingComponent,
                    },
                );
            },
            Ok(_) => {},
        }
        proof {
            assert forall|x: Entity| x < self.store@.len() implies (
            #[trigger] self.store.get_spec(x, ComponentKind::Bounds)) is Some by {
                assert(old(self).spec_store().get_spec(x, ComponentKind::Bounds) is Some);
            }
            assert forall|i: int| 0 <= i < view@.len() implies (#[trigger] self.store.get_spec(
                view@[i],
                ComponentKind::Bounds,
            )) is Some by {
                assert(view@.contains(view@[i]));
                assert(filter_spec(rows0, f, view@[i]));
            }
        }
        let calls = match render(&self.store, &view) {
            Ok(c) => c,
            Err(_) => {
                proof {
                    assert(false);
                }
                return Err(FrameError::MissingComponent);
            },
        };
        proof {
            let ents = calls@.map_values(|dc: DrawCall| dc.entity);
            assert(ents =~= view@);
            assert forall|x: Entity|
                calls@.map_values(|dc: DrawCall| dc.entity).contains(x) <==> filter_spec(
                    rows0,
                    Filter::HasKind(ComponentKind::Drawable),
                    x,
                ) by {
                assert(ents.contains(x) == view@.contains(x));
            }
            assert forall|i: int, j: int| 0 <= i < j < calls@.len() implies lex_le(
                rows0,
                Comparator::ByCreationId,
                (#[trigger] calls@[i]).entity,
                (#[trigger] calls@[j]).entity,
            ) by {
                assert(calls@[i].entity == view@[i]);
                assert(calls@[j].entity == view@[j]);
                assert(lex_le(rows0, d.comparator->Some_0, view@[i], view@[j]));
            }
        }
        Ok(calls)
    }

    /// Read access to the component store, for callers between frames.
    pub fn store(&self) -> (r: &ComponentStore)
        ensures
            *r == self.spec_store(),
    {
        &self.store
    }

    /// Read access to the tree, for callers between frames.
    pub fn tree(&self) -> (r: &Tree)
        ensures
            *r == self.spec_tree(),
    {
        &self.tree
    }
}

} // verus!
