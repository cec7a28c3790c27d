//! Per-entity, per-kind component storage with typed accessors.
//!
//! An entity is an index into a flat table of rows; ids grow monotonically
//! and are never reused. Each row holds the components attached to one
//! entity; at most one component of each kind is visible (a later `attach`
//! of the same kind shadows the earlier one).

use vstd::prelude::*;

use crate::geometry::Rect;
use crate::layout::LayoutStrategy;

verus! {

/// Opaque handle identifying one row across all component stores.
pub type Entity = usize;

/// Creation-order id assigned at tree-build time; determines paint order.
#[derive(Clone, Copy, PartialEq, Eq, Structural, Debug)]
pub struct EntityId(pub u32);

/// A typed value attached to an entity. The component kinds form a closed
/// registry: geometry, creation-order id, drawable marker, layout strategy,
/// and opaque keyed properties.
#[derive(Clone, Copy, PartialEq, Eq, Structural, Debug)]
pub enum Component {
    /// Final geometry, written by the layout pass and read by the render pass.
    Bounds(Rect),
    /// Creation-order id.
    Id(EntityId),
    /// Marker: the entity participates in the render pass.
    Drawable,
    /// Which layout function resolves this entity's size.
    Layout(LayoutStrategy),
    /// An opaque widget-declared property: a key and a plain value.
    Property(u32, i64),
}

/// The kind of a component; at most one component of each kind is visible
/// on an entity. Each property key is a kind of its own.
#[derive(Clone, Copy, PartialEq, Eq, Structural, Debug)]
pub enum ComponentKind {
    Bounds,
    Id,
    Drawable,
    Layout,
    Property(u32),
}

impl Component {
    pub open spec fn spec_kind(self) -> ComponentKind {
        match self {
            Component::Bounds(_) => ComponentKind::Bounds,
            Component::Id(_) => ComponentKind::Id,
            Component::Drawable => ComponentKind::Drawable,
            Component::Layout(_) => ComponentKind::Layout,
            Component::Property(key, _) => ComponentKind::Property(key),
        }
    }

    pub fn kind(&self) -> (k: ComponentKind)
        ensures
            k == self.spec_kind(),
    {
        match self {
            Component::Bounds(_) => ComponentKind::Bounds,
            Component::Id(_) => ComponentKind::Id,
            Component::Drawable => ComponentKind::Drawable,
            Component::Layout(_) => ComponentKind::Layout,
            Component::Property(key, _) => ComponentKind::Property(*key),
        }
    }
}

/// Requested component kind absent on that entity. Recoverable at the call
/// site: a normal per-frame query outcome, not an abort.
#[derive(Clone, Copy, PartialEq, Eq, Structural, Debug)]
pub enum StoreError {
    MissingComponent,
}

/// The component of kind `k` visible on a row: the last one attached with
/// that kind, if any.
pub open spec fn row_get(row: Seq<Component>, k: ComponentKind) -> Option<Component>
    decreases row.len(),
{
    if row.len() == 0 {
        None
    } else if row.last().spec_kind() == k {
        Some(row.last())
    } else {
        row_get(row.drop_last(), k)
    }
}

/// Attaching a component shadows exactly the component of its own kind.
pub proof fn lemma_row_get_push(row: Seq<Component>, c: Component, k: ComponentKind)
    ensures
        row_get(row.push(c), k) == if c.spec_kind() == k {
            Some(c)
        } else {
            row_get(row, k)
        },
{
    assert(row.push(c).drop_last() =~= row);
}

/// A lookup only ever answers with a component of the requested kind.
pub proof fn lemma_row_get_kind(row: Seq<Component>, k: ComponentKind)
    ensures
        row_get(row, k) matches Some(c) ==> c.spec_kind() == k,
    decreases row.len(),
{
    if row.len() > 0 {
        lemma_row_get_kind(row.drop_last(), k);
    }
}

/// Per-entity, per-kind value storage. Entities are indices into `rows`;
/// `create` hands ids out in increasing order and no id is ever reused.
pub struct ComponentStore {
    rows: Vec<Vec<Component>>,
}

impl View for ComponentStore {
    type V = Seq<Seq<Component>>;

    closed spec fn view(&self) -> Seq<Seq<Component>> {
        self.rows@.map_values(|r: Vec<Component>| r@)
    }
}

impl ComponentStore {
    /// The component of kind `k` on entity `e`, if the entity exists and
    /// carries one.
    pub open spec fn get_spec(self, e: Entity, k: ComponentKind) -> Option<Component> {
        if e < self@.len() {
            row_get(self@[e as int], k)
        } else {
            None
        }
    }

    pub fn new() -> (s: ComponentStore)
        ensures
            s@ == Seq::<Seq<Component>>::empty(),
    {
        let s = ComponentStore { rows: Vec::new() };
        proof {
            assert(s@ =~= Seq::<Seq<Component>>::empty());
        }
        s
    }

    /// Number of entities created so far.
    pub fn len(&self) -> (n: usize)
        ensures
            n == self@.len(),
    {
        self.rows.len()
    }

    /// Creates a fresh entity with no components. The returned handle is the
    /// count of entities created before it, so ids increase monotonically
    /// and are never reused within a run.
    pub fn create(&mut self) -> (e: Entity)
        ensures
            e == old(self)@.len(),
            final(self)@ == old(self)@.push(Seq::<Component>::empty()),
    {
        let e = self.rows.len();
        self.rows.push(Vec::new());
        proof {
            assert(self@ =~= old(self)@.push(Seq::<Component>::empty()));
        }
        e
    }

    /// Attaches `c` to entity `e`; a component of the same kind attached
    /// earlier is shadowed.
    pub fn attach(&mut self, e: Entity, c: Component)
        requires
            e < old(self)@.len(),
        ensures
            final(self)@ == old(self)@.update(e as int, old(self)@[e as int].push(c)),
    {
        let row = &mut self.rows[e];
        row.push(c);
        proof {
            assert(self@ =~= old(self)@.update(e as int, old(self)@[e as int].push(c)));
        }
    }

    /// The component of kind `k` on entity `e`, or `MissingComponent` when
    /// that kind is absent there (or the entity does not exist).
    pub fn get(&self, e: Entity, k: ComponentKind) -> (r: Result<Component, StoreError>)
        ensures
            r == match self.get_spec(e, k) {
                Some(c) => Ok::<Component, StoreError>(c),
                None => Err::<Component, StoreError>(StoreError::MissingComponent),
            },
    {
        if e >= self.rows.len() {
            return Err(StoreError::MissingComponent);
        }
        let row = &self.rows[e];
        let ghost rs = row@;
        proof {
            assert(self@[e as int] == rs);
            assert(rs.take(rs.len() as int) =~= rs);
        }
        let mut i: usize = row.len();
        while i > 0
            invariant
                i <= rs.len(),
                row@ == rs,
                e < self@.len(),
                self@[e as int] == rs,
                row_get(rs, k) == row_get(rs.take(i as int), k),
            decreases i,
        {
            i = i - 1;
            proof {
                assert(rs.take(i as int + 1).last() == rs[i as int]);
                assert(rs.take(i as int + 1).drop_last() =~= rs.take(i as int));
            }
            if row[i].kind() == k {
                proof {
                    assert(row_get(rs.take(i as int + 1), k) == Some(rs[i as int]));
                    assert(row_get(rs, k) == Some(rs[i as int]));
                    assert(self@.len() == self.rows@.len());
                    assert(self@[e as int] == rs);
                    assert(self.get_spec(e, k) == Some(rs[i as int]));
                }
                return Ok(row[i]);
            }
        }
        proof {
            assert(rs.take(0).len() == 0);
        }
        Err(StoreError::MissingComponent)
    }
}

} // verus!
