//! The layout pass: recursive box-constraint size negotiation.
//!
//! Each entity's layout function is invoked with the current constraints,
//! the ordered list of its children and an optional forced size, and answers
//! either with a final size or with a request to resolve one child first.
//! The pass tracks the chain of in-progress entities and fails with
//! `LayoutCycle` instead of recursing unboundedly when a layout function
//! requests an entity that is already being resolved.

use vstd::prelude::*;
use vstd::seq_lib::*;
use vstd::set_lib::*;

use crate::geometry::{BoxConstraints, Rect};
use crate::store::{row_get, Component, ComponentKind, ComponentStore, Entity};
use crate::tree::Tree;

verus! {

/// Which layout function resolves an entity's size. The registry is closed:
/// every strategy is a total function of the constraints, the child list and
/// the optional forced size.
#[derive(Clone, Copy, PartialEq, Eq, Structural, Debug)]
pub enum LayoutStrategy {
    /// Pass-through container: with a forced size (handed back only after
    /// a deferral, so a child exists), place that sole child at the origin
    /// and answer the size; without one, request the first child under the
    /// same constraints, or answer the constraints' minimum size when there
    /// are no children.
    Transparent,
    /// Always answers the given size.
    Fixed(u32, u32),
    /// Requests the named entity under the same constraints, then answers
    /// whatever size that entity resolved to.
    Deferred(Entity),
}

/// Answer of a layout function: a final size, or a deferral that names the
/// child to resolve first and the constraints to resolve it under.
#[derive(Clone, Copy, PartialEq, Eq, Structural, Debug)]
pub enum LayoutResult {
    Size(u32, u32),
    RequestChild(Entity, BoxConstraints),
}

/// One invocation of a layout function. A pure function of the strategy, the
/// constraints, the child list and the optional forced size.
pub open spec fn apply_spec(
    strategy: LayoutStrategy,
    bc: BoxConstraints,
    children: Seq<Entity>,
    forced: Option<(u32, u32)>,
) -> LayoutResult {
    match strategy {
        LayoutStrategy::Transparent => match forced {
            Some(size) => LayoutResult::Size(size.0, size.1),
            None => if children.len() == 0 {
                LayoutResult::Size(bc.min_width, bc.min_height)
            } else {
                LayoutResult::RequestChild(children[0], bc)
            },
        },
        LayoutStrategy::Fixed(w, h) => LayoutResult::Size(w, h),
        LayoutStrategy::Deferred(target) => match forced {
            Some(size) => LayoutResult::Size(size.0, size.1),
            None => LayoutResult::RequestChild(target, bc),
        },
    }
}

/// Once an entity has been handed the answer it deferred on, it decides:
/// no strategy defers twice in one negotiation round.
pub proof fn lemma_apply_forced_is_size(
    strategy: LayoutStrategy,
    bc: BoxConstraints,
    children: Seq<Entity>,
    size: (u32, u32),
)
    ensures
        apply_spec(strategy, bc, children, Some(size)) matches LayoutResult::Size(_, _),
{
}

/// Negotiation failure: either a request chain closed on itself, or a
/// request named an entity that does not exist in the store.
#[derive(Clone, Copy, PartialEq, Eq, Structural, Debug)]
pub enum LayoutError {
    /// A layout function requested an entity that is already being resolved.
    LayoutCycle,
    /// A request named an entity with no row in the store.
    MissingComponent,
}

/// The layout strategy associated with `e`: the one attached as a
/// component, or the transparent default when the widget supplied none.
pub open spec fn strategy_of(rows: Seq<Seq<Component>>, e: Entity) -> LayoutStrategy {
    if e < rows.len() {
        match row_get(rows[e as int], ComponentKind::Layout) {
            Some(Component::Layout(s)) => s,
            _ => LayoutStrategy::Transparent,
        }
    } else {
        LayoutStrategy::Transparent
    }
}

/// The chain of in-progress entities is fit for negotiation over a store of
/// `n` rows: no entity occurs twice, and all are rows of the store.
pub open spec fn chain_ok(n: nat, chain: Seq<Entity>) -> bool {
    &&& chain.no_duplicates()
    &&& forall|i: int| 0 <= i < chain.len() ==> (#[trigger] chain[i] as nat) < n
}

/// A duplicate-free sequence of row indices cannot outgrow the table.
pub proof fn lemma_chain_len_bound(n: nat, chain: Seq<Entity>)
    requires
        chain_ok(n, chain),
    ensures
        chain.len() <= n,
{
    let ints = chain.map_values(|x: Entity| x as int);
    assert forall|i: int, j: int|
        0 <= i < ints.len() && 0 <= j < ints.len() && i != j implies ints[i] != ints[j] by {
        assert(chain[i] != chain[j]);
    }
    ints.unique_seq_to_set();
    assert forall|x: int| ints.to_set().contains(x) implies set_int_range(
        0,
        n as int,
    ).contains(x) by {
        let i = choose|i: int| 0 <= i < ints.len() && ints[i] == x;
        assert((chain[i] as nat) < n);
    }
    lemma_int_range(0, n as int);
    lemma_len_subset(ints.to_set(), set_int_range(0, n as int));
}

/// Extending the chain with a fresh row keeps it fit and strictly below the
/// table size.
pub proof fn lemma_chain_push(n: nat, chain: Seq<Entity>, e: Entity)
    requires
        chain_ok(n, chain),
        !chain.contains(e),
        (e as nat) < n,
    ensures
        chain_ok(n, chain.push(e)),
        chain.push(e).len() <= n,
{
    let grown = chain.push(e);
    assert forall|i: int, j: int|
        0 <= i < grown.len() && 0 <= j < grown.len() && i != j implies grown[i] != grown[j] by {
        if i == grown.len() - 1 {
            assert(grown[j] == chain[j]);
        } else if j == grown.len() - 1 {
            assert(grown[i] == chain[i]);
        }
    }
    lemma_chain_len_bound(n, grown);
}

/// The outcome of resolving `e` under `bc` while the entities in `chain`
/// are already in progress: the negotiated size (or the failure), together
/// with the geometry writes the negotiation performs, as a map from entity
/// to its final rectangle. A requested child is placed at the origin,
/// relative to the entity that deferred to it.
///
/// The decrease of `rows.len() - chain.len()` is the termination argument
/// for the whole pass: every deferral pushes a fresh entity onto the chain,
/// and a chain without duplicates can never outgrow the store.
pub open spec fn resolve_spec(
    rows: Seq<Seq<Component>>,
    t: Tree,
    e: Entity,
    bc: BoxConstraints,
    chain: Seq<Entity>,
) -> (Result<(u32, u32), LayoutError>, Map<Entity, Rect>)
    decreases rows.len() - chain.len(),
    when chain_ok(rows.len() as nat, chain) && e < rows.len()
{
    if chain.contains(e) {
        (Err(LayoutError::LayoutCycle), Map::empty())
    } else {
        let strategy = strategy_of(rows, e);
        let kids = t.spec_children(e);
        match apply_spec(strategy, bc, kids, None) {
            LayoutResult::Size(w, h) => (
                Ok((w, h)),
                Map::empty().insert(e, Rect { x: 0, y: 0, width: w, height: h }),
            ),
            LayoutResult::RequestChild(c, cbc) => {
                if c >= rows.len() {
                    (Err(LayoutError::MissingComponent), Map::empty())
                } else {
                    proof {
                        lemma_chain_push(rows.len() as nat, chain, e);
                    }
                    let sub = resolve_spec(rows, t, c, cbc, chain.push(e));
                    match sub.0 {
                        Err(err) => (Err(err), sub.1),
                        Ok(cs) => match apply_spec(strategy, bc, kids, Some(cs)) {
                            LayoutResult::Size(w, h) => (
                                Ok((w, h)),
                                sub.1.insert(e, Rect { x: 0, y: 0, width: w, height: h }),
                            ),
                            // Unreachable: a forced size always decides.
                            LayoutResult::RequestChild(_, _) => (
                                Err(LayoutError::LayoutCycle),
                                sub.1,
                            ),
                        },
                    }
                }
            },
        }
    }
}

fn chain_holds(chain: &Vec<Entity>, e: Entity) -> (b: bool)
    ensures
        b == chain@.contains(e),
{
    let mut i: usize = 0;
    while i < chain.len()
        invariant
            i <= chain@.len(),
            forall|j: int| 0 <= j < i ==> chain@[j] != e,
        decreases chain@.len() - i,
    {
        if chain[i] == e {
            return true;
        }
        i = i + 1;
    }
    false
}

/// Resolves `e` under `bc`, recording every negotiated rectangle in `out`
/// (indexed by entity). `chain` is the set of entities whose negotiations
/// are in progress; it is restored before returning.
pub fn resolve(
    store: &ComponentStore,
    t: &Tree,
    e: Entity,
    bc: &BoxConstraints,
    chain: &mut Vec<Entity>,
    out: &mut Vec<Option<Rect>>,
) -> (r: Result<(u32, u32), LayoutError>)
    requires
        e < store@.len(),
        chain_ok(store@.len() as nat, old(chain)@),
        old(out)@.len() == store@.len(),
    ensures
        final(chain)@ == old(chain)@,
        final(out)@.len() == old(out)@.len(),
        ({
            let (outcome, writes) = resolve_spec(store@, *t, e, *bc, old(chain)@);
            &&& r == outcome
            &&& forall|j: Entity|
                j < old(out)@.len() ==> final(out)@[j as int] == if writes.contains_key(j) {
                    Some(writes[j])
                } else {
                    old(out)@[j as int]
                }
        }),
    decreases store@.len() - old(chain)@.len(),
{
    let ghost entry_chain = chain@;
    if chain_holds(chain, e) {
        return Err(LayoutError::LayoutCycle);
    }
    chain.push(e);
    let kids = t.children(e);
    let strategy = match store.get(e, ComponentKind::Layout) {
        Ok(Component::Layout(s)) => s,
        _ => LayoutStrategy::Transparent,
    };
    proof {
        assert(strategy == strategy_of(store@, e));
    }
    let first = apply(strategy, bc, &kids, None);
    match first {
        LayoutResult::Size(w, h) => {
            let slot = &mut out[e];
            *slot = Some(Rect { x: 0, y: 0, width: w, height: h });
            chain.pop();
            proof {
                assert(chain@ =~= entry_chain);
            }
            Ok((w, h))
        },
        LayoutResult::RequestChild(c, cbc) => {
            if c >= store.len() {
                chain.pop();
                proof {
                    assert(chain@ =~= entry_chain);
                }
                return Err(LayoutError::MissingComponent);
            }
            proof {
                lemma_chain_push(store@.len() as nat, entry_chain, e);
            }
            let sub = resolve(store, t, c, &cbc, chain, out);
            match sub {
                Err(err) => {
                    chain.pop();
                    proof {
                        assert(chain@ =~= entry_chain);
                    }
                    Err(err)
                },
                Ok(cs) => {
                    proof {
                        // A transparent strategy only defers when it has a
                        // child to defer to.
                        if strategy is Transparent && kids@.len() == 0 {
                            assert(apply_spec(strategy, *bc, kids@, None) is Size);
                        }
                    }
                    let second = apply(strategy, bc, &kids, Some(cs));
                    match second {
                        LayoutResult::Size(w, h) => {
                            let slot = &mut out[e];
                            *slot = Some(Rect { x: 0, y: 0, width: w, height: h });
                            chain.pop();
                            proof {
                                assert(chain@ =~= entry_chain);
                            }
                            Ok((w, h))
                        },
                        LayoutResult::RequestChild(_, _) => {
                            proof {
                                lemma_apply_forced_is_size(strategy, *bc, kids@, cs);
                                assert(false);
                            }
                            Err(LayoutError::LayoutCycle)
                        },
                    }
                },
            }
        },
    }
}

/// The layout pass over a whole frame: resolve the root under `bc`; the
/// second element is the map of geometry writes the pass commits.
pub open spec fn layout_pass_spec(rows: Seq<Seq<Component>>, t: Tree, bc: BoxConstraints) -> (
    Result<(), LayoutError>,
    Map<Entity, Rect>,
) {
    match t.spec_root() {
        None => (Ok(()), Map::empty()),
        Some(root) => if root < rows.len() {
            let sub = resolve_spec(rows, t, root, bc, Seq::empty());
            match sub.0 {
                Ok(_) => (Ok(()), sub.1),
                Err(err) => (Err(err), sub.1),
            }
        } else {
            (Err(LayoutError::MissingComponent), Map::empty())
        },
    }
}

/// Runs the layout pass: negotiates a size for the root of `t` under `bc`
/// and commits every negotiated rectangle to the entities' geometry
/// components. A failed pass leaves the store untouched; a successful one
/// changes geometry components exactly as negotiated, and nothing else.
pub fn run_layout(store: &mut ComponentStore, t: &Tree, bc: &BoxConstraints) -> (r: Result<
    (),
    LayoutError,
>)
    ensures
        final(store)@.len() == old(store)@.len(),
        r == layout_pass_spec(old(store)@, *t, *bc).0,
        r is Err ==> final(store)@ == old(store)@,
        r is Ok ==> ({
            let writes = layout_pass_spec(old(store)@, *t, *bc).1;
            forall|x: Entity, k: ComponentKind|
                x < old(store)@.len() ==> #[trigger] final(store).get_spec(x, k) == (if k
                    == ComponentKind::Bounds && writes.contains_key(x) {
                    Some(Component::Bounds(writes[x]))
                } else {
                    old(store).get_spec(x, k)
                })
        }),
{
    let root = match t.root() {
        Some(r0) => r0,
        None => {
            return Ok(());
        },
    };
    let n = store.len();
    if root >= n {
        return Err(LayoutError::MissingComponent);
    }
    let mut chain: Vec<Entity> = Vec::new();
    let mut out: Vec<Option<Rect>> = Vec::new();
    while out.len() < n
        invariant
            out@.len() <= n,
            forall|j: int| 0 <= j < out@.len() ==> out@[j] is None,
        decreases n - out.len(),
    {
        out.push(None);
    }
    let res = resolve(store, t, root, bc, &mut chain, &mut out);
    let ghost writes = resolve_spec(store@, *t, root, *bc, Seq::empty()).1;
    match res {
        Err(err) => Err(err),
        Ok(_) => {
            let mut i: usize = 0;
            while i < n
                invariant
                    i <= n,
                    n == old(store)@.len(),
                    store@.len() == n,
                    out@.len() == n,
                    forall|j: Entity|
                        j < n ==> out@[j as int] == if writes.contains_key(j) {
                            Some(writes[j])
                        } else {
                            None::<Rect>
                        },
                    forall|j: int|
                        0 <= j < n ==> store@[j] == if j < i && out@[j] is Some {
                            old(store)@[j].push(Component::Bounds(out@[j]->Some_0))
                        } else {
                            old(store)@[j]
                        },
                decreases n - i,
            {
                match out[i] {
                    Some(rect) => {
                        store.attach(i, Component::Bounds(rect));
                    },
                    None => {},
                }
                i = i + 1;
            }
            proof {
                assert forall|x: Entity, k: ComponentKind| x < old(store)@.len() implies
                    #[trigger] store.get_spec(x, k) == (if k == ComponentKind::Bounds
                    && writes.contains_key(x) {
                    Some(Component::Bounds(writes[x]))
                } else {
                    old(store).get_spec(x, k)
                }) by {
                    if writes.contains_key(x) {
                        crate::store::lemma_row_get_push(
                            old(store)@[x as int],
                            Component::Bounds(writes[x]),
                            k,
                        );
                    }
                }
            }
            Ok(())
        },
    }
}

/// Law: a successful negotiation assigns the resolved entity exactly one
/// final rectangle, carrying exactly the negotiated size. That every
/// negotiation terminates, whatever the constraints and the attached
/// components, is the `decreases` measure of `resolve_spec` itself.
pub proof fn lemma_resolution_assigns_size(
    rows: Seq<Seq<Component>>,
    t: Tree,
    e: Entity,
    bc: BoxConstraints,
    chain: Seq<Entity>,
)
    requires
        chain_ok(rows.len() as nat, chain),
        e < rows.len(),
        resolve_spec(rows, t, e, bc, chain).0 is Ok,
    ensures
        ({
            let (outcome, writes) = resolve_spec(rows, t, e, bc, chain);
            &&& writes.contains_key(e)
            &&& writes[e].width == outcome->Ok_0.0
            &&& writes[e].height == outcome->Ok_0.1
            &&& writes[e].x == 0 && writes[e].y == 0
        }),
{
}

/// Law: a transparent container with exactly one child and no forced size
/// resolves to exactly the child's resolved size, and the child is placed
/// at the origin, relative to the container.
pub proof fn lemma_transparent_passthrough(
    rows: Seq<Seq<Component>>,
    t: Tree,
    e: Entity,
    bc: BoxConstraints,
    chain: Seq<Entity>,
)
    requires
        chain_ok(rows.len() as nat, chain),
        e < rows.len(),
        !chain.contains(e),
        strategy_of(rows, e) == LayoutStrategy::Transparent,
        t.spec_children(e).len() == 1,
        t.spec_children(e)[0] < rows.len(),
        resolve_spec(rows, t, t.spec_children(e)[0], bc, chain.push(e)).0 is Ok,
    ensures
        ({
            let c = t.spec_children(e)[0];
            let sub = resolve_spec(rows, t, c, bc, chain.push(e));
            let top = resolve_spec(rows, t, e, bc, chain);
            &&& top.0 == sub.0
            &&& top.1.contains_key(c)
            &&& top.1[c].x == 0 && top.1[c].y == 0
        }),
{
    let c = t.spec_children(e)[0];
    lemma_chain_push(rows.len() as nat, chain, e);
    let sub = resolve_spec(rows, t, c, bc, chain.push(e));
    if c == e {
        assert(chain.push(e)[chain.len() as int] == e);
        assert(false);
    }
    lemma_resolution_assigns_size(rows, t, c, bc, chain.push(e));
    let cs = sub.0->Ok_0;
    assert(cs == (cs.0, cs.1));
}

/// Law: a layout function that requests its own entity directly makes the
/// pass fail with `LayoutCycle` instead of recursing unboundedly.
pub proof fn lemma_self_request_cycle(
    rows: Seq<Seq<Component>>,
    t: Tree,
    e: Entity,
    bc: BoxConstraints,
    chain: Seq<Entity>,
)
    requires
        chain_ok(rows.len() as nat, chain),
        e < rows.len(),
        !chain.contains(e),
        strategy_of(rows, e) == LayoutStrategy::Deferred(e),
    ensures
        resolve_spec(rows, t, e, bc, chain).0 == Err::<(u32, u32), LayoutError>(
            LayoutError::LayoutCycle,
        ),
{
    lemma_chain_push(rows.len() as nat, chain, e);
    assert(chain.push(e)[chain.len() as int] == e);
    assert(chain.push(e).contains(e));
    assert(resolve_spec(rows, t, e, bc, chain.push(e)).0 == Err::<(u32, u32), LayoutError>(
        LayoutError::LayoutCycle,
    ));
    assert(apply_spec(strategy_of(rows, e), bc, t.spec_children(e), None)
        == LayoutResult::RequestChild(e, bc));
}

pub fn apply(
    strategy: LayoutStrategy,
    bc: &BoxConstraints,
    children: &Vec<Entity>,
    forced: Option<(u32, u32)>,
) -> (r: LayoutResult)
    requires
        strategy is Transparent && forced is Some ==> children@.len() >= 1,
    ensures
        r == apply_spec(strategy, *bc, children@, forced),
{
    match strategy {
        LayoutStrategy::Transparent => match forced {
            Some(size) => LayoutResult::Size(size.0, size.1),
            None => if children.len() == 0 {
                LayoutResult::Size(bc.min_width, bc.min_height)
            } else {
                LayoutResult::RequestChild(children[0], *bc)
            },
        },
        LayoutStrategy::Fixed(w, h) => LayoutResult::Size(w, h),
        LayoutStrategy::Deferred(target) => match forced {
            Some(size) => LayoutResult::Size(size.0, size.1),
            None => LayoutResult::RequestChild(target, *bc),
        },
    }
}

} // verus!
