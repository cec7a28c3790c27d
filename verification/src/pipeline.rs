//! Filter and sort views for the system pipeline.
//!
//! A descriptor may carry a predicate over an entity's component set and a
//! four-way comparator over entities. Once per frame, the view of such a
//! descriptor is computed: the subset of all entities admitted by the
//! predicate, ordered by the comparator. The predicate's postcondition is
//! that every entity it admits is comparable under the comparator; an
//! `Incomparable` outcome among admitted entities is an internal
//! consistency error, never a silently guessed order.

use vstd::prelude::*;

use crate::store::{row_get, Component, ComponentKind, ComponentStore, Entity};

verus! {

/// Outcome of a comparator: an explicit four-way result.
#[derive(Clone, Copy, PartialEq, Eq, Structural, Debug)]
pub enum Comparison {
    Less,
    Greater,
    Equal,
    Incomparable,
}

/// Predicate over an entity's attached component set.
#[derive(Clone, Copy, PartialEq, Eq, Structural, Debug)]
pub enum Filter {
    /// Admits the entities carrying a component of the given kind.
    HasKind(ComponentKind),
}

/// Partial order over entities.
#[derive(Clone, Copy, PartialEq, Eq, Structural, Debug)]
pub enum Comparator {
    /// Ascending creation-order id; entities without an id are incomparable.
    ByCreationId,
}

/// A comparator returned `Incomparable` for two filter-admitted entities.
#[derive(Clone, Copy, PartialEq, Eq, Structural, Debug)]
pub enum PipelineError {
    OrderingError,
}

pub open spec fn filter_spec(rows: Seq<Seq<Component>>, f: Filter, e: Entity) -> bool {
    match f {
        Filter::HasKind(k) => e < rows.len() && row_get(rows[e as int], k) is Some,
    }
}

/// The creation-order id attached to `e`, if any.
pub open spec fn creation_id_of(rows: Seq<Seq<Component>>, e: Entity) -> Option<u32> {
    if e < rows.len() {
        match row_get(rows[e as int], ComponentKind::Id) {
            Some(Component::Id(id)) => Some(id.0),
            _ => None,
        }
    } else {
        None
    }
}

pub open spec fn compare_spec(rows: Seq<Seq<Component>>, c: Comparator, a: Entity, b: Entity)
    -> Comparison {
    match c {
        Comparator::ByCreationId => match (creation_id_of(rows, a), creation_id_of(rows, b)) {
            (Some(x), Some(y)) => if x < y {
                Comparison::Less
            } else if x > y {
                Comparison::Greater
            } else {
                Comparison::Equal
            },
            _ => Comparison::Incomparable,
        },
    }
}

/// The total order a view is sorted by: the comparator's order, with equal
/// entities kept in ascending entity order (which is registration order,
/// since entity ids grow monotonically) — a stable sort of the ascending
/// scan of all entities.
pub open spec fn lex_le(rows: Seq<Seq<Component>>, c: Comparator, a: Entity, b: Entity) -> bool {
    ||| compare_spec(rows, c, a, b) is Less
    ||| (compare_spec(rows, c, a, b) is Equal && a <= b)
}

/// Incomparability always traces back to one of the two entities being
/// incomparable even with itself.
pub proof fn lemma_incomparable_refl(rows: Seq<Seq<Component>>, c: Comparator, a: Entity, b: Entity)
    ensures
        compare_spec(rows, c, a, b) is Incomparable ==> (compare_spec(rows, c, a, a)
            is Incomparable || compare_spec(rows, c, b, b) is Incomparable),
{
}

/// Entities comparable with themselves are totally ordered by `lex_le`.
pub proof fn lemma_lex_total(rows: Seq<Seq<Component>>, c: Comparator, a: Entity, b: Entity)
    requires
        !(compare_spec(rows, c, a, a) is Incomparable),
        !(compare_spec(rows, c, b, b) is Incomparable),
    ensures
        lex_le(rows, c, a, b) || lex_le(rows, c, b, a),
        lex_le(rows, c, a, b) && lex_le(rows, c, b, a) ==> a == b,
        !(compare_spec(rows, c, a, b) is Incomparable),
{
}

pub proof fn lemma_lex_trans(rows: Seq<Seq<Component>>, c: Comparator, a: Entity, b: Entity, d: Entity)
    requires
        lex_le(rows, c, a, b),
        lex_le(rows, c, b, d),
    ensures
        lex_le(rows, c, a, d),
{
}

proof fn lemma_seq_insert_contains(s: Seq<Entity>, pos: int, x: Entity, y: Entity)
    requires
        0 <= pos <= s.len(),
    ensures
        s.insert(pos, x).contains(y) <==> (s.contains(y) || y == x),
{
    s.insert_ensures(pos, x);
    let grown = s.insert(pos, x);
    if s.contains(y) {
        let i = choose|i: int| 0 <= i < s.len() && s[i] == y;
        if i < pos {
            assert(grown[i] == y);
        } else {
            assert(grown[i + 1] == y);
        }
    }
    if y == x {
        assert(grown[pos] == y);
    }
    if grown.contains(y) {
        let i = choose|i: int| 0 <= i < grown.len() && grown[i] == y;
        if i < pos {
            assert(s[i] == y);
        } else if i > pos {
            assert(s[i - 1] == y);
        }
    }
}

pub fn filter_matches(store: &ComponentStore, f: Filter, e: Entity) -> (b: bool)
    ensures
        b == filter_spec(store@, f, e),
{
    match f {
        Filter::HasKind(k) => store.get(e, k).is_ok(),
    }
}

pub fn compare(store: &ComponentStore, c: Comparator, a: Entity, b: Entity) -> (r: Comparison)
    ensures
        r == compare_spec(store@, c, a, b),
{
    match c {
        Comparator::ByCreationId => {
            let ia = match store.get(a, ComponentKind::Id) {
                Ok(Component::Id(id)) => Some(id.0),
                _ => None,
            };
            let ib = match store.get(b, ComponentKind::Id) {
                Ok(Component::Id(id)) => Some(id.0),
                _ => None,
            };
            match (ia, ib) {
                (Some(x), Some(y)) => if x < y {
                    Comparison::Less
                } else if x > y {
                    Comparison::Greater
                } else {
                    Comparison::Equal
                },
                _ => Comparison::Incomparable,
            }
        },
    }
}

fn lex_le_exec(store: &ComponentStore, c: Comparator, a: Entity, b: Entity) -> (r: bool)
    ensures
        r == lex_le(store@, c, a, b),
{
    match compare(store, c, a, b) {
        Comparison::Less => true,
        Comparison::Equal => a <= b,
        _ => false,
    }
}

/// Computes a descriptor's entity view: exactly the entities admitted by
/// `f`, without duplicates; in ascending entity order when no comparator is
/// supplied, and totally ordered by the comparator (ties in registration
/// order) when one is. Fails with `OrderingError` exactly when two admitted
/// entities — possibly one and the same — are incomparable.
#[verifier::rlimit(50)]
pub fn compute_view(store: &ComponentStore, f: Filter, cmp: Option<Comparator>) -> (r: Result<
    Vec<Entity>,
    PipelineError,
>)
    ensures
        r matches Ok(v) ==> {
            &&& forall|x: Entity| v@.contains(x) <==> filter_spec(store@, f, x)
            &&& v@.no_duplicates()
            &&& cmp is None ==> (forall|i: int, j: int| 0 <= i < j < v@.len() ==> v@[i] < v@[j])
            &&& cmp is Some ==> (forall|i: int, j: int|
                0 <= i < j < v@.len() ==> lex_le(store@, cmp->Some_0, v@[i], v@[j]) && v@[i]
                    != v@[j])
            &&& cmp is Some ==> (forall|a: Entity, b: Entity|
                filter_spec(store@, f, a) && filter_spec(store@, f, b) ==> !(#[trigger]
                compare_spec(store@, cmp->Some_0, a, b) is Incomparable))
        },
        r is Err <==> (cmp is Some && exists|a: Entity, b: Entity|
            filter_spec(store@, f, a) && filter_spec(store@, f, b) && #[trigger] compare_spec(
                store@,
                cmp->Some_0,
                a,
                b,
            ) is Incomparable),
        r is Err ==> r == Err::<Vec<Entity>, PipelineError>(PipelineError::OrderingError),
{
    let n = store.len();
    let mut admitted: Vec<Entity> = Vec::new();
    let mut e: usize = 0;
    while e < n
        invariant
            e <= n,
            n == store@.len(),
            forall|i: int|
                0 <= i < admitted@.len() ==> #[trigger] admitted@[i] < e && filter_spec(
                    store@,
                    f,
                    admitted@[i],
                ),
            forall|x: Entity| x < e && filter_spec(store@, f, x) ==> admitted@.contains(x),
            forall|i: int, j: int| 0 <= i < j < admitted@.len() ==> admitted@[i] < admitted@[j],
        decreases n - e,
    {
        let ghost prev = admitted@;
        if filter_matches(store, f, e) {
            admitted.push(e);
            proof {
                assert forall|x: Entity| x < e + 1 && filter_spec(store@, f, x) implies
                    admitted@.contains(x) by {
                    if x == e {
                        assert(admitted@[admitted@.len() - 1] == x);
                    } else {
                        assert(prev.contains(x));
                        let i = choose|i: int| 0 <= i < prev.len() && prev[i] == x;
                        assert(admitted@[i] == x);
                    }
                }
            }
        }
        e = e + 1;
    }
    proof {
        // An entity admitted by any filter has a row, so it is below `n`.
        assert forall|x: Entity| filter_spec(store@, f, x) implies admitted@.contains(x) by {
            assert(x < n);
        }
    }
    if cmp.is_none() {
        return Ok(admitted);
    }
    let c = cmp.unwrap();
    // Every admitted entity must be comparable; the predicate's
    // postcondition makes anything else an internal consistency error.
    let mut i: usize = 0;
    while i < admitted.len()
        invariant
            i <= admitted@.len(),
            cmp == Some(c),
            forall|p: int|
                0 <= p < i ==> !(compare_spec(store@, c, #[trigger] admitted@[p], admitted@[p])
                    is Incomparable),
            forall|x: Entity| filter_spec(store@, f, x) <==> admitted@.contains(x),
        decreases admitted@.len() - i,
    {
        if matches!(compare(store, c, admitted[i], admitted[i]), Comparison::Incomparable) {
            proof {
                let x = admitted@[i as int];
                assert(admitted@.contains(x));
                assert(filter_spec(store@, f, x));
                assert(cmp->Some_0 == c);
                assert(cmp is Some);
                assert(compare_spec(store@, cmp->Some_0, x, x) is Incomparable);
                assert(exists|a: Entity, b: Entity|
                    filter_spec(store@, f, a) && filter_spec(store@, f, b) && #[trigger]
                    compare_spec(store@, cmp->Some_0, a, b) is Incomparable);
            }
            return Err(PipelineError::OrderingError);
        }
        i = i + 1;
    }
    proof {
        assert forall|a: Entity, b: Entity|
            filter_spec(store@, f, a) && filter_spec(store@, f, b) implies !(#[trigger]
        compare_spec(store@, c, a, b) is Incomparable) by {
            assert(admitted@.contains(a));
            assert(admitted@.contains(b));
            let ia = choose|p: int| 0 <= p < admitted@.len() && admitted@[p] == a;
            let ib = choose|p: int| 0 <= p < admitted@.len() && admitted@[p] == b;
            assert(admitted@[ia] == a);
            assert(admitted@[ib] == b);
            assert(!(compare_spec(store@, c, a, a) is Incomparable));
            assert(!(compare_spec(store@, c, b, b) is Incomparable));
            lemma_incomparable_refl(store@, c, a, b);
        }
    }
    // Insertion sort by the comparator, ties in registration order.
    let mut sorted: Vec<Entity> = Vec::new();
    let mut i: usize = 0;
    while i < admitted.len()
        invariant
            i <= admitted@.len(),
            forall|x: Entity| filter_spec(store@, f, x) <==> admitted@.contains(x),
            forall|p: int|
                0 <= p < admitted@.len() ==> filter_spec(store@, f, #[trigger] admitted@[p]),
            forall|p: int, q: int| 0 <= p < q < admitted@.len() ==> admitted@[p] < admitted@[q],
            forall|x: Entity| sorted@.contains(x) <==> admitted@.take(i as int).contains(x),
            forall|p: int|
                0 <= p < sorted@.len() ==> filter_spec(store@, f, #[trigger] sorted@[p]),
            forall|p: int, q: int|
                #![trigger sorted@[p], sorted@[q]]
                0 <= p < q < sorted@.len() ==> lex_le(store@, c, sorted@[p], sorted@[q])
                    && sorted@[p] != sorted@[q],
            forall|a: Entity, b: Entity|
                filter_spec(store@, f, a) && filter_spec(store@, f, b) ==> !(#[trigger]
                compare_spec(store@, c, a, b) is Incomparable),
        decreases admitted@.len() - i,
    {
        let x = admitted[i];
        let ghost before = sorted@;
        let mut pos: usize = 0;
        while pos < sorted.len() && lex_le_exec(store, c, sorted[pos], x)
            invariant
                pos <= sorted@.len(),
                sorted@ == before,
                forall|p: int| 0 <= p < pos ==> lex_le(store@, c, #[trigger] sorted@[p], x),
            decreases sorted@.len() - pos,
        {
            pos = pos + 1;
        }
        proof {
            // `x` was never seen: the admitted scan is strictly ascending.
            assert(!before.contains(x)) by {
                if before.contains(x) {
                    assert(admitted@.take(i as int).contains(x));
                    let p = choose|p: int|
                        0 <= p < i && #[trigger] admitted@.take(i as int)[p] == x;
                    assert(admitted@[p] == admitted@[i as int]);
                }
            }
            if pos < before.len() {
                assert(filter_spec(store@, f, before[pos as int]));
                assert(filter_spec(store@, f, admitted@[i as int]));
                lemma_lex_total(store@, c, before[pos as int], x);
                assert(lex_le(store@, c, x, before[pos as int]));
            }
            assert forall|p: int| 0 <= p < before.len() implies before[p] != x by {
                if before[p] == x {
                    assert(before.contains(x));
                }
            }
            assert forall|p: int| 0 <= p < pos implies lex_le(store@, c, before[p], x) by {}
        }
        sorted.insert(pos, x);
        proof {
            before.insert_ensures(pos as int, x);
            assert forall|y: Entity| sorted@.contains(y) <==> admitted@.take(
                i as int + 1,
            ).contains(y) by {
                assert(sorted@ == before.insert(pos as int, x));
                lemma_seq_insert_contains(before, pos as int, x, y);
                assert(sorted@.contains(y) <==> (before.contains(y) || y == x));
                assert(before.contains(y) <==> admitted@.take(i as int).contains(y));
                assert(admitted@.take(i as int + 1) =~= admitted@.take(i as int).push(
                    admitted@[i as int],
                ));
                assert(x == admitted@[i as int]);
                if admitted@.take(i as int).contains(y) {
                    let p = choose|p: int|
                        0 <= p < i && #[trigger] admitted@.take(i as int)[p] == y;
                    assert(admitted@.take(i as int + 1)[p] == y);
                }
                if y == x {
                    assert(admitted@.take(i as int + 1)[i as int] == y);
                }
                if admitted@.take(i as int + 1).contains(y) && y != x {
                    let p = choose|p: int|
                        0 <= p < i + 1 && #[trigger] admitted@.take(i as int + 1)[p] == y;
                    assert(p < i);
                    assert(admitted@.take(i as int)[p] == y);
                }
            }
            assert(filter_spec(store@, f, x));
            assert forall|p: int, q: int|
                #![trigger sorted@[p], sorted@[q]]
                0 <= p < q < sorted@.len() implies lex_le(store@, c, sorted@[p], sorted@[q])
                && sorted@[p] != sorted@[q] by {
                let sp = sorted@[p];
                let sq = sorted@[q];
                if p < pos {
                    assert(sp == before[p]);
                } else if p == pos {
                    assert(sp == x);
                } else {
                    assert(sp == before[p - 1]);
                }
                if q < pos {
                    assert(sq == before[q]);
                } else if q == pos {
                    assert(sq == x);
                } else {
                    assert(sq == before[q - 1]);
                }
                if q < pos {
                    assert(lex_le(store@, c, before[p], before[q]) && before[p] != before[q]);
                } else if p < pos && q == pos {
                    assert(lex_le(store@, c, sp, x));
                    assert(before[p] != x);
                } else if p < pos && q > pos {
                    if p < q - 1 {
                        assert(lex_le(store@, c, before[p], before[q - 1]) && before[p]
                            != before[q - 1]);
                    }
                } else if p == pos {
                    assert(q - 1 >= pos);
                    assert(before[q - 1] != x);
                    assert(lex_le(store@, c, x, before[pos as int]));
                    if q - 1 > pos {
                        assert(lex_le(store@, c, before[pos as int], before[q - 1]) && before[pos as int]
                            != before[q - 1]);
                        lemma_lex_trans(store@, c, x, before[pos as int], before[q - 1]);
                    }
                } else {
                    assert(lex_le(store@, c, before[p - 1], before[q - 1]) && before[p - 1]
                        != before[q - 1]);
                }
            }
        }
        i = i + 1;
    }
    proof {
        assert(admitted@.take(admitted@.len() as int) =~= admitted@);
        assert(sorted@.no_duplicates()) by {
            assert forall|p: int, q: int|
                0 <= p < sorted@.len() && 0 <= q < sorted@.len() && p != q implies sorted@[p]
                != sorted@[q] by {
                if p < q {
                } else {
                    assert(lex_le(store@, c, sorted@[q], sorted@[p]) && sorted@[q] != sorted@[p]);
                }
            }
        }
    }
    Ok(sorted)
}

} // verus!
