//! Sparse predicate evaluation.
//!
//! For two geometry collections `x` (reference) and `y` (query) and a
//! predicate selector, the evaluator builds a spatial index over `x`, asks
//! it for broad-phase candidates per query geometry, confirms each
//! candidate with the exact predicate, and returns, per reference
//! geometry, the ascending list of 1-based query positions that satisfy
//! the predicate.  Absent geometries and geometries without a usable
//! envelope contribute nothing.

use vstd::prelude::*;
use crate::envelope::{
    Envelope, env_wf, env_ordered, envs_intersect, env_of_coords, coords_of, env_wf_check,
    env_ordered_check,
};
use crate::geom::{Geom, ShapeView, intersects_of, contains_of, within_of, valid_of,
    geom_intersects, geom_contains, geom_within, geom_is_valid};
use crate::spatial_index::{GeomIndex, geom_index_entries, geom_index_build, geom_index_query};

verus! {

/// The predicate a sparse evaluation applies, in the
/// reference-to-query direction.
#[derive(Clone, Copy, Debug, PartialEq, Eq, Structural)]
pub enum SparsePredicate {
    Intersects,
    Contains,
    Within,
}

/// The selected predicate on two geometry models: reference first, query
/// second.  The contains and within tests go through the geometry
/// library's relate machinery, which is safe on valid geometries only, so
/// for them an invalid operand matches nothing (a locally recovered
/// condition, as the error policy treats degenerate elements); the
/// intersects test is total and needs no such guard.
pub open spec fn pred_holds(p: SparsePredicate, a: ShapeView, b: ShapeView) -> bool {
    match p {
        SparsePredicate::Intersects => intersects_of(a, b),
        SparsePredicate::Contains => valid_of(a) && valid_of(b) && contains_of(a, b),
        SparsePredicate::Within => valid_of(a) && valid_of(b) && within_of(a, b),
    }
}

/// The geometry has at least one coordinate, so an envelope exists.
pub open spec fn has_env(v: ShapeView) -> bool {
    coords_of(v).len() > 0
}

/// The envelope of a geometry model.
pub open spec fn env_of_view(v: ShapeView) -> Envelope {
    env_of_coords(coords_of(v))
}

/// The model of a present geometry slot.
pub open spec fn geom_view(o: Option<Geom>) -> ShapeView
    recommends
        o is Some,
{
    o->0@
}

/// The slot enters the spatial index: it is present, has an envelope, and
/// that envelope is well formed.
pub open spec fn indexed(x: Seq<Option<Geom>>, i: int) -> bool {
    &&& x[i] is Some
    &&& has_env(geom_view(x[i]))
    &&& env_wf(env_of_view(geom_view(x[i])))
}

/// The cached index entries of a collection, in position order: one
/// `(envelope, position)` pair per indexed slot.
pub open spec fn entry_seq(x: Seq<Option<Geom>>) -> Seq<(Envelope, usize)>
    decreases x.len(),
{
    if x.len() == 0 {
        Seq::empty()
    } else {
        let rest = entry_seq(x.drop_last());
        if indexed(x, x.len() - 1) {
            rest.push((env_of_view(geom_view(x[x.len() - 1])), (x.len() - 1) as usize))
        } else {
            rest
        }
    }
}

/// What the entry list of a collection holds: exactly one pair per
/// indexed slot, carrying that slot's envelope, with positions strictly
/// ascending.
pub proof fn lemma_entry_seq(x: Seq<Option<Geom>>)
    requires
        x.len() <= usize::MAX,
    ensures
        forall|k: int|
            0 <= k < entry_seq(x).len() ==> {
                let p = #[trigger] entry_seq(x)[k];
                &&& 0 <= p.1 < x.len()
                &&& indexed(x, p.1 as int)
                &&& p.0 == env_of_view(geom_view(x[p.1 as int]))
            },
        forall|k1: int, k2: int|
            0 <= k1 < k2 < entry_seq(x).len() ==> (#[trigger] entry_seq(x)[k1]).1 < (
            #[trigger] entry_seq(x)[k2]).1,
        forall|i: int|
            0 <= i < x.len() && #[trigger] indexed(x, i) ==> entry_seq(x).contains(
                (env_of_view(geom_view(x[i])), i as usize),
            ),
    decreases x.len(),
{
    if x.len() > 0 {
        let prev = x.drop_last();
        lemma_entry_seq(prev);
        assert(forall|i: int| 0 <= i < prev.len() ==> prev[i] == x[i]);
        assert(forall|i: int|
            0 <= i < prev.len() ==> #[trigger] indexed(prev, i) == indexed(x, i));
        let n = x.len() - 1;
        let s = entry_seq(x);
        let rest = entry_seq(prev);
        if indexed(x, n) {
            assert(s == rest.push((env_of_view(geom_view(x[n])), n as usize)));
        } else {
            assert(s == rest);
        }
        assert forall|k: int|
            0 <= k < s.len() implies {
            let p = #[trigger] s[k];
            &&& 0 <= p.1 < x.len()
            &&& indexed(x, p.1 as int)
            &&& p.0 == env_of_view(geom_view(x[p.1 as int]))
        } by {
            if k < rest.len() {
                assert(s[k] == rest[k]);
                let p = rest[k];
                assert(indexed(prev, p.1 as int));
                assert(prev[p.1 as int] == x[p.1 as int]);
            } else {
                assert(indexed(x, n));
                assert(s[k] == (env_of_view(geom_view(x[n])), n as usize));
            }
        }
        assert forall|k1: int, k2: int|
            0 <= k1 < k2 < s.len() implies (#[trigger] s[k1]).1 < (#[trigger] s[k2]).1 by {
            if k2 < rest.len() {
                assert(s[k1] == rest[k1] && s[k2] == rest[k2]);
            } else {
                assert(indexed(x, n));
                assert(s[k1] == rest[k1]);
                assert(rest[k1].1 < prev.len());
                assert(s[k2].1 == n as usize);
            }
        }
        assert forall|i: int|
            0 <= i < x.len() && #[trigger] indexed(x, i) implies s.contains(
            (env_of_view(geom_view(x[i])), i as usize),
        ) by {
            let q = (env_of_view(geom_view(x[i])), i as usize);
            if i < n {
                assert(indexed(prev, i));
                assert(rest.contains(q));
                let k = choose|k: int| 0 <= k < rest.len() && rest[k] == q;
                assert(s[k] == q);
            } else {
                assert(s[s.len() - 1] == q);
            }
        }
    }
}

/// The entry list has no repeated pairs.
pub proof fn lemma_entry_seq_no_dup(x: Seq<Option<Geom>>)
    requires
        x.len() <= usize::MAX,
    ensures
        entry_seq(x).no_duplicates(),
        forall|p: (Envelope, usize)|
            entry_seq(x).to_multiset().contains(p) ==> #[trigger] entry_seq(
                x,
            ).to_multiset().count(p) == 1,
{
    lemma_entry_seq(x);
    let s = entry_seq(x);
    assert forall|k1: int, k2: int|
        0 <= k1 < s.len() && 0 <= k2 < s.len() && k1 != k2 implies s[k1] != s[k2] by {
        if k1 < k2 {
            assert(s[k1].1 < s[k2].1);
        } else {
            assert(s[k2].1 < s[k1].1);
        }
    }
    s.lemma_multiset_has_no_duplicates();
}

/// Builds the spatial index over a geometry collection: each present
/// geometry with a well-formed envelope is entered under its position,
/// with its envelope computed once and cached in the index.
pub fn create_cached_rtree(x: &Vec<Option<Geom>>) -> (t: GeomIndex)
    ensures
        geom_index_entries(t) == entry_seq(x@).to_multiset(),
{
    let mut entries: Vec<(Envelope, usize)> = Vec::new();
    let mut i: usize = 0;
    while i < x.len()
        invariant
            i <= x@.len(),
            entries@ == entry_seq(x@.take(i as int)),
        decreases x@.len() - i,
    {
        let ghost prefix = x@.take(i as int);
        let ghost next_prefix = x@.take(i as int + 1);
        proof {
            assert(next_prefix.drop_last() =~= prefix);
            assert(next_prefix[i as int] == x@[i as int]);
        }
        match &x[i] {
            Some(g) => {
                match g.envelope() {
                    Some(e) => {
                        if env_wf_check(&e) {
                            entries.push((e, i));
                            proof {
                                assert(indexed(next_prefix, i as int));
                                assert(entries@ =~= entry_seq(next_prefix));
                            }
                        } else {
                            proof {
                                assert(!indexed(next_prefix, i as int));
                            }
                        }
                    },
                    None => {
                        proof {
                            assert(!indexed(next_prefix, i as int));
                        }
                    },
                }
            },
            None => {
                proof {
                    assert(!indexed(next_prefix, i as int));
                }
            },
        }
        i += 1;
    }
    proof {
        assert(x@.take(x@.len() as int) =~= x@);
        lemma_entry_seq(x@);
        assert forall|k: int| 0 <= k < entries@.len() implies env_wf(#[trigger] entries@[k].0) by {
            assert(entries@[k] == entry_seq(x@)[k]);
        }
    }
    geom_index_build(entries)
}

/// Reference position `i` and query position `j` match: the reference
/// geometry is indexed, the query geometry is present with an ordered
/// envelope, the two envelopes intersect (broad phase), and the exact
/// predicate holds (narrow phase).
pub open spec fn match_cond(
    x: Seq<Option<Geom>>,
    y: Seq<Option<Geom>>,
    p: SparsePredicate,
    i: int,
    j: int,
) -> bool {
    &&& 0 <= i < x.len()
    &&& 0 <= j < y.len()
    &&& indexed(x, i)
    &&& y[j] is Some
    &&& has_env(geom_view(y[j]))
    &&& env_ordered(env_of_view(geom_view(y[j])))
    &&& envs_intersect(env_of_view(geom_view(x[i])), env_of_view(geom_view(y[j])))
    &&& pred_holds(p, geom_view(x[i]), geom_view(y[j]))
}

/// The result row of reference position `i` after the first `jn` query
/// geometries have been scanned: the 1-based positions of the matching
/// ones, in ascending order.
pub open spec fn row_upto(
    x: Seq<Option<Geom>>,
    y: Seq<Option<Geom>>,
    p: SparsePredicate,
    i: int,
    jn: int,
) -> Seq<usize>
    decreases jn,
{
    if jn <= 0 {
        Seq::empty()
    } else {
        let rest = row_upto(x, y, p, i, jn - 1);
        if match_cond(x, y, p, i, jn - 1) {
            rest.push(jn as usize)
        } else {
            rest
        }
    }
}

/// The model of a held sparse result.
pub open spec fn sparse_views(r: Seq<Vec<usize>>) -> Seq<Seq<usize>> {
    r.map_values(|v: Vec<usize>| v@)
}

/// The whole sparse result: one row per reference position.
pub open spec fn sparse_spec(
    x: Seq<Option<Geom>>,
    y: Seq<Option<Geom>>,
    p: SparsePredicate,
) -> Seq<Seq<usize>> {
    Seq::new(x.len(), |i: int| row_upto(x, y, p, i, y.len() as int))
}

/// What a result row holds: exactly the 1-based positions of the matching
/// query geometries, strictly ascending.
pub proof fn lemma_row_upto(
    x: Seq<Option<Geom>>,
    y: Seq<Option<Geom>>,
    p: SparsePredicate,
    i: int,
    jn: int,
)
    requires
        0 <= jn <= y.len(),
        y.len() <= usize::MAX,
    ensures
        forall|k: int|
            0 <= k < row_upto(x, y, p, i, jn).len() ==> {
                let v = #[trigger] row_upto(x, y, p, i, jn)[k];
                &&& 1 <= v <= jn
                &&& match_cond(x, y, p, i, v - 1)
            },
        forall|k1: int, k2: int|
            0 <= k1 < k2 < row_upto(x, y, p, i, jn).len() ==> #[trigger] row_upto(
                x,
                y,
                p,
                i,
                jn,
            )[k1] < #[trigger] row_upto(x, y, p, i, jn)[k2],
        forall|j: int|
            0 <= j < jn && #[trigger] match_cond(x, y, p, i, j) ==> row_upto(
                x,
                y,
                p,
                i,
                jn,
            ).contains((j + 1) as usize),
    decreases jn,
{
    if jn > 0 {
        lemma_row_upto(x, y, p, i, jn - 1);
        let s = row_upto(x, y, p, i, jn);
        let rest = row_upto(x, y, p, i, jn - 1);
        if match_cond(x, y, p, i, jn - 1) {
            assert(s == rest.push(jn as usize));
        } else {
            assert(s == rest);
        }
        assert forall|j: int|
            0 <= j < jn && #[trigger] match_cond(x, y, p, i, j) implies s.contains(
            (j + 1) as usize,
        ) by {
            if j < jn - 1 {
                assert(rest.contains((j + 1) as usize));
                let k = choose|k: int| 0 <= k < rest.len() && rest[k] == (j + 1) as usize;
                assert(s[k] == (j + 1) as usize);
            } else {
                assert(s[s.len() - 1] == (jn as usize));
            }
        }
    }
}

/// Broad-phase/narrow-phase soundness: a confirmed match always lies in
/// the broad-phase candidate set, that is, its reference geometry is
/// indexed and the two envelopes intersect.
pub proof fn lemma_match_is_candidate(
    x: Seq<Option<Geom>>,
    y: Seq<Option<Geom>>,
    p: SparsePredicate,
    i: int,
    j: int,
)
    requires
        match_cond(x, y, p, i, j),
    ensures
        indexed(x, i),
        envs_intersect(env_of_view(geom_view(x[i])), env_of_view(geom_view(y[j]))),
{
}

/// Determinism: any two results that satisfy the evaluator's contract on
/// the same inputs are identical.
pub proof fn lemma_sparse_deterministic(
    x: Seq<Option<Geom>>,
    y: Seq<Option<Geom>>,
    p: SparsePredicate,
    r1: Seq<Seq<usize>>,
    r2: Seq<Seq<usize>>,
)
    requires
        r1 == sparse_spec(x, y, p),
        r2 == sparse_spec(x, y, p),
    ensures
        r1 == r2,
{
}

/// There is a candidate with reference position `i` among the first `k`.
pub open spec fn touched(cands: Seq<(Envelope, usize)>, k: int, i: int) -> bool {
    exists|kk: int| 0 <= kk < k && (#[trigger] cands[kk]).1 == i
}

/// What a query's candidate list holds: entries of indexed slots whose
/// envelope intersects the query envelope, each slot at most once, and
/// every such slot present.
proof fn lemma_cand_list(x: Seq<Option<Geom>>, cands: Seq<(Envelope, usize)>, qe: Envelope)
    requires
        x.len() <= usize::MAX,
        (cands.to_multiset() == entry_seq(x).to_multiset().filter(
            |p: (Envelope, usize)| envs_intersect(p.0, qe),
        )),
    ensures
        forall|k: int|
            0 <= k < cands.len() ==> {
                let p = #[trigger] cands[k];
                &&& 0 <= p.1 < x.len()
                &&& indexed(x, p.1 as int)
                &&& p.0 == env_of_view(geom_view(x[p.1 as int]))
                &&& envs_intersect(p.0, qe)
            },
        forall|i: int|
            0 <= i < x.len() && #[trigger] indexed(x, i) && envs_intersect(
                env_of_view(geom_view(x[i])),
                qe,
            ) ==> touched(cands, cands.len() as int, i),
        forall|k1: int, k2: int|
            0 <= k1 < k2 < cands.len() ==> (#[trigger] cands[k1]).1 != (#[trigger] cands[k2]).1,
{
    broadcast use vstd::seq_lib::group_to_multiset_ensures;
    broadcast use vstd::multiset::group_multiset_axioms;

    lemma_entry_seq(x);
    lemma_entry_seq_no_dup(x);
    let es = entry_seq(x);
    let f = |p: (Envelope, usize)| envs_intersect(p.0, qe);
    assert forall|k: int|
        0 <= k < cands.len() implies {
        let p = #[trigger] cands[k];
        &&& 0 <= p.1 < x.len()
        &&& indexed(x, p.1 as int)
        &&& p.0 == env_of_view(geom_view(x[p.1 as int]))
        &&& envs_intersect(p.0, qe)
    } by {
        let p = cands[k];
        assert(cands.contains(p));
        assert(cands.to_multiset().count(p) > 0);
        assert(es.to_multiset().filter(f).count(p) > 0);
        assert(f(p) && es.to_multiset().count(p) > 0);
        assert(es.contains(p));
        let k2 = choose|k2: int| 0 <= k2 < es.len() && es[k2] == p;
        assert(es[k2] == p);
    }
    assert forall|i: int|
        0 <= i < x.len() && #[trigger] indexed(x, i) && envs_intersect(
            env_of_view(geom_view(x[i])),
            qe,
        ) implies touched(cands, cands.len() as int, i) by {
        let q = (env_of_view(geom_view(x[i])), i as usize);
        assert(es.contains(q));
        assert(es.to_multiset().count(q) > 0);
        assert(f(q));
        assert(es.to_multiset().filter(f).count(q) == es.to_multiset().count(q));
        assert(cands.to_multiset().count(q) > 0);
        assert(cands.contains(q));
        let k = choose|k: int| 0 <= k < cands.len() && cands[k] == q;
        assert((cands[k]).1 == i);
    }
    assert forall|p: (Envelope, usize)|
        cands.to_multiset().contains(p) implies cands.to_multiset().count(p) == 1 by {
        assert(es.to_multiset().filter(f).count(p) > 0);
        assert(f(p) && es.to_multiset().count(p) > 0);
        assert(es.to_multiset().contains(p));
        assert(es.to_multiset().count(p) == 1);
    }
    cands.lemma_multiset_has_no_duplicates_conv();
    assert forall|k1: int, k2: int|
        0 <= k1 < k2 < cands.len() implies (#[trigger] cands[k1]).1 != (
    #[trigger] cands[k2]).1 by {
        if (cands[k1]).1 == (cands[k2]).1 {
            assert(cands[k1].0 == env_of_view(geom_view(x[cands[k1].1 as int])));
            assert(cands[k2].0 == env_of_view(geom_view(x[cands[k2].1 as int])));
            assert(cands[k1] == cands[k2]);
            assert(false);
        }
    }
}


/// The variant tag of a geometry model.
pub open spec fn kind_of(v: ShapeView) -> int {
    match v {
        ShapeView::Point(_) => 0,
        ShapeView::MultiPoint(_) => 1,
        ShapeView::LineString(_) => 2,
        ShapeView::MultiLineString(_) => 3,
        ShapeView::Polygon(_) => 4,
        ShapeView::MultiPolygon(_) => 5,
    }
}

/// Every present geometry of the collection has the same variant.
pub open spec fn homogeneous(x: Seq<Option<Geom>>) -> bool {
    forall|i: int, j: int|
        0 <= i < x.len() && 0 <= j < x.len() && x[i] is Some && x[j] is Some ==> kind_of(
            #[trigger] geom_view(x[i]),
        ) == kind_of(#[trigger] geom_view(x[j]))
}

/// The variant tag of a shape.
fn shape_kind(s: &crate::geom::Shape) -> (k: usize)
    ensures
        k == kind_of(s@),
{
    match s {
        crate::geom::Shape::Point(_) => 0,
        crate::geom::Shape::MultiPoint(_) => 1,
        crate::geom::Shape::LineString(_) => 2,
        crate::geom::Shape::MultiLineString(_) => 3,
        crate::geom::Shape::Polygon(_) => 4,
        crate::geom::Shape::MultiPolygon(_) => 5,
    }
}

/// Checks that every present geometry of the collection has the same
/// variant.
fn collection_homogeneous(x: &Vec<Option<Geom>>) -> (r: bool)
    ensures
        r == homogeneous(x@),
{
    let mut first: Option<usize> = None;
    let mut i: usize = 0;
    while i < x.len()
        invariant
            i <= x@.len(),
            first is None ==> forall|k: int| 0 <= k < i ==> !(#[trigger] x@[k] is Some),
            first is Some ==> {
                &&& first->0 < i
                &&& x@[first->0 as int] is Some
            },
        decreases x@.len() - i,
    {
        match &x[i] {
            Some(_) => {
                if first.is_none() {
                    first = Some(i);
                }
            },
            None => {},
        }
        i += 1;
    }
    match first {
        None => {
            proof {
                assert(homogeneous(x@));
            }
            true
        },
        Some(f) => {
            let fk = match &x[f] {
                Some(g) => shape_kind(g.shape()),
                None => 0,
            };
            let mut ok = true;
            let mut i: usize = 0;
            while i < x.len()
                invariant
                    i <= x@.len(),
                    f < x@.len(),
                    x@[f as int] is Some,
                    fk == kind_of(geom_view(x@[f as int])),
                    ok ==> forall|k: int|
                        0 <= k < i && x@[k] is Some ==> kind_of(#[trigger] geom_view(x@[k]))
                            == fk,
                    !ok ==> !homogeneous(x@),
                decreases x@.len() - i,
            {
                match &x[i] {
                    Some(g) => {
                        let gk = shape_kind(g.shape());
                        if gk != fk {
                            proof {
                                if homogeneous(x@) {
                                    assert(kind_of(geom_view(x@[f as int])) == kind_of(
                                        geom_view(x@[i as int]),
                                    ));
                                    assert(false);
                                }
                            }
                            ok = false;
                        }
                    },
                    None => {},
                }
                i += 1;
            }
            proof {
                if ok {
                    assert forall|a: int, b: int|
                        0 <= a < x@.len() && 0 <= b < x@.len() && x@[a] is Some && x@[b]
                            is Some implies kind_of(#[trigger] geom_view(x@[a])) == kind_of(
                        #[trigger] geom_view(x@[b])) by {
                        assert(kind_of(geom_view(x@[a])) == fk);
                        assert(kind_of(geom_view(x@[b])) == fk);
                    }
                    assert(homogeneous(x@));
                }
            }
            ok
        },
    }
}

/// The sparse evaluator: builds the spatial index over the reference
/// collection, scans the query collection against it, and returns one
/// row of ascending 1-based matching query positions per reference
/// position.
fn sparse_eval(x: &Vec<Option<Geom>>, y: &Vec<Option<Geom>>, pred: SparsePredicate) -> (r: Vec<
    Vec<usize>,
>)
    ensures
        r@.len() == x@.len(),
        forall|i: int|
            0 <= i < x@.len() ==> (#[trigger] r@[i])@ == row_upto(x@, y@, pred, i, y@.len() as int),
{
    let xn = x.len();
    let yn = y.len();
    proof {
        assert(x@.len() == xn && y@.len() == yn);
    }
    let xtree = create_cached_rtree(x);
    let mut r: Vec<Vec<usize>> = Vec::new();
    let mut ii: usize = 0;
    while ii < x.len()
        invariant
            ii <= x@.len(),
            r@.len() == ii,
            forall|i: int| 0 <= i < ii ==> (#[trigger] r@[i])@ == Seq::<usize>::empty(),
        decreases x@.len() - ii,
    {
        r.push(Vec::new());
        ii += 1;
    }
    let mut j: usize = 0;
    while j < y.len()
        invariant
            j <= y@.len(),
            x@.len() <= usize::MAX,
            y@.len() <= usize::MAX,
            r@.len() == x@.len(),
            geom_index_entries(xtree) == entry_seq(x@).to_multiset(),
            forall|i: int|
                0 <= i < x@.len() ==> (#[trigger] r@[i])@ == row_upto(x@, y@, pred, i, j as int),
        decreases y@.len() - j,
    {
        let ghost jj = j as int;
        match &y[j] {
            Some(gy) => {
                match gy.envelope() {
                    Some(qe) => {
                        if env_ordered_check(&qe) {
                            let cands = geom_index_query(&xtree, &qe);
                            let ghost r0 = r@;
                            let mut k: usize = 0;
                            while k < cands.len()
                                invariant
                                    k <= cands@.len(),
                                    x@.len() <= usize::MAX,
                                    y@.len() <= usize::MAX,
                                    0 <= jj < y@.len(),
                                    j == jj,
                                    j < y@.len(),
                                    y@[jj] is Some,
                                    gy == y@[jj]->0,
                                    has_env(geom_view(y@[jj])),
                                    qe == env_of_view(geom_view(y@[jj])),
                                    env_ordered(qe),
                                    (cands@.to_multiset() == entry_seq(x@).to_multiset().filter(
                                        |p: (Envelope, usize)| envs_intersect(p.0, qe),
                                    )),
                                    r@.len() == x@.len(),
                                    r0.len() == x@.len(),
                                    forall|i: int|
                                        0 <= i < x@.len() ==> (#[trigger] r0[i])@ == row_upto(
                                            x@,
                                            y@,
                                            pred,
                                            i,
                                            jj,
                                        ),
                                    forall|i: int|
                                        0 <= i < x@.len() ==> (#[trigger] r@[i])@ == if touched(
                                            cands@,
                                            k as int,
                                            i,
                                        ) && pred_holds(
                                            pred,
                                            geom_view(x@[i]),
                                            geom_view(y@[jj]),
                                        ) {
                                            r0[i]@.push((jj + 1) as usize)
                                        } else {
                                            r0[i]@
                                        },
                                decreases cands@.len() - k,
                            {
                                proof {
                                    lemma_cand_list(x@, cands@, qe);
                                }
                                let (ce, ci) = cands[k];
                                let hit = if let Some(gx) = &x[ci] {
                                    match pred {
                                        SparsePredicate::Intersects => geom_intersects(gx, gy),
                                        SparsePredicate::Contains => {
                                            if geom_is_valid(gx) && geom_is_valid(gy) {
                                                geom_contains(gx, gy)
                                            } else {
                                                false
                                            }
                                        },
                                        SparsePredicate::Within => {
                                            if geom_is_valid(gx) && geom_is_valid(gy) {
                                                geom_within(gx, gy)
                                            } else {
                                                false
                                            }
                                        },
                                    }
                                } else {
                                    proof {
                                        assert(false);
                                    }
                                    false
                                };
                                if hit {
                                    proof {
                                        assert(!touched(cands@, k as int, ci as int));
                                        assert(r@[ci as int]@ == r0[ci as int]@);
                                    }
                                    let row = crate::elem_mut(&mut r, ci);
                                    row.push(j + 1);
                                }
                                proof {
                                    assert forall|i: int| 0 <= i < x@.len() implies (
                                    #[trigger] r@[i])@ == if touched(cands@, k as int + 1, i)
                                        && pred_holds(
                                        pred,
                                        geom_view(x@[i]),
                                        geom_view(y@[jj]),
                                    ) {
                                        r0[i]@.push((jj + 1) as usize)
                                    } else {
                                        r0[i]@
                                    } by {
                                        if i == ci as int {
                                            assert(touched(cands@, k as int + 1, i));
                                        } else {
                                            assert(touched(cands@, k as int + 1, i) == touched(
                                                cands@,
                                                k as int,
                                                i,
                                            ));
                                        }
                                    }
                                }
                                k += 1;
                            }
                            proof {
                                lemma_cand_list(x@, cands@, qe);
                                assert forall|i: int| 0 <= i < x@.len() implies (
                                #[trigger] r@[i])@ == row_upto(x@, y@, pred, i, jj + 1) by {
                                    let tt = touched(cands@, cands@.len() as int, i) && pred_holds(
                                        pred,
                                        geom_view(x@[i]),
                                        geom_view(y@[jj]),
                                    );
                                    assert(tt == match_cond(x@, y@, pred, i, jj));
                                }
                            }
                        } else {
                            proof {
                                assert forall|i: int| 0 <= i < x@.len() implies (
                                #[trigger] r@[i])@ == row_upto(x@, y@, pred, i, jj + 1) by {
                                    assert(!match_cond(x@, y@, pred, i, jj));
                                }
                            }
                        }
                    },
                    None => {
                        proof {
                            assert forall|i: int| 0 <= i < x@.len() implies (#[trigger] r@[i])@
                                == row_upto(x@, y@, pred, i, jj + 1) by {
                                assert(!match_cond(x@, y@, pred, i, jj));
                            }
                        }
                    },
                }
            },
            None => {
                proof {
                    assert forall|i: int| 0 <= i < x@.len() implies (#[trigger] r@[i])@
                        == row_upto(x@, y@, pred, i, jj + 1) by {
                        assert(!match_cond(x@, y@, pred, i, jj));
                    }
                }
            },
        }
        j += 1;
    }
    r
}


/// Evaluates the selected predicate between two geometry collections.
///
/// Both collections must be homogeneous; a mixed collection is an
/// `InvalidGeometryType` error and produces no partial output.  On
/// success the result holds, for each reference position, the ascending
/// list of 1-based query positions whose geometry matches it.
pub fn evaluate_sparse(
    x: &Vec<Option<Geom>>,
    y: &Vec<Option<Geom>>,
    pred: SparsePredicate,
) -> (res: Result<Vec<Vec<usize>>, crate::Error>)
    ensures
        res is Ok <==> homogeneous(x@) && homogeneous(y@),
        res is Err ==> res->Err_0 == crate::Error::InvalidGeometryType,
        res is Ok ==> {
            &&& res->Ok_0@.len() == x@.len()
            &&& sparse_views(res->Ok_0@) == sparse_spec(x@, y@, pred)
            &&& forall|i: int|
                0 <= i < x@.len() ==> (#[trigger] res->Ok_0@[i])@ == row_upto(
                    x@,
                    y@,
                    pred,
                    i,
                    y@.len() as int,
                )
        },
{
    if collection_homogeneous(x) && collection_homogeneous(y) {
        let r = sparse_eval(x, y, pred);
        proof {
            assert(sparse_views(r@) =~= sparse_spec(x@, y@, pred));
        }
        Ok(r)
    } else {
        Err(crate::Error::InvalidGeometryType)
    }
}

/// For each reference geometry, the ascending 1-based positions of the
/// query geometries that intersect it.
pub fn intersects_sparse(x: &Vec<Option<Geom>>, y: &Vec<Option<Geom>>) -> (res: Result<
    Vec<Vec<usize>>,
    crate::Error,
>)
    ensures
        res is Ok <==> homogeneous(x@) && homogeneous(y@),
        res is Err ==> res->Err_0 == crate::Error::InvalidGeometryType,
        res is Ok ==> {
            &&& res->Ok_0@.len() == x@.len()
            &&& forall|i: int|
                0 <= i < x@.len() ==> (#[trigger] res->Ok_0@[i])@ == row_upto(
                    x@,
                    y@,
                    SparsePredicate::Intersects,
                    i,
                    y@.len() as int,
                )
        },
{
    evaluate_sparse(x, y, SparsePredicate::Intersects)
}

/// For each reference geometry, the ascending 1-based positions of the
/// query geometries it contains.
///
/// The exact test is applied to valid geometries only: an invalid
/// geometry (such as a self-intersecting polygon ring) matches nothing,
/// since the geometry library's relate machinery is safe on valid
/// geometries only.
pub fn contains_sparse(x: &Vec<Option<Geom>>, y: &Vec<Option<Geom>>) -> (res: Result<
    Vec<Vec<usize>>,
    crate::Error,
>)
    ensures
        res is Ok <==> homogeneous(x@) && homogeneous(y@),
        res is Err ==> res->Err_0 == crate::Error::InvalidGeometryType,
        res is Ok ==> {
            &&& res->Ok_0@.len() == x@.len()
            &&& forall|i: int|
                0 <= i < x@.len() ==> (#[trigger] res->Ok_0@[i])@ == row_upto(
                    x@,
                    y@,
                    SparsePredicate::Contains,
                    i,
                    y@.len() as int,
                )
        },
{
    evaluate_sparse(x, y, SparsePredicate::Contains)
}

/// For each reference geometry, the ascending 1-based positions of the
/// query geometries it lies within.
///
/// The exact test is applied to valid geometries only, as for
/// `contains_sparse`.
pub fn within_sparse(x: &Vec<Option<Geom>>, y: &Vec<Option<Geom>>) -> (res: Result<
    Vec<Vec<usize>>,
    crate::Error,
>)
    ensures
        res is Ok <==> homogeneous(x@) && homogeneous(y@),
        res is Err ==> res->Err_0 == crate::Error::InvalidGeometryType,
        res is Ok ==> {
            &&& res->Ok_0@.len() == x@.len()
            &&& forall|i: int|
                0 <= i < x@.len() ==> (#[trigger] res->Ok_0@[i])@ == row_upto(
                    x@,
                    y@,
                    SparsePredicate::Within,
                    i,
                    y@.len() as int,
                )
        },
{
    evaluate_sparse(x, y, SparsePredicate::Within)
}

} // verus!
