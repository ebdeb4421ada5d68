//! What a query shows, told by how far it is from where the query starts.

use vstd::prelude::*;

use crate::collections::{increasing, lemma_orderable, ordered};
use crate::graph::{
    query_result, walk, walk_level, walk_relations, walk_start, with_member_anchors,
    with_strands_of, EdgeView, QueryAnchorView, QueryResultView, WalkView,
};
use crate::model::{IndexView, RelationView};

verus! {

/// Whether a relation is of one of some kinds; where none is given, of any.
pub open spec fn is_of_kind(relation: RelationView, kinds: Set<Seq<char>>) -> bool {
    kinds == Set::<Seq<char>>::empty() || kinds.contains(relation.kind)
}

/// Whether a relation has an anchor at one of its ends.
pub open spec fn ends_at(relation: RelationView, id: Seq<char>) -> bool {
    relation.from == id || relation.to == id
}

/// Whether a relation has two anchors at its ends, whichever way it leads.
pub open spec fn joins(relation: RelationView, a: Seq<char>, b: Seq<char>) -> bool {
    (relation.from == a && relation.to == b) || (relation.from == b && relation.to == a)
}

/// Whether two relations have the same ends and the same kind.
pub open spec fn is_same_edge(a: RelationView, b: RelationView) -> bool {
    a.from == b.from && a.to == b.to && a.kind == b.kind
}

/// Whether a relation of the index, of one of some kinds, joins two anchors.
pub open spec fn are_joined(
    index: IndexView,
    kinds: Set<Seq<char>>,
    a: Seq<char>,
    b: Seq<char>,
) -> bool {
    exists|i: int|
        0 <= i < index.relations.len() && is_of_kind(
            (#[trigger] index.relations[i]).relation,
            kinds,
        ) && joins(index.relations[i].relation, a, b)
}

/// Whether a query starts at an anchor: it is asked for, or a member of a strand that is.
pub open spec fn starts_at(
    index: IndexView,
    anchors: Set<Seq<char>>,
    strands: Set<Seq<char>>,
    id: Seq<char>,
) -> bool {
    anchors.contains(id) || exists|i: int|
        0 <= i < index.memberships.len() && (#[trigger] index.memberships[i]).strand is Some
            && strands.contains(index.memberships[i].strand->0)
            && index.memberships[i].member.anchor == id
}

/// Whether an anchor is within a number of relations of where a query starts.
pub open spec fn is_within(
    index: IndexView,
    anchors: Set<Seq<char>>,
    strands: Set<Seq<char>>,
    kinds: Set<Seq<char>>,
    depth: nat,
    id: Seq<char>,
) -> bool
    decreases depth,
{
    if depth == 0 {
        starts_at(index, anchors, strands, id)
    } else {
        is_within(index, anchors, strands, kinds, (depth - 1) as nat, id) || exists|other: Seq<
            char,
        >|
            is_within(index, anchors, strands, kinds, (depth - 1) as nat, other)
                && #[trigger] are_joined(index, kinds, other, id)
    }
}

/// Whether each of some anchors is joined with the next one.
pub open spec fn is_path(index: IndexView, kinds: Set<Seq<char>>, path: Seq<Seq<char>>) -> bool {
    forall|i: int|
        0 < i < path.len() ==> are_joined(index, kinds, path[i - 1], #[trigger] path[i])
}

/// Whether a query shows an anchor of a name.
pub open spec fn names_anchor(result: QueryResultView, id: Seq<char>) -> bool {
    exists|i: int| 0 <= i < result.anchors.len() && (#[trigger] result.anchors[i]).id == id
}

/// Whether a query shows a relation with the ends and the kind of one.
pub open spec fn names_relation(result: QueryResultView, relation: RelationView) -> bool {
    exists|i: int|
        0 <= i < result.relations.len() && is_same_edge(
            (#[trigger] result.relations[i]).relation,
            relation,
        )
}

/// The key of a relation.
spec fn key_of(relation: RelationView) -> EdgeView {
    EdgeView { from: relation.from, to: relation.to, kind: relation.kind }
}

/// Whether the relations of a walk are of the index and are told by their keys.
spec fn is_told(index: IndexView, w: WalkView) -> bool {
    &&& forall|key: EdgeView| #[trigger]
        w.keys.contains(key) <==> exists|i: int|
            0 <= i < w.relations.len() && key_of((#[trigger] w.relations[i]).relation) == key
    &&& forall|i: int, j: int|
        0 <= i < j < w.relations.len() ==> key_of((#[trigger] w.relations[i]).relation) != key_of(
            (#[trigger] w.relations[j]).relation,
        )
    &&& forall|i: int|
        0 <= i < w.relations.len() ==> index.relations.contains(#[trigger] w.relations[i])
}

/// Whether a key is one of a relation among the first `n` that ends at an anchor.
spec fn leads_from(
    index: IndexView,
    kinds: Set<Seq<char>>,
    n: int,
    anchor: Seq<char>,
    key: EdgeView,
) -> bool {
    exists|i: int|
        0 <= i < n && is_of_kind((#[trigger] index.relations[i]).relation, kinds) && ends_at(
            index.relations[i].relation,
            anchor,
        ) && key_of(index.relations[i].relation) == key
}

/// Whether a relation among the first `n` joins two anchors.
spec fn joined_among(
    index: IndexView,
    kinds: Set<Seq<char>>,
    n: int,
    a: Seq<char>,
    b: Seq<char>,
) -> bool {
    exists|i: int|
        0 <= i < n && is_of_kind((#[trigger] index.relations[i]).relation, kinds) && joins(
            index.relations[i].relation,
            a,
            b,
        )
}

proof fn lemma_followed(
    index: IndexView,
    kinds: Set<Seq<char>>,
    anchor: Seq<char>,
    n: int,
    w: WalkView,
)
    requires
        0 <= n <= index.relations.len(),
        is_told(index, w),
        w.anchors.finite(),
    ensures
        ({
            let after = walk_relations(index, kinds, anchor, n, w);
            &&& is_told(index, after)
            &&& after.anchors.finite()
            &&& forall|id: Seq<char>| #[trigger]
                after.anchors.contains(id) <==> w.anchors.contains(id) || joined_among(
                    index,
                    kinds,
                    n,
                    anchor,
                    id,
                )
            &&& forall|id: Seq<char>| #[trigger]
                after.next.contains(id) <==> w.next.contains(id) || (after.anchors.contains(id)
                    && !w.anchors.contains(id))
            &&& forall|key: EdgeView| #[trigger]
                after.keys.contains(key) <==> w.keys.contains(key) || leads_from(
                    index,
                    kinds,
                    n,
                    anchor,
                    key,
                )
        }),
    decreases n,
{
    if n > 0 {
        lemma_followed(index, kinds, anchor, n - 1, w);
        let before = walk_relations(index, kinds, anchor, n - 1, w);
        let after = walk_relations(index, kinds, anchor, n, w);
        let last = index.relations[n - 1];
        let r = last.relation;
        assert forall|id: Seq<char>|
            joined_among(index, kinds, n, anchor, id) <==> (joined_among(
                index,
                kinds,
                n - 1,
                anchor,
                id,
            ) || is_of_kind(r, kinds) && joins(r, anchor, id)) by {
            if joined_among(index, kinds, n, anchor, id) {
                let i = choose|i: int|
                    0 <= i < n && is_of_kind((#[trigger] index.relations[i]).relation, kinds)
                        && joins(index.relations[i].relation, anchor, id);
                if i < n - 1 {
                    assert(joins(index.relations[i].relation, anchor, id));
                }
            }
            if joined_among(index, kinds, n - 1, anchor, id) {
                let i = choose|i: int|
                    0 <= i < n - 1 && is_of_kind((#[trigger] index.relations[i]).relation, kinds)
                        && joins(index.relations[i].relation, anchor, id);
                assert(joins(index.relations[i].relation, anchor, id));
            }
            if is_of_kind(r, kinds) && joins(r, anchor, id) {
                assert(joins(index.relations[n - 1].relation, anchor, id));
            }
        }
        assert forall|key: EdgeView|
            leads_from(index, kinds, n, anchor, key) <==> (leads_from(
                index,
                kinds,
                n - 1,
                anchor,
                key,
            ) || is_of_kind(r, kinds) && ends_at(r, anchor) && key_of(r) == key) by {
            if leads_from(index, kinds, n, anchor, key) {
                let i = choose|i: int|
                    0 <= i < n && is_of_kind((#[trigger] index.relations[i]).relation, kinds)
                        && ends_at(index.relations[i].relation, anchor) && key_of(
                        index.relations[i].relation,
                    ) == key;
                if i < n - 1 {
                    assert(ends_at(index.relations[i].relation, anchor));
                }
            }
            if leads_from(index, kinds, n - 1, anchor, key) {
                let i = choose|i: int|
                    0 <= i < n - 1 && is_of_kind((#[trigger] index.relations[i]).relation, kinds)
                        && ends_at(index.relations[i].relation, anchor) && key_of(
                        index.relations[i].relation,
                    ) == key;
                assert(ends_at(index.relations[i].relation, anchor));
            }
            if is_of_kind(r, kinds) && ends_at(r, anchor) && key_of(r) == key {
                assert(ends_at(index.relations[n - 1].relation, anchor));
            }
        }
        if is_of_kind(r, kinds) && ends_at(r, anchor) {
            let other = if r.from == anchor {
                r.to
            } else {
                r.from
            };
            assert(after.anchors == before.anchors.insert(other));
            assert(after.keys == before.keys.insert(key_of(r)));
            assert forall|id: Seq<char>| joins(r, anchor, id) <==> id == other by {}
            if before.anchors.contains(other) {
                assert(after.next == before.next);
            } else {
                assert(after.next == before.next.push(other));
                assert forall|id: Seq<char>|
                    after.next.contains(id) <==> before.next.contains(id) || id == other by {
                    lemma_name_pushed(before.next, other, id);
                }
            }
            if before.keys.contains(key_of(r)) {
                assert(after.relations == before.relations);
                assert(after.keys =~= before.keys);
            } else {
                assert(after.relations == before.relations.push(last));
                assert forall|i: int| 0 <= i < after.relations.len() implies index.relations.contains(
                    #[trigger] after.relations[i],
                ) by {
                    if i < before.relations.len() {
                        assert(after.relations[i] == before.relations[i]);
                    } else {
                        assert(index.relations[n - 1] == last);
                    }
                }
                assert forall|key: EdgeView| #[trigger]
                    after.keys.contains(key) <==> exists|i: int|
                        0 <= i < after.relations.len() && key_of(
                            (#[trigger] after.relations[i]).relation,
                        ) == key by {
                    if before.keys.contains(key) {
                        let i = choose|i: int|
                            0 <= i < before.relations.len() && key_of(
                                (#[trigger] before.relations[i]).relation,
                            ) == key;
                        assert(after.relations[i] == before.relations[i]);
                    }
                    if key == key_of(r) {
                        assert(after.relations[before.relations.len() as int] == last);
                    }
                    if exists|i: int|
                        0 <= i < after.relations.len() && key_of(
                            (#[trigger] after.relations[i]).relation,
                        ) == key {
                        let i = choose|i: int|
                            0 <= i < after.relations.len() && key_of(
                                (#[trigger] after.relations[i]).relation,
                            ) == key;
                        if i < before.relations.len() {
                            assert(after.relations[i] == before.relations[i]);
                        }
                    }
                }
                assert forall|i: int, j: int| 0 <= i < j < after.relations.len() implies key_of(
                    (#[trigger] after.relations[i]).relation,
                ) != key_of((#[trigger] after.relations[j]).relation) by {
                    assert(after.relations[i] == before.relations[i]);
                    if j < before.relations.len() {
                        assert(after.relations[j] == before.relations[j]);
                    } else if key_of(before.relations[i].relation) == key_of(r) {
                        assert(before.keys.contains(key_of(r)));
                    }
                }
            }
        } else {
            assert(after == before);
        }
    }
}

proof fn lemma_name_pushed(all: Seq<Seq<char>>, x: Seq<char>, y: Seq<char>)
    ensures
        all.push(x).contains(y) <==> all.contains(y) || x == y,
{
    if all.contains(y) {
        let i = all.index_of(y);
        assert(all.push(x)[i] == y);
    }
    if x == y {
        assert(all.push(x)[all.len() as int] == y);
    }
    if all.push(x).contains(y) {
        let i = all.push(x).index_of(y);
        if i < all.len() {
            assert(all[i] == y);
        }
    }
}

/// Whether an anchor is joined with one of the first `n` of a level.
spec fn joined_with(
    index: IndexView,
    kinds: Set<Seq<char>>,
    level: Seq<Seq<char>>,
    n: int,
    id: Seq<char>,
) -> bool {
    exists|k: int| 0 <= k < n && are_joined(index, kinds, #[trigger] level[k], id)
}

/// Whether a key is one of a relation that ends at one of the first `n` anchors of a level.
spec fn leads_from_level(
    index: IndexView,
    kinds: Set<Seq<char>>,
    level: Seq<Seq<char>>,
    n: int,
    key: EdgeView,
) -> bool {
    exists|k: int|
        0 <= k < n && leads_from(
            index,
            kinds,
            index.relations.len() as int,
            #[trigger] level[k],
            key,
        )
}

proof fn lemma_level_followed(
    index: IndexView,
    kinds: Set<Seq<char>>,
    level: Seq<Seq<char>>,
    n: int,
    w: WalkView,
)
    requires
        0 <= n <= level.len(),
        is_told(index, w),
        w.anchors.finite(),
    ensures
        ({
            let after = walk_level(index, kinds, level, n, w);
            &&& is_told(index, after)
            &&& after.anchors.finite()
            &&& forall|id: Seq<char>| #[trigger]
                after.anchors.contains(id) <==> w.anchors.contains(id) || joined_with(
                    index,
                    kinds,
                    level,
                    n,
                    id,
                )
            &&& forall|id: Seq<char>| #[trigger]
                after.next.contains(id) <==> w.next.contains(id) || (after.anchors.contains(id)
                    && !w.anchors.contains(id))
            &&& forall|key: EdgeView| #[trigger]
                after.keys.contains(key) <==> w.keys.contains(key) || leads_from_level(
                    index,
                    kinds,
                    level,
                    n,
                    key,
                )
        }),
    decreases n,
{
    if n > 0 {
        lemma_level_followed(index, kinds, level, n - 1, w);
        let before = walk_level(index, kinds, level, n - 1, w);
        let after = walk_level(index, kinds, level, n, w);
        let count = index.relations.len() as int;
        lemma_followed(index, kinds, level[n - 1], count, before);
        assert forall|id: Seq<char>|
            joined_with(index, kinds, level, n, id) <==> (joined_with(
                index,
                kinds,
                level,
                n - 1,
                id,
            ) || joined_among(index, kinds, count, level[n - 1], id)) by {
            assert(joined_among(index, kinds, count, level[n - 1], id) == are_joined(
                index,
                kinds,
                level[n - 1],
                id,
            ));
            if joined_with(index, kinds, level, n, id) {
                let k = choose|k: int| 0 <= k < n && are_joined(index, kinds, #[trigger] level[k], id);
                if k < n - 1 {
                    assert(are_joined(index, kinds, level[k], id));
                }
            }
            if joined_with(index, kinds, level, n - 1, id) {
                let k = choose|k: int|
                    0 <= k < n - 1 && are_joined(index, kinds, #[trigger] level[k], id);
                assert(are_joined(index, kinds, level[k], id));
            }
        }
        assert forall|key: EdgeView|
            leads_from_level(index, kinds, level, n, key) <==> (leads_from_level(
                index,
                kinds,
                level,
                n - 1,
                key,
            ) || leads_from(index, kinds, count, level[n - 1], key)) by {
            if leads_from_level(index, kinds, level, n, key) {
                let k = choose|k: int|
                    0 <= k < n && leads_from(index, kinds, count, #[trigger] level[k], key);
                if k < n - 1 {
                    assert(leads_from(index, kinds, count, level[k], key));
                }
            }
            if leads_from_level(index, kinds, level, n - 1, key) {
                let k = choose|k: int|
                    0 <= k < n - 1 && leads_from(index, kinds, count, #[trigger] level[k], key);
                assert(leads_from(index, kinds, count, level[k], key));
            }
        }
    }
}

/// One level more.
spec fn one_level(index: IndexView, kinds: Set<Seq<char>>, w: WalkView) -> WalkView {
    if w.next.len() == 0 {
        w
    } else {
        walk_level(index, kinds, w.next, w.next.len() as int, WalkView { next: seq![], ..w })
    }
}

proof fn lemma_last_level(index: IndexView, kinds: Set<Seq<char>>, w: WalkView, depth: nat)
    ensures
        walk(index, kinds, w, depth + 1) == one_level(index, kinds, walk(index, kinds, w, depth)),
    decreases depth,
{
    if w.next.len() > 0 {
        let after = one_level(index, kinds, w);
        if depth == 0 {
            assert(walk(index, kinds, after, 0) == after);
        } else {
            lemma_last_level(index, kinds, after, (depth - 1) as nat);
            assert(walk(index, kinds, w, depth) == walk(index, kinds, after, (depth - 1) as nat));
            assert(walk(index, kinds, w, depth + 1) == walk(index, kinds, after, depth));
        }
    }
}

proof fn lemma_starts(
    index: IndexView,
    anchors: Set<Seq<char>>,
    strands: Set<Seq<char>>,
    n: int,
)
    requires
        anchors.finite(),
        0 <= n <= index.memberships.len(),
    ensures
        with_member_anchors(index, strands, anchors, n).finite(),
        forall|id: Seq<char>| #[trigger]
            with_member_anchors(index, strands, anchors, n).contains(id) <==> anchors.contains(id)
                || exists|i: int|
                0 <= i < n && (#[trigger] index.memberships[i]).strand is Some && strands.contains(
                    index.memberships[i].strand->0,
                ) && index.memberships[i].member.anchor == id,
    decreases n,
{
    if n > 0 {
        lemma_starts(index, anchors, strands, n - 1);
        let before = with_member_anchors(index, strands, anchors, n - 1);
        let now = with_member_anchors(index, strands, anchors, n);
        let m = index.memberships[n - 1];
        assert forall|id: Seq<char>| #[trigger]
            now.contains(id) <==> anchors.contains(id) || exists|i: int|
                0 <= i < n && (#[trigger] index.memberships[i]).strand is Some && strands.contains(
                    index.memberships[i].strand->0,
                ) && index.memberships[i].member.anchor == id by {
            assert(before.contains(id) <==> anchors.contains(id) || exists|i: int|
                0 <= i < n - 1 && (#[trigger] index.memberships[i]).strand is Some
                    && strands.contains(index.memberships[i].strand->0)
                    && index.memberships[i].member.anchor == id);
            if now.contains(id) && !before.contains(id) {
                assert(index.memberships[n - 1].member.anchor == id);
            }
            if before.contains(id) && !anchors.contains(id) {
                let i = choose|i: int|
                    0 <= i < n - 1 && (#[trigger] index.memberships[i]).strand is Some
                        && strands.contains(index.memberships[i].strand->0)
                        && index.memberships[i].member.anchor == id;
                assert(index.memberships[i].member.anchor == id);
            }
            if exists|i: int|
                0 <= i < n && (#[trigger] index.memberships[i]).strand is Some && strands.contains(
                    index.memberships[i].strand->0,
                ) && index.memberships[i].member.anchor == id {
                let i = choose|i: int|
                    0 <= i < n && (#[trigger] index.memberships[i]).strand is Some
                        && strands.contains(index.memberships[i].strand->0)
                        && index.memberships[i].member.anchor == id;
                if i < n - 1 {
                    assert(index.memberships[i].member.anchor == id);
                }
            }
        }
    }
}

/// Whether a relation of the index that is of one of some kinds has a key, and one of its ends
/// within a depth.
spec fn is_met(
    index: IndexView,
    anchors: Set<Seq<char>>,
    strands: Set<Seq<char>>,
    kinds: Set<Seq<char>>,
    depth: nat,
    key: EdgeView,
) -> bool {
    exists|i: int|
        0 <= i < index.relations.len() && is_of_kind(
            (#[trigger] index.relations[i]).relation,
            kinds,
        ) && key_of(index.relations[i].relation) == key && (is_within(
            index,
            anchors,
            strands,
            kinds,
            depth,
            key.from,
        ) || is_within(index, anchors, strands, kinds, depth, key.to))
}

proof fn lemma_walked(
    index: IndexView,
    anchors: Set<Seq<char>>,
    strands: Set<Seq<char>>,
    kinds: Set<Seq<char>>,
    depth: nat,
)
    requires
        anchors.finite(),
    ensures
        ({
            let w = walk(index, kinds, walk_start(index, anchors, strands), depth);
            &&& is_told(index, w)
            &&& w.anchors.finite()
            &&& forall|id: Seq<char>| #[trigger]
                w.anchors.contains(id) <==> is_within(index, anchors, strands, kinds, depth, id)
            &&& forall|id: Seq<char>| #[trigger]
                w.next.contains(id) <==> is_within(index, anchors, strands, kinds, depth, id) && (
                depth > 0 ==> !is_within(index, anchors, strands, kinds, (depth - 1) as nat, id))
            &&& forall|key: EdgeView| #[trigger]
                w.keys.contains(key) <==> depth > 0 && is_met(
                    index,
                    anchors,
                    strands,
                    kinds,
                    (depth - 1) as nat,
                    key,
                )
        }),
    decreases depth,
{
    let start = walk_start(index, anchors, strands);
    let w = walk(index, kinds, start, depth);
    if depth == 0 {
        lemma_starts(index, anchors, strands, index.memberships.len() as int);
        lemma_orderable(start.anchors);
        assert forall|id: Seq<char>| #[trigger]
            w.next.contains(id) <==> is_within(index, anchors, strands, kinds, 0, id) by {
            assert(w.next.to_set().contains(id) == w.next.contains(id));
            assert(start.anchors.contains(id) <==> starts_at(index, anchors, strands, id));
        }
        assert forall|id: Seq<char>| #[trigger]
            w.anchors.contains(id) <==> is_within(index, anchors, strands, kinds, depth, id) by {
            assert(start.anchors.contains(id) <==> starts_at(index, anchors, strands, id));
        }
    } else {
        let less = (depth - 1) as nat;
        let before = walk(index, kinds, start, less);
        lemma_walked(index, anchors, strands, kinds, less);
        lemma_last_level(index, kinds, start, less);
        assert(w == one_level(index, kinds, before));
        let cleared = WalkView { next: seq![], ..before };
        let level = before.next;
        let n = level.len() as int;
        lemma_level_followed(index, kinds, level, n, cleared);
        let after = walk_level(index, kinds, level, n, cleared);
        if n == 0 {
            assert forall|id: Seq<char>| !level.contains(id) by {}
            assert(after == cleared);
            assert(w =~= cleared);
        }
        assert(w.anchors == after.anchors && w.keys == after.keys && w.next == after.next);
        assert forall|id: Seq<char>| #[trigger]
            w.anchors.contains(id) <==> is_within(index, anchors, strands, kinds, depth, id) by {
            if joined_with(index, kinds, level, n, id) {
                let k = choose|k: int| 0 <= k < n && are_joined(index, kinds, #[trigger] level[k], id);
                assert(level.contains(level[k]));
                assert(is_within(index, anchors, strands, kinds, less, level[k]));
            }
            if is_within(index, anchors, strands, kinds, depth, id) && !is_within(
                index,
                anchors,
                strands,
                kinds,
                less,
                id,
            ) {
                let other = choose|other: Seq<char>|
                    is_within(index, anchors, strands, kinds, less, other)
                        && #[trigger] are_joined(index, kinds, other, id);
                if less > 0 && is_within(
                    index,
                    anchors,
                    strands,
                    kinds,
                    (less - 1) as nat,
                    other,
                ) {
                    assert(is_within(index, anchors, strands, kinds, less, id));
                } else {
                    assert(level.contains(other));
                    let k = level.index_of(other);
                    assert(level[k] == other);
                    assert(joined_with(index, kinds, level, n, id));
                }
            }
        }
        assert forall|id: Seq<char>| #[trigger]
            w.next.contains(id) <==> is_within(index, anchors, strands, kinds, depth, id)
                && !is_within(index, anchors, strands, kinds, less, id) by {
            assert(!cleared.next.contains(id));
            assert(w.anchors.contains(id) <==> is_within(
                index,
                anchors,
                strands,
                kinds,
                depth,
                id,
            ));
        }
        assert forall|key: EdgeView| #[trigger]
            w.keys.contains(key) <==> is_met(index, anchors, strands, kinds, less, key) by {
            if before.keys.contains(key) {
                let i = choose|i: int|
                    0 <= i < index.relations.len() && is_of_kind(
                        (#[trigger] index.relations[i]).relation,
                        kinds,
                    ) && key_of(index.relations[i].relation) == key && (is_within(
                        index,
                        anchors,
                        strands,
                        kinds,
                        (less - 1) as nat,
                        key.from,
                    ) || is_within(index, anchors, strands, kinds, (less - 1) as nat, key.to));
                assert(key_of(index.relations[i].relation) == key);
                assert(is_met(index, anchors, strands, kinds, less, key));
            }
            if leads_from_level(index, kinds, level, n, key) {
                let k = choose|k: int|
                    0 <= k < n && leads_from(
                        index,
                        kinds,
                        index.relations.len() as int,
                        #[trigger] level[k],
                        key,
                    );
                assert(level.contains(level[k]));
                let i = choose|i: int|
                    0 <= i < index.relations.len() && is_of_kind(
                        (#[trigger] index.relations[i]).relation,
                        kinds,
                    ) && ends_at(index.relations[i].relation, level[k]) && key_of(
                        index.relations[i].relation,
                    ) == key;
                assert(key_of(index.relations[i].relation) == key);
                assert(is_within(index, anchors, strands, kinds, less, level[k]));
                assert(is_met(index, anchors, strands, kinds, less, key));
            }
            if is_met(index, anchors, strands, kinds, less, key) {
                let i = choose|i: int|
                    0 <= i < index.relations.len() && is_of_kind(
                        (#[trigger] index.relations[i]).relation,
                        kinds,
                    ) && key_of(index.relations[i].relation) == key && (is_within(
                        index,
                        anchors,
                        strands,
                        kinds,
                        less,
                        key.from,
                    ) || is_within(index, anchors, strands, kinds, less, key.to));
                let end = if is_within(index, anchors, strands, kinds, less, key.from) {
                    key.from
                } else {
                    key.to
                };
                if less > 0 && is_within(
                    index,
                    anchors,
                    strands,
                    kinds,
                    (less - 1) as nat,
                    end,
                ) {
                    assert(key_of(index.relations[i].relation) == key);
                    assert(is_met(index, anchors, strands, kinds, (less - 1) as nat, key));
                    assert(before.keys.contains(key));
                } else {
                    assert(level.contains(end));
                    let k = level.index_of(end);
                    assert(level[k] == end);
                    assert(ends_at(index.relations[i].relation, end));
                    assert(leads_from(index, kinds, index.relations.len() as int, level[k], key));
                    assert(leads_from_level(index, kinds, level, n, key));
                }
            }
        }
    }
}

/// A query shows exactly the anchors within its depth of where it starts: those that are asked
/// for, the members of strands that are, and what relations of the kinds lead to from there,
/// either way. It shows them in order, each once and as the index has it.
pub proof fn queries_show_what_is_within_their_depth(
    index: IndexView,
    anchors: Set<Seq<char>>,
    strands: Set<Seq<char>>,
    depth: nat,
    kinds: Set<Seq<char>>,
)
    requires
        anchors.finite(),
    ensures
        ({
            let shown = query_result(index, anchors, strands, depth, kinds);
            &&& forall|id: Seq<char>| #[trigger]
                names_anchor(shown, id) <==> is_within(index, anchors, strands, kinds, depth, id)
            &&& increasing(shown.anchors.map_values(|a: QueryAnchorView| a.id))
            &&& forall|i: int|
                0 <= i < shown.anchors.len() ==> {
                    let a = #[trigger] shown.anchors[i];
                    if index.anchors.contains_key(a.id) {
                        &&& a.kind == index.anchors[a.id].value.kind
                        &&& a.location == index.anchors[a.id].value.location
                    } else {
                        a.kind is None && a.location is None
                    }
                }
        }),
{
    let w = walk(index, kinds, walk_start(index, anchors, strands), depth);
    let shown = query_result(index, anchors, strands, depth, kinds);
    lemma_walked(index, anchors, strands, kinds, depth);
    lemma_orderable(w.anchors);
    let ids = ordered(w.anchors);
    assert(shown.anchors.map_values(|a: QueryAnchorView| a.id) =~= ids);
    assert forall|id: Seq<char>| #[trigger]
        names_anchor(shown, id) <==> is_within(index, anchors, strands, kinds, depth, id) by {
        if names_anchor(shown, id) {
            let i = choose|i: int| 0 <= i < shown.anchors.len() && (#[trigger] shown.anchors[i]).id == id;
            assert(ids[i] == id);
            assert(ids.to_set().contains(id));
        }
        if w.anchors.contains(id) {
            assert(ids.to_set().contains(id));
            let i = ids.index_of(id);
            assert(shown.anchors[i].id == id);
        }
    }
}

/// A query shows the last anchor of every path of no more relations than its depth that begins
/// where the query starts.
pub proof fn queries_show_the_ends_of_paths(
    index: IndexView,
    anchors: Set<Seq<char>>,
    strands: Set<Seq<char>>,
    depth: nat,
    kinds: Set<Seq<char>>,
    path: Seq<Seq<char>>,
)
    requires
        anchors.finite(),
        0 < path.len() <= depth + 1,
        starts_at(index, anchors, strands, path[0]),
        is_path(index, kinds, path),
    ensures
        names_anchor(query_result(index, anchors, strands, depth, kinds), path.last()),
{
    lemma_path_is_within(index, anchors, strands, kinds, depth, path);
    queries_show_what_is_within_their_depth(index, anchors, strands, depth, kinds);
}

proof fn lemma_path_is_within(
    index: IndexView,
    anchors: Set<Seq<char>>,
    strands: Set<Seq<char>>,
    kinds: Set<Seq<char>>,
    depth: nat,
    path: Seq<Seq<char>>,
)
    requires
        0 < path.len() <= depth + 1,
        starts_at(index, anchors, strands, path[0]),
        is_path(index, kinds, path),
    ensures
        is_within(index, anchors, strands, kinds, depth, path.last()),
    decreases depth,
{
    if depth > 0 {
        let less = (depth - 1) as nat;
        if path.len() <= depth {
            lemma_path_is_within(index, anchors, strands, kinds, less, path);
        } else {
            let front = path.drop_last();
            assert forall|i: int| 0 < i < front.len() implies are_joined(
                index,
                kinds,
                front[i - 1],
                #[trigger] front[i],
            ) by {
                assert(front[i] == path[i]);
            }
            lemma_path_is_within(index, anchors, strands, kinds, less, front);
            assert(are_joined(index, kinds, path[path.len() - 2], path[path.len() - 1]));
            assert(is_within(index, anchors, strands, kinds, less, front.last()));
        }
    }
}

/// One relation more shows one relation farther: what a relation of the kinds joins with an
/// anchor that a query shows, the query of one more relation shows.
pub proof fn one_more_relation_shows_one_farther(
    index: IndexView,
    anchors: Set<Seq<char>>,
    strands: Set<Seq<char>>,
    depth: nat,
    kinds: Set<Seq<char>>,
    i: int,
    a: Seq<char>,
    b: Seq<char>,
)
    requires
        anchors.finite(),
        0 <= i < index.relations.len(),
        is_of_kind(index.relations[i].relation, kinds),
        joins(index.relations[i].relation, a, b),
        names_anchor(query_result(index, anchors, strands, depth, kinds), a),
    ensures
        names_anchor(query_result(index, anchors, strands, depth + 1, kinds), a),
        names_anchor(query_result(index, anchors, strands, depth + 1, kinds), b),
        names_relation(
            query_result(index, anchors, strands, depth + 1, kinds),
            index.relations[i].relation,
        ),
{
    queries_show_what_is_within_their_depth(index, anchors, strands, depth, kinds);
    queries_show_what_is_within_their_depth(index, anchors, strands, depth + 1, kinds);
    queries_show_the_relations_within_their_depth(index, anchors, strands, depth + 1, kinds, i);
    assert(are_joined(index, kinds, a, b));
    assert(is_within(index, anchors, strands, kinds, depth, a));
}

/// A query shows a relation of the index if and only if it is of one of the kinds and one of its
/// ends is nearer than the depth to where the query starts. It shows no relation but those of
/// the index, and no two with the same ends and kind.
pub proof fn queries_show_the_relations_within_their_depth(
    index: IndexView,
    anchors: Set<Seq<char>>,
    strands: Set<Seq<char>>,
    depth: nat,
    kinds: Set<Seq<char>>,
    i: int,
)
    requires
        anchors.finite(),
        0 <= i < index.relations.len(),
    ensures
        ({
            let shown = query_result(index, anchors, strands, depth, kinds);
            let relation = index.relations[i].relation;
            &&& is_of_kind(relation, kinds) ==> (names_relation(shown, relation) <==> depth > 0 && (
            is_within(index, anchors, strands, kinds, (depth - 1) as nat, relation.from)
                || is_within(index, anchors, strands, kinds, (depth - 1) as nat, relation.to)))
            &&& names_relation(shown, relation) ==> is_of_kind(relation, kinds)
            &&& forall|k: int|
                0 <= k < shown.relations.len() ==> index.relations.contains(
                    #[trigger] shown.relations[k],
                )
            &&& forall|k: int, l: int|
                0 <= k < l < shown.relations.len() ==> !is_same_edge(
                    (#[trigger] shown.relations[k]).relation,
                    (#[trigger] shown.relations[l]).relation,
                )
        }),
{
    let w = walk(index, kinds, walk_start(index, anchors, strands), depth);
    let shown = query_result(index, anchors, strands, depth, kinds);
    let relation = index.relations[i].relation;
    let key = key_of(relation);
    lemma_walked(index, anchors, strands, kinds, depth);
    assert(shown.relations == w.relations);
    assert(names_relation(shown, relation) <==> w.keys.contains(key)) by {
        if names_relation(shown, relation) {
            let k = choose|k: int|
                0 <= k < shown.relations.len() && is_same_edge(
                    (#[trigger] shown.relations[k]).relation,
                    relation,
                );
            assert(key_of(w.relations[k].relation) == key);
        }
        if w.keys.contains(key) {
            let k = choose|k: int|
                0 <= k < w.relations.len() && key_of((#[trigger] w.relations[k]).relation) == key;
            assert(is_same_edge(shown.relations[k].relation, relation));
        }
    }
    if depth > 0 {
        let less = (depth - 1) as nat;
        if is_met(index, anchors, strands, kinds, less, key) {
            let j = choose|j: int|
                0 <= j < index.relations.len() && is_of_kind(
                    (#[trigger] index.relations[j]).relation,
                    kinds,
                ) && key_of(index.relations[j].relation) == key && (is_within(
                    index,
                    anchors,
                    strands,
                    kinds,
                    less,
                    key.from,
                ) || is_within(index, anchors, strands, kinds, less, key.to));
            assert(index.relations[j].relation.kind == relation.kind);
        }
        if is_of_kind(relation, kinds) && (is_within(
            index,
            anchors,
            strands,
            kinds,
            less,
            relation.from,
        ) || is_within(index, anchors, strands, kinds, less, relation.to)) {
            assert(key_of(index.relations[i].relation) == key);
            assert(is_met(index, anchors, strands, kinds, less, key));
        }
    }
    assert forall|k: int, l: int| 0 <= k < l < shown.relations.len() implies !is_same_edge(
        (#[trigger] shown.relations[k]).relation,
        (#[trigger] shown.relations[l]).relation,
    ) by {
        assert(key_of(w.relations[k].relation) != key_of(w.relations[l].relation));
    }
}

proof fn lemma_strands_met(
    index: IndexView,
    anchors: Set<Seq<char>>,
    strands: Set<Seq<char>>,
    n: int,
)
    requires
        strands.finite(),
        0 <= n <= index.memberships.len(),
    ensures
        with_strands_of(index, anchors, strands, n).finite(),
        forall|id: Seq<char>| #[trigger]
            with_strands_of(index, anchors, strands, n).contains(id) <==> strands.contains(id)
                || exists|i: int|
                0 <= i < n && (#[trigger] index.memberships[i]).strand == Some(id)
                    && anchors.contains(index.memberships[i].member.anchor),
    decreases n,
{
    if n > 0 {
        lemma_strands_met(index, anchors, strands, n - 1);
        let before = with_strands_of(index, anchors, strands, n - 1);
        let now = with_strands_of(index, anchors, strands, n);
        assert forall|id: Seq<char>| #[trigger]
            now.contains(id) <==> strands.contains(id) || exists|i: int|
                0 <= i < n && (#[trigger] index.memberships[i]).strand == Some(id)
                    && anchors.contains(index.memberships[i].member.anchor) by {
            assert(before.contains(id) <==> strands.contains(id) || exists|i: int|
                0 <= i < n - 1 && (#[trigger] index.memberships[i]).strand == Some(id)
                    && anchors.contains(index.memberships[i].member.anchor));
            if now.contains(id) && !before.contains(id) {
                assert(index.memberships[n - 1].strand == Some(id));
            }
            if before.contains(id) && !strands.contains(id) {
                let i = choose|i: int|
                    0 <= i < n - 1 && (#[trigger] index.memberships[i]).strand == Some(id)
                        && anchors.contains(index.memberships[i].member.anchor);
                assert(index.memberships[i].strand == Some(id));
            }
            if exists|i: int|
                0 <= i < n && (#[trigger] index.memberships[i]).strand == Some(id)
                    && anchors.contains(index.memberships[i].member.anchor) {
                let i = choose|i: int|
                    0 <= i < n && (#[trigger] index.memberships[i]).strand == Some(id)
                        && anchors.contains(index.memberships[i].member.anchor);
                if i < n - 1 {
                    assert(index.memberships[i].strand == Some(id));
                }
            }
        }
    }
}

/// A query shows the strands that are asked for and every strand that an anchor it shows is a
/// member of, with their intents, and no other strand.
pub proof fn queries_show_the_strands_of_their_anchors(
    index: IndexView,
    anchors: Set<Seq<char>>,
    strands: Set<Seq<char>>,
    depth: nat,
    kinds: Set<Seq<char>>,
    id: Seq<char>,
)
    requires
        anchors.finite(),
        strands.finite(),
    ensures
        ({
            let shown = query_result(index, anchors, strands, depth, kinds);
            &&& (exists|k: int| 0 <= k < shown.strands.len() && (#[trigger] shown.strands[k]).id == id)
                <==> strands.contains(id) || exists|i: int|
                0 <= i < index.memberships.len() && (#[trigger] index.memberships[i]).strand == Some(
                    id,
                ) && names_anchor(shown, index.memberships[i].member.anchor)
            &&& forall|k: int|
                0 <= k < shown.strands.len() && index.strands.contains_key(
                    (#[trigger] shown.strands[k]).id,
                ) ==> shown.strands[k].intent == index.strands[shown.strands[k].id].value.intent
        }),
{
    let w = walk(index, kinds, walk_start(index, anchors, strands), depth);
    let shown = query_result(index, anchors, strands, depth, kinds);
    let count = index.memberships.len() as int;
    lemma_walked(index, anchors, strands, kinds, depth);
    queries_show_what_is_within_their_depth(index, anchors, strands, depth, kinds);
    lemma_strands_met(index, w.anchors, strands, count);
    let met = with_strands_of(index, w.anchors, strands, count);
    lemma_orderable(met);
    let ids = ordered(met);
    if exists|k: int| 0 <= k < shown.strands.len() && (#[trigger] shown.strands[k]).id == id {
        let k = choose|k: int| 0 <= k < shown.strands.len() && (#[trigger] shown.strands[k]).id == id;
        assert(ids[k] == id);
        assert(ids.to_set().contains(id));
        if !strands.contains(id) {
            let i = choose|i: int|
                0 <= i < count && (#[trigger] index.memberships[i]).strand == Some(id)
                    && w.anchors.contains(index.memberships[i].member.anchor);
            assert(names_anchor(shown, index.memberships[i].member.anchor));
        }
    }
    if strands.contains(id) || exists|i: int|
        0 <= i < count && (#[trigger] index.memberships[i]).strand == Some(id) && names_anchor(
            shown,
            index.memberships[i].member.anchor,
        ) {
        if !strands.contains(id) {
            let i = choose|i: int|
                0 <= i < count && (#[trigger] index.memberships[i]).strand == Some(id)
                    && names_anchor(shown, index.memberships[i].member.anchor);
            assert(w.anchors.contains(index.memberships[i].member.anchor));
        }
        assert(met.contains(id));
        assert(ids.to_set().contains(id));
        let k = ids.index_of(id);
        assert(shown.strands[k].id == id);
    }
}

} // verus!
