//! How far the context of a change or of seeds reaches.

use vstd::prelude::*;

use crate::collections::{lemma_orderable, ordered};
use crate::config::ConfigView;
use crate::graph::{
    affected_depth, affected_listing, affected_packet, affected_reach, affected_route,
    connected_strands, current_members, dedup_anchors, direct_evidence, followed_edges,
    followed_removed, former_members, known_strand, listed_strand, listed_strands, next_of,
    next_reasons, policy_depth, reach, reach_start, reach_step, reaches_optional, related_reasons,
    seed_listing, seed_packet, seed_reach, seed_reasons, seed_route, seed_start, sort_anchors,
    touched_strands, with_exact_strands, with_members, with_strand_members, with_strands_of,
    AffectedOptionsView, AnchorReasonView, ContextSeedsView, EdgeView, EvidenceView, ListingView,
    ReachView, RouteView,
};
use crate::graph_laws::{
    lemma_dedup_contains, lemma_evidence_is_finite, lemma_listed_at, lemma_listing_is_complete,
    lemma_member_stays, lemma_related_at, lemma_sort_anchors_contains, lemma_strand_is_listed,
    lemma_with_strands_of, lists_strand,
};
use crate::metadata::ParsedMetadataView;
use crate::model::{
    AffectedAnchorView, ChangeSetView, ContextPacketView, IndexView, IndexedRelationView,
    MemberView, RelationView, StrandView,
};
use crate::walk_laws::joins;

verus! {

/// Whether a context names an anchor, in a strand or on its own.
pub open spec fn names(packet: ContextPacketView, id: Seq<char>) -> bool {
    ||| exists|i: int, j: int|
        0 <= i < packet.strands.len() && 0 <= j < packet.strands[i].anchors.len() && (
        #[trigger] packet.strands[i].anchors[j]).id == id
    ||| exists|k: int|
        0 <= k < packet.related_anchors.len() && (#[trigger] packet.related_anchors[k]).id == id
}

/// Whether a strand carries all tags that are asked for; where none is, it need not be known.
pub open spec fn carries(index: IndexView, tags: Set<Seq<char>>, strand: Seq<char>) -> bool {
    tags == Set::<Seq<char>>::empty() || (index.strands.contains_key(strand) && forall|tag: Seq<
        char,
    >| #[trigger]
        tags.contains(tag) ==> index.strands[strand].value.tags.contains(tag))
}

/// Whether a member is one that a strand of the index brings along: an optional member only
/// where these are asked for, and only where the policy of the strand asks for its role.
pub open spec fn is_brought(
    index: IndexView,
    strand: Seq<char>,
    member: MemberView,
    optional: bool,
) -> bool {
    &&& index.strands.contains_key(strand)
    &&& member.required || optional
    &&& index.strands[strand].value.on_change matches Some(policy) ==> {
        &&& policy.include_roles == Set::<Seq<char>>::empty() || (member.role is Some
            && policy.include_roles.contains(member.role->0))
        &&& member.role is Some ==> !policy.exclude_roles.contains(member.role->0)
    }
}

/// Whether a strand of the index brings an anchor along.
pub open spec fn brings(index: IndexView, strand: Seq<char>, optional: bool, id: Seq<char>) -> bool {
    exists|m: int|
        0 <= m < index.memberships.len() && (#[trigger] index.memberships[m]).strand == Some(strand)
            && index.memberships[m].member.anchor == id && is_brought(
            index,
            strand,
            index.memberships[m].member,
            optional,
        )
}

/// Whether optional members are asked for.
pub open spec fn asks_for_optional(config: ConfigView, options: AffectedOptionsView) -> bool {
    match options.include_optional {
        Some(wanted) => wanted,
        None => config.traversal.include_optional_members,
    }
}

/// Whether a kind of relation is followed: one that is asked for, else one that is configured,
/// else any.
pub open spec fn is_kind_followed(
    config: ConfigView,
    options: AffectedOptionsView,
    kind: Seq<char>,
) -> bool {
    if options.relations != Set::<Seq<char>>::empty() {
        options.relations.contains(kind)
    } else {
        config.traversal.relation_kinds == Set::<Seq<char>>::empty()
            || config.traversal.relation_kinds.contains(kind)
    }
}

/// Whether a change follows a relation of the index: its kind is followed and, where no kinds
/// are asked for, the policy of its strand follows it.
pub open spec fn is_followed(
    index: IndexView,
    config: ConfigView,
    options: AffectedOptionsView,
    relation: IndexedRelationView,
) -> bool {
    &&& is_kind_followed(config, options, relation.relation.kind)
    &&& options.relations == Set::<Seq<char>>::empty() && relation.strand is Some
        && index.strands.contains_key(relation.strand->0)
        && index.strands[relation.strand->0].value.on_change is Some ==> {
        let kinds = index.strands[relation.strand->0].value.on_change->0.follow_relations;
        kinds == Set::<Seq<char>>::empty() || kinds.contains(relation.relation.kind)
    }
}

/// Whether relations join two anchors.
spec fn is_linked(edges: Seq<EdgeView>, a: Seq<char>, b: Seq<char>) -> bool {
    exists|i: int|
        0 <= i < edges.len() && (((#[trigger] edges[i]).from == a && edges[i].to == b) || (
        edges[i].from == b && edges[i].to == a))
}

/// Whether one of the first `n` relations leads from the frontier to an anchor.
spec fn is_led_to(edges: Seq<EdgeView>, n: int, frontier: Set<Seq<char>>, c: Seq<char>) -> bool {
    exists|i: int|
        0 <= i < n && ((frontier.contains((#[trigger] edges[i]).from) && edges[i].to == c) || (
        frontier.contains(edges[i].to) && edges[i].from == c))
}

proof fn lemma_next(
    edges: Seq<EdgeView>,
    n: int,
    frontier: Set<Seq<char>>,
    visited: Set<Seq<char>>,
)
    requires
        0 <= n <= edges.len(),
    ensures
        next_reasons(edges, n, frontier, visited).dom().finite(),
        forall|c: Seq<char>| #[trigger]
            next_reasons(edges, n, frontier, visited).contains_key(c) <==> !visited.contains(c)
                && is_led_to(edges, n, frontier, c),
    decreases n,
{
    if n > 0 {
        lemma_next(edges, n - 1, frontier, visited);
        let before = next_reasons(edges, n - 1, frontier, visited);
        let now = next_reasons(edges, n, frontier, visited);
        let e = edges[n - 1];
        assert forall|c: Seq<char>| #[trigger]
            now.contains_key(c) <==> !visited.contains(c) && is_led_to(edges, n, frontier, c) by {
            assert(before.contains_key(c) <==> !visited.contains(c) && is_led_to(
                edges,
                n - 1,
                frontier,
                c,
            ));
            if is_led_to(edges, n, frontier, c) {
                let i = choose|i: int|
                    0 <= i < n && ((frontier.contains((#[trigger] edges[i]).from) && edges[i].to
                        == c) || (frontier.contains(edges[i].to) && edges[i].from == c));
                if i < n - 1 {
                    assert(edges[i].from == c || edges[i].to == c);
                    assert(is_led_to(edges, n - 1, frontier, c));
                }
            }
            if is_led_to(edges, n - 1, frontier, c) {
                let i = choose|i: int|
                    0 <= i < n - 1 && ((frontier.contains((#[trigger] edges[i]).from) && edges[i].to
                        == c) || (frontier.contains(edges[i].to) && edges[i].from == c));
                assert(edges[i].from == c || edges[i].to == c);
                assert(is_led_to(edges, n, frontier, c));
            }
            if (frontier.contains(e.from) && e.to == c) || (frontier.contains(e.to) && e.from == c) {
                assert(edges[n - 1] == e);
                assert(is_led_to(edges, n, frontier, c));
            }
        }
    } else {
        assert(next_reasons(edges, n, frontier, visited).dom() =~= Set::empty());
    }
}

proof fn lemma_brought(
    index: IndexView,
    id: Seq<char>,
    optional: bool,
    n: int,
    reasons: Map<Seq<char>, AnchorReasonView>,
)
    requires
        0 <= n <= index.memberships.len(),
        index.strands.contains_key(id),
        reasons.dom().finite(),
    ensures
        with_members(index, id, optional, n, reasons).dom().finite(),
        forall|x: Seq<char>| #[trigger]
            with_members(index, id, optional, n, reasons).contains_key(x) <==> reasons.contains_key(
                x,
            ) || exists|m: int|
                0 <= m < n && (#[trigger] index.memberships[m]).strand == Some(id)
                    && index.memberships[m].member.anchor == x && is_brought(
                    index,
                    id,
                    index.memberships[m].member,
                    optional,
                ),
    decreases n,
{
    if n > 0 {
        lemma_brought(index, id, optional, n - 1, reasons);
        let before = with_members(index, id, optional, n - 1, reasons);
        let now = with_members(index, id, optional, n, reasons);
        let last = index.memberships[n - 1];
        assert forall|x: Seq<char>| #[trigger]
            now.contains_key(x) <==> reasons.contains_key(x) || exists|m: int|
                0 <= m < n && (#[trigger] index.memberships[m]).strand == Some(id)
                    && index.memberships[m].member.anchor == x && is_brought(
                    index,
                    id,
                    index.memberships[m].member,
                    optional,
                ) by {
            assert(before.contains_key(x) <==> reasons.contains_key(x) || exists|m: int|
                0 <= m < n - 1 && (#[trigger] index.memberships[m]).strand == Some(id)
                    && index.memberships[m].member.anchor == x && is_brought(
                    index,
                    id,
                    index.memberships[m].member,
                    optional,
                ));
            if before.contains_key(x) && !reasons.contains_key(x) {
                let m = choose|m: int|
                    0 <= m < n - 1 && (#[trigger] index.memberships[m]).strand == Some(id)
                        && index.memberships[m].member.anchor == x && is_brought(
                        index,
                        id,
                        index.memberships[m].member,
                        optional,
                    );
                assert(index.memberships[m].member.anchor == x);
            }
            if now.contains_key(x) && !before.contains_key(x) {
                assert(index.memberships[n - 1].member.anchor == x);
            }
            if exists|m: int|
                0 <= m < n && (#[trigger] index.memberships[m]).strand == Some(id)
                    && index.memberships[m].member.anchor == x && is_brought(
                    index,
                    id,
                    index.memberships[m].member,
                    optional,
                ) {
                let m = choose|m: int|
                    0 <= m < n && (#[trigger] index.memberships[m]).strand == Some(id)
                        && index.memberships[m].member.anchor == x && is_brought(
                        index,
                        id,
                        index.memberships[m].member,
                        optional,
                    );
                if m < n - 1 {
                    assert(index.memberships[m].member.anchor == x);
                    assert(before.contains_key(x));
                }
            }
        }
    }
}

proof fn lemma_all_brought(
    index: IndexView,
    ids: Seq<Seq<char>>,
    optional: bool,
    n: int,
    reasons: Map<Seq<char>, AnchorReasonView>,
)
    requires
        0 <= n <= ids.len(),
        reasons.dom().finite(),
    ensures
        with_strand_members(index, ids, optional, n, reasons).dom().finite(),
        forall|x: Seq<char>| #[trigger]
            with_strand_members(index, ids, optional, n, reasons).contains_key(x)
                <==> reasons.contains_key(x) || exists|i: int|
                0 <= i < n && brings(index, #[trigger] ids[i], optional, x),
    decreases n,
{
    if n > 0 {
        lemma_all_brought(index, ids, optional, n - 1, reasons);
        let before = with_strand_members(index, ids, optional, n - 1, reasons);
        let now = with_strand_members(index, ids, optional, n, reasons);
        let id = ids[n - 1];
        if index.strands.contains_key(id) {
            lemma_brought(index, id, optional, index.memberships.len() as int, before);
        }
        assert forall|x: Seq<char>| #[trigger]
            now.contains_key(x) <==> reasons.contains_key(x) || exists|i: int|
                0 <= i < n && brings(index, #[trigger] ids[i], optional, x) by {
            assert(before.contains_key(x) <==> reasons.contains_key(x) || exists|i: int|
                0 <= i < n - 1 && brings(index, #[trigger] ids[i], optional, x));
            assert(now.contains_key(x) <==> before.contains_key(x) || brings(
                index,
                id,
                optional,
                x,
            ));
            if before.contains_key(x) && !reasons.contains_key(x) {
                let i = choose|i: int| 0 <= i < n - 1 && brings(index, #[trigger] ids[i], optional, x);
                assert(brings(index, ids[i], optional, x));
            }
            if exists|i: int| 0 <= i < n && brings(index, #[trigger] ids[i], optional, x) {
                let i = choose|i: int| 0 <= i < n && brings(index, #[trigger] ids[i], optional, x);
                if i < n - 1 {
                    assert(brings(index, ids[i], optional, x));
                    assert(before.contains_key(x));
                }
            }
        }
    }
}

/// Whether a strand is met: it carries the tags, and one of its first `n` members is in the
/// frontier.
spec fn is_met(
    index: IndexView,
    frontier: Set<Seq<char>>,
    tags: Set<Seq<char>>,
    n: int,
    s: Seq<char>,
) -> bool {
    carries(index, tags, s) && exists|m: int|
        0 <= m < n && (#[trigger] index.memberships[m]).strand == Some(s) && frontier.contains(
            index.memberships[m].member.anchor,
        )
}

proof fn lemma_met(index: IndexView, frontier: Set<Seq<char>>, tags: Set<Seq<char>>, n: int)
    requires
        0 <= n <= index.memberships.len(),
    ensures
        connected_strands(index, frontier, tags, n).finite(),
        forall|s: Seq<char>| #[trigger]
            connected_strands(index, frontier, tags, n).contains(s) <==> is_met(
                index,
                frontier,
                tags,
                n,
                s,
            ),
    decreases n,
{
    if n > 0 {
        lemma_met(index, frontier, tags, n - 1);
        let before = connected_strands(index, frontier, tags, n - 1);
        let now = connected_strands(index, frontier, tags, n);
        let last = index.memberships[n - 1];
        assert forall|s: Seq<char>| #[trigger] now.contains(s) <==> is_met(
            index,
            frontier,
            tags,
            n,
            s,
        ) by {
            assert(before.contains(s) <==> is_met(index, frontier, tags, n - 1, s));
            assert(crate::graph::is_selected(index, s, tags) <==> carries(index, tags, s));
            if before.contains(s) {
                let m = choose|m: int|
                    0 <= m < n - 1 && (#[trigger] index.memberships[m]).strand == Some(s)
                        && frontier.contains(index.memberships[m].member.anchor);
                assert(index.memberships[m].strand == Some(s));
            }
            if now.contains(s) && !before.contains(s) {
                assert(index.memberships[n - 1].strand == Some(s));
            }
            if is_met(index, frontier, tags, n, s) {
                let m = choose|m: int|
                    0 <= m < n && (#[trigger] index.memberships[m]).strand == Some(s)
                        && frontier.contains(index.memberships[m].member.anchor);
                if m < n - 1 {
                    assert(index.memberships[m].strand == Some(s));
                    assert(is_met(index, frontier, tags, n - 1, s));
                }
            }
        }
    }
}

/// What holds while relations are followed: anchors from which relations are not followed next
/// are linked only with anchors that are reached, and strands that are expanded brought their
/// members along.
pub closed spec fn is_sound(index: IndexView, route: RouteView, st: ReachView) -> bool {
    &&& st.reasons.dom().finite()
    &&& st.active.finite()
    &&& st.expanded.finite()
    &&& forall|a: Seq<char>, b: Seq<char>|
        st.reasons.contains_key(a) && !st.frontier.contains(a) && #[trigger] is_linked(
            route.edges,
            a,
            b,
        ) ==> st.reasons.contains_key(b)
    &&& forall|s: Seq<char>, x: Seq<char>|
        st.expanded.contains(s) && #[trigger] brings(index, s, route.include_optional, x)
            ==> st.reasons.contains_key(x)
}

/// One relation farther, where there is one.
spec fn advance(index: IndexView, route: RouteView, st: ReachView) -> ReachView {
    if next_of(route, st) == Map::<Seq<char>, Seq<char>>::empty() {
        st
    } else {
        reach_step(index, route, st)
    }
}

/// Whether an anchor is one relation away from what is reached.
spec fn is_next(route: RouteView, st: ReachView, b: Seq<char>) -> bool {
    !st.reasons.contains_key(b) && exists|a: Seq<char>|
        st.reasons.contains_key(a) && #[trigger] is_linked(route.edges, a, b)
}

proof fn lemma_next_is_linked(index: IndexView, route: RouteView, st: ReachView)
    requires
        is_sound(index, route, st),
        forall|a: Seq<char>| #[trigger] st.frontier.contains(a) ==> st.reasons.contains_key(a),
    ensures
        forall|b: Seq<char>| #[trigger] next_of(route, st).contains_key(b) <==> is_next(route, st, b),
        next_of(route, st).dom().finite(),
{
    let n = route.edges.len() as int;
    lemma_next(route.edges, n, st.frontier, st.reasons.dom());
    assert forall|b: Seq<char>| #[trigger] next_of(route, st).contains_key(b) <==> is_next(
        route,
        st,
        b,
    ) by {
        if next_of(route, st).contains_key(b) {
            let i = choose|i: int|
                0 <= i < n && ((st.frontier.contains((#[trigger] route.edges[i]).from)
                    && route.edges[i].to == b) || (st.frontier.contains(route.edges[i].to)
                    && route.edges[i].from == b));
            let a = if st.frontier.contains(route.edges[i].from) && route.edges[i].to == b {
                route.edges[i].from
            } else {
                route.edges[i].to
            };
            assert(is_linked(route.edges, a, b));
        }
        if is_next(route, st, b) {
            let a = choose|a: Seq<char>|
                st.reasons.contains_key(a) && #[trigger] is_linked(route.edges, a, b);
            assert(st.frontier.contains(a));
            let i = choose|i: int|
                0 <= i < n && (((#[trigger] route.edges[i]).from == a && route.edges[i].to == b) || (
                route.edges[i].from == b && route.edges[i].to == a));
            assert(is_led_to(route.edges, n, st.frontier, b));
        }
    }
}

/// Whether a strand is met by what is one relation away.
spec fn is_met_next(index: IndexView, route: RouteView, st: ReachView, s: Seq<char>) -> bool {
    carries(index, route.tags, s) && exists|m: int|
        0 <= m < index.memberships.len() && (#[trigger] index.memberships[m]).strand == Some(s)
            && is_next(route, st, index.memberships[m].member.anchor)
}

/// One relation farther reaches what is one relation away, the strands of that and, where the
/// route says so, what these bring along; and nothing else.
proof fn lemma_advance(index: IndexView, route: RouteView, st: ReachView)
    requires
        is_sound(index, route, st),
        forall|a: Seq<char>| #[trigger] st.frontier.contains(a) ==> st.reasons.contains_key(a),
    ensures
        is_sound(index, route, advance(index, route, st)),
        forall|a: Seq<char>| #[trigger]
            advance(index, route, st).frontier.contains(a) ==> advance(
                index,
                route,
                st,
            ).reasons.contains_key(a),
        forall|x: Seq<char>| #[trigger]
            advance(index, route, st).reasons.contains_key(x) <==> st.reasons.contains_key(x)
                || is_next(route, st, x) || (route.expands && exists|s: Seq<char>|
                is_met_next(index, route, st, s) && #[trigger] brings(
                    index,
                    s,
                    route.include_optional,
                    x,
                )),
        forall|s: Seq<char>| #[trigger]
            advance(index, route, st).active.contains(s) <==> st.active.contains(s) || is_met_next(
                index,
                route,
                st,
                s,
            ),
        forall|s: Seq<char>| #[trigger]
            advance(index, route, st).expanded.contains(s) <==> st.expanded.contains(s) || (
            route.expands && is_met_next(index, route, st, s)),
{
    let next = next_of(route, st);
    lemma_next_is_linked(index, route, st);
    let after = advance(index, route, st);
    let count = index.memberships.len() as int;
    if next == Map::<Seq<char>, Seq<char>>::empty() {
        assert forall|x: Seq<char>| !is_next(route, st, x) by {
            assert(!next.contains_key(x));
        }
    } else {
        let more = related_reasons(next);
        let added = st.reasons.union_prefer_right(more);
        assert(more.dom() =~= next.dom());
        assert(added.dom() =~= st.reasons.dom().union(next.dom()));
        let met = connected_strands(index, next.dom(), route.tags, count);
        lemma_met(index, next.dom(), route.tags, count);
        assert forall|s: Seq<char>| #[trigger] met.contains(s) <==> is_met_next(
            index,
            route,
            st,
            s,
        ) by {
            if met.contains(s) {
                let m = choose|m: int|
                    0 <= m < count && (#[trigger] index.memberships[m]).strand == Some(s)
                        && next.dom().contains(index.memberships[m].member.anchor);
                assert(next.contains_key(index.memberships[m].member.anchor));
            }
            if is_met_next(index, route, st, s) {
                let m = choose|m: int|
                    0 <= m < count && (#[trigger] index.memberships[m]).strand == Some(s)
                        && is_next(route, st, index.memberships[m].member.anchor);
                assert(next.contains_key(index.memberships[m].member.anchor));
                assert(is_met(index, next.dom(), route.tags, count, s));
            }
        }
        lemma_orderable(met);
        let ids = ordered(met);
        lemma_all_brought(index, ids, route.include_optional, ids.len() as int, added);
        assert forall|x: Seq<char>| #[trigger]
            after.reasons.contains_key(x) <==> st.reasons.contains_key(x) || is_next(route, st, x)
                || (route.expands && exists|s: Seq<char>|
                is_met_next(index, route, st, s) && #[trigger] brings(
                    index,
                    s,
                    route.include_optional,
                    x,
                )) by {
            assert(added.contains_key(x) <==> st.reasons.contains_key(x) || next.contains_key(x));
            assert(next.contains_key(x) <==> is_next(route, st, x));
            if route.expands {
                if exists|i: int|
                    0 <= i < ids.len() && brings(
                        index,
                        #[trigger] ids[i],
                        route.include_optional,
                        x,
                    ) {
                    let i = choose|i: int|
                        0 <= i < ids.len() && brings(
                            index,
                            #[trigger] ids[i],
                            route.include_optional,
                            x,
                        );
                    assert(ids.to_set().contains(ids[i]));
                    assert(is_met_next(index, route, st, ids[i]));
                }
                if exists|s: Seq<char>|
                    is_met_next(index, route, st, s) && #[trigger] brings(
                        index,
                        s,
                        route.include_optional,
                        x,
                    ) {
                    let s = choose|s: Seq<char>|
                        is_met_next(index, route, st, s) && #[trigger] brings(
                            index,
                            s,
                            route.include_optional,
                            x,
                        );
                    assert(met.contains(s));
                    assert(ids.to_set().contains(s));
                    let i = ids.index_of(s);
                    assert(brings(index, ids[i], route.include_optional, x));
                }
            }
        }
        assert forall|a: Seq<char>, b: Seq<char>|
            after.reasons.contains_key(a) && !after.frontier.contains(a) && #[trigger] is_linked(
                route.edges,
                a,
                b,
            ) implies after.reasons.contains_key(b) by {
            assert(st.reasons.contains_key(a));
            if !st.reasons.contains_key(b) {
                assert(is_next(route, st, b));
            }
        }
        assert forall|s: Seq<char>, x: Seq<char>|
            after.expanded.contains(s) && #[trigger] brings(index, s, route.include_optional, x)
            implies after.reasons.contains_key(x) by {
            if !st.expanded.contains(s) {
                assert(met.contains(s));
                assert(is_met_next(index, route, st, s));
            } else {
                assert(st.reasons.contains_key(x));
            }
        }
    }
}

proof fn lemma_one_farther(index: IndexView, route: RouteView, st: ReachView, depth: nat)
    ensures
        reach(index, route, st, depth + 1) == advance(
            index,
            route,
            reach(index, route, st, depth),
        ),
    decreases depth,
{
    if next_of(route, st) != Map::<Seq<char>, Seq<char>>::empty() {
        let after = reach_step(index, route, st);
        if depth == 0 {
            assert(reach(index, route, after, 0) == after);
        } else {
            lemma_one_farther(index, route, after, (depth - 1) as nat);
            assert(reach(index, route, st, depth) == reach(
                index,
                route,
                after,
                (depth - 1) as nat,
            ));
            assert(reach(index, route, st, depth + 1) == reach(index, route, after, depth));
        }
    }
}

proof fn lemma_stays_sound(index: IndexView, route: RouteView, st: ReachView, depth: nat)
    requires
        is_sound(index, route, st),
        forall|a: Seq<char>| #[trigger] st.frontier.contains(a) ==> st.reasons.contains_key(a),
    ensures
        is_sound(index, route, reach(index, route, st, depth)),
        forall|a: Seq<char>| #[trigger]
            reach(index, route, st, depth).frontier.contains(a) ==> reach(
                index,
                route,
                st,
                depth,
            ).reasons.contains_key(a),
        route.expands && st.active.subset_of(st.expanded) ==> reach(
            index,
            route,
            st,
            depth,
        ).active.subset_of(reach(index, route, st, depth).expanded),
    decreases depth,
{
    if depth > 0 {
        let less = (depth - 1) as nat;
        lemma_stays_sound(index, route, st, less);
        let before = reach(index, route, st, less);
        lemma_one_farther(index, route, st, less);
        lemma_advance(index, route, before);
        let after = reach(index, route, st, depth);
        if route.expands && st.active.subset_of(st.expanded) {
            assert forall|s: Seq<char>| #[trigger] after.active.contains(s) implies
                after.expanded.contains(s) by {
                if before.active.contains(s) {
                    assert(before.expanded.contains(s));
                }
            }
        }
    }
}

/// Options with a depth.
pub open spec fn within(options: AffectedOptionsView, depth: usize) -> AffectedOptionsView {
    AffectedOptionsView { depth: Some(depth), ..options }
}

spec fn start_of_change(
    index: IndexView,
    config: ConfigView,
    options: AffectedOptionsView,
    e: EvidenceView,
) -> ReachView {
    reach_start(
        index,
        e,
        touched_strands(index, e, options.tags),
        reaches_optional(options, config),
    )
}

proof fn lemma_start_of_change(
    index: IndexView,
    changes: ChangeSetView,
    parsed: Map<Seq<char>, ParsedMetadataView>,
    config: ConfigView,
    options: AffectedOptionsView,
)
    ensures
        ({
            let e = direct_evidence(index, changes, parsed, config.annotations);
            let st = start_of_change(index, config, options, e);
            let route = affected_route(index, config, options, e);
            &&& is_sound(index, route, st)
            &&& st.frontier == st.reasons.dom()
            &&& st.active == st.expanded
            &&& st.active == touched_strands(index, e, options.tags)
            &&& e.reasons.dom().finite()
        }),
{
    let e = direct_evidence(index, changes, parsed, config.annotations);
    let st = start_of_change(index, config, options, e);
    let direct = touched_strands(index, e, options.tags);
    lemma_evidence_is_finite(index, changes, parsed, config.annotations);
    let all = with_strands_of(index, e.reasons.dom(), e.seeds, index.memberships.len() as int);
    lemma_with_strands_of(index, e.reasons.dom(), e.seeds, index.memberships.len() as int);
    assert(direct.subset_of(all));
    vstd::set_lib::lemma_set_subset_finite(all, direct);
    lemma_orderable(direct);
    let ids = ordered(direct);
    let optional = reaches_optional(options, config);
    lemma_all_brought(index, ids, optional, ids.len() as int, e.reasons);
    assert forall|s: Seq<char>, x: Seq<char>|
        st.expanded.contains(s) && #[trigger] brings(index, s, optional, x) implies
        st.reasons.contains_key(x) by {
        assert(ids.to_set().contains(s));
        let i = ids.index_of(s);
        assert(brings(index, ids[i], optional, x));
    }
}

/// What is listed tells what is reached.
proof fn lemma_listed(
    index: IndexView,
    l: ListingView,
    active: Set<Seq<char>>,
    packet: ContextPacketView,
)
    requires
        active.finite(),
        l.reasons.dom().finite(),
        packet.strands == listed_strands(index, l, ordered(active), ordered(active).len() as int),
        packet.related_anchors == related_of(index, l, packet.strands),
    ensures
        forall|s: Seq<char>| #[trigger]
            lists_strand(packet, s) <==> active.contains(s) && known_strand(index, l, s) is Some,
        forall|x: Seq<char>| l.reasons.contains_key(x) ==> #[trigger] names(packet, x),
        forall|k: int|
            0 <= k < packet.related_anchors.len() ==> l.reasons.contains_key(
                (#[trigger] packet.related_anchors[k]).id,
            ),
        forall|i: int|
            0 <= i < packet.strands.len() ==> {
                let s = (#[trigger] packet.strands[i]).id;
                &&& active.contains(s)
                &&& known_strand(index, l, s) is Some
                &&& packet.strands[i] == listed_strand(index, l, s, known_strand(index, l, s)->0)
            },
{
    lemma_orderable(active);
    lemma_orderable(l.reasons.dom());
    let ids = ordered(active);
    let n = ids.len() as int;
    assert forall|i: int| 0 <= i < packet.strands.len() implies {
        let s = (#[trigger] packet.strands[i]).id;
        &&& active.contains(s)
        &&& known_strand(index, l, s) is Some
        &&& packet.strands[i] == listed_strand(index, l, s, known_strand(index, l, s)->0)
    } by {
        let k = lemma_listed_at(index, l, ids, n, i);
        assert(ids.to_set().contains(ids[k]));
    }
    assert forall|s: Seq<char>| #[trigger]
        lists_strand(packet, s) <==> active.contains(s) && known_strand(index, l, s) is Some by {
        if active.contains(s) && known_strand(index, l, s) is Some {
            assert(ids.to_set().contains(s));
            let k = ids.index_of(s);
            lemma_strand_is_listed(index, l, ids, n, k);
            let i = choose|i: int|
                0 <= i < packet.strands.len() && #[trigger] packet.strands[i] == listed_strand(
                    index,
                    l,
                    s,
                    known_strand(index, l, s)->0,
                );
            assert(packet.strands[i].id == s);
        }
    }
    assert forall|x: Seq<char>| l.reasons.contains_key(x) implies #[trigger] names(packet, x) by {
        lemma_listing_is_complete(index, l, ids, packet, x);
    }
    assert forall|k: int| 0 <= k < packet.related_anchors.len() implies l.reasons.contains_key(
        (#[trigger] packet.related_anchors[k]).id,
    ) by {
        let keys = ordered(l.reasons.dom());
        let shown = crate::graph::represented_ids(packet.strands, packet.strands.len() as int);
        lemma_related_at(index, l.removed_anchors, l.reasons, shown, keys.len() as int, k);
        let j = choose|j: int|
            0 <= j < keys.len() && ({
                let id = #[trigger] keys[j];
                let a = packet.related_anchors[k];
                a.id == id && a.direct == l.reasons[id].direct
            });
        assert(keys.to_set().contains(keys[j]));
    }
}

spec fn related_of(
    index: IndexView,
    l: ListingView,
    strands: Seq<crate::model::AffectedStrandView>,
) -> Seq<AffectedAnchorView> {
    crate::graph::related_list(
        index,
        l.removed_anchors,
        l.reasons,
        crate::graph::represented_ids(strands, strands.len() as int),
        ordered(l.reasons.dom()).len() as int,
    )
}

/// Whether the context of a change reaches an anchor, so that relations are followed from it:
/// it stands on its own, or a strand of the index that is listed brings it along.
pub open spec fn is_reached(
    index: IndexView,
    config: ConfigView,
    options: AffectedOptionsView,
    packet: ContextPacketView,
    id: Seq<char>,
) -> bool {
    ||| exists|k: int|
        0 <= k < packet.related_anchors.len() && (#[trigger] packet.related_anchors[k]).id == id
    ||| exists|i: int|
        0 <= i < packet.strands.len() && brings(
            index,
            (#[trigger] packet.strands[i]).id,
            asks_for_optional(config, options),
            id,
        )
}

/// All about what a change reaches within a depth.
pub(crate) proof fn lemma_change(
    index: IndexView,
    changes: ChangeSetView,
    parsed: Map<Seq<char>, ParsedMetadataView>,
    config: ConfigView,
    options: AffectedOptionsView,
)
    ensures
        ({
            let e = direct_evidence(index, changes, parsed, config.annotations);
            let route = affected_route(index, config, options, e);
            let st = affected_reach(index, config, options, e);
            let l = affected_listing(index, config, options, e);
            let packet = affected_packet(index, changes, parsed, config, options);
            &&& is_sound(index, route, st)
            &&& forall|a: Seq<char>| #[trigger]
                st.frontier.contains(a) ==> st.reasons.contains_key(a)
            &&& st.active.subset_of(st.expanded)
            &&& forall|s: Seq<char>| #[trigger]
                lists_strand(packet, s) <==> st.active.contains(s) && known_strand(index, l, s)
                    is Some
            &&& forall|x: Seq<char>| st.reasons.contains_key(x) ==> #[trigger] names(packet, x)
            &&& forall|x: Seq<char>| #[trigger]
                is_reached(index, config, options, packet, x) ==> st.reasons.contains_key(x)
            &&& forall|i: int|
                0 <= i < packet.strands.len() ==> {
                    let s = (#[trigger] packet.strands[i]).id;
                    &&& st.active.contains(s)
                    &&& known_strand(index, l, s) is Some
                    &&& packet.strands[i] == listed_strand(
                        index,
                        l,
                        s,
                        known_strand(index, l, s)->0,
                    )
                }
        }),
{
    let e = direct_evidence(index, changes, parsed, config.annotations);
    let route = affected_route(index, config, options, e);
    let start = start_of_change(index, config, options, e);
    let st = affected_reach(index, config, options, e);
    let l = affected_listing(index, config, options, e);
    let packet = affected_packet(index, changes, parsed, config, options);
    let depth = affected_depth(
        index,
        config,
        options,
        touched_strands(index, e, options.tags),
    ) as nat;
    lemma_start_of_change(index, changes, parsed, config, options);
    lemma_stays_sound(index, route, start, depth);
    assert(st == reach(index, route, start, depth));
    lemma_listed(index, l, st.active, packet);
    assert forall|x: Seq<char>| #[trigger] is_reached(index, config, options, packet, x) implies
        st.reasons.contains_key(x) by {
        if exists|i: int|
            0 <= i < packet.strands.len() && brings(
                index,
                (#[trigger] packet.strands[i]).id,
                asks_for_optional(config, options),
                x,
            ) {
            let i = choose|i: int|
                0 <= i < packet.strands.len() && brings(
                    index,
                    (#[trigger] packet.strands[i]).id,
                    asks_for_optional(config, options),
                    x,
                );
            assert(st.expanded.contains(packet.strands[i].id));
        }
    }
}

/// The first relations of the index that a change follows.
spec fn edges_of(
    index: IndexView,
    config: ConfigView,
    options: AffectedOptionsView,
    n: int,
) -> Seq<EdgeView> {
    followed_edges(
        index,
        crate::graph::followed_kinds(options, config),
        options.relations == Set::<Seq<char>>::empty(),
        n,
    )
}

/// Whether one of the first relations of the index that a change follows is the given one.
spec fn is_edge_of(
    index: IndexView,
    config: ConfigView,
    options: AffectedOptionsView,
    n: int,
    edge: EdgeView,
) -> bool {
    exists|i: int|
        0 <= i < n && is_followed(index, config, options, #[trigger] index.relations[i]) && edge
            == crate::graph::edge_of(index.relations[i].relation)
}

proof fn lemma_followed_edges(
    index: IndexView,
    config: ConfigView,
    options: AffectedOptionsView,
    n: int,
)
    requires
        0 <= n <= index.relations.len(),
    ensures
        forall|edge: EdgeView| #[trigger]
            edges_of(index, config, options, n).contains(edge) <==> is_edge_of(
                index,
                config,
                options,
                n,
                edge,
            ),
    decreases n,
{
    let filter = crate::graph::followed_kinds(options, config);
    let policy = options.relations == Set::<Seq<char>>::empty();
    let edges = edges_of(index, config, options, n);
    if n > 0 {
        lemma_followed_edges(index, config, options, n - 1);
        let before = edges_of(index, config, options, n - 1);
        let last = index.relations[n - 1];
        assert(crate::graph::is_relation_followed(index, last, filter, policy) <==> is_followed(
            index,
            config,
            options,
            last,
        ));
        assert forall|edge: EdgeView| #[trigger] edges.contains(edge) <==> is_edge_of(
            index,
            config,
            options,
            n,
            edge,
        ) by {
            assert(before.contains(edge) <==> is_edge_of(index, config, options, n - 1, edge));
            if before.contains(edge) {
                let k = before.index_of(edge);
                assert(edges[k] == edge);
                let i = choose|i: int|
                    0 <= i < n - 1 && is_followed(
                        index,
                        config,
                        options,
                        #[trigger] index.relations[i],
                    ) && edge == crate::graph::edge_of(index.relations[i].relation);
                assert(is_followed(index, config, options, index.relations[i]));
                assert(is_edge_of(index, config, options, n, edge));
            } else if edges.contains(edge) {
                let k = edges.index_of(edge);
                if k < before.len() {
                    assert(before[k] == edge);
                }
                assert(is_followed(index, config, options, index.relations[n - 1]));
                assert(is_edge_of(index, config, options, n, edge));
            } else if is_edge_of(index, config, options, n, edge) {
                let i = choose|i: int|
                    0 <= i < n && is_followed(index, config, options, #[trigger] index.relations[i])
                        && edge == crate::graph::edge_of(index.relations[i].relation);
                if i < n - 1 {
                    assert(is_edge_of(index, config, options, n - 1, edge));
                } else {
                    assert(edges[edges.len() - 1] == edge);
                }
            }
        }
    }
}

proof fn lemma_removed_edges(
    relations: Seq<RelationView>,
    config: ConfigView,
    options: AffectedOptionsView,
    n: int,
)
    requires
        0 <= n <= relations.len(),
    ensures
        ({
            let edges = followed_removed(
                relations,
                crate::graph::followed_kinds(options, config),
                n,
            );
            forall|k: int|
                0 <= k < edges.len() ==> exists|i: int|
                    0 <= i < n && #[trigger] edges[k] == crate::graph::edge_of(#[trigger] relations[i])
        }),
    decreases n,
{
    let filter = crate::graph::followed_kinds(options, config);
    let edges = followed_removed(relations, filter, n);
    if n > 0 {
        lemma_removed_edges(relations, config, options, n - 1);
        let before = followed_removed(relations, filter, n - 1);
        assert forall|k: int| 0 <= k < edges.len() implies exists|i: int|
            0 <= i < n && #[trigger] edges[k] == crate::graph::edge_of(#[trigger] relations[i]) by {
            if k < before.len() {
                assert(edges[k] == before[k]);
                let i = choose|i: int|
                    0 <= i < n - 1 && before[k] == crate::graph::edge_of(#[trigger] relations[i]);
                assert(before[k] == crate::graph::edge_of(relations[i]));
            } else {
                assert(edges[k] == crate::graph::edge_of(relations[n - 1]));
            }
        }
    }
}

/// Whether a change leads from one anchor to another: along a relation of the index that it
/// follows, or along one that it takes away.
pub open spec fn change_leads(
    index: IndexView,
    changes: ChangeSetView,
    parsed: Map<Seq<char>, ParsedMetadataView>,
    config: ConfigView,
    options: AffectedOptionsView,
    a: Seq<char>,
    b: Seq<char>,
) -> bool {
    ||| exists|i: int|
        0 <= i < index.relations.len() && is_followed(
            index,
            config,
            options,
            #[trigger] index.relations[i],
        ) && joins(index.relations[i].relation, a, b)
    ||| exists|i: int|
        0 <= i < direct_evidence(
            index,
            changes,
            parsed,
            config.annotations,
        ).removed_relations.len() && joins(
            #[trigger] direct_evidence(
                index,
                changes,
                parsed,
                config.annotations,
            ).removed_relations[i],
            a,
            b,
        )
}

proof fn lemma_change_links(
    index: IndexView,
    changes: ChangeSetView,
    parsed: Map<Seq<char>, ParsedMetadataView>,
    config: ConfigView,
    options: AffectedOptionsView,
    a: Seq<char>,
    b: Seq<char>,
)
    ensures
        ({
            let e = direct_evidence(index, changes, parsed, config.annotations);
            let edges = affected_route(index, config, options, e).edges;
            &&& (exists|i: int|
                0 <= i < index.relations.len() && is_followed(
                    index,
                    config,
                    options,
                    #[trigger] index.relations[i],
                ) && joins(index.relations[i].relation, a, b)) ==> is_linked(edges, a, b)
            &&& is_linked(edges, a, b) ==> change_leads(
                index,
                changes,
                parsed,
                config,
                options,
                a,
                b,
            )
        }),
{
    let e = direct_evidence(index, changes, parsed, config.annotations);
    let filter = crate::graph::followed_kinds(options, config);
    let n = index.relations.len() as int;
    let own = edges_of(index, config, options, n);
    let gone = followed_removed(e.removed_relations, filter, e.removed_relations.len() as int);
    let edges = affected_route(index, config, options, e).edges;
    assert(edges == own + gone);
    lemma_followed_edges(index, config, options, n);
    lemma_removed_edges(e.removed_relations, config, options, e.removed_relations.len() as int);
    if exists|i: int|
        0 <= i < n && is_followed(index, config, options, #[trigger] index.relations[i]) && joins(
            index.relations[i].relation,
            a,
            b,
        ) {
        let i = choose|i: int|
            0 <= i < n && is_followed(index, config, options, #[trigger] index.relations[i])
                && joins(index.relations[i].relation, a, b);
        let edge = crate::graph::edge_of(index.relations[i].relation);
        assert(is_edge_of(index, config, options, n, edge));
        assert(own.contains(edge));
        let k = own.index_of(edge);
        assert(edges[k] == edge);
    }
    if is_linked(edges, a, b) {
        let k = choose|k: int|
            0 <= k < edges.len() && (((#[trigger] edges[k]).from == a && edges[k].to == b) || (
            edges[k].from == b && edges[k].to == a));
        if k < own.len() {
            assert(edges[k] == own[k]);
            assert(own.contains(own[k]));
            let i = choose|i: int|
                0 <= i < n && is_followed(index, config, options, #[trigger] index.relations[i])
                    && own[k] == crate::graph::edge_of(index.relations[i].relation);
            assert(joins(index.relations[i].relation, a, b));
        } else {
            let j = k - own.len();
            assert(edges[k] == gone[j]);
            let i = choose|i: int|
                0 <= i < e.removed_relations.len() && gone[j] == crate::graph::edge_of(
                    #[trigger] e.removed_relations[i],
                );
            assert(joins(e.removed_relations[i], a, b));
        }
    }
}

/// The context of a change within one relation more, told by that within one less.
proof fn lemma_change_advances(
    index: IndexView,
    changes: ChangeSetView,
    parsed: Map<Seq<char>, ParsedMetadataView>,
    config: ConfigView,
    options: AffectedOptionsView,
    depth: usize,
)
    requires
        depth < usize::MAX,
    ensures
        ({
            let e = direct_evidence(index, changes, parsed, config.annotations);
            let route = affected_route(index, config, options, e);
            let more = (depth + 1) as usize;
            let near = affected_reach(index, config, within(options, depth), e);
            let far = affected_reach(index, config, within(options, more), e);
            &&& far == advance(index, route, near)
            &&& affected_route(index, config, within(options, depth), e) == route
            &&& affected_route(index, config, within(options, more), e) == route
        }),
{
    let e = direct_evidence(index, changes, parsed, config.annotations);
    let route = affected_route(index, config, options, e);
    let start = start_of_change(index, config, options, e);
    lemma_one_farther(index, route, start, depth as nat);
}

/// One relation more leads one step farther: what a followed relation joins with an anchor that
/// a context reaches, the context within one relation more names.
pub proof fn one_more_relation_leads_one_step_farther(
    index: IndexView,
    changes: ChangeSetView,
    parsed: Map<Seq<char>, ParsedMetadataView>,
    config: ConfigView,
    options: AffectedOptionsView,
    depth: usize,
    i: int,
    a: Seq<char>,
    b: Seq<char>,
)
    requires
        depth < usize::MAX,
        0 <= i < index.relations.len(),
        is_followed(index, config, options, index.relations[i]),
        joins(index.relations[i].relation, a, b),
        is_reached(
            index,
            config,
            options,
            affected_packet(index, changes, parsed, config, within(options, depth)),
            a,
        ),
    ensures
        names(
            affected_packet(index, changes, parsed, config, within(options, (depth + 1) as usize)),
            b,
        ),
{
    let e = direct_evidence(index, changes, parsed, config.annotations);
    let route = affected_route(index, config, options, e);
    let near = within(options, depth);
    let far = within(options, (depth + 1) as usize);
    let packet = affected_packet(index, changes, parsed, config, near);
    lemma_change(index, changes, parsed, config, near);
    lemma_change(index, changes, parsed, config, far);
    lemma_change_advances(index, changes, parsed, config, options, depth);
    let st = affected_reach(index, config, near, e);
    assert(is_reached(index, config, near, packet, a));
    lemma_advance(index, route, st);
    lemma_change_links(index, changes, parsed, config, options, a, b);
    assert(is_linked(route.edges, a, b));
    if !st.reasons.contains_key(b) {
        assert(is_next(route, st, b));
    }
    assert(advance(index, route, st).reasons.contains_key(b));
}

/// Whether a listed strand names an anchor with a role.
pub open spec fn has_member(
    strand: crate::model::AffectedStrandView,
    id: Seq<char>,
    role: Option<Seq<char>>,
) -> bool {
    exists|j: int|
        0 <= j < strand.anchors.len() && (#[trigger] strand.anchors[j]).id == id
            && strand.anchors[j].role == role
}

proof fn lemma_dedup_keeps(anchors: Seq<AffectedAnchorView>, k: int)
    requires
        0 <= k < anchors.len(),
    ensures
        exists|j: int|
            0 <= j < dedup_anchors(anchors).len() && (#[trigger] dedup_anchors(anchors)[j]).id
                == anchors[k].id && dedup_anchors(anchors)[j].role == anchors[k].role,
    decreases anchors.len(),
{
    let before = dedup_anchors(anchors.drop_last());
    let now = dedup_anchors(anchors);
    if k < anchors.len() - 1 {
        lemma_dedup_keeps(anchors.drop_last(), k);
        let j = choose|j: int|
            0 <= j < before.len() && (#[trigger] before[j]).id == anchors.drop_last()[k].id
                && before[j].role == anchors.drop_last()[k].role;
        assert(now[j] == before[j]);
    } else {
        assert(now[now.len() - 1].id == anchors[k].id);
    }
}

proof fn lemma_current(
    index: IndexView,
    l: ListingView,
    s: Seq<char>,
    strand: StrandView,
    n: int,
    m: int,
)
    requires
        0 <= m < n <= index.memberships.len(),
        index.memberships[m].strand == Some(s),
        crate::graph::is_listed(l, s, strand, index.memberships[m].member),
    ensures
        exists|k: int|
            0 <= k < current_members(index, l, s, strand, n).len() && (#[trigger] current_members(
                index,
                l,
                s,
                strand,
                n,
            )[k]).id == index.memberships[m].member.anchor && current_members(
                index,
                l,
                s,
                strand,
                n,
            )[k].role == index.memberships[m].member.role,
    decreases n,
{
    let now = current_members(index, l, s, strand, n);
    let before = current_members(index, l, s, strand, n - 1);
    let member = index.memberships[m].member;
    if m < n - 1 {
        lemma_current(index, l, s, strand, n - 1, m);
        let k = choose|k: int|
            0 <= k < before.len() && (#[trigger] before[k]).id == member.anchor && before[k].role
                == member.role;
        assert(now[k] == before[k]);
    } else {
        assert(now[now.len() - 1].id == member.anchor);
    }
}

proof fn lemma_member_is_listed(
    index: IndexView,
    l: ListingView,
    s: Seq<char>,
    strand: StrandView,
    m: int,
)
    requires
        0 <= m < index.memberships.len(),
        index.memberships[m].strand == Some(s),
        crate::graph::is_listed(l, s, strand, index.memberships[m].member),
    ensures
        has_member(
            listed_strand(index, l, s, strand),
            index.memberships[m].member.anchor,
            index.memberships[m].member.role,
        ),
{
    let n = index.memberships.len() as int;
    let member = index.memberships[m].member;
    let current = current_members(index, l, s, strand, n);
    let all = current + former_members(index, l, s, strand, l.removed_members.len() as int);
    lemma_current(index, l, s, strand, n, m);
    let k = choose|k: int|
        0 <= k < current.len() && (#[trigger] current[k]).id == member.anchor && current[k].role
            == member.role;
    assert(all[k] == current[k]);
    assert(all.contains(all[k]));
    lemma_sort_anchors_contains(all, all[k]);
    let sorted = sort_anchors(all);
    let at = sorted.index_of(all[k]);
    lemma_dedup_keeps(sorted, at);
    let j = choose|j: int|
        0 <= j < dedup_anchors(sorted).len() && (#[trigger] dedup_anchors(sorted)[j]).id
            == sorted[at].id && dedup_anchors(sorted)[j].role == sorted[at].role;
    assert(listed_strand(index, l, s, strand).anchors[j].id == member.anchor);
}

/// Every strand of the index that the context of a change lists is listed with its intent and
/// with every member that it brings along, each with its role.
pub proof fn listed_strands_are_complete(
    index: IndexView,
    changes: ChangeSetView,
    parsed: Map<Seq<char>, ParsedMetadataView>,
    config: ConfigView,
    options: AffectedOptionsView,
    i: int,
    m: int,
)
    requires
        0 <= i < affected_packet(index, changes, parsed, config, options).strands.len(),
        0 <= m < index.memberships.len(),
        index.memberships[m].strand == Some(
            affected_packet(index, changes, parsed, config, options).strands[i].id,
        ),
        is_brought(
            index,
            affected_packet(index, changes, parsed, config, options).strands[i].id,
            index.memberships[m].member,
            asks_for_optional(config, options),
        ),
    ensures
        ({
            let strand = affected_packet(index, changes, parsed, config, options).strands[i];
            &&& strand.intent == index.strands[strand.id].value.intent
            &&& has_member(
                strand,
                index.memberships[m].member.anchor,
                index.memberships[m].member.role,
            )
        }),
{
    let e = direct_evidence(index, changes, parsed, config.annotations);
    let packet = affected_packet(index, changes, parsed, config, options);
    let l = affected_listing(index, config, options, e);
    lemma_change(index, changes, parsed, config, options);
    let s = packet.strands[i].id;
    let strand = known_strand(index, l, s)->0;
    assert(strand == index.strands[s].value);
    lemma_member_is_listed(index, l, s, strand, m);
}

/// An anchor that a change reaches through a relation brings its strands: every strand that
/// carries the tags and has it as a member is listed, with every member that the strand brings
/// along.
pub proof fn strands_of_reached_anchors_are_listed(
    index: IndexView,
    changes: ChangeSetView,
    parsed: Map<Seq<char>, ParsedMetadataView>,
    config: ConfigView,
    options: AffectedOptionsView,
    depth: usize,
    i: int,
    a: Seq<char>,
    m: int,
    s: Seq<char>,
    other: int,
)
    requires
        depth < usize::MAX,
        0 <= i < index.relations.len(),
        is_followed(index, config, options, index.relations[i]),
        0 <= m < index.memberships.len(),
        index.memberships[m].strand == Some(s),
        joins(index.relations[i].relation, a, index.memberships[m].member.anchor),
        is_reached(
            index,
            config,
            options,
            affected_packet(index, changes, parsed, config, within(options, depth)),
            a,
        ),
        !names(
            affected_packet(index, changes, parsed, config, within(options, depth)),
            index.memberships[m].member.anchor,
        ),
        index.strands.contains_key(s),
        carries(index, options.tags, s),
        0 <= other < index.memberships.len(),
        index.memberships[other].strand == Some(s),
        is_brought(
            index,
            s,
            index.memberships[other].member,
            asks_for_optional(config, options),
        ),
    ensures
        ({
            let packet = affected_packet(
                index,
                changes,
                parsed,
                config,
                within(options, (depth + 1) as usize),
            );
            exists|k: int|
                0 <= k < packet.strands.len() && (#[trigger] packet.strands[k]).id == s
                    && has_member(
                    packet.strands[k],
                    index.memberships[other].member.anchor,
                    index.memberships[other].member.role,
                )
        }),
{
    let e = direct_evidence(index, changes, parsed, config.annotations);
    let route = affected_route(index, config, options, e);
    let near = within(options, depth);
    let far = within(options, (depth + 1) as usize);
    let b = index.memberships[m].member.anchor;
    lemma_change(index, changes, parsed, config, near);
    lemma_change(index, changes, parsed, config, far);
    lemma_change_advances(index, changes, parsed, config, options, depth);
    let st = affected_reach(index, config, near, e);
    let before = affected_packet(index, changes, parsed, config, near);
    let packet = affected_packet(index, changes, parsed, config, far);
    assert(is_reached(index, config, near, before, a));
    lemma_advance(index, route, st);
    lemma_change_links(index, changes, parsed, config, options, a, b);
    assert(is_linked(route.edges, a, b));
    assert(!st.reasons.contains_key(b));
    assert(is_next(route, st, b));
    assert(is_met_next(index, route, st, s));
    assert(advance(index, route, st).active.contains(s));
    assert(lists_strand(packet, s));
    let k = choose|k: int| 0 <= k < packet.strands.len() && (#[trigger] packet.strands[k]).id == s;
    listed_strands_are_complete(index, changes, parsed, config, far, k, other);
}

/// A change reaches no strand without a reason: a strand that only one relation more lists
/// carries the tags, and one of its members is joined with an anchor that the context within
/// one relation less names, by a relation that the change follows or takes away.
pub proof fn strands_are_reached_through_relations(
    index: IndexView,
    changes: ChangeSetView,
    parsed: Map<Seq<char>, ParsedMetadataView>,
    config: ConfigView,
    options: AffectedOptionsView,
    depth: usize,
    s: Seq<char>,
)
    requires
        depth < usize::MAX,
        lists_strand(
            affected_packet(index, changes, parsed, config, within(options, (depth + 1) as usize)),
            s,
        ),
        !lists_strand(
            affected_packet(index, changes, parsed, config, within(options, depth)),
            s,
        ),
    ensures
        carries(index, options.tags, s),
        exists|a: Seq<char>, m: int|
            0 <= m < index.memberships.len() && (#[trigger] index.memberships[m]).strand == Some(s)
                && #[trigger] names(
                affected_packet(index, changes, parsed, config, within(options, depth)),
                a,
            ) && change_leads(
                index,
                changes,
                parsed,
                config,
                options,
                a,
                index.memberships[m].member.anchor,
            ),
{
    let e = direct_evidence(index, changes, parsed, config.annotations);
    let route = affected_route(index, config, options, e);
    let near = within(options, depth);
    let far = within(options, (depth + 1) as usize);
    lemma_change(index, changes, parsed, config, near);
    lemma_change(index, changes, parsed, config, far);
    lemma_change_advances(index, changes, parsed, config, options, depth);
    let st = affected_reach(index, config, near, e);
    lemma_advance(index, route, st);
    let l = affected_listing(index, config, near, e);
    let k = affected_listing(index, config, far, e);
    assert(known_strand(index, l, s) == known_strand(index, k, s));
    assert(is_met_next(index, route, st, s));
    let m = choose|m: int|
        0 <= m < index.memberships.len() && (#[trigger] index.memberships[m]).strand == Some(s)
            && is_next(route, st, index.memberships[m].member.anchor);
    let b = index.memberships[m].member.anchor;
    let a = choose|a: Seq<char>|
        st.reasons.contains_key(a) && #[trigger] is_linked(route.edges, a, b);
    lemma_change_links(index, changes, parsed, config, options, a, b);
    assert(names(affected_packet(index, changes, parsed, config, near), a));
    assert(index.memberships[m].strand == Some(s));
}

/// A change reaches no anchor without a reason: an anchor that only one relation more names is
/// joined with one that the context within one relation less names, by a relation that the
/// change follows or takes away, or is listed in a strand that only one relation more lists.
pub proof fn anchors_are_reached_through_relations(
    index: IndexView,
    changes: ChangeSetView,
    parsed: Map<Seq<char>, ParsedMetadataView>,
    config: ConfigView,
    options: AffectedOptionsView,
    depth: usize,
    x: Seq<char>,
)
    requires
        depth < usize::MAX,
        names(
            affected_packet(index, changes, parsed, config, within(options, (depth + 1) as usize)),
            x,
        ),
        !names(affected_packet(index, changes, parsed, config, within(options, depth)), x),
    ensures
        ({
            let near = affected_packet(index, changes, parsed, config, within(options, depth));
            let far = affected_packet(
                index,
                changes,
                parsed,
                config,
                within(options, (depth + 1) as usize),
            );
            ||| exists|a: Seq<char>| #[trigger]
                names(near, a) && change_leads(index, changes, parsed, config, options, a, x)
            ||| exists|i: int, j: int|
                0 <= i < far.strands.len() && 0 <= j < far.strands[i].anchors.len() && (
                #[trigger] far.strands[i].anchors[j]).id == x && !lists_strand(
                    near,
                    far.strands[i].id,
                )
        }),
{
    let e = direct_evidence(index, changes, parsed, config.annotations);
    let route = affected_route(index, config, options, e);
    let less = within(options, depth);
    let more = within(options, (depth + 1) as usize);
    let near = affected_packet(index, changes, parsed, config, less);
    let far = affected_packet(index, changes, parsed, config, more);
    lemma_change(index, changes, parsed, config, less);
    lemma_change(index, changes, parsed, config, more);
    lemma_change_advances(index, changes, parsed, config, options, depth);
    let st = affected_reach(index, config, less, e);
    lemma_advance(index, route, st);
    let l = affected_listing(index, config, less, e);
    let k = affected_listing(index, config, more, e);
    assert(!st.reasons.contains_key(x));
    if exists|i: int, j: int|
        0 <= i < far.strands.len() && 0 <= j < far.strands[i].anchors.len() && (
        #[trigger] far.strands[i].anchors[j]).id == x {
        let (i, j) = choose|i: int, j: int|
            0 <= i < far.strands.len() && 0 <= j < far.strands[i].anchors.len() && (
            #[trigger] far.strands[i].anchors[j]).id == x;
        let s = far.strands[i].id;
        if lists_strand(near, s) {
            let o = choose|o: int| 0 <= o < near.strands.len() && (#[trigger] near.strands[o]).id == s;
            let strand = known_strand(index, l, s)->0;
            let at = lemma_member_stays(index, k, l, s, strand, j);
            assert(near.strands[o].anchors[at].id == x);
            assert(names(near, x));
        }
    } else {
        let r = choose|r: int|
            0 <= r < far.related_anchors.len() && (#[trigger] far.related_anchors[r]).id == x;
        assert(is_reached(index, config, more, far, x));
        assert(advance(index, route, st).reasons.contains_key(x));
        if is_next(route, st, x) {
            let a = choose|a: Seq<char>|
                st.reasons.contains_key(a) && #[trigger] is_linked(route.edges, a, x);
            lemma_change_links(index, changes, parsed, config, options, a, x);
            assert(names(near, a));
        } else {
            let s = choose|s: Seq<char>|
                is_met_next(index, route, st, s) && #[trigger] brings(
                    index,
                    s,
                    route.include_optional,
                    x,
                );
            assert(advance(index, route, st).active.contains(s));
            assert(lists_strand(far, s));
            let i = choose|i: int| 0 <= i < far.strands.len() && (#[trigger] far.strands[i]).id == s;
            let m = choose|m: int|
                0 <= m < index.memberships.len() && (#[trigger] index.memberships[m]).strand
                    == Some(s) && index.memberships[m].member.anchor == x && is_brought(
                    index,
                    s,
                    index.memberships[m].member,
                    route.include_optional,
                );
            listed_strands_are_complete(index, changes, parsed, config, more, i, m);
            let j = choose|j: int|
                0 <= j < far.strands[i].anchors.len() && (#[trigger] far.strands[i].anchors[j]).id
                    == x && far.strands[i].anchors[j].role == index.memberships[m].member.role;
            assert(far.strands[i].anchors[j].id == x);
        }
    }
}

/// The strands that a change lists as touched directly are those that it lists without
/// following any relation.
pub proof fn direct_strands_need_no_relation(
    index: IndexView,
    changes: ChangeSetView,
    parsed: Map<Seq<char>, ParsedMetadataView>,
    config: ConfigView,
    options: AffectedOptionsView,
    i: int,
)
    requires
        0 <= i < affected_packet(index, changes, parsed, config, options).strands.len(),
    ensures
        affected_packet(index, changes, parsed, config, options).strands[i].direct
            <==> lists_strand(
            affected_packet(index, changes, parsed, config, within(options, 0)),
            affected_packet(index, changes, parsed, config, options).strands[i].id,
        ),
{
    let e = direct_evidence(index, changes, parsed, config.annotations);
    let packet = affected_packet(index, changes, parsed, config, options);
    let none = within(options, 0);
    lemma_change(index, changes, parsed, config, options);
    lemma_change(index, changes, parsed, config, none);
    lemma_start_of_change(index, changes, parsed, config, options);
    let s = packet.strands[i].id;
    let l = affected_listing(index, config, options, e);
    let first = affected_listing(index, config, none, e);
    assert(known_strand(index, l, s) == known_strand(index, first, s));
    assert(affected_reach(index, config, none, e) == start_of_change(index, config, options, e));
}

proof fn lemma_policy_depth(index: IndexView, ids: Seq<Seq<char>>, n: int)
    requires
        0 <= n <= ids.len(),
    ensures
        match policy_depth(index, ids, n) {
            None => forall|i: int| 0 <= i < n ==> depth_asked(index, #[trigger] ids[i]) is None,
            Some(depth) => {
                &&& exists|i: int| 0 <= i < n && depth_asked(index, #[trigger] ids[i]) == Some(depth)
                &&& forall|i: int|
                    0 <= i < n && depth_asked(index, #[trigger] ids[i]) is Some ==> depth_asked(
                        index,
                        ids[i],
                    )->0 <= depth
            },
        },
    decreases n,
{
    if n > 0 {
        lemma_policy_depth(index, ids, n - 1);
        let id = ids[n - 1];
        match policy_depth(index, ids, n - 1) {
            Some(depth) => {
                let i = choose|i: int|
                    0 <= i < n - 1 && depth_asked(index, #[trigger] ids[i]) == Some(depth);
                assert(depth_asked(index, ids[i]) == Some(depth));
                assert(depth_asked(index, ids[n - 1]) == depth_asked(index, id));
            },
            None => {
                assert(depth_asked(index, ids[n - 1]) == depth_asked(index, id));
            },
        }
    }
}

/// The depth that the policy of a strand asks for.
pub open spec fn depth_asked(index: IndexView, strand: Seq<char>) -> Option<usize> {
    if index.strands.contains_key(strand) && index.strands[strand].value.on_change is Some {
        index.strands[strand].value.on_change->0.depth
    } else {
        None
    }
}

/// Where no depth is asked for, a change follows as many relations as the policy of a strand
/// that it touches directly asks for, of several the most; where none does, as many as are
/// configured.
pub proof fn policies_ask_for_depth(
    index: IndexView,
    changes: ChangeSetView,
    parsed: Map<Seq<char>, ParsedMetadataView>,
    config: ConfigView,
    options: AffectedOptionsView,
)
    requires
        options.depth is None,
    ensures
        exists|depth: usize|
            #![trigger within(options, depth)]
            affected_packet(index, changes, parsed, config, options) == affected_packet(
                index,
                changes,
                parsed,
                config,
                within(options, depth),
            ) && ({
                let first = affected_packet(index, changes, parsed, config, within(options, 0));
                &&& forall|s: Seq<char>| #[trigger]
                    lists_strand(first, s) && depth_asked(index, s) is Some ==> depth_asked(
                        index,
                        s,
                    )->0 <= depth
                &&& (exists|s: Seq<char>| #[trigger]
                    lists_strand(first, s) && depth_asked(index, s) == Some(depth)) || (
                depth == config.traversal.depth && forall|s: Seq<char>| #[trigger]
                    lists_strand(first, s) ==> depth_asked(index, s) is None)
            }),
{
    let e = direct_evidence(index, changes, parsed, config.annotations);
    let direct = touched_strands(index, e, options.tags);
    let depth = affected_depth(index, config, options, direct);
    let none = within(options, 0);
    let first = affected_packet(index, changes, parsed, config, none);
    lemma_change(index, changes, parsed, config, none);
    lemma_start_of_change(index, changes, parsed, config, options);
    assert(affected_reach(index, config, none, e) == start_of_change(index, config, options, e));
    lemma_orderable(direct);
    let ids = ordered(direct);
    lemma_policy_depth(index, ids, ids.len() as int);
    let l = affected_listing(index, config, none, e);
    assert forall|s: Seq<char>| #[trigger] lists_strand(first, s) implies ids.contains(s) by {
        assert(ids.to_set().contains(s));
    }
    if policy_depth(index, ids, ids.len() as int) is Some {
        let i = choose|i: int|
            0 <= i < ids.len() && depth_asked(index, #[trigger] ids[i]) == Some(depth);
        assert(ids.to_set().contains(ids[i]));
        assert(known_strand(index, l, ids[i]) is Some);
        assert(lists_strand(first, ids[i]));
    }
    assert forall|s: Seq<char>| #[trigger]
        lists_strand(first, s) && depth_asked(index, s) is Some implies depth_asked(index, s)->0
        <= depth by {
        let i = ids.index_of(s);
        assert(depth_asked(index, ids[i]) is Some);
    }
    if policy_depth(index, ids, ids.len() as int) is None {
        assert forall|s: Seq<char>| #[trigger] lists_strand(first, s) implies depth_asked(index, s)
            is None by {
            let i = ids.index_of(s);
            assert(depth_asked(index, ids[i]) is None);
        }
    }
    let same = within(options, depth);
    assert(affected_reach(index, config, same, e) == affected_reach(index, config, options, e));
    assert(affected_listing(index, config, same, e) == affected_listing(index, config, options, e));
    assert(affected_packet(index, changes, parsed, config, options) == affected_packet(
        index,
        changes,
        parsed,
        config,
        same,
    ));
}

/// Whether seeds ask for a strand as a whole: by its name, or by a member that no search alone
/// found.
pub open spec fn asks_for_strand(index: IndexView, seeds: ContextSeedsView, s: Seq<char>) -> bool {
    seeds.strands.contains_key(s) || exists|m: int|
        0 <= m < index.memberships.len() && (#[trigger] index.memberships[m]).strand == Some(s)
            && seeds.anchors.contains_key(index.memberships[m].member.anchor)
            && !seeds.search_anchors.contains(index.memberships[m].member.anchor)
}

/// Whether seeds name a strand or one of its members.
pub open spec fn meets_strand(index: IndexView, seeds: ContextSeedsView, s: Seq<char>) -> bool {
    seeds.strands.contains_key(s) || exists|m: int|
        0 <= m < index.memberships.len() && (#[trigger] index.memberships[m]).strand == Some(s)
            && seeds.anchors.contains_key(index.memberships[m].member.anchor)
}

proof fn lemma_asked_strands(index: IndexView, seeds: ContextSeedsView, n: int)
    requires
        0 <= n <= index.memberships.len(),
        seeds.strands.dom().finite(),
    ensures
        with_exact_strands(index, seeds, n).finite(),
        forall|s: Seq<char>| #[trigger]
            with_exact_strands(index, seeds, n).contains(s) <==> seeds.strands.contains_key(s)
                || exists|m: int|
                0 <= m < n && (#[trigger] index.memberships[m]).strand == Some(s)
                    && seeds.anchors.contains_key(index.memberships[m].member.anchor)
                    && !seeds.search_anchors.contains(index.memberships[m].member.anchor),
        with_strands_of(index, seeds.anchors.dom(), seeds.strands.dom(), n).finite(),
        forall|s: Seq<char>| #[trigger]
            with_strands_of(index, seeds.anchors.dom(), seeds.strands.dom(), n).contains(s)
                <==> seeds.strands.contains_key(s) || exists|m: int|
                0 <= m < n && (#[trigger] index.memberships[m]).strand == Some(s)
                    && seeds.anchors.contains_key(index.memberships[m].member.anchor),
    decreases n,
{
    if n > 0 {
        lemma_asked_strands(index, seeds, n - 1);
        let a = with_exact_strands(index, seeds, n - 1);
        let b = with_exact_strands(index, seeds, n);
        let c = with_strands_of(index, seeds.anchors.dom(), seeds.strands.dom(), n - 1);
        let d = with_strands_of(index, seeds.anchors.dom(), seeds.strands.dom(), n);
        let last = index.memberships[n - 1];
        assert forall|s: Seq<char>| #[trigger]
            b.contains(s) <==> seeds.strands.contains_key(s) || exists|m: int|
                0 <= m < n && (#[trigger] index.memberships[m]).strand == Some(s)
                    && seeds.anchors.contains_key(index.memberships[m].member.anchor)
                    && !seeds.search_anchors.contains(index.memberships[m].member.anchor) by {
            assert(b.contains(s) <==> a.contains(s) || (last.strand == Some(s)
                && seeds.anchors.contains_key(last.member.anchor)
                && !seeds.search_anchors.contains(last.member.anchor)));
            if exists|m: int|
                0 <= m < n && (#[trigger] index.memberships[m]).strand == Some(s)
                    && seeds.anchors.contains_key(index.memberships[m].member.anchor)
                    && !seeds.search_anchors.contains(index.memberships[m].member.anchor) {
                let m = choose|m: int|
                    0 <= m < n && (#[trigger] index.memberships[m]).strand == Some(s)
                        && seeds.anchors.contains_key(index.memberships[m].member.anchor)
                        && !seeds.search_anchors.contains(index.memberships[m].member.anchor);
                if m < n - 1 {
                    assert(index.memberships[m].strand == Some(s));
                    assert(a.contains(s));
                }
            }
            if a.contains(s) && !seeds.strands.contains_key(s) {
                let m = choose|m: int|
                    0 <= m < n - 1 && (#[trigger] index.memberships[m]).strand == Some(s)
                        && seeds.anchors.contains_key(index.memberships[m].member.anchor)
                        && !seeds.search_anchors.contains(index.memberships[m].member.anchor);
                assert(index.memberships[m].strand == Some(s));
            }
            if b.contains(s) && !a.contains(s) {
                assert(index.memberships[n - 1].strand == Some(s));
            }
        }
        assert forall|s: Seq<char>| #[trigger]
            d.contains(s) <==> seeds.strands.contains_key(s) || exists|m: int|
                0 <= m < n && (#[trigger] index.memberships[m]).strand == Some(s)
                    && seeds.anchors.contains_key(index.memberships[m].member.anchor) by {
            assert(d.contains(s) <==> c.contains(s) || (last.strand == Some(s)
                && seeds.anchors.contains_key(last.member.anchor)));
            if exists|m: int|
                0 <= m < n && (#[trigger] index.memberships[m]).strand == Some(s)
                    && seeds.anchors.contains_key(index.memberships[m].member.anchor) {
                let m = choose|m: int|
                    0 <= m < n && (#[trigger] index.memberships[m]).strand == Some(s)
                        && seeds.anchors.contains_key(index.memberships[m].member.anchor);
                if m < n - 1 {
                    assert(index.memberships[m].strand == Some(s));
                    assert(c.contains(s));
                }
            }
            if c.contains(s) && !seeds.strands.contains_key(s) {
                let m = choose|m: int|
                    0 <= m < n - 1 && (#[trigger] index.memberships[m]).strand == Some(s)
                        && seeds.anchors.contains_key(index.memberships[m].member.anchor);
                assert(index.memberships[m].strand == Some(s));
            }
            if d.contains(s) && !c.contains(s) {
                assert(index.memberships[n - 1].strand == Some(s));
            }
        }
    }
}

proof fn lemma_start_of_seeds(
    index: IndexView,
    seeds: ContextSeedsView,
    config: ConfigView,
    options: AffectedOptionsView,
)
    requires
        seeds.anchors.dom().finite(),
        seeds.strands.dom().finite(),
    ensures
        ({
            let st = seed_start(index, config, options, seeds);
            &&& is_sound(index, seed_route(index, config, options, seeds), st)
            &&& st.frontier == st.reasons.dom()
            &&& forall|s: Seq<char>| #[trigger]
                st.active.contains(s) <==> carries(index, options.tags, s) && meets_strand(
                    index,
                    seeds,
                    s,
                )
            &&& forall|s: Seq<char>| #[trigger]
                st.expanded.contains(s) <==> asks_for_strand(index, seeds, s)
            &&& forall|x: Seq<char>| #[trigger]
                st.reasons.contains_key(x) <==> seeds.anchors.contains_key(x) || exists|s: Seq<
                    char,
                >|
                    asks_for_strand(index, seeds, s) && #[trigger] brings(
                        index,
                        s,
                        asks_for_optional(config, options),
                        x,
                    )
        }),
{
    let n = index.memberships.len() as int;
    let st = seed_start(index, config, options, seeds);
    lemma_asked_strands(index, seeds, n);
    let asked = with_exact_strands(index, seeds, n);
    let met = with_strands_of(index, seeds.anchors.dom(), seeds.strands.dom(), n);
    lemma_orderable(asked);
    let ids = ordered(asked);
    let own = seed_reasons(seeds.anchors);
    assert(own.dom() =~= seeds.anchors.dom());
    let optional = asks_for_optional(config, options);
    lemma_all_brought(index, ids, optional, ids.len() as int, own);
    assert(st.active.subset_of(met));
    vstd::set_lib::lemma_set_subset_finite(met, st.active);
    assert forall|s: Seq<char>| #[trigger]
        st.active.contains(s) <==> carries(index, options.tags, s) && meets_strand(
            index,
            seeds,
            s,
        ) by {
        assert(met.contains(s) <==> meets_strand(index, seeds, s));
        assert(crate::graph::is_selected(index, s, options.tags) <==> carries(
            index,
            options.tags,
            s,
        ));
    }
    assert forall|s: Seq<char>| #[trigger]
        st.expanded.contains(s) <==> asks_for_strand(index, seeds, s) by {
        assert(asked.contains(s) <==> asks_for_strand(index, seeds, s));
    }
    assert forall|x: Seq<char>| #[trigger]
        st.reasons.contains_key(x) <==> seeds.anchors.contains_key(x) || exists|s: Seq<char>|
            asks_for_strand(index, seeds, s) && #[trigger] brings(index, s, optional, x) by {
        assert(own.contains_key(x) <==> seeds.anchors.contains_key(x));
        if exists|i: int| 0 <= i < ids.len() && brings(index, #[trigger] ids[i], optional, x) {
            let i = choose|i: int|
                0 <= i < ids.len() && brings(index, #[trigger] ids[i], optional, x);
            assert(ids.to_set().contains(ids[i]));
            assert(asks_for_strand(index, seeds, ids[i]));
        }
        if exists|s: Seq<char>|
            asks_for_strand(index, seeds, s) && #[trigger] brings(index, s, optional, x) {
            let s = choose|s: Seq<char>|
                asks_for_strand(index, seeds, s) && #[trigger] brings(index, s, optional, x);
            assert(asked.contains(s));
            assert(ids.to_set().contains(s));
            let i = ids.index_of(s);
            assert(brings(index, ids[i], optional, x));
        }
    }
    assert forall|s: Seq<char>, x: Seq<char>|
        st.expanded.contains(s) && #[trigger] brings(index, s, optional, x) implies
        st.reasons.contains_key(x) by {
        assert(asks_for_strand(index, seeds, s));
    }
}

proof fn lemma_current_is_brought(
    index: IndexView,
    l: ListingView,
    s: Seq<char>,
    n: int,
    k: int,
)
    requires
        0 <= n <= index.memberships.len(),
        index.strands.contains_key(s),
        0 <= k < current_members(index, l, s, index.strands[s].value, n).len(),
        l.expanded is Some,
    ensures
        ({
            let a = current_members(index, l, s, index.strands[s].value, n)[k];
            &&& l.reasons.contains_key(a.id) || l.expanded->0.contains(s)
            &&& brings(index, s, l.include_optional, a.id)
        }),
    decreases n,
{
    let strand = index.strands[s].value;
    let now = current_members(index, l, s, strand, n);
    let before = current_members(index, l, s, strand, n - 1);
    if k < before.len() {
        lemma_current_is_brought(index, l, s, n - 1, k);
        assert(now[k] == before[k]);
    } else {
        let m = index.memberships[n - 1];
        assert(is_brought(index, s, m.member, l.include_optional));
        assert(index.memberships[n - 1].member.anchor == now[k].id);
    }
}

/// All about what seeds reach within a depth.
proof fn lemma_seeds(
    index: IndexView,
    seeds: ContextSeedsView,
    config: ConfigView,
    options: AffectedOptionsView,
)
    requires
        seeds.anchors.dom().finite(),
        seeds.strands.dom().finite(),
    ensures
        ({
            let route = seed_route(index, config, options, seeds);
            let st = seed_reach(index, config, options, seeds);
            let l = seed_listing(index, config, options, seeds);
            let packet = seed_packet(index, seeds, config, options);
            &&& is_sound(index, route, st)
            &&& forall|a: Seq<char>| #[trigger]
                st.frontier.contains(a) ==> st.reasons.contains_key(a)
            &&& forall|s: Seq<char>| #[trigger]
                lists_strand(packet, s) <==> st.active.contains(s) && index.strands.contains_key(s)
            &&& forall|x: Seq<char>| #[trigger] names(packet, x) <==> st.reasons.contains_key(x)
            &&& forall|i: int|
                0 <= i < packet.strands.len() ==> {
                    let s = (#[trigger] packet.strands[i]).id;
                    &&& st.active.contains(s)
                    &&& index.strands.contains_key(s)
                    &&& packet.strands[i] == listed_strand(index, l, s, index.strands[s].value)
                }
        }),
{
    let route = seed_route(index, config, options, seeds);
    let st = seed_reach(index, config, options, seeds);
    let l = seed_listing(index, config, options, seeds);
    let packet = seed_packet(index, seeds, config, options);
    let depth = match options.depth {
        Some(depth) => depth as nat,
        None => config.traversal.depth as nat,
    };
    lemma_start_of_seeds(index, seeds, config, options);
    lemma_stays_sound(index, route, seed_start(index, config, options, seeds), depth);
    lemma_listed(index, l, st.active, packet);
    assert forall|x: Seq<char>| #[trigger] names(packet, x) implies st.reasons.contains_key(x) by {
        if exists|i: int, j: int|
            0 <= i < packet.strands.len() && 0 <= j < packet.strands[i].anchors.len() && (
            #[trigger] packet.strands[i].anchors[j]).id == x {
            let (i, j) = choose|i: int, j: int|
                0 <= i < packet.strands.len() && 0 <= j < packet.strands[i].anchors.len() && (
                #[trigger] packet.strands[i].anchors[j]).id == x;
            let s = packet.strands[i].id;
            let strand = index.strands[s].value;
            assert(known_strand(index, l, s) == Some(strand));
            let n = index.memberships.len() as int;
            let all = current_members(index, l, s, strand, n) + former_members(
                index,
                l,
                s,
                strand,
                0,
            );
            let y = packet.strands[i].anchors[j];
            assert(packet.strands[i].anchors.contains(y));
            lemma_dedup_contains(sort_anchors(all), y);
            lemma_sort_anchors_contains(all, y);
            let at = all.index_of(y);
            assert(all[at] == current_members(index, l, s, strand, n)[at]);
            lemma_current_is_brought(index, l, s, n, at);
            if st.expanded.contains(s) {
                assert(brings(index, s, route.include_optional, x));
            }
        }
    }
}

/// Whether one of the first relations of the index has a kind that is followed, and is the
/// given one.
spec fn is_kind_edge(
    index: IndexView,
    config: ConfigView,
    options: AffectedOptionsView,
    n: int,
    edge: EdgeView,
) -> bool {
    exists|i: int|
        0 <= i < n && is_kind_followed(
            config,
            options,
            (#[trigger] index.relations[i]).relation.kind,
        ) && edge == crate::graph::edge_of(index.relations[i].relation)
}

proof fn lemma_kind_edges(
    index: IndexView,
    config: ConfigView,
    options: AffectedOptionsView,
    n: int,
)
    requires
        0 <= n <= index.relations.len(),
    ensures
        forall|edge: EdgeView| #[trigger]
            followed_edges(
                index,
                crate::graph::followed_kinds(options, config),
                false,
                n,
            ).contains(edge) <==> is_kind_edge(index, config, options, n, edge),
    decreases n,
{
    let filter = crate::graph::followed_kinds(options, config);
    let edges = followed_edges(index, filter, false, n);
    if n > 0 {
        lemma_kind_edges(index, config, options, n - 1);
        let before = followed_edges(index, filter, false, n - 1);
        let last = index.relations[n - 1];
        assert(crate::graph::is_relation_followed(index, last, filter, false) <==> is_kind_followed(
            config,
            options,
            last.relation.kind,
        ));
        assert forall|edge: EdgeView| #[trigger] edges.contains(edge) <==> is_kind_edge(
            index,
            config,
            options,
            n,
            edge,
        ) by {
            assert(before.contains(edge) <==> is_kind_edge(index, config, options, n - 1, edge));
            if before.contains(edge) {
                let k = before.index_of(edge);
                assert(edges[k] == edge);
                let i = choose|i: int|
                    0 <= i < n - 1 && is_kind_followed(
                        config,
                        options,
                        (#[trigger] index.relations[i]).relation.kind,
                    ) && edge == crate::graph::edge_of(index.relations[i].relation);
                assert(index.relations[i].relation.kind == index.relations[i].relation.kind);
                assert(is_kind_edge(index, config, options, n, edge));
            } else if edges.contains(edge) {
                let k = edges.index_of(edge);
                if k < before.len() {
                    assert(before[k] == edge);
                }
                assert(index.relations[n - 1] == last);
                assert(is_kind_edge(index, config, options, n, edge));
            } else if is_kind_edge(index, config, options, n, edge) {
                let i = choose|i: int|
                    0 <= i < n && is_kind_followed(
                        config,
                        options,
                        (#[trigger] index.relations[i]).relation.kind,
                    ) && edge == crate::graph::edge_of(index.relations[i].relation);
                if i < n - 1 {
                    assert(is_kind_edge(index, config, options, n - 1, edge));
                } else {
                    assert(edges[edges.len() - 1] == edge);
                }
            }
        }
    }
}

/// Whether a relation whose kind is followed joins two anchors.
pub open spec fn kinds_lead(
    index: IndexView,
    config: ConfigView,
    options: AffectedOptionsView,
    a: Seq<char>,
    b: Seq<char>,
) -> bool {
    exists|i: int|
        0 <= i < index.relations.len() && is_kind_followed(
            config,
            options,
            (#[trigger] index.relations[i]).relation.kind,
        ) && joins(index.relations[i].relation, a, b)
}

proof fn lemma_kinds_lead(
    index: IndexView,
    seeds: ContextSeedsView,
    config: ConfigView,
    options: AffectedOptionsView,
    a: Seq<char>,
    b: Seq<char>,
)
    ensures
        is_linked(seed_route(index, config, options, seeds).edges, a, b) <==> kinds_lead(
            index,
            config,
            options,
            a,
            b,
        ),
{
    let n = index.relations.len() as int;
    let edges = seed_route(index, config, options, seeds).edges;
    lemma_kind_edges(index, config, options, n);
    if is_linked(edges, a, b) {
        let k = choose|k: int|
            0 <= k < edges.len() && (((#[trigger] edges[k]).from == a && edges[k].to == b) || (
            edges[k].from == b && edges[k].to == a));
        assert(edges.contains(edges[k]));
        let i = choose|i: int|
            0 <= i < n && is_kind_followed(
                config,
                options,
                (#[trigger] index.relations[i]).relation.kind,
            ) && edges[k] == crate::graph::edge_of(index.relations[i].relation);
        assert(joins(index.relations[i].relation, a, b));
    }
    if kinds_lead(index, config, options, a, b) {
        let i = choose|i: int|
            0 <= i < index.relations.len() && is_kind_followed(
                config,
                options,
                (#[trigger] index.relations[i]).relation.kind,
            ) && joins(index.relations[i].relation, a, b);
        let edge = crate::graph::edge_of(index.relations[i].relation);
        assert(is_kind_edge(index, config, options, n, edge));
        assert(edges.contains(edge));
        let k = edges.index_of(edge);
        assert(edges[k] == edge);
    }
}

/// Without a relation, the context of seeds names the seeds and what the strands that they ask
/// for bring along, and lists the strands that carry the tags and that the seeds name or have
/// a member in.
pub proof fn seeds_come_with_their_strands(
    index: IndexView,
    seeds: ContextSeedsView,
    config: ConfigView,
    options: AffectedOptionsView,
    id: Seq<char>,
)
    requires
        seeds.anchors.dom().finite(),
        seeds.strands.dom().finite(),
    ensures
        ({
            let packet = seed_packet(index, seeds, config, within(options, 0));
            &&& names(packet, id) <==> seeds.anchors.contains_key(id) || exists|s: Seq<char>|
                asks_for_strand(index, seeds, s) && #[trigger] brings(
                    index,
                    s,
                    asks_for_optional(config, options),
                    id,
                )
            &&& lists_strand(packet, id) <==> index.strands.contains_key(id) && carries(
                index,
                options.tags,
                id,
            ) && meets_strand(index, seeds, id)
        }),
{
    let none = within(options, 0);
    lemma_seeds(index, seeds, config, none);
    lemma_start_of_seeds(index, seeds, config, none);
    assert(seed_reach(index, config, none, seeds) == seed_start(index, config, none, seeds));
    assert(asks_for_optional(config, none) == asks_for_optional(config, options));
}

/// Where no depth is asked for, seeds reach as far as is configured.
pub proof fn seeds_reach_as_far_as_configured(
    index: IndexView,
    seeds: ContextSeedsView,
    config: ConfigView,
    options: AffectedOptionsView,
)
    requires
        options.depth is None,
    ensures
        seed_packet(index, seeds, config, options) == seed_packet(
            index,
            seeds,
            config,
            within(options, config.traversal.depth),
        ),
{
    let same = within(options, config.traversal.depth);
    assert(seed_reach(index, config, same, seeds) == seed_reach(index, config, options, seeds));
    assert(seed_listing(index, config, same, seeds) == seed_listing(index, config, options, seeds));
}

proof fn lemma_seeds_advance(
    index: IndexView,
    seeds: ContextSeedsView,
    config: ConfigView,
    options: AffectedOptionsView,
    depth: usize,
)
    requires
        depth < usize::MAX,
    ensures
        ({
            let route = seed_route(index, config, options, seeds);
            let more = (depth + 1) as usize;
            let near = seed_reach(index, config, within(options, depth), seeds);
            let far = seed_reach(index, config, within(options, more), seeds);
            &&& far == advance(index, route, near)
            &&& seed_route(index, config, within(options, depth), seeds) == route
            &&& seed_route(index, config, within(options, more), seeds) == route
        }),
{
    let route = seed_route(index, config, options, seeds);
    let start = seed_start(index, config, options, seeds);
    assert(seed_start(index, config, within(options, depth), seeds) == start);
    assert(seed_start(index, config, within(options, (depth + 1) as usize), seeds) == start);
    lemma_one_farther(index, route, start, depth as nat);
}

/// Whether a context names an anchor that a relation whose kind is followed joins with the
/// given one.
pub open spec fn is_one_step_away(
    index: IndexView,
    config: ConfigView,
    options: AffectedOptionsView,
    packet: ContextPacketView,
    b: Seq<char>,
) -> bool {
    exists|a: Seq<char>| #[trigger] names(packet, a) && kinds_lead(index, config, options, a, b)
}

/// Whether a strand carries the tags and has a member that a context does not name and that is
/// one relation away from it.
pub open spec fn is_met_one_step_away(
    index: IndexView,
    config: ConfigView,
    options: AffectedOptionsView,
    packet: ContextPacketView,
    s: Seq<char>,
) -> bool {
    carries(index, options.tags, s) && exists|m: int|
        0 <= m < index.memberships.len() && (#[trigger] index.memberships[m]).strand == Some(s)
            && !names(packet, index.memberships[m].member.anchor) && is_one_step_away(
            index,
            config,
            options,
            packet,
            index.memberships[m].member.anchor,
        )
}

/// One relation more leads one step farther from seeds: the context names what it named, what
/// a followed relation joins with that and, unless a search found a seed, what the strands
/// that are met by that bring along. It lists the strands that it listed and those of the
/// index that are met.
pub proof fn one_more_relation_leads_farther_from_seeds(
    index: IndexView,
    seeds: ContextSeedsView,
    config: ConfigView,
    options: AffectedOptionsView,
    depth: usize,
    id: Seq<char>,
)
    requires
        depth < usize::MAX,
        seeds.anchors.dom().finite(),
        seeds.strands.dom().finite(),
    ensures
        ({
            let near = seed_packet(index, seeds, config, within(options, depth));
            let far = seed_packet(index, seeds, config, within(options, (depth + 1) as usize));
            &&& names(far, id) <==> names(near, id) || is_one_step_away(
                index,
                config,
                options,
                near,
                id,
            ) || (seeds.search_anchors == Set::<Seq<char>>::empty() && exists|s: Seq<char>|
                is_met_one_step_away(index, config, options, near, s) && #[trigger] brings(
                    index,
                    s,
                    asks_for_optional(config, options),
                    id,
                ))
            &&& lists_strand(far, id) <==> lists_strand(near, id) || (index.strands.contains_key(id)
                && is_met_one_step_away(index, config, options, near, id))
        }),
{
    let route = seed_route(index, config, options, seeds);
    let less = within(options, depth);
    let more = within(options, (depth + 1) as usize);
    let near = seed_packet(index, seeds, config, less);
    let far = seed_packet(index, seeds, config, more);
    lemma_seeds(index, seeds, config, less);
    lemma_seeds(index, seeds, config, more);
    lemma_seeds_advance(index, seeds, config, options, depth);
    let st = seed_reach(index, config, less, seeds);
    lemma_advance(index, route, st);
    assert forall|b: Seq<char>| #[trigger] is_next(route, st, b) <==> !names(near, b)
        && is_one_step_away(index, config, options, near, b) by {
        if is_next(route, st, b) {
            let a = choose|a: Seq<char>|
                st.reasons.contains_key(a) && #[trigger] is_linked(route.edges, a, b);
            lemma_kinds_lead(index, seeds, config, options, a, b);
            assert(names(near, a));
        }
        if !names(near, b) && is_one_step_away(index, config, options, near, b) {
            let a = choose|a: Seq<char>| #[trigger]
                names(near, a) && kinds_lead(index, config, options, a, b);
            lemma_kinds_lead(index, seeds, config, options, a, b);
            assert(is_linked(route.edges, a, b));
        }
    }
    assert forall|s: Seq<char>| #[trigger]
        is_met_next(index, route, st, s) <==> is_met_one_step_away(
            index,
            config,
            options,
            near,
            s,
        ) by {
        if is_met_next(index, route, st, s) {
            let m = choose|m: int|
                0 <= m < index.memberships.len() && (#[trigger] index.memberships[m]).strand
                    == Some(s) && is_next(route, st, index.memberships[m].member.anchor);
            assert(index.memberships[m].strand == Some(s));
        }
        if is_met_one_step_away(index, config, options, near, s) {
            let m = choose|m: int|
                0 <= m < index.memberships.len() && (#[trigger] index.memberships[m]).strand
                    == Some(s) && !names(near, index.memberships[m].member.anchor)
                    && is_one_step_away(
                    index,
                    config,
                    options,
                    near,
                    index.memberships[m].member.anchor,
                );
            assert(is_next(route, st, index.memberships[m].member.anchor));
        }
    }
    assert(names(far, id) <==> st.reasons.contains_key(id) || is_next(route, st, id) || (
    route.expands && exists|s: Seq<char>|
        is_met_next(index, route, st, s) && #[trigger] brings(
            index,
            s,
            route.include_optional,
            id,
        )));
    if route.expands {
        if exists|s: Seq<char>|
            is_met_next(index, route, st, s) && #[trigger] brings(
                index,
                s,
                route.include_optional,
                id,
            ) {
            let s = choose|s: Seq<char>|
                is_met_next(index, route, st, s) && #[trigger] brings(
                    index,
                    s,
                    route.include_optional,
                    id,
                );
            assert(is_met_one_step_away(index, config, options, near, s));
            assert(brings(index, s, asks_for_optional(config, options), id));
        }
        if exists|s: Seq<char>|
            is_met_one_step_away(index, config, options, near, s) && #[trigger] brings(
                index,
                s,
                asks_for_optional(config, options),
                id,
            ) {
            let s = choose|s: Seq<char>|
                is_met_one_step_away(index, config, options, near, s) && #[trigger] brings(
                    index,
                    s,
                    asks_for_optional(config, options),
                    id,
                );
            assert(is_met_next(index, route, st, s));
            assert(brings(index, s, route.include_optional, id));
        }
    }
}

/// Every strand that the context of seeds lists is listed with its intent and with every
/// member that it brings along and that the context names, each with its role; it counts as
/// touched directly where it is a seed.
pub proof fn strands_of_seeds_are_complete(
    index: IndexView,
    seeds: ContextSeedsView,
    config: ConfigView,
    options: AffectedOptionsView,
    i: int,
    m: int,
)
    requires
        seeds.anchors.dom().finite(),
        seeds.strands.dom().finite(),
        0 <= i < seed_packet(index, seeds, config, options).strands.len(),
    ensures
        ({
            let packet = seed_packet(index, seeds, config, options);
            let strand = packet.strands[i];
            &&& index.strands.contains_key(strand.id)
            &&& strand.intent == index.strands[strand.id].value.intent
            &&& strand.direct <==> seeds.strands.contains_key(strand.id)
            &&& 0 <= m < index.memberships.len() && index.memberships[m].strand == Some(strand.id)
                && is_brought(
                index,
                strand.id,
                index.memberships[m].member,
                asks_for_optional(config, options),
            ) && names(packet, index.memberships[m].member.anchor) ==> has_member(
                strand,
                index.memberships[m].member.anchor,
                index.memberships[m].member.role,
            )
        }),
{
    lemma_seeds(index, seeds, config, options);
    let packet = seed_packet(index, seeds, config, options);
    let l = seed_listing(index, config, options, seeds);
    let s = packet.strands[i].id;
    let strand = index.strands[s].value;
    if 0 <= m < index.memberships.len() && index.memberships[m].strand == Some(s) && is_brought(
        index,
        s,
        index.memberships[m].member,
        asks_for_optional(config, options),
    ) && names(packet, index.memberships[m].member.anchor) {
        lemma_member_is_listed(index, l, s, strand, m);
    }
}

} // verus!
