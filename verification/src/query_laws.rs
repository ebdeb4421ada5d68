//! What holds of every query, and of contexts that are put together.

use vstd::prelude::*;

use crate::collections::{lemma_orderable, ordered};
use crate::graph::{
    changed_from, insert_strand, is_member_selected, is_path_of, kind_allowed, merged_context,
    neighbor, query_anchor, query_result, sort_strands, strand_position, walk, walk_level,
    walk_relations, walk_start, with_listed_strands, with_member_anchors, WalkView,
};
use crate::model::{
    AffectedStrandView, ChangedFileView, ContextPacketView, IndexView, MemberView, RelationView,
    StrandView,
};

verus! {

/// A relation leads from either end to the other.
pub proof fn relations_lead_both_ways(relation: RelationView, a: Seq<char>, b: Seq<char>)
    requires
        neighbor(relation, a) == Some(b),
    ensures
        neighbor(relation, b) == Some(a),
{
}

/// Where no kind of relation is asked for, all are followed.
pub proof fn no_filter_follows_every_kind(kind: Seq<char>)
    ensures
        kind_allowed(Set::empty(), kind),
{
}

/// A policy that names roles reaches only members with these roles, and none with a role that
/// it excludes; optional members are reached only where they are asked for.
pub proof fn policies_choose_roles(member: MemberView, strand: StrandView, include_optional: bool)
    requires
        is_member_selected(member, strand, include_optional),
    ensures
        !include_optional ==> member.required,
        strand.on_change matches Some(policy) ==> {
            &&& policy.include_roles != Set::<Seq<char>>::empty() ==> member.role is Some
                && policy.include_roles.contains(member.role->0)
            &&& member.role is Some ==> !policy.exclude_roles.contains(member.role->0)
        },
{
}

/// A renamed file is known by its path before the change as well as by the one after it.
pub proof fn renames_are_known_by_both_paths(files: Seq<ChangedFileView>, i: int, path: Seq<char>)
    requires
        0 <= i < files.len(),
        files[i].path == path || files[i].old_path == Some(path),
    ensures
        changed_from(files, path, 0) is Some,
        is_path_of(changed_from(files, path, 0)->0, path),
{
    lemma_changed_from(files, path, i, 0);
}

proof fn lemma_changed_from(files: Seq<ChangedFileView>, path: Seq<char>, i: int, from: int)
    requires
        0 <= from <= i < files.len(),
        is_path_of(files[i], path),
    ensures
        changed_from(files, path, from) is Some,
        is_path_of(changed_from(files, path, from)->0, path),
    decreases i - from,
{
    if !is_path_of(files[from], path) {
        lemma_changed_from(files, path, i, from + 1);
    }
}

/// Whether the ends of all relations that were met are among the anchors that were.
spec fn is_closed(w: WalkView) -> bool {
    &&& w.anchors.finite()
    &&& forall|i: int|
        0 <= i < w.next.len() ==> w.anchors.contains(#[trigger] w.next[i])
    &&& forall|i: int|
        0 <= i < w.relations.len() ==> w.anchors.contains(
            (#[trigger] w.relations[i]).relation.from,
        ) && w.anchors.contains(w.relations[i].relation.to)
}

proof fn lemma_walk_relations(
    index: IndexView,
    filter: Set<Seq<char>>,
    anchor: Seq<char>,
    n: int,
    w: WalkView,
)
    requires
        is_closed(w),
        w.anchors.contains(anchor),
        0 <= n <= index.relations.len(),
    ensures
        is_closed(walk_relations(index, filter, anchor, n, w)),
        w.anchors.subset_of(walk_relations(index, filter, anchor, n, w).anchors),
        forall|i: int|
            0 <= i < n && kind_allowed(filter, (#[trigger] index.relations[i]).relation.kind)
                && neighbor(index.relations[i].relation, anchor) is Some ==> walk_relations(
                index,
                filter,
                anchor,
                n,
                w,
            ).anchors.contains(neighbor(index.relations[i].relation, anchor)->0),
    decreases n,
{
    if n > 0 {
        lemma_walk_relations(index, filter, anchor, n - 1, w);
        let before = walk_relations(index, filter, anchor, n - 1, w);
        let now = walk_relations(index, filter, anchor, n, w);
        let relation = index.relations[n - 1];
        assert forall|i: int| 0 <= i < now.next.len() implies now.anchors.contains(
            #[trigger] now.next[i],
        ) by {
            if i < before.next.len() {
                assert(now.next[i] == before.next[i]);
            }
        }
        assert forall|i: int| 0 <= i < now.relations.len() implies now.anchors.contains(
            (#[trigger] now.relations[i]).relation.from,
        ) && now.anchors.contains(now.relations[i].relation.to) by {
            if i < before.relations.len() {
                assert(now.relations[i] == before.relations[i]);
            }
        }
    }
}

proof fn lemma_walk_level(
    index: IndexView,
    filter: Set<Seq<char>>,
    level: Seq<Seq<char>>,
    n: int,
    w: WalkView,
)
    requires
        is_closed(w),
        0 <= n <= level.len(),
        forall|i: int| 0 <= i < level.len() ==> w.anchors.contains(#[trigger] level[i]),
    ensures
        is_closed(walk_level(index, filter, level, n, w)),
        w.anchors.subset_of(walk_level(index, filter, level, n, w).anchors),
        forall|k: int, i: int|
            0 <= k < n && 0 <= i < index.relations.len() && kind_allowed(
                filter,
                (#[trigger] index.relations[i]).relation.kind,
            ) && neighbor(index.relations[i].relation, #[trigger] level[k]) is Some ==> walk_level(
                index,
                filter,
                level,
                n,
                w,
            ).anchors.contains(neighbor(index.relations[i].relation, level[k])->0),
    decreases n,
{
    if n > 0 {
        lemma_walk_level(index, filter, level, n - 1, w);
        let before = walk_level(index, filter, level, n - 1, w);
        lemma_walk_relations(
            index,
            filter,
            level[n - 1],
            index.relations.len() as int,
            before,
        );
    }
}

proof fn lemma_walk(index: IndexView, filter: Set<Seq<char>>, w: WalkView, depth: nat)
    requires
        is_closed(w),
    ensures
        is_closed(walk(index, filter, w, depth)),
        w.anchors.subset_of(walk(index, filter, w, depth).anchors),
    decreases depth,
{
    if depth > 0 && w.next.len() > 0 {
        let start = WalkView { next: seq![], ..w };
        lemma_walk_level(index, filter, w.next, w.next.len() as int, start);
        lemma_walk(
            index,
            filter,
            walk_level(index, filter, w.next, w.next.len() as int, start),
            (depth - 1) as nat,
        );
    }
}

proof fn lemma_member_anchors(
    index: IndexView,
    strands: Set<Seq<char>>,
    anchors: Set<Seq<char>>,
    n: int,
)
    requires
        anchors.finite(),
        0 <= n <= index.memberships.len(),
    ensures
        with_member_anchors(index, strands, anchors, n).finite(),
        anchors.subset_of(with_member_anchors(index, strands, anchors, n)),
        forall|i: int|
            0 <= i < n && (#[trigger] index.memberships[i]).strand is Some && strands.contains(
                index.memberships[i].strand->0,
            ) ==> with_member_anchors(index, strands, anchors, n).contains(
                index.memberships[i].member.anchor,
            ),
    decreases n,
{
    if n > 0 {
        lemma_member_anchors(index, strands, anchors, n - 1);
    }
}

proof fn lemma_start(index: IndexView, anchors: Set<Seq<char>>, strands: Set<Seq<char>>)
    requires
        anchors.finite(),
    ensures
        is_closed(walk_start(index, anchors, strands)),
        walk_start(index, anchors, strands).next.to_set() == walk_start(
            index,
            anchors,
            strands,
        ).anchors,
{
    let all = with_member_anchors(index, strands, anchors, index.memberships.len() as int);
    lemma_member_anchors(index, strands, anchors, index.memberships.len() as int);
    lemma_orderable(all);
    let next = ordered(all);
    assert forall|i: int| 0 <= i < next.len() implies all.contains(#[trigger] next[i]) by {
        assert(next.to_set().contains(next[i]));
    }
}

/// Whether a query shows an anchor.
pub open spec fn shows(
    index: IndexView,
    anchors: Set<Seq<char>>,
    strands: Set<Seq<char>>,
    depth: nat,
    filter: Set<Seq<char>>,
    id: Seq<char>,
) -> bool {
    query_result(index, anchors, strands, depth, filter).anchors.contains(query_anchor(index, id))
}

proof fn lemma_shown(
    index: IndexView,
    anchors: Set<Seq<char>>,
    strands: Set<Seq<char>>,
    depth: nat,
    filter: Set<Seq<char>>,
    id: Seq<char>,
)
    requires
        anchors.finite(),
        walk(index, filter, walk_start(index, anchors, strands), depth).anchors.contains(id),
    ensures
        shows(index, anchors, strands, depth, filter, id),
{
    let walked = walk(index, filter, walk_start(index, anchors, strands), depth);
    lemma_start(index, anchors, strands);
    lemma_walk(index, filter, walk_start(index, anchors, strands), depth);
    lemma_orderable(walked.anchors);
    let ids = ordered(walked.anchors);
    assert(ids.to_set().contains(id));
    let k = ids.index_of(id);
    let shown = query_result(index, anchors, strands, depth, filter).anchors;
    assert(shown[k] == query_anchor(index, id));
}

/// A query shows the anchors that it starts from, and every member of the strands that it does.
pub proof fn queries_show_where_they_start(
    index: IndexView,
    anchors: Set<Seq<char>>,
    strands: Set<Seq<char>>,
    depth: nat,
    filter: Set<Seq<char>>,
    id: Seq<char>,
)
    requires
        anchors.finite(),
        anchors.contains(id) || exists|i: int|
            0 <= i < index.memberships.len() && (#[trigger] index.memberships[i]).strand is Some
                && strands.contains(index.memberships[i].strand->0)
                && index.memberships[i].member.anchor == id,
    ensures
        shows(index, anchors, strands, depth, filter, id),
{
    lemma_member_anchors(index, strands, anchors, index.memberships.len() as int);
    lemma_start(index, anchors, strands);
    lemma_walk(index, filter, walk_start(index, anchors, strands), depth);
    let start = walk_start(index, anchors, strands);
    assert(start.anchors.contains(id));
    lemma_shown(index, anchors, strands, depth, filter, id);
}

/// A query shows both ends of every relation that it shows.
pub proof fn queries_show_both_ends(
    index: IndexView,
    anchors: Set<Seq<char>>,
    strands: Set<Seq<char>>,
    depth: nat,
    filter: Set<Seq<char>>,
    i: int,
)
    requires
        anchors.finite(),
        0 <= i < query_result(index, anchors, strands, depth, filter).relations.len(),
    ensures
        ({
            let relation = query_result(
                index,
                anchors,
                strands,
                depth,
                filter,
            ).relations[i].relation;
            &&& shows(index, anchors, strands, depth, filter, relation.from)
            &&& shows(index, anchors, strands, depth, filter, relation.to)
        }),
{
    let walked = walk(index, filter, walk_start(index, anchors, strands), depth);
    lemma_start(index, anchors, strands);
    lemma_walk(index, filter, walk_start(index, anchors, strands), depth);
    let relation = walked.relations[i].relation;
    lemma_shown(index, anchors, strands, depth, filter, relation.from);
    lemma_shown(index, anchors, strands, depth, filter, relation.to);
}

/// A query of some depth shows what one relation of an allowed kind connects with where it
/// starts.
pub proof fn queries_follow_relations(
    index: IndexView,
    anchors: Set<Seq<char>>,
    strands: Set<Seq<char>>,
    depth: nat,
    filter: Set<Seq<char>>,
    i: int,
    id: Seq<char>,
    other: Seq<char>,
)
    requires
        anchors.finite(),
        anchors.contains(id),
        depth > 0,
        0 <= i < index.relations.len(),
        kind_allowed(filter, index.relations[i].relation.kind),
        neighbor(index.relations[i].relation, id) == Some(other),
    ensures
        shows(index, anchors, strands, depth, filter, other),
{
    lemma_member_anchors(index, strands, anchors, index.memberships.len() as int);
    lemma_start(index, anchors, strands);
    let w = walk_start(index, anchors, strands);
    assert(w.next.to_set().contains(id));
    let k = w.next.index_of(id);
    assert(w.next[k] == id);
    let start = WalkView { next: seq![], ..w };
    lemma_walk_level(index, filter, w.next, w.next.len() as int, start);
    let level = walk_level(index, filter, w.next, w.next.len() as int, start);
    assert(level.anchors.contains(other));
    lemma_walk(index, filter, level, (depth - 1) as nat);
    lemma_shown(index, anchors, strands, depth, filter, other);
}

/// Whether a strand is listed.
pub open spec fn is_listed_strand(strands: Seq<AffectedStrandView>, id: Seq<char>) -> bool {
    exists|i: int| 0 <= i < strands.len() && (#[trigger] strands[i]).id == id
}

proof fn lemma_strand_position(strands: Seq<AffectedStrandView>, id: Seq<char>, i: int)
    requires
        0 <= i <= strands.len(),
    ensures
        i <= strand_position(strands, id, i) <= strands.len(),
        strand_position(strands, id, i) < strands.len() ==> strands[strand_position(
            strands,
            id,
            i,
        )].id == id,
    decreases strands.len() - i,
{
    if i < strands.len() && strands[i].id != id {
        lemma_strand_position(strands, id, i + 1);
    }
}

proof fn lemma_listed_strands(
    strands: Seq<AffectedStrandView>,
    more: Seq<AffectedStrandView>,
    n: int,
    id: Seq<char>,
)
    requires
        0 <= n <= more.len(),
    ensures
        is_listed_strand(with_listed_strands(strands, more, n), id) == (is_listed_strand(
            strands,
            id,
        ) || exists|i: int| 0 <= i < n && (#[trigger] more[i]).id == id),
    decreases n,
{
    if n > 0 {
        lemma_listed_strands(strands, more, n - 1, id);
        let before = with_listed_strands(strands, more, n - 1);
        let now = with_listed_strands(strands, more, n);
        let x = more[n - 1];
        lemma_strand_position(before, x.id, 0);
        let at = strand_position(before, x.id, 0);
        assert(is_listed_strand(now, id) == (is_listed_strand(before, id) || x.id == id)) by {
            if is_listed_strand(before, id) {
                let i = choose|i: int| 0 <= i < before.len() && (#[trigger] before[i]).id == id;
                assert(now[i].id == id);
            }
            if x.id == id {
                assert(now[at].id == id);
            }
            if is_listed_strand(now, id) {
                let i = choose|i: int| 0 <= i < now.len() && (#[trigger] now[i]).id == id;
                if i < before.len() {
                    assert(before[i].id == now[i].id);
                }
            }
        }
        if exists|i: int| 0 <= i < n && (#[trigger] more[i]).id == id {
            let i = choose|i: int| 0 <= i < n && (#[trigger] more[i]).id == id;
            if i < n - 1 {
                assert(more[i].id == id);
            }
        }
        if exists|i: int| 0 <= i < n - 1 && (#[trigger] more[i]).id == id {
            let i = choose|i: int| 0 <= i < n - 1 && (#[trigger] more[i]).id == id;
            assert(more[i].id == id);
        }
    }
}

proof fn lemma_insert_listed(sorted: Seq<AffectedStrandView>, x: AffectedStrandView, id: Seq<char>)
    ensures
        is_listed_strand(insert_strand(sorted, x), id) == (is_listed_strand(sorted, id) || x.id
            == id),
    decreases sorted.len(),
{
    if sorted.len() == 0 || !crate::text::text_less(x.id, sorted.last().id) {
        lemma_push_listed(sorted, x, id);
    } else {
        let front = sorted.drop_last();
        assert(sorted =~= front.push(sorted.last()));
        lemma_insert_listed(front, x, id);
        lemma_push_listed(insert_strand(front, x), sorted.last(), id);
        lemma_push_listed(front, sorted.last(), id);
    }
}

proof fn lemma_push_listed(all: Seq<AffectedStrandView>, x: AffectedStrandView, id: Seq<char>)
    ensures
        is_listed_strand(all.push(x), id) == (is_listed_strand(all, id) || x.id == id),
{
    let more = all.push(x);
    if is_listed_strand(all, id) {
        let i = choose|i: int| 0 <= i < all.len() && (#[trigger] all[i]).id == id;
        assert(more[i].id == id);
    }
    if x.id == id {
        assert(more[all.len() as int].id == id);
    }
    if is_listed_strand(more, id) {
        let i = choose|i: int| 0 <= i < more.len() && (#[trigger] more[i]).id == id;
        if i < all.len() {
            assert(all[i].id == id);
        }
    }
}

proof fn lemma_sort_listed(all: Seq<AffectedStrandView>, id: Seq<char>)
    ensures
        is_listed_strand(sort_strands(all), id) == is_listed_strand(all, id),
    decreases all.len(),
{
    if all.len() > 0 {
        let front = all.drop_last();
        assert(all =~= front.push(all.last()));
        lemma_sort_listed(front, id);
        lemma_insert_listed(sort_strands(front), all.last(), id);
        lemma_push_listed(front, all.last(), id);
    }
}

/// Two contexts put together list exactly the strands of either.
pub proof fn merged_contexts_have_the_strands_of_both(
    primary: ContextPacketView,
    additional: ContextPacketView,
    id: Seq<char>,
)
    ensures
        is_listed_strand(merged_context(primary, additional).strands, id) == (is_listed_strand(
            primary.strands,
            id,
        ) || is_listed_strand(additional.strands, id)),
{
    let n = additional.strands.len() as int;
    lemma_listed_strands(primary.strands, additional.strands, n, id);
    lemma_sort_listed(with_listed_strands(primary.strands, additional.strands, n), id);
}

} // verus!
