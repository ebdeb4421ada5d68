//! What contexts keep when they are put together and put in order.

use vstd::prelude::*;

use crate::commands::{gathered, Start};
use crate::config::ConfigView;
use crate::graph::{
    affected_packet, anchor_position, merged_context, represented_ids, seed_packet, sort_anchors,
    strand_position, with_anchor, with_anchors, with_listed_strand, with_listed_strands,
    without_shown, AffectedOptionsView,
};
use crate::graph_laws::{lemma_represented_ids, lemma_sort_anchors_contains};
use crate::model::{AffectedAnchorView, AffectedStrandView, ContextPacketView, IndexView};
use crate::reach_laws::names;

verus! {

/// Whether anchors list one with a role, and as touched directly where that is asked for.
pub open spec fn lists_anchor(
    anchors: Seq<AffectedAnchorView>,
    id: Seq<char>,
    role: Option<Seq<char>>,
    direct: bool,
) -> bool {
    exists|k: int|
        0 <= k < anchors.len() && (#[trigger] anchors[k]).id == id && anchors[k].role == role && (
        direct ==> anchors[k].direct)
}

/// Whether strands list an anchor with a role in a strand, and as touched directly where that
/// is asked for.
pub open spec fn lists_member(
    strands: Seq<AffectedStrandView>,
    strand: Seq<char>,
    id: Seq<char>,
    role: Option<Seq<char>>,
    direct: bool,
) -> bool {
    exists|i: int|
        0 <= i < strands.len() && (#[trigger] strands[i]).id == strand && lists_anchor(
            strands[i].anchors,
            id,
            role,
            direct,
        )
}

proof fn lemma_position(
    anchors: Seq<AffectedAnchorView>,
    id: Seq<char>,
    role: Option<Seq<char>>,
    i: int,
)
    requires
        0 <= i <= anchors.len(),
    ensures
        i <= anchor_position(anchors, id, role, i) <= anchors.len(),
        anchor_position(anchors, id, role, i) < anchors.len() ==> anchors[anchor_position(
            anchors,
            id,
            role,
            i,
        )].id == id && anchors[anchor_position(anchors, id, role, i)].role == role,
    decreases anchors.len() - i,
{
    if i < anchors.len() && !(anchors[i].id == id && anchors[i].role == role) {
        lemma_position(anchors, id, role, i + 1);
    }
}

proof fn lemma_with_anchor(
    anchors: Seq<AffectedAnchorView>,
    x: AffectedAnchorView,
    id: Seq<char>,
    role: Option<Seq<char>>,
    direct: bool,
)
    ensures
        lists_anchor(anchors, id, role, direct) ==> lists_anchor(
            with_anchor(anchors, x),
            id,
            role,
            direct,
        ),
        x.id == id && x.role == role && (direct ==> x.direct) ==> lists_anchor(
            with_anchor(anchors, x),
            id,
            role,
            direct,
        ),
        lists_anchor(with_anchor(anchors, x), id, role, false) ==> lists_anchor(
            anchors,
            id,
            role,
            false,
        ) || (x.id == id && x.role == role),
{
    let now = with_anchor(anchors, x);
    let at = anchor_position(anchors, x.id, x.role, 0);
    lemma_position(anchors, x.id, x.role, 0);
    if lists_anchor(anchors, id, role, direct) {
        let k = choose|k: int|
            0 <= k < anchors.len() && (#[trigger] anchors[k]).id == id && anchors[k].role == role
                && (direct ==> anchors[k].direct);
        assert(now[k].id == id && now[k].role == role);
    }
    if x.id == id && x.role == role && (direct ==> x.direct) {
        assert(now[at].id == id && now[at].role == role);
    }
    if lists_anchor(now, id, role, false) {
        let k = choose|k: int|
            0 <= k < now.len() && (#[trigger] now[k]).id == id && now[k].role == role && (false
                ==> now[k].direct);
        if k < anchors.len() {
            assert(anchors[k].id == id && anchors[k].role == role);
        }
    }
}

proof fn lemma_with_anchors(
    anchors: Seq<AffectedAnchorView>,
    more: Seq<AffectedAnchorView>,
    n: int,
    id: Seq<char>,
    role: Option<Seq<char>>,
    direct: bool,
)
    requires
        0 <= n <= more.len(),
    ensures
        lists_anchor(anchors, id, role, direct) || lists_anchor(more.take(n), id, role, direct)
            ==> lists_anchor(with_anchors(anchors, more, n), id, role, direct),
        lists_anchor(with_anchors(anchors, more, n), id, role, false) ==> lists_anchor(
            anchors,
            id,
            role,
            false,
        ) || lists_anchor(more.take(n), id, role, false),
    decreases n,
{
    if n > 0 {
        lemma_with_anchors(anchors, more, n - 1, id, role, direct);
        let x = more[n - 1];
        lemma_with_anchor(with_anchors(anchors, more, n - 1), x, id, role, direct);
        if lists_anchor(more.take(n), id, role, direct) {
            let k = choose|k: int|
                0 <= k < n && (#[trigger] more.take(n)[k]).id == id && more.take(n)[k].role == role
                    && (direct ==> more.take(n)[k].direct);
            if k < n - 1 {
                assert(more.take(n - 1)[k] == more.take(n)[k]);
            }
        }
        if lists_anchor(more.take(n - 1), id, role, false) {
            let k = choose|k: int|
                0 <= k < n - 1 && (#[trigger] more.take(n - 1)[k]).id == id && more.take(n
                    - 1)[k].role == role && (false ==> more.take(n - 1)[k].direct);
            assert(more.take(n)[k] == more.take(n - 1)[k]);
        }
        assert(more.take(n)[n - 1] == x);
    }
}

proof fn lemma_sorted_lists(
    anchors: Seq<AffectedAnchorView>,
    id: Seq<char>,
    role: Option<Seq<char>>,
    direct: bool,
)
    ensures
        lists_anchor(sort_anchors(anchors), id, role, direct) <==> lists_anchor(
            anchors,
            id,
            role,
            direct,
        ),
{
    let sorted = sort_anchors(anchors);
    if lists_anchor(anchors, id, role, direct) {
        let k = choose|k: int|
            0 <= k < anchors.len() && (#[trigger] anchors[k]).id == id && anchors[k].role == role
                && (direct ==> anchors[k].direct);
        assert(anchors.contains(anchors[k]));
        lemma_sort_anchors_contains(anchors, anchors[k]);
        let at = sorted.index_of(anchors[k]);
        assert(sorted[at].id == id);
    }
    if lists_anchor(sorted, id, role, direct) {
        let k = choose|k: int|
            0 <= k < sorted.len() && (#[trigger] sorted[k]).id == id && sorted[k].role == role && (
            direct ==> sorted[k].direct);
        assert(sorted.contains(sorted[k]));
        lemma_sort_anchors_contains(anchors, sorted[k]);
        let at = anchors.index_of(sorted[k]);
        assert(anchors[at].id == id);
    }
}

proof fn lemma_strand_position(strands: Seq<AffectedStrandView>, id: Seq<char>, i: int)
    requires
        0 <= i <= strands.len(),
    ensures
        i <= strand_position(strands, id, i) <= strands.len(),
        strand_position(strands, id, i) < strands.len() ==> strands[strand_position(
            strands,
            id,
            i,
        )].id == id,
    decreases strands.len() - i,
{
    if i < strands.len() && strands[i].id != id {
        lemma_strand_position(strands, id, i + 1);
    }
}

proof fn lemma_with_strand(
    strands: Seq<AffectedStrandView>,
    x: AffectedStrandView,
    s: Seq<char>,
    id: Seq<char>,
    role: Option<Seq<char>>,
    direct: bool,
)
    ensures
        lists_member(strands, s, id, role, direct) ==> lists_member(
            with_listed_strand(strands, x),
            s,
            id,
            role,
            direct,
        ),
        x.id == s && lists_anchor(x.anchors, id, role, direct) ==> lists_member(
            with_listed_strand(strands, x),
            s,
            id,
            role,
            direct,
        ),
        lists_member(with_listed_strand(strands, x), s, id, role, false) ==> lists_member(
            strands,
            s,
            id,
            role,
            false,
        ) || (x.id == s && lists_anchor(x.anchors, id, role, false)),
{
    let now = with_listed_strand(strands, x);
    let at = strand_position(strands, x.id, 0);
    lemma_strand_position(strands, x.id, 0);
    assert(x.anchors.take(x.anchors.len() as int) =~= x.anchors);
    if at < strands.len() {
        let own = strands[at].anchors;
        let n = x.anchors.len() as int;
        let both = with_anchors(own, x.anchors, n);
        lemma_with_anchors(own, x.anchors, n, id, role, direct);
        lemma_sorted_lists(both, id, role, direct);
        lemma_with_anchors(own, x.anchors, n, id, role, false);
        lemma_sorted_lists(both, id, role, false);
        assert(now[at].anchors == sort_anchors(both));
    }
    if lists_member(strands, s, id, role, direct) {
        let i = choose|i: int|
            0 <= i < strands.len() && (#[trigger] strands[i]).id == s && lists_anchor(
                strands[i].anchors,
                id,
                role,
                direct,
            );
        assert(now[i].id == s);
    }
    if x.id == s && lists_anchor(x.anchors, id, role, direct) {
        assert(now[at].id == s);
    }
    if lists_member(now, s, id, role, false) {
        let i = choose|i: int|
            0 <= i < now.len() && (#[trigger] now[i]).id == s && lists_anchor(
                now[i].anchors,
                id,
                role,
                false,
            );
        if i < strands.len() {
            assert(strands[i].id == s);
        }
    }
}

proof fn lemma_with_strands(
    strands: Seq<AffectedStrandView>,
    more: Seq<AffectedStrandView>,
    n: int,
    s: Seq<char>,
    id: Seq<char>,
    role: Option<Seq<char>>,
    direct: bool,
)
    requires
        0 <= n <= more.len(),
    ensures
        lists_member(strands, s, id, role, direct) || lists_member(
            more.take(n),
            s,
            id,
            role,
            direct,
        ) ==> lists_member(with_listed_strands(strands, more, n), s, id, role, direct),
        lists_member(with_listed_strands(strands, more, n), s, id, role, false) ==> lists_member(
            strands,
            s,
            id,
            role,
            false,
        ) || lists_member(more.take(n), s, id, role, false),
    decreases n,
{
    if n > 0 {
        lemma_with_strands(strands, more, n - 1, s, id, role, direct);
        let x = more[n - 1];
        lemma_with_strand(with_listed_strands(strands, more, n - 1), x, s, id, role, direct);
        if lists_member(more.take(n), s, id, role, direct) {
            let k = choose|k: int|
                0 <= k < n && (#[trigger] more.take(n)[k]).id == s && lists_anchor(
                    more.take(n)[k].anchors,
                    id,
                    role,
                    direct,
                );
            if k < n - 1 {
                assert(more.take(n - 1)[k] == more.take(n)[k]);
            }
        }
        if lists_member(more.take(n - 1), s, id, role, false) {
            let k = choose|k: int|
                0 <= k < n - 1 && (#[trigger] more.take(n - 1)[k]).id == s && lists_anchor(
                    more.take(n - 1)[k].anchors,
                    id,
                    role,
                    false,
                );
            assert(more.take(n)[k] == more.take(n - 1)[k]);
        }
        assert(more.take(n)[n - 1] == x);
    }
}

proof fn lemma_pushed<T>(all: Seq<T>, x: T, y: T)
    ensures
        all.push(x).contains(y) <==> all.contains(y) || x == y,
{
    let more = all.push(x);
    if more.contains(y) {
        let k = more.index_of(y);
        if k < all.len() {
            assert(all[k] == y);
        }
    }
    if all.contains(y) {
        let k = all.index_of(y);
        assert(more[k] == y);
    }
    assert(more[all.len() as int] == x);
}

proof fn lemma_insert_by_name(
    sorted: Seq<AffectedStrandView>,
    x: AffectedStrandView,
    y: AffectedStrandView,
)
    ensures
        crate::graph::insert_strand(sorted, x).contains(y) <==> sorted.contains(y) || x == y,
    decreases sorted.len(),
{
    lemma_pushed(sorted, x, y);
    if sorted.len() > 0 && crate::text::text_less(x.id, sorted.last().id) {
        let front = sorted.drop_last();
        assert(sorted =~= front.push(sorted.last()));
        lemma_insert_by_name(front, x, y);
        lemma_pushed(crate::graph::insert_strand(front, x), sorted.last(), y);
        lemma_pushed(front, sorted.last(), y);
    }
}

proof fn lemma_sort_by_name(all: Seq<AffectedStrandView>, y: AffectedStrandView)
    ensures
        crate::graph::sort_strands(all).contains(y) <==> all.contains(y),
    decreases all.len(),
{
    if all.len() > 0 {
        let front = all.drop_last();
        assert(all =~= front.push(all.last()));
        lemma_sort_by_name(front, y);
        lemma_insert_by_name(crate::graph::sort_strands(front), all.last(), y);
        lemma_pushed(front, all.last(), y);
    }
}

proof fn lemma_insert_by_rank(
    sorted: Seq<AffectedStrandView>,
    x: AffectedStrandView,
    y: AffectedStrandView,
)
    ensures
        crate::commands::insert_strand(sorted, x).contains(y) <==> sorted.contains(y) || x == y,
        crate::commands::insert_strand(sorted, x).len() == sorted.len() + 1,
    decreases sorted.len(),
{
    lemma_pushed(sorted, x, y);
    if sorted.len() > 0 && crate::commands::strand_less(x, sorted.last()) {
        let front = sorted.drop_last();
        assert(sorted =~= front.push(sorted.last()));
        lemma_insert_by_rank(front, x, y);
        lemma_pushed(crate::commands::insert_strand(front, x), sorted.last(), y);
        lemma_pushed(front, sorted.last(), y);
    }
}

proof fn lemma_sort_by_rank(all: Seq<AffectedStrandView>, y: AffectedStrandView)
    ensures
        crate::commands::sort_strands(all).contains(y) <==> all.contains(y),
        crate::commands::sort_strands(all).len() == all.len(),
    decreases all.len(),
{
    if all.len() > 0 {
        let front = all.drop_last();
        assert(all =~= front.push(all.last()));
        lemma_sort_by_rank(front, y);
        lemma_insert_by_rank(crate::commands::sort_strands(front), all.last(), y);
        lemma_pushed(front, all.last(), y);
    }
}

proof fn lemma_members_sorted(
    all: Seq<AffectedStrandView>,
    s: Seq<char>,
    id: Seq<char>,
    role: Option<Seq<char>>,
    direct: bool,
)
    ensures
        lists_member(crate::graph::sort_strands(all), s, id, role, direct) <==> lists_member(
            all,
            s,
            id,
            role,
            direct,
        ),
{
    let sorted = crate::graph::sort_strands(all);
    if lists_member(all, s, id, role, direct) {
        let i = choose|i: int|
            0 <= i < all.len() && (#[trigger] all[i]).id == s && lists_anchor(
                all[i].anchors,
                id,
                role,
                direct,
            );
        assert(all.contains(all[i]));
        lemma_sort_by_name(all, all[i]);
        let at = sorted.index_of(all[i]);
        assert(sorted[at].id == s);
    }
    if lists_member(sorted, s, id, role, direct) {
        let i = choose|i: int|
            0 <= i < sorted.len() && (#[trigger] sorted[i]).id == s && lists_anchor(
                sorted[i].anchors,
                id,
                role,
                direct,
            );
        assert(sorted.contains(sorted[i]));
        lemma_sort_by_name(all, sorted[i]);
        let at = all.index_of(sorted[i]);
        assert(all[at].id == s);
    }
}

/// Two contexts put together list exactly the members of the strands of either, each with its
/// role, and as touched directly where either does.
pub proof fn merged_contexts_have_the_members_of_both(
    primary: ContextPacketView,
    additional: ContextPacketView,
    strand: Seq<char>,
    id: Seq<char>,
    role: Option<Seq<char>>,
    direct: bool,
)
    ensures
        lists_member(primary.strands, strand, id, role, direct) || lists_member(
            additional.strands,
            strand,
            id,
            role,
            direct,
        ) ==> lists_member(
            merged_context(primary, additional).strands,
            strand,
            id,
            role,
            direct,
        ),
        lists_member(
            merged_context(primary, additional).strands,
            strand,
            id,
            role,
            false,
        ) ==> lists_member(primary.strands, strand, id, role, false) || lists_member(
            additional.strands,
            strand,
            id,
            role,
            false,
        ),
{
    let n = additional.strands.len() as int;
    assert(additional.strands.take(n) =~= additional.strands);
    let both = with_listed_strands(primary.strands, additional.strands, n);
    lemma_with_strands(primary.strands, additional.strands, n, strand, id, role, direct);
    lemma_with_strands(primary.strands, additional.strands, n, strand, id, role, false);
    lemma_members_sorted(both, strand, id, role, direct);
    lemma_members_sorted(both, strand, id, role, false);
}

proof fn lemma_without_shown(
    anchors: Seq<AffectedAnchorView>,
    shown: Set<Seq<char>>,
    n: int,
    x: AffectedAnchorView,
)
    requires
        0 <= n <= anchors.len(),
    ensures
        without_shown(anchors, shown, n).contains(x) <==> anchors.take(n).contains(x)
            && !shown.contains(x.id),
    decreases n,
{
    if n > 0 {
        lemma_without_shown(anchors, shown, n - 1, x);
        assert(anchors.take(n) =~= anchors.take(n - 1).push(anchors[n - 1]));
        lemma_pushed(anchors.take(n - 1), anchors[n - 1], x);
        lemma_pushed(without_shown(anchors, shown, n - 1), anchors[n - 1], x);
    }
}

/// Two contexts put together name every anchor that either names.
pub proof fn merged_contexts_name_the_anchors_of_both(
    primary: ContextPacketView,
    additional: ContextPacketView,
    id: Seq<char>,
)
    requires
        names(primary, id) || names(additional, id),
    ensures
        names(merged_context(primary, additional), id),
{
    let merged = merged_context(primary, additional);
    let n = additional.related_anchors.len() as int;
    assert(additional.related_anchors.take(n) =~= additional.related_anchors);
    let related = with_anchors(primary.related_anchors, additional.related_anchors, n);
    let shown = represented_ids(merged.strands, merged.strands.len() as int);
    lemma_represented_ids(merged.strands, merged.strands.len() as int, id);
    if exists|i: int, j: int|
        0 <= i < primary.strands.len() && 0 <= j < primary.strands[i].anchors.len() && (
        #[trigger] primary.strands[i].anchors[j]).id == id {
        let (i, j) = choose|i: int, j: int|
            0 <= i < primary.strands.len() && 0 <= j < primary.strands[i].anchors.len() && (
            #[trigger] primary.strands[i].anchors[j]).id == id;
        lemma_names_merged(primary, additional, primary.strands, i, j);
    } else if exists|i: int, j: int|
        0 <= i < additional.strands.len() && 0 <= j < additional.strands[i].anchors.len() && (
        #[trigger] additional.strands[i].anchors[j]).id == id {
        let (i, j) = choose|i: int, j: int|
            0 <= i < additional.strands.len() && 0 <= j < additional.strands[i].anchors.len() && (
            #[trigger] additional.strands[i].anchors[j]).id == id;
        lemma_names_merged(primary, additional, additional.strands, i, j);
    } else {
        let from = if exists|k: int|
            0 <= k < primary.related_anchors.len() && (#[trigger] primary.related_anchors[k]).id
                == id {
            primary.related_anchors
        } else {
            additional.related_anchors
        };
        let k = choose|k: int| 0 <= k < from.len() && (#[trigger] from[k]).id == id;
        let role = from[k].role;
        assert(lists_anchor(from, id, role, false));
        lemma_with_anchors(
            primary.related_anchors,
            additional.related_anchors,
            n,
            id,
            role,
            false,
        );
        let m = choose|m: int|
            0 <= m < related.len() && (#[trigger] related[m]).id == id && related[m].role == role
                && (false ==> related[m].direct);
        let x = related[m];
        if !shown.contains(id) {
            let all = related.len() as int;
            assert(related.take(all) =~= related);
            assert(related.contains(x));
            lemma_without_shown(related, shown, all, x);
            let left = without_shown(related, shown, all);
            lemma_sort_anchors_contains(left, x);
            let at = merged.related_anchors.index_of(x);
            assert(merged.related_anchors[at].id == id);
        }
    }
}

proof fn lemma_names_merged(
    primary: ContextPacketView,
    additional: ContextPacketView,
    strands: Seq<AffectedStrandView>,
    i: int,
    j: int,
)
    requires
        strands == primary.strands || strands == additional.strands,
        0 <= i < strands.len(),
        0 <= j < strands[i].anchors.len(),
    ensures
        names(merged_context(primary, additional), strands[i].anchors[j].id),
{
    let merged = merged_context(primary, additional);
    let id = strands[i].anchors[j].id;
    let role = strands[i].anchors[j].role;
    assert(lists_anchor(strands[i].anchors, id, role, false));
    assert(lists_member(strands, strands[i].id, id, role, false));
    merged_contexts_have_the_members_of_both(
        primary,
        additional,
        strands[i].id,
        id,
        role,
        false,
    );
    let k = choose|k: int|
        0 <= k < merged.strands.len() && (#[trigger] merged.strands[k]).id == strands[i].id
            && lists_anchor(merged.strands[k].anchors, id, role, false);
    let m = choose|m: int|
        0 <= m < merged.strands[k].anchors.len() && (#[trigger] merged.strands[k].anchors[m]).id
            == id && merged.strands[k].anchors[m].role == role && (false
            ==> merged.strands[k].anchors[m].direct);
    assert(merged.strands[k].anchors[m].id == id);
}

/// The context of a task has what its seeds reach, what its change reaches, or both together:
/// the same strands, only in another order.
pub proof fn gathered_contexts_have_all_strands(
    index: IndexView,
    config: ConfigView,
    options: AffectedOptionsView,
    start: Start,
    strand: AffectedStrandView,
)
    ensures
        ({
            let packet = gathered(index, config, options, start);
            let from = match start {
                Start::Seeds(seeds) => seed_packet(index, seeds@, config, options),
                Start::Changes(read) => affected_packet(
                    index,
                    read.changes@,
                    read.parsed@,
                    config,
                    options,
                ),
                Start::Both(seeds, read) => merged_context(
                    affected_packet(index, read.changes@, read.parsed@, config, options),
                    seed_packet(index, seeds@, config, options),
                ),
            };
            &&& packet.strands.contains(strand) <==> from.strands.contains(strand)
            &&& packet.strands.len() == from.strands.len()
            &&& packet.related_anchors == from.related_anchors
            &&& packet.unmatched_files == from.unmatched_files
            &&& packet.diagnostics == from.diagnostics
            &&& packet.changes == from.changes
        }),
{
    let from = match start {
        Start::Seeds(seeds) => seed_packet(index, seeds@, config, options),
        Start::Changes(read) => affected_packet(
            index,
            read.changes@,
            read.parsed@,
            config,
            options,
        ),
        Start::Both(seeds, read) => merged_context(
            affected_packet(index, read.changes@, read.parsed@, config, options),
            seed_packet(index, seeds@, config, options),
        ),
    };
    lemma_sort_by_rank(from.strands, strand);
}

} // verus!
