//! What commands take as their start, and what they list.

use vstd::prelude::*;

use crate::annotations::location_path;
use crate::cli::{AffectedArgs, AnchorListArgs, ContextArgs, StrandListArgs};
use crate::collections::{lemma_orderable, ordered};
use crate::commands::{
    focus, listed_anchors, listed_strands, options_of, place_number, places_of_anchors,
    places_of_path, places_of_paths, places_of_symbol, places_of_symbols, seeds_of,
    with_anchor_seeds, with_hit_anchors, with_hits, with_path_matches, with_path_seeds,
    with_searches, with_strand_seeds, with_symbol_matches, with_symbol_seeds, SearchOutcomeView,
    SeedsView,
};
use crate::hit_laws::{lemma_lies_under, lies_under};
use crate::model::{AnchorView, IndexView, StrandView};
use crate::search::SearchHitView;

verus! {

/// Whether an anchor of the index is a symbol.
pub open spec fn is_symbol_of(index: IndexView, id: Seq<char>, symbol: Seq<char>) -> bool {
    index.anchors.contains_key(id) && (index.anchors[id].value.location matches Some(location)
        && location.symbol == Some(symbol))
}

/// Whether an anchor of the index stands in a file at a path or below it.
pub open spec fn is_under(index: IndexView, id: Seq<char>, path: Seq<char>) -> bool {
    index.anchors.contains_key(id) && (index.anchors[id].value.location matches Some(location)
        && lies_under(location.path, path))
}

/// Whether one of the first symbols is that of an anchor.
spec fn among_symbols(index: IndexView, id: Seq<char>, symbols: Seq<Seq<char>>, n: int) -> bool {
    exists|k: int| 0 <= k < n && is_symbol_of(index, id, #[trigger] symbols[k])
}

/// Whether an anchor stands under one of the first paths.
spec fn among_paths(index: IndexView, id: Seq<char>, paths: Seq<Seq<char>>, n: int) -> bool {
    exists|k: int|
        0 <= k < n && location_path(#[trigger] paths[k]) is Ok && is_under(
            index,
            id,
            location_path(paths[k])->Ok_0,
        )
}

proof fn lemma_anchor_seeds(index: IndexView, ids: Seq<Seq<char>>, n: int)
    requires
        0 <= n <= ids.len(),
    ensures
        match with_anchor_seeds(index, ids, n) {
            Err(_) => exists|k: int| 0 <= k < n && !index.anchors.contains_key(#[trigger] ids[k]),
            Ok(seeds) => {
                &&& forall|k: int| 0 <= k < n ==> index.anchors.contains_key(#[trigger] ids[k])
                &&& forall|id: Seq<char>| #[trigger]
                    seeds.anchors.contains_key(id) <==> ids.take(n).contains(id)
                &&& seeds.strands == Map::<Seq<char>, Seq<char>>::empty()
                &&& seeds.search_anchors == Set::<Seq<char>>::empty()
                &&& seeds.matches.len() == 0
            },
        },
    decreases n,
{
    if n > 0 {
        lemma_anchor_seeds(index, ids, n - 1);
        assert(ids.take(n) =~= ids.take(n - 1).push(ids[n - 1]));
        match with_anchor_seeds(index, ids, n - 1) {
            Err(_) => {
                let k = choose|k: int|
                    0 <= k < n - 1 && !index.anchors.contains_key(#[trigger] ids[k]);
                assert(!index.anchors.contains_key(ids[k]));
            },
            Ok(before) => {
                if index.anchors.contains_key(ids[n - 1]) {
                    let now = with_anchor_seeds(index, ids, n)->Ok_0;
                    assert forall|id: Seq<char>| #[trigger]
                        now.anchors.contains_key(id) <==> ids.take(n).contains(id) by {
                        lemma_added(ids.take(n - 1), ids[n - 1], id);
                    }
                } else {
                    assert(!index.anchors.contains_key(ids[n - 1]));
                }
            },
        }
    } else {
        assert(ids.take(0) =~= seq![]);
    }
}

proof fn lemma_added<T>(all: Seq<T>, x: T, y: T)
    ensures
        all.push(x).contains(y) <==> all.contains(y) || x == y,
{
    let more = all.push(x);
    if more.contains(y) {
        let k = more.index_of(y);
        if k < all.len() {
            assert(all[k] == y);
        }
    }
    if all.contains(y) {
        let k = all.index_of(y);
        assert(more[k] == y);
    }
    assert(more[all.len() as int] == x);
}

proof fn lemma_strand_seeds(seeds: SeedsView, index: IndexView, ids: Seq<Seq<char>>, n: int)
    requires
        0 <= n <= ids.len(),
    ensures
        match with_strand_seeds(seeds, index, ids, n) {
            Err(_) => exists|k: int| 0 <= k < n && !index.strands.contains_key(#[trigger] ids[k]),
            Ok(now) => {
                &&& forall|k: int| 0 <= k < n ==> index.strands.contains_key(#[trigger] ids[k])
                &&& forall|id: Seq<char>| #[trigger]
                    now.strands.contains_key(id) <==> seeds.strands.contains_key(id) || ids.take(
                        n,
                    ).contains(id)
                &&& now.anchors == seeds.anchors
                &&& now.search_anchors == seeds.search_anchors
                &&& now.matches == seeds.matches
            },
        },
    decreases n,
{
    if n > 0 {
        lemma_strand_seeds(seeds, index, ids, n - 1);
        assert(ids.take(n) =~= ids.take(n - 1).push(ids[n - 1]));
        match with_strand_seeds(seeds, index, ids, n - 1) {
            Err(_) => {
                let k = choose|k: int|
                    0 <= k < n - 1 && !index.strands.contains_key(#[trigger] ids[k]);
                assert(!index.strands.contains_key(ids[k]));
            },
            Ok(before) => {
                if index.strands.contains_key(ids[n - 1]) {
                    let now = with_strand_seeds(seeds, index, ids, n)->Ok_0;
                    assert forall|id: Seq<char>| #[trigger]
                        now.strands.contains_key(id) <==> seeds.strands.contains_key(id)
                            || ids.take(n).contains(id) by {
                        lemma_added(ids.take(n - 1), ids[n - 1], id);
                    }
                } else {
                    assert(!index.strands.contains_key(ids[n - 1]));
                }
            },
        }
    } else {
        assert(ids.take(0) =~= seq![]);
    }
}

proof fn lemma_symbol_matches(
    reasons: Map<Seq<char>, Seq<char>>,
    index: IndexView,
    symbol: Seq<char>,
    n: int,
    id: Seq<char>,
)
    requires
        index.anchors.dom().finite(),
        0 <= n <= ordered(index.anchors.dom()).len(),
    ensures
        with_symbol_matches(reasons, index, symbol, n).contains_key(id)
            <==> reasons.contains_key(id) || (ordered(index.anchors.dom()).take(n).contains(id)
            && is_symbol_of(index, id, symbol)),
    decreases n,
{
    let keys = ordered(index.anchors.dom());
    if n > 0 {
        lemma_symbol_matches(reasons, index, symbol, n - 1, id);
        lemma_orderable(index.anchors.dom());
        assert(keys.to_set().contains(keys[n - 1]));
        assert(keys.take(n) =~= keys.take(n - 1).push(keys[n - 1]));
        lemma_added(keys.take(n - 1), keys[n - 1], id);
    } else {
        assert(keys.take(0) =~= seq![]);
    }
}

proof fn lemma_path_matches(
    reasons: Map<Seq<char>, Seq<char>>,
    index: IndexView,
    path: Seq<char>,
    n: int,
    id: Seq<char>,
)
    requires
        index.anchors.dom().finite(),
        0 <= n <= ordered(index.anchors.dom()).len(),
    ensures
        with_path_matches(reasons, index, path, n).contains_key(id) <==> reasons.contains_key(id)
            || (ordered(index.anchors.dom()).take(n).contains(id) && is_under(index, id, path)),
    decreases n,
{
    let keys = ordered(index.anchors.dom());
    if n > 0 {
        lemma_path_matches(reasons, index, path, n - 1, id);
        lemma_orderable(index.anchors.dom());
        assert(keys.to_set().contains(keys[n - 1]));
        assert(keys.take(n) =~= keys.take(n - 1).push(keys[n - 1]));
        lemma_added(keys.take(n - 1), keys[n - 1], id);
        if index.anchors[keys[n - 1]].value.location is Some {
            lemma_lies_under(index.anchors[keys[n - 1]].value.location->0.path, path);
        }
    } else {
        assert(keys.take(0) =~= seq![]);
    }
}

proof fn lemma_symbol_seeds(
    seeds: SeedsView,
    index: IndexView,
    symbols: Seq<Seq<char>>,
    n: int,
    id: Seq<char>,
)
    requires
        index.anchors.dom().finite(),
        0 <= n <= symbols.len(),
    ensures
        ({
            let now = with_symbol_seeds(seeds, index, symbols, n);
            &&& now.anchors.contains_key(id) <==> seeds.anchors.contains_key(id) || among_symbols(
                index,
                id,
                symbols,
                n,
            )
            &&& now.strands == seeds.strands
            &&& now.search_anchors == seeds.search_anchors
            &&& now.matches == seeds.matches
        }),
    decreases n,
{
    if n > 0 {
        lemma_symbol_seeds(seeds, index, symbols, n - 1, id);
        let before = with_symbol_seeds(seeds, index, symbols, n - 1);
        let keys = ordered(index.anchors.dom());
        let all = keys.len() as int;
        lemma_symbol_matches(before.anchors, index, symbols[n - 1], all, id);
        lemma_orderable(index.anchors.dom());
        assert(keys.take(all) =~= keys);
        assert(index.anchors.contains_key(id) ==> keys.to_set().contains(id));
        if among_symbols(index, id, symbols, n - 1) {
            let k = choose|k: int| 0 <= k < n - 1 && is_symbol_of(index, id, #[trigger] symbols[k]);
            assert(is_symbol_of(index, id, symbols[k]));
        }
        if is_symbol_of(index, id, symbols[n - 1]) {
            assert(among_symbols(index, id, symbols, n));
        }
    }
}

proof fn lemma_path_seeds(
    seeds: SeedsView,
    index: IndexView,
    paths: Seq<Seq<char>>,
    n: int,
    id: Seq<char>,
)
    requires
        index.anchors.dom().finite(),
        0 <= n <= paths.len(),
        with_path_seeds(seeds, index, paths, n) is Ok,
    ensures
        ({
            let now = with_path_seeds(seeds, index, paths, n)->Ok_0;
            &&& now.anchors.contains_key(id) <==> seeds.anchors.contains_key(id) || among_paths(
                index,
                id,
                paths,
                n,
            )
            &&& now.strands == seeds.strands
            &&& now.search_anchors == seeds.search_anchors
            &&& now.matches == seeds.matches
        }),
    decreases n,
{
    if n > 0 {
        lemma_path_seeds(seeds, index, paths, n - 1, id);
        let before = with_path_seeds(seeds, index, paths, n - 1)->Ok_0;
        let path = location_path(paths[n - 1])->Ok_0;
        let keys = ordered(index.anchors.dom());
        let all = keys.len() as int;
        lemma_path_matches(before.anchors, index, path, all, id);
        lemma_orderable(index.anchors.dom());
        assert(keys.take(all) =~= keys);
        assert(index.anchors.contains_key(id) ==> keys.to_set().contains(id));
        if among_paths(index, id, paths, n - 1) {
            let k = choose|k: int|
                0 <= k < n - 1 && location_path(#[trigger] paths[k]) is Ok && is_under(
                    index,
                    id,
                    location_path(paths[k])->Ok_0,
                );
            assert(location_path(paths[k]) is Ok);
        }
        if is_under(index, id, path) {
            assert(location_path(paths[n - 1]) is Ok);
            assert(among_paths(index, id, paths, n));
        }
    }
}

proof fn lemma_hit_anchors(seeds: SeedsView, hit: SearchHitView, n: int, id: Seq<char>)
    requires
        0 <= n <= hit.anchors.len(),
    ensures
        ({
            let now = with_hit_anchors(seeds, hit, n);
            &&& now.anchors.contains_key(id) <==> seeds.anchors.contains_key(id)
                || hit.anchors.take(n).contains(id)
            &&& now.search_anchors.contains(id) <==> seeds.search_anchors.contains(id)
                || hit.anchors.take(n).contains(id)
            &&& now.strands == seeds.strands
            &&& now.matches == seeds.matches
        }),
    decreases n,
{
    if n > 0 {
        lemma_hit_anchors(seeds, hit, n - 1, id);
        assert(hit.anchors.take(n) =~= hit.anchors.take(n - 1).push(hit.anchors[n - 1]));
        lemma_added(hit.anchors.take(n - 1), hit.anchors[n - 1], id);
    } else {
        assert(hit.anchors.take(0) =~= seq![]);
    }
}

/// Whether one of the first hits has an anchor.
spec fn among_hits(hits: Seq<SearchHitView>, n: int, id: Seq<char>) -> bool {
    exists|k: int| 0 <= k < n && (#[trigger] hits[k]).anchors.contains(id)
}

proof fn lemma_hits(seeds: SeedsView, hits: Seq<SearchHitView>, n: int, id: Seq<char>)
    requires
        0 <= n <= hits.len(),
    ensures
        ({
            let now = with_hits(seeds, hits, n);
            &&& now.anchors.contains_key(id) <==> seeds.anchors.contains_key(id) || among_hits(
                hits,
                n,
                id,
            )
            &&& now.search_anchors.contains(id) <==> seeds.search_anchors.contains(id)
                || among_hits(hits, n, id)
            &&& now.strands == seeds.strands
            &&& now.matches == seeds.matches + hits.take(n)
        }),
    decreases n,
{
    if n > 0 {
        lemma_hits(seeds, hits, n - 1, id);
        let hit = hits[n - 1];
        let all = hit.anchors.len() as int;
        assert(hit.anchors.take(all) =~= hit.anchors);
        lemma_hit_anchors(with_hits(seeds, hits, n - 1), hit, all, id);
        assert(hits.take(n) =~= hits.take(n - 1).push(hit));
        assert(with_hits(seeds, hits, n).matches =~= seeds.matches + hits.take(n));
        if among_hits(hits, n - 1, id) {
            let k = choose|k: int| 0 <= k < n - 1 && (#[trigger] hits[k]).anchors.contains(id);
            assert(hits[k].anchors.contains(id));
        }
        if hit.anchors.contains(id) {
            assert(hits[n - 1].anchors.contains(id));
        }
    } else {
        assert(with_hits(seeds, hits, n).matches =~= seeds.matches + hits.take(0));
    }
}

/// Whether one of the first searches found a hit with an anchor.
spec fn among_found(found: Seq<SearchOutcomeView>, n: int, id: Seq<char>) -> bool {
    exists|k: int, h: int|
        0 <= k < n && found[k] is Found && 0 <= h < found[k]->Found_0.len() && (
        #[trigger] found[k]->Found_0[h]).anchors.contains(id)
}

proof fn lemma_searches(
    seeds: SeedsView,
    queries: Seq<Seq<char>>,
    found: Seq<SearchOutcomeView>,
    paths: Seq<Seq<char>>,
    n: int,
    id: Seq<char>,
)
    requires
        0 <= n <= found.len(),
        with_searches(seeds, queries, found, paths, n) is Ok,
    ensures
        ({
            let now = with_searches(seeds, queries, found, paths, n)->Ok_0;
            &&& now.anchors.contains_key(id) <==> seeds.anchors.contains_key(id) || among_found(
                found,
                n,
                id,
            )
            &&& now.search_anchors.contains(id) <==> seeds.search_anchors.contains(id)
                || among_found(found, n, id)
            &&& now.strands == seeds.strands
            &&& forall|k: int, h: int|
                0 <= k < n && found[k] is Found && 0 <= h < found[k]->Found_0.len()
                    ==> now.matches.contains(#[trigger] found[k]->Found_0[h])
        }),
    decreases n,
{
    if n > 0 {
        lemma_searches(seeds, queries, found, paths, n - 1, id);
        let before = with_searches(seeds, queries, found, paths, n - 1)->Ok_0;
        let now = with_searches(seeds, queries, found, paths, n)->Ok_0;
        let hits = found[n - 1]->Found_0;
        let all = hits.len() as int;
        let told = SeedsView {
            descriptions: before.descriptions.push(
                crate::commands::search_description(queries[n - 1], paths),
            ),
            ..before
        };
        lemma_hits(told, hits, all, id);
        assert(hits.take(all) =~= hits);
        if among_found(found, n - 1, id) {
            let (k, h) = choose|k: int, h: int|
                0 <= k < n - 1 && found[k] is Found && 0 <= h < found[k]->Found_0.len() && (
                #[trigger] found[k]->Found_0[h]).anchors.contains(id);
            assert(found[k]->Found_0[h].anchors.contains(id));
        }
        if among_hits(hits, all, id) {
            let h = choose|h: int| 0 <= h < all && (#[trigger] hits[h]).anchors.contains(id);
            assert(found[n - 1]->Found_0[h].anchors.contains(id));
        }
        if among_found(found, n, id) && !among_found(found, n - 1, id) {
            let (k, h) = choose|k: int, h: int|
                0 <= k < n && found[k] is Found && 0 <= h < found[k]->Found_0.len() && (
                #[trigger] found[k]->Found_0[h]).anchors.contains(id);
            if k < n - 1 {
                assert(found[k]->Found_0[h].anchors.contains(id));
                assert(among_found(found, n - 1, id));
            }
            assert(hits[h].anchors.contains(id));
        }
        assert forall|k: int, h: int|
            0 <= k < n && found[k] is Found && 0 <= h < found[k]->Found_0.len() implies
            now.matches.contains(#[trigger] found[k]->Found_0[h]) by {
            let hit = found[k]->Found_0[h];
            if k < n - 1 {
                assert(before.matches.contains(hit));
                let at = before.matches.index_of(hit);
                assert(now.matches[at] == hit);
            } else {
                assert(now.matches[before.matches.len() + h] == hit);
            }
        }
    }
}

/// A context starts from all that is asked for and from nothing else: the anchors that are
/// named, those of the named symbols, those in files under the named paths and those that a
/// search found; the strands that are named; and every hit of every search.
pub proof fn contexts_start_from_all_that_is_asked_for(
    index: IndexView,
    args: ContextArgs,
    found: Seq<SearchOutcomeView>,
    id: Seq<char>,
)
    requires
        index.anchors.dom().finite(),
        found.len() == args.searches@.len(),
        seeds_of(index, args, found) is Ok,
    ensures
        ({
            let seeds = seeds_of(index, args, found)->Ok_0;
            let is_found = exists|k: int, h: int|
                0 <= k < found.len() && found[k] is Found && 0 <= h < found[k]->Found_0.len() && (
                #[trigger] found[k]->Found_0[h]).anchors.contains(id);
            &&& seeds.anchors.contains_key(id) <==> args.anchors.deep_view().contains(id) || (
            exists|k: int|
                0 <= k < args.symbols.deep_view().len() && is_symbol_of(
                    index,
                    id,
                    #[trigger] args.symbols.deep_view()[k],
                )) || (exists|k: int|
                0 <= k < args.paths.deep_view().len() && location_path(
                    #[trigger] args.paths.deep_view()[k],
                ) is Ok && is_under(index, id, location_path(args.paths.deep_view()[k])->Ok_0))
                || is_found
            &&& seeds.search_anchors.contains(id) <==> is_found
            &&& seeds.strands.contains_key(id) <==> args.strands.deep_view().contains(id)
            &&& forall|k: int, h: int|
                0 <= k < found.len() && found[k] is Found && 0 <= h < found[k]->Found_0.len()
                    ==> seeds.source_matches.contains(#[trigger] found[k]->Found_0[h])
        }),
{
    let anchors = args.anchors.deep_view();
    let strands = args.strands.deep_view();
    let symbols = args.symbols.deep_view();
    let paths = args.paths.deep_view();
    let a = with_anchor_seeds(index, anchors, anchors.len() as int)->Ok_0;
    lemma_anchor_seeds(index, anchors, anchors.len() as int);
    assert(anchors.take(anchors.len() as int) =~= anchors);
    let b = with_strand_seeds(a, index, strands, strands.len() as int)->Ok_0;
    lemma_strand_seeds(a, index, strands, strands.len() as int);
    assert(strands.take(strands.len() as int) =~= strands);
    let c = with_symbol_seeds(b, index, symbols, symbols.len() as int);
    lemma_symbol_seeds(b, index, symbols, symbols.len() as int, id);
    let d = with_path_seeds(c, index, paths, paths.len() as int)->Ok_0;
    lemma_path_seeds(c, index, paths, paths.len() as int, id);
    let search_paths = crate::commands::location_paths(
        args.search_paths.deep_view(),
        args.search_paths@.len() as int,
    )->Ok_0;
    lemma_searches(
        d,
        args.searches.deep_view(),
        found,
        search_paths,
        args.searches@.len() as int,
        id,
    );
}

/// Anchors and strands that there are not cannot be asked for.
pub proof fn unknown_seeds_are_refused(
    index: IndexView,
    args: ContextArgs,
    found: Seq<SearchOutcomeView>,
    id: Seq<char>,
)
    requires
        (args.anchors.deep_view().contains(id) && !index.anchors.contains_key(id)) || (
        args.strands.deep_view().contains(id) && !index.strands.contains_key(id)),
    ensures
        seeds_of(index, args, found) is Err,
{
    let anchors = args.anchors.deep_view();
    let strands = args.strands.deep_view();
    lemma_anchor_seeds(index, anchors, anchors.len() as int);
    if let Ok(a) = with_anchor_seeds(index, anchors, anchors.len() as int) {
        lemma_strand_seeds(a, index, strands, strands.len() as int);
        if anchors.contains(id) && !index.anchors.contains_key(id) {
            let k = anchors.index_of(id);
            assert(index.anchors.contains_key(anchors[k]));
        }
        if strands.contains(id) && !index.strands.contains_key(id) {
            let k = strands.index_of(id);
            if with_strand_seeds(a, index, strands, strands.len() as int) is Ok {
                assert(index.strands.contains_key(strands[k]));
            }
        }
    }
}

proof fn lemma_listed_strands(index: IndexView, args: StrandListArgs, n: int, x: StrandView)
    requires
        0 <= n <= ordered(index.strands.dom()).len(),
    ensures
        listed_strands(index, args, n).contains(x) <==> exists|k: int|
            0 <= k < n && index.strands[#[trigger] ordered(index.strands.dom())[k]].value == x && (
            args.tag is None || x.tags.contains(args.tag->0@)) && (args.scope is None || x.scope
                == Some(args.scope->0@)),
    decreases n,
{
    let keys = ordered(index.strands.dom());
    if n > 0 {
        lemma_listed_strands(index, args, n - 1, x);
        let before = listed_strands(index, args, n - 1);
        let strand = index.strands[keys[n - 1]].value;
        lemma_added(before, strand, x);
        if before.contains(x) {
            let k = choose|k: int|
                0 <= k < n - 1 && index.strands[#[trigger] keys[k]].value == x && (args.tag is None
                    || x.tags.contains(args.tag->0@)) && (args.scope is None || x.scope == Some(
                    args.scope->0@,
                ));
            assert(index.strands[keys[k]].value == x);
        }
        if strand == x {
            assert(index.strands[keys[n - 1]].value == x);
        }
    }
}

/// Every strand of the index that has the tag and the scope that are asked for, where any are,
/// is listed, and no other.
pub proof fn lists_show_every_strand(index: IndexView, args: StrandListArgs, strand: StrandView)
    requires
        index.strands.dom().finite(),
    ensures
        listed_strands(index, args, ordered(index.strands.dom()).len() as int).contains(strand)
            <==> (exists|id: Seq<char>| #[trigger]
            index.strands.contains_key(id) && index.strands[id].value == strand) && (args.tag is None
            || strand.tags.contains(args.tag->0@)) && (args.scope is None || strand.scope == Some(
            args.scope->0@,
        )),
{
    lemma_orderable(index.strands.dom());
    let keys = ordered(index.strands.dom());
    let n = keys.len() as int;
    lemma_listed_strands(index, args, n, strand);
    if listed_strands(index, args, n).contains(strand) {
        let k = choose|k: int|
            0 <= k < n && index.strands[#[trigger] keys[k]].value == strand && (args.tag is None
                || strand.tags.contains(args.tag->0@)) && (args.scope is None || strand.scope
                == Some(args.scope->0@));
        assert(keys.to_set().contains(keys[k]));
        assert(index.strands.contains_key(keys[k]));
    }
    if exists|id: Seq<char>| #[trigger]
        index.strands.contains_key(id) && index.strands[id].value == strand {
        let id = choose|id: Seq<char>| #[trigger]
            index.strands.contains_key(id) && index.strands[id].value == strand;
        assert(keys.to_set().contains(id));
        let k = keys.index_of(id);
        assert(index.strands[keys[k]].value == strand);
    }
}

/// Whether an anchor has the kind, the tag and the path that are asked for, where any are.
pub open spec fn fits_list(anchor: AnchorView, args: AnchorListArgs) -> bool {
    &&& args.kind is None || anchor.kind == Some(args.kind->0@)
    &&& args.tag is None || anchor.tags.contains(args.tag->0@)
    &&& args.path is None || (anchor.location is Some && anchor.location->0.path == args.path->0@)
}

proof fn lemma_listed_anchors(index: IndexView, args: AnchorListArgs, n: int, x: AnchorView)
    requires
        0 <= n <= ordered(index.anchors.dom()).len(),
    ensures
        listed_anchors(index, args, n).contains(x) <==> exists|k: int|
            0 <= k < n && index.anchors[#[trigger] ordered(index.anchors.dom())[k]].value == x
                && fits_list(x, args),
    decreases n,
{
    let keys = ordered(index.anchors.dom());
    if n > 0 {
        lemma_listed_anchors(index, args, n - 1, x);
        let before = listed_anchors(index, args, n - 1);
        let anchor = index.anchors[keys[n - 1]].value;
        lemma_added(before, anchor, x);
        if before.contains(x) {
            let k = choose|k: int|
                0 <= k < n - 1 && index.anchors[#[trigger] keys[k]].value == x && fits_list(x, args);
            assert(index.anchors[keys[k]].value == x);
        }
        if anchor == x {
            assert(index.anchors[keys[n - 1]].value == x);
        }
    }
}

/// Every anchor of the index that fits is listed, and no other.
pub proof fn lists_show_every_anchor(index: IndexView, args: AnchorListArgs, anchor: AnchorView)
    requires
        index.anchors.dom().finite(),
    ensures
        listed_anchors(index, args, ordered(index.anchors.dom()).len() as int).contains(anchor)
            <==> (exists|id: Seq<char>| #[trigger]
            index.anchors.contains_key(id) && index.anchors[id].value == anchor) && fits_list(
            anchor,
            args,
        ),
{
    lemma_orderable(index.anchors.dom());
    let keys = ordered(index.anchors.dom());
    let n = keys.len() as int;
    lemma_listed_anchors(index, args, n, anchor);
    if listed_anchors(index, args, n).contains(anchor) {
        let k = choose|k: int|
            0 <= k < n && index.anchors[#[trigger] keys[k]].value == anchor && fits_list(
                anchor,
                args,
            );
        assert(keys.to_set().contains(keys[k]));
        assert(index.anchors.contains_key(keys[k]));
    }
    if exists|id: Seq<char>| #[trigger]
        index.anchors.contains_key(id) && index.anchors[id].value == anchor {
        let id = choose|id: Seq<char>| #[trigger]
            index.anchors.contains_key(id) && index.anchors[id].value == anchor;
        assert(keys.to_set().contains(id));
        let k = keys.index_of(id);
        assert(index.anchors[keys[k]].value == anchor);
    }
}

/// Whether an anchor of the index stands in a file.
pub open spec fn is_in_file(index: IndexView, id: Seq<char>, path: Seq<char>) -> bool {
    index.anchors.contains_key(id) && (index.anchors[id].value.location matches Some(location)
        && location.path == path)
}

/// Whether an anchor stands in one of the first files.
spec fn among_files(index: IndexView, id: Seq<char>, paths: Seq<Seq<char>>, n: int) -> bool {
    exists|k: int|
        0 <= k < n && location_path(#[trigger] paths[k]) is Ok && is_in_file(
            index,
            id,
            location_path(paths[k])->Ok_0,
        )
}

proof fn lemma_anchor_places(ids: Seq<Seq<char>>, n: int, id: Seq<char>)
    requires
        0 <= n <= ids.len(),
    ensures
        places_of_anchors(ids, n).contains_key(id) <==> exists|k: int|
            0 <= k < n && #[trigger] ids[k] == id,
        forall|k: int| 0 <= k < n && #[trigger] ids[k] == id ==> places_of_anchors(ids, n)[id] <= k,
    decreases n,
{
    if n > 0 {
        lemma_anchor_places(ids, n - 1, id);
        if exists|k: int| 0 <= k < n - 1 && #[trigger] ids[k] == id {
            let k = choose|k: int| 0 <= k < n - 1 && #[trigger] ids[k] == id;
            assert(ids[k] == id);
            assert(places_of_anchors(ids, n - 1)[id] <= k);
        }
        if ids[n - 1] == id {
            assert(places_of_anchors(ids, n).contains_key(id));
        }
    }
}

proof fn lemma_symbol_place(
    places: Map<Seq<char>, usize>,
    index: IndexView,
    symbol: Seq<char>,
    place: usize,
    n: int,
    id: Seq<char>,
)
    requires
        index.anchors.dom().finite(),
        0 <= n <= ordered(index.anchors.dom()).len(),
    ensures
        places_of_symbol(places, index, symbol, place, n).contains_key(id)
            <==> places.contains_key(id) || (ordered(index.anchors.dom()).take(n).contains(id)
            && is_symbol_of(index, id, symbol)),
        places.contains_key(id) ==> places_of_symbol(places, index, symbol, place, n)[id]
            == places[id],
    decreases n,
{
    let keys = ordered(index.anchors.dom());
    lemma_orderable(index.anchors.dom());
    if n > 0 {
        lemma_symbol_place(places, index, symbol, place, n - 1, id);
        assert(keys.take(n) =~= keys.take(n - 1).push(keys[n - 1]));
        lemma_last(keys.take(n - 1), keys[n - 1], id);
        assert(keys.to_set().contains(keys[n - 1]));
    }
}

proof fn lemma_last(s: Seq<Seq<char>>, last: Seq<char>, x: Seq<char>)
    ensures
        s.push(last).contains(x) <==> s.contains(x) || x == last,
{
    if s.contains(x) {
        let k = s.index_of(x);
        assert(s.push(last)[k] == x);
    }
    if x == last {
        assert(s.push(last)[s.len() as int] == x);
    }
    if s.push(last).contains(x) && x != last {
        let k = s.push(last).index_of(x);
        assert(s[k] == x);
    }
}

proof fn lemma_path_place(
    places: Map<Seq<char>, usize>,
    index: IndexView,
    path: Seq<char>,
    place: usize,
    n: int,
    id: Seq<char>,
)
    requires
        index.anchors.dom().finite(),
        0 <= n <= ordered(index.anchors.dom()).len(),
    ensures
        places_of_path(places, index, path, place, n).contains_key(id) <==> places.contains_key(id)
            || (ordered(index.anchors.dom()).take(n).contains(id) && is_in_file(index, id, path)),
        places.contains_key(id) ==> places_of_path(places, index, path, place, n)[id]
            == places[id],
    decreases n,
{
    let keys = ordered(index.anchors.dom());
    lemma_orderable(index.anchors.dom());
    if n > 0 {
        lemma_path_place(places, index, path, place, n - 1, id);
        assert(keys.take(n) =~= keys.take(n - 1).push(keys[n - 1]));
        lemma_last(keys.take(n - 1), keys[n - 1], id);
        assert(keys.to_set().contains(keys[n - 1]));
    }
}

proof fn lemma_symbol_places(
    places: Map<Seq<char>, usize>,
    index: IndexView,
    symbols: Seq<Seq<char>>,
    start: int,
    n: int,
    id: Seq<char>,
)
    requires
        index.anchors.dom().finite(),
        0 <= n <= symbols.len(),
    ensures
        places_of_symbols(places, index, symbols, start, n).contains_key(id)
            <==> places.contains_key(id) || among_symbols(index, id, symbols, n),
        places.contains_key(id) ==> places_of_symbols(places, index, symbols, start, n)[id]
            == places[id],
    decreases n,
{
    if n > 0 {
        lemma_symbol_places(places, index, symbols, start, n - 1, id);
        let before = places_of_symbols(places, index, symbols, start, n - 1);
        let keys = ordered(index.anchors.dom());
        let all = keys.len() as int;
        lemma_symbol_place(before, index, symbols[n - 1], place_number(start + n - 1), all, id);
        lemma_orderable(index.anchors.dom());
        assert(keys.take(all) =~= keys);
        assert(index.anchors.contains_key(id) ==> keys.to_set().contains(id));
        if among_symbols(index, id, symbols, n - 1) {
            let k = choose|k: int| 0 <= k < n - 1 && is_symbol_of(index, id, #[trigger] symbols[k]);
            assert(is_symbol_of(index, id, symbols[k]));
        }
        if is_symbol_of(index, id, symbols[n - 1]) {
            assert(among_symbols(index, id, symbols, n));
        }
    }
}

proof fn lemma_path_places(
    places: Map<Seq<char>, usize>,
    index: IndexView,
    paths: Seq<Seq<char>>,
    start: int,
    n: int,
    id: Seq<char>,
)
    requires
        index.anchors.dom().finite(),
        0 <= n <= paths.len(),
        places_of_paths(places, index, paths, start, n) is Ok,
    ensures
        places_of_paths(places, index, paths, start, n)->Ok_0.contains_key(id)
            <==> places.contains_key(id) || among_files(index, id, paths, n),
        places.contains_key(id) ==> places_of_paths(places, index, paths, start, n)->Ok_0[id]
            == places[id],
    decreases n,
{
    if n > 0 {
        lemma_path_places(places, index, paths, start, n - 1, id);
        let before = places_of_paths(places, index, paths, start, n - 1)->Ok_0;
        let keys = ordered(index.anchors.dom());
        let all = keys.len() as int;
        let path = location_path(paths[n - 1])->Ok_0;
        lemma_path_place(before, index, path, place_number(start + n - 1), all, id);
        lemma_orderable(index.anchors.dom());
        assert(keys.take(all) =~= keys);
        assert(index.anchors.contains_key(id) ==> keys.to_set().contains(id));
        if among_files(index, id, paths, n - 1) {
            let k = choose|k: int|
                0 <= k < n - 1 && location_path(#[trigger] paths[k]) is Ok && is_in_file(
                    index,
                    id,
                    location_path(paths[k])->Ok_0,
                );
            assert(location_path(paths[k]) is Ok);
            assert(among_files(index, id, paths, n));
        }
        if is_in_file(index, id, path) {
            assert(location_path(paths[n - 1]) is Ok);
            assert(among_files(index, id, paths, n));
        }
    }
}

/// A context looks first at the anchors that are named, at those of the named symbols and at
/// those in the named files, and at no others; an anchor that is named comes no later than where
/// it is named.
pub proof fn contexts_look_first_at_what_is_named(index: IndexView, args: ContextArgs, id: Seq<char>)
    requires
        index.anchors.dom().finite(),
        focus(index, args) is Ok,
    ensures
        ({
            let places = focus(index, args)->Ok_0;
            &&& places.contains_key(id) <==> args.anchors.deep_view().contains(id) || (exists|
                k: int,
            |
                0 <= k < args.symbols.deep_view().len() && is_symbol_of(
                    index,
                    id,
                    #[trigger] args.symbols.deep_view()[k],
                )) || (exists|k: int|
                0 <= k < args.paths.deep_view().len() && location_path(
                    #[trigger] args.paths.deep_view()[k],
                ) is Ok && is_in_file(index, id, location_path(args.paths.deep_view()[k])->Ok_0))
            &&& forall|k: int|
                0 <= k < args.anchors.deep_view().len() && #[trigger] args.anchors.deep_view()[k]
                    == id ==> places[id] <= k
        }),
{
    let anchors = args.anchors.deep_view();
    let symbols = args.symbols.deep_view();
    let paths = args.paths.deep_view();
    let a = places_of_anchors(anchors, anchors.len() as int);
    lemma_anchor_places(anchors, anchors.len() as int, id);
    let b = places_of_symbols(
        a,
        index,
        symbols,
        args.anchors@.len() as int,
        args.symbols@.len() as int,
    );
    lemma_symbol_places(
        a,
        index,
        symbols,
        args.anchors@.len() as int,
        args.symbols@.len() as int,
        id,
    );
    lemma_path_places(
        b,
        index,
        paths,
        args.anchors@.len() as int + args.symbols@.len(),
        args.paths@.len() as int,
        id,
    );
    if anchors.contains(id) {
        let k = anchors.index_of(id);
        assert(anchors[k] == id);
    }
}

/// A command looks for what a change affects as it is told to: as far as it is told, along the
/// kinds of relations and in the strands of the tags that it is told.
pub proof fn options_are_as_told(args: AffectedArgs, kind: Seq<char>, tag: Seq<char>)
    ensures
        options_of(args).depth == args.depth,
        options_of(args).relations.contains(kind) <==> args.relations.deep_view().contains(kind),
        options_of(args).tags.contains(tag) <==> args.tags.deep_view().contains(tag),
        args.include_optional && !args.exclude_optional ==> options_of(args).include_optional
            == Some(true),
        !args.include_optional && args.exclude_optional ==> options_of(args).include_optional
            == Some(false),
        !args.include_optional && !args.exclude_optional ==> options_of(
            args,
        ).include_optional is None,
{
}

} // verus!
