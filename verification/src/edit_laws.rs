//! What a change that is asked for leaves of a strand or an anchor.

use vstd::prelude::*;

use crate::cli::{
    AnchorAddArgs, AnchorSetArgs, MemberAddArgs, MemberRemoveArgs, RelationAddArgs,
    RelationRemoveArgs, StrandAddArgs, StrandSetArgs,
};
use crate::edits::{
    anchor_added, anchor_changed, member_added, member_removed, other_members, other_relations,
    relation_added, relation_removed, strand_added, strand_changed,
};
use crate::model::{AnchorView, MemberView, RelationView, StrandView};
use crate::text::{has_space, is_blank};

verus! {

/// Whether two strands say the same, up to their members and relations.
pub open spec fn says_the_same(a: StrandView, b: StrandView) -> bool {
    &&& a.schema == b.schema
    &&& a.id == b.id
    &&& a.title == b.title
    &&& a.intent == b.intent
    &&& a.scope == b.scope
    &&& a.tags == b.tags
    &&& a.on_change == b.on_change
    &&& a.attributes == b.attributes
}

/// Whether a strand has a member for an anchor.
pub open spec fn has_anchor(members: Seq<MemberView>, anchor: Seq<char>) -> bool {
    exists|i: int| 0 <= i < members.len() && (#[trigger] members[i]).anchor == anchor
}

/// Whether a relation leads from one anchor to another, and is of a kind where one is given.
pub open spec fn leads(
    relation: RelationView,
    from: Seq<char>,
    to: Seq<char>,
    kind: Option<Seq<char>>,
) -> bool {
    &&& relation.from == from
    &&& relation.to == to
    &&& kind matches Some(kind) ==> relation.kind == kind
}

/// Whether relations hold one from an anchor to another.
pub open spec fn has_leading(
    relations: Seq<RelationView>,
    from: Seq<char>,
    to: Seq<char>,
    kind: Option<Seq<char>>,
) -> bool {
    exists|i: int| 0 <= i < relations.len() && leads(#[trigger] relations[i], from, to, kind)
}

/// A text after a change: none where it is cleared, the new one where one is given, and else
/// the old one.
pub open spec fn becomes(
    before: Option<Seq<char>>,
    asked: Option<Seq<char>>,
    clear: bool,
    after: Option<Seq<char>>,
) -> bool {
    &&& clear ==> after is None
    &&& !clear && asked is Some ==> after == asked
    &&& !clear && asked is None ==> after == before
}

/// Tags after a change: those from before and those that are asked for, without those that are
/// to go.
pub open spec fn tags_become(
    before: Set<Seq<char>>,
    more: Seq<Seq<char>>,
    fewer: Seq<Seq<char>>,
    after: Set<Seq<char>>,
) -> bool {
    forall|tag: Seq<char>| #[trigger]
        after.contains(tag) <==> (before.contains(tag) || more.contains(tag)) && !fewer.contains(
            tag,
        )
}

proof fn lemma_members_left(members: Seq<MemberView>, anchor: Seq<char>, n: int, m: MemberView)
    requires
        0 <= n <= members.len(),
    ensures
        other_members(members, anchor, n).contains(m) <==> members.take(n).contains(m) && m.anchor
            != anchor,
        other_members(members, anchor, n).len() <= n,
        other_members(members, anchor, n).len() < n <==> has_anchor(members.take(n), anchor),
    decreases n,
{
    if n > 0 {
        lemma_members_left(members, anchor, n - 1, m);
        let before = other_members(members, anchor, n - 1);
        let last = members[n - 1];
        let taken = members.take(n - 1);
        assert(members.take(n) =~= taken.push(last));
        lemma_pushed(taken, last, m);
        lemma_pushed(before, last, m);
        if has_anchor(taken, anchor) {
            let i = choose|i: int| 0 <= i < taken.len() && (#[trigger] taken[i]).anchor == anchor;
            assert(members.take(n)[i].anchor == anchor);
        }
        if has_anchor(members.take(n), anchor) && last.anchor != anchor {
            let i = choose|i: int|
                0 <= i < n && (#[trigger] members.take(n)[i]).anchor == anchor;
            assert(taken[i].anchor == anchor);
        }
        if last.anchor == anchor {
            assert(members.take(n)[n - 1].anchor == anchor);
        }
    } else {
        assert(members.take(0).len() == 0);
    }
}

proof fn lemma_pushed<T>(s: Seq<T>, last: T, x: T)
    ensures
        s.push(last).contains(x) <==> s.contains(x) || x == last,
{
    if s.contains(x) {
        let k = s.index_of(x);
        assert(s.push(last)[k] == x);
    }
    if x == last {
        assert(s.push(last)[s.len() as int] == x);
    }
    if s.push(last).contains(x) && x != last {
        let k = s.push(last).index_of(x);
        assert(s[k] == x);
    }
}

pub(crate) proof fn lemma_relations_left(
    relations: Seq<RelationView>,
    from: Seq<char>,
    to: Seq<char>,
    kind: Option<Seq<char>>,
    n: int,
    r: RelationView,
)
    requires
        0 <= n <= relations.len(),
    ensures
        other_relations(relations, from, to, kind, n).contains(r) <==> relations.take(n).contains(r)
            && !leads(r, from, to, kind),
        other_relations(relations, from, to, kind, n).len() <= n,
        other_relations(relations, from, to, kind, n).len() < n <==> has_leading(
            relations.take(n),
            from,
            to,
            kind,
        ),
    decreases n,
{
    if n > 0 {
        lemma_relations_left(relations, from, to, kind, n - 1, r);
        let before = other_relations(relations, from, to, kind, n - 1);
        let last = relations[n - 1];
        let taken = relations.take(n - 1);
        assert(relations.take(n) =~= taken.push(last));
        lemma_pushed(taken, last, r);
        lemma_pushed(before, last, r);
        if has_leading(taken, from, to, kind) {
            let i = choose|i: int|
                0 <= i < taken.len() && leads(#[trigger] taken[i], from, to, kind);
            assert(leads(relations.take(n)[i], from, to, kind));
        }
        if has_leading(relations.take(n), from, to, kind) && !leads(last, from, to, kind) {
            let i = choose|i: int|
                0 <= i < n && leads(#[trigger] relations.take(n)[i], from, to, kind);
            assert(leads(taken[i], from, to, kind));
        }
        if leads(last, from, to, kind) {
            assert(leads(relations.take(n)[n - 1], from, to, kind));
        }
    } else {
        assert(relations.take(0).len() == 0);
    }
}

/// A member is added behind the members that a strand has, unless the anchor has that role in
/// it, and nothing else of the strand changes.
pub proof fn members_are_added_as_asked(strand: StrandView, args: MemberAddArgs)
    ensures
        member_added(strand, args) is Err <==> exists|i: int|
            0 <= i < strand.members.len() && (#[trigger] strand.members[i]).anchor == args.anchor@
                && strand.members[i].role == args.role.deep_view(),
        member_added(strand, args) matches Ok(x) ==> {
            &&& says_the_same(x, strand)
            &&& x.relations == strand.relations
            &&& x.members.len() == strand.members.len() + 1
            &&& x.members.drop_last() == strand.members
            &&& x.members.last().anchor == args.anchor@
            &&& x.members.last().role == args.role.deep_view()
            &&& x.members.last().required == !args.optional
        },
{
    if member_added(strand, args) is Ok {
        assert(member_added(strand, args)->Ok_0.members.drop_last() =~= strand.members);
    }
}

/// The members of an anchor are removed where a strand has one, and no other member is, and
/// nothing else of the strand changes.
pub proof fn members_are_removed_as_asked(
    strand: StrandView,
    args: MemberRemoveArgs,
    m: MemberView,
)
    ensures
        member_removed(strand, args) is Ok <==> has_anchor(strand.members, args.anchor@),
        member_removed(strand, args) matches Ok(x) ==> {
            &&& says_the_same(x, strand)
            &&& x.relations == strand.relations
            &&& x.members.contains(m) <==> strand.members.contains(m) && m.anchor != args.anchor@
        },
{
    let n = strand.members.len() as int;
    lemma_members_left(strand.members, args.anchor@, n, m);
    assert(strand.members.take(n) =~= strand.members);
}

/// A relation is added behind the relations that a strand has, unless it has one of that kind
/// between the two anchors, and nothing else of the strand changes.
pub proof fn relations_are_added_as_asked(strand: StrandView, args: RelationAddArgs)
    ensures
        relation_added(strand, args) is Err <==> has_leading(
            strand.relations,
            args.from@,
            args.to@,
            Some(args.kind@),
        ),
        relation_added(strand, args) matches Ok(x) ==> {
            &&& says_the_same(x, strand)
            &&& x.members == strand.members
            &&& x.relations.len() == strand.relations.len() + 1
            &&& x.relations.drop_last() == strand.relations
            &&& leads(x.relations.last(), args.from@, args.to@, Some(args.kind@))
            &&& x.relations.last().bidirectional == args.bidirectional
        },
{
    if has_leading(strand.relations, args.from@, args.to@, Some(args.kind@)) {
        let i = choose|i: int|
            0 <= i < strand.relations.len() && leads(
                #[trigger] strand.relations[i],
                args.from@,
                args.to@,
                Some(args.kind@),
            );
        assert(crate::edits::is_relation(
            strand.relations[i],
            args.from@,
            args.to@,
            Some(args.kind@),
        ));
    }
    if crate::edits::has_relation(strand.relations, args.from@, args.to@, args.kind@) {
        let i = choose|i: int|
            0 <= i < strand.relations.len() && crate::edits::is_relation(
                #[trigger] strand.relations[i],
                args.from@,
                args.to@,
                Some(args.kind@),
            );
        assert(leads(strand.relations[i], args.from@, args.to@, Some(args.kind@)));
    }
    if relation_added(strand, args) is Ok {
        assert(relation_added(strand, args)->Ok_0.relations.drop_last() =~= strand.relations);
    }
}

/// The relations between two anchors are removed where a strand has one, those of every kind or
/// those of the kind that is given, and no other relation is, and nothing else of the strand
/// changes.
pub proof fn relations_are_removed_as_asked(
    strand: StrandView,
    args: RelationRemoveArgs,
    r: RelationView,
)
    ensures
        relation_removed(strand, args) is Ok <==> has_leading(
            strand.relations,
            args.from@,
            args.to@,
            args.kind.deep_view(),
        ),
        relation_removed(strand, args) matches Ok(x) ==> {
            &&& says_the_same(x, strand)
            &&& x.members == strand.members
            &&& x.relations.contains(r) <==> strand.relations.contains(r) && !leads(
                r,
                args.from@,
                args.to@,
                args.kind.deep_view(),
            )
        },
{
    let n = strand.relations.len() as int;
    lemma_relations_left(
        strand.relations,
        args.from@,
        args.to@,
        args.kind.deep_view(),
        n,
        r,
    );
    assert(strand.relations.take(n) =~= strand.relations);
}

/// A strand is made of what is said of it, unless its id is empty or has spaces in it or its
/// intent is blank, and has no members and no relations at first.
pub proof fn strands_are_made_as_asked(args: StrandAddArgs)
    ensures
        strand_added(args) is Err <==> args.id@.len() == 0 || has_space(args.id@) || is_blank(
            args.id@,
        ) || is_blank(args.intent@),
        strand_added(args) matches Ok(x) ==> {
            &&& x.id == args.id@
            &&& x.intent == args.intent@
            &&& x.title == args.title.deep_view()
            &&& x.scope == args.scope.deep_view()
            &&& forall|tag: Seq<char>| #[trigger]
                x.tags.contains(tag) <==> args.tags.deep_view().contains(tag)
            &&& x.members.len() == 0
            &&& x.relations.len() == 0
        },
{
}

/// A strand is changed in what is asked for and in nothing else, unless its intent would be
/// blank.
pub proof fn strands_are_changed_as_asked(strand: StrandView, args: StrandSetArgs)
    ensures
        strand_changed(strand, args) is Err <==> args.intent is Some && is_blank(args.intent->0@),
        strand_changed(strand, args) matches Ok(x) ==> {
            &&& x.schema == strand.schema
            &&& x.id == strand.id
            &&& x.members == strand.members
            &&& x.relations == strand.relations
            &&& x.on_change == strand.on_change
            &&& x.attributes == strand.attributes
            &&& args.intent is Some ==> x.intent == args.intent->0@
            &&& args.intent is None ==> x.intent == strand.intent
            &&& becomes(strand.title, args.title.deep_view(), args.clear_title, x.title)
            &&& becomes(strand.scope, args.scope.deep_view(), args.clear_scope, x.scope)
            &&& tags_become(
                strand.tags,
                args.tags.deep_view(),
                args.remove_tags.deep_view(),
                x.tags,
            )
        },
{
}

/// An anchor is made of what is said of it: it has a location where a path is given, with the
/// symbol and the lines that are given, and a target where one is.
pub proof fn anchors_are_made_as_asked(args: AnchorAddArgs)
    ensures
        anchor_added(args) matches Ok(x) ==> {
            &&& x.id == args.id@
            &&& x.target == args.target.deep_view()
            &&& x.kind == args.kind.deep_view()
            &&& x.target is Some || x.location is Some
            &&& x.location is Some <==> args.path is Some
            &&& x.location matches Some(location) ==> {
                &&& location.symbol == args.symbol.deep_view()
                &&& location.line_start == args.line_start
                &&& location.line_end == args.line_end
                &&& location.watch is Some <==> args.watch is Some
                &&& !is_blank(location.path)
                &&& location.line_start matches Some(start) ==> start > 0
                &&& location.line_end matches Some(end) ==> end > 0
                &&& location.line_start is Some && location.line_end is Some
                    ==> location.line_start->0 <= location.line_end->0
            }
            &&& forall|tag: Seq<char>| #[trigger]
                x.tags.contains(tag) <==> args.tags.deep_view().contains(tag)
        },
        args.path is None && args.target is None ==> anchor_added(args) is Err,
        args.path is None && (args.symbol is Some || args.line_start is Some || args.line_end is Some
            || args.watch is Some) ==> anchor_added(args) is Err,
        args.path is None && args.symbol is None && args.line_start is None && args.line_end is None
            && args.watch is None && args.target is Some && args.id@.len() > 0 && !is_blank(
            args.id@,
        ) && !has_space(args.id@) ==> anchor_added(args) is Ok,
{
}

/// An anchor is changed in what is asked for and in nothing else, and its location stays as it
/// is where nothing is asked of it.
pub proof fn anchors_are_changed_as_asked(anchor: AnchorView, args: AnchorSetArgs)
    ensures
        anchor_changed(anchor, args) matches Ok(x) ==> {
            &&& x.schema == anchor.schema
            &&& x.id == anchor.id
            &&& x.attributes == anchor.attributes
            &&& becomes(anchor.target, args.target.deep_view(), args.clear_target, x.target)
            &&& becomes(anchor.kind, args.kind.deep_view(), args.clear_kind, x.kind)
            &&& tags_become(
                anchor.tags,
                args.tags.deep_view(),
                args.remove_tags.deep_view(),
                x.tags,
            )
            &&& args.clear_location ==> x.location is None
            &&& !args.clear_location && args.path is Some ==> x.location is Some && {
                let location = x.location->0;
                &&& args.symbol is Some && !args.clear_symbol ==> location.symbol
                    == args.symbol.deep_view()
                &&& args.clear_symbol ==> location.symbol is None
                &&& args.line_start is Some ==> location.line_start == args.line_start
                &&& args.line_end is Some ==> location.line_end == args.line_end
                &&& anchor.location matches Some(before) ==> {
                    &&& args.symbol is None && !args.clear_symbol ==> location.symbol
                        == before.symbol
                    &&& args.line_start is None ==> location.line_start == before.line_start
                    &&& args.line_end is None ==> location.line_end == before.line_end
                    &&& args.watch is None ==> location.watch == before.watch
                }
            }
            &&& !args.clear_location && args.path is None ==> x.location == anchor.location
        },
{
}

} // verus!
