//! Changes to strands and anchors that are asked for on the command line.

use vstd::prelude::*;
use vstd::std_specs::convert::FromSpecImpl;

use crate::annotations::{location_path, normalize_location_path};
use crate::cli::{
    AnchorAddArgs, AnchorSetArgs, MemberAddArgs, MemberRemoveArgs, RelationAddArgs,
    RelationRemoveArgs, StrandAddArgs, StrandSetArgs, WatchArg,
};
use crate::collections::{StringMap, StringSet};
use crate::config::no_attributes;
use crate::model::{
    Anchor, AnchorView, Location, LocationView, Member, MemberView, Relation, RelationView, Strand,
    StrandView, WatchMode,
};
use crate::text::{
    blank, contains_space, copy_option, debug_quoted, debug_text, has_space, is_blank, same_option,
    same_text,
};
use crate::views::{outcome, push_item, Duplicate};

verus! {

/// How a watched part that is named on the command line is kept.
pub open spec fn watch_of(watch: WatchArg) -> WatchMode {
    match watch {
        WatchArg::File => WatchMode::File,
        WatchArg::Line => WatchMode::Line,
        WatchArg::Range => WatchMode::Range,
    }
}

impl FromSpecImpl<WatchArg> for WatchMode {
    open spec fn obeys_from_spec() -> bool {
        true
    }

    open spec fn from_spec(value: WatchArg) -> WatchMode {
        watch_of(value)
    }
}

impl From<WatchArg> for WatchMode {
    fn from(value: WatchArg) -> (r: Self) {
        match value {
            WatchArg::File => WatchMode::File,
            WatchArg::Line => WatchMode::Line,
            WatchArg::Range => WatchMode::Range,
        }
    }
}

/// Adds texts to a set.
fn add_all(set: &mut StringSet, items: &Vec<String>)
    ensures
        final(set)@ == old(set)@.union(items.deep_view().to_set()),
{
    let ghost all = items.deep_view();
    let ghost start = set@;
    let mut i: usize = 0;
    assert(start.union(all.take(0).to_set()) =~= start);
    while i < items.len()
        invariant
            i <= items@.len(),
            all == items.deep_view(),
            set@ == start.union(all.take(i as int).to_set()),
        decreases items@.len() - i,
    {
        assert(all[i as int] == items@[i as int]@);
        proof {
            lemma_take_one_more(all, i as int);
        }
        set.insert(items[i].clone());
        assert(set@ =~= start.union(all.take(i + 1).to_set()));
        i += 1;
    }
    assert(all.take(all.len() as int) =~= all);
}

/// Takes texts out of a set.
fn remove_all(set: &mut StringSet, items: &Vec<String>)
    ensures
        final(set)@ == old(set)@.difference(items.deep_view().to_set()),
{
    let ghost all = items.deep_view();
    let ghost start = set@;
    let mut i: usize = 0;
    assert(start.difference(all.take(0).to_set()) =~= start);
    while i < items.len()
        invariant
            i <= items@.len(),
            all == items.deep_view(),
            set@ == start.difference(all.take(i as int).to_set()),
        decreases items@.len() - i,
    {
        assert(all[i as int] == items@[i as int]@);
        proof {
            lemma_take_one_more(all, i as int);
        }
        set.remove(items[i].as_str());
        assert(set@ =~= start.difference(all.take(i + 1).to_set()));
        i += 1;
    }
    assert(all.take(all.len() as int) =~= all);
}

/// The texts up to one more are those before and that one.
proof fn lemma_take_one_more(s: Seq<Seq<char>>, i: int)
    requires
        0 <= i < s.len(),
    ensures
        forall|x: Seq<char>| #[trigger]
            s.take(i + 1).to_set().contains(x) <==> s.take(i).to_set().contains(x) || x == s[i],
{
    assert(s.take(i + 1) =~= s.take(i).push(s[i]));
    assert forall|x: Seq<char>| #[trigger]
        s.take(i + 1).to_set().contains(x) <==> s.take(i).to_set().contains(x) || x == s[i] by {
        if s.take(i + 1).contains(x) {
            let k = s.take(i + 1).index_of(x);
            if k < i {
                assert(s.take(i)[k] == x);
            }
        }
        if s.take(i).contains(x) {
            let k = s.take(i).index_of(x);
            assert(s.take(i + 1)[k] == x);
        }
        if x == s[i] {
            assert(s.take(i + 1)[i] == x);
        }
    }
}

/// A text after a change: cleared, replaced or left.
pub open spec fn changed_text(
    old_text: Option<Seq<char>>,
    new_text: Option<Seq<char>>,
    clear: bool,
) -> Option<Seq<char>> {
    if clear {
        None
    } else if new_text is Some {
        new_text
    } else {
        old_text
    }
}

/// A text after a change: cleared, replaced or left.
fn change_text(old_text: &Option<String>, new_text: &Option<String>, clear: bool) -> (r: Option<
    String,
>)
    ensures
        r.deep_view() == changed_text(old_text.deep_view(), new_text.deep_view(), clear),
{
    if clear {
        None
    } else if new_text.is_some() {
        copy_option(new_text)
    } else {
        copy_option(old_text)
    }
}

/// What keeps an id from being used.
pub open spec fn is_usable_id(id: Seq<char>) -> bool {
    !is_blank(id) && !has_space(id)
}

/// Checks an id: it has to have characters, and none of them may be white space.
pub fn validate_id(id: &str, kind: &str) -> (r: Result<(), String>)
    ensures
        match r {
            Ok(_) => is_usable_id(id@),
            Err(message) => !is_usable_id(id@) && message@ == kind@
                + " id cannot be empty or contain whitespace"@,
        },
{
    if blank(id) || contains_space(id) {
        let mut message = kind.to_owned();
        message.push_str(" id cannot be empty or contain whitespace");
        return Err(message);
    }
    Ok(())
}

/// The strand that is to be added.
pub open spec fn strand_added(args: StrandAddArgs) -> Result<StrandView, Seq<char>> {
    if !is_usable_id(args.id@) {
        Err("strand"@ + " id cannot be empty or contain whitespace"@)
    } else if is_blank(args.intent@) {
        Err("strand intent cannot be empty"@)
    } else {
        Ok(
            StrandView {
                schema: 1,
                id: args.id@,
                title: args.title.deep_view(),
                intent: args.intent@,
                scope: args.scope.deep_view(),
                tags: args.tags.deep_view().to_set(),
                members: seq![],
                relations: seq![],
                on_change: None,
                attributes: no_attributes(),
            },
        )
    }
}

/// The tags of a list.
fn tag_set(tags: &Vec<String>) -> (r: StringSet)
    ensures
        r@ == tags.deep_view().to_set(),
{
    let mut set = StringSet::new();
    add_all(&mut set, tags);
    assert(set@ =~= tags.deep_view().to_set());
    set
}

/// The strand that is to be added.
pub fn new_strand(args: &StrandAddArgs) -> (r: Result<Strand, String>)
    ensures
        outcome(r) == strand_added(*args),
{
    match validate_id(args.id.as_str(), "strand") {
        Ok(_) => {},
        Err(message) => {
            return Err(message);
        },
    }
    if blank(args.intent.as_str()) {
        return Err("strand intent cannot be empty".to_owned());
    }
    let strand = Strand {
        schema: 1,
        id: args.id.clone(),
        title: copy_option(&args.title),
        intent: args.intent.clone(),
        scope: copy_option(&args.scope),
        tags: tag_set(&args.tags),
        members: Vec::new(),
        relations: Vec::new(),
        on_change: None,
        attributes: StringMap::new(),
    };
    assert(strand@.members =~= seq![]);
    assert(strand@.relations =~= seq![]);
    assert(strand@.attributes =~= no_attributes());
    Ok(strand)
}

/// A strand after its fields were changed.
pub open spec fn strand_changed(strand: StrandView, args: StrandSetArgs) -> Result<
    StrandView,
    Seq<char>,
> {
    if args.intent is Some && is_blank(args.intent->0@) {
        Err("strand intent cannot be empty"@)
    } else {
        Ok(
            StrandView {
                intent: match args.intent {
                    Some(intent) => intent@,
                    None => strand.intent,
                },
                title: changed_text(strand.title, args.title.deep_view(), args.clear_title),
                scope: changed_text(strand.scope, args.scope.deep_view(), args.clear_scope),
                tags: strand.tags.union(args.tags.deep_view().to_set()).difference(
                    args.remove_tags.deep_view().to_set(),
                ),
                ..strand
            },
        )
    }
}

/// A strand after its fields were changed.
pub fn change_strand(strand: &Strand, args: &StrandSetArgs) -> (r: Result<Strand, String>)
    ensures
        outcome(r) == strand_changed(strand@, *args),
{
    let mut changed = strand.duplicate();
    match &args.intent {
        Some(intent) => {
            if blank(intent.as_str()) {
                return Err("strand intent cannot be empty".to_owned());
            }
            changed.intent = intent.clone();
        },
        None => {},
    }
    changed.title = change_text(&strand.title, &args.title, args.clear_title);
    changed.scope = change_text(&strand.scope, &args.scope, args.clear_scope);
    let mut tags = strand.tags.duplicate();
    add_all(&mut tags, &args.tags);
    remove_all(&mut tags, &args.remove_tags);
    changed.tags = tags;
    Ok(changed)
}

/// Whether an anchor already has a role among some members.
pub open spec fn has_member(
    members: Seq<MemberView>,
    anchor: Seq<char>,
    role: Option<Seq<char>>,
) -> bool {
    exists|i: int|
        0 <= i < members.len() && (#[trigger] members[i]).anchor == anchor && members[i].role
            == role
}

/// Whether an anchor already has a role among some members.
fn member_known(members: &Vec<Member>, anchor: &str, role: &Option<String>) -> (r: bool)
    ensures
        r == has_member(members.deep_view(), anchor@, role.deep_view()),
{
    let ghost all = members.deep_view();
    let mut i: usize = 0;
    while i < members.len()
        invariant
            i <= members@.len(),
            all == members.deep_view(),
            forall|k: int|
                0 <= k < i ==> !((#[trigger] all[k]).anchor == anchor@ && all[k].role
                    == role.deep_view()),
        decreases members@.len() - i,
    {
        assert(all[i as int] == members@[i as int]@);
        if same_text(members[i].anchor.as_str(), anchor) && same_option(&members[i].role, role) {
            return true;
        }
        i += 1;
    }
    false
}

/// A strand with one more member.
pub open spec fn member_added(strand: StrandView, args: MemberAddArgs) -> Result<
    StrandView,
    Seq<char>,
> {
    if has_member(strand.members, args.anchor@, args.role.deep_view()) {
        Err(
            "anchor "@ + debug_quoted(args.anchor@) + " already has that role in strand "@
                + debug_quoted(args.strand@),
        )
    } else {
        Ok(
            StrandView {
                members: strand.members.push(
                    MemberView {
                        anchor: args.anchor@,
                        role: args.role.deep_view(),
                        required: !args.optional,
                        attributes: no_attributes(),
                    },
                ),
                ..strand
            },
        )
    }
}

/// A strand with one more member.
pub fn add_member(strand: &Strand, args: &MemberAddArgs) -> (r: Result<Strand, String>)
    ensures
        outcome(r) == member_added(strand@, *args),
{
    if member_known(&strand.members, args.anchor.as_str(), &args.role) {
        let mut message = "anchor ".to_owned();
        message.push_str(debug_text(args.anchor.as_str()).as_str());
        message.push_str(" already has that role in strand ");
        message.push_str(debug_text(args.strand.as_str()).as_str());
        return Err(message);
    }
    let mut members = strand.members.duplicate();
    let member = Member {
        anchor: args.anchor.clone(),
        role: copy_option(&args.role),
        required: !args.optional,
        attributes: StringMap::new(),
    };
    assert(member@.attributes =~= no_attributes());
    push_item(&mut members, member);
    let mut changed = strand.duplicate();
    changed.members = members;
    Ok(changed)
}

/// The members among the first `n` that are other anchors.
pub open spec fn other_members(members: Seq<MemberView>, anchor: Seq<char>, n: int) -> Seq<MemberView>
    decreases n,
{
    if n <= 0 {
        seq![]
    } else if members[n - 1].anchor == anchor {
        other_members(members, anchor, n - 1)
    } else {
        other_members(members, anchor, n - 1).push(members[n - 1])
    }
}

/// The members that are other anchors.
pub fn members_without(members: &Vec<Member>, anchor: &str) -> (r: Vec<Member>)
    ensures
        r.deep_view() == other_members(members.deep_view(), anchor@, members@.len() as int),
{
    let ghost all = members.deep_view();
    let mut out: Vec<Member> = Vec::new();
    let mut i: usize = 0;
    assert(out.deep_view() =~= seq![]);
    while i < members.len()
        invariant
            i <= members@.len(),
            all == members.deep_view(),
            out.deep_view() == other_members(all, anchor@, i as int),
        decreases members@.len() - i,
    {
        assert(all[i as int] == members@[i as int]@);
        if !same_text(members[i].anchor.as_str(), anchor) {
            push_item(&mut out, members[i].duplicate());
        }
        i += 1;
    }
    out
}

/// A strand without an anchor among its members.
pub open spec fn member_removed(strand: StrandView, args: MemberRemoveArgs) -> Result<
    StrandView,
    Seq<char>,
> {
    let left = other_members(strand.members, args.anchor@, strand.members.len() as int);
    if left.len() == strand.members.len() {
        Err(
            "anchor "@ + debug_quoted(args.anchor@) + " is not a sidecar member of strand "@
                + debug_quoted(args.strand@),
        )
    } else {
        Ok(StrandView { members: left, ..strand })
    }
}

/// A strand without an anchor among its members.
pub fn remove_member(strand: &Strand, args: &MemberRemoveArgs) -> (r: Result<Strand, String>)
    ensures
        outcome(r) == member_removed(strand@, *args),
{
    let left = members_without(&strand.members, args.anchor.as_str());
    assert(left.deep_view().len() == left@.len());
    assert(strand.members.deep_view().len() == strand.members@.len());
    if left.len() == strand.members.len() {
        let mut message = "anchor ".to_owned();
        message.push_str(debug_text(args.anchor.as_str()).as_str());
        message.push_str(" is not a sidecar member of strand ");
        message.push_str(debug_text(args.strand.as_str()).as_str());
        return Err(message);
    }
    let mut changed = strand.duplicate();
    changed.members = left;
    Ok(changed)
}

/// Whether a relation goes from one anchor to another, of a kind where one is given.
pub open spec fn is_relation(
    relation: RelationView,
    from: Seq<char>,
    to: Seq<char>,
    kind: Option<Seq<char>>,
) -> bool {
    relation.from == from && relation.to == to && (kind is None || relation.kind == kind->0)
}

/// Whether a relation goes from one anchor to another, of a kind where one is given.
fn relation_fits(relation: &Relation, from: &str, to: &str, kind: &Option<String>) -> (r: bool)
    ensures
        r == is_relation(relation@, from@, to@, kind.deep_view()),
{
    same_text(relation.from.as_str(), from) && same_text(relation.to.as_str(), to) && match kind {
        None => true,
        Some(kind) => same_text(relation.kind.as_str(), kind.as_str()),
    }
}

/// The relations among the first `n` that are others.
pub open spec fn other_relations(
    relations: Seq<RelationView>,
    from: Seq<char>,
    to: Seq<char>,
    kind: Option<Seq<char>>,
    n: int,
) -> Seq<RelationView>
    decreases n,
{
    if n <= 0 {
        seq![]
    } else if is_relation(relations[n - 1], from, to, kind) {
        other_relations(relations, from, to, kind, n - 1)
    } else {
        other_relations(relations, from, to, kind, n - 1).push(relations[n - 1])
    }
}

/// The relations that are others.
pub fn relations_without(
    relations: &Vec<Relation>,
    from: &str,
    to: &str,
    kind: &Option<String>,
) -> (r: Vec<Relation>)
    ensures
        r.deep_view() == other_relations(
            relations.deep_view(),
            from@,
            to@,
            kind.deep_view(),
            relations@.len() as int,
        ),
{
    let ghost all = relations.deep_view();
    let mut out: Vec<Relation> = Vec::new();
    let mut i: usize = 0;
    assert(out.deep_view() =~= seq![]);
    while i < relations.len()
        invariant
            i <= relations@.len(),
            all == relations.deep_view(),
            out.deep_view() == other_relations(all, from@, to@, kind.deep_view(), i as int),
        decreases relations@.len() - i,
    {
        assert(all[i as int] == relations@[i as int]@);
        if !relation_fits(&relations[i], from, to, kind) {
            push_item(&mut out, relations[i].duplicate());
        }
        i += 1;
    }
    out
}

/// Whether a relation is among some relations.
pub open spec fn has_relation(
    relations: Seq<RelationView>,
    from: Seq<char>,
    to: Seq<char>,
    kind: Seq<char>,
) -> bool {
    exists|i: int|
        0 <= i < relations.len() && is_relation(#[trigger] relations[i], from, to, Some(kind))
}

/// Whether a relation is among some relations.
pub fn relation_known(relations: &Vec<Relation>, from: &str, to: &str, kind: &String) -> (r: bool)
    ensures
        r == has_relation(relations.deep_view(), from@, to@, kind@),
{
    let ghost all = relations.deep_view();
    let wanted = Some(kind.clone());
    let mut i: usize = 0;
    while i < relations.len()
        invariant
            i <= relations@.len(),
            all == relations.deep_view(),
            wanted.deep_view() == Some(kind@),
            forall|k: int|
                0 <= k < i ==> !is_relation(#[trigger] all[k], from@, to@, Some(kind@)),
        decreases relations@.len() - i,
    {
        assert(all[i as int] == relations@[i as int]@);
        if relation_fits(&relations[i], from, to, &wanted) {
            return true;
        }
        i += 1;
    }
    false
}

/// A strand with one more relation.
pub open spec fn relation_added(strand: StrandView, args: RelationAddArgs) -> Result<
    StrandView,
    Seq<char>,
> {
    if has_relation(strand.relations, args.from@, args.to@, args.kind@) {
        Err("that relationship already exists"@)
    } else {
        Ok(
            StrandView {
                relations: strand.relations.push(
                    RelationView {
                        from: args.from@,
                        to: args.to@,
                        kind: args.kind@,
                        bidirectional: args.bidirectional,
                        attributes: no_attributes(),
                    },
                ),
                ..strand
            },
        )
    }
}

/// A strand with one more relation.
pub fn add_relation(strand: &Strand, args: &RelationAddArgs) -> (r: Result<Strand, String>)
    ensures
        outcome(r) == relation_added(strand@, *args),
{
    if relation_known(&strand.relations, args.from.as_str(), args.to.as_str(), &args.kind) {
        return Err("that relationship already exists".to_owned());
    }
    let mut relations = strand.relations.duplicate();
    let relation = Relation {
        from: args.from.clone(),
        to: args.to.clone(),
        kind: args.kind.clone(),
        bidirectional: args.bidirectional,
        attributes: StringMap::new(),
    };
    assert(relation@.attributes =~= no_attributes());
    push_item(&mut relations, relation);
    let mut changed = strand.duplicate();
    changed.relations = relations;
    Ok(changed)
}

/// A strand without some of its relations.
pub open spec fn relation_removed(strand: StrandView, args: RelationRemoveArgs) -> Result<
    StrandView,
    Seq<char>,
> {
    let left = other_relations(
        strand.relations,
        args.from@,
        args.to@,
        args.kind.deep_view(),
        strand.relations.len() as int,
    );
    if left.len() == strand.relations.len() {
        Err("matching sidecar relationship not found"@)
    } else {
        Ok(StrandView { relations: left, ..strand })
    }
}

/// A strand without some of its relations.
pub fn remove_relation(strand: &Strand, args: &RelationRemoveArgs) -> (r: Result<Strand, String>)
    ensures
        outcome(r) == relation_removed(strand@, *args),
{
    let left = relations_without(
        &strand.relations,
        args.from.as_str(),
        args.to.as_str(),
        &args.kind,
    );
    assert(left.deep_view().len() == left@.len());
    assert(strand.relations.deep_view().len() == strand.relations@.len());
    if left.len() == strand.relations.len() {
        return Err("matching sidecar relationship not found".to_owned());
    }
    let mut changed = strand.duplicate();
    changed.relations = left;
    Ok(changed)
}

/// A change to a strand.
#[derive(Debug)]
pub enum StrandEdit<'a> {
    /// Its fields change.
    Change(&'a StrandSetArgs),
    /// An anchor becomes a member.
    AddMember(&'a MemberAddArgs),
    /// An anchor is a member no more.
    RemoveMember(&'a MemberRemoveArgs),
    /// A relation is added.
    AddRelation(&'a RelationAddArgs),
    /// Relations are taken away.
    RemoveRelation(&'a RelationRemoveArgs),
}

/// A strand after a change.
pub open spec fn strand_edited(strand: StrandView, edit: StrandEdit<'_>) -> Result<
    StrandView,
    Seq<char>,
> {
    match edit {
        StrandEdit::Change(args) => strand_changed(strand, *args),
        StrandEdit::AddMember(args) => member_added(strand, *args),
        StrandEdit::RemoveMember(args) => member_removed(strand, *args),
        StrandEdit::AddRelation(args) => relation_added(strand, *args),
        StrandEdit::RemoveRelation(args) => relation_removed(strand, *args),
    }
}

/// A strand after a change.
pub fn edit_strand(strand: &Strand, edit: &StrandEdit<'_>) -> (r: Result<Strand, String>)
    ensures
        outcome(r) == strand_edited(strand@, *edit),
{
    match edit {
        StrandEdit::Change(args) => change_strand(strand, args),
        StrandEdit::AddMember(args) => add_member(strand, args),
        StrandEdit::RemoveMember(args) => remove_member(strand, args),
        StrandEdit::AddRelation(args) => add_relation(strand, args),
        StrandEdit::RemoveRelation(args) => remove_relation(strand, args),
    }
}

/// What is wrong with a location.
pub open spec fn location_problem(location: LocationView) -> Option<Seq<char>> {
    if is_blank(location.path) {
        Some("location path cannot be empty"@)
    } else if location.line_start == Some(0u32) || location.line_end == Some(0u32) || (
    location.line_start is Some && location.line_end is Some && location.line_end->0
        < location.line_start->0) {
        Some("invalid line range"@)
    } else {
        None
    }
}

/// Checks a location.
pub fn validate_location(location: &Location) -> (r: Result<(), String>)
    ensures
        match r {
            Ok(_) => location_problem(location@) is None,
            Err(message) => location_problem(location@) == Some(message@),
        },
{
    if blank(location.path.as_str()) {
        return Err("location path cannot be empty".to_owned());
    }
    let wrong = match location.line_start {
        None => match location.line_end {
            None => false,
            Some(end) => end == 0,
        },
        Some(start) => start == 0 || match location.line_end {
            None => false,
            Some(end) => end == 0 || end < start,
        },
    };
    if wrong {
        return Err("invalid line range".to_owned());
    }
    Ok(())
}

/// The location that options name.
pub open spec fn location_made(
    path: Option<Seq<char>>,
    symbol: Option<Seq<char>>,
    line_start: Option<u32>,
    line_end: Option<u32>,
    watch: Option<WatchArg>,
) -> Result<Option<LocationView>, Seq<char>> {
    match path {
        None => if symbol is Some || line_start is Some || line_end is Some || watch is Some {
            Err("--path is required with location-specific options"@)
        } else {
            Ok(None)
        },
        Some(path) => match location_path(path) {
            Err(message) => Err(message),
            Ok(path) => {
                let location = LocationView {
                    path,
                    line_start,
                    line_end,
                    symbol,
                    language: None,
                    fingerprint: None,
                    watch: match watch {
                        Some(watch) => Some(watch_of(watch)),
                        None => None,
                    },
                };
                match location_problem(location) {
                    Some(message) => Err(message),
                    None => Ok(Some(location)),
                }
            },
        },
    }
}

/// The location that options name.
pub fn make_location(
    path: &Option<String>,
    symbol: &Option<String>,
    line_start: Option<u32>,
    line_end: Option<u32>,
    watch: Option<WatchArg>,
) -> (r: Result<Option<Location>, String>)
    ensures
        outcome(r) == location_made(
            path.deep_view(),
            symbol.deep_view(),
            line_start,
            line_end,
            watch,
        ),
{
    let path = match path {
        None => {
            if symbol.is_some() || line_start.is_some() || line_end.is_some() || watch.is_some() {
                return Err("--path is required with location-specific options".to_owned());
            }
            return Ok(None);
        },
        Some(path) => path,
    };
    let path = match normalize_location_path(path.as_str()) {
        Ok(path) => path,
        Err(message) => {
            return Err(message);
        },
    };
    let location = Location {
        path,
        line_start,
        line_end,
        symbol: copy_option(symbol),
        language: None,
        fingerprint: None,
        watch: match watch {
            Some(watch) => Some(WatchMode::from(watch)),
            None => None,
        },
    };
    match validate_location(&location) {
        Ok(_) => Ok(Some(location)),
        Err(message) => Err(message),
    }
}

/// The anchor that is to be added.
pub open spec fn anchor_added(args: AnchorAddArgs) -> Result<AnchorView, Seq<char>> {
    if !is_usable_id(args.id@) {
        Err("anchor"@ + " id cannot be empty or contain whitespace"@)
    } else {
        match location_made(
            args.path.deep_view(),
            args.symbol.deep_view(),
            args.line_start,
            args.line_end,
            args.watch,
        ) {
            Err(message) => Err(message),
            Ok(location) => if args.target is None && location is None {
                Err("anchor requires --target or --path"@)
            } else {
                Ok(
                    AnchorView {
                        schema: 1,
                        id: args.id@,
                        target: args.target.deep_view(),
                        kind: args.kind.deep_view(),
                        location,
                        tags: args.tags.deep_view().to_set(),
                        attributes: no_attributes(),
                    },
                )
            },
        }
    }
}

/// The anchor that is to be added.
pub fn new_anchor(args: &AnchorAddArgs) -> (r: Result<Anchor, String>)
    ensures
        outcome(r) == anchor_added(*args),
{
    match validate_id(args.id.as_str(), "anchor") {
        Ok(_) => {},
        Err(message) => {
            return Err(message);
        },
    }
    let location = match make_location(
        &args.path,
        &args.symbol,
        args.line_start,
        args.line_end,
        args.watch,
    ) {
        Ok(location) => location,
        Err(message) => {
            return Err(message);
        },
    };
    if args.target.is_none() && location.is_none() {
        return Err("anchor requires --target or --path".to_owned());
    }
    let anchor = Anchor {
        schema: 1,
        id: args.id.clone(),
        target: copy_option(&args.target),
        kind: copy_option(&args.kind),
        location,
        tags: tag_set(&args.tags),
        attributes: StringMap::new(),
    };
    assert(anchor@.attributes =~= no_attributes());
    Ok(anchor)
}

/// Whether a change speaks of the location of an anchor.
pub open spec fn changes_location(args: AnchorSetArgs) -> bool {
    args.path is Some || args.symbol is Some || args.clear_symbol || args.line_start is Some
        || args.line_end is Some || args.watch is Some
}

/// The location of an anchor after a change that names its path.
pub open spec fn located(
    old_location: Option<LocationView>,
    path: Seq<char>,
    args: AnchorSetArgs,
) -> LocationView {
    let base = match old_location {
        Some(location) => location,
        None => LocationView {
            path,
            line_start: None,
            line_end: None,
            symbol: None,
            language: None,
            fingerprint: None,
            watch: None,
        },
    };
    LocationView {
        path,
        symbol: changed_text(base.symbol, args.symbol.deep_view(), args.clear_symbol),
        line_start: if args.line_start is Some {
            args.line_start
        } else {
            base.line_start
        },
        line_end: if args.line_end is Some {
            args.line_end
        } else {
            base.line_end
        },
        watch: match args.watch {
            Some(watch) => Some(watch_of(watch)),
            None => base.watch,
        },
        ..base
    }
}

/// The location of an anchor after a change. A change that speaks of the location has to
/// name its path.
pub open spec fn location_changed(
    old_location: Option<LocationView>,
    args: AnchorSetArgs,
) -> Result<Option<LocationView>, Seq<char>> {
    if args.clear_location {
        Ok(None)
    } else if !changes_location(args) {
        Ok(old_location)
    } else {
        match args.path {
            None => Err("--path is required when creating a location"@),
            Some(path) => match location_path(path@) {
                Err(message) => Err(message),
                Ok(path) => match location_problem(located(old_location, path, args)) {
                    Some(message) => Err(message),
                    None => Ok(Some(located(old_location, path, args))),
                },
            },
        }
    }
}

/// The location of an anchor after a change.
fn change_location(old_location: &Option<Location>, args: &AnchorSetArgs) -> (r: Result<
    Option<Location>,
    String,
>)
    ensures
        outcome(r) == location_changed(old_location.deep_view(), *args),
{
    if args.clear_location {
        return Ok(None);
    }
    if !(args.path.is_some() || args.symbol.is_some() || args.clear_symbol
        || args.line_start.is_some() || args.line_end.is_some() || args.watch.is_some()) {
        return Ok(old_location.duplicate());
    }
    let path = match &args.path {
        None => {
            return Err("--path is required when creating a location".to_owned());
        },
        Some(path) => path,
    };
    let path = match normalize_location_path(path.as_str()) {
        Ok(path) => path,
        Err(message) => {
            return Err(message);
        },
    };
    let base: Location = match old_location {
        Some(location) => location.duplicate(),
        None => Location {
            path: path.clone(),
            line_start: None,
            line_end: None,
            symbol: None,
            language: None,
            fingerprint: None,
            watch: None,
        },
    };
    let location = Location {
        path,
        line_start: if args.line_start.is_some() {
            args.line_start
        } else {
            base.line_start
        },
        line_end: if args.line_end.is_some() {
            args.line_end
        } else {
            base.line_end
        },
        symbol: change_text(&base.symbol, &args.symbol, args.clear_symbol),
        language: base.language,
        fingerprint: base.fingerprint,
        watch: match args.watch {
            Some(watch) => Some(WatchMode::from(watch)),
            None => base.watch,
        },
    };
    match validate_location(&location) {
        Ok(_) => Ok(Some(location)),
        Err(message) => Err(message),
    }
}

/// An anchor after its fields were changed.
pub open spec fn anchor_changed(anchor: AnchorView, args: AnchorSetArgs) -> Result<
    AnchorView,
    Seq<char>,
> {
    match location_changed(anchor.location, args) {
        Err(message) => Err(message),
        Ok(location) => {
            let target = changed_text(anchor.target, args.target.deep_view(), args.clear_target);
            if target is None && location is None {
                Err("anchor requires a target or location"@)
            } else {
                Ok(
                    AnchorView {
                        target,
                        kind: changed_text(anchor.kind, args.kind.deep_view(), args.clear_kind),
                        location,
                        tags: anchor.tags.union(args.tags.deep_view().to_set()).difference(
                            args.remove_tags.deep_view().to_set(),
                        ),
                        ..anchor
                    },
                )
            }
        },
    }
}

/// An anchor after its fields were changed.
pub fn change_anchor(anchor: &Anchor, args: &AnchorSetArgs) -> (r: Result<Anchor, String>)
    ensures
        outcome(r) == anchor_changed(anchor@, *args),
{
    let location = match change_location(&anchor.location, args) {
        Ok(location) => location,
        Err(message) => {
            return Err(message);
        },
    };
    let target = change_text(&anchor.target, &args.target, args.clear_target);
    if target.is_none() && location.is_none() {
        return Err("anchor requires a target or location".to_owned());
    }
    let mut tags = anchor.tags.duplicate();
    add_all(&mut tags, &args.tags);
    remove_all(&mut tags, &args.remove_tags);
    let mut changed = anchor.duplicate();
    changed.target = target;
    changed.kind = change_text(&anchor.kind, &args.kind, args.clear_kind);
    changed.location = location;
    changed.tags = tags;
    Ok(changed)
}

/// No change leaves an anchor without a target and without a location.
pub proof fn changed_anchors_stand_for_something(anchor: AnchorView, args: AnchorSetArgs)
    ensures
        anchor_changed(anchor, args) matches Ok(changed) ==> changed.target is Some
            || changed.location is Some,
        anchor_changed(anchor, args) matches Ok(changed) ==> changed.id == anchor.id,
{
}

/// A member that was added can be removed again, and only members of that anchor go with it.
pub proof fn added_members_can_be_removed(
    strand: StrandView,
    added: MemberAddArgs,
    removed: MemberRemoveArgs,
)
    requires
        added.anchor@ == removed.anchor@,
        member_added(strand, added) is Ok,
    ensures
        member_removed(member_added(strand, added)->Ok_0, removed) is Ok,
        member_removed(member_added(strand, added)->Ok_0, removed)->Ok_0.members
            == other_members(strand.members, added.anchor@, strand.members.len() as int),
{
    let more = member_added(strand, added)->Ok_0;
    lemma_other_members_prefix(
        strand.members,
        more.members,
        added.anchor@,
        strand.members.len() as int,
    );
    lemma_other_members_len(strand.members, added.anchor@, strand.members.len() as int);
}

proof fn lemma_other_members_prefix(
    a: Seq<MemberView>,
    b: Seq<MemberView>,
    anchor: Seq<char>,
    n: int,
)
    requires
        n <= a.len(),
        n <= b.len(),
        forall|i: int| 0 <= i < n ==> a[i] == b[i],
    ensures
        other_members(a, anchor, n) == other_members(b, anchor, n),
    decreases n,
{
    if n > 0 {
        lemma_other_members_prefix(a, b, anchor, n - 1);
    }
}

proof fn lemma_other_members_len(members: Seq<MemberView>, anchor: Seq<char>, n: int)
    requires
        0 <= n,
    ensures
        other_members(members, anchor, n).len() <= n,
    decreases n,
{
    if n > 0 {
        lemma_other_members_len(members, anchor, n - 1);
    }
}

proof fn lemma_other_relations(
    a: Seq<RelationView>,
    b: Seq<RelationView>,
    from: Seq<char>,
    to: Seq<char>,
    kind: Seq<char>,
    n: int,
)
    requires
        0 <= n <= a.len(),
        n <= b.len(),
        forall|i: int| 0 <= i < n ==> #[trigger] a[i] == b[i]
            && !is_relation(a[i], from, to, Some(kind)),
    ensures
        other_relations(b, from, to, Some(kind), n) == a.take(n),
    decreases n,
{
    if n > 0 {
        lemma_other_relations(a, b, from, to, kind, n - 1);
        assert(a[n - 1] == b[n - 1]);
        assert(a.take(n) =~= a.take(n - 1).push(a[n - 1]));
    } else {
        assert(a.take(0) =~= seq![]);
    }
}

/// A relation that was added can be removed again by its kind, and the strand is then as it
/// was.
pub proof fn added_relations_can_be_removed(
    strand: StrandView,
    added: RelationAddArgs,
    removed: RelationRemoveArgs,
)
    requires
        added.from@ == removed.from@,
        added.to@ == removed.to@,
        removed.kind.deep_view() == Some(added.kind@),
        relation_added(strand, added) is Ok,
    ensures
        relation_removed(relation_added(strand, added)->Ok_0, removed)
            == Ok::<StrandView, Seq<char>>(strand),
{
    let more = relation_added(strand, added)->Ok_0;
    let n = strand.relations.len() as int;
    assert forall|i: int| 0 <= i < n implies #[trigger] strand.relations[i] == more.relations[i]
        && !is_relation(strand.relations[i], added.from@, added.to@, Some(added.kind@)) by {}
    lemma_other_relations(
        strand.relations,
        more.relations,
        added.from@,
        added.to@,
        added.kind@,
        n,
    );
    assert(strand.relations.take(n) =~= strand.relations);
    assert(more.relations[n] == more.relations.last());
}

} // verus!
