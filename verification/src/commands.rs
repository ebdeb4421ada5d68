//! What the commands decide.

use vstd::prelude::*;

use crate::annotations::{location_path, markers_are_filled, normalize_location_path};
use crate::cli::{
    AffectedArgs, AnchorCommand, AnchorListArgs, AnchorRemoveArgs, ChangeArgs, Command, ContextArgs,
    MemberCommand, RelationCommand, ReviewCommand, StrandCommand, StrandListArgs, StrandRemoveArgs,
    StrandSetArgs,
};
use crate::collections::{ordered, StringMap, StringSet};
use crate::config::{no_attributes, Config, ConfigView};
use crate::context_output::{display_location, location_text, RenderOptions, RenderOptionsView};
use crate::edits::{anchor_added, new_anchor, new_strand, strand_added, StrandEdit};
use crate::graph::{
    affected, affected_packet, context_from_seeds, merge_context, merged_context, seed_packet,
    AffectedOptions, AffectedOptionsView, ContextSeeds, ContextSeedsView,
};
use crate::metadata::{
    add_anchor, add_global_relation, add_strand, anchor_file, anchor_update, edited_path,
    global_reference_edits, item_removal, load, loaded, reference_edits, relation_file,
    relation_removal, remove_anchor, remove_anchor_references, remove_global_references,
    remove_global_relation, remove_strand, strand_file, strand_update, unknown_sidecar,
    update_anchor, update_strand, Edit, EditView, MetadataFiles, ParsedMetadata,
};
use crate::model::{
    AffectedStrand, AffectedStrandView, Anchor, AnchorView, ChangeSet, ContextPacket,
    ContextPacketView, Diagnostic, DiagnosticView, Index, IndexView, IndexedMemberView,
    IndexedRelationView, Relation, RelationView, Review, Severity, Strand, StrandView,
};
use crate::repo::{relative_path, Repository};
use crate::search::{at_or_below, hit_reason, is_at_or_below, SearchHit, SearchHitView};
use crate::text::{
    blank, contains, contains_text, debug_quoted, debug_text, decimal, is_blank, join, join_texts,
    option_is, same_text, text_before, text_less, wide_decimal_text,
};
use crate::views::{outcome, push_item, Duplicate};

verus! {

/// What is reported of a change to the metadata.
#[derive(Debug, Clone)]
pub struct Report {
    /// What was done.
    pub action: String,
    /// What it was done to.
    pub id: String,
    /// The file that changed, in the repository.
    pub path: String,
}

/// The mathematical content of a [`Report`].
#[verifier::ext_equal]
pub ghost struct ReportView {
    pub action: Seq<char>,
    pub id: Seq<char>,
    pub path: Seq<char>,
}

impl View for Report {
    type V = ReportView;

    open spec fn view(&self) -> ReportView {
        ReportView {
            action: self.action.deep_view(),
            id: self.id.deep_view(),
            path: self.path.deep_view(),
        }
    }
}

impl DeepView for Report {
    type V = ReportView;

    open spec fn deep_view(&self) -> ReportView {
        self@
    }
}

impl Duplicate for Report {
    fn duplicate(&self) -> (r: Self) {
        Report {
            action: self.action.duplicate(),
            id: self.id.duplicate(),
            path: self.path.duplicate(),
        }
    }
}

/// Changes to metadata files, made in this order, and what is reported once they are made.
#[derive(Debug)]
pub struct Mutation {
    /// The changes to files of strands.
    pub strands: Vec<Edit<Strand>>,
    /// The changes to files of anchors.
    pub anchors: Vec<Edit<Anchor>>,
    /// The changes to files of relations.
    pub relations: Vec<Edit<Relation>>,
    /// What is reported, or why the command fails all the same.
    pub result: Result<Report, String>,
}

/// The mathematical content of a [`Mutation`].
#[verifier::ext_equal]
pub ghost struct MutationView {
    pub strands: Seq<EditView<StrandView>>,
    pub anchors: Seq<EditView<AnchorView>>,
    pub relations: Seq<EditView<RelationView>>,
    pub result: Result<ReportView, Seq<char>>,
}

impl View for Mutation {
    type V = MutationView;

    open spec fn view(&self) -> MutationView {
        MutationView {
            strands: self.strands.deep_view(),
            anchors: self.anchors.deep_view(),
            relations: self.relations.deep_view(),
            result: outcome(self.result),
        }
    }
}

/// What a command on the metadata comes to.
#[derive(Debug)]
pub enum CommandOutcome {
    /// Metadata files change.
    Changed(Mutation),
    /// These strands are listed.
    Strands(Vec<Strand>),
    /// This strand is shown.
    Strand(Strand),
    /// These anchors are listed.
    Anchors(Vec<Anchor>),
    /// This anchor is shown.
    Anchor(Anchor),
}

/// The mathematical content of a [`CommandOutcome`].
#[verifier::ext_equal]
pub ghost enum CommandOutcomeView {
    Changed(MutationView),
    Strands(Seq<StrandView>),
    Strand(StrandView),
    Anchors(Seq<AnchorView>),
    Anchor(AnchorView),
}

impl View for CommandOutcome {
    type V = CommandOutcomeView;

    open spec fn view(&self) -> CommandOutcomeView {
        match self {
            CommandOutcome::Changed(mutation) => CommandOutcomeView::Changed(mutation@),
            CommandOutcome::Strands(strands) => CommandOutcomeView::Strands(strands.deep_view()),
            CommandOutcome::Strand(strand) => CommandOutcomeView::Strand(strand@),
            CommandOutcome::Anchors(anchors) => CommandOutcomeView::Anchors(anchors.deep_view()),
            CommandOutcome::Anchor(anchor) => CommandOutcomeView::Anchor(anchor@),
        }
    }
}

impl DeepView for CommandOutcome {
    type V = CommandOutcomeView;

    open spec fn deep_view(&self) -> CommandOutcomeView {
        self@
    }
}

/// What is reported of a change to a file.
pub open spec fn report_of(
    root: Seq<char>,
    action: Seq<char>,
    id: Seq<char>,
    path: Seq<char>,
) -> ReportView {
    ReportView { action, id, path: relative_path(root, path) }
}

/// What is reported of a change to a file.
fn make_report(repo: &Repository, action: &str, id: &str, path: &str) -> (r: Report)
    ensures
        r@ == report_of(repo.root@, action@, id@, path@),
{
    Report { action: action.to_owned(), id: id.to_owned(), path: repo.relative(path) }
}

/// A change to one file of strands.
pub open spec fn strand_mutation(
    root: Seq<char>,
    action: Seq<char>,
    id: Seq<char>,
    edit: EditView<StrandView>,
) -> CommandOutcomeView {
    CommandOutcomeView::Changed(
        MutationView {
            strands: seq![edit],
            anchors: seq![],
            relations: seq![],
            result: Ok(report_of(root, action, id, edited_path(edit))),
        },
    )
}

/// A change to one file of relations.
pub open spec fn relation_mutation(
    root: Seq<char>,
    action: Seq<char>,
    id: Seq<char>,
    edit: EditView<RelationView>,
) -> CommandOutcomeView {
    CommandOutcomeView::Changed(
        MutationView {
            strands: seq![],
            anchors: seq![],
            relations: seq![edit],
            result: Ok(report_of(root, action, id, edited_path(edit))),
        },
    )
}

/// A change to one file of anchors, behind changes to files of strands.
pub open spec fn anchor_mutation(
    root: Seq<char>,
    action: Seq<char>,
    id: Seq<char>,
    strands: Seq<EditView<StrandView>>,
    relations: Seq<EditView<RelationView>>,
    edit: EditView<AnchorView>,
) -> CommandOutcomeView {
    CommandOutcomeView::Changed(
        MutationView {
            strands,
            anchors: seq![edit],
            relations,
            result: Ok(report_of(root, action, id, edited_path(edit))),
        },
    )
}

/// Changes to files of strands and of relations behind which a command fails.
pub open spec fn failed_mutation(
    strands: Seq<EditView<StrandView>>,
    relations: Seq<EditView<RelationView>>,
    message: Seq<char>,
) -> CommandOutcomeView {
    CommandOutcomeView::Changed(
        MutationView { strands, anchors: seq![], relations, result: Err(message) },
    )
}

/// A change to one file of strands.
fn change_strands(repo: &Repository, action: &str, id: &str, edit: Edit<Strand>) -> (r:
    CommandOutcome)
    ensures
        r@ == strand_mutation(repo.root@, action@, id@, edit@),
{
    let report = make_report(repo, action, id, edit.path());
    let ghost view = edit@;
    let mut strands: Vec<Edit<Strand>> = Vec::new();
    strands.push(edit);
    let mutation = Mutation {
        strands,
        anchors: Vec::new(),
        relations: Vec::new(),
        result: Ok(report),
    };
    assert(mutation@.strands =~= seq![view]);
    assert(mutation@.anchors =~= seq![]);
    assert(mutation@.relations =~= seq![]);
    CommandOutcome::Changed(mutation)
}

/// A change to one file of relations.
fn change_relations(repo: &Repository, action: &str, id: &str, edit: Edit<Relation>) -> (r:
    CommandOutcome)
    ensures
        r@ == relation_mutation(repo.root@, action@, id@, edit@),
{
    let report = make_report(repo, action, id, edit.path());
    let ghost view = edit@;
    let mut relations: Vec<Edit<Relation>> = Vec::new();
    relations.push(edit);
    let mutation = Mutation {
        strands: Vec::new(),
        anchors: Vec::new(),
        relations,
        result: Ok(report),
    };
    assert(mutation@.strands =~= seq![]);
    assert(mutation@.anchors =~= seq![]);
    assert(mutation@.relations =~= seq![view]);
    CommandOutcome::Changed(mutation)
}

/// A change to one file of anchors, behind changes to files of strands.
fn change_anchors(
    repo: &Repository,
    action: &str,
    id: &str,
    strands: Vec<Edit<Strand>>,
    relations: Vec<Edit<Relation>>,
    edit: Edit<Anchor>,
) -> (r: CommandOutcome)
    ensures
        r@ == anchor_mutation(
            repo.root@,
            action@,
            id@,
            strands.deep_view(),
            relations.deep_view(),
            edit@,
        ),
{
    let report = make_report(repo, action, id, edit.path());
    let ghost view = edit@;
    let mut anchors: Vec<Edit<Anchor>> = Vec::new();
    anchors.push(edit);
    let mutation = Mutation { strands, anchors, relations, result: Ok(report) };
    assert(mutation@.anchors =~= seq![view]);
    CommandOutcome::Changed(mutation)
}

/// Changes to files of strands and of relations behind which a command fails.
fn fail_after(
    strands: Vec<Edit<Strand>>,
    relations: Vec<Edit<Relation>>,
    message: String,
) -> (r: CommandOutcome)
    ensures
        r@ == failed_mutation(strands.deep_view(), relations.deep_view(), message@),
{
    let mutation = Mutation { strands, anchors: Vec::new(), relations, result: Err(message) };
    assert(mutation@.anchors =~= seq![]);
    CommandOutcome::Changed(mutation)
}

/// What is said of an anchor that there is not.
pub open spec fn said_of_unknown_anchor(id: Seq<char>) -> Seq<char> {
    "unknown anchor "@ + debug_quoted(id)
}

/// What is said of a strand that there is not.
pub open spec fn said_of_unknown_strand(id: Seq<char>) -> Seq<char> {
    "unknown strand "@ + debug_quoted(id)
}

/// Checks that there is an anchor.
pub fn require_anchor(index: &Index, id: &str) -> (r: Result<(), String>)
    ensures
        match r {
            Ok(_) => index@.anchors.contains_key(id@),
            Err(message) => !index@.anchors.contains_key(id@) && message@
                == said_of_unknown_anchor(id@),
        },
{
    if index.anchors.contains_key(id) {
        return Ok(());
    }
    let mut message = "unknown anchor ".to_owned();
    message.push_str(debug_text(id).as_str());
    Err(message)
}

/// Checks that there is a strand.
pub fn require_strand(index: &Index, id: &str) -> (r: Result<(), String>)
    ensures
        match r {
            Ok(_) => index@.strands.contains_key(id@),
            Err(message) => !index@.strands.contains_key(id@) && message@
                == said_of_unknown_strand(id@),
        },
{
    if index.strands.contains_key(id) {
        return Ok(());
    }
    let mut message = "unknown strand ".to_owned();
    message.push_str(debug_text(id).as_str());
    Err(message)
}

/// How many of the first `n` memberships are of a strand.
pub open spec fn memberships_of(memberships: Seq<IndexedMemberView>, id: Seq<char>, n: int) -> nat
    decreases n,
{
    if n <= 0 {
        0
    } else {
        memberships_of(memberships, id, n - 1) + if memberships[n - 1].strand == Some(id) {
            1nat
        } else {
            0nat
        }
    }
}

/// How many of the first `n` relations are of a strand.
pub open spec fn relations_of(relations: Seq<IndexedRelationView>, id: Seq<char>, n: int) -> nat
    decreases n,
{
    if n <= 0 {
        0
    } else {
        relations_of(relations, id, n - 1) + if relations[n - 1].strand == Some(id) {
            1nat
        } else {
            0nat
        }
    }
}

/// How many memberships and relations a strand has.
pub open spec fn strand_references(index: IndexView, id: Seq<char>) -> nat {
    memberships_of(index.memberships, id, index.memberships.len() as int) + relations_of(
        index.relations,
        id,
        index.relations.len() as int,
    )
}

/// How many memberships and relations a strand has.
fn count_references(index: &Index, id: &str) -> (r: u128)
    ensures
        r == strand_references(index@, id@),
{
    let ghost ms = index@.memberships;
    let ghost rs = index@.relations;
    let mut members: usize = 0;
    let mut i: usize = 0;
    while i < index.memberships.len()
        invariant
            i <= index.memberships@.len(),
            ms == index.memberships.deep_view(),
            members <= i,
            members == memberships_of(ms, id@, i as int),
        decreases index.memberships@.len() - i,
    {
        assert(ms[i as int] == index.memberships@[i as int]@);
        if option_is(&index.memberships[i].strand, id) {
            members += 1;
        }
        i += 1;
    }
    let mut relations: usize = 0;
    let mut k: usize = 0;
    while k < index.relations.len()
        invariant
            k <= index.relations@.len(),
            rs == index.relations.deep_view(),
            relations <= k,
            relations == relations_of(rs, id@, k as int),
        decreases index.relations@.len() - k,
    {
        assert(rs[k as int] == index.relations@[k as int]@);
        if option_is(&index.relations[k].strand, id) {
            relations += 1;
        }
        k += 1;
    }
    members as u128 + relations as u128
}

/// Whether a strand is listed.
pub open spec fn is_listed_strand(strand: StrandView, args: StrandListArgs) -> bool {
    (args.tag is None || strand.tags.contains(args.tag->0@)) && (args.scope is None
        || strand.scope == Some(args.scope->0@))
}

/// The strands among the first `n` that are listed.
pub open spec fn listed_strands(index: IndexView, args: StrandListArgs, n: int) -> Seq<StrandView>
    decreases n,
{
    if n <= 0 {
        seq![]
    } else {
        let strand = index.strands[ordered(index.strands.dom())[n - 1]].value;
        if is_listed_strand(strand, args) {
            listed_strands(index, args, n - 1).push(strand)
        } else {
            listed_strands(index, args, n - 1)
        }
    }
}

/// The strands that are listed.
fn list_strands(index: &Index, args: &StrandListArgs) -> (r: Vec<Strand>)
    ensures
        r.deep_view() == listed_strands(
            index@,
            *args,
            ordered(index@.strands.dom()).len() as int,
        ),
{
    let n: usize = index.strands.len();
    let mut out: Vec<Strand> = Vec::new();
    let mut i: usize = 0;
    assert(out.deep_view() =~= seq![]);
    while i < n
        invariant
            i <= n,
            n == ordered(index@.strands.dom()).len(),
            out.deep_view() == listed_strands(index@, *args, i as int),
        decreases n - i,
    {
        let strand = &index.strands.value_at(i).value;
        let tagged = match &args.tag {
            None => true,
            Some(tag) => strand.tags.contains(tag.as_str()),
        };
        let scoped = match &args.scope {
            None => true,
            Some(scope) => option_is(&strand.scope, scope.as_str()),
        };
        if tagged && scoped {
            push_item(&mut out, strand.duplicate());
        }
        i += 1;
    }
    out
}

/// Whether an anchor is listed.
pub open spec fn is_listed_anchor(anchor: AnchorView, args: AnchorListArgs) -> bool {
    (args.kind is None || anchor.kind == Some(args.kind->0@)) && (args.tag is None
        || anchor.tags.contains(args.tag->0@)) && (args.path is None || (anchor.location is Some
        && anchor.location->0.path == args.path->0@))
}

/// The anchors among the first `n` that are listed.
pub open spec fn listed_anchors(index: IndexView, args: AnchorListArgs, n: int) -> Seq<AnchorView>
    decreases n,
{
    if n <= 0 {
        seq![]
    } else {
        let anchor = index.anchors[ordered(index.anchors.dom())[n - 1]].value;
        if is_listed_anchor(anchor, args) {
            listed_anchors(index, args, n - 1).push(anchor)
        } else {
            listed_anchors(index, args, n - 1)
        }
    }
}

/// The anchors that are listed.
fn list_anchors(index: &Index, args: &AnchorListArgs) -> (r: Vec<Anchor>)
    ensures
        r.deep_view() == listed_anchors(
            index@,
            *args,
            ordered(index@.anchors.dom()).len() as int,
        ),
{
    let n: usize = index.anchors.len();
    let mut out: Vec<Anchor> = Vec::new();
    let mut i: usize = 0;
    assert(out.deep_view() =~= seq![]);
    while i < n
        invariant
            i <= n,
            n == ordered(index@.anchors.dom()).len(),
            out.deep_view() == listed_anchors(index@, *args, i as int),
        decreases n - i,
    {
        let anchor = &index.anchors.value_at(i).value;
        let kind = match &args.kind {
            None => true,
            Some(kind) => option_is(&anchor.kind, kind.as_str()),
        };
        let tagged = match &args.tag {
            None => true,
            Some(tag) => anchor.tags.contains(tag.as_str()),
        };
        let placed = match &args.path {
            None => true,
            Some(path) => match &anchor.location {
                None => false,
                Some(location) => same_text(location.path.as_str(), path.as_str()),
            },
        };
        if kind && tagged && placed {
            push_item(&mut out, anchor.duplicate());
        }
        i += 1;
    }
    out
}

/// Whether a command on strands looks at the index.
pub open spec fn strand_reads_index(command: StrandCommand) -> bool {
    command is Remove || command is List || command is Show
}

/// Whether a command on strands looks at the index.
pub fn strand_needs_index(command: &StrandCommand) -> (r: bool)
    ensures
        r == strand_reads_index(*command),
{
    match command {
        StrandCommand::Add(_) => false,
        StrandCommand::Change(_) => false,
        StrandCommand::Remove(_) => true,
        StrandCommand::List(_) => true,
        StrandCommand::Show(_) => true,
    }
}

/// What changing a strand comes to.
pub open spec fn strand_set_outcome(
    root: Seq<char>,
    files: MetadataFiles,
    args: StrandSetArgs,
) -> Result<CommandOutcomeView, Seq<char>> {
    if args.title is Some && args.clear_title {
        Err("--title and --clear-title cannot be used together"@)
    } else if args.scope is Some && args.clear_scope {
        Err("--scope and --clear-scope cannot be used together"@)
    } else {
        match strand_update(files.strands.deep_view(), args.id@, StrandEdit::Change(&args)) {
            Err(message) => Err(message),
            Ok(edit) => Ok(strand_mutation(root, "Updated strand"@, args.id@, edit)),
        }
    }
}

/// What removing a strand comes to.
pub open spec fn strand_remove_outcome(
    root: Seq<char>,
    files: MetadataFiles,
    index: IndexView,
    args: StrandRemoveArgs,
) -> Result<CommandOutcomeView, Seq<char>> {
    let count = strand_references(index, args.id@);
    if !index.strands.contains_key(args.id@) {
        Err(said_of_unknown_strand(args.id@))
    } else if count > 0 && !args.force {
        Err(
            "strand "@ + debug_quoted(args.id@) + " has "@ + decimal(count)
                + " memberships or relations; use --force to remove its sidecar definition"@,
        )
    } else {
        match item_removal::<Strand>(files.strands.deep_view(), args.id@, 0) {
            Err(message) => Err(message),
            Ok(None) => Err("unknown strand "@ + debug_quoted(args.id@)),
            Ok(Some(edit)) => Ok(strand_mutation(root, "Removed strand"@, args.id@, edit)),
        }
    }
}

/// What a command on strands comes to.
pub open spec fn strand_outcome(
    root: Seq<char>,
    metadata_dir: Seq<char>,
    files: MetadataFiles,
    index: IndexView,
    command: StrandCommand,
) -> Result<CommandOutcomeView, Seq<char>> {
    match command {
        StrandCommand::Add(args) => match strand_added(args) {
            Err(message) => Err(message),
            Ok(strand) => match strand_file(metadata_dir, loaded(root, files), strand) {
                Err(message) => Err(message),
                Ok(edit) => Ok(strand_mutation(root, "Added strand"@, strand.id, edit)),
            },
        },
        StrandCommand::Change(args) => strand_set_outcome(root, files, args),
        StrandCommand::Remove(args) => strand_remove_outcome(root, files, index, args),
        StrandCommand::List(args) => Ok(
            CommandOutcomeView::Strands(
                listed_strands(index, args, ordered(index.strands.dom()).len() as int),
            ),
        ),
        StrandCommand::Show(args) => if index.strands.contains_key(args.id@) {
            Ok(CommandOutcomeView::Strand(index.strands[args.id@].value))
        } else {
            Err(said_of_unknown_strand(args.id@))
        },
    }
}

/// What changing a strand comes to.
fn set_strand(repo: &Repository, files: &MetadataFiles, args: &StrandSetArgs) -> (r: Result<
    CommandOutcome,
    String,
>)
    ensures
        outcome(r) == strand_set_outcome(repo.root@, *files, *args),
{
    if args.title.is_some() && args.clear_title {
        return Err("--title and --clear-title cannot be used together".to_owned());
    }
    if args.scope.is_some() && args.clear_scope {
        return Err("--scope and --clear-scope cannot be used together".to_owned());
    }
    match update_strand(&files.strands, args.id.as_str(), &StrandEdit::Change(args)) {
        Err(message) => Err(message),
        Ok(edit) => Ok(change_strands(repo, "Updated strand", args.id.as_str(), edit)),
    }
}

/// What removing a strand comes to.
fn drop_strand(
    repo: &Repository,
    files: &MetadataFiles,
    index: &Index,
    args: &StrandRemoveArgs,
) -> (r: Result<CommandOutcome, String>)
    ensures
        outcome(r) == strand_remove_outcome(repo.root@, *files, index@, *args),
{
    match require_strand(index, args.id.as_str()) {
        Ok(_) => {},
        Err(message) => {
            return Err(message);
        },
    }
    let count: u128 = count_references(index, args.id.as_str());
    if count > 0 && !args.force {
        let mut message = "strand ".to_owned();
        message.push_str(debug_text(args.id.as_str()).as_str());
        message.push_str(" has ");
        message.push_str(wide_decimal_text(count).as_str());
        message.push_str(
            " memberships or relations; use --force to remove its sidecar definition",
        );
        return Err(message);
    }
    match remove_strand(&files.strands, args.id.as_str()) {
        Err(message) => Err(message),
        Ok(edit) => Ok(change_strands(repo, "Removed strand", args.id.as_str(), edit)),
    }
}

/// What a command on strands comes to. The index is there where the command looks at it.
pub fn command_strand(
    repo: &Repository,
    files: &MetadataFiles,
    indexed: Option<&Index>,
    command: &StrandCommand,
) -> (r: Result<CommandOutcome, String>)
    requires
        strand_reads_index(*command) ==> indexed is Some,
    ensures
        forall|index: IndexView|
            (indexed is Some ==> index == indexed->0@) ==> outcome(r)
                == #[trigger] strand_outcome(
                repo.root@,
                repo.metadata_dir@,
                *files,
                index,
                *command,
            ),
{
    match command {
        StrandCommand::Add(args) => {
            let strand = match new_strand(args) {
                Ok(strand) => strand,
                Err(message) => {
                    return Err(message);
                },
            };
            let all = load(repo, files);
            match add_strand(repo, &all, &strand) {
                Err(message) => Err(message),
                Ok(edit) => Ok(change_strands(repo, "Added strand", strand.id.as_str(), edit)),
            }
        },
        StrandCommand::Change(args) => set_strand(repo, files, args),
        StrandCommand::Remove(args) => match indexed {
            None => Err(String::new()),
            Some(index) => drop_strand(repo, files, index, args),
        },
        StrandCommand::List(args) => match indexed {
            None => Err(String::new()),
            Some(index) => Ok(CommandOutcome::Strands(list_strands(index, args))),
        },
        StrandCommand::Show(args) => match indexed {
            None => Err(String::new()),
            Some(index) => match index.strands.get(args.id.as_str()) {
                Some(strand) => Ok(CommandOutcome::Strand(strand.value.duplicate())),
                None => {
                    let mut message = "unknown strand ".to_owned();
                    message.push_str(debug_text(args.id.as_str()).as_str());
                    Err(message)
                },
            },
        },
    }
}

/// Whether a command on anchors looks at the index.
pub open spec fn anchor_reads_index(command: AnchorCommand) -> bool {
    command is Remove || command is List || command is Show
}

/// Whether a command on anchors looks at the index.
pub fn anchor_needs_index(command: &AnchorCommand) -> (r: bool)
    ensures
        r == anchor_reads_index(*command),
{
    match command {
        AnchorCommand::Add(_) => false,
        AnchorCommand::Change(_) => false,
        AnchorCommand::Remove(_) => true,
        AnchorCommand::List(_) => true,
        AnchorCommand::Show(_) => true,
    }
}

/// Whether memberships or relations speak of an anchor.
pub open spec fn is_referenced(index: IndexView, id: Seq<char>) -> bool {
    (exists|i: int|
        0 <= i < index.memberships.len() && (#[trigger] index.memberships[i]).member.anchor == id)
        || (exists|i: int|
        0 <= i < index.relations.len() && ((#[trigger] index.relations[i]).relation.from == id
            || index.relations[i].relation.to == id))
}

/// Whether memberships or relations speak of an anchor.
fn anchor_is_referenced(index: &Index, id: &str) -> (r: bool)
    ensures
        r == is_referenced(index@, id@),
{
    let ghost ms = index@.memberships;
    let ghost rs = index@.relations;
    let mut i: usize = 0;
    while i < index.memberships.len()
        invariant
            i <= index.memberships@.len(),
            ms == index.memberships.deep_view(),
            forall|k: int| 0 <= k < i ==> (#[trigger] ms[k]).member.anchor != id@,
        decreases index.memberships@.len() - i,
    {
        assert(ms[i as int] == index.memberships@[i as int]@);
        if same_text(index.memberships[i].member.anchor.as_str(), id) {
            assert(index@.memberships[i as int].member.anchor == id@);
            return true;
        }
        i += 1;
    }
    let mut k: usize = 0;
    while k < index.relations.len()
        invariant
            k <= index.relations@.len(),
            rs == index.relations.deep_view(),
            ms == index@.memberships,
            forall|j: int| 0 <= j < ms.len() ==> (#[trigger] ms[j]).member.anchor != id@,
            forall|j: int|
                0 <= j < k ==> (#[trigger] rs[j]).relation.from != id@ && rs[j].relation.to != id@,
        decreases index.relations@.len() - k,
    {
        assert(rs[k as int] == index.relations@[k as int]@);
        if same_text(index.relations[k].relation.from.as_str(), id) || same_text(
            index.relations[k].relation.to.as_str(),
            id,
        ) {
            assert(index@.relations[k as int] == rs[k as int]);
            return true;
        }
        k += 1;
    }
    false
}

/// What removing an anchor comes to. Where it is forced, the references to it go first, and
/// stay gone where the anchor itself cannot be removed.
pub open spec fn anchor_remove_outcome(
    root: Seq<char>,
    files: MetadataFiles,
    index: IndexView,
    args: AnchorRemoveArgs,
) -> Result<CommandOutcomeView, Seq<char>> {
    let (edits, failure) = if args.force {
        reference_edits(
            files.strands.deep_view(),
            args.id@,
            files.strands.deep_view().len() as int,
        )
    } else {
        (seq![], None)
    };
    let (global, global_failure) = if args.force {
        global_reference_edits(
            files.relations.deep_view(),
            args.id@,
            files.relations.deep_view().len() as int,
        )
    } else {
        (seq![], None)
    };
    if is_referenced(index, args.id@) && !args.force {
        Err(
            "anchor "@ + debug_quoted(args.id@)
                + " is referenced by memberships or relations; use --force to remove sidecar references"@,
        )
    } else if failure is Some {
        Ok(failed_mutation(edits, seq![], failure->0))
    } else if global_failure is Some {
        Ok(failed_mutation(edits, global, global_failure->0))
    } else {
        match item_removal::<Anchor>(files.anchors.deep_view(), args.id@, 0) {
            Err(message) => Ok(failed_mutation(edits, global, message)),
            Ok(None) => Ok(failed_mutation(edits, global, unknown_sidecar(args.id@))),
            Ok(Some(edit)) => Ok(
                anchor_mutation(root, "Removed anchor"@, args.id@, edits, global, edit),
            ),
        }
    }
}

/// What a command on anchors comes to.
pub open spec fn anchor_outcome(
    root: Seq<char>,
    metadata_dir: Seq<char>,
    files: MetadataFiles,
    index: IndexView,
    command: AnchorCommand,
) -> Result<CommandOutcomeView, Seq<char>> {
    match command {
        AnchorCommand::Add(args) => match anchor_added(args) {
            Err(message) => Err(message),
            Ok(anchor) => match anchor_file(metadata_dir, loaded(root, files), anchor) {
                Err(message) => Err(message),
                Ok(edit) => Ok(
                    anchor_mutation(root, "Added anchor"@, anchor.id, seq![], seq![], edit),
                ),
            },
        },
        AnchorCommand::Change(args) => match anchor_update(
            files.anchors.deep_view(),
            args.id@,
            args,
        ) {
            Err(message) => Err(message),
            Ok(edit) => Ok(
                anchor_mutation(root, "Updated anchor"@, args.id@, seq![], seq![], edit),
            ),
        },
        AnchorCommand::Remove(args) => anchor_remove_outcome(root, files, index, args),
        AnchorCommand::List(args) => Ok(
            CommandOutcomeView::Anchors(
                listed_anchors(index, args, ordered(index.anchors.dom()).len() as int),
            ),
        ),
        AnchorCommand::Show(args) => if index.anchors.contains_key(args.id@) {
            Ok(CommandOutcomeView::Anchor(index.anchors[args.id@].value))
        } else {
            Err(said_of_unknown_anchor(args.id@))
        },
    }
}

/// What removing an anchor comes to.
fn drop_anchor(
    repo: &Repository,
    files: &MetadataFiles,
    index: &Index,
    args: &AnchorRemoveArgs,
) -> (r: Result<CommandOutcome, String>)
    ensures
        outcome(r) == anchor_remove_outcome(repo.root@, *files, index@, *args),
{
    let id = args.id.as_str();
    if anchor_is_referenced(index, id) && !args.force {
        let mut message = "anchor ".to_owned();
        message.push_str(debug_text(id).as_str());
        message.push_str(
            " is referenced by memberships or relations; use --force to remove sidecar references",
        );
        return Err(message);
    }
    let mut edits: Vec<Edit<Strand>> = Vec::new();
    assert(edits.deep_view() =~= seq![]);
    let mut global: Vec<Edit<Relation>> = Vec::new();
    assert(global.deep_view() =~= seq![]);
    if args.force {
        let references = remove_anchor_references(&files.strands, id);
        assert(files.strands.deep_view().len() == files.strands@.len());
        match references.failure {
            Some(message) => {
                return Ok(fail_after(references.edits, global, message));
            },
            None => {
                edits = references.edits;
            },
        }
        let references = remove_global_references(&files.relations, id);
        assert(files.relations.deep_view().len() == files.relations@.len());
        match references.failure {
            Some(message) => {
                return Ok(fail_after(edits, references.edits, message));
            },
            None => {
                global = references.edits;
            },
        }
    }
    match remove_anchor(&files.anchors, id) {
        Err(message) => Ok(fail_after(edits, global, message)),
        Ok(edit) => Ok(change_anchors(repo, "Removed anchor", id, edits, global, edit)),
    }
}

/// No changes to files.
fn no_edits<T: DeepView>() -> (r: Vec<Edit<T>>)
    ensures
        r.deep_view() == Seq::<EditView<T::V>>::empty(),
{
    let edits: Vec<Edit<T>> = Vec::new();
    assert(edits.deep_view() =~= Seq::<EditView<T::V>>::empty());
    edits
}

/// What a command on anchors comes to. The index is there where the command looks at it.
pub fn command_anchor(
    repo: &Repository,
    files: &MetadataFiles,
    indexed: Option<&Index>,
    command: &AnchorCommand,
) -> (r: Result<CommandOutcome, String>)
    requires
        anchor_reads_index(*command) ==> indexed is Some,
    ensures
        forall|index: IndexView|
            (indexed is Some ==> index == indexed->0@) ==> outcome(r)
                == #[trigger] anchor_outcome(
                repo.root@,
                repo.metadata_dir@,
                *files,
                index,
                *command,
            ),
{
    match command {
        AnchorCommand::Add(args) => {
            let anchor = match new_anchor(args) {
                Ok(anchor) => anchor,
                Err(message) => {
                    return Err(message);
                },
            };
            let all = load(repo, files);
            match add_anchor(repo, &all, &anchor) {
                Err(message) => Err(message),
                Ok(edit) => Ok(
                    change_anchors(
                        repo,
                        "Added anchor",
                        anchor.id.as_str(),
                        no_edits(),
                        no_edits(),
                        edit,
                    ),
                ),
            }
        },
        AnchorCommand::Change(args) => match update_anchor(
            &files.anchors,
            args.id.as_str(),
            args,
        ) {
            Err(message) => Err(message),
            Ok(edit) => Ok(
                change_anchors(
                    repo,
                    "Updated anchor",
                    args.id.as_str(),
                    no_edits(),
                    no_edits(),
                    edit,
                ),
            ),
        },
        AnchorCommand::Remove(args) => match indexed {
            None => Err(String::new()),
            Some(index) => drop_anchor(repo, files, index, args),
        },
        AnchorCommand::List(args) => match indexed {
            None => Err(String::new()),
            Some(index) => Ok(CommandOutcome::Anchors(list_anchors(index, args))),
        },
        AnchorCommand::Show(args) => match indexed {
            None => Err(String::new()),
            Some(index) => match index.anchors.get(args.id.as_str()) {
                Some(anchor) => Ok(CommandOutcome::Anchor(anchor.value.duplicate())),
                None => {
                    let mut message = "unknown anchor ".to_owned();
                    message.push_str(debug_text(args.id.as_str()).as_str());
                    Err(message)
                },
            },
        },
    }
}

/// What a command on members comes to.
pub open spec fn member_outcome(
    root: Seq<char>,
    files: MetadataFiles,
    index: IndexView,
    command: MemberCommand,
) -> Result<CommandOutcomeView, Seq<char>> {
    match command {
        MemberCommand::Add(args) => if !index.anchors.contains_key(args.anchor@) {
            Err(said_of_unknown_anchor(args.anchor@))
        } else if !index.strands.contains_key(args.strand@) {
            Err(said_of_unknown_strand(args.strand@))
        } else {
            match strand_update(
                files.strands.deep_view(),
                args.strand@,
                StrandEdit::AddMember(&args),
            ) {
                Err(message) => Err(message),
                Ok(edit) => Ok(strand_mutation(root, "Added member"@, args.anchor@, edit)),
            }
        },
        MemberCommand::Remove(args) => match strand_update(
            files.strands.deep_view(),
            args.strand@,
            StrandEdit::RemoveMember(&args),
        ) {
            Err(message) => Err(message),
            Ok(edit) => Ok(strand_mutation(root, "Removed member"@, args.anchor@, edit)),
        },
    }
}

/// What a command on members comes to.
pub fn command_member(
    repo: &Repository,
    files: &MetadataFiles,
    index: &Index,
    command: &MemberCommand,
) -> (r: Result<CommandOutcome, String>)
    ensures
        outcome(r) == member_outcome(repo.root@, *files, index@, *command),
{
    match command {
        MemberCommand::Add(args) => {
            match require_anchor(index, args.anchor.as_str()) {
                Ok(_) => {},
                Err(message) => {
                    return Err(message);
                },
            }
            match require_strand(index, args.strand.as_str()) {
                Ok(_) => {},
                Err(message) => {
                    return Err(message);
                },
            }
            match update_strand(
                &files.strands,
                args.strand.as_str(),
                &StrandEdit::AddMember(args),
            ) {
                Err(message) => Err(message),
                Ok(edit) => Ok(change_strands(repo, "Added member", args.anchor.as_str(), edit)),
            }
        },
        MemberCommand::Remove(args) => match update_strand(
            &files.strands,
            args.strand.as_str(),
            &StrandEdit::RemoveMember(args),
        ) {
            Err(message) => Err(message),
            Ok(edit) => Ok(change_strands(repo, "Removed member", args.anchor.as_str(), edit)),
        },
    }
}

/// What is wrong with a relation that is to be added.
pub open spec fn relation_problem(
    index: IndexView,
    from: Seq<char>,
    to: Seq<char>,
    kind: Seq<char>,
) -> Option<Seq<char>> {
    if !index.anchors.contains_key(from) {
        Some(said_of_unknown_anchor(from))
    } else if !index.anchors.contains_key(to) {
        Some(said_of_unknown_anchor(to))
    } else if is_blank(kind) {
        Some("relationship type cannot be empty"@)
    } else {
        None
    }
}

/// Checks a relation that is to be added.
fn check_relation(index: &Index, from: &str, to: &str, kind: &str) -> (r: Result<(), String>)
    ensures
        match r {
            Ok(_) => relation_problem(index@, from@, to@, kind@) is None,
            Err(message) => relation_problem(index@, from@, to@, kind@) == Some(message@),
        },
{
    match require_anchor(index, from) {
        Ok(_) => {},
        Err(message) => {
            return Err(message);
        },
    }
    match require_anchor(index, to) {
        Ok(_) => {},
        Err(message) => {
            return Err(message);
        },
    }
    if blank(kind) {
        return Err("relationship type cannot be empty".to_owned());
    }
    Ok(())
}

/// What a command on relations comes to.
pub open spec fn relation_outcome(
    root: Seq<char>,
    metadata_dir: Seq<char>,
    files: MetadataFiles,
    index: IndexView,
    command: RelationCommand,
) -> Result<CommandOutcomeView, Seq<char>> {
    match command {
        RelationCommand::Add(args) => if !index.strands.contains_key(args.strand@) {
            Err(said_of_unknown_strand(args.strand@))
        } else {
            match relation_problem(index, args.from@, args.to@, args.kind@) {
                Some(message) => Err(message),
                None => match strand_update(
                    files.strands.deep_view(),
                    args.strand@,
                    StrandEdit::AddRelation(&args),
                ) {
                    Err(message) => Err(message),
                    Ok(edit) => Ok(strand_mutation(root, "Added relation"@, args.kind@, edit)),
                },
            }
        },
        RelationCommand::Remove(args) => match strand_update(
            files.strands.deep_view(),
            args.strand@,
            StrandEdit::RemoveRelation(&args),
        ) {
            Err(message) => Err(message),
            Ok(edit) => Ok(
                strand_mutation(
                    root,
                    "Removed relation"@,
                    match args.kind {
                        Some(kind) => kind@,
                        None => "*"@,
                    },
                    edit,
                ),
            ),
        },
        RelationCommand::AddGlobal(args) => match relation_problem(
            index,
            args.from@,
            args.to@,
            args.kind@,
        ) {
            Some(message) => Err(message),
            None => match relation_file(
                metadata_dir,
                loaded(root, files),
                RelationView {
                    from: args.from@,
                    to: args.to@,
                    kind: args.kind@,
                    bidirectional: args.bidirectional,
                    attributes: no_attributes(),
                },
            ) {
                Err(message) => Err(message),
                Ok(edit) => Ok(
                    relation_mutation(root, "Added global relation"@, args.kind@, edit),
                ),
            },
        },
        RelationCommand::RemoveGlobal(args) => match relation_removal(
            files.relations.deep_view(),
            args.from@,
            args.to@,
            args.kind@,
            0,
        ) {
            Err(message) => Err(message),
            Ok(edit) => Ok(relation_mutation(root, "Removed global relation"@, args.kind@, edit)),
        },
    }
}

/// What a command on relations comes to.
pub fn command_relation(
    repo: &Repository,
    files: &MetadataFiles,
    index: &Index,
    command: &RelationCommand,
) -> (r: Result<CommandOutcome, String>)
    ensures
        outcome(r) == relation_outcome(
            repo.root@,
            repo.metadata_dir@,
            *files,
            index@,
            *command,
        ),
{
    match command {
        RelationCommand::Add(args) => {
            match require_strand(index, args.strand.as_str()) {
                Ok(_) => {},
                Err(message) => {
                    return Err(message);
                },
            }
            match check_relation(
                index,
                args.from.as_str(),
                args.to.as_str(),
                args.kind.as_str(),
            ) {
                Ok(_) => {},
                Err(message) => {
                    return Err(message);
                },
            }
            match update_strand(
                &files.strands,
                args.strand.as_str(),
                &StrandEdit::AddRelation(args),
            ) {
                Err(message) => Err(message),
                Ok(edit) => Ok(change_strands(repo, "Added relation", args.kind.as_str(), edit)),
            }
        },
        RelationCommand::Remove(args) => match update_strand(
            &files.strands,
            args.strand.as_str(),
            &StrandEdit::RemoveRelation(args),
        ) {
            Err(message) => Err(message),
            Ok(edit) => {
                let kind = match &args.kind {
                    Some(kind) => kind.as_str(),
                    None => "*",
                };
                Ok(change_strands(repo, "Removed relation", kind, edit))
            },
        },
        RelationCommand::AddGlobal(args) => {
            match check_relation(
                index,
                args.from.as_str(),
                args.to.as_str(),
                args.kind.as_str(),
            ) {
                Ok(_) => {},
                Err(message) => {
                    return Err(message);
                },
            }
            let relation = Relation {
                from: args.from.clone(),
                to: args.to.clone(),
                kind: args.kind.clone(),
                bidirectional: args.bidirectional,
                attributes: StringMap::new(),
            };
            assert(relation@.attributes =~= no_attributes());
            let all = load(repo, files);
            match add_global_relation(repo, &all, &relation) {
                Err(message) => Err(message),
                Ok(edit) => Ok(
                    change_relations(repo, "Added global relation", args.kind.as_str(), edit),
                ),
            }
        },
        RelationCommand::RemoveGlobal(args) => match remove_global_relation(
            &files.relations,
            args.from.as_str(),
            args.to.as_str(),
            &args.kind,
        ) {
            Err(message) => Err(message),
            Ok(edit) => Ok(
                change_relations(repo, "Removed global relation", args.kind.as_str(), edit),
            ),
        },
    }
}

/// What is printed of a change to the metadata.
pub open spec fn report_text(report: ReportView) -> Seq<char> {
    report.action + " "@ + debug_quoted(report.id) + " ("@ + report.path + ")"@
}

/// What is printed of a change to the metadata.
pub fn text_of_report(report: &Report) -> (r: String)
    ensures
        r@ == report_text(report@),
{
    let mut text = report.action.clone();
    text.push_str(" ");
    text.push_str(debug_text(report.id.as_str()).as_str());
    text.push_str(" (");
    text.push_str(report.path.as_str());
    text.push_str(")");
    text
}

/// What is printed of a strand in a list.
pub open spec fn strand_line(strand: StrandView) -> Seq<char> {
    strand.id + "\t"@ + strand.intent
}

/// What is printed of a strand in a list.
pub fn line_of_strand(strand: &Strand) -> (r: String)
    ensures
        r@ == strand_line(strand@),
{
    let mut text = strand.id.clone();
    text.push_str("\t");
    text.push_str(strand.intent.as_str());
    text
}

/// What is printed of an anchor in a list.
pub open spec fn anchor_list_line(anchor: AnchorView) -> Seq<char> {
    anchor.id + "\t"@ + (match anchor.kind {
        Some(kind) => kind,
        None => "-"@,
    }) + "\t"@ + (match anchor.location {
        Some(location) => location_text(location),
        None => match anchor.target {
            Some(target) => target,
            None => "-"@,
        },
    })
}

/// What is printed of an anchor in a list.
pub fn line_of_anchor(anchor: &Anchor) -> (r: String)
    ensures
        r@ == anchor_list_line(anchor@),
{
    let mut text = anchor.id.clone();
    text.push_str("\t");
    match &anchor.kind {
        Some(kind) => text.push_str(kind.as_str()),
        None => text.push_str("-"),
    }
    text.push_str("\t");
    match &anchor.location {
        Some(location) => text.push_str(display_location(location).as_str()),
        None => match &anchor.target {
            Some(target) => text.push_str(target.as_str()),
            None => text.push_str("-"),
        },
    }
    text
}

/// Whether a query names where it starts, and things that there are: what is wrong otherwise.
pub open spec fn seeds_problem(
    index: IndexView,
    anchors: Set<Seq<char>>,
    strands: Set<Seq<char>>,
) -> Option<Seq<char>> {
    if anchors == Set::<Seq<char>>::empty() && strands == Set::<Seq<char>>::empty() {
        Some("query requires at least one --anchor or --strand"@)
    } else {
        match first_unknown(ordered(anchors), index.anchors.dom(), 0) {
            Some(id) => Some(said_of_unknown_anchor(id)),
            None => match first_unknown(ordered(strands), index.strands.dom(), 0) {
                Some(id) => Some(said_of_unknown_strand(id)),
                None => None,
            },
        }
    }
}

/// The first id, from position `i` on, that is not known.
pub open spec fn first_unknown(ids: Seq<Seq<char>>, known: Set<Seq<char>>, i: int) -> Option<
    Seq<char>,
>
    decreases ids.len() - i,
{
    if i >= ids.len() {
        None
    } else if !known.contains(ids[i]) {
        Some(ids[i])
    } else {
        first_unknown(ids, known, i + 1)
    }
}

/// Checks where a query starts.
pub fn validate_query_seeds(index: &Index, anchors: &StringSet, strands: &StringSet) -> (r: Result<
    (),
    String,
>)
    ensures
        match r {
            Ok(_) => seeds_problem(index@, anchors@, strands@) is None,
            Err(message) => seeds_problem(index@, anchors@, strands@) == Some(message@),
        },
{
    if anchors.is_empty() && strands.is_empty() {
        return Err("query requires at least one --anchor or --strand".to_owned());
    }
    let n: usize = anchors.len();
    let ghost known = index@.anchors.dom();
    let ghost ids = ordered(anchors@);
    let mut i: usize = 0;
    while i < n
        invariant
            i <= n,
            n == ordered(anchors@).len(),
            ids == ordered(anchors@),
            known == index@.anchors.dom(),
            !(anchors@ == Set::<Seq<char>>::empty() && strands@ == Set::<Seq<char>>::empty()),
            first_unknown(ids, known, 0) == first_unknown(ids, known, i as int),
        decreases n - i,
    {
        match require_anchor(index, anchors.item_at(i).as_str()) {
            Ok(_) => {},
            Err(message) => {
                return Err(message);
            },
        }
        i += 1;
    }
    let m: usize = strands.len();
    let ghost known_strands = index@.strands.dom();
    let ghost strand_ids = ordered(strands@);
    let mut k: usize = 0;
    while k < m
        invariant
            k <= m,
            m == ordered(strands@).len(),
            strand_ids == ordered(strands@),
            known_strands == index@.strands.dom(),
            !(anchors@ == Set::<Seq<char>>::empty() && strands@ == Set::<Seq<char>>::empty()),
            first_unknown(ordered(anchors@), index@.anchors.dom(), 0) is None,
            first_unknown(strand_ids, known_strands, 0) == first_unknown(
                strand_ids,
                known_strands,
                k as int,
            ),
        decreases m - k,
    {
        match require_strand(index, strands.item_at(k).as_str()) {
            Ok(_) => {},
            Err(message) => {
                return Err(message);
            },
        }
        k += 1;
    }
    Ok(())
}

/// Whether optional members are asked for, or asked to be left out.
pub open spec fn override_of(wanted: bool, unwanted: bool) -> Option<bool> {
    if wanted {
        Some(true)
    } else if unwanted {
        Some(false)
    } else {
        None
    }
}

/// Whether optional members are asked for, or asked to be left out.
pub fn optional_override(wanted: bool, unwanted: bool) -> (r: Option<bool>)
    ensures
        r == override_of(wanted, unwanted),
{
    if wanted {
        Some(true)
    } else if unwanted {
        Some(false)
    } else {
        None
    }
}

/// The texts of a list as a set.
pub fn set_from(items: &Vec<String>) -> (r: StringSet)
    ensures
        r@ == items.deep_view().to_set(),
{
    let ghost all = items.deep_view();
    let mut set = StringSet::new();
    let mut i: usize = 0;
    while i < items.len()
        invariant
            i <= items@.len(),
            all == items.deep_view(),
            forall|x: Seq<char>| #[trigger] set@.contains(x) ==> all.contains(x),
            forall|k: int| 0 <= k < i ==> set@.contains(#[trigger] all[k]),
        decreases items@.len() - i,
    {
        assert(all[i as int] == items@[i as int]@);
        set.insert(items[i].clone());
        i += 1;
    }
    proof {
        assert forall|x: Seq<char>| all.contains(x) implies #[trigger] set@.contains(x) by {
            let k = all.index_of(x);
            assert(all[k] == x);
        }
        assert(set@ =~= all.to_set());
    }
    set
}

/// How what a change reaches is looked for.
pub open spec fn options_of(args: AffectedArgs) -> AffectedOptionsView {
    AffectedOptionsView {
        depth: args.depth,
        relations: args.relations.deep_view().to_set(),
        tags: args.tags.deep_view().to_set(),
        include_optional: override_of(args.include_optional, args.exclude_optional),
    }
}

/// How what a change reaches is looked for.
pub fn affected_options(args: &AffectedArgs) -> (r: AffectedOptions)
    ensures
        r@ == options_of(*args),
{
    AffectedOptions {
        depth: args.depth,
        relations: set_from(&args.relations),
        tags: set_from(&args.tags),
        include_optional: optional_override(args.include_optional, args.exclude_optional),
    }
}

/// Whether changes are asked for.
pub open spec fn selects_changes(args: ChangeArgs) -> bool {
    args.diff is Some || args.staged || args.worktree || args.untracked || args.no_untracked
        || args.files@.len() > 0
}

/// Whether changes are asked for.
pub fn explicit_change_selection(args: &ChangeArgs) -> (r: bool)
    ensures
        r == selects_changes(*args),
{
    args.diff.is_some() || args.staged || args.worktree || args.untracked || args.no_untracked
        || args.files.len() > 0
}

/// Whether a context is asked for by what it is about.
pub open spec fn discovers(args: ContextArgs) -> bool {
    args.searches@.len() > 0 || args.anchors@.len() > 0 || args.strands@.len() > 0
        || args.symbols@.len() > 0 || args.paths@.len() > 0
}

/// Whether a context is asked for by what it is about.
pub fn has_discovery(args: &ContextArgs) -> (r: bool)
    ensures
        r == discovers(*args),
{
    args.searches.len() > 0 || args.anchors.len() > 0 || args.strands.len() > 0
        || args.symbols.len() > 0 || args.paths.len() > 0
}

/// Reasons with one more for an id; a reason that is given already is not given again.
pub open spec fn with_seed(
    seeds: Map<Seq<char>, Seq<char>>,
    id: Seq<char>,
    reason: Seq<char>,
) -> Map<Seq<char>, Seq<char>> {
    if !seeds.contains_key(id) {
        seeds.insert(id, reason)
    } else if contains(seeds[id], reason) {
        seeds
    } else {
        seeds.insert(id, seeds[id] + "; "@ + reason)
    }
}

/// Adds a reason for an id.
fn insert_seed(seeds: &mut StringMap<String>, id: &str, reason: &str)
    ensures
        final(seeds)@ == with_seed(old(seeds)@, id@, reason@),
{
    let next = match seeds.get(id) {
        None => Some(reason.to_owned()),
        Some(existing) => {
            if contains_text(existing.as_str(), reason) {
                None
            } else {
                let mut text = existing.clone();
                text.push_str("; ");
                text.push_str(reason);
                Some(text)
            }
        },
    };
    match next {
        None => {},
        Some(text) => {
            seeds.insert(id.to_owned(), text);
        },
    }
    assert(seeds@ =~= with_seed(old(seeds)@, id@, reason@));
}

/// What a search found, or why it failed.
#[derive(Debug, Clone)]
pub enum SearchOutcome {
    /// The source.
    Found(Vec<SearchHit>),
    /// Why it failed.
    Failed(String),
}

/// The mathematical content of a [`SearchOutcome`].
#[verifier::ext_equal]
pub ghost enum SearchOutcomeView {
    Found(Seq<SearchHitView>),
    Failed(Seq<char>),
}

impl View for SearchOutcome {
    type V = SearchOutcomeView;

    open spec fn view(&self) -> SearchOutcomeView {
        match self {
            SearchOutcome::Found(hits) => SearchOutcomeView::Found(hits.deep_view()),
            SearchOutcome::Failed(message) => SearchOutcomeView::Failed(message@),
        }
    }
}

impl DeepView for SearchOutcome {
    type V = SearchOutcomeView;

    open spec fn deep_view(&self) -> SearchOutcomeView {
        self@
    }
}

/// Where a context starts, as far as it is known.
#[verifier::ext_equal]
pub ghost struct SeedsView {
    pub anchors: Map<Seq<char>, Seq<char>>,
    pub strands: Map<Seq<char>, Seq<char>>,
    pub search_anchors: Set<Seq<char>>,
    pub matches: Seq<SearchHitView>,
    pub descriptions: Seq<Seq<char>>,
}

/// Where a context starts once the first `n` anchors asked for are looked at.
pub open spec fn with_anchor_seeds(
    index: IndexView,
    ids: Seq<Seq<char>>,
    n: int,
) -> Result<SeedsView, Seq<char>>
    decreases n,
{
    if n <= 0 {
        Ok(
            SeedsView {
                anchors: Map::empty(),
                strands: Map::empty(),
                search_anchors: Set::empty(),
                matches: seq![],
                descriptions: seq![],
            },
        )
    } else {
        match with_anchor_seeds(index, ids, n - 1) {
            Err(message) => Err(message),
            Ok(before) => if !index.anchors.contains_key(ids[n - 1]) {
                Err(said_of_unknown_anchor(ids[n - 1]))
            } else {
                Ok(
                    SeedsView {
                        anchors: with_seed(before.anchors, ids[n - 1], "explicit anchor"@),
                        descriptions: before.descriptions.push("anchor "@ + ids[n - 1]),
                        ..before
                    },
                )
            },
        }
    }
}

/// Where a context starts once the first `n` strands asked for are looked at.
pub open spec fn with_strand_seeds(
    seeds: SeedsView,
    index: IndexView,
    ids: Seq<Seq<char>>,
    n: int,
) -> Result<SeedsView, Seq<char>>
    decreases n,
{
    if n <= 0 {
        Ok(seeds)
    } else {
        match with_strand_seeds(seeds, index, ids, n - 1) {
            Err(message) => Err(message),
            Ok(before) => if !index.strands.contains_key(ids[n - 1]) {
                Err(said_of_unknown_strand(ids[n - 1]))
            } else {
                Ok(
                    SeedsView {
                        strands: with_seed(before.strands, ids[n - 1], "explicit strand"@),
                        descriptions: before.descriptions.push("strand "@ + ids[n - 1]),
                        ..before
                    },
                )
            },
        }
    }
}

/// Whether an anchor is a symbol.
pub open spec fn is_symbol(anchor: AnchorView, symbol: Seq<char>) -> bool {
    anchor.location is Some && anchor.location->0.symbol == Some(symbol)
}

/// The reasons once the first `n` anchors are held against a symbol.
pub open spec fn with_symbol_matches(
    reasons: Map<Seq<char>, Seq<char>>,
    index: IndexView,
    symbol: Seq<char>,
    n: int,
) -> Map<Seq<char>, Seq<char>>
    decreases n,
{
    if n <= 0 {
        reasons
    } else {
        let before = with_symbol_matches(reasons, index, symbol, n - 1);
        let id = ordered(index.anchors.dom())[n - 1];
        if is_symbol(index.anchors[id].value, symbol) {
            with_seed(before, id, "symbol "@ + debug_quoted(symbol) + " matched"@)
        } else {
            before
        }
    }
}

/// Where a context starts once the first `n` symbols asked for are looked at.
pub open spec fn with_symbol_seeds(
    seeds: SeedsView,
    index: IndexView,
    symbols: Seq<Seq<char>>,
    n: int,
) -> SeedsView
    decreases n,
{
    if n <= 0 {
        seeds
    } else {
        let before = with_symbol_seeds(seeds, index, symbols, n - 1);
        SeedsView {
            anchors: with_symbol_matches(
                before.anchors,
                index,
                symbols[n - 1],
                ordered(index.anchors.dom()).len() as int,
            ),
            descriptions: before.descriptions.push("symbol "@ + symbols[n - 1]),
            ..before
        }
    }
}

/// Whether an anchor stands at a path or below it.
pub open spec fn stands_at(anchor: AnchorView, path: Seq<char>) -> bool {
    anchor.location is Some && is_at_or_below(anchor.location->0.path, path)
}

/// The reasons once the first `n` anchors are held against a path.
pub open spec fn with_path_matches(
    reasons: Map<Seq<char>, Seq<char>>,
    index: IndexView,
    path: Seq<char>,
    n: int,
) -> Map<Seq<char>, Seq<char>>
    decreases n,
{
    if n <= 0 {
        reasons
    } else {
        let before = with_path_matches(reasons, index, path, n - 1);
        let id = ordered(index.anchors.dom())[n - 1];
        if stands_at(index.anchors[id].value, path) {
            with_seed(before, id, "path "@ + debug_quoted(path) + " matched"@)
        } else {
            before
        }
    }
}

/// Where a context starts once the first `n` paths asked for are looked at.
pub open spec fn with_path_seeds(
    seeds: SeedsView,
    index: IndexView,
    paths: Seq<Seq<char>>,
    n: int,
) -> Result<SeedsView, Seq<char>>
    decreases n,
{
    if n <= 0 {
        Ok(seeds)
    } else {
        match with_path_seeds(seeds, index, paths, n - 1) {
            Err(message) => Err(message),
            Ok(before) => match location_path(paths[n - 1]) {
                Err(message) => Err(message),
                Ok(path) => Ok(
                    SeedsView {
                        anchors: with_path_matches(
                            before.anchors,
                            index,
                            path,
                            ordered(index.anchors.dom()).len() as int,
                        ),
                        descriptions: before.descriptions.push("path "@ + path),
                        ..before
                    },
                ),
            },
        }
    }
}

/// Where a context starts with the first `n` anchors of a hit; an anchor that has a reason
/// keeps it.
pub open spec fn with_hit_anchors(
    seeds: SeedsView,
    hit: SearchHitView,
    n: int,
) -> SeedsView
    decreases n,
{
    if n <= 0 {
        seeds
    } else {
        let before = with_hit_anchors(seeds, hit, n - 1);
        let id = hit.anchors[n - 1];
        SeedsView {
            anchors: if before.anchors.contains_key(id) {
                before.anchors
            } else {
                before.anchors.insert(id, hit_reason(hit))
            },
            search_anchors: before.search_anchors.insert(id),
            ..before
        }
    }
}

/// Where a context starts with the first `n` hits of a search.
pub open spec fn with_hits(seeds: SeedsView, hits: Seq<SearchHitView>, n: int) -> SeedsView
    decreases n,
{
    if n <= 0 {
        seeds
    } else {
        let hit = hits[n - 1];
        let before = with_hit_anchors(
            with_hits(seeds, hits, n - 1),
            hit,
            hit.anchors.len() as int,
        );
        SeedsView { matches: before.matches.push(hit), ..before }
    }
}

/// What a search is, in words.
pub open spec fn search_description(query: Seq<char>, paths: Seq<Seq<char>>) -> Seq<char> {
    if paths.len() == 0 {
        "search "@ + debug_quoted(query)
    } else {
        "search "@ + debug_quoted(query) + " within "@ + join(paths, ","@)
    }
}

/// Where a context starts with what the first `n` searches found.
pub open spec fn with_searches(
    seeds: SeedsView,
    queries: Seq<Seq<char>>,
    found: Seq<SearchOutcomeView>,
    paths: Seq<Seq<char>>,
    n: int,
) -> Result<SeedsView, Seq<char>>
    decreases n,
{
    if n <= 0 {
        Ok(seeds)
    } else {
        match with_searches(seeds, queries, found, paths, n - 1) {
            Err(message) => Err(message),
            Ok(before) => match found[n - 1] {
                SearchOutcomeView::Failed(message) => Err(message),
                SearchOutcomeView::Found(hits) => Ok(
                    with_hits(
                        SeedsView {
                            descriptions: before.descriptions.push(
                                search_description(queries[n - 1], paths),
                            ),
                            ..before
                        },
                        hits,
                        hits.len() as int,
                    ),
                ),
            },
        }
    }
}

/// The first `n` paths in the form of the repository.
pub open spec fn location_paths(paths: Seq<Seq<char>>, n: int) -> Result<Seq<Seq<char>>, Seq<char>>
    decreases n,
{
    if n <= 0 {
        Ok(seq![])
    } else {
        match location_paths(paths, n - 1) {
            Err(message) => Err(message),
            Ok(before) => match location_path(paths[n - 1]) {
                Err(message) => Err(message),
                Ok(path) => Ok(before.push(path)),
            },
        }
    }
}

/// Where a context starts, given what each search found.
pub open spec fn seeds_of(
    index: IndexView,
    args: ContextArgs,
    found: Seq<SearchOutcomeView>,
) -> Result<ContextSeedsView, Seq<char>> {
    match location_paths(args.search_paths.deep_view(), args.search_paths@.len() as int) {
        Err(message) => Err(message),
        Ok(search_paths) => match with_anchor_seeds(
            index,
            args.anchors.deep_view(),
            args.anchors@.len() as int,
        ) {
            Err(message) => Err(message),
            Ok(anchors) => match with_strand_seeds(
                anchors,
                index,
                args.strands.deep_view(),
                args.strands@.len() as int,
            ) {
                Err(message) => Err(message),
                Ok(strands) => match with_path_seeds(
                    with_symbol_seeds(
                        strands,
                        index,
                        args.symbols.deep_view(),
                        args.symbols@.len() as int,
                    ),
                    index,
                    args.paths.deep_view(),
                    args.paths@.len() as int,
                ) {
                    Err(message) => Err(message),
                    Ok(paths) => match with_searches(
                        paths,
                        args.searches.deep_view(),
                        found,
                        search_paths,
                        args.searches@.len() as int,
                    ) {
                        Err(message) => Err(message),
                        Ok(seeds) => Ok(
                            ContextSeedsView {
                                description: "context from "@ + join(seeds.descriptions, ", "@),
                                anchors: seeds.anchors,
                                strands: seeds.strands,
                                search_anchors: seeds.search_anchors,
                                source_matches: seeds.matches,
                            },
                        ),
                    },
                },
            },
        },
    }
}

/// Where a context starts, as far as it is known.
struct Seeds {
    anchors: StringMap<String>,
    strands: StringMap<String>,
    search_anchors: StringSet,
    matches: Vec<SearchHit>,
    descriptions: Vec<String>,
}

impl Seeds {
    closed spec fn content(&self) -> SeedsView {
        SeedsView {
            anchors: self.anchors@,
            strands: self.strands@,
            search_anchors: self.search_anchors@,
            matches: self.matches.deep_view(),
            descriptions: self.descriptions.deep_view(),
        }
    }
}

/// Paths in the form of the repository.
pub fn normalize_paths(paths: &Vec<String>) -> (r: Result<Vec<String>, String>)
    ensures
        outcome(r) == location_paths(paths.deep_view(), paths@.len() as int),
{
    let ghost all = paths.deep_view();
    let mut out: Vec<String> = Vec::new();
    let mut i: usize = 0;
    assert(out.deep_view() =~= seq![]);
    while i < paths.len()
        invariant
            i <= paths@.len(),
            all == paths.deep_view(),
            location_paths(all, i as int) == Ok::<Seq<Seq<char>>, Seq<char>>(out.deep_view()),
        decreases paths@.len() - i,
    {
        assert(all[i as int] == paths@[i as int]@);
        match normalize_location_path(paths[i].as_str()) {
            Ok(path) => {
                push_item(&mut out, path);
            },
            Err(message) => {
                proof {
                    lemma_location_paths_error(all, i + 1, all.len() as int);
                }
                return Err(message);
            },
        }
        i += 1;
    }
    Ok(out)
}

proof fn lemma_location_paths_error(paths: Seq<Seq<char>>, n: int, m: int)
    requires
        n <= m,
        location_paths(paths, n) is Err,
    ensures
        location_paths(paths, m) == location_paths(paths, n),
    decreases m - n,
{
    if n < m {
        lemma_location_paths_error(paths, n, m - 1);
    }
}

proof fn lemma_anchor_seeds_error(index: IndexView, ids: Seq<Seq<char>>, n: int, m: int)
    requires
        n <= m,
        with_anchor_seeds(index, ids, n) is Err,
    ensures
        with_anchor_seeds(index, ids, m) == with_anchor_seeds(index, ids, n),
    decreases m - n,
{
    if n < m {
        lemma_anchor_seeds_error(index, ids, n, m - 1);
    }
}

proof fn lemma_strand_seeds_error(
    seeds: SeedsView,
    index: IndexView,
    ids: Seq<Seq<char>>,
    n: int,
    m: int,
)
    requires
        n <= m,
        with_strand_seeds(seeds, index, ids, n) is Err,
    ensures
        with_strand_seeds(seeds, index, ids, m) == with_strand_seeds(seeds, index, ids, n),
    decreases m - n,
{
    if n < m {
        lemma_strand_seeds_error(seeds, index, ids, n, m - 1);
    }
}

proof fn lemma_path_seeds_error(
    seeds: SeedsView,
    index: IndexView,
    paths: Seq<Seq<char>>,
    n: int,
    m: int,
)
    requires
        n <= m,
        with_path_seeds(seeds, index, paths, n) is Err,
    ensures
        with_path_seeds(seeds, index, paths, m) == with_path_seeds(seeds, index, paths, n),
    decreases m - n,
{
    if n < m {
        lemma_path_seeds_error(seeds, index, paths, n, m - 1);
    }
}

proof fn lemma_searches_error(
    seeds: SeedsView,
    queries: Seq<Seq<char>>,
    found: Seq<SearchOutcomeView>,
    paths: Seq<Seq<char>>,
    n: int,
    m: int,
)
    requires
        n <= m,
        with_searches(seeds, queries, found, paths, n) is Err,
    ensures
        with_searches(seeds, queries, found, paths, m) == with_searches(
            seeds,
            queries,
            found,
            paths,
            n,
        ),
    decreases m - n,
{
    if n < m {
        lemma_searches_error(seeds, queries, found, paths, n, m - 1);
    }
}

/// Starts from the anchors asked for.
fn seed_anchors(index: &Index, ids: &Vec<String>) -> (r: Result<Seeds, String>)
    ensures
        match (r, with_anchor_seeds(index@, ids.deep_view(), ids@.len() as int)) {
            (Ok(seeds), Ok(wanted)) => seeds.content() == wanted,
            (Err(message), Err(problem)) => message@ == problem,
            _ => false,
        },
{
    let ghost all = ids.deep_view();
    let mut seeds = Seeds {
        anchors: StringMap::new(),
        strands: StringMap::new(),
        search_anchors: StringSet::new(),
        matches: Vec::new(),
        descriptions: Vec::new(),
    };
    let mut i: usize = 0;
    assert(seeds.content() =~= with_anchor_seeds(index@, all, 0)->Ok_0);
    while i < ids.len()
        invariant
            i <= ids@.len(),
            all == ids.deep_view(),
            with_anchor_seeds(index@, all, i as int) == Ok::<SeedsView, Seq<char>>(
                seeds.content(),
            ),
        decreases ids@.len() - i,
    {
        assert(all[i as int] == ids@[i as int]@);
        match require_anchor(index, ids[i].as_str()) {
            Ok(_) => {},
            Err(message) => {
                proof {
                    lemma_anchor_seeds_error(index@, all, i + 1, all.len() as int);
                }
                return Err(message);
            },
        }
        insert_seed(&mut seeds.anchors, ids[i].as_str(), "explicit anchor");
        let mut text = "anchor ".to_owned();
        text.push_str(ids[i].as_str());
        push_item(&mut seeds.descriptions, text);
        assert(seeds.content() =~= with_anchor_seeds(index@, all, i + 1)->Ok_0);
        i += 1;
    }
    Ok(seeds)
}

/// Adds the strands asked for.
fn seed_strands(seeds: &mut Seeds, index: &Index, ids: &Vec<String>) -> (r: Result<(), String>)
    ensures
        match (
            r,
            with_strand_seeds(old(seeds).content(), index@, ids.deep_view(), ids@.len() as int),
        ) {
            (Ok(_), Ok(wanted)) => final(seeds).content() == wanted,
            (Err(message), Err(problem)) => message@ == problem,
            _ => false,
        },
{
    let ghost all = ids.deep_view();
    let ghost start = seeds.content();
    let mut i: usize = 0;
    while i < ids.len()
        invariant
            i <= ids@.len(),
            all == ids.deep_view(),
            start == old(seeds).content(),
            with_strand_seeds(start, index@, all, i as int) == Ok::<SeedsView, Seq<char>>(
                seeds.content(),
            ),
        decreases ids@.len() - i,
    {
        assert(all[i as int] == ids@[i as int]@);
        match require_strand(index, ids[i].as_str()) {
            Ok(_) => {},
            Err(message) => {
                proof {
                    lemma_strand_seeds_error(start, index@, all, i + 1, all.len() as int);
                }
                return Err(message);
            },
        }
        insert_seed(&mut seeds.strands, ids[i].as_str(), "explicit strand");
        let mut text = "strand ".to_owned();
        text.push_str(ids[i].as_str());
        push_item(&mut seeds.descriptions, text);
        assert(seeds.content() =~= with_strand_seeds(start, index@, all, i + 1)->Ok_0);
        i += 1;
    }
    Ok(())
}

/// Whether an anchor is a symbol.
fn has_symbol(anchor: &Anchor, symbol: &str) -> (r: bool)
    ensures
        r == is_symbol(anchor@, symbol@),
{
    match &anchor.location {
        None => false,
        Some(location) => option_is(&location.symbol, symbol),
    }
}

/// Adds the symbols asked for.
fn seed_symbols(seeds: &mut Seeds, index: &Index, symbols: &Vec<String>)
    ensures
        final(seeds).content() == with_symbol_seeds(
            old(seeds).content(),
            index@,
            symbols.deep_view(),
            symbols@.len() as int,
        ),
{
    let ghost all = symbols.deep_view();
    let ghost start = seeds.content();
    let mut i: usize = 0;
    while i < symbols.len()
        invariant
            i <= symbols@.len(),
            all == symbols.deep_view(),
            seeds.content() == with_symbol_seeds(start, index@, all, i as int),
        decreases symbols@.len() - i,
    {
        assert(all[i as int] == symbols@[i as int]@);
        let symbol = symbols[i].as_str();
        let mut text = "symbol ".to_owned();
        text.push_str(symbol);
        push_item(&mut seeds.descriptions, text);
        let mut reason = "symbol ".to_owned();
        reason.push_str(debug_text(symbol).as_str());
        reason.push_str(" matched");
        let ghost before = seeds.content();
        let n: usize = index.anchors.len();
        let mut k: usize = 0;
        while k < n
            invariant
                k <= n,
                n == ordered(index@.anchors.dom()).len(),
                reason@ == "symbol "@ + debug_quoted(symbol@) + " matched"@,
                seeds.content() == (SeedsView {
                    anchors: with_symbol_matches(before.anchors, index@, symbol@, k as int),
                    ..before
                }),
            decreases n - k,
        {
            if has_symbol(&index.anchors.value_at(k).value, symbol) {
                insert_seed(
                    &mut seeds.anchors,
                    index.anchors.key_at(k).as_str(),
                    reason.as_str(),
                );
            }
            assert(seeds.content() =~= (SeedsView {
                anchors: with_symbol_matches(before.anchors, index@, symbol@, k + 1),
                ..before
            }));
            k += 1;
        }
        assert(seeds.content() =~= with_symbol_seeds(start, index@, all, i + 1));
        i += 1;
    }
}

/// Whether an anchor stands at a path or below it.
fn is_placed_at(anchor: &Anchor, path: &str) -> (r: bool)
    ensures
        r == stands_at(anchor@, path@),
{
    match &anchor.location {
        None => false,
        Some(location) => at_or_below(location.path.as_str(), path),
    }
}

/// Adds the paths asked for.
fn seed_paths(seeds: &mut Seeds, index: &Index, paths: &Vec<String>) -> (r: Result<(), String>)
    ensures
        match (
            r,
            with_path_seeds(
                old(seeds).content(),
                index@,
                paths.deep_view(),
                paths@.len() as int,
            ),
        ) {
            (Ok(_), Ok(wanted)) => final(seeds).content() == wanted,
            (Err(message), Err(problem)) => message@ == problem,
            _ => false,
        },
{
    let ghost all = paths.deep_view();
    let ghost start = seeds.content();
    let mut i: usize = 0;
    while i < paths.len()
        invariant
            i <= paths@.len(),
            all == paths.deep_view(),
            start == old(seeds).content(),
            with_path_seeds(start, index@, all, i as int) == Ok::<SeedsView, Seq<char>>(
                seeds.content(),
            ),
        decreases paths@.len() - i,
    {
        assert(all[i as int] == paths@[i as int]@);
        let path = match normalize_location_path(paths[i].as_str()) {
            Ok(path) => path,
            Err(message) => {
                proof {
                    lemma_path_seeds_error(start, index@, all, i + 1, all.len() as int);
                }
                return Err(message);
            },
        };
        let mut text = "path ".to_owned();
        text.push_str(path.as_str());
        push_item(&mut seeds.descriptions, text);
        let mut reason = "path ".to_owned();
        reason.push_str(debug_text(path.as_str()).as_str());
        reason.push_str(" matched");
        let ghost before = seeds.content();
        let n: usize = index.anchors.len();
        let mut k: usize = 0;
        while k < n
            invariant
                k <= n,
                n == ordered(index@.anchors.dom()).len(),
                reason@ == "path "@ + debug_quoted(path@) + " matched"@,
                seeds.content() == (SeedsView {
                    anchors: with_path_matches(before.anchors, index@, path@, k as int),
                    ..before
                }),
            decreases n - k,
        {
            if is_placed_at(&index.anchors.value_at(k).value, path.as_str()) {
                insert_seed(
                    &mut seeds.anchors,
                    index.anchors.key_at(k).as_str(),
                    reason.as_str(),
                );
            }
            assert(seeds.content() =~= (SeedsView {
                anchors: with_path_matches(before.anchors, index@, path@, k + 1),
                ..before
            }));
            k += 1;
        }
        assert(seeds.content() =~= with_path_seeds(start, index@, all, i + 1)->Ok_0);
        i += 1;
    }
    Ok(())
}

/// Adds the hits of a search.
fn seed_hits(seeds: &mut Seeds, hits: &Vec<SearchHit>)
    ensures
        final(seeds).content() == with_hits(
            old(seeds).content(),
            hits.deep_view(),
            hits@.len() as int,
        ),
{
    let ghost all = hits.deep_view();
    let ghost start = seeds.content();
    let mut i: usize = 0;
    while i < hits.len()
        invariant
            i <= hits@.len(),
            all == hits.deep_view(),
            seeds.content() == with_hits(start, all, i as int),
        decreases hits@.len() - i,
    {
        let hit = &hits[i];
        assert(all[i as int] == hit@);
        let reason = hit.reason();
        let ghost before = seeds.content();
        let mut k: usize = 0;
        while k < hit.anchors.len()
            invariant
                k <= hit.anchors@.len(),
                reason@ == hit_reason(hit@),
                seeds.content() == with_hit_anchors(before, hit@, k as int),
            decreases hit.anchors@.len() - k,
        {
            assert(hit@.anchors[k as int] == hit.anchors@[k as int]@);
            if !seeds.anchors.contains_key(hit.anchors[k].as_str()) {
                seeds.anchors.insert(hit.anchors[k].clone(), reason.clone());
            }
            seeds.search_anchors.insert(hit.anchors[k].clone());
            assert(seeds.content() =~= with_hit_anchors(before, hit@, k + 1));
            k += 1;
        }
        push_item(&mut seeds.matches, hit.duplicate());
        assert(seeds.content() =~= with_hits(start, all, i + 1));
        i += 1;
    }
}

/// Adds what searches found.
fn seed_searches(
    seeds: &mut Seeds,
    queries: &Vec<String>,
    found: &Vec<SearchOutcome>,
    paths: &Vec<String>,
) -> (r: Result<(), String>)
    requires
        found@.len() == queries@.len(),
    ensures
        match (
            r,
            with_searches(
                old(seeds).content(),
                queries.deep_view(),
                found.deep_view(),
                paths.deep_view(),
                queries@.len() as int,
            ),
        ) {
            (Ok(_), Ok(wanted)) => final(seeds).content() == wanted,
            (Err(message), Err(problem)) => message@ == problem,
            _ => false,
        },
{
    let ghost all = queries.deep_view();
    let ghost results = found.deep_view();
    let ghost within = paths.deep_view();
    let ghost start = seeds.content();
    assert(paths@.len() == within.len());
    let mut i: usize = 0;
    while i < queries.len()
        invariant
            i <= queries@.len(),
            found@.len() == queries@.len(),
            all == queries.deep_view(),
            results == found.deep_view(),
            within == paths.deep_view(),
            paths@.len() == within.len(),
            start == old(seeds).content(),
            with_searches(start, all, results, within, i as int) == Ok::<SeedsView, Seq<char>>(
                seeds.content(),
            ),
        decreases queries@.len() - i,
    {
        assert(all[i as int] == queries@[i as int]@);
        assert(results[i as int] == found@[i as int]@);
        match &found[i] {
            SearchOutcome::Failed(message) => {
                proof {
                    lemma_searches_error(
                        start,
                        all,
                        results,
                        within,
                        i + 1,
                        all.len() as int,
                    );
                }
                return Err(message.clone());
            },
            SearchOutcome::Found(hits) => {
                let mut text = "search ".to_owned();
                text.push_str(debug_text(queries[i].as_str()).as_str());
                if paths.len() > 0 {
                    text.push_str(" within ");
                    text.push_str(join_texts(paths, ",").as_str());
                }
                let ghost before = seeds.content();
                let ghost said = text@;
                push_item(&mut seeds.descriptions, text);
                assert(seeds.content() =~= (SeedsView {
                    descriptions: before.descriptions.push(said),
                    ..before
                }));
                assert(hits@.len() == hits.deep_view().len());
                seed_hits(seeds, hits);
            },
        }
        i += 1;
    }
    Ok(())
}

/// Where a context starts. `found` holds what each search found.
pub fn context_seeds(index: &Index, args: &ContextArgs, found: &Vec<SearchOutcome>) -> (r: Result<
    ContextSeeds,
    String,
>)
    requires
        found@.len() == args.searches@.len(),
    ensures
        outcome(r) == seeds_of(index@, *args, found.deep_view()),
{
    let search_paths = match normalize_paths(&args.search_paths) {
        Ok(paths) => paths,
        Err(message) => {
            return Err(message);
        },
    };
    let mut seeds = match seed_anchors(index, &args.anchors) {
        Ok(seeds) => seeds,
        Err(message) => {
            return Err(message);
        },
    };
    match seed_strands(&mut seeds, index, &args.strands) {
        Ok(_) => {},
        Err(message) => {
            return Err(message);
        },
    }
    seed_symbols(&mut seeds, index, &args.symbols);
    match seed_paths(&mut seeds, index, &args.paths) {
        Ok(_) => {},
        Err(message) => {
            return Err(message);
        },
    }
    match seed_searches(&mut seeds, &args.searches, found, &search_paths) {
        Ok(_) => {},
        Err(message) => {
            return Err(message);
        },
    }
    let mut description = "context from ".to_owned();
    description.push_str(join_texts(&seeds.descriptions, ", ").as_str());
    Ok(
        ContextSeeds {
            description,
            anchors: seeds.anchors,
            strands: seeds.strands,
            search_anchors: seeds.search_anchors,
            source_matches: seeds.matches,
        },
    )
}

/// Whether a change of the repository is looked at for a context.
pub open spec fn looks_at_changes(args: ContextArgs) -> bool {
    !discovers(args) || selects_changes(args.affected.changes)
}

/// Whether a change of the repository is looked at for a context.
pub fn needs_changes(args: &ContextArgs) -> (r: bool)
    ensures
        r == looks_at_changes(*args),
{
    !has_discovery(args) || explicit_change_selection(&args.affected.changes)
}

/// Whether a strand stands before another in a context: those that are touched directly
/// first, then by id.
pub open spec fn strand_less(a: AffectedStrandView, b: AffectedStrandView) -> bool {
    (a.direct && !b.direct) || (a.direct == b.direct && text_less(a.id, b.id))
}

/// Whether a strand stands before another in a context.
fn strand_before(a: &AffectedStrand, b: &AffectedStrand) -> (r: bool)
    ensures
        r == strand_less(a@, b@),
{
    (a.direct && !b.direct) || (a.direct == b.direct && text_before(a.id.as_str(), b.id.as_str()))
}

/// A strand put behind the last one that does not come after it.
pub open spec fn insert_strand(
    sorted: Seq<AffectedStrandView>,
    x: AffectedStrandView,
) -> Seq<AffectedStrandView>
    decreases sorted.len(),
{
    if sorted.len() == 0 || !strand_less(x, sorted.last()) {
        sorted.push(x)
    } else {
        insert_strand(sorted.drop_last(), x).push(sorted.last())
    }
}

/// Strands in order; those that come neither before nor after each other stay as they were.
pub open spec fn sort_strands(all: Seq<AffectedStrandView>) -> Seq<AffectedStrandView>
    decreases all.len(),
{
    if all.len() == 0 {
        all
    } else {
        insert_strand(sort_strands(all.drop_last()), all.last())
    }
}

proof fn lemma_insert_strand(sorted: Seq<AffectedStrandView>, x: AffectedStrandView, at: int)
    requires
        0 <= at <= sorted.len(),
        forall|k: int| at <= k < sorted.len() ==> strand_less(x, #[trigger] sorted[k]),
        at > 0 ==> !strand_less(x, sorted[at - 1]),
    ensures
        insert_strand(sorted, x) == sorted.insert(at, x),
    decreases sorted.len(),
{
    if at == sorted.len() {
        assert(sorted.insert(at, x) =~= sorted.push(x));
    } else {
        lemma_insert_strand(sorted.drop_last(), x, at);
        assert(sorted.insert(at, x) =~= sorted.drop_last().insert(at, x).push(sorted.last()));
    }
}

/// Strands in order.
fn sorted_strands(all: &Vec<AffectedStrand>) -> (r: Vec<AffectedStrand>)
    ensures
        r.deep_view() == sort_strands(all.deep_view()),
{
    let mut out: Vec<AffectedStrand> = Vec::new();
    let ghost views = all.deep_view();
    let mut i: usize = 0;
    assert(views.take(0) =~= seq![]);
    assert(out.deep_view() =~= sort_strands(views.take(0)));
    while i < all.len()
        invariant
            i <= all@.len(),
            views == all.deep_view(),
            out.deep_view() == sort_strands(views.take(i as int)),
        decreases all@.len() - i,
    {
        let x = all[i].duplicate();
        assert(views[i as int] == x@);
        assert(views.take(i + 1).drop_last() =~= views.take(i as int));
        let ghost before = out.deep_view();
        let mut at: usize = out.len();
        while at > 0
            invariant
                at <= out@.len(),
                before == out.deep_view(),
                forall|k: int| at <= k < before.len() ==> strand_less(x@, #[trigger] before[k]),
            ensures
                at <= out@.len(),
                forall|k: int| at <= k < before.len() ==> strand_less(x@, #[trigger] before[k]),
                at > 0 ==> !strand_less(x@, before[at - 1]),
            decreases at,
        {
            assert(before[at - 1] == out@[at - 1]@);
            if !strand_before(&x, &out[at - 1]) {
                break;
            }
            at -= 1;
        }
        proof {
            lemma_insert_strand(before, x@, at as int);
        }
        let ghost view = x@;
        out.insert(at, x);
        assert(out.deep_view() =~= before.insert(at as int, view));
        i += 1;
    }
    assert(views.take(views.len() as int) =~= views);
    out
}

/// What a change of the repository is, with what the metadata files that it deletes said.
#[derive(Debug, Clone)]
pub struct ReadChanges {
    /// The change.
    pub changes: ChangeSet,
    /// What the deleted files said.
    pub parsed: StringMap<ParsedMetadata>,
}

/// A context with its strands in order.
pub open spec fn in_order(packet: ContextPacketView) -> ContextPacketView {
    ContextPacketView { strands: sort_strands(packet.strands), ..packet }
}

/// Where a task starts.
#[derive(Debug, Clone)]
pub enum Start {
    /// From seeds.
    Seeds(ContextSeeds),
    /// From a change.
    Changes(ReadChanges),
    /// From both.
    Both(ContextSeeds, ReadChanges),
}

/// The context of a task: what its seeds and its change reach.
pub open spec fn gathered(
    index: IndexView,
    config: ConfigView,
    options: AffectedOptionsView,
    start: Start,
) -> ContextPacketView {
    in_order(
        match start {
            Start::Seeds(seeds) => seed_packet(index, seeds@, config, options),
            Start::Changes(read) => affected_packet(
                index,
                read.changes@,
                read.parsed@,
                config,
                options,
            ),
            Start::Both(seeds, read) => merged_context(
                affected_packet(index, read.changes@, read.parsed@, config, options),
                seed_packet(index, seeds@, config, options),
            ),
        },
    )
}

/// The context of a task. Markers must not be empty.
pub fn gather_context(
    index: &Index,
    config: &Config,
    options: &AffectedOptions,
    start: Start,
) -> (r: ContextPacket)
    requires
        markers_are_filled(config@.annotations),
    ensures
        r@ == gathered(index@, config@, options@, start),
{
    let mut packet = match start {
        Start::Seeds(seeds) => context_from_seeds(index, &seeds, config, options),
        Start::Changes(read) => affected(index, read.changes, &read.parsed, config, options),
        Start::Both(seeds, read) => merge_context(
            affected(index, read.changes, &read.parsed, config, options),
            context_from_seeds(index, &seeds, config, options),
        ),
    };
    let ghost before = packet@;
    packet.strands = sorted_strands(&packet.strands);
    assert(packet@ =~= in_order(before));
    packet
}

/// A position as a number, as far as numbers go.
pub open spec fn place_number(n: int) -> usize {
    if n > usize::MAX {
        usize::MAX
    } else {
        n as usize
    }
}

/// Places with one more for an id that has none.
pub open spec fn with_place(places: Map<Seq<char>, usize>, id: Seq<char>, place: usize) -> Map<
    Seq<char>,
    usize,
> {
    if places.contains_key(id) {
        places
    } else {
        places.insert(id, place)
    }
}

/// The places of the first `n` anchors asked for.
pub open spec fn places_of_anchors(ids: Seq<Seq<char>>, n: int) -> Map<Seq<char>, usize>
    decreases n,
{
    if n <= 0 {
        Map::empty()
    } else {
        with_place(places_of_anchors(ids, n - 1), ids[n - 1], place_number(n - 1))
    }
}

/// The places with those of the first `n` anchors that are a symbol.
pub open spec fn places_of_symbol(
    places: Map<Seq<char>, usize>,
    index: IndexView,
    symbol: Seq<char>,
    place: usize,
    n: int,
) -> Map<Seq<char>, usize>
    decreases n,
{
    if n <= 0 {
        places
    } else {
        let before = places_of_symbol(places, index, symbol, place, n - 1);
        let id = ordered(index.anchors.dom())[n - 1];
        if is_symbol(index.anchors[id].value, symbol) {
            with_place(before, id, place)
        } else {
            before
        }
    }
}

/// The places with those of the first `n` symbols asked for, which stand behind `start` others.
pub open spec fn places_of_symbols(
    places: Map<Seq<char>, usize>,
    index: IndexView,
    symbols: Seq<Seq<char>>,
    start: int,
    n: int,
) -> Map<Seq<char>, usize>
    decreases n,
{
    if n <= 0 {
        places
    } else {
        places_of_symbol(
            places_of_symbols(places, index, symbols, start, n - 1),
            index,
            symbols[n - 1],
            place_number(start + n - 1),
            ordered(index.anchors.dom()).len() as int,
        )
    }
}

/// Whether an anchor stands in a file.
pub open spec fn stands_in(anchor: AnchorView, path: Seq<char>) -> bool {
    anchor.location is Some && anchor.location->0.path == path
}

/// The places with those of the first `n` anchors that stand in a file.
pub open spec fn places_of_path(
    places: Map<Seq<char>, usize>,
    index: IndexView,
    path: Seq<char>,
    place: usize,
    n: int,
) -> Map<Seq<char>, usize>
    decreases n,
{
    if n <= 0 {
        places
    } else {
        let before = places_of_path(places, index, path, place, n - 1);
        let id = ordered(index.anchors.dom())[n - 1];
        if stands_in(index.anchors[id].value, path) {
            with_place(before, id, place)
        } else {
            before
        }
    }
}

/// The places with those of the first `n` paths asked for, which stand behind `start` others.
pub open spec fn places_of_paths(
    places: Map<Seq<char>, usize>,
    index: IndexView,
    paths: Seq<Seq<char>>,
    start: int,
    n: int,
) -> Result<Map<Seq<char>, usize>, Seq<char>>
    decreases n,
{
    if n <= 0 {
        Ok(places)
    } else {
        match places_of_paths(places, index, paths, start, n - 1) {
            Err(message) => Err(message),
            Ok(before) => match location_path(paths[n - 1]) {
                Err(message) => Err(message),
                Ok(path) => Ok(
                    places_of_path(
                        before,
                        index,
                        path,
                        place_number(start + n - 1),
                        ordered(index.anchors.dom()).len() as int,
                    ),
                ),
            },
        }
    }
}

/// The anchors asked for by name, by symbol or by file, each with its place among what was
/// asked for.
pub open spec fn focus(index: IndexView, args: ContextArgs) -> Result<
    Map<Seq<char>, usize>,
    Seq<char>,
> {
    places_of_paths(
        places_of_symbols(
            places_of_anchors(args.anchors.deep_view(), args.anchors@.len() as int),
            index,
            args.symbols.deep_view(),
            args.anchors@.len() as int,
            args.symbols@.len() as int,
        ),
        index,
        args.paths.deep_view(),
        args.anchors@.len() as int + args.symbols@.len(),
        args.paths@.len() as int,
    )
}

proof fn lemma_places_of_paths_error(
    places: Map<Seq<char>, usize>,
    index: IndexView,
    paths: Seq<Seq<char>>,
    start: int,
    n: int,
    m: int,
)
    requires
        n <= m,
        places_of_paths(places, index, paths, start, n) is Err,
    ensures
        places_of_paths(places, index, paths, start, m) == places_of_paths(
            places,
            index,
            paths,
            start,
            n,
        ),
    decreases m - n,
{
    if n < m {
        lemma_places_of_paths_error(places, index, paths, start, n, m - 1);
    }
}

/// Adds a place for an id that has none.
fn add_place(places: &mut StringMap<usize>, id: &String, place: usize)
    ensures
        final(places)@ == with_place(old(places)@, id@, place),
{
    if !places.contains_key(id.as_str()) {
        places.insert(id.clone(), place);
    }
    assert(places@ =~= with_place(old(places)@, id@, place));
}

/// The place behind another.
fn next_place(place: usize) -> (r: usize)
    ensures
        r == place_number(place + 1),
{
    if place < usize::MAX {
        place + 1
    } else {
        place
    }
}

/// Whether an anchor stands in a file.
fn is_in_file(anchor: &Anchor, path: &str) -> (r: bool)
    ensures
        r == stands_in(anchor@, path@),
{
    match &anchor.location {
        None => false,
        Some(location) => same_text(location.path.as_str(), path),
    }
}

/// The anchors asked for by name, by symbol or by file, each with its place among what was
/// asked for. A path that leaves the repository is refused.
pub fn focused_anchor_ids(index: &Index, args: &ContextArgs) -> (r: Result<
    StringMap<usize>,
    String,
>)
    ensures
        outcome(r) == focus(index@, *args),
{
    let ghost ids = args.anchors.deep_view();
    let ghost symbols = args.symbols.deep_view();
    let ghost paths = args.paths.deep_view();
    let ghost start = args.anchors@.len() as int;
    let ghost middle = start + args.symbols@.len();
    let mut places: StringMap<usize> = StringMap::new();
    let mut place: usize = 0;
    let mut i: usize = 0;
    assert(places@ =~= Map::<Seq<char>, usize>::empty());
    while i < args.anchors.len()
        invariant
            i <= args.anchors@.len(),
            ids == args.anchors.deep_view(),
            place == place_number(i as int),
            places@ == places_of_anchors(ids, i as int),
        decreases args.anchors@.len() - i,
    {
        assert(ids[i as int] == args.anchors@[i as int]@);
        add_place(&mut places, &args.anchors[i], place);
        place = next_place(place);
        i += 1;
    }
    let n: usize = index.anchors.len();
    let ghost first = places@;
    let mut j: usize = 0;
    while j < args.symbols.len()
        invariant
            j <= args.symbols@.len(),
            n == ordered(index@.anchors.dom()).len(),
            symbols == args.symbols.deep_view(),
            start >= 0,
            place == place_number(start + j),
            places@ == places_of_symbols(first, index@, symbols, start, j as int),
        decreases args.symbols@.len() - j,
    {
        assert(symbols[j as int] == args.symbols@[j as int]@);
        let ghost before = places@;
        let symbol = args.symbols[j].as_str();
        let mut k: usize = 0;
        while k < n
            invariant
                k <= n,
                n == ordered(index@.anchors.dom()).len(),
                places@ == places_of_symbol(before, index@, symbol@, place, k as int),
            decreases n - k,
        {
            if has_symbol(&index.anchors.value_at(k).value, symbol) {
                add_place(&mut places, index.anchors.key_at(k), place);
            }
            k += 1;
        }
        place = next_place(place);
        j += 1;
    }
    let ghost second = places@;
    let mut m: usize = 0;
    while m < args.paths.len()
        invariant
            m <= args.paths@.len(),
            n == ordered(index@.anchors.dom()).len(),
            paths == args.paths.deep_view(),
            middle >= 0,
            place == place_number(middle + m),
            places_of_paths(second, index@, paths, middle, m as int) == Ok::<
                Map<Seq<char>, usize>,
                Seq<char>,
            >(places@),
            focus(index@, *args) == places_of_paths(
                second,
                index@,
                paths,
                middle,
                args.paths@.len() as int,
            ),
        decreases args.paths@.len() - m,
    {
        assert(paths[m as int] == args.paths@[m as int]@);
        let path = match normalize_location_path(args.paths[m].as_str()) {
            Ok(path) => path,
            Err(message) => {
                proof {
                    lemma_places_of_paths_error(
                        second,
                        index@,
                        paths,
                        middle,
                        m + 1,
                        args.paths@.len() as int,
                    );
                }
                return Err(message);
            },
        };
        let ghost before = places@;
        let mut k: usize = 0;
        while k < n
            invariant
                k <= n,
                n == ordered(index@.anchors.dom()).len(),
                places@ == places_of_path(before, index@, path@, place, k as int),
            decreases n - k,
        {
            if is_in_file(&index.anchors.value_at(k).value, path.as_str()) {
                add_place(&mut places, index.anchors.key_at(k), place);
            }
            k += 1;
        }
        place = next_place(place);
        m += 1;
    }
    Ok(places)
}

/// Whether Rust tests belong to a context.
pub open spec fn wants_rust_tests(args: ContextArgs, config: ConfigView) -> bool {
    args.include_tests || config.context.include_rust_tests
}

/// Whether Rust tests belong to a context.
pub fn include_rust_tests(args: &ContextArgs, config: &Config) -> (r: bool)
    ensures
        r == wants_rust_tests(*args, config@),
{
    args.include_tests || config.context.include_rust_tests
}

/// How a context is printed. A budget of zero is none.
pub open spec fn options_to_render(
    args: ContextArgs,
    config: ConfigView,
    focused: Map<Seq<char>, usize>,
    matches: Seq<SearchHitView>,
) -> RenderOptionsView {
    RenderOptionsView {
        source: args.source,
        context_lines: args.context_lines,
        merge_gap: args.merge_gap,
        token_budget: if args.token_budget > 0 {
            Some(args.token_budget)
        } else {
            None
        },
        focused_anchors: focused,
        source_matches: matches,
        include_rust_tests: wants_rust_tests(args, config),
        source_includes: args.source_includes.deep_view(),
        source_excludes: args.source_excludes.deep_view(),
        source_extensions: args.source_extensions.deep_view(),
        excluded_source_extensions: args.excluded_source_extensions.deep_view(),
        source_languages: args.source_languages.deep_view(),
        excluded_source_languages: args.excluded_source_languages.deep_view(),
    }
}

/// How a context is printed.
pub fn render_options(
    args: &ContextArgs,
    config: &Config,
    focused: StringMap<usize>,
    source_matches: Vec<SearchHit>,
) -> (r: RenderOptions)
    ensures
        r@ == options_to_render(*args, config@, focused@, source_matches.deep_view()),
{
    RenderOptions {
        source: args.source,
        context_lines: args.context_lines,
        merge_gap: args.merge_gap,
        token_budget: if args.token_budget > 0 {
            Some(args.token_budget)
        } else {
            None
        },
        focused_anchors: focused,
        source_matches,
        include_rust_tests: include_rust_tests(args, config),
        source_includes: args.source_includes.duplicate(),
        source_excludes: args.source_excludes.duplicate(),
        source_extensions: args.source_extensions.duplicate(),
        excluded_source_extensions: args.excluded_source_extensions.duplicate(),
        source_languages: args.source_languages.duplicate(),
        excluded_source_languages: args.excluded_source_languages.duplicate(),
    }
}

/// The exit status of a context: one where strands were required and neither they nor source
/// was found.
pub fn match_status(require_match: bool, packet: &ContextPacket, source_matches: usize) -> (r: u8)
    ensures
        r == if require_match && packet@.strands.len() == 0 && source_matches == 0 {
            1u8
        } else {
            0u8
        },
{
    assert(packet@.strands.len() == packet.strands@.len());
    if require_match && packet.strands.len() == 0 && source_matches == 0 {
        1
    } else {
        0
    }
}

/// How many of the first `n` diagnostics are of a severity.
pub open spec fn severity_count(diagnostics: Seq<DiagnosticView>, severity: Severity, n: int) -> nat
    decreases n,
{
    if n <= 0 {
        0
    } else if diagnostics[n - 1].severity == severity {
        severity_count(diagnostics, severity, n - 1) + 1
    } else {
        severity_count(diagnostics, severity, n - 1)
    }
}

/// How many diagnostics are of a severity.
pub open spec fn of_severity(diagnostics: Seq<DiagnosticView>, severity: Severity) -> nat {
    severity_count(diagnostics, severity, diagnostics.len() as int)
}

/// How many diagnostics are of a severity.
pub fn count_severity(diagnostics: &Vec<Diagnostic>, severity: Severity) -> (r: usize)
    ensures
        r == of_severity(diagnostics.deep_view(), severity),
{
    let ghost all = diagnostics.deep_view();
    let count: usize = diagnostics.len();
    let mut found: usize = 0;
    let mut i: usize = 0;
    while i < count
        invariant
            i <= count,
            count == diagnostics@.len(),
            found <= i,
            all == diagnostics.deep_view(),
            found == severity_count(all, severity, i as int),
        decreases count - i,
    {
        assert(all[i as int] == diagnostics@[i as int]@);
        if diagnostics[i].severity == severity {
            found += 1;
        }
        i += 1;
    }
    found
}

/// The exit status of a check: one where there are errors, or warnings that count as such.
pub fn check_status(diagnostics: &Vec<Diagnostic>, strict: bool) -> (r: u8)
    ensures
        r == if of_severity(diagnostics.deep_view(), Severity::Error) > 0 || (strict
            && of_severity(diagnostics.deep_view(), Severity::Warning) > 0) {
            1u8
        } else {
            0u8
        },
{
    if count_severity(diagnostics, Severity::Error) > 0 || (strict && count_severity(
        diagnostics,
        Severity::Warning,
    ) > 0) {
        1
    } else {
        0
    }
}

/// The exit status of a migration: one where it was only looked for and there is something to
/// migrate.
pub fn migration_status(check: bool, annotations_migrated: usize) -> (r: u8)
    ensures
        r == if check && annotations_migrated > 0 {
            1u8
        } else {
            0u8
        },
{
    if check && annotations_migrated > 0 {
        1
    } else {
        0
    }
}

/// Whether a command changes files of the repository besides the index.
pub open spec fn changes_files(command: Command) -> bool {
    match command {
        Command::Strand(_) => true,
        Command::Anchor(_) => true,
        Command::Member(_) => true,
        Command::Relation(_) => true,
        Command::Migrate(_) => true,
        Command::Review(command) => !(command is Status || command is List),
        _ => false,
    }
}

/// Whether a command holds the lock of the repository while it runs.
pub fn command_needs_lock(command: &Command) -> (r: bool)
    ensures
        r == changes_files(*command),
{
    match command {
        Command::Strand(_) => true,
        Command::Anchor(_) => true,
        Command::Member(_) => true,
        Command::Relation(_) => true,
        Command::Migrate(_) => true,
        Command::Review(command) => match command {
            ReviewCommand::Status(_) => false,
            ReviewCommand::List => false,
            _ => true,
        },
        _ => false,
    }
}

} // verus!
