//! What the program prints for people.

use vstd::prelude::*;

use crate::collections::ordered;
use crate::commands::{count_severity, of_severity};
use crate::context_output::{anchor_place, name_of_severity, number, place_of_anchor, severity_name};
use crate::graph::{QueryResult, QueryResultView};
use crate::migration::{DynamicLocationMigration, DynamicLocationMigrationView};
use crate::model::{
    AffectedAnchor, AffectedAnchorView, AffectedStrand, AffectedStrandView, ContextPacket,
    ContextPacketView, Diagnostic, DiagnosticView, Index, IndexView, Review, ReviewStatus,
    ReviewView, Severity,
};
use crate::review::{find_missing_dispositions, missing_dispositions};
use crate::text::{decimal, decimal_text, join, join_texts};

verus! {

/// Where something is told of, in front of what is told.
pub open spec fn diagnostic_place(diagnostic: DiagnosticView) -> Seq<char> {
    match diagnostic.path {
        None => seq![],
        Some(path) => match diagnostic.line {
            None => path + ": "@,
            Some(line) => path + ":"@ + decimal(line as nat) + ": "@,
        },
    }
}

/// What is printed of a diagnostic.
pub open spec fn diagnostic_text(diagnostic: DiagnosticView) -> Seq<char> {
    severity_name(diagnostic.severity) + " ["@ + diagnostic.code + "] "@ + diagnostic_place(
        diagnostic,
    ) + diagnostic.message + "\n"@ + (match diagnostic.hint {
        Some(hint) => "  hint: "@ + hint + "\n"@,
        None => seq![],
    })
}

/// What is printed of a diagnostic.
pub fn text_of_diagnostic(diagnostic: &Diagnostic) -> (r: String)
    ensures
        r@ == diagnostic_text(diagnostic@),
{
    let mut place = String::new();
    match &diagnostic.path {
        None => {},
        Some(path) => {
            place = path.clone();
            match diagnostic.line {
                None => {},
                Some(line) => {
                    place.push_str(":");
                    place.push_str(decimal_text(line as u64).as_str());
                },
            }
            place.push_str(": ");
        },
    }
    assert(place@ =~= diagnostic_place(diagnostic@));
    let mut text = name_of_severity(diagnostic.severity).to_owned();
    text.push_str(" [");
    text.push_str(diagnostic.code.as_str());
    text.push_str("] ");
    text.push_str(place.as_str());
    text.push_str(diagnostic.message.as_str());
    text.push_str("\n");
    let ghost before = text@;
    match &diagnostic.hint {
        None => {},
        Some(hint) => {
            let mut line = "  hint: ".to_owned();
            line.push_str(hint.as_str());
            line.push_str("\n");
            text.push_str(line.as_str());
        },
    }
    assert(text@ =~= diagnostic_text(diagnostic@));
    text
}

/// What is printed of the first `n` diagnostics.
pub open spec fn diagnostics_text(diagnostics: Seq<DiagnosticView>, n: int) -> Seq<char>
    decreases n,
{
    if n <= 0 {
        seq![]
    } else {
        diagnostics_text(diagnostics, n - 1) + diagnostic_text(diagnostics[n - 1])
    }
}

/// What is printed of a check.
pub open spec fn check_text(index: IndexView) -> Seq<char> {
    diagnostics_text(index.diagnostics, index.diagnostics.len() as int) + "Checked "@ + decimal(
        ordered(index.strands.dom()).len(),
    ) + " strands and "@ + decimal(ordered(index.anchors.dom()).len()) + " anchors: "@ + decimal(
        of_severity(index.diagnostics, Severity::Error),
    ) + " errors, "@ + decimal(of_severity(index.diagnostics, Severity::Warning)) + " warnings\n"@
}

/// What is printed of a check.
pub fn text_of_check(index: &Index) -> (r: String)
    ensures
        r@ == check_text(index@),
{
    let ghost all = index@.diagnostics;
    let mut text = String::new();
    let mut i: usize = 0;
    assert(text@ =~= seq![]);
    while i < index.diagnostics.len()
        invariant
            i <= index.diagnostics@.len(),
            all == index.diagnostics.deep_view(),
            text@ == diagnostics_text(all, i as int),
        decreases index.diagnostics@.len() - i,
    {
        assert(all[i as int] == index.diagnostics@[i as int]@);
        text.push_str(text_of_diagnostic(&index.diagnostics[i]).as_str());
        i += 1;
    }
    text.push_str("Checked ");
    text.push_str(number(index.strands.len()).as_str());
    text.push_str(" strands and ");
    text.push_str(number(index.anchors.len()).as_str());
    text.push_str(" anchors: ");
    text.push_str(number(count_severity(&index.diagnostics, Severity::Error)).as_str());
    text.push_str(" errors, ");
    text.push_str(number(count_severity(&index.diagnostics, Severity::Warning)).as_str());
    text.push_str(" warnings\n");
    text
}

/// What is printed once the index is up to date.
pub open spec fn index_text(index: IndexView, refreshed: bool) -> Seq<char> {
    (if refreshed {
        "Built"@
    } else {
        "Index is current:"@
    }) + " "@ + decimal(ordered(index.strands.dom()).len()) + " strands, "@ + decimal(
        ordered(index.anchors.dom()).len(),
    ) + " anchors, "@ + decimal(index.memberships.len()) + " memberships, "@ + decimal(
        index.relations.len(),
    ) + " relations ("@ + decimal(of_severity(index.diagnostics, Severity::Error)) + " errors, "@
        + decimal(of_severity(index.diagnostics, Severity::Warning)) + " warnings)\n"@
}

/// What is printed once the index is up to date.
pub fn text_of_index(index: &Index, refreshed: bool) -> (r: String)
    ensures
        r@ == index_text(index@, refreshed),
{
    assert(index@.memberships.len() == index.memberships@.len());
    assert(index@.relations.len() == index.relations@.len());
    let mut text = if refreshed {
        "Built".to_owned()
    } else {
        "Index is current:".to_owned()
    };
    text.push_str(" ");
    text.push_str(number(index.strands.len()).as_str());
    text.push_str(" strands, ");
    text.push_str(number(index.anchors.len()).as_str());
    text.push_str(" anchors, ");
    text.push_str(number(index.memberships.len()).as_str());
    text.push_str(" memberships, ");
    text.push_str(number(index.relations.len()).as_str());
    text.push_str(" relations (");
    text.push_str(number(count_severity(&index.diagnostics, Severity::Error)).as_str());
    text.push_str(" errors, ");
    text.push_str(number(count_severity(&index.diagnostics, Severity::Warning)).as_str());
    text.push_str(" warnings)\n");
    text
}

/// What is printed of a migration.
pub open spec fn migration_text(report: DynamicLocationMigrationView, check: bool) -> Seq<char> {
    (if check {
        "Found"@
    } else {
        "Migrated"@
    }) + " "@ + decimal(report.annotations_migrated as nat) + " static source locations in "@
        + decimal(report.files_changed as nat) + " files ("@ + decimal(
        report.files_scanned as nat,
    ) + " files scanned)\n"@
}

/// What is printed of a migration.
pub fn text_of_migration(report: &DynamicLocationMigration, check: bool) -> (r: String)
    ensures
        r@ == migration_text(report@, check),
{
    let mut text = if check {
        "Found".to_owned()
    } else {
        "Migrated".to_owned()
    };
    text.push_str(" ");
    text.push_str(number(report.annotations_migrated).as_str());
    text.push_str(" static source locations in ");
    text.push_str(number(report.files_changed).as_str());
    text.push_str(" files (");
    text.push_str(number(report.files_scanned).as_str());
    text.push_str(" files scanned)\n");
    text
}

/// What is printed of a member that is reached.
pub open spec fn member_text(anchor: AffectedAnchorView) -> Seq<char> {
    "  "@ + (if anchor.direct {
        "!"@
    } else {
        " "@
    }) + " "@ + (match anchor.role {
        Some(role) => role,
        None => "member"@,
    }) + ": "@ + anchor.id + " ("@ + anchor_place(anchor) + ") — "@ + anchor.reason + "\n"@
}

/// What is printed of a member that is reached.
fn text_of_member(anchor: &AffectedAnchor) -> (r: String)
    ensures
        r@ == member_text(anchor@),
{
    let mut text = "  ".to_owned();
    if anchor.direct {
        text.push_str("!");
    } else {
        text.push_str(" ");
    }
    text.push_str(" ");
    match &anchor.role {
        Some(role) => text.push_str(role.as_str()),
        None => text.push_str("member"),
    }
    text.push_str(": ");
    text.push_str(anchor.id.as_str());
    text.push_str(" (");
    text.push_str(place_of_anchor(anchor).as_str());
    text.push_str(") — ");
    text.push_str(anchor.reason.as_str());
    text.push_str("\n");
    text
}

/// What is printed of the first `n` members that are reached.
pub open spec fn members_text(anchors: Seq<AffectedAnchorView>, n: int) -> Seq<char>
    decreases n,
{
    if n <= 0 {
        seq![]
    } else {
        members_text(anchors, n - 1) + member_text(anchors[n - 1])
    }
}

/// What is printed of a strand that is reached.
pub open spec fn affected_strand_text(strand: AffectedStrandView) -> Seq<char> {
    (if strand.direct {
        "*"@
    } else {
        "-"@
    }) + " "@ + strand.id + " — "@ + strand.intent + "\n"@ + members_text(
        strand.anchors,
        strand.anchors.len() as int,
    )
}

/// What is printed of a strand that is reached.
fn text_of_affected_strand(strand: &AffectedStrand) -> (r: String)
    ensures
        r@ == affected_strand_text(strand@),
{
    let ghost all = strand@.anchors;
    let mut text = if strand.direct {
        "*".to_owned()
    } else {
        "-".to_owned()
    };
    text.push_str(" ");
    text.push_str(strand.id.as_str());
    text.push_str(" — ");
    text.push_str(strand.intent.as_str());
    text.push_str("\n");
    let ghost start = text@;
    let mut i: usize = 0;
    assert(text@ =~= start + members_text(all, 0));
    while i < strand.anchors.len()
        invariant
            i <= strand.anchors@.len(),
            all == strand.anchors.deep_view(),
            text@ == start + members_text(all, i as int),
        decreases strand.anchors@.len() - i,
    {
        assert(all[i as int] == strand.anchors@[i as int]@);
        text.push_str(text_of_member(&strand.anchors[i]).as_str());
        assert(text@ =~= start + members_text(all, i + 1));
        i += 1;
    }
    text
}

/// What is printed of the first `n` strands that are reached.
pub open spec fn affected_strands_text(strands: Seq<AffectedStrandView>, n: int) -> Seq<char>
    decreases n,
{
    if n <= 0 {
        seq![]
    } else {
        affected_strands_text(strands, n - 1) + affected_strand_text(strands[n - 1])
    }
}

/// What is printed of the strands that are reached.
pub open spec fn strands_part(strands: Seq<AffectedStrandView>) -> Seq<char> {
    if strands.len() == 0 {
        "No affected strands.\n"@
    } else {
        "Affected strands: "@ + decimal(strands.len()) + "\n"@ + affected_strands_text(
            strands,
            strands.len() as int,
        )
    }
}

/// What is printed of the strands that are reached.
fn text_of_strands(strands: &Vec<AffectedStrand>) -> (r: String)
    ensures
        r@ == strands_part(strands.deep_view()),
{
    let ghost all = strands.deep_view();
    assert(all.len() == strands@.len());
    if strands.len() == 0 {
        return "No affected strands.\n".to_owned();
    }
    let mut text = "Affected strands: ".to_owned();
    text.push_str(number(strands.len()).as_str());
    text.push_str("\n");
    let ghost start = text@;
    let mut i: usize = 0;
    assert(text@ =~= start + affected_strands_text(all, 0));
    while i < strands.len()
        invariant
            i <= strands@.len(),
            all == strands.deep_view(),
            text@ == start + affected_strands_text(all, i as int),
        decreases strands@.len() - i,
    {
        assert(all[i as int] == strands@[i as int]@);
        text.push_str(text_of_affected_strand(&strands[i]).as_str());
        assert(text@ =~= start + affected_strands_text(all, i + 1));
        i += 1;
    }
    text
}

/// What is printed of an anchor reached outside the strands.
pub open spec fn related_text(anchor: AffectedAnchorView) -> Seq<char> {
    "  "@ + anchor.id + " ("@ + anchor_place(anchor) + ") — "@ + anchor.reason + "\n"@
}

/// What is printed of the first `n` anchors reached outside the strands.
pub open spec fn relateds_text(anchors: Seq<AffectedAnchorView>, n: int) -> Seq<char>
    decreases n,
{
    if n <= 0 {
        seq![]
    } else {
        relateds_text(anchors, n - 1) + related_text(anchors[n - 1])
    }
}

/// What is printed of the anchors reached outside the strands.
pub open spec fn related_part(anchors: Seq<AffectedAnchorView>) -> Seq<char> {
    if anchors.len() == 0 {
        seq![]
    } else {
        "Related anchors: "@ + decimal(anchors.len()) + "\n"@ + relateds_text(
            anchors,
            anchors.len() as int,
        )
    }
}

/// What is printed of the anchors reached outside the strands.
fn text_of_related(anchors: &Vec<AffectedAnchor>) -> (r: String)
    ensures
        r@ == related_part(anchors.deep_view()),
{
    let ghost all = anchors.deep_view();
    assert(all.len() == anchors@.len());
    if anchors.len() == 0 {
        let text = String::new();
        assert(text@ =~= seq![]);
        return text;
    }
    let mut text = "Related anchors: ".to_owned();
    text.push_str(number(anchors.len()).as_str());
    text.push_str("\n");
    let ghost start = text@;
    let mut i: usize = 0;
    assert(text@ =~= start + relateds_text(all, 0));
    while i < anchors.len()
        invariant
            i <= anchors@.len(),
            all == anchors.deep_view(),
            text@ == start + relateds_text(all, i as int),
        decreases anchors@.len() - i,
    {
        assert(all[i as int] == anchors@[i as int]@);
        let anchor = &anchors[i];
        let mut line = "  ".to_owned();
        line.push_str(anchor.id.as_str());
        line.push_str(" (");
        line.push_str(place_of_anchor(anchor).as_str());
        line.push_str(") — ");
        line.push_str(anchor.reason.as_str());
        line.push_str("\n");
        text.push_str(line.as_str());
        assert(text@ =~= start + relateds_text(all, i + 1));
        i += 1;
    }
    text
}

/// What is printed of changed files that no anchor watches.
pub open spec fn unmatched_part(files: Seq<Seq<char>>) -> Seq<char> {
    if files.len() == 0 {
        seq![]
    } else {
        "Unmatched changed files: "@ + join(files, ", "@) + "\n"@
    }
}

/// What is printed of what is the matter with the map.
pub open spec fn diagnostics_part(diagnostics: Seq<DiagnosticView>) -> Seq<char> {
    let errors = of_severity(diagnostics, Severity::Error);
    let warnings = of_severity(diagnostics, Severity::Warning);
    if errors > 0 || warnings > 0 {
        "Index diagnostics: "@ + decimal(errors) + " errors, "@ + decimal(warnings)
            + " warnings (run `strandmap check`)\n"@
    } else {
        seq![]
    }
}

/// What is printed of a context.
pub open spec fn context_text(packet: ContextPacketView) -> Seq<char> {
    "Changes: "@ + packet.changes.description + " ("@ + decimal(packet.changes.files.len())
        + " files)\n"@ + strands_part(packet.strands) + related_part(packet.related_anchors)
        + unmatched_part(packet.unmatched_files) + diagnostics_part(packet.diagnostics)
}

/// What is printed of a context.
pub fn text_of_context(packet: &ContextPacket) -> (r: String)
    ensures
        r@ == context_text(packet@),
{
    assert(packet@.changes.files.len() == packet.changes.files@.len());
    assert(packet@.unmatched_files.len() == packet.unmatched_files@.len());
    let mut text = "Changes: ".to_owned();
    text.push_str(packet.changes.description.as_str());
    text.push_str(" (");
    text.push_str(number(packet.changes.files.len()).as_str());
    text.push_str(" files)\n");
    text.push_str(text_of_strands(&packet.strands).as_str());
    text.push_str(text_of_related(&packet.related_anchors).as_str());
    let mut part = String::new();
    if packet.unmatched_files.len() > 0 {
        part.push_str("Unmatched changed files: ");
        part.push_str(join_texts(&packet.unmatched_files, ", ").as_str());
        part.push_str("\n");
    }
    assert(part@ =~= unmatched_part(packet@.unmatched_files));
    text.push_str(part.as_str());
    let errors: usize = count_severity(&packet.diagnostics, Severity::Error);
    let warnings: usize = count_severity(&packet.diagnostics, Severity::Warning);
    let mut last = String::new();
    if errors > 0 || warnings > 0 {
        last.push_str("Index diagnostics: ");
        last.push_str(number(errors).as_str());
        last.push_str(" errors, ");
        last.push_str(number(warnings).as_str());
        last.push_str(" warnings (run `strandmap check`)\n");
    }
    assert(last@ =~= diagnostics_part(packet@.diagnostics));
    text.push_str(last.as_str());
    text
}

/// The first `n` anchors of a part of the graph, each on a line of its own.
pub open spec fn anchor_lines(result: QueryResultView, n: int) -> Seq<char>
    decreases n,
{
    if n <= 0 {
        seq![]
    } else {
        anchor_lines(result, n - 1) + ("  "@ + result.anchors[n - 1].id + "\n"@)
    }
}

/// The first `n` strands of a part of the graph, each on a line of its own.
pub open spec fn strand_lines(result: QueryResultView, n: int) -> Seq<char>
    decreases n,
{
    if n <= 0 {
        seq![]
    } else {
        strand_lines(result, n - 1) + ("  "@ + result.strands[n - 1].id + "\n"@)
    }
}

/// The first `n` relations of a part of the graph, each on a line of its own.
pub open spec fn relation_lines(result: QueryResultView, n: int) -> Seq<char>
    decreases n,
{
    if n <= 0 {
        seq![]
    } else {
        let relation = result.relations[n - 1].relation;
        relation_lines(result, n - 1) + ("  "@ + relation.from + " -["@ + relation.kind + "]-> "@
            + relation.to + "\n"@)
    }
}

/// What is printed of a part of the graph.
pub open spec fn query_text(result: QueryResultView) -> Seq<char> {
    "Anchors ("@ + decimal(result.anchors.len()) + "):\n"@ + anchor_lines(
        result,
        result.anchors.len() as int,
    ) + ("Strands ("@ + decimal(result.strands.len()) + "):\n"@) + strand_lines(
        result,
        result.strands.len() as int,
    ) + ("Relations ("@ + decimal(result.relations.len()) + "):\n"@) + relation_lines(
        result,
        result.relations.len() as int,
    )
}

/// A heading with a number in it.
fn heading(name: &str, n: usize) -> (r: String)
    ensures
        r@ == name@ + decimal(n as nat) + "):\n"@,
{
    let mut text = name.to_owned();
    text.push_str(number(n).as_str());
    text.push_str("):\n");
    text
}

/// What is printed of a part of the graph.
pub fn text_of_query(result: &QueryResult) -> (r: String)
    ensures
        r@ == query_text(result@),
{
    let ghost view = result@;
    assert(view.anchors.len() == result.anchors@.len());
    assert(view.strands.len() == result.strands@.len());
    assert(view.relations.len() == result.relations@.len());
    let mut text = heading("Anchors (", result.anchors.len());
    let ghost start = text@;
    let mut i: usize = 0;
    assert(text@ =~= start + anchor_lines(view, 0));
    while i < result.anchors.len()
        invariant
            i <= result.anchors@.len(),
            view == result@,
            text@ == start + anchor_lines(view, i as int),
        decreases result.anchors@.len() - i,
    {
        assert(view.anchors[i as int] == result.anchors@[i as int]@);
        let mut line = "  ".to_owned();
        line.push_str(result.anchors[i].id.as_str());
        line.push_str("\n");
        text.push_str(line.as_str());
        assert(text@ =~= start + anchor_lines(view, i + 1));
        i += 1;
    }
    text.push_str(heading("Strands (", result.strands.len()).as_str());
    let ghost second = text@;
    let mut j: usize = 0;
    assert(text@ =~= second + strand_lines(view, 0));
    while j < result.strands.len()
        invariant
            j <= result.strands@.len(),
            view == result@,
            text@ == second + strand_lines(view, j as int),
        decreases result.strands@.len() - j,
    {
        assert(view.strands[j as int] == result.strands@[j as int]@);
        let mut line = "  ".to_owned();
        line.push_str(result.strands[j].id.as_str());
        line.push_str("\n");
        text.push_str(line.as_str());
        assert(text@ =~= second + strand_lines(view, j + 1));
        j += 1;
    }
    text.push_str(heading("Relations (", result.relations.len()).as_str());
    let ghost third = text@;
    let mut k: usize = 0;
    assert(text@ =~= third + relation_lines(view, 0));
    while k < result.relations.len()
        invariant
            k <= result.relations@.len(),
            view == result@,
            text@ == third + relation_lines(view, k as int),
        decreases result.relations@.len() - k,
    {
        assert(view.relations[k as int] == result.relations@[k as int]@);
        let relation = &result.relations[k].relation;
        let mut line = "  ".to_owned();
        line.push_str(relation.from.as_str());
        line.push_str(" -[");
        line.push_str(relation.kind.as_str());
        line.push_str("]-> ");
        line.push_str(relation.to.as_str());
        line.push_str("\n");
        text.push_str(line.as_str());
        assert(text@ =~= third + relation_lines(view, k + 1));
        k += 1;
    }
    text
}

/// The name of where a review stands.
pub open spec fn status_name(status: ReviewStatus) -> Seq<char> {
    match status {
        ReviewStatus::Open => "Open"@,
        ReviewStatus::Complete => "Complete"@,
    }
}

/// The name of where a review stands.
fn name_of_status(status: ReviewStatus) -> (r: &'static str)
    ensures
        r@ == status_name(status),
{
    match status {
        ReviewStatus::Open => "Open",
        ReviewStatus::Complete => "Complete",
    }
}

/// What is printed of an anchor of a review.
pub open spec fn disposition_text(review: ReviewView, anchor: Seq<char>) -> Seq<char> {
    if review.dispositions.contains_key(anchor) {
        "  "@ + anchor + ": "@ + review.dispositions[anchor].disposition + "\n"@
    } else if review.required_anchors.contains(anchor) {
        "  "@ + anchor + ": pending (required)\n"@
    } else {
        "  "@ + anchor + ": pending (optional)\n"@
    }
}

/// What is printed of the first `n` anchors of a review.
pub open spec fn dispositions_text(review: ReviewView, n: int) -> Seq<char>
    decreases n,
{
    if n <= 0 {
        seq![]
    } else {
        dispositions_text(review, n - 1) + disposition_text(review, ordered(review.anchors)[n - 1])
    }
}

/// What is printed of a review.
pub open spec fn review_text(review: ReviewView) -> Seq<char> {
    "Review "@ + review.id + ": "@ + status_name(review.status) + ", "@ + decimal(
        ordered(review.dispositions.dom()).len(),
    ) + " recorded, "@ + decimal(ordered(review.required_anchors).len()) + " required, "@ + decimal(
        missing_dispositions(review).len(),
    ) + " missing\n"@ + dispositions_text(review, ordered(review.anchors).len() as int)
}

/// What is printed of a review.
pub fn text_of_review(review: &Review) -> (r: String)
    ensures
        r@ == review_text(review@),
{
    let missing = find_missing_dispositions(review);
    assert(missing.deep_view().len() == missing@.len());
    let mut text = "Review ".to_owned();
    text.push_str(review.id.as_str());
    text.push_str(": ");
    text.push_str(name_of_status(review.status));
    text.push_str(", ");
    text.push_str(number(review.dispositions.len()).as_str());
    text.push_str(" recorded, ");
    text.push_str(number(review.required_anchors.len()).as_str());
    text.push_str(" required, ");
    text.push_str(number(missing.len()).as_str());
    text.push_str(" missing\n");
    let ghost start = text@;
    let n: usize = review.anchors.len();
    let mut i: usize = 0;
    assert(text@ =~= start + dispositions_text(review@, 0));
    while i < n
        invariant
            i <= n,
            n == ordered(review@.anchors).len(),
            text@ == start + dispositions_text(review@, i as int),
        decreases n - i,
    {
        let anchor = review.anchors.item_at(i);
        let mut line = "  ".to_owned();
        line.push_str(anchor.as_str());
        match review.dispositions.get(anchor.as_str()) {
            Some(disposition) => {
                line.push_str(": ");
                line.push_str(disposition.disposition.as_str());
                line.push_str("\n");
            },
            None => {
                if review.required_anchors.contains(anchor.as_str()) {
                    line.push_str(": pending (required)\n");
                } else {
                    line.push_str(": pending (optional)\n");
                }
            },
        }
        text.push_str(line.as_str());
        assert(text@ =~= start + dispositions_text(review@, i + 1));
        i += 1;
    }
    text
}

/// What is printed of a review that was opened.
pub open spec fn started_text(review: ReviewView, path: Seq<char>) -> Seq<char> {
    "Started review "@ + review.id + " with "@ + decimal(ordered(review.required_anchors).len())
        + " required dispositions ("@ + path + ")\n"@
}

/// What is printed of a review that was opened. The path is that of its file in the
/// repository.
pub fn text_of_start(review: &Review, path: &str) -> (r: String)
    ensures
        r@ == started_text(review@, path@),
{
    let mut text = "Started review ".to_owned();
    text.push_str(review.id.as_str());
    text.push_str(" with ");
    text.push_str(number(review.required_anchors.len()).as_str());
    text.push_str(" required dispositions (");
    text.push_str(path);
    text.push_str(")\n");
    text
}

/// What is printed of a review in a list.
pub open spec fn review_line(review: ReviewView) -> Seq<char> {
    review.id + "\t"@ + status_name(review.status) + "\t"@ + decimal(
        ordered(review.dispositions.dom()).len(),
    ) + "/"@ + decimal(ordered(review.required_anchors).len()) + "\t"@ + review.change_description
        + "\n"@
}

/// What is printed of a review in a list.
pub fn line_of_review(review: &Review) -> (r: String)
    ensures
        r@ == review_line(review@),
{
    let mut text = review.id.clone();
    text.push_str("\t");
    text.push_str(name_of_status(review.status));
    text.push_str("\t");
    text.push_str(number(review.dispositions.len()).as_str());
    text.push_str("/");
    text.push_str(number(review.required_anchors.len()).as_str());
    text.push_str("\t");
    text.push_str(review.change_description.as_str());
    text.push_str("\n");
    text
}

} // verus!
