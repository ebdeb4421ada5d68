//! The index: what annotations and metadata files say together.

use vstd::prelude::*;

use crate::annotations::{markers_are_filled, scan_of, scan_source, without_here};
use crate::collections::{ordered, StringMap, StringSet};
use crate::config::{no_attributes, Config, ConfigView, ScanConfigView};
use crate::digest::{blake3_bytes, blake3_hex, hash_bytes, raw_hash};
use crate::globs::{compile_globs, compile_problem, one_matches, set_globs, set_matches};
use crate::metadata::{LoadedMetadata, LoadedMetadataView, MetadataItem, MetadataItemView};
use crate::model::{
    Anchor, AnchorView, Attributes, Diagnostic, DiagnosticView, FileRecord, FileRecordView, Index,
    IndexView, Indexed, IndexedMember, IndexedMemberView, IndexedRelation, IndexedRelationView,
    IndexedView, LineRange, LineRangeView, Location, LocationView, Provenance, ProvenanceView,
    RelationView, Severity, SourceDocument, SourceDocumentView, Strand, StrandView, Timestamp,
    ValueView, WatchMode,
};
use crate::paths::{join_path, joined, sort_paths, sorted_paths};
use crate::repo::{relative_path, Repository};
use crate::search::{bloom_of, source_bloom};
use crate::source_span::{rust_test_ranges, test_spans, Span};
use crate::text::{
    blank, chars_are, chars_of, contains, contains_space, contains_text, copy_option, debug_quoted,
    debug_text, decimal, decimal_text, has_prefix, has_space, index_from, index_of, is_blank,
    parse_u32, replace, replaced, same_option, same_text, slice_of, split, split_on, starts_with,
    string_of, substring, text_before, text_less, text_of_bytes, u32_of,
};
use crate::views::{push_item, Duplicate};

verus! {

broadcast use crate::views::lemma_chars_deep_view;

/// Where an item of a metadata file comes from.
pub open spec fn sidecar_source(root: Seq<char>, path: Seq<char>, line: Option<u32>) -> ProvenanceView {
    ProvenanceView { source: "sidecar"@, path: Some(relative_path(root, path)), line }
}

/// Where an item of a metadata file comes from.
fn sidecar_provenance(repo: &Repository, path: &str, line: Option<u32>) -> (r: Provenance)
    ensures
        r@ == sidecar_source(repo.root@, path@, line),
{
    Provenance { source: "sidecar".to_owned(), path: Some(repo.relative(path)), line }
}

/// What is said of something, at the place that it comes from.
pub open spec fn said_at(
    severity: Severity,
    code: Seq<char>,
    message: Seq<char>,
    provenance: ProvenanceView,
) -> DiagnosticView {
    DiagnosticView {
        severity,
        code,
        message,
        path: provenance.path,
        line: provenance.line,
        hint: None,
    }
}

/// What is said of something, at the place that it comes from.
fn at(severity: Severity, code: &str, message: String, provenance: &Provenance) -> (r: Diagnostic)
    ensures
        r@ == said_at(severity, code@, message@, provenance@),
{
    Diagnostic {
        severity,
        code: code.to_owned(),
        message,
        path: copy_option(&provenance.path),
        line: provenance.line,
        hint: None,
    }
}

/// What is said of an id that was defined before.
pub open spec fn said_of_duplicate(
    code: Seq<char>,
    id: Seq<char>,
    current: ProvenanceView,
    earlier: ProvenanceView,
) -> DiagnosticView {
    DiagnosticView {
        hint: Some(
            "Use one definition per id; sidecar anchors may be located by a matching source annotation"@,
        ),
        ..said_at(
            Severity::Error,
            code,
            "duplicate id "@ + debug_quoted(id) + "; first defined at "@ + match earlier.path {
                Some(path) => path,
                None => earlier.source,
            },
            current,
        )
    }
}

/// What is said of an id that was defined before.
fn duplicate(code: &str, id: &str, current: &Provenance, earlier: &Provenance) -> (r: Diagnostic)
    ensures
        r@ == said_of_duplicate(code@, id@, current@, earlier@),
{
    let mut message = "duplicate id ".to_owned();
    message.push_str(debug_text(id).as_str());
    message.push_str("; first defined at ");
    match &earlier.path {
        Some(path) => message.push_str(path.as_str()),
        None => message.push_str(earlier.source.as_str()),
    }
    let mut diagnostic = at(Severity::Error, code, message, current);
    diagnostic.hint = Some(
        "Use one definition per id; sidecar anchors may be located by a matching source annotation".to_owned(),
    );
    diagnostic
}

/// One thing that is said, where it is to be said.
pub open spec fn said_if(condition: bool, diagnostic: DiagnosticView) -> Seq<DiagnosticView> {
    if condition {
        seq![diagnostic]
    } else {
        seq![]
    }
}

/// A message that names an id in quotes.
pub open spec fn naming(before: Seq<char>, id: Seq<char>, after: Seq<char>) -> Seq<char> {
    before + debug_quoted(id) + after
}

/// A message that names an id in quotes.
fn name_in(before: &str, id: &str, after: &str) -> (r: String)
    ensures
        r@ == naming(before@, id@, after@),
{
    let mut message = before.to_owned();
    message.push_str(debug_text(id).as_str());
    message.push_str(after);
    message
}

/// What is wrong with a strand of a metadata file.
pub open spec fn strand_problems(strand: StrandView, provenance: ProvenanceView) -> Seq<
    DiagnosticView,
> {
    said_if(
        strand.schema != 1,
        said_at(
            Severity::Error,
            "strand-schema"@,
            naming("strand "@, strand.id, " uses unsupported schema "@) + decimal(
                strand.schema as nat,
            ),
            provenance,
        ),
    ) + said_if(
        is_blank(strand.id) || has_space(strand.id),
        said_at(
            Severity::Error,
            "strand-id"@,
            "strand id cannot be empty or contain whitespace"@,
            provenance,
        ),
    ) + said_if(
        is_blank(strand.intent),
        said_at(
            Severity::Warning,
            "strand-intent"@,
            naming("strand "@, strand.id, " has no intent"@),
            provenance,
        ),
    )
}

/// Adds what is wrong with a strand of a metadata file.
fn validate_strand(strand: &Strand, provenance: &Provenance, diagnostics: &mut Vec<Diagnostic>)
    ensures
        final(diagnostics).deep_view() == old(diagnostics).deep_view() + strand_problems(
            strand@,
            provenance@,
        ),
{
    if strand.schema != 1 {
        let mut message = name_in("strand ", strand.id.as_str(), " uses unsupported schema ");
        message.push_str(decimal_text(strand.schema as u64).as_str());
        push_item(diagnostics, at(Severity::Error, "strand-schema", message, provenance));
    }
    if blank(strand.id.as_str()) || contains_space(strand.id.as_str()) {
        push_item(
            diagnostics,
            at(
                Severity::Error,
                "strand-id",
                "strand id cannot be empty or contain whitespace".to_owned(),
                provenance,
            ),
        );
    }
    if blank(strand.intent.as_str()) {
        push_item(
            diagnostics,
            at(
                Severity::Warning,
                "strand-intent",
                name_in("strand ", strand.id.as_str(), " has no intent"),
                provenance,
            ),
        );
    }
    assert(diagnostics.deep_view() =~= old(diagnostics).deep_view() + strand_problems(
        strand@,
        provenance@,
    ));
}

/// What is said of an attribute that is not kept any more.
pub open spec fn removed_attribute(
    attributes: Map<Seq<char>, ValueView>,
    name: Seq<char>,
    kind: Seq<char>,
    id: Seq<char>,
    provenance: ProvenanceView,
) -> Seq<DiagnosticView> {
    said_if(
        attributes.contains_key(name),
        said_at(
            Severity::Error,
            "removed-metadata-field"@,
            kind + " "@ + debug_quoted(id) + " uses unsupported "@ + name + " metadata"@,
            provenance,
        ),
    )
}

/// Adds what is said of an attribute that is not kept any more.
fn reject_removed_attribute(
    attributes: &Attributes,
    name: &str,
    kind: &str,
    id: &str,
    provenance: &Provenance,
    diagnostics: &mut Vec<Diagnostic>,
)
    ensures
        final(diagnostics).deep_view() == old(diagnostics).deep_view() + removed_attribute(
            attributes@,
            name@,
            kind@,
            id@,
            provenance@,
        ),
{
    if attributes.contains_key(name) {
        let mut message = kind.to_owned();
        message.push_str(" ");
        message.push_str(debug_text(id).as_str());
        message.push_str(" uses unsupported ");
        message.push_str(name);
        message.push_str(" metadata");
        push_item(diagnostics, at(Severity::Error, "removed-metadata-field", message, provenance));
    }
    assert(diagnostics.deep_view() =~= old(diagnostics).deep_view() + removed_attribute(
        attributes@,
        name@,
        kind@,
        id@,
        provenance@,
    ));
}

/// Whether a path leads out of the repository, or nowhere.
pub open spec fn leaves_repository(path: Seq<char>) -> bool {
    is_blank(path) || starts_with(path, seq!['/']) || split(path, '/').contains(".."@)
}

/// Whether a path leads out of the repository, or nowhere.
fn leads_outside(path: &str) -> (r: bool)
    ensures
        r == leaves_repository(path@),
{
    if blank(path) {
        return true;
    }
    let chars = chars_of(path);
    if chars.len() > 0 && chars[0] == '/' {
        assert(path@.subrange(0, 1) =~= seq!['/']);
        return true;
    }
    proof {
        if starts_with(path@, seq!['/']) {
            assert(path@.subrange(0, 1)[0] == '/');
        }
    }
    let parts = split_on(&chars, '/');
    let ghost all = parts.deep_view();
    let mut i: usize = 0;
    while i < parts.len()
        invariant
            i <= parts@.len(),
            all == parts.deep_view(),
            all == split(path@, '/'),
            forall|k: int| 0 <= k < i ==> #[trigger] all[k] != ".."@,
        decreases parts@.len() - i,
    {
        assert(all[i as int] == parts@[i as int]@);
        if chars_are(&parts[i], "..") {
            return true;
        }
        i += 1;
    }
    assert(!all.contains(".."@));
    false
}

/// Whether the lines of a location make no range.
pub open spec fn lines_are_wrong(location: LocationView) -> bool {
    location.line_start == Some(0u32) || location.line_end == Some(0u32) || (
    location.line_start is Some && location.line_end is Some && location.line_end->0
        < location.line_start->0)
}

/// Whether the lines of a location make no range.
fn has_wrong_lines(location: &Location) -> (r: bool)
    ensures
        r == lines_are_wrong(location@),
{
    match location.line_start {
        None => match location.line_end {
            None => false,
            Some(end) => end == 0,
        },
        Some(start) => start == 0 || match location.line_end {
            None => false,
            Some(end) => end == 0 || end < start,
        },
    }
}

/// What is wrong with the location of an anchor.
pub open spec fn location_problems(
    id: Seq<char>,
    location: LocationView,
    provenance: ProvenanceView,
) -> Seq<DiagnosticView> {
    said_if(
        location.watch == Some(WatchMode::Node) && provenance.source != "annotation"@,
        said_at(
            Severity::Error,
            "anchor-node-location"@,
            naming("anchor "@, id, " uses node watch outside a source annotation"@),
            provenance,
        ),
    ) + said_if(
        leaves_repository(location.path),
        said_at(
            Severity::Error,
            "anchor-path"@,
            naming("anchor "@, id, " has a non-repository-relative path"@),
            provenance,
        ),
    ) + said_if(
        lines_are_wrong(location),
        said_at(
            Severity::Error,
            "anchor-range"@,
            naming("anchor "@, id, " has an invalid line range"@),
            provenance,
        ),
    )
}

/// What is wrong with an anchor of a metadata file.
pub open spec fn anchor_problems(anchor: AnchorView, provenance: ProvenanceView) -> Seq<
    DiagnosticView,
> {
    said_if(
        anchor.schema != 1,
        said_at(
            Severity::Error,
            "anchor-schema"@,
            naming("anchor "@, anchor.id, " uses unsupported schema "@) + decimal(
                anchor.schema as nat,
            ),
            provenance,
        ),
    ) + said_if(
        is_blank(anchor.id) || has_space(anchor.id),
        said_at(
            Severity::Error,
            "anchor-id"@,
            "anchor id cannot be empty or contain whitespace"@,
            provenance,
        ),
    ) + removed_attribute(anchor.attributes, "description"@, "anchor"@, anchor.id, provenance)
        + said_if(
        anchor.target is None && anchor.location is None,
        said_at(
            Severity::Warning,
            "anchor-unlocated"@,
            naming("anchor "@, anchor.id, " has neither target nor location"@),
            provenance,
        ),
    ) + match anchor.location {
        Some(location) => location_problems(anchor.id, location, provenance),
        None => seq![],
    }
}

/// Adds what is wrong with the location of an anchor.
fn check_location(
    id: &str,
    location: &Location,
    provenance: &Provenance,
    diagnostics: &mut Vec<Diagnostic>,
)
    ensures
        final(diagnostics).deep_view() == old(diagnostics).deep_view() + location_problems(
            id@,
            location@,
            provenance@,
        ),
{
    if location.watch == Some(WatchMode::Node) && !same_text(
        provenance.source.as_str(),
        "annotation",
    ) {
        push_item(
            diagnostics,
            at(
                Severity::Error,
                "anchor-node-location",
                name_in("anchor ", id, " uses node watch outside a source annotation"),
                provenance,
            ),
        );
    }
    if leads_outside(location.path.as_str()) {
        push_item(
            diagnostics,
            at(
                Severity::Error,
                "anchor-path",
                name_in("anchor ", id, " has a non-repository-relative path"),
                provenance,
            ),
        );
    }
    if has_wrong_lines(location) {
        push_item(
            diagnostics,
            at(
                Severity::Error,
                "anchor-range",
                name_in("anchor ", id, " has an invalid line range"),
                provenance,
            ),
        );
    }
    assert(diagnostics.deep_view() =~= old(diagnostics).deep_view() + location_problems(
        id@,
        location@,
        provenance@,
    ));
}

/// Adds what is wrong with an anchor of a metadata file.
fn validate_anchor(anchor: &Anchor, provenance: &Provenance, diagnostics: &mut Vec<Diagnostic>)
    ensures
        final(diagnostics).deep_view() == old(diagnostics).deep_view() + anchor_problems(
            anchor@,
            provenance@,
        ),
{
    let id = anchor.id.as_str();
    if anchor.schema != 1 {
        let mut message = name_in("anchor ", id, " uses unsupported schema ");
        message.push_str(decimal_text(anchor.schema as u64).as_str());
        push_item(diagnostics, at(Severity::Error, "anchor-schema", message, provenance));
    }
    if blank(id) || contains_space(id) {
        push_item(
            diagnostics,
            at(
                Severity::Error,
                "anchor-id",
                "anchor id cannot be empty or contain whitespace".to_owned(),
                provenance,
            ),
        );
    }
    reject_removed_attribute(
        &anchor.attributes,
        "description",
        "anchor",
        id,
        provenance,
        diagnostics,
    );
    if anchor.target.is_none() && anchor.location.is_none() {
        push_item(
            diagnostics,
            at(
                Severity::Warning,
                "anchor-unlocated",
                name_in("anchor ", id, " has neither target nor location"),
                provenance,
            ),
        );
    }
    match &anchor.location {
        Some(location) => {
            check_location(id, location, provenance, diagnostics);
        },
        None => {},
    }
    assert(diagnostics.deep_view() =~= old(diagnostics).deep_view() + anchor_problems(
        anchor@,
        provenance@,
    ));
}

/// An anchor of a metadata file that a source annotation locates: what the annotation says of
/// the place comes first, and what the file says of the rest.
pub open spec fn merged_anchor(sidecar: AnchorView, source: AnchorView) -> AnchorView {
    AnchorView {
        location: if source.location is Some {
            source.location
        } else {
            sidecar.location
        },
        target: if sidecar.target is None {
            source.target
        } else {
            sidecar.target
        },
        kind: if sidecar.kind is None {
            source.kind
        } else {
            sidecar.kind
        },
        tags: sidecar.tags.union(source.tags),
        ..sidecar
    }
}

/// An anchor of a metadata file that a source annotation locates.
fn merge_source_anchor(sidecar: &Anchor, source: &Anchor) -> (r: Anchor)
    ensures
        r@ == merged_anchor(sidecar@, source@),
{
    let mut merged = sidecar.duplicate();
    if source.location.is_some() {
        merged.location = source.location.duplicate();
    }
    if sidecar.target.is_none() {
        merged.target = copy_option(&source.target);
    }
    if sidecar.kind.is_none() {
        merged.kind = copy_option(&source.kind);
    }
    let mut tags = sidecar.tags.duplicate();
    tags.extend(&source.tags);
    merged.tags = tags;
    merged
}

/// A path with `/` between its parts, and no `./` in front.
pub open spec fn repository_path(path: Seq<char>) -> Seq<char> {
    without_here(replace(path, '\\', "/"@))
}

/// A path with `/` between its parts, and no `./` in front.
pub fn normalize_repository_path(path: &str) -> (r: String)
    ensures
        r@ == repository_path(path@),
{
    let chars = chars_of(path);
    let rest = replaced(&chars, '\\', "/");
    let mut start: usize = 0;
    assert(rest@.skip(0) =~= rest@);
    while rest.len() - start >= 2 && rest[start] == '.' && rest[start + 1] == '/'
        invariant
            start <= rest@.len(),
            without_here(rest@) == without_here(rest@.skip(start as int)),
        decreases rest@.len() - start,
    {
        assert(rest@.skip(start as int).skip(2) =~= rest@.skip(start + 2));
        start += 2;
    }
    assert(rest@.skip(start as int) =~= rest@.subrange(start as int, rest@.len() as int));
    substring(&rest, start, rest.len())
}

/// An anchor whose location has its path in the form of the repository.
pub open spec fn with_repository_path(anchor: AnchorView) -> AnchorView {
    match anchor.location {
        None => anchor,
        Some(location) => AnchorView {
            location: Some(LocationView { path: repository_path(location.path), ..location }),
            ..anchor
        },
    }
}

/// An anchor whose location has its path in the form of the repository.
fn in_repository(anchor: &Anchor) -> (r: Anchor)
    ensures
        r@ == with_repository_path(anchor@),
{
    let mut moved = anchor.duplicate();
    match &anchor.location {
        None => {},
        Some(location) => {
            let mut place = location.duplicate();
            place.path = normalize_repository_path(location.path.as_str());
            moved.location = Some(place);
        },
    }
    moved
}

/// A text without the letters `L` in front.
pub open spec fn without_letters(s: Seq<char>) -> Seq<char>
    decreases s.len(),
{
    if s.len() > 0 && s[0] == 'L' {
        without_letters(s.subrange(1, s.len() as int))
    } else {
        s
    }
}

/// The lines that the end of a target names: `L10`, or `L10-L20`.
pub open spec fn target_lines(fragment: Seq<char>) -> Option<(u32, u32)> {
    if fragment.len() == 0 || fragment[0] != 'L' {
        None
    } else {
        let range = fragment.subrange(1, fragment.len() as int);
        let dash = index_from(range, '-', 0);
        let (start, end) = if dash < range.len() {
            (range.take(dash), range.subrange(dash + 1, range.len() as int))
        } else {
            (range, range)
        };
        match (parse_u32(start), parse_u32(without_letters(end))) {
            (Some(start), Some(end)) => Some((start, end)),
            _ => None,
        }
    }
}

/// A target without `file://` in front.
pub open spec fn plain_target(target: Seq<char>) -> Seq<char> {
    if starts_with(target, "file://"@) {
        target.subrange("file://"@.len() as int, target.len() as int)
    } else {
        target
    }
}

/// The place in a file that a target names.
pub open spec fn file_target(target: Seq<char>) -> Option<LocationView> {
    let plain = plain_target(target);
    let hash = index_from(plain, '#', 0);
    let path = if hash < plain.len() {
        plain.take(hash)
    } else {
        plain
    };
    let lines = if hash < plain.len() {
        target_lines(plain.subrange(hash + 1, plain.len() as int))
    } else {
        None
    };
    if contains(plain, "://"@) || path.len() == 0 {
        None
    } else {
        Some(
            LocationView {
                path: repository_path(path),
                line_start: match lines {
                    Some((start, _)) => Some(start),
                    None => None,
                },
                line_end: match lines {
                    Some((_, end)) => Some(end),
                    None => None,
                },
                symbol: None,
                language: None,
                fingerprint: None,
                watch: Some(
                    if lines is Some {
                        WatchMode::Range
                    } else {
                        WatchMode::File
                    },
                ),
            },
        )
    }
}

/// The lines that the end of a target names.
fn lines_of_target(fragment: &Vec<char>) -> (r: Option<(u32, u32)>)
    ensures
        r == target_lines(fragment@),
{
    if fragment.len() == 0 || fragment[0] != 'L' {
        return None;
    }
    let range = slice_of(fragment, 1, fragment.len());
    let dash: usize = index_of(&range, '-', 0);
    let start = if dash < range.len() {
        let start = slice_of(&range, 0, dash);
        assert(start@ =~= range@.take(dash as int));
        start
    } else {
        slice_of(&range, 0, range.len())
    };
    let mut end = if dash < range.len() {
        slice_of(&range, dash + 1, range.len())
    } else {
        slice_of(&range, 0, range.len())
    };
    assert(range@.subrange(0, range@.len() as int) =~= range@);
    let ghost written = end@;
    while end.len() > 0 && end[0] == 'L'
        invariant
            without_letters(end@) == without_letters(written),
        decreases end@.len(),
    {
        let next = slice_of(&end, 1, end.len());
        end = next;
    }
    match u32_of(&start) {
        None => None,
        Some(first) => match u32_of(&end) {
            None => None,
            Some(last) => Some((first, last)),
        },
    }
}

/// The place in a file that a target names.
pub fn parse_file_target(target: &str) -> (r: Option<Location>)
    ensures
        r.deep_view() == file_target(target@),
{
    let chars = chars_of(target);
    proof {
        reveal_strlit("file://");
    }
    let plain = if has_prefix(&chars, "file://") {
        slice_of(&chars, 7, chars.len())
    } else {
        let whole = slice_of(&chars, 0, chars.len());
        assert(whole@ =~= target@);
        whole
    };
    let text = string_of(&plain);
    if contains_text(text.as_str(), "://") {
        return None;
    }
    let hash: usize = index_of(&plain, '#', 0);
    let path = if hash < plain.len() {
        let path = slice_of(&plain, 0, hash);
        assert(path@ =~= plain@.take(hash as int));
        path
    } else {
        let path = slice_of(&plain, 0, plain.len());
        assert(path@ =~= plain@);
        path
    };
    if path.len() == 0 {
        return None;
    }
    let lines = if hash < plain.len() {
        let fragment = slice_of(&plain, hash + 1, plain.len());
        lines_of_target(&fragment)
    } else {
        None
    };
    let path = string_of(&path);
    let place = normalize_repository_path(path.as_str());
    Some(
        match lines {
            Some((start, end)) => Location {
                path: place,
                line_start: Some(start),
                line_end: Some(end),
                symbol: None,
                language: None,
                fingerprint: None,
                watch: Some(WatchMode::Range),
            },
            None => Location {
                path: place,
                line_start: None,
                line_end: None,
                symbol: None,
                language: None,
                fingerprint: None,
                watch: Some(WatchMode::File),
            },
        },
    )
}

/// An anchor with the place that its target names, where it has no other.
pub open spec fn with_target_place(anchor: AnchorView) -> AnchorView {
    if anchor.location is None && anchor.target is Some && file_target(anchor.target->0) is Some {
        AnchorView { location: file_target(anchor.target->0), ..anchor }
    } else {
        anchor
    }
}

/// An anchor with the place that its target names, where it has no other.
fn place_by_target(anchor: &Anchor) -> (r: Anchor)
    ensures
        r@ == with_target_place(anchor@),
{
    let mut placed = anchor.duplicate();
    if anchor.location.is_none() {
        match &anchor.target {
            None => {},
            Some(target) => {
                let location = parse_file_target(target.as_str());
                if location.is_some() {
                    placed.location = location;
                }
            },
        }
    }
    placed
}

/// Anchors with the places that their targets name, where they have no others.
pub open spec fn all_placed(anchors: Map<Seq<char>, IndexedView<AnchorView>>) -> Map<
    Seq<char>,
    IndexedView<AnchorView>,
> {
    anchors.map_values(
        |indexed: IndexedView<AnchorView>|
            IndexedView { value: with_target_place(indexed.value), ..indexed },
    )
}

/// Anchors with the places that their targets name, where they have no others.
fn materialize_targets(anchors: &StringMap<Indexed<Anchor>>) -> (r: StringMap<Indexed<Anchor>>)
    ensures
        r@ == all_placed(anchors@),
{
    let n: usize = anchors.len();
    let mut out: StringMap<Indexed<Anchor>> = StringMap::new();
    let ghost keys = ordered(anchors@.dom());
    let mut i: usize = 0;
    while i < n
        invariant
            i <= n,
            n == ordered(anchors@.dom()).len(),
            keys == ordered(anchors@.dom()),
            forall|k: int| 0 <= k < i ==> out@.contains_key(#[trigger] keys[k]),
            forall|key: Seq<char>| #[trigger]
                out@.contains_key(key) ==> anchors@.contains_key(key) && out@[key]
                    == all_placed(anchors@)[key],
        decreases n - i,
    {
        let value = anchors.value_at(i);
        let placed = Indexed {
            value: place_by_target(&value.value),
            provenance: value.provenance.duplicate(),
        };
        out.insert(anchors.key_at(i).clone(), placed);
        i += 1;
    }
    proof {
        assert forall|key: Seq<char>| anchors@.contains_key(key) implies #[trigger]
            out@.contains_key(key) by {
            assert(keys.to_set().contains(key));
            let k = keys.index_of(key);
            assert(keys[k] == key);
        }
        assert(out@ =~= all_placed(anchors@));
    }
    out
}

/// A strand that only memberships speak of.
pub open spec fn implicit_strand(id: Seq<char>) -> StrandView {
    StrandView {
        schema: 1,
        id,
        title: None,
        intent: seq![],
        scope: None,
        tags: Set::empty(),
        members: seq![],
        relations: seq![],
        on_change: None,
        attributes: no_attributes(),
    }
}

/// A strand that only memberships speak of.
fn make_implicit_strand(id: &String) -> (r: Strand)
    ensures
        r@ == implicit_strand(id@),
{
    let strand = Strand {
        schema: 1,
        id: id.clone(),
        title: None,
        intent: String::new(),
        scope: None,
        tags: StringSet::new(),
        members: Vec::new(),
        relations: Vec::new(),
        on_change: None,
        attributes: StringMap::new(),
    };
    assert(strand@.intent =~= seq![]);
    assert(strand@.members =~= seq![]);
    assert(strand@.relations =~= seq![]);
    assert(strand@.attributes =~= no_attributes());
    strand
}

/// What is said of a strand that only memberships speak of.
pub open spec fn said_of_implicit(id: Seq<char>, provenance: ProvenanceView) -> DiagnosticView {
    said_at(
        Severity::Warning,
        "implicit-strand"@,
        naming("strand "@, id, " is declared only by membership annotations"@),
        provenance,
    )
}

/// What is said of a strand that only memberships speak of.
fn warn_of_implicit(id: &str, provenance: &Provenance) -> (r: Diagnostic)
    ensures
        r@ == said_of_implicit(id@, provenance@),
{
    at(
        Severity::Warning,
        "implicit-strand",
        name_in("strand ", id, " is declared only by membership annotations"),
        provenance,
    )
}

/// Whether an id can be read as a target.
pub open spec fn is_target(id: Seq<char>) -> bool {
    contains(id, "://"@) || contains(id, "#L"@) || contains(id, "/"@)
}

/// Whether an id can be read as a target.
pub fn looks_like_target(value: &str) -> (r: bool)
    ensures
        r == is_target(value@),
{
    contains_text(value, "://") || contains_text(value, "#L") || contains_text(value, "/")
}

/// An anchor that is known by its target alone.
pub open spec fn target_anchor(id: Seq<char>) -> AnchorView {
    AnchorView {
        schema: 1,
        id,
        target: Some(id),
        kind: None,
        location: file_target(id),
        tags: Set::empty(),
        attributes: no_attributes(),
    }
}

/// An anchor that is known by its target alone.
fn make_target_anchor(id: &str) -> (r: Anchor)
    ensures
        r@ == target_anchor(id@),
{
    let anchor = Anchor {
        schema: 1,
        id: id.to_owned(),
        target: Some(id.to_owned()),
        kind: None,
        location: parse_file_target(id),
        tags: StringSet::new(),
        attributes: StringMap::new(),
    };
    assert(anchor@.attributes =~= no_attributes());
    anchor
}

/// What annotations and metadata files say together.
#[derive(Debug)]
pub struct Graph {
    /// The strands, by id.
    pub strands: StringMap<Indexed<Strand>>,
    /// The anchors, by id.
    pub anchors: StringMap<Indexed<Anchor>>,
    /// The memberships.
    pub memberships: Vec<IndexedMember>,
    /// The relations.
    pub relations: Vec<IndexedRelation>,
    /// What is wrong.
    pub diagnostics: Vec<Diagnostic>,
}

/// The mathematical content of a [`Graph`].
#[verifier::ext_equal]
pub ghost struct GraphView {
    pub strands: Map<Seq<char>, IndexedView<StrandView>>,
    pub anchors: Map<Seq<char>, IndexedView<AnchorView>>,
    pub memberships: Seq<IndexedMemberView>,
    pub relations: Seq<IndexedRelationView>,
    pub diagnostics: Seq<DiagnosticView>,
}

impl View for Graph {
    type V = GraphView;

    open spec fn view(&self) -> GraphView {
        GraphView {
            strands: self.strands.deep_view(),
            anchors: self.anchors.deep_view(),
            memberships: self.memberships.deep_view(),
            relations: self.relations.deep_view(),
            diagnostics: self.diagnostics.deep_view(),
        }
    }
}

impl DeepView for Graph {
    type V = GraphView;

    open spec fn deep_view(&self) -> GraphView {
        self@
    }
}

impl Duplicate for Graph {
    fn duplicate(&self) -> (r: Self) {
        Graph {
            strands: self.strands.duplicate(),
            anchors: self.anchors.duplicate(),
            memberships: self.memberships.duplicate(),
            relations: self.relations.duplicate(),
            diagnostics: self.diagnostics.duplicate(),
        }
    }
}

/// What strands, anchors and relations have to be said to be wrong in the first `n`
/// memberships.
pub open spec fn member_problems(
    strands: Set<Seq<char>>,
    anchors: Set<Seq<char>>,
    memberships: Seq<IndexedMemberView>,
    n: int,
) -> Seq<DiagnosticView>
    decreases n,
{
    if n <= 0 {
        seq![]
    } else {
        let m = memberships[n - 1];
        member_problems(strands, anchors, memberships, n - 1) + removed_attribute(
            m.member.attributes,
            "rationale"@,
            "member"@,
            m.member.anchor,
            m.provenance,
        ) + removed_attribute(
            m.member.attributes,
            "reason"@,
            "member"@,
            m.member.anchor,
            m.provenance,
        ) + said_if(
            !anchors.contains(m.member.anchor),
            said_at(
                Severity::Error,
                "unresolved-anchor"@,
                naming("unknown anchor "@, m.member.anchor, ""@),
                m.provenance,
            ),
        ) + said_if(
            m.strand is Some && !strands.contains(m.strand->0),
            said_at(
                Severity::Error,
                "unresolved-strand"@,
                naming("unknown strand "@, m.strand->0, ""@),
                m.provenance,
            ),
        )
    }
}

/// What is said of an end of a relation that is no anchor.
pub open spec fn end_problem(
    anchors: Set<Seq<char>>,
    anchor: Seq<char>,
    provenance: ProvenanceView,
) -> Seq<DiagnosticView> {
    said_if(
        !anchors.contains(anchor),
        said_at(
            Severity::Error,
            "unresolved-relation-anchor"@,
            naming("relationship references unknown anchor "@, anchor, ""@),
            provenance,
        ),
    )
}

/// What is wrong with the first `n` relations.
pub open spec fn relation_problems(
    anchors: Set<Seq<char>>,
    relations: Seq<IndexedRelationView>,
    n: int,
) -> Seq<DiagnosticView>
    decreases n,
{
    if n <= 0 {
        seq![]
    } else {
        let r = relations[n - 1];
        relation_problems(anchors, relations, n - 1) + removed_attribute(
            r.relation.attributes,
            "rationale"@,
            "relation"@,
            r.relation.kind,
            r.provenance,
        ) + removed_attribute(
            r.relation.attributes,
            "reason"@,
            "relation"@,
            r.relation.kind,
            r.provenance,
        ) + end_problem(anchors, r.relation.from, r.provenance) + end_problem(
            anchors,
            r.relation.to,
            r.provenance,
        ) + said_if(
            is_blank(r.relation.kind),
            said_at(
                Severity::Error,
                "relation-kind"@,
                "relationship type cannot be empty"@,
                r.provenance,
            ),
        )
    }
}

/// What is wrong with the edges of a graph.
pub open spec fn graph_problems(
    strands: Set<Seq<char>>,
    anchors: Set<Seq<char>>,
    memberships: Seq<IndexedMemberView>,
    relations: Seq<IndexedRelationView>,
) -> Seq<DiagnosticView> {
    member_problems(strands, anchors, memberships, memberships.len() as int) + relation_problems(
        anchors,
        relations,
        relations.len() as int,
    )
}

/// Adds what is said of an end of a relation that is no anchor.
fn check_end(
    anchors: &StringMap<Indexed<Anchor>>,
    anchor: &str,
    provenance: &Provenance,
    diagnostics: &mut Vec<Diagnostic>,
)
    ensures
        final(diagnostics).deep_view() == old(diagnostics).deep_view() + end_problem(
            anchors@.dom(),
            anchor@,
            provenance@,
        ),
{
    if !anchors.contains_key(anchor) {
        push_item(
            diagnostics,
            at(
                Severity::Error,
                "unresolved-relation-anchor",
                name_in("relationship references unknown anchor ", anchor, ""),
                provenance,
            ),
        );
    }
    assert(diagnostics.deep_view() =~= old(diagnostics).deep_view() + end_problem(
        anchors@.dom(),
        anchor@,
        provenance@,
    ));
}

/// Adds what is wrong with a membership.
fn check_member(
    strands: &StringMap<Indexed<Strand>>,
    anchors: &StringMap<Indexed<Anchor>>,
    membership: &IndexedMember,
    diagnostics: &mut Vec<Diagnostic>,
)
    ensures
        final(diagnostics).deep_view() == old(diagnostics).deep_view() + member_problems(
            strands@.dom(),
            anchors@.dom(),
            seq![membership@],
            1,
        ),
{
    let member = &membership.member;
    let provenance = &membership.provenance;
    let id = member.anchor.as_str();
    reject_removed_attribute(
        &member.attributes,
        "rationale",
        "member",
        id,
        provenance,
        diagnostics,
    );
    reject_removed_attribute(&member.attributes, "reason", "member", id, provenance, diagnostics);
    if !anchors.contains_key(id) {
        push_item(
            diagnostics,
            at(
                Severity::Error,
                "unresolved-anchor",
                name_in("unknown anchor ", id, ""),
                provenance,
            ),
        );
    }
    match &membership.strand {
        None => {},
        Some(strand) => {
            if !strands.contains_key(strand.as_str()) {
                push_item(
                    diagnostics,
                    at(
                        Severity::Error,
                        "unresolved-strand",
                        name_in("unknown strand ", strand.as_str(), ""),
                        provenance,
                    ),
                );
            }
        },
    }
    proof {
        reveal_with_fuel(member_problems, 2);
        assert(diagnostics.deep_view() =~= old(diagnostics).deep_view() + member_problems(
            strands@.dom(),
            anchors@.dom(),
            seq![membership@],
            1,
        ));
    }
}

/// Adds what is wrong with a relation.
fn check_relation(
    anchors: &StringMap<Indexed<Anchor>>,
    indexed: &IndexedRelation,
    diagnostics: &mut Vec<Diagnostic>,
)
    ensures
        final(diagnostics).deep_view() == old(diagnostics).deep_view() + relation_problems(
            anchors@.dom(),
            seq![indexed@],
            1,
        ),
{
    let relation = &indexed.relation;
    let provenance = &indexed.provenance;
    let kind = relation.kind.as_str();
    reject_removed_attribute(
        &relation.attributes,
        "rationale",
        "relation",
        kind,
        provenance,
        diagnostics,
    );
    reject_removed_attribute(
        &relation.attributes,
        "reason",
        "relation",
        kind,
        provenance,
        diagnostics,
    );
    check_end(anchors, relation.from.as_str(), provenance, diagnostics);
    check_end(anchors, relation.to.as_str(), provenance, diagnostics);
    if blank(kind) {
        push_item(
            diagnostics,
            at(
                Severity::Error,
                "relation-kind",
                "relationship type cannot be empty".to_owned(),
                provenance,
            ),
        );
    }
    proof {
        reveal_with_fuel(relation_problems, 2);
        assert(diagnostics.deep_view() =~= old(diagnostics).deep_view() + relation_problems(
            anchors@.dom(),
            seq![indexed@],
            1,
        ));
    }
}

/// What is wrong with one more membership comes last.
proof fn lemma_member_problems(
    strands: Set<Seq<char>>,
    anchors: Set<Seq<char>>,
    memberships: Seq<IndexedMemberView>,
    n: int,
)
    requires
        0 < n <= memberships.len(),
    ensures
        member_problems(strands, anchors, memberships, n) == member_problems(
            strands,
            anchors,
            memberships,
            n - 1,
        ) + member_problems(strands, anchors, seq![memberships[n - 1]], 1),
{
    reveal_with_fuel(member_problems, 2);
    assert(member_problems(strands, anchors, memberships, n) =~= member_problems(
        strands,
        anchors,
        memberships,
        n - 1,
    ) + member_problems(strands, anchors, seq![memberships[n - 1]], 1));
}

/// What is wrong with one more relation comes last.
proof fn lemma_relation_problems(
    anchors: Set<Seq<char>>,
    relations: Seq<IndexedRelationView>,
    n: int,
)
    requires
        0 < n <= relations.len(),
    ensures
        relation_problems(anchors, relations, n) == relation_problems(anchors, relations, n - 1)
            + relation_problems(anchors, seq![relations[n - 1]], 1),
{
    reveal_with_fuel(relation_problems, 2);
    assert(relation_problems(anchors, relations, n) =~= relation_problems(
        anchors,
        relations,
        n - 1,
    ) + relation_problems(anchors, seq![relations[n - 1]], 1));
}

/// Adds what is wrong with the edges of a graph.
fn validate_graph(
    strands: &StringMap<Indexed<Strand>>,
    anchors: &StringMap<Indexed<Anchor>>,
    memberships: &Vec<IndexedMember>,
    relations: &Vec<IndexedRelation>,
    diagnostics: &mut Vec<Diagnostic>,
)
    ensures
        final(diagnostics).deep_view() == old(diagnostics).deep_view() + graph_problems(
            strands@.dom(),
            anchors@.dom(),
            memberships.deep_view(),
            relations.deep_view(),
        ),
{
    let ghost start = diagnostics.deep_view();
    let ghost ms = memberships.deep_view();
    let ghost rs = relations.deep_view();
    let ghost known = strands@.dom();
    let ghost ids = anchors@.dom();
    let mut i: usize = 0;
    assert(start + member_problems(known, ids, ms, 0) =~= start);
    while i < memberships.len()
        invariant
            i <= memberships@.len(),
            ms == memberships.deep_view(),
            known == strands@.dom(),
            ids == anchors@.dom(),
            diagnostics.deep_view() == start + member_problems(known, ids, ms, i as int),
        decreases memberships@.len() - i,
    {
        assert(ms[i as int] == memberships@[i as int]@);
        check_member(strands, anchors, &memberships[i], diagnostics);
        proof {
            lemma_member_problems(known, ids, ms, i + 1);
        }
        assert(diagnostics.deep_view() =~= start + member_problems(known, ids, ms, i + 1));
        i += 1;
    }
    let ghost middle = diagnostics.deep_view();
    let mut k: usize = 0;
    assert(middle + relation_problems(ids, rs, 0) =~= middle);
    while k < relations.len()
        invariant
            k <= relations@.len(),
            rs == relations.deep_view(),
            ids == anchors@.dom(),
            diagnostics.deep_view() == middle + relation_problems(ids, rs, k as int),
        decreases relations@.len() - k,
    {
        assert(rs[k as int] == relations@[k as int]@);
        check_relation(anchors, &relations[k], diagnostics);
        proof {
            lemma_relation_problems(ids, rs, k + 1);
        }
        assert(diagnostics.deep_view() =~= middle + relation_problems(ids, rs, k + 1));
        k += 1;
    }
    assert(diagnostics.deep_view() =~= start + graph_problems(known, ids, ms, rs));
}

/// Whether two memberships are the same: of one anchor in one strand with one role.
pub open spec fn same_membership(a: IndexedMemberView, b: IndexedMemberView) -> bool {
    a.strand == b.strand && a.member.anchor == b.member.anchor && a.member.role == b.member.role
}

/// Whether a membership is among some memberships.
pub open spec fn has_membership(kept: Seq<IndexedMemberView>, m: IndexedMemberView) -> bool {
    exists|i: int| 0 <= i < kept.len() && same_membership(#[trigger] kept[i], m)
}

/// The first `n` memberships, each once.
pub open spec fn first_memberships(memberships: Seq<IndexedMemberView>, n: int) -> Seq<
    IndexedMemberView,
>
    decreases n,
{
    if n <= 0 {
        seq![]
    } else {
        let before = first_memberships(memberships, n - 1);
        if has_membership(before, memberships[n - 1]) {
            before
        } else {
            before.push(memberships[n - 1])
        }
    }
}

/// Whether two relations are the same: of one kind between the same anchors in one strand.
pub open spec fn same_relation(a: IndexedRelationView, b: IndexedRelationView) -> bool {
    a.strand == b.strand && a.relation.from == b.relation.from && a.relation.to == b.relation.to
        && a.relation.kind == b.relation.kind
}

/// Whether a relation is among some relations.
pub open spec fn has_indexed_relation(
    kept: Seq<IndexedRelationView>,
    r: IndexedRelationView,
) -> bool {
    exists|i: int| 0 <= i < kept.len() && same_relation(#[trigger] kept[i], r)
}

/// The first `n` relations, each once.
pub open spec fn first_relations(relations: Seq<IndexedRelationView>, n: int) -> Seq<
    IndexedRelationView,
>
    decreases n,
{
    if n <= 0 {
        seq![]
    } else {
        let before = first_relations(relations, n - 1);
        if has_indexed_relation(before, relations[n - 1]) {
            before
        } else {
            before.push(relations[n - 1])
        }
    }
}

/// Whether a membership is among some memberships.
fn membership_known(kept: &Vec<IndexedMember>, m: &IndexedMember) -> (r: bool)
    ensures
        r == has_membership(kept.deep_view(), m@),
{
    let ghost all = kept.deep_view();
    let mut i: usize = 0;
    while i < kept.len()
        invariant
            i <= kept@.len(),
            all == kept.deep_view(),
            forall|k: int| 0 <= k < i ==> !same_membership(#[trigger] all[k], m@),
        decreases kept@.len() - i,
    {
        assert(all[i as int] == kept@[i as int]@);
        if same_text(kept[i].member.anchor.as_str(), m.member.anchor.as_str()) && same_option(
            &kept[i].strand,
            &m.strand,
        ) && same_option(&kept[i].member.role, &m.member.role) {
            return true;
        }
        i += 1;
    }
    false
}

/// Whether a relation is among some relations.
fn indexed_relation_known(kept: &Vec<IndexedRelation>, x: &IndexedRelation) -> (r: bool)
    ensures
        r == has_indexed_relation(kept.deep_view(), x@),
{
    let ghost all = kept.deep_view();
    let mut i: usize = 0;
    while i < kept.len()
        invariant
            i <= kept@.len(),
            all == kept.deep_view(),
            forall|k: int| 0 <= k < i ==> !same_relation(#[trigger] all[k], x@),
        decreases kept@.len() - i,
    {
        assert(all[i as int] == kept@[i as int]@);
        if same_text(kept[i].relation.from.as_str(), x.relation.from.as_str()) && same_text(
            kept[i].relation.to.as_str(),
            x.relation.to.as_str(),
        ) && same_text(kept[i].relation.kind.as_str(), x.relation.kind.as_str()) && same_option(
            &kept[i].strand,
            &x.strand,
        ) {
            return true;
        }
        i += 1;
    }
    false
}

/// Memberships, each once.
fn distinct_memberships(memberships: &Vec<IndexedMember>) -> (r: Vec<IndexedMember>)
    ensures
        r.deep_view() == first_memberships(memberships.deep_view(), memberships@.len() as int),
{
    let ghost all = memberships.deep_view();
    let mut out: Vec<IndexedMember> = Vec::new();
    let mut i: usize = 0;
    assert(out.deep_view() =~= seq![]);
    while i < memberships.len()
        invariant
            i <= memberships@.len(),
            all == memberships.deep_view(),
            out.deep_view() == first_memberships(all, i as int),
        decreases memberships@.len() - i,
    {
        assert(all[i as int] == memberships@[i as int]@);
        if !membership_known(&out, &memberships[i]) {
            push_item(&mut out, memberships[i].duplicate());
        }
        i += 1;
    }
    out
}

/// Relations, each once.
fn distinct_relations(relations: &Vec<IndexedRelation>) -> (r: Vec<IndexedRelation>)
    ensures
        r.deep_view() == first_relations(relations.deep_view(), relations@.len() as int),
{
    let ghost all = relations.deep_view();
    let mut out: Vec<IndexedRelation> = Vec::new();
    let mut i: usize = 0;
    assert(out.deep_view() =~= seq![]);
    while i < relations.len()
        invariant
            i <= relations@.len(),
            all == relations.deep_view(),
            out.deep_view() == first_relations(all, i as int),
        decreases relations@.len() - i,
    {
        assert(all[i as int] == relations@[i as int]@);
        if !indexed_relation_known(&out, &relations[i]) {
            push_item(&mut out, relations[i].duplicate());
        }
        i += 1;
    }
    out
}

/// Whether a text that may be absent comes before another; an absent one comes first.
pub open spec fn option_less(a: Option<Seq<char>>, b: Option<Seq<char>>) -> bool {
    match (a, b) {
        (None, None) => false,
        (None, Some(_)) => true,
        (Some(_), None) => false,
        (Some(x), Some(y)) => text_less(x, y),
    }
}

/// Whether a line that may be absent comes before another; an absent one comes first.
pub open spec fn line_less(a: Option<u32>, b: Option<u32>) -> bool {
    match (a, b) {
        (None, None) => false,
        (None, Some(_)) => true,
        (Some(_), None) => false,
        (Some(x), Some(y)) => x < y,
    }
}

/// Whether a text that may be absent comes before another.
fn option_before(a: &Option<String>, b: &Option<String>) -> (r: bool)
    ensures
        r == option_less(a.deep_view(), b.deep_view()),
{
    match (a, b) {
        (None, None) => false,
        (None, Some(_)) => true,
        (Some(_), None) => false,
        (Some(x), Some(y)) => text_before(x.as_str(), y.as_str()),
    }
}

/// Whether a line that may be absent comes before another.
fn line_before(a: Option<u32>, b: Option<u32>) -> (r: bool)
    ensures
        r == line_less(a, b),
{
    match (a, b) {
        (None, None) => false,
        (None, Some(_)) => true,
        (Some(_), None) => false,
        (Some(x), Some(y)) => x < y,
    }
}

/// Whether what is said of one thing comes before what is said of another: by path, by line
/// and by what it is.
pub open spec fn diagnostic_less(a: DiagnosticView, b: DiagnosticView) -> bool {
    if a.path != b.path {
        option_less(a.path, b.path)
    } else if a.line != b.line {
        line_less(a.line, b.line)
    } else {
        text_less(a.code, b.code)
    }
}

/// Whether what is said of one thing comes before what is said of another.
fn diagnostic_before(a: &Diagnostic, b: &Diagnostic) -> (r: bool)
    ensures
        r == diagnostic_less(a@, b@),
{
    if !same_option(&a.path, &b.path) {
        return option_before(&a.path, &b.path);
    }
    if a.line != b.line {
        return line_before(a.line, b.line);
    }
    text_before(a.code.as_str(), b.code.as_str())
}

/// What is said put behind the last one that does not come after it.
pub open spec fn insert_diagnostic(
    sorted: Seq<DiagnosticView>,
    x: DiagnosticView,
) -> Seq<DiagnosticView>
    decreases sorted.len(),
{
    if sorted.len() == 0 || !diagnostic_less(x, sorted.last()) {
        sorted.push(x)
    } else {
        insert_diagnostic(sorted.drop_last(), x).push(sorted.last())
    }
}

/// What is said in order; those that come neither before nor after each other stay as they were.
pub open spec fn sort_diagnostics(all: Seq<DiagnosticView>) -> Seq<DiagnosticView>
    decreases all.len(),
{
    if all.len() == 0 {
        all
    } else {
        insert_diagnostic(sort_diagnostics(all.drop_last()), all.last())
    }
}

proof fn lemma_insert_diagnostic(sorted: Seq<DiagnosticView>, x: DiagnosticView, at: int)
    requires
        0 <= at <= sorted.len(),
        forall|k: int| at <= k < sorted.len() ==> diagnostic_less(x, #[trigger] sorted[k]),
        at > 0 ==> !diagnostic_less(x, sorted[at - 1]),
    ensures
        insert_diagnostic(sorted, x) == sorted.insert(at, x),
    decreases sorted.len(),
{
    if at == sorted.len() {
        assert(sorted.insert(at, x) =~= sorted.push(x));
    } else {
        lemma_insert_diagnostic(sorted.drop_last(), x, at);
        assert(sorted.insert(at, x) =~= sorted.drop_last().insert(at, x).push(sorted.last()));
    }
}

/// What is said in order.
fn sorted_diagnostics(all: &Vec<Diagnostic>) -> (r: Vec<Diagnostic>)
    ensures
        r.deep_view() == sort_diagnostics(all.deep_view()),
{
    let mut out: Vec<Diagnostic> = Vec::new();
    let ghost views = all.deep_view();
    let mut i: usize = 0;
    assert(views.take(0) =~= seq![]);
    assert(out.deep_view() =~= sort_diagnostics(views.take(0)));
    while i < all.len()
        invariant
            i <= all@.len(),
            views == all.deep_view(),
            out.deep_view() == sort_diagnostics(views.take(i as int)),
        decreases all@.len() - i,
    {
        let x = all[i].duplicate();
        assert(views[i as int] == x@);
        assert(views.take(i + 1).drop_last() =~= views.take(i as int));
        let ghost before = out.deep_view();
        let mut at: usize = out.len();
        while at > 0
            invariant
                at <= out@.len(),
                before == out.deep_view(),
                forall|k: int| at <= k < before.len() ==> diagnostic_less(x@, #[trigger] before[k]),
            ensures
                at <= out@.len(),
                forall|k: int| at <= k < before.len() ==> diagnostic_less(x@, #[trigger] before[k]),
                at > 0 ==> !diagnostic_less(x@, before[at - 1]),
            decreases at,
        {
            assert(before[at - 1] == out@[at - 1]@);
            if !diagnostic_before(&x, &out[at - 1]) {
                break;
            }
            at -= 1;
        }
        proof {
            lemma_insert_diagnostic(before, x@, at as int);
        }
        let ghost view = x@;
        out.insert(at, x);
        assert(out.deep_view() =~= before.insert(at as int, view));
        i += 1;
    }
    assert(views.take(views.len() as int) =~= views);
    out
}

/// The memberships of the strand of a metadata file.
pub open spec fn strand_edges(strand: StrandView, provenance: ProvenanceView) -> Seq<
    IndexedMemberView,
> {
    Seq::new(
        strand.members.len(),
        |i: int|
            IndexedMemberView { strand: Some(strand.id), member: strand.members[i], provenance },
    )
}

/// The relations of the strand of a metadata file.
pub open spec fn strand_links(strand: StrandView, provenance: ProvenanceView) -> Seq<
    IndexedRelationView,
> {
    Seq::new(
        strand.relations.len(),
        |i: int|
            IndexedRelationView {
                strand: Some(strand.id),
                relation: strand.relations[i],
                provenance,
            },
    )
}

/// Adds the memberships of the strand of a metadata file.
fn add_strand_edges(out: &mut Vec<IndexedMember>, strand: &Strand, provenance: &Provenance)
    ensures
        final(out).deep_view() == old(out).deep_view() + strand_edges(strand@, provenance@),
{
    let ghost start = out.deep_view();
    let ghost all = strand_edges(strand@, provenance@);
    let mut i: usize = 0;
    assert(start + all.take(0) =~= start);
    while i < strand.members.len()
        invariant
            i <= strand.members@.len(),
            all == strand_edges(strand@, provenance@),
            out.deep_view() == start + all.take(i as int),
        decreases strand.members@.len() - i,
    {
        assert(strand@.members[i as int] == strand.members@[i as int]@);
        push_item(
            out,
            IndexedMember {
                strand: Some(strand.id.clone()),
                member: strand.members[i].duplicate(),
                provenance: provenance.duplicate(),
            },
        );
        assert(out.deep_view() =~= start + all.take(i + 1));
        i += 1;
    }
    assert(all.take(all.len() as int) =~= all);
}

/// Adds the relations of the strand of a metadata file.
fn add_strand_links(out: &mut Vec<IndexedRelation>, strand: &Strand, provenance: &Provenance)
    ensures
        final(out).deep_view() == old(out).deep_view() + strand_links(strand@, provenance@),
{
    let ghost start = out.deep_view();
    let ghost all = strand_links(strand@, provenance@);
    let mut i: usize = 0;
    assert(start + all.take(0) =~= start);
    while i < strand.relations.len()
        invariant
            i <= strand.relations@.len(),
            all == strand_links(strand@, provenance@),
            out.deep_view() == start + all.take(i as int),
        decreases strand.relations@.len() - i,
    {
        assert(strand@.relations[i as int] == strand.relations@[i as int]@);
        push_item(
            out,
            IndexedRelation {
                strand: Some(strand.id.clone()),
                relation: strand.relations[i].duplicate(),
                provenance: provenance.duplicate(),
            },
        );
        assert(out.deep_view() =~= start + all.take(i + 1));
        i += 1;
    }
    assert(all.take(all.len() as int) =~= all);
}

/// A graph with the strand of a metadata file; the first one of an id is kept.
pub open spec fn with_strand_item(
    g: GraphView,
    root: Seq<char>,
    item: MetadataItemView<StrandView>,
) -> GraphView {
    let provenance = sidecar_source(root, item.path, item.line);
    let id = item.value.id;
    GraphView {
        strands: if g.strands.contains_key(id) {
            g.strands
        } else {
            g.strands.insert(id, IndexedView { value: item.value, provenance })
        },
        memberships: g.memberships + strand_edges(item.value, provenance),
        relations: g.relations + strand_links(item.value, provenance),
        diagnostics: g.diagnostics + strand_problems(item.value, provenance) + said_if(
            g.strands.contains_key(id),
            said_of_duplicate("duplicate-strand"@, id, provenance, g.strands[id].provenance),
        ),
        ..g
    }
}

/// A graph with the first `n` strands of metadata files.
pub open spec fn with_strand_items(
    g: GraphView,
    root: Seq<char>,
    items: Seq<MetadataItemView<StrandView>>,
    n: int,
) -> GraphView
    decreases n,
{
    if n <= 0 {
        g
    } else {
        with_strand_item(with_strand_items(g, root, items, n - 1), root, items[n - 1])
    }
}

/// Adds the strand of a metadata file.
fn add_strand_item(graph: &mut Graph, repo: &Repository, item: &MetadataItem<Strand>)
    ensures
        final(graph)@ == with_strand_item(old(graph)@, repo.root@, item@),
{
    let provenance = sidecar_provenance(repo, item.path.as_str(), item.line);
    let strand = &item.value;
    validate_strand(strand, &provenance, &mut graph.diagnostics);
    add_strand_edges(&mut graph.memberships, strand, &provenance);
    add_strand_links(&mut graph.relations, strand, &provenance);
    let said = match graph.strands.get(strand.id.as_str()) {
        Some(existing) => Some(
            duplicate("duplicate-strand", strand.id.as_str(), &provenance, &existing.provenance),
        ),
        None => None,
    };
    match said {
        Some(diagnostic) => {
            push_item(&mut graph.diagnostics, diagnostic);
        },
        None => {
            graph.strands.insert(
                strand.id.clone(),
                Indexed { value: strand.duplicate(), provenance },
            );
        },
    }
    assert(graph@ =~= with_strand_item(old(graph)@, repo.root@, item@));
}

/// A graph with the anchor of a metadata file; the first one of an id is kept.
pub open spec fn with_anchor_item(
    g: GraphView,
    root: Seq<char>,
    item: MetadataItemView<AnchorView>,
) -> GraphView {
    let provenance = sidecar_source(root, item.path, item.line);
    let anchor = with_repository_path(item.value);
    GraphView {
        anchors: if g.anchors.contains_key(anchor.id) {
            g.anchors
        } else {
            g.anchors.insert(anchor.id, IndexedView { value: anchor, provenance })
        },
        diagnostics: g.diagnostics + anchor_problems(anchor, provenance) + said_if(
            g.anchors.contains_key(anchor.id),
            said_of_duplicate(
                "duplicate-anchor"@,
                anchor.id,
                provenance,
                g.anchors[anchor.id].provenance,
            ),
        ),
        ..g
    }
}

/// A graph with the first `n` anchors of metadata files.
pub open spec fn with_anchor_items(
    g: GraphView,
    root: Seq<char>,
    items: Seq<MetadataItemView<AnchorView>>,
    n: int,
) -> GraphView
    decreases n,
{
    if n <= 0 {
        g
    } else {
        with_anchor_item(with_anchor_items(g, root, items, n - 1), root, items[n - 1])
    }
}

/// Adds the anchor of a metadata file.
fn add_anchor_item(graph: &mut Graph, repo: &Repository, item: &MetadataItem<Anchor>)
    ensures
        final(graph)@ == with_anchor_item(old(graph)@, repo.root@, item@),
{
    let provenance = sidecar_provenance(repo, item.path.as_str(), item.line);
    let anchor = in_repository(&item.value);
    validate_anchor(&anchor, &provenance, &mut graph.diagnostics);
    let said = match graph.anchors.get(anchor.id.as_str()) {
        Some(existing) => Some(
            duplicate("duplicate-anchor", anchor.id.as_str(), &provenance, &existing.provenance),
        ),
        None => None,
    };
    match said {
        Some(diagnostic) => {
            push_item(&mut graph.diagnostics, diagnostic);
        },
        None => {
            graph.anchors.insert(anchor.id.clone(), Indexed { value: anchor, provenance });
        },
    }
    assert(graph@ =~= with_anchor_item(old(graph)@, repo.root@, item@));
}

/// A graph with the first `n` relations of metadata files.
pub open spec fn with_relation_items(
    g: GraphView,
    root: Seq<char>,
    items: Seq<MetadataItemView<RelationView>>,
    n: int,
) -> GraphView
    decreases n,
{
    if n <= 0 {
        g
    } else {
        let before = with_relation_items(g, root, items, n - 1);
        GraphView {
            relations: before.relations.push(
                IndexedRelationView {
                    strand: None,
                    relation: items[n - 1].value,
                    provenance: sidecar_source(root, items[n - 1].path, items[n - 1].line),
                },
            ),
            ..before
        }
    }
}

/// A graph with the strand of a source annotation. A strand of a metadata file stays as it
/// is.
pub open spec fn with_source_strand(g: GraphView, indexed: IndexedView<StrandView>) -> GraphView {
    let id = indexed.value.id;
    if !g.strands.contains_key(id) {
        GraphView { strands: g.strands.insert(id, indexed), ..g }
    } else if g.strands[id].provenance.source == "annotation"@ {
        GraphView {
            diagnostics: g.diagnostics.push(
                said_of_duplicate(
                    "duplicate-strand"@,
                    id,
                    indexed.provenance,
                    g.strands[id].provenance,
                ),
            ),
            ..g
        }
    } else {
        g
    }
}

/// A graph with the first `n` strands of source annotations.
pub open spec fn with_source_strands(
    g: GraphView,
    strands: Seq<IndexedView<StrandView>>,
    n: int,
) -> GraphView
    decreases n,
{
    if n <= 0 {
        g
    } else {
        with_source_strand(with_source_strands(g, strands, n - 1), strands[n - 1])
    }
}

/// Adds the strand of a source annotation.
fn add_source_strand(graph: &mut Graph, indexed: &Indexed<Strand>)
    ensures
        final(graph)@ == with_source_strand(old(graph)@, indexed@),
{
    let id = indexed.value.id.as_str();
    let (known, said) = match graph.strands.get(id) {
        None => (false, None),
        Some(existing) => (
            true,
            if same_text(existing.provenance.source.as_str(), "annotation") {
                Some(
                    duplicate("duplicate-strand", id, &indexed.provenance, &existing.provenance),
                )
            } else {
                None
            },
        ),
    };
    if !known {
        graph.strands.insert(indexed.value.id.clone(), indexed.duplicate());
    } else {
        match said {
            None => {},
            Some(diagnostic) => {
                push_item(&mut graph.diagnostics, diagnostic);
            },
        }
    }
    assert(graph@ =~= with_source_strand(old(graph)@, indexed@));
}

/// What is said of an anchor whose metadata file and annotation name different targets.
pub open spec fn said_of_conflict(id: Seq<char>, provenance: ProvenanceView) -> DiagnosticView {
    said_at(
        Severity::Error,
        "anchor-target-conflict"@,
        naming("anchor "@, id, " has conflicting sidecar and source targets"@),
        provenance,
    )
}

/// What is said of an anchor whose metadata file and annotation name different targets.
fn conflict(id: &str, provenance: &Provenance) -> (r: Diagnostic)
    ensures
        r@ == said_of_conflict(id@, provenance@),
{
    at(
        Severity::Error,
        "anchor-target-conflict",
        name_in("anchor ", id, " has conflicting sidecar and source targets"),
        provenance,
    )
}

/// Whether two targets that are both given differ.
pub open spec fn targets_differ(a: Option<Seq<char>>, b: Option<Seq<char>>) -> bool {
    a is Some && b is Some && a != b
}

/// A graph with the anchor of a source annotation: it locates an anchor of a metadata file,
/// and an anchor of another annotation has to be the same.
pub open spec fn with_source_anchor(g: GraphView, indexed: IndexedView<AnchorView>) -> GraphView {
    let anchor = with_repository_path(indexed.value);
    let id = anchor.id;
    let existing = g.anchors[id];
    if !g.anchors.contains_key(id) {
        GraphView {
            anchors: g.anchors.insert(
                id,
                IndexedView { value: anchor, provenance: indexed.provenance },
            ),
            ..g
        }
    } else if existing.provenance.source == "sidecar"@ {
        GraphView {
            anchors: g.anchors.insert(
                id,
                IndexedView { value: merged_anchor(existing.value, anchor), ..existing },
            ),
            diagnostics: g.diagnostics + said_if(
                targets_differ(existing.value.target, anchor.target),
                said_of_conflict(id, indexed.provenance),
            ),
            ..g
        }
    } else {
        GraphView {
            diagnostics: g.diagnostics + said_if(
                existing.value.location != anchor.location || existing.value.target
                    != anchor.target,
                said_of_duplicate(
                    "duplicate-anchor"@,
                    id,
                    indexed.provenance,
                    existing.provenance,
                ),
            ),
            ..g
        }
    }
}

/// A graph with the first `n` anchors of source annotations.
pub open spec fn with_source_anchors(
    g: GraphView,
    anchors: Seq<IndexedView<AnchorView>>,
    n: int,
) -> GraphView
    decreases n,
{
    if n <= 0 {
        g
    } else {
        with_source_anchor(with_source_anchors(g, anchors, n - 1), anchors[n - 1])
    }
}

/// Whether two targets that are both given differ.
fn differ(a: &Option<String>, b: &Option<String>) -> (r: bool)
    ensures
        r == targets_differ(a.deep_view(), b.deep_view()),
{
    a.is_some() && b.is_some() && !same_option(a, b)
}

/// Whether two places are the same.
fn same_location(a: &Option<Location>, b: &Option<Location>) -> (r: bool)
    ensures
        r == (a.deep_view() == b.deep_view()),
{
    match (a, b) {
        (None, None) => true,
        (Some(x), Some(y)) => {
            let same = same_text(x.path.as_str(), y.path.as_str()) && x.line_start == y.line_start
                && x.line_end == y.line_end && same_option(&x.symbol, &y.symbol) && same_option(
                &x.language,
                &y.language,
            ) && same_option(&x.fingerprint, &y.fingerprint) && x.watch == y.watch;
            assert(same == (x@ =~= y@));
            same
        },
        _ => false,
    }
}

/// Adds the anchor of a source annotation.
fn add_source_anchor(graph: &mut Graph, indexed: &Indexed<Anchor>)
    ensures
        final(graph)@ == with_source_anchor(old(graph)@, indexed@),
{
    let anchor = in_repository(&indexed.value);
    let known = match graph.anchors.get(anchor.id.as_str()) {
        None => None,
        Some(existing) => Some(existing.duplicate()),
    };
    match known {
        None => {
            graph.anchors.insert(
                anchor.id.clone(),
                Indexed { value: anchor, provenance: indexed.provenance.duplicate() },
            );
        },
        Some(existing) => {
            if same_text(existing.provenance.source.as_str(), "sidecar") {
                if differ(&existing.value.target, &anchor.target) {
                    push_item(
                        &mut graph.diagnostics,
                        conflict(anchor.id.as_str(), &indexed.provenance),
                    );
                }
                let merged = merge_source_anchor(&existing.value, &anchor);
                graph.anchors.insert(
                    anchor.id.clone(),
                    Indexed { value: merged, provenance: existing.provenance },
                );
            } else if !same_location(&existing.value.location, &anchor.location) || !same_option(
                &existing.value.target,
                &anchor.target,
            ) {
                push_item(
                    &mut graph.diagnostics,
                    duplicate(
                        "duplicate-anchor",
                        anchor.id.as_str(),
                        &indexed.provenance,
                        &existing.provenance,
                    ),
                );
            }
        },
    }
    assert(graph@ =~= with_source_anchor(old(graph)@, indexed@));
}

/// A graph with the annotations of a file.
pub open spec fn with_document(g: GraphView, document: SourceDocumentView) -> GraphView {
    let edges = GraphView {
        diagnostics: g.diagnostics + document.diagnostics,
        memberships: g.memberships + document.memberships,
        relations: g.relations + document.relations,
        ..g
    };
    with_source_anchors(
        with_source_strands(edges, document.strands, document.strands.len() as int),
        document.anchors,
        document.anchors.len() as int,
    )
}

/// A graph with the annotations of the first `n` files.
pub open spec fn with_documents(
    g: GraphView,
    documents: Map<Seq<char>, SourceDocumentView>,
    n: int,
) -> GraphView
    decreases n,
{
    if n <= 0 {
        g
    } else {
        with_document(
            with_documents(g, documents, n - 1),
            documents[ordered(documents.dom())[n - 1]],
        )
    }
}

/// Adds copies of items behind others.
fn add_copies<T: Duplicate>(out: &mut Vec<T>, more: &Vec<T>)
    ensures
        final(out).deep_view() == old(out).deep_view() + more.deep_view(),
{
    let ghost start = out.deep_view();
    let ghost all = more.deep_view();
    let mut i: usize = 0;
    assert(start + all.take(0) =~= start);
    while i < more.len()
        invariant
            i <= more@.len(),
            all == more.deep_view(),
            out.deep_view() == start + all.take(i as int),
        decreases more@.len() - i,
    {
        assert(all[i as int] == more@[i as int].deep_view());
        push_item(out, more[i].duplicate());
        assert(out.deep_view() =~= start + all.take(i + 1));
        i += 1;
    }
    assert(all.take(all.len() as int) =~= all);
}

/// Adds the annotations of a file.
fn add_document(graph: &mut Graph, document: &SourceDocument)
    ensures
        final(graph)@ == with_document(old(graph)@, document@),
{
    add_copies(&mut graph.diagnostics, &document.diagnostics);
    add_copies(&mut graph.memberships, &document.memberships);
    add_copies(&mut graph.relations, &document.relations);
    let ghost edges = graph@;
    assert(edges =~= (GraphView {
        diagnostics: old(graph)@.diagnostics + document@.diagnostics,
        memberships: old(graph)@.memberships + document@.memberships,
        relations: old(graph)@.relations + document@.relations,
        ..old(graph)@
    }));
    let mut i: usize = 0;
    while i < document.strands.len()
        invariant
            i <= document.strands@.len(),
            graph@ == with_source_strands(edges, document@.strands, i as int),
        decreases document.strands@.len() - i,
    {
        assert(document@.strands[i as int] == document.strands@[i as int]@);
        add_source_strand(graph, &document.strands[i]);
        i += 1;
    }
    let ghost middle = graph@;
    let mut k: usize = 0;
    while k < document.anchors.len()
        invariant
            k <= document.anchors@.len(),
            graph@ == with_source_anchors(middle, document@.anchors, k as int),
        decreases document.anchors@.len() - k,
    {
        assert(document@.anchors[k as int] == document.anchors@[k as int]@);
        add_source_anchor(graph, &document.anchors[k]);
        k += 1;
    }
}

/// A graph with the strands that only the first `n` memberships speak of.
pub open spec fn with_implicit_strands(g: GraphView, n: int) -> GraphView
    decreases n,
{
    if n <= 0 {
        g
    } else {
        let before = with_implicit_strands(g, n - 1);
        let m = g.memberships[n - 1];
        if m.strand is Some && !before.strands.contains_key(m.strand->0) {
            GraphView {
                strands: before.strands.insert(
                    m.strand->0,
                    IndexedView { value: implicit_strand(m.strand->0), provenance: m.provenance },
                ),
                diagnostics: before.diagnostics.push(
                    said_of_implicit(m.strand->0, m.provenance),
                ),
                ..before
            }
        } else {
            before
        }
    }
}

/// Adds the strands that only memberships speak of.
fn materialize_missing_strands(
    strands: &mut StringMap<Indexed<Strand>>,
    memberships: &Vec<IndexedMember>,
    diagnostics: &mut Vec<Diagnostic>,
    Ghost(g): Ghost<GraphView>,
)
    requires
        g.strands == old(strands)@,
        g.memberships == memberships.deep_view(),
        g.diagnostics == old(diagnostics).deep_view(),
    ensures
        final(strands)@ == with_implicit_strands(g, memberships@.len() as int).strands,
        final(diagnostics).deep_view() == with_implicit_strands(
            g,
            memberships@.len() as int,
        ).diagnostics,
{
    let mut i: usize = 0;
    while i < memberships.len()
        invariant
            i <= memberships@.len(),
            g.memberships == memberships.deep_view(),
            strands@ == with_implicit_strands(g, i as int).strands,
            diagnostics.deep_view() == with_implicit_strands(g, i as int).diagnostics,
        decreases memberships@.len() - i,
    {
        assert(g.memberships[i as int] == memberships@[i as int]@);
        match &memberships[i].strand {
            None => {},
            Some(id) => {
                if !strands.contains_key(id.as_str()) {
                    push_item(
                        diagnostics,
                        warn_of_implicit(id.as_str(), &memberships[i].provenance),
                    );
                    strands.insert(
                        id.clone(),
                        Indexed {
                            value: make_implicit_strand(id),
                            provenance: memberships[i].provenance.duplicate(),
                        },
                    );
                }
            },
        }
        i += 1;
    }
}

/// Anchors with one that is known by its target alone, where it is not known otherwise.
pub open spec fn with_target_anchor(
    anchors: Map<Seq<char>, IndexedView<AnchorView>>,
    id: Seq<char>,
    provenance: ProvenanceView,
) -> Map<Seq<char>, IndexedView<AnchorView>> {
    if anchors.contains_key(id) || !is_target(id) {
        anchors
    } else {
        anchors.insert(id, IndexedView { value: target_anchor(id), provenance })
    }
}

/// Anchors with those that the first `n` memberships know by their targets alone.
pub open spec fn with_member_targets(
    anchors: Map<Seq<char>, IndexedView<AnchorView>>,
    memberships: Seq<IndexedMemberView>,
    n: int,
) -> Map<Seq<char>, IndexedView<AnchorView>>
    decreases n,
{
    if n <= 0 {
        anchors
    } else {
        with_target_anchor(
            with_member_targets(anchors, memberships, n - 1),
            memberships[n - 1].member.anchor,
            memberships[n - 1].provenance,
        )
    }
}

/// Anchors with those that the first `n` relations know by their targets alone.
pub open spec fn with_relation_targets(
    anchors: Map<Seq<char>, IndexedView<AnchorView>>,
    relations: Seq<IndexedRelationView>,
    n: int,
) -> Map<Seq<char>, IndexedView<AnchorView>>
    decreases n,
{
    if n <= 0 {
        anchors
    } else {
        let r = relations[n - 1];
        with_target_anchor(
            with_target_anchor(
                with_relation_targets(anchors, relations, n - 1),
                r.relation.from,
                r.provenance,
            ),
            r.relation.to,
            r.provenance,
        )
    }
}

/// Adds an anchor that is known by its target alone, where it is not known otherwise.
fn add_target_anchor(
    anchors: &mut StringMap<Indexed<Anchor>>,
    id: &str,
    provenance: &Provenance,
)
    ensures
        final(anchors)@ == with_target_anchor(old(anchors)@, id@, provenance@),
{
    if anchors.contains_key(id) || !looks_like_target(id) {
        return;
    }
    anchors.insert(
        id.to_owned(),
        Indexed { value: make_target_anchor(id), provenance: provenance.duplicate() },
    );
}

/// Adds the anchors that edges know by their targets alone.
fn materialize_uri_anchors(
    anchors: &mut StringMap<Indexed<Anchor>>,
    memberships: &Vec<IndexedMember>,
    relations: &Vec<IndexedRelation>,
)
    ensures
        final(anchors)@ == with_relation_targets(
            with_member_targets(
                old(anchors)@,
                memberships.deep_view(),
                memberships@.len() as int,
            ),
            relations.deep_view(),
            relations@.len() as int,
        ),
{
    let ghost start = anchors@;
    let ghost ms = memberships.deep_view();
    let ghost rs = relations.deep_view();
    let mut i: usize = 0;
    while i < memberships.len()
        invariant
            i <= memberships@.len(),
            ms == memberships.deep_view(),
            anchors@ == with_member_targets(start, ms, i as int),
        decreases memberships@.len() - i,
    {
        assert(ms[i as int] == memberships@[i as int]@);
        add_target_anchor(
            anchors,
            memberships[i].member.anchor.as_str(),
            &memberships[i].provenance,
        );
        i += 1;
    }
    let ghost middle = anchors@;
    let mut k: usize = 0;
    while k < relations.len()
        invariant
            k <= relations@.len(),
            rs == relations.deep_view(),
            anchors@ == with_relation_targets(middle, rs, k as int),
        decreases relations@.len() - k,
    {
        assert(rs[k as int] == relations@[k as int]@);
        add_target_anchor(anchors, relations[k].relation.from.as_str(), &relations[k].provenance);
        add_target_anchor(anchors, relations[k].relation.to.as_str(), &relations[k].provenance);
        k += 1;
    }
}

/// What metadata files and annotations say, before what only edges speak of is added.
pub open spec fn stated_graph(
    root: Seq<char>,
    loaded: LoadedMetadataView,
    documents: Map<Seq<char>, SourceDocumentView>,
) -> GraphView {
    let empty = GraphView {
        strands: Map::empty(),
        anchors: Map::empty(),
        memberships: seq![],
        relations: seq![],
        diagnostics: loaded.diagnostics,
    };
    let strands = with_strand_items(empty, root, loaded.strands, loaded.strands.len() as int);
    let anchors = with_anchor_items(strands, root, loaded.anchors, loaded.anchors.len() as int);
    let relations = with_relation_items(
        anchors,
        root,
        loaded.relations,
        loaded.relations.len() as int,
    );
    with_documents(relations, documents, ordered(documents.dom()).len() as int)
}

/// A graph with what only its edges speak of, and with the places that targets name.
pub open spec fn completed_graph(g: GraphView) -> GraphView {
    let full = with_implicit_strands(
        GraphView { anchors: all_placed(g.anchors), ..g },
        g.memberships.len() as int,
    );
    GraphView {
        anchors: with_relation_targets(
            with_member_targets(full.anchors, g.memberships, g.memberships.len() as int),
            g.relations,
            g.relations.len() as int,
        ),
        ..full
    }
}

/// Memberships in order and each once.
pub open spec fn listed_memberships(all: Seq<IndexedMemberView>) -> Seq<IndexedMemberView> {
    first_memberships(sort_memberships(all), sort_memberships(all).len() as int)
}

/// Relations in order and each once.
pub open spec fn listed_relations(all: Seq<IndexedRelationView>) -> Seq<IndexedRelationView> {
    first_relations(sort_relations(all), sort_relations(all).len() as int)
}

/// A graph with its edges in order and each once, and with what is wrong in order.
pub open spec fn finished_graph(g: GraphView) -> GraphView {
    GraphView {
        memberships: listed_memberships(g.memberships),
        relations: listed_relations(g.relations),
        diagnostics: sort_diagnostics(
            g.diagnostics + graph_problems(
                g.strands.dom(),
                g.anchors.dom(),
                g.memberships,
                g.relations,
            ),
        ),
        ..g
    }
}

/// What metadata files and annotations say together.
pub open spec fn graph_of(
    root: Seq<char>,
    loaded: LoadedMetadataView,
    documents: Map<Seq<char>, SourceDocumentView>,
) -> GraphView {
    finished_graph(completed_graph(stated_graph(root, loaded, documents)))
}

/// What metadata files and annotations say, before what only edges speak of is added.
fn state_graph(
    repo: &Repository,
    loaded: &LoadedMetadata,
    documents: &StringMap<SourceDocument>,
) -> (r: Graph)
    ensures
        r@ == stated_graph(repo.root@, loaded@, documents@),
{
    let mut graph = Graph {
        strands: StringMap::new(),
        anchors: StringMap::new(),
        memberships: Vec::new(),
        relations: Vec::new(),
        diagnostics: loaded.diagnostics.duplicate(),
    };
    let ghost root = repo.root@;
    let ghost empty = GraphView {
        strands: Map::empty(),
        anchors: Map::empty(),
        memberships: seq![],
        relations: seq![],
        diagnostics: loaded@.diagnostics,
    };
    assert(graph@ =~= empty);
    let mut i: usize = 0;
    while i < loaded.strands.len()
        invariant
            i <= loaded.strands@.len(),
            root == repo.root@,
            graph@ == with_strand_items(empty, root, loaded@.strands, i as int),
        decreases loaded.strands@.len() - i,
    {
        assert(loaded@.strands[i as int] == loaded.strands@[i as int]@);
        add_strand_item(&mut graph, repo, &loaded.strands[i]);
        i += 1;
    }
    let ghost strands = graph@;
    let mut k: usize = 0;
    while k < loaded.anchors.len()
        invariant
            k <= loaded.anchors@.len(),
            root == repo.root@,
            graph@ == with_anchor_items(strands, root, loaded@.anchors, k as int),
        decreases loaded.anchors@.len() - k,
    {
        assert(loaded@.anchors[k as int] == loaded.anchors@[k as int]@);
        add_anchor_item(&mut graph, repo, &loaded.anchors[k]);
        k += 1;
    }
    let ghost anchors = graph@;
    let mut j: usize = 0;
    while j < loaded.relations.len()
        invariant
            j <= loaded.relations@.len(),
            root == repo.root@,
            graph@ == with_relation_items(anchors, root, loaded@.relations, j as int),
        decreases loaded.relations@.len() - j,
    {
        let item = &loaded.relations[j];
        assert(loaded@.relations[j as int] == item@);
        push_item(
            &mut graph.relations,
            IndexedRelation {
                strand: None,
                relation: item.value.duplicate(),
                provenance: sidecar_provenance(repo, item.path.as_str(), item.line),
            },
        );
        assert(graph@ =~= with_relation_items(anchors, root, loaded@.relations, j + 1));
        j += 1;
    }
    let ghost relations = graph@;
    let n: usize = documents.len();
    let mut d: usize = 0;
    while d < n
        invariant
            d <= n,
            n == ordered(documents@.dom()).len(),
            graph@ == with_documents(relations, documents@, d as int),
        decreases n - d,
    {
        add_document(&mut graph, documents.value_at(d));
        d += 1;
    }
    graph
}

/// Memberships in order and each once.
fn list_memberships(all: &Vec<IndexedMember>) -> (r: Vec<IndexedMember>)
    ensures
        r.deep_view() == listed_memberships(all.deep_view()),
{
    let sorted = sorted_memberships(all);
    assert(sorted@.len() == sorted.deep_view().len());
    distinct_memberships(&sorted)
}

/// Relations in order and each once.
fn list_relations(all: &Vec<IndexedRelation>) -> (r: Vec<IndexedRelation>)
    ensures
        r.deep_view() == listed_relations(all.deep_view()),
{
    let sorted = sorted_relations(all);
    assert(sorted@.len() == sorted.deep_view().len());
    distinct_relations(&sorted)
}

/// What metadata files and annotations say together.
pub fn assemble_graph(
    repo: &Repository,
    loaded: &LoadedMetadata,
    documents: &StringMap<SourceDocument>,
) -> (r: Graph)
    ensures
        r@ == graph_of(repo.root@, loaded@, documents@),
{
    let stated = state_graph(repo, loaded, documents);
    let ghost g = stated@;
    let mut anchors = materialize_targets(&stated.anchors);
    let mut strands = stated.strands;
    let mut diagnostics = stated.diagnostics;
    let memberships = stated.memberships;
    let relations = stated.relations;
    materialize_missing_strands(
        &mut strands,
        &memberships,
        &mut diagnostics,
        Ghost(GraphView { anchors: all_placed(g.anchors), ..g }),
    );
    materialize_uri_anchors(&mut anchors, &memberships, &relations);
    assert(memberships@.len() == memberships.deep_view().len());
    assert(relations@.len() == relations.deep_view().len());
    proof {
        lemma_implicit_keeps(
            GraphView { anchors: all_placed(g.anchors), ..g },
            g.memberships.len() as int,
        );
    }
    let ghost full = completed_graph(g);
    assert(strands@ == full.strands);
    assert(anchors@ == full.anchors);
    assert(diagnostics.deep_view() == full.diagnostics);
    validate_graph(&strands, &anchors, &memberships, &relations, &mut diagnostics);
    let graph = Graph {
        strands,
        anchors,
        memberships: list_memberships(&memberships),
        relations: list_relations(&relations),
        diagnostics: sorted_diagnostics(&diagnostics),
    };
    assert(graph@ =~= finished_graph(full));
    graph
}

/// Strands that only memberships speak of leave the edges and the anchors as they are.
proof fn lemma_implicit_keeps(g: GraphView, n: int)
    ensures
        with_implicit_strands(g, n).anchors == g.anchors,
        with_implicit_strands(g, n).memberships == g.memberships,
        with_implicit_strands(g, n).relations == g.relations,
    decreases n,
{
    if n > 0 {
        lemma_implicit_keeps(g, n - 1);
    }
}

/// Whether a membership comes before another: those of metadata files first, then by path, by
/// line, by strand, by anchor and by role.
pub open spec fn membership_less(a: IndexedMemberView, b: IndexedMemberView) -> bool {
    let x = a.provenance;
    let y = b.provenance;
    if (x.source == "sidecar"@) != (y.source == "sidecar"@) {
        x.source == "sidecar"@
    } else if x.path != y.path {
        option_less(x.path, y.path)
    } else if x.line != y.line {
        line_less(x.line, y.line)
    } else if a.strand != b.strand {
        option_less(a.strand, b.strand)
    } else if a.member.anchor != b.member.anchor {
        text_less(a.member.anchor, b.member.anchor)
    } else {
        option_less(a.member.role, b.member.role)
    }
}

/// Whether a relation comes before another: those of metadata files first, then by path, by
/// line, by strand, by the anchors and by kind.
pub open spec fn relation_less(a: IndexedRelationView, b: IndexedRelationView) -> bool {
    let x = a.provenance;
    let y = b.provenance;
    if (x.source == "sidecar"@) != (y.source == "sidecar"@) {
        x.source == "sidecar"@
    } else if x.path != y.path {
        option_less(x.path, y.path)
    } else if x.line != y.line {
        line_less(x.line, y.line)
    } else if a.strand != b.strand {
        option_less(a.strand, b.strand)
    } else if a.relation.from != b.relation.from {
        text_less(a.relation.from, b.relation.from)
    } else if a.relation.to != b.relation.to {
        text_less(a.relation.to, b.relation.to)
    } else {
        text_less(a.relation.kind, b.relation.kind)
    }
}

/// Whether a membership comes before another.
fn membership_before(a: &IndexedMember, b: &IndexedMember) -> (r: bool)
    ensures
        r == membership_less(a@, b@),
{
    let first = same_text(a.provenance.source.as_str(), "sidecar");
    let second = same_text(b.provenance.source.as_str(), "sidecar");
    if first != second {
        return first;
    }
    if !same_option(&a.provenance.path, &b.provenance.path) {
        return option_before(&a.provenance.path, &b.provenance.path);
    }
    if a.provenance.line != b.provenance.line {
        return line_before(a.provenance.line, b.provenance.line);
    }
    if !same_option(&a.strand, &b.strand) {
        return option_before(&a.strand, &b.strand);
    }
    if !same_text(a.member.anchor.as_str(), b.member.anchor.as_str()) {
        return text_before(a.member.anchor.as_str(), b.member.anchor.as_str());
    }
    option_before(&a.member.role, &b.member.role)
}

/// Whether a relation comes before another.
fn relation_before(a: &IndexedRelation, b: &IndexedRelation) -> (r: bool)
    ensures
        r == relation_less(a@, b@),
{
    let first = same_text(a.provenance.source.as_str(), "sidecar");
    let second = same_text(b.provenance.source.as_str(), "sidecar");
    if first != second {
        return first;
    }
    if !same_option(&a.provenance.path, &b.provenance.path) {
        return option_before(&a.provenance.path, &b.provenance.path);
    }
    if a.provenance.line != b.provenance.line {
        return line_before(a.provenance.line, b.provenance.line);
    }
    if !same_option(&a.strand, &b.strand) {
        return option_before(&a.strand, &b.strand);
    }
    if !same_text(a.relation.from.as_str(), b.relation.from.as_str()) {
        return text_before(a.relation.from.as_str(), b.relation.from.as_str());
    }
    if !same_text(a.relation.to.as_str(), b.relation.to.as_str()) {
        return text_before(a.relation.to.as_str(), b.relation.to.as_str());
    }
    text_before(a.relation.kind.as_str(), b.relation.kind.as_str())
}

/// A membership put behind the last one that does not come after it.
pub open spec fn insert_membership(
    sorted: Seq<IndexedMemberView>,
    x: IndexedMemberView,
) -> Seq<IndexedMemberView>
    decreases sorted.len(),
{
    if sorted.len() == 0 || !membership_less(x, sorted.last()) {
        sorted.push(x)
    } else {
        insert_membership(sorted.drop_last(), x).push(sorted.last())
    }
}

/// Memberships in order; those that come neither before nor after each other stay as they were.
pub open spec fn sort_memberships(all: Seq<IndexedMemberView>) -> Seq<IndexedMemberView>
    decreases all.len(),
{
    if all.len() == 0 {
        all
    } else {
        insert_membership(sort_memberships(all.drop_last()), all.last())
    }
}

proof fn lemma_insert_membership(sorted: Seq<IndexedMemberView>, x: IndexedMemberView, at: int)
    requires
        0 <= at <= sorted.len(),
        forall|k: int| at <= k < sorted.len() ==> membership_less(x, #[trigger] sorted[k]),
        at > 0 ==> !membership_less(x, sorted[at - 1]),
    ensures
        insert_membership(sorted, x) == sorted.insert(at, x),
    decreases sorted.len(),
{
    if at == sorted.len() {
        assert(sorted.insert(at, x) =~= sorted.push(x));
    } else {
        lemma_insert_membership(sorted.drop_last(), x, at);
        assert(sorted.insert(at, x) =~= sorted.drop_last().insert(at, x).push(sorted.last()));
    }
}

/// Memberships in order.
fn sorted_memberships(all: &Vec<IndexedMember>) -> (r: Vec<IndexedMember>)
    ensures
        r.deep_view() == sort_memberships(all.deep_view()),
{
    let mut out: Vec<IndexedMember> = Vec::new();
    let ghost views = all.deep_view();
    let mut i: usize = 0;
    assert(views.take(0) =~= seq![]);
    assert(out.deep_view() =~= sort_memberships(views.take(0)));
    while i < all.len()
        invariant
            i <= all@.len(),
            views == all.deep_view(),
            out.deep_view() == sort_memberships(views.take(i as int)),
        decreases all@.len() - i,
    {
        let x = all[i].duplicate();
        assert(views[i as int] == x@);
        assert(views.take(i + 1).drop_last() =~= views.take(i as int));
        let ghost before = out.deep_view();
        let mut at: usize = out.len();
        while at > 0
            invariant
                at <= out@.len(),
                before == out.deep_view(),
                forall|k: int| at <= k < before.len() ==> membership_less(x@, #[trigger] before[k]),
            ensures
                at <= out@.len(),
                forall|k: int| at <= k < before.len() ==> membership_less(x@, #[trigger] before[k]),
                at > 0 ==> !membership_less(x@, before[at - 1]),
            decreases at,
        {
            assert(before[at - 1] == out@[at - 1]@);
            if !membership_before(&x, &out[at - 1]) {
                break;
            }
            at -= 1;
        }
        proof {
            lemma_insert_membership(before, x@, at as int);
        }
        let ghost view = x@;
        out.insert(at, x);
        assert(out.deep_view() =~= before.insert(at as int, view));
        i += 1;
    }
    assert(views.take(views.len() as int) =~= views);
    out
}

/// A relation put behind the last one that does not come after it.
pub open spec fn insert_relation(
    sorted: Seq<IndexedRelationView>,
    x: IndexedRelationView,
) -> Seq<IndexedRelationView>
    decreases sorted.len(),
{
    if sorted.len() == 0 || !relation_less(x, sorted.last()) {
        sorted.push(x)
    } else {
        insert_relation(sorted.drop_last(), x).push(sorted.last())
    }
}

/// Relations in order; those that come neither before nor after each other stay as they were.
pub open spec fn sort_relations(all: Seq<IndexedRelationView>) -> Seq<IndexedRelationView>
    decreases all.len(),
{
    if all.len() == 0 {
        all
    } else {
        insert_relation(sort_relations(all.drop_last()), all.last())
    }
}

proof fn lemma_insert_relation(sorted: Seq<IndexedRelationView>, x: IndexedRelationView, at: int)
    requires
        0 <= at <= sorted.len(),
        forall|k: int| at <= k < sorted.len() ==> relation_less(x, #[trigger] sorted[k]),
        at > 0 ==> !relation_less(x, sorted[at - 1]),
    ensures
        insert_relation(sorted, x) == sorted.insert(at, x),
    decreases sorted.len(),
{
    if at == sorted.len() {
        assert(sorted.insert(at, x) =~= sorted.push(x));
    } else {
        lemma_insert_relation(sorted.drop_last(), x, at);
        assert(sorted.insert(at, x) =~= sorted.drop_last().insert(at, x).push(sorted.last()));
    }
}

/// Relations in order.
fn sorted_relations(all: &Vec<IndexedRelation>) -> (r: Vec<IndexedRelation>)
    ensures
        r.deep_view() == sort_relations(all.deep_view()),
{
    let mut out: Vec<IndexedRelation> = Vec::new();
    let ghost views = all.deep_view();
    let mut i: usize = 0;
    assert(views.take(0) =~= seq![]);
    assert(out.deep_view() =~= sort_relations(views.take(0)));
    while i < all.len()
        invariant
            i <= all@.len(),
            views == all.deep_view(),
            out.deep_view() == sort_relations(views.take(i as int)),
        decreases all@.len() - i,
    {
        let x = all[i].duplicate();
        assert(views[i as int] == x@);
        assert(views.take(i + 1).drop_last() =~= views.take(i as int));
        let ghost before = out.deep_view();
        let mut at: usize = out.len();
        while at > 0
            invariant
                at <= out@.len(),
                before == out.deep_view(),
                forall|k: int| at <= k < before.len() ==> relation_less(x@, #[trigger] before[k]),
            ensures
                at <= out@.len(),
                forall|k: int| at <= k < before.len() ==> relation_less(x@, #[trigger] before[k]),
                at > 0 ==> !relation_less(x@, before[at - 1]),
            decreases at,
        {
            assert(before[at - 1] == out@[at - 1]@);
            if !relation_before(&x, &out[at - 1]) {
                break;
            }
            at -= 1;
        }
        proof {
            lemma_insert_relation(before, x@, at as int);
        }
        let ghost view = x@;
        out.insert(at, x);
        assert(out.deep_view() =~= before.insert(at as int, view));
        i += 1;
    }
    assert(views.take(views.len() as int) =~= views);
    out
}

/// An anchor as it was first seen.
#[derive(Debug)]
pub enum SeenAnchor {
    /// In a metadata file.
    Sidecar(Option<String>, Provenance),
    /// In an annotation.
    Annotation(Indexed<Anchor>),
}

/// The mathematical content of a [`SeenAnchor`].
#[verifier::ext_equal]
pub ghost enum SeenAnchorView {
    Sidecar(Option<Seq<char>>, ProvenanceView),
    Annotation(IndexedView<AnchorView>),
}

impl View for SeenAnchor {
    type V = SeenAnchorView;

    open spec fn view(&self) -> SeenAnchorView {
        match self {
            SeenAnchor::Sidecar(target, provenance) => SeenAnchorView::Sidecar(
                target.deep_view(),
                provenance@,
            ),
            SeenAnchor::Annotation(indexed) => SeenAnchorView::Annotation(indexed@),
        }
    }
}

impl DeepView for SeenAnchor {
    type V = SeenAnchorView;

    open spec fn deep_view(&self) -> SeenAnchorView {
        self@
    }
}

/// Where an anchor was first seen.
pub open spec fn first_place(seen: SeenAnchorView) -> ProvenanceView {
    match seen {
        SeenAnchorView::Sidecar(_, provenance) => provenance,
        SeenAnchorView::Annotation(indexed) => indexed.provenance,
    }
}

/// What was seen so far, and what is wrong with it.
pub struct Check {
    /// Where each strand was first seen.
    pub strands: StringMap<Provenance>,
    /// The anchors as they were first seen.
    pub anchors: StringMap<SeenAnchor>,
    /// What is wrong.
    pub diagnostics: Vec<Diagnostic>,
}

/// What was seen so far, and what is wrong with it.
#[verifier::ext_equal]
pub ghost struct CheckView {
    pub strands: Map<Seq<char>, ProvenanceView>,
    pub anchors: Map<Seq<char>, SeenAnchorView>,
    pub diagnostics: Seq<DiagnosticView>,
}

impl View for Check {
    type V = CheckView;

    open spec fn view(&self) -> CheckView {
        CheckView {
            strands: self.strands@,
            anchors: self.anchors@,
            diagnostics: self.diagnostics.deep_view(),
        }
    }
}

/// What was seen once the strand of a metadata file is looked at.
pub open spec fn checked_strand_item(
    c: CheckView,
    root: Seq<char>,
    item: MetadataItemView<StrandView>,
) -> CheckView {
    let provenance = sidecar_source(root, item.path, item.line);
    let id = item.value.id;
    CheckView {
        strands: if c.strands.contains_key(id) {
            c.strands
        } else {
            c.strands.insert(id, provenance)
        },
        diagnostics: c.diagnostics + strand_problems(item.value, provenance) + said_if(
            c.strands.contains_key(id),
            said_of_duplicate("duplicate-strand"@, id, provenance, c.strands[id]),
        ),
        ..c
    }
}

/// What was seen once the first `n` strands of metadata files are looked at.
pub open spec fn checked_strand_items(
    c: CheckView,
    root: Seq<char>,
    items: Seq<MetadataItemView<StrandView>>,
    n: int,
) -> CheckView
    decreases n,
{
    if n <= 0 {
        c
    } else {
        checked_strand_item(checked_strand_items(c, root, items, n - 1), root, items[n - 1])
    }
}

/// Looks at the strand of a metadata file.
fn check_strand_item(check: &mut Check, repo: &Repository, item: &MetadataItem<Strand>)
    ensures
        final(check)@ == checked_strand_item(old(check)@, repo.root@, item@),
{
    let provenance = sidecar_provenance(repo, item.path.as_str(), item.line);
    let strand = &item.value;
    validate_strand(strand, &provenance, &mut check.diagnostics);
    let said = match check.strands.get(strand.id.as_str()) {
        Some(earlier) => Some(
            duplicate("duplicate-strand", strand.id.as_str(), &provenance, earlier),
        ),
        None => None,
    };
    match said {
        Some(diagnostic) => {
            push_item(&mut check.diagnostics, diagnostic);
        },
        None => {
            check.strands.insert(strand.id.clone(), provenance);
        },
    }
    assert(check@ =~= checked_strand_item(old(check)@, repo.root@, item@));
}

/// What was seen once the anchor of a metadata file is looked at.
pub open spec fn checked_anchor_item(
    c: CheckView,
    root: Seq<char>,
    item: MetadataItemView<AnchorView>,
) -> CheckView {
    let provenance = sidecar_source(root, item.path, item.line);
    let id = item.value.id;
    CheckView {
        anchors: if c.anchors.contains_key(id) {
            c.anchors
        } else {
            c.anchors.insert(id, SeenAnchorView::Sidecar(item.value.target, provenance))
        },
        diagnostics: c.diagnostics + anchor_problems(
            with_repository_path(item.value),
            provenance,
        ) + said_if(
            c.anchors.contains_key(id),
            said_of_duplicate("duplicate-anchor"@, id, provenance, first_place(c.anchors[id])),
        ),
        ..c
    }
}

/// What was seen once the first `n` anchors of metadata files are looked at.
pub open spec fn checked_anchor_items(
    c: CheckView,
    root: Seq<char>,
    items: Seq<MetadataItemView<AnchorView>>,
    n: int,
) -> CheckView
    decreases n,
{
    if n <= 0 {
        c
    } else {
        checked_anchor_item(checked_anchor_items(c, root, items, n - 1), root, items[n - 1])
    }
}

/// Looks at the anchor of a metadata file.
fn check_anchor_item(check: &mut Check, repo: &Repository, item: &MetadataItem<Anchor>)
    ensures
        final(check)@ == checked_anchor_item(old(check)@, repo.root@, item@),
{
    let provenance = sidecar_provenance(repo, item.path.as_str(), item.line);
    let anchor = in_repository(&item.value);
    validate_anchor(&anchor, &provenance, &mut check.diagnostics);
    let id = item.value.id.as_str();
    let said = match check.anchors.get(id) {
        Some(SeenAnchor::Sidecar(_, earlier)) => Some(
            duplicate("duplicate-anchor", id, &provenance, earlier),
        ),
        Some(SeenAnchor::Annotation(indexed)) => Some(
            duplicate("duplicate-anchor", id, &provenance, &indexed.provenance),
        ),
        None => None,
    };
    match said {
        Some(diagnostic) => {
            push_item(&mut check.diagnostics, diagnostic);
        },
        None => {
            check.anchors.insert(
                item.value.id.clone(),
                SeenAnchor::Sidecar(copy_option(&item.value.target), provenance),
            );
        },
    }
    assert(check@ =~= checked_anchor_item(old(check)@, repo.root@, item@));
}

/// What was seen once the strand of an annotation is looked at.
pub open spec fn checked_source_strand(c: CheckView, indexed: IndexedView<StrandView>) -> CheckView {
    let id = indexed.value.id;
    if !c.strands.contains_key(id) {
        CheckView { strands: c.strands.insert(id, indexed.provenance), ..c }
    } else {
        CheckView {
            diagnostics: c.diagnostics + said_if(
                c.strands[id].source == "annotation"@,
                said_of_duplicate(
                    "duplicate-strand"@,
                    id,
                    indexed.provenance,
                    c.strands[id],
                ),
            ),
            ..c
        }
    }
}

/// What was seen once the first `n` strands of annotations are looked at.
pub open spec fn checked_source_strands(
    c: CheckView,
    strands: Seq<IndexedView<StrandView>>,
    n: int,
) -> CheckView
    decreases n,
{
    if n <= 0 {
        c
    } else {
        checked_source_strand(checked_source_strands(c, strands, n - 1), strands[n - 1])
    }
}

/// Looks at the strand of an annotation.
fn check_source_strand(check: &mut Check, indexed: &Indexed<Strand>)
    ensures
        final(check)@ == checked_source_strand(old(check)@, indexed@),
{
    let id = indexed.value.id.as_str();
    let (known, said) = match check.strands.get(id) {
        None => (false, None),
        Some(earlier) => (
            true,
            if same_text(earlier.source.as_str(), "annotation") {
                Some(duplicate("duplicate-strand", id, &indexed.provenance, earlier))
            } else {
                None
            },
        ),
    };
    if !known {
        check.strands.insert(indexed.value.id.clone(), indexed.provenance.duplicate());
    } else {
        match said {
            None => {},
            Some(diagnostic) => {
                push_item(&mut check.diagnostics, diagnostic);
            },
        }
    }
    assert(check@ =~= checked_source_strand(old(check)@, indexed@));
}

/// What was seen once the anchor of an annotation is looked at.
pub open spec fn checked_source_anchor(c: CheckView, indexed: IndexedView<AnchorView>) -> CheckView {
    let id = indexed.value.id;
    if !c.anchors.contains_key(id) {
        CheckView { anchors: c.anchors.insert(id, SeenAnchorView::Annotation(indexed)), ..c }
    } else {
        match c.anchors[id] {
            SeenAnchorView::Sidecar(target, provenance) => CheckView {
                anchors: if target is None {
                    c.anchors.insert(
                        id,
                        SeenAnchorView::Sidecar(indexed.value.target, provenance),
                    )
                } else {
                    c.anchors
                },
                diagnostics: c.diagnostics + said_if(
                    targets_differ(target, indexed.value.target),
                    said_of_conflict(id, indexed.provenance),
                ),
                ..c
            },
            SeenAnchorView::Annotation(earlier) => CheckView {
                diagnostics: c.diagnostics + said_if(
                    earlier.value.location != indexed.value.location || earlier.value.target
                        != indexed.value.target,
                    said_of_duplicate(
                        "duplicate-anchor"@,
                        id,
                        indexed.provenance,
                        earlier.provenance,
                    ),
                ),
                ..c
            },
        }
    }
}

/// What was seen once the first `n` anchors of annotations are looked at.
pub open spec fn checked_source_anchors(
    c: CheckView,
    anchors: Seq<IndexedView<AnchorView>>,
    n: int,
) -> CheckView
    decreases n,
{
    if n <= 0 {
        c
    } else {
        checked_source_anchor(checked_source_anchors(c, anchors, n - 1), anchors[n - 1])
    }
}

/// Looks at the anchor of an annotation.
fn check_source_anchor(check: &mut Check, indexed: &Indexed<Anchor>)
    ensures
        final(check)@ == checked_source_anchor(old(check)@, indexed@),
{
    let id = indexed.value.id.as_str();
    let mut said: Option<Diagnostic> = None;
    let mut seen: Option<SeenAnchor> = None;
    match check.anchors.get(id) {
        None => {
            seen = Some(SeenAnchor::Annotation(indexed.duplicate()));
        },
        Some(SeenAnchor::Sidecar(target, provenance)) => {
            if differ(target, &indexed.value.target) {
                said = Some(conflict(id, &indexed.provenance));
            }
            if target.is_none() {
                seen =
                Some(
                    SeenAnchor::Sidecar(
                        copy_option(&indexed.value.target),
                        provenance.duplicate(),
                    ),
                );
            }
        },
        Some(SeenAnchor::Annotation(earlier)) => {
            if !same_location(&earlier.value.location, &indexed.value.location) || !same_option(
                &earlier.value.target,
                &indexed.value.target,
            ) {
                said =
                Some(
                    duplicate(
                        "duplicate-anchor",
                        id,
                        &indexed.provenance,
                        &earlier.provenance,
                    ),
                );
            }
        },
    }
    match seen {
        None => {},
        Some(anchor) => {
            check.anchors.insert(indexed.value.id.clone(), anchor);
        },
    }
    match said {
        None => {},
        Some(diagnostic) => {
            push_item(&mut check.diagnostics, diagnostic);
        },
    }
    assert(check@ =~= checked_source_anchor(old(check)@, indexed@));
}

/// What was seen once the annotations of a file are looked at.
pub open spec fn checked_document(c: CheckView, document: SourceDocumentView) -> CheckView {
    checked_source_anchors(
        checked_source_strands(
            CheckView { diagnostics: c.diagnostics + document.diagnostics, ..c },
            document.strands,
            document.strands.len() as int,
        ),
        document.anchors,
        document.anchors.len() as int,
    )
}

/// What was seen once the annotations of the first `n` files are looked at.
pub open spec fn checked_documents(
    c: CheckView,
    documents: Map<Seq<char>, SourceDocumentView>,
    n: int,
) -> CheckView
    decreases n,
{
    if n <= 0 {
        c
    } else {
        checked_document(
            checked_documents(c, documents, n - 1),
            documents[ordered(documents.dom())[n - 1]],
        )
    }
}

/// Looks at the annotations of a file.
fn check_document(check: &mut Check, document: &SourceDocument)
    ensures
        final(check)@ == checked_document(old(check)@, document@),
{
    add_copies(&mut check.diagnostics, &document.diagnostics);
    let ghost start = check@;
    assert(start =~= (CheckView {
        diagnostics: old(check)@.diagnostics + document@.diagnostics,
        ..old(check)@
    }));
    let mut i: usize = 0;
    while i < document.strands.len()
        invariant
            i <= document.strands@.len(),
            check@ == checked_source_strands(start, document@.strands, i as int),
        decreases document.strands@.len() - i,
    {
        assert(document@.strands[i as int] == document.strands@[i as int]@);
        check_source_strand(check, &document.strands[i]);
        i += 1;
    }
    let ghost middle = check@;
    let mut k: usize = 0;
    while k < document.anchors.len()
        invariant
            k <= document.anchors@.len(),
            check@ == checked_source_anchors(middle, document@.anchors, k as int),
        decreases document.anchors@.len() - k,
    {
        assert(document@.anchors[k as int] == document.anchors@[k as int]@);
        check_source_anchor(check, &document.anchors[k]);
        k += 1;
    }
}

/// The strands that only the first `n` memberships speak of, and what is said of them.
pub open spec fn implicit_strands(
    known: Set<Seq<char>>,
    memberships: Seq<IndexedMemberView>,
    n: int,
) -> (Set<Seq<char>>, Seq<DiagnosticView>)
    decreases n,
{
    if n <= 0 {
        (Set::empty(), seq![])
    } else {
        let before = implicit_strands(known, memberships, n - 1);
        let m = memberships[n - 1];
        if m.strand is Some && !known.contains(m.strand->0) && !before.0.contains(m.strand->0) {
            (
                before.0.insert(m.strand->0),
                before.1.push(said_of_implicit(m.strand->0, m.provenance)),
            )
        } else {
            before
        }
    }
}

/// What is wrong with metadata files, annotations and the graph that they make, with the edges
/// as they are stated.
pub open spec fn problems_of(
    root: Seq<char>,
    loaded: LoadedMetadataView,
    index: IndexView,
    memberships: Seq<IndexedMemberView>,
    relations: Seq<IndexedRelationView>,
) -> Seq<DiagnosticView> {
    let none = CheckView {
        strands: Map::empty(),
        anchors: Map::empty(),
        diagnostics: loaded.diagnostics,
    };
    let strands = checked_strand_items(none, root, loaded.strands, loaded.strands.len() as int);
    let anchors = checked_anchor_items(strands, root, loaded.anchors, loaded.anchors.len() as int);
    let sources = checked_documents(
        anchors,
        index.source_documents,
        ordered(index.source_documents.dom()).len() as int,
    );
    sort_diagnostics(
        sources.diagnostics + implicit_strands(
            sources.strands.dom(),
            memberships,
            memberships.len() as int,
        ).1 + graph_problems(index.strands.dom(), index.anchors.dom(), memberships, relations),
    )
}

/// Adds what is said of strands that only memberships speak of.
fn warn_of_implicit_strands(
    known: &StringMap<Provenance>,
    memberships: &Vec<IndexedMember>,
    diagnostics: &mut Vec<Diagnostic>,
)
    ensures
        final(diagnostics).deep_view() == old(diagnostics).deep_view() + implicit_strands(
            known@.dom(),
            memberships.deep_view(),
            memberships@.len() as int,
        ).1,
{
    let ghost start = diagnostics.deep_view();
    let ghost ms = memberships.deep_view();
    let ghost dom = known@.dom();
    let mut seen = StringSet::new();
    let mut i: usize = 0;
    assert(start + implicit_strands(dom, ms, 0).1 =~= start);
    while i < memberships.len()
        invariant
            i <= memberships@.len(),
            ms == memberships.deep_view(),
            dom == known@.dom(),
            seen@ == implicit_strands(dom, ms, i as int).0,
            diagnostics.deep_view() == start + implicit_strands(dom, ms, i as int).1,
        decreases memberships@.len() - i,
    {
        assert(ms[i as int] == memberships@[i as int]@);
        match &memberships[i].strand {
            None => {},
            Some(id) => {
                if !known.contains_key(id.as_str()) && !seen.contains(id.as_str()) {
                    seen.insert(id.clone());
                    push_item(
                        diagnostics,
                        warn_of_implicit(id.as_str(), &memberships[i].provenance),
                    );
                }
            },
        }
        assert(diagnostics.deep_view() =~= start + implicit_strands(dom, ms, i + 1).1);
        i += 1;
    }
}

/// What is wrong with metadata files, annotations and the graph that they make, with the edges
/// as they are stated.
pub fn recompute_diagnostics(
    repo: &Repository,
    loaded: &LoadedMetadata,
    index: &Index,
    memberships: &Vec<IndexedMember>,
    relations: &Vec<IndexedRelation>,
) -> (r: Vec<Diagnostic>)
    ensures
        r.deep_view() == problems_of(
            repo.root@,
            loaded@,
            index@,
            memberships.deep_view(),
            relations.deep_view(),
        ),
{
    let mut check = Check {
        strands: StringMap::new(),
        anchors: StringMap::new(),
        diagnostics: loaded.diagnostics.duplicate(),
    };
    let ghost root = repo.root@;
    let ghost none = CheckView {
        strands: Map::empty(),
        anchors: Map::empty(),
        diagnostics: loaded@.diagnostics,
    };
    assert(check@ =~= none);
    let mut i: usize = 0;
    while i < loaded.strands.len()
        invariant
            i <= loaded.strands@.len(),
            root == repo.root@,
            check@ == checked_strand_items(none, root, loaded@.strands, i as int),
        decreases loaded.strands@.len() - i,
    {
        assert(loaded@.strands[i as int] == loaded.strands@[i as int]@);
        check_strand_item(&mut check, repo, &loaded.strands[i]);
        i += 1;
    }
    let ghost strands = check@;
    let mut k: usize = 0;
    while k < loaded.anchors.len()
        invariant
            k <= loaded.anchors@.len(),
            root == repo.root@,
            check@ == checked_anchor_items(strands, root, loaded@.anchors, k as int),
        decreases loaded.anchors@.len() - k,
    {
        assert(loaded@.anchors[k as int] == loaded.anchors@[k as int]@);
        check_anchor_item(&mut check, repo, &loaded.anchors[k]);
        k += 1;
    }
    let ghost anchors = check@;
    let n: usize = index.source_documents.len();
    let mut d: usize = 0;
    while d < n
        invariant
            d <= n,
            n == ordered(index@.source_documents.dom()).len(),
            check@ == checked_documents(anchors, index@.source_documents, d as int),
        decreases n - d,
    {
        check_document(&mut check, index.source_documents.value_at(d));
        d += 1;
    }
    let mut diagnostics = check.diagnostics;
    warn_of_implicit_strands(&check.strands, memberships, &mut diagnostics);
    validate_graph(&index.strands, &index.anchors, memberships, relations, &mut diagnostics);
    assert(memberships@.len() == memberships.deep_view().len());
    sorted_diagnostics(&diagnostics)
}

/// The memberships of the first `n` strands of metadata files.
pub open spec fn sidecar_memberships(
    root: Seq<char>,
    items: Seq<MetadataItemView<StrandView>>,
    n: int,
) -> Seq<IndexedMemberView>
    decreases n,
{
    if n <= 0 {
        seq![]
    } else {
        sidecar_memberships(root, items, n - 1) + strand_edges(
            items[n - 1].value,
            sidecar_source(root, items[n - 1].path, items[n - 1].line),
        )
    }
}

/// The relations of the first `n` strands of metadata files.
pub open spec fn sidecar_links(
    root: Seq<char>,
    items: Seq<MetadataItemView<StrandView>>,
    n: int,
) -> Seq<IndexedRelationView>
    decreases n,
{
    if n <= 0 {
        seq![]
    } else {
        sidecar_links(root, items, n - 1) + strand_links(
            items[n - 1].value,
            sidecar_source(root, items[n - 1].path, items[n - 1].line),
        )
    }
}

/// The relations of metadata files that belong to no strand.
pub open spec fn global_links(root: Seq<char>, items: Seq<MetadataItemView<RelationView>>) -> Seq<
    IndexedRelationView,
> {
    Seq::new(
        items.len(),
        |i: int|
            IndexedRelationView {
                strand: None,
                relation: items[i].value,
                provenance: sidecar_source(root, items[i].path, items[i].line),
            },
    )
}

/// The memberships that the annotations of the first `n` files state.
pub open spec fn document_memberships(
    documents: Map<Seq<char>, SourceDocumentView>,
    n: int,
) -> Seq<IndexedMemberView>
    decreases n,
{
    if n <= 0 {
        seq![]
    } else {
        document_memberships(documents, n - 1)
            + documents[ordered(documents.dom())[n - 1]].memberships
    }
}

/// The relations that the annotations of the first `n` files state.
pub open spec fn document_relations(
    documents: Map<Seq<char>, SourceDocumentView>,
    n: int,
) -> Seq<IndexedRelationView>
    decreases n,
{
    if n <= 0 {
        seq![]
    } else {
        document_relations(documents, n - 1) + documents[ordered(documents.dom())[n - 1]].relations
    }
}

/// The memberships that metadata files and annotations state.
pub open spec fn stated_memberships(
    root: Seq<char>,
    loaded: LoadedMetadataView,
    documents: Map<Seq<char>, SourceDocumentView>,
) -> Seq<IndexedMemberView> {
    sidecar_memberships(root, loaded.strands, loaded.strands.len() as int) + document_memberships(
        documents,
        ordered(documents.dom()).len() as int,
    )
}

/// The relations that metadata files and annotations state.
pub open spec fn stated_relations(
    root: Seq<char>,
    loaded: LoadedMetadataView,
    documents: Map<Seq<char>, SourceDocumentView>,
) -> Seq<IndexedRelationView> {
    sidecar_links(root, loaded.strands, loaded.strands.len() as int) + global_links(
        root,
        loaded.relations,
    ) + document_relations(documents, ordered(documents.dom()).len() as int)
}

/// The memberships that metadata files and annotations state.
fn state_memberships(
    repo: &Repository,
    loaded: &LoadedMetadata,
    documents: &StringMap<SourceDocument>,
) -> (r: Vec<IndexedMember>)
    ensures
        r.deep_view() == stated_memberships(repo.root@, loaded@, documents@),
{
    let mut out: Vec<IndexedMember> = Vec::new();
    let ghost root = repo.root@;
    let mut i: usize = 0;
    assert(out.deep_view() =~= seq![]);
    while i < loaded.strands.len()
        invariant
            i <= loaded.strands@.len(),
            root == repo.root@,
            out.deep_view() == sidecar_memberships(root, loaded@.strands, i as int),
        decreases loaded.strands@.len() - i,
    {
        let item = &loaded.strands[i];
        assert(loaded@.strands[i as int] == item@);
        let provenance = sidecar_provenance(repo, item.path.as_str(), item.line);
        add_strand_edges(&mut out, &item.value, &provenance);
        i += 1;
    }
    let ghost start = out.deep_view();
    let n: usize = documents.len();
    let mut k: usize = 0;
    assert(start + document_memberships(documents@, 0) =~= start);
    while k < n
        invariant
            k <= n,
            n == ordered(documents@.dom()).len(),
            out.deep_view() == start + document_memberships(documents@, k as int),
        decreases n - k,
    {
        add_copies(&mut out, &documents.value_at(k).memberships);
        assert(out.deep_view() =~= start + document_memberships(documents@, k + 1));
        k += 1;
    }
    out
}

/// The relations that metadata files and annotations state.
fn state_relations(
    repo: &Repository,
    loaded: &LoadedMetadata,
    documents: &StringMap<SourceDocument>,
) -> (r: Vec<IndexedRelation>)
    ensures
        r.deep_view() == stated_relations(repo.root@, loaded@, documents@),
{
    let mut out: Vec<IndexedRelation> = Vec::new();
    let ghost root = repo.root@;
    let mut i: usize = 0;
    assert(out.deep_view() =~= seq![]);
    while i < loaded.strands.len()
        invariant
            i <= loaded.strands@.len(),
            root == repo.root@,
            out.deep_view() == sidecar_links(root, loaded@.strands, i as int),
        decreases loaded.strands@.len() - i,
    {
        let item = &loaded.strands[i];
        assert(loaded@.strands[i as int] == item@);
        let provenance = sidecar_provenance(repo, item.path.as_str(), item.line);
        add_strand_links(&mut out, &item.value, &provenance);
        i += 1;
    }
    let ghost links = out.deep_view();
    let ghost all = global_links(root, loaded@.relations);
    let mut j: usize = 0;
    assert(links + all.take(0) =~= links);
    while j < loaded.relations.len()
        invariant
            j <= loaded.relations@.len(),
            root == repo.root@,
            all == global_links(root, loaded@.relations),
            out.deep_view() == links + all.take(j as int),
        decreases loaded.relations@.len() - j,
    {
        let item = &loaded.relations[j];
        assert(loaded@.relations[j as int] == item@);
        push_item(
            &mut out,
            IndexedRelation {
                strand: None,
                relation: item.value.duplicate(),
                provenance: sidecar_provenance(repo, item.path.as_str(), item.line),
            },
        );
        assert(out.deep_view() =~= links + all.take(j + 1));
        j += 1;
    }
    assert(all.take(j as int) =~= all);
    let ghost start = out.deep_view();
    let n: usize = documents.len();
    let mut k: usize = 0;
    assert(start + document_relations(documents@, 0) =~= start);
    while k < n
        invariant
            k <= n,
            n == ordered(documents@.dom()).len(),
            out.deep_view() == start + document_relations(documents@, k as int),
        decreases n - k,
    {
        add_copies(&mut out, &documents.value_at(k).relations);
        assert(out.deep_view() =~= start + document_relations(documents@, k + 1));
        k += 1;
    }
    out
}

/// The first strand with an id in a metadata file, from position `i` on.
pub open spec fn sidecar_strand(
    root: Seq<char>,
    items: Seq<MetadataItemView<StrandView>>,
    id: Seq<char>,
    i: int,
) -> Option<IndexedView<StrandView>>
    decreases items.len() - i,
{
    if i >= items.len() {
        None
    } else if items[i].value.id == id {
        Some(
            IndexedView {
                value: items[i].value,
                provenance: sidecar_source(root, items[i].path, items[i].line),
            },
        )
    } else {
        sidecar_strand(root, items, id, i + 1)
    }
}

/// The first strand with an id among some strands, from position `i` on.
pub open spec fn strand_among(strands: Seq<IndexedView<StrandView>>, id: Seq<char>, i: int) -> Option<
    IndexedView<StrandView>,
>
    decreases strands.len() - i,
{
    if i >= strands.len() {
        None
    } else if strands[i].value.id == id {
        Some(strands[i])
    } else {
        strand_among(strands, id, i + 1)
    }
}

/// The first strand with an id in the annotations, from file `i` on.
pub open spec fn source_strand(
    documents: Map<Seq<char>, SourceDocumentView>,
    id: Seq<char>,
    i: int,
) -> Option<IndexedView<StrandView>>
    decreases ordered(documents.dom()).len() - i,
{
    if i >= ordered(documents.dom()).len() {
        None
    } else {
        match strand_among(documents[ordered(documents.dom())[i]].strands, id, 0) {
            Some(strand) => Some(strand),
            None => source_strand(documents, id, i + 1),
        }
    }
}

/// The strand that a membership speaks of, from position `i` on.
pub open spec fn spoken_strand(memberships: Seq<IndexedMemberView>, id: Seq<char>, i: int) -> Option<
    IndexedView<StrandView>,
>
    decreases memberships.len() - i,
{
    if i >= memberships.len() {
        None
    } else if memberships[i].strand == Some(id) {
        Some(
            IndexedView { value: implicit_strand(id), provenance: memberships[i].provenance },
        )
    } else {
        spoken_strand(memberships, id, i + 1)
    }
}

/// The strand with an id: of a metadata file, else of an annotation, else the one that
/// memberships speak of.
pub open spec fn current_strand(
    root: Seq<char>,
    loaded: LoadedMetadataView,
    documents: Map<Seq<char>, SourceDocumentView>,
    memberships: Seq<IndexedMemberView>,
    id: Seq<char>,
) -> Option<IndexedView<StrandView>> {
    match sidecar_strand(root, loaded.strands, id, 0) {
        Some(strand) => Some(strand),
        None => match source_strand(documents, id, 0) {
            Some(strand) => Some(strand),
            None => spoken_strand(memberships, id, 0),
        },
    }
}

/// The first strand with an id in a metadata file.
fn find_sidecar_strand(repo: &Repository, items: &Vec<MetadataItem<Strand>>, id: &str) -> (r: Option<
    Indexed<Strand>,
>)
    ensures
        r.deep_view() == sidecar_strand(repo.root@, items.deep_view(), id@, 0),
{
    let ghost all = items.deep_view();
    let mut i: usize = 0;
    while i < items.len()
        invariant
            i <= items@.len(),
            all == items.deep_view(),
            sidecar_strand(repo.root@, all, id@, 0) == sidecar_strand(
                repo.root@,
                all,
                id@,
                i as int,
            ),
        decreases items@.len() - i,
    {
        assert(all[i as int] == items@[i as int]@);
        if same_text(items[i].value.id.as_str(), id) {
            return Some(
                Indexed {
                    value: items[i].value.duplicate(),
                    provenance: sidecar_provenance(repo, items[i].path.as_str(), items[i].line),
                },
            );
        }
        i += 1;
    }
    None
}

/// The first strand with an id among some strands.
fn find_strand_among(strands: &Vec<Indexed<Strand>>, id: &str) -> (r: Option<Indexed<Strand>>)
    ensures
        r.deep_view() == strand_among(strands.deep_view(), id@, 0),
{
    let ghost all = strands.deep_view();
    let mut i: usize = 0;
    while i < strands.len()
        invariant
            i <= strands@.len(),
            all == strands.deep_view(),
            strand_among(all, id@, 0) == strand_among(all, id@, i as int),
        decreases strands@.len() - i,
    {
        assert(all[i as int] == strands@[i as int]@);
        if same_text(strands[i].value.id.as_str(), id) {
            return Some(strands[i].duplicate());
        }
        i += 1;
    }
    None
}

/// The strand with an id.
fn find_current_strand(
    repo: &Repository,
    loaded: &LoadedMetadata,
    documents: &StringMap<SourceDocument>,
    memberships: &Vec<IndexedMember>,
    id: &String,
) -> (r: Option<Indexed<Strand>>)
    ensures
        r.deep_view() == current_strand(
            repo.root@,
            loaded@,
            documents@,
            memberships.deep_view(),
            id@,
        ),
{
    let sidecar = find_sidecar_strand(repo, &loaded.strands, id.as_str());
    if sidecar.is_some() {
        return sidecar;
    }
    let n: usize = documents.len();
    let mut d: usize = 0;
    while d < n
        invariant
            d <= n,
            n == ordered(documents@.dom()).len(),
            sidecar_strand(repo.root@, loaded@.strands, id@, 0) is None,
            source_strand(documents@, id@, 0) == source_strand(documents@, id@, d as int),
        decreases n - d,
    {
        let found = find_strand_among(&documents.value_at(d).strands, id.as_str());
        if found.is_some() {
            return found;
        }
        d += 1;
    }
    let ghost ms = memberships.deep_view();
    let mut i: usize = 0;
    while i < memberships.len()
        invariant
            i <= memberships@.len(),
            ms == memberships.deep_view(),
            sidecar_strand(repo.root@, loaded@.strands, id@, 0) is None,
            source_strand(documents@, id@, 0) is None,
            spoken_strand(ms, id@, 0) == spoken_strand(ms, id@, i as int),
        decreases memberships@.len() - i,
    {
        assert(ms[i as int] == memberships@[i as int]@);
        if crate::text::option_is(&memberships[i].strand, id.as_str()) {
            return Some(
                Indexed {
                    value: make_implicit_strand(id),
                    provenance: memberships[i].provenance.duplicate(),
                },
            );
        }
        i += 1;
    }
    None
}

/// The first anchor with an id in a metadata file, from position `i` on.
pub open spec fn sidecar_anchor(
    root: Seq<char>,
    items: Seq<MetadataItemView<AnchorView>>,
    id: Seq<char>,
    i: int,
) -> Option<IndexedView<AnchorView>>
    decreases items.len() - i,
{
    if i >= items.len() {
        None
    } else if items[i].value.id == id {
        Some(
            IndexedView {
                value: with_repository_path(items[i].value),
                provenance: sidecar_source(root, items[i].path, items[i].line),
            },
        )
    } else {
        sidecar_anchor(root, items, id, i + 1)
    }
}

/// An anchor once an annotation with its id is looked at: an annotation locates an anchor of
/// a metadata file; of annotations the first one counts.
pub open spec fn located_by(
    selected: Option<IndexedView<AnchorView>>,
    source: IndexedView<AnchorView>,
) -> Option<IndexedView<AnchorView>> {
    match selected {
        None => Some(source),
        Some(existing) => if existing.provenance.source == "sidecar"@ {
            Some(IndexedView { value: merged_anchor(existing.value, source.value), ..existing })
        } else {
            selected
        },
    }
}

/// An anchor once the first `n` anchors of annotations are looked at.
pub open spec fn located_among(
    selected: Option<IndexedView<AnchorView>>,
    anchors: Seq<IndexedView<AnchorView>>,
    id: Seq<char>,
    n: int,
) -> Option<IndexedView<AnchorView>>
    decreases n,
{
    if n <= 0 {
        selected
    } else {
        let before = located_among(selected, anchors, id, n - 1);
        if anchors[n - 1].value.id == id {
            located_by(before, anchors[n - 1])
        } else {
            before
        }
    }
}

/// An anchor once the annotations of the first `n` files are looked at.
pub open spec fn located_in(
    selected: Option<IndexedView<AnchorView>>,
    documents: Map<Seq<char>, SourceDocumentView>,
    id: Seq<char>,
    n: int,
) -> Option<IndexedView<AnchorView>>
    decreases n,
{
    if n <= 0 {
        selected
    } else {
        let anchors = documents[ordered(documents.dom())[n - 1]].anchors;
        located_among(
            located_in(selected, documents, id, n - 1),
            anchors,
            id,
            anchors.len() as int,
        )
    }
}

/// Where a membership speaks of an anchor, from position `i` on.
pub open spec fn member_place(memberships: Seq<IndexedMemberView>, id: Seq<char>, i: int) -> Option<
    ProvenanceView,
>
    decreases memberships.len() - i,
{
    if i >= memberships.len() {
        None
    } else if memberships[i].member.anchor == id {
        Some(memberships[i].provenance)
    } else {
        member_place(memberships, id, i + 1)
    }
}

/// Where a relation speaks of an anchor, from position `i` on.
pub open spec fn relation_place(
    relations: Seq<IndexedRelationView>,
    id: Seq<char>,
    i: int,
) -> Option<ProvenanceView>
    decreases relations.len() - i,
{
    if i >= relations.len() {
        None
    } else if relations[i].relation.from == id || relations[i].relation.to == id {
        Some(relations[i].provenance)
    } else {
        relation_place(relations, id, i + 1)
    }
}

/// An anchor that edges know by its target alone.
pub open spec fn spoken_anchor(
    memberships: Seq<IndexedMemberView>,
    relations: Seq<IndexedRelationView>,
    id: Seq<char>,
) -> Option<IndexedView<AnchorView>> {
    if !is_target(id) {
        None
    } else {
        match member_place(memberships, id, 0) {
            Some(provenance) => Some(IndexedView { value: target_anchor(id), provenance }),
            None => match relation_place(relations, id, 0) {
                Some(provenance) => Some(IndexedView { value: target_anchor(id), provenance }),
                None => None,
            },
        }
    }
}

/// The anchor with an id: of a metadata file, located by annotations; else of an annotation;
/// else one that edges know by its target alone.
pub open spec fn current_anchor(
    root: Seq<char>,
    loaded: LoadedMetadataView,
    documents: Map<Seq<char>, SourceDocumentView>,
    memberships: Seq<IndexedMemberView>,
    relations: Seq<IndexedRelationView>,
    id: Seq<char>,
) -> Option<IndexedView<AnchorView>> {
    let stated = located_in(
        sidecar_anchor(root, loaded.anchors, id, 0),
        documents,
        id,
        ordered(documents.dom()).len() as int,
    );
    let selected = match stated {
        Some(anchor) => Some(anchor),
        None => spoken_anchor(memberships, relations, id),
    };
    match selected {
        None => None,
        Some(indexed) => Some(
            IndexedView { value: with_target_place(indexed.value), ..indexed },
        ),
    }
}

/// The first anchor with an id in a metadata file.
fn find_sidecar_anchor(repo: &Repository, items: &Vec<MetadataItem<Anchor>>, id: &str) -> (r: Option<
    Indexed<Anchor>,
>)
    ensures
        r.deep_view() == sidecar_anchor(repo.root@, items.deep_view(), id@, 0),
{
    let ghost all = items.deep_view();
    let mut i: usize = 0;
    while i < items.len()
        invariant
            i <= items@.len(),
            all == items.deep_view(),
            sidecar_anchor(repo.root@, all, id@, 0) == sidecar_anchor(
                repo.root@,
                all,
                id@,
                i as int,
            ),
        decreases items@.len() - i,
    {
        assert(all[i as int] == items@[i as int]@);
        if same_text(items[i].value.id.as_str(), id) {
            return Some(
                Indexed {
                    value: in_repository(&items[i].value),
                    provenance: sidecar_provenance(repo, items[i].path.as_str(), items[i].line),
                },
            );
        }
        i += 1;
    }
    None
}

/// An anchor once the anchors of annotations are looked at.
fn locate_among(
    selected: Option<Indexed<Anchor>>,
    anchors: &Vec<Indexed<Anchor>>,
    id: &str,
) -> (r: Option<Indexed<Anchor>>)
    ensures
        r.deep_view() == located_among(
            selected.deep_view(),
            anchors.deep_view(),
            id@,
            anchors@.len() as int,
        ),
{
    let ghost start = selected.deep_view();
    let ghost all = anchors.deep_view();
    let mut current = selected;
    let mut i: usize = 0;
    while i < anchors.len()
        invariant
            i <= anchors@.len(),
            all == anchors.deep_view(),
            current.deep_view() == located_among(start, all, id@, i as int),
        decreases anchors@.len() - i,
    {
        assert(all[i as int] == anchors@[i as int]@);
        if same_text(anchors[i].value.id.as_str(), id) {
            let next = match current {
                None => Some(anchors[i].duplicate()),
                Some(existing) => {
                    if same_text(existing.provenance.source.as_str(), "sidecar") {
                        let merged = merge_source_anchor(&existing.value, &anchors[i].value);
                        Some(Indexed { value: merged, provenance: existing.provenance })
                    } else {
                        Some(existing)
                    }
                },
            };
            current = next;
        }
        i += 1;
    }
    current
}

/// Where edges speak of an anchor.
fn spoken_place(
    memberships: &Vec<IndexedMember>,
    relations: &Vec<IndexedRelation>,
    id: &str,
) -> (r: Option<Provenance>)
    ensures
        r.deep_view() == match member_place(memberships.deep_view(), id@, 0) {
            Some(provenance) => Some(provenance),
            None => relation_place(relations.deep_view(), id@, 0),
        },
{
    let ghost ms = memberships.deep_view();
    let ghost rs = relations.deep_view();
    let mut i: usize = 0;
    while i < memberships.len()
        invariant
            i <= memberships@.len(),
            ms == memberships.deep_view(),
            member_place(ms, id@, 0) == member_place(ms, id@, i as int),
        decreases memberships@.len() - i,
    {
        assert(ms[i as int] == memberships@[i as int]@);
        if same_text(memberships[i].member.anchor.as_str(), id) {
            return Some(memberships[i].provenance.duplicate());
        }
        i += 1;
    }
    let mut k: usize = 0;
    while k < relations.len()
        invariant
            k <= relations@.len(),
            rs == relations.deep_view(),
            member_place(memberships.deep_view(), id@, 0) is None,
            relation_place(rs, id@, 0) == relation_place(rs, id@, k as int),
        decreases relations@.len() - k,
    {
        assert(rs[k as int] == relations@[k as int]@);
        if same_text(relations[k].relation.from.as_str(), id) || same_text(
            relations[k].relation.to.as_str(),
            id,
        ) {
            return Some(relations[k].provenance.duplicate());
        }
        k += 1;
    }
    None
}

/// The anchor with an id.
fn find_current_anchor(
    repo: &Repository,
    loaded: &LoadedMetadata,
    documents: &StringMap<SourceDocument>,
    memberships: &Vec<IndexedMember>,
    relations: &Vec<IndexedRelation>,
    id: &str,
) -> (r: Option<Indexed<Anchor>>)
    ensures
        r.deep_view() == current_anchor(
            repo.root@,
            loaded@,
            documents@,
            memberships.deep_view(),
            relations.deep_view(),
            id@,
        ),
{
    let mut selected = find_sidecar_anchor(repo, &loaded.anchors, id);
    let ghost start = selected.deep_view();
    let n: usize = documents.len();
    let mut d: usize = 0;
    while d < n
        invariant
            d <= n,
            n == ordered(documents@.dom()).len(),
            selected.deep_view() == located_in(start, documents@, id@, d as int),
        decreases n - d,
    {
        let anchors = &documents.value_at(d).anchors;
        assert(anchors@.len() == anchors.deep_view().len());
        let next = locate_among(selected, anchors, id);
        selected = next;
        d += 1;
    }
    let known = match selected {
        Some(indexed) => Some(indexed),
        None => {
            if looks_like_target(id) {
                match spoken_place(memberships, relations, id) {
                    Some(provenance) => Some(Indexed { value: make_target_anchor(id), provenance }),
                    None => None,
                }
            } else {
                None
            }
        },
    };
    match known {
        None => None,
        Some(indexed) => {
            let value = place_by_target(&indexed.value);
            Some(Indexed { value, provenance: indexed.provenance })
        },
    }
}

/// The strands once the first `n` of those that a change concerns are looked up again.
pub open spec fn refreshed_strands(
    strands: Map<Seq<char>, IndexedView<StrandView>>,
    root: Seq<char>,
    loaded: LoadedMetadataView,
    documents: Map<Seq<char>, SourceDocumentView>,
    memberships: Seq<IndexedMemberView>,
    ids: Seq<Seq<char>>,
    n: int,
) -> Map<Seq<char>, IndexedView<StrandView>>
    decreases n,
{
    if n <= 0 {
        strands
    } else {
        let before = refreshed_strands(
            strands,
            root,
            loaded,
            documents,
            memberships,
            ids,
            n - 1,
        );
        match current_strand(root, loaded, documents, memberships, ids[n - 1]) {
            Some(strand) => before.insert(ids[n - 1], strand),
            None => before.remove(ids[n - 1]),
        }
    }
}

/// The anchors once the first `n` of those that a change concerns are looked up again.
pub open spec fn refreshed_anchors(
    anchors: Map<Seq<char>, IndexedView<AnchorView>>,
    root: Seq<char>,
    loaded: LoadedMetadataView,
    documents: Map<Seq<char>, SourceDocumentView>,
    memberships: Seq<IndexedMemberView>,
    relations: Seq<IndexedRelationView>,
    ids: Seq<Seq<char>>,
    n: int,
) -> Map<Seq<char>, IndexedView<AnchorView>>
    decreases n,
{
    if n <= 0 {
        anchors
    } else {
        let before = refreshed_anchors(
            anchors,
            root,
            loaded,
            documents,
            memberships,
            relations,
            ids,
            n - 1,
        );
        match current_anchor(root, loaded, documents, memberships, relations, ids[n - 1]) {
            Some(anchor) => before.insert(ids[n - 1], anchor),
            None => before.remove(ids[n - 1]),
        }
    }
}

/// An index whose graph is brought up to date: `strands` and `anchors` are what a change
/// concerns. The edges are stated anew from metadata files and from what is known of all
/// files, so that they come in the order that a new index has.
pub open spec fn refreshed_graph(
    root: Seq<char>,
    loaded: LoadedMetadataView,
    index: IndexView,
    strands: Set<Seq<char>>,
    anchors: Set<Seq<char>>,
) -> IndexView {
    let documents = index.source_documents;
    let memberships = stated_memberships(root, loaded, documents);
    let relations = stated_relations(root, loaded, documents);
    let graph = IndexView {
        memberships: listed_memberships(memberships),
        relations: listed_relations(relations),
        strands: refreshed_strands(
            index.strands,
            root,
            loaded,
            documents,
            memberships,
            ordered(strands),
            ordered(strands).len() as int,
        ),
        anchors: refreshed_anchors(
            index.anchors,
            root,
            loaded,
            documents,
            memberships,
            relations,
            ordered(anchors),
            ordered(anchors).len() as int,
        ),
        ..index
    };
    IndexView { diagnostics: problems_of(root, loaded, graph, memberships, relations), ..graph }
}

/// Brings the graph of an index up to date.
pub fn refresh_graph(
    repo: &Repository,
    loaded: &LoadedMetadata,
    index: &mut Index,
    affected_strands: &StringSet,
    affected_anchors: &StringSet,
)
    ensures
        final(index)@ == refreshed_graph(
            repo.root@,
            loaded@,
            old(index)@,
            affected_strands@,
            affected_anchors@,
        ),
{
    let ghost start = index@;
    let ghost root = repo.root@;
    let memberships = state_memberships(repo, loaded, &index.source_documents);
    let relations = state_relations(repo, loaded, &index.source_documents);
    let ghost ms = memberships.deep_view();
    let ghost rs = relations.deep_view();
    let mut strands = index.strands.duplicate();
    let n: usize = affected_strands.len();
    let ghost strand_ids = ordered(affected_strands@);
    let mut i: usize = 0;
    while i < n
        invariant
            i <= n,
            n == ordered(affected_strands@).len(),
            strand_ids == ordered(affected_strands@),
            root == repo.root@,
            ms == memberships.deep_view(),
            index@ == start,
            strands@ == refreshed_strands(
                start.strands,
                root,
                loaded@,
                start.source_documents,
                ms,
                strand_ids,
                i as int,
            ),
        decreases n - i,
    {
        let id = affected_strands.item_at(i);
        match find_current_strand(repo, loaded, &index.source_documents, &memberships, id) {
            Some(strand) => {
                strands.insert(id.clone(), strand);
            },
            None => {
                strands.take(id.as_str());
            },
        }
        i += 1;
    }
    let mut anchors = index.anchors.duplicate();
    let m: usize = affected_anchors.len();
    let ghost anchor_ids = ordered(affected_anchors@);
    let mut k: usize = 0;
    while k < m
        invariant
            k <= m,
            m == ordered(affected_anchors@).len(),
            anchor_ids == ordered(affected_anchors@),
            root == repo.root@,
            ms == memberships.deep_view(),
            rs == relations.deep_view(),
            index@ == start,
            anchors@ == refreshed_anchors(
                start.anchors,
                root,
                loaded@,
                start.source_documents,
                ms,
                rs,
                anchor_ids,
                k as int,
            ),
        decreases m - k,
    {
        let id = affected_anchors.item_at(k);
        match find_current_anchor(
            repo,
            loaded,
            &index.source_documents,
            &memberships,
            &relations,
            id.as_str(),
        ) {
            Some(anchor) => {
                anchors.insert(id.clone(), anchor);
            },
            None => {
                anchors.take(id.as_str());
            },
        }
        k += 1;
    }
    index.memberships = list_memberships(&memberships);
    index.relations = list_relations(&relations);
    index.strands = strands;
    index.anchors = anchors;
    let diagnostics = recompute_diagnostics(repo, loaded, index, &memberships, &relations);
    index.diagnostics = diagnostics;
    assert(index@ =~= refreshed_graph(
        root,
        loaded@,
        start,
        affected_strands@,
        affected_anchors@,
    ));
}

/// Which files are scanned for annotations.
pub struct ScanRules {
    /// Whether all files are looked at.
    pub all: bool,
    /// The files that are looked at where not all are.
    pub includes: globset::GlobSet,
    /// The files that are left out.
    pub excludes: globset::GlobSet,
}

/// What is wrong with the patterns of the files to scan.
pub open spec fn rules_problem(config: ConfigView) -> Option<Seq<char>> {
    match compile_problem(config.scan.includes, "scan.include"@) {
        Some(message) => Some(message),
        None => compile_problem(config.scan.exclude, "scan.exclude"@),
    }
}

/// Reads which files are scanned for annotations.
pub fn scan_rules(config: &Config) -> (r: Result<ScanRules, String>)
    ensures
        match r {
            Ok(rules) => rules_problem(config@) is None && rules.all == (
            config@.scan.includes.len() == 0) && set_globs(rules.includes)
                == config@.scan.includes && set_globs(rules.excludes) == config@.scan.exclude,
            Err(message) => rules_problem(config@) == Some(message@),
        },
{
    let includes = match compile_globs(&config.scan.includes, "scan.include") {
        Ok(set) => set,
        Err(message) => {
            return Err(message);
        },
    };
    let excludes = match compile_globs(&config.scan.exclude, "scan.exclude") {
        Ok(set) => set,
        Err(message) => {
            return Err(message);
        },
    };
    let all = config.scan.includes.len() == 0;
    assert(config.scan.includes@.len() == config.scan.includes.deep_view().len());
    Ok(ScanRules { all, includes, excludes })
}

/// Whether a file is one of the metadata, or the directory of the metadata itself.
pub open spec fn is_metadata(root: Seq<char>, metadata_dir: Seq<char>, relative: Seq<char>) -> bool {
    let directory = relative_path(root, metadata_dir);
    relative == directory || starts_with(relative, directory + "/"@)
}

/// Whether a file is scanned for annotations.
pub open spec fn is_scanned(
    root: Seq<char>,
    metadata_dir: Seq<char>,
    rules: ScanRules,
    relative: Seq<char>,
) -> bool {
    &&& !is_metadata(root, metadata_dir, relative)
    &&& rules.all || one_matches(set_globs(rules.includes), relative)
    &&& !one_matches(set_globs(rules.excludes), relative)
}

/// Whether a file is scanned for annotations.
pub fn scans(repo: &Repository, rules: &ScanRules, relative: &str) -> (r: bool)
    ensures
        r == is_scanned(repo.root@, repo.metadata_dir@, *rules, relative@),
{
    let mut directory = repo.relative(repo.metadata_dir.as_str());
    if same_text(relative, directory.as_str()) {
        return false;
    }
    directory.push_str("/");
    let chars = chars_of(relative);
    if has_prefix(&chars, directory.as_str()) {
        return false;
    }
    (rules.all || set_matches(&rules.includes, relative)) && !set_matches(
        &rules.excludes,
        relative,
    )
}

/// A file of the repository as the file system describes it.
#[derive(Debug, Clone)]
pub struct SourceEntry {
    /// The path.
    pub path: String,
    /// The size in bytes.
    pub size: u64,
    /// When it was last written.
    pub modified_ns: u64,
}

/// The mathematical content of a [`SourceEntry`].
#[verifier::ext_equal]
pub ghost struct SourceEntryView {
    pub path: Seq<char>,
    pub size: u64,
    pub modified_ns: u64,
}

impl View for SourceEntry {
    type V = SourceEntryView;

    open spec fn view(&self) -> SourceEntryView {
        SourceEntryView {
            path: self.path.deep_view(),
            size: self.size.deep_view(),
            modified_ns: self.modified_ns.deep_view(),
        }
    }
}

impl DeepView for SourceEntry {
    type V = SourceEntryView;

    open spec fn deep_view(&self) -> SourceEntryView {
        self@
    }
}

impl Duplicate for SourceEntry {
    fn duplicate(&self) -> (r: Self) {
        SourceEntry {
            path: self.path.duplicate(),
            size: self.size,
            modified_ns: self.modified_ns,
        }
    }
}

/// The files that are scanned, and fingerprints of all that an index is made from.
#[derive(Debug)]
pub struct Manifest {
    /// The files, by path in the repository.
    pub files: StringMap<FileRecord>,
    /// The paths of the files, in order.
    pub source_paths: Vec<String>,
    /// The fingerprint of the files and of the metadata.
    pub fingerprint: String,
    /// The fingerprint of the metadata.
    pub metadata_fingerprint: String,
}

/// The mathematical content of a [`Manifest`].
#[verifier::ext_equal]
pub ghost struct ManifestView {
    pub files: Map<Seq<char>, FileRecordView>,
    pub source_paths: Seq<Seq<char>>,
    pub fingerprint: Seq<char>,
    pub metadata_fingerprint: Seq<char>,
}

impl View for Manifest {
    type V = ManifestView;

    open spec fn view(&self) -> ManifestView {
        ManifestView {
            files: self.files.deep_view(),
            source_paths: self.source_paths.deep_view(),
            fingerprint: self.fingerprint.deep_view(),
            metadata_fingerprint: self.metadata_fingerprint.deep_view(),
        }
    }
}

impl DeepView for Manifest {
    type V = ManifestView;

    open spec fn deep_view(&self) -> ManifestView {
        self@
    }
}

impl Duplicate for Manifest {
    fn duplicate(&self) -> (r: Self) {
        Manifest {
            files: self.files.duplicate(),
            source_paths: self.source_paths.duplicate(),
            fingerprint: self.fingerprint.duplicate(),
            metadata_fingerprint: self.metadata_fingerprint.duplicate(),
        }
    }
}

/// A file that was not read yet.
pub open spec fn unread_record(relative: Seq<char>, entry: SourceEntryView) -> FileRecordView {
    FileRecordView {
        path: relative,
        size: entry.size,
        modified_ns: entry.modified_ns,
        content_hash: None,
        search_bloom: seq![],
        rust_test_ranges: seq![],
    }
}

/// Whether a configuration selects a file: one outside the metadata that an include pattern
/// matches, where there are any, and no exclude pattern.
pub open spec fn is_selected(
    root: Seq<char>,
    metadata_dir: Seq<char>,
    scan: ScanConfigView,
    relative: Seq<char>,
) -> bool {
    &&& !is_metadata(root, metadata_dir, relative)
    &&& scan.includes.len() == 0 || one_matches(scan.includes, relative)
    &&& !one_matches(scan.exclude, relative)
}

/// The files among the first `n` that are selected and not too large, by path in the
/// repository, and their paths.
pub open spec fn listed_files(
    root: Seq<char>,
    metadata_dir: Seq<char>,
    scan: ScanConfigView,
    entries: Seq<SourceEntryView>,
    n: int,
) -> (Map<Seq<char>, FileRecordView>, Seq<Seq<char>>)
    decreases n,
{
    if n <= 0 {
        (Map::empty(), seq![])
    } else {
        let before = listed_files(root, metadata_dir, scan, entries, n - 1);
        let entry = entries[n - 1];
        let relative = relative_path(root, entry.path);
        if entry.size > scan.max_file_bytes || !is_selected(root, metadata_dir, scan, relative) {
            before
        } else {
            (
                before.0.insert(relative, unread_record(relative, entry)),
                before.1.push(entry.path),
            )
        }
    }
}

/// The fingerprint of the files, given their list as JSON, and of the metadata.
pub open spec fn workspace_hash(files_json: Seq<u8>, metadata: Seq<char>) -> Seq<char> {
    blake3_hex(blake3_bytes(files_json) + vstd::utf8::encode_utf8(metadata))
}

/// The bytes of the first `n` metadata files, each behind its path.
pub open spec fn metadata_bytes(root: Seq<char>, files: Seq<(Seq<char>, Seq<u8>)>, n: int) -> Seq<u8>
    decreases n,
{
    if n <= 0 {
        seq![]
    } else {
        metadata_bytes(root, files, n - 1) + vstd::utf8::encode_utf8(
            relative_path(root, files[n - 1].0),
        ) + files[n - 1].1
    }
}

/// The bytes of the first `n` configuration files.
pub open spec fn all_bytes(files: Seq<Seq<u8>>, n: int) -> Seq<u8>
    decreases n,
{
    if n <= 0 {
        seq![]
    } else {
        all_bytes(files, n - 1) + files[n - 1]
    }
}

/// Adds bytes behind others.
fn add_bytes(out: &mut Vec<u8>, more: &[u8])
    ensures
        final(out)@ == old(out)@ + more@,
{
    let mut i: usize = 0;
    assert(more@.take(0) =~= seq![]);
    while i < more.len()
        invariant
            i <= more@.len(),
            out@ == old(out)@ + more@.take(i as int),
        decreases more@.len() - i,
    {
        out.push(more[i]);
        assert(out@ =~= old(out)@ + more@.take(i + 1));
        i += 1;
    }
    assert(more@.take(more@.len() as int) =~= more@);
}

/// The metadata files as paths and bytes.
pub open spec fn path_bytes(files: Seq<(String, Vec<u8>)>) -> Seq<(Seq<char>, Seq<u8>)> {
    files.map_values(|file: (String, Vec<u8>)| (file.0@, file.1@))
}

/// The files as bytes.
pub open spec fn byte_views(files: Seq<Vec<u8>>) -> Seq<Seq<u8>> {
    files.map_values(|file: Vec<u8>| file@)
}

/// The fingerprint of the metadata: of the metadata files with their paths, and of the
/// configuration files.
pub fn metadata_fingerprint(
    repo: &Repository,
    files: &Vec<(String, Vec<u8>)>,
    configurations: &Vec<Vec<u8>>,
) -> (r: String)
    ensures
        r@ == blake3_hex(
            metadata_bytes(repo.root@, path_bytes(files@), files@.len() as int) + all_bytes(
                byte_views(configurations@),
                configurations@.len() as int,
            ),
        ),
{
    let mut bytes: Vec<u8> = Vec::new();
    let ghost all = path_bytes(files@);
    let ghost more = byte_views(configurations@);
    let mut i: usize = 0;
    while i < files.len()
        invariant
            i <= files@.len(),
            all == path_bytes(files@),
            bytes@ == metadata_bytes(repo.root@, all, i as int),
        decreases files@.len() - i,
    {
        let relative = repo.relative(files[i].0.as_str());
        add_bytes(&mut bytes, relative.as_str().as_bytes());
        add_bytes(&mut bytes, &files[i].1);
        i += 1;
    }
    let ghost start = bytes@;
    let mut k: usize = 0;
    assert(start + all_bytes(more, 0) =~= start);
    while k < configurations.len()
        invariant
            k <= configurations@.len(),
            more == byte_views(configurations@),
            bytes@ == start + all_bytes(more, k as int),
        decreases configurations@.len() - k,
    {
        add_bytes(&mut bytes, &configurations[k]);
        assert(bytes@ =~= start + all_bytes(more, k + 1));
        k += 1;
    }
    hash_bytes(&bytes)
}

/// The fingerprint of the files and of the metadata.
pub fn workspace_fingerprint(files_json: &[u8], metadata: &str) -> (r: String)
    ensures
        r@ == workspace_hash(files_json@, metadata@),
{
    let mut bytes = raw_hash(files_json);
    add_bytes(&mut bytes, metadata.as_bytes());
    hash_bytes(&bytes)
}

/// The files that are scanned, by path in the repository, and their paths in order.
pub fn list_files(repo: &Repository, config: &Config, entries: &Vec<SourceEntry>) -> (r: Result<
    (StringMap<FileRecord>, Vec<String>),
    String,
>)
    ensures
        match r {
            Ok((files, paths)) => {
                let listed = listed_files(
                    repo.root@,
                    repo.metadata_dir@,
                    config@.scan,
                    entries.deep_view(),
                    entries@.len() as int,
                );
                &&& rules_problem(config@) is None
                &&& files@ == listed.0
                &&& paths.deep_view() == sort_paths(listed.1)
            },
            Err(message) => rules_problem(config@) == Some(message@),
        },
{
    let rules = match scan_rules(config) {
        Ok(rules) => rules,
        Err(message) => {
            return Err(message);
        },
    };
    let ghost all = entries.deep_view();
    let ghost scan = config@.scan;
    let mut files: StringMap<FileRecord> = StringMap::new();
    let mut paths: Vec<String> = Vec::new();
    let mut i: usize = 0;
    assert(paths.deep_view() =~= seq![]);
    while i < entries.len()
        invariant
            i <= entries@.len(),
            all == entries.deep_view(),
            scan == config@.scan,
            rules.all == (scan.includes.len() == 0),
            set_globs(rules.includes) == scan.includes,
            set_globs(rules.excludes) == scan.exclude,
            files@ == listed_files(repo.root@, repo.metadata_dir@, scan, all, i as int).0,
            paths.deep_view() == listed_files(
                repo.root@,
                repo.metadata_dir@,
                scan,
                all,
                i as int,
            ).1,
        decreases entries@.len() - i,
    {
        assert(all[i as int] == entries@[i as int]@);
        let relative = repo.relative(entries[i].path.as_str());
        if entries[i].size <= config.scan.max_file_bytes && scans(repo, &rules, relative.as_str()) {
            let record = FileRecord {
                path: relative.clone(),
                size: entries[i].size,
                modified_ns: entries[i].modified_ns,
                content_hash: None,
                search_bloom: Vec::new(),
                rust_test_ranges: Vec::new(),
            };
            assert(record@ =~= unread_record(relative@, all[i as int]));
            files.insert(relative, record);
            push_item(&mut paths, entries[i].path.clone());
        }
        i += 1;
    }
    Ok((files, sorted_paths(&paths)))
}

/// Whether bytes hold a zero byte, as text does not.
pub open spec fn has_zero(bytes: Seq<u8>) -> bool {
    bytes.contains(0)
}

/// Whether bytes hold a zero byte.
pub(crate) fn any_zero(bytes: &[u8]) -> (r: bool)
    ensures
        r == has_zero(bytes@),
{
    let mut i: usize = 0;
    while i < bytes.len()
        invariant
            i <= bytes@.len(),
            forall|k: int| 0 <= k < i ==> #[trigger] bytes@[k] != 0,
        decreases bytes@.len() - i,
    {
        if bytes[i] == 0 {
            assert(bytes@[i as int] == 0);
            return true;
        }
        i += 1;
    }
    assert(!bytes@.contains(0));
    false
}

/// A file without annotations.
pub open spec fn empty_document() -> SourceDocumentView {
    SourceDocumentView {
        anchors: seq![],
        strands: seq![],
        memberships: seq![],
        relations: seq![],
        diagnostics: seq![],
    }
}

/// Values with where they come from.
pub open spec fn placed_values<T>(pairs: Seq<(T, ProvenanceView)>) -> Seq<IndexedView<T>> {
    pairs.map_values(|pair: (T, ProvenanceView)| IndexedView { value: pair.0, provenance: pair.1 })
}

/// What is said of a file that could not be read.
pub open spec fn said_of_unread(relative: Seq<char>, message: Seq<char>) -> DiagnosticView {
    DiagnosticView {
        severity: Severity::Warning,
        code: "source-read"@,
        message,
        path: Some(relative),
        line: None,
        hint: None,
    }
}

/// What is said of a file that is not text.
pub open spec fn said_of_encoding(relative: Seq<char>) -> DiagnosticView {
    DiagnosticView {
        severity: Severity::Info,
        code: "source-encoding"@,
        message: "source is not UTF-8; annotations were not scanned"@,
        path: Some(relative),
        line: None,
        hint: None,
    }
}

/// The annotations of a file. A file with a zero byte has none, nor has one that is not
/// UTF-8 or could not be read.
pub open spec fn document_of(
    relative: Seq<char>,
    content: Result<Seq<u8>, Seq<char>>,
    config: ConfigView,
) -> SourceDocumentView {
    match content {
        Err(message) => SourceDocumentView {
            diagnostics: seq![said_of_unread(relative, message)],
            ..empty_document()
        },
        Ok(bytes) => if has_zero(bytes) {
            empty_document()
        } else if !vstd::utf8::valid_utf8(bytes) {
            SourceDocumentView {
                diagnostics: seq![said_of_encoding(relative)],
                ..empty_document()
            }
        } else {
            let scan = scan_of(relative, vstd::utf8::decode_utf8(bytes), config.annotations);
            SourceDocumentView {
                anchors: placed_values(scan.anchors),
                strands: placed_values(scan.strands),
                memberships: scan.memberships,
                relations: scan.relations,
                diagnostics: scan.diagnostics,
            }
        },
    }
}

/// Spans as ranges of lines.
pub open spec fn span_ranges(spans: Seq<Span>) -> Seq<LineRangeView> {
    spans.map_values(|span: Span| LineRangeView { start: span.start_line, end: span.end_line })
}

/// What is kept of a file that was read.
pub open spec fn record_of(
    record: FileRecordView,
    relative: Seq<char>,
    config: ConfigView,
    content: Result<Seq<u8>, Seq<char>>,
) -> FileRecordView {
    match content {
        Err(_) => record,
        Ok(bytes) => {
            let hashed = FileRecordView { content_hash: Some(blake3_hex(bytes)), ..record };
            if has_zero(bytes) || !vstd::utf8::valid_utf8(bytes) {
                hashed
            } else {
                let text = vstd::utf8::decode_utf8(bytes);
                FileRecordView {
                    search_bloom: bloom_of(text, config.annotations),
                    rust_test_ranges: span_ranges(test_spans(relative, text)),
                    ..hashed
                }
            }
        },
    }
}

/// The content of a file, or why it could not be read.
pub open spec fn content_view(content: Result<Vec<u8>, String>) -> Result<Seq<u8>, Seq<char>> {
    match content {
        Ok(bytes) => Ok(bytes@),
        Err(message) => Err(message@),
    }
}

/// A file without annotations.
fn no_document() -> (r: SourceDocument)
    ensures
        r@ == empty_document(),
{
    let document = SourceDocument {
        anchors: Vec::new(),
        strands: Vec::new(),
        memberships: Vec::new(),
        relations: Vec::new(),
        diagnostics: Vec::new(),
    };
    assert(document@ =~= empty_document());
    document
}

/// Anchors with where they come from.
fn place_anchors(pairs: Vec<(Anchor, Provenance)>) -> (r: Vec<Indexed<Anchor>>)
    ensures
        r.deep_view() == placed_values(pairs.deep_view()),
{
    let ghost all = pairs.deep_view();
    let mut out: Vec<Indexed<Anchor>> = Vec::new();
    let mut i: usize = 0;
    while i < pairs.len()
        invariant
            i <= pairs@.len(),
            all == pairs.deep_view(),
            out@.len() == i,
            forall|k: int| 0 <= k < i ==> #[trigger] out@[k]@ == placed_values(all)[k],
        decreases pairs@.len() - i,
    {
        assert(all[i as int] == pairs@[i as int].deep_view());
        out.push(
            Indexed { value: pairs[i].0.duplicate(), provenance: pairs[i].1.duplicate() },
        );
        i += 1;
    }
    assert(out.deep_view() =~= placed_values(all));
    out
}

/// Strands with where they come from.
fn place_strands(pairs: Vec<(Strand, Provenance)>) -> (r: Vec<Indexed<Strand>>)
    ensures
        r.deep_view() == placed_values(pairs.deep_view()),
{
    let ghost all = pairs.deep_view();
    let mut out: Vec<Indexed<Strand>> = Vec::new();
    let mut i: usize = 0;
    while i < pairs.len()
        invariant
            i <= pairs@.len(),
            all == pairs.deep_view(),
            out@.len() == i,
            forall|k: int| 0 <= k < i ==> #[trigger] out@[k]@ == placed_values(all)[k],
        decreases pairs@.len() - i,
    {
        assert(all[i as int] == pairs@[i as int].deep_view());
        out.push(
            Indexed { value: pairs[i].0.duplicate(), provenance: pairs[i].1.duplicate() },
        );
        i += 1;
    }
    assert(out.deep_view() =~= placed_values(all));
    out
}

/// Spans as ranges of lines.
fn ranges_of_spans(spans: &Vec<Span>) -> (r: Vec<LineRange>)
    ensures
        r.deep_view() == span_ranges(spans@),
{
    let mut out: Vec<LineRange> = Vec::new();
    let mut i: usize = 0;
    while i < spans.len()
        invariant
            i <= spans@.len(),
            out@.len() == i,
            forall|k: int| 0 <= k < i ==> #[trigger] out@[k]@ == span_ranges(spans@)[k],
        decreases spans@.len() - i,
    {
        out.push(LineRange { start: spans[i].start_line, end: spans[i].end_line });
        i += 1;
    }
    assert(out.deep_view() =~= span_ranges(spans@));
    out
}

/// Reads the annotations of a file from its content, and keeps what else is worth keeping of
/// it in its record.
pub fn scan_source_document(
    relative: &str,
    config: &Config,
    record: &mut FileRecord,
    content: &Result<Vec<u8>, String>,
) -> (r: SourceDocument)
    requires
        markers_are_filled(config@.annotations),
    ensures
        r@ == document_of(relative@, content_view(*content), config@),
        final(record)@ == record_of(old(record)@, relative@, config@, content_view(*content)),
{
    let bytes = match content {
        Err(message) => {
            let mut document = no_document();
            let diagnostic = Diagnostic {
                severity: Severity::Warning,
                code: "source-read".to_owned(),
                message: message.clone(),
                path: Some(relative.to_owned()),
                line: None,
                hint: None,
            };
            push_item(&mut document.diagnostics, diagnostic);
            assert(document@.diagnostics =~= seq![said_of_unread(relative@, message@)]);
            return document;
        },
        Ok(bytes) => bytes,
    };
    record.content_hash = Some(hash_bytes(bytes));
    if any_zero(bytes) {
        return no_document();
    }
    let text = match text_of_bytes(bytes) {
        None => {
            let mut document = no_document();
            let diagnostic = Diagnostic {
                severity: Severity::Info,
                code: "source-encoding".to_owned(),
                message: "source is not UTF-8; annotations were not scanned".to_owned(),
                path: Some(relative.to_owned()),
                line: None,
                hint: None,
            };
            push_item(&mut document.diagnostics, diagnostic);
            assert(document@.diagnostics =~= seq![said_of_encoding(relative@)]);
            return document;
        },
        Some(text) => text,
    };
    let bloom = source_bloom(text.as_str(), &config.annotations);
    assert(bloom.deep_view() =~= bloom@);
    record.search_bloom = bloom;
    let spans = rust_test_ranges(relative, text.as_str());
    record.rust_test_ranges = ranges_of_spans(&spans);
    let scan = scan_source(relative, text.as_str(), &config.annotations);
    SourceDocument {
        anchors: place_anchors(scan.anchors),
        strands: place_strands(scan.strands),
        memberships: scan.memberships,
        relations: scan.relations,
        diagnostics: scan.diagnostics,
    }
}

/// A file that was read: what is kept of it, and its annotations.
#[derive(Debug, Clone)]
pub struct ScannedFile {
    /// What is kept of it.
    pub record: FileRecord,
    /// Its annotations.
    pub document: SourceDocument,
}

/// The mathematical content of a [`ScannedFile`].
#[verifier::ext_equal]
pub ghost struct ScannedFileView {
    pub record: FileRecordView,
    pub document: SourceDocumentView,
}

impl View for ScannedFile {
    type V = ScannedFileView;

    open spec fn view(&self) -> ScannedFileView {
        ScannedFileView {
            record: self.record.deep_view(),
            document: self.document.deep_view(),
        }
    }
}

impl DeepView for ScannedFile {
    type V = ScannedFileView;

    open spec fn deep_view(&self) -> ScannedFileView {
        self@
    }
}

impl Duplicate for ScannedFile {
    fn duplicate(&self) -> (r: Self) {
        ScannedFile {
            record: self.record.duplicate(),
            document: self.document.duplicate(),
        }
    }
}

/// Whether a file may have changed since it was last read.
pub open spec fn may_have_changed(
    known: Map<Seq<char>, FileRecordView>,
    files: Map<Seq<char>, FileRecordView>,
    path: Seq<char>,
) -> bool {
    if files.contains_key(path) {
        !(known.contains_key(path) && known[path].size == files[path].size
            && known[path].modified_ns == files[path].modified_ns)
    } else {
        known.contains_key(path)
    }
}

/// The files that may have changed since they were last read, and those that are gone.
pub open spec fn changed_set(
    known: Map<Seq<char>, FileRecordView>,
    files: Map<Seq<char>, FileRecordView>,
) -> Set<Seq<char>> {
    Set::new(|path: Seq<char>| may_have_changed(known, files, path))
}

/// The files that may have changed since they were last read, and those that are gone.
pub fn changed_files(known: &StringMap<FileRecord>, files: &StringMap<FileRecord>) -> (r: StringSet)
    ensures
        r@ == changed_set(known@, files@),
{
    let mut changed = StringSet::new();
    let n: usize = known.len();
    let ghost old_paths = ordered(known@.dom());
    let mut i: usize = 0;
    while i < n
        invariant
            i <= n,
            n == ordered(known@.dom()).len(),
            old_paths == ordered(known@.dom()),
            forall|path: Seq<char>| #[trigger]
                changed@.contains(path) ==> may_have_changed(known@, files@, path),
            forall|k: int|
                0 <= k < i && !files@.contains_key(old_paths[k]) ==> changed@.contains(
                    #[trigger] old_paths[k],
                ),
        decreases n - i,
    {
        let path = known.key_at(i);
        if !files.contains_key(path.as_str()) {
            changed.insert(path.clone());
        }
        i += 1;
    }
    let m: usize = files.len();
    let ghost paths = ordered(files@.dom());
    let mut k: usize = 0;
    while k < m
        invariant
            k <= m,
            m == ordered(files@.dom()).len(),
            paths == ordered(files@.dom()),
            n == ordered(known@.dom()).len(),
            old_paths == ordered(known@.dom()),
            forall|path: Seq<char>| #[trigger]
                changed@.contains(path) ==> may_have_changed(known@, files@, path),
            forall|j: int|
                0 <= j < n && !files@.contains_key(old_paths[j]) ==> changed@.contains(
                    #[trigger] old_paths[j],
                ),
            forall|j: int|
                0 <= j < k && may_have_changed(known@, files@, paths[j]) ==> changed@.contains(
                    #[trigger] paths[j],
                ),
        decreases m - k,
    {
        let path = files.key_at(k);
        let record = files.value_at(k);
        let same = match known.get(path.as_str()) {
            None => false,
            Some(previous) => previous.size == record.size && previous.modified_ns
                == record.modified_ns,
        };
        if !same {
            changed.insert(path.clone());
        }
        k += 1;
    }
    proof {
        lemma_known_paths(known@.dom(), old_paths);
        lemma_known_paths(files@.dom(), paths);
        assert forall|path: Seq<char>| may_have_changed(known@, files@, path) implies #[trigger]
            changed@.contains(path) by {
            if files@.contains_key(path) {
                let j = paths.index_of(path);
                assert(paths[j] == path);
            } else {
                let j = old_paths.index_of(path);
                assert(old_paths[j] == path);
            }
        }
        assert(changed@ =~= changed_set(known@, files@));
    }
    changed
}

/// All members of a set that can be put in order are in the order.
proof fn lemma_known_paths(set: Set<Seq<char>>, paths: Seq<Seq<char>>)
    requires
        paths == ordered(set),
        set.finite(),
    ensures
        forall|path: Seq<char>| set.contains(path) ==> #[trigger] paths.contains(path),
{
    crate::collections::lemma_orderable(set);
    assert forall|path: Seq<char>| set.contains(path) implies #[trigger] paths.contains(path) by {
        assert(paths.to_set().contains(path));
    }
}

/// The strands that the annotations of a file speak of.
pub open spec fn strands_in(document: SourceDocumentView) -> Set<Seq<char>> {
    strand_ids(document.strands, document.strands.len() as int).union(
        membership_strands(document.memberships, document.memberships.len() as int),
    )
}

/// The ids of the first `n` strands.
pub open spec fn strand_ids(strands: Seq<IndexedView<StrandView>>, n: int) -> Set<Seq<char>>
    decreases n,
{
    if n <= 0 {
        Set::empty()
    } else {
        strand_ids(strands, n - 1).insert(strands[n - 1].value.id)
    }
}

/// The strands of the first `n` memberships.
pub open spec fn membership_strands(memberships: Seq<IndexedMemberView>, n: int) -> Set<Seq<char>>
    decreases n,
{
    if n <= 0 {
        Set::empty()
    } else {
        match memberships[n - 1].strand {
            Some(strand) => membership_strands(memberships, n - 1).insert(strand),
            None => membership_strands(memberships, n - 1),
        }
    }
}

/// The ids of the first `n` anchors.
pub open spec fn anchor_ids(anchors: Seq<IndexedView<AnchorView>>, n: int) -> Set<Seq<char>>
    decreases n,
{
    if n <= 0 {
        Set::empty()
    } else {
        anchor_ids(anchors, n - 1).insert(anchors[n - 1].value.id)
    }
}

/// The anchors of the first `n` memberships.
pub open spec fn membership_anchors(memberships: Seq<IndexedMemberView>, n: int) -> Set<Seq<char>>
    decreases n,
{
    if n <= 0 {
        Set::empty()
    } else {
        membership_anchors(memberships, n - 1).insert(memberships[n - 1].member.anchor)
    }
}

/// The ends of the first `n` relations.
pub open spec fn relation_ends(relations: Seq<IndexedRelationView>, n: int) -> Set<Seq<char>>
    decreases n,
{
    if n <= 0 {
        Set::empty()
    } else {
        relation_ends(relations, n - 1).insert(relations[n - 1].relation.from).insert(
            relations[n - 1].relation.to,
        )
    }
}

/// The anchors that the annotations of a file speak of.
pub open spec fn anchors_in(document: SourceDocumentView) -> Set<Seq<char>> {
    anchor_ids(document.anchors, document.anchors.len() as int).union(
        membership_anchors(document.memberships, document.memberships.len() as int),
    ).union(relation_ends(document.relations, document.relations.len() as int))
}

/// Adds the strands and anchors that the annotations of a file speak of.
fn collect_document_impacts(
    document: &SourceDocument,
    strands: &mut StringSet,
    anchors: &mut StringSet,
)
    ensures
        final(strands)@ == old(strands)@.union(strands_in(document@)),
        final(anchors)@ == old(anchors)@.union(anchors_in(document@)),
{
    let ghost s0 = strands@;
    let ghost a0 = anchors@;
    let mut i: usize = 0;
    assert(s0.union(strand_ids(document@.strands, 0)) =~= s0);
    while i < document.strands.len()
        invariant
            i <= document.strands@.len(),
            strands@ == s0.union(strand_ids(document@.strands, i as int)),
        decreases document.strands@.len() - i,
    {
        assert(document@.strands[i as int] == document.strands@[i as int]@);
        strands.insert(document.strands[i].value.id.clone());
        assert(strands@ =~= s0.union(strand_ids(document@.strands, i + 1)));
        i += 1;
    }
    let mut k: usize = 0;
    assert(a0.union(anchor_ids(document@.anchors, 0)) =~= a0);
    while k < document.anchors.len()
        invariant
            k <= document.anchors@.len(),
            anchors@ == a0.union(anchor_ids(document@.anchors, k as int)),
        decreases document.anchors@.len() - k,
    {
        assert(document@.anchors[k as int] == document.anchors@[k as int]@);
        anchors.insert(document.anchors[k].value.id.clone());
        assert(anchors@ =~= a0.union(anchor_ids(document@.anchors, k + 1)));
        k += 1;
    }
    let ghost s1 = strands@;
    let ghost a1 = anchors@;
    let mut m: usize = 0;
    assert(s1.union(membership_strands(document@.memberships, 0)) =~= s1);
    assert(a1.union(membership_anchors(document@.memberships, 0)) =~= a1);
    while m < document.memberships.len()
        invariant
            m <= document.memberships@.len(),
            strands@ == s1.union(membership_strands(document@.memberships, m as int)),
            anchors@ == a1.union(membership_anchors(document@.memberships, m as int)),
        decreases document.memberships@.len() - m,
    {
        let membership = &document.memberships[m];
        assert(document@.memberships[m as int] == membership@);
        match &membership.strand {
            None => {},
            Some(strand) => {
                strands.insert(strand.clone());
            },
        }
        anchors.insert(membership.member.anchor.clone());
        assert(strands@ =~= s1.union(membership_strands(document@.memberships, m + 1)));
        assert(anchors@ =~= a1.union(membership_anchors(document@.memberships, m + 1)));
        m += 1;
    }
    let ghost a2 = anchors@;
    let mut j: usize = 0;
    assert(a2.union(relation_ends(document@.relations, 0)) =~= a2);
    while j < document.relations.len()
        invariant
            j <= document.relations@.len(),
            anchors@ == a2.union(relation_ends(document@.relations, j as int)),
        decreases document.relations@.len() - j,
    {
        let relation = &document.relations[j];
        assert(document@.relations[j as int] == relation@);
        anchors.insert(relation.relation.from.clone());
        anchors.insert(relation.relation.to.clone());
        assert(anchors@ =~= a2.union(relation_ends(document@.relations, j + 1)));
        j += 1;
    }
    assert(strands@ =~= s0.union(strands_in(document@)));
    assert(anchors@ =~= a0.union(anchors_in(document@)));
}

/// What the first `n` of some files speak of: strands and anchors.
pub open spec fn impacts(
    documents: Map<Seq<char>, SourceDocumentView>,
    paths: Seq<Seq<char>>,
    n: int,
) -> (Set<Seq<char>>, Set<Seq<char>>)
    decreases n,
{
    if n <= 0 {
        (Set::empty(), Set::empty())
    } else {
        let before = impacts(documents, paths, n - 1);
        if documents.contains_key(paths[n - 1]) {
            (
                before.0.union(strands_in(documents[paths[n - 1]])),
                before.1.union(anchors_in(documents[paths[n - 1]])),
            )
        } else {
            before
        }
    }
}

/// The documents of files that were read.
pub open spec fn scanned_documents(scanned: Map<Seq<char>, ScannedFileView>) -> Map<
    Seq<char>,
    SourceDocumentView,
> {
    scanned.map_values(|file: ScannedFileView| file.document)
}

/// The annotations of all files once those that changed are read again.
pub open spec fn current_documents(
    known: Map<Seq<char>, SourceDocumentView>,
    files: Map<Seq<char>, FileRecordView>,
    changed: Set<Seq<char>>,
    scanned: Map<Seq<char>, ScannedFileView>,
) -> Map<Seq<char>, SourceDocumentView> {
    Map::new(
        |path: Seq<char>|
            files.contains_key(path) && (changed.contains(path) || known.contains_key(path)),
        |path: Seq<char>|
            if changed.contains(path) {
                scanned[path].document
            } else {
                known[path]
            },
    )
}

/// What is kept of all files once those that changed are read again.
pub open spec fn current_records(
    known: Map<Seq<char>, FileRecordView>,
    files: Map<Seq<char>, FileRecordView>,
    changed: Set<Seq<char>>,
    scanned: Map<Seq<char>, ScannedFileView>,
) -> Map<Seq<char>, FileRecordView> {
    Map::new(
        |path: Seq<char>| files.contains_key(path),
        |path: Seq<char>|
            if changed.contains(path) {
                scanned[path].record
            } else {
                known[path]
            },
    )
}

/// An index brought up to date from the files that changed. `scanned` holds those of them
/// that are still there.
pub open spec fn refreshed_index(
    root: Seq<char>,
    loaded: LoadedMetadataView,
    manifest: ManifestView,
    cached: IndexView,
    scanned: Map<Seq<char>, ScannedFileView>,
    now: Timestamp,
    config_fingerprint: Seq<char>,
) -> IndexView {
    let changed = changed_set(cached.files, manifest.files);
    let paths = ordered(changed);
    let before = impacts(cached.source_documents, paths, paths.len() as int);
    let documents = current_documents(
        cached.source_documents,
        manifest.files,
        changed,
        scanned,
    );
    let after = impacts(documents, paths, paths.len() as int);
    IndexView {
        generated_at: now,
        workspace_fingerprint: manifest.fingerprint,
        metadata_fingerprint: manifest.metadata_fingerprint,
        config_fingerprint,
        files: current_records(cached.files, manifest.files, changed, scanned),
        ..refreshed_graph(
            root,
            loaded,
            IndexView { source_documents: documents, ..cached },
            before.0.union(after.0),
            before.1.union(after.1),
        )
    }
}

/// Adds what some files speak of.
fn collect_impacts(
    documents: &StringMap<SourceDocument>,
    changed: &StringSet,
    strands: &mut StringSet,
    anchors: &mut StringSet,
)
    ensures
        final(strands)@ == old(strands)@.union(
            impacts(documents@, ordered(changed@), ordered(changed@).len() as int).0,
        ),
        final(anchors)@ == old(anchors)@.union(
            impacts(documents@, ordered(changed@), ordered(changed@).len() as int).1,
        ),
{
    let ghost s0 = strands@;
    let ghost a0 = anchors@;
    let n: usize = changed.len();
    let ghost paths = ordered(changed@);
    let mut i: usize = 0;
    assert(s0.union(impacts(documents@, paths, 0).0) =~= s0);
    assert(a0.union(impacts(documents@, paths, 0).1) =~= a0);
    while i < n
        invariant
            i <= n,
            n == ordered(changed@).len(),
            paths == ordered(changed@),
            strands@ == s0.union(impacts(documents@, paths, i as int).0),
            anchors@ == a0.union(impacts(documents@, paths, i as int).1),
        decreases n - i,
    {
        match documents.get(changed.item_at(i).as_str()) {
            None => {},
            Some(document) => {
                collect_document_impacts(document, strands, anchors);
            },
        }
        assert(strands@ =~= s0.union(impacts(documents@, paths, i + 1).0));
        assert(anchors@ =~= a0.union(impacts(documents@, paths, i + 1).1));
        i += 1;
    }
}

/// The annotations of all files, and what is kept of them, once those that changed are read
/// again.
fn bring_up_to_date(
    cached: &Index,
    files: &StringMap<FileRecord>,
    changed: &StringSet,
    scanned: &StringMap<ScannedFile>,
) -> (r: (StringMap<SourceDocument>, StringMap<FileRecord>))
    requires
        changed@ == changed_set(cached@.files, files@),
        forall|path: Seq<char>|
            files@.contains_key(path) && changed@.contains(path) ==> #[trigger] scanned@.contains_key(
                path,
            ),
    ensures
        r.0@ == current_documents(cached@.source_documents, files@, changed@, scanned@),
        r.1@ == current_records(cached@.files, files@, changed@, scanned@),
{
    let mut documents: StringMap<SourceDocument> = StringMap::new();
    let mut records: StringMap<FileRecord> = StringMap::new();
    let n: usize = files.len();
    let ghost paths = ordered(files@.dom());
    let ghost all = current_documents(cached@.source_documents, files@, changed@, scanned@);
    let ghost kept = current_records(cached@.files, files@, changed@, scanned@);
    let mut i: usize = 0;
    while i < n
        invariant
            i <= n,
            n == ordered(files@.dom()).len(),
            paths == ordered(files@.dom()),
            all == current_documents(cached@.source_documents, files@, changed@, scanned@),
            kept == current_records(cached@.files, files@, changed@, scanned@),
            changed@ == changed_set(cached@.files, files@),
            forall|path: Seq<char>|
                files@.contains_key(path) && changed@.contains(path)
                    ==> #[trigger] scanned@.contains_key(path),
            forall|path: Seq<char>| #[trigger]
                documents@.contains_key(path) ==> all.contains_key(path) && documents@[path]
                    == all[path],
            forall|path: Seq<char>| #[trigger]
                records@.contains_key(path) ==> kept.contains_key(path) && records@[path]
                    == kept[path],
            forall|k: int|
                0 <= k < i && all.contains_key(paths[k]) ==> documents@.contains_key(
                    #[trigger] paths[k],
                ),
            forall|k: int| 0 <= k < i ==> records@.contains_key(#[trigger] paths[k]),
        decreases n - i,
    {
        let path = files.key_at(i);
        assert(files@.contains_key(path@));
        if changed.contains(path.as_str()) {
            match scanned.get(path.as_str()) {
                Some(file) => {
                    documents.insert(path.clone(), file.document.duplicate());
                    records.insert(path.clone(), file.record.duplicate());
                },
                None => {
                    assert(scanned@.contains_key(path@));
                },
            }
        } else {
            assert(!may_have_changed(cached@.files, files@, path@));
            match cached.source_documents.get(path.as_str()) {
                Some(document) => {
                    documents.insert(path.clone(), document.duplicate());
                },
                None => {},
            }
            match cached.files.get(path.as_str()) {
                Some(record) => {
                    records.insert(path.clone(), record.duplicate());
                },
                None => {},
            }
        }
        i += 1;
    }
    proof {
        lemma_known_paths(files@.dom(), paths);
        assert forall|path: Seq<char>| all.contains_key(path) implies #[trigger]
            documents@.contains_key(path) by {
            let k = paths.index_of(path);
            assert(paths[k] == path);
        }
        assert forall|path: Seq<char>| kept.contains_key(path) implies #[trigger]
            records@.contains_key(path) by {
            let k = paths.index_of(path);
            assert(paths[k] == path);
        }
        assert(documents@ =~= all);
        assert(records@ =~= kept);
    }
    (documents, records)
}

/// Brings an index up to date from the files that changed.
pub fn refresh_with_manifest(
    repo: &Repository,
    loaded: &LoadedMetadata,
    manifest: &Manifest,
    cached: &Index,
    scanned: &StringMap<ScannedFile>,
    now: Timestamp,
    config_fingerprint: &String,
) -> (r: Index)
    requires
        forall|path: Seq<char>|
            manifest@.files.contains_key(path) && may_have_changed(
                cached@.files,
                manifest@.files,
                path,
            ) ==> #[trigger] scanned@.contains_key(path),
    ensures
        r@ == refreshed_index(
            repo.root@,
            loaded@,
            manifest@,
            cached@,
            scanned@,
            now,
            config_fingerprint@,
        ),
{
    let changed = changed_files(&cached.files, &manifest.files);
    let mut strands = StringSet::new();
    let mut anchors = StringSet::new();
    collect_impacts(&cached.source_documents, &changed, &mut strands, &mut anchors);
    let (documents, records) = bring_up_to_date(cached, &manifest.files, &changed, scanned);
    collect_impacts(&documents, &changed, &mut strands, &mut anchors);
    let ghost paths = ordered(changed@);
    let ghost before = impacts(cached@.source_documents, paths, paths.len() as int);
    let ghost after = impacts(documents@, paths, paths.len() as int);
    assert(strands@ =~= before.0.union(after.0));
    assert(anchors@ =~= before.1.union(after.1));
    let mut index = cached.duplicate();
    index.source_documents = documents;
    assert(index@ =~= (IndexView { source_documents: documents@, ..cached@ }));
    refresh_graph(repo, loaded, &mut index, &strands, &anchors);
    index.generated_at = now;
    index.workspace_fingerprint = manifest.fingerprint.clone();
    index.metadata_fingerprint = manifest.metadata_fingerprint.clone();
    index.config_fingerprint = config_fingerprint.clone();
    index.files = records;
    index
}

/// The format of the index.
pub const INDEX_SCHEMA: u32 = 5;

/// What is kept of files that were read.
pub open spec fn scanned_records(scanned: Map<Seq<char>, ScannedFileView>) -> Map<
    Seq<char>,
    FileRecordView,
> {
    scanned.map_values(|file: ScannedFileView| file.record)
}

/// A new index, from all files of the repository as they were read.
pub open spec fn built_index(
    root: Seq<char>,
    loaded: LoadedMetadataView,
    manifest: ManifestView,
    scanned: Map<Seq<char>, ScannedFileView>,
    now: Timestamp,
    config_fingerprint: Seq<char>,
) -> IndexView {
    let documents = scanned_documents(scanned);
    let graph = graph_of(root, loaded, documents);
    IndexView {
        schema: INDEX_SCHEMA,
        root,
        generated_at: now,
        workspace_fingerprint: manifest.fingerprint,
        metadata_fingerprint: manifest.metadata_fingerprint,
        config_fingerprint,
        files: scanned_records(scanned),
        source_documents: documents,
        strands: graph.strands,
        anchors: graph.anchors,
        memberships: graph.memberships,
        relations: graph.relations,
        diagnostics: graph.diagnostics,
    }
}

/// The annotations of files that were read, and what is kept of them.
fn split_scanned(scanned: &StringMap<ScannedFile>) -> (r: (
    StringMap<SourceDocument>,
    StringMap<FileRecord>,
))
    ensures
        r.0@ == scanned_documents(scanned@),
        r.1@ == scanned_records(scanned@),
{
    let mut documents: StringMap<SourceDocument> = StringMap::new();
    let mut records: StringMap<FileRecord> = StringMap::new();
    let n: usize = scanned.len();
    let ghost paths = ordered(scanned@.dom());
    let mut i: usize = 0;
    while i < n
        invariant
            i <= n,
            n == ordered(scanned@.dom()).len(),
            paths == ordered(scanned@.dom()),
            forall|path: Seq<char>| #[trigger]
                documents@.contains_key(path) ==> scanned@.contains_key(path) && documents@[path]
                    == scanned@[path].document,
            forall|path: Seq<char>| #[trigger]
                records@.contains_key(path) ==> scanned@.contains_key(path) && records@[path]
                    == scanned@[path].record,
            forall|k: int|
                0 <= k < i ==> documents@.contains_key(#[trigger] paths[k])
                    && records@.contains_key(paths[k]),
        decreases n - i,
    {
        let path = scanned.key_at(i);
        let file = scanned.value_at(i);
        documents.insert(path.clone(), file.document.duplicate());
        records.insert(path.clone(), file.record.duplicate());
        i += 1;
    }
    proof {
        lemma_known_paths(scanned@.dom(), paths);
        assert forall|path: Seq<char>| scanned@.contains_key(path) implies #[trigger]
            documents@.contains_key(path) && #[trigger] records@.contains_key(path) by {
            let k = paths.index_of(path);
            assert(paths[k] == path);
        }
        assert(documents@ =~= scanned_documents(scanned@));
        assert(records@ =~= scanned_records(scanned@));
    }
    (documents, records)
}

/// A new index, from all files of the repository as they were read.
pub fn build_with_manifest(
    repo: &Repository,
    loaded: &LoadedMetadata,
    manifest: &Manifest,
    scanned: &StringMap<ScannedFile>,
    now: Timestamp,
    config_fingerprint: &String,
) -> (r: Index)
    ensures
        r@ == built_index(
            repo.root@,
            loaded@,
            manifest@,
            scanned@,
            now,
            config_fingerprint@,
        ),
{
    let (documents, records) = split_scanned(scanned);
    let graph = assemble_graph(repo, loaded, &documents);
    Index {
        schema: INDEX_SCHEMA,
        root: repo.root.clone(),
        generated_at: now,
        workspace_fingerprint: manifest.fingerprint.clone(),
        metadata_fingerprint: manifest.metadata_fingerprint.clone(),
        config_fingerprint: config_fingerprint.clone(),
        files: records,
        source_documents: documents,
        strands: graph.strands,
        anchors: graph.anchors,
        memberships: graph.memberships,
        relations: graph.relations,
        diagnostics: graph.diagnostics,
    }
}

/// What has to be done so that the index is current.
#[derive(Debug, Clone)]
pub enum IndexAction {
    /// Nothing: it is.
    Keep,
    /// It may not be brought up to date; this is said instead.
    Refuse(String),
    /// The files that changed are read again.
    Refresh,
    /// All files are read again.
    Rebuild,
}

/// The first path, from position `i` on, of a file that was written since it was read.
pub open spec fn first_rewritten(
    known: Map<Seq<char>, FileRecordView>,
    files: Map<Seq<char>, FileRecordView>,
    i: int,
) -> Option<Seq<char>>
    decreases ordered(files.dom()).len() - i,
{
    let paths = ordered(files.dom());
    if i >= paths.len() {
        None
    } else if known.contains_key(paths[i]) && may_have_changed(known, files, paths[i]) {
        Some(paths[i])
    } else {
        first_rewritten(known, files, i + 1)
    }
}

/// The first path, from position `i` on, of a file that others do not have.
pub open spec fn first_missing(
    files: Map<Seq<char>, FileRecordView>,
    others: Map<Seq<char>, FileRecordView>,
    i: int,
) -> Option<Seq<char>>
    decreases ordered(files.dom()).len() - i,
{
    let paths = ordered(files.dom());
    if i >= paths.len() {
        None
    } else if !others.contains_key(paths[i]) {
        Some(paths[i])
    } else {
        first_missing(files, others, i + 1)
    }
}

/// Why an index is not current.
pub open spec fn stale_reason(
    cached: Option<IndexView>,
    manifest: ManifestView,
    config_fingerprint: Seq<char>,
) -> Seq<char> {
    match cached {
        None => "missing or incompatible"@,
        Some(index) => if index.workspace_fingerprint != manifest.fingerprint {
            match first_rewritten(index.files, manifest.files, 0) {
                Some(path) => "repository file changed: "@ + path,
                None => match first_missing(manifest.files, index.files, 0) {
                    Some(path) => "repository file changed: "@ + path,
                    None => match first_missing(index.files, manifest.files, 0) {
                        Some(path) => "repository file changed: "@ + path,
                        None => "repository file manifest changed"@,
                    },
                },
            }
        } else if index.config_fingerprint != config_fingerprint {
            "configuration changed"@
        } else {
            "unknown index mismatch"@
        },
    }
}

/// What has to be done so that the index is current, in mathematical terms.
#[verifier::ext_equal]
pub ghost enum IndexActionView {
    Keep,
    Refuse(Seq<char>),
    Refresh,
    Rebuild,
}

impl View for IndexAction {
    type V = IndexActionView;

    open spec fn view(&self) -> IndexActionView {
        match self {
            IndexAction::Keep => IndexActionView::Keep,
            IndexAction::Refuse(message) => IndexActionView::Refuse(message@),
            IndexAction::Refresh => IndexActionView::Refresh,
            IndexAction::Rebuild => IndexActionView::Rebuild,
        }
    }
}

/// What has to be done so that the index is current.
pub open spec fn needed_action(
    cached: Option<IndexView>,
    manifest: ManifestView,
    config_fingerprint: Seq<char>,
    automatic: bool,
) -> IndexActionView {
    if cached is Some && cached->0.workspace_fingerprint == manifest.fingerprint
        && cached->0.config_fingerprint == config_fingerprint {
        IndexActionView::Keep
    } else if !automatic {
        IndexActionView::Refuse(
            "Strandmap index is stale ("@ + stale_reason(cached, manifest, config_fingerprint)
                + "); run `strandmap index`"@,
        )
    } else if cached is Some && cached->0.config_fingerprint == config_fingerprint
        && cached->0.metadata_fingerprint == manifest.metadata_fingerprint {
        IndexActionView::Refresh
    } else {
        IndexActionView::Rebuild
    }
}

/// The first path of a file that was written since it was read.
fn find_rewritten(known: &StringMap<FileRecord>, files: &StringMap<FileRecord>) -> (r: Option<
    String,
>)
    ensures
        r.deep_view() == first_rewritten(known@, files@, 0),
{
    let n: usize = files.len();
    let mut i: usize = 0;
    while i < n
        invariant
            i <= n,
            n == ordered(files@.dom()).len(),
            first_rewritten(known@, files@, 0) == first_rewritten(known@, files@, i as int),
        decreases n - i,
    {
        let path = files.key_at(i);
        let record = files.value_at(i);
        match known.get(path.as_str()) {
            None => {},
            Some(previous) => {
                if previous.size != record.size || previous.modified_ns != record.modified_ns {
                    return Some(path.clone());
                }
            },
        }
        i += 1;
    }
    None
}

/// The first path of a file that others do not have.
fn find_missing(files: &StringMap<FileRecord>, others: &StringMap<FileRecord>) -> (r: Option<
    String,
>)
    ensures
        r.deep_view() == first_missing(files@, others@, 0),
{
    let n: usize = files.len();
    let mut i: usize = 0;
    while i < n
        invariant
            i <= n,
            n == ordered(files@.dom()).len(),
            first_missing(files@, others@, 0) == first_missing(files@, others@, i as int),
        decreases n - i,
    {
        let path = files.key_at(i);
        if !others.contains_key(path.as_str()) {
            return Some(path.clone());
        }
        i += 1;
    }
    None
}

/// Why an index is not current.
fn reason_of_staleness(cached: &Option<Index>, manifest: &Manifest, config_fingerprint: &str) -> (r:
    String)
    ensures
        r@ == stale_reason(cached.deep_view(), manifest@, config_fingerprint@),
{
    let index = match cached {
        None => {
            return "missing or incompatible".to_owned();
        },
        Some(index) => index,
    };
    if !same_text(index.workspace_fingerprint.as_str(), manifest.fingerprint.as_str()) {
        let path = match find_rewritten(&index.files, &manifest.files) {
            Some(path) => Some(path),
            None => match find_missing(&manifest.files, &index.files) {
                Some(path) => Some(path),
                None => find_missing(&index.files, &manifest.files),
            },
        };
        return match path {
            Some(path) => {
                let mut message = "repository file changed: ".to_owned();
                message.push_str(path.as_str());
                message
            },
            None => "repository file manifest changed".to_owned(),
        };
    }
    if !same_text(index.config_fingerprint.as_str(), config_fingerprint) {
        "configuration changed".to_owned()
    } else {
        "unknown index mismatch".to_owned()
    }
}

/// What has to be done so that the index is current.
pub fn index_action(
    cached: &Option<Index>,
    manifest: &Manifest,
    config_fingerprint: &str,
    automatic: bool,
) -> (r: IndexAction)
    ensures
        r@ == needed_action(cached.deep_view(), manifest@, config_fingerprint@, automatic),
{
    let (current, refreshable) = match cached {
        None => (false, false),
        Some(index) => {
            let configured = same_text(index.config_fingerprint.as_str(), config_fingerprint);
            (
                configured && same_text(
                    index.workspace_fingerprint.as_str(),
                    manifest.fingerprint.as_str(),
                ),
                configured && same_text(
                    index.metadata_fingerprint.as_str(),
                    manifest.metadata_fingerprint.as_str(),
                ),
            )
        },
    };
    if current {
        return IndexAction::Keep;
    }
    if !automatic {
        let mut message = "Strandmap index is stale (".to_owned();
        message.push_str(
            reason_of_staleness(cached, manifest, config_fingerprint).as_str(),
        );
        message.push_str("); run `strandmap index`");
        return IndexAction::Refuse(message);
    }
    if refreshable {
        IndexAction::Refresh
    } else {
        IndexAction::Rebuild
    }
}

/// Checks the format of an index.
pub fn check_schema(index: &Index) -> (r: Result<(), String>)
    ensures
        match r {
            Ok(_) => index@.schema == INDEX_SCHEMA,
            Err(message) => index@.schema != INDEX_SCHEMA && message@
                == "unsupported index schema "@ + decimal(index@.schema as nat),
        },
{
    if index.schema != INDEX_SCHEMA {
        let mut message = "unsupported index schema ".to_owned();
        message.push_str(decimal_text(index.schema as u64).as_str());
        return Err(message);
    }
    Ok(())
}

/// Where the index is kept.
pub fn cache_path(repo: &Repository, config: &Config) -> (r: String)
    ensures
        r@ == joined(repo.metadata_dir@, config@.index.path),
{
    join_path(repo.metadata_dir.as_str(), config.index.path.as_str())
}

} // verus!
