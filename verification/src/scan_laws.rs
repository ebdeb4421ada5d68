//! What a scan reads of the annotations of a file.

use vstd::prelude::*;

use crate::annotations::{
    after_anchor, after_lines, after_markers, after_membership, after_relation, all_markers,
    anchor_from, anchor_of, comma_set, filled_parts, kind_markers, line_markers, location_path,
    marker_body, marker_chain, marker_positions, membership_of, next_marker, placed_markers,
    relation_of, scalar_value, scan_of, stands_alone, still_active, value_text, word_tokens,
    AnnotationScanView, MarkerKind, MarkerView, ProgressView, TokensView,
};
use crate::config::AnnotationConfigView;
use crate::model::{
    AnchorView, DiagnosticView, IndexedMemberView, IndexedRelationView, ProvenanceView, StrandView,
};
use crate::text::{find_from, index_from, lemma_find_from, lines, matches_at, split, trim};

verus! {

/// Where an annotation on a line of a file comes from.
pub open spec fn from_line(path: Seq<char>, number: int) -> ProvenanceView {
    ProvenanceView {
        source: "annotation"@,
        path: Some(path),
        line: if number <= u32::MAX {
            Some(number as u32)
        } else {
            None
        },
    }
}

/// Whether a scan holds all that another holds.
pub open spec fn holds_scan(more: AnnotationScanView, less: AnnotationScanView) -> bool {
    &&& forall|x: (AnchorView, ProvenanceView)| #[trigger]
        less.anchors.contains(x) ==> more.anchors.contains(x)
    &&& forall|x: (StrandView, ProvenanceView)| #[trigger]
        less.strands.contains(x) ==> more.strands.contains(x)
    &&& forall|x: IndexedMemberView| #[trigger]
        less.memberships.contains(x) ==> more.memberships.contains(x)
    &&& forall|x: IndexedRelationView| #[trigger]
        less.relations.contains(x) ==> more.relations.contains(x)
    &&& forall|x: DiagnosticView| #[trigger]
        less.diagnostics.contains(x) ==> more.diagnostics.contains(x)
}

proof fn lemma_pushed<T>(all: Seq<T>, x: T)
    ensures
        all.push(x).contains(x),
        forall|y: T| #[trigger] all.contains(y) ==> all.push(x).contains(y),
{
    assert(all.push(x)[all.len() as int] == x);
    assert forall|y: T| #[trigger] all.contains(y) implies all.push(x).contains(y) by {
        let at = all.index_of(y);
        assert(all.push(x)[at] == y);
    }
}

/// Whether a scan tells a problem of a line.
pub open spec fn tells_problem(scan: AnnotationScanView, path: Seq<char>, number: int) -> bool {
    exists|i: int|
        0 <= i < scan.diagnostics.len() && (#[trigger] scan.diagnostics[i]).path == Some(path)
            && scan.diagnostics[i].line == from_line(path, number).line
}

proof fn lemma_problem(scan: AnnotationScanView, path: Seq<char>, number: int, x: DiagnosticView)
    requires
        scan.diagnostics.contains(x),
        x.path == Some(path),
        x.line == from_line(path, number).line,
    ensures
        tells_problem(scan, path, number),
{
    let at = scan.diagnostics.index_of(x);
    assert(scan.diagnostics[at].path == Some(path));
}

/// Whether a scan tells of an annotation: of what it stands for, or of what is wrong with it.
pub open spec fn tells_of(
    scan: AnnotationScanView,
    path: Seq<char>,
    number: int,
    kind: MarkerKind,
    body: Seq<char>,
    active: Option<Seq<char>>,
    implicit_anchors: bool,
) -> bool {
    match kind {
        MarkerKind::Anchor => match anchor_of(path, number, body) {
            Err(_) => tells_problem(scan, path, number),
            Ok(anchor) => exists|i: int|
                0 <= i < scan.anchors.len() && (#[trigger] scan.anchors[i]).0.id == anchor.id
                    && scan.anchors[i].0.target == anchor.target && scan.anchors[i].0.tags
                    == anchor.tags && scan.anchors[i].1 == from_line(path, number),
        },
        MarkerKind::Strand => match membership_of(path, number, body, active, implicit_anchors) {
            Err(_) => tells_problem(scan, path, number),
            Ok(m) => {
                &&& scan.memberships.contains(
                    IndexedMemberView {
                        strand: Some(m.strand_id),
                        member: m.member,
                        provenance: from_line(path, number),
                    },
                )
                &&& m.strand is Some ==> scan.strands.contains(
                    (m.strand->0, from_line(path, number)),
                )
                &&& m.implicit is Some ==> scan.anchors.contains(
                    (m.implicit->0, from_line(path, number)),
                )
            },
        },
        MarkerKind::Relation => match relation_of(body, active) {
            Err(_) => tells_problem(scan, path, number),
            Ok((strand, relation)) => scan.relations.contains(
                IndexedRelationView {
                    strand,
                    relation,
                    provenance: from_line(path, number),
                },
            ),
        },
    }
}

/// Who is active, by name.
spec fn name_of(active: Option<(Seq<char>, int)>) -> Option<Seq<char>> {
    match active {
        Some(active) => Some(active.0),
        None => None,
    }
}

proof fn lemma_anchor_read(
    path: Seq<char>,
    text: Seq<char>,
    number: int,
    body: Seq<char>,
    p: ProgressView,
    implicit_anchors: bool,
)
    ensures
        holds_scan(after_anchor(path, text, number, body, p).scan, p.scan),
        tells_of(
            after_anchor(path, text, number, body, p).scan,
            path,
            number,
            MarkerKind::Anchor,
            body,
            name_of(p.active),
            implicit_anchors,
        ),
        anchor_of(path, number, body) matches Ok(anchor) ==> after_anchor(
            path,
            text,
            number,
            body,
            p,
        ).active == Some((anchor.id, number)),
{
    let after = after_anchor(path, text, number, body, p);
    match anchor_of(path, number, body) {
        Err(message) => {
            let x = after.scan.diagnostics.last();
            lemma_pushed(p.scan.diagnostics, x);
            lemma_problem(after.scan, path, number, x);
        },
        Ok(anchor) => {
            let x = after.scan.anchors.last();
            lemma_pushed(p.scan.anchors, x);
            assert(after.scan.anchors[p.scan.anchors.len() as int] == x);
            let warned = if crate::annotations::body_fixes_lines(body) {
                p.scan.diagnostics.push(
                    crate::annotations::drift_warning(path, number, anchor.id),
                )
            } else {
                p.scan.diagnostics
            };
            lemma_pushed(
                p.scan.diagnostics,
                crate::annotations::drift_warning(path, number, anchor.id),
            );
            if after.scan.diagnostics.len() > warned.len() {
                lemma_pushed(warned, after.scan.diagnostics.last());
            }
        },
    }
}

proof fn lemma_membership_read(
    path: Seq<char>,
    number: int,
    body: Seq<char>,
    implicit_anchors: bool,
    p: ProgressView,
)
    ensures
        holds_scan(after_membership(path, number, body, implicit_anchors, p).scan, p.scan),
        tells_of(
            after_membership(path, number, body, implicit_anchors, p).scan,
            path,
            number,
            MarkerKind::Strand,
            body,
            name_of(p.active),
            implicit_anchors,
        ),
{
    let after = after_membership(path, number, body, implicit_anchors, p);
    match membership_of(path, number, body, name_of(p.active), implicit_anchors) {
        Err(message) => {
            let x = after.scan.diagnostics.last();
            lemma_pushed(p.scan.diagnostics, x);
            lemma_problem(after.scan, path, number, x);
        },
        Ok(m) => {
            let from = from_line(path, number);
            lemma_pushed(p.scan.memberships, after.scan.memberships.last());
            if m.strand is Some {
                lemma_pushed(p.scan.strands, (m.strand->0, from));
            }
            if m.implicit is Some {
                lemma_pushed(p.scan.anchors, (m.implicit->0, from));
            }
        },
    }
}

proof fn lemma_relation_read(
    path: Seq<char>,
    number: int,
    body: Seq<char>,
    p: ProgressView,
    implicit_anchors: bool,
)
    ensures
        holds_scan(after_relation(path, number, body, p).scan, p.scan),
        tells_of(
            after_relation(path, number, body, p).scan,
            path,
            number,
            MarkerKind::Relation,
            body,
            name_of(p.active),
            implicit_anchors,
        ),
{
    let after = after_relation(path, number, body, p);
    match relation_of(body, name_of(p.active)) {
        Err(message) => {
            let x = after.scan.diagnostics.last();
            lemma_pushed(p.scan.diagnostics, x);
            lemma_problem(after.scan, path, number, x);
        },
        Ok(_) => {
            lemma_pushed(p.scan.relations, after.scan.relations.last());
        },
    }
}

proof fn lemma_tells_more(
    more: AnnotationScanView,
    less: AnnotationScanView,
    path: Seq<char>,
    number: int,
    kind: MarkerKind,
    body: Seq<char>,
    active: Option<Seq<char>>,
    implicit_anchors: bool,
)
    requires
        holds_scan(more, less),
        tells_of(less, path, number, kind, body, active, implicit_anchors),
    ensures
        tells_of(more, path, number, kind, body, active, implicit_anchors),
{
    if tells_problem(less, path, number) {
        let i = choose|i: int|
            0 <= i < less.diagnostics.len() && (#[trigger] less.diagnostics[i]).path == Some(path)
                && less.diagnostics[i].line == from_line(path, number).line;
        assert(less.diagnostics.contains(less.diagnostics[i]));
        lemma_problem(more, path, number, less.diagnostics[i]);
    }
    if kind == MarkerKind::Anchor {
        if let Ok(anchor) = anchor_of(path, number, body) {
            let i = choose|i: int|
                0 <= i < less.anchors.len() && (#[trigger] less.anchors[i]).0.id == anchor.id
                    && less.anchors[i].0.target == anchor.target && less.anchors[i].0.tags
                    == anchor.tags && less.anchors[i].1 == from_line(path, number);
            assert(less.anchors.contains(less.anchors[i]));
            let at = more.anchors.index_of(less.anchors[i]);
            assert(more.anchors[at].0.id == anchor.id);
        }
    }
}

proof fn lemma_markers_read(
    path: Seq<char>,
    text: Seq<char>,
    config: AnnotationConfigView,
    number: int,
    line: Seq<char>,
    n: int,
    p: ProgressView,
)
    ensures
        holds_scan(after_markers(path, text, config, number, line, n, p).scan, p.scan),
        forall|k: int|
            0 <= k < n ==> exists|active: Option<Seq<char>>| #[trigger]
                tells_of(
                    after_markers(path, text, config, number, line, n, p).scan,
                    path,
                    number,
                    (#[trigger] line_markers(line, config)[k]).kind,
                    marker_body(line, line_markers(line, config), k),
                    active,
                    config.implicit_anchors,
                ),
        n > 0 ==> ({
            let markers = line_markers(line, config);
            tells_of(
                after_markers(path, text, config, number, line, n, p).scan,
                path,
                number,
                markers[0].kind,
                marker_body(line, markers, 0),
                name_of(p.active),
                config.implicit_anchors,
            )
        }),
    decreases n,
{
    if n > 0 {
        lemma_markers_read(path, text, config, number, line, n - 1, p);
        let before = after_markers(path, text, config, number, line, n - 1, p);
        let now = after_markers(path, text, config, number, line, n, p);
        let markers = line_markers(line, config);
        let body = marker_body(line, markers, n - 1);
        lemma_anchor_read(path, text, number, body, before, config.implicit_anchors);
        lemma_membership_read(path, number, body, config.implicit_anchors, before);
        lemma_relation_read(path, number, body, before, config.implicit_anchors);
        assert(holds_scan(now.scan, before.scan));
        assert(tells_of(
            now.scan,
            path,
            number,
            markers[n - 1].kind,
            body,
            name_of(before.active),
            config.implicit_anchors,
        ));
        assert forall|k: int| 0 <= k < n implies exists|active: Option<Seq<char>>| #[trigger]
            tells_of(
                now.scan,
                path,
                number,
                (#[trigger] markers[k]).kind,
                marker_body(line, markers, k),
                active,
                config.implicit_anchors,
            ) by {
            if k < n - 1 {
                let active = choose|active: Option<Seq<char>>| #[trigger]
                    tells_of(
                        before.scan,
                        path,
                        number,
                        markers[k].kind,
                        marker_body(line, markers, k),
                        active,
                        config.implicit_anchors,
                    );
                lemma_tells_more(
                    now.scan,
                    before.scan,
                    path,
                    number,
                    markers[k].kind,
                    marker_body(line, markers, k),
                    active,
                    config.implicit_anchors,
                );
            }
        }
        if n > 1 {
            lemma_tells_more(
                now.scan,
                before.scan,
                path,
                number,
                markers[0].kind,
                marker_body(line, markers, 0),
                name_of(p.active),
                config.implicit_anchors,
            );
        }
    }
}

proof fn lemma_lines_kept(
    path: Seq<char>,
    text: Seq<char>,
    config: AnnotationConfigView,
    n: int,
    m: int,
)
    requires
        0 <= n <= m,
    ensures
        holds_scan(
            after_lines(path, text, config, m).scan,
            after_lines(path, text, config, n).scan,
        ),
    decreases m,
{
    if n < m {
        lemma_lines_kept(path, text, config, n, m - 1);
        let before = after_lines(path, text, config, m - 1);
        let line = lines(text)[m - 1];
        let start = ProgressView {
            active: still_active(before.active, m, config.anchor_block_gap as int),
            ..before
        };
        lemma_markers_read(
            path,
            text,
            config,
            m,
            line,
            line_markers(line, config).len() as int,
            start,
        );
    }
}

/// Every annotation of every line is read: a scan tells what it stands for, given an anchor
/// that may be active there, or that it is wrong, and of which line.
pub proof fn every_annotation_is_read(
    path: Seq<char>,
    text: Seq<char>,
    config: AnnotationConfigView,
    i: int,
    k: int,
)
    requires
        config.enabled,
        0 <= i < lines(text).len(),
        0 <= k < line_markers(lines(text)[i], config).len(),
    ensures
        exists|active: Option<Seq<char>>| #[trigger]
            tells_of(
                scan_of(path, text, config),
                path,
                i + 1,
                line_markers(lines(text)[i], config)[k].kind,
                marker_body(lines(text)[i], line_markers(lines(text)[i], config), k),
                active,
                config.implicit_anchors,
            ),
{
    let line = lines(text)[i];
    let markers = line_markers(line, config);
    let before = after_lines(path, text, config, i);
    let after = after_lines(path, text, config, i + 1);
    let start = ProgressView {
        active: still_active(before.active, i + 1, config.anchor_block_gap as int),
        ..before
    };
    let n = markers.len() as int;
    lemma_markers_read(path, text, config, i + 1, line, n, start);
    let last = lines(text).len() as int;
    lemma_lines_kept(path, text, config, i + 1, last);
    let read = after_markers(path, text, config, i + 1, line, n, start);
    assert(read == after);
    assert(markers[k].kind == markers[k].kind);
    let active = choose|active: Option<Seq<char>>| #[trigger]
        tells_of(
            read.scan,
            path,
            i + 1,
            markers[k].kind,
            marker_body(line, markers, k),
            active,
            config.implicit_anchors,
        );
    lemma_tells_more(
        scan_of(path, text, config),
        read.scan,
        path,
        i + 1,
        markers[k].kind,
        marker_body(line, markers, k),
        active,
        config.implicit_anchors,
    );
}

proof fn lemma_active_stays(
    path: Seq<char>,
    text: Seq<char>,
    config: AnnotationConfigView,
    i: int,
    n: int,
    id: Seq<char>,
)
    requires
        0 <= i < n <= lines(text).len(),
        after_lines(path, text, config, i + 1).active == Some((id, i + 1)),
        n - (i + 1) <= config.anchor_block_gap,
        forall|l: int| i < l < n ==> line_markers(#[trigger] lines(text)[l], config).len() == 0,
    ensures
        after_lines(path, text, config, n).active == Some((id, i + 1)),
    decreases n,
{
    if i + 1 < n {
        lemma_active_stays(path, text, config, i, n - 1, id);
        assert(line_markers(lines(text)[n - 1], config).len() == 0);
    }
}

/// An anchor stays active for the lines of the gap: where the last annotation of a line is an
/// anchor and the next lines have none, the first annotation behind them belongs to it, unless
/// it lies farther away than the gap.
pub proof fn annotations_belong_to_the_anchor_above(
    path: Seq<char>,
    text: Seq<char>,
    config: AnnotationConfigView,
    i: int,
    j: int,
    anchor: AnchorView,
)
    requires
        config.enabled,
        0 <= i < j < lines(text).len(),
        j - i <= config.anchor_block_gap,
        line_markers(lines(text)[i], config).len() > 0,
        line_markers(lines(text)[i], config).last().kind == MarkerKind::Anchor,
        anchor_of(
            path,
            i + 1,
            marker_body(
                lines(text)[i],
                line_markers(lines(text)[i], config),
                line_markers(lines(text)[i], config).len() - 1,
            ),
        ) == Ok::<AnchorView, Seq<char>>(anchor),
        forall|l: int| i < l < j ==> line_markers(#[trigger] lines(text)[l], config).len() == 0,
        line_markers(lines(text)[j], config).len() > 0,
    ensures
        tells_of(
            scan_of(path, text, config),
            path,
            j + 1,
            line_markers(lines(text)[j], config)[0].kind,
            marker_body(lines(text)[j], line_markers(lines(text)[j], config), 0),
            Some(anchor.id),
            config.implicit_anchors,
        ),
{
    let line = lines(text)[i];
    let markers = line_markers(line, config);
    let n = markers.len() as int;
    let body = marker_body(line, markers, n - 1);
    let begun = after_lines(path, text, config, i);
    let start = ProgressView {
        active: still_active(begun.active, i + 1, config.anchor_block_gap as int),
        ..begun
    };
    let before = after_markers(path, text, config, i + 1, line, n - 1, start);
    lemma_anchor_read(path, text, i + 1, body, before, config.implicit_anchors);
    assert(after_lines(path, text, config, i + 1).active == Some((anchor.id, i + 1)));
    lemma_active_stays(path, text, config, i, j, anchor.id);
    let reached = after_lines(path, text, config, j);
    let other = lines(text)[j];
    let next = ProgressView {
        active: still_active(reached.active, j + 1, config.anchor_block_gap as int),
        ..reached
    };
    let count = line_markers(other, config).len() as int;
    lemma_markers_read(path, text, config, j + 1, other, count, next);
    lemma_lines_kept(path, text, config, j + 1, lines(text).len() as int);
    lemma_tells_more(
        scan_of(path, text, config),
        after_lines(path, text, config, j + 1).scan,
        path,
        j + 1,
        line_markers(other, config)[0].kind,
        marker_body(other, line_markers(other, config), 0),
        Some(anchor.id),
        config.implicit_anchors,
    );
}

/// Whether a marker of a kind is configured.
pub open spec fn is_configured(
    config: AnnotationConfigView,
    marker: Seq<char>,
    kind: MarkerKind,
) -> bool {
    match kind {
        MarkerKind::Anchor => config.anchor_markers.contains(marker),
        MarkerKind::Strand => config.strand_markers.contains(marker),
        MarkerKind::Relation => config.relation_markers.contains(marker),
    }
}

/// Whether a character is not part of a word.
pub open spec fn parts_words(c: char) -> bool {
    !('a' <= c <= 'z' || 'A' <= c <= 'Z' || '0' <= c <= '9' || c == '_')
}

proof fn lemma_position(line: Seq<char>, marker: Seq<char>, from: int, at: int)
    requires
        0 <= from <= at,
        marker.len() > 0,
        matches_at(line, marker, at),
        stands_alone(line, at, (at + marker.len()) as int),
        forall|p: int|
            #[trigger] matches_at(line, marker, p) && p != at ==> p + marker.len() <= at || p >= at
                + marker.len(),
    ensures
        marker_positions(line, marker, from).contains(at),
    decreases line.len() - from,
{
    lemma_find_from(line, marker, from);
    let q = find_from(line, marker, from)->0;
    let rest = marker_positions(line, marker, (q + marker.len()) as int);
    if q == at {
        assert(marker_positions(line, marker, from)[0] == at);
    } else {
        assert(matches_at(line, marker, q));
        lemma_position(line, marker, (q + marker.len()) as int, at);
        let k = rest.index_of(at);
        if stands_alone(line, q, (q + marker.len()) as int) {
            assert((seq![q] + rest)[k + 1] == at);
        }
    }
}

proof fn lemma_positions_match(line: Seq<char>, marker: Seq<char>, from: int, k: int)
    requires
        0 <= from,
        0 <= k < marker_positions(line, marker, from).len(),
    ensures
        marker.len() > 0,
        matches_at(line, marker, marker_positions(line, marker, from)[k]),
    decreases line.len() - from,
{
    lemma_find_from(line, marker, from);
    let q = find_from(line, marker, from)->0;
    let end = (q + marker.len()) as int;
    if stands_alone(line, q, end) {
        if k > 0 {
            lemma_positions_match(line, marker, end, k - 1);
        }
    } else {
        lemma_positions_match(line, marker, end, k);
    }
}

/// Whether a marker in a line is an occurrence of one of some texts.
spec fn is_occurrence(line: Seq<char>, markers: Seq<Seq<char>>, m: MarkerView) -> bool {
    exists|i: int|
        0 <= i < markers.len() && m.len == (#[trigger] markers[i]).len() && m.len > 0 && matches_at(
            line,
            markers[i],
            m.start,
        )
}

proof fn lemma_kind_markers(line: Seq<char>, markers: Seq<Seq<char>>, kind: MarkerKind, n: int)
    requires
        0 <= n <= markers.len(),
    ensures
        forall|j: int|
            0 <= j < kind_markers(line, markers, kind, n).len() ==> {
                &&& (#[trigger] kind_markers(line, markers, kind, n)[j]).kind == kind
                &&& is_occurrence(line, markers, kind_markers(line, markers, kind, n)[j])
            },
    decreases n,
{
    if n > 0 {
        lemma_kind_markers(line, markers, kind, n - 1);
        let before = kind_markers(line, markers, kind, n - 1);
        let all = kind_markers(line, markers, kind, n);
        let positions = marker_positions(line, markers[n - 1], 0);
        assert forall|j: int| 0 <= j < all.len() implies {
            &&& (#[trigger] all[j]).kind == kind
            &&& is_occurrence(line, markers, all[j])
        } by {
            if j < before.len() {
                assert(all[j] == before[j]);
            } else {
                lemma_positions_match(line, markers[n - 1], 0, j - before.len());
                assert(matches_at(line, markers[n - 1], all[j].start));
            }
        }
    }
}

proof fn lemma_kind_marker(
    line: Seq<char>,
    markers: Seq<Seq<char>>,
    kind: MarkerKind,
    n: int,
    i: int,
    at: int,
)
    requires
        0 <= i < n <= markers.len(),
        marker_positions(line, markers[i], 0).contains(at),
    ensures
        kind_markers(line, markers, kind, n).contains(
            MarkerView { start: at, len: markers[i].len() as int, kind },
        ),
    decreases n,
{
    let before = kind_markers(line, markers, kind, n - 1);
    let positions = marker_positions(line, markers[n - 1], 0);
    let placed = placed_markers(positions, markers[n - 1].len() as int, kind);
    let all = kind_markers(line, markers, kind, n);
    let m = MarkerView { start: at, len: markers[i].len() as int, kind };
    if i < n - 1 {
        lemma_kind_marker(line, markers, kind, n - 1, i, at);
        let k = before.index_of(m);
        assert(all[k] == m);
    } else {
        let k = positions.index_of(at);
        assert(placed[k] == m);
        assert(all[before.len() + k] == m);
    }
}

proof fn lemma_next_marker_is_first(markers: Seq<MarkerView>, from: int, n: int)
    requires
        0 <= n <= markers.len(),
    ensures
        match next_marker(markers, from, n) {
            None => forall|j: int| 0 <= j < n ==> (#[trigger] markers[j]).start < from,
            Some(i) => {
                &&& 0 <= i < n
                &&& markers[i].start >= from
                &&& forall|j: int|
                    0 <= j < n && (#[trigger] markers[j]).start >= from ==> markers[i].start
                        <= markers[j].start
            },
        },
    decreases n,
{
    if n > 0 {
        lemma_next_marker_is_first(markers, from, n - 1);
    }
}

proof fn lemma_chained(
    markers: Seq<MarkerView>,
    from: int,
    limit: int,
    m: MarkerView,
)
    requires
        0 <= from <= m.start,
        m.len > 0,
        m.start + m.len <= limit,
        markers.contains(m),
        forall|j: int|
            0 <= j < markers.len() ==> {
                let other = #[trigger] markers[j];
                &&& other.len > 0
                &&& other.start + other.len <= limit
                &&& other == m || other.start + other.len <= m.start || other.start >= m.start
                    + m.len
            },
    ensures
        marker_chain(markers, from, limit).contains(m),
    decreases limit - from,
{
    lemma_next_marker_is_first(markers, from, markers.len() as int);
    let at = markers.index_of(m);
    assert(markers[at].start >= from);
    let i = next_marker(markers, from, markers.len() as int)->0;
    let first = markers[i];
    let rest = marker_chain(markers, first.start + first.len, limit);
    let all = marker_chain(markers, from, limit);
    if first == m {
        assert(all[0] == m);
    } else {
        assert(first.start <= m.start);
        lemma_chained(markers, first.start + first.len, limit, m);
        let k = rest.index_of(m);
        assert(all[k + 1] == m);
    }
}

/// A configured marker that is no part of a longer word starts an annotation of its kind,
/// wherever in the line it stands, unless it shares characters with another marker or is
/// configured for another kind too.
pub proof fn markers_start_annotations(
    line: Seq<char>,
    config: AnnotationConfigView,
    marker: Seq<char>,
    kind: MarkerKind,
    at: int,
)
    requires
        is_configured(config, marker, kind),
        marker.len() > 0,
        matches_at(line, marker, at),
        at == 0 || parts_words(line[at - 1]),
        at + marker.len() == line.len() || parts_words(line[(at + marker.len()) as int]),
        forall|other: Seq<char>, k: MarkerKind, p: int| #[trigger]
            is_configured(config, other, k) && #[trigger] matches_at(line, other, p) && !(other
                == marker && k == kind && p == at) ==> p + other.len() <= at || p >= at
                + marker.len(),
    ensures
        line_markers(line, config).contains(
            MarkerView { start: at, len: marker.len() as int, kind },
        ),
{
    let m = MarkerView { start: at, len: marker.len() as int, kind };
    let all = all_markers(line, config);
    let a = config.anchor_markers;
    let s = config.strand_markers;
    let r = config.relation_markers;
    let of_anchors = kind_markers(line, a, MarkerKind::Anchor, a.len() as int);
    let of_strands = kind_markers(line, s, MarkerKind::Strand, s.len() as int);
    let of_relations = kind_markers(line, r, MarkerKind::Relation, r.len() as int);
    lemma_kind_markers(line, a, MarkerKind::Anchor, a.len() as int);
    lemma_kind_markers(line, s, MarkerKind::Strand, s.len() as int);
    lemma_kind_markers(line, r, MarkerKind::Relation, r.len() as int);
    assert(all == of_anchors + of_strands + of_relations);
    assert(stands_alone(line, at, (at + marker.len()) as int));
    assert forall|p: int| #[trigger] matches_at(line, marker, p) && p != at implies p
        + marker.len() <= at || p >= at + marker.len() by {
        assert(is_configured(config, marker, kind));
    }
    lemma_position(line, marker, 0, at);
    match kind {
        MarkerKind::Anchor => {
            lemma_kind_marker(line, a, kind, a.len() as int, a.index_of(marker), at);
            let k = of_anchors.index_of(m);
            assert(all[k] == m);
        },
        MarkerKind::Strand => {
            lemma_kind_marker(line, s, kind, s.len() as int, s.index_of(marker), at);
            let k = of_strands.index_of(m);
            assert(all[of_anchors.len() + k] == m);
        },
        MarkerKind::Relation => {
            lemma_kind_marker(line, r, kind, r.len() as int, r.index_of(marker), at);
            let k = of_relations.index_of(m);
            assert(all[of_anchors.len() + of_strands.len() + k] == m);
        },
    }
    assert forall|j: int| 0 <= j < all.len() implies {
        let other = #[trigger] all[j];
        &&& other.len > 0
        &&& other.start + other.len <= line.len()
        &&& other == m || other.start + other.len <= m.start || other.start >= m.start + m.len
    } by {
        let other = all[j];
        let texts = if j < of_anchors.len() {
            assert(other == of_anchors[j]);
            a
        } else if j < of_anchors.len() + of_strands.len() {
            assert(other == of_strands[j - of_anchors.len()]);
            s
        } else {
            assert(other == of_relations[j - of_anchors.len() - of_strands.len()]);
            r
        };
        assert(is_occurrence(line, texts, other));
        let i = choose|i: int|
            0 <= i < texts.len() && other.len == (#[trigger] texts[i]).len() && other.len > 0
                && matches_at(line, texts[i], other.start);
        assert(texts.contains(texts[i]));
        assert(is_configured(config, texts[i], other.kind));
        assert(matches_at(line, texts[i], other.start));
    }
    lemma_chained(all, 0, line.len() as int, m);
}

/// Whether a word gives a value to a name.
pub open spec fn gives(word: Seq<char>, name: Seq<char>, value: Seq<char>) -> bool {
    word == name + seq!['='] + value && !name.contains('=')
}

proof fn lemma_index_from(s: Seq<char>, c: char, from: int)
    requires
        0 <= from <= s.len(),
    ensures
        from <= index_from(s, c, from) <= s.len(),
        index_from(s, c, from) < s.len() ==> s[index_from(s, c, from)] == c,
        forall|k: int| from <= k < index_from(s, c, from) ==> s[k] != c,
    decreases s.len() - from,
{
    if from < s.len() && s[from] != c {
        lemma_index_from(s, c, from + 1);
    }
}

proof fn lemma_equals_sign(word: Seq<char>)
    ensures
        ({
            let at = index_from(word, '=', 0);
            &&& at >= word.len() <==> !word.contains('=')
            &&& at < word.len() ==> gives(word, word.take(at), word.skip(at + 1))
        }),
        forall|name: Seq<char>, value: Seq<char>| #[trigger]
            gives(word, name, value) ==> index_from(word, '=', 0) == name.len() && word.take(
                name.len() as int,
            ) == name && word.skip(name.len() as int + 1) == value,
{
    lemma_index_from(word, '=', 0);
    let at = index_from(word, '=', 0);
    if at < word.len() {
        assert(word[at] == '=');
        assert(word =~= word.take(at) + seq!['='] + word.skip(at + 1));
        if word.take(at).contains('=') {
            let k = word.take(at).index_of('=');
            assert(word[k] == '=');
        }
    } else if word.contains('=') {
        let k = word.index_of('=');
        assert(word[k] == '=');
    }
    assert forall|name: Seq<char>, value: Seq<char>| #[trigger] gives(word, name, value) implies at
        == name.len() && word.take(name.len() as int) == name && word.skip(name.len() as int + 1)
        == value by {
        assert(word[name.len() as int] == '=');
        if at < name.len() {
            assert(name[at] == '=');
            assert(name.contains('='));
        }
        assert(word.take(name.len() as int) =~= name);
        assert(word.skip(name.len() as int + 1) =~= value);
    }
}

/// Every word of an annotation is told: a word without an equals sign is kept in its place
/// among such words, and any other gives its value to its name, the last one where several
/// give one to it. Nothing else is told.
pub proof fn every_word_is_told(words: Seq<Seq<char>>, n: int)
    requires
        0 <= n <= words.len(),
        word_tokens(words, n) is Ok,
    ensures
        ({
            let told = word_tokens(words, n)->Ok_0;
            &&& told.positionals == words.take(n).filter(|word: Seq<char>| !word.contains('='))
            &&& forall|k: int, name: Seq<char>, value: Seq<char>|
                0 <= k < n && #[trigger] gives(words[k], name, value) && (forall|j: int, other: Seq<char>|
                    k < j < n ==> !(#[trigger] gives(words[j], name, other))) ==> told.values.contains_key(
                    name,
                ) && told.values[name] == scalar_value(value)
            &&& forall|name: Seq<char>| #[trigger]
                told.values.contains_key(name) ==> exists|k: int, value: Seq<char>|
                    0 <= k < n && #[trigger] gives(words[k], name, value)
        }),
    decreases n,
{
    let plain = |word: Seq<char>| !word.contains('=');
    reveal(Seq::filter);
    if n == 0 {
        assert(words.take(0).filter(plain) =~= seq![]);
    } else {
        every_word_is_told(words, n - 1);
        let before = word_tokens(words, n - 1)->Ok_0;
        let told = word_tokens(words, n)->Ok_0;
        let word = words[n - 1];
        lemma_equals_sign(word);
        let at = index_from(word, '=', 0);
        assert(words.take(n).drop_last() =~= words.take(n - 1));
        assert(words.take(n).last() == word);
        assert forall|k: int, name: Seq<char>, value: Seq<char>|
            0 <= k < n && #[trigger] gives(words[k], name, value) && (forall|j: int, other: Seq<char>|
                k < j < n ==> !(#[trigger] gives(words[j], name, other)))
            implies told.values.contains_key(name) && told.values[name] == scalar_value(value) by {
            if k < n - 1 {
                if at < word.len() && word.take(at) == name {
                    assert(gives(words[n - 1], name, word.skip(at + 1)));
                }
            }
        }
        assert forall|name: Seq<char>| #[trigger] told.values.contains_key(name) implies exists|
            k: int,
            value: Seq<char>,
        |
            0 <= k < n && #[trigger] gives(words[k], name, value) by {
            if before.values.contains_key(name) {
                let (k, value) = choose|k: int, value: Seq<char>|
                    0 <= k < n - 1 && #[trigger] gives(words[k], name, value);
                assert(gives(words[k], name, value));
            } else {
                assert(gives(words[n - 1], name, word.skip(at + 1)));
            }
        }
    }
}

proof fn lemma_filled(parts: Seq<Seq<char>>, n: int, x: Seq<char>)
    requires
        0 <= n <= parts.len(),
    ensures
        filled_parts(parts, n).contains(x) <==> x.len() > 0 && exists|k: int|
            0 <= k < n && trim(#[trigger] parts[k]) == x,
    decreases n,
{
    if n > 0 {
        lemma_filled(parts, n - 1, x);
        if exists|k: int| 0 <= k < n - 1 && trim(#[trigger] parts[k]) == x {
            let k = choose|k: int| 0 <= k < n - 1 && trim(#[trigger] parts[k]) == x;
            assert(trim(parts[k]) == x);
        }
        if trim(parts[n - 1]) == x {
            assert(trim(parts[n - 1]) == x);
        }
    }
}

/// A list of texts that commas separate holds each of them, trimmed, but for empty ones.
pub proof fn lists_hold_every_part(text: Seq<char>, x: Seq<char>)
    ensures
        comma_set(text).contains(x) <==> x.len() > 0 && exists|k: int|
            0 <= k < split(text, ',').len() && trim(#[trigger] split(text, ',')[k]) == x,
{
    lemma_filled(split(text, ','), split(text, ',').len() as int, x);
}

/// An anchor annotation says all of its anchor: its name is the first word, else the value of
/// its id; target, kind and tags are what it gives, and where it gives no lines the anchor
/// stands on the line of the annotation.
pub proof fn anchor_annotations_say_all(path: Seq<char>, number: int, t: TokensView)
    requires
        anchor_from(path, number, t) is Ok,
    ensures
        ({
            let anchor = anchor_from(path, number, t)->Ok_0;
            let given = |name: Seq<char>|
                if t.values.contains_key(name) {
                    Some(value_text(t.values[name]))
                } else {
                    None::<Seq<char>>
                };
            &&& t.positionals.len() > 0 ==> anchor.id == t.positionals[0]
            &&& t.positionals.len() == 0 ==> given("id"@) == Some(anchor.id)
            &&& anchor.target == given("target"@)
            &&& anchor.kind == given("kind"@)
            &&& anchor.tags == match given("tags"@) {
                Some(text) => comma_set(text),
                None => Set::empty(),
            }
            &&& anchor.location is Some
            &&& anchor.location->0.symbol == given("symbol"@)
            &&& anchor.location->0.language == given("language"@)
            &&& anchor.location->0.fingerprint == given("fingerprint"@)
            &&& given("lines"@) is None && given("line"@) is None && given("line_start"@) is None
                ==> anchor.location->0.line_start == from_line(path, number).line
                && anchor.location->0.line_end == from_line(path, number).line
            &&& given("path"@) is None ==> location_path(path) == Ok::<Seq<char>, Seq<char>>(
                anchor.location->0.path,
            )
            &&& given("path"@) is Some ==> location_path(given("path"@)->0) == Ok::<
                Seq<char>,
                Seq<char>,
            >(anchor.location->0.path)
        }),
{
    lemma_names_differ();
}

/// The names of attributes differ: each in its length or in its first two characters.
proof fn lemma_names_differ()
    ensures
        start_of("id"@) == (2nat, 'i', 'd'),
        start_of("path"@) == (4nat, 'p', 'a'),
        start_of("line_start"@) == (10nat, 'l', 'i'),
        start_of("line_end"@) == (8nat, 'l', 'i'),
        start_of("symbol"@) == (6nat, 's', 'y'),
        start_of("language"@) == (8nat, 'l', 'a'),
        start_of("fingerprint"@) == (11nat, 'f', 'i'),
        start_of("watch"@) == (5nat, 'w', 'a'),
        start_of("lines"@) == (5nat, 'l', 'i'),
        start_of("line"@) == (4nat, 'l', 'i'),
        start_of("target"@) == (6nat, 't', 'a'),
        start_of("kind"@) == (4nat, 'k', 'i'),
        start_of("tags"@) == (4nat, 't', 'a'),
        start_of("description"@) == (11nat, 'd', 'e'),
{
    reveal_strlit("id");
    reveal_strlit("path");
    reveal_strlit("line_start");
    reveal_strlit("line_end");
    reveal_strlit("symbol");
    reveal_strlit("language");
    reveal_strlit("fingerprint");
    reveal_strlit("watch");
    reveal_strlit("lines");
    reveal_strlit("line");
    reveal_strlit("target");
    reveal_strlit("kind");
    reveal_strlit("tags");
    reveal_strlit("description");
}

/// How long a name is, and how it starts.
spec fn start_of(name: Seq<char>) -> (nat, char, char) {
    (name.len(), name[0], name[1])
}

} // verus!
