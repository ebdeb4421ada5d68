//! What metadata files keep.

use vstd::prelude::*;

use crate::edit_laws::{has_leading, leads, lemma_relations_left};
use crate::edits::{has_relation, is_relation, other_relations, strand_edited, StrandEdit};
use crate::metadata::{
    anchor_file, document_items, file_problems, item_place, item_position, item_removal, loaded,
    loaded_items, loaded_relations, other_items, placed_items, placed_relations, relation_file,
    relation_removal, relation_values, selected_paths, strand_file, strand_update, supported_paths,
    with_items, DocumentView, EditView, Identified, LoadedMetadataView, MetadataFileView,
    MetadataFiles, MetadataItemView,
};
use crate::model::{Anchor, AnchorView, DiagnosticView, RelationView, Strand, StrandView};
use crate::paths::{distinct_paths, extension, insert_path, is_same_path, path_less, sort_paths};

verus! {

/// Whether a document has an item.
pub open spec fn has_item<T>(document: DocumentView<T>, item: T) -> bool {
    match document {
        DocumentView::Wrapped(items) => items.contains(item),
        DocumentView::List(items) => items.contains(item),
        DocumentView::Single(own) => own == item,
    }
}

/// Whether what was loaded has an item of a file.
pub open spec fn has_loaded<T>(
    all: Seq<MetadataItemView<T>>,
    path: Seq<char>,
    item: T,
) -> bool {
    exists|i: int|
        0 <= i < all.len() && (#[trigger] all[i]).value == item && all[i].path == path
}

proof fn lemma_items<T>(document: DocumentView<T>, item: T)
    ensures
        has_item(document, item) <==> document_items(document).contains(item),
{
    if let DocumentView::Single(own) = document {
        assert(seq![own][0] == own);
    }
}

proof fn lemma_placed<T: Identified>(
    path: Seq<char>,
    text: Seq<char>,
    items: Seq<<T as DeepView>::V>,
    n: int,
)
    requires
        0 <= n <= items.len(),
    ensures
        placed_items::<T>(path, text, items, n).len() == n,
        forall|i: int|
            0 <= i < n ==> (#[trigger] placed_items::<T>(path, text, items, n)[i]).value == items[i]
                && placed_items::<T>(path, text, items, n)[i].path == path,
    decreases n,
{
    if n > 0 {
        lemma_placed::<T>(path, text, items, n - 1);
    }
}

proof fn lemma_placed_relations(path: Seq<char>, items: Seq<RelationView>, n: int)
    requires
        0 <= n <= items.len(),
    ensures
        placed_relations(path, items, n).len() == n,
        forall|i: int|
            0 <= i < n ==> (#[trigger] placed_relations(path, items, n)[i]).value == items[i]
                && placed_relations(path, items, n)[i].path == path,
    decreases n,
{
    if n > 0 {
        lemma_placed_relations(path, items, n - 1);
    }
}

/// Whether one of the first files has an item.
spec fn file_has<T>(
    files: Seq<MetadataFileView<T>>,
    n: int,
    path: Seq<char>,
    item: T,
) -> bool {
    exists|f: int|
        0 <= f < n && (#[trigger] files[f]).path == path && files[f].document is Ok && has_item(
            files[f].document->Ok_0,
            item,
        )
}

proof fn lemma_appended<T>(
    before: Seq<MetadataItemView<T>>,
    own: Seq<MetadataItemView<T>>,
    path: Seq<char>,
    item: T,
)
    ensures
        has_loaded(before + own, path, item) <==> has_loaded(before, path, item) || has_loaded(
            own,
            path,
            item,
        ),
{
    let all = before + own;
    if has_loaded(before, path, item) {
        let i = choose|i: int|
            0 <= i < before.len() && (#[trigger] before[i]).value == item && before[i].path == path;
        assert(all[i] == before[i]);
    }
    if has_loaded(own, path, item) {
        let i = choose|i: int|
            0 <= i < own.len() && (#[trigger] own[i]).value == item && own[i].path == path;
        assert(all[before.len() + i] == own[i]);
    }
    if has_loaded(all, path, item) {
        let i = choose|i: int|
            0 <= i < all.len() && (#[trigger] all[i]).value == item && all[i].path == path;
        if i < before.len() {
            assert(all[i] == before[i]);
        } else {
            assert(all[i] == own[i - before.len()]);
        }
    }
}

proof fn lemma_loaded<T: Identified>(
    files: Seq<MetadataFileView<<T as DeepView>::V>>,
    n: int,
    path: Seq<char>,
    item: <T as DeepView>::V,
)
    requires
        0 <= n <= files.len(),
    ensures
        has_loaded(loaded_items::<T>(files, n), path, item) <==> file_has(files, n, path, item),
    decreases n,
{
    if n > 0 {
        lemma_loaded::<T>(files, n - 1, path, item);
        let before = loaded_items::<T>(files, n - 1);
        let file = files[n - 1];
        if file_has(files, n - 1, path, item) {
            let f = choose|f: int|
                0 <= f < n - 1 && (#[trigger] files[f]).path == path && files[f].document is Ok
                    && has_item(files[f].document->Ok_0, item);
            assert(files[f].path == path);
            assert(file_has(files, n, path, item));
        }
        if let Ok(document) = file.document {
            let items = document_items(document);
            let own = placed_items::<T>(file.path, file.text, items, items.len() as int);
            lemma_placed::<T>(file.path, file.text, items, items.len() as int);
            lemma_appended(before, own, path, item);
            lemma_items(document, item);
            if has_loaded(own, path, item) {
                let i = choose|i: int|
                    0 <= i < own.len() && (#[trigger] own[i]).value == item && own[i].path == path;
                assert(items[i] == item);
                assert(files[n - 1].path == path);
            }
            if file.path == path && has_item(document, item) {
                let i = items.index_of(item);
                assert(own[i].value == item);
            }
        }
    }
}

proof fn lemma_loaded_relations(
    files: Seq<MetadataFileView<RelationView>>,
    n: int,
    path: Seq<char>,
    item: RelationView,
)
    requires
        0 <= n <= files.len(),
    ensures
        has_loaded(loaded_relations(files, n), path, item) <==> file_has(files, n, path, item),
    decreases n,
{
    if n > 0 {
        lemma_loaded_relations(files, n - 1, path, item);
        let before = loaded_relations(files, n - 1);
        let file = files[n - 1];
        if file_has(files, n - 1, path, item) {
            let f = choose|f: int|
                0 <= f < n - 1 && (#[trigger] files[f]).path == path && files[f].document is Ok
                    && has_item(files[f].document->Ok_0, item);
            assert(files[f].path == path);
            assert(file_has(files, n, path, item));
        }
        if let Ok(document) = file.document {
            let items = document_items(document);
            let own = placed_relations(file.path, items, items.len() as int);
            lemma_placed_relations(file.path, items, items.len() as int);
            lemma_appended(before, own, path, item);
            lemma_items(document, item);
            if has_loaded(own, path, item) {
                let i = choose|i: int|
                    0 <= i < own.len() && (#[trigger] own[i]).value == item && own[i].path == path;
                assert(items[i] == item);
                assert(files[n - 1].path == path);
            }
            if file.path == path && has_item(document, item) {
                let i = items.index_of(item);
                assert(own[i].value == item);
            }
        }
    }
}

proof fn lemma_file_problem<T>(
    root: Seq<char>,
    files: Seq<MetadataFileView<T>>,
    n: int,
    f: int,
) -> (x: DiagnosticView)
    requires
        0 <= f < n <= files.len(),
        files[f].document is Err,
    ensures
        file_problems(root, files, n).contains(x),
        x.message == files[f].document->Err_0,
        x.severity == crate::model::Severity::Error,
    decreases n,
{
    let before = file_problems(root, files, n - 1);
    let now = file_problems(root, files, n);
    if f < n - 1 {
        let x = lemma_file_problem(root, files, n - 1, f);
        let at = before.index_of(x);
        assert(now[at] == x);
        x
    } else {
        assert(now[now.len() - 1] == now.last());
        now.last()
    }
}

/// Everything that the files of a repository say is loaded, each item with its file, and
/// nothing else.
pub proof fn every_item_is_loaded(
    root: Seq<char>,
    files: MetadataFiles,
    path: Seq<char>,
    strand: StrandView,
    anchor: AnchorView,
    relation: RelationView,
)
    ensures
        has_loaded(loaded(root, files).strands, path, strand) <==> exists|f: int|
            0 <= f < files.strands.deep_view().len() && (
            #[trigger] files.strands.deep_view()[f]).path == path
                && files.strands.deep_view()[f].document is Ok && has_item(
                files.strands.deep_view()[f].document->Ok_0,
                strand,
            ),
        has_loaded(loaded(root, files).anchors, path, anchor) <==> exists|f: int|
            0 <= f < files.anchors.deep_view().len() && (
            #[trigger] files.anchors.deep_view()[f]).path == path
                && files.anchors.deep_view()[f].document is Ok && has_item(
                files.anchors.deep_view()[f].document->Ok_0,
                anchor,
            ),
        has_loaded(loaded(root, files).relations, path, relation) <==> exists|f: int|
            0 <= f < files.relations.deep_view().len() && (
            #[trigger] files.relations.deep_view()[f]).path == path
                && files.relations.deep_view()[f].document is Ok && has_item(
                files.relations.deep_view()[f].document->Ok_0,
                relation,
            ),
{
    let s = files.strands.deep_view();
    let a = files.anchors.deep_view();
    let r = files.relations.deep_view();
    lemma_loaded::<Strand>(s, s.len() as int, path, strand);
    lemma_loaded::<Anchor>(a, a.len() as int, path, anchor);
    lemma_loaded_relations(r, r.len() as int, path, relation);
}

/// Whether diagnostics tell an error in these words.
pub open spec fn tells_error(all: Seq<DiagnosticView>, message: Seq<char>) -> bool {
    exists|i: int|
        0 <= i < all.len() && (#[trigger] all[i]).severity == crate::model::Severity::Error
            && all[i].message == message
}

/// Every file that could not be read is told as an error.
pub proof fn unreadable_files_are_told(root: Seq<char>, files: MetadataFiles, f: int)
    ensures
        0 <= f < files.strands.deep_view().len() && files.strands.deep_view()[f].document is Err
            ==> tells_error(
            loaded(root, files).diagnostics,
            files.strands.deep_view()[f].document->Err_0,
        ),
        0 <= f < files.anchors.deep_view().len() && files.anchors.deep_view()[f].document is Err
            ==> tells_error(
            loaded(root, files).diagnostics,
            files.anchors.deep_view()[f].document->Err_0,
        ),
        0 <= f < files.relations.deep_view().len() && files.relations.deep_view()[f].document is Err
            ==> tells_error(
            loaded(root, files).diagnostics,
            files.relations.deep_view()[f].document->Err_0,
        ),
{
    let s = files.strands.deep_view();
    let a = files.anchors.deep_view();
    let r = files.relations.deep_view();
    let x = file_problems(root, s, s.len() as int);
    let y = file_problems(root, a, a.len() as int);
    let z = file_problems(root, r, r.len() as int);
    let all = loaded(root, files).diagnostics;
    assert(all == x + y + z);
    if 0 <= f < s.len() && s[f].document is Err {
        let d = lemma_file_problem(root, s, s.len() as int, f);
        let at = x.index_of(d);
        assert(all[at] == d);
    }
    if 0 <= f < a.len() && a[f].document is Err {
        let d = lemma_file_problem(root, a, a.len() as int, f);
        let at = y.index_of(d);
        assert(all[x.len() + at] == d);
    }
    if 0 <= f < r.len() && r[f].document is Err {
        let d = lemma_file_problem(root, r, r.len() as int, f);
        let at = z.index_of(d);
        assert(all[x.len() + y.len() + at] == d);
    }
}

proof fn lemma_other_items<T: Identified>(
    items: Seq<<T as DeepView>::V>,
    id: Seq<char>,
    n: int,
    x: <T as DeepView>::V,
)
    requires
        0 <= n <= items.len(),
    ensures
        other_items::<T>(items, id, n).contains(x) <==> items.take(n).contains(x) && T::named(x)
            != id,
        other_items::<T>(items, id, n).len() <= n,
        other_items::<T>(items, id, n).len() == n ==> forall|k: int|
            0 <= k < n ==> T::named(#[trigger] items[k]) != id,
    decreases n,
{
    if n > 0 {
        lemma_other_items::<T>(items, id, n - 1, x);
        let before = other_items::<T>(items, id, n - 1);
        let last = items[n - 1];
        assert(items.take(n) =~= items.take(n - 1).push(last));
        lemma_more(items.take(n - 1), last, x);
        lemma_more(before, last, x);
    }
}

proof fn lemma_more<T>(all: Seq<T>, x: T, y: T)
    ensures
        all.push(x).contains(y) <==> all.contains(y) || x == y,
{
    let more = all.push(x);
    if more.contains(y) {
        let k = more.index_of(y);
        if k < all.len() {
            assert(all[k] == y);
        }
    }
    if all.contains(y) {
        let k = all.index_of(y);
        assert(more[k] == y);
    }
    assert(more[all.len() as int] == x);
}

/// What taking away an item with an id does: a file that held it goes where it held nothing
/// else, or is written with all other items and without any that has the id. Where a file has
/// the id and no file before it is unreadable, something is taken away.
proof fn lemma_removal<T: Identified>(
    files: Seq<MetadataFileView<<T as DeepView>::V>>,
    id: Seq<char>,
    i: int,
)
    requires
        0 <= i <= files.len(),
    ensures
        match item_removal::<T>(files, id, i) {
            Ok(None) => forall|f: int, x: <T as DeepView>::V|
                i <= f < files.len() && files[f].document is Ok && #[trigger] has_item(
                    files[f].document->Ok_0,
                    x,
                ) ==> T::named(x) != id,
            Ok(Some(edit)) => exists|f: int|
                i <= f < files.len() && #[trigger] is_removal::<T>(files[f], id, edit),
            Err(_) => exists|f: int| i <= f < files.len() && (#[trigger] files[f]).document is Err,
        },
    decreases files.len() - i,
{
    if i < files.len() {
        match files[i].document {
            Err(message) => {
                assert(files[i].document is Err);
            },
            Ok(document) => {
                let items = document_items(document);
                let n = items.len() as int;
                let left = other_items::<T>(items, id, n);
                assert(items.take(n) =~= items);
                assert forall|x: <T as DeepView>::V|
                    (#[trigger] left.contains(x)) <==> has_item(document, x) && T::named(x)
                        != id by {
                    lemma_other_items::<T>(items, id, n, x);
                    lemma_items(document, x);
                }
                if left.len() == items.len() {
                    lemma_removal::<T>(files, id, i + 1);
                    assert forall|x: <T as DeepView>::V|
                        #[trigger] has_item(document, x) implies T::named(x) != id by {
                        lemma_other_items::<T>(items, id, n, x);
                        lemma_items(document, x);
                        let k = items.index_of(x);
                        assert(T::named(items[k]) != id);
                    }
                    if let Ok(Some(edit)) = item_removal::<T>(files, id, i + 1) {
                        let f = choose|f: int|
                            i + 1 <= f < files.len() && #[trigger] is_removal::<T>(
                                files[f],
                                id,
                                edit,
                            );
                        assert(is_removal::<T>(files[f], id, edit));
                    }
                    if item_removal::<T>(files, id, i + 1) is Err {
                        let f = choose|f: int|
                            i + 1 <= f < files.len() && (#[trigger] files[f]).document is Err;
                        assert(files[f].document is Err);
                    }
                } else {
                    let edit = item_removal::<T>(files, id, i)->Ok_0->0;
                    if let DocumentView::Single(own) = document {
                        if T::named(own) != id {
                            lemma_items(document, own);
                            assert(has_item(document, own));
                            assert(left.contains(own));
                            assert(other_items::<T>(items, id, 0).len() == 0);
                            assert(items[0] == own);
                            assert(other_items::<T>(items, id, 1).len() == 1);
                        }
                    } else if let EditView::Write(path, written) = edit {
                        assert forall|x: <T as DeepView>::V| #[trigger]
                            has_item(written, x) <==> has_item(document, x) && T::named(x) != id by {
                            assert(left.contains(x) <==> has_item(document, x) && T::named(x) != id);
                        }
                    }
                    assert(is_removal::<T>(files[i], id, edit));
                }
            },
        }
    }
}

/// Whether an edit takes an item away from a file and leaves the others.
pub open spec fn is_removal<T: Identified>(
    file: MetadataFileView<<T as DeepView>::V>,
    id: Seq<char>,
    edit: EditView<<T as DeepView>::V>,
) -> bool {
    &&& file.document is Ok
    &&& match edit {
        EditView::Remove(path) => path == file.path && file.document->Ok_0 is Single && T::named(
            file.document->Ok_0->Single_0,
        ) == id,
        EditView::Write(path, written) => path == file.path && forall|x: <T as DeepView>::V|
            #[trigger]
            has_item(written, x) <==> has_item(file.document->Ok_0, x) && T::named(x) != id,
    }
}

/// A strand is taken away from a file that has it, and every other strand of the file stays.
pub proof fn removing_a_strand_leaves_the_others(
    files: Seq<MetadataFileView<StrandView>>,
    id: Seq<char>,
)
    ensures
        match item_removal::<Strand>(files, id, 0) {
            Ok(None) => forall|f: int, x: StrandView|
                0 <= f < files.len() && files[f].document is Ok && #[trigger] has_item(
                    files[f].document->Ok_0,
                    x,
                ) ==> x.id != id,
            Ok(Some(edit)) => exists|f: int|
                0 <= f < files.len() && #[trigger] is_removal::<Strand>(files[f], id, edit),
            Err(_) => exists|f: int| 0 <= f < files.len() && (#[trigger] files[f]).document is Err,
        },
{
    lemma_removal::<Strand>(files, id, 0);
    if item_removal::<Strand>(files, id, 0) == Ok::<_, Seq<char>>(None::<EditView<StrandView>>) {
        assert forall|f: int, x: StrandView|
            0 <= f < files.len() && files[f].document is Ok && #[trigger] has_item(
                files[f].document->Ok_0,
                x,
            ) implies x.id != id by {
            assert(Strand::named(x) != id);
        }
    }
}

/// An anchor is taken away from a file that has it, and every other anchor of the file stays.
pub proof fn removing_an_anchor_leaves_the_others(
    files: Seq<MetadataFileView<AnchorView>>,
    id: Seq<char>,
)
    ensures
        match item_removal::<Anchor>(files, id, 0) {
            Ok(None) => forall|f: int, x: AnchorView|
                0 <= f < files.len() && files[f].document is Ok && #[trigger] has_item(
                    files[f].document->Ok_0,
                    x,
                ) ==> x.id != id,
            Ok(Some(edit)) => exists|f: int|
                0 <= f < files.len() && #[trigger] is_removal::<Anchor>(files[f], id, edit),
            Err(_) => exists|f: int| 0 <= f < files.len() && (#[trigger] files[f]).document is Err,
        },
{
    lemma_removal::<Anchor>(files, id, 0);
    if item_removal::<Anchor>(files, id, 0) == Ok::<_, Seq<char>>(None::<EditView<AnchorView>>) {
        assert forall|f: int, x: AnchorView|
            0 <= f < files.len() && files[f].document is Ok && #[trigger] has_item(
                files[f].document->Ok_0,
                x,
            ) implies x.id != id by {
            assert(Anchor::named(x) != id);
        }
    }
}

proof fn lemma_position<T: Identified>(items: Seq<<T as DeepView>::V>, id: Seq<char>, i: int)
    requires
        0 <= i <= items.len(),
    ensures
        i <= item_position::<T>(items, id, i) <= items.len(),
        item_position::<T>(items, id, i) < items.len() ==> T::named(
            items[item_position::<T>(items, id, i)],
        ) == id,
        item_position::<T>(items, id, i) == items.len() ==> forall|k: int|
            i <= k < items.len() ==> T::named(#[trigger] items[k]) != id,
    decreases items.len() - i,
{
    if i < items.len() && T::named(items[i]) != id {
        lemma_position::<T>(items, id, i + 1);
    }
}

proof fn lemma_place<T: Identified>(
    files: Seq<MetadataFileView<<T as DeepView>::V>>,
    id: Seq<char>,
    i: int,
)
    requires
        0 <= i <= files.len(),
    ensures
        match item_place::<T>(files, id, i) {
            Err(_) => true,
            Ok(None) => forall|f: int, x: <T as DeepView>::V|
                i <= f < files.len() && files[f].document is Ok && #[trigger] has_item(
                    files[f].document->Ok_0,
                    x,
                ) ==> T::named(x) != id,
            Ok(Some((f, at))) => {
                &&& i <= f < files.len()
                &&& files[f].document is Ok
                &&& 0 <= at < document_items(files[f].document->Ok_0).len()
                &&& T::named(document_items(files[f].document->Ok_0)[at]) == id
            },
        },
    decreases files.len() - i,
{
    if i < files.len() {
        if let Ok(document) = files[i].document {
            let items = document_items(document);
            lemma_position::<T>(items, id, 0);
            if item_position::<T>(items, id, 0) == items.len() {
                lemma_place::<T>(files, id, i + 1);
                assert forall|x: <T as DeepView>::V| #[trigger] has_item(document, x) implies
                    T::named(x) != id by {
                    lemma_items(document, x);
                    let k = items.index_of(x);
                    assert(T::named(items[k]) != id);
                }
            }
        }
    }
}

/// Changing a strand writes the file that has it: with the strand as it is edited, and with
/// all other strands of the file as they are, each in its place.
pub proof fn changing_a_strand_leaves_the_others(
    files: Seq<MetadataFileView<StrandView>>,
    id: Seq<char>,
    edit: StrandEdit<'_>,
)
    requires
        strand_update(files, id, edit) is Ok,
    ensures
        exists|f: int, at: int|
            0 <= f < files.len() && files[f].document is Ok && 0 <= at < document_items(
                files[f].document->Ok_0,
            ).len() && {
                let before = document_items(files[f].document->Ok_0);
                let written = strand_update(files, id, edit)->Ok_0;
                &&& (#[trigger] document_items(files[f].document->Ok_0)[at]).id == id
                &&& written is Write
                &&& written->Write_0 == files[f].path
                &&& document_items(written->Write_1).len() == before.len()
                &&& strand_edited(before[at], edit) == Ok::<StrandView, Seq<char>>(
                    document_items(written->Write_1)[at],
                )
                &&& forall|k: int|
                    0 <= k < before.len() && k != at ==> #[trigger] document_items(
                        written->Write_1,
                    )[k] == before[k]
            },
{
    lemma_place::<Strand>(files, id, 0);
    let (f, at) = item_place::<Strand>(files, id, 0)->Ok_0->0;
    let document = files[f].document->Ok_0;
    let before = document_items(document);
    let written = strand_update(files, id, edit)->Ok_0;
    assert(before[at].id == id);
    assert(document_items(written->Write_1) =~= before.update(
        at,
        strand_edited(before[at], edit)->Ok_0,
    ));
}

/// Whether the extension of a path is that of a document.
pub open spec fn is_document(path: Seq<char>) -> bool {
    ||| extension(path) == Some("yaml"@)
    ||| extension(path) == Some("yml"@)
    ||| extension(path) == Some("json"@)
    ||| extension(path) == Some("toml"@)
}

proof fn lemma_one_more(s: Seq<Seq<char>>, last: Seq<char>, x: Seq<char>)
    ensures
        s.push(last).contains(x) <==> s.contains(x) || x == last,
{
    if s.contains(x) {
        let k = s.index_of(x);
        assert(s.push(last)[k] == x);
    }
    if x == last {
        assert(s.push(last)[s.len() as int] == x);
    }
    if s.push(last).contains(x) && x != last {
        let k = s.push(last).index_of(x);
        assert(s[k] == x);
    }
}

proof fn lemma_supported(paths: Seq<Seq<char>>, n: int, x: Seq<char>)
    requires
        0 <= n <= paths.len(),
    ensures
        supported_paths(paths, n).contains(x) <==> paths.take(n).contains(x) && is_document(x),
    decreases n,
{
    if n > 0 {
        lemma_supported(paths, n - 1, x);
        assert(paths.take(n) =~= paths.take(n - 1).push(paths[n - 1]));
        lemma_one_more(paths.take(n - 1), paths[n - 1], x);
        lemma_one_more(supported_paths(paths, n - 1), paths[n - 1], x);
    }
}

proof fn lemma_inserted(sorted: Seq<Seq<char>>, path: Seq<char>, x: Seq<char>)
    ensures
        insert_path(sorted, path).contains(x) <==> sorted.contains(x) || x == path,
    decreases sorted.len(),
{
    if sorted.len() == 0 || !path_less(path, sorted.last()) {
        lemma_one_more(sorted, path, x);
    } else {
        let front = sorted.drop_last();
        lemma_inserted(front, path, x);
        lemma_one_more(insert_path(front, path), sorted.last(), x);
        lemma_one_more(front, sorted.last(), x);
        assert(front.push(sorted.last()) =~= sorted);
    }
}

proof fn lemma_sorted_contents(paths: Seq<Seq<char>>, x: Seq<char>)
    ensures
        sort_paths(paths).contains(x) <==> paths.contains(x),
    decreases paths.len(),
{
    if paths.len() > 0 {
        let front = paths.drop_last();
        lemma_sorted_contents(front, x);
        lemma_inserted(sort_paths(front), paths.last(), x);
        lemma_one_more(front, paths.last(), x);
        assert(front.push(paths.last()) =~= paths);
    }
}

/// Sorting paths keeps each of them and adds none.
pub proof fn sorted_paths_are_the_same(paths: Seq<Seq<char>>, path: Seq<char>)
    ensures
        sort_paths(paths).len() == paths.len(),
        sort_paths(paths).contains(path) <==> paths.contains(path),
{
    lemma_sorted_contents(paths, path);
    lemma_sorted_len(paths);
}

proof fn lemma_inserted_len(sorted: Seq<Seq<char>>, path: Seq<char>)
    ensures
        insert_path(sorted, path).len() == sorted.len() + 1,
    decreases sorted.len(),
{
    if sorted.len() > 0 && path_less(path, sorted.last()) {
        lemma_inserted_len(sorted.drop_last(), path);
    }
}

proof fn lemma_sorted_len(paths: Seq<Seq<char>>)
    ensures
        sort_paths(paths).len() == paths.len(),
    decreases paths.len(),
{
    if paths.len() > 0 {
        lemma_sorted_len(paths.drop_last());
        lemma_inserted_len(sort_paths(paths.drop_last()), paths.last());
    }
}

/// Whether one of some paths leads to where a path leads.
pub open spec fn has_path(paths: Seq<Seq<char>>, path: Seq<char>) -> bool {
    exists|k: int| 0 <= k < paths.len() && is_same_path(#[trigger] paths[k], path)
}

proof fn lemma_distinct(paths: Seq<Seq<char>>, n: int, i: int, x: Seq<char>)
    requires
        0 <= i < n <= paths.len(),
    ensures
        has_path(distinct_paths(paths, n), paths[i]),
        distinct_paths(paths, n).contains(x) ==> paths.contains(x),
    decreases n,
{
    let before = distinct_paths(paths, n - 1);
    let now = distinct_paths(paths, n);
    if n > 1 {
        lemma_distinct(
            paths,
            n - 1,
            if i < n - 1 {
                i
            } else {
                0
            },
            x,
        );
    }
    lemma_one_more(before, paths[n - 1], x);
    if i < n - 1 {
        let k = choose|k: int| 0 <= k < before.len() && is_same_path(#[trigger] before[k], paths[i]);
        assert(is_same_path(now[k], paths[i]));
    } else {
        assert(is_same_path(now[now.len() - 1], paths[i]));
    }
}

/// Every document that is found in the directory of a kind and every file beside it is read as
/// metadata, under its path or one that leads to the same file, and nothing else is.
pub proof fn every_document_is_read(
    found: Seq<Seq<char>>,
    beside: Seq<Seq<char>>,
    path: Seq<char>,
)
    ensures
        (found.contains(path) && is_document(path)) || beside.contains(path) ==> has_path(
            selected_paths(found, beside),
            path,
        ),
        selected_paths(found, beside).contains(path) ==> (found.contains(path) && is_document(path))
            || beside.contains(path),
{
    let supported = supported_paths(found, found.len() as int);
    let all = supported + beside;
    let sorted = sort_paths(all);
    assert(found.take(found.len() as int) =~= found);
    lemma_supported(found, found.len() as int, path);
    lemma_sorted_contents(all, path);
    if all.contains(path) {
        let i = sorted.index_of(path);
        lemma_distinct(sorted, sorted.len() as int, i, path);
        let k = all.index_of(path);
        if k < supported.len() {
            assert(supported[k] == path);
        } else {
            assert(beside[k - supported.len()] == path);
        }
    } else {
        if supported.contains(path) {
            assert(all[supported.index_of(path)] == path);
        }
        if beside.contains(path) {
            assert(all[supported.len() + beside.index_of(path)] == path);
        }
        if sorted.len() > 0 {
            lemma_distinct(sorted, sorted.len() as int, 0, path);
        }
    }
}

/// A new strand gets a file of its own, unless a strand of its name is there.
pub proof fn new_strands_get_their_file(
    metadata_dir: Seq<char>,
    loaded: LoadedMetadataView,
    strand: StrandView,
)
    ensures
        strand_file(metadata_dir, loaded, strand) is Err <==> exists|i: int|
            0 <= i < loaded.strands.len() && (#[trigger] loaded.strands[i]).value.id == strand.id,
        strand_file(metadata_dir, loaded, strand) matches Ok(edit) ==> edit is Write && edit->Write_1
            == DocumentView::Single(strand),
{
    if exists|i: int|
        0 <= i < loaded.strands.len() && (#[trigger] loaded.strands[i]).value.id == strand.id {
        let i = choose|i: int|
            0 <= i < loaded.strands.len() && (#[trigger] loaded.strands[i]).value.id == strand.id;
        assert(Strand::named(loaded.strands[i].value) == strand.id);
    }
}

/// A new anchor gets a file of its own, unless an anchor of its name is there.
pub proof fn new_anchors_get_their_file(
    metadata_dir: Seq<char>,
    loaded: LoadedMetadataView,
    anchor: AnchorView,
)
    ensures
        anchor_file(metadata_dir, loaded, anchor) is Err <==> exists|i: int|
            0 <= i < loaded.anchors.len() && (#[trigger] loaded.anchors[i]).value.id == anchor.id,
        anchor_file(metadata_dir, loaded, anchor) matches Ok(edit) ==> edit is Write && edit->Write_1
            == DocumentView::Single(anchor),
{
    if exists|i: int|
        0 <= i < loaded.anchors.len() && (#[trigger] loaded.anchors[i]).value.id == anchor.id {
        let i = choose|i: int|
            0 <= i < loaded.anchors.len() && (#[trigger] loaded.anchors[i]).value.id == anchor.id;
        assert(Anchor::named(loaded.anchors[i].value) == anchor.id);
    }
}

/// A new global relation gets a file of its own, unless one of its kind between its ends is
/// there.
pub proof fn new_global_relations_get_their_file(
    metadata_dir: Seq<char>,
    loaded: LoadedMetadataView,
    relation: RelationView,
)
    ensures
        relation_file(metadata_dir, loaded, relation) is Err <==> exists|i: int|
            0 <= i < loaded.relations.len() && leads(
                (#[trigger] loaded.relations[i]).value,
                relation.from,
                relation.to,
                Some(relation.kind),
            ),
        relation_file(metadata_dir, loaded, relation) matches Ok(edit) ==> edit is Write
            && edit->Write_1 == DocumentView::Single(relation),
{
    let values = relation_values(loaded.relations);
    if exists|i: int|
        0 <= i < loaded.relations.len() && leads(
            (#[trigger] loaded.relations[i]).value,
            relation.from,
            relation.to,
            Some(relation.kind),
        ) {
        let i = choose|i: int|
            0 <= i < loaded.relations.len() && leads(
                (#[trigger] loaded.relations[i]).value,
                relation.from,
                relation.to,
                Some(relation.kind),
            );
        assert(is_relation(values[i], relation.from, relation.to, Some(relation.kind)));
    }
    if has_relation(values, relation.from, relation.to, relation.kind) {
        let i = choose|i: int|
            0 <= i < values.len() && is_relation(
                #[trigger] values[i],
                relation.from,
                relation.to,
                Some(relation.kind),
            );
        assert(loaded.relations[i].value == values[i]);
    }
}

/// Whether an edit takes the relations of a kind between two anchors out of a file and leaves
/// every other relation in it.
pub open spec fn takes_out(
    file: MetadataFileView<RelationView>,
    edit: EditView<RelationView>,
    from: Seq<char>,
    to: Seq<char>,
    kind: Seq<char>,
) -> bool {
    &&& file.document is Ok
    &&& has_leading(document_items(file.document->Ok_0), from, to, Some(kind))
    &&& match edit {
        EditView::Remove(path) => path == file.path && file.document->Ok_0 is Single,
        EditView::Write(path, document) => {
            &&& path == file.path
            &&& !(document is Single)
            &&& forall|r: RelationView| #[trigger]
                has_item(document, r) <==> has_item(file.document->Ok_0, r) && !leads(
                    r,
                    from,
                    to,
                    Some(kind),
                )
        },
    }
}

proof fn lemma_takes_out(
    file: MetadataFileView<RelationView>,
    from: Seq<char>,
    to: Seq<char>,
    kind: Seq<char>,
)
    requires
        file.document is Ok,
    ensures
        ({
            let document = file.document->Ok_0;
            let items = document_items(document);
            let left = other_relations(items, from, to, Some(kind), items.len() as int);
            &&& left.len() == items.len() <==> !has_leading(items, from, to, Some(kind))
            &&& left.len() != items.len() && !(document is Single) ==> takes_out(
                file,
                EditView::Write(file.path, with_items(document, left)),
                from,
                to,
                kind,
            )
        }),
{
    let document = file.document->Ok_0;
    let items = document_items(document);
    let n = items.len() as int;
    let left = other_relations(items, from, to, Some(kind), n);
    assert(items.take(n) =~= items);
    assert forall|r: RelationView|
        left.contains(r) <==> #[trigger] items.contains(r) && !leads(r, from, to, Some(kind)) by {
        lemma_relations_left(items, from, to, Some(kind), n, r);
    }
    lemma_relations_left(items, from, to, Some(kind), n, arbitrary());
    if left.len() != items.len() && !(document is Single) {
        let now = with_items(document, left);
        assert forall|r: RelationView| #[trigger]
            has_item(now, r) <==> has_item(document, r) && !leads(r, from, to, Some(kind)) by {
            assert(left.contains(r) <==> items.contains(r) && !leads(r, from, to, Some(kind)));
        }
    }
}

/// Where every file can be read, a global relation is removed where a file has one, from the
/// first such file; every other relation in the file stays.
pub proof fn removing_a_global_relation_leaves_the_others(
    files: Seq<MetadataFileView<RelationView>>,
    from: Seq<char>,
    to: Seq<char>,
    kind: Seq<char>,
    i: int,
)
    requires
        0 <= i,
        forall|k: int| i <= k < files.len() ==> (#[trigger] files[k]).document is Ok,
    ensures
        relation_removal(files, from, to, kind, i) is Ok <==> exists|k: int|
            i <= k < files.len() && has_leading(
                document_items((#[trigger] files[k]).document->Ok_0),
                from,
                to,
                Some(kind),
            ),
        relation_removal(files, from, to, kind, i) matches Ok(edit) ==> exists|k: int|
            i <= k < files.len() && takes_out(#[trigger] files[k], edit, from, to, kind),
    decreases files.len() - i,
{
    if i < files.len() {
        lemma_takes_out(files[i], from, to, kind);
        let items = document_items(files[i].document->Ok_0);
        if has_leading(items, from, to, Some(kind)) {
            let edit = relation_removal(files, from, to, kind, i)->Ok_0;
            assert(takes_out(files[i], edit, from, to, kind));
        } else {
            removing_a_global_relation_leaves_the_others(files, from, to, kind, i + 1);
            if relation_removal(files, from, to, kind, i + 1) is Ok {
                let edit = relation_removal(files, from, to, kind, i + 1)->Ok_0;
                let k = choose|k: int|
                    i + 1 <= k < files.len() && takes_out(#[trigger] files[k], edit, from, to, kind);
                assert(takes_out(files[k], edit, from, to, kind));
                let j = choose|k: int|
                    i + 1 <= k < files.len() && has_leading(
                        document_items((#[trigger] files[k]).document->Ok_0),
                        from,
                        to,
                        Some(kind),
                    );
                assert(i <= j);
            }
            if exists|k: int|
                i <= k < files.len() && has_leading(
                    document_items((#[trigger] files[k]).document->Ok_0),
                    from,
                    to,
                    Some(kind),
                ) {
                let j = choose|k: int|
                    i <= k < files.len() && has_leading(
                        document_items((#[trigger] files[k]).document->Ok_0),
                        from,
                        to,
                        Some(kind),
                    );
                assert(i + 1 <= j);
            }
        }
    }
}

} // verus!
