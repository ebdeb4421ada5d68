//! Metadata files: strands, anchors and relations that are kept beside the source.

use vstd::prelude::*;

use crate::annotations::{fit_line, small_line};
use crate::cli::AnchorSetArgs;
use crate::digest::{hash_text, is_hex, text_hash};
use crate::edits::{
    anchor_changed, change_anchor, edit_strand, has_relation, members_without, other_members,
    other_relations, relation_known, relations_without, strand_edited, StrandEdit,
};
use crate::model::{
    Anchor, AnchorView, Diagnostic, DiagnosticView, Relation, RelationView, Severity, Strand,
    StrandView,
};
use crate::paths::{
    distinct_paths, extension, extension_of, file_stem, file_stem_of, join_path, joined, sort_paths,
    sorted_paths, without_repeats,
};
use crate::repo::{relative_path, Repository};
use crate::text::{
    chars_are, chars_of, contains, contains_text, debug_quoted, debug_text, has_prefix,
    is_ascii_word, lines, lines_of, same_text, split, split_on, starts_with, string_of, substring,
    trim, trimmed,
};
use crate::views::{outcome, push_item, Duplicate};

verus! {

broadcast use crate::views::lemma_chars_deep_view;

/// What one metadata file says.
#[derive(Debug, Clone, PartialEq)]
pub struct ParsedMetadata {
    /// The strands.
    pub strands: Vec<Strand>,
    /// The anchors.
    pub anchors: Vec<Anchor>,
    /// The relations.
    pub relations: Vec<Relation>,
}

/// The mathematical content of a [`ParsedMetadata`].
#[verifier::ext_equal]
pub ghost struct ParsedMetadataView {
    pub strands: Seq<StrandView>,
    pub anchors: Seq<AnchorView>,
    pub relations: Seq<RelationView>,
}

impl View for ParsedMetadata {
    type V = ParsedMetadataView;

    open spec fn view(&self) -> ParsedMetadataView {
        ParsedMetadataView {
            strands: self.strands.deep_view(),
            anchors: self.anchors.deep_view(),
            relations: self.relations.deep_view(),
        }
    }
}

impl DeepView for ParsedMetadata {
    type V = ParsedMetadataView;

    open spec fn deep_view(&self) -> ParsedMetadataView {
        self@
    }
}

impl Duplicate for ParsedMetadata {
    fn duplicate(&self) -> (r: Self) {
        ParsedMetadata {
            strands: self.strands.duplicate(),
            anchors: self.anchors.duplicate(),
            relations: self.relations.duplicate(),
        }
    }
}

/// What a metadata file holds.
#[derive(Debug, Clone, Copy, PartialEq, Eq, Structural)]
pub enum MetadataKind {
    /// Strands.
    Strands,
    /// Anchors.
    Anchors,
    /// Relations.
    Relations,
}

/// How a document is written.
#[derive(Debug, Clone, Copy, PartialEq, Eq, Structural)]
pub enum DocumentFormat {
    /// As YAML.
    Yaml,
    /// As JSON.
    Json,
    /// As TOML.
    Toml,
}

/// Whether a path leads through a directory of a name or to a file of that name.
pub open spec fn names_kind(path: Seq<char>, name: Seq<char>) -> bool {
    split(path, '/').contains(name) || file_stem(path) == Some(name)
}

/// What a metadata file holds, by its path.
pub open spec fn kind_of_path(path: Seq<char>) -> Option<MetadataKind> {
    if names_kind(path, "strands"@) {
        Some(MetadataKind::Strands)
    } else if names_kind(path, "anchors"@) {
        Some(MetadataKind::Anchors)
    } else if names_kind(path, "relations"@) {
        Some(MetadataKind::Relations)
    } else {
        None
    }
}

/// Whether a path leads through a directory of a name or to a file of that name.
fn path_names(path: &str, name: &str) -> (r: bool)
    ensures
        r == names_kind(path@, name@),
{
    let chars = chars_of(path);
    let parts = split_on(&chars, '/');
    let ghost all = parts.deep_view();
    let mut i: usize = 0;
    while i < parts.len()
        invariant
            i <= parts@.len(),
            all == parts.deep_view(),
            all == split(path@, '/'),
            forall|k: int| 0 <= k < i ==> #[trigger] all[k] != name@,
        decreases parts@.len() - i,
    {
        assert(all[i as int] == parts@[i as int]@);
        if chars_are(&parts[i], name) {
            return true;
        }
        i += 1;
    }
    assert(!all.contains(name@));
    match file_stem_of(path) {
        None => false,
        Some(stem) => chars_are(&stem, name),
    }
}

/// What a metadata file holds, by its path.
pub fn metadata_kind(path: &str) -> (r: Result<MetadataKind, String>)
    ensures
        match r {
            Ok(kind) => kind_of_path(path@) == Some(kind),
            Err(message) => kind_of_path(path@) is None && message@
                == "path is not recognized Strandmap metadata: "@ + path@,
        },
{
    if path_names(path, "strands") {
        return Ok(MetadataKind::Strands);
    }
    if path_names(path, "anchors") {
        return Ok(MetadataKind::Anchors);
    }
    if path_names(path, "relations") {
        return Ok(MetadataKind::Relations);
    }
    let mut message = "path is not recognized Strandmap metadata: ".to_owned();
    message.push_str(path);
    Err(message)
}

/// How a document is written, by the extension of its path.
pub open spec fn format_of_path(path: Seq<char>) -> Option<DocumentFormat> {
    match extension(path) {
        None => None,
        Some(name) => if name == "yaml"@ || name == "yml"@ {
            Some(DocumentFormat::Yaml)
        } else if name == "json"@ {
            Some(DocumentFormat::Json)
        } else if name == "toml"@ {
            Some(DocumentFormat::Toml)
        } else {
            None
        },
    }
}

/// How a document is written, by the extension of its path.
pub fn format_named(path: &str) -> (r: Option<DocumentFormat>)
    ensures
        r == format_of_path(path@),
{
    match extension_of(path) {
        None => None,
        Some(name) => if same_text(name.as_str(), "yaml") || same_text(name.as_str(), "yml") {
            Some(DocumentFormat::Yaml)
        } else if same_text(name.as_str(), "json") {
            Some(DocumentFormat::Json)
        } else if same_text(name.as_str(), "toml") {
            Some(DocumentFormat::Toml)
        } else {
            None
        },
    }
}

/// How a metadata file is written.
pub fn document_format(path: &str) -> (r: Result<DocumentFormat, String>)
    ensures
        match r {
            Ok(format) => format_of_path(path@) == Some(format),
            Err(message) => format_of_path(path@) is None && message@
                == "unsupported metadata format: "@ + path@,
        },
{
    match format_named(path) {
        Some(format) => Ok(format),
        None => {
            let mut message = "unsupported metadata format: ".to_owned();
            message.push_str(path);
            Err(message)
        },
    }
}

/// A document: items under a heading, a list of items, or one item.
#[derive(Debug, Clone, PartialEq)]
pub enum Document<T> {
    /// Items under a heading.
    Wrapped(Vec<T>),
    /// A list of items.
    List(Vec<T>),
    /// One item.
    Single(T),
}

/// The mathematical content of a [`Document`].
#[verifier::ext_equal]
pub ghost enum DocumentView<T> {
    Wrapped(Seq<T>),
    List(Seq<T>),
    Single(T),
}

impl<T: DeepView> View for Document<T> {
    type V = DocumentView<T::V>;

    open spec fn view(&self) -> DocumentView<T::V> {
        match self {
            Document::Wrapped(items) => DocumentView::Wrapped(items.deep_view()),
            Document::List(items) => DocumentView::List(items.deep_view()),
            Document::Single(item) => DocumentView::Single(item.deep_view()),
        }
    }
}

impl<T: DeepView> DeepView for Document<T> {
    type V = DocumentView<T::V>;

    open spec fn deep_view(&self) -> DocumentView<T::V> {
        self@
    }
}

impl<T: Duplicate> Duplicate for Document<T> {
    fn duplicate(&self) -> (r: Self) {
        match self {
            Document::Wrapped(items) => Document::Wrapped(items.duplicate()),
            Document::List(items) => Document::List(items.duplicate()),
            Document::Single(item) => Document::Single(item.duplicate()),
        }
    }
}

/// The items of a document.
pub open spec fn document_items<T>(document: DocumentView<T>) -> Seq<T> {
    match document {
        DocumentView::Wrapped(items) => items,
        DocumentView::List(items) => items,
        DocumentView::Single(item) => seq![item],
    }
}

/// A document of the same shape with other items; a document of one item has the first.
pub open spec fn with_items<T>(document: DocumentView<T>, items: Seq<T>) -> DocumentView<T> {
    match document {
        DocumentView::Wrapped(_) => DocumentView::Wrapped(items),
        DocumentView::List(_) => DocumentView::List(items),
        DocumentView::Single(_) => DocumentView::Single(items[0]),
    }
}

impl<T: Duplicate> Document<T> {
    /// The items of the document.
    pub fn items(&self) -> (r: Vec<T>)
        ensures
            r.deep_view() == document_items(self@),
    {
        match self {
            Document::Wrapped(items) => items.duplicate(),
            Document::List(items) => items.duplicate(),
            Document::Single(item) => {
                let mut items: Vec<T> = Vec::new();
                assert(items.deep_view() =~= seq![]);
                push_item(&mut items, item.duplicate());
                assert(items.deep_view() =~= seq![item.deep_view()]);
                items
            },
        }
    }

    /// A document of the same shape with other items.
    fn rebuilt(&self, items: Vec<T>) -> (r: Self)
        requires
            self@ is Single ==> items@.len() == 1,
        ensures
            r@ == with_items(self@, items.deep_view()),
    {
        match self {
            Document::Wrapped(_) => Document::Wrapped(items),
            Document::List(_) => Document::List(items),
            Document::Single(_) => {
                assert(items.deep_view()[0] == items@[0].deep_view());
                Document::Single(items[0].duplicate())
            },
        }
    }
}

/// What a metadata file says, by what it holds.
#[derive(Debug, Clone, PartialEq)]
pub enum AnyDocument {
    /// Strands.
    Strands(Document<Strand>),
    /// Anchors.
    Anchors(Document<Anchor>),
    /// Relations.
    Relations(Document<Relation>),
}

/// What a document says.
pub open spec fn metadata_of(document: AnyDocument) -> ParsedMetadataView {
    let none = ParsedMetadataView { strands: seq![], anchors: seq![], relations: seq![] };
    match document {
        AnyDocument::Strands(document) => ParsedMetadataView {
            strands: document_items(document@),
            ..none
        },
        AnyDocument::Anchors(document) => ParsedMetadataView {
            anchors: document_items(document@),
            ..none
        },
        AnyDocument::Relations(document) => ParsedMetadataView {
            relations: document_items(document@),
            ..none
        },
    }
}

/// What a document says.
pub fn parsed_metadata(document: &AnyDocument) -> (r: ParsedMetadata)
    ensures
        r@ == metadata_of(*document),
{
    let mut parsed = ParsedMetadata {
        strands: Vec::new(),
        anchors: Vec::new(),
        relations: Vec::new(),
    };
    assert(parsed@.strands =~= seq![]);
    assert(parsed@.anchors =~= seq![]);
    assert(parsed@.relations =~= seq![]);
    match document {
        AnyDocument::Strands(document) => {
            parsed.strands = document.items();
        },
        AnyDocument::Anchors(document) => {
            parsed.anchors = document.items();
        },
        AnyDocument::Relations(document) => {
            parsed.relations = document.items();
        },
    }
    parsed
}

/// Values with an id.
pub trait Identified: Duplicate {
    /// The id of a value.
    spec fn named(view: <Self as DeepView>::V) -> Seq<char>;

    /// The id of the value.
    fn id_text(&self) -> (r: &str)
        ensures
            r@ == Self::named(self.deep_view()),
    ;
}

impl Identified for Strand {
    open spec fn named(view: StrandView) -> Seq<char> {
        view.id
    }

    fn id_text(&self) -> (r: &str) {
        self.id.as_str()
    }
}

impl Identified for Anchor {
    open spec fn named(view: AnchorView) -> Seq<char> {
        view.id
    }

    fn id_text(&self) -> (r: &str) {
        self.id.as_str()
    }
}

/// A metadata file: its path, its text, and what it says, or why that could not be read.
#[derive(Debug)]
pub struct MetadataFile<T> {
    /// The path.
    pub path: String,
    /// The text.
    pub text: String,
    /// What it says, or why that could not be read.
    pub document: Result<Document<T>, String>,
}

/// The mathematical content of a [`MetadataFile`].
#[verifier::ext_equal]
pub ghost struct MetadataFileView<T> {
    pub path: Seq<char>,
    pub text: Seq<char>,
    pub document: Result<DocumentView<T>, Seq<char>>,
}

impl<T: DeepView> View for MetadataFile<T> {
    type V = MetadataFileView<T::V>;

    open spec fn view(&self) -> MetadataFileView<T::V> {
        MetadataFileView {
            path: self.path@,
            text: self.text@,
            document: outcome(self.document),
        }
    }
}

impl<T: DeepView> DeepView for MetadataFile<T> {
    type V = MetadataFileView<T::V>;

    open spec fn deep_view(&self) -> MetadataFileView<T::V> {
        self@
    }
}

/// The metadata files of a repository, each kind in the order of paths.
#[derive(Debug)]
pub struct MetadataFiles {
    /// The files of strands.
    pub strands: Vec<MetadataFile<Strand>>,
    /// The files of anchors.
    pub anchors: Vec<MetadataFile<Anchor>>,
    /// The files of relations.
    pub relations: Vec<MetadataFile<Relation>>,
}

/// An item of a metadata file, and where it stands.
#[derive(Debug, Clone)]
pub struct MetadataItem<T> {
    /// The item.
    pub value: T,
    /// The file.
    pub path: String,
    /// The line.
    pub line: Option<u32>,
}

/// The mathematical content of a [`MetadataItem`].
#[verifier::ext_equal]
pub ghost struct MetadataItemView<T> {
    pub value: T,
    pub path: Seq<char>,
    pub line: Option<u32>,
}

impl<T: DeepView> View for MetadataItem<T> {
    type V = MetadataItemView<T::V>;

    open spec fn view(&self) -> MetadataItemView<T::V> {
        MetadataItemView { value: self.value.deep_view(), path: self.path@, line: self.line }
    }
}

impl<T: DeepView> DeepView for MetadataItem<T> {
    type V = MetadataItemView<T::V>;

    open spec fn deep_view(&self) -> MetadataItemView<T::V> {
        self@
    }
}

/// What the metadata files of a repository say, and what is wrong with them.
#[derive(Debug)]
pub struct LoadedMetadata {
    /// The strands.
    pub strands: Vec<MetadataItem<Strand>>,
    /// The anchors.
    pub anchors: Vec<MetadataItem<Anchor>>,
    /// The relations.
    pub relations: Vec<MetadataItem<Relation>>,
    /// What is wrong.
    pub diagnostics: Vec<Diagnostic>,
}

/// The mathematical content of a [`LoadedMetadata`].
#[verifier::ext_equal]
pub ghost struct LoadedMetadataView {
    pub strands: Seq<MetadataItemView<StrandView>>,
    pub anchors: Seq<MetadataItemView<AnchorView>>,
    pub relations: Seq<MetadataItemView<RelationView>>,
    pub diagnostics: Seq<DiagnosticView>,
}

impl View for LoadedMetadata {
    type V = LoadedMetadataView;

    open spec fn view(&self) -> LoadedMetadataView {
        LoadedMetadataView {
            strands: self.strands.deep_view(),
            anchors: self.anchors.deep_view(),
            relations: self.relations.deep_view(),
            diagnostics: self.diagnostics.deep_view(),
        }
    }
}

/// Whether a line gives an id.
pub open spec fn gives_id(line: Seq<char>, id: Seq<char>) -> bool {
    (starts_with(trim(line), "id:"@) || starts_with(trim(line), "\"id\""@)) && contains(
        trim(line),
        id,
    )
}

/// The position of the first line, from position `i` on, that gives an id.
pub open spec fn first_with_id(all: Seq<Seq<char>>, id: Seq<char>, i: int) -> Option<int>
    decreases all.len() - i,
{
    if i >= all.len() {
        None
    } else if gives_id(all[i], id) {
        Some(i)
    } else {
        first_with_id(all, id, i + 1)
    }
}

/// The line of a text that gives an id.
pub open spec fn id_line(text: Seq<char>, id: Seq<char>) -> Option<u32> {
    match first_with_id(lines(text), id, 0) {
        None => None,
        Some(i) => small_line(i + 1),
    }
}

/// The line of a text that gives an id.
pub fn find_id_line(text: &str, id: &str) -> (r: Option<u32>)
    ensures
        r == id_line(text@, id@),
{
    let chars = chars_of(text);
    let all = lines_of(&chars);
    let ghost texts = all.deep_view();
    let count: usize = all.len();
    let mut i: usize = 0;
    while i < count
        invariant
            i <= count,
            count == all@.len(),
            texts == all.deep_view(),
            texts == lines(text@),
            first_with_id(texts, id@, 0) == first_with_id(texts, id@, i as int),
        decreases count - i,
    {
        assert(texts[i as int] == all@[i as int]@);
        let line = trimmed(&all[i]);
        if has_prefix(&line, "id:") || has_prefix(&line, "\"id\"") {
            let line = string_of(&line);
            if contains_text(line.as_str(), id) {
                return fit_line(i + 1);
            }
        }
        i += 1;
    }
    None
}

/// What is said of a metadata file that could not be read.
pub open spec fn unreadable(root: Seq<char>, path: Seq<char>, message: Seq<char>) -> DiagnosticView {
    DiagnosticView {
        severity: Severity::Error,
        code: "metadata-parse"@,
        message,
        path: Some(relative_path(root, path)),
        line: None,
        hint: Some("Correct the document or use YAML, JSON, or TOML syntax"@),
    }
}

/// What is said of a metadata file that could not be read.
fn parse_diagnostic(repo: &Repository, path: &str, message: &String) -> (r: Diagnostic)
    ensures
        r@ == unreadable(repo.root@, path@, message@),
{
    Diagnostic {
        severity: Severity::Error,
        code: "metadata-parse".to_owned(),
        message: message.clone(),
        path: Some(repo.relative(path)),
        line: None,
        hint: Some("Correct the document or use YAML, JSON, or TOML syntax".to_owned()),
    }
}

/// The first `n` items of a file, each with its line.
pub open spec fn placed_items<T: Identified>(
    path: Seq<char>,
    text: Seq<char>,
    items: Seq<<T as DeepView>::V>,
    n: int,
) -> Seq<MetadataItemView<<T as DeepView>::V>>
    decreases n,
{
    if n <= 0 {
        seq![]
    } else {
        placed_items::<T>(path, text, items, n - 1).push(
            MetadataItemView {
                value: items[n - 1],
                path,
                line: id_line(text, T::named(items[n - 1])),
            },
        )
    }
}

/// The items of the first `n` files, each with its line.
pub open spec fn loaded_items<T: Identified>(
    files: Seq<MetadataFileView<<T as DeepView>::V>>,
    n: int,
) -> Seq<MetadataItemView<<T as DeepView>::V>>
    decreases n,
{
    if n <= 0 {
        seq![]
    } else {
        let before = loaded_items::<T>(files, n - 1);
        match files[n - 1].document {
            Err(_) => before,
            Ok(document) => before + placed_items::<T>(
                files[n - 1].path,
                files[n - 1].text,
                document_items(document),
                document_items(document).len() as int,
            ),
        }
    }
}

/// What is wrong with the first `n` files.
pub open spec fn file_problems<T>(
    root: Seq<char>,
    files: Seq<MetadataFileView<T>>,
    n: int,
) -> Seq<DiagnosticView>
    decreases n,
{
    if n <= 0 {
        seq![]
    } else {
        let before = file_problems(root, files, n - 1);
        match files[n - 1].document {
            Err(message) => before.push(unreadable(root, files[n - 1].path, message)),
            Ok(_) => before,
        }
    }
}

/// The first `n` relations of a file.
pub open spec fn placed_relations(path: Seq<char>, items: Seq<RelationView>, n: int) -> Seq<
    MetadataItemView<RelationView>,
>
    decreases n,
{
    if n <= 0 {
        seq![]
    } else {
        placed_relations(path, items, n - 1).push(
            MetadataItemView { value: items[n - 1], path, line: None },
        )
    }
}

/// The relations of the first `n` files.
pub open spec fn loaded_relations(files: Seq<MetadataFileView<RelationView>>, n: int) -> Seq<
    MetadataItemView<RelationView>,
>
    decreases n,
{
    if n <= 0 {
        seq![]
    } else {
        let before = loaded_relations(files, n - 1);
        match files[n - 1].document {
            Err(_) => before,
            Ok(document) => before + placed_relations(
                files[n - 1].path,
                document_items(document),
                document_items(document).len() as int,
            ),
        }
    }
}

/// What the metadata files of a repository say.
pub open spec fn loaded(root: Seq<char>, files: MetadataFiles) -> LoadedMetadataView {
    let strands = files.strands.deep_view();
    let anchors = files.anchors.deep_view();
    let relations = files.relations.deep_view();
    LoadedMetadataView {
        strands: loaded_items::<Strand>(strands, strands.len() as int),
        anchors: loaded_items::<Anchor>(anchors, anchors.len() as int),
        relations: loaded_relations(relations, relations.len() as int),
        diagnostics: file_problems(root, strands, strands.len() as int) + file_problems(
            root,
            anchors,
            anchors.len() as int,
        ) + file_problems(root, relations, relations.len() as int),
    }
}

/// Adds the items of a file, each with its line.
fn place_items<T: Identified>(
    out: &mut Vec<MetadataItem<T>>,
    path: &String,
    text: &str,
    items: Vec<T>,
)
    ensures
        final(out).deep_view() == old(out).deep_view() + placed_items::<T>(
            path@,
            text@,
            items.deep_view(),
            items@.len() as int,
        ),
{
    let ghost all = items.deep_view();
    let ghost start = out.deep_view();
    let mut i: usize = 0;
    assert(start + placed_items::<T>(path@, text@, all, 0) =~= start);
    while i < items.len()
        invariant
            i <= items@.len(),
            all == items.deep_view(),
            out.deep_view() == start + placed_items::<T>(path@, text@, all, i as int),
        decreases items@.len() - i,
    {
        assert(all[i as int] == items@[i as int].deep_view());
        let line = find_id_line(text, items[i].id_text());
        push_item(out, MetadataItem { value: items[i].duplicate(), path: path.clone(), line });
        assert(out.deep_view() =~= start + placed_items::<T>(path@, text@, all, i + 1));
        i += 1;
    }
}

/// Adds what some files say and what is wrong with them.
fn load_items<T: Identified>(
    repo: &Repository,
    files: &Vec<MetadataFile<T>>,
    diagnostics: &mut Vec<Diagnostic>,
) -> (r: Vec<MetadataItem<T>>)
    ensures
        r.deep_view() == loaded_items::<T>(files.deep_view(), files@.len() as int),
        final(diagnostics).deep_view() == old(diagnostics).deep_view() + file_problems(
            repo.root@,
            files.deep_view(),
            files@.len() as int,
        ),
{
    let ghost all = files.deep_view();
    let ghost start = diagnostics.deep_view();
    let mut out: Vec<MetadataItem<T>> = Vec::new();
    let mut i: usize = 0;
    assert(out.deep_view() =~= seq![]);
    assert(start + file_problems(repo.root@, all, 0) =~= start);
    while i < files.len()
        invariant
            i <= files@.len(),
            all == files.deep_view(),
            out.deep_view() == loaded_items::<T>(all, i as int),
            diagnostics.deep_view() == start + file_problems(repo.root@, all, i as int),
        decreases files@.len() - i,
    {
        assert(all[i as int] == files@[i as int]@);
        match &files[i].document {
            Ok(document) => {
                let items = document.items();
                assert(items@.len() == items.deep_view().len());
                place_items(&mut out, &files[i].path, files[i].text.as_str(), items);
            },
            Err(message) => {
                push_item(diagnostics, parse_diagnostic(repo, files[i].path.as_str(), message));
            },
        }
        assert(diagnostics.deep_view() =~= start + file_problems(repo.root@, all, i + 1));
        i += 1;
    }
    out
}

/// Adds the relations of a file.
fn place_relations(
    out: &mut Vec<MetadataItem<Relation>>,
    path: &String,
    items: Vec<Relation>,
)
    ensures
        final(out).deep_view() == old(out).deep_view() + placed_relations(
            path@,
            items.deep_view(),
            items@.len() as int,
        ),
{
    let ghost all = items.deep_view();
    let ghost start = out.deep_view();
    let mut i: usize = 0;
    assert(start + placed_relations(path@, all, 0) =~= start);
    while i < items.len()
        invariant
            i <= items@.len(),
            all == items.deep_view(),
            out.deep_view() == start + placed_relations(path@, all, i as int),
        decreases items@.len() - i,
    {
        assert(all[i as int] == items@[i as int]@);
        push_item(
            out,
            MetadataItem { value: items[i].duplicate(), path: path.clone(), line: None },
        );
        assert(out.deep_view() =~= start + placed_relations(path@, all, i + 1));
        i += 1;
    }
}

/// Adds what files of relations say and what is wrong with them.
fn load_relations(
    repo: &Repository,
    files: &Vec<MetadataFile<Relation>>,
    diagnostics: &mut Vec<Diagnostic>,
) -> (r: Vec<MetadataItem<Relation>>)
    ensures
        r.deep_view() == loaded_relations(files.deep_view(), files@.len() as int),
        final(diagnostics).deep_view() == old(diagnostics).deep_view() + file_problems(
            repo.root@,
            files.deep_view(),
            files@.len() as int,
        ),
{
    let ghost all = files.deep_view();
    let ghost start = diagnostics.deep_view();
    let mut out: Vec<MetadataItem<Relation>> = Vec::new();
    let mut i: usize = 0;
    assert(out.deep_view() =~= seq![]);
    assert(start + file_problems(repo.root@, all, 0) =~= start);
    while i < files.len()
        invariant
            i <= files@.len(),
            all == files.deep_view(),
            out.deep_view() == loaded_relations(all, i as int),
            diagnostics.deep_view() == start + file_problems(repo.root@, all, i as int),
        decreases files@.len() - i,
    {
        assert(all[i as int] == files@[i as int]@);
        match &files[i].document {
            Ok(document) => {
                let items = document.items();
                assert(items@.len() == items.deep_view().len());
                place_relations(&mut out, &files[i].path, items);
            },
            Err(message) => {
                push_item(diagnostics, parse_diagnostic(repo, files[i].path.as_str(), message));
            },
        }
        assert(diagnostics.deep_view() =~= start + file_problems(repo.root@, all, i + 1));
        i += 1;
    }
    out
}

/// What the metadata files of a repository say, and what is wrong with them.
pub fn load(repo: &Repository, files: &MetadataFiles) -> (r: LoadedMetadata)
    ensures
        r@ == loaded(repo.root@, *files),
{
    let mut diagnostics: Vec<Diagnostic> = Vec::new();
    assert(diagnostics.deep_view() =~= seq![]);
    let strands = load_items(repo, &files.strands, &mut diagnostics);
    let anchors = load_items(repo, &files.anchors, &mut diagnostics);
    let relations = load_relations(repo, &files.relations, &mut diagnostics);
    assert(files.strands.deep_view().len() == files.strands@.len());
    assert(files.anchors.deep_view().len() == files.anchors@.len());
    assert(files.relations.deep_view().len() == files.relations@.len());
    let all = LoadedMetadata { strands, anchors, relations, diagnostics };
    assert(all@ =~= loaded(repo.root@, *files));
    all
}

/// Whether an item with an id was loaded.
pub open spec fn id_taken<T: Identified>(
    items: Seq<MetadataItemView<<T as DeepView>::V>>,
    id: Seq<char>,
) -> bool {
    exists|i: int| 0 <= i < items.len() && T::named((#[trigger] items[i]).value) == id
}

/// Whether an item with an id was loaded.
fn is_taken<T: Identified>(items: &Vec<MetadataItem<T>>, id: &str) -> (r: bool)
    ensures
        r == id_taken::<T>(items.deep_view(), id@),
{
    let ghost all = items.deep_view();
    let mut i: usize = 0;
    while i < items.len()
        invariant
            i <= items@.len(),
            all == items.deep_view(),
            forall|k: int| 0 <= k < i ==> T::named((#[trigger] all[k]).value) != id@,
        decreases items@.len() - i,
    {
        assert(all[i as int] == items@[i as int]@);
        if same_text(items[i].value.id_text(), id) {
            return true;
        }
        i += 1;
    }
    false
}

/// Checks that no strand with an id was loaded.
pub fn ensure_unique_strand(loaded: &LoadedMetadata, id: &str) -> (r: Result<(), String>)
    ensures
        match r {
            Ok(_) => !id_taken::<Strand>(loaded@.strands, id@),
            Err(message) => id_taken::<Strand>(loaded@.strands, id@) && message@ == "strand "@
                + debug_quoted(id@) + " already exists"@,
        },
{
    if is_taken(&loaded.strands, id) {
        let mut message = "strand ".to_owned();
        message.push_str(debug_text(id).as_str());
        message.push_str(" already exists");
        return Err(message);
    }
    Ok(())
}

/// Checks that no anchor with an id was loaded.
pub fn ensure_unique_anchor(loaded: &LoadedMetadata, id: &str) -> (r: Result<(), String>)
    ensures
        match r {
            Ok(_) => !id_taken::<Anchor>(loaded@.anchors, id@),
            Err(message) => id_taken::<Anchor>(loaded@.anchors, id@) && message@ == "anchor "@
                + debug_quoted(id@) + " already exists"@,
        },
{
    if is_taken(&loaded.anchors, id) {
        let mut message = "anchor ".to_owned();
        message.push_str(debug_text(id).as_str());
        message.push_str(" already exists");
        return Err(message);
    }
    Ok(())
}

/// Whether a character may stand in the name of a metadata file.
pub open spec fn is_name_char(c: char) -> bool {
    is_ascii_word(c) || c == '-' || c == '_' || c == '.'
}

/// An id as a file name: characters that may not stand there become `_`.
pub open spec fn name_chars(id: Seq<char>) -> Seq<char> {
    id.map_values(
        |c: char|
            if is_name_char(c) {
                c
            } else {
                '_'
            },
    )
}

/// The file name for an id. Where the id could not be kept as it is, the start of its hash
/// tells it from others.
pub open spec fn id_file_name(id: Seq<char>) -> Seq<char> {
    let name = name_chars(id);
    if name.len() == 0 || name != id {
        name + "-"@ + text_hash(id).take(8) + ".yaml"@
    } else {
        name + ".yaml"@
    }
}

/// A file name made from an id has no `/` in it.
proof fn lemma_file_name(id: Seq<char>)
    requires
        name_chars(id).len() == 0 || name_chars(id) != id ==> text_hash(id).len() == 64 && is_hex(
            text_hash(id),
        ),
    ensures
        !id_file_name(id).contains('/'),
{
    reveal_strlit(".yaml");
    reveal_strlit("-");
    let name = id_file_name(id);
    let kept = name_chars(id);
    assert forall|i: int| 0 <= i < name.len() implies #[trigger] name[i] != '/' by {
        if kept.len() == 0 || kept != id {
            if i < kept.len() {
                assert(name[i] == kept[i]);
            } else if i == kept.len() {
                assert(name[i] == '-');
            } else if i < kept.len() + 9 {
                assert(name[i] == text_hash(id)[i - kept.len() - 1]);
            } else {
                assert(name[i] == ".yaml"@[i - kept.len() - 9]);
            }
        } else if i < kept.len() {
            assert(name[i] == kept[i]);
        } else {
            assert(name[i] == ".yaml"@[i - kept.len()]);
        }
    }
}

/// The path of the file for an id. The file stands in the directory itself.
pub fn unique_path(directory: &str, id: &str) -> (r: String)
    ensures
        r@ == joined(directory@, id_file_name(id@)),
        !id_file_name(id@).contains('/'),
{
    let chars = chars_of(id);
    let mut kept: Vec<char> = Vec::new();
    let mut same = true;
    let mut i: usize = 0;
    assert(id@.take(0) =~= seq![]);
    while i < chars.len()
        invariant
            i <= chars@.len(),
            chars@ == id@,
            kept@ == name_chars(id@).take(i as int),
            same == (kept@ == id@.take(i as int)),
        decreases chars@.len() - i,
    {
        let c = chars[i];
        let fits = c == '-' || c == '_' || c == '.' || ('a' <= c && c <= 'z') || ('A' <= c && c
            <= 'Z') || ('0' <= c && c <= '9');
        let ghost before = kept@;
        if fits {
            kept.push(c);
        } else {
            kept.push('_');
            same = false;
        }
        proof {
            assert(kept@ =~= name_chars(id@).take(i + 1));
            assert(before =~= kept@.take(i as int));
            assert(id@.take(i as int) =~= id@.take(i + 1).take(i as int));
            if same {
                assert(kept@ =~= id@.take(i + 1));
            } else {
                if fits {
                    assert(kept@ != id@.take(i + 1));
                } else {
                    assert(kept@[i as int] != id@.take(i + 1)[i as int]);
                }
            }
        }
        i += 1;
    }
    assert(name_chars(id@).take(id@.len() as int) =~= name_chars(id@));
    assert(id@.take(id@.len() as int) =~= id@);
    let mut name = string_of(&kept);
    if kept.len() == 0 || !same {
        name.push_str("-");
        let digest = chars_of(hash_text(id).as_str());
        let start = substring(&digest, 0, 8);
        assert(start@ =~= text_hash(id@).take(8));
        name.push_str(start.as_str());
    }
    proof {
        lemma_file_name(id@);
    }
    name.push_str(".yaml");
    join_path(directory, name.as_str())
}

/// A change to a metadata file.
#[derive(Debug, Clone, PartialEq)]
pub enum Edit<T> {
    /// The file of this path goes.
    Remove(String),
    /// The file of this path holds this document.
    Write(String, Document<T>),
}

/// The mathematical content of an [`Edit`].
#[verifier::ext_equal]
pub ghost enum EditView<T> {
    Remove(Seq<char>),
    Write(Seq<char>, DocumentView<T>),
}

impl<T: DeepView> View for Edit<T> {
    type V = EditView<T::V>;

    open spec fn view(&self) -> EditView<T::V> {
        match self {
            Edit::Remove(path) => EditView::Remove(path@),
            Edit::Write(path, document) => EditView::Write(path@, document@),
        }
    }
}

impl<T: DeepView> DeepView for Edit<T> {
    type V = EditView<T::V>;

    open spec fn deep_view(&self) -> EditView<T::V> {
        self@
    }
}

impl<T: DeepView> Edit<T> {
    /// The path of the file that changes.
    pub fn path(&self) -> (r: &str)
        ensures
            r@ == edited_path(self@),
    {
        match self {
            Edit::Remove(path) => path.as_str(),
            Edit::Write(path, _) => path.as_str(),
        }
    }
}

/// The path of the file that changes.
pub open spec fn edited_path<T>(edit: EditView<T>) -> Seq<char> {
    match edit {
        EditView::Remove(path) => path,
        EditView::Write(path, _) => path,
    }
}

/// The file that adds a strand.
pub open spec fn strand_file(
    metadata_dir: Seq<char>,
    loaded: LoadedMetadataView,
    strand: StrandView,
) -> Result<
    EditView<StrandView>,
    Seq<char>,
> {
    if id_taken::<Strand>(loaded.strands, strand.id) {
        Err("strand "@ + debug_quoted(strand.id) + " already exists"@)
    } else {
        Ok(
            EditView::Write(
                joined(joined(metadata_dir, "strands"@), id_file_name(strand.id)),
                DocumentView::Single(strand),
            ),
        )
    }
}

/// The file that adds a strand.
pub fn add_strand(repo: &Repository, loaded: &LoadedMetadata, strand: &Strand) -> (r: Result<
    Edit<Strand>,
    String,
>)
    ensures
        outcome(r) == strand_file(repo.metadata_dir@, loaded@, strand@),
{
    match ensure_unique_strand(loaded, strand.id.as_str()) {
        Ok(_) => {},
        Err(message) => {
            return Err(message);
        },
    }
    let directory = join_path(repo.metadata_dir.as_str(), "strands");
    let path = unique_path(directory.as_str(), strand.id.as_str());
    Ok(Edit::Write(path, Document::Single(strand.duplicate())))
}

/// The file that adds an anchor.
pub open spec fn anchor_file(
    metadata_dir: Seq<char>,
    loaded: LoadedMetadataView,
    anchor: AnchorView,
) -> Result<
    EditView<AnchorView>,
    Seq<char>,
> {
    if id_taken::<Anchor>(loaded.anchors, anchor.id) {
        Err("anchor "@ + debug_quoted(anchor.id) + " already exists"@)
    } else {
        Ok(
            EditView::Write(
                joined(joined(metadata_dir, "anchors"@), id_file_name(anchor.id)),
                DocumentView::Single(anchor),
            ),
        )
    }
}

/// The file that adds an anchor.
pub fn add_anchor(repo: &Repository, loaded: &LoadedMetadata, anchor: &Anchor) -> (r: Result<
    Edit<Anchor>,
    String,
>)
    ensures
        outcome(r) == anchor_file(repo.metadata_dir@, loaded@, anchor@),
{
    match ensure_unique_anchor(loaded, anchor.id.as_str()) {
        Ok(_) => {},
        Err(message) => {
            return Err(message);
        },
    }
    let directory = join_path(repo.metadata_dir.as_str(), "anchors");
    let path = unique_path(directory.as_str(), anchor.id.as_str());
    Ok(Edit::Write(path, Document::Single(anchor.duplicate())))
}

/// The relations of loaded items.
pub open spec fn relation_values(items: Seq<MetadataItemView<RelationView>>) -> Seq<RelationView> {
    items.map_values(|item: MetadataItemView<RelationView>| item.value)
}

/// The file that adds a relation between anchors of any strand.
pub open spec fn relation_file(
    metadata_dir: Seq<char>,
    loaded: LoadedMetadataView,
    relation: RelationView,
) -> Result<EditView<RelationView>, Seq<char>> {
    if has_relation(
        relation_values(loaded.relations),
        relation.from,
        relation.to,
        relation.kind,
    ) {
        Err("that global relationship already exists"@)
    } else {
        Ok(
            EditView::Write(
                joined(
                    joined(metadata_dir, "relations"@),
                    id_file_name(relation.from + "-"@ + relation.kind + "-"@ + relation.to),
                ),
                DocumentView::Single(relation),
            ),
        )
    }
}

/// The relations of loaded items.
fn values_of(items: &Vec<MetadataItem<Relation>>) -> (r: Vec<Relation>)
    ensures
        r.deep_view() == relation_values(items.deep_view()),
{
    let ghost all = items.deep_view();
    let mut out: Vec<Relation> = Vec::new();
    let mut i: usize = 0;
    while i < items.len()
        invariant
            i <= items@.len(),
            all == items.deep_view(),
            out@.len() == i,
            forall|k: int| 0 <= k < i ==> #[trigger] out@[k]@ == all[k].value,
        decreases items@.len() - i,
    {
        assert(all[i as int] == items@[i as int]@);
        out.push(items[i].value.duplicate());
        i += 1;
    }
    assert(out.deep_view() =~= relation_values(all));
    out
}

/// The file that adds a relation between anchors of any strand.
pub fn add_global_relation(
    repo: &Repository,
    loaded: &LoadedMetadata,
    relation: &Relation,
) -> (r: Result<Edit<Relation>, String>)
    ensures
        outcome(r) == relation_file(repo.metadata_dir@, loaded@, relation@),
{
    let known = values_of(&loaded.relations);
    if relation_known(&known, relation.from.as_str(), relation.to.as_str(), &relation.kind) {
        return Err("that global relationship already exists".to_owned());
    }
    let directory = join_path(repo.metadata_dir.as_str(), "relations");
    let mut identity = relation.from.clone();
    identity.push_str("-");
    identity.push_str(relation.kind.as_str());
    identity.push_str("-");
    identity.push_str(relation.to.as_str());
    let path = unique_path(directory.as_str(), identity.as_str());
    Ok(Edit::Write(path, Document::Single(relation.duplicate())))
}

/// The position of the first item with an id, from position `i` on; the length where there
/// is none.
pub open spec fn item_position<T: Identified>(
    items: Seq<<T as DeepView>::V>,
    id: Seq<char>,
    i: int,
) -> int
    decreases items.len() - i,
{
    if i >= items.len() {
        items.len() as int
    } else if T::named(items[i]) == id {
        i
    } else {
        item_position::<T>(items, id, i + 1)
    }
}

/// The position of the first item with an id; the length where there is none.
fn position_of<T: Identified>(items: &Vec<T>, id: &str) -> (r: usize)
    ensures
        r == item_position::<T>(items.deep_view(), id@, 0),
        r <= items@.len(),
{
    let ghost all = items.deep_view();
    let mut i: usize = 0;
    while i < items.len()
        invariant
            i <= items@.len(),
            all == items.deep_view(),
            item_position::<T>(all, id@, 0) == item_position::<T>(all, id@, i as int),
        decreases items@.len() - i,
    {
        assert(all[i as int] == items@[i as int].deep_view());
        if same_text(items[i].id_text(), id) {
            return i;
        }
        i += 1;
    }
    i
}

/// Where the first item with an id stands, from file `i` on: the file and the position in
/// it. A file that could not be read ends the search.
pub open spec fn item_place<T: Identified>(
    files: Seq<MetadataFileView<<T as DeepView>::V>>,
    id: Seq<char>,
    i: int,
) -> Result<Option<(int, int)>, Seq<char>>
    decreases files.len() - i,
{
    if i >= files.len() {
        Ok(None)
    } else {
        match files[i].document {
            Err(message) => Err(message),
            Ok(document) => {
                let at = item_position::<T>(document_items(document), id, 0);
                if at < document_items(document).len() {
                    Ok(Some((i, at)))
                } else {
                    item_place::<T>(files, id, i + 1)
                }
            },
        }
    }
}

/// A document with another item at a position.
pub open spec fn with_item<T>(document: DocumentView<T>, at: int, item: T) -> DocumentView<T> {
    with_items(document, document_items(document).update(at, item))
}

/// The file that changes a strand.
pub open spec fn strand_update(
    files: Seq<MetadataFileView<StrandView>>,
    id: Seq<char>,
    edit: StrandEdit<'_>,
) -> Result<EditView<StrandView>, Seq<char>> {
    match item_place::<Strand>(files, id, 0) {
        Err(message) => Err(message),
        Ok(None) => Err("unknown strand "@ + debug_quoted(id)),
        Ok(Some((i, at))) => {
            let document = files[i].document->Ok_0;
            match strand_edited(document_items(document)[at], edit) {
                Err(message) => Err(message),
                Ok(strand) => Ok(
                    EditView::Write(files[i].path, with_item(document, at, strand)),
                ),
            }
        },
    }
}

/// What is said where no strand has an id.
fn unknown_strand(id: &str) -> (r: String)
    ensures
        r@ == "unknown strand "@ + debug_quoted(id@),
{
    let mut message = "unknown strand ".to_owned();
    message.push_str(debug_text(id).as_str());
    message
}

/// The file that changes a strand.
pub fn update_strand(files: &Vec<MetadataFile<Strand>>, id: &str, edit: &StrandEdit<'_>) -> (r: Result<
    Edit<Strand>,
    String,
>)
    ensures
        outcome(r) == strand_update(files.deep_view(), id@, *edit),
{
    let ghost all = files.deep_view();
    let mut i: usize = 0;
    while i < files.len()
        invariant
            i <= files@.len(),
            all == files.deep_view(),
            item_place::<Strand>(all, id@, 0) == item_place::<Strand>(all, id@, i as int),
        decreases files@.len() - i,
    {
        assert(all[i as int] == files@[i as int]@);
        let document = match &files[i].document {
            Err(message) => {
                return Err(message.clone());
            },
            Ok(document) => document,
        };
        let mut items = document.items();
        let at: usize = position_of(&items, id);
        assert(items@.len() == items.deep_view().len());
        if at < items.len() {
            assert(items.deep_view()[at as int] == items@[at as int]@);
            let strand = match edit_strand(&items[at], edit) {
                Ok(strand) => strand,
                Err(message) => {
                    return Err(message);
                },
            };
            let ghost before = items.deep_view();
            let ghost view = strand@;
            items.set(at, strand);
            assert(items.deep_view() =~= before.update(at as int, view));
            return Ok(Edit::Write(files[i].path.clone(), document.rebuilt(items)));
        }
        i += 1;
    }
    Err(unknown_strand(id))
}

/// What is said where no anchor beside the source has an id.
pub open spec fn unknown_sidecar(id: Seq<char>) -> Seq<char> {
    "unknown sidecar anchor "@ + debug_quoted(id)
        + "; source annotations must be edited in source"@
}

/// What is said where no anchor beside the source has an id.
fn unknown_anchor(id: &str) -> (r: String)
    ensures
        r@ == unknown_sidecar(id@),
{
    let mut message = "unknown sidecar anchor ".to_owned();
    message.push_str(debug_text(id).as_str());
    message.push_str("; source annotations must be edited in source");
    message
}

/// The file that changes an anchor.
pub open spec fn anchor_update(
    files: Seq<MetadataFileView<AnchorView>>,
    id: Seq<char>,
    args: AnchorSetArgs,
) -> Result<EditView<AnchorView>, Seq<char>> {
    match item_place::<Anchor>(files, id, 0) {
        Err(message) => Err(message),
        Ok(None) => Err(unknown_sidecar(id)),
        Ok(Some((i, at))) => {
            let document = files[i].document->Ok_0;
            match anchor_changed(document_items(document)[at], args) {
                Err(message) => Err(message),
                Ok(anchor) => Ok(
                    EditView::Write(files[i].path, with_item(document, at, anchor)),
                ),
            }
        },
    }
}

/// The file that changes an anchor.
pub fn update_anchor(
    files: &Vec<MetadataFile<Anchor>>,
    id: &str,
    args: &AnchorSetArgs,
) -> (r: Result<Edit<Anchor>, String>)
    ensures
        outcome(r) == anchor_update(files.deep_view(), id@, *args),
{
    let ghost all = files.deep_view();
    let mut i: usize = 0;
    while i < files.len()
        invariant
            i <= files@.len(),
            all == files.deep_view(),
            item_place::<Anchor>(all, id@, 0) == item_place::<Anchor>(all, id@, i as int),
        decreases files@.len() - i,
    {
        assert(all[i as int] == files@[i as int]@);
        let document = match &files[i].document {
            Err(message) => {
                return Err(message.clone());
            },
            Ok(document) => document,
        };
        let mut items = document.items();
        let at: usize = position_of(&items, id);
        assert(items@.len() == items.deep_view().len());
        if at < items.len() {
            assert(items.deep_view()[at as int] == items@[at as int]@);
            let anchor = match change_anchor(&items[at], args) {
                Ok(anchor) => anchor,
                Err(message) => {
                    return Err(message);
                },
            };
            let ghost before = items.deep_view();
            let ghost view = anchor@;
            items.set(at, anchor);
            assert(items.deep_view() =~= before.update(at as int, view));
            return Ok(Edit::Write(files[i].path.clone(), document.rebuilt(items)));
        }
        i += 1;
    }
    Err(unknown_anchor(id))
}

/// The items among the first `n` that have another id.
pub open spec fn other_items<T: Identified>(
    items: Seq<<T as DeepView>::V>,
    id: Seq<char>,
    n: int,
) -> Seq<<T as DeepView>::V>
    decreases n,
{
    if n <= 0 {
        seq![]
    } else if T::named(items[n - 1]) == id {
        other_items::<T>(items, id, n - 1)
    } else {
        other_items::<T>(items, id, n - 1).push(items[n - 1])
    }
}

/// The items that have another id.
fn items_without<T: Identified>(items: &Vec<T>, id: &str) -> (r: Vec<T>)
    ensures
        r.deep_view() == other_items::<T>(items.deep_view(), id@, items@.len() as int),
{
    let ghost all = items.deep_view();
    let mut out: Vec<T> = Vec::new();
    let mut i: usize = 0;
    assert(out.deep_view() =~= seq![]);
    while i < items.len()
        invariant
            i <= items@.len(),
            all == items.deep_view(),
            out.deep_view() == other_items::<T>(all, id@, i as int),
        decreases items@.len() - i,
    {
        assert(all[i as int] == items@[i as int].deep_view());
        if !same_text(items[i].id_text(), id) {
            push_item(&mut out, items[i].duplicate());
        }
        i += 1;
    }
    out
}

/// What takes an item away: from file `i` on, the file that holds nothing else goes, or the
/// file is written without it. A file that could not be read ends the search.
pub open spec fn item_removal<T: Identified>(
    files: Seq<MetadataFileView<<T as DeepView>::V>>,
    id: Seq<char>,
    i: int,
) -> Result<Option<EditView<<T as DeepView>::V>>, Seq<char>>
    decreases files.len() - i,
{
    if i >= files.len() {
        Ok(None)
    } else {
        match files[i].document {
            Err(message) => Err(message),
            Ok(document) => {
                let items = document_items(document);
                let left = other_items::<T>(items, id, items.len() as int);
                if left.len() == items.len() {
                    item_removal::<T>(files, id, i + 1)
                } else if document is Single {
                    Ok(Some(EditView::Remove(files[i].path)))
                } else {
                    Ok(Some(EditView::Write(files[i].path, with_items(document, left))))
                }
            },
        }
    }
}

/// What takes an item away.
fn removal_of<T: Identified>(files: &Vec<MetadataFile<T>>, id: &str) -> (r: Result<
    Option<Edit<T>>,
    String,
>)
    ensures
        outcome(r) == item_removal::<T>(files.deep_view(), id@, 0),
{
    let ghost all = files.deep_view();
    let mut i: usize = 0;
    while i < files.len()
        invariant
            i <= files@.len(),
            all == files.deep_view(),
            item_removal::<T>(all, id@, 0) == item_removal::<T>(all, id@, i as int),
        decreases files@.len() - i,
    {
        assert(all[i as int] == files@[i as int]@);
        let document = match &files[i].document {
            Err(message) => {
                return Err(message.clone());
            },
            Ok(document) => document,
        };
        let items = document.items();
        let left = items_without(&items, id);
        assert(items@.len() == items.deep_view().len());
        assert(left@.len() == left.deep_view().len());
        if left.len() != items.len() {
            return Ok(
                Some(
                    match document {
                        Document::Single(_) => Edit::Remove(files[i].path.clone()),
                        _ => Edit::Write(files[i].path.clone(), document.rebuilt(left)),
                    },
                ),
            );
        }
        i += 1;
    }
    Ok(None)
}

/// What takes a strand away.
pub fn remove_strand(files: &Vec<MetadataFile<Strand>>, id: &str) -> (r: Result<
    Edit<Strand>,
    String,
>)
    ensures
        outcome(r) == match item_removal::<Strand>(files.deep_view(), id@, 0) {
            Err(message) => Err(message),
            Ok(None) => Err("unknown strand "@ + debug_quoted(id@)),
            Ok(Some(edit)) => Ok(edit),
        },
{
    match removal_of(files, id) {
        Err(message) => Err(message),
        Ok(None) => Err(unknown_strand(id)),
        Ok(Some(edit)) => Ok(edit),
    }
}

/// What takes an anchor away.
pub fn remove_anchor(files: &Vec<MetadataFile<Anchor>>, id: &str) -> (r: Result<
    Edit<Anchor>,
    String,
>)
    ensures
        outcome(r) == match item_removal::<Anchor>(files.deep_view(), id@, 0) {
            Err(message) => Err(message),
            Ok(None) => Err(unknown_sidecar(id@)),
            Ok(Some(edit)) => Ok(edit),
        },
{
    match removal_of(files, id) {
        Err(message) => Err(message),
        Ok(None) => Err(unknown_anchor(id)),
        Ok(Some(edit)) => Ok(edit),
    }
}

/// What takes a relation away, from file `i` on.
pub open spec fn relation_removal(
    files: Seq<MetadataFileView<RelationView>>,
    from: Seq<char>,
    to: Seq<char>,
    kind: Seq<char>,
    i: int,
) -> Result<EditView<RelationView>, Seq<char>>
    decreases files.len() - i,
{
    if i >= files.len() {
        Err("matching global relationship not found"@)
    } else {
        match files[i].document {
            Err(message) => Err(message),
            Ok(document) => {
                let items = document_items(document);
                let left = other_relations(items, from, to, Some(kind), items.len() as int);
                if left.len() == items.len() {
                    relation_removal(files, from, to, kind, i + 1)
                } else if document is Single {
                    Ok(EditView::Remove(files[i].path))
                } else {
                    Ok(EditView::Write(files[i].path, with_items(document, left)))
                }
            },
        }
    }
}

/// What takes a relation away.
pub fn remove_global_relation(
    files: &Vec<MetadataFile<Relation>>,
    from: &str,
    to: &str,
    kind: &String,
) -> (r: Result<Edit<Relation>, String>)
    ensures
        outcome(r) == relation_removal(files.deep_view(), from@, to@, kind@, 0),
{
    let ghost all = files.deep_view();
    let wanted = Some(kind.clone());
    let mut i: usize = 0;
    while i < files.len()
        invariant
            i <= files@.len(),
            all == files.deep_view(),
            wanted.deep_view() == Some(kind@),
            relation_removal(all, from@, to@, kind@, 0) == relation_removal(
                all,
                from@,
                to@,
                kind@,
                i as int,
            ),
        decreases files@.len() - i,
    {
        assert(all[i as int] == files@[i as int]@);
        let document = match &files[i].document {
            Err(message) => {
                return Err(message.clone());
            },
            Ok(document) => document,
        };
        let items = document.items();
        let left = relations_without(&items, from, to, &wanted);
        assert(items@.len() == items.deep_view().len());
        assert(left@.len() == left.deep_view().len());
        if left.len() != items.len() {
            return Ok(
                match document {
                    Document::Single(_) => Edit::Remove(files[i].path.clone()),
                    _ => Edit::Write(files[i].path.clone(), document.rebuilt(left)),
                },
            );
        }
        i += 1;
    }
    Err("matching global relationship not found".to_owned())
}

/// The relations among the first `n` that an anchor is no end of.
pub open spec fn relations_elsewhere(relations: Seq<RelationView>, id: Seq<char>, n: int) -> Seq<
    RelationView,
>
    decreases n,
{
    if n <= 0 {
        seq![]
    } else if relations[n - 1].from == id || relations[n - 1].to == id {
        relations_elsewhere(relations, id, n - 1)
    } else {
        relations_elsewhere(relations, id, n - 1).push(relations[n - 1])
    }
}

/// The relations that an anchor is no end of.
fn relations_avoiding(relations: &Vec<Relation>, id: &str) -> (r: Vec<Relation>)
    ensures
        r.deep_view() == relations_elsewhere(
            relations.deep_view(),
            id@,
            relations@.len() as int,
        ),
{
    let ghost all = relations.deep_view();
    let mut out: Vec<Relation> = Vec::new();
    let mut i: usize = 0;
    assert(out.deep_view() =~= seq![]);
    while i < relations.len()
        invariant
            i <= relations@.len(),
            all == relations.deep_view(),
            out.deep_view() == relations_elsewhere(all, id@, i as int),
        decreases relations@.len() - i,
    {
        assert(all[i as int] == relations@[i as int]@);
        if !same_text(relations[i].from.as_str(), id) && !same_text(relations[i].to.as_str(), id) {
            push_item(&mut out, relations[i].duplicate());
        }
        i += 1;
    }
    out
}

/// A strand that does not speak of an anchor.
pub open spec fn without_anchor(strand: StrandView, id: Seq<char>) -> StrandView {
    StrandView {
        members: other_members(strand.members, id, strand.members.len() as int),
        relations: relations_elsewhere(strand.relations, id, strand.relations.len() as int),
        ..strand
    }
}

/// Whether a strand speaks of an anchor.
pub open spec fn refers_to(strand: StrandView, id: Seq<char>) -> bool {
    without_anchor(strand, id).members.len() != strand.members.len() || without_anchor(
        strand,
        id,
    ).relations.len() != strand.relations.len()
}

/// The first `n` strands, none of which speaks of an anchor.
pub open spec fn strands_without(strands: Seq<StrandView>, id: Seq<char>, n: int) -> Seq<StrandView>
    decreases n,
{
    if n <= 0 {
        seq![]
    } else {
        strands_without(strands, id, n - 1).push(without_anchor(strands[n - 1], id))
    }
}

/// Whether one of the first `n` strands speaks of an anchor.
pub open spec fn some_refers(strands: Seq<StrandView>, id: Seq<char>, n: int) -> bool
    decreases n,
{
    n > 0 && (some_refers(strands, id, n - 1) || refers_to(strands[n - 1], id))
}

/// The files that have to be written so that no strand speaks of an anchor, among the first
/// `n`; and why that ended early, where a file could not be read.
pub open spec fn reference_edits(
    files: Seq<MetadataFileView<StrandView>>,
    id: Seq<char>,
    n: int,
) -> (Seq<EditView<StrandView>>, Option<Seq<char>>)
    decreases n,
{
    if n <= 0 {
        (seq![], None)
    } else {
        let before = reference_edits(files, id, n - 1);
        if before.1 is Some {
            before
        } else {
            match files[n - 1].document {
                Err(message) => (before.0, Some(message)),
                Ok(document) => {
                    let items = document_items(document);
                    if some_refers(items, id, items.len() as int) {
                        (
                            before.0.push(
                                EditView::Write(
                                    files[n - 1].path,
                                    with_items(
                                        document,
                                        strands_without(items, id, items.len() as int),
                                    ),
                                ),
                            ),
                            None,
                        )
                    } else {
                        before
                    }
                },
            }
        }
    }
}

/// Once a file could not be read, nothing more is done.
proof fn lemma_reference_error(
    files: Seq<MetadataFileView<StrandView>>,
    id: Seq<char>,
    n: int,
    m: int,
)
    requires
        n <= m,
        reference_edits(files, id, n).1 is Some,
    ensures
        reference_edits(files, id, m) == reference_edits(files, id, n),
    decreases m - n,
{
    if n < m {
        lemma_reference_error(files, id, n, m - 1);
    }
}

/// The files that have to change so that none speaks of an anchor.
#[derive(Debug)]
pub struct ReferenceEdits<T> {
    /// The files.
    pub edits: Vec<Edit<T>>,
    /// Why it ended early.
    pub failure: Option<String>,
}

/// The strands without an anchor, and whether one spoke of it.
fn forget_anchor(strands: &Vec<Strand>, id: &str) -> (r: (Vec<Strand>, bool))
    ensures
        r.0.deep_view() == strands_without(strands.deep_view(), id@, strands@.len() as int),
        r.0@.len() == strands@.len(),
        r.1 == some_refers(strands.deep_view(), id@, strands@.len() as int),
{
    let ghost all = strands.deep_view();
    let mut out: Vec<Strand> = Vec::new();
    let mut changed = false;
    let mut i: usize = 0;
    assert(out.deep_view() =~= seq![]);
    while i < strands.len()
        invariant
            i <= strands@.len(),
            all == strands.deep_view(),
            out@.len() == i,
            out.deep_view() == strands_without(all, id@, i as int),
            changed == some_refers(all, id@, i as int),
        decreases strands@.len() - i,
    {
        assert(all[i as int] == strands@[i as int]@);
        let mut strand = strands[i].duplicate();
        strand.members = members_without(&strands[i].members, id);
        strand.relations = relations_avoiding(&strands[i].relations, id);
        assert(strand.members@.len() == strand.members.deep_view().len());
        assert(strand.relations@.len() == strand.relations.deep_view().len());
        assert(strands@[i as int].members@.len() == strands@[i as int].members.deep_view().len());
        assert(strands@[i as int].relations@.len()
            == strands@[i as int].relations.deep_view().len());
        assert(strand@ =~= without_anchor(all[i as int], id@));
        if strand.members.len() != strands[i].members.len() || strand.relations.len()
            != strands[i].relations.len() {
            changed = true;
        }
        push_item(&mut out, strand);
        i += 1;
    }
    (out, changed)
}

/// The files that have to be written so that no strand speaks of an anchor.
pub fn remove_anchor_references(files: &Vec<MetadataFile<Strand>>, id: &str) -> (r: ReferenceEdits<
    Strand,
>)
    ensures
        (r.edits.deep_view(), r.failure.deep_view()) == reference_edits(
            files.deep_view(),
            id@,
            files@.len() as int,
        ),
{
    let ghost all = files.deep_view();
    let mut edits: Vec<Edit<Strand>> = Vec::new();
    let mut i: usize = 0;
    assert(edits.deep_view() =~= seq![]);
    while i < files.len()
        invariant
            i <= files@.len(),
            all == files.deep_view(),
            (edits.deep_view(), None::<Seq<char>>) == reference_edits(all, id@, i as int),
        decreases files@.len() - i,
    {
        assert(all[i as int] == files@[i as int]@);
        match &files[i].document {
            Err(message) => {
                proof {
                    lemma_reference_error(all, id@, i + 1, all.len() as int);
                }
                return ReferenceEdits { edits, failure: Some(message.clone()) };
            },
            Ok(document) => {
                let items = document.items();
                assert(items@.len() == items.deep_view().len());
                let (left, changed) = forget_anchor(&items, id);
                if changed {
                    push_item(
                        &mut edits,
                        Edit::Write(files[i].path.clone(), document.rebuilt(left)),
                    );
                }
            },
        }
        i += 1;
    }
    ReferenceEdits { edits, failure: None }
}

/// The files that have to change so that no global relation starts or ends at an anchor, among
/// the first `n`; and why that ended early, where a file could not be read.
pub open spec fn global_reference_edits(
    files: Seq<MetadataFileView<RelationView>>,
    id: Seq<char>,
    n: int,
) -> (Seq<EditView<RelationView>>, Option<Seq<char>>)
    decreases n,
{
    if n <= 0 {
        (seq![], None)
    } else {
        let before = global_reference_edits(files, id, n - 1);
        if before.1 is Some {
            before
        } else {
            match files[n - 1].document {
                Err(message) => (before.0, Some(message)),
                Ok(document) => {
                    let items = document_items(document);
                    let left = relations_elsewhere(items, id, items.len() as int);
                    if left.len() == items.len() {
                        before
                    } else {
                        (
                            before.0.push(
                                match document {
                                    DocumentView::Single(_) => EditView::Remove(files[n - 1].path),
                                    _ => EditView::Write(
                                        files[n - 1].path,
                                        with_items(document, left),
                                    ),
                                },
                            ),
                            None,
                        )
                    }
                },
            }
        }
    }
}

/// Once a file could not be read, nothing more is done.
proof fn lemma_global_reference_error(
    files: Seq<MetadataFileView<RelationView>>,
    id: Seq<char>,
    n: int,
    m: int,
)
    requires
        n <= m,
        global_reference_edits(files, id, n).1 is Some,
    ensures
        global_reference_edits(files, id, m) == global_reference_edits(files, id, n),
    decreases m - n,
{
    if n < m {
        lemma_global_reference_error(files, id, n, m - 1);
    }
}

/// The files that have to change so that no global relation starts or ends at an anchor.
pub fn remove_global_references(files: &Vec<MetadataFile<Relation>>, id: &str) -> (r:
    ReferenceEdits<Relation>)
    ensures
        (r.edits.deep_view(), r.failure.deep_view()) == global_reference_edits(
            files.deep_view(),
            id@,
            files@.len() as int,
        ),
{
    let ghost all = files.deep_view();
    let mut edits: Vec<Edit<Relation>> = Vec::new();
    let mut i: usize = 0;
    assert(edits.deep_view() =~= seq![]);
    while i < files.len()
        invariant
            i <= files@.len(),
            all == files.deep_view(),
            (edits.deep_view(), None::<Seq<char>>) == global_reference_edits(all, id@, i as int),
        decreases files@.len() - i,
    {
        assert(all[i as int] == files@[i as int]@);
        match &files[i].document {
            Err(message) => {
                proof {
                    lemma_global_reference_error(all, id@, i + 1, all.len() as int);
                }
                return ReferenceEdits { edits, failure: Some(message.clone()) };
            },
            Ok(document) => {
                let items = document.items();
                assert(items@.len() == items.deep_view().len());
                let left = relations_avoiding(&items, id);
                assert(left@.len() == left.deep_view().len());
                if left.len() != items.len() {
                    let edit = match document {
                        Document::Single(_) => Edit::Remove(files[i].path.clone()),
                        _ => Edit::Write(files[i].path.clone(), document.rebuilt(left)),
                    };
                    push_item(&mut edits, edit);
                }
            },
        }
        i += 1;
    }
    ReferenceEdits { edits, failure: None }
}

/// Where the files of a kind may stand besides its directory.
pub open spec fn candidate_names(metadata_dir: Seq<char>, kind: Seq<char>) -> Seq<Seq<char>> {
    seq![
        joined(metadata_dir, kind + ".yaml"@),
        joined(metadata_dir, kind + ".yml"@),
        joined(metadata_dir, kind + ".json"@),
        joined(metadata_dir, kind + ".toml"@),
    ]
}

/// A path of a kind and an ending.
fn candidate(metadata_dir: &str, kind: &str, ending: &str) -> (r: String)
    ensures
        r@ == joined(metadata_dir@, kind@ + ending@),
{
    let mut name = kind.to_owned();
    name.push_str(ending);
    join_path(metadata_dir, name.as_str())
}

/// Where the files of a kind may stand besides its directory.
pub fn candidate_paths(repo: &Repository, kind: &str) -> (r: Vec<String>)
    ensures
        r.deep_view() == candidate_names(repo.metadata_dir@, kind@),
{
    let mut out: Vec<String> = Vec::new();
    let directory = repo.metadata_dir.as_str();
    out.push(candidate(directory, kind, ".yaml"));
    out.push(candidate(directory, kind, ".yml"));
    out.push(candidate(directory, kind, ".json"));
    out.push(candidate(directory, kind, ".toml"));
    assert(out.deep_view() =~= candidate_names(repo.metadata_dir@, kind@));
    out
}

/// The paths among the first `n` that are documents.
pub open spec fn supported_paths(paths: Seq<Seq<char>>, n: int) -> Seq<Seq<char>>
    decreases n,
{
    if n <= 0 {
        seq![]
    } else if format_of_path(paths[n - 1]) is Some {
        supported_paths(paths, n - 1).push(paths[n - 1])
    } else {
        supported_paths(paths, n - 1)
    }
}

/// The metadata files of a kind, in order and once each: the documents that were found in its
/// directory, and those beside it.
pub open spec fn selected_paths(found: Seq<Seq<char>>, beside: Seq<Seq<char>>) -> Seq<Seq<char>> {
    let sorted = sort_paths(supported_paths(found, found.len() as int) + beside);
    distinct_paths(sorted, sorted.len() as int)
}

/// The metadata files of a kind, in order and once each.
pub fn metadata_paths(found: &Vec<String>, beside: &Vec<String>) -> (r: Vec<String>)
    ensures
        r.deep_view() == selected_paths(found.deep_view(), beside.deep_view()),
{
    let ghost all = found.deep_view();
    let ghost more = beside.deep_view();
    let mut paths: Vec<String> = Vec::new();
    let mut i: usize = 0;
    assert(paths.deep_view() =~= seq![]);
    while i < found.len()
        invariant
            i <= found@.len(),
            all == found.deep_view(),
            paths.deep_view() == supported_paths(all, i as int),
        decreases found@.len() - i,
    {
        assert(all[i as int] == found@[i as int]@);
        if format_named(found[i].as_str()).is_some() {
            push_item(&mut paths, found[i].clone());
        }
        i += 1;
    }
    let ghost start = paths.deep_view();
    let mut k: usize = 0;
    assert(start + more.take(0) =~= start);
    while k < beside.len()
        invariant
            k <= beside@.len(),
            more == beside.deep_view(),
            paths.deep_view() == start + more.take(k as int),
        decreases beside@.len() - k,
    {
        assert(more[k as int] == beside@[k as int]@);
        push_item(&mut paths, beside[k].clone());
        assert(paths.deep_view() =~= start + more.take(k + 1));
        k += 1;
    }
    assert(more.take(more.len() as int) =~= more);
    let sorted = sorted_paths(&paths);
    assert(sorted@.len() == sorted.deep_view().len());
    without_repeats(&sorted)
}

/// Once the references to an anchor are removed, no file of global relations that is written
/// has one that starts or ends there, and a file that is left as it is had none.
pub proof fn forgotten_anchors_end_no_global_relation(
    files: Seq<MetadataFileView<RelationView>>,
    id: Seq<char>,
    i: int,
)
    requires
        0 <= i < files.len(),
        global_reference_edits(files, id, files.len() as int).1 is None,
    ensures
        files[i].document is Ok,
        ({
            let edits = global_reference_edits(files, id, files.len() as int).0;
            let items = document_items(files[i].document->Ok_0);
            let left = relations_elsewhere(items, id, items.len() as int);
            &&& forall|k: int|
                0 <= k < left.len() ==> (#[trigger] left[k]).from != id && left[k].to != id
            &&& if forall|k: int|
                0 <= k < items.len() ==> (#[trigger] items[k]).from != id && items[k].to != id {
                left == items
            } else {
                edits.contains(EditView::Remove(files[i].path)) || edits.contains(
                    EditView::Write(files[i].path, with_items(files[i].document->Ok_0, left)),
                )
            }
        }),
{
    lemma_global_reference_edit(files, id, files.len() as int, i);
    let items = document_items(files[i].document->Ok_0);
    lemma_relations_elsewhere_differ(items, id, items.len() as int);
    if forall|k: int| 0 <= k < items.len() ==> (#[trigger] items[k]).from != id && items[k].to != id {
        lemma_relations_stay(items, id, items.len() as int);
        assert(items.take(items.len() as int) =~= items);
    } else {
        lemma_relations_shrink(items, id, items.len() as int);
    }
}

/// A list that has a relation at an anchor is longer than what is left of it.
proof fn lemma_relations_shrink(relations: Seq<RelationView>, id: Seq<char>, n: int)
    requires
        0 <= n <= relations.len(),
    ensures
        relations_elsewhere(relations, id, n).len() <= n,
        (exists|k: int|
            0 <= k < n && ((#[trigger] relations[k]).from == id || relations[k].to == id))
            ==> relations_elsewhere(relations, id, n).len() < n,
    decreases n,
{
    if n > 0 {
        lemma_relations_shrink(relations, id, n - 1);
    }
}

/// Where all files could be read, each that has a relation at an anchor changes.
proof fn lemma_global_reference_edit(
    files: Seq<MetadataFileView<RelationView>>,
    id: Seq<char>,
    n: int,
    i: int,
)
    requires
        0 <= i < n <= files.len(),
        global_reference_edits(files, id, n).1 is None,
    ensures
        files[i].document is Ok,
        ({
            let edits = global_reference_edits(files, id, n).0;
            let items = document_items(files[i].document->Ok_0);
            let left = relations_elsewhere(items, id, items.len() as int);
            left.len() == items.len() || edits.contains(EditView::Remove(files[i].path))
                || edits.contains(
                EditView::Write(files[i].path, with_items(files[i].document->Ok_0, left)),
            )
        }),
    decreases n,
{
    let before = global_reference_edits(files, id, n - 1).0;
    let edits = global_reference_edits(files, id, n).0;
    assert(before.is_prefix_of(edits));
    assert forall|e: EditView<RelationView>| before.contains(e) implies edits.contains(e) by {
        let k = before.index_of(e);
        assert(edits[k] == e);
    }
    if i < n - 1 {
        lemma_global_reference_edit(files, id, n - 1, i);
    } else if edits.len() > before.len() {
        assert(edits.contains(edits.last()));
    }
}

/// Once the references to an anchor are removed, no strand that is written speaks of it: each
/// member is another anchor, and no relation starts or ends there.
pub proof fn forgotten_anchors_leave_no_trace(strand: StrandView, id: Seq<char>)
    ensures
        forall|i: int|
            0 <= i < without_anchor(strand, id).members.len() ==> (
            #[trigger] without_anchor(strand, id).members[i]).anchor != id,
        forall|i: int|
            0 <= i < without_anchor(strand, id).relations.len() ==> (
            #[trigger] without_anchor(strand, id).relations[i]).from != id && without_anchor(
                strand,
                id,
            ).relations[i].to != id,
        !refers_to(without_anchor(strand, id), id),
{
    lemma_other_members_differ(strand.members, id, strand.members.len() as int);
    lemma_relations_elsewhere_differ(strand.relations, id, strand.relations.len() as int);
    let once = without_anchor(strand, id);
    lemma_members_stay(once.members, id, once.members.len() as int);
    lemma_relations_stay(once.relations, id, once.relations.len() as int);
}

proof fn lemma_other_members_differ(
    members: Seq<crate::model::MemberView>,
    id: Seq<char>,
    n: int,
)
    requires
        n <= members.len(),
    ensures
        forall|i: int|
            0 <= i < other_members(members, id, n).len() ==> (
            #[trigger] other_members(members, id, n)[i]).anchor != id,
    decreases n,
{
    if n > 0 {
        lemma_other_members_differ(members, id, n - 1);
    }
}

proof fn lemma_relations_elsewhere_differ(relations: Seq<RelationView>, id: Seq<char>, n: int)
    requires
        n <= relations.len(),
    ensures
        forall|i: int|
            0 <= i < relations_elsewhere(relations, id, n).len() ==> (
            #[trigger] relations_elsewhere(relations, id, n)[i]).from != id && relations_elsewhere(
                relations,
                id,
                n,
            )[i].to != id,
    decreases n,
{
    if n > 0 {
        lemma_relations_elsewhere_differ(relations, id, n - 1);
        let before = relations_elsewhere(relations, id, n - 1);
        let all = relations_elsewhere(relations, id, n);
        assert forall|i: int| 0 <= i < all.len() implies (#[trigger] all[i]).from != id
            && all[i].to != id by {
            if i < before.len() {
                assert(all[i] == before[i]);
            }
        }
    }
}

proof fn lemma_members_stay(members: Seq<crate::model::MemberView>, id: Seq<char>, n: int)
    requires
        0 <= n <= members.len(),
        forall|i: int| 0 <= i < n ==> (#[trigger] members[i]).anchor != id,
    ensures
        other_members(members, id, n) == members.take(n),
    decreases n,
{
    if n > 0 {
        lemma_members_stay(members, id, n - 1);
        assert(members.take(n) =~= members.take(n - 1).push(members[n - 1]));
    } else {
        assert(members.take(n) =~= seq![]);
    }
}

proof fn lemma_relations_stay(relations: Seq<RelationView>, id: Seq<char>, n: int)
    requires
        0 <= n <= relations.len(),
        forall|i: int|
            0 <= i < n ==> (#[trigger] relations[i]).from != id && relations[i].to != id,
    ensures
        relations_elsewhere(relations, id, n) == relations.take(n),
    decreases n,
{
    if n > 0 {
        lemma_relations_stay(relations, id, n - 1);
        assert(relations.take(n) =~= relations.take(n - 1).push(relations[n - 1]));
    } else {
        assert(relations.take(n) =~= seq![]);
    }
}

/// Whether a strand has an anchor as a member or as an end of a relation.
pub open spec fn names_anchor(strand: StrandView, id: Seq<char>) -> bool {
    (exists|i: int| 0 <= i < strand.members.len() && (#[trigger] strand.members[i]).anchor == id)
        || (exists|i: int|
        0 <= i < strand.relations.len() && ((#[trigger] strand.relations[i]).from == id
            || strand.relations[i].to == id))
}

/// Whether a file has a strand that names an anchor.
pub open spec fn file_names_anchor(file: MetadataFileView<StrandView>, id: Seq<char>) -> bool {
    file.document matches Ok(document) && exists|i: int|
        0 <= i < document_items(document).len() && names_anchor(
            #[trigger] document_items(document)[i],
            id,
        )
}

/// How many of the first `n` files name an anchor.
pub open spec fn naming_files(
    files: Seq<MetadataFileView<StrandView>>,
    id: Seq<char>,
    n: int,
) -> int
    decreases n,
{
    if n <= 0 {
        0
    } else {
        naming_files(files, id, n - 1) + if file_names_anchor(files[n - 1], id) {
            1int
        } else {
            0int
        }
    }
}

/// The document of a file whose strands do not speak of an anchor.
pub open spec fn forgotten_document(document: DocumentView<StrandView>, id: Seq<char>) -> DocumentView<
    StrandView,
> {
    let items = document_items(document);
    with_items(document, strands_without(items, id, items.len() as int))
}

/// A file once the references to an anchor are removed from it.
pub open spec fn forgotten_file(file: MetadataFileView<StrandView>, id: Seq<char>) -> MetadataFileView<
    StrandView,
> {
    match file.document {
        Ok(document) => if file_names_anchor(file, id) {
            MetadataFileView { document: Ok(forgotten_document(document, id)), ..file }
        } else {
            file
        },
        Err(_) => file,
    }
}

proof fn lemma_members_shrink(members: Seq<crate::model::MemberView>, id: Seq<char>, n: int)
    requires
        0 <= n <= members.len(),
    ensures
        other_members(members, id, n).len() <= n,
        (exists|k: int| 0 <= k < n && (#[trigger] members[k]).anchor == id) ==> other_members(
            members,
            id,
            n,
        ).len() < n,
    decreases n,
{
    if n > 0 {
        lemma_members_shrink(members, id, n - 1);
    }
}

proof fn lemma_refers(strand: StrandView, id: Seq<char>)
    ensures
        refers_to(strand, id) == names_anchor(strand, id),
{
    let m = strand.members.len() as int;
    let r = strand.relations.len() as int;
    lemma_members_shrink(strand.members, id, m);
    lemma_relations_shrink(strand.relations, id, r);
    if !names_anchor(strand, id) {
        lemma_members_stay(strand.members, id, m);
        lemma_relations_stay(strand.relations, id, r);
    }
}

proof fn lemma_some_refers(strands: Seq<StrandView>, id: Seq<char>, n: int)
    requires
        0 <= n <= strands.len(),
    ensures
        some_refers(strands, id, n) <==> exists|i: int|
            0 <= i < n && names_anchor(#[trigger] strands[i], id),
    decreases n,
{
    if n > 0 {
        lemma_some_refers(strands, id, n - 1);
        lemma_refers(strands[n - 1], id);
    }
}

proof fn lemma_strands_without(strands: Seq<StrandView>, id: Seq<char>, n: int)
    requires
        0 <= n <= strands.len(),
    ensures
        strands_without(strands, id, n).len() == n,
        forall|i: int|
            0 <= i < n ==> #[trigger] strands_without(strands, id, n)[i] == without_anchor(
                strands[i],
                id,
            ),
    decreases n,
{
    if n > 0 {
        lemma_strands_without(strands, id, n - 1);
    }
}

/// The references to an anchor are removed from exactly those files that name it, in their
/// order: where all files can be read, there are as many edits as such files, and each edit
/// writes the file without the anchor.
pub proof fn only_naming_files_are_rewritten(
    files: Seq<MetadataFileView<StrandView>>,
    id: Seq<char>,
    n: int,
)
    requires
        0 <= n <= files.len(),
        reference_edits(files, id, n).1 is None,
    ensures
        reference_edits(files, id, n).0.len() == naming_files(files, id, n),
        forall|i: int|
            0 <= i < n && file_names_anchor(#[trigger] files[i], id) ==> 0 <= naming_files(
                files,
                id,
                i,
            ) < naming_files(files, id, n) && reference_edits(files, id, n).0[naming_files(
                files,
                id,
                i,
            )] == EditView::Write(
                files[i].path,
                forgotten_document(files[i].document->Ok_0, id),
            ),
        forall|i: int| 0 <= i < n ==> (#[trigger] files[i]).document is Ok,
    decreases n,
{
    if n > 0 {
        only_naming_files_are_rewritten(files, id, n - 1);
        let items = document_items(files[n - 1].document->Ok_0);
        lemma_some_refers(items, id, items.len() as int);
        let before = reference_edits(files, id, n - 1).0;
        let edits = reference_edits(files, id, n).0;
        assert forall|i: int| 0 <= i < n && file_names_anchor(#[trigger] files[i], id) implies 0
            <= naming_files(files, id, i) < naming_files(files, id, n) && edits[naming_files(
            files,
            id,
            i,
        )] == EditView::Write(
            files[i].path,
            forgotten_document(files[i].document->Ok_0, id),
        ) by {
            if i < n - 1 {
                assert(edits[naming_files(files, id, i)] == before[naming_files(files, id, i)]);
            }
        }
    }
}

/// Once the references to an anchor are removed, no file names it.
proof fn lemma_forgotten_file(file: MetadataFileView<StrandView>, id: Seq<char>)
    ensures
        !file_names_anchor(forgotten_file(file, id), id),
        forgotten_file(file, id).document is Ok == file.document is Ok,
{
    if file_names_anchor(file, id) {
        let document = file.document->Ok_0;
        let items = document_items(document);
        let left = strands_without(items, id, items.len() as int);
        lemma_strands_without(items, id, items.len() as int);
        let now = document_items(forgotten_document(document, id));
        assert(now =~= left) by {
            if document is Single {
                assert(left.len() == 1);
            }
        }
        assert forall|i: int| 0 <= i < now.len() implies !names_anchor(#[trigger] now[i], id) by {
            forgotten_anchors_leave_no_trace(items[i], id);
            assert(now[i] == without_anchor(items[i], id));
        }
    }
}

/// Removing the references to an anchor a second time edits nothing.
pub proof fn references_are_removed_once(
    files: Seq<MetadataFileView<StrandView>>,
    id: Seq<char>,
    n: int,
)
    requires
        0 <= n <= files.len(),
        reference_edits(files, id, n).1 is None,
    ensures
        ({
            let after = files.map_values(
                |file: MetadataFileView<StrandView>| forgotten_file(file, id),
            );
            reference_edits(after, id, n) == (
                Seq::<EditView<StrandView>>::empty(),
                None::<Seq<char>>,
            )
        }),
    decreases n,
{
    let after = files.map_values(|file: MetadataFileView<StrandView>| forgotten_file(file, id));
    if n > 0 {
        references_are_removed_once(files, id, n - 1);
        lemma_forgotten_file(files[n - 1], id);
        assert(after[n - 1] == forgotten_file(files[n - 1], id));
        let items = document_items(after[n - 1].document->Ok_0);
        lemma_some_refers(items, id, items.len() as int);
        assert(reference_edits(files, id, n - 1).1 is None);
        assert(files[n - 1].document is Ok);
        if some_refers(items, id, items.len() as int) {
            assert(file_names_anchor(after[n - 1], id));
        }
    }
}

proof fn lemma_members_filtered(members: Seq<crate::model::MemberView>, id: Seq<char>, n: int)
    requires
        0 <= n <= members.len(),
    ensures
        other_members(members, id, n) == members.take(n).filter(
            |m: crate::model::MemberView| m.anchor != id,
        ),
    decreases n,
{
    reveal(Seq::filter);
    if n > 0 {
        lemma_members_filtered(members, id, n - 1);
        assert(members.take(n).drop_last() =~= members.take(n - 1));
    }
}

proof fn lemma_relations_filtered(relations: Seq<RelationView>, id: Seq<char>, n: int)
    requires
        0 <= n <= relations.len(),
    ensures
        relations_elsewhere(relations, id, n) == relations.take(n).filter(
            |r: RelationView| r.from != id && r.to != id,
        ),
    decreases n,
{
    reveal(Seq::filter);
    if n > 0 {
        lemma_relations_filtered(relations, id, n - 1);
        assert(relations.take(n).drop_last() =~= relations.take(n - 1));
    }
}

/// A strand that an anchor is removed from keeps all that does not name it, in order.
pub proof fn other_references_stay(strand: StrandView, id: Seq<char>)
    ensures
        without_anchor(strand, id).members == strand.members.filter(
            |m: crate::model::MemberView| m.anchor != id,
        ),
        without_anchor(strand, id).relations == strand.relations.filter(
            |r: RelationView| r.from != id && r.to != id,
        ),
        without_anchor(strand, id).id == strand.id,
        !names_anchor(strand, id) ==> without_anchor(strand, id) == strand,
{
    let m = strand.members.len() as int;
    let r = strand.relations.len() as int;
    lemma_members_filtered(strand.members, id, m);
    lemma_relations_filtered(strand.relations, id, r);
    assert(strand.members.take(m) =~= strand.members);
    assert(strand.relations.take(r) =~= strand.relations);
    if !names_anchor(strand, id) {
        lemma_members_stay(strand.members, id, m);
        lemma_relations_stay(strand.relations, id, r);
    }
}

/// What is left of the first `n` files of global relations once those at an anchor are
/// removed.
pub open spec fn forgotten_relations(
    files: Seq<MetadataFileView<RelationView>>,
    id: Seq<char>,
    n: int,
) -> Seq<MetadataFileView<RelationView>>
    decreases n,
{
    if n <= 0 {
        seq![]
    } else {
        let before = forgotten_relations(files, id, n - 1);
        match files[n - 1].document {
            Err(_) => before.push(files[n - 1]),
            Ok(document) => {
                let items = document_items(document);
                let left = relations_elsewhere(items, id, items.len() as int);
                if left.len() == items.len() {
                    before.push(files[n - 1])
                } else if document is Single {
                    before
                } else {
                    before.push(
                        MetadataFileView {
                            document: Ok(with_items(document, left)),
                            ..files[n - 1]
                        },
                    )
                }
            },
        }
    }
}

/// How many of the first `n` files have a global relation at an anchor.
pub open spec fn touching_files(
    files: Seq<MetadataFileView<RelationView>>,
    id: Seq<char>,
    n: int,
) -> int
    decreases n,
{
    if n <= 0 {
        0
    } else {
        touching_files(files, id, n - 1) + if files[n - 1].document matches Ok(document) && exists|
            k: int,
        |
            0 <= k < document_items(document).len() && ((
            #[trigger] document_items(document)[k]).from == id || document_items(document)[k].to
                == id) {
            1int
        } else {
            0int
        }
    }
}

proof fn lemma_prefix_edits(
    a: Seq<MetadataFileView<RelationView>>,
    b: Seq<MetadataFileView<RelationView>>,
    id: Seq<char>,
    n: int,
)
    requires
        0 <= n <= a.len(),
        n <= b.len(),
        forall|i: int| 0 <= i < n ==> #[trigger] a[i] == b[i],
    ensures
        global_reference_edits(a, id, n) == global_reference_edits(b, id, n),
    decreases n,
{
    if n > 0 {
        lemma_prefix_edits(a, b, id, n - 1);
        assert(a[n - 1] == b[n - 1]);
    }
}

/// Removing the global relations at an anchor edits as many files as have one, and a second
/// removal edits nothing.
pub proof fn global_references_are_removed_once(
    files: Seq<MetadataFileView<RelationView>>,
    id: Seq<char>,
    n: int,
)
    requires
        0 <= n <= files.len(),
        global_reference_edits(files, id, n).1 is None,
    ensures
        global_reference_edits(files, id, n).0.len() == touching_files(files, id, n),
        global_reference_edits(
            forgotten_relations(files, id, n),
            id,
            forgotten_relations(files, id, n).len() as int,
        ) == (Seq::<EditView<RelationView>>::empty(), None::<Seq<char>>),
    decreases n,
{
    if n > 0 {
        global_references_are_removed_once(files, id, n - 1);
        let before = forgotten_relations(files, id, n - 1);
        let after = forgotten_relations(files, id, n);
        let document = files[n - 1].document->Ok_0;
        let items = document_items(document);
        let left = relations_elsewhere(items, id, items.len() as int);
        lemma_relations_shrink(items, id, items.len() as int);
        if left.len() != items.len() {
            lemma_relations_elsewhere_differ(items, id, items.len() as int);
            lemma_relations_stay(left, id, left.len() as int);
            if !(exists|k: int|
                0 <= k < items.len() && ((#[trigger] items[k]).from == id || items[k].to == id)) {
                lemma_relations_stay(items, id, items.len() as int);
            }
        }
        lemma_prefix_edits(before, after, id, before.len() as int);
    }
}

} // verus!
