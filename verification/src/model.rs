//! The output model: what a parse returns, and the mathematical view of each
//! type that the contracts speak of.
use vstd::prelude::*;
use vstd::utf8::*;

verus! {

/// Half-open range `[start, end)` of byte offsets into the UTF-8 text that was
/// parsed (the input itself for UTF-8 sources, the re-encoded text for any
/// other encoding). A leading byte-order mark is never part of that text.
#[derive(Debug, Default, Clone, Copy, PartialEq, Eq, Structural)]
pub struct ByteSpan {
    pub start: u32,
    pub end: u32,
}

/// A value and the place in the source that it was read from.
#[derive(Debug, Clone, PartialEq)]
pub struct Spanned<T> {
    pub value: T,
    pub span: ByteSpan,
}

/// The two mapper families, and neither of them.
#[derive(Debug, Clone, Copy, PartialEq, Eq, Structural)]
pub enum Dialect {
    Mybatis,
    Ibatis,
    Unknown,
}

/// The whole result of a parse. Parsing never fails: every anomaly is a
/// [`Diagnostic`].
#[derive(Debug, Clone, PartialEq)]
pub struct ParseResult {
    pub dialect: Dialect,
    /// `None` when the root element is no mapper, the input is over the cap or
    /// no encoding fits it (a diagnostic says why).
    pub mapper: Option<Mapper>,
    /// The WHATWG name of the encoding the input was decoded with. `None` only
    /// when no decoding was attempted.
    pub encoding: Option<String>,
    pub diagnostics: Vec<Diagnostic>,
}

/// One anomaly. `message` is for people: match on `code`.
#[derive(Debug, Clone, PartialEq)]
pub struct Diagnostic {
    pub code: DiagCode,
    pub span: Option<ByteSpan>,
    pub message: String,
}

/// What an anomaly is about.
#[derive(Debug, Clone, Copy, PartialEq, Eq, Structural)]
#[non_exhaustive]
pub enum DiagCode {
    /// No encoding fits the bytes; there is no mapper.
    EncodingUndetectable,
    EncodingMismatch,
    UnclosedTag,
    DuplicateStatementId,
    MissingStatementId,
    /// A local `refid` without a matching `<sql>` in this file, or none at
    /// all. MyBatis only: iBatis fragments are shared between files.
    DanglingRefid,
    BranchLimitExceeded,
    UnknownElement,
    /// The input is over [`crate::MAX_INPUT_BYTES`].
    OversizeInput,
    /// An attribute given twice: the first value wins.
    DuplicateAttribute,
    /// An entity reference that cannot be resolved; its text is kept.
    InvalidEntity,
    /// A placeholder without its closing delimiter; its text is kept.
    UnterminatedPlaceholder,
    /// Nesting beyond the depth cap; the rest of the subtree is dropped.
    NestingLimitExceeded,
    /// An `<include>` is the first or last content of a `<where>`, `<set>` or
    /// `<trim>`, so the wrapper's own rule has to be applied again once the
    /// fragment is substituted.
    IncludeAtWrapperBoundary,
    /// A code this build does not know (deserialization only).
    Other,
}

/// A `<mapper>` or `<sqlMap>`. Every list is in document order.
#[derive(Debug, Clone, PartialEq)]
pub struct Mapper {
    pub namespace: Option<Spanned<String>>,
    pub statements: Vec<Statement>,
    pub fragments: Vec<SqlFragment>,
    pub result_maps: Vec<ResultMap>,
}

/// The statement-like tags. `Generic` is iBatis's `<statement>`.
#[derive(Debug, Clone, Copy, PartialEq, Eq, Structural)]
pub enum StatementKind {
    Select,
    Insert,
    Update,
    Delete,
    Procedure,
    Generic,
}

/// One statement element.
#[derive(Debug, Clone, PartialEq)]
pub struct Statement {
    pub kind: StatementKind,
    /// From the start of the opening tag to the end of the element.
    pub span: ByteSpan,
    /// `None` when missing; ids are never invented.
    pub id: Option<Spanned<String>>,
    pub database_id: Option<Spanned<String>>,
    pub sql: SqlText,
    pub includes: Vec<Spanned<IncludeRef>>,
    pub param_class: Option<Spanned<ClassRef>>,
    pub result_class: Option<Spanned<ClassRef>>,
    pub result_map_ref: Option<Spanned<String>>,
    /// The paths inside `#{a.b}` and `${c}`.
    pub property_paths: Vec<Spanned<String>>,
}

/// What flattening a body gives: its variants, or, past the branch cap, the
/// text of all branches once.
#[derive(Debug, Clone, PartialEq)]
#[non_exhaustive]
pub enum SqlText {
    Variants(Vec<SqlVariant>),
    Union {
        text: SqlString,
        /// A lower bound of the number of variants, over the cap.
        branch_count: u32,
    },
    /// A shape this build does not know (deserialization only).
    Unrecognized,
}

/// One candidate shape of a statement.
#[derive(Debug, Clone, PartialEq)]
pub struct SqlVariant {
    pub text: SqlString,
    /// The `test` expressions of the branches taken, in document order.
    pub conditions: Vec<String>,
}

/// Flattened SQL and the way back to the source.
#[derive(Debug, Clone, PartialEq)]
pub struct SqlString {
    /// Placeholders are normalized: `#{..}` is `?`, `${..}` is `__BATIS_DYN__`.
    pub text: String,
    /// `(offset in text, offset in source)` of each segment's start.
    pub span_map: Vec<(u32, u32)>,
}

/// One `<sql>` fragment.
#[derive(Debug, Clone, PartialEq)]
pub struct SqlFragment {
    pub span: ByteSpan,
    pub id: Spanned<String>,
    pub sql: SqlText,
    pub includes: Vec<Spanned<IncludeRef>>,
}

/// One `<include>`. In the flattened text it stands as
/// `/* batis:include(<raw>) */`, each `*/` in `raw` written `*_/`.
#[derive(Debug, Clone, PartialEq)]
pub struct IncludeRef {
    pub raw: String,
    pub target: IncludeTarget,
}

/// What a `refid` points at.
#[derive(Debug, Clone, PartialEq)]
pub enum IncludeTarget {
    Local(String),
    Qualified { ns: String, id: String },
    /// Driven by `${}`: cannot be resolved statically.
    Dynamic,
}

/// A class name as written; resolving aliases is left to the consumer.
#[derive(Debug, Clone, PartialEq)]
pub struct ClassRef {
    pub raw: String,
}

/// One `<resultMap>`, its nested mappings flattened into one list.
#[derive(Debug, Clone, PartialEq)]
pub struct ResultMap {
    pub span: ByteSpan,
    pub id: Spanned<String>,
    pub type_ref: Option<Spanned<ClassRef>>,
    pub extends: Option<Spanned<String>>,
    pub mappings: Vec<ColumnMapping>,
}

/// One `<id>` or `<result>`.
#[derive(Debug, Clone, PartialEq)]
pub struct ColumnMapping {
    pub column: Option<String>,
    pub property: Option<String>,
}

// ---- views --------------------------------------------------------------

/// The views of the elements.
pub open spec fn deep<T: View>(items: Seq<T>) -> Seq<T::V> {
    Seq::new(items.len(), |i: int| items[i]@)
}

/// The view of what an `Option` holds.
pub open spec fn opt<T: View>(item: Option<T>) -> Option<T::V> {
    match item {
        Some(value) => Some(value@),
        None => None,
    }
}

pub broadcast proof fn deep_push<T: View>(items: Seq<T>, item: T)
    ensures
        #[trigger] deep(items.push(item)) == deep(items).push(item@),
{
    assert(deep(items.push(item)) =~= deep(items).push(item@));
}

pub broadcast proof fn deep_concat<T: View>(a: Seq<T>, b: Seq<T>)
    ensures
        #[trigger] deep(a + b) == deep(a) + deep(b),
{
    assert(deep(a + b) =~= deep(a) + deep(b));
}

pub broadcast proof fn deep_empty<T: View>()
    ensures
        #[trigger] deep(Seq::<T>::empty()) == Seq::<T::V>::empty(),
{
    assert(deep(Seq::<T>::empty()) =~= Seq::<T::V>::empty());
}

pub broadcast proof fn deep_subrange<T: View>(items: Seq<T>, from: int, to: int)
    requires
        0 <= from <= to <= items.len(),
    ensures
        #[trigger] deep(items.subrange(from, to)) == deep(items).subrange(from, to),
{
    assert(deep(items.subrange(from, to)) =~= deep(items).subrange(from, to));
}

/// One more element of `more` at the end of a list that holds the first `k`.
pub proof fn lemma_grow<T: View>(start: Seq<T::V>, list: Seq<T>, item: T, more: Seq<T::V>, k: int)
    requires
        0 <= k < more.len(),
        deep(list) == start + more.take(k),
        item@ == more[k],
    ensures
        deep(list.push(item)) == start + more.take(k + 1),
{
    deep_push(list, item);
    assert(deep(list).push(item@) =~= start + more.take(k + 1));
}

pub broadcast group group_deep {
    deep_push,
    deep_concat,
    deep_empty,
    deep_subrange,
}

impl<T: View> View for Spanned<T> {
    type V = Spanned<T::V>;

    open spec fn view(&self) -> Spanned<T::V> {
        Spanned { value: self.value@, span: self.span }
    }
}

pub struct DiagnosticView {
    pub code: DiagCode,
    pub span: Option<ByteSpan>,
    pub message: Seq<char>,
}

impl View for Diagnostic {
    type V = DiagnosticView;

    open spec fn view(&self) -> DiagnosticView {
        DiagnosticView { code: self.code, span: self.span, message: self.message@ }
    }
}

/// The text as UTF-8 bytes, which the offsets of the map count.
pub struct SqlStringView {
    pub text: Seq<u8>,
    pub span_map: Seq<(u32, u32)>,
}

impl View for SqlString {
    type V = SqlStringView;

    open spec fn view(&self) -> SqlStringView {
        SqlStringView { text: encode_utf8(self.text@), span_map: self.span_map@ }
    }
}

pub struct SqlVariantView {
    pub text: SqlStringView,
    pub conditions: Seq<Seq<char>>,
}

impl View for SqlVariant {
    type V = SqlVariantView;

    open spec fn view(&self) -> SqlVariantView {
        SqlVariantView { text: self.text@, conditions: deep(self.conditions@) }
    }
}

pub enum SqlTextView {
    Variants(Seq<SqlVariantView>),
    Union { text: SqlStringView, branch_count: u32 },
    Unrecognized,
}

impl View for SqlText {
    type V = SqlTextView;

    open spec fn view(&self) -> SqlTextView {
        match self {
            SqlText::Variants(variants) => SqlTextView::Variants(deep(variants@)),
            SqlText::Union { text, branch_count } => SqlTextView::Union {
                text: text@,
                branch_count: *branch_count,
            },
            SqlText::Unrecognized => SqlTextView::Unrecognized,
        }
    }
}

pub enum IncludeTargetView {
    Local(Seq<char>),
    Qualified { ns: Seq<char>, id: Seq<char> },
    Dynamic,
}

impl View for IncludeTarget {
    type V = IncludeTargetView;

    open spec fn view(&self) -> IncludeTargetView {
        match self {
            IncludeTarget::Local(id) => IncludeTargetView::Local(id@),
            IncludeTarget::Qualified { ns, id } => IncludeTargetView::Qualified {
                ns: ns@,
                id: id@,
            },
            IncludeTarget::Dynamic => IncludeTargetView::Dynamic,
        }
    }
}

pub struct IncludeRefView {
    pub raw: Seq<char>,
    pub target: IncludeTargetView,
}

impl View for IncludeRef {
    type V = IncludeRefView;

    open spec fn view(&self) -> IncludeRefView {
        IncludeRefView { raw: self.raw@, target: self.target@ }
    }
}

pub struct ClassRefView {
    pub raw: Seq<char>,
}

impl View for ClassRef {
    type V = ClassRefView;

    open spec fn view(&self) -> ClassRefView {
        ClassRefView { raw: self.raw@ }
    }
}

pub struct ColumnMappingView {
    pub column: Option<Seq<char>>,
    pub property: Option<Seq<char>>,
}

impl View for ColumnMapping {
    type V = ColumnMappingView;

    open spec fn view(&self) -> ColumnMappingView {
        ColumnMappingView { column: opt(self.column), property: opt(self.property) }
    }
}

pub struct StatementView {
    pub kind: StatementKind,
    pub span: ByteSpan,
    pub id: Option<Spanned<Seq<char>>>,
    pub database_id: Option<Spanned<Seq<char>>>,
    pub sql: SqlTextView,
    pub includes: Seq<Spanned<IncludeRefView>>,
    pub param_class: Option<Spanned<ClassRefView>>,
    pub result_class: Option<Spanned<ClassRefView>>,
    pub result_map_ref: Option<Spanned<Seq<char>>>,
    pub property_paths: Seq<Spanned<Seq<char>>>,
}

impl View for Statement {
    type V = StatementView;

    open spec fn view(&self) -> StatementView {
        StatementView {
            kind: self.kind,
            span: self.span,
            id: opt(self.id),
            database_id: opt(self.database_id),
            sql: self.sql@,
            includes: deep(self.includes@),
            param_class: opt(self.param_class),
            result_class: opt(self.result_class),
            result_map_ref: opt(self.result_map_ref),
            property_paths: deep(self.property_paths@),
        }
    }
}

pub struct SqlFragmentView {
    pub span: ByteSpan,
    pub id: Spanned<Seq<char>>,
    pub sql: SqlTextView,
    pub includes: Seq<Spanned<IncludeRefView>>,
}

impl View for SqlFragment {
    type V = SqlFragmentView;

    open spec fn view(&self) -> SqlFragmentView {
        SqlFragmentView {
            span: self.span,
            id: self.id@,
            sql: self.sql@,
            includes: deep(self.includes@),
        }
    }
}

pub struct ResultMapView {
    pub span: ByteSpan,
    pub id: Spanned<Seq<char>>,
    pub type_ref: Option<Spanned<ClassRefView>>,
    pub extends: Option<Spanned<Seq<char>>>,
    pub mappings: Seq<ColumnMappingView>,
}

impl View for ResultMap {
    type V = ResultMapView;

    open spec fn view(&self) -> ResultMapView {
        ResultMapView {
            span: self.span,
            id: self.id@,
            type_ref: opt(self.type_ref),
            extends: opt(self.extends),
            mappings: deep(self.mappings@),
        }
    }
}

pub struct MapperView {
    pub namespace: Option<Spanned<Seq<char>>>,
    pub statements: Seq<StatementView>,
    pub fragments: Seq<SqlFragmentView>,
    pub result_maps: Seq<ResultMapView>,
}

impl View for Mapper {
    type V = MapperView;

    open spec fn view(&self) -> MapperView {
        MapperView {
            namespace: opt(self.namespace),
            statements: deep(self.statements@),
            fragments: deep(self.fragments@),
            result_maps: deep(self.result_maps@),
        }
    }
}

pub struct ParseResultView {
    pub dialect: Dialect,
    pub mapper: Option<MapperView>,
    pub encoding: Option<Seq<char>>,
    pub diagnostics: Seq<DiagnosticView>,
}

impl View for ParseResult {
    type V = ParseResultView;

    open spec fn view(&self) -> ParseResultView {
        ParseResultView {
            dialect: self.dialect,
            mapper: opt(self.mapper),
            encoding: opt(self.encoding),
            diagnostics: deep(self.diagnostics@),
        }
    }
}

} // verus!
