//! Statements, `<sql>` fragments and `<resultMap>` headers.
use crate::attrs;
use crate::attrs::diagnostic;
use crate::body;
use crate::body::{capture_subtree, BodySegment, SegmentView};
use crate::flatten;
use crate::flatten::flatten_body;
use crate::includes;
use crate::includes::{has_id, lift_includes, merge_includes};
use crate::model;
use crate::model::{
    ByteSpan, ClassRef, ClassRefView, DiagCode, Diagnostic, DiagnosticView, Dialect, ResultMap,
    ResultMapView, Spanned, SqlFragment, SqlFragmentView, SqlString, SqlStringView, SqlText,
    SqlTextView, SqlVariant, SqlVariantView, Statement, StatementKind, StatementView,
};
use crate::result_map::{append_diagnostic, append_diagnostics, read_spanned};
use crate::tags;
use crate::tags::Room;
use crate::text::{concat, concat3, str_eq};
use vstd::prelude::*;
use vstd::string::*;
use vstd::utf8::*;

verus! {

/// The kind of statement that a tag starts.
pub open spec fn kind_of(name: Seq<char>) -> Option<StatementKind> {
    if name == "select"@ {
        Some(StatementKind::Select)
    } else if name == "insert"@ {
        Some(StatementKind::Insert)
    } else if name == "update"@ {
        Some(StatementKind::Update)
    } else if name == "delete"@ {
        Some(StatementKind::Delete)
    } else if name == "procedure"@ {
        Some(StatementKind::Procedure)
    } else if name == "statement"@ {
        Some(StatementKind::Generic)
    } else {
        None
    }
}

pub fn statement_kind(name: &str) -> (kind: Option<StatementKind>)
    ensures
        kind == kind_of(name@),
{
    if str_eq(name, "select") {
        Some(StatementKind::Select)
    } else if str_eq(name, "insert") {
        Some(StatementKind::Insert)
    } else if str_eq(name, "update") {
        Some(StatementKind::Update)
    } else if str_eq(name, "delete") {
        Some(StatementKind::Delete)
    } else if str_eq(name, "procedure") {
        Some(StatementKind::Procedure)
    } else if str_eq(name, "statement") {
        Some(StatementKind::Generic)
    } else {
        None
    }
}

/// What an empty body is flattened into: one variant without text.
pub open spec fn empty_sql() -> SqlTextView {
    SqlTextView::Variants(
        seq![
            SqlVariantView {
                text: SqlStringView { text: Seq::empty(), span_map: Seq::empty() },
                conditions: Seq::empty(),
            },
        ],
    )
}

pub fn empty_sql_variants() -> (sql: SqlText)
    ensures
        sql@ == empty_sql(),
        flatten::sql_text_ok(sql@, 0),
{
    let variant = SqlVariant {
        text: SqlString { text: String::new(), span_map: Vec::new() },
        conditions: Vec::new(),
    };
    let mut variants: Vec<SqlVariant> = Vec::new();
    variants.push(variant);
    proof {
        assert(variant@.text.text =~= Seq::empty());
        assert(variant@.text.span_map =~= Seq::empty());
        assert(variant@.conditions =~= Seq::empty());
        assert(model::deep(variants@) =~= seq![variant@]);
        assert(valid_utf8(Seq::<u8>::empty()));
    }
    SqlText::Variants(variants)
}

/// A self-closed element has the SQL of one with an empty body.
pub proof fn law_empty_body(source: Seq<u8>, dialect: Dialect)
    ensures
        flatten::flat_body(source, dialect, Seq::empty()).sql == empty_sql(),
{
    let none = Seq::<SegmentView>::empty();
    let ctx = tags::fresh_ctx(dialect);
    let lone = seq![crate::wrapper::no_alt()];
    assert(flatten::body_from(source, none, 0, lone, 1, ctx) == Ok::<
        (Seq<crate::wrapper::AltView>, tags::CtxView),
        nat,
    >((lone, ctx)));
    assert(flatten::descend(source, none, 0, ctx) == flatten::body_from(
        source,
        none,
        0,
        lone,
        1,
        ctx,
    ));
    let variant = flatten::variant_of(lone[0]);
    assert(variant.text.span_map =~= Seq::empty());
    assert(flatten::flat_body(source, dialect, none).sql->Variants_0 =~= empty_sql()->Variants_0);
}

// ---- ids ----------------------------------------------------------------

/// An id and the database it is for.
pub type StatementKey = (Seq<char>, Option<Seq<char>>);

pub open spec fn key_view(key: (String, Option<String>)) -> StatementKey {
    (key.0@, model::opt(key.1))
}

pub open spec fn key_views(keys: Seq<(String, Option<String>)>) -> Seq<StatementKey> {
    Seq::new(keys.len(), |k: int| key_view(keys[k]))
}

/// The set of ids with one more.
pub open spec fn with_id<T>(ids: Seq<T>, id: T) -> Seq<T> {
    if ids.contains(id) {
        ids
    } else {
        ids.push(id)
    }
}

pub open spec fn duplicate_id(what: Seq<char>, id: Spanned<Seq<char>>) -> DiagnosticView {
    DiagnosticView {
        code: DiagCode::DuplicateStatementId,
        span: Some(id.span),
        message: "duplicate "@ + what + " '"@ + id.value + "'"@,
    }
}

pub open spec fn missing_id(what: Seq<char>, span: ByteSpan) -> DiagnosticView {
    DiagnosticView {
        code: DiagCode::MissingStatementId,
        span: Some(span),
        message: what + " is missing an id attribute"@,
    }
}

fn duplicate_id_diagnostic(what: &str, id: &Spanned<String>) -> (d: Diagnostic)
    ensures
        d@ == duplicate_id(what@, id@),
{
    let mut message = concat3("duplicate ", what, " '");
    crate::text::push(&mut message, id.value.as_str());
    crate::text::push(&mut message, "'");
    diagnostic(DiagCode::DuplicateStatementId, Some(id.span), message)
}

fn missing_id_diagnostic(what: &str, span: ByteSpan) -> (d: Diagnostic)
    ensures
        d@ == missing_id(what@, span),
{
    diagnostic(
        DiagCode::MissingStatementId,
        Some(span),
        concat(what, " is missing an id attribute"),
    )
}

/// Adds a statement key; returns whether it was new.
fn insert_key(keys: &mut Vec<(String, Option<String>)>, key: (String, Option<String>)) -> (fresh:
    bool)
    ensures
        fresh == !key_views(old(keys)@).contains(key_view(key)),
        key_views(final(keys)@) == with_id(key_views(old(keys)@), key_view(key)),
{
    let ghost views = key_views(keys@);
    let mut k: usize = 0;
    while k < keys.len()
        invariant
            k <= keys@.len(),
            keys@ == old(keys)@,
            views == key_views(keys@),
            forall|i: int| 0 <= i < k ==> (#[trigger] views[i]) != key_view(key),
        decreases keys@.len() - k,
    {
        assert(views[k as int] == key_view(keys@[k as int]));
        if str_eq(keys[k].0.as_str(), key.0.as_str()) {
            let same = match (&keys[k].1, &key.1) {
                (Some(a), Some(b)) => str_eq(a.as_str(), b.as_str()),
                (None, None) => true,
                _ => false,
            };
            if same {
                assert(views[k as int] == key_view(key));
                return false;
            }
        }
        k += 1;
    }
    keys.push(key);
    assert(key_views(keys@) =~= views.push(key_view(key)));
    true
}

/// Adds an id; returns whether it was new.
fn insert_id(ids: &mut Vec<String>, id: &String) -> (fresh: bool)
    ensures
        fresh == !model::deep(old(ids)@).contains(id@),
        model::deep(final(ids)@) == with_id(model::deep(old(ids)@), id@),
{
    if has_id(ids, id.as_str()) {
        return false;
    }
    let copy = id.clone();
    proof {
        model::deep_push(ids@, copy);
    }
    ids.push(copy);
    true
}

// ---- headers ------------------------------------------------------------

pub open spec fn value_of(spanned: Option<Spanned<Seq<char>>>) -> Option<Seq<char>> {
    match spanned {
        Some(spanned) => Some(spanned.value),
        None => None,
    }
}

pub open spec fn as_class(spanned: Option<Spanned<Seq<char>>>) -> Option<Spanned<ClassRefView>> {
    match spanned {
        Some(spanned) => Some(
            Spanned { value: ClassRefView { raw: spanned.value }, span: spanned.span },
        ),
        None => None,
    }
}

/// The class that either of two attributes names.
pub open spec fn class_ref(
    source: Seq<u8>,
    span: ByteSpan,
    first: Seq<char>,
    second: Seq<char>,
) -> Option<Spanned<ClassRefView>> {
    match attrs::tag_attr(source, span, first).value {
        Some(value) => as_class(Some(value)),
        None => as_class(attrs::tag_attr(source, span, second).value),
    }
}

/// The diagnostics of reading two attributes.
pub open spec fn reads2(
    source: Seq<u8>,
    span: ByteSpan,
    first: Seq<char>,
    second: Seq<char>,
) -> Seq<DiagnosticView> {
    attrs::tag_attr(source, span, first).diagnostics + attrs::tag_attr(
        source,
        span,
        second,
    ).diagnostics
}

fn to_class(spanned: Option<Spanned<String>>) -> (class: Option<Spanned<ClassRef>>)
    ensures
        model::opt(class) == as_class(model::opt(spanned)),
{
    match spanned {
        Some(spanned) => Some(
            Spanned { value: ClassRef { raw: spanned.value }, span: spanned.span },
        ),
        None => None,
    }
}

/// The name of a class, if there is one, lies in a part of the source and is
/// what the source holds there.
pub open spec fn class_ok(class: Option<Spanned<ClassRefView>>, room: Room) -> bool {
    match class {
        Some(class) => tags::in_room(class.span, room) && tags::stands_at(
            room.source,
            class.value.raw,
            class.span,
        ),
        None => true,
    }
}

/// Reads the class that either of two attributes names.
fn read_class_ref(
    source: &str,
    span: ByteSpan,
    first: &str,
    second: &str,
    diagnostics: &mut Vec<Diagnostic>,
) -> (class: Option<Spanned<ClassRef>>)
    requires
        attrs::fits(source.spec_bytes()),
        tags::in_source(span, source.spec_bytes().len() as int),
        body::spans_in(model::deep(old(diagnostics)@), source.spec_bytes().len() as int),
    ensures
        model::opt(class) == class_ref(source.spec_bytes(), span, first@, second@),
        class_ok(model::opt(class), tags::room_of(source.spec_bytes(), span)),
        model::deep(final(diagnostics)@) == model::deep(old(diagnostics)@) + reads2(
            source.spec_bytes(),
            span,
            first@,
            second@,
        ),
        body::spans_in(model::deep(final(diagnostics)@), source.spec_bytes().len() as int),
{
    let a = read_spanned(source, span, first, diagnostics);
    let b = read_spanned(source, span, second, diagnostics);
    assert(model::deep(diagnostics@) =~= model::deep(old(diagnostics)@) + reads2(
        source.spec_bytes(),
        span,
        first@,
        second@,
    ));
    if a.is_some() {
        to_class(a)
    } else {
        to_class(b)
    }
}

/// The parts of a statement but for its ids: it lies in the source, they lie in
/// it and are found there, and its SQL is in order.
#[verifier::opaque]
pub open spec fn parts_ok(s: StatementView, source: Seq<u8>) -> bool {
    let room = tags::room_of(source, s.span);
    &&& tags::in_source(s.span, source.len() as int)
    &&& flatten::sql_text_ok(s.sql, source.len() as int)
    &&& tags::includes_in(s.includes, room)
    &&& class_ok(s.param_class, room)
    &&& class_ok(s.result_class, room)
    &&& tags::attr_ok(s.result_map_ref, room)
    &&& tags::paths_in(s.property_paths, room)
}

/// A statement of its own in order: its parts are, and its id and database id
/// lie in it and are found there.
pub open spec fn statement_ok(s: StatementView, source: Seq<u8>) -> bool {
    let room = tags::room_of(source, s.span);
    &&& parts_ok(s, source)
    &&& tags::attr_ok(s.id, room)
    &&& tags::attr_ok(s.database_id, room)
}

/// What the id of a statement is diagnosed with.
pub open spec fn id_diagnostics(
    keys: Seq<StatementKey>,
    id: Option<Spanned<Seq<char>>>,
    database_id: Option<Spanned<Seq<char>>>,
    span: ByteSpan,
) -> Seq<DiagnosticView> {
    match id {
        Some(id) => if keys.contains((id.value, value_of(database_id))) {
            seq![duplicate_id("statement id"@, id)]
        } else {
            Seq::empty()
        },
        None => seq![missing_id("statement"@, span)],
    }
}

/// The keys after a statement with this id.
pub open spec fn keys_after(
    keys: Seq<StatementKey>,
    id: Option<Spanned<Seq<char>>>,
    database_id: Option<Spanned<Seq<char>>>,
) -> Seq<StatementKey> {
    match id {
        Some(id) => with_id(keys, (id.value, value_of(database_id))),
        None => keys,
    }
}

/// A statement without a body, from its tag at `span`.
pub open spec fn header(source: Seq<u8>, kind: StatementKind, span: ByteSpan) -> StatementView {
    StatementView {
        kind,
        span,
        id: attrs::tag_attr(source, span, "id"@).value,
        database_id: attrs::tag_attr(source, span, "databaseId"@).value,
        sql: empty_sql(),
        includes: Seq::empty(),
        param_class: class_ref(source, span, "parameterType"@, "parameterClass"@),
        result_class: class_ref(source, span, "resultType"@, "resultClass"@),
        result_map_ref: attrs::tag_attr(source, span, "resultMap"@).value,
        property_paths: Seq::empty(),
    }
}

pub open spec fn header_diagnostics(
    source: Seq<u8>,
    span: ByteSpan,
    keys: Seq<StatementKey>,
) -> Seq<DiagnosticView> {
    let id = attrs::tag_attr(source, span, "id"@).value;
    let database_id = attrs::tag_attr(source, span, "databaseId"@).value;
    reads2(source, span, "id"@, "databaseId"@) + id_diagnostics(keys, id, database_id, span)
        + reads2(source, span, "parameterType"@, "parameterClass"@) + reads2(
        source,
        span,
        "resultType"@,
        "resultClass"@,
    ) + attrs::tag_attr(source, span, "resultMap"@).diagnostics
}

pub open spec fn keys_after_header(
    source: Seq<u8>,
    span: ByteSpan,
    keys: Seq<StatementKey>,
) -> Seq<StatementKey> {
    keys_after(
        keys,
        attrs::tag_attr(source, span, "id"@).value,
        attrs::tag_attr(source, span, "databaseId"@).value,
    )
}

fn copy_value(spanned: &Option<Spanned<String>>) -> (value: Option<String>)
    ensures
        model::opt(value) == value_of(model::opt(*spanned)),
{
    match spanned {
        Some(spanned) => Some(spanned.value.clone()),
        None => None,
    }
}

/// A statement without an id is reported at its tag, and one with an id is not;
/// no id is made up.
pub proof fn law_missing_id_is_reported(
    source: Seq<u8>,
    kind: StatementKind,
    span: ByteSpan,
    keys: Seq<StatementKey>,
)
    ensures
        header(source, kind, span).id is None <==> exists|k: int|
            0 <= k < header_diagnostics(source, span, keys).len() && (
            #[trigger] header_diagnostics(source, span, keys)[k]).code
                == DiagCode::MissingStatementId,
{
    let all = header_diagnostics(source, span, keys);
    let id = attrs::tag_attr(source, span, "id"@).value;
    let database_id = attrs::tag_attr(source, span, "databaseId"@).value;
    let first = reads2(source, span, "id"@, "databaseId"@);
    let own = id_diagnostics(keys, id, database_id, span);
    attrs::lemma_attr_codes(source, span, "id"@);
    attrs::lemma_attr_codes(source, span, "databaseId"@);
    attrs::lemma_attr_codes(source, span, "parameterType"@);
    attrs::lemma_attr_codes(source, span, "parameterClass"@);
    attrs::lemma_attr_codes(source, span, "resultType"@);
    attrs::lemma_attr_codes(source, span, "resultClass"@);
    attrs::lemma_attr_codes(source, span, "resultMap"@);
    if id is None {
        assert(all[first.len() as int] == own[0]);
    } else {
        assert forall|k: int| 0 <= k < all.len() implies (#[trigger] all[k]).code
            != DiagCode::MissingStatementId by {}
    }
}

/// Reads the header of a statement from its tag.
pub fn build_statement(
    source: &str,
    kind: StatementKind,
    span: ByteSpan,
    keys: &mut Vec<(String, Option<String>)>,
    diagnostics: &mut Vec<Diagnostic>,
) -> (statement: Statement)
    requires
        attrs::fits(source.spec_bytes()),
        tags::in_source(span, source.spec_bytes().len() as int),
        body::spans_in(model::deep(old(diagnostics)@), source.spec_bytes().len() as int),
    ensures
        statement@ == header(source.spec_bytes(), kind, span),
        statement_ok(statement@, source.spec_bytes()),
        key_views(final(keys)@) == keys_after_header(
            source.spec_bytes(),
            span,
            key_views(old(keys)@),
        ),
        model::deep(final(diagnostics)@) == model::deep(old(diagnostics)@) + header_diagnostics(
            source.spec_bytes(),
            span,
            key_views(old(keys)@),
        ),
        body::spans_in(model::deep(final(diagnostics)@), source.spec_bytes().len() as int),
{
    proof {
        reveal(parts_ok);
    }
    let ghost bytes = source.spec_bytes();
    let ghost len = bytes.len() as int;
    let ghost start = model::deep(diagnostics@);
    let id = read_spanned(source, span, "id", diagnostics);
    let database_id = read_spanned(source, span, "databaseId", diagnostics);
    match &id {
        Some(id) => {
            let key = (id.value.clone(), copy_value(&database_id));
            if !insert_key(keys, key) {
                append_diagnostic(
                    diagnostics,
                    duplicate_id_diagnostic("statement id", id),
                    Ghost(len),
                );
            }
        },
        None => {
            append_diagnostic(
                diagnostics,
                missing_id_diagnostic("statement", span),
                Ghost(len),
            );
        },
    }
    let param_class = read_class_ref(
        source,
        span,
        "parameterType",
        "parameterClass",
        diagnostics,
    );
    let result_class = read_class_ref(source, span, "resultType", "resultClass", diagnostics);
    let result_map_ref = read_spanned(source, span, "resultMap", diagnostics);
    assert(model::deep(diagnostics@) =~= start + header_diagnostics(
        bytes,
        span,
        key_views(old(keys)@),
    ));
    let statement = Statement {
        kind,
        span,
        id,
        database_id,
        sql: empty_sql_variants(),
        includes: Vec::new(),
        param_class,
        result_class,
        result_map_ref,
        property_paths: Vec::new(),
    };
    proof {
        assert(statement@.includes =~= Seq::empty());
        assert(statement@.property_paths =~= Seq::empty());
        lemma_sql_text_ok(statement@.sql, len);
    }
    statement
}

proof fn lemma_sql_text_ok(sql: SqlTextView, len: int)
    requires
        flatten::sql_text_ok(sql, 0),
        0 <= len,
    ensures
        flatten::sql_text_ok(sql, len),
{
    match sql {
        SqlTextView::Variants(variants) => {
            assert forall|k: int| 0 <= k < variants.len() implies flatten::text_ok(
                (#[trigger] variants[k]).text,
                len,
            ) by {
                lemma_text_ok(variants[k].text, len);
            }
        },
        SqlTextView::Union { text, .. } => lemma_text_ok(text, len),
        SqlTextView::Unrecognized => {},
    }
}

proof fn lemma_text_ok(sql: SqlStringView, len: int)
    requires
        flatten::text_ok(sql, 0),
        0 <= len,
    ensures
        flatten::text_ok(sql, len),
{
    assert forall|k: int| 0 <= k < sql.span_map.len() implies (#[trigger] sql.span_map[k]).1
        <= len by {
        assert(sql.span_map[k].1 <= 0);
    }
}

// ---- <selectKey> --------------------------------------------------------

/// The statements split off a body and what is left of it.
pub struct Split {
    pub statements: Seq<StatementView>,
    pub rest: Seq<SegmentView>,
    pub diagnostics: Seq<DiagnosticView>,
    pub keys: Seq<StatementKey>,
}

/// The database of a `<selectKey>`: its own, or that of its statement.
pub open spec fn key_database(
    source: Seq<u8>,
    span: ByteSpan,
    parent: StatementView,
) -> Option<Spanned<Seq<char>>> {
    match attrs::tag_attr(source, span, "databaseId"@).value {
        Some(value) => Some(value),
        None => parent.database_id,
    }
}

/// The id of a `<selectKey>`, derived from that of its statement.
pub open spec fn key_id(span: ByteSpan, parent: StatementView) -> Option<Spanned<Seq<char>>> {
    match parent.id {
        Some(id) => Some(Spanned { value: id.value + "!selectKey"@, span }),
        None => None,
    }
}

/// The statement that the `<selectKey>` at `span` stands for.
#[verifier::opaque]
pub open spec fn select_key(
    source: Seq<u8>,
    dialect: Dialect,
    parent: StatementView,
    span: ByteSpan,
) -> StatementView {
    let inner = body::subtree(source, span).segments;
    let flat = flatten::flat_body(source, dialect, inner);
    StatementView {
        kind: StatementKind::Select,
        span,
        id: key_id(span, parent),
        database_id: key_database(source, span, parent),
        sql: flat.sql,
        includes: includes::merged(
            includes::lifted(source, dialect, inner, inner.len() as int).includes,
            flat.includes,
        ),
        param_class: None,
        result_class: class_ref(source, span, "resultType"@, "resultClass"@),
        result_map_ref: None,
        property_paths: flat.paths,
    }
}

#[verifier::opaque]
pub open spec fn select_key_diagnostics(
    source: Seq<u8>,
    dialect: Dialect,
    parent: StatementView,
    span: ByteSpan,
    keys: Seq<StatementKey>,
) -> Seq<DiagnosticView> {
    let capture = body::subtree(source, span);
    let inner = capture.segments;
    let id = key_id(span, parent);
    reads2(source, span, "resultType"@, "resultClass"@) + attrs::tag_attr(
        source,
        span,
        "databaseId"@,
    ).diagnostics + (if id is Some {
        id_diagnostics(keys, id, key_database(source, span, parent), span)
    } else {
        Seq::empty()
    }) + capture.diagnostics + includes::lifted(
        source,
        dialect,
        inner,
        inner.len() as int,
    ).diagnostics + flatten::flat_body(source, dialect, inner).diagnostics
}

pub open spec fn is_select_key(segment: SegmentView) -> bool {
    match segment {
        SegmentView::Tag { name, .. } => name == "selectKey"@,
        _ => false,
    }
}

/// The `<selectKey>`s among the first `n` segments of a statement's body, each
/// a statement of its own, and the other segments.
pub open spec fn split_keys(
    source: Seq<u8>,
    dialect: Dialect,
    parent: StatementView,
    segments: Seq<SegmentView>,
    keys: Seq<StatementKey>,
    n: int,
) -> Split
    decreases n,
{
    if n <= 0 {
        Split {
            statements: Seq::empty(),
            rest: Seq::empty(),
            diagnostics: Seq::empty(),
            keys,
        }
    } else {
        let before = split_keys(source, dialect, parent, segments, keys, n - 1);
        let segment = segments[n - 1];
        if is_select_key(segment) {
            let span = body::segment_span(segment);
            Split {
                statements: before.statements.push(select_key(source, dialect, parent, span)),
                rest: before.rest,
                diagnostics: before.diagnostics + select_key_diagnostics(
                    source,
                    dialect,
                    parent,
                    span,
                    before.keys,
                ),
                keys: keys_after(
                    before.keys,
                    key_id(span, parent),
                    key_database(source, span, parent),
                ),
            }
        } else {
            Split { rest: before.rest.push(segment), ..before }
        }
    }
}

fn copy_spanned(spanned: &Option<Spanned<String>>) -> (copy: Option<Spanned<String>>)
    ensures
        model::opt(copy) == model::opt(*spanned),
{
    match spanned {
        Some(spanned) => Some(Spanned { value: spanned.value.clone(), span: spanned.span }),
        None => None,
    }
}

/// Makes a statement of the `<selectKey>` at `span`.
#[verifier::rlimit(40)]
fn build_select_key_statement(
    source: &str,
    dialect: Dialect,
    parent: &Statement,
    span: ByteSpan,
    keys: &mut Vec<(String, Option<String>)>,
    diagnostics: &mut Vec<Diagnostic>,
) -> (statement: Statement)
    requires
        attrs::fits(source.spec_bytes()),
        body::element_at(source.spec_bytes(), span),
        body::spans_in(model::deep(old(diagnostics)@), source.spec_bytes().len() as int),
    ensures
        statement@ == select_key(source.spec_bytes(), dialect, parent@, span),
        key_ok(statement@, parent@, tags::room_of(source.spec_bytes(), span)),
        key_views(final(keys)@) == keys_after(
            key_views(old(keys)@),
            key_id(span, parent@),
            key_database(source.spec_bytes(), span, parent@),
        ),
        model::deep(final(diagnostics)@) == model::deep(old(diagnostics)@)
            + select_key_diagnostics(
            source.spec_bytes(),
            dialect,
            parent@,
            span,
            key_views(old(keys)@),
        ),
        body::spans_in(model::deep(final(diagnostics)@), source.spec_bytes().len() as int),
{
    proof {
        reveal(parts_ok);
    }
    let ghost bytes = source.spec_bytes();
    let ghost len = bytes.len() as int;
    let ghost start = model::deep(diagnostics@);
    proof {
        reveal(select_key);
        reveal(select_key_diagnostics);
    }
    let result_class = read_class_ref(source, span, "resultType", "resultClass", diagnostics);
    let own = read_spanned(source, span, "databaseId", diagnostics);
    let database_id = if own.is_some() {
        own
    } else {
        copy_spanned(&parent.database_id)
    };
    let id = match &parent.id {
        Some(id) => Some(Spanned { value: concat(id.value.as_str(), "!selectKey"), span }),
        None => None,
    };
    if let Some(id) = &id {
        let key = (id.value.clone(), copy_value(&database_id));
        if !insert_key(keys, key) {
            append_diagnostic(
                diagnostics,
                duplicate_id_diagnostic("statement id", id),
                Ghost(len),
            );
        }
    }
    let captured = capture_subtree(source, span);
    append_diagnostics(diagnostics, captured.diagnostics, Ghost(len));
    let ghost room = tags::room_of(bytes, span);
    assert(tags::segments_within(captured@.segments, room));
    let (found, more) = lift_includes(source, dialect, &captured.segments, Ghost(room));
    append_diagnostics(diagnostics, more, Ghost(len));
    let flattened = flatten_body(source, dialect, &captured.segments, Ghost(room));
    append_diagnostics(diagnostics, flattened.diagnostics, Ghost(len));
    assert(model::deep(diagnostics@) =~= start + select_key_diagnostics(
        bytes,
        dialect,
        parent@,
        span,
        key_views(old(keys)@),
    ));
    Statement {
        kind: StatementKind::Select,
        span,
        id,
        database_id,
        sql: flattened.sql,
        includes: merge_includes(found, flattened.found_includes, Ghost(room)),
        param_class: None,
        result_class,
        result_map_ref: None,
        property_paths: flattened.property_paths,
    }
}

/// A statement that a `<selectKey>` in a part of the source gave, in order: its
/// parts are, its id is derived from that of the statement it was split off, and
/// its database id lies in it and is found there or is that of this statement.
pub open spec fn key_ok(s: StatementView, parent: StatementView, room: Room) -> bool {
    &&& s.kind == StatementKind::Select
    &&& tags::in_room(s.span, room)
    &&& tags::starts_a_tag(room.source, s.span)
    &&& parts_ok(s, room.source)
    &&& s.id == key_id(s.span, parent)
    &&& tags::attr_ok(s.database_id, tags::room_of(room.source, s.span)) || s.database_id
        == parent.database_id
}

/// Statements that `<selectKey>`s of one statement gave.
pub open spec fn keys_ok(
    statements: Seq<StatementView>,
    parent: StatementView,
    room: Room,
) -> bool {
    forall|k: int| 0 <= k < statements.len() ==> key_ok(#[trigger] statements[k], parent, room)
}

/// Statement `k` of a list was split off statement `j`.
pub open spec fn split_off(
    statements: Seq<StatementView>,
    j: int,
    k: int,
    source: Seq<u8>,
) -> bool {
    &&& statement_ok(statements[j], source)
    &&& key_ok(statements[k], statements[j], tags::room_of(source, statements[j].span))
}

/// Statement `k` of a list is one of its own, or was split off an earlier one,
/// in which it lies.
pub open spec fn listed_ok(statements: Seq<StatementView>, k: int, source: Seq<u8>) -> bool {
    ||| statement_ok(statements[k], source)
    ||| exists|j: int| 0 <= j < k && #[trigger] split_off(statements, j, k, source)
}

pub open spec fn statements_ok(statements: Seq<StatementView>, source: Seq<u8>) -> bool {
    forall|k: int| 0 <= k < statements.len() ==> #[trigger] listed_ok(statements, k, source)
}

/// What was split off a body was split off the whole statement.
pub proof fn lemma_keys_of_whole(
    statements: Seq<StatementView>,
    head: StatementView,
    whole: StatementView,
    source: Seq<u8>,
)
    requires
        keys_ok(statements, head, body_room(source, head.span, whole.span.end as int)),
        head.span.start <= head.span.end,
        whole.span.start == head.span.start,
        whole.id == head.id,
        whole.database_id == head.database_id,
    ensures
        keys_ok(statements, whole, tags::room_of(source, whole.span)),
{
    assert forall|k: int| 0 <= k < statements.len() implies key_ok(
        #[trigger] statements[k],
        whole,
        tags::room_of(source, whole.span),
    ) by {
        assert(key_ok(
            statements[k],
            head,
            body_room(source, head.span, whole.span.end as int),
        ));
    }
}

/// Statements, then one, then those that were split off it.
pub proof fn lemma_more_statements(
    before: Seq<StatementView>,
    whole: StatementView,
    more: Seq<StatementView>,
    source: Seq<u8>,
)
    requires
        statements_ok(before, source),
        statement_ok(whole, source),
        keys_ok(more, whole, tags::room_of(source, whole.span)),
    ensures
        statements_ok(before.push(whole) + more, source),
{
    let n = before.len() as int;
    let all = before.push(whole) + more;
    assert forall|k: int| 0 <= k < all.len() implies #[trigger] listed_ok(all, k, source) by {
        if k < n {
            assert(listed_ok(before, k, source));
            assert(all[k] == before[k]);
            if !statement_ok(before[k], source) {
                let j = choose|j: int| 0 <= j < k && #[trigger] split_off(before, j, k, source);
                assert(all[j] == before[j]);
                assert(split_off(all, j, k, source));
            }
        } else if k == n {
            assert(all[k] == whole);
        } else {
            assert(all[n] == whole);
            assert(all[k] == more[k - n - 1]);
            assert(split_off(all, n, k, source));
        }
    }
}

/// The parts of every statement of a list are in order.
pub proof fn lemma_listed_parts(statements: Seq<StatementView>, k: int, source: Seq<u8>)
    requires
        statements_ok(statements, source),
        0 <= k < statements.len(),
    ensures
        parts_ok(statements[k], source),
{
    assert(listed_ok(statements, k, source));
}

/// Some of the segments of a walkable list, in the same order.
proof fn lemma_split_rest(
    room: Room,
    dialect: Dialect,
    parent: StatementView,
    segments: Seq<SegmentView>,
    keys: Seq<StatementKey>,
    n: int,
)
    requires
        tags::walkable_in(room, segments),
        0 <= n <= segments.len(),
    ensures
        tags::walkable_in(room, split_keys(room.source, dialect, parent, segments, keys, n).rest),
        forall|k: int, j: int|
            #![trigger split_keys(room.source, dialect, parent, segments, keys, n).rest[k], segments[j]]
            0 <= k < split_keys(room.source, dialect, parent, segments, keys, n).rest.len() && n <= j
                < segments.len() ==> body::segment_span(
                split_keys(room.source, dialect, parent, segments, keys, n).rest[k],
            ).end <= body::segment_span(segments[j]).start,
    decreases n,
{
    if n > 0 {
        lemma_split_rest(room, dialect, parent, segments, keys, n - 1);
        assert(body::segment_in(room.source, segments[n - 1]));
        assert(tags::in_room(body::segment_span(segments[n - 1]), room));
    }
}

/// Splits the `<selectKey>`s off a statement's body.
pub fn extract_select_keys(
    source: &str,
    dialect: Dialect,
    parent: &Statement,
    segments: Vec<BodySegment>,
    keys: &mut Vec<(String, Option<String>)>,
    diagnostics: &mut Vec<Diagnostic>,
    Ghost(room): Ghost<Room>,
) -> (r: (Vec<Statement>, Vec<BodySegment>))
    requires
        attrs::fits(source.spec_bytes()),
        room.source == source.spec_bytes(),
        tags::walkable_in(room, model::deep(segments@)),
        body::spans_in(model::deep(old(diagnostics)@), source.spec_bytes().len() as int),
    ensures
        ({
            let split = split_keys(
                source.spec_bytes(),
                dialect,
                parent@,
                model::deep(segments@),
                key_views(old(keys)@),
                segments@.len() as int,
            );
            &&& model::deep(r.0@) == split.statements
            &&& keys_ok(split.statements, parent@, room)
            &&& model::deep(r.1@) == split.rest
            &&& tags::walkable_in(room, split.rest)
            &&& key_views(final(keys)@) == split.keys
            &&& model::deep(final(diagnostics)@) == model::deep(old(diagnostics)@)
                + split.diagnostics
        }),
        body::spans_in(model::deep(final(diagnostics)@), source.spec_bytes().len() as int),
{
    let ghost bytes = source.spec_bytes();
    let ghost len = bytes.len() as int;
    let ghost views = model::deep(segments@);
    let ghost start = model::deep(diagnostics@);
    let ghost old_keys = key_views(keys@);
    let mut children: Vec<Statement> = Vec::new();
    let mut remaining: Vec<BodySegment> = Vec::new();
    let mut k: usize = 0;
    proof {
        assert(model::deep(children@) =~= Seq::empty());
        assert(model::deep(remaining@) =~= Seq::empty());
        assert(start + Seq::<DiagnosticView>::empty() =~= start);
    }
    while k < segments.len()
        invariant
            bytes == source.spec_bytes(),
            len == bytes.len(),
            attrs::fits(bytes),
            views == model::deep(segments@),
            room.source == bytes,
            tags::walkable_in(room, views),
            k <= segments@.len(),
            start == model::deep(old(diagnostics)@),
            old_keys == key_views(old(keys)@),
            ({
                let split = split_keys(bytes, dialect, parent@, views, old_keys, k as int);
                &&& model::deep(children@) == split.statements
                &&& model::deep(remaining@) == split.rest
                &&& key_views(keys@) == split.keys
                &&& model::deep(diagnostics@) == start + split.diagnostics
            }),
            keys_ok(model::deep(children@), parent@, room),
            body::spans_in(model::deep(diagnostics@), len),
        decreases segments@.len() - k,
    {
        let ghost split = split_keys(bytes, dialect, parent@, views, old_keys, k as int);
        proof {
            assert(views[k as int] == segments@[k as int]@);
            assert(body::segment_in(bytes, views[k as int]));
            assert(tags::in_room(body::segment_span(views[k as int]), room));
        }
        let mut is_key = false;
        if let BodySegment::DynamicTag { name, span } = &segments[k] {
            if str_eq(name.as_str(), "selectKey") {
                is_key = true;
                let child = build_select_key_statement(
                    source,
                    dialect,
                    parent,
                    *span,
                    keys,
                    diagnostics,
                );
                proof {
                    model::deep_push(children@, child);
                    assert(model::deep(diagnostics@) =~= start + split_keys(
                        bytes,
                        dialect,
                        parent@,
                        views,
                        old_keys,
                        k + 1,
                    ).diagnostics);
                }
                children.push(child);
            }
        }
        if !is_key {
            let segment = body::copy_segment(&segments[k]);
            proof {
                model::deep_push(remaining@, segment);
            }
            remaining.push(segment);
        }
        k += 1;
    }
    proof {
        lemma_split_rest(room, dialect, parent@, views, old_keys, views.len() as int);
    }
    (children, remaining)
}

/// Where the body of an element lies whose tag is at `span` and which ends at
/// `end`.
pub open spec fn body_room(source: Seq<u8>, span: ByteSpan, end: int) -> Room {
    Room { source, from: span.end as int, to: end }
}

/// A statement whose body is `segments`, without its `<selectKey>`s.
pub open spec fn with_body(
    source: Seq<u8>,
    dialect: Dialect,
    head: StatementView,
    end: int,
    segments: Seq<SegmentView>,
) -> StatementView {
    let flat = flatten::flat_body(source, dialect, segments);
    StatementView {
        span: ByteSpan { start: head.span.start, end: end as u32 },
        sql: flat.sql,
        includes: includes::merged(
            includes::lifted(source, dialect, segments, segments.len() as int).includes,
            flat.includes,
        ),
        property_paths: flat.paths,
        ..head
    }
}

/// What flattening a body and collecting its references reports.
pub open spec fn body_diagnostics(
    source: Seq<u8>,
    dialect: Dialect,
    segments: Seq<SegmentView>,
) -> Seq<DiagnosticView> {
    includes::lifted(source, dialect, segments, segments.len() as int).diagnostics
        + flatten::flat_body(source, dialect, segments).diagnostics
}

/// Gives a statement its body.
pub fn fill_statement(
    source: &str,
    dialect: Dialect,
    head: Statement,
    end: usize,
    segments: &Vec<BodySegment>,
    diagnostics: &mut Vec<Diagnostic>,
) -> (statement: Statement)
    requires
        attrs::fits(source.spec_bytes()),
        statement_ok(head@, source.spec_bytes()),
        head@.span.end <= end <= source.spec_bytes().len(),
        tags::walkable_in(
            body_room(source.spec_bytes(), head@.span, end as int),
            model::deep(segments@),
        ),
        body::spans_in(model::deep(old(diagnostics)@), source.spec_bytes().len() as int),
    ensures
        statement@ == with_body(
            source.spec_bytes(),
            dialect,
            head@,
            end as int,
            model::deep(segments@),
        ),
        statement_ok(statement@, source.spec_bytes()),
        model::deep(final(diagnostics)@) == model::deep(old(diagnostics)@) + body_diagnostics(
            source.spec_bytes(),
            dialect,
            model::deep(segments@),
        ),
        body::spans_in(model::deep(final(diagnostics)@), source.spec_bytes().len() as int),
{
    proof {
        reveal(parts_ok);
    }
    let ghost len = source.spec_bytes().len() as int;
    let ghost inner = body_room(source.spec_bytes(), head@.span, end as int);
    let ghost room = Room { from: head@.span.start as int, ..inner };
    assert forall|k: int| 0 <= k < segments@.len() implies tags::in_room(
        body::segment_span(#[trigger] model::deep(segments@)[k]),
        room,
    ) by {
        assert(tags::in_room(body::segment_span(model::deep(segments@)[k]), inner));
    }
    let (found, more) = lift_includes(source, dialect, segments, Ghost(room));
    append_diagnostics(diagnostics, more, Ghost(len));
    let flattened = flatten_body(source, dialect, segments, Ghost(room));
    append_diagnostics(diagnostics, flattened.diagnostics, Ghost(len));
    assert(model::deep(diagnostics@) =~= model::deep(old(diagnostics)@) + body_diagnostics(
        source.spec_bytes(),
        dialect,
        model::deep(segments@),
    ));
    Statement {
        kind: head.kind,
        span: ByteSpan { start: head.span.start, end: end as u32 },
        id: head.id,
        database_id: head.database_id,
        sql: flattened.sql,
        includes: merge_includes(found, flattened.found_includes, Ghost(room)),
        param_class: head.param_class,
        result_class: head.result_class,
        result_map_ref: head.result_map_ref,
        property_paths: flattened.property_paths,
    }
}

// ---- <sql> --------------------------------------------------------------

pub open spec fn misplaced_key(span: ByteSpan) -> DiagnosticView {
    DiagnosticView {
        code: DiagCode::UnknownElement,
        span: Some(span),
        message: "<selectKey> is not valid inside a <sql> fragment -- it only makes sense as a direct child of <insert>/<update>; ignored here (invalid placement)"@,
    }
}

/// The first `n` segments of a fragment's body without the `<selectKey>`s.
pub open spec fn without_keys(segments: Seq<SegmentView>, n: int) -> Seq<SegmentView>
    decreases n,
{
    if n <= 0 {
        Seq::empty()
    } else if is_select_key(segments[n - 1]) {
        without_keys(segments, n - 1)
    } else {
        without_keys(segments, n - 1).push(segments[n - 1])
    }
}

pub open spec fn misplaced_keys(segments: Seq<SegmentView>, n: int) -> Seq<DiagnosticView>
    decreases n,
{
    if n <= 0 {
        Seq::empty()
    } else if is_select_key(segments[n - 1]) {
        misplaced_keys(segments, n - 1).push(misplaced_key(body::segment_span(segments[n - 1])))
    } else {
        misplaced_keys(segments, n - 1)
    }
}

proof fn lemma_without_keys(room: Room, segments: Seq<SegmentView>, n: int)
    requires
        tags::walkable_in(room, segments),
        0 <= n <= segments.len(),
    ensures
        tags::walkable_in(room, without_keys(segments, n)),
        forall|k: int, j: int|
            #![trigger without_keys(segments, n)[k], segments[j]]
            0 <= k < without_keys(segments, n).len() && n <= j < segments.len()
                ==> body::segment_span(without_keys(segments, n)[k]).end <= body::segment_span(
                segments[j],
            ).start,
    decreases n,
{
    if n > 0 {
        lemma_without_keys(room, segments, n - 1);
        assert(body::segment_in(room.source, segments[n - 1]));
        assert(tags::in_room(body::segment_span(segments[n - 1]), room));
    }
}

/// Drops the `<selectKey>`s of a fragment's body, which have no place there.
pub fn reject_select_key_in_fragment(
    segments: Vec<BodySegment>,
    diagnostics: &mut Vec<Diagnostic>,
    Ghost(room): Ghost<Room>,
) -> (rest: Vec<BodySegment>)
    requires
        tags::walkable_in(room, model::deep(segments@)),
        body::spans_in(model::deep(old(diagnostics)@), room.source.len() as int),
    ensures
        model::deep(rest@) == without_keys(model::deep(segments@), segments@.len() as int),
        tags::walkable_in(room, model::deep(rest@)),
        model::deep(final(diagnostics)@) == model::deep(old(diagnostics)@) + misplaced_keys(
            model::deep(segments@),
            segments@.len() as int,
        ),
        body::spans_in(model::deep(final(diagnostics)@), room.source.len() as int),
{
    broadcast use model::group_deep;

    let ghost len = room.source.len() as int;
    let ghost views = model::deep(segments@);
    let ghost start = model::deep(diagnostics@);
    let mut rest: Vec<BodySegment> = Vec::new();
    let mut k: usize = 0;
    proof {
        assert(model::deep(rest@) =~= Seq::empty());
        assert(start + Seq::<DiagnosticView>::empty() =~= start);
    }
    while k < segments.len()
        invariant
            len == room.source.len(),
            views == model::deep(segments@),
            tags::walkable_in(room, views),
            k <= segments@.len(),
            start == model::deep(old(diagnostics)@),
            model::deep(rest@) == without_keys(views, k as int),
            model::deep(diagnostics@) == start + misplaced_keys(views, k as int),
            body::spans_in(model::deep(diagnostics@), len),
        decreases segments@.len() - k,
    {
        proof {
            assert(views[k as int] == segments@[k as int]@);
            assert(body::segment_in(room.source, views[k as int]));
        }
        let mut is_key = false;
        if let BodySegment::DynamicTag { name, span } = &segments[k] {
            if str_eq(name.as_str(), "selectKey") {
                is_key = true;
                let d = diagnostic(
                    DiagCode::UnknownElement,
                    Some(*span),
                    "<selectKey> is not valid inside a <sql> fragment -- it only makes sense as a direct child of <insert>/<update>; ignored here (invalid placement)".to_owned(),
                );
                append_diagnostic(diagnostics, d, Ghost(len));
                assert(model::deep(diagnostics@) =~= start + misplaced_keys(views, k + 1));
            }
        }
        if !is_key {
            rest.push(body::copy_segment(&segments[k]));
        }
        k += 1;
    }
    proof {
        lemma_without_keys(room, views, views.len() as int);
    }
    rest
}

/// A fragment in order: it lies in the source, its parts lie in it and are
/// found there, and its SQL is in order.
#[verifier::opaque]
pub open spec fn fragment_ok(f: SqlFragmentView, source: Seq<u8>) -> bool {
    let room = tags::room_of(source, f.span);
    &&& tags::in_source(f.span, source.len() as int)
    &&& tags::attr_ok(Some(f.id), room)
    &&& flatten::sql_text_ok(f.sql, source.len() as int)
    &&& tags::includes_in(f.includes, room)
}

/// What the id of a fragment or result map is diagnosed with.
pub open spec fn named_diagnostics(
    ids: Seq<Seq<char>>,
    id: Option<Spanned<Seq<char>>>,
    span: ByteSpan,
    element: Seq<char>,
    duplicate: Seq<char>,
) -> Seq<DiagnosticView> {
    match id {
        Some(id) => if ids.contains(id.value) {
            seq![duplicate_id(duplicate, id)]
        } else {
            Seq::empty()
        },
        None => seq![missing_id(element, span)],
    }
}

pub open spec fn ids_after(ids: Seq<Seq<char>>, id: Option<Spanned<Seq<char>>>) -> Seq<Seq<char>> {
    match id {
        Some(id) => with_id(ids, id.value),
        None => ids,
    }
}

/// A fragment without a body, from its tag at `span`; none without an id.
pub open spec fn fragment_header(source: Seq<u8>, span: ByteSpan) -> Option<SqlFragmentView> {
    match attrs::tag_attr(source, span, "id"@).value {
        Some(id) => Some(
            SqlFragmentView { span, id, sql: empty_sql(), includes: Seq::empty() },
        ),
        None => None,
    }
}

pub open spec fn fragment_diagnostics(
    source: Seq<u8>,
    span: ByteSpan,
    ids: Seq<Seq<char>>,
) -> Seq<DiagnosticView> {
    let read = attrs::tag_attr(source, span, "id"@);
    read.diagnostics + named_diagnostics(
        ids,
        read.value,
        span,
        "<sql> fragment"@,
        "<sql> fragment id"@,
    )
}

/// Reports an id that is missing or has been seen, and remembers it.
fn check_named(
    id: &Option<Spanned<String>>,
    span: ByteSpan,
    element: &str,
    duplicate: &str,
    ids: &mut Vec<String>,
    diagnostics: &mut Vec<Diagnostic>,
    Ghost(len): Ghost<int>,
)
    requires
        tags::in_source(span, len),
        id matches Some(id) ==> tags::in_source(id.span, len),
        body::spans_in(model::deep(old(diagnostics)@), len),
    ensures
        model::deep(final(ids)@) == ids_after(model::deep(old(ids)@), model::opt(*id)),
        model::deep(final(diagnostics)@) == model::deep(old(diagnostics)@) + named_diagnostics(
            model::deep(old(ids)@),
            model::opt(*id),
            span,
            element@,
            duplicate@,
        ),
        body::spans_in(model::deep(final(diagnostics)@), len),
{
    let ghost start = model::deep(diagnostics@);
    assert(start + Seq::<DiagnosticView>::empty() =~= start);
    match id {
        Some(id) => {
            if !insert_id(ids, &id.value) {
                append_diagnostic(
                    diagnostics,
                    duplicate_id_diagnostic(duplicate, id),
                    Ghost(len),
                );
            }
        },
        None => {
            append_diagnostic(diagnostics, missing_id_diagnostic(element, span), Ghost(len));
        },
    }
}

/// Reads the header of a fragment from its tag.
pub fn build_fragment(
    source: &str,
    span: ByteSpan,
    ids: &mut Vec<String>,
    diagnostics: &mut Vec<Diagnostic>,
) -> (fragment: Option<SqlFragment>)
    requires
        attrs::fits(source.spec_bytes()),
        tags::in_source(span, source.spec_bytes().len() as int),
        body::spans_in(model::deep(old(diagnostics)@), source.spec_bytes().len() as int),
    ensures
        model::opt(fragment) == fragment_header(source.spec_bytes(), span),
        fragment matches Some(f) ==> fragment_ok(f@, source.spec_bytes()),
        model::deep(final(ids)@) == ids_after(
            model::deep(old(ids)@),
            attrs::tag_attr(source.spec_bytes(), span, "id"@).value,
        ),
        model::deep(final(diagnostics)@) == model::deep(old(diagnostics)@) + fragment_diagnostics(
            source.spec_bytes(),
            span,
            model::deep(old(ids)@),
        ),
        body::spans_in(model::deep(final(diagnostics)@), source.spec_bytes().len() as int),
{
    proof {
        reveal(fragment_ok);
    }
    let ghost len = source.spec_bytes().len() as int;
    let id = read_spanned(source, span, "id", diagnostics);
    check_named(
        &id,
        span,
        "<sql> fragment",
        "<sql> fragment id",
        ids,
        diagnostics,
        Ghost(len),
    );
    assert(model::deep(diagnostics@) =~= model::deep(old(diagnostics)@) + fragment_diagnostics(
        source.spec_bytes(),
        span,
        model::deep(old(ids)@),
    ));
    match id {
        Some(id) => {
            let fragment = SqlFragment {
                span,
                id,
                sql: empty_sql_variants(),
                includes: Vec::new(),
            };
            proof {
                assert(fragment@.includes =~= Seq::empty());
                lemma_sql_text_ok(fragment@.sql, len);
            }
            Some(fragment)
        },
        None => None,
    }
}

/// A fragment whose body is `segments`.
pub open spec fn fragment_with_body(
    source: Seq<u8>,
    dialect: Dialect,
    head: SqlFragmentView,
    end: int,
    segments: Seq<SegmentView>,
) -> SqlFragmentView {
    let flat = flatten::flat_body(source, dialect, segments);
    SqlFragmentView {
        span: ByteSpan { start: head.span.start, end: end as u32 },
        id: head.id,
        sql: flat.sql,
        includes: includes::merged(
            includes::lifted(source, dialect, segments, segments.len() as int).includes,
            flat.includes,
        ),
    }
}

/// Gives a fragment its body.
pub fn fill_fragment(
    source: &str,
    dialect: Dialect,
    head: SqlFragment,
    end: usize,
    segments: &Vec<BodySegment>,
    diagnostics: &mut Vec<Diagnostic>,
) -> (fragment: SqlFragment)
    requires
        attrs::fits(source.spec_bytes()),
        fragment_ok(head@, source.spec_bytes()),
        head@.span.end <= end <= source.spec_bytes().len(),
        tags::walkable_in(
            body_room(source.spec_bytes(), head@.span, end as int),
            model::deep(segments@),
        ),
        body::spans_in(model::deep(old(diagnostics)@), source.spec_bytes().len() as int),
    ensures
        fragment@ == fragment_with_body(
            source.spec_bytes(),
            dialect,
            head@,
            end as int,
            model::deep(segments@),
        ),
        fragment_ok(fragment@, source.spec_bytes()),
        model::deep(final(diagnostics)@) == model::deep(old(diagnostics)@) + body_diagnostics(
            source.spec_bytes(),
            dialect,
            model::deep(segments@),
        ),
        body::spans_in(model::deep(final(diagnostics)@), source.spec_bytes().len() as int),
{
    proof {
        reveal(fragment_ok);
    }
    let ghost len = source.spec_bytes().len() as int;
    let ghost inner = body_room(source.spec_bytes(), head@.span, end as int);
    let ghost room = Room { from: head@.span.start as int, ..inner };
    assert forall|k: int| 0 <= k < segments@.len() implies tags::in_room(
        body::segment_span(#[trigger] model::deep(segments@)[k]),
        room,
    ) by {
        assert(tags::in_room(body::segment_span(model::deep(segments@)[k]), inner));
    }
    let (found, more) = lift_includes(source, dialect, segments, Ghost(room));
    append_diagnostics(diagnostics, more, Ghost(len));
    let flattened = flatten_body(source, dialect, segments, Ghost(room));
    append_diagnostics(diagnostics, flattened.diagnostics, Ghost(len));
    assert(model::deep(diagnostics@) =~= model::deep(old(diagnostics)@) + body_diagnostics(
        source.spec_bytes(),
        dialect,
        model::deep(segments@),
    ));
    SqlFragment {
        span: ByteSpan { start: head.span.start, end: end as u32 },
        id: head.id,
        sql: flattened.sql,
        includes: merge_includes(found, flattened.found_includes, Ghost(room)),
    }
}

// ---- <resultMap> --------------------------------------------------------

/// A result map in order: it lies in the source, and its parts lie in it and
/// are found there.
#[verifier::opaque]
pub open spec fn result_map_ok(m: ResultMapView, source: Seq<u8>) -> bool {
    let room = tags::room_of(source, m.span);
    &&& tags::in_source(m.span, source.len() as int)
    &&& tags::attr_ok(Some(m.id), room)
    &&& class_ok(m.type_ref, room)
    &&& tags::attr_ok(m.extends, room)
}

/// A result map without mappings, from its tag at `span`; none without an id.
pub open spec fn result_map_header(source: Seq<u8>, span: ByteSpan) -> Option<ResultMapView> {
    match attrs::tag_attr(source, span, "id"@).value {
        Some(id) => Some(
            ResultMapView {
                span,
                id,
                type_ref: class_ref(source, span, "type"@, "class"@),
                extends: attrs::tag_attr(source, span, "extends"@).value,
                mappings: Seq::empty(),
            },
        ),
        None => None,
    }
}

pub open spec fn result_map_diagnostics(
    source: Seq<u8>,
    span: ByteSpan,
    ids: Seq<Seq<char>>,
) -> Seq<DiagnosticView> {
    let read = attrs::tag_attr(source, span, "id"@);
    read.diagnostics + reads2(source, span, "type"@, "class"@) + attrs::tag_attr(
        source,
        span,
        "extends"@,
    ).diagnostics + named_diagnostics(
        ids,
        read.value,
        span,
        "<resultMap>"@,
        "<resultMap> id"@,
    )
}

/// Reads the header of a result map from its tag.
pub fn build_result_map(
    source: &str,
    span: ByteSpan,
    ids: &mut Vec<String>,
    diagnostics: &mut Vec<Diagnostic>,
) -> (result_map: Option<ResultMap>)
    requires
        attrs::fits(source.spec_bytes()),
        tags::in_source(span, source.spec_bytes().len() as int),
        body::spans_in(model::deep(old(diagnostics)@), source.spec_bytes().len() as int),
    ensures
        model::opt(result_map) == result_map_header(source.spec_bytes(), span),
        result_map matches Some(m) ==> result_map_ok(m@, source.spec_bytes()),
        model::deep(final(ids)@) == ids_after(
            model::deep(old(ids)@),
            attrs::tag_attr(source.spec_bytes(), span, "id"@).value,
        ),
        model::deep(final(diagnostics)@) == model::deep(old(diagnostics)@)
            + result_map_diagnostics(source.spec_bytes(), span, model::deep(old(ids)@)),
        body::spans_in(model::deep(final(diagnostics)@), source.spec_bytes().len() as int),
{
    proof {
        reveal(result_map_ok);
    }
    let ghost len = source.spec_bytes().len() as int;
    let id = read_spanned(source, span, "id", diagnostics);
    let type_ref = read_class_ref(source, span, "type", "class", diagnostics);
    let extends = read_spanned(source, span, "extends", diagnostics);
    check_named(&id, span, "<resultMap>", "<resultMap> id", ids, diagnostics, Ghost(len));
    assert(model::deep(diagnostics@) =~= model::deep(old(diagnostics)@) + result_map_diagnostics(
        source.spec_bytes(),
        span,
        model::deep(old(ids)@),
    ));
    match id {
        Some(id) => {
            let result_map = ResultMap { span, id, type_ref, extends, mappings: Vec::new() };
            assert(result_map@.mappings =~= Seq::empty());
            Some(result_map)
        },
        None => None,
    }
}

} // verus!
