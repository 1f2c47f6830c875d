//! What each element under the root of a document gives: which one, with which
//! ids, classes and references, for every kind of element alike.
use crate::attrs;
use crate::body;
use crate::body::SegmentView;
use crate::columns;
use crate::flatten;
use crate::includes;
use crate::mapper;
use crate::mapper::BuildView;
use crate::model::{
    ByteSpan, ClassRefView, DiagCode, DiagnosticView, Dialect, IncludeRefView, IncludeTargetView,
    Spanned, SqlFragmentView, StatementKind, StatementView,
};
use crate::parse;
use crate::result_map;
use crate::statement;
use crate::tags;
use crate::xml;
use crate::xml::{EventView, TokenView};
use vstd::prelude::*;
use vstd::string::*;

verus! {

/// A class is named by the first of two attributes, or by the second where the
/// first is missing: with its text, at its place. Without both there is none.
pub open spec fn names_class(
    class: Option<Spanned<ClassRefView>>,
    first: Option<Spanned<Seq<char>>>,
    second: Option<Spanned<Seq<char>>>,
) -> bool {
    &&& class is None <==> first is None && second is None
    &&& first matches Some(a) ==> class->0.value.raw == a.value && class->0.span == a.span
    &&& first is None ==> (second matches Some(b) ==> class->0.value.raw == b.value
        && class->0.span == b.span)
}

/// A statement of any kind has all that its tag says: its id, its database, the
/// classes of its parameter and result, and its result map. None of these
/// depends on the kind.
pub proof fn law_statement_reads_its_tag(source: Seq<u8>, kind: StatementKind, tag: ByteSpan)
    ensures
        statement::header(source, kind, tag).kind == kind,
        statement::header(source, kind, tag).span == tag,
        statement::header(source, kind, tag).id == attrs::tag_attr(source, tag, "id"@).value,
        statement::header(source, kind, tag).database_id == attrs::tag_attr(
            source,
            tag,
            "databaseId"@,
        ).value,
        statement::header(source, kind, tag).result_map_ref == attrs::tag_attr(
            source,
            tag,
            "resultMap"@,
        ).value,
        names_class(
            statement::header(source, kind, tag).param_class,
            attrs::tag_attr(source, tag, "parameterType"@).value,
            attrs::tag_attr(source, tag, "parameterClass"@).value,
        ),
        names_class(
            statement::header(source, kind, tag).result_class,
            attrs::tag_attr(source, tag, "resultType"@).value,
            attrs::tag_attr(source, tag, "resultClass"@).value,
        ),
{
}

/// The kind of each element that is a statement.
pub proof fn law_statement_kinds()
    ensures
        statement::kind_of("select"@) == Some(StatementKind::Select),
        statement::kind_of("insert"@) == Some(StatementKind::Insert),
        statement::kind_of("update"@) == Some(StatementKind::Update),
        statement::kind_of("delete"@) == Some(StatementKind::Delete),
        statement::kind_of("procedure"@) == Some(StatementKind::Procedure),
        statement::kind_of("statement"@) == Some(StatementKind::Generic),
        forall|name: Seq<char>| #[trigger]
            statement::kind_of(name) is Some ==> name == "select"@ || name == "insert"@ || name
                == "update"@ || name == "delete"@ || name == "procedure"@ || name == "statement"@,
{
    reveal_strlit("select");
    reveal_strlit("insert");
    reveal_strlit("update");
    reveal_strlit("delete");
    reveal_strlit("procedure");
    reveal_strlit("statement");
    assert("select"@[0] == 's' && "insert"@[0] == 'i' && "update"@[0] == 'u' && "delete"@[0]
        == 'd');
    assert("select"@.len() == 6 && "procedure"@.len() == 9 && "statement"@.len() == 9);
    assert("procedure"@[0] == 'p' && "statement"@[0] == 's');
}

proof fn lemma_other_names()
    ensures
        statement::kind_of("sql"@) is None,
        statement::kind_of("resultMap"@) is None,
        "sql"@ != "resultMap"@,
{
    reveal_strlit("select");
    reveal_strlit("insert");
    reveal_strlit("update");
    reveal_strlit("delete");
    reveal_strlit("procedure");
    reveal_strlit("statement");
    reveal_strlit("sql");
    reveal_strlit("resultMap");
    assert("select"@.len() == 6 && "insert"@.len() == 6 && "update"@.len() == 6 && "delete"@.len()
        == 6 && "sql"@.len() == 3);
    assert("procedure"@.len() == 9 && "statement"@.len() == 9 && "resultMap"@.len() == 9);
    assert("procedure"@[0] == 'p' && "statement"@[0] == 's' && "resultMap"@[0] == 'r');
}

/// What a statement has from its tag and the text of its body, its
/// `<selectKey>`s aside.
pub open spec fn has_body(
    s: StatementView,
    source: Seq<u8>,
    dialect: Dialect,
    segments: Seq<SegmentView>,
) -> bool {
    let rest = segments.filter(|x: SegmentView| !statement::is_select_key(x));
    &&& s.sql == flatten::flat_body(source, dialect, rest).sql
    &&& s.property_paths == flatten::flat_body(source, dialect, rest).paths
}

proof fn lemma_rest(
    source: Seq<u8>,
    dialect: Dialect,
    parent: StatementView,
    segments: Seq<SegmentView>,
    keys: Seq<statement::StatementKey>,
    n: int,
)
    requires
        0 <= n <= segments.len(),
    ensures
        statement::split_keys(source, dialect, parent, segments, keys, n).rest == segments.take(
            n,
        ).filter(|x: SegmentView| !statement::is_select_key(x)),
        statement::without_keys(segments, n) == segments.take(n).filter(
            |x: SegmentView| !statement::is_select_key(x),
        ),
    decreases n,
{
    reveal(Seq::filter);
    if n > 0 {
        lemma_rest(source, dialect, parent, segments, keys, n - 1);
        assert(segments.take(n).drop_last() =~= segments.take(n - 1));
    } else {
        assert(segments.take(0) =~= Seq::empty());
    }
}

/// A statement element gives one statement of its kind, whatever stands before
/// it: with what its tag says, from the start of the tag to the end of the
/// element, and with the SQL of its body. The statements of its `<selectKey>`s
/// follow; nothing else changes.
pub proof fn law_statement_element(
    source: Seq<u8>,
    dialect: Dialect,
    tokens: Seq<TokenView>,
    pos: int,
    last_error: Option<u64>,
    name: Seq<char>,
    build: BuildView,
)
    requires
        tokens[pos].event == EventView::Start(name),
        statement::kind_of(name) is Some,
    ensures
        ({
            let child = mapper::after_child(source, dialect, tokens, pos, last_error, build);
            let after = child.build;
            let n = build.statements.len() as int;
            let s = after.statements[n];
            let tag = mapper::token_span(tokens, pos);
            let capture = mapper::captured(source, tokens, pos);
            &&& child.next == capture.next
            &&& child.stop == capture.truncated
            &&& after.statements.len() > n
            &&& after.statements.take(n) == build.statements
            &&& after.fragments == build.fragments
            &&& after.result_maps == build.result_maps
            &&& Some(s.kind) == statement::kind_of(name)
            &&& s.span.start == tag.start
            &&& s.span.end == xml::token_start(tokens, capture.next) as u32
            &&& s.id == attrs::tag_attr(source, tag, "id"@).value
            &&& s.database_id == attrs::tag_attr(source, tag, "databaseId"@).value
            &&& s.result_map_ref == attrs::tag_attr(source, tag, "resultMap"@).value
            &&& names_class(
                s.param_class,
                attrs::tag_attr(source, tag, "parameterType"@).value,
                attrs::tag_attr(source, tag, "parameterClass"@).value,
            )
            &&& names_class(
                s.result_class,
                attrs::tag_attr(source, tag, "resultType"@).value,
                attrs::tag_attr(source, tag, "resultClass"@).value,
            )
            &&& has_body(s, source, dialect, capture.segments)
        }),
{
    let kind = statement::kind_of(name)->0;
    let tag = mapper::token_span(tokens, pos);
    let capture = mapper::captured(source, tokens, pos);
    let n = build.statements.len() as int;
    let after = mapper::after_child(source, dialect, tokens, pos, last_error, build).build;
    law_statement_reads_its_tag(source, kind, tag);
    lemma_rest(
        source,
        dialect,
        statement::header(source, kind, tag),
        capture.segments,
        statement::keys_after_header(source, tag, build.keys),
        capture.segments.len() as int,
    );
    assert(capture.segments.take(capture.segments.len() as int) =~= capture.segments);
    assert(after.statements.take(n) =~= build.statements);
}

/// A self-closed statement element gives one statement of its kind with what
/// its tag says and without text.
pub proof fn law_empty_statement_element(
    source: Seq<u8>,
    dialect: Dialect,
    tokens: Seq<TokenView>,
    pos: int,
    last_error: Option<u64>,
    name: Seq<char>,
    build: BuildView,
)
    requires
        tokens[pos].event == EventView::Empty(name),
        statement::kind_of(name) is Some,
    ensures
        ({
            let child = mapper::after_child(source, dialect, tokens, pos, last_error, build);
            let after = child.build;
            let tag = mapper::token_span(tokens, pos);
            let s = after.statements.last();
            &&& child.next == pos + 1 && !child.stop
            &&& after.statements.len() == build.statements.len() + 1
            &&& after.statements.drop_last() == build.statements
            &&& after.fragments == build.fragments
            &&& after.result_maps == build.result_maps
            &&& Some(s.kind) == statement::kind_of(name)
            &&& s.span == tag
            &&& s.id == attrs::tag_attr(source, tag, "id"@).value
            &&& s.database_id == attrs::tag_attr(source, tag, "databaseId"@).value
            &&& s.result_map_ref == attrs::tag_attr(source, tag, "resultMap"@).value
            &&& names_class(
                s.param_class,
                attrs::tag_attr(source, tag, "parameterType"@).value,
                attrs::tag_attr(source, tag, "parameterClass"@).value,
            )
            &&& names_class(
                s.result_class,
                attrs::tag_attr(source, tag, "resultType"@).value,
                attrs::tag_attr(source, tag, "resultClass"@).value,
            )
            &&& s.property_paths.len() == 0
            &&& s.includes.len() == 0
        }),
{
    let after = mapper::after_child(source, dialect, tokens, pos, last_error, build).build;
    assert(after.statements.drop_last() =~= build.statements);
}

/// A statement is what the `<selectKey>` at `tag` in another statement stands
/// for: a select with the key's own result class and SQL, the id of the other
/// with a suffix, and the database that the key names or else that of the other.
#[verifier::opaque]
pub open spec fn is_key_statement(
    s: StatementView,
    source: Seq<u8>,
    dialect: Dialect,
    parent: StatementView,
    tag: ByteSpan,
) -> bool {
    let own = attrs::tag_attr(source, tag, "databaseId"@).value;
    let flat = flatten::flat_body(source, dialect, body::subtree(source, tag).segments);
    &&& s.kind == StatementKind::Select
    &&& s.span == tag
    &&& s.id is None <==> parent.id is None
    &&& parent.id matches Some(id) ==> s.id->0.value == id.value + "!selectKey"@ && s.id->0.span
        == tag
    &&& own is Some ==> s.database_id == own
    &&& own is None ==> s.database_id == parent.database_id
    &&& names_class(
        s.result_class,
        attrs::tag_attr(source, tag, "resultType"@).value,
        attrs::tag_attr(source, tag, "resultClass"@).value,
    )
    &&& s.param_class is None
    &&& s.result_map_ref is None
    &&& s.sql == flat.sql
    &&& s.property_paths == flat.paths
    &&& s.includes == includes::merged(
        includes::lifted(
            source,
            dialect,
            body::subtree(source, tag).segments,
            body::subtree(source, tag).segments.len() as int,
        ).includes,
        flat.includes,
    )
}

proof fn lemma_select_key(
    source: Seq<u8>,
    dialect: Dialect,
    parent: StatementView,
    tag: ByteSpan,
)
    ensures
        is_key_statement(
            statement::select_key(source, dialect, parent, tag),
            source,
            dialect,
            parent,
            tag,
        ),
{
    reveal(statement::select_key);
    reveal(is_key_statement);
}

/// The `<selectKey>`s among segments.
pub open spec fn keys_among(segments: Seq<SegmentView>) -> Seq<SegmentView> {
    segments.filter(|x: SegmentView| x is Tag && x->name == "selectKey"@)
}

/// Every `<selectKey>` among the children of a statement gives one statement, in
/// the order of the document.
pub proof fn law_each_key_gives_a_statement(
    source: Seq<u8>,
    dialect: Dialect,
    parent: StatementView,
    segments: Seq<SegmentView>,
    keys: Seq<statement::StatementKey>,
)
    ensures
        ({
            let found = keys_among(segments);
            let given = statement::split_keys(
                source,
                dialect,
                parent,
                segments,
                keys,
                segments.len() as int,
            ).statements;
            &&& given.len() == found.len()
            &&& forall|k: int|
                0 <= k < given.len() ==> is_key_statement(
                    #[trigger] given[k],
                    source,
                    dialect,
                    parent,
                    found[k]->Tag_span,
                )
        }),
{
    lemma_keys(source, dialect, parent, segments, keys, segments.len() as int);
    assert(segments.take(segments.len() as int) =~= segments);
}

proof fn lemma_keys(
    source: Seq<u8>,
    dialect: Dialect,
    parent: StatementView,
    segments: Seq<SegmentView>,
    keys: Seq<statement::StatementKey>,
    n: int,
)
    requires
        0 <= n <= segments.len(),
    ensures
        ({
            let found = keys_among(segments.take(n));
            let given = statement::split_keys(source, dialect, parent, segments, keys, n).statements;
            &&& given.len() == found.len()
            &&& forall|k: int|
                0 <= k < given.len() ==> is_key_statement(
                    #[trigger] given[k],
                    source,
                    dialect,
                    parent,
                    found[k]->Tag_span,
                )
        }),
    decreases n,
{
    reveal(Seq::filter);
    if n > 0 {
        lemma_keys(source, dialect, parent, segments, keys, n - 1);
        lemma_select_key(source, dialect, parent, body::segment_span(segments[n - 1]));
        assert(segments.take(n).drop_last() =~= segments.take(n - 1));
    } else {
        assert(segments.take(0) =~= Seq::empty());
    }
}

/// A `<sql>` element with an id gives one fragment with the id, the extent and
/// the SQL of the element; without one it gives none.
pub proof fn law_fragment_element(
    source: Seq<u8>,
    dialect: Dialect,
    tokens: Seq<TokenView>,
    pos: int,
    last_error: Option<u64>,
    build: BuildView,
)
    requires
        tokens[pos].event == EventView::Start("sql"@),
    ensures
        ({
            let after = mapper::after_child(source, dialect, tokens, pos, last_error, build).build;
            let tag = mapper::token_span(tokens, pos);
            let capture = mapper::captured(source, tokens, pos);
            let rest = capture.segments.filter(
                |x: SegmentView| !statement::is_select_key(x),
            );
            &&& after.statements == build.statements
            &&& after.result_maps == build.result_maps
            &&& match attrs::tag_attr(source, tag, "id"@).value {
                Some(id) => {
                    let f = after.fragments.last();
                    &&& after.fragments.len() == build.fragments.len() + 1
                    &&& after.fragments.drop_last() == build.fragments
                    &&& f.id == id
                    &&& f.span.start == tag.start
                    &&& f.span.end == xml::token_start(tokens, capture.next) as u32
                    &&& f.sql == flatten::flat_body(source, dialect, rest).sql
                },
                None => after.fragments == build.fragments,
            }
        }),
{
    lemma_other_names();
    let capture = mapper::captured(source, tokens, pos);
    let after = mapper::after_child(source, dialect, tokens, pos, last_error, build).build;
    let n = capture.segments.len() as int;
    let any = statement::header(source, StatementKind::Select, mapper::token_span(tokens, pos));
    lemma_rest(source, dialect, any, capture.segments, Seq::empty(), n);
    assert(capture.segments.take(n) =~= capture.segments);
    if attrs::tag_attr(source, mapper::token_span(tokens, pos), "id"@).value is Some {
        assert(after.fragments.drop_last() =~= build.fragments);
    }
}

/// A `<resultMap>` element with an id gives one result map with the id, the
/// class, the parent and the extent of the element, and the mappings of its
/// body; without one it gives none.
pub proof fn law_result_map_element(
    source: Seq<u8>,
    dialect: Dialect,
    tokens: Seq<TokenView>,
    pos: int,
    last_error: Option<u64>,
    build: BuildView,
)
    requires
        tokens[pos].event == EventView::Start("resultMap"@),
    ensures
        ({
            let after = mapper::after_child(
                source,
                dialect,
                tokens,
                pos,
                last_error,
                build,
            ).build;
            let tag = mapper::token_span(tokens, pos);
            let capture = mapper::captured(source, tokens, pos);
            &&& after.statements == build.statements
            &&& after.fragments == build.fragments
            &&& match attrs::tag_attr(source, tag, "id"@).value {
                Some(id) => {
                    let m = after.result_maps.last();
                    &&& after.result_maps.len() == build.result_maps.len() + 1
                    &&& after.result_maps.drop_last() == build.result_maps
                    &&& m.id == id
                    &&& m.extends == attrs::tag_attr(source, tag, "extends"@).value
                    &&& names_class(
                        m.type_ref,
                        attrs::tag_attr(source, tag, "type"@).value,
                        attrs::tag_attr(source, tag, "class"@).value,
                    )
                    &&& m.span.start == tag.start
                    &&& m.span.end == xml::token_start(tokens, capture.next) as u32
                    &&& m.mappings == columns::mappings_in(source, capture.segments, 0)
                },
                None => after.result_maps == build.result_maps,
            }
        }),
{
    lemma_other_names();
    let tag = mapper::token_span(tokens, pos);
    let capture = mapper::captured(source, tokens, pos);
    let after = mapper::after_child(source, dialect, tokens, pos, last_error, build).build;
    let seen = build.diagnostics + statement::result_map_diagnostics(
        source,
        tag,
        build.result_map_ids,
    ) + capture.diagnostics;
    columns::lemma_nested_adds(
        source,
        capture.segments,
        0,
        result_map::Columns { mappings: Seq::empty(), diagnostics: seen },
    );
    if attrs::tag_attr(source, tag, "id"@).value is Some {
        assert(after.result_maps.drop_last() =~= build.result_maps);
        assert(Seq::<crate::model::ColumnMappingView>::empty() + columns::mappings_in(
            source,
            capture.segments,
            0,
        ) =~= columns::mappings_in(source, capture.segments, 0));
    }
}

// ---- the document -------------------------------------------------------

/// The children of a root are taken in turn, each adding to what those before
/// it gave, up to the one that ends the root.
pub proof fn law_children_in_turn(
    source: Seq<u8>,
    dialect: Dialect,
    tokens: Seq<TokenView>,
    pos: int,
    root_start: int,
    last_error: Option<u64>,
    build: BuildView,
)
    requires
        0 <= pos < tokens.len(),
    ensures
        ({
            let child = mapper::after_child(source, dialect, tokens, pos, last_error, build);
            let all = mapper::built(
                source,
                dialect,
                tokens,
                pos,
                root_start,
                last_error,
                build,
            );
            &&& child.stop ==> all == child
            &&& !child.stop && pos < child.next <= tokens.len() ==> all == mapper::built(
                source,
                dialect,
                tokens,
                child.next,
                root_start,
                match tokens[pos].event {
                    EventView::Malformed { position, .. } => Some(position),
                    _ => last_error,
                },
                child.build,
            )
        }),
{
}

/// The end tag ends a root; text, comments and errors among its children change
/// nothing that it has given.
pub proof fn law_other_children_give_nothing(
    source: Seq<u8>,
    dialect: Dialect,
    tokens: Seq<TokenView>,
    pos: int,
    last_error: Option<u64>,
    build: BuildView,
)
    requires
        tokens[pos].event !is Start,
        tokens[pos].event !is Empty,
    ensures
        ({
            let child = mapper::after_child(source, dialect, tokens, pos, last_error, build);
            &&& child.build.statements == build.statements
            &&& child.build.fragments == build.fragments
            &&& child.build.result_maps == build.result_maps
            &&& child.next == pos + 1
            &&& tokens[pos].event is End ==> child.stop && child.build == build
        }),
{
}

/// An element that is neither a statement nor a fragment nor a result map gives
/// nothing. It is reported at its place, but for the five that a mapper may hold
/// and that say nothing of its statements.
pub proof fn law_unknown_children_are_reported(
    source: Seq<u8>,
    dialect: Dialect,
    tokens: Seq<TokenView>,
    pos: int,
    last_error: Option<u64>,
    build: BuildView,
    name: Seq<char>,
)
    requires
        tokens[pos].event == EventView::Empty(name) || tokens[pos].event == EventView::Start(name),
        !["select"@, "insert"@, "update"@, "delete"@, "statement"@, "procedure"@]@.contains(name),
        name != "sql"@,
        name != "resultMap"@,
    ensures
        ({
            let child = mapper::after_child(source, dialect, tokens, pos, last_error, build);
            let silent = ["cache"@, "cache-ref"@, "parameterMap"@, "cacheModel"@, "typeAlias"@];
            let skip = body::skip_from(tokens, pos + 1, 1, None);
            let start = xml::token_start(tokens, pos);
            let more = child.build.diagnostics.skip(build.diagnostics.len() as int);
            &&& child.build.statements == build.statements
            &&& child.build.fragments == build.fragments
            &&& child.build.result_maps == build.result_maps
            &&& child.build.diagnostics.take(build.diagnostics.len() as int) == build.diagnostics
            &&& tokens[pos].event is Empty ==> {
                &&& child.next == pos + 1 && !child.stop
                &&& silent@.contains(name) ==> more.len() == 0
                &&& !silent@.contains(name) ==> more.len() == 1 && more[0].code
                    == DiagCode::UnknownElement && more[0].span == Some(
                    mapper::token_span(tokens, pos),
                )
            }
            &&& tokens[pos].event is Start ==> {
                &&& child.next == skip.next
                &&& child.stop <==> skip.end !is Closed
                &&& skip.end is Closed && silent@.contains(name) ==> more == skip.diagnostics
                &&& skip.end is Closed && !silent@.contains(name) ==> more.len()
                    == skip.diagnostics.len() + 1 && more.last().code == DiagCode::UnknownElement
                    && more.last().span == Some(
                    attrs::byte_span(start, xml::token_start(tokens, skip.next)),
                )
                &&& skip.end !is Closed ==> more.len() == skip.diagnostics.len() + 1
                    && more.last().code == DiagCode::UnclosedTag
            }
        }),
{
    let known = ["select"@, "insert"@, "update"@, "delete"@, "statement"@, "procedure"@]@;
    assert(known[0] == "select"@ && known[1] == "insert"@ && known[2] == "update"@ && known[3]
        == "delete"@ && known[4] == "statement"@ && known[5] == "procedure"@);
    assert(statement::kind_of(name) is None);
    let silent = ["cache"@, "cache-ref"@, "parameterMap"@, "cacheModel"@, "typeAlias"@]@;
    assert(silent[0] == "cache"@ && silent[1] == "cache-ref"@ && silent[2] == "parameterMap"@
        && silent[3] == "cacheModel"@ && silent[4] == "typeAlias"@);
    assert(silent.contains(name) <==> tags::is_ignorable(name));
    let child = mapper::after_child(source, dialect, tokens, pos, last_error, build);
    let skip = body::skip_from(tokens, pos + 1, 1, None);
    let more = child.build.diagnostics.skip(build.diagnostics.len() as int);
    assert(child.build.diagnostics.take(build.diagnostics.len() as int) =~= build.diagnostics);
    if tokens[pos].event is Start && skip.end is Closed && silent.contains(name) {
        assert(more =~= skip.diagnostics);
    }
}

/// Among the children of the root a lone ampersand is reported, and so is markup
/// that cannot be read; the same again ends the root. Other text is not.
pub proof fn law_stray_children_are_reported(
    source: Seq<u8>,
    dialect: Dialect,
    tokens: Seq<TokenView>,
    pos: int,
    last_error: Option<u64>,
    build: BuildView,
)
    requires
        0 <= pos < tokens.len(),
    ensures
        ({
            let child = mapper::after_child(source, dialect, tokens, pos, last_error, build);
            let start = xml::token_start(tokens, pos);
            let raw = source.subrange(start, tokens[pos].end as int);
            let more = child.build.diagnostics.skip(build.diagnostics.len() as int);
            match tokens[pos].event {
                EventView::Text => {
                    &&& !child.stop
                    &&& more.len() == (if raw.len() > 0 && raw[0] == 0x26 {
                        1nat
                    } else {
                        0nat
                    })
                    &&& more.len() == 1 ==> more[0].code == DiagCode::InvalidEntity
                        && more[0].span == Some(attrs::byte_span(start, start + 1))
                },
                EventView::Reference => !child.stop && more == body::reference_diagnostics(
                    raw,
                    mapper::token_span(tokens, pos),
                ),
                EventView::Malformed { position, .. } => {
                    &&& child.stop <==> last_error == Some(position)
                    &&& more.len() == 1
                    &&& more[0].code == DiagCode::UnclosedTag
                },
                EventView::CData | EventView::Other => !child.stop && more.len() == 0,
                _ => true,
            }
        }),
{
    reveal(mapper::stray_text);
    let child = mapper::after_child(source, dialect, tokens, pos, last_error, build);
    let start = xml::token_start(tokens, pos);
    let raw = source.subrange(start, tokens[pos].end as int);
    if tokens[pos].event is Reference {
        assert(child.build.diagnostics.skip(build.diagnostics.len() as int)
            =~= body::reference_diagnostics(raw, mapper::token_span(tokens, pos)));
    }
}

/// Behind the root a lone ampersand and a reference that cannot be resolved are
/// still reported, up to the end or to markup that cannot be read twice over.
pub proof fn law_text_behind_the_root_is_reported(
    source: Seq<u8>,
    tokens: Seq<TokenView>,
    pos: int,
    last_error: Option<u64>,
)
    requires
        0 <= pos < tokens.len(),
    ensures
        ({
            let start = xml::token_start(tokens, pos);
            let raw = source.subrange(start, tokens[pos].end as int);
            let here = parse::trailing(source, tokens, pos, last_error);
            let rest = parse::trailing(source, tokens, pos + 1, last_error);
            match tokens[pos].event {
                EventView::Text => if raw.len() > 0 && raw[0] == 0x26 {
                    &&& here.len() == rest.len() + 1
                    &&& here[0].code == DiagCode::InvalidEntity
                    &&& here[0].span == Some(attrs::byte_span(start, start + 1))
                    &&& here.skip(1) == rest
                } else {
                    here == rest
                },
                EventView::Reference => here == body::reference_diagnostics(
                    raw,
                    mapper::token_span(tokens, pos),
                ) + rest,
                EventView::Malformed { position, .. } => here == (if last_error == Some(position) {
                    Seq::empty()
                } else {
                    parse::trailing(source, tokens, pos + 1, Some(position))
                }),
                _ => here == rest,
            }
        }),
{
    reveal(mapper::stray_text);
    let start = xml::token_start(tokens, pos);
    let raw = source.subrange(start, tokens[pos].end as int);
    let here = parse::trailing(source, tokens, pos, last_error);
    let rest = parse::trailing(source, tokens, pos + 1, last_error);
    assert(Seq::empty() + rest =~= rest);
    match tokens[pos].event {
        EventView::Text => {
            if raw.len() > 0 && raw[0] == 0x26 {
                assert(here.skip(1) =~= rest);
            }
        },
        EventView::Malformed { position, .. } => {
            let next = parse::trailing(source, tokens, pos + 1, Some(position));
            assert(Seq::empty() + next =~= next);
        },
        _ => {},
    }
}

/// A mapper has the namespace of its root and all that its children gave.
pub proof fn law_mapper_has_its_children(
    source: Seq<u8>,
    dialect: Dialect,
    tokens: Seq<TokenView>,
    pos: int,
)
    ensures
        ({
            let m = mapper::mapped(source, dialect, tokens, pos).mapper;
            let namespace = attrs::tag_attr(
                source,
                mapper::token_span(tokens, pos),
                "namespace"@,
            );
            let all = mapper::built(
                source,
                dialect,
                tokens,
                pos + 1,
                xml::token_start(tokens, pos),
                None,
                BuildView {
                    statements: Seq::empty(),
                    fragments: Seq::empty(),
                    result_maps: Seq::empty(),
                    diagnostics: namespace.diagnostics,
                    keys: Seq::empty(),
                    fragment_ids: Seq::empty(),
                    result_map_ids: Seq::empty(),
                },
            ).build;
            &&& m.namespace == namespace.value
            &&& m.statements == all.statements
            &&& m.fragments == all.fragments
            &&& m.result_maps == all.result_maps
        }),
{
    reveal(mapper::mapped);
}

/// The first element of a document is its root. A `<mapper>` is MyBatis and a
/// `<sqlMap>` iBatis, with the mapper that the root gives; any other root is
/// reported and gives none. What stands before the root changes neither.
pub proof fn law_root_decides(
    source: Seq<u8>,
    tokens: Seq<TokenView>,
    pos: int,
    last_error: Option<u64>,
    diagnostics: Seq<DiagnosticView>,
)
    requires
        0 <= pos < tokens.len(),
    ensures
        ({
            let r = parse::parsed_from(source, tokens, pos, last_error, diagnostics);
            match tokens[pos].event {
                EventView::Start(name) => {
                    &&& name == "mapper"@ ==> r.dialect == Dialect::Mybatis && r.mapper == Some(
                        mapper::mapped(source, Dialect::Mybatis, tokens, pos).mapper,
                    )
                    &&& name == "sqlMap"@ ==> r.dialect == Dialect::Ibatis && r.mapper == Some(
                        mapper::mapped(source, Dialect::Ibatis, tokens, pos).mapper,
                    )
                    &&& name != "mapper"@ && name != "sqlMap"@ ==> r.dialect == Dialect::Unknown
                        && r.mapper is None && r.diagnostics.len() == diagnostics.len() + 1
                        && r.diagnostics.last().code == DiagCode::UnknownElement
                },
                EventView::Empty(name) => {
                    &&& name == "mapper"@ ==> r.dialect == Dialect::Mybatis
                    &&& name == "sqlMap"@ ==> r.dialect == Dialect::Ibatis
                    &&& name == "mapper"@ || name == "sqlMap"@ ==> {
                        &&& r.mapper is Some
                        &&& r.mapper->0.namespace == attrs::tag_attr(
                            source,
                            mapper::token_span(tokens, pos),
                            "namespace"@,
                        ).value
                        &&& r.mapper->0.statements.len() == 0
                        &&& r.mapper->0.fragments.len() == 0
                        &&& r.mapper->0.result_maps.len() == 0
                    }
                    &&& name != "mapper"@ && name != "sqlMap"@ ==> r.dialect == Dialect::Unknown
                        && r.mapper is None
                },
                EventView::Malformed { .. } => true,
                _ => {
                    let rest = parse::parsed_from(
                        source,
                        tokens,
                        pos + 1,
                        last_error,
                        diagnostics + mapper::stray_text(source, tokens, pos),
                    );
                    r == rest
                },
            }
        }),
{
    reveal_strlit("mapper");
    reveal_strlit("sqlMap");
    assert("mapper"@[0] == 'm' && "sqlMap"@[0] == 's');
}

// ---- ids ----------------------------------------------------------------

/// A statement with the id and database of an earlier one is reported at its id,
/// and one that differs in either is not. Whatever it is, its own are known from
/// then on, and none is forgotten.
pub proof fn law_repeated_id_is_reported(
    source: Seq<u8>,
    tag: ByteSpan,
    keys: Seq<statement::StatementKey>,
)
    ensures
        ({
            let id = attrs::tag_attr(source, tag, "id"@).value;
            let database = attrs::tag_attr(source, tag, "databaseId"@).value;
            let own = (
                id->0.value,
                if database is Some {
                    Some(database->0.value)
                } else {
                    None
                },
            );
            let all = statement::header_diagnostics(source, tag, keys);
            let after = statement::keys_after_header(source, tag, keys);
            &&& id is Some ==> {
                &&& keys.contains(own) <==> exists|k: int|
                    0 <= k < all.len() && (#[trigger] all[k]).code
                        == DiagCode::DuplicateStatementId && all[k].span == Some(id->0.span)
                &&& after.contains(own)
            }
            &&& forall|key: statement::StatementKey| #[trigger]
                keys.contains(key) ==> after.contains(key)
        }),
{
    let id = attrs::tag_attr(source, tag, "id"@).value;
    let database = attrs::tag_attr(source, tag, "databaseId"@).value;
    let all = statement::header_diagnostics(source, tag, keys);
    let after = statement::keys_after_header(source, tag, keys);
    let first = statement::reads2(source, tag, "id"@, "databaseId"@);
    let own = statement::id_diagnostics(keys, id, database, tag);
    attrs::lemma_attr_codes(source, tag, "id"@);
    attrs::lemma_attr_codes(source, tag, "databaseId"@);
    attrs::lemma_attr_codes(source, tag, "parameterType"@);
    attrs::lemma_attr_codes(source, tag, "parameterClass"@);
    attrs::lemma_attr_codes(source, tag, "resultType"@);
    attrs::lemma_attr_codes(source, tag, "resultClass"@);
    attrs::lemma_attr_codes(source, tag, "resultMap"@);
    if let Some(id) = id {
        let key = (id.value, statement::value_of(database));
        if keys.contains(key) {
            assert(all[first.len() as int] == own[0]);
        } else {
            assert forall|k: int| 0 <= k < all.len() implies (#[trigger] all[k]).code
                != DiagCode::DuplicateStatementId by {}
            assert(after[keys.len() as int] == key);
        }
    }
    assert forall|key: statement::StatementKey| #[trigger] keys.contains(key) implies after.contains(
        key,
    ) by {
        let k = choose|k: int| 0 <= k < keys.len() && keys[k] == key;
        assert(after[k] == key);
    }
}

/// Whether all that is wrong with an attribute of a tag is among `diagnostics`.
pub open spec fn reports_attribute(
    diagnostics: Seq<DiagnosticView>,
    source: Seq<u8>,
    tag: ByteSpan,
    name: Seq<char>,
) -> bool {
    let wrong = attrs::tag_attr(source, tag, name).diagnostics;
    exists|at: int|
        0 <= at <= diagnostics.len() - wrong.len() && #[trigger] diagnostics.subrange(
            at,
            at + wrong.len(),
        ) == wrong
}

proof fn lemma_reports(
    diagnostics: Seq<DiagnosticView>,
    source: Seq<u8>,
    tag: ByteSpan,
    name: Seq<char>,
    before: Seq<DiagnosticView>,
    after: Seq<DiagnosticView>,
)
    requires
        diagnostics == before + attrs::tag_attr(source, tag, name).diagnostics + after,
    ensures
        reports_attribute(diagnostics, source, tag, name),
{
    let wrong = attrs::tag_attr(source, tag, name).diagnostics;
    let at = before.len() as int;
    assert(diagnostics.subrange(at, at + wrong.len()) =~= wrong);
}

/// An attribute that a statement, a fragment, a result map or a column reads and
/// that its tag gives more than once is reported.
pub proof fn law_repeated_attributes_are_reported(
    source: Seq<u8>,
    tag: ByteSpan,
    keys: Seq<statement::StatementKey>,
    ids: Seq<Seq<char>>,
    columns: result_map::Columns,
)
    ensures
        ({
            let s = statement::header_diagnostics(source, tag, keys);
            &&& reports_attribute(s, source, tag, "id"@)
            &&& reports_attribute(s, source, tag, "databaseId"@)
            &&& reports_attribute(s, source, tag, "parameterType"@)
            &&& reports_attribute(s, source, tag, "parameterClass"@)
            &&& reports_attribute(s, source, tag, "resultType"@)
            &&& reports_attribute(s, source, tag, "resultClass"@)
            &&& reports_attribute(s, source, tag, "resultMap"@)
        }),
        reports_attribute(statement::fragment_diagnostics(source, tag, ids), source, tag, "id"@),
        ({
            let m = statement::result_map_diagnostics(source, tag, ids);
            &&& reports_attribute(m, source, tag, "id"@)
            &&& reports_attribute(m, source, tag, "type"@)
            &&& reports_attribute(m, source, tag, "class"@)
            &&& reports_attribute(m, source, tag, "extends"@)
        }),
        ({
            let c = result_map::after_column(source, columns, tag).diagnostics;
            &&& reports_attribute(c, source, tag, "column"@)
            &&& reports_attribute(c, source, tag, "property"@)
        }),
{
    let none = Seq::<DiagnosticView>::empty();
    let id = attrs::tag_attr(source, tag, "id"@);
    let database = attrs::tag_attr(source, tag, "databaseId"@);
    let a = id.diagnostics;
    let b = database.diagnostics;
    let c = statement::id_diagnostics(keys, id.value, database.value, tag);
    let d = attrs::tag_attr(source, tag, "parameterType"@).diagnostics;
    let e = attrs::tag_attr(source, tag, "parameterClass"@).diagnostics;
    let f = attrs::tag_attr(source, tag, "resultType"@).diagnostics;
    let g = attrs::tag_attr(source, tag, "resultClass"@).diagnostics;
    let h = attrs::tag_attr(source, tag, "resultMap"@).diagnostics;
    let s = statement::header_diagnostics(source, tag, keys);
    assert(s =~= none + a + (b + c + d + e + f + g + h));
    lemma_reports(s, source, tag, "id"@, none, b + c + d + e + f + g + h);
    assert(s =~= a + b + (c + d + e + f + g + h));
    lemma_reports(s, source, tag, "databaseId"@, a, c + d + e + f + g + h);
    assert(s =~= (a + b + c) + d + (e + f + g + h));
    lemma_reports(s, source, tag, "parameterType"@, a + b + c, e + f + g + h);
    assert(s =~= (a + b + c + d) + e + (f + g + h));
    lemma_reports(s, source, tag, "parameterClass"@, a + b + c + d, f + g + h);
    assert(s =~= (a + b + c + d + e) + f + (g + h));
    lemma_reports(s, source, tag, "resultType"@, a + b + c + d + e, g + h);
    assert(s =~= (a + b + c + d + e + f) + g + h);
    lemma_reports(s, source, tag, "resultClass"@, a + b + c + d + e + f, h);
    assert(s =~= (a + b + c + d + e + f + g) + h + none);
    lemma_reports(s, source, tag, "resultMap"@, a + b + c + d + e + f + g, none);
    lemma_named_attributes(source, tag, ids);
    let x = attrs::tag_attr(source, tag, "column"@).diagnostics;
    let y = attrs::tag_attr(source, tag, "property"@).diagnostics;
    let all = result_map::after_column(source, columns, tag).diagnostics;
    lemma_reports(all, source, tag, "column"@, columns.diagnostics, y);
    assert(all =~= (columns.diagnostics + x) + y + none);
    lemma_reports(all, source, tag, "property"@, columns.diagnostics + x, none);
}

proof fn lemma_named_attributes(source: Seq<u8>, tag: ByteSpan, ids: Seq<Seq<char>>)
    ensures
        reports_attribute(statement::fragment_diagnostics(source, tag, ids), source, tag, "id"@),
        ({
            let m = statement::result_map_diagnostics(source, tag, ids);
            &&& reports_attribute(m, source, tag, "id"@)
            &&& reports_attribute(m, source, tag, "type"@)
            &&& reports_attribute(m, source, tag, "class"@)
            &&& reports_attribute(m, source, tag, "extends"@)
        }),
{
    let none = Seq::<DiagnosticView>::empty();
    let id = attrs::tag_attr(source, tag, "id"@);
    let a = id.diagnostics;
    let f = statement::fragment_diagnostics(source, tag, ids);
    let of_f = f.skip(a.len() as int);
    assert(f =~= none + a + of_f);
    lemma_reports(f, source, tag, "id"@, none, of_f);
    let b = attrs::tag_attr(source, tag, "type"@).diagnostics;
    let c = attrs::tag_attr(source, tag, "class"@).diagnostics;
    let d = attrs::tag_attr(source, tag, "extends"@).diagnostics;
    let m = statement::result_map_diagnostics(source, tag, ids);
    let e = m.skip((a + b + c + d).len() as int);
    assert(m =~= none + a + (b + c + d + e));
    lemma_reports(m, source, tag, "id"@, none, b + c + d + e);
    assert(m =~= a + b + (c + d + e));
    lemma_reports(m, source, tag, "type"@, a, c + d + e);
    assert(m =~= (a + b) + c + (d + e));
    lemma_reports(m, source, tag, "class"@, a + b, d + e);
    assert(m =~= (a + b + c) + d + e);
    lemma_reports(m, source, tag, "extends"@, a + b + c, e);
}

/// A fragment or result map without an id is reported at its tag, and one whose
/// id has been seen at its id; another is not. Its own is known from then on.
pub proof fn law_ids_of_fragments_and_maps(source: Seq<u8>, tag: ByteSpan, ids: Seq<Seq<char>>)
    ensures
        ({
            let id = attrs::tag_attr(source, tag, "id"@).value;
            let a = statement::fragment_diagnostics(source, tag, ids);
            let b = statement::result_map_diagnostics(source, tag, ids);
            let after = statement::ids_after(ids, id);
            match id {
                None => {
                    &&& a.len() > 0 && a.last().code == DiagCode::MissingStatementId
                        && a.last().span == Some(tag)
                    &&& b.len() > 0 && b.last().code == DiagCode::MissingStatementId
                        && b.last().span == Some(tag)
                    &&& after == ids
                },
                Some(id) => {
                    &&& ids.contains(id.value) ==> {
                        &&& a.len() > 0 && a.last().code == DiagCode::DuplicateStatementId
                            && a.last().span == Some(id.span)
                        &&& b.len() > 0 && b.last().code == DiagCode::DuplicateStatementId
                            && b.last().span == Some(id.span)
                    }
                    &&& !ids.contains(id.value) ==> {
                        &&& forall|k: int|
                            0 <= k < a.len() ==> (#[trigger] a[k]).code
                                == DiagCode::DuplicateAttribute
                        &&& forall|k: int|
                            0 <= k < b.len() ==> (#[trigger] b[k]).code
                                == DiagCode::DuplicateAttribute
                    }
                    &&& after.contains(id.value)
                },
            }
        }),
{
    let id = attrs::tag_attr(source, tag, "id"@).value;
    attrs::lemma_attr_codes(source, tag, "id"@);
    attrs::lemma_attr_codes(source, tag, "type"@);
    attrs::lemma_attr_codes(source, tag, "class"@);
    attrs::lemma_attr_codes(source, tag, "extends"@);
    if let Some(id) = id {
        if !ids.contains(id.value) {
            assert(statement::ids_after(ids, Some(id))[ids.len() as int] == id.value);
        }
    }
}

/// Every `<selectKey>` in a fragment is reported at its place and left out.
pub proof fn law_misplaced_keys(segments: Seq<SegmentView>, n: int)
    requires
        0 <= n <= segments.len(),
    ensures
        ({
            let found = keys_among(segments.take(n));
            let all = statement::misplaced_keys(segments, n);
            &&& all.len() == found.len()
            &&& forall|k: int|
                0 <= k < all.len() ==> (#[trigger] all[k]).code == DiagCode::UnknownElement
                    && all[k].span == Some(found[k]->Tag_span)
        }),
    decreases n,
{
    reveal(Seq::filter);
    if n > 0 {
        law_misplaced_keys(segments, n - 1);
        assert(segments.take(n).drop_last() =~= segments.take(n - 1));
    } else {
        assert(segments.take(0) =~= Seq::empty());
    }
}

// ---- references ---------------------------------------------------------

/// Every reference that is found in a body is listed at its place, and nothing
/// else is.
pub proof fn law_every_reference_is_listed(
    top: Seq<Spanned<IncludeRefView>>,
    nested: Seq<Spanned<IncludeRefView>>,
)
    ensures
        ({
            let all = includes::merged(top, nested);
            &&& forall|k: int| 0 <= k < top.len() ==> all.contains(#[trigger] top[k])
            &&& forall|k: int|
                0 <= k < nested.len() ==> includes::has_span(all, (#[trigger] nested[k]).span)
            &&& forall|k: int|
                0 <= k < all.len() ==> top.contains(#[trigger] all[k]) || nested.contains(all[k])
        }),
{
    broadcast use vstd::seq_lib::group_to_multiset_ensures;

    let list = includes::with_new(top, nested, nested.len() as int);
    let all = includes::merged(top, nested);
    lemma_with_new(top, nested, nested.len() as int);
    includes::law_document_order(list, list.len() as int);
    assert(list.take(list.len() as int) =~= list);
    assert forall|k: int| 0 <= k < list.len() implies all.contains(#[trigger] list[k]) by {
        assert(list.contains(list[k]));
        assert(all.to_multiset().count(list[k]) > 0);
    }
    assert forall|k: int| 0 <= k < top.len() implies all.contains(#[trigger] top[k]) by {
        assert(list[k] == top[k]);
    }
    assert forall|k: int| 0 <= k < nested.len() implies includes::has_span(
        all,
        (#[trigger] nested[k]).span,
    ) by {
        assert(includes::has_span(list, nested[k].span));
        let j = choose|j: int| 0 <= j < list.len() && (#[trigger] list[j]).span == nested[k].span;
        assert(all.contains(list[j]));
        let m = choose|m: int| 0 <= m < all.len() && all[m] == list[j];
        assert(all[m].span == nested[k].span);
    }
    assert forall|k: int| 0 <= k < all.len() implies top.contains(#[trigger] all[k])
        || nested.contains(all[k]) by {
        assert(all.contains(all[k]));
        assert(list.to_multiset().count(all[k]) > 0);
        assert(list.contains(all[k]));
        let j = choose|j: int| 0 <= j < list.len() && list[j] == all[k];
        assert(top.contains(list[j]) || nested.contains(list[j]));
    }
}

proof fn lemma_with_new(
    top: Seq<Spanned<IncludeRefView>>,
    nested: Seq<Spanned<IncludeRefView>>,
    n: int,
)
    requires
        0 <= n <= nested.len(),
    ensures
        ({
            let all = includes::with_new(top, nested, n);
            &&& all.len() >= top.len()
            &&& forall|k: int| 0 <= k < top.len() ==> #[trigger] all[k] == top[k]
            &&& forall|k: int|
                0 <= k < n ==> includes::has_span(all, (#[trigger] nested[k]).span)
            &&& forall|k: int|
                0 <= k < all.len() ==> top.contains(#[trigger] all[k]) || nested.contains(all[k])
        }),
    decreases n,
{
    let all = includes::with_new(top, nested, n);
    if n > 0 {
        lemma_with_new(top, nested, n - 1);
        let before = includes::with_new(top, nested, n - 1);
        assert forall|k: int| 0 <= k < n implies includes::has_span(
            all,
            (#[trigger] nested[k]).span,
        ) by {
            if k < n - 1 {
                let j = choose|j: int|
                    0 <= j < before.len() && (#[trigger] before[j]).span == nested[k].span;
                assert(all[j] == before[j]);
            } else if !includes::has_span(before, nested[n - 1].span) {
                assert(all[before.len() as int] == nested[n - 1]);
            }
        }
        assert forall|k: int| 0 <= k < all.len() implies top.contains(#[trigger] all[k])
            || nested.contains(all[k]) by {
            if k < before.len() {
                assert(all[k] == before[k]);
            } else {
                assert(nested.contains(nested[n - 1]));
            }
        }
    }
}

/// A statement or fragment lists the references that stand in its body and those
/// in the tags of its body.
pub proof fn law_statement_lists_its_references(
    source: Seq<u8>,
    dialect: Dialect,
    head: StatementView,
    end: int,
    segments: Seq<SegmentView>,
)
    ensures
        ({
            let s = statement::with_body(source, dialect, head, end, segments);
            let nested = flatten::flat_body(source, dialect, segments).includes;
            &&& forall|k: int|
                0 <= k < nested.len() ==> includes::has_span(s.includes, (#[trigger] nested[k]).span)
            &&& forall|k: int|
                {
                    &&& 0 <= k < segments.len()
                    &&& (#[trigger] segments[k]) is Tag
                    &&& segments[k]->name == "include"@
                    &&& attrs::tag_attr(source, segments[k]->Tag_span, "refid"@).value is Some
                } ==> includes::has_span(s.includes, segments[k]->Tag_span)
        }),
{
    let top = includes::lifted(source, dialect, segments, segments.len() as int).includes;
    let nested = flatten::flat_body(source, dialect, segments).includes;
    law_every_reference_is_listed(top, nested);
    lemma_lifted(source, dialect, segments, segments.len() as int);
    let all = includes::merged(top, nested);
    assert forall|k: int|
        {
            &&& 0 <= k < segments.len()
            &&& (#[trigger] segments[k]) is Tag
            &&& segments[k]->name == "include"@
            &&& attrs::tag_attr(source, segments[k]->Tag_span, "refid"@).value is Some
        } implies includes::has_span(all, segments[k]->Tag_span) by {
        let j = choose|j: int|
            0 <= j < top.len() && (#[trigger] top[j]).span == segments[k]->Tag_span;
        assert(all.contains(top[j]));
        let m = choose|m: int| 0 <= m < all.len() && all[m] == top[j];
        assert(all[m].span == segments[k]->Tag_span);
    }
}

proof fn lemma_lifted(source: Seq<u8>, dialect: Dialect, segments: Seq<SegmentView>, n: int)
    requires
        0 <= n <= segments.len(),
    ensures
        forall|k: int|
            {
                &&& 0 <= k < n
                &&& (#[trigger] segments[k]) is Tag
                &&& segments[k]->name == "include"@
                &&& attrs::tag_attr(source, segments[k]->Tag_span, "refid"@).value is Some
            } ==> includes::has_span(
                includes::lifted(source, dialect, segments, n).includes,
                segments[k]->Tag_span,
            ),
    decreases n,
{
    if n > 0 {
        lemma_lifted(source, dialect, segments, n - 1);
        let before = includes::lifted(source, dialect, segments, n - 1).includes;
        let one = includes::lifted_one(source, dialect, segments[n - 1]).includes;
        let all = includes::lifted(source, dialect, segments, n).includes;
        assert forall|k: int|
            {
                &&& 0 <= k < n
                &&& (#[trigger] segments[k]) is Tag
                &&& segments[k]->name == "include"@
                &&& attrs::tag_attr(source, segments[k]->Tag_span, "refid"@).value is Some
            } implies includes::has_span(all, segments[k]->Tag_span) by {
            if k < n - 1 {
                let j = choose|j: int|
                    0 <= j < before.len() && (#[trigger] before[j]).span == segments[k]->Tag_span;
                assert(all[j] == before[j]);
            } else {
                assert(all[before.len() as int] == one[0]);
            }
        }
    }
}

/// In MyBatis every `<include>` of a body without a `refid` is reported at its
/// place. In iBatis none is.
pub proof fn law_missing_refid_is_reported(
    source: Seq<u8>,
    dialect: Dialect,
    segments: Seq<SegmentView>,
    n: int,
    k: int,
    span: ByteSpan,
)
    requires
        0 <= k < n <= segments.len(),
        segments[k] == (SegmentView::Tag { name: "include"@, span }),
        attrs::tag_attr(source, span, "refid"@).value is None,
    ensures
        dialect == Dialect::Mybatis ==> exists|i: int|
            0 <= i < includes::lifted(source, dialect, segments, n).diagnostics.len() && (
            #[trigger] includes::lifted(source, dialect, segments, n).diagnostics[i]).code
                == DiagCode::DanglingRefid && includes::lifted(
                source,
                dialect,
                segments,
                n,
            ).diagnostics[i].span == Some(span),
        dialect != Dialect::Mybatis ==> forall|i: int|
            0 <= i < includes::lifted(source, dialect, segments, n).diagnostics.len() ==> (
            #[trigger] includes::lifted(source, dialect, segments, n).diagnostics[i]).code
                != DiagCode::DanglingRefid,
    decreases n,
{
    let all = includes::lifted(source, dialect, segments, n).diagnostics;
    let before = includes::lifted(source, dialect, segments, n - 1).diagnostics;
    let one = includes::lifted_one(source, dialect, segments[n - 1]).diagnostics;
    assert(all == before + one);
    if dialect == Dialect::Mybatis {
        if k == n - 1 {
            let i = all.len() - 1;
            assert(all[i] == one[one.len() - 1]);
        } else {
            law_missing_refid_is_reported(source, dialect, segments, n - 1, k, span);
            let i = choose|i: int|
                0 <= i < before.len() && (#[trigger] before[i]).code == DiagCode::DanglingRefid
                    && before[i].span == Some(span);
            assert(all[i] == before[i]);
        }
    } else {
        lemma_no_missing_refid(source, dialect, segments, n);
    }
}

proof fn lemma_no_missing_refid(
    source: Seq<u8>,
    dialect: Dialect,
    segments: Seq<SegmentView>,
    n: int,
)
    requires
        dialect != Dialect::Mybatis,
        0 <= n <= segments.len(),
    ensures
        forall|i: int|
            0 <= i < includes::lifted(source, dialect, segments, n).diagnostics.len() ==> (
            #[trigger] includes::lifted(source, dialect, segments, n).diagnostics[i]).code
                != DiagCode::DanglingRefid,
    decreases n,
{
    if n > 0 {
        lemma_no_missing_refid(source, dialect, segments, n - 1);
        if let SegmentView::Tag { name, span } = segments[n - 1] {
            attrs::lemma_attr_codes(source, span, "refid"@);
        }
    }
}

// ---- references and fragments -------------------------------------------

/// Of the references of a list just those are reported that name a fragment of
/// this mapper by an id which is not among `ids`, each at its place.
pub proof fn law_just_the_unresolved_are_reported(
    list: Seq<Spanned<IncludeRefView>>,
    ids: Seq<Seq<char>>,
    n: int,
)
    requires
        0 <= n <= list.len(),
    ensures
        forall|k: int, id: Seq<char>|
            0 <= k < n && #[trigger] list[k].value.target == IncludeTargetView::Local(id)
                && !#[trigger] ids.contains(id) ==> reported(
                includes::dangling(list, ids, n),
                list[k].span,
            ),
        forall|i: int|
            #![trigger includes::dangling(list, ids, n)[i]]
            0 <= i < includes::dangling(list, ids, n).len() ==> exists|k: int|
                {
                    &&& 0 <= k < n
                    &&& #[trigger] list[k].value.target is Local
                    &&& !ids.contains(list[k].value.target->Local_0)
                    &&& includes::dangling(list, ids, n)[i].span == Some(list[k].span)
                },
    decreases n,
{
    if n > 0 {
        law_just_the_unresolved_are_reported(list, ids, n - 1);
        let before = includes::dangling(list, ids, n - 1);
        let all = includes::dangling(list, ids, n);
        assert forall|k: int, id: Seq<char>|
            0 <= k < n && #[trigger] list[k].value.target == IncludeTargetView::Local(id)
                && !#[trigger] ids.contains(id) implies reported(all, list[k].span) by {
            if k < n - 1 {
                assert forall|i: int| 0 <= i < before.len() implies all.contains(
                    #[trigger] before[i],
                ) by {
                    assert(all[i] == before[i]);
                }
                lemma_reported(before, all, list[k].span);
            } else {
                assert(all[before.len() as int].code == DiagCode::DanglingRefid);
            }
        }
        assert forall|i: int| 0 <= i < all.len() implies exists|k: int|
            {
                &&& 0 <= k < n
                &&& #[trigger] list[k].value.target is Local
                &&& !ids.contains(list[k].value.target->Local_0)
                &&& #[trigger] all[i].span == Some(list[k].span)
            } by {
            if i < before.len() {
                assert(all[i] == before[i]);
                let k = choose|k: int|
                    {
                        &&& 0 <= k < n - 1
                        &&& #[trigger] list[k].value.target is Local
                        &&& !ids.contains(list[k].value.target->Local_0)
                        &&& before[i].span == Some(list[k].span)
                    };
                assert(list[k].value.target is Local);
            } else {
                assert(list[n - 1].value.target is Local);
            }
        }
    }
}

/// Whether an unresolved reference is reported at `span`.
pub open spec fn reported(diagnostics: Seq<DiagnosticView>, span: ByteSpan) -> bool {
    exists|i: int|
        0 <= i < diagnostics.len() && (#[trigger] diagnostics[i]).code == DiagCode::DanglingRefid
            && diagnostics[i].span == Some(span)
}

proof fn lemma_reported(some: Seq<DiagnosticView>, all: Seq<DiagnosticView>, span: ByteSpan)
    requires
        reported(some, span),
        forall|i: int| 0 <= i < some.len() ==> all.contains(#[trigger] some[i]),
    ensures
        reported(all, span),
{
    let i = choose|i: int|
        0 <= i < some.len() && (#[trigger] some[i]).code == DiagCode::DanglingRefid
            && some[i].span == Some(span);
    assert(all.contains(some[i]));
    let j = choose|j: int| 0 <= j < all.len() && all[j] == some[i];
    assert(all[j].code == DiagCode::DanglingRefid);
}

/// Whether a fragment has the id.
pub open spec fn has_fragment(fragments: Seq<SqlFragmentView>, id: Seq<char>) -> bool {
    exists|j: int| 0 <= j < fragments.len() && (#[trigger] fragments[j]).id.value == id
}

/// The ids that are known are those of the fragments.
pub open spec fn knows_its_fragments(build: BuildView) -> bool {
    forall|id: Seq<char>| #[trigger]
        build.fragment_ids.contains(id) <==> has_fragment(build.fragments, id)
}

proof fn lemma_one_more(build: BuildView, next: BuildView, more: SqlFragmentView)
    requires
        knows_its_fragments(build),
        next.fragments == build.fragments.push(more),
        next.fragment_ids == statement::with_id(build.fragment_ids, more.id.value),
    ensures
        knows_its_fragments(next),
{
    let ids = build.fragment_ids;
    assert forall|id: Seq<char>| #[trigger]
        next.fragment_ids.contains(id) <==> has_fragment(next.fragments, id) by {
        let old_id = ids.contains(id);
        assert(old_id <==> has_fragment(build.fragments, id));
        assert(ids.contains(more.id.value) || next.fragment_ids[ids.len() as int] == more.id.value);
        if old_id {
            let k = choose|k: int| 0 <= k < ids.len() && ids[k] == id;
            assert(next.fragment_ids[k] == id);
            let j = choose|j: int|
                0 <= j < build.fragments.len() && (#[trigger] build.fragments[j]).id.value == id;
            assert(next.fragments[j].id.value == id);
        }
        if id == more.id.value {
            assert(next.fragments[build.fragments.len() as int].id.value == id);
        }
        if next.fragment_ids.contains(id) && !old_id {
            let k = choose|k: int| 0 <= k < next.fragment_ids.len() && next.fragment_ids[k] == id;
            if k < ids.len() {
                assert(ids[k] == id);
            }
        }
        if has_fragment(next.fragments, id) && !old_id {
            let j = choose|j: int|
                0 <= j < next.fragments.len() && (#[trigger] next.fragments[j]).id.value == id;
            if j < build.fragments.len() {
                assert(build.fragments[j].id.value == id);
            }
        }
    }
}

proof fn lemma_child_fragments(
    source: Seq<u8>,
    dialect: Dialect,
    tokens: Seq<TokenView>,
    pos: int,
    last_error: Option<u64>,
    build: BuildView,
)
    requires
        knows_its_fragments(build),
    ensures
        knows_its_fragments(
            mapper::after_child(source, dialect, tokens, pos, last_error, build).build,
        ),
{
    let next = mapper::after_child(source, dialect, tokens, pos, last_error, build).build;
    if next.fragments.len() > build.fragments.len() {
        lemma_one_more(build, next, next.fragments.last());
    }
}

proof fn lemma_built_fragments(
    source: Seq<u8>,
    dialect: Dialect,
    tokens: Seq<TokenView>,
    pos: int,
    root_start: int,
    last_error: Option<u64>,
    build: BuildView,
)
    requires
        0 <= pos <= tokens.len(),
        attrs::fits(source),
        xml::well_placed(source, tokens),
        knows_its_fragments(build),
    ensures
        knows_its_fragments(
            mapper::built(source, dialect, tokens, pos, root_start, last_error, build).build,
        ),
    decreases tokens.len() - pos,
{
    if pos < tokens.len() {
        lemma_child_fragments(source, dialect, tokens, pos, last_error, build);
        mapper::lemma_child(source, dialect, tokens, pos, last_error, build);
        let child = mapper::after_child(source, dialect, tokens, pos, last_error, build);
        if !child.stop {
            lemma_built_fragments(
                source,
                dialect,
                tokens,
                child.next,
                root_start,
                mapper::error_after(tokens, pos, last_error),
                child.build,
            );
        }
    }
}

proof fn lemma_statement_reported(
    statements: Seq<StatementView>,
    ids: Seq<Seq<char>>,
    n: int,
    i: int,
    span: ByteSpan,
)
    requires
        0 <= i < n <= statements.len(),
        reported(
            includes::dangling(statements[i].includes, ids, statements[i].includes.len() as int),
            span,
        ),
    ensures
        reported(mapper::dangling_in_statements(statements, ids, n), span),
    decreases n,
{
    let list = statements[n - 1].includes;
    let last = includes::dangling(list, ids, list.len() as int);
    let before = mapper::dangling_in_statements(statements, ids, n - 1);
    if i < n - 1 {
        lemma_statement_reported(statements, ids, n - 1, i, span);
    }
    lemma_parts(before, last);
    lemma_reported(if i < n - 1 { before } else { last }, before + last, span);
}

proof fn lemma_fragment_reported(
    fragments: Seq<SqlFragmentView>,
    ids: Seq<Seq<char>>,
    n: int,
    i: int,
    span: ByteSpan,
)
    requires
        0 <= i < n <= fragments.len(),
        reported(
            includes::dangling(fragments[i].includes, ids, fragments[i].includes.len() as int),
            span,
        ),
    ensures
        reported(mapper::dangling_in_fragments(fragments, ids, n), span),
    decreases n,
{
    let list = fragments[n - 1].includes;
    let last = includes::dangling(list, ids, list.len() as int);
    let before = mapper::dangling_in_fragments(fragments, ids, n - 1);
    if i < n - 1 {
        lemma_fragment_reported(fragments, ids, n - 1, i, span);
    }
    lemma_parts(before, last);
    lemma_reported(if i < n - 1 { before } else { last }, before + last, span);
}

proof fn lemma_parts(a: Seq<DiagnosticView>, b: Seq<DiagnosticView>)
    ensures
        forall|i: int| 0 <= i < a.len() ==> (a + b).contains(#[trigger] a[i]),
        forall|i: int| 0 <= i < b.len() ==> (a + b).contains(#[trigger] b[i]),
{
    assert forall|i: int| 0 <= i < a.len() implies (a + b).contains(#[trigger] a[i]) by {
        assert((a + b)[i] == a[i]);
    }
    assert forall|i: int| 0 <= i < b.len() implies (a + b).contains(#[trigger] b[i]) by {
        assert((a + b)[a.len() + i] == b[i]);
    }
}

/// Every reference of a MyBatis mapper to a fragment that the mapper does not
/// have is reported at its place, whether it stands in a statement or in a
/// fragment.
pub proof fn law_unresolved_references_are_reported(
    source: Seq<u8>,
    tokens: Seq<TokenView>,
    pos: int,
    r: Spanned<IncludeRefView>,
    id: Seq<char>,
)
    requires
        attrs::fits(source),
        xml::well_placed(source, tokens),
        0 <= pos < tokens.len(),
        r.value.target == IncludeTargetView::Local(id),
        ({
            let m = mapper::mapped(source, Dialect::Mybatis, tokens, pos).mapper;
            &&& !has_fragment(m.fragments, id)
            &&& (exists|i: int|
                0 <= i < m.statements.len() && (#[trigger] m.statements[i]).includes.contains(r))
                || (exists|i: int|
                0 <= i < m.fragments.len() && (#[trigger] m.fragments[i]).includes.contains(r))
        }),
    ensures
        reported(mapper::mapped(source, Dialect::Mybatis, tokens, pos).diagnostics, r.span),
{
    reveal(mapper::mapped);
    let namespace = attrs::tag_attr(source, mapper::token_span(tokens, pos), "namespace"@);
    let first = mapper::empty_build(namespace.diagnostics);
    let start = xml::token_start(tokens, pos);
    assert(knows_its_fragments(first));
    lemma_built_fragments(source, Dialect::Mybatis, tokens, pos + 1, start, None, first);
    let build = mapper::built(source, Dialect::Mybatis, tokens, pos + 1, start, None, first).build;
    let ids = build.fragment_ids;
    assert(!ids.contains(id));
    let a = mapper::dangling_in_statements(build.statements, ids, build.statements.len() as int);
    let b = mapper::dangling_in_fragments(build.fragments, ids, build.fragments.len() as int);
    let all = build.diagnostics + a + b;
    lemma_parts(build.diagnostics, a);
    lemma_parts(build.diagnostics + a, b);
    if exists|i: int|
        0 <= i < build.statements.len() && (#[trigger] build.statements[i]).includes.contains(r) {
        let i = choose|i: int|
            0 <= i < build.statements.len() && (#[trigger] build.statements[i]).includes.contains(r);
        let list = build.statements[i].includes;
        let k = choose|k: int| 0 <= k < list.len() && list[k] == r;
        law_just_the_unresolved_are_reported(list, ids, list.len() as int);
        assert(list[k].value.target == IncludeTargetView::Local(id));
        lemma_statement_reported(
            build.statements,
            ids,
            build.statements.len() as int,
            i,
            r.span,
        );
        lemma_reported(a, build.diagnostics + a, r.span);
        lemma_reported(build.diagnostics + a, all, r.span);
    } else {
        let i = choose|i: int|
            0 <= i < build.fragments.len() && (#[trigger] build.fragments[i]).includes.contains(r);
        let list = build.fragments[i].includes;
        let k = choose|k: int| 0 <= k < list.len() && list[k] == r;
        law_just_the_unresolved_are_reported(list, ids, list.len() as int);
        assert(list[k].value.target == IncludeTargetView::Local(id));
        lemma_fragment_reported(build.fragments, ids, build.fragments.len() as int, i, r.span);
        lemma_reported(b, all, r.span);
    }
    mapper::law_every_report_is_kept(all, all.len() as int);
    let j = choose|j: int|
        0 <= j < all.len() && (#[trigger] all[j]).code == DiagCode::DanglingRefid && all[j].span
            == Some(r.span);
    let kept = mapper::deduped(all, all.len() as int);
    let i = choose|i: int|
        0 <= i < kept.len() && (#[trigger] kept[i]).code == all[j].code && kept[i].span
            == all[j].span;
    assert(kept[i].code == DiagCode::DanglingRefid);
}

} // verus!
