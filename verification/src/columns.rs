//! The column mappings of a `<resultMap>`, said of bodies and their parts: which
//! elements give one, at which depth, and what is in it.
use crate::body;
use crate::body::SegmentView;
use crate::model::{ByteSpan, ColumnMappingView};
use crate::result_map::{after_column, cases, collected, nested, noted, Columns};
use crate::tags;
use crate::tags::DEPTH_LIMIT;
use vstd::prelude::*;
use vstd::string::*;

verus! {

/// The mappings of a body at a depth of nesting.
pub open spec fn mappings_in(source: Seq<u8>, segments: Seq<SegmentView>, depth: int) -> Seq<
    ColumnMappingView,
> {
    nested(
        source,
        segments,
        depth,
        Columns { mappings: Seq::empty(), diagnostics: Seq::empty() },
    ).mappings
}

/// The mappings of the segments from `k` on.
spec fn mappings_from(source: Seq<u8>, segments: Seq<SegmentView>, k: int, depth: int) -> Seq<
    ColumnMappingView,
> {
    collected(
        source,
        segments,
        k,
        depth,
        Columns { mappings: Seq::empty(), diagnostics: Seq::empty() },
    ).mappings
}

spec fn mappings_of_cases(source: Seq<u8>, segments: Seq<SegmentView>, k: int, depth: int) -> Seq<
    ColumnMappingView,
> {
    cases(
        source,
        segments,
        k,
        depth,
        Columns { mappings: Seq::empty(), diagnostics: Seq::empty() },
    ).mappings
}

/// What a body gives is added to what is there, whatever that is.
pub proof fn lemma_nested_adds(
    source: Seq<u8>,
    segments: Seq<SegmentView>,
    depth: int,
    columns: Columns,
)
    ensures
        nested(source, segments, depth, columns).mappings == columns.mappings + mappings_in(
            source,
            segments,
            depth,
        ),
    decreases DEPTH_LIMIT - depth, 2int, 0int,
{
    if depth < DEPTH_LIMIT {
        lemma_collected_adds(source, segments, 0, depth, columns);
    } else {
        assert(columns.mappings + Seq::<ColumnMappingView>::empty() =~= columns.mappings);
    }
}

proof fn lemma_collected_adds(
    source: Seq<u8>,
    segments: Seq<SegmentView>,
    k: int,
    depth: int,
    columns: Columns,
)
    requires
        depth < DEPTH_LIMIT,
        0 <= k,
    ensures
        collected(source, segments, k, depth, columns).mappings == columns.mappings
            + mappings_from(source, segments, k, depth),
    decreases DEPTH_LIMIT - depth, 1int, segments.len() - k,
{
    let none = Columns { mappings: Seq::empty(), diagnostics: Seq::empty() };
    if k < segments.len() {
        lemma_one_segment(source, segments[k], depth, columns);
        lemma_one_segment(source, segments[k], depth, none);
        let one = after_segment(source, segments[k], depth, none);
        let next = after_segment(source, segments[k], depth, columns);
        lemma_collected_adds(source, segments, k + 1, depth, next);
        lemma_collected_adds(source, segments, k + 1, depth, one);
        assert(none.mappings + one.mappings =~= one.mappings);
        assert(columns.mappings + one.mappings + mappings_from(source, segments, k + 1, depth)
            =~= columns.mappings + (one.mappings + mappings_from(
            source,
            segments,
            k + 1,
            depth,
        )));
    } else {
        assert(columns.mappings + Seq::<ColumnMappingView>::empty() =~= columns.mappings);
    }
}

/// `columns` after one segment of a body.
spec fn after_segment(source: Seq<u8>, segment: SegmentView, depth: int, columns: Columns) -> Columns {
    collected(source, seq![segment], 0, depth, columns)
}

proof fn lemma_one_segment(source: Seq<u8>, segment: SegmentView, depth: int, columns: Columns)
    requires
        depth < DEPTH_LIMIT,
    ensures
        after_segment(source, segment, depth, columns).mappings == columns.mappings
            + after_segment(
            source,
            segment,
            depth,
            Columns { mappings: Seq::empty(), diagnostics: Seq::empty() },
        ).mappings,
        forall|segments: Seq<SegmentView>, k: int|
            0 <= k < segments.len() && segments[k] == segment ==> #[trigger] collected(
                source,
                segments,
                k,
                depth,
                columns,
            ) == collected(
                source,
                segments,
                k + 1,
                depth,
                after_segment(source, segment, depth, columns),
            ),
    decreases DEPTH_LIMIT - depth, 1int, 0int,
{
    let none = Columns { mappings: Seq::empty(), diagnostics: Seq::empty() };
    let one = seq![segment];
    reveal_with_fuel(collected, 2);
    assert(one[0] == segment);
    match segment {
        SegmentView::Tag { name, span } => {
            let inner = body::subtree(source, span);
            if name == "id"@ || name == "result"@ {
                assert(after_column(source, columns, span).mappings =~= columns.mappings
                    + after_column(source, none, span).mappings);
            } else if name == "association"@ || name == "collection"@ {
                lemma_nested_adds(
                    source,
                    inner.segments,
                    depth + 1,
                    noted(columns, inner.diagnostics),
                );
                lemma_nested_adds(
                    source,
                    inner.segments,
                    depth + 1,
                    noted(none, inner.diagnostics),
                );
                assert(none.mappings + mappings_in(source, inner.segments, depth + 1)
                    =~= mappings_in(source, inner.segments, depth + 1));
            } else if name == "discriminator"@ {
                lemma_cases_add(
                    source,
                    inner.segments,
                    0,
                    depth,
                    noted(columns, inner.diagnostics),
                );
                lemma_cases_add(
                    source,
                    inner.segments,
                    0,
                    depth,
                    noted(none, inner.diagnostics),
                );
                assert(none.mappings + mappings_of_cases(source, inner.segments, 0, depth)
                    =~= mappings_of_cases(source, inner.segments, 0, depth));
            } else {
                assert(columns.mappings + none.mappings =~= columns.mappings);
            }
        },
        _ => {
            assert(columns.mappings + none.mappings =~= columns.mappings);
        },
    }
}

proof fn lemma_cases_add(
    source: Seq<u8>,
    segments: Seq<SegmentView>,
    k: int,
    depth: int,
    columns: Columns,
)
    requires
        depth < DEPTH_LIMIT,
    ensures
        cases(source, segments, k, depth, columns).mappings == columns.mappings
            + mappings_of_cases(source, segments, k, depth),
    decreases DEPTH_LIMIT - depth, 0int, segments.len() - k,
{
    let none = Columns { mappings: Seq::empty(), diagnostics: Seq::empty() };
    if k < segments.len() {
        let is_case = segments[k] matches SegmentView::Tag { name, .. } && name == "case"@;
        if is_case {
            let inner = body::subtree(source, body::segment_span(segments[k]));
            let more = mappings_in(source, inner.segments, depth + 1);
            lemma_nested_adds(source, inner.segments, depth + 1, noted(columns, inner.diagnostics));
            lemma_nested_adds(source, inner.segments, depth + 1, noted(none, inner.diagnostics));
            lemma_cases_add(
                source,
                segments,
                k + 1,
                depth,
                nested(source, inner.segments, depth + 1, noted(columns, inner.diagnostics)),
            );
            lemma_cases_add(
                source,
                segments,
                k + 1,
                depth,
                nested(source, inner.segments, depth + 1, noted(none, inner.diagnostics)),
            );
            assert(none.mappings + more =~= more);
            assert(columns.mappings + more + mappings_of_cases(source, segments, k + 1, depth)
                =~= columns.mappings + (more + mappings_of_cases(
                source,
                segments,
                k + 1,
                depth,
            )));
        } else {
            lemma_cases_add(source, segments, k + 1, depth, columns);
            lemma_cases_add(source, segments, k + 1, depth, none);
        }
    } else {
        assert(columns.mappings + Seq::<ColumnMappingView>::empty() =~= columns.mappings);
    }
}

proof fn lemma_mappings_split(
    source: Seq<u8>,
    a: Seq<SegmentView>,
    b: Seq<SegmentView>,
    k: int,
    depth: int,
)
    requires
        depth < DEPTH_LIMIT,
        0 <= k <= a.len() + b.len(),
    ensures
        k <= a.len() ==> mappings_from(source, a + b, k, depth) == mappings_from(
            source,
            a,
            k,
            depth,
        ) + mappings_from(source, b, 0, depth),
        k >= a.len() ==> mappings_from(source, a + b, k, depth) == mappings_from(
            source,
            b,
            k - a.len(),
            depth,
        ),
    decreases a.len() + b.len() - k,
{
    let none = Columns { mappings: Seq::empty(), diagnostics: Seq::empty() };
    let all = a + b;
    if k < all.len() {
        lemma_mappings_split(source, a, b, k + 1, depth);
        let step = after_segment(source, all[k], depth, none);
        lemma_one_segment(source, all[k], depth, none);
        lemma_collected_adds(source, all, k + 1, depth, step);
        if k < a.len() {
            assert(a[k] == all[k]);
            lemma_collected_adds(source, a, k + 1, depth, step);
            assert(mappings_from(source, all, k, depth) =~= mappings_from(source, a, k, depth)
                + mappings_from(source, b, 0, depth));
        } else {
            assert(b[k - a.len()] == all[k]);
            lemma_collected_adds(source, b, k - a.len() + 1, depth, step);
        }
        if k == a.len() {
            assert(mappings_from(source, a, k, depth) + mappings_from(source, b, 0, depth)
                =~= mappings_from(source, b, 0, depth));
        }
    } else if k == a.len() {
        assert(mappings_from(source, a, k, depth) + mappings_from(source, b, 0, depth)
            =~= Seq::empty());
    }
}

/// The mappings of a body are those of its parts, one after the other.
pub proof fn law_mappings_of_parts(
    source: Seq<u8>,
    a: Seq<SegmentView>,
    b: Seq<SegmentView>,
    depth: int,
)
    requires
        depth < DEPTH_LIMIT,
    ensures
        mappings_in(source, a + b, depth) == mappings_in(source, a, depth) + mappings_in(
            source,
            b,
            depth,
        ),
{
    lemma_mappings_split(source, a, b, 0, depth);
}

/// An `<id>` or a `<result>` gives one mapping at every depth, with its own
/// column and property.
pub proof fn law_column_gives_a_mapping(
    source: Seq<u8>,
    name: Seq<char>,
    span: ByteSpan,
    depth: int,
)
    requires
        depth < DEPTH_LIMIT,
        name == "id"@ || name == "result"@,
    ensures
        ({
            let all = mappings_in(source, seq![SegmentView::Tag { name, span }], depth);
            &&& all.len() == 1
            &&& all[0].column == tags::attr_opt(source, span, "column"@)
            &&& all[0].property == tags::attr_opt(source, span, "property"@)
        }),
{
    reveal_with_fuel(nested, 4);
}

/// What stands in an `<association>` or a `<collection>` gives the mappings that
/// it would give outside, one level deeper.
pub proof fn law_nested_mappings(source: Seq<u8>, name: Seq<char>, span: ByteSpan, depth: int)
    requires
        depth < DEPTH_LIMIT,
        name == "association"@ || name == "collection"@,
    ensures
        mappings_in(source, seq![SegmentView::Tag { name, span }], depth) == mappings_in(
            source,
            body::subtree(source, span).segments,
            depth + 1,
        ),
{
    reveal_with_fuel(nested, 4);
    lemma_names();
    let inner = body::subtree(source, span);
    let none = Columns { mappings: Seq::empty(), diagnostics: Seq::empty() };
    lemma_nested_adds(source, inner.segments, depth + 1, noted(none, inner.diagnostics));
    assert(none.mappings + mappings_in(source, inner.segments, depth + 1) =~= mappings_in(
        source,
        inner.segments,
        depth + 1,
    ));
}

proof fn lemma_names()
    ensures
        "id"@ != "association"@,
        "id"@ != "collection"@,
        "id"@ != "discriminator"@,
        "result"@ != "association"@,
        "result"@ != "collection"@,
        "result"@ != "discriminator"@,
        "association"@ != "discriminator"@,
        "collection"@ != "discriminator"@,
{
    reveal_strlit("id");
    reveal_strlit("result");
    reveal_strlit("association");
    reveal_strlit("collection");
    reveal_strlit("discriminator");
    assert("id"@.len() == 2 && "result"@.len() == 6 && "association"@.len() == 11
        && "collection"@.len() == 10 && "discriminator"@.len() == 13);
}

/// A `<discriminator>` gives the mappings of its `<case>`s, one after the other,
/// each what its body would give one level deeper.
pub proof fn law_discriminator_mappings(source: Seq<u8>, span: ByteSpan, depth: int)
    requires
        depth < DEPTH_LIMIT,
    ensures
        mappings_in(source, seq![SegmentView::Tag { name: "discriminator"@, span }], depth)
            == body::subtree(source, span).segments.map_values(
            |child: SegmentView|
                match child {
                    SegmentView::Tag { name, span } => if name == "case"@ {
                        mappings_in(source, body::subtree(source, span).segments, depth + 1)
                    } else {
                        Seq::empty()
                    },
                    _ => Seq::empty(),
                },
        ).flatten(),
{
    reveal_with_fuel(nested, 4);
    lemma_names();
    let inner = body::subtree(source, span);
    let none = Columns { mappings: Seq::empty(), diagnostics: Seq::empty() };
    lemma_cases_add(source, inner.segments, 0, depth, noted(none, inner.diagnostics));
    lemma_cases_flat(source, inner.segments, 0, depth);
    assert(inner.segments.skip(0) =~= inner.segments);
    assert(none.mappings + mappings_of_cases(source, inner.segments, 0, depth)
        =~= mappings_of_cases(source, inner.segments, 0, depth));
}

proof fn lemma_cases_flat(source: Seq<u8>, segments: Seq<SegmentView>, k: int, depth: int)
    requires
        depth < DEPTH_LIMIT,
        0 <= k <= segments.len(),
    ensures
        mappings_of_cases(source, segments, k, depth) == segments.skip(k).map_values(
            |child: SegmentView|
                match child {
                    SegmentView::Tag { name, span } => if name == "case"@ {
                        mappings_in(source, body::subtree(source, span).segments, depth + 1)
                    } else {
                        Seq::empty()
                    },
                    _ => Seq::empty(),
                },
        ).flatten(),
    decreases segments.len() - k,
{
    let f = |child: SegmentView|
        match child {
            SegmentView::Tag { name, span } => if name == "case"@ {
                mappings_in(source, body::subtree(source, span).segments, depth + 1)
            } else {
                Seq::empty()
            },
            _ => Seq::empty(),
        };
    let none = Columns { mappings: Seq::empty(), diagnostics: Seq::empty() };
    let lists = segments.skip(k).map_values(f);
    if k < segments.len() {
        lemma_cases_flat(source, segments, k + 1, depth);
        assert(lists.drop_first() =~= segments.skip(k + 1).map_values(f));
        assert(lists.first() == f(segments[k]));
        if segments[k] matches SegmentView::Tag { name, .. } && name == "case"@ {
            let inner = body::subtree(source, body::segment_span(segments[k]));
            let more = mappings_in(source, inner.segments, depth + 1);
            lemma_nested_adds(source, inner.segments, depth + 1, noted(none, inner.diagnostics));
            assert(none.mappings + more =~= more);
            lemma_cases_add(
                source,
                segments,
                k + 1,
                depth,
                nested(source, inner.segments, depth + 1, noted(none, inner.diagnostics)),
            );
            assert(f(segments[k]) == more);
        } else {
            assert(f(segments[k]) =~= Seq::empty());
            assert(mappings_of_cases(source, segments, k, depth) =~= f(segments[k])
                + mappings_of_cases(source, segments, k + 1, depth));
        }
    }
}

/// Any other element and any text give no mapping.
pub proof fn law_other_segments_map_nothing(source: Seq<u8>, segment: SegmentView, depth: int)
    requires
        segment matches SegmentView::Tag { name, .. } ==> name != "id"@ && name != "result"@ && name
            != "association"@ && name != "collection"@ && name != "discriminator"@,
    ensures
        mappings_in(source, seq![segment], depth).len() == 0,
{
    if depth < DEPTH_LIMIT {
        reveal_with_fuel(nested, 4);
    }
}

/// A way from a body down to an `<id>` or `<result>` at `span`: the positions of
/// the elements that lead there, each among the children of the one before.
pub open spec fn leads_to(
    source: Seq<u8>,
    segments: Seq<SegmentView>,
    route: Seq<int>,
    span: ByteSpan,
) -> bool
    decreases route.len(),
{
    if route.len() == 0 || !(0 <= route[0] < segments.len()) {
        false
    } else {
        match segments[route[0]] {
            SegmentView::Tag { name, span: at } => if name == "id"@ || name == "result"@ {
                route.len() == 1 && at == span
            } else if name == "association"@ || name == "collection"@ {
                leads_to(source, body::subtree(source, at).segments, route.skip(1), span)
            } else if name == "discriminator"@ && route.len() > 1 && 0 <= route[1]
                < body::subtree(source, at).segments.len() {
                match body::subtree(source, at).segments[route[1]] {
                    SegmentView::Tag { name: child, span: case } => child == "case"@ && leads_to(
                        source,
                        body::subtree(source, case).segments,
                        route.skip(2),
                        span,
                    ),
                    _ => false,
                }
            } else {
                false
            },
            _ => false,
        }
    }
}

/// Every `<id>` and `<result>` that can be reached gives its mapping, however
/// deep it stands within the cap.
pub proof fn law_every_column_is_mapped(
    source: Seq<u8>,
    segments: Seq<SegmentView>,
    route: Seq<int>,
    span: ByteSpan,
    depth: int,
)
    requires
        leads_to(source, segments, route, span),
        depth + route.len() <= DEPTH_LIMIT,
    ensures
        exists|k: int|
            0 <= k < mappings_in(source, segments, depth).len() && (#[trigger] mappings_in(
                source,
                segments,
                depth,
            )[k]).column == tags::attr_opt(source, span, "column"@) && mappings_in(
                source,
                segments,
                depth,
            )[k].property == tags::attr_opt(source, span, "property"@),
    decreases route.len(),
{
    let i = route[0];
    let a = segments.take(i);
    let b = seq![segments[i]];
    let c = segments.skip(i + 1);
    assert(segments =~= a + (b + c));
    law_mappings_of_parts(source, a, b + c, depth);
    law_mappings_of_parts(source, b, c, depth);
    let all = mappings_in(source, segments, depth);
    let own = mappings_in(source, b, depth);
    let base = mappings_in(source, a, depth).len() as int;
    assert forall|k: int| 0 <= k < own.len() implies all[base + k] == #[trigger] own[k] by {}
    let at = body::segment_span(segments[i]);
    let name = segments[i]->name;
    if name == "id"@ || name == "result"@ {
        law_column_gives_a_mapping(source, name, at, depth);
        assert(all[base + 0] == own[0]);
    } else if name == "association"@ || name == "collection"@ {
        law_nested_mappings(source, name, at, depth);
        law_every_column_is_mapped(
            source,
            body::subtree(source, at).segments,
            route.skip(1),
            span,
            depth + 1,
        );
        let k = choose|k: int|
            0 <= k < own.len() && (#[trigger] own[k]).column == tags::attr_opt(
                source,
                span,
                "column"@,
            ) && own[k].property == tags::attr_opt(source, span, "property"@);
        assert(all[base + k] == own[k]);
    } else {
        law_discriminator_mappings(source, at, depth);
        let inner = body::subtree(source, at).segments;
        let j = route[1];
        let case = body::subtree(source, body::segment_span(inner[j])).segments;
        law_every_column_is_mapped(source, case, route.skip(2), span, depth + 1);
        let deep = mappings_in(source, case, depth + 1);
        let k = choose|k: int|
            0 <= k < deep.len() && (#[trigger] deep[k]).column == tags::attr_opt(
                source,
                span,
                "column"@,
            ) && deep[k].property == tags::attr_opt(source, span, "property"@);
        let f = |child: SegmentView|
            match child {
                SegmentView::Tag { name, span } => if name == "case"@ {
                    mappings_in(source, body::subtree(source, span).segments, depth + 1)
                } else {
                    Seq::empty()
                },
                _ => Seq::empty(),
            };
        let lists = inner.map_values(f);
        assert(lists[j] == deep);
        lemma_flat_holds(lists, j, k);
        let at_k = choose|m: int| 0 <= m < own.len() && #[trigger] own[m] == deep[k];
        assert(all[base + at_k] == own[at_k]);
    }
}

proof fn lemma_flat_holds(lists: Seq<Seq<ColumnMappingView>>, j: int, k: int)
    requires
        0 <= j < lists.len(),
        0 <= k < lists[j].len(),
    ensures
        exists|m: int| 0 <= m < lists.flatten().len() && #[trigger] lists.flatten()[m] == lists[j][k],
    decreases lists.len(),
{
    let first = lists.first();
    let rest = lists.drop_first();
    assert(lists.flatten() == first + rest.flatten());
    if j == 0 {
        assert(lists.flatten()[k] == lists[j][k]);
    } else {
        lemma_flat_holds(rest, j - 1, k);
        let m = choose|m: int|
            0 <= m < rest.flatten().len() && #[trigger] rest.flatten()[m] == rest[j - 1][k];
        assert(lists.flatten()[first.len() + m] == rest.flatten()[m]);
    }
}

} // verus!
