//! `<include>` references: collecting, merging and checking them.
use crate::attrs;
use crate::attrs::{diagnostic, read_tag_attr};
use crate::body;
use crate::body::{BodySegment, SegmentView};
use crate::model;
use crate::model::{
    ByteSpan, DiagCode, Diagnostic, DiagnosticView, Dialect, IncludeRef, IncludeRefView,
    IncludeTarget, IncludeTargetView, Spanned,
};
use crate::tags;
use crate::tags::{classify_include, Room};
use crate::text::{concat3, str_eq};
use vstd::prelude::*;
use vstd::string::*;
use vstd::utf8::*;

verus! {

// ---- collecting ---------------------------------------------------------

/// References and what was wrong with them.
pub struct Lifted {
    pub includes: Seq<Spanned<IncludeRefView>>,
    pub diagnostics: Seq<DiagnosticView>,
}

pub open spec fn missing_refid(span: ByteSpan) -> DiagnosticView {
    DiagnosticView {
        code: DiagCode::DanglingRefid,
        span: Some(span),
        message: "<include> is missing a refid attribute"@,
    }
}

/// What one segment contributes. A missing `refid` is reported for MyBatis
/// only.
pub open spec fn lifted_one(source: Seq<u8>, dialect: Dialect, segment: SegmentView) -> Lifted {
    match segment {
        SegmentView::Tag { name, span } => if name == "include"@ {
            let read = attrs::tag_attr(source, span, "refid"@);
            match read.value {
                Some(refid) => Lifted {
                    includes: seq![tags::include_ref(refid.value, dialect, span)],
                    diagnostics: read.diagnostics,
                },
                None => Lifted {
                    includes: Seq::empty(),
                    diagnostics: if dialect == Dialect::Mybatis {
                        read.diagnostics.push(missing_refid(span))
                    } else {
                        read.diagnostics
                    },
                },
            }
        } else {
            Lifted { includes: Seq::empty(), diagnostics: Seq::empty() }
        },
        _ => Lifted { includes: Seq::empty(), diagnostics: Seq::empty() },
    }
}

/// The references among the first `n` segments of a body.
pub open spec fn lifted(
    source: Seq<u8>,
    dialect: Dialect,
    segments: Seq<SegmentView>,
    n: int,
) -> Lifted
    decreases n,
{
    if n <= 0 {
        Lifted { includes: Seq::empty(), diagnostics: Seq::empty() }
    } else {
        let before = lifted(source, dialect, segments, n - 1);
        let one = lifted_one(source, dialect, segments[n - 1]);
        Lifted {
            includes: before.includes + one.includes,
            diagnostics: before.diagnostics + one.diagnostics,
        }
    }
}

/// Collects the references of a body that stand directly in it.
pub fn lift_includes(
    source: &str,
    dialect: Dialect,
    segments: &Vec<BodySegment>,
    Ghost(room): Ghost<Room>,
) -> (r: (Vec<Spanned<IncludeRef>>, Vec<Diagnostic>))
    requires
        attrs::fits(source.spec_bytes()),
        body::segments_in(source.spec_bytes(), model::deep(segments@)),
        tags::segments_within(model::deep(segments@), room),
    ensures
        ({
            let all = lifted(
                source.spec_bytes(),
                dialect,
                model::deep(segments@),
                segments@.len() as int,
            );
            &&& model::deep(r.0@) == all.includes
            &&& model::deep(r.1@) == all.diagnostics
            &&& tags::includes_in(all.includes, room)
            &&& body::spans_in(all.diagnostics, source.spec_bytes().len() as int)
        }),
{
    broadcast use model::group_deep;

    let ghost bytes = source.spec_bytes();
    let ghost len = bytes.len() as int;
    let ghost views = model::deep(segments@);
    let mut includes: Vec<Spanned<IncludeRef>> = Vec::new();
    let mut diagnostics: Vec<Diagnostic> = Vec::new();
    let mut k: usize = 0;
    proof {
        encode_utf8_valid_utf8(source@);
        assert(model::deep(includes@) =~= Seq::empty());
        assert(model::deep(diagnostics@) =~= Seq::empty());
    }
    while k < segments.len()
        invariant
            bytes == source.spec_bytes(),
            valid_utf8(bytes),
            len == bytes.len(),
            attrs::fits(bytes),
            views == model::deep(segments@),
            body::segments_in(bytes, views),
            k <= segments@.len(),
            model::deep(includes@) == lifted(bytes, dialect, views, k as int).includes,
            model::deep(diagnostics@) == lifted(bytes, dialect, views, k as int).diagnostics,
            tags::segments_within(views, room),
            tags::includes_in(model::deep(includes@), room),
            body::spans_in(model::deep(diagnostics@), len),
        decreases segments@.len() - k,
    {
        let ghost before = lifted(bytes, dialect, views, k as int);
        let ghost one = lifted_one(bytes, dialect, views[k as int]);
        proof {
            assert(views[k as int] == segments@[k as int]@);
            assert(body::segment_in(bytes, views[k as int]));
            assert(tags::in_room(body::segment_span(views[k as int]), room));
        }
        if let BodySegment::DynamicTag { name, span } = &segments[k] {
            if str_eq(name.as_str(), "include") {
                proof {
                    tags::lemma_attr_spans(bytes, *span, "refid"@);
                }
                let (refid, mut more) = read_tag_attr(source, *span, "refid");
                let ghost read = model::deep(more@);
                diagnostics.append(&mut more);
                proof {
                    tags::lemma_spans_concat(before.diagnostics, read, len);
                }
                match refid {
                    Some(refid) => {
                        let target = classify_include(refid.value.as_str(), dialect);
                        includes.push(
                            Spanned { value: IncludeRef { raw: refid.value, target }, span: *span },
                        );
                    },
                    None => {
                        if dialect == Dialect::Mybatis {
                            diagnostics.push(
                                diagnostic(
                                    DiagCode::DanglingRefid,
                                    Some(*span),
                                    "<include> is missing a refid attribute".to_owned(),
                                ),
                            );
                        }
                    },
                }
            }
        }
        proof {
            assert(model::deep(includes@) =~= before.includes + one.includes);
            assert(model::deep(diagnostics@) =~= before.diagnostics + one.diagnostics);
        }
        k += 1;
    }
    (includes, diagnostics)
}

// ---- merging ------------------------------------------------------------

/// Whether one of the references has this span.
pub open spec fn has_span(includes: Seq<Spanned<IncludeRefView>>, span: ByteSpan) -> bool {
    exists|k: int| 0 <= k < includes.len() && (#[trigger] includes[k]).span == span
}

/// `top`, and those of the first `n` of `nested` whose spans are new.
pub open spec fn with_new(
    top: Seq<Spanned<IncludeRefView>>,
    nested: Seq<Spanned<IncludeRefView>>,
    n: int,
) -> Seq<Spanned<IncludeRefView>>
    decreases n,
{
    if n <= 0 {
        top
    } else {
        let before = with_new(top, nested, n - 1);
        if has_span(before, nested[n - 1].span) {
            before
        } else {
            before.push(nested[n - 1])
        }
    }
}

/// `list`, which is in document order, with `item` put in behind those that do
/// not start after it.
pub open spec fn put_in(
    list: Seq<Spanned<IncludeRefView>>,
    item: Spanned<IncludeRefView>,
) -> Seq<Spanned<IncludeRefView>>
    decreases list.len(),
{
    if list.len() == 0 || list.last().span.start <= item.span.start {
        list.push(item)
    } else {
        put_in(list.drop_last(), item).push(list.last())
    }
}

/// The first `n` references in document order; those that start together keep
/// their order.
pub open spec fn in_order(list: Seq<Spanned<IncludeRefView>>, n: int) -> Seq<
    Spanned<IncludeRefView>,
>
    decreases n,
{
    if n <= 0 {
        Seq::empty()
    } else {
        put_in(in_order(list, n - 1), list[n - 1])
    }
}

/// The references of a body: those that stand directly in it and those nested
/// in its tags, each place once, in document order.
pub open spec fn merged(
    top: Seq<Spanned<IncludeRefView>>,
    nested: Seq<Spanned<IncludeRefView>>,
) -> Seq<Spanned<IncludeRefView>> {
    let all = with_new(top, nested, nested.len() as int);
    in_order(all, all.len() as int)
}

pub open spec fn sorted(list: Seq<Spanned<IncludeRefView>>) -> bool {
    forall|i: int, j: int|
        0 <= i <= j < list.len() ==> (#[trigger] list[i]).span.start <= (
        #[trigger] list[j]).span.start
}

proof fn lemma_put_in(list: Seq<Spanned<IncludeRefView>>, item: Spanned<IncludeRefView>)
    requires
        sorted(list),
    ensures
        sorted(put_in(list, item)),
        put_in(list, item).to_multiset() == list.to_multiset().insert(item),
        put_in(list, item).len() == list.len() + 1,
        forall|k: int|
            0 <= k < put_in(list, item).len() ==> (#[trigger] put_in(list, item)[k]).span.start
                <= item.span.start || (list.len() > 0 && put_in(list, item)[k].span.start
                <= list.last().span.start),
    decreases list.len(),
{
    broadcast use vstd::seq_lib::group_to_multiset_ensures;

    if list.len() == 0 || list.last().span.start <= item.span.start {
        let r = list.push(item);
        assert forall|i: int, j: int| 0 <= i <= j < r.len() implies (#[trigger] r[i]).span.start
            <= (#[trigger] r[j]).span.start by {
            if j == list.len() && i < j {
                assert(list[i].span.start <= list[list.len() - 1].span.start);
            }
        }
        assert forall|k: int| 0 <= k < r.len() implies (#[trigger] r[k]).span.start
            <= item.span.start by {
            if k < list.len() {
                assert(list[k].span.start <= list[list.len() - 1].span.start);
            }
        }
    } else {
        let rest = list.drop_last();
        lemma_put_in(rest, item);
        let sub = put_in(rest, item);
        if rest.len() > 0 {
            assert(list[list.len() - 2].span.start <= list[list.len() - 1].span.start);
        }
        assert(list =~= rest.push(list.last()));
        assert(list.to_multiset() =~= rest.to_multiset().insert(list.last()));
        assert(sub.push(list.last()).to_multiset() =~= list.to_multiset().insert(item));
    }
}

/// The references of a body come in document order, and putting them in order
/// neither loses nor adds one.
pub proof fn law_document_order(list: Seq<Spanned<IncludeRefView>>, n: int)
    requires
        0 <= n <= list.len(),
    ensures
        sorted(in_order(list, n)),
        in_order(list, n).to_multiset() == list.take(n).to_multiset(),
        in_order(list, n).len() == n,
    decreases n,
{
    broadcast use vstd::seq_lib::group_to_multiset_ensures;

    if n > 0 {
        law_document_order(list, n - 1);
        lemma_put_in(in_order(list, n - 1), list[n - 1]);
        assert(list.take(n) =~= list.take(n - 1).push(list[n - 1]));
    } else {
        assert(list.take(0) =~= Seq::empty());
    }
}

/// No two of the merged references that come from nested tags share a place,
/// and none shares it with one that stands directly in the body.
pub proof fn law_each_place_once(
    top: Seq<Spanned<IncludeRefView>>,
    nested: Seq<Spanned<IncludeRefView>>,
    n: int,
    i: int,
    j: int,
)
    requires
        0 <= n <= nested.len(),
        0 <= i < j < with_new(top, nested, n).len(),
        top.len() <= j,
    ensures
        with_new(top, nested, n)[i].span != with_new(top, nested, n)[j].span,
    decreases n,
{
    if n > 0 {
        let before = with_new(top, nested, n - 1);
        if j < before.len() {
            law_each_place_once(top, nested, n - 1, i, j);
        } else {
            assert(!has_span(before, nested[n - 1].span));
            assert(before[i].span != nested[n - 1].span);
        }
    }
}

proof fn lemma_put_in_at(list: Seq<Spanned<IncludeRefView>>, item: Spanned<IncludeRefView>, p: int)
    requires
        0 <= p <= list.len(),
        p > 0 ==> list[p - 1].span.start <= item.span.start,
        forall|k: int| p <= k < list.len() ==> (#[trigger] list[k]).span.start > item.span.start,
    ensures
        put_in(list, item) == list.insert(p, item),
    decreases list.len(),
{
    if p < list.len() {
        assert(list.last().span.start > item.span.start);
        let rest = list.drop_last();
        lemma_put_in_at(rest, item, p);
        assert(list.insert(p, item) =~= rest.insert(p, item).push(list.last()));
    } else {
        assert(list.insert(p, item) =~= list.push(item));
    }
}

proof fn lemma_with_new_in(
    top: Seq<Spanned<IncludeRefView>>,
    nested: Seq<Spanned<IncludeRefView>>,
    n: int,
    room: Room,
)
    requires
        0 <= n <= nested.len(),
        tags::includes_in(top, room),
        tags::includes_in(nested, room),
    ensures
        tags::includes_in(with_new(top, nested, n), room),
    decreases n,
{
    if n > 0 {
        lemma_with_new_in(top, nested, n - 1, room);
        assert(tags::in_room(nested[n - 1].span, room));
    }
}

/// Merges the references found by two walks over a body.
pub fn merge_includes(
    top_level: Vec<Spanned<IncludeRef>>,
    nested: Vec<Spanned<IncludeRef>>,
    Ghost(room): Ghost<Room>,
) -> (r: Vec<Spanned<IncludeRef>>)
    requires
        tags::includes_in(model::deep(top_level@), room),
        tags::includes_in(model::deep(nested@), room),
    ensures
        model::deep(r@) == merged(model::deep(top_level@), model::deep(nested@)),
        tags::includes_in(model::deep(r@), room),
{
    let ghost a = model::deep(top_level@);
    let ghost b = model::deep(nested@);
    let mut all = top_level;
    let mut k: usize = 0;
    while k < nested.len()
        invariant
            k <= nested@.len(),
            b == model::deep(nested@),
            model::deep(all@) == with_new(a, b, k as int),
        decreases nested@.len() - k,
    {
        let item = copy_ref(&nested[k]);
        assert(b[k as int] == nested@[k as int]@);
        if !any_span(&all, item.span) {
            proof {
                model::deep_push(all@, item);
            }
            all.push(item);
        }
        k += 1;
    }
    let ghost views = model::deep(all@);
    let mut r: Vec<Spanned<IncludeRef>> = Vec::new();
    assert(model::deep(r@) =~= in_order(views, 0));
    k = 0;
    while k < all.len()
        invariant
            k <= all@.len(),
            views == model::deep(all@),
            model::deep(r@) == in_order(views, k as int),
        decreases all@.len() - k,
    {
        let item = copy_ref(&all[k]);
        assert(views[k as int] == all@[k as int]@);
        let ghost list = model::deep(r@);
        let mut p: usize = r.len();
        while p > 0 && r[p - 1].span.start > item.span.start
            invariant
                p <= r@.len(),
                list == model::deep(r@),
                forall|i: int|
                    p <= i < list.len() ==> (#[trigger] list[i]).span.start > item.span.start,
            decreases p,
        {
            assert(list[p - 1] == r@[p - 1]@);
            p -= 1;
        }
        proof {
            if p > 0 {
                assert(list[p - 1] == r@[p - 1]@);
            }
            lemma_put_in_at(list, item@, p as int);
            assert(model::deep(r@.insert(p as int, item)) =~= list.insert(p as int, item@));
        }
        r.insert(p, item);
        k += 1;
    }
    proof {
        lemma_with_new_in(a, b, b.len() as int, room);
        lemma_in_order_in(views, views.len() as int, room);
    }
    r
}

proof fn lemma_in_order_in(list: Seq<Spanned<IncludeRefView>>, n: int, room: Room)
    requires
        0 <= n <= list.len(),
        tags::includes_in(list, room),
    ensures
        tags::includes_in(in_order(list, n), room),
    decreases n,
{
    if n > 0 {
        lemma_in_order_in(list, n - 1, room);
        assert(tags::in_room(list[n - 1].span, room));
        lemma_put_in_in(in_order(list, n - 1), list[n - 1], room);
    }
}

proof fn lemma_put_in_in(list: Seq<Spanned<IncludeRefView>>, item: Spanned<IncludeRefView>, room: Room)
    requires
        tags::includes_in(list, room),
        tags::in_room(item.span, room),
    ensures
        tags::includes_in(put_in(list, item), room),
    decreases list.len(),
{
    if list.len() == 0 || list.last().span.start <= item.span.start {
    } else {
        assert(tags::in_room(list[list.len() - 1].span, room));
        lemma_put_in_in(list.drop_last(), item, room);
    }
}

fn any_span(includes: &Vec<Spanned<IncludeRef>>, span: ByteSpan) -> (r: bool)
    ensures
        r == has_span(model::deep(includes@), span),
{
    let ghost views = model::deep(includes@);
    let mut k: usize = 0;
    while k < includes.len()
        invariant
            k <= includes@.len(),
            views == model::deep(includes@),
            forall|i: int| 0 <= i < k ==> (#[trigger] views[i]).span != span,
        decreases includes@.len() - k,
    {
        assert(views[k as int] == includes@[k as int]@);
        if includes[k].span == span {
            return true;
        }
        k += 1;
    }
    false
}

fn copy_ref(item: &Spanned<IncludeRef>) -> (copy: Spanned<IncludeRef>)
    ensures
        copy@ == item@,
{
    let target = match &item.value.target {
        IncludeTarget::Local(id) => IncludeTarget::Local(id.clone()),
        IncludeTarget::Qualified { ns, id } => IncludeTarget::Qualified {
            ns: ns.clone(),
            id: id.clone(),
        },
        IncludeTarget::Dynamic => IncludeTarget::Dynamic,
    };
    Spanned { value: IncludeRef { raw: item.value.raw.clone(), target }, span: item.span }
}

// ---- checking -----------------------------------------------------------

pub open spec fn dangling_refid(include_ref: Spanned<IncludeRefView>) -> DiagnosticView {
    DiagnosticView {
        code: DiagCode::DanglingRefid,
        span: Some(include_ref.span),
        message: "<include refid=\""@ + include_ref.value.raw
            + "\"> has no matching <sql> fragment in this file"@,
    }
}

/// A local reference without a fragment of that id.
pub open spec fn is_dangling(
    include_ref: Spanned<IncludeRefView>,
    fragment_ids: Seq<Seq<char>>,
) -> bool {
    match include_ref.value.target {
        IncludeTargetView::Local(id) => !fragment_ids.contains(id),
        _ => false,
    }
}

/// The diagnostics of the first `n` references.
pub open spec fn dangling(
    includes: Seq<Spanned<IncludeRefView>>,
    fragment_ids: Seq<Seq<char>>,
    n: int,
) -> Seq<DiagnosticView>
    decreases n,
{
    if n <= 0 {
        Seq::empty()
    } else {
        let before = dangling(includes, fragment_ids, n - 1);
        if is_dangling(includes[n - 1], fragment_ids) {
            before.push(dangling_refid(includes[n - 1]))
        } else {
            before
        }
    }
}

/// A local reference is reported exactly where no fragment has its id, and at
/// its place.
pub proof fn law_dangling_is_reported(
    includes: Seq<Spanned<IncludeRefView>>,
    fragment_ids: Seq<Seq<char>>,
    n: int,
)
    requires
        0 <= n <= includes.len(),
    ensures
        forall|k: int|
            0 <= k < n && is_dangling(#[trigger] includes[k], fragment_ids) ==> dangling(
                includes,
                fragment_ids,
                n,
            ).contains(dangling_refid(includes[k])),
        forall|i: int|
            0 <= i < dangling(includes, fragment_ids, n).len() ==> exists|k: int|
                0 <= k < n && is_dangling(#[trigger] includes[k], fragment_ids)
                    && #[trigger] dangling(includes, fragment_ids, n)[i] == dangling_refid(
                    includes[k],
                ),
    decreases n,
{
    if n > 0 {
        law_dangling_is_reported(includes, fragment_ids, n - 1);
        let before = dangling(includes, fragment_ids, n - 1);
        let all = dangling(includes, fragment_ids, n);
        assert forall|k: int|
            0 <= k < n && is_dangling(#[trigger] includes[k], fragment_ids) implies all.contains(
            dangling_refid(includes[k]),
        ) by {
            if k < n - 1 {
                let i = choose|i: int|
                    0 <= i < before.len() && before[i] == dangling_refid(includes[k]);
                assert(all[i] == before[i]);
            } else {
                assert(all[all.len() - 1] == dangling_refid(includes[k]));
            }
        }
        assert forall|i: int| 0 <= i < all.len() implies exists|k: int|
            0 <= k < n && is_dangling(#[trigger] includes[k], fragment_ids)
                && #[trigger] all[i] == dangling_refid(includes[k]) by {
            if i < before.len() {
                assert(all[i] == before[i]);
            } else {
                assert(is_dangling(includes[n - 1], fragment_ids));
            }
        }
    }
}

/// Whether `id` is among `ids`.
pub fn has_id(ids: &Vec<String>, id: &str) -> (r: bool)
    ensures
        r == model::deep(ids@).contains(id@),
{
    let ghost views = model::deep(ids@);
    let mut k: usize = 0;
    while k < ids.len()
        invariant
            k <= ids@.len(),
            views == model::deep(ids@),
            forall|i: int| 0 <= i < k ==> (#[trigger] views[i]) != id@,
        decreases ids@.len() - k,
    {
        assert(views[k as int] == ids@[k as int]@);
        if str_eq(ids[k].as_str(), id) {
            return true;
        }
        k += 1;
    }
    false
}

/// Reports the local references that no fragment of this file answers.
pub fn check_dangling_local_refids(
    includes: &Vec<Spanned<IncludeRef>>,
    fragment_ids: &Vec<String>,
    diagnostics: &mut Vec<Diagnostic>,
    Ghost(room): Ghost<Room>,
    Ghost(len): Ghost<int>,
)
    requires
        tags::includes_in(model::deep(includes@), room),
        room.to <= len,
        body::spans_in(model::deep(old(diagnostics)@), len),
    ensures
        model::deep(final(diagnostics)@) == model::deep(old(diagnostics)@) + dangling(
            model::deep(includes@),
            model::deep(fragment_ids@),
            includes@.len() as int,
        ),
        body::spans_in(model::deep(final(diagnostics)@), len),
{
    broadcast use model::group_deep;

    let ghost views = model::deep(includes@);
    let ghost ids = model::deep(fragment_ids@);
    let ghost start = model::deep(diagnostics@);
    let mut k: usize = 0;
    assert(start + dangling(views, ids, 0) =~= start);
    while k < includes.len()
        invariant
            k <= includes@.len(),
            views == model::deep(includes@),
            ids == model::deep(fragment_ids@),
            start == model::deep(old(diagnostics)@),
            tags::includes_in(views, room),
            room.to <= len,
            model::deep(diagnostics@) == start + dangling(views, ids, k as int),
            body::spans_in(model::deep(diagnostics@), len),
        decreases includes@.len() - k,
    {
        let item = &includes[k];
        assert(views[k as int] == item@);
        assert(tags::in_room(views[k as int].span, room));
        if let IncludeTarget::Local(id) = &item.value.target {
            if !has_id(fragment_ids, id.as_str()) {
                let message = concat3(
                    "<include refid=\"",
                    item.value.raw.as_str(),
                    "\"> has no matching <sql> fragment in this file",
                );
                let d = diagnostic(DiagCode::DanglingRefid, Some(item.span), message);
                let ghost before = diagnostics@;
                diagnostics.push(d);
                proof {
                    model::deep_push(before, d);
                    assert(model::deep(diagnostics@) == model::deep(before).push(
                        dangling_refid(item@),
                    ));
                }
            }
        }
        assert(model::deep(diagnostics@) =~= start + dangling(views, ids, k + 1));
        k += 1;
    }
}

} // verus!
