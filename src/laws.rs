use vstd::prelude::*;
use crate::resolve::{
    FieldName, Selection, Value, field_exceeds, resolved_entity, resolved_field,
};
use crate::store::{Entity, contents_of, element_id, is_blockquote, is_page, store_wf};

verus! {

/// `v` has the shape of selection `sels`: an object with one entry per
/// selected field, in order and under the same names, each mirroring its
/// field's nested selection.
pub open spec fn mirrors(sels: Seq<Selection>, v: Value, d: int, max: int) -> bool
    decreases max - d, 1int,
{
    v matches Value::Object(es) && es@.len() == sels.len() && forall|i: int|
        0 <= i < sels.len() ==> (#[trigger] es@[i]).field == sels[i].field && field_mirrors(
            sels[i],
            es@[i].value,
            d,
            max,
        )
}

/// A field without a nested selection resolves to a leaf or to a list of
/// default expansions; one with a nested selection resolves to an object or
/// a list of objects mirroring it, to the absent marker, or to a failure marker.
pub open spec fn field_mirrors(sel: Selection, v: Value, d: int, max: int) -> bool
    decreases max - d, 0int,
{
    match sel.nested {
        None => !(v is Object),
        Some(ns) => {
            ||| v is Absent
            ||| v is Failed
            ||| (d < max && mirrors(ns@, v, d + 1, max))
            ||| (v is List && forall|j: int|
                0 <= j < v->List_0@.len() ==> d < max && mirrors(
                    ns@,
                    #[trigger] v->List_0@[j],
                    d + 1,
                    max,
                ))
        },
    }
}

/// The result of a resolution has the shape of its selection.
pub proof fn lemma_result_mirrors_selection(
    ents: Seq<Entity>,
    e: usize,
    sels: Seq<Selection>,
    d: int,
    max: int,
    v: Value,
)
    requires
        store_wf(ents),
        ents.len() <= usize::MAX,
        e < ents.len(),
        resolved_entity(ents, e, sels, d, max, v),
    ensures
        mirrors(sels, v, d, max),
    decreases max - d, 1int,
{
    let es = v->Object_0;
    assert forall|i: int| 0 <= i < sels.len() implies (#[trigger] es@[i]).field == sels[i].field
        && field_mirrors(sels[i], es@[i].value, d, max) by {
        assert(es@[i].field == sels[i].field);
        lemma_field_mirrors(ents, e, sels[i], d, max, es@[i].value);
    }
}

/// The result of resolving one field has the shape of its nested selection.
pub proof fn lemma_field_mirrors(
    ents: Seq<Entity>,
    e: usize,
    sel: Selection,
    d: int,
    max: int,
    v: Value,
)
    requires
        store_wf(ents),
        ents.len() <= usize::MAX,
        e < ents.len(),
        resolved_field(ents, e, sel, d, max, v),
    ensures
        field_mirrors(sel, v, d, max),
    decreases max - d, 0int,
{
    match ents[e as int] {
        Entity::Page(p) => {
            if sel.field is Contents {
                if let Some(ns) = sel.nested {
                    let cs = contents_of(ents, p.id);
                    crate::store::lemma_contents_members(ents, p.id, ents.len());
                    assert forall|j: int| 0 <= j < v->List_0@.len() implies d < max && mirrors(
                        ns@,
                        #[trigger] v->List_0@[j],
                        d + 1,
                        max,
                    ) by {
                        let c = cs[j];
                        assert(c < ents.len());
                        lemma_result_mirrors_selection(ents, c, ns@, d + 1, max, v->List_0@[j]);
                    }
                    if v->List_0@.len() > 0 {
                        let first = v->List_0@[0];
                        assert(d < max);
                    }
                }
            }
        },
        Entity::Blockquote(b) => {
            if let Some(ns) = sel.nested {
                if sel.field is Page {
                    lemma_result_mirrors_selection(ents, b.page, ns@, d + 1, max, v);
                } else if sel.field is Parent {
                    if let Some(el) = b.parent {
                        lemma_result_mirrors_selection(ents, element_id(el), ns@, d + 1, max, v);
                    }
                }
            }
        },
    }
}

/// Resolving the `parent` edge of a blockquote that has no parent yields the
/// absent marker, with or without a nested selection, and never fails.
pub proof fn lemma_absent_parent(
    ents: Seq<Entity>,
    e: usize,
    sel: Selection,
    d: int,
    max: int,
    v: Value,
)
    requires
        is_blockquote(ents, e as int),
        ents[e as int]->Blockquote_0.parent is None,
        sel.field is Parent,
        resolved_field(ents, e, sel, d, max, v),
    ensures
        v is Absent,
        !field_exceeds(ents, e, sel, d, max),
{
}

/// Resolving `contents` on a page with no blocks yields an empty sequence,
/// with or without a nested selection, and never fails.
pub proof fn lemma_empty_contents(
    ents: Seq<Entity>,
    e: usize,
    sel: Selection,
    d: int,
    max: int,
    v: Value,
)
    requires
        is_page(ents, e as int),
        store_wf(ents),
        contents_of(ents, e) == Seq::<usize>::empty(),
        sel.field is Contents,
        resolved_field(ents, e, sel, d, max, v),
    ensures
        v matches Value::List(items) && items@.len() == 0,
        !field_exceeds(ents, e, sel, d, max),
{
}

/// A shallow edge (`parent`, `page`) selected without a nested selection
/// yields only its target's identity; selected with one, it yields the
/// target expanded by that selection one level deeper.
pub proof fn lemma_shallow_edge(
    ents: Seq<Entity>,
    e: usize,
    sel: Selection,
    d: int,
    max: int,
    v: Value,
)
    requires
        is_blockquote(ents, e as int),
        sel.field is Parent || sel.field is Page,
        sel.field is Parent ==> ents[e as int]->Blockquote_0.parent is Some,
        resolved_field(ents, e, sel, d, max, v),
    ensures
        ({
            let b = ents[e as int]->Blockquote_0;
            let target = if sel.field is Page {
                b.page
            } else {
                element_id(b.parent->Some_0)
            };
            match sel.nested {
                None => v == Value::Id(target),
                Some(ns) => d < max && resolved_entity(ents, target, ns@, d + 1, max, v),
            }
        }),
{
}


/// Explicitly expanding an edge that has a target, from an entity already at
/// the maximum depth, makes the whole resolution fail with `DepthExceeded`
/// (see `Query::execute`), however long the cycle of edges being followed.
pub proof fn lemma_depth_ceiling(ents: Seq<Entity>, e: usize, sel: Selection, d: int, max: int)
    requires
        d >= max,
        sel.nested is Some,
        is_blockquote(ents, e as int) ==> (sel.field is Page || (sel.field is Parent
            && ents[e as int]->Blockquote_0.parent is Some)),
        is_page(ents, e as int) ==> sel.field is Contents && contents_of(
            ents,
            ents[e as int]->Page_0.id,
        ).len() > 0,
        e < ents.len(),
    ensures
        field_exceeds(ents, e, sel, d, max),
{
}

} // verus!
