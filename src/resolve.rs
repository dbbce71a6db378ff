use vstd::prelude::*;
use crate::store::{
    Blockquote, Element, Entity, ErrorKind, Store, contents_of, element_id, store_wf,
};
use crate::value::Region;

verus! {

/// The names of the scalar fields and edges of every entity kind.
#[derive(Clone, Copy, Debug, PartialEq, Eq, Structural)]
pub enum FieldName {
    Id,
    Region,
    Lines,
    PageId,
    Page,
    ParentId,
    Parent,
    ContentsIds,
    Contents,
}

/// One selected field; an edge may carry the selection to resolve on its target.
#[derive(Debug)]
pub struct Selection {
    pub field: FieldName,
    pub nested: Option<Vec<Selection>>,
}

/// A resolved value.
#[derive(Debug)]
pub enum Value {
    /// An optional edge with no target.
    Absent,
    /// The identity of an entity.
    Id(usize),
    /// The identities of several entities, in order.
    Ids(Vec<usize>),
    Region(Region),
    Lines(Vec<String>),
    /// An expanded entity: one entry per selected field, in selection order.
    Object(Vec<Entry>),
    /// The expanded targets of a many edge, in order.
    List(Vec<Value>),
    /// The marker of a subtree whose resolution failed.
    Failed(ErrorKind),
}

/// A field of an expanded entity with its resolved value.
#[derive(Debug)]
pub struct Entry {
    pub field: FieldName,
    pub value: Value,
}

/// The value of the `parent` edge resolved to identity only.
pub open spec fn parent_ref(p: Option<Element>) -> Value {
    match p {
        Some(e) => Value::Id(element_id(e)),
        None => Value::Absent,
    }
}

/// A scalar field: its value when selected without nesting, else a resolution failure.
pub open spec fn scalar_ok(sel: Selection, v: Value, expected: Value) -> bool {
    if sel.nested is None {
        v == expected
    } else {
        v == Value::Failed(ErrorKind::Resolution)
    }
}

pub open spec fn entry_is(e: Entry, f: FieldName, v: Value) -> bool {
    e.field == f && e.value == v
}

/// The full expansion of a blockquote reached through a deep edge with no
/// nested selection: its scalars, and its own edges to identity only.
pub open spec fn default_blockquote(b: Blockquote, v: Value) -> bool {
    v matches Value::Object(es) && {
        &&& es@.len() == 5
        &&& entry_is(es@[0], FieldName::Id, Value::Id(b.id))
        &&& entry_is(es@[1], FieldName::Region, Value::Region(b.region))
        &&& es@[2].field == FieldName::Lines
        &&& es@[2].value matches Value::Lines(l) && l@ == b.lines@
        &&& entry_is(es@[3], FieldName::Page, Value::Id(b.page))
        &&& entry_is(es@[4], FieldName::Parent, parent_ref(b.parent))
    }
}

/// `v` is the resolution of selection `sels` on entity `e` at depth `d`.
pub open spec fn resolved_entity(
    ents: Seq<Entity>,
    e: usize,
    sels: Seq<Selection>,
    d: int,
    max: int,
    v: Value,
) -> bool
    decreases max - d, 1int,
{
    v matches Value::Object(es) && es@.len() == sels.len() && forall|i: int|
        0 <= i < sels.len() ==> (#[trigger] es@[i]).field == sels[i].field && resolved_field(
            ents,
            e,
            sels[i],
            d,
            max,
            es@[i].value,
        )
}

/// `v` is the resolution of one selected field `sel` on entity `e` at depth `d`.
pub open spec fn resolved_field(
    ents: Seq<Entity>,
    e: usize,
    sel: Selection,
    d: int,
    max: int,
    v: Value,
) -> bool
    decreases max - d, 0int,
{
    match ents[e as int] {
        Entity::Page(p) => match sel.field {
            FieldName::Id => scalar_ok(sel, v, Value::Id(p.id)),
            FieldName::ContentsIds => if sel.nested is None {
                v matches Value::Ids(ids) && ids@ == contents_of(ents, p.id)
            } else {
                v == Value::Failed(ErrorKind::Resolution)
            },
            FieldName::Contents => {
                let cs = contents_of(ents, p.id);
                v matches Value::List(items) && items@.len() == cs.len() && forall|j: int|
                    0 <= j < cs.len() ==> match sel.nested {
                        None => default_blockquote(ents[cs[j] as int]->Blockquote_0, #[trigger] items@[j]),
                        Some(ns) => d < max && resolved_entity(ents, cs[j], ns@, d + 1, max, items@[j]),
                    }
            },
            _ => v == Value::Failed(ErrorKind::Resolution),
        },
        Entity::Blockquote(b) => match sel.field {
            FieldName::Id => scalar_ok(sel, v, Value::Id(b.id)),
            FieldName::Region => scalar_ok(sel, v, Value::Region(b.region)),
            FieldName::Lines => if sel.nested is None {
                v matches Value::Lines(l) && l@ == b.lines@
            } else {
                v == Value::Failed(ErrorKind::Resolution)
            },
            FieldName::PageId => scalar_ok(sel, v, Value::Id(b.page)),
            FieldName::ParentId => scalar_ok(sel, v, parent_ref(b.parent)),
            FieldName::Page => match sel.nested {
                None => v == Value::Id(b.page),
                Some(ns) => d < max && resolved_entity(ents, b.page, ns@, d + 1, max, v),
            },
            FieldName::Parent => match b.parent {
                None => v == Value::Absent,
                Some(el) => match sel.nested {
                    None => v == Value::Id(element_id(el)),
                    Some(ns) => d < max && resolved_entity(
                        ents,
                        element_id(el),
                        ns@,
                        d + 1,
                        max,
                        v,
                    ),
                },
            },
            _ => v == Value::Failed(ErrorKind::Resolution),
        },
    }
}

/// Resolving selection `sels` on entity `e` at depth `d` expands some entity
/// beyond depth `max`.
pub open spec fn entity_exceeds(
    ents: Seq<Entity>,
    e: usize,
    sels: Seq<Selection>,
    d: int,
    max: int,
) -> bool
    decreases max - d, 1int,
{
    exists|i: int| 0 <= i < sels.len() && field_exceeds(ents, e, #[trigger] sels[i], d, max)
}

/// Resolving one selected field `sel` on entity `e` at depth `d` expands some
/// entity beyond depth `max`.
pub open spec fn field_exceeds(ents: Seq<Entity>, e: usize, sel: Selection, d: int, max: int) -> bool
    decreases max - d, 0int,
{
    match sel.nested {
        None => false,
        Some(ns) => match ents[e as int] {
            Entity::Page(p) => if sel.field is Contents {
                let cs = contents_of(ents, p.id);
                cs.len() > 0 && if d >= max {
                    true
                } else {
                    exists|j: int| 0 <= j < cs.len() && entity_exceeds(ents, #[trigger] cs[j], ns@, d + 1, max)
                }
            } else {
                false
            },
            Entity::Blockquote(b) => if sel.field is Page {
                if d >= max {
                    true
                } else {
                    entity_exceeds(ents, b.page, ns@, d + 1, max)
                }
            } else if sel.field is Parent {
                match b.parent {
                    None => false,
                    Some(el) => if d >= max {
                        true
                    } else {
                        entity_exceeds(ents, element_id(el), ns@, d + 1, max)
                    },
                }
            } else {
                false
            },
        },
    }
}


fn scalar(sel: &Selection, v: Value) -> (r: Value)
    ensures
        scalar_ok(*sel, r, v),
{
    if sel.nested.is_none() {
        v
    } else {
        Value::Failed(ErrorKind::Resolution)
    }
}

fn copy_lines(lines: &Vec<String>) -> (r: Vec<String>)
    ensures
        r@ == lines@,
{
    let mut out: Vec<String> = Vec::new();
    let mut i: usize = 0;
    while i < lines.len()
        invariant
            i <= lines@.len(),
            out@ == lines@.subrange(0, i as int),
        decreases lines@.len() - i,
    {
        out.push(lines[i].clone());
        i = i + 1;
        proof {
            assert(out@ =~= lines@.subrange(0, i as int));
        }
    }
    proof {
        assert(out@ =~= lines@);
    }
    out
}

fn parent_value(p: Option<Element>) -> (r: Value)
    ensures
        r == parent_ref(p),
{
    match p {
        Some(e) => Value::Id(e.id()),
        None => Value::Absent,
    }
}

/// Expands a blockquote reached through a deep edge with no nested selection.
fn default_expansion(b: &Blockquote) -> (r: Value)
    ensures
        default_blockquote(*b, r),
{
    let mut es: Vec<Entry> = Vec::new();
    es.push(Entry { field: FieldName::Id, value: Value::Id(b.id) });
    es.push(Entry { field: FieldName::Region, value: Value::Region(b.region) });
    es.push(Entry { field: FieldName::Lines, value: Value::Lines(copy_lines(&b.lines)) });
    es.push(Entry { field: FieldName::Page, value: Value::Id(b.page) });
    es.push(Entry { field: FieldName::Parent, value: parent_value(b.parent) });
    Value::Object(es)
}

/// Resolves selection `sels` on entity `e` at depth `d`; expanding any entity
/// beyond depth `max` fails the whole resolution.
pub fn resolve_entity(st: &Store, e: usize, sels: &Vec<Selection>, d: usize, max: usize) -> (r:
    Result<Value, ErrorKind>)
    requires
        st.wf(),
        e < st@.len(),
        d <= max,
    ensures
        match r {
            Ok(v) => !entity_exceeds(st@, e, sels@, d as int, max as int) && resolved_entity(
                st@,
                e,
                sels@,
                d as int,
                max as int,
                v,
            ),
            Err(k) => k == ErrorKind::DepthExceeded && entity_exceeds(
                st@,
                e,
                sels@,
                d as int,
                max as int,
            ),
        },
    decreases max - d, 2int,
{
    let mut es: Vec<Entry> = Vec::new();
    let mut i: usize = 0;
    while i < sels.len()
        invariant
            st.wf(),
            e < st@.len(),
            d <= max,
            i <= sels@.len(),
            es@.len() == i,
            forall|k: int|
                0 <= k < i ==> (#[trigger] es@[k]).field == sels@[k].field && resolved_field(
                    st@,
                    e,
                    sels@[k],
                    d as int,
                    max as int,
                    es@[k].value,
                ) && !field_exceeds(st@, e, sels@[k], d as int, max as int),
        decreases sels@.len() - i,
    {
        let v = resolve_field(st, e, &sels[i], d, max);
        match v {
            Ok(v) => {
                es.push(Entry { field: sels[i].field, value: v });
            },
            Err(k) => {
                proof {
                    assert(field_exceeds(st@, e, sels@[i as int], d as int, max as int));
                }
                return Err(k);
            },
        }
        i = i + 1;
    }
    proof {
        assert forall|k: int| 0 <= k < sels@.len() implies !field_exceeds(
            st@,
            e,
            #[trigger] sels@[k],
            d as int,
            max as int,
        ) by {
            assert(es@[k].field == sels@[k].field);
            assert(resolved_field(st@, e, sels@[k], d as int, max as int, es@[k].value));
        }
    }
    Ok(Value::Object(es))
}

/// Expands the target `t` of an explicitly selected edge one level deeper.
fn expand(st: &Store, t: usize, ns: &Vec<Selection>, d: usize, max: usize) -> (r: Result<
    Value,
    ErrorKind,
>)
    requires
        st.wf(),
        t < st@.len(),
        d <= max,
    ensures
        match r {
            Ok(v) => d < max && !entity_exceeds(st@, t, ns@, d + 1, max as int) && resolved_entity(
                st@,
                t,
                ns@,
                d + 1,
                max as int,
                v,
            ),
            Err(k) => k == ErrorKind::DepthExceeded && (d >= max || entity_exceeds(
                st@,
                t,
                ns@,
                d + 1,
                max as int,
            )),
        },
    decreases max - d, 0int,
{
    if d >= max {
        Err(ErrorKind::DepthExceeded)
    } else {
        resolve_entity(st, t, ns, d + 1, max)
    }
}

/// Resolves one selected field `sel` on entity `e` at depth `d`.
pub fn resolve_field(st: &Store, e: usize, sel: &Selection, d: usize, max: usize) -> (r: Result<
    Value,
    ErrorKind,
>)
    requires
        st.wf(),
        e < st@.len(),
        d <= max,
    ensures
        match r {
            Ok(v) => !field_exceeds(st@, e, *sel, d as int, max as int) && resolved_field(
                st@,
                e,
                *sel,
                d as int,
                max as int,
                v,
            ),
            Err(k) => k == ErrorKind::DepthExceeded && field_exceeds(
                st@,
                e,
                *sel,
                d as int,
                max as int,
            ),
        },
    decreases max - d, 1int,
{
    // the store's length fits in usize, which the lemmas on contents need
    let count = st.len();
    proof {
        assert(st@.len() == count);
        assert(store_wf(st@));
    }
    match st.entity(e) {
        Entity::Page(p) => match sel.field {
            FieldName::Id => Ok(scalar(sel, Value::Id(p.id))),
            FieldName::ContentsIds => {
                if sel.nested.is_none() {
                    Ok(Value::Ids(st.contents_ids(p.id)))
                } else {
                    Ok(Value::Failed(ErrorKind::Resolution))
                }
            },
            FieldName::Contents => {
                let cs = st.contents_ids(p.id);
                proof {
                    crate::store::lemma_contents_members(st@, p.id, st@.len());
                }
                let mut items: Vec<Value> = Vec::new();
                let mut j: usize = 0;
                while j < cs.len()
                    invariant
                        st.wf(),
                        e < st@.len(),
                        d <= max,
                        st@[e as int] == Entity::Page(*p),
                        sel.field is Contents,
                        cs@ == contents_of(st@, p.id),
                        forall|k: int|
                            0 <= k < cs@.len() ==> {
                                let c = #[trigger] cs@[k];
                                &&& c < st@.len()
                                &&& st@[c as int] is Blockquote
                            },
                        j <= cs@.len(),
                        items@.len() == j,
                        forall|k: int|
                            #![trigger items@[k]]
                            0 <= k < j ==> match sel.nested {
                                None => default_blockquote(
                                    st@[cs@[k] as int]->Blockquote_0,
                                    items@[k],
                                ),
                                Some(ns) => d < max && resolved_entity(
                                    st@,
                                    cs@[k],
                                    ns@,
                                    d + 1,
                                    max as int,
                                    items@[k],
                                ) && !entity_exceeds(st@, cs@[k], ns@, d + 1, max as int),
                            },
                    decreases cs@.len() - j,
                {
                    let c = cs[j];
                    assert(cs@[j as int] == c);
                    match &sel.nested {
                        None => {
                            match st.entity(c) {
                                Entity::Blockquote(b) => {
                                    items.push(default_expansion(b));
                                },
                                Entity::Page(_) => {
                                    assert(false);
                                },
                            }
                        },
                        Some(ns) => {
                            match expand(st, c, ns, d, max) {
                                Ok(v) => {
                                    items.push(v);
                                },
                                Err(k) => {
                                    proof {
                                        let cs_s = contents_of(st@, p.id);
                                        assert(cs_s[j as int] == c);
                                        assert(cs_s.len() > 0);
                                        if d < max {
                                            assert(entity_exceeds(st@, cs_s[j as int], ns@, d + 1, max as int));
                                        }
                                        assert(field_exceeds(st@, e, *sel, d as int, max as int));
                                    }
                                    return Err(k);
                                },
                            }
                        },
                    }
                    j = j + 1;
                }
                proof {
                    if sel.nested is Some {
                        let ns = sel.nested->Some_0;
                        if cs@.len() > 0 {
                            let it = items@[0];
                            assert(d < max);
                        }
                        assert forall|k: int| 0 <= k < cs@.len() implies !entity_exceeds(
                            st@,
                            #[trigger] cs@[k],
                            ns@,
                            d + 1,
                            max as int,
                        ) by {
                            let it = items@[k];
                            assert(resolved_entity(st@, cs@[k], ns@, d + 1, max as int, it));
                        }
                    }
                }
                Ok(Value::List(items))
            },
            _ => Ok(Value::Failed(ErrorKind::Resolution)),
        },
        Entity::Blockquote(b) => match sel.field {
            FieldName::Id => Ok(scalar(sel, Value::Id(b.id))),
            FieldName::Region => Ok(scalar(sel, Value::Region(b.region))),
            FieldName::Lines => {
                if sel.nested.is_none() {
                    Ok(Value::Lines(copy_lines(&b.lines)))
                } else {
                    Ok(Value::Failed(ErrorKind::Resolution))
                }
            },
            FieldName::PageId => Ok(scalar(sel, Value::Id(b.page))),
            FieldName::ParentId => Ok(scalar(sel, parent_value(b.parent))),
            FieldName::Page => match &sel.nested {
                None => Ok(Value::Id(b.page)),
                Some(ns) => expand(st, b.page, ns, d, max),
            },
            FieldName::Parent => match b.parent {
                None => Ok(Value::Absent),
                Some(el) => match &sel.nested {
                    None => Ok(Value::Id(el.id())),
                    Some(ns) => expand(st, el.id(), ns, d, max),
                },
            },
            _ => Ok(Value::Failed(ErrorKind::Resolution)),
        },
    }
}

} // verus!
