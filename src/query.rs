use vstd::prelude::*;
use crate::resolve::{Selection, Value, entity_exceeds, resolve_entity, resolved_entity};
use crate::store::{
    BlockElement, Blockquote, Element, ErrorKind, Page, Store, is_blockquote, is_page,
};

verus! {

/// The entity a query starts from, named by its root query and identity.
#[derive(Clone, Copy, Debug, PartialEq, Eq, Structural)]
pub enum Root {
    Page(usize),
    Element(usize),
    BlockElement(usize),
    Blockquote(usize),
}

pub open spec fn root_id(r: Root) -> usize {
    match r {
        Root::Page(id) => id,
        Root::Element(id) => id,
        Root::BlockElement(id) => id,
        Root::Blockquote(id) => id,
    }
}

/// Whether the root names an entity of the kind its query asks for.
pub open spec fn root_found(ents: Seq<crate::store::Entity>, r: Root) -> bool {
    match r {
        Root::Page(id) => is_page(ents, id as int),
        _ => is_blockquote(ents, root_id(r) as int),
    }
}

/// The query interface: root lookups, and resolution of selections from a
/// root with expansion depth bounded by `max_depth`.
pub struct Query {
    pub max_depth: usize,
}

impl Query {
    pub fn new(max_depth: usize) -> (r: Query)
        ensures
            r.max_depth == max_depth,
    {
        Query { max_depth }
    }

    pub fn page(&self, st: &Store, id: usize) -> (r: Result<Page, ErrorKind>)
        requires
            st.wf(),
        ensures
            is_page(st@, id as int) ==> r == Ok::<Page, ErrorKind>(Page { id }),
            !is_page(st@, id as int) ==> r == Err::<Page, ErrorKind>(ErrorKind::NotFound),
    {
        st.get_page(id)
    }

    pub fn block_element(&self, st: &Store, id: usize) -> (r: Result<BlockElement, ErrorKind>)
        ensures
            is_blockquote(st@, id as int) ==> r == Ok::<BlockElement, ErrorKind>(
                BlockElement::Blockquote(id),
            ),
            !is_blockquote(st@, id as int) ==> r == Err::<BlockElement, ErrorKind>(
                ErrorKind::NotFound,
            ),
    {
        match st.get_blockquote(id) {
            Ok(_) => Ok(BlockElement::Blockquote(id)),
            Err(k) => Err(k),
        }
    }

    pub fn element(&self, st: &Store, id: usize) -> (r: Result<Element, ErrorKind>)
        ensures
            is_blockquote(st@, id as int) ==> r == Ok::<Element, ErrorKind>(
                Element::Block(BlockElement::Blockquote(id)),
            ),
            !is_blockquote(st@, id as int) ==> r == Err::<Element, ErrorKind>(ErrorKind::NotFound),
    {
        match self.block_element(st, id) {
            Ok(b) => Ok(Element::Block(b)),
            Err(k) => Err(k),
        }
    }

    pub fn blockquote<'a>(&self, st: &'a Store, id: usize) -> (r: Result<&'a Blockquote, ErrorKind>)
        ensures
            is_blockquote(st@, id as int) ==> r is Ok && *r->Ok_0 == st@[id as int]->Blockquote_0,
            !is_blockquote(st@, id as int) ==> r == Err::<&Blockquote, ErrorKind>(
                ErrorKind::NotFound,
            ),
    {
        st.get_blockquote(id)
    }

    /// Resolves `sels` from `root`: `NotFound` if the root names no entity of
    /// its kind, `DepthExceeded` if the selection forces an expansion deeper
    /// than `max_depth`, and otherwise the resolved tree.
    pub fn execute(&self, st: &Store, root: Root, sels: &Vec<Selection>) -> (r: Result<
        Value,
        ErrorKind,
    >)
        requires
            st.wf(),
        ensures
            !root_found(st@, root) ==> r == Err::<Value, ErrorKind>(ErrorKind::NotFound),
            root_found(st@, root) ==> match r {
                Ok(v) => !entity_exceeds(st@, root_id(root), sels@, 0, self.max_depth as int)
                    && resolved_entity(st@, root_id(root), sels@, 0, self.max_depth as int, v),
                Err(k) => k == ErrorKind::DepthExceeded && entity_exceeds(
                    st@,
                    root_id(root),
                    sels@,
                    0,
                    self.max_depth as int,
                ),
            },
    {
        let id = match root {
            Root::Page(id) => {
                match st.get_page(id) {
                    Ok(_) => id,
                    Err(k) => {
                        return Err(k);
                    },
                }
            },
            Root::Element(id) | Root::BlockElement(id) | Root::Blockquote(id) => {
                match st.get_blockquote(id) {
                    Ok(_) => id,
                    Err(k) => {
                        return Err(k);
                    },
                }
            },
        };
        resolve_entity(st, id, sels, 0, self.max_depth)
    }
}

} // verus!
