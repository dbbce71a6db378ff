use vstd::prelude::*;
use crate::value::Region;

verus! {

/// The kinds of failure of construction, lookup and resolution.
#[derive(Clone, Copy, Debug, PartialEq, Eq, Structural)]
pub enum ErrorKind {
    /// A required field of a new entity was missing.
    Validation,
    /// A referenced identity is absent from the store, or names another kind.
    NotFound,
    /// A selection names a field or edge that the resolved kind does not have.
    Resolution,
    /// Resolution went deeper than the configured maximum.
    DepthExceeded,
}

/// The kinds of entity the store holds.
#[derive(Clone, Copy, Debug, PartialEq, Eq, Structural)]
pub enum EntityKind {
    Page,
    Blockquote,
}

/// The concrete block kinds.
#[derive(Clone, Copy, Debug, PartialEq, Eq, Structural)]
pub enum BlockKind {
    Blockquote,
}

/// A reference to a block of a page, tagged with its concrete kind.
#[derive(Clone, Copy, Debug, PartialEq, Eq, Structural)]
pub enum BlockElement {
    Blockquote(usize),
}

/// A reference to an element, tagged with its category.
#[derive(Clone, Copy, Debug, PartialEq, Eq, Structural)]
pub enum Element {
    Block(BlockElement),
}

/// A page: its body is the ordered sequence of blocks whose `page` edge names it.
#[derive(Clone, Copy, Debug, PartialEq, Eq, Structural)]
pub struct Page {
    pub id: usize,
}

/// A block-quote of a page.
#[derive(Clone, Debug, PartialEq, Eq)]
pub struct Blockquote {
    pub id: usize,
    pub region: Region,
    pub lines: Vec<String>,
    /// Page containing the blockquote
    pub page: usize,
    /// Parent element to this blockquote
    pub parent: Option<Element>,
}

/// An entity held by the store.
#[derive(Clone, Debug, PartialEq, Eq)]
pub enum Entity {
    Page(Page),
    Blockquote(Blockquote),
}

pub open spec fn block_id(b: BlockElement) -> usize {
    match b {
        BlockElement::Blockquote(id) => id,
    }
}

pub open spec fn element_id(e: Element) -> usize {
    match e {
        Element::Block(b) => block_id(b),
    }
}

impl BlockElement {
    pub fn kind(&self) -> (r: BlockKind)
        ensures
            r == BlockKind::Blockquote,
    {
        match self {
            BlockElement::Blockquote(_) => BlockKind::Blockquote,
        }
    }

    /// The identity of the wrapped entity.
    pub fn id(&self) -> (r: usize)
        ensures
            r == block_id(*self),
    {
        match self {
            BlockElement::Blockquote(id) => *id,
        }
    }

    /// The wrapped entity, looked up in `st`.
    pub fn as_concrete<'a>(&self, st: &'a Store) -> (r: Result<&'a Blockquote, ErrorKind>)
        ensures
            is_blockquote(st@, block_id(*self) as int) ==> r is Ok && *r->Ok_0 == st@[block_id(
                *self,
            ) as int]->Blockquote_0,
            !is_blockquote(st@, block_id(*self) as int) ==> r == Err::<&Blockquote, ErrorKind>(
                ErrorKind::NotFound,
            ),
    {
        st.get_blockquote(self.id())
    }
}

impl Element {
    pub fn kind(&self) -> (r: BlockKind)
        ensures
            r == BlockKind::Blockquote,
    {
        match self {
            Element::Block(b) => b.kind(),
        }
    }

    /// The identity of the wrapped entity.
    pub fn id(&self) -> (r: usize)
        ensures
            r == element_id(*self),
    {
        match self {
            Element::Block(b) => b.id(),
        }
    }

    /// The wrapped entity, looked up in `st`.
    pub fn as_concrete<'a>(&self, st: &'a Store) -> (r: Result<&'a Blockquote, ErrorKind>)
        ensures
            is_blockquote(st@, element_id(*self) as int) ==> r is Ok && *r->Ok_0 == st@[element_id(
                *self,
            ) as int]->Blockquote_0,
            !is_blockquote(st@, element_id(*self) as int) ==> r == Err::<&Blockquote, ErrorKind>(
                ErrorKind::NotFound,
            ),
    {
        match self {
            Element::Block(b) => b.as_concrete(st),
        }
    }
}

pub open spec fn has_kind(ents: Seq<Entity>, i: int, kind: EntityKind) -> bool {
    match kind {
        EntityKind::Page => is_page(ents, i),
        EntityKind::Blockquote => is_blockquote(ents, i),
    }
}

pub open spec fn is_page(ents: Seq<Entity>, i: int) -> bool {
    0 <= i < ents.len() && ents[i] is Page
}

pub open spec fn is_blockquote(ents: Seq<Entity>, i: int) -> bool {
    0 <= i < ents.len() && ents[i] is Blockquote
}

/// Each entity's identity is its place in the store, and each edge names an
/// earlier entity of the declared kind.
pub open spec fn store_wf(ents: Seq<Entity>) -> bool {
    forall|i: int|
        0 <= i < ents.len() ==> match #[trigger] ents[i] {
            Entity::Page(p) => p.id == i,
            Entity::Blockquote(b) => {
                &&& b.id == i
                &&& b.page < i
                &&& is_page(ents, b.page as int)
                &&& (b.parent matches Some(e) ==> element_id(e) < i && is_blockquote(
                    ents,
                    element_id(e) as int,
                ))
            },
        }
}

/// The blockquotes among the first `n` entities whose page is `p`, in order.
pub open spec fn contents_upto(ents: Seq<Entity>, p: usize, n: nat) -> Seq<usize>
    decreases n,
{
    if n == 0 || n > ents.len() {
        Seq::empty()
    } else {
        let prev = contents_upto(ents, p, (n - 1) as nat);
        match ents[n - 1] {
            Entity::Blockquote(b) => if b.page == p {
                prev.push((n - 1) as usize)
            } else {
                prev
            },
            Entity::Page(_) => prev,
        }
    }
}

/// The `contents` edge of page `p`: its blockquotes in order of creation.
pub open spec fn contents_of(ents: Seq<Entity>, p: usize) -> Seq<usize> {
    contents_upto(ents, p, ents.len())
}

impl Page {
    /// The identities of this page's blocks, in order.
    pub fn contents_ids(&self, st: &Store) -> (r: Vec<usize>)
        ensures
            r@ == contents_of(st@, self.id),
    {
        st.contents_ids(self.id)
    }

    /// This page's blocks, in order.
    pub fn contents(&self, st: &Store) -> (r: Vec<BlockElement>)
        ensures
            r@.len() == contents_of(st@, self.id).len(),
            forall|j: int|
                0 <= j < r@.len() ==> #[trigger] r@[j] == BlockElement::Blockquote(
                    contents_of(st@, self.id)[j],
                ),
    {
        let ids = st.contents_ids(self.id);
        let mut out: Vec<BlockElement> = Vec::new();
        let mut j: usize = 0;
        while j < ids.len()
            invariant
                ids@ == contents_of(st@, self.id),
                j <= ids@.len(),
                out@.len() == j,
                forall|k: int| 0 <= k < j ==> #[trigger] out@[k] == BlockElement::Blockquote(ids@[k]),
            decreases ids@.len() - j,
        {
            out.push(BlockElement::Blockquote(ids[j]));
            j = j + 1;
        }
        out
    }
}

impl Blockquote {
    /// Starts the fields of a new blockquote, none of them given yet.
    pub fn build() -> (r: BlockquoteFields)
        ensures
            r.region is None && r.lines is None && r.page is None && r.parent is None,
    {
        BlockquoteFields { region: None, lines: None, page: None, parent: None }
    }

    pub fn lines(&self) -> (r: &Vec<String>)
        ensures
            r@ == self.lines@,
    {
        &self.lines
    }

    pub fn page_id(&self) -> (r: usize)
        ensures
            r == self.page,
    {
        self.page
    }

    /// The page containing this blockquote.
    pub fn page(&self, st: &Store) -> (r: Result<Page, ErrorKind>)
        requires
            st.wf(),
            self.id < st@.len(),
            st@[self.id as int] == Entity::Blockquote(*self),
        ensures
            r == Ok::<Page, ErrorKind>(Page { id: self.page }),
    {
        st.get_page(self.page)
    }

    pub fn parent_id(&self) -> (r: Option<usize>)
        ensures
            r == (match self.parent {
                Some(e) => Some(element_id(e)),
                None => None::<usize>,
            }),
    {
        match self.parent {
            Some(e) => Some(e.id()),
            None => None,
        }
    }

    /// The parent element of this blockquote, if it has one.
    pub fn parent(&self) -> (r: Option<Element>)
        ensures
            r == self.parent,
    {
        self.parent
    }
}

/// The fields given for a new blockquote; a required one may be missing.
pub struct BlockquoteFields {
    pub region: Option<Region>,
    pub lines: Option<Vec<String>>,
    pub page: Option<usize>,
    pub parent: Option<Element>,
}

impl BlockquoteFields {
    pub fn region(self, region: Region) -> (r: BlockquoteFields)
        ensures
            r == (BlockquoteFields { region: Some(region), ..self }),
    {
        BlockquoteFields { region: Some(region), ..self }
    }

    pub fn lines(self, lines: Vec<String>) -> (r: BlockquoteFields)
        ensures
            r == (BlockquoteFields { lines: Some(lines), ..self }),
    {
        BlockquoteFields { lines: Some(lines), ..self }
    }

    pub fn page(self, page: usize) -> (r: BlockquoteFields)
        ensures
            r == (BlockquoteFields { page: Some(page), ..self }),
    {
        BlockquoteFields { page: Some(page), ..self }
    }

    pub fn parent(self, parent: Option<Element>) -> (r: BlockquoteFields)
        ensures
            r == (BlockquoteFields { parent, ..self }),
    {
        BlockquoteFields { parent, ..self }
    }

    /// Creates the blockquote in `st`; see `Store::create_blockquote`.
    pub fn finish(self, st: &mut Store) -> (r: Result<usize, ErrorKind>)
        requires
            old(st).wf(),
            old(st)@.len() < usize::MAX,
        ensures
            final(st).wf(),
            fields_missing(self) ==> r == Err::<usize, ErrorKind>(ErrorKind::Validation),
            !fields_missing(self) && edge_dangles(old(st)@, self) ==> r == Err::<usize, ErrorKind>(
                ErrorKind::NotFound,
            ),
            r is Err ==> final(st)@ == old(st)@,
            !fields_missing(self) && !edge_dangles(old(st)@, self) ==> {
                &&& r == Ok::<usize, ErrorKind>(old(st)@.len() as usize)
                &&& final(st)@ == old(st)@.push(
                    Entity::Blockquote(
                        Blockquote {
                            id: r->Ok_0,
                            region: self.region->Some_0,
                            lines: self.lines->Some_0,
                            page: self.page->Some_0,
                            parent: self.parent,
                        },
                    ),
                )
                &&& contents_of(final(st)@, self.page->Some_0) == contents_of(
                    old(st)@,
                    self.page->Some_0,
                ).push(r->Ok_0)
                &&& forall|q: usize|
                    q != self.page->Some_0 ==> contents_of(final(st)@, q) == contents_of(
                        old(st)@,
                        q,
                    )
            },
    {
        st.create_blockquote(self)
    }
}

/// Whether some required field of a new blockquote is missing.
pub open spec fn fields_missing(f: BlockquoteFields) -> bool {
    f.region is None || f.lines is None || f.page is None
}

/// Whether an edge of a new blockquote names no entity of the declared kind.
pub open spec fn edge_dangles(ents: Seq<Entity>, f: BlockquoteFields) -> bool {
    ||| !is_page(ents, f.page->Some_0 as int)
    ||| (f.parent matches Some(e) && !is_blockquote(ents, element_id(e) as int))
}

/// An arena of entities of every kind; an entity's identity is its index.
pub struct Store {
    entities: Vec<Entity>,
}

impl View for Store {
    type V = Seq<Entity>;

    closed spec fn view(&self) -> Seq<Entity> {
        self.entities@
    }
}


/// Every member of a page's contents is a blockquote of that page, and they
/// stand in increasing order.
pub proof fn lemma_contents_members(ents: Seq<Entity>, p: usize, n: nat)
    requires
        n <= ents.len(),
        n <= usize::MAX,
    ensures
        forall|j: int|
            0 <= j < contents_upto(ents, p, n).len() ==> {
                let c = #[trigger] contents_upto(ents, p, n)[j];
                &&& c < n
                &&& ents[c as int] is Blockquote
                &&& ents[c as int]->Blockquote_0.page == p
            },
    decreases n,
{
    if n > 0 {
        lemma_contents_members(ents, p, (n - 1) as nat);
        let prev = contents_upto(ents, p, (n - 1) as nat);
        let cur = contents_upto(ents, p, n);
        assert forall|j: int| 0 <= j < cur.len() implies {
            let c = #[trigger] cur[j];
            &&& c < n
            &&& ents[c as int] is Blockquote
            &&& ents[c as int]->Blockquote_0.page == p
        } by {
            match ents[n - 1] {
                Entity::Blockquote(b) => {
                    if b.page == p {
                        assert(cur == prev.push((n - 1) as usize));
                        if j < prev.len() {
                            assert(cur[j] == prev[j]);
                        }
                    } else {
                        assert(cur == prev);
                    }
                },
                Entity::Page(_) => {
                    assert(cur == prev);
                },
            }
        }
    }
}

/// Adding an entity leaves what is stored before it unchanged.
proof fn lemma_contents_push(ents: Seq<Entity>, e: Entity, p: usize, n: nat)
    requires
        n <= ents.len(),
    ensures
        contents_upto(ents.push(e), p, n) == contents_upto(ents, p, n),
    decreases n,
{
    if n > 0 {
        lemma_contents_push(ents, e, p, (n - 1) as nat);
    }
}

impl Store {
    pub open spec fn wf(&self) -> bool {
        store_wf(self@)
    }

    /// An empty store.
    pub fn new() -> (r: Store)
        ensures
            r@ == Seq::<Entity>::empty(),
            r.wf(),
    {
        Store { entities: Vec::new() }
    }

    /// The number of entities of every kind.
    pub fn len(&self) -> (r: usize)
        ensures
            r == self@.len(),
    {
        self.entities.len()
    }

    /// Creates a page with no blocks and returns its identity.
    pub fn create_page(&mut self) -> (r: usize)
        requires
            old(self).wf(),
            old(self)@.len() < usize::MAX,
        ensures
            final(self).wf(),
            r == old(self)@.len(),
            final(self)@ == old(self)@.push(Entity::Page(Page { id: r })),
            contents_of(final(self)@, r) == Seq::<usize>::empty(),
            forall|q: usize| q != r ==> contents_of(final(self)@, q) == contents_of(old(self)@, q),
    {
        let id = self.entities.len();
        let ghost before = self@;
        self.entities.push(Entity::Page(Page { id }));
        proof {
            let e = Entity::Page(Page { id });
            assert forall|q: usize| #[trigger] contents_of(self@, q) == contents_upto(before, q, before.len()) by {
                lemma_contents_push(before, e, q, before.len());
            }
            lemma_contents_members(before, id, before.len());
            if contents_upto(before, id, before.len()).len() > 0 {
                assert(contents_upto(before, id, before.len())[0] < before.len());
            }
            assert(store_wf(self@)) by {
                assert forall|i: int| 0 <= i < self@.len() implies match #[trigger] self@[i] {
                    Entity::Page(p) => p.id == i,
                    Entity::Blockquote(b) => {
                        &&& b.id == i
                        &&& b.page < i
                        &&& is_page(self@, b.page as int)
                        &&& (b.parent matches Some(e) ==> element_id(e) < i && is_blockquote(
                            self@,
                            element_id(e) as int,
                        ))
                    },
                } by {
                    if i < before.len() {
                        assert(self@[i] == before[i]);
                    }
                }
            }
        }
        id
    }

    /// Creates a blockquote of an existing page and returns its identity.
    pub fn create_blockquote(&mut self, fields: BlockquoteFields) -> (r: Result<usize, ErrorKind>)
        requires
            old(self).wf(),
            old(self)@.len() < usize::MAX,
        ensures
            final(self).wf(),
            fields_missing(fields) ==> r == Err::<usize, ErrorKind>(ErrorKind::Validation),
            !fields_missing(fields) && edge_dangles(old(self)@, fields) ==> r == Err::<usize, ErrorKind>(
                ErrorKind::NotFound,
            ),
            r is Err ==> final(self)@ == old(self)@,
            !fields_missing(fields) && !edge_dangles(old(self)@, fields) ==> {
                &&& r == Ok::<usize, ErrorKind>(old(self)@.len() as usize)
                &&& final(self)@ == old(self)@.push(
                    Entity::Blockquote(
                        Blockquote {
                            id: r->Ok_0,
                            region: fields.region->Some_0,
                            lines: fields.lines->Some_0,
                            page: fields.page->Some_0,
                            parent: fields.parent,
                        },
                    ),
                )
                &&& contents_of(final(self)@, fields.page->Some_0) == contents_of(
                    old(self)@,
                    fields.page->Some_0,
                ).push(r->Ok_0)
                &&& forall|q: usize|
                    q != fields.page->Some_0 ==> contents_of(final(self)@, q) == contents_of(
                        old(self)@,
                        q,
                    )
            },
    {
        let BlockquoteFields { region, lines, page, parent } = fields;
        let (region, lines, page) = match (region, lines, page) {
            (Some(region), Some(lines), Some(page)) => (region, lines, page),
            _ => {
                return Err(ErrorKind::Validation);
            },
        };
        let n = self.entities.len();
        if page >= n {
            return Err(ErrorKind::NotFound);
        }
        match &self.entities[page] {
            Entity::Page(_) => {},
            Entity::Blockquote(_) => {
                return Err(ErrorKind::NotFound);
            },
        }
        if let Some(e) = parent {
            let pid = e.id();
            if pid >= n {
                return Err(ErrorKind::NotFound);
            }
            match &self.entities[pid] {
                Entity::Blockquote(_) => {},
                Entity::Page(_) => {
                    return Err(ErrorKind::NotFound);
                },
            }
        }
        let ghost before = self@;
        let ghost b = Blockquote { id: n, region, lines, page, parent };
        self.entities.push(Entity::Blockquote(Blockquote { id: n, region, lines, page, parent }));
        proof {
            let e = Entity::Blockquote(b);
            assert(self@ == before.push(e));
            assert forall|q: usize|
                #[trigger] contents_upto(self@, q, before.len()) == contents_upto(
                    before,
                    q,
                    before.len(),
                ) by {
                lemma_contents_push(before, e, q, before.len());
            }
            assert(self@.len() == before.len() + 1);
            assert(self@[n as int] == e);
            assert(contents_upto(self@, page, before.len()) == contents_upto(before, page, before.len()));
            assert(contents_of(self@, page) == contents_of(before, page).push(n));
            assert forall|q: usize| q != page implies contents_of(self@, q) == contents_of(before, q) by {
                assert(contents_upto(self@, q, before.len()) == contents_upto(before, q, before.len()));
            }
            assert(store_wf(self@)) by {
                assert forall|i: int| 0 <= i < self@.len() implies match #[trigger] self@[i] {
                    Entity::Page(p) => p.id == i,
                    Entity::Blockquote(b) => {
                        &&& b.id == i
                        &&& b.page < i
                        &&& is_page(self@, b.page as int)
                        &&& (b.parent matches Some(e) ==> element_id(e) < i && is_blockquote(
                            self@,
                            element_id(e) as int,
                        ))
                    },
                } by {
                    if i < before.len() {
                        assert(self@[i] == before[i]);
                    }
                }
            }
        }
        Ok(n)
    }

    /// The entity with identity `id`.
    pub fn entity(&self, id: usize) -> (r: &Entity)
        requires
            id < self@.len(),
        ensures
            *r == self@[id as int],
    {
        &self.entities[id]
    }

    /// The `contents` edge of page `page`: the identities of its blockquotes, in order.
    pub fn contents_ids(&self, page: usize) -> (r: Vec<usize>)
        ensures
            r@ == contents_of(self@, page),
    {
        let mut out: Vec<usize> = Vec::new();
        let mut i: usize = 0;
        while i < self.entities.len()
            invariant
                i <= self@.len(),
                self@ == self.entities@,
                out@ == contents_upto(self@, page, i as nat),
            decreases self@.len() - i,
        {
            match &self.entities[i] {
                Entity::Blockquote(b) => {
                    if b.page == page {
                        out.push(i);
                    }
                },
                Entity::Page(_) => {},
            }
            i = i + 1;
        }
        out
    }

    /// Looks up a page by identity.
    pub fn get_page(&self, id: usize) -> (r: Result<Page, ErrorKind>)
        ensures
            is_page(self@, id as int) ==> r == Ok::<Page, ErrorKind>(self@[id as int]->Page_0),
            !is_page(self@, id as int) ==> r == Err::<Page, ErrorKind>(ErrorKind::NotFound),
    {
        if id < self.entities.len() {
            match &self.entities[id] {
                Entity::Page(p) => Ok(*p),
                Entity::Blockquote(_) => Err(ErrorKind::NotFound),
            }
        } else {
            Err(ErrorKind::NotFound)
        }
    }

    /// Looks up a blockquote by identity.
    pub fn get_blockquote(&self, id: usize) -> (r: Result<&Blockquote, ErrorKind>)
        ensures
            is_blockquote(self@, id as int) ==> r is Ok && *r->Ok_0 == self@[id as int]->Blockquote_0,
            !is_blockquote(self@, id as int) ==> r == Err::<&Blockquote, ErrorKind>(
                ErrorKind::NotFound,
            ),
    {
        if id < self.entities.len() {
            match &self.entities[id] {
                Entity::Blockquote(b) => Ok(b),
                Entity::Page(_) => Err(ErrorKind::NotFound),
            }
        } else {
            Err(ErrorKind::NotFound)
        }
    }

    /// The identities of the entities of one kind, in order of creation.
    pub fn list(&self, kind: EntityKind) -> (r: Vec<usize>)
        ensures
            r@ == Seq::new(self@.len(), |i: int| i as usize).filter(
                |i: usize| has_kind(self@, i as int, kind),
            ),
    {
        let mut out: Vec<usize> = Vec::new();
        let mut i: usize = 0;
        while i < self.entities.len()
            invariant
                i <= self@.len(),
                out@ == Seq::new(i as nat, |k: int| k as usize).filter(
                    |k: usize| has_kind(self@, k as int, kind),
                ),
            decreases self@.len() - i,
        {
            let ghost all = Seq::new(i as nat, |k: int| k as usize);
            let ghost next = Seq::new((i + 1) as nat, |k: int| k as usize);
            proof {
                assert(next.drop_last() =~= all);
                assert(next.last() == i);
                reveal(Seq::filter);
            }
            match (&self.entities[i], kind) {
                (Entity::Page(_), EntityKind::Page) => out.push(i),
                (Entity::Blockquote(_), EntityKind::Blockquote) => out.push(i),
                _ => {},
            }
            i = i + 1;
        }
        proof {
            assert(self@.len() == self.entities@.len());
        }
        out
    }
}

} // verus!
