use docgraph::query::{Query, Root};
use docgraph::resolve::{Entry, FieldName, Selection, Value};
use docgraph::store::{BlockElement, BlockquoteFields, Element, EntityKind, ErrorKind, Store};
use docgraph::value::{LineColumn, Position, Region};

fn leaf(field: FieldName) -> Selection {
    Selection { field, nested: None }
}

fn edge(field: FieldName, nested: Vec<Selection>) -> Selection {
    Selection { field, nested: Some(nested) }
}

fn fields(page: usize, lines: &[&str], parent: Option<usize>) -> BlockquoteFields {
    BlockquoteFields {
        region: Some(Region::default()),
        lines: Some(lines.iter().map(|s| s.to_string()).collect()),
        page: Some(page),
        parent: parent.map(|p| Element::Block(BlockElement::Blockquote(p))),
    }
}

fn entries(v: &Value) -> &Vec<Entry> {
    match v {
        Value::Object(es) => es,
        other => panic!("expected an object, got {:?}", other),
    }
}

fn items(v: &Value) -> &Vec<Value> {
    match v {
        Value::List(xs) => xs,
        other => panic!("expected a list, got {:?}", other),
    }
}

fn is_id(v: &Value, id: usize) -> bool {
    matches!(v, Value::Id(x) if *x == id)
}

#[test]
fn fresh_page_has_empty_contents() {
    let mut st = Store::new();
    let p = st.create_page();
    let q = Query::new(4);
    let page = q.page(&st, p).unwrap();
    assert!(page.contents_ids(&st).is_empty());
    assert!(page.contents(&st).is_empty());
    let sels = vec![leaf(FieldName::Contents), edge(FieldName::Contents, vec![leaf(FieldName::Id)])];
    let v = q.execute(&st, Root::Page(p), &sels).unwrap();
    let es = entries(&v);
    assert_eq!(es.len(), 2);
    assert!(items(&es[0].value).is_empty());
    assert!(items(&es[1].value).is_empty());
}

#[test]
fn blockquote_with_missing_page_is_not_found() {
    let mut st = Store::new();
    assert_eq!(st.create_blockquote(fields(0, &["a"], None)), Err(ErrorKind::NotFound));
    let p = st.create_page();
    let b = st.create_blockquote(fields(p, &["a"], None)).unwrap();
    // an identity of another kind is not a page
    assert_eq!(st.create_blockquote(fields(b, &["a"], None)), Err(ErrorKind::NotFound));
    assert_eq!(st.create_blockquote(fields(7, &["a"], None)), Err(ErrorKind::NotFound));
    // nor is a page a parent element
    assert_eq!(st.create_blockquote(fields(p, &["a"], Some(p))), Err(ErrorKind::NotFound));
    assert_eq!(st.len(), 2);
}

#[test]
fn blockquote_with_missing_lines_is_invalid() {
    let mut st = Store::new();
    let p = st.create_page();
    let mut f = fields(p, &["a"], None);
    f.lines = None;
    assert_eq!(st.create_blockquote(f), Err(ErrorKind::Validation));
    let mut f = fields(p, &["a"], None);
    f.region = None;
    assert_eq!(st.create_blockquote(f), Err(ErrorKind::Validation));
    let mut f = fields(p, &["a"], None);
    f.page = None;
    assert_eq!(st.create_blockquote(f), Err(ErrorKind::Validation));
    assert_eq!(st.len(), 1);
}

#[test]
fn absent_parent_resolves_to_absent_marker() {
    let mut st = Store::new();
    let p = st.create_page();
    let b = st.create_blockquote(fields(p, &["x"], None)).unwrap();
    let q = Query::new(4);
    let sels = vec![
        leaf(FieldName::Parent),
        edge(FieldName::Parent, vec![leaf(FieldName::Id)]),
        leaf(FieldName::ParentId),
    ];
    let v = q.execute(&st, Root::Blockquote(b), &sels).unwrap();
    let es = entries(&v);
    assert!(matches!(es[0].value, Value::Absent));
    assert!(matches!(es[1].value, Value::Absent));
    assert!(matches!(es[2].value, Value::Absent));
    assert_eq!(q.blockquote(&st, b).unwrap().parent(), None);
    assert_eq!(q.blockquote(&st, b).unwrap().parent_id(), None);
}

#[test]
fn shallow_edge_gives_identity_unless_expanded() {
    let mut st = Store::new();
    let p = st.create_page();
    let a = st.create_blockquote(fields(p, &["first"], None)).unwrap();
    let b = st.create_blockquote(fields(p, &["second"], Some(a))).unwrap();
    let q = Query::new(4);
    let sels = vec![
        leaf(FieldName::Parent),
        edge(FieldName::Parent, vec![leaf(FieldName::Lines), leaf(FieldName::Id)]),
        leaf(FieldName::Page),
        edge(FieldName::Page, vec![leaf(FieldName::ContentsIds)]),
    ];
    let v = q.execute(&st, Root::Element(b), &sels).unwrap();
    let es = entries(&v);
    assert!(is_id(&es[0].value, a));
    let parent = entries(&es[1].value);
    assert_eq!(parent.len(), 2);
    assert_eq!(parent[0].field, FieldName::Lines);
    assert!(matches!(&parent[0].value, Value::Lines(l) if *l == vec!["first".to_string()]));
    assert!(is_id(&parent[1].value, a));
    assert!(is_id(&es[2].value, p));
    let page = entries(&es[3].value);
    assert!(matches!(&page[0].value, Value::Ids(ids) if *ids == vec![a, b]));
}

#[test]
fn deep_edge_expands_blocks_by_default() {
    let mut st = Store::new();
    let p = st.create_page();
    let other = st.create_page();
    let a = st.create_blockquote(fields(p, &["one", "two"], None)).unwrap();
    let _x = st.create_blockquote(fields(other, &["elsewhere"], None)).unwrap();
    let b = st.create_blockquote(fields(p, &[], Some(a))).unwrap();
    let q = Query::new(0);
    let v = q.execute(&st, Root::Page(p), &vec![leaf(FieldName::Id), leaf(FieldName::Contents)]).unwrap();
    let es = entries(&v);
    assert!(is_id(&es[0].value, p));
    let blocks = items(&es[1].value);
    assert_eq!(blocks.len(), 2);
    let first = entries(&blocks[0]);
    let names: Vec<FieldName> = first.iter().map(|e| e.field).collect();
    assert_eq!(
        names,
        vec![FieldName::Id, FieldName::Region, FieldName::Lines, FieldName::Page, FieldName::Parent]
    );
    assert!(is_id(&first[0].value, a));
    assert!(matches!(&first[1].value, Value::Region(r) if *r == Region::default()));
    assert!(matches!(&first[2].value, Value::Lines(l) if *l == vec!["one".to_string(), "two".to_string()]));
    assert!(is_id(&first[3].value, p));
    assert!(matches!(first[4].value, Value::Absent));
    let second = entries(&blocks[1]);
    assert!(is_id(&second[0].value, b));
    assert!(is_id(&second[4].value, a));
}

#[test]
fn unknown_field_fails_only_its_subtree() {
    let mut st = Store::new();
    let p = st.create_page();
    let b = st.create_blockquote(fields(p, &["x"], None)).unwrap();
    let q = Query::new(4);
    let sels = vec![
        leaf(FieldName::Contents),
        leaf(FieldName::Id),
        edge(FieldName::Region, vec![leaf(FieldName::Id)]),
        leaf(FieldName::PageId),
    ];
    let v = q.execute(&st, Root::BlockElement(b), &sels).unwrap();
    let es = entries(&v);
    assert!(matches!(es[0].value, Value::Failed(ErrorKind::Resolution)));
    assert!(is_id(&es[1].value, b));
    assert!(matches!(es[2].value, Value::Failed(ErrorKind::Resolution)));
    assert!(is_id(&es[3].value, p));
    let v = q.execute(&st, Root::Page(p), &vec![leaf(FieldName::Lines)]).unwrap();
    assert!(matches!(entries(&v)[0].value, Value::Failed(ErrorKind::Resolution)));
}

fn parent_chain(depth: usize) -> Vec<Selection> {
    let mut sels = vec![leaf(FieldName::Id)];
    for _ in 0..depth {
        sels = vec![edge(FieldName::Parent, sels)];
    }
    sels
}

#[test]
fn cyclic_traversal_stops_at_maximum_depth() {
    let mut st = Store::new();
    let p = st.create_page();
    let mut last = None;
    for _ in 0..6 {
        last = Some(st.create_blockquote(fields(p, &["q"], last)).unwrap());
    }
    let leafmost = last.unwrap();
    let q = Query::new(3);
    assert!(q.execute(&st, Root::Blockquote(leafmost), &parent_chain(3)).is_ok());
    assert_eq!(
        q.execute(&st, Root::Blockquote(leafmost), &parent_chain(4)).unwrap_err(),
        ErrorKind::DepthExceeded
    );
    // page -> contents -> page -> contents ... is a real cycle in the data
    let mut sels = vec![leaf(FieldName::Id)];
    for _ in 0..10 {
        sels = vec![edge(FieldName::Page, vec![edge(FieldName::Contents, sels)])];
    }
    assert_eq!(
        q.execute(&st, Root::Blockquote(leafmost), &sels).unwrap_err(),
        ErrorKind::DepthExceeded
    );
    // a chain that ends before the maximum depth does not fail
    let first = 1;
    assert!(q.execute(&st, Root::Blockquote(first), &parent_chain(10)).is_ok());
}

#[test]
fn result_shape_mirrors_selection() {
    let mut st = Store::new();
    let p = st.create_page();
    let a = st.create_blockquote(fields(p, &["a"], None)).unwrap();
    let _b = st.create_blockquote(fields(p, &["b"], Some(a))).unwrap();
    let q = Query::new(5);
    let sels = vec![
        leaf(FieldName::Id),
        edge(
            FieldName::Contents,
            vec![leaf(FieldName::Lines), edge(FieldName::Parent, vec![leaf(FieldName::Region)])],
        ),
    ];
    let v = q.execute(&st, Root::Page(p), &sels).unwrap();
    let es = entries(&v);
    assert_eq!(es.len(), 2);
    assert_eq!(es[0].field, FieldName::Id);
    assert_eq!(es[1].field, FieldName::Contents);
    let blocks = items(&es[1].value);
    assert_eq!(blocks.len(), 2);
    for blk in blocks {
        let be = entries(blk);
        assert_eq!(be.len(), 2);
        assert_eq!(be[0].field, FieldName::Lines);
        assert_eq!(be[1].field, FieldName::Parent);
    }
    assert!(matches!(entries(&blocks[0])[1].value, Value::Absent));
    let parent = entries(&entries(&blocks[1])[1].value);
    assert_eq!(parent.len(), 1);
    assert_eq!(parent[0].field, FieldName::Region);
}

#[test]
fn roots_of_the_wrong_kind_are_not_found() {
    let mut st = Store::new();
    let p = st.create_page();
    let b = st.create_blockquote(fields(p, &[], None)).unwrap();
    let q = Query::new(2);
    let sels = vec![leaf(FieldName::Id)];
    assert_eq!(q.execute(&st, Root::Page(b), &sels).unwrap_err(), ErrorKind::NotFound);
    assert_eq!(q.execute(&st, Root::Blockquote(p), &sels).unwrap_err(), ErrorKind::NotFound);
    assert_eq!(q.execute(&st, Root::Element(9), &sels).unwrap_err(), ErrorKind::NotFound);
    assert_eq!(q.page(&st, b), Err(ErrorKind::NotFound));
    assert_eq!(q.element(&st, b), Ok(Element::Block(BlockElement::Blockquote(b))));
    assert_eq!(q.block_element(&st, p), Err(ErrorKind::NotFound));
    assert_eq!(q.element(&st, b).unwrap().id(), b);
}

#[test]
fn store_lists_each_kind_in_order() {
    let mut st = Store::new();
    let p = st.create_page();
    let a = st.create_blockquote(fields(p, &[], None)).unwrap();
    let second_page = st.create_page();
    let b = st.create_blockquote(fields(second_page, &[], Some(a))).unwrap();
    assert_eq!(st.list(EntityKind::Page), vec![p, second_page]);
    assert_eq!(st.list(EntityKind::Blockquote), vec![a, b]);
    assert_eq!(st.contents_ids(p), vec![a]);
    assert_eq!(st.contents_ids(second_page), vec![b]);
    let bq = st.get_blockquote(b).unwrap();
    assert_eq!(bq.page_id(), second_page);
    assert_eq!(bq.page(&st).unwrap().id, second_page);
    assert_eq!(bq.parent_id(), Some(a));
    assert_eq!(bq.lines().len(), 0);
}

#[test]
fn value_types_default_to_zero() {
    let r = Region::default();
    assert_eq!((r.offset, r.len, r.position), (0, 0, None));
    let pos = Position::default();
    assert_eq!(pos.start, LineColumn { line: 0, column: 0 });
    assert_eq!(pos.end, LineColumn::default());
}

#[test]
fn builder_creates_blockquote_of_page() {
    let mut st = Store::new();
    let p = st.create_page();
    let region = Region {
        offset: 3,
        len: 9,
        position: Some(Position {
            start: LineColumn { line: 1, column: 2 },
            end: LineColumn { line: 2, column: 5 },
        }),
    };
    let b = docgraph::store::Blockquote::build()
        .region(region)
        .lines(vec!["> quoted".to_string()])
        .page(p)
        .parent(None)
        .finish(&mut st)
        .unwrap();
    let c = docgraph::store::Blockquote::build()
        .region(Region::default())
        .lines(Vec::new())
        .page(p)
        .parent(Some(Element::Block(BlockElement::Blockquote(b))))
        .finish(&mut st)
        .unwrap();
    assert_eq!((b, c), (1, 2));
    let missing = docgraph::store::Blockquote::build().region(region).page(p).finish(&mut st);
    assert_eq!(missing, Err(ErrorKind::Validation));
    let q = Query::new(1);
    let v = q
        .execute(&st, Root::Blockquote(b), &vec![leaf(FieldName::Region), leaf(FieldName::Lines)])
        .unwrap();
    let es = entries(&v);
    assert!(matches!(&es[0].value, Value::Region(r) if *r == region));
    assert!(matches!(&es[1].value, Value::Lines(l) if *l == vec!["> quoted".to_string()]));
    let v = q
        .execute(&st, Root::Blockquote(c), &vec![leaf(FieldName::ParentId), edge(FieldName::ContentsIds, vec![])])
        .unwrap();
    let es = entries(&v);
    assert!(is_id(&es[0].value, b));
    assert!(matches!(es[1].value, Value::Failed(ErrorKind::Resolution)));
    let page = q.page(&st, p).unwrap();
    assert_eq!(
        page.contents(&st),
        vec![BlockElement::Blockquote(b), BlockElement::Blockquote(c)]
    );
    assert_eq!(page.contents(&st)[0].kind(), docgraph::store::BlockKind::Blockquote);
}

#[test]
fn wrappers_delegate_to_the_concrete_blockquote() {
    let mut st = Store::new();
    let p = st.create_page();
    let b = st.create_blockquote(fields(p, &["z"], None)).unwrap();
    let el = Element::Block(BlockElement::Blockquote(b));
    assert_eq!(el.as_concrete(&st).unwrap().id, b);
    assert_eq!(el.as_concrete(&st).unwrap().lines(), &vec!["z".to_string()]);
    assert_eq!(Element::Block(BlockElement::Blockquote(p)).as_concrete(&st).unwrap_err(), ErrorKind::NotFound);
    assert_eq!(BlockElement::Blockquote(5).as_concrete(&st).unwrap_err(), ErrorKind::NotFound);
}
