use docgraph::codec::{decode, encode, Token};
use docgraph::query::{Query, Root};
use docgraph::resolve::{Entry, FieldName, Selection, Value};
use docgraph::store::{BlockElement, BlockquoteFields, Element, ErrorKind, Store};
use docgraph::value::{LineColumn, Position, Region};

fn leaf(field: FieldName) -> Selection {
    Selection { field, nested: None }
}

fn edge(field: FieldName, nested: Vec<Selection>) -> Selection {
    Selection { field, nested: Some(nested) }
}

fn sample_store() -> (Store, usize, usize) {
    let mut st = Store::new();
    let p = st.create_page();
    let region = Region {
        offset: 10,
        len: 4,
        position: Some(Position {
            start: LineColumn { line: 3, column: 1 },
            end: LineColumn { line: 3, column: 5 },
        }),
    };
    let a = st
        .create_blockquote(BlockquoteFields {
            region: Some(region),
            lines: Some(vec!["first".to_string(), "".to_string()]),
            page: Some(p),
            parent: None,
        })
        .unwrap();
    let b = st
        .create_blockquote(BlockquoteFields {
            region: Some(Region::default()),
            lines: Some(vec!["second".to_string()]),
            page: Some(p),
            parent: Some(Element::Block(BlockElement::Blockquote(a))),
        })
        .unwrap();
    (st, p, b)
}

#[test]
fn resolved_tree_survives_serialization() {
    let (st, p, _b) = sample_store();
    let q = Query::new(3);
    let sels = vec![
        leaf(FieldName::Id),
        leaf(FieldName::ContentsIds),
        leaf(FieldName::Contents),
        edge(
            FieldName::Contents,
            vec![
                leaf(FieldName::Lines),
                edge(FieldName::Parent, vec![leaf(FieldName::Region), leaf(FieldName::ParentId)]),
                leaf(FieldName::Contents),
            ],
        ),
    ];
    let v = q.execute(&st, Root::Page(p), &sels).unwrap();
    let toks = encode(&v);
    let back = decode(&toks).unwrap();
    assert_eq!(format!("{:?}", back), format!("{:?}", v));
    assert_eq!(encode(&back), toks);
}

#[test]
fn serialized_form_is_preorder_with_counts() {
    let v = Value::Object(vec![
        Entry { field: FieldName::ContentsIds, value: Value::Ids(vec![4, 7]) },
        Entry { field: FieldName::Parent, value: Value::Absent },
        Entry { field: FieldName::Contents, value: Value::List(vec![Value::Failed(ErrorKind::Resolution)]) },
        Entry { field: FieldName::Lines, value: Value::Lines(vec!["x".to_string()]) },
    ]);
    let toks = encode(&v);
    assert_eq!(
        toks,
        vec![
            Token::Object(4),
            Token::Field(FieldName::ContentsIds),
            Token::Ids(2),
            Token::Id(4),
            Token::Id(7),
            Token::Field(FieldName::Parent),
            Token::Absent,
            Token::Field(FieldName::Contents),
            Token::List(1),
            Token::Failed(ErrorKind::Resolution),
            Token::Field(FieldName::Lines),
            Token::Lines(1),
            Token::Text("x".to_string()),
        ]
    );
    assert_eq!(format!("{:?}", decode(&toks).unwrap()), format!("{:?}", v));
}

#[test]
fn ill_formed_input_is_rejected() {
    assert!(decode(&vec![]).is_none());
    assert!(decode(&vec![Token::Object(1)]).is_none());
    assert!(decode(&vec![Token::Object(1), Token::Absent]).is_none());
    assert!(decode(&vec![Token::Ids(2), Token::Id(1)]).is_none());
    assert!(decode(&vec![Token::Lines(1), Token::Id(1)]).is_none());
    assert!(decode(&vec![Token::Absent, Token::Absent]).is_none());
    assert!(decode(&vec![Token::Text("a".to_string())]).is_none());
    assert!(decode(&vec![Token::List(0)]).is_some());
    assert!(matches!(decode(&vec![Token::Region(Region::default())]), Some(Value::Region(_))));
}
