use vstd::prelude::*;
use crate::resolve::{Entry, FieldName, Value};
use crate::store::ErrorKind;
use crate::value::Region;

verus! {

/// One token of the flat, pre-order serialized form of a result tree. A
/// token that opens a collection carries its number of members.
#[derive(Clone, Debug, PartialEq, Eq)]
pub enum Token {
    Absent,
    Id(usize),
    Ids(usize),
    Region(Region),
    Lines(usize),
    Text(String),
    Object(usize),
    Field(FieldName),
    List(usize),
    Failed(ErrorKind),
}

pub open spec fn enc_ids(ids: Seq<usize>) -> Seq<Token> {
    ids.map_values(|i: usize| Token::Id(i))
}

pub open spec fn enc_lines(ls: Seq<String>) -> Seq<Token> {
    ls.map_values(|s: String| Token::Text(s))
}

/// The serialized form of a result tree.
pub open spec fn enc(v: Value) -> Seq<Token>
    decreases v,
{
    match v {
        Value::Absent => seq![Token::Absent],
        Value::Id(i) => seq![Token::Id(i)],
        Value::Ids(ids) => seq![Token::Ids(ids@.len() as usize)] + enc_ids(ids@),
        Value::Region(r) => seq![Token::Region(r)],
        Value::Lines(ls) => seq![Token::Lines(ls@.len() as usize)] + enc_lines(ls@),
        Value::Object(es) => seq![Token::Object(es@.len() as usize)] + enc_entries(es@),
        Value::List(xs) => seq![Token::List(xs@.len() as usize)] + enc_values(xs@),
        Value::Failed(k) => seq![Token::Failed(k)],
    }
}

pub open spec fn enc_entries(es: Seq<Entry>) -> Seq<Token>
    decreases es,
{
    if es.len() == 0 {
        Seq::empty()
    } else {
        seq![Token::Field(es[0].field)] + enc(es[0].value) + enc_entries(es.drop_first())
    }
}

pub open spec fn enc_values(xs: Seq<Value>) -> Seq<Token>
    decreases xs,
{
    if xs.len() == 0 {
        Seq::empty()
    } else {
        enc(xs[0]) + enc_values(xs.drop_first())
    }
}


proof fn lemma_enc_entries_append(a: Seq<Entry>, b: Seq<Entry>)
    ensures
        enc_entries(a + b) == enc_entries(a) + enc_entries(b),
    decreases a.len(),
{
    if a.len() == 0 {
        assert(a + b =~= b);
    } else {
        assert((a + b)[0] == a[0]);
        assert((a + b).drop_first() =~= a.drop_first() + b);
        lemma_enc_entries_append(a.drop_first(), b);
    }
}

proof fn lemma_enc_values_append(a: Seq<Value>, b: Seq<Value>)
    ensures
        enc_values(a + b) == enc_values(a) + enc_values(b),
    decreases a.len(),
{
    if a.len() == 0 {
        assert(a + b =~= b);
    } else {
        assert((a + b)[0] == a[0]);
        assert((a + b).drop_first() =~= a.drop_first() + b);
        lemma_enc_values_append(a.drop_first(), b);
    }
}

proof fn lemma_enc_entries_one(e: Entry)
    ensures
        enc_entries(seq![e]) == seq![Token::Field(e.field)] + enc(e.value),
{
    assert(seq![e].drop_first() =~= Seq::<Entry>::empty());
    assert(enc_entries(Seq::<Entry>::empty()) == Seq::<Token>::empty());
    assert(seq![Token::Field(e.field)] + enc(e.value) + Seq::<Token>::empty() =~= seq![Token::Field(e.field)] + enc(e.value));
}

proof fn lemma_enc_values_one(x: Value)
    ensures
        enc_values(seq![x]) == enc(x),
{
    assert(seq![x].drop_first() =~= Seq::<Value>::empty());
    assert(seq![x][0] == x);
    assert(enc_values(Seq::<Value>::empty()) == Seq::<Token>::empty());
    assert(enc(x) + Seq::<Token>::empty() =~= enc(x));
}

/// Appends the serialized form of `v` to `out`.
fn encode_into(v: &Value, out: &mut Vec<Token>)
    ensures
        final(out)@ == old(out)@ + enc(*v),
    decreases v,
{
    let ghost start = out@;
    match v {
        Value::Absent => out.push(Token::Absent),
        Value::Id(i) => out.push(Token::Id(*i)),
        Value::Ids(ids) => {
            out.push(Token::Ids(ids.len()));
            let mut i: usize = 0;
            while i < ids.len()
                invariant
                    i <= ids@.len(),
                    out@ == start + seq![Token::Ids(ids@.len() as usize)] + enc_ids(ids@.subrange(0, i as int)),
                decreases ids@.len() - i,
            {
                out.push(Token::Id(ids[i]));
                proof {
                    assert(enc_ids(ids@.subrange(0, i + 1)) =~= enc_ids(ids@.subrange(0, i as int)).push(Token::Id(ids@[i as int])));
                }
                i = i + 1;
            }
            proof {
                assert(ids@.subrange(0, i as int) =~= ids@);
            }
        },
        Value::Region(r) => out.push(Token::Region(*r)),
        Value::Lines(ls) => {
            out.push(Token::Lines(ls.len()));
            let mut i: usize = 0;
            while i < ls.len()
                invariant
                    i <= ls@.len(),
                    out@ == start + seq![Token::Lines(ls@.len() as usize)] + enc_lines(ls@.subrange(0, i as int)),
                decreases ls@.len() - i,
            {
                out.push(Token::Text(ls[i].clone()));
                proof {
                    assert(enc_lines(ls@.subrange(0, i + 1)) =~= enc_lines(ls@.subrange(0, i as int)).push(Token::Text(ls@[i as int])));
                }
                i = i + 1;
            }
            proof {
                assert(ls@.subrange(0, i as int) =~= ls@);
            }
        },
        Value::Object(es) => {
            out.push(Token::Object(es.len()));
            let mut i: usize = 0;
            while i < es.len()
                invariant
                    i <= es@.len(),
                    *v is Object,
                    v->Object_0 == *es,
                    out@ == start + seq![Token::Object(es@.len() as usize)] + enc_entries(es@.subrange(0, i as int)),
                decreases es@.len() - i,
            {
                out.push(Token::Field(es[i].field));
                proof {
                    assert(decreases_to!(*v => v->Object_0));
                    assert(decreases_to!(*es => es@));
                    assert(decreases_to!(es@ => es@[i as int]));
                }
                encode_into(&es[i].value, out);
                proof {
                    let e = es@[i as int];
                    assert(es@.subrange(0, i + 1) =~= es@.subrange(0, i as int) + seq![e]);
                    lemma_enc_entries_append(es@.subrange(0, i as int), seq![e]);
                    lemma_enc_entries_one(e);
                }
                i = i + 1;
            }
            proof {
                assert(es@.subrange(0, i as int) =~= es@);
            }
        },
        Value::List(xs) => {
            out.push(Token::List(xs.len()));
            let mut i: usize = 0;
            while i < xs.len()
                invariant
                    i <= xs@.len(),
                    *v is List,
                    v->List_0 == *xs,
                    out@ == start + seq![Token::List(xs@.len() as usize)] + enc_values(xs@.subrange(0, i as int)),
                decreases xs@.len() - i,
            {
                proof {
                    assert(decreases_to!(*v => v->List_0));
                    assert(decreases_to!(*xs => xs@));
                    assert(decreases_to!(xs@ => xs@[i as int]));
                }
                encode_into(&xs[i], out);
                proof {
                    let x = xs@[i as int];
                    assert(xs@.subrange(0, i + 1) =~= xs@.subrange(0, i as int) + seq![x]);
                    lemma_enc_values_append(xs@.subrange(0, i as int), seq![x]);
                    lemma_enc_values_one(x);
                }
                i = i + 1;
            }
            proof {
                assert(xs@.subrange(0, i as int) =~= xs@);
            }
        },
        Value::Failed(k) => out.push(Token::Failed(*k)),
    }
}

/// The token that opens the serialized form of `v`.
pub open spec fn head(v: Value) -> Token {
    match v {
        Value::Absent => Token::Absent,
        Value::Id(i) => Token::Id(i),
        Value::Ids(ids) => Token::Ids(ids@.len() as usize),
        Value::Region(r) => Token::Region(r),
        Value::Lines(ls) => Token::Lines(ls@.len() as usize),
        Value::Object(es) => Token::Object(es@.len() as usize),
        Value::List(xs) => Token::List(xs@.len() as usize),
        Value::Failed(k) => Token::Failed(k),
    }
}

proof fn lemma_enc_head(v: Value)
    ensures
        enc(v).len() >= 1,
        enc(v)[0] == head(v),
        v is Absent || v is Id || v is Region || v is Failed ==> enc(v) == seq![head(v)],
        v is Ids ==> v->Ids_0@.len() <= usize::MAX && enc(v).len() == 1 + v->Ids_0@.len(),
        v is Lines ==> v->Lines_0@.len() <= usize::MAX && enc(v).len() == 1 + v->Lines_0@.len(),
        v is Object ==> v->Object_0@.len() <= usize::MAX,
        v is List ==> v->List_0@.len() <= usize::MAX,
{
    match v {
        Value::Ids(ids) => {
            assert(ids.len() == ids@.len());
        },
        Value::Lines(ls) => {
            assert(ls.len() == ls@.len());
        },
        Value::Object(es) => {
            assert(es.len() == es@.len());
        },
        Value::List(xs) => {
            assert(xs.len() == xs@.len());
        },
        _ => {},
    }
}

/// `toks` holds `t` from position `pos` on.
pub open spec fn holds_at(toks: Seq<Token>, pos: int, t: Seq<Token>) -> bool {
    0 <= pos && pos + t.len() <= toks.len() && toks.subrange(pos, pos + t.len()) == t
}

proof fn lemma_holds_split(toks: Seq<Token>, pos: int, a: Seq<Token>, b: Seq<Token>)
    requires
        holds_at(toks, pos, a + b),
    ensures
        holds_at(toks, pos, a),
        holds_at(toks, pos + a.len(), b),
{
    assert(toks.subrange(pos, pos + a.len()) =~= (a + b).subrange(0, a.len() as int));
    assert((a + b).subrange(0, a.len() as int) =~= a);
    assert(toks.subrange(pos + a.len(), pos + a.len() + b.len()) =~= (a + b).subrange(
        a.len() as int,
        (a.len() + b.len()) as int,
    ));
    assert((a + b).subrange(a.len() as int, (a.len() + b.len()) as int) =~= b);
}

proof fn lemma_subrange_join(toks: Seq<Token>, a: int, b: int, c: int)
    requires
        0 <= a <= b <= c <= toks.len(),
    ensures
        toks.subrange(a, b) + toks.subrange(b, c) == toks.subrange(a, c),
{
    assert(toks.subrange(a, b) + toks.subrange(b, c) =~= toks.subrange(a, c));
}

/// Reads one serialized tree from position `pos` of `toks`, with the end of
/// what it read. What it returns serializes to exactly the tokens it read;
/// where `toks` holds the serialized form of `expect` at `pos`, it succeeds
/// and reads exactly that form.
fn decode_at(toks: &Vec<Token>, pos: usize, Ghost(expect): Ghost<Value>) -> (r: Option<
    (Value, usize),
>)
    requires
        pos <= toks@.len(),
    ensures
        r matches Some((w, end)) ==> pos < end <= toks@.len() && toks@.subrange(
            pos as int,
            end as int,
        ) == enc(w),
        holds_at(toks@, pos as int, enc(expect)) ==> (r matches Some((w, end)) && end == pos
            + enc(expect).len()),
    decreases toks@.len() - pos,
{
    if pos >= toks.len() {
        return None;
    }
    let ghost ok = holds_at(toks@, pos as int, enc(expect));
    proof {
        lemma_enc_head(expect);
        if ok {
            assert(toks@[pos as int] == toks@.subrange(pos as int, pos + enc(expect).len())[0]);
            assert(toks@[pos as int] == head(expect));
        }
    }
    match &toks[pos] {
        Token::Absent => {
            proof {
                assert(toks@.subrange(pos as int, pos + 1) =~= seq![Token::Absent]);
            }
            Some((Value::Absent, pos + 1))
        },
        Token::Id(i) => {
            proof {
                assert(toks@.subrange(pos as int, pos + 1) =~= seq![Token::Id(*i)]);
            }
            Some((Value::Id(*i), pos + 1))
        },
        Token::Region(g) => {
            proof {
                assert(toks@.subrange(pos as int, pos + 1) =~= seq![Token::Region(*g)]);
            }
            Some((Value::Region(*g), pos + 1))
        },
        Token::Failed(k) => {
            proof {
                assert(toks@.subrange(pos as int, pos + 1) =~= seq![Token::Failed(*k)]);
            }
            Some((Value::Failed(*k), pos + 1))
        },
        Token::Text(_) | Token::Field(_) => None,
        Token::Ids(n) => {
            let n = *n;
            let ghost eids = expect->Ids_0@;
            let mut ids: Vec<usize> = Vec::new();
            let mut cur: usize = pos + 1;
            proof {
                assert(toks@.subrange(pos as int, cur as int) =~= seq![Token::Ids(n)] + enc_ids(ids@));
            }
            while ids.len() < n
                invariant
                    pos < cur <= toks@.len(),
                    ids@.len() <= n,
                    toks@[pos as int] == Token::Ids(n),
                    ok == holds_at(toks@, pos as int, enc(expect)),
                    toks@.subrange(pos as int, cur as int) == seq![Token::Ids(n)] + enc_ids(ids@),
                    ok ==> expect is Ids && eids == expect->Ids_0@ && eids.len() == n && cur == pos + 1
                        + ids@.len() && holds_at(toks@, pos as int, enc(expect)),
                decreases n - ids@.len(),
            {
                let ghost k = ids@.len() as int;
                proof {
                    if ok {
                        assert(cur < toks@.len());
                    }
                }
                if cur >= toks.len() {
                    return None;
                }
                proof {
                    if ok {
                        assert(enc(expect)[k + 1] == Token::Id(eids[k]));
                        assert(toks@[cur as int] == toks@.subrange(pos as int, pos + enc(expect).len())[k + 1]);
                    }
                }
                match &toks[cur] {
                    Token::Id(x) => {
                        proof {
                            lemma_subrange_join(toks@, pos as int, cur as int, cur + 1);
                            assert(toks@.subrange(cur as int, cur + 1) =~= seq![Token::Id(*x)]);
                            assert(enc_ids(ids@.push(*x)) =~= enc_ids(ids@).push(Token::Id(*x)));
                        }
                        ids.push(*x);
                        cur = cur + 1;
                        proof {
                            assert(seq![Token::Ids(n)] + enc_ids(ids@) =~= seq![Token::Ids(n)] + enc_ids(ids@.drop_last()) + seq![Token::Id(*x)]);
                        }
                    },
                    _ => {
                        return None;
                    },
                }
            }
            proof {
                if ok {
                    assert(cur == pos + enc(expect).len());
                }
            }
            Some((Value::Ids(ids), cur))
        },
        Token::Lines(n) => {
            let n = *n;
            let ghost els = expect->Lines_0@;
            let mut ls: Vec<String> = Vec::new();
            let mut cur: usize = pos + 1;
            proof {
                assert(toks@.subrange(pos as int, cur as int) =~= seq![Token::Lines(n)] + enc_lines(ls@));
            }
            while ls.len() < n
                invariant
                    pos < cur <= toks@.len(),
                    ls@.len() <= n,
                    toks@[pos as int] == Token::Lines(n),
                    ok == holds_at(toks@, pos as int, enc(expect)),
                    toks@.subrange(pos as int, cur as int) == seq![Token::Lines(n)] + enc_lines(ls@),
                    ok ==> expect is Lines && els == expect->Lines_0@ && els.len() == n && cur == pos + 1
                        + ls@.len() && holds_at(toks@, pos as int, enc(expect)),
                decreases n - ls@.len(),
            {
                let ghost k = ls@.len() as int;
                proof {
                    if ok {
                        assert(cur < toks@.len());
                    }
                }
                if cur >= toks.len() {
                    return None;
                }
                proof {
                    if ok {
                        assert(enc(expect)[k + 1] == Token::Text(els[k]));
                        assert(toks@[cur as int] == toks@.subrange(pos as int, pos + enc(expect).len())[k + 1]);
                    }
                }
                match &toks[cur] {
                    Token::Text(x) => {
                        let line = x.clone();
                        proof {
                            lemma_subrange_join(toks@, pos as int, cur as int, cur + 1);
                            assert(toks@.subrange(cur as int, cur + 1) =~= seq![Token::Text(line)]);
                            assert(enc_lines(ls@.push(line)) =~= enc_lines(ls@).push(Token::Text(line)));
                        }
                        ls.push(line);
                        cur = cur + 1;
                        proof {
                            assert(seq![Token::Lines(n)] + enc_lines(ls@) =~= seq![Token::Lines(n)] + enc_lines(ls@.drop_last()) + seq![Token::Text(line)]);
                        }
                    },
                    _ => {
                        return None;
                    },
                }
            }
            proof {
                if ok {
                    assert(cur == pos + enc(expect).len());
                }
            }
            Some((Value::Lines(ls), cur))
        },
        Token::Object(n) => {
            let n = *n;
            let ghost eds = expect->Object_0@;
            let mut ws: Vec<Entry> = Vec::new();
            let mut cur: usize = pos + 1;
            proof {
                assert(toks@.subrange(pos as int, cur as int) =~= seq![Token::Object(n)] + enc_entries(ws@));
            }
            while ws.len() < n
                invariant
                    pos < cur <= toks@.len(),
                    ws@.len() <= n,
                    toks@[pos as int] == Token::Object(n),
                    ok == holds_at(toks@, pos as int, enc(expect)),
                    toks@.subrange(pos as int, cur as int) == seq![Token::Object(n)] + enc_entries(ws@),
                    ok ==> expect is Object && eds == expect->Object_0@ && eds.len() == n && cur == pos
                        + 1 + enc_entries(eds.subrange(0, ws@.len() as int)).len() && holds_at(
                        toks@,
                        pos as int,
                        enc(expect),
                    ),
                decreases n - ws@.len(),
            {
                let ghost k = ws@.len() as int;
                let ghost child = eds[k].value;
                proof {
                    if ok {
                        let pre = eds.subrange(0, k);
                        let e = eds[k];
                        let post = eds.subrange(k + 1, eds.len() as int);
                        assert(eds =~= pre + seq![e] + post);
                        lemma_enc_entries_append(pre + seq![e], post);
                        lemma_enc_entries_append(pre, seq![e]);
                        lemma_enc_entries_one(e);
                        assert(enc(expect) =~= seq![Token::Object(n)] + enc_entries(pre) + (seq![Token::Field(e.field)] + enc(e.value)) + enc_entries(post));
                        lemma_holds_split(toks@, pos as int, seq![Token::Object(n)] + enc_entries(pre) + (seq![Token::Field(e.field)] + enc(e.value)), enc_entries(post));
                        lemma_holds_split(toks@, pos as int, seq![Token::Object(n)] + enc_entries(pre), seq![Token::Field(e.field)] + enc(e.value));
                        lemma_holds_split(toks@, cur as int, seq![Token::Field(e.field)], enc(e.value));
                        assert(toks@[cur as int] == toks@.subrange(cur as int, cur + 1)[0]);
                    }
                }
                if cur >= toks.len() {
                    return None;
                }
                match &toks[cur] {
                    Token::Field(f) => {
                        let f = *f;
                        match decode_at(toks, cur + 1, Ghost(child)) {
                            Some((w, end)) => {
                                let ghost entry = Entry { field: f, value: w };
                                proof {
                                    lemma_subrange_join(toks@, pos as int, cur as int, cur + 1);
                                    lemma_subrange_join(toks@, pos as int, cur + 1, end as int);
                                    assert(toks@.subrange(cur as int, cur + 1) =~= seq![Token::Field(f)]);
                                    lemma_enc_entries_append(ws@, seq![entry]);
                                    lemma_enc_entries_one(entry);
                                    if ok {
                                        let e = eds[k];
                                        lemma_enc_entries_append(eds.subrange(0, k), seq![e]);
                                        lemma_enc_entries_one(e);
                                        assert(eds.subrange(0, k + 1) =~= eds.subrange(0, k) + seq![e]);
                                    }
                                }
                                let ghost before = ws@;
                                ws.push(Entry { field: f, value: w });
                                proof {
                                    assert(ws@ =~= before + seq![entry]);
                                    assert(seq![Token::Object(n)] + enc_entries(ws@) =~= seq![Token::Object(n)] + enc_entries(before) + (seq![Token::Field(f)] + enc(w)));
                                    assert(seq![Token::Object(n)] + enc_entries(before) + (seq![Token::Field(f)] + enc(w)) =~= toks@.subrange(pos as int, cur as int) + toks@.subrange(cur as int, cur + 1) + toks@.subrange(cur + 1, end as int));
                                }
                                cur = end;
                            },
                            None => {
                                return None;
                            },
                        }
                    },
                    _ => {
                        return None;
                    },
                }
            }
            proof {
                if ok {
                    assert(eds.subrange(0, n as int) =~= eds);
                }
            }
            Some((Value::Object(ws), cur))
        },
        Token::List(n) => {
            let n = *n;
            let ghost exs = expect->List_0@;
            let mut xs: Vec<Value> = Vec::new();
            let mut cur: usize = pos + 1;
            proof {
                assert(toks@.subrange(pos as int, cur as int) =~= seq![Token::List(n)] + enc_values(xs@));
            }
            while xs.len() < n
                invariant
                    pos < cur <= toks@.len(),
                    xs@.len() <= n,
                    toks@[pos as int] == Token::List(n),
                    ok == holds_at(toks@, pos as int, enc(expect)),
                    toks@.subrange(pos as int, cur as int) == seq![Token::List(n)] + enc_values(xs@),
                    ok ==> expect is List && exs == expect->List_0@ && exs.len() == n && cur == pos + 1
                        + enc_values(exs.subrange(0, xs@.len() as int)).len() && holds_at(
                        toks@,
                        pos as int,
                        enc(expect),
                    ),
                decreases n - xs@.len(),
            {
                let ghost k = xs@.len() as int;
                let ghost child = exs[k];
                proof {
                    if ok {
                        let pre = exs.subrange(0, k);
                        let x = exs[k];
                        let post = exs.subrange(k + 1, exs.len() as int);
                        assert(exs =~= pre + seq![x] + post);
                        lemma_enc_values_append(pre + seq![x], post);
                        lemma_enc_values_append(pre, seq![x]);
                        lemma_enc_values_one(x);
                        assert(enc(expect) =~= seq![Token::List(n)] + enc_values(pre) + enc(x) + enc_values(post));
                        lemma_holds_split(toks@, pos as int, seq![Token::List(n)] + enc_values(pre) + enc(x), enc_values(post));
                        lemma_holds_split(toks@, pos as int, seq![Token::List(n)] + enc_values(pre), enc(x));
                    }
                }
                match decode_at(toks, cur, Ghost(child)) {
                    Some((w, end)) => {
                        proof {
                            lemma_subrange_join(toks@, pos as int, cur as int, end as int);
                            lemma_enc_values_append(xs@, seq![w]);
                            lemma_enc_values_one(w);
                            if ok {
                                let x = exs[k];
                                lemma_enc_values_append(exs.subrange(0, k), seq![x]);
                                lemma_enc_values_one(x);
                                assert(exs.subrange(0, k + 1) =~= exs.subrange(0, k) + seq![x]);
                            }
                        }
                        let ghost wv = w;
                        let ghost before = xs@;
                        xs.push(w);
                        proof {
                            assert(xs@ =~= before + seq![wv]);
                        }
                        cur = end;
                    },
                    None => {
                        return None;
                    },
                }
            }
            proof {
                if ok {
                    assert(exs.subrange(0, n as int) =~= exs);
                }
            }
            Some((Value::List(xs), cur))
        },
    }
}

/// The serialized form of a result tree.
pub fn encode(v: &Value) -> (r: Vec<Token>)
    ensures
        r@ == enc(*v),
{
    let mut out: Vec<Token> = Vec::new();
    encode_into(v, &mut out);
    proof {
        assert(Seq::<Token>::empty() + enc(*v) =~= enc(*v));
    }
    out
}


/// `v` and `w` are the same tree: the same variant at every node, the same
/// scalars, the same field names and members in the same order.
pub open spec fn same(v: Value, w: Value) -> bool
    decreases v,
{
    match v {
        Value::Ids(a) => w is Ids && w->Ids_0@ == a@,
        Value::Lines(a) => w is Lines && w->Lines_0@ == a@,
        Value::Object(es) => w is Object && same_entries(es@, w->Object_0@),
        Value::List(xs) => w is List && same_values(xs@, w->List_0@),
        Value::Absent => w is Absent,
        Value::Id(i) => w == Value::Id(i),
        Value::Region(r) => w == Value::Region(r),
        Value::Failed(k) => w == Value::Failed(k),
    }
}

pub open spec fn same_entries(a: Seq<Entry>, b: Seq<Entry>) -> bool
    decreases a,
{
    if a.len() == 0 {
        b.len() == 0
    } else {
        b.len() > 0 && a[0].field == b[0].field && same(a[0].value, b[0].value) && same_entries(
            a.drop_first(),
            b.drop_first(),
        )
    }
}

pub open spec fn same_values(a: Seq<Value>, b: Seq<Value>) -> bool
    decreases a,
{
    if a.len() == 0 {
        b.len() == 0
    } else {
        b.len() > 0 && same(a[0], b[0]) && same_values(a.drop_first(), b.drop_first())
    }
}

proof fn lemma_map_unique<A, B>(a: Seq<A>, b: Seq<A>, f: spec_fn(A) -> B, r1: Seq<B>, r2: Seq<B>)
    requires
        a.len() == b.len(),
        a.map_values(f) + r1 == b.map_values(f) + r2,
        forall|x: A, y: A| #[trigger] f(x) == #[trigger] f(y) ==> x == y,
    ensures
        a == b,
        r1 == r2,
{
    assert forall|i: int| 0 <= i < a.len() implies a[i] == b[i] by {
        assert((a.map_values(f) + r1)[i] == f(a[i]));
        assert((b.map_values(f) + r2)[i] == f(b[i]));
    }
    assert(a =~= b);
    let m = a.map_values(f);
    assert(m == b.map_values(f));
    assert((m + r1).len() == (m + r2).len());
    assert(r1 =~= (m + r1).subrange(m.len() as int, (m + r1).len() as int));
    assert(r2 =~= (m + r2).subrange(m.len() as int, (m + r2).len() as int));
}

/// Serialized forms are prefix-free: one serialized tree followed by more
/// tokens determines the tree and what follows.
proof fn lemma_enc_unique(v: Value, w: Value, r1: Seq<Token>, r2: Seq<Token>)
    requires
        enc(v) + r1 == enc(w) + r2,
    ensures
        same(v, w),
        r1 == r2,
    decreases v,
{
    lemma_enc_head(v);
    lemma_enc_head(w);
    assert((enc(v) + r1)[0] == head(v));
    assert((enc(w) + r2)[0] == head(w));
    let tail1 = (enc(v) + r1).drop_first();
    match v {
        Value::Ids(a) => {
            let b = w->Ids_0;
            assert(a@.len() == b@.len());
            assert(tail1 =~= enc_ids(a@) + r1);
            assert((enc(w) + r2).drop_first() =~= enc_ids(b@) + r2);
            lemma_map_unique(a@, b@, |i: usize| Token::Id(i), r1, r2);
        },
        Value::Lines(a) => {
            let b = w->Lines_0;
            assert(a@.len() == b@.len());
            assert(tail1 =~= enc_lines(a@) + r1);
            assert((enc(w) + r2).drop_first() =~= enc_lines(b@) + r2);
            lemma_map_unique(a@, b@, |s: String| Token::Text(s), r1, r2);
        },
        Value::Object(es) => {
            let fs = w->Object_0;
            assert(decreases_to!(v => es));
            assert(tail1 =~= enc_entries(es@) + r1);
            assert((enc(w) + r2).drop_first() =~= enc_entries(fs@) + r2);
            lemma_entries_unique(es@, fs@, r1, r2);
        },
        Value::List(xs) => {
            let ys = w->List_0;
            assert(decreases_to!(v => xs));
            assert(tail1 =~= enc_values(xs@) + r1);
            assert((enc(w) + r2).drop_first() =~= enc_values(ys@) + r2);
            lemma_values_unique(xs@, ys@, r1, r2);
        },
        _ => {
            assert(enc(v) + r1 =~= seq![head(v)] + r1);
            assert(enc(w) + r2 =~= seq![head(w)] + r2);
            assert(r1 =~= (enc(v) + r1).drop_first());
            assert(r2 =~= (enc(w) + r2).drop_first());
        },
    }
}

proof fn lemma_entries_unique(a: Seq<Entry>, b: Seq<Entry>, r1: Seq<Token>, r2: Seq<Token>)
    requires
        a.len() == b.len(),
        enc_entries(a) + r1 == enc_entries(b) + r2,
    ensures
        same_entries(a, b),
        r1 == r2,
    decreases a,
{
    if a.len() == 0 {
        assert(enc_entries(a) + r1 =~= r1);
        assert(enc_entries(b) + r2 =~= r2);
    } else {
        let x = enc_entries(a) + r1;
        assert(x[0] == Token::Field(a[0].field));
        assert((enc_entries(b) + r2)[0] == Token::Field(b[0].field));
        assert(x.drop_first() =~= enc(a[0].value) + (enc_entries(a.drop_first()) + r1));
        assert((enc_entries(b) + r2).drop_first() =~= enc(b[0].value) + (enc_entries(b.drop_first()) + r2));
        lemma_enc_unique(a[0].value, b[0].value, enc_entries(a.drop_first()) + r1, enc_entries(b.drop_first()) + r2);
        lemma_entries_unique(a.drop_first(), b.drop_first(), r1, r2);
    }
}

proof fn lemma_values_unique(a: Seq<Value>, b: Seq<Value>, r1: Seq<Token>, r2: Seq<Token>)
    requires
        a.len() == b.len(),
        enc_values(a) + r1 == enc_values(b) + r2,
    ensures
        same_values(a, b),
        r1 == r2,
    decreases a,
{
    if a.len() == 0 {
        assert(enc_values(a) + r1 =~= r1);
        assert(enc_values(b) + r2 =~= r2);
    } else {
        assert(enc_values(a) + r1 =~= enc(a[0]) + (enc_values(a.drop_first()) + r1));
        assert(enc_values(b) + r2 =~= enc(b[0]) + (enc_values(b.drop_first()) + r2));
        lemma_enc_unique(a[0], b[0], enc_values(a.drop_first()) + r1, enc_values(b.drop_first()) + r2);
        lemma_values_unique(a.drop_first(), b.drop_first(), r1, r2);
    }
}

/// Two trees with the same serialized form are the same tree; so the tree
/// that `decode` reads back from what `encode` wrote is the tree that was
/// written, with every scalar, field name, ordering and marker.
pub proof fn lemma_round_trip(v: Value, w: Value)
    requires
        enc(w) == enc(v),
    ensures
        same(v, w),
{
    assert(enc(v) + Seq::<Token>::empty() =~= enc(v));
    assert(enc(w) + Seq::<Token>::empty() =~= enc(w));
    lemma_enc_unique(v, w, Seq::empty(), Seq::empty());
}

/// Reads a whole serialized tree. It succeeds exactly when `toks` is the
/// serialized form of some tree, and then returns a tree with that very
/// serialized form: re-reading what `encode` wrote gives back every scalar,
/// field name, ordering and absent or failure marker.
pub fn decode(toks: &Vec<Token>) -> (r: Option<Value>)
    ensures
        r matches Some(w) ==> enc(w) == toks@,
        r matches Some(w) ==> forall|v: Value| #[trigger] enc(v) == toks@ ==> same(v, w),
        (exists|v: Value| enc(v) == toks@) ==> r is Some,
{
    let ghost expect = choose|v: Value| enc(v) == toks@;
    proof {
        if exists|v: Value| enc(v) == toks@ {
            assert(toks@.subrange(0, toks@.len() as int) =~= toks@);
            assert(holds_at(toks@, 0, enc(expect)));
        }
    }
    match decode_at(toks, 0, Ghost(expect)) {
        Some((w, end)) => {
            if end == toks.len() {
                proof {
                    assert(toks@.subrange(0, toks@.len() as int) =~= toks@);
                    assert forall|v: Value| #[trigger] enc(v) == toks@ implies same(v, w) by {
                        lemma_round_trip(v, w);
                    }
                }
                Some(w)
            } else {
                None
            }
        },
        None => None,
    }
}

} // verus!
