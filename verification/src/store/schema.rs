//! Row layouts: a schema names the type of each column, and a row is
//! stored as a bitmap of its null columns followed by the bytes of each
//! value that is there.

use vstd::prelude::*;
use vstd::utf8::*;
use vstd::string::StringSliceAdditionalSpecFns;
use crate::errors::StoreErr;
use crate::query::lexer::string_from_utf8;
use crate::store::value::{Value, ValueV};
use crate::store::pages::page::{le64, le16, u64_at, u16_at, push_u64_le, push_u16_le, read_u64_le, read_u16_le, lemma_u64_at, lemma_u16_at};

verus! {

broadcast use vstd::seq::group_seq_axioms;

/// The type of a column.
#[derive(Clone, Copy, PartialEq, Eq, Debug)]
pub enum Type {
    Bool,
    Int,
    Uint,
    Float,
    Text,
    Blob,
}

/// A named, typed column.
#[derive(Debug, PartialEq)]
pub struct Column {
    pub name: String,
    pub ty: Type,
}

/// The columns of a table, in order.
#[derive(Debug, PartialEq)]
pub struct Schema(pub Vec<Column>);

/// Bytes of the null bitmap of a row with `n` columns: one bit a column.
pub open spec fn bitmap_len(n: int) -> int {
    (n + 7) / 8
}

/// Bit `i` of the bitmap `m` is set.
pub open spec fn bit_set(m: Seq<u8>, i: int) -> bool {
    m[i / 8] & (1u8 << ((i % 8) as u8)) != 0
}

/// A value's view, where there is one.
pub open spec fn opt_view(o: Option<Value>) -> Option<ValueV> {
    match o {
        Some(v) => Some(v@),
        None => None,
    }
}

/// A row's values, each by its view.
pub open spec fn row_view(vs: Seq<Option<Value>>) -> Seq<Option<ValueV>> {
    vs.map_values(|o: Option<Value>| opt_view(o))
}

/// The bytes that store a value.
pub open spec fn value_bytes(v: ValueV) -> Seq<u8> {
    match v {
        ValueV::Bool(b) => seq![if b { 1u8 } else { 0u8 }],
        ValueV::Int(x) => le64(x as u64),
        ValueV::Uint(x) => le64(x as u64),
        ValueV::Float(x) => le64(x),
        ValueV::Text(s) => le16(encode_utf8(s).len() as u16) + encode_utf8(s),
        ValueV::Blob(b) => le16(b.len() as u16) + b,
    }
}

/// The bytes of a row's values, in order, with nothing for a missing one.
pub open spec fn body_bytes(es: Seq<Option<ValueV>>) -> Seq<u8>
    decreases es.len(),
{
    if es.len() == 0 {
        seq![]
    } else {
        body_bytes(es.drop_last()) + match es.last() {
            Some(v) => value_bytes(v),
            None => seq![],
        }
    }
}

/// What reading a row gives: its values, or the way it went wrong.
pub enum RowRead {
    Values(Seq<Option<ValueV>>),
    /// The bytes ran out.
    Short,
    /// A text value was not valid UTF-8.
    BadText,
}

/// `x` read first, then the rest.
pub open spec fn then(x: Option<ValueV>, rest: RowRead) -> RowRead {
    match rest {
        RowRead::Values(vs) => RowRead::Values(seq![x] + vs),
        other => other,
    }
}

/// The values read before, then the rest.
pub open spec fn after(pre: Seq<Option<ValueV>>, rest: RowRead) -> RowRead {
    match rest {
        RowRead::Values(vs) => RowRead::Values(pre + vs),
        other => other,
    }
}

/// Reads the values of columns `i` on, the first of them at byte `at`.
pub open spec fn read_from(tys: Seq<Type>, p: Seq<u8>, i: int, at: int) -> RowRead
    decreases tys.len() - i,
{
    if i < 0 || i >= tys.len() || at < 0 {
        RowRead::Values(seq![])
    } else if bit_set(p, i) {
        then(None, read_from(tys, p, i + 1, at))
    } else {
        match tys[i] {
            Type::Bool => if at + 1 > p.len() { RowRead::Short } else {
                then(Some(ValueV::Bool(p[at] == 1)), read_from(tys, p, i + 1, at + 1))
            },
            Type::Int => if at + 8 > p.len() { RowRead::Short } else {
                then(Some(ValueV::Int(u64_at(p, at) as isize)), read_from(tys, p, i + 1, at + 8))
            },
            Type::Uint => if at + 8 > p.len() { RowRead::Short } else {
                then(Some(ValueV::Uint(u64_at(p, at) as usize)), read_from(tys, p, i + 1, at + 8))
            },
            Type::Float => if at + 8 > p.len() { RowRead::Short } else {
                then(Some(ValueV::Float(u64_at(p, at))), read_from(tys, p, i + 1, at + 8))
            },
            Type::Text => if at + 2 > p.len() || at + 2 + u16_at(p, at) > p.len() { RowRead::Short } else {
                let b = p.subrange(at + 2, at + 2 + u16_at(p, at));
                if !valid_utf8(b) { RowRead::BadText } else {
                    then(Some(ValueV::Text(decode_utf8(b))), read_from(tys, p, i + 1, at + 2 + u16_at(p, at)))
                }
            },
            Type::Blob => if at + 2 > p.len() || at + 2 + u16_at(p, at) > p.len() { RowRead::Short } else {
                let b = p.subrange(at + 2, at + 2 + u16_at(p, at));
                then(Some(ValueV::Blob(b)), read_from(tys, p, i + 1, at + 2 + u16_at(p, at)))
            },
        }
    }
}

/// `r` is what `decode` returns for the reading `rr`.
pub open spec fn decoded_as(rr: RowRead, r: Result<Vec<Option<Value>>, StoreErr>) -> bool {
    match rr {
        RowRead::Values(vs) => r matches Ok(v) && row_view(v@) == vs,
        RowRead::Short => r matches Err(StoreErr::IOErr),
        RowRead::BadText => r matches Err(StoreErr::DecodeErr),
    }
}

/// Reading `x` next adds it to what was read before.
pub proof fn lemma_after_then(pre: Seq<Option<ValueV>>, x: Option<ValueV>, rest: RowRead)
    ensures
        after(pre, then(x, rest)) == after(pre.push(x), rest),
{
    match rest {
        RowRead::Values(vs) => {
            assert(pre + (seq![x] + vs) =~= pre.push(x) + vs);
        },
        _ => {},
    }
}


/// The type a value has.
pub open spec fn type_of(v: ValueV) -> Type {
    match v {
        ValueV::Bool(_) => Type::Bool,
        ValueV::Int(_) => Type::Int,
        ValueV::Uint(_) => Type::Uint,
        ValueV::Float(_) => Type::Float,
        ValueV::Text(_) => Type::Text,
        ValueV::Blob(_) => Type::Blob,
    }
}

/// A value that a column of type `t` can store and give back: of that type,
/// and, for text and blobs, with a length that its two length bytes hold.
pub open spec fn storable(v: ValueV, t: Type) -> bool {
    &&& type_of(v) == t
    &&& v matches ValueV::Text(s) ==> encode_utf8(s).len() <= u16::MAX
    &&& v matches ValueV::Blob(b) ==> b.len() <= u16::MAX
}

/// The bytes of two runs of values are the bytes of each, one after the
/// other.
pub proof fn lemma_body_append(a: Seq<Option<ValueV>>, c: Seq<Option<ValueV>>)
    ensures
        body_bytes(a + c) == body_bytes(a) + body_bytes(c),
    decreases c.len(),
{
    if c.len() == 0 {
        assert(a + c =~= a);
        assert(body_bytes(a) + body_bytes(c) =~= body_bytes(a));
    } else {
        assert((a + c).drop_last() =~= a + c.drop_last());
        lemma_body_append(a, c.drop_last());
        assert(body_bytes(a + c) =~= body_bytes(a) + body_bytes(c));
    }
}

/// What a row's bytes are, as `encode` states them.
pub open spec fn row_encoding(es: Seq<Option<ValueV>>, ncols: int, b: Seq<u8>) -> bool {
    let n = bitmap_len(ncols);
    &&& b.len() >= n
    &&& b.subrange(n, b.len() as int) == body_bytes(es)
    &&& forall|i: int| 0 <= i < 8 * n ==> (bit_set(b, i) <==> (i < es.len() && es[i] is None))
}

proof fn lemma_read_rest(tys: Seq<Type>, es: Seq<Option<ValueV>>, b: Seq<u8>, i: int)
    requires
        es.len() == tys.len(),
        forall|j: int| 0 <= j < es.len() ==> (#[trigger] es[j] matches Some(v) ==> storable(v, tys[j])),
        row_encoding(es, tys.len() as int, b),
        0 <= i <= es.len(),
    ensures
        read_from(tys, b, i, bitmap_len(tys.len() as int) + body_bytes(es.subrange(0, i)).len())
            == RowRead::Values(es.subrange(i, es.len() as int)),
    decreases es.len() - i,
{
    let n = bitmap_len(tys.len() as int);
    let at = n + body_bytes(es.subrange(0, i)).len();
    if i == es.len() {
        assert(es.subrange(i, es.len() as int) =~= Seq::<Option<ValueV>>::empty());
    } else {
        let x = es[i];
        let cur = body_bytes(seq![x]);
        let rest = es.subrange(i + 1, es.len() as int);
        assert(es =~= es.subrange(0, i) + (seq![x] + rest));
        lemma_body_append(es.subrange(0, i), seq![x] + rest);
        lemma_body_append(seq![x], rest);
        assert(es.subrange(0, i + 1) =~= es.subrange(0, i) + seq![x]);
        lemma_body_append(es.subrange(0, i), seq![x]);
        assert(seq![x].drop_last() =~= Seq::<Option<ValueV>>::empty());
        assert(body_bytes(Seq::<Option<ValueV>>::empty()) =~= Seq::<u8>::empty());
        let body = body_bytes(es);
        assert(b.subrange(n, b.len() as int) == body);
        assert(body == body_bytes(es.subrange(0, i)) + (cur + body_bytes(rest)));
        assert(b.subrange(at, at + cur.len()) =~= cur) by {
            assert forall|k: int| 0 <= k < cur.len() implies b.subrange(at, at + cur.len())[k] == cur[k] by {
                assert(b[at + k] == b.subrange(n, b.len() as int)[at + k - n]);
            }
        }
        lemma_read_rest(tys, es, b, i + 1);
        assert(8 * n >= tys.len()) by {
            assert(8 * ((tys.len() + 7) / 8) >= tys.len()) by (nonlinear_arith);
        }
        assert(es.subrange(i, es.len() as int) =~= seq![x] + rest);
        match x {
            None => {
                assert(bit_set(b, i));
                assert(cur =~= Seq::<u8>::empty());
            },
            Some(v) => {
                assert(!bit_set(b, i));
                assert(cur =~= value_bytes(v));
                lemma_read_one(tys, b, i, at, v, read_from(tys, b, i + 1, at + cur.len()));
            },
        }
    }
}

/// A value whose bytes stand at `at`, in a column whose null bit is clear,
/// is read back, and reading goes on after its bytes.
proof fn lemma_read_one(tys: Seq<Type>, b: Seq<u8>, i: int, at: int, v: ValueV, rest: RowRead)
    requires
        0 <= i < tys.len(),
        0 <= at,
        at + value_bytes(v).len() <= b.len(),
        b.subrange(at, at + value_bytes(v).len()) == value_bytes(v),
        !bit_set(b, i),
        storable(v, tys[i]),
        read_from(tys, b, i + 1, at + value_bytes(v).len()) == rest,
    ensures
        read_from(tys, b, i, at) == then(Some(v), rest),
{
    let cur = value_bytes(v);
    match v {
        ValueV::Bool(t) => {
            assert(b[at] == b.subrange(at, at + 1)[0]);
        },
        ValueV::Int(y) => {
            lemma_u64_at(b, at, y as u64);
            assert((y as u64) as isize == y) by (bit_vector);
        },
        ValueV::Uint(y) => {
            lemma_u64_at(b, at, y as u64);
            assert((y as u64) as usize == y) by (bit_vector);
        },
        ValueV::Float(y) => {
            lemma_u64_at(b, at, y);
        },
        ValueV::Text(t) => {
            let e = encode_utf8(t);
            assert(b.subrange(at, at + 2) =~= cur.subrange(0, 2));
            assert(cur.subrange(0, 2) =~= le16(e.len() as u16));
            lemma_u16_at(b, at, e.len() as u16);
            assert(b.subrange(at + 2, at + 2 + e.len()) =~= cur.subrange(2, cur.len() as int));
            assert(cur.subrange(2, cur.len() as int) =~= e);
            encode_utf8_valid_utf8(t);
            encode_utf8_decode_utf8(t);
        },
        ValueV::Blob(d) => {
            assert(b.subrange(at, at + 2) =~= cur.subrange(0, 2));
            assert(cur.subrange(0, 2) =~= le16(d.len() as u16));
            lemma_u16_at(b, at, d.len() as u16);
            assert(b.subrange(at + 2, at + 2 + d.len()) =~= cur.subrange(2, cur.len() as int));
            assert(cur.subrange(2, cur.len() as int) =~= d);
        },
    }
}

/// Decoding the bytes that `encode` gives for a row brings the row back,
/// where each value is storable in its column and each column has an entry.
pub proof fn lemma_decode_encode(tys: Seq<Type>, es: Seq<Option<ValueV>>, b: Seq<u8>)
    requires
        es.len() == tys.len(),
        forall|j: int| 0 <= j < es.len() ==> (#[trigger] es[j] matches Some(v) ==> storable(v, tys[j])),
        row_encoding(es, tys.len() as int, b),
    ensures
        read_from(tys, b, 0, bitmap_len(tys.len() as int)) == RowRead::Values(es),
{
    lemma_read_rest(tys, es, b, 0);
    assert(es.subrange(0, 0) =~= Seq::<Option<ValueV>>::empty());
    assert(es.subrange(0, es.len() as int) =~= es);
}

/// Setting bit `s` of a byte sets that bit and leaves the others.
pub proof fn lemma_set_bit(b: u8, s: u8, t: u8)
    requires
        s < 8,
        t < 8,
    ensures
        ((b | (1u8 << s)) & (1u8 << t) != 0) == (t == s || b & (1u8 << t) != 0),
{
    assert(((b | (1u8 << s)) & (1u8 << t) != 0) == (t == s || b & (1u8 << t) != 0)) by (bit_vector)
        requires
            s < 8,
            t < 8;
}

/// The null bit of column `col`.
pub fn bm_is_null(map: &[u8], col: usize) -> (r: bool)
    requires
        col / 8 < map@.len(),
    ensures
        r == bit_set(map@, col as int),
{
    map[col / 8] & (1u8 << ((col % 8) as u8)) != 0
}

/// Sets the null bit of column `col`.
pub fn bm_set_null(map: &mut Vec<u8>, col: usize)
    requires
        col / 8 < old(map)@.len(),
    ensures
        final(map)@ == old(map)@.update(col as int / 8, old(map)@[col as int / 8] | (1u8 << ((col % 8) as u8))),
{
    let i = col / 8;
    let b = map[i] | (1u8 << ((col % 8) as u8));
    map.set(i, b);
}

/// Setting a column's null bit sets that bit and no other.
pub proof fn lemma_set_null_bits(m: Seq<u8>, col: int, k: int)
    requires
        0 <= col,
        0 <= k,
        col / 8 < m.len(),
        k / 8 < m.len(),
    ensures
        bit_set(m.update(col / 8, m[col / 8] | (1u8 << ((col % 8) as u8))), k) == (k == col || bit_set(m, k)),
{
    let m2 = m.update(col / 8, m[col / 8] | (1u8 << ((col % 8) as u8)));
    if k / 8 == col / 8 {
        lemma_set_bit(m[col / 8], (col % 8) as u8, (k % 8) as u8);
        assert(k == col <==> k % 8 == col % 8);
    }
}

/// A value's stored bytes, computed.
fn push_value(buf: &mut Vec<u8>, v: &Value)
    ensures
        final(buf)@ == old(buf)@ + value_bytes(v@),
{
    match v {
        Value::Bool(x) => {
            buf.push(if *x { 1u8 } else { 0u8 });
            assert(final(buf)@ =~= old(buf)@ + value_bytes(v@));
        },
        Value::Int(x) => push_u64_le(buf, *x as u64),
        Value::Uint(x) => push_u64_le(buf, *x as u64),
        Value::Float(x) => push_u64_le(buf, *x),
        Value::Text(x) => {
            let bytes = x.as_str().as_bytes();
            push_u16_le(buf, bytes.len() as u16);
            push_bytes(buf, bytes);
            assert(final(buf)@ =~= old(buf)@ + value_bytes(v@));
        },
        Value::Blob(x) => {
            push_u16_le(buf, x.len() as u16);
            push_bytes(buf, x.as_slice());
            assert(final(buf)@ =~= old(buf)@ + value_bytes(v@));
        },
    }
}

fn push_bytes(buf: &mut Vec<u8>, bytes: &[u8])
    ensures
        final(buf)@ == old(buf)@ + bytes@,
{
    let ghost start = buf@;
    let mut i: usize = 0;
    while i < bytes.len()
        invariant
            i <= bytes@.len(),
            buf@ == start + bytes@.subrange(0, i as int),
        decreases bytes@.len() - i,
    {
        buf.push(bytes[i]);
        i = i + 1;
        assert(buf@ =~= start + bytes@.subrange(0, i as int));
    }
    assert(bytes@.subrange(0, i as int) =~= bytes@);
}

impl Schema {
    /// The columns' types, in order.
    pub open spec fn types(&self) -> Seq<Type> {
        self.0@.map_values(|c: Column| c.ty)
    }

    /// A schema with the given names and types.
    pub fn from_static(cols: &[(&str, Type)]) -> (r: Schema)
        ensures
            r.0@.len() == cols@.len(),
            forall|i: int| 0 <= i < cols@.len() ==> (#[trigger] r.0@[i]).name@ == cols@[i].0@ && r.0@[i].ty == cols@[i].1,
    {
        let mut v: Vec<Column> = Vec::new();
        let mut i: usize = 0;
        while i < cols.len()
            invariant
                i <= cols@.len(),
                v@.len() == i,
                forall|j: int| 0 <= j < i ==> (#[trigger] v@[j]).name@ == cols@[j].0@ && v@[j].ty == cols@[j].1,
            decreases cols@.len() - i,
        {
            let (name, ty) = cols[i];
            v.push(Column { name: name.to_owned(), ty });
            i = i + 1;
        }
        Schema(v)
    }

    /// The bytes of a row: a bitmap with one bit per column, set for each
    /// missing value, then the bytes of each value that is there.
    pub fn encode(&self, entries: Vec<Option<Value>>) -> (r: Result<Vec<u8>, StoreErr>)
        requires
            forall|i: int| 0 <= i < entries@.len() && entries@[i] is None ==> i / 8 < bitmap_len(self.0@.len() as int),
        ensures
            r matches Ok(b) && row_encoding(row_view(entries@), self.0@.len() as int, b@),
    {
        let n = self.0.len() / 8 + if self.0.len() % 8 == 0 { 0 } else { 1 };
        assert(n == bitmap_len(self.0@.len() as int));
        let mut bitmap: Vec<u8> = Vec::new();
        let mut j: usize = 0;
        while j < n
            invariant
                j <= n,
                bitmap@.len() == j,
                forall|k: int| 0 <= k < j ==> bitmap@[k] == 0,
            decreases n - j,
        {
            bitmap.push(0u8);
            j = j + 1;
        }
        proof {
            assert forall|k: int| 0 <= k < 8 * n implies !bit_set(bitmap@, k) by {
                let b = bitmap@[k / 8];
                let s = (k % 8) as u8;
                assert(b & (1u8 << s) == 0) by (bit_vector)
                    requires
                        b == 0;
            }
        }
        let ghost es = entries@;
        let mut body: Vec<u8> = Vec::new();
        let mut i: usize = 0;
        while i < entries.len()
            invariant
                es == entries@,
                n == bitmap_len(self.0@.len() as int),
                forall|i: int| 0 <= i < es.len() && es[i] is None ==> i / 8 < n,
                i <= es.len(),
                bitmap@.len() == n,
                body@ == body_bytes(row_view(es.subrange(0, i as int))),
                forall|k: int| 0 <= k < 8 * n ==> (bit_set(bitmap@, k) <==> (k < i && es[k] is None)),
            decreases es.len() - i,
        {
            let ghost before = bitmap@;
            proof {
                let pre = row_view(es.subrange(0, i + 1));
                assert(pre.drop_last() =~= row_view(es.subrange(0, i as int)));
            }
            match &entries[i] {
                Some(v) => {
                    push_value(&mut body, v);
                },
                None => {
                    bm_set_null(&mut bitmap, i);
                    proof {
                        assert forall|k: int| 0 <= k < 8 * n implies (bit_set(bitmap@, k) <==> (k < i + 1 && es[k] is None)) by {
                            lemma_set_null_bits(before, i as int, k);
                        }
                    }
                },
            }
            i = i + 1;
        }
        proof {
            assert(es.subrange(0, i as int) =~= es);
        }
        let ghost bm = bitmap@;
        assert(forall|k: int| 0 <= k < 8 * n ==> (bit_set(bm, k) <==> (k < es.len() && es[k] is None)));
        let mut out = bitmap;
        push_bytes(&mut out, body.as_slice());
        proof {
            assert(out@.subrange(n as int, out@.len() as int) =~= body@);
            assert forall|k: int| 0 <= k < 8 * n implies (bit_set(out@, k) <==> (k < es.len() && es[k] is None)) by {
                assert(out@[k / 8] == bm[k / 8]);
                assert(bit_set(bm, k) <==> (k < es.len() && es[k] is None));
            }
        }
        Ok(out)
    }

    /// The values of a row from its bytes: the null bitmap first, then, for
    /// each column whose bit is clear, a value of the column's type.
    /// `IOErr` where the bytes run out, `DecodeErr` for text that is not
    /// valid UTF-8.
    pub fn decode(&self, row_bytes: &[u8]) -> (r: Result<Vec<Option<Value>>, StoreErr>)
        ensures
            row_bytes@.len() < bitmap_len(self.0@.len() as int) ==> (r matches Err(StoreErr::IOErr)),
            row_bytes@.len() >= bitmap_len(self.0@.len() as int) ==> decoded_as(
                read_from(self.types(), row_bytes@, 0, bitmap_len(self.0@.len() as int)), r),
    {
        let ghost tys = self.types();
        let ghost p = row_bytes@;
        let n = self.0.len();
        let nb = n / 8 + if n % 8 == 0 { 0 } else { 1 };
        assert(nb == bitmap_len(n as int));
        let len = row_bytes.len();
        if len < nb {
            return Err(StoreErr::IOErr);
        }
        let mut vals: Vec<Option<Value>> = Vec::new();
        let mut at: usize = nb;
        let mut i: usize = 0;
        while i < n
            invariant
                tys == self.types(),
                p == row_bytes@,
                n == self.0@.len(),
                len == p.len(),
                nb == bitmap_len(n as int),
                nb <= at <= len,
                i <= n,
                read_from(tys, p, 0, nb as int) == after(row_view(vals@), read_from(tys, p, i as int, at as int)),
            decreases n - i,
        {
            let ghost pre = row_view(vals@);
            assert(tys[i as int] == self.0@[i as int].ty);
            assert(i / 8 < nb);
            if bm_is_null(row_bytes, i) {
                vals.push(None);
                proof { lemma_after_then(pre, None, read_from(tys, p, i + 1, at as int)); }
                assert(row_view(vals@) =~= pre.push(None));
            } else {
                match self.0[i].ty {
                    Type::Bool => {
                        if len - at < 1 {
                            return Err(StoreErr::IOErr);
                        }
                        let x = Some(Value::Bool(row_bytes[at] == 1));
                        vals.push(x);
                        proof { lemma_after_then(pre, opt_view(x), read_from(tys, p, i + 1, at + 1)); }
                        assert(row_view(vals@) =~= pre.push(opt_view(x)));
                        at = at + 1;
                    },
                    Type::Int => {
                        if len - at < 8 {
                            return Err(StoreErr::IOErr);
                        }
                        let raw = read_u64_le(row_bytes, at);
                        proof { lemma_u64_at(p, at as int, raw); }
                        let x = Some(Value::Int(raw as isize));
                        vals.push(x);
                        proof { lemma_after_then(pre, opt_view(x), read_from(tys, p, i + 1, at + 8)); }
                        assert(row_view(vals@) =~= pre.push(opt_view(x)));
                        at = at + 8;
                    },
                    Type::Uint => {
                        if len - at < 8 {
                            return Err(StoreErr::IOErr);
                        }
                        let raw = read_u64_le(row_bytes, at);
                        proof { lemma_u64_at(p, at as int, raw); }
                        let x = Some(Value::Uint(raw as usize));
                        vals.push(x);
                        proof { lemma_after_then(pre, opt_view(x), read_from(tys, p, i + 1, at + 8)); }
                        assert(row_view(vals@) =~= pre.push(opt_view(x)));
                        at = at + 8;
                    },
                    Type::Float => {
                        if len - at < 8 {
                            return Err(StoreErr::IOErr);
                        }
                        let raw = read_u64_le(row_bytes, at);
                        proof { lemma_u64_at(p, at as int, raw); }
                        let x = Some(Value::Float(raw));
                        vals.push(x);
                        proof { lemma_after_then(pre, opt_view(x), read_from(tys, p, i + 1, at + 8)); }
                        assert(row_view(vals@) =~= pre.push(opt_view(x)));
                        at = at + 8;
                    },
                    Type::Text => {
                        if len - at < 2 {
                            return Err(StoreErr::IOErr);
                        }
                        let l = read_u16_le(row_bytes, at) as usize;
                        proof { lemma_u16_at(p, at as int, l as u16); }
                        if l > len - (at + 2) {
                            return Err(StoreErr::IOErr);
                        }
                        let bytes = vstd::slice::slice_to_vec(vstd::slice::slice_subrange(row_bytes, at + 2, at + 2 + l));
                        let text = match string_from_utf8(bytes) {
                            Some(t) => t,
                            None => return Err(StoreErr::DecodeErr),
                        };
                        let x = Some(Value::Text(text));
                        vals.push(x);
                        proof { lemma_after_then(pre, opt_view(x), read_from(tys, p, i + 1, at + 2 + l)); }
                        assert(row_view(vals@) =~= pre.push(opt_view(x)));
                        at = at + 2 + l;
                    },
                    Type::Blob => {
                        if len - at < 2 {
                            return Err(StoreErr::IOErr);
                        }
                        let l = read_u16_le(row_bytes, at) as usize;
                        proof { lemma_u16_at(p, at as int, l as u16); }
                        if l > len - (at + 2) {
                            return Err(StoreErr::IOErr);
                        }
                        let bytes = vstd::slice::slice_to_vec(vstd::slice::slice_subrange(row_bytes, at + 2, at + 2 + l));
                        let x = Some(Value::Blob(bytes));
                        vals.push(x);
                        proof { lemma_after_then(pre, opt_view(x), read_from(tys, p, i + 1, at + 2 + l)); }
                        assert(row_view(vals@) =~= pre.push(opt_view(x)));
                        at = at + 2 + l;
                    },
                }
            }
            i = i + 1;
        }
        assert(row_view(vals@) + seq![] =~= row_view(vals@));
        Ok(vals)
    }
}

/// The eight little-endian bytes of `x`: its base-256 digits, least
/// significant first.
proof fn lemma_le64_digits(x: u64)
    ensures
        le64(x) == seq![(x % 256) as u8, ((x / 256) % 256) as u8, ((x / 65536) % 256) as u8, ((x / 16777216) % 256) as u8,
            ((x / 4294967296) % 256) as u8, ((x / 1099511627776) % 256) as u8, ((x / 281474976710656) % 256) as u8,
            ((x / 72057594037927936) % 256) as u8],
{
    assert(x as u8 == (x % 256) as u8
        && (x >> 8u64) as u8 == ((x / 256) % 256) as u8
        && (x >> 16u64) as u8 == ((x / 65536) % 256) as u8
        && (x >> 24u64) as u8 == ((x / 16777216) % 256) as u8
        && (x >> 32u64) as u8 == ((x / 4294967296) % 256) as u8
        && (x >> 40u64) as u8 == ((x / 1099511627776) % 256) as u8
        && (x >> 48u64) as u8 == ((x / 281474976710656) % 256) as u8
        && (x >> 56u64) as u8 == ((x / 72057594037927936) % 256) as u8) by (bit_vector);
}

/// How each value is stored: a truth value as one byte, 1 or 0; a signed or
/// unsigned integer or a float's bits as eight bytes, least significant
/// first; a text or a blob as its length in two bytes, least significant
/// first, then its bytes.
pub proof fn lemma_value_layout(v: ValueV)
    ensures
        v matches ValueV::Bool(b) ==> value_bytes(v) == seq![if b { 1u8 } else { 0u8 }],
        ({
            let w: u64 = match v {
                ValueV::Int(x) => x as u64,
                ValueV::Uint(x) => x as u64,
                ValueV::Float(x) => x,
                _ => 0,
            };
            (v is Int || v is Uint || v is Float) ==> value_bytes(v) == seq![(w % 256) as u8, ((w / 256) % 256) as u8,
                ((w / 65536) % 256) as u8, ((w / 16777216) % 256) as u8, ((w / 4294967296) % 256) as u8,
                ((w / 1099511627776) % 256) as u8, ((w / 281474976710656) % 256) as u8, ((w / 72057594037927936) % 256) as u8]
        }),
        v matches ValueV::Text(t) ==> (encode_utf8(t).len() < 65536 ==> value_bytes(v)
            == seq![(encode_utf8(t).len() % 256) as u8, (encode_utf8(t).len() / 256) as u8] + encode_utf8(t)),
        v matches ValueV::Blob(b) ==> (b.len() < 65536 ==> value_bytes(v) == seq![(b.len() % 256) as u8, (b.len() / 256) as u8] + b),
{
    match v {
        ValueV::Int(x) => lemma_le64_digits(x as u64),
        ValueV::Uint(x) => lemma_le64_digits(x as u64),
        ValueV::Float(x) => lemma_le64_digits(x),
        ValueV::Text(t) => {
            let n = encode_utf8(t).len();
            if n < 65536 {
                let u = n as u16;
                assert(u as u8 == (u % 256) as u8 && (u >> 8u16) as u8 == (u / 256) as u8) by (bit_vector);
            }
        },
        ValueV::Blob(b) => {
            let n = b.len();
            if n < 65536 {
                let u = n as u16;
                assert(u as u8 == (u % 256) as u8 && (u >> 8u16) as u8 == (u / 256) as u8) by (bit_vector);
            }
        },
        _ => {},
    }
}

/// A row of one column is one bitmap byte, 1 where the value is missing and
/// 0 where it is there, and then the value's bytes.
pub proof fn lemma_one_column_row(e: Option<ValueV>, b: Seq<u8>)
    requires
        row_encoding(seq![e], 1, b),
    ensures
        e is None ==> b == seq![1u8],
        e matches Some(v) ==> b == seq![0u8] + value_bytes(v),
{
    let es = seq![e];
    assert(es.drop_last() =~= Seq::<Option<ValueV>>::empty());
    assert(body_bytes(es) == body_bytes(es.drop_last()) + match e { Some(v) => value_bytes(v), None => seq![] });
    assert(bitmap_len(1) == 1);
    let m = b[0];
    assert forall|i: int| 0 <= i < 8 implies (bit_set(b, i) <==> (i == 0 && e is None)) by {
        assert(bit_set(b, i) <==> (i < es.len() && es[i] is None));
    }
    assert(m & (1u8 << 0u8) != 0 <==> bit_set(b, 0));
    assert(m & (1u8 << 1u8) == 0 && m & (1u8 << 2u8) == 0 && m & (1u8 << 3u8) == 0 && m & (1u8 << 4u8) == 0
        && m & (1u8 << 5u8) == 0 && m & (1u8 << 6u8) == 0 && m & (1u8 << 7u8) == 0) by {
        assert(!bit_set(b, 1) && !bit_set(b, 2) && !bit_set(b, 3) && !bit_set(b, 4) && !bit_set(b, 5) && !bit_set(b, 6) && !bit_set(b, 7));
    }
    if e is None {
        assert(m & (1u8 << 0u8) != 0);
        assert(m == 1u8) by (bit_vector)
            requires
                m & (1u8 << 0u8) != 0, m & (1u8 << 1u8) == 0, m & (1u8 << 2u8) == 0, m & (1u8 << 3u8) == 0,
                m & (1u8 << 4u8) == 0, m & (1u8 << 5u8) == 0, m & (1u8 << 6u8) == 0, m & (1u8 << 7u8) == 0;
        assert(b =~= seq![1u8]);
    } else {
        assert(m & (1u8 << 0u8) == 0);
        assert(m == 0u8) by (bit_vector)
            requires
                m & (1u8 << 0u8) == 0, m & (1u8 << 1u8) == 0, m & (1u8 << 2u8) == 0, m & (1u8 << 3u8) == 0,
                m & (1u8 << 4u8) == 0, m & (1u8 << 5u8) == 0, m & (1u8 << 6u8) == 0, m & (1u8 << 7u8) == 0;
        assert(b =~= seq![0u8] + b.subrange(1, b.len() as int));
    }
}

} // verus!
