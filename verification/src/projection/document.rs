//! Documents: a compact binary form of nested values with a table of offsets
//! in front of every object, so that a field is found without reading the
//! others.
//!
//! A document starts with a header of twenty bytes: the four bytes `HEXD`, the
//! kind of the root, three bytes of padding, the number of fields of the root,
//! the offset of the root, and the offset of the string pool. Then come the
//! values, and the pool with every string once, each after its length.
//! Numbers are written lowest byte first. A floating-point number is held as
//! its 64 bits.

use vstd::prelude::*;
use vstd::utf8::encode_utf8;

use crate::bytes::{
    bits_of, copy_range, from_bits, get_le32, get_le64, le32, le64, of_bits, push_bytes, push_le32,
    push_le64, read_le32, read_le64, to_bits,
};
use crate::error::{corrupt_error, CenError, CenResult, CenStatus, ErrorView};
use crate::strmap::StrMap;
use crate::text::{
    chars_of, decimal, decimal_string, from_utf8_lossy, lossy_text, same_text, string_of,
};

verus! {

/// The kind of a value.
#[derive(Clone, Copy, Debug, PartialEq, Eq, Structural)]
pub enum DocKind {
    Null,
    Bool,
    I64,
    F64,
    Str,
    Bytes,
    Object,
    Array,
}

/// The number of a kind.
pub open spec fn kind_tag(k: DocKind) -> u8 {
    match k {
        DocKind::Null => 0,
        DocKind::Bool => 1,
        DocKind::I64 => 2,
        DocKind::F64 => 3,
        DocKind::Str => 4,
        DocKind::Bytes => 5,
        DocKind::Object => 6,
        DocKind::Array => 7,
    }
}

/// The kind of a number; an unknown number counts as null.
pub open spec fn kind_of_tag(b: u8) -> DocKind {
    if b == 1 {
        DocKind::Bool
    } else if b == 2 {
        DocKind::I64
    } else if b == 3 {
        DocKind::F64
    } else if b == 4 {
        DocKind::Str
    } else if b == 5 {
        DocKind::Bytes
    } else if b == 6 {
        DocKind::Object
    } else if b == 7 {
        DocKind::Array
    } else {
        DocKind::Null
    }
}

impl DocKind {
    /// The kind of a number; an unknown number counts as null.
    pub fn from_u8(b: u8) -> (r: Self)
        ensures
            r == kind_of_tag(b),
    {
        match b {
            1 => DocKind::Bool,
            2 => DocKind::I64,
            3 => DocKind::F64,
            4 => DocKind::Str,
            5 => DocKind::Bytes,
            6 => DocKind::Object,
            7 => DocKind::Array,
            _ => DocKind::Null,
        }
    }

    /// The number of a kind.
    pub fn tag(self) -> (r: u8)
        ensures
            r == kind_tag(self),
    {
        match self {
            DocKind::Null => 0,
            DocKind::Bool => 1,
            DocKind::I64 => 2,
            DocKind::F64 => 3,
            DocKind::Str => 4,
            DocKind::Bytes => 5,
            DocKind::Object => 6,
            DocKind::Array => 7,
        }
    }
}

/// A nested value. A floating-point number is held as its 64 bits.
#[derive(Debug, PartialEq)]
pub enum DocValue {
    Null,
    Bool(bool),
    I64(i64),
    F64(u64),
    Str(String),
    Bytes(Vec<u8>),
    Object(Vec<(String, DocValue)>),
    Array(Vec<DocValue>),
}

/// The mathematical value of a [`DocValue`].
pub enum DocView {
    Null,
    Bool(bool),
    I64(i64),
    F64(u64),
    Str(Seq<char>),
    Bytes(Seq<u8>),
    Object(Seq<(Seq<char>, DocView)>),
    Array(Seq<DocView>),
}

/// The value of a document value.
pub open spec fn doc_view(v: DocValue) -> DocView
    decreases v,
{
    match v {
        DocValue::Null => DocView::Null,
        DocValue::Bool(b) => DocView::Bool(b),
        DocValue::I64(x) => DocView::I64(x),
        DocValue::F64(x) => DocView::F64(x),
        DocValue::Str(s) => DocView::Str(s@),
        DocValue::Bytes(b) => DocView::Bytes(b@),
        DocValue::Object(fields) => DocView::Object(fields_view(fields@)),
        DocValue::Array(items) => DocView::Array(items_view(items@)),
    }
}

/// The values of the fields of an object.
pub open spec fn fields_view(s: Seq<(String, DocValue)>) -> Seq<(Seq<char>, DocView)>
    decreases s,
{
    if s.len() == 0 {
        seq![]
    } else {
        fields_view(s.drop_last()).push((s.last().0@, doc_view(s.last().1)))
    }
}

/// The values of the items of an array.
pub open spec fn items_view(s: Seq<DocValue>) -> Seq<DocView>
    decreases s,
{
    if s.len() == 0 {
        seq![]
    } else {
        items_view(s.drop_last()).push(doc_view(s.last()))
    }
}

impl View for DocValue {
    type V = DocView;

    open spec fn view(&self) -> DocView {
        doc_view(*self)
    }
}

/// The fields of an object, one by one.
pub proof fn lemma_fields_view(s: Seq<(String, DocValue)>)
    ensures
        fields_view(s).len() == s.len(),
        forall|i: int|
            0 <= i < s.len() ==> #[trigger] fields_view(s)[i] == (s[i].0@, doc_view(s[i].1)),
    decreases s.len(),
{
    if s.len() > 0 {
        lemma_fields_view(s.drop_last());
    }
}

/// The items of an array, one by one.
pub proof fn lemma_items_view(s: Seq<DocValue>)
    ensures
        items_view(s).len() == s.len(),
        forall|i: int| 0 <= i < s.len() ==> #[trigger] items_view(s)[i] == doc_view(s[i]),
    decreases s.len(),
{
    if s.len() > 0 {
        lemma_items_view(s.drop_last());
    }
}

/// The kind of a value.
pub open spec fn kind_of(v: DocView) -> DocKind {
    match v {
        DocView::Null => DocKind::Null,
        DocView::Bool(_) => DocKind::Bool,
        DocView::I64(_) => DocKind::I64,
        DocView::F64(_) => DocKind::F64,
        DocView::Str(_) => DocKind::Str,
        DocView::Bytes(_) => DocKind::Bytes,
        DocView::Object(_) => DocKind::Object,
        DocView::Array(_) => DocKind::Array,
    }
}

/// The first of the fields from place `i` on with the given name.
pub open spec fn first_field(fields: Seq<(Seq<char>, DocView)>, key: Seq<char>, i: int) -> Option<
    DocView,
>
    decreases fields.len() - i,
{
    if 0 <= i < fields.len() {
        if fields[i].0 == key {
            Some(fields[i].1)
        } else {
            first_field(fields, key, i + 1)
        }
    } else {
        None
    }
}

/// The field of a value with the given name; other values than objects have
/// none.
pub open spec fn field_of(v: DocView, key: Seq<char>) -> Option<DocView> {
    match v {
        DocView::Object(fields) => first_field(fields, key, 0),
        _ => None,
    }
}

/// The values of the items of an array, or nothing for another value.
pub open spec fn item_of(v: DocView, i: int) -> Option<DocView> {
    match v {
        DocView::Array(items) => if 0 <= i < items.len() {
            Some(items[i])
        } else {
            None
        },
        _ => None,
    }
}

/// The value of an optional document value.
pub open spec fn doc_option(v: Option<&DocValue>) -> Option<DocView> {
    match v {
        Some(d) => Some(d@),
        None => None,
    }
}

impl DocValue {
    /// The kind of the value.
    pub fn kind(&self) -> (r: DocKind)
        ensures
            r == kind_of(self@),
    {
        match self {
            DocValue::Null => DocKind::Null,
            DocValue::Bool(_) => DocKind::Bool,
            DocValue::I64(_) => DocKind::I64,
            DocValue::F64(_) => DocKind::F64,
            DocValue::Str(_) => DocKind::Str,
            DocValue::Bytes(_) => DocKind::Bytes,
            DocValue::Object(_) => DocKind::Object,
            DocValue::Array(_) => DocKind::Array,
        }
    }

    /// The field of an object with the given name; the first, if there are
    /// several.
    pub fn get(&self, key: &str) -> (r: Option<&DocValue>)
        ensures
            doc_option(r) == field_of(self@, key@),
    {
        match self {
            DocValue::Object(fields) => {
                let mut i: usize = 0;
                proof {
                    lemma_fields_view(fields@);
                }
                while i < fields.len()
                    invariant
                        i <= fields@.len(),
                        self@ == DocView::Object(fields_view(fields@)),
                        fields_view(fields@).len() == fields@.len(),
                        forall|k: int|
                            0 <= k < fields@.len() ==> #[trigger] fields_view(fields@)[k] == (
                                fields@[k].0@,
                                doc_view(fields@[k].1),
                            ),
                        first_field(fields_view(fields@), key@, i as int) == first_field(
                            fields_view(fields@),
                            key@,
                            0,
                        ),
                    decreases fields@.len() - i,
                {
                    if same_text(fields[i].0.as_str(), key) {
                        return Some(&fields[i].1);
                    }
                    i = i + 1;
                }
                None
            },
            _ => None,
        }
    }

    /// The item of an array at an index.
    pub fn index(&self, i: usize) -> (r: Option<&DocValue>)
        ensures
            doc_option(r) == item_of(self@, i as int),
    {
        match self {
            DocValue::Array(items) => {
                proof {
                    lemma_items_view(items@);
                }
                if i < items.len() {
                    Some(&items[i])
                } else {
                    None
                }
            },
            _ => None,
        }
    }
}

impl Clone for DocValue {
    fn clone(&self) -> (res: Self)
        ensures
            res@ == self@,
        decreases self,
    {
        match self {
            DocValue::Null => DocValue::Null,
            DocValue::Bool(b) => DocValue::Bool(*b),
            DocValue::I64(x) => DocValue::I64(*x),
            DocValue::F64(x) => DocValue::F64(*x),
            DocValue::Str(s) => DocValue::Str(s.clone()),
            DocValue::Bytes(b) => {
                let copy: Vec<u8> = copy_range(b.as_slice(), 0, b.len());
                assert(copy@ =~= b@);
                DocValue::Bytes(copy)
            },
            DocValue::Object(fields) => {
                let mut out: Vec<(String, DocValue)> = Vec::new();
                let mut i: usize = 0;
                while i < fields.len()
                    invariant
                        i <= fields@.len(),
                        out@.len() == i,
                        *self == DocValue::Object(*fields),
                        fields_view(out@) == fields_view(fields@.take(i as int)),
                    decreases fields@.len() - i,
                {
                    let ghost before = out@;
                    let pair: &(String, DocValue) = &fields[i];
                    proof {
                        assert(decreases_to!(*self => self->Object_0));
                        assert(decreases_to!(self->Object_0 => self->Object_0@));
                        assert(decreases_to!(self->Object_0@ => self->Object_0@[i as int]));
                        assert(decreases_to!(fields@[i as int] => fields@[i as int].1));
                    }
                    let v: DocValue = pair.1.clone();
                    out.push((pair.0.clone(), v));
                    proof {
                        assert(out@.drop_last() =~= before);
                        assert(fields@.take(i + 1).drop_last() =~= fields@.take(i as int));
                    }
                    i = i + 1;
                }
                assert(fields@.take(i as int) =~= fields@);
                DocValue::Object(out)
            },
            DocValue::Array(items) => {
                let mut out: Vec<DocValue> = Vec::new();
                let mut i: usize = 0;
                while i < items.len()
                    invariant
                        i <= items@.len(),
                        out@.len() == i,
                        *self == DocValue::Array(*items),
                        items_view(out@) == items_view(items@.take(i as int)),
                    decreases items@.len() - i,
                {
                    let ghost before = out@;
                    proof {
                        assert(decreases_to!(*self => self->Array_0));
                        assert(decreases_to!(self->Array_0 => self->Array_0@));
                        assert(decreases_to!(self->Array_0@ => self->Array_0@[i as int]));
                    }
                    let v: DocValue = items[i].clone();
                    out.push(v);
                    proof {
                        assert(out@.drop_last() =~= before);
                        assert(items@.take(i + 1).drop_last() =~= items@.take(i as int));
                    }
                    i = i + 1;
                }
                assert(items@.take(i as int) =~= items@);
                DocValue::Array(out)
            },
        }
    }
}


// ---------------------------------------------------------------------------
// Encoding
// ---------------------------------------------------------------------------
/// A document that is being written: the values so far, the string pool, and
/// where each string stands in the pool.
pub struct Draft {
    pub out: Seq<u8>,
    pub pool: Seq<u8>,
    pub ids: Map<Seq<char>, u32>,
}

/// A draft with other values.
pub open spec fn with_out(d: Draft, out: Seq<u8>) -> Draft {
    Draft { out, pool: d.pool, ids: d.ids }
}

/// The place of a string in the pool, once it is there.
pub open spec fn interned_id(d: Draft, s: Seq<char>) -> u32 {
    if d.ids.dom().contains(s) {
        d.ids[s]
    } else {
        d.pool.len() as u32
    }
}

/// A string as it stands in the pool: its length, then its UTF-8 bytes.
pub open spec fn pool_entry(s: Seq<char>) -> Seq<u8> {
    le32(encode_utf8(s).len() as u32) + encode_utf8(s)
}

/// A draft with a string in its pool; a string that is there stays where it is.
pub open spec fn interned(d: Draft, s: Seq<char>) -> Draft {
    if d.ids.dom().contains(s) {
        d
    } else {
        Draft {
            out: d.out,
            pool: d.pool + pool_entry(s),
            ids: d.ids.insert(s, d.pool.len() as u32),
        }
    }
}

/// A row of zero bytes.
pub open spec fn zeros(n: nat) -> Seq<u8> {
    Seq::new(n, |i: int| 0u8)
}

/// A sequence with `w` written over it from place `i` on.
pub open spec fn overwritten(s: Seq<u8>, i: int, w: Seq<u8>) -> Seq<u8> {
    s.take(i) + w + s.skip(i + w.len())
}

/// A draft with one more value. An object is its tag, its number of fields and
/// a table with the name and the offset of each field, followed by the fields'
/// values; an array likewise, with a table of offsets.
pub open spec fn encoded(d: Draft, v: DocView) -> Draft
    decreases v,
{
    let tagged = d.out.push(kind_tag(kind_of(v)));
    match v {
        DocView::Null => with_out(d, tagged),
        DocView::Bool(b) => with_out(
            d,
            tagged.push(
                if b {
                    1u8
                } else {
                    0u8
                },
            ),
        ),
        DocView::I64(x) => with_out(d, tagged + le64(bits_of(x))),
        DocView::F64(x) => with_out(d, tagged + le64(x)),
        DocView::Str(s) => with_out(interned(d, s), tagged + le32(interned_id(d, s))),
        DocView::Bytes(b) => with_out(d, tagged + le32(b.len() as u32) + b),
        DocView::Object(fields) => {
            let head = tagged + le32(fields.len() as u32);
            let (e, table) = encoded_fields(with_out(d, head + zeros(8 * fields.len())), fields);
            with_out(e, overwritten(e.out, head.len() as int, table))
        },
        DocView::Array(items) => {
            let head = tagged + le32(items.len() as u32);
            let (e, table) = encoded_items(with_out(d, head + zeros(4 * items.len())), items);
            with_out(e, overwritten(e.out, head.len() as int, table))
        },
    }
}

/// A draft with the values of fields, and the table of their names and
/// offsets.
pub open spec fn encoded_fields(d: Draft, fields: Seq<(Seq<char>, DocView)>) -> (Draft, Seq<u8>)
    decreases fields,
{
    if fields.len() == 0 {
        (d, seq![])
    } else {
        let (e, table) = encoded_fields(d, fields.drop_last());
        let name = fields.last().0;
        let f = interned(e, name);
        (
            encoded(f, fields.last().1),
            table + le32(interned_id(e, name)) + le32(f.out.len() as u32),
        )
    }
}

/// A draft with the values of items, and the table of their offsets.
pub open spec fn encoded_items(d: Draft, items: Seq<DocView>) -> (Draft, Seq<u8>)
    decreases items,
{
    if items.len() == 0 {
        (d, seq![])
    } else {
        let (e, table) = encoded_items(d, items.drop_last());
        (encoded(e, items.last()), table + le32(e.out.len() as u32))
    }
}

/// A table has eight bytes for each field.
pub proof fn lemma_fields_table(d: Draft, fields: Seq<(Seq<char>, DocView)>)
    ensures
        encoded_fields(d, fields).1.len() == 8 * fields.len(),
        encoded_fields(d, fields).0.out.len() >= d.out.len(),
        encoded_fields(d, fields).0.out.take(d.out.len() as int) == d.out,
    decreases fields,
{
    if fields.len() == 0 {
        assert(d.out.take(d.out.len() as int) =~= d.out);
    } else {
        lemma_fields_table(d, fields.drop_last());
        let (e, table) = encoded_fields(d, fields.drop_last());
        let f = interned(e, fields.last().0);
        lemma_encoded_grows(f, fields.last().1);
        let g = encoded(f, fields.last().1);
        assert(g.out.take(d.out.len() as int) =~= g.out.take(f.out.len() as int).take(
            d.out.len() as int,
        ));
    }
}

/// A table has four bytes for each item.
pub proof fn lemma_items_table(d: Draft, items: Seq<DocView>)
    ensures
        encoded_items(d, items).1.len() == 4 * items.len(),
        encoded_items(d, items).0.out.len() >= d.out.len(),
        encoded_items(d, items).0.out.take(d.out.len() as int) == d.out,
    decreases items,
{
    if items.len() == 0 {
        assert(d.out.take(d.out.len() as int) =~= d.out);
    } else {
        lemma_items_table(d, items.drop_last());
        let (e, table) = encoded_items(d, items.drop_last());
        lemma_encoded_grows(e, items.last());
        let g = encoded(e, items.last());
        assert(g.out.take(d.out.len() as int) =~= g.out.take(e.out.len() as int).take(
            d.out.len() as int,
        ));
    }
}

/// What is written stays: a value is added behind the values so far.
pub proof fn lemma_encoded_grows(d: Draft, v: DocView)
    ensures
        encoded(d, v).out.len() > d.out.len(),
        encoded(d, v).out.take(d.out.len() as int) == d.out,
    decreases v,
{
    let n = d.out.len() as int;
    let tagged = d.out.push(kind_tag(kind_of(v)));
    match v {
        DocView::Object(fields) => {
            let head = tagged + le32(fields.len() as u32);
            let f = with_out(d, head + zeros(8 * fields.len()));
            lemma_fields_table(f, fields);
            let (e, table) = encoded_fields(f, fields);
            let o = overwritten(e.out, head.len() as int, table);
            assert(o.take(n) =~= d.out) by {
                assert(o.take(n) =~= e.out.take(f.out.len() as int).take(n));
            }
        },
        DocView::Array(items) => {
            let head = tagged + le32(items.len() as u32);
            let f = with_out(d, head + zeros(4 * items.len()));
            lemma_items_table(f, items);
            let (e, table) = encoded_items(f, items);
            let o = overwritten(e.out, head.len() as int, table);
            assert(o.take(n) =~= d.out) by {
                assert(o.take(n) =~= e.out.take(f.out.len() as int).take(n));
            }
        },
        _ => {
            assert(encoded(d, v).out.take(n) =~= d.out);
        },
    }
}

/// The header of a document.
#[derive(Clone, Copy, Debug)]
pub struct HexDocHeader {
    pub magic: [u8; 4],
    pub root_kind: u8,
    pub _pad: [u8; 3],
    pub field_count: u32,
    pub root_off: u32,
    pub string_pool_off: u32,
}

/// The bytes of a header.
pub open spec fn header_bytes(h: HexDocHeader) -> Seq<u8> {
    h.magic@.push(h.root_kind) + h._pad@ + le32(h.field_count) + le32(h.root_off) + le32(
        h.string_pool_off,
    )
}

/// The four bytes that start every document.
pub open spec fn doc_magic() -> Seq<u8> {
    seq![72u8, 69u8, 88u8, 68u8]
}

/// The header that bytes start with.
pub open spec fn header_of(b: Seq<u8>) -> Result<HexDocHeader, ErrorView> {
    if b.len() < 20 {
        Err(corrupt_error("HexDoc header too short"@))
    } else if b.take(4) != doc_magic() {
        Err(corrupt_error("HexDoc magic mismatch"@))
    } else {
        Ok(
            HexDocHeader {
                magic: [b[0], b[1], b[2], b[3]],
                root_kind: b[4],
                _pad: [b[5], b[6], b[7]],
                field_count: read_le32(b, 8),
                root_off: read_le32(b, 12),
                string_pool_off: read_le32(b, 16),
            },
        )
    }
}

impl HexDocHeader {
    /// Reads the header that bytes start with.
    pub fn from_bytes(bytes: &[u8]) -> (r: CenResult<Self>)
        ensures
            match (r, header_of(bytes@)) {
                (Ok(h), Ok(v)) => h == v,
                (Err(e), Err(x)) => e@ == x,
                _ => false,
            },
    {
        if bytes.len() < 20 {
            return Err(CenError::corrupt("HexDoc header too short"));
        }
        assert(bytes@.take(4) == doc_magic() <==> (bytes@[0] == 72 && bytes@[1] == 69 && bytes@[2]
            == 88 && bytes@[3] == 68)) by {
            if bytes@[0] == 72 && bytes@[1] == 69 && bytes@[2] == 88 && bytes@[3] == 68 {
                assert(bytes@.take(4) =~= doc_magic());
            } else {
                assert(bytes@.take(4)[0] == bytes@[0]);
                assert(bytes@.take(4)[1] == bytes@[1]);
                assert(bytes@.take(4)[2] == bytes@[2]);
                assert(bytes@.take(4)[3] == bytes@[3]);
            }
        }
        if !(bytes[0] == 72 && bytes[1] == 69 && bytes[2] == 88 && bytes[3] == 68) {
            return Err(CenError::corrupt("HexDoc magic mismatch"));
        }
        Ok(
            HexDocHeader {
                magic: [bytes[0], bytes[1], bytes[2], bytes[3]],
                root_kind: bytes[4],
                _pad: [bytes[5], bytes[6], bytes[7]],
                field_count: get_le32(bytes, 8),
                root_off: get_le32(bytes, 12),
                string_pool_off: get_le32(bytes, 16),
            },
        )
    }

    /// The bytes of the header.
    pub fn to_bytes(&self) -> (r: [u8; 20])
        ensures
            r@ == header_bytes(*self),
    {
        let mut tail: Vec<u8> = Vec::new();
        push_le32(&mut tail, self.field_count);
        push_le32(&mut tail, self.root_off);
        push_le32(&mut tail, self.string_pool_off);
        let out: [u8; 20] = [
            self.magic[0],
            self.magic[1],
            self.magic[2],
            self.magic[3],
            self.root_kind,
            self._pad[0],
            self._pad[1],
            self._pad[2],
            tail[0],
            tail[1],
            tail[2],
            tail[3],
            tail[4],
            tail[5],
            tail[6],
            tail[7],
            tail[8],
            tail[9],
            tail[10],
            tail[11],
        ];
        assert(out@ =~= header_bytes(*self));
        out
    }
}

/// Writes a document.
pub struct HexDocBuilder {
    out: Vec<u8>,
    strings: StrMap<u32>,
    string_pool: Vec<u8>,
}

impl View for HexDocBuilder {
    type V = Draft;

    closed spec fn view(&self) -> Draft {
        Draft { out: self.out@, pool: self.string_pool@, ids: self.strings@ }
    }
}

/// The number of fields or items of a value.
pub open spec fn part_count(v: DocView) -> u32 {
    match v {
        DocView::Object(fields) => fields.len() as u32,
        DocView::Array(items) => items.len() as u32,
        _ => 0,
    }
}

/// The draft of a document before its first value: room for the header.
pub open spec fn blank_draft() -> Draft {
    Draft { out: zeros(20), pool: seq![], ids: Map::empty() }
}

/// The bytes of a document: header, values, string pool.
#[verifier::opaque]
pub open spec fn document_bytes(v: DocView) -> Seq<u8> {
    let d = encoded(blank_draft(), v);
    let header = HexDocHeader {
        magic: [72u8, 69u8, 88u8, 68u8],
        root_kind: kind_tag(kind_of(v)),
        _pad: [0u8, 0u8, 0u8],
        field_count: part_count(v),
        root_off: 20,
        string_pool_off: d.out.len() as u32,
    };
    header_bytes(header) + d.out.skip(20) + d.pool
}

impl HexDocBuilder {
    /// Whether the string table is in order.
    pub closed spec fn wf(&self) -> bool {
        self.strings.wf()
    }

    /// A builder with nothing written.
    pub fn new() -> (res: Self)
        ensures
            res.wf(),
            res@ == (Draft { out: seq![], pool: seq![], ids: Map::empty() }),
    {
        let res = HexDocBuilder {
            out: Vec::new(),
            strings: StrMap::new(),
            string_pool: Vec::new(),
        };
        assert(res@.out =~= seq![]);
        assert(res@.pool =~= seq![]);
        res
    }

    fn intern_string(&mut self, s: &str) -> (r: u32)
        requires
            old(self).wf(),
        ensures
            final(self).wf(),
            final(self)@ == interned(old(self)@, s@),
            r == interned_id(old(self)@, s@),
    {
        if let Some(id) = self.strings.get(s) {
            return *id;
        }
        let id: u32 = self.string_pool.len() as u32;
        let b: &[u8] = s.as_bytes();
        push_le32(&mut self.string_pool, b.len() as u32);
        push_bytes(&mut self.string_pool, b);
        self.strings.insert(s.to_owned(), id);
        assert(self@.pool =~= old(self)@.pool + pool_entry(s@));
        id
    }

    /// Writes `w` over the bytes from place `at` on.
    fn overwrite(&mut self, at: usize, w: &Vec<u8>)
        requires
            old(self).wf(),
            at + w@.len() <= old(self)@.out.len(),
        ensures
            final(self).wf(),
            final(self)@ == with_out(
                old(self)@,
                overwritten(old(self)@.out, at as int, w@),
            ),
    {
        let ghost before = self.out@;
        let mut i: usize = 0;
        assert(self.out@ =~= overwritten(before, at as int, w@.take(0)));
        while i < w.len()
            invariant
                self.wf(),
                i <= w@.len(),
                at + w@.len() <= before.len(),
                self.out@ == overwritten(before, at as int, w@.take(i as int)),
                self.string_pool == old(self).string_pool,
                self.strings == old(self).strings,
                before == old(self).out@,
            decreases w@.len() - i,
        {
            let _len: usize = self.out.len();
            let x: u8 = w[i];
            self.out.set(at + i, x);
            i = i + 1;
            assert(self.out@ =~= overwritten(before, at as int, w@.take(i as int)));
        }
        assert(w@.take(i as int) =~= w@);
    }

    fn encode_value(&mut self, value: &DocValue) -> (r: usize)
        requires
            old(self).wf(),
        ensures
            final(self).wf(),
            final(self)@ == encoded(old(self)@, value@),
            r == old(self)@.out.len(),
        decreases value,
    {
        let off: usize = self.out.len();
        let kind: DocKind = value.kind();
        self.out.push(kind.tag());
        match value {
            DocValue::Null => {},
            DocValue::Bool(b) => {
                self.out.push(
                    if *b {
                        1
                    } else {
                        0
                    },
                );
            },
            DocValue::I64(x) => {
                push_le64(&mut self.out, to_bits(*x));
            },
            DocValue::F64(x) => {
                push_le64(&mut self.out, *x);
            },
            DocValue::Str(s) => {
                let id: u32 = self.intern_string(s.as_str());
                push_le32(&mut self.out, id);
            },
            DocValue::Bytes(b) => {
                push_le32(&mut self.out, b.len() as u32);
                push_bytes(&mut self.out, b.as_slice());
            },
            DocValue::Object(fields) => {
                let ghost fv = fields_view(fields@);
                proof {
                    lemma_fields_view(fields@);
                }
                push_le32(&mut self.out, fields.len() as u32);
                let table_off: usize = self.out.len();
                let ghost head = self.out@;
                let mut n: usize = 0;
                assert(self.out@ =~= head + zeros(0));
                while n < fields.len()
                    invariant
                        self.wf(),
                        n <= fields@.len(),
                        self.out@ == head + zeros(8 * n as nat),
                        self.string_pool == old(self).string_pool,
                        self.strings == old(self).strings,
                    decreases fields@.len() - n,
                {
                    push_le64(&mut self.out, 0);
                    n = n + 1;
                    assert(le64(0) =~= zeros(8));
                    assert(self.out@ =~= head + zeros(8 * n as nat));
                }
                let ghost start = self@;
                assert(start == with_out(old(self)@, head + zeros(8 * fv.len())));
                let mut table: Vec<u8> = Vec::new();
                let mut i: usize = 0;
                assert(fv.take(0) =~= seq![]);
                assert((self@, table@) == encoded_fields(start, fv.take(0)));
                while i < fields.len()
                    invariant
                        self.wf(),
                        i <= fields@.len(),
                        *value == DocValue::Object(*fields),
                        fv == fields_view(fields@),
                        fv.len() == fields@.len(),
                        forall|k: int|
                            0 <= k < fields@.len() ==> #[trigger] fv[k] == (
                                fields@[k].0@,
                                doc_view(fields@[k].1),
                            ),
                        (self@, table@) == encoded_fields(start, fv.take(i as int)),
                    decreases fields@.len() - i,
                {
                    proof {
                        assert(decreases_to!(*value => value->Object_0));
                        assert(decreases_to!(value->Object_0 => value->Object_0@));
                        assert(decreases_to!(value->Object_0@ => value->Object_0@[i as int]));
                        assert(decreases_to!(fields@[i as int] => fields@[i as int].1));
                        assert(fv.take(i + 1).drop_last() =~= fv.take(i as int));
                        assert(fv.take(i + 1).last() == fv[i as int]);
                    }
                    let pair: &(String, DocValue) = &fields[i];
                    let name_id: u32 = self.intern_string(pair.0.as_str());
                    let val_off: usize = self.encode_value(&pair.1);
                    push_le32(&mut table, name_id);
                    push_le32(&mut table, val_off as u32);
                    i = i + 1;
                }
                proof {
                    assert(fv.take(i as int) =~= fv);
                    lemma_fields_table(start, fv);
                }
                self.overwrite(table_off, &table);
                assert(value@ == DocView::Object(fv));
            },
            DocValue::Array(items) => {
                let ghost iv = items_view(items@);
                proof {
                    lemma_items_view(items@);
                }
                push_le32(&mut self.out, items.len() as u32);
                let table_off: usize = self.out.len();
                let ghost head = self.out@;
                let mut n: usize = 0;
                assert(self.out@ =~= head + zeros(0));
                while n < items.len()
                    invariant
                        self.wf(),
                        n <= items@.len(),
                        self.out@ == head + zeros(4 * n as nat),
                        self.string_pool == old(self).string_pool,
                        self.strings == old(self).strings,
                    decreases items@.len() - n,
                {
                    push_le32(&mut self.out, 0);
                    n = n + 1;
                    assert(le32(0) =~= zeros(4));
                    assert(self.out@ =~= head + zeros(4 * n as nat));
                }
                let ghost start = self@;
                assert(start == with_out(old(self)@, head + zeros(4 * iv.len())));
                let mut table: Vec<u8> = Vec::new();
                let mut i: usize = 0;
                assert(iv.take(0) =~= seq![]);
                assert((self@, table@) == encoded_items(start, iv.take(0)));
                while i < items.len()
                    invariant
                        self.wf(),
                        i <= items@.len(),
                        *value == DocValue::Array(*items),
                        iv == items_view(items@),
                        iv.len() == items@.len(),
                        forall|k: int|
                            0 <= k < items@.len() ==> #[trigger] iv[k] == doc_view(items@[k]),
                        (self@, table@) == encoded_items(start, iv.take(i as int)),
                    decreases items@.len() - i,
                {
                    proof {
                        assert(decreases_to!(*value => value->Array_0));
                        assert(decreases_to!(value->Array_0 => value->Array_0@));
                        assert(decreases_to!(value->Array_0@ => value->Array_0@[i as int]));
                        assert(iv.take(i + 1).drop_last() =~= iv.take(i as int));
                        assert(iv.take(i + 1).last() == iv[i as int]);
                    }
                    let val_off: usize = self.encode_value(&items[i]);
                    push_le32(&mut table, val_off as u32);
                    i = i + 1;
                }
                proof {
                    assert(iv.take(i as int) =~= iv);
                    lemma_items_table(start, iv);
                }
                self.overwrite(table_off, &table);
                assert(value@ == DocView::Array(iv));
            },
        }
        off
    }

    /// Writes a value as a document.
    pub fn encode(value: &DocValue) -> (r: CenResult<Vec<u8>>)
        ensures
            r matches Ok(b) && b@ == document_bytes(value@),
    {
        let mut builder: HexDocBuilder = HexDocBuilder::new();
        let mut n: usize = 0;
        while n < 20
            invariant
                builder.wf(),
                n <= 20,
                builder@.out == zeros(n as nat),
                builder@.pool == Seq::<u8>::empty(),
                builder@.ids == Map::<Seq<char>, u32>::empty(),
            decreases 20 - n,
        {
            builder.out.push(0);
            n = n + 1;
            assert(builder@.out =~= zeros(n as nat));
        }
        assert(builder@ == blank_draft());
        let root_off: usize = builder.encode_value(value);
        let field_count: u32 = match value {
            DocValue::Object(f) => {
                proof {
                    lemma_fields_view(f@);
                }
                f.len() as u32
            },
            DocValue::Array(a) => {
                proof {
                    lemma_items_view(a@);
                }
                a.len() as u32
            },
            _ => 0,
        };
        let kind: DocKind = value.kind();
        let header: HexDocHeader = HexDocHeader {
            magic: [72, 69, 88, 68],
            root_kind: kind.tag(),
            _pad: [0, 0, 0],
            field_count,
            root_off: root_off as u32,
            string_pool_off: builder.out.len() as u32,
        };
        let head: [u8; 20] = header.to_bytes();
        let mut out: Vec<u8> = Vec::new();
        push_bytes(&mut out, head.as_slice());
        assert(out@ =~= head@);
        proof {
            lemma_encoded_grows(blank_draft(), value@);
        }
        let body: Vec<u8> = copy_range(builder.out.as_slice(), 20, builder.out.len());
        push_bytes(&mut out, body.as_slice());
        push_bytes(&mut out, builder.string_pool.as_slice());
        proof {
            reveal(document_bytes);
            assert(body@ =~= encoded(blank_draft(), value@).out.skip(20));
        }
        Ok(out)
    }
}

impl Default for HexDocBuilder {
    fn default() -> (res: Self)
        ensures
            res.wf(),
            res@ == (Draft { out: seq![], pool: seq![], ids: Map::empty() }),
    {
        HexDocBuilder::new()
    }
}


// ---------------------------------------------------------------------------
// Decoding
// ---------------------------------------------------------------------------
/// An error message with a number in it.
pub open spec fn numbered(front: Seq<char>, n: nat, back: Seq<char>) -> ErrorView {
    corrupt_error(front + decimal(n) + back)
}

/// The string at an offset of the pool.
pub open spec fn pool_string(b: Seq<u8>, pool: int, offset: int) -> Result<Seq<char>, ErrorView> {
    if pool >= b.len() {
        Err(
            corrupt_error(
                "HexDoc: pool offset "@ + decimal(pool as nat) + " out of bounds (buf len "@
                    + decimal(b.len()) + ")"@,
            ),
        )
    } else if pool + offset + 4 > b.len() {
        Err(numbered("HexDoc: string offset "@, offset as nat, " out of bounds"@))
    } else {
        let start = pool + offset + 4;
        let end = start + read_le32(b, pool + offset);
        if end > b.len() {
            Err(corrupt_error("HexDoc: string payload truncated"@))
        } else {
            Ok(lossy_text(b.subrange(start, end)))
        }
    }
}

/// The value at an offset. Values nest at most `fuel` deep: a value that is
/// reached through more offsets than the document has bytes holds itself.
pub open spec fn decoded(b: Seq<u8>, pool: int, off: int, fuel: nat) -> Result<DocView, ErrorView>
    decreases fuel, 0int,
{
    if fuel == 0 {
        Err(corrupt_error("HexDoc: value holds itself"@))
    } else if off >= b.len() {
        Err(numbered("HexDoc: value offset "@, off as nat, " out of bounds"@))
    } else {
        let at = off + 1;
        let rest = b.len() - at;
        match kind_of_tag(b[off]) {
            DocKind::Null => Ok(DocView::Null),
            DocKind::Bool => if rest < 1 {
                Err(corrupt_error("HexDoc: bool truncated"@))
            } else {
                Ok(DocView::Bool(b[at] != 0))
            },
            DocKind::I64 => if rest < 8 {
                Err(corrupt_error("HexDoc: i64 truncated"@))
            } else {
                Ok(DocView::I64(from_bits(read_le64(b, at))))
            },
            DocKind::F64 => if rest < 8 {
                Err(corrupt_error("HexDoc: f64 truncated"@))
            } else {
                Ok(DocView::F64(read_le64(b, at)))
            },
            DocKind::Str => if rest < 4 {
                Err(corrupt_error("HexDoc: str truncated"@))
            } else {
                match pool_string(b, pool, read_le32(b, at) as int) {
                    Err(x) => Err(x),
                    Ok(s) => Ok(DocView::Str(s)),
                }
            },
            DocKind::Bytes => if rest < 4 {
                Err(corrupt_error("HexDoc: bytes truncated"@))
            } else if rest < 4 + read_le32(b, at) {
                Err(corrupt_error("HexDoc: bytes payload truncated"@))
            } else {
                Ok(DocView::Bytes(b.subrange(at + 4, at + 4 + read_le32(b, at))))
            },
            DocKind::Object => if rest < 4 {
                Err(corrupt_error("HexDoc: object truncated"@))
            } else {
                match decoded_fields(
                    b,
                    pool,
                    at + 4,
                    read_le32(b, at) as int,
                    0,
                    seq![],
                    (fuel - 1) as nat,
                ) {
                    Err(x) => Err(x),
                    Ok(fields) => Ok(DocView::Object(fields)),
                }
            },
            DocKind::Array => if rest < 4 {
                Err(corrupt_error("HexDoc: array truncated"@))
            } else {
                match decoded_items(
                    b,
                    pool,
                    at + 4,
                    read_le32(b, at) as int,
                    0,
                    seq![],
                    (fuel - 1) as nat,
                ) {
                    Err(x) => Err(x),
                    Ok(items) => Ok(DocView::Array(items)),
                }
            },
        }
    }
}

/// The fields so far and those of the table entries from `i` on.
pub open spec fn decoded_fields(
    b: Seq<u8>,
    pool: int,
    table: int,
    count: int,
    i: int,
    acc: Seq<(Seq<char>, DocView)>,
    fuel: nat,
) -> Result<Seq<(Seq<char>, DocView)>, ErrorView>
    decreases fuel, count - i,
{
    if i >= count {
        Ok(acc)
    } else {
        let entry = table + i * 8;
        if entry + 8 > b.len() {
            Err(corrupt_error("HexDoc: object table truncated"@))
        } else {
            match pool_string(b, pool, read_le32(b, entry) as int) {
                Err(x) => Err(x),
                Ok(name) => match decoded(b, pool, read_le32(b, entry + 4) as int, fuel) {
                    Err(x) => Err(x),
                    Ok(v) => decoded_fields(b, pool, table, count, i + 1, acc.push((name, v)), fuel),
                },
            }
        }
    }
}

/// The items so far and those of the table entries from `i` on.
pub open spec fn decoded_items(
    b: Seq<u8>,
    pool: int,
    table: int,
    count: int,
    i: int,
    acc: Seq<DocView>,
    fuel: nat,
) -> Result<Seq<DocView>, ErrorView>
    decreases fuel, count - i,
{
    if i >= count {
        Ok(acc)
    } else {
        let entry = table + i * 4;
        if entry + 4 > b.len() {
            Err(corrupt_error("HexDoc: array table truncated"@))
        } else {
            match decoded(b, pool, read_le32(b, entry) as int, fuel) {
                Err(x) => Err(x),
                Ok(v) => decoded_items(b, pool, table, count, i + 1, acc.push(v), fuel),
            }
        }
    }
}

/// The root value of a document.
pub open spec fn decoded_root(b: Seq<u8>, h: HexDocHeader) -> Result<DocView, ErrorView> {
    decoded(b, h.string_pool_off as int, h.root_off as int, b.len() + 1)
}

/// The value of the first of the root's table entries from `i` on that bears a
/// name.
pub open spec fn field_from(b: Seq<u8>, h: HexDocHeader, name: Seq<char>, i: int) -> Result<
    Option<DocView>,
    ErrorView,
>
    decreases h.field_count - i,
{
    if i >= h.field_count {
        Ok(None)
    } else {
        let entry = h.root_off + 5 + i * 8;
        if entry + 8 > b.len() {
            Err(corrupt_error("HexDoc: field table truncated"@))
        } else {
            match pool_string(b, h.string_pool_off as int, read_le32(b, entry) as int) {
                Err(x) => Err(x),
                Ok(s) => if s == name {
                    match decoded(
                        b,
                        h.string_pool_off as int,
                        read_le32(b, entry + 4) as int,
                        b.len() + 1,
                    ) {
                        Err(x) => Err(x),
                        Ok(v) => Ok(Some(v)),
                    }
                } else {
                    field_from(b, h, name, i + 1)
                },
            }
        }
    }
}

/// The field of the root with a name; a root that is no object has none.
pub open spec fn root_field(b: Seq<u8>, h: HexDocHeader, name: Seq<char>) -> Result<
    Option<DocView>,
    ErrorView,
> {
    if kind_of_tag(h.root_kind) != DocKind::Object {
        Ok(None)
    } else {
        field_from(b, h, name, 0)
    }
}

/// The place of the next full stop from `i` on, or the end.
pub open spec fn next_dot(s: Seq<char>, i: int) -> int
    decreases s.len() - i,
{
    if 0 <= i < s.len() && s[i] != '.' {
        next_dot(s, i + 1)
    } else {
        i
    }
}

/// What a path from place `i` on leads to; names are separated by full stops.
pub open spec fn path_from(v: DocView, path: Seq<char>, i: int) -> Option<DocView>
    decreases path.len() - i,
    when 0 <= i <= path.len()
{
    let e = next_dot(path, i);
    match field_of(v, path.subrange(i, e)) {
        None => None,
        Some(w) => if i <= e < path.len() {
            path_from(w, path, e + 1)
        } else {
            Some(w)
        },
    }
}

/// Whether a reader returned the value that was owed.
pub open spec fn doc_agrees(r: CenResult<DocValue>, owed: Result<DocView, ErrorView>) -> bool {
    match (r, owed) {
        (Ok(v), Ok(w)) => v@ == w,
        (Err(e), Err(x)) => e@ == x,
        _ => false,
    }
}

/// Whether a reader returned the optional value that was owed.
pub open spec fn doc_option_agrees(
    r: CenResult<Option<DocValue>>,
    owed: Result<Option<DocView>, ErrorView>,
) -> bool {
    match (r, owed) {
        (Ok(Some(v)), Ok(Some(w))) => v@ == w,
        (Ok(None), Ok(None)) => true,
        (Err(e), Err(x)) => e@ == x,
        _ => false,
    }
}

fn corrupt_number(front: &str, n: usize, back: &str) -> (r: CenError)
    ensures
        r@ == numbered(front@, n as nat, back@),
{
    let mut message: String = front.to_owned();
    let d: String = decimal_string(n as u64);
    message.append(d.as_str());
    message.append(back);
    CenError { status: CenStatus::ErrCorrupt, message }
}

/// Reads a document.
pub struct HexDoc<'a> {
    bytes: &'a [u8],
    header: HexDocHeader,
}

impl<'a> HexDoc<'a> {
    /// The bytes of the document.
    pub closed spec fn content(&self) -> Seq<u8> {
        self.bytes@
    }

    /// The header of the document.
    pub closed spec fn head(&self) -> HexDocHeader {
        self.header
    }

    /// A reader over bytes that start with a document's header.
    pub fn new(bytes: &'a [u8]) -> (r: CenResult<Self>)
        ensures
            match (r, header_of(bytes@)) {
                (Ok(d), Ok(h)) => d.content() == bytes@ && d.head() == h,
                (Err(e), Err(x)) => e@ == x,
                _ => false,
            },
    {
        let header: HexDocHeader = HexDocHeader::from_bytes(bytes)?;
        Ok(HexDoc { bytes, header })
    }

    /// The kind of the root value.
    pub fn root_kind(&self) -> (r: DocKind)
        ensures
            r == kind_of_tag(self.head().root_kind),
    {
        DocKind::from_u8(self.header.root_kind)
    }

    /// Reads the whole document.
    pub fn decode_root(&self) -> (r: CenResult<DocValue>)
        ensures
            doc_agrees(r, decoded_root(self.content(), self.head())),
    {
        let fuel: u64 = self.bytes.len() as u64;
        self.decode_value_at(self.header.root_off, fuel)
    }

    /// Reads one field of the root; the others are not read.
    pub fn get_field(&self, name: &str) -> (r: CenResult<Option<DocValue>>)
        ensures
            doc_option_agrees(r, root_field(self.content(), self.head(), name@)),
    {
        let kind: DocKind = self.root_kind();
        if kind != DocKind::Object {
            return Ok(None);
        }
        let ghost b = self.bytes@;
        let ghost h = self.header;
        let len: u64 = self.bytes.len() as u64;
        let mut i: u32 = 0;
        while i < self.header.field_count
            invariant
                b == self.bytes@,
                h == self.header,
                len == b.len(),
                len <= usize::MAX,
                i <= h.field_count,
                kind_of_tag(h.root_kind) == DocKind::Object,
                field_from(b, h, name@, i as int) == field_from(b, h, name@, 0),
            decreases h.field_count - i,
        {
            let entry: u64 = self.header.root_off as u64 + 5 + i as u64 * 8;
            if entry + 8 > len {
                return Err(CenError::corrupt("HexDoc: field table truncated"));
            }
            let at: usize = entry as usize;
            let name_id: u32 = get_le32(self.bytes, at);
            let val_off: u32 = get_le32(self.bytes, at + 4);
            let found: String = self.read_string(name_id)?;
            if same_text(found.as_str(), name) {
                let v: DocValue = self.decode_value_at(val_off, len)?;
                return Ok(Some(v));
            }
            i = i + 1;
        }
        Ok(None)
    }

    /// Follows a path of names separated by full stops through nested objects.
    pub fn get_path(&self, path: &str) -> (r: CenResult<Option<DocValue>>)
        ensures
            doc_option_agrees(
                r,
                match decoded_root(self.content(), self.head()) {
                    Err(x) => Err(x),
                    Ok(v) => Ok(path_from(v, path@, 0)),
                },
            ),
    {
        let chars: Vec<char> = chars_of(path);
        let mut current: DocValue = self.decode_root()?;
        let ghost root = current@;
        let mut i: usize = 0;
        loop
            invariant
                chars@ == path@,
                i <= chars@.len(),
                decoded_root(self.content(), self.head()) == Ok::<DocView, ErrorView>(root),
                path_from(current@, path@, i as int) == path_from(root, path@, 0),
            decreases chars@.len() - i,
        {
            let mut e: usize = i;
            while e < chars.len() && chars[e] != '.'
                invariant
                    chars@ == path@,
                    i <= e <= chars@.len(),
                    next_dot(path@, e as int) == next_dot(path@, i as int),
                decreases chars@.len() - e,
            {
                e = e + 1;
            }
            let seg: String = string_of(chars.as_slice(), i, e);
            let next: DocValue = match current.get(seg.as_str()) {
                Some(v) => v.clone(),
                None => {
                    return Ok(None);
                },
            };
            current = next;
            if e >= chars.len() {
                return Ok(Some(current));
            }
            i = e + 1;
        }
    }

    fn decode_value_at(&self, off: u32, fuel: u64) -> (r: CenResult<DocValue>)
        requires
            fuel <= self.bytes@.len(),
        ensures
            doc_agrees(
                r,
                decoded(
                    self.bytes@,
                    self.header.string_pool_off as int,
                    off as int,
                    (fuel + 1) as nat,
                ),
            ),
        decreases fuel, 2int,
    {
        let ghost b = self.bytes@;
        let ghost pool = self.header.string_pool_off as int;
        let len: u64 = self.bytes.len() as u64;
        if off as u64 >= len {
            return Err(corrupt_number("HexDoc: value offset ", off as usize, " out of bounds"));
        }
        let kind: DocKind = DocKind::from_u8(self.bytes[off as usize]);
        let at: usize = off as usize + 1;
        let rest: usize = self.bytes.len() - at;
        match kind {
            DocKind::Null => Ok(DocValue::Null),
            DocKind::Bool => {
                if rest < 1 {
                    return Err(CenError::corrupt("HexDoc: bool truncated"));
                }
                Ok(DocValue::Bool(self.bytes[at] != 0))
            },
            DocKind::I64 => {
                if rest < 8 {
                    return Err(CenError::corrupt("HexDoc: i64 truncated"));
                }
                Ok(DocValue::I64(of_bits(get_le64(self.bytes, at))))
            },
            DocKind::F64 => {
                if rest < 8 {
                    return Err(CenError::corrupt("HexDoc: f64 truncated"));
                }
                Ok(DocValue::F64(get_le64(self.bytes, at)))
            },
            DocKind::Str => {
                if rest < 4 {
                    return Err(CenError::corrupt("HexDoc: str truncated"));
                }
                let s: String = self.read_string(get_le32(self.bytes, at))?;
                Ok(DocValue::Str(s))
            },
            DocKind::Bytes => {
                if rest < 4 {
                    return Err(CenError::corrupt("HexDoc: bytes truncated"));
                }
                let n: u32 = get_le32(self.bytes, at);
                if (rest as u64) < 4 + n as u64 {
                    return Err(CenError::corrupt("HexDoc: bytes payload truncated"));
                }
                Ok(DocValue::Bytes(copy_range(self.bytes, at + 4, at + 4 + n as usize)))
            },
            DocKind::Object => {
                if rest < 4 {
                    return Err(CenError::corrupt("HexDoc: object truncated"));
                }
                let count: u32 = get_le32(self.bytes, at);
                let fields: Vec<(String, DocValue)> = self.decode_fields(at + 4, count, fuel)?;
                Ok(DocValue::Object(fields))
            },
            DocKind::Array => {
                if rest < 4 {
                    return Err(CenError::corrupt("HexDoc: array truncated"));
                }
                let count: u32 = get_le32(self.bytes, at);
                let items: Vec<DocValue> = self.decode_items(at + 4, count, fuel)?;
                Ok(DocValue::Array(items))
            },
        }
    }

    /// The value at an offset where values may nest `fuel` deep.
    fn decode_inner(&self, off: u32, fuel: u64) -> (r: CenResult<DocValue>)
        requires
            fuel <= self.bytes@.len(),
        ensures
            doc_agrees(
                r,
                decoded(
                    self.bytes@,
                    self.header.string_pool_off as int,
                    off as int,
                    fuel as nat,
                ),
            ),
        decreases fuel, 0int,
    {
        if fuel == 0 {
            return Err(CenError::corrupt("HexDoc: value holds itself"));
        }
        self.decode_value_at(off, fuel - 1)
    }

    fn decode_fields(&self, table: usize, count: u32, fuel: u64) -> (r: CenResult<
        Vec<(String, DocValue)>,
    >)
        requires
            fuel <= self.bytes@.len(),
            table <= self.bytes@.len(),
        ensures
            match (
                r,
                decoded_fields(
                    self.bytes@,
                    self.header.string_pool_off as int,
                    table as int,
                    count as int,
                    0,
                    seq![],
                    fuel as nat,
                ),
            ) {
                (Ok(v), Ok(w)) => fields_view(v@) == w,
                (Err(e), Err(x)) => e@ == x,
                _ => false,
            },
        decreases fuel, 1int,
    {
        let ghost b = self.bytes@;
        let ghost pool = self.header.string_pool_off as int;
        let ghost owed = decoded_fields(
            b,
            pool,
            table as int,
            count as int,
            0,
            seq![],
            fuel as nat,
        );
        let len: u64 = self.bytes.len() as u64;
        let mut out: Vec<(String, DocValue)> = Vec::new();
        let mut i: u32 = 0;
        assert(fields_view(out@) =~= seq![]);
        while i < count
            invariant
                b == self.bytes@,
                len == b.len(),
                len <= usize::MAX,
                pool == self.header.string_pool_off,
                i <= count,
                fuel <= b.len(),
                table <= b.len(),
                owed == decoded_fields(
                    b,
                    pool,
                    table as int,
                    count as int,
                    0,
                    seq![],
                    fuel as nat,
                ),
                decoded_fields(
                    b,
                    pool,
                    table as int,
                    count as int,
                    i as int,
                    fields_view(out@),
                    fuel as nat,
                ) == owed,
            decreases count - i,
        {
            if (i as u64) * 8 + 8 > len - table as u64 {
                return Err(CenError::corrupt("HexDoc: object table truncated"));
            }
            let entry: usize = (table as u64 + i as u64 * 8) as usize;
            let name_id: u32 = get_le32(self.bytes, entry);
            let val_off: u32 = get_le32(self.bytes, entry + 4);
            let name: String = self.read_string(name_id)?;
            let val: DocValue = self.decode_inner(val_off, fuel)?;
            let ghost before = out@;
            let ghost nv = name@;
            let ghost vv = val@;
            out.push((name, val));
            proof {
                assert(out@.drop_last() =~= before);
                assert(fields_view(out@) == fields_view(before).push((nv, vv)));
            }
            i = i + 1;
        }
        Ok(out)
    }

    fn decode_items(&self, table: usize, count: u32, fuel: u64) -> (r: CenResult<Vec<DocValue>>)
        requires
            fuel <= self.bytes@.len(),
            table <= self.bytes@.len(),
        ensures
            match (
                r,
                decoded_items(
                    self.bytes@,
                    self.header.string_pool_off as int,
                    table as int,
                    count as int,
                    0,
                    seq![],
                    fuel as nat,
                ),
            ) {
                (Ok(v), Ok(w)) => items_view(v@) == w,
                (Err(e), Err(x)) => e@ == x,
                _ => false,
            },
        decreases fuel, 1int,
    {
        let ghost b = self.bytes@;
        let ghost pool = self.header.string_pool_off as int;
        let ghost owed = decoded_items(
            b,
            pool,
            table as int,
            count as int,
            0,
            seq![],
            fuel as nat,
        );
        let len: u64 = self.bytes.len() as u64;
        let mut out: Vec<DocValue> = Vec::new();
        let mut i: u32 = 0;
        assert(items_view(out@) =~= seq![]);
        while i < count
            invariant
                b == self.bytes@,
                len == b.len(),
                len <= usize::MAX,
                pool == self.header.string_pool_off,
                i <= count,
                fuel <= b.len(),
                table <= b.len(),
                owed == decoded_items(
                    b,
                    pool,
                    table as int,
                    count as int,
                    0,
                    seq![],
                    fuel as nat,
                ),
                decoded_items(
                    b,
                    pool,
                    table as int,
                    count as int,
                    i as int,
                    items_view(out@),
                    fuel as nat,
                ) == owed,
            decreases count - i,
        {
            if (i as u64) * 4 + 4 > len - table as u64 {
                return Err(CenError::corrupt("HexDoc: array table truncated"));
            }
            let entry: usize = (table as u64 + i as u64 * 4) as usize;
            let val_off: u32 = get_le32(self.bytes, entry);
            let val: DocValue = self.decode_inner(val_off, fuel)?;
            let ghost before = out@;
            let ghost vv = val@;
            out.push(val);
            proof {
                assert(out@.drop_last() =~= before);
                assert(items_view(out@) == items_view(before).push(vv));
            }
            i = i + 1;
        }
        Ok(out)
    }

    fn read_string(&self, offset: u32) -> (r: CenResult<String>)
        ensures
            match (
                r,
                pool_string(self.bytes@, self.header.string_pool_off as int, offset as int),
            ) {
                (Ok(s), Ok(v)) => s@ == v,
                (Err(e), Err(x)) => e@ == x,
                _ => false,
            },
    {
        let len: u64 = self.bytes.len() as u64;
        let pool: u32 = self.header.string_pool_off;
        if pool as u64 >= len {
            let mut message: String = "HexDoc: pool offset ".to_owned();
            let p: String = decimal_string(pool as u64);
            message.append(p.as_str());
            message.append(" out of bounds (buf len ");
            let n: String = decimal_string(len);
            message.append(n.as_str());
            message.append(")");
            return Err(CenError { status: CenStatus::ErrCorrupt, message });
        }
        let abs: u64 = pool as u64 + offset as u64;
        if abs + 4 > len {
            return Err(
                corrupt_number("HexDoc: string offset ", offset as usize, " out of bounds"),
            );
        }
        let n: u32 = get_le32(self.bytes, abs as usize);
        let end: u64 = abs + 4 + n as u64;
        if end > len {
            return Err(CenError::corrupt("HexDoc: string payload truncated"));
        }
        let piece: Vec<u8> = copy_range(self.bytes, abs as usize + 4, end as usize);
        Ok(from_utf8_lossy(piece.as_slice()))
    }
}

} // verus!
