//! What is written as a document is read back.

use vstd::prelude::*;
use vstd::utf8::{encode_utf8, encode_utf8_decode_utf8, encode_utf8_valid_utf8};

use crate::bytes::{
    bits_of, law_bits_round_trip, law_le32_round_trip, law_le64_round_trip, le32, le64, read_le32,
};
use crate::error::ErrorView;
use crate::projection::document::{
    blank_draft, decoded, decoded_fields, decoded_items, decoded_root, doc_magic, document_bytes,
    encoded, encoded_fields, encoded_items, field_from, field_of, first_field, header_bytes,
    header_of, interned, interned_id, kind_of, kind_tag, lemma_encoded_grows, lemma_fields_table,
    lemma_items_table, overwritten, part_count, pool_entry, pool_string, root_field, with_out,
    zeros, DocView, Draft, HexDocHeader,
};
use crate::utf8::{lemma_stands_at_split, stands_at};

verus! {

/// Whether every string of a draft stands in its pool where the draft says.
spec fn pool_ok(d: Draft) -> bool {
    forall|s: Seq<char>| #[trigger]
        d.ids.dom().contains(s) ==> stands_at(d.pool, d.ids[s] as int, pool_entry(s))
}

spec fn is_prefix(a: Seq<u8>, b: Seq<u8>) -> bool {
    a.len() <= b.len() && b.take(a.len() as int) == a
}

proof fn lemma_prefix_trans(a: Seq<u8>, b: Seq<u8>, c: Seq<u8>)
    requires
        is_prefix(a, b),
        is_prefix(b, c),
    ensures
        is_prefix(a, c),
{
    assert(c.take(a.len() as int) =~= c.take(b.len() as int).take(a.len() as int));
}

proof fn lemma_prefix_stands(a: Seq<u8>, b: Seq<u8>, i: int, w: Seq<u8>)
    requires
        is_prefix(a, b),
        stands_at(a, i, w),
    ensures
        stands_at(b, i, w),
{
    assert(b.subrange(i, i + w.len()) =~= a.subrange(i, i + w.len())) by {
        assert forall|k: int| i <= k < i + w.len() implies #[trigger] b[k] == a[k] by {
            assert(b.take(a.len() as int)[k] == a[k]);
        }
    }
}

proof fn lemma_interned(d: Draft, s: Seq<char>)
    ensures
        is_prefix(d.pool, interned(d, s).pool),
        interned(d, s).ids.dom().contains(s),
        interned(d, s).ids[s] == interned_id(d, s),
        pool_ok(d) && interned(d, s).pool.len() <= u32::MAX ==> pool_ok(interned(d, s)),
        interned(d, s).out == d.out,
{
    let e = interned(d, s);
    if d.ids.dom().contains(s) {
        assert(d.pool.take(d.pool.len() as int) =~= d.pool);
    } else {
        assert(e.pool.take(d.pool.len() as int) =~= d.pool);
        if pool_ok(d) && e.pool.len() <= u32::MAX {
            assert forall|t: Seq<char>| #[trigger] e.ids.dom().contains(t) implies stands_at(
                e.pool,
                e.ids[t] as int,
                pool_entry(t),
            ) by {
                if t == s {
                    let n = d.pool.len() as int;
                    assert(e.pool.subrange(n, n + pool_entry(s).len()) =~= pool_entry(s));
                } else {
                    lemma_prefix_stands(d.pool, e.pool, d.ids[t] as int, pool_entry(t));
                }
            }
        }
    }
}

/// The pool only grows, and keeps what it holds.
proof fn lemma_pool(d: Draft, v: DocView)
    ensures
        is_prefix(d.pool, encoded(d, v).pool),
        pool_ok(d) && encoded(d, v).pool.len() <= u32::MAX ==> pool_ok(encoded(d, v)),
    decreases v,
{
    let tagged = d.out.push(kind_tag(kind_of(v)));
    match v {
        DocView::Str(s) => {
            lemma_interned(d, s);
            assert(pool_ok(interned(d, s)) ==> pool_ok(encoded(d, v)));
        },
        DocView::Object(fields) => {
            let head = tagged + le32(fields.len() as u32);
            let f = with_out(d, head + zeros(8 * fields.len()));
            lemma_pool_fields(f, fields);
            assert(pool_ok(d) ==> pool_ok(f));
            assert(pool_ok(encoded_fields(f, fields).0) ==> pool_ok(encoded(d, v)));
        },
        DocView::Array(items) => {
            let head = tagged + le32(items.len() as u32);
            let f = with_out(d, head + zeros(4 * items.len()));
            lemma_pool_items(f, items);
            assert(pool_ok(d) ==> pool_ok(f));
            assert(pool_ok(encoded_items(f, items).0) ==> pool_ok(encoded(d, v)));
        },
        _ => {
            assert(d.pool.take(d.pool.len() as int) =~= d.pool);
            assert(pool_ok(d) ==> pool_ok(encoded(d, v)));
        },
    }
}

proof fn lemma_pool_fields(d: Draft, fields: Seq<(Seq<char>, DocView)>)
    ensures
        is_prefix(d.pool, encoded_fields(d, fields).0.pool),
        pool_ok(d) && encoded_fields(d, fields).0.pool.len() <= u32::MAX ==> pool_ok(
            encoded_fields(d, fields).0,
        ),
    decreases fields,
{
    if fields.len() == 0 {
        assert(d.pool.take(d.pool.len() as int) =~= d.pool);
    } else {
        lemma_pool_fields(d, fields.drop_last());
        let e = encoded_fields(d, fields.drop_last()).0;
        let f = interned(e, fields.last().0);
        lemma_interned(e, fields.last().0);
        lemma_pool(f, fields.last().1);
        lemma_prefix_trans(d.pool, e.pool, f.pool);
        lemma_prefix_trans(d.pool, f.pool, encoded(f, fields.last().1).pool);
    }
}

proof fn lemma_pool_items(d: Draft, items: Seq<DocView>)
    ensures
        is_prefix(d.pool, encoded_items(d, items).0.pool),
        pool_ok(d) && encoded_items(d, items).0.pool.len() <= u32::MAX ==> pool_ok(
            encoded_items(d, items).0,
        ),
    decreases items,
{
    if items.len() == 0 {
        assert(d.pool.take(d.pool.len() as int) =~= d.pool);
    } else {
        lemma_pool_items(d, items.drop_last());
        let e = encoded_items(d, items.drop_last()).0;
        lemma_pool(e, items.last());
        lemma_prefix_trans(d.pool, e.pool, encoded(e, items.last()).pool);
    }
}

/// A string that the pool holds is read back.
proof fn lemma_string_reads(b: Seq<u8>, at: int, pool: Seq<u8>, d: Draft, s: Seq<char>)
    requires
        pool_ok(d),
        d.ids.dom().contains(s),
        is_prefix(d.pool, pool),
        pool.len() <= u32::MAX,
        stands_at(b, at, pool),
    ensures
        pool_string(b, at, d.ids[s] as int) == Ok::<Seq<char>, ErrorView>(s),
{
    let id = d.ids[s] as int;
    let entry = pool_entry(s);
    let n = encode_utf8(s).len();
    lemma_prefix_stands(d.pool, pool, id, entry);
    assert(stands_at(b, at + id, entry)) by {
        assert forall|k: int| 0 <= k < entry.len() implies b[at + id + k] == entry[k] by {
            assert(b.subrange(at, at + pool.len())[id + k] == pool[id + k]);
            assert(pool.subrange(id, id + entry.len())[k] == entry[k]);
        }
        assert(b.subrange(at + id, at + id + entry.len()) =~= entry);
    }
    lemma_stands_at_split(b, at + id, le32(n as u32), encode_utf8(s));
    law_le32_round_trip(n as u32, b, at + id);
    encode_utf8_valid_utf8(s);
    encode_utf8_decode_utf8(s);
}

/// Whether values nest at most `fuel` deep.
spec fn fits(v: DocView, fuel: nat) -> bool
    decreases fuel,
{
    fuel > 0 && match v {
        DocView::Object(fields) => forall|k: int|
            0 <= k < fields.len() ==> fits((#[trigger] fields[k]).1, (fuel - 1) as nat),
        DocView::Array(items) => forall|k: int|
            0 <= k < items.len() ==> fits(#[trigger] items[k], (fuel - 1) as nat),
        _ => true,
    }
}

proof fn lemma_fits(d: Draft, v: DocView, n: nat)
    requires
        encoded(d, v).out.len() - d.out.len() <= n,
    ensures
        fits(v, n),
    decreases v,
{
    lemma_encoded_grows(d, v);
    let tagged = d.out.push(kind_tag(kind_of(v)));
    match v {
        DocView::Object(fields) => {
            let head = tagged + le32(fields.len() as u32);
            let f = with_out(d, head + zeros(8 * fields.len()));
            lemma_fields_table(f, fields);
            lemma_fits_fields(f, fields, (n - 1) as nat);
        },
        DocView::Array(items) => {
            let head = tagged + le32(items.len() as u32);
            let f = with_out(d, head + zeros(4 * items.len()));
            lemma_items_table(f, items);
            lemma_fits_items(f, items, (n - 1) as nat);
        },
        _ => {},
    }
}

proof fn lemma_fits_fields(d: Draft, fields: Seq<(Seq<char>, DocView)>, n: nat)
    requires
        encoded_fields(d, fields).0.out.len() - d.out.len() <= n,
    ensures
        forall|k: int| 0 <= k < fields.len() ==> fits((#[trigger] fields[k]).1, n),
    decreases fields,
{
    if fields.len() > 0 {
        let before = fields.drop_last();
        let e = encoded_fields(d, before).0;
        let f = interned(e, fields.last().0);
        lemma_fields_table(d, before);
        lemma_encoded_grows(f, fields.last().1);
        lemma_fits_fields(d, before, n);
        lemma_fits(f, fields.last().1, n);
        assert forall|k: int| 0 <= k < fields.len() implies fits((#[trigger] fields[k]).1, n) by {
            if k < before.len() {
                assert(fields[k] == before[k]);
            }
        }
    }
}

proof fn lemma_fits_items(d: Draft, items: Seq<DocView>, n: nat)
    requires
        encoded_items(d, items).0.out.len() - d.out.len() <= n,
    ensures
        forall|k: int| 0 <= k < items.len() ==> fits(#[trigger] items[k], n),
    decreases items,
{
    if items.len() > 0 {
        let before = items.drop_last();
        let e = encoded_items(d, before).0;
        lemma_items_table(d, before);
        lemma_encoded_grows(e, items.last());
        lemma_fits_items(d, before, n);
        lemma_fits(e, items.last(), n);
        assert forall|k: int| 0 <= k < items.len() implies fits(#[trigger] items[k], n) by {
            if k < before.len() {
                assert(items[k] == before[k]);
            }
        }
    }
}

/// Whether bytes agree with another sequence between two places.
spec fn agrees(b: Seq<u8>, c: Seq<u8>, from: int, to: int) -> bool {
    0 <= from <= to <= b.len() && to <= c.len() && forall|k: int|
        from <= k < to ==> #[trigger] b[k] == c[k]
}

/// The bytes of a buffer that decoding relies on: the value's own, and the
/// pool.
spec fn holds(b: Seq<u8>, at: int, pool: Seq<u8>, from: int, e: Draft) -> bool {
    &&& agrees(b, e.out, from, e.out.len() as int)
    &&& e.out.len() <= u32::MAX
    &&& stands_at(b, at, pool)
    &&& pool.len() <= u32::MAX
    &&& is_prefix(e.pool, pool)
}

/// Whether a table entry leads to a field.
spec fn entry_leads(
    b: Seq<u8>,
    at: int,
    table: int,
    k: int,
    field: (Seq<char>, DocView),
    fuel: nat,
) -> bool {
    &&& table + k * 8 + 8 <= b.len()
    &&& pool_string(b, at, read_le32(b, table + k * 8) as int) == Ok::<Seq<char>, ErrorView>(
        field.0,
    )
    &&& decoded(b, at, read_le32(b, table + k * 8 + 4) as int, fuel) == Ok::<DocView, ErrorView>(
        field.1,
    )
}

/// Whether a table entry leads to an item.
spec fn item_leads(b: Seq<u8>, at: int, table: int, k: int, item: DocView, fuel: nat) -> bool {
    &&& table + k * 4 + 4 <= b.len()
    &&& decoded(b, at, read_le32(b, table + k * 4) as int, fuel) == Ok::<DocView, ErrorView>(item)
}

#[verifier::spinoff_prover]
#[verifier::rlimit(80)]
proof fn lemma_value_reads(b: Seq<u8>, at: int, pool: Seq<u8>, d: Draft, v: DocView, fuel: nat)
    requires
        pool_ok(d),
        holds(b, at, pool, d.out.len() as int, encoded(d, v)),
        fits(v, fuel),
    ensures
        decoded(b, at, d.out.len() as int, fuel) == Ok::<DocView, ErrorView>(v),
    decreases v, 0int,
{
    let o = d.out.len() as int;
    let e = encoded(d, v);
    let tagged = d.out.push(kind_tag(kind_of(v)));
    lemma_encoded_grows(d, v);
    match v {
        DocView::Null => {
            assert(b[o] == e.out[o]);
        },
        DocView::Bool(x) => {
            assert(b[o] == e.out[o]);
            assert(b[o + 1] == e.out[o + 1]);
        },
        DocView::I64(x) => {
            assert(b[o] == e.out[o]);
            assert(b.subrange(o + 1, o + 9) =~= le64(bits_of(x)));
            law_le64_round_trip(bits_of(x), b, o + 1);
            law_bits_round_trip(x, 0);
        },
        DocView::F64(x) => {
            assert(b[o] == e.out[o]);
            assert(b.subrange(o + 1, o + 9) =~= le64(x));
            law_le64_round_trip(x, b, o + 1);
        },
        DocView::Str(s) => {
            assert(b[o] == e.out[o]);
            assert(b.subrange(o + 1, o + 5) =~= le32(interned_id(d, s)));
            law_le32_round_trip(interned_id(d, s), b, o + 1);
            lemma_interned(d, s);
            lemma_string_reads(b, at, pool, interned(d, s), s);
        },
        DocView::Bytes(x) => {
            assert(b[o] == e.out[o]);
            assert(b.subrange(o + 1, o + 5) =~= le32(x.len() as u32));
            law_le32_round_trip(x.len() as u32, b, o + 1);
            assert(b.subrange(o + 5, o + 5 + x.len()) =~= x);
        },
        DocView::Object(fields) => {
            lemma_object_reads(b, at, pool, d, fields, fuel);
        },
        DocView::Array(items) => {
            lemma_array_reads(b, at, pool, d, items, fuel);
        },
    }
}

#[verifier::spinoff_prover]
#[verifier::rlimit(80)]
proof fn lemma_object_entries(
    b: Seq<u8>,
    at: int,
    pool: Seq<u8>,
    d: Draft,
    fields: Seq<(Seq<char>, DocView)>,
    fuel: nat,
)
    requires
        pool_ok(d),
        holds(b, at, pool, d.out.len() as int, encoded(d, DocView::Object(fields))),
        fits(DocView::Object(fields), fuel),
    ensures
        d.out.len() + 5 <= b.len(),
        b[d.out.len() as int] == 6,
        read_le32(b, d.out.len() as int + 1) == fields.len(),
        fields.len() <= u32::MAX,
        forall|k: int|
            0 <= k < fields.len() ==> entry_leads(
                b,
                at,
                d.out.len() as int + 5,
                k,
                #[trigger] fields[k],
                (fuel - 1) as nat,
            ),
    decreases fields, 1int,
{
    let o = d.out.len() as int;
    let e = encoded(d, DocView::Object(fields));
    let tagged = d.out.push(6u8);
    let head = tagged + le32(fields.len() as u32);
    let f = with_out(d, head + zeros(8 * fields.len()));
    let (g, table) = encoded_fields(f, fields);
    lemma_fields_table(f, fields);
    assert(e.out == overwritten(g.out, head.len() as int, table));
    assert forall|k: int| 0 <= k < head.len() implies e.out[k] == head[k] by {
        assert(g.out.take(f.out.len() as int)[k] == f.out[k]);
    }
    assert(b[o] == e.out[o]);
    assert(b.subrange(o + 1, o + 5) =~= le32(fields.len() as u32)) by {
        assert forall|k: int| o + 1 <= k < o + 5 implies b[k] == head[k] by {
            assert(e.out[k] == head[k]);
        }
    }
    law_le32_round_trip(fields.len() as u32, b, o + 1);
    assert(stands_at(b, o + 5, table)) by {
        assert forall|k: int| 0 <= k < table.len() implies b[o + 5 + k] == table[k] by {
            assert(e.out[o + 5 + k] == table[k]);
        }
        assert(b.subrange(o + 5, o + 5 + table.len()) =~= table);
    }
    assert(agrees(b, g.out, f.out.len() as int, g.out.len() as int)) by {
        assert forall|k: int| f.out.len() <= k < g.out.len() implies #[trigger] b[k]
            == g.out[k] by {
            assert(e.out[k] == g.out[k]);
        }
    }
    assert(pool_ok(f));
    lemma_fields_lead(b, at, pool, f, fields, o + 5, (fuel - 1) as nat);
}

#[verifier::spinoff_prover]
#[verifier::rlimit(80)]
proof fn lemma_object_reads(
    b: Seq<u8>,
    at: int,
    pool: Seq<u8>,
    d: Draft,
    fields: Seq<(Seq<char>, DocView)>,
    fuel: nat,
)
    requires
        pool_ok(d),
        holds(b, at, pool, d.out.len() as int, encoded(d, DocView::Object(fields))),
        fits(DocView::Object(fields), fuel),
    ensures
        decoded(b, at, d.out.len() as int, fuel) == Ok::<DocView, ErrorView>(
            DocView::Object(fields),
        ),
    decreases fields, 2int,
{
    let o = d.out.len() as int;
    lemma_object_entries(b, at, pool, d, fields, fuel);
    lemma_fields_read(b, at, fields, o + 5, 0, (fuel - 1) as nat);
    assert(fields.take(0) =~= seq![]);
}

#[verifier::spinoff_prover]
#[verifier::rlimit(80)]
proof fn lemma_array_reads(
    b: Seq<u8>,
    at: int,
    pool: Seq<u8>,
    d: Draft,
    items: Seq<DocView>,
    fuel: nat,
)
    requires
        pool_ok(d),
        holds(b, at, pool, d.out.len() as int, encoded(d, DocView::Array(items))),
        fits(DocView::Array(items), fuel),
    ensures
        decoded(b, at, d.out.len() as int, fuel) == Ok::<DocView, ErrorView>(
            DocView::Array(items),
        ),
    decreases items, 1int,
{
    let o = d.out.len() as int;
    let e = encoded(d, DocView::Array(items));
    let tagged = d.out.push(7u8);
    let head = tagged + le32(items.len() as u32);
    let f = with_out(d, head + zeros(4 * items.len()));
    let (g, table) = encoded_items(f, items);
    lemma_items_table(f, items);
    assert(e.out == overwritten(g.out, head.len() as int, table));
    assert forall|k: int| 0 <= k < head.len() implies e.out[k] == head[k] by {
        assert(g.out.take(f.out.len() as int)[k] == f.out[k]);
    }
    assert(b[o] == e.out[o]);
    assert(b.subrange(o + 1, o + 5) =~= le32(items.len() as u32)) by {
        assert forall|k: int| o + 1 <= k < o + 5 implies b[k] == head[k] by {
            assert(e.out[k] == head[k]);
        }
    }
    law_le32_round_trip(items.len() as u32, b, o + 1);
    assert(stands_at(b, o + 5, table)) by {
        assert forall|k: int| 0 <= k < table.len() implies b[o + 5 + k] == table[k] by {
            assert(e.out[o + 5 + k] == table[k]);
        }
        assert(b.subrange(o + 5, o + 5 + table.len()) =~= table);
    }
    assert(agrees(b, g.out, f.out.len() as int, g.out.len() as int)) by {
        assert forall|k: int| f.out.len() <= k < g.out.len() implies #[trigger] b[k]
            == g.out[k] by {
            assert(e.out[k] == g.out[k]);
        }
    }
    assert(pool_ok(f));
    lemma_items_lead(b, at, pool, f, items, o + 5, (fuel - 1) as nat);
    lemma_items_read(b, at, items, o + 5, 0, (fuel - 1) as nat);
    assert(items.take(0) =~= seq![]);
}

#[verifier::spinoff_prover]
#[verifier::rlimit(80)]
proof fn lemma_fields_lead(
    b: Seq<u8>,
    at: int,
    pool: Seq<u8>,
    d: Draft,
    fields: Seq<(Seq<char>, DocView)>,
    table: int,
    fuel: nat,
)
    requires
        pool_ok(d),
        holds(b, at, pool, d.out.len() as int, encoded_fields(d, fields).0),
        stands_at(b, table, encoded_fields(d, fields).1),
        forall|k: int| 0 <= k < fields.len() ==> fits((#[trigger] fields[k]).1, fuel),
    ensures
        forall|k: int|
            0 <= k < fields.len() ==> entry_leads(b, at, table, k, #[trigger] fields[k], fuel),
    decreases fields, 0int,
{
    if fields.len() > 0 {
        let before = fields.drop_last();
        let n = before.len() as int;
        let (e, t) = encoded_fields(d, before);
        let name = fields.last().0;
        let val = fields.last().1;
        let f = interned(e, name);
        let g = encoded(f, val);
        let id = interned_id(e, name);
        let off = f.out.len() as u32;
        lemma_fields_table(d, before);
        lemma_interned(e, name);
        lemma_encoded_grows(f, val);
        lemma_pool_fields(d, before);
        lemma_pool(f, val);
        lemma_prefix_trans(f.pool, g.pool, pool);
        lemma_prefix_trans(e.pool, f.pool, pool);
        assert(pool_ok(e));
        assert(pool_ok(f));
        assert forall|k: int| 0 <= k < e.out.len() implies g.out[k] == e.out[k] by {
            assert(g.out.take(f.out.len() as int)[k] == f.out[k]);
        }
        assert(encoded_fields(d, fields).1 =~= t + (le32(id) + le32(off)));
        lemma_stands_at_split(b, table, t, le32(id) + le32(off));
        lemma_stands_at_split(b, table + 8 * n, le32(id), le32(off));
        law_le32_round_trip(id, b, table + n * 8);
        law_le32_round_trip(off, b, table + n * 8 + 4);
        assert forall|k: int| 0 <= k < before.len() implies fits((#[trigger] before[k]).1, fuel) by {
            assert(before[k] == fields[k]);
        }
        lemma_fields_lead(b, at, pool, d, before, table, fuel);
        lemma_string_reads(b, at, pool, f, name);
        assert(fits(fields[n].1, fuel));
        lemma_value_reads(b, at, pool, f, val, fuel);
        assert forall|k: int| 0 <= k < fields.len() implies entry_leads(
            b,
            at,
            table,
            k,
            #[trigger] fields[k],
            fuel,
        ) by {
            if k < n {
                assert(before[k] == fields[k]);
                assert(entry_leads(b, at, table, k, before[k], fuel));
            }
        }
    }
}

proof fn lemma_fields_read(
    b: Seq<u8>,
    at: int,
    fields: Seq<(Seq<char>, DocView)>,
    table: int,
    i: int,
    fuel: nat,
)
    requires
        0 <= i <= fields.len(),
        forall|k: int|
            0 <= k < fields.len() ==> entry_leads(b, at, table, k, #[trigger] fields[k], fuel),
    ensures
        decoded_fields(b, at, table, fields.len() as int, i, fields.take(i), fuel) == Ok::<
            Seq<(Seq<char>, DocView)>,
            ErrorView,
        >(fields),
    decreases fields.len() - i,
{
    if i < fields.len() {
        assert(entry_leads(b, at, table, i, fields[i], fuel));
        lemma_fields_read(b, at, fields, table, i + 1, fuel);
        assert(fields.take(i + 1) =~= fields.take(i).push(fields[i]));
        assert(fields[i] == (fields[i].0, fields[i].1));
    } else {
        assert(fields.take(i) =~= fields);
    }
}

proof fn lemma_items_lead(
    b: Seq<u8>,
    at: int,
    pool: Seq<u8>,
    d: Draft,
    items: Seq<DocView>,
    table: int,
    fuel: nat,
)
    requires
        pool_ok(d),
        holds(b, at, pool, d.out.len() as int, encoded_items(d, items).0),
        stands_at(b, table, encoded_items(d, items).1),
        forall|k: int| 0 <= k < items.len() ==> fits(#[trigger] items[k], fuel),
    ensures
        forall|k: int|
            0 <= k < items.len() ==> item_leads(b, at, table, k, #[trigger] items[k], fuel),
    decreases items, 0int,
{
    if items.len() > 0 {
        let before = items.drop_last();
        let n = before.len() as int;
        let (e, t) = encoded_items(d, before);
        let val = items.last();
        let g = encoded(e, val);
        let off = e.out.len() as u32;
        lemma_items_table(d, before);
        lemma_encoded_grows(e, val);
        lemma_pool_items(d, before);
        lemma_pool(e, val);
        lemma_prefix_trans(e.pool, g.pool, pool);
        assert(pool_ok(e));
        assert forall|k: int| 0 <= k < e.out.len() implies g.out[k] == e.out[k] by {
            assert(g.out.take(e.out.len() as int)[k] == e.out[k]);
        }
        lemma_stands_at_split(b, table, t, le32(off));
        law_le32_round_trip(off, b, table + n * 4);
        assert forall|k: int| 0 <= k < before.len() implies fits(#[trigger] before[k], fuel) by {
            assert(before[k] == items[k]);
        }
        lemma_items_lead(b, at, pool, d, before, table, fuel);
        assert(fits(items[n], fuel));
        lemma_value_reads(b, at, pool, e, val, fuel);
        assert forall|k: int| 0 <= k < items.len() implies item_leads(
            b,
            at,
            table,
            k,
            #[trigger] items[k],
            fuel,
        ) by {
            if k < n {
                assert(before[k] == items[k]);
                assert(item_leads(b, at, table, k, before[k], fuel));
            }
        }
    }
}

proof fn lemma_items_read(
    b: Seq<u8>,
    at: int,
    items: Seq<DocView>,
    table: int,
    i: int,
    fuel: nat,
)
    requires
        0 <= i <= items.len(),
        forall|k: int|
            0 <= k < items.len() ==> item_leads(b, at, table, k, #[trigger] items[k], fuel),
    ensures
        decoded_items(b, at, table, items.len() as int, i, items.take(i), fuel) == Ok::<
            Seq<DocView>,
            ErrorView,
        >(items),
    decreases items.len() - i,
{
    if i < items.len() {
        assert(item_leads(b, at, table, i, items[i], fuel));
        lemma_items_read(b, at, items, table, i + 1, fuel);
        assert(items.take(i + 1) =~= items.take(i).push(items[i]));
    } else {
        assert(items.take(i) =~= items);
    }
}


/// The header that a document is written with.
spec fn written_header(v: DocView) -> HexDocHeader {
    HexDocHeader {
        magic: [72u8, 69u8, 88u8, 68u8],
        root_kind: kind_tag(kind_of(v)),
        _pad: [0u8, 0u8, 0u8],
        field_count: part_count(v),
        root_off: 20,
        string_pool_off: encoded(blank_draft(), v).out.len() as u32,
    }
}

proof fn lemma_document(v: DocView)
    requires
        document_bytes(v).len() <= u32::MAX,
    ensures
        ({
            let b = document_bytes(v);
            let d = encoded(blank_draft(), v);
            &&& header_of(b) matches Ok(h) && h.root_kind == kind_tag(kind_of(v)) && h.field_count
                == part_count(v) && h.root_off == 20 && h.string_pool_off == d.out.len()
            &&& holds(b, d.out.len() as int, d.pool, 20, d)
            &&& pool_ok(blank_draft())
            &&& fits(v, b.len())
            &&& fits(v, b.len() + 1)
            &&& fits(v, b.len() + 2)
        }),
{
    let b = document_bytes(v);
    let d = encoded(blank_draft(), v);
    let h = written_header(v);
    let hb = header_bytes(h);
    reveal(document_bytes);
    lemma_encoded_grows(blank_draft(), v);
    assert(hb.len() == 20);
    assert(b == hb + d.out.skip(20) + d.pool);
    assert(b.len() == d.out.len() + d.pool.len());
    assert(b.take(4) =~= doc_magic()) by {
        assert(hb.take(4) =~= doc_magic());
    }
    assert(b[4] == h.root_kind);
    assert(b.subrange(8, 12) =~= le32(h.field_count));
    assert(b.subrange(12, 16) =~= le32(h.root_off));
    assert(b.subrange(16, 20) =~= le32(h.string_pool_off));
    law_le32_round_trip(h.field_count, b, 8);
    law_le32_round_trip(h.root_off, b, 12);
    law_le32_round_trip(h.string_pool_off, b, 16);
    assert(agrees(b, d.out, 20, d.out.len() as int));
    assert(b.subrange(d.out.len() as int, d.out.len() as int + d.pool.len()) =~= d.pool);
    assert(d.pool.take(d.pool.len() as int) =~= d.pool);
    lemma_fits(blank_draft(), v, b.len());
    lemma_fits(blank_draft(), v, b.len() + 1);
    lemma_fits(blank_draft(), v, b.len() + 2);
}

/// A value that is written as a document of less than four gigabytes is read
/// back.
pub proof fn law_document_round_trip(v: DocView)
    requires
        document_bytes(v).len() <= u32::MAX,
    ensures
        header_of(document_bytes(v)) matches Ok(h) && decoded_root(document_bytes(v), h) == Ok::<
            DocView,
            ErrorView,
        >(v),
{
    let b = document_bytes(v);
    let d = encoded(blank_draft(), v);
    lemma_document(v);
    lemma_value_reads(b, d.out.len() as int, d.pool, blank_draft(), v, b.len() + 1);
}

proof fn lemma_field_from(
    b: Seq<u8>,
    h: HexDocHeader,
    fields: Seq<(Seq<char>, DocView)>,
    name: Seq<char>,
    i: int,
)
    requires
        h.field_count == fields.len(),
        0 <= i <= fields.len(),
        forall|k: int|
            0 <= k < fields.len() ==> entry_leads(
                b,
                h.string_pool_off as int,
                h.root_off + 5,
                k,
                #[trigger] fields[k],
                b.len() + 1,
            ),
    ensures
        field_from(b, h, name, i) == Ok::<Option<DocView>, ErrorView>(
            first_field(fields, name, i),
        ),
    decreases fields.len() - i,
{
    if i < fields.len() {
        assert(entry_leads(
            b,
            h.string_pool_off as int,
            h.root_off + 5,
            i,
            fields[i],
            b.len() + 1,
        ));
        lemma_field_from(b, h, fields, name, i + 1);
    }
}

/// Looking up a field of a written document gives the field of the value.
#[verifier::spinoff_prover]
#[verifier::rlimit(60)]
pub proof fn law_field_lookup(v: DocView, name: Seq<char>)
    requires
        document_bytes(v).len() <= u32::MAX,
    ensures
        header_of(document_bytes(v)) matches Ok(h) && root_field(document_bytes(v), h, name)
            == Ok::<Option<DocView>, ErrorView>(field_of(v, name)),
{
    let b = document_bytes(v);
    let d = encoded(blank_draft(), v);
    lemma_document(v);
    let h = header_of(b)->Ok_0;
    lemma_lookup(b, h, d.pool, blank_draft(), v, name);
}

/// Looking up a field of a value that stands behind a header.
proof fn lemma_lookup(
    b: Seq<u8>,
    h: HexDocHeader,
    pool: Seq<u8>,
    d: Draft,
    v: DocView,
    name: Seq<char>,
)
    requires
        pool_ok(d),
        holds(b, h.string_pool_off as int, pool, d.out.len() as int, encoded(d, v)),
        fits(v, b.len() + 2),
        h.root_off == d.out.len(),
        h.root_kind == kind_tag(kind_of(v)),
        h.field_count == part_count(v),
    ensures
        root_field(b, h, name) == Ok::<Option<DocView>, ErrorView>(field_of(v, name)),
{
    if let DocView::Object(fields) = v {
        lemma_object_lookup(b, h, pool, d, fields, name);
    }
}

/// Looking up a field of an object that stands behind a header.
proof fn lemma_object_lookup(
    b: Seq<u8>,
    h: HexDocHeader,
    pool: Seq<u8>,
    d: Draft,
    fields: Seq<(Seq<char>, DocView)>,
    name: Seq<char>,
)
    requires
        pool_ok(d),
        holds(
            b,
            h.string_pool_off as int,
            pool,
            d.out.len() as int,
            encoded(d, DocView::Object(fields)),
        ),
        fits(DocView::Object(fields), b.len() + 2),
        h.root_off == d.out.len(),
        h.root_kind == 6,
        h.field_count == fields.len() as u32,
    ensures
        root_field(b, h, name) == Ok::<Option<DocView>, ErrorView>(first_field(fields, name, 0)),
{
    lemma_object_entries(b, h.string_pool_off as int, pool, d, fields, b.len() + 2);
    assert((b.len() + 2 - 1) as nat == b.len() + 1);
    assert(d.out.len() as int + 5 == h.root_off + 5);
    lemma_field_from(b, h, fields, name, 0);
}

/// A header is read back as it was written.
pub proof fn law_header_round_trip(h: HexDocHeader, rest: Seq<u8>)
    requires
        h.magic@ == doc_magic(),
    ensures
        header_of(header_bytes(h) + rest) matches Ok(g) && g.magic@ == h.magic@ && g.root_kind
            == h.root_kind && g._pad@ == h._pad@ && g.field_count == h.field_count && g.root_off
            == h.root_off && g.string_pool_off == h.string_pool_off,
{
    let b = header_bytes(h) + rest;
    assert(header_bytes(h).len() == 20);
    assert(b.take(4) =~= doc_magic()) by {
        assert forall|k: int| 0 <= k < 4 implies b[k] == h.magic@[k] by {}
    }
    assert(b.subrange(8, 12) =~= le32(h.field_count));
    assert(b.subrange(12, 16) =~= le32(h.root_off));
    assert(b.subrange(16, 20) =~= le32(h.string_pool_off));
    law_le32_round_trip(h.field_count, b, 8);
    law_le32_round_trip(h.root_off, b, 12);
    law_le32_round_trip(h.string_pool_off, b, 16);
    let g = header_of(b)->Ok_0;
    assert(g.magic@ =~= h.magic@) by {
        assert(b[0] == h.magic@[0] && b[1] == h.magic@[1] && b[2] == h.magic@[2] && b[3]
            == h.magic@[3]);
    }
    assert(g._pad@ =~= h._pad@) by {
        assert(b[5] == h._pad@[0] && b[6] == h._pad@[1] && b[7] == h._pad@[2]);
    }
}

} // verus!
