//! What the fields and paths of a document lead to.

use vstd::prelude::*;

use crate::projection::document::{field_of, first_field, item_of, next_dot, path_from, DocView};

verus! {

proof fn lemma_first_field(fields: Seq<(Seq<char>, DocView)>, key: Seq<char>, i: int)
    requires
        0 <= i <= fields.len(),
    ensures
        match first_field(fields, key, i) {
            Some(v) => exists|k: int|
                i <= k < fields.len() && (#[trigger] fields[k]).0 == key && fields[k].1 == v && forall|
                    j: int,
                |
                    i <= j < k ==> (#[trigger] fields[j]).0 != key,
            None => forall|j: int| i <= j < fields.len() ==> (#[trigger] fields[j]).0 != key,
        },
    decreases fields.len() - i,
{
    if i < fields.len() {
        lemma_first_field(fields, key, i + 1);
        if fields[i].0 == key {
            assert(fields[i].0 == key && fields[i].1 == first_field(fields, key, i)->0);
        } else if first_field(fields, key, i) is Some {
            let v = first_field(fields, key, i)->0;
            let k = choose|k: int|
                i + 1 <= k < fields.len() && (#[trigger] fields[k]).0 == key && fields[k].1 == v
                    && forall|j: int| i + 1 <= j < k ==> (#[trigger] fields[j]).0 != key;
            assert(fields[k].0 == key);
        }
    }
}

/// A field of an object is the first with its name; what is no object has none.
pub proof fn law_field(fields: Seq<(Seq<char>, DocView)>, key: Seq<char>, v: DocView)
    ensures
        match field_of(DocView::Object(fields), key) {
            Some(v) => exists|k: int|
                0 <= k < fields.len() && (#[trigger] fields[k]).0 == key && fields[k].1 == v && forall|
                    j: int,
                |
                    0 <= j < k ==> (#[trigger] fields[j]).0 != key,
            None => forall|j: int| 0 <= j < fields.len() ==> (#[trigger] fields[j]).0 != key,
        },
        !(v is Object) ==> field_of(v, key) is None,
{
    lemma_first_field(fields, key, 0);
}

/// An item of an array is the one at its place; what is no array has none.
pub proof fn law_item(items: Seq<DocView>, i: int, v: DocView)
    ensures
        0 <= i < items.len() ==> item_of(DocView::Array(items), i) == Some(items[i]),
        i < 0 || i >= items.len() ==> item_of(DocView::Array(items), i) is None,
        !(v is Array) ==> item_of(v, i) is None,
{
}

proof fn lemma_dot(name: Seq<char>, rest: Seq<char>, i: int)
    requires
        0 <= i <= name.len(),
        !name.contains('.'),
    ensures
        next_dot(name + seq!['.'] + rest, i) == name.len(),
        next_dot(name, i) == name.len(),
    decreases name.len() - i,
{
    let p = name + seq!['.'] + rest;
    if i < name.len() {
        assert(p[i] == name[i]);
        assert(name.contains(name[i]));
        lemma_dot(name, rest, i + 1);
    } else {
        assert(p[i] == '.');
    }
}

proof fn lemma_dot_shift(name: Seq<char>, rest: Seq<char>, i: int)
    requires
        0 <= i <= rest.len(),
    ensures
        next_dot(name + seq!['.'] + rest, name.len() + 1 + i) == name.len() + 1 + next_dot(rest, i),
        i <= next_dot(rest, i) <= rest.len(),
    decreases rest.len() - i,
{
    let p = name + seq!['.'] + rest;
    if i < rest.len() {
        assert(p[name.len() + 1 + i] == rest[i]);
        lemma_dot_shift(name, rest, i + 1);
    }
}

proof fn lemma_path_shift(v: DocView, name: Seq<char>, rest: Seq<char>, i: int)
    requires
        0 <= i <= rest.len(),
    ensures
        path_from(v, name + seq!['.'] + rest, name.len() + 1 + i) == path_from(v, rest, i),
    decreases rest.len() - i,
{
    let p = name + seq!['.'] + rest;
    let e = next_dot(rest, i);
    lemma_dot_shift(name, rest, i);
    assert(p.subrange(name.len() + 1 + i, name.len() + 1 + e) =~= rest.subrange(i, e));
    match field_of(v, rest.subrange(i, e)) {
        None => {},
        Some(w) => {
            if e < rest.len() {
                lemma_path_shift(w, name, rest, e + 1);
            }
        },
    }
}

/// A path goes from field to field: without a dot it is the field of that name,
/// and behind a dot it goes on in the field before it.
pub proof fn law_path(v: DocView, name: Seq<char>, rest: Seq<char>)
    requires
        !name.contains('.'),
    ensures
        path_from(v, name, 0) == field_of(v, name),
        path_from(v, name + seq!['.'] + rest, 0) == (match field_of(v, name) {
            Some(w) => path_from(w, rest, 0),
            None => None,
        }),
{
    let p = name + seq!['.'] + rest;
    lemma_dot(name, rest, 0);
    assert(name.subrange(0, name.len() as int) =~= name);
    assert(p.subrange(0, name.len() as int) =~= name);
    match field_of(v, name) {
        None => {},
        Some(w) => {
            lemma_path_shift(w, name, rest, 0);
        },
    }
}

} // verus!
