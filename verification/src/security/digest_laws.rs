//! What the digests of trees and of audit entries are made of.

use vstd::prelude::*;
use vstd::utf8::encode_utf8;

use crate::bytes::{law_le64_round_trip, le64};
use crate::security::audit::{entry_bytes, next_entry, AuditOp, EntryView};
use crate::security::hash::blake3_of;
use crate::security::merkle::{level_above, root_of};
use crate::text::lemma_bytes_decide;

verus! {

/// The tree over one leaf is that leaf; over two it is the digest of the first
/// followed by the second.
pub proof fn law_small_trees(a: [u8; 32], b: [u8; 32])
    ensures
        root_of(seq![a]) == a,
        root_of(seq![a, b]) == blake3_of(a@ + b@),
{
    let s = seq![a, b];
    reveal_with_fuel(root_of, 3);
    assert(level_above(s) =~= seq![blake3_of(a@ + b@)]);
}

/// An odd last digest is paired with itself: repeating it at the end of a row
/// changes nothing.
pub proof fn law_odd_end(s: Seq<[u8; 32]>)
    requires
        s.len() > 1,
        s.len() % 2 == 1,
    ensures
        root_of(s) == root_of(s.push(s.last())),
{
    let t = s.push(s.last());
    assert(level_above(s) =~= level_above(t)) by {
        assert forall|j: int| 0 <= j < level_above(s).len() implies level_above(s)[j]
            == level_above(t)[j] by {
            assert(t[2 * j] == s[2 * j]);
            if 2 * j + 1 < s.len() {
                assert(t[2 * j + 1] == s[2 * j + 1]);
            } else {
                assert(t[2 * j + 1] == s[2 * j]);
            }
        }
    }
}

/// Whether a number is a power of two.
pub open spec fn is_full(n: nat) -> bool
    decreases n,
{
    n == 1 || (n > 1 && n % 2 == 0 && is_full(n / 2))
}

/// Over two full halves of one size the root is the digest of their roots.
pub proof fn law_two_halves(a: Seq<[u8; 32]>, b: Seq<[u8; 32]>)
    requires
        a.len() == b.len(),
        is_full(a.len()),
    ensures
        root_of(a + b) == blake3_of(root_of(a)@ + root_of(b)@),
    decreases a.len(),
{
    let s = a + b;
    if a.len() == 1 {
        assert(s =~= seq![a[0], b[0]]);
        law_small_trees(a[0], b[0]);
    } else {
        let n = a.len() as int;
        assert(level_above(s) =~= level_above(a) + level_above(b)) by {
            assert forall|j: int| 0 <= j < level_above(s).len() implies level_above(s)[j] == (
            level_above(a) + level_above(b))[j] by {
                if 2 * j < n {
                    assert(s[2 * j] == a[2 * j] && s[2 * j + 1] == a[2 * j + 1]);
                } else {
                    assert(s[2 * j] == b[2 * j - n] && s[2 * j + 1] == b[2 * j + 1 - n]);
                    assert(2 * (j - n / 2) == 2 * j - n);
                }
            }
        }
        law_two_halves(level_above(a), level_above(b));
    }
}

proof fn lemma_number(a: u64, b: u64)
    requires
        le64(a) == le64(b),
    ensures
        a == b,
{
    assert(le64(a).subrange(0, 8) =~= le64(a));
    law_le64_round_trip(a, le64(a), 0);
    law_le64_round_trip(b, le64(b), 0);
}

/// The bytes of the fields of an entry.
#[verifier::opaque]
spec fn fields(e: EntryView) -> Seq<Seq<u8>> {
    seq![
        le64(e.sequence),
        le64(e.timestamp),
        le64(e.user_id),
        encode_utf8(e.op.name()),
        encode_utf8(e.resource),
        le64(e.rows_affected),
        encode_utf8(e.detail),
        e.prev_hash@,
    ]
}

/// Rows of bytes one behind the other.
#[verifier::opaque]
spec fn in_line(x: Seq<Seq<u8>>) -> Seq<u8>
    decreases x.len(),
{
    if x.len() == 0 {
        seq![]
    } else {
        in_line(x.drop_last()) + x.last()
    }
}

/// Whether rows agree at every place but one.
spec fn all_but(x: Seq<Seq<u8>>, y: Seq<Seq<u8>>, k: int) -> bool {
    forall|j: int| 0 <= j < x.len() && j != k ==> x[j] == #[trigger] y[j]
}

proof fn lemma_fields(e: EntryView)
    ensures
        in_line(fields(e)) == entry_bytes(e),
        fields(e).len() == 8,
        fields(e)[0] == le64(e.sequence),
        fields(e)[1] == le64(e.timestamp),
        fields(e)[2] == le64(e.user_id),
        fields(e)[3] == encode_utf8(e.op.name()),
        fields(e)[4] == encode_utf8(e.resource),
        fields(e)[5] == le64(e.rows_affected),
        fields(e)[6] == encode_utf8(e.detail),
        fields(e)[7] == e.prev_hash@,
{
    reveal(fields);
    reveal(in_line);
    let x = fields(e);
    assert(x.take(0) =~= seq![]);
    lemma_in_line(x, 0);
    lemma_in_line(x, 1);
    lemma_in_line(x, 2);
    lemma_in_line(x, 3);
    lemma_in_line(x, 4);
    lemma_in_line(x, 5);
    lemma_in_line(x, 6);
    lemma_in_line(x, 7);
    assert(x.take(8) =~= x);
    assert(in_line(x.take(1)) =~= x[0]);
}

proof fn lemma_in_line(x: Seq<Seq<u8>>, n: int)
    requires
        0 <= n < x.len(),
    ensures
        in_line(x.take(n + 1)) == in_line(x.take(n)) + x[n],
{
    reveal(in_line);
    assert(x.take(n + 1).drop_last() =~= x.take(n));
}

proof fn lemma_one_differs(x: Seq<Seq<u8>>, y: Seq<Seq<u8>>, k: int)
    requires
        x.len() == y.len(),
        0 <= k < x.len(),
        all_but(x, y, k),
        in_line(x) == in_line(y),
    ensures
        x[k] == y[k],
    decreases x.len(),
{
    reveal(in_line);
    let a = in_line(x.drop_last());
    let b = in_line(y.drop_last());
    let n = x.len() - 1;
    assert(in_line(x) == a + x[n]);
    assert(in_line(y) == b + y[n]);
    if k == n {
        assert(x.drop_last() =~= y.drop_last());
        assert((a + x[n]).skip(a.len() as int) =~= x[n]);
        assert((b + y[n]).skip(b.len() as int) =~= y[n]);
    } else {
        assert(x[n] == y[n]);
        assert(y[n].len() == x[n].len());
        assert((a + x[n]).len() == (b + y[n]).len());
        assert(a.len() == b.len());
        assert((a + x[n]).take(a.len() as int) =~= a);
        assert((b + y[n]).take(b.len() as int) =~= b);
        assert forall|j: int| 0 <= j < n && j != k implies x.drop_last()[j]
            == #[trigger] y.drop_last()[j] by {
            assert(x[j] == y[j]);
        }
        lemma_one_differs(x.drop_last(), y.drop_last(), k);
    }
}

/// The number of an entry goes into its digest.
pub proof fn law_sequence_counts(e: EntryView, other: u64)
    requires
        entry_bytes(e) == entry_bytes((EntryView { sequence: other, ..e })),
    ensures
        e.sequence == other,
{
    let f = EntryView { sequence: other, ..e };
    lemma_fields(e);
    lemma_fields(f);
    lemma_one_differs(fields(e), fields(f), 0);
    lemma_number(e.sequence, other);
}

/// The time of an entry goes into its digest.
pub proof fn law_timestamp_counts(e: EntryView, other: u64)
    requires
        entry_bytes(e) == entry_bytes((EntryView { timestamp: other, ..e })),
    ensures
        e.timestamp == other,
{
    let f = EntryView { timestamp: other, ..e };
    lemma_fields(e);
    lemma_fields(f);
    lemma_one_differs(fields(e), fields(f), 1);
    lemma_number(e.timestamp, other);
}

/// The user of an entry goes into its digest.
pub proof fn law_user_counts(e: EntryView, other: u64)
    requires
        entry_bytes(e) == entry_bytes((EntryView { user_id: other, ..e })),
    ensures
        e.user_id == other,
{
    let f = EntryView { user_id: other, ..e };
    lemma_fields(e);
    lemma_fields(f);
    lemma_one_differs(fields(e), fields(f), 2);
    lemma_number(e.user_id, other);
}

/// The operation of an entry goes into its digest.
pub proof fn law_operation_counts(e: EntryView, other: AuditOp)
    requires
        entry_bytes(e) == entry_bytes((EntryView { op: other, ..e })),
    ensures
        e.op == other,
{
    let f = EntryView { op: other, ..e };
    lemma_fields(e);
    lemma_fields(f);
    lemma_one_differs(fields(e), fields(f), 3);
    lemma_bytes_decide(e.op.name(), other.name());
    law_operation_names(e.op, other);
}

/// The resource of an entry goes into its digest.
pub proof fn law_resource_counts(e: EntryView, other: Seq<char>)
    requires
        entry_bytes(e) == entry_bytes((EntryView { resource: other, ..e })),
    ensures
        e.resource == other,
{
    let f = EntryView { resource: other, ..e };
    lemma_fields(e);
    lemma_fields(f);
    lemma_one_differs(fields(e), fields(f), 4);
    lemma_bytes_decide(e.resource, other);
}

/// The number of affected rows goes into the digest of an entry.
pub proof fn law_rows_count(e: EntryView, other: u64)
    requires
        entry_bytes(e) == entry_bytes((EntryView { rows_affected: other, ..e })),
    ensures
        e.rows_affected == other,
{
    let f = EntryView { rows_affected: other, ..e };
    lemma_fields(e);
    lemma_fields(f);
    lemma_one_differs(fields(e), fields(f), 5);
    lemma_number(e.rows_affected, other);
}

/// The detail of an entry goes into its digest.
pub proof fn law_detail_counts(e: EntryView, other: Seq<char>)
    requires
        entry_bytes(e) == entry_bytes((EntryView { detail: other, ..e })),
    ensures
        e.detail == other,
{
    let f = EntryView { detail: other, ..e };
    lemma_fields(e);
    lemma_fields(f);
    lemma_one_differs(fields(e), fields(f), 6);
    lemma_bytes_decide(e.detail, other);
}

/// The digest of the entry before goes into that of an entry.
pub proof fn law_link_counts(e: EntryView, other: [u8; 32])
    requires
        entry_bytes(e) == entry_bytes((EntryView { prev_hash: other, ..e })),
    ensures
        e.prev_hash@ == other@,
{
    let f = EntryView { prev_hash: other, ..e };
    lemma_fields(e);
    lemma_fields(f);
    lemma_one_differs(fields(e), fields(f), 7);
}

/// The names of operations tell them apart.
pub proof fn law_operation_names(a: AuditOp, b: AuditOp)
    ensures
        a.name() == b.name() <==> a == b,
{
    reveal_strlit("INSERT");
    reveal_strlit("UPDATE");
    reveal_strlit("DELETE");
    reveal_strlit("CREATE");
    reveal_strlit("DROP");
    reveal_strlit("LOGIN");
    reveal_strlit("LOGOUT");
    reveal_strlit("FAILED_LOGIN");
    reveal_strlit("GRANT");
    reveal_strlit("REVOKE");
    reveal_strlit("OTHER");
    if a.name() == b.name() {
        assert(a.name()[0] == b.name()[0]);
        assert(a.name()[3] == b.name()[3]);
    }
}

/// An appended entry carries what it was given, the next number, and the digest
/// of the entry before it.
pub proof fn law_next_entry(
    s: Seq<EntryView>,
    timestamp: u64,
    user_id: u64,
    op: AuditOp,
    resource: Seq<char>,
    rows_affected: u64,
    detail: Seq<char>,
)
    requires
        s.len() < u64::MAX,
    ensures
        ({
            let e = next_entry(s, timestamp, user_id, op, resource, rows_affected, detail);
            &&& e.sequence == s.len() + 1
            &&& e.timestamp == timestamp
            &&& e.user_id == user_id
            &&& e.op == op
            &&& e.resource == resource
            &&& e.rows_affected == rows_affected
            &&& e.detail == detail
            &&& s.len() > 0 ==> e.prev_hash == s.last().entry_hash
            &&& e.entry_hash == blake3_of(entry_bytes(e))
        }),
{
    let e = next_entry(s, timestamp, user_id, op, resource, rows_affected, detail);
    assert(entry_bytes(e) == entry_bytes(EntryView { entry_hash: e.prev_hash, ..e }));
}

} // verus!
