//! How the geohashes of a place nest.

use vstd::prelude::*;

use crate::floats::{at_most, less};
use crate::spatial::geohash::{
    geohash_of, halvings_to, hash_text, in_turn, lat_halvings, law_common_start, lon_halvings,
    narrowed, GeohashPrecision, Half, Range, LATITUDES, LONGITUDES,
};

verus! {

proof fn lemma_halvings(h: Half, from: Range, x: u64, n: int, m: int)
    requires
        0 <= n <= m,
    ensures
        halvings_to(h, from, x, m).len() == m,
        halvings_to(h, from, x, m).take(n) == halvings_to(h, from, x, n),
    decreases m,
{
    if m > n {
        lemma_halvings(h, from, x, n, m - 1);
        let bits = halvings_to(h, from, x, m - 1);
        assert(halvings_to(h, from, x, m).take(n) =~= bits.take(n));
    } else {
        if m > 0 {
            lemma_halvings(h, from, x, m - 1, m - 1);
        }
        assert(halvings_to(h, from, x, m).take(m) =~= halvings_to(h, from, x, m));
    }
}

proof fn lemma_text_len(b: Seq<bool>, n: int)
    requires
        0 <= n,
    ensures
        hash_text(b, n).len() == n,
    decreases n,
{
    if n > 0 {
        lemma_text_len(b, n - 1);
    }
}

proof fn lemma_text_start(b: Seq<bool>, n: int, m: int)
    requires
        0 <= n <= m,
    ensures
        hash_text(b, m).take(n) == hash_text(b, n),
    decreases m,
{
    lemma_text_len(b, m);
    lemma_text_len(b, n);
    if m > n {
        lemma_text_len(b, m - 1);
        lemma_text_start(b, n, m - 1);
        assert(hash_text(b, m).take(n) =~= hash_text(b, m - 1).take(n));
    } else {
        assert(hash_text(b, m).take(m) =~= hash_text(b, m));
    }
}

/// A geohash of a place begins with each shorter geohash of it.
pub proof fn law_longer_geohash(
    h: Half,
    lat: u64,
    lon: u64,
    short: GeohashPrecision,
    long: GeohashPrecision,
)
    requires
        short.0 <= long.0,
    ensures
        geohash_of(h, lat, lon, short).len() == short.0,
        geohash_of(h, lat, lon, long).take(short.0 as int) == geohash_of(h, lat, lon, short),
{
    let n = short.0 as int;
    let m = long.0 as int;
    let x = halvings_to(h, LONGITUDES, lon, lon_halvings(long));
    let y = halvings_to(h, LATITUDES, lat, lat_halvings(long));
    let u = halvings_to(h, LONGITUDES, lon, lon_halvings(short));
    let v = halvings_to(h, LATITUDES, lat, lat_halvings(short));
    lemma_halvings(h, LONGITUDES, lon, lon_halvings(short), lon_halvings(long));
    lemma_halvings(h, LATITUDES, lat, lat_halvings(short), lat_halvings(long));
    lemma_halvings(h, LONGITUDES, lon, lon_halvings(short), lon_halvings(short));
    lemma_halvings(h, LATITUDES, lat, lat_halvings(short), lat_halvings(short));
    let a = in_turn(x, y, (5 * long.0) as nat);
    let b = in_turn(u, v, (5 * short.0) as nat);
    assert(a.take(5 * n) =~= b.take(5 * n)) by {
        assert forall|k: int| 0 <= k < 5 * n implies a[k] == b[k] by {
            if k % 2 == 0 {
                assert(x.take(lon_halvings(short))[k / 2] == x[k / 2]);
            } else {
                assert(y.take(lat_halvings(short))[k / 2] == y[k / 2]);
            }
        }
    }
    law_common_start(a, b, n);
    lemma_text_start(a, n, m);
    lemma_text_len(b, n);
}

/// The next halving keeps the upper half of a range for a number that is not
/// below its middle, and the lower half for one below it.
pub proof fn law_halves(h: Half, from: Range, x: u64, n: int)
    requires
        0 <= n,
    ensures
        ({
            let bits = halvings_to(h, from, x, n + 1);
            let before = narrowed(h, from, halvings_to(h, from, x, n), n);
            let mid = h(before.0, before.1);
            &&& at_most(mid, x) ==> narrowed(h, from, bits, n + 1) == (mid, before.1)
            &&& less(x, mid) ==> narrowed(h, from, bits, n + 1) == (before.0, mid)
        }),
{
    let bits = halvings_to(h, from, x, n + 1);
    let front = halvings_to(h, from, x, n);
    lemma_halvings(h, from, x, n, n + 1);
    lemma_halvings(h, from, x, n, n);
    lemma_narrowed(h, from, bits, front, n);
}

proof fn lemma_narrowed(h: Half, from: Range, a: Seq<bool>, b: Seq<bool>, n: int)
    requires
        0 <= n <= a.len(),
        n <= b.len(),
        a.take(n) == b.take(n),
    ensures
        narrowed(h, from, a, n) == narrowed(h, from, b, n),
    decreases n,
{
    if n > 0 {
        assert(a.take(n)[n - 1] == a[n - 1] && b.take(n)[n - 1] == b[n - 1]);
        assert(a[n - 1] == b[n - 1]);
        assert(a.take(n - 1) =~= a.take(n).take(n - 1));
        assert(b.take(n - 1) =~= b.take(n).take(n - 1));
        lemma_narrowed(h, from, a, b, n - 1);
        assert(narrowed(h, from, a, n - 1) == narrowed(h, from, b, n - 1));
    } else {
        assert(narrowed(h, from, a, n) == from);
        assert(narrowed(h, from, b, n) == from);
    }
}

} // verus!
