//! Geohashes: the halvings of longitude and latitude as text.
//!
//! A place is found by halving the range of longitudes and that of latitudes
//! in turn, longitude first. Each halving is one bit, and five bits are one
//! character.

use vstd::prelude::*;

use crate::floats::{at_most, bits_at_most, is_nan};
use crate::text::{chars_of, Text};

verus! {

/// How many characters a geohash has.
#[derive(Copy, Clone, Debug, PartialEq, Eq, Structural)]
pub struct GeohashPrecision(pub usize);

impl Default for GeohashPrecision {
    fn default() -> (res: Self)
        ensures
            res.0 == 12,
    {
        GeohashPrecision(12)
    }
}

/// The characters in the order of their numbers.
pub open spec fn alphabet() -> Text {
    "0123456789bcdefghjkmnpqrstuvwxyz"@
}

/// The place of a character among those from `k` on; their number where it is
/// none of them.
pub open spec fn place_of(c: char, k: int) -> int
    decreases alphabet().len() - k,
{
    if 0 <= k < alphabet().len() && alphabet()[k] != c {
        place_of(c, k + 1)
    } else {
        k
    }
}

/// The number of a character; 0 for one that no geohash has.
pub open spec fn char_value(c: char) -> int {
    if place_of(c, 0) < alphabet().len() {
        place_of(c, 0)
    } else {
        0
    }
}

/// What a bit counts.
pub open spec fn bit_value(b: bool) -> int {
    if b {
        1
    } else {
        0
    }
}

/// The number of five bits, the highest first.
pub open spec fn five_value(b: Seq<bool>, i: int) -> int {
    16 * bit_value(b[i]) + 8 * bit_value(b[i + 1]) + 4 * bit_value(b[i + 2]) + 2 * bit_value(
        b[i + 3],
    ) + bit_value(b[i + 4])
}

/// The five bits of a number, the highest first.
pub open spec fn five_bits(n: int) -> Seq<bool> {
    seq![n / 16 % 2 == 1, n / 8 % 2 == 1, n / 4 % 2 == 1, n / 2 % 2 == 1, n % 2 == 1]
}

/// The first `n` characters for bits.
pub open spec fn hash_text(b: Seq<bool>, n: int) -> Text
    decreases n,
{
    if n <= 0 {
        seq![]
    } else {
        hash_text(b, n - 1).push(alphabet()[five_value(b, 5 * (n - 1))])
    }
}

/// The bits of the characters of a text.
pub open spec fn hash_bits(t: Text) -> Seq<bool>
    decreases t.len(),
{
    if t.len() == 0 {
        seq![]
    } else {
        hash_bits(t.drop_last()) + five_bits(char_value(t.last()))
    }
}

/// The bits of every second place, from `from` on.
pub open spec fn every_second(b: Seq<bool>, from: int) -> Seq<bool> {
    Seq::new(((b.len() - from + 1) / 2) as nat, |k: int| b[from + 2 * k])
}

/// The bits of two rows in turn, the first row first.
pub open spec fn in_turn(lon: Seq<bool>, lat: Seq<bool>, n: nat) -> Seq<bool> {
    Seq::new(
        n,
        |k: int|
            if k % 2 == 0 {
                lon[k / 2]
            } else {
                lat[k / 2]
            },
    )
}

fn find_char(letters: &Vec<char>, c: char) -> (r: u32)
    requires
        letters@ == alphabet(),
    ensures
        r == char_value(c),
        r < 32,
{
    proof {
        reveal_strlit("0123456789bcdefghjkmnpqrstuvwxyz");
    }
    let mut k: usize = 0;
    while k < letters.len()
        invariant
            k <= letters@.len(),
            letters@ == alphabet(),
            alphabet().len() == 32,
            place_of(c, k as int) == place_of(c, 0),
        decreases letters@.len() - k,
    {
        if letters[k] == c {
            return k as u32;
        }
        k = k + 1;
    }
    0
}

fn bit_number(b: bool) -> (r: usize)
    ensures
        r == bit_value(b),
{
    if b {
        1
    } else {
        0
    }
}

/// Writes bits as characters, five to each.
pub fn hash_of_bits(bits: &[bool]) -> (r: String)
    requires
        bits@.len() % 5 == 0,
    ensures
        r@ == hash_text(bits@, bits@.len() as int / 5),
{
    let letters: Vec<char> = chars_of("0123456789bcdefghjkmnpqrstuvwxyz");
    proof {
        reveal_strlit("0123456789bcdefghjkmnpqrstuvwxyz");
    }
    let mut out: String = String::new();
    let n: usize = bits.len() / 5;
    let mut k: usize = 0;
    while k < n
        invariant
            k <= n,
            n == bits@.len() / 5,
            5 * n == bits@.len(),
            bits@.len() <= usize::MAX,
            letters@ == alphabet(),
            alphabet().len() == 32,
            out@ == hash_text(bits@, k as int),
        decreases n - k,
    {
        let i: usize = 5 * k;
        let v: usize = 16 * bit_number(bits[i]) + 8 * bit_number(bits[i + 1]) + 4 * bit_number(
            bits[i + 2],
        ) + 2 * bit_number(bits[i + 3]) + bit_number(bits[i + 4]);
        assert(v == five_value(bits@, 5 * k));
        out.push(letters[v]);
        k = k + 1;
    }
    out
}

/// The bits of a geohash, five for each character.
pub fn bits_of_hash(hash: &str) -> (r: Vec<bool>)
    ensures
        r@ == hash_bits(hash@),
{
    let letters: Vec<char> = chars_of("0123456789bcdefghjkmnpqrstuvwxyz");
    let chars: Vec<char> = chars_of(hash);
    let mut out: Vec<bool> = Vec::new();
    let mut k: usize = 0;
    assert(out@ =~= hash_bits(hash@.take(0)));
    while k < chars.len()
        invariant
            k <= chars@.len(),
            chars@ == hash@,
            letters@ == alphabet(),
            out@ == hash_bits(hash@.take(k as int)),
        decreases chars@.len() - k,
    {
        let ghost before = out@;
        let n: u32 = find_char(&letters, chars[k]);
        out.push(n / 16 % 2 == 1);
        out.push(n / 8 % 2 == 1);
        out.push(n / 4 % 2 == 1);
        out.push(n / 2 % 2 == 1);
        out.push(n % 2 == 1);
        proof {
            let t = hash@.take(k + 1);
            assert(t.drop_last() =~= hash@.take(k as int));
            assert(t.last() == chars@[k as int]);
            assert(out@ =~= before + five_bits(n as int));
        }
        k = k + 1;
    }
    assert(hash@.take(k as int) =~= hash@);
    out
}

/// The halvings of longitude and of latitude that a geohash tells.
pub fn halvings(hash: &str) -> (r: (Vec<bool>, Vec<bool>))
    ensures
        r.0@ == every_second(hash_bits(hash@), 0),
        r.1@ == every_second(hash_bits(hash@), 1),
{
    let bits: Vec<bool> = bits_of_hash(hash);
    let mut lon: Vec<bool> = Vec::new();
    let mut lat: Vec<bool> = Vec::new();
    let mut k: usize = 0;
    while k < bits.len()
        invariant
            k <= bits@.len(),
            lon@.len() == (k + 1) / 2,
            lat@.len() == k / 2,
            forall|j: int| 0 <= j < lon@.len() ==> #[trigger] lon@[j] == bits@[2 * j],
            forall|j: int| 0 <= j < lat@.len() ==> #[trigger] lat@[j] == bits@[1 + 2 * j],
        decreases bits@.len() - k,
    {
        if k % 2 == 0 {
            lon.push(bits[k]);
        } else {
            lat.push(bits[k]);
        }
        k = k + 1;
    }
    assert(lon@ =~= every_second(bits@, 0));
    assert(lat@ =~= every_second(bits@, 1));
    (lon, lat)
}

/// How many halvings of longitude a geohash of the precision takes.
pub open spec fn lon_halvings(precision: GeohashPrecision) -> int {
    (5 * precision.0 + 1) / 2
}

/// How many halvings of latitude a geohash of the precision takes.
pub open spec fn lat_halvings(precision: GeohashPrecision) -> int {
    5 * precision.0 / 2
}

/// The geohash that tells the halvings of longitude and latitude.
pub fn hash_of_halvings(lon: &[bool], lat: &[bool], precision: GeohashPrecision) -> (r: String)
    requires
        5 * precision.0 <= usize::MAX,
        lon@.len() >= lon_halvings(precision),
        lat@.len() >= lat_halvings(precision),
    ensures
        r@ == hash_text(in_turn(lon@, lat@, (5 * precision.0) as nat), precision.0 as int),
{
    let n: usize = 5 * precision.0;
    let mut bits: Vec<bool> = Vec::new();
    let ghost all = in_turn(lon@, lat@, n as nat);
    let mut k: usize = 0;
    while k < n
        invariant
            k <= n,
            n == 5 * precision.0,
            all == in_turn(lon@, lat@, n as nat),
            lon@.len() >= lon_halvings(precision),
            lat@.len() >= lat_halvings(precision),
            bits@ == all.take(k as int),
        decreases n - k,
    {
        if k % 2 == 0 {
            bits.push(lon[k / 2]);
        } else {
            bits.push(lat[k / 2]);
        }
        k = k + 1;
        assert(bits@ =~= all.take(k as int));
    }
    assert(bits@ =~= all);
    hash_of_bits(bits.as_slice())
}

proof fn lemma_place_of(k: int, j: int)
    requires
        0 <= j <= k < 32,
    ensures
        place_of(alphabet()[k], j) == k,
    decreases k - j,
{
    reveal_strlit("0123456789bcdefghjkmnpqrstuvwxyz");
    if j < k {
        assert(alphabet()[j] < alphabet()[k]);
        lemma_place_of(k, j + 1);
    }
}

proof fn lemma_five_bits(b: Seq<bool>, i: int)
    requires
        0 <= i,
        i + 5 <= b.len(),
    ensures
        0 <= five_value(b, i) < 32,
        five_bits(five_value(b, i)) == b.subrange(i, i + 5),
{
    assert(five_bits(five_value(b, i)) =~= b.subrange(i, i + 5));
}

/// The bits that were written are the bits that are read.
pub proof fn law_bits_round_trip(b: Seq<bool>, n: int)
    requires
        0 <= n,
        5 * n <= b.len(),
    ensures
        hash_text(b, n).len() == n,
        hash_bits(hash_text(b, n)) == b.take(5 * n),
    decreases n,
{
    if n == 0 {
        assert(b.take(0) =~= seq![]);
    } else {
        law_bits_round_trip(b, n - 1);
        let i = 5 * (n - 1);
        lemma_five_bits(b, i);
        let v = five_value(b, i);
        reveal_strlit("0123456789bcdefghjkmnpqrstuvwxyz");
        lemma_place_of(v, 0);
        let t = hash_text(b, n);
        assert(t.drop_last() =~= hash_text(b, n - 1));
        assert(b.take(5 * n) =~= b.take(i) + b.subrange(i, i + 5));
    }
}

/// The halvings that a geohash was made from are the halvings that it tells.
pub proof fn law_halvings_round_trip(lon: Seq<bool>, lat: Seq<bool>, precision: GeohashPrecision)
    requires
        lon.len() == lon_halvings(precision),
        lat.len() == lat_halvings(precision),
    ensures
        ({
            let t = hash_text(
                in_turn(lon, lat, (5 * precision.0) as nat),
                precision.0 as int,
            );
            every_second(hash_bits(t), 0) == lon && every_second(hash_bits(t), 1) == lat
        }),
{
    let all = in_turn(lon, lat, (5 * precision.0) as nat);
    law_bits_round_trip(all, precision.0 as int);
    assert(all.take(5 * precision.0) =~= all);
    assert(every_second(all, 0) =~= lon);
    assert(every_second(all, 1) =~= lat);
}

/// Bits that begin alike are written as texts that begin alike.
pub proof fn law_common_start(a: Seq<bool>, b: Seq<bool>, n: int)
    requires
        0 <= n,
        5 * n <= a.len(),
        5 * n <= b.len(),
        a.take(5 * n) == b.take(5 * n),
    ensures
        hash_text(a, n) == hash_text(b, n),
    decreases n,
{
    if n > 0 {
        let i = 5 * (n - 1);
        let x = a.take(5 * n);
        let y = b.take(5 * n);
        assert forall|k: int| 0 <= k < 5 * n implies #[trigger] a[k] == b[k] by {
            assert(x[k] == a[k] && y[k] == b[k] && x[k] == y[k]);
        }
        assert(a.take(i) =~= b.take(i));
        law_common_start(a, b, n - 1);
    }
}

/// A range of numbers, by its ends.
pub type Range = (u64, u64);

/// The longitudes, from -180 to 180.
pub const LONGITUDES: Range = (0xc066_8000_0000_0000, 0x4066_8000_0000_0000);

/// The latitudes, from -90 to 90.
pub const LATITUDES: Range = (0xc056_8000_0000_0000, 0x4056_8000_0000_0000);

/// The number half-way between two, as it is handed in.
pub struct Halver<H> {
    pub half: H,
}

/// The number half-way between two.
pub type Half = spec_fn(u64, u64) -> u64;

impl<H: Fn(u64, u64) -> u64> Halver<H> {
    /// Every half is given, and always the same.
    pub open spec fn steady(&self) -> bool {
        &&& forall|a: u64, b: u64| #[trigger] self.half.requires((a, b))
        &&& forall|a: u64, b: u64, r: u64, s: u64|
            #[trigger] self.half.ensures((a, b), r) && #[trigger] self.half.ensures((a, b), s)
                ==> r == s
    }

    fn halved(&self, a: u64, b: u64) -> (r: u64)
        requires
            self.steady(),
        ensures
            r == self@(a, b),
    {
        (self.half)(a, b)
    }
}

impl<H: Fn(u64, u64) -> u64> View for Halver<H> {
    type V = Half;

    open spec fn view(&self) -> Half {
        |a: u64, b: u64| choose|r: u64| self.half.ensures((a, b), r)
    }
}

/// What is left of a range after the first `n` halvings: the upper half for a
/// set bit, else the lower one.
pub open spec fn narrowed(h: Half, from: Range, bits: Seq<bool>, n: int) -> Range
    decreases n,
{
    if n <= 0 {
        from
    } else {
        let r = narrowed(h, from, bits, n - 1);
        let mid = h(r.0, r.1);
        if bits[n - 1] {
            (mid, r.1)
        } else {
            (r.0, mid)
        }
    }
}

/// The first `n` halvings that lead to a number.
pub open spec fn halvings_to(h: Half, from: Range, x: u64, n: int) -> Seq<bool>
    decreases n,
{
    if n <= 0 {
        seq![]
    } else {
        let bits = halvings_to(h, from, x, n - 1);
        let r = narrowed(h, from, bits, n - 1);
        bits.push(at_most(h(r.0, r.1), x))
    }
}

/// The geohash of a place.
pub open spec fn geohash_of(h: Half, lat: u64, lon: u64, precision: GeohashPrecision) -> Text {
    hash_text(
        in_turn(
            halvings_to(h, LONGITUDES, lon, lon_halvings(precision)),
            halvings_to(h, LATITUDES, lat, lat_halvings(precision)),
            (5 * precision.0) as nat,
        ),
        precision.0 as int,
    )
}

/// The longitudes of the cell of a geohash.
pub open spec fn cell_longitudes(h: Half, hash: Text) -> Range {
    let bits = every_second(hash_bits(hash), 0);
    narrowed(h, LONGITUDES, bits, bits.len() as int)
}

/// The latitudes of the cell of a geohash.
pub open spec fn cell_latitudes(h: Half, hash: Text) -> Range {
    let bits = every_second(hash_bits(hash), 1);
    narrowed(h, LATITUDES, bits, bits.len() as int)
}

impl<H: Fn(u64, u64) -> u64> Halver<H> {
    fn find_halvings(&self, from: Range, x: u64, n: usize) -> (r: Vec<bool>)
        requires
            self.steady(),
        ensures
            r@ == halvings_to(self@, from, x, n as int),
            r@.len() == n,
    {
        let mut bits: Vec<bool> = Vec::new();
        let mut r: Range = from;
        let mut k: usize = 0;
        while k < n
            invariant
                k <= n,
                self.steady(),
                bits@.len() == k,
                bits@ == halvings_to(self@, from, x, k as int),
                r == narrowed(self@, from, bits@, k as int),
            decreases n - k,
        {
            let ghost before = bits@;
            let mid: u64 = self.halved(r.0, r.1);
            let upper: bool = bits_at_most(mid, x);
            bits.push(upper);
            proof {
                lemma_narrowed_prefix(self@, from, before, bits@, k as int);
            }
            r = if upper {
                (mid, r.1)
            } else {
                (r.0, mid)
            };
            k = k + 1;
        }
        bits
    }

    fn follow(&self, from: Range, bits: &Vec<bool>) -> (r: Range)
        requires
            self.steady(),
        ensures
            r == narrowed(self@, from, bits@, bits@.len() as int),
    {
        let mut r: Range = from;
        let mut k: usize = 0;
        while k < bits.len()
            invariant
                k <= bits@.len(),
                self.steady(),
                r == narrowed(self@, from, bits@, k as int),
            decreases bits@.len() - k,
        {
            let mid: u64 = self.halved(r.0, r.1);
            r = if bits[k] {
                (mid, r.1)
            } else {
                (r.0, mid)
            };
            k = k + 1;
        }
        r
    }
}

proof fn lemma_narrowed_prefix(h: Half, from: Range, a: Seq<bool>, b: Seq<bool>, n: int)
    requires
        n <= a.len(),
        n <= b.len(),
        forall|k: int| 0 <= k < n ==> a[k] == #[trigger] b[k],
    ensures
        narrowed(h, from, a, n) == narrowed(h, from, b, n),
    decreases n,
{
    if n > 0 {
        assert(a[n - 1] == b[n - 1]);
        lemma_narrowed_prefix(h, from, a, b, n - 1);
    }
}

/// The geohash of a place.
pub fn encode_geohash<H: Fn(u64, u64) -> u64>(
    halver: &Halver<H>,
    lat: u64,
    lon: u64,
    precision: GeohashPrecision,
) -> (r: String)
    requires
        halver.steady(),
        5 * precision.0 <= usize::MAX - 1,
    ensures
        r@ == geohash_of(halver@, lat, lon, precision),
{
    let n: usize = 5 * precision.0;
    let x: Vec<bool> = halver.find_halvings(LONGITUDES, lon, (n + 1) / 2);
    let y: Vec<bool> = halver.find_halvings(LATITUDES, lat, n / 2);
    hash_of_halvings(x.as_slice(), y.as_slice(), precision)
}

/// The middle of the cell of a geohash: its latitude and longitude.
pub fn decode_geohash<H: Fn(u64, u64) -> u64>(halver: &Halver<H>, hash: &str) -> (r: (u64, u64))
    requires
        halver.steady(),
    ensures
        ({
            let lat = cell_latitudes(halver@, hash@);
            let lon = cell_longitudes(halver@, hash@);
            r == (halver@(lat.0, lat.1), halver@(lon.0, lon.1))
        }),
{
    let (x, y) = halvings(hash);
    let lon: Range = halver.follow(LONGITUDES, &x);
    let lat: Range = halver.follow(LATITUDES, &y);
    (halver.halved(lat.0, lat.1), halver.halved(lon.0, lon.1))
}

/// The cell of a geohash: the least and the greatest latitude, then the least
/// and the greatest longitude.
pub fn geohash_bounds<H: Fn(u64, u64) -> u64>(
    halver: &Halver<H>,
    hash: &str,
) -> (r: (u64, u64, u64, u64))
    requires
        halver.steady(),
    ensures
        ({
            let lat = cell_latitudes(halver@, hash@);
            let lon = cell_longitudes(halver@, hash@);
            r == (lat.0, lat.1, lon.0, lon.1)
        }),
{
    let (x, y) = halvings(hash);
    let lon: Range = halver.follow(LONGITUDES, &x);
    let lat: Range = halver.follow(LATITUDES, &y);
    (lat.0, lat.1, lon.0, lon.1)
}

proof fn lemma_halvings_len(h: Half, from: Range, x: u64, n: int)
    requires
        0 <= n,
    ensures
        halvings_to(h, from, x, n).len() == n,
    decreases n,
{
    if n > 0 {
        lemma_halvings_len(h, from, x, n - 1);
    }
}

/// The half lies between the two.
pub open spec fn halves_between(h: Half) -> bool {
    forall|a: u64, b: u64|
        at_most(a, b) ==> at_most(a, #[trigger] h(a, b)) && at_most(h(a, b), b)
}

/// Whether a number lies in a range.
pub open spec fn in_range(x: u64, r: Range) -> bool {
    at_most(r.0, x) && at_most(x, r.1)
}

proof fn lemma_cell_holds(h: Half, from: Range, x: u64, n: int)
    requires
        0 <= n,
        halves_between(h),
        in_range(x, from),
    ensures
        in_range(x, narrowed(h, from, halvings_to(h, from, x, n), n)),
    decreases n,
{
    if n > 0 {
        lemma_cell_holds(h, from, x, n - 1);
        lemma_halvings_len(h, from, x, n - 1);
        let before = halvings_to(h, from, x, n - 1);
        let now = halvings_to(h, from, x, n);
        lemma_narrowed_prefix(h, from, before, now, n - 1);
        let r = narrowed(h, from, before, n - 1);
        assert(at_most(r.0, r.1));
        let mid = h(r.0, r.1);
        assert(!is_nan(mid) && !is_nan(x));
    }
}

/// The cell of the geohash of a place holds the place.
pub proof fn law_cell_holds_place(h: Half, lat: u64, lon: u64, precision: GeohashPrecision)
    requires
        halves_between(h),
        in_range(lat, LATITUDES),
        in_range(lon, LONGITUDES),
    ensures
        in_range(lat, cell_latitudes(h, geohash_of(h, lat, lon, precision))),
        in_range(lon, cell_longitudes(h, geohash_of(h, lat, lon, precision))),
{
    let n = lon_halvings(precision);
    let m = lat_halvings(precision);
    lemma_halvings_len(h, LONGITUDES, lon, n);
    lemma_halvings_len(h, LATITUDES, lat, m);
    law_halvings_round_trip(
        halvings_to(h, LONGITUDES, lon, n),
        halvings_to(h, LATITUDES, lat, m),
        precision,
    );
    lemma_cell_holds(h, LONGITUDES, lon, n);
    lemma_cell_holds(h, LATITUDES, lat, m);
}

} // verus!
