//! Shipping of WAL segments to a replica, and the replica's progress.
//!
//! Times are in nanoseconds from some start that the caller picks.

use vstd::prelude::*;

use crate::numbers::{digits_value, law_decimal_round_trip, parse_u64, unsigned_value};
use crate::text::{chars_of, decimal, decimal_string, string_of, texts};

verus! {

/// When segments are shipped.
#[derive(Copy, Clone, Debug)]
pub enum ShipPolicy {
    /// After every commit.
    OnCommit,
    /// At most once in that many nanoseconds.
    Interval(u64),
    /// When a segment is sealed, which the caller decides.
    OnSegmentSeal,
}

/// Where segments are shipped to.
#[derive(Clone, Debug)]
pub enum ShipTarget {
    /// A directory.
    Directory(String),
    /// A directory from which another process uploads to S3.
    S3Staging(String),
}

impl ShipTarget {
    /// The directory that is written to.
    pub open spec fn dir(self) -> Seq<char> {
        match self {
            ShipTarget::Directory(p) => p@,
            ShipTarget::S3Staging(p) => p@,
        }
    }

    /// The directory that is written to.
    pub fn path(&self) -> (r: &str)
        ensures
            r@ == self.dir(),
    {
        match self {
            ShipTarget::Directory(p) => p.as_str(),
            ShipTarget::S3Staging(p) => p.as_str(),
        }
    }
}

/// Why a segment was not shipped.
#[derive(Debug, Clone)]
pub enum ShipError {
    Io(String),
    InvalidTarget,
    SegmentAlreadyShipped,
}

impl ShipError {
    /// What an error says.
    pub open spec fn text(self) -> Seq<char> {
        match self {
            ShipError::Io(s) => "WAL ship IO error: "@ + s@,
            ShipError::InvalidTarget => "invalid WAL ship target"@,
            ShipError::SegmentAlreadyShipped => "WAL segment already shipped"@,
        }
    }

    /// What the error says.
    pub fn message(&self) -> (r: String)
        ensures
            r@ == self.text(),
    {
        match self {
            ShipError::Io(s) => {
                let mut out: String = "WAL ship IO error: ".to_owned();
                out.append(s.as_str());
                out
            },
            ShipError::InvalidTarget => "invalid WAL ship target".to_owned(),
            ShipError::SegmentAlreadyShipped => "WAL segment already shipped".to_owned(),
        }
    }
}

/// A number in decimal with zeros in front up to a width.
pub open spec fn padded(n: nat, width: nat) -> Seq<char> {
    let d = decimal(n);
    if d.len() < width {
        Seq::new((width - d.len()) as nat, |i: int| '0') + d
    } else {
        d
    }
}

/// The name of the file of a segment.
pub open spec fn segment_name(lsn: u64) -> Seq<char> {
    "wal_"@ + padded(lsn as nat, 20) + ".seg"@
}

/// The LSN that the name of a file gives; `None` where it is no segment.
pub open spec fn segment_lsn(name: Seq<char>) -> Option<u64> {
    if name.len() >= 8 && name.take(4) == "wal_"@ && name.skip(name.len() - 4) == ".seg"@ {
        match unsigned_value(name.subrange(4, name.len() - 4)) {
            Some(n) => if n <= u64::MAX {
                Some(n as u64)
            } else {
                None
            },
            None => None,
        }
    } else {
        None
    }
}

/// The name of the file of a segment.
pub fn segment_file_name(lsn: u64) -> (r: String)
    ensures
        r@ == segment_name(lsn),
{
    let digits: String = decimal_string(lsn);
    let chars: Vec<char> = chars_of(digits.as_str());
    let n: usize = chars.len();
    let mut out: String = "wal_".to_owned();
    let ghost front = out@;
    let mut i: usize = n;
    assert(out@ =~= front + Seq::new(0, |k: int| '0'));
    while i < 20
        invariant
            n <= i,
            i <= 20 || i == n,
            out@ == front + Seq::new((i - n) as nat, |k: int| '0'),
        decreases 20 - i,
    {
        out.push('0');
        i = i + 1;
        assert(out@ =~= front + Seq::new((i - n) as nat, |k: int| '0'));
    }
    let ghost zeros = out@;
    out.append(digits.as_str());
    assert(zeros + digits@ =~= front + padded(lsn as nat, 20));
    out.append(".seg");
    out
}

/// The LSN that the name of a file gives; `None` where it is no segment.
pub fn parse_segment_name(name: &str) -> (r: Option<u64>)
    ensures
        r == segment_lsn(name@),
{
    let chars: Vec<char> = chars_of(name);
    let n: usize = chars.len();
    proof {
        reveal_strlit("wal_");
        reveal_strlit(".seg");
    }
    if n < 8 {
        return None;
    }
    if !(chars[0] == 'w' && chars[1] == 'a' && chars[2] == 'l' && chars[3] == '_') {
        assert(name@.take(4)[0] == name@[0]);
        assert(name@.take(4)[1] == name@[1]);
        assert(name@.take(4)[2] == name@[2]);
        assert(name@.take(4)[3] == name@[3]);
        return None;
    }
    if !(chars[n - 4] == '.' && chars[n - 3] == 's' && chars[n - 2] == 'e' && chars[n - 1] == 'g') {
        assert(name@.skip(n - 4)[0] == name@[n - 4]);
        assert(name@.skip(n - 4)[1] == name@[n - 3]);
        assert(name@.skip(n - 4)[2] == name@[n - 2]);
        assert(name@.skip(n - 4)[3] == name@[n - 1]);
        return None;
    }
    assert(name@.take(4) =~= "wal_"@);
    assert(name@.skip(n - 4) =~= ".seg"@);
    let digits: String = string_of(chars.as_slice(), 4, n - 4);
    parse_u64(digits.as_str())
}

proof fn lemma_zeros_in_front(zeros: nat, d: Seq<char>)
    requires
        digits_value(d) is Some,
    ensures
        digits_value(Seq::new(zeros, |i: int| '0') + d) == digits_value(d),
    decreases d.len(),
{
    let z = Seq::new(zeros, |i: int| '0');
    if d.len() == 0 {
        lemma_zeros(zeros);
        assert(z + d =~= z);
    } else {
        assert((z + d).drop_last() =~= z + d.drop_last());
        assert((z + d).last() == d.last());
        lemma_zeros_in_front(zeros, d.drop_last());
    }
}

proof fn lemma_zeros(n: nat)
    ensures
        digits_value(Seq::new(n, |i: int| '0')) == Some(0nat),
    decreases n,
{
    let z = Seq::new(n, |i: int| '0');
    if n > 0 {
        assert(z.drop_last() =~= Seq::new((n - 1) as nat, |i: int| '0'));
        lemma_zeros((n - 1) as nat);
    }
}

/// The name of a segment gives its LSN.
pub proof fn law_segment_name_round_trip(lsn: u64)
    ensures
        segment_lsn(segment_name(lsn)) == Some(lsn),
{
    reveal_strlit("wal_");
    reveal_strlit(".seg");
    let d = decimal(lsn as nat);
    let p = padded(lsn as nat, 20);
    let name = segment_name(lsn);
    law_decimal_round_trip(lsn as nat);
    if d.len() < 20 {
        lemma_zeros_in_front((20 - d.len()) as nat, d);
    }
    assert(digits_value(p) == Some(lsn as nat));
    assert(p[0] != '+') by {
        if d.len() < 20 {
            assert(p[0] == '0');
        } else {
            assert(p[0] == d[0]);
        }
    }
    assert(name.take(4) =~= "wal_"@);
    assert(name.skip(name.len() - 4) =~= ".seg"@);
    assert(name.subrange(4, name.len() - 4) =~= p);
}

/// Decides what is shipped and keeps count.
pub struct WalShipper {
    target: ShipTarget,
    policy: ShipPolicy,
    last_ship_time: Option<u64>,
    last_shipped_lsn: u64,
    segments_shipped: u64,
    bytes_shipped: u64,
}

/// The mathematical value of a [`WalShipper`].
#[verifier::ext_equal]
pub struct ShipperView {
    pub target: ShipTarget,
    pub policy: ShipPolicy,
    pub last_ship_time: Option<u64>,
    pub last_shipped_lsn: u64,
    pub segments_shipped: u64,
    pub bytes_shipped: u64,
}

impl View for WalShipper {
    type V = ShipperView;

    closed spec fn view(&self) -> ShipperView {
        ShipperView {
            target: self.target,
            policy: self.policy,
            last_ship_time: self.last_ship_time,
            last_shipped_lsn: self.last_shipped_lsn,
            segments_shipped: self.segments_shipped,
            bytes_shipped: self.bytes_shipped,
        }
    }
}

impl WalShipper {
    /// A shipper that has shipped nothing.
    pub fn new(target: ShipTarget, policy: ShipPolicy) -> (res: Self)
        ensures
            res@ == (ShipperView {
                target,
                policy,
                last_ship_time: None,
                last_shipped_lsn: 0,
                segments_shipped: 0,
                bytes_shipped: 0,
            }),
    {
        WalShipper {
            target,
            policy,
            last_ship_time: None,
            last_shipped_lsn: 0,
            segments_shipped: 0,
            bytes_shipped: 0,
        }
    }

    /// Whether a segment is to be shipped at a time: always, but with an
    /// interval not before it has passed since the last one.
    pub fn should_ship(&self, now: u64) -> (r: bool)
        ensures
            r == match self@.policy {
                ShipPolicy::Interval(d) => match self@.last_ship_time {
                    Some(last) => d == 0 || now >= last + d,
                    None => true,
                },
                _ => true,
            },
    {
        match self.policy {
            ShipPolicy::Interval(d) => match self.last_ship_time {
                Some(last) => {
                    let passed: u64 = if now > last {
                        now - last
                    } else {
                        0
                    };
                    passed >= d
                },
                None => true,
            },
            _ => true,
        }
    }

    /// The directory and the name of the file that a segment is to be written
    /// to. Fails for a segment that is not after the last one.
    pub fn begin_ship(&self, lsn: u64) -> (r: Result<(String, String), ShipError>)
        ensures
            match r {
                Ok(p) => lsn > self@.last_shipped_lsn && p.0@ == self@.target.dir() && p.1@
                    == segment_name(lsn),
                Err(e) => lsn <= self@.last_shipped_lsn && e is SegmentAlreadyShipped,
            },
    {
        if lsn <= self.last_shipped_lsn {
            return Err(ShipError::SegmentAlreadyShipped);
        }
        Ok((self.target.path().to_owned(), segment_file_name(lsn)))
    }

    /// Takes note that a segment of some bytes was written at a time.
    pub fn finish_ship(&mut self, lsn: u64, bytes: usize, now: u64) -> (r: usize)
        requires
            lsn > old(self)@.last_shipped_lsn,
            old(self)@.segments_shipped < u64::MAX,
            old(self)@.bytes_shipped + bytes <= u64::MAX,
        ensures
            r == bytes,
            final(self)@ == (ShipperView {
                last_ship_time: Some(now),
                last_shipped_lsn: lsn,
                segments_shipped: (old(self)@.segments_shipped + 1) as u64,
                bytes_shipped: (old(self)@.bytes_shipped + bytes) as u64,
                ..old(self)@
            }),
    {
        self.last_shipped_lsn = lsn;
        self.last_ship_time = Some(now);
        self.segments_shipped = self.segments_shipped + 1;
        self.bytes_shipped = self.bytes_shipped + bytes as u64;
        bytes
    }

    /// The LSN of the last segment that was shipped.
    pub fn last_shipped_lsn(&self) -> (r: u64)
        ensures
            r == self@.last_shipped_lsn,
    {
        self.last_shipped_lsn
    }

    /// How many segments were shipped.
    pub fn segments_shipped(&self) -> (r: u64)
        ensures
            r == self@.segments_shipped,
    {
        self.segments_shipped
    }

    /// How many bytes were shipped.
    pub fn bytes_shipped(&self) -> (r: u64)
        ensures
            r == self@.bytes_shipped,
    {
        self.bytes_shipped
    }
}

/// How many of the files are segments after an LSN.
pub open spec fn new_segments(names: Seq<Seq<char>>, after: u64) -> nat
    decreases names.len(),
{
    if names.len() == 0 {
        0
    } else {
        let rest = new_segments(names.drop_last(), after);
        match segment_lsn(names.last()) {
            Some(lsn) => if lsn > after {
                rest + 1
            } else {
                rest
            },
            None => rest,
        }
    }
}

/// The highest LSN of the files, or the given one.
pub open spec fn highest_lsn(names: Seq<Seq<char>>, after: u64) -> u64
    decreases names.len(),
{
    if names.len() == 0 {
        after
    } else {
        let rest = highest_lsn(names.drop_last(), after);
        match segment_lsn(names.last()) {
            Some(lsn) => if lsn > rest {
                lsn
            } else {
                rest
            },
            None => rest,
        }
    }
}

/// A replica's progress through the segments.
pub struct ReplicaApplier {
    data_dir: String,
    last_applied_lsn: u64,
}

impl ReplicaApplier {
    /// The directory of the segments.
    pub closed spec fn dir(&self) -> Seq<char> {
        self.data_dir@
    }

    /// The LSN of the last segment that was applied.
    pub closed spec fn applied(&self) -> u64 {
        self.last_applied_lsn
    }

    /// A replica that has applied nothing.
    pub fn new(data_dir: String) -> (res: Self)
        ensures
            res.dir() == data_dir@,
            res.applied() == 0,
    {
        ReplicaApplier { data_dir, last_applied_lsn: 0 }
    }

    /// The directory of the segments.
    pub fn data_dir(&self) -> (r: &str)
        ensures
            r@ == self.dir(),
    {
        self.data_dir.as_str()
    }

    /// Applies the segments among the files that were not applied yet. Returns
    /// how many they are.
    pub fn catch_up(&mut self, names: &Vec<String>) -> (r: usize)
        ensures
            r == new_segments(texts(names@), old(self).applied()),
            final(self).applied() == highest_lsn(texts(names@), old(self).applied()),
            final(self).dir() == old(self).dir(),
    {
        let ghost all = texts(names@);
        let start: u64 = self.last_applied_lsn;
        let mut last: u64 = start;
        let mut count: usize = 0;
        let mut i: usize = 0;
        assert(all.take(0) =~= seq![]);
        while i < names.len()
            invariant
                i <= names@.len(),
                all == texts(names@),
                count <= i,
                start <= last,
                count == new_segments(all.take(i as int), start),
                last == highest_lsn(all.take(i as int), start),
            decreases names@.len() - i,
        {
            proof {
                assert(all.take(i + 1).drop_last() =~= all.take(i as int));
                assert(all.take(i + 1).last() == all[i as int]);
            }
            match parse_segment_name(names[i].as_str()) {
                Some(lsn) => {
                    if lsn > start {
                        count = count + 1;
                    }
                    if lsn > last {
                        last = lsn;
                    }
                },
                None => {},
            }
            i = i + 1;
        }
        assert(all.take(i as int) =~= all);
        self.last_applied_lsn = last;
        count
    }

    /// The LSN of the last segment that was applied.
    pub fn last_applied_lsn(&self) -> (r: u64)
        ensures
            r == self.applied(),
    {
        self.last_applied_lsn
    }
}

proof fn lemma_highest(names: Seq<Seq<char>>, after: u64, i: int)
    requires
        0 <= i < names.len(),
    ensures
        segment_lsn(names[i]) matches Some(lsn) ==> lsn <= highest_lsn(names, after),
        after <= highest_lsn(names, after),
    decreases names.len(),
{
    let front = names.drop_last();
    if i < front.len() {
        lemma_highest(front, after, i);
        assert(front[i] == names[i]);
    } else if front.len() > 0 {
        lemma_highest(front, after, 0);
    } else {
        assert(highest_lsn(front, after) == after);
    }
}

/// A replica that has caught up finds nothing new among the same files.
pub proof fn law_caught_up(names: Seq<Seq<char>>, after: u64)
    ensures
        new_segments(names, highest_lsn(names, after)) == 0,
        highest_lsn(names, highest_lsn(names, after)) == highest_lsn(names, after),
{
    assert(names.take(names.len() as int) =~= names);
    lemma_nothing_new(names, highest_lsn(names, after), names, after);
}

proof fn lemma_nothing_new(part: Seq<Seq<char>>, top: u64, names: Seq<Seq<char>>, after: u64)
    requires
        top == highest_lsn(names, after),
        part.len() <= names.len(),
        part == names.take(part.len() as int),
    ensures
        new_segments(part, top) == 0,
        highest_lsn(part, top) == top,
    decreases part.len(),
{
    if part.len() > 0 {
        let front = part.drop_last();
        assert(front =~= names.take(front.len() as int));
        lemma_nothing_new(front, top, names, after);
        lemma_highest(names, after, part.len() - 1);
        assert(part.last() == names[part.len() - 1]);
    } else {
        assert(part =~= seq![]);
    }
}

/// A segment that was shipped is applied by a replica that had not got so far.
pub proof fn law_shipped_segment_is_applied(names: Seq<Seq<char>>, lsn: u64, after: u64, i: int)
    requires
        0 <= i < names.len(),
        names[i] == segment_name(lsn),
    ensures
        highest_lsn(names, after) >= lsn,
{
    law_segment_name_round_trip(lsn);
    lemma_highest(names, after, i);
}

} // verus!
