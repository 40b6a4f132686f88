//! Which GPS times the laszip codec takes.
//!
//! The codec keeps four sequences of times for every scanner channel of a chunk
//! and codes a time by how far it is from the last one of its sequence, as bit
//! patterns, against the distance the sequence usually has. Two of its steps have
//! no room for every outcome: the distance in 64 bits where the usual one is not
//! zero, and five hundred times the usual one in 32 bits. What is said here is
//! when neither runs out of room.

use crate::bytes::{le64, u64_at};
use crate::double::{round_div, rounded, Real};
use vstd::prelude::*;

verus! {

/// One sequence of times: the last of them, the distance it usually has, and how
/// many distances far from that came in a row.
#[derive(Debug, Clone, Copy, PartialEq, Eq, Structural)]
pub struct Sequence {
    pub time: i128,
    pub diff: i128,
    pub extremes: u8,
}

/// The pattern of a double as a signed number.
pub open spec fn pattern(bits: u64) -> i128 {
    if bits < 0x8000_0000_0000_0000 {
        bits as i128
    } else {
        (bits - 0x1_0000_0000_0000_0000) as i128
    }
}

/// Whether a distance fits in 64 bits.
pub open spec fn is_long(d: int) -> bool {
    -0x8000_0000_0000_0000 <= d < 0x8000_0000_0000_0000
}

/// Whether a distance fits in 32 bits.
pub open spec fn is_short(d: int) -> bool {
    -0x8000_0000 <= d < 0x8000_0000
}

/// A distance between two patterns, wrapped to 64 bits.
pub open spec fn wrapped(d: int) -> int {
    if d >= 0x8000_0000_0000_0000 {
        d - 0x1_0000_0000_0000_0000
    } else if d < -0x8000_0000_0000_0000 {
        d + 0x1_0000_0000_0000_0000
    } else {
        d
    }
}

/// The unit in the last place of a number up to 2^31 with 24 binary digits.
pub open spec fn unit24(n: nat) -> nat {
    if n < 0x100_0000 {
        1
    } else if n < 0x200_0000 {
        2
    } else if n < 0x400_0000 {
        4
    } else if n < 0x800_0000 {
        8
    } else if n < 0x1000_0000 {
        16
    } else if n < 0x2000_0000 {
        32
    } else if n < 0x4000_0000 {
        64
    } else {
        128
    }
}

/// The nearest number with 24 significant binary digits, as single precision
/// holds a 32-bit number.
pub open spec fn nearest24(n: nat) -> nat {
    rounded(n, unit24(n)) * unit24(n)
}

/// The size of a distance as single precision holds it.
pub open spec fn size24(d: int) -> nat {
    nearest24(
        (if d < 0 {
            -d
        } else {
            d
        }) as nat,
    )
}

/// Whether a distance goes the way of another.
pub open spec fn same_way(c: int, l: int) -> bool {
    (c >= 0) == (l >= 0)
}

/// Whether the quotient of two distances rounds, in single precision, to one at
/// least: from the last number below a half on.
pub open spec fn is_one(c: int, l: int) -> bool {
    size24(c) * 0x400_0000 > size24(l) * 0x1ff_fffd
}

/// Whether the quotient of two distances rounds to two at least.
pub open spec fn is_two(c: int, l: int) -> bool {
    size24(c) * 0x100_0000 >= size24(l) * 0x17f_ffff
}

/// Whether the quotient of two distances rounds to ten at least.
pub open spec fn is_ten(c: int, l: int) -> bool {
    size24(c) * 0x20_0000 >= size24(l) * 0x12f_ffff
}

/// Whether the quotient of two distances rounds to five hundred at least.
pub open spec fn is_many(c: int, l: int) -> bool {
    size24(c) * 0x1_0000 >= size24(l) * 0x1f3_7fff
}

/// Whether a distance is about the usual one.
pub open spec fn is_steady(c: int, l: int) -> bool {
    same_way(c, l) && is_one(c, l) && !is_two(c, l)
}

/// Whether a distance is five hundred times the usual one at least.
pub open spec fn is_jump(c: int, l: int) -> bool {
    same_way(c, l) && is_many(c, l)
}

/// Whether a distance is far from the usual one: less than half of it, five
/// hundred times it, or ten times it the other way.
pub open spec fn is_extreme(c: int, l: int) -> bool {
    !is_one(c, l) || is_jump(c, l) || (!same_way(c, l) && is_ten(c, l))
}

/// A sequence with one more time near its last, or nothing where the codec runs
/// out of room.
pub open spec fn placed(s: Sequence, t: i128) -> Option<Sequence> {
    let d = wrapped(t - s.time);
    if s.diff == 0 {
        Some(Sequence { time: t, diff: d as i128, extremes: 0 })
    } else if !is_long(t - s.time) {
        None
    } else if is_jump(d, s.diff as int) && !is_short(500 * s.diff) {
        None
    } else if is_steady(d, s.diff as int) {
        Some(Sequence { time: t, diff: s.diff, extremes: 0 })
    } else if !is_extreme(d, s.diff as int) {
        Some(Sequence { time: t, diff: s.diff, extremes: s.extremes })
    } else if s.extremes >= 3 {
        Some(Sequence { time: t, diff: d as i128, extremes: 0 })
    } else {
        Some(Sequence { time: t, diff: s.diff, extremes: (s.extremes + 1) as u8 })
    }
}

/// Whether a time is near the last of a sequence.
pub open spec fn is_near(s: Sequence, t: i128) -> bool {
    is_short(wrapped(t - s.time))
}

/// The sequences of one channel: the one in use, and the one begun last.
#[verifier::ext_equal]
pub struct Line {
    pub all: Seq<Sequence>,
    pub last: int,
    pub next: int,
}

/// The sequences of a channel that starts with a time.
pub open spec fn line_from(t: i128) -> Line {
    let none = Sequence { time: 0, diff: 0, extremes: 0 };
    Line { all: seq![Sequence { time: t, ..none }, none, none, none], last: 0, next: 0 }
}

/// A channel with a time in one of its sequences, which is then the one in use.
pub open spec fn put_in(l: Line, k: int, t: i128) -> Option<Line> {
    match placed(l.all[k], t) {
        Some(s) => Some(Line { all: l.all.update(k, s), last: k, next: l.next }),
        None => None,
    }
}

/// A channel with one more time: in the sequence in use, in the next one that it
/// is near, or in a new one.
pub open spec fn stepped(l: Line, t: i128) -> Option<Line> {
    let s = l.all[l.last];
    let (a, b, c) = ((l.last + 1) % 4, (l.last + 2) % 4, (l.last + 3) % 4);
    if s.diff != 0 && !is_long(t - s.time) {
        None
    } else if is_near(s, t) {
        put_in(l, l.last, t)
    } else if is_near(l.all[a], t) {
        put_in(l, a, t)
    } else if is_near(l.all[b], t) {
        put_in(l, b, t)
    } else if is_near(l.all[c], t) {
        put_in(l, c, t)
    } else {
        let n = (l.next + 1) % 4;
        Some(
            Line {
                all: l.all.update(n, Sequence { time: t, diff: 0, extremes: 0 }),
                last: n,
                next: n,
            },
        )
    }
}

/// What the codec knows of the times of a chunk: the sequences of each channel
/// that has any points, the last time of each, and the channel of the last point.
#[verifier::ext_equal]
pub struct Chunk {
    pub lines: Seq<Option<Line>>,
    pub seen: Seq<u64>,
    pub current: int,
}

/// Whether two doubles are equal: the zeros are, and what is no number equals
/// nothing.
pub open spec fn same_value(a: u64, b: u64) -> bool {
    (Real { bits: a }).at_most(Real { bits: b }) && (Real { bits: b }).at_most(Real { bits: a })
}

/// A chunk with its first point.
pub open spec fn begun(channel: int, time: u64) -> Chunk {
    Chunk {
        lines: seq![None::<Line>, None, None, None].update(
            channel,
            Some(line_from(pattern(time))),
        ),
        seen: seq![0u64, 0, 0, 0].update(channel, time),
        current: channel,
    }
}

/// A chunk with one more point. A channel that has none yet starts with the time
/// of the point before; a time that is the last one of its channel is not coded.
pub open spec fn taken(c: Chunk, channel: int, time: u64) -> Option<Chunk> {
    let known = c.lines[channel] is Some;
    let before = if known {
        c.seen[channel]
    } else {
        c.seen[c.current]
    };
    let line = if known {
        c.lines[channel]->0
    } else {
        line_from(pattern(before))
    };
    let next = if same_value(before, time) {
        Some(line)
    } else {
        stepped(line, pattern(time))
    };
    match next {
        Some(l) => Some(
            Chunk {
                lines: c.lines.update(channel, Some(l)),
                seen: c.seen.update(channel, time),
                current: channel,
            },
        ),
        None => None,
    }
}

/// The scanner channel of a record.
pub open spec fn channel_of(records: Seq<u8>, size: int, i: int) -> int {
    records[i * size + 15] as int / 16 % 4
}

/// The GPS time of a record.
pub open spec fn time_of(records: Seq<u8>, size: int, i: int) -> u64 {
    le64(records, i * size + 22) as u64
}

/// What the codec knows after the first `n` records, in chunks of some size, or
/// nothing where it ran out of room.
pub open spec fn known_after(records: Seq<u8>, size: int, chunk: int, n: int) -> Option<Chunk>
    decreases n,
{
    let i = n - 1;
    if i < 0 {
        Some(begun(0, 0))
    } else {
        match known_after(records, size, chunk, i) {
            None => None,
            Some(c) => if i % chunk == 0 {
                Some(begun(channel_of(records, size, i), time_of(records, size, i)))
            } else {
                taken(c, channel_of(records, size, i), time_of(records, size, i))
            },
        }
    }
}

/// Whether the codec has room for the GPS times of some records, compressed in
/// chunks of some size.
#[verifier::opaque]
pub open spec fn times_fit(records: Seq<u8>, size: int, chunk: int) -> bool {
    known_after(records, size, chunk, records.len() as int / size) is Some
}

/// The sequences of one channel.
#[derive(Debug)]
struct Lines {
    all: Vec<Sequence>,
    last: usize,
    next: usize,
}

spec fn is_sequence(s: Sequence) -> bool {
    is_long(s.time as int) && is_short(s.diff as int) && s.extremes <= 3
}

impl Lines {
    spec fn wf(self) -> bool {
        &&& self.all@.len() == 4
        &&& self.last < 4
        &&& self.next < 4
        &&& forall|i: int| 0 <= i < 4 ==> is_sequence(#[trigger] self.all@[i])
    }

    spec fn line(self) -> Line {
        Line { all: self.all@, last: self.last as int, next: self.next as int }
    }

    fn from(t: i128) -> (r: Self)
        requires
            is_long(t as int),
        ensures
            r.wf(),
            r.line() == line_from(t),
    {
        let none = Sequence { time: 0, diff: 0, extremes: 0 };
        let mut all: Vec<Sequence> = Vec::new();
        all.push(Sequence { time: t, diff: 0, extremes: 0 });
        all.push(none);
        all.push(none);
        all.push(none);
        let r = Lines { all, last: 0, next: 0 };
        assert(r.line().all =~= line_from(t).all);
        r
    }

    fn put(self, k: usize, t: i128) -> (r: Option<Self>)
        requires
            self.wf(),
            k < 4,
            is_long(t as int),
            is_near(self.all@[k as int], t),
        ensures
            match r {
                Some(l) => l.wf() && put_in(self.line(), k as int, t) == Some(l.line()),
                None => put_in(self.line(), k as int, t) is None,
            },
    {
        let Lines { all, last: _, next } = self;
        assert(is_sequence(all@[k as int]));
        match place(all[k], t) {
            Some(s) => {
                let mut all = all;
                let ghost before = all@;
                all.set(k, s);
                let l = Lines { all, last: k, next };
                assert forall|i: int| 0 <= i < 4 implies is_sequence(#[trigger] l.all@[i]) by {
                    if i != k {
                        assert(l.all@[i] == before[i]);
                    }
                }
                Some(l)
            },
            None => None,
        }
    }

    fn step(self, t: i128) -> (r: Option<Self>)
        requires
            self.wf(),
            is_long(t as int),
        ensures
            match r {
                Some(l) => l.wf() && stepped(self.line(), t) == Some(l.line()),
                None => stepped(self.line(), t) is None,
            },
    {
        assert(is_sequence(self.all@[self.last as int]));
        let s = self.all[self.last];
        let d: i128 = t - s.time;
        if s.diff != 0 && !(-0x8000_0000_0000_0000 <= d && d < 0x8000_0000_0000_0000) {
            return None;
        }
        let (a, b, c) = ((self.last + 1) % 4, (self.last + 2) % 4, (self.last + 3) % 4);
        if near(s, t) {
            let k: usize = self.last;
            return self.put(k, t);
        }
        assert(is_sequence(self.all@[a as int]));
        if near(self.all[a], t) {
            return self.put(a, t);
        }
        assert(is_sequence(self.all@[b as int]));
        if near(self.all[b], t) {
            return self.put(b, t);
        }
        assert(is_sequence(self.all@[c as int]));
        if near(self.all[c], t) {
            return self.put(c, t);
        }
        let n: usize = (self.next + 1) % 4;
        let Lines { mut all, last: _, next: _ } = self;
        let ghost before = all@;
        all.set(n, Sequence { time: t, diff: 0, extremes: 0 });
        let l = Lines { all, last: n, next: n };
        assert forall|i: int| 0 <= i < 4 implies is_sequence(#[trigger] l.all@[i]) by {
            if i != n {
                assert(l.all@[i] == before[i]);
            }
        }
        Some(l)
    }
}

fn signed(bits: u64) -> (p: i128)
    ensures
        p == pattern(bits),
        is_long(p as int),
{
    if bits < 0x8000_0000_0000_0000 {
        bits as i128
    } else {
        bits as i128 - 0x1_0000_0000_0000_0000
    }
}

fn wrap(d: i128) -> (w: i128)
    requires
        -0x1_0000_0000_0000_0000 <= d <= 0x1_0000_0000_0000_0000,
    ensures
        w == wrapped(d as int),
{
    if d >= 0x8000_0000_0000_0000 {
        d - 0x1_0000_0000_0000_0000
    } else if d < -0x8000_0000_0000_0000 {
        d + 0x1_0000_0000_0000_0000
    } else {
        d
    }
}

fn near(s: Sequence, t: i128) -> (r: bool)
    requires
        is_sequence(s),
        is_long(t as int),
    ensures
        r == is_near(s, t),
{
    let d: i128 = wrap(t - s.time);
    -0x8000_0000 <= d && d < 0x8000_0000
}

fn size_of(d: i128) -> (n: u128)
    requires
        is_short(d as int),
    ensures
        n == size24(d as int),
        n <= 0x8000_0000,
{
    let m: u128 = if d < 0 {
        (-d) as u128
    } else {
        d as u128
    };
    let unit: u128 = if m < 0x100_0000 {
        1
    } else if m < 0x200_0000 {
        2
    } else if m < 0x400_0000 {
        4
    } else if m < 0x800_0000 {
        8
    } else if m < 0x1000_0000 {
        16
    } else if m < 0x2000_0000 {
        32
    } else if m < 0x4000_0000 {
        64
    } else {
        128
    };
    let q: u128 = round_div(m, unit);
    proof {
        assert(q * unit <= 0x8000_0000) by {
            lemma_rounded(m as nat, unit as nat);
        }
    }
    q * unit
}

/// A number rounded to whole units is no larger than a whole number of units
/// above it.
proof fn lemma_rounded(m: nat, unit: nat)
    requires
        m <= 0x8000_0000,
        unit == 1 || unit == 2 || unit == 4 || unit == 8 || unit == 16 || unit == 32 || unit == 64
            || unit == 128,
    ensures
        rounded(m, unit) * unit <= 0x8000_0000,
{
    let q = m / unit;
    assert(q * unit <= m && (q + 1) * unit <= m + unit) by (nonlinear_arith)
        requires
            q == m / unit,
            unit >= 1,
    ;
    if rounded(m, unit) == q + 1 {
        assert(0x8000_0000nat % unit == 0);
        assert((q + 1) * unit <= 0x8000_0000) by (nonlinear_arith)
            requires
                q == m / unit,
                rounded(m, unit) == q + 1,
                m % unit > 0,
                m <= 0x8000_0000,
                0x8000_0000nat % unit == 0,
                unit >= 1,
        ;
    }
}

/// A sequence with one more time near its last, or nothing where the codec runs
/// out of room.
fn place(s: Sequence, t: i128) -> (r: Option<Sequence>)
    requires
        is_sequence(s),
        is_long(t as int),
        is_near(s, t),
    ensures
        r == placed(s, t),
        r matches Some(n) ==> is_sequence(n),
{
    let exact: i128 = t - s.time;
    let d: i128 = wrap(exact);
    if s.diff == 0 {
        return Some(Sequence { time: t, diff: d, extremes: 0 });
    }
    if !(-0x8000_0000_0000_0000 <= exact && exact < 0x8000_0000_0000_0000) {
        return None;
    }
    let (a, b) = (size_of(d), size_of(s.diff));
    let same = (d >= 0) == (s.diff >= 0);
    let one = a * 0x400_0000 > b * 0x1ff_fffd;
    let two = a * 0x100_0000 >= b * 0x17f_ffff;
    let ten = a * 0x20_0000 >= b * 0x12f_ffff;
    let many = a * 0x1_0000 >= b * 0x1f3_7fff;
    let product: i128 = 500 * s.diff;
    if same && many && !(-0x8000_0000 <= product && product < 0x8000_0000) {
        return None;
    }
    if same && one && !two {
        return Some(Sequence { time: t, diff: s.diff, extremes: 0 });
    }
    if one && !(same && many) && !(!same && ten) {
        return Some(Sequence { time: t, diff: s.diff, extremes: s.extremes });
    }
    if s.extremes >= 3 {
        return Some(Sequence { time: t, diff: d, extremes: 0 });
    }
    Some(Sequence { time: t, diff: s.diff, extremes: s.extremes + 1 })
}

/// What the codec knows of the times of a chunk.
#[derive(Debug)]
struct State {
    lines: Vec<Option<Lines>>,
    seen: Vec<u64>,
    current: usize,
}

spec fn line_of(l: Option<Lines>) -> Option<Line> {
    match l {
        Some(x) => Some(x.line()),
        None => None,
    }
}

impl State {
    spec fn wf(self) -> bool {
        &&& self.lines@.len() == 4
        &&& self.seen@.len() == 4
        &&& self.current < 4
        &&& forall|i: int|
            0 <= i < 4 ==> (#[trigger] self.lines@[i] matches Some(l) ==> l.wf())
    }

    spec fn chunk(self) -> Chunk {
        Chunk {
            lines: self.lines@.map_values(|l: Option<Lines>| line_of(l)),
            seen: self.seen@,
            current: self.current as int,
        }
    }

    fn begin(channel: usize, time: u64) -> (s: Self)
        requires
            channel < 4,
        ensures
            s.wf(),
            s.chunk() == begun(channel as int, time),
    {
        let mut lines: Vec<Option<Lines>> = Vec::new();
        let mut seen: Vec<u64> = Vec::new();
        while lines.len() < 4
            invariant
                lines@.len() <= 4,
                seen@.len() == lines@.len(),
                forall|i: int| 0 <= i < lines@.len() ==> #[trigger] lines@[i] is None,
                forall|i: int| 0 <= i < seen@.len() ==> #[trigger] seen@[i] == 0,
            decreases 4 - lines@.len(),
        {
            lines.push(None);
            seen.push(0);
        }
        lines.set(channel, Some(Lines::from(signed(time))));
        seen.set(channel, time);
        let s = State { lines, seen, current: channel };
        proof {
            let want = begun(channel as int, time);
            assert forall|i: int| 0 <= i < 4 implies #[trigger] s.chunk().lines[i]
                == want.lines[i] by {}
            assert(s.chunk().lines =~= want.lines);
            assert(s.chunk().seen =~= want.seen);
        }
        s
    }

    fn take(self, channel: usize, time: u64) -> (r: Option<Self>)
        requires
            self.wf(),
            channel < 4,
        ensures
            match r {
                Some(s) => s.wf() && taken(self.chunk(), channel as int, time) == Some(s.chunk()),
                None => taken(self.chunk(), channel as int, time) is None,
            },
    {
        let ghost c = self.chunk();
        let State { mut lines, mut seen, current } = self;
        let ghost held = lines@;
        assert(c.lines[channel as int] == line_of(lines@[channel as int]));
        let mut own: Option<Lines> = None;
        std::mem::swap(&mut own, &mut lines[channel]);
        let (line, before) = match own {
            Some(l) => (l, seen[channel]),
            None => {
                let before: u64 = seen[current];
                (Lines::from(signed(before)), before)
            },
        };
        let (x, y) = (Real { bits: before }, Real { bits: time });
        let next = if x.is_at_most(y) && y.is_at_most(x) {
            Some(line)
        } else {
            line.step(signed(time))
        };
        match next {
            Some(l) => {
                lines.set(channel, Some(l));
                seen.set(channel, time);
                let s = State { lines, seen, current: channel };
                proof {
                    assert forall|i: int| 0 <= i < 4 implies (#[trigger] s.lines@[i] matches Some(
                        l,
                    ) ==> l.wf()) by {
                        if i != channel {
                            assert(s.lines@[i] == held[i]);
                        }
                    }
                    assert forall|i: int| 0 <= i < 4 implies #[trigger] s.chunk().lines[i]
                        == c.lines.update(channel as int, Some(l.line()))[i] by {
                        if i != channel {
                            assert(s.lines@[i] == held[i]);
                        }
                    }
                    assert(s.chunk().lines =~= c.lines.update(channel as int, Some(l.line())));
                }
                Some(s)
            },
            None => None,
        }
    }
}

/// Once the codec has run out of room it stays so.
proof fn lemma_stays_out(records: Seq<u8>, size: int, chunk: int, n: int, m: int)
    requires
        0 <= n <= m,
        known_after(records, size, chunk, n) is None,
    ensures
        known_after(records, size, chunk, m) is None,
    decreases m,
{
    if n < m {
        lemma_stays_out(records, size, chunk, n, m - 1);
    }
}

/// Whether the codec has room for the GPS times of some records, compressed in
/// chunks of some size.
pub fn can_code_times(records: &[u8], size: usize, chunk: u64) -> (r: bool)
    requires
        30 <= size,
        0 < chunk,
    ensures
        r == times_fit(records@, size as int, chunk as int),
{
    let len: usize = records.len();
    let count: usize = len / size;
    let ghost step = size as int;
    proof {
        reveal(times_fit);
        vstd::arithmetic::div_mod::lemma_fundamental_div_mod(len as int, step);
        assert(count * size == size * count) by (nonlinear_arith);
    }
    let mut state = State::begin(0, 0);
    let mut i: usize = 0;
    while i < count
        invariant
            i <= count,
            len == records@.len(),
            len == records.len(),
            step == size,
            30 <= size,
            0 < chunk,
            count == len as int / step,
            count * size <= len,
            state.wf(),
            known_after(records@, step, chunk as int, i as int) == Some(state.chunk()),
            times_fit(records@, step, chunk as int) == (known_after(
                records@,
                step,
                chunk as int,
                count as int,
            ) is Some),
        decreases count - i,
    {
        assert(i * size + size <= count * size && 0 <= i * size) by (nonlinear_arith)
            requires
                i < count,
                0 <= size,
        ;
        let at: usize = i * size;
        let channel: usize = (records[at + 15] / 16 % 4) as usize;
        let time: u64 = u64_at(records, at + 22);
        proof {
            assert(channel == channel_of(records@, step, i as int));
            assert(time == time_of(records@, step, i as int));
            assert(known_after(records@, step, chunk as int, i + 1) == if i as int % chunk as int
                == 0 {
                Some(begun(channel as int, time))
            } else {
                taken(state.chunk(), channel as int, time)
            });
        }
        if i as u64 % chunk == 0 {
            state = State::begin(channel, time);
        } else {
            state = match state.take(channel, time) {
                Some(s) => s,
                None => {
                    proof {
                        lemma_stays_out(
                            records@,
                            step,
                            chunk as int,
                            i + 1,
                            count as int,
                        );
                    }
                    return false;
                },
            };
        }
        i = i + 1;
    }
    true
}

} // verus!
