//! The octree every format here subdivides, and the two ways it is addressed.
//!
//! Potree spells a node as a string of child indices (`"r047"`), COPC and EPT
//! as a `(level, x, y, z)` key. The two are the same information in two
//! alphabets.

use crate::double::Real;
use crate::text::{cat7, chars_of, decimal, decimal_of};
use vstd::prelude::*;

verus! {

/// A node's address as a level and a grid position.
#[derive(Debug, Clone, Copy, PartialEq, Eq, Hash, PartialOrd, Ord, Structural)]
pub struct OctreeKey {
    pub level: u32,
    pub x: u32,
    pub y: u32,
    pub z: u32,
}

/// The bit of a child index that belongs to an axis: 2 for x, 1 for y, 0 for z.
pub open spec fn axis_bit(index: u8, bit: int) -> int {
    if bit == 2 {
        index as int / 4 % 2
    } else if bit == 1 {
        index as int / 2 % 2
    } else {
        index as int % 2
    }
}

/// Whether a point stands in the upper half of an axis: at the centre or past
/// it.
pub open spec fn upper_half(center: Seq<Real>, p: Seq<Real>, axis: int) -> bool {
    center[axis].at_most(p[axis])
}

/// The child of a cube that a point falls in: bit 0 is Z, bit 1 is Y, bit 2 is X.
pub open spec fn child_holding(center: Seq<Real>, p: Seq<Real>) -> int {
    (if upper_half(center, p, 0) {
        4int
    } else {
        0
    }) + (if upper_half(center, p, 1) {
        2int
    } else {
        0
    }) + (if upper_half(center, p, 2) {
        1int
    } else {
        0
    })
}

/// Which child of a cube a point falls in, given the cube's centre.
pub fn child_index(center: [Real; 3], p: [Real; 3]) -> (index: u8)
    ensures
        index == child_holding(center@, p@),
        index < 8,
{
    let x: u8 = if center[0].is_at_most(p[0]) {
        4
    } else {
        0
    };
    let y: u8 = if center[1].is_at_most(p[1]) {
        2
    } else {
        0
    };
    let z: u8 = if center[2].is_at_most(p[2]) {
        1
    } else {
        0
    };
    x + y + z
}

/// The child that a point falls in is on its side of the centre on every axis.
pub proof fn children_are_halves(center: Seq<Real>, p: Seq<Real>)
    ensures
        axis_bit(child_holding(center, p) as u8, 2) == if upper_half(center, p, 0) {
            1int
        } else {
            0
        },
        axis_bit(child_holding(center, p) as u8, 1) == if upper_half(center, p, 1) {
            1int
        } else {
            0
        },
        axis_bit(child_holding(center, p) as u8, 0) == if upper_half(center, p, 2) {
            1int
        } else {
            0
        },
{
}

impl OctreeKey {
    /// The root of every tree.
    #[verifier::allow_in_spec]
    pub fn root() -> Self
        returns
            (OctreeKey { level: 0, x: 0, y: 0, z: 0 }),
    {
        OctreeKey { level: 0, x: 0, y: 0, z: 0 }
    }

    pub fn new(level: u32, x: u32, y: u32, z: u32) -> (k: Self)
        ensures
            k == (OctreeKey { level, x, y, z }),
    {
        OctreeKey { level, x, y, z }
    }

    /// The child at `index`: one level down, each axis doubled with the
    /// index's bit for it added. Numbers wrap at 32 bits.
    pub open spec fn spec_child(self, index: u8) -> Self {
        OctreeKey {
            level: ((self.level + 1) % 0x1_0000_0000) as u32,
            x: ((self.x * 2 + axis_bit(index, 2)) % 0x1_0000_0000) as u32,
            y: ((self.y * 2 + axis_bit(index, 1)) % 0x1_0000_0000) as u32,
            z: ((self.z * 2 + axis_bit(index, 0)) % 0x1_0000_0000) as u32,
        }
    }

    /// The child at `index`: bit 0 is Z, bit 1 is Y, bit 2 is X.
    pub fn child(self, index: u8) -> (k: Self)
        ensures
            k == self.spec_child(index),
    {
        let bx: u64 = (index / 4 % 2) as u64;
        let by: u64 = (index / 2 % 2) as u64;
        let bz: u64 = (index % 2) as u64;
        OctreeKey {
            level: ((self.level as u64 + 1) % 0x1_0000_0000) as u32,
            x: ((self.x as u64 * 2 + bx) % 0x1_0000_0000) as u32,
            y: ((self.y as u64 * 2 + by) % 0x1_0000_0000) as u32,
            z: ((self.z as u64 * 2 + bz) % 0x1_0000_0000) as u32,
        }
    }

    /// Which child of its parent this is, or `None` at the root.
    pub open spec fn spec_child_index(self) -> Option<u8> {
        if self.level == 0 {
            None
        } else {
            Some((self.x % 2 * 4 + self.y % 2 * 2 + self.z % 2) as u8)
        }
    }

    /// Which child of its parent this is, or `None` at the root.
    pub fn child_index(self) -> (r: Option<u8>)
        ensures
            r == self.spec_child_index(),
    {
        if self.level == 0 {
            return None;
        }
        Some((self.x % 2 * 4 + self.y % 2 * 2 + self.z % 2) as u8)
    }

    /// The node above, or `None` at the root.
    pub open spec fn spec_parent(self) -> Option<Self> {
        if self.level == 0 {
            None
        } else {
            Some(
                OctreeKey {
                    level: (self.level - 1) as u32,
                    x: self.x / 2,
                    y: self.y / 2,
                    z: self.z / 2,
                },
            )
        }
    }

    /// The node above, or `None` at the root.
    pub fn parent(self) -> (r: Option<Self>)
        ensures
            r == self.spec_parent(),
    {
        if self.level == 0 {
            return None;
        }
        Some(
            OctreeKey {
                level: self.level - 1,
                x: self.x / 2,
                y: self.y / 2,
                z: self.z / 2,
            },
        )
    }

    /// The EPT spelling: `level-x-y-z`.
    pub open spec fn spec_ept_name(self) -> Seq<char> {
        decimal(self.level as nat) + "-"@ + decimal(self.x as nat) + "-"@ + decimal(self.y as nat)
            + "-"@ + decimal(self.z as nat)
    }

    /// The EPT spelling: `level-x-y-z`, which is also its filename stem.
    pub fn ept_name(self) -> (out: String)
        ensures
            out@ == self.spec_ept_name(),
    {
        let level = decimal_of(self.level as u64);
        let x = decimal_of(self.x as u64);
        let y = decimal_of(self.y as u64);
        let z = decimal_of(self.z as u64);
        cat7(level.as_str(), "-", x.as_str(), "-", y.as_str(), "-", z.as_str())
    }

    /// The digit for the step down to `depth + 1`: the bit of each axis that
    /// was appended there. Places are counted modulo 32.
    pub open spec fn digit(self, depth: int) -> int {
        let shift = (self.level - 1 - depth) % 32;
        bit_of(self.x, shift) * 4 + bit_of(self.y, shift) * 2 + bit_of(self.z, shift)
    }

    /// The Potree spelling: `"r"`, then one digit per level from the top down.
    pub open spec fn spec_potree_name(self) -> Seq<char> {
        seq!['r'] + Seq::new(self.level as nat, |d: int| (48 + self.digit(d)) as char)
    }

    /// The Potree spelling: `"r"`, then one digit per level from the top down.
    pub fn potree_name(self) -> (name: String)
        ensures
            name@ == self.spec_potree_name(),
    {
        let mut name = String::new();
        name.push('r');
        let mut depth: u32 = 0;
        assert(name@ =~= seq!['r'] + Seq::new(0, |d: int| (48 + self.digit(d)) as char));
        while depth < self.level
            invariant
                depth <= self.level,
                name@ == seq!['r'] + Seq::new(
                    depth as nat,
                    |d: int| (48 + self.digit(d)) as char,
                ),
            decreases self.level - depth,
        {
            let shift: u32 = (self.level - 1 - depth) % 32;
            let index: u8 = low_bit(self.x, shift) * 4 + low_bit(self.y, shift) * 2 + low_bit(
                self.z,
                shift,
            );
            assert(index == self.digit(depth as int));
            name.push((48 + index) as char);
            assert(name@ =~= seq!['r'] + Seq::new(
                (depth + 1) as nat,
                |d: int| (48 + self.digit(d)) as char,
            ));
            depth = depth + 1;
        }
        name
    }

    /// The node reached from `from` by taking one child per digit.
    pub open spec fn walk(from: Self, path: Seq<char>) -> Option<Self>
        decreases path.len(),
    {
        if path.len() == 0 {
            Some(from)
        } else {
            match OctreeKey::walk(from, path.drop_last()) {
                None => None,
                Some(k) => if '0' <= path.last() && path.last() <= '7' {
                    Some(k.spec_child((path.last() as int - 48) as u8))
                } else {
                    None
                },
            }
        }
    }

    /// The node that a Potree name spells.
    pub open spec fn spec_from_potree_name(name: Seq<char>) -> Option<Self> {
        if name.len() == 0 || name[0] != 'r' {
            None
        } else {
            OctreeKey::walk(OctreeKey::root(), name.skip(1))
        }
    }

    /// The node that a Potree name spells, if it is one.
    pub fn from_potree_name(name: &str) -> (r: Option<Self>)
        ensures
            r == OctreeKey::spec_from_potree_name(name@),
    {
        let cs = chars_of(name);
        if cs.len() == 0 || cs[0] != 'r' {
            return None;
        }
        let mut key = OctreeKey::root();
        let mut i: usize = 1;
        let ghost path = name@.skip(1);
        assert(path.take(0) =~= Seq::<char>::empty());
        while i < cs.len()
            invariant
                1 <= i <= cs.len(),
                cs@ == name@,
                path == name@.skip(1),
                OctreeKey::walk(OctreeKey::root(), path.take(i - 1)) == Some(key),
            decreases cs.len() - i,
        {
            let c = cs[i];
            proof {
                assert(path.take(i as int).drop_last() =~= path.take(i - 1));
                assert(path.take(i as int).last() == c);
            }
            if c < '0' || '7' < c {
                proof {
                    lemma_walk_stops(OctreeKey::root(), path, i as int);
                }
                return None;
            }
            key = key.child(c as u8 - 48);
            i = i + 1;
        }
        assert(path.take(i - 1) =~= path);
        Some(key)
    }
}

/// Bit `at` of a number.
pub open spec fn bit_of(n: u32, at: int) -> int {
    n as int / vstd::arithmetic::power2::pow2(at as nat) as int % 2
}

fn low_bit(n: u32, at: u32) -> (r: u8)
    requires
        at < 32,
    ensures
        r == bit_of(n, at as int),
        r <= 1,
{
    proof {
        vstd::bits::lemma_u32_shr_is_div(n, at);
    }
    ((n >> at) % 2) as u8
}

proof fn lemma_walk_stops(from: OctreeKey, path: Seq<char>, n: int)
    requires
        0 <= n <= path.len(),
        OctreeKey::walk(from, path.take(n)) is None,
    ensures
        OctreeKey::walk(from, path) is None,
    decreases path.len() - n,
{
    if n < path.len() {
        assert(path.take(n + 1).drop_last() =~= path.take(n));
        lemma_walk_stops(from, path, n + 1);
    } else {
        assert(path.take(n) =~= path);
    }
}

/// Whether a key is an address: its coordinates fit the grid of its level.
pub open spec fn on_grid(k: OctreeKey) -> bool {
    let side = vstd::arithmetic::power2::pow2(k.level as nat);
    k.level <= 32 && k.x < side && k.y < side && k.z < side
}

proof fn lemma_doubled(a: int, bit: int)
    requires
        0 <= a < 0x8000_0000,
        0 <= bit < 2,
    ensures
        (a * 2 + bit) % 0x1_0000_0000 == a * 2 + bit,
        (a * 2 + bit) / 2 == a,
        (a * 2 + bit) % 2 == bit,
{
}

/// The parent of a child is the node itself, and the child knows its index.
pub proof fn child_then_parent(k: OctreeKey, index: u8)
    requires
        index < 8,
        k.level < u32::MAX,
        k.x < 0x8000_0000,
        k.y < 0x8000_0000,
        k.z < 0x8000_0000,
    ensures
        k.spec_child(index).spec_parent() == Some(k),
        k.spec_child(index).spec_child_index() == Some(index),
{
    let (a, b, c) = (axis_bit(index, 2), axis_bit(index, 1), axis_bit(index, 0));
    lemma_doubled(k.x as int, a);
    lemma_doubled(k.y as int, b);
    lemma_doubled(k.z as int, c);
    let child = k.spec_child(index);
    assert(child.x == k.x * 2 + a && child.y == k.y * 2 + b && child.z == k.z * 2 + c);
    assert(child.level == k.level + 1);
    assert(a * 4 + b * 2 + c == index);
}

/// Every node but the root is the child of its parent that it says it is.
pub proof fn parent_then_child(k: OctreeKey)
    requires
        k.level > 0,
    ensures
        k.spec_parent()->0.spec_child(k.spec_child_index()->0) == k,
        k.spec_child_index()->0 < 8,
{
    let p = k.spec_parent()->0;
    let index = k.spec_child_index()->0;
    let (a, b, c) = (k.x as int % 2, k.y as int % 2, k.z as int % 2);
    assert(axis_bit(index, 2) == a && axis_bit(index, 1) == b && axis_bit(index, 0) == c);
    lemma_doubled(p.x as int, a);
    lemma_doubled(p.y as int, b);
    lemma_doubled(p.z as int, c);
}

proof fn lemma_digit_of_parent(k: OctreeKey, p: OctreeKey, d: int)
    requires
        1 <= k.level <= 32,
        k.spec_parent() == Some(p),
        0 <= d < p.level,
    ensures
        k.digit(d) == p.digit(d),
{
    let s = k.level - 1 - d;
    assert(s >= 1);
    vstd::arithmetic::power2::lemma_pow2_unfold(s as nat);
    let q = vstd::arithmetic::power2::pow2((s - 1) as nat) as int;
    vstd::arithmetic::power2::lemma_pow2_pos((s - 1) as nat);
    vstd::arithmetic::div_mod::lemma_div_denominator(k.x as int, 2, q);
    vstd::arithmetic::div_mod::lemma_div_denominator(k.y as int, 2, q);
    vstd::arithmetic::div_mod::lemma_div_denominator(k.z as int, 2, q);
    assert(s % 32 == s && (s - 1) % 32 == s - 1);
}

proof fn lemma_parent_on_grid(k: OctreeKey)
    requires
        on_grid(k),
        k.level > 0,
    ensures
        on_grid(k.spec_parent()->0),
{
    vstd::arithmetic::power2::lemma_pow2_unfold(k.level as nat);
}

/// The two alphabets name the same node: reading a name gives the key back.
pub proof fn potree_name_reads_back(k: OctreeKey)
    requires
        on_grid(k),
    ensures
        OctreeKey::spec_from_potree_name(k.spec_potree_name()) == Some(k),
    decreases k.level,
{
    let name = k.spec_potree_name();
    let path = name.skip(1);
    assert(path =~= Seq::new(k.level as nat, |d: int| (48 + k.digit(d)) as char));
    if k.level == 0 {
        assert(vstd::arithmetic::power2::pow2(0) == 1) by {
            vstd::arithmetic::power2::lemma2_to64();
        }
        assert(path =~= Seq::<char>::empty());
    } else {
        let p = k.spec_parent()->0;
        lemma_parent_on_grid(k);
        potree_name_reads_back(p);
        let up = p.spec_potree_name().skip(1);
        assert(up =~= Seq::new(p.level as nat, |d: int| (48 + p.digit(d)) as char));
        assert forall|d: int| 0 <= d < p.level implies path[d] == up[d] by {
            lemma_digit_of_parent(k, p, d);
        }
        assert(path.drop_last() =~= up);
        lemma_last_digit(k);
        lemma_walk_step(p, path, k.spec_child_index()->0);
        parent_then_child(k);
    }
}

proof fn lemma_last_digit(k: OctreeKey)
    requires
        k.level > 0,
    ensures
        k.digit(k.level - 1) == k.spec_child_index()->0,
{
    assert(vstd::arithmetic::power2::pow2(0) == 1) by {
        vstd::arithmetic::power2::lemma2_to64();
    }
    assert((k.level - 1 - (k.level - 1)) % 32 == 0);
    vstd::arithmetic::div_mod::lemma_div_basics(k.x as int);
    vstd::arithmetic::div_mod::lemma_div_basics(k.y as int);
    vstd::arithmetic::div_mod::lemma_div_basics(k.z as int);
    assert(bit_of(k.x, 0) == k.x as int % 2);
    assert(bit_of(k.y, 0) == k.y as int % 2);
    assert(bit_of(k.z, 0) == k.z as int % 2);
}

proof fn lemma_walk_step(p: OctreeKey, path: Seq<char>, index: u8)
    requires
        path.len() > 0,
        OctreeKey::walk(OctreeKey::root(), path.drop_last()) == Some(p),
        index < 8,
        path.last() == (48 + index) as char,
    ensures
        OctreeKey::walk(OctreeKey::root(), path) == Some(p.spec_child(index)),
{
    assert(path.last() as int == 48 + index);
}

/// The ten low bits of a number, spread to every third place.
pub open spec fn spread(value: u32) -> u32 {
    let a = value & 0x3ff;
    let b = (a | (a << 16)) & 0x30000ff;
    let c = (b | (b << 8)) & 0x300f00f;
    let d = (c | (c << 4)) & 0x30c30c3;
    (d | (d << 2)) & 0x9249249
}

/// Every third bit of a number, gathered into its ten low places.
pub open spec fn compact(value: u32) -> u32 {
    let a = value & 0x9249249;
    let b = (a | (a >> 2)) & 0x30c30c3;
    let c = (b | (b >> 4)) & 0x300f00f;
    let d = (c | (c >> 8)) & 0x30000ff;
    (d | (d >> 16)) & 0x3ff
}

/// The spread bits land where they should: bit `i` at place `3 * i`.
pub proof fn spread_places(value: u32, i: u32)
    requires
        i < 10,
    ensures
        (spread(value) >> (3 * i) as u32) & 1 == (value >> i) & 1,
{
    assert(i < 10 ==> (({
        let a = value & 0x3ff;
        let b = (a | (a << 16)) & 0x30000ff;
        let c = (b | (b << 8)) & 0x300f00f;
        let d = (c | (c << 4)) & 0x30c30c3;
        (d | (d << 2)) & 0x9249249
    }) >> ((3 * i) as u32)) & 1 == (value >> i) & 1) by (bit_vector);
}

fn spread_bits3(value: u32) -> (r: u32)
    ensures
        r == spread(value),
{
    let a: u32 = value & 0x3ff;
    let b: u32 = (a | (a << 16)) & 0x30000ff;
    let c: u32 = (b | (b << 8)) & 0x300f00f;
    let d: u32 = (c | (c << 4)) & 0x30c30c3;
    (d | (d << 2)) & 0x9249249
}

fn compact_bits3(value: u32) -> (r: u32)
    ensures
        r == compact(value),
{
    let a: u32 = value & 0x9249249;
    let b: u32 = (a | (a >> 2)) & 0x30c30c3;
    let c: u32 = (b | (b >> 4)) & 0x300f00f;
    let d: u32 = (c | (c >> 8)) & 0x30000ff;
    (d | (d >> 16)) & 0x3ff
}

/// Three numbers of ten bits each, interleaved.
pub open spec fn interleaved(x: u32, y: u32, z: u32) -> u32 {
    spread(x) | (spread(y) << 1) | (spread(z) << 2)
}

/// Interleave three 10-bit integers into a 30-bit Morton code.
pub fn morton_encode3(x: u32, y: u32, z: u32) -> (code: u32)
    ensures
        code == interleaved(x, y, z),
{
    spread_bits3(x) | (spread_bits3(y) << 1) | (spread_bits3(z) << 2)
}

/// The three numbers whose bits a Morton code interleaves.
pub fn morton_decode3(code: u32) -> (r: [u32; 3])
    ensures
        r@ == seq![compact(code), compact(code >> 1), compact(code >> 2)],
{
    let r: [u32; 3] = [
        compact_bits3(code),
        compact_bits3(code >> 1),
        compact_bits3(code >> 2),
    ];
    assert(r@ =~= seq![compact(code), compact(code >> 1), compact(code >> 2)]);
    r
}

/// Decoding a Morton code gives back the ten low bits of what was encoded.
pub proof fn morton_reads_back(x: u32, y: u32, z: u32)
    requires
        x < 1024,
        y < 1024,
        z < 1024,
    ensures
        compact(interleaved(x, y, z)) == x,
        compact(interleaved(x, y, z) >> 1) == y,
        compact(interleaved(x, y, z) >> 2) == z,
{
    let a = spread(x);
    let b = spread(y);
    let c = spread(z);
    lemma_spread_then_compact(x);
    lemma_spread_then_compact(y);
    lemma_spread_then_compact(z);
    assert(a & 0x9249249 == a && b & 0x9249249 == b && c & 0x9249249 == c ==> ((a | (b << 1) | (c
        << 2)) & 0x9249249 == a) && (((a | (b << 1) | (c << 2)) >> 1) & 0x9249249 == b) && (((a | (b
        << 1) | (c << 2)) >> 2) & 0x9249249 == c)) by (bit_vector);
}

proof fn lemma_spread_then_compact(v: u32)
    requires
        v < 1024,
    ensures
        compact(spread(v)) == v,
        spread(v) & 0x9249249 == spread(v),
        forall|w: u32| w & 0x9249249 == spread(v) ==> #[trigger] compact(w) == v,
{
    let s = spread(v);
    assert(s & 0x9249249 == s) by {
        let a = v & 0x3ff;
        let b = (a | (a << 16)) & 0x30000ff;
        let c = (b | (b << 8)) & 0x300f00f;
        let d = (c | (c << 4)) & 0x30c30c3;
        let e = d | (d << 2);
        assert((e & 0x9249249u32) & 0x9249249u32 == (e & 0x9249249u32)) by (bit_vector);
    }
    assert(v < 1024 ==> ({
        let a = v & 0x3ff;
        let b = (a | (a << 16)) & 0x30000ff;
        let c = (b | (b << 8)) & 0x300f00f;
        let d = (c | (c << 4)) & 0x30c30c3;
        let s = (d | (d << 2)) & 0x9249249;
        let e = s & 0x9249249;
        let f = (e | (e >> 2)) & 0x30c30c3;
        let g = (f | (f >> 4)) & 0x300f00f;
        let h = (g | (g >> 8)) & 0x30000ff;
        (h | (h >> 16)) & 0x3ff
    }) == v) by (bit_vector);
}

} // verus!
