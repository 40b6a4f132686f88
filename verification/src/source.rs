//! Where bytes come from.
//!
//! Nothing in this library opens a file or a socket. A reader says which ranges
//! of which relative path it wants; what may be asked for, and what a short
//! answer means, is decided here.

use crate::bytes::slice_of;
use crate::error::{Error, Failure};
use crate::text::{
    add_text, cat3, cat4, chars_of, decimal, decimal_of, find_from, first_of, same, string_of, texts,
};
use vstd::prelude::*;
use vstd::string::*;

verus! {

/// The parts of a path between its slashes.
pub open spec fn parts_of(s: Seq<char>) -> Seq<Seq<char>>
    decreases s.len(),
{
    let at = first_of(s, '/');
    if 0 <= at < s.len() {
        seq![s.take(at)] + parts_of(s.skip(at + 1))
    } else {
        seq![s]
    }
}

/// The parts that name something: not the empty ones, and not `.`.
pub open spec fn naming(parts: Seq<Seq<char>>) -> Seq<Seq<char>>
    decreases parts.len(),
{
    if parts.len() == 0 {
        Seq::empty()
    } else {
        let front = naming(parts.drop_last());
        if parts.last() == ""@ || parts.last() == "."@ {
            front
        } else {
            front.push(parts.last())
        }
    }
}

/// Whether a path would leave the place it is resolved against.
pub open spec fn leaves(parts: Seq<Seq<char>>) -> bool {
    exists|i: int| 0 <= i < parts.len() && #[trigger] parts[i] == ".."@
}

fn split(relative: &str) -> (out: Vec<String>)
    ensures
        texts(out@) == parts_of(relative@),
{
    let s = chars_of(relative);
    let mut out: Vec<String> = Vec::new();
    let mut from: usize = 0;
    proof {
        assert(texts(out@) =~= Seq::<Seq<char>>::empty());
        assert(s@.skip(0) =~= s@);
        assert(Seq::<Seq<char>>::empty() + parts_of(s@) =~= parts_of(s@));
    }
    loop
        invariant_except_break
            from <= s@.len(),
            s@ == relative@,
            texts(out@) + parts_of(s@.skip(from as int)) == parts_of(s@),
        ensures
            texts(out@) == parts_of(s@),
        decreases s@.len() - from,
    {
        let at: usize = find_from(&s, '/', from);
        let ghost rest = s@.skip(from as int);
        let ghost whole = parts_of(s@);
        proof {
            crate::text::first_of_is_first(rest, '/');
        }
        if at >= s.len() {
            assert(parts_of(rest) =~= seq![rest]);
            add_text(&mut out, string_of(s.as_slice(), from, s.len()));
            assert(s@.subrange(from as int, s@.len() as int) =~= rest);
            break;
        }
        let ghost before = texts(out@);
        add_text(&mut out, string_of(s.as_slice(), from, at));
        proof {
            assert(s@.subrange(from as int, at as int) =~= rest.take(at - from));
            assert(rest.skip(at - from + 1) =~= s@.skip(at + 1));
            assert(before + (seq![rest.take(at - from)] + parts_of(s@.skip(at + 1)))
                =~= before.push(rest.take(at - from)) + parts_of(s@.skip(at + 1)));
        }
        from = at + 1;
    }
    out
}

/// Resolves a relative path to the names it goes through, refusing to leave the
/// root. The manifests that name paths are read from files that others wrote.
pub fn resolve(root: &str, relative: &str) -> (r: Result<Vec<String>, Error>)
    ensures
        match r {
            Ok(names) => !leaves(parts_of(relative@)) && texts(names@) == naming(
                parts_of(relative@),
            ),
            Err(e) => leaves(parts_of(relative@)) && e@ == Failure::Source(
                relative@ + ": refusing to resolve a path that leaves "@ + root@,
            ),
        },
{
    let parts = split(relative);
    let ghost all = parts_of(relative@);
    let mut out: Vec<String> = Vec::new();
    let mut i: usize = 0;
    assert(texts(out@) =~= naming(all.take(0)));
    while i < parts.len()
        invariant
            i <= parts.len(),
            all == parts_of(relative@),
            texts(parts@) == all,
            texts(out@) == naming(all.take(i as int)),
            forall|k: int| 0 <= k < i ==> #[trigger] all[k] != ".."@,
        decreases parts.len() - i,
    {
        assert(all.take(i + 1).drop_last() =~= all.take(i as int));
        assert(texts(parts@)[i as int] == parts@[i as int]@);
        let part = parts[i].as_str();
        if same(part, "") || same(part, ".") {
            proof {
                reveal_strlit("");
                reveal_strlit(".");
                reveal_strlit("..");
            }
        } else if same(part, "..") {
            assert(all[i as int] == ".."@);
            return Err(
                Error::Source(
                    cat3(relative, ": refusing to resolve a path that leaves ", root),
                ),
            );
        } else {
            add_text(&mut out, part.to_owned());
        }
        i = i + 1;
    }
    assert(all.take(i as int) =~= all);
    Ok(out)
}

proof fn lemma_naming(parts: Seq<Seq<char>>, i: int)
    requires
        0 <= i < naming(parts).len(),
    ensures
        exists|k: int| 0 <= k < parts.len() && #[trigger] parts[k] == naming(parts)[i],
        naming(parts)[i] != ""@,
        naming(parts)[i] != "."@,
    decreases parts.len(),
{
    if parts.len() > 0 {
        let front = naming(parts.drop_last());
        if i < front.len() {
            lemma_naming(parts.drop_last(), i);
            let k = choose|k: int|
                0 <= k < parts.drop_last().len() && #[trigger] parts.drop_last()[k] == front[i];
            assert(parts[k] == naming(parts)[i]);
        } else {
            assert(parts[parts.len() - 1] == naming(parts)[i]);
        }
    }
}

/// What a path resolves to never goes up: no name on the way is empty, the place
/// itself, or the place above it.
pub proof fn resolving_stays_below(relative: Seq<char>, i: int)
    requires
        !leaves(parts_of(relative)),
        0 <= i < naming(parts_of(relative)).len(),
    ensures
        naming(parts_of(relative))[i] != ".."@,
        naming(parts_of(relative))[i] != "."@,
        naming(parts_of(relative))[i] != ""@,
{
    let parts = parts_of(relative);
    lemma_naming(parts, i);
    let k = choose|k: int| 0 <= k < parts.len() && #[trigger] parts[k] == naming(parts)[i];
    assert(parts[k] != ".."@);
}

/// Whether a range stands inside a source of some size. A short read is an error
/// and not a shorter answer: every length that is asked for was derived from a
/// structure that claimed it.
pub fn check_range(offset: u64, len: u64, size: u64, what: &str) -> (r: Result<(), Error>)
    ensures
        match r {
            Ok(_) => offset + len <= size || (offset + len > u64::MAX && size == u64::MAX),
            Err(e) => offset + len > size && e@ == (Failure::Truncated {
                need: crate::cloud::wrap64(offset + len),
                got: size,
                what: what@,
            }),
        },
{
    if offset.saturating_add(len) > size {
        Err(
            Error::Truncated {
                need: offset.wrapping_add(len),
                got: size,
                what: what.to_owned(),
            },
        )
    } else {
        Ok(())
    }
}

/// How much of a source a prefix of some length takes: a probe may ask for more
/// than a small file holds.
pub fn prefix_len(len: usize, size: u64) -> (n: usize)
    ensures
        n == if len <= size {
            len as int
        } else {
            size as int
        },
{
    if len as u64 <= size {
        len
    } else {
        size as usize
    }
}

/// The length of a whole source, where it can be read at once.
pub fn whole_len(size: u64, label: &str) -> (r: Result<usize, Error>)
    ensures
        match r {
            Ok(n) => n == size,
            Err(e) => size > usize::MAX && e@ == Failure::Unsupported(
                label@ + " is "@ + decimal(size as nat) + " bytes, too large to read at once"@,
            ),
        },
{
    if size <= usize::MAX as u64 {
        Ok(size as usize)
    } else {
        let n = decimal_of(size);
        Err(
            Error::Unsupported(
                cat4(label, " is ", n.as_str(), " bytes, too large to read at once"),
            ),
        )
    }
}

/// Bytes already in memory.
#[derive(Debug)]
pub struct MemorySource {
    pub bytes: Vec<u8>,
    pub label: String,
}

impl MemorySource {
    pub fn new(bytes: Vec<u8>, label: String) -> (s: Self)
        ensures
            s.bytes@ == bytes@,
            s.label@ == label@,
    {
        MemorySource { bytes, label }
    }

    pub fn size(&self) -> (n: u64)
        ensures
            n == self.bytes@.len(),
    {
        self.bytes.len() as u64
    }

    /// Exactly `len` bytes starting at `offset`.
    pub fn read_at(&self, offset: u64, len: usize) -> (r: Result<Vec<u8>, Error>)
        ensures
            match r {
                Ok(b) => offset + len <= self.bytes@.len() && b@ == self.bytes@.subrange(
                    offset as int,
                    offset + len,
                ),
                Err(e) => offset + len > self.bytes@.len() && e@ == (Failure::Truncated {
                    need: if offset + len <= usize::MAX {
                        (offset + len) as u64
                    } else {
                        usize::MAX as u64
                    },
                    got: self.bytes@.len() as u64,
                    what: self.label@,
                }),
            },
    {
        let start: usize = if offset <= usize::MAX as u64 {
            offset as usize
        } else {
            usize::MAX
        };
        let end: usize = start.saturating_add(len);
        if end > self.bytes.len() || offset > usize::MAX as u64 || len > usize::MAX - start {
            return Err(
                Error::Truncated {
                    need: end as u64,
                    got: self.bytes.len() as u64,
                    what: self.label.clone(),
                },
            );
        }
        Ok(slice_of(self.bytes.as_slice(), start, end))
    }

    /// The whole thing.
    pub fn read_all(&self) -> (b: Vec<u8>)
        ensures
            b@ == self.bytes@,
    {
        let b = slice_of(self.bytes.as_slice(), 0, self.bytes.len());
        assert(b@ =~= self.bytes@);
        b
    }

    /// The first `len` bytes, or all of them where there are fewer.
    pub fn read_prefix(&self, len: usize) -> (b: Vec<u8>)
        ensures
            b@ == if len <= self.bytes@.len() {
                self.bytes@.take(len as int)
            } else {
                self.bytes@
            },
    {
        let n: usize = prefix_len(len, self.bytes.len() as u64);
        let b = slice_of(self.bytes.as_slice(), 0, n);
        assert(b@ =~= self.bytes@.take(n as int));
        assert(self.bytes@.take(self.bytes@.len() as int) =~= self.bytes@);
        b
    }
}

/// Bytes per refill of a cursor. A paged decoder reads a kilobyte at a time, and
/// one request for each would be thousands of them.
pub const WINDOW: usize = 0x10_0000;

/// Where a seek goes.
#[derive(Debug, Clone, Copy, PartialEq, Eq, Structural)]
pub enum SeekTo {
    Start(u64),
    End(i64),
    Current(i64),
}

/// A source read as a stream, through a window that is refilled as it is needed.
#[derive(Debug)]
pub struct SourceCursor {
    pub size: u64,
    pub at: u64,
    pub window: Vec<u8>,
    pub window_at: u64,
}

/// The place a seek goes to.
pub open spec fn sought(c: SourceCursor, to: SeekTo) -> int {
    match to {
        SeekTo::Start(offset) => offset as int,
        SeekTo::End(delta) => c.size + delta,
        SeekTo::Current(delta) => c.at + delta,
    }
}

impl SourceCursor {
    /// Whether the window holds the byte at the cursor.
    pub open spec fn held(self) -> bool {
        self.window_at <= self.at < self.window_at + self.window@.len()
    }

    /// Whether the window is a part of a source.
    pub open spec fn shows(self, source: Seq<u8>) -> bool {
        &&& self.size == source.len()
        &&& self.window_at + self.window@.len() <= source.len()
        &&& self.window@ == source.subrange(
            self.window_at as int,
            self.window_at + self.window@.len(),
        )
    }

    /// A cursor at the start of a source of some size.
    pub fn new(size: u64) -> (c: Self)
        ensures
            c.size == size,
            c.at == 0,
            c.window_at == 0,
            c.window@.len() == 0,
    {
        SourceCursor { size, at: 0, window: Vec::new(), window_at: 0 }
    }

    /// The range that must be read before the next byte can be handed out. None
    /// where the window has it, and none at the end.
    pub fn wants(&self) -> (r: Option<(u64, usize)>)
        ensures
            r is Some <==> self.at < self.size && !self.held(),
            match r {
                Some((from, len)) => from == self.at && len == if self.size - self.at <= WINDOW {
                    self.size - self.at
                } else {
                    WINDOW as int
                },
                None => true,
            },
    {
        if self.at >= self.size {
            return None;
        }
        if self.at >= self.window_at && self.at - self.window_at < self.window.len() as u64 {
            return None;
        }
        let left: u64 = self.size - self.at;
        if left <= WINDOW as u64 {
            Some((self.at, left as usize))
        } else {
            Some((self.at, WINDOW))
        }
    }

    /// Takes in the bytes of the range that was wanted.
    pub fn fill(&mut self, bytes: Vec<u8>)
        ensures
            *final(self) == (SourceCursor { window: bytes, window_at: old(self).at, ..*old(self) }),
    {
        self.window = bytes;
        self.window_at = self.at;
    }

    /// Hands out bytes from the window, as many as it has up to a number.
    pub fn take(&mut self, max: usize) -> (out: Vec<u8>)
        requires
            old(self).window_at + old(self).window@.len() <= old(self).size,
        ensures
            final(self).window == old(self).window,
            final(self).window_at == old(self).window_at,
            final(self).size == old(self).size,
            final(self).at == old(self).at + out@.len(),
            out@.len() <= max,
            !old(self).held() ==> out@.len() == 0,
            old(self).held() ==> {
                let from = old(self).at - old(self).window_at;
                let left = old(self).window@.len() - from;
                &&& out@.len() == if left <= max {
                    left
                } else {
                    max as int
                }
                &&& out@ == old(self).window@.subrange(from, from + out@.len())
            },
    {
        if self.at < self.window_at || self.at - self.window_at >= self.window.len() as u64 {
            return Vec::new();
        }
        let from: usize = (self.at - self.window_at) as usize;
        let left: usize = self.window.len() - from;
        let n: usize = if left <= max {
            left
        } else {
            max
        };
        let out = slice_of(self.window.as_slice(), from, from + n);
        self.at = self.at + n as u64;
        out
    }

    /// Moves the cursor. Past the end is a place like any other, with nothing to
    /// read there; before the start is none, and the cursor stays.
    pub fn seek(&mut self, to: SeekTo) -> (r: Option<u64>)
        ensures
            match r {
                Some(at) => 0 <= sought(*old(self), to) && final(self).at == at && at
                    == crate::cloud::wrap64(sought(*old(self), to)) && *final(self)
                    == (SourceCursor { at, ..*old(self) }),
                None => sought(*old(self), to) < 0 && *final(self) == *old(self),
            },
    {
        let at: i128 = match to {
            SeekTo::Start(offset) => offset as i128,
            SeekTo::End(delta) => self.size as i128 + delta as i128,
            SeekTo::Current(delta) => self.at as i128 + delta as i128,
        };
        if at < 0 {
            return None;
        }
        let place: u64 = (at % 0x1_0000_0000_0000_0000) as u64;
        self.at = place;
        Some(place)
    }
}

/// A cursor hands out the bytes of its source: what is read at a place is what
/// stands there.
pub proof fn reads_come_from_the_source(
    before: SourceCursor,
    source: Seq<u8>,
    max: int,
    out: Seq<u8>,
)
    requires
        before.shows(source),
        before.held(),
        out.len() <= max,
        ({
            let from = before.at - before.window_at;
            out == before.window@.subrange(from, from + out.len()) && from + out.len()
                <= before.window@.len()
        }),
    ensures
        out == source.subrange(before.at as int, before.at + out.len()),
{
    assert(out =~= source.subrange(before.at as int, before.at + out.len()));
}

/// A window filled with the range that was wanted shows the source, and holds
/// the byte at the cursor.
pub proof fn filling_shows_the_source(before: SourceCursor, source: Seq<u8>, after: SourceCursor)
    requires
        before.size == source.len(),
        before.at < before.size,
        after.size == before.size,
        after.at == before.at,
        after.window_at == before.at,
        after.window@ == source.subrange(
            before.at as int,
            before.at + if before.size - before.at <= WINDOW {
                before.size - before.at
            } else {
                WINDOW as int
            },
        ),
    ensures
        after.shows(source),
        after.held(),
{
}

} // verus!
