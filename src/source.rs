//! A byte cursor over program text that tracks where each byte was written.
use vstd::prelude::*;

verus! {

/// Location of an object in the source code.
#[derive(Debug, Clone, Copy, PartialEq, Eq, Structural, PartialOrd, Ord, Hash)]
pub struct Location {
    /// Absolute bytewise position.
    pub position: u64,
    /// Line number.
    pub line: u64,
    /// Column bytewise number.
    pub column: u64,
}

/// The line feed byte, which ends a line.
pub const NEWLINE: u8 = 10;

impl Location {
    /// Location of the beginning of a source file: position 0, line 1, column 1.
    pub open spec fn start_spec() -> Location {
        Location { position: 0, line: 1, column: 1 }
    }

    /// The location that follows `self` once `byte` has been read.
    pub open spec fn advanced(self, byte: u8) -> Location {
        Location {
            position: (self.position + 1) as u64,
            line: if byte == NEWLINE { (self.line + 1) as u64 } else { self.line },
            column: if byte == NEWLINE { 1 } else { (self.column + 1) as u64 },
        }
    }

    /// Location of the beginning of the source file.
    pub fn start() -> (r: Location)
        ensures
            r == Location::start_spec(),
    {
        Location { position: 0, line: 1, column: 1 }
    }

    /// Advances the location given the current byte.
    pub fn next(&mut self, byte: u8)
        requires
            old(self).position < u64::MAX,
            old(self).line < u64::MAX,
            old(self).column < u64::MAX,
        ensures
            *final(self) == old(self).advanced(byte),
    {
        self.position = self.position + 1;
        if byte == NEWLINE {
            self.line = self.line + 1;
            self.column = 1;
        } else {
            self.column = self.column + 1;
        }
    }
}

impl Default for Location {
    fn default() -> (r: Location)
        ensures
            r == Location::start_spec(),
    {
        Location::start()
    }
}

/// The location reached from `start` after reading every byte of `bytes`.
pub open spec fn location_after(start: Location, bytes: Seq<u8>) -> Location
    decreases bytes.len(),
{
    if bytes.len() == 0 {
        start
    } else {
        location_after(start, bytes.drop_last()).advanced(bytes.last())
    }
}

/// A cursor over a buffer of source bytes. It yields each byte together with
/// the location where it stands.
#[derive(Debug)]
pub struct Source {
    bytes: Vec<u8>,
    index: usize,
    curr_location: Location,
}

impl Source {
    #[verifier::type_invariant]
    spec fn inv(self) -> bool {
        &&& self.index <= self.bytes.len()
        &&& self.bytes.len() < u64::MAX
        &&& self.curr_location.position <= self.index
        &&& self.curr_location.line <= self.curr_location.position + 1
        &&& self.curr_location.column <= self.curr_location.position + 1
    }

    /// The bytes that are still to be read.
    pub closed spec fn remaining(&self) -> Seq<u8> {
        self.bytes@.subrange(self.index as int, self.bytes@.len() as int)
    }

    /// The location of the next byte to be read.
    pub closed spec fn location(&self) -> Location {
        self.curr_location
    }

    /// A cursor at the start of `bytes`.
    pub fn new(bytes: Vec<u8>) -> (r: Source)
        requires
            bytes@.len() < u64::MAX,
        ensures
            r.remaining() == bytes@,
            r.location() == Location::start_spec(),
    {
        let r = Source { bytes, index: 0, curr_location: Location::start() };
        assert(r.remaining() =~= r.bytes@);
        r
    }

    /// A cursor at the start of the bytes handed out one by one.
    pub fn from_infallible(bytes: Vec<u8>) -> (r: Source)
        requires
            bytes@.len() < u64::MAX,
        ensures
            r.remaining() == bytes@,
            r.location() == Location::start_spec(),
    {
        Source::new(bytes)
    }

    /// A cursor at the start of a copy of `buf`.
    pub fn from_buf(buf: &[u8]) -> (r: Source)
        requires
            buf@.len() < u64::MAX,
        ensures
            r.remaining() == buf@,
            r.location() == Location::start_spec(),
    {
        let mut bytes: Vec<u8> = Vec::new();
        let mut i: usize = 0;
        while i < buf.len()
            invariant
                i <= buf@.len(),
                bytes@ == buf@.subrange(0, i as int),
            decreases buf@.len() - i,
        {
            bytes.push(buf[i]);
            i = i + 1;
            assert(bytes@ =~= buf@.subrange(0, i as int));
        }
        assert(bytes@ =~= buf@);
        Source::new(bytes)
    }

    /// The location of the next byte to be read.
    pub fn curr_location(&self) -> (r: Location)
        ensures
            r == self.location(),
    {
        self.curr_location
    }

    /// Reads the next byte with its location, or `None` at the end.
    pub fn try_next(&mut self) -> (r: Option<(u8, Location)>)
        ensures
            old(self).remaining().len() == 0 ==> r is None && *final(self) == *old(self),
            old(self).remaining().len() > 0 ==> r == Some((old(self).remaining()[0], old(self).location()))
                && final(self).remaining() == old(self).remaining().drop_first()
                && final(self).location() == old(self).location().advanced(old(self).remaining()[0]),
    {
        proof {
            use_type_invariant(&*self);
        }
        if self.index >= self.bytes.len() {
            return None;
        }
        let byte = self.bytes[self.index];
        let location = self.curr_location;
        let mut next_location = location;
        next_location.next(byte);
        self.index = self.index + 1;
        self.curr_location = next_location;
        assert(self.remaining() =~= old(self).remaining().drop_first());
        Some((byte, location))
    }

    /// Reads the next byte with its location, or `None` at the end.
    pub fn next_infallible(&mut self) -> (r: Option<(u8, Location)>)
        ensures
            old(self).remaining().len() == 0 ==> r is None && *final(self) == *old(self),
            old(self).remaining().len() > 0 ==> r == Some((old(self).remaining()[0], old(self).location()))
                && final(self).remaining() == old(self).remaining().drop_first()
                && final(self).location() == old(self).location().advanced(old(self).remaining()[0]),
    {
        self.try_next()
    }
}

} // verus!
