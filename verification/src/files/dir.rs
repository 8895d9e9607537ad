//! Directory walks, and the handles by which the image knows them.
use vstd::prelude::*;
use std::collections::HashMap;
use crate::prim::PrimErr;
use crate::dsa::number::{
    digits, lemma_power_pos, lemma_power_sum, lemma_value_bound, lemma_value_of_digits,
    lemma_value_same, lemma_value_split, power, value,
};
use crate::files::codes::{
    FA_BAD_SESSION_ID, FA_CANT_OPEN_DIR, FA_CANT_READ_DIR, FA_CORRUPT_VALUE,
};
use crate::files::convert::{converted, room_in, Converters};
use crate::files::fapath::{FaPath, PathParts};

verus! {

// ---- Handles --------------------------------------------------------------

/// Bytes of a word of the host.
pub const WORD_BYTES: usize = usize::BITS as usize / 8;

/// Bytes of a handle: a word that starts with the number of the session, in four
/// bytes, and is filled up with zeros, and a word for the key. That is 16 on a host
/// with 64-bit words and 8 on one with 32-bit words.
pub const HANDLE_BYTES: usize = 2 * WORD_BYTES;

/// The number of every session.
pub const SESSION_ID: i32 = 0;

/// The bytes of the handle with this key, the key's least significant byte first.
pub open spec fn handle_bytes(key: usize) -> Seq<u8> {
    Seq::new(WORD_BYTES as nat, |i: int| 0u8) + digits(key as int, WORD_BYTES as int)
}

/// The key in the bytes of a handle.
pub open spec fn handle_key(b: Seq<u8>) -> int {
    value(b, WORD_BYTES as int, WORD_BYTES as int)
}

/// The number of the session in the bytes of a handle.
pub open spec fn handle_session(b: Seq<u8>) -> i32 {
    ((b[0] as u32) | ((b[1] as u32) << 8) | ((b[2] as u32) << 16) | ((b[3] as u32) << 24)) as i32
}

/// A word has four bytes or eight, and holds what they stand for.
proof fn lemma_word_bytes()
    ensures
        4 <= WORD_BYTES <= 8,
        power(WORD_BYTES as int) == usize::MAX + 1,
{
    reveal_with_fuel(power, 9);
}

/// The handle with this key.
pub fn encode_handle(key: usize) -> (r: Vec<u8>)
    ensures
        r@ == handle_bytes(key),
{
    let mut r: Vec<u8> = Vec::new();
    let mut i: usize = 0;
    while i < WORD_BYTES
        invariant
            i <= WORD_BYTES,
            r@ == Seq::new(i as nat, |k: int| 0u8),
        decreases WORD_BYTES - i,
    {
        r.push(0);
        i = i + 1;
    }
    let mut rest: usize = key;
    let mut n: usize = 0;
    while n < WORD_BYTES
        invariant
            n <= WORD_BYTES,
            rest == key as int / power(n as int),
            r@ == Seq::new(WORD_BYTES as nat, |k: int| 0u8) + digits(key as int, n as int),
        decreases WORD_BYTES - n,
    {
        proof {
            lemma_power_pos(n as int);
            vstd::arithmetic::div_mod::lemma_div_denominator(key as int, power(n as int), 256);
            assert(power(n as int) * 256 == 256 * power(n as int)) by (nonlinear_arith);
        }
        r.push((rest % 256) as u8);
        rest = rest / 256;
        n = n + 1;
    }
    r
}

/// The number of the session and the key in a handle. Only a wrong length is
/// refused.
pub fn decode_handle(bytes: &[u8]) -> (r: Option<(i32, usize)>)
    ensures
        match r {
            None => bytes@.len() != HANDLE_BYTES,
            Some((session, key)) => {
                &&& bytes@.len() == HANDLE_BYTES
                &&& session == handle_session(bytes@)
                &&& key == handle_key(bytes@)
            },
        },
{
    if bytes.len() != HANDLE_BYTES {
        return None;
    }
    proof {
        lemma_word_bytes();
    }
    let session: i32 = ((bytes[0] as u32) | ((bytes[1] as u32) << 8) | ((bytes[2] as u32) << 16) | (
    (bytes[3] as u32) << 24)) as i32;
    let mut key: usize = 0;
    let mut n: usize = 0;
    while n < WORD_BYTES
        invariant
            bytes@.len() == HANDLE_BYTES,
            n <= WORD_BYTES,
            key == value(bytes@, WORD_BYTES + (WORD_BYTES - n), n as int),
        decreases WORD_BYTES - n,
    {
        let ghost at = WORD_BYTES + (WORD_BYTES - n) - 1;
        let digit: usize = bytes[HANDLE_BYTES - 1 - n] as usize;
        proof {
            lemma_word_bytes();
            lemma_value_split(bytes@, at, 1, n as int);
            lemma_value_bound(bytes@, at, n + 1);
            lemma_power_sum(n + 1, WORD_BYTES - n - 1);
            lemma_power_pos(n + 1);
            lemma_power_pos(WORD_BYTES - n - 1);
            assert(power(n + 1) <= power(n + 1) * power(WORD_BYTES - n - 1)) by (nonlinear_arith)
                requires
                    1 <= power(n + 1),
                    1 <= power(WORD_BYTES - n - 1),
            ;
            assert(value(bytes@, at, 0) == 0 && power(0) == 1);
            assert(at == HANDLE_BYTES - 1 - n);
            assert(value(bytes@, at, 1) == digit);
            assert(power(1) == 256);
            assert(value(bytes@, at, n + 1) == digit + key * 256);
        }
        key = key * 256 + digit;
        n = n + 1;
    }
    Some((session, key))
}

/// A handle gives back the session and the key that it was made with.
pub proof fn lemma_handle_round_trip(key: usize)
    ensures
        handle_bytes(key).len() == HANDLE_BYTES,
        handle_session(handle_bytes(key)) == SESSION_ID,
        handle_key(handle_bytes(key)) == key,
{
    let b = handle_bytes(key);
    let d = digits(key as int, WORD_BYTES as int);
    lemma_word_bytes();
    lemma_no_session();
    lemma_value_same(b, WORD_BYTES as int, d, 0, WORD_BYTES as int);
    lemma_value_of_digits(key as int, WORD_BYTES as int);
}

proof fn lemma_no_session()
    by (bit_vector)
    ensures
        ((0u8 as u32) | ((0u8 as u32) << 8) | ((0u8 as u32) << 16) | ((0u8 as u32) << 24)) as i32
            == 0,
{
}

/// Why a handle is refused.
#[derive(Debug, Clone, Copy, PartialEq, Eq, Structural)]
pub enum HandleError {
    /// It is not the size of a handle.
    BadArgument,
    /// It is of another session.
    BadSession,
}

impl HandleError {
    /// The failure and the status that goes with it.
    pub fn failure(self) -> (r: (PrimErr, i64))
        ensures
            r == (match self {
                HandleError::BadArgument => (PrimErr::BadArgument, 0i64),
                HandleError::BadSession => (PrimErr::OSError, FA_BAD_SESSION_ID),
            }),
    {
        match self {
            HandleError::BadArgument => (PrimErr::BadArgument, 0),
            HandleError::BadSession => (PrimErr::OSError, FA_BAD_SESSION_ID),
        }
    }
}

/// The key in a handle of this session.
pub fn validated_session_key(bytes: &[u8]) -> (r: Result<usize, HandleError>)
    ensures
        match r {
            Err(HandleError::BadArgument) => bytes@.len() != HANDLE_BYTES,
            Err(HandleError::BadSession) => {
                &&& bytes@.len() == HANDLE_BYTES
                &&& handle_session(bytes@) != SESSION_ID
            },
            Ok(key) => {
                &&& bytes@.len() == HANDLE_BYTES
                &&& handle_session(bytes@) == SESSION_ID
                &&& key == handle_key(bytes@)
            },
        },
{
    match decode_handle(bytes) {
        None => Err(HandleError::BadArgument),
        Some((session, key)) => if session != SESSION_ID {
            Err(HandleError::BadSession)
        } else {
            Ok(key)
        },
    }
}

// ---- Sessions -------------------------------------------------------------

/// The open sessions, by key.
#[derive(Debug)]
pub struct Registry<T> {
    sessions: HashMap<usize, T>,
    next: usize,
}

impl<T> Registry<T> {
    /// The sessions by key.
    pub closed spec fn view(&self) -> Map<usize, T> {
        self.sessions@
    }

    /// The key that the next session will have.
    pub closed spec fn next_key(&self) -> usize {
        self.next
    }

    /// No session has a key that is still to come.
    pub open spec fn inv(&self) -> bool {
        &&& 1 <= self.next_key()
        &&& forall|k: usize| self@.dom().contains(k) ==> 1 <= k < self.next_key()
    }

    /// No sessions.
    pub fn new() -> (r: Self)
        ensures
            r@ == Map::<usize, T>::empty(),
            r.next_key() == 1,
            r.inv(),
    {
        broadcast use vstd::std_specs::hash::group_hash_axioms;

        Registry { sessions: HashMap::new(), next: 1 }
    }

    /// Takes a session in, under a key that no session had before.
    pub fn register(&mut self, session: T) -> (r: usize)
        requires
            old(self).inv(),
            old(self).next_key() < usize::MAX,
        ensures
            r == old(self).next_key(),
            !old(self)@.dom().contains(r),
            final(self)@ == old(self)@.insert(r, session),
            final(self).next_key() == old(self).next_key() + 1,
            final(self).inv(),
    {
        broadcast use vstd::std_specs::hash::group_hash_axioms;

        let key: usize = self.next;
        self.sessions.insert(key, session);
        self.next = key + 1;
        assert forall|k: usize| self@.dom().contains(k) implies 1 <= k < self.next_key() by {
            assert(k == key || old(self)@.dom().contains(k));
        }
        key
    }

    /// Gives the session with this key up, if there is one.
    pub fn take(&mut self, key: usize) -> (r: Option<T>)
        requires
            old(self).inv(),
        ensures
            r == (if old(self)@.dom().contains(key) {
                Some(old(self)@[key])
            } else {
                None
            }),
            final(self)@ == old(self)@.remove(key),
            final(self).next_key() == old(self).next_key(),
            final(self).inv(),
    {
        broadcast use vstd::std_specs::hash::group_hash_axioms;

        let ghost before = self.sessions@;
        let r = self.sessions.remove(&key);
        assert(self.sessions@ =~= before.remove(key));
        r
    }
}

/// What one step of a walk gave.
#[derive(Debug, Clone, Copy, PartialEq, Eq, Structural)]
pub enum ReadOutcome {
    /// The path of the session names the next entry.
    Entry,
    /// There are no more entries.
    NoMoreData,
}

/// What came of reading the directory.
#[derive(Debug)]
pub enum ReadEvent {
    /// There is nothing more.
    End,
    /// It could not be read.
    Failed,
    /// The name of the next entry.
    Name(Vec<u8>),
}

impl ReadEvent {
    /// The same with the name as a sequence.
    pub open spec fn name(&self) -> Option<Seq<u8>> {
        match self {
            ReadEvent::Name(v) => Some(v@),
            _ => None,
        }
    }
}

/// A walk through a directory: the path, and whether the directory is open.
#[derive(Debug)]
pub struct DirSession {
    pub fa: FaPath,
    pub open: bool,
}

/// What a step makes of the path and answers, `file` being what the name
/// converts to.
pub open spec fn read_step(p: PathParts, e: ReadEvent, file: Seq<u8>) -> (
    PathParts,
    Result<ReadOutcome, i64>,
) {
    match e {
        ReadEvent::End => (p, Ok(ReadOutcome::NoMoreData)),
        ReadEvent::Failed => (p, Err(FA_CANT_READ_DIR)),
        ReadEvent::Name(v) => {
            let (q, r) = p.with_plat_file(v@, file);
            (
                q,
                match r {
                    Ok(_) => Ok(ReadOutcome::Entry),
                    Err(status) => Err(status),
                },
            )
        },
    }
}

/// What the name of an event converts to behind this directory.
pub open spec fn converted_name(p: PathParts, e: ReadEvent) -> Seq<u8> {
    match e.name() {
        Some(name) => converted(name, room_in(p.limit - p.st_dir)),
        None => Seq::empty(),
    }
}

impl DirSession {
    /// The walk's path is as it should be.
    pub open spec fn inv(&self) -> bool {
        self.fa.inv()
    }

    /// Starts a walk: `opened` tells whether the directory could be opened, and
    /// the event is its first entry. An empty directory makes no walk.
    pub fn open(fa: FaPath, opened: bool, first: ReadEvent, conv: &Converters) -> (r: Result<
        Option<DirSession>,
        i64,
    >)
        requires
            fa.inv(),
        ensures
            match r {
                Ok(Some(s)) => {
                    &&& opened
                    &&& s.open
                    &&& s.inv()
                    &&& (s.fa@, Ok::<ReadOutcome, i64>(ReadOutcome::Entry)) == read_step(
                        fa@,
                        first,
                        converted_name(fa@, first),
                    )
                },
                Ok(None) => opened && first is End,
                Err(status) => {
                    ||| !opened && status == FA_CANT_OPEN_DIR
                    ||| opened && read_step(fa@, first, converted_name(fa@, first)).1 == Err::<
                        ReadOutcome,
                        i64,
                    >(status)
                },
            },
    {
        if !opened {
            return Err(FA_CANT_OPEN_DIR);
        }
        let mut session: DirSession = DirSession { fa, open: true };
        match session.read(first, conv) {
            Ok(ReadOutcome::Entry) => Ok(Some(session)),
            Ok(ReadOutcome::NoMoreData) => Ok(None),
            Err(status) => Err(status),
        }
    }

    /// Takes the next entry. A walk that was closed cannot go on.
    pub fn read(&mut self, event: ReadEvent, conv: &Converters) -> (r: Result<ReadOutcome, i64>)
        requires
            old(self).inv(),
        ensures
            final(self).inv(),
            final(self).open == old(self).open,
            (final(self).fa@, r) == (if old(self).open {
                read_step(old(self).fa@, event, converted_name(old(self).fa@, event))
            } else {
                (old(self).fa@, Err(FA_CORRUPT_VALUE))
            }),
    {
        if !self.open {
            return Err(FA_CORRUPT_VALUE);
        }
        match event {
            ReadEvent::End => Ok(ReadOutcome::NoMoreData),
            ReadEvent::Failed => Err(FA_CANT_READ_DIR),
            ReadEvent::Name(name) => {
                match self.fa.set_plat_file(name.as_slice(), conv) {
                    Ok(_) => Ok(ReadOutcome::Entry),
                    Err(status) => Err(status),
                }
            },
        }
    }

    /// Takes the next entry, given what its name converts to.
    pub fn readAs(&mut self, event: ReadEvent, file: Vec<u8>) -> (r: Result<ReadOutcome, i64>)
        requires
            old(self).inv(),
        ensures
            final(self).inv(),
            final(self).open == old(self).open,
            (final(self).fa@, r) == (if old(self).open {
                read_step(old(self).fa@, event, file@)
            } else {
                (old(self).fa@, Err(FA_CORRUPT_VALUE))
            }),
    {
        if !self.open {
            return Err(FA_CORRUPT_VALUE);
        }
        match event {
            ReadEvent::End => Ok(ReadOutcome::NoMoreData),
            ReadEvent::Failed => Err(FA_CANT_READ_DIR),
            ReadEvent::Name(name) => {
                match self.fa.setPlatFileAs(name.as_slice(), file) {
                    Ok(_) => Ok(ReadOutcome::Entry),
                    Err(status) => Err(status),
                }
            },
        }
    }

    /// Goes back to the first entry: `reopened` tells whether the directory could
    /// be opened again.
    pub fn rewind(&mut self, reopened: bool, first: ReadEvent, conv: &Converters) -> (r: Result<
        ReadOutcome,
        i64,
    >)
        requires
            old(self).inv(),
        ensures
            final(self).inv(),
            final(self).open == old(self).open,
            (final(self).fa@, r) == (if !old(self).open {
                (old(self).fa@, Err(FA_CORRUPT_VALUE))
            } else if !reopened {
                (old(self).fa@, Err(FA_CANT_READ_DIR))
            } else {
                read_step(old(self).fa@, first, converted_name(old(self).fa@, first))
            }),
    {
        if !self.open {
            return Err(FA_CORRUPT_VALUE);
        }
        if !reopened {
            return Err(FA_CANT_READ_DIR);
        }
        self.read(first, conv)
    }

    /// Ends the walk. It can be ended once.
    pub fn close(&mut self) -> (r: Result<(), i64>)
        ensures
            r == (if old(self).open {
                Ok(())
            } else {
                Err(FA_CORRUPT_VALUE)
            }),
            !final(self).open,
            final(self).fa == old(self).fa,
    {
        if self.open {
            self.open = false;
            Ok(())
        } else {
            Err(FA_CORRUPT_VALUE)
        }
    }
}

/// What was registered is given up once, and once only.
pub proof fn lemma_session_is_taken_once<T>(before: Map<usize, T>, key: usize, session: T)
    requires
        !before.dom().contains(key),
    ensures
        before.insert(key, session)[key] == session,
        before.insert(key, session).remove(key) == before,
        !before.insert(key, session).remove(key).dom().contains(key),
{
    assert(before.insert(key, session).remove(key) =~= before);
}

} // verus!
