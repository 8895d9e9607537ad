//! Handles: integers that name objects, and tell what kind they name.
//!
//! A handle is a serial number and the tag of its kind. Serial numbers are never
//! used again, so a handle to an object that is gone names nothing, and a handle
//! of another kind is told apart before anything is looked up.
use vstd::prelude::*;
use crate::prim::{sqInt, PrimErr, PrimResult};

verus! {

/// The number of different tags; tag 0 is none.
pub const TAGS: u64 = 4;

/// Serial numbers stay below this, so that a handle fits the image's small
/// integers.
pub const SERIAL_LIMIT: u64 = 0x0200_0000_0000_0000;

/// The handle of the object with this serial number, of this kind.
pub open spec fn handle_of(tag: int, serial: int) -> int {
    serial * TAGS + tag
}

/// What a handle says of a kind: the serial number, if it is of that kind.
pub open spec fn decoded(tag: int, raw: int) -> PrimResult<int> {
    if raw <= 0 || raw % (TAGS as int) != tag {
        Err(PrimErr::BadArgument)
    } else {
        Ok(raw / (TAGS as int))
    }
}

/// Reads a handle as one of the kind with this tag.
pub fn decode(tag: u64, raw: sqInt) -> (r: PrimResult<u64>)
    requires
        1 <= tag < TAGS,
    ensures
        match r {
            Ok(serial) => decoded(tag as int, raw as int) == Ok::<int, PrimErr>(serial as int),
            Err(e) => decoded(tag as int, raw as int) == Err::<int, PrimErr>(e),
        },
{
    if raw <= 0 {
        return Err(PrimErr::BadArgument);
    }
    let bits: u64 = raw as u64;
    if bits % TAGS != tag {
        return Err(PrimErr::BadArgument);
    }
    Ok(bits / TAGS)
}

/// A handle reads back as the serial number it was made from.
pub proof fn lemma_handle_round_trip(tag: int, serial: int)
    requires
        1 <= tag < TAGS,
        0 <= serial,
    ensures
        decoded(tag, handle_of(tag, serial)) == Ok::<int, PrimErr>(serial),
{
}

/// A handle of one kind is refused as one of any other kind.
pub proof fn lemma_kinds_are_told_apart(tag: int, other: int, serial: int)
    requires
        1 <= tag < TAGS,
        1 <= other < TAGS,
        tag != other,
        0 <= serial,
    ensures
        decoded(other, handle_of(tag, serial)) == Err::<int, PrimErr>(PrimErr::BadArgument),
{
}

/// The objects of one kind, each under a serial number, in the order in which
/// they came.
#[derive(Debug)]
pub struct Registry<T> {
    pub entries: Vec<(u64, T)>,
    pub next: u64,
    pub tag: u64,
}

/// Whether an object has this serial number.
pub open spec fn holds<T>(entries: Seq<(u64, T)>, serial: int) -> bool {
    exists|i: int| 0 <= i < entries.len() && (#[trigger] entries[i]).0 == serial
}

/// Where the object with this serial number stands.
pub open spec fn place_of<T>(entries: Seq<(u64, T)>, serial: int) -> int {
    choose|i: int| 0 <= i < entries.len() && (#[trigger] entries[i]).0 == serial
}

/// What a handle leads to: the place of the object it names.
pub open spec fn lookup<T>(tag: int, entries: Seq<(u64, T)>, raw: int) -> PrimResult<int> {
    match decoded(tag, raw) {
        Err(e) => Err(e),
        Ok(serial) => if holds(entries, serial) {
            Ok(place_of(entries, serial))
        } else {
            Err(PrimErr::NotFound)
        },
    }
}

/// The objects without their serial numbers.
pub open spec fn objects<T>(entries: Seq<(u64, T)>) -> Seq<T> {
    Seq::new(entries.len(), |i: int| entries[i].1)
}

impl<T> Registry<T> {
    pub open spec fn view(&self) -> Seq<(u64, T)> {
        self.entries@
    }

    /// The serial numbers rise, and none is still to come.
    pub open spec fn inv(&self) -> bool {
        &&& 1 <= self.tag < TAGS
        &&& 1 <= self.next <= SERIAL_LIMIT
        &&& forall|i: int, j: int|
            0 <= i < j < self@.len() ==> (#[trigger] self@[i]).0 < (#[trigger] self@[j]).0
        &&& forall|i: int| 0 <= i < self@.len() ==> 1 <= (#[trigger] self@[i]).0 < self.next
    }

    /// The place that a handle leads to.
    pub open spec fn found(&self, raw: int) -> PrimResult<int> {
        lookup(self.tag as int, self@, raw)
    }

    /// No objects yet.
    pub fn new(tag: u64) -> (r: Self)
        requires
            1 <= tag < TAGS,
        ensures
            r.inv(),
            r.tag == tag,
            r@ == Seq::<(u64, T)>::empty(),
            r.next == 1,
    {
        Registry { entries: Vec::new(), next: 1, tag }
    }

    /// How many objects there are.
    pub fn len(&self) -> (r: usize)
        ensures
            r == self@.len(),
    {
        self.entries.len()
    }

    /// Takes an object in and answers its handle, unless the serial numbers have
    /// run out.
    pub fn insert(&mut self, value: T) -> (r: PrimResult<sqInt>)
        requires
            old(self).inv(),
        ensures
            final(self).inv(),
            final(self).tag == old(self).tag,
            match r {
                Ok(raw) => {
                    &&& old(self).next < SERIAL_LIMIT
                    &&& raw == handle_of(old(self).tag as int, old(self).next as int)
                    &&& final(self)@ == old(self)@.push((old(self).next, value))
                    &&& final(self).next == old(self).next + 1
                },
                Err(e) => {
                    &&& e == PrimErr::LimitExceeded
                    &&& old(self).next == SERIAL_LIMIT
                    &&& *final(self) == *old(self)
                },
            },
    {
        if self.next >= SERIAL_LIMIT {
            return Err(PrimErr::LimitExceeded);
        }
        let serial: u64 = self.next;
        let raw: sqInt = (serial * TAGS + self.tag) as sqInt;
        self.entries.push((serial, value));
        self.next = serial + 1;
        proof {
            let before = old(self)@;
            assert forall|i: int, j: int| 0 <= i < j < self@.len() implies (#[trigger] self@[i]).0 < (
            #[trigger] self@[j]).0 by {
                assert(self@[i] == before[i]);
                if j < before.len() {
                    assert(self@[j] == before[j]);
                }
            }
            assert forall|i: int| 0 <= i < self@.len() implies 1 <= (#[trigger] self@[i]).0
                < self.next by {
                if i < before.len() {
                    assert(self@[i] == before[i]);
                }
            }
        }
        Ok(raw)
    }

    /// Where the object with this serial number stands, if it is there.
    fn locate(&self, serial: u64) -> (r: Option<usize>)
        requires
            self.inv(),
        ensures
            match r {
                Some(i) => holds(self@, serial as int) && i == place_of(self@, serial as int) && i
                    < self@.len() && self@[i as int].0 == serial,
                None => !holds(self@, serial as int),
            },
    {
        let mut low: usize = 0;
        let mut high: usize = self.entries.len();
        while low < high
            invariant
                self.inv(),
                low <= high <= self@.len(),
                forall|i: int| 0 <= i < low ==> (#[trigger] self@[i]).0 < serial,
                forall|i: int| high <= i < self@.len() ==> (#[trigger] self@[i]).0 > serial,
            decreases high - low,
        {
            let middle: usize = low + (high - low) / 2;
            let there: u64 = self.entries[middle].0;
            if there == serial {
                proof {
                    assert(self@[middle as int].0 == serial);
                    let k = place_of(self@, serial as int);
                    assert(self@[k].0 == serial);
                }
                return Some(middle);
            }
            if there < serial {
                low = middle + 1;
            } else {
                high = middle;
            }
        }
        None
    }

    /// The object that a handle names.
    pub fn get(&self, raw: sqInt) -> (r: PrimResult<&T>)
        requires
            self.inv(),
        ensures
            match r {
                Ok(value) => self.found(raw as int) is Ok && *value == self@[self.found(
                    raw as int,
                )->Ok_0].1,
                Err(e) => self.found(raw as int) == Err::<int, PrimErr>(e),
            },
    {
        let serial: u64 = decode(self.tag, raw)?;
        match self.locate(serial) {
            None => Err(PrimErr::NotFound),
            Some(i) => Ok(&self.entries[i].1),
        }
    }

    /// Whether a handle names an object that is still there.
    pub fn is_live(&self, raw: sqInt) -> (r: bool)
        requires
            self.inv(),
        ensures
            r == self.found(raw as int) is Ok,
    {
        match decode(self.tag, raw) {
            Err(_) => false,
            Ok(serial) => self.locate(serial).is_some(),
        }
    }

    /// Takes the object out that a handle names. The others stay.
    pub fn remove(&mut self, raw: sqInt) -> (r: PrimResult<T>)
        requires
            old(self).inv(),
        ensures
            final(self).inv(),
            final(self).tag == old(self).tag,
            final(self).next == old(self).next,
            match r {
                Ok(value) => {
                    &&& old(self).found(raw as int) is Ok
                    &&& value == old(self)@[old(self).found(raw as int)->Ok_0].1
                    &&& final(self)@ == old(self)@.remove(old(self).found(raw as int)->Ok_0)
                },
                Err(e) => {
                    &&& old(self).found(raw as int) == Err::<int, PrimErr>(e)
                    &&& *final(self) == *old(self)
                },
            },
    {
        let serial: u64 = decode(self.tag, raw)?;
        match self.locate(serial) {
            None => Err(PrimErr::NotFound),
            Some(i) => {
                let (s, value) = self.entries.remove(i);
                Ok(value)
            },
        }
    }

    /// Takes every object out, the oldest first.
    pub fn drain(&mut self) -> (r: Vec<T>)
        requires
            old(self).inv(),
        ensures
            final(self).inv(),
            final(self).tag == old(self).tag,
            final(self).next == old(self).next,
            final(self)@ == Seq::<(u64, T)>::empty(),
            r@ == objects(old(self)@),
    {
        let mut out: Vec<T> = Vec::new();
        let ghost before = self@;
        while self.entries.len() > 0
            invariant
                self.inv(),
                self.tag == old(self).tag,
                self.next == old(self).next,
                before == old(self)@,
                self@.len() + out@.len() == before.len(),
                forall|i: int| 0 <= i < self@.len() ==> self@[i] == #[trigger] before[out@.len() + i],
                out@ == objects(before).take(out@.len() as int),
            decreases self@.len(),
        {
            let ghost rest = self@;
            let ghost count = out@.len() as int;
            assert(rest[0] == before[count + 0]);
            let (s, value) = self.entries.remove(0);
            out.push(value);
            assert(out@ =~= objects(before).take(count + 1));
            assert forall|i: int| 0 <= i < self@.len() implies self@[i] == #[trigger] before[out@.len()
                + i] by {
                assert(self@[i] == rest[i + 1]);
                assert(rest[i + 1] == before[count + (i + 1)]);
            }
        }
        assert(out@ =~= objects(before));
        out
    }
}

/// An object that was taken in is found by its handle, and by no other handle
/// that was found before.
pub proof fn lemma_found_after_insert<T>(r: Registry<T>, value: T, raw: int)
    requires
        r.inv(),
        r.next < SERIAL_LIMIT,
    ensures
        lookup(r.tag as int, r@.push((r.next, value)), handle_of(r.tag as int, r.next as int)) == Ok::<
            int,
            PrimErr,
        >(r@.len() as int),
        raw != handle_of(r.tag as int, r.next as int) ==> lookup(
            r.tag as int,
            r@.push((r.next, value)),
            raw,
        ) == r.found(raw),
{
    let after = r@.push((r.next, value));
    let handle = handle_of(r.tag as int, r.next as int);
    lemma_handle_round_trip(r.tag as int, r.next as int);
    assert(after[r@.len() as int].0 == r.next);
    let k = place_of(after, r.next as int);
    assert(after[k].0 == r.next);
    if k < r@.len() {
        assert(r@[k].0 < r.next);
    }
    if raw != handle {
        match decoded(r.tag as int, raw) {
            Err(_) => {},
            Ok(serial) => {
                assert(serial != r.next);
                if holds(r@, serial) {
                    let i = place_of(r@, serial);
                    assert(after[i].0 == serial);
                    let j = place_of(after, serial);
                    assert(after[j].0 == serial);
                    assert(r@[j].0 == serial);
                    lemma_one_place(r, i, j);
                } else if holds(after, serial) {
                    let j = place_of(after, serial);
                    assert(after[j].0 == serial);
                    assert(r@[j].0 == serial);
                }
            },
        }
    }
}

proof fn lemma_one_place<T>(r: Registry<T>, i: int, j: int)
    requires
        r.inv(),
        0 <= i < r@.len(),
        0 <= j < r@.len(),
        r@[i].0 == r@[j].0,
    ensures
        i == j,
{
    if i < j {
        assert(r@[i].0 < r@[j].0);
    } else if j < i {
        assert(r@[j].0 < r@[i].0);
    }
}

/// An object that was taken out is not found any more, neither by its handle
/// nor by a handle given out later. The handles of the others lead to the same
/// objects as before.
pub proof fn lemma_gone_after_remove<T>(r: Registry<T>, raw: int, other: int)
    requires
        r.inv(),
        r.found(raw) is Ok,
    ensures
        ({
            let after = r@.remove(r.found(raw)->Ok_0);
            let now = lookup(r.tag as int, after, other);
            &&& lookup(r.tag as int, after, raw) == Err::<int, PrimErr>(PrimErr::NotFound)
            &&& raw < handle_of(r.tag as int, r.next as int)
            &&& other != raw ==> match r.found(other) {
                Err(e) => now == Err::<int, PrimErr>(e),
                Ok(i) => now is Ok && after[now->Ok_0] == r@[i],
            }
        }),
{
    let tag = r.tag as int;
    let serial = raw / (TAGS as int);
    let at = place_of(r@, serial);
    assert(holds(r@, serial));
    assert(r@[at].0 == serial);
    let after = r@.remove(at);
    if holds(after, serial) {
        let k = place_of(after, serial);
        assert(after[k].0 == serial);
        let was = if k < at {
            k
        } else {
            k + 1
        };
        assert(r@[was].0 == serial);
        lemma_one_place(r, was, at);
    }
    if other != raw {
        match decoded(tag, other) {
            Err(_) => {},
            Ok(s) => {
                assert(s != serial);
                if holds(r@, s) {
                    let i = place_of(r@, s);
                    assert(r@[i].0 == s);
                    let k = if i < at {
                        i
                    } else {
                        i - 1
                    };
                    assert(after[k].0 == s);
                    let n = place_of(after, s);
                    assert(after[n].0 == s);
                    let was = if n < at {
                        n
                    } else {
                        n + 1
                    };
                    assert(r@[was].0 == s);
                    lemma_one_place(r, was, i);
                } else if holds(after, s) {
                    let n = place_of(after, s);
                    assert(after[n].0 == s);
                    let was = if n < at {
                        n
                    } else {
                        n + 1
                    };
                    assert(r@[was].0 == s);
                }
            },
        }
    }
}

} // verus!
