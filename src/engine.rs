//! The in-memory half of a store: the current state, and a model of the
//! snapshot and journal bytes that reopening would start from.
//!
//! A snapshot begins with the number of journal bytes it already holds, as
//! eight big-endian bytes, followed by the encoded state; reopening replays
//! only the journal bytes after that point. So a checkpoint writes one file
//! and never touches the journal, which only grows.
//!
//! Writing files is left to the caller, which hands each operation a
//! closure that stores the bytes the engine produced. The engine changes
//! its state only after that closure reports success.
use crate::error::{Error, Result};
use crate::frame::{
    be_bytes, be_value, decode_be_u64, encode_be_u64, fits, frame, frame_record, frames,
    lemma_be_value_prefix, lemma_be_value_same, lemma_frames_push,
};
use crate::machine::Acidic;
use vstd::prelude::*;

verus! {

/// The bytes of an optional snapshot.
pub open spec fn snapshot_view(snapshot: Option<&[u8]>) -> Option<Seq<u8>> {
    match snapshot {
        Some(b) => Some(b@),
        None => None,
    }
}

/// The stored form of a snapshot that holds the first `covered` journal
/// bytes and the encoded state `state`.
pub open spec fn snapshot_bytes(covered: u64, state: Seq<u8>) -> Seq<u8> {
    be_bytes(covered) + state
}

/// How many journal bytes a snapshot already holds; none without one.
pub open spec fn covered(snapshot: Option<Seq<u8>>) -> int {
    match snapshot {
        Some(b) => be_value(b) as int,
        None => 0,
    }
}

/// The state that a snapshot holds: the initial state where there is no
/// snapshot, and `CorruptedSnapshot` where it is shorter than its header or
/// its state does not decode.
pub open spec fn load<S: Acidic>(snapshot: Option<Seq<u8>>) -> Result<S::V> {
    match snapshot {
        None => Ok(S::initial_spec()),
        Some(b) => if b.len() < 8 {
            Err(Error::CorruptedSnapshot)
        } else {
            match S::decode_state_spec(b.subrange(8, b.len() as int)) {
                Some(s) => Ok(s),
                None => Err(Error::CorruptedSnapshot),
            }
        },
    }
}

/// The state after replaying the journal bytes `b` on `s`, one record at a
/// time in file order. The first record that fails decides the error:
/// `CorruptedLog` where its framing is broken (part of a length header, or
/// fewer payload bytes than the header declares), `Serialization` where its
/// payload does not decode to a write message.
pub open spec fn replayed<S: Acidic>(s: S::V, b: Seq<u8>) -> Result<S::V>
    decreases b.len(),
{
    if b.len() == 0 {
        Ok(s)
    } else if b.len() < 8 {
        Err(Error::CorruptedLog)
    } else {
        let n = be_value(b) as int;
        if n > b.len() - 8 {
            Err(Error::CorruptedLog)
        } else {
            match S::decode_update_spec(b.subrange(8, 8 + n)) {
                None => Err(Error::Serialization),
                Some(e) => replayed::<S>(S::update_spec(s, e).0, b.subrange(8 + n, b.len() as int)),
            }
        }
    }
}

/// The journal bytes that a snapshot does not hold: those after its covered
/// prefix, or none where the journal is shorter than that prefix.
pub open spec fn uncovered(snapshot: Option<Seq<u8>>, journal: Seq<u8>) -> Seq<u8> {
    if covered(snapshot) <= journal.len() {
        journal.subrange(covered(snapshot), journal.len() as int)
    } else {
        seq![]
    }
}

/// The result of opening a store whose files hold `snapshot` and `journal`:
/// the snapshot's state with the journal records after it replayed on it.
pub open spec fn reopen<S: Acidic>(snapshot: Option<Seq<u8>>, journal: Seq<u8>) -> Result<S::V> {
    match load::<S>(snapshot) {
        Err(e) => Err(e),
        Ok(s) => replayed::<S>(s, uncovered(snapshot, journal)),
    }
}

/// The state after applying the writes `es` to `s`, in order.
pub open spec fn apply_all<S: Acidic>(s: S::V, es: Seq<<S::UpdateEvent as View>::V>) -> S::V
    decreases es.len(),
{
    if es.len() == 0 {
        s
    } else {
        S::update_spec(apply_all::<S>(s, es.drop_last()), es.last()).0
    }
}

/// The stored forms of the write messages `es`.
pub open spec fn encode_all<S: Acidic>(es: Seq<<S::UpdateEvent as View>::V>) -> Seq<Seq<u8>> {
    es.map_values(|e: <S::UpdateEvent as View>::V| S::encode_update_spec(e).unwrap())
}

/// Every record decodes to a write message.
pub open spec fn all_decode<S: Acidic>(rs: Seq<Seq<u8>>) -> bool {
    forall|i: int| 0 <= i < rs.len() ==> (#[trigger] S::decode_update_spec(rs[i])) is Some
}

/// Reads the state that a snapshot holds; with no snapshot, the initial
/// state.
pub fn load_state<S: Acidic>(snapshot: Option<&[u8]>) -> (r: Result<S>)
    ensures
        match r {
            Ok(s) => load::<S>(snapshot_view(snapshot)) == Ok::<S::V, Error>(s@),
            Err(e) => load::<S>(snapshot_view(snapshot)) == Err::<S::V, Error>(e),
        },
{
    match snapshot {
        None => Ok(S::initial()),
        Some(b) => {
            if b.len() < 8 {
                return Err(Error::CorruptedSnapshot);
            }
            match S::decode_state(&b[8..b.len()]) {
                Some(s) => Ok(s),
                None => Err(Error::CorruptedSnapshot),
            }
        },
    }
}

/// Replays the records of `journal` on `state`, one at a time in the order
/// written, stopping at the first that is cut short or does not decode.
///
/// On an error `state` holds the records before the failing one.
pub fn replay<S: Acidic>(journal: &[u8], state: &mut S) -> (r: Result<()>)
    ensures
        match r {
            Ok(()) => replayed::<S>(old(state)@, journal@) == Ok::<S::V, Error>(final(state)@),
            Err(e) => replayed::<S>(old(state)@, journal@) == Err::<S::V, Error>(e),
        },
{
    let ghost start = state@;
    let len = journal.len();
    let mut pos: usize = 0;
    assert(journal@.subrange(0, len as int) =~= journal@);
    while pos < len
        invariant
            len == journal@.len(),
            pos <= len,
            start == old(state)@,
            replayed::<S>(start, journal@) == replayed::<S>(
                state@,
                journal@.subrange(pos as int, len as int),
            ),
        decreases len - pos,
    {
        let ghost rem = journal@.subrange(pos as int, len as int);
        let left = len - pos;
        if left < 8 {
            return Err(Error::CorruptedLog);
        }
        let n = decode_be_u64(&journal[pos..len]);
        if n > (left - 8) as u64 {
            return Err(Error::CorruptedLog);
        }
        let n = n as usize;
        let payload = &journal[pos + 8..pos + 8 + n];
        assert(rem.subrange(8, 8 + n) =~= payload@);
        assert(rem.subrange(8 + n, rem.len() as int) =~= journal@.subrange(
            (pos + 8 + n) as int,
            len as int,
        ));
        let event = match S::decode_update(payload) {
            Some(e) => e,
            None => return Err(Error::Serialization),
        };
        state.run_update(event);
        pos = pos + 8 + n;
    }
    assert(journal@.subrange(pos as int, len as int) =~= Seq::<u8>::empty());
    Ok(())
}

/// A state held in memory, with the snapshot and journal that stand behind
/// it.
pub struct Engine<S: Acidic> {
    state: S,
    snapshot: Ghost<Option<Seq<u8>>>,
    journal: Ghost<Seq<u8>>,
    journal_len: usize,
    stale: bool,
}

impl<S: Acidic> Engine<S> {
    /// The current state.
    pub closed spec fn state(&self) -> S::V {
        self.state@
    }

    /// The snapshot that the last successful checkpoint stored, if any.
    pub closed spec fn snapshot(&self) -> Option<Seq<u8>> {
        self.snapshot@
    }

    /// The journal bytes, one record per accepted write.
    pub closed spec fn journal(&self) -> Seq<u8> {
        self.journal@
    }

    /// Reopening from the stored bytes gives the current state.
    pub closed spec fn inv(&self) -> bool {
        &&& self.journal_len == self.journal@.len()
        &&& self.stale == (covered(self.snapshot@) > self.journal@.len())
        &&& reopen::<S>(self.snapshot@, self.journal@) == Ok::<S::V, Error>(self.state@)
    }

    /// Ready for writes: besides `inv`, the journal reaches at least as far
    /// as the snapshot's covered prefix, so appended records are replayed.
    pub open spec fn wf(&self) -> bool {
        self.inv() && covered(self.snapshot()) <= self.journal().len()
    }

    /// Loads the snapshot (the initial state where there is none), then
    /// replays on it the journal records that it does not hold yet.
    pub fn open(snapshot: Option<&[u8]>, journal: &[u8]) -> (r: Result<Engine<S>>)
        ensures
            match r {
                Ok(e) => {
                    &&& e.inv()
                    &&& reopen::<S>(snapshot_view(snapshot), journal@) == Ok::<S::V, Error>(
                        e.state(),
                    )
                    &&& e.snapshot() == snapshot_view(snapshot)
                    &&& e.journal() == journal@
                },
                Err(err) => reopen::<S>(snapshot_view(snapshot), journal@) == Err::<S::V, Error>(
                    err,
                ),
            },
    {
        let mut state = match load_state::<S>(snapshot) {
            Ok(s) => s,
            Err(e) => return Err(e),
        };
        let from = match snapshot {
            Some(b) => decode_be_u64(b),
            None => 0,
        };
        let len = journal.len();
        let stale = from > len as u64;
        if !stale {
            let from = from as usize;
            let rest = &journal[from..len];
            match replay(rest, &mut state) {
                Ok(()) => {},
                Err(e) => return Err(e),
            }
        }
        Ok(
            Engine {
                state,
                snapshot: Ghost(snapshot_view(snapshot)),
                journal: Ghost(journal@),
                journal_len: len,
                stale,
            },
        )
    }

    /// Whether the journal is shorter than the snapshot's covered prefix (it
    /// was lost or replaced), so that a checkpoint must come before writes.
    pub fn needs_checkpoint(&self) -> (r: bool)
        requires
            self.inv(),
        ensures
            r == !self.wf(),
    {
        self.stale
    }

    /// Answers a read request from the current state; nothing is stored.
    pub fn query(&self, event: S::QueryEvent) -> (r: S::QueryOutput)
        ensures
            r@ == S::query_spec(self.state(), event@),
    {
        self.state.run_query(event)
    }

    /// Applies a write request durably: the record of `event` is handed to
    /// `append`, and only where that succeeds is the state changed.
    ///
    /// Fails with `Serialization` where `event` cannot be encoded, with
    /// `JournalFull` where the journal's length would pass `usize::MAX`, and
    /// with the error of `append` where storing fails; the state is then
    /// unchanged.
    pub fn update<F: FnOnce(Vec<u8>) -> Result<()>>(&mut self, event: S::UpdateEvent, append: F) -> (r:
        Result<S::UpdateOutput>)
        requires
            old(self).wf(),
            forall|b: Vec<u8>| append.requires((b,)),
        ensures
            final(self).wf(),
            match S::encode_update_spec(event@) {
                None => r == Err::<S::UpdateOutput, Error>(Error::Serialization) && *final(self)
                    == *old(self),
                Some(p) => if old(self).journal().len() + frame(p).len() > usize::MAX {
                    r == Err::<S::UpdateOutput, Error>(Error::JournalFull) && *final(self)
                        == *old(self)
                } else {
                    match r {
                        Ok(out) => {
                            &&& exists|b: Vec<u8>, res: Result<()>|
                                b@ == frame(p) && res is Ok && append.ensures((b,), res)
                            &&& (final(self).state(), out@) == S::update_spec(
                                old(self).state(),
                                event@,
                            )
                            &&& final(self).snapshot() == old(self).snapshot()
                            &&& final(self).journal() == old(self).journal() + frame(p)
                        },
                        Err(e) => {
                            &&& exists|b: Vec<u8>| b@ == frame(p) && append.ensures((b,), Err(e))
                            &&& *final(self) == *old(self)
                        },
                    }
                },
            },
    {
        let payload = match S::encode_update(&event) {
            Some(p) => p,
            None => return Err(Error::Serialization),
        };
        let n = payload.len();
        let record = frame_record(payload.as_slice());
        let size = record.len();
        if size > usize::MAX - self.journal_len {
            return Err(Error::JournalFull);
        }
        let ghost sent = record;
        let stored = append(record);
        assert(append.ensures((sent,), stored));
        match stored {
            Ok(()) => {
                proof {
                    assert(payload@.len() == n);
                    lemma_durable_append::<S>(
                        self.snapshot(),
                        self.journal(),
                        self.state(),
                        event@,
                    );
                }
                let out = self.state.run_update(event);
                self.journal = Ghost(self.journal@ + sent@);
                self.journal_len = self.journal_len + size;
                Ok(out)
            },
            Err(e) => Err(e),
        }
    }

    /// Stores the current state as the new snapshot, together with the
    /// length of the journal it holds: the bytes are handed to `store`,
    /// which replaces the snapshot in one step. The journal is left as it
    /// is.
    ///
    /// Fails with `Serialization` where the state cannot be encoded, and with
    /// the error of `store` where storing fails; the model is then unchanged.
    pub fn checkpoint<F: FnOnce(Vec<u8>) -> Result<()>>(&mut self, store: F) -> (r: Result<()>)
        requires
            old(self).inv(),
            forall|b: Vec<u8>| store.requires((b,)),
        ensures
            final(self).inv(),
            final(self).state() == old(self).state(),
            final(self).journal() == old(self).journal(),
            match S::encode_state_spec(old(self).state()) {
                None => r == Err::<(), Error>(Error::Serialization) && *final(self) == *old(self),
                Some(b) => match r {
                    Ok(()) => {
                        &&& exists|v: Vec<u8>, res: Result<()>|
                            v@ == snapshot_bytes(old(self).journal().len() as u64, b) && res is Ok
                                && store.ensures((v,), res)
                        &&& final(self).snapshot() == Some(
                            snapshot_bytes(old(self).journal().len() as u64, b),
                        )
                        &&& final(self).wf()
                    },
                    Err(e) => {
                        &&& exists|v: Vec<u8>|
                            v@ == snapshot_bytes(old(self).journal().len() as u64, b)
                                && store.ensures((v,), Err(e))
                        &&& *final(self) == *old(self)
                    },
                },
            },
    {
        let mut encoded = match self.state.encode_state() {
            Some(b) => b,
            None => return Err(Error::Serialization),
        };
        let mut bytes = encode_be_u64(self.journal_len as u64);
        bytes.append(&mut encoded);
        let ghost sent = bytes;
        let stored = store(bytes);
        assert(store.ensures((sent,), stored));
        match stored {
            Ok(()) => {
                proof {
                    let b = S::encode_state_spec(self.state()).unwrap();
                    lemma_checkpoint_reopens::<S>(self.snapshot(), self.journal(), self.state(), b);
                }
                self.snapshot = Ghost(Some(sent@));
                self.stale = false;
                Ok(())
            },
            Err(e) => Err(e),
        }
    }
}

proof fn lemma_replayed_first<S: Acidic>(s: S::V, p: Seq<u8>, rest: Seq<u8>)
    requires
        p.len() <= u64::MAX,
    ensures
        replayed::<S>(s, frame(p) + rest) == match S::decode_update_spec(p) {
            None => Err::<S::V, Error>(Error::Serialization),
            Some(e) => replayed::<S>(S::update_spec(s, e).0, rest),
        },
{
    let b = frame(p) + rest;
    lemma_be_value_prefix(p.len() as u64, p + rest);
    assert(b =~= be_bytes(p.len() as u64) + (p + rest));
    let n = p.len() as int;
    assert(b.subrange(8, 8 + n) =~= p);
    assert(b.subrange(8 + n, b.len() as int) =~= rest);
}

proof fn lemma_replayed_append<S: Acidic>(
    s: S::V,
    j: Seq<u8>,
    p: Seq<u8>,
    e: <S::UpdateEvent as View>::V,
)
    requires
        replayed::<S>(s, j) is Ok,
        p.len() <= u64::MAX,
        S::decode_update_spec(p) == Some(e),
    ensures
        replayed::<S>(s, j + frame(p)) == Ok::<S::V, Error>(
            S::update_spec(replayed::<S>(s, j).unwrap(), e).0,
        ),
    decreases j.len(),
{
    if j.len() == 0 {
        assert(j + frame(p) =~= frame(p) + Seq::<u8>::empty());
        lemma_replayed_first::<S>(s, p, Seq::empty());
    } else {
        let b = j + frame(p);
        let n = be_value(j) as int;
        lemma_be_value_same(j, b);
        let e0 = S::decode_update_spec(j.subrange(8, 8 + n)).unwrap();
        let s1 = S::update_spec(s, e0).0;
        let tail = j.subrange(8 + n, j.len() as int);
        assert(b.subrange(8, 8 + n) =~= j.subrange(8, 8 + n));
        assert(b.subrange(8 + n, b.len() as int) =~= tail + frame(p));
        lemma_replayed_append::<S>(s1, tail, p, e);
    }
}

/// Once a write's record is appended to a journal that reaches the
/// snapshot's covered prefix, reopening gives the state with that write
/// applied.
pub proof fn lemma_durable_append<S: Acidic>(
    snapshot: Option<Seq<u8>>,
    journal: Seq<u8>,
    s: S::V,
    event: <S::UpdateEvent as View>::V,
)
    requires
        reopen::<S>(snapshot, journal) == Ok::<S::V, Error>(s),
        covered(snapshot) <= journal.len(),
        S::encode_update_spec(event) is Some,
        S::encode_update_spec(event).unwrap().len() <= u64::MAX,
    ensures
        reopen::<S>(snapshot, journal + frame(S::encode_update_spec(event).unwrap())) == Ok::<
            S::V,
            Error,
        >(S::update_spec(s, event).0),
{
    let p = S::encode_update_spec(event).unwrap();
    let s0 = load::<S>(snapshot).unwrap();
    let c = covered(snapshot);
    let grown = journal + frame(p);
    assert(grown.subrange(c, grown.len() as int) =~= journal.subrange(c, journal.len() as int)
        + frame(p));
    S::lemma_update_round_trip(event);
    lemma_replayed_append::<S>(s0, journal.subrange(c, journal.len() as int), p, event);
}

/// A checkpoint writes one file: the new snapshot, which holds the whole
/// journal as it stands, reopens with that journal to the current state,
/// just as the old snapshot did.
pub proof fn lemma_checkpoint_reopens<S: Acidic>(
    snapshot: Option<Seq<u8>>,
    journal: Seq<u8>,
    s: S::V,
    b: Seq<u8>,
)
    requires
        reopen::<S>(snapshot, journal) == Ok::<S::V, Error>(s),
        S::encode_state_spec(s) == Some(b),
        journal.len() <= u64::MAX,
    ensures
        reopen::<S>(Some(snapshot_bytes(journal.len() as u64, b)), journal) == Ok::<S::V, Error>(
            s,
        ),
        covered(Some(snapshot_bytes(journal.len() as u64, b))) == journal.len(),
{
    let bytes = snapshot_bytes(journal.len() as u64, b);
    lemma_be_value_prefix(journal.len() as u64, b);
    assert(bytes.subrange(8, bytes.len() as int) =~= b);
    S::lemma_state_round_trip(s);
    assert(journal.subrange(journal.len() as int, journal.len() as int) =~= Seq::<u8>::empty());
}

/// Replaying a journal that holds the writes `es` applies them to the state
/// one after another, exactly as running them in one process would.
pub proof fn lemma_replay<S: Acidic>(s: S::V, es: Seq<<S::UpdateEvent as View>::V>)
    requires
        forall|i: int|
            0 <= i < es.len() ==> (#[trigger] S::encode_update_spec(es[i]) matches Some(p)
                && p.len() <= u64::MAX),
    ensures
        replayed::<S>(s, frames(encode_all::<S>(es))) == Ok::<S::V, Error>(apply_all::<S>(s, es)),
    decreases es.len(),
{
    if es.len() == 0 {
        assert(encode_all::<S>(es) =~= seq![]);
        assert(frames(encode_all::<S>(es)) =~= seq![]);
    } else {
        let init = es.drop_last();
        let e = es.last();
        assert forall|i: int| 0 <= i < init.len() implies (#[trigger] S::encode_update_spec(
            init[i],
        ) matches Some(p) && p.len() <= u64::MAX) by {
            assert(init[i] == es[i]);
        }
        lemma_replay::<S>(s, init);
        assert(S::encode_update_spec(es[es.len() - 1]) is Some);
        let p = S::encode_update_spec(e).unwrap();
        assert(encode_all::<S>(es) =~= encode_all::<S>(init).push(p));
        lemma_frames_push(encode_all::<S>(init), p);
        S::lemma_update_round_trip(e);
        lemma_replayed_append::<S>(s, frames(encode_all::<S>(init)), p, e);
    }
}

/// Opening a fresh store whose journal holds the writes `es` gives the
/// initial state with them applied in order.
pub proof fn lemma_replay_fresh<S: Acidic>(es: Seq<<S::UpdateEvent as View>::V>)
    requires
        forall|i: int|
            0 <= i < es.len() ==> (#[trigger] S::encode_update_spec(es[i]) matches Some(p)
                && p.len() <= u64::MAX),
    ensures
        reopen::<S>(None, frames(encode_all::<S>(es))) == Ok::<S::V, Error>(
            apply_all::<S>(S::initial_spec(), es),
        ),
{
    let j = frames(encode_all::<S>(es));
    assert(j.subrange(0, j.len() as int) =~= j);
    lemma_replay::<S>(S::initial_spec(), es);
}

proof fn lemma_fails_after<S: Acidic>(s: S::V, rs: Seq<Seq<u8>>, x: Seq<u8>, err: Error)
    requires
        fits(rs),
        all_decode::<S>(rs),
        forall|t: S::V| #[trigger] replayed::<S>(t, x) == Err::<S::V, Error>(err),
    ensures
        replayed::<S>(s, frames(rs) + x) == Err::<S::V, Error>(err),
    decreases rs.len(),
{
    if rs.len() == 0 {
        assert(frames(rs) + x =~= x);
    } else {
        let tail = rs.drop_first();
        assert(fits(tail)) by {
            assert forall|i: int| 0 <= i < tail.len() implies tail[i].len() <= u64::MAX by {
                assert(tail[i] == rs[i + 1]);
            }
        }
        assert(all_decode::<S>(tail)) by {
            assert forall|i: int| 0 <= i < tail.len() implies (#[trigger] S::decode_update_spec(
                tail[i],
            )) is Some by {
                assert(tail[i] == rs[i + 1]);
            }
        }
        assert(S::decode_update_spec(rs[0]) is Some);
        let e = S::decode_update_spec(rs[0]).unwrap();
        lemma_fails_after::<S>(S::update_spec(s, e).0, tail, x, err);
        assert(frames(rs) + x =~= frame(rs[0]) + (frames(tail) + x));
        lemma_replayed_first::<S>(s, rs[0], frames(tail) + x);
    }
}

/// A journal cut off inside a record fails with `CorruptedLog`, rather
/// than dropping the partial record, where every record before it decodes.
pub proof fn lemma_truncated_journal_fails<S: Acidic>(
    s: S::V,
    rs: Seq<Seq<u8>>,
    p: Seq<u8>,
    k: int,
)
    requires
        fits(rs),
        all_decode::<S>(rs),
        p.len() <= u64::MAX,
        0 < k < frame(p).len(),
    ensures
        replayed::<S>(s, frames(rs) + frame(p).subrange(0, k)) == Err::<S::V, Error>(
            Error::CorruptedLog,
        ),
        reopen::<S>(None, frames(rs) + frame(p).subrange(0, k)) == Err::<S::V, Error>(
            Error::CorruptedLog,
        ),
{
    let t = frame(p).subrange(0, k);
    lemma_be_value_prefix(p.len() as u64, p);
    if k >= 8 {
        lemma_be_value_prefix(p.len() as u64, p.subrange(0, k - 8));
        assert(t =~= be_bytes(p.len() as u64) + p.subrange(0, k - 8));
    }
    assert forall|u: S::V| #[trigger] replayed::<S>(u, t) == Err::<S::V, Error>(
        Error::CorruptedLog,
    ) by {}
    lemma_fails_after::<S>(s, rs, t, Error::CorruptedLog);
    lemma_fails_after::<S>(S::initial_spec(), rs, t, Error::CorruptedLog);
    let j = frames(rs) + t;
    assert(j.subrange(0, j.len() as int) =~= j);
}

/// A complete record that does not decode fails with `Serialization`,
/// whatever follows it, where every record before it decodes.
pub proof fn lemma_undecodable_record_fails<S: Acidic>(
    s: S::V,
    rs: Seq<Seq<u8>>,
    p: Seq<u8>,
    rest: Seq<u8>,
)
    requires
        fits(rs),
        all_decode::<S>(rs),
        p.len() <= u64::MAX,
        S::decode_update_spec(p) is None,
    ensures
        replayed::<S>(s, frames(rs) + frame(p) + rest) == Err::<S::V, Error>(
            Error::Serialization,
        ),
{
    let x = frame(p) + rest;
    assert forall|u: S::V| #[trigger] replayed::<S>(u, x) == Err::<S::V, Error>(
        Error::Serialization,
    ) by {
        lemma_replayed_first::<S>(u, p, rest);
    }
    lemma_fails_after::<S>(s, rs, x, Error::Serialization);
    assert(frames(rs) + frame(p) + rest =~= frames(rs) + x);
}

} // verus!
