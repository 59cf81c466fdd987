//! A register of names and numbers: a ready-made state machine for a store.
//!
//! Its state is the list of entries in the order their names were first
//! set; setting a name again replaces its number in place. Messages and
//! states are stored in the journal's own framing: a name record followed
//! by an eight-byte big-endian number record.
use crate::frame::{
    be_bytes, be_value, decode_be_u64, encode_be_u64, fits, frame, frame_record, frames,
    lemma_be_value_prefix, lemma_frames_push, lemma_parse_frames, parse, parse_journal, views,
};
use crate::machine::Acidic;
use vstd::prelude::*;
use vstd::slice::slice_to_vec;

verus! {

/// The position of the entry named `n`, if there is one.
pub open spec fn find(es: Seq<(Seq<u8>, u32)>, n: Seq<u8>) -> Option<int>
    decreases es.len(),
{
    if es.len() == 0 {
        None
    } else if es.last().0 == n {
        Some(es.len() - 1)
    } else {
        find(es.drop_last(), n)
    }
}

/// A found position lies inside the entries, and names the entry.
pub proof fn lemma_find_bounds(es: Seq<(Seq<u8>, u32)>, n: Seq<u8>)
    ensures
        find(es, n) matches Some(i) ==> 0 <= i < es.len() && es[i].0 == n,
    decreases es.len(),
{
    if es.len() > 0 && es.last().0 != n {
        lemma_find_bounds(es.drop_last(), n);
    }
}

/// The number set for `n`, if any.
pub open spec fn lookup(es: Seq<(Seq<u8>, u32)>, n: Seq<u8>) -> Option<u32> {
    match find(es, n) {
        Some(i) => Some(es[i].1),
        None => None,
    }
}

/// The entries after setting `n` to `v`.
pub open spec fn assign(es: Seq<(Seq<u8>, u32)>, n: Seq<u8>, v: u32) -> Seq<(Seq<u8>, u32)> {
    match find(es, n) {
        Some(i) => es.update(i, (n, v)),
        None => es.push((n, v)),
    }
}

/// The records that store the entries: each name, then its number.
pub open spec fn entry_records(es: Seq<(Seq<u8>, u32)>) -> Seq<Seq<u8>>
    decreases es.len(),
{
    if es.len() == 0 {
        seq![]
    } else {
        entry_records(es.drop_last()) + seq![es.last().0, be_bytes(es.last().1 as u64)]
    }
}

/// The number that a record holds, where it holds one.
pub open spec fn number_of(r: Seq<u8>) -> Option<u32> {
    if r.len() == 8 && be_value(r) <= u32::MAX {
        Some(be_value(r) as u32)
    } else {
        None
    }
}

/// The entries that records hold, or `None` where they are not pairs of a
/// name and a number, or a name comes twice.
pub open spec fn decode_entries(rs: Seq<Seq<u8>>) -> Option<Seq<(Seq<u8>, u32)>>
    decreases rs.len(),
{
    if rs.len() == 0 {
        Some(seq![])
    } else if rs.len() == 1 {
        None
    } else {
        match (decode_entries(rs.take(rs.len() - 2)), number_of(rs.last())) {
            (Some(es), Some(v)) => if find(es, rs[rs.len() - 2]) is None {
                Some(es.push((rs[rs.len() - 2], v)))
            } else {
                None
            },
            _ => None,
        }
    }
}

/// No name comes twice.
pub open spec fn distinct(es: Seq<(Seq<u8>, u32)>) -> bool {
    forall|i: int, j: int| 0 <= i < j < es.len() ==> es[i].0 != es[j].0
}

/// Every name can be stored.
pub open spec fn names_fit(es: Seq<(Seq<u8>, u32)>) -> bool {
    forall|i: int| 0 <= i < es.len() ==> es[i].0.len() <= u64::MAX
}

/// The stored form of setting `n` to `v`.
pub open spec fn assign_bytes(n: Seq<u8>, v: u32) -> Option<Seq<u8>> {
    if n.len() <= u64::MAX {
        Some(frames(seq![n, be_bytes(v as u64)]))
    } else {
        None
    }
}

/// The assignment that bytes hold, if any.
pub open spec fn assign_of(b: Seq<u8>) -> Option<(Seq<u8>, u32)> {
    match parse(b) {
        Some(rs) => if rs.len() == 2 && number_of(rs[1]) is Some {
            Some((rs[0], number_of(rs[1]).unwrap()))
        } else {
            None
        },
        None => None,
    }
}

/// The stored form of a registry's entries.
pub open spec fn entries_bytes(es: Seq<(Seq<u8>, u32)>) -> Option<Seq<u8>> {
    if names_fit(es) && distinct(es) {
        Some(frames(entry_records(es)))
    } else {
        None
    }
}

/// The entries that bytes hold, if any.
pub open spec fn entries_of(b: Seq<u8>) -> Option<Seq<(Seq<u8>, u32)>> {
    match parse(b) {
        Some(rs) => decode_entries(rs),
        None => None,
    }
}

proof fn lemma_number_round_trip(v: u32)
    ensures
        be_bytes(v as u64).len() == 8,
        number_of(be_bytes(v as u64)) == Some(v),
{
    lemma_be_value_prefix(v as u64, seq![]);
    assert(be_bytes(v as u64) + seq![] =~= be_bytes(v as u64));
}

proof fn lemma_frames_pair(n: Seq<u8>, b: Seq<u8>)
    ensures
        frames(seq![n, b]) == frame(n) + frame(b),
{
    assert(seq![n, b].drop_first() =~= seq![b]);
    assert(seq![b].drop_first() =~= Seq::<Seq<u8>>::empty());
    assert(frames(Seq::<Seq<u8>>::empty()) =~= Seq::<u8>::empty());
    assert(frames(seq![b]) =~= frame(b));
}

proof fn lemma_frames_append_pair(rs: Seq<Seq<u8>>, n: Seq<u8>, b: Seq<u8>)
    ensures
        frames(rs + seq![n, b]) == frames(rs) + frame(n) + frame(b),
{
    lemma_frames_push(rs, n);
    lemma_frames_push(rs.push(n), b);
    assert(rs + seq![n, b] =~= rs.push(n).push(b));
}

proof fn lemma_entry_records(es: Seq<(Seq<u8>, u32)>)
    requires
        names_fit(es),
        distinct(es),
    ensures
        fits(entry_records(es)),
        decode_entries(entry_records(es)) == Some(es),
    decreases es.len(),
{
    if es.len() > 0 {
        let init = es.drop_last();
        let (n, v) = es.last();
        assert(names_fit(init)) by {
            assert forall|i: int| 0 <= i < init.len() implies init[i].0.len() <= u64::MAX by {
                assert(init[i] == es[i]);
            }
        }
        assert(distinct(init));
        lemma_entry_records(init);
        lemma_number_round_trip(v);
        lemma_find_bounds(init, n);
        let rs = entry_records(es);
        let pre = entry_records(init);
        assert(rs =~= pre + seq![n, be_bytes(v as u64)]);
        assert(rs.take(rs.len() - 2) =~= pre);
        assert(init.push((n, v)) =~= es);
        assert forall|i: int| 0 <= i < rs.len() implies rs[i].len() <= u64::MAX by {
            if i < pre.len() {
                assert(rs[i] == pre[i]);
            }
        }
    }
}

proof fn lemma_decode_entries_odd(rs: Seq<Seq<u8>>)
    requires
        rs.len() % 2 == 1,
    ensures
        decode_entries(rs) is None,
    decreases rs.len(),
{
    if rs.len() > 1 {
        lemma_decode_entries_odd(rs.take(rs.len() - 2));
    }
}

proof fn lemma_decode_entries_prefix(rs: Seq<Seq<u8>>, k: int)
    requires
        0 <= k <= rs.len(),
        k % 2 == 0,
        decode_entries(rs) is Some,
    ensures
        decode_entries(rs.take(k)) is Some,
    decreases rs.len(),
{
    if k == rs.len() {
        assert(rs.take(k) =~= rs);
    } else {
        if rs.len() % 2 == 1 {
            lemma_decode_entries_odd(rs);
        }
        let pre = rs.take(rs.len() - 2);
        assert(pre.take(k) =~= rs.take(k));
        lemma_decode_entries_prefix(pre, k);
    }
}

/// A read request: the number set for `name`.
pub struct Lookup {
    pub name: Vec<u8>,
}

impl View for Lookup {
    type V = Seq<u8>;

    open spec fn view(&self) -> Seq<u8> {
        self.name@
    }
}

/// A write request: set `name` to `value`.
pub struct Assign {
    pub name: Vec<u8>,
    pub value: u32,
}

impl View for Assign {
    type V = (Seq<u8>, u32);

    open spec fn view(&self) -> (Seq<u8>, u32) {
        (self.name@, self.value)
    }
}

struct Entry {
    name: Vec<u8>,
    value: u32,
}

impl View for Entry {
    type V = (Seq<u8>, u32);

    closed spec fn view(&self) -> (Seq<u8>, u32) {
        (self.name@, self.value)
    }
}

/// Names with the numbers set for them.
pub struct Registry {
    entries: Vec<Entry>,
}

impl View for Registry {
    type V = Seq<(Seq<u8>, u32)>;

    closed spec fn view(&self) -> Seq<(Seq<u8>, u32)> {
        self.entries@.map_values(|e: Entry| e@)
    }
}

fn same_bytes(a: &[u8], b: &[u8]) -> (r: bool)
    ensures
        r == (a@ == b@),
{
    if a.len() != b.len() {
        return false;
    }
    let mut i: usize = 0;
    while i < a.len()
        invariant
            a@.len() == b@.len(),
            i <= a@.len(),
            forall|j: int| 0 <= j < i ==> a@[j] == b@[j],
        decreases a@.len() - i,
    {
        if a[i] != b[i] {
            return false;
        }
        i = i + 1;
    }
    assert(a@ =~= b@);
    true
}

impl Registry {
    /// A registry with no names.
    pub fn new() -> (r: Registry)
        ensures
            r@ == Seq::<(Seq<u8>, u32)>::empty(),
    {
        let r = Registry { entries: Vec::new() };
        assert(r@ =~= Seq::<(Seq<u8>, u32)>::empty());
        r
    }

    fn position(&self, name: &[u8]) -> (r: Option<usize>)
        ensures
            match r {
                Some(i) => find(self@, name@) == Some(i as int),
                None => find(self@, name@) is None,
            },
    {
        let mut i = self.entries.len();
        assert(self@.take(i as int) =~= self@);
        while i > 0
            invariant
                i <= self@.len(),
                self@.len() == self.entries@.len(),
                find(self@, name@) == find(self@.take(i as int), name@),
            decreases i,
        {
            let j = i - 1;
            let ghost upto = self@.take(i as int);
            assert(upto.last() == self.entries@[j as int]@);
            assert(upto.drop_last() =~= self@.take(j as int));
            if same_bytes(self.entries[j].name.as_slice(), name) {
                return Some(j);
            }
            i = j;
        }
        None
    }

    /// Whether some name comes twice.
    fn has_duplicates(&self) -> (r: bool)
        ensures
            r == !distinct(self@),
    {
        let len = self.entries.len();
        let mut i: usize = 0;
        while i < len
            invariant
                len == self@.len(),
                self@.len() == self.entries@.len(),
                i <= len,
                forall|a: int, b: int| 0 <= a < b < i ==> self@[a].0 != self@[b].0,
            decreases len - i,
        {
            let mut j: usize = 0;
            while j < i
                invariant
                    len == self@.len(),
                    self@.len() == self.entries@.len(),
                    j <= i < len,
                    forall|a: int| 0 <= a < j ==> self@[a].0 != self@[i as int].0,
                decreases i - j,
            {
                assert(self@[j as int] == self.entries@[j as int]@);
                assert(self@[i as int] == self.entries@[i as int]@);
                if same_bytes(self.entries[j].name.as_slice(), self.entries[i].name.as_slice()) {
                    return true;
                }
                j = j + 1;
            }
            i = i + 1;
        }
        false
    }

    /// Appends an entry; the entries then end with it.
    fn set_new(&mut self, name: Vec<u8>, value: u32)
        requires
            find(old(self)@, name@) is None,
        ensures
            final(self)@ == old(self)@.push((name@, value)),
    {
        self.entries.push(Entry { name, value });
        assert(self@ =~= old(self)@.push((name@, value)));
    }

    /// The number set for `name`, if any.
    pub fn get(&self, name: &[u8]) -> (r: Option<u32>)
        ensures
            r == lookup(self@, name@),
    {
        proof {
            lemma_find_bounds(self@, name@);
        }
        match self.position(name) {
            Some(i) => Some(self.entries[i].value),
            None => None,
        }
    }

    /// Sets `name` to `value`, in place where the name is already set.
    pub fn set(&mut self, name: Vec<u8>, value: u32)
        ensures
            final(self)@ == assign(old(self)@, name@, value),
    {
        proof {
            lemma_find_bounds(self@, name@);
        }
        match self.position(name.as_slice()) {
            Some(i) => {
                let ghost n = name@;
                self.entries.set(i, Entry { name, value });
                assert(self@ =~= old(self)@.update(i as int, (n, value)));
            },
            None => {
                self.entries.push(Entry { name, value });
                assert(self@ =~= old(self)@.push((name@, value)));
            },
        }
    }
}

impl Acidic for Registry {
    type QueryEvent = Lookup;

    type QueryOutput = Option<u32>;

    type UpdateEvent = Assign;

    type UpdateOutput = ();

    open spec fn query_spec(s: Seq<(Seq<u8>, u32)>, event: Seq<u8>) -> Option<u32> {
        lookup(s, event)
    }

    open spec fn update_spec(s: Seq<(Seq<u8>, u32)>, event: (Seq<u8>, u32)) -> (
        Seq<(Seq<u8>, u32)>,
        (),
    ) {
        (assign(s, event.0, event.1), ())
    }

    open spec fn initial_spec() -> Seq<(Seq<u8>, u32)> {
        Seq::empty()
    }

    open spec fn encode_state_spec(s: Seq<(Seq<u8>, u32)>) -> Option<Seq<u8>> {
        entries_bytes(s)
    }

    open spec fn decode_state_spec(bytes: Seq<u8>) -> Option<Seq<(Seq<u8>, u32)>> {
        entries_of(bytes)
    }

    open spec fn encode_update_spec(event: (Seq<u8>, u32)) -> Option<Seq<u8>> {
        assign_bytes(event.0, event.1)
    }

    open spec fn decode_update_spec(bytes: Seq<u8>) -> Option<(Seq<u8>, u32)> {
        assign_of(bytes)
    }

    proof fn lemma_state_round_trip(s: Seq<(Seq<u8>, u32)>) {
        if names_fit(s) && distinct(s) {
            lemma_entry_records(s);
            lemma_parse_frames(entry_records(s));
        }
    }

    proof fn lemma_update_round_trip(event: (Seq<u8>, u32)) {
        let (n, v) = event;
        if n.len() <= u64::MAX {
            lemma_number_round_trip(v);
            let rs = seq![n, be_bytes(v as u64)];
            assert(fits(rs));
            lemma_parse_frames(rs);
        }
    }

    fn run_query(&self, event: Lookup) -> (r: Option<u32>) {
        self.get(event.name.as_slice())
    }

    fn run_update(&mut self, event: Assign) -> (r: ()) {
        self.set(event.name, event.value)
    }

    fn initial() -> (r: Registry) {
        Registry::new()
    }

    fn encode_state(&self) -> (r: Option<Vec<u8>>) {
        if self.has_duplicates() {
            return None;
        }
        let mut out: Vec<u8> = Vec::new();
        let mut i: usize = 0;
        while i < self.entries.len()
            invariant
                i <= self.entries@.len(),
                self@.len() == self.entries@.len(),
                names_fit(self@.take(i as int)),
                out@ == frames(entry_records(self@.take(i as int))),
            decreases self.entries@.len() - i,
        {
            let entry = &self.entries[i];
            let n = entry.name.len();
            let mut name = frame_record(entry.name.as_slice());
            let number = encode_be_u64(entry.value as u64);
            let mut value = frame_record(number.as_slice());
            proof {
                let pre = self@.take(i as int);
                let next = self@.take(i as int + 1);
                assert(next.drop_last() =~= pre);
                assert(next.last() == entry@);
                lemma_frames_append_pair(entry_records(pre), entry.name@, number@);
                assert(names_fit(next)) by {
                    assert forall|j: int| 0 <= j < next.len() implies next[j].0.len()
                        <= u64::MAX by {
                        if j < pre.len() {
                            assert(next[j] == pre[j]);
                        } else {
                            assert(entry.name@.len() == n);
                        }
                    }
                }
            }
            out.append(&mut name);
            out.append(&mut value);
            i = i + 1;
        }
        assert(self@.take(i as int) =~= self@);
        Some(out)
    }

    fn decode_state(bytes: &[u8]) -> (r: Option<Registry>) {
        let records = match parse_journal(bytes) {
            Ok(rs) => rs,
            Err(_) => return None,
        };
        let ghost rs = views(records@);
        if records.len() % 2 != 0 {
            proof {
                lemma_decode_entries_odd(rs);
            }
            return None;
        }
        let mut reg = Registry::new();
        let mut k: usize = 0;
        while k < records.len()
            invariant
                rs == views(records@),
                parse(bytes@) == Some(rs),
                rs.len() % 2 == 0,
                k % 2 == 0,
                k <= rs.len(),
                decode_entries(rs.take(k as int)) == Some(reg@),
            decreases records.len() - k,
        {
            let ghost next = rs.take(k as int + 2);
            proof {
                assert(next.take(next.len() - 2) =~= rs.take(k as int));
                assert(next.last() == records@[k + 1]@);
                assert(next[next.len() - 2] == records@[k as int]@);
            }
            let number = &records[k + 1];
            if number.len() != 8 {
                proof {
                    if decode_entries(rs) is Some {
                        lemma_decode_entries_prefix(rs, k as int + 2);
                    }
                }
                return None;
            }
            let v = decode_be_u64(number.as_slice());
            if v > u32::MAX as u64 {
                proof {
                    if decode_entries(rs) is Some {
                        lemma_decode_entries_prefix(rs, k as int + 2);
                    }
                }
                return None;
            }
            let name = slice_to_vec(records[k].as_slice());
            if reg.position(name.as_slice()).is_some() {
                proof {
                    if decode_entries(rs) is Some {
                        lemma_decode_entries_prefix(rs, k as int + 2);
                    }
                }
                return None;
            }
            reg.set_new(name, v as u32);
            k = k + 2;
        }
        assert(rs.take(k as int) =~= rs);
        Some(reg)
    }

    fn encode_update(event: &Assign) -> (r: Option<Vec<u8>>) {
        let n = event.name.len();
        let mut out = frame_record(event.name.as_slice());
        let number = encode_be_u64(event.value as u64);
        let mut value = frame_record(number.as_slice());
        out.append(&mut value);
        proof {
            lemma_frames_pair(event.name@, number@);
            assert(event.name@.len() == n);
        }
        Some(out)
    }

    fn decode_update(bytes: &[u8]) -> (r: Option<Assign>) {
        let records = match parse_journal(bytes) {
            Ok(rs) => rs,
            Err(_) => return None,
        };
        if records.len() != 2 || records[1].len() != 8 {
            return None;
        }
        let v = decode_be_u64(records[1].as_slice());
        if v > u32::MAX as u64 {
            return None;
        }
        proof {
            assert(views(records@)[1] == records@[1]@);
            assert(views(records@)[0] == records@[0]@);
        }
        Some(Assign { name: slice_to_vec(records[0].as_slice()), value: v as u32 })
    }
}

} // verus!
