//! The wave engine: a wavelet's live CRDT document (materialized from its
//! snapshot and log tail, updated, diffed against a peer's state vector),
//! the snapshot cadence, fan-out events, and the awareness cache replayed
//! to new subscribers.

use vstd::prelude::*;
use crate::store::WaveletRecord;
use crate::id::WaveletName;
use crate::wire::append_bytes;
use yrs::updates::decoder::Decode;
use yrs::updates::encoder::Encode;
use yrs::{ReadTxn, Transact};
use crate::agent::{AgentBlip, opt_view};

verus! {

/// A snapshot is written every this many updates, so opening a wavelet
/// reads a bounded tail.
pub const SNAPSHOT_INTERVAL: u64 = 500;

/// Why an engine operation failed.
#[derive(Debug)]
pub enum EngineError {
    NotFound,
    /// The bytes are not a valid update or state vector.
    BadPayload(String),
    /// Storage failed.
    Io(String),
}

/// What a wavelet's subscribers receive.
#[derive(Debug)]
pub enum EventKind {
    Update(Vec<u8>),
    Awareness(Vec<u8>),
}

/// A fan-out event; `from` is the connection it came from, which skips it.
#[derive(Debug)]
pub struct WaveletEvent {
    pub from: u64,
    pub kind: EventKind,
}

/// Whether the update that brought the log to `count` entries is followed
/// by a snapshot.
pub fn should_snapshot(count: u64) -> (b: bool)
    ensures
        b == (count % SNAPSHOT_INTERVAL == 0),
{
    count % SNAPSHOT_INTERVAL == 0
}

/// The latest awareness payload of each connection on a wavelet, kept in
/// order of first arrival.
#[derive(Debug)]
pub struct AwarenessCache {
    entries: Vec<(u64, Vec<u8>)>,
}

/// No connection appears twice.
pub open spec fn conns_unique(s: Seq<(u64, Seq<u8>)>) -> bool {
    forall|i: int, j: int| 0 <= i < j < s.len() ==> (#[trigger] s[i]).0 != (#[trigger] s[j]).0
}

/// Index of a connection's entry, or -1.
pub open spec fn conn_index(s: Seq<(u64, Seq<u8>)>, conn: u64) -> int
    decreases s.len(),
{
    if s.len() == 0 {
        -1
    } else if s.last().0 == conn {
        s.len() - 1
    } else {
        conn_index(s.drop_last(), conn)
    }
}

proof fn lemma_conn_index(s: Seq<(u64, Seq<u8>)>, conn: u64)
    ensures
        -1 <= conn_index(s, conn) < s.len(),
        conn_index(s, conn) >= 0 ==> s[conn_index(s, conn)].0 == conn,
        conn_index(s, conn) == -1 ==> forall|i: int| 0 <= i < s.len() ==> (#[trigger] s[i]).0 != conn,
    decreases s.len(),
{
    if s.len() > 0 && s.last().0 != conn {
        lemma_conn_index(s.drop_last(), conn);
        if conn_index(s, conn) == -1 {
            assert forall|i: int| 0 <= i < s.len() implies (#[trigger] s[i]).0 != conn by {
                if i < s.len() - 1 {
                    assert(s[i] == s.drop_last()[i]);
                }
            }
        }
    }
}

impl AwarenessCache {
    /// The cached (connection, payload) pairs.
    pub closed spec fn entries(&self) -> Seq<(u64, Seq<u8>)> {
        self.entries@.map_values(|e: (u64, Vec<u8>)| (e.0, e.1@))
    }

    /// Well-formed: one entry per connection.
    pub open spec fn wf(&self) -> bool {
        conns_unique(self.entries())
    }

    pub fn new() -> (c: Self)
        ensures
            c.wf(),
            c.entries() == Seq::<(u64, Seq<u8>)>::empty(),
    {
        let c = AwarenessCache { entries: Vec::new() };
        assert(c.entries() =~= Seq::<(u64, Seq<u8>)>::empty());
        c
    }

    fn position(&self, conn: u64) -> (r: Option<usize>)
        ensures
            match r {
                Some(i) => i < self.entries().len() && conn_index(self.entries(), conn) == i,
                None => conn_index(self.entries(), conn) == -1,
            },
    {
        let ghost v = self.entries();
        let mut i = self.entries.len();
        assert(v.take(i as int) =~= v);
        while i > 0
            invariant
                i <= self.entries.len(),
                v == self.entries(),
                conn_index(v, conn) == conn_index(v.take(i as int), conn),
            decreases i,
        {
            assert(v.take(i as int).last() == v[i - 1]);
            if self.entries[i - 1].0 == conn {
                return Some(i - 1);
            }
            assert(v.take(i as int).drop_last() =~= v.take(i - 1));
            i -= 1;
        }
        None
    }

    /// Records a connection's latest awareness payload.
    pub fn set(&mut self, conn: u64, payload: Vec<u8>)
        requires
            old(self).wf(),
        ensures
            final(self).wf(),
            final(self).entries() == ({
                let s = old(self).entries();
                let i = conn_index(s, conn);
                if i >= 0 { s.update(i, (conn, payload@)) } else { s.push((conn, payload@)) }
            }),
    {
        let ghost s = self.entries();
        proof { lemma_conn_index(s, conn); }
        match self.position(conn) {
            Some(i) => {
                let ghost p = payload@;
                self.entries.set(i, (conn, payload));
                assert(self.entries() =~= s.update(i as int, (conn, p)));
            },
            None => {
                let ghost p = payload@;
                self.entries.push((conn, payload));
                assert(self.entries() =~= s.push((conn, p)));
            },
        }
        assert forall|a: int, b: int| 0 <= a < b < self.entries().len() implies (#[trigger] self.entries()[a]).0
            != (#[trigger] self.entries()[b]).0 by {
            if b < s.len() {
                assert(s[a].0 != s[b].0 || a == b);
            }
        }
    }

    /// Forgets a connection.
    pub fn drop_conn(&mut self, conn: u64)
        requires
            old(self).wf(),
        ensures
            final(self).wf(),
            final(self).entries() == ({
                let s = old(self).entries();
                let i = conn_index(s, conn);
                if i >= 0 { s.remove(i) } else { s }
            }),
    {
        let ghost s = self.entries();
        proof { lemma_conn_index(s, conn); }
        match self.position(conn) {
            Some(i) => {
                self.entries.remove(i);
                assert(self.entries() =~= s.remove(i as int));
                assert forall|a: int, b: int| 0 <= a < b < self.entries().len() implies (#[trigger] self.entries()[a]).0
                    != (#[trigger] self.entries()[b]).0 by {
                    let aa = if a < i { a } else { a + 1 };
                    let bb = if b < i { b } else { b + 1 };
                    assert(self.entries()[a] == s[aa]);
                    assert(self.entries()[b] == s[bb]);
                }
            },
            None => {},
        }
    }

    /// Every cached payload, in order (replayed to a new subscriber).
    pub fn cached(&self) -> (r: Vec<Vec<u8>>)
        ensures
            r@.map_values(|p: Vec<u8>| p@) == self.entries().map_values(|e: (u64, Seq<u8>)| e.1),
    {
        let mut r: Vec<Vec<u8>> = Vec::new();
        let mut i: usize = 0;
        let ghost v = self.entries().map_values(|e: (u64, Seq<u8>)| e.1);
        while i < self.entries.len()
            invariant
                i <= self.entries.len(),
                v == self.entries().map_values(|e: (u64, Seq<u8>)| e.1),
                r@.map_values(|p: Vec<u8>| p@) == v.take(i as int),
            decreases self.entries.len() - i,
        {
            let mut p: Vec<u8> = Vec::new();
            append_bytes(&mut p, self.entries[i].1.as_slice());
            let ghost before = r@;
            assert(v[i as int] == self.entries@[i as int].1@);
            assert(p@ == v[i as int]);
            r.push(p);
            assert(r@.map_values(|p: Vec<u8>| p@) =~= before.map_values(|p: Vec<u8>| p@).push(v[i as int]));
            assert(v.take(i + 1) =~= v.take(i as int).push(v[i as int]));
            i += 1;
        }
        assert(v.take(i as int) =~= v);
        r
    }
}

// ---------------------------------------------------------------------------
// Live documents
// ---------------------------------------------------------------------------

#[verifier::external_type_specification]
#[verifier::external_body]
pub struct ExDoc(yrs::Doc);

/// Whether `Update::decode_v1` accepts these bytes.
pub uninterp spec fn yrs_update_decodes(bytes: Seq<u8>) -> bool;

/// Whether `StateVector::decode_v1` accepts these bytes.
pub uninterp spec fn yrs_state_vector_decodes(bytes: Seq<u8>) -> bool;

/// What a document holds: the updates applied to it since it was created,
/// in order, a local transaction counting as the update it commits. A
/// document's state is a function of them.
pub uninterp spec fn doc_history(doc: yrs::Doc) -> Seq<Seq<u8>>;

/// Whether yrs builds a document from these updates (each one that decodes
/// applied in turn) and encodes its state without panicking. Integration
/// panics on some crafted updates that decode, e.g. one that links an item
/// under a block that is not a shared type.
pub uninterp spec fn yrs_integrates(history: Seq<Seq<u8>>) -> bool;

/// Every prefix of the history integrates.
pub open spec fn yrs_sound(history: Seq<Seq<u8>>) -> bool {
    forall|k: int| 0 <= k <= history.len() ==> #[trigger] yrs_integrates(history.take(k))
}

pub proof fn lemma_sound_prefix(history: Seq<Seq<u8>>, n: int)
    requires
        yrs_sound(history),
        0 <= n <= history.len(),
    ensures
        yrs_sound(history.take(n)),
{
    assert forall|k: int| 0 <= k <= history.take(n).len() implies #[trigger] yrs_integrates(history.take(n).take(k)) by {
        assert(history.take(n).take(k) =~= history.take(k));
        assert(yrs_integrates(history.take(k)));
    }
}

/// Whether `update` integrates after `history`, every prefix of which does.
pub open spec fn integrates_after(history: Seq<Seq<u8>>, update: Seq<u8>) -> bool {
    yrs_integrates(history.push(update))
}

pub proof fn lemma_sound_push(history: Seq<Seq<u8>>, update: Seq<u8>)
    requires
        yrs_sound(history),
        integrates_after(history, update),
    ensures
        yrs_sound(history.push(update)),
{
    let h2 = history.push(update);
    assert forall|k: int| 0 <= k <= h2.len() implies #[trigger] yrs_integrates(h2.take(k)) by {
        if k <= history.len() {
            assert(h2.take(k) =~= history.take(k));
        } else {
            assert(h2.take(k) =~= h2);
        }
    }
}

/// `state_vector().encode_v1()` of a document built from these updates.
pub uninterp spec fn yrs_state_vector_of(history: Seq<Seq<u8>>) -> Seq<u8>;

/// `encode_diff_v1` of a document built from these updates, against the
/// state vector these bytes decode to: what a peer at that state misses.
pub uninterp spec fn yrs_diff_of(history: Seq<Seq<u8>>, state_vector: Seq<u8>) -> Seq<u8>;

/// `encode_state_as_update_v1` from the empty state vector, of a document
/// built from these updates: its whole state as one update.
pub uninterp spec fn yrs_full_state_of(history: Seq<Seq<u8>>) -> Seq<u8>;

/// `Doc::new()`: a document with nothing applied, which encodes.
#[verifier::external_body]
fn yrs_new_doc() -> (d: yrs::Doc)
    ensures
        doc_history(d) == Seq::<Seq<u8>>::empty(),
        yrs_integrates(doc_history(d)),
{
    yrs::Doc::new()
}

/// `Update::decode_v1`, then `TransactionMut::apply_update` in a write
/// transaction on `doc`. When the bytes do not decode it returns an error
/// and the document is untouched; when it returns Ok, the update was
/// applied; either way the document it leaves integrates. Only updates
/// that integrate after the document's history are admitted: on others
/// yrs panics.
#[verifier::external_body]
fn yrs_apply_update(doc: &mut yrs::Doc, update: &[u8]) -> (r: Result<(), String>)
    requires
        yrs_sound(doc_history(*old(doc)).push(update@)),
    ensures
        r is Ok ==> yrs_update_decodes(update@) && doc_history(*final(doc)) == doc_history(*old(doc)).push(
            update@,
        ),
        r is Err ==> !yrs_update_decodes(update@) && doc_history(*final(doc)) == doc_history(*old(doc)),
        yrs_integrates(doc_history(*final(doc))),
{
    match yrs::Update::decode_v1(update) {
        Ok(u) => {
            let mut txn = doc.transact_mut();
            txn.apply_update(u);
            Ok(())
        },
        Err(e) => Err(e.to_string()),
    }
}

/// `StateVector::decode_v1` of `state_vector` (the single byte 0 is the
/// empty state vector, which decodes), then, in a read transaction on
/// `doc`, its state vector (`encode_v1`, which decodes again) and
/// `encode_diff_v1` against it.
#[verifier::external_body]
fn yrs_sync(doc: &yrs::Doc, state_vector: &[u8]) -> (r: Result<(Vec<u8>, Vec<u8>), String>)
    requires
        yrs_sound(doc_history(*doc)),
    ensures
        r is Ok <==> yrs_state_vector_decodes(state_vector@),
        state_vector@ == seq![0u8] ==> r is Ok,
        r matches Ok((sv, diff)) ==> sv@ == yrs_state_vector_of(doc_history(*doc)) && diff@ == yrs_diff_of(
            doc_history(*doc),
            state_vector@,
        ),
        r matches Ok((sv, diff)) ==> yrs_state_vector_decodes(sv@),
{
    match yrs::StateVector::decode_v1(state_vector) {
        Ok(sv) => {
            let txn = doc.transact();
            Ok((txn.state_vector().encode_v1(), txn.encode_diff_v1(&sv)))
        },
        Err(e) => Err(e.to_string()),
    }
}

/// In a read transaction on `doc`: `encode_state_as_update_v1` from the
/// empty state vector, the whole document as one update.
#[verifier::external_body]
fn yrs_full_state(doc: &yrs::Doc) -> (r: Vec<u8>)
    requires
        yrs_sound(doc_history(*doc)),
    ensures
        r@ == yrs_full_state_of(doc_history(*doc)),
{
    let txn = doc.transact();
    txn.encode_state_as_update_v1(&yrs::StateVector::default())
}

/// A document changed by one local transaction: its history grew by the
/// update that transaction committed, which decodes.
pub open spec fn local_edit(before: Seq<Seq<u8>>, after: Seq<Seq<u8>>) -> bool {
    exists|u: Seq<u8>| yrs_update_decodes(u) && after == #[trigger] before.push(u)
}

proof fn lemma_sound_edit(before: Seq<Seq<u8>>, after: Seq<Seq<u8>>)
    requires
        yrs_sound(before),
        local_edit(before, after),
        yrs_integrates(after),
    ensures
        yrs_sound(after),
        before == after.take(before.len() as int),
        after.len() == before.len() + 1,
{
    let u = choose|u: Seq<u8>| yrs_update_decodes(u) && after == #[trigger] before.push(u);
    lemma_sound_push(before, u);
    assert(after.take(before.len() as int) =~= before);
}

/// The entries of the root array `root` of a document built from these
/// updates, each read by its `id`, `author`, `ts` and `parent` fields
/// (`parent` is None where it holds null).
pub uninterp spec fn yrs_manifest(history: Seq<Seq<u8>>, root: Seq<char>) -> Seq<(Seq<char>, Seq<char>, int, Option<Seq<char>>)>;

/// The XML fragment under `key` in the root map `root` of a document built
/// from these updates, as the tag and the text of each of its elements
/// (None for an element without text); None when no fragment is there.
pub uninterp spec fn yrs_fragment(history: Seq<Seq<u8>>, root: Seq<char>, key: Seq<char>) -> Option<Seq<(Seq<char>, Option<Seq<char>>)>>;

pub open spec fn opt_string_views(s: Seq<Option<String>>) -> Seq<Option<Seq<char>>> {
    s.map_values(|o: Option<String>| opt_view(o))
}

/// The largest integer a JSON number (an `f64`) holds exactly.
pub const MAX_SAFE_INTEGER: u64 = 9007199254740991;

/// `get_or_insert_map(root)`, then, in a write transaction, `insert` under
/// `key` of an `XmlFragmentPrelim` holding one element tagged `tag` per
/// line, each with an `XmlTextPrelim` child when the line has (non-empty)
/// text. One
/// local transaction; the fragment then reads back as those elements, and
/// no root array changes (the map's entries are not its sequence).
#[verifier::external_body]
fn yrs_put_fragment(doc: &mut yrs::Doc, root: &str, key: &str, tag: &str, lines: Vec<Option<String>>)
    requires
        yrs_sound(doc_history(*old(doc))),
        forall|i: int| 0 <= i < lines.len() ==> (#[trigger] lines@[i] matches Some(t) ==> t@.len() > 0),
    ensures
        local_edit(doc_history(*old(doc)), doc_history(*final(doc))),
        yrs_integrates(doc_history(*final(doc))),
        yrs_fragment(doc_history(*final(doc)), root@, key@) == Some(
            opt_string_views(lines@).map_values(|l: Option<Seq<char>>| (tag@, l)),
        ),
        forall|m: Seq<char>|
            #[trigger] yrs_manifest(doc_history(*final(doc)), m) == yrs_manifest(doc_history(*old(doc)), m),
{
    let map = doc.get_or_insert_map(root);
    let els: Vec<_> = lines.into_iter().map(|l| yrs::XmlElementPrelim::new(tag, l.map(yrs::XmlTextPrelim::new))).collect();
    let mut txn = doc.transact_mut();
    yrs::Map::insert(&map, &mut txn, key, yrs::XmlFragmentPrelim::new(els));
}

/// `get_or_insert_array(root)`, then, in a write transaction, `push_back`
/// of an `Any::Map` with `id`, `author`, `ts` (`Any::from` an `i64`, a
/// number when it is a safe integer) and `parent` (null when absent). One
/// local transaction; the array gains that entry at its end, other root
/// arrays and every fragment stay as they were.
#[verifier::external_body]
fn yrs_push_entry(doc: &mut yrs::Doc, root: &str, id: &str, author: &str, ts: u64, parent: Option<&str>)
    requires
        yrs_sound(doc_history(*old(doc))),
        ts <= MAX_SAFE_INTEGER,
    ensures
        local_edit(doc_history(*old(doc)), doc_history(*final(doc))),
        yrs_integrates(doc_history(*final(doc))),
        yrs_manifest(doc_history(*final(doc)), root@) == yrs_manifest(doc_history(*old(doc)), root@).push(
            (id@, author@, ts as int, match parent {
                Some(p) => Some(p@),
                None => None,
            }),
        ),
        forall|m: Seq<char>|
            m != root@ ==> #[trigger] yrs_manifest(doc_history(*final(doc)), m) == yrs_manifest(
                doc_history(*old(doc)),
                m,
            ),
        forall|r: Seq<char>, k: Seq<char>|
            #[trigger] yrs_fragment(doc_history(*final(doc)), r, k) == yrs_fragment(doc_history(*old(doc)), r, k),
{
    let arr = doc.get_or_insert_array(root);
    let mut e: std::collections::HashMap<String, yrs::Any> = std::collections::HashMap::new();
    e.insert("id".to_owned(), yrs::Any::from(id));
    e.insert("author".to_owned(), yrs::Any::from(author));
    e.insert("ts".to_owned(), yrs::Any::from(ts as i64));
    e.insert("parent".to_owned(), parent.map_or(yrs::Any::Null, yrs::Any::from));
    let mut txn = doc.transact_mut();
    yrs::Array::push_back(&arr, &mut txn, yrs::Any::Map(std::sync::Arc::new(e)));
}

/// The state vector a sync request stands for: an empty one means the
/// empty state vector, encoded as the byte 0.
pub open spec fn effective_state_vector(client_sv: Seq<u8>) -> Seq<u8> {
    if client_sv.len() == 0 { seq![0u8] } else { client_sv }
}

pub open spec fn opt_bytes(o: Option<Vec<u8>>) -> Option<Seq<u8>> {
    match o {
        Some(v) => Some(v@),
        None => None,
    }
}

/// The updates a record is materialized from: the snapshot, then the tail.
pub open spec fn record_updates(snapshot: Option<Seq<u8>>, tail: Seq<Seq<u8>>) -> Seq<Seq<u8>> {
    match snapshot {
        Some(s) => seq![s] + tail,
        None => tail,
    }
}

pub open spec fn all_decode(us: Seq<Seq<u8>>) -> bool {
    forall|i: int| 0 <= i < us.len() ==> yrs_update_decodes(#[trigger] us[i])
}

/// An open wavelet: its name, its document, the number of updates its log
/// holds, and the awareness of its subscribers.
pub struct LiveWavelet {
    pub name: WaveletName,
    doc: yrs::Doc,
    count: u64,
    awareness: AwarenessCache,
}

/// What applying a client update leaves to do: the log's new length and,
/// when one is due, the snapshot to write.
#[derive(Debug)]
pub struct Applied {
    pub count: u64,
    pub snapshot: Option<Vec<u8>>,
}

impl LiveWavelet {
    /// The number of updates the wavelet's log holds.
    pub closed spec fn updates(&self) -> u64 {
        self.count
    }

    /// The updates the document was built from, in order.
    pub closed spec fn history(&self) -> Seq<Seq<u8>> {
        doc_history(self.doc)
    }

    /// The wavelet's name.
    pub closed spec fn wavelet(&self) -> WaveletName {
        self.name
    }

    /// The cached awareness payloads, by connection, in order of arrival.
    pub closed spec fn awareness_view(&self) -> Seq<(u64, Seq<u8>)> {
        self.awareness.entries()
    }

    /// The awareness cache is well formed and the document's history
    /// integrates.
    pub closed spec fn wf(&self) -> bool {
        self.awareness.wf() && yrs_sound(doc_history(self.doc))
    }

    pub fn update_count(&self) -> (n: u64)
        ensures
            n == self.updates(),
    {
        self.count
    }

    /// Materializes a wavelet from its snapshot and log tail; a record that
    /// does not decode is a bad payload. A record whose updates decode but do
    /// not integrate makes yrs panic; it is not admitted.
    pub fn open(name: WaveletName, record: &WaveletRecord) -> (r: Result<LiveWavelet, EngineError>)
        requires
            yrs_sound(record_updates(opt_bytes(record.snapshot), record.tail@.map_values(|t: Vec<u8>| t@))),
        ensures
            match r {
                Ok(d) => all_decode(
                    record_updates(opt_bytes(record.snapshot), record.tail@.map_values(|t: Vec<u8>| t@)),
                ) && d.updates() == record.total_updates && d.wavelet()@ == name@ && d.wf() && d.history()
                    == record_updates(opt_bytes(record.snapshot), record.tail@.map_values(|t: Vec<u8>| t@))
                    && d.awareness_view() == Seq::<(u64, Seq<u8>)>::empty(),
                Err(e) => e is BadPayload && !all_decode(
                    record_updates(opt_bytes(record.snapshot), record.tail@.map_values(|t: Vec<u8>| t@)),
                ),
            },
    {
        let ghost tail = record.tail@.map_values(|t: Vec<u8>| t@);
        let ghost all = record_updates(opt_bytes(record.snapshot), tail);
        let mut doc = yrs_new_doc();
        let ghost mut done: int = 0;
        match &record.snapshot {
            Some(s) => {
                proof {
                    lemma_sound_prefix(all, 1);
                    assert(all.take(1) =~= doc_history(doc).push(s@));
                }
                match yrs_apply_update(&mut doc, s.as_slice()) {
                    Ok(()) => {},
                    Err(m) => {
                        assert(!yrs_update_decodes(all[0]));
                        return Err(EngineError::BadPayload(m));
                    },
                }
                proof { done = 1; }
                assert(doc_history(doc) =~= all.take(1));
            },
            None => {},
        }
        assert(doc_history(doc) =~= all.take(done));
        let mut i: usize = 0;
        while i < record.tail.len()
            invariant
                i <= record.tail.len(),
                tail == record.tail@.map_values(|t: Vec<u8>| t@),
                all == record_updates(opt_bytes(record.snapshot), tail),
                done == (if record.snapshot is Some { 1int } else { 0int }),
                all.len() == done + tail.len(),
                forall|k: int| 0 <= k < done + i ==> yrs_update_decodes(#[trigger] all[k]),
                forall|k: int| 0 <= k < tail.len() ==> #[trigger] all[done + k] == tail[k],
                doc_history(doc) == all.take(done + i),
                yrs_sound(all),
            decreases record.tail.len() - i,
        {
            proof {
                lemma_sound_prefix(all, done + i + 1);
                assert(all[done + i] == tail[i as int]);
                assert(all.take(done + i + 1) =~= all.take(done + i).push(all[done + i]));
            }
            match yrs_apply_update(&mut doc, record.tail[i].as_slice()) {
                Ok(()) => {},
                Err(m) => {
                    assert(all[done + i] == tail[i as int]);
                    return Err(EngineError::BadPayload(m));
                },
            }
            assert(all[done + i] == tail[i as int]);
            assert(all.take(done + i + 1) =~= all.take(done + i).push(all[done + i]));
            i += 1;
        }
        assert(all.take(done + i) =~= all);
        proof {
            lemma_sound_prefix(all, all.len() as int);
            assert(all.take(all.len() as int) =~= all);
        }
        Ok(LiveWavelet { name, doc, count: record.total_updates, awareness: AwarenessCache::new() })
    }

    /// Applies a client update: an update that does not decode is a bad
    /// payload and changes nothing; else the log grows by one, and every
    /// `SNAPSHOT_INTERVAL` updates the whole state is handed back to be
    /// written as the snapshot covering them. An update that decodes but
    /// does not integrate makes yrs panic; it is not admitted.
    pub fn apply(&mut self, update: &[u8]) -> (r: Result<Applied, EngineError>)
        requires
            old(self).wf(),
            old(self).updates() < u64::MAX,
            integrates_after(old(self).history(), update@),
        ensures
            match r {
                Ok(a) => {
                    &&& yrs_update_decodes(update@)
                    &&& a.count == old(self).updates() + 1
                    &&& final(self).updates() == a.count
                    &&& final(self).history() == old(self).history().push(update@)
                    &&& (a.snapshot is Some <==> a.count % SNAPSHOT_INTERVAL == 0)
                    &&& (a.snapshot matches Some(snap) ==> snap@ == yrs_full_state_of(final(self).history()))
                },
                Err(e) => e is BadPayload && !yrs_update_decodes(update@) && final(self).updates()
                    == old(self).updates() && final(self).history() == old(self).history(),
            },
            final(self).wavelet() == old(self).wavelet(),
            final(self).awareness_view() == old(self).awareness_view(),
            final(self).wf(),
    {
        proof {
            lemma_sound_push(doc_history(self.doc), update@);
        }
        match yrs_apply_update(&mut self.doc, update) {
            Ok(()) => {},
            Err(m) => return Err(EngineError::BadPayload(m)),
        }
        self.count = self.count + 1;
        let snapshot = if should_snapshot(self.count) {
            Some(yrs_full_state(&self.doc))
        } else {
            None
        };
        Ok(Applied { count: self.count, snapshot })
    }

    /// This document's state vector and the diff a peer at `client_sv` is
    /// missing; an empty `client_sv` stands for an empty document (the
    /// encoded empty state vector, the byte 0), and one that does not
    /// decode is a bad payload.
    pub fn sync_state(&self, client_sv: &[u8]) -> (r: Result<(Vec<u8>, Vec<u8>), EngineError>)
        requires
            self.wf(),
        ensures
            r is Ok <==> (client_sv@.len() == 0 || yrs_state_vector_decodes(client_sv@)),
            r matches Err(e) ==> e is BadPayload,
            r matches Ok((sv, diff)) ==> sv@ == yrs_state_vector_of(self.history()) && diff@ == yrs_diff_of(
                self.history(),
                effective_state_vector(client_sv@),
            ),
    {
        let empty: [u8; 1] = [0u8];
        let wanted: &[u8] = if client_sv.len() == 0 {
            assert(empty@ =~= seq![0u8]);
            empty.as_slice()
        } else {
            client_sv
        };
        match yrs_sync(&self.doc, wanted) {
            Ok(pair) => Ok(pair),
            Err(m) => Err(EngineError::BadPayload(m)),
        }
    }

    /// Records a connection's latest awareness payload.
    pub fn set_awareness(&mut self, conn: u64, payload: Vec<u8>)
        requires
            old(self).wf(),
        ensures
            final(self).wf(),
            final(self).wavelet() == old(self).wavelet(),
            final(self).updates() == old(self).updates(),
            final(self).history() == old(self).history(),
            final(self).awareness_view() == ({
                let s = old(self).awareness_view();
                let i = conn_index(s, conn);
                if i >= 0 { s.update(i, (conn, payload@)) } else { s.push((conn, payload@)) }
            }),
    {
        self.awareness.set(conn, payload);
    }

    /// Forgets a connection's awareness.
    pub fn drop_awareness(&mut self, conn: u64)
        requires
            old(self).wf(),
        ensures
            final(self).wf(),
            final(self).wavelet() == old(self).wavelet(),
            final(self).updates() == old(self).updates(),
            final(self).history() == old(self).history(),
            final(self).awareness_view() == ({
                let s = old(self).awareness_view();
                let i = conn_index(s, conn);
                if i >= 0 { s.remove(i) } else { s }
            }),
    {
        self.awareness.drop_conn(conn);
    }

    /// Every cached awareness payload, in order (replayed to a newcomer).
    pub fn cached_awareness(&self) -> (r: Vec<Vec<u8>>)
        ensures
            r@.map_values(|p: Vec<u8>| p@) == self.awareness_view().map_values(|e: (u64, Seq<u8>)| e.1),
    {
        self.awareness.cached()
    }
}

/// The manifest entry of an agent blip.
pub open spec fn blip_entry(b: AgentBlip) -> (Seq<char>, Seq<char>, int, Option<Seq<char>>) {
    (b.id@, b.author@, b.ts as int, opt_view(b.parent))
}

/// The elements of an agent blip's fragment: a paragraph per line, with the
/// line's text unless it is empty.
pub open spec fn blip_elements(b: AgentBlip) -> Seq<(Seq<char>, Option<Seq<char>>)> {
    b.paragraphs@.map_values(|p: String| ("paragraph"@, if p@.len() == 0 { None } else { Some(p@) }))
}

/// Writes an agent's reply blip into the wavelet's document, as the web
/// client's document model has it: the blip's fragment under its id in the
/// `blips` map, a `paragraph` element per line, and its entry at the end of
/// the `manifest` array. Hands back the update that carries the blip (the
/// diff against the state before it) and, as for a client update, the
/// log's new length and the snapshot when one is due.
pub fn post_agent_blip(live: &mut LiveWavelet, b: &AgentBlip) -> (r: (Vec<u8>, Applied))
    requires
        old(live).wf(),
        old(live).updates() < u64::MAX,
        b.ts <= MAX_SAFE_INTEGER,
    ensures
        final(live).wf(),
        final(live).wavelet() == old(live).wavelet(),
        final(live).awareness_view() == old(live).awareness_view(),
        old(live).history() == final(live).history().take(old(live).history().len() as int),
        yrs_manifest(final(live).history(), "manifest"@) == yrs_manifest(old(live).history(), "manifest"@).push(
            blip_entry(*b),
        ),
        yrs_fragment(final(live).history(), "blips"@, b.id@) == Some(blip_elements(*b)),
        r.0@ == yrs_diff_of(final(live).history(), yrs_state_vector_of(old(live).history())),
        r.1.count == old(live).updates() + 1,
        final(live).updates() == r.1.count,
        r.1.snapshot is Some <==> r.1.count % SNAPSHOT_INTERVAL == 0,
        r.1.snapshot matches Some(snap) ==> snap@ == yrs_full_state_of(final(live).history()),
{
    let ghost h0 = doc_history(live.doc);
    let zero: [u8; 1] = [0u8];
    assert(zero@ =~= seq![0u8]);
    let sv = match yrs_sync(&live.doc, zero.as_slice()) {
        Ok(pair) => pair.0,
        Err(_) => {
            assert(false);
            Vec::new()
        },
    };
    let mut lines: Vec<Option<String>> = Vec::new();
    let mut i: usize = 0;
    while i < b.paragraphs.len()
        invariant
            i <= b.paragraphs.len(),
            opt_string_views(lines@) == b.paragraphs@.take(i as int).map_values(
                |p: String| if p@.len() == 0 { None::<Seq<char>> } else { Some(p@) },
            ),
        decreases b.paragraphs.len() - i,
    {
        let p = b.paragraphs[i].as_str();
        let ghost before = lines@;
        if p.unicode_len() == 0 {
            lines.push(None);
        } else {
            lines.push(Some(p.to_owned()));
        }
        assert(opt_string_views(lines@) =~= opt_string_views(before).push(
            if p@.len() == 0 { None::<Seq<char>> } else { Some(p@) },
        ));
        assert(b.paragraphs@.take(i + 1) =~= b.paragraphs@.take(i as int).push(b.paragraphs@[i as int]));
        i += 1;
    }
    assert(b.paragraphs@.take(i as int) =~= b.paragraphs@);
    assert(opt_string_views(lines@).map_values(|l: Option<Seq<char>>| ("paragraph"@, l)) =~= blip_elements(*b));
    assert forall|j: int| 0 <= j < lines.len() implies (#[trigger] lines@[j] matches Some(t) ==> t@.len() > 0) by {
        assert(opt_string_views(lines@)[j] == opt_view(lines@[j]));
        assert(b.paragraphs@.take(i as int)[j] == b.paragraphs@[j]);
    }
    yrs_put_fragment(&mut live.doc, "blips", b.id.as_str(), "paragraph", lines);
    let ghost h1 = doc_history(live.doc);
    proof {
        lemma_sound_edit(h0, h1);
    }
    let parent: Option<&str> = match &b.parent {
        Some(p) => Some(p.as_str()),
        None => None,
    };
    yrs_push_entry(&mut live.doc, "manifest", b.id.as_str(), b.author.as_str(), b.ts, parent);
    let ghost h2 = doc_history(live.doc);
    proof {
        lemma_sound_edit(h1, h2);
        assert(h2.take(h0.len() as int) =~= h1.take(h0.len() as int));
        assert(yrs_fragment(h2, "blips"@, b.id@) == yrs_fragment(h1, "blips"@, b.id@));
    }
    let diff = match yrs_sync(&live.doc, sv.as_slice()) {
        Ok(pair) => pair.1,
        Err(_) => {
            assert(false);
            Vec::new()
        },
    };
    live.count = live.count + 1;
    let snapshot = if should_snapshot(live.count) {
        Some(yrs_full_state(&live.doc))
    } else {
        None
    };
    (diff, Applied { count: live.count, snapshot })
}

} // verus!
