//! The embedded store's tables: accounts, sessions, waves, read marks,
//! attachment metadata and pinned peer keys, each keyed by a string. The
//! server writes them to disk after every change; update logs and
//! snapshots live in files of their own (see `store`).

use vstd::prelude::*;
use crate::id::{ParticipantId, participant_text, parse_participant, result_view};
use crate::store::{Account, AttachmentMeta, WaveMeta};
use crate::text::str_eq;
use crate::waves::{on_wave, is_participant};

verus! {

/// Rows of strings, by their text.
pub open spec fn text_rows(rows: Seq<(Seq<char>, String)>) -> Seq<(Seq<char>, Seq<char>)> {
    rows.map_values(|r: (Seq<char>, String)| (r.0, r.1@))
}

/// Index of the row keyed `k`, or -1.
pub open spec fn row_index<V>(rows: Seq<(Seq<char>, V)>, k: Seq<char>) -> int
    decreases rows.len(),
{
    if rows.len() == 0 {
        -1
    } else if rows.last().0 == k {
        rows.len() - 1
    } else {
        row_index(rows.drop_last(), k)
    }
}

/// The value stored under `k`.
pub open spec fn lookup<V>(rows: Seq<(Seq<char>, V)>, k: Seq<char>) -> Option<V> {
    let i = row_index(rows, k);
    if i >= 0 { Some(rows[i].1) } else { None }
}

/// The rows after storing `v` under `k`: in place when the key is there,
/// appended otherwise.
pub open spec fn put_rows<V>(rows: Seq<(Seq<char>, V)>, k: Seq<char>, v: V) -> Seq<(Seq<char>, V)> {
    let i = row_index(rows, k);
    if i >= 0 { rows.update(i, (k, v)) } else { rows.push((k, v)) }
}

/// The rows without the one keyed `k`.
pub open spec fn drop_rows<V>(rows: Seq<(Seq<char>, V)>, k: Seq<char>) -> Seq<(Seq<char>, V)> {
    let i = row_index(rows, k);
    if i >= 0 { rows.remove(i) } else { rows }
}

/// No key appears twice.
pub open spec fn keys_unique<V>(rows: Seq<(Seq<char>, V)>) -> bool {
    forall|i: int, j: int| 0 <= i < j < rows.len() ==> (#[trigger] rows[i]).0 != (#[trigger] rows[j]).0
}

pub proof fn lemma_row_index<V>(rows: Seq<(Seq<char>, V)>, k: Seq<char>)
    ensures
        -1 <= row_index(rows, k) < rows.len(),
        row_index(rows, k) >= 0 ==> rows[row_index(rows, k)].0 == k,
        row_index(rows, k) == -1 ==> forall|i: int| 0 <= i < rows.len() ==> (#[trigger] rows[i]).0 != k,
    decreases rows.len(),
{
    if rows.len() > 0 && rows.last().0 != k {
        lemma_row_index(rows.drop_last(), k);
        if row_index(rows, k) == -1 {
            assert forall|i: int| 0 <= i < rows.len() implies (#[trigger] rows[i]).0 != k by {
                if i < rows.len() - 1 {
                    assert(rows[i] == rows.drop_last()[i]);
                }
            }
        }
    }
}

proof fn lemma_unique_index<V>(rows: Seq<(Seq<char>, V)>, k: Seq<char>, i: int)
    requires
        keys_unique(rows),
        0 <= i < rows.len(),
        rows[i].0 == k,
    ensures
        row_index(rows, k) == i,
{
    lemma_row_index(rows, k);
    let j = row_index(rows, k);
    if j != i {
        if j < i {
            assert(rows[j].0 != rows[i].0);
        } else {
            assert(rows[i].0 != rows[j].0);
        }
    }
}

/// Reading a key after storing a value under it gives that value; other
/// keys read as before.
pub proof fn law_read_after_write<V>(rows: Seq<(Seq<char>, V)>, k: Seq<char>, v: V, other: Seq<char>)
    requires
        keys_unique(rows),
    ensures
        lookup(put_rows(rows, k, v), k) == Some(v),
        other != k ==> lookup(put_rows(rows, k, v), other) == lookup(rows, other),
        keys_unique(put_rows(rows, k, v)),
{
    lemma_row_index(rows, k);
    lemma_row_index(rows, other);
    let p = put_rows(rows, k, v);
    let i = row_index(rows, k);
    assert(keys_unique(p)) by {
        assert forall|a: int, b: int| 0 <= a < b < p.len() implies (#[trigger] p[a]).0 != (#[trigger] p[b]).0 by {
            if b < rows.len() {
                assert(rows[a].0 != rows[b].0);
            }
        }
    }
    lemma_row_index(p, k);
    if i >= 0 {
        lemma_unique_index(p, k, i);
    } else {
        lemma_unique_index(p, k, rows.len() as int);
    }
    if other != k {
        lemma_row_index(p, other);
        let j = row_index(rows, other);
        if j >= 0 {
            lemma_unique_index(p, other, j);
        } else {
            assert forall|a: int| 0 <= a < p.len() implies (#[trigger] p[a]).0 != other by {
                if a < rows.len() {
                    assert(rows[a].0 != other);
                }
            }
            assert(row_index(p, other) == -1);
        }
    }
}

/// A table of values keyed by strings.
#[derive(Debug)]
pub struct Table<V> {
    rows: Vec<(String, V)>,
}

impl<V> Table<V> {
    /// The rows as (key, value), in insertion order.
    pub closed spec fn rows_view(&self) -> Seq<(Seq<char>, V)> {
        self.rows@.map_values(|r: (String, V)| (r.0@, r.1))
    }

    pub open spec fn wf(&self) -> bool {
        keys_unique(self.rows_view())
    }

    pub fn new() -> (t: Self)
        ensures
            t.wf(),
            t.rows_view() == Seq::<(Seq<char>, V)>::empty(),
    {
        let t = Table { rows: Vec::new() };
        assert(t.rows_view() =~= Seq::<(Seq<char>, V)>::empty());
        t
    }

    fn position(&self, k: &str) -> (r: Option<usize>)
        ensures
            match r {
                Some(i) => i < self.rows_view().len() && row_index(self.rows_view(), k@) == i,
                None => row_index(self.rows_view(), k@) == -1,
            },
    {
        let ghost v = self.rows_view();
        let mut i = self.rows.len();
        assert(v.take(i as int) =~= v);
        while i > 0
            invariant
                i <= self.rows.len(),
                v == self.rows_view(),
                row_index(v, k@) == row_index(v.take(i as int), k@),
            decreases i,
        {
            assert(v.take(i as int).last() == v[i - 1]);
            if str_eq(self.rows[i - 1].0.as_str(), k) {
                return Some(i - 1);
            }
            assert(v.take(i as int).drop_last() =~= v.take(i - 1));
            i -= 1;
        }
        None
    }

    /// The value under `k`.
    pub fn get(&self, k: &str) -> (r: Option<&V>)
        ensures
            match r {
                Some(v) => lookup(self.rows_view(), k@) == Some(*v),
                None => lookup(self.rows_view(), k@) is None,
            },
    {
        match self.position(k) {
            Some(i) => Some(&self.rows[i].1),
            None => None,
        }
    }

    /// Whether `k` has a value.
    pub fn contains_key(&self, k: &str) -> (b: bool)
        ensures
            b == lookup(self.rows_view(), k@) is Some,
    {
        self.position(k).is_some()
    }

    /// Stores `v` under `k`, replacing any value there.
    pub fn insert(&mut self, k: &str, v: V)
        requires
            old(self).wf(),
        ensures
            final(self).wf(),
            final(self).rows_view() == put_rows(old(self).rows_view(), k@, v),
    {
        let ghost s = self.rows_view();
        proof { law_read_after_write(s, k@, v, k@); }
        match self.position(k) {
            Some(i) => {
                self.rows.set(i, (k.to_owned(), v));
                assert(self.rows_view() =~= s.update(i as int, (k@, v)));
            },
            None => {
                self.rows.push((k.to_owned(), v));
                assert(self.rows_view() =~= s.push((k@, v)));
            },
        }
    }

    /// Removes the value under `k`, returning it.
    pub fn take(&mut self, k: &str) -> (r: Option<V>)
        requires
            old(self).wf(),
        ensures
            final(self).wf(),
            r == lookup(old(self).rows_view(), k@),
            final(self).rows_view() == drop_rows(old(self).rows_view(), k@),
    {
        let ghost s = self.rows_view();
        proof { lemma_row_index(s, k@); }
        match self.position(k) {
            Some(i) => {
                let (_, v) = self.rows.remove(i);
                assert(self.rows_view() =~= s.remove(i as int));
                assert forall|a: int, b: int| 0 <= a < b < self.rows_view().len() implies (#[trigger] self.rows_view()[a]).0
                    != (#[trigger] self.rows_view()[b]).0 by {
                    let aa = if a < i { a } else { a + 1 };
                    let bb = if b < i { b } else { b + 1 };
                    assert(self.rows_view()[a] == s[aa]);
                    assert(self.rows_view()[b] == s[bb]);
                }
                Some(v)
            },
            None => None,
        }
    }

    fn remove_at(&mut self, i: usize) -> (r: (String, V))
        requires
            i < old(self).rows_view().len(),
        ensures
            final(self).rows_view() == old(self).rows_view().remove(i as int),
            (r.0@, r.1) == old(self).rows_view()[i as int],
    {
        let ghost s = self.rows_view();
        let r = self.rows.remove(i);
        assert(self.rows_view() =~= s.remove(i as int));
        r
    }

    fn insert_at(&mut self, i: usize, k: String, v: V)
        requires
            i <= old(self).rows_view().len(),
        ensures
            final(self).rows_view() == old(self).rows_view().insert(i as int, (k@, v)),
    {
        let ghost s = self.rows_view();
        let ghost kv = k@;
        self.rows.insert(i, (k, v));
        assert(self.rows_view() =~= s.insert(i as int, (kv, v)));
    }

    /// The number of rows.
    pub fn len(&self) -> (n: usize)
        ensures
            n == self.rows_view().len(),
    {
        self.rows.len()
    }

    /// The row at `i`.
    pub fn row(&self, i: usize) -> (r: (&str, &V))
        requires
            i < self.rows_view().len(),
        ensures
            (r.0@, *r.1) == self.rows_view()[i as int],
    {
        (self.rows[i].0.as_str(), &self.rows[i].1)
    }
}

// ---------------------------------------------------------------------------
// The store
// ---------------------------------------------------------------------------

/// Waves in order of their last activity, most recent first.
pub open spec fn by_recent_activity(ws: Seq<WaveMeta>) -> bool {
    forall|i: int, j: int| 0 <= i < j < ws.len() ==> (#[trigger] ws[i]).last_activity_ms >= (#[trigger] ws[j]).last_activity_ms
}

/// Attachments in order of creation, newest first.
pub open spec fn newest_first(xs: Seq<AttachmentMeta>) -> bool {
    forall|i: int, j: int| 0 <= i < j < xs.len() ==> (#[trigger] xs[i]).created_ms >= (#[trigger] xs[j]).created_ms
}

/// The waves of the rows that `who` is on, in order.
pub open spec fn waves_of(rows: Seq<(Seq<char>, WaveMeta)>, who: Seq<char>) -> Seq<WaveMeta>
    decreases rows.len(),
{
    if rows.len() == 0 {
        Seq::empty()
    } else {
        let r = waves_of(rows.drop_last(), who);
        if on_wave(rows.last().1.participants@, who) { r.push(rows.last().1) } else { r }
    }
}

/// The attachments of the rows that belong to `wave`, in order.
pub open spec fn attachments_of(rows: Seq<(Seq<char>, AttachmentMeta)>, wave: Seq<char>) -> Seq<AttachmentMeta>
    decreases rows.len(),
{
    if rows.len() == 0 {
        Seq::empty()
    } else {
        let r = attachments_of(rows.drop_last(), wave);
        if rows.last().1.wave@ == wave { r.push(rows.last().1) } else { r }
    }
}

/// The embedded store's tables.
#[derive(Debug)]
pub struct FileStore {
    /// The directory the store lives in.
    pub dir: String,
    /// Whether writes are synced to disk.
    pub fsync: bool,
    pub accounts: Table<Account>,
    pub sessions: Table<String>,
    pub waves: Table<WaveMeta>,
    pub read_marks: Table<Table<u64>>,
    pub attachments: Table<AttachmentMeta>,
    pub peer_keys: Table<String>,
}

impl FileStore {
    /// Every table well-formed.
    pub open spec fn wf(&self) -> bool {
        &&& self.accounts.wf()
        &&& self.sessions.wf()
        &&& self.waves.wf()
        &&& self.read_marks.wf()
        &&& self.attachments.wf()
        &&& self.peer_keys.wf()
        &&& forall|i: int|
            0 <= i < self.read_marks.rows_view().len() ==> (#[trigger] self.read_marks.rows_view()[i]).1.wf()
    }

    /// An empty store rooted at `dir`.
    pub fn new(dir: &str, fsync: bool) -> (s: Self)
        ensures
            s.wf(),
            s.dir@ == dir@,
            s.fsync == fsync,
            s.accounts.rows_view().len() == 0,
            s.waves.rows_view().len() == 0,
    {
        FileStore {
            dir: dir.to_owned(),
            fsync,
            accounts: Table::new(),
            sessions: Table::new(),
            waves: Table::new(),
            read_marks: Table::new(),
            attachments: Table::new(),
            peer_keys: Table::new(),
        }
    }

    /// Creates an account unless one exists for its participant; says
    /// whether it did (an existing account is left as it was).
    pub fn create_account(&mut self, account: Account) -> (created: bool)
        requires
            old(self).wf(),
        ensures
            final(self).wf(),
            created == (lookup(old(self).accounts.rows_view(), account.participant@) is None),
            created ==> final(self).accounts.rows_view() == put_rows(
                old(self).accounts.rows_view(),
                account.participant@,
                account,
            ),
            !created ==> final(self).accounts.rows_view() == old(self).accounts.rows_view(),
            final(self).waves == old(self).waves,
            final(self).sessions == old(self).sessions,
            final(self).read_marks == old(self).read_marks,
            final(self).attachments == old(self).attachments,
            final(self).peer_keys == old(self).peer_keys,
    {
        if self.accounts.contains_key(account.participant.as_str()) {
            return false;
        }
        let key = account.participant.as_str().to_owned();
        self.accounts.insert(key.as_str(), account);
        true
    }

    /// The account of a participant.
    pub fn get_account(&self, p: &ParticipantId) -> (r: Option<&Account>)
        ensures
            match r {
                Some(a) => lookup(self.accounts.rows_view(), participant_text(p@)) == Some(*a),
                None => lookup(self.accounts.rows_view(), participant_text(p@)) is None,
            },
    {
        let k = p.to_string();
        self.accounts.get(k.as_str())
    }

    /// Records a session for a participant.
    pub fn put_session(&mut self, sid: &str, p: &ParticipantId)
        requires
            old(self).wf(),
        ensures
            final(self).wf(),
            text_rows(final(self).sessions.rows_view()) == put_rows(
                text_rows(old(self).sessions.rows_view()),
                sid@,
                participant_text(p@),
            ),
            final(self).accounts == old(self).accounts,
            final(self).waves == old(self).waves,
            final(self).read_marks == old(self).read_marks,
            final(self).attachments == old(self).attachments,
            final(self).peer_keys == old(self).peer_keys,
    {
        let ghost s = self.sessions.rows_view();
        let v = p.to_string();
        let ghost vv = v;
        self.sessions.insert(sid, v);
        proof { lemma_put_rows_map(s, sid@, vv); }
    }

    /// The participant a session belongs to (one that parses).
    pub fn get_session(&self, sid: &str) -> (r: Option<ParticipantId>)
        ensures
            match lookup(self.sessions.rows_view(), sid@) {
                Some(v) => match parse_participant(v@) {
                    Ok(p) => r matches Some(q) && q@ == p,
                    Err(_) => r is None,
                },
                None => r is None,
            },
    {
        match self.sessions.get(sid) {
            Some(v) => match ParticipantId::parse(v.as_str()) {
                Ok(p) => Some(p),
                Err(_) => None,
            },
            None => None,
        }
    }

    /// Ends a session.
    pub fn delete_session(&mut self, sid: &str)
        requires
            old(self).wf(),
        ensures
            final(self).wf(),
            final(self).sessions.rows_view() == drop_rows(old(self).sessions.rows_view(), sid@),
            final(self).accounts == old(self).accounts,
            final(self).waves == old(self).waves,
            final(self).read_marks == old(self).read_marks,
            final(self).attachments == old(self).attachments,
            final(self).peer_keys == old(self).peer_keys,
    {
        let _ = self.sessions.take(sid);
    }

    /// Stores a wave's metadata.
    pub fn put_wave(&mut self, meta: WaveMeta)
        requires
            old(self).wf(),
        ensures
            final(self).wf(),
            final(self).waves.rows_view() == put_rows(old(self).waves.rows_view(), meta.wave@, meta),
            final(self).accounts == old(self).accounts,
            final(self).sessions == old(self).sessions,
            final(self).read_marks == old(self).read_marks,
            final(self).attachments == old(self).attachments,
            final(self).peer_keys == old(self).peer_keys,
    {
        let k = meta.wave.as_str().to_owned();
        self.waves.insert(k.as_str(), meta);
    }

    /// A wave's metadata.
    pub fn get_wave(&self, wave: &str) -> (r: Option<&WaveMeta>)
        ensures
            match r {
                Some(m) => lookup(self.waves.rows_view(), wave@) == Some(*m),
                None => lookup(self.waves.rows_view(), wave@) is None,
            },
    {
        self.waves.get(wave)
    }

    /// Moves a wave's activity time forward to `at` (never back); says
    /// whether it changed.
    pub fn touch_wave(&mut self, wave: &str, at: u64) -> (changed: bool)
        requires
            old(self).wf(),
        ensures
            final(self).wf(),
            changed == (lookup(old(self).waves.rows_view(), wave@) matches Some(m) && at > m.last_activity_ms),
            changed ==> final(self).waves.rows_view() == put_rows(
                old(self).waves.rows_view(),
                wave@,
                WaveMeta { last_activity_ms: at, ..lookup(old(self).waves.rows_view(), wave@)->Some_0 },
            ),
            !changed ==> final(self).waves.rows_view() == old(self).waves.rows_view(),
            final(self).accounts == old(self).accounts,
            final(self).read_marks == old(self).read_marks,
            final(self).sessions == old(self).sessions,
            final(self).attachments == old(self).attachments,
            final(self).peer_keys == old(self).peer_keys,
    {
        let ghost s = self.waves.rows_view();
        proof { lemma_row_index(s, wave@); }
        let i = match self.waves.position(wave) {
            Some(i) => i,
            None => return false,
        };
        if at <= self.waves.rows[i].1.last_activity_ms {
            return false;
        }
        let (key, old_meta) = self.waves.remove_at(i);
        let new_meta = WaveMeta { last_activity_ms: at, ..old_meta };
        self.waves.insert_at(i, key, new_meta);
        assert(self.waves.rows_view() =~= s.update(i as int, (wave@, new_meta)));
        assert forall|a: int, b: int| 0 <= a < b < self.waves.rows_view().len() implies (#[trigger] self.waves.rows_view()[a]).0
            != (#[trigger] self.waves.rows_view()[b]).0 by {
            assert(s[a].0 != s[b].0);
        }
        true
    }

    /// The waves a participant is on, most recently active first (ties in
    /// table order).
    pub fn list_waves_for(&self, p: &ParticipantId) -> (r: Vec<&WaveMeta>)
        ensures
            by_recent_activity(r@.map_values(|m: &WaveMeta| *m)),
            r@.map_values(|m: &WaveMeta| *m).to_multiset() == waves_of(self.waves.rows_view(), participant_text(p@)).to_multiset(),
    {
        broadcast use vstd::seq_lib::group_to_multiset_ensures;
        let me = p.to_string();
        let ghost rows = self.waves.rows_view();
        let mut out: Vec<&WaveMeta> = Vec::new();
        let mut i: usize = 0;
        assert(rows.take(0) =~= Seq::<(Seq<char>, WaveMeta)>::empty());
        assert(out@.map_values(|m: &WaveMeta| *m) =~= Seq::<WaveMeta>::empty());
        while i < self.waves.len()
            invariant
                i <= rows.len(),
                rows == self.waves.rows_view(),
                me@ == participant_text(p@),
                by_recent_activity(out@.map_values(|m: &WaveMeta| *m)),
                out@.map_values(|m: &WaveMeta| *m).to_multiset() == waves_of(rows.take(i as int), participant_text(p@)).to_multiset(),
            decreases rows.len() - i,
        {
            let (_, m) = self.waves.row(i);
            assert(rows.take(i + 1).drop_last() =~= rows.take(i as int));
            assert(rows.take(i + 1).last() == rows[i as int]);
            if is_participant(&m.participants, me.as_str()) {
                let ghost o = out@.map_values(|m: &WaveMeta| *m);
                let mut j: usize = 0;
                while j < out.len() && out[j].last_activity_ms >= m.last_activity_ms
                    invariant
                        j <= out.len(),
                        o == out@.map_values(|m: &WaveMeta| *m),
                        forall|k: int| 0 <= k < j ==> (#[trigger] o[k]).last_activity_ms >= m.last_activity_ms,
                    decreases out.len() - j,
                {
                    j += 1;
                }
                out.insert(j, m);
                proof {
                    let n = out@.map_values(|m: &WaveMeta| *m);
                    assert(n =~= o.insert(j as int, *m));
                    vstd::seq_lib::to_multiset_insert(o, j as int, *m);
                    assert(rows[i as int].1 == *m);
                    assert(waves_of(rows.take(i + 1), me@) == waves_of(rows.take(i as int), me@).push(*m));
                    vstd::seq_lib::to_multiset_build(waves_of(rows.take(i as int), me@), *m);
                    assert forall|a: int, b: int| 0 <= a < b < n.len() implies (#[trigger] n[a]).last_activity_ms
                        >= (#[trigger] n[b]).last_activity_ms by {
                        if b < j {
                            assert(n[a] == o[a] && n[b] == o[b]);
                        } else if b == j {
                            assert(n[a] == o[a]);
                        } else if a == j {
                            assert(o[j as int].last_activity_ms < m.last_activity_ms);
                            assert(n[b] == o[b - 1]);
                            if b - 1 > j {
                                assert(o[j as int].last_activity_ms >= o[b - 1].last_activity_ms);
                            }
                        } else if a < j {
                            assert(n[a] == o[a] && n[b] == o[b - 1]);
                        } else {
                            assert(n[a] == o[a - 1] && n[b] == o[b - 1]);
                        }
                    }
                }
            }
            i += 1;
        }
        assert(rows.take(rows.len() as int) =~= rows);
        out
    }

    /// The attachments of a wave, newest first (ties in table order).
    pub fn list_attachments(&self, wave: &str) -> (r: Vec<&AttachmentMeta>)
        ensures
            newest_first(r@.map_values(|m: &AttachmentMeta| *m)),
            r@.map_values(|m: &AttachmentMeta| *m).to_multiset() == attachments_of(self.attachments.rows_view(), wave@).to_multiset(),
    {
        broadcast use vstd::seq_lib::group_to_multiset_ensures;
        let ghost rows = self.attachments.rows_view();
        let mut out: Vec<&AttachmentMeta> = Vec::new();
        let mut i: usize = 0;
        assert(rows.take(0) =~= Seq::<(Seq<char>, AttachmentMeta)>::empty());
        assert(out@.map_values(|m: &AttachmentMeta| *m) =~= Seq::<AttachmentMeta>::empty());
        while i < self.attachments.len()
            invariant
                i <= rows.len(),
                rows == self.attachments.rows_view(),
                newest_first(out@.map_values(|m: &AttachmentMeta| *m)),
                out@.map_values(|m: &AttachmentMeta| *m).to_multiset() == attachments_of(rows.take(i as int), wave@).to_multiset(),
            decreases rows.len() - i,
        {
            let (_, m) = self.attachments.row(i);
            assert(rows.take(i + 1).drop_last() =~= rows.take(i as int));
            assert(rows.take(i + 1).last() == rows[i as int]);
            if str_eq(m.wave.as_str(), wave) {
                let ghost o = out@.map_values(|m: &AttachmentMeta| *m);
                let mut j: usize = 0;
                while j < out.len() && out[j].created_ms >= m.created_ms
                    invariant
                        j <= out.len(),
                        o == out@.map_values(|m: &AttachmentMeta| *m),
                        forall|k: int| 0 <= k < j ==> (#[trigger] o[k]).created_ms >= m.created_ms,
                    decreases out.len() - j,
                {
                    j += 1;
                }
                out.insert(j, m);
                proof {
                    let n = out@.map_values(|m: &AttachmentMeta| *m);
                    assert(n =~= o.insert(j as int, *m));
                    vstd::seq_lib::to_multiset_insert(o, j as int, *m);
                    assert(rows[i as int].1 == *m);
                    assert(attachments_of(rows.take(i + 1), wave@) == attachments_of(rows.take(i as int), wave@).push(*m));
                    vstd::seq_lib::to_multiset_build(attachments_of(rows.take(i as int), wave@), *m);
                    assert forall|a: int, b: int| 0 <= a < b < n.len() implies (#[trigger] n[a]).created_ms
                        >= (#[trigger] n[b]).created_ms by {
                        if b < j {
                            assert(n[a] == o[a] && n[b] == o[b]);
                        } else if b == j {
                            assert(n[a] == o[a]);
                        } else if a == j {
                            assert(o[j as int].created_ms < m.created_ms);
                            assert(n[b] == o[b - 1]);
                            if b - 1 > j {
                                assert(o[j as int].created_ms >= o[b - 1].created_ms);
                            }
                        } else if a < j {
                            assert(n[a] == o[a] && n[b] == o[b - 1]);
                        } else {
                            assert(n[a] == o[a - 1] && n[b] == o[b - 1]);
                        }
                    }
                }
            }
            i += 1;
        }
        assert(rows.take(rows.len() as int) =~= rows);
        out
    }

    /// Records that `p` read `wave` at `at`.
    pub fn set_read_mark(&mut self, p: &ParticipantId, wave: &str, at: u64)
        requires
            old(self).wf(),
        ensures
            final(self).wf(),
            ({
                let me = participant_text(p@);
                let before = lookup(old(self).read_marks.rows_view(), me);
                &&& lookup(final(self).read_marks.rows_view(), me) matches Some(t) && t.rows_view() == put_rows(
                    match before {
                        Some(b) => b.rows_view(),
                        None => Seq::<(Seq<char>, u64)>::empty(),
                    },
                    wave@,
                    at,
                )
                &&& forall|other: Seq<char>|
                    other != me ==> #[trigger] lookup(final(self).read_marks.rows_view(), other) == lookup(
                        old(self).read_marks.rows_view(),
                        other,
                    )
            }),
            final(self).waves == old(self).waves,
            final(self).accounts == old(self).accounts,
            final(self).sessions == old(self).sessions,
            final(self).attachments == old(self).attachments,
            final(self).peer_keys == old(self).peer_keys,
    {
        let me = p.to_string();
        let ghost s = self.read_marks.rows_view();
        proof { lemma_row_index(s, me@); }
        let mut inner = match self.read_marks.take(me.as_str()) {
            Some(t) => t,
            None => Table::new(),
        };
        proof {
            if lookup(s, me@) is Some {
                let i = row_index(s, me@);
                assert(s[i].1.wf());
            }
        }
        inner.insert(wave, at);
        let ghost dropped = self.read_marks.rows_view();
        assert(dropped == drop_rows(s, me@));
        proof { lemma_drop_keeps_unique(s, me@); }
        self.read_marks.insert(me.as_str(), inner);
        proof {
            lemma_drop_put(s, me@, inner);
            law_read_after_write(dropped, me@, inner, me@);
            let f = self.read_marks.rows_view();
            assert forall|i: int| 0 <= i < f.len() implies (#[trigger] f[i]).1.wf() by {
                lemma_row_index(dropped, me@);
                if f[i].0 != me@ {
                    lemma_rows_from(s, me@, inner, i);
                }
                else {
                    lemma_unique_index(f, me@, i);
                }
            }
        }
    }

    /// The waves `p` has read, with when.
    pub fn read_marks(&self, p: &ParticipantId) -> (r: Vec<(String, u64)>)
        ensures
            r@.map_values(|e: (String, u64)| (e.0@, e.1)) == match lookup(self.read_marks.rows_view(), participant_text(p@)) {
                Some(t) => t.rows_view(),
                None => Seq::<(Seq<char>, u64)>::empty(),
            },
    {
        let me = p.to_string();
        let mut r: Vec<(String, u64)> = Vec::new();
        match self.read_marks.get(me.as_str()) {
            None => {
                assert(r@.map_values(|e: (String, u64)| (e.0@, e.1)) =~= Seq::<(Seq<char>, u64)>::empty());
                r
            },
            Some(t) => {
                let mut i: usize = 0;
                while i < t.len()
                    invariant
                        i <= t.rows_view().len(),
                        r@.map_values(|e: (String, u64)| (e.0@, e.1)) == t.rows_view().take(i as int),
                    decreases t.rows_view().len() - i,
                {
                    let (k, v) = t.row(i);
                    let ghost before = r@;
                    let ghost kv = (k@, *v);
                    r.push((k.to_owned(), *v));
                    assert(r@.map_values(|e: (String, u64)| (e.0@, e.1)) =~= before.map_values(
                        |e: (String, u64)| (e.0@, e.1),
                    ).push(kv));
                    assert(t.rows_view().take(i + 1) =~= t.rows_view().take(i as int).push(kv));
                    i += 1;
                }
                assert(t.rows_view().take(t.rows_view().len() as int) =~= t.rows_view());
                r
            },
        }
    }

    /// Stores an attachment's metadata under its key.
    pub fn put_attachment(&mut self, meta: AttachmentMeta)
        requires
            old(self).wf(),
        ensures
            final(self).wf(),
            final(self).attachments.rows_view() == put_rows(old(self).attachments.rows_view(), meta.hash@, meta),
            final(self).accounts == old(self).accounts,
            final(self).sessions == old(self).sessions,
            final(self).waves == old(self).waves,
            final(self).read_marks == old(self).read_marks,
            final(self).peer_keys == old(self).peer_keys,
    {
        let k = meta.hash.as_str().to_owned();
        self.attachments.insert(k.as_str(), meta);
    }

    /// An attachment's metadata.
    pub fn get_attachment(&self, hash: &str) -> (r: Option<&AttachmentMeta>)
        ensures
            match r {
                Some(m) => lookup(self.attachments.rows_view(), hash@) == Some(*m),
                None => lookup(self.attachments.rows_view(), hash@) is None,
            },
    {
        self.attachments.get(hash)
    }

    /// Pins a peer's public key (hex).
    pub fn put_peer_key(&mut self, domain: &str, key_hex: &str)
        requires
            old(self).wf(),
        ensures
            final(self).wf(),
            text_rows(final(self).peer_keys.rows_view()) == put_rows(
                text_rows(old(self).peer_keys.rows_view()),
                domain@,
                key_hex@,
            ),
            final(self).accounts == old(self).accounts,
            final(self).sessions == old(self).sessions,
            final(self).waves == old(self).waves,
            final(self).read_marks == old(self).read_marks,
            final(self).attachments == old(self).attachments,
    {
        let ghost s = self.peer_keys.rows_view();
        let v = key_hex.to_owned();
        let ghost vv = v;
        self.peer_keys.insert(domain, v);
        proof { lemma_put_rows_map(s, domain@, vv); }
    }

    /// A pinned peer key.
    pub fn get_peer_key(&self, domain: &str) -> (r: Option<&String>)
        ensures
            match r {
                Some(k) => lookup(self.peer_keys.rows_view(), domain@) == Some(*k),
                None => lookup(self.peer_keys.rows_view(), domain@) is None,
            },
    {
        self.peer_keys.get(domain)
    }
}

proof fn lemma_drop_keeps_unique<V>(s: Seq<(Seq<char>, V)>, k: Seq<char>)
    requires
        keys_unique(s),
    ensures
        keys_unique(drop_rows(s, k)),
{
    lemma_row_index(s, k);
    let i = row_index(s, k);
    if i >= 0 {
        let d = s.remove(i);
        assert forall|a: int, b: int| 0 <= a < b < d.len() implies (#[trigger] d[a]).0 != (#[trigger] d[b]).0 by {
            let aa = if a < i { a } else { a + 1 };
            let bb = if b < i { b } else { b + 1 };
            assert(d[a] == s[aa]);
            assert(d[b] == s[bb]);
        }
    }
}

/// After dropping `k` and storing `v` under it, other keys read as before.
proof fn lemma_drop_put<V>(s: Seq<(Seq<char>, V)>, k: Seq<char>, v: V)
    requires
        keys_unique(s),
    ensures
        forall|other: Seq<char>|
            other != k ==> #[trigger] lookup(put_rows(drop_rows(s, k), k, v), other) == lookup(s, other),
{
    lemma_drop_keeps_unique(s, k);
    let d = drop_rows(s, k);
    assert forall|other: Seq<char>| other != k implies #[trigger] lookup(put_rows(d, k, v), other) == lookup(s, other) by {
        law_read_after_write(d, k, v, other);
        lemma_row_index(s, k);
        lemma_row_index(s, other);
        lemma_row_index(d, other);
        let i = row_index(s, k);
        let j = row_index(s, other);
        if i >= 0 {
            if j >= 0 {
                let jj = if j < i { j } else { j - 1 };
                assert(d[jj] == s[j]);
                lemma_unique_index(d, other, jj);
            } else {
                assert forall|a: int| 0 <= a < d.len() implies (#[trigger] d[a]).0 != other by {
                    let aa = if a < i { a } else { a + 1 };
                    assert(d[a] == s[aa]);
                }
                lemma_row_index(d, other);
                if row_index(d, other) >= 0 {
                    assert(d[row_index(d, other)].0 == other);
                }
            }
        }
    }
}

/// Every row of the table after dropping and storing `k` is a row of the
/// old table, but for the one under `k`.
#[verifier::spinoff_prover]
#[verifier::rlimit(40)]
proof fn lemma_rows_from<V>(s: Seq<(Seq<char>, V)>, k: Seq<char>, v: V, i: int)
    requires
        keys_unique(s),
        0 <= i < put_rows(drop_rows(s, k), k, v).len(),
        put_rows(drop_rows(s, k), k, v)[i].0 != k,
    ensures
        exists|j: int| 0 <= j < s.len() && s[j] == #[trigger] put_rows(drop_rows(s, k), k, v)[i],
{
    lemma_drop_keeps_unique(s, k);
    let d = drop_rows(s, k);
    lemma_row_index(s, k);
    lemma_row_index(d, k);
    let p = put_rows(d, k, v);
    let ik = row_index(d, k);
    if ik >= 0 {
        assert(d[ik].0 == k);
        lemma_row_index(s, k);
        let i0 = row_index(s, k);
        if i0 >= 0 {
            let aa = if ik < i0 { ik } else { ik + 1 };
            assert(d[ik] == s[aa]);
            assert(s[aa].0 == k);
            lemma_unique_index(s, k, aa);
        } else {
            assert(d[ik] == s[ik]);
        }
    }
    assert(p[i] == d[i]);
    let i0 = row_index(s, k);
    if i0 >= 0 {
        let aa = if i < i0 { i } else { i + 1 };
        assert(d[i] == s[aa]);
    } else {
        assert(d[i] == s[i]);
    }
}

proof fn lemma_put_rows_map(s: Seq<(Seq<char>, String)>, k: Seq<char>, v: String)
    ensures
        text_rows(put_rows(s, k, v)) == put_rows(
            text_rows(s),
            k,
            v@,
        ),
{
    let f = |r: (Seq<char>, String)| (r.0, r.1@);
    lemma_row_index_map(s, k);
    let i = row_index(s, k);
    lemma_row_index(s, k);
    if i >= 0 {
        assert(put_rows(s, k, v).map_values(f) =~= s.map_values(f).update(i, (k, v@)));
    } else {
        assert(put_rows(s, k, v).map_values(f) =~= s.map_values(f).push((k, v@)));
    }
}

proof fn lemma_row_index_map(s: Seq<(Seq<char>, String)>, k: Seq<char>)
    ensures
        row_index(text_rows(s), k) == row_index(s, k),
    decreases s.len(),
{
    let f = |r: (Seq<char>, String)| (r.0, r.1@);
    if s.len() > 0 {
        assert(s.map_values(f).drop_last() =~= s.drop_last().map_values(f));
        lemma_row_index_map(s.drop_last(), k);
    }
}

/// The rows as a map from key to value.
pub open spec fn rows_map<V>(rows: Seq<(Seq<char>, V)>) -> Map<Seq<char>, V> {
    Map::new(|k: Seq<char>| lookup(rows, k) is Some, |k: Seq<char>| lookup(rows, k)->Some_0)
}

/// The read marks as a map from (participant, wave) to when.
pub open spec fn marks_map(rows: Seq<(Seq<char>, Table<u64>)>) -> Map<(Seq<char>, Seq<char>), u64> {
    Map::new(
        |pw: (Seq<char>, Seq<char>)| lookup(rows, pw.0) matches Some(t) && lookup(t.rows_view(), pw.1) is Some,
        |pw: (Seq<char>, Seq<char>)| lookup(lookup(rows, pw.0)->Some_0.rows_view(), pw.1)->Some_0,
    )
}

proof fn lemma_rows_map_put<V>(rows: Seq<(Seq<char>, V)>, k: Seq<char>, v: V)
    requires
        keys_unique(rows),
    ensures
        rows_map(put_rows(rows, k, v)) == rows_map(rows).insert(k, v),
{
    assert forall|q: Seq<char>| #[trigger] lookup(put_rows(rows, k, v), q) == (if q == k {
        Some(v)
    } else {
        lookup(rows, q)
    }) by {
        law_read_after_write(rows, k, v, q);
    }
    assert(rows_map(put_rows(rows, k, v)) =~= rows_map(rows).insert(k, v));
}

proof fn lemma_drop_lookup<V>(rows: Seq<(Seq<char>, V)>, k: Seq<char>, q: Seq<char>)
    requires
        keys_unique(rows),
    ensures
        lookup(drop_rows(rows, k), q) == (if q == k { None } else { lookup(rows, q) }),
{
    lemma_row_index(rows, k);
    let i = row_index(rows, k);
    if i >= 0 {
        let d = drop_rows(rows, k);
        lemma_drop_keeps_unique(rows, k);
        if q == k {
            assert forall|a: int| 0 <= a < d.len() implies (#[trigger] d[a]).0 != k by {
                let aa = if a < i { a } else { a + 1 };
                assert(d[a] == rows[aa]);
                if aa < i {
                    assert(rows[aa].0 != rows[i].0);
                } else {
                    assert(rows[i].0 != rows[aa].0);
                }
            }
            lemma_row_index(d, k);
            if row_index(d, k) >= 0 {
                assert(d[row_index(d, k)].0 == k);
            }
        } else {
            let v = rows[i].1;
            lemma_drop_put(rows, k, v);
            law_read_after_write(d, k, v, q);
            assert(lookup(put_rows(d, k, v), q) == lookup(rows, q));
        }
    }
}

proof fn lemma_rows_map_drop<V>(rows: Seq<(Seq<char>, V)>, k: Seq<char>)
    requires
        keys_unique(rows),
    ensures
        rows_map(drop_rows(rows, k)) == rows_map(rows).remove(k),
{
    assert forall|q: Seq<char>| #[trigger] lookup(drop_rows(rows, k), q) == (if q == k {
        None
    } else {
        lookup(rows, q)
    }) by {
        lemma_drop_lookup(rows, k, q);
    }
    assert(rows_map(drop_rows(rows, k)) =~= rows_map(rows).remove(k));
}

proof fn lemma_text_unique(s: Seq<(Seq<char>, String)>)
    requires
        keys_unique(s),
    ensures
        keys_unique(text_rows(s)),
{
    let t = text_rows(s);
    assert forall|a: int, b: int| 0 <= a < b < t.len() implies (#[trigger] t[a]).0 != (#[trigger] t[b]).0 by {
        assert(s[a].0 != s[b].0);
    }
}

proof fn lemma_text_lookup(s: Seq<(Seq<char>, String)>, k: Seq<char>)
    ensures
        lookup(text_rows(s), k) == (match lookup(s, k) {
            Some(v) => Some(v@),
            None => None::<Seq<char>>,
        }),
{
    lemma_row_index_map(s, k);
    lemma_row_index(s, k);
}

proof fn lemma_text_drop(s: Seq<(Seq<char>, String)>, k: Seq<char>)
    requires
        keys_unique(s),
    ensures
        rows_map(text_rows(drop_rows(s, k))) == rows_map(text_rows(s)).remove(k),
{
    lemma_text_unique(s);
    lemma_drop_keeps_unique(s, k);
    assert forall|q: Seq<char>| #[trigger] lookup(text_rows(drop_rows(s, k)), q) == (if q == k {
        None
    } else {
        lookup(text_rows(s), q)
    }) by {
        lemma_text_lookup(drop_rows(s, k), q);
        lemma_text_lookup(s, q);
        lemma_drop_lookup(s, k, q);
    }
    assert(rows_map(text_rows(drop_rows(s, k))) =~= rows_map(text_rows(s)).remove(k));
}

/// What a store holds, as maps: accounts by participant, sessions (id to
/// participant), waves by id, read marks by (participant, wave),
/// attachments by content hash, and pinned peer keys by domain.
pub type StoreMaps = (
    Map<Seq<char>, Account>,
    Map<Seq<char>, Seq<char>>,
    Map<Seq<char>, WaveMeta>,
    Map<(Seq<char>, Seq<char>), u64>,
    Map<Seq<char>, AttachmentMeta>,
    Map<Seq<char>, Seq<char>>,
);

/// The server's persistence interface for accounts, sessions, waves, read
/// marks, attachment metadata and peer keys. `store_ok` is the store's
/// invariant, which every operation keeps; `contents` is what it holds,
/// which each write changes in exactly one place.
pub trait WaveStore {
    spec fn store_ok(&self) -> bool;

    spec fn contents(&self) -> StoreMaps;

    /// Creates an account unless its participant has one; says whether it did.
    fn create_account(&mut self, account: Account) -> (created: bool)
        requires
            old(self).store_ok(),
        ensures
            final(self).store_ok(),
            created == !old(self).contents().0.dom().contains(account.participant@),
            final(self).contents() == ({
                let m = old(self).contents();
                if created {
                    (m.0.insert(account.participant@, account), m.1, m.2, m.3, m.4, m.5)
                } else {
                    m
                }
            }),
    ;

    fn get_account(&self, p: &ParticipantId) -> (r: Option<&Account>)
        ensures
            match r {
                Some(a) => self.contents().0.dom().contains(participant_text(p@)) && self.contents().0[participant_text(
                    p@,
                )] == *a,
                None => !self.contents().0.dom().contains(participant_text(p@)),
            },
    ;

    fn put_session(&mut self, sid: &str, p: &ParticipantId)
        requires
            old(self).store_ok(),
        ensures
            final(self).store_ok(),
            final(self).contents() == ({
                let m = old(self).contents();
                (m.0, m.1.insert(sid@, participant_text(p@)), m.2, m.3, m.4, m.5)
            }),
    ;

    /// The participant of a session, when it has one that parses.
    fn get_session(&self, sid: &str) -> (r: Option<ParticipantId>)
        ensures
            if self.contents().1.dom().contains(sid@) {
                match parse_participant(self.contents().1[sid@]) {
                    Ok(p) => r matches Some(q) && q@ == p,
                    Err(_) => r is None,
                }
            } else {
                r is None
            },
    ;

    fn delete_session(&mut self, sid: &str)
        requires
            old(self).store_ok(),
        ensures
            final(self).store_ok(),
            final(self).contents() == ({
                let m = old(self).contents();
                (m.0, m.1.remove(sid@), m.2, m.3, m.4, m.5)
            }),
    ;

    fn put_wave(&mut self, meta: WaveMeta)
        requires
            old(self).store_ok(),
        ensures
            final(self).store_ok(),
            final(self).contents() == ({
                let m = old(self).contents();
                (m.0, m.1, m.2.insert(meta.wave@, meta), m.3, m.4, m.5)
            }),
    ;

    fn get_wave(&self, wave: &str) -> (r: Option<&WaveMeta>)
        ensures
            match r {
                Some(w) => self.contents().2.dom().contains(wave@) && self.contents().2[wave@] == *w,
                None => !self.contents().2.dom().contains(wave@),
            },
    ;

    /// Moves a wave's activity time forward to `at`, never back; says
    /// whether it changed.
    fn touch_wave(&mut self, wave: &str, at: u64) -> (changed: bool)
        requires
            old(self).store_ok(),
        ensures
            final(self).store_ok(),
            changed == (old(self).contents().2.dom().contains(wave@) && at > old(self).contents().2[wave@].last_activity_ms),
            final(self).contents() == ({
                let m = old(self).contents();
                if changed {
                    (m.0, m.1, m.2.insert(wave@, WaveMeta { last_activity_ms: at, ..m.2[wave@] }), m.3, m.4, m.5)
                } else {
                    m
                }
            }),
    ;

    fn set_read_mark(&mut self, p: &ParticipantId, wave: &str, at: u64)
        requires
            old(self).store_ok(),
        ensures
            final(self).store_ok(),
            final(self).contents() == ({
                let m = old(self).contents();
                (m.0, m.1, m.2, m.3.insert((participant_text(p@), wave@), at), m.4, m.5)
            }),
    ;

    fn put_attachment(&mut self, meta: AttachmentMeta)
        requires
            old(self).store_ok(),
        ensures
            final(self).store_ok(),
            final(self).contents() == ({
                let m = old(self).contents();
                (m.0, m.1, m.2, m.3, m.4.insert(meta.hash@, meta), m.5)
            }),
    ;

    fn get_attachment(&self, hash: &str) -> (r: Option<&AttachmentMeta>)
        ensures
            match r {
                Some(a) => self.contents().4.dom().contains(hash@) && self.contents().4[hash@] == *a,
                None => !self.contents().4.dom().contains(hash@),
            },
    ;

    fn put_peer_key(&mut self, domain: &str, key_hex: &str)
        requires
            old(self).store_ok(),
        ensures
            final(self).store_ok(),
            final(self).contents() == ({
                let m = old(self).contents();
                (m.0, m.1, m.2, m.3, m.4, m.5.insert(domain@, key_hex@))
            }),
    ;

    fn get_peer_key(&self, domain: &str) -> (r: Option<&String>)
        ensures
            match r {
                Some(k) => self.contents().5.dom().contains(domain@) && self.contents().5[domain@] == k@,
                None => !self.contents().5.dom().contains(domain@),
            },
    ;
}

impl WaveStore for FileStore {
    open spec fn store_ok(&self) -> bool {
        self.wf()
    }

    open spec fn contents(&self) -> StoreMaps {
        (
            rows_map(self.accounts.rows_view()),
            rows_map(text_rows(self.sessions.rows_view())),
            rows_map(self.waves.rows_view()),
            marks_map(self.read_marks.rows_view()),
            rows_map(self.attachments.rows_view()),
            rows_map(text_rows(self.peer_keys.rows_view())),
        )
    }

    fn create_account(&mut self, account: Account) -> (created: bool) {
        let ghost s = self.accounts.rows_view();
        let ghost a = account;
        let created = FileStore::create_account(self, account);
        proof {
            if created {
                lemma_rows_map_put(s, a.participant@, a);
            }
        }
        created
    }

    fn get_account(&self, p: &ParticipantId) -> Option<&Account> {
        FileStore::get_account(self, p)
    }

    fn put_session(&mut self, sid: &str, p: &ParticipantId) {
        let ghost s = self.sessions.rows_view();
        FileStore::put_session(self, sid, p);
        proof {
            lemma_text_unique(s);
            lemma_rows_map_put(text_rows(s), sid@, participant_text(p@));
        }
    }

    fn get_session(&self, sid: &str) -> Option<ParticipantId> {
        proof { lemma_text_lookup(self.sessions.rows_view(), sid@); }
        FileStore::get_session(self, sid)
    }

    fn delete_session(&mut self, sid: &str) {
        let ghost s = self.sessions.rows_view();
        FileStore::delete_session(self, sid);
        proof { lemma_text_drop(s, sid@); }
    }

    fn put_wave(&mut self, meta: WaveMeta) {
        let ghost s = self.waves.rows_view();
        let ghost m = meta;
        FileStore::put_wave(self, meta);
        proof { lemma_rows_map_put(s, m.wave@, m); }
    }

    fn get_wave(&self, wave: &str) -> Option<&WaveMeta> {
        FileStore::get_wave(self, wave)
    }

    fn touch_wave(&mut self, wave: &str, at: u64) -> (changed: bool) {
        let ghost s = self.waves.rows_view();
        let changed = FileStore::touch_wave(self, wave, at);
        proof {
            if changed {
                lemma_rows_map_put(s, wave@, WaveMeta { last_activity_ms: at, ..lookup(s, wave@)->Some_0 });
            }
        }
        changed
    }

    fn set_read_mark(&mut self, p: &ParticipantId, wave: &str, at: u64) {
        let ghost s = self.read_marks.rows_view();
        let ghost me = participant_text(p@);
        proof {
            lemma_row_index(s, me);
            if lookup(s, me) is Some {
                assert(s[row_index(s, me)].1.wf());
            }
        }
        FileStore::set_read_mark(self, p, wave, at);
        proof {
            let f = self.read_marks.rows_view();
            let before: Seq<(Seq<char>, u64)> = match lookup(s, me) {
                Some(b) => b.rows_view(),
                None => Seq::empty(),
            };
            assert forall|q: Seq<char>| #[trigger] lookup(put_rows(before, wave@, at), q) == (if q == wave@ {
                Some(at)
            } else {
                lookup(before, q)
            }) by {
                law_read_after_write(before, wave@, at, q);
            }
            assert(lookup(f, me) matches Some(t) && t.rows_view() == put_rows(before, wave@, at));
            assert forall|pw: (Seq<char>, Seq<char>)| pw.0 != me implies #[trigger] lookup(f, pw.0) == lookup(s, pw.0) by {}
            assert(marks_map(f) =~= marks_map(s).insert((me, wave@), at));
        }
    }

    fn put_attachment(&mut self, meta: AttachmentMeta) {
        let ghost s = self.attachments.rows_view();
        let ghost m = meta;
        FileStore::put_attachment(self, meta);
        proof { lemma_rows_map_put(s, m.hash@, m); }
    }

    fn get_attachment(&self, hash: &str) -> Option<&AttachmentMeta> {
        FileStore::get_attachment(self, hash)
    }

    fn put_peer_key(&mut self, domain: &str, key_hex: &str) {
        let ghost s = self.peer_keys.rows_view();
        FileStore::put_peer_key(self, domain, key_hex);
        proof {
            lemma_text_unique(s);
            lemma_rows_map_put(text_rows(s), domain@, key_hex@);
        }
    }

    fn get_peer_key(&self, domain: &str) -> Option<&String> {
        proof { lemma_text_lookup(self.peer_keys.rows_view(), domain@); }
        FileStore::get_peer_key(self, domain)
    }
}

} // verus!
