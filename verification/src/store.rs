//! Persistence formats and records: the append-only update log's framing,
//! the snapshot file, and the metadata records kept per account, wave and
//! attachment.

use vstd::prelude::*;
use crate::wire::append_bytes;

verus! {

/// Wall-clock milliseconds since the Unix epoch (`SystemTime::now`), or zero
/// when the system clock reads earlier than the epoch. Nothing is promised
/// of the value: it is the time.
#[verifier::external_body]
pub fn now_ms() -> u64 {
    std::time::SystemTime::now()
        .duration_since(std::time::UNIX_EPOCH)
        .map(|d| d.as_millis() as u64)
        .unwrap_or(0)
}

// ---------------------------------------------------------------------------
// Little-endian integers
// ---------------------------------------------------------------------------

/// The four little-endian bytes of `v mod 2^32`.
pub open spec fn u32_le(v: nat) -> Seq<u8> {
    seq![(v % 256) as u8, ((v / 256) % 256) as u8, ((v / 65536) % 256) as u8, ((v / 16777216) % 256) as u8]
}

/// The number held by four little-endian bytes.
pub open spec fn le_u32(b: Seq<u8>) -> nat {
    b[0] as nat + 256 * b[1] as nat + 65536 * b[2] as nat + 16777216 * b[3] as nat
}

/// The eight little-endian bytes of a `u64`.
pub open spec fn u64_le(v: u64) -> Seq<u8> {
    Seq::new(8, |i: int| ((v as nat / pow256(i as nat)) % 256) as u8)
}

/// The number held by eight little-endian bytes.
pub open spec fn le_u64(b: Seq<u8>) -> nat
    decreases b.len(),
{
    if b.len() == 0 {
        0
    } else {
        b[0] as nat + 256 * le_u64(b.drop_first())
    }
}

pub open spec fn pow256(n: nat) -> nat
    decreases n,
{
    if n == 0 {
        1
    } else {
        256 * pow256((n - 1) as nat)
    }
}

fn write_u32_le(out: &mut Vec<u8>, v: u64)
    ensures
        final(out)@ == old(out)@ + u32_le(v as nat),
{
    out.push((v % 256) as u8);
    out.push(((v / 256) % 256) as u8);
    out.push(((v / 65536) % 256) as u8);
    out.push(((v / 16777216) % 256) as u8);
    assert(final(out)@ =~= old(out)@ + u32_le(v as nat));
}

proof fn lemma_le_u32_roundtrip(v: nat)
    requires
        v < 0x1_0000_0000,
    ensures
        le_u32(u32_le(v)) == v,
{
    let b = u32_le(v);
    assert(b[0] as nat == v % 256);
    assert(b[1] as nat == (v / 256) % 256);
    assert(b[2] as nat == (v / 65536) % 256);
    assert(b[3] as nat == (v / 16777216) % 256);
    assert(v == v % 256 + 256 * ((v / 256) % 256) + 65536 * ((v / 65536) % 256) + 16777216 * ((v
        / 16777216) % 256)) by (nonlinear_arith)
        requires
            v < 0x1_0000_0000,
    ;
}

// ---------------------------------------------------------------------------
// The update log
// ---------------------------------------------------------------------------

/// One log record: the update's length (mod 2^32) as four little-endian
/// bytes, then the update.
pub open spec fn log_frame(update: Seq<u8>) -> Seq<u8> {
    u32_le(update.len()) + update
}

/// A sequence of updates as consecutive log records.
pub open spec fn log_bytes(updates: Seq<Seq<u8>>) -> Seq<u8>
    decreases updates.len(),
{
    if updates.len() == 0 {
        Seq::empty()
    } else {
        log_bytes(updates.drop_last()) + log_frame(updates.last())
    }
}

/// The records read back from log bytes: each record whose length prefix
/// and body are both complete; a torn record at the end is ignored.
pub open spec fn parse_log(data: Seq<u8>) -> Seq<Seq<u8>>
    decreases data.len(),
{
    if data.len() < 4 {
        Seq::empty()
    } else {
        let len = le_u32(data);
        if data.len() - 4 < len {
            Seq::empty()
        } else {
            seq![data.subrange(4, 4 + len as int)] + parse_log(data.skip(4 + len as int))
        }
    }
}

/// Appends one record for `update` (`u32` length prefix, truncated as by
/// `as u32`, then the bytes).
pub fn append_log_frame(out: &mut Vec<u8>, update: &[u8])
    ensures
        final(out)@ == old(out)@ + log_frame(update@),
{
    write_u32_le(out, update.len() as u64);
    append_bytes(out, update);
    assert(final(out)@ =~= old(out)@ + log_frame(update@));
}

/// All updates as consecutive log records (the playback body and the
/// on-disk log share this format).
pub fn encode_log(updates: &Vec<Vec<u8>>) -> (out: Vec<u8>)
    ensures
        out@ == log_bytes(updates@.map_values(|u: Vec<u8>| u@)),
{
    let mut out: Vec<u8> = Vec::new();
    let mut i: usize = 0;
    let ghost us = updates@.map_values(|u: Vec<u8>| u@);
    assert(us.take(0) =~= Seq::<Seq<u8>>::empty());
    while i < updates.len()
        invariant
            i <= updates.len(),
            us == updates@.map_values(|u: Vec<u8>| u@),
            out@ == log_bytes(us.take(i as int)),
        decreases updates.len() - i,
    {
        append_log_frame(&mut out, updates[i].as_slice());
        assert(us.take(i + 1).drop_last() =~= us.take(i as int));
        assert(us.take(i + 1).last() == updates@[i as int]@);
        i += 1;
    }
    assert(us.take(updates.len() as int) =~= us);
    out
}

/// Reads log records (`FileStore::read_log` on the file's bytes).
pub fn decode_log(data: &[u8]) -> (out: Vec<Vec<u8>>)
    ensures
        out@.map_values(|u: Vec<u8>| u@) == parse_log(data@),
{
    let mut out: Vec<Vec<u8>> = Vec::new();
    let mut pos: usize = 0;
    assert(data@.skip(0) =~= data@);
    assert(out@.map_values(|u: Vec<u8>| u@) + parse_log(data@) =~= parse_log(data@));
    while data.len() - pos >= 4
        invariant
            pos <= data.len(),
            parse_log(data@) == out@.map_values(|u: Vec<u8>| u@) + parse_log(data@.skip(pos as int)),
        ensures
            parse_log(data@) == out@.map_values(|u: Vec<u8>| u@),
        decreases data.len() - pos,
    {
        let ghost rest = data@.skip(pos as int);
        let len: u64 = data[pos] as u64 + 256 * data[pos + 1] as u64 + 65536 * data[pos + 2] as u64
            + 16777216 * data[pos + 3] as u64;
        assert(len == le_u32(rest));
        if ((data.len() - pos - 4) as u64) < len {
            assert(parse_log(rest) =~= Seq::<Seq<u8>>::empty());
            assert(parse_log(data@) =~= out@.map_values(|u: Vec<u8>| u@));
            assert(data@.skip(data.len() as int) =~= Seq::<u8>::empty());
            pos = data.len();
            break;
        }
        let l = len as usize;
        let mut rec: Vec<u8> = Vec::new();
        append_bytes(&mut rec, &data[pos + 4..pos + 4 + l]);
        let ghost old_out = out@.map_values(|u: Vec<u8>| u@);
        assert(rec@ =~= rest.subrange(4, 4 + l));
        assert(rest.skip(4 + l) =~= data@.skip(pos + 4 + l));
        out.push(rec);
        assert(out@.map_values(|u: Vec<u8>| u@) =~= old_out.push(rest.subrange(4, 4 + l)));
        assert(old_out + parse_log(rest) =~= old_out.push(rest.subrange(4, 4 + l)) + parse_log(
            data@.skip(pos + 4 + l),
        ));
        pos = pos + 4 + l;
    }
    out
}

proof fn lemma_parse_frame_then(u: Seq<u8>, rest: Seq<u8>)
    requires
        u.len() < 0x1_0000_0000,
    ensures
        parse_log(log_frame(u) + rest) == seq![u] + parse_log(rest),
{
    let b = log_frame(u) + rest;
    lemma_le_u32_roundtrip(u.len());
    assert(le_u32(b) == le_u32(u32_le(u.len())));
    assert(b.subrange(4, 4 + u.len() as int) =~= u);
    assert(b.skip(4 + u.len() as int) =~= rest);
}

/// Log bytes of a prefix followed by more records.
proof fn lemma_log_bytes_split(us: Seq<Seq<u8>>, k: int)
    requires
        0 <= k <= us.len(),
    ensures
        log_bytes(us) == log_bytes(us.take(k)) + log_bytes(us.skip(k)),
    decreases us.len(),
{
    if k == us.len() {
        assert(us.take(k) =~= us);
        assert(us.skip(k) =~= Seq::<Seq<u8>>::empty());
        assert(log_bytes(us) + Seq::<u8>::empty() =~= log_bytes(us));
    } else {
        lemma_log_bytes_split(us.drop_last(), k);
        assert(us.drop_last().take(k) =~= us.take(k));
        assert(us.skip(k).drop_last() =~= us.drop_last().skip(k));
        assert(us.skip(k).last() == us.last());
        assert(log_bytes(us.take(k)) + log_bytes(us.drop_last().skip(k)) + log_frame(us.last())
            =~= log_bytes(us.take(k)) + (log_bytes(us.drop_last().skip(k)) + log_frame(
            us.last(),
        )));
    }
}

/// Reading back the bytes of whole records, then a torn partial record,
/// gives exactly the whole records.
pub proof fn law_log_roundtrip(updates: Seq<Seq<u8>>, torn: Seq<u8>, next: Seq<u8>)
    requires
        forall|i: int| 0 <= i < updates.len() ==> (#[trigger] updates[i]).len() < 0x1_0000_0000,
        next.len() < 0x1_0000_0000,
        torn.len() < log_frame(next).len(),
        torn == log_frame(next).take(torn.len() as int),
    ensures
        parse_log(log_bytes(updates) + torn) == updates,
    decreases updates.len(),
{
    if updates.len() == 0 {
        assert(log_bytes(updates) + torn =~= torn);
        lemma_torn_is_nothing(torn, next);
        assert(updates =~= Seq::<Seq<u8>>::empty());
    } else {
        let u = updates[0];
        let rest = updates.skip(1);
        lemma_log_bytes_split(updates, 1);
        assert(updates.take(1) =~= seq![u]);
        assert(seq![u].drop_last() =~= Seq::<Seq<u8>>::empty());
        assert(seq![u].last() == u);
        assert(log_bytes(Seq::<Seq<u8>>::empty()) =~= Seq::<u8>::empty());
        assert(log_bytes(seq![u]) == log_bytes(seq![u].drop_last()) + log_frame(seq![u].last()));
        assert(log_bytes(seq![u]) =~= log_frame(u));
        assert(log_bytes(updates) + torn =~= log_frame(u) + (log_bytes(rest) + torn));
        lemma_parse_frame_then(u, log_bytes(rest) + torn);
        assert forall|i: int| 0 <= i < rest.len() implies (#[trigger] rest[i]).len()
            < 0x1_0000_0000 by {
            assert(rest[i] == updates[i + 1]);
        }
        law_log_roundtrip(rest, torn, next);
        assert(seq![u] + rest =~= updates);
    }
}

proof fn lemma_torn_is_nothing(torn: Seq<u8>, next: Seq<u8>)
    requires
        next.len() < 0x1_0000_0000,
        torn.len() < log_frame(next).len(),
        torn == log_frame(next).take(torn.len() as int),
    ensures
        parse_log(torn) == Seq::<Seq<u8>>::empty(),
{
    if torn.len() >= 4 {
        lemma_le_u32_roundtrip(next.len());
        assert(torn[0] == log_frame(next)[0] && torn[1] == log_frame(next)[1] && torn[2]
            == log_frame(next)[2] && torn[3] == log_frame(next)[3]);
        assert(le_u32(torn) == next.len());
    }
}

// ---------------------------------------------------------------------------
// The snapshot file
// ---------------------------------------------------------------------------

/// Snapshot file contents: the number of updates it covers (eight
/// little-endian bytes), then the snapshot.
pub open spec fn snapshot_bytes(covered: u64, snapshot: Seq<u8>) -> Seq<u8> {
    u64_le(covered) + snapshot
}

/// Reading a snapshot file: `None` when shorter than the eight-byte header.
pub open spec fn parse_snapshot(data: Seq<u8>) -> Option<(u64, Seq<u8>)> {
    if data.len() >= 8 {
        Some((le_u64(data.take(8)) as u64, data.skip(8)))
    } else {
        None
    }
}

/// The snapshot file's bytes.
pub fn encode_snapshot(covered: u64, snapshot: &[u8]) -> (out: Vec<u8>)
    ensures
        out@ == snapshot_bytes(covered, snapshot@),
{
    let mut out: Vec<u8> = Vec::new();
    let mut v = covered;
    let mut i: usize = 0;
    assert(pow256(0) == 1);
    while i < 8
        invariant
            i <= 8,
            out@.len() == i,
            v as nat == covered as nat / pow256(i as nat),
            forall|j: int| 0 <= j < i ==> out@[j] == ((covered as nat / pow256(j as nat)) % 256) as u8,
        decreases 8 - i,
    {
        out.push((v % 256) as u8);
        proof {
            assert(pow256((i + 1) as nat) == 256 * pow256(i as nat));
            lemma_pow256_pos(i as nat);
            lemma_div_div(covered as nat, pow256(i as nat), 256);
        }
        v = v / 256;
        i += 1;
    }
    assert(out@ =~= u64_le(covered));
    append_bytes(&mut out, snapshot);
    out
}

proof fn lemma_div_div(x: nat, a: nat, b: nat)
    requires
        a > 0,
        b > 0,
    ensures
        x / a / b == x / (a * b),
{
    vstd::arithmetic::div_mod::lemma_div_denominator(x as int, a as int, b as int);
}

/// Reads a snapshot file (`None` when shorter than its header).
pub fn decode_snapshot(data: &[u8]) -> (r: Option<(u64, Vec<u8>)>)
    ensures
        match r {
            Some((c, s)) => parse_snapshot(data@) == Some((c, s@)),
            None => parse_snapshot(data@) is None,
        },
{
    if data.len() < 8 {
        return None;
    }
    let mut v: u128 = 0;
    let mut i: usize = 8;
    let ghost h = data@.take(8);
    assert(h.skip(8) =~= Seq::<u8>::empty());
    while i > 0
        invariant
            i <= 8,
            data@.len() >= 8,
            h == data@.take(8),
            v as nat == le_u64(h.skip(i as int)),
            le_u64(h.skip(i as int)) < pow256((8 - i) as nat),
        decreases i,
    {
        i -= 1;
        proof {
            assert(h.skip(i as int).drop_first() =~= h.skip(i + 1));
            assert(h.skip(i as int)[0] == data@[i as int]);
            assert(pow256((8 - i) as nat) == 256 * pow256((8 - i - 1) as nat));
            lemma_pow256_8((8 - i - 1) as nat);
        }
        v = data[i] as u128 + 256 * v;
    }
    assert(h.skip(0) =~= h);
    proof { lemma_pow256_8(8); }
    let mut snap: Vec<u8> = Vec::new();
    append_bytes(&mut snap, &data[8..data.len()]);
    assert(snap@ =~= data@.skip(8));
    Some((v as u64, snap))
}

proof fn lemma_pow256_pos(n: nat)
    ensures
        pow256(n) > 0,
    decreases n,
{
    if n > 0 {
        lemma_pow256_pos((n - 1) as nat);
    }
}

proof fn lemma_pow256_8(n: nat)
    requires
        n <= 8,
    ensures
        pow256(n) <= 0x1_0000_0000_0000_0000,
    decreases n,
{
    if n > 0 {
        lemma_pow256_8((n - 1) as nat);
        reveal_with_fuel(pow256, 9);
        lemma_pow256_mono((n - 1) as nat, 7);
    }
}

proof fn lemma_pow256_mono(a: nat, b: nat)
    requires
        a <= b,
    ensures
        pow256(a) <= pow256(b),
    decreases b,
{
    if a < b {
        lemma_pow256_mono(a, (b - 1) as nat);
    }
}

proof fn lemma_le_digits(x: nat, n: nat)
    ensures
        le_u64(Seq::new(n, |i: int| ((x / pow256(i as nat)) % 256) as u8)) == x % pow256(n),
    decreases n,
{
    let d = Seq::new(n, |i: int| ((x / pow256(i as nat)) % 256) as u8);
    if n == 0 {
        assert(pow256(0) == 1);
    } else {
        let y = x / 256;
        let d2 = Seq::new((n - 1) as nat, |i: int| ((y / pow256(i as nat)) % 256) as u8);
        assert forall|i: int| 0 <= i < n - 1 implies d.drop_first()[i] == d2[i] by {
            lemma_pow256_pos(i as nat);
            lemma_div_div(x, 256, pow256(i as nat));
            assert(pow256((i + 1) as nat) == 256 * pow256(i as nat));
        }
        assert(d.drop_first() =~= d2);
        lemma_le_digits(y, (n - 1) as nat);
        assert(pow256(0) == 1);
        assert(x / 1 == x);
        assert(d[0] == ((x / pow256(0)) % 256) as u8);
        assert(d[0] as nat == x % 256);
        lemma_pow256_pos((n - 1) as nat);
        assert(pow256(n) == 256 * pow256((n - 1) as nat));
        vstd::arithmetic::div_mod::lemma_mod_breakdown(x as int, 256, pow256((n - 1) as nat) as int);
    }
}

/// Reading a snapshot file gives back the count and snapshot written.
pub proof fn law_snapshot_roundtrip(covered: u64, snapshot: Seq<u8>)
    ensures
        parse_snapshot(snapshot_bytes(covered, snapshot)) == Some((covered, snapshot)),
{
    let b = snapshot_bytes(covered, snapshot);
    assert(b.take(8) =~= u64_le(covered));
    assert(b.skip(8) =~= snapshot);
    lemma_le_digits(covered as nat, 8);
    assert(pow256(8) == 0x1_0000_0000_0000_0000) by {
        reveal_with_fuel(pow256, 9);
    }
}

// ---------------------------------------------------------------------------
// Records
// ---------------------------------------------------------------------------

/// A registered account.
#[derive(Debug, Clone)]
pub struct Account {
    pub participant: String,
    /// PHC-format argon2id hash.
    pub password_hash: String,
    pub created_ms: u64,
}

/// A wave's index entry. The wave's domain is its home server, the
/// control-plane authority.
#[derive(Debug, Clone)]
pub struct WaveMeta {
    /// Serialized `WaveId` (`domain/wave-id`).
    pub wave: String,
    pub title: String,
    pub participants: Vec<String>,
    pub created_by: String,
    pub created_ms: u64,
    pub last_activity_ms: u64,
    /// Bumped on every membership or policy change.
    pub acl_version: u64,
    /// Wave-level translation opt-in.
    pub translation_enabled: bool,
}

/// Attachment metadata; the blob lives in the CAS keyed by `hash`.
#[derive(Debug, Clone)]
pub struct AttachmentMeta {
    pub hash: String,
    pub wave: String,
    pub name: String,
    pub mime: String,
    pub size: u64,
    pub uploader: String,
    pub created_ms: u64,
}

/// A wavelet's persisted state: the latest snapshot (if any) plus the log
/// records it does not cover.
pub struct WaveletRecord {
    pub snapshot: Option<Vec<u8>>,
    pub tail: Vec<Vec<u8>>,
    pub total_updates: u64,
}

/// The records after the first `covered` (none when `covered` exceeds them).
pub open spec fn tail_after(log: Seq<Seq<u8>>, covered: nat) -> Seq<Seq<u8>> {
    if covered >= log.len() {
        Seq::empty()
    } else {
        log.skip(covered as int)
    }
}

/// Assembles a wavelet's record from its log records and the contents of
/// its snapshot file, if one was read.
pub fn wavelet_record(log: Vec<Vec<u8>>, snapshot_file: Option<Vec<u8>>) -> (r: WaveletRecord)
    ensures
        r.total_updates == log@.len(),
        ({
            let covered: nat = match snapshot_file {
                Some(f) => match parse_snapshot(f@) {
                    Some((c, _)) => c as nat,
                    None => 0,
                },
                None => 0,
            };
            r.tail@.map_values(|u: Vec<u8>| u@) == tail_after(log@.map_values(|u: Vec<u8>| u@), covered)
        }),
        match snapshot_file {
            Some(f) => match parse_snapshot(f@) {
                Some((_, s)) => r.snapshot matches Some(v) && v@ == s,
                None => r.snapshot is None,
            },
            None => r.snapshot is None,
        },
{
    let (snapshot, covered) = match snapshot_file {
        Some(f) => match decode_snapshot(f.as_slice()) {
            Some((c, snap)) => (Some(snap), c),
            None => (None, 0),
        },
        None => (None, 0),
    };
    let total = log.len() as u64;
    let mut tail: Vec<Vec<u8>> = Vec::new();
    let ghost lv = log@.map_values(|u: Vec<u8>| u@);
    if covered < log.len() as u64 {
        let mut i = covered as usize;
        let start = i;
        assert(lv.skip(start as int).take(0) =~= Seq::<Seq<u8>>::empty());
        while i < log.len()
            invariant
                start <= i <= log.len(),
                lv == log@.map_values(|u: Vec<u8>| u@),
                tail@.map_values(|u: Vec<u8>| u@) == lv.skip(start as int).take((i - start) as int),
            decreases log.len() - i,
        {
            let ghost before = tail@.map_values(|u: Vec<u8>| u@);
            let mut rec: Vec<u8> = Vec::new();
            append_bytes(&mut rec, log[i].as_slice());
            tail.push(rec);
            assert(tail@.map_values(|u: Vec<u8>| u@) =~= before.push(lv[i as int]));
            assert(lv.skip(start as int).take((i + 1 - start) as int) =~= lv.skip(start as int).take(
                (i - start) as int,
            ).push(lv[i as int]));
            i += 1;
        }
        assert(lv.skip(start as int).take((log.len() - start) as int) =~= lv.skip(start as int));
    } else {
        assert(tail@.map_values(|u: Vec<u8>| u@) =~= Seq::<Seq<u8>>::empty());
    }
    WaveletRecord { snapshot, tail, total_updates: total }
}

} // verus!
