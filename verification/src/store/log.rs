//! The log of an author's entries: a run of length-prefixed records, each an
//! encoded signed entry with the hash of its bytes.
use crate::bytes;
use crate::bytes::{bytes_eq, to_array32, to_vec, Digest};
use crate::crypto;
use crate::crypto::hash_bytes;
use crate::entry::{EntryError, SignedEntry, SignedEntryModel};
use crate::message;
use crate::message::DecodeError;
use crate::proto::storage as proto;
use crate::proto::storage::{LogRecord, LogRecordModel};
use crate::text;
use crate::text::decimal;
use crate::wire;
use crate::wire::{get_varint, put_varint, slice_from};
use crate::MAX_ENTRY_SIZE;
use vstd::prelude::*;
use vstd::string::*;

verus! {

/// What can be wrong with the bytes of a log below the level of its records.
#[derive(Clone, Copy, Debug, PartialEq, Eq, Structural)]
pub enum IoError {
    /// The file does not exist or could not be read or written.
    File,
    /// A length prefix goes on for more than ten bytes.
    VarintTooLong,
    /// A length prefix is not a length.
    InvalidLength,
    /// The stored hash is not a hash.
    InvalidHashLength,
}

/// What can go wrong with a log.
#[derive(Clone, Copy, Debug, PartialEq, Eq, Structural)]
pub enum LogError {
    /// The bytes could not be had or make no record.
    Io(IoError),
    /// A record or its entry is not a message.
    Decode(DecodeError),
    /// The entry of a record is not acceptable.
    Entry(EntryError),
    /// An entry or a record is larger than is allowed.
    EntryTooLarge(usize),
    /// The log ends in the middle of a record.
    UnexpectedEof,
    /// The stored hash is not the hash of the entry.
    HashMismatch,
}

impl IoError {
    /// The text of the error.
    pub open spec fn text(self) -> Seq<char> {
        match self {
            IoError::File => "file not accessible"@,
            IoError::VarintTooLong => "varint too long"@,
            IoError::InvalidLength => "invalid varint"@,
            IoError::InvalidHashLength => "invalid hash length"@,
        }
    }

    /// The text of the error.
    pub fn to_string(&self) -> (r: String)
        ensures
            r@ == self.text(),
    {
        match self {
            IoError::File => "file not accessible".to_owned(),
            IoError::VarintTooLong => "varint too long".to_owned(),
            IoError::InvalidLength => "invalid varint".to_owned(),
            IoError::InvalidHashLength => "invalid hash length".to_owned(),
        }
    }
}

impl LogError {
    /// The text of the error.
    pub open spec fn text(self) -> Seq<char> {
        match self {
            LogError::Io(e) => "IO error: "@ + e.text(),
            LogError::Decode(e) => "Proto decode error: "@ + e.text(),
            LogError::Entry(e) => "Entry error: "@ + e.text(),
            LogError::EntryTooLarge(n) => "Entry too large: "@ + text::decimal_text(n as nat)
                + " bytes (max 16777216)"@,
            LogError::UnexpectedEof => "Unexpected EOF while reading entry"@,
            LogError::HashMismatch =>
                "Hash mismatch: stored hash does not match computed hash"@,
        }
    }

    /// The text of the error.
    pub fn to_string(&self) -> (r: String)
        ensures
            r@ == self.text(),
    {
        match self {
            LogError::Io(e) => "IO error: ".to_owned().concat(e.to_string().as_str()),
            LogError::Decode(e) => "Proto decode error: ".to_owned().concat(
                e.to_string().as_str(),
            ),
            LogError::Entry(e) => "Entry error: ".to_owned().concat(e.to_string().as_str()),
            LogError::EntryTooLarge(n) => "Entry too large: ".to_owned().concat(
                decimal(*n as u64).as_str(),
            ).concat(" bytes (max 16777216)"),
            LogError::UnexpectedEof => "Unexpected EOF while reading entry".to_owned(),
            LogError::HashMismatch =>
                "Hash mismatch: stored hash does not match computed hash".to_owned(),
        }
    }
}

/// What a length prefix is.
pub enum Prefix {
    /// The bytes end before the prefix does.
    End,
    /// The prefix goes on for too long.
    TooLong,
    /// The prefix has this many bytes.
    Of(nat),
}

/// The length prefix at the start of `s`, of which `n` bytes have been looked at.
/// It ends with the first byte whose high bit is clear.
pub open spec fn prefix_from(s: Seq<u8>, n: nat) -> Prefix
    decreases s.len() - n,
{
    if n >= s.len() {
        Prefix::End
    } else if s[n as int] < 128 {
        Prefix::Of(n + 1)
    } else if n + 1 > 10 {
        Prefix::TooLong
    } else {
        prefix_from(s, n + 1)
    }
}

/// What one read of a log gives.
pub enum LogRead {
    /// The log is at its end.
    End,
    /// There is no acceptable record.
    Fault(LogError),
    /// A record: the hash of its entry, and the entry.
    Record(Seq<u8>, SignedEntryModel),
}

/// What a record's bytes hold.
pub open spec fn record_of(b: Seq<u8>) -> LogRead {
    match message::decoded::<LogRecord>(b) {
        None => LogRead::Fault(LogError::Decode(message::decode_error::<LogRecord>(b))),
        Some(record) => if record.hash.len() != 32 {
            LogRead::Fault(LogError::Io(IoError::InvalidHashLength))
        } else if crypto::blake3_hash(record.entry_bytes) != record.hash {
            LogRead::Fault(LogError::HashMismatch)
        } else {
            match message::decoded::<proto::SignedEntry>(record.entry_bytes) {
                None => LogRead::Fault(
                    LogError::Decode(
                        message::decode_error::<proto::SignedEntry>(record.entry_bytes),
                    ),
                ),
                Some(p) => match SignedEntryModel::from_proto(p) {
                    Err(e) => LogRead::Fault(LogError::Entry(e)),
                    Ok(entry) => LogRead::Record(record.hash, entry),
                },
            }
        },
    }
}

/// What a read at the start of `s` gives, and how many bytes it takes. A log
/// that ends within a length prefix is at its end.
pub open spec fn read_at(s: Seq<u8>) -> (LogRead, nat) {
    match prefix_from(s, 0) {
        Prefix::End => (LogRead::End, s.len()),
        Prefix::TooLong => (LogRead::Fault(LogError::Io(IoError::VarintTooLong)), 11nat),
        Prefix::Of(n) => match wire::varint_from(s.take(n as int), 0) {
            None => (LogRead::Fault(LogError::Io(IoError::InvalidLength)), n),
            Some((len, _)) => if len > usize::MAX {
                (LogRead::Fault(LogError::Io(IoError::InvalidLength)), n)
            } else if len > MAX_ENTRY_SIZE {
                (LogRead::Fault(LogError::EntryTooLarge(len as usize)), n)
            } else if len > s.len() - n {
                (LogRead::Fault(LogError::UnexpectedEof), s.len())
            } else {
                (record_of(s.subrange(n as int, (n + len) as int)), n + len)
            },
        },
    }
}

/// The reads that lead from the start of `s` to its end.
pub open spec fn reads_of(s: Seq<u8>) -> Seq<LogRead>
    decreases s.len(),
{
    let (read, n) = read_at(s);
    if read is End || n == 0 || n > s.len() {
        Seq::empty()
    } else {
        seq![read] + reads_of(s.skip(n as int))
    }
}

/// The bytes of an entry's record.
pub open spec fn record_body(e: SignedEntryModel) -> Seq<u8> {
    message::encoded::<LogRecord>(LogRecordModel { hash: e.hash(), entry_bytes: e.encoding() })
}

/// The bytes of an entry's record with the length prefix.
pub open spec fn record_bytes(e: SignedEntryModel) -> Seq<u8> {
    wire::varint(record_body(e).len()) + record_body(e)
}

/// A log that holds the given entries.
pub open spec fn log_of(entries: Seq<SignedEntryModel>) -> Seq<u8>
    decreases entries.len(),
{
    if entries.len() == 0 {
        Seq::empty()
    } else {
        log_of(entries.drop_last()) + record_bytes(entries.last())
    }
}

/// Whether the log gives the entry back: it is well formed, its signature
/// holds, and its record is no larger than a reader accepts.
pub open spec fn readable(e: SignedEntryModel) -> bool {
    &&& e.wf()
    &&& e.verified()
    &&& e.hash().len() == 32
    &&& record_body(e).len() <= MAX_ENTRY_SIZE
}

// ---------------------------------------------------------------------------
// Laws
// ---------------------------------------------------------------------------

/// A prefix that a number was written as is found whole.
proof fn lemma_prefix(v: nat, pre: Seq<u8>, post: Seq<u8>)
    requires
        forall|i: int| 0 <= i < pre.len() ==> #[trigger] pre[i] >= 128,
        pre.len() + wire::varint(v).len() <= 10,
    ensures
        prefix_from(pre + wire::varint(v) + post, pre.len()) == Prefix::Of(
            pre.len() + wire::varint(v).len(),
        ),
    decreases v,
{
    let s = pre + wire::varint(v) + post;
    if v < 128 {
        assert(s[pre.len() as int] == v as u8);
    } else {
        let b = (128 + v % 128) as u8;
        assert(s[pre.len() as int] == b);
        assert(pre.push(b) + wire::varint(v / 128) + post =~= s);
        lemma_prefix(v / 128, pre.push(b), post);
    }
}

/// The parts of a record are no longer than the record.
proof fn lemma_record_parts(m: LogRecordModel)
    ensures
        m.entry_bytes.len() <= message::encoded::<LogRecord>(m).len(),
{
    let s1 = wire::bytes_field(1, m.hash);
    let s2 = wire::bytes_field(2, m.entry_bytes);
    let fields = s1 + s2;
    if m.entry_bytes.len() > 0 {
        assert(fields[s1.len() as int] == s2[0]);
        message::lemma_payload_within(fields, s1.len() as int);
    }
}

/// Reading the record of an acceptable entry gives the entry back, whatever
/// stands behind it.
pub proof fn law_record_round_trip(e: SignedEntryModel, post: Seq<u8>)
    requires
        readable(e),
    ensures
        read_at(record_bytes(e) + post) == (LogRead::Record(e.hash(), e), record_bytes(e).len()),
        record_bytes(e).len() > 0,
{
    let body = record_body(e);
    let m = LogRecordModel { hash: e.hash(), entry_bytes: e.encoding() };
    let s = record_bytes(e) + post;
    let v = wire::varint(body.len());
    let none = Seq::<u8>::empty();
    wire::lemma_varint_len_max(body.len());
    assert(s =~= none + v + (body + post));
    lemma_prefix(body.len(), none, body + post);
    assert(s.take(v.len() as int) =~= none + v + none);
    wire::lemma_varint_round_trip(body.len(), none, none);
    assert(s.subrange(v.len() as int, (v.len() + body.len()) as int) =~= body);
    proto::law_log_record_round_trip(m);
    lemma_record_parts(m);
    proto::law_signed_entry_round_trip(e.to_proto());
    let p = e.to_proto();
    let s1 = wire::bytes_field(1, p.entry_bytes);
    let s2 = wire::bytes_field(2, p.signature);
    let s3 = wire::bytes_field(3, p.author_id);
    if p.entry_bytes.len() > 0 {
        assert((s1 + s2 + s3)[0] == s1[0]);
        message::lemma_payload_within(s1 + s2 + s3, 0);
    }
    crate::entry::law_signed_entry_accepted(e);
}

/// What is read of a log that starts with the record of an acceptable entry.
proof fn lemma_reads_first(e: SignedEntryModel, post: Seq<u8>)
    requires
        readable(e),
    ensures
        reads_of(record_bytes(e) + post) == seq![LogRead::Record(e.hash(), e)] + reads_of(post),
{
    law_record_round_trip(e, post);
    let s = record_bytes(e) + post;
    assert(s.skip(record_bytes(e).len() as int) =~= post);
}

/// Two logs one after the other: where the first is made of whole records, its
/// entries come first and those of the second behind them.
pub proof fn law_log_then(entries: Seq<SignedEntryModel>, post: Seq<u8>)
    requires
        forall|i: int| 0 <= i < entries.len() ==> readable(#[trigger] entries[i]),
    ensures
        reads_of(log_of(entries) + post) == entries.map_values(
            |e: SignedEntryModel| LogRead::Record(e.hash(), e),
        ) + reads_of(post),
    decreases entries.len(),
{
    let read = |e: SignedEntryModel| LogRead::Record(e.hash(), e);
    if entries.len() == 0 {
        assert(log_of(entries) + post =~= post);
        assert(entries.map_values(read) + reads_of(post) =~= reads_of(post));
    } else {
        let e = entries.last();
        let before = entries.drop_last();
        assert forall|i: int| 0 <= i < before.len() implies readable(#[trigger] before[i]) by {
            assert(before[i] == entries[i]);
        }
        assert(readable(entries[entries.len() - 1]));
        law_log_then(before, record_bytes(e) + post);
        assert(log_of(entries) + post =~= log_of(before) + (record_bytes(e) + post));
        lemma_reads_first(e, post);
        assert(before.map_values(read) + (seq![read(e)] + reads_of(post)) =~= entries.map_values(
            read,
        ) + reads_of(post));
    }
}

/// What was appended to a log is read back, in the order in which it was
/// appended.
pub proof fn law_log_round_trip(entries: Seq<SignedEntryModel>)
    requires
        forall|i: int| 0 <= i < entries.len() ==> readable(#[trigger] entries[i]),
    ensures
        reads_of(log_of(entries)) == entries.map_values(
            |e: SignedEntryModel| LogRead::Record(e.hash(), e),
        ),
{
    let none = Seq::<u8>::empty();
    law_log_then(entries, none);
    assert(log_of(entries) + none =~= log_of(entries));
    assert(reads_of(none) =~= Seq::empty());
}

/// A record holds the bytes of the signed entry and their hash.
pub proof fn law_record_holds_the_entry(e: SignedEntryModel)
    requires
        record_body(e).len() <= u64::MAX,
    ensures
        message::decoded::<LogRecord>(record_body(e)) matches Some(r) && r.hash
            == crypto::blake3_hash(e.encoding()) && r.entry_bytes == e.encoding(),
{
    proto::law_log_record_round_trip(
        LogRecordModel { hash: e.hash(), entry_bytes: e.encoding() },
    );
}

/// A record is given only where the hash that it holds is that of the bytes that it holds,
/// and these are a signed entry that its author's key accepts; what is given is that hash and
/// that entry.
pub proof fn law_read_record_is_sound(b: Seq<u8>)
    ensures
        record_of(b) matches LogRead::Record(hash, entry) ==> (message::decoded::<LogRecord>(
            b,
        ) matches Some(r) && hash == r.hash && hash.len() == 32 && crypto::blake3_hash(
            r.entry_bytes,
        ) == hash && (message::decoded::<proto::SignedEntry>(r.entry_bytes) matches Some(p)
            && crypto::ed25519_accepts(p.author_id, p.entry_bytes, p.signature) && entry.author_id
            == p.author_id && entry.signature == p.signature)),
        message::decoded::<LogRecord>(b) matches Some(r) ==> (r.hash.len() == 32
            && crypto::blake3_hash(r.entry_bytes) != r.hash ==> record_of(b) == LogRead::Fault(
            LogError::HashMismatch,
        )),
{
    if let Some(r) = message::decoded::<LogRecord>(b) {
        if let Some(p) = message::decoded::<proto::SignedEntry>(r.entry_bytes) {
            crate::entry::law_accepted_entry_is_signed(p);
        }
    }
}

/// A record that is announced as larger than is allowed is refused, whatever follows.
pub proof fn law_oversized_record_is_refused(n: nat, post: Seq<u8>)
    requires
        MAX_ENTRY_SIZE < n <= usize::MAX,
        n <= u64::MAX,
    ensures
        read_at(wire::varint(n) + post).0 == LogRead::Fault(LogError::EntryTooLarge(n as usize)),
{
    let none = Seq::<u8>::empty();
    let v = wire::varint(n);
    let s = v + post;
    wire::lemma_varint_len_max(n);
    assert(s =~= none + v + post);
    lemma_prefix(n, none, post);
    assert(s.take(v.len() as int) =~= none + v + none);
    wire::lemma_varint_round_trip(n, none, none);
}

/// A record that breaks off gives no entry: behind a whole length it is an unexpected end, and
/// within the length the log is at its end.
pub proof fn law_torn_record_gives_nothing(e: SignedEntryModel, n: int)
    requires
        readable(e),
        0 <= n < record_bytes(e).len(),
    ensures
        ({
            let r = read_at(record_bytes(e).take(n)).0;
            r is End || r == LogRead::Fault(LogError::UnexpectedEof)
        }),
        n >= wire::varint(record_body(e).len()).len() ==> read_at(record_bytes(e).take(n)).0
            == LogRead::Fault(LogError::UnexpectedEof),
{
    let none = Seq::<u8>::empty();
    let body = record_body(e);
    let v = wire::varint(body.len());
    let s = record_bytes(e).take(n);
    wire::lemma_varint_len_max(body.len());
    if n >= v.len() {
        let post = body.take(n - v.len());
        assert(s =~= none + v + post);
        lemma_prefix(body.len(), none, post);
        assert(s.take(v.len() as int) =~= none + v + none);
        wire::lemma_varint_round_trip(body.len(), none, none);
    } else {
        assert(s =~= v.take(n));
        lemma_torn_prefix(body.len(), none, n);
        assert(none + v.take(n) =~= s);
    }
}

/// A length that breaks off is no length.
proof fn lemma_torn_prefix(v: nat, pre: Seq<u8>, n: int)
    requires
        forall|i: int| 0 <= i < pre.len() ==> #[trigger] pre[i] >= 128,
        pre.len() + wire::varint(v).len() <= 10,
        0 <= n < wire::varint(v).len(),
    ensures
        prefix_from(pre + wire::varint(v).take(n), pre.len()) is End,
    decreases v,
{
    let s = pre + wire::varint(v).take(n);
    if n > 0 {
        let b = (128 + v % 128) as u8;
        assert(v >= 128);
        assert(s[pre.len() as int] == b);
        assert(pre.push(b) + wire::varint(v / 128).take(n - 1) =~= s);
        lemma_torn_prefix(v / 128, pre.push(b), n - 1);
    }
}

/// A record takes at least two bytes.
pub proof fn lemma_record_len(e: SignedEntryModel)
    requires
        e.hash().len() == 32,
    ensures
        record_bytes(e).len() >= 2,
{
    let m = LogRecordModel { hash: e.hash(), entry_bytes: e.encoding() };
    let fields = wire::bytes_field(1, m.hash) + wire::bytes_field(2, m.entry_bytes);
    assert(fields[0] == wire::bytes_field(1, m.hash)[0]);
    message::lemma_payload_within(fields, 0);
    wire::lemma_varint_len(record_body(e).len());
}

/// A read stays within the log; one that gives anything moves forward, and one
/// that gives a record takes at least two bytes.
pub proof fn lemma_read_bounds(s: Seq<u8>)
    ensures
        read_at(s).1 <= s.len(),
        !(read_at(s).0 is End) ==> read_at(s).1 > 0,
        read_at(s).0 is Record ==> read_at(s).1 >= 2,
{
    lemma_prefix_bounds(s, 0);
    let none = Seq::<u8>::empty();
    assert(record_of(none) is Fault) by {
        reveal(message::decoded);
        assert(wire::fields_of(none, wire::NESTING_LIMIT) == Some(
            Seq::<wire::FieldModel>::empty(),
        ));
    }
    if let Prefix::Of(n) = prefix_from(s, 0) {
        if let Some((len, _)) = wire::varint_from(s.take(n as int), 0) {
            if len == 0 {
                assert(s.subrange(n as int, (n + len) as int) =~= none);
            }
        }
    }
}

proof fn lemma_prefix_bounds(s: Seq<u8>, n: nat)
    requires
        n <= 10,
    ensures
        prefix_from(s, n) matches Prefix::Of(k) ==> n < k <= s.len(),
        prefix_from(s, n) is TooLong ==> s.len() >= 11,
    decreases s.len() - n,
{
    if n < s.len() && s[n as int] >= 128 && n + 1 <= 10 {
        lemma_prefix_bounds(s, n + 1);
    }
}

// ---------------------------------------------------------------------------
// Reading
// ---------------------------------------------------------------------------

/// Reads the record at the start of `s`: what it gives and how many bytes it
/// takes.
fn read_one_record(s: &[u8]) -> (r: (Result<Option<(Digest, SignedEntry)>, LogError>, usize))
    ensures
        r.1 == read_at(s@).1,
        match read_at(s@).0 {
            LogRead::End => r.0 == Ok::<Option<(Digest, SignedEntry)>, LogError>(None),
            LogRead::Fault(e) => r.0 == Err::<Option<(Digest, SignedEntry)>, LogError>(e),
            LogRead::Record(hash, entry) => r.0 matches Ok(Some((h, x))) && h@ == hash && x@
                == entry,
        },
        r.1 <= s@.len(),
        !(read_at(s@).0 is End) ==> r.1 > 0,
{
    let (body, taken) = read_length_delimited_bytes(s);
    let record_bytes = match body {
        Ok(Some(b)) => b,
        Ok(None) => {
            return (Ok(None), taken);
        },
        Err(e) => {
            return (Err(e), taken);
        },
    };
    let record = match message::decode::<LogRecord>(record_bytes.as_slice()) {
        Ok(record) => record,
        Err(e) => {
            return (Err(LogError::Decode(e)), taken);
        },
    };
    let computed = hash_bytes(record.entry_bytes.as_slice());
    if record.hash.len() != 32 {
        return (Err(LogError::Io(IoError::InvalidHashLength)), taken);
    }
    let stored = to_array32(record.hash.as_slice());
    if !bytes_eq(computed.as_slice(), stored.as_slice()) {
        return (Err(LogError::HashMismatch), taken);
    }
    match message::decode::<proto::SignedEntry>(record.entry_bytes.as_slice()) {
        Err(e) => (Err(LogError::Decode(e)), taken),
        Ok(p) => match SignedEntry::from_proto(&p) {
            Err(e) => (Err(LogError::Entry(e)), taken),
            Ok(entry) => (Ok(Some((stored, entry))), taken),
        },
    }
}

/// Reads the length prefix and the bytes that it announces: nothing where the
/// log is at its end. Also how many bytes were taken.
fn read_length_delimited_bytes(s: &[u8]) -> (r: (Result<Option<Vec<u8>>, LogError>, usize))
    ensures
        r.1 == read_at(s@).1,
        r.1 <= s@.len(),
        match r.0 {
            Ok(None) => read_at(s@).0 is End,
            Ok(Some(b)) => {
                &&& read_at(s@).0 == record_of(b@)
                &&& b@.len() <= r.1
                &&& b@ == s@.subrange(r.1 - b@.len(), r.1 as int)
                &&& r.1 > 0
            },
            Err(e) => read_at(s@).0 == LogRead::Fault(e) && r.1 > 0,
        },
{
    let mut n: usize = 0;
    while n < s.len() && s[n] >= 128 && n < 10
        invariant
            n <= s@.len(),
            n <= 10,
            prefix_from(s@, 0) == prefix_from(s@, n as nat),
        decreases s@.len() - n,
    {
        n += 1;
    }
    if n >= s.len() {
        return (Ok(None), s.len());
    }
    if s[n] >= 128 {
        return (Err(LogError::Io(IoError::VarintTooLong)), 11);
    }
    n = n + 1;
    let prefix = vstd::slice::slice_subrange(s, 0, n);
    assert(prefix@ =~= s@.take(n as int));
    let len64: u64 = match get_varint(prefix) {
        Some((v, _)) => v,
        None => {
            return (Err(LogError::Io(IoError::InvalidLength)), n);
        },
    };
    if len64 > usize::MAX as u64 {
        return (Err(LogError::Io(IoError::InvalidLength)), n);
    }
    let len: usize = len64 as usize;
    if len > MAX_ENTRY_SIZE {
        return (Err(LogError::EntryTooLarge(len)), n);
    }
    if len > s.len() - n {
        return (Err(LogError::UnexpectedEof), s.len());
    }
    (Ok(Some(to_vec(vstd::slice::slice_subrange(s, n, n + len)))), n + len)
}

/// Reads a log record by record.
pub struct LogReader {
    bytes: Vec<u8>,
    at: usize,
}

impl LogReader {
    /// The bytes that have not been read yet.
    pub closed spec fn rest(&self) -> Seq<u8> {
        self.bytes@.skip(self.at as int)
    }

    /// The position lies within the bytes.
    pub closed spec fn wf(&self) -> bool {
        self.at <= self.bytes@.len()
    }

    /// A reader of a log's contents, from the start.
    pub fn from_file(contents: &[u8]) -> (r: LogReader)
        ensures
            r.wf(),
            r.rest() == contents@,
    {
        let r = LogReader { bytes: to_vec(contents), at: 0 };
        assert(r.rest() =~= contents@);
        r
    }

    /// The next record: the hash of its entry and the entry, or what is wrong
    /// with it. Nothing comes at the end of the log.
    pub fn next(&mut self) -> (r: Option<Result<(Digest, SignedEntry), LogError>>)
        requires
            old(self).wf(),
        ensures
            final(self).wf(),
            final(self).rest() == old(self).rest().skip(read_at(old(self).rest()).1 as int),
            match read_at(old(self).rest()).0 {
                LogRead::End => r is None,
                LogRead::Fault(e) => r == Some(Err::<(Digest, SignedEntry), LogError>(e)),
                LogRead::Record(hash, entry) => r matches Some(Ok((h, x))) && h@ == hash && x@
                    == entry,
            },
            read_at(old(self).rest()).1 <= old(self).rest().len(),
            r is Some ==> final(self).rest().len() < old(self).rest().len(),
    {
        let total: usize = self.bytes.len();
        let s = slice_from(self.bytes.as_slice(), self.at);
        assert(self.at + s@.len() == total);
        let (read, taken) = read_one_record(s);
        let ghost before = self.rest();
        self.at = self.at + taken;
        assert(self.rest() =~= before.skip(taken as int));
        match read {
            Ok(Some(pair)) => Some(Ok(pair)),
            Ok(None) => None,
            Err(e) => Some(Err(e)),
        }
    }
}

/// What the next read of entries in a range of sequence numbers gives, and what
/// is left to read. Both ends belong to the range; with `to_seq` zero it is open
/// above. Entries before the range are passed over; at the first one behind it the
/// reading stops.
pub open spec fn range_next(s: Seq<u8>, from_seq: u64, to_seq: u64) -> (
    Option<Result<SignedEntryModel, LogError>>,
    Seq<u8>,
)
    decreases s.len(),
{
    let (read, n) = read_at(s);
    let rest = s.skip(n as int);
    match read {
        LogRead::End => (None, rest),
        LogRead::Fault(e) => (Some(Err(e)), rest),
        LogRead::Record(_, entry) => if entry.entry.seq < from_seq {
            if 0 < n <= s.len() {
                range_next(rest, from_seq, to_seq)
            } else {
                (None, rest)
            }
        } else if to_seq > 0 && entry.entry.seq > to_seq {
            (None, rest)
        } else {
            (Some(Ok(entry)), rest)
        },
    }
}

/// The entries in a range of sequence numbers, up to the first fault.
pub open spec fn range_entries(s: Seq<u8>, from_seq: u64, to_seq: u64) -> Seq<SignedEntryModel>
    decreases s.len(),
{
    let (next, rest) = range_next(s, from_seq, to_seq);
    match next {
        Some(Ok(e)) if rest.len() < s.len() => seq![e] + range_entries(rest, from_seq, to_seq),
        _ => Seq::empty(),
    }
}

/// What reading a log gives, one after the other.
pub open spec fn results_of(s: Seq<u8>) -> Seq<Result<SignedEntryModel, LogError>>
    decreases s.len(),
{
    let (next, rest) = range_next(s, 0, 0);
    match next {
        Some(x) if rest.len() < s.len() => seq![x] + results_of(rest),
        _ => Seq::empty(),
    }
}

/// An empty log has no entries.
pub proof fn lemma_nothing_in_range(from_seq: u64, to_seq: u64)
    ensures
        range_entries(Seq::empty(), from_seq, to_seq) == Seq::<SignedEntryModel>::empty(),
{
}

/// A log of readable entries whose sequence numbers do not go down gives, for a range,
/// exactly those of its entries whose number is at least `from_seq` and, unless `to_seq`
/// is zero, at most `to_seq`: all of them, in their order.
pub proof fn law_range_is_the_filtered_log(
    entries: Seq<SignedEntryModel>,
    from_seq: u64,
    to_seq: u64,
)
    requires
        forall|i: int| 0 <= i < entries.len() ==> readable(#[trigger] entries[i]),
        forall|i: int, j: int|
            0 <= i < j < entries.len() ==> (#[trigger] entries[i]).entry.seq <= (
            #[trigger] entries[j]).entry.seq,
    ensures
        range_entries(log_of(entries), from_seq, to_seq) == entries.filter(
            |e: SignedEntryModel|
                from_seq <= e.entry.seq && (to_seq == 0 || e.entry.seq <= to_seq),
        ),
    decreases entries.len(),
{
    let keep = |e: SignedEntryModel|
        from_seq <= e.entry.seq && (to_seq == 0 || e.entry.seq <= to_seq);
    if entries.len() == 0 {
        reveal(Seq::filter);
        assert(entries.filter(keep) =~= Seq::empty());
    } else {
        let e = entries[0];
        let tail = entries.drop_first();
        let rest = log_of(tail);
        assert forall|i: int| 0 <= i < tail.len() implies readable(#[trigger] tail[i]) by {
            assert(tail[i] == entries[i + 1]);
        }
        assert forall|i: int, j: int| 0 <= i < j < tail.len() implies (
        #[trigger] tail[i]).entry.seq <= (#[trigger] tail[j]).entry.seq by {
            assert(tail[i] == entries[i + 1] && tail[j] == entries[j + 1]);
        }
        law_range_is_the_filtered_log(tail, from_seq, to_seq);
        lemma_log_front(entries);
        lemma_range_step(e, rest, from_seq, to_seq);
        assert(entries =~= seq![e] + tail);
        Seq::filter_distributes_over_add(seq![e], tail, keep);
        assert(seq![e].filter(keep) == if keep(e) {
            seq![e]
        } else {
            Seq::empty()
        }) by {
            reveal(Seq::filter);
            assert(seq![e].drop_last() =~= Seq::empty());
            assert(Seq::<SignedEntryModel>::empty().filter(keep) =~= Seq::empty());
            assert(Seq::<SignedEntryModel>::empty().push(e) =~= seq![e]);
        }
        if e.entry.seq < from_seq {
            assert(Seq::<SignedEntryModel>::empty() + tail.filter(keep) =~= tail.filter(keep));
        } else if to_seq > 0 && e.entry.seq > to_seq {
            assert(tail.filter(keep) =~= Seq::empty()) by {
                if tail.filter(keep).len() > 0 {
                    let x = tail.filter(keep)[0];
                    tail.lemma_filter_pred(keep, 0);
                    tail.lemma_filter_contains_rev(keep, x);
                    let k = tail.index_of(x);
                    assert(entries[k + 1] == x);
                    assert(entries[0].entry.seq <= entries[k + 1].entry.seq);
                }
            }
            assert(Seq::<SignedEntryModel>::empty() + tail.filter(keep) =~= Seq::empty());
        }
    }
}

/// All that was appended to a log is read again, entry by entry, in the order in which
/// it was appended.
pub proof fn law_all_entries_are_read(entries: Seq<SignedEntryModel>)
    requires
        forall|i: int| 0 <= i < entries.len() ==> readable(#[trigger] entries[i]),
    ensures
        results_of(log_of(entries)) == entries.map_values(
            |e: SignedEntryModel| Ok::<SignedEntryModel, LogError>(e),
        ),
        range_entries(log_of(entries), 0, 0) == entries,
    decreases entries.len(),
{
    let ok = |e: SignedEntryModel| Ok::<SignedEntryModel, LogError>(e);
    if entries.len() > 0 {
        let e = entries[0];
        let tail = entries.drop_first();
        let rest = log_of(tail);
        assert forall|i: int| 0 <= i < tail.len() implies readable(#[trigger] tail[i]) by {
            assert(tail[i] == entries[i + 1]);
        }
        law_all_entries_are_read(tail);
        lemma_log_front(entries);
        lemma_results_step(e, rest);
        lemma_range_step(e, rest, 0, 0);
        assert(seq![ok(e)] + tail.map_values(ok) =~= entries.map_values(ok));
        assert(seq![e] + tail =~= entries);
    } else {
        assert(entries.map_values(ok) =~= Seq::empty());
        assert(entries =~= Seq::empty());
    }
}

/// What a range gives of a log that starts with the record of an acceptable entry.
proof fn lemma_range_step(e: SignedEntryModel, rest: Seq<u8>, from_seq: u64, to_seq: u64)
    requires
        readable(e),
    ensures
        range_entries(record_bytes(e) + rest, from_seq, to_seq) == if e.entry.seq < from_seq {
            range_entries(rest, from_seq, to_seq)
        } else if to_seq > 0 && e.entry.seq > to_seq {
            Seq::empty()
        } else {
            seq![e] + range_entries(rest, from_seq, to_seq)
        },
{
    let s = record_bytes(e) + rest;
    law_record_round_trip(e, rest);
    assert(s.skip(record_bytes(e).len() as int) =~= rest);
    lemma_range_moves(rest, from_seq, to_seq);
}

/// What is read of a log that starts with the record of an acceptable entry.
proof fn lemma_results_step(e: SignedEntryModel, rest: Seq<u8>)
    requires
        readable(e),
    ensures
        results_of(record_bytes(e) + rest) == seq![Ok::<SignedEntryModel, LogError>(e)]
            + results_of(rest),
{
    let s = record_bytes(e) + rest;
    law_record_round_trip(e, rest);
    assert(s.skip(record_bytes(e).len() as int) =~= rest);
}

/// A log starts with the record of its first entry.
proof fn lemma_log_front(entries: Seq<SignedEntryModel>)
    requires
        entries.len() > 0,
    ensures
        log_of(entries) == record_bytes(entries[0]) + log_of(entries.drop_first()),
    decreases entries.len(),
{
    let tail = entries.drop_first();
    if entries.len() == 1 {
        assert(entries.drop_last() =~= Seq::empty());
        assert(tail =~= Seq::empty());
        assert(log_of(entries) =~= record_bytes(entries[0]) + log_of(tail));
    } else {
        lemma_log_front(entries.drop_last());
        assert(entries.drop_last().drop_first() =~= tail.drop_last());
        assert(log_of(entries) =~= record_bytes(entries[0]) + log_of(tail));
    }
}

/// A read that gives something has moved forward.
proof fn lemma_range_moves(s: Seq<u8>, from_seq: u64, to_seq: u64)
    ensures
        range_next(s, from_seq, to_seq).1.len() <= s.len(),
        range_next(s, from_seq, to_seq).0 is Some ==> range_next(s, from_seq, to_seq).1.len()
            < s.len(),
    decreases s.len(),
{
    lemma_read_bounds(s);
    let (read, n) = read_at(s);
    if let LogRead::Record(_, entry) = read {
        if entry.entry.seq < from_seq {
            lemma_range_moves(s.skip(n as int), from_seq, to_seq);
        }
    }
}

/// Reads the entries of a log, all of them or those in a range of sequence
/// numbers.
pub struct EntryIter {
    reader: LogReader,
    from_seq: u64,
    to_seq: u64,
}

impl EntryIter {
    /// The bytes that have not been read yet.
    pub closed spec fn rest(&self) -> Seq<u8> {
        self.reader.rest()
    }

    /// The first sequence number that is of interest.
    pub closed spec fn from_seq(&self) -> u64 {
        self.from_seq
    }

    /// The last sequence number that is of interest; zero where there is none.
    pub closed spec fn to_seq(&self) -> u64 {
        self.to_seq
    }

    /// The reader is well formed.
    pub closed spec fn wf(&self) -> bool {
        self.reader.wf()
    }

    /// Reads the entries of a log in a range of sequence numbers.
    pub fn new(reader: LogReader, from_seq: u64, to_seq: u64) -> (r: Self)
        requires
            reader.wf(),
        ensures
            r.wf(),
            r.rest() == reader.rest(),
            r.from_seq() == from_seq,
            r.to_seq() == to_seq,
    {
        EntryIter { reader, from_seq, to_seq }
    }

    /// The next entry of the range.
    pub fn next(&mut self) -> (r: Option<Result<SignedEntry, LogError>>)
        requires
            old(self).wf(),
        ensures
            final(self).wf(),
            final(self).from_seq() == old(self).from_seq(),
            final(self).to_seq() == old(self).to_seq(),
            ({
                let (next, rest) = range_next(
                    old(self).rest(),
                    old(self).from_seq(),
                    old(self).to_seq(),
                );
                &&& final(self).rest() == rest
                &&& match next {
                    None => r is None,
                    Some(Err(e)) => r == Some(Err::<SignedEntry, LogError>(e)),
                    Some(Ok(entry)) => r matches Some(Ok(x)) && x@ == entry,
                }
            }),
            r is Some ==> final(self).rest().len() < old(self).rest().len(),
    {
        let ghost from = self.from_seq;
        let ghost to = self.to_seq;
        let ghost start = self.reader.rest();
        loop
            invariant
                self.reader.wf(),
                self.from_seq == from,
                self.to_seq == to,
                start == old(self).reader.rest(),
                from == old(self).from_seq,
                to == old(self).to_seq,
                range_next(start, from, to) == range_next(self.reader.rest(), from, to),
                self.reader.rest().len() <= start.len(),
            decreases self.reader.rest().len(),
        {
            let ghost here = self.reader.rest();
            match self.reader.next() {
                None => {
                    return None;
                },
                Some(Err(e)) => {
                    return Some(Err(e));
                },
                Some(Ok((_, entry))) => {
                    let seq: u64 = entry.entry.seq;
                    if seq < self.from_seq {
                        continue ;
                    }
                    if self.to_seq > 0 && seq > self.to_seq {
                        return None;
                    }
                    return Some(Ok(entry));
                },
            }
        }
    }
}

// ---------------------------------------------------------------------------
// The log
// ---------------------------------------------------------------------------

/// A log: the contents of a log file and the path where they are kept.
pub struct Log {
    path: Vec<u8>,
    contents: Vec<u8>,
}

impl Log {
    /// The path of the log file.
    pub closed spec fn path_bytes(&self) -> Seq<u8> {
        self.path@
    }

    /// The bytes of the log.
    pub closed spec fn contents(&self) -> Seq<u8> {
        self.contents@
    }

    /// The log in an existing file, whose contents are given; an error where
    /// there is no such file.
    pub fn open(path: Vec<u8>, contents: Option<Vec<u8>>) -> (r: Result<Log, LogError>)
        ensures
            match contents {
                Some(b) => r matches Ok(log) && log.path_bytes() == path@ && log.contents() == b@,
                None => r == Err::<Log, LogError>(LogError::Io(IoError::File)),
            },
    {
        match contents {
            Some(contents) => Ok(Log { path, contents }),
            None => Err(LogError::Io(IoError::File)),
        }
    }

    /// The log in a file, whose contents are given; an empty log where there is
    /// no such file.
    pub fn open_or_create(path: Vec<u8>, contents: Option<Vec<u8>>) -> (r: Log)
        ensures
            r.path_bytes() == path@,
            r.contents() == match contents {
                Some(b) => b@,
                None => Seq::<u8>::empty(),
            },
    {
        match contents {
            Some(contents) => Log { path, contents },
            None => Log { path, contents: Vec::new() },
        }
    }

    /// Appends an entry's record. An entry that is too large is refused and
    /// leaves the log as it was.
    pub fn append(&mut self, entry: &SignedEntry) -> (r: Result<(), LogError>)
        ensures
            final(self).path_bytes() == old(self).path_bytes(),
            if entry@.encoding().len() > MAX_ENTRY_SIZE {
                &&& r == Err::<(), LogError>(
                    LogError::EntryTooLarge(entry@.encoding().len() as usize),
                )
                &&& final(self).contents() == old(self).contents()
            } else {
                &&& r == Ok::<(), LogError>(())
                &&& final(self).contents() == old(self).contents() + record_bytes(entry@)
            },
    {
        let entry_bytes = entry.encode();
        if entry_bytes.len() > MAX_ENTRY_SIZE {
            return Err(LogError::EntryTooLarge(entry_bytes.len()));
        }
        let hash = hash_bytes(entry_bytes.as_slice());
        let record = LogRecord { hash: to_vec(hash.as_slice()), entry_bytes };
        let mut body: Vec<u8> = message::encode(&record);
        let ghost before = self.contents@;
        put_varint(body.len() as u64, &mut self.contents);
        self.contents.append(&mut body);
        assert(self.contents@ =~= before + record_bytes(entry@));
        Ok(())
    }

    /// Reads all entries of the log.
    pub fn iter(&self) -> (r: EntryIter)
        ensures
            r.wf(),
            r.rest() == self.contents(),
            r.from_seq() == 0,
            r.to_seq() == 0,
    {
        EntryIter::new(LogReader::from_file(self.contents.as_slice()), 0, 0)
    }

    /// Reads the entries of the log in a range of sequence numbers.
    pub fn iter_range(&self, from_seq: u64, to_seq: u64) -> (r: EntryIter)
        ensures
            r.wf(),
            r.rest() == self.contents(),
            r.from_seq() == from_seq,
            r.to_seq() == to_seq,
    {
        EntryIter::new(LogReader::from_file(self.contents.as_slice()), from_seq, to_seq)
    }

    /// What reading the log gives, one after the other.
    pub fn read_all(&self) -> (r: Vec<Result<SignedEntry, LogError>>)
        ensures
            result_models(r@) == results_of(self.contents()),
            r@.len() <= self.contents().len(),
    {
        let ghost all = results_of(self.contents());
        let mut out: Vec<Result<SignedEntry, LogError>> = Vec::new();
        let mut iter = self.iter();
        proof {
            assert(result_models(out@) =~= Seq::empty());
            assert(Seq::empty() + all =~= all);
        }
        loop
            invariant
                iter.wf(),
                iter.from_seq() == 0,
                iter.to_seq() == 0,
                result_models(out@) + results_of(iter.rest()) == all,
                out@.len() + iter.rest().len() <= self.contents().len(),
                all == results_of(self.contents()),
            decreases iter.rest().len(),
        {
            let ghost before = out@;
            match iter.next() {
                Some(x) => {
                    let ghost y = result_model(x);
                    out.push(x);
                    proof {
                        let so_far = result_models(before);
                        let after = results_of(iter.rest());
                        assert(result_models(out@) =~= so_far.push(y));
                        assert(so_far + (seq![y] + after) =~= so_far.push(y) + after);
                    }
                },
                None => {
                    assert(result_models(before) + Seq::<
                        Result<SignedEntryModel, LogError>,
                    >::empty() =~= result_models(before));
                    return out;
                },
            }
        }
    }

    /// The entries in a range of sequence numbers, up to the first fault.
    pub fn entries_in_range(&self, from_seq: u64, to_seq: u64) -> (r: Vec<SignedEntry>)
        ensures
            crate::message::models(r@) == range_entries(self.contents(), from_seq, to_seq),
    {
        let ghost all = range_entries(self.contents(), from_seq, to_seq);
        let mut out: Vec<SignedEntry> = Vec::new();
        let mut iter = self.iter_range(from_seq, to_seq);
        proof {
            assert(crate::message::models(out@) =~= Seq::empty());
            assert(Seq::empty() + all =~= all);
        }
        loop
            invariant
                iter.wf(),
                iter.from_seq() == from_seq,
                iter.to_seq() == to_seq,
                crate::message::models(out@) + range_entries(iter.rest(), from_seq, to_seq) == all,
                all == range_entries(self.contents(), from_seq, to_seq),
            decreases iter.rest().len(),
        {
            let ghost before = crate::message::models(out@);
            match iter.next() {
                Some(Ok(e)) => {
                    let ghost x = e@;
                    out.push(e);
                    proof {
                        let after = range_entries(iter.rest(), from_seq, to_seq);
                        assert(crate::message::models(out@) =~= before.push(x));
                        assert(before + (seq![x] + after) =~= before.push(x) + after);
                    }
                },
                _ => {
                    assert(before + Seq::<SignedEntryModel>::empty() =~= before);
                    return out;
                },
            }
        }
    }

    /// The path of the log file.
    pub fn path(&self) -> (r: &[u8])
        ensures
            r@ == self.path_bytes(),
    {
        self.path.as_slice()
    }

    /// The bytes of the log.
    pub fn bytes(&self) -> (r: &[u8])
        ensures
            r@ == self.contents(),
    {
        self.contents.as_slice()
    }
}

/// The models of what reading a log gives.
pub open spec fn result_models(entries: Seq<Result<SignedEntry, LogError>>) -> Seq<
    Result<SignedEntryModel, LogError>,
> {
    entries.map_values(|e: Result<SignedEntry, LogError>| result_model(e))
}

/// The model of what one read of a log gives.
pub open spec fn result_model(e: Result<SignedEntry, LogError>) -> Result<
    SignedEntryModel,
    LogError,
> {
    match e {
        Ok(x) => Ok(x@),
        Err(e) => Err(e),
    }
}

} // verus!
