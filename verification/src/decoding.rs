//! What decoding is: how the strings of one record are read, and how the
//! records of a stream follow one another.

use crate::base64_text::decoding;
use crate::digest::{digest_limit, sha256};
use vstd::prelude::*;
use vstd::utf8::*;

verus! {

/// What can go wrong when records are read.
#[derive(Debug)]
pub enum PolysemeParseError {
    /// A string that had to be base-64 text was not.
    Base64DecodingError(base64::DecodeError),
    /// Kept for callers who want to tell a read after the end from the end.
    AlreadyReachedEndOfFile,
    /// The hash of a record is not the hash of its strings.
    HashVerificationError,
    /// Kept for a record whose first string is no hash.
    ExpectedHash,
    /// There is no record under the label that was asked for.
    EmptyResult,
    /// Every label that a 64-bit counter can number has been used.
    CounterExhausted,
}

impl From<base64::DecodeError> for PolysemeParseError {
    fn from(err: base64::DecodeError) -> (res: PolysemeParseError) {
        PolysemeParseError::Base64DecodingError(err)
    }
}

impl vstd::std_specs::convert::FromSpecImpl<base64::DecodeError> for PolysemeParseError {
    open spec fn obeys_from_spec() -> bool {
        true
    }

    open spec fn from_spec(err: base64::DecodeError) -> PolysemeParseError {
        PolysemeParseError::Base64DecodingError(err)
    }
}

/// The length of the text of a digest, by which the end marker is looked for.
pub const MARKER_LEN: usize = 44;

/// How far the reading of one record has come.
pub struct Scan {
    /// Text that waits for the rest of its group of four characters.
    pub pending: Seq<u8>,
    /// The payload read from this record.
    pub output: Seq<u8>,
    /// The bytes of the strings read, which the hash must cover.
    pub fed: Seq<u8>,
    /// Whether the end marker was met.
    pub eof: bool,
    /// The error that stopped the reading, if one did.
    pub failure: Option<base64::DecodeError>,
}

/// The state before the first string after the hash is read.
pub open spec fn scan_start(pending: Seq<u8>) -> Scan {
    Scan {
        pending,
        output: Seq::empty(),
        fed: Seq::empty(),
        eof: false,
        failure: None,
    }
}

/// Whether a string is the end marker: 44 bytes that decode to the digest of
/// the secret.
pub open spec fn is_marker(sentinel: Seq<u8>, entry: Seq<u8>) -> bool {
    entry.len() == MARKER_LEN && decoding(entry) == Ok::<Seq<u8>, base64::DecodeError>(sentinel)
}

/// Reading the end marker: what still waited is decoded as it stands.
pub open spec fn scan_marker(s: Scan, entry: Seq<u8>) -> Scan {
    match decoding(s.pending) {
        Ok(rest) => Scan { fed: s.fed + entry, output: s.output + rest, eof: true, ..s },
        Err(e) => Scan { fed: s.fed + entry, eof: true, failure: Some(e), ..s },
    }
}

/// Reading a string of payload: it joins what waited, the whole groups of
/// four are decoded, and the rest waits on.
pub open spec fn scan_content(s: Scan, entry: Seq<u8>) -> Scan {
    let joined = s.pending + entry;
    let whole = 4 * (joined.len() / 4);
    match decoding(joined.subrange(0, whole as int)) {
        Ok(bytes) => Scan {
            fed: s.fed + entry,
            output: s.output + bytes,
            pending: joined.subrange(whole as int, joined.len() as int),
            ..s
        },
        Err(e) => Scan { fed: s.fed + entry, pending: joined, failure: Some(e), ..s },
    }
}

/// Reading one string. After the end marker or an error nothing more is
/// read. A string of 44 bytes is first tried as the end marker, and must
/// decode by itself.
pub open spec fn scan_entry(sentinel: Seq<u8>, s: Scan, entry: Seq<u8>) -> Scan {
    if s.eof || s.failure is Some {
        s
    } else if entry.len() == MARKER_LEN && decoding(entry) is Err {
        Scan { fed: s.fed + entry, failure: Some(decoding(entry)->Err_0), ..s }
    } else if is_marker(sentinel, entry) {
        scan_marker(s, entry)
    } else {
        scan_content(s, entry)
    }
}

/// Reading strings one after the other.
pub open spec fn scan(sentinel: Seq<u8>, start: Scan, entries: Seq<Seq<u8>>) -> Scan
    decreases entries.len(),
{
    if entries.len() == 0 {
        start
    } else {
        scan_entry(sentinel, scan(sentinel, start, entries.drop_last()), entries.last())
    }
}

/// Once the end marker was met or an error occurred, further strings change
/// nothing.
pub proof fn lemma_scan_stops(sentinel: Seq<u8>, start: Scan, entries: Seq<Seq<u8>>, i: int)
    requires
        0 <= i <= entries.len(),
        ({
            let s = scan(sentinel, start, entries.take(i));
            s.eof || s.failure is Some
        }),
    ensures
        scan(sentinel, start, entries) == scan(sentinel, start, entries.take(i)),
    decreases entries.len() - i,
{
    if i == entries.len() {
        assert(entries.take(i) =~= entries);
    } else {
        lemma_scan_step(sentinel, start, entries, i);
        lemma_scan_stops(sentinel, start, entries, i + 1);
    }
}

/// Reading one string more.
pub proof fn lemma_scan_step(sentinel: Seq<u8>, start: Scan, entries: Seq<Seq<u8>>, i: int)
    requires
        0 <= i < entries.len(),
    ensures
        scan(sentinel, start, entries.take(i + 1)) == scan_entry(
            sentinel,
            scan(sentinel, start, entries.take(i)),
            entries[i],
        ),
{
    assert(entries.take(i + 1).drop_last() =~= entries.take(i));
}

/// What one read gives and leaves.
pub struct Outcome {
    /// The payload of the record, nothing if it has none, or the error.
    pub result: Result<Option<Seq<u8>>, PolysemeParseError>,
    /// The text that waits for the next record.
    pub pending: Seq<u8>,
    /// Whether the end marker was met.
    pub eof: bool,
}

/// What is made of a record once its strings were read: the error that
/// stopped the reading; or that the hash does not verify, because the
/// strings are too long to be hashed or have another hash; or the payload.
pub open spec fn verdict(expected: Seq<u8>, s: Scan) -> Result<
    Option<Seq<u8>>,
    PolysemeParseError,
> {
    if s.failure is Some {
        Err(PolysemeParseError::Base64DecodingError(s.failure->0))
    } else if s.fed.len() >= digest_limit() || sha256(s.fed)@ != expected {
        Err(PolysemeParseError::HashVerificationError)
    } else if s.output.len() == 0 {
        Ok(None)
    } else {
        Ok(Some(s.output))
    }
}

/// The bytes of each string.
pub open spec fn bytes_of(texts: Seq<Seq<char>>) -> Seq<Seq<u8>> {
    Seq::new(texts.len(), |i: int| encode_utf8(texts[i]))
}

/// What reading the record with the strings `texts` gives, when `pending`
/// waited from the record before: no strings are no record; the first string
/// must decode, to the hash; the others are read in turn.
pub open spec fn record_outcome(
    sentinel: Seq<u8>,
    pending: Seq<u8>,
    texts: Seq<Seq<char>>,
) -> Outcome {
    if texts.len() == 0 {
        Outcome { result: Err(PolysemeParseError::EmptyResult), pending, eof: false }
    } else {
        match decoding(encode_utf8(texts[0])) {
            Err(e) => Outcome {
                result: Err(PolysemeParseError::Base64DecodingError(e)),
                pending,
                eof: false,
            },
            Ok(expected) => {
                let s = scan(
                    sentinel,
                    scan_start(pending),
                    bytes_of(texts.subrange(1, texts.len() as int)),
                );
                Outcome { result: verdict(expected, s), pending: s.pending, eof: s.eof }
            },
        }
    }
}

/// How far the reading of a stream has come.
pub struct Progress {
    /// The payload read so far.
    pub output: Seq<u8>,
    /// The text that waits for the next record.
    pub pending: Seq<u8>,
    /// Whether the end marker was met.
    pub eof: bool,
    /// The number of labels used.
    pub labels: nat,
    /// How the reading ended, once it has: with all the payload, or with an
    /// error.
    pub ended: Option<Result<Seq<u8>, PolysemeParseError>>,
}

/// The state in which the reading of a stream starts or goes on.
pub open spec fn progress_start(pending: Seq<u8>, eof: bool, labels: nat) -> Progress {
    Progress { output: Seq::empty(), pending, eof, labels, ended: None }
}

/// One more read, which gets the record with the strings `texts`. After the
/// end marker no record is asked for. A record without payload ends the
/// reading as the end marker does.
pub open spec fn advance(sentinel: Seq<u8>, p: Progress, texts: Seq<Seq<char>>) -> Progress {
    if p.ended is Some {
        p
    } else if p.eof {
        Progress { ended: Some(Ok(p.output)), ..p }
    } else if p.labels >= u64::MAX {
        Progress { ended: Some(Err(PolysemeParseError::CounterExhausted)), ..p }
    } else {
        let o = record_outcome(sentinel, p.pending, texts);
        match o.result {
            Err(e) => Progress {
                pending: o.pending,
                eof: o.eof,
                labels: p.labels + 1,
                ended: Some(Err(e)),
                ..p
            },
            Ok(None) => Progress {
                pending: o.pending,
                eof: o.eof,
                labels: p.labels + 1,
                ended: Some(Ok(p.output)),
                ..p
            },
            Ok(Some(bytes)) => Progress {
                output: p.output + bytes,
                pending: o.pending,
                eof: o.eof,
                labels: p.labels + 1,
                ended: None,
            },
        }
    }
}

/// Reading a stream whose reads get the records `records`, in this order.
pub open spec fn replay(
    sentinel: Seq<u8>,
    start: Progress,
    records: Seq<Seq<Seq<char>>>,
) -> Progress
    decreases records.len(),
{
    if records.len() == 0 {
        start
    } else {
        advance(sentinel, replay(sentinel, start, records.drop_last()), records.last())
    }
}

/// What a reading that is not asked for more gives: its end if it has
/// ended, and its payload if the end marker was met.
pub open spec fn conclusion(p: Progress) -> Option<Result<Seq<u8>, PolysemeParseError>> {
    if p.ended is Some {
        p.ended
    } else if p.eof {
        Some(Ok(p.output))
    } else {
        None
    }
}

} // verus!
