//! The decoder: it asks for one record after the other, checks each against
//! its hash, and hands out the payload.

use crate::base64_text::{base64_decode, decoding};
use crate::content::{bytes_equal, ContentSet, HashContext};
use crate::decoding::{
    advance, bytes_of, conclusion, lemma_scan_step, lemma_scan_stops, progress_start,
    record_outcome, replay, scan, scan_entry, scan_start, MARKER_LEN, PolysemeParseError, Progress,
};
use crate::digest::{digest_limit, sha256, sha256_digest, within_digest_limit};
use crate::label::{label, next_ahotp};
use std::collections::hash_map::RandomState;
use std::collections::HashMap;
use vstd::prelude::*;
use vstd::slice::*;
use vstd::std_specs::hash::*;
use vstd::string::*;
use vstd::utf8::*;

verus! {

/// Where the records come from: the strings published under a label, in the
/// order in which they were published; none if there is no such record.
pub trait RecordFetcher {
    fn record(&self, name: &str) -> Vec<String>;
}

/// The state of a decoding in progress.
pub struct PolysemeParser {
    record_fetcher: Box<dyn RecordFetcher>,
    hashed_key: [u8; 32],
    shared_key: Vec<u8>,
    counter: u64,
    reached_eof: bool,
    base64_buffer: Vec<u8>,
}

/// The strings of a record as sequences of characters.
pub open spec fn texts_of(entries: Seq<String>) -> Seq<Seq<char>> {
    Seq::new(entries.len(), |i: int| entries[i]@)
}

/// What a read gives, with the payload as a sequence.
pub open spec fn read_view(res: Result<Option<Vec<u8>>, PolysemeParseError>) -> Result<
    Option<Seq<u8>>,
    PolysemeParseError,
> {
    match res {
        Ok(Some(bytes)) => Ok(Some(bytes@)),
        Ok(None) => Ok(None),
        Err(e) => Err(e),
    }
}

/// What reading to the end gives, with the payload as a sequence.
pub open spec fn stream_view(res: Result<Vec<u8>, PolysemeParseError>) -> Result<
    Seq<u8>,
    PolysemeParseError,
> {
    match res {
        Ok(bytes) => Ok(bytes@),
        Err(e) => Err(e),
    }
}

impl PolysemeParser {
    /// The secret under which the records were made.
    pub closed spec fn secret(&self) -> Seq<u8> {
        self.shared_key@
    }

    /// The text that waits for the next record: less than a group of four
    /// characters after every read that succeeds.
    pub closed spec fn pending(&self) -> Seq<u8> {
        self.base64_buffer@
    }

    /// Whether the end marker was met.
    pub closed spec fn at_end(&self) -> bool {
        self.reached_eof
    }

    /// The number of labels that were asked for.
    pub closed spec fn labels_used(&self) -> nat {
        self.counter as nat
    }

    /// The parser knows the digest of its secret.
    pub closed spec fn wf(&self) -> bool {
        &&& self.shared_key@.len() < digest_limit()
        &&& self.hashed_key == sha256(self.shared_key@)
    }

    /// The end marker's bytes: the digest of the secret.
    pub open spec fn sentinel(&self) -> Seq<u8> {
        sha256(self.secret())@
    }

    /// Whether `self` and `res` are what reading the record with the strings
    /// `texts` makes of `before`.
    pub open spec fn follows(
        &self,
        before: &PolysemeParser,
        texts: Seq<Seq<char>>,
        res: Result<Option<Vec<u8>>, PolysemeParseError>,
    ) -> bool {
        let o = record_outcome(before.sentinel(), before.pending(), texts);
        &&& read_view(res) == o.result
        &&& self.pending() == o.pending
        &&& self.at_end() == o.eof
    }

    /// Where a parser stands in the reading of its stream.
    pub open spec fn progress(&self) -> Progress {
        progress_start(self.pending(), self.at_end(), self.labels_used())
    }

    /// Whether `self` and `res` are what reading to the end makes of
    /// `before` when the reads get the records `records`, in this order.
    pub open spec fn accounts_for(
        &self,
        before: &PolysemeParser,
        records: Seq<Seq<Seq<char>>>,
        res: Result<Vec<u8>, PolysemeParseError>,
    ) -> bool {
        let p = replay(before.sentinel(), before.progress(), records);
        &&& conclusion(p) == Some(stream_view(res))
        &&& self.pending() == p.pending
        &&& self.at_end() == p.eof
        &&& self.labels_used() == p.labels
    }

    /// A parser at the start of the stream.
    pub fn new(shared_key: &[u8], record_fetcher: Box<dyn RecordFetcher>) -> (parser:
        PolysemeParser)
        requires
            shared_key@.len() < digest_limit(),
        ensures
            parser.wf(),
            parser.secret() == shared_key@,
            parser.pending() == Seq::<u8>::empty(),
            !parser.at_end(),
            parser.labels_used() == 0,
    {
        let shared_key = slice_to_vec(shared_key);
        let hashed_key = sha256_digest(shared_key.as_slice());
        PolysemeParser {
            record_fetcher,
            hashed_key,
            shared_key,
            counter: 0,
            reached_eof: false,
            base64_buffer: Vec::new(),
        }
    }

    /// Reads the record whose strings are `entries`: checks them against the
    /// hash in the first and gives the payload of the others.
    pub fn read_record(&mut self, entries: Vec<String>) -> (res: Result<
        Option<Vec<u8>>,
        PolysemeParseError,
    >)
        requires
            old(self).wf(),
            !old(self).at_end(),
        ensures
            final(self).wf(),
            final(self).secret() == old(self).secret(),
            final(self).labels_used() == old(self).labels_used(),
            final(self).follows(old(self), texts_of(entries@), res),
    {
        let ghost texts = texts_of(entries@);
        let ghost sentinel = self.sentinel();
        let ghost start = scan_start(self.base64_buffer@);
        let ghost rest = bytes_of(texts.subrange(1, texts.len() as int));
        let count = entries.len();
        if count == 0 {
            return Err(PolysemeParseError::EmptyResult);
        }
        let hash = match base64_decode(entries[0].as_str().as_bytes()) {
            Ok(hash) => hash,
            Err(e) => {
                return Err(PolysemeParseError::from(e));
            },
        };
        let mut ctx = HashContext::new();
        let mut buffer: Vec<u8> = Vec::new();
        let mut i: usize = 1;
        let ghost mut s = start;
        proof {
            assert(rest.take(0) =~= Seq::<Seq<u8>>::empty());
        }
        while i < count && !self.reached_eof
            invariant
                1 <= i <= count,
                count == entries@.len(),
                texts == texts_of(entries@),
                rest == bytes_of(texts.subrange(1, texts.len() as int)),
                start == scan_start(old(self).base64_buffer@),
                sentinel == sha256(self.shared_key@)@,
                self.wf(),
                self.shared_key == old(self).shared_key,
                self.counter == old(self).counter,
                decoding(encode_utf8(texts[0])) == Ok::<Seq<u8>, base64::DecodeError>(hash@),
                !old(self).reached_eof,
                s == scan(sentinel, start, rest.take(i - 1)),
                s.failure is None,
                s.pending == self.base64_buffer@,
                s.output == buffer@,
                s.fed == ctx@,
                s.eof == self.reached_eof,
                s.eof ==> i > 1,
            decreases count - i,
        {
            let entry = entries[i].as_str().as_bytes();
            let ghost before = s;
            proof {
                assert(rest[i - 1] == entry@);
                lemma_scan_step(sentinel, start, rest, i - 1);
                s = scan_entry(sentinel, before, entry@);
            }
            ctx.update(entry);
            let mut marker = false;
            if entry.len() == MARKER_LEN {
                match base64_decode(entry) {
                    Err(e) => {
                        proof {
                            lemma_scan_stops(sentinel, start, rest, i as int);
                        }
                        return Err(PolysemeParseError::from(e));
                    },
                    Ok(data) => {
                        marker = bytes_equal(data.as_slice(), self.hashed_key.as_slice());
                    },
                }
            }
            if marker {
                self.reached_eof = true;
                match base64_decode(self.base64_buffer.as_slice()) {
                    Err(e) => {
                        proof {
                            lemma_scan_stops(sentinel, start, rest, i as int);
                        }
                        return Err(PolysemeParseError::from(e));
                    },
                    Ok(data) => {
                        let mut data = data;
                        buffer.append(&mut data);
                    },
                }
            } else {
                self.base64_buffer.extend_from_slice(entry);
                assert(self.base64_buffer@ =~= before.pending + entry@);
                let len = self.base64_buffer.len();
                let whole = len - len % 4;
                match base64_decode(slice_subrange(self.base64_buffer.as_slice(), 0, whole)) {
                    Err(e) => {
                        proof {
                            lemma_scan_stops(sentinel, start, rest, i as int);
                        }
                        return Err(PolysemeParseError::from(e));
                    },
                    Ok(data) => {
                        let mut data = data;
                        let waiting = slice_to_vec(
                            slice_subrange(self.base64_buffer.as_slice(), whole, len),
                        );
                        self.base64_buffer = waiting;
                        buffer.append(&mut data);
                    },
                }
            }
            i += 1;
        }
        proof {
            if i < count {
                lemma_scan_stops(sentinel, start, rest, i - 1);
            } else {
                assert(rest.take(i - 1) =~= rest);
            }
            assert(s == scan(sentinel, start, rest));
        }
        if !within_digest_limit(ctx.len()) {
            return Err(PolysemeParseError::HashVerificationError);
        }
        let digest = ctx.finish();
        if !bytes_equal(hash.as_slice(), digest.as_slice()) {
            return Err(PolysemeParseError::HashVerificationError);
        }
        if buffer.len() == 0 {
            Ok(None)
        } else {
            Ok(Some(buffer))
        }
    }

    /// Reads the next record: asks for it under the next label and reads
    /// what comes back. After the end marker it asks for nothing and gives
    /// nothing.
    pub fn read(&mut self) -> (res: Result<Option<Vec<u8>>, PolysemeParseError>)
        requires
            old(self).wf(),
        ensures
            final(self).wf(),
            final(self).secret() == old(self).secret(),
            old(self).at_end() ==> read_view(res) == Ok::<
                Option<Seq<u8>>,
                PolysemeParseError,
            >(None) && final(self).progress() == old(self).progress(),
            !old(self).at_end() && old(self).labels_used() >= u64::MAX ==> res == Err::<
                Option<Vec<u8>>,
                PolysemeParseError,
            >(PolysemeParseError::CounterExhausted) && final(self).progress() == old(
                self,
            ).progress(),
            !old(self).at_end() && old(self).labels_used() < u64::MAX ==> final(self).labels_used()
                == old(self).labels_used() + 1 && exists|texts: Seq<Seq<char>>| #[trigger]
                final(self).follows(old(self), texts, res),
    {
        if self.reached_eof {
            return Ok(None);
        }
        if self.counter == u64::MAX {
            return Err(PolysemeParseError::CounterExhausted);
        }
        let record_name = next_ahotp(&mut self.counter, self.shared_key.as_slice());
        let entries = self.record_fetcher.record(record_name.as_str());
        let ghost texts = texts_of(entries@);
        let ghost before = *self;
        let res = self.read_record(entries);
        proof {
            assert(self.follows(&before, texts, res));
            assert(self.follows(old(self), texts, res));
        }
        res
    }

    /// Reads until the end marker was met or a record gives no payload, and
    /// gives all the payload in order. The first error ends the reading.
    pub fn read_to_end(&mut self) -> (res: Result<Vec<u8>, PolysemeParseError>)
        requires
            old(self).wf(),
        ensures
            final(self).wf(),
            final(self).secret() == old(self).secret(),
            exists|records: Seq<Seq<Seq<char>>>| #[trigger]
                final(self).accounts_for(old(self), records, res),
    {
        let mut buffer: Vec<u8> = Vec::new();
        let ghost sentinel = self.sentinel();
        let ghost start = self.progress();
        let ghost mut records: Seq<Seq<Seq<char>>> = Seq::empty();
        loop
            invariant
                self.wf(),
                self.secret() == old(self).secret(),
                sentinel == old(self).sentinel(),
                start == old(self).progress(),
                replay(sentinel, start, records) == (Progress {
                    output: buffer@,
                    pending: self.pending(),
                    eof: self.at_end(),
                    labels: self.labels_used(),
                    ended: None,
                }),
            decreases u64::MAX - self.counter,
        {
            let ghost before = *self;
            let ghost p = replay(sentinel, start, records);
            let step = self.read();
            proof {
                let texts = if !before.at_end() && before.labels_used() < u64::MAX {
                    choose|texts: Seq<Seq<char>>| #[trigger] self.follows(&before, texts, step)
                } else {
                    Seq::<Seq<char>>::empty()
                };
                let longer = records.push(texts);
                assert(longer.drop_last() =~= records);
                assert(replay(sentinel, start, longer) == advance(sentinel, p, texts));
                if before.at_end() {
                    assert(self.accounts_for(old(self), records, Ok(buffer)));
                }
                records = longer;
            }
            match step {
                Err(e) => {
                    proof {
                        assert(self.accounts_for(old(self), records, Err(e)));
                    }
                    return Err(e);
                },
                Ok(None) => {
                    proof {
                        if !before.at_end() {
                            assert(self.accounts_for(old(self), records, Ok(buffer)));
                        }
                    }
                    return Ok(buffer);
                },
                Ok(Some(data)) => {
                    let mut data = data;
                    buffer.append(&mut data);
                },
            }
        }
    }
}

/// Whether `texts` are the strings of the set that `table` holds under
/// `name`, or there is no such set and no strings.
pub open spec fn looked_up(table: Map<String, ContentSet>, name: &str, texts: Seq<String>) -> bool {
    ||| exists|set: ContentSet| #[trigger]
        maps_borrowed_key_to_value(table, name, set) && texts_of(texts) == set@.texts()
    ||| !contains_borrowed_key(table, name) && texts.len() == 0
}

impl RecordFetcher for HashMap<String, ContentSet> {
    /// The strings of the set that the table holds under `name`; none if it
    /// holds no set under it. This is stated as far as hash maps with
    /// strings as keys are specified: on the condition that they behave as
    /// maps.
    fn record(&self, name: &str) -> (texts: Vec<String>)
        ensures
            obeys_key_model::<String>() && builds_valid_hashers::<RandomState>() ==> looked_up(
                self@,
                name,
                texts@,
            ),
    {
        match self.get(name) {
            Some(item) => {
                let mut texts: Vec<String> = Vec::new();
                let mut i: usize = 0;
                while i < item.entries.len()
                    invariant
                        i <= item.entries@.len(),
                        texts@.len() == i,
                        forall|j: int|
                            0 <= j < i ==> (#[trigger] texts@[j])@ == item@.entries[j].text(),
                    decreases item.entries@.len() - i,
                {
                    texts.push(item.entries[i].to_string());
                    i += 1;
                }
                proof {
                    assert(texts_of(texts@) =~= item@.texts());
                    if obeys_key_model::<String>() && builds_valid_hashers::<RandomState>() {
                        assert(maps_borrowed_key_to_value(self@, name, *item));
                    }
                }
                texts
            },
            None => Vec::new(),
        }
    }
}

/// Decodes the whole stream that `record_fetcher` gives access to.
pub fn fetch_polyseme<T: 'static + RecordFetcher>(shared_key: &[u8], record_fetcher: T) -> (res:
    Result<Vec<u8>, PolysemeParseError>)
    requires
        shared_key@.len() < digest_limit(),
    ensures
        exists|records: Seq<Seq<Seq<char>>>| #[trigger]
            conclusion(
                replay(
                    sha256(shared_key@)@,
                    progress_start(Seq::<u8>::empty(), false, 0),
                    records,
                ),
            ) == Some(stream_view(res)),
{
    let mut parser = PolysemeParser::new(shared_key, Box::new(record_fetcher));
    let ghost before = parser;
    let res = parser.read_to_end();
    proof {
        let records = choose|records: Seq<Seq<Seq<char>>>| #[trigger]
            parser.accounts_for(&before, records, res);
        assert(conclusion(
            replay(sha256(shared_key@)@, progress_start(Seq::<u8>::empty(), false, 0), records),
        ) == Some(stream_view(res)));
    }
    res
}

} // verus!