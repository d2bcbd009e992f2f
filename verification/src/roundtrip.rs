//! The round trip: reading the records of an encoding in order gives the
//! data back.

use crate::base64_text::{
    ascii_bytes, base64_text, decoding, lemma_text_ascii, lemma_text_concat, lemma_text_source,
};
use crate::content::{joined, lemma_joined_len, EntryView, SetView};
use crate::decoding::{
    bytes_of, conclusion, is_marker, lemma_scan_step, progress_start, record_outcome, replay, scan,
    scan_content, scan_entry, scan_start, Outcome, PolysemeParseError, Progress, Scan,
};
use crate::digest::sha256;
use crate::encoding::{
    body, chunks_ready, encodable, encode, last_piece, last_set, lemma_full_body, lemma_layout,
    lemma_text_completes, piece, pieces_in, record,
};
use crate::label::label;
use crate::laws::{law_hash_covers_record, law_record_size, law_records_well_formed};
use vstd::prelude::*;
use vstd::utf8::*;

verus! {

/// The smaller of two numbers.
pub open spec fn least(a: int, b: int) -> int {
    if a <= b {
        a
    } else {
        b
    }
}

/// The number of bytes of `data` that are decoded once the text up to
/// position `p` was read: three for every whole group of four characters,
/// and no more than there are.
pub open spec fn decoded_len(data: Seq<u8>, p: int) -> int {
    least(3 * (p / 4), data.len() as int)
}

/// The bytes of text that wait once the text up to position `p` was read:
/// those after the last whole group of four.
pub open spec fn waiting_at(data: Seq<u8>, p: int) -> Seq<u8> {
    ascii_bytes(base64_text(data)).subrange(4 * (p / 4), p)
}

/// The position in the text at which piece `i` begins; for the number after
/// the last piece, the end of the text.
pub open spec fn text_position(data: Seq<u8>, i: int) -> int {
    if i <= chunks_ready(data.len()) {
        255 * i
    } else {
        base64_text(data).len() as int
    }
}

/// Whole groups of four characters of a text are the text of the groups of
/// three bytes behind them.
pub proof fn lemma_text_slice(data: Seq<u8>, u: int, v: int)
    requires
        0 <= u <= v,
        4 * v <= base64_text(data).len(),
    ensures
        base64_text(data).subrange(4 * u, 4 * v) == base64_text(
            data.subrange(least(3 * u, data.len() as int), least(3 * v, data.len() as int)),
        ),
{
    let n = data.len() as int;
    let text = base64_text(data);
    let x = least(3 * u, n);
    let y = least(3 * v, n);
    let head = data.subrange(0, x);
    let mid = data.subrange(x, y);
    let tail = data.subrange(y, n);
    assert(text.len() == 4 * ((n + 2) / 3));
    if 3 * u > n {
        assert(4 * u == text.len());
        assert(u == v);
        assert(mid =~= Seq::<u8>::empty());
        assert(text.subrange(4 * u, 4 * v) =~= base64_text(mid));
    } else {
        assert(data =~= head + (mid + tail));
        lemma_text_concat(head, mid + tail);
        assert(base64_text(head).len() == 4 * u);
        if 3 * v > n {
            assert(4 * v == text.len());
            assert(tail =~= Seq::<u8>::empty());
            assert(mid + tail =~= mid);
            assert(text.subrange(4 * u, 4 * v) =~= base64_text(mid));
        } else {
            lemma_text_concat(mid, tail);
            assert(base64_text(mid).len() == 4 * (v - u));
            assert(text.subrange(4 * u, 4 * v) =~= base64_text(mid));
        }
    }
}

/// Whole groups of four characters decode to the bytes behind them.
pub proof fn lemma_slice_decodes(data: Seq<u8>, u: int, v: int)
    requires
        0 <= u <= v,
        4 * v <= base64_text(data).len(),
    ensures
        decoding(ascii_bytes(base64_text(data)).subrange(4 * u, 4 * v)) == Ok::<
            Seq<u8>,
            base64::DecodeError,
        >(data.subrange(least(3 * u, data.len() as int), least(3 * v, data.len() as int))),
{
    let mid = data.subrange(least(3 * u, data.len() as int), least(3 * v, data.len() as int));
    lemma_text_slice(data, u, v);
    lemma_text_source(mid);
    assert(ascii_bytes(base64_text(data)).subrange(4 * u, 4 * v) =~= ascii_bytes(
        base64_text(data).subrange(4 * u, 4 * v),
    ));
}

/// The state of reading a record whose payload began at position `from` of
/// the text, once the text up to position `p` was read.
pub open spec fn reading(data: Seq<u8>, from: int, p: int, fed: Seq<u8>) -> Scan {
    Scan {
        pending: waiting_at(data, p),
        output: data.subrange(decoded_len(data, from), decoded_len(data, p)),
        fed,
        eof: false,
        failure: None,
    }
}

/// Reading a string of payload that is the text from position `p` to `q`
/// moves the reading from `p` to `q`.
pub proof fn lemma_content_step(
    sentinel: Seq<u8>,
    data: Seq<u8>,
    from: int,
    p: int,
    q: int,
    fed: Seq<u8>,
)
    requires
        0 <= from <= p <= q <= base64_text(data).len(),
        !is_marker(sentinel, ascii_bytes(base64_text(data).subrange(p, q))),
        q - p == 44 ==> p % 4 == 0 && q == base64_text(data).len(),
    ensures
        scan_entry(
            sentinel,
            reading(data, from, p, fed),
            ascii_bytes(base64_text(data).subrange(p, q)),
        ) == reading(data, from, q, fed + ascii_bytes(base64_text(data).subrange(p, q))),
{
    let text = base64_text(data);
    let bytes = ascii_bytes(text);
    let entry = ascii_bytes(text.subrange(p, q));
    let s = reading(data, from, p, fed);
    let n = data.len() as int;
    assert(text.len() % 4 == 0);
    assert(entry =~= bytes.subrange(p, q));
    if entry.len() == 44 {
        assert(entry =~= bytes.subrange(4 * (p / 4), 4 * (q / 4)));
        lemma_slice_decodes(data, p / 4, q / 4);
        assert(decoding(entry) is Ok);
    }
    let joined = s.pending + entry;
    assert(joined =~= bytes.subrange(4 * (p / 4), q));
    let whole = 4 * (joined.len() / 4);
    assert(whole == 4 * (q / 4) - 4 * (p / 4));
    assert(joined.subrange(0, whole as int) =~= bytes.subrange(4 * (p / 4), 4 * (q / 4)));
    assert(joined.subrange(whole as int, joined.len() as int) =~= waiting_at(data, q));
    lemma_slice_decodes(data, p / 4, q / 4);
    let got = data.subrange(least(3 * (p / 4), n), least(3 * (q / 4), n));
    assert(decoded_len(data, from) <= decoded_len(data, p) <= decoded_len(data, q));
    assert(s.output + got =~= data.subrange(decoded_len(data, from), decoded_len(data, q)));
    assert(scan_content(s, entry) == reading(data, from, q, fed + entry));
}

/// The strings after the hash as the parser gets them: the bytes of each.
pub open spec fn strings_of(entries: Seq<EntryView>) -> Seq<Seq<u8>> {
    Seq::new(entries.len(), |i: int| entries[i].bytes())
}

/// Reading the first `k` pieces of record `j` moves the reading from where
/// the record's first piece begins to where piece `k` of the record begins,
/// and all their bytes were given to the hash.
pub proof fn lemma_scan_pieces(secret: Seq<u8>, data: Seq<u8>, j: nat, k: int)
    requires
        j <= last_set(data.len()),
        0 <= k <= pieces_in(data.len(), j),
        !is_marker(sha256(secret)@, ascii_bytes(last_piece(data))),
    ensures
        scan(
            sha256(secret)@,
            scan_start(waiting_at(data, text_position(data, 255 * (j as int)))),
            strings_of(body(secret, data, j)).take(k),
        ) == reading(
            data,
            text_position(data, 255 * (j as int)),
            text_position(data, 255 * (j as int) + k),
            joined(body(secret, data, j).take(k)),
        ),
        0 <= text_position(data, 255 * (j as int)),
        text_position(data, 255 * (j as int)) <= text_position(data, 255 * (j as int) + k),
        text_position(data, 255 * (j as int) + k) <= base64_text(data).len(),
    decreases k,
{
    let n = data.len();
    let sentinel = sha256(secret)@;
    let text = base64_text(data);
    let entries = body(secret, data, j);
    let strings = strings_of(entries);
    let from = text_position(data, 255 * (j as int));
    let start = scan_start(waiting_at(data, from));
    lemma_layout(n);
    lemma_text_completes(data);
    lemma_text_ascii(data);
    if k == 0 {
        assert(strings.take(0) =~= Seq::<Seq<u8>>::empty());
        assert(entries.take(0) =~= Seq::<EntryView>::empty());
        assert(data.subrange(decoded_len(data, from), decoded_len(data, from)) =~= Seq::<
            u8,
        >::empty());
        assert(start == reading(data, from, from, joined(entries.take(0))));
    } else {
        lemma_scan_pieces(secret, data, j, k - 1);
        lemma_scan_step(sentinel, start, strings, k - 1);
        let m = 255 * (j as int) + (k - 1);
        let p = text_position(data, m);
        let q = text_position(data, m + 1);
        assert(m <= chunks_ready(n));
        assert(entries[k - 1] == EntryView::Content(piece(data, m)));
        assert(piece(data, m) == text.subrange(p, q));
        let string = strings[k - 1];
        assert(string =~= ascii_bytes(text.subrange(p, q))) by {
            is_ascii_chars_encode_utf8(text.subrange(p, q));
        }
        if m == chunks_ready(n) {
            assert(text.subrange(p, q) == last_piece(data));
            assert(text.len() % 4 == 0);
        }
        let fed = joined(entries.take(k - 1));
        lemma_content_step(sentinel, data, from, p, q, fed);
        assert(entries.take(k).drop_last() =~= entries.take(k - 1));
        assert(entries.take(k).last() == entries[k - 1]);
        assert(joined(entries.take(k)) == fed + string);
    }
}

/// What a record gives as payload: nothing if it holds none.
pub open spec fn payload_result(output: Seq<u8>) -> Result<Option<Seq<u8>>, PolysemeParseError> {
    if output.len() == 0 {
        Ok(None)
    } else {
        Ok(Some(output))
    }
}

/// Reading record `j` of an encoding, once the records before it were read,
/// gives the bytes of the data behind its pieces, leaves the text of the
/// group that it breaks, and meets the end marker in the last record.
pub proof fn lemma_record_read(secret: Seq<u8>, data: Seq<u8>, j: nat)
    requires
        j <= last_set(data.len()),
        encodable(data.len()),
        !is_marker(sha256(secret)@, ascii_bytes(last_piece(data))),
    ensures
        ({
            let from = text_position(data, 255 * (j as int));
            let to = text_position(data, 255 * (j as int) + pieces_in(data.len(), j));
            record_outcome(sha256(secret)@, waiting_at(data, from), record(secret, data, j).texts())
                == (Outcome {
                result: payload_result(
                    data.subrange(decoded_len(data, from), decoded_len(data, to)),
                ),
                pending: waiting_at(data, to),
                eof: j == last_set(data.len()),
            })
        }),
        0 <= text_position(data, 255 * (j as int)) <= text_position(
            data,
            255 * (j as int) + pieces_in(data.len(), j),
        ) <= base64_text(data).len(),
        j == last_set(data.len()) ==> text_position(
            data,
            255 * (j as int) + pieces_in(data.len(), j),
        ) == base64_text(data).len(),
{
    let n = data.len();
    let sentinel = sha256(secret)@;
    let text = base64_text(data);
    let r = record(secret, data, j);
    let entries = body(secret, data, j);
    let strings = strings_of(entries);
    let count = pieces_in(n, j) as int;
    let from = text_position(data, 255 * (j as int));
    let to = text_position(data, 255 * (j as int) + count);
    let start = scan_start(waiting_at(data, from));
    let texts = r.texts();
    lemma_layout(n);
    lemma_text_completes(data);
    law_hash_covers_record(secret, data, j);
    law_record_size(secret, data, j);
    law_records_well_formed(secret, data, j);
    assert(r.covered() =~= entries);
    lemma_joined_len(entries);
    assert(bytes_of(texts.subrange(1, texts.len() as int)) =~= strings);
    lemma_scan_pieces(secret, data, j, count);
    let pieces_read = reading(data, from, to, joined(entries.take(count)));
    let all_read = scan(sentinel, start, strings);
    if j < last_set(n) {
        assert(strings.take(count) =~= strings);
        assert(entries.take(count) =~= entries);
        assert(all_read == pieces_read);
    } else {
        assert(to == text.len());
        assert(text.len() % 4 == 0);
        let marker = strings[count];
        assert(entries[count] == EntryView::Eof(sentinel));
        lemma_text_ascii(sentinel);
        lemma_text_source(sentinel);
        assert(marker =~= ascii_bytes(base64_text(sentinel))) by {
            is_ascii_chars_encode_utf8(base64_text(sentinel));
        }
        assert(is_marker(sentinel, marker));
        assert(strings.take(count + 1) =~= strings);
        lemma_scan_step(sentinel, start, strings, count);
        assert(all_read == scan_entry(sentinel, pieces_read, marker));
        assert(pieces_read.pending =~= Seq::<u8>::empty());
        lemma_text_source(Seq::<u8>::empty());
        assert(ascii_bytes(base64_text(Seq::<u8>::empty())) =~= Seq::<u8>::empty());
        assert(decoding(pieces_read.pending) == Ok::<Seq<u8>, base64::DecodeError>(
            Seq::<u8>::empty(),
        ));
        assert(pieces_read.output + Seq::<u8>::empty() =~= pieces_read.output);
        assert(entries.take(count + 1) =~= entries);
        assert(entries.drop_last() =~= entries.take(count));
        assert(joined(entries) == joined(entries.take(count)) + marker);
        assert(all_read == (Scan {
            fed: joined(entries),
            eof: true,
            ..pieces_read
        }));
    }
    assert(all_read.fed == joined(entries));
    assert(all_read.failure is None);
}

/// The strings of each record of a run, in order.
pub open spec fn stream_texts(records: Seq<SetView>) -> Seq<Seq<Seq<char>>> {
    Seq::new(records.len(), |j: int| records[j].texts())
}

/// Where the reading of a stream stands at the first read.
pub open spec fn fresh() -> Progress {
    progress_start(Seq::empty(), false, 0)
}

/// After the first `j` records of an encoding were read, the bytes behind
/// their pieces were given out, and the reading goes on.
pub proof fn lemma_replay_records(secret: Seq<u8>, data: Seq<u8>, j: nat)
    requires
        j <= last_set(data.len()),
        encodable(data.len()),
        !is_marker(sha256(secret)@, ascii_bytes(last_piece(data))),
    ensures
        replay(sha256(secret)@, fresh(), stream_texts(encode(secret, data)).take(j as int)) == (
        Progress {
            output: data.subrange(0, decoded_len(data, text_position(data, 255 * (j as int)))),
            pending: waiting_at(data, text_position(data, 255 * (j as int))),
            eof: false,
            labels: j,
            ended: None,
        }),
    decreases j,
{
    let n = data.len();
    let sentinel = sha256(secret)@;
    let stream = stream_texts(encode(secret, data));
    lemma_layout(n);
    lemma_text_completes(data);
    if j == 0 {
        assert(stream.take(0) =~= Seq::<Seq<Seq<char>>>::empty());
        assert(waiting_at(data, 0) =~= Seq::<u8>::empty());
        assert(data.subrange(0, 0) =~= Seq::<u8>::empty());
    } else {
        let i = (j - 1) as nat;
        lemma_replay_records(secret, data, i);
        lemma_record_read(secret, data, i);
        lemma_full_body(secret, data, i);
        let before = replay(sentinel, fresh(), stream.take(i as int));
        assert(stream.take(j as int).drop_last() =~= stream.take(i as int));
        assert(stream.take(j as int).last() == record(secret, data, i).texts());
        let from = text_position(data, 255 * (i as int));
        let to = text_position(data, 255 * (j as int));
        assert(pieces_in(n, i) == 255);
        assert(from == 255 * (255 * i));
        assert(to == 255 * (255 * j));
        assert(to <= 4 * (n / 3));
        assert(decoded_len(data, from) < decoded_len(data, to));
        let got = data.subrange(decoded_len(data, from), decoded_len(data, to));
        assert(before.output + got =~= data.subrange(0, decoded_len(data, to)));
    }
}

/// The round trip: reading the records of the encoding of `data` in order
/// ends with `data`, if no string of payload is taken for the end marker.
/// Only the last piece of the text can be: when it has 44 characters and
/// decodes to the digest of the secret.
pub proof fn law_round_trip(secret: Seq<u8>, data: Seq<u8>)
    requires
        encodable(data.len()),
        !is_marker(sha256(secret)@, ascii_bytes(last_piece(data))),
    ensures
        conclusion(replay(sha256(secret)@, fresh(), stream_texts(encode(secret, data)))) == Some(
            Ok::<Seq<u8>, PolysemeParseError>(data),
        ),
{
    let n = data.len();
    let sentinel = sha256(secret)@;
    let stream = stream_texts(encode(secret, data));
    let last = last_set(n);
    lemma_layout(n);
    lemma_text_completes(data);
    lemma_replay_records(secret, data, last);
    lemma_record_read(secret, data, last);
    let before = replay(sentinel, fresh(), stream.take(last as int));
    assert(stream.drop_last() =~= stream.take(last as int));
    assert(stream.last() == record(secret, data, last).texts());
    let from = text_position(data, 255 * (last as int));
    let to = base64_text(data).len() as int;
    assert(decoded_len(data, to) == n);
    let got = data.subrange(decoded_len(data, from), n as int);
    assert(before.output + got =~= data);
    if got.len() == 0 {
        assert(before.output =~= data);
    }
}

/// What was given to the hash is only ever added to.
pub proof fn lemma_fed_grows(sentinel: Seq<u8>, start: Scan, entries: Seq<Seq<u8>>, k: int, m: int)
    requires
        0 <= k <= m <= entries.len(),
    ensures
        scan(sentinel, start, entries.take(k)).fed.is_prefix_of(
            scan(sentinel, start, entries.take(m)).fed,
        ),
    decreases m - k,
{
    if k < m {
        lemma_fed_grows(sentinel, start, entries, k, m - 1);
        lemma_scan_step(sentinel, start, entries, m - 1);
        let a = scan(sentinel, start, entries.take(k)).fed;
        let b = scan(sentinel, start, entries.take(m - 1)).fed;
        let c = scan(sentinel, start, entries.take(m)).fed;
        assert(b.is_prefix_of(c));
        assert(a =~= c.subrange(0, a.len() as int)) by {
            assert(a =~= b.subrange(0, a.len() as int));
            assert(b =~= c.subrange(0, b.len() as int));
        }
    }
}

/// The bytes of the first entries begin the bytes of all of them.
pub proof fn lemma_joined_grows(entries: Seq<EntryView>, k: int)
    requires
        0 <= k <= entries.len(),
    ensures
        joined(entries.take(k)).is_prefix_of(joined(entries)),
    decreases entries.len() - k,
{
    if k == entries.len() {
        assert(entries.take(k) =~= entries);
    } else {
        lemma_joined_grows(entries, k + 1);
        assert(entries.take(k + 1).drop_last() =~= entries.take(k));
        let a = joined(entries.take(k));
        let b = joined(entries.take(k + 1));
        let c = joined(entries);
        assert(a =~= b.subrange(0, a.len() as int));
        assert(b =~= c.subrange(0, b.len() as int));
        assert(a =~= c.subrange(0, a.len() as int));
    }
}

/// A changed string: where one string after the hash of a record of an
/// encoding is replaced by another of the same length, and every string
/// still decodes, the read fails with `HashVerificationError`, unless the
/// changed strings have the digest of the true ones.
pub proof fn law_changed_string_detected(
    secret: Seq<u8>,
    data: Seq<u8>,
    j: nat,
    i: int,
    changed: Seq<char>,
)
    requires
        j <= last_set(data.len()),
        encodable(data.len()),
        !is_marker(sha256(secret)@, ascii_bytes(last_piece(data))),
        1 <= i < record(secret, data, j).texts().len(),
        changed != record(secret, data, j).texts()[i],
        encode_utf8(changed).len() == encode_utf8(record(secret, data, j).texts()[i]).len(),
        ({
            let read = scan(
                sha256(secret)@,
                scan_start(waiting_at(data, text_position(data, 255 * (j as int)))),
                bytes_of(
                    record(secret, data, j).texts().update(i, changed).subrange(
                        1,
                        record(secret, data, j).texts().len() as int,
                    ),
                ),
            );
            &&& read.failure is None
            &&& read.fed != joined(body(secret, data, j)) ==> sha256(read.fed) != sha256(
                joined(body(secret, data, j)),
            )
        }),
    ensures
        record_outcome(
            sha256(secret)@,
            waiting_at(data, text_position(data, 255 * (j as int))),
            record(secret, data, j).texts().update(i, changed),
        ).result == Err::<Option<Seq<u8>>, PolysemeParseError>(
            PolysemeParseError::HashVerificationError,
        ),
{
    let n = data.len();
    let sentinel = sha256(secret)@;
    let r = record(secret, data, j);
    let entries = body(secret, data, j);
    let texts = r.texts();
    let tampered = texts.update(i, changed);
    let strings = strings_of(entries);
    let others = bytes_of(tampered.subrange(1, texts.len() as int));
    let from = text_position(data, 255 * (j as int));
    let start = scan_start(waiting_at(data, from));
    let read = scan(sentinel, start, others);
    let k = i - 1;
    lemma_layout(n);
    law_hash_covers_record(secret, data, j);
    assert(r.covered() =~= entries);
    assert(bytes_of(texts.subrange(1, texts.len() as int)) =~= strings);
    assert(others.len() == strings.len());
    assert(others.take(k) =~= strings.take(k));
    // up to the changed string the reading is the true one
    assert(k <= pieces_in(n, j));
    lemma_scan_pieces(secret, data, j, k);
    let before = scan(sentinel, start, others.take(k));
    assert(!before.eof && before.failure is None);
    assert(before.fed == joined(entries.take(k)));
    // the changed string is given to the hash in place of the true one
    lemma_scan_step(sentinel, start, others, k);
    let after = scan(sentinel, start, others.take(k + 1));
    assert(after.fed == before.fed + others[k]);
    assert(others[k] == encode_utf8(changed));
    assert(strings[k] == encode_utf8(texts[i]));
    assert(others[k] != strings[k]) by {
        encode_utf8_decode_utf8(changed);
        encode_utf8_decode_utf8(texts[i]);
    }
    assert(entries.take(k + 1).drop_last() =~= entries.take(k));
    let honest = joined(entries.take(k + 1));
    assert(honest == before.fed + strings[k]);
    assert(after.fed != honest) by {
        if after.fed == honest {
            assert(after.fed.subrange(before.fed.len() as int, after.fed.len() as int)
                =~= others[k]);
            assert(honest.subrange(before.fed.len() as int, honest.len() as int) =~= strings[k]);
        }
    }
    // and what follows cannot mend it
    lemma_fed_grows(sentinel, start, others, k + 1, others.len() as int);
    assert(others.take(others.len() as int) =~= others);
    lemma_joined_grows(entries, k + 1);
    assert(read.fed != joined(entries)) by {
        if read.fed == joined(entries) {
            assert(after.fed =~= read.fed.subrange(0, after.fed.len() as int));
            assert(honest =~= joined(entries).subrange(0, honest.len() as int));
        }
    }
    assert(sha256(read.fed)@ != sha256(joined(entries))@) by {
        if sha256(read.fed)@ == sha256(joined(entries))@ {
            assert(sha256(read.fed) =~= sha256(joined(entries)));
        }
    }
}

/// The strings that a table of records holds under `name`: those of a
/// record with that name, none if there is no such record.
pub open spec fn table_lookup(records: Seq<SetView>, name: Seq<char>) -> Seq<Seq<char>> {
    if exists|j: int| 0 <= j < records.len() && (#[trigger] records[j]).name == name {
        let found = choose|j: int| 0 <= j < records.len() && (#[trigger] records[j]).name == name;
        records[found].texts()
    } else {
        Seq::empty()
    }
}

/// What the first `reads` reads get from a table of records when they ask
/// for the labels of `secret` in order.
pub open spec fn fetched(secret: Seq<u8>, records: Seq<SetView>, reads: nat) -> Seq<
    Seq<Seq<char>>,
> {
    Seq::new(reads, |j: int| table_lookup(records, label(secret, j as u64)))
}

/// The label of record `j`.
pub open spec fn record_label(secret: Seq<u8>, j: nat) -> Seq<char> {
    label(secret, j as u64)
}

/// Whether the labels of the records up to number `last` differ from one
/// another.
pub open spec fn labels_differ(secret: Seq<u8>, last: nat) -> bool {
    forall|i: nat, j: nat|
        i < j <= last ==> #[trigger] record_label(secret, i) != #[trigger] record_label(secret, j)
}

/// The round trip through a table: where the labels of the records of an
/// encoding differ from one another, a reader that asks a table of these
/// records for one label after the other ends with the data.
pub proof fn law_round_trip_by_label(secret: Seq<u8>, data: Seq<u8>)
    requires
        encodable(data.len()),
        !is_marker(sha256(secret)@, ascii_bytes(last_piece(data))),
        labels_differ(secret, last_set(data.len())),
    ensures
        conclusion(
            replay(
                sha256(secret)@,
                fresh(),
                fetched(secret, encode(secret, data), last_set(data.len()) + 1),
            ),
        ) == Some(Ok::<Seq<u8>, PolysemeParseError>(data)),
{
    let records = encode(secret, data);
    let last = last_set(data.len());
    let got = fetched(secret, records, last + 1);
    let stream = stream_texts(records);
    assert forall|j: int| 0 <= j <= last implies got[j] == stream[j] by {
        let name = label(secret, j as u64);
        assert(records[j].name == name);
        let found = choose|i: int| 0 <= i < records.len() && (#[trigger] records[i]).name == name;
        assert(records[found].name == label(secret, found as u64));
        if found < j {
            assert(record_label(secret, found as nat) != record_label(secret, j as nat));
        } else if j < found {
            assert(record_label(secret, j as nat) != record_label(secret, found as nat));
        }
    }
    assert(got =~= stream);
    law_round_trip(secret, data);
}

} // verus!
