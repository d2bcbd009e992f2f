//! What holds of every encoding: the laws that tie the encoder's calls
//! together and bound what it publishes.

use crate::base64_text::{ascii_bytes, base64_text, decoding, lemma_text_ascii, lemma_text_source};
use crate::content::{joined, views, wire_total, ContentSet, EntryView, SetView};
use crate::decoding::{
    advance, conclusion, record_outcome, replay, scan, scan_start, PolysemeParseError, Progress,
};
use crate::digest::sha256;
use crate::encoding::{
    body, chunk_entries, chunks_ready, closed_after, completion, encodable, encode, handed_out,
    last_len, last_piece, last_rolls, last_set, last_weight, lemma_chunk_entries_extend,
    lemma_closed_before_last, lemma_full_body, lemma_last_body, lemma_layout,
    lemma_ready_text_extends, lemma_text_completes, open_chunks, ready_text, record,
};
use vstd::prelude::*;
use vstd::utf8::*;

verus! {

/// All the bytes of the first `count` parts, in order.
pub open spec fn parts_joined(parts: Seq<Seq<u8>>, count: int) -> Seq<u8>
    decreases count,
{
    if count <= 0 || count > parts.len() {
        Seq::empty()
    } else {
        parts_joined(parts, count - 1) + parts[count - 1]
    }
}

/// All the records handed out while the first `count` parts are consumed
/// one after the other.
pub open spec fn parts_streamed(secret: Seq<u8>, parts: Seq<Seq<u8>>, count: int) -> Seq<SetView>
    decreases count,
{
    if count <= 0 || count > parts.len() {
        Seq::empty()
    } else {
        parts_streamed(secret, parts, count - 1) + handed_out(
            secret,
            parts_joined(parts, count - 1),
            parts[count - 1],
        )
    }
}

/// More data completes no fewer records.
pub proof fn lemma_closed_grows(n: nat, more: nat)
    ensures
        closed_after(n) <= closed_after(n + more),
{
    assert(n / 3 <= (n + more) / 3);
    assert(chunks_ready(n) <= chunks_ready(n + more));
}

/// A record that is complete is not changed by the data that follows.
pub proof fn law_complete_records_stay(secret: Seq<u8>, data: Seq<u8>, more: Seq<u8>, j: nat)
    requires
        j < closed_after(data.len()),
    ensures
        record(secret, data + more, j) == record(secret, data, j),
{
    let all = data + more;
    lemma_closed_grows(data.len(), more.len());
    lemma_closed_before_last(data.len());
    lemma_closed_before_last(all.len());
    lemma_full_body(secret, data, j);
    lemma_full_body(secret, all, j);
    lemma_ready_text_extends(data, more);
    lemma_text_completes(data);
    let grown = ready_text(all);
    let ready = ready_text(data);
    assert(255 * (255 * j + 255) <= ready.len());
    assert(exists|tail: Seq<char>| grown == ready + tail);
    let tail = choose|tail: Seq<char>| grown == ready + tail;
    lemma_chunk_entries_extend(ready, tail, 255 * (j as int), 255);
}

/// What was handed out while the parts were consumed is the beginning of
/// the encoding of all of them: the records that they complete.
pub proof fn lemma_parts_streamed(secret: Seq<u8>, parts: Seq<Seq<u8>>, count: int)
    requires
        0 <= count <= parts.len(),
    ensures
        parts_streamed(secret, parts, count) == encode(
            secret,
            parts_joined(parts, count),
        ).subrange(0, closed_after(parts_joined(parts, count).len()) as int),
    decreases count,
{
    let all = parts_joined(parts, count);
    lemma_closed_before_last(all.len());
    if count == 0 {
        assert(parts_streamed(secret, parts, count) =~= encode(secret, all).subrange(0, 0));
    } else {
        let before = parts_joined(parts, count - 1);
        let part = parts[count - 1];
        assert(all == before + part);
        lemma_parts_streamed(secret, parts, count - 1);
        lemma_closed_grows(before.len(), part.len());
        lemma_closed_before_last(before.len());
        let c0 = closed_after(before.len()) as int;
        let c1 = closed_after(all.len()) as int;
        let earlier = encode(secret, before).subrange(0, c0);
        let whole = encode(secret, all);
        assert(earlier =~= whole.subrange(0, c0)) by {
            assert forall|j: int| 0 <= j < c0 implies earlier[j] == whole[j] by {
                law_complete_records_stay(secret, before, part, j as nat);
            }
        }
        assert(whole.subrange(0, c0) + whole.subrange(c0, c1) =~= whole.subrange(0, c1));
    }
}

/// Streaming: however the data is cut into parts, the records handed out
/// while the parts are consumed, followed by those handed out at the end,
/// are the encoding of the whole.
pub proof fn law_streaming(secret: Seq<u8>, parts: Seq<Seq<u8>>)
    ensures
        ({
            let data = parts_joined(parts, parts.len() as int);
            parts_streamed(secret, parts, parts.len() as int) + completion(secret, data) == encode(
                secret,
                data,
            )
        }),
{
    let data = parts_joined(parts, parts.len() as int);
    lemma_parts_streamed(secret, parts, parts.len() as int);
    lemma_closed_before_last(data.len());
    let whole = encode(secret, data);
    let c = closed_after(data.len()) as int;
    assert(whole.subrange(0, c) + whole.subrange(c, whole.len() as int) =~= whole);
}

/// Determinism: two runs of sets that both are the encoding of the same
/// data under the same secret are equal, set by set, in label and entries,
/// which is what `==` compares.
pub proof fn law_deterministic(
    secret: Seq<u8>,
    data: Seq<u8>,
    first: Seq<ContentSet>,
    second: Seq<ContentSet>,
)
    requires
        views(first) == encode(secret, data),
        views(second) == encode(secret, data),
    ensures
        first.len() == second.len(),
        forall|j: int| 0 <= j < first.len() ==> (#[trigger] first[j])@ == second[j]@,
{
    assert(views(first).len() == first.len());
    assert(views(second).len() == second.len());
    assert forall|j: int| 0 <= j < first.len() implies (#[trigger] first[j])@ == second[j]@ by {
        assert(views(first)[j] == first[j]@);
        assert(views(second)[j] == second[j]@);
    }
}

/// What two runs of entries weigh together.
pub proof fn lemma_wire_total_add(a: Seq<EntryView>, b: Seq<EntryView>)
    ensures
        wire_total(a + b) == wire_total(a) + wire_total(b),
    decreases b.len(),
{
    if b.len() == 0 {
        assert(a + b =~= a);
    } else {
        lemma_wire_total_add(a, b.drop_last());
        assert((a + b).drop_last() =~= a + b.drop_last());
    }
}

/// Full pieces weigh 256 bytes each.
pub proof fn lemma_chunks_weight(text: Seq<char>, first: int, count: nat)
    requires
        0 <= first,
        255 * (first + count) <= text.len(),
    ensures
        wire_total(chunk_entries(text, first, count)) == 256 * count,
    decreases count,
{
    if count > 0 {
        let all = chunk_entries(text, first, count);
        assert(all.drop_last() =~= chunk_entries(text, first, (count - 1) as nat));
        lemma_chunks_weight(text, first, (count - 1) as nat);
        assert(255 * (first + count - 1) + 255 <= text.len());
    }
}

/// The entries of every record are well formed: digests of 32 bytes and
/// ASCII text.
pub proof fn law_records_well_formed(secret: Seq<u8>, data: Seq<u8>, j: nat)
    requires
        j <= last_set(data.len()),
    ensures
        record(secret, data, j).wf(),
        record(secret, data, j).sealed(),
{
    let r = record(secret, data, j);
    let b = body(secret, data, j);
    lemma_text_ascii(data);
    assert(r.covered() =~= b);
    assert forall|i: int| 0 <= i < r.entries.len() implies (#[trigger] r.entries[i]).wf() by {
        if i > 0 {
            assert(r.entries[i] == b[i - 1]);
        }
    }
}

/// What a single entry weighs.
pub proof fn lemma_single_weight(e: EntryView)
    ensures
        wire_total(seq![e]) == e.wire_size(),
{
    let one = seq![e];
    assert(one.drop_last() =~= Seq::<EntryView>::empty());
    assert(one.last() == e);
    assert(wire_total(one.drop_last()) == 0);
    assert(wire_total(one) == wire_total(one.drop_last()) + one.last().wire_size());
}

/// The text of a digest has 44 characters.
pub proof fn lemma_digest_text(digest: [u8; 32])
    ensures
        base64_text(digest@).len() == 44,
        EntryView::Hash(digest@).wire_size() == 45,
        EntryView::Eof(digest@).wire_size() == 45,
{
    lemma_text_ascii(digest@);
}

/// What the entries after the hash weigh in a record before the last.
pub proof fn lemma_full_body_weight(secret: Seq<u8>, data: Seq<u8>, j: nat)
    requires
        j < last_set(data.len()),
    ensures
        wire_total(body(secret, data, j)) == 255 * 256,
{
    lemma_text_completes(data);
    lemma_full_body(secret, data, j);
    assert(255 * (255 * j + 255) <= ready_text(data).len());
    lemma_chunks_weight(ready_text(data), 255 * (j as int), 255);
}

/// What the entries after the hash weigh in the last record.
pub proof fn lemma_last_body_weight(secret: Seq<u8>, data: Seq<u8>)
    ensures
        44 + wire_total(body(secret, data, last_set(data.len()))) == last_weight(data.len()) + 45,
{
    let n = data.len();
    lemma_layout(n);
    lemma_text_completes(data);
    lemma_last_body(secret, data);
    let full = if last_rolls(n) {
        Seq::<EntryView>::empty()
    } else {
        chunk_entries(ready_text(data), 255 * (closed_after(n) as int), open_chunks(n))
    };
    let last = if last_len(n) > 0 {
        seq![EntryView::Content(last_piece(data))]
    } else {
        Seq::<EntryView>::empty()
    };
    let marker = seq![EntryView::Eof(sha256(secret)@)];
    assert(wire_total(full) == if last_rolls(n) {
        0
    } else {
        256 * open_chunks(n)
    }) by {
        if !last_rolls(n) {
            lemma_chunks_weight(
                ready_text(data),
                255 * (closed_after(n) as int),
                open_chunks(n),
            );
        }
    }
    assert(wire_total(last) == if last_len(n) > 0 {
        1 + last_len(n)
    } else {
        0
    }) by {
        if last_len(n) > 0 {
            lemma_single_weight(EntryView::Content(last_piece(data)));
        }
    }
    assert(wire_total(marker) == 45) by {
        lemma_single_weight(EntryView::Eof(sha256(secret)@));
        lemma_digest_text(sha256(secret));
    }
    lemma_wire_total_add(full, last);
    lemma_wire_total_add(full + last, marker);
}

/// Record size: counted as the sets count themselves, the hash without its
/// length byte, no record weighs more than 65535 bytes; on the wire it
/// weighs one byte more.
pub proof fn law_record_size(secret: Seq<u8>, data: Seq<u8>, j: nat)
    requires
        j <= last_set(data.len()),
        encodable(data.len()),
    ensures
        record(secret, data, j).weight() <= 65535,
        wire_total(record(secret, data, j).entries) == record(secret, data, j).weight() + 1,
        j < last_set(data.len()) ==> record(secret, data, j).weight() == 44 + 255 * 256,
        j == last_set(data.len()) ==> record(secret, data, j).weight() == last_weight(data.len())
            + 45,
{
    let r = record(secret, data, j);
    let b = body(secret, data, j);
    let hash = seq![EntryView::Hash(sha256(joined(b))@)];
    assert(r.covered() =~= b);
    assert(r.entries == hash + b);
    lemma_wire_total_add(hash, b);
    lemma_single_weight(EntryView::Hash(sha256(joined(b))@));
    lemma_digest_text(sha256(joined(b)));
    if j < last_set(data.len()) {
        lemma_full_body_weight(secret, data, j);
    } else {
        lemma_last_body_weight(secret, data);
    }
}

/// String size: every piece of payload in a record has from 1 to 255
/// characters, provided that the last piece of the text has no more: at the
/// end the text that waited and the last group go out as one piece, which
/// can have up to 258.
pub proof fn law_content_size(secret: Seq<u8>, data: Seq<u8>, j: nat, i: int)
    requires
        j <= last_set(data.len()),
        last_len(data.len()) <= 255,
        0 <= i < record(secret, data, j).entries.len(),
        record(secret, data, j).entries[i] is Content,
    ensures
        1 <= record(secret, data, j).entries[i].text().len() <= 255,
{
    let n = data.len();
    lemma_layout(n);
    lemma_text_completes(data);
    if j < last_set(n) {
        lemma_full_body(secret, data, j);
        let m = 255 * j + (i - 1);
        assert(255 * m + 255 <= 255 * chunks_ready(n));
    } else {
        lemma_last_body(secret, data);
        if !last_rolls(n) && i - 1 < open_chunks(n) {
            let m = 255 * closed_after(n) + (i - 1);
            assert(255 * m + 255 <= 255 * chunks_ready(n));
        }
    }
}

/// The end marker: it stands in the last record only, as its last entry,
/// and is the digest of the secret.
pub proof fn law_marker_ends_stream(secret: Seq<u8>, data: Seq<u8>, j: nat, i: int)
    requires
        j <= last_set(data.len()),
        0 <= i < record(secret, data, j).entries.len(),
    ensures
        record(secret, data, j).entries[i] is Eof <==> j == last_set(data.len()) && i == record(
            secret,
            data,
            j,
        ).entries.len() - 1,
        record(secret, data, j).entries[i] is Eof ==> record(secret, data, j).entries[i]
            == EntryView::Eof(sha256(secret)@),
        record(secret, data, j).entries[i] is Hash <==> i == 0,
{
}

/// The hash of every record is the digest of the strings after it, and its
/// string decodes to that digest.
pub proof fn law_hash_covers_record(secret: Seq<u8>, data: Seq<u8>, j: nat)
    requires
        j <= last_set(data.len()),
    ensures
        ({
            let r = record(secret, data, j);
            &&& r.entries[0] == EntryView::Hash(sha256(joined(r.covered()))@)
            &&& decoding(encode_utf8(r.texts()[0])) == Ok::<Seq<u8>, base64::DecodeError>(
                sha256(joined(r.covered()))@,
            )
        }),
{
    let r = record(secret, data, j);
    let b = body(secret, data, j);
    assert(r.covered() =~= b);
    let digest = sha256(joined(b))@;
    lemma_text_ascii(digest);
    lemma_text_source(digest);
    is_ascii_chars_encode_utf8(base64_text(digest));
    assert(encode_utf8(base64_text(digest)) =~= ascii_bytes(base64_text(digest)));
}

/// A missing record: where a read gets no strings it fails with
/// `EmptyResult`, it leaves what waited as it was, and no later record is
/// read.
pub proof fn law_missing_record(
    sentinel: Seq<u8>,
    start: Progress,
    records: Seq<Seq<Seq<char>>>,
    i: int,
)
    requires
        0 <= i < records.len(),
        records[i].len() == 0,
        ({
            let p = replay(sentinel, start, records.take(i));
            p.ended is None && !p.eof && p.labels < u64::MAX
        }),
    ensures
        ({
            let p = replay(sentinel, start, records.take(i));
            let q = replay(sentinel, start, records);
            &&& conclusion(q) == Some(
                Err::<Seq<u8>, PolysemeParseError>(PolysemeParseError::EmptyResult),
            )
            &&& q.pending == p.pending
            &&& q.labels == p.labels + 1
        }),
{
    lemma_replay_step(sentinel, start, records, i);
    lemma_replay_stops(sentinel, start, records, i + 1);
}

/// Reading one record more.
pub proof fn lemma_replay_step(
    sentinel: Seq<u8>,
    start: Progress,
    records: Seq<Seq<Seq<char>>>,
    i: int,
)
    requires
        0 <= i < records.len(),
    ensures
        replay(sentinel, start, records.take(i + 1)) == advance(
            sentinel,
            replay(sentinel, start, records.take(i)),
            records[i],
        ),
{
    assert(records.take(i + 1).drop_last() =~= records.take(i));
}

/// Once the reading has ended, further records change nothing.
pub proof fn lemma_replay_stops(
    sentinel: Seq<u8>,
    start: Progress,
    records: Seq<Seq<Seq<char>>>,
    i: int,
)
    requires
        0 <= i <= records.len(),
        replay(sentinel, start, records.take(i)).ended is Some,
    ensures
        replay(sentinel, start, records) == replay(sentinel, start, records.take(i)),
    decreases records.len() - i,
{
    if i == records.len() {
        assert(records.take(i) =~= records);
    } else {
        lemma_replay_step(sentinel, start, records, i);
        lemma_replay_stops(sentinel, start, records, i + 1);
    }
}

/// Tamper detection: a record whose strings all decode, but do not have
/// the digest that its first string holds, fails with
/// `HashVerificationError`.
pub proof fn law_tamper_detected(sentinel: Seq<u8>, pending: Seq<u8>, texts: Seq<Seq<char>>)
    requires
        texts.len() >= 1,
        decoding(encode_utf8(texts[0])) is Ok,
        ({
            let s = scan(
                sentinel,
                scan_start(pending),
                crate::decoding::bytes_of(texts.subrange(1, texts.len() as int)),
            );
            s.failure is None && sha256(s.fed)@ != decoding(encode_utf8(texts[0]))->Ok_0
        }),
    ensures
        record_outcome(sentinel, pending, texts).result == Err::<
            Option<Seq<u8>>,
            PolysemeParseError,
        >(PolysemeParseError::HashVerificationError),
{
}

} // verus!
