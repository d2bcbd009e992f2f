//! What encoding is: the records that a secret and a byte string give, by the
//! position of every piece in the base-64 text.

use crate::base64_text::{base64_text, lemma_text_concat, text_len};
use crate::content::{joined, EntryView, SetView};
use crate::digest::sha256;
use crate::label::label;
use vstd::prelude::*;

verus! {

/// The length of a full piece of text.
pub const CHUNK_LEN: usize = 255;

/// The length of the longest prefix of `n` bytes that is made of whole
/// groups of three.
pub open spec fn whole_groups(n: nat) -> nat {
    (3 * (n / 3)) as nat
}

/// The text that can be written while more data may follow: that of the
/// whole groups.
pub open spec fn ready_text(data: Seq<u8>) -> Seq<char> {
    base64_text(data.subrange(0, whole_groups(data.len()) as int))
}

/// The number of full pieces in the text that is ready after `n` bytes.
pub open spec fn chunks_ready(n: nat) -> nat {
    (4 * (n / 3)) / 255
}

/// The number of records that are complete once `chunks` full pieces were
/// packed: a record is complete when the piece after its last one arrives.
pub open spec fn closed_sets(chunks: nat) -> nat {
    if chunks == 0 {
        0
    } else {
        ((chunks - 1) / 255) as nat
    }
}

/// The number of records that are complete after `n` bytes were consumed.
pub open spec fn closed_after(n: nat) -> nat {
    closed_sets(chunks_ready(n))
}

/// The number of full pieces in the record that is open after `n` bytes.
pub open spec fn open_chunks(n: nat) -> nat {
    (chunks_ready(n) - 255 * closed_after(n)) as nat
}

/// The length of the last piece of the text of `n` bytes: what follows the
/// full pieces that were ready before the end. It has up to 258 characters.
pub open spec fn last_len(n: nat) -> nat {
    (text_len(n) - 255 * chunks_ready(n)) as nat
}

/// Whether the last piece finds no room in the record that is open at the
/// end, and so opens a record of its own.
pub open spec fn last_rolls(n: nat) -> bool {
    last_len(n) > 0 && 44 + 256 * open_chunks(n) + 1 + last_len(n) > 65535
}

/// The number of the last record.
pub open spec fn last_set(n: nat) -> nat {
    if last_rolls(n) {
        closed_after(n) + 1
    } else {
        closed_after(n)
    }
}

/// The number of pieces that the text of `n` bytes is cut into.
pub open spec fn piece_count(n: nat) -> nat {
    if last_len(n) > 0 {
        chunks_ready(n) + 1
    } else {
        chunks_ready(n)
    }
}

/// What the last record weighs before the end marker is added.
pub open spec fn last_weight(n: nat) -> nat {
    (44 + 256 * (piece_count(n) - 255 * last_set(n)) - (if last_len(n) > 0 {
        255 - last_len(n)
    } else {
        0
    })) as nat
}

/// Whether `n` bytes can be encoded: the end marker must find room in the
/// last record, and the counter of labels must stay within 64 bits.
pub open spec fn encodable(n: nat) -> bool {
    &&& last_weight(n) + 45 <= 65535
    &&& last_set(n) < u64::MAX
}

/// Piece `i` of the text of `data`.
pub open spec fn piece(data: Seq<u8>, i: int) -> Seq<char> {
    let text = base64_text(data);
    if i < chunks_ready(data.len()) {
        text.subrange(255 * i, 255 * i + 255)
    } else {
        text.subrange(255 * i, text.len() as int)
    }
}

/// The number of pieces in record `j`.
pub open spec fn pieces_in(n: nat, j: nat) -> nat {
    if j == last_set(n) {
        (piece_count(n) - 255 * j) as nat
    } else {
        255
    }
}

/// The entries of record `j` after its hash: its pieces, and in the last
/// record the end marker.
pub open spec fn body(secret: Seq<u8>, data: Seq<u8>, j: nat) -> Seq<EntryView> {
    let pieces = Seq::new(
        pieces_in(data.len(), j),
        |i: int| EntryView::Content(piece(data, 255 * j + i)),
    );
    if j == last_set(data.len()) {
        pieces.push(EntryView::Eof(sha256(secret)@))
    } else {
        pieces
    }
}

/// Entries under the hash that covers them.
pub open spec fn sealed_entries(body: Seq<EntryView>) -> Seq<EntryView> {
    seq![EntryView::Hash(sha256(joined(body))@)] + body
}

/// Record `j` of the encoding of `data` under `secret`.
pub open spec fn record(secret: Seq<u8>, data: Seq<u8>, j: nat) -> SetView {
    SetView { name: label(secret, j as u64), entries: sealed_entries(body(secret, data, j)) }
}

/// The encoding of `data` under `secret`: its records in the order in which
/// they are published.
pub open spec fn encode(secret: Seq<u8>, data: Seq<u8>) -> Seq<SetView> {
    Seq::new(last_set(data.len()) + 1, |j: int| record(secret, data, j as nat))
}

/// The records that are handed out while `input` is consumed after
/// `before`: those that `input` completes.
pub open spec fn handed_out(secret: Seq<u8>, before: Seq<u8>, input: Seq<u8>) -> Seq<SetView> {
    encode(secret, before + input).subrange(
        closed_after(before.len()) as int,
        closed_after((before + input).len()) as int,
    )
}

/// The records that are handed out at the end, after all of `data` was
/// consumed: those that were not complete before.
pub open spec fn completion(secret: Seq<u8>, data: Seq<u8>) -> Seq<SetView> {
    encode(secret, data).subrange(closed_after(data.len()) as int, last_set(data.len()) as int + 1)
}

/// The full pieces of `text` from number `first` on, `count` of them, as
/// entries.
pub open spec fn chunk_entries(text: Seq<char>, first: int, count: nat) -> Seq<EntryView> {
    Seq::new(
        count,
        |i: int| EntryView::Content(text.subrange(255 * (first + i), 255 * (first + i) + 255)),
    )
}

/// Full pieces that lie within a text are not changed by what is appended
/// to it.
pub proof fn lemma_chunk_entries_extend(text: Seq<char>, more: Seq<char>, first: int, count: nat)
    requires
        0 <= first,
        255 * (first + count) <= text.len(),
    ensures
        chunk_entries(text + more, first, count) == chunk_entries(text, first, count),
{
    let long = chunk_entries(text + more, first, count);
    let short = chunk_entries(text, first, count);
    assert forall|i: int| 0 <= i < count implies #[trigger] long[i] == short[i] by {
        let m = first + i;
        assert(255 * m + 255 <= 255 * (first + count));
        assert((text + more).subrange(255 * m, 255 * m + 255) =~= text.subrange(
            255 * m,
            255 * m + 255,
        ));
    }
    assert(long =~= short);
}

/// The bytes that wait for their group to be completed.
pub open spec fn pending_bytes(data: Seq<u8>) -> Seq<u8> {
    data.subrange(whole_groups(data.len()) as int, data.len() as int)
}

/// When more bytes arrive, the text that is ready grows at its end: by the
/// text of the whole groups among the bytes that waited and the new ones.
pub proof fn lemma_ready_text_extends(data: Seq<u8>, more: Seq<u8>)
    ensures
        ({
            let waiting = pending_bytes(data) + more;
            &&& ready_text(data + more) == ready_text(data) + ready_text(waiting)
            &&& pending_bytes(data + more) == pending_bytes(waiting)
            &&& ready_text(data).len() == 4 * (data.len() / 3)
        }),
{
    let waiting = pending_bytes(data) + more;
    let whole = data.subrange(0, whole_groups(data.len()) as int);
    let all = data + more;
    assert(all.subrange(0, whole_groups(all.len()) as int) =~= whole + waiting.subrange(
        0,
        whole_groups(waiting.len()) as int,
    ));
    lemma_text_concat(whole, waiting.subrange(0, whole_groups(waiting.len()) as int));
    assert(pending_bytes(all) =~= pending_bytes(waiting));
}

/// The whole text is the text that was ready and the text of the bytes that
/// still waited.
pub proof fn lemma_text_completes(data: Seq<u8>)
    ensures
        base64_text(data) == ready_text(data) + base64_text(pending_bytes(data)),
        ready_text(data).len() == 4 * (data.len() / 3),
        ready_text(data).len() <= base64_text(data).len() <= ready_text(data).len() + 4,
{
    let whole = data.subrange(0, whole_groups(data.len()) as int);
    assert(data =~= whole + pending_bytes(data));
    lemma_text_concat(whole, pending_bytes(data));
}

/// Every record but the last holds 255 full pieces of the text that is
/// ready, whatever follows them.
pub proof fn lemma_full_body(secret: Seq<u8>, data: Seq<u8>, j: nat)
    requires
        j < last_set(data.len()),
    ensures
        body(secret, data, j) == chunk_entries(ready_text(data), 255 * (j as int), 255),
        255 * (j + 1) <= chunks_ready(data.len()),
{
    lemma_text_completes(data);
    let text = base64_text(data);
    let ready = ready_text(data);
    let a = chunks_ready(data.len());
    assert(255 * j + 255 <= a);
    assert(255 * a <= ready.len());
    let b = body(secret, data, j);
    let c = chunk_entries(ready, 255 * (j as int), 255);
    assert(b.len() == c.len());
    assert forall|i: int| 0 <= i < 255 implies b[i] == c[i] by {
        let m = 255 * j + i;
        assert(m < a);
        assert(255 * m + 255 <= 255 * a);
        assert(text.subrange(255 * m, 255 * m + 255) =~= ready.subrange(255 * m, 255 * m + 255));
    }
    assert(b =~= c);
}

/// The records that are complete before the end are not the last.
pub proof fn lemma_closed_before_last(n: nat)
    ensures
        closed_after(n) <= last_set(n),
{
}

/// How the end of the text is laid out, in plain numbers.
pub proof fn lemma_layout(n: nat)
    ensures
        ({
            let a = chunks_ready(n);
            let c = closed_after(n);
            let k = open_chunks(n);
            let r = last_len(n);
            &&& a == 255 * c + k
            &&& k <= 255
            &&& r <= 258
            &&& r + 255 * a == text_len(n)
            &&& last_rolls(n) <==> (k == 255 && r >= 211)
            &&& last_rolls(n) ==> last_set(n) == c + 1 && last_weight(n) == 45 + r
            &&& !last_rolls(n) && r > 0 ==> last_set(n) == c && last_weight(n) == 44 + 256 * k + 1
                + r
            &&& r == 0 ==> last_set(n) == c && last_weight(n) == 44 + 256 * k
        }),
{
}

/// The last piece of the text: what follows the full pieces that were ready.
pub open spec fn last_piece(data: Seq<u8>) -> Seq<char> {
    base64_text(data).subrange(
        255 * (chunks_ready(data.len()) as int),
        base64_text(data).len() as int,
    )
}

/// The last record holds the full pieces that found no record before,
/// unless the last piece opened it; then the last piece, if there is one;
/// then the end marker.
pub proof fn lemma_last_body(secret: Seq<u8>, data: Seq<u8>)
    ensures
        ({
            let n = data.len();
            let full = if last_rolls(n) {
                Seq::<EntryView>::empty()
            } else {
                chunk_entries(ready_text(data), 255 * (closed_after(n) as int), open_chunks(n))
            };
            let last = if last_len(n) > 0 {
                seq![EntryView::Content(last_piece(data))]
            } else {
                Seq::<EntryView>::empty()
            };
            body(secret, data, last_set(n)) == full + last + seq![EntryView::Eof(sha256(secret)@)]
        }),
        last_rolls(data.len()) ==> open_chunks(data.len()) == 255,
{
    lemma_text_completes(data);
    let n = data.len();
    let text = base64_text(data);
    let ready = ready_text(data);
    let a = chunks_ready(n) as int;
    let c = closed_after(n) as int;
    let k = open_chunks(n) as int;
    let j = last_set(n) as int;
    let full = if last_rolls(n) {
        Seq::<EntryView>::empty()
    } else {
        chunk_entries(ready, 255 * c, k as nat)
    };
    let last = if last_len(n) > 0 {
        seq![EntryView::Content(last_piece(data))]
    } else {
        Seq::<EntryView>::empty()
    };
    let expected = full + last + seq![EntryView::Eof(sha256(secret)@)];
    let b = body(secret, data, j as nat);
    assert(0 <= k <= 255);
    assert(255 * a <= ready.len());
    if last_rolls(n) {
        assert(k == 255);
    }
    assert(b.len() == expected.len());
    assert forall|i: int| 0 <= i < b.len() implies b[i] == expected[i] by {
        let m = 255 * j + i;
        if i < full.len() {
            assert(m < a);
            assert(255 * m + 255 <= 255 * a);
            assert(text.subrange(255 * m, 255 * m + 255) =~= ready.subrange(
                255 * m,
                255 * m + 255,
            ));
        } else if i < full.len() + last.len() {
            assert(m == a);
        }
    }
    assert(b =~= expected);
}

} // verus!
