//! The encoder: it takes bytes as they come and hands out records as they
//! fill up.

use crate::base64_text::{base64_encode, lemma_text_ascii};
use crate::content::{
    all_sealed, ascii_len, lemma_views_joined, views, ContentEntry, ContentSet, EntryView,
};
use crate::digest::{digest_limit, sha256, sha256_digest};
use crate::encoding::{
    body, chunk_entries, chunks_ready, closed_after, closed_sets, completion, encodable, encode,
    handed_out, last_len, last_piece, last_rolls, last_set, last_weight, lemma_chunk_entries_extend,
    lemma_closed_before_last, lemma_full_body, lemma_last_body, lemma_layout,
    lemma_ready_text_extends, lemma_text_completes, open_chunks, pending_bytes, ready_text, record,
    whole_groups, CHUNK_LEN,
};
use crate::label::{label, next_ahotp};
use vstd::prelude::*;
use vstd::slice::*;
use vstd::string::*;
use vstd::utf8::*;

verus! {

/// The state of an encoding in progress.
pub struct PolysemeBuilder {
    shared_key: Vec<u8>,
    counter: u64,
    base64_buffer: Vec<u8>,
    current_chunk: String,
    current_set: ContentSet,
    consumed: Ghost<Seq<u8>>,
}

impl PolysemeBuilder {
    /// The secret that the records are made under.
    pub closed spec fn secret(&self) -> Seq<u8> {
        self.shared_key@
    }

    /// All the bytes that were consumed so far.
    pub closed spec fn consumed(&self) -> Seq<u8> {
        self.consumed@
    }

    /// The number of labels that were given out.
    pub closed spec fn labels_used(&self) -> nat {
        self.counter as nat
    }

    /// The number of full pieces that were packed into records.
    spec fn packed(&self) -> nat {
        ((ready_text(self.consumed@).len() - self.current_chunk@.len()) / 255) as nat
    }

    /// What holds between any two steps: the fields describe the text that
    /// is ready for the bytes consumed, cut after `packed()` pieces.
    spec fn inv(&self) -> bool {
        let data = self.consumed@;
        let text = ready_text(data);
        let a = self.packed() as int;
        let c = closed_sets(a as nat) as int;
        let k = a - 255 * c;
        &&& self.shared_key@.len() < digest_limit()
        &&& self.base64_buffer@ == pending_bytes(data)
        &&& 255 * a + self.current_chunk@.len() == text.len()
        &&& self.current_chunk@ == text.subrange(255 * a, text.len() as int)
        &&& self.counter == c + 1
        &&& self.current_set.wf()
        &&& self.current_set.is_open()
        &&& self.current_set@.name == label(self.shared_key@, c as u64)
        &&& self.current_set.size == 44 + 256 * k
        &&& self.current_set@.covered() == chunk_entries(text, 255 * c, k as nat)
    }

    /// The builder is consistent and at rest: every full piece of the text
    /// that is ready has been packed.
    pub closed spec fn wf(&self) -> bool {
        &&& self.inv()
        &&& self.current_chunk@.len() < 255
    }

    /// A builder that has consumed nothing, with the first record open.
    pub fn new(shared_key: &[u8]) -> (builder: PolysemeBuilder)
        requires
            shared_key@.len() < digest_limit(),
        ensures
            builder.wf(),
            builder.secret() == shared_key@,
            builder.consumed() == Seq::<u8>::empty(),
            builder.labels_used() == 1,
    {
        let mut counter: u64 = 0;
        let current_set = ContentSet::new(next_ahotp(&mut counter, shared_key));
        let builder = PolysemeBuilder {
            shared_key: slice_to_vec(shared_key),
            counter,
            current_chunk: String::new(),
            base64_buffer: Vec::new(),
            current_set,
            consumed: Ghost(Seq::empty()),
        };
        proof {
            let data = builder.consumed@;
            assert(data.subrange(0, 0) =~= Seq::<u8>::empty());
            assert(ready_text(data) =~= Seq::<char>::empty());
            assert(builder.base64_buffer@ =~= pending_bytes(data));
            assert(builder.current_chunk@ =~= ready_text(data).subrange(0, 0));
            assert(builder.current_set@.covered() =~= chunk_entries(ready_text(data), 0, 0));
        }
        builder
    }

    /// Splits the first 255 characters off the pending text, if it has that
    /// many.
    fn next_chunk(&mut self) -> (chunk: Option<String>)
        requires
            is_ascii_chars(old(self).current_chunk@),
        ensures
            final(self).shared_key == old(self).shared_key,
            final(self).counter == old(self).counter,
            final(self).base64_buffer == old(self).base64_buffer,
            final(self).current_set == old(self).current_set,
            final(self).consumed == old(self).consumed,
            old(self).current_chunk@.len() < 255 ==> chunk is None && final(self).current_chunk
                == old(self).current_chunk,
            old(self).current_chunk@.len() >= 255 ==> chunk is Some && chunk->0@ == old(
                self,
            ).current_chunk@.subrange(0, 255) && final(self).current_chunk@ == old(
                self,
            ).current_chunk@.subrange(255, old(self).current_chunk@.len() as int),
    {
        let text = self.current_chunk.as_str();
        let len = ascii_len(text);
        if len < CHUNK_LEN {
            return None;
        }
        let chunk = String::from_str(text.substring_ascii(0, CHUNK_LEN));
        let rest = String::from_str(text.substring_ascii(CHUNK_LEN, len));
        self.current_chunk = rest;
        Some(chunk)
    }

    /// What adding `entry` does: it joins the open record if that can carry
    /// it; if not, the open record is sealed and handed back, and the entry
    /// opens the next one under the next label.
    spec fn step(
        pre: PolysemeBuilder,
        post: PolysemeBuilder,
        entry: EntryView,
        closed: Option<ContentSet>,
    ) -> bool {
        &&& post.shared_key == pre.shared_key
        &&& post.base64_buffer == pre.base64_buffer
        &&& post.current_chunk == pre.current_chunk
        &&& post.consumed == pre.consumed
        &&& post.current_set.wf()
        &&& post.current_set.is_open()
        &&& pre.current_set.size + entry.wire_size() <= 65535 ==> {
            &&& closed is None
            &&& post.counter == pre.counter
            &&& post.current_set@.name == pre.current_set@.name
            &&& post.current_set@.entries == pre.current_set@.entries.push(entry)
            &&& post.current_set.size == pre.current_set.size + entry.wire_size()
        }
        &&& pre.current_set.size + entry.wire_size() > 65535 ==> {
            &&& closed is Some
            &&& closed->0.wf()
            &&& !closed->0.is_open()
            &&& closed->0@.name == pre.current_set@.name
            &&& closed->0@.covered() == pre.current_set@.covered()
            &&& post.counter == pre.counter + 1
            &&& post.current_set@.name == label(pre.shared_key@, pre.counter)
            &&& post.current_set@.covered() == seq![entry]
            &&& post.current_set.size == 44 + entry.wire_size()
        }
    }

    /// What must hold before `entry` is added: the open record is sound, a
    /// fresh record can carry the entry, and a label is left if one is
    /// needed.
    spec fn can_step(pre: PolysemeBuilder, entry: EntryView) -> bool {
        &&& pre.current_set.wf()
        &&& pre.current_set.is_open()
        &&& pre.shared_key@.len() < digest_limit()
        &&& entry.wf()
        &&& 44 + entry.wire_size() <= 65535
        &&& pre.current_set.size + entry.wire_size() > 65535 ==> pre.counter < u64::MAX
    }

    /// Adds an entry to the open record. If the record cannot carry it, the
    /// record is sealed and handed back, and the entry opens the next one.
    fn add_content_entry(&mut self, content_entry: ContentEntry) -> (closed: Option<ContentSet>)
        requires
            Self::can_step(*old(self), content_entry@),
        ensures
            Self::step(*old(self), *final(self), content_entry@, closed),
    {
        match self.current_set.add_entry(content_entry) {
            Ok(()) => None,
            Err(entry) => {
                let name = next_ahotp(&mut self.counter, self.shared_key.as_slice());
                let mut next_set = ContentSet::new(name);
                let added = next_set.add_entry(entry);
                assert(added is Ok);
                self.current_set.calculate_hash();
                core::mem::swap(&mut self.current_set, &mut next_set);
                proof {
                    assert(self.current_set@.covered() =~= seq![content_entry@]);
                }
                Some(next_set)
            },
        }
    }

    /// Adds the end marker: the digest of the secret.
    fn add_eof(&mut self) -> (closed: Option<ContentSet>)
        requires
            Self::can_step(*old(self), EntryView::Eof(sha256(old(self).shared_key@)@)),
        ensures
            Self::step(
                *old(self),
                *final(self),
                EntryView::Eof(sha256(old(self).shared_key@)@),
                closed,
            ),
    {
        let digest = sha256_digest(self.shared_key.as_slice());
        self.add_content_entry(ContentEntry::EOF(digest))
    }

    /// Adds a full piece of text.
    fn add_chunk(&mut self, chunk: String) -> (closed: Option<ContentSet>)
        requires
            chunk@.len() == 255,
            Self::can_step(*old(self), EntryView::Content(chunk@)),
        ensures
            Self::step(*old(self), *final(self), EntryView::Content(chunk@), closed),
    {
        self.add_unchecked_chunk(chunk)
    }

    /// Adds a piece of text of any length.
    fn add_unchecked_chunk(&mut self, chunk: String) -> (closed: Option<ContentSet>)
        requires
            Self::can_step(*old(self), EntryView::Content(chunk@)),
        ensures
            Self::step(*old(self), *final(self), EntryView::Content(chunk@), closed),
    {
        self.add_content_entry(ContentEntry::Content(chunk))
    }
}

impl PolysemeBuilder {
    /// A record handed out while more data may follow: sealed, under the
    /// label with number `j`, holding the 255 full pieces from `255 * j` on.
    spec fn streamed(set: ContentSet, secret: Seq<u8>, text: Seq<char>, j: int) -> bool {
        &&& set.wf()
        &&& !set.is_open()
        &&& set@.name == label(secret, j as u64)
        &&& set@.covered() == chunk_entries(text, 255 * j, 255)
    }

    /// Takes in `input` and hands out the records that it completes, in
    /// order. What does not fill a record yet stays in the builder.
    /// `can_consume` tells whether labels are left for the records.
    pub fn consume(&mut self, input: &[u8]) -> (sets: Vec<ContentSet>)
        requires
            old(self).wf(),
            closed_after(old(self).consumed().len() + input@.len()) < u64::MAX,
        ensures
            final(self).wf(),
            final(self).secret() == old(self).secret(),
            final(self).consumed() == old(self).consumed() + input@,
            final(self).labels_used() == closed_after(final(self).consumed().len()) + 1,
            all_sealed(sets@),
            views(sets@) == handed_out(old(self).secret(), old(self).consumed(), input@),
    {
        let ghost before = self.consumed@;
        let ghost after = before + input@;
        let ghost secret = self.shared_key@;
        let ghost a0 = self.packed() as int;
        let ghost c0 = closed_sets(a0 as nat) as int;
        let ghost old_text = ready_text(before);
        let ghost text = ready_text(after);
        proof {
            lemma_ready_text_extends(before, input@);
            lemma_text_completes(after);
            lemma_text_ascii(after.subrange(0, whole_groups(after.len()) as int));
            assert(a0 == chunks_ready(before.len()));
        }
        self.base64_buffer.extend_from_slice(input);
        assert(self.base64_buffer@ =~= pending_bytes(before) + input@);
        let len = self.base64_buffer.len();
        let whole = len - len % 3;
        let encoded = base64_encode(slice_subrange(self.base64_buffer.as_slice(), 0, whole));
        self.current_chunk.append(encoded.as_str());
        let rest = slice_to_vec(slice_subrange(self.base64_buffer.as_slice(), whole, len));
        self.base64_buffer = rest;
        self.consumed = Ghost(after);
        proof {
            assert(text == old_text + encoded@);
            assert(self.current_chunk@ =~= text.subrange(255 * a0, text.len() as int));
            assert(self.packed() == a0);
            lemma_chunk_entries_extend(old_text, encoded@, 255 * c0, (a0 - 255 * c0) as nat);
            assert(self.inv());
        }
        let mut buffer: Vec<ContentSet> = Vec::new();
        loop
            invariant
                self.inv(),
                self.consumed@ == after,
                self.shared_key@ == secret,
                text == ready_text(after),
                text.len() == 4 * (after.len() / 3),
                is_ascii_chars(text),
                closed_after(after.len()) < u64::MAX,
                c0 <= closed_sets(self.packed()),
                buffer@.len() == closed_sets(self.packed()) - c0,
                forall|i: int|
                    0 <= i < buffer@.len() ==> Self::streamed(
                        #[trigger] buffer@[i],
                        secret,
                        text,
                        c0 + i,
                    ),
            ensures
                self.current_chunk@.len() < 255,
            decreases self.current_chunk@.len(),
        {
            let ghost pre = *self;
            let ghost a = self.packed() as int;
            let ghost c = closed_sets(a as nat) as int;
            let ghost k = a - 255 * c;
            match self.next_chunk() {
                None => {
                    break ;
                },
                Some(chunk) => {
                    proof {
                        assert(chunk@ =~= text.subrange(255 * a, 255 * a + 255));
                        assert(a + 1 <= chunks_ready(after.len()));
                        assert(closed_sets((a + 1) as nat) <= closed_after(after.len()));
                    }
                    let ghost mid = *self;
                    let closed = self.add_chunk(chunk);
                    proof {
                        assert(self.current_chunk@ =~= text.subrange(
                            255 * (a + 1),
                            text.len() as int,
                        ));
                        assert(self.packed() == a + 1);
                        if k <= 254 {
                            assert(closed_sets((a + 1) as nat) == c);
                            assert(self.current_set@.covered() =~= mid.current_set@.covered().push(
                                EntryView::Content(chunk@),
                            ));
                            assert(self.current_set@.covered() =~= chunk_entries(
                                text,
                                255 * c,
                                (k + 1) as nat,
                            ));
                        } else {
                            assert(closed_sets((a + 1) as nat) == c + 1);
                            assert(self.current_set@.covered() =~= chunk_entries(
                                text,
                                255 * (c + 1),
                                1,
                            ));
                            assert(Self::streamed(closed->0, secret, text, c));
                        }
                        assert(self.inv());
                    }
                    if let Some(set) = closed {
                        buffer.push(set);
                    }
                },
            }
        }
        proof {
            assert(self.packed() == chunks_ready(after.len()));
            lemma_closed_before_last(after.len());
            let expected = handed_out(secret, before, input@);
            assert(views(buffer@).len() == expected.len());
            assert forall|i: int| 0 <= i < buffer@.len() implies (#[trigger] buffer@[i]).publishes(
                record(secret, after, (c0 + i) as nat),
            ) by {
                let set = buffer@[i];
                assert(Self::streamed(set, secret, text, c0 + i));
                lemma_full_body(secret, after, (c0 + i) as nat);
                set.lemma_sealed_view();
            }
            assert forall|i: int| 0 <= i < expected.len() implies views(buffer@)[i]
                == expected[i] by {
                assert(buffer@[i].publishes(record(secret, after, (c0 + i) as nat)));
            }
            assert(views(buffer@) =~= expected);
        }
        buffer
    }

    /// Whether `len` more bytes can be consumed: the records that they
    /// complete must find labels within the 64 bits of the counter.
    pub fn can_consume(&self, len: usize) -> (ok: bool)
        requires
            self.wf(),
        ensures
            ok == (closed_after((self.consumed().len() + len) as nat) < u64::MAX),
    {
        let ghost n = self.consumed@.len();
        proof {
            lemma_layout(n);
            lemma_text_completes(self.consumed@);
            lemma_text_ascii(
                self.consumed@.subrange(0, whole_groups(self.consumed@.len()) as int),
            );
            assert(self.packed() == chunks_ready(n));
            assert(self.counter == closed_after(n) + 1);
            assert(self.current_set.size == 44 + 256 * open_chunks(n));
            assert(self.base64_buffer@.len() == n % 3);
            assert(self.current_chunk@.len() == 4 * (n / 3) - 255 * chunks_ready(n));
        }
        let waiting = ascii_len(self.current_chunk.as_str()) as u128;
        let in_open = ((self.current_set.size - 44) / 256) as u128;
        let packed: u128 = 255 * ((self.counter - 1) as u128) + in_open;
        let groups: u128 = (self.base64_buffer.len() as u128 + len as u128) / 3;
        let chunks: u128 = packed + (waiting + 4 * groups) / 255;
        proof {
            assert(packed == chunks_ready(n));
            assert((n + len) / 3 == n / 3 + groups);
            assert(chunks == chunks_ready((n + len) as nat));
        }
        if chunks == 0 {
            true
        } else {
            (chunks - 1) / 255 < 0xffff_ffff_ffff_ffffu128
        }
    }

    /// Whether the encoding can be completed now: see `encodable`.
    pub fn can_finalize(&self) -> (ok: bool)
        requires
            self.wf(),
        ensures
            ok == encodable(self.consumed().len()),
    {
        let ghost n = self.consumed@.len();
        proof {
            lemma_layout(n);
            lemma_text_completes(self.consumed@);
            lemma_text_ascii(
                self.consumed@.subrange(0, whole_groups(self.consumed@.len()) as int),
            );
            assert(self.packed() == chunks_ready(n));
            assert(self.current_set.size == 44 + 256 * open_chunks(n));
            assert(self.counter == closed_after(n) + 1);
            assert(self.base64_buffer@.len() == n % 3);
        }
        let waiting = ascii_len(self.current_chunk.as_str());
        let last: usize = if self.base64_buffer.len() > 0 {
            waiting + 4
        } else {
            waiting
        };
        assert(last == last_len(n));
        let size = self.current_set.size;
        if last == 0 {
            size + 45 <= 65535
        } else if size + 1 + last > 65535 {
            assert(last_rolls(n));
            self.counter < u64::MAX
        } else {
            assert(!last_rolls(n));
            size + 1 + last + 45 <= 65535
        }
    }

    /// Completes the encoding. The bytes that still waited are turned into
    /// text; all the text that is left, if there is any, goes out as one last
    /// piece, which can so have up to 258 characters; then comes the end
    /// marker. The records that were not handed out yet are, in order: the
    /// last of them carries the end marker. The end marker must find room
    /// beside the last piece: `can_finalize` tells whether it does.
    #[verifier::spinoff_prover]
    #[verifier::rlimit(30)]
    pub fn finalize(self) -> (sets: Vec<ContentSet>)
        requires
            self.wf(),
            encodable(self.consumed().len()),
        ensures
            all_sealed(sets@),
            views(sets@) == completion(self.secret(), self.consumed()),
    {
        let mut this = self;
        let ghost data = this.consumed@;
        let ghost n = data.len();
        let ghost secret = this.shared_key@;
        let ghost c = closed_after(n) as int;
        let ghost k = open_chunks(n) as int;
        let ghost r = last_len(n) as int;
        let ghost full = this.current_set@.covered();
        let ghost eof = EntryView::Eof(sha256(secret)@);
        proof {
            lemma_layout(n);
            lemma_text_completes(data);
            lemma_text_ascii(data);
            lemma_last_body(secret, data);
            assert(this.packed() == chunks_ready(n));
            assert(this.counter == c + 1);
            assert(this.current_set.size == 44 + 256 * k);
            assert(full == chunk_entries(ready_text(data), 255 * c, k as nat));
        }
        let mut buffer: Vec<ContentSet> = Vec::new();
        let tail = base64_encode(this.base64_buffer.as_slice());
        this.current_chunk.append(tail.as_str());
        assert(this.current_chunk@ =~= last_piece(data));
        let last = ascii_len(this.current_chunk.as_str());
        assert(last == r);
        if last > 0 {
            let chunk = this.current_chunk.clone();
            let rolled = this.add_unchecked_chunk(chunk);
            proof {
                if rolled is Some {
                    assert(last_rolls(n));
                    lemma_full_body(secret, data, c as nat);
                    rolled->0.lemma_sealed_view();
                    assert(rolled->0@ == record(secret, data, c as nat));
                    assert(this.current_set@.covered() =~= seq![
                        EntryView::Content(last_piece(data)),
                    ]);
                } else {
                    assert(!last_rolls(n));
                    assert(this.current_set@.covered() =~= full + seq![
                        EntryView::Content(last_piece(data)),
                    ]);
                }
            }
            if let Some(set) = rolled {
                buffer.push(set);
            }
        }
        let ghost filled = this.current_set@.covered();
        assert(this.current_set.size == last_weight(n));
        assert(this.current_set@.name == label(secret, last_set(n) as u64));
        assert(body(secret, data, last_set(n)) =~= filled + seq![eof]);
        assert(buffer@.len() == last_set(n) - c);
        let rolled = this.add_eof();
        assert(rolled is None);
        this.current_set.calculate_hash();
        let last_one = this.current_set;
        proof {
            assert(last_one@.covered() =~= filled + seq![eof]);
            last_one.lemma_sealed_view();
            assert(last_one@ == record(secret, data, last_set(n)));
        }
        buffer.push(last_one);
        proof {
            let expected = encode(secret, data).subrange(c, last_set(n) as int + 1);
            assert(views(buffer@).len() == expected.len());
            assert forall|i: int| 0 <= i < expected.len() implies views(buffer@)[i]
                == expected[i] by {
                assert(expected[i] == record(secret, data, (c + i) as nat));
            }
            assert(views(buffer@) =~= expected);
        }
        buffer
    }
}

/// The whole encoding of `input` under `shared_key`.
pub fn create_polyseme(shared_key: &[u8], input: &[u8]) -> (sets: Vec<ContentSet>)
    requires
        shared_key@.len() < digest_limit(),
        encodable(input@.len()),
    ensures
        all_sealed(sets@),
        sets@.len() == last_set(input@.len()) + 1,
        views(sets@) == encode(shared_key@, input@),
{
    proof {
        lemma_closed_before_last(input@.len());
        assert(Seq::<u8>::empty() + input@ =~= input@);
    }
    let mut builder = PolysemeBuilder::new(shared_key);
    let mut sets = builder.consume(input);
    let ghost first = sets@;
    let mut rest = builder.finalize();
    let ghost second = rest@;
    sets.append(&mut rest);
    proof {
        let whole = encode(shared_key@, input@);
        let c = closed_after(input@.len()) as int;
        assert(sets@ =~= first + second);
        lemma_views_joined(first, second);
        assert(views(first) =~= whole.subrange(0, c));
        assert(whole.subrange(0, c) + whole.subrange(c, whole.len() as int) =~= whole);
    }
    sets
}

} // verus!