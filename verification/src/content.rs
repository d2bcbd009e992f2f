//! Entries and record sets: the strings of one TXT record and what they
//! weigh on the wire.

use crate::base64_text::{base64_encode, base64_text, lemma_text_ascii};
use crate::digest::{digest_limit, sha256, sha256_digest};
use vstd::prelude::*;
use vstd::slice::*;
use vstd::string::*;
use vstd::utf8::*;

verus! {

/// The most that the strings of one record may weigh on the wire.
pub const MAX_WIRE_SIZE: usize = 65535;

/// What a fresh set weighs: the text of its hash, without the length byte.
pub const HASH_RESERVE: usize = 44;

/// One string of a record.
#[derive(Debug, Clone, PartialEq, Eq)]
pub enum ContentEntry {
    /// The digest of all that follows it in the record.
    Hash([u8; 32]),
    /// A piece of the payload's base-64 text.
    Content(String),
    /// The digest of the shared secret, which ends the stream.
    EOF([u8; 32]),
}

/// An entry as a mathematical value.
pub enum EntryView {
    Hash(Seq<u8>),
    Content(Seq<char>),
    Eof(Seq<u8>),
}

impl EntryView {
    /// The string that the entry is published as.
    pub open spec fn text(self) -> Seq<char> {
        match self {
            EntryView::Hash(h) => base64_text(h),
            EntryView::Content(s) => s,
            EntryView::Eof(h) => base64_text(h),
        }
    }

    /// The bytes of that string.
    pub open spec fn bytes(self) -> Seq<u8> {
        encode_utf8(self.text())
    }

    /// What the entry weighs on the wire: a length byte and the string.
    pub open spec fn wire_size(self) -> nat {
        1 + self.text().len()
    }

    /// A digest has 32 bytes, and content is ASCII.
    pub open spec fn wf(self) -> bool {
        match self {
            EntryView::Hash(h) => h.len() == 32,
            EntryView::Content(s) => is_ascii_chars(s),
            EntryView::Eof(h) => h.len() == 32,
        }
    }

    /// The string of a well-formed entry is ASCII, so it has as many bytes as
    /// characters; a digest's has 44.
    pub proof fn lemma_text(self)
        requires
            self.wf(),
        ensures
            is_ascii_chars(self.text()),
            self.bytes().len() == self.text().len(),
            !(self is Content) ==> self.text().len() == 44,
    {
        match self {
            EntryView::Hash(h) => {
                lemma_text_ascii(h);
            },
            EntryView::Content(s) => {},
            EntryView::Eof(h) => {
                lemma_text_ascii(h);
            },
        }
        is_ascii_chars_encode_utf8(self.text());
    }
}

impl View for ContentEntry {
    type V = EntryView;

    open spec fn view(&self) -> EntryView {
        match self {
            ContentEntry::Hash(h) => EntryView::Hash(h@),
            ContentEntry::Content(s) => EntryView::Content(s@),
            ContentEntry::EOF(h) => EntryView::Eof(h@),
        }
    }
}

/// The number of characters of an ASCII string.
pub fn ascii_len(text: &str) -> (n: usize)
    requires
        is_ascii_chars(text@),
    ensures
        n == text@.len(),
{
    proof {
        assert(is_ascii(text));
        is_ascii_spec_bytes(text);
        assert(text.spec_bytes().len() == text@.len());
    }
    text.as_bytes().len()
}

impl ContentEntry {
    /// What the entry weighs on the wire.
    pub fn dns_size(&self) -> (n: usize)
        requires
            self@.wf(),
            self@.wire_size() <= usize::MAX,
        ensures
            n == self@.wire_size(),
    {
        proof {
            self@.lemma_text();
        }
        match self {
            ContentEntry::Hash(_) => 45,
            ContentEntry::EOF(_) => 45,
            ContentEntry::Content(data) => {
                1 + ascii_len(data.as_str())
            },
        }
    }

    /// The string that the entry is published as.
    pub fn to_string(&self) -> (s: String)
        ensures
            s@ == self@.text(),
    {
        match self {
            ContentEntry::Hash(hash) => base64_encode(hash.as_slice()),
            ContentEntry::EOF(hash) => base64_encode(hash.as_slice()),
            ContentEntry::Content(data) => data.clone(),
        }
    }
}

/// Whether two byte strings are the same.
pub fn bytes_equal(a: &[u8], b: &[u8]) -> (same: bool)
    ensures
        same == (a@ == b@),
{
    if a.len() != b.len() {
        return false;
    }
    let mut i: usize = 0;
    while i < a.len()
        invariant
            i <= a.len(),
            a.len() == b.len(),
            forall|j: int| 0 <= j < i ==> a@[j] == b@[j],
        decreases a.len() - i,
    {
        if a[i] != b[i] {
            return false;
        }
        i += 1;
    }
    proof {
        assert(a@ =~= b@);
    }
    true
}

/// Whether two entries are of the same kind and hold the same.
pub fn entry_equal(a: &ContentEntry, b: &ContentEntry) -> (same: bool)
    ensures
        same == (a@ == b@),
{
    match a {
        ContentEntry::Hash(x) => match b {
            ContentEntry::Hash(y) => bytes_equal(x.as_slice(), y.as_slice()),
            _ => false,
        },
        ContentEntry::Content(x) => match b {
            ContentEntry::Content(y) => {
                let same = *x == *y;
                assert(same == (x@ == y@));
                same
            },
            _ => false,
        },
        ContentEntry::EOF(x) => match b {
            ContentEntry::EOF(y) => bytes_equal(x.as_slice(), y.as_slice()),
            _ => false,
        },
    }
}

/// Whether two lists of entries are the same, entry by entry.
pub fn entries_equal(a: &Vec<ContentEntry>, b: &Vec<ContentEntry>) -> (same: bool)
    ensures
        same == (a@.len() == b@.len() && forall|j: int| 0 <= j < a@.len() ==> a@[j]@ == b@[j]@),
{
    if a.len() != b.len() {
        return false;
    }
    let mut i: usize = 0;
    while i < a.len()
        invariant
            i <= a@.len(),
            a@.len() == b@.len(),
            forall|j: int| 0 <= j < i ==> a@[j]@ == b@[j]@,
        decreases a@.len() - i,
    {
        if !entry_equal(&a[i], &b[i]) {
            return false;
        }
        i += 1;
    }
    true
}

/// The bytes that a sequence of entries gives to the hash: their strings,
/// one after the other.
pub open spec fn joined(entries: Seq<EntryView>) -> Seq<u8>
    decreases entries.len(),
{
    if entries.len() == 0 {
        Seq::empty()
    } else {
        joined(entries.drop_last()) + entries.last().bytes()
    }
}

/// What a sequence of entries weighs on the wire.
pub open spec fn wire_total(entries: Seq<EntryView>) -> nat
    decreases entries.len(),
{
    if entries.len() == 0 {
        0
    } else {
        wire_total(entries.drop_last()) + entries.last().wire_size()
    }
}

/// Whether every entry is well formed.
pub open spec fn all_wf(entries: Seq<EntryView>) -> bool {
    forall|i: int| 0 <= i < entries.len() ==> (#[trigger] entries[i]).wf()
}

/// The hash sees fewer bytes than the entries weigh.
pub proof fn lemma_joined_len(entries: Seq<EntryView>)
    requires
        all_wf(entries),
    ensures
        joined(entries).len() + entries.len() == wire_total(entries),
    decreases entries.len(),
{
    if entries.len() > 0 {
        lemma_joined_len(entries.drop_last());
        entries.last().lemma_text();
    }
}

/// The bytes that a set in the making has given to its hash so far.
#[derive(Debug, Clone)]
pub struct HashContext {
    data: Vec<u8>,
}

impl View for HashContext {
    type V = Seq<u8>;

    closed spec fn view(&self) -> Seq<u8> {
        self.data@
    }
}

impl HashContext {
    /// A state that has seen nothing.
    pub fn new() -> (ctx: HashContext)
        ensures
            ctx@ == Seq::<u8>::empty(),
    {
        HashContext { data: Vec::new() }
    }

    /// Takes in `data` after what was seen before.
    pub fn update(&mut self, data: &[u8])
        ensures
            final(self)@ == old(self)@ + data@,
    {
        self.data.extend_from_slice(data);
    }

    /// How many bytes were seen.
    pub fn len(&self) -> (n: usize)
        ensures
            n == self@.len(),
    {
        self.data.len()
    }

    /// The SHA-256 digest of all that was seen.
    pub fn finish(self) -> (out: [u8; 32])
        requires
            self@.len() < digest_limit(),
        ensures
            out == sha256(self@),
    {
        sha256_digest(self.data.as_slice())
    }
}

/// A record in the making or ready to publish: its label and its strings.
#[derive(Debug, Clone)]
pub struct ContentSet {
    /// The label under which the record is published.
    pub name: String,
    /// What the entries weigh on the wire, the hash counted without its
    /// length byte.
    pub size: usize,
    /// The strings, the hash first.
    pub entries: Vec<ContentEntry>,
    /// The hash in progress; gone once the hash is written.
    pub hash_context: Option<HashContext>,
}

/// A record as a mathematical value.
pub struct SetView {
    pub name: Seq<char>,
    pub entries: Seq<EntryView>,
}

impl SetView {
    /// The entries that the hash covers: all but the first.
    pub open spec fn covered(self) -> Seq<EntryView> {
        self.entries.subrange(1, self.entries.len() as int)
    }

    /// The strings of the record in order.
    pub open spec fn texts(self) -> Seq<Seq<char>> {
        Seq::new(self.entries.len(), |i: int| self.entries[i].text())
    }

    /// The first entry is a hash and every entry is well formed.
    pub open spec fn wf(self) -> bool {
        &&& self.entries.len() >= 1
        &&& self.entries[0] is Hash
        &&& all_wf(self.entries)
    }

    /// The hash is that of the entries after it.
    pub open spec fn sealed(self) -> bool {
        self.entries[0] == EntryView::Hash(sha256(joined(self.covered()))@)
    }

    /// What the set weighs as it counts itself: the hash without its length
    /// byte, every other entry in full.
    pub open spec fn weight(self) -> nat {
        HASH_RESERVE as nat + wire_total(self.covered())
    }
}

impl View for ContentSet {
    type V = SetView;

    open spec fn view(&self) -> SetView {
        SetView {
            name: self.name@,
            entries: Seq::new(self.entries@.len(), |i: int| self.entries@[i]@),
        }
    }
}

/// The records that a sequence of sets stands for.
pub open spec fn views(sets: Seq<ContentSet>) -> Seq<SetView> {
    Seq::new(sets.len(), |i: int| sets[i]@)
}

/// Whether every set of a sequence is sound and has its hash written.
pub open spec fn all_sealed(sets: Seq<ContentSet>) -> bool {
    forall|i: int| 0 <= i < sets.len() ==> (#[trigger] sets[i]).wf() && !sets[i].is_open()
}

/// The records of two runs of sets, one after the other, are the records of
/// the first run followed by those of the second.
pub proof fn lemma_views_joined(first: Seq<ContentSet>, second: Seq<ContentSet>)
    ensures
        views(first + second) == views(first) + views(second),
        all_sealed(first) && all_sealed(second) ==> all_sealed(first + second),
{
    assert(views(first + second) =~= views(first) + views(second));
    if all_sealed(first) && all_sealed(second) {
        assert forall|i: int| 0 <= i < (first + second).len() implies (#[trigger] (first
            + second)[i]).wf() && !(first + second)[i].is_open() by {
            if i < first.len() {
                assert((first + second)[i] == first[i]);
            } else {
                assert((first + second)[i] == second[i - first.len()]);
            }
        }
    }
}

impl PartialEq for ContentSet {
    /// Two sets are equal when they have the same label and the same
    /// entries; weight and hash in progress are not compared.
    fn eq(&self, other: &Self) -> (same: bool) {
        let same = self.name == other.name && entries_equal(&self.entries, &other.entries);
        proof {
            if same {
                assert(self@.entries =~= other@.entries);
            } else if self.name@ == other.name@ {
                assert(self@.entries != other@.entries) by {
                    if self@.entries == other@.entries {
                        assert(self.entries@.len() == self@.entries.len());
                        assert(other.entries@.len() == other@.entries.len());
                        assert forall|j: int| 0 <= j < self.entries@.len() implies self.entries@[j]@
                            == other.entries@[j]@ by {
                            assert(self@.entries[j] == other@.entries[j]);
                        }
                    }
                }
            }
        }
        same
    }
}

impl vstd::std_specs::cmp::PartialEqSpecImpl for ContentSet {
    open spec fn obeys_eq_spec() -> bool {
        true
    }

    open spec fn eq_spec(&self, other: &Self) -> bool {
        self@ == other@
    }
}

impl ContentSet {
    /// The set is consistent: it starts with a hash, it knows its weight,
    /// which is within the limit, and its hash is either still in progress
    /// over the entries after the first, or written.
    pub open spec fn wf(&self) -> bool {
        &&& self@.wf()
        &&& self.size == self@.weight()
        &&& self.size <= MAX_WIRE_SIZE
        &&& match self.hash_context {
            Some(ctx) => ctx@ == joined(self@.covered()),
            None => self@.sealed(),
        }
    }

    /// Whether the hash is still in progress.
    pub open spec fn is_open(&self) -> bool {
        self.hash_context is Some
    }

    /// The set is ready to publish and is the record `view`.
    pub open spec fn publishes(&self, view: SetView) -> bool {
        &&& self.wf()
        &&& !self.is_open()
        &&& self@ == view
    }

    /// A set whose hash is written is its name and the hash over its other
    /// entries.
    pub proof fn lemma_sealed_view(&self)
        requires
            self.wf(),
            !self.is_open(),
        ensures
            self@.entries == seq![EntryView::Hash(sha256(joined(self@.covered()))@)]
                + self@.covered(),
    {
        assert(self@.entries =~= seq![EntryView::Hash(sha256(joined(self@.covered()))@)]
            + self@.covered());
    }

    /// A set with the given label that holds nothing but a blank hash.
    pub fn new(name: String) -> (set: ContentSet)
        ensures
            set.wf(),
            set.is_open(),
            set.size == HASH_RESERVE,
            set@.name == name@,
            set@.entries == seq![EntryView::Hash(Seq::new(32, |i: int| 0u8))],
    {
        let mut entries: Vec<ContentEntry> = Vec::new();
        let blank: [u8; 32] = [0u8; 32];
        entries.push(ContentEntry::Hash(blank));
        let set = ContentSet {
            name,
            size: HASH_RESERVE,
            hash_context: Some(HashContext::new()),
            entries,
        };
        proof {
            assert(blank@ =~= Seq::new(32, |i: int| 0u8));
            assert(set@.entries =~= seq![EntryView::Hash(Seq::new(32, |i: int| 0u8))]);
            assert(set@.covered() =~= Seq::<EntryView>::empty());
        }
        set
    }

    /// Writes the hash of the entries into the first entry and gives up the
    /// hash in progress. On a set whose hash is written already, nothing
    /// changes.
    pub fn calculate_hash(&mut self)
        requires
            old(self).wf(),
        ensures
            final(self).wf(),
            !final(self).is_open(),
            final(self)@.sealed(),
            final(self)@.name == old(self)@.name,
            final(self).size == old(self).size,
            final(self)@.covered() == old(self)@.covered(),
            final(self)@.entries.len() == old(self)@.entries.len(),
    {
        let ghost before = self@;
        let taken = self.hash_context.take();
        if let Some(ctx) = taken {
            proof {
                lemma_joined_len(before.covered());
            }
            let digest = ctx.finish();
            self.entries[0] = ContentEntry::Hash(digest);
            proof {
                assert(self@.entries =~= before.entries.update(0, EntryView::Hash(digest@)));
                assert(self@.covered() =~= before.covered());
                assert forall|i: int| 0 <= i < self@.entries.len() implies (
                #[trigger] self@.entries[i]).wf() by {
                    if i > 0 {
                        assert(self@.entries[i] == before.entries[i]);
                    }
                }
            }
        } else {
            proof {
                assert(self@.entries =~= before.entries);
            }
        }
    }

    /// Appends `entry` if the set can carry it, and hands it back if not.
    pub fn add_entry(&mut self, entry: ContentEntry) -> (res: Result<(), ContentEntry>)
        requires
            old(self).wf(),
            old(self).is_open(),
            entry@.wf(),
            entry@.wire_size() <= usize::MAX,
        ensures
            final(self).wf(),
            final(self).is_open(),
            final(self)@.name == old(self)@.name,
            old(self).size + entry@.wire_size() <= MAX_WIRE_SIZE ==> {
                &&& res is Ok
                &&& final(self)@.entries == old(self)@.entries.push(entry@)
                &&& final(self).size == old(self).size + entry@.wire_size()
            },
            old(self).size + entry@.wire_size() > MAX_WIRE_SIZE ==> {
                &&& res == Err::<(), ContentEntry>(entry)
                &&& final(self)@ == old(self)@
                &&& final(self).size == old(self).size
            },
    {
        let ghost before = self@;
        let wire = entry.dns_size();
        if wire > MAX_WIRE_SIZE - self.size {
            proof {
                assert(self@.entries =~= before.entries);
            }
            return Err(entry);
        }
        self.size = self.size + wire;
        let text = entry.to_string();
        let taken = self.hash_context.take();
        if let Some(ctx) = taken {
            let mut ctx = ctx;
            ctx.update(text.as_str().as_bytes());
            self.hash_context = Some(ctx);
        }
        let ghost added = entry@;
        self.entries.push(entry);
        proof {
            assert(self@.entries =~= before.entries.push(added));
            assert(self@.covered() =~= before.covered().push(added));
            assert(self@.covered().drop_last() =~= before.covered());
        }
        Ok(())
    }
}

} // verus!
