//! Base-64 text: what the standard alphabet with padding makes of a byte
//! string, stated position by position, and the calls that produce and read it.

use vstd::prelude::*;
use vstd::utf8::*;

verus! {

/// The character that stands for a six-bit value in the standard alphabet.
pub open spec fn symbol(v: int) -> char {
    if v < 26 {
        (v + 65) as u8 as char
    } else if v < 52 {
        (v + 71) as u8 as char
    } else if v < 62 {
        (v - 4) as u8 as char
    } else if v == 62 {
        '+'
    } else {
        '/'
    }
}

/// The byte at `j`, or zero past the end.
pub open spec fn octet(data: Seq<u8>, j: int) -> int {
    if 0 <= j < data.len() {
        data[j] as int
    } else {
        0
    }
}

/// The three bytes of group `g` as one 24-bit number, missing bytes as zero.
pub open spec fn group(data: Seq<u8>, g: int) -> int {
    octet(data, 3 * g) * 65536 + octet(data, 3 * g + 1) * 256 + octet(data, 3 * g + 2)
}

/// What one unit of the `k`-th character of a group is worth in the group.
pub open spec fn weight(k: int) -> int {
    if k == 0 {
        262144
    } else if k == 1 {
        4096
    } else if k == 2 {
        64
    } else {
        1
    }
}

/// The six bits that the character at `i` carries.
pub open spec fn sextet(data: Seq<u8>, i: int) -> int {
    (group(data, i / 4) / weight(i % 4)) % 64
}

/// The character at `i` of the text: a symbol while its bits begin inside the
/// data, `=` after that.
pub open spec fn char_at(data: Seq<u8>, i: int) -> char {
    if 3 * (i / 4) + i % 4 <= data.len() {
        symbol(sextet(data, i))
    } else {
        '='
    }
}

/// The length of the text of `n` bytes: four characters for every three
/// bytes begun.
pub open spec fn text_len(n: nat) -> nat {
    (4 * ((n + 2) / 3)) as nat
}

/// The base-64 text of `data`.
pub open spec fn base64_text(data: Seq<u8>) -> Seq<char> {
    Seq::new(text_len(data.len()), |i: int| char_at(data, i))
}

/// The bytes of a text that is ASCII: one for each character.
pub open spec fn ascii_bytes(text: Seq<char>) -> Seq<u8> {
    Seq::new(text.len(), |i: int| text[i] as u8)
}

/// Whether `input` is the text of some byte string.
pub open spec fn is_text(input: Seq<u8>) -> bool {
    exists|data: Seq<u8>| #[trigger] ascii_bytes(base64_text(data)) == input
}

/// The byte string whose text `input` is.
pub open spec fn text_source(input: Seq<u8>) -> Seq<u8> {
    choose|data: Seq<u8>| #[trigger] ascii_bytes(base64_text(data)) == input
}

/// The error that decoding reports.
#[verifier::external_type_specification]
#[verifier::external_body]
pub struct ExDecodeError(base64::DecodeError);

/// What the decoder makes of an input that is not the text of any byte
/// string: it accepts some of them (text without its padding), and refuses
/// the others with an error that says where.
pub uninterp spec fn loose_decoding(input: Seq<u8>) -> Result<Seq<u8>, base64::DecodeError>;

/// What the decoder makes of the text of a byte string: that byte string.
pub open spec fn strict_decoding(input: Seq<u8>) -> Result<Seq<u8>, base64::DecodeError> {
    Ok(text_source(input))
}

/// What decoding `input` gives: the bytes behind it where it is their text,
/// and what the decoder makes of it otherwise.
pub open spec fn decoding(input: Seq<u8>) -> Result<Seq<u8>, base64::DecodeError> {
    if is_text(input) {
        strict_decoding(input)
    } else {
        loose_decoding(input)
    }
}

/// A decoder's result with the bytes as a sequence.
pub open spec fn decoded_view(res: Result<Vec<u8>, base64::DecodeError>) -> Result<
    Seq<u8>,
    base64::DecodeError,
> {
    match res {
        Ok(bytes) => Ok(bytes@),
        Err(e) => Err(e),
    }
}

/// `base64::encode`: the text of `data` in the standard alphabet, padded with
/// `=` to a multiple of four characters. The encoder panics where the length
/// of the text does not fit `usize`; a slice, which holds no more than
/// `isize::MAX` bytes, is never that long.
#[verifier::external_body]
pub(crate) fn base64_encode(data: &[u8]) -> (text: String)
    ensures
        text@ == base64_text(data@),
{
    base64::encode(data)
}

/// `base64::decode`: given the text of a byte string, those bytes; given
/// anything else, a result that depends on the input alone. The decoder
/// panics where the length of the input and three more do not fit `usize`;
/// a slice, which holds no more than `isize::MAX` bytes, is never that long.
#[verifier::external_body]
pub(crate) fn base64_decode(input: &[u8]) -> (res: Result<Vec<u8>, base64::DecodeError>)
    ensures
        is_text(input@) ==> decoded_view(res) == strict_decoding(input@),
        !is_text(input@) ==> decoded_view(res) == loose_decoding(input@),
{
    base64::decode(input)
}

/// Every symbol is an ASCII character.
pub proof fn lemma_symbol_ascii(v: int)
    requires
        0 <= v < 64,
    ensures
        '\0' <= symbol(v) <= '\u{7f}',
        symbol(v) != '=',
{
}

/// The text is ASCII throughout.
pub proof fn lemma_text_ascii(data: Seq<u8>)
    ensures
        is_ascii_chars(base64_text(data)),
        base64_text(data).len() == text_len(data.len()),
{
    let t = base64_text(data);
    assert forall|i: int| 0 <= i < t.len() implies '\0' <= #[trigger] t[i] <= '\u{7f}' by {
        if 3 * (i / 4) + i % 4 <= data.len() {
            lemma_symbol_ascii(sextet(data, i));
        }
    }
}

/// Text is made group by group: after a whole number of groups, the text of
/// what follows is simply appended.
pub proof fn lemma_text_concat(a: Seq<u8>, b: Seq<u8>)
    requires
        a.len() % 3 == 0,
    ensures
        base64_text(a + b) == base64_text(a) + base64_text(b),
{
    let ab = a + b;
    let ga = a.len() as int / 3;
    let ta = base64_text(a);
    let tb = base64_text(b);
    let t = base64_text(ab);
    assert(t.len() == ta.len() + tb.len());
    assert(ta.len() == 4 * ga);
    assert forall|i: int| 0 <= i < t.len() implies t[i] == (ta + tb)[i] by {
        let g = i / 4;
        if i < ta.len() {
            assert(g < ga);
            assert(octet(ab, 3 * g) == octet(a, 3 * g));
            assert(octet(ab, 3 * g + 1) == octet(a, 3 * g + 1));
            assert(octet(ab, 3 * g + 2) == octet(a, 3 * g + 2));
        } else {
            let j = i - ta.len();
            let h = j / 4;
            assert(g == ga + h);
            assert(i % 4 == j % 4);
            assert(octet(ab, 3 * g) == octet(b, 3 * h));
            assert(octet(ab, 3 * g + 1) == octet(b, 3 * h + 1));
            assert(octet(ab, 3 * g + 2) == octet(b, 3 * h + 2));
            assert((ta + tb)[i] == tb[j]);
        }
    }
    assert(t =~= ta + tb);
}

/// Different six-bit values have different symbols.
pub proof fn lemma_symbol_injective(u: int, v: int)
    requires
        0 <= u < 64,
        0 <= v < 64,
        symbol(u) == symbol(v),
    ensures
        u == v,
{
}

/// The three bytes of a group can be read back from its four sextets.
proof fn lemma_group_digits(x: u8, y: u8, z: u8)
    by (bit_vector)
    ensures
        x == (((x * 65536 + y * 256 + z) / 262144) % 64) * 4 + (((x * 65536 + y * 256 + z) / 4096)
            % 64) / 16,
        y == ((((x * 65536 + y * 256 + z) / 4096) % 64) % 16) * 16 + (((x * 65536 + y * 256 + z)
            / 64) % 64) / 4,
        z == ((((x * 65536 + y * 256 + z) / 64) % 64) % 4) * 64 + (x * 65536 + y * 256 + z) % 64,
{
}

/// A byte of the data is fixed by the text: two byte strings with the same
/// text agree at every position.
proof fn lemma_text_fixes_byte(a: Seq<u8>, b: Seq<u8>, j: int)
    requires
        a.len() == b.len(),
        base64_text(a) == base64_text(b),
        0 <= j < a.len(),
    ensures
        a[j] == b[j],
{
    let g = j / 3;
    let ta = base64_text(a);
    let tb = base64_text(b);
    assert(4 * g + 3 < ta.len());
    lemma_group_digits(octet(a, 3 * g) as u8, octet(a, 3 * g + 1) as u8, octet(a, 3 * g + 2) as u8);
    lemma_group_digits(octet(b, 3 * g) as u8, octet(b, 3 * g + 1) as u8, octet(b, 3 * g + 2) as u8);
    assert((4 * g) / 4 == g && (4 * g) % 4 == 0);
    assert((4 * g + 1) / 4 == g && (4 * g + 1) % 4 == 1);
    assert((4 * g + 2) / 4 == g && (4 * g + 2) % 4 == 2);
    assert((4 * g + 3) / 4 == g && (4 * g + 3) % 4 == 3);
    lemma_text_fixes_sextet(a, b, 4 * g);
    lemma_text_fixes_sextet(a, b, 4 * g + 1);
    if j >= 3 * g + 1 {
        lemma_text_fixes_sextet(a, b, 4 * g + 2);
    }
    if j == 3 * g + 2 {
        lemma_text_fixes_sextet(a, b, 4 * g + 3);
    }
}

/// Where the text has a symbol, it fixes the six bits behind it.
proof fn lemma_text_fixes_sextet(a: Seq<u8>, b: Seq<u8>, i: int)
    requires
        a.len() == b.len(),
        base64_text(a) == base64_text(b),
        0 <= i < text_len(a.len()),
        3 * (i / 4) + i % 4 <= a.len(),
    ensures
        sextet(a, i) == sextet(b, i),
{
    assert(base64_text(a)[i] == symbol(sextet(a, i)));
    assert(base64_text(b)[i] == symbol(sextet(b, i)));
    lemma_symbol_injective(sextet(a, i), sextet(b, i));
}

/// No two byte strings have the same text.
pub proof fn lemma_text_injective(a: Seq<u8>, b: Seq<u8>)
    requires
        base64_text(a) == base64_text(b),
    ensures
        a == b,
{
    let ta = base64_text(a);
    let tb = base64_text(b);
    assert(ta.len() == tb.len());
    if a.len() < b.len() {
        lemma_padding_tells_length(a, b);
    } else if b.len() < a.len() {
        lemma_padding_tells_length(b, a);
    } else {
        assert forall|j: int| 0 <= j < a.len() implies a[j] == b[j] by {
            lemma_text_fixes_byte(a, b, j);
        }
        assert(a =~= b);
    }
}

/// Of two byte strings of different length whose texts are equally long, the
/// shorter has a `=` where the longer has a symbol.
proof fn lemma_padding_tells_length(a: Seq<u8>, b: Seq<u8>)
    requires
        a.len() < b.len(),
        base64_text(a).len() == base64_text(b).len(),
    ensures
        base64_text(a) != base64_text(b),
{
    let g = (b.len() as int - 1) / 3;
    let k = a.len() as int - 3 * g + 1;
    let i = 4 * g + k;
    assert(1 <= k <= 3);
    assert(i / 4 == g && i % 4 == k);
    assert(base64_text(a)[i] == '=');
    lemma_symbol_ascii(sextet(b, i));
    assert(base64_text(b)[i] == symbol(sextet(b, i)));
}

/// The text of a byte string has that byte string as its source.
pub proof fn lemma_text_source(data: Seq<u8>)
    ensures
        is_text(ascii_bytes(base64_text(data))),
        text_source(ascii_bytes(base64_text(data))) == data,
        decoding(ascii_bytes(base64_text(data))) == Ok::<Seq<u8>, base64::DecodeError>(data),
{
    let input = ascii_bytes(base64_text(data));
    assert(is_text(input));
    let other = text_source(input);
    assert(ascii_bytes(base64_text(other)) == input);
    lemma_text_ascii(data);
    lemma_text_ascii(other);
    let t1 = base64_text(data);
    let t2 = base64_text(other);
    assert(t1.len() == input.len());
    assert(t2.len() == input.len());
    assert forall|i: int| 0 <= i < t1.len() implies t1[i] == t2[i] by {
        assert(ascii_bytes(t1)[i] == ascii_bytes(t2)[i]);
        assert(t1[i] as u8 == t2[i] as u8);
        assert('\0' <= t1[i] <= '\u{7f}');
        assert('\0' <= t2[i] <= '\u{7f}');
    }
    assert(t1 =~= t2);
    lemma_text_injective(other, data);
}

} // verus!
