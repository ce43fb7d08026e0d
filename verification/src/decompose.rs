//! Decomposing scalars, given as hexadecimal strings, into fixed-size words.
use crate::error::PrecomputeError;
use crate::words::{extract_word_from_bytes_le, word_at};
use vstd::arithmetic::div_mod::lemma_fundamental_div_mod_converse;
use vstd::prelude::*;
use vstd::utf8::encode_utf8;

verus! {

/// The error of `hex::decode`.  Nothing is claimed of what it holds.
#[verifier::external_type_specification]
#[verifier::external_body]
pub struct ExFromHexError(hex::FromHexError);

/// The value of a hexadecimal digit, given as an ASCII byte.
pub open spec fn hex_digit_value(c: u8) -> Option<u8> {
    if 0x30 <= c <= 0x39 {
        Some((c - 0x30) as u8)
    } else if 0x61 <= c <= 0x66 {
        Some((c - 0x61 + 10) as u8)
    } else if 0x41 <= c <= 0x46 {
        Some((c - 0x41 + 10) as u8)
    } else {
        None
    }
}

/// Whether `text` is an even number of hexadecimal digits.
pub open spec fn is_hex(text: Seq<u8>) -> bool {
    &&& text.len() % 2 == 0
    &&& forall|i: int| 0 <= i < text.len() ==> hex_digit_value(#[trigger] text[i]) is Some
}

/// The bytes that the hexadecimal digits of `text` denote, two digits to a
/// byte, the first of them the more significant.
pub open spec fn hex_bytes(text: Seq<u8>) -> Seq<u8> {
    Seq::new(
        text.len() / 2,
        |i: int|
            (16 * hex_digit_value(text[2 * i]).unwrap() + hex_digit_value(
                text[2 * i + 1],
            ).unwrap()) as u8,
    )
}

/// The number of hexadecimal digits of a scalar of `num_words` words of
/// `word_size` bits each, as a whole number of bytes.
pub open spec fn hex_width(num_words: nat, word_size: nat) -> nat {
    2 * ((num_words * word_size + 7) / 8)
}

/// `text` with as many digits `0` before it as it is short of `width`.
pub open spec fn padded(text: Seq<u8>, width: nat) -> Seq<u8> {
    if text.len() < width {
        Seq::new((width - text.len()) as nat, |i: int| 0x30u8) + text
    } else {
        text
    }
}

/// The bytes of the scalar that `text` writes in hexadecimal digits.
pub open spec fn scalar_bytes(text: Seq<u8>, num_words: nat, word_size: nat) -> Seq<u8> {
    hex_bytes(padded(text, hex_width(num_words, word_size)))
}

/// Whether `text`, once padded, is an even number of hexadecimal digits.
pub open spec fn is_well_formed(text: Seq<u8>, num_words: nat, word_size: nat) -> bool {
    is_hex(padded(text, hex_width(num_words, word_size)))
}

/// The bytes of each string.
pub open spec fn texts_of(scalars: Seq<String>) -> Seq<Seq<u8>> {
    Seq::new(scalars.len(), |i: int| encode_utf8(scalars[i]@))
}

/// Entry `t` of the words of a batch: the batch lists, for each word index
/// in turn, that word of each scalar in turn.
pub open spec fn batch_word(texts: Seq<Seq<u8>>, num_words: nat, word_size: nat, t: int) -> u16 {
    word_at(
        scalar_bytes(texts[t % (texts.len() as int)], num_words, word_size),
        (t / (texts.len() as int)) as nat,
        word_size,
    ) as u16
}

/// What `decompose_scalars` returns for the given texts.
pub open spec fn decompose_spec(
    texts: Seq<Seq<u8>>,
    num_words: nat,
    word_size: nat,
) -> core::result::Result<Seq<u16>, PrecomputeError> {
    if exists|i: int|
        0 <= i < texts.len() && !#[trigger] is_well_formed(texts[i], num_words, word_size) {
        Err(PrecomputeError::MalformedInput)
    } else {
        Ok(
            Seq::new(
                texts.len() * num_words,
                |t: int| batch_word(texts, num_words, word_size, t),
            ),
        )
    }
}

/// The words of a batch of scalars.
#[derive(Debug)]
pub struct Result {
    result: Vec<u16>,
}

impl View for Result {
    type V = Seq<u16>;

    closed spec fn view(&self) -> Seq<u16> {
        self.result@
    }
}

impl Result {
    /// The words: for each word index in turn, that word of each scalar in
    /// turn.
    pub fn get_result(&self) -> (words: Vec<u16>)
        ensures
            words@ == self@,
    {
        self.result.clone()
    }
}

/// Makes room for the words of one scalar: returns a vector that holds no
/// word yet and can take `num_words` of them.  The scalar is not read.
pub fn to_words_le(val: &str, num_words: usize, word_size: usize) -> (words: Vec<u16>)
    requires
        2 * num_words <= isize::MAX,
    ensures
        words@ == Seq::<u16>::empty(),
{
    Vec::with_capacity(num_words)
}

/// Calls `hex::decode`.  The call succeeds on an even number of ASCII
/// hexadecimal digits, of either case, and on nothing else; it then
/// returns one byte for each pair of digits, the first digit of the pair
/// being the byte's upper half.
#[verifier::external_body]
fn decode_hex(text: &[u8]) -> (res: core::result::Result<Vec<u8>, hex::FromHexError>)
    ensures
        res is Ok <==> is_hex(text@),
        res matches Ok(bytes) ==> bytes@ == hex_bytes(text@),
{
    hex::decode(text)
}

/// `text` with as many digits `0` before it as it is short of `width`.
fn pad_hex(text: &[u8], width: usize) -> (out: Vec<u8>)
    ensures
        out@ == padded(text@, width as nat),
{
    let mut out: Vec<u8> = Vec::new();
    let mut missing: usize = if text.len() < width {
        width - text.len()
    } else {
        0
    };
    let ghost zeros = missing;
    while missing > 0
        invariant
            missing <= zeros,
            out@ == Seq::new((zeros - missing) as nat, |i: int| 0x30u8),
        decreases missing,
    {
        out.push(0x30);
        missing -= 1;
        assert(out@ =~= Seq::new((zeros - missing) as nat, |i: int| 0x30u8));
    }
    let mut i: usize = 0;
    while i < text.len()
        invariant
            i <= text.len(),
            out@ == Seq::new(zeros as nat, |i: int| 0x30u8) + text@.take(i as int),
        decreases text.len() - i,
    {
        out.push(text[i]);
        i += 1;
        assert(out@ =~= Seq::new(zeros as nat, |i: int| 0x30u8) + text@.take(i as int));
    }
    assert(text@.take(i as int) =~= text@);
    assert(out@ =~= padded(text@, width as nat));
    out
}

/// What a result of `decompose_scalars` stands for.
pub open spec fn words_view(
    res: core::result::Result<Result, PrecomputeError>,
) -> core::result::Result<Seq<u16>, PrecomputeError> {
    match res {
        Ok(words) => Ok(words@),
        Err(e) => Err(e),
    }
}

/// Decomposes each scalar into `num_words` words of `word_size` bits.
///
/// A scalar is given as a string of hexadecimal digits, most significant
/// digit first.  A string of fewer digits than `num_words` words take, in
/// whole bytes, has digits `0` put before it.  The result lists, for each
/// word index in turn, that word of each scalar in turn.  It fails with
/// `MalformedInput` when a string, once padded, is not an even number of
/// hexadecimal digits.
pub fn decompose_scalars(scalars: &Vec<String>, num_words: usize, word_size: usize) -> (res:
    core::result::Result<Result, PrecomputeError>)
    requires
        word_size <= 16,
        num_words * word_size + 7 <= usize::MAX,
        scalars.len() * num_words <= usize::MAX,
    ensures
        words_view(res) == decompose_spec(texts_of(scalars@), num_words as nat, word_size as nat),
{
    let ghost texts = texts_of(scalars@);
    let ghost w = num_words as nat;
    let ghost s = word_size as nat;
    let count = scalars.len();
    let width = (num_words * word_size + 7) / 8 * 2;
    let mut decoded: Vec<Vec<u8>> = Vec::new();
    let mut i: usize = 0;
    while i < count
        invariant
            i <= count,
            count == scalars.len(),
            texts == texts_of(scalars@),
            w == num_words,
            s == word_size,
            width == hex_width(w, s),
            decoded@.len() == i,
            forall|k: int| 0 <= k < i ==> is_well_formed(#[trigger] texts[k], w, s),
            forall|k: int| 0 <= k < i ==> (#[trigger] decoded@[k])@ == scalar_bytes(texts[k], w, s),
        decreases count - i,
    {
        let text = scalars[i].as_str().as_bytes();
        assert(text@ == texts[i as int]);
        let digits = pad_hex(text, width);
        match decode_hex(digits.as_slice()) {
            Ok(bytes) => {
                decoded.push(bytes);
            },
            Err(_) => {
                assert(!is_well_formed(texts[i as int], w, s));
                return Err(PrecomputeError::MalformedInput);
            },
        }
        i += 1;
    }
    let mut result: Vec<u16> = Vec::new();
    let mut j: usize = 0;
    while j < num_words
        invariant
            j <= num_words,
            count == texts.len(),
            w == num_words,
            s == word_size,
            s <= 16,
            count * num_words <= usize::MAX,
            num_words * word_size <= usize::MAX,
            decoded@.len() == count,
            forall|k: int|
                0 <= k < count ==> (#[trigger] decoded@[k])@ == scalar_bytes(texts[k], w, s),
            result@.len() == j * count,
            forall|t: int|
                0 <= t < result@.len() ==> (#[trigger] result@[t]) == batch_word(texts, w, s, t),
        decreases num_words - j,
    {
        let mut i: usize = 0;
        while i < count
            invariant
                i <= count,
                j < num_words,
                count == texts.len(),
                w == num_words,
                s == word_size,
                s <= 16,
                count * num_words <= usize::MAX,
                num_words * word_size <= usize::MAX,
                decoded@.len() == count,
                forall|k: int|
                    0 <= k < count ==> (#[trigger] decoded@[k])@ == scalar_bytes(texts[k], w, s),
                result@.len() == j * count + i,
                forall|t: int|
                    0 <= t < result@.len() ==> (#[trigger] result@[t]) == batch_word(
                        texts,
                        w,
                        s,
                        t,
                    ),
            decreases count - i,
        {
            proof {
                assert(j * word_size <= num_words * word_size) by (nonlinear_arith)
                    requires
                        j < num_words,
                ;
                assert(j * count + i < count * num_words) by (nonlinear_arith)
                    requires
                        j < num_words,
                        i < count,
                ;
                lemma_fundamental_div_mod_converse(
                    j * count + i,
                    count as int,
                    j as int,
                    i as int,
                );
            }
            let word = extract_word_from_bytes_le(&decoded[i], j, word_size);
            result.push(word);
            i += 1;
        }
        j += 1;
        assert(result@.len() == j * count) by (nonlinear_arith)
            requires
                result@.len() == (j - 1) * count + count,
        ;
    }
    assert(result@ =~= Seq::new(texts.len() * w, |t: int| batch_word(texts, w, s, t))) by {
        assert(num_words * count == count * num_words) by (nonlinear_arith);
    }
    Ok(Result { result })
}

} // verus!
