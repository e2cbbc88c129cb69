//! Standard base64, in which replies carry encoded messages.
use vstd::prelude::*;
use crate::text::{debug_list, debug_strings, plain_text, quote, seq_join, views};

verus! {

/// The base64 digit of `v` (`0 <= v < 64`) in the standard alphabet.
pub open spec fn b64_char(v: int) -> char {
    if v < 26 {
        (('A' as int) + v) as char
    } else if v < 52 {
        (('a' as int) + v - 26) as char
    } else if v < 62 {
        (('0' as int) + v - 52) as char
    } else if v == 62 {
        '+'
    } else {
        '/'
    }
}

/// Standard base64 with padding: each group of three bytes gives four
/// digits, and a last group of one or two bytes is padded with `=`.
pub open spec fn base64_spec(b: Seq<u8>) -> Seq<char>
    decreases b.len(),
{
    if b.len() == 0 {
        Seq::empty()
    } else if b.len() == 1 {
        seq![b64_char((b[0] / 4) as int), b64_char(((b[0] % 4) * 16) as int), '=', '=']
    } else if b.len() == 2 {
        seq![
            b64_char((b[0] / 4) as int),
            b64_char(((b[0] % 4) * 16 + b[1] / 16) as int),
            b64_char(((b[1] % 16) * 4) as int),
            '=',
        ]
    } else {
        seq![
            b64_char((b[0] / 4) as int),
            b64_char(((b[0] % 4) * 16 + b[1] / 16) as int),
            b64_char(((b[1] % 16) * 4 + b[2] / 64) as int),
            b64_char((b[2] % 64) as int),
        ] + base64_spec(b.skip(3))
    }
}

/// `base64::Engine::encode` with the `STANDARD` engine: the standard
/// alphabet, with padding.
#[verifier::external_body]
fn base64_encode(bytes: &[u8]) -> (s: String)
    ensures
        s@ == base64_spec(bytes@),
{
    base64::Engine::encode(&base64::engine::general_purpose::STANDARD, bytes)
}

/// `base64::Engine::decode` with the `STANDARD` engine, which reads only
/// canonical padded text with no trailing bits: the bytes it gives are those
/// whose base64 text is `text`, and every such text is read.
#[verifier::external_body]
fn base64_decode(text: &str) -> (r: Option<Vec<u8>>)
    ensures
        r matches Some(b) ==> base64_spec(b@) == text@,
        (exists|b: Seq<u8>| base64_spec(b) == text@) ==> r is Some,
{
    base64::Engine::decode(&base64::engine::general_purpose::STANDARD, text).ok()
}

/// The bytes that a request carries as base64 text; none where the text is
/// not the base64 text of any bytes.
pub fn request_bytes(value: &str) -> (r: Option<Vec<u8>>)
    ensures
        r matches Some(b) ==> base64_spec(b@) == value@,
        (exists|b: Seq<u8>| base64_spec(b) == value@) ==> r is Some,
{
    base64_decode(value)
}

/// The reply that carries one encoded message: its bytes in base64.
pub fn encoded_reply(encoded: &Vec<u8>) -> (r: String)
    ensures
        r@ == base64_spec(encoded@),
{
    base64_encode(encoded.as_slice())
}

/// The base64 texts of encoded messages.
pub open spec fn base64_texts(encoded: Seq<Vec<u8>>) -> Seq<Seq<char>> {
    encoded.map_values(|b: Vec<u8>| base64_spec(b@))
}

/// The base64 text of each encoded message, in order.
pub fn base64_list(encoded: &Vec<Vec<u8>>) -> (texts: Vec<String>)
    ensures
        views(texts@) == base64_texts(encoded@),
{
    let mut texts: Vec<String> = Vec::new();
    let mut i: usize = 0;
    while i < encoded.len()
        invariant
            i <= encoded@.len(),
            texts@.len() == i,
            views(texts@) == base64_texts(encoded@).take(i as int),
        decreases encoded.len() - i,
    {
        let t = base64_encode(encoded[i].as_slice());
        let ghost prev = texts@;
        texts.push(t);
        assert forall|k: int| 0 <= k < i + 1 implies #[trigger] views(texts@)[k]
            == base64_texts(encoded@).take(i + 1)[k] by {
            if k < i {
                assert(views(prev)[k] == base64_texts(encoded@).take(i as int)[k]);
            }
        }
        assert(views(texts@) =~= base64_texts(encoded@).take(i + 1));
        i = i + 1;
    }
    assert(base64_texts(encoded@).take(i as int) =~= base64_texts(encoded@));
    texts
}

proof fn lemma_b64_char_plain(v: int)
    requires
        0 <= v < 64,
    ensures
        ' ' <= b64_char(v) && b64_char(v) <= '~' && b64_char(v) != '"' && b64_char(v) != '\\',
{
}

/// Base64 text is plain: its digits and `=` are written as they are.
pub proof fn lemma_base64_plain(b: Seq<u8>)
    ensures
        plain_text(base64_spec(b)),
    decreases b.len(),
{
    if b.len() == 1 {
        lemma_b64_char_plain((b[0] / 4) as int);
        lemma_b64_char_plain(((b[0] % 4) * 16) as int);
    } else if b.len() == 2 {
        lemma_b64_char_plain((b[0] / 4) as int);
        lemma_b64_char_plain(((b[0] % 4) * 16 + b[1] / 16) as int);
        lemma_b64_char_plain(((b[1] % 16) * 4) as int);
    } else if b.len() > 2 {
        lemma_b64_char_plain((b[0] / 4) as int);
        lemma_b64_char_plain(((b[0] % 4) * 16 + b[1] / 16) as int);
        lemma_b64_char_plain(((b[1] % 16) * 4 + b[2] / 64) as int);
        lemma_b64_char_plain((b[2] % 64) as int);
        lemma_base64_plain(b.skip(3));
        let head = seq![
            b64_char((b[0] / 4) as int),
            b64_char(((b[0] % 4) * 16 + b[1] / 16) as int),
            b64_char(((b[1] % 16) * 4 + b[2] / 64) as int),
            b64_char((b[2] % 64) as int),
        ];
        let all = base64_spec(b);
        assert(all == head + base64_spec(b.skip(3)));
        assert forall|i: int| 0 <= i < all.len() implies (' ' <= #[trigger] all[i] && all[i] <= '~'
            && all[i] != '"' && all[i] != '\\') by {
            if i >= 4 {
                assert(all[i] == base64_spec(b.skip(3))[i - 4]);
            }
        }
    }
}

/// The base64 texts of encoded messages, each in double quotes, comma
/// separated, in square brackets.
pub open spec fn base64_list_text(encoded: Seq<Vec<u8>>) -> Seq<char> {
    "["@ + seq_join(base64_texts(encoded).map_values(|t: Seq<char>| quote(t)), ", "@) + "]"@
}

/// The reply that carries a list of encoded messages: the debug form of the
/// list of their base64 texts, which is each text in double quotes,
/// comma separated, in square brackets.
pub fn encoded_list_reply(encoded: &Vec<Vec<u8>>) -> (r: String)
    ensures
        r@ == debug_list(base64_texts(encoded@)),
        r@ == base64_list_text(encoded@),
{
    let texts = base64_list(encoded);
    proof {
        assert forall|k: int| 0 <= k < texts@.len() implies plain_text(#[trigger] texts@[k]@) by {
            assert(views(texts@).len() == texts@.len());
            assert(base64_texts(encoded@).len() == encoded@.len());
            assert(views(texts@)[k] == texts@[k]@);
            assert(base64_texts(encoded@)[k] == base64_spec(encoded@[k]@));
            lemma_base64_plain(encoded@[k]@);
        }
    }
    debug_strings(&texts)
}


/// Base64 writes four digits for every three bytes, a last group of one or
/// two bytes included.
pub proof fn law_base64_length(b: Seq<u8>)
    ensures
        base64_spec(b).len() == 4 * ((b.len() + 2) / 3),
    decreases b.len(),
{
    if b.len() > 2 {
        law_base64_length(b.skip(3));
    }
}

}
