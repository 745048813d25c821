//! Text conversions and the JSON directory listing.
use vstd::prelude::*;

verus! {

/// The JSON text (as bytes) of a list of `(id, name)` pairs.
pub uninterp spec fn clients_json(clients: Seq<(u16, Seq<char>)>) -> Seq<u8>;

/// The text that lossy UTF-8 decoding gives for some bytes.
pub uninterp spec fn lossy_text(bytes: Seq<u8>) -> Seq<char>;

/// A text without its leading and trailing whitespace.
pub uninterp spec fn trimmed(s: Seq<char>) -> Seq<char>;

/// The `(id, name)` pairs of a list, with each name as its characters.
pub open spec fn clients_view(clients: Seq<(u16, String)>) -> Seq<(u16, Seq<char>)> {
    clients.map_values(|c: (u16, String)| (c.0, c.1@))
}

/// Relies on `serde_json::to_vec`: the JSON array of `[id, "name"]` pairs.
/// Serialising integers and strings into a `Vec` has no failing case, so the
/// `Result` is always `Ok`.
#[verifier::external_body]
pub(crate) fn clients_to_json(clients: &Vec<(u16, String)>) -> (r: Vec<u8>)
    ensures
        r@ == clients_json(clients_view(clients@)),
{
    serde_json::to_vec(clients).unwrap()
}

/// Relies on `String::from_utf8_lossy`: the bytes read as UTF-8, with each
/// invalid sequence replaced; the result depends on the bytes alone.
#[verifier::external_body]
pub(crate) fn text_from_bytes(bytes: &Vec<u8>) -> (r: String)
    ensures
        r@ == lossy_text(bytes@),
{
    String::from_utf8_lossy(bytes.as_slice()).into_owned()
}

/// Relies on `str::trim`: the text without leading and trailing whitespace.
#[verifier::external_body]
pub(crate) fn trim_text(s: &String) -> (r: String)
    ensures
        r@ == trimmed(s@),
{
    s.trim().to_owned()
}

} // verus!
