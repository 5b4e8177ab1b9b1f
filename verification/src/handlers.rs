//! The three operations: fetch a transcript as data, store one, fetch one
//! as a page.
//!
//! Each handler takes the identifier as the routing collaborator hands it
//! over. A missing or empty identifier is rejected; an identifier never
//! written is not found; a stored value that no longer decodes is a server
//! error. The decision functions ([`data_reply`], [`page_reply`],
//! [`store_payload`], [`usable_id`]) work from plain values, so a platform
//! layer that owns the real key-value adapter can call them around its own
//! get and put; the handlers compose the same decisions with the in-memory
//! [`KvStore`].

use vstd::prelude::*;

use crate::codec::{decode_transcript, encode_transcript, spec_decode, spec_encode};
use crate::message::MessageView;
use crate::render::{render_page, spec_page};
use crate::store::KvStore;

verus! {

/// What a handler answers: a success payload, or the error class the
/// routing collaborator turns into a status code.
#[derive(Debug)]
pub enum Reply {
    /// Success with a JSON body.
    Data(String),
    /// Success with an HTML body.
    Page(String),
    /// Success with an empty body: a completed store.
    Stored,
    /// A missing or empty identifier, or a malformed write body.
    BadRequest,
    /// No transcript under the identifier.
    NotFound,
    /// A stored value that no longer decodes, or a failing adapter.
    ServerError,
}

/// The identifier as the router hands it over, as a value.
pub open spec fn id_view(id: Option<&String>) -> Option<Seq<char>> {
    match id {
        None => None,
        Some(s) => Some(s@),
    }
}

/// A usable identifier: present and non-empty.
pub open spec fn valid_id(id: Option<Seq<char>>) -> bool {
    match id {
        None => false,
        Some(s) => s.len() > 0,
    }
}

/// Whether the identifier is usable: present and non-empty.
pub fn usable_id(id: Option<&String>) -> (r: bool)
    ensures
        r == valid_id(id_view(id)),
{
    match id {
        None => false,
        Some(s) => !s.as_str().is_empty(),
    }
}

/// The outcome of one read of the key-value adapter, as the platform
/// reports it.
pub enum Lookup {
    /// The key is present, with the stored text.
    Found(String),
    /// The key is absent.
    Absent,
    /// The adapter itself failed.
    Failed,
}

/// Decides the fetch-as-data reply from the adapter's answer alone: a found
/// value is decoded and served back as canonical JSON; an absent key is not
/// found; a value that does not decode, or a failed read, is a server error.
pub fn data_reply(lookup: Lookup) -> (r: Reply)
    ensures
        match lookup {
            Lookup::Found(v) => match spec_decode(v@) {
                Some(ms) => r matches Reply::Data(body) && body@ == spec_encode(ms),
                None => r == Reply::ServerError,
            },
            Lookup::Absent => r == Reply::NotFound,
            Lookup::Failed => r == Reply::ServerError,
        },
{
    match lookup {
        Lookup::Found(v) => match decode_transcript(v.as_str()) {
            Some(msgs) => Reply::Data(encode_transcript(&msgs)),
            None => Reply::ServerError,
        },
        Lookup::Absent => Reply::NotFound,
        Lookup::Failed => Reply::ServerError,
    }
}

/// Decides the fetch-as-page reply from the adapter's answer alone: a found
/// value is decoded and rendered as the HTML page; the error cases are
/// those of [`data_reply`].
pub fn page_reply(lookup: Lookup) -> (r: Reply)
    ensures
        match lookup {
            Lookup::Found(v) => match spec_decode(v@) {
                Some(ms) => r matches Reply::Page(body) && body@ == spec_page(ms),
                None => r == Reply::ServerError,
            },
            Lookup::Absent => r == Reply::NotFound,
            Lookup::Failed => r == Reply::ServerError,
        },
{
    match lookup {
        Lookup::Found(v) => match decode_transcript(v.as_str()) {
            Some(msgs) => Reply::Page(render_page(&msgs)),
            None => Reply::ServerError,
        },
        Lookup::Absent => Reply::NotFound,
        Lookup::Failed => Reply::ServerError,
    }
}

/// Decides a store: the canonical text to write for `body`, or nothing when
/// the body is not a JSON transcript.
pub fn store_payload(body: &str) -> (r: Option<String>)
    ensures
        match r {
            Some(v) => spec_decode(body@) matches Some(ms) && v@ == spec_encode(ms),
            None => spec_decode(body@) is None,
        },
{
    match decode_transcript(body) {
        Some(msgs) => Some(encode_transcript(&msgs)),
        None => None,
    }
}

/// Serves a transcript as JSON data.
pub fn fetch_as_data(kv: &KvStore, id: Option<&String>) -> (r: Reply)
    ensures
        match id_view(id) {
            None => r == Reply::BadRequest,
            Some(s) => {
                if s.len() == 0 {
                    r == Reply::BadRequest
                } else if !kv@.contains_key(s) {
                    r == Reply::NotFound
                } else {
                    match spec_decode(kv@[s]) {
                        Some(ms) => r matches Reply::Data(body) && body@ == spec_encode(ms),
                        None => r == Reply::ServerError,
                    }
                }
            },
        },
{
    if !usable_id(id) {
        return Reply::BadRequest;
    }
    match id {
        None => Reply::BadRequest,
        Some(s) => match kv.get(s) {
            None => data_reply(Lookup::Absent),
            Some(v) => data_reply(Lookup::Found(v)),
        },
    }
}

/// Serves a transcript as a rendered HTML page.
pub fn fetch_as_page(kv: &KvStore, id: Option<&String>) -> (r: Reply)
    ensures
        match id_view(id) {
            None => r == Reply::BadRequest,
            Some(s) => {
                if s.len() == 0 {
                    r == Reply::BadRequest
                } else if !kv@.contains_key(s) {
                    r == Reply::NotFound
                } else {
                    match spec_decode(kv@[s]) {
                        Some(ms) => r matches Reply::Page(body) && body@ == spec_page(ms),
                        None => r == Reply::ServerError,
                    }
                }
            },
        },
{
    if !usable_id(id) {
        return Reply::BadRequest;
    }
    match id {
        None => Reply::BadRequest,
        Some(s) => match kv.get(s) {
            None => page_reply(Lookup::Absent),
            Some(v) => page_reply(Lookup::Found(v)),
        },
    }
}

/// Stores a transcript under an identifier: the body is parsed, and on
/// success its canonical form replaces whatever was stored before; on any
/// rejection the store is left unchanged.
pub fn store_transcript(kv: &mut KvStore, id: Option<&String>, body: &str) -> (r: Reply)
    ensures
        match id_view(id) {
            None => r == Reply::BadRequest && final(kv)@ == old(kv)@,
            Some(s) => {
                if s.len() == 0 {
                    r == Reply::BadRequest && final(kv)@ == old(kv)@
                } else {
                    match spec_decode(body@) {
                        Some(ms) => r == Reply::Stored && final(kv)@ == old(kv)@.insert(
                            s,
                            spec_encode(ms),
                        ),
                        None => r == Reply::BadRequest && final(kv)@ == old(kv)@,
                    }
                }
            },
        },
{
    if !usable_id(id) {
        return Reply::BadRequest;
    }
    match id {
        None => Reply::BadRequest,
        Some(s) => match store_payload(body) {
            None => Reply::BadRequest,
            Some(encoded) => {
                kv.put(s, encoded);
                Reply::Stored
            },
        },
    }
}

/// Law (round trip): after a store of transcript `ms` under `id` succeeds,
/// the stored value is present and decodes back to exactly `ms`, in order,
/// whatever was stored before — so a fetch right after the store finds it
/// and serves its canonical JSON.
pub proof fn lemma_store_then_fetch(
    kv0: Map<Seq<char>, Seq<char>>,
    id: Seq<char>,
    ms: Seq<MessageView>,
)
    ensures
        kv0.insert(id, spec_encode(ms)).contains_key(id),
        spec_decode(kv0.insert(id, spec_encode(ms))[id]) == Some(ms),
{
    crate::codec::lemma_decode_encode(ms);
}

/// Law (fresh identifiers): an identifier never written is absent from an
/// empty store, and stays absent under writes to other identifiers — a
/// fetch of it is not found.
pub proof fn lemma_unwritten_is_absent(
    kv0: Map<Seq<char>, Seq<char>>,
    id: Seq<char>,
    other: Seq<char>,
    value: Seq<char>,
)
    requires
        other != id,
    ensures
        !Map::<Seq<char>, Seq<char>>::empty().contains_key(id),
        kv0.insert(other, value).contains_key(id) == kv0.contains_key(id),
{
}

} // verus!
