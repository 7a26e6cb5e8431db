//! The requests a client sends to a tuple-space server, and what it makes of the replies.
//!
//! Every request starts with an operation code (`i32`). Operations on one tuple send it
//! after the code; dump and count send a number of templates and then each template; replace
//! sends the tuple to replace and its replacement.
use vstd::prelude::*;
use vstd::utf8::{decode_utf8, valid_utf8};
use crate::wire::{i32_le, i32_at, ti, ciot, lemma_i32_le_roundtrip, lemma_i32_at_same_bytes};
use crate::tuple::{
    E, Elem, DecodeError, decode_spec, encode_spec, strings_fit, encode_tuple, append_bytes,
    string_from_utf8,
};
use crate::roundtrip::{sendable, lemma_decode_encode};
use crate::frame::{dump_spec, dump_body, lemma_dump_body_split};

verus! {

/// Store a tuple.
pub const PUT: i32 = 0;

/// Take a tuple that matches a template, waiting for one.
pub const GET: i32 = 1;

/// Copy a tuple that matches a template, waiting for one.
pub const READ: i32 = 2;

/// Take a tuple that matches a template, or get an empty answer.
pub const GET_NB: i32 = 3;

/// Copy a tuple that matches a template, or get an empty answer.
pub const READ_NB: i32 = 4;

/// Copy every tuple that matches one of the templates.
pub const DUMP: i32 = 5;

/// Count the tuples that match one of the templates.
pub const COUNT: i32 = 6;

/// Fetch the server's log.
pub const LOG: i32 = 7;

/// Replace a tuple that matches a template by another.
pub const REPLACE: i32 = 8;

/// A connection to a tuple-space server, by its address (`host:port`).
pub struct LinuxTuplesConnection {
    pub connection: String,
}

/// A reply that the server gives when an operation did not take place.
#[derive(Clone, Copy, PartialEq, Eq, Structural, Debug)]
pub enum ClientError {
    /// The server did not confirm a replace.
    ReplaceFailed,
}

/// The bytes of a request that carries one tuple.
pub open spec fn tuple_request_spec(op: i32, t: Seq<Elem>) -> Seq<u8> {
    i32_le(op) + encode_spec(t)
}

/// Every tuple of `ts` can be sent.
pub open spec fn all_strings_fit(ts: Seq<Seq<Elem>>) -> bool {
    forall|i: int| 0 <= i < ts.len() ==> strings_fit(#[trigger] ts[i])
}

/// The bytes of an operation code followed by `tuple`.
fn tuple_request(op: i32, tuple: &Vec<E>) -> (out: Vec<u8>)
    requires
        strings_fit(tuple.deep_view()),
    ensures
        out@ == tuple_request_spec(op, tuple.deep_view()),
{
    let mut out: Vec<u8> = Vec::new();
    append_bytes(&mut out, &ti(op));
    let mut body = encode_tuple(tuple);
    out.append(&mut body);
    out
}

/// The bytes of an operation code, the number of templates, and each template.
fn templates_request(op: i32, tuples: &Vec<Vec<E>>) -> (out: Vec<u8>)
    requires
        all_strings_fit(tuples.deep_view()),
    ensures
        out@ == i32_le(op) + dump_spec(tuples.deep_view()),
{
    let ghost ts = tuples.deep_view();
    let mut out: Vec<u8> = Vec::new();
    append_bytes(&mut out, &ti(op));
    append_bytes(&mut out, &ti(tuples.len() as i32));
    let mut i: usize = 0;
    while i < tuples.len()
        invariant
            i <= tuples@.len(),
            ts == tuples.deep_view(),
            all_strings_fit(ts),
            out@ == i32_le(op) + i32_le(ts.len() as i32) + dump_body(ts, i as int),
        decreases tuples@.len() - i,
    {
        assert(strings_fit(ts[i as int]));
        let mut body = encode_tuple(&tuples[i]);
        out.append(&mut body);
        i += 1;
        assert(out@ =~= i32_le(op) + i32_le(ts.len() as i32) + dump_body(ts, i as int));
    }
    assert(out@ =~= i32_le(op) + dump_spec(ts));
    out
}

impl LinuxTuplesConnection {
    /// The request that stores `tuple`.
    pub fn put_tuple_request(&self, tuple: &Vec<E>) -> (req: Vec<u8>)
        requires
            strings_fit(tuple.deep_view()),
        ensures
            req@ == tuple_request_spec(PUT, tuple.deep_view()),
            i32_at(req@, 0) == PUT,
            req@.subrange(4, req@.len() as int) == encode_spec(tuple.deep_view()),
    {
        let req = tuple_request(PUT, tuple);
        proof {
            lemma_tuple_request(PUT, tuple.deep_view());
        }
        req
    }

    /// The request that takes a tuple matching `tuple`, waiting for one.
    pub fn get_tuple_request(&self, tuple: &Vec<E>) -> (req: Vec<u8>)
        requires
            strings_fit(tuple.deep_view()),
        ensures
            req@ == tuple_request_spec(GET, tuple.deep_view()),
            i32_at(req@, 0) == GET,
            req@.subrange(4, req@.len() as int) == encode_spec(tuple.deep_view()),
    {
        let req = tuple_request(GET, tuple);
        proof {
            lemma_tuple_request(GET, tuple.deep_view());
        }
        req
    }

    /// The request that copies a tuple matching `tuple`, waiting for one.
    pub fn read_tuple_request(&self, tuple: &Vec<E>) -> (req: Vec<u8>)
        requires
            strings_fit(tuple.deep_view()),
        ensures
            req@ == tuple_request_spec(READ, tuple.deep_view()),
            i32_at(req@, 0) == READ,
            req@.subrange(4, req@.len() as int) == encode_spec(tuple.deep_view()),
    {
        let req = tuple_request(READ, tuple);
        proof {
            lemma_tuple_request(READ, tuple.deep_view());
        }
        req
    }

    /// The request that takes a tuple matching `tuple` if there is one.
    pub fn get_nb_tuple_request(&self, tuple: &Vec<E>) -> (req: Vec<u8>)
        requires
            strings_fit(tuple.deep_view()),
        ensures
            req@ == tuple_request_spec(GET_NB, tuple.deep_view()),
            i32_at(req@, 0) == GET_NB,
            req@.subrange(4, req@.len() as int) == encode_spec(tuple.deep_view()),
    {
        let req = tuple_request(GET_NB, tuple);
        proof {
            lemma_tuple_request(GET_NB, tuple.deep_view());
        }
        req
    }

    /// The request that copies a tuple matching `tuple` if there is one.
    pub fn read_nb_tuple_request(&self, tuple: &Vec<E>) -> (req: Vec<u8>)
        requires
            strings_fit(tuple.deep_view()),
        ensures
            req@ == tuple_request_spec(READ_NB, tuple.deep_view()),
            i32_at(req@, 0) == READ_NB,
            req@.subrange(4, req@.len() as int) == encode_spec(tuple.deep_view()),
    {
        let req = tuple_request(READ_NB, tuple);
        proof {
            lemma_tuple_request(READ_NB, tuple.deep_view());
        }
        req
    }

    /// The request that copies every tuple matching one of `tuples`.
    pub fn read_all_tuples_request(&self, tuples: &Vec<Vec<E>>) -> (req: Vec<u8>)
        requires
            all_strings_fit(tuples.deep_view()),
        ensures
            req@ == i32_le(DUMP) + dump_spec(tuples.deep_view()),
            i32_at(req@, 0) == DUMP,
            i32_at(req@, 4) == tuples@.len() as i32,
            template_start(tuples.deep_view(), tuples@.len() as int) == req@.len(),
            forall|k: int|
                0 <= k < tuples@.len() ==> req@.subrange(
                    template_start(tuples.deep_view(), k),
                    template_start(tuples.deep_view(), k) + encode_spec(
                        #[trigger] tuples.deep_view()[k],
                    ).len(),
                ) == encode_spec(tuples.deep_view()[k]),
    {
        let req = templates_request(DUMP, tuples);
        proof {
            lemma_templates_request(DUMP, tuples.deep_view());
        }
        req
    }

    /// The request that counts the tuples matching one of `tuples`.
    pub fn number_of_tuples_request(&self, tuples: &Vec<Vec<E>>) -> (req: Vec<u8>)
        requires
            all_strings_fit(tuples.deep_view()),
        ensures
            req@ == i32_le(COUNT) + dump_spec(tuples.deep_view()),
            i32_at(req@, 0) == COUNT,
            i32_at(req@, 4) == tuples@.len() as i32,
            template_start(tuples.deep_view(), tuples@.len() as int) == req@.len(),
            forall|k: int|
                0 <= k < tuples@.len() ==> req@.subrange(
                    template_start(tuples.deep_view(), k),
                    template_start(tuples.deep_view(), k) + encode_spec(
                        #[trigger] tuples.deep_view()[k],
                    ).len(),
                ) == encode_spec(tuples.deep_view()[k]),
    {
        let req = templates_request(COUNT, tuples);
        proof {
            lemma_templates_request(COUNT, tuples.deep_view());
        }
        req
    }

    /// The request that replaces a tuple matching `tuple` by `replacement`.
    pub fn replace_tuple_request(&self, tuple: &Vec<E>, replacement: &Vec<E>) -> (req: Vec<u8>)
        requires
            strings_fit(tuple.deep_view()),
            strings_fit(replacement.deep_view()),
        ensures
            req@ == tuple_request_spec(REPLACE, tuple.deep_view()) + encode_spec(
                replacement.deep_view(),
            ),
            req@ == i32_le(REPLACE) + encode_spec(tuple.deep_view()) + encode_spec(
                replacement.deep_view(),
            ),
            i32_at(req@, 0) == REPLACE,
    {
        let mut out = tuple_request(REPLACE, tuple);
        let mut body = encode_tuple(replacement);
        out.append(&mut body);
        proof {
            lemma_tuple_request(REPLACE, tuple.deep_view());
            lemma_i32_le_roundtrip(REPLACE);
            assert(out@.subrange(0, 4) =~= i32_le(REPLACE).subrange(0, 4));
            lemma_i32_at_same_bytes(out@, 0, i32_le(REPLACE), 0);
        }
        out
    }

    /// The request that fetches the server's log.
    pub fn server_log_request(&self) -> (req: Vec<u8>)
        ensures
            req@ == i32_le(LOG),
    {
        let mut out: Vec<u8> = Vec::new();
        append_bytes(&mut out, &ti(LOG));
        assert(out@ =~= i32_le(LOG));
        out
    }

    /// The number of tuples that the server counted, from its four-byte reply.
    pub fn number_of_tuples_reply(&self, reply: &[u8; 4]) -> (count: i32)
        ensures
            count == i32_at(reply@, 0),
    {
        ciot(reply, 0)
    }

    /// The outcome of a replace: the server confirms it by sending back the replace code.
    pub fn replace_tuple_reply(&self, reply: &[u8; 4]) -> (r: Result<bool, ClientError>)
        ensures
            r == if i32_at(reply@, 0) == REPLACE {
                Ok::<bool, ClientError>(true)
            } else {
                Err::<bool, ClientError>(ClientError::ReplaceFailed)
            },
    {
        let op: i32 = ciot(reply, 0);
        if op != REPLACE {
            Err(ClientError::ReplaceFailed)
        } else {
            Ok(true)
        }
    }

    /// The server's log, from all the bytes it sent: the text they spell where they are
    /// UTF-8, and the empty string where they are not.
    pub fn server_log(&self, reply: Vec<u8>) -> (log: String)
        ensures
            log@ == if valid_utf8(reply@) {
                decode_utf8(reply@)
            } else {
                Seq::<char>::empty()
            },
    {
        match string_from_utf8(reply) {
            Some(s) => s,
            None => String::new(),
        }
    }
}

/// Law: a request that carries one tuple is its operation code, then exactly the message of
/// that tuple; for a tuple that can be read back, a receiver that skips the code reads back
/// that very tuple and nothing more.
pub proof fn lemma_tuple_request(op: i32, t: Seq<Elem>)
    ensures
        tuple_request_spec(op, t).len() == 4 + encode_spec(t).len(),
        i32_at(tuple_request_spec(op, t), 0) == op,
        tuple_request_spec(op, t).subrange(4, tuple_request_spec(op, t).len() as int)
            == encode_spec(t),
        sendable(t) ==> decode_spec(
            tuple_request_spec(op, t).subrange(4, tuple_request_spec(op, t).len() as int),
        ) == Ok::<(Seq<Elem>, int), DecodeError>((t, encode_spec(t).len() as int)),
{
    let r = tuple_request_spec(op, t);
    lemma_i32_le_roundtrip(op);
    assert(r.subrange(0, 4) =~= i32_le(op).subrange(0, 4));
    lemma_i32_at_same_bytes(r, 0, i32_le(op), 0);
    assert(r.subrange(4, r.len() as int) =~= encode_spec(t));
    if sendable(t) {
        lemma_decode_encode(t, seq![]);
        assert(encode_spec(t) + seq![] =~= encode_spec(t));
    }
}

/// Where the message of template `k` starts in a request that carries templates.
pub open spec fn template_start(ts: Seq<Seq<Elem>>, k: int) -> int {
    8 + dump_body(ts, k).len() as int
}

/// Law: a request that carries templates is its operation code, the number of templates,
/// then the message of each template in order, back to back, up to the end; every template
/// is sent as it is, wildcards included.
pub proof fn lemma_templates_request(op: i32, ts: Seq<Seq<Elem>>)
    ensures
        i32_at(i32_le(op) + dump_spec(ts), 0) == op,
        i32_at(i32_le(op) + dump_spec(ts), 4) == ts.len() as i32,
        template_start(ts, 0) == 8,
        template_start(ts, ts.len() as int) == (i32_le(op) + dump_spec(ts)).len(),
        forall|k: int|
            0 <= k < ts.len() ==> template_start(ts, k + 1) == template_start(ts, k)
                + encode_spec(#[trigger] ts[k]).len(),
        forall|k: int|
            0 <= k < ts.len() ==> (i32_le(op) + dump_spec(ts)).subrange(
                template_start(ts, k),
                template_start(ts, k) + encode_spec(#[trigger] ts[k]).len(),
            ) == encode_spec(ts[k]),
{
    let n = ts.len() as int;
    let r = i32_le(op) + dump_spec(ts);
    lemma_i32_le_roundtrip(op);
    lemma_i32_le_roundtrip(n as i32);
    assert(r.subrange(0, 4) =~= i32_le(op).subrange(0, 4));
    assert(r.subrange(4, 8) =~= i32_le(n as i32).subrange(0, 4));
    lemma_i32_at_same_bytes(r, 0, i32_le(op), 0);
    lemma_i32_at_same_bytes(r, 4, i32_le(n as i32), 0);
    let whole = dump_body(ts, n);
    assert forall|k: int| 0 <= k < ts.len() implies template_start(ts, k + 1) == template_start(
        ts,
        k,
    ) + encode_spec(#[trigger] ts[k]).len() && r.subrange(
        template_start(ts, k),
        template_start(ts, k) + encode_spec(ts[k]).len(),
    ) == encode_spec(ts[k]) by {
        lemma_dump_body_split(ts, k + 1);
        assert(dump_body(ts, k + 1) == dump_body(ts, k) + encode_spec(ts[k]));
        let a = template_start(ts, k);
        let b = a + encode_spec(ts[k]).len();
        assert(r =~= (i32_le(op) + i32_le(n as i32)) + whole);
        assert(r.subrange(a, b) =~= dump_body(ts, k + 1).subrange(
            dump_body(ts, k).len() as int,
            dump_body(ts, k + 1).len() as int,
        ));
    }
}

} // verus!
