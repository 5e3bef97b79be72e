//! The per-request context: parsed request data, the response under
//! construction, and the serialization of a response onto the wire.
//! A handler or middleware is any `Callable`; setting a response flips
//! `has_response`, which the middleware runner and dispatcher test to
//! short-circuit the chain.

use crate::bytes::{dec_of, pair_views, push_all, push_dec, to_vec_bytes};
use vstd::prelude::*;

verus! {

/// The value under `key` in an insertion-ordered list of pairs where a
/// later entry wins over an earlier one with the same key.
pub open spec fn lookup_last(s: Seq<(Seq<u8>, Seq<u8>)>, key: Seq<u8>) -> Option<Seq<u8>>
    decreases s.len(),
{
    if s.len() == 0 {
        None
    } else if s.last().0 == key {
        Some(s.last().1)
    } else {
        lookup_last(s.drop_last(), key)
    }
}

/// The request/response context a connection owns for its lifetime.
pub struct RumContext {
    pub query_params: Vec<(Vec<u8>, Vec<u8>)>,
    pub request_headers: Vec<(Vec<u8>, Vec<u8>)>,
    pub form_params: Vec<(Vec<u8>, Vec<u8>)>,
    pub url_params: Vec<(Vec<u8>, Vec<u8>)>,
    pub request_body: Vec<u8>,
    pub response_set: bool,
    pub response_status: u16,
    pub response_headers: Vec<(Vec<u8>, Vec<u8>)>,
    pub response_body: Vec<u8>,
}

/// A handler or middleware: one operation, invoked on the shared context.
/// What it does to the context is its own business; the dispatch pipeline
/// promises nothing about it and only observes `has_response` afterwards.
pub trait Callable {
    fn invoke(&self, ctx: &mut RumContext);
}

impl RumContext {
    /// A fresh context: nothing parsed, no response.
    pub fn new() -> (r: RumContext)
        ensures
            r.query_params@.len() == 0,
            r.request_headers@.len() == 0,
            r.form_params@.len() == 0,
            r.url_params@.len() == 0,
            r.request_body@.len() == 0,
            !r.response_set,
            r.response_status == 200u16,
            r.response_headers@.len() == 0,
            r.response_body@.len() == 0,
    {
        RumContext {
            query_params: Vec::new(),
            request_headers: Vec::new(),
            form_params: Vec::new(),
            url_params: Vec::new(),
            request_body: Vec::new(),
            response_set: false,
            response_status: 200,
            response_headers: Vec::new(),
            response_body: Vec::new(),
        }
    }

    /// Records a query parameter; a later entry with the same key wins.
    pub fn set_query_params(&mut self, key: &[u8], val: &[u8])
        ensures
            *final(self) == (RumContext {
                query_params: final(self).query_params,
                ..*old(self)
            }),
            pair_views(final(self).query_params@) == pair_views(old(self).query_params@).push(
                (key@, val@),
            ),
    {
        self.query_params.push((to_vec_bytes(key), to_vec_bytes(val)));
        proof {
            crate::bytes::lemma_pair_views_push(
                old(self).query_params@,
                self.query_params@.last(),
            );
        }
    }

    /// Records a request header.
    pub fn set_request_header(&mut self, key: &[u8], val: &[u8])
        ensures
            *final(self) == (RumContext {
                request_headers: final(self).request_headers,
                ..*old(self)
            }),
            pair_views(final(self).request_headers@) == pair_views(
                old(self).request_headers@,
            ).push((key@, val@)),
    {
        self.request_headers.push((to_vec_bytes(key), to_vec_bytes(val)));
        proof {
            crate::bytes::lemma_pair_views_push(
                old(self).request_headers@,
                self.request_headers@.last(),
            );
        }
    }

    /// Records a decoded form parameter.
    pub fn set_form_params(&mut self, key: &[u8], val: &[u8])
        ensures
            *final(self) == (RumContext {
                form_params: final(self).form_params,
                ..*old(self)
            }),
            pair_views(final(self).form_params@) == pair_views(old(self).form_params@).push(
                (key@, val@),
            ),
    {
        self.form_params.push((to_vec_bytes(key), to_vec_bytes(val)));
        proof {
            crate::bytes::lemma_pair_views_push(old(self).form_params@, self.form_params@.last());
        }
    }

    /// Binds a path parameter to the literal segment it matched.
    pub fn set_url_params(&mut self, key: &[u8], val: &[u8])
        ensures
            *final(self) == (RumContext {
                url_params: final(self).url_params,
                ..*old(self)
            }),
            pair_views(final(self).url_params@) == pair_views(old(self).url_params@).push(
                (key@, val@),
            ),
    {
        self.url_params.push((to_vec_bytes(key), to_vec_bytes(val)));
        proof {
            crate::bytes::lemma_pair_views_push(old(self).url_params@, self.url_params@.last());
        }
    }

    /// Stores the (possibly re-encoded) request body.
    pub fn set_request_body(&mut self, body: Vec<u8>)
        ensures
            *final(self) == (RumContext { request_body: body, ..*old(self) }),
    {
        self.request_body = body;
    }

    /// The last-won value of a request header, exactly as recorded.
    pub fn get_request_header(&self, key: &[u8]) -> (r: Option<Vec<u8>>)
        ensures
            match r {
                Some(v) => lookup_last(pair_views(self.request_headers@), key@) == Some(v@),
                None => lookup_last(pair_views(self.request_headers@), key@) is None,
            },
    {
        lookup_pairs(&self.request_headers, key)
    }

    /// The value a path parameter was bound to.
    pub fn get_url_param(&self, key: &[u8]) -> (r: Option<Vec<u8>>)
        ensures
            match r {
                Some(v) => lookup_last(pair_views(self.url_params@), key@) == Some(v@),
                None => lookup_last(pair_views(self.url_params@), key@) is None,
            },
    {
        lookup_pairs(&self.url_params, key)
    }

    /// The last-won value of a query parameter.
    pub fn get_query_param(&self, key: &[u8]) -> (r: Option<Vec<u8>>)
        ensures
            match r {
                Some(v) => lookup_last(pair_views(self.query_params@), key@) == Some(v@),
                None => lookup_last(pair_views(self.query_params@), key@) is None,
            },
    {
        lookup_pairs(&self.query_params, key)
    }

    /// The last-won value of a form parameter.
    pub fn get_form_param(&self, key: &[u8]) -> (r: Option<Vec<u8>>)
        ensures
            match r {
                Some(v) => lookup_last(pair_views(self.form_params@), key@) == Some(v@),
                None => lookup_last(pair_views(self.form_params@), key@) is None,
            },
    {
        lookup_pairs(&self.form_params, key)
    }

    /// True once some middleware or handler has produced a response.
    pub fn has_response(&self) -> (r: bool)
        ensures
            r == self.response_set,
    {
        self.response_set
    }

    /// Sets the response, marking the chain as short-circuited from here.
    pub fn set_response(&mut self, status: u16, body: &[u8])
        ensures
            *final(self) == (RumContext {
                response_set: true,
                response_status: status,
                response_body: final(self).response_body,
                ..*old(self)
            }),
            final(self).response_body@ == body@,
    {
        self.response_set = true;
        self.response_status = status;
        self.response_body = to_vec_bytes(body);
    }

    /// Adds a response header.
    pub fn set_response_header(&mut self, key: &[u8], val: &[u8])
        ensures
            *final(self) == (RumContext {
                response_headers: final(self).response_headers,
                ..*old(self)
            }),
            pair_views(final(self).response_headers@) == pair_views(
                old(self).response_headers@,
            ).push((key@, val@)),
    {
        self.response_headers.push((to_vec_bytes(key), to_vec_bytes(val)));
        proof {
            crate::bytes::lemma_pair_views_push(
                old(self).response_headers@,
                self.response_headers@.last(),
            );
        }
    }

    /// Serializes the response as it stands (status 200 with an empty body
    /// when nothing was set), and returns it with its status code.
    pub fn get_response(&self, ver: &[u8]) -> (r: (Vec<u8>, u16))
        ensures
            r.0@ == render_response_spec(
                ver@,
                self.response_status,
                pair_views(self.response_headers@),
                self.response_body@,
            ),
            r.1 == self.response_status,
    {
        let bytes = render_response(
            ver,
            self.response_status,
            &self.response_headers,
            self.response_body.as_slice(),
        );
        (bytes, self.response_status)
    }
}

/// Scan of a pair list from its end: the entry recorded last wins.
fn lookup_pairs(pairs: &Vec<(Vec<u8>, Vec<u8>)>, key: &[u8]) -> (r: Option<Vec<u8>>)
    ensures
        match r {
            Some(v) => lookup_last(pair_views(pairs@), key@) == Some(v@),
            None => lookup_last(pair_views(pairs@), key@) is None,
        },
{
    let mut i: usize = pairs.len();
    proof {
        assert(pair_views(pairs@).take(pairs@.len() as int) =~= pair_views(pairs@));
    }
    while i > 0
        invariant
            i <= pairs@.len(),
            lookup_last(pair_views(pairs@), key@) == lookup_last(
                pair_views(pairs@).take(i as int),
                key@,
            ),
        decreases i,
    {
        let entry = &pairs[i - 1];
        if crate::bytes::bytes_eq(entry.0.as_slice(), key) {
            proof {
                assert(pair_views(pairs@).take(i as int).last() == (entry.0@, entry.1@));
            }
            return Some(to_vec_bytes(entry.1.as_slice()));
        }
        proof {
            assert(pair_views(pairs@).take(i as int).drop_last() =~= pair_views(pairs@).take(
                i - 1 as int,
            ));
            assert(pair_views(pairs@).take(i as int).last() == (entry.0@, entry.1@));
        }
        i = i - 1;
    }
    None
}

/// Carriage return, line feed.
pub open spec fn crlf() -> Seq<u8> {
    seq![13u8, 10u8]
}

/// The reason phrase sent with a status code; codes this engine never
/// produces itself fall back to a fixed placeholder.
pub open spec fn status_reason(code: u16) -> Seq<u8> {
    if code == 200 {
        seq![79u8, 75u8]  // OK
    } else if code == 400 {
        seq![66u8, 65u8, 68u8, 32u8, 82u8, 69u8, 81u8, 85u8, 69u8, 83u8, 84u8]  // BAD REQUEST
    } else if code == 401 {
        seq![85u8, 78u8, 65u8, 85u8, 84u8, 72u8, 79u8, 82u8, 73u8, 90u8, 69u8, 68u8]  // UNAUTHORIZED
    } else if code == 404 {
        seq![78u8, 79u8, 84u8, 32u8, 70u8, 79u8, 85u8, 78u8, 68u8]  // NOT FOUND
    } else if code == 500 {
        // INTERNAL SERVER ERROR
        seq![
            73u8,
            78u8,
            84u8,
            69u8,
            82u8,
            78u8,
            65u8,
            76u8,
            32u8,
            83u8,
            69u8,
            82u8,
            86u8,
            69u8,
            82u8,
            32u8,
            69u8,
            82u8,
            82u8,
            79u8,
            82u8,
        ]
    } else {
        seq![85u8, 78u8, 75u8, 78u8, 79u8, 87u8, 78u8]  // UNKNOWN
    }
}

/// Appends the reason phrase of `code`.
pub fn push_reason(out: &mut Vec<u8>, code: u16)
    ensures
        final(out)@ == old(out)@ + status_reason(code),
{
    if code == 200 {
        out.push(79);
        out.push(75);
    } else if code == 400 {
        out.push(66);
        out.push(65);
        out.push(68);
        out.push(32);
        out.push(82);
        out.push(69);
        out.push(81);
        out.push(85);
        out.push(69);
        out.push(83);
        out.push(84);
    } else if code == 401 {
        out.push(85);
        out.push(78);
        out.push(65);
        out.push(85);
        out.push(84);
        out.push(72);
        out.push(79);
        out.push(82);
        out.push(73);
        out.push(90);
        out.push(69);
        out.push(68);
    } else if code == 404 {
        out.push(78);
        out.push(79);
        out.push(84);
        out.push(32);
        out.push(70);
        out.push(79);
        out.push(85);
        out.push(78);
        out.push(68);
    } else if code == 500 {
        out.push(73);
        out.push(78);
        out.push(84);
        out.push(69);
        out.push(82);
        out.push(78);
        out.push(65);
        out.push(76);
        out.push(32);
        out.push(83);
        out.push(69);
        out.push(82);
        out.push(86);
        out.push(69);
        out.push(82);
        out.push(32);
        out.push(69);
        out.push(82);
        out.push(82);
        out.push(79);
        out.push(82);
    } else {
        out.push(85);
        out.push(78);
        out.push(75);
        out.push(78);
        out.push(79);
        out.push(87);
        out.push(78);
    }
    proof {
        assert(out@ =~= old(out)@ + status_reason(code));
    }
}

/// The wire form of the header block, one `Key: Value` line per entry.
pub open spec fn render_headers_from(hs: Seq<(Seq<u8>, Seq<u8>)>, i: int) -> Seq<u8>
    decreases hs.len() - i,
{
    if i < 0 || i >= hs.len() {
        Seq::empty()
    } else {
        hs[i].0 + seq![58u8, 32u8] + hs[i].1 + crlf() + render_headers_from(hs, i + 1)
    }
}

/// The wire form of a whole response: status line, header block, blank
/// line, body.
pub open spec fn render_response_spec(
    ver: Seq<u8>,
    status: u16,
    headers: Seq<(Seq<u8>, Seq<u8>)>,
    body: Seq<u8>,
) -> Seq<u8> {
    ver + seq![32u8] + dec_of(status as nat) + seq![32u8] + status_reason(status) + crlf()
        + render_headers_from(headers, 0) + crlf() + body
}

/// Serializes a response.
pub fn render_response(
    ver: &[u8],
    status: u16,
    headers: &Vec<(Vec<u8>, Vec<u8>)>,
    body: &[u8],
) -> (r: Vec<u8>)
    ensures
        r@ == render_response_spec(ver@, status, pair_views(headers@), body@),
{
    let mut out: Vec<u8> = Vec::new();
    push_all(&mut out, ver);
    out.push(32);
    push_dec(&mut out, status);
    out.push(32);
    push_reason(&mut out, status);
    out.push(13);
    out.push(10);
    let ghost before_headers = out@;
    let mut i: usize = 0;
    while i < headers.len()
        invariant
            i <= headers@.len(),
            out@ + render_headers_from(pair_views(headers@), i as int) == before_headers
                + render_headers_from(pair_views(headers@), 0),
        decreases headers@.len() - i,
    {
        let ghost out_at_top = out@;
        let entry = &headers[i];
        push_all(&mut out, entry.0.as_slice());
        out.push(58);
        out.push(32);
        push_all(&mut out, entry.1.as_slice());
        out.push(13);
        out.push(10);
        proof {
            assert(pair_views(headers@)[i as int] == (entry.0@, entry.1@));
            assert(out@ + render_headers_from(pair_views(headers@), i + 1) =~= out_at_top
                + render_headers_from(pair_views(headers@), i as int));
        }
        i = i + 1;
    }
    out.push(13);
    out.push(10);
    push_all(&mut out, body);
    proof {
        assert(out@ =~= render_response_spec(ver@, status, pair_views(headers@), body@));
    }
    out
}

} // verus!
