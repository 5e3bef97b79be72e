//! The dispatcher: parse the request line, headers and body from the raw
//! bytes of one connection, resolve the method, match the route tree,
//! run the middleware chain, bind path parameters, invoke the handler,
//! and serialize the response — falling back to the fixed bad-request
//! response on an unparseable request line or method token, and to the
//! static-file path or the fixed not-found response on a route miss.
//!
//! Reading the socket, writing it back, and reading a static file are the
//! caller's: this module maps request bytes to a `DispatchOutcome`.

use crate::bytes::{
    bytes_sub, concat_nonempty_from, first_index_from, first_index2_from, pair_views, push_all,
    split_bytes, split_spec, to_vec_bytes, trim_byte_spec, trim_bytes, views_of, contains_bytes,
    lemma_first_index_from, lemma_first_index2_from, lemma_pair_views_push, lemma_views_push,
    strip_ws, trim_byte_ends, dec_of, find_byte_from, find_byte2_from,
};
use crate::context::{render_response_spec, status_reason, Callable, RumContext};
use crate::method::{method_from_token, spec_method_of, MethodType};
use crate::mimetype::{form_urlencoded_mime_bytes, json_mime_bytes};
use crate::path::{path_segments, path_segments_spec};
use crate::router::{is_param, Router};
use vstd::prelude::*;

verus! {

/// A line as `str::lines` yields it: the trailing carriage return, if
/// any, stripped.
pub open spec fn strip_cr(line: Seq<u8>) -> Seq<u8> {
    if line.len() > 0 && line[line.len() - 1] == 13 {
        line.drop_last()
    } else {
        line
    }
}

/// The request text split into lines on line feeds, carriage returns
/// stripped.
pub open spec fn lines_spec(s: Seq<u8>) -> Seq<Seq<u8>> {
    split_spec(s, 10).map_values(|l: Seq<u8>| strip_cr(l))
}

/// Splits raw request bytes into lines.
pub fn split_lines(s: &[u8]) -> (r: Vec<Vec<u8>>)
    ensures
        views_of(r@) == lines_spec(s@),
        r@.len() >= 1,
{
    let parts = split_bytes(s, 10);
    let mut out: Vec<Vec<u8>> = Vec::new();
    let mut i: usize = 0;
    while i < parts.len()
        invariant
            i <= parts@.len(),
            views_of(parts@) == split_spec(s@, 10),
            views_of(out@) == lines_spec(s@).subrange(0, i as int),
        decreases parts@.len() - i,
    {
        let piece = &parts[i];
        let n = piece.len();
        let trimmed: Vec<u8> = if n > 0 && piece[n - 1] == 13 {
            let t = bytes_sub(piece.as_slice(), 0, n - 1);
            proof {
                assert(piece@.subrange(0, n - 1 as int) =~= piece@.drop_last());
            }
            t
        } else {
            to_vec_bytes(piece.as_slice())
        };
        proof {
            assert(views_of(parts@)[i as int] == piece@);
            assert(lines_spec(s@)[i as int] == strip_cr(piece@));
            lemma_views_push(out@, trimmed);
            assert(views_of(out@).push(trimmed@) =~= lines_spec(s@).subrange(0, i + 1 as int));
        }
        out.push(trimmed);
        i = i + 1;
    }
    proof {
        assert(lines_spec(s@).subrange(0, lines_spec(s@).len() as int) =~= lines_spec(s@));
    }
    out
}

/// The request line's three space-separated parts: method token, target,
/// protocol version (the rest of the line). `None` when a part is
/// missing — a malformed request line.
pub open spec fn spec_request_line(line: Seq<u8>) -> Option<(Seq<u8>, Seq<u8>, Seq<u8>)> {
    let i = first_index_from(line, 32, 0);
    if i == line.len() {
        None
    } else {
        let j = first_index_from(line, 32, i + 1);
        if j == line.len() {
            None
        } else {
            Some(
                (line.subrange(0, i), line.subrange(i + 1, j), line.subrange(
                    j + 1,
                    line.len() as int,
                )),
            )
        }
    }
}

/// Parses a request line.
pub fn parse_request_line(line: &[u8]) -> (r: Option<(Vec<u8>, Vec<u8>, Vec<u8>)>)
    ensures
        match r {
            Some(t) => spec_request_line(line@) == Some((t.0@, t.1@, t.2@)),
            None => spec_request_line(line@) is None,
        },
{
    let i = find_byte_from(line, 32, 0);
    if i == line.len() {
        return None;
    }
    proof {
        lemma_first_index_from(line@, 32, 0);
    }
    let j = find_byte_from(line, 32, i + 1);
    if j == line.len() {
        return None;
    }
    proof {
        lemma_first_index_from(line@, 32, i + 1 as int);
    }
    let m = bytes_sub(line, 0, i);
    let t = bytes_sub(line, i + 1, j);
    let v = bytes_sub(line, j + 1, line.len());
    Some((m, t, v))
}

/// The path part of a request target: everything before the first `?`.
pub open spec fn spec_route_of_target(t: Seq<u8>) -> Seq<u8> {
    t.subrange(0, first_index_from(t, 63, 0))
}

/// The query string of a request target, when there is one.
pub open spec fn spec_query_of_target(t: Seq<u8>) -> Option<Seq<u8>> {
    let k = first_index_from(t, 63, 0);
    if k == t.len() {
        None
    } else {
        Some(t.subrange(k + 1, t.len() as int))
    }
}

/// Splits a request target into route and optional query string.
pub fn split_target(t: &[u8]) -> (r: (Vec<u8>, Option<Vec<u8>>))
    ensures
        r.0@ == spec_route_of_target(t@),
        match r.1 {
            Some(q) => spec_query_of_target(t@) == Some(q@),
            None => spec_query_of_target(t@) is None,
        },
{
    let k = find_byte_from(t, 63, 0);
    proof {
        lemma_first_index_from(t@, 63, 0);
    }
    let route = bytes_sub(t, 0, k);
    if k == t.len() {
        (route, None)
    } else {
        (route, Some(bytes_sub(t, k + 1, t.len())))
    }
}

/// One `key=value` piece of a query or form body; a piece without `=`
/// keeps the whole piece as key and an empty value.
pub open spec fn kv_of(piece: Seq<u8>) -> (Seq<u8>, Seq<u8>) {
    let l = first_index_from(piece, 61, 0);
    if l == piece.len() {
        (piece, Seq::empty())
    } else {
        (piece.subrange(0, l), piece.subrange(l + 1, piece.len() as int))
    }
}

/// The key/value pairs of the pieces from `i` on; a pair with an empty
/// key or value is dropped.
pub open spec fn params_from(pieces: Seq<Seq<u8>>, i: int) -> Seq<(Seq<u8>, Seq<u8>)>
    decreases pieces.len() - i,
{
    if i < 0 || i >= pieces.len() {
        Seq::empty()
    } else {
        let kv = kv_of(pieces[i]);
        let rest = params_from(pieces, i + 1);
        if kv.0.len() > 0 && kv.1.len() > 0 {
            seq![kv] + rest
        } else {
            rest
        }
    }
}

/// All key/value pairs of an `&`-separated parameter string.
pub open spec fn params_of(q: Seq<u8>) -> Seq<(Seq<u8>, Seq<u8>)> {
    params_from(split_spec(q, 38), 0)
}

/// Parses an `&`-separated `key=value` parameter string, dropping pairs
/// with an empty key or value.
pub fn parse_params(q: &[u8]) -> (r: Vec<(Vec<u8>, Vec<u8>)>)
    ensures
        pair_views(r@) == params_of(q@),
{
    let pieces = split_bytes(q, 38);
    let mut out: Vec<(Vec<u8>, Vec<u8>)> = Vec::new();
    let mut i: usize = 0;
    while i < pieces.len()
        invariant
            i <= pieces@.len(),
            views_of(pieces@) == split_spec(q@, 38),
            params_of(q@) == pair_views(out@) + params_from(views_of(pieces@), i as int),
        decreases pieces@.len() - i,
    {
        let piece = &pieces[i];
        let l = find_byte_from(piece.as_slice(), 61, 0);
        proof {
            lemma_first_index_from(piece@, 61, 0);
            assert(views_of(pieces@)[i as int] == piece@);
        }
        let key = bytes_sub(piece.as_slice(), 0, l);
        let val: Vec<u8> = if l == piece.len() {
            proof {
                assert(piece@.subrange(0, l as int) =~= piece@);
            }
            Vec::new()
        } else {
            bytes_sub(piece.as_slice(), l + 1, piece.len())
        };
        proof {
            assert((key@, val@) == kv_of(piece@));
        }
        if key.len() > 0 && val.len() > 0 {
            proof {
                lemma_pair_views_push(out@, (key, val));
                assert(pair_views(out@.push((key, val))) + params_from(
                    views_of(pieces@),
                    i + 1,
                ) =~= pair_views(out@) + params_from(views_of(pieces@), i as int));
            }
            out.push((key, val));
        }
        i = i + 1;
    }
    out
}

/// Index of the first empty line at or after `i`; `ls.len()` when none.
pub open spec fn first_empty_from(ls: Seq<Seq<u8>>, i: int) -> int
    decreases ls.len() - i,
{
    if i < 0 || i >= ls.len() {
        ls.len() as int
    } else if ls[i].len() == 0 {
        i
    } else {
        first_empty_from(ls, i + 1)
    }
}

/// Finds the blank line separating headers from body.
pub fn find_blank_line(lines: &Vec<Vec<u8>>) -> (r: usize)
    ensures
        r as int == first_empty_from(views_of(lines@), 0),
        r <= lines@.len(),
{
    let mut i: usize = 0;
    while i < lines.len()
        invariant
            i <= lines@.len(),
            first_empty_from(views_of(lines@), 0) == first_empty_from(
                views_of(lines@),
                i as int,
            ),
        decreases lines@.len() - i,
    {
        proof {
            assert(views_of(lines@)[i as int] == lines@[i as int]@);
        }
        if lines[i].len() == 0 {
            return i;
        }
        i = i + 1;
    }
    i
}

/// A header line split on its first `": "`; `None` when it has none —
/// such a line is not a header and is skipped.
pub open spec fn header_kv(line: Seq<u8>) -> Option<(Seq<u8>, Seq<u8>)> {
    let j = first_index2_from(line, 58, 32, 0);
    if j == line.len() {
        None
    } else {
        Some((line.subrange(0, j), line.subrange(j + 2, line.len() as int)))
    }
}

/// The header pairs among lines `1..k`, in order, lines without `": "`
/// skipped.
pub open spec fn headers_from(ls: Seq<Seq<u8>>, i: int, k: int) -> Seq<(Seq<u8>, Seq<u8>)>
    decreases k - i,
{
    if i < 1 || i >= k || k > ls.len() {
        Seq::empty()
    } else {
        let rest = headers_from(ls, i + 1, k);
        match header_kv(ls[i]) {
            Some(kv) => seq![kv] + rest,
            None => rest,
        }
    }
}

/// Records the header lines `1..k` on the context.
pub fn parse_headers_into(ctx: &mut RumContext, lines: &Vec<Vec<u8>>, k: usize)
    requires
        k <= lines@.len(),
    ensures
        *final(ctx) == (RumContext { request_headers: final(ctx).request_headers, ..*old(ctx) }),
        pair_views(final(ctx).request_headers@) == pair_views(old(ctx).request_headers@)
            + headers_from(views_of(lines@), 1, k as int),
{
    let mut i: usize = 1;
    while i < k
        invariant
            1 <= i,
            i <= k || i == 1,
            k <= lines@.len(),
            *ctx == (RumContext { request_headers: ctx.request_headers, ..*old(ctx) }),
            pair_views(old(ctx).request_headers@) + headers_from(views_of(lines@), 1, k as int)
                == pair_views(ctx.request_headers@) + headers_from(
                views_of(lines@),
                i as int,
                k as int,
            ),
        decreases k - i,
    {
        let line = &lines[i];
        proof {
            assert(views_of(lines@)[i as int] == line@);
        }
        let j = find_byte2_from(line.as_slice(), 58, 32, 0);
        proof {
            lemma_first_index2_from(line@, 58, 32, 0);
        }
        if j < line.len() {
            let key = bytes_sub(line.as_slice(), 0, j);
            let val = bytes_sub(line.as_slice(), j + 2, line.len());
            let ghost before = pair_views(ctx.request_headers@);
            ctx.set_request_header(key.as_slice(), val.as_slice());
            proof {
                assert(before.push((key@, val@)) + headers_from(
                    views_of(lines@),
                    i + 1,
                    k as int,
                ) =~= before + headers_from(views_of(lines@), i as int, k as int));
            }
        }
        i = i + 1;
    }
}

/// Reassembles the body: the non-empty lines after the blank line at
/// index `k`, joined with nothing between them.
pub fn body_from_lines(lines: &Vec<Vec<u8>>, k: usize) -> (r: Vec<u8>)
    requires
        k <= lines@.len(),
    ensures
        r@ == concat_nonempty_from(views_of(lines@), k + 1),
{
    let mut out: Vec<u8> = Vec::new();
    if k == lines.len() {
        return out;
    }
    let mut j: usize = k + 1;
    while j < lines.len()
        invariant
            k + 1 <= j,
            j <= lines@.len(),
            concat_nonempty_from(views_of(lines@), k + 1) == out@ + concat_nonempty_from(
                views_of(lines@),
                j as int,
            ),
        decreases lines@.len() - j,
    {
        let line = &lines[j];
        proof {
            assert(views_of(lines@)[j as int] == line@);
        }
        if line.len() > 0 {
            let ghost before = out@;
            push_all(&mut out, line.as_slice());
            proof {
                assert(out@ + concat_nonempty_from(views_of(lines@), j + 1) =~= before
                    + concat_nonempty_from(views_of(lines@), j as int));
            }
        }
        j = j + 1;
    }
    out
}

/// Records parsed query parameters on the context, in order.
pub fn push_query_params(ctx: &mut RumContext, ps: &Vec<(Vec<u8>, Vec<u8>)>)
    ensures
        *final(ctx) == (RumContext { query_params: final(ctx).query_params, ..*old(ctx) }),
        pair_views(final(ctx).query_params@) == pair_views(old(ctx).query_params@) + pair_views(
            ps@,
        ),
{
    let mut i: usize = 0;
    proof {
        assert(pair_views(ps@).subrange(0, 0) =~= Seq::<(Seq<u8>, Seq<u8>)>::empty());
        assert(pair_views(ctx.query_params@) + pair_views(ps@).subrange(0, 0) =~= pair_views(
            ctx.query_params@,
        ));
    }
    while i < ps.len()
        invariant
            i <= ps@.len(),
            *ctx == (RumContext { query_params: ctx.query_params, ..*old(ctx) }),
            pair_views(ctx.query_params@) == pair_views(old(ctx).query_params@) + pair_views(
                ps@,
            ).subrange(0, i as int),
        decreases ps@.len() - i,
    {
        let pair = &ps[i];
        ctx.set_query_params(pair.0.as_slice(), pair.1.as_slice());
        proof {
            assert(pair_views(ps@)[i as int] == (pair.0@, pair.1@));
            assert((pair_views(old(ctx).query_params@) + pair_views(ps@).subrange(
                0,
                i as int,
            )).push((pair.0@, pair.1@)) =~= pair_views(old(ctx).query_params@) + pair_views(
                ps@,
            ).subrange(0, i + 1 as int));
        }
        i = i + 1;
    }
    proof {
        assert(pair_views(ps@).subrange(0, ps@.len() as int) =~= pair_views(ps@));
    }
}

/// Records parsed form parameters on the context, in order.
pub fn push_form_params(ctx: &mut RumContext, ps: &Vec<(Vec<u8>, Vec<u8>)>)
    ensures
        *final(ctx) == (RumContext { form_params: final(ctx).form_params, ..*old(ctx) }),
        pair_views(final(ctx).form_params@) == pair_views(old(ctx).form_params@) + pair_views(
            ps@,
        ),
{
    let mut i: usize = 0;
    proof {
        assert(pair_views(ctx.form_params@) + pair_views(ps@).subrange(0, 0) =~= pair_views(
            ctx.form_params@,
        ));
    }
    while i < ps.len()
        invariant
            i <= ps@.len(),
            *ctx == (RumContext { form_params: ctx.form_params, ..*old(ctx) }),
            pair_views(ctx.form_params@) == pair_views(old(ctx).form_params@) + pair_views(
                ps@,
            ).subrange(0, i as int),
        decreases ps@.len() - i,
    {
        let pair = &ps[i];
        ctx.set_form_params(pair.0.as_slice(), pair.1.as_slice());
        proof {
            assert(pair_views(ps@)[i as int] == (pair.0@, pair.1@));
            assert((pair_views(old(ctx).form_params@) + pair_views(ps@).subrange(
                0,
                i as int,
            )).push((pair.0@, pair.1@)) =~= pair_views(old(ctx).form_params@) + pair_views(
                ps@,
            ).subrange(0, i + 1 as int));
        }
        i = i + 1;
    }
    proof {
        assert(pair_views(ps@).subrange(0, ps@.len() as int) =~= pair_views(ps@));
    }
}

/// A parameter token with its leading and trailing colons removed: the
/// name a matched value is bound under.
pub open spec fn trim_colons(s: Seq<u8>) -> Seq<u8> {
    trim_byte_spec(s, 58)
}

/// The parameter bindings of a matched pattern against the request
/// segments: for each parameter token, its name bound to the literal
/// segment at the same position, in order.
pub open spec fn bindings_from(pattern: Seq<Seq<u8>>, segs: Seq<Seq<u8>>, i: int) -> Seq<
    (Seq<u8>, Seq<u8>),
>
    decreases pattern.len() - i,
{
    if i < 0 || i >= pattern.len() || pattern.len() != segs.len() {
        Seq::empty()
    } else {
        let rest = bindings_from(pattern, segs, i + 1);
        if is_param(pattern[i]) {
            seq![(trim_colons(pattern[i]), segs[i])] + rest
        } else {
            rest
        }
    }
}

/// Every parameter token of a matched pattern is bound: the binding list
/// holds the token's name (its colons trimmed) paired with the literal
/// request segment standing at the same position.
pub proof fn lemma_param_is_bound(pattern: Seq<Seq<u8>>, segs: Seq<Seq<u8>>, i: int, j: int)
    requires
        pattern.len() == segs.len(),
        0 <= i <= j < pattern.len(),
        is_param(pattern[j]),
    ensures
        bindings_from(pattern, segs, i).contains((trim_colons(pattern[j]), segs[j])),
    decreases j - i,
{
    let target = (trim_colons(pattern[j]), segs[j]);
    if i == j {
        assert(bindings_from(pattern, segs, i)[0] == target);
    } else {
        lemma_param_is_bound(pattern, segs, i + 1, j);
        let rest = bindings_from(pattern, segs, i + 1);
        let w = choose|w: int| 0 <= w < rest.len() && rest[w] == target;
        if is_param(pattern[i]) {
            assert(bindings_from(pattern, segs, i)[w + 1] == target);
        } else {
            assert(bindings_from(pattern, segs, i)[w] == target);
        }
    }
}

/// Binds every parameter of the matched pattern on the context.
pub fn bind_params(ctx: &mut RumContext, pattern: &Vec<Vec<u8>>, segs: &Vec<Vec<u8>>)
    requires
        pattern@.len() == segs@.len(),
    ensures
        *final(ctx) == (RumContext { url_params: final(ctx).url_params, ..*old(ctx) }),
        pair_views(final(ctx).url_params@) == pair_views(old(ctx).url_params@) + bindings_from(
            views_of(pattern@),
            views_of(segs@),
            0,
        ),
{
    let ghost pv = views_of(pattern@);
    let ghost sv = views_of(segs@);
    let mut i: usize = 0;
    while i < pattern.len()
        invariant
            i <= pattern@.len(),
            pattern@.len() == segs@.len(),
            pv == views_of(pattern@),
            sv == views_of(segs@),
            *ctx == (RumContext { url_params: ctx.url_params, ..*old(ctx) }),
            pair_views(old(ctx).url_params@) + bindings_from(pv, sv, 0) == pair_views(
                ctx.url_params@,
            ) + bindings_from(pv, sv, i as int),
        decreases pattern@.len() - i,
    {
        let p = &pattern[i];
        proof {
            assert(pv[i as int] == p@);
            assert(sv[i as int] == segs@[i as int]@);
        }
        if p.len() > 0 && p[0] == 58 {
            let name = trim_byte_ends(p.as_slice(), 58);
            let ghost before = pair_views(ctx.url_params@);
            ctx.set_url_params(name.as_slice(), segs[i].as_slice());
            proof {
                assert(before.push((trim_colons(p@), sv[i as int])) + bindings_from(
                    pv,
                    sv,
                    i + 1,
                ) =~= before + bindings_from(pv, sv, i as int));
            }
        } else {
            proof {
                assert(!is_param(pv[i as int]));
            }
        }
        i = i + 1;
    }
}

/// The fixed response a status code falls back to: no headers, the code
/// and its reason phrase as the body.
pub open spec fn default_response_spec(ver: Seq<u8>, status: u16) -> Seq<u8> {
    render_response_spec(
        ver,
        status,
        Seq::empty(),
        dec_of(status as nat) + seq![32u8] + status_reason(status),
    )
}

/// Builds the fixed response for a status code.
pub fn default_response(ver: &[u8], status: u16) -> (r: (Vec<u8>, u16))
    ensures
        r.0@ == default_response_spec(ver@, status),
        r.1 == status,
{
    let mut body: Vec<u8> = Vec::new();
    crate::bytes::push_dec(&mut body, status);
    body.push(32);
    crate::context::push_reason(&mut body, status);
    let headers: Vec<(Vec<u8>, Vec<u8>)> = Vec::new();
    proof {
        assert(pair_views(headers@) =~= Seq::<(Seq<u8>, Seq<u8>)>::empty());
    }
    let bytes = crate::context::render_response(ver, status, &headers, body.as_slice());
    (bytes, status)
}

/// A successful static-file response: the file's bytes with status 200.
pub fn ok_file_response(ver: &[u8], contents: &[u8]) -> (r: (Vec<u8>, u16))
    ensures
        r.0@ == render_response_spec(ver@, 200u16, Seq::empty(), contents@),
        r.1 == 200,
{
    let headers: Vec<(Vec<u8>, Vec<u8>)> = Vec::new();
    proof {
        assert(pair_views(headers@) =~= Seq::<(Seq<u8>, Seq<u8>)>::empty());
    }
    let bytes = crate::context::render_response(ver, 200, &headers, contents);
    (bytes, 200)
}

/// What one connection's request comes to: a finished response to write
/// back, or a static file to serve because no route matched.
pub enum DispatchOutcome {
    Response { bytes: Vec<u8>, status: u16 },
    ServeFile { path: Vec<u8>, version: Vec<u8> },
}

/// The parts of the request line of `raw`, when it has three.
pub open spec fn req_parts(raw: Seq<u8>) -> Option<(Seq<u8>, Seq<u8>, Seq<u8>)> {
    spec_request_line(lines_spec(raw)[0])
}

/// A request answered with the fixed bad-request response: its request
/// line lacks a part, or its method token names no method.
pub open spec fn bad_request_case(raw: Seq<u8>) -> bool {
    req_parts(raw) is None || spec_method_of(req_parts(raw).unwrap().0) is None
}

/// The protocol version echoed into the response's status line; empty
/// when the request line had none.
pub open spec fn resp_version(raw: Seq<u8>) -> Seq<u8> {
    match req_parts(raw) {
        Some(t) => t.2,
        None => Seq::empty(),
    }
}

/// The segment sequence of the request's route.
pub open spec fn req_segments(raw: Seq<u8>) -> Seq<Seq<u8>> {
    path_segments_spec(spec_route_of_target(req_parts(raw).unwrap().1))
}

/// The engine: the route tree and the static-asset root, built during
/// configuration and then only read.
#[verifier::reject_recursive_types(F)]
pub struct Handler<F> {
    pub router: Router<F>,
    pub static_asset_path: Option<Vec<u8>>,
}

impl<F> Handler<F> {
    /// An engine with an empty tree and no static root.
    pub fn new() -> (r: Handler<F>)
        ensures
            forall|p: Seq<Seq<u8>>, m: MethodType| #[trigger] r.router.route_of(p, m) is None,
            forall|p: Seq<Seq<u8>>|
                #[trigger] r.router.mids_of(p) == (if p.len() == 0 {
                    Some(Seq::<F>::empty())
                } else {
                    None::<Seq<F>>
                }),
            r.static_asset_path is None,
    {
        Handler { router: Router::new(), static_asset_path: None }
    }

    /// Registers `controller` for `method` under the route `route`
    /// names, replacing a controller registered there under the same
    /// method and touching nothing else: no other route, no middleware
    /// list, and the node set grows only by the registered path.
    pub fn add_route(&mut self, method: MethodType, route: &[u8], controller: F)
        ensures
            final(self).static_asset_path == old(self).static_asset_path,
            forall|q: Seq<Seq<u8>>, m2: MethodType|
                #[trigger] final(self).router.route_of(q, m2) == (if q == path_segments_spec(
                    route@,
                ) && m2 == method {
                    Some(controller)
                } else {
                    old(self).router.route_of(q, m2)
                }),
            forall|q: Seq<Seq<u8>>|
                #[trigger] final(self).router.mids_of(q) == (if old(self).router.mids_of(
                    q,
                ) is Some {
                    old(self).router.mids_of(q)
                } else if crate::router::is_prefix_of(q, path_segments_spec(route@)) {
                    Some(Seq::<F>::empty())
                } else {
                    None::<Seq<F>>
                }),
    {
        let segs = path_segments(route);
        proof {
            assert(crate::router::seg_views_from(segs@, 0) =~= views_of(segs@));
        }
        self.router.register_at(&segs, 0, method, controller);
    }

    /// Appends `handlers` onto the middleware bound at the node `route`
    /// names, after any middleware already bound there; no controller
    /// and no other node's middleware changes.
    pub fn set_middleware(&mut self, route: &[u8], handlers: Vec<F>)
        ensures
            final(self).static_asset_path == old(self).static_asset_path,
            forall|q: Seq<Seq<u8>>, m2: MethodType|
                #[trigger] final(self).router.route_of(q, m2) == old(self).router.route_of(
                    q,
                    m2,
                ),
            forall|q: Seq<Seq<u8>>|
                #[trigger] final(self).router.mids_of(q) == (if q == path_segments_spec(route@) {
                    Some(
                        crate::router::mids_or_empty(old(self).router.mids_of(q)) + handlers@,
                    )
                } else if old(self).router.mids_of(q) is Some {
                    old(self).router.mids_of(q)
                } else if crate::router::is_prefix_of(q, path_segments_spec(route@)) {
                    Some(Seq::<F>::empty())
                } else {
                    None::<Seq<F>>
                }),
    {
        let segs = path_segments(route);
        proof {
            assert(crate::router::seg_views_from(segs@, 0) =~= views_of(segs@));
        }
        self.router.add_middleware_at(&segs, 0, handlers);
    }

    /// Configures the directory static files are served from on a route
    /// miss.
    pub fn set_static_assets(&mut self, path: &[u8])
        ensures
            final(self).router == old(self).router,
            final(self).static_asset_path matches Some(p) && p@ == path@,
    {
        self.static_asset_path = Some(to_vec_bytes(path));
    }
}

impl<F: Callable> Handler<F> {
    /// Handles the raw bytes of one request: a malformed request line or
    /// an unknown method token yields the fixed bad-request response
    /// without consulting the route tree; a route miss yields the static
    /// file to serve when a static root is configured, else the fixed
    /// not-found response; a hit runs the middleware chain root to leaf,
    /// and — unless some middleware produced a response — binds the
    /// pattern's parameters and invokes the matched controller, then
    /// serializes whatever response the context holds.
    pub fn handle_request(&self, raw: &[u8]) -> (r: DispatchOutcome)
        ensures
            bad_request_case(raw@) ==> (r matches DispatchOutcome::Response { bytes, status }
                && bytes@ == default_response_spec(resp_version(raw@), 400u16) && status == 400),
            !bad_request_case(raw@) && self.router.match_of(
                spec_method_of(req_parts(raw@).unwrap().0).unwrap(),
                req_segments(raw@),
            ) is None && self.static_asset_path is None ==> (r
                matches DispatchOutcome::Response { bytes, status } && bytes@
                == default_response_spec(resp_version(raw@), 404u16) && status == 404),
            !bad_request_case(raw@) && self.router.match_of(
                spec_method_of(req_parts(raw@).unwrap().0).unwrap(),
                req_segments(raw@),
            ) is None && self.static_asset_path is Some ==> (r
                matches DispatchOutcome::ServeFile { path, version } && path@
                == self.static_asset_path.unwrap()@ + seq![47u8] + req_segments(raw@).last()
                && version@ == resp_version(raw@)),
            !bad_request_case(raw@) && self.router.match_of(
                spec_method_of(req_parts(raw@).unwrap().0).unwrap(),
                req_segments(raw@),
            ) is Some ==> r matches DispatchOutcome::Response { .. },
    {
        let lines = split_lines(raw);
        proof {
            assert(views_of(lines@)[0] == lines@[0]@);
        }
        let parsed = parse_request_line(lines[0].as_slice());
        match parsed {
            None => {
                let empty: Vec<u8> = Vec::new();
                let (bytes, status) = default_response(empty.as_slice(), 400);
                DispatchOutcome::Response { bytes, status }
            },
            Some((mtok, target, ver)) => {
                match method_from_token(mtok.as_slice()) {
                    None => {
                        let (bytes, status) = default_response(ver.as_slice(), 400);
                        DispatchOutcome::Response { bytes, status }
                    },
                    Some(m) => {
                        let mut ctx = RumContext::new();
                        let (route, query_opt) = split_target(target.as_slice());
                        match query_opt {
                            Some(q) => {
                                let ps = parse_params(q.as_slice());
                                push_query_params(&mut ctx, &ps);
                            },
                            None => {},
                        }
                        let k = find_blank_line(&lines);
                        parse_headers_into(&mut ctx, &lines, k);
                        let raw_body = body_from_lines(&lines, k);
                        let body = trim_bytes(raw_body.as_slice());
                        let ct_key = content_type_key();
                        let ct = match ctx.get_request_header(ct_key.as_slice()) {
                            Some(v) => v,
                            None => Vec::new(),
                        };
                        let form_mime = form_urlencoded_mime_bytes();
                        let json = json_mime_bytes();
                        if contains_bytes(ct.as_slice(), form_mime.as_slice()) {
                            let ps = parse_params(body.as_slice());
                            push_form_params(&mut ctx, &ps);
                            ctx.set_request_body(body);
                        } else if contains_bytes(ct.as_slice(), json.as_slice()) {
                            let stripped = strip_ws(body.as_slice());
                            ctx.set_request_body(stripped);
                        } else {
                            ctx.set_request_body(body);
                        }
                        let segs = path_segments(route.as_slice());
                        proof {
                            assert(crate::router::seg_views_from(segs@, 0) =~= views_of(segs@));
                        }
                        match self.router.find_route(m, &segs, 0) {
                            Some((pattern, controller)) => {
                                self.router.run_middleware(&pattern, 0, &mut ctx);
                                if !ctx.has_response() {
                                    proof {
                                        crate::router::lemma_match_names_node(
                                            self.router,
                                            m,
                                            views_of(segs@),
                                        );
                                    }
                                    bind_params(&mut ctx, &pattern, &segs);
                                    controller.invoke(&mut ctx);
                                }
                                let (bytes, status) = ctx.get_response(ver.as_slice());
                                DispatchOutcome::Response { bytes, status }
                            },
                            None => {
                                match &self.static_asset_path {
                                    Some(root) => {
                                        let mut path = to_vec_bytes(root.as_slice());
                                        path.push(47);
                                        let last = &segs[segs.len() - 1];
                                        push_all(&mut path, last.as_slice());
                                        proof {
                                            assert(views_of(segs@)[segs@.len() - 1] == last@);
                                            assert(path@ =~= root@ + seq![47u8] + req_segments(
                                                raw@,
                                            ).last());
                                        }
                                        DispatchOutcome::ServeFile {
                                            path,
                                            version: to_vec_bytes(ver.as_slice()),
                                        }
                                    },
                                    None => {
                                        let (bytes, status) = default_response(
                                            ver.as_slice(),
                                            404,
                                        );
                                        DispatchOutcome::Response { bytes, status }
                                    },
                                }
                            },
                        }
                    },
                }
            },
        }
    }
}

/// The bytes of the `Content-Type` header name.
pub open spec fn content_type_key_spec() -> Seq<u8> {
    seq![67u8, 111u8, 110u8, 116u8, 101u8, 110u8, 116u8, 45u8, 84u8, 121u8, 112u8, 101u8]
}

/// Builds the `Content-Type` header name.
pub fn content_type_key() -> (r: Vec<u8>)
    ensures
        r@ == content_type_key_spec(),
{
    let mut r: Vec<u8> = Vec::new();
    r.push(67);
    r.push(111);
    r.push(110);
    r.push(116);
    r.push(101);
    r.push(110);
    r.push(116);
    r.push(45);
    r.push(84);
    r.push(121);
    r.push(112);
    r.push(101);
    proof {
        assert(r@ =~= content_type_key_spec());
    }
    r
}

} // verus!
