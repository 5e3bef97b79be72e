//! The HTTP method of a request line, and the parsing of its token.
//! An unknown token parses to `None`, which the dispatcher answers with
//! the fixed bad-request response without consulting the route tree.

use vstd::prelude::*;

verus! {

#[derive(Clone, Copy, PartialEq, Eq, Structural, Debug)]
pub enum MethodType {
    GET,
    POST,
    PUT,
    DELETE,
    CONNECT,
    OPTIONS,
    TRACE,
    PATCH,
}

/// The request-line token of each method, as ASCII bytes.
pub open spec fn method_token(m: MethodType) -> Seq<u8> {
    match m {
        MethodType::GET => seq![71u8, 69u8, 84u8],
        MethodType::POST => seq![80u8, 79u8, 83u8, 84u8],
        MethodType::PUT => seq![80u8, 85u8, 84u8],
        MethodType::DELETE => seq![68u8, 69u8, 76u8, 69u8, 84u8, 69u8],
        MethodType::CONNECT => seq![67u8, 79u8, 78u8, 78u8, 69u8, 67u8, 84u8],
        MethodType::OPTIONS => seq![79u8, 80u8, 84u8, 73u8, 79u8, 78u8, 83u8],
        MethodType::TRACE => seq![84u8, 82u8, 65u8, 67u8, 69u8],
        MethodType::PATCH => seq![80u8, 65u8, 84u8, 67u8, 72u8],
    }
}

/// The method a token names, or `None` for any other token.
pub open spec fn spec_method_of(tok: Seq<u8>) -> Option<MethodType> {
    if tok == method_token(MethodType::GET) {
        Some(MethodType::GET)
    } else if tok == method_token(MethodType::POST) {
        Some(MethodType::POST)
    } else if tok == method_token(MethodType::PUT) {
        Some(MethodType::PUT)
    } else if tok == method_token(MethodType::DELETE) {
        Some(MethodType::DELETE)
    } else if tok == method_token(MethodType::CONNECT) {
        Some(MethodType::CONNECT)
    } else if tok == method_token(MethodType::OPTIONS) {
        Some(MethodType::OPTIONS)
    } else if tok == method_token(MethodType::TRACE) {
        Some(MethodType::TRACE)
    } else if tok == method_token(MethodType::PATCH) {
        Some(MethodType::PATCH)
    } else {
        None
    }
}

/// Parses a request-line method token.
pub fn method_from_token(tok: &[u8]) -> (r: Option<MethodType>)
    ensures
        r == spec_method_of(tok@),
{
    let n = tok.len();
    if n == 3 && tok[0] == 71 && tok[1] == 69 && tok[2] == 84 {
        proof {
            assert(tok@ =~= method_token(MethodType::GET));
        }
        Some(MethodType::GET)
    } else if n == 4 && tok[0] == 80 && tok[1] == 79 && tok[2] == 83 && tok[3] == 84 {
        proof {
            assert(tok@ =~= method_token(MethodType::POST));
        }
        Some(MethodType::POST)
    } else if n == 3 && tok[0] == 80 && tok[1] == 85 && tok[2] == 84 {
        proof {
            assert(tok@ =~= method_token(MethodType::PUT));
        }
        Some(MethodType::PUT)
    } else if n == 6 && tok[0] == 68 && tok[1] == 69 && tok[2] == 76 && tok[3] == 69 && tok[4]
        == 84 && tok[5] == 69 {
        proof {
            assert(tok@ =~= method_token(MethodType::DELETE));
        }
        Some(MethodType::DELETE)
    } else if n == 7 && tok[0] == 67 && tok[1] == 79 && tok[2] == 78 && tok[3] == 78 && tok[4]
        == 69 && tok[5] == 67 && tok[6] == 84 {
        proof {
            assert(tok@ =~= method_token(MethodType::CONNECT));
        }
        Some(MethodType::CONNECT)
    } else if n == 7 && tok[0] == 79 && tok[1] == 80 && tok[2] == 84 && tok[3] == 73 && tok[4]
        == 79 && tok[5] == 78 && tok[6] == 83 {
        proof {
            assert(tok@ =~= method_token(MethodType::OPTIONS));
        }
        Some(MethodType::OPTIONS)
    } else if n == 5 && tok[0] == 84 && tok[1] == 82 && tok[2] == 65 && tok[3] == 67 && tok[4]
        == 69 {
        proof {
            assert(tok@ =~= method_token(MethodType::TRACE));
        }
        Some(MethodType::TRACE)
    } else if n == 5 && tok[0] == 80 && tok[1] == 65 && tok[2] == 84 && tok[3] == 67 && tok[4]
        == 72 {
        proof {
            assert(tok@ =~= method_token(MethodType::PATCH));
        }
        Some(MethodType::PATCH)
    } else {
        None
    }
}

} // verus!
