//! The boundary of the engine: texts come in as bytes or strings and are
//! handed on as sequences of characters.
use vstd::prelude::*;
use vstd::std_specs::iter::IteratorSpec;
use vstd::string::StringSliceAdditionalSpecFns;
use vstd::utf8::{decode_utf8, encode_utf8, encode_utf8_decode_utf8, valid_utf8};

verus! {

/// The characters of `text`, in order.
pub fn chars_of(text: &str) -> (out: Vec<char>)
    ensures
        out@ == text@,
{
    let mut out: Vec<char> = Vec::new();
    let mut rest = text.chars();
    proof {
        vstd::string::axiom_spec_iter(text);
    }
    loop
        invariant
            rest.obeys_prophetic_iter_laws(),
            rest.decrease() is Some,
            out@ + rest.remaining() == text@,
        decreases rest.decrease()->0,
    {
        let ghost before = rest;
        match rest.next() {
            Some(c) => {
                proof {
                    vstd::string::next_postcondition(&before, &rest, Some(c));
                }
                out.push(c);
                assert(out@ + rest.remaining() =~= text@);
            },
            None => {
                proof {
                    vstd::string::next_postcondition(&before, &rest, None);
                }
                assert(out@ + rest.remaining() =~= out@);
                return out;
            },
        }
    }
}

/// A query that is not text: its bytes are not valid UTF-8.
#[derive(Clone, Copy, PartialEq, Eq, Structural, Debug)]
pub struct MalformedQuery;

/// Trusted: `core::str::from_utf8` accepts exactly the byte sequences that
/// are valid UTF-8, and the string that it gives has those bytes.
#[verifier::external_body]
fn utf8_text(bytes: &[u8]) -> (text: Option<&str>)
    ensures
        match text {
            Some(t) => valid_utf8(bytes@) && t.spec_bytes() == bytes@,
            None => !valid_utf8(bytes@),
        },
{
    match core::str::from_utf8(bytes) {
        Ok(text) => Some(text),
        Err(_) => None,
    }
}

/// Reads the body of a request as a query: the characters that the bytes
/// encode, where they are valid UTF-8, and else a refusal.
pub fn query_chars(body: &[u8]) -> (outcome: Result<Vec<char>, MalformedQuery>)
    ensures
        match outcome {
            Ok(query) => valid_utf8(body@) && query@ == decode_utf8(body@),
            Err(_) => !valid_utf8(body@),
        },
{
    match utf8_text(body) {
        Some(text) => {
            proof {
                encode_utf8_decode_utf8(text@);
            }
            Ok(chars_of(text))
        },
        None => Err(MalformedQuery),
    }
}

/// Decides whether two strings have the same characters.
pub fn same_text(a: &str, b: &str) -> (same: bool)
    ensures
        same == (a@ == b@),
{
    let x = a.as_bytes();
    let y = b.as_bytes();
    proof {
        encode_utf8_decode_utf8(a@);
        encode_utf8_decode_utf8(b@);
    }
    if x.len() != y.len() {
        return false;
    }
    let mut i: usize = 0;
    while i < x.len()
        invariant
            x@ == encode_utf8(a@),
            y@ == encode_utf8(b@),
            decode_utf8(encode_utf8(a@)) == a@,
            decode_utf8(encode_utf8(b@)) == b@,
            x@.len() == y@.len(),
            i <= x@.len(),
            forall|k: int| 0 <= k < i ==> x@[k] == y@[k],
        decreases x@.len() - i,
    {
        if x[i] != y[i] {
            return false;
        }
        i += 1;
    }
    assert(x@ =~= y@);
    true
}

/// The method of a request, as far as the routes tell methods apart.
#[derive(Clone, Copy, PartialEq, Eq, Structural, Debug)]
pub enum Verb {
    Get,
    Post,
    Other,
}

/// What a request asks for.
#[derive(Clone, Copy, PartialEq, Eq, Structural, Debug)]
pub enum Route {
    /// A query to rank the documents against.
    Search,
    /// The page of the web interface.
    Page,
    /// The script of the web interface.
    Script,
    /// Nothing that is served.
    NotFound,
}

/// What a request with the method `verb` for the address `url` asks for.
pub open spec fn route_of(verb: Verb, url: Seq<char>) -> Route {
    if verb == Verb::Post && url == "/api/search"@ {
        Route::Search
    } else if verb == Verb::Get && (url == "/"@ || url == "/index.html"@) {
        Route::Page
    } else if verb == Verb::Get && url == "/index.js"@ {
        Route::Script
    } else {
        Route::NotFound
    }
}

/// Decides what a request asks for.
pub fn route(verb: Verb, url: &str) -> (found: Route)
    ensures
        found == route_of(verb, url@),
{
    match verb {
        Verb::Post => {
            if same_text(url, "/api/search") {
                Route::Search
            } else {
                Route::NotFound
            }
        },
        Verb::Get => {
            if same_text(url, "/") || same_text(url, "/index.html") {
                Route::Page
            } else if same_text(url, "/index.js") {
                Route::Script
            } else {
                Route::NotFound
            }
        },
        Verb::Other => Route::NotFound,
    }
}

} // verus!
