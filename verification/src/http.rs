//! The minimal raw HTTP the probes speak: absolute-URI request lines
//! built character for character, the split of a raw response at the
//! first blank line, and substring search over responses.
use crate::text::chars_of;
use crate::text::contains_pat;
use crate::text::contains_seq;
use crate::text::find_pat_from;
use crate::text::first_match;
use crate::text::lemma_first_match;
use crate::text::match_at;
use vstd::prelude::*;
use vstd::string::StrSliceExecFns;
use vstd::string::StringExecFns;

verus! {

/// The proxy-style probe request for the echo host: an absolute-URI
/// GET for `/headers`, HTTP/1.0, one Host header, blank line.
pub open spec fn echo_request_spec(h: Seq<char>) -> Seq<char> {
    "GET http://"@ + h + "/headers HTTP/1.0\r\nHost: "@ + h + "\r\n\r\n"@
}

/// The latency-measurement request for the reference host.
pub open spec fn ping_request_spec(h: Seq<char>) -> Seq<char> {
    "GET http://"@ + h + " HTTP/1.0\r\nHost: "@ + h + "\r\n\r\n"@
}

/// Builds the echo probe request.
pub fn echo_request(httpbin: &str) -> (r: String)
    ensures
        r@ == echo_request_spec(httpbin@),
{
    let mut s = String::new();
    s.append("GET http://");
    s.append(httpbin);
    s.append("/headers HTTP/1.0\r\nHost: ");
    s.append(httpbin);
    s.append("\r\n\r\n");
    proof {
        assert(s@ =~= echo_request_spec(httpbin@));
    }
    s
}

/// Builds the latency probe request.
pub fn ping_request(reference: &str) -> (r: String)
    ensures
        r@ == ping_request_spec(reference@),
{
    let mut s = String::new();
    s.append("GET http://");
    s.append(reference);
    s.append(" HTTP/1.0\r\nHost: ");
    s.append(reference);
    s.append("\r\n\r\n");
    proof {
        assert(s@ =~= ping_request_spec(reference@));
    }
    s
}

/// The header/body separator of a raw HTTP response.
pub open spec fn crlf_crlf() -> Seq<char> {
    seq!['\r', '\n', '\r', '\n']
}

/// The body of a raw response: everything after the first blank
/// line; a response without one is taken whole, as the raw split
/// leaves it.
pub open spec fn body_of(resp: Seq<char>) -> Seq<char> {
    match first_match(resp, crlf_crlf()) {
        None => resp,
        Some(i) => resp.skip(i + 4 as int),
    }
}

/// The body of `resp` as `body_of` describes it.
pub fn response_body<'a>(resp: &'a str) -> (b: &'a str)
    ensures
        b@ == body_of(resp@),
{
    let v = chars_of(resp);
    let mut pat: Vec<char> = Vec::new();
    pat.push('\r');
    pat.push('\n');
    pat.push('\r');
    pat.push('\n');
    proof {
        assert(pat@ =~= crlf_crlf());
        assert(v@.skip(0) =~= v@);
        lemma_first_match(v@, pat@);
    }
    match find_pat_from(&v, &pat, 0) {
        Some(i) => {
            proof {
                assert(match_at(v@, pat@, i as int));
                assert(v@.len() == v.len());
                assert(i + 4 <= v@.len());
                assert(resp@.skip(i + 4 as int) =~= resp@.subrange(i + 4, resp@.len() as int));
            }
            resp.substring_char(i + 4, v.len())
        },
        None => resp,
    }
}

/// Whether `needle` occurs in `hay`; an empty needle always does.
pub fn contains_str(hay: &str, needle: &str) -> (r: bool)
    ensures
        r == contains_seq(hay@, needle@),
{
    let h = chars_of(hay);
    let n = chars_of(needle);
    if n.len() == 0 {
        proof {
            assert(hay@.subrange(0, 0) =~= needle@);
            assert(match_at(hay@, needle@, 0));
        }
        true
    } else {
        contains_pat(&h, &n)
    }
}

} // verus!
