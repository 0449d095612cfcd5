use vstd::prelude::*;
use vstd::string::StringExecFns;
use crate::codec::dec_nat;
use crate::text::chars_to_string;

verus! {

/// What the retrieval responder answers a request with: an empty-handed
/// not-found answer with a human-readable explanation when nothing is
/// selected, or the file currently in the shared slot, streamed with
/// byte-range support by the server around the library.
pub enum StreamResponse {
    /// Nothing is selected; answer not-found with an explanation.
    NoSelection,
    /// Stream this file.
    ServeFile { path: String },
}

/// The responder's one decision, from the value read out of the shared
/// selection slot: absent means not-found, present means serve that file.
pub fn decide_stream_response(current: Option<String>) -> (r: StreamResponse)
    ensures
        match current {
            Some(p) => r == (StreamResponse::ServeFile { path: p }),
            None => r is NoSelection,
        },
{
    match current {
        Some(p) => StreamResponse::ServeFile { path: p },
        None => StreamResponse::NoSelection,
    }
}

/// The base address clients reach the responder at, from the local
/// address and the port it bound.
pub fn stream_url_base(ip: &str, port: u16) -> (r: String)
    ensures
        r@ == "http://"@ + ip@ + ":"@ + dec_nat(port as int),
{
    let mut digits: Vec<char> = Vec::new();
    crate::codec::push_dec_u64(&mut digits, port as u64);
    let ds = chars_to_string(&digits);
    let mut s = "http://".to_owned();
    s.append(ip);
    s.append(":");
    s.append(ds.as_str());
    proof {
        assert((("http://"@ + ip@) + ":"@) + dec_nat(port as int) =~= "http://"@ + ip@ + ":"@
            + dec_nat(port as int));
    }
    s
}

/// The full address of the one retrieval route under a base address.
pub fn stream_url(base: &str) -> (r: String)
    ensures
        r@ == base@ + "/stream"@,
{
    let mut s = base.to_owned();
    s.append("/stream");
    s
}

} // verus!
