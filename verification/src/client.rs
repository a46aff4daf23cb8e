//! The client side's compute halves: sealing a request for the wire, and
//! opening and decoding a sealed response. Moving bytes over a transport is
//! the caller's concern.

use vstd::prelude::*;

use crate::codec::{req_json, request_to_json, resp_json, response_from_json};
use crate::crypto::{decrypt, encrypt, opens_to};
use crate::protocol::{Request, Response, ResponseV};
use crate::text::{utf8_of_string, utf8_to_string};
use crate::ChannelError;

use vstd::utf8::{decode_utf8, encode_utf8, valid_utf8};

verus! {

/// Encodes `request` and seals it under `key`: what a client puts on the
/// wire. Fails only when the encoded text cannot fit an envelope.
pub fn seal_request(request: &Request, key: &[u8; 32]) -> (r: Result<Vec<u8>, ChannelError>)
    ensures
        r matches Ok(out) ==> opens_to(key@, out@, encode_utf8(req_json(request@))),
        encode_utf8(req_json(request@)).len() < 0x1_0000_0000 ==> r is Ok,
        r matches Err(e) ==> e == ChannelError::MessageTooLarge,
{
    let json = request_to_json(request);
    let bytes = utf8_of_string(&json);
    if bytes.len() as u64 >= 0x1_0000_0000u64 {
        return Err(ChannelError::MessageTooLarge);
    }
    match encrypt(bytes.as_slice(), key) {
        Ok(out) => Ok(out),
        Err(e) => Err(e),
    }
}

/// Opens a sealed response under `key` and decodes it: the inverse of the
/// host's sealing. `Ok` exactly when the bytes are an envelope sealed from
/// the text of some response under this key, and then returns that one
/// response.
#[verifier::rlimit(100)]
pub fn open_response(bytes: &[u8], key: &[u8; 32]) -> (r: Result<Response, ChannelError>)
    ensures
        r matches Ok(resp) ==> opens_to(key@, bytes@, encode_utf8(resp_json(resp@))),
        forall|m: ResponseV|
            opens_to(key@, bytes@, encode_utf8(#[trigger] resp_json(m))) ==> (r matches Ok(resp)
                && resp@ == m),
        r matches Err(e) ==> (if bytes@.len() < 12 {
            e == ChannelError::MalformedInput
        } else if (forall|p: Seq<u8>| !opens_to(key@, bytes@, p)) {
            e == ChannelError::AuthenticationFailure
        } else {
            e == ChannelError::MalformedInput || e == ChannelError::ProtocolError
        }),
{
    let plain = match decrypt(bytes, key) {
        Ok(p) => p,
        Err(e) => {
            return Err(e);
        },
    };
    let text = match utf8_to_string(plain) {
        Some(t) => t,
        None => {
            proof {
                assert forall|m: ResponseV|
                    !opens_to(key@, bytes@, encode_utf8(#[trigger] resp_json(m))) by {
                    vstd::utf8::encode_utf8_valid_utf8(resp_json(m));
                }
            }
            return Err(ChannelError::MalformedInput);
        },
    };
    match response_from_json(text.as_str()) {
        Some(resp) => {
            proof {
                assert forall|m: ResponseV|
                    opens_to(key@, bytes@, encode_utf8(#[trigger] resp_json(m))) implies resp@
                    == m by {
                    vstd::utf8::encode_utf8_decode_utf8(resp_json(m));
                    vstd::utf8::encode_utf8_decode_utf8(text@);
                    crate::codec::lemma_resp_json_injective(resp@, m);
                }
            }
            Ok(resp)
        },
        None => {
            proof {
                assert forall|m: ResponseV|
                    !opens_to(key@, bytes@, encode_utf8(#[trigger] resp_json(m))) by {
                    if opens_to(key@, bytes@, encode_utf8(resp_json(m))) {
                        vstd::utf8::encode_utf8_decode_utf8(resp_json(m));
                        vstd::utf8::encode_utf8_decode_utf8(text@);
                    }
                }
            }
            Err(ChannelError::ProtocolError)
        },
    }
}

} // verus!
