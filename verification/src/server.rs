//! The host side: the request/response state machine. Decoding, dispatch
//! and encoding are verified here; reading the environment, writing it, and
//! delivering text are side effects the caller performs, described by an
//! `Effect` value and fed back in as a plain snapshot.

use vstd::prelude::*;

use crate::codec::{req_json, request_from_json, resp_json, response_to_json};
use crate::crypto::{decrypt, encrypt, opens_to};
use crate::protocol::{pairs_view, Request, RequestV, Response, ResponseV};
use crate::text::{chars_of, string_from_chars, utf8_of_string, utf8_to_string};
use crate::ChannelError;

use vstd::utf8::{decode_utf8, encode_utf8, valid_utf8};

verus! {

/// A side effect the dispatcher asks its caller to perform after the
/// response is built.
#[derive(Debug, Clone, PartialEq, Eq)]
pub enum Effect {
    /// Set `name` to `value` in the host process's environment.
    SetVar { name: String, value: String },
    /// Hand `data` to the text sink, labelled with `key`.
    Deliver { key: String, data: String },
}

/// An effect with each text field as its characters.
#[verifier::ext_equal]
pub enum EffectV {
    SetVar { name: Seq<char>, value: Seq<char> },
    Deliver { key: Seq<char>, data: Seq<char> },
}

impl View for Effect {
    type V = EffectV;

    open spec fn view(&self) -> EffectV {
        match self {
            Effect::SetVar { name, value } => EffectV::SetVar { name: name@, value: value@ },
            Effect::Deliver { key, data } => EffectV::Deliver { key: key@, data: data@ },
        }
    }
}

/// The first value bound to `name` in a snapshot, scanning front to back.
pub open spec fn env_lookup(env: Seq<(Seq<char>, Seq<char>)>, name: Seq<char>) -> Option<
    Seq<char>,
>
    decreases env.len(),
{
    if env.len() == 0 {
        None
    } else if env[0].0 == name {
        Some(env[0].1)
    } else {
        env_lookup(env.drop_first(), name)
    }
}

/// The error text for a variable that is not set.
pub open spec fn missing_msg(name: Seq<char>) -> Seq<char> {
    "Environment variable '"@ + name + "' not found"@
}

/// The confirmation text after a variable is set.
pub open spec fn set_msg(name: Seq<char>) -> Seq<char> {
    "Environment variable '"@ + name + "' set"@
}

/// The confirmation text after data is delivered.
pub open spec fn recv_msg(key: Seq<char>) -> Seq<char> {
    "Data received for key '"@ + key + "'"@
}

/// What the dispatcher answers, and what it asks its caller to do, for each
/// request against an environment snapshot.
pub open spec fn handle_model(m: RequestV, env: Seq<(Seq<char>, Seq<char>)>) -> (ResponseV, Option<
    EffectV,
>) {
    match m {
        RequestV::Ping => (ResponseV::Pong, None),
        RequestV::GetEnv { name } => match env_lookup(env, name) {
            Some(v) => (ResponseV::Success { data: Some(v) }, None),
            None => (ResponseV::Error { message: missing_msg(name) }, None),
        },
        RequestV::GetAllEnv => (ResponseV::EnvVars { vars: env }, None),
        RequestV::SetEnv { name, value } => (
            ResponseV::Success { data: Some(set_msg(name)) },
            Some(EffectV::SetVar { name, value }),
        ),
        RequestV::SendData { key, data } => (
            ResponseV::Success { data: Some(recv_msg(key)) },
            Some(EffectV::Deliver { key, data }),
        ),
    }
}

/// Builds `pre + mid + post` as one string.
fn build_msg(pre: &str, mid: &String, post: &str) -> (r: String)
    ensures
        r@ == pre@ + mid@ + post@,
{
    let mut out = chars_of(pre);
    let mut m = chars_of(mid.as_str());
    out.append(&mut m);
    let mut p = chars_of(post);
    out.append(&mut p);
    string_from_chars(&out)
}

/// Looks `name` up in a snapshot, front to back.
pub fn env_get(env: &Vec<(String, String)>, name: &String) -> (r: Option<String>)
    ensures
        match r {
            Some(v) => env_lookup(pairs_view(env@), name@) == Some(v@),
            None => env_lookup(pairs_view(env@), name@) is None,
        },
{
    let ghost pv = pairs_view(env@);
    let mut i: usize = 0;
    proof {
        assert(pv.skip(0) =~= pv);
    }
    while i < env.len()
        invariant
            i <= env@.len(),
            pv == pairs_view(env@),
            pv.len() == env@.len(),
            env_lookup(pv, name@) == env_lookup(pv.skip(i as int), name@),
        decreases env@.len() - i,
    {
        let p = &env[i];
        proof {
            assert(pv.skip(i as int)[0] == pv[i as int]);
            assert(pv[i as int] == (env@[i as int].0@, env@[i as int].1@));
            assert(pv.skip(i as int).drop_first() =~= pv.skip(i as int + 1));
        }
        if p.0 == *name {
            return Some(p.1.clone());
        }
        i = i + 1;
    }
    proof {
        assert(pv.skip(env@.len() as int) =~= Seq::<(Seq<char>, Seq<char>)>::empty());
    }
    None
}

/// Sets `name` to `value` in a snapshot: replaces the first binding, or
/// appends one. Mirrors what applying `Effect::SetVar` to the process
/// environment does to its snapshot.
pub fn env_set(env: Vec<(String, String)>, name: String, value: String) -> (r: Vec<
    (String, String),
>)
    ensures
        env_lookup(pairs_view(r@), name@) == Some(value@),
        forall|n: Seq<char>|
            n != name@ ==> #[trigger] env_lookup(pairs_view(r@), n) == env_lookup(
                pairs_view(env@),
                n,
            ),
{
    let ghost gname = name@;
    let ghost gvalue = value@;
    let mut out = env;
    let mut i: usize = 0;
    while i < out.len()
        invariant
            i <= out@.len(),
            out@ == env@,
            gname == name@,
            gvalue == value@,
            forall|j: int| 0 <= j < i ==> pairs_view(out@)[j].0 != gname,
        decreases out@.len() - i,
    {
        proof {
            assert(pairs_view(out@)[i as int] == (out@[i as int].0@, out@[i as int].1@));
        }
        if out[i].0 == name {
            let ghost before = out@;
            out.set(i, (name, value));
            proof {
                let pv = pairs_view(out@);
                let old_pv = pairs_view(before);
                assert(pv[i as int] == (out@[i as int].0@, out@[i as int].1@));
                assert(pv[i as int].0 == gname && pv[i as int].1 == gvalue);
                assert forall|j: int| 0 <= j < i implies pv[j].0 != gname by {
                    assert(out@[j] == before[j]);
                    assert(pv[j] == pairs_view(before)[j]);
                }
                lemma_env_lookup_found(pv, gname, i as int);
                assert(pv =~= old_pv.update(i as int, (gname, gvalue)));
                assert(old_pv[i as int].0 == gname);
                assert forall|n: Seq<char>| n != gname implies #[trigger] env_lookup(pv, n)
                    == env_lookup(old_pv, n) by {
                    lemma_lookup_update(old_pv, i as int, (gname, gvalue), n);
                }
            }
            return out;
        }
        i = i + 1;
    }
    let ghost before = out@;
    let ghost n = out@.len() as int;
    out.push((name, value));
    proof {
        let pv = pairs_view(out@);
        let old_pv = pairs_view(before);
        assert(pv[n] == (out@[n].0@, out@[n].1@));
        assert(pv[n].0 == gname && pv[n].1 == gvalue);
        assert forall|j: int| 0 <= j < n implies pv[j].0 != gname by {
            assert(out@[j] == before[j]);
            assert(pv[j] == pairs_view(before)[j]);
            assert(pairs_view(before)[j] == (before[j].0@, before[j].1@));
        }
        lemma_env_lookup_found(pv, gname, n);
        assert(pv =~= old_pv.push((gname, gvalue)));
        assert forall|nm: Seq<char>| nm != gname implies #[trigger] env_lookup(pv, nm)
            == env_lookup(old_pv, nm) by {
            lemma_lookup_push(old_pv, (gname, gvalue), nm);
        }
    }
    out
}

/// A lookup finds the first index bound to `name`.
proof fn lemma_env_lookup_found(env: Seq<(Seq<char>, Seq<char>)>, name: Seq<char>, i: int)
    requires
        0 <= i < env.len(),
        env[i].0 == name,
        forall|j: int| 0 <= j < i ==> env[j].0 != name,
    ensures
        env_lookup(env, name) == Some(env[i].1),
    decreases i,
{
    if i == 0 {
    } else {
        assert(env[0].0 != name);
        assert(env.drop_first()[i - 1] == env[i]);
        lemma_env_lookup_found(env.drop_first(), name, i - 1);
    }
}

/// Replacing the binding at a matching index leaves every other name's
/// lookup unchanged.
proof fn lemma_lookup_update(
    env: Seq<(Seq<char>, Seq<char>)>,
    i: int,
    pv: (Seq<char>, Seq<char>),
    n: Seq<char>,
)
    requires
        0 <= i < env.len(),
        env[i].0 == pv.0,
        n != pv.0,
    ensures
        env_lookup(env.update(i, pv), n) == env_lookup(env, n),
    decreases i,
{
    let e2 = env.update(i, pv);
    if i == 0 {
        assert(e2[0].0 == pv.0 && env[0].0 == pv.0);
        assert(e2.drop_first() =~= env.drop_first());
    } else {
        assert(e2[0] == env[0]);
        if env[0].0 == n {
        } else {
            assert(e2.drop_first() =~= env.drop_first().update(i - 1, pv));
            assert(env.drop_first()[i - 1] == env[i]);
            lemma_lookup_update(env.drop_first(), i - 1, pv, n);
        }
    }
}

/// Appending a binding for another name leaves a lookup unchanged.
proof fn lemma_lookup_push(env: Seq<(Seq<char>, Seq<char>)>, pv: (Seq<char>, Seq<char>), n: Seq<
    char,
>)
    requires
        n != pv.0,
    ensures
        env_lookup(env.push(pv), n) == env_lookup(env, n),
    decreases env.len(),
{
    let e2 = env.push(pv);
    if env.len() == 0 {
        assert(e2[0].0 == pv.0);
        assert(e2.drop_first() =~= Seq::<(Seq<char>, Seq<char>)>::empty());
    } else {
        assert(e2[0] == env[0]);
        if env[0].0 == n {
        } else {
            assert(e2.drop_first() =~= env.drop_first().push(pv));
            lemma_lookup_push(env.drop_first(), pv, n);
        }
    }
}

/// The host of the secure channel: holds the shared key and turns sealed
/// requests into sealed responses.
pub struct Server {
    /// The 256-bit pre-shared key.
    pub key: [u8; 32],
}

impl Server {
    /// A server for the given pre-shared key. Loading or generating the key
    /// is the caller's concern.
    pub fn new(key: [u8; 32]) -> (r: Server)
        ensures
            r.key@ == key@,
    {
        Server { key }
    }

    /// Maps a decoded request to its response and the side effect owed, per
    /// the dispatch table, against the given environment snapshot.
    pub fn handle_request(&self, request: Request, env: &Vec<(String, String)>) -> (r: (
        Response,
        Option<Effect>,
    ))
        ensures
            r.0@ == handle_model(request@, pairs_view(env@)).0,
            match r.1 {
                Some(e) => handle_model(request@, pairs_view(env@)).1 == Some(e@),
                None => handle_model(request@, pairs_view(env@)).1 is None,
            },
    {
        match request {
            Request::GetEnv { name } => {
                match env_get(env, &name) {
                    Some(value) => (Response::success(Some(value)), None),
                    None => {
                        let message = build_msg("Environment variable '", &name, "' not found");
                        (Response::error(message), None)
                    },
                }
            },
            Request::GetAllEnv => {
                let mut vars: Vec<(String, String)> = Vec::new();
                let mut i: usize = 0;
                while i < env.len()
                    invariant
                        i <= env@.len(),
                        vars@.len() == i,
                        forall|j: int| 0 <= j < i ==> vars@[j] == env@[j],
                    decreases env@.len() - i,
                {
                    let p = &env[i];
                    vars.push((p.0.clone(), p.1.clone()));
                    proof {
                        assert(vars@[i as int] == env@[i as int]);
                    }
                    i = i + 1;
                }
                proof {
                    assert(vars@ =~= env@);
                }
                (Response::env_vars(vars), None)
            },
            Request::SetEnv { name, value } => {
                let message = build_msg("Environment variable '", &name, "' set");
                (
                    Response::success(Some(message)),
                    Some(Effect::SetVar { name, value }),
                )
            },
            Request::SendData { key, data } => {
                let message = build_msg("Data received for key '", &key, "'");
                (
                    Response::success(Some(message)),
                    Some(Effect::Deliver { key, data }),
                )
            },
            Request::Ping => (Response::Pong, None),
        }
    }

    /// One full exchange on the host: opens the sealed request, decodes it,
    /// dispatches it against the snapshot, and seals the response. The side
    /// effect owed, if any, is returned for the caller to perform.
    ///
    /// Failure is classified exactly: an envelope shorter than a nonce or a
    /// plaintext that is not text is `MalformedInput`; an envelope nothing
    /// seals to under this key is `AuthenticationFailure`; text that is no
    /// known request is `ProtocolError`.
    #[verifier::rlimit(100)]
    #[verifier::spinoff_prover]
    pub fn process_encrypted_request(&self, encrypted_data: Vec<u8>, env: &Vec<(String, String)>)
        -> (r: (Result<Vec<u8>, ChannelError>, Option<Effect>))
        ensures
            r.0 matches Ok(out) ==> exists|m: RequestV|
                {
                    &&& opens_to(self.key@, encrypted_data@, encode_utf8(#[trigger] req_json(m)))
                    &&& (match r.1 {
                        Some(e) => handle_model(m, pairs_view(env@)).1 == Some(e@),
                        None => handle_model(m, pairs_view(env@)).1 is None,
                    })
                    &&& opens_to(
                        self.key@,
                        out@,
                        encode_utf8(resp_json(handle_model(m, pairs_view(env@)).0)),
                    )
                },
            forall|m: RequestV|
                (opens_to(self.key@, encrypted_data@, encode_utf8(#[trigger] req_json(m)))
                    && encode_utf8(resp_json(handle_model(m, pairs_view(env@)).0)).len()
                    < 0x1_0000_0000) ==> r.0 is Ok,
            r.0 matches Err(e) ==> r.1 is None && (if encrypted_data@.len() < 12 {
                e == ChannelError::MalformedInput
            } else if (forall|p: Seq<u8>| !opens_to(self.key@, encrypted_data@, p)) {
                e == ChannelError::AuthenticationFailure
            } else {
                e == ChannelError::MalformedInput || e == ChannelError::ProtocolError
                    || e == ChannelError::MessageTooLarge
            }),
            r.0 matches Err(e) && e == ChannelError::ProtocolError ==> exists|p: Seq<u8>|
                #[trigger] opens_to(self.key@, encrypted_data@, p) && valid_utf8(p) && (forall|
                    m: RequestV,
                |
                    decode_utf8(p) != req_json(m)),
    {
        let plain = match decrypt(encrypted_data.as_slice(), &self.key) {
            Ok(p) => p,
            Err(e) => {
                return (Err(e), None);
            },
        };
        let text = match utf8_to_string(plain) {
            Some(t) => t,
            None => {
                proof {
                    assert forall|m: RequestV|
                        !opens_to(
                            self.key@,
                            encrypted_data@,
                            encode_utf8(#[trigger] req_json(m)),
                        ) by {
                        vstd::utf8::encode_utf8_valid_utf8(req_json(m));
                    }
                }
                return (Err(ChannelError::MalformedInput), None);
            },
        };
        let request = match request_from_json(text.as_str()) {
            Some(q) => q,
            None => {
                proof {
                    assert forall|m: RequestV|
                        !opens_to(
                            self.key@,
                            encrypted_data@,
                            encode_utf8(#[trigger] req_json(m)),
                        ) by {
                        if opens_to(self.key@, encrypted_data@, encode_utf8(req_json(m))) {
                            vstd::utf8::encode_utf8_decode_utf8(req_json(m));
                            vstd::utf8::encode_utf8_decode_utf8(text@);
                        }
                    }
                }
                return (Err(ChannelError::ProtocolError), None);
            },
        };
        let (resp, eff) = self.handle_request(request, env);
        let json = response_to_json(&resp);
        let bytes = utf8_of_string(&json);
        if bytes.len() as u64 >= 0x1_0000_0000u64 {
            proof {
                assert forall|m: RequestV|
                    opens_to(self.key@, encrypted_data@, encode_utf8(#[trigger] req_json(m)))
                        implies encode_utf8(resp_json(handle_model(m, pairs_view(env@)).0)).len()
                        >= 0x1_0000_0000 by {
                    vstd::utf8::encode_utf8_decode_utf8(req_json(m));
                    vstd::utf8::encode_utf8_decode_utf8(text@);
                    crate::codec::lemma_req_json_injective(m, request@);
                }
            }
            return (Err(ChannelError::MessageTooLarge), None);
        }
        match encrypt(bytes.as_slice(), &self.key) {
            Ok(out) => {
                proof {
                    let m = request@;
                    assert(opens_to(self.key@, encrypted_data@, encode_utf8(req_json(m))));
                    assert(opens_to(
                        self.key@,
                        out@,
                        encode_utf8(resp_json(handle_model(m, pairs_view(env@)).0)),
                    ));
                }
                (Ok(out), eff)
            },
            Err(e) => (Err(e), None),
        }
    }
}

/// The endpoint name of a local listener: a pipe name on systems with
/// message-mode named pipes, a socket path elsewhere. Listening itself is
/// transport work done by the caller.
pub struct NamedPipeServer {
    /// The pipe name or socket path to listen on.
    pub pipe_name: String,
}

impl NamedPipeServer {
    /// A listener description for the given endpoint name.
    pub fn new(pipe_name: String) -> (r: NamedPipeServer)
        ensures
            r.pipe_name@ == pipe_name@,
    {
        NamedPipeServer { pipe_name }
    }
}

} // verus!
