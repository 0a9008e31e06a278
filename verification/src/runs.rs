//! Requests for traced runs.
use vstd::prelude::*;

use crate::server::Refusal;
use crate::trace;
use crate::trace::Engine;
use crate::trace::InputSpec;

verus! {

/// A request for a traced run.
pub struct RunRequest {
    pub engine: String,
    pub stdin: Option<String>,
    pub args: Vec<String>,
    pub input_file: Option<String>,
}

/// The bytes that a text stands for in Base64, where it is Base64: what `decode` of the `base64`
/// crate makes of the text with the standard engine.
pub uninterp spec fn base64_bytes(text: Seq<char>) -> Option<Seq<u8>>;

/// The contents of bytes, where there are any.
pub open spec fn bytes_option(bytes: Option<Vec<u8>>) -> Option<Seq<u8>> {
    match bytes {
        Some(bytes) => Some(bytes@),
        None => None,
    }
}

/// `Engine::decode` of the `base64` crate, with the engine `BASE64_STANDARD`. The contract claims
/// that the bytes, and whether there are any, depend on the text alone.
#[verifier::external_body]
fn decode_base64(text: &str) -> (r: Option<Vec<u8>>)
    ensures
        bytes_option(r) == base64_bytes(text@),
{
    base64::Engine::decode(&base64::prelude::BASE64_STANDARD, text).ok()
}

/// The run that was asked for, or why it is refused. `decoded` is what the input file was decoded
/// to: nothing where there is none, and `Some(None)` where it could not be decoded.
pub fn accept_run(request: RunRequest, decoded: Option<Option<Vec<u8>>>) -> (r: Result<
    (Engine, InputSpec),
    Refusal,
>)
    ensures
        match r {
            Ok((engine, input)) => trace::engine_named(request.engine@) == Some(engine) && decoded
                != Some(None::<Vec<u8>>) && input.stdin == request.stdin && input.args
                == request.args && input.input_file == match decoded {
                Some(bytes) => bytes,
                None => None,
            },
            Err(refusal) => if trace::engine_named(request.engine@) is None {
                refusal == Refusal::UnknownEngine
            } else {
                refusal == Refusal::NotBase64 && decoded == Some(None::<Vec<u8>>)
            },
        },
{
    let engine = match Engine::parse(request.engine.as_str()) {
        Some(engine) => engine,
        None => {
            return Err(Refusal::UnknownEngine);
        },
    };
    let input_file = match decoded {
        Some(Some(bytes)) => Some(bytes),
        Some(None) => {
            return Err(Refusal::NotBase64);
        },
        None => None,
    };
    Ok((engine, InputSpec { stdin: request.stdin, args: request.args, input_file }))
}

/// The run that was asked for, or why it is refused: first for its engine, then for its input file.
pub fn prepare_run(request: RunRequest) -> (r: Result<(Engine, InputSpec), Refusal>)
    ensures
        match r {
            Ok((engine, input)) => trace::engine_named(request.engine@) == Some(engine)
                && input.stdin == request.stdin && input.args == request.args
                && match request.input_file {
                Some(text) => base64_bytes(text@) is Some && bytes_option(input.input_file)
                    == base64_bytes(text@),
                None => input.input_file is None,
            },
            Err(refusal) => if trace::engine_named(request.engine@) is None {
                refusal == Refusal::UnknownEngine
            } else {
                refusal == Refusal::NotBase64 && request.input_file is Some && base64_bytes(
                    request.input_file->0@,
                ) is None
            },
        },
{
    let decoded = match &request.input_file {
        Some(text) => Some(decode_base64(text.as_str())),
        None => None,
    };
    accept_run(request, decoded)
}

} // verus!
