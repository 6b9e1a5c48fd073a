# wasi-experimental-http-wasmer

Outbound HTTP for WebAssembly guests under Wasmer, with the host's decisions
verified in Verus.

A guest asks its host to send a request, gets a status code and a handle, and
reads the response through that handle: header by header, all headers as one
string, or the body in portions of its choice. The host keeps the open
responses, checks each URL against a list of allowed hosts, and answers every
call with a code: 0, or the number of an error.

- `src/` is the library. Verus proves the contracts of its functions, but for
  those few that call into other crates (see below).
  - `error`: the errors and their codes.
  - `memory`: reads from and writes to the guest's linear memory.
  - `text`: UTF-8, lines, control characters.
  - `headers`: header maps and their text form, one `name:value` line each.
  - `access`: which URLs a guest may send requests to.
  - `state`: the open responses.
  - `host_calls`: the calls about open responses.
  - `request`: from a guest's request to what is sent, and from the reply to an
    open response.
  - `context`: the extension object.
- `tests/` runs the library together with the crates it calls.
- `app/` binds the library to Wasmer and sends the requests.

What the library takes on trust are the functions marked
`#[verifier::external_body]`: each hands its arguments to a function of `http`,
`url`, `bytes` or the standard library, and its comment says what is believed of
that function. Public proof functions whose names start with `law_` state what
holds across calls.

The `requires` of a host call leaves out the arguments for which the call has no
meaning, such as a buffer outside of the guest's memory. Beside it stands a
function whose name ends in `_checked`, which takes every argument and gives
`None` for these.
