//! Scripts that run inside the plugin.

use vstd::prelude::*;
use vstd::utf8::{decode_utf8, valid_utf8};

verus! {

/// The message of `std::string::FromUtf8Error` for bytes that are not valid UTF-8.
pub uninterp spec fn utf8_fault(bytes: Seq<u8>) -> Seq<char>;

/// Calls `String::from_utf8`. Trusted: valid UTF-8 is decoded, everything else is refused, with a
/// message that depends on the bytes alone.
#[verifier::external_body]
fn string_from_utf8(bytes: Vec<u8>) -> (r: Result<String, String>)
    ensures
        match r {
            Ok(text) => valid_utf8(bytes@) && text@ == decode_utf8(bytes@),
            Err(message) => !valid_utf8(bytes@) && message@ == utf8_fault(bytes@),
        },
{
    String::from_utf8(bytes).map_err(|err| err.to_string())
}

/// The answer of a compiler: bytecode, or why there is none.
pub open spec fn answer_of(r: Result<Vec<u8>, String>) -> Result<Seq<u8>, Seq<char>> {
    match r {
        Ok(bytecode) => Ok(bytecode@),
        Err(message) => Err(message@),
    }
}

/// `javy_plugin_api::compile_src` may answer this script with this. One script may have several
/// answers: which one comes depends on how the runtime of the process was set up, and on whether it
/// was.
pub uninterp spec fn javy_may_answer(source: Seq<char>, answer: Result<Seq<u8>, Seq<char>>) -> bool;

/// Calls `javy_plugin_api::compile_src`. Trusted: what comes back is an answer to this script. What
/// it says is left open.
#[verifier::external_body]
fn javy_compile(source: &str) -> (r: Result<Vec<u8>, String>)
    ensures
        javy_may_answer(source@, answer_of(r)),
{
    javy_plugin_api::compile_src(source.as_bytes()).map_err(|err| err.to_string())
}

/// A script that reports what it throws.
pub open spec fn guarded(source: Seq<char>) -> Seq<char> {
    "try {\n"@ + source
        + "\n} catch(e) { console.error(e.message + '\\n' + (e.stack || '')); }"@
}

/// Wraps a script so that what it throws is reported on the console.
pub fn wrap_source(source: &str) -> (r: String)
    ensures
        r@ == guarded(source@),
{
    String::from_str("try {\n").concat(source).concat(
        "\n} catch(e) { console.error(e.message + '\\n' + (e.stack || '')); }",
    )
}

/// The script in the bytes, wrapped; or why there is none.
pub fn prepare_source(src: Vec<u8>) -> (r: Result<String, String>)
    ensures
        match r {
            Ok(script) => valid_utf8(src@) && script@ == guarded(decode_utf8(src@)),
            Err(message) => !valid_utf8(src@) && message@ == utf8_fault(src@),
        },
{
    match string_from_utf8(src) {
        Ok(source) => Ok(wrap_source(source.as_str())),
        Err(message) => Err(message),
    }
}

/// Compiles a script to bytecode. Bytes that are no text are refused before they reach the
/// compiler. A text is wrapped, and the answer of the compiler to it is passed on.
pub fn compile_src(src: Vec<u8>) -> (r: Result<Vec<u8>, String>)
    ensures
        if valid_utf8(src@) {
            javy_may_answer(guarded(decode_utf8(src@)), answer_of(r))
        } else {
            r is Err && r->Err_0@ == utf8_fault(src@)
        },
{
    match prepare_source(src) {
        Ok(script) => javy_compile(script.as_str()),
        Err(message) => Err(message),
    }
}

/// A script stands in its wrapping whole and unchanged, on lines of its own, and what stands around it
/// does not depend on it.
pub proof fn lemma_script_stands_in_its_wrapping(source: Seq<char>, other: Seq<char>)
    ensures
        ({
            let wrapped = guarded(source);
            &&& wrapped.len() >= source.len() + 8
            &&& wrapped.take(6) == seq!['t', 'r', 'y', ' ', '{', '\n']
            &&& wrapped.subrange(6, 6int + source.len()) == source
            &&& wrapped[6int + source.len()] == '\n' && wrapped[7int + source.len()] == '}'
            &&& wrapped.skip(6int + source.len()) == guarded(other).skip(6int + other.len())
        }),
{
    reveal_strlit("try {\n");
    reveal_strlit("\n} catch(e) { console.error(e.message + '\\n' + (e.stack || '')); }");
    assert(guarded(source).take(6) =~= seq!['t', 'r', 'y', ' ', '{', '\n']);
    assert(guarded(source).subrange(6, 6int + source.len()) =~= source);
    assert(guarded(source).skip(6int + source.len()) =~= guarded(other).skip(6int + other.len()));
}

} // verus!
