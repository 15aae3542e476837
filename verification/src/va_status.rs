//! What a call into the VA library came to.

use crate::text::{signed_decimal, signed_text};
use vstd::prelude::*;

verus! {

/// The status of a call that succeeded.
pub const VA_STATUS_SUCCESS: i32 = 0;

/// How the failure of a call is reported.
pub open spec fn va_failure(action: Seq<char>, message: Seq<char>, status: int) -> Seq<char> {
    action + " failed: "@ + message + " ("@ + signed_text(status) + ")"@
}

/// Turns the status of a call into a result. `message` is what the VA library says of the status.
pub fn check_va_status(action: &str, status: i32, message: &str) -> (r: Result<(), String>)
    ensures
        match r {
            Ok(()) => status == VA_STATUS_SUCCESS,
            Err(text) => {
                &&& status != VA_STATUS_SUCCESS
                &&& text@ == va_failure(action@, message@, status as int)
            },
        },
{
    if status == VA_STATUS_SUCCESS {
        return Ok(());
    }
    let mut text = String::from_str(action);
    text.append(" failed: ");
    text.append(message);
    text.append(" (");
    text.append(signed_decimal(status).as_str());
    text.append(")");
    Err(text)
}

/// A failure is reported with the action first, then what the library says of it, and last the status in
/// brackets; and no status but zero is a success.
pub proof fn lemma_failure_names_action_and_status(
    action: Seq<char>,
    message: Seq<char>,
    status: int,
)
    ensures
        ({
            let text = va_failure(action, message, status);
            let said = action.len() as int + 9;
            let number = said + message.len() + 2;
            &&& text.take(action.len() as int) == action
            &&& text.subrange(said, said + message.len()) == message
            &&& text.subrange(number, text.len() - 1) == signed_text(status)
            &&& text.last() == ')' && text[number - 1] == '('
        }),
        VA_STATUS_SUCCESS == 0,
{
    reveal_strlit(" failed: ");
    reveal_strlit(" (");
    reveal_strlit(")");
    let text = va_failure(action, message, status);
    let said = action.len() as int + 9;
    let number = said + message.len() + 2;
    assert(text.take(action.len() as int) =~= action);
    assert(text.subrange(said, said + message.len()) =~= message);
    assert(text.subrange(number, text.len() - 1) =~= signed_text(status));
}

} // verus!
