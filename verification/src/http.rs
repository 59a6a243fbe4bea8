//! How the service reads the answer of another service to an HTTP request.

use vstd::prelude::*;

use crate::decimal::{decimal_string, decimal_text, lemma_decimal_text_parses_back, spec_parse_u128};
use crate::models::GenericError;

verus! {

/// A success status: 200 to 299.
pub open spec fn is_success_status(status: u16) -> bool {
    200 <= status && status < 300
}

/// The text logged when a call to `url` answers with `status`.
pub open spec fn failure_log(url: Seq<char>, status: u16) -> Seq<char> {
    "Error while calling "@ + url + " | Status Code : "@ + decimal_text(status as nat)
}

/// Sending of requests to other services.
#[derive(Clone, Debug, PartialEq, Eq, Structural)]
pub struct HttpRequest {}

impl HttpRequest {
    /// What a call to `url` that answered with `status` amounts to: success
    /// for a 2xx status (the caller then reads the body), otherwise an error
    /// that carries the status and a log line naming the url and the status.
    pub fn check_status(url: &String, status: u16) -> (res: Result<(), GenericError>)
        ensures
            res is Ok <==> is_success_status(status),
            res is Ok <==> 200 <= status <= 299,
            res matches Err(e) ==> {
                &&& e.display_msg@ == "Error"@
                &&& e.error_code == status
                &&& e.log_msg@ == failure_log(url@, status)
            },
    {
        if 200 <= status && status < 300 {
            Ok(())
        } else {
            let mut log_msg = String::from_str("Error while calling ");
            log_msg.append(url.as_str());
            log_msg.append(" | Status Code : ");
            let code = decimal_string(status as u64);
            log_msg.append(code.as_str());
            Err(
                GenericError {
                    display_msg: String::from_str("Error"),
                    error_code: status,
                    log_msg,
                },
            )
        }
    }
}

/// Every 2xx status, and no other, is a success.
pub proof fn lemma_success_is_2xx(status: u16)
    ensures
        is_success_status(status) <==> 200 <= status <= 299,
{
}

/// The logged line of a failed call starts with `Error while calling `,
/// names the url, and ends with the status code in decimal, which reads back
/// as the status.
pub proof fn lemma_failure_log_names_call(url: Seq<char>, status: u16)
    ensures
        failure_log(url, status).take(20) == "Error while calling "@,
        failure_log(url, status).subrange(20, 20 + url.len() as int) == url,
        failure_log(url, status).subrange(20 + url.len() as int, 37 + url.len() as int) == " | Status Code : "@,
        spec_parse_u128(failure_log(url, status).skip(37 + url.len() as int)) == Some(status as u128),
{
    reveal_strlit("Error while calling ");
    reveal_strlit(" | Status Code : ");
    let log = failure_log(url, status);
    let head = "Error while calling "@;
    let mid = " | Status Code : "@;
    let code = decimal_text(status as nat);
    assert(log == head + url + mid + code);
    assert(log.take(20) =~= head);
    assert(log.subrange(20, 20 + url.len() as int) =~= url);
    assert(log.subrange(20 + url.len() as int, 37 + url.len() as int) =~= mid);
    assert(log.skip(37 + url.len() as int) =~= code);
    lemma_decimal_text_parses_back(status as u128);
}

} // verus!
