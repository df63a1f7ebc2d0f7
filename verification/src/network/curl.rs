use vstd::prelude::*;

use crate::text::{char_vec, decimal, owned, push_decimal, string_of_range, trim, trim_range};

verus! {

/// What a test request through a strategy showed.
#[derive(Debug, Clone)]
pub enum CurlVerdict {
    /// The site answered as it should.
    Available,
    /// The request failed or was tampered with; `detail` says how.
    Unavailable { detail: String },
}

/// The decimal numeral of `n`, with a minus sign in front when it is negative.
pub open spec fn signed_decimal(n: int) -> Seq<char> {
    if n < 0 {
        seq!['-'] + decimal((-n) as nat)
    } else {
        decimal(n as nat)
    }
}

/// How a curl run that ended with `exit_code` and wrote `stderr` failed.
pub open spec fn curl_failure_detail(exit_code: int, stderr: Seq<char>) -> Seq<char> {
    "curl exit code "@ + signed_decimal(exit_code) + ": "@ + trim(stderr)
}

/// The verdict on a curl run that ended with `exit_code` and wrote `stderr`: the site is
/// available exactly when curl succeeded; otherwise the exit code and curl's trimmed
/// complaint say how it failed.
pub fn interpret_curl_result(exit_code: i32, stderr: &str) -> (v: CurlVerdict)
    ensures
        exit_code == 0 ==> v is Available,
        exit_code != 0 ==> (v matches CurlVerdict::Unavailable { detail } && detail@
            == curl_failure_detail(exit_code as int, stderr@)),
{
    if exit_code == 0 {
        return CurlVerdict::Available;
    }
    let mut detail = owned("curl exit code ");
    let ghost head = detail@;
    if exit_code < 0 {
        detail.push('-');
        let magnitude: i64 = -(exit_code as i64);
        push_decimal(&mut detail, magnitude as u64);
        assert(detail@ =~= head + signed_decimal(exit_code as int));
    } else {
        push_decimal(&mut detail, exit_code as u64);
        assert(detail@ =~= head + signed_decimal(exit_code as int));
    }
    detail.append(": ");
    let chars = char_vec(stderr);
    let (a, b) = trim_range(&chars, 0, chars.len());
    proof {
        assert(chars@.subrange(0, chars@.len() as int) =~= stderr@);
    }
    let rest = string_of_range(&chars, a, b);
    detail.append(rest.as_str());
    assert(detail@ =~= curl_failure_detail(exit_code as int, stderr@));
    CurlVerdict::Unavailable { detail }
}

} // verus!
