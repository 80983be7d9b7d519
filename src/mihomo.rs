//! Addresses and answers of the proxy core's HTTP control interface.
use vstd::prelude::*;
use vstd::string::StringExecFns;

verus! {

/// The probe target used when a delay test names none.
pub const DEFAULT_TEST_URL: &'static str = "http://cp.cloudflare.com/generate_204";

/// The decimal digit for `d < 10`.
pub open spec fn digit_char(d: nat) -> char {
    if d == 0 { '0' } else if d == 1 { '1' } else if d == 2 { '2' } else if d == 3 { '3' }
    else if d == 4 { '4' } else if d == 5 { '5' } else if d == 6 { '6' } else if d == 7 { '7' }
    else if d == 8 { '8' } else { '9' }
}

/// Decimal digits of `n`, most significant first, without leading zeros.
pub open spec fn digits(n: nat) -> Seq<char>
    decreases n,
{
    if n < 10 {
        seq![digit_char(n)]
    } else {
        digits(n / 10).push(digit_char(n % 10))
    }
}

/// An integer written in decimal, with a leading `-` when negative.
pub open spec fn int_text(i: int) -> Seq<char> {
    if i < 0 {
        seq!['-'] + digits((-i) as nat)
    } else {
        digits(i as nat)
    }
}

/// Relies on `ToString` through the `Display` impl of `i32`, which writes the value in
/// decimal with a leading `-` when it is negative.
#[verifier::external_body]
fn i32_text(n: i32) -> (r: String)
    ensures
        r@ == int_text(n as int),
{
    n.to_string()
}

/// A client of the proxy core's control interface at one base address.
pub struct MihomoManager {
    mihomo_server: String,
}

impl MihomoManager {
    /// The base address, such as `http://127.0.0.1:9097`.
    pub closed spec fn server(&self) -> Seq<char> {
        self.mihomo_server@
    }

    pub fn new(mihomo_server: String) -> (r: MihomoManager)
        ensures
            r.server() == mihomo_server@,
    {
        MihomoManager { mihomo_server }
    }

    pub fn get_mihomo_server(&self) -> (r: String)
        ensures
            r@ == self.server(),
    {
        self.mihomo_server.clone()
    }

    /// Where the proxies are listed.
    pub fn proxies_url(&self) -> (r: String)
        ensures
            r@ == self.server() + "/proxies"@,
    {
        self.mihomo_server.clone().concat("/proxies")
    }

    /// Where the proxies of the providers are listed.
    pub fn providers_proxies_url(&self) -> (r: String)
        ensures
            r@ == self.server() + "/providers/proxies"@,
    {
        self.mihomo_server.clone().concat("/providers/proxies")
    }

    /// Where the configuration is replaced (`force`) or patched.
    pub fn configs_url(&self, force: bool) -> (r: String)
        ensures
            r@ == self.server() + (if force { "/configs?force=true"@ } else { "/configs"@ }),
    {
        if force {
            self.mihomo_server.clone().concat("/configs?force=true")
        } else {
            self.mihomo_server.clone().concat("/configs")
        }
    }

    /// Where the delay of proxy `name` is measured against `test_url` (by default
    /// `DEFAULT_TEST_URL`) with a timeout in milliseconds.
    pub fn proxy_delay_url(&self, name: &str, test_url: Option<String>, timeout: i32) -> (r: String)
        ensures
            r@ == self.server() + "/proxies/"@ + name@ + "/delay?url="@ + (match test_url {
                Some(u) => u@,
                None => DEFAULT_TEST_URL@,
            }) + "&timeout="@ + int_text(timeout as int),
    {
        let target: String = match test_url {
            Some(u) => u,
            None => DEFAULT_TEST_URL.to_string(),
        };
        let timeout_text = i32_text(timeout);
        self.mihomo_server.clone().concat("/proxies/").concat(name).concat("/delay?url=").concat(
            target.as_str(),
        ).concat("&timeout=").concat(timeout_text.as_str())
    }
}

/// The outcome of a configuration patch from the answer's `code` and `message` fields:
/// success exactly when the code is 204, else the message, or "unknown error" without one.
pub fn patch_result(code: Option<i64>, message: Option<String>) -> (r: Result<(), String>)
    ensures
        code == Some(204i64) <==> r is Ok,
        code != Some(204i64) ==> (r matches Err(e) && e@ == match message {
            Some(m) => m@,
            None => "unknown error"@,
        }),
{
    match code {
        Some(c) => {
            if c == 204 {
                return Ok(());
            }
        },
        None => {},
    }
    match message {
        Some(m) => Err(m),
        None => Err("unknown error".to_string()),
    }
}

} // verus!
