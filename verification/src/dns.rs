//! Name queries of clients, forwarded to a resolver over HTTPS.

use crate::text::{decimal, push_decimal, push_text};
use vstd::prelude::*;

verus! {

/// The port that queries arrive on.
pub const DNS_PORT: u16 = 53;

/// Longest query that is read.
pub const MAX_DNS_PACKET: usize = 4096;

/// Seconds that a resolver has to answer.
pub const UPSTREAM_TIMEOUT_SECS: u64 = 5;

/// Longest answer that is passed on.
pub const MAX_DOH_RESPONSE: usize = 65535;

/// Which resolvers are used, and whether plain queries are blocked.
pub struct DnsProxyConfig {
    pub upstream_doh: String,
    pub fallback_doh: Option<String>,
    pub block_plain_dns: bool,
}

impl DnsProxyConfig {
    /// The resolver for an attempt: first the main one, then the other, where there is one.
    /// `None` where there is nobody left to ask.
    pub fn resolver(&self, attempt: usize) -> (url: Option<&str>)
        ensures
            match url {
                Some(u) => (attempt == 0 && u@ == self.upstream_doh@) || (attempt == 1
                    && self.fallback_doh is Some && u@ == self.fallback_doh->0@),
                None => attempt > 1 || (attempt == 1 && self.fallback_doh is None),
            },
    {
        if attempt == 0 {
            return Some(self.upstream_doh.as_str());
        }
        match &self.fallback_doh {
            Some(url) => {
                if attempt == 1 {
                    Some(url.as_str())
                } else {
                    None
                }
            },
            None => None,
        }
    }
}

/// Why an answer is not passed on; the text is what the log says.
pub fn check_response(success: bool, status: &str, body_len: usize) -> (r: Result<(), String>)
    ensures
        match r {
            Ok(()) => success && body_len <= MAX_DOH_RESPONSE,
            Err(e) => e@ == (if !success {
                "DoH HTTP "@ + status@
            } else {
                "DoH response too large: "@ + decimal(body_len as nat) + " bytes (max "@ + decimal(
                    MAX_DOH_RESPONSE as nat,
                ) + ")"@
            }) && (!success || body_len > MAX_DOH_RESPONSE),
        },
{
    if !success {
        let mut text: String = String::new();
        push_text(&mut text, "DoH HTTP ");
        push_text(&mut text, status);
        return Err(text);
    }
    if body_len > MAX_DOH_RESPONSE {
        let mut text: String = String::new();
        push_text(&mut text, "DoH response too large: ");
        push_decimal(&mut text, body_len as u64);
        push_text(&mut text, " bytes (max ");
        push_decimal(&mut text, MAX_DOH_RESPONSE as u64);
        push_text(&mut text, ")");
        return Err(text);
    }
    Ok(())
}

/// The firewall rule that drops plain queries over one transport on every interface but the
/// tunnel.
pub open spec fn block_rule_of(tun_iface: Seq<char>, transport: Seq<char>) -> Seq<char> {
    "add rule inet filter forward oifname != \""@ + tun_iface + "\" "@ + transport
        + " dport 53 drop"@
}

fn block_rule(tun_iface: &str, transport: &str) -> (rule: String)
    ensures
        rule@ == block_rule_of(tun_iface@, transport@),
{
    let mut rule: String = String::new();
    push_text(&mut rule, "add rule inet filter forward oifname != \"");
    push_text(&mut rule, tun_iface);
    push_text(&mut rule, "\" ");
    push_text(&mut rule, transport);
    push_text(&mut rule, " dport 53 drop");
    rule
}

/// The firewall rules that drop plain queries, over UDP and over TCP, on every interface but the
/// tunnel.
pub fn block_rules(tun_iface: &str) -> (rules: Vec<String>)
    ensures
        rules@.len() == 2,
        rules@[0]@ == block_rule_of(tun_iface@, "udp"@),
        rules@[1]@ == block_rule_of(tun_iface@, "tcp"@),
{
    let mut rules: Vec<String> = Vec::new();
    rules.push(block_rule(tun_iface, "udp"));
    rules.push(block_rule(tun_iface, "tcp"));
    rules
}

} // verus!
