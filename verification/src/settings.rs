//! The server's settings: where they come from, which of them win, and what they must be.

use crate::layout::MaskProfile;
use crate::outside::{
    base64_bytes, base64_decode, base64_encode, base64_text, base64_url_encode, base64_url_text,
    ed25519_public, ed25519_public_key, is_base64_char, json_quote, json_string,
};
use crate::publish::BootstrapPublishConfig;
use crate::text::{
    chars_of, decimal, digit_char, hex_char, hex_text, holds, number_of, parse_u16,
    part_stands_between, push_decimal, push_hex, push_text, same_text, split_words, stands_at,
    starts_with, text_views, trim, trimmed, words_of,
};
use vstd::prelude::*;
use vstd::utf8::{encode_utf8, is_ascii_chars, is_ascii_chars_encode_utf8};

verus! {

/// Where the server's settings are looked for.
pub const DEFAULT_SERVER_CONFIG_PATH: &'static str = "/etc/aivpn/server.json";

/// Where settings are looked for next.
pub const LOCAL_SERVER_CONFIG_PATH: &'static str = "config/server.json";

/// The address to listen on where none is given.
pub const DEFAULT_LISTEN_ADDR: &'static str = "0.0.0.0:443";

/// The port of a connection key where the address to listen on has none.
pub const DEFAULT_PORT: u16 = 443;

/// The directory of masks where none is given.
pub const DEFAULT_MASK_DIR: &'static str = "/var/lib/aivpn/masks";

/// The size of a packet inside the tunnel where the network's is unknown.
pub const DEFAULT_TUN_MTU: u16 = 1346;

/// Bytes that the tunnel adds to a packet.
pub const TUNNEL_OVERHEAD: u16 = 64;

/// Failures in a row after which a client reports a mask.
pub const DEFAULT_FEEDBACK_FAILURE_THRESHOLD: u8 = 3;

/// Seconds between two reports of a client.
pub const DEFAULT_FEEDBACK_REPORT_INTERVAL_SECS: u32 = 3600;

/// Packets per second that one address may send.
pub const DEFAULT_PPS_LIMIT: u64 = 1000;

/// The size of a packet inside the tunnel, as the settings give it.
#[derive(Clone, Copy, PartialEq, Eq, Structural)]
pub enum MtuSetting {
    Auto,
    Fixed(u16),
}

/// A value of the settings file, as far as a packet size can be one.
pub enum MtuValue<'a> {
    Text(&'a str),
    Number(Option<u64>),
    Other,
}

/// Why a value is no packet size.
#[derive(Clone, Copy, PartialEq, Eq, Structural)]
pub enum MtuError {
    OutOfRange,
    WrongKind,
}

/// Reads a packet size: the word `auto`, or a number of at most 65535.
pub fn parse_mtu(value: MtuValue) -> (mtu: Result<MtuSetting, MtuError>)
    ensures
        mtu == (match value {
            MtuValue::Text(t) => if t@ == "auto"@ {
                Ok(MtuSetting::Auto)
            } else {
                Err(MtuError::WrongKind)
            },
            MtuValue::Number(n) => if n is Some && n->0 <= 65535 {
                Ok(MtuSetting::Fixed(n->0 as u16))
            } else {
                Err(MtuError::OutOfRange)
            },
            MtuValue::Other => Err(MtuError::WrongKind),
        }),
{
    match value {
        MtuValue::Text(t) => {
            if same_text(t, "auto") {
                Ok(MtuSetting::Auto)
            } else {
                Err(MtuError::WrongKind)
            }
        },
        MtuValue::Number(Some(n)) => {
            if n <= 65535 {
                Ok(MtuSetting::Fixed(n as u16))
            } else {
                Err(MtuError::OutOfRange)
            }
        },
        MtuValue::Number(None) => Err(MtuError::OutOfRange),
        MtuValue::Other => Err(MtuError::WrongKind),
    }
}

impl MtuError {
    /// What the operator is told.
    pub fn message(&self) -> (text: &'static str)
        ensures
            text@ == (match self {
                MtuError::OutOfRange => "tun_mtu must be 0–65535"@,
                MtuError::WrongKind => "tun_mtu must be a number or \"auto\""@,
            }),
    {
        match self {
            MtuError::OutOfRange => "tun_mtu must be 0–65535",
            MtuError::WrongKind => "tun_mtu must be a number or \"auto\"",
        }
    }
}

/// The size of a packet inside the tunnel that suits the network: its own size less what the
/// tunnel adds, or the usual size where the network's is not known.
pub open spec fn mtu_for(physical: Option<u16>) -> int {
    match physical {
        Some(mtu) => if mtu < TUNNEL_OVERHEAD {
            0
        } else {
            mtu - TUNNEL_OVERHEAD
        },
        None => DEFAULT_TUN_MTU as int,
    }
}

/// The size of a packet inside the tunnel that suits the network.
pub fn mtu_inside(physical: Option<u16>) -> (mtu: u16)
    ensures
        mtu == mtu_for(physical),
{
    match physical {
        Some(mtu) => mtu.saturating_sub(TUNNEL_OVERHEAD),
        None => DEFAULT_TUN_MTU,
    }
}

/// The size that holds: a fixed one, or the one that suits the network.
pub fn effective_mtu(setting: Option<MtuSetting>, detected: u16) -> (mtu: u16)
    ensures
        mtu == (match setting {
            Some(MtuSetting::Fixed(v)) => v,
            _ => detected,
        }),
{
    match setting {
        Some(MtuSetting::Fixed(v)) => v,
        _ => detected,
    }
}

/// The first `dev` among the words of a route.
pub open spec fn is_first_dev(words: Seq<Seq<char>>, i: int) -> bool {
    0 <= i < words.len() && words[i] == "dev"@ && forall|k: int|
        0 <= k < i ==> #[trigger] words[k] != "dev"@
}

/// The interface that a route goes through: the word behind the first `dev`.
pub fn route_device(route: &str) -> (device: Option<String>)
    ensures
        match device {
            Some(d) => exists|i: int| #[trigger]
                is_first_dev(words_of(route@), i) && i + 1 < words_of(route@).len() && d@
                    == words_of(route@)[i + 1],
            None => forall|i: int| #[trigger]
                is_first_dev(words_of(route@), i) ==> i + 1 == words_of(route@).len(),
        },
{
    let words: Vec<String> = split_words(route);
    let ghost all = words_of(route@);
    let mut i: usize = 0;
    while i < words.len()
        invariant
            i <= words.len(),
            all == words_of(route@),
            all == text_views(words@),
            forall|k: int| 0 <= k < i ==> #[trigger] all[k] != "dev"@,
        decreases words.len() - i,
    {
        assert(all[i as int] == words@[i as int]@);
        if same_text(words[i].as_str(), "dev") {
            assert(is_first_dev(all, i as int));
            if i + 1 < words.len() {
                assert(all[i + 1] == words@[i + 1]@);
                return Some(words[i + 1].clone());
            }
            assert forall|k: int| #[trigger] is_first_dev(all, k) implies k + 1 == all.len() by {
                if k < i {
                    assert(all[k] != "dev"@);
                }
            }
            return None;
        }
        i += 1;
    }
    None
}

/// The size of a packet on an interface, as the kernel writes it.
pub fn parse_interface_mtu(text: &str) -> (mtu: Option<u16>)
    ensures
        match mtu {
            Some(m) => number_of(trimmed(text@)) == Some(m as nat),
            None => number_of(trimmed(text@)) is None,
        },
{
    let chars: Vec<char> = chars_of(text);
    let number: String = trim(chars.as_slice());
    parse_u16(number.as_str())
}

/// The prefix of addresses inside the tunnel where none is given.
pub fn default_ipv6_prefix_str() -> (prefix: String)
    ensures
        prefix@ == "fd10:cafe::/48"@,
{
    "fd10:cafe::/48".to_owned()
}

/// The addresses inside the tunnel, as the settings file gives them.
pub struct JsonNetworkConfig {
    pub server_vpn_ip: Option<[u8; 4]>,
    pub prefix_len: Option<u8>,
    pub mtu: Option<MtuSetting>,
    pub keepalive_secs: Option<u8>,
    pub ipv6_enabled: bool,
    pub ipv6_prefix: String,
}

/// The addresses inside the tunnel.
pub struct VpnNetworkConfig {
    pub server_vpn_ip: [u8; 4],
    pub prefix_len: u8,
    pub mtu: u16,
    pub keepalive_secs: Option<u8>,
    pub ipv6_enabled: bool,
    pub ipv6_prefix: String,
}

/// How clients report on masks, as the settings file gives it.
#[derive(Clone, Copy, PartialEq, Eq, Structural)]
pub struct FeedbackFileConfig {
    pub report_failure_threshold: Option<u8>,
    pub report_interval_secs: Option<u32>,
}

/// Whether every session gets a variant of its own, as the settings file gives it.
pub struct PolymorphicFileConfig {
    pub all_sessions: bool,
    pub base_mask: Option<String>,
}

/// The settings file, as far as it decides anything.
pub struct ServerFileConfig {
    pub listen_addr: Option<String>,
    pub tun_name: Option<String>,
    pub tun_addr: Option<[u8; 4]>,
    pub tun_netmask: Option<[u8; 4]>,
    pub network_config: Option<JsonNetworkConfig>,
    pub mask_dir: Option<String>,
    pub session_timeout_secs: Option<u64>,
    pub idle_timeout_secs: Option<u64>,
    pub tun_mtu: Option<MtuSetting>,
    pub exit_node_enabled: Option<bool>,
    pub allow_peer_routing: Option<bool>,
    pub downlink_shaping: Option<bool>,
    pub neural_enabled: Option<bool>,
    pub bootstrap_publish: Option<BootstrapPublishConfig>,
    pub feedback: Option<FeedbackFileConfig>,
    pub polymorphic: Option<PolymorphicFileConfig>,
    pub mask_signing_key: Option<String>,
    pub mask_operator_pubkey: Option<String>,
    pub mask_verify_mode: Option<String>,
}

/// The smaller of two packet sizes.
pub open spec fn smaller(a: u16, b: u16) -> u16 {
    if a > b {
        b
    } else {
        a
    }
}

/// The netmask of a network has no prefix length.
#[derive(Clone, Copy, PartialEq, Eq, Structural)]
pub struct BadNetmask;

/// The address of the server where none is given.
pub open spec fn or_default_ip(ip: Option<[u8; 4]>) -> Seq<u8> {
    match ip {
        Some(a) => a@,
        None => seq![10u8, 0u8, 0u8, 1u8],
    }
}

fn ip_or_default(ip: Option<[u8; 4]>) -> (address: [u8; 4])
    ensures
        address@ == or_default_ip(ip),
{
    match ip {
        Some(a) => a,
        None => {
            let address: [u8; 4] = [10, 0, 0, 1];
            assert(address@ =~= seq![10u8, 0u8, 0u8, 1u8]);
            address
        },
    }
}

/// The netmask to take the prefix length of: the one given, else that of a network of 256
/// addresses.
pub fn netmask_in_use(file: &ServerFileConfig) -> (netmask: [u8; 4])
    ensures
        netmask@ == (match file.tun_netmask {
            Some(m) => m@,
            None => seq![255u8, 255u8, 255u8, 0u8],
        }),
{
    match file.tun_netmask {
        Some(m) => m,
        None => {
            let netmask: [u8; 4] = [255, 255, 255, 0];
            assert(netmask@ =~= seq![255u8, 255u8, 255u8, 0u8]);
            netmask
        },
    }
}

/// The addresses inside the tunnel: from the block of the settings file where there is one,
/// else from its single settings, else `fallback`. `netmask_prefix` is the prefix length of
/// the netmask in use, `None` where it has none. No packet inside the tunnel is larger than
/// `effective_tun_mtu` allows.
pub fn resolve_network_config(
    file: Option<&ServerFileConfig>,
    effective_tun_mtu: u16,
    netmask_prefix: Option<u8>,
    fallback: VpnNetworkConfig,
) -> (config: Result<VpnNetworkConfig, BadNetmask>)
    ensures
        match config {
            Ok(c) => match file {
                None => c == fallback,
                Some(f) => match f.network_config {
                    Some(j) => {
                        &&& c.server_vpn_ip@ == or_default_ip(j.server_vpn_ip)
                        &&& c.prefix_len == (match j.prefix_len {
                            Some(p) => p,
                            None => 24u8,
                        })
                        &&& c.mtu == (match j.mtu {
                            Some(MtuSetting::Fixed(v)) => smaller(v, effective_tun_mtu),
                            _ => effective_tun_mtu,
                        })
                        &&& c.keepalive_secs == j.keepalive_secs
                        &&& c.ipv6_enabled == j.ipv6_enabled
                        &&& c.ipv6_prefix@ == j.ipv6_prefix@
                    },
                    None => {
                        &&& netmask_prefix == Some(c.prefix_len)
                        &&& c.server_vpn_ip@ == or_default_ip(f.tun_addr)
                        &&& c.mtu == effective_tun_mtu
                        &&& c.keepalive_secs is None
                        &&& !c.ipv6_enabled
                        &&& c.ipv6_prefix@ == "fd10:cafe::/48"@
                    },
                },
            },
            Err(_) => file is Some && file->0.network_config is None && netmask_prefix is None,
        },
{
    match file {
        None => Ok(fallback),
        Some(f) => match &f.network_config {
            Some(j) => {
                let raw: u16 = match j.mtu {
                    Some(MtuSetting::Fixed(v)) => v,
                    _ => effective_tun_mtu,
                };
                let mtu: u16 = if raw > effective_tun_mtu {
                    effective_tun_mtu
                } else {
                    raw
                };
                Ok(
                    VpnNetworkConfig {
                        server_vpn_ip: ip_or_default(j.server_vpn_ip),
                        prefix_len: match j.prefix_len {
                            Some(p) => p,
                            None => 24,
                        },
                        mtu,
                        keepalive_secs: j.keepalive_secs,
                        ipv6_enabled: j.ipv6_enabled,
                        ipv6_prefix: j.ipv6_prefix.clone(),
                    },
                )
            },
            None => match netmask_prefix {
                Some(prefix_len) => Ok(
                    VpnNetworkConfig {
                        server_vpn_ip: ip_or_default(f.tun_addr),
                        prefix_len,
                        mtu: effective_tun_mtu,
                        keepalive_secs: None,
                        ipv6_enabled: false,
                        ipv6_prefix: default_ipv6_prefix_str(),
                    },
                ),
                None => Err(BadNetmask),
            },
        },
    }
}

/// The packets inside the tunnel never exceed what the tunnel can carry, whatever the block of
/// the settings file asks for.
pub proof fn inner_mtu_fits_tunnel(fixed: u16, effective_tun_mtu: u16)
    ensures
        smaller(fixed, effective_tun_mtu) <= effective_tun_mtu,
        fixed <= effective_tun_mtu ==> smaller(fixed, effective_tun_mtu) == fixed,
{
}

/// What the command line says, as far as it decides anything.
pub struct ServerArgs {
    pub listen: Option<String>,
    pub tun_name: Option<String>,
    pub config: Option<String>,
    pub mask_dir: Option<String>,
    pub per_ip_pps_limit: u64,
    pub allow_peer_routing: bool,
    pub mask_signing_key: Option<String>,
    pub mask_operator_pubkey: Option<String>,
    pub mask_verify_mode: Option<String>,
}

/// The view of an optional text.
pub open spec fn opt_view(text: Option<String>) -> Option<Seq<char>> {
    match text {
        Some(t) => Some(t@),
        None => None,
    }
}

/// The first of two settings that is given.
pub open spec fn first_given(a: Option<Seq<char>>, b: Option<Seq<char>>) -> Option<Seq<char>> {
    if a is Some {
        a
    } else {
        b
    }
}

/// The command line's setting, else the file's.
pub fn first_setting(args: &Option<String>, file: &Option<String>) -> (setting: Option<String>)
    ensures
        opt_view(setting) == first_given(opt_view(*args), opt_view(*file)),
{
    match args {
        Some(t) => Some(t.clone()),
        None => match file {
            Some(t) => Some(t.clone()),
            None => None,
        },
    }
}

/// The settings file: the one given on the command line, else the first of the two usual ones
/// that can be opened.
pub fn resolve_config_path(config: &Option<String>, default_opens: bool, local_opens: bool) -> (path:
    Option<String>)
    ensures
        opt_view(path) == (match *config {
            Some(p) => Some(p@),
            None => if default_opens {
                Some(DEFAULT_SERVER_CONFIG_PATH@)
            } else if local_opens {
                Some(LOCAL_SERVER_CONFIG_PATH@)
            } else {
                None
            },
        }),
{
    match config {
        Some(p) => Some(p.clone()),
        None => {
            if default_opens {
                Some(DEFAULT_SERVER_CONFIG_PATH.to_owned())
            } else if local_opens {
                Some(LOCAL_SERVER_CONFIG_PATH.to_owned())
            } else {
                None
            }
        },
    }
}

/// The address to listen on: the command line's, else the file's, else the usual one.
pub fn resolve_listen_addr(listen: &Option<String>, file: &Option<String>) -> (addr: String)
    ensures
        addr@ == (match first_given(opt_view(*listen), opt_view(*file)) {
            Some(a) => a,
            None => DEFAULT_LISTEN_ADDR@,
        }),
{
    match first_setting(listen, file) {
        Some(addr) => addr,
        None => DEFAULT_LISTEN_ADDR.to_owned(),
    }
}

/// The directory of masks: the command line's, else the file's, else the usual one.
pub fn resolve_mask_dir(args: &Option<String>, file: &Option<String>) -> (dir: String)
    ensures
        dir@ == (match first_given(opt_view(*args), opt_view(*file)) {
            Some(d) => d,
            None => DEFAULT_MASK_DIR@,
        }),
{
    match first_setting(args, file) {
        Some(dir) => dir,
        None => DEFAULT_MASK_DIR.to_owned(),
    }
}

/// How far masks from the disk are trusted.
#[derive(Clone, Copy, PartialEq, Eq, Structural)]
pub enum MaskVerifyMode {
    Off,
    Warn,
    Enforce,
}

/// How far masks from the disk are trusted: `off`, `warn` or `enforce`; `warn` where nothing
/// is said. `None` for any other word.
pub fn resolve_mask_verify_mode(args: &Option<String>, file: &Option<String>) -> (mode: Option<
    MaskVerifyMode,
>)
    ensures
        mode == (match first_given(opt_view(*args), opt_view(*file)) {
            None => Some(MaskVerifyMode::Warn),
            Some(t) => if t == "off"@ {
                Some(MaskVerifyMode::Off)
            } else if t == "warn"@ {
                Some(MaskVerifyMode::Warn)
            } else if t == "enforce"@ {
                Some(MaskVerifyMode::Enforce)
            } else {
                None
            },
        }),
{
    match first_setting(args, file) {
        None => Some(MaskVerifyMode::Warn),
        Some(t) => {
            if same_text(t.as_str(), "off") {
                Some(MaskVerifyMode::Off)
            } else if same_text(t.as_str(), "warn") {
                Some(MaskVerifyMode::Warn)
            } else if same_text(t.as_str(), "enforce") {
                Some(MaskVerifyMode::Enforce)
            } else {
                None
            }
        },
    }
}

/// The server's settings once everything is resolved.
pub struct GatewayConfig {
    pub listen_addr: String,
    pub per_ip_pps_limit: u64,
    pub tun_name: String,
    pub network_config: VpnNetworkConfig,
    pub server_private_key: [u8; 32],
    pub enable_nat: bool,
    pub enable_neural: bool,
    pub mask_dir: String,
    pub session_timeout_secs: Option<u64>,
    pub idle_timeout_secs: Option<u64>,
    pub bootstrap_masks: Vec<MaskProfile>,
    pub tun_mtu: u16,
    pub exit_node_enabled: bool,
    pub allow_peer_routing: bool,
    pub bootstrap_publish: Option<BootstrapPublishConfig>,
    pub feedback_report_failure_threshold: u8,
    pub feedback_report_interval_secs: u32,
    pub polymorphic_all_sessions: bool,
    pub polymorphic_base_mask: Option<String>,
    pub downlink_shaping: bool,
    pub mask_signing_key: Option<[u8; 32]>,
    pub mask_operator_pubkey: Option<[u8; 32]>,
    pub mask_verify_mode: MaskVerifyMode,
}

impl Default for GatewayConfig {
    /// The settings where nothing is said.
    fn default() -> (config: GatewayConfig)
        ensures
            config.listen_addr@ == DEFAULT_LISTEN_ADDR@,
            config.per_ip_pps_limit == DEFAULT_PPS_LIMIT,
            config.tun_name@ == "aivpn0"@,
            config.network_config.server_vpn_ip@ == seq![10u8, 0u8, 0u8, 1u8],
            config.network_config.prefix_len == 24,
            config.network_config.mtu == DEFAULT_TUN_MTU,
            config.network_config.keepalive_secs is None,
            !config.network_config.ipv6_enabled,
            config.network_config.ipv6_prefix@ == "fd10:cafe::/48"@,
            config.server_private_key@ == Seq::new(32, |i: int| 0u8),
            config.enable_nat,
            config.enable_neural,
            config.mask_dir@ == DEFAULT_MASK_DIR@,
            config.session_timeout_secs is None,
            config.idle_timeout_secs is None,
            config.bootstrap_masks@.len() == 0,
            config.tun_mtu == DEFAULT_TUN_MTU,
            !config.exit_node_enabled,
            !config.allow_peer_routing,
            config.bootstrap_publish is None,
            config.feedback_report_failure_threshold == DEFAULT_FEEDBACK_FAILURE_THRESHOLD,
            config.feedback_report_interval_secs == DEFAULT_FEEDBACK_REPORT_INTERVAL_SECS,
            !config.polymorphic_all_sessions,
            config.polymorphic_base_mask is None,
            config.downlink_shaping,
            config.mask_signing_key is None,
            config.mask_operator_pubkey is None,
            config.mask_verify_mode == MaskVerifyMode::Warn,
    {
        let server_private_key: [u8; 32] = [0u8; 32];
        assert(server_private_key@ =~= Seq::new(32, |i: int| 0u8));
        GatewayConfig {
            listen_addr: DEFAULT_LISTEN_ADDR.to_owned(),
            per_ip_pps_limit: DEFAULT_PPS_LIMIT,
            tun_name: "aivpn0".to_owned(),
            network_config: VpnNetworkConfig {
                server_vpn_ip: ip_or_default(None),
                prefix_len: 24,
                mtu: DEFAULT_TUN_MTU,
                keepalive_secs: None,
                ipv6_enabled: false,
                ipv6_prefix: default_ipv6_prefix_str(),
            },
            server_private_key,
            enable_nat: true,
            enable_neural: true,
            mask_dir: DEFAULT_MASK_DIR.to_owned(),
            session_timeout_secs: None,
            idle_timeout_secs: None,
            bootstrap_masks: Vec::new(),
            tun_mtu: DEFAULT_TUN_MTU,
            exit_node_enabled: false,
            allow_peer_routing: false,
            bootstrap_publish: None,
            feedback_report_failure_threshold: DEFAULT_FEEDBACK_FAILURE_THRESHOLD,
            feedback_report_interval_secs: DEFAULT_FEEDBACK_REPORT_INTERVAL_SECS,
            polymorphic_all_sessions: false,
            polymorphic_base_mask: None,
            downlink_shaping: true,
            mask_signing_key: None,
            mask_operator_pubkey: None,
            mask_verify_mode: MaskVerifyMode::Warn,
        }
    }
}

/// Values that come from elsewhere than the command line and the settings file.
pub struct ResolvedInputs {
    pub random_tun_name: String,
    pub network_config: VpnNetworkConfig,
    pub server_private_key: [u8; 32],
    pub bootstrap_masks: Vec<MaskProfile>,
    pub tun_mtu: u16,
    pub mask_signing_key: Option<[u8; 32]>,
    pub mask_operator_pubkey: Option<[u8; 32]>,
    pub mask_verify_mode: MaskVerifyMode,
}

/// A setting of the file, or a default.
pub open spec fn or_else<T>(setting: Option<T>, default: T) -> T {
    match setting {
        Some(v) => v,
        None => default,
    }
}

/// Whether clients may reach each other: a flag on the command line overrides the file.
pub fn resolve_peer_routing(flag: bool, file: Option<bool>) -> (allowed: bool)
    ensures
        allowed == (flag || or_else(file, false)),
{
    flag || match file {
        Some(b) => b,
        None => false,
    }
}

/// The server's settings, of the command line, of the settings file and of what was resolved
/// before. What the command line says overrides the file.
pub fn assemble_config(args: &ServerArgs, file: ServerFileConfig, inputs: ResolvedInputs) -> (config:
    GatewayConfig)
    ensures
        config.listen_addr@ == (match first_given(opt_view(args.listen), opt_view(file.listen_addr)) {
            Some(a) => a,
            None => DEFAULT_LISTEN_ADDR@,
        }),
        config.per_ip_pps_limit == args.per_ip_pps_limit,
        config.tun_name@ == (match first_given(opt_view(args.tun_name), opt_view(file.tun_name)) {
            Some(n) => n,
            None => inputs.random_tun_name@,
        }),
        config.network_config == inputs.network_config,
        config.server_private_key == inputs.server_private_key,
        config.enable_nat,
        config.enable_neural == or_else(file.neural_enabled, true),
        config.mask_dir@ == (match first_given(opt_view(args.mask_dir), opt_view(file.mask_dir)) {
            Some(d) => d,
            None => DEFAULT_MASK_DIR@,
        }),
        config.session_timeout_secs == file.session_timeout_secs,
        config.idle_timeout_secs == file.idle_timeout_secs,
        config.bootstrap_masks == inputs.bootstrap_masks,
        config.tun_mtu == inputs.tun_mtu,
        config.exit_node_enabled == or_else(file.exit_node_enabled, false),
        config.allow_peer_routing == (args.allow_peer_routing || or_else(
            file.allow_peer_routing,
            false,
        )),
        config.bootstrap_publish == file.bootstrap_publish,
        config.feedback_report_failure_threshold == (match file.feedback {
            Some(f) => or_else(f.report_failure_threshold, DEFAULT_FEEDBACK_FAILURE_THRESHOLD),
            None => DEFAULT_FEEDBACK_FAILURE_THRESHOLD,
        }),
        config.feedback_report_interval_secs == (match file.feedback {
            Some(f) => or_else(f.report_interval_secs, DEFAULT_FEEDBACK_REPORT_INTERVAL_SECS),
            None => DEFAULT_FEEDBACK_REPORT_INTERVAL_SECS,
        }),
        config.polymorphic_all_sessions == (file.polymorphic is Some
            && file.polymorphic->0.all_sessions),
        config.polymorphic_base_mask == (match file.polymorphic {
            Some(p) => p.base_mask,
            None => None,
        }),
        config.downlink_shaping == or_else(file.downlink_shaping, true),
        config.mask_signing_key == inputs.mask_signing_key,
        config.mask_operator_pubkey == inputs.mask_operator_pubkey,
        config.mask_verify_mode == inputs.mask_verify_mode,
{
    let listen_addr: String = resolve_listen_addr(&args.listen, &file.listen_addr);
    let tun_name: String = match first_setting(&args.tun_name, &file.tun_name) {
        Some(n) => n,
        None => inputs.random_tun_name,
    };
    let mask_dir: String = resolve_mask_dir(&args.mask_dir, &file.mask_dir);
    let threshold: u8 = match file.feedback {
        Some(f) => match f.report_failure_threshold {
            Some(n) => n,
            None => DEFAULT_FEEDBACK_FAILURE_THRESHOLD,
        },
        None => DEFAULT_FEEDBACK_FAILURE_THRESHOLD,
    };
    let interval: u32 = match file.feedback {
        Some(f) => match f.report_interval_secs {
            Some(n) => n,
            None => DEFAULT_FEEDBACK_REPORT_INTERVAL_SECS,
        },
        None => DEFAULT_FEEDBACK_REPORT_INTERVAL_SECS,
    };
    let (all_sessions, base_mask): (bool, Option<String>) = match file.polymorphic {
        Some(p) => (p.all_sessions, p.base_mask),
        None => (false, None),
    };
    GatewayConfig {
        listen_addr,
        per_ip_pps_limit: args.per_ip_pps_limit,
        tun_name,
        network_config: inputs.network_config,
        server_private_key: inputs.server_private_key,
        enable_nat: true,
        enable_neural: match file.neural_enabled {
            Some(b) => b,
            None => true,
        },
        mask_dir,
        session_timeout_secs: file.session_timeout_secs,
        idle_timeout_secs: file.idle_timeout_secs,
        bootstrap_masks: inputs.bootstrap_masks,
        tun_mtu: inputs.tun_mtu,
        exit_node_enabled: match file.exit_node_enabled {
            Some(b) => b,
            None => false,
        },
        allow_peer_routing: resolve_peer_routing(args.allow_peer_routing, file.allow_peer_routing),
        bootstrap_publish: file.bootstrap_publish,
        feedback_report_failure_threshold: threshold,
        feedback_report_interval_secs: interval,
        polymorphic_all_sessions: all_sessions,
        polymorphic_base_mask: base_mask,
        downlink_shaping: match file.downlink_shaping {
            Some(b) => b,
            None => true,
        },
        mask_signing_key: inputs.mask_signing_key,
        mask_operator_pubkey: inputs.mask_operator_pubkey,
        mask_verify_mode: inputs.mask_verify_mode,
    }
}

/// Thirty-two bytes as a key; `None` for any other number of bytes.
pub fn key_of(bytes: &[u8]) -> (key: Option<[u8; 32]>)
    ensures
        match key {
            Some(k) => k@ == bytes@,
            None => bytes@.len() != 32,
        },
{
    if bytes.len() != 32 {
        return None;
    }
    let mut key: [u8; 32] = [0u8; 32];
    let mut i: usize = 0;
    while i < 32
        invariant
            i <= 32,
            bytes@.len() == 32,
            forall|k: int| 0 <= k < i ==> key@[k] == bytes@[k],
        decreases 32 - i,
    {
        key[i] = bytes[i];
        i += 1;
    }
    assert(key@ =~= bytes@);
    Some(key)
}

/// Why a key in the settings is of no use.
#[derive(Clone, Copy, PartialEq, Eq, Structural)]
pub enum KeyError {
    NotBase64,
    WrongLength(usize),
}

/// A key written in base64, whatever white space is around it.
pub open spec fn key_text(text: Seq<char>) -> Result<Seq<u8>, KeyError> {
    match base64_bytes(trimmed(text)) {
        None => Err(KeyError::NotBase64),
        Some(b) => if b.len() == 32 {
            Ok(b)
        } else {
            Err(KeyError::WrongLength(b.len() as usize))
        },
    }
}

/// The view of a key, or the error.
pub open spec fn key_view(key: Result<[u8; 32], KeyError>) -> Result<Seq<u8>, KeyError> {
    match key {
        Ok(k) => Ok(k@),
        Err(e) => Err(e),
    }
}

/// A key of what base64 gave for it.
pub fn key_of_decoded(decoded: Option<Vec<u8>>) -> (key: Result<[u8; 32], KeyError>)
    ensures
        key_view(key) == (match decoded {
            None => Err(KeyError::NotBase64),
            Some(b) => if b@.len() == 32 {
                Ok(b@)
            } else {
                Err(KeyError::WrongLength(b@.len() as usize))
            },
        }),
{
    match decoded {
        None => Err(KeyError::NotBase64),
        Some(bytes) => match key_of(bytes.as_slice()) {
            Some(key) => Ok(key),
            None => Err(KeyError::WrongLength(bytes.len())),
        },
    }
}

/// A key written in base64.
pub fn parse_key_text(text: &str) -> (key: Result<[u8; 32], KeyError>)
    ensures
        key_view(key) == key_text(text@),
{
    let chars: Vec<char> = chars_of(text);
    let trimmed_text: String = trim(chars.as_slice());
    key_of_decoded(base64_decode(trimmed_text.as_str()))
}

/// What a key file's bytes and text stand for: the bare key, or else its text in base64.
pub open spec fn seed_of(data: Seq<u8>, text: Seq<char>) -> Result<Seq<u8>, KeyError> {
    if data.len() == 32 {
        Ok(data)
    } else {
        key_text(text)
    }
}

/// The seed of the key that masks are signed with: the file's 32 bytes, or its text in
/// base64.
pub fn parse_signing_seed(data: &[u8], text: &str) -> (seed: Result<[u8; 32], KeyError>)
    ensures
        key_view(seed) == seed_of(data@, text@),
{
    match key_of(data) {
        Some(seed) => Ok(seed),
        None => parse_key_text(text),
    }
}

/// The key that masks are verified with: the one given, else the one that belongs to the
/// signing key, else none.
pub fn resolve_mask_operator_pubkey(
    args: &Option<String>,
    file: &Option<String>,
    signing_seed: Option<[u8; 32]>,
) -> (key: Result<Option<[u8; 32]>, KeyError>)
    ensures
        match first_given(opt_view(*args), opt_view(*file)) {
            Some(t) => match key {
                Ok(Some(k)) => key_text(t) == Ok::<Seq<u8>, KeyError>(k@),
                Ok(None) => false,
                Err(e) => key_text(t) == Err::<Seq<u8>, KeyError>(e),
            },
            None => match key {
                Ok(Some(k)) => signing_seed is Some && k@ == ed25519_public(signing_seed->0@),
                Ok(None) => signing_seed is None,
                Err(_) => false,
            },
        },
{
    match first_setting(args, file) {
        Some(text) => match parse_key_text(text.as_str()) {
            Ok(key) => Ok(Some(key)),
            Err(e) => Err(e),
        },
        None => match signing_seed {
            Some(seed) => Ok(Some(ed25519_public_key(&seed))),
            None => Ok(None),
        },
    }
}

/// A key of zeros.
pub open spec fn is_blank_key(key: Seq<u8>) -> bool {
    forall|i: int| 0 <= i < key.len() ==> #[trigger] key[i] == 0
}

/// The key that servers of a pool share: 32 bytes in base64, not all of them zero.
pub fn pool_sync_key(text: &str) -> (key: Option<[u8; 32]>)
    ensures
        match key {
            Some(k) => base64_bytes(text@) == Some(k@) && !is_blank_key(k@),
            None => match base64_bytes(text@) {
                Some(b) => b.len() != 32 || is_blank_key(b),
                None => true,
            },
        },
{
    match base64_decode(text) {
        None => None,
        Some(bytes) => match key_of(bytes.as_slice()) {
            None => None,
            Some(key) => {
                let mut i: usize = 0;
                assert(key@ =~= bytes@);
                while i < 32
                    invariant
                        i <= 32,
                        base64_bytes(text@) == Some(key@),
                        forall|k: int| 0 <= k < i ==> #[trigger] key@[k] == 0,
                    decreases 32 - i,
                {
                    if key[i] != 0 {
                        assert(key@[i as int] != 0);
                        return Some(key);
                    }
                    i += 1;
                }
                None
            },
        },
    }
}

/// The value of a hexadecimal digit.
pub open spec fn hex_value(c: char) -> Option<nat> {
    if '0' <= c <= '9' {
        Some((c as nat - 48) as nat)
    } else if 'a' <= c <= 'f' {
        Some((c as nat - 87) as nat)
    } else if 'A' <= c <= 'F' {
        Some((c as nat - 55) as nat)
    } else {
        None
    }
}

fn hex_digit_value(c: char) -> (v: Option<u8>)
    ensures
        match v {
            Some(d) => hex_value(c) == Some(d as nat) && d < 16,
            None => hex_value(c) is None,
        },
{
    if '0' <= c && c <= '9' {
        Some(c as u8 - 48)
    } else if 'a' <= c && c <= 'f' {
        Some(c as u8 - 87)
    } else if 'A' <= c && c <= 'F' {
        Some(c as u8 - 55)
    } else {
        None
    }
}

/// A text is 64 hexadecimal digits.
pub open spec fn is_key_hex(text: Seq<char>) -> bool {
    text.len() == 64 && forall|i: int| 0 <= i < 64 ==> hex_value(#[trigger] text[i]) is Some
}

/// The byte that two digits of a text stand for.
pub open spec fn hex_byte(text: Seq<char>, i: int) -> nat {
    16 * hex_value(text[2 * i])->0 + hex_value(text[2 * i + 1])->0
}

/// A key written in hexadecimal.
pub fn parse_key_hex(text: &str) -> (key: Option<[u8; 32]>)
    ensures
        match key {
            Some(k) => is_key_hex(text@) && forall|i: int|
                0 <= i < 32 ==> #[trigger] k@[i] == hex_byte(text@, i),
            None => !is_key_hex(text@),
        },
{
    let chars: Vec<char> = chars_of(text);
    if chars.len() != 64 {
        return None;
    }
    let mut key: [u8; 32] = [0u8; 32];
    let mut i: usize = 0;
    while i < 32
        invariant
            i <= 32,
            chars@ == text@,
            chars@.len() == 64,
            forall|k: int| 0 <= k < i ==> #[trigger] key@[k] == hex_byte(text@, k),
            forall|k: int| 0 <= k < 2 * i ==> hex_value(#[trigger] text@[k]) is Some,
        decreases 32 - i,
    {
        match (hex_digit_value(chars[2 * i]), hex_digit_value(chars[2 * i + 1])) {
            (Some(high), Some(low)) => {
                key[i] = 16 * high + low;
            },
            _ => {
                assert(hex_value(text@[2 * i]) is None || hex_value(text@[2 * i + 1]) is None);
                return None;
            },
        }
        i += 1;
    }
    Some(key)
}

/// A key in hexadecimal, as the operator's commands print and take it.
pub fn key_in_hex(key: &[u8]) -> (text: String)
    ensures
        text@ == hex_text(key@),
{
    let mut text: String = String::new();
    push_hex(&mut text, key);
    assert(text@ =~= hex_text(key@));
    text
}

proof fn lemma_hex_digits(bytes: Seq<u8>)
    ensures
        hex_text(bytes).len() == 2 * bytes.len(),
        forall|i: int|
            0 <= i < bytes.len() ==> hex_text(bytes)[2 * i] == hex_char(
                #[trigger] bytes[i] as nat / 16,
            ) && hex_text(bytes)[2 * i + 1] == hex_char(bytes[i] as nat % 16),
    decreases bytes.len(),
{
    if bytes.len() > 0 {
        let rest = bytes.drop_last();
        lemma_hex_digits(rest);
        assert forall|i: int| 0 <= i < bytes.len() implies hex_text(bytes)[2 * i] == hex_char(
            #[trigger] bytes[i] as nat / 16,
        ) && hex_text(bytes)[2 * i + 1] == hex_char(bytes[i] as nat % 16) by {
            if i < rest.len() {
                assert(rest[i] == bytes[i]);
            }
        }
    }
}

proof fn lemma_hex_value(d: nat)
    requires
        d < 16,
    ensures
        hex_value(hex_char(d)) == Some(d),
{
}

/// A key that was written in hexadecimal is read back.
pub proof fn hex_key_is_read_back(key: Seq<u8>)
    requires
        key.len() == 32,
    ensures
        is_key_hex(hex_text(key)),
        forall|i: int| 0 <= i < 32 ==> #[trigger] key[i] == hex_byte(hex_text(key), i),
{
    let text = hex_text(key);
    lemma_hex_digits(key);
    assert forall|i: int| 0 <= i < 64 implies hex_value(#[trigger] text[i]) is Some by {
        lemma_hex_value(key[i / 2] as nat / 16);
        lemma_hex_value(key[i / 2] as nat % 16);
        assert(i == 2 * (i / 2) || i == 2 * (i / 2) + 1);
    }
    assert forall|i: int| 0 <= i < 32 implies #[trigger] key[i] == hex_byte(text, i) by {
        lemma_hex_value(key[i] as nat / 16);
        lemma_hex_value(key[i] as nat % 16);
    }
}

/// When a certificate that is issued now expires, in seconds since 1970.
pub fn cert_expiry(now_ms: u64, days: u64) -> (expiry: u64)
    requires
        now_ms / 1000 + days * 86400 <= u64::MAX,
    ensures
        expiry == now_ms / 1000 + days * 86400,
{
    assert(days * 86400 <= u64::MAX);
    now_ms / 1000 + days * 86400
}

/// The address in a connection key: as given where it has a port, else with the port that the
/// server listens on, else with the usual one. `has_port` tells whether what was given is an
/// address with a port, `listen_port` the port of the address to listen on.
pub fn build_connection_server_addr(server_ip: &str, has_port: bool, listen_port: Option<u16>) -> (addr:
    String)
    ensures
        addr@ == (if has_port {
            server_ip@
        } else {
            server_ip@ + ":"@ + decimal(
                (match listen_port {
                    Some(p) => p,
                    None => DEFAULT_PORT,
                }) as nat,
            )
        }),
{
    let mut addr: String = server_ip.to_owned();
    if has_port {
        return addr;
    }
    let port: u16 = match listen_port {
        Some(p) => p,
        None => DEFAULT_PORT,
    };
    push_text(&mut addr, ":");
    push_decimal(&mut addr, port as u64);
    assert(addr@ =~= server_ip@ + ":"@ + decimal(port as nat));
    addr
}

/// A key in base64, as connection keys, settings and key files hold it. From a setting or a
/// file that holds it, a key of 32 bytes is read back.
pub fn key_in_base64(key: &[u8]) -> (text: String)
    ensures
        text@ == base64_text(key@),
        key@.len() == 32 ==> key_text(text@) == Ok::<Seq<u8>, KeyError>(key@),
        key@.len() == 32 ==> seed_of(encode_utf8(text@), text@) == Ok::<Seq<u8>, KeyError>(key@),
{
    let text: String = base64_encode(key);
    proof {
        if text@.len() > 0 {
            assert(is_base64_char(text@[0]));
            assert(is_base64_char(text@.last()));
        }
        assert(trimmed(text@) == text@);
        assert(is_ascii_chars(text@)) by {
            assert forall|i: int| 0 <= i < text@.len() implies '\0' <= #[trigger] text@[i]
                <= '\u{7f}' by {
                assert(is_base64_char(text@[i]));
            }
        }
        is_ascii_chars_encode_utf8(text@);
    }
    text
}

/// What goes into a connection key.
pub struct ConnectionInfo<'a> {
    /// The server's address, with its port.
    pub server_addr: &'a str,
    /// The server's public key, in base64.
    pub server_key: &'a str,
    /// The key that the client shares with the server, in base64.
    pub psk: &'a str,
    /// The client's address inside the tunnel.
    pub client_ip: &'a str,
    /// The client's network settings, as JSON.
    pub network_json: &'a str,
    /// The key that the server's messages are verified with.
    pub signing_key: Option<[u8; 32]>,
    /// The key that masks are verified with.
    pub operator_key: Option<[u8; 32]>,
}

/// A member of a JSON object, with a comma behind it where it is there.
pub open spec fn key_member(name: Seq<char>, key: Option<[u8; 32]>) -> Seq<char> {
    match key {
        Some(k) => name + json_string(base64_text(k@)),
        None => seq![],
    }
}

/// The JSON object inside a connection key, its members in the order of their names.
pub open spec fn connection_json(c: ConnectionInfo) -> Seq<char> {
    "{\"i\":"@ + json_string(c.client_ip@) + ",\"k\":"@ + json_string(c.server_key@)
        + key_member(",\"mop\":"@, c.operator_key) + ",\"n\":"@ + c.network_json@ + ",\"p\":"@
        + json_string(c.psk@) + ",\"s\":"@ + json_string(c.server_addr@)
        + key_member(",\"sk\":"@, c.signing_key) + "}"@
}

fn push_json_text(out: &mut String, text: &str)
    ensures
        final(out)@ == old(out)@ + json_string(text@),
{
    let quoted: String = json_quote(text);
    push_text(out, quoted.as_str());
}

fn push_json_base64(out: &mut String, bytes: &[u8])
    ensures
        final(out)@ == old(out)@ + json_string(base64_text(bytes@)),
{
    let text: String = key_in_base64(bytes);
    push_json_text(out, text.as_str());
}

fn push_key_member(out: &mut String, name: &str, key: Option<[u8; 32]>)
    ensures
        final(out)@ == old(out)@ + key_member(name@, key),
{
    match key {
        Some(k) => {
            let ghost start = out@;
            push_text(out, name);
            push_json_base64(out, k.as_slice());
            assert(out@ =~= start + key_member(name@, key));
        },
        None => {
            assert(out@ =~= out@ + key_member(name@, key));
        },
    }
}

fn connection_text(c: &ConnectionInfo) -> (json: String)
    ensures
        json@ == connection_json(*c),
{
    let mut json: String = String::new();
    push_text(&mut json, "{\"i\":");
    push_json_text(&mut json, c.client_ip);
    push_text(&mut json, ",\"k\":");
    push_json_text(&mut json, c.server_key);
    push_key_member(&mut json, ",\"mop\":", c.operator_key);
    push_text(&mut json, ",\"n\":");
    push_text(&mut json, c.network_json);
    push_text(&mut json, ",\"p\":");
    push_json_text(&mut json, c.psk);
    push_text(&mut json, ",\"s\":");
    push_json_text(&mut json, c.server_addr);
    push_key_member(&mut json, ",\"sk\":", c.signing_key);
    push_text(&mut json, "}");
    assert(json@ =~= connection_json(*c));
    json
}

/// The connection key that is handed to a client.
pub fn build_connection_key(c: &ConnectionInfo) -> (key: String)
    ensures
        key@ == "aivpn://"@ + base64_url_text(encode_utf8(connection_json(*c))),
{
    let json: String = connection_text(c);
    let encoded: String = base64_url_encode(json.as_str().as_bytes());
    let mut key: String = String::new();
    push_text(&mut key, "aivpn://");
    push_text(&mut key, encoded.as_str());
    assert(key@ =~= "aivpn://"@ + encoded@);
    key
}

/// By how many bits a number is wider than the 53 that a double has.
pub open spec fn excess_bits(n: nat) -> nat
    decreases n,
{
    if n < 0x20_0000_0000_0000 {
        0
    } else {
        1 + excess_bits(n / 2)
    }
}

/// A quotient rounded to the nearest whole number, halves to the even one.
pub open spec fn rounded_quotient(n: nat, d: nat) -> nat
    recommends
        d > 0,
{
    let q = n / d;
    let r = n % d;
    if 2 * r > d || (2 * r == d && q % 2 == 1) {
        q + 1
    } else {
        q
    }
}

/// A number as a double holds it: 53 bits of it, rounded.
pub open spec fn as_double(n: nat) -> nat {
    let unit = vstd::arithmetic::power2::pow2(excess_bits(n));
    rounded_quotient(n, unit) * unit
}

/// A number of tenths as text.
pub open spec fn tenths_text(tenths: nat) -> Seq<char> {
    decimal(tenths / 10) + "."@ + seq![digit_char(tenths % 10)]
}

/// A number of bytes for people: whole bytes, or tenths of the largest unit that it fills.
pub open spec fn byte_text(bytes: nat) -> Seq<char> {
    if bytes < 1024 {
        decimal(bytes) + " B"@
    } else if bytes < 1048576 {
        tenths_text(rounded_quotient(10 * as_double(bytes), 1024)) + " KB"@
    } else if bytes < 1073741824 {
        tenths_text(rounded_quotient(10 * as_double(bytes), 1048576)) + " MB"@
    } else {
        tenths_text(rounded_quotient(10 * as_double(bytes), 1073741824)) + " GB"@
    }
}

fn round_quotient(n: u128, d: u128) -> (q: u128)
    requires
        0 < d < 0x8000_0000_0000_0000_0000_0000_0000_0000,
        n < 0x8000_0000_0000_0000_0000_0000_0000_0000,
    ensures
        q == rounded_quotient(n as nat, d as nat),
{
    let q: u128 = n / d;
    let r: u128 = n % d;
    assert(q <= n) by (nonlinear_arith)
        requires
            q == n / d,
            d > 0,
    ;
    if 2 * r > d || (2 * r == d && q % 2 == 1) {
        q + 1
    } else {
        q
    }
}

proof fn lemma_excess(n: nat, half: nat)
    requires
        half == n / 2,
    ensures
        n >= 0x20_0000_0000_0000 ==> excess_bits(n) == 1 + excess_bits(half),
{
}

/// A number as a double holds it.
fn to_double(n: u64) -> (v: u128)
    ensures
        v == as_double(n as nat),
        v <= 0x1_0000_0000_0000_0000,
        n < 0x20_0000_0000_0000 ==> v == n,
{
    let mut rest: u64 = n;
    let mut unit: u128 = 1;
    let mut bits: u64 = 0;
    proof {
        vstd::arithmetic::power2::lemma2_to64();
    }
    while rest >= 0x20_0000_0000_0000
        invariant
            unit == vstd::arithmetic::power2::pow2(bits as nat),
            excess_bits(n as nat) == bits + excess_bits(rest as nat),
            rest * unit <= n,
            bits <= 11,
        decreases rest,
    {
        proof {
            lemma_excess(rest as nat, (rest / 2) as nat);
            vstd::arithmetic::power2::lemma_pow2_unfold((bits + 1) as nat);
            assert(unit <= 0x800) by (nonlinear_arith)
                requires
                    rest >= 0x20_0000_0000_0000,
                    rest * unit <= n,
                    n <= 0xffff_ffff_ffff_ffff,
            ;
            assert((rest / 2) * (2 * unit) <= rest * unit) by (nonlinear_arith)
                requires
                    rest >= 0,
                    unit >= 0,
            ;
            assert(bits <= 10) by {
                if bits >= 11 {
                    vstd::arithmetic::power2::lemma2_to64();
                    assert(unit == 0x800);
                    assert(rest * unit >= 0x20_0000_0000_0000 * 0x800) by (nonlinear_arith)
                        requires
                            rest >= 0x20_0000_0000_0000,
                            unit == 0x800,
                    ;
                }
            }
        }
        rest = rest / 2;
        unit = unit * 2;
        bits = bits + 1;
    }
    proof {
        vstd::arithmetic::power2::lemma2_to64();
    }
    assert(excess_bits(n as nat) == bits);
    let q: u128 = round_quotient(n as u128, unit);
    proof {
        lemma_double_bound(n as nat, unit as nat, bits as nat, q as nat);
    }
    q * unit
}

/// Rounding to 53 bits never takes a number of 64 bits beyond the next power of two.
proof fn lemma_double_bound(n: nat, unit: nat, bits: nat, q: nat)
    requires
        n <= 0xffff_ffff_ffff_ffff,
        bits <= 11,
        unit == vstd::arithmetic::power2::pow2(bits),
        q == rounded_quotient(n, unit),
        bits == excess_bits(n),
    ensures
        q * unit <= 0x1_0000_0000_0000_0000,
        n < 0x20_0000_0000_0000 ==> q * unit == n,
{
    vstd::arithmetic::power2::lemma2_to64();
    vstd::arithmetic::power2::lemma_pow2_pos(bits);
    if bits == 0 {
        assert(n / 1 == n && n % 1 == 0);
        assert(q * 1 == q);
    } else {
        let whole: int = 0x1_0000_0000_0000_0000;
        vstd::arithmetic::power2::lemma_pow2_adds(bits, (64 - bits) as nat);
        vstd::arithmetic::power2::lemma2_to64_rest();
        assert(whole == unit * vstd::arithmetic::power2::pow2((64 - bits) as nat));
        let p: int = vstd::arithmetic::power2::pow2((64 - bits) as nat) as int;
        assert(n / unit < p) by (nonlinear_arith)
            requires
                n < unit * p,
                unit > 0,
        ;
        assert(q <= p);
        assert(q * unit <= p * unit) by (nonlinear_arith)
            requires
                q <= p,
                unit > 0,
        ;
        assert(p * unit == unit * p) by (nonlinear_arith);
    }
}

fn push_tenths(out: &mut String, bytes: u64, unit: u128, name: &str)
    requires
        unit == 1024 || unit == 1048576 || unit == 1073741824,
    ensures
        final(out)@ == old(out)@ + (tenths_text(
            rounded_quotient(10 * as_double(bytes as nat), unit as nat),
        ) + name@),
{
    let ghost start = out@;
    let v: u128 = to_double(bytes);
    let t: u128 = round_quotient(10 * v, unit);
    assert(t <= 0x7fff_ffff_ffff_ffff) by {
        if unit == 1024 {
            assert(t <= (10 * v) / 1024 + 1);
        } else if unit == 1048576 {
            assert(t <= (10 * v) / 1048576 + 1);
        } else {
            assert(t <= (10 * v) / 1073741824 + 1);
        }
    }
    let tenths: u64 = t as u64;
    push_decimal(out, tenths / 10);
    push_text(out, ".");
    push_decimal(out, tenths % 10);
    push_text(out, name);
    assert(decimal((tenths % 10) as nat) =~= seq![digit_char((tenths % 10) as nat)]);
    assert(out@ =~= start + (tenths_text(tenths as nat) + name@));
}

/// A number of bytes for people.
pub fn format_bytes(bytes: u64) -> (text: String)
    ensures
        text@ == byte_text(bytes as nat),
{
    let mut text: String = String::new();
    if bytes < 1024 {
        push_decimal(&mut text, bytes);
        push_text(&mut text, " B");
    } else if bytes < 1048576 {
        push_tenths(&mut text, bytes, 1024, " KB");
    } else if bytes < 1073741824 {
        push_tenths(&mut text, bytes, 1048576, " MB");
    } else {
        push_tenths(&mut text, bytes, 1073741824, " GB");
    }
    assert(text@ =~= byte_text(bytes as nat));
    text
}

/// Packets inside the tunnel are 64 bytes shorter than outside, none where there is no room, and
/// 1346 long where the outside is unknown.
pub proof fn tunnel_takes_its_share(mtu: u16)
    ensures
        mtu >= 64 ==> mtu_for(Some(mtu)) == mtu - 64,
        mtu < 64 ==> mtu_for(Some(mtu)) == 0,
        mtu_for(None) == 1346,
{
}

/// A setting that the arguments give counts before the file's, and the file's before none; a
/// setting that is given counts before the default.
pub proof fn nearer_setting_counts_first(a: Seq<char>, b: Option<Seq<char>>, v: u64, default: u64)
    ensures
        first_given(Some(a), b) == Some(a),
        first_given(None, b) == b,
        or_else(Some(v), default) == v,
        or_else(None, default) == default,
{
}

/// The server's address inside the tunnel is the one given, or 10.0.0.1.
pub proof fn server_has_an_address(ip: [u8; 4])
    ensures
        or_default_ip(Some(ip)) == ip@,
        or_default_ip(None) == seq![10u8, 0u8, 0u8, 1u8],
{
}

/// A key in a text is accepted exactly where the text, without white space around it, is base64
/// of 32 bytes, and then it is those bytes; other lengths are told.
pub proof fn key_is_thirty_two_bytes(text: Seq<char>)
    ensures
        match base64_bytes(trimmed(text)) {
            None => key_text(text) == Err::<Seq<u8>, KeyError>(KeyError::NotBase64),
            Some(b) => {
                &&& b.len() == 32 ==> key_text(text) == Ok::<Seq<u8>, KeyError>(b)
                &&& b.len() != 32 ==> key_text(text) == Err::<Seq<u8>, KeyError>(
                    KeyError::WrongLength(b.len() as usize),
                )
            },
        },
{
}

/// A seed file of 32 bytes is the seed itself; any other is read as text.
pub proof fn seed_is_raw_or_text(data: Seq<u8>, text: Seq<char>)
    ensures
        data.len() == 32 ==> seed_of(data, text) == Ok::<Seq<u8>, KeyError>(data),
        data.len() != 32 ==> seed_of(data, text) == key_text(text),
{
}

/// A key is blank where all of its bytes are zero; one other byte is enough to tell it apart.
pub proof fn one_byte_fills_a_key(key: Seq<u8>, i: int)
    requires
        0 <= i < key.len(),
    ensures
        key[i] != 0 ==> !is_blank_key(key),
        is_blank_key(Seq::new(32, |k: int| 0u8)),
{
}

/// Hexadecimal digits are read in either case, and nothing else is one.
pub proof fn hex_digits_are_read_in_either_case(c: char)
    ensures
        '0' <= c <= '9' ==> hex_value(c) == Some((c as nat - '0' as nat) as nat),
        'a' <= c <= 'f' ==> hex_value(c) == Some((c as nat - 'a' as nat + 10) as nat),
        'A' <= c <= 'F' ==> hex_value(c) == Some((c as nat - 'A' as nat + 10) as nat),
        !('0' <= c <= '9') && !('a' <= c <= 'f') && !('A' <= c <= 'F') ==> hex_value(c) is None,
{
}

/// A key in hexadecimal has 64 digits, two for each byte, the high one first.
pub proof fn hex_key_has_two_digits_a_byte(text: Seq<char>, i: int)
    requires
        0 <= i < 32,
    ensures
        text.len() != 64 ==> !is_key_hex(text),
        is_key_hex(text) ==> hex_value(text[2 * i]) is Some && hex_value(text[2 * i + 1]) is Some
            && hex_byte(text, i) == 16 * hex_value(text[2 * i])->0 + hex_value(text[2 * i + 1])->0,
{
}

/// A quotient is rounded to the nearest whole number, and to the even one where two are equally
/// near.
pub proof fn quotient_is_rounded_to_nearest(n: nat, d: nat)
    requires
        d > 0,
    ensures
        ({
            let q = rounded_quotient(n, d);
            &&& 2 * n <= 2 * (q * d) + d
            &&& 2 * (q * d) <= 2 * n + d
            &&& 2 * n == 2 * (q * d) + d || 2 * (q * d) == 2 * n + d ==> q % 2 == 0
        }),
{
    let q = n / d;
    let r = n % d;
    vstd::arithmetic::div_mod::lemma_fundamental_div_mod(n as int, d as int);
    vstd::arithmetic::div_mod::lemma_mod_bound(n as int, d as int);
    assert(q * d == d * q) by (nonlinear_arith);
    assert((q + 1) * d == q * d + d) by (nonlinear_arith);
}

/// A number of up to 53 bits is held exactly.
pub proof fn small_numbers_are_exact(n: nat)
    requires
        n < 0x20_0000_0000_0000,
    ensures
        as_double(n) == n,
{
    vstd::arithmetic::power2::lemma2_to64();
    assert(excess_bits(n) == 0);
    assert(n / 1 == n && n % 1 == 0);
}

/// An amount of bytes is shown in the largest unit that it fills, of 1024 each, with one digit
/// behind the point from the second unit on.
pub proof fn amount_is_shown_in_its_unit(bytes: nat)
    requires
        bytes < 0x20_0000_0000_0000,
    ensures
        bytes < 1024 ==> byte_text(bytes) == decimal(bytes) + " B"@,
        1024 <= bytes < 1024 * 1024 ==> byte_text(bytes) == tenths_text(
            rounded_quotient(10 * bytes, 1024),
        ) + " KB"@,
        1024 * 1024 <= bytes < 1024 * 1024 * 1024 ==> byte_text(bytes) == tenths_text(
            rounded_quotient(10 * bytes, 1048576),
        ) + " MB"@,
        bytes >= 1024 * 1024 * 1024 ==> byte_text(bytes) == tenths_text(
            rounded_quotient(10 * bytes, 1073741824),
        ) + " GB"@,
        forall|t: nat| #[trigger]
            tenths_text(t) == decimal(t / 10) + "."@ + decimal(t % 10),
{
    small_numbers_are_exact(bytes);
    assert forall|t: nat| #[trigger] tenths_text(t) == decimal(t / 10) + "."@ + decimal(t % 10) by {
        assert(decimal(t % 10) =~= seq![digit_char(t % 10)]);
    }
}

/// A connection key names what it was made of: a key of the operator's or for signing is in it
/// exactly where there is one.
pub proof fn key_is_named_where_there_is_one(name: Seq<char>, key: [u8; 32])
    ensures
        key_member(name, Some(key)) == name + json_string(base64_text(key@)),
        key_member(name, None).len() == 0,
{
}

/// The word that names a device is the first that says so.
pub proof fn device_follows_the_first_mark(words: Seq<Seq<char>>, i: int, k: int)
    requires
        is_first_dev(words, i),
    ensures
        words[i] == "dev"@,
        0 <= k < i ==> words[k] != "dev"@,
{
}

/// A connection key holds each of its parts under its name, as it was given.
pub proof fn connection_key_holds_its_parts(c: ConnectionInfo)
    ensures
        ({
            let json = connection_json(c);
            &&& starts_with(json, "{\"i\":"@ + json_string(c.client_ip@))
            &&& holds(json, ",\"k\":"@ + json_string(c.server_key@))
            &&& holds(json, ",\"n\":"@ + c.network_json@)
            &&& holds(json, ",\"p\":"@ + json_string(c.psk@))
            &&& holds(json, ",\"s\":"@ + json_string(c.server_addr@))
            &&& c.operator_key matches Some(key) ==> holds(
                json,
                ",\"mop\":"@ + json_string(base64_text(key@)),
            )
            &&& c.signing_key matches Some(key) ==> holds(
                json,
                ",\"sk\":"@ + json_string(base64_text(key@)),
            )
        }),
{
    let l1 = "{\"i\":"@;
    let l2 = ",\"k\":"@;
    let l4 = ",\"n\":"@;
    let l5 = ",\"p\":"@;
    let l6 = ",\"s\":"@;
    let v1 = json_string(c.client_ip@);
    let v2 = json_string(c.server_key@);
    let v5 = json_string(c.psk@);
    let v6 = json_string(c.server_addr@);
    let m3 = key_member(",\"mop\":"@, c.operator_key);
    let m7 = key_member(",\"sk\":"@, c.signing_key);
    let x1 = l1 + v1;
    let x2 = x1 + l2 + v2;
    let x3 = x2 + m3;
    let x4 = x3 + l4 + c.network_json@;
    let x5 = x4 + l5 + v5;
    let x6 = x5 + l6 + v6;
    let x7 = x6 + m7;
    let json = x7 + "}"@;
    assert(json == connection_json(c));
    lemma_starts_itself(x1);
    lemma_longer_holds(x1, l2, v2, x1, x1);
    lemma_longer_holds(x2, m3, seq![], x1, l2 + v2);
    lemma_longer_holds(x3, l4, c.network_json@, x1, l2 + v2);
    lemma_longer_holds(x3, l4, c.network_json@, x1, m3);
    lemma_longer_holds(x4, l5, v5, x1, l2 + v2);
    lemma_longer_holds(x4, l5, v5, x1, m3);
    lemma_longer_holds(x4, l5, v5, x1, l4 + c.network_json@);
    lemma_longer_holds(x5, l6, v6, x1, l2 + v2);
    lemma_longer_holds(x5, l6, v6, x1, m3);
    lemma_longer_holds(x5, l6, v6, x1, l4 + c.network_json@);
    lemma_longer_holds(x5, l6, v6, x1, l5 + v5);
    lemma_longer_holds(x6, m7, "}"@, x1, l2 + v2);
    lemma_longer_holds(x6, m7, "}"@, x1, m3);
    lemma_longer_holds(x6, m7, "}"@, x1, l4 + c.network_json@);
    lemma_longer_holds(x6, m7, "}"@, x1, l5 + v5);
    lemma_longer_holds(x6, m7, "}"@, x1, l6 + v6);
}

proof fn lemma_starts_itself(text: Seq<char>)
    ensures
        starts_with(text, text),
        holds(text, text),
{
    part_stands_between(seq![], text, seq![]);
    assert(seq![] + text + seq![] =~= text);
    assert(text + seq![] =~= text);
}

proof fn lemma_longer_holds(
    text: Seq<char>,
    a: Seq<char>,
    b: Seq<char>,
    start: Seq<char>,
    part: Seq<char>,
)
    ensures
        holds(text + a + b, a + b),
        holds(text + a + b, a),
        starts_with(text, start) ==> starts_with(text + a + b, start),
        holds(text, part) ==> holds(text + a + b, part),
        holds(text + a, a),
        starts_with(text, start) ==> starts_with(text + a, start),
        holds(text, part) ==> holds(text + a, part),
{
    let longer = text + a + b;
    part_stands_between(text, a + b, seq![]);
    assert(text + (a + b) + seq![] =~= longer);
    part_stands_between(text, a, b);
    part_stands_between(text, a, seq![]);
    assert(text + a + seq![] =~= text + a);
    if starts_with(text, start) {
        assert(longer.subrange(0, start.len() as int) =~= text.subrange(0, start.len() as int));
        assert((text + a).subrange(0, start.len() as int) =~= text.subrange(
            0,
            start.len() as int,
        ));
    }
    if holds(text, part) {
        let at = choose|at: int| #[trigger] stands_at(text, part, at);
        assert(longer.subrange(at, at + part.len()) =~= text.subrange(at, at + part.len()));
        assert((text + a).subrange(at, at + part.len()) =~= text.subrange(at, at + part.len()));
        assert(stands_at(longer, part, at));
        assert(stands_at(text + a, part, at));
    }
}

} // verus!
