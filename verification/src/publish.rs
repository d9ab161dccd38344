//! Publishing of bootstrap descriptors where clients without a session can find them.

use crate::outside::{
    format_utc, hmac_bytes, hmac_sha256, sha256, sha256_digest, utc_text,
};
use crate::text::{
    chars_of, decimal, has_prefix, hex_text, part_stands_between, push_chars, push_decimal,
    push_hex, push_text, starts_with,
};
use vstd::prelude::*;
use vstd::slice::slice_subrange;
use vstd::utf8::encode_utf8;

verus! {

/// Where descriptors are published.
pub enum PublishChannel {
    /// An object store that speaks S3, addressed by path.
    S3 {
        endpoint: String,
        region: String,
        bucket: String,
        key: String,
        access_key: String,
        secret_key: String,
    },
    /// An asset of a GitHub release under a fixed tag.
    Github { repo: String, asset_name: String, tag_name: String, token: String },
    /// A document sent by a Telegram bot.
    Telegram { bot_token: String, chat_id: String },
}

impl PublishChannel {
    /// The channel's name in logs.
    pub fn label(&self) -> (label: &'static str)
        ensures
            label@ == (match self {
                PublishChannel::S3 { .. } => "s3"@,
                PublishChannel::Github { .. } => "github"@,
                PublishChannel::Telegram { .. } => "telegram"@,
            }),
    {
        match self {
            PublishChannel::S3 { .. } => "s3",
            PublishChannel::Github { .. } => "github",
            PublishChannel::Telegram { .. } => "telegram",
        }
    }
}

/// Whether and where descriptors are published.
pub struct BootstrapPublishConfig {
    pub enabled: bool,
    pub channels: Vec<PublishChannel>,
}

impl Default for BootstrapPublishConfig {
    /// Descriptors are not published.
    fn default() -> (config: BootstrapPublishConfig)
        ensures
            !config.enabled,
            config.channels@.len() == 0,
    {
        BootstrapPublishConfig { enabled: false, channels: Vec::new() }
    }
}

/// Seconds to wait before each further attempt on a channel.
pub const RETRY_DELAYS: [u64; 3] = [5, 30, 120];

/// What to do next.
#[derive(Clone, Copy, PartialEq, Eq, Structural)]
pub enum PublishAction {
    /// Publish on this channel.
    Attempt { channel: usize },
    /// Wait for so many seconds, then publish on this channel once more.
    RetryAfter { channel: usize, secs: u64 },
    /// All channels have been served.
    Finished,
}

/// How far the publishing has come: the channel being served, and how often it failed.
#[derive(Clone, Copy, PartialEq, Eq, Structural)]
pub struct PublishRun {
    pub channels: usize,
    pub channel: usize,
    pub failures: usize,
}

impl PublishRun {
    /// A run that has not finished.
    pub open spec fn running(self) -> bool {
        self.channel < self.channels && self.failures <= RETRY_DELAYS@.len()
    }

    /// The run once the current channel has been served or given up.
    pub open spec fn moved_on(self) -> PublishRun {
        PublishRun { channels: self.channels, channel: (self.channel + 1) as usize, failures: 0 }
    }

    /// The run after an attempt.
    pub open spec fn after(self, success: bool) -> PublishRun {
        if success || self.failures >= RETRY_DELAYS@.len() {
            self.moved_on()
        } else {
            PublishRun { failures: (self.failures + 1) as usize, ..self }
        }
    }

    /// What is due after an attempt.
    pub open spec fn action_after(self, success: bool) -> PublishAction {
        if success || self.failures >= RETRY_DELAYS@.len() {
            if self.channel + 1 < self.channels {
                PublishAction::Attempt { channel: (self.channel + 1) as usize }
            } else {
                PublishAction::Finished
            }
        } else {
            PublishAction::RetryAfter {
                channel: self.channel,
                secs: RETRY_DELAYS@[self.failures as int],
            }
        }
    }

    /// How many attempts the run can still take.
    pub open spec fn attempts_left(self) -> int {
        if self.channel < self.channels {
            (self.channels - self.channel) * 4 - self.failures
        } else {
            0
        }
    }

    /// Starts a run, and says what is due first. Nothing is published where that is switched
    /// off or there is no channel.
    pub fn start(config: &BootstrapPublishConfig) -> (started: (PublishRun, PublishAction))
        ensures
            started.0.channels == (if config.enabled {
                config.channels@.len()
            } else {
                0
            }),
            started.0.channel == 0,
            started.0.failures == 0,
            started.1 == (if config.enabled && config.channels@.len() > 0 {
                PublishAction::Attempt { channel: 0 }
            } else {
                PublishAction::Finished
            }),
    {
        let channels: usize = if config.enabled {
            config.channels.len()
        } else {
            0
        };
        let run: PublishRun = PublishRun { channels, channel: 0, failures: 0 };
        if channels > 0 {
            (run, PublishAction::Attempt { channel: 0 })
        } else {
            (run, PublishAction::Finished)
        }
    }

    /// Notes the outcome of an attempt, and says what is due next.
    pub fn attempted(&mut self, success: bool) -> (action: PublishAction)
        requires
            old(self).running(),
        ensures
            *final(self) == old(self).after(success),
            action == old(self).action_after(success),
            action != PublishAction::Finished ==> final(self).running(),
    {
        if !success && self.failures < 3 {
            let secs: u64 = RETRY_DELAYS[self.failures];
            self.failures = self.failures + 1;
            return PublishAction::RetryAfter { channel: self.channel, secs };
        }
        self.channel = self.channel + 1;
        self.failures = 0;
        if self.channel < self.channels {
            PublishAction::Attempt { channel: self.channel }
        } else {
            PublishAction::Finished
        }
    }
}

/// Every attempt uses up one of four that each channel has, so a run ends.
pub proof fn publishing_ends(run: PublishRun, success: bool)
    requires
        run.running(),
    ensures
        run.after(success).attempts_left() < run.attempts_left(),
        run.after(success).attempts_left() >= 0,
{
}

/// A channel that fails for good does not stop the others: the next one is served then.
pub proof fn failing_channel_blocks_no_other(run: PublishRun)
    requires
        run.running(),
        run.failures == RETRY_DELAYS@.len(),
        run.channel + 1 < run.channels,
    ensures
        run.action_after(false) == (PublishAction::Attempt { channel: (run.channel + 1) as usize }),
        run.after(false).running(),
{
}

/// The digest of bytes, in hexadecimal.
pub fn sha256_hex(data: &[u8]) -> (text: String)
    ensures
        text@ == hex_text(sha256_digest(data@)),
{
    let digest: Vec<u8> = sha256(data);
    let mut text: String = String::new();
    push_hex(&mut text, digest.as_slice());
    text
}

/// A text without the slashes at its end.
pub open spec fn without_slashes(text: Seq<char>) -> Seq<char>
    decreases text.len(),
{
    if text.len() > 0 && text.last() == '/' {
        without_slashes(text.drop_last())
    } else {
        text
    }
}

/// The host of an endpoint: what follows the scheme.
pub open spec fn host_of(endpoint: Seq<char>) -> Seq<char> {
    let trimmed = without_slashes(endpoint);
    if starts_with(trimmed, "https://"@) {
        trimmed.skip("https://"@.len() as int)
    } else if starts_with(trimmed, "http://"@) {
        trimmed.skip("http://"@.len() as int)
    } else {
        trimmed
    }
}

/// The path of an object.
pub open spec fn object_path(bucket: Seq<char>, key: Seq<char>) -> Seq<char> {
    "/"@ + bucket + "/"@ + key
}

/// The headers that are signed, as AWS signature version 4 lists them.
pub open spec fn signed_header_lines(host: Seq<char>, hash: Seq<char>, amz_date: Seq<char>) -> Seq<
    char,
> {
    "host:"@ + host + "\nx-amz-content-sha256:"@ + hash + "\nx-amz-date:"@ + amz_date + "\n"@
}

/// The request in the form that is signed.
pub open spec fn canonical_request(
    path: Seq<char>,
    host: Seq<char>,
    hash: Seq<char>,
    amz_date: Seq<char>,
) -> Seq<char> {
    "PUT\n"@ + path + "\n\n"@ + signed_header_lines(host, hash, amz_date) + "\n"@
        + "host;x-amz-content-sha256;x-amz-date"@ + "\n"@ + hash
}

/// The scope of the credential.
pub open spec fn credential_scope(date: Seq<char>, region: Seq<char>) -> Seq<char> {
    date + "/"@ + region + "/s3/aws4_request"@
}

/// The text that is signed.
pub open spec fn string_to_sign(amz_date: Seq<char>, scope: Seq<char>, request: Seq<char>) -> Seq<
    char,
> {
    "AWS4-HMAC-SHA256\n"@ + amz_date + "\n"@ + scope + "\n"@ + hex_text(
        sha256_digest(encode_utf8(request)),
    )
}

/// The key that a request is signed with.
pub open spec fn signing_key(secret: Seq<char>, date: Seq<char>, region: Seq<char>) -> Seq<u8> {
    let k_date = hmac_sha256(encode_utf8("AWS4"@ + secret), encode_utf8(date));
    let k_region = hmac_sha256(k_date, encode_utf8(region));
    let k_service = hmac_sha256(k_region, encode_utf8("s3"@));
    hmac_sha256(k_service, encode_utf8("aws4_request"@))
}

/// The header that carries the signature.
pub open spec fn authorization(access: Seq<char>, scope: Seq<char>, signature: Seq<u8>) -> Seq<
    char,
> {
    "AWS4-HMAC-SHA256 Credential="@ + access + "/"@ + scope + ", SignedHeaders="@
        + "host;x-amz-content-sha256;x-amz-date"@ + ", Signature="@ + hex_text(signature)
}

/// A request that puts an object.
pub struct S3Request {
    pub url: String,
    pub host: String,
    pub payload_hash: String,
    pub amz_date: String,
    pub authorization: String,
}

/// A request puts this text, at this time, with these settings.
pub open spec fn is_s3_request(
    r: S3Request,
    payload: Seq<char>,
    settings: S3Settings,
    amz_date: Seq<char>,
    date: Seq<char>,
) -> bool {
    let path = object_path(settings.bucket@, settings.key@);
    let host = host_of(settings.endpoint@);
    let hash = hex_text(sha256_digest(encode_utf8(payload)));
    let scope = credential_scope(date, settings.region@);
    let request = canonical_request(path, host, hash, amz_date);
    &&& r.url@ == without_slashes(settings.endpoint@) + path
    &&& r.host@ == host
    &&& r.payload_hash@ == hash
    &&& r.amz_date@ == amz_date
    &&& r.authorization@ == authorization(
        settings.access_key@,
        scope,
        hmac_sha256(
            signing_key(settings.secret_key@, date, settings.region@),
            encode_utf8(string_to_sign(amz_date, scope, request)),
        ),
    )
}

/// The settings of an S3 channel.
pub struct S3Settings<'a> {
    pub endpoint: &'a str,
    pub region: &'a str,
    pub bucket: &'a str,
    pub key: &'a str,
    pub access_key: &'a str,
    pub secret_key: &'a str,
}

fn trim_slashes(text: &str) -> (trimmed: Vec<char>)
    ensures
        trimmed@ == without_slashes(text@),
{
    let mut chars: Vec<char> = chars_of(text);
    while chars.len() > 0 && chars[chars.len() - 1] == '/'
        invariant
            without_slashes(chars@) == without_slashes(text@),
        decreases chars.len(),
    {
        let ghost before = chars@;
        let _last: Option<char> = chars.pop();
        assert(chars@ =~= before.drop_last());
    }
    chars
}

fn text_from(chars: &[char]) -> (text: String)
    ensures
        text@ == chars@,
{
    let mut text: String = String::new();
    push_chars(&mut text, chars);
    assert(text@ =~= chars@);
    text
}

fn strip_scheme(trimmed: &Vec<char>, text: &str) -> (host: String)
    requires
        text@ == trimmed@,
    ensures
        host@ == (if starts_with(text@, "https://"@) {
            text@.skip("https://"@.len() as int)
        } else if starts_with(text@, "http://"@) {
            text@.skip("http://"@.len() as int)
        } else {
            text@
        }),
{
    proof {
        reveal_strlit("https://");
        reveal_strlit("http://");
    }
    let from: usize = if has_prefix(text, "https://") {
        8
    } else if has_prefix(text, "http://") {
        7
    } else {
        0
    };
    let rest: &[char] = slice_subrange(trimmed.as_slice(), from, trimmed.len());
    assert(rest@ =~= text@.skip(from as int));
    assert(text@.skip(0) =~= text@);
    text_from(rest)
}

fn canonical_text(path: &str, host: &str, hash: &str, amz_date: &str) -> (request: String)
    ensures
        request@ == canonical_request(path@, host@, hash@, amz_date@),
{
    let mut request: String = String::new();
    push_text(&mut request, "PUT\n");
    push_text(&mut request, path);
    push_text(&mut request, "\n\n");
    push_text(&mut request, "host:");
    push_text(&mut request, host);
    push_text(&mut request, "\nx-amz-content-sha256:");
    push_text(&mut request, hash);
    push_text(&mut request, "\nx-amz-date:");
    push_text(&mut request, amz_date);
    push_text(&mut request, "\n");
    push_text(&mut request, "\n");
    push_text(&mut request, "host;x-amz-content-sha256;x-amz-date");
    push_text(&mut request, "\n");
    push_text(&mut request, hash);
    assert(request@ =~= canonical_request(path@, host@, hash@, amz_date@));
    request
}

fn signing_key_bytes(secret: &str, date: &str, region: &str) -> (key: Vec<u8>)
    ensures
        key@ == signing_key(secret@, date@, region@),
{
    let mut first: String = String::new();
    push_text(&mut first, "AWS4");
    push_text(&mut first, secret);
    assert(first@ =~= "AWS4"@ + secret@);
    let k_date: Vec<u8> = hmac_bytes(first.as_str().as_bytes(), date.as_bytes());
    let k_region: Vec<u8> = hmac_bytes(k_date.as_slice(), region.as_bytes());
    let k_service: Vec<u8> = hmac_bytes(k_region.as_slice(), "s3".as_bytes());
    hmac_bytes(k_service.as_slice(), "aws4_request".as_bytes())
}

fn authorization_text(access: &str, scope: &str, signature: &[u8]) -> (header: String)
    ensures
        header@ == authorization(access@, scope@, signature@),
{
    let mut header: String = String::new();
    push_text(&mut header, "AWS4-HMAC-SHA256 Credential=");
    push_text(&mut header, access);
    push_text(&mut header, "/");
    push_text(&mut header, scope);
    push_text(&mut header, ", SignedHeaders=");
    push_text(&mut header, "host;x-amz-content-sha256;x-amz-date");
    push_text(&mut header, ", Signature=");
    push_hex(&mut header, signature);
    assert(header@ =~= authorization(access@, scope@, signature@));
    header
}

/// The signed request that puts a text into an object store, for a time that is already
/// written out as `amz_date` and `date`.
pub fn sign_s3_request(payload: &str, settings: &S3Settings, amz_date: &str, date: &str) -> (request:
    S3Request)
    ensures
        is_s3_request(request, payload@, *settings, amz_date@, date@),
{
    let trimmed: Vec<char> = trim_slashes(settings.endpoint);
    let base: String = text_from(trimmed.as_slice());
    let host: String = strip_scheme(&trimmed, base.as_str());
    let payload_hash: String = sha256_hex(payload.as_bytes());
    let mut path: String = String::new();
    push_text(&mut path, "/");
    push_text(&mut path, settings.bucket);
    push_text(&mut path, "/");
    push_text(&mut path, settings.key);
    assert(path@ =~= object_path(settings.bucket@, settings.key@));
    let canonical: String = canonical_text(
        path.as_str(),
        host.as_str(),
        payload_hash.as_str(),
        amz_date,
    );
    let request_hash: String = sha256_hex(canonical.as_str().as_bytes());
    let mut scope: String = String::new();
    push_text(&mut scope, date);
    push_text(&mut scope, "/");
    push_text(&mut scope, settings.region);
    push_text(&mut scope, "/s3/aws4_request");
    assert(scope@ =~= credential_scope(date@, settings.region@));
    let mut to_sign: String = String::new();
    push_text(&mut to_sign, "AWS4-HMAC-SHA256\n");
    push_text(&mut to_sign, amz_date);
    push_text(&mut to_sign, "\n");
    push_text(&mut to_sign, scope.as_str());
    push_text(&mut to_sign, "\n");
    push_text(&mut to_sign, request_hash.as_str());
    assert(to_sign@ =~= string_to_sign(amz_date@, scope@, canonical@));
    let key: Vec<u8> = signing_key_bytes(settings.secret_key, date, settings.region);
    let signature: Vec<u8> = hmac_bytes(key.as_slice(), to_sign.as_str().as_bytes());
    let header: String = authorization_text(
        settings.access_key,
        scope.as_str(),
        signature.as_slice(),
    );
    let mut url: String = base.clone();
    push_text(&mut url, path.as_str());
    S3Request { url, host, payload_hash, amz_date: amz_date.to_owned(), authorization: header }
}

/// The signed request that puts a text into an object store at a time, in seconds since 1970.
/// `None` for a time that has no date.
pub fn s3_request_at(payload: &str, settings: &S3Settings, unix_secs: i64) -> (request: Option<
    S3Request,
>)
    ensures
        match request {
            Some(r) => {
                &&& utc_text(unix_secs, "%Y%m%dT%H%M%SZ"@) is Some
                &&& utc_text(unix_secs, "%Y%m%d"@) is Some
                &&& is_s3_request(
                    r,
                    payload@,
                    *settings,
                    utc_text(unix_secs, "%Y%m%dT%H%M%SZ"@)->0,
                    utc_text(unix_secs, "%Y%m%d"@)->0,
                )
            },
            None => utc_text(unix_secs, "%Y%m%dT%H%M%SZ"@) is None || utc_text(
                unix_secs,
                "%Y%m%d"@,
            ) is None,
        },
{
    match (format_utc(unix_secs, "%Y%m%dT%H%M%SZ"), format_utc(unix_secs, "%Y%m%d")) {
        (Some(amz_date), Some(date)) => Some(
            sign_s3_request(payload, settings, amz_date.as_str(), date.as_str()),
        ),
        _ => None,
    }
}

/// Where the release of a tag is found.
pub fn release_url(repo: &str, tag_name: &str) -> (url: String)
    ensures
        url@ == "https://api.github.com/repos/"@ + repo@ + "/releases/tags/"@ + tag_name@,
{
    let mut url: String = String::new();
    push_text(&mut url, "https://api.github.com/repos/");
    push_text(&mut url, repo);
    push_text(&mut url, "/releases/tags/");
    push_text(&mut url, tag_name);
    url
}

/// Where a release is created.
pub fn create_release_url(repo: &str) -> (url: String)
    ensures
        url@ == "https://api.github.com/repos/"@ + repo@ + "/releases"@,
{
    let mut url: String = String::new();
    push_text(&mut url, "https://api.github.com/repos/");
    push_text(&mut url, repo);
    push_text(&mut url, "/releases");
    url
}

/// Where an asset is deleted.
pub fn asset_url(repo: &str, asset_id: u64) -> (url: String)
    ensures
        url@ == "https://api.github.com/repos/"@ + repo@ + "/releases/assets/"@ + decimal(
            asset_id as nat,
        ),
{
    let mut url: String = String::new();
    push_text(&mut url, "https://api.github.com/repos/");
    push_text(&mut url, repo);
    push_text(&mut url, "/releases/assets/");
    push_decimal(&mut url, asset_id);
    url
}

/// The header that carries a token.
pub fn bearer(token: &str) -> (header: String)
    ensures
        header@ == "Bearer "@ + token@,
{
    let mut header: String = String::new();
    push_text(&mut header, "Bearer ");
    push_text(&mut header, token);
    header
}

/// An asset as a release lists it.
pub struct ReleaseAsset {
    pub name: Option<String>,
    pub id: Option<u64>,
}

/// What a release says of itself.
pub struct ReleaseInfo {
    pub id: Option<u64>,
    pub upload_url: Option<String>,
    pub assets: Vec<ReleaseAsset>,
}

/// Where a new asset goes, and the old one that makes room for it.
pub struct ReleaseTarget {
    pub upload_url: String,
    pub stale_asset: Option<u64>,
}

/// An asset has a name.
pub open spec fn is_named(asset: ReleaseAsset, name: Seq<char>) -> bool {
    asset.name is Some && asset.name->0@ == name
}

/// The id of the first asset with a name, where it has one.
pub open spec fn asset_id_of(assets: Seq<ReleaseAsset>, name: Seq<char>) -> Option<u64>
    decreases assets.len(),
{
    if assets.len() == 0 {
        None
    } else if is_named(assets[0], name) {
        assets[0].id
    } else {
        asset_id_of(assets.drop_first(), name)
    }
}

fn find_asset(assets: &Vec<ReleaseAsset>, name: &str) -> (id: Option<u64>)
    ensures
        id == asset_id_of(assets@, name@),
{
    let mut i: usize = 0;
    assert(assets@.skip(0) =~= assets@);
    while i < assets.len()
        invariant
            i <= assets.len(),
            asset_id_of(assets@, name@) == asset_id_of(assets@.skip(i as int), name@),
        decreases assets.len() - i,
    {
        assert(assets@.skip(i as int).drop_first() =~= assets@.skip(i + 1));
        match &assets[i].name {
            Some(n) => {
                if crate::text::same_text(n.as_str(), name) {
                    return assets[i].id;
                }
            },
            None => {},
        }
        i += 1;
    }
    None
}

/// Where a new asset goes in a release that is there, or in one that was just created: it
/// must have an id and an upload address. An asset of the same name in a release that was
/// there makes room.
pub fn release_target(info: ReleaseInfo, asset_name: &str, created: bool) -> (target: Result<
    ReleaseTarget,
    &'static str,
>)
    ensures
        match target {
            Ok(t) => info.id is Some && info.upload_url is Some && t.upload_url@
                == info.upload_url->0@ && t.stale_asset == (if created {
                None
            } else {
                asset_id_of(info.assets@, asset_name@)
            }),
            Err(e) => (info.id is None || info.upload_url is None) && e@ == (if created {
                if info.id is None {
                    "GitHub create-release response missing id"@
                } else {
                    "GitHub create-release response missing upload_url"@
                }
            } else {
                if info.id is None {
                    "GitHub release response missing id"@
                } else {
                    "GitHub release response missing upload_url"@
                }
            }),
        },
{
    if info.id.is_none() {
        return Err(
            if created {
                "GitHub create-release response missing id"
            } else {
                "GitHub release response missing id"
            },
        );
    }
    let stale_asset: Option<u64> = if created {
        None
    } else {
        find_asset(&info.assets, asset_name)
    };
    match info.upload_url {
        Some(upload_url) => Ok(ReleaseTarget { upload_url, stale_asset }),
        None => Err(
            if created {
                "GitHub create-release response missing upload_url"
            } else {
                "GitHub release response missing upload_url"
            },
        ),
    }
}

/// The part of a text in front of the first `{`.
pub open spec fn before_brace(text: Seq<char>) -> Seq<char>
    decreases text.len(),
{
    if text.len() == 0 || text[0] == '{' {
        seq![]
    } else {
        seq![text[0]] + before_brace(text.drop_first())
    }
}

/// Where an asset is uploaded to: the address without its template part, and the name.
pub fn upload_url(template: &str, asset_name: &str) -> (url: String)
    ensures
        url@ == before_brace(template@) + "?name="@ + asset_name@,
{
    let chars: Vec<char> = chars_of(template);
    let mut url: String = String::new();
    let mut i: usize = 0;
    assert(chars@.skip(0) =~= chars@);
    while i < chars.len() && chars[i] != '{'
        invariant
            i <= chars.len(),
            before_brace(chars@) == url@ + before_brace(chars@.skip(i as int)),
        decreases chars.len() - i,
    {
        let ghost before = url@;
        url.push(chars[i]);
        assert(chars@.skip(i as int).drop_first() =~= chars@.skip(i + 1));
        assert(before + before_brace(chars@.skip(i as int)) =~= url@ + before_brace(
            chars@.skip(i + 1),
        ));
        i += 1;
    }
    assert(before_brace(chars@.skip(i as int)) =~= seq![]);
    assert(url@ =~= before_brace(template@));
    push_text(&mut url, "?name=");
    push_text(&mut url, asset_name);
    url
}

/// Where a bot sends a document.
pub fn telegram_url(bot_token: &str) -> (url: String)
    ensures
        url@ == "https://api.telegram.org/bot"@ + bot_token@ + "/sendDocument"@,
{
    let mut url: String = String::new();
    push_text(&mut url, "https://api.telegram.org/bot");
    push_text(&mut url, bot_token);
    push_text(&mut url, "/sendDocument");
    url
}

/// A channel that fails is tried again after 5, 30 and 120 seconds, and then given up; the next
/// one is tried at once, as it is after a success, and counts its own failures.
pub proof fn channel_is_tried_four_times(run: PublishRun)
    requires
        run.running(),
    ensures
        run.failures == 0 ==> run.action_after(false) == (PublishAction::RetryAfter {
            channel: run.channel,
            secs: 5,
        }),
        run.failures == 1 ==> run.action_after(false) == (PublishAction::RetryAfter {
            channel: run.channel,
            secs: 30,
        }),
        run.failures == 2 ==> run.action_after(false) == (PublishAction::RetryAfter {
            channel: run.channel,
            secs: 120,
        }),
        run.failures < 3 ==> run.after(false).channel == run.channel && run.after(false).failures
            == run.failures + 1 && run.after(false).channels == run.channels,
        run.failures == 3 ==> run.action_after(false) == run.action_after(true) && run.after(false)
            == run.after(true),
        run.after(true).channel == run.channel + 1,
        run.after(true).failures == 0,
        run.after(true).channels == run.channels,
        run.channel + 1 == run.channels ==> run.action_after(true) == PublishAction::Finished,
        run.channel + 1 < run.channels ==> run.action_after(true) == (PublishAction::Attempt {
            channel: (run.channel + 1) as usize,
        }),
{
}

/// Slashes at the end of an address count for nothing, and only those: what is left does not end
/// with one, and one more slash changes nothing.
pub proof fn trailing_slashes_count_for_nothing(text: Seq<char>)
    ensures
        without_slashes(text.push('/')) == without_slashes(text),
        without_slashes(text).len() > 0 ==> without_slashes(text).last() != '/',
        text.len() == 0 || text.last() != '/' ==> without_slashes(text) == text,
        without_slashes(text).len() <= text.len(),
        text.take(without_slashes(text).len() as int) == without_slashes(text),
        forall|i: int|
            without_slashes(text).len() <= i < text.len() ==> #[trigger] text[i] == '/',
    decreases text.len(),
{
    assert(text.push('/').drop_last() =~= text);
    assert(text.take(text.len() as int) =~= text);
    if text.len() > 0 && text.last() == '/' {
        let rest = text.drop_last();
        trailing_slashes_count_for_nothing(rest);
        assert(text.take(without_slashes(rest).len() as int) =~= rest.take(
            without_slashes(rest).len() as int,
        ));
        assert forall|i: int| without_slashes(text).len() <= i < text.len() implies #[trigger]
            text[i] == '/' by {
            if i < rest.len() {
                assert(rest[i] == text[i]);
            }
        }
    }
}

/// The host is what follows the scheme, with or without one.
pub proof fn host_follows_the_scheme(host: Seq<char>)
    requires
        host.len() > 0,
        host.last() != '/',
        host[0] != 'h',
    ensures
        host_of(host) == host,
        host_of("https://"@ + host) == host,
        host_of("http://"@ + host) == host,
{
    reveal_strlit("https://");
    reveal_strlit("http://");
    let secure = "https://"@ + host;
    let plain = "http://"@ + host;
    assert(without_slashes(host) == host);
    assert(secure.last() == host.last());
    assert(plain.last() == host.last());
    assert(secure.subrange(0, 8) =~= "https://"@);
    assert(plain.subrange(0, 7) =~= "http://"@);
    assert(secure.skip(8) =~= host);
    assert(plain.skip(7) =~= host);
    assert(plain[4] == ':');
    if starts_with(plain, "https://"@) {
        assert(plain.subrange(0, 8)[4] == "https://"@[4]);
    }
    if starts_with(host, "https://"@) {
        assert(host.subrange(0, 8)[0] == "https://"@[0]);
    }
    if starts_with(host, "http://"@) {
        assert(host.subrange(0, 7)[0] == "http://"@[0]);
    }
}

/// The asset that an upload replaces is the first of that name, whatever others there are.
pub proof fn first_asset_of_the_name_is_replaced(
    asset: ReleaseAsset,
    rest: Seq<ReleaseAsset>,
    name: Seq<char>,
)
    ensures
        asset_id_of(seq![], name) is None,
        asset.name is Some && asset.name->0@ == name ==> asset_id_of(seq![asset] + rest, name)
            == asset.id,
        asset.name is None ==> asset_id_of(seq![asset] + rest, name) == asset_id_of(rest, name),
        asset.name is Some && asset.name->0@ != name ==> asset_id_of(seq![asset] + rest, name)
            == asset_id_of(rest, name),
{
    assert((seq![asset] + rest).drop_first() =~= rest);
    assert((seq![asset] + rest)[0] == asset);
}

/// A template's address is all that stands before its first brace.
pub proof fn address_ends_at_the_brace(front: Seq<char>, rest: Seq<char>)
    requires
        forall|i: int| 0 <= i < front.len() ==> #[trigger] front[i] != '{',
    ensures
        before_brace(front + seq!['{'] + rest) == front,
        before_brace(front) == front,
    decreases front.len(),
{
    let text = front + seq!['{'] + rest;
    if front.len() > 0 {
        let tail = front.drop_first();
        assert forall|i: int| 0 <= i < tail.len() implies #[trigger] tail[i] != '{' by {
            assert(tail[i] == front[i + 1]);
        }
        address_ends_at_the_brace(tail, rest);
        assert(text.drop_first() =~= tail + seq!['{'] + rest);
        assert(text[0] == front[0]);
        assert(seq![front[0]] + tail =~= front);
    } else {
        assert(text[0] == '{');
        assert(before_brace(text) =~= front);
        assert(before_brace(front) =~= front);
    }
}

/// The text that a request signs holds the object that it puts, the host it is sent to and the
/// digest of its payload, each in its place.
pub proof fn signed_text_holds_what_is_sent(
    path: Seq<char>,
    host: Seq<char>,
    hash: Seq<char>,
    amz_date: Seq<char>,
)
    ensures
        ({
            let text = canonical_request(path, host, hash, amz_date);
            &&& text.len() == 4 + path.len() + 2 + signed_header_lines(host, hash, amz_date).len()
                + 1 + 36 + 1 + hash.len()
            &&& text.subrange(4, 4 + path.len() as int) == path
            &&& text.skip(text.len() - hash.len()) == hash
            &&& signed_header_lines(host, hash, amz_date).len() == 5 + host.len() + 22 + hash.len()
                + 12 + amz_date.len() + 1
            &&& signed_header_lines(host, hash, amz_date).subrange(5, 5 + host.len() as int) == host
        }),
{
    reveal_strlit("PUT\n");
    reveal_strlit("\n\n");
    reveal_strlit("\n");
    reveal_strlit("host;x-amz-content-sha256;x-amz-date");
    reveal_strlit("host:");
    reveal_strlit("\nx-amz-content-sha256:");
    reveal_strlit("\nx-amz-date:");
    let text = canonical_request(path, host, hash, amz_date);
    let lines = signed_header_lines(host, hash, amz_date);
    assert(text.subrange(4, 4 + path.len() as int) =~= path);
    assert(text.skip(text.len() - hash.len()) =~= hash);
    assert(lines.subrange(5, 5 + host.len() as int) =~= host);
}

/// A request is sent to the object's address at the endpoint, with the digest of what it sends,
/// and is signed for the day, the region and the account; the signature comes last, made over
/// that day's key.
pub proof fn request_is_signed_for_what_it_sends(
    r: S3Request,
    payload: Seq<char>,
    settings: S3Settings,
    amz_date: Seq<char>,
    date: Seq<char>,
)
    requires
        is_s3_request(r, payload, settings, amz_date, date),
    ensures
        r.payload_hash@ == hex_text(sha256_digest(encode_utf8(payload))),
        r.amz_date@ == amz_date,
        r.host@ == host_of(settings.endpoint@),
        starts_with(r.url@, without_slashes(settings.endpoint@) + "/"@ + settings.bucket@ + "/"@),
        r.url@.skip(r.url@.len() - settings.key@.len()) == settings.key@,
        starts_with(
            r.authorization@,
            "AWS4-HMAC-SHA256 Credential="@ + settings.access_key@ + "/"@ + date + "/"@
                + settings.region@ + "/s3/aws4_request"@,
        ),
        ({
            let text = "AWS4-HMAC-SHA256\n"@ + amz_date + "\n"@ + (date + "/"@ + settings.region@
                + "/s3/aws4_request"@) + "\n"@ + hex_text(
                sha256_digest(
                    encode_utf8(
                        canonical_request(
                            "/"@ + settings.bucket@ + "/"@ + settings.key@,
                            r.host@,
                            r.payload_hash@,
                            amz_date,
                        ),
                    ),
                ),
            );
            let signature = hex_text(
                hmac_sha256(
                    hmac_sha256(
                        hmac_sha256(
                            hmac_sha256(
                                hmac_sha256(
                                    encode_utf8("AWS4"@ + settings.secret_key@),
                                    encode_utf8(date),
                                ),
                                encode_utf8(settings.region@),
                            ),
                            encode_utf8("s3"@),
                        ),
                        encode_utf8("aws4_request"@),
                    ),
                    encode_utf8(text),
                ),
            );
            r.authorization@.skip(r.authorization@.len() - signature.len()) == signature
        }),
{
    let base = without_slashes(settings.endpoint@);
    let front = base + "/"@ + settings.bucket@ + "/"@;
    assert(r.url@ =~= front + settings.key@);
    part_stands_between(seq![], front, settings.key@);
    assert(r.url@.skip(r.url@.len() - settings.key@.len()) =~= settings.key@);
    let scope = credential_scope(date, settings.region@);
    let signature = hmac_sha256(
        signing_key(settings.secret_key@, date, settings.region@),
        encode_utf8(
            string_to_sign(
                amz_date,
                scope,
                canonical_request(
                    object_path(settings.bucket@, settings.key@),
                    host_of(settings.endpoint@),
                    hex_text(sha256_digest(encode_utf8(payload))),
                    amz_date,
                ),
            ),
        ),
    );
    let head = "AWS4-HMAC-SHA256 Credential="@ + settings.access_key@ + "/"@ + date + "/"@
        + settings.region@ + "/s3/aws4_request"@;
    let tail = ", SignedHeaders="@ + "host;x-amz-content-sha256;x-amz-date"@ + ", Signature="@
        + hex_text(signature);
    assert(r.authorization@ =~= head + tail);
    part_stands_between(seq![], head, tail);
    assert(r.authorization@.skip(r.authorization@.len() - hex_text(signature).len()) =~= hex_text(
        signature,
    ));
}

} // verus!
