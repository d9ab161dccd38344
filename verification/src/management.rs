//! The rules of the management interface: what it accepts, and what it answers.

use crate::outside::{alphanumeric, is_alphanumeric};
use crate::text::{
    bytes_less, bytes_order_is_asymmetric, bytes_order_is_transitive, chars_of, holds,
    is_white_space, precedes, push_text, same_text, text_holds, text_views, white_space,
};
use vstd::prelude::*;
use vstd::utf8::encode_utf8;

verus! {

/// Longest name of a client or mask, in bytes.
pub const MAX_NAME_LEN: usize = 64;

/// Largest mask that can be uploaded: 5 MB.
pub const MAX_MASK_SIZE: usize = 5242880;

/// Largest backup that can be imported: 50 MB.
pub const MAX_BACKUP_SIZE: usize = 52428800;

/// Most entries of the audit log that are shown.
pub const MAX_AUDIT_LIMIT: usize = 1000;

/// The device that shows that the kernel module is loaded.
pub const KERNEL_DEVICE: &'static str = "/dev/aivpn";

/// The settings that the settings file may hold.
pub const CONFIG_KNOWN_KEYS: [&'static str; 24] = [
    "listen_addr",
    "tun_name",
    "tun_addr",
    "tun_netmask",
    "network_config",
    "mask_dir",
    "bootstrap_mask_files",
    "session_timeout_secs",
    "idle_timeout_secs",
    "tun_mtu",
    "pool",
    "site_to_site",
    "mtls",
    "dns",
    "allow_peer_routing",
    "downlink_shaping",
    "neural_enabled",
    "neural",
    "bootstrap_publish",
    "feedback",
    "polymorphic",
    "mask_signing_key",
    "mask_operator_pubkey",
    "mask_verify_mode",
];

/// How a request is answered.
#[derive(Clone, Copy, Debug, PartialEq, Eq, Structural)]
pub enum ApiStatus {
    Success,
    Created,
    NoContent,
    BadRequest,
    NotFound,
    Conflict,
    PayloadTooLarge,
    InternalError,
    Unavailable,
}

impl ApiStatus {
    /// The number that HTTP has for it.
    pub fn code(&self) -> (code: u16)
        ensures
            code == (match self {
                ApiStatus::Success => 200u16,
                ApiStatus::Created => 201u16,
                ApiStatus::NoContent => 204u16,
                ApiStatus::BadRequest => 400u16,
                ApiStatus::NotFound => 404u16,
                ApiStatus::Conflict => 409u16,
                ApiStatus::PayloadTooLarge => 413u16,
                ApiStatus::InternalError => 500u16,
                ApiStatus::Unavailable => 503u16,
            }),
    {
        match self {
            ApiStatus::Success => 200,
            ApiStatus::Created => 201,
            ApiStatus::NoContent => 204,
            ApiStatus::BadRequest => 400,
            ApiStatus::NotFound => 404,
            ApiStatus::Conflict => 409,
            ApiStatus::PayloadTooLarge => 413,
            ApiStatus::InternalError => 500,
            ApiStatus::Unavailable => 503,
        }
    }
}

/// Why a request is refused.
pub struct ApiError {
    pub status: ApiStatus,
    pub message: String,
}

/// A refusal with this status and text.
pub open spec fn refuses(e: ApiError, status: ApiStatus, message: Seq<char>) -> bool {
    e.status == status && e.message@ == message
}

fn refusal(status: ApiStatus, message: &str) -> (e: ApiError)
    ensures
        refuses(e, status, message@),
{
    ApiError { status, message: message.to_owned() }
}

fn refusal_about(status: ApiStatus, front: &str, what: &str, back: &str) -> (e: ApiError)
    ensures
        refuses(e, status, front@ + what@ + back@),
{
    let mut message: String = String::new();
    push_text(&mut message, front);
    push_text(&mut message, what);
    push_text(&mut message, back);
    assert(message@ =~= front@ + what@ + back@);
    ApiError { status, message }
}

/// A setting that the settings file may hold.
pub open spec fn is_known_key(key: Seq<char>) -> bool {
    exists|i: int| 0 <= i < CONFIG_KNOWN_KEYS@.len() && (#[trigger] CONFIG_KNOWN_KEYS@[i])@ == key
}

/// Whether the settings file may hold a setting.
pub fn config_key_known(key: &str) -> (r: bool)
    ensures
        r == is_known_key(key@),
{
    let mut i: usize = 0;
    while i < 24
        invariant
            i <= 24,
            forall|k: int| 0 <= k < i ==> (#[trigger] CONFIG_KNOWN_KEYS@[k])@ != key@,
        decreases 24 - i,
    {
        if same_text(CONFIG_KNOWN_KEYS[i], key) {
            assert(CONFIG_KNOWN_KEYS@[i as int]@ == key@);
            return true;
        }
        i += 1;
    }
    false
}

/// The first key of a list that is not known.
pub open spec fn is_first_unknown(keys: Seq<Seq<char>>, i: int) -> bool {
    0 <= i < keys.len() && !is_known_key(keys[i]) && forall|k: int|
        0 <= k < i ==> is_known_key(#[trigger] keys[k])
}

/// Checks new settings: there is a file for them, they are a JSON object, and every setting
/// in them is known. `keys` are the object's, in their order; `None` where it is no object.
pub fn check_config(has_path: bool, keys: &Option<Vec<String>>) -> (r: Result<(), ApiError>)
    ensures
        match r {
            Ok(()) => has_path && keys is Some && forall|i: int|
                0 <= i < keys->0@.len() ==> is_known_key((#[trigger] keys->0@[i])@),
            Err(e) => if !has_path {
                refuses(e, ApiStatus::NotFound, "config path not configured"@)
            } else if keys is None {
                refuses(e, ApiStatus::BadRequest, "invalid config: must be a JSON object"@)
            } else {
                exists|i: int| #[trigger]
                    is_first_unknown(text_views(keys->0@), i) && refuses(
                        e,
                        ApiStatus::BadRequest,
                        "invalid config: unknown field '"@ + keys->0@[i]@ + "'"@,
                    )
            },
        },
{
    if !has_path {
        return Err(refusal(ApiStatus::NotFound, "config path not configured"));
    }
    match keys {
        None => Err(refusal(ApiStatus::BadRequest, "invalid config: must be a JSON object")),
        Some(list) => {
            let ghost views = text_views(list@);
            let mut i: usize = 0;
            while i < list.len()
                invariant
                    i <= list.len(),
                    views == text_views(list@),
                    has_path,
                    *keys == Some(*list),
                    forall|k: int| 0 <= k < i ==> is_known_key((#[trigger] list@[k])@),
                    forall|k: int| 0 <= k < i ==> is_known_key(#[trigger] views[k]),
                decreases list.len() - i,
            {
                assert(views[i as int] == list@[i as int]@);
                if !config_key_known(list[i].as_str()) {
                    let e: ApiError = refusal_about(
                        ApiStatus::BadRequest,
                        "invalid config: unknown field '",
                        list[i].as_str(),
                        "'",
                    );
                    assert(is_first_unknown(text_views(keys->0@), i as int) && refuses(
                        e,
                        ApiStatus::BadRequest,
                        "invalid config: unknown field '"@ + keys->0@[i as int]@ + "'"@,
                    ));
                    return Err(e);
                }
                i += 1;
            }
            Ok(())
        },
    }
}

/// A name of the length that a client's may have.
pub open spec fn has_name_length(name: Seq<char>) -> bool {
    0 < encode_utf8(name).len() <= MAX_NAME_LEN
}

/// Checks the name of a client.
pub fn check_client_name(name: &str) -> (r: Result<(), ApiError>)
    ensures
        match r {
            Ok(()) => has_name_length(name@),
            Err(e) => !has_name_length(name@) && refuses(
                e,
                ApiStatus::BadRequest,
                "name must be 1–64 characters"@,
            ),
        },
{
    let len: usize = name.as_bytes().len();
    if len == 0 || len > MAX_NAME_LEN {
        return Err(refusal(ApiStatus::BadRequest, "name must be 1–64 characters"));
    }
    Ok(())
}

/// A character that the name of a mask may hold.
pub open spec fn is_name_char(c: char) -> bool {
    alphanumeric(c) || c == '-' || c == '_'
}

/// All characters may stand in the name of a mask.
pub open spec fn has_name_chars(name: Seq<char>) -> bool {
    forall|i: int| 0 <= i < name.len() ==> is_name_char(#[trigger] name[i])
}

fn name_chars_ok(name: &str) -> (r: bool)
    ensures
        r == has_name_chars(name@),
        r ==> forall|i: int|
            0 <= i < name@.len() ==> #[trigger] name@[i] != '/' && name@[i] != '.' && name@[i]
                != '\\',
{
    let chars: Vec<char> = chars_of(name);
    let mut i: usize = 0;
    while i < chars.len()
        invariant
            i <= chars.len(),
            chars@ == name@,
            forall|k: int| 0 <= k < i ==> is_name_char(#[trigger] name@[k]),
            forall|k: int|
                0 <= k < i ==> #[trigger] name@[k] != '/' && name@[k] != '.' && name@[k] != '\\',
        decreases chars.len() - i,
    {
        let c: char = chars[i];
        if !(is_alphanumeric(c) || c == '-' || c == '_') {
            assert(!is_name_char(name@[i as int]));
            return false;
        }
        i += 1;
    }
    true
}

fn is_empty_text(text: &str) -> (r: bool)
    ensures
        r == (text@.len() == 0),
{
    chars_of(text).len() == 0
}

/// A name that a mask may have on disk.
pub open spec fn is_mask_name(name: Seq<char>) -> bool {
    has_name_length(name) && has_name_chars(name)
}

/// The file of a mask.
pub open spec fn mask_file(name: Seq<char>) -> Seq<char> {
    name + ".json"@
}

/// A file name that leads to no other directory.
pub open spec fn stays_in_directory(file: Seq<char>) -> bool {
    forall|i: int| 0 <= i < file.len() ==> #[trigger] file[i] != '/' && file[i] != '\\'
}

fn file_of(name: &str, ending: &str) -> (file: String)
    ensures
        file@ == name@ + ending@,
{
    let mut file: String = String::new();
    push_text(&mut file, name);
    push_text(&mut file, ending);
    assert(file@ =~= name@ + ending@);
    file
}

/// Checks the upload of a mask, and gives the file that it goes to. A name must be given, be
/// in form, and the mask must not be too large. The file stays in the directory of masks.
pub fn check_upload(name: Option<&str>, body_len: usize) -> (file: Result<String, ApiError>)
    ensures
        match file {
            Ok(f) => name is Some && is_mask_name(name->0@) && body_len <= MAX_MASK_SIZE && f@
                == mask_file(name->0@) && stays_in_directory(f@),
            Err(e) => if name is None {
                refuses(e, ApiStatus::BadRequest, "query param 'name' required"@)
            } else if !is_mask_name(name->0@) {
                refuses(
                    e,
                    ApiStatus::BadRequest,
                    "name must be 1–64 alphanumeric/dash/underscore chars"@,
                )
            } else {
                body_len > MAX_MASK_SIZE && refuses(
                    e,
                    ApiStatus::PayloadTooLarge,
                    "mask file exceeds 5 MB limit"@,
                )
            },
        },
{
    match name {
        None => Err(refusal(ApiStatus::BadRequest, "query param 'name' required")),
        Some(n) => {
            let len: usize = n.as_bytes().len();
            if len == 0 || len > MAX_NAME_LEN || !name_chars_ok(n) {
                return Err(
                    refusal(
                        ApiStatus::BadRequest,
                        "name must be 1–64 alphanumeric/dash/underscore chars",
                    ),
                );
            }
            if body_len > MAX_MASK_SIZE {
                return Err(refusal(ApiStatus::PayloadTooLarge, "mask file exceeds 5 MB limit"));
            }
            proof {
                reveal_strlit(".json");
            }
            Ok(file_of(n, ".json"))
        },
    }
}

/// Checks the removal of a mask, and gives the file that goes.
pub fn check_delete(name: &str) -> (file: Result<String, ApiError>)
    ensures
        match file {
            Ok(f) => name@.len() > 0 && has_name_chars(name@) && f@ == mask_file(name@)
                && stays_in_directory(f@),
            Err(e) => (name@.len() == 0 || !has_name_chars(name@)) && refuses(
                e,
                ApiStatus::BadRequest,
                "invalid mask name"@,
            ),
        },
{
    if is_empty_text(name) || !name_chars_ok(name) {
        return Err(refusal(ApiStatus::BadRequest, "invalid mask name"));
    }
    proof {
        reveal_strlit(".json");
    }
    Ok(file_of(name, ".json"))
}

/// Checks a request for the mask of a client: both are named, and the mask's name is in form.
pub fn check_active_mask(client: &str, mask: &str) -> (r: Result<(), ApiError>)
    ensures
        match r {
            Ok(()) => client@.len() > 0 && mask@.len() > 0 && has_name_chars(mask@),
            Err(e) => if client@.len() == 0 || mask@.len() == 0 {
                refuses(e, ApiStatus::BadRequest, "fields 'client' and 'mask' are required"@)
            } else {
                !has_name_chars(mask@) && refuses(e, ApiStatus::BadRequest, "invalid mask name"@)
            },
        },
{
    if is_empty_text(client) || is_empty_text(mask) {
        return Err(refusal(ApiStatus::BadRequest, "fields 'client' and 'mask' are required"));
    }
    if !name_chars_ok(mask) {
        return Err(refusal(ApiStatus::BadRequest, "invalid mask name"));
    }
    Ok(())
}

/// Where the mask of a client is noted: the client is known, and the mask is on disk or built
/// in. The file is named after the client's id.
pub fn override_file(
    client: &str,
    client_id: Option<&str>,
    mask: &str,
    on_disk: bool,
    is_preset: bool,
) -> (file: Result<String, ApiError>)
    ensures
        match file {
            Ok(f) => client_id is Some && (on_disk || is_preset) && f@ == client_id->0@
                + ".mask"@,
            Err(e) => if client_id is None {
                refuses(e, ApiStatus::NotFound, "client '"@ + client@ + "' not found"@)
            } else {
                !on_disk && !is_preset && refuses(
                    e,
                    ApiStatus::NotFound,
                    "mask '"@ + mask@ + "' not found in mask directory or built-in presets"@,
                )
            },
        },
{
    match client_id {
        None => Err(refusal_about(ApiStatus::NotFound, "client '", client, "' not found")),
        Some(id) => {
            if !on_disk && !is_preset {
                return Err(
                    refusal_about(
                        ApiStatus::NotFound,
                        "mask '",
                        mask,
                        "' not found in mask directory or built-in presets",
                    ),
                );
            }
            Ok(file_of(id, ".mask"))
        },
    }
}

/// The status for a client that could not be changed.
pub fn update_failure_status(error: &str) -> (status: ApiStatus)
    ensures
        status == (if holds(error@, "not found"@) {
            ApiStatus::NotFound
        } else {
            ApiStatus::Conflict
        }),
{
    if text_holds(error, "not found") {
        ApiStatus::NotFound
    } else {
        ApiStatus::Conflict
    }
}

/// Checks a backup that is to be imported.
pub fn check_backup(body_len: usize, has_path: bool) -> (r: Result<(), ApiError>)
    ensures
        match r {
            Ok(()) => body_len <= MAX_BACKUP_SIZE && has_path,
            Err(e) => if body_len > MAX_BACKUP_SIZE {
                refuses(e, ApiStatus::PayloadTooLarge, "backup too large (max 50 MB)"@)
            } else {
                !has_path && refuses(e, ApiStatus::InternalError, "config path not configured"@)
            },
        },
{
    if body_len > MAX_BACKUP_SIZE {
        return Err(refusal(ApiStatus::PayloadTooLarge, "backup too large (max 50 MB)"));
    }
    if !has_path {
        return Err(refusal(ApiStatus::InternalError, "config path not configured"));
    }
    Ok(())
}

/// Entries of the audit log that are shown where nothing is said.
pub fn default_audit_limit() -> (limit: usize)
    ensures
        limit == 200,
{
    200
}

/// A line with something on it.
pub open spec fn is_written(line: Seq<char>) -> bool {
    exists|i: int| 0 <= i < line.len() && !is_white_space(#[trigger] line[i])
}

/// The last entries of a list.
pub open spec fn last_of<T>(list: Seq<T>, n: int) -> Seq<T> {
    if list.len() <= n {
        list
    } else {
        list.skip(list.len() - n)
    }
}

/// The lines with something on them.
pub open spec fn written_lines(lines: Seq<Seq<char>>) -> Seq<Seq<char>> {
    lines.filter(|line: Seq<char>| is_written(line))
}

fn line_written(line: &str) -> (r: bool)
    ensures
        r == is_written(line@),
{
    let chars: Vec<char> = chars_of(line);
    let mut i: usize = 0;
    while i < chars.len()
        invariant
            i <= chars.len(),
            chars@ == line@,
            forall|k: int| 0 <= k < i ==> is_white_space(#[trigger] line@[k]),
        decreases chars.len() - i,
    {
        if !white_space(chars[i]) {
            assert(!is_white_space(line@[i as int]));
            return true;
        }
        i += 1;
    }
    false
}

/// The lines of the audit log that are shown: the last so many that have something on them,
/// a thousand at most, in their order.
pub fn audit_tail(lines: &Vec<String>, limit: usize) -> (tail: Vec<String>)
    ensures
        text_views(tail@) == last_of(
            written_lines(text_views(lines@)),
            if limit < MAX_AUDIT_LIMIT {
                limit as int
            } else {
                MAX_AUDIT_LIMIT as int
            },
        ),
{
    let n: usize = if limit < MAX_AUDIT_LIMIT {
        limit
    } else {
        MAX_AUDIT_LIMIT
    };
    let ghost all = text_views(lines@);
    let ghost keep = |line: Seq<char>| is_written(line);
    let mut written: Vec<String> = Vec::new();
    let mut i: usize = 0;
    proof {
        reveal(Seq::filter);
        assert(all.take(0) =~= seq![]);
        assert(text_views(written@) =~= seq![]);
    }
    while i < lines.len()
        invariant
            i <= lines.len(),
            all == text_views(lines@),
            keep == (|line: Seq<char>| is_written(line)),
            text_views(written@) == all.take(i as int).filter(keep),
        decreases lines.len() - i,
    {
        let ghost before = text_views(written@);
        proof {
            reveal(Seq::filter);
            assert(all.take(i + 1).drop_last() =~= all.take(i as int));
            assert(all.take(i + 1).last() == lines@[i as int]@);
        }
        if line_written(lines[i].as_str()) {
            written.push(lines[i].clone());
            assert(text_views(written@) =~= before.push(lines@[i as int]@));
        }
        i += 1;
    }
    assert(all.take(i as int) =~= all);
    if written.len() <= n {
        return written;
    }
    let ghost found = text_views(written@);
    let mut tail: Vec<String> = Vec::new();
    let start: usize = written.len() - n;
    let mut k: usize = start;
    assert(text_views(tail@) =~= found.subrange(start as int, start as int));
    while k < written.len()
        invariant
            start <= k <= written.len(),
            found == text_views(written@),
            text_views(tail@) == found.subrange(start as int, k as int),
        decreases written.len() - k,
    {
        let ghost before = text_views(tail@);
        tail.push(written[k].clone());
        assert(text_views(tail@) =~= before.push(found[k as int]));
        assert(found.subrange(start as int, k + 1) =~= before.push(found[k as int]));
        k += 1;
    }
    assert(found.subrange(start as int, k as int) =~= found.skip(start as int));
    tail
}

/// What the status of the server counts.
#[derive(Clone, Copy, Debug, PartialEq, Eq, Structural)]
pub struct ClientCounts {
    pub total: usize,
    pub enabled: usize,
    pub connected: usize,
}

/// What the status counts of a client.
#[derive(Clone, Copy, PartialEq, Eq, Structural)]
pub struct ClientState {
    pub enabled: bool,
    pub has_connected: bool,
}

/// Counts the clients, those that are enabled and those that have ever connected.
pub fn count_clients(clients: &Vec<ClientState>) -> (counts: ClientCounts)
    ensures
        counts.total == clients@.len(),
        counts.enabled == clients@.filter(|c: ClientState| c.enabled).len(),
        counts.connected == clients@.filter(|c: ClientState| c.has_connected).len(),
{
    let ghost on = |c: ClientState| c.enabled;
    let ghost seen = |c: ClientState| c.has_connected;
    let mut enabled: usize = 0;
    let mut connected: usize = 0;
    let mut i: usize = 0;
    proof {
        reveal(Seq::filter);
        assert(clients@.take(0) =~= seq![]);
    }
    while i < clients.len()
        invariant
            i <= clients.len(),
            enabled <= i,
            connected <= i,
            on == (|c: ClientState| c.enabled),
            seen == (|c: ClientState| c.has_connected),
            enabled == clients@.take(i as int).filter(on).len(),
            connected == clients@.take(i as int).filter(seen).len(),
        decreases clients.len() - i,
    {
        proof {
            reveal(Seq::filter);
            assert(clients@.take(i + 1).drop_last() =~= clients@.take(i as int));
        }
        if clients[i].enabled {
            enabled += 1;
        }
        if clients[i].has_connected {
            connected += 1;
        }
        i += 1;
    }
    assert(clients@.take(i as int) =~= clients@);
    ClientCounts { total: clients.len(), enabled, connected }
}

/// How clients are known.
pub struct ClientName {
    pub id: String,
    pub name: String,
}

/// A client goes by this id or name.
pub open spec fn goes_by(client: ClientName, key: Seq<char>) -> bool {
    client.id@ == key || client.name@ == key
}

/// The first client that goes by an id or name.
pub fn find_client(clients: &Vec<ClientName>, key: &str) -> (found: Option<usize>)
    ensures
        match found {
            Some(i) => i < clients@.len() && goes_by(clients@[i as int], key@) && forall|k: int|
                0 <= k < i ==> !goes_by(#[trigger] clients@[k], key@),
            None => forall|k: int|
                0 <= k < clients@.len() ==> !goes_by(#[trigger] clients@[k], key@),
        },
{
    let mut i: usize = 0;
    while i < clients.len()
        invariant
            i <= clients.len(),
            forall|k: int| 0 <= k < i ==> !goes_by(#[trigger] clients@[k], key@),
        decreases clients.len() - i,
    {
        if same_text(clients[i].id.as_str(), key) || same_text(clients[i].name.as_str(), key) {
            return Some(i);
        }
        i += 1;
    }
    None
}

/// The place of the first of some texts that is a key; `None` where none is.
pub open spec fn is_first_text(texts: Seq<Seq<char>>, key: Seq<char>, place: Option<usize>) -> bool {
    match place {
        Some(i) => i < texts.len() && texts[i as int] == key && forall|k: int|
            0 <= k < i ==> #[trigger] texts[k] != key,
        None => forall|k: int| 0 <= k < texts.len() ==> #[trigger] texts[k] != key,
    }
}

/// The names of clients.
pub open spec fn client_names(clients: Seq<ClientName>) -> Seq<Seq<char>> {
    clients.map_values(|c: ClientName| c.name@)
}

/// The ids of clients.
pub open spec fn client_ids(clients: Seq<ClientName>) -> Seq<Seq<char>> {
    clients.map_values(|c: ClientName| c.id@)
}

fn find_name(clients: &Vec<ClientName>, key: &str) -> (found: Option<usize>)
    ensures
        is_first_text(client_names(clients@), key@, found),
{
    let ghost names = client_names(clients@);
    let mut i: usize = 0;
    while i < clients.len()
        invariant
            i <= clients.len(),
            names == client_names(clients@),
            forall|k: int| 0 <= k < i ==> #[trigger] names[k] != key@,
        decreases clients.len() - i,
    {
        assert(names[i as int] == clients@[i as int].name@);
        if same_text(clients[i].name.as_str(), key) {
            return Some(i);
        }
        i += 1;
    }
    None
}

fn find_id(clients: &Vec<ClientName>, key: &str) -> (found: Option<usize>)
    ensures
        is_first_text(client_ids(clients@), key@, found),
{
    let ghost ids = client_ids(clients@);
    let mut i: usize = 0;
    while i < clients.len()
        invariant
            i <= clients.len(),
            ids == client_ids(clients@),
            forall|k: int| 0 <= k < i ==> #[trigger] ids[k] != key@,
        decreases clients.len() - i,
    {
        assert(ids[i as int] == clients@[i as int].id@);
        if same_text(clients[i].id.as_str(), key) {
            return Some(i);
        }
        i += 1;
    }
    None
}

/// The client that a mask is noted for: the first with this name, else the first with this
/// id.
pub fn find_client_for_mask(clients: &Vec<ClientName>, key: &str) -> (found: Option<usize>)
    ensures
        is_first_text(client_names(clients@), key@, found) && found is Some || (is_first_text(
            client_names(clients@),
            key@,
            None,
        ) && is_first_text(client_ids(clients@), key@, found)),
{
    match find_name(clients, key) {
        Some(i) => Some(i),
        None => find_id(clients, key),
    }
}

/// Checks that a client exists.
pub fn check_client_known(id: &str, known: bool) -> (r: Result<(), ApiError>)
    ensures
        match r {
            Ok(()) => known,
            Err(e) => !known && refuses(
                e,
                ApiStatus::NotFound,
                "Client '"@ + id@ + "' not found"@,
            ),
        },
{
    if known {
        Ok(())
    } else {
        Err(refusal_about(ApiStatus::NotFound, "Client '", id, "' not found"))
    }
}

/// Checks a request for a connection key: the server has a key and an address, and the client
/// exists.
pub fn check_connection_key(has_key: bool, has_addr: bool, id: &str, known: bool) -> (r: Result<
    (),
    ApiError,
>)
    ensures
        match r {
            Ok(()) => has_key && has_addr && known,
            Err(e) => if !has_key || !has_addr {
                refuses(
                    e,
                    ApiStatus::Unavailable,
                    "--server-ip or --key-file not configured; cannot build connection key"@,
                )
            } else {
                !known && refuses(e, ApiStatus::NotFound, "Client '"@ + id@ + "' not found"@)
            },
        },
{
    if !has_key || !has_addr {
        return Err(
            refusal(
                ApiStatus::Unavailable,
                "--server-ip or --key-file not configured; cannot build connection key",
            ),
        );
    }
    check_client_known(id, known)
}

/// Something that a request reads, and that may be missing.
#[derive(Clone, Copy, PartialEq, Eq, Structural)]
pub enum Resource {
    ConfigPath,
    AuditLog,
    Descriptors,
}

/// Checks that what a request reads is there.
pub fn check_resource(resource: Resource, present: bool) -> (r: Result<(), ApiError>)
    ensures
        match r {
            Ok(()) => present,
            Err(e) => !present && match resource {
                Resource::ConfigPath => refuses(
                    e,
                    ApiStatus::NotFound,
                    "config path not configured"@,
                ),
                Resource::AuditLog => refuses(e, ApiStatus::NotFound, "audit log not configured"@),
                Resource::Descriptors => refuses(
                    e,
                    ApiStatus::Unavailable,
                    "bootstrap descriptors not available"@,
                ),
            },
        },
{
    if present {
        return Ok(());
    }
    Err(
        match resource {
            Resource::ConfigPath => refusal(ApiStatus::NotFound, "config path not configured"),
            Resource::AuditLog => refusal(ApiStatus::NotFound, "audit log not configured"),
            Resource::Descriptors => refusal(
                ApiStatus::Unavailable,
                "bootstrap descriptors not available",
            ),
        },
    )
}

/// No text precedes one in front of it.
pub open spec fn in_order(texts: Seq<Seq<char>>) -> bool {
    forall|i: int, j: int|
        0 <= i < j < texts.len() ==> !bytes_less(
            encode_utf8(#[trigger] texts[j]),
            encode_utf8(#[trigger] texts[i]),
        )
}

/// The names of masks in the order that lists show them.
pub fn sort_names(names: Vec<String>) -> (sorted: Vec<String>)
    ensures
        in_order(text_views(sorted@)),
        text_views(sorted@).to_multiset() == text_views(names@).to_multiset(),
{
    let ghost all = text_views(names@);
    let mut sorted: Vec<String> = Vec::new();
    let mut i: usize = 0;
    proof {
        assert(text_views(sorted@) =~= all.take(0));
    }
    while i < names.len()
        invariant
            i <= names.len(),
            all == text_views(names@),
            in_order(text_views(sorted@)),
            text_views(sorted@).to_multiset() == all.take(i as int).to_multiset(),
        decreases names.len() - i,
    {
        let ghost before = text_views(sorted@);
        let ghost new = all[i as int];
        let mut at: usize = sorted.len();
        while at > 0 && precedes(
            names[i].as_str().as_bytes(),
            sorted[at - 1].as_str().as_bytes(),
        )
            invariant
                at <= sorted.len(),
                i < names.len(),
                before == text_views(sorted@),
                new == names@[i as int]@,
                in_order(before),
                forall|k: int|
                    at <= k < before.len() ==> bytes_less(
                        encode_utf8(new),
                        encode_utf8(#[trigger] before[k]),
                    ),
            decreases at,
        {
            at -= 1;
        }
        proof {
            if at > 0 {
                assert(before[at - 1] == sorted@[at - 1]@);
            }
            lemma_inserted_in_order(before, at as int, new);
            assert(all.take(i + 1) =~= all.take(i as int).push(new));
            all.take(i as int).to_multiset_ensures();
            vstd::seq_lib::to_multiset_insert(before, at as int, new);
        }
        sorted.insert(at, names[i].clone());
        assert(text_views(sorted@) =~= before.insert(at as int, new));
        i += 1;
    }
    assert(all.take(i as int) =~= all);
    sorted
}

proof fn lemma_inserted_in_order(texts: Seq<Seq<char>>, at: int, new: Seq<char>)
    requires
        in_order(texts),
        0 <= at <= texts.len(),
        at > 0 ==> !bytes_less(encode_utf8(new), encode_utf8(texts[at - 1])),
        forall|k: int|
            at <= k < texts.len() ==> bytes_less(
                encode_utf8(new),
                encode_utf8(#[trigger] texts[k]),
            ),
    ensures
        in_order(texts.insert(at, new)),
{
    let out = texts.insert(at, new);
    assert forall|i: int, j: int| 0 <= i < j < out.len() implies !bytes_less(
        encode_utf8(#[trigger] out[j]),
        encode_utf8(#[trigger] out[i]),
    ) by {
        if j == at {
            assert(out[i] == texts[i]);
            if i < at - 1 {
                bytes_order_is_transitive(
                    encode_utf8(new),
                    encode_utf8(texts[at - 1]),
                    encode_utf8(texts[i]),
                );
            }
        } else if i == at {
            assert(out[j] == texts[j - 1]);
            bytes_order_is_asymmetric(encode_utf8(new), encode_utf8(texts[j - 1]));
        } else {
            let a = if i < at {
                i
            } else {
                i - 1
            };
            let b = if j < at {
                j
            } else {
                j - 1
            };
            assert(out[i] == texts[a] && out[j] == texts[b]);
        }
    }
}

/// A name has between one and 64 bytes.
pub proof fn names_are_short(name: Seq<char>)
    ensures
        has_name_length(name) <==> 1 <= encode_utf8(name).len() && encode_utf8(name).len() <= 64,
{
}

/// A mask's name is made of letters, digits, dashes and underscores, and nothing else; one bad
/// character is enough to refuse it, wherever it stands.
pub proof fn one_bad_character_spoils_a_name(name: Seq<char>, i: int)
    requires
        0 <= i < name.len(),
    ensures
        is_name_char('-') && is_name_char('_'),
        alphanumeric(name[i]) ==> is_name_char(name[i]),
        has_name_chars(name) ==> alphanumeric(name[i]) || name[i] == '-' || name[i] == '_',
        !alphanumeric(name[i]) && name[i] != '-' && name[i] != '_' ==> !has_name_chars(name)
            && !is_mask_name(name),
        is_mask_name(name) <==> has_name_chars(name) && has_name_length(name),
{
}

/// A mask is kept in a file under its own name: two masks never share one.
pub proof fn masks_have_files_of_their_own(a: Seq<char>, b: Seq<char>)
    ensures
        mask_file(a) == mask_file(b) ==> a == b,
        mask_file(a).len() == a.len() + 5,
        mask_file(a).take(a.len() as int) == a,
        mask_file(a).skip(a.len() as int) == ".json"@,
{
    reveal_strlit(".json");
    assert(mask_file(a).take(a.len() as int) =~= a);
    assert(mask_file(a).skip(a.len() as int) =~= ".json"@);
    if mask_file(a) == mask_file(b) {
        assert(mask_file(a).len() == a.len() + 5);
        assert(mask_file(b).len() == b.len() + 5);
        assert(mask_file(b).take(b.len() as int) =~= b);
    }
}

/// The tail of a log is its last lines, in their order: as many as asked for, or all.
pub proof fn tail_is_the_end<T>(list: Seq<T>, n: int, i: int)
    requires
        n >= 0,
    ensures
        list.len() <= n ==> last_of(list, n) == list,
        list.len() > n ==> last_of(list, n).len() == n,
        list.len() > n && 0 <= i < n ==> last_of(list, n)[i] == list[list.len() - n + i],
{
}

/// A line is written on where it holds anything but white space, and only such lines are shown.
pub proof fn blank_lines_are_not_shown(lines: Seq<Seq<char>>, line: Seq<char>, i: int)
    ensures
        0 <= i < line.len() && !is_white_space(line[i]) ==> is_written(line),
        (forall|k: int| 0 <= k < line.len() ==> is_white_space(#[trigger] line[k])) ==> !is_written(
            line,
        ),
        is_written(line) ==> written_lines(lines.push(line)) == written_lines(lines).push(line),
        !is_written(line) ==> written_lines(lines.push(line)) == written_lines(lines),
{
    reveal(Seq::filter);
    assert(lines.push(line).drop_last() =~= lines);
}

/// A client is known by its id and by its name, and by nothing else.
pub proof fn client_goes_by_id_or_name(client: ClientName, key: Seq<char>)
    ensures
        goes_by(client, client.id@),
        goes_by(client, client.name@),
        key != client.id@ && key != client.name@ ==> !goes_by(client, key),
{
}

/// The first text that is the one looked for is found, and none where none is; there is one
/// answer.
pub proof fn first_text_is_found_once(
    texts: Seq<Seq<char>>,
    key: Seq<char>,
    a: Option<usize>,
    b: Option<usize>,
)
    requires
        is_first_text(texts, key, a),
        is_first_text(texts, key, b),
    ensures
        a == b,
        a matches Some(i) ==> i < texts.len() && texts[i as int] == key,
        a is None ==> !texts.contains(key),
{
}

/// The first unknown key is the one that is named, and there is none where all are known.
pub proof fn first_unknown_key_is_named(keys: Seq<Seq<char>>, i: int, j: int)
    requires
        is_first_unknown(keys, i),
        0 <= j < keys.len(),
        !is_known_key(keys[j]),
    ensures
        i <= j,
        !is_known_key(keys[i]),
{
}

/// Names are in order where no later one comes before an earlier one, byte by byte.
pub proof fn names_are_ordered_by_their_bytes(texts: Seq<Seq<char>>, i: int, j: int)
    requires
        in_order(texts),
        0 <= i < j < texts.len(),
    ensures
        !bytes_less(encode_utf8(texts[j]), encode_utf8(texts[i])),
{
}

/// A file that stays in its directory has no slash in its name, of either kind.
pub proof fn no_slash_leads_out(file: Seq<char>, i: int)
    requires
        0 <= i < file.len(),
    ensures
        file[i] == '/' ==> !stays_in_directory(file),
        file[i] == '\\' ==> !stays_in_directory(file),
        stays_in_directory(file) ==> file[i] != '/' && file[i] != '\\',
{
}

/// A mask may have five mebibytes and a backup ten times as much, as the refusals say.
pub proof fn limits_are_as_announced()
    ensures
        MAX_MASK_SIZE == 5 * 1024 * 1024,
        MAX_BACKUP_SIZE == 10 * MAX_MASK_SIZE,
        MAX_AUDIT_LIMIT == 1000,
{
}

} // verus!
