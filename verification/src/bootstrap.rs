//! Signed descriptors from which new clients learn how to reach the server.

use crate::bytes::{le_bytes, le_u64_bytes};
use crate::layout::{MaskProfile, MaskView};
use crate::outside::{
    blake3_derive_key, blake3_derived_key, blake3_keyed_digest, blake3_keyed_hash, ed25519_public,
    ed25519_public_key, ed25519_sign, ed25519_signature,
};
use crate::text::{
    chars_of, decimal, push_decimal, push_text, starts_with, trim, trimmed,
};
use vstd::prelude::*;

verus! {

/// Seconds for which one epoch lasts.
pub const BOOTSTRAP_ROTATION_SECS: u64 = 86400;

/// Masks that a client derives from one descriptor.
pub const BOOTSTRAP_DESCRIPTOR_CANDIDATES: u8 = 4;

/// The epochs that are on offer, relative to the current one.
pub const BOOTSTRAP_EPOCH_WINDOW: [i64; 4] = [-2, -1, 0, 1];

/// Latest time for which descriptors can be made.
pub const LAST_BOOTSTRAP_SECS: u64 = 18446744073709000000;

/// The server's signing key.
pub struct ServerSigningKey {
    pub seed: [u8; 32],
}

/// How a new client reaches the server during one epoch.
pub struct BootstrapDescriptor {
    pub descriptor_id: String,
    pub version: u8,
    pub created_at: u64,
    pub expires_at: u64,
    pub base_mask_ids: Vec<String>,
    pub embedded_masks: Vec<MaskProfile>,
    pub candidate_count: u8,
    pub kdf_salt: [u8; 32],
    pub signature: [u8; 64],
}

/// The epoch of a time in seconds since 1970.
pub open spec fn epoch_of(unix_secs: nat) -> nat {
    unix_secs / (BOOTSTRAP_ROTATION_SECS as nat)
}

/// An epoch some steps away from another; none lies before the first.
pub open spec fn epoch_shifted(epoch: nat, delta: int) -> nat {
    if epoch + delta < 0 {
        0
    } else {
        (epoch + delta) as nat
    }
}

/// The views of a list of ids.
pub open spec fn ids_view(ids: Seq<String>) -> Seq<Seq<char>> {
    ids.map_values(|s: String| s@)
}

/// The views of a list of masks.
pub open spec fn masks_view(masks: Seq<MaskProfile>) -> Seq<MaskView> {
    masks.map_values(|m: MaskProfile| m@)
}

/// A descriptor for an epoch, not signed yet: it names the built-in masks, or carries the
/// operator's masks where there are any; it is valid for two epochs; its salt follows from
/// the server's key and the epoch.
pub open spec fn describes(
    d: BootstrapDescriptor,
    server_seed: Seq<u8>,
    epoch: nat,
    preset_ids: Seq<Seq<char>>,
    masks: Seq<MaskView>,
) -> bool {
    &&& d.descriptor_id@ == "epoch-"@ + decimal(epoch)
    &&& d.version == 1
    &&& d.created_at == epoch * BOOTSTRAP_ROTATION_SECS
    &&& d.expires_at == d.created_at + 2 * BOOTSTRAP_ROTATION_SECS
    &&& ids_view(d.base_mask_ids@) == (if masks.len() == 0 {
        preset_ids
    } else {
        seq![]
    })
    &&& masks_view(d.embedded_masks@) == masks
    &&& d.candidate_count == BOOTSTRAP_DESCRIPTOR_CANDIDATES
    &&& d.kdf_salt@ == blake3_keyed_digest(server_seed, le_bytes(epoch, 8))
    &&& d.signature@ == Seq::new(64, |i: int| 0u8)
}

/// The epoch of a time in seconds since 1970.
pub fn bootstrap_epoch(unix_secs: u64) -> (epoch: u64)
    ensures
        epoch == epoch_of(unix_secs as nat),
{
    unix_secs / BOOTSTRAP_ROTATION_SECS
}

/// The server's signing key, which follows from its private key.
pub fn derive_server_signing_key(server_private_key: &[u8; 32]) -> (key: ServerSigningKey)
    ensures
        key.seed@ == blake3_derived_key("aivpn-ed25519-signing-v1"@, server_private_key@),
{
    ServerSigningKey {
        seed: blake3_derive_key("aivpn-ed25519-signing-v1", server_private_key.as_slice()),
    }
}

impl ServerSigningKey {
    /// The public key that clients verify with.
    pub fn verifying_key(&self) -> (key: [u8; 32])
        ensures
            key@ == ed25519_public(self.seed@),
    {
        ed25519_public_key(&self.seed)
    }
}

/// Signs a descriptor over the bytes that stand for it.
pub fn sign_bootstrap_descriptor(
    descriptor: BootstrapDescriptor,
    signing_bytes: &[u8],
    key: &ServerSigningKey,
) -> (signed: BootstrapDescriptor)
    ensures
        signed.signature@ == ed25519_signature(key.seed@, signing_bytes@),
        signed.descriptor_id == descriptor.descriptor_id,
        signed.version == descriptor.version,
        signed.created_at == descriptor.created_at,
        signed.expires_at == descriptor.expires_at,
        signed.base_mask_ids == descriptor.base_mask_ids,
        signed.embedded_masks == descriptor.embedded_masks,
        signed.candidate_count == descriptor.candidate_count,
        signed.kdf_salt == descriptor.kdf_salt,
{
    let mut signed: BootstrapDescriptor = descriptor;
    signed.signature = ed25519_sign(&key.seed, signing_bytes);
    signed
}

fn copy_ids(ids: &Vec<String>) -> (copy: Vec<String>)
    ensures
        ids_view(copy@) == ids_view(ids@),
{
    let ghost v = ids_view(ids@);
    let mut copy: Vec<String> = Vec::new();
    let mut i: usize = 0;
    assert(ids_view(copy@) =~= v.take(0));
    while i < ids.len()
        invariant
            i <= ids.len(),
            v == ids_view(ids@),
            ids_view(copy@) == v.take(i as int),
        decreases ids.len() - i,
    {
        let ghost before = ids_view(copy@);
        copy.push(ids[i].clone());
        assert(v[i as int] == ids@[i as int]@);
        assert(ids_view(copy@) =~= before.push(v[i as int]));
        assert(v.take(i + 1) =~= v.take(i as int).push(v[i as int]));
        i += 1;
    }
    assert(v.take(i as int) =~= v);
    copy
}

fn copy_masks(masks: &Vec<MaskProfile>) -> (copy: Vec<MaskProfile>)
    ensures
        masks_view(copy@) == masks_view(masks@),
{
    let ghost v = masks_view(masks@);
    let mut copy: Vec<MaskProfile> = Vec::new();
    let mut i: usize = 0;
    assert(masks_view(copy@) =~= v.take(0));
    while i < masks.len()
        invariant
            i <= masks.len(),
            v == masks_view(masks@),
            masks_view(copy@) == v.take(i as int),
        decreases masks.len() - i,
    {
        let ghost before = masks_view(copy@);
        copy.push(masks[i].copy());
        assert(v[i as int] == masks@[i as int]@);
        assert(masks_view(copy@) =~= before.push(v[i as int]));
        assert(v.take(i + 1) =~= v.take(i as int).push(v[i as int]));
        i += 1;
    }
    assert(v.take(i as int) =~= v);
    copy
}

/// A descriptor for an epoch, not signed yet.
pub fn build_bootstrap_descriptor(
    server_seed: &[u8; 32],
    epoch: u64,
    preset_ids: &Vec<String>,
    bootstrap_masks: &Vec<MaskProfile>,
) -> (descriptor: BootstrapDescriptor)
    requires
        (epoch + 2) * BOOTSTRAP_ROTATION_SECS <= u64::MAX,
    ensures
        describes(
            descriptor,
            server_seed@,
            epoch as nat,
            ids_view(preset_ids@),
            masks_view(bootstrap_masks@),
        ),
{
    let epoch_bytes: Vec<u8> = le_u64_bytes(epoch);
    let kdf_salt: [u8; 32] = blake3_keyed_hash(server_seed, epoch_bytes.as_slice());
    let created_at: u64 = epoch * BOOTSTRAP_ROTATION_SECS;
    let expires_at: u64 = created_at + 2 * BOOTSTRAP_ROTATION_SECS;
    let mut descriptor_id: String = String::new();
    push_text(&mut descriptor_id, "epoch-");
    push_decimal(&mut descriptor_id, epoch);
    assert(descriptor_id@ =~= "epoch-"@ + decimal(epoch as nat));
    let base_mask_ids: Vec<String> = if bootstrap_masks.len() == 0 {
        copy_ids(preset_ids)
    } else {
        let none: Vec<String> = Vec::new();
        assert(ids_view(none@) =~= seq![]);
        none
    };
    let signature: [u8; 64] = [0u8; 64];
    assert(signature@ =~= Seq::new(64, |i: int| 0u8));
    BootstrapDescriptor {
        descriptor_id,
        version: 1,
        created_at,
        expires_at,
        base_mask_ids,
        embedded_masks: copy_masks(bootstrap_masks),
        candidate_count: BOOTSTRAP_DESCRIPTOR_CANDIDATES,
        kdf_salt,
        signature,
    }
}

fn shift_epoch(epoch: u64, delta: i64) -> (shifted: u64)
    requires
        -2 <= delta <= 1,
        epoch < u64::MAX,
    ensures
        shifted == epoch_shifted(epoch as nat, delta as int),
{
    if delta < 0 {
        let back: u64 = (0 - delta) as u64;
        if epoch < back {
            0
        } else {
            epoch - back
        }
    } else {
        epoch + delta as u64
    }
}

/// The descriptors on offer at a time: two past epochs, the current and the next, none of
/// them signed yet.
pub fn build_bootstrap_descriptors(
    server_seed: &[u8; 32],
    preset_ids: &Vec<String>,
    bootstrap_masks: &Vec<MaskProfile>,
    unix_secs: u64,
) -> (descriptors: Vec<BootstrapDescriptor>)
    requires
        unix_secs <= LAST_BOOTSTRAP_SECS,
    ensures
        descriptors@.len() == 4,
        forall|i: int|
            0 <= i < 4 ==> describes(
                #[trigger] descriptors@[i],
                server_seed@,
                epoch_shifted(epoch_of(unix_secs as nat), BOOTSTRAP_EPOCH_WINDOW@[i] as int),
                ids_view(preset_ids@),
                masks_view(bootstrap_masks@),
            ),
{
    let epoch: u64 = bootstrap_epoch(unix_secs);
    let mut descriptors: Vec<BootstrapDescriptor> = Vec::new();
    let mut i: usize = 0;
    while i < 4
        invariant
            i <= 4,
            descriptors@.len() == i,
            unix_secs <= LAST_BOOTSTRAP_SECS,
            epoch == epoch_of(unix_secs as nat),
            forall|k: int|
                0 <= k < i ==> describes(
                    #[trigger] descriptors@[k],
                    server_seed@,
                    epoch_shifted(epoch as nat, BOOTSTRAP_EPOCH_WINDOW@[k] as int),
                    ids_view(preset_ids@),
                    masks_view(bootstrap_masks@),
                ),
        decreases 4 - i,
    {
        let delta: i64 = BOOTSTRAP_EPOCH_WINDOW[i];
        let shifted: u64 = shift_epoch(epoch, delta);
        descriptors.push(
            build_bootstrap_descriptor(server_seed, shifted, preset_ids, bootstrap_masks),
        );
        i += 1;
    }
    descriptors
}

/// What a file of masks was read as.
pub enum ParsedMasks {
    /// One mask.
    One(MaskProfile),
    /// A list of masks.
    Many(Vec<MaskProfile>),
    /// Neither.
    Neither,
}

/// A file of masks: its name, and its text or why it could not be read.
pub struct MaskFile {
    pub name: String,
    pub text: Result<String, String>,
    pub parsed: ParsedMasks,
}

/// The masks of a file; `None` where they could not be read.
pub open spec fn file_masks(file: MaskFile) -> Option<Seq<MaskView>> {
    match file.text {
        Err(_) => None,
        Ok(text) => if trimmed(text@).len() == 0 {
            Some(seq![])
        } else {
            match file.parsed {
                ParsedMasks::One(m) => Some(seq![m@]),
                ParsedMasks::Many(ms) => Some(masks_view(ms@)),
                ParsedMasks::Neither => None,
            }
        },
    }
}

/// What is said of a file that could not be read.
pub open spec fn file_error(file: MaskFile) -> Seq<char> {
    match file.text {
        Err(e) => file.name@ + ": "@ + e@,
        Ok(_) => file.name@
            + ": invalid JSON format, expected MaskProfile object or array of MaskProfile objects"@,
    }
}

/// The masks of files, one after the other.
pub open spec fn all_file_masks(files: Seq<MaskFile>) -> Seq<MaskView>
    decreases files.len(),
{
    if files.len() == 0 {
        seq![]
    } else {
        all_file_masks(files.drop_last()) + (match file_masks(files.last()) {
            Some(ms) => ms,
            None => seq![],
        })
    }
}

/// The first file that could not be read.
pub open spec fn is_first_bad(files: Seq<MaskFile>, i: int) -> bool {
    0 <= i < files.len() && file_masks(files[i]) is None && forall|k: int|
        0 <= k < i ==> file_masks(#[trigger] files[k]) is Some
}

fn is_blank(text: &str) -> (r: bool)
    ensures
        r == (trimmed(text@).len() == 0),
{
    let chars: Vec<char> = chars_of(text);
    let rest: String = trim(chars.as_slice());
    chars_of(rest.as_str()).len() == 0
}

fn file_error_text(name: &str, reason: &str) -> (text: String)
    ensures
        text@ == name@ + reason@,
{
    let mut text: String = String::new();
    push_text(&mut text, name);
    push_text(&mut text, reason);
    assert(text@ =~= name@ + reason@);
    text
}

/// The operator's masks, from all files in their order. Blank files are passed over; the
/// first file that holds neither a mask nor a list of masks, or could not be read, is the
/// error.
pub fn load_bootstrap_masks(files: &Vec<MaskFile>) -> (masks: Result<Vec<MaskProfile>, String>)
    ensures
        match masks {
            Ok(ms) => masks_view(ms@) == all_file_masks(files@) && forall|k: int|
                0 <= k < files@.len() ==> file_masks(#[trigger] files@[k]) is Some,
            Err(e) => exists|i: int| #[trigger]
                is_first_bad(files@, i) && e@ == file_error(files@[i]),
        },
{
    let mut masks: Vec<MaskProfile> = Vec::new();
    let mut i: usize = 0;
    proof {
        assert(masks_view(masks@) =~= seq![]);
        assert(files@.take(0) =~= seq![]);
    }
    while i < files.len()
        invariant
            i <= files.len(),
            masks_view(masks@) == all_file_masks(files@.take(i as int)),
            forall|k: int| 0 <= k < i ==> file_masks(#[trigger] files@[k]) is Some,
        decreases files.len() - i,
    {
        let ghost before = masks_view(masks@);
        let file: &MaskFile = &files[i];
        proof {
            assert(files@.take(i + 1).drop_last() =~= files@.take(i as int));
            assert(files@.take(i + 1).last() == *file);
        }
        match &file.text {
            Err(e) => {
                let mut reason: String = String::new();
                push_text(&mut reason, ": ");
                push_text(&mut reason, e.as_str());
                let text: String = file_error_text(file.name.as_str(), reason.as_str());
                assert(text@ =~= file_error(files@[i as int]));
                assert(is_first_bad(files@, i as int));
                return Err(text);
            },
            Ok(text) => {
                if is_blank(text.as_str()) {
                    assert(before =~= before + seq![]);
                } else {
                    match &file.parsed {
                        ParsedMasks::One(m) => {
                            masks.push(m.copy());
                            assert(masks_view(masks@) =~= before + seq![m@]);
                        },
                        ParsedMasks::Many(list) => {
                            let mut more: Vec<MaskProfile> = copy_masks(list);
                            let ghost added = masks_view(more@);
                            let ghost kept = masks@;
                            let ghost new = more@;
                            masks.append(&mut more);
                            assert(masks@ =~= kept + new);
                            assert(masks_view(masks@) =~= before + added);
                        },
                        ParsedMasks::Neither => {
                            let error: String = file_error_text(
                                file.name.as_str(),
                                ": invalid JSON format, expected MaskProfile object or array of MaskProfile objects",
                            );
                            assert(error@ =~= file_error(files@[i as int]));
                            assert(is_first_bad(files@, i as int));
                            return Err(error);
                        },
                    }
                }
            },
        }
        i += 1;
    }
    assert(files@.take(i as int) =~= files@);
    Ok(masks)
}

/// Whether the descriptors are out of date, noting the epoch they are for from now on.
pub fn epoch_turned(last_epoch: &mut u64, unix_secs: u64) -> (turned: bool)
    ensures
        turned == (epoch_of(unix_secs as nat) != *old(last_epoch)),
        *final(last_epoch) == epoch_of(unix_secs as nat),
{
    let epoch: u64 = bootstrap_epoch(unix_secs);
    let turned: bool = epoch != *last_epoch;
    *last_epoch = epoch;
    turned
}

/// The current epoch is always on offer, and every descriptor for it is valid.
pub proof fn current_epoch_is_on_offer(unix_secs: nat)
    ensures
        epoch_shifted(epoch_of(unix_secs), BOOTSTRAP_EPOCH_WINDOW@[2] as int) == epoch_of(unix_secs),
        epoch_of(unix_secs) * BOOTSTRAP_ROTATION_SECS <= unix_secs,
        unix_secs < epoch_of(unix_secs) * BOOTSTRAP_ROTATION_SECS + 2 * BOOTSTRAP_ROTATION_SECS,
{
}

/// A descriptor that is on offer as the current one is still on offer on each of the next two
/// days.
pub proof fn descriptors_outlive_their_epoch(unix_secs: nat, later: nat)
    requires
        epoch_of(later) == epoch_of(unix_secs) + 1 || epoch_of(later) == epoch_of(unix_secs) + 2,
    ensures
        exists|i: int|
            0 <= i < 4 && epoch_shifted(
                epoch_of(later),
                (#[trigger] BOOTSTRAP_EPOCH_WINDOW@[i]) as int,
            ) == epoch_of(unix_secs),
{
    if epoch_of(later) == epoch_of(unix_secs) + 1 {
        assert(epoch_shifted(epoch_of(later), BOOTSTRAP_EPOCH_WINDOW@[1] as int) == epoch_of(
            unix_secs,
        ));
    } else {
        assert(epoch_shifted(epoch_of(later), BOOTSTRAP_EPOCH_WINDOW@[0] as int) == epoch_of(
            unix_secs,
        ));
    }
}

/// Epochs are days, counted from the beginning of time; one further back than that is the first.
pub proof fn epochs_are_days(unix_secs: nat, epoch: nat, delta: int)
    ensures
        epoch_of(unix_secs) * 86400 <= unix_secs < (epoch_of(unix_secs) + 1) * 86400,
        epoch + delta >= 0 ==> epoch_shifted(epoch, delta) == epoch + delta,
        epoch + delta < 0 ==> epoch_shifted(epoch, delta) == 0,
{
}

/// Descriptors are on offer for the two epochs before, this one, and the next.
pub proof fn four_epochs_are_on_offer(epoch: nat)
    requires
        epoch >= 2,
    ensures
        epoch_shifted(epoch, BOOTSTRAP_EPOCH_WINDOW@[0] as int) == epoch - 2,
        epoch_shifted(epoch, BOOTSTRAP_EPOCH_WINDOW@[1] as int) == epoch - 1,
        epoch_shifted(epoch, BOOTSTRAP_EPOCH_WINDOW@[2] as int) == epoch,
        epoch_shifted(epoch, BOOTSTRAP_EPOCH_WINDOW@[3] as int) == epoch + 1,
{
}

/// A descriptor stands for its epoch: it is named after it, begins with it and ends with the
/// next, and its salt follows from it and the server's secret. It carries the operator's masks
/// where there are any, and names the built-in ones where there are none, never both.
pub proof fn descriptor_stands_for_its_epoch(
    d: BootstrapDescriptor,
    server_seed: Seq<u8>,
    epoch: nat,
    preset_ids: Seq<Seq<char>>,
    masks: Seq<MaskView>,
)
    requires
        describes(d, server_seed, epoch, preset_ids, masks),
    ensures
        d.descriptor_id@ == "epoch-"@ + decimal(epoch),
        d.version == 1,
        d.candidate_count == 4,
        d.created_at == epoch * 86400,
        d.expires_at == (epoch + 2) * 86400,
        masks.len() == 0 ==> ids_view(d.base_mask_ids@) == preset_ids && d.embedded_masks@.len()
            == 0,
        masks.len() > 0 ==> d.base_mask_ids@.len() == 0 && masks_view(d.embedded_masks@) == masks,
        d.kdf_salt@ == blake3_keyed_digest(server_seed, le_bytes(epoch, 8)),
        d.signature@.len() == 64,
{
    assert(masks_view(d.embedded_masks@).len() == d.embedded_masks@.len());
    assert(ids_view(d.base_mask_ids@).len() == d.base_mask_ids@.len());
}

/// A mask file gives the masks it holds, in their order; a blank one gives none; one that cannot
/// be read, or holds anything else, is an error.
pub proof fn mask_file_gives_what_it_holds(file: MaskFile)
    ensures
        file.text is Err ==> file_masks(file) is None,
        file.text matches Ok(text) ==> {
            &&& trimmed(text@).len() == 0 ==> file_masks(file) == Some(Seq::<MaskView>::empty())
            &&& trimmed(text@).len() > 0 ==> match file.parsed {
                ParsedMasks::One(m) => file_masks(file) == Some(seq![m@]),
                ParsedMasks::Many(ms) => file_masks(file) == Some(masks_view(ms@)),
                ParsedMasks::Neither => file_masks(file) is None,
            }
        },
{
}

/// The masks of one more file come behind those of the files before it.
pub proof fn files_are_read_in_order(files: Seq<MaskFile>, file: MaskFile)
    ensures
        all_file_masks(seq![]).len() == 0,
        file_masks(file) matches Some(ms) ==> all_file_masks(files.push(file)) == all_file_masks(
            files,
        ) + ms,
{
    assert(files.push(file).drop_last() =~= files);
}

/// An error about a mask file names the file and says what is wrong with it: what reading it
/// said, where it could not be read.
pub proof fn file_error_names_the_file(file: MaskFile)
    ensures
        starts_with(file_error(file), file.name@ + ": "@),
        file.text matches Err(e) ==> file_error(file).skip(file.name@.len() as int + 2) == e@,
{
    reveal_strlit(": ");
    let n = file.name@.len() as int;
    reveal_strlit(
        ": invalid JSON format, expected MaskProfile object or array of MaskProfile objects",
    );
    let error = file_error(file);
    assert(error.subrange(0, n + 2) =~= file.name@ + ": "@);
    if let Err(e) = file.text {
        assert(error.skip(n + 2) =~= e@);
    }
}

} // verus!
