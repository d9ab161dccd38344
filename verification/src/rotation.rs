//! When a session's mask is replaced because it no longer looks like what it imitates.

use crate::layout::{MaskProfile, MaskView};
use crate::mask_catalog::MaskCatalog;
use vstd::prelude::*;

verus! {

/// What the periodic check of a mask says.
#[derive(Clone, Copy, PartialEq, Eq, Structural)]
pub enum CheckStatus {
    Compromised,
    Warning,
    Healthy,
    Skip,
    /// The check could not be made.
    Failed,
}

/// What is known of one session's mask when it is checked.
#[derive(Clone, Copy, PartialEq, Eq, Structural)]
pub struct MaskSigns {
    pub status: CheckStatus,
    /// Enough time has passed since the mask was last replaced.
    pub may_rotate: bool,
    /// The traffic reads as a tunnel; `None` while there is too little of it.
    pub reads_as_tunnel: Option<bool>,
    /// As `may_rotate`, asked again after the first replacement was noted.
    pub may_still_rotate: bool,
    /// Clients report losses on this mask.
    pub anomalous: bool,
}

/// What one check of a session's mask comes to.
pub struct RotationPlan {
    /// The check is counted, and whether it found the mask compromised.
    pub counted_check: Option<bool>,
    /// How often a replacement of the mask is noted.
    pub rotations_noted: u8,
    /// An attack is counted.
    pub attack_counted: bool,
    /// The mask that the session is moved to.
    pub replacement: Option<MaskProfile>,
}

/// The check itself has the mask replaced.
pub open spec fn check_rotates(signs: MaskSigns) -> bool {
    signs.status == CheckStatus::Compromised && signs.may_rotate
}

/// The check found the mask compromised, but it was replaced too recently: nothing is done.
pub open spec fn check_holds_back(signs: MaskSigns) -> bool {
    signs.status == CheckStatus::Compromised && !signs.may_rotate
}

/// The look of the traffic has the mask replaced.
pub open spec fn look_rotates(signs: MaskSigns) -> bool {
    signs.reads_as_tunnel == Some(true) && (if check_rotates(signs) {
        signs.may_still_rotate
    } else {
        signs.may_rotate
    })
}

/// Some sign has the mask taken out of use.
pub open spec fn is_given_up(signs: MaskSigns) -> bool {
    !check_holds_back(signs) && (check_rotates(signs) || look_rotates(signs) || signs.anomalous)
}

/// There is a mask other than `id`.
pub open spec fn has_other(masks: Map<Seq<char>, MaskView>, id: Seq<char>) -> bool {
    exists|other: Seq<char>| #[trigger] masks.contains_key(other) && other != id
}

/// How often a replacement is noted: once for the check, and once for the look of the
/// traffic where the check did not already find another mask.
pub open spec fn notes(signs: MaskSigns, other: bool) -> int {
    if check_holds_back(signs) {
        0
    } else {
        (if check_rotates(signs) {
            1int
        } else {
            0int
        }) + (if look_rotates(signs) && !(check_rotates(signs) && other) {
            1int
        } else {
            0int
        })
    }
}

/// An attack is counted where clients report losses and no earlier sign found another mask.
pub open spec fn counts_attack(signs: MaskSigns, other: bool) -> bool {
    !check_holds_back(signs) && signs.anomalous && !((check_rotates(signs) || look_rotates(signs))
        && other)
}

/// Checks one session's mask. The signs are taken in turn; the first that finds another mask
/// to move to settles the matter.
pub fn check_session_mask(
    catalog: &mut MaskCatalog,
    mask_id: &String,
    signs: MaskSigns,
    now: u64,
) -> (plan: RotationPlan)
    ensures
        ({
            let other = has_other(old(catalog).masks(), mask_id@);
            &&& plan.counted_check == (if signs.status == CheckStatus::Failed {
                None
            } else {
                Some(signs.status == CheckStatus::Compromised)
            })
            &&& plan.rotations_noted == notes(signs, other)
            &&& plan.attack_counted == counts_attack(signs, other)
            &&& plan.replacement is Some <==> is_given_up(signs) && other
            &&& plan.replacement is Some ==> exists|id: Seq<char>| #[trigger]
                old(catalog).masks().contains_key(id) && id != mask_id@ && old(catalog).masks()[id]
                    == plan.replacement->0@
            &&& final(catalog).masks() == (if is_given_up(signs) {
                old(catalog).masks().remove(mask_id@)
            } else {
                old(catalog).masks()
            })
            &&& final(catalog).compromised() == (if is_given_up(signs) {
                old(catalog).compromised().insert(mask_id@, now)
            } else {
                old(catalog).compromised()
            })
            &&& final(catalog).primary_id() == old(catalog).primary_id()
            &&& old(catalog).clean() ==> final(catalog).clean()
        }),
{
    let counted_check: Option<bool> = match signs.status {
        CheckStatus::Failed => None,
        CheckStatus::Compromised => Some(true),
        _ => Some(false),
    };
    let mut plan: RotationPlan = RotationPlan {
        counted_check,
        rotations_noted: 0,
        attack_counted: false,
        replacement: None,
    };
    let compromised: bool = match signs.status {
        CheckStatus::Compromised => true,
        _ => false,
    };
    let ghost before = catalog.masks();
    if compromised {
        if !signs.may_rotate {
            return plan;
        }
        plan.rotations_noted = 1;
        catalog.mark_compromised(mask_id, now);
        plan.replacement = catalog.select_fallback(mask_id);
        proof {
            lemma_without(before, mask_id@);
        }
        if plan.replacement.is_some() {
            return plan;
        }
    }
    let reads_as_tunnel: bool = match signs.reads_as_tunnel {
        Some(b) => b,
        None => false,
    };
    let may_rotate: bool = if compromised {
        signs.may_still_rotate
    } else {
        signs.may_rotate
    };
    if reads_as_tunnel && may_rotate {
        plan.rotations_noted = plan.rotations_noted + 1;
        let ghost here = catalog.masks();
        catalog.mark_compromised(mask_id, now);
        plan.replacement = catalog.select_fallback(mask_id);
        proof {
            lemma_without(here, mask_id@);
            lemma_without(before, mask_id@);
            assert(catalog.masks() =~= before.remove(mask_id@));
            assert(catalog.compromised() =~= old(catalog).compromised().insert(mask_id@, now));
        }
        if plan.replacement.is_some() {
            return plan;
        }
    }
    if signs.anomalous {
        plan.attack_counted = true;
        let ghost here = catalog.masks();
        catalog.mark_compromised(mask_id, now);
        plan.replacement = catalog.select_fallback(mask_id);
        proof {
            lemma_without(here, mask_id@);
            lemma_without(before, mask_id@);
            assert(catalog.masks() =~= before.remove(mask_id@));
            assert(catalog.compromised() =~= old(catalog).compromised().insert(mask_id@, now));
        }
    }
    plan
}

proof fn lemma_without(masks: Map<Seq<char>, MaskView>, id: Seq<char>)
    ensures
        has_other(masks.remove(id), id) == has_other(masks, id),
        forall|x: Seq<char>| #[trigger]
            masks.remove(id).contains_key(x) <==> masks.contains_key(x) && x != id,
{
    if has_other(masks, id) {
        let other = choose|other: Seq<char>| #[trigger] masks.contains_key(other) && other != id;
        assert(masks.remove(id).contains_key(other));
    }
    if has_other(masks.remove(id), id) {
        let other = choose|other: Seq<char>| #[trigger]
            masks.remove(id).contains_key(other) && other != id;
        assert(masks.contains_key(other));
    }
}

/// A session is never moved to the mask that was just given up, nor to one given up before.
pub proof fn replacement_is_not_compromised(
    catalog: &MaskCatalog,
    mask_id: Seq<char>,
    replacement: MaskView,
)
    requires
        catalog.clean(),
        exists|id: Seq<char>| #[trigger]
            catalog.masks().contains_key(id) && id != mask_id && catalog.masks()[id]
                == replacement,
    ensures
        replacement.mask_id != mask_id,
        !catalog.compromised().contains_key(replacement.mask_id),
{
}

/// Nothing happens to a mask that shows no sign of trouble.
pub proof fn healthy_mask_is_kept(signs: MaskSigns)
    requires
        signs.status != CheckStatus::Compromised,
        signs.reads_as_tunnel != Some(true),
        !signs.anomalous,
    ensures
        !is_given_up(signs),
{
}

/// A mask is given up exactly where the check finds it compromised and it may be replaced, or,
/// where the check does not, where it reads as a tunnel and may be replaced, or where clients
/// report losses on it. A compromised mask that may not be replaced yet is kept, whatever else
/// is seen of it.
pub proof fn mask_is_given_up_for_a_reason(signs: MaskSigns)
    ensures
        ({
            let compromised = signs.status == CheckStatus::Compromised;
            let tunnel = signs.reads_as_tunnel == Some(true);
            &&& compromised && signs.may_rotate ==> is_given_up(signs)
            &&& compromised && !signs.may_rotate ==> !is_given_up(signs)
            &&& !compromised ==> (is_given_up(signs) <==> signs.anomalous || (tunnel
                && signs.may_rotate))
        }),
{
}

/// Every replacement that the checks call for is noted once: one for the check, one for how the
/// mask reads, where that comes after a replacement that could not be made, or alone. Nothing is
/// noted of a compromised mask that may not be replaced yet.
pub proof fn replacements_are_noted_once(signs: MaskSigns, other: bool)
    ensures
        ({
            let compromised = signs.status == CheckStatus::Compromised;
            let tunnel = signs.reads_as_tunnel == Some(true);
            &&& compromised && !signs.may_rotate ==> notes(signs, other) == 0
            &&& compromised && signs.may_rotate && other ==> notes(signs, other) == 1
            &&& compromised && signs.may_rotate && !other && tunnel && signs.may_still_rotate
                ==> notes(signs, other) == 2
            &&& compromised && signs.may_rotate && !other && !(tunnel && signs.may_still_rotate)
                ==> notes(signs, other) == 1
            &&& !compromised && tunnel && signs.may_rotate ==> notes(signs, other) == 1
            &&& !compromised && !(tunnel && signs.may_rotate) ==> notes(signs, other) == 0
        }),
{
}

/// Losses that clients report on a mask are counted as an attack, except where the mask has already been
/// replaced for another reason, or is compromised and may not be replaced yet.
pub proof fn reported_losses_are_an_attack(signs: MaskSigns, other: bool)
    ensures
        ({
            let compromised = signs.status == CheckStatus::Compromised;
            let tunnel = signs.reads_as_tunnel == Some(true);
            &&& !signs.anomalous ==> !counts_attack(signs, other)
            &&& compromised && !signs.may_rotate ==> !counts_attack(signs, other)
            &&& compromised && signs.may_rotate && signs.anomalous ==> (counts_attack(signs, other)
                <==> !other)
            &&& !compromised && signs.anomalous && tunnel && signs.may_rotate ==> (counts_attack(
                signs,
                other,
            ) <==> !other)
            &&& !compromised && signs.anomalous && !(tunnel && signs.may_rotate)
                ==> counts_attack(signs, other)
        }),
{
}

/// There is another mask to move to exactly where one under another id is held.
pub proof fn other_mask_has_another_id(
    masks: Map<Seq<char>, MaskView>,
    id: Seq<char>,
    other: Seq<char>,
    mask: MaskView,
)
    ensures
        other != id ==> has_other(masks.insert(other, mask), id),
        !has_other(Map::empty(), id),
        !has_other(Map::<Seq<char>, MaskView>::empty().insert(id, mask), id),
{
    if other != id {
        assert(masks.insert(other, mask).contains_key(other));
    }
}

} // verus!
