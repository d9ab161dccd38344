//! The masks a server can use, and those it must not use any more.

use crate::layout::{
    add_tag_offset, handshake_header_len, packet_header_len, packet_layout_for_mask,
    packet_mdh_bytes_for_mask, with_offsets, MaskProfile, MaskView, TAG_IN_FRONT,
};
use crate::outside_maps::{
    count_masks, get_mask, has_time, held_masks, held_times, insert_mask, insert_time,
    list_mask_ids, new_masks, new_times, remove_mask,
};
use crate::text::{bytes_less, bytes_order_is_asymmetric, bytes_order_is_transitive, precedes};
use dashmap::DashMap;
use vstd::prelude::*;
use vstd::utf8::encode_utf8;

verus! {

/// Masks by id, compromised ids, and the id of the mask to prefer.
pub struct MaskCatalog {
    masks: DashMap<String, MaskProfile>,
    compromised: DashMap<String, u64>,
    primary_mask_id: String,
}

/// `id` comes first among the ids in byte order.
pub open spec fn is_first_id(masks: Map<Seq<char>, MaskView>, id: Seq<char>) -> bool {
    masks.contains_key(id) && forall|other: Seq<char>| #[trigger]
        masks.contains_key(other) ==> !bytes_less(encode_utf8(other), encode_utf8(id))
}

/// `mask` is the one to prefer: the primary one where it is there, else the first by id.
pub open spec fn is_primary(
    masks: Map<Seq<char>, MaskView>,
    primary: Seq<char>,
    mask: Option<MaskView>,
) -> bool {
    match mask {
        Some(m) => if masks.contains_key(primary) {
            m == masks[primary]
        } else {
            exists|id: Seq<char>| #[trigger] is_first_id(masks, id) && m == masks[id]
        },
        None => masks =~= Map::empty(),
    }
}

/// The masks once one more is registered: it is added, or replaces the one with its id, unless
/// that id is compromised.
pub open spec fn registered(
    masks: Map<Seq<char>, MaskView>,
    compromised: Map<Seq<char>, u64>,
    mask: MaskView,
) -> Map<Seq<char>, MaskView> {
    if compromised.contains_key(mask.mask_id) {
        masks
    } else {
        masks.insert(mask.mask_id, mask)
    }
}

impl MaskCatalog {
    /// The masks that can be used, by id.
    pub closed spec fn masks(&self) -> Map<Seq<char>, MaskView> {
        held_masks(self.masks)
    }

    /// The ids that must not be used any more, with the time they were marked.
    pub closed spec fn compromised(&self) -> Map<Seq<char>, u64> {
        held_times(self.compromised)
    }

    /// The id of the mask to prefer.
    pub closed spec fn primary_id(&self) -> Seq<char> {
        self.primary_mask_id@
    }

    /// Every mask is filed under its own id, and none of them is compromised.
    pub open spec fn clean(&self) -> bool {
        &&& forall|id: Seq<char>| #[trigger]
            self.masks().contains_key(id) ==> self.masks()[id].mask_id == id
        &&& forall|id: Seq<char>| #[trigger]
            self.masks().contains_key(id) ==> !self.compromised().contains_key(id)
    }

    /// A catalog without masks.
    pub fn new() -> (catalog: MaskCatalog)
        ensures
            catalog.masks() == Map::<Seq<char>, MaskView>::empty(),
            catalog.compromised() == Map::<Seq<char>, u64>::empty(),
            catalog.primary_id() == Seq::<char>::empty(),
            catalog.clean(),
    {
        MaskCatalog {
            masks: new_masks(),
            compromised: new_times(),
            primary_mask_id: String::new(),
        }
    }

    /// Sets the mask to prefer.
    pub fn set_primary_mask_id(&mut self, mask_id: String)
        ensures
            final(self).primary_id() == mask_id@,
            final(self).masks() == old(self).masks(),
            final(self).compromised() == old(self).compromised(),
    {
        self.primary_mask_id = mask_id;
    }

    /// Adds a mask, or replaces the one with its id, unless that id is compromised.
    pub fn register_mask(&mut self, mask: MaskProfile)
        ensures
            final(self).masks() == registered(
                old(self).masks(),
                old(self).compromised(),
                mask@,
            ),
            final(self).compromised() == old(self).compromised(),
            final(self).primary_id() == old(self).primary_id(),
            old(self).clean() ==> final(self).clean(),
    {
        if !has_time(&self.compromised, &mask.mask_id) {
            let id: String = mask.mask_id.clone();
            insert_mask(&mut self.masks, id, mask);
        }
    }

    /// Takes a mask out of use for good.
    pub fn mark_compromised(&mut self, mask_id: &String, now: u64)
        ensures
            final(self).masks() == old(self).masks().remove(mask_id@),
            final(self).compromised() == old(self).compromised().insert(mask_id@, now),
            final(self).primary_id() == old(self).primary_id(),
            old(self).clean() ==> final(self).clean(),
    {
        insert_time(&mut self.compromised, mask_id.clone(), now);
        remove_mask(&mut self.masks, mask_id);
    }

    /// Removes a mask, which may be added again.
    pub fn remove_mask(&mut self, mask_id: &String)
        ensures
            final(self).masks() == old(self).masks().remove(mask_id@),
            final(self).compromised() == old(self).compromised(),
            final(self).primary_id() == old(self).primary_id(),
            old(self).clean() ==> final(self).clean(),
    {
        remove_mask(&mut self.masks, mask_id);
    }

    /// Some mask other than the current one. Which one is left open.
    pub fn select_fallback(&self, current_mask_id: &String) -> (mask: Option<MaskProfile>)
        ensures
            match mask {
                Some(m) => exists|id: Seq<char>| #[trigger]
                    self.masks().contains_key(id) && id != current_mask_id@ && self.masks()[id]
                        == m@,
                None => forall|id: Seq<char>| #[trigger]
                    self.masks().contains_key(id) ==> id == current_mask_id@,
            },
    {
        let ids: Vec<String> = list_mask_ids(&self.masks);
        let mut i: usize = 0;
        while i < ids.len()
            invariant
                i <= ids.len(),
                forall|k: int| 0 <= k < i ==> (#[trigger] ids@[k])@ == current_mask_id@,
                forall|k: int|
                    0 <= k < ids@.len() ==> self.masks().contains_key((#[trigger] ids@[k])@),
            decreases ids.len() - i,
        {
            if ids[i] != *current_mask_id {
                let found: Option<MaskProfile> = get_mask(&self.masks, &ids[i]);
                assert(self.masks().contains_key(ids@[i as int]@));
                return found;
            }
            i += 1;
        }
        assert forall|id: Seq<char>| #[trigger] self.masks().contains_key(id) implies id
            == current_mask_id@ by {
            let k = choose|k: int| 0 <= k < ids@.len() && (#[trigger] ids@[k])@ == id;
            assert(ids@[k]@ == current_mask_id@);
        }
        None
    }

    /// Prefers some mask of the catalog from now on, and returns it. Which one is left open;
    /// `None` where there is none.
    pub fn adopt_primary(&mut self) -> (mask: Option<MaskProfile>)
        ensures
            final(self).masks() == old(self).masks(),
            final(self).compromised() == old(self).compromised(),
            match mask {
                Some(m) => final(self).masks().contains_key(final(self).primary_id())
                    && final(self).masks()[final(self).primary_id()] == m@,
                None => old(self).masks() =~= Map::empty() && final(self).primary_id() == old(
                    self,
                ).primary_id(),
            },
    {
        let mut ids: Vec<String> = list_mask_ids(&self.masks);
        if ids.len() == 0 {
            assert(self.masks() =~= Map::empty());
            return None;
        }
        let ghost listed = ids@;
        let id: String = ids.remove(0);
        assert(self.masks().contains_key(listed[0]@));
        let mask: Option<MaskProfile> = get_mask(&self.masks, &id);
        self.set_primary_mask_id(id);
        mask
    }

    /// How many masks can be used.
    pub fn available_count(&self) -> (n: usize)
        ensures
            n == self.masks().dom().len(),
    {
        count_masks(&self.masks)
    }

    /// The mask to prefer: the primary one where it is there, else the first by id.
    pub fn primary_mask(&self) -> (mask: Option<MaskProfile>)
        ensures
            is_primary(
                self.masks(),
                self.primary_id(),
                match mask {
                    Some(m) => Some(m@),
                    None => None,
                },
            ),
    {
        let primary: Option<MaskProfile> = get_mask(&self.masks, &self.primary_mask_id);
        if primary.is_some() {
            return primary;
        }
        let ids: Vec<String> = list_mask_ids(&self.masks);
        if ids.len() == 0 {
            assert(self.masks() =~= Map::empty());
            return None;
        }
        let mut best: usize = 0;
        let mut i: usize = 1;
        proof {
            if bytes_less(encode_utf8(ids@[0]@), encode_utf8(ids@[0]@)) {
                bytes_order_is_asymmetric(encode_utf8(ids@[0]@), encode_utf8(ids@[0]@));
            }
        }
        while i < ids.len()
            invariant
                best < i <= ids.len(),
                forall|k: int|
                    0 <= k < i ==> !bytes_less(
                        encode_utf8((#[trigger] ids@[k])@),
                        encode_utf8(ids@[best as int]@),
                    ),
            decreases ids.len() - i,
        {
            if precedes(ids[i].as_str().as_bytes(), ids[best].as_str().as_bytes()) {
                proof {
                    let a = encode_utf8(ids@[i as int]@);
                    let b = encode_utf8(ids@[best as int]@);
                    bytes_order_is_asymmetric(a, b);
                    assert forall|k: int| 0 <= k < i implies !bytes_less(
                        encode_utf8((#[trigger] ids@[k])@),
                        a,
                    ) by {
                        bytes_order_is_transitive(encode_utf8(ids@[k]@), b, a);
                    }
                    if bytes_less(a, a) {
                        bytes_order_is_asymmetric(a, a);
                    }
                }
                best = i;
            }
            i += 1;
        }
        let found: Option<MaskProfile> = get_mask(&self.masks, &ids[best]);
        proof {
            assert forall|other: Seq<char>| #[trigger]
                self.masks().contains_key(other) implies !bytes_less(
                encode_utf8(other),
                encode_utf8(ids@[best as int]@),
            ) by {
                let k = choose|k: int| 0 <= k < ids@.len() && (#[trigger] ids@[k])@ == other;
                assert(!bytes_less(encode_utf8(ids@[k]@), encode_utf8(ids@[best as int]@)));
            }
            assert(self.masks().contains_key(ids@[best as int]@));
            assert(is_first_id(self.masks(), ids@[best as int]@));
        }
        found
    }

    /// The layout of the preferred mask's packets, or a layout that suits most masks where
    /// there is none.
    pub fn packet_layout(&self) -> (layout: (usize, usize, usize, usize))
        ensures
            self.masks() =~= Map::empty() ==> layout == (20usize, 52usize, 20usize, 32usize),
            !(self.masks() =~= Map::empty()) ==> exists|m: MaskView| #[trigger]
                is_primary(self.masks(), self.primary_id(), Some(m)) && layout.0
                    == packet_header_len(m) && layout.1 == handshake_header_len(m) && layout.2
                    == m.eph_pub_offset && layout.3 == m.eph_pub_length,
    {
        match self.primary_mask() {
            Some(mask) => {
                assert(is_primary(self.masks(), self.primary_id(), Some(mask@)));
                packet_layout_for_mask(&mask)
            },
            None => (20, 52, 20, 32),
        }
    }

    /// The header bytes of the preferred mask's packets, `generated` from its header rules
    /// where it has any; twenty zeros where there is no mask.
    pub fn packet_mdh_bytes(&self, generated: Vec<u8>) -> (mdh: Vec<u8>)
        ensures
            self.masks() =~= Map::empty() ==> mdh@ == Seq::new(20, |i: int| 0u8),
            !(self.masks() =~= Map::empty()) ==> exists|m: MaskView| #[trigger]
                is_primary(self.masks(), self.primary_id(), Some(m)) && mdh@ == (
                if m.header_min_length is Some {
                    generated@
                } else {
                    m.header_template
                }),
    {
        match self.primary_mask() {
            Some(mask) => {
                assert(is_primary(self.masks(), self.primary_id(), Some(mask@)));
                packet_mdh_bytes_for_mask(&mask, generated)
            },
            None => {
                let mdh: Vec<u8> = vec![0u8; 20];
                assert(mdh@ =~= Seq::new(20, |i: int| 0u8));
                mdh
            },
        }
    }

    /// The preferred mask's tag offset; in front where there is no mask.
    pub fn primary_tag_offset(&self) -> (tag_offset: u16)
        ensures
            self.masks() =~= Map::empty() ==> tag_offset == TAG_IN_FRONT,
            !(self.masks() =~= Map::empty()) ==> exists|m: MaskView| #[trigger]
                is_primary(self.masks(), self.primary_id(), Some(m)) && tag_offset == m.tag_offset,
    {
        match self.primary_mask() {
            Some(mask) => {
                assert(is_primary(self.masks(), self.primary_id(), Some(mask@)));
                mask.tag_offset
            },
            None => TAG_IN_FRONT,
        }
    }

    /// The offsets at which a packet may carry its tag: those of the built-in masks, then
    /// those of this catalog's masks that are not among them, in no particular order.
    pub fn distinct_tag_offsets(&self, preset_tag_offsets: &Vec<usize>) -> (offsets: Vec<usize>)
        ensures
            exists|tags: Seq<u16>| #[trigger]
                with_offsets(preset_tag_offsets@, tags) == offsets@ && (forall|t: u16|
                    tags.contains(t) <==> exists|id: Seq<char>| #[trigger]
                        self.masks().contains_key(id) && self.masks()[id].tag_offset == t),
    {
        let mut offsets: Vec<usize> = Vec::new();
        offsets.extend_from_slice(preset_tag_offsets.as_slice());
        assert(offsets@ =~= preset_tag_offsets@);
        let ids: Vec<String> = list_mask_ids(&self.masks);
        let ghost mut tags: Seq<u16> = seq![];
        let mut i: usize = 0;
        while i < ids.len()
            invariant
                i <= ids.len(),
                tags.len() == i,
                forall|k: int|
                    0 <= k < i ==> self.masks().contains_key((#[trigger] ids@[k])@) && tags[k]
                        == self.masks()[ids@[k]@].tag_offset,
                forall|k: int|
                    0 <= k < ids@.len() ==> self.masks().contains_key((#[trigger] ids@[k])@),
                offsets@ == with_offsets(preset_tag_offsets@, tags),
            decreases ids.len() - i,
        {
            match get_mask(&self.masks, &ids[i]) {
                Some(mask) => {
                    let ghost before = tags;
                    proof {
                        tags = tags.push(mask.tag_offset);
                        assert(tags.drop_last() =~= before);
                    }
                    add_tag_offset(&mut offsets, mask.tag_offset);
                },
                None => {
                    assert(self.masks().contains_key(ids@[i as int]@));
                },
            }
            i += 1;
        }
        proof {
            assert forall|t: u16| tags.contains(t) <==> exists|id: Seq<char>| #[trigger]
                self.masks().contains_key(id) && self.masks()[id].tag_offset == t by {
                if tags.contains(t) {
                    let k = choose|k: int| 0 <= k < tags.len() && tags[k] == t;
                    assert(self.masks().contains_key(ids@[k]@));
                }
                if exists|id: Seq<char>| #[trigger]
                    self.masks().contains_key(id) && self.masks()[id].tag_offset == t {
                    let id = choose|id: Seq<char>| #[trigger]
                        self.masks().contains_key(id) && self.masks()[id].tag_offset == t;
                    let k = choose|k: int| 0 <= k < ids@.len() && (#[trigger] ids@[k])@ == id;
                    assert(tags[k] == t);
                }
            }
            assert(with_offsets(preset_tag_offsets@, tags) == offsets@);
        }
        offsets
    }
}

/// Once marked, a mask is neither preferred nor found among the others, and stays out of a
/// clean catalog whatever is registered or removed next.
pub proof fn compromised_mask_stays_out(
    catalog: &MaskCatalog,
    id: Seq<char>,
    mask: MaskView,
    removed: Seq<char>,
)
    requires
        catalog.clean(),
        catalog.compromised().contains_key(id),
    ensures
        forall|m: MaskView| #[trigger]
            is_primary(catalog.masks(), catalog.primary_id(), Some(m)) ==> m.mask_id != id,
        forall|other: Seq<char>| #[trigger]
            catalog.masks().contains_key(other) ==> catalog.masks()[other].mask_id != id,
        !registered(catalog.masks(), catalog.compromised(), mask).contains_key(id),
        !catalog.masks().remove(removed).contains_key(id),
{
}

/// A mask is held under its own id, in place of any that was, unless it is known to be
/// compromised; no other mask is touched.
pub proof fn mask_is_held_under_its_id(
    masks: Map<Seq<char>, MaskView>,
    compromised: Map<Seq<char>, u64>,
    mask: MaskView,
    other: Seq<char>,
)
    requires
        other != mask.mask_id,
    ensures
        ({
            let after = registered(masks, compromised, mask);
            &&& compromised.contains_key(mask.mask_id) ==> after == masks
            &&& !compromised.contains_key(mask.mask_id) ==> after.contains_key(mask.mask_id)
                && after[mask.mask_id] == mask
            &&& after.contains_key(other) == masks.contains_key(other)
            &&& masks.contains_key(other) ==> after[other] == masks[other]
        }),
{
}

/// The primary mask is the one under the primary id where it is held; else it is the one whose
/// id comes first. There is none only where no mask is held.
pub proof fn primary_mask_is_the_one_named(
    masks: Map<Seq<char>, MaskView>,
    primary: Seq<char>,
    mask: MaskView,
    other: Seq<char>,
)
    requires
        is_primary(masks, primary, Some(mask)),
    ensures
        masks.contains_key(primary) ==> mask == masks[primary],
        !masks.contains_key(primary) ==> exists|id: Seq<char>|
            {
                &&& #[trigger] masks.contains_key(id)
                &&& masks[id] == mask
                &&& masks.contains_key(other) ==> !bytes_less(encode_utf8(other), encode_utf8(id))
            },
        masks.contains_key(other) ==> !is_primary(masks, primary, None),
{
    if !masks.contains_key(primary) {
        let id = choose|id: Seq<char>| #[trigger] is_first_id(masks, id) && mask == masks[id];
        assert(masks.contains_key(id));
    }
    if masks.contains_key(other) {
        assert(!Map::<Seq<char>, MaskView>::empty().contains_key(other));
    }
}

} // verus!
