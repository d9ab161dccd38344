//! Where the parts of a packet lie under a mask: tag, header, handshake key, payload.

use vstd::prelude::*;

verus! {

/// Length of a resonance tag.
pub const TAG_SIZE: usize = 8;

/// Tag offset of masks that carry the tag in front of the header instead of inside it.
pub const TAG_IN_FRONT: u16 = 65535;

/// Most bytes of an inner application payload that are looked at.
pub const L7_PREFIX_LEN: usize = 16;

/// The parts of a mask that decide where things lie in its packets.
pub struct MaskProfile {
    pub mask_id: String,
    pub header_template: Vec<u8>,
    /// Shortest header that the mask's header rules produce, for masks that have such rules.
    pub header_min_length: Option<usize>,
    pub eph_pub_offset: u16,
    pub eph_pub_length: u16,
    pub tag_offset: u16,
    pub generated: bool,
}

#[verifier::ext_equal]
pub struct MaskView {
    pub mask_id: Seq<char>,
    pub header_template: Seq<u8>,
    pub header_min_length: Option<usize>,
    pub eph_pub_offset: u16,
    pub eph_pub_length: u16,
    pub tag_offset: u16,
    pub generated: bool,
}

impl View for MaskProfile {
    type V = MaskView;

    open spec fn view(&self) -> MaskView {
        MaskView {
            mask_id: self.mask_id@,
            header_template: self.header_template@,
            header_min_length: self.header_min_length,
            eph_pub_offset: self.eph_pub_offset,
            eph_pub_length: self.eph_pub_length,
            tag_offset: self.tag_offset,
            generated: self.generated,
        }
    }
}

/// Header length of an ordinary packet.
pub open spec fn packet_header_len(mask: MaskView) -> nat {
    match mask.header_min_length {
        Some(n) => n as nat,
        None => mask.header_template.len(),
    }
}

/// Header length of a handshake packet: long enough for the embedded key.
pub open spec fn handshake_header_len(mask: MaskView) -> nat {
    let key_end = (mask.eph_pub_offset + mask.eph_pub_length) as nat;
    if packet_header_len(mask) < key_end {
        key_end
    } else {
        packet_header_len(mask)
    }
}

/// Bytes in front of the header.
pub open spec fn front_len(tag_offset: u16) -> nat {
    if tag_offset == TAG_IN_FRONT {
        TAG_SIZE as nat
    } else {
        0
    }
}

/// Where the tag starts.
pub open spec fn tag_start(tag_offset: u16) -> nat {
    if tag_offset == TAG_IN_FRONT {
        0
    } else {
        tag_offset as nat
    }
}

/// The eight bytes at an offset, where the packet reaches that far.
pub open spec fn tag_at(packet: Seq<u8>, offset: int) -> Option<Seq<u8>> {
    if offset + TAG_SIZE <= packet.len() {
        Some(packet.subrange(offset, offset + TAG_SIZE))
    } else {
        None
    }
}

/// Offsets with that of one more mask, listed once.
pub open spec fn with_offset(offsets: Seq<usize>, tag_offset: u16) -> Seq<usize> {
    if tag_offset == TAG_IN_FRONT || offsets.contains(tag_offset as usize) {
        offsets
    } else {
        offsets.push(tag_offset as usize)
    }
}

/// Offsets with those of several masks, each listed once.
pub open spec fn with_offsets(offsets: Seq<usize>, tags: Seq<u16>) -> Seq<usize>
    decreases tags.len(),
{
    if tags.len() == 0 {
        offsets
    } else {
        with_offset(with_offsets(offsets, tags.drop_last()), tags.last())
    }
}

/// The tag offsets of a list of masks.
pub open spec fn tag_offsets(masks: Seq<MaskProfile>) -> Seq<u16> {
    masks.map_values(|m: MaskProfile| m.tag_offset)
}

/// The tags that a packet would carry at each of the offsets it is long enough for.
pub open spec fn tags_at(packet: Seq<u8>, offsets: Seq<usize>) -> Seq<Seq<u8>>
    decreases offsets.len(),
{
    if offsets.len() == 0 {
        seq![]
    } else {
        let before = tags_at(packet, offsets.drop_last());
        match tag_at(packet, offsets.last() as int) {
            Some(tag) => before.push(tag),
            None => before,
        }
    }
}

/// The byte sequences of a list of tags.
pub open spec fn tags_view(tags: Seq<[u8; 8]>) -> Seq<Seq<u8>> {
    tags.map_values(|t: [u8; 8]| t@)
}

/// Where the application payload of an IPv4 packet starts, for UDP and for TCP.
pub open spec fn l7_start(ip: Seq<u8>) -> Option<int> {
    if ip.len() < 20 || ip[0] / 16 != 4 {
        None
    } else {
        let ihl = (ip[0] % 16) * 4;
        if ihl < 20 || ip.len() < ihl {
            None
        } else if ip[9] == 17 {
            Some(ihl + 8)
        } else if ip[9] == 6 && ip.len() - ihl >= 13 {
            Some(ihl + (ip[ihl + 12] / 16) * 4)
        } else {
            None
        }
    }
}

/// The first bytes of the application payload; nothing where there is none.
pub open spec fn l7_prefix(ip: Seq<u8>) -> Seq<u8> {
    match l7_start(ip) {
        Some(start) => if start > ip.len() {
            seq![]
        } else if ip.len() - start > L7_PREFIX_LEN {
            ip.subrange(start, start + L7_PREFIX_LEN)
        } else {
            ip.skip(start)
        },
        None => seq![],
    }
}

impl MaskProfile {
    /// Where the tag lies inside the header; `None` where it lies in front of it.
    pub fn embedded_tag_offset(&self) -> (offset: Option<usize>)
        ensures
            offset == (if self.tag_offset == TAG_IN_FRONT {
                None::<usize>
            } else {
                Some(self.tag_offset as usize)
            }),
    {
        if self.tag_offset == TAG_IN_FRONT {
            None
        } else {
            Some(self.tag_offset as usize)
        }
    }

    /// A copy of the profile.
    pub fn copy(&self) -> (copy: MaskProfile)
        ensures
            copy@ == self@,
    {
        let mut header_template: Vec<u8> = Vec::new();
        header_template.extend_from_slice(self.header_template.as_slice());
        assert(header_template@ =~= self.header_template@);
        MaskProfile {
            mask_id: self.mask_id.clone(),
            header_template,
            header_min_length: self.header_min_length,
            eph_pub_offset: self.eph_pub_offset,
            eph_pub_length: self.eph_pub_length,
            tag_offset: self.tag_offset,
            generated: self.generated,
        }
    }
}

/// Header length of an ordinary packet, of a handshake packet, and where in the header the
/// handshake key starts and how long it is.
pub fn packet_layout_for_mask(mask: &MaskProfile) -> (layout: (usize, usize, usize, usize))
    ensures
        layout.0 == packet_header_len(mask@),
        layout.1 == handshake_header_len(mask@),
        layout.2 == mask.eph_pub_offset,
        layout.3 == mask.eph_pub_length,
{
    let eph_offset: usize = mask.eph_pub_offset as usize;
    let eph_len: usize = mask.eph_pub_length as usize;
    let packet_mdh_len: usize = match mask.header_min_length {
        Some(n) => n,
        None => mask.header_template.len(),
    };
    let key_end: usize = eph_offset + eph_len;
    let handshake_mdh_len: usize = if packet_mdh_len < key_end {
        key_end
    } else {
        packet_mdh_len
    };
    (packet_mdh_len, handshake_mdh_len, eph_offset, eph_len)
}

/// The header bytes of an ordinary packet: `generated` from the mask's header rules where it
/// has any, else its template.
pub fn packet_mdh_bytes_for_mask(mask: &MaskProfile, generated: Vec<u8>) -> (mdh: Vec<u8>)
    ensures
        mdh@ == (if mask.header_min_length is Some {
            generated@
        } else {
            mask.header_template@
        }),
{
    if mask.header_min_length.is_some() {
        generated
    } else {
        let mut mdh: Vec<u8> = Vec::new();
        mdh.extend_from_slice(mask.header_template.as_slice());
        assert(mdh@ =~= mask.header_template@);
        mdh
    }
}

/// Bytes in front of the header: the tag's, unless the header embeds it.
pub fn tag_prefix_len(tag_offset: u16) -> (len: usize)
    ensures
        len == front_len(tag_offset),
{
    if tag_offset == TAG_IN_FRONT {
        TAG_SIZE
    } else {
        0
    }
}

/// Where the tag starts in a packet.
pub fn tag_byte_offset(tag_offset: u16) -> (offset: usize)
    ensures
        offset == tag_start(tag_offset),
{
    if tag_offset == TAG_IN_FRONT {
        0
    } else {
        tag_offset as usize
    }
}

/// The eight bytes at `offset`. `None` where the packet is too short.
pub fn tag_bytes(packet: &[u8], offset: usize) -> (tag: Option<[u8; 8]>)
    ensures
        match tag {
            Some(t) => tag_at(packet@, offset as int) == Some(t@),
            None => tag_at(packet@, offset as int) is None,
        },
{
    if packet.len() < TAG_SIZE || packet.len() - TAG_SIZE < offset {
        return None;
    }
    let mut tag: [u8; 8] = [0u8; 8];
    let mut i: usize = 0;
    while i < 8
        invariant
            i <= 8,
            offset + 8 <= packet.len(),
            forall|k: int| 0 <= k < i ==> tag@[k] == packet@[offset + k],
        decreases 8 - i,
    {
        tag[i] = packet[offset + i];
        i += 1;
    }
    assert(tag@ =~= packet@.subrange(offset as int, offset + 8));
    Some(tag)
}

/// The tag of a packet under a mask's layout. `None` where the packet is too short.
pub fn extract_tag_for_layout(packet: &[u8], tag_offset: u16) -> (tag: Option<[u8; 8]>)
    ensures
        match tag {
            Some(t) => tag_at(packet@, tag_start(tag_offset) as int) == Some(t@),
            None => tag_at(packet@, tag_start(tag_offset) as int) is None,
        },
{
    tag_bytes(packet, tag_byte_offset(tag_offset))
}

fn has_offset(offsets: &Vec<usize>, offset: usize) -> (r: bool)
    ensures
        r == offsets@.contains(offset),
{
    let mut i: usize = 0;
    while i < offsets.len()
        invariant
            i <= offsets.len(),
            forall|k: int| 0 <= k < i ==> offsets@[k] != offset,
        decreases offsets.len() - i,
    {
        if offsets[i] == offset {
            return true;
        }
        i += 1;
    }
    false
}

/// Adds the tag offset of one more mask, unless it is already listed.
pub fn add_tag_offset(offsets: &mut Vec<usize>, tag_offset: u16)
    ensures
        final(offsets)@ == with_offset(old(offsets)@, tag_offset),
{
    if tag_offset != TAG_IN_FRONT && !has_offset(offsets, tag_offset as usize) {
        offsets.push(tag_offset as usize);
    }
}

/// The offsets at which the packets of these masks may carry their tag: the front, and each
/// embedded offset once, in the order of the masks.
pub fn distinct_tag_offsets_of(masks: &Vec<MaskProfile>) -> (offsets: Vec<usize>)
    ensures
        offsets@ == with_offsets(seq![0usize], tag_offsets(masks@)),
{
    let ghost all = tag_offsets(masks@);
    let mut offsets: Vec<usize> = Vec::new();
    offsets.push(0);
    assert(offsets@ =~= seq![0usize]);
    assert(all.take(0) =~= seq![]);
    let mut i: usize = 0;
    while i < masks.len()
        invariant
            i <= masks.len(),
            all == tag_offsets(masks@),
            offsets@ == with_offsets(seq![0usize], all.take(i as int)),
        decreases masks.len() - i,
    {
        assert(all.take(i + 1).drop_last() =~= all.take(i as int));
        assert(all[i as int] == masks@[i as int].tag_offset);
        add_tag_offset(&mut offsets, masks[i].tag_offset);
        i += 1;
    }
    assert(all.take(i as int) =~= all);
    offsets
}

/// Every tag that a packet could carry, given the offsets in use.
pub fn candidate_tags(packet: &[u8], offsets: &Vec<usize>) -> (tags: Vec<[u8; 8]>)
    ensures
        tags_view(tags@) == tags_at(packet@, offsets@),
{
    let mut tags: Vec<[u8; 8]> = Vec::new();
    let mut i: usize = 0;
    assert(tags_view(tags@) =~= tags_at(packet@, offsets@.take(0)));
    while i < offsets.len()
        invariant
            i <= offsets.len(),
            tags_view(tags@) == tags_at(packet@, offsets@.take(i as int)),
        decreases offsets.len() - i,
    {
        let ghost before = tags_view(tags@);
        assert(offsets@.take(i + 1).drop_last() =~= offsets@.take(i as int));
        match tag_bytes(packet, offsets[i]) {
            Some(tag) => {
                tags.push(tag);
                assert(tags_view(tags@) =~= before.push(tag@));
            },
            None => {},
        }
        i += 1;
    }
    assert(offsets@.take(i as int) =~= offsets@);
    tags
}

/// The first bytes of the application payload inside an IPv4 packet.
pub fn inner_l7_prefix(ip: &[u8]) -> (prefix: Vec<u8>)
    ensures
        prefix@ == l7_prefix(ip@),
{
    let mut prefix: Vec<u8> = Vec::new();
    assert(prefix@ =~= seq![]);
    if ip.len() < 20 || ip[0] / 16 != 4 {
        return prefix;
    }
    let ihl: usize = (ip[0] % 16) as usize * 4;
    if ihl < 20 || ip.len() < ihl {
        return prefix;
    }
    let start: usize = if ip[9] == 17 {
        ihl + 8
    } else if ip[9] == 6 && ip.len() - ihl >= 13 {
        ihl + (ip[ihl + 12] / 16) as usize * 4
    } else {
        return prefix;
    };
    let mut i: usize = start;
    while i < ip.len() && i - start < L7_PREFIX_LEN
        invariant
            start <= i,
            i <= start + L7_PREFIX_LEN,
            i <= ip@.len() || i == start,
            prefix@.len() == i - start,
            forall|k: int| 0 <= k < prefix@.len() ==> prefix@[k] == ip@[start + k],
        decreases ip.len() - i,
    {
        prefix.push(ip[i]);
        i += 1;
    }
    assert(l7_start(ip@) == Some(start as int));
    assert(prefix@ =~= l7_prefix(ip@));
    prefix
}

/// Whether the variant that a client would be moved to is the one it already uses.
pub fn polymorphic_variant_already_active(
    current_mask_id: Option<&str>,
    variant_mask_id: &str,
) -> (active: bool)
    ensures
        active == (current_mask_id is Some && current_mask_id->0@ == variant_mask_id@),
{
    match current_mask_id {
        Some(current) => crate::text::same_text(current, variant_mask_id),
        None => false,
    }
}

/// A handshake packet's header is never shorter than an ordinary packet's, and always holds
/// the embedded key.
pub proof fn handshake_header_holds_key(mask: MaskView)
    ensures
        packet_header_len(mask) <= handshake_header_len(mask),
        mask.eph_pub_offset + mask.eph_pub_length <= handshake_header_len(mask),
{
}

/// A list of offsets in which none repeats.
pub open spec fn distinct_offsets(offsets: Seq<usize>) -> bool {
    forall|i: int, j: int| 0 <= i < j < offsets.len() ==> #[trigger] offsets[i] != #[trigger] offsets[j]
}

/// Adding masks repeats no offset, drops none and adds exactly the embedded ones.
pub proof fn added_offsets_are_exact(offsets: Seq<usize>, tags: Seq<u16>, x: usize)
    ensures
        distinct_offsets(offsets) ==> distinct_offsets(with_offsets(offsets, tags)),
        with_offsets(offsets, tags).contains(x) <==> offsets.contains(x) || exists|i: int|
            0 <= i < tags.len() && (#[trigger] tags[i]) != TAG_IN_FRONT && tags[i] == x,
        offsets.is_prefix_of(with_offsets(offsets, tags)),
    decreases tags.len(),
{
    if tags.len() > 0 {
        let rest = tags.drop_last();
        added_offsets_are_exact(offsets, rest, x);
        let before = with_offsets(offsets, rest);
        let after = with_offsets(offsets, tags);
        let t = tags.last();
        if after != before {
            assert(after == before.push(t as usize));
            if before.contains(x) {
                let k = choose|k: int| 0 <= k < before.len() && before[k] == x;
                assert(after[k] == x);
            }
            if x == t as usize {
                assert(after[before.len() as int] == x);
            }
        }
        if exists|i: int| 0 <= i < rest.len() && (#[trigger] rest[i]) != TAG_IN_FRONT && rest[i] == x {
            let i = choose|i: int|
                0 <= i < rest.len() && (#[trigger] rest[i]) != TAG_IN_FRONT && rest[i] == x;
            assert(tags[i] == x);
        }
        if exists|i: int| 0 <= i < tags.len() && (#[trigger] tags[i]) != TAG_IN_FRONT && tags[i] == x {
            let i = choose|i: int|
                0 <= i < tags.len() && (#[trigger] tags[i]) != TAG_IN_FRONT && tags[i] == x;
            if i < rest.len() {
                assert(rest[i] == x);
            }
        }
        if after.contains(x) && !before.contains(x) {
            let k = choose|k: int| 0 <= k < after.len() && after[k] == x;
            assert(k == before.len());
            assert(tags[tags.len() - 1] == x);
        }
    }
}

/// The front of a packet is always looked at for a tag.
pub proof fn front_is_always_tried(tags: Seq<u16>)
    ensures
        with_offsets(seq![0usize], tags).contains(0usize),
        distinct_offsets(with_offsets(seq![0usize], tags)),
{
    added_offsets_are_exact(seq![0usize], tags, 0usize);
    assert(seq![0usize][0] == 0usize);
}

/// A mask's header is as long as its description makes it at least, or as its template where
/// there is no description; the handshake header is that or reaches to the end of the key,
/// whichever is longer, and no longer than that.
pub proof fn headers_are_as_long_as_they_must_be(mask: MaskView)
    ensures
        mask.header_min_length matches Some(n) ==> packet_header_len(mask) == n,
        mask.header_min_length is None ==> packet_header_len(mask) == mask.header_template.len(),
        handshake_header_len(mask) >= packet_header_len(mask),
        handshake_header_len(mask) >= mask.eph_pub_offset + mask.eph_pub_length,
        handshake_header_len(mask) == packet_header_len(mask) || handshake_header_len(mask)
            == mask.eph_pub_offset + mask.eph_pub_length,
{
}

/// A tag that stands in front of the header takes eight bytes there; one inside the header takes
/// none, and stands at its offset.
pub proof fn tag_stands_in_front_or_inside(tag_offset: u16)
    ensures
        tag_offset == 65535 ==> front_len(tag_offset) == 8 && tag_start(tag_offset) == 0,
        tag_offset != 65535 ==> front_len(tag_offset) == 0 && tag_start(tag_offset) == tag_offset,
{
}

/// A tag is the eight bytes from its offset on, where the packet has as many.
pub proof fn tag_is_eight_bytes(packet: Seq<u8>, offset: int, i: int)
    requires
        0 <= offset,
        0 <= i < 8,
    ensures
        packet.len() < offset + 8 <==> tag_at(packet, offset) is None,
        tag_at(packet, offset) matches Some(tag) ==> tag.len() == 8 && tag[i] == packet[offset + i],
{
}

/// A packet's tags are read at each offset in turn, at those where it has eight bytes, and
/// nowhere else.
pub proof fn tags_are_read_at_each_offset(packet: Seq<u8>, offsets: Seq<usize>, offset: usize)
    ensures
        tags_at(packet, seq![]).len() == 0,
        offset + 8 <= packet.len() ==> tags_at(packet, offsets.push(offset)) == tags_at(
            packet,
            offsets,
        ).push(packet.subrange(offset as int, offset + 8)),
        offset + 8 > packet.len() ==> tags_at(packet, offsets.push(offset)) == tags_at(
            packet,
            offsets,
        ),
{
    assert(offsets.push(offset).drop_last() =~= offsets);
}

/// What an IPv4 packet carries begins behind its UDP header, or behind its TCP header, whose
/// length that header tells; its first sixteen bytes are looked at, or all where there are
/// fewer. A packet of another kind, or one that is cut off, shows nothing.
pub proof fn payload_begins_behind_the_headers(ip: Seq<u8>)
    ensures
        ({
            let ihl = (ip[0] % 16) * 4;
            let whole = ip.len() >= 20 && 64 <= ip[0] <= 79 && ihl >= 20 && ip.len() >= ihl;
            let udp_at = ihl + 8;
            let tcp_at = ihl + (ip[ihl + 12] / 16) * 4;
            let tcp = ip[9] == 6 && ip.len() >= ihl + 13;
            &&& !whole ==> l7_prefix(ip).len() == 0
            &&& whole && ip[9] != 17 && !tcp ==> l7_prefix(ip).len() == 0
            &&& whole && ip[9] == 17 && udp_at + 16 <= ip.len() ==> l7_prefix(ip) == ip.subrange(
                udp_at,
                udp_at + 16,
            )
            &&& whole && ip[9] == 17 && udp_at <= ip.len() < udp_at + 16 ==> l7_prefix(ip)
                == ip.subrange(udp_at, ip.len() as int)
            &&& whole && ip[9] == 17 && ip.len() < udp_at ==> l7_prefix(ip).len() == 0
            &&& whole && tcp && tcp_at + 16 <= ip.len() ==> l7_prefix(ip) == ip.subrange(
                tcp_at,
                tcp_at + 16,
            )
            &&& whole && tcp && tcp_at <= ip.len() < tcp_at + 16 ==> l7_prefix(ip) == ip.subrange(
                tcp_at,
                ip.len() as int,
            )
            &&& whole && tcp && ip.len() < tcp_at ==> l7_prefix(ip).len() == 0
        }),
{
    if let Some(start) = l7_start(ip) {
        if 0 <= start <= ip.len() <= start + 16 {
            assert(ip.skip(start) =~= ip.subrange(start, ip.len() as int));
        }
    }
}

/// A tag's offset is looked at once, however many masks share it; a tag in front adds none.
pub proof fn offset_is_added_once(offsets: Seq<usize>, tag_offset: u16)
    ensures
        tag_offset == 65535 ==> with_offset(offsets, tag_offset) == offsets,
        offsets.contains(tag_offset as usize) ==> with_offset(offsets, tag_offset) == offsets,
        tag_offset != 65535 && !offsets.contains(tag_offset as usize) ==> with_offset(
            offsets,
            tag_offset,
        ) == offsets.push(tag_offset as usize),
{
}

} // verus!
