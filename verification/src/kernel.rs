//! What is handed to the kernel's fast path, and what it may use without asking.

use crate::bytes::{le_value, le_value_fits, le_word};
use crate::peer::PeerAddr;
use vstd::prelude::*;

verus! {

/// Counters reserved for the kernel at one time.
pub const KERNEL_DOWNLINK_BLOCK: u32 = 128;

/// Most tags handed to the kernel at one time.
pub const KERNEL_TAG_LIMIT: usize = 256;

/// What the kernel needs to know of a session.
pub struct KernelSession {
    pub session_id: [u8; 16],
    pub session_key: [u8; 32],
    pub session_key_s2c: [u8; 32],
    pub tag_secret: [u8; 32],
    pub counter: u64,
    pub vpn_ip: Option<[u8; 4]>,
    pub client_addr: PeerAddr,
}

/// A session as the kernel takes it.
pub struct SessionAdd {
    pub session_id: [u8; 16],
    pub session_key: [u8; 32],
    pub session_key_s2c: [u8; 32],
    pub tag_secret: [u8; 32],
    pub nonce_suffix: [u8; 4],
    pub tag_offset: u16,
    pub mdh_len: u16,
    pub counter_base: u64,
    pub client_ip: [u8; 4],
    pub client_addr: [u8; 28],
    pub window_ms: u64,
}

/// The bytes of a socket address: family, port, address, and zeros up to 28 bytes.
pub open spec fn socket_address(addr: PeerAddr, family: Seq<u8>) -> Seq<u8> {
    match addr {
        PeerAddr::V4 { ip, port } => family + seq![(port / 256) as u8, (port % 256) as u8]
            + ip@ + Seq::new(20, |i: int| 0u8),
        PeerAddr::V6 { ip6, port } => family + seq![(port / 256) as u8, (port % 256) as u8]
            + Seq::new(4, |i: int| 0u8) + ip6@ + Seq::new(4, |i: int| 0u8),
    }
}

/// The bytes of a socket address, with the address family as the machine writes it.
pub fn socket_address_bytes(addr: &PeerAddr, family: [u8; 2]) -> (bytes: [u8; 28])
    ensures
        bytes@ == socket_address(*addr, family@),
{
    let mut bytes: [u8; 28] = [0u8; 28];
    bytes[0] = family[0];
    bytes[1] = family[1];
    match addr {
        PeerAddr::V4 { ip, port } => {
            bytes[2] = (*port / 256) as u8;
            bytes[3] = (*port % 256) as u8;
            bytes[4] = ip[0];
            bytes[5] = ip[1];
            bytes[6] = ip[2];
            bytes[7] = ip[3];
        },
        PeerAddr::V6 { ip6, port } => {
            bytes[2] = (*port / 256) as u8;
            bytes[3] = (*port % 256) as u8;
            let mut i: usize = 0;
            while i < 16
                invariant
                    i <= 16,
                    bytes@[0] == family@[0] && bytes@[1] == family@[1],
                    bytes@[2] == (*port / 256) as u8 && bytes@[3] == (*port % 256) as u8,
                    forall|k: int| 4 <= k < 8 ==> bytes@[k] == 0,
                    forall|k: int| 8 <= k < 8 + i ==> bytes@[k] == ip6@[k - 8],
                    forall|k: int| 8 + i <= k < 28 ==> bytes@[k] == 0,
                decreases 16 - i,
            {
                bytes[8 + i] = ip6[i];
                i += 1;
            }
        },
    }
    assert(bytes@ =~= socket_address(*addr, family@));
    bytes
}

/// `add` is a session as the kernel takes it.
pub open spec fn is_session_add(
    add: SessionAdd,
    sess: KernelSession,
    tag_offset: u16,
    mdh_len: u16,
    family: Seq<u8>,
    window_ms: u64,
) -> bool {
    &&& add.session_id == sess.session_id
    &&& add.session_key == sess.session_key
    &&& add.session_key_s2c == sess.session_key_s2c
    &&& add.tag_secret == sess.tag_secret
    &&& add.nonce_suffix@ == Seq::new(4, |i: int| 0u8)
    &&& add.tag_offset == tag_offset
    &&& add.mdh_len == mdh_len
    &&& add.counter_base == sess.counter
    &&& add.client_ip@ == (match sess.vpn_ip {
        Some(ip) => ip@,
        None => Seq::new(4, |i: int| 0u8),
    })
    &&& add.client_addr@ == socket_address(sess.client_addr, family)
    &&& add.window_ms == window_ms
}

/// A session as the kernel takes it. A client without an address inside the tunnel has the
/// address zero.
pub fn make_kernel_session_add(
    sess: &KernelSession,
    tag_offset: u16,
    mdh_len: u16,
    family: [u8; 2],
    window_ms: u64,
) -> (add: SessionAdd)
    ensures
        is_session_add(add, *sess, tag_offset, mdh_len, family@, window_ms),
{
    let zero: [u8; 4] = [0u8; 4];
    assert(zero@ =~= Seq::new(4, |i: int| 0u8));
    SessionAdd {
        session_id: sess.session_id,
        session_key: sess.session_key,
        session_key_s2c: sess.session_key_s2c,
        tag_secret: sess.tag_secret,
        nonce_suffix: zero,
        tag_offset,
        mdh_len,
        counter_base: sess.counter,
        client_ip: match sess.vpn_ip {
            Some(ip) => ip,
            None => zero,
        },
        client_addr: socket_address_bytes(&sess.client_addr, family),
        window_ms,
    }
}

/// The signature of a session with a key and a layout.
pub open spec fn sig_of(session_key: Seq<u8>, tag_offset: u16, mdh_len: u16) -> u64 {
    (le_value(session_key.take(8)) as u64) ^ ((tag_offset as u64) << 48u64) ^ ((mdh_len as u64)
        << 32u64)
}

/// A number that changes whenever the kernel's copy of a session's key or layout is out of
/// date: the first eight key bytes combined with tag offset and header length.
pub fn kernel_session_sig(session_key: &[u8; 32], tag_offset: u16, mdh_len: u16) -> (sig: u64)
    ensures
        sig == sig_of(session_key@, tag_offset, mdh_len),
{
    le_word(session_key.as_slice()) ^ ((tag_offset as u64) << 48u64) ^ ((mdh_len as u64) << 32u64)
}

/// With the key unchanged, two layouts have one signature only where they are the same.
pub proof fn signature_tells_layouts_apart(session_key: Seq<u8>, t1: u16, m1: u16, t2: u16, m2: u16)
    requires
        sig_of(session_key, t1, m1) == sig_of(session_key, t2, m2),
    ensures
        t1 == t2 && m1 == m2,
{
    let key = le_value(session_key.take(8)) as u64;
    assert(t1 == t2 && m1 == m2) by (bit_vector)
        requires
            (key ^ ((t1 as u64) << 48u64) ^ ((m1 as u64) << 32u64)) == (key ^ ((t2 as u64)
                << 48u64) ^ ((m2 as u64) << 32u64)),
    ;
}

/// How far a session has counted its packets to the client.
#[derive(Clone, Copy, PartialEq, Eq, Structural)]
pub struct SendState {
    pub send_counter: u64,
    pub send_seq: u32,
    pub kernel_window: u64,
}

/// Counters that the kernel may use.
#[derive(Clone, Copy, PartialEq, Eq, Structural)]
pub struct DownlinkBlock {
    pub base: u64,
    pub count: u32,
    pub seq_base: u16,
}

/// Whether the kernel gets counters: its fast path is on, and the header fits.
pub open spec fn kernel_sends(armed: bool, header_len: Option<usize>, max_header: usize) -> bool {
    armed && header_len is Some && 0 < header_len->0 <= max_header
}

/// A session's counting after it has set a block aside.
pub open spec fn after_block(s: SendState, window: u64) -> SendState {
    SendState {
        send_counter: (s.send_counter + KERNEL_DOWNLINK_BLOCK) as u64,
        send_seq: (if s.send_seq + KERNEL_DOWNLINK_BLOCK > u32::MAX {
            s.send_seq + KERNEL_DOWNLINK_BLOCK - u32::MAX - 1
        } else {
            s.send_seq + KERNEL_DOWNLINK_BLOCK
        }) as u32,
        kernel_window: window,
    }
}

/// The time window of the kernel's tags is over.
pub open spec fn is_window_over(s: SendState, now_window: u64) -> bool {
    s.kernel_window != 0 && s.kernel_window != now_window
}

impl SendState {
    /// Sets the next counters aside for the kernel. `None` where it gets none.
    pub fn make_kernel_downlink(
        &mut self,
        armed: bool,
        header_len: Option<usize>,
        max_header: usize,
        window: u64,
    ) -> (block: Option<DownlinkBlock>)
        requires
            kernel_sends(armed, header_len, max_header) ==> old(self).send_counter
                + KERNEL_DOWNLINK_BLOCK <= u64::MAX,
        ensures
            block is Some <==> kernel_sends(armed, header_len, max_header),
            block is Some ==> block->0 == (DownlinkBlock {
                base: old(self).send_counter,
                count: KERNEL_DOWNLINK_BLOCK,
                seq_base: old(self).send_seq as u16,
            }) && *final(self) == after_block(*old(self), window),
            block is None ==> *final(self) == *old(self),
    {
        if !armed {
            return None;
        }
        match header_len {
            Some(len) => {
                if len == 0 || len > max_header {
                    return None;
                }
            },
            None => {
                return None;
            },
        }
        let block: DownlinkBlock = DownlinkBlock {
            base: self.send_counter,
            count: KERNEL_DOWNLINK_BLOCK,
            seq_base: self.send_seq as u16,
        };
        self.send_counter = self.send_counter + KERNEL_DOWNLINK_BLOCK as u64;
        self.send_seq = self.send_seq.wrapping_add(KERNEL_DOWNLINK_BLOCK);
        self.kernel_window = window;
        Some(block)
    }

    /// Whether the kernel's tags belong to a time window that is over.
    pub fn kernel_window_over(&self, now_window: u64) -> (r: bool)
        ensures
            r == is_window_over(*self, now_window),
    {
        self.kernel_window != 0 && self.kernel_window != now_window
    }
}

/// A counter given to the kernel is never used again: every counter taken after a block was
/// set aside, by the kernel or by the server, lies beyond the block.
pub proof fn kernel_counters_are_never_reused(s: SendState, window: u64, counter: int, later: int)
    requires
        s.send_counter + KERNEL_DOWNLINK_BLOCK <= u64::MAX,
        s.send_counter <= counter < s.send_counter + KERNEL_DOWNLINK_BLOCK,
        later >= after_block(s, window).send_counter,
    ensures
        counter < later,
{
}

/// A tag and the counter it belongs to.
#[derive(Clone, Copy)]
pub struct TagEntry {
    pub tag: [u8; 8],
    pub counter: u64,
}

/// The first [`KERNEL_TAG_LIMIT`] of the expected tags.
pub open spec fn first_tags(expected: Seq<TagEntry>) -> Seq<TagEntry> {
    expected.take(
        if expected.len() < KERNEL_TAG_LIMIT {
            expected.len() as int
        } else {
            KERNEL_TAG_LIMIT as int
        },
    )
}

/// The tags to hand to the kernel: the first [`KERNEL_TAG_LIMIT`] of those expected.
pub fn make_kernel_update_tags(expected: &Vec<TagEntry>) -> (tags: Vec<TagEntry>)
    ensures
        tags@ == first_tags(expected@),
{
    let mut tags: Vec<TagEntry> = Vec::new();
    let mut i: usize = 0;
    while i < expected.len() && i < KERNEL_TAG_LIMIT
        invariant
            i <= expected.len(),
            i <= KERNEL_TAG_LIMIT,
            tags@ == expected@.take(i as int),
        decreases expected.len() - i,
    {
        tags.push(expected[i]);
        assert(tags@ =~= expected@.take(i + 1));
        i += 1;
    }
    tags
}

/// What is done about the kernel's copy of a session.
#[derive(Clone, Copy, PartialEq, Eq, Structural)]
pub struct KernelUpkeep {
    /// The session is handed over anew.
    pub reinstall: bool,
    /// The tags that are expected next are handed over.
    pub update_tags: bool,
    /// The next counters are set aside.
    pub rearm: bool,
}

/// What a packet leads to in the kernel: when the tags are computed anew they are handed over
/// with fresh counters, and the session with them where the kernel's copy is out of date. When
/// the time window of the kernel's tags is over it gets fresh counters in any case.
pub fn kernel_upkeep(refresh: bool, installed_sig: u64, sig: u64, window_over: bool) -> (upkeep:
    KernelUpkeep)
    ensures
        upkeep.reinstall == (refresh && installed_sig != sig),
        upkeep.update_tags == refresh,
        upkeep.rearm == (refresh || window_over),
{
    KernelUpkeep {
        reinstall: refresh && installed_sig != sig,
        update_tags: refresh,
        rearm: refresh || window_over,
    }
}

/// What the kernel's copy of a session is made from.
pub struct KernelInputs {
    pub session: KernelSession,
    pub expected: Vec<TagEntry>,
    /// The signature of the copy that the kernel has; zero where it has none.
    pub installed_sig: u64,
    pub state: SendState,
    /// The kernel's fast path to clients is on.
    pub armed: bool,
    /// The length of the session's header, where it has a mask.
    pub header_len: Option<usize>,
    pub max_header: usize,
    /// The time window that tags are computed for now.
    pub now_window: u64,
    pub tag_offset: u16,
    pub mdh_len: u16,
    pub family: [u8; 2],
    pub window_ms: u64,
}

/// What is handed to the kernel.
pub struct KernelWork {
    pub add: Option<SessionAdd>,
    pub tags: Option<Vec<TagEntry>>,
    pub block: Option<DownlinkBlock>,
    /// The signature of the session as it stands.
    pub sig: u64,
}

/// `work` does what `upkeep` says for the session of `before`, which counts on as `after` says.
pub open spec fn is_work(
    work: KernelWork,
    upkeep: KernelUpkeep,
    before: KernelInputs,
    after: KernelInputs,
) -> bool {
    &&& work.sig == sig_of(before.session.session_key@, before.tag_offset, before.mdh_len)
    &&& work.add is Some <==> upkeep.reinstall
    &&& work.add is Some ==> is_session_add(
        work.add->0,
        before.session,
        before.tag_offset,
        before.mdh_len,
        before.family@,
        before.window_ms,
    )
    &&& work.tags is Some <==> upkeep.update_tags
    &&& work.tags is Some ==> work.tags->0@ == first_tags(before.expected@)
    &&& work.block is Some <==> upkeep.rearm && kernel_sends(
        before.armed,
        before.header_len,
        before.max_header,
    )
    &&& work.block is Some ==> work.block->0 == (DownlinkBlock {
        base: before.state.send_counter,
        count: KERNEL_DOWNLINK_BLOCK,
        seq_base: before.state.send_seq as u16,
    })
    &&& after.state == (if work.block is Some {
        after_block(before.state, before.now_window)
    } else {
        before.state
    })
    &&& after == (KernelInputs { state: after.state, ..before })
}

impl KernelInputs {
    /// There are counters left to set aside, where any would be.
    pub open spec fn has_counters(self) -> bool {
        kernel_sends(self.armed, self.header_len, self.max_header) ==> self.state.send_counter
            + KERNEL_DOWNLINK_BLOCK <= u64::MAX
    }

    fn work(&mut self, upkeep: KernelUpkeep, sig: u64) -> (work: KernelWork)
        requires
            upkeep.rearm ==> old(self).has_counters(),
            sig == sig_of(
                old(self).session.session_key@,
                old(self).tag_offset,
                old(self).mdh_len,
            ),
        ensures
            is_work(work, upkeep, *old(self), *final(self)),
    {
        let add: Option<SessionAdd> = if upkeep.reinstall {
            Some(
                make_kernel_session_add(
                    &self.session,
                    self.tag_offset,
                    self.mdh_len,
                    self.family,
                    self.window_ms,
                ),
            )
        } else {
            None
        };
        let tags: Option<Vec<TagEntry>> = if upkeep.update_tags {
            Some(make_kernel_update_tags(&self.expected))
        } else {
            None
        };
        let block: Option<DownlinkBlock> = if upkeep.rearm {
            self.state.make_kernel_downlink(
                self.armed,
                self.header_len,
                self.max_header,
                self.now_window,
            )
        } else {
            None
        };
        KernelWork { add, tags, block, sig }
    }

    /// What the kernel is handed once a session's keys are settled: all of it.
    pub fn install(&mut self) -> (work: KernelWork)
        requires
            old(self).has_counters(),
        ensures
            is_work(
                work,
                KernelUpkeep { reinstall: true, update_tags: true, rearm: true },
                *old(self),
                *final(self),
            ),
    {
        let sig: u64 = kernel_session_sig(
            &self.session.session_key,
            self.tag_offset,
            self.mdh_len,
        );
        self.work(KernelUpkeep { reinstall: true, update_tags: true, rearm: true }, sig)
    }

    /// What the kernel is handed after a packet, which may have had the tags computed anew.
    pub fn keep_up(&mut self, refresh: bool) -> (work: KernelWork)
        requires
            refresh || is_window_over(old(self).state, old(self).now_window) ==> old(
                self,
            ).has_counters(),
        ensures
            ({
                let sig = sig_of(
                    old(self).session.session_key@,
                    old(self).tag_offset,
                    old(self).mdh_len,
                );
                is_work(
                    work,
                    KernelUpkeep {
                        reinstall: refresh && old(self).installed_sig != sig,
                        update_tags: refresh,
                        rearm: refresh || is_window_over(old(self).state, old(self).now_window),
                    },
                    *old(self),
                    *final(self),
                )
            }),
    {
        let sig: u64 = kernel_session_sig(
            &self.session.session_key,
            self.tag_offset,
            self.mdh_len,
        );
        let window_over: bool = self.state.kernel_window_over(self.now_window);
        let upkeep: KernelUpkeep = kernel_upkeep(refresh, self.installed_sig, sig, window_over);
        self.work(upkeep, sig)
    }
}

/// The signature of the kernel's copy once the work was done: that of the session where it was
/// handed over and taken, else what it was.
pub fn sig_after(installed_sig: u64, work: &KernelWork, taken: bool) -> (sig: u64)
    ensures
        sig == (if work.add is Some && taken {
            work.sig
        } else {
            installed_sig
        }),
{
    if work.add.is_some() && taken {
        work.sig
    } else {
        installed_sig
    }
}

/// A copy that the kernel took is not handed over again while the session's key and layout
/// stay, however often its tags are computed anew.
pub proof fn current_copy_is_left_alone(
    later: KernelWork,
    refresh: bool,
    installed: KernelInputs,
    after: KernelInputs,
)
    requires
        installed.installed_sig == sig_of(
            installed.session.session_key@,
            installed.tag_offset,
            installed.mdh_len,
        ),
        is_work(
            later,
            KernelUpkeep {
                reinstall: refresh && installed.installed_sig != later.sig,
                update_tags: refresh,
                rearm: refresh || is_window_over(installed.state, installed.now_window),
            },
            installed,
            after,
        ),
    ensures
        later.add is None,
{
}

/// After the kernel got fresh counters its tags belong to the window that is current, so no
/// further packet of that window sets counters aside on that account.
pub proof fn window_is_over_once(s: SendState, now_window: u64)
    ensures
        !is_window_over(after_block(s, now_window), now_window),
{
}

/// A socket address for the kernel is 28 bytes: its family, its port high byte first, and its
/// address, in the place that its kind gives it, among zeros.
pub proof fn kernel_address_is_laid_out_by_kind(
    ip: [u8; 4],
    ip6: [u8; 16],
    port: u16,
    family: Seq<u8>,
    i: int,
)
    requires
        family.len() == 2,
        0 <= i < 28,
    ensures
        ({
            let v4 = socket_address(PeerAddr::V4 { ip, port }, family);
            let v6 = socket_address(PeerAddr::V6 { ip6, port }, family);
            &&& v4.len() == 28 && v6.len() == 28
            &&& i < 2 ==> v4[i] == family[i] && v6[i] == family[i]
            &&& v4[2] * 256 + v4[3] == port && v6[2] * 256 + v6[3] == port
            &&& 4 <= i < 8 ==> v4[i] == ip@[i - 4] && v6[i] == 0
            &&& 8 <= i < 24 ==> v4[i] == 0 && v6[i] == ip6@[i - 8]
            &&& 24 <= i ==> v4[i] == 0 && v6[i] == 0
        }),
{
}

/// The kernel gets counters exactly where it is to send packets and the session's header is
/// there and fits; 128 of them, from where the session has counted to, and the session goes on
/// behind them.
pub proof fn kernel_gets_the_next_counters(
    armed: bool,
    header_len: usize,
    max_header: usize,
    s: SendState,
    window: u64,
)
    requires
        s.send_counter + 128 <= u64::MAX,
    ensures
        !kernel_sends(armed, None, max_header),
        kernel_sends(armed, Some(header_len), max_header) <==> armed && header_len >= 1
            && header_len <= max_header,
        after_block(s, window).send_counter == s.send_counter + 128,
        after_block(s, window).send_seq == (s.send_seq + 128) % 0x1_0000_0000,
        after_block(s, window).kernel_window == window,
        is_window_over(s, window) <==> s.kernel_window != 0 && s.kernel_window != window,
{
}

/// The kernel is told of the first 256 tags that are expected, in their order.
pub proof fn kernel_is_told_of_the_first_tags(expected: Seq<TagEntry>, i: int)
    ensures
        expected.len() <= 256 ==> first_tags(expected) == expected,
        expected.len() > 256 ==> first_tags(expected).len() == 256,
        0 <= i < expected.len() && i < 256 ==> first_tags(expected)[i] == expected[i],
{
    if expected.len() <= 256 {
        assert(first_tags(expected) =~= expected);
    }
}

/// With the layout unchanged, two keys have one signature only where they begin with the same
/// eight bytes.
pub proof fn signature_tells_keys_apart(k1: Seq<u8>, k2: Seq<u8>, tag_offset: u16, mdh_len: u16)
    requires
        k1.len() == 32,
        k2.len() == 32,
        sig_of(k1, tag_offset, mdh_len) == sig_of(k2, tag_offset, mdh_len),
    ensures
        le_value(k1.take(8)) == le_value(k2.take(8)),
{
    let a = le_value(k1.take(8)) as u64;
    let b = le_value(k2.take(8)) as u64;
    let t = tag_offset as u64;
    let m = mdh_len as u64;
    assert(a == b) by (bit_vector)
        requires
            (a ^ (t << 48u64) ^ (m << 32u64)) == (b ^ (t << 48u64) ^ (m << 32u64)),
    ;
    le_value_fits(k1.take(8));
    le_value_fits(k2.take(8));
    vstd::arithmetic::power2::lemma2_to64();
}

/// What is handed to the kernel is the session itself: its keys, its counter, the layout of its
/// packets, and the client's address inside the tunnel, or zeros where it has none.
pub proof fn kernel_copy_is_the_session(
    work: KernelWork,
    upkeep: KernelUpkeep,
    before: KernelInputs,
    after: KernelInputs,
)
    requires
        is_work(work, upkeep, before, after),
    ensures
        upkeep.reinstall == (work.add is Some),
        upkeep.update_tags == (work.tags is Some),
        work.block is Some ==> upkeep.rearm && before.armed,
        work.add matches Some(add) ==> {
            &&& add.session_id == before.session.session_id
            &&& add.session_key == before.session.session_key
            &&& add.session_key_s2c == before.session.session_key_s2c
            &&& add.tag_secret == before.session.tag_secret
            &&& add.counter_base == before.session.counter
            &&& add.tag_offset == before.tag_offset && add.mdh_len == before.mdh_len
            &&& add.window_ms == before.window_ms
            &&& before.session.vpn_ip matches Some(ip) ==> add.client_ip@ == ip@
            &&& before.session.vpn_ip is None ==> forall|i: int|
                0 <= i < 4 ==> #[trigger] add.client_ip@[i] == 0
        },
        work.block matches Some(block) ==> {
            &&& block.base == before.state.send_counter
            &&& block.count == 128
            &&& block.seq_base == before.state.send_seq as u16
            &&& after.state.kernel_window == before.now_window
        },
        work.block is None ==> after.state == before.state,
        after.session == before.session && after.installed_sig == before.installed_sig,
{
}

} // verus!
