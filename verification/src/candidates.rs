//! Whose handshake an unknown packet may be, and under which masks, in the order of trying.

use crate::bootstrap::masks_view;
use crate::ingress::{client_may_connect, may_connect};
use crate::layout::{MaskProfile, MaskView};
use vstd::prelude::*;

verus! {

/// A registered client, and the masks that the bootstrap descriptors on offer give it.
pub struct HandshakeClient {
    pub enabled: bool,
    pub expires_at: Option<i64>,
    pub descriptor_masks: Vec<MaskProfile>,
}

/// The view of [`HandshakeClient`].
pub struct HandshakeClientView {
    pub enabled: bool,
    pub expires_at: Option<i64>,
    pub descriptor_masks: Seq<MaskView>,
}

impl View for HandshakeClient {
    type V = HandshakeClientView;

    open spec fn view(&self) -> HandshakeClientView {
        HandshakeClientView {
            enabled: self.enabled,
            expires_at: self.expires_at,
            descriptor_masks: masks_view(self.descriptor_masks@),
        }
    }
}

/// The views of a list of clients.
pub open spec fn clients_view(clients: Seq<HandshakeClient>) -> Seq<HandshakeClientView> {
    clients.map_values(|c: HandshakeClient| c@)
}

/// A mask to try, and the place of the client whose handshake it would be; no client where
/// none are registered.
pub struct HandshakeTry {
    pub client: Option<usize>,
    pub mask: MaskProfile,
}

impl View for HandshakeTry {
    type V = (Option<usize>, MaskView);

    open spec fn view(&self) -> (Option<usize>, MaskView) {
        (self.client, self.mask@)
    }
}

/// The views of a list of tries.
pub open spec fn tries_view(tries: Seq<HandshakeTry>) -> Seq<(Option<usize>, MaskView)> {
    tries.map_values(|t: HandshakeTry| t@)
}

/// Each mask of a list in turn, for one client.
pub open spec fn tries_for(client: Option<usize>, masks: Seq<MaskView>) -> Seq<
    (Option<usize>, MaskView),
> {
    masks.map_values(|m: MaskView| (client, m))
}

/// The tries for the first `n` clients: each that may connect in turn, its descriptor masks
/// first and then the built-in ones.
pub open spec fn tries_of(
    clients: Seq<HandshakeClientView>,
    presets: Seq<MaskView>,
    n: int,
    now: i64,
) -> Seq<(Option<usize>, MaskView)>
    decreases n,
{
    if n <= 0 {
        seq![]
    } else {
        let c = clients[n - 1];
        let before = tries_of(clients, presets, n - 1, now);
        if may_connect(c.enabled, c.expires_at, now) {
            before + tries_for(Some((n - 1) as usize), c.descriptor_masks + presets)
        } else {
            before
        }
    }
}

fn push_tries(out: &mut Vec<HandshakeTry>, client: Option<usize>, masks: &Vec<MaskProfile>)
    ensures
        tries_view(final(out)@) == tries_view(old(out)@) + tries_for(client, masks_view(masks@)),
{
    let ghost before = tries_view(out@);
    let ghost all = masks_view(masks@);
    let mut i: usize = 0;
    assert(tries_view(out@) =~= before + tries_for(client, all.take(0)));
    while i < masks.len()
        invariant
            i <= masks.len(),
            all == masks_view(masks@),
            tries_view(out@) == before + tries_for(client, all.take(i as int)),
        decreases masks.len() - i,
    {
        let ghost here = tries_view(out@);
        out.push(HandshakeTry { client, mask: masks[i].copy() });
        proof {
            assert(all[i as int] == masks@[i as int]@);
            assert(tries_view(out@) =~= here.push((client, all[i as int])));
            assert(tries_for(client, all.take(i + 1)) =~= tries_for(client, all.take(i as int)).push(
                (client, all[i as int]),
            ));
            assert(tries_view(out@) =~= before + tries_for(client, all.take(i + 1)));
        }
        i += 1;
    }
    assert(all.take(all.len() as int) =~= all);
}

proof fn lemma_tries_for_both(client: Option<usize>, a: Seq<MaskView>, b: Seq<MaskView>)
    ensures
        tries_for(client, a + b) == tries_for(client, a) + tries_for(client, b),
{
    assert(tries_for(client, a + b) =~= tries_for(client, a) + tries_for(client, b));
}

/// What an unknown packet is tried as, in turn. Where there is a registry (`Some`) it is tried
/// for its clients. Without one it is tried once, for nobody in particular, with the masks that
/// the descriptors give anyone first and then the built-in ones.
pub open spec fn candidates_of(
    clients: Option<Seq<HandshakeClientView>>,
    descriptor_masks: Seq<MaskView>,
    presets: Seq<MaskView>,
    now: i64,
) -> Seq<(Option<usize>, MaskView)> {
    match clients {
        Some(registered) => tries_of(registered, presets, registered.len() as int, now),
        None => tries_for(None, descriptor_masks + presets),
    }
}

fn registered_candidates(
    clients: &Vec<HandshakeClient>,
    presets: &Vec<MaskProfile>,
    now: i64,
) -> (tries: Vec<HandshakeTry>)
    ensures
        tries_view(tries@) == tries_of(
            clients_view(clients@),
            masks_view(presets@),
            clients@.len() as int,
            now,
        ),
{
    let ghost all = clients_view(clients@);
    let ghost built_in = masks_view(presets@);
    let mut tries: Vec<HandshakeTry> = Vec::new();
    let mut i: usize = 0;
    assert(tries_view(tries@) =~= tries_of(all, built_in, 0, now));
    while i < clients.len()
        invariant
            i <= clients.len(),
            all == clients_view(clients@),
            built_in == masks_view(presets@),
            tries_view(tries@) == tries_of(all, built_in, i as int, now),
        decreases clients.len() - i,
    {
        let c: &HandshakeClient = &clients[i];
        assert(all[i as int] == c@);
        if client_may_connect(c.enabled, c.expires_at, now) {
            let ghost before = tries_view(tries@);
            push_tries(&mut tries, Some(i), &c.descriptor_masks);
            push_tries(&mut tries, Some(i), presets);
            proof {
                let own = masks_view(c.descriptor_masks@);
                lemma_tries_for_both(Some(i), own, built_in);
                assert(tries_view(tries@) =~= before + tries_for(Some(i), own + built_in));
            }
        }
        i += 1;
    }
    tries
}

fn anonymous_candidates(
    descriptor_masks: &Vec<MaskProfile>,
    presets: &Vec<MaskProfile>,
) -> (tries: Vec<HandshakeTry>)
    ensures
        tries_view(tries@) == tries_for(
            None,
            masks_view(descriptor_masks@) + masks_view(presets@),
        ),
{
    let mut tries: Vec<HandshakeTry> = Vec::new();
    push_tries(&mut tries, None, descriptor_masks);
    push_tries(&mut tries, None, presets);
    proof {
        lemma_tries_for_both(None, masks_view(descriptor_masks@), masks_view(presets@));
        assert(tries_view(tries@) =~= tries_for(
            None,
            masks_view(descriptor_masks@) + masks_view(presets@),
        ));
    }
    tries
}

/// What an unknown packet is tried as the handshake of, in the order of trying.
pub fn handshake_candidates(
    clients: &Option<Vec<HandshakeClient>>,
    descriptor_masks: &Vec<MaskProfile>,
    presets: &Vec<MaskProfile>,
    now: i64,
) -> (tries: Vec<HandshakeTry>)
    ensures
        tries_view(tries@) == candidates_of(
            match *clients {
                Some(registered) => Some(clients_view(registered@)),
                None => None,
            },
            masks_view(descriptor_masks@),
            masks_view(presets@),
            now,
        ),
{
    match clients {
        Some(registered) => registered_candidates(registered, presets, now),
        None => anonymous_candidates(descriptor_masks, presets),
    }
}

proof fn lemma_tries_for_contains(client: Option<usize>, masks: Seq<MaskView>, i: usize, m: MaskView)
    ensures
        tries_for(client, masks).contains((Some(i), m)) <==> client == Some(i) && masks.contains(m),
{
    let tries = tries_for(client, masks);
    if tries.contains((Some(i), m)) {
        let k = choose|k: int| 0 <= k < tries.len() && tries[k] == (Some(i), m);
        assert(masks[k] == m);
    }
    if client == Some(i) && masks.contains(m) {
        let k = choose|k: int| 0 <= k < masks.len() && masks[k] == m;
        assert(tries[k] == (Some(i), m));
    }
}

proof fn lemma_both_contain<T>(a: Seq<T>, b: Seq<T>, x: T)
    ensures
        (a + b).contains(x) <==> a.contains(x) || b.contains(x),
{
    if (a + b).contains(x) {
        let k = choose|k: int| 0 <= k < (a + b).len() && (a + b)[k] == x;
        if k < a.len() {
            assert(a[k] == x);
        } else {
            assert(b[k - a.len()] == x);
        }
    }
    if a.contains(x) {
        let k = choose|k: int| 0 <= k < a.len() && a[k] == x;
        assert((a + b)[k] == x);
    }
    if b.contains(x) {
        let k = choose|k: int| 0 <= k < b.len() && b[k] == x;
        assert((a + b)[a.len() + k] == x);
    }
}

proof fn lemma_tries_of_contains(
    clients: Seq<HandshakeClientView>,
    presets: Seq<MaskView>,
    n: int,
    now: i64,
    i: usize,
    m: MaskView,
)
    requires
        0 <= n <= clients.len() <= usize::MAX,
    ensures
        tries_of(clients, presets, n, now).contains((Some(i), m)) <==> i < n && is_tried(
            clients[i as int],
            presets,
            now,
            m,
        ),
    decreases n,
{
    if n > 0 {
        lemma_tries_of_contains(clients, presets, n - 1, now, i, m);
        let c = clients[n - 1];
        let masks = c.descriptor_masks + presets;
        let before = tries_of(clients, presets, n - 1, now);
        lemma_tries_for_contains(Some((n - 1) as usize), masks, i, m);
        lemma_both_contain(c.descriptor_masks, presets, m);
        lemma_both_contain(before, tries_for(Some((n - 1) as usize), masks), (Some(i), m));
    }
}

proof fn lemma_tries_name_a_client(
    clients: Seq<HandshakeClientView>,
    presets: Seq<MaskView>,
    n: int,
    now: i64,
    k: int,
)
    requires
        n <= clients.len() <= usize::MAX,
        0 <= k < tries_of(clients, presets, n, now).len(),
    ensures
        tries_of(clients, presets, n, now)[k].0 is Some,
        tries_of(clients, presets, n, now)[k].0->0 < n,
    decreases n,
{
    if n > 0 {
        let before = tries_of(clients, presets, n - 1, now);
        if k < before.len() {
            lemma_tries_name_a_client(clients, presets, n - 1, now, k);
        }
    }
}

proof fn lemma_tries_keep_order(
    clients: Seq<HandshakeClientView>,
    presets: Seq<MaskView>,
    n: int,
    now: i64,
    k: int,
    l: int,
)
    requires
        n <= clients.len() <= usize::MAX,
        0 <= k <= l < tries_of(clients, presets, n, now).len(),
    ensures
        tries_of(clients, presets, n, now)[k].0->0 <= tries_of(clients, presets, n, now)[l].0->0,
    decreases n,
{
    if n > 0 {
        let before = tries_of(clients, presets, n - 1, now);
        if l < before.len() {
            lemma_tries_keep_order(clients, presets, n - 1, now, k, l);
        } else if k < before.len() {
            lemma_tries_name_a_client(clients, presets, n - 1, now, k);
        }
    }
}

/// A client may connect, and a mask is one of its own or a built-in one.
pub open spec fn is_tried(
    client: HandshakeClientView,
    presets: Seq<MaskView>,
    now: i64,
    m: MaskView,
) -> bool {
    may_connect(client.enabled, client.expires_at, now) && (client.descriptor_masks.contains(m)
        || presets.contains(m))
}

/// With a registry, a packet is tried as the handshake of exactly the clients that may connect,
/// each under exactly its own masks and the built-in ones.
pub proof fn exactly_admitted_clients_are_tried(
    clients: Seq<HandshakeClientView>,
    descriptor_masks: Seq<MaskView>,
    presets: Seq<MaskView>,
    now: i64,
    i: usize,
    m: MaskView,
)
    requires
        clients.len() <= usize::MAX,
    ensures
        candidates_of(Some(clients), descriptor_masks, presets, now).contains((Some(i), m)) <==> i
            < clients.len() && is_tried(clients[i as int], presets, now, m),
{
    lemma_tries_of_contains(clients, presets, clients.len() as int, now, i, m);
}

/// With a registry, no packet is tried as anything but the handshake of a registered client;
/// without one, none is tried as a client's.
pub proof fn clients_are_tried_with_a_registry_alone(
    clients: Option<Seq<HandshakeClientView>>,
    descriptor_masks: Seq<MaskView>,
    presets: Seq<MaskView>,
    now: i64,
    k: int,
)
    requires
        clients is Some ==> clients->0.len() <= usize::MAX,
        0 <= k < candidates_of(clients, descriptor_masks, presets, now).len(),
    ensures
        candidates_of(clients, descriptor_masks, presets, now)[k].0 is Some <==> clients is Some,
{
    if let Some(registered) = clients {
        lemma_tries_name_a_client(registered, presets, registered.len() as int, now, k);
    }
}

/// Clients are tried in the order of the registry: all that is tried for one comes before
/// anything for the next.
pub proof fn clients_are_tried_in_order(
    clients: Seq<HandshakeClientView>,
    descriptor_masks: Seq<MaskView>,
    presets: Seq<MaskView>,
    now: i64,
    k: int,
    l: int,
)
    requires
        clients.len() <= usize::MAX,
        0 <= k <= l < candidates_of(Some(clients), descriptor_masks, presets, now).len(),
    ensures
        ({
            let tries = candidates_of(Some(clients), descriptor_masks, presets, now);
            tries[k].0 is Some && tries[l].0 is Some && tries[k].0->0 <= tries[l].0->0 < clients.len()
        }),
{
    let n = clients.len() as int;
    lemma_tries_name_a_client(clients, presets, n, now, k);
    lemma_tries_name_a_client(clients, presets, n, now, l);
    lemma_tries_keep_order(clients, presets, n, now, k, l);
}

/// No try names a client that is switched off, nor one whose expiry has come; every mask of a
/// client that is switched on and has no expiry, or one that is still ahead, is tried.
pub proof fn no_try_is_for_a_client_that_may_not_connect(
    clients: Seq<HandshakeClientView>,
    descriptor_masks: Seq<MaskView>,
    presets: Seq<MaskView>,
    now: i64,
    i: usize,
    m: MaskView,
)
    requires
        clients.len() <= usize::MAX,
        i < clients.len(),
    ensures
        ({
            let tries = candidates_of(Some(clients), descriptor_masks, presets, now);
            let c = clients[i as int];
            &&& !c.enabled ==> !tries.contains((Some(i), m))
            &&& c.expires_at matches Some(t) ==> (t <= now ==> !tries.contains((Some(i), m)))
            &&& c.enabled && (c.expires_at matches Some(t) ==> now < t) && (
            c.descriptor_masks.contains(m) || presets.contains(m)) ==> tries.contains((Some(i), m))
            &&& tries.contains((Some(i), m)) ==> c.descriptor_masks.contains(m)
                || presets.contains(m)
        }),
{
    exactly_admitted_clients_are_tried(clients, descriptor_masks, presets, now, i, m);
}

/// One more client in the registry adds its own tries behind all others and changes none: first
/// each of its descriptor masks, then each built-in one, in their order, where it is switched on
/// and not expired; nothing where it is not.
pub proof fn last_client_comes_last(
    clients: Seq<HandshakeClientView>,
    c: HandshakeClientView,
    descriptor_masks: Seq<MaskView>,
    presets: Seq<MaskView>,
    now: i64,
    k: int,
)
    requires
        clients.len() < usize::MAX,
    ensures
        ({
            let before = candidates_of(Some(clients), descriptor_masks, presets, now);
            let tries = candidates_of(Some(clients.push(c)), descriptor_masks, presets, now);
            let admitted = c.enabled && (c.expires_at matches Some(t) ==> now < t);
            let own = c.descriptor_masks.len() as int;
            let n = before.len() as int;
            let at = Some(clients.len() as usize);
            &&& !admitted ==> tries == before
            &&& admitted ==> tries.len() == n + own + presets.len()
            &&& admitted && 0 <= k < n ==> tries[k] == before[k]
            &&& admitted && 0 <= k < own ==> tries[n + k] == (at, c.descriptor_masks[k])
            &&& admitted && 0 <= k < presets.len() ==> tries[n + own + k] == (at, presets[k])
        }),
{
    lemma_tries_of_prefix(clients, c, presets, clients.len() as int, now);
}

proof fn lemma_tries_of_prefix(
    clients: Seq<HandshakeClientView>,
    c: HandshakeClientView,
    presets: Seq<MaskView>,
    n: int,
    now: i64,
)
    requires
        n <= clients.len(),
    ensures
        tries_of(clients.push(c), presets, n, now) == tries_of(clients, presets, n, now),
    decreases n,
{
    if n > 0 {
        lemma_tries_of_prefix(clients, c, presets, n - 1, now);
    }
}

/// Nothing is tried for an empty registry. Without a registry the descriptors' masks are tried
/// first and then the built-in ones, in their order, each once and for nobody, whatever the
/// time.
pub proof fn without_a_registry_masks_alone_are_tried(
    descriptor_masks: Seq<MaskView>,
    presets: Seq<MaskView>,
    now: i64,
    k: int,
)
    ensures
        candidates_of(Some(seq![]), descriptor_masks, presets, now).len() == 0,
        ({
            let tries = candidates_of(None, descriptor_masks, presets, now);
            let own = descriptor_masks.len() as int;
            &&& tries.len() == own + presets.len()
            &&& 0 <= k < own ==> tries[k] == (None::<usize>, descriptor_masks[k])
            &&& 0 <= k < presets.len() ==> tries[own + k] == (None::<usize>, presets[k])
        }),
{
}

} // verus!
