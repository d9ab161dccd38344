//! The check of a mask profile that an operator asks for.

use crate::text::{decimal, push_decimal, push_text, text_views};
use vstd::prelude::*;

verus! {

/// Numbers in the signature of a mask.
pub const SIGNATURE_LEN: usize = 64;

/// Bytes of a client's key in a handshake.
pub const KEY_LEN: u16 = 32;

/// Last byte that a client's key may reach.
pub const MAX_KEY_END: u32 = 1350;

/// Seconds of a day.
pub const DAY: u64 = 86400;

/// A state of a mask, and the states that it leads to.
pub struct FsmState {
    pub state_id: u16,
    pub next_states: Vec<u16>,
}

/// What the check looks at.
pub struct MaskFacts {
    pub signature_len: usize,
    pub signature_finite: bool,
    pub signature_zero: bool,
    pub header_len: usize,
    pub eph_pub_offset: u16,
    pub eph_pub_length: u16,
    /// The sum of the size distribution, written out, where it is off.
    pub bins_off: Option<String>,
    pub fsm_states: Vec<FsmState>,
    pub fsm_initial_state: u16,
    pub expires_at: u64,
}

/// What the check finds.
pub struct MaskReport {
    pub issues: Vec<String>,
    pub warnings: Vec<String>,
    pub expires: String,
}

/// Whether a state is one of the mask's.
pub open spec fn is_state(states: Seq<FsmState>, id: u16) -> bool {
    exists|i: int| 0 <= i < states.len() && (#[trigger] states[i]).state_id == id
}

/// A list with one text, or none.
pub open spec fn only_if(condition: bool, text: Seq<char>) -> Seq<Seq<char>> {
    if condition {
        seq![text]
    } else {
        seq![]
    }
}

/// The last byte of the client's key.
pub open spec fn key_end(m: MaskFacts) -> int {
    m.eph_pub_offset + m.eph_pub_length
}

/// What is said of a state that leads nowhere.
pub open spec fn stray_text(from: u16, to: u16) -> Seq<char> {
    "FSM state "@ + decimal(from as nat) + ": transition to unknown state "@ + decimal(to as nat)
}

/// The strays among the first `n` states that a state leads to.
pub open spec fn strays_of_state(states: Seq<FsmState>, state: FsmState, n: int) -> Seq<Seq<char>>
    decreases n,
{
    if n <= 0 {
        seq![]
    } else {
        strays_of_state(states, state, n - 1) + only_if(
            !is_state(states, state.next_states@[n - 1]),
            stray_text(state.state_id, state.next_states@[n - 1]),
        )
    }
}

/// The strays of the first `n` states.
pub open spec fn strays(states: Seq<FsmState>, n: int) -> Seq<Seq<char>>
    decreases n,
{
    if n <= 0 {
        seq![]
    } else {
        strays(states, n - 1) + strays_of_state(
            states,
            states[n - 1],
            states[n - 1].next_states@.len() as int,
        )
    }
}

/// What is wrong with the signature.
pub open spec fn signature_issues(m: MaskFacts) -> Seq<Seq<char>> {
    only_if(
        m.signature_len != SIGNATURE_LEN,
        "signature_vector: "@ + decimal(m.signature_len as nat) + " floats (expected 64)"@,
    ) + only_if(
        m.signature_len == SIGNATURE_LEN && !m.signature_finite,
        "signature_vector: contains NaN or Inf"@,
    )
}

/// What is wrong with the header and the place of the client's key.
pub open spec fn header_issues(m: MaskFacts) -> Seq<Seq<char>> {
    only_if(
        m.header_len != m.eph_pub_offset,
        "header_template length ("@ + decimal(m.header_len as nat) + ") != eph_pub_offset ("@
            + decimal(m.eph_pub_offset as nat) + ")"@,
    ) + only_if(
        key_end(m) > MAX_KEY_END,
        "eph region ends at byte "@ + decimal(key_end(m) as nat) + ", which exceeds 1350"@,
    )
}

/// What is wrong with the sizes and the states.
pub open spec fn behaviour_issues(m: MaskFacts) -> Seq<Seq<char>> {
    only_if(
        m.bins_off is Some,
        "size_distribution bins sum = "@ + m.bins_off->0@ + " (expected 1.0 ± 0.02)"@,
    ) + only_if(
        !is_state(m.fsm_states@, m.fsm_initial_state),
        "fsm_initial_state "@ + decimal(m.fsm_initial_state as nat)
            + " not found in fsm_states"@,
    ) + strays(m.fsm_states@, m.fsm_states@.len() as int)
}

/// For how many days a mask has been out of date.
pub open spec fn expired_days(m: MaskFacts, now: u64) -> int {
    (now - m.expires_at) / DAY as int
}

/// The mask is out of date.
pub open spec fn is_expired(m: MaskFacts, now: u64) -> bool {
    m.expires_at != u64::MAX && m.expires_at < now
}

/// All that is wrong with a mask.
pub open spec fn issues_of(m: MaskFacts, now: u64) -> Seq<Seq<char>> {
    signature_issues(m) + header_issues(m) + behaviour_issues(m) + only_if(
        is_expired(m, now),
        "mask expired "@ + decimal(expired_days(m, now) as nat) + " day(s) ago"@,
    )
}

/// What is odd about a mask, though it can be used.
pub open spec fn warnings_of(m: MaskFacts) -> Seq<Seq<char>> {
    only_if(
        m.signature_len == SIGNATURE_LEN && m.signature_finite && m.signature_zero,
        "signature_vector is all-zeros — neural resonance inactive for this mask"@,
    ) + only_if(
        m.eph_pub_length != KEY_LEN,
        "eph_pub_length = "@ + decimal(m.eph_pub_length as nat) + " (expected 32 for X25519)"@,
    )
}

/// Until when a mask can be used, in words.
pub open spec fn expiry_text(m: MaskFacts, now: u64) -> Seq<char> {
    if m.expires_at == u64::MAX {
        "never"@
    } else if m.expires_at < now {
        "EXPIRED ("@ + decimal(expired_days(m, now) as nat) + " days ago)"@
    } else {
        decimal(((m.expires_at - now) / DAY as int) as nat) + " days remaining"@
    }
}

fn has_state(states: &Vec<FsmState>, id: u16) -> (r: bool)
    ensures
        r == is_state(states@, id),
{
    let mut i: usize = 0;
    while i < states.len()
        invariant
            i <= states.len(),
            forall|k: int| 0 <= k < i ==> (#[trigger] states@[k]).state_id != id,
        decreases states.len() - i,
    {
        if states[i].state_id == id {
            assert(states@[i as int].state_id == id);
            return true;
        }
        i += 1;
    }
    false
}

fn note(list: &mut Vec<String>, condition: bool, text: String)
    ensures
        text_views(final(list)@) == text_views(old(list)@) + only_if(condition, text@),
{
    let ghost before = text_views(list@);
    if condition {
        list.push(text);
        assert(text_views(list@) =~= before + seq![text@]);
    } else {
        assert(before =~= before + only_if(condition, text@));
    }
}

fn phrase(front: &str, n: u64, back: &str) -> (text: String)
    ensures
        text@ == front@ + decimal(n as nat) + back@,
{
    let mut text: String = String::new();
    push_text(&mut text, front);
    push_decimal(&mut text, n);
    push_text(&mut text, back);
    assert(text@ =~= front@ + decimal(n as nat) + back@);
    text
}

fn note_strays(list: &mut Vec<String>, states: &Vec<FsmState>)
    ensures
        text_views(final(list)@) == text_views(old(list)@) + strays(
            states@,
            states@.len() as int,
        ),
{
    let ghost start = text_views(list@);
    let mut i: usize = 0;
    assert(start =~= start + strays(states@, 0));
    while i < states.len()
        invariant
            i <= states.len(),
            text_views(list@) == start + strays(states@, i as int),
        decreases states.len() - i,
    {
        let ghost outer = text_views(list@);
        let state: &FsmState = &states[i];
        let mut k: usize = 0;
        assert(outer =~= outer + strays_of_state(states@, *state, 0));
        while k < state.next_states.len()
            invariant
                k <= state.next_states.len(),
                text_views(list@) == outer + strays_of_state(states@, *state, k as int),
            decreases state.next_states.len() - k,
        {
            let to: u16 = state.next_states[k];
            let known: bool = has_state(states, to);
            let mut text: String = phrase(
                "FSM state ",
                state.state_id as u64,
                ": transition to unknown state ",
            );
            push_decimal(&mut text, to as u64);
            assert(text@ =~= stray_text(state.state_id, to));
            note(list, !known, text);
            assert(text_views(list@) =~= outer + strays_of_state(states@, *state, k + 1));
            k += 1;
        }
        assert(text_views(list@) =~= start + strays(states@, i + 1));
        i += 1;
    }
}

fn note_header(list: &mut Vec<String>, m: &MaskFacts)
    ensures
        text_views(final(list)@) == text_views(old(list)@) + header_issues(*m),
{
    let ghost start = text_views(list@);
    let mut text: String = phrase(
        "header_template length (",
        m.header_len as u64,
        ") != eph_pub_offset (",
    );
    push_decimal(&mut text, m.eph_pub_offset as u64);
    push_text(&mut text, ")");
    note(list, m.header_len != m.eph_pub_offset as usize, text);
    let end: u32 = m.eph_pub_offset as u32 + m.eph_pub_length as u32;
    let text: String = phrase("eph region ends at byte ", end as u64, ", which exceeds 1350");
    note(list, end > MAX_KEY_END, text);
    assert(text_views(list@) =~= start + header_issues(*m));
}

fn note_behaviour(list: &mut Vec<String>, m: &MaskFacts)
    ensures
        text_views(final(list)@) == text_views(old(list)@) + behaviour_issues(*m),
{
    let ghost start = text_views(list@);
    match &m.bins_off {
        Some(sum) => {
            let mut text: String = String::new();
            push_text(&mut text, "size_distribution bins sum = ");
            push_text(&mut text, sum.as_str());
            push_text(&mut text, " (expected 1.0 ± 0.02)");
            note(list, true, text);
        },
        None => {},
    }
    let known: bool = has_state(&m.fsm_states, m.fsm_initial_state);
    let text: String = phrase(
        "fsm_initial_state ",
        m.fsm_initial_state as u64,
        " not found in fsm_states",
    );
    note(list, !known, text);
    note_strays(list, &m.fsm_states);
    assert(text_views(list@) =~= start + behaviour_issues(*m));
}

/// Checks a mask at a time, in seconds since 1970.
pub fn validate_mask(m: &MaskFacts, now: u64) -> (report: MaskReport)
    ensures
        text_views(report.issues@) == issues_of(*m, now),
        text_views(report.warnings@) == warnings_of(*m),
        report.expires@ == expiry_text(*m, now),
{
    let mut issues: Vec<String> = Vec::new();
    let mut warnings: Vec<String> = Vec::new();
    assert(text_views(issues@) =~= seq![]);
    assert(text_views(warnings@) =~= seq![]);
    let whole: bool = m.signature_len == SIGNATURE_LEN;
    let text: String = phrase("signature_vector: ", m.signature_len as u64, " floats (expected 64)");
    note(&mut issues, !whole, text);
    note(
        &mut issues,
        whole && !m.signature_finite,
        "signature_vector: contains NaN or Inf".to_owned(),
    );
    note(
        &mut warnings,
        whole && m.signature_finite && m.signature_zero,
        "signature_vector is all-zeros — neural resonance inactive for this mask".to_owned(),
    );
    note_header(&mut issues, m);
    let text: String = phrase(
        "eph_pub_length = ",
        m.eph_pub_length as u64,
        " (expected 32 for X25519)",
    );
    note(&mut warnings, m.eph_pub_length != KEY_LEN, text);
    note_behaviour(&mut issues, m);
    let expires: String = if m.expires_at == u64::MAX {
        "never".to_owned()
    } else if m.expires_at < now {
        let days: u64 = (now - m.expires_at) / DAY;
        let text: String = phrase("mask expired ", days, " day(s) ago");
        note(&mut issues, true, text);
        phrase("EXPIRED (", days, " days ago)")
    } else {
        let days: u64 = (m.expires_at - now) / DAY;
        let mut text: String = String::new();
        push_decimal(&mut text, days);
        push_text(&mut text, " days remaining");
        text
    };
    proof {
        assert(text_views(issues@) =~= issues_of(*m, now));
        assert(text_views(warnings@) =~= warnings_of(*m));
    }
    MaskReport { issues, warnings, expires }
}

/// The line that ends a report.
pub open spec fn result_text(issues: nat, warnings: nat) -> Seq<char> {
    if issues > 0 {
        "Result: FAIL ("@ + decimal(issues) + " issue(s))"@
    } else if warnings > 0 {
        "Result: PASS (with warnings)"@
    } else {
        "Result: PASS"@
    }
}

impl MaskReport {
    /// Whether the mask can be used: nothing is wrong with it.
    pub fn passes(&self) -> (r: bool)
        ensures
            r == (self.issues@.len() == 0),
    {
        self.issues.len() == 0
    }

    /// The line that ends the report.
    pub fn result_line(&self) -> (line: String)
        ensures
            line@ == result_text(self.issues@.len(), self.warnings@.len()),
    {
        if self.issues.len() > 0 {
            phrase("Result: FAIL (", self.issues.len() as u64, " issue(s))")
        } else if self.warnings.len() > 0 {
            "Result: PASS (with warnings)".to_owned()
        } else {
            "Result: PASS".to_owned()
        }
    }
}

/// Every state that a mask's states lead to is one of them.
pub open spec fn is_closed(states: Seq<FsmState>) -> bool {
    forall|i: int, k: int|
        #![trigger states[i].next_states@[k]]
        0 <= i < states.len() && 0 <= k < states[i].next_states@.len() ==> is_state(
            states,
            states[i].next_states@[k],
        )
}

proof fn lemma_no_strays_of_state(states: Seq<FsmState>, state: FsmState, n: int)
    requires
        0 <= n <= state.next_states@.len(),
    ensures
        strays_of_state(states, state, n).len() == 0 <==> forall|k: int|
            0 <= k < n ==> is_state(states, #[trigger] state.next_states@[k]),
    decreases n,
{
    if n > 0 {
        lemma_no_strays_of_state(states, state, n - 1);
    }
}

proof fn lemma_no_strays(states: Seq<FsmState>, n: int)
    requires
        0 <= n <= states.len(),
    ensures
        strays(states, n).len() == 0 <==> forall|i: int, k: int|
            #![trigger states[i].next_states@[k]]
            0 <= i < n && 0 <= k < states[i].next_states@.len() ==> is_state(
                states,
                states[i].next_states@[k],
            ),
    decreases n,
{
    if n > 0 {
        lemma_no_strays(states, n - 1);
        lemma_no_strays_of_state(states, states[n - 1], states[n - 1].next_states@.len() as int);
    }
}

/// A mask passes exactly where its signature is whole and finite, its key stands behind its
/// header and within a packet, its sizes add up, its states are closed with the first among
/// them, and it is not out of date.
pub proof fn exactly_sound_masks_pass(m: MaskFacts, now: u64)
    ensures
        issues_of(m, now).len() == 0 <==> {
            &&& m.signature_len == SIGNATURE_LEN
            &&& m.signature_finite
            &&& m.header_len == m.eph_pub_offset
            &&& key_end(m) <= MAX_KEY_END
            &&& m.bins_off is None
            &&& is_state(m.fsm_states@, m.fsm_initial_state)
            &&& is_closed(m.fsm_states@)
            &&& !is_expired(m, now)
        },
{
    lemma_no_strays(m.fsm_states@, m.fsm_states@.len() as int);
}

/// A mask expires at its time, unless that is the last there is, which stands for never.
pub proof fn mask_expires_at_its_time(m: MaskFacts, now: u64)
    ensures
        m.expires_at == u64::MAX ==> !is_expired(m, now) && expiry_text(m, now) == "never"@,
        m.expires_at < u64::MAX ==> (is_expired(m, now) <==> m.expires_at < now),
        m.expires_at < now && m.expires_at < u64::MAX ==> {
            &&& expired_days(m, now) * 86400 <= now - m.expires_at
            &&& now - m.expires_at < (expired_days(m, now) + 1) * 86400
        },
        now <= m.expires_at < u64::MAX ==> expiry_text(m, now) == decimal(
            ((m.expires_at - now) / 86400) as nat,
        ) + " days remaining"@,
{
}

/// A mask is warned about exactly where its signature is in form but blank, or where its key is
/// not 32 bytes long, once for each; a warning does not make it fail.
pub proof fn mask_is_warned_about(m: MaskFacts)
    ensures
        ({
            let blank = m.signature_len == 64 && m.signature_finite && m.signature_zero;
            let odd_key = m.eph_pub_length != 32;
            &&& warnings_of(m).len() == (if blank {
                1int
            } else {
                0
            }) + (if odd_key {
                1int
            } else {
                0
            })
        }),
{
}

/// The issues of a mask are counted one by one: its signature has at most one, its header at
/// most two, and its life at most one; its behaviour has one for its sizes, one for its first
/// state, and one for each way that leads nowhere.
pub proof fn issues_are_counted_one_by_one(m: MaskFacts, now: u64)
    ensures
        signature_issues(m).len() == (if m.signature_len != 64 || !m.signature_finite {
            1int
        } else {
            0
        }),
        header_issues(m).len() == (if m.header_len != m.eph_pub_offset {
            1int
        } else {
            0
        }) + (if m.eph_pub_offset + m.eph_pub_length > 1350 {
            1int
        } else {
            0
        }),
        behaviour_issues(m).len() == (if m.bins_off is Some {
            1int
        } else {
            0
        }) + (if is_state(m.fsm_states@, m.fsm_initial_state) {
            0int
        } else {
            1
        }) + strays(m.fsm_states@, m.fsm_states@.len() as int).len(),
        issues_of(m, now).len() == signature_issues(m).len() + header_issues(m).len()
            + behaviour_issues(m).len() + (if m.expires_at != u64::MAX && m.expires_at < now {
            1int
        } else {
            0
        }),
{
}

/// A way from one state to another leads nowhere where there is no such state, and is told once,
/// in its place.
pub proof fn way_to_nowhere_is_told(states: Seq<FsmState>, state: FsmState, n: int)
    requires
        0 < n <= state.next_states@.len(),
    ensures
        ({
            let to = state.next_states@[n - 1];
            let known = exists|i: int|
                0 <= i < states.len() && (#[trigger] states[i]).state_id == to;
            let before = strays_of_state(states, state, n - 1);
            &&& known ==> strays_of_state(states, state, n) == before
            &&& !known ==> strays_of_state(states, state, n) == before.push(
                "FSM state "@ + decimal(state.state_id as nat) + ": transition to unknown state "@
                    + decimal(to as nat),
            )
        }),
{
    let to = state.next_states@[n - 1];
    let before = strays_of_state(states, state, n - 1);
    if is_state(states, to) {
        assert(strays_of_state(states, state, n) =~= before);
    } else {
        assert(strays_of_state(states, state, n) =~= before.push(stray_text(state.state_id, to)));
    }
}

/// A check fails where there is an issue, and says how many; else it passes, and says whether
/// there are warnings.
pub proof fn verdict_goes_by_the_issues(issues: nat, warnings: nat)
    ensures
        issues > 0 ==> result_text(issues, warnings) == "Result: FAIL ("@ + decimal(issues)
            + " issue(s))"@,
        issues == 0 && warnings > 0 ==> result_text(issues, warnings)
            == "Result: PASS (with warnings)"@,
        issues == 0 && warnings == 0 ==> result_text(issues, warnings) == "Result: PASS"@,
{
}

} // verus!
