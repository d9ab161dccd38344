//! Finding the session that a packet belongs to, one question at a time.
//!
//! The session table lives elsewhere. This module decides which question to put to it next
//! and what its answers amount to.

use vstd::prelude::*;

verus! {

/// A question about one of a packet's candidate tags, which are numbered from zero.
#[derive(Clone, Copy, PartialEq, Eq, Structural)]
pub enum LookupStep {
    /// Is the tag in the table, and does its session accept it?
    ByTag(usize),
    /// May the sessions be scanned?
    ChargeBudget,
    /// Refresh the tag windows: does some session accept the first tag now?
    Refresh,
    /// Is the tag in the table now, and does its session accept it?
    ByTagAgain(usize),
    /// Can a session be recovered that accepts the tag?
    Recover(usize),
}

/// An answer to a question.
#[derive(Clone, Copy, PartialEq, Eq, Structural)]
pub enum LookupAnswer {
    /// No session has the tag.
    Unknown,
    /// A session has the tag and accepts it.
    Matched { counter: u64, ratcheted: bool },
    /// A session has the tag but does not accept it.
    Rejected,
    /// The scan budget has, or has not, room for a scan.
    Budget(bool),
}

/// What to do next.
#[derive(Clone, Copy, PartialEq, Eq, Structural)]
pub enum LookupOutcome {
    /// Put the next question.
    Ask(LookupStep),
    /// The packet belongs to the session that accepted this tag.
    Found { tag: usize, counter: u64, ratcheted: bool },
    /// The tag is known but not valid: the packet is refused.
    Invalid,
    /// No session has any of the tags.
    NotFound,
}

/// The question after tag `i` of the first round was unknown.
pub open spec fn after_direct(tags: nat, i: int) -> LookupOutcome {
    if i + 1 < tags {
        LookupOutcome::Ask(LookupStep::ByTag((i + 1) as usize))
    } else {
        LookupOutcome::Ask(LookupStep::ChargeBudget)
    }
}

/// The question after tag `i` of the second round was unknown.
pub open spec fn after_again(tags: nat, i: int) -> LookupOutcome {
    if i + 1 < tags {
        LookupOutcome::Ask(LookupStep::ByTagAgain((i + 1) as usize))
    } else {
        LookupOutcome::Ask(LookupStep::Recover(0))
    }
}

/// What follows when tag `i` could not be recovered.
pub open spec fn after_recover(tags: nat, i: int) -> LookupOutcome {
    if i + 1 < tags {
        LookupOutcome::Ask(LookupStep::Recover((i + 1) as usize))
    } else {
        LookupOutcome::NotFound
    }
}

/// What a table answer about tag `i` amounts to.
pub open spec fn decided(i: int, answer: LookupAnswer, otherwise: LookupOutcome) -> LookupOutcome {
    match answer {
        LookupAnswer::Matched { counter, ratcheted } => LookupOutcome::Found {
            tag: i as usize,
            counter,
            ratcheted,
        },
        LookupAnswer::Rejected => LookupOutcome::Invalid,
        _ => otherwise,
    }
}

/// What a recovery answer about tag `i` amounts to.
pub open spec fn recovered(i: int, answer: LookupAnswer, otherwise: LookupOutcome) -> LookupOutcome {
    match answer {
        LookupAnswer::Matched { counter, ratcheted } => LookupOutcome::Found {
            tag: i as usize,
            counter,
            ratcheted,
        },
        _ => otherwise,
    }
}

/// The first question about a packet with so many candidate tags.
pub open spec fn lookup_start(tags: nat) -> LookupOutcome {
    if tags > 0 {
        LookupOutcome::Ask(LookupStep::ByTag(0))
    } else {
        LookupOutcome::Ask(LookupStep::ChargeBudget)
    }
}

/// What follows an answer.
pub open spec fn lookup_next(tags: nat, step: LookupStep, answer: LookupAnswer) -> LookupOutcome {
    match step {
        LookupStep::ByTag(i) => decided(i as int, answer, after_direct(tags, i as int)),
        LookupStep::ChargeBudget => if answer == LookupAnswer::Budget(true) && tags > 0 {
            LookupOutcome::Ask(LookupStep::Refresh)
        } else {
            LookupOutcome::NotFound
        },
        LookupStep::Refresh => recovered(
            0,
            answer,
            LookupOutcome::Ask(LookupStep::ByTagAgain(0)),
        ),
        LookupStep::ByTagAgain(i) => decided(i as int, answer, after_again(tags, i as int)),
        LookupStep::Recover(i) => recovered(i as int, answer, after_recover(tags, i as int)),
    }
}

/// The first question about a packet with so many candidate tags.
pub fn start_lookup(tags: usize) -> (outcome: LookupOutcome)
    ensures
        outcome == lookup_start(tags as nat),
{
    if tags > 0 {
        LookupOutcome::Ask(LookupStep::ByTag(0))
    } else {
        LookupOutcome::Ask(LookupStep::ChargeBudget)
    }
}

fn decide(i: usize, answer: LookupAnswer, otherwise: LookupOutcome) -> (outcome: LookupOutcome)
    ensures
        outcome == decided(i as int, answer, otherwise),
{
    match answer {
        LookupAnswer::Matched { counter, ratcheted } => LookupOutcome::Found {
            tag: i,
            counter,
            ratcheted,
        },
        LookupAnswer::Rejected => LookupOutcome::Invalid,
        _ => otherwise,
    }
}

fn recover(i: usize, answer: LookupAnswer, otherwise: LookupOutcome) -> (outcome: LookupOutcome)
    ensures
        outcome == recovered(i as int, answer, otherwise),
{
    match answer {
        LookupAnswer::Matched { counter, ratcheted } => LookupOutcome::Found {
            tag: i,
            counter,
            ratcheted,
        },
        _ => otherwise,
    }
}

/// What follows an answer: the tags are tried against the table first; a scan, where the
/// budget allows one, refreshes the windows, tries the table again and then recovery.
pub fn find_existing_session(
    tags: usize,
    step: LookupStep,
    answer: LookupAnswer,
) -> (outcome: LookupOutcome)
    ensures
        outcome == lookup_next(tags as nat, step, answer),
{
    match step {
        LookupStep::ByTag(i) => {
            let otherwise: LookupOutcome = if i < tags && i + 1 < tags {
                LookupOutcome::Ask(LookupStep::ByTag(i + 1))
            } else {
                LookupOutcome::Ask(LookupStep::ChargeBudget)
            };
            decide(i, answer, otherwise)
        },
        LookupStep::ChargeBudget => {
            let allowed: bool = match answer {
                LookupAnswer::Budget(b) => b,
                _ => false,
            };
            if allowed && tags > 0 {
                LookupOutcome::Ask(LookupStep::Refresh)
            } else {
                LookupOutcome::NotFound
            }
        },
        LookupStep::Refresh => recover(
            0,
            answer,
            LookupOutcome::Ask(LookupStep::ByTagAgain(0)),
        ),
        LookupStep::ByTagAgain(i) => {
            let otherwise: LookupOutcome = if i < tags && i + 1 < tags {
                LookupOutcome::Ask(LookupStep::ByTagAgain(i + 1))
            } else {
                LookupOutcome::Ask(LookupStep::Recover(0))
            };
            decide(i, answer, otherwise)
        },
        LookupStep::Recover(i) => {
            let otherwise: LookupOutcome = if i < tags && i + 1 < tags {
                LookupOutcome::Ask(LookupStep::Recover(i + 1))
            } else {
                LookupOutcome::NotFound
            };
            recover(i, answer, otherwise)
        },
    }
}

/// How every question about one packet would be answered.
pub struct Table {
    pub direct: Seq<LookupAnswer>,
    pub budget: bool,
    pub refreshed: LookupAnswer,
    pub again: Seq<LookupAnswer>,
    pub recovery: Seq<LookupAnswer>,
}

/// The answer to a question.
pub open spec fn answer_to(t: Table, step: LookupStep) -> LookupAnswer {
    match step {
        LookupStep::ByTag(i) => t.direct[i as int],
        LookupStep::ChargeBudget => LookupAnswer::Budget(t.budget),
        LookupStep::Refresh => t.refreshed,
        LookupStep::ByTagAgain(i) => t.again[i as int],
        LookupStep::Recover(i) => t.recovery[i as int],
    }
}

/// How many more questions there can be from this one on.
pub open spec fn questions_left(tags: nat, step: LookupStep) -> nat {
    match step {
        LookupStep::ByTag(i) => if i < tags {
            (3 * tags + 3 - i) as nat
        } else {
            (2 * tags + 4) as nat
        },
        LookupStep::ChargeBudget => 2 * tags + 3,
        LookupStep::Refresh => 2 * tags + 2,
        LookupStep::ByTagAgain(i) => if i < tags {
            (2 * tags + 1 - i) as nat
        } else {
            tags + 1
        },
        LookupStep::Recover(i) => if i < tags {
            (tags - i) as nat
        } else {
            0
        },
    }
}

/// What the questions lead to when each is answered from the table.
pub open spec fn run_lookup(tags: nat, outcome: LookupOutcome, t: Table) -> LookupOutcome
    decreases
            (match outcome {
                LookupOutcome::Ask(step) => 1 + questions_left(tags, step),
                _ => 0,
            }),
    when tags <= usize::MAX
{
    match outcome {
        LookupOutcome::Ask(step) => run_lookup(
            tags,
            lookup_next(tags, step, answer_to(t, step)),
            t,
        ),
        _ => outcome,
    }
}

/// The first answer from `from` on that settles the matter; `otherwise` where none does.
pub open spec fn first_decided(
    answers: Seq<LookupAnswer>,
    from: int,
    otherwise: LookupOutcome,
) -> LookupOutcome
    decreases answers.len() - from,
{
    if from >= answers.len() {
        otherwise
    } else {
        decided(from, answers[from], first_decided(answers, from + 1, otherwise))
    }
}

/// The first answer from `from` on that recovers a session; not found where none does.
pub open spec fn first_recovered(answers: Seq<LookupAnswer>, from: int) -> LookupOutcome
    decreases answers.len() - from,
{
    if from >= answers.len() {
        LookupOutcome::NotFound
    } else {
        recovered(from, answers[from], first_recovered(answers, from + 1))
    }
}

/// What a lookup comes to: the first tag that the table decides; else, where a scan is
/// allowed, the refreshed first tag, then the first tag that the table decides now, then the
/// first that can be recovered.
pub open spec fn resolved(t: Table) -> LookupOutcome {
    first_decided(
        t.direct,
        0,
        if t.budget && t.direct.len() > 0 {
            recovered(0, t.refreshed, first_decided(t.again, 0, first_recovered(t.recovery, 0)))
        } else {
            LookupOutcome::NotFound
        },
    )
}

proof fn lemma_run_recover(t: Table, i: int)
    requires
        t.recovery.len() <= usize::MAX,
        0 <= i < t.recovery.len(),
    ensures
        run_lookup(
            t.recovery.len(),
            LookupOutcome::Ask(LookupStep::Recover(i as usize)),
            t,
        ) == first_recovered(t.recovery, i),
    decreases t.recovery.len() - i,
{
    let tags = t.recovery.len();
    reveal_with_fuel(run_lookup, 2);
    reveal_with_fuel(first_recovered, 2);
    if i + 1 < tags {
        lemma_run_recover(t, i + 1);
    }
}

proof fn lemma_run_again(t: Table, i: int)
    requires
        t.again.len() <= usize::MAX,
        t.recovery.len() == t.again.len(),
        0 <= i < t.again.len(),
    ensures
        run_lookup(
            t.again.len(),
            LookupOutcome::Ask(LookupStep::ByTagAgain(i as usize)),
            t,
        ) == first_decided(t.again, i, first_recovered(t.recovery, 0)),
    decreases t.again.len() - i,
{
    reveal_with_fuel(run_lookup, 2);
    reveal_with_fuel(first_decided, 2);
    if i + 1 < t.again.len() {
        lemma_run_again(t, i + 1);
    } else {
        lemma_run_recover(t, 0);
    }
}

proof fn lemma_run_scan(t: Table)
    requires
        t.direct.len() <= usize::MAX,
        t.again.len() == t.direct.len(),
        t.recovery.len() == t.direct.len(),
    ensures
        run_lookup(t.direct.len(), LookupOutcome::Ask(LookupStep::ChargeBudget), t) == (
        if t.budget && t.direct.len() > 0 {
            recovered(0, t.refreshed, first_decided(t.again, 0, first_recovered(t.recovery, 0)))
        } else {
            LookupOutcome::NotFound
        }),
{
    reveal_with_fuel(run_lookup, 3);
    if t.direct.len() > 0 {
        lemma_run_again(t, 0);
    }
}

proof fn lemma_run_direct(t: Table, i: int)
    requires
        t.direct.len() <= usize::MAX,
        t.again.len() == t.direct.len(),
        t.recovery.len() == t.direct.len(),
        0 <= i < t.direct.len(),
    ensures
        run_lookup(
            t.direct.len(),
            LookupOutcome::Ask(LookupStep::ByTag(i as usize)),
            t,
        ) == first_decided(
            t.direct,
            i,
            run_lookup(t.direct.len(), LookupOutcome::Ask(LookupStep::ChargeBudget), t),
        ),
    decreases t.direct.len() - i,
{
    reveal_with_fuel(run_lookup, 2);
    reveal_with_fuel(first_decided, 2);
    if i + 1 < t.direct.len() {
        lemma_run_direct(t, i + 1);
    }
}

/// Asking question after question comes to what the table as a whole says: the table decides
/// before any scan, and without a budget there is no scan.
pub proof fn lookup_is_resolved_by_table(t: Table)
    requires
        t.direct.len() <= usize::MAX,
        t.again.len() == t.direct.len(),
        t.recovery.len() == t.direct.len(),
    ensures
        run_lookup(t.direct.len(), lookup_start(t.direct.len()), t) == resolved(t),
{
    lemma_run_scan(t);
    if t.direct.len() > 0 {
        lemma_run_direct(t, 0);
    }
}

/// A tag that the table rejects refuses the packet: no scan can attribute it to another
/// session.
pub proof fn rejected_tag_is_never_reattributed(t: Table, i: int)
    requires
        0 <= i < t.direct.len(),
        t.direct[i] == LookupAnswer::Rejected,
        forall|k: int| 0 <= k < i ==> #[trigger] t.direct[k] == LookupAnswer::Unknown,
    ensures
        resolved(t) == LookupOutcome::Invalid,
{
    let rest = if t.budget && t.direct.len() > 0 {
        recovered(0, t.refreshed, first_decided(t.again, 0, first_recovered(t.recovery, 0)))
    } else {
        LookupOutcome::NotFound
    };
    lemma_first_decided(t.direct, 0, i, rest);
}

proof fn lemma_first_decided(answers: Seq<LookupAnswer>, from: int, i: int, rest: LookupOutcome)
    requires
        0 <= from <= i < answers.len(),
        answers[i] == LookupAnswer::Rejected,
        forall|k: int| from <= k < i ==> #[trigger] answers[k] == LookupAnswer::Unknown,
    ensures
        first_decided(answers, from, rest) == LookupOutcome::Invalid,
    decreases i - from,
{
    if from < i {
        lemma_first_decided(answers, from + 1, i, rest);
    }
}

/// A packet's tags are put to the session table one after the other, and each answer settles
/// what it can: a session that accepts the tag is taken, with what it told; a session that knows
/// the tag but does not accept it refuses the packet. Only where no session knows any of them is
/// a scan asked for.
pub proof fn tags_are_asked_in_turn(tags: nat, i: usize, counter: u64, ratcheted: bool)
    requires
        i < tags <= usize::MAX,
    ensures
        lookup_start(tags) == LookupOutcome::Ask(LookupStep::ByTag(0)),
        lookup_start(0) == LookupOutcome::Ask(LookupStep::ChargeBudget),
        lookup_next(tags, LookupStep::ByTag(i), LookupAnswer::Matched { counter, ratcheted }) == (
        LookupOutcome::Found { tag: i, counter, ratcheted }),
        lookup_next(tags, LookupStep::ByTag(i), LookupAnswer::Rejected) == LookupOutcome::Invalid,
        i + 1 < tags ==> lookup_next(tags, LookupStep::ByTag(i), LookupAnswer::Unknown)
            == LookupOutcome::Ask(LookupStep::ByTag((i + 1) as usize)),
        i + 1 == tags ==> lookup_next(tags, LookupStep::ByTag(i), LookupAnswer::Unknown)
            == LookupOutcome::Ask(LookupStep::ChargeBudget),
{
}

/// A scan that is granted has the tags of all sessions computed anew and the packet's tags asked
/// for once more, then has each looked for among past tags; what accepts a tag on the way is
/// taken. Without a grant, or once all is tried, the packet belongs to no session.
pub proof fn scan_tries_everything_once_more(tags: nat, i: usize, counter: u64, ratcheted: bool)
    requires
        i < tags <= usize::MAX,
    ensures
        lookup_next(tags, LookupStep::ChargeBudget, LookupAnswer::Budget(true))
            == LookupOutcome::Ask(LookupStep::Refresh),
        lookup_next(tags, LookupStep::ChargeBudget, LookupAnswer::Budget(false))
            == LookupOutcome::NotFound,
        lookup_next(0, LookupStep::ChargeBudget, LookupAnswer::Budget(true))
            == LookupOutcome::NotFound,
        lookup_next(tags, LookupStep::Refresh, LookupAnswer::Matched { counter, ratcheted }) == (
        LookupOutcome::Found { tag: 0, counter, ratcheted }),
        lookup_next(tags, LookupStep::Refresh, LookupAnswer::Unknown) == LookupOutcome::Ask(
            LookupStep::ByTagAgain(0),
        ),
        lookup_next(tags, LookupStep::Refresh, LookupAnswer::Rejected) == LookupOutcome::Ask(
            LookupStep::ByTagAgain(0),
        ),
        lookup_next(tags, LookupStep::ByTagAgain(i), LookupAnswer::Matched { counter, ratcheted })
            == (LookupOutcome::Found { tag: i, counter, ratcheted }),
        lookup_next(tags, LookupStep::ByTagAgain(i), LookupAnswer::Rejected)
            == LookupOutcome::Invalid,
        lookup_next(tags, LookupStep::ByTagAgain(i), LookupAnswer::Unknown) == LookupOutcome::Ask(
            if i + 1 < tags {
                LookupStep::ByTagAgain((i + 1) as usize)
            } else {
                LookupStep::Recover(0)
            },
        ),
        lookup_next(tags, LookupStep::Recover(i), LookupAnswer::Matched { counter, ratcheted })
            == (LookupOutcome::Found { tag: i, counter, ratcheted }),
        i + 1 < tags ==> lookup_next(tags, LookupStep::Recover(i), LookupAnswer::Unknown)
            == LookupOutcome::Ask(LookupStep::Recover((i + 1) as usize)),
        i + 1 < tags ==> lookup_next(tags, LookupStep::Recover(i), LookupAnswer::Rejected)
            == LookupOutcome::Ask(LookupStep::Recover((i + 1) as usize)),
        i + 1 == tags ==> lookup_next(tags, LookupStep::Recover(i), LookupAnswer::Unknown)
            == LookupOutcome::NotFound,
        i + 1 == tags ==> lookup_next(tags, LookupStep::Recover(i), LookupAnswer::Rejected)
            == LookupOutcome::NotFound,
{
}

/// A session that accepts a tag outright has the packet, whatever a scan would find: the first
/// such tag decides, as long as no earlier one is refused.
pub proof fn first_accepted_tag_decides(t: Table, i: int, counter: u64, ratcheted: bool)
    requires
        0 <= i < t.direct.len() <= usize::MAX,
        t.again.len() == t.direct.len(),
        t.recovery.len() == t.direct.len(),
        t.direct[i] == (LookupAnswer::Matched { counter, ratcheted }),
        forall|k: int| 0 <= k < i ==> #[trigger] t.direct[k] == LookupAnswer::Unknown,
    ensures
        run_lookup(t.direct.len(), lookup_start(t.direct.len()), t) == (LookupOutcome::Found {
            tag: i as usize,
            counter,
            ratcheted,
        }),
{
    lookup_is_resolved_by_table(t);
    let otherwise = if t.budget && t.direct.len() > 0 {
        recovered(0, t.refreshed, first_decided(t.again, 0, first_recovered(t.recovery, 0)))
    } else {
        LookupOutcome::NotFound
    };
    lemma_first_match_decides(t.direct, 0, i, counter, ratcheted, otherwise);
}

proof fn lemma_first_match_decides(
    answers: Seq<LookupAnswer>,
    from: int,
    i: int,
    counter: u64,
    ratcheted: bool,
    otherwise: LookupOutcome,
)
    requires
        0 <= from <= i < answers.len(),
        answers[i] == (LookupAnswer::Matched { counter, ratcheted }),
        forall|k: int| from <= k < i ==> #[trigger] answers[k] == LookupAnswer::Unknown,
    ensures
        first_decided(answers, from, otherwise) == (LookupOutcome::Found {
            tag: i as usize,
            counter,
            ratcheted,
        }),
    decreases i - from,
{
    if from < i {
        lemma_first_match_decides(answers, from + 1, i, counter, ratcheted, otherwise);
    }
}

/// A packet none of whose tags any session knows, at once or after a scan, belongs to none; so
/// does one whose tags no session knows at once where no scan is granted.
pub proof fn unknown_packet_belongs_to_nobody(t: Table)
    requires
        t.direct.len() <= usize::MAX,
        t.again.len() == t.direct.len(),
        t.recovery.len() == t.direct.len(),
        forall|k: int| 0 <= k < t.direct.len() ==> #[trigger] t.direct[k] == LookupAnswer::Unknown,
        !t.budget || (t.refreshed == LookupAnswer::Unknown && (forall|k: int|
            0 <= k < t.again.len() ==> #[trigger] t.again[k] == LookupAnswer::Unknown) && (forall|
            k: int,
        |
            0 <= k < t.recovery.len() ==> #[trigger] t.recovery[k] == LookupAnswer::Unknown)),
    ensures
        run_lookup(t.direct.len(), lookup_start(t.direct.len()), t) == LookupOutcome::NotFound,
{
    lookup_is_resolved_by_table(t);
    let otherwise = if t.budget && t.direct.len() > 0 {
        recovered(0, t.refreshed, first_decided(t.again, 0, first_recovered(t.recovery, 0)))
    } else {
        LookupOutcome::NotFound
    };
    lemma_unknown_decides_nothing(t.direct, 0, otherwise);
    if t.budget {
        lemma_unknown_decides_nothing(t.again, 0, first_recovered(t.recovery, 0));
        lemma_unknown_recovers_nothing(t.recovery, 0);
    }
}

proof fn lemma_unknown_decides_nothing(
    answers: Seq<LookupAnswer>,
    from: int,
    otherwise: LookupOutcome,
)
    requires
        0 <= from <= answers.len(),
        forall|k: int| 0 <= k < answers.len() ==> #[trigger] answers[k] == LookupAnswer::Unknown,
    ensures
        first_decided(answers, from, otherwise) == otherwise,
    decreases answers.len() - from,
{
    if from < answers.len() {
        lemma_unknown_decides_nothing(answers, from + 1, otherwise);
    }
}

proof fn lemma_unknown_recovers_nothing(answers: Seq<LookupAnswer>, from: int)
    requires
        0 <= from <= answers.len(),
        forall|k: int| 0 <= k < answers.len() ==> #[trigger] answers[k] == LookupAnswer::Unknown,
    ensures
        first_recovered(answers, from) == LookupOutcome::NotFound,
    decreases answers.len() - from,
{
    if from < answers.len() {
        lemma_unknown_recovers_nothing(answers, from + 1);
    }
}

} // verus!
