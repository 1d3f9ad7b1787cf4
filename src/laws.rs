use vstd::prelude::*;

use crate::proposals::Proposal;
use crate::state::{
    carried_over, concluded, has_proposal, ids_increasing, is_winner, lemma_proposal_at, proposal_of,
    reset_points, survives, vote_applied, State, Vote,
};
use crate::users::{status_of, UpvoteStatus};

verus! {

/// No user ever holds both an upvote and a downvote on the same proposal.
pub proof fn lemma_votes_exclusive(s: State, p: Seq<u8>, x: u32)
    requires
        s.wf(),
        s.users@.contains_key(p),
    ensures
        !(s.users@[p].upvotes@.contains(x) && s.users@[p].downvotes@.contains(x)),
{
    s.users.lemma_votes_wf(p);
}

/// After a vote, the proposal voted on is still there, at its place, and the proposal's author
/// is the same record key.
proof fn lemma_vote_keeps_keys(s: State, t: State, c: Seq<u8>, pid: u32, vote: Vote, now: u64)
    requires
        s.wf(),
        t.wf(),
        has_proposal(s.proposals@, pid),
        s.users@.contains_key(c),
        vote_applied(s, t, c, pid, vote, now),
    ensures
        has_proposal(t.proposals@, pid),
        proposal_of(t.proposals@, pid).created_by_id == proposal_of(s.proposals@, pid).created_by_id,
        proposal_of(t.proposals@, pid).points == crate::users::clamp_i32(
            proposal_of(s.proposals@, pid).points + crate::state::vote_delta(vote, status_of(s.users@[c], pid)),
        ),
        t.users.key_of_id(proposal_of(s.proposals@, pid).created_by_id) == s.users.key_of_id(
            proposal_of(s.proposals@, pid).created_by_id,
        ),
        t.users@.contains_key(c),
{
    let i = choose|i: int| 0 <= i < s.proposals@.len() && (#[trigger] s.proposals@[i]).0 == pid;
    lemma_proposal_at(s.proposals@, i);
    assert(t.proposals@[i].0 == pid);
    lemma_proposal_at(t.proposals@, i);
    let a = proposal_of(s.proposals@, pid).created_by_id;
    let k = s.users.key_of_id(a);
    assert forall|q: Seq<u8>| #[trigger] s.users@.contains_key(q) implies t.users@[q].id == s.users@[q].id by {}
    s.users.lemma_same_ids(&t.users);
    assert(s.users.id_in_use(a));
}

/// Upvoting the same proposal twice returns its score and its author's karma to what they were,
/// where the voter had not downvoted it and no score or karma reaches the bounds of `i32`.
pub proof fn lemma_upvote_twice_cancels(
    s0: State,
    s1: State,
    s2: State,
    c: Seq<u8>,
    pid: u32,
    now1: u64,
    now2: u64,
)
    requires
        s0.wf(),
        s1.wf(),
        s2.wf(),
        has_proposal(s0.proposals@, pid),
        s0.users@.contains_key(c),
        status_of(s0.users@[c], pid) != UpvoteStatus::Downvoted,
        i32::MIN + 2 <= proposal_of(s0.proposals@, pid).points <= i32::MAX - 2,
        i32::MIN + 2 <= s0.users@[s0.users.key_of_id(proposal_of(s0.proposals@, pid).created_by_id)].karma
            <= i32::MAX - 2,
        vote_applied(s0, s1, c, pid, Vote::Upvote, now1),
        vote_applied(s1, s2, c, pid, Vote::Upvote, now2),
    ensures
        has_proposal(s2.proposals@, pid),
        proposal_of(s2.proposals@, pid).points == proposal_of(s0.proposals@, pid).points,
        s2.users@[s0.users.key_of_id(proposal_of(s0.proposals@, pid).created_by_id)].karma
            == s0.users@[s0.users.key_of_id(proposal_of(s0.proposals@, pid).created_by_id)].karma,
        status_of(s2.users@[c], pid) == status_of(s0.users@[c], pid),
{
    lemma_vote_keeps_keys(s0, s1, c, pid, Vote::Upvote, now1);
    lemma_vote_keeps_keys(s1, s2, c, pid, Vote::Upvote, now2);
}

/// A downvote followed by an upvote by the same voter: the upvote raises the proposal's score and
/// its author's karma by two, where the voter had no downvote on it before and neither value
/// comes near the bounds of `i32`.
pub proof fn lemma_downvote_then_upvote(
    s0: State,
    s1: State,
    s2: State,
    c: Seq<u8>,
    pid: u32,
    now1: u64,
    now2: u64,
)
    requires
        s0.wf(),
        s1.wf(),
        s2.wf(),
        has_proposal(s0.proposals@, pid),
        s0.users@.contains_key(c),
        status_of(s0.users@[c], pid) != UpvoteStatus::Downvoted,
        i32::MIN + 4 <= proposal_of(s0.proposals@, pid).points <= i32::MAX - 4,
        i32::MIN + 4 <= s0.users@[s0.users.key_of_id(proposal_of(s0.proposals@, pid).created_by_id)].karma
            <= i32::MAX - 4,
        vote_applied(s0, s1, c, pid, Vote::Downvote, now1),
        vote_applied(s1, s2, c, pid, Vote::Upvote, now2),
    ensures
        status_of(s1.users@[c], pid) == UpvoteStatus::Downvoted,
        proposal_of(s2.proposals@, pid).points == proposal_of(s1.proposals@, pid).points + 2,
        s2.users@[s0.users.key_of_id(proposal_of(s0.proposals@, pid).created_by_id)].karma
            == s1.users@[s0.users.key_of_id(proposal_of(s0.proposals@, pid).created_by_id)].karma + 2,
        status_of(s2.users@[c], pid) == UpvoteStatus::Upvoted,
{
    lemma_vote_keeps_keys(s0, s1, c, pid, Vote::Downvote, now1);
    lemma_vote_keeps_keys(s1, s2, c, pid, Vote::Upvote, now2);
}

/// After a round is concluded every remaining proposal has a score of exactly one and is upvoted
/// by its author; every other proposal that had a score of one or more is among them, and none
/// that had a score below one is.
pub proof fn lemma_conclusion_sweep(s: State, t: State, w: int)
    requires
        s.wf(),
        t.wf(),
        is_winner(s.proposals@, w),
        concluded(s, t, w),
    ensures
        forall|i: int|
            0 <= i < t.proposals@.len() ==> (#[trigger] t.proposals@[i]).1.points == 1
                && t.users@[s.users.key_of_id(t.proposals@[i].1.created_by_id)].upvotes@.contains(t.proposals@[i].0),
        forall|i: int|
            0 <= i < s.proposals@.len() && i != w && s.proposals@[i].1.points >= 1 ==> has_proposal(
                t.proposals@,
                (#[trigger] s.proposals@[i]).0,
            ) && proposal_of(t.proposals@, s.proposals@[i].0) == (Proposal {
                points: 1,
                ..s.proposals@[i].1
            }),
        forall|i: int|
            0 <= i < s.proposals@.len() && s.proposals@[i].1.points < 1 ==> !has_proposal(
                t.proposals@,
                (#[trigger] s.proposals@[i]).0,
            ),
{
    let r = s.proposals@.remove(w);
    let keep = |e: (u32, Proposal)| survives(e);
    let reset = |e: (u32, Proposal)| reset_points(e);
    let f = r.filter(keep);
    assert(t.proposals@ == f.map_values(reset));
    assert forall|i: int| 0 <= i < r.len() implies #[trigger] r[i] == s.proposals@[if i < w { i } else { i + 1 }] by {}
    assert forall|i: int| 0 <= i < t.proposals@.len() implies (#[trigger] t.proposals@[i]).1.points == 1
        && t.users@[s.users.key_of_id(t.proposals@[i].1.created_by_id)].upvotes@.contains(t.proposals@[i].0) by {
        let e = t.proposals@[i];
        assert(e == reset_points(f[i]));
        assert(f.contains(f[i]));
        r.lemma_filter_contains_rev(keep, f[i]);
        let j = choose|j: int| 0 <= j < r.len() && r[j] == f[i];
        let j1 = if j < w { j } else { j + 1 };
        assert(s.users.id_in_use(s.proposals@[j1].1.created_by_id));
        let q = s.users.key_of_id(e.1.created_by_id);
        assert(crate::state::authored_in(t.proposals@, s.users, q, e.0));
        assert(t.users@.contains_key(q));
    }
    assert forall|i: int|
        0 <= i < s.proposals@.len() && i != w && s.proposals@[i].1.points >= 1 implies has_proposal(
            t.proposals@,
            (#[trigger] s.proposals@[i]).0,
        ) && proposal_of(t.proposals@, s.proposals@[i].0) == (Proposal { points: 1, ..s.proposals@[i].1 }) by {
        let j = if i < w { i } else { i - 1 };
        assert(r[j] == s.proposals@[i]);
        r.lemma_filter_contains(keep, j);
        let k = choose|k: int| 0 <= k < f.len() && f[k] == r[j];
        assert(t.proposals@[k] == reset_points(s.proposals@[i]));
        lemma_proposal_at(t.proposals@, k);
    }
    assert forall|i: int|
        0 <= i < s.proposals@.len() && s.proposals@[i].1.points < 1 implies !has_proposal(
            t.proposals@,
            (#[trigger] s.proposals@[i]).0,
        ) by {
        if has_proposal(t.proposals@, s.proposals@[i].0) {
            let k = choose|k: int| 0 <= k < t.proposals@.len() && (#[trigger] t.proposals@[k]).0 == s.proposals@[i].0;
            assert(t.proposals@[k] == reset_points(f[k]));
            assert(f.contains(f[k]));
            r.lemma_filter_contains_rev(keep, f[k]);
            r.lemma_filter_pred(keep, k);
            let j = choose|j: int| 0 <= j < r.len() && r[j] == f[k];
            let j1 = if j < w { j } else { j + 1 };
            assert(s.proposals@[j1].0 == s.proposals@[i].0);
            if j1 < i {
                assert(s.proposals@[j1].0 < s.proposals@[i].0);
            } else if j1 > i {
                assert(s.proposals@[i].0 < s.proposals@[j1].0);
            }
        }
    }
}

/// A round has at most one winner.
pub proof fn lemma_winner_unique(s: Seq<(u32, Proposal)>, w1: int, w2: int)
    requires
        is_winner(s, w1),
        is_winner(s, w2),
    ensures
        w1 == w2,
{
    if w1 < w2 {
        assert(s[w1].1.points < s[w2].1.points);
    } else if w2 < w1 {
        assert(s[w2].1.points < s[w1].1.points);
    }
}

/// The winner has the highest score, and among the proposals with that score the lowest id.
pub proof fn lemma_winner_lowest_id(s: Seq<(u32, Proposal)>, w: int)
    requires
        ids_increasing(s),
        is_winner(s, w),
    ensures
        forall|i: int| 0 <= i < s.len() ==> (#[trigger] s[i]).1.points <= s[w].1.points,
        forall|i: int| 0 <= i < s.len() && (#[trigger] s[i]).1.points == s[w].1.points ==> s[w].0 <= s[i].0,
{
    assert forall|i: int| 0 <= i < s.len() && (#[trigger] s[i]).1.points == s[w].1.points implies s[w].0 <= s[i].0 by {
        if i > w {
            assert(s[w].0 < s[i].0);
        }
    }
}

} // verus!
