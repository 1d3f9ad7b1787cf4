use vstd::prelude::*;

use crate::principal::Principal;
use crate::proposals::{report_count, reported_by, text_of, Proposal, ProposalInfo, RoundResult, Tweet};
use vstd::string::StrSliceExecFns;
use crate::users::{
    after_downvote, after_upvote, clamp_i32, clamp_u64, downvote_delta, saturating_add_i32, status_of,
    upvote_delta, LoginMethod, UpvoteStatus, User, Users, WithdrawalInfo,
};
use crate::Error;

verus! {

#[derive(Debug)]
pub struct Settings {
    pub round_duration_seconds: u64,
    pub max_state_size_bytes: u32,
    pub reward_per_round_e8s: u64,
    pub max_proposals_per_round: u32,
    pub max_proposals_per_user: u32,
    pub max_tweet_length: u32,
}

#[derive(Debug)]
pub struct Payment {
    pub block_index: u64,
    pub user_id: u32,
    pub time: u64,
}

#[derive(Clone, Copy, Debug, PartialEq, Eq, Structural)]
pub enum Vote {
    Upvote,
    Downvote,
}

/// The score change that `vote` causes for a voter who held `s` before it.
pub open spec fn vote_delta(vote: Vote, s: crate::users::UpvoteStatus) -> int {
    match vote {
        Vote::Upvote => upvote_delta(s),
        Vote::Downvote => downvote_delta(s),
    }
}

/// The vote held after `vote`, for a voter who held `s` before it.
pub open spec fn vote_after(vote: Vote, s: crate::users::UpvoteStatus) -> crate::users::UpvoteStatus {
    match vote {
        Vote::Upvote => after_upvote(s),
        Vote::Downvote => after_downvote(s),
    }
}

/// The karma change of a proposal's author: the score change for an upvote, its negation for a
/// downvote. So a first downvote, which lowers the score by one, raises the author's karma by one;
/// this asymmetry is kept on purpose.
pub open spec fn karma_delta(vote: Vote, s: crate::users::UpvoteStatus) -> int {
    match vote {
        Vote::Upvote => upvote_delta(s),
        Vote::Downvote => -downvote_delta(s),
    }
}

pub open spec fn has_proposal(s: Seq<(u32, Proposal)>, id: u32) -> bool {
    exists|i: int| 0 <= i < s.len() && (#[trigger] s[i]).0 == id
}

/// The proposal stored under `id`.
pub open spec fn proposal_of(s: Seq<(u32, Proposal)>, id: u32) -> Proposal {
    s[choose|i: int| 0 <= i < s.len() && (#[trigger] s[i]).0 == id].1
}

/// Ids held in increasing order.
pub open spec fn ids_increasing(s: Seq<(u32, Proposal)>) -> bool {
    forall|i: int, j: int| 0 <= i < j < s.len() ==> (#[trigger] s[i]).0 < (#[trigger] s[j]).0
}

pub proof fn lemma_proposal_at(s: Seq<(u32, Proposal)>, i: int)
    requires
        ids_increasing(s),
        0 <= i < s.len(),
    ensures
        has_proposal(s, s[i].0),
        proposal_of(s, s[i].0) == s[i].1,
{
    assert(has_proposal(s, s[i].0));
    let j = choose|j: int| 0 <= j < s.len() && (#[trigger] s[j]).0 == s[i].0;
    if j < i {
        assert(s[j].0 < s[i].0);
    } else if j > i {
        assert(s[i].0 < s[j].0);
    }
}

/// What a vote by `caller` on proposal `proposal_id` does, where both exist: the proposal's score
/// and its author's karma move by the vote's delta, the voter's vote on it changes, and nothing
/// else does.
pub open spec fn vote_applied(s: State, t: State, caller: Seq<u8>, proposal_id: u32, vote: Vote, now: u64) -> bool {
    let u = s.users@[caller];
    let st = status_of(u, proposal_id);
    let k = s.users.key_of_id(proposal_of(s.proposals@, proposal_id).created_by_id);
    &&& t == State { users: t.users, proposals: t.proposals, ..s }
    &&& t.proposals@.len() == s.proposals@.len()
    &&& forall|i: int|
        0 <= i < s.proposals@.len() ==> #[trigger] t.proposals@[i] == if s.proposals@[i].0 == proposal_id {
            (
                proposal_id,
                Proposal {
                    points: clamp_i32(s.proposals@[i].1.points + vote_delta(vote, st)),
                    ..s.proposals@[i].1
                },
            )
        } else {
            s.proposals@[i]
        }
    &&& forall|q: Seq<u8>| #[trigger] t.users@.contains_key(q) <==> s.users@.contains_key(q)
    &&& forall|q: Seq<u8>|
        #[trigger] s.users@.contains_key(q) && q != caller && q != k ==> t.users@[q] == s.users@[q]
    &&& status_of(t.users@[caller], proposal_id) == vote_after(vote, st)
    &&& t.users@[caller].same_votes_except(u, proposal_id)
    &&& t.users@[caller].same_profile(u)
    &&& t.users@[caller].nr_posts_this_round == u.nr_posts_this_round
    &&& t.users@[caller].last_updated == now
    &&& t.users@[k].karma == clamp_i32(s.users@[k].karma + karma_delta(vote, st))
    &&& caller != k ==> t.users@[caller].karma == u.karma && t.users@[k] == User {
        karma: clamp_i32(s.users@[k].karma + karma_delta(vote, st)),
        ..s.users@[k]
    }
}

/// A proposal that is carried over into the next round: one whose score is at least one.
pub open spec fn survives(e: (u32, Proposal)) -> bool {
    e.1.points >= 1
}

/// A carried-over proposal starts the next round with a score of one.
pub open spec fn reset_points(e: (u32, Proposal)) -> (u32, Proposal) {
    (e.0, Proposal { points: 1, ..e.1 })
}

/// The proposals kept for the next round, in the same order, each with a score of one.
pub open spec fn carried_over(s: Seq<(u32, Proposal)>) -> Seq<(u32, Proposal)> {
    s.filter(|e: (u32, Proposal)| survives(e)).map_values(|e: (u32, Proposal)| reset_points(e))
}

/// Whether `t` holds a proposal with id `x` whose author is the user under `q`.
pub open spec fn authored_in(t: Seq<(u32, Proposal)>, users: Users, q: Seq<u8>, x: u32) -> bool {
    exists|i: int| 0 <= i < t.len() && (#[trigger] t[i]).0 == x && users.key_of_id(t[i].1.created_by_id) == q
}

/// Position `w` holds the round's winner: a highest score, and no proposal before it (with a
/// lower id) has that score.
pub open spec fn is_winner(s: Seq<(u32, Proposal)>, w: int) -> bool {
    &&& 0 <= w < s.len()
    &&& forall|i: int| 0 <= i < s.len() ==> (#[trigger] s[i]).1.points <= s[w].1.points
    &&& forall|i: int| 0 <= i < w ==> (#[trigger] s[i]).1.points < s[w].1.points
}

/// The user record of the round's winning author after the payout.
pub open spec fn rewarded(u: User, amount: u64) -> User {
    User {
        karma: clamp_i32(u.karma + crate::users::WINNER_KARMA),
        withdrawable_e8s: clamp_u64(u.withdrawable_e8s + amount),
        ..u
    }
}

/// What concluding a round with the proposal at position `w` as winner does.
pub open spec fn concluded(s: State, t: State, w: int) -> bool {
    let win = s.proposals@[w];
    let k = s.users.key_of_id(win.1.created_by_id);
    &&& t == State { users: t.users, proposals: t.proposals, round_results: t.round_results, ..s }
    &&& t.round_results@.len() == s.round_results@.len() + 1
    &&& forall|i: int| 0 <= i < s.round_results@.len() ==> #[trigger] t.round_results@[i] == s.round_results@[i]
    &&& t.round_results@.last() == RoundResult {
        round_id: s.round_results@.len() as u32,
        winning_proposal: win.1,
        proposal_tweeted: false,
    }
    &&& t.proposals@ == carried_over(s.proposals@.remove(w))
    &&& forall|q: Seq<u8>| #[trigger] t.users@.contains_key(q) <==> s.users@.contains_key(q)
    &&& forall|q: Seq<u8>| #[trigger] s.users@.contains_key(q) ==> {
        let u = if q == k {
            rewarded(s.users@[q], s.settings.reward_per_round_e8s)
        } else {
            s.users@[q]
        };
        let v = t.users@[q];
        &&& v.same_account(u)
        &&& v.last_updated == u.last_updated
        &&& v.nr_posts_this_round == 0
        &&& v.downvotes@.len() == 0
        &&& forall|x: u32| #[trigger] v.upvotes@.contains(x) == authored_in(t.proposals@, s.users, q, x)
    }
}

/// How a transfer of a staged withdrawal ended.
#[derive(Debug)]
pub enum TransferOutcome {
    /// The ledger settled it in the block with this index.
    Settled(u64),
    /// The ledger refused it, for this reason.
    Rejected(String),
    /// The call to the ledger itself failed, with this message.
    CallFailed(String),
}

#[verifier::external_type_specification]
#[verifier::external_body]
pub struct ExTransferError(ic_ledger_types::TransferError);

/// Relies on the `Display` impl of `ic_ledger_types::TransferError`: a sentence that explains why
/// the ledger refused a transfer, never empty.
#[verifier::external_body]
fn transfer_error_text(e: &ic_ledger_types::TransferError) -> (r: String)
    ensures
        r@.len() > 0,
{
    e.to_string()
}

impl TransferOutcome {
    /// The outcome of a transfer call that reached the ledger: the block index it settled in, or
    /// the reason the ledger gave for refusing it.
    pub fn from_ledger(result: Result<u64, ic_ledger_types::TransferError>) -> (r: TransferOutcome)
        ensures
            result matches Ok(i) ==> r == TransferOutcome::Settled(i),
            result is Err ==> (r matches TransferOutcome::Rejected(m) && m@.len() > 0),
    {
        match result {
            Ok(index) => TransferOutcome::Settled(index),
            Err(e) => TransferOutcome::Rejected(transfer_error_text(&e)),
        }
    }
}

/// Replacing the registry by one with the same identities, ids and votes keeps the state
/// well formed.
pub proof fn lemma_users_replaced(s: State, t: State)
    requires
        s.wf(),
        t.users.wf(),
        t == (State { users: t.users, ..s }),
        forall|q: Seq<u8>| #[trigger] t.users@.contains_key(q) <==> s.users@.contains_key(q),
        forall|q: Seq<u8>| #[trigger] s.users@.contains_key(q) ==> t.users@[q].id == s.users@[q].id
            && t.users@[q].upvotes@ == s.users@[q].upvotes@ && t.users@[q].downvotes@ == s.users@[q].downvotes@,
    ensures
        t.wf(),
{
    s.users.lemma_same_ids(&t.users);
    assert forall|i: int| 0 <= i < t.proposals@.len() implies t.users.id_in_use(
        (#[trigger] t.proposals@[i]).1.created_by_id,
    ) by {
        assert(s.users.id_in_use(s.proposals@[i].1.created_by_id));
    }
    assert forall|p: Seq<u8>, x: u32|
        t.users@.contains_key(p) && #[trigger] status_of(t.users@[p], x)
            != crate::users::UpvoteStatus::NotVoted implies x < t.next_proposal_id by {
        assert(status_of(t.users@[p], x) == status_of(s.users@[p], x));
    }
}

/// The whole state of the governance engine.
pub struct State {
    pub next_user_id: u32,
    pub users: Users,
    pub next_proposal_id: u32,
    pub proposals: Vec<(u32, Proposal)>,
    pub round_results: Vec<RoundResult>,
    pub payment_history: Vec<Payment>,
    pub settings: Settings,
    pub round_end_time: u64,
    pub last_user_backup: u64,
    pub admin: Principal,
}

/// The length of a round a fresh state starts with, in seconds.
pub const INITIAL_ROUND_SECONDS: u64 = 43200;

/// The length of a round forced after every restore from a snapshot, in seconds.
pub const RESTORED_ROUND_SECONDS: u64 = 90000;

/// The longest proposal text, in characters, whatever the settings say.
pub const MAX_TWEET_CHARS: usize = 280;

/// The longest display name, in characters.
pub const MAX_USERNAME_CHARS: usize = 15;

/// Accounts created while the next numeric id is at most this get the early-member badge.
pub const EARLY_MEMBER_LIMIT: u32 = 1000;

/// `now` plus `secs` seconds in nanoseconds, held to the range of `u64`.
pub open spec fn deadline(now: u64, secs: u64) -> u64 {
    if now + secs * 1000000000 > u64::MAX {
        u64::MAX
    } else {
        (now + secs * 1000000000) as u64
    }
}

pub fn deadline_after(now: u64, secs: u64) -> (r: u64)
    ensures
        r == deadline(now, secs),
{
    if secs > u64::MAX / crate::NANOS_PER_SEC {
        proof {
            assert(secs * 1000000000 > u64::MAX) by (nonlinear_arith)
                requires
                    secs > u64::MAX / 1000000000,
            ;
        }
        u64::MAX
    } else {
        proof {
            assert(secs * 1000000000 <= u64::MAX) by (nonlinear_arith)
                requires
                    secs <= u64::MAX / 1000000000,
            ;
        }
        now.saturating_add(crate::sec_to_nanos(secs))
    }
}

impl State {
    pub open spec fn wf(&self) -> bool {
        &&& self.users.wf()
        &&& ids_increasing(self.proposals@)
        &&& forall|i: int|
            0 <= i < self.proposals@.len() ==> (#[trigger] self.proposals@[i]).0 < self.next_proposal_id
        &&& forall|i: int|
            0 <= i < self.proposals@.len() ==> self.users.id_in_use(
                (#[trigger] self.proposals@[i]).1.created_by_id,
            )
        &&& forall|p: Seq<u8>| #[trigger] self.users@.contains_key(p) ==> self.users@[p].id < self.next_user_id
        &&& forall|p: Seq<u8>, x: u32|
            self.users@.contains_key(p) && #[trigger] status_of(self.users@[p], x)
                != crate::users::UpvoteStatus::NotVoted ==> x < self.next_proposal_id
        &&& forall|i: int| 0 <= i < self.proposals@.len() ==> (#[trigger] self.proposals@[i]).1.reports_distinct()
    }

    /// A fresh state with no users and no proposals, administered by `admin`.
    pub fn new(admin: Principal, now: u64) -> (r: State)
        ensures
            r.wf(),
            r.admin@ == admin@,
            r.next_user_id == 1,
            r.next_proposal_id == 0,
            r.users@ == Map::<Seq<u8>, User>::empty(),
            r.proposals@.len() == 0,
            r.round_results@.len() == 0,
            r.payment_history@.len() == 0,
            r.settings.round_duration_seconds == INITIAL_ROUND_SECONDS,
            r.settings.max_state_size_bytes == 1000000000,
            r.settings.reward_per_round_e8s == 100000000,
            r.settings.max_proposals_per_round == 1500,
            r.settings.max_proposals_per_user == 5,
            r.settings.max_tweet_length == 280,
            r.round_end_time == deadline(now, INITIAL_ROUND_SECONDS),
            r.last_user_backup == 0,
    {
        State {
            next_user_id: 1,
            users: Users::new(),
            next_proposal_id: 0,
            proposals: Vec::new(),
            round_results: Vec::new(),
            payment_history: Vec::new(),
            settings: Settings {
                round_duration_seconds: INITIAL_ROUND_SECONDS,
                max_state_size_bytes: 1000000000,
                reward_per_round_e8s: 100000000,
                max_proposals_per_round: 1500,
                max_proposals_per_user: 5,
                max_tweet_length: 280,
            },
            round_end_time: deadline_after(now, INITIAL_ROUND_SECONDS),
            last_user_backup: 0,
            admin,
        }
    }

    /// Succeeds only for the administrative identity.
    pub fn check_if_admin(&self, caller: &Principal) -> (r: Result<(), Error>)
        ensures
            r.is_ok() == (caller@ == self.admin@),
            r.is_err() ==> r matches Err(Error::NoPermission),
    {
        if self.admin.same_as(caller) {
            Ok(())
        } else {
            Err(Error::NoPermission)
        }
    }

    /// The position of the proposal with id `id`.
    fn find_proposal(&self, id: u32) -> (r: Option<usize>)
        requires
            ids_increasing(self.proposals@),
        ensures
            r.is_some() == has_proposal(self.proposals@, id),
            r matches Some(i) ==> i < self.proposals@.len() && self.proposals@[i as int].0 == id
                && proposal_of(self.proposals@, id) == self.proposals@[i as int].1,
    {
        let mut i: usize = 0;
        while i < self.proposals.len()
            invariant
                ids_increasing(self.proposals@),
                0 <= i <= self.proposals@.len(),
                forall|j: int| 0 <= j < i ==> (#[trigger] self.proposals@[j]).0 != id,
            decreases self.proposals@.len() - i,
        {
            if self.proposals[i].0 == id {
                proof { lemma_proposal_at(self.proposals@, i as int); }
                return Some(i);
            }
            i = i + 1;
        }
        None
    }
    /// Casts `vote` by `caller` on proposal `proposal_id`; voting the same way twice takes the
    /// vote back.
    pub fn vote_for_proposal(&mut self, caller: &Principal, proposal_id: u32, vote: Vote, now: u64) -> (r:
        Result<(), Error>)
        requires
            old(self).wf(),
        ensures
            final(self).wf(),
            !has_proposal(old(self).proposals@, proposal_id) ==> (r matches Err(
                Error::ProposalDoesNotExist,
            )) && *final(self) == *old(self),
            has_proposal(old(self).proposals@, proposal_id) && !old(self).users@.contains_key(caller@) ==> (r matches Err(
                Error::UserDoesNotExist,
            )) && *final(self) == *old(self),
            has_proposal(old(self).proposals@, proposal_id) && old(self).users@.contains_key(caller@) ==> r is Ok
                && vote_applied(*old(self), *final(self), caller@, proposal_id, vote, now),
    {
        let j = match self.find_proposal(proposal_id) {
            Some(j) => j,
            None => return Err(Error::ProposalDoesNotExist),
        };
        let created_by = self.proposals[j].1.created_by_id;
        let ghost s0 = *self;
        proof {
            assert(self.users.id_in_use(created_by));
        }
        let delta = match vote {
            Vote::Upvote => self.users.get_upvote_delta(caller, proposal_id, now),
            Vote::Downvote => self.users.get_downvote_delta(caller, proposal_id, now),
        };
        let delta = match delta {
            Ok(d) => d,
            Err(e) => return Err(e),
        };
        let ghost mid = self.users;
        proof {
            s0.users.lemma_same_ids(&mid);
        }
        let points = saturating_add_i32(self.proposals[j].1.points, delta);
        self.proposals[j].1.points = points;
        let karma_change: i32 = match vote {
            Vote::Upvote => delta,
            Vote::Downvote => -delta,
        };
        let found = self.users.add_karma_by_id(created_by, karma_change);
        proof {
            mid.lemma_same_ids(&self.users);
            assert(found);
            let k = s0.users.key_of_id(created_by);
            assert(k == mid.key_of_id(created_by));
            assert forall|i: int| 0 <= i < self.proposals@.len() implies self.users.id_in_use(
                (#[trigger] self.proposals@[i]).1.created_by_id,
            ) by {
                assert(s0.users.id_in_use(s0.proposals@[i].1.created_by_id));
            }
            assert forall|q: Seq<u8>| #[trigger] self.users@.contains_key(q) implies self.users@[q].id
                < self.next_user_id by {
                assert(s0.users@.contains_key(q));
            }
            assert forall|i: int, i2: int| 0 <= i < i2 < self.proposals@.len() implies (#[trigger] self.proposals@[i]).0
                < (#[trigger] self.proposals@[i2]).0 by {
                assert(s0.proposals@[i].0 < s0.proposals@[i2].0);
            }
            lemma_proposal_at(s0.proposals@, j as int);
            assert forall|p: Seq<u8>, x: u32|
                self.users@.contains_key(p) && #[trigger] status_of(self.users@[p], x)
                    != crate::users::UpvoteStatus::NotVoted implies x < self.next_proposal_id by {
                assert(s0.proposals@[j as int].0 < s0.next_proposal_id);
                if x != proposal_id {
                    assert(status_of(self.users@[p], x) == status_of(s0.users@[p], x));
                }
            }
        }
        Ok(())
    }
    /// Adds a proposal by `caller` with content `tweet`, upvoted by its author, and returns its id.
    pub fn create_proposal(&mut self, caller: &Principal, tweet: Tweet, now: u64) -> (r: Result<u32, Error>)
        requires
            old(self).wf(),
            old(self).next_proposal_id < u32::MAX,
        ensures
            final(self).wf(),
            r.is_err() ==> *final(self) == *old(self),
            old(self).proposals@.len() >= old(self).settings.max_proposals_per_round ==> r matches Err(
                Error::ProposalLimitReached,
            ),
            old(self).proposals@.len() < old(self).settings.max_proposals_per_round && !old(self).users@.contains_key(caller@)
                ==> r matches Err(Error::UserDoesNotExist),
            old(self).proposals@.len() < old(self).settings.max_proposals_per_round && old(self).users@.contains_key(caller@)
                ==> {
                let u = old(self).users@[caller@];
                if u.nr_posts_this_round >= old(self).settings.max_proposals_per_user {
                    r matches Err(Error::UserProposalLimitReached)
                } else if text_of(tweet).len() > MAX_TWEET_CHARS {
                    r matches Err(Error::TweetTooLong)
                } else {
                    let id = old(self).next_proposal_id;
                    let v = final(self).users@[caller@];
                    let added = final(self).proposals@.last().1;
                    &&& r == Ok::<u32, Error>(id)
                    &&& final(self).next_proposal_id == id + 1
                    &&& final(self).proposals@.len() == old(self).proposals@.len() + 1
                    &&& forall|i: int|
                        0 <= i < old(self).proposals@.len() ==> #[trigger] final(self).proposals@[i]
                            == old(self).proposals@[i]
                    &&& final(self).proposals@.last().0 == id
                    &&& added.tweet == tweet
                    &&& added.points == 1
                    &&& added.created_by_id == u.id
                    &&& added.created_at == now
                    &&& added.reports@.len() == 0
                    &&& final(self).users@ == old(self).users@.insert(caller@, v)
                    &&& v.karma == clamp_i32(u.karma + 1)
                    &&& v.nr_posts_this_round == u.nr_posts_this_round + 1
                    &&& status_of(v, id) == crate::users::UpvoteStatus::Upvoted
                    &&& v.same_votes_except(u, id)
                    &&& v.same_profile(u)
                    &&& v.last_updated == now
                    &&& *final(self) == State {
                        users: final(self).users,
                        proposals: final(self).proposals,
                        next_proposal_id: final(self).next_proposal_id,
                        ..*old(self)
                    }
                }
            },
    {
        if self.proposals.len() >= self.settings.max_proposals_per_round as usize {
            return Err(Error::ProposalLimitReached);
        }
        let (user_id, posts) = match self.users.get(caller) {
            Some(u) => (u.id, u.nr_posts_this_round),
            None => return Err(Error::UserDoesNotExist),
        };
        if posts >= self.settings.max_proposals_per_user {
            return Err(Error::UserProposalLimitReached);
        }
        if tweet.get_tweet().as_str().unicode_len() > MAX_TWEET_CHARS {
            return Err(Error::TweetTooLong);
        }
        let ghost s0 = *self;
        let proposal_id = self.next_proposal_id;
        self.proposals.push(
            (
                proposal_id,
                Proposal {
                    tweet,
                    points: 0,
                    created_by_id: user_id,
                    created_at: now,
                    reports: Vec::new(),
                },
            ),
        );
        self.next_proposal_id = proposal_id + 1;
        let found = self.users.count_post(caller);
        let ghost s1 = *self;
        proof {
            let u = s0.users@[caller@];
            s0.users.lemma_same_ids(&s1.users);
            s0.users.lemma_votes_wf(caller@);
            assert(status_of(u, proposal_id) == crate::users::UpvoteStatus::NotVoted);
            assert(s1.users.key_of_id(user_id) == caller@) by {
                s1.users.lemma_id_unique(s1.users.key_of_id(user_id), caller@);
            }
            assert forall|i: int, i2: int| 0 <= i < i2 < s1.proposals@.len() implies (#[trigger] s1.proposals@[i]).0
                < (#[trigger] s1.proposals@[i2]).0 by {
                if i2 < s0.proposals@.len() {
                    assert(s0.proposals@[i].0 < s0.proposals@[i2].0);
                } else {
                    assert(s0.proposals@[i].0 < s0.next_proposal_id);
                }
            }
            assert forall|i: int| 0 <= i < s1.proposals@.len() implies (#[trigger] s1.proposals@[i]).0 < s1.next_proposal_id
                && s1.users.id_in_use(s1.proposals@[i].1.created_by_id) by {
                if i < s0.proposals@.len() {
                    assert(s0.proposals@[i] == s1.proposals@[i]);
                    assert(s0.users.id_in_use(s0.proposals@[i].1.created_by_id));
                } else {
                    assert(s1.users@.contains_key(caller@) && s1.users@[caller@].id == user_id);
                }
            }
            assert forall|p: Seq<u8>| #[trigger] s1.users@.contains_key(p) implies s1.users@[p].id < s1.next_user_id by {
                assert(s0.users@.contains_key(p));
            }
            assert forall|p: Seq<u8>, x: u32|
                s1.users@.contains_key(p) && #[trigger] status_of(s1.users@[p], x)
                    != crate::users::UpvoteStatus::NotVoted implies x < s1.next_proposal_id by {
                assert(s0.users@.contains_key(p));
                assert(status_of(s1.users@[p], x) == status_of(s0.users@[p], x));
            }
            lemma_proposal_at(s1.proposals@, s0.proposals@.len() as int);
        }
        let voted = self.vote_for_proposal(caller, proposal_id, Vote::Upvote, now);
        proof {
            assert(voted is Ok);
            let t = *self;
            assert forall|i: int| 0 <= i < s0.proposals@.len() implies #[trigger] t.proposals@[i]
                == s0.proposals@[i] by {
                assert(s1.proposals@[i] == s0.proposals@[i]);
                assert(s0.proposals@[i].0 < proposal_id);
            }
            assert(t.users@ =~= s0.users@.insert(caller@, t.users@[caller@]));
        }
        Ok(proposal_id)
    }
    /// Drops every proposal with a score below one, sets the score of every other to one, and has
    /// each remaining proposal upvoted by its author.
    pub fn remove_and_reset_proposals(&mut self)
        requires
            old(self).wf(),
        ensures
            final(self).wf(),
            final(self).proposals@ == carried_over(old(self).proposals@),
            *final(self) == (State { users: final(self).users, proposals: final(self).proposals, ..*old(self) }),
            forall|q: Seq<u8>| #[trigger] final(self).users@.contains_key(q) <==> old(self).users@.contains_key(q),
            forall|q: Seq<u8>| #[trigger] old(self).users@.contains_key(q) ==> {
                let u = old(self).users@[q];
                let v = final(self).users@[q];
                &&& v.same_record(u)
                &&& v.last_updated == u.last_updated
                &&& forall|x: u32| #[trigger] v.upvotes@.contains(x) == (u.upvotes@.contains(x) || authored_in(
                    final(self).proposals@,
                    old(self).users,
                    q,
                    x,
                ))
                &&& forall|x: u32| #[trigger] v.downvotes@.contains(x) == (u.downvotes@.contains(x) && !authored_in(
                    final(self).proposals@,
                    old(self).users,
                    q,
                    x,
                ))
            },
    {
        let ghost s0 = *self;
        let ghost keep = |e: (u32, Proposal)| survives(e);
        let ghost reset = |e: (u32, Proposal)| reset_points(e);
        let mut rest: Vec<(u32, Proposal)> = Vec::new();
        core::mem::swap(&mut rest, &mut self.proposals);
        let n = rest.len();
        let mut i: usize = 0;
        while rest.len() > 0
            invariant
                keep == (|e: (u32, Proposal)| survives(e)),
                reset == (|e: (u32, Proposal)| reset_points(e)),
                n == s0.proposals@.len(),
                i + rest@.len() == n,
                rest@ == s0.proposals@.subrange(i as int, n as int),
                self.proposals@ == s0.proposals@.subrange(0, i as int).filter(keep).map_values(reset),
                ids_increasing(self.proposals@),
                forall|j: int, k: int|
                    0 <= j < self.proposals@.len() && i <= k < n ==> (#[trigger] self.proposals@[j]).0
                        < (#[trigger] s0.proposals@[k]).0,
                forall|j: int|
                    0 <= j < self.proposals@.len() ==> (#[trigger] self.proposals@[j]).0 < s0.next_proposal_id
                        && s0.users.id_in_use(self.proposals@[j].1.created_by_id)
                        && self.proposals@[j].1.reports_distinct(),
                s0.wf(),
                self.users == s0.users,
                *self == (State { proposals: self.proposals, ..s0 }),
            decreases rest@.len(),
        {
            let ghost before = self.proposals@;
            let (id, mut proposal) = rest.remove(0);
            proof {
                assert(s0.proposals@[i as int] == (id, proposal));
            }
            if proposal.points >= 1 {
                proposal.points = 1;
                self.proposals.push((id, proposal));
            }
            proof {
                reveal(Seq::filter);
                let sub = s0.proposals@.subrange(0, i + 1);
                assert(sub.drop_last() =~= s0.proposals@.subrange(0, i as int));
                assert(sub.last() == s0.proposals@[i as int]);
                let f = s0.proposals@.subrange(0, i as int).filter(keep);
                if survives(s0.proposals@[i as int]) {
                    assert(sub.filter(keep) == f.push(s0.proposals@[i as int]));
                    assert(f.push(s0.proposals@[i as int]).map_values(reset) =~= f.map_values(reset).push(
                        reset_points(s0.proposals@[i as int]),
                    ));
                } else {
                    assert(sub.filter(keep) == f);
                }
                assert(rest@ =~= s0.proposals@.subrange(i + 1, n as int));
                assert forall|j: int, k: int|
                    0 <= j < self.proposals@.len() && i + 1 <= k < n implies (#[trigger] self.proposals@[j]).0
                        < (#[trigger] s0.proposals@[k]).0 by {
                    if j < before.len() {
                        assert(before[j].0 < s0.proposals@[k].0);
                    } else {
                        assert(s0.proposals@[i as int].0 < s0.proposals@[k].0);
                    }
                }
                assert forall|j: int| 0 <= j < self.proposals@.len() implies (#[trigger] self.proposals@[j]).0
                    < s0.next_proposal_id && s0.users.id_in_use(self.proposals@[j].1.created_by_id)
                    && self.proposals@[j].1.reports_distinct() by {
                    if j >= before.len() {
                        assert(s0.proposals@[i as int].1.reports_distinct());
                        assert(s0.proposals@[i as int].0 < s0.next_proposal_id);
                        assert(s0.users.id_in_use(s0.proposals@[i as int].1.created_by_id));
                    }
                }
                assert forall|j: int, j2: int| 0 <= j < j2 < self.proposals@.len() implies (#[trigger] self.proposals@[j]).0
                    < (#[trigger] self.proposals@[j2]).0 by {
                    if j2 >= before.len() {
                        assert(before[j].0 < s0.proposals@[i as int].0);
                    } else {
                        assert(before[j].0 < before[j2].0);
                    }
                }
            }
            i = i + 1;
        }
        proof {
            assert(s0.proposals@.subrange(0, n as int) =~= s0.proposals@);
        }
        let ghost t = self.proposals@;
        let mut j: usize = 0;
        while j < self.proposals.len()
            invariant
                self.proposals@ == t,
                ids_increasing(t),
                forall|k: int| 0 <= k < t.len() ==> (#[trigger] t[k]).0 < s0.next_proposal_id
                    && s0.users.id_in_use(t[k].1.created_by_id) && t[k].1.reports_distinct(),
                0 <= j <= t.len(),
                self.users.wf(),
                forall|q: Seq<u8>| #[trigger] self.users@.contains_key(q) <==> s0.users@.contains_key(q),
                forall|q: Seq<u8>| #[trigger] s0.users@.contains_key(q) ==> {
                    let u = s0.users@[q];
                    let v = self.users@[q];
                    &&& v.same_record(u)
                    &&& v.last_updated == u.last_updated
                    &&& forall|x: u32| #[trigger] v.upvotes@.contains(x) == (u.upvotes@.contains(x) || authored_in(
                        t.subrange(0, j as int),
                        s0.users,
                        q,
                        x,
                    ))
                    &&& forall|x: u32| #[trigger] v.downvotes@.contains(x) == (u.downvotes@.contains(x) && !authored_in(
                        t.subrange(0, j as int),
                        s0.users,
                        q,
                        x,
                    ))
                },
                s0.wf(),
                *self == (State { users: self.users, proposals: self.proposals, ..s0 }),
            decreases t.len() - j,
        {
            let id = self.proposals[j].0;
            let author = self.proposals[j].1.created_by_id;
            let ghost u0 = self.users;
            proof {
                s0.users.lemma_same_ids(&u0);
            }
            let found = self.users.add_upvote_by_id(author, id);
            proof {
                u0.lemma_same_ids(&self.users);
                let k = s0.users.key_of_id(author);
                assert(u0.key_of_id(author) == k);
                assert forall|q: Seq<u8>| #[trigger] s0.users@.contains_key(q) implies {
                    let u = s0.users@[q];
                    let v = self.users@[q];
                    &&& v.same_record(u)
                    &&& v.last_updated == u.last_updated
                    &&& forall|x: u32| #[trigger] v.upvotes@.contains(x) == (u.upvotes@.contains(x) || authored_in(
                        t.subrange(0, j + 1),
                        s0.users,
                        q,
                        x,
                    ))
                    &&& forall|x: u32| #[trigger] v.downvotes@.contains(x) == (u.downvotes@.contains(x) && !authored_in(
                        t.subrange(0, j + 1),
                        s0.users,
                        q,
                        x,
                    ))
                } by {
                    assert forall|x: u32| #[trigger] authored_in(t.subrange(0, j + 1), s0.users, q, x) == (authored_in(
                        t.subrange(0, j as int),
                        s0.users,
                        q,
                        x,
                    ) || (x == id && q == k)) by {
                        if authored_in(t.subrange(0, j + 1), s0.users, q, x) {
                            let i2 = choose|i2: int| 0 <= i2 < j + 1 && (#[trigger] t.subrange(0, j + 1)[i2]).0 == x
                                && s0.users.key_of_id(t.subrange(0, j + 1)[i2].1.created_by_id) == q;
                            if i2 < j {
                                assert(t.subrange(0, j as int)[i2] == t[i2]);
                            }
                        }
                        if authored_in(t.subrange(0, j as int), s0.users, q, x) {
                            let i2 = choose|i2: int| 0 <= i2 < j && (#[trigger] t.subrange(0, j as int)[i2]).0 == x
                                && s0.users.key_of_id(t.subrange(0, j as int)[i2].1.created_by_id) == q;
                            assert(t.subrange(0, j + 1)[i2] == t[i2]);
                        }
                        if x == id && q == k {
                            assert(t.subrange(0, j + 1)[j as int] == t[j as int]);
                        }
                    }
                    let u = s0.users@[q];
                    let w = u0@[q];
                    let v = self.users@[q];
                    if q == k {
                        self.users.lemma_votes_wf(k);
                        assert forall|x: u32| #[trigger] v.upvotes@.contains(x) == (u.upvotes@.contains(x)
                            || authored_in(t.subrange(0, j + 1), s0.users, q, x)) by {
                            if x != id {
                                assert(v.upvotes@.contains(x) == w.upvotes@.contains(x));
                                assert(w.upvotes@.contains(x) == (u.upvotes@.contains(x) || authored_in(
                                    t.subrange(0, j as int),
                                    s0.users,
                                    q,
                                    x,
                                )));
                            }
                        }
                        assert forall|x: u32| #[trigger] v.downvotes@.contains(x) == (u.downvotes@.contains(x)
                            && !authored_in(t.subrange(0, j + 1), s0.users, q, x)) by {
                            if x != id {
                                assert(v.upvotes@.contains(x) == w.upvotes@.contains(x));
                                assert(v.downvotes@.contains(x) == w.downvotes@.contains(x));
                                assert(w.downvotes@.contains(x) == (u.downvotes@.contains(x) && !authored_in(
                                    t.subrange(0, j as int),
                                    s0.users,
                                    q,
                                    x,
                                )));
                            } else {
                                assert(v.upvotes@.contains(x));
                            }
                        }
                    } else {
                        assert(v == w);
                    }
                }
            }
            j = j + 1;
        }
        proof {
            assert(t.subrange(0, t.len() as int) =~= t);
            let f = *self;
            assert forall|q: Seq<u8>| #[trigger] f.users@.contains_key(q) implies f.users@[q].id < f.next_user_id by {
                assert(s0.users@.contains_key(q));
            }
            assert forall|q: Seq<u8>, x: u32|
                f.users@.contains_key(q) && #[trigger] status_of(f.users@[q], x)
                    != crate::users::UpvoteStatus::NotVoted implies x < f.next_proposal_id by {
                assert(s0.users@.contains_key(q));
                if authored_in(t, s0.users, q, x) {
                    let i2 = choose|i2: int| 0 <= i2 < t.len() && (#[trigger] t[i2]).0 == x
                        && s0.users.key_of_id(t[i2].1.created_by_id) == q;
                } else {
                    assert(status_of(f.users@[q], x) == status_of(s0.users@[q], x));
                }
            }
            s0.users.lemma_same_ids(&f.users);
        }
    }
    /// The position of the round's winner, if there is any proposal.
    pub fn winner_index(&self) -> (r: Option<usize>)
        ensures
            r.is_none() == (self.proposals@.len() == 0),
            r matches Some(w) ==> is_winner(self.proposals@, w as int),
    {
        if self.proposals.len() == 0 {
            return None;
        }
        let mut best: usize = 0;
        let mut i: usize = 1;
        while i < self.proposals.len()
            invariant
                1 <= i <= self.proposals@.len(),
                best < i,
                forall|j: int| 0 <= j < i ==> (#[trigger] self.proposals@[j]).1.points <= self.proposals@[best as int].1.points,
                forall|j: int| 0 <= j < best ==> (#[trigger] self.proposals@[j]).1.points < self.proposals@[best as int].1.points,
            decreases self.proposals@.len() - i,
        {
            if self.proposals[i].1.points > self.proposals[best].1.points {
                best = i;
            }
            i = i + 1;
        }
        Some(best)
    }

    /// Ends the round: the winner leaves the store for the log of results, its author is paid,
    /// votes and post counts are cleared, and the other proposals are swept and carried over.
    /// With no proposal at all nothing happens.
    pub fn conclude_round(&mut self)
        requires
            old(self).wf(),
        ensures
            final(self).wf(),
            old(self).proposals@.len() == 0 ==> *final(self) == *old(self),
            old(self).proposals@.len() > 0 ==> exists|w: int| is_winner(old(self).proposals@, w) && concluded(
                *old(self),
                *final(self),
                w,
            ),
    {
        let w = match self.winner_index() {
            Some(w) => w,
            None => return ,
        };
        let ghost s0 = *self;
        let (_id, proposal) = self.proposals.remove(w);
        let author = proposal.created_by_id;
        proof {
            assert(s0.users.id_in_use(author));
        }
        let round_id = self.round_results.len() as u32;
        self.round_results.push(RoundResult { round_id, winning_proposal: proposal, proposal_tweeted: false });
        let found = self.users.reward_by_id(author, self.settings.reward_per_round_e8s);
        let ghost u1 = self.users;
        self.users.reset_round();
        let ghost s2 = *self;
        proof {
            let k = s0.users.key_of_id(author);
            s0.users.lemma_same_ids(&u1);
            u1.lemma_same_ids(&s2.users);
            assert forall|q: Seq<u8>| #[trigger] s0.users@.contains_key(q) implies s2.users@[q].id == s0.users@[q].id by {
                assert(u1@.contains_key(q));
            }
            s0.users.lemma_same_ids(&s2.users);
            let r = s0.proposals@.remove(w as int);
            assert forall|i: int| 0 <= i < r.len() implies #[trigger] r[i] == s0.proposals@[if i < w { i } else { i + 1 }] by {}
            assert forall|i: int, j: int| 0 <= i < j < r.len() implies (#[trigger] r[i]).0 < (#[trigger] r[j]).0 by {
                let i1 = if i < w { i } else { i + 1 };
                let j1 = if j < w { j } else { j + 1 };
                assert(s0.proposals@[i1].0 < s0.proposals@[j1].0);
            }
            assert forall|i: int| 0 <= i < r.len() implies (#[trigger] r[i]).0 < s2.next_proposal_id
                && s2.users.id_in_use(r[i].1.created_by_id) by {
                let i1 = if i < w { i } else { i + 1 };
                assert(s0.users.id_in_use(s0.proposals@[i1].1.created_by_id));
            }
            assert forall|q: Seq<u8>| #[trigger] s2.users@.contains_key(q) implies s2.users@[q].id < s2.next_user_id by {
                assert(s0.users@.contains_key(q));
            }
            assert forall|q: Seq<u8>, x: u32|
                s2.users@.contains_key(q) && #[trigger] status_of(s2.users@[q], x)
                    != crate::users::UpvoteStatus::NotVoted implies x < s2.next_proposal_id by {
                assert(s2.users@[q].upvotes@.len() == 0);
                assert(s2.users@[q].downvotes@.len() == 0);
            }
            assert(s2.wf());
        }
        self.remove_and_reset_proposals();
        proof {
            let t = *self;
            let k = s0.users.key_of_id(author);
            assert forall|q: Seq<u8>| #[trigger] s0.users@.contains_key(q) implies {
                let u = if q == k {
                    rewarded(s0.users@[q], s0.settings.reward_per_round_e8s)
                } else {
                    s0.users@[q]
                };
                let v = t.users@[q];
                &&& v.same_account(u)
                &&& v.last_updated == u.last_updated
                &&& v.nr_posts_this_round == 0
                &&& v.downvotes@.len() == 0
                &&& forall|x: u32| #[trigger] v.upvotes@.contains(x) == authored_in(t.proposals@, s0.users, q, x)
            } by {
                assert(u1@.contains_key(q));
                assert(s2.users@.contains_key(q));
                let v = t.users@[q];
                assert forall|x: u32| #[trigger] authored_in(t.proposals@, s2.users, q, x) == authored_in(
                    t.proposals@,
                    s0.users,
                    q,
                    x,
                ) by {
                    if authored_in(t.proposals@, s2.users, q, x) {
                        let i = choose|i: int| 0 <= i < t.proposals@.len() && (#[trigger] t.proposals@[i]).0 == x
                            && s2.users.key_of_id(t.proposals@[i].1.created_by_id) == q;
                        assert(s2.users.id_in_use(t.proposals@[i].1.created_by_id));
                    }
                    if authored_in(t.proposals@, s0.users, q, x) {
                        let i = choose|i: int| 0 <= i < t.proposals@.len() && (#[trigger] t.proposals@[i]).0 == x
                            && s0.users.key_of_id(t.proposals@[i].1.created_by_id) == q;
                        assert(t.wf());
                        assert(t.users.id_in_use(t.proposals@[i].1.created_by_id));
                        assert forall|q2: Seq<u8>| #[trigger] s2.users@.contains_key(q2) implies t.users@[q2].id
                            == s2.users@[q2].id by {}
                        s2.users.lemma_same_ids(&t.users);
                    }
                }
                assert forall|x: u32| #[trigger] v.upvotes@.contains(x) implies authored_in(t.proposals@, s0.users, q, x) by {
                    assert(!s2.users@[q].upvotes@.contains(x));
                }
                assert forall|x: u32| authored_in(t.proposals@, s0.users, q, x) implies #[trigger] v.upvotes@.contains(x) by {}
                if v.downvotes@.len() != 0 {
                    assert(v.downvotes@.contains(v.downvotes@[0]));
                    assert(!s2.users@[q].downvotes@.contains(v.downvotes@[0]));
                }
            }
            assert(t.round_results@ == s0.round_results@.push(RoundResult { round_id, winning_proposal: s0.proposals@[w as int].1, proposal_tweeted: false }));
            assert(concluded(s0, t, w as int));
        }
    }

    /// The timer's work at the end of a round: conclude it and set when the next one ends.
    pub fn on_round_timer(&mut self, now: u64)
        requires
            old(self).wf(),
        ensures
            final(self).wf(),
            final(self).round_end_time == deadline(now, old(self).settings.round_duration_seconds),
            old(self).proposals@.len() == 0 ==> *final(self) == (State { round_end_time: final(self).round_end_time, ..*old(self) }),
            old(self).proposals@.len() > 0 ==> exists|w: int| is_winner(old(self).proposals@, w) && concluded(
                *old(self),
                State { round_end_time: old(self).round_end_time, ..*final(self) },
                w,
            ),
    {
        self.conclude_round();
        self.round_end_time = deadline_after(now, self.settings.round_duration_seconds);
    }

    /// What follows every restore from a snapshot: a fixed round length, and the round's end
    /// counted anew from `now`.
    pub fn after_restore(&mut self, now: u64)
        requires
            old(self).wf(),
        ensures
            final(self).wf(),
            final(self).settings.round_duration_seconds == RESTORED_ROUND_SECONDS,
            final(self).round_end_time == deadline(now, RESTORED_ROUND_SECONDS),
            *final(self) == (State {
                settings: Settings { round_duration_seconds: RESTORED_ROUND_SECONDS, ..old(self).settings },
                round_end_time: final(self).round_end_time,
                ..*old(self)
            }),
    {
        self.settings.round_duration_seconds = RESTORED_ROUND_SECONDS;
        self.round_end_time = deadline_after(now, RESTORED_ROUND_SECONDS);
    }
    /// First step of a withdrawal: takes the whole balance of `caller` and marks a payment as in
    /// flight.
    pub fn stage_payment(&mut self, caller: &Principal, now: u64) -> (r: Result<WithdrawalInfo, Error>)
        requires
            old(self).wf(),
        ensures
            final(self).wf(),
            r.is_err() ==> *final(self) == *old(self),
            !old(self).users@.contains_key(caller@) ==> r matches Err(Error::UserDoesNotExist),
            old(self).users@.contains_key(caller@) ==> {
                let u = old(self).users@[caller@];
                if u.withdrawable_e8s == 0 {
                    r matches Err(Error::NoWithdrawableE8s)
                } else if u.deposit_address.is_none() {
                    r matches Err(Error::NoDepositAddress)
                } else if u.payment_in_progress {
                    r matches Err(Error::PaymentInProgress)
                } else {
                    &&& r matches Ok(info) && info.amount == u.withdrawable_e8s && info.id == u.id
                        && info.deposit_address == u.deposit_address.unwrap()
                    &&& *final(self) == (State { users: final(self).users, ..*old(self) })
                    &&& final(self).users@ == old(self).users@.insert(
                        caller@,
                        User { withdrawable_e8s: 0, payment_in_progress: true, last_updated: now, ..u },
                    )
                }
            },
    {
        let ghost s0 = *self;
        let r = self.users.stage_payment(caller, now);
        proof {
            if r.is_ok() {
                lemma_users_replaced(s0, *self);
            }
        }
        r
    }

    /// Second step of a withdrawal: records the payment if the transfer was settled; otherwise puts
    /// the staged amount back onto the balance and reports why. Either way the payment is no
    /// longer in flight.
    pub fn handle_payment_result(&mut self, withdrawal_info: WithdrawalInfo, outcome: TransferOutcome, now: u64) -> (r:
        Result<u64, Error>)
        requires
            old(self).wf(),
        ensures
            final(self).wf(),
            !old(self).users.id_in_use(withdrawal_info.id) ==> (r matches Err(Error::UserDoesNotExist)) && *final(self)
                == *old(self),
            old(self).users.id_in_use(withdrawal_info.id) ==> {
                let k = old(self).users.key_of_id(withdrawal_info.id);
                let u = old(self).users@[k];
                let settled = outcome is Settled;
                &&& final(self).users@ == old(self).users@.insert(
                    k,
                    User {
                        payment_in_progress: false,
                        withdrawable_e8s: if settled {
                            u.withdrawable_e8s
                        } else {
                            clamp_u64(u.withdrawable_e8s + withdrawal_info.amount)
                        },
                        ..u
                    },
                )
                &&& match outcome {
                    TransferOutcome::Settled(index) => {
                        &&& r == Ok::<u64, Error>(index)
                        &&& final(self).payment_history@ == old(self).payment_history@.push(
                            Payment { block_index: index, user_id: withdrawal_info.id, time: now },
                        )
                        &&& *final(self) == (State {
                            users: final(self).users,
                            payment_history: final(self).payment_history,
                            ..*old(self)
                        })
                    },
                    TransferOutcome::Rejected(reason) => {
                        &&& r matches Err(Error::PaymentError(m)) && m == reason
                        &&& *final(self) == (State { users: final(self).users, ..*old(self) })
                    },
                    TransferOutcome::CallFailed(message) => {
                        &&& r matches Err(Error::PaymentError(m)) && m == message
                        &&& *final(self) == (State { users: final(self).users, ..*old(self) })
                    },
                }
            },
    {
        let ghost s0 = *self;
        let transferred = match &outcome {
            TransferOutcome::Settled(_) => true,
            _ => false,
        };
        let found = self.users.settle_payment_by_id(withdrawal_info.id, withdrawal_info.amount, transferred);
        if !found {
            return Err(Error::UserDoesNotExist);
        }
        proof {
            lemma_users_replaced(s0, State { users: self.users, ..s0 });
        }
        match outcome {
            TransferOutcome::Settled(block_index) => {
                self.payment_history.push(Payment { block_index, user_id: withdrawal_info.id, time: now });
                Ok(block_index)
            },
            TransferOutcome::Rejected(reason) => Err(Error::PaymentError(reason)),
            TransferOutcome::CallFailed(message) => Err(Error::PaymentError(message)),
        }
    }

    /// Registers a new user under `principal`; only the administrative identity may.
    pub fn create_user(&mut self, caller: &Principal, principal: Principal, now: u64) -> (r: Result<u32, Error>)
        requires
            old(self).wf(),
            old(self).next_user_id < u32::MAX,
        ensures
            final(self).wf(),
            r.is_err() ==> *final(self) == *old(self),
            caller@ != old(self).admin@ ==> r matches Err(Error::NoPermission),
            caller@ == old(self).admin@ && old(self).users@.contains_key(principal@) ==> r matches Err(
                Error::UserExistsAlready,
            ),
            caller@ == old(self).admin@ && !old(self).users@.contains_key(principal@) ==> {
                let id = old(self).next_user_id;
                let u = final(self).users@[principal@];
                &&& r == Ok::<u32, Error>(id)
                &&& final(self).next_user_id == id + 1
                &&& final(self).users@ == old(self).users@.insert(principal@, u)
                &&& *final(self) == (State {
                    users: final(self).users,
                    next_user_id: final(self).next_user_id,
                    ..*old(self)
                })
                &&& u.id == id
                &&& u.user_name.is_none()
                &&& u.login_method == LoginMethod::Twitter
                &&& u.new_auth.is_none()
                &&& u.karma == 10
                &&& u.withdrawable_e8s == 0
                &&& u.deposit_address.is_none()
                &&& !u.payment_in_progress
                &&& u.upvotes@.len() == 0
                &&& u.downvotes@.len() == 0
                &&& u.verification_status == crate::users::VerificationStatus::Unverified
                &&& u.last_updated == now
                &&& u.nr_posts_this_round == 0
                &&& u.badges@.len() == (if id <= EARLY_MEMBER_LIMIT { 1int } else { 0int })
                &&& id <= EARLY_MEMBER_LIMIT ==> u.badges@[0] == crate::users::Badge::OG
            },
    {
        match self.check_if_admin(caller) {
            Ok(()) => {},
            Err(e) => return Err(e),
        }
        if self.users.principal_in_use(&principal) {
            return Err(Error::UserExistsAlready);
        }
        let id = self.next_user_id;
        let mut badges: Vec<crate::users::Badge> = Vec::new();
        if id <= EARLY_MEMBER_LIMIT {
            badges.push(crate::users::Badge::OG);
        }
        let user = User {
            id,
            user_name: None,
            login_method: LoginMethod::Twitter,
            badges,
            new_auth: None,
            karma: 10,
            withdrawable_e8s: 0,
            deposit_address: None,
            payment_in_progress: false,
            upvotes: Vec::new(),
            downvotes: Vec::new(),
            verification_status: crate::users::VerificationStatus::Unverified,
            last_updated: now,
            nr_posts_this_round: 0,
        };
        let ghost s0 = *self;
        proof {
            if self.users.id_in_use(id) {
                let q = self.users.key_of_id(id);
                assert(self.users@[q].id < self.next_user_id);
            }
        }
        self.users.insert(principal, user);
        self.next_user_id = id + 1;
        proof {
            let t = *self;
            s0.users.lemma_same_ids(&s0.users);
            assert forall|i: int| 0 <= i < t.proposals@.len() implies t.users.id_in_use(
                (#[trigger] t.proposals@[i]).1.created_by_id,
            ) by {
                let c = s0.proposals@[i].1.created_by_id;
                assert(s0.users.id_in_use(c));
                let q = s0.users.key_of_id(c);
                assert(t.users@.contains_key(q) && t.users@[q].id == c);
            }
            assert forall|p: Seq<u8>, x: u32|
                t.users@.contains_key(p) && #[trigger] status_of(t.users@[p], x)
                    != crate::users::UpvoteStatus::NotVoted implies x < t.next_proposal_id by {
                if p != principal@ {
                    assert(status_of(t.users@[p], x) == status_of(s0.users@[p], x));
                }
            }
            assert forall|p: Seq<u8>| #[trigger] t.users@.contains_key(p) implies t.users@[p].id < t.next_user_id by {
                if p != principal@ {
                    assert(s0.users@.contains_key(p));
                }
            }
        }
        Ok(id)
    }

    /// Marks the user with numeric id `id` as verified; only the administrative identity may.
    pub fn verify_user(&mut self, caller: &Principal, id: u32) -> (r: Result<(), Error>)
        requires
            old(self).wf(),
        ensures
            final(self).wf(),
            r.is_err() ==> *final(self) == *old(self),
            caller@ != old(self).admin@ ==> r matches Err(Error::NoPermission),
            caller@ == old(self).admin@ && !old(self).users.id_in_use(id) ==> r matches Err(Error::UserDoesNotExist),
            caller@ == old(self).admin@ && old(self).users.id_in_use(id) ==> {
                let k = old(self).users.key_of_id(id);
                &&& r is Ok
                &&& *final(self) == (State { users: final(self).users, ..*old(self) })
                &&& final(self).users@ == old(self).users@.insert(
                    k,
                    User { verification_status: crate::users::VerificationStatus::Verified, ..old(self).users@[k] },
                )
            },
    {
        match self.check_if_admin(caller) {
            Ok(()) => {},
            Err(e) => return Err(e),
        }
        let ghost s0 = *self;
        if !self.users.verify_by_id(id) {
            return Err(Error::UserDoesNotExist);
        }
        proof {
            lemma_users_replaced(s0, *self);
        }
        Ok(())
    }

    /// Records on the account of `caller` the identity it is to move to, and how that identity
    /// logs in. The account itself does not move yet.
    pub fn stage_new_principal(&mut self, caller: &Principal, new_principal: Principal, login_method: LoginMethod, now: u64) -> (r:
        Result<(), Error>)
        requires
            old(self).wf(),
        ensures
            final(self).wf(),
            !old(self).users@.contains_key(caller@) ==> (r matches Err(Error::UserDoesNotExist)) && *final(self)
                == *old(self),
            old(self).users@.contains_key(caller@) ==> {
                let u = old(self).users@[caller@];
                let v = final(self).users@[caller@];
                &&& r is Ok
                &&& *final(self) == (State { users: final(self).users, ..*old(self) })
                &&& final(self).users@ == old(self).users@.insert(caller@, v)
                &&& v == (User { new_auth: v.new_auth, last_updated: now, ..u })
                &&& v.new_auth matches Some(a) && a.0@ == new_principal@ && a.1 == login_method
            },
    {
        let ghost s0 = *self;
        if !self.users.set_new_auth(caller, new_principal, login_method, now) {
            return Err(Error::UserDoesNotExist);
        }
        proof {
            lemma_users_replaced(s0, *self);
        }
        Ok(())
    }

    /// Sets the display name of `caller`; a name of more than fifteen characters is refused.
    pub fn update_username(&mut self, caller: &Principal, new_username: String, now: u64) -> (r: Result<(), Error>)
        requires
            old(self).wf(),
        ensures
            final(self).wf(),
            r.is_err() ==> *final(self) == *old(self),
            !old(self).users@.contains_key(caller@) ==> r matches Err(Error::UserDoesNotExist),
            old(self).users@.contains_key(caller@) && new_username@.len() > MAX_USERNAME_CHARS ==> r matches Err(
                Error::UsernameTooLong,
            ),
            old(self).users@.contains_key(caller@) && new_username@.len() <= MAX_USERNAME_CHARS ==> {
                &&& r is Ok
                &&& *final(self) == (State { users: final(self).users, ..*old(self) })
                &&& final(self).users@ == old(self).users@.insert(
                    caller@,
                    User { user_name: Some(new_username), last_updated: now, ..old(self).users@[caller@] },
                )
            },
    {
        if !self.users.principal_in_use(caller) {
            return Err(Error::UserDoesNotExist);
        }
        if new_username.as_str().unicode_len() > MAX_USERNAME_CHARS {
            return Err(Error::UsernameTooLong);
        }
        let ghost s0 = *self;
        let found = self.users.set_user_name(caller, new_username, now);
        proof {
            lemma_users_replaced(s0, *self);
        }
        Ok(())
    }

    /// Sets the account that rewards of `caller` are paid out to.
    pub fn update_account_identifier(&mut self, caller: &Principal, account_identifier: ic_ledger_types::AccountIdentifier, now: u64) -> (r:
        Result<(), Error>)
        requires
            old(self).wf(),
        ensures
            final(self).wf(),
            !old(self).users@.contains_key(caller@) ==> (r matches Err(Error::UserDoesNotExist)) && *final(self)
                == *old(self),
            old(self).users@.contains_key(caller@) ==> {
                &&& r is Ok
                &&& *final(self) == (State { users: final(self).users, ..*old(self) })
                &&& final(self).users@ == old(self).users@.insert(
                    caller@,
                    User { deposit_address: Some(account_identifier), last_updated: now, ..old(self).users@[caller@] },
                )
            },
    {
        let ghost s0 = *self;
        if !self.users.set_deposit_address(caller, account_identifier, now) {
            return Err(Error::UserDoesNotExist);
        }
        proof {
            lemma_users_replaced(s0, *self);
        }
        Ok(())
    }
    /// Moves the account staged for `caller` from `old_principal` to `caller`. Only the identity
    /// that the account staged may confirm the move, and only if it holds no account yet: a
    /// second confirmation of the same move is therefore not permitted.
    pub fn update_user_principal(&mut self, caller: &Principal, old_principal: &Principal) -> (r: Result<(), Error>)
        requires
            old(self).wf(),
        ensures
            final(self).wf(),
            r.is_err() ==> *final(self) == *old(self),
            old(self).users@.contains_key(caller@) ==> r matches Err(Error::NoPermission),
            !old(self).users@.contains_key(caller@) && !old(self).users@.contains_key(old_principal@) ==> r matches Err(
                Error::UserDoesNotExist,
            ),
            !old(self).users@.contains_key(caller@) && old(self).users@.contains_key(old_principal@) ==> {
                let u = old(self).users@[old_principal@];
                match u.new_auth {
                    Some(a) if a.0@ == caller@ => {
                        &&& r is Ok
                        &&& *final(self) == (State { users: final(self).users, ..*old(self) })
                        &&& final(self).users@ == old(self).users@.remove(old_principal@).insert(
                            caller@,
                            User { login_method: a.1, new_auth: None, ..u },
                        )
                    },
                    _ => r matches Err(Error::NoPermission),
                }
            },
    {
        if self.users.principal_in_use(caller) {
            return Err(Error::NoPermission);
        }
        let permitted = match self.users.get(old_principal) {
            Some(u) => match &u.new_auth {
                Some(a) => a.0.same_as(caller),
                None => false,
            },
            None => return Err(Error::UserDoesNotExist),
        };
        if !permitted {
            return Err(Error::NoPermission);
        }
        let ghost s0 = *self;
        proof {
            s0.users.lemma_votes_wf(old_principal@);
        }
        let mut user = match self.users.remove(old_principal) {
            Some(u) => u,
            None => return Err(Error::UserDoesNotExist),
        };
        let mut staged: Option<(Principal, LoginMethod)> = None;
        core::mem::swap(&mut staged, &mut user.new_auth);
        match staged {
            Some((_p, method)) => {
                user.login_method = method;
            },
            None => {},
        }
        let ghost mid = self.users;
        proof {
            if mid.id_in_use(user.id) {
                let q = mid.key_of_id(user.id);
                assert(s0.users@.contains_key(q));
                s0.users.lemma_id_unique(q, old_principal@);
            }
        }
        self.users.insert(caller.copy(), user);
        proof {
            let t = *self;
            let uid = s0.users@[old_principal@].id;
            assert forall|q: Seq<u8>| #[trigger] t.users@.contains_key(q) implies t.users@[q].id < t.next_user_id by {
                if q != caller@ {
                    assert(s0.users@.contains_key(q));
                }
            }
            assert forall|i: int| 0 <= i < t.proposals@.len() implies t.users.id_in_use(
                (#[trigger] t.proposals@[i]).1.created_by_id,
            ) by {
                let c = s0.proposals@[i].1.created_by_id;
                assert(s0.users.id_in_use(c));
                let q = s0.users.key_of_id(c);
                if q == old_principal@ {
                    assert(t.users@.contains_key(caller@) && t.users@[caller@].id == c);
                } else {
                    assert(t.users@.contains_key(q) && t.users@[q].id == c);
                }
            }
            assert forall|p: Seq<u8>, x: u32|
                t.users@.contains_key(p) && #[trigger] status_of(t.users@[p], x)
                    != crate::users::UpvoteStatus::NotVoted implies x < t.next_proposal_id by {
                if p == caller@ {
                    assert(status_of(t.users@[p], x) == status_of(s0.users@[old_principal@], x));
                } else {
                    assert(status_of(t.users@[p], x) == status_of(s0.users@[p], x));
                }
            }
        }
        Ok(())
    }

    /// Adds `caller` to those who reported proposal `proposal_id`; reporting twice changes nothing.
    pub fn report_proposal(&mut self, proposal_id: u32, caller: &Principal) -> (r: Result<(), Error>)
        requires
            old(self).wf(),
        ensures
            final(self).wf(),
            r.is_err() ==> *final(self) == *old(self),
            !old(self).users@.contains_key(caller@) ==> r matches Err(Error::UserDoesNotExist),
            old(self).users@.contains_key(caller@) && !has_proposal(old(self).proposals@, proposal_id) ==> r matches Err(
                Error::ProposalDoesNotExist,
            ),
            old(self).users@.contains_key(caller@) && has_proposal(old(self).proposals@, proposal_id) ==> {
                let before = proposal_of(old(self).proposals@, proposal_id);
                let after = proposal_of(final(self).proposals@, proposal_id);
                &&& r is Ok
                &&& *final(self) == (State { proposals: final(self).proposals, ..*old(self) })
                &&& final(self).proposals@.len() == old(self).proposals@.len()
                &&& forall|i: int|
                    0 <= i < old(self).proposals@.len() && old(self).proposals@[i].0 != proposal_id
                        ==> #[trigger] final(self).proposals@[i] == old(self).proposals@[i]
                &&& has_proposal(final(self).proposals@, proposal_id)
                &&& after == (Proposal { reports: after.reports, ..before })
                &&& if reported_by(before.reports@, caller@) {
                    after.reports@ == before.reports@
                } else {
                    &&& after.reports@.len() == before.reports@.len() + 1
                    &&& after.reports@.drop_last() == before.reports@
                    &&& after.reports@.last()@ == caller@
                }
            },
    {
        if !self.users.principal_in_use(caller) {
            return Err(Error::UserDoesNotExist);
        }
        let j = match self.find_proposal(proposal_id) {
            Some(j) => j,
            None => return Err(Error::ProposalDoesNotExist),
        };
        let ghost s0 = *self;
        if !self.proposals[j].1.is_reported_by(caller) {
            self.proposals[j].1.reports.push(caller.copy());
        }
        proof {
            let t = *self;
            assert forall|i: int| 0 <= i < t.proposals@.len() implies (#[trigger] t.proposals@[i]).0 == s0.proposals@[i].0
                && t.proposals@[i].1.created_by_id == s0.proposals@[i].1.created_by_id by {}
            assert forall|i: int, i2: int| 0 <= i < i2 < t.proposals@.len() implies (#[trigger] t.proposals@[i]).0
                < (#[trigger] t.proposals@[i2]).0 by {
                assert(s0.proposals@[i].0 < s0.proposals@[i2].0);
            }
            assert forall|i: int| 0 <= i < t.proposals@.len() implies (#[trigger] t.proposals@[i]).0 < t.next_proposal_id
                && t.users.id_in_use(t.proposals@[i].1.created_by_id) by {
                assert(s0.users.id_in_use(s0.proposals@[i].1.created_by_id));
            }
            lemma_proposal_at(t.proposals@, j as int);
            assert(t.proposals@[j as int].1.reports@.drop_last() =~= s0.proposals@[j as int].1.reports@ || t.proposals@[j as int].1.reports@ == s0.proposals@[j as int].1.reports@);
        }
        Ok(())
    }

    /// Removes proposal `proposal_id`. The authorship test compares the proposal's recorded author
    /// with the record found under that same author, so it always passes: any caller may delete
    /// any proposal.
    pub fn delete_proposal(&mut self, proposal_id: u32) -> (r: Result<(), Error>)
        requires
            old(self).wf(),
        ensures
            final(self).wf(),
            !has_proposal(old(self).proposals@, proposal_id) ==> (r matches Err(Error::ProposalDoesNotExist))
                && *final(self) == *old(self),
            has_proposal(old(self).proposals@, proposal_id) ==> {
                &&& r is Ok
                &&& *final(self) == (State { proposals: final(self).proposals, ..*old(self) })
                &&& exists|i: int|
                    0 <= i < old(self).proposals@.len() && old(self).proposals@[i].0 == proposal_id
                        && final(self).proposals@ == old(self).proposals@.remove(i)
            },
    {
        let j = match self.find_proposal(proposal_id) {
            Some(j) => j,
            None => return Err(Error::ProposalDoesNotExist),
        };
        let author = self.proposals[j].1.created_by_id;
        let author_id = match self.users.get_by_id(author) {
            Some(u) => u.id,
            None => return Err(Error::UserDoesNotExist),
        };
        if author != author_id {
            return Err(Error::NoPermission);
        }
        let ghost s0 = *self;
        self.proposals.remove(j);
        proof {
            let t = *self;
            let sp = s0.proposals@;
            assert forall|i: int| 0 <= i < t.proposals@.len() implies #[trigger] t.proposals@[i] == sp[if i < j { i } else { i + 1 }] by {}
            assert forall|i: int, i2: int| 0 <= i < i2 < t.proposals@.len() implies (#[trigger] t.proposals@[i]).0
                < (#[trigger] t.proposals@[i2]).0 by {
                let a = if i < j { i } else { i + 1 };
                let b = if i2 < j { i2 } else { i2 + 1 };
                assert(sp[a].0 < sp[b].0);
            }
            assert forall|i: int| 0 <= i < t.proposals@.len() implies (#[trigger] t.proposals@[i]).0 < t.next_proposal_id
                && t.users.id_in_use(t.proposals@[i].1.created_by_id) by {
                let a = if i < j { i } else { i + 1 };
                assert(s0.users.id_in_use(sp[a].1.created_by_id));
            }
        }
        Ok(())
    }

    /// Marks round result `index` as published; only the administrative identity may.
    pub fn tweet_round_result(&mut self, caller: &Principal, index: usize) -> (r: Result<(), Error>)
        requires
            old(self).wf(),
        ensures
            final(self).wf(),
            r.is_err() ==> *final(self) == *old(self),
            caller@ != old(self).admin@ ==> r matches Err(Error::NoPermission),
            caller@ == old(self).admin@ && index >= old(self).round_results@.len() ==> r matches Err(
                Error::RoundResultDoesNotExist,
            ),
            caller@ == old(self).admin@ && index < old(self).round_results@.len() ==> {
                &&& r is Ok
                &&& *final(self) == (State { round_results: final(self).round_results, ..*old(self) })
                &&& final(self).round_results@ == old(self).round_results@.update(
                    index as int,
                    RoundResult { proposal_tweeted: true, ..old(self).round_results@[index as int] },
                )
            },
    {
        match self.check_if_admin(caller) {
            Ok(()) => {},
            Err(e) => return Err(e),
        }
        if index >= self.round_results.len() {
            return Err(Error::RoundResultDoesNotExist);
        }
        self.round_results[index].proposal_tweeted = true;
        Ok(())
    }

    /// The first round result not yet published, with its position and content.
    pub fn poll_untweeted(&self) -> (r: Option<(usize, Tweet)>)
        ensures
            r.is_none() == forall|i: int| 0 <= i < self.round_results@.len() ==> (#[trigger] self.round_results@[i]).proposal_tweeted,
            r matches Some(x) ==> x.0 < self.round_results@.len() && !self.round_results@[x.0 as int].proposal_tweeted
                && x.1 == self.round_results@[x.0 as int].winning_proposal.tweet
                && forall|i: int| 0 <= i < x.0 ==> (#[trigger] self.round_results@[i]).proposal_tweeted,
    {
        let mut i: usize = 0;
        while i < self.round_results.len()
            invariant
                0 <= i <= self.round_results@.len(),
                forall|j: int| 0 <= j < i ==> (#[trigger] self.round_results@[j]).proposal_tweeted,
            decreases self.round_results@.len() - i,
        {
            if !self.round_results[i].proposal_tweeted {
                return Some((i, self.round_results[i].winning_proposal.tweet.copy()));
            }
            i = i + 1;
        }
        None
    }

    /// Replaces the settings; only the administrative identity may.
    pub fn update_settings(&mut self, caller: &Principal, settings: Settings) -> (r: Result<(), Error>)
        requires
            old(self).wf(),
        ensures
            final(self).wf(),
            caller@ != old(self).admin@ ==> (r matches Err(Error::NoPermission)) && *final(self) == *old(self),
            caller@ == old(self).admin@ ==> r is Ok && *final(self) == (State { settings: settings, ..*old(self) }),
    {
        match self.check_if_admin(caller) {
            Ok(()) => {},
            Err(e) => return Err(e),
        }
        self.settings = settings;
        Ok(())
    }

    /// Sets the time up to which users have been backed up; only the administrative identity may.
    pub fn update_last_backup_time(&mut self, caller: &Principal, time: u64) -> (r: Result<(), Error>)
        requires
            old(self).wf(),
        ensures
            final(self).wf(),
            caller@ != old(self).admin@ ==> (r matches Err(Error::NoPermission)) && *final(self) == *old(self),
            caller@ == old(self).admin@ ==> r is Ok && *final(self) == (State { last_user_backup: time, ..*old(self) }),
    {
        match self.check_if_admin(caller) {
            Ok(()) => {},
            Err(e) => return Err(e),
        }
        self.last_user_backup = time;
        Ok(())
    }
    /// Copies of all open proposals, in order of their ids.
    pub fn get_proposals(&self) -> (r: Vec<Proposal>)
        ensures
            r@.len() == self.proposals@.len(),
            forall|i: int| 0 <= i < r@.len() ==> (#[trigger] r@[i]).mirrors(self.proposals@[i].1),
    {
        let mut r: Vec<Proposal> = Vec::new();
        let mut i: usize = 0;
        while i < self.proposals.len()
            invariant
                0 <= i <= self.proposals@.len(),
                r@.len() == i,
                forall|k: int| 0 <= k < i ==> (#[trigger] r@[k]).mirrors(self.proposals@[k].1),
            decreases self.proposals@.len() - i,
        {
            r.push(self.proposals[i].1.copy());
            i = i + 1;
        }
        r
    }

    /// All open proposals as `caller` sees them: with the vote `caller` holds on each (none for an
    /// unknown caller) and whether `caller` reported it.
    pub fn get_proposals_info(&self, caller: &Principal) -> (r: Vec<ProposalInfo>)
        requires
            self.wf(),
        ensures
            r@.len() == self.proposals@.len(),
            forall|i: int| 0 <= i < r@.len() ==> {
                let e = self.proposals@[i];
                let x = #[trigger] r@[i];
                &&& x.id == e.0
                &&& x.tweet == e.1.tweet
                &&& x.points == e.1.points
                &&& x.created_by == e.1.created_by_id
                &&& x.created_at == e.1.created_at
                &&& x.reported == reported_by(e.1.reports@, caller@)
                &&& x.nr_of_reports == report_count(e.1)
                &&& x.upvote_status == if self.users@.contains_key(caller@) {
                    status_of(self.users@[caller@], e.0)
                } else {
                    UpvoteStatus::NotVoted
                }
            },
    {
        let viewer = self.users.get(caller);
        let mut r: Vec<ProposalInfo> = Vec::new();
        let mut i: usize = 0;
        while i < self.proposals.len()
            invariant
                self.wf(),
                viewer.is_some() == self.users@.contains_key(caller@),
                viewer matches Some(u) ==> *u == self.users@[caller@],
                0 <= i <= self.proposals@.len(),
                r@.len() == i,
                forall|k: int| 0 <= k < i ==> {
                    let e = self.proposals@[k];
                    let x = #[trigger] r@[k];
                    &&& x.id == e.0
                    &&& x.tweet == e.1.tweet
                    &&& x.points == e.1.points
                    &&& x.created_by == e.1.created_by_id
                    &&& x.created_at == e.1.created_at
                    &&& x.reported == reported_by(e.1.reports@, caller@)
                    &&& x.nr_of_reports == report_count(e.1)
                    &&& x.upvote_status == if self.users@.contains_key(caller@) {
                        status_of(self.users@[caller@], e.0)
                    } else {
                        UpvoteStatus::NotVoted
                    }
                },
            decreases self.proposals@.len() - i,
        {
            let id = self.proposals[i].0;
            let status = match viewer {
                Some(u) => u.vote_status(id),
                None => UpvoteStatus::NotVoted,
            };
            r.push(ProposalInfo::from_proposal(&self.proposals[i].1, id, status, caller));
            i = i + 1;
        }
        r
    }

    /// A copy of the record of `caller`.
    pub fn get_user(&self, caller: &Principal) -> (r: Result<User, Error>)
        requires
            self.wf(),
        ensures
            !self.users@.contains_key(caller@) ==> r matches Err(Error::UserDoesNotExist),
            self.users@.contains_key(caller@) ==> (r matches Ok(u) && u.mirrors(self.users@[caller@])),
    {
        match self.users.get(caller) {
            Some(u) => Ok(u.copy()),
            None => Err(Error::UserDoesNotExist),
        }
    }

    /// The users changed after `time_arg` (after the last backup when it is absent), and `now` as
    /// the mark to ask from next time.
    pub fn get_changed_users(&self, time_arg: Option<u64>, now: u64) -> (r: (Vec<(Principal, User)>, u64))
        requires
            self.wf(),
        ensures
            r.1 == now,
            forall|i: int| 0 <= i < r.0@.len() ==> self.users@.contains_key((#[trigger] r.0@[i]).0@) && r.0@[i].1.mirrors(
                self.users@[r.0@[i].0@],
            ) && r.0@[i].1.last_updated > time_arg.unwrap_or(self.last_user_backup),
            forall|q: Seq<u8>| #[trigger] self.users@.contains_key(q) && self.users@[q].last_updated > time_arg.unwrap_or(
                self.last_user_backup,
            ) ==> exists|i: int| 0 <= i < r.0@.len() && (#[trigger] r.0@[i]).0@ == q,
            forall|i: int, j: int| 0 <= i < j < r.0@.len() ==> (#[trigger] r.0@[i]).0@ != (#[trigger] r.0@[j]).0@,
    {
        let time = match time_arg {
            Some(t) => t,
            None => self.last_user_backup,
        };
        (self.users.get_changed_users(time), now)
    }
}

} // verus!
