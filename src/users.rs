use vstd::prelude::*;

use crate::principal::Principal;
use crate::Error;
use ic_ledger_types::AccountIdentifier;

verus! {

/// A ledger account that rewards are paid out to; the library only carries it.
#[verifier::external_type_specification]
#[verifier::external_body]
pub struct ExAccountIdentifier(ic_ledger_types::AccountIdentifier);

#[derive(Debug)]
pub enum LoginMethod {
    Twitter,
    II,
    Other(String),
}

#[derive(Debug)]
pub enum VerificationStatus {
    Unverified,
    Verified,
    Bot,
}

#[derive(Debug)]
pub enum Badge {
    OG,
    Donated,
    Other(String),
}

/// Where a user stands on one proposal.
#[derive(Clone, Copy, Debug, PartialEq, Eq, Structural)]
pub enum UpvoteStatus {
    Upvoted,
    Downvoted,
    NotVoted,
}

#[derive(Debug)]
pub struct User {
    pub id: u32,
    pub user_name: Option<String>,
    pub login_method: LoginMethod,
    pub badges: Vec<Badge>,
    pub new_auth: Option<(Principal, LoginMethod)>,
    pub karma: i32,
    pub withdrawable_e8s: u64,
    pub deposit_address: Option<AccountIdentifier>,
    pub payment_in_progress: bool,
    pub upvotes: Vec<u32>,
    pub downvotes: Vec<u32>,
    pub verification_status: VerificationStatus,
    pub last_updated: u64,
    pub nr_posts_this_round: u32,
}

impl LoginMethod {
    pub fn copy(&self) -> (r: LoginMethod)
        ensures
            r == *self,
    {
        match self {
            LoginMethod::Twitter => LoginMethod::Twitter,
            LoginMethod::II => LoginMethod::II,
            LoginMethod::Other(s) => LoginMethod::Other(s.clone()),
        }
    }
}

impl VerificationStatus {
    pub fn copy(&self) -> (r: VerificationStatus)
        ensures
            r == *self,
    {
        match self {
            VerificationStatus::Unverified => VerificationStatus::Unverified,
            VerificationStatus::Verified => VerificationStatus::Verified,
            VerificationStatus::Bot => VerificationStatus::Bot,
        }
    }
}

impl Badge {
    pub fn copy(&self) -> (r: Badge)
        ensures
            r == *self,
    {
        match self {
            Badge::OG => Badge::OG,
            Badge::Donated => Badge::Donated,
            Badge::Other(s) => Badge::Other(s.clone()),
        }
    }
}

fn copy_ids(v: &Vec<u32>) -> (r: Vec<u32>)
    ensures
        r@ == v@,
{
    let mut r: Vec<u32> = Vec::new();
    let mut i: usize = 0;
    while i < v.len()
        invariant
            0 <= i <= v@.len(),
            r@ == v@.subrange(0, i as int),
        decreases v@.len() - i,
    {
        r.push(v[i]);
        i = i + 1;
        assert(r@ =~= v@.subrange(0, i as int));
    }
    assert(r@ =~= v@);
    r
}

fn copy_badges(v: &Vec<Badge>) -> (r: Vec<Badge>)
    ensures
        r@ == v@,
{
    let mut r: Vec<Badge> = Vec::new();
    let mut i: usize = 0;
    while i < v.len()
        invariant
            0 <= i <= v@.len(),
            r@ == v@.subrange(0, i as int),
        decreases v@.len() - i,
    {
        r.push(v[i].copy());
        i = i + 1;
        assert(r@ =~= v@.subrange(0, i as int));
    }
    assert(r@ =~= v@);
    r
}

/// The vote a user holds on a proposal, read from the two vote lists.
pub open spec fn status_of(u: User, proposal_id: u32) -> UpvoteStatus {
    if u.upvotes@.contains(proposal_id) {
        UpvoteStatus::Upvoted
    } else if u.downvotes@.contains(proposal_id) {
        UpvoteStatus::Downvoted
    } else {
        UpvoteStatus::NotVoted
    }
}

/// Score change of an upvote, given the vote held before it.
pub open spec fn upvote_delta(s: UpvoteStatus) -> int {
    match s {
        UpvoteStatus::NotVoted => 1,
        UpvoteStatus::Upvoted => -1,
        UpvoteStatus::Downvoted => 2,
    }
}

/// The vote held after an upvote.
pub open spec fn after_upvote(s: UpvoteStatus) -> UpvoteStatus {
    match s {
        UpvoteStatus::Upvoted => UpvoteStatus::NotVoted,
        _ => UpvoteStatus::Upvoted,
    }
}

/// Score change of a downvote, given the vote held before it.
pub open spec fn downvote_delta(s: UpvoteStatus) -> int {
    match s {
        UpvoteStatus::NotVoted => -1,
        UpvoteStatus::Downvoted => 1,
        UpvoteStatus::Upvoted => -2,
    }
}

/// The vote held after a downvote.
pub open spec fn after_downvote(s: UpvoteStatus) -> UpvoteStatus {
    match s {
        UpvoteStatus::Downvoted => UpvoteStatus::NotVoted,
        _ => UpvoteStatus::Downvoted,
    }
}

impl User {
    /// No proposal is both upvoted and downvoted.
    pub open spec fn votes_wf(&self) -> bool {
        forall|p: u32| !(#[trigger] self.upvotes@.contains(p) && self.downvotes@.contains(p))
    }

    /// Everything but the votes and the modification time is the same.
    pub open spec fn same_record(&self, o: User) -> bool {
        &&& self.same_account(o)
        &&& self.nr_posts_this_round == o.nr_posts_this_round
    }

    /// Everything but the round-scoped state and the modification time is the same.
    pub open spec fn same_account(&self, o: User) -> bool {
        &&& self.same_profile(o)
        &&& self.karma == o.karma
    }

    /// Everything but karma, the round-scoped state and the modification time is the same.
    pub open spec fn same_profile(&self, o: User) -> bool {
        &&& self.id == o.id
        &&& self.user_name == o.user_name
        &&& self.login_method == o.login_method
        &&& self.badges == o.badges
        &&& self.new_auth == o.new_auth
        &&& self.withdrawable_e8s == o.withdrawable_e8s
        &&& self.deposit_address == o.deposit_address
        &&& self.payment_in_progress == o.payment_in_progress
        &&& self.verification_status == o.verification_status
    }

    /// A copy that holds the same values.
    pub open spec fn mirrors(&self, o: User) -> bool {
        &&& self.id == o.id
        &&& self.user_name == o.user_name
        &&& self.login_method == o.login_method
        &&& self.badges@ == o.badges@
        &&& match (self.new_auth, o.new_auth) {
            (Some(a), Some(b)) => a.0@ == b.0@ && a.1 == b.1,
            (None, None) => true,
            _ => false,
        }
        &&& self.karma == o.karma
        &&& self.withdrawable_e8s == o.withdrawable_e8s
        &&& self.deposit_address == o.deposit_address
        &&& self.payment_in_progress == o.payment_in_progress
        &&& self.upvotes@ == o.upvotes@
        &&& self.downvotes@ == o.downvotes@
        &&& self.verification_status == o.verification_status
        &&& self.last_updated == o.last_updated
        &&& self.nr_posts_this_round == o.nr_posts_this_round
    }

    /// The vote this user holds on proposal `proposal_id`.
    pub fn vote_status(&self, proposal_id: u32) -> (r: UpvoteStatus)
        ensures
            r == status_of(*self, proposal_id),
    {
        if contains_value(&self.upvotes, proposal_id) {
            UpvoteStatus::Upvoted
        } else if contains_value(&self.downvotes, proposal_id) {
            UpvoteStatus::Downvoted
        } else {
            UpvoteStatus::NotVoted
        }
    }

    pub fn copy(&self) -> (r: User)
        ensures
            r.mirrors(*self),
    {
        User {
            id: self.id,
            user_name: match &self.user_name {
                Some(n) => Some(n.clone()),
                None => None,
            },
            login_method: self.login_method.copy(),
            badges: copy_badges(&self.badges),
            new_auth: match &self.new_auth {
                Some(a) => Some((a.0.copy(), a.1.copy())),
                None => None,
            },
            karma: self.karma,
            withdrawable_e8s: self.withdrawable_e8s,
            deposit_address: self.deposit_address,
            payment_in_progress: self.payment_in_progress,
            upvotes: copy_ids(&self.upvotes),
            downvotes: copy_ids(&self.downvotes),
            verification_status: self.verification_status.copy(),
            last_updated: self.last_updated,
            nr_posts_this_round: self.nr_posts_this_round,
        }
    }

    /// The votes on every proposal other than `proposal_id` are the same.
    pub open spec fn same_votes_except(&self, o: User, proposal_id: u32) -> bool {
        forall|q: u32|
            q != proposal_id ==> (#[trigger] self.upvotes@.contains(q) == o.upvotes@.contains(q)
                && self.downvotes@.contains(q) == o.downvotes@.contains(q))
    }
}

pub open spec fn entries_have_key(s: Seq<(Principal, User)>, p: Seq<u8>) -> bool {
    exists|i: int| 0 <= i < s.len() && (#[trigger] s[i]).0@ == p
}

/// The registry as a map from identity to user record.
pub open spec fn entries_map(s: Seq<(Principal, User)>) -> Map<Seq<u8>, User> {
    Map::new(
        |p: Seq<u8>| entries_have_key(s, p),
        |p: Seq<u8>| s[choose|i: int| 0 <= i < s.len() && (#[trigger] s[i]).0@ == p].1,
    )
}

pub open spec fn entries_wf(s: Seq<(Principal, User)>) -> bool {
    &&& forall|i: int, j: int|
        0 <= i < s.len() && 0 <= j < s.len() && i != j ==> (#[trigger] s[i]).0@ != (#[trigger] s[j]).0@
    &&& forall|i: int, j: int|
        0 <= i < s.len() && 0 <= j < s.len() && i != j ==> (#[trigger] s[i]).1.id != (#[trigger] s[j]).1.id
    &&& forall|i: int| 0 <= i < s.len() ==> (#[trigger] s[i]).1.votes_wf()
}

pub proof fn lemma_entry_in_map(s: Seq<(Principal, User)>, i: int)
    requires
        entries_wf(s),
        0 <= i < s.len(),
    ensures
        entries_map(s).contains_key(s[i].0@),
        entries_map(s)[s[i].0@] == s[i].1,
{
    let p = s[i].0@;
    assert(entries_have_key(s, p));
    let j = choose|j: int| 0 <= j < s.len() && (#[trigger] s[j]).0@ == p;
    assert(j == i);
}

pub proof fn lemma_update_entry(s: Seq<(Principal, User)>, i: int, u: User)
    requires
        entries_wf(s),
        0 <= i < s.len(),
        u.id == s[i].1.id,
        u.votes_wf(),
    ensures
        entries_wf(s.update(i, (s[i].0, u))),
        entries_map(s.update(i, (s[i].0, u))) == entries_map(s).insert(s[i].0@, u),
{
    let t = s.update(i, (s[i].0, u));
    assert forall|j: int| 0 <= j < t.len() implies #[trigger] t[j].1.votes_wf() by {
        if j != i {
            assert(t[j] == s[j]);
        }
    }
    assert(entries_wf(t));
    let m = entries_map(s).insert(s[i].0@, u);
    assert forall|p: Seq<u8>| #[trigger] entries_map(t).contains_key(p) <==> m.contains_key(p) by {
        if entries_have_key(t, p) {
            let j = choose|j: int| 0 <= j < t.len() && (#[trigger] t[j]).0@ == p;
            if j != i {
                assert(s[j].0@ == p);
                assert(entries_have_key(s, p));
            }
        }
        if entries_have_key(s, p) {
            let j = choose|j: int| 0 <= j < s.len() && (#[trigger] s[j]).0@ == p;
            assert(t[j].0@ == p);
        }
        if p == s[i].0@ {
            assert(t[i].0@ == p);
        }
    }
    assert forall|p: Seq<u8>| #[trigger] entries_map(t).contains_key(p) implies entries_map(t)[p]
        == m[p] by {
        let j = choose|j: int| 0 <= j < t.len() && (#[trigger] t[j]).0@ == p;
        lemma_entry_in_map(t, j);
        if j != i {
            assert(t[j] == s[j]);
            lemma_entry_in_map(s, j);
        }
    }
    assert(entries_map(t) =~= m);
}

pub proof fn lemma_push_entry(s: Seq<(Principal, User)>, p: Principal, u: User)
    requires
        entries_wf(s),
        !entries_map(s).contains_key(p@),
        forall|i: int| 0 <= i < s.len() ==> (#[trigger] s[i]).1.id != u.id,
        u.votes_wf(),
    ensures
        entries_wf(s.push((p, u))),
        entries_map(s.push((p, u))) == entries_map(s).insert(p@, u),
{
    let t = s.push((p, u));
    assert forall|i: int| 0 <= i < s.len() implies (#[trigger] s[i]).0@ != p@ by {
        if s[i].0@ == p@ {
            assert(entries_have_key(s, p@));
        }
    }
    assert(entries_wf(t)) by {
        assert forall|i: int| 0 <= i < t.len() implies (#[trigger] t[i]).1.votes_wf() by {
            if i < s.len() {
                assert(t[i] == s[i]);
            }
        }
    }
    let m = entries_map(s).insert(p@, u);
    assert forall|q: Seq<u8>| #[trigger] entries_map(t).contains_key(q) <==> m.contains_key(q) by {
        if entries_have_key(t, q) {
            let j = choose|j: int| 0 <= j < t.len() && (#[trigger] t[j]).0@ == q;
            if j < s.len() {
                assert(s[j].0@ == q);
            }
        }
        if entries_have_key(s, q) {
            let j = choose|j: int| 0 <= j < s.len() && (#[trigger] s[j]).0@ == q;
            assert(t[j].0@ == q);
        }
        if q == p@ {
            assert(t[s.len() as int].0@ == q);
        }
    }
    assert forall|q: Seq<u8>| #[trigger] entries_map(t).contains_key(q) implies entries_map(t)[q] == m[q] by {
        let j = choose|j: int| 0 <= j < t.len() && (#[trigger] t[j]).0@ == q;
        lemma_entry_in_map(t, j);
        if j < s.len() {
            assert(t[j] == s[j]);
            lemma_entry_in_map(s, j);
        }
    }
    assert(entries_map(t) =~= m);
}

pub proof fn lemma_remove_entry(s: Seq<(Principal, User)>, i: int)
    requires
        entries_wf(s),
        0 <= i < s.len(),
    ensures
        entries_wf(s.remove(i)),
        entries_map(s.remove(i)) == entries_map(s).remove(s[i].0@),
{
    let t = s.remove(i);
    let p = s[i].0@;
    assert forall|j: int| 0 <= j < t.len() implies #[trigger] t[j] == s[if j < i { j } else { j + 1 }] by {}
    assert(entries_wf(t)) by {
        assert forall|a: int, b: int| 0 <= a < t.len() && 0 <= b < t.len() && a != b implies (#[trigger] t[a]).0@
            != (#[trigger] t[b]).0@ && t[a].1.id != t[b].1.id by {
            let a1 = if a < i { a } else { a + 1 };
            let b1 = if b < i { b } else { b + 1 };
            assert(t[a] == s[a1] && t[b] == s[b1]);
        }
        assert forall|a: int| 0 <= a < t.len() implies (#[trigger] t[a]).1.votes_wf() by {
            let a1 = if a < i { a } else { a + 1 };
            assert(t[a] == s[a1]);
        }
    }
    let m = entries_map(s).remove(p);
    assert forall|q: Seq<u8>| #[trigger] entries_map(t).contains_key(q) <==> m.contains_key(q) by {
        if entries_have_key(t, q) {
            let j = choose|j: int| 0 <= j < t.len() && (#[trigger] t[j]).0@ == q;
            let j1 = if j < i { j } else { j + 1 };
            assert(t[j] == s[j1]);
            assert(s[j1].0@ == q);
        }
        if entries_have_key(s, q) && q != p {
            let j = choose|j: int| 0 <= j < s.len() && (#[trigger] s[j]).0@ == q;
            let j1 = if j < i { j } else { j - 1 };
            assert(t[j1] == s[j]);
            assert(t[j1].0@ == q);
        }
    }
    assert forall|q: Seq<u8>| #[trigger] entries_map(t).contains_key(q) implies entries_map(t)[q] == m[q] by {
        let j = choose|j: int| 0 <= j < t.len() && (#[trigger] t[j]).0@ == q;
        lemma_entry_in_map(t, j);
        let j1 = if j < i { j } else { j + 1 };
        assert(t[j] == s[j1]);
        lemma_entry_in_map(s, j1);
    }
    assert(entries_map(t) =~= m);
}

/// Removes every occurrence of `x`.
fn remove_value(v: &mut Vec<u32>, x: u32)
    ensures
        forall|y: u32| #[trigger] final(v)@.contains(y) <==> (old(v)@.contains(y) && y != x),
{
    let ghost keep = |y: u32| y != x;
    let mut out: Vec<u32> = Vec::new();
    let mut i: usize = 0;
    while i < v.len()
        invariant
            0 <= i <= v@.len(),
            v@ == old(v)@,
            keep == (|y: u32| y != x),
            out@ == v@.subrange(0, i as int).filter(keep),
        decreases v@.len() - i,
    {
        let y = v[i];
        if y != x {
            out.push(y);
        }
        proof {
            reveal(Seq::filter);
            let s = v@.subrange(0, i + 1);
            assert(s.drop_last() =~= v@.subrange(0, i as int));
            assert(s.last() == y);
            assert(out@ == s.filter(keep));
        }
        i = i + 1;
    }
    assert(v@.subrange(0, v@.len() as int) =~= v@);
    proof {
        assert forall|y: u32| #[trigger] out@.contains(y) <==> (v@.contains(y) && y != x) by {
            if out@.contains(y) {
                v@.lemma_filter_contains_rev(keep, y);
                let k = choose|k: int| 0 <= k < out@.len() && out@[k] == y;
                v@.lemma_filter_pred(keep, k);
            }
            if v@.contains(y) && y != x {
                let k = choose|k: int| 0 <= k < v@.len() && v@[k] == y;
                v@.lemma_filter_contains(keep, k);
            }
        }
    }
    *v = out;
}

/// Adds `x`.
fn push_value(v: &mut Vec<u32>, x: u32)
    ensures
        forall|y: u32| #[trigger] final(v)@.contains(y) <==> (old(v)@.contains(y) || y == x),
{
    v.push(x);
    proof {
        assert forall|y: u32| #[trigger] v@.contains(y) <==> (old(v)@.contains(y) || y == x) by {
            if old(v)@.contains(y) {
                let k = choose|k: int| 0 <= k < old(v)@.len() && old(v)@[k] == y;
                assert(v@[k] == y);
            }
            if y == x {
                assert(v@[v@.len() - 1] == y);
            }
            if v@.contains(y) && y != x {
                let k = choose|k: int| 0 <= k < v@.len() && v@[k] == y;
                assert(old(v)@[k] == y);
            }
        }
    }
}

fn contains_value(v: &Vec<u32>, x: u32) -> (r: bool)
    ensures
        r == v@.contains(x),
{
    let mut i: usize = 0;
    while i < v.len()
        invariant
            0 <= i <= v@.len(),
            forall|j: int| 0 <= j < i ==> v@[j] != x,
        decreases v@.len() - i,
    {
        if v[i] == x {
            return true;
        }
        i = i + 1;
    }
    false
}

/// Karma granted to the author of a round's winning proposal.
pub const WINNER_KARMA: i32 = 10;

/// `x`, held to the range of `i32`.
pub open spec fn clamp_i32(x: int) -> i32 {
    if x > i32::MAX {
        i32::MAX
    } else if x < i32::MIN {
        i32::MIN
    } else {
        x as i32
    }
}

pub fn saturating_add_i32(a: i32, d: i32) -> (r: i32)
    ensures
        r == clamp_i32(a + d),
{
    let x: i64 = a as i64 + d as i64;
    if x > i32::MAX as i64 {
        i32::MAX
    } else if x < i32::MIN as i64 {
        i32::MIN
    } else {
        x as i32
    }
}

/// Two sequences of entries hold the same identities at the same positions.
pub open spec fn same_keys(s: Seq<(Principal, User)>, t: Seq<(Principal, User)>) -> bool {
    &&& s.len() == t.len()
    &&& forall|i: int| 0 <= i < s.len() ==> (#[trigger] t[i]).0@ == s[i].0@ && t[i].1.id == s[i].1.id
        && t[i].1.votes_wf()
}

pub proof fn lemma_same_keys(s: Seq<(Principal, User)>, t: Seq<(Principal, User)>)
    requires
        entries_wf(s),
        same_keys(s, t),
    ensures
        entries_wf(t),
        forall|p: Seq<u8>| #[trigger] entries_map(t).contains_key(p) <==> entries_map(s).contains_key(p),
        forall|i: int| 0 <= i < s.len() ==> #[trigger] entries_map(t)[s[i].0@] == t[i].1,
{
    assert forall|i: int, j: int| 0 <= i < t.len() && 0 <= j < t.len() && i != j implies (#[trigger] t[i]).0@
        != (#[trigger] t[j]).0@ && t[i].1.id != t[j].1.id by {
        assert(s[i].0@ != s[j].0@);
        assert(s[i].1.id != s[j].1.id);
    }
    assert forall|p: Seq<u8>| #[trigger] entries_map(t).contains_key(p) <==> entries_map(s).contains_key(p) by {
        if entries_have_key(t, p) {
            let j = choose|j: int| 0 <= j < t.len() && (#[trigger] t[j]).0@ == p;
            assert(s[j].0@ == p);
        }
        if entries_have_key(s, p) {
            let j = choose|j: int| 0 <= j < s.len() && (#[trigger] s[j]).0@ == p;
            assert(t[j].0@ == p);
        }
    }
    assert forall|i: int| 0 <= i < s.len() implies #[trigger] entries_map(t)[s[i].0@] == t[i].1 by {
        lemma_entry_in_map(t, i);
    }
}

/// Whether `u` changed after `since`; every user counts where it is `None`.
pub open spec fn changed_after(u: User, since: Option<u64>) -> bool {
    match since {
        Some(t) => u.last_updated > t,
        None => true,
    }
}

/// A withdrawal that has been staged and awaits the outcome of its transfer.
pub struct WithdrawalInfo {
    pub amount: u64,
    pub deposit_address: AccountIdentifier,
    pub id: u32,
}

/// `x`, held to the range of `u64`.
pub open spec fn clamp_u64(x: int) -> u64 {
    if x > u64::MAX {
        u64::MAX
    } else {
        x as u64
    }
}

/// The registry of users, each under the identity that logs in as it.
pub struct Users {
    entries: Vec<(Principal, User)>,
}

impl View for Users {
    type V = Map<Seq<u8>, User>;

    closed spec fn view(&self) -> Map<Seq<u8>, User> {
        entries_map(self.entries@)
    }
}

impl Users {
    pub closed spec fn wf(&self) -> bool {
        entries_wf(self.entries@)
    }

    pub open spec fn id_in_use(&self, id: u32) -> bool {
        exists|p: Seq<u8>| #[trigger] self@.contains_key(p) && self@[p].id == id
    }

    /// The identity whose record has numeric id `id`.
    pub open spec fn key_of_id(&self, id: u32) -> Seq<u8> {
        choose|p: Seq<u8>| #[trigger] self@.contains_key(p) && self@[p].id == id
    }

    /// Two registries with the same identities, each with the same numeric id, agree on which ids
    /// are in use and on whose they are.
    pub proof fn lemma_same_ids(&self, other: &Users)
        requires
            self.wf(),
            other.wf(),
            forall|q: Seq<u8>| #[trigger] other@.contains_key(q) <==> self@.contains_key(q),
            forall|q: Seq<u8>| #[trigger] self@.contains_key(q) ==> other@[q].id == self@[q].id,
        ensures
            forall|id: u32| #[trigger] other.id_in_use(id) == self.id_in_use(id),
            forall|id: u32| #[trigger] self.id_in_use(id) ==> other.key_of_id(id) == self.key_of_id(id),
    {
        assert forall|id: u32| #[trigger] other.id_in_use(id) == self.id_in_use(id) by {
            if other.id_in_use(id) {
                let q = other.key_of_id(id);
                assert(self@.contains_key(q) && self@[q].id == id);
            }
            if self.id_in_use(id) {
                let q = self.key_of_id(id);
                assert(other@.contains_key(q) && other@[q].id == id);
            }
        }
        assert forall|id: u32| #[trigger] self.id_in_use(id) implies other.key_of_id(id) == self.key_of_id(id) by {
            let q = other.key_of_id(id);
            assert(other@.contains_key(q) && other@[q].id == id);
            self.lemma_id_unique(q, self.key_of_id(id));
        }
    }

    /// Two identities of the registry with the same numeric id are the same identity.
    pub proof fn lemma_id_unique(&self, p: Seq<u8>, q: Seq<u8>)
        requires
            self.wf(),
            self@.contains_key(p),
            self@.contains_key(q),
            self@[p].id == self@[q].id,
        ensures
            p == q,
    {
        let s = self.entries@;
        let i = choose|i: int| 0 <= i < s.len() && (#[trigger] s[i]).0@ == p;
        let j = choose|j: int| 0 <= j < s.len() && (#[trigger] s[j]).0@ == q;
        lemma_entry_in_map(s, i);
        lemma_entry_in_map(s, j);
    }

    pub proof fn lemma_votes_wf(&self, p: Seq<u8>)
        requires
            self.wf(),
            self@.contains_key(p),
        ensures
            self@[p].votes_wf(),
    {
        let i = choose|i: int| 0 <= i < self.entries@.len() && (#[trigger] self.entries@[i]).0@ == p;
        lemma_entry_in_map(self.entries@, i);
    }

    pub fn new() -> (r: Users)
        ensures
            r.wf(),
            r@ == Map::<Seq<u8>, User>::empty(),
    {
        let r = Users { entries: Vec::new() };
        assert(r@ =~= Map::<Seq<u8>, User>::empty());
        r
    }

    pub fn len(&self) -> (r: usize)
        requires
            self.wf(),
        ensures
            r == self@.dom().len(),
    {
        proof { self.lemma_len(); }
        self.entries.len()
    }

    proof fn lemma_len(&self)
        requires
            self.wf(),
        ensures
            self.entries@.len() == self@.dom().len(),
            self@.dom().finite(),
        decreases self.entries@.len(),
    {
        let s = self.entries@;
        let keys = Set::new(|i: int| 0 <= i < s.len()).map(|i: int| s[i].0@);
        vstd::set_lib::lemma_int_range(0, s.len() as int);
        assert(Set::new(|i: int| 0 <= i < s.len()) =~= vstd::set_lib::set_int_range(0, s.len() as int));
        assert(self@.dom() =~= keys) by {
            assert forall|p: Seq<u8>| self@.dom().contains(p) implies keys.contains(p) by {
                let i = choose|i: int| 0 <= i < s.len() && (#[trigger] s[i]).0@ == p;
                assert(Set::new(|i: int| 0 <= i < s.len()).contains(i));
            }
        }
        let f = |i: int| s[i].0@;
        assert(vstd::relations::injective_on(f, Set::new(|i: int| 0 <= i < s.len())));
        vstd::set_lib::lemma_map_size(Set::new(|i: int| 0 <= i < s.len()), keys, f);
    }

    /// The position of the record held under `principal`.
    fn find(&self, principal: &Principal) -> (r: Option<usize>)
        requires
            self.wf(),
        ensures
            r.is_some() == self@.contains_key(principal@),
            r matches Some(i) ==> i < self.entries@.len() && self.entries@[i as int].0@ == principal@
                && self@[principal@] == self.entries@[i as int].1,
    {
        let mut i: usize = 0;
        while i < self.entries.len()
            invariant
                self.wf(),
                0 <= i <= self.entries@.len(),
                forall|j: int| 0 <= j < i ==> (#[trigger] self.entries@[j]).0@ != principal@,
            decreases self.entries@.len() - i,
        {
            if self.entries[i].0.same_as(principal) {
                proof { lemma_entry_in_map(self.entries@, i as int); }
                return Some(i);
            }
            i = i + 1;
        }
        None
    }

    /// The position of the record with numeric id `id`.
    fn find_by_id(&self, id: u32) -> (r: Option<usize>)
        requires
            self.wf(),
        ensures
            r.is_some() == self.id_in_use(id),
            r matches Some(i) ==> i < self.entries@.len() && self.entries@[i as int].1.id == id
                && self@.contains_key(self.entries@[i as int].0@)
                && self@[self.entries@[i as int].0@] == self.entries@[i as int].1
                && self.entries@[i as int].0@ == self.key_of_id(id),
    {
        let mut i: usize = 0;
        while i < self.entries.len()
            invariant
                self.wf(),
                0 <= i <= self.entries@.len(),
                forall|j: int| 0 <= j < i ==> (#[trigger] self.entries@[j]).1.id != id,
            decreases self.entries@.len() - i,
        {
            if self.entries[i].1.id == id {
                proof {
                    lemma_entry_in_map(self.entries@, i as int);
                    let k = self.key_of_id(id);
                    self.lemma_id_unique(k, self.entries@[i as int].0@);
                }
                return Some(i);
            }
            i = i + 1;
        }
        proof {
            if self.id_in_use(id) {
                let p = choose|p: Seq<u8>| #[trigger] self@.contains_key(p) && self@[p].id == id;
                let j = choose|j: int| 0 <= j < self.entries@.len() && (#[trigger] self.entries@[j]).0@ == p;
                lemma_entry_in_map(self.entries@, j);
            }
        }
        None
    }

    pub fn get(&self, principal: &Principal) -> (r: Option<&User>)
        requires
            self.wf(),
        ensures
            r.is_some() == self@.contains_key(principal@),
            r matches Some(u) ==> *u == self@[principal@],
    {
        match self.find(principal) {
            Some(i) => Some(&self.entries[i].1),
            None => None,
        }
    }

    pub fn get_by_id(&self, id: u32) -> (r: Option<&User>)
        requires
            self.wf(),
        ensures
            r.is_some() == self.id_in_use(id),
            r matches Some(u) ==> u.id == id && exists|p: Seq<u8>| #[trigger] self@.contains_key(p) && self@[p] == *u,
    {
        match self.find_by_id(id) {
            Some(i) => Some(&self.entries[i].1),
            None => None,
        }
    }

    pub fn principal_in_use(&self, principal: &Principal) -> (r: bool)
        requires
            self.wf(),
        ensures
            r == self@.contains_key(principal@),
    {
        self.find(principal).is_some()
    }
    /// Applies an upvote by `upvoter` on `proposal_id` and returns the score change it causes.
    pub fn get_upvote_delta(&mut self, upvoter: &Principal, proposal_id: u32, now: u64) -> (r: Result<
        i32,
        Error,
    >)
        requires
            old(self).wf(),
        ensures
            final(self).wf(),
            !old(self)@.contains_key(upvoter@) ==> r == Err::<i32, Error>(Error::UserDoesNotExist)
                && *final(self) == *old(self),
            old(self)@.contains_key(upvoter@) ==> {
                let u = old(self)@[upvoter@];
                let v = final(self)@[upvoter@];
                &&& r == Ok::<i32, Error>(upvote_delta(status_of(u, proposal_id)) as i32)
                &&& final(self)@ == old(self)@.insert(upvoter@, v)
                &&& v.same_record(u)
                &&& v.last_updated == now
                &&& status_of(v, proposal_id) == after_upvote(status_of(u, proposal_id))
                &&& v.same_votes_except(u, proposal_id)
            },
    {
        let i = match self.find(upvoter) {
            Some(i) => i,
            None => return Err(Error::UserDoesNotExist),
        };
        let ghost s0 = self.entries@;
        proof { assert(s0[i as int].1.votes_wf()); }
        self.entries[i].1.last_updated = now;
        let r: i32;
        if contains_value(&self.entries[i].1.upvotes, proposal_id) {
            remove_value(&mut self.entries[i].1.upvotes, proposal_id);
            r = -1;
        } else if contains_value(&self.entries[i].1.downvotes, proposal_id) {
            remove_value(&mut self.entries[i].1.downvotes, proposal_id);
            push_value(&mut self.entries[i].1.upvotes, proposal_id);
            r = 2;
        } else {
            push_value(&mut self.entries[i].1.upvotes, proposal_id);
            r = 1;
        }
        proof {
            let u = self.entries@[i as int].1;
            assert(self.entries@ == s0.update(i as int, (s0[i as int].0, u)));
            lemma_update_entry(s0, i as int, u);
        }
        Ok(r)
    }

    /// Applies a downvote by `caller` on `proposal_id` and returns the score change it causes.
    pub fn get_downvote_delta(&mut self, caller: &Principal, proposal_id: u32, now: u64) -> (r: Result<
        i32,
        Error,
    >)
        requires
            old(self).wf(),
        ensures
            final(self).wf(),
            !old(self)@.contains_key(caller@) ==> r == Err::<i32, Error>(Error::UserDoesNotExist)
                && *final(self) == *old(self),
            old(self)@.contains_key(caller@) ==> {
                let u = old(self)@[caller@];
                let v = final(self)@[caller@];
                &&& r == Ok::<i32, Error>(downvote_delta(status_of(u, proposal_id)) as i32)
                &&& final(self)@ == old(self)@.insert(caller@, v)
                &&& v.same_record(u)
                &&& v.last_updated == now
                &&& status_of(v, proposal_id) == after_downvote(status_of(u, proposal_id))
                &&& v.same_votes_except(u, proposal_id)
            },
    {
        let i = match self.find(caller) {
            Some(i) => i,
            None => return Err(Error::UserDoesNotExist),
        };
        let ghost s0 = self.entries@;
        proof { assert(s0[i as int].1.votes_wf()); }
        self.entries[i].1.last_updated = now;
        let r: i32;
        if contains_value(&self.entries[i].1.downvotes, proposal_id) {
            remove_value(&mut self.entries[i].1.downvotes, proposal_id);
            r = 1;
        } else if contains_value(&self.entries[i].1.upvotes, proposal_id) {
            remove_value(&mut self.entries[i].1.upvotes, proposal_id);
            push_value(&mut self.entries[i].1.downvotes, proposal_id);
            r = -2;
        } else {
            push_value(&mut self.entries[i].1.downvotes, proposal_id);
            r = -1;
        }
        proof {
            let u = self.entries@[i as int].1;
            assert(self.entries@ == s0.update(i as int, (s0[i as int].0, u)));
            lemma_update_entry(s0, i as int, u);
        }
        Ok(r)
    }
    /// Adds `delta` to the karma of the user with numeric id `id`, held to the range of `i32`.
    pub fn add_karma_by_id(&mut self, id: u32, delta: i32) -> (found: bool)
        requires
            old(self).wf(),
        ensures
            final(self).wf(),
            found == old(self).id_in_use(id),
            !found ==> *final(self) == *old(self),
            found ==> {
                let k = old(self).key_of_id(id);
                let u = old(self)@[k];
                final(self)@ == old(self)@.insert(k, User { karma: clamp_i32(u.karma + delta), ..u })
            },
    {
        let i = match self.find_by_id(id) {
            Some(i) => i,
            None => return false,
        };
        let ghost s0 = self.entries@;
        let karma = saturating_add_i32(self.entries[i].1.karma, delta);
        self.entries[i].1.karma = karma;
        proof {
            let u = self.entries@[i as int].1;
            assert(self.entries@ == s0.update(i as int, (s0[i as int].0, u)));
            assert(s0[i as int].1.votes_wf());
            lemma_update_entry(s0, i as int, u);
        }
        true
    }

    /// Pays the round's winner: `amount` onto the balance (held to the range of `u64`) and a fixed
    /// karma bonus (held to the range of `i32`).
    pub fn reward_by_id(&mut self, id: u32, amount: u64) -> (found: bool)
        requires
            old(self).wf(),
        ensures
            final(self).wf(),
            found == old(self).id_in_use(id),
            !found ==> *final(self) == *old(self),
            found ==> {
                let k = old(self).key_of_id(id);
                let u = old(self)@[k];
                final(self)@ == old(self)@.insert(
                    k,
                    User {
                        karma: clamp_i32(u.karma + WINNER_KARMA),
                        withdrawable_e8s: if u.withdrawable_e8s + amount > u64::MAX {
                            u64::MAX
                        } else {
                            (u.withdrawable_e8s + amount) as u64
                        },
                        ..u
                    },
                )
            },
    {
        let i = match self.find_by_id(id) {
            Some(i) => i,
            None => return false,
        };
        let ghost s0 = self.entries@;
        let karma = saturating_add_i32(self.entries[i].1.karma, WINNER_KARMA);
        self.entries[i].1.karma = karma;
        let balance = self.entries[i].1.withdrawable_e8s.saturating_add(amount);
        self.entries[i].1.withdrawable_e8s = balance;
        proof {
            let u = self.entries@[i as int].1;
            assert(self.entries@ == s0.update(i as int, (s0[i as int].0, u)));
            assert(s0[i as int].1.votes_wf());
            lemma_update_entry(s0, i as int, u);
        }
        true
    }

    /// Records an upvote of `proposal_id` by the user with numeric id `id`, dropping a downvote
    /// of it if there was one.
    pub fn add_upvote_by_id(&mut self, id: u32, proposal_id: u32) -> (found: bool)
        requires
            old(self).wf(),
        ensures
            final(self).wf(),
            found == old(self).id_in_use(id),
            !found ==> *final(self) == *old(self),
            found ==> {
                let k = old(self).key_of_id(id);
                let u = old(self)@[k];
                let v = final(self)@[k];
                &&& final(self)@ == old(self)@.insert(k, v)
                &&& v.same_record(u)
                &&& v.last_updated == u.last_updated
                &&& status_of(v, proposal_id) == UpvoteStatus::Upvoted
                &&& v.same_votes_except(u, proposal_id)
            },
    {
        let i = match self.find_by_id(id) {
            Some(i) => i,
            None => return false,
        };
        let ghost s0 = self.entries@;
        proof { assert(s0[i as int].1.votes_wf()); }
        remove_value(&mut self.entries[i].1.downvotes, proposal_id);
        if !contains_value(&self.entries[i].1.upvotes, proposal_id) {
            push_value(&mut self.entries[i].1.upvotes, proposal_id);
        }
        proof {
            let u = self.entries@[i as int].1;
            assert(self.entries@ == s0.update(i as int, (s0[i as int].0, u)));
            lemma_update_entry(s0, i as int, u);
        }
        true
    }

    /// Marks the user with numeric id `id` as verified.
    pub fn verify_by_id(&mut self, id: u32) -> (found: bool)
        requires
            old(self).wf(),
        ensures
            final(self).wf(),
            found == old(self).id_in_use(id),
            !found ==> *final(self) == *old(self),
            found ==> {
                let k = old(self).key_of_id(id);
                let u = old(self)@[k];
                final(self)@ == old(self)@.insert(
                    k,
                    User { verification_status: VerificationStatus::Verified, ..u },
                )
            },
    {
        let i = match self.find_by_id(id) {
            Some(i) => i,
            None => return false,
        };
        let ghost s0 = self.entries@;
        self.entries[i].1.verification_status = VerificationStatus::Verified;
        proof {
            let u = self.entries@[i as int].1;
            assert(self.entries@ == s0.update(i as int, (s0[i as int].0, u)));
            assert(s0[i as int].1.votes_wf());
            lemma_update_entry(s0, i as int, u);
        }
        true
    }
    /// Registers `user` under `principal`.
    pub fn insert(&mut self, principal: Principal, user: User)
        requires
            old(self).wf(),
            !old(self)@.contains_key(principal@),
            !old(self).id_in_use(user.id),
            user.votes_wf(),
        ensures
            final(self).wf(),
            final(self)@ == old(self)@.insert(principal@, user),
    {
        proof {
            let s = self.entries@;
            assert forall|i: int| 0 <= i < s.len() implies (#[trigger] s[i]).1.id != user.id by {
                lemma_entry_in_map(s, i);
            }
            lemma_push_entry(s, principal, user);
        }
        self.entries.push((principal, user));
    }

    /// Takes the record held under `principal` out of the registry.
    pub fn remove(&mut self, principal: &Principal) -> (r: Option<User>)
        requires
            old(self).wf(),
        ensures
            final(self).wf(),
            r.is_some() == old(self)@.contains_key(principal@),
            r matches Some(u) ==> u == old(self)@[principal@],
            final(self)@ == old(self)@.remove(principal@),
    {
        match self.find(principal) {
            Some(i) => {
                proof { lemma_remove_entry(self.entries@, i as int); }
                let (_p, u) = self.entries.remove(i);
                Some(u)
            },
            None => {
                assert(self@.remove(principal@) =~= self@);
                None
            },
        }
    }

    /// Clears every user's votes and per-round post count.
    pub fn reset_round(&mut self)
        requires
            old(self).wf(),
        ensures
            final(self).wf(),
            forall|p: Seq<u8>| #[trigger] final(self)@.contains_key(p) <==> old(self)@.contains_key(p),
            forall|p: Seq<u8>| #[trigger] old(self)@.contains_key(p) ==> {
                let u = old(self)@[p];
                let v = final(self)@[p];
                &&& v.same_account(u)
                &&& v.last_updated == u.last_updated
                &&& v.nr_posts_this_round == 0
                &&& v.upvotes@.len() == 0
                &&& v.downvotes@.len() == 0
            },
    {
        let ghost s0 = self.entries@;
        let n = self.entries.len();
        let mut i: usize = 0;
        while i < n
            invariant
                n == s0.len(),
                entries_wf(s0),
                0 <= i <= n,
                self.entries@.len() == n,
                forall|j: int| i <= j < n ==> #[trigger] self.entries@[j] == s0[j],
                forall|j: int| 0 <= j < i ==> {
                    let u = s0[j].1;
                    let v = (#[trigger] self.entries@[j]).1;
                    &&& self.entries@[j].0 == s0[j].0
                    &&& v.same_account(u)
                    &&& v.last_updated == u.last_updated
                    &&& v.nr_posts_this_round == 0
                    &&& v.upvotes@.len() == 0
                    &&& v.downvotes@.len() == 0
                },
            decreases n - i,
        {
            self.entries[i].1.upvotes = Vec::new();
            self.entries[i].1.downvotes = Vec::new();
            self.entries[i].1.nr_posts_this_round = 0;
            i = i + 1;
        }
        proof {
            let t = self.entries@;
            assert forall|j: int| 0 <= j < s0.len() implies (#[trigger] t[j]).0@ == s0[j].0@ && t[j].1.id
                == s0[j].1.id && t[j].1.votes_wf() by {
                assert(t[j].1.upvotes@.len() == 0);
            }
            lemma_same_keys(s0, t);
            assert forall|p: Seq<u8>| #[trigger] old(self)@.contains_key(p) implies {
                let u = old(self)@[p];
                let v = self@[p];
                &&& v.same_account(u)
                &&& v.last_updated == u.last_updated
                &&& v.nr_posts_this_round == 0
                &&& v.upvotes@.len() == 0
                &&& v.downvotes@.len() == 0
            } by {
                let j = choose|j: int| 0 <= j < s0.len() && (#[trigger] s0[j]).0@ == p;
                lemma_entry_in_map(s0, j);
            }
        }
    }
    /// Stages a withdrawal of the whole balance of the user under `principal`.
    pub fn stage_payment(&mut self, principal: &Principal, now: u64) -> (r: Result<WithdrawalInfo, Error>)
        requires
            old(self).wf(),
        ensures
            final(self).wf(),
            r.is_err() ==> *final(self) == *old(self),
            !old(self)@.contains_key(principal@) ==> r matches Err(Error::UserDoesNotExist),
            old(self)@.contains_key(principal@) ==> {
                let u = old(self)@[principal@];
                if u.withdrawable_e8s == 0 {
                    r matches Err(Error::NoWithdrawableE8s)
                } else if u.deposit_address.is_none() {
                    r matches Err(Error::NoDepositAddress)
                } else if u.payment_in_progress {
                    r matches Err(Error::PaymentInProgress)
                } else {
                    &&& r matches Ok(info) && info.amount == u.withdrawable_e8s && info.id == u.id
                        && info.deposit_address == u.deposit_address.unwrap()
                    &&& final(self)@ == old(self)@.insert(
                        principal@,
                        User {
                            withdrawable_e8s: 0,
                            payment_in_progress: true,
                            last_updated: now,
                            ..u
                        },
                    )
                }
            },
    {
        let i = match self.find(principal) {
            Some(i) => i,
            None => return Err(Error::UserDoesNotExist),
        };
        if self.entries[i].1.withdrawable_e8s == 0 {
            return Err(Error::NoWithdrawableE8s);
        }
        let deposit_address = match &self.entries[i].1.deposit_address {
            Some(a) => *a,
            None => return Err(Error::NoDepositAddress),
        };
        if self.entries[i].1.payment_in_progress {
            return Err(Error::PaymentInProgress);
        }
        let ghost s0 = self.entries@;
        let amount = self.entries[i].1.withdrawable_e8s;
        let id = self.entries[i].1.id;
        self.entries[i].1.withdrawable_e8s = 0;
        self.entries[i].1.payment_in_progress = true;
        self.entries[i].1.last_updated = now;
        proof {
            let u = self.entries@[i as int].1;
            assert(self.entries@ == s0.update(i as int, (s0[i as int].0, u)));
            assert(s0[i as int].1.votes_wf());
            lemma_update_entry(s0, i as int, u);
        }
        Ok(WithdrawalInfo { amount, deposit_address, id })
    }

    /// Ends the withdrawal in flight for the user with numeric id `id`; where the transfer did not
    /// go through, `amount` goes back onto the balance (held to the range of `u64`).
    pub fn settle_payment_by_id(&mut self, id: u32, amount: u64, transferred: bool) -> (found: bool)
        requires
            old(self).wf(),
        ensures
            final(self).wf(),
            found == old(self).id_in_use(id),
            !found ==> *final(self) == *old(self),
            found ==> {
                let k = old(self).key_of_id(id);
                let u = old(self)@[k];
                final(self)@ == old(self)@.insert(
                    k,
                    User {
                        payment_in_progress: false,
                        withdrawable_e8s: if transferred {
                            u.withdrawable_e8s
                        } else {
                            clamp_u64(u.withdrawable_e8s + amount)
                        },
                        ..u
                    },
                )
            },
    {
        let i = match self.find_by_id(id) {
            Some(i) => i,
            None => return false,
        };
        let ghost s0 = self.entries@;
        if !transferred {
            let balance = self.entries[i].1.withdrawable_e8s.saturating_add(amount);
            self.entries[i].1.withdrawable_e8s = balance;
        }
        self.entries[i].1.payment_in_progress = false;
        proof {
            let u = self.entries@[i as int].1;
            assert(self.entries@ == s0.update(i as int, (s0[i as int].0, u)));
            assert(s0[i as int].1.votes_wf());
            lemma_update_entry(s0, i as int, u);
        }
        true
    }

    /// Records on the account under `principal` the identity it is to move to.
    pub fn set_new_auth(
        &mut self,
        principal: &Principal,
        new_principal: Principal,
        login_method: LoginMethod,
        now: u64,
    ) -> (found: bool)
        requires
            old(self).wf(),
        ensures
            final(self).wf(),
            found == old(self)@.contains_key(principal@),
            !found ==> *final(self) == *old(self),
            found ==> {
                let u = old(self)@[principal@];
                let v = final(self)@[principal@];
                &&& final(self)@ == old(self)@.insert(principal@, v)
                &&& v == User { new_auth: v.new_auth, last_updated: now, ..u }
                &&& v.new_auth matches Some(a) && a.0@ == new_principal@ && a.1 == login_method
            },
    {
        let i = match self.find(principal) {
            Some(i) => i,
            None => return false,
        };
        let ghost s0 = self.entries@;
        self.entries[i].1.new_auth = Some((new_principal, login_method));
        self.entries[i].1.last_updated = now;
        proof {
            let u = self.entries@[i as int].1;
            assert(self.entries@ == s0.update(i as int, (s0[i as int].0, u)));
            assert(s0[i as int].1.votes_wf());
            lemma_update_entry(s0, i as int, u);
        }
        true
    }

    /// Sets the display name of the user under `principal`.
    pub fn set_user_name(&mut self, principal: &Principal, name: String, now: u64) -> (found: bool)
        requires
            old(self).wf(),
        ensures
            final(self).wf(),
            found == old(self)@.contains_key(principal@),
            !found ==> *final(self) == *old(self),
            found ==> {
                let u = old(self)@[principal@];
                final(self)@ == old(self)@.insert(
                    principal@,
                    User { user_name: Some(name), last_updated: now, ..u },
                )
            },
    {
        let i = match self.find(principal) {
            Some(i) => i,
            None => return false,
        };
        let ghost s0 = self.entries@;
        self.entries[i].1.user_name = Some(name);
        self.entries[i].1.last_updated = now;
        proof {
            let u = self.entries@[i as int].1;
            assert(self.entries@ == s0.update(i as int, (s0[i as int].0, u)));
            assert(s0[i as int].1.votes_wf());
            lemma_update_entry(s0, i as int, u);
        }
        true
    }

    /// Sets the account that the user under `principal` is paid out to.
    pub fn set_deposit_address(&mut self, principal: &Principal, address: AccountIdentifier, now: u64) -> (found: bool)
        requires
            old(self).wf(),
        ensures
            final(self).wf(),
            found == old(self)@.contains_key(principal@),
            !found ==> *final(self) == *old(self),
            found ==> {
                let u = old(self)@[principal@];
                final(self)@ == old(self)@.insert(
                    principal@,
                    User { deposit_address: Some(address), last_updated: now, ..u },
                )
            },
    {
        let i = match self.find(principal) {
            Some(i) => i,
            None => return false,
        };
        let ghost s0 = self.entries@;
        self.entries[i].1.deposit_address = Some(address);
        self.entries[i].1.last_updated = now;
        proof {
            let u = self.entries@[i as int].1;
            assert(self.entries@ == s0.update(i as int, (s0[i as int].0, u)));
            assert(s0[i as int].1.votes_wf());
            lemma_update_entry(s0, i as int, u);
        }
        true
    }

    /// Counts one more proposal of this round against the user under `principal`.
    pub fn count_post(&mut self, principal: &Principal) -> (found: bool)
        requires
            old(self).wf(),
            old(self)@.contains_key(principal@) ==> old(self)@[principal@].nr_posts_this_round < u32::MAX,
        ensures
            final(self).wf(),
            found == old(self)@.contains_key(principal@),
            !found ==> *final(self) == *old(self),
            found ==> {
                let u = old(self)@[principal@];
                final(self)@ == old(self)@.insert(
                    principal@,
                    User { nr_posts_this_round: (u.nr_posts_this_round + 1) as u32, ..u },
                )
            },
    {
        let i = match self.find(principal) {
            Some(i) => i,
            None => return false,
        };
        let ghost s0 = self.entries@;
        let n = self.entries[i].1.nr_posts_this_round + 1;
        self.entries[i].1.nr_posts_this_round = n;
        proof {
            let u = self.entries@[i as int].1;
            assert(self.entries@ == s0.update(i as int, (s0[i as int].0, u)));
            assert(s0[i as int].1.votes_wf());
            lemma_update_entry(s0, i as int, u);
        }
        true
    }
    /// Whether `id` is the numeric id of a user who holds a vote.
    pub open spec fn voter_id(&self, id: u32) -> bool {
        exists|q: Seq<u8>| #[trigger] self@.contains_key(q) && self@[q].id == id && (self@[q].upvotes@.len() > 0
            || self@[q].downvotes@.len() > 0)
    }

    /// Whether `u` is a copy of the record of some user of the registry.
    pub open spec fn holds_copy(&self, u: User) -> bool {
        exists|q: Seq<u8>| #[trigger] self@.contains_key(q) && u.mirrors(self@[q])
    }

    /// Copies of the records of all users whose numeric id lies in `start..=end`.
    pub fn get_user_range(&self, start: u32, end: u32) -> (r: Vec<User>)
        requires
            self.wf(),
        ensures
            forall|i: int| 0 <= i < r@.len() ==> self.holds_copy(#[trigger] r@[i]) && start <= r@[i].id <= end,
            forall|q: Seq<u8>| #[trigger] self@.contains_key(q) && start <= self@[q].id <= end ==> exists|i: int|
                0 <= i < r@.len() && (#[trigger] r@[i]).id == self@[q].id,
            forall|i: int, j: int| 0 <= i < j < r@.len() ==> (#[trigger] r@[i]).id != (#[trigger] r@[j]).id,
    {
        let ghost es = self.entries@;
        let mut r: Vec<User> = Vec::new();
        let ghost mut src: Seq<int> = Seq::empty();
        let mut i: usize = 0;
        while i < self.entries.len()
            invariant
                self.wf(),
                es == self.entries@,
                0 <= i <= es.len(),
                src.len() == r@.len(),
                forall|k: int| 0 <= k < r@.len() ==> 0 <= #[trigger] src[k] < i && r@[k].mirrors(es[src[k]].1),
                forall|k: int, k2: int| 0 <= k < k2 < r@.len() ==> #[trigger] src[k] < #[trigger] src[k2],
                forall|j: int| 0 <= j < i && start <= (#[trigger] es[j]).1.id <= end ==> exists|k: int|
                    0 <= k < src.len() && #[trigger] src[k] == j,
                forall|k: int| 0 <= k < r@.len() ==> start <= (#[trigger] r@[k]).id <= end,
            decreases es.len() - i,
        {
            let id = self.entries[i].1.id;
            if start <= id && id <= end {
                let c = self.entries[i].1.copy();
                let ghost before = src;
                r.push(c);
                proof {
                    src = src.push(i as int);
                    assert forall|j: int| 0 <= j < i + 1 && start <= (#[trigger] es[j]).1.id <= end implies exists|k: int|
                        0 <= k < src.len() && #[trigger] src[k] == j by {
                        if j < i {
                            let k = choose|k: int| 0 <= k < before.len() && #[trigger] before[k] == j;
                            assert(src[k] == j);
                        } else {
                            assert(src[src.len() - 1] == j);
                        }
                    }
                }
            }
            i = i + 1;
        }
        proof {
            assert forall|k: int| 0 <= k < r@.len() implies self.holds_copy(#[trigger] r@[k]) by {
                lemma_entry_in_map(es, src[k]);
                assert(self@.contains_key(es[src[k]].0@));
            }
            assert forall|q: Seq<u8>| #[trigger] self@.contains_key(q) && start <= self@[q].id <= end implies exists|k: int|
                0 <= k < r@.len() && (#[trigger] r@[k]).id == self@[q].id by {
                let j = choose|j: int| 0 <= j < es.len() && (#[trigger] es[j]).0@ == q;
                lemma_entry_in_map(es, j);
                let k = choose|k: int| 0 <= k < src.len() && #[trigger] src[k] == j;
                assert(r@[k].id == self@[q].id);
            }
            assert forall|k: int, k2: int| 0 <= k < k2 < r@.len() implies (#[trigger] r@[k]).id != (#[trigger] r@[k2]).id by {
                assert(src[k] < src[k2]);
                assert(es[src[k]].1.id != es[src[k2]].1.id);
            }
        }
        r
    }

    /// Copies of the records of all users.
    pub fn get_users(&self) -> (r: Vec<User>)
        requires
            self.wf(),
        ensures
            forall|i: int| 0 <= i < r@.len() ==> self.holds_copy(#[trigger] r@[i]),
            forall|q: Seq<u8>| #[trigger] self@.contains_key(q) ==> exists|i: int|
                0 <= i < r@.len() && (#[trigger] r@[i]).id == self@[q].id,
            forall|i: int, j: int| 0 <= i < j < r@.len() ==> (#[trigger] r@[i]).id != (#[trigger] r@[j]).id,
    {
        self.get_user_range(0, u32::MAX)
    }

    /// Each user changed after `since` (every user where it is `None`), with the identity it is
    /// held under.
    fn collect_entries(&self, since: Option<u64>) -> (r: Vec<(Principal, User)>)
        requires
            self.wf(),
        ensures
            forall|i: int| 0 <= i < r@.len() ==> self@.contains_key((#[trigger] r@[i]).0@) && r@[i].1.mirrors(
                self@[r@[i].0@],
            ) && changed_after(r@[i].1, since),
            forall|q: Seq<u8>| #[trigger] self@.contains_key(q) && changed_after(self@[q], since) ==> exists|i: int|
                0 <= i < r@.len() && (#[trigger] r@[i]).0@ == q,
            forall|i: int, j: int| 0 <= i < j < r@.len() ==> (#[trigger] r@[i]).0@ != (#[trigger] r@[j]).0@,
    {
        let ghost es = self.entries@;
        let mut r: Vec<(Principal, User)> = Vec::new();
        let ghost mut src: Seq<int> = Seq::empty();
        let mut i: usize = 0;
        while i < self.entries.len()
            invariant
                self.wf(),
                es == self.entries@,
                0 <= i <= es.len(),
                src.len() == r@.len(),
                forall|k: int| 0 <= k < r@.len() ==> 0 <= #[trigger] src[k] < i && r@[k].1.mirrors(es[src[k]].1)
                    && r@[k].0@ == es[src[k]].0@ && changed_after(es[src[k]].1, since),
                forall|k: int, k2: int| 0 <= k < k2 < r@.len() ==> #[trigger] src[k] < #[trigger] src[k2],
                forall|j: int| 0 <= j < i && changed_after(#[trigger] es[j].1, since) ==> exists|k: int|
                    0 <= k < src.len() && #[trigger] src[k] == j,
            decreases es.len() - i,
        {
            let wanted = match since {
                Some(t) => self.entries[i].1.last_updated > t,
                None => true,
            };
            if wanted {
                let c = self.entries[i].1.copy();
                let p = self.entries[i].0.copy();
                let ghost before = src;
                r.push((p, c));
                proof {
                    src = src.push(i as int);
                    assert forall|j: int| 0 <= j < i + 1 && changed_after(#[trigger] es[j].1, since) implies exists|k: int|
                        0 <= k < src.len() && #[trigger] src[k] == j by {
                        if j < i {
                            let k = choose|k: int| 0 <= k < before.len() && #[trigger] before[k] == j;
                            assert(src[k] == j);
                        } else {
                            assert(src[src.len() - 1] == j);
                        }
                    }
                }
            }
            i = i + 1;
        }
        proof {
            assert forall|k: int| 0 <= k < r@.len() implies self@.contains_key((#[trigger] r@[k]).0@) && r@[k].1.mirrors(
                self@[r@[k].0@],
            ) && changed_after(r@[k].1, since) by {
                lemma_entry_in_map(es, src[k]);
            }
            assert forall|q: Seq<u8>| #[trigger] self@.contains_key(q) && changed_after(self@[q], since) implies exists|k: int|
                0 <= k < r@.len() && (#[trigger] r@[k]).0@ == q by {
                let j = choose|j: int| 0 <= j < es.len() && (#[trigger] es[j]).0@ == q;
                lemma_entry_in_map(es, j);
                let k = choose|k: int| 0 <= k < src.len() && #[trigger] src[k] == j;
                assert(r@[k].0@ == q);
            }
            assert forall|k: int, k2: int| 0 <= k < k2 < r@.len() implies (#[trigger] r@[k]).0@ != (#[trigger] r@[k2]).0@ by {
                assert(src[k] < src[k2]);
            }
        }
        r
    }

    /// Each user changed after `time`, with the identity it is held under.
    pub fn get_changed_users(&self, time: u64) -> (r: Vec<(Principal, User)>)
        requires
            self.wf(),
        ensures
            forall|i: int| 0 <= i < r@.len() ==> self@.contains_key((#[trigger] r@[i]).0@) && r@[i].1.mirrors(
                self@[r@[i].0@],
            ) && r@[i].1.last_updated > time,
            forall|q: Seq<u8>| #[trigger] self@.contains_key(q) && self@[q].last_updated > time ==> exists|i: int|
                0 <= i < r@.len() && (#[trigger] r@[i]).0@ == q,
            forall|i: int, j: int| 0 <= i < j < r@.len() ==> (#[trigger] r@[i]).0@ != (#[trigger] r@[j]).0@,
    {
        self.collect_entries(Some(time))
    }

    /// Every user, with the identity it is held under.
    pub fn get_entries(&self) -> (r: Vec<(Principal, User)>)
        requires
            self.wf(),
        ensures
            forall|i: int| 0 <= i < r@.len() ==> self@.contains_key((#[trigger] r@[i]).0@) && r@[i].1.mirrors(
                self@[r@[i].0@],
            ),
            forall|q: Seq<u8>| #[trigger] self@.contains_key(q) ==> exists|i: int|
                0 <= i < r@.len() && (#[trigger] r@[i]).0@ == q,
            forall|i: int, j: int| 0 <= i < j < r@.len() ==> (#[trigger] r@[i]).0@ != (#[trigger] r@[j]).0@,
    {
        self.collect_entries(None)
    }

    /// The numeric ids of all users who hold a vote.
    pub fn get_all_users_that_voted(&self) -> (r: Vec<u32>)
        requires
            self.wf(),
        ensures
            forall|i: int| 0 <= i < r@.len() ==> self.voter_id(#[trigger] r@[i]),
            forall|q: Seq<u8>| #[trigger] self@.contains_key(q) && (self@[q].upvotes@.len() > 0 || self@[q].downvotes@.len()
                > 0) ==> r@.contains(self@[q].id),
    {
        let mut r: Vec<u32> = Vec::new();
        let mut i: usize = 0;
        while i < self.entries.len()
            invariant
                self.wf(),
                0 <= i <= self.entries@.len(),
                forall|k: int| 0 <= k < r@.len() ==> self.voter_id(#[trigger] r@[k]),
                forall|j: int| 0 <= j < i && ((#[trigger] self.entries@[j]).1.upvotes@.len() > 0
                    || self.entries@[j].1.downvotes@.len() > 0) ==> r@.contains(self.entries@[j].1.id),
            decreases self.entries@.len() - i,
        {
            if self.entries[i].1.upvotes.len() > 0 || self.entries[i].1.downvotes.len() > 0 {
                proof {
                    lemma_entry_in_map(self.entries@, i as int);
                }
                let ghost before = r@;
                r.push(self.entries[i].1.id);
                proof {
                    assert(r@[r@.len() - 1] == self.entries@[i as int].1.id);
                    assert forall|j: int| 0 <= j < i && ((#[trigger] self.entries@[j]).1.upvotes@.len() > 0
                        || self.entries@[j].1.downvotes@.len() > 0) implies r@.contains(self.entries@[j].1.id) by {
                        let k = choose|k: int| 0 <= k < before.len() && before[k] == self.entries@[j].1.id;
                        assert(r@[k] == before[k]);
                    }
                    assert forall|k: int| 0 <= k < r@.len() implies self.voter_id(#[trigger] r@[k]) by {
                        if k < before.len() {
                            assert(r@[k] == before[k]);
                        } else {
                            assert(self@.contains_key(self.entries@[i as int].0@));
                        }
                    }
                }
            }
            i = i + 1;
        }
        proof {
            assert forall|q: Seq<u8>| #[trigger] self@.contains_key(q) && (self@[q].upvotes@.len() > 0
                || self@[q].downvotes@.len() > 0) implies r@.contains(self@[q].id) by {
                let j = choose|j: int| 0 <= j < self.entries@.len() && (#[trigger] self.entries@[j]).0@ == q;
                lemma_entry_in_map(self.entries@, j);
            }
        }
        r
    }
    /// At most `nr_of_users` users, highest karma first: copies of distinct users, and any user
    /// left out has no more karma than any user listed. Fewer are listed only when all are.
    pub fn get_users_by_karma(&self, nr_of_users: u32) -> (r: Vec<User>)
        requires
            self.wf(),
        ensures
            r@.len() <= nr_of_users,
            forall|i: int| 0 <= i < r@.len() ==> self.holds_copy(#[trigger] r@[i]),
            forall|i: int, j: int| 0 <= i < j < r@.len() ==> (#[trigger] r@[i]).id != (#[trigger] r@[j]).id,
            forall|i: int, j: int| 0 <= i < j < r@.len() ==> (#[trigger] r@[i]).karma >= (#[trigger] r@[j]).karma,
            forall|q: Seq<u8>, i: int|
                #[trigger] self@.contains_key(q) && 0 <= i < r@.len() && (forall|k: int| 0 <= k < r@.len() ==> (#[trigger] r@[k]).id
                    != self@[q].id) ==> self@[q].karma <= (#[trigger] r@[i]).karma,
            r@.len() < nr_of_users ==> forall|q: Seq<u8>| #[trigger] self@.contains_key(q) ==> exists|i: int|
                0 <= i < r@.len() && (#[trigger] r@[i]).id == self@[q].id,
    {
        let ghost es = self.entries@;
        let n = nr_of_users as usize;
        let mut taken: Vec<bool> = Vec::new();
        let mut t: usize = 0;
        while t < self.entries.len()
            invariant
                es == self.entries@,
                0 <= t <= es.len(),
                taken@.len() == t,
                forall|j: int| 0 <= j < t ==> !(#[trigger] taken@[j]),
            decreases es.len() - t,
        {
            taken.push(false);
            t = t + 1;
        }
        let mut r: Vec<User> = Vec::new();
        let ghost mut src: Seq<int> = Seq::empty();
        let mut done = false;
        while !done && r.len() < n
            invariant
                self.wf(),
                es == self.entries@,
                taken@.len() == es.len(),
                src.len() == r@.len(),
                r@.len() <= n,
                forall|k: int| 0 <= k < r@.len() ==> 0 <= #[trigger] src[k] < es.len() && r@[k].mirrors(es[src[k]].1)
                    && taken@[src[k]],
                forall|k: int, k2: int| 0 <= k < r@.len() && 0 <= k2 < r@.len() && k != k2 ==> #[trigger] src[k]
                    != #[trigger] src[k2],
                forall|j: int| 0 <= j < es.len() && #[trigger] taken@[j] ==> exists|k: int| 0 <= k < src.len() && #[trigger] src[k] == j,
                forall|k: int, k2: int| 0 <= k < k2 < r@.len() ==> (#[trigger] r@[k]).karma >= (#[trigger] r@[k2]).karma,
                forall|j: int, k: int| 0 <= j < es.len() && !(#[trigger] taken@[j]) && 0 <= k < r@.len() ==> (#[trigger] es[j]).1.karma
                    <= (#[trigger] r@[k]).karma,
                done ==> forall|j: int| 0 <= j < es.len() ==> #[trigger] taken@[j],
            decreases n - r@.len() + (if done { 0int } else { 1int }),
        {
            let mut best: usize = 0;
            let mut found = false;
            let mut j: usize = 0;
            while j < self.entries.len()
                invariant
                    es == self.entries@,
                    taken@.len() == es.len(),
                    0 <= j <= es.len(),
                    found ==> best < j && !taken@[best as int],
                    found ==> forall|m: int| 0 <= m < j && !(#[trigger] taken@[m]) ==> es[m].1.karma <= es[best as int].1.karma,
                    !found ==> forall|m: int| 0 <= m < j ==> #[trigger] taken@[m],
                decreases es.len() - j,
            {
                if !taken[j] && (!found || self.entries[j].1.karma > self.entries[best].1.karma) {
                    best = j;
                    found = true;
                }
                j = j + 1;
            }
            if !found {
                done = true;
            } else {
                let c = self.entries[best].1.copy();
                let ghost before = src;
                let ghost tk = taken@;
                taken.set(best, true);
                r.push(c);
                proof {
                    src = src.push(best as int);
                    assert forall|m: int| 0 <= m < es.len() && #[trigger] taken@[m] implies exists|k: int|
                        0 <= k < src.len() && #[trigger] src[k] == m by {
                        if m != best {
                            assert(tk[m]);
                            let k = choose|k: int| 0 <= k < before.len() && #[trigger] before[k] == m;
                            assert(src[k] == m);
                        } else {
                            assert(src[src.len() - 1] == m);
                        }
                    }
                    assert forall|k: int, k2: int| 0 <= k < r@.len() && 0 <= k2 < r@.len() && k != k2 implies #[trigger] src[k]
                        != #[trigger] src[k2] by {
                        if k == r@.len() - 1 {
                            assert(tk[src[k2]]);
                        } else if k2 == r@.len() - 1 {
                            assert(tk[src[k]]);
                        }
                    }
                    assert forall|k: int, k2: int| 0 <= k < k2 < r@.len() implies (#[trigger] r@[k]).karma
                        >= (#[trigger] r@[k2]).karma by {
                        if k2 == r@.len() - 1 {
                            assert(!tk[best as int]);
                        }
                    }
                }
            }
        }
        proof {
            assert forall|k: int| 0 <= k < r@.len() implies self.holds_copy(#[trigger] r@[k]) by {
                lemma_entry_in_map(es, src[k]);
                assert(self@.contains_key(es[src[k]].0@));
            }
            assert forall|k: int, k2: int| 0 <= k < k2 < r@.len() implies (#[trigger] r@[k]).id != (#[trigger] r@[k2]).id by {
                assert(src[k] != src[k2]);
                assert(es[src[k]].1.id != es[src[k2]].1.id);
            }
            assert forall|q: Seq<u8>, i: int|
                #[trigger] self@.contains_key(q) && 0 <= i < r@.len() && (forall|k: int| 0 <= k < r@.len() ==> (#[trigger] r@[k]).id
                    != self@[q].id) implies self@[q].karma <= (#[trigger] r@[i]).karma by {
                let j = choose|j: int| 0 <= j < es.len() && (#[trigger] es[j]).0@ == q;
                lemma_entry_in_map(es, j);
                if taken@[j] {
                    let k = choose|k: int| 0 <= k < src.len() && #[trigger] src[k] == j;
                    assert(r@[k].id == self@[q].id);
                }
            }
            if r@.len() < n {
                assert forall|q: Seq<u8>| #[trigger] self@.contains_key(q) implies exists|i: int|
                    0 <= i < r@.len() && (#[trigger] r@[i]).id == self@[q].id by {
                    let j = choose|j: int| 0 <= j < es.len() && (#[trigger] es[j]).0@ == q;
                    lemma_entry_in_map(es, j);
                    assert(taken@[j]);
                    let k = choose|k: int| 0 <= k < src.len() && #[trigger] src[k] == j;
                    assert(r@[k].id == self@[q].id);
                }
            }
        }
        r
    }
}

} // verus!
