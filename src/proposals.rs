use vstd::prelude::*;
use vstd::string::StringExecFns;

use crate::principal::Principal;
use crate::users::UpvoteStatus;

verus! {

/// The content of a proposal: text alone, or text with a reference to an image.
#[derive(Debug)]
pub enum Tweet {
    Tweet(String),
    ImageTweet { tweet: String, image_path: String },
}

/// The text of a proposal, without any image reference.
pub open spec fn text_of(t: Tweet) -> Seq<char> {
    match t {
        Tweet::Tweet(s) => s@,
        Tweet::ImageTweet { tweet, .. } => tweet@,
    }
}

/// The content as published: the text, then a space and the image reference if there is one.
pub open spec fn published_text(t: Tweet) -> Seq<char> {
    match t {
        Tweet::Tweet(s) => s@,
        Tweet::ImageTweet { tweet, image_path } => tweet@ + seq![' '] + image_path@,
    }
}

impl Tweet {
    pub fn to_string(&self) -> (r: String)
        ensures
            r@ == published_text(*self),
    {
        match self {
            Tweet::Tweet(tweet) => tweet.clone(),
            Tweet::ImageTweet { tweet, image_path } => {
                proof {
                    reveal_strlit(" ");
                }
                let with_space = tweet.clone().concat(" ");
                with_space.concat(image_path.as_str())
            },
        }
    }

    pub fn get_tweet(&self) -> (r: &String)
        ensures
            r@ == text_of(*self),
    {
        match self {
            Tweet::Tweet(tweet) => tweet,
            Tweet::ImageTweet { tweet, .. } => tweet,
        }
    }

    pub fn copy(&self) -> (r: Tweet)
        ensures
            r == *self,
    {
        match self {
            Tweet::Tweet(tweet) => Tweet::Tweet(tweet.clone()),
            Tweet::ImageTweet { tweet, image_path } => Tweet::ImageTweet {
                tweet: tweet.clone(),
                image_path: image_path.clone(),
            },
        }
    }
}

#[derive(Debug)]
pub struct Proposal {
    pub tweet: Tweet,
    pub points: i32,
    pub created_by_id: u32,
    pub created_at: u64,
    pub reports: Vec<Principal>,
}

/// How many have reported the proposal, held to the range of `u32`.
pub open spec fn report_count(p: Proposal) -> u32 {
    if p.reports@.len() > u32::MAX {
        u32::MAX
    } else {
        p.reports@.len() as u32
    }
}

/// Whether `p` has reported the proposal.
pub open spec fn reported_by(reports: Seq<Principal>, p: Seq<u8>) -> bool {
    exists|i: int| 0 <= i < reports.len() && (#[trigger] reports[i])@ == p
}

impl Proposal {
    /// No identity is among the reporters twice.
    pub open spec fn reports_distinct(&self) -> bool {
        forall|i: int, j: int|
            0 <= i < j < self.reports@.len() ==> (#[trigger] self.reports@[i])@ != (#[trigger] self.reports@[j])@
    }

    /// A copy that holds the same values.
    pub open spec fn mirrors(&self, o: Proposal) -> bool {
        &&& self.tweet == o.tweet
        &&& self.points == o.points
        &&& self.created_by_id == o.created_by_id
        &&& self.created_at == o.created_at
        &&& self.reports@.len() == o.reports@.len()
        &&& forall|i: int| 0 <= i < self.reports@.len() ==> (#[trigger] self.reports@[i])@ == o.reports@[i]@
    }

    pub fn copy(&self) -> (r: Proposal)
        ensures
            r.mirrors(*self),
    {
        let mut reports: Vec<Principal> = Vec::new();
        let mut i: usize = 0;
        while i < self.reports.len()
            invariant
                0 <= i <= self.reports@.len(),
                reports@.len() == i,
                forall|j: int| 0 <= j < i ==> (#[trigger] reports@[j])@ == self.reports@[j]@,
            decreases self.reports@.len() - i,
        {
            reports.push(self.reports[i].copy());
            i = i + 1;
        }
        Proposal {
            tweet: self.tweet.copy(),
            points: self.points,
            created_by_id: self.created_by_id,
            created_at: self.created_at,
            reports,
        }
    }

    /// Whether `p` is among those who reported the proposal.
    pub fn is_reported_by(&self, p: &Principal) -> (r: bool)
        ensures
            r == reported_by(self.reports@, p@),
    {
        let mut i: usize = 0;
        while i < self.reports.len()
            invariant
                0 <= i <= self.reports@.len(),
                forall|j: int| 0 <= j < i ==> (#[trigger] self.reports@[j])@ != p@,
            decreases self.reports@.len() - i,
        {
            if self.reports[i].same_as(p) {
                return true;
            }
            i = i + 1;
        }
        false
    }
}

/// A proposal as one viewer sees it.
#[derive(Debug)]
pub struct ProposalInfo {
    pub id: u32,
    pub tweet: Tweet,
    pub points: i32,
    pub created_by: u32,
    pub created_at: u64,
    pub upvote_status: UpvoteStatus,
    pub nr_of_reports: u32,
    pub reported: bool,
}

impl ProposalInfo {
    pub fn from_proposal(proposal: &Proposal, id: u32, upvote_status: UpvoteStatus, caller: &Principal) -> (r:
        ProposalInfo)
        ensures
            r.id == id,
            r.tweet == proposal.tweet,
            r.points == proposal.points,
            r.created_by == proposal.created_by_id,
            r.created_at == proposal.created_at,
            r.upvote_status == upvote_status,
            r.nr_of_reports == report_count(*proposal),
            r.reported == reported_by(proposal.reports@, caller@),
    {
        let n = proposal.reports.len();
        ProposalInfo {
            id,
            tweet: proposal.tweet.copy(),
            points: proposal.points,
            created_by: proposal.created_by_id,
            created_at: proposal.created_at,
            nr_of_reports: if n > u32::MAX as usize {
                u32::MAX
            } else {
                n as u32
            },
            reported: proposal.is_reported_by(caller),
            upvote_status,
        }
    }
}

/// The winner of one round, kept for good.
#[derive(Debug)]
pub struct RoundResult {
    pub round_id: u32,
    pub winning_proposal: Proposal,
    pub proposal_tweeted: bool,
}

} // verus!
