use ic_ledger_types::TransferError;
use john_dao::principal::Principal;
use john_dao::proposals::{ProposalInfo, Tweet};
use john_dao::state::{State, TransferOutcome, Vote};
use john_dao::users::UpvoteStatus;
use john_dao::Error;

fn principal(b: u8) -> Principal {
    Principal::from_bytes(vec![b, 9])
}

fn admin() -> Principal {
    principal(100)
}

fn populated() -> State {
    let mut s = State::new(admin(), 0);
    for b in 1..=4 {
        s.create_user(&admin(), principal(b), b as u64 * 10).unwrap();
    }
    s
}

fn text(t: &str) -> Tweet {
    Tweet::Tweet(t.to_string())
}

#[test]
fn principal_from_text_parses_textual_form() {
    let management = Principal::from_text("aaaaa-aa").unwrap();
    assert!(management.bytes.is_empty());
    let anonymous = Principal::from_text("2vxsx-fae").unwrap();
    assert_eq!(anonymous.bytes, vec![4]);
    assert!(Principal::from_text("not a principal").is_none());
    assert!(anonymous.same_as(&Principal::from_bytes(vec![4])));
    assert!(!anonymous.same_as(&management));
}

#[test]
fn ledger_outcome_conversion() {
    assert!(matches!(TransferOutcome::from_ledger(Ok(42)), TransferOutcome::Settled(42)));
    match TransferOutcome::from_ledger(Err(TransferError::TxCreatedInFuture)) {
        TransferOutcome::Rejected(m) => assert_eq!(m, "transaction's created_at_time is in future"),
        _ => panic!("expected a rejection"),
    }
}

#[test]
fn users_by_karma_orders_and_truncates() {
    let mut s = populated();
    let a = s.create_proposal(&principal(1), text("a"), 0).unwrap();
    let b = s.create_proposal(&principal(2), text("b"), 0).unwrap();
    s.vote_for_proposal(&principal(3), b, Vote::Upvote, 0).unwrap();
    s.vote_for_proposal(&principal(4), b, Vote::Upvote, 0).unwrap();
    s.vote_for_proposal(&principal(3), a, Vote::Upvote, 0).unwrap();
    let top = s.users.get_users_by_karma(2);
    assert_eq!(top.len(), 2);
    assert_eq!(top[0].id, 2);
    assert_eq!(top[0].karma, 13);
    assert_eq!(top[1].id, 1);
    assert_eq!(top[1].karma, 12);
    let all = s.users.get_users_by_karma(10);
    assert_eq!(all.len(), 4);
    assert!(all.windows(2).all(|w| w[0].karma >= w[1].karma));
    assert!(s.users.get_users_by_karma(0).is_empty());
}

#[test]
fn user_range_and_listing() {
    let s = populated();
    let mut ids: Vec<u32> = s.users.get_user_range(2, 3).iter().map(|u| u.id).collect();
    ids.sort();
    assert_eq!(ids, vec![2, 3]);
    assert_eq!(s.users.get_users().len(), 4);
    assert!(s.users.get_user_range(9, 20).is_empty());
}

#[test]
fn changed_users_since_mark() {
    let mut s = populated();
    let (changed, now) = s.get_changed_users(Some(20), 99);
    assert_eq!(now, 99);
    let mut ids: Vec<u32> = changed.iter().map(|(_, u)| u.id).collect();
    ids.sort();
    assert_eq!(ids, vec![3, 4]);
    s.update_last_backup_time(&admin(), 30).unwrap();
    let (changed, _) = s.get_changed_users(None, 100);
    assert_eq!(changed.len(), 1);
    assert!(changed[0].0.same_as(&principal(4)));
}

#[test]
fn voters_are_listed() {
    let mut s = populated();
    assert!(s.users.get_all_users_that_voted().is_empty());
    let a = s.create_proposal(&principal(1), text("a"), 0).unwrap();
    s.vote_for_proposal(&principal(3), a, Vote::Downvote, 0).unwrap();
    let mut voters = s.users.get_all_users_that_voted();
    voters.sort();
    assert_eq!(voters, vec![1, 3]);
}

#[test]
fn proposals_info_shows_viewer_votes() {
    let mut s = populated();
    let a = s.create_proposal(&principal(1), text("a"), 0).unwrap();
    let b = s.create_proposal(&principal(2), text("b"), 0).unwrap();
    s.vote_for_proposal(&principal(3), b, Vote::Downvote, 0).unwrap();
    s.report_proposal(a, &principal(3)).unwrap();
    let info: Vec<ProposalInfo> = s.get_proposals_info(&principal(3));
    assert_eq!(info.len(), 2);
    assert_eq!(info[0].id, a);
    assert_eq!(info[0].upvote_status, UpvoteStatus::NotVoted);
    assert!(info[0].reported);
    assert_eq!(info[0].nr_of_reports, 1);
    assert_eq!(info[1].nr_of_reports, 0);
    assert_eq!(info[1].upvote_status, UpvoteStatus::Downvoted);
    assert_eq!(info[1].points, 0);
    let mine = s.get_proposals_info(&principal(1));
    assert_eq!(mine[0].upvote_status, UpvoteStatus::Upvoted);
    let stranger = s.get_proposals_info(&principal(77));
    assert_eq!(stranger[0].upvote_status, UpvoteStatus::NotVoted);
    assert!(!stranger[0].reported);
    assert_eq!(s.get_proposals().len(), 2);
}

#[test]
fn get_user_returns_copy() {
    let s = populated();
    let u = s.get_user(&principal(2)).unwrap();
    assert_eq!(u.id, 2);
    assert_eq!(u.last_updated, 20);
    assert!(matches!(s.get_user(&principal(50)), Err(Error::UserDoesNotExist)));
}

#[test]
fn removing_and_inserting_users() {
    let mut s = populated();
    let removed = s.users.remove(&principal(4)).unwrap();
    assert_eq!(removed.id, 4);
    assert!(!s.users.principal_in_use(&principal(4)));
    assert!(s.users.get_by_id(4).is_none());
    s.users.insert(principal(40), removed);
    assert_eq!(s.users.get_by_id(4).unwrap().id, 4);
    assert_eq!(s.users.len(), 4);
    s.users.reset_round();
    assert!(s.users.get_all_users_that_voted().is_empty());
}
