use ic_ledger_types::AccountIdentifier;
use john_dao::principal::Principal;
use john_dao::proposals::{Proposal, Tweet};
use john_dao::state::{Settings, State, TransferOutcome, Vote};
use john_dao::users::{Badge, LoginMethod, UpvoteStatus, User};
use john_dao::{sec_to_nanos, Error};

fn principal(b: u8) -> Principal {
    Principal::from_bytes(vec![b, b, 1])
}

fn admin() -> Principal {
    principal(200)
}

fn fresh() -> State {
    State::new(admin(), 1_000)
}

fn with_users(n: u8) -> State {
    let mut s = fresh();
    for b in 1..=n {
        s.create_user(&admin(), principal(b), 5).unwrap();
    }
    s
}

fn text(t: &str) -> Tweet {
    Tweet::Tweet(t.to_string())
}

fn user<'a>(s: &'a State, b: u8) -> &'a User {
    s.users.get(&principal(b)).unwrap()
}

fn points(s: &State, id: u32) -> i32 {
    s.proposals.iter().find(|e| e.0 == id).unwrap().1.points
}

fn account() -> AccountIdentifier {
    AccountIdentifier::try_from([7u8; 28]).unwrap()
}

#[test]
fn sec_to_nanos_scales_seconds() {
    assert_eq!(sec_to_nanos(3), 3_000_000_000);
    assert_eq!(sec_to_nanos(0), 0);
}

#[test]
fn new_state_has_defaults() {
    let s = fresh();
    assert_eq!(s.next_user_id, 1);
    assert_eq!(s.next_proposal_id, 0);
    assert_eq!(s.settings.round_duration_seconds, 43_200);
    assert_eq!(s.settings.max_state_size_bytes, 1_000_000_000);
    assert_eq!(s.settings.reward_per_round_e8s, 100_000_000);
    assert_eq!(s.settings.max_proposals_per_round, 1500);
    assert_eq!(s.settings.max_proposals_per_user, 5);
    assert_eq!(s.round_end_time, 1_000 + 43_200 * 1_000_000_000);
}

#[test]
fn tweet_text_and_published_form() {
    let plain = text("hello");
    assert_eq!(plain.to_string(), "hello");
    assert_eq!(plain.get_tweet(), "hello");
    let image = Tweet::ImageTweet { tweet: "look".to_string(), image_path: "img/1.png".to_string() };
    assert_eq!(image.to_string(), "look img/1.png");
    assert_eq!(image.get_tweet(), "look");
}

#[test]
fn create_user_assigns_ids_and_early_badge() {
    let mut s = fresh();
    assert_eq!(s.create_user(&admin(), principal(1), 9).unwrap(), 1);
    assert_eq!(s.create_user(&admin(), principal(2), 9).unwrap(), 2);
    let u = user(&s, 1);
    assert_eq!(u.id, 1);
    assert_eq!(u.karma, 10);
    assert_eq!(u.withdrawable_e8s, 0);
    assert_eq!(u.last_updated, 9);
    assert!(matches!(u.login_method, LoginMethod::Twitter));
    assert_eq!(u.badges.len(), 1);
    assert!(matches!(u.badges[0], Badge::OG));
}

#[test]
fn early_badge_stops_after_first_thousand() {
    let mut s = fresh();
    s.next_user_id = 1000;
    let id = s.create_user(&admin(), principal(1), 0).unwrap();
    assert_eq!(id, 1000);
    assert_eq!(user(&s, 1).badges.len(), 1);
    let id = s.create_user(&admin(), principal(2), 0).unwrap();
    assert_eq!(id, 1001);
    assert_eq!(user(&s, 2).badges.len(), 0);
}

#[test]
fn create_user_rejects_non_admin_and_duplicates() {
    let mut s = with_users(1);
    assert!(matches!(s.create_user(&principal(1), principal(9), 0), Err(Error::NoPermission)));
    assert!(matches!(s.create_user(&admin(), principal(1), 0), Err(Error::UserExistsAlready)));
    assert_eq!(s.next_user_id, 2);
}

#[test]
fn create_proposal_self_upvotes() {
    let mut s = with_users(1);
    let id = s.create_proposal(&principal(1), text("first"), 77).unwrap();
    assert_eq!(id, 0);
    assert_eq!(points(&s, 0), 1);
    let u = user(&s, 1);
    assert_eq!(u.karma, 11);
    assert_eq!(u.nr_posts_this_round, 1);
    assert!(u.upvotes.contains(&0));
    assert_eq!(s.proposals[0].1.created_by_id, 1);
    assert_eq!(s.proposals[0].1.created_at, 77);
    assert_eq!(s.next_proposal_id, 1);
}

#[test]
fn create_proposal_limits() {
    let mut s = with_users(2);
    assert!(matches!(s.create_proposal(&principal(9), text("x"), 0), Err(Error::UserDoesNotExist)));
    for i in 0..5 {
        assert_eq!(s.create_proposal(&principal(1), text("x"), 0).unwrap(), i);
    }
    assert!(matches!(s.create_proposal(&principal(1), text("x"), 0), Err(Error::UserProposalLimitReached)));
    s.settings.max_proposals_per_round = 5;
    assert!(matches!(s.create_proposal(&principal(2), text("x"), 0), Err(Error::ProposalLimitReached)));
}

#[test]
fn create_proposal_length_cap() {
    let mut s = with_users(1);
    let long = "a".repeat(281);
    assert!(matches!(s.create_proposal(&principal(1), text(&long), 0), Err(Error::TweetTooLong)));
    let exact = "é".repeat(280);
    assert!(s.create_proposal(&principal(1), text(&exact), 0).is_ok());
    let image = Tweet::ImageTweet { tweet: "a".repeat(280), image_path: "p".repeat(50) };
    assert!(s.create_proposal(&principal(1), image, 0).is_ok());
}

#[test]
fn upvote_twice_restores_score_and_karma() {
    let mut s = with_users(2);
    let id = s.create_proposal(&principal(1), text("p"), 0).unwrap();
    let score = points(&s, id);
    let karma = user(&s, 1).karma;
    s.vote_for_proposal(&principal(2), id, Vote::Upvote, 1).unwrap();
    assert_eq!(points(&s, id), score + 1);
    assert_eq!(user(&s, 1).karma, karma + 1);
    s.vote_for_proposal(&principal(2), id, Vote::Upvote, 2).unwrap();
    assert_eq!(points(&s, id), score);
    assert_eq!(user(&s, 1).karma, karma);
    assert!(!user(&s, 2).upvotes.contains(&id));
    assert_eq!(user(&s, 2).last_updated, 2);
}

#[test]
fn downvote_then_upvote_adds_two() {
    let mut s = with_users(2);
    let id = s.create_proposal(&principal(1), text("p"), 0).unwrap();
    s.vote_for_proposal(&principal(2), id, Vote::Downvote, 0).unwrap();
    let after_down = points(&s, id);
    assert_eq!(after_down, 0);
    s.vote_for_proposal(&principal(2), id, Vote::Upvote, 0).unwrap();
    assert_eq!(points(&s, id), after_down + 2);
    let voter = user(&s, 2);
    assert!(voter.upvotes.contains(&id));
    assert!(!voter.downvotes.contains(&id));
}

#[test]
fn downvote_raises_author_karma() {
    let mut s = with_users(2);
    let id = s.create_proposal(&principal(1), text("p"), 0).unwrap();
    let karma = user(&s, 1).karma;
    s.vote_for_proposal(&principal(2), id, Vote::Downvote, 0).unwrap();
    assert_eq!(points(&s, id), 0);
    assert_eq!(user(&s, 1).karma, karma + 1);
    s.vote_for_proposal(&principal(2), id, Vote::Downvote, 0).unwrap();
    assert_eq!(points(&s, id), 1);
    assert_eq!(user(&s, 1).karma, karma);
}

#[test]
fn upvote_then_downvote_subtracts_two() {
    let mut s = with_users(2);
    let id = s.create_proposal(&principal(1), text("p"), 0).unwrap();
    s.vote_for_proposal(&principal(2), id, Vote::Upvote, 0).unwrap();
    assert_eq!(points(&s, id), 2);
    s.vote_for_proposal(&principal(2), id, Vote::Downvote, 0).unwrap();
    assert_eq!(points(&s, id), 0);
    let voter = user(&s, 2);
    assert!(!voter.upvotes.contains(&id));
    assert!(voter.downvotes.contains(&id));
}

#[test]
fn vote_errors() {
    let mut s = with_users(1);
    assert!(matches!(s.vote_for_proposal(&principal(1), 3, Vote::Upvote, 0), Err(Error::ProposalDoesNotExist)));
    let id = s.create_proposal(&principal(1), text("p"), 0).unwrap();
    assert!(matches!(s.vote_for_proposal(&principal(9), id, Vote::Upvote, 0), Err(Error::UserDoesNotExist)));
    assert_eq!(points(&s, id), 1);
}

fn three_proposals() -> State {
    let mut s = with_users(3);
    for b in 1..=3 {
        s.create_proposal(&principal(b), text("p"), 0).unwrap();
    }
    s.proposals[0].1.points = 3;
    s.proposals[1].1.points = 5;
    s.proposals[2].1.points = 5;
    s
}

#[test]
fn conclusion_picks_lowest_id_among_highest() {
    let mut s = three_proposals();
    assert_eq!(s.winner_index(), Some(1));
    let karma = user(&s, 2).karma;
    s.conclude_round();
    assert_eq!(s.round_results.len(), 1);
    assert_eq!(s.round_results[0].round_id, 0);
    assert_eq!(s.round_results[0].winning_proposal.created_by_id, 2);
    assert_eq!(s.round_results[0].winning_proposal.points, 5);
    assert!(!s.round_results[0].proposal_tweeted);
    let winner = user(&s, 2);
    assert_eq!(winner.withdrawable_e8s, 100_000_000);
    assert_eq!(winner.karma, karma + 10);
    assert_eq!(user(&s, 1).withdrawable_e8s, 0);
}

#[test]
fn conclusion_sweeps_and_reseeds() {
    let mut s = with_users(3);
    for b in 1..=3 {
        s.create_proposal(&principal(b), text("p"), 0).unwrap();
    }
    s.vote_for_proposal(&principal(2), 0, Vote::Downvote, 0).unwrap();
    s.vote_for_proposal(&principal(3), 0, Vote::Downvote, 0).unwrap();
    s.vote_for_proposal(&principal(1), 1, Vote::Upvote, 0).unwrap();
    s.vote_for_proposal(&principal(3), 1, Vote::Upvote, 0).unwrap();
    s.proposals[2].1.points = 2;
    s.conclude_round();
    assert_eq!(s.round_results[0].winning_proposal.created_by_id, 2);
    assert_eq!(s.proposals.len(), 1);
    assert_eq!(s.proposals[0].0, 2);
    assert_eq!(s.proposals[0].1.points, 1);
    let u3 = user(&s, 3);
    assert_eq!(u3.upvotes, vec![2]);
    assert!(u3.downvotes.is_empty());
    assert_eq!(u3.nr_posts_this_round, 0);
    assert!(user(&s, 1).upvotes.is_empty());
    assert!(user(&s, 2).upvotes.is_empty());
}

#[test]
fn conclusion_without_proposals_changes_nothing() {
    let mut s = with_users(1);
    s.conclude_round();
    assert!(s.round_results.is_empty());
    assert_eq!(user(&s, 1).withdrawable_e8s, 0);
}

#[test]
fn round_timer_sets_next_end() {
    let mut s = three_proposals();
    s.on_round_timer(5_000);
    assert_eq!(s.round_results.len(), 1);
    assert_eq!(s.round_end_time, 5_000 + 43_200 * 1_000_000_000);
}

#[test]
fn restore_forces_round_length() {
    let mut s = fresh();
    s.after_restore(10);
    assert_eq!(s.settings.round_duration_seconds, 90_000);
    assert_eq!(s.round_end_time, 10 + 90_000 * 1_000_000_000);
}

#[test]
fn claim_with_zero_balance_fails() {
    let mut s = with_users(1);
    assert!(matches!(s.stage_payment(&principal(1), 0), Err(Error::NoWithdrawableE8s)));
    assert!(matches!(s.stage_payment(&principal(9), 0), Err(Error::UserDoesNotExist)));
}

fn funded() -> State {
    let mut s = with_users(1);
    let id = s.create_proposal(&principal(1), text("p"), 0).unwrap();
    assert_eq!(id, 0);
    s.conclude_round();
    assert_eq!(user(&s, 1).withdrawable_e8s, 100_000_000);
    s
}

#[test]
fn claim_without_deposit_address_fails() {
    let mut s = funded();
    assert!(matches!(s.stage_payment(&principal(1), 0), Err(Error::NoDepositAddress)));
}

#[test]
fn claim_settled_records_payment() {
    let mut s = funded();
    s.update_account_identifier(&principal(1), account(), 3).unwrap();
    let info = s.stage_payment(&principal(1), 4).unwrap();
    assert_eq!(info.amount, 100_000_000);
    assert_eq!(info.id, 1);
    assert_eq!(info.deposit_address, account());
    assert_eq!(user(&s, 1).withdrawable_e8s, 0);
    assert!(user(&s, 1).payment_in_progress);
    assert!(matches!(s.stage_payment(&principal(1), 4), Err(Error::NoWithdrawableE8s)));
    let r = s.handle_payment_result(info, TransferOutcome::Settled(42), 5);
    assert!(matches!(r, Ok(42)));
    assert_eq!(s.payment_history.len(), 1);
    assert_eq!(s.payment_history[0].block_index, 42);
    assert_eq!(s.payment_history[0].user_id, 1);
    assert_eq!(s.payment_history[0].time, 5);
    assert!(!user(&s, 1).payment_in_progress);
    assert_eq!(user(&s, 1).withdrawable_e8s, 0);
}

#[test]
fn claim_failed_restores_balance() {
    let mut s = funded();
    s.update_account_identifier(&principal(1), account(), 3).unwrap();
    let info = s.stage_payment(&principal(1), 4).unwrap();
    let r = s.handle_payment_result(info, TransferOutcome::Rejected("insufficient funds".to_string()), 5);
    match r {
        Err(Error::PaymentError(m)) => assert_eq!(m, "insufficient funds"),
        _ => panic!("expected a payment error"),
    }
    assert_eq!(user(&s, 1).withdrawable_e8s, 100_000_000);
    assert!(!user(&s, 1).payment_in_progress);
    assert!(s.payment_history.is_empty());
    let info = s.stage_payment(&principal(1), 6).unwrap();
    let r = s.handle_payment_result(info, TransferOutcome::CallFailed("timeout".to_string()), 7);
    assert!(matches!(r, Err(Error::PaymentError(ref m)) if m == "timeout"));
    assert_eq!(user(&s, 1).withdrawable_e8s, 100_000_000);
}

#[test]
fn claim_while_in_flight_fails() {
    let mut s = funded();
    s.update_account_identifier(&principal(1), account(), 3).unwrap();
    let _info = s.stage_payment(&principal(1), 4).unwrap();
    s.conclude_round();
    assert_eq!(user(&s, 1).withdrawable_e8s, 0);
    let id = s.create_proposal(&principal(1), text("q"), 0).unwrap();
    assert_eq!(id, 1);
    s.conclude_round();
    assert!(matches!(s.stage_payment(&principal(1), 8), Err(Error::PaymentInProgress)));
}

#[test]
fn identity_migration() {
    let mut s = with_users(2);
    let id = s.create_proposal(&principal(1), text("p"), 0).unwrap();
    s.vote_for_proposal(&principal(2), id, Vote::Upvote, 0).unwrap();
    let karma = user(&s, 1).karma;
    s.stage_new_principal(&principal(1), principal(50), LoginMethod::II, 1).unwrap();
    assert!(matches!(s.update_user_principal(&principal(60), &principal(1)), Err(Error::NoPermission)));
    assert!(matches!(s.update_user_principal(&principal(2), &principal(1)), Err(Error::NoPermission)));
    assert!(matches!(s.update_user_principal(&principal(50), &principal(9)), Err(Error::UserDoesNotExist)));
    s.update_user_principal(&principal(50), &principal(1)).unwrap();
    assert!(s.users.get(&principal(1)).is_none());
    let moved = user(&s, 50);
    assert_eq!(moved.id, 1);
    assert_eq!(moved.karma, karma);
    assert!(matches!(moved.login_method, LoginMethod::II));
    assert!(moved.new_auth.is_none());
    assert_eq!(s.users.get_by_id(1).unwrap().karma, karma);
    assert!(matches!(s.update_user_principal(&principal(50), &principal(1)), Err(Error::NoPermission)));
    assert!(matches!(s.create_proposal(&principal(1), text("x"), 0), Err(Error::UserDoesNotExist)));
    assert!(s.create_proposal(&principal(50), text("x"), 0).is_ok());
}

#[test]
fn migration_without_staging_is_refused() {
    let mut s = with_users(1);
    assert!(matches!(s.update_user_principal(&principal(50), &principal(1)), Err(Error::NoPermission)));
}

#[test]
fn username_rules() {
    let mut s = with_users(1);
    assert!(matches!(s.update_username(&principal(9), "x".to_string(), 0), Err(Error::UserDoesNotExist)));
    assert!(matches!(s.update_username(&principal(1), "a".repeat(16), 0), Err(Error::UsernameTooLong)));
    s.update_username(&principal(1), "ü".repeat(15), 4).unwrap();
    assert_eq!(user(&s, 1).user_name.as_deref(), Some("üüüüüüüüüüüüüüü"));
    assert_eq!(user(&s, 1).last_updated, 4);
}

#[test]
fn verify_user_is_admin_only() {
    let mut s = with_users(1);
    assert!(matches!(s.verify_user(&principal(1), 1), Err(Error::NoPermission)));
    assert!(matches!(s.verify_user(&admin(), 7), Err(Error::UserDoesNotExist)));
    s.verify_user(&admin(), 1).unwrap();
    assert!(matches!(user(&s, 1).verification_status, john_dao::users::VerificationStatus::Verified));
}

#[test]
fn report_is_idempotent() {
    let mut s = with_users(2);
    let id = s.create_proposal(&principal(1), text("p"), 0).unwrap();
    assert!(matches!(s.report_proposal(id, &principal(9)), Err(Error::UserDoesNotExist)));
    assert!(matches!(s.report_proposal(4, &principal(2)), Err(Error::ProposalDoesNotExist)));
    s.report_proposal(id, &principal(2)).unwrap();
    s.report_proposal(id, &principal(2)).unwrap();
    assert_eq!(s.proposals[0].1.reports.len(), 1);
    assert!(s.proposals[0].1.is_reported_by(&principal(2)));
}

#[test]
fn anyone_may_delete_a_proposal() {
    let mut s = with_users(1);
    let id = s.create_proposal(&principal(1), text("p"), 0).unwrap();
    assert!(matches!(s.delete_proposal(id + 1), Err(Error::ProposalDoesNotExist)));
    s.delete_proposal(id).unwrap();
    assert!(s.proposals.is_empty());
}

#[test]
fn publishing_round_results() {
    let mut s = three_proposals();
    assert!(s.poll_untweeted().is_none());
    s.conclude_round();
    let (index, tweet) = s.poll_untweeted().unwrap();
    assert_eq!(index, 0);
    assert_eq!(tweet.to_string(), "p");
    assert!(matches!(s.tweet_round_result(&principal(1), 0), Err(Error::NoPermission)));
    assert!(matches!(s.tweet_round_result(&admin(), 1), Err(Error::RoundResultDoesNotExist)));
    s.tweet_round_result(&admin(), 0).unwrap();
    assert!(s.round_results[0].proposal_tweeted);
    assert!(s.poll_untweeted().is_none());
}

#[test]
fn admin_setters() {
    let mut s = fresh();
    let settings = Settings {
        round_duration_seconds: 60,
        max_state_size_bytes: 1,
        reward_per_round_e8s: 5,
        max_proposals_per_round: 2,
        max_proposals_per_user: 1,
        max_tweet_length: 10,
    };
    let other = Settings { round_duration_seconds: 1, ..settings };
    assert!(matches!(s.update_settings(&principal(1), other), Err(Error::NoPermission)));
    s.update_settings(&admin(), settings).unwrap();
    assert_eq!(s.settings.round_duration_seconds, 60);
    assert!(matches!(s.update_last_backup_time(&principal(1), 9), Err(Error::NoPermission)));
    s.update_last_backup_time(&admin(), 9).unwrap();
    assert_eq!(s.last_user_backup, 9);
}

#[test]
fn length_cap_ignores_setting() {
    let mut s = with_users(1);
    s.settings.max_tweet_length = 100;
    assert!(matches!(s.create_proposal(&principal(1), text(&"a".repeat(300)), 0), Err(Error::TweetTooLong)));
    assert!(s.create_proposal(&principal(1), text(&"a".repeat(200)), 0).is_ok());
    s.settings.max_tweet_length = 1000;
    assert!(matches!(s.create_proposal(&principal(1), text(&"a".repeat(281)), 0), Err(Error::TweetTooLong)));
}

#[test]
fn proposal_copy_keeps_values() {
    let p = Proposal { tweet: text("t"), points: 4, created_by_id: 2, created_at: 3, reports: vec![principal(1)] };
    let c = p.copy();
    assert_eq!(c.points, 4);
    assert_eq!(c.created_by_id, 2);
    assert_eq!(c.reports.len(), 1);
    assert!(c.is_reported_by(&principal(1)));
    assert_eq!(UpvoteStatus::Upvoted, UpvoteStatus::Upvoted);
}

#[test]
fn votes_never_both_ways() {
    let mut s = with_users(3);
    let a = s.create_proposal(&principal(1), text("a"), 0).unwrap();
    let b = s.create_proposal(&principal(2), text("b"), 0).unwrap();
    let moves = [
        (3, a, Vote::Upvote),
        (3, a, Vote::Downvote),
        (3, b, Vote::Downvote),
        (1, b, Vote::Upvote),
        (1, b, Vote::Downvote),
        (3, a, Vote::Upvote),
        (2, a, Vote::Downvote),
        (2, a, Vote::Downvote),
    ];
    for (who, id, vote) in moves {
        s.vote_for_proposal(&principal(who), id, vote, 0).unwrap();
        for b in 1..=3 {
            let u = user(&s, b);
            assert!(u.upvotes.iter().all(|x| !u.downvotes.contains(x)));
        }
    }
    assert_eq!(points(&s, a), 2);
    assert_eq!(points(&s, b), -1);
}
