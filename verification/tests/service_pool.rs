use rcvs_server::ballot::{Ballot, Rank};
use rcvs_server::codec::ParseError;
use rcvs_server::service::{operator_action, voted_sentinel, OperatorAction, Reply, VoteService};
use rcvs_server::thread_pool::ThreadPool;

fn names(list: &[&str]) -> Vec<String> {
    list.iter().map(|s| s.to_string()).collect()
}

fn simple_ballot(name: &str) -> Ballot {
    let mut b = Ballot::new();
    b.insert(name.to_string(), Rank::exact(1));
    b
}

#[test]
fn second_connection_from_same_identity_is_turned_away() {
    let known = names(&["A", "B", "C"]);
    let mut service = VoteService::new();
    let id = "10.0.0.1".to_string();

    assert!(!service.already_voted(&id));
    let first = service.handle_ballot(id.clone(), "[(A, 1, 1)]", &known);
    assert_eq!(first, Reply::Accepted);
    assert_eq!(service.ballot_count(), 1);

    // whatever the second payload holds, the identity is already registered
    assert!(service.already_voted(&id));
    let second = service.handle_ballot(id.clone(), "[(B, 1, 1)]", &known);
    assert_eq!(second, Reply::AlreadyVoted);
    assert_eq!(service.ballot_count(), 1);

    let third = service.handle_ballot(id, "garbage", &known);
    assert_eq!(third, Reply::AlreadyVoted);
    assert_eq!(service.ballot_count(), 1);
}

#[test]
fn rejected_ballots_mutate_nothing() {
    let known = names(&["A"]);
    let mut service = VoteService::new();
    let r = service.handle_ballot("10.0.0.2".to_string(), "[(Z, 1, 1)]", &known);
    assert_eq!(r, Reply::Rejected(ParseError::UnknownAlternative));
    let r = service.handle_ballot("10.0.0.2".to_string(), "[(A, 3, 1)]", &known);
    assert_eq!(r, Reply::Rejected(ParseError::InvalidRank));
    let r = service.handle_ballot("10.0.0.2".to_string(), "[(A, 1", &known);
    assert_eq!(r, Reply::Rejected(ParseError::ProtocolSyntax));
    assert_eq!(service.ballot_count(), 0);
    assert!(!service.already_voted(&"10.0.0.2".to_string()));
}

#[test]
fn ten_distinct_identities_all_recorded() {
    let known = names(&["A", "B"]);
    let mut service = VoteService::new();
    let mut pool = ThreadPool::new(4).unwrap();
    for i in 0..10u64 {
        pool.run(i);
    }
    // each job is one connection handler: admit one distinct identity
    let mut handled = 0u64;
    loop {
        match pool.worker_step() {
            Some(Some(job)) => {
                let id = format!("10.0.0.{}", job);
                let reply = service.handle_ballot(id, "[(A, 1, 1), (B, 2, 2)]", &known);
                assert_eq!(reply, Reply::Accepted);
                handled += 1;
            }
            Some(None) => {}
            None => break,
        }
    }
    assert_eq!(handled, 10);
    assert_eq!(service.ballot_count(), 10);
    let peers = service.peer_list();
    assert_eq!(peers.len(), 10);
    for i in 0..10usize {
        assert_eq!(peers[i], format!("10.0.0.{}", i));
        assert_eq!(service.ballots(i).len(), 2);
    }

    pool.begin_shutdown();
    while !pool.is_drained() {
        pool.worker_step();
    }
    assert_eq!(pool.executed_jobs().len(), 10);
    assert_eq!(pool.pending(), 0);
}

#[test]
fn drain_completes_only_after_all_jobs_ran() {
    let mut pool = ThreadPool::new(2).unwrap();
    for i in 0..5u64 {
        pool.run(i);
    }
    pool.begin_shutdown();
    assert!(!pool.is_drained());
    let mut seen: Vec<u64> = Vec::new();
    while !pool.is_drained() {
        if let Some(Some(job)) = pool.worker_step() {
            seen.push(job);
        }
    }
    assert_eq!(seen, vec![0, 1, 2, 3, 4]);
    assert_eq!(pool.executed_jobs(), &vec![0, 1, 2, 3, 4]);
    assert_eq!(pool.pending(), 0);
}

#[test]
fn stop_request_flips_the_accept_gate() {
    let mut service = VoteService::new();
    assert!(service.should_accept());
    let r = service.handle_ballot("10.0.0.9".to_string(), "[]", &names(&["A"]));
    assert_eq!(r, Reply::Accepted);
    service.request_stop();
    assert!(!service.should_accept());
    // already-admitted work still completes and stays recorded
    assert_eq!(service.ballot_count(), 1);
    assert_eq!(service.peer_list(), vec!["10.0.0.9".to_string()]);
}

#[test]
fn cast_is_first_come_only() {
    let mut service = VoteService::new();
    assert!(service.cast("10.1.1.1".to_string(), simple_ballot("A")));
    assert!(!service.cast("10.1.1.1".to_string(), simple_ballot("B")));
    assert!(service.cast("10.1.1.2".to_string(), simple_ballot("B")));
    assert_eq!(service.ballot_count(), 2);
    let (name, rank) = service.ballots(0).entry(0);
    assert_eq!((name.as_str(), rank.low(), rank.high()), ("A", 1, 1));
}

#[test]
fn operator_menu_mapping() {
    assert_eq!(operator_action(0), Some(OperatorAction::ShowStatus));
    assert_eq!(operator_action(1), Some(OperatorAction::ListPeers));
    assert_eq!(operator_action(2), Some(OperatorAction::CloseElection));
    assert_eq!(operator_action(3), None);
}

#[test]
fn sentinel_bytes() {
    assert_eq!(voted_sentinel(), "VOTED");
}

#[test]
fn new_pool() {
    assert!(ThreadPool::new(0).is_none(), "Size-0 pool is instanced");
    for size in 1..1000000 {
        if let Some(pool) = ThreadPool::new(size) {
            assert_eq!(
                pool.worker_count(),
                size,
                "Pool doesn't have capacity {}",
                size
            );
        } else {
            panic!("Size-{} pool isn't instanced", size);
        }
    }
}
