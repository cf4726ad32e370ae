use safehold::bytes::distinct_in_order;
use safehold::epoch::{epoch_of, epoch_seed};
use safehold::mailbox::{all_from, Envelope, Mailbox};
use safehold::retry::{Retries, RetryDecision};
use safehold::rotation::{current_partition, plan_rotation, PartitionInfo, Partitions, RotationStep};

fn id(b: u8) -> Vec<u8> {
    vec![b; 4]
}

fn envelope(sender: u8, body: u8, recipients: &[u8]) -> Envelope {
    Envelope {
        provenance: id(sender),
        signature: vec![sender, body],
        contents: vec![body; 3],
        recipients: recipients.iter().map(|r| (id(*r), vec![*r, body])).collect(),
    }
}

fn info(clone_index: u64, seed: &str, enabled: bool) -> PartitionInfo {
    PartitionInfo { clone_index, seed: seed.as_bytes().to_vec(), enabled }
}

#[test]
fn fetch_returns_each_envelope_once() {
    let mut m = Mailbox::new();
    assert!(m.deposit(envelope(1, 10, &[2, 3])));
    let first = m.fetch_and_clear(&id(2));
    assert_eq!(first.len(), 1);
    assert_eq!(first[0].provenance, id(1));
    assert_eq!(first[0].message_contents, vec![10; 3]);
    assert_eq!(first[0].agent_specific_contents, vec![2, 10]);
    assert!(m.fetch_and_clear(&id(2)).is_empty());
    assert!(!m.deposit(envelope(1, 10, &[2, 3])));
    assert!(m.fetch_and_clear(&id(2)).is_empty());
    let other = m.fetch_and_clear(&id(3));
    assert_eq!(other.len(), 1);
    assert_eq!(other[0].agent_specific_contents, vec![3, 10]);
}

#[test]
fn deposit_is_idempotent() {
    let mut m = Mailbox::new();
    assert!(m.deposit(envelope(1, 10, &[2])));
    assert!(!m.deposit(envelope(1, 10, &[2])));
    assert!(m.deposit(envelope(1, 11, &[2])));
    let got = m.fetch_and_clear(&id(2));
    assert_eq!(got.len(), 2);
    assert_eq!(got[0].message_contents, vec![10; 3]);
    assert_eq!(got[1].message_contents, vec![11; 3]);
}

#[test]
fn undelivered_export_keeps_partially_fetched_envelopes() {
    let mut m = Mailbox::new();
    m.deposit(envelope(1, 10, &[2, 3]));
    m.deposit(envelope(1, 11, &[2]));
    m.deposit(envelope(1, 12, &[]));
    assert_eq!(m.export_undelivered().len(), 2);
    m.fetch_and_clear(&id(2));
    let left = m.export_undelivered();
    assert_eq!(left.len(), 1);
    assert_eq!(left[0].contents, vec![10; 3]);
}

#[test]
fn provenance_must_be_the_caller() {
    let batch = vec![envelope(1, 10, &[2]), envelope(1, 11, &[3])];
    assert!(all_from(&batch, &id(1)));
    assert!(!all_from(&batch, &id(2)));
    assert!(all_from(&vec![], &id(2)));
}

#[test]
fn epochs_are_ten_minute_windows() {
    assert_eq!(epoch_of(0), 0);
    assert_eq!(epoch_of(599_999), 0);
    assert_eq!(epoch_of(600_000), 1);
    assert_eq!(epoch_of(1_700_000_000_000), 2_833_333);
    assert_eq!(epoch_seed(2_833_333), b"2833333".to_vec());
    assert_eq!(epoch_seed(0), b"0".to_vec());
    assert_eq!(epoch_seed(u64::MAX), u64::MAX.to_string().into_bytes());
}

#[test]
fn plan_creates_then_retires() {
    assert_eq!(plan_rotation(&vec![], &b"5".to_vec()), vec![RotationStep::Create { seed: b"5".to_vec() }]);
    let infos = vec![info(0, "4", true), info(1, "3", false), info(2, "5", true), info(3, "2", true)];
    assert_eq!(
        plan_rotation(&infos, &b"5".to_vec()),
        vec![
            RotationStep::Migrate { from: 0 },
            RotationStep::Disable { clone_index: 0 },
            RotationStep::Delete { clone_index: 0 },
            RotationStep::Migrate { from: 3 },
            RotationStep::Disable { clone_index: 3 },
            RotationStep::Delete { clone_index: 3 },
        ]
    );
    assert_eq!(current_partition(&infos, &b"5".to_vec()), Some(2));
    assert_eq!(current_partition(&infos, &b"6".to_vec()), None);
    let settled = vec![info(1, "3", false), info(2, "5", true)];
    assert!(plan_rotation(&settled, &b"5".to_vec()).is_empty());
    let twice = vec![info(0, "5", true), info(1, "5", true)];
    assert_eq!(current_partition(&twice, &b"5".to_vec()), Some(1));
    assert_eq!(
        plan_rotation(&twice, &b"5".to_vec()),
        vec![
            RotationStep::Migrate { from: 0 },
            RotationStep::Disable { clone_index: 0 },
            RotationStep::Delete { clone_index: 0 },
        ]
    );
    let fresh = vec![info(0, "4", true)];
    assert_eq!(
        plan_rotation(&fresh, &b"5".to_vec()),
        vec![
            RotationStep::Create { seed: b"5".to_vec() },
            RotationStep::Migrate { from: 0 },
            RotationStep::Disable { clone_index: 0 },
            RotationStep::Delete { clone_index: 0 },
        ]
    );
}

#[test]
fn rotation_migrates_undelivered_envelopes() {
    let e1 = epoch_seed(7);
    let e2 = epoch_seed(8);
    let mut p = Partitions::new();
    assert!(p.deposit(&e1, envelope(1, 10, &[2])).is_none());
    p.rotate(&e1);
    assert_eq!(p.infos().len(), 1);
    assert_eq!(p.deposit(&e1, envelope(1, 10, &[2, 3])), Some(true));
    assert_eq!(p.deposit(&e1, envelope(1, 11, &[3])), Some(true));
    p.rotate(&e2);
    let infos = p.infos();
    assert_eq!(infos.len(), 1);
    assert_eq!(infos[0].clone_index, 1);
    assert_eq!(infos[0].seed, e2);
    assert!(p.mailbox_of(0).is_none());
    assert!(p.fetch_and_clear(&e1, &id(2)).is_none());
    let for_two = p.fetch_and_clear(&e2, &id(2)).unwrap();
    assert_eq!(for_two.len(), 1);
    assert_eq!(for_two[0].agent_specific_contents, vec![2, 10]);
    let for_three = p.fetch_and_clear(&e2, &id(3)).unwrap();
    assert_eq!(for_three.len(), 2);
    assert!(p.fetch_and_clear(&e2, &id(3)).unwrap().is_empty());
}

#[test]
fn second_rotation_changes_nothing() {
    let e1 = epoch_seed(7);
    let e2 = epoch_seed(8);
    let mut p = Partitions::new();
    p.rotate(&e1);
    p.deposit(&e1, envelope(1, 10, &[2]));
    p.rotate(&e2);
    let once = p.infos();
    p.rotate(&e2);
    assert_eq!(p.infos(), once);
    assert!(plan_rotation(&p.infos(), &e2).is_empty());
    assert_eq!(p.fetch_and_clear(&e2, &id(2)).unwrap().len(), 1);
}

#[test]
fn retries_give_up_at_the_limit() {
    let mut r = Retries::new(3);
    assert_eq!(r.on_failure(), RetryDecision::RetryAfterPause);
    assert_eq!(r.on_failure(), RetryDecision::RetryAfterPause);
    assert_eq!(r.on_failure(), RetryDecision::GiveUp);
    let mut once = Retries::new(0);
    assert_eq!(once.on_failure(), RetryDecision::GiveUp);
}

#[test]
fn rotation_after_partial_fetch_delivers_nothing_twice() {
    let e1 = epoch_seed(7);
    let e2 = epoch_seed(8);
    let mut p = Partitions::new();
    p.rotate(&e1);
    p.deposit(&e1, envelope(1, 10, &[2, 3]));
    assert_eq!(p.fetch_and_clear(&e1, &id(2)).unwrap().len(), 1);
    p.rotate(&e2);
    assert!(p.fetch_and_clear(&e2, &id(2)).unwrap().is_empty());
    let for_three = p.fetch_and_clear(&e2, &id(3)).unwrap();
    assert_eq!(for_three.len(), 1);
    assert_eq!(for_three[0].agent_specific_contents, vec![3, 10]);
    assert!(p.fetch_and_clear(&e2, &id(3)).unwrap().is_empty());
}

#[test]
fn pending_entries_carry_over_one_by_one() {
    let mut old = Mailbox::new();
    old.deposit(envelope(1, 10, &[2, 3]));
    old.fetch_and_clear(&id(3));
    let pending = old.export_pending();
    assert_eq!(pending.len(), 1);
    assert_eq!(pending[0].1, id(2));
    let mut new = Mailbox::new();
    for (e, r, payload) in &pending {
        new.carry(e, r, payload);
    }
    assert!(new.fetch_and_clear(&id(3)).is_empty());
    let got = new.fetch_and_clear(&id(2));
    assert_eq!(got.len(), 1);
    assert_eq!(got[0].agent_specific_contents, vec![2, 10]);
    assert!(!new.deposit(envelope(1, 10, &[2, 3])));
}

#[test]
fn repeated_targets_are_listed_once() {
    let items = vec![vec![1], vec![2], vec![1], vec![3], vec![2]];
    assert_eq!(distinct_in_order(&items), vec![vec![1], vec![2], vec![3]]);
    assert!(distinct_in_order(&vec![]).is_empty());
}

#[test]
fn carrying_again_after_a_fetch_changes_nothing() {
    let mut old = Mailbox::new();
    old.deposit(envelope(1, 10, &[2, 3]));
    let pending = old.export_pending();
    let mut new = Mailbox::new();
    for (e, r, payload) in &pending {
        new.carry(e, r, payload);
    }
    assert_eq!(new.fetch_and_clear(&id(2)).len(), 1);
    for (e, r, payload) in &pending {
        new.carry(e, r, payload);
    }
    assert!(new.fetch_and_clear(&id(2)).is_empty());
    assert_eq!(new.fetch_and_clear(&id(3)).len(), 1);
    assert_eq!(new.export_undelivered().len(), 0);
}

#[test]
fn recipients_must_be_listed_once() {
    assert!(envelope(1, 10, &[2, 3]).has_unique_recipients());
    assert!(!envelope(1, 10, &[2, 3, 2]).has_unique_recipients());
    assert!(envelope(1, 10, &[]).has_unique_recipients());
}
