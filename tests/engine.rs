use safehold::chunk::{chunk_count, split_into_chunks, Chunk, MAX_CHUNK_SIZE};
use safehold::decryption::{decrypt_batch, OpenedEnvelope};
use safehold::encryption::{plan_chunk, plan_encryption, EnvelopePlan, MessageEncryption};
use safehold::ledger::KeyLedger;
use safehold::mailbox::{Envelope, Mailbox};
use safehold::reassembly::{live_chunks, pending_changes, ChunkBuffer};

fn id(b: u8) -> Vec<u8> {
    vec![b; 4]
}

fn chunk_of(sender: &[u8], message_id: &[u8], index: usize, total: usize, contents: Vec<u8>) -> Chunk {
    Chunk {
        provenance: sender.to_vec(),
        message_id: message_id.to_vec(),
        chunk_index: index,
        total_chunk_number: total,
        contents,
    }
}

fn opened(sender: &[u8], key: &[u8], chunk: Chunk) -> OpenedEnvelope {
    OpenedEnvelope {
        provenance: sender.to_vec(),
        sender_encryption_key: key.to_vec(),
        sender_key_sequence: key[0] as u64,
        chunk,
    }
}

fn keys_for(chunks: usize, recipients: usize, seed: u8) -> Vec<Vec<Vec<u8>>> {
    (0..chunks)
        .map(|c| (0..recipients).map(|r| vec![seed, c as u8, r as u8]).collect())
        .collect()
}

#[test]
fn ledger_lookup_returns_latest_snapshot() {
    let mut ledger = KeyLedger::new();
    assert!(ledger.lookup(&id(1)).is_none());
    ledger.record_exchange(id(1), Some(vec![10]), None, None);
    ledger.record_exchange(id(2), None, Some(vec![20]), Some(4));
    ledger.record_exchange(id(1), Some(vec![11]), Some(vec![12]), Some(5));
    let latest = ledger.lookup(&id(1)).unwrap();
    assert_eq!(latest.my_current_key, Some(vec![11]));
    assert_eq!(latest.their_current_key, Some(vec![12]));
    assert_eq!(ledger.their_key(&id(2)), Some(vec![20]));
    assert_eq!(ledger.their_key(&id(3)), None);
    assert_eq!(ledger.records().len(), 3);
}

#[test]
fn ledger_never_restores_a_superseded_key() {
    let mut ledger = KeyLedger::new();
    assert!(ledger.observe_their_key(&id(1), &vec![1], 5));
    assert!(ledger.observe_their_key(&id(1), &vec![2], 7));
    assert_eq!(ledger.their_key(&id(1)), Some(vec![2]));
    assert!(!ledger.observe_their_key(&id(1), &vec![1], 5));
    assert_eq!(ledger.their_key(&id(1)), Some(vec![2]));
    assert!(!ledger.observe_their_key(&id(1), &vec![3], 6));
    assert_eq!(ledger.their_key(&id(1)), Some(vec![2]));
    assert_eq!(ledger.their_sequence(&id(1)), Some(7));
    assert!(!ledger.observe_their_key(&id(1), &vec![2], 7));
    assert_eq!(ledger.records().len(), 2);
}

#[test]
fn split_two_and_a_half_chunks() {
    let message: Vec<u8> = (0..125_000u32).map(|i| (i % 251) as u8).collect();
    let parts = split_into_chunks(&message, MAX_CHUNK_SIZE);
    assert_eq!(parts.len(), 3);
    assert_eq!(parts[0].len(), 50_000);
    assert_eq!(parts[1].len(), 50_000);
    assert_eq!(parts[2].len(), 25_000);
    assert_eq!(parts.concat(), message);
    assert_eq!(chunk_count(125_000, MAX_CHUNK_SIZE), 3);
    assert_eq!(chunk_count(100_000, MAX_CHUNK_SIZE), 2);
    assert_eq!(chunk_count(100_001, MAX_CHUNK_SIZE), 3);
}

#[test]
fn empty_message_is_one_chunk() {
    let parts = split_into_chunks(&vec![], MAX_CHUNK_SIZE);
    assert_eq!(parts, vec![Vec::<u8>::new()]);
    assert_eq!(chunk_count(0, MAX_CHUNK_SIZE), 1);
    assert_eq!(chunk_count(50_000, MAX_CHUNK_SIZE), 1);
}

#[test]
fn fanout_without_ledger_entries_gives_two_envelopes() {
    let mut ledger = KeyLedger::new();
    let chunk = chunk_of(&id(9), &[1, 2], 0, 1, vec![5, 6]);
    let plans = plan_chunk(&mut ledger, &chunk, &vec![id(1), id(2)], &vec![vec![41], vec![42]]);
    assert_eq!(plans.len(), 2);
    match (&plans[0], &plans[1]) {
        (
            EnvelopePlan::DirectSeal { recipient: a, sender_encryption_key: ka, chunk: ca, sender_key_sequence: na },
            EnvelopePlan::DirectSeal { recipient: b, sender_encryption_key: kb, sender_key_sequence: nb, .. },
        ) => {
            assert_eq!((a, ka), (&id(1), &vec![41]));
            assert_eq!((b, kb), (&id(2), &vec![42]));
            assert_eq!((*na, *nb), (0, 1));
            assert_eq!(ca.contents, vec![5, 6]);
        }
        _ => panic!("expected two bootstrap envelopes"),
    }
    assert_eq!(ledger.records().len(), 2);
    assert_eq!(ledger.lookup(&id(1)).unwrap().my_current_key, Some(vec![41]));
    assert_eq!(ledger.their_key(&id(1)), None);
}

#[test]
fn fanout_with_ledger_entries_gives_one_envelope() {
    let mut ledger = KeyLedger::new();
    ledger.record_exchange(id(1), None, Some(vec![71]), Some(3));
    ledger.record_exchange(id(2), None, Some(vec![72]), Some(3));
    let chunk = chunk_of(&id(9), &[1, 2], 0, 1, vec![5, 6]);
    let plans = plan_chunk(&mut ledger, &chunk, &vec![id(1), id(2)], &vec![vec![41], vec![42]]);
    assert_eq!(plans.len(), 1);
    match &plans[0] {
        EnvelopePlan::SharedSecret { wraps, .. } => {
            assert_eq!(wraps.len(), 2);
            assert_eq!(wraps[0].recipient, id(1));
            assert_eq!(wraps[0].sender_encryption_key, vec![41]);
            assert_eq!(wraps[0].recipient_encryption_key, vec![71]);
            assert_eq!(wraps[1].recipient, id(2));
            assert_eq!(wraps[1].recipient_encryption_key, vec![72]);
        }
        _ => panic!("expected one shared envelope"),
    }
    let after = ledger.lookup(&id(2)).unwrap();
    assert_eq!(after.my_current_key, Some(vec![42]));
    assert_eq!(after.their_current_key, Some(vec![72]));
}

#[test]
fn mixed_recipients_and_duplicates() {
    let mut ledger = KeyLedger::new();
    ledger.record_exchange(id(1), None, Some(vec![71]), Some(3));
    let chunk = chunk_of(&id(9), &[1], 0, 1, vec![5]);
    let plans = plan_chunk(&mut ledger, &chunk, &vec![id(1), id(2), id(1)], &vec![vec![1], vec![2], vec![3]]);
    assert_eq!(plans.len(), 2);
    assert!(matches!(&plans[0], EnvelopePlan::DirectSeal { recipient, .. } if *recipient == id(2)));
    match &plans[1] {
        EnvelopePlan::SharedSecret { wraps, .. } => {
            assert_eq!(wraps.len(), 1);
            assert_eq!(wraps[0].sender_encryption_key, vec![3]);
        }
        _ => panic!("expected a shared envelope last"),
    }
}

#[test]
fn zero_recipients_yield_no_envelopes() {
    let mut ledger = KeyLedger::new();
    let plans = plan_encryption(&mut ledger, &id(9), &vec![7], &vec![1, 2, 3], &vec![], &vec![vec![]]);
    assert!(plans.is_empty());
    assert!(ledger.records().is_empty());
}

#[test]
fn large_message_plans_three_chunks_per_path() {
    let message: Vec<u8> = (0..125_000u32).map(|i| (i % 13) as u8).collect();
    let mut ledger = KeyLedger::new();
    ledger.record_exchange(id(2), None, Some(vec![72]), Some(3));
    let plans = plan_encryption(&mut ledger, &id(9), &vec![7], &message, &vec![id(1), id(2)], &keys_for(3, 2, 0));
    assert_eq!(plans.len(), 6);
    let mut direct = 0;
    let mut shared = 0;
    for (i, plan) in plans.iter().enumerate() {
        match plan {
            EnvelopePlan::DirectSeal { chunk, .. } => {
                direct += 1;
                assert_eq!(chunk.chunk_index, i / 2);
                assert_eq!(chunk.total_chunk_number, 3);
            }
            EnvelopePlan::SharedSecret { chunk, wraps } => {
                shared += 1;
                assert_eq!(wraps.len(), 1);
                assert_eq!(chunk.chunk_index, i / 2);
            }
        }
    }
    assert_eq!((direct, shared), (3, 3));
    assert_eq!(ledger.records().len(), 7);
}

#[test]
fn chunks_reassemble_in_any_order_across_batches() {
    let message: Vec<u8> = (0..125_000u32).map(|i| (i % 97) as u8).collect();
    let parts = split_into_chunks(&message, MAX_CHUNK_SIZE);
    let sender = id(5);
    let mid = vec![1, 1, 1];
    let mut ledger = KeyLedger::new();
    let mut buffer = ChunkBuffer::new();
    let first = decrypt_batch(
        &mut ledger,
        &mut buffer,
        vec![
            opened(&sender, &[30], chunk_of(&sender, &mid, 2, 3, parts[2].clone())),
            opened(&sender, &[10], chunk_of(&sender, &mid, 0, 3, parts[0].clone())),
        ],
    );
    assert!(first.is_empty());
    assert_eq!(buffer.chunks().len(), 2);
    let second = decrypt_batch(
        &mut ledger,
        &mut buffer,
        vec![opened(&sender, &[20], chunk_of(&sender, &mid, 1, 3, parts[1].clone()))],
    );
    assert_eq!(second.len(), 1);
    assert_eq!(second[0].provenance, sender);
    assert_eq!(second[0].contents, message);
    assert!(buffer.chunks().is_empty());
    assert_eq!(ledger.their_key(&sender), Some(vec![30]));
}

#[test]
fn mismatched_provenance_is_dropped() {
    let mut ledger = KeyLedger::new();
    let mut buffer = ChunkBuffer::new();
    let out = decrypt_batch(
        &mut ledger,
        &mut buffer,
        vec![
            opened(&id(1), &[9], chunk_of(&id(2), &[4], 0, 1, vec![1])),
            opened(&id(3), &[8], chunk_of(&id(3), &[4], 0, 1, vec![2])),
        ],
    );
    assert_eq!(out.len(), 1);
    assert_eq!(out[0].provenance, id(3));
    assert_eq!(out[0].contents, vec![2]);
    assert!(ledger.lookup(&id(1)).is_none());
    assert_eq!(ledger.their_key(&id(3)), Some(vec![8]));
}

#[test]
fn out_of_range_chunks_block_their_message() {
    let mut buffer = ChunkBuffer::new();
    buffer.add(chunk_of(&id(1), &[1], 0, 0, vec![1]));
    assert!(buffer.release(&vec![1], &id(1), 0).is_none());
    let mut other = ChunkBuffer::new();
    other.add(chunk_of(&id(1), &[2], 1, 2, vec![2]));
    assert!(other.release(&vec![2], &id(1), 2).is_none());
    other.add(chunk_of(&id(1), &[2], 0, 2, vec![1]));
    assert_eq!(other.release(&vec![2], &id(1), 2), Some(vec![1, 2]));
    assert!(other.chunks().is_empty());
    let mut blocked = ChunkBuffer::new();
    blocked.add(chunk_of(&id(1), &[3], 0, 2, vec![1]));
    blocked.add(chunk_of(&id(1), &[3], 1, 2, vec![2]));
    blocked.add(chunk_of(&id(1), &[3], 3, 2, vec![3]));
    assert!(blocked.release(&vec![3], &id(1), 2).is_none());
    assert_eq!(blocked.chunks().len(), 3);
}

#[test]
fn pending_chunks_from_storage_and_changes_to_persist() {
    let a = chunk_of(&id(1), &[1], 0, 2, vec![1]);
    let b = chunk_of(&id(2), &[2], 0, 3, vec![2]);
    let stored = vec![(vec![100], a.clone()), (vec![101], b.clone()), (vec![102], chunk_of(&id(3), &[3], 0, 2, vec![3]))];
    let deleted = vec![vec![102]];
    let mut buffer = live_chunks(&stored, &deleted);
    assert_eq!(buffer.chunks().len(), 2);
    buffer.add(chunk_of(&id(1), &[1], 1, 2, vec![9]));
    assert_eq!(buffer.release(&vec![1], &id(1), 2), Some(vec![1, 9]));
    let fresh = chunk_of(&id(2), &[2], 2, 3, vec![4]);
    buffer.add(fresh.clone());
    assert!(buffer.release(&vec![2], &id(2), 3).is_none());
    let (released, unsaved) = pending_changes(&stored, &deleted, &buffer);
    assert_eq!(released, vec![vec![100]]);
    assert_eq!(unsaved.len(), 1);
    assert_eq!(unsaved[0].chunk_index, 2);
}

#[test]
fn side_payload_shapes() {
    let fast = MessageEncryption::Secret {
        encrypted_secret: vec![1],
        sender_encryption_key: vec![2],
        sender_key_sequence: 4,
        recipient_encryption_key: vec![3],
    };
    let slow = MessageEncryption::for_direct(&id(1), &id(2), &vec![7], 9);
    assert_eq!(fast.sender_key_sequence(), 4);
    assert_eq!(slow.sender_key_sequence(), 9);
    assert!(fast.is_shared_secret());
    assert!(!slow.is_shared_secret());
    assert_eq!(fast.sender_encryption_key(), vec![2]);
    assert_eq!(slow.sender_encryption_key(), vec![7]);
}

#[test]
fn scenario_bootstrap_then_fast_path() {
    let s = id(1);
    let r = id(2);
    let mut s_ledger = KeyLedger::new();
    let plans = plan_encryption(&mut s_ledger, &s, &vec![42], &vec![0, 1, 2], &vec![r.clone()], &vec![vec![vec![111]]]);
    assert_eq!(plans.len(), 1);
    let chunk = match &plans[0] {
        EnvelopePlan::DirectSeal { chunk, recipient, sender_encryption_key, sender_key_sequence } => {
            assert_eq!(recipient, &r);
            assert_eq!(sender_encryption_key, &vec![111]);
            assert_eq!(*sender_key_sequence, 0);
            chunk.clone()
        }
        _ => panic!("expected the bootstrap path"),
    };
    let mut mailbox = Mailbox::new();
    assert!(mailbox.deposit(Envelope {
        provenance: s.clone(),
        signature: vec![1],
        contents: vec![0xaa],
        recipients: vec![(r.clone(), vec![0xbb])],
    }));
    let fetched = mailbox.fetch_and_clear(&r);
    assert_eq!(fetched.len(), 1);
    assert_eq!(fetched[0].agent_specific_contents, vec![0xbb]);
    assert!(mailbox.fetch_and_clear(&r).is_empty());
    let mut r_ledger = KeyLedger::new();
    let mut r_buffer = ChunkBuffer::new();
    let out = decrypt_batch(&mut r_ledger, &mut r_buffer, vec![opened(&s, &[111], chunk)]);
    assert_eq!(out.len(), 1);
    assert_eq!(out[0].contents, vec![0, 1, 2]);
    assert!(r_ledger.lookup(&s).is_some());
    assert_eq!(r_ledger.their_key(&s), Some(vec![111]));
    let reply = plan_encryption(&mut r_ledger, &r, &vec![43], &vec![3, 4, 5], &vec![s.clone()], &vec![vec![vec![222]]]);
    assert_eq!(reply.len(), 1);
    match &reply[0] {
        EnvelopePlan::SharedSecret { wraps, .. } => {
            assert_eq!(wraps[0].recipient_encryption_key, vec![111]);
            let payload = MessageEncryption::for_wrap(&wraps[0], vec![9]);
            assert!(payload.is_shared_secret());
        }
        _ => panic!("expected the fast path"),
    }
}

#[test]
fn envelopes_compare_field_by_field() {
    let e = Envelope {
        provenance: id(1),
        signature: vec![1, 2],
        contents: vec![3],
        recipients: vec![(id(2), vec![4]), (id(3), vec![5])],
    };
    let copy = e.duplicate();
    assert!(e.same_as(&copy));
    assert_eq!(copy, e);
    let mut other = e.duplicate();
    other.recipients[1].1 = vec![6];
    assert!(!e.same_as(&other));
    let ledger = KeyLedger::from_records(vec![safehold::ledger::PeerKeys {
        peer: id(1),
        my_current_key: None,
        their_current_key: Some(vec![9]),
        their_key_sequence: Some(2),
    }]);
    assert_eq!(ledger.their_key(&id(1)), Some(vec![9]));
    assert_eq!(ledger.their_sequence(&id(1)), Some(2));
    assert_eq!(ledger.their_sequence(&id(2)), None);
}

#[test]
fn repeated_chunk_index_never_completes() {
    let sender = id(5);
    let mut ledger = KeyLedger::new();
    let mut buffer = ChunkBuffer::new();
    let first = decrypt_batch(&mut ledger, &mut buffer, vec![opened(&sender, &[1], chunk_of(&sender, &[7], 0, 2, vec![1]))]);
    assert!(first.is_empty());
    let second = decrypt_batch(
        &mut ledger,
        &mut buffer,
        vec![
            opened(&sender, &[1], chunk_of(&sender, &[7], 0, 2, vec![1])),
            opened(&sender, &[1], chunk_of(&sender, &[7], 1, 2, vec![2])),
        ],
    );
    assert!(second.is_empty());
    assert_eq!(buffer.chunks().len(), 3);
}

#[test]
fn batch_with_a_repeated_index_emits_nothing() {
    let sender = id(5);
    let mut ledger = KeyLedger::new();
    let mut buffer = ChunkBuffer::new();
    let out = decrypt_batch(
        &mut ledger,
        &mut buffer,
        vec![
            opened(&sender, &[1], chunk_of(&sender, &[8], 0, 3, vec![1])),
            opened(&sender, &[2], chunk_of(&sender, &[8], 1, 3, vec![2])),
            opened(&sender, &[3], chunk_of(&sender, &[8], 2, 3, vec![3])),
            opened(&sender, &[4], chunk_of(&sender, &[8], 1, 3, vec![2])),
        ],
    );
    assert!(out.is_empty());
    assert_eq!(buffer.chunks().len(), 4);
}

#[test]
fn delayed_older_key_does_not_replace_newer() {
    let peer = id(6);
    let mut ledger = KeyLedger::new();
    let mut buffer = ChunkBuffer::new();
    decrypt_batch(&mut ledger, &mut buffer, vec![opened(&peer, &[20], chunk_of(&peer, &[1], 0, 1, vec![1]))]);
    assert_eq!(ledger.their_key(&peer), Some(vec![20]));
    let out = decrypt_batch(&mut ledger, &mut buffer, vec![opened(&peer, &[10], chunk_of(&peer, &[2], 0, 1, vec![2]))]);
    assert_eq!(out.len(), 1);
    assert_eq!(ledger.their_key(&peer), Some(vec![20]));
    assert_eq!(ledger.their_sequence(&peer), Some(20));
}
