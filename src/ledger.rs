//! The peer key ledger: an append-only record of the exchange keys last used
//! with each peer.
//!
//! Every exchange key travels with a sequence number: the position in the
//! sender's own ledger of the snapshot that recorded it. A sender's ledger
//! only grows, so a key generated later has a larger number, and a receiver
//! can tell a newer key from a delayed older one.

use vstd::prelude::*;
use crate::bytes::bytes_eq;

verus! {

/// One snapshot of the keys known for a peer. A later snapshot for the same
/// peer shadows every earlier one.
#[derive(Clone, Debug, PartialEq, Eq)]
pub struct PeerKeys {
    /// The peer's identity (its public signing key).
    pub peer: Vec<u8>,
    /// The exchange key this agent last generated for the peer, if any.
    pub my_current_key: Option<Vec<u8>>,
    /// The exchange key last observed from the peer, if any.
    pub their_current_key: Option<Vec<u8>>,
    /// The sequence number that came with that key, if any.
    pub their_key_sequence: Option<u64>,
}

/// The mathematical value of a [`PeerKeys`] snapshot.
pub struct PeerKeysView {
    pub peer: Seq<u8>,
    pub my_key: Option<Seq<u8>>,
    pub their_key: Option<Seq<u8>>,
    pub their_seq: Option<nat>,
}

pub open spec fn key_view(k: Option<Vec<u8>>) -> Option<Seq<u8>> {
    match k {
        Some(v) => Some(v@),
        None => None,
    }
}

pub open spec fn seq_view(n: Option<u64>) -> Option<nat> {
    match n {
        Some(v) => Some(v as nat),
        None => None,
    }
}

impl View for PeerKeys {
    type V = PeerKeysView;

    open spec fn view(&self) -> PeerKeysView {
        PeerKeysView {
            peer: self.peer@,
            my_key: key_view(self.my_current_key),
            their_key: key_view(self.their_current_key),
            their_seq: seq_view(self.their_key_sequence),
        }
    }
}

/// The most recent snapshot for `peer` among `records`, searched from the end.
pub open spec fn latest(records: Seq<PeerKeysView>, peer: Seq<u8>) -> Option<PeerKeysView>
    decreases records.len(),
{
    if records.len() == 0 {
        None
    } else if records.last().peer == peer {
        Some(records.last())
    } else {
        latest(records.drop_last(), peer)
    }
}

/// The exchange key last observed from `peer`, if any.
pub open spec fn their_latest_key(records: Seq<PeerKeysView>, peer: Seq<u8>) -> Option<Seq<u8>> {
    match latest(records, peer) {
        Some(s) => s.their_key,
        None => None,
    }
}

/// The sequence number of the exchange key last observed from `peer`.
pub open spec fn their_latest_seq(records: Seq<PeerKeysView>, peer: Seq<u8>) -> Option<nat> {
    match latest(records, peer) {
        Some(s) => s.their_seq,
        None => None,
    }
}

/// Whether a key numbered `seq` is newer than the last one recorded from `peer`.
pub open spec fn is_newer(records: Seq<PeerKeysView>, peer: Seq<u8>, seq: nat) -> bool {
    match their_latest_seq(records, peer) {
        Some(last) => seq > last,
        None => true,
    }
}

/// The ledger after `key`, numbered `seq`, is observed from `peer`: a
/// snapshot is appended exactly when the key is newer than the last one
/// recorded, so a delayed older key never takes the place of a newer one.
pub open spec fn observe_spec(records: Seq<PeerKeysView>, peer: Seq<u8>, key: Seq<u8>, seq: nat) -> Seq<PeerKeysView> {
    if is_newer(records, peer, seq) {
        records.push(PeerKeysView { peer, my_key: None, their_key: Some(key), their_seq: Some(seq) })
    } else {
        records
    }
}

/// The ledger of one agent: its snapshots in the order they were written.
pub struct KeyLedger {
    records: Vec<PeerKeys>,
}

impl View for KeyLedger {
    type V = Seq<PeerKeysView>;

    closed spec fn view(&self) -> Seq<PeerKeysView> {
        self.records@.map_values(|r: PeerKeys| r@)
    }
}

impl KeyLedger {
    /// An empty ledger.
    pub fn new() -> (r: KeyLedger)
        ensures
            r@ == Seq::<PeerKeysView>::empty(),
    {
        KeyLedger { records: Vec::new() }
    }

    /// A ledger holding `records`, oldest first.
    pub fn from_records(records: Vec<PeerKeys>) -> (r: KeyLedger)
        ensures
            r@ == records@.map_values(|p: PeerKeys| p@),
    {
        KeyLedger { records }
    }

    /// The snapshots, oldest first.
    pub fn records(&self) -> (r: &Vec<PeerKeys>)
        ensures
            r@.map_values(|p: PeerKeys| p@) == self@,
    {
        &self.records
    }

    /// The number of snapshots, which is the sequence number of the next one.
    pub fn len(&self) -> (r: usize)
        ensures
            r == self@.len(),
    {
        self.records.len()
    }

    /// Appends a snapshot for `peer`.
    pub fn record_exchange(
        &mut self,
        peer: Vec<u8>,
        my_key: Option<Vec<u8>>,
        their_key: Option<Vec<u8>>,
        their_sequence: Option<u64>,
    )
        ensures
            final(self)@ == old(self)@.push(PeerKeysView {
                peer: peer@,
                my_key: key_view(my_key),
                their_key: key_view(their_key),
                their_seq: seq_view(their_sequence),
            }),
    {
        let s = PeerKeys { peer, my_current_key: my_key, their_current_key: their_key, their_key_sequence: their_sequence };
        self.records.push(s);
        assert(self@ =~= old(self)@.push(s@));
    }

    /// The index of the most recent snapshot for `peer`.
    fn latest_index(&self, peer: &Vec<u8>) -> (r: Option<usize>)
        ensures
            match r {
                Some(i) => i < self@.len() && latest(self@, peer@) == Some(self@[i as int]),
                None => latest(self@, peer@).is_none(),
            },
    {
        let mut i: usize = self.records.len();
        assert(self@.take(i as int) =~= self@);
        while i > 0
            invariant
                i <= self@.len(),
                self@.len() == self.records@.len(),
                latest(self@, peer@) == latest(self@.take(i as int), peer@),
            decreases i,
        {
            let j = i - 1;
            assert(self@.take(i as int).drop_last() =~= self@.take(j as int));
            if bytes_eq(&self.records[j].peer, peer) {
                return Some(j);
            }
            i = j;
        }
        None
    }

    /// The most recent snapshot for `peer`, or `None` for a peer never observed.
    pub fn lookup(&self, peer: &Vec<u8>) -> (r: Option<PeerKeys>)
        ensures
            match r {
                Some(s) => latest(self@, peer@) == Some(s@),
                None => latest(self@, peer@).is_none(),
            },
    {
        match self.latest_index(peer) {
            Some(i) => {
                let s = &self.records[i];
                Some(PeerKeys {
                    peer: s.peer.clone(),
                    my_current_key: s.my_current_key.clone(),
                    their_current_key: s.their_current_key.clone(),
                    their_key_sequence: s.their_key_sequence,
                })
            },
            None => None,
        }
    }

    /// The exchange key last observed from `peer`, if any.
    pub fn their_key(&self, peer: &Vec<u8>) -> (r: Option<Vec<u8>>)
        ensures
            key_view(r) == their_latest_key(self@, peer@),
    {
        match self.latest_index(peer) {
            Some(i) => self.records[i].their_current_key.clone(),
            None => None,
        }
    }

    /// The sequence number of the exchange key last observed from `peer`.
    pub fn their_sequence(&self, peer: &Vec<u8>) -> (r: Option<u64>)
        ensures
            seq_view(r) == their_latest_seq(self@, peer@),
    {
        match self.latest_index(peer) {
            Some(i) => self.records[i].their_key_sequence,
            None => None,
        }
    }

    /// Records `key`, numbered `seq`, as observed from `peer`, when it is
    /// newer than the last key recorded from `peer`. Returns whether a
    /// snapshot was appended.
    pub fn observe_their_key(&mut self, peer: &Vec<u8>, key: &Vec<u8>, seq: u64) -> (r: bool)
        ensures
            final(self)@ == observe_spec(old(self)@, peer@, key@, seq as nat),
            r == is_newer(old(self)@, peer@, seq as nat),
    {
        let newer = match self.their_sequence(peer) {
            Some(last) => seq > last,
            None => true,
        };
        if newer {
            self.record_exchange(peer.clone(), None, Some(key.clone()), Some(seq));
        }
        newer
    }
}

/// Appending a snapshot that carries a peer's current key and its number
/// forward leaves the key and number last observed from every peer as they
/// were.
pub proof fn lemma_carry_forward(records: Seq<PeerKeysView>, peer: Seq<u8>, my_key: Option<Seq<u8>>, other: Seq<u8>)
    ensures
        ({
            let s = records.push(PeerKeysView {
                peer,
                my_key,
                their_key: their_latest_key(records, peer),
                their_seq: their_latest_seq(records, peer),
            });
            &&& their_latest_key(s, other) == their_latest_key(records, other)
            &&& their_latest_seq(s, other) == their_latest_seq(records, other)
        }),
{
    let s = records.push(PeerKeysView {
        peer,
        my_key,
        their_key: their_latest_key(records, peer),
        their_seq: their_latest_seq(records, peer),
    });
    assert(s.drop_last() =~= records);
}

/// Ratchet: a key newer than the last one recorded from a peer becomes the
/// peer's key; an older or equal one leaves the ledger as it was, so a
/// delayed envelope never brings back a key that a newer one replaced. The
/// number recorded for a peer never decreases.
pub proof fn lemma_observe_ratchet(records: Seq<PeerKeysView>, peer: Seq<u8>, key: Seq<u8>, seq: nat)
    ensures
        is_newer(records, peer, seq) ==> their_latest_key(observe_spec(records, peer, key, seq), peer) == Some(key)
            && their_latest_seq(observe_spec(records, peer, key, seq), peer) == Some(seq),
        !is_newer(records, peer, seq) ==> observe_spec(records, peer, key, seq) == records,
        their_latest_seq(records, peer) is Some ==> {
            let after = their_latest_seq(observe_spec(records, peer, key, seq), peer);
            after is Some && after.unwrap() >= their_latest_seq(records, peer).unwrap()
        },
{
    let s = observe_spec(records, peer, key, seq);
    if is_newer(records, peer, seq) {
        assert(s.drop_last() =~= records);
    }
}

} // verus!
