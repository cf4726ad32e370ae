//! The decryption engine, after the host has opened each envelope: checks
//! the sender, updates the key ledger and reassembles chunked messages.

use vstd::prelude::*;
use crate::bytes::bytes_eq;
use crate::chunk::{Chunk, ChunkView, MAX_CHUNK_SIZE, concat, split_spec, lemma_split};
use crate::encryption::chunk_at;
use crate::ledger::{KeyLedger, PeerKeysView, is_newer, observe_spec, their_latest_key, lemma_observe_ratchet};
use crate::reassembly::{
    ChunkBuffer, assembled, complete, count_index, find_piece, of_message, release_spec, same_message, without_message,
    lemma_count_piece, lemma_find_piece, lemma_without_message,
};

verus! {

/// An envelope whose side payload and contents the host has decrypted.
#[derive(Clone, Debug, PartialEq, Eq)]
pub struct OpenedEnvelope {
    /// The signer of the envelope.
    pub provenance: Vec<u8>,
    /// The sender's exchange key carried by the side payload.
    pub sender_encryption_key: Vec<u8>,
    /// The sequence number of that key.
    pub sender_key_sequence: u64,
    /// The decrypted chunk.
    pub chunk: Chunk,
}

pub struct OpenedView {
    pub provenance: Seq<u8>,
    pub sender_key: Seq<u8>,
    pub seq: nat,
    pub chunk: ChunkView,
}

impl View for OpenedEnvelope {
    type V = OpenedView;

    open spec fn view(&self) -> OpenedView {
        OpenedView {
            provenance: self.provenance@,
            sender_key: self.sender_encryption_key@,
            seq: self.sender_key_sequence as nat,
            chunk: self.chunk@,
        }
    }
}

/// A whole message, with its sender.
#[derive(Clone, Debug, PartialEq, Eq)]
pub struct DecryptedMessageOutput {
    pub provenance: Vec<u8>,
    pub contents: Vec<u8>,
}

impl View for DecryptedMessageOutput {
    type V = (Seq<u8>, Seq<u8>);

    open spec fn view(&self) -> (Seq<u8>, Seq<u8>) {
        (self.provenance@, self.contents@)
    }
}

pub open spec fn opened_view(es: Seq<OpenedEnvelope>) -> Seq<OpenedView> {
    es.map_values(|e: OpenedEnvelope| e@)
}

pub open spec fn messages_view(ms: Seq<DecryptedMessageOutput>) -> Seq<(Seq<u8>, Seq<u8>)> {
    ms.map_values(|m: DecryptedMessageOutput| m@)
}

/// An envelope is accepted when its chunk names its signer as sender; any
/// other is dropped whole.
pub open spec fn accepted(e: OpenedView) -> bool {
    e.chunk.provenance == e.provenance
}

/// The ledger, the buffer and the accepted chunks after taking in the first
/// `n` envelopes of a batch: each accepted envelope's key is observed and
/// its chunk buffered.
pub open spec fn intake(
    ledger: Seq<PeerKeysView>,
    buffer: Seq<ChunkView>,
    es: Seq<OpenedView>,
    n: nat,
) -> (Seq<PeerKeysView>, Seq<ChunkView>, Seq<ChunkView>)
    decreases n,
{
    if n == 0 {
        (ledger, buffer, Seq::empty())
    } else {
        let (l, b, a) = intake(ledger, buffer, es, (n - 1) as nat);
        let e = es[n - 1];
        if accepted(e) {
            (observe_spec(l, e.provenance, e.sender_key, e.seq), b.push(e.chunk), a.push(e.chunk))
        } else {
            (l, b, a)
        }
    }
}

/// Whether `a[i]` is the first of the chunks `a` of its message.
pub open spec fn first_of_message(a: Seq<ChunkView>, i: int) -> bool {
    forall|j: int| 0 <= j < i ==> !of_message(#[trigger] a[j], a[i].message_id, a[i].provenance)
}

/// The buffer and the output after checking the messages of the first `n`
/// accepted chunks, each message once, against the count of its first chunk
/// in the batch.
pub open spec fn releases(buffer: Seq<ChunkView>, a: Seq<ChunkView>, n: nat) -> (Seq<ChunkView>, Seq<(Seq<u8>, Seq<u8>)>)
    decreases n,
{
    if n == 0 {
        (buffer, Seq::empty())
    } else {
        let (b, out) = releases(buffer, a, (n - 1) as nat);
        let c = a[n - 1];
        if first_of_message(a, n - 1) {
            let (b2, m) = release_spec(b, c.message_id, c.provenance, c.total);
            match m {
                Some(x) => (b2, out.push((c.provenance, x))),
                None => (b2, out),
            }
        } else {
            (b, out)
        }
    }
}

/// A batch: all accepted envelopes are taken in, then each message of the
/// batch is emitted exactly when its pending and new chunks together,
/// sorted by index, are exactly `0..total`; otherwise its chunks stay
/// pending.
pub open spec fn batch_spec(
    ledger: Seq<PeerKeysView>,
    buffer: Seq<ChunkView>,
    es: Seq<OpenedView>,
) -> (Seq<PeerKeysView>, Seq<ChunkView>, Seq<(Seq<u8>, Seq<u8>)>) {
    let (l, b, a) = intake(ledger, buffer, es, es.len());
    let (b2, out) = releases(b, a, a.len());
    (l, b2, out)
}

/// Processes a batch of opened envelopes: drops those whose chunk names
/// another sender than the signer, records each newer sender key in the
/// ledger, buffers the chunks, and returns the messages the batch completes.
pub fn decrypt_batch(ledger: &mut KeyLedger, buffer: &mut ChunkBuffer, opened: Vec<OpenedEnvelope>) -> (r: Vec<DecryptedMessageOutput>)
    ensures
        (final(ledger)@, final(buffer)@, messages_view(r@)) == batch_spec(old(ledger)@, old(buffer)@, opened_view(opened@)),
{
    let ghost es = opened_view(opened@);
    let ghost l0 = ledger@;
    let ghost b0 = buffer@;
    let n = opened.len();
    let mut acc: Vec<Chunk> = Vec::new();
    let mut i: usize = 0;
    while i < n
        invariant
            i <= n,
            n == opened@.len(),
            es == opened_view(opened@),
            (ledger@, buffer@, crate::reassembly::chunks_view(acc@)) == intake(l0, b0, es, i as nat),
        decreases n - i,
    {
        let e = &opened[i];
        if bytes_eq(&e.chunk.provenance, &e.provenance) {
            ledger.observe_their_key(&e.provenance, &e.sender_encryption_key, e.sender_key_sequence);
            buffer.add(e.chunk.duplicate());
            let ghost a0 = crate::reassembly::chunks_view(acc@);
            acc.push(e.chunk.duplicate());
            assert(crate::reassembly::chunks_view(acc@) =~= a0.push(es[i as int].chunk));
        }
        i = i + 1;
    }
    let ghost a = crate::reassembly::chunks_view(acc@);
    let ghost b1 = buffer@;
    let mut out: Vec<DecryptedMessageOutput> = Vec::new();
    let mut k: usize = 0;
    while k < acc.len()
        invariant
            k <= acc@.len(),
            a == crate::reassembly::chunks_view(acc@),
            (buffer@, messages_view(out@)) == releases(b1, a, k as nat),
        decreases acc@.len() - k,
    {
        let c = &acc[k];
        let mut first = true;
        let mut j: usize = 0;
        while j < k
            invariant
                j <= k,
                k < acc@.len(),
                a == crate::reassembly::chunks_view(acc@),
                c@ == a[k as int],
                first == forall|t: int| 0 <= t < j ==> !of_message(#[trigger] a[t], a[k as int].message_id, a[k as int].provenance),
            decreases k - j,
        {
            assert(a[j as int] == acc@[j as int]@);
            assert(a[k as int] == acc@[k as int]@);
            if same_message(&acc[j], &c.message_id, &c.provenance) {
                first = false;
            }
            j = j + 1;
        }
        if first {
            let ghost o0 = messages_view(out@);
            match buffer.release(&c.message_id, &c.provenance, c.total_chunk_number) {
                Some(contents) => {
                    out.push(DecryptedMessageOutput { provenance: c.provenance.clone(), contents });
                    assert(messages_view(out@) =~= o0.push((a[k as int].provenance, out@.last().contents@)));
                },
                None => {},
            }
        }
        k = k + 1;
    }
    out
}

/// The buffered chunks of message `message_id` from `sender` are genuine
/// chunks of the message split into `parts`, each index at most once, and
/// their indices are `present`.
pub open spec fn holds_pieces(
    s: Seq<ChunkView>,
    sender: Seq<u8>,
    message_id: Seq<u8>,
    parts: Seq<Seq<u8>>,
    present: Set<nat>,
) -> bool {
    &&& forall|k: int| 0 <= k < s.len() && of_message(#[trigger] s[k], message_id, sender) ==>
        present.contains(s[k].index) && s[k] == chunk_at(sender, message_id, parts, s[k].index as int)
    &&& forall|i: nat| #[trigger] present.contains(i) ==> i < parts.len() && count_index(s, message_id, sender, i) == 1
}

proof fn lemma_absent_uncounted(s: Seq<ChunkView>, sender: Seq<u8>, message_id: Seq<u8>, parts: Seq<Seq<u8>>, present: Set<nat>, i: nat)
    requires
        holds_pieces(s, sender, message_id, parts, present),
        !present.contains(i),
    ensures
        count_index(s, message_id, sender, i) == 0,
{
    lemma_count_piece(s, message_id, sender, i);
    lemma_find_piece(s, message_id, sender, i);
    if find_piece(s, message_id, sender, i) is Some {
        let k = find_piece(s, message_id, sender, i).unwrap();
        assert(of_message(s[k], message_id, sender));
    }
}

proof fn lemma_add_piece(s: Seq<ChunkView>, sender: Seq<u8>, message_id: Seq<u8>, parts: Seq<Seq<u8>>, present: Set<nat>, j: nat)
    requires
        holds_pieces(s, sender, message_id, parts, present),
        !present.contains(j),
        j < parts.len(),
    ensures
        holds_pieces(s.push(chunk_at(sender, message_id, parts, j as int)), sender, message_id, parts, present.insert(j)),
{
    let c = chunk_at(sender, message_id, parts, j as int);
    let s1 = s.push(c);
    let now = present.insert(j);
    assert(s1.drop_last() =~= s);
    assert(s1.last() == c);
    lemma_absent_uncounted(s, sender, message_id, parts, present, j);
    assert forall|i: nat| #[trigger] count_index(s1, message_id, sender, i)
        == count_index(s, message_id, sender, i) + if i == j { 1nat } else { 0nat } by {}
    assert forall|k: int| 0 <= k < s1.len() && of_message(#[trigger] s1[k], message_id, sender) implies
        now.contains(s1[k].index) && s1[k] == chunk_at(sender, message_id, parts, s1[k].index as int) by {
        if k < s.len() {
            assert(s1[k] == s[k]);
        }
    }
    assert forall|i: nat| #[trigger] now.contains(i) implies i < parts.len() && count_index(s1, message_id, sender, i) == 1 by {
        if i != j {
            assert(present.contains(i));
        }
    }
}

proof fn lemma_assembled_parts(s: Seq<ChunkView>, sender: Seq<u8>, message_id: Seq<u8>, parts: Seq<Seq<u8>>, n: nat)
    requires
        n <= parts.len(),
        forall|i: nat| i < n ==> #[trigger] count_index(s, message_id, sender, i) == 1,
        forall|k: int| 0 <= k < s.len() && of_message(#[trigger] s[k], message_id, sender) ==>
            s[k] == chunk_at(sender, message_id, parts, s[k].index as int),
    ensures
        assembled(s, message_id, sender, n) == concat(parts.take(n as int)),
    decreases n,
{
    if n > 0 {
        let i = (n - 1) as nat;
        lemma_assembled_parts(s, sender, message_id, parts, i);
        assert(count_index(s, message_id, sender, i) == 1);
        lemma_count_piece(s, message_id, sender, i);
        lemma_find_piece(s, message_id, sender, i);
        assert(parts.take(n as int).drop_last() =~= parts.take(i as int));
    }
}

/// The opened envelopes that carry the chunks of `message` from `sender`,
/// chunk `order[i]` in the `i`-th, with exchange key `keys[i]` numbered
/// `seqs[i]`.
pub open spec fn chunk_envelopes(
    sender: Seq<u8>,
    message_id: Seq<u8>,
    message: Seq<u8>,
    keys: Seq<Seq<u8>>,
    seqs: Seq<nat>,
    order: Seq<nat>,
) -> Seq<OpenedView> {
    Seq::new(order.len(), |i: int| OpenedView {
        provenance: sender,
        sender_key: keys[i],
        seq: seqs[i],
        chunk: chunk_at(sender, message_id, split_spec(message, MAX_CHUNK_SIZE as nat), order[i] as int),
    })
}

/// Whether `order` lists each chunk index below `n` exactly once.
pub open spec fn is_arrival_order(order: Seq<nat>, n: nat) -> bool {
    &&& order.len() == n
    &&& forall|i: int| 0 <= i < order.len() ==> #[trigger] order[i] < n
    &&& forall|i: int, j: int| 0 <= i < j < order.len() ==> #[trigger] order[i] != #[trigger] order[j]
    &&& forall|c: nat| c < n ==> #[trigger] arrived(order, order.len() as int).contains(c)
}

/// The chunk indices among the first `m` arrivals.
pub open spec fn arrived(order: Seq<nat>, m: int) -> Set<nat> {
    Set::new(|c: nat| exists|i: int| 0 <= i < m && #[trigger] order[i] == c)
}

proof fn lemma_arrived_step(order: Seq<nat>, n: nat, m: int)
    requires
        is_arrival_order(order, n),
        0 <= m < order.len(),
    ensures
        !arrived(order, m).contains(order[m]),
        arrived(order, m + 1) == arrived(order, m).insert(order[m]),
{
    let present = arrived(order, m);
    let j = order[m];
    if present.contains(j) {
        let t = choose|t: int| 0 <= t < m && #[trigger] order[t] == j;
        assert(order[t] != order[m]);
    }
    assert forall|c: nat| present.insert(j).contains(c) == arrived(order, m + 1).contains(c) by {
        if arrived(order, m + 1).contains(c) {
            let t = choose|t: int| 0 <= t < m + 1 && #[trigger] order[t] == c;
            if t < m {
                assert(present.contains(c));
            }
        }
        if present.contains(c) {
            let t = choose|t: int| 0 <= t < m && #[trigger] order[t] == c;
            assert(0 <= t < m + 1 && order[t] == c);
        }
    }
    assert(present.insert(j) =~= arrived(order, m + 1));
}

proof fn lemma_intake_range(
    ledger: Seq<PeerKeysView>,
    buffer: Seq<ChunkView>,
    sender: Seq<u8>,
    message_id: Seq<u8>,
    message: Seq<u8>,
    keys: Seq<Seq<u8>>,
    seqs: Seq<nat>,
    order: Seq<nat>,
    m1: int,
    m2: int,
    k: nat,
)
    requires
        is_arrival_order(order, split_spec(message, MAX_CHUNK_SIZE as nat).len()),
        keys.len() == order.len(),
        seqs.len() == order.len(),
        0 <= m1 <= m2 <= order.len(),
        k <= m2 - m1,
        holds_pieces(buffer, sender, message_id, split_spec(message, MAX_CHUNK_SIZE as nat), arrived(order, m1)),
    ensures
        ({
            let parts = split_spec(message, MAX_CHUNK_SIZE as nat);
            let es = chunk_envelopes(sender, message_id, message, keys, seqs, order).subrange(m1, m2);
            let (l, b, a) = intake(ledger, buffer, es, k);
            &&& holds_pieces(b, sender, message_id, parts, arrived(order, m1 + k))
            &&& a.len() == k
            &&& forall|t: int| 0 <= t < k ==> #[trigger] a[t] == chunk_at(sender, message_id, parts, order[m1 + t] as int)
        }),
    decreases k,
{
    let parts = split_spec(message, MAX_CHUNK_SIZE as nat);
    let es = chunk_envelopes(sender, message_id, message, keys, seqs, order).subrange(m1, m2);
    if k > 0 {
        lemma_intake_range(ledger, buffer, sender, message_id, message, keys, seqs, order, m1, m2, (k - 1) as nat);
        let (l0, b0, a0) = intake(ledger, buffer, es, (k - 1) as nat);
        let m = m1 + k - 1;
        let e = es[k - 1];
        assert(e.chunk == chunk_at(sender, message_id, parts, order[m] as int));
        assert(accepted(e));
        lemma_arrived_step(order, parts.len(), m);
        lemma_add_piece(b0, sender, message_id, parts, arrived(order, m), order[m]);
        let a = a0.push(e.chunk);
        assert forall|t: int| 0 <= t < k implies #[trigger] a[t] == chunk_at(sender, message_id, parts, order[m1 + t] as int) by {
            if t < k - 1 {
                assert(a[t] == a0[t]);
            }
        }
    } else {
        assert(m1 + 0 == m1);
    }
}

proof fn lemma_releases_one(b: Seq<ChunkView>, a: Seq<ChunkView>, message_id: Seq<u8>, sender: Seq<u8>, n: nat)
    requires
        1 <= n <= a.len(),
        forall|t: int| 0 <= t < a.len() ==> of_message(#[trigger] a[t], message_id, sender),
    ensures
        releases(b, a, n) == releases(b, a, 1),
    decreases n,
{
    if n > 1 {
        lemma_releases_one(b, a, message_id, sender, (n - 1) as nat);
        assert(of_message(a[0], message_id, sender));
        assert(a[n - 1].message_id == message_id && a[n - 1].provenance == sender);
        assert(!first_of_message(a, n - 1));
    }
}

/// Chunk round trip: take the envelopes of all chunks of a message in any
/// arrival order, and split them into batches. Give one batch, arrivals
/// `m1..m2`, to a buffer that holds exactly the chunks that arrived before
/// it. If a chunk is still missing after the batch, nothing comes out and
/// the batch's chunks stay pending. If the batch brings the last missing
/// chunk, exactly the whole message comes out, once, and no chunk of it
/// stays pending. So the message comes out once, whole, with the batch that
/// completes it, and never before.
pub proof fn lemma_batch_reassembly(
    ledger: Seq<PeerKeysView>,
    buffer: Seq<ChunkView>,
    sender: Seq<u8>,
    message_id: Seq<u8>,
    message: Seq<u8>,
    keys: Seq<Seq<u8>>,
    seqs: Seq<nat>,
    order: Seq<nat>,
    m1: int,
    m2: int,
)
    requires
        is_arrival_order(order, split_spec(message, MAX_CHUNK_SIZE as nat).len()),
        keys.len() == order.len(),
        seqs.len() == order.len(),
        0 <= m1 < m2 <= order.len(),
        holds_pieces(buffer, sender, message_id, split_spec(message, MAX_CHUNK_SIZE as nat), arrived(order, m1)),
    ensures
        ({
            let parts = split_spec(message, MAX_CHUNK_SIZE as nat);
            let es = chunk_envelopes(sender, message_id, message, keys, seqs, order).subrange(m1, m2);
            let (l, b, out) = batch_spec(ledger, buffer, es);
            &&& m2 < order.len() ==> out == Seq::<(Seq<u8>, Seq<u8>)>::empty()
                && holds_pieces(b, sender, message_id, parts, arrived(order, m2))
            &&& m2 == order.len() ==> out == seq![(sender, message)]
                && holds_pieces(b, sender, message_id, parts, Set::empty())
        }),
{
    let parts = split_spec(message, MAX_CHUNK_SIZE as nat);
    let n = parts.len();
    lemma_split(message, MAX_CHUNK_SIZE as nat);
    let es = chunk_envelopes(sender, message_id, message, keys, seqs, order).subrange(m1, m2);
    let k = (m2 - m1) as nat;
    assert(es.len() == k);
    lemma_intake_range(ledger, buffer, sender, message_id, message, keys, seqs, order, m1, m2, k);
    let (l, b, a) = intake(ledger, buffer, es, k);
    assert(m1 + k == m2);
    assert forall|t: int| 0 <= t < a.len() implies of_message(#[trigger] a[t], message_id, sender) by {
        assert(a[t] == chunk_at(sender, message_id, parts, order[m1 + t] as int));
    }
    lemma_releases_one(b, a, message_id, sender, a.len());
    assert(a[0] == chunk_at(sender, message_id, parts, order[m1] as int));
    assert(a[0].total == n);
    assert(first_of_message(a, 0));
    assert(releases(b, a, 0) == (b, Seq::<(Seq<u8>, Seq<u8>)>::empty()));
    let present = arrived(order, m2);
    if m2 < order.len() {
        let last = order[order.len() - 1];
        assert(!present.contains(last)) by {
            if present.contains(last) {
                let t = choose|t: int| 0 <= t < m2 && #[trigger] order[t] == last;
                assert(order[t] != order[order.len() - 1]);
            }
        }
        lemma_absent_uncounted(b, sender, message_id, parts, present, last);
        assert(!complete(b, message_id, sender, n));
    } else {
        assert forall|i: nat| i < n implies #[trigger] count_index(b, message_id, sender, i) == 1 by {
            assert(arrived(order, order.len() as int).contains(i));
        }
        assert(complete(b, message_id, sender, n));
        lemma_assembled_parts(b, sender, message_id, parts, n);
        assert(parts.take(n as int) =~= parts);
        lemma_without_message(b, message_id, sender);
        let w = without_message(b, message_id, sender);
        assert forall|k: int| 0 <= k < w.len() && of_message(#[trigger] w[k], message_id, sender) implies
            Set::<nat>::empty().contains(w[k].index) && w[k] == chunk_at(sender, message_id, parts, w[k].index as int) by {}
        assert(seq![(sender, message)] =~= Seq::<(Seq<u8>, Seq<u8>)>::empty().push((sender, message)));
    }
}

/// Ratchet: once an envelope from peer `p` is accepted, the ledger answers
/// the exchange key it carried when its number is above the last one
/// recorded from `p`; a key with a lower or equal number leaves the ledger
/// as it was, so a delayed envelope never brings back a key that a newer one
/// replaced.
pub proof fn lemma_decrypt_ratchet(ledger: Seq<PeerKeysView>, buffer: Seq<ChunkView>, e: OpenedView)
    requires
        accepted(e),
    ensures
        is_newer(ledger, e.provenance, e.seq) ==>
            their_latest_key(batch_spec(ledger, buffer, seq![e]).0, e.provenance) == Some(e.sender_key),
        !is_newer(ledger, e.provenance, e.seq) ==> batch_spec(ledger, buffer, seq![e]).0 == ledger,
{
    let es = seq![e];
    assert(es[0] == e);
    assert(intake(ledger, buffer, es, 0) == (ledger, buffer, Seq::<ChunkView>::empty()));
    lemma_observe_ratchet(ledger, e.provenance, e.sender_key, e.seq);
}

} // verus!
