//! The encryption engine: for each chunk and each recipient it chooses
//! between the fast path (a key exchange with the recipient's last known
//! exchange key) and the bootstrap path (sealing to the recipient's identity),
//! records the fresh exchange key in the ledger, and groups the result into
//! envelope plans. Sealing and signing the planned envelopes is the host's.

use vstd::prelude::*;
use crate::bytes::bytes_eq;
use crate::chunk::{Chunk, ChunkView, MAX_CHUNK_SIZE, split_spec, count_spec, split_into_chunks, lemma_split};
use crate::ledger::{KeyLedger, PeerKeysView, their_latest_key, their_latest_seq, lemma_carry_forward};

verus! {

/// What lets one fast-path recipient recover the chunk secret: the fresh
/// exchange key of the sender, its sequence number, and the recipient's key
/// it was combined with.
#[derive(Clone, Debug, PartialEq, Eq)]
pub struct KeyWrap {
    pub recipient: Vec<u8>,
    pub sender_encryption_key: Vec<u8>,
    pub sender_key_sequence: u64,
    pub recipient_encryption_key: Vec<u8>,
}

pub struct WrapView {
    pub recipient: Seq<u8>,
    pub sender_key: Seq<u8>,
    pub seq: nat,
    pub recipient_key: Seq<u8>,
}

impl View for KeyWrap {
    type V = WrapView;

    open spec fn view(&self) -> WrapView {
        WrapView {
            recipient: self.recipient@,
            sender_key: self.sender_encryption_key@,
            seq: self.sender_key_sequence as nat,
            recipient_key: self.recipient_encryption_key@,
        }
    }
}

/// One envelope to be sealed and signed.
#[derive(Clone, Debug, PartialEq, Eq)]
pub enum EnvelopePlan {
    /// Fast path: the chunk is encrypted once under a chunk secret, which is
    /// wrapped for each recipient.
    SharedSecret { chunk: Chunk, wraps: Vec<KeyWrap> },
    /// Bootstrap path: the chunk is sealed to the recipient's identity, and
    /// the sender's fresh exchange key travels with it.
    DirectSeal { chunk: Chunk, recipient: Vec<u8>, sender_encryption_key: Vec<u8>, sender_key_sequence: u64 },
}

pub enum PlanView {
    Shared { chunk: ChunkView, wraps: Seq<WrapView> },
    Direct { chunk: ChunkView, recipient: Seq<u8>, sender_key: Seq<u8>, seq: nat },
}

pub open spec fn wraps_view(ws: Seq<KeyWrap>) -> Seq<WrapView> {
    ws.map_values(|w: KeyWrap| w@)
}

impl View for EnvelopePlan {
    type V = PlanView;

    open spec fn view(&self) -> PlanView {
        match self {
            EnvelopePlan::SharedSecret { chunk, wraps } => PlanView::Shared { chunk: chunk@, wraps: wraps_view(wraps@) },
            EnvelopePlan::DirectSeal { chunk, recipient, sender_encryption_key, sender_key_sequence } => PlanView::Direct {
                chunk: chunk@,
                recipient: recipient@,
                sender_key: sender_encryption_key@,
                seq: *sender_key_sequence as nat,
            },
        }
    }
}

/// The side payload sealed to each recipient of an envelope, which tells
/// the two paths apart.
#[derive(Clone, Debug, PartialEq, Eq)]
pub enum MessageEncryption {
    /// Fast path: the chunk secret, encrypted with the secret shared by the
    /// two exchange keys.
    Secret {
        encrypted_secret: Vec<u8>,
        sender_encryption_key: Vec<u8>,
        sender_key_sequence: u64,
        recipient_encryption_key: Vec<u8>,
    },
    /// Bootstrap path: the chunk is sealed between the two identities; the
    /// sender's fresh exchange key travels along.
    SigningKey { sender_key: Vec<u8>, recipient_key: Vec<u8>, sender_encryption_key: Vec<u8>, sender_key_sequence: u64 },
}

impl MessageEncryption {
    /// The exchange key the sender generated for this envelope.
    pub open spec fn sender_key_spec(&self) -> Seq<u8> {
        match self {
            MessageEncryption::Secret { sender_encryption_key, .. } => sender_encryption_key@,
            MessageEncryption::SigningKey { sender_encryption_key, .. } => sender_encryption_key@,
        }
    }

    /// The exchange key the sender generated for this envelope.
    pub fn sender_encryption_key(&self) -> (r: Vec<u8>)
        ensures
            r@ == self.sender_key_spec(),
    {
        match self {
            MessageEncryption::Secret { sender_encryption_key, .. } => sender_encryption_key.clone(),
            MessageEncryption::SigningKey { sender_encryption_key, .. } => sender_encryption_key.clone(),
        }
    }

    /// The sequence number of the sender's exchange key.
    pub fn sender_key_sequence(&self) -> (r: u64)
        ensures
            r == match self {
                MessageEncryption::Secret { sender_key_sequence, .. } => *sender_key_sequence,
                MessageEncryption::SigningKey { sender_key_sequence, .. } => *sender_key_sequence,
            },
    {
        match self {
            MessageEncryption::Secret { sender_key_sequence, .. } => *sender_key_sequence,
            MessageEncryption::SigningKey { sender_key_sequence, .. } => *sender_key_sequence,
        }
    }

    /// Whether this is the fast path.
    pub fn is_shared_secret(&self) -> (r: bool)
        ensures
            r == (self is Secret),
    {
        match self {
            MessageEncryption::Secret { .. } => true,
            MessageEncryption::SigningKey { .. } => false,
        }
    }

    /// The side payload of a fast-path recipient, given the chunk secret
    /// encrypted for it.
    pub fn for_wrap(wrap: &KeyWrap, encrypted_secret: Vec<u8>) -> (r: MessageEncryption)
        ensures
            r matches MessageEncryption::Secret {
                encrypted_secret: s,
                sender_encryption_key: k,
                sender_key_sequence: n,
                recipient_encryption_key: t,
            } && s@ == encrypted_secret@ && k@ == wrap.sender_encryption_key@ && n == wrap.sender_key_sequence
                && t@ == wrap.recipient_encryption_key@,
    {
        MessageEncryption::Secret {
            encrypted_secret,
            sender_encryption_key: wrap.sender_encryption_key.clone(),
            sender_key_sequence: wrap.sender_key_sequence,
            recipient_encryption_key: wrap.recipient_encryption_key.clone(),
        }
    }

    /// The side payload of a bootstrap envelope from `sender`.
    pub fn for_direct(sender: &Vec<u8>, recipient: &Vec<u8>, sender_encryption_key: &Vec<u8>, sequence: u64) -> (r: MessageEncryption)
        ensures
            r matches MessageEncryption::SigningKey { sender_key: a, recipient_key: b, sender_encryption_key: k, sender_key_sequence: n }
                && a@ == sender@ && b@ == recipient@ && k@ == sender_encryption_key@ && n == sequence,
    {
        MessageEncryption::SigningKey {
            sender_key: sender.clone(),
            recipient_key: recipient.clone(),
            sender_encryption_key: sender_encryption_key.clone(),
            sender_key_sequence: sequence,
        }
    }
}

pub open spec fn plans_view(ps: Seq<EnvelopePlan>) -> Seq<PlanView> {
    ps.map_values(|p: EnvelopePlan| p@)
}

pub open spec fn bytes_view(vs: Seq<Vec<u8>>) -> Seq<Seq<u8>> {
    vs.map_values(|v: Vec<u8>| v@)
}

pub open spec fn key_table_view(vs: Seq<Vec<Vec<u8>>>) -> Seq<Seq<Seq<u8>>> {
    vs.map_values(|v: Vec<Vec<u8>>| bytes_view(v@))
}

/// The last position of a wrap for `r`, if any.
pub open spec fn wrap_index(ws: Seq<WrapView>, r: Seq<u8>) -> Option<int>
    decreases ws.len(),
{
    if ws.len() == 0 {
        None
    } else if ws.last().recipient == r {
        Some(ws.len() - 1)
    } else {
        wrap_index(ws.drop_last(), r)
    }
}

/// `ws` with `w` in place of the wrap for the same recipient, or appended:
/// a recipient listed twice keeps one wrap, the last.
pub open spec fn put_wrap_spec(ws: Seq<WrapView>, w: WrapView) -> Seq<WrapView> {
    match wrap_index(ws, w.recipient) {
        Some(i) => ws.update(i, w),
        None => ws.push(w),
    }
}

/// The bootstrap plans and the fast-path wraps for the first `n` recipients.
/// The key of recipient `i` is recorded in the sender's ledger at position
/// `base + i`, which is its sequence number.
pub open spec fn chunk_parts(
    ledger: Seq<PeerKeysView>,
    chunk: ChunkView,
    rs: Seq<Seq<u8>>,
    keys: Seq<Seq<u8>>,
    base: nat,
    n: nat,
) -> (Seq<PlanView>, Seq<WrapView>)
    decreases n,
{
    if n == 0 {
        (Seq::empty(), Seq::empty())
    } else {
        let (d, w) = chunk_parts(ledger, chunk, rs, keys, base, (n - 1) as nat);
        let r = rs[n - 1];
        let k = keys[n - 1];
        let seq = (base + n - 1) as nat;
        match their_latest_key(ledger, r) {
            Some(t) => (d, put_wrap_spec(w, WrapView { recipient: r, sender_key: k, seq, recipient_key: t })),
            None => (d.push(PlanView::Direct { chunk, recipient: r, sender_key: k, seq }), w),
        }
    }
}

/// The envelopes planned for one chunk: one bootstrap envelope per recipient
/// without a known exchange key, in the order of `rs`, then one shared
/// envelope for all the others, if there are any.
pub open spec fn chunk_plan(
    ledger: Seq<PeerKeysView>,
    chunk: ChunkView,
    rs: Seq<Seq<u8>>,
    keys: Seq<Seq<u8>>,
    base: nat,
) -> Seq<PlanView> {
    let (d, w) = chunk_parts(ledger, chunk, rs, keys, base, rs.len());
    if w.len() > 0 {
        d.push(PlanView::Shared { chunk, wraps: w })
    } else {
        d
    }
}

/// The snapshots written while planning one chunk: one per recipient, with
/// its fresh key and its exchange key and number as they were.
pub open spec fn chunk_records(ledger: Seq<PeerKeysView>, rs: Seq<Seq<u8>>, keys: Seq<Seq<u8>>) -> Seq<PeerKeysView> {
    Seq::new(rs.len(), |i: int| PeerKeysView {
        peer: rs[i],
        my_key: Some(keys[i]),
        their_key: their_latest_key(ledger, rs[i]),
        their_seq: their_latest_seq(ledger, rs[i]),
    })
}

/// Puts `w` in place of the wrap for its recipient, or appends it.
fn put_wrap(ws: &mut Vec<KeyWrap>, w: KeyWrap)
    ensures
        wraps_view(final(ws)@) == put_wrap_spec(wraps_view(old(ws)@), w@),
{
    let ghost v = wraps_view(ws@);
    let mut i: usize = ws.len();
    assert(v.take(i as int) =~= v);
    while i > 0
        invariant
            i <= ws.len(),
            v == wraps_view(ws@),
            v == wraps_view(old(ws)@),
            wrap_index(v, w.recipient@) == wrap_index(v.take(i as int), w.recipient@),
        decreases i,
    {
        let j = i - 1;
        assert(v.take(i as int).drop_last() =~= v.take(j as int));
        if bytes_eq(&ws[j].recipient, &w.recipient) {
            assert(v.take(i as int).last() == v[j as int]);
            assert(wrap_index(v, w.recipient@) == Some(j as int));
            ws.set(j, w);
            assert(wraps_view(ws@) =~= v.update(j as int, w@));
            return;
        }
        i = j;
    }
    ws.push(w);
    assert(wraps_view(ws@) =~= v.push(w@));
}

/// Plans the envelopes of one chunk for `recipients`, using the fresh
/// exchange key `fresh_keys[i]` for `recipients[i]`, and records each fresh
/// key in the ledger; the position of its snapshot is its sequence number.
pub fn plan_chunk(ledger: &mut KeyLedger, chunk: &Chunk, recipients: &Vec<Vec<u8>>, fresh_keys: &Vec<Vec<u8>>) -> (r: Vec<EnvelopePlan>)
    requires
        fresh_keys.len() == recipients.len(),
        old(ledger)@.len() + recipients.len() <= usize::MAX,
    ensures
        plans_view(r@) == chunk_plan(old(ledger)@, chunk@, bytes_view(recipients@), bytes_view(fresh_keys@), old(ledger)@.len()),
        final(ledger)@ == old(ledger)@ + chunk_records(old(ledger)@, bytes_view(recipients@), bytes_view(fresh_keys@)),
{
    let ghost l0 = ledger@;
    let ghost rs = bytes_view(recipients@);
    let ghost ks = bytes_view(fresh_keys@);
    let mut directs: Vec<EnvelopePlan> = Vec::new();
    let mut wraps: Vec<KeyWrap> = Vec::new();
    let mut i: usize = 0;
    while i < recipients.len()
        invariant
            i <= recipients.len(),
            fresh_keys.len() == recipients.len(),
            rs == bytes_view(recipients@),
            ks == bytes_view(fresh_keys@),
            l0.len() + recipients.len() <= usize::MAX,
            (plans_view(directs@), wraps_view(wraps@)) == chunk_parts(l0, chunk@, rs, ks, l0.len(), i as nat),
            ledger@ == l0 + chunk_records(l0, rs, ks).take(i as int),
            forall|p: Seq<u8>| #[trigger] their_latest_key(ledger@, p) == their_latest_key(l0, p),
            forall|p: Seq<u8>| #[trigger] their_latest_seq(ledger@, p) == their_latest_seq(l0, p),
        decreases recipients.len() - i,
    {
        let r = &recipients[i];
        let k = &fresh_keys[i];
        let their = ledger.their_key(r);
        let their_seq = ledger.their_sequence(r);
        let seq = ledger.len() as u64;
        assert(seq == l0.len() + i);
        let ghost before = ledger@;
        ledger.record_exchange(r.clone(), Some(k.clone()), their.clone(), their_seq);
        proof {
            assert forall|p: Seq<u8>| #[trigger] their_latest_key(ledger@, p) == their_latest_key(l0, p) by {
                lemma_carry_forward(before, r@, Some(k@), p);
            }
            assert forall|p: Seq<u8>| #[trigger] their_latest_seq(ledger@, p) == their_latest_seq(l0, p) by {
                lemma_carry_forward(before, r@, Some(k@), p);
            }
            assert(ledger@ =~= l0 + chunk_records(l0, rs, ks).take(i + 1));
        }
        match their {
            Some(t) => {
                put_wrap(&mut wraps, KeyWrap {
                    recipient: r.clone(),
                    sender_encryption_key: k.clone(),
                    sender_key_sequence: seq,
                    recipient_encryption_key: t,
                });
            },
            None => {
                let ghost d0 = plans_view(directs@);
                directs.push(EnvelopePlan::DirectSeal {
                    chunk: chunk.duplicate(),
                    recipient: r.clone(),
                    sender_encryption_key: k.clone(),
                    sender_key_sequence: seq,
                });
                assert(plans_view(directs@) =~= d0.push(
                    PlanView::Direct { chunk: chunk@, recipient: rs[i as int], sender_key: ks[i as int], seq: seq as nat },
                ));
            },
        }
        i = i + 1;
    }
    assert(chunk_records(l0, rs, ks).take(i as int) =~= chunk_records(l0, rs, ks));
    if wraps.len() > 0 {
        let ghost d0 = plans_view(directs@);
        let ghost w0 = wraps_view(wraps@);
        directs.push(EnvelopePlan::SharedSecret { chunk: chunk.duplicate(), wraps });
        assert(plans_view(directs@) =~= d0.push(PlanView::Shared { chunk: chunk@, wraps: w0 }));
    }
    directs
}

/// The chunk at position `i` of a message split into `parts`.
pub open spec fn chunk_at(sender: Seq<u8>, message_id: Seq<u8>, parts: Seq<Seq<u8>>, i: int) -> ChunkView {
    ChunkView { provenance: sender, message_id, index: i as nat, total: parts.len(), contents: parts[i] }
}

/// The envelopes planned for the first `n` chunks of a message.
pub open spec fn message_plan(
    ledger: Seq<PeerKeysView>,
    sender: Seq<u8>,
    message_id: Seq<u8>,
    parts: Seq<Seq<u8>>,
    rs: Seq<Seq<u8>>,
    keys: Seq<Seq<Seq<u8>>>,
    n: nat,
) -> Seq<PlanView>
    decreases n,
{
    if n == 0 {
        Seq::empty()
    } else {
        message_plan(ledger, sender, message_id, parts, rs, keys, (n - 1) as nat)
            + chunk_plan(
            ledger,
            chunk_at(sender, message_id, parts, n - 1),
            rs,
            keys[n - 1],
            (ledger.len() + (n - 1) * rs.len()) as nat,
        )
    }
}

/// The snapshots written while planning the first `n` chunks of a message.
pub open spec fn message_records(ledger: Seq<PeerKeysView>, rs: Seq<Seq<u8>>, keys: Seq<Seq<Seq<u8>>>, n: nat) -> Seq<PeerKeysView>
    decreases n,
{
    if n == 0 {
        Seq::empty()
    } else {
        message_records(ledger, rs, keys, (n - 1) as nat) + chunk_records(ledger, rs, keys[n - 1])
    }
}

proof fn lemma_parts_congruent(
    l1: Seq<PeerKeysView>,
    l2: Seq<PeerKeysView>,
    chunk: ChunkView,
    rs: Seq<Seq<u8>>,
    keys: Seq<Seq<u8>>,
    base: nat,
    n: nat,
)
    requires
        forall|p: Seq<u8>| #[trigger] their_latest_key(l1, p) == their_latest_key(l2, p),
    ensures
        chunk_parts(l1, chunk, rs, keys, base, n) == chunk_parts(l2, chunk, rs, keys, base, n),
    decreases n,
{
    if n > 0 {
        lemma_parts_congruent(l1, l2, chunk, rs, keys, base, (n - 1) as nat);
        assert(their_latest_key(l1, rs[n - 1]) == their_latest_key(l2, rs[n - 1]));
    }
}

/// Plans the envelopes of `message` from `sender` for `recipients`: the
/// message is split into chunks of at most [`MAX_CHUNK_SIZE`] bytes, and
/// chunk `i` is planned with the fresh keys `fresh_keys[i]`. The ledger's
/// length must leave room for the snapshots written.
pub fn plan_encryption(
    ledger: &mut KeyLedger,
    sender: &Vec<u8>,
    message_id: &Vec<u8>,
    message: &Vec<u8>,
    recipients: &Vec<Vec<u8>>,
    fresh_keys: &Vec<Vec<Vec<u8>>>,
) -> (r: Vec<EnvelopePlan>)
    requires
        fresh_keys.len() == count_spec(message.len() as nat, MAX_CHUNK_SIZE as nat),
        forall|i: int| 0 <= i < fresh_keys.len() ==> #[trigger] fresh_keys[i].len() == recipients.len(),
        old(ledger)@.len() + fresh_keys.len() * recipients.len() <= usize::MAX,
    ensures
        plans_view(r@) == message_plan(
            old(ledger)@,
            sender@,
            message_id@,
            split_spec(message@, MAX_CHUNK_SIZE as nat),
            bytes_view(recipients@),
            key_table_view(fresh_keys@),
            count_spec(message.len() as nat, MAX_CHUNK_SIZE as nat),
        ),
        final(ledger)@ == old(ledger)@ + message_records(
            old(ledger)@,
            bytes_view(recipients@),
            key_table_view(fresh_keys@),
            count_spec(message.len() as nat, MAX_CHUNK_SIZE as nat),
        ),
{
    let ghost l0 = ledger@;
    let ghost rs = bytes_view(recipients@);
    let ghost keys = key_table_view(fresh_keys@);
    let parts = split_into_chunks(message, MAX_CHUNK_SIZE);
    let ghost pv = split_spec(message@, MAX_CHUNK_SIZE as nat);
    proof {
        lemma_split(message@, MAX_CHUNK_SIZE as nat);
    }
    assert(parts@.len() == pv.len());
    let mut out: Vec<EnvelopePlan> = Vec::new();
    let mut i: usize = 0;
    while i < parts.len()
        invariant
            i <= parts.len(),
            parts@.len() == pv.len(),
            parts@.map_values(|c: Vec<u8>| c@) == pv,
            fresh_keys.len() == parts.len(),
            forall|j: int| 0 <= j < fresh_keys.len() ==> #[trigger] fresh_keys[j].len() == recipients.len(),
            rs == bytes_view(recipients@),
            keys == key_table_view(fresh_keys@),
            plans_view(out@) == message_plan(l0, sender@, message_id@, pv, rs, keys, i as nat),
            ledger@ == l0 + message_records(l0, rs, keys, i as nat),
            ledger@.len() == l0.len() + i * rs.len(),
            l0.len() + parts.len() * rs.len() <= usize::MAX,
            rs.len() == recipients.len(),
            forall|p: Seq<u8>| #[trigger] their_latest_key(ledger@, p) == their_latest_key(l0, p),
            forall|p: Seq<u8>| #[trigger] their_latest_seq(ledger@, p) == their_latest_seq(l0, p),
        decreases parts.len() - i,
    {
        let chunk = Chunk {
            provenance: sender.clone(),
            message_id: message_id.clone(),
            chunk_index: i,
            total_chunk_number: parts.len(),
            contents: parts[i].clone(),
        };
        assert(chunk@ == chunk_at(sender@, message_id@, pv, i as int));
        let ghost before = ledger@;
        let ghost out0 = plans_view(out@);
        assert(ledger@.len() + recipients.len() <= usize::MAX) by (nonlinear_arith)
            requires
                ledger@.len() == l0.len() + i * rs.len(),
                l0.len() + parts.len() * rs.len() <= usize::MAX,
                i < parts.len(),
                rs.len() == recipients.len();
        let mut planned = plan_chunk(ledger, &chunk, recipients, &fresh_keys[i]);
        proof {
            let ks = bytes_view(fresh_keys[i as int]@);
            assert(ks == keys[i as int]);
            assert(fresh_keys[i as int].len() == recipients.len());
            assert(ks.len() == rs.len());
            lemma_parts_congruent(before, l0, chunk@, rs, ks, before.len(), rs.len());
            assert(chunk_records(before, rs, ks) =~= chunk_records(l0, rs, ks));
            assert forall|p: Seq<u8>| #[trigger] their_latest_key(ledger@, p) == their_latest_key(l0, p) by {
                lemma_records_keep_keys(before, rs, ks, p);
            }
            assert forall|p: Seq<u8>| #[trigger] their_latest_seq(ledger@, p) == their_latest_seq(l0, p) by {
                lemma_records_keep_keys(before, rs, ks, p);
            }
            assert(ledger@.len() == l0.len() + (i + 1) * rs.len()) by (nonlinear_arith)
                requires
                    ledger@.len() == before.len() + rs.len(),
                    before.len() == l0.len() + i * rs.len();
        }
        let ghost planned_v = plans_view(planned@);
        out.append(&mut planned);
        assert(plans_view(out@) =~= out0 + planned_v);
        assert(ledger@ =~= l0 + message_records(l0, rs, keys, (i + 1) as nat));
        i = i + 1;
    }
    out
}

/// Appending the snapshots of a chunk plan leaves the key last observed
/// from every peer as it was.
proof fn lemma_records_keep_keys(ledger: Seq<PeerKeysView>, rs: Seq<Seq<u8>>, keys: Seq<Seq<u8>>, p: Seq<u8>)
    requires
        keys.len() == rs.len(),
    ensures
        their_latest_key(ledger + chunk_records(ledger, rs, keys), p) == their_latest_key(ledger, p),
        their_latest_seq(ledger + chunk_records(ledger, rs, keys), p) == their_latest_seq(ledger, p),
    decreases rs.len(),
{
    if rs.len() > 0 {
        let n = rs.len() - 1;
        let rs0 = rs.take(n);
        let ks0 = keys.take(n);
        lemma_records_keep_keys(ledger, rs0, ks0, p);
        let l1 = ledger + chunk_records(ledger, rs0, ks0);
        lemma_records_keep_keys(ledger, rs0, ks0, rs[n]);
        lemma_carry_forward(l1, rs[n], Some(keys[n]), p);
        assert(ledger + chunk_records(ledger, rs, keys) =~= l1.push(PeerKeysView {
            peer: rs[n],
            my_key: Some(keys[n]),
            their_key: their_latest_key(l1, rs[n]),
            their_seq: their_latest_seq(l1, rs[n]),
        }));
    }
}

/// Fanout: for two distinct recipients without known exchange keys, a chunk
/// becomes two single-recipient bootstrap envelopes; when both keys are
/// known, it becomes one envelope wrapped for both. The sender's keys are
/// numbered by their ledger positions, `base` and `base + 1`.
pub proof fn lemma_fanout(
    ledger: Seq<PeerKeysView>,
    chunk: ChunkView,
    a: Seq<u8>,
    b: Seq<u8>,
    key_a: Seq<u8>,
    key_b: Seq<u8>,
    base: nat,
)
    requires
        a != b,
    ensures
        their_latest_key(ledger, a).is_none() && their_latest_key(ledger, b).is_none() ==>
            chunk_plan(ledger, chunk, seq![a, b], seq![key_a, key_b], base) == seq![
                PlanView::Direct { chunk, recipient: a, sender_key: key_a, seq: base },
                PlanView::Direct { chunk, recipient: b, sender_key: key_b, seq: base + 1 },
            ],
        their_latest_key(ledger, a).is_some() && their_latest_key(ledger, b).is_some() ==>
            chunk_plan(ledger, chunk, seq![a, b], seq![key_a, key_b], base) == seq![
                PlanView::Shared {
                    chunk,
                    wraps: seq![
                        WrapView { recipient: a, sender_key: key_a, seq: base, recipient_key: their_latest_key(ledger, a).unwrap() },
                        WrapView { recipient: b, sender_key: key_b, seq: base + 1, recipient_key: their_latest_key(ledger, b).unwrap() },
                    ],
                },
            ],
{
    let rs = seq![a, b];
    let ks = seq![key_a, key_b];
    reveal_with_fuel(chunk_parts, 3);
    let e = Seq::<WrapView>::empty();
    let wa = WrapView { recipient: a, sender_key: key_a, seq: base, recipient_key: their_latest_key(ledger, a).unwrap_or(Seq::empty()) };
    assert(wrap_index(e, a) is None);
    assert(wrap_index(seq![wa], b) == wrap_index(seq![wa].drop_last(), b));
    assert(seq![wa].drop_last() =~= e);
    assert(e.push(wa) =~= seq![wa]);
    let d = Seq::<PlanView>::empty();
    assert(d.push(PlanView::Direct { chunk, recipient: a, sender_key: key_a, seq: base }).push(
        PlanView::Direct { chunk, recipient: b, sender_key: key_b, seq: base + 1 }) =~= seq![
            PlanView::Direct { chunk, recipient: a, sender_key: key_a, seq: base },
            PlanView::Direct { chunk, recipient: b, sender_key: key_b, seq: base + 1 },
        ]);
    if their_latest_key(ledger, a).is_some() && their_latest_key(ledger, b).is_some() {
        let wb = WrapView { recipient: b, sender_key: key_b, seq: base + 1, recipient_key: their_latest_key(ledger, b).unwrap() };
        assert(seq![wa].push(wb) =~= seq![wa, wb]);
        assert(d.push(PlanView::Shared { chunk, wraps: seq![wa, wb] }) =~= seq![PlanView::Shared { chunk, wraps: seq![wa, wb] }]);
    }
}

/// A message that fits in one chunk is planned as that single chunk, whole,
/// numbered 0 of 1, with the sender's keys numbered from the ledger's
/// length; with [`lemma_fanout`] this gives the fanout of such a message.
pub proof fn lemma_single_chunk_plan(
    ledger: Seq<PeerKeysView>,
    sender: Seq<u8>,
    message_id: Seq<u8>,
    message: Seq<u8>,
    rs: Seq<Seq<u8>>,
    keys: Seq<Seq<Seq<u8>>>,
)
    requires
        message.len() <= MAX_CHUNK_SIZE,
    ensures
        count_spec(message.len(), MAX_CHUNK_SIZE as nat) == 1,
        message_plan(ledger, sender, message_id, split_spec(message, MAX_CHUNK_SIZE as nat), rs, keys, 1) == chunk_plan(
            ledger,
            ChunkView { provenance: sender, message_id, index: 0, total: 1, contents: message },
            rs,
            keys[0],
            ledger.len(),
        ),
{
    let parts = split_spec(message, MAX_CHUNK_SIZE as nat);
    assert(parts == seq![message]);
    let c = chunk_at(sender, message_id, parts, 0);
    assert(c == ChunkView { provenance: sender, message_id, index: 0, total: 1, contents: message });
    assert(message_plan(ledger, sender, message_id, parts, rs, keys, 0) == Seq::<PlanView>::empty());
    assert(ledger.len() + (1 - 1) * rs.len() == ledger.len());
    let cp = chunk_plan(ledger, c, rs, keys[0], ledger.len());
    assert(Seq::<PlanView>::empty() + cp =~= cp);
}

} // verus!
