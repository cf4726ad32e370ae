//! The mailbox store of one partition: envelopes indexed by recipient, with
//! an idempotent deposit and a consuming fetch.

use vstd::prelude::*;
use crate::bytes::bytes_eq;

verus! {

/// A signed, encrypted message unit, addressed to one or more recipients.
#[derive(Clone, Debug, PartialEq, Eq)]
pub struct Envelope {
    /// The signer.
    pub provenance: Vec<u8>,
    /// The signer's signature over the message.
    pub signature: Vec<u8>,
    /// The encrypted body.
    pub contents: Vec<u8>,
    /// Each recipient with the side payload that is only theirs.
    pub recipients: Vec<(Vec<u8>, Vec<u8>)>,
}

pub struct EnvelopeView {
    pub provenance: Seq<u8>,
    pub signature: Seq<u8>,
    pub contents: Seq<u8>,
    pub recipients: Seq<(Seq<u8>, Seq<u8>)>,
}

pub open spec fn pairs_view(ps: Seq<(Vec<u8>, Vec<u8>)>) -> Seq<(Seq<u8>, Seq<u8>)> {
    ps.map_values(|p: (Vec<u8>, Vec<u8>)| (p.0@, p.1@))
}

impl View for Envelope {
    type V = EnvelopeView;

    open spec fn view(&self) -> EnvelopeView {
        EnvelopeView {
            provenance: self.provenance@,
            signature: self.signature@,
            contents: self.contents@,
            recipients: pairs_view(self.recipients@),
        }
    }
}

fn copy_pairs(ps: &Vec<(Vec<u8>, Vec<u8>)>) -> (r: Vec<(Vec<u8>, Vec<u8>)>)
    ensures
        pairs_view(r@) == pairs_view(ps@),
{
    let mut r: Vec<(Vec<u8>, Vec<u8>)> = Vec::new();
    let mut i: usize = 0;
    while i < ps.len()
        invariant
            i <= ps.len(),
            pairs_view(r@) == pairs_view(ps@).take(i as int),
        decreases ps.len() - i,
    {
        let ghost r0 = pairs_view(r@);
        r.push((ps[i].0.clone(), ps[i].1.clone()));
        assert(pairs_view(r@) =~= r0.push(pairs_view(ps@)[i as int]));
        assert(pairs_view(ps@).take(i + 1) =~= pairs_view(ps@).take(i as int).push(pairs_view(ps@)[i as int]));
        i = i + 1;
    }
    assert(pairs_view(ps@).take(i as int) =~= pairs_view(ps@));
    r
}

fn pairs_eq(a: &Vec<(Vec<u8>, Vec<u8>)>, b: &Vec<(Vec<u8>, Vec<u8>)>) -> (r: bool)
    ensures
        r == (pairs_view(a@) == pairs_view(b@)),
{
    if a.len() != b.len() {
        assert(pairs_view(a@).len() != pairs_view(b@).len());
        return false;
    }
    let mut i: usize = 0;
    while i < a.len()
        invariant
            a.len() == b.len(),
            i <= a.len(),
            forall|j: int| 0 <= j < i ==> pairs_view(a@)[j] == pairs_view(b@)[j],
        decreases a.len() - i,
    {
        if !bytes_eq(&a[i].0, &b[i].0) || !bytes_eq(&a[i].1, &b[i].1) {
            assert(pairs_view(a@)[i as int] != pairs_view(b@)[i as int]);
            return false;
        }
        i = i + 1;
    }
    assert(pairs_view(a@) =~= pairs_view(b@));
    true
}

impl Envelope {
    /// A copy of this envelope.
    pub fn duplicate(&self) -> (r: Envelope)
        ensures
            r@ == self@,
    {
        Envelope {
            provenance: self.provenance.clone(),
            signature: self.signature.clone(),
            contents: self.contents.clone(),
            recipients: copy_pairs(&self.recipients),
        }
    }

    /// Whether the envelope lists each recipient once.
    pub fn has_unique_recipients(&self) -> (r: bool)
        ensures
            r == unique_recipients(self@),
    {
        let ps = &self.recipients;
        let mut i: usize = 0;
        while i < ps.len()
            invariant
                i <= ps.len(),
                ps == &self.recipients,
                forall|a: int, b: int| 0 <= a < i && 0 <= b < ps.len() && a != b ==>
                    (#[trigger] pairs_view(ps@)[a]).0 != (#[trigger] pairs_view(ps@)[b]).0,
            decreases ps.len() - i,
        {
            let mut j: usize = 0;
            while j < ps.len()
                invariant
                    i < ps.len(),
                    j <= ps.len(),
                    ps == &self.recipients,
                    forall|a: int, b: int| 0 <= a < i && 0 <= b < ps.len() && a != b ==>
                        (#[trigger] pairs_view(ps@)[a]).0 != (#[trigger] pairs_view(ps@)[b]).0,
                    forall|b: int| 0 <= b < j && b != i ==> pairs_view(ps@)[i as int].0 != #[trigger] pairs_view(ps@)[b].0,
                decreases ps.len() - j,
            {
                if j != i && bytes_eq(&ps[i].0, &ps[j].0) {
                    assert(pairs_view(ps@)[i as int].0 == pairs_view(ps@)[j as int].0);
                    assert(self@.recipients[i as int].0 == self@.recipients[j as int].0);
                    return false;
                }
                j = j + 1;
            }
            i = i + 1;
        }
        true
    }

    /// Whether two envelopes are the same, field by field.
    pub fn same_as(&self, other: &Envelope) -> (r: bool)
        ensures
            r == (self@ == other@),
    {
        bytes_eq(&self.provenance, &other.provenance) && bytes_eq(&self.signature, &other.signature)
            && bytes_eq(&self.contents, &other.contents) && pairs_eq(&self.recipients, &other.recipients)
    }
}

/// Whether every envelope of `envelopes` is signed by `caller`: a provider
/// stores envelopes only on behalf of their own signer.
pub fn all_from(envelopes: &Vec<Envelope>, caller: &Vec<u8>) -> (r: bool)
    ensures
        r == forall|i: int| 0 <= i < envelopes.len() ==> (#[trigger] envelopes[i]).provenance@ == caller@,
{
    let mut i: usize = 0;
    while i < envelopes.len()
        invariant
            i <= envelopes.len(),
            forall|j: int| 0 <= j < i ==> (#[trigger] envelopes[j]).provenance@ == caller@,
        decreases envelopes.len() - i,
    {
        if !bytes_eq(&envelopes[i].provenance, caller) {
            return false;
        }
        i = i + 1;
    }
    true
}

/// What a recipient receives for one envelope: the signer, the encrypted
/// body and the recipient's own side payload.
#[derive(Clone, Debug, PartialEq, Eq)]
pub struct MessageOutput {
    pub provenance: Vec<u8>,
    pub message_contents: Vec<u8>,
    pub agent_specific_contents: Vec<u8>,
}

pub struct OutputView {
    pub provenance: Seq<u8>,
    pub contents: Seq<u8>,
    pub payload: Seq<u8>,
}

impl View for MessageOutput {
    type V = OutputView;

    open spec fn view(&self) -> OutputView {
        OutputView {
            provenance: self.provenance@,
            contents: self.message_contents@,
            payload: self.agent_specific_contents@,
        }
    }
}

pub open spec fn deliveries_view(ds: Seq<MessageOutput>) -> Seq<OutputView> {
    ds.map_values(|d: MessageOutput| d@)
}

/// One entry of a recipient's index: the envelope's position and the
/// recipient's side payload.
struct IndexEntry {
    recipient: Vec<u8>,
    envelope: usize,
    payload: Vec<u8>,
}

pub struct EntryView {
    pub recipient: Seq<u8>,
    pub envelope: nat,
    pub payload: Seq<u8>,
}

impl View for IndexEntry {
    type V = EntryView;

    closed spec fn view(&self) -> EntryView {
        EntryView { recipient: self.recipient@, envelope: self.envelope as nat, payload: self.payload@ }
    }
}

pub struct MailboxView {
    /// Every envelope ever stored, in the order of storage.
    pub envelopes: Seq<EnvelopeView>,
    /// The index entries not yet fetched, in the order of storage.
    pub index: Seq<EntryView>,
    /// Every index entry ever made, fetched or not, in the order made.
    pub history: Seq<EntryView>,
}

/// A mailbox with nothing stored.
pub open spec fn empty_mailbox() -> MailboxView {
    MailboxView { envelopes: Seq::empty(), index: Seq::empty(), history: Seq::empty() }
}

/// The index entry `x` refers to a stored envelope that lists its recipient
/// with its payload.
pub open spec fn entry_genuine(v: MailboxView, x: EntryView) -> bool {
    &&& x.envelope < v.envelopes.len()
    &&& exists|i: int| 0 <= i < v.envelopes[x.envelope as int].recipients.len()
        && #[trigger] v.envelopes[x.envelope as int].recipients[i] == (x.recipient, x.payload)
}

/// Stored envelopes are distinct, and every index entry refers to a stored
/// envelope that lists its recipient with its payload.
pub open spec fn mailbox_wf(v: MailboxView) -> bool {
    &&& forall|i: int, j: int| 0 <= i < v.envelopes.len() && 0 <= j < v.envelopes.len() && i != j ==>
        #[trigger] v.envelopes[i] != #[trigger] v.envelopes[j]
    &&& forall|k: int| 0 <= k < v.index.len() ==> entry_genuine(v, #[trigger] v.index[k])
}

/// Whether `e` lists each recipient once, as the map it stands for does.
pub open spec fn unique_recipients(e: EnvelopeView) -> bool {
    forall|i: int, j: int| 0 <= i < e.recipients.len() && 0 <= j < e.recipients.len() && i != j ==>
        (#[trigger] e.recipients[i]).0 != (#[trigger] e.recipients[j]).0
}

/// Whether `e` is stored.
pub open spec fn stored(v: MailboxView, e: EnvelopeView) -> bool {
    exists|k: int| 0 <= k < v.envelopes.len() && #[trigger] v.envelopes[k] == e
}

/// The index entries of an envelope stored at position `pos`.
pub open spec fn entries_of(e: EnvelopeView, pos: nat) -> Seq<EntryView> {
    Seq::new(e.recipients.len(), |i: int| EntryView { recipient: e.recipients[i].0, envelope: pos, payload: e.recipients[i].1 })
}

/// Depositing an envelope already stored changes nothing; another one is
/// stored and indexed once for each of its recipients.
pub open spec fn deposit_spec(v: MailboxView, e: EnvelopeView) -> MailboxView {
    if stored(v, e) {
        v
    } else {
        MailboxView {
            envelopes: v.envelopes.push(e),
            index: v.index + entries_of(e, v.envelopes.len()),
            history: v.history + entries_of(e, v.envelopes.len()),
        }
    }
}

/// What the index entries of `r` among `index` deliver, in order.
pub open spec fn deliveries(envelopes: Seq<EnvelopeView>, index: Seq<EntryView>, r: Seq<u8>) -> Seq<OutputView>
    decreases index.len(),
{
    if index.len() == 0 {
        Seq::empty()
    } else {
        let rest = deliveries(envelopes, index.drop_last(), r);
        let x = index.last();
        if x.recipient == r {
            let e = envelopes[x.envelope as int];
            rest.push(OutputView { provenance: e.provenance, contents: e.contents, payload: x.payload })
        } else {
            rest
        }
    }
}

/// The index entries that are not of `r`.
pub open spec fn others(index: Seq<EntryView>, r: Seq<u8>) -> Seq<EntryView>
    decreases index.len(),
{
    if index.len() == 0 {
        index
    } else if index.last().recipient == r {
        others(index.drop_last(), r)
    } else {
        others(index.drop_last(), r).push(index.last())
    }
}

/// A fetch for `r`: the deliveries of all of `r`'s index entries, which
/// are removed. The envelopes stay stored.
pub open spec fn fetch_spec(v: MailboxView, r: Seq<u8>) -> (MailboxView, Seq<OutputView>) {
    (MailboxView { index: others(v.index, r), ..v }, deliveries(v.envelopes, v.index, r))
}

/// Whether some index entry still refers to position `k`.
pub open spec fn referenced(v: MailboxView, k: nat) -> bool {
    exists|j: int| 0 <= j < v.index.len() && #[trigger] v.index[j].envelope == k
}

/// The stored envelopes among the first `n` still reachable from some
/// recipient's index, in the order of storage.
pub open spec fn undelivered_upto(v: MailboxView, n: nat) -> Seq<EnvelopeView>
    decreases n,
{
    if n == 0 {
        Seq::empty()
    } else if referenced(v, (n - 1) as nat) {
        undelivered_upto(v, (n - 1) as nat).push(v.envelopes[n - 1])
    } else {
        undelivered_upto(v, (n - 1) as nat)
    }
}

/// The stored envelopes still reachable from some recipient's index.
pub open spec fn undelivered(v: MailboxView) -> Seq<EnvelopeView> {
    undelivered_upto(v, v.envelopes.len())
}

/// The mailbox of one partition.
pub struct Mailbox {
    envelopes: Vec<Envelope>,
    index: Vec<IndexEntry>,
    history: Vec<IndexEntry>,
}

pub open spec fn envelopes_view(es: Seq<Envelope>) -> Seq<EnvelopeView> {
    es.map_values(|e: Envelope| e@)
}

impl View for Mailbox {
    type V = MailboxView;

    closed spec fn view(&self) -> MailboxView {
        MailboxView {
            envelopes: envelopes_view(self.envelopes@),
            index: self.index@.map_values(|x: IndexEntry| x@),
            history: self.history@.map_values(|x: IndexEntry| x@),
        }
    }
}

impl Mailbox {
    /// The mailbox's invariant.
    pub open spec fn wf(&self) -> bool {
        mailbox_wf(self@)
    }

    /// An empty mailbox.
    pub fn new() -> (r: Mailbox)
        ensures
            r.wf(),
            r@ == empty_mailbox(),
    {
        let r = Mailbox { envelopes: Vec::new(), index: Vec::new(), history: Vec::new() };
        assert(r@.envelopes =~= Seq::<EnvelopeView>::empty());
        assert(r@.index =~= Seq::<EntryView>::empty());
        assert(r@.history =~= Seq::<EntryView>::empty());
        r
    }

    fn position_of(&self, e: &Envelope) -> (r: Option<usize>)
        ensures
            match r {
                Some(k) => k < self@.envelopes.len() && self@.envelopes[k as int] == e@,
                None => !stored(self@, e@),
            },
    {
        let mut k: usize = 0;
        while k < self.envelopes.len()
            invariant
                k <= self.envelopes@.len(),
                self@.envelopes.len() == self.envelopes@.len(),
                forall|j: int| 0 <= j < k ==> self@.envelopes[j] != e@,
            decreases self.envelopes@.len() - k,
        {
            if self.envelopes[k].same_as(e) {
                return Some(k);
            }
            k = k + 1;
        }
        None
    }

    /// Stores `e` and indexes it for each of its recipients, unless the same
    /// envelope is stored already. Returns whether it was new.
    pub fn deposit(&mut self, e: Envelope) -> (r: bool)
        requires
            old(self).wf(),
            unique_recipients(e@),
        ensures
            final(self).wf(),
            final(self)@ == deposit_spec(old(self)@, e@),
            r == !stored(old(self)@, e@),
    {
        if self.position_of(&e).is_some() {
            return false;
        }
        let ghost v0 = self@;
        let pos = self.envelopes.len();
        let mut i: usize = 0;
        while i < e.recipients.len()
            invariant
                i <= e.recipients.len(),
                pos == v0.envelopes.len(),
                self@.envelopes == v0.envelopes,
                self@.index == v0.index + entries_of(e@, pos as nat).take(i as int),
                self@.history == v0.history + entries_of(e@, pos as nat).take(i as int),
            decreases e.recipients.len() - i,
        {
            let ghost x0 = self@.index;
            let ghost h0 = self@.history;
            self.index.push(IndexEntry {
                recipient: e.recipients[i].0.clone(),
                envelope: pos,
                payload: e.recipients[i].1.clone(),
            });
            self.history.push(IndexEntry {
                recipient: e.recipients[i].0.clone(),
                envelope: pos,
                payload: e.recipients[i].1.clone(),
            });
            assert(self@.index =~= x0.push(entries_of(e@, pos as nat)[i as int]));
            assert(self@.history =~= h0.push(entries_of(e@, pos as nat)[i as int]));
            assert(entries_of(e@, pos as nat).take(i + 1) =~= entries_of(e@, pos as nat).take(i as int).push(entries_of(e@, pos as nat)[i as int]));
            i = i + 1;
        }
        assert(entries_of(e@, pos as nat).take(i as int) =~= entries_of(e@, pos as nat));
        let ghost ev = e@;
        self.envelopes.push(e);
        assert(self@.envelopes =~= v0.envelopes.push(ev));
        proof { lemma_deposit_wf(v0, ev); }
        true
    }

    /// Returns the deliveries of every envelope indexed for `r` and removes
    /// those index entries; a second fetch returns nothing new.
    pub fn fetch_and_clear(&mut self, r: &Vec<u8>) -> (out: Vec<MessageOutput>)
        requires
            old(self).wf(),
        ensures
            final(self).wf(),
            (final(self)@, deliveries_view(out@)) == fetch_spec(old(self)@, r@),
    {
        let ghost v0 = self@;
        let mut out: Vec<MessageOutput> = Vec::new();
        let mut kept: Vec<IndexEntry> = Vec::new();
        let mut entries: Vec<IndexEntry> = Vec::new();
        std::mem::swap(&mut entries, &mut self.index);
        let ghost ix = v0.index;
        assert(entries@.map_values(|x: IndexEntry| x@) == ix);
        let mut i: usize = 0;
        while i < entries.len()
            invariant
                i <= entries.len(),
                entries@.map_values(|x: IndexEntry| x@) == ix,
                envelopes_view(self.envelopes@) == v0.envelopes,
                mailbox_wf(v0),
                ix == v0.index,
                kept@.map_values(|x: IndexEntry| x@) == others(ix.take(i as int), r@),
                deliveries_view(out@) == deliveries(v0.envelopes, ix.take(i as int), r@),
            decreases entries.len() - i,
        {
            assert(ix.take(i + 1).drop_last() =~= ix.take(i as int));
            assert(ix.take(i + 1).last() == ix[i as int]);
            let x = &entries[i];
            if bytes_eq(&x.recipient, r) {
                assert(ix[i as int].envelope < v0.envelopes.len());
                let e = &self.envelopes[x.envelope];
                let ghost o0 = deliveries_view(out@);
                out.push(MessageOutput {
                    provenance: e.provenance.clone(),
                    message_contents: e.contents.clone(),
                    agent_specific_contents: x.payload.clone(),
                });
                assert(deliveries_view(out@) =~= o0.push(deliveries_view(out@).last()));
            } else {
                let ghost k0 = kept@.map_values(|x: IndexEntry| x@);
                kept.push(IndexEntry { recipient: x.recipient.clone(), envelope: x.envelope, payload: x.payload.clone() });
                assert(kept@.map_values(|x: IndexEntry| x@) =~= k0.push(ix[i as int]));
            }
            i = i + 1;
        }
        assert(ix.take(i as int) =~= ix);
        self.index = kept;
        proof {
            lemma_others_wf(v0, r@);
        }
        out
    }

    /// Each index entry not yet fetched, as the envelope it refers to, the
    /// recipient and the recipient's payload, in the order of the index.
    pub fn export_pending(&self) -> (r: Vec<(Envelope, Vec<u8>, Vec<u8>)>)
        requires
            self.wf(),
        ensures
            pending_view(r@) == pending_spec(self@),
    {
        let mut r: Vec<(Envelope, Vec<u8>, Vec<u8>)> = Vec::new();
        let mut j: usize = 0;
        while j < self.index.len()
            invariant
                j <= self.index@.len(),
                self.wf(),
                self@.index.len() == self.index@.len(),
                pending_view(r@) == pending_spec(self@).take(j as int),
            decreases self.index@.len() - j,
        {
            let x = &self.index[j];
            assert(entry_genuine(self@, self@.index[j as int]));
            let e = self.envelopes[x.envelope].duplicate();
            let ghost r0 = pending_view(r@);
            r.push((e, x.recipient.clone(), x.payload.clone()));
            assert(pending_view(r@) =~= r0.push(pending_spec(self@)[j as int]));
            assert(pending_spec(self@).take(j + 1) =~= pending_spec(self@).take(j as int).push(pending_spec(self@)[j as int]));
            j = j + 1;
        }
        assert(pending_spec(self@).take(j as int) =~= pending_spec(self@));
        r
    }

    /// Indexes `e` for `recipient` with `payload`, storing `e` first unless
    /// it is stored already: the index entry of a migrated envelope, carried
    /// over without indexing its other recipients again.
    pub fn carry(&mut self, e: &Envelope, recipient: &Vec<u8>, payload: &Vec<u8>)
        requires
            old(self).wf(),
            lists(e@, recipient@, payload@),
        ensures
            final(self).wf(),
            final(self)@ == carry_spec(old(self)@, e@, recipient@, payload@),
    {
        let ghost v0 = self@;
        let pos = match self.position_of(e) {
            Some(k) => {
                proof { lemma_position_unique(v0, e@, k as int); }
                k
            },
            None => {
                let n = self.envelopes.len();
                self.envelopes.push(e.duplicate());
                assert(self@.envelopes =~= v0.envelopes.push(e@));
                proof {
                    let v1 = MailboxView { envelopes: v0.envelopes.push(e@), ..v0 };
                    assert(v1.envelopes[n as int] == e@);
                    lemma_push_new_wf(v0, e@);
                    lemma_position_unique(v1, e@, n as int);
                }
                n
            },
        };
        let ghost v1 = self@;
        let ghost x = EntryView { recipient: recipient@, envelope: pos as nat, payload: payload@ };
        if self.made_before(recipient, pos, payload) {
            return;
        }
        self.index.push(IndexEntry { recipient: recipient.clone(), envelope: pos, payload: payload.clone() });
        self.history.push(IndexEntry { recipient: recipient.clone(), envelope: pos, payload: payload.clone() });
        assert(self@.index =~= v1.index.push(x));
        assert(self@.history =~= v1.history.push(x));
        proof { lemma_carry_wf(v1, e@, pos as int, recipient@, payload@, v1.history.push(x)); }
    }

    fn made_before(&self, recipient: &Vec<u8>, pos: usize, payload: &Vec<u8>) -> (r: bool)
        ensures
            r == self@.history.contains(EntryView { recipient: recipient@, envelope: pos as nat, payload: payload@ }),
    {
        let ghost x = EntryView { recipient: recipient@, envelope: pos as nat, payload: payload@ };
        let mut k: usize = 0;
        while k < self.history.len()
            invariant
                k <= self.history@.len(),
                self@.history.len() == self.history@.len(),
                x == (EntryView { recipient: recipient@, envelope: pos as nat, payload: payload@ }),
                forall|j: int| 0 <= j < k ==> self@.history[j] != x,
            decreases self.history@.len() - k,
        {
            let h = &self.history[k];
            assert(self@.history[k as int] == self.history@[k as int]@);
            let same_recipient = bytes_eq(&h.recipient, recipient);
            let same_payload = bytes_eq(&h.payload, payload);
            if h.envelope == pos && same_recipient && same_payload {
                assert(self@.history[k as int] == x);
                return true;
            }
            k = k + 1;
        }
        false
    }

    /// The stored envelopes still reachable from some recipient's index.
    pub fn export_undelivered(&self) -> (r: Vec<Envelope>)
        requires
            self.wf(),
        ensures
            envelopes_view(r@) == undelivered(self@),
            forall|i: int, j: int| 0 <= i < j < r@.len() ==>
                #[trigger] envelopes_view(r@)[i] != #[trigger] envelopes_view(r@)[j],
    {
        proof { lemma_undelivered_distinct(self@, self@.envelopes.len()); }
        let mut r: Vec<Envelope> = Vec::new();
        let mut k: usize = 0;
        while k < self.envelopes.len()
            invariant
                k <= self.envelopes@.len(),
                self@.envelopes.len() == self.envelopes@.len(),
                envelopes_view(r@) == undelivered_upto(self@, k as nat),
            decreases self.envelopes@.len() - k,
        {
            let mut found = false;
            let mut j: usize = 0;
            while j < self.index.len()
                invariant
                    j <= self.index@.len(),
                    self@.index.len() == self.index@.len(),
                    found == exists|t: int| 0 <= t < j && #[trigger] self@.index[t].envelope == k as nat,
                decreases self.index@.len() - j,
            {
                if self.index[j].envelope == k {
                    assert(self@.index[j as int].envelope == k as nat);
                    found = true;
                }
                j = j + 1;
            }
            if found {
                let ghost r0 = envelopes_view(r@);
                r.push(self.envelopes[k].duplicate());
                assert(envelopes_view(r@) =~= r0.push(self@.envelopes[k as int]));
            }
            k = k + 1;
        }
        r
    }
}

proof fn lemma_deposit_wf(v: MailboxView, e: EnvelopeView)
    requires
        mailbox_wf(v),
    ensures
        mailbox_wf(deposit_spec(v, e)),
{
    if !stored(v, e) {
        let d = deposit_spec(v, e);
        let pos = v.envelopes.len();
        assert forall|i: int, j: int| 0 <= i < d.envelopes.len() && 0 <= j < d.envelopes.len() && i != j implies
            #[trigger] d.envelopes[i] != #[trigger] d.envelopes[j] by {
            if i < pos && j < pos {
                assert(v.envelopes[i] != v.envelopes[j]);
            } else if i < pos {
                assert(v.envelopes[i] == d.envelopes[i]);
            } else {
                assert(v.envelopes[j] == d.envelopes[j]);
            }
        }
        assert forall|k: int| 0 <= k < d.index.len() implies entry_genuine(d, #[trigger] d.index[k]) by {
            if k < v.index.len() {
                assert(d.index[k] == v.index[k]);
                assert(entry_genuine(v, v.index[k]));
                let x = v.index[k];
                let i = choose|i: int| 0 <= i < v.envelopes[x.envelope as int].recipients.len()
                    && #[trigger] v.envelopes[x.envelope as int].recipients[i] == (x.recipient, x.payload);
                assert(d.envelopes[x.envelope as int] == v.envelopes[x.envelope as int]);
                assert(d.envelopes[x.envelope as int].recipients[i] == (x.recipient, x.payload));
            } else {
                let i = k - v.index.len();
                assert(d.index[k] == entries_of(e, pos)[i]);
                assert(d.envelopes[pos as int] == e);
                assert(d.envelopes[pos as int].recipients[i] == (d.index[k].recipient, d.index[k].payload));
            }
        }
    }
}

proof fn lemma_others_members(index: Seq<EntryView>, r: Seq<u8>)
    ensures
        forall|k: int| 0 <= k < others(index, r).len() ==> exists|j: int| 0 <= j < index.len() && #[trigger] others(index, r)[k] == index[j],
        forall|k: int| 0 <= k < others(index, r).len() ==> (#[trigger] others(index, r)[k]).recipient != r,
    decreases index.len(),
{
    if index.len() > 0 {
        let i0 = index.drop_last();
        lemma_others_members(i0, r);
        let o = others(index, r);
        let o0 = others(i0, r);
        assert forall|k: int| 0 <= k < o.len() implies exists|j: int| 0 <= j < index.len() && #[trigger] o[k] == index[j] by {
            if k < o0.len() {
                let j = choose|j: int| 0 <= j < i0.len() && #[trigger] o0[k] == i0[j];
                assert(o[k] == index[j]);
            } else {
                assert(o[k] == index[index.len() - 1]);
            }
        }
        assert forall|k: int| 0 <= k < o.len() implies (#[trigger] o[k]).recipient != r by {
            if k < o0.len() {
                assert(o[k] == o0[k]);
            }
        }
    }
}

proof fn lemma_others_wf(v: MailboxView, r: Seq<u8>)
    requires
        mailbox_wf(v),
    ensures
        mailbox_wf(fetch_spec(v, r).0),
{
    lemma_others_members(v.index, r);
    let o = others(v.index, r);
    let f = fetch_spec(v, r).0;
    assert forall|k: int| 0 <= k < o.len() implies entry_genuine(f, #[trigger] o[k]) by {
        let j = choose|j: int| 0 <= j < v.index.len() && #[trigger] o[k] == v.index[j];
        assert(entry_genuine(v, v.index[j]));
    }
}

proof fn lemma_deliveries_none(envelopes: Seq<EnvelopeView>, index: Seq<EntryView>, r: Seq<u8>)
    requires
        forall|k: int| 0 <= k < index.len() ==> (#[trigger] index[k]).recipient != r,
    ensures
        deliveries(envelopes, index, r) == Seq::<OutputView>::empty(),
    decreases index.len(),
{
    if index.len() > 0 {
        let i0 = index.drop_last();
        assert forall|k: int| 0 <= k < i0.len() implies (#[trigger] i0[k]).recipient != r by {
            assert(i0[k] == index[k]);
        }
        lemma_deliveries_none(envelopes, i0, r);
    }
}

proof fn lemma_deliveries_contains(envelopes: Seq<EnvelopeView>, index: Seq<EntryView>, r: Seq<u8>, j: int)
    requires
        0 <= j < index.len(),
        index[j].recipient == r,
    ensures
        deliveries(envelopes, index, r).contains(OutputView {
            provenance: envelopes[index[j].envelope as int].provenance,
            contents: envelopes[index[j].envelope as int].contents,
            payload: index[j].payload,
        }),
    decreases index.len(),
{
    let d = OutputView {
        provenance: envelopes[index[j].envelope as int].provenance,
        contents: envelopes[index[j].envelope as int].contents,
        payload: index[j].payload,
    };
    let rest = deliveries(envelopes, index.drop_last(), r);
    if j == index.len() - 1 {
        assert(deliveries(envelopes, index, r) == rest.push(d));
        assert(rest.push(d)[rest.len() as int] == d);
    } else {
        lemma_deliveries_contains(envelopes, index.drop_last(), r, j);
        let k = choose|k: int| 0 <= k < rest.len() && rest[k] == d;
        let all = deliveries(envelopes, index, r);
        assert(all[k] == d);
    }
}

/// At most once: once an envelope is deposited, a fetch by one of its
/// recipients returns it with that recipient's side payload; after that
/// fetch, the recipient's next fetch returns nothing, and depositing the same
/// envelope again indexes nothing, so no later fetch returns it again.
pub proof fn lemma_at_most_once(v: MailboxView, e: EnvelopeView, r: Seq<u8>)
    requires
        mailbox_wf(v),
    ensures
        ({
            let d = deposit_spec(v, e);
            let (f, got) = fetch_spec(d, r);
            &&& !stored(v, e) ==> forall|i: int| 0 <= i < e.recipients.len() && (#[trigger] e.recipients[i]).0 == r ==>
                got.contains(OutputView { provenance: e.provenance, contents: e.contents, payload: e.recipients[i].1 })
            &&& fetch_spec(f, r).1 == Seq::<OutputView>::empty()
            &&& deposit_spec(f, e) == f
        }),
{
    let d = deposit_spec(v, e);
    let f = fetch_spec(d, r).0;
    lemma_others_members(d.index, r);
    lemma_deliveries_none(f.envelopes, f.index, r);
    if !stored(v, e) {
        let pos = v.envelopes.len();
        assert(d.envelopes[pos as int] == e);
        assert forall|i: int| 0 <= i < e.recipients.len() && (#[trigger] e.recipients[i]).0 == r implies
            fetch_spec(d, r).1.contains(OutputView { provenance: e.provenance, contents: e.contents, payload: e.recipients[i].1 }) by {
            let j = v.index.len() + i;
            assert(d.index[j] == entries_of(e, pos)[i]);
            lemma_deliveries_contains(d.envelopes, d.index, r, j);
        }
        assert(f.envelopes[pos as int] == e);
    } else {
        let k = choose|k: int| 0 <= k < v.envelopes.len() && #[trigger] v.envelopes[k] == e;
        assert(f.envelopes[k] == e);
    }
}

proof fn lemma_deliveries_members(envelopes: Seq<EnvelopeView>, index: Seq<EntryView>, r: Seq<u8>, d: OutputView)
    requires
        deliveries(envelopes, index, r).contains(d),
    ensures
        exists|j: int| 0 <= j < index.len() && (#[trigger] index[j]).recipient == r
            && d == (OutputView {
                provenance: envelopes[index[j].envelope as int].provenance,
                contents: envelopes[index[j].envelope as int].contents,
                payload: index[j].payload,
            }),
    decreases index.len(),
{
    let i0 = index.drop_last();
    let rest = deliveries(envelopes, i0, r);
    let all = deliveries(envelopes, index, r);
    let k = choose|k: int| 0 <= k < all.len() && all[k] == d;
    let x = index.last();
    if x.recipient == r && k == rest.len() {
        assert(index[index.len() - 1] == x);
    } else {
        assert(rest[k] == d);
        assert(rest.contains(d));
        lemma_deliveries_members(envelopes, i0, r, d);
        let j = choose|j: int| 0 <= j < i0.len() && (#[trigger] i0[j]).recipient == r
            && d == (OutputView {
                provenance: envelopes[i0[j].envelope as int].provenance,
                contents: envelopes[i0[j].envelope as int].contents,
                payload: i0[j].payload,
            });
        assert(index[j] == i0[j]);
    }
}

/// An envelope is among the undelivered ones of the first `n` exactly when
/// it is stored at one of those positions and still referenced.
pub proof fn lemma_undelivered_upto(v: MailboxView, n: nat, e: EnvelopeView)
    requires
        n <= v.envelopes.len(),
    ensures
        undelivered_upto(v, n).contains(e) <==> exists|k: nat| k < n && referenced(v, k) && #[trigger] v.envelopes[k as int] == e,
    decreases n,
{
    if n > 0 {
        let m = (n - 1) as nat;
        lemma_undelivered_upto(v, m, e);
        let u0 = undelivered_upto(v, m);
        let u = undelivered_upto(v, n);
        if u.contains(e) {
            let t = choose|t: int| 0 <= t < u.len() && u[t] == e;
            if referenced(v, m) && t == u0.len() {
                assert(v.envelopes[m as int] == e);
            } else {
                assert(u0[t] == e);
            }
        }
        if exists|k: nat| k < n && referenced(v, k) && #[trigger] v.envelopes[k as int] == e {
            let k = choose|k: nat| k < n && referenced(v, k) && #[trigger] v.envelopes[k as int] == e;
            if k == m {
                assert(u[u.len() - 1] == e);
            } else {
                let t = choose|t: int| 0 <= t < u0.len() && u0[t] == e;
                if referenced(v, m) {
                    assert(u[t] == e);
                }
            }
        }
    }
}

/// Whether `e` lists `recipient` with `payload`.
pub open spec fn lists(e: EnvelopeView, recipient: Seq<u8>, payload: Seq<u8>) -> bool {
    exists|i: int| 0 <= i < e.recipients.len() && #[trigger] e.recipients[i] == (recipient, payload)
}

/// The position of a stored envelope.
pub open spec fn position_spec(envelopes: Seq<EnvelopeView>, e: EnvelopeView) -> int {
    choose|k: int| 0 <= k < envelopes.len() && #[trigger] envelopes[k] == e
}

/// `v` with `e` stored, if it was not, and indexed for `recipient` with
/// `payload`.
pub open spec fn carry_spec(v: MailboxView, e: EnvelopeView, recipient: Seq<u8>, payload: Seq<u8>) -> MailboxView {
    let v1 = if stored(v, e) { v } else { MailboxView { envelopes: v.envelopes.push(e), ..v } };
    let x = EntryView { recipient, envelope: position_spec(v1.envelopes, e) as nat, payload };
    if v1.history.contains(x) {
        v1
    } else {
        MailboxView { index: v1.index.push(x), history: v1.history.push(x), ..v1 }
    }
}

/// `v` after carrying the index entries `ts` in order.
pub open spec fn carry_all(v: MailboxView, ts: Seq<(EnvelopeView, Seq<u8>, Seq<u8>)>) -> MailboxView
    decreases ts.len(),
{
    if ts.len() == 0 {
        v
    } else {
        let t = ts.last();
        carry_spec(carry_all(v, ts.drop_last()), t.0, t.1, t.2)
    }
}

/// The index entries not yet fetched, as (envelope, recipient, payload).
pub open spec fn pending_spec(v: MailboxView) -> Seq<(EnvelopeView, Seq<u8>, Seq<u8>)> {
    Seq::new(v.index.len(), |j: int| (v.envelopes[v.index[j].envelope as int], v.index[j].recipient, v.index[j].payload))
}

pub open spec fn pending_view(ps: Seq<(Envelope, Vec<u8>, Vec<u8>)>) -> Seq<(EnvelopeView, Seq<u8>, Seq<u8>)> {
    ps.map_values(|p: (Envelope, Vec<u8>, Vec<u8>)| (p.0@, p.1@, p.2@))
}

/// Whether some index entry of `r` delivers `d`.
pub open spec fn delivers(v: MailboxView, r: Seq<u8>, d: OutputView) -> bool {
    exists|j: int| 0 <= j < v.index.len() && (#[trigger] v.index[j]).recipient == r
        && d == (OutputView {
            provenance: v.envelopes[v.index[j].envelope as int].provenance,
            contents: v.envelopes[v.index[j].envelope as int].contents,
            payload: v.index[j].payload,
        })
}

proof fn lemma_position_unique(v: MailboxView, e: EnvelopeView, k: int)
    requires
        mailbox_wf(v),
        0 <= k < v.envelopes.len(),
        v.envelopes[k] == e,
    ensures
        stored(v, e),
        position_spec(v.envelopes, e) == k,
{
    let p = position_spec(v.envelopes, e);
    assert(v.envelopes[p] == e);
    if p != k {
        assert(v.envelopes[p] != v.envelopes[k]);
    }
}

proof fn lemma_push_new_wf(v: MailboxView, e: EnvelopeView)
    requires
        mailbox_wf(v),
        !stored(v, e),
    ensures
        mailbox_wf(MailboxView { envelopes: v.envelopes.push(e), ..v }),
{
    let w = MailboxView { envelopes: v.envelopes.push(e), ..v };
    let n = v.envelopes.len() as int;
    assert forall|i: int, j: int| 0 <= i < w.envelopes.len() && 0 <= j < w.envelopes.len() && i != j implies
        #[trigger] w.envelopes[i] != #[trigger] w.envelopes[j] by {
        if i < n && j < n {
            assert(v.envelopes[i] != v.envelopes[j]);
        } else if i < n {
            assert(v.envelopes[i] == w.envelopes[i]);
        } else {
            assert(v.envelopes[j] == w.envelopes[j]);
        }
    }
    assert forall|k: int| 0 <= k < w.index.len() implies entry_genuine(w, #[trigger] w.index[k]) by {
        assert(entry_genuine(v, v.index[k]));
        let x = v.index[k];
        let i = choose|i: int| 0 <= i < v.envelopes[x.envelope as int].recipients.len()
            && #[trigger] v.envelopes[x.envelope as int].recipients[i] == (x.recipient, x.payload);
        assert(w.envelopes[x.envelope as int] == v.envelopes[x.envelope as int]);
        assert(w.envelopes[x.envelope as int].recipients[i] == (x.recipient, x.payload));
    }
}

proof fn lemma_carry_wf(v: MailboxView, e: EnvelopeView, pos: int, recipient: Seq<u8>, payload: Seq<u8>, history: Seq<EntryView>)
    requires
        mailbox_wf(v),
        0 <= pos < v.envelopes.len(),
        v.envelopes[pos] == e,
        lists(e, recipient, payload),
    ensures
        mailbox_wf(MailboxView { index: v.index.push(EntryView { recipient, envelope: pos as nat, payload }), history, ..v }),
{
    let w = MailboxView { index: v.index.push(EntryView { recipient, envelope: pos as nat, payload }), history, ..v };
    assert forall|k: int| 0 <= k < w.index.len() implies entry_genuine(w, #[trigger] w.index[k]) by {
        if k < v.index.len() {
            let x = v.index[k];
            assert(w.index[k] == x);
            assert(entry_genuine(v, x));
            let i = choose|i: int| 0 <= i < v.envelopes[x.envelope as int].recipients.len()
                && #[trigger] v.envelopes[x.envelope as int].recipients[i] == (x.recipient, x.payload);
            assert(w.envelopes[x.envelope as int].recipients[i] == (x.recipient, x.payload));
        } else {
            let x = w.index[k];
            assert(x == EntryView { recipient, envelope: pos as nat, payload });
            assert(x.envelope < w.envelopes.len());
            let i = choose|i: int| 0 <= i < e.recipients.len() && #[trigger] e.recipients[i] == (recipient, payload);
            assert(w.envelopes[x.envelope as int] == e);
            assert(w.envelopes[x.envelope as int].recipients[i] == (x.recipient, x.payload));
        }
    }
}

/// Carrying one entry into a mailbox from which nothing was fetched keeps
/// the invariant, and what a recipient's fetch delivers grows by exactly the
/// carried entry's delivery.
pub proof fn lemma_carry(v: MailboxView, e: EnvelopeView, recipient: Seq<u8>, payload: Seq<u8>, r: Seq<u8>, d: OutputView)
    requires
        mailbox_wf(v),
        v.history == v.index,
        lists(e, recipient, payload),
    ensures
        mailbox_wf(carry_spec(v, e, recipient, payload)),
        carry_spec(v, e, recipient, payload).history == carry_spec(v, e, recipient, payload).index,
        delivers(carry_spec(v, e, recipient, payload), r, d) <==> (delivers(v, r, d) || (recipient == r
            && d == (OutputView { provenance: e.provenance, contents: e.contents, payload }))),
{
    let v1 = if stored(v, e) { v } else { MailboxView { envelopes: v.envelopes.push(e), ..v } };
    if stored(v, e) {
        let k = choose|k: int| 0 <= k < v.envelopes.len() && #[trigger] v.envelopes[k] == e;
        lemma_position_unique(v, e, k);
    } else {
        lemma_push_new_wf(v, e);
        assert(v1.envelopes[v.envelopes.len() as int] == e);
        lemma_position_unique(v1, e, v.envelopes.len() as int);
    }
    let pos = position_spec(v1.envelopes, e);
    let x = EntryView { recipient, envelope: pos as nat, payload };
    lemma_carry_wf(v1, e, pos, recipient, payload, v1.history.push(x));
    let w = carry_spec(v, e, recipient, payload);
    if v1.history.contains(x) {
        assert(w == v1);
        if recipient == r && d == (OutputView { provenance: e.provenance, contents: e.contents, payload }) {
            let j = choose|j: int| 0 <= j < v1.history.len() && v1.history[j] == x;
            assert(v1.index[j] == x);
            assert(v1.envelopes[pos] == e);
        }
        assert forall|j: int| 0 <= j < v.index.len() implies #[trigger] v1.index[j] == v.index[j]
            && v1.envelopes[v.index[j].envelope as int] == v.envelopes[v.index[j].envelope as int] by {
            assert(entry_genuine(v, v.index[j]));
        }
        if delivers(v1, r, d) {
            let j = choose|j: int| 0 <= j < v1.index.len() && (#[trigger] v1.index[j]).recipient == r
                && d == (OutputView {
                    provenance: v1.envelopes[v1.index[j].envelope as int].provenance,
                    contents: v1.envelopes[v1.index[j].envelope as int].contents,
                    payload: v1.index[j].payload,
                });
            assert(v.index[j] == v1.index[j]);
        }
        if delivers(v, r, d) {
            let j = choose|j: int| 0 <= j < v.index.len() && (#[trigger] v.index[j]).recipient == r
                && d == (OutputView {
                    provenance: v.envelopes[v.index[j].envelope as int].provenance,
                    contents: v.envelopes[v.index[j].envelope as int].contents,
                    payload: v.index[j].payload,
                });
            assert(v1.index[j] == v.index[j]);
        }
        return;
    }
    assert forall|j: int| 0 <= j < v.index.len() implies #[trigger] w.index[j] == v.index[j]
        && w.envelopes[v.index[j].envelope as int] == v.envelopes[v.index[j].envelope as int] by {
        assert(entry_genuine(v, v.index[j]));
    }
    if delivers(w, r, d) {
        let j = choose|j: int| 0 <= j < w.index.len() && (#[trigger] w.index[j]).recipient == r
            && d == (OutputView {
                provenance: w.envelopes[w.index[j].envelope as int].provenance,
                contents: w.envelopes[w.index[j].envelope as int].contents,
                payload: w.index[j].payload,
            });
        if j < v.index.len() {
            assert(w.index[j] == v.index[j]);
        }
    }
    if delivers(v, r, d) {
        let j = choose|j: int| 0 <= j < v.index.len() && (#[trigger] v.index[j]).recipient == r
            && d == (OutputView {
                provenance: v.envelopes[v.index[j].envelope as int].provenance,
                contents: v.envelopes[v.index[j].envelope as int].contents,
                payload: v.index[j].payload,
            });
        assert(w.index[j] == v.index[j]);
    }
    if recipient == r && d == (OutputView { provenance: e.provenance, contents: e.contents, payload }) {
        let j = v.index.len() as int;
        assert(w.index[j].recipient == r);
    }
}

/// Carrying the entries `ts` keeps the invariant, and a recipient's fetch
/// then delivers what it delivered before plus what the entries of `ts`
/// for that recipient deliver.
pub proof fn lemma_carry_all(v: MailboxView, ts: Seq<(EnvelopeView, Seq<u8>, Seq<u8>)>, r: Seq<u8>, d: OutputView)
    requires
        mailbox_wf(v),
        v.history == v.index,
        forall|i: int| 0 <= i < ts.len() ==> lists((#[trigger] ts[i]).0, ts[i].1, ts[i].2),
    ensures
        mailbox_wf(carry_all(v, ts)),
        carry_all(v, ts).history == carry_all(v, ts).index,
        delivers(carry_all(v, ts), r, d) <==> (delivers(v, r, d) || exists|i: int| 0 <= i < ts.len()
            && (#[trigger] ts[i]).1 == r
            && d == (OutputView { provenance: ts[i].0.provenance, contents: ts[i].0.contents, payload: ts[i].2 })),
    decreases ts.len(),
{
    if ts.len() > 0 {
        let t0 = ts.drop_last();
        assert forall|i: int| 0 <= i < t0.len() implies lists((#[trigger] t0[i]).0, t0[i].1, t0[i].2) by {
            assert(t0[i] == ts[i]);
        }
        lemma_carry_all(v, t0, r, d);
        let t = ts.last();
        assert(lists(ts[ts.len() - 1].0, ts[ts.len() - 1].1, ts[ts.len() - 1].2));
        lemma_carry(carry_all(v, t0), t.0, t.1, t.2, r, d);
        if exists|i: int| 0 <= i < ts.len() && (#[trigger] ts[i]).1 == r
            && d == (OutputView { provenance: ts[i].0.provenance, contents: ts[i].0.contents, payload: ts[i].2 }) {
            let i = choose|i: int| 0 <= i < ts.len() && (#[trigger] ts[i]).1 == r
                && d == (OutputView { provenance: ts[i].0.provenance, contents: ts[i].0.contents, payload: ts[i].2 });
            if i < t0.len() {
                assert(t0[i] == ts[i]);
            }
        }
        if exists|i: int| 0 <= i < t0.len() && (#[trigger] t0[i]).1 == r
            && d == (OutputView { provenance: t0[i].0.provenance, contents: t0[i].0.contents, payload: t0[i].2 }) {
            let i = choose|i: int| 0 <= i < t0.len() && (#[trigger] t0[i]).1 == r
                && d == (OutputView { provenance: t0[i].0.provenance, contents: t0[i].0.contents, payload: t0[i].2 });
            assert(ts[i] == t0[i]);
        }
        if t.1 == r && d == (OutputView { provenance: t.0.provenance, contents: t.0.contents, payload: t.2 }) {
            assert(ts[ts.len() - 1] == t);
        }
    }
}

/// What a fetch by `r` returns is exactly what the entries of `r` deliver.
pub proof fn lemma_fetch_delivers(v: MailboxView, r: Seq<u8>, d: OutputView)
    ensures
        fetch_spec(v, r).1.contains(d) <==> delivers(v, r, d),
{
    if fetch_spec(v, r).1.contains(d) {
        lemma_deliveries_members(v.envelopes, v.index, r, d);
    }
    if delivers(v, r, d) {
        let j = choose|j: int| 0 <= j < v.index.len() && (#[trigger] v.index[j]).recipient == r
            && d == (OutputView {
                provenance: v.envelopes[v.index[j].envelope as int].provenance,
                contents: v.envelopes[v.index[j].envelope as int].contents,
                payload: v.index[j].payload,
            });
        lemma_deliveries_contains(v.envelopes, v.index, r, j);
    }
}

/// The pending entries of a well-formed mailbox are listed by their
/// envelopes, and those of `r` deliver exactly what `r`'s fetch would.
pub proof fn lemma_pending(v: MailboxView, r: Seq<u8>, d: OutputView)
    requires
        mailbox_wf(v),
    ensures
        forall|i: int| 0 <= i < pending_spec(v).len() ==>
            lists((#[trigger] pending_spec(v)[i]).0, pending_spec(v)[i].1, pending_spec(v)[i].2),
        delivers(v, r, d) <==> exists|i: int| 0 <= i < pending_spec(v).len() && (#[trigger] pending_spec(v)[i]).1 == r
            && d == (OutputView {
                provenance: pending_spec(v)[i].0.provenance,
                contents: pending_spec(v)[i].0.contents,
                payload: pending_spec(v)[i].2,
            }),
{
    let ps = pending_spec(v);
    assert forall|i: int| 0 <= i < ps.len() implies lists((#[trigger] ps[i]).0, ps[i].1, ps[i].2) by {
        assert(entry_genuine(v, v.index[i]));
        let x = v.index[i];
        let k = choose|k: int| 0 <= k < v.envelopes[x.envelope as int].recipients.len()
            && #[trigger] v.envelopes[x.envelope as int].recipients[k] == (x.recipient, x.payload);
        assert(ps[i].0.recipients[k] == (ps[i].1, ps[i].2));
    }
    if delivers(v, r, d) {
        let j = choose|j: int| 0 <= j < v.index.len() && (#[trigger] v.index[j]).recipient == r
            && d == (OutputView {
                provenance: v.envelopes[v.index[j].envelope as int].provenance,
                contents: v.envelopes[v.index[j].envelope as int].contents,
                payload: v.index[j].payload,
            });
        assert(ps[j].1 == r);
    }
    if exists|i: int| 0 <= i < ps.len() && (#[trigger] ps[i]).1 == r
        && d == (OutputView { provenance: ps[i].0.provenance, contents: ps[i].0.contents, payload: ps[i].2 }) {
        let i = choose|i: int| 0 <= i < ps.len() && (#[trigger] ps[i]).1 == r
            && d == (OutputView { provenance: ps[i].0.provenance, contents: ps[i].0.contents, payload: ps[i].2 });
        assert(v.index[i].recipient == r);
    }
}

/// The undelivered envelopes of a well-formed mailbox are distinct.
pub proof fn lemma_undelivered_distinct(v: MailboxView, n: nat)
    requires
        mailbox_wf(v),
        n <= v.envelopes.len(),
    ensures
        forall|i: int, j: int| 0 <= i < j < undelivered_upto(v, n).len() ==>
            #[trigger] undelivered_upto(v, n)[i] != #[trigger] undelivered_upto(v, n)[j],
    decreases n,
{
    if n > 0 {
        let m = (n - 1) as nat;
        lemma_undelivered_distinct(v, m);
        let u0 = undelivered_upto(v, m);
        let u = undelivered_upto(v, n);
        if referenced(v, m) {
            let e = v.envelopes[m as int];
            assert forall|i: int, j: int| 0 <= i < j < u.len() implies #[trigger] u[i] != #[trigger] u[j] by {
                if j == u.len() - 1 {
                    assert(u0.contains(u[i])) by { assert(u0[i] == u[i]); }
                    lemma_undelivered_upto(v, m, u[i]);
                    let k = choose|k: nat| k < m && referenced(v, k) && #[trigger] v.envelopes[k as int] == u[i];
                    assert(v.envelopes[k as int] != v.envelopes[m as int]);
                } else {
                    assert(u[i] == u0[i] && u[j] == u0[j]);
                }
            }
        }
    }
}

/// The mailbox after `k` fetches by `r` in a row.
pub open spec fn fetched_times(v: MailboxView, r: Seq<u8>, k: nat) -> MailboxView
    decreases k,
{
    if k == 0 {
        v
    } else {
        fetch_spec(fetched_times(v, r, (k - 1) as nat), r).0
    }
}

proof fn lemma_others_none(index: Seq<EntryView>, r: Seq<u8>)
    requires
        forall|k: int| 0 <= k < index.len() ==> (#[trigger] index[k]).recipient != r,
    ensures
        others(index, r) == index,
    decreases index.len(),
{
    if index.len() > 0 {
        let front = index.drop_last();
        assert forall|k: int| 0 <= k < front.len() implies (#[trigger] front[k]).recipient != r by {
            assert(front[k] == index[k]);
        }
        lemma_others_none(front, r);
        assert(front.push(index.last()) =~= index);
    }
}

/// At most once over any number of fetches: of `k` fetches by `r` in a row,
/// only the first can return anything; every state after the first fetch
/// is the same, and a fetch there returns nothing.
pub proof fn lemma_fetches(v: MailboxView, r: Seq<u8>, k: nat)
    requires
        k >= 1,
    ensures
        fetched_times(v, r, k) == fetched_times(v, r, 1),
        fetch_spec(fetched_times(v, r, k), r).1 == Seq::<OutputView>::empty(),
    decreases k,
{
    let once = fetched_times(v, r, 1);
    lemma_others_members(v.index, r);
    assert(fetched_times(v, r, 0) == v);
    assert(once == fetch_spec(v, r).0);
    lemma_others_none(once.index, r);
    lemma_deliveries_none(once.envelopes, once.index, r);
    if k > 1 {
        lemma_fetches(v, r, (k - 1) as nat);
    }
}

/// Carrying again changes nothing: once an entry was carried, carrying it
/// again into the mailbox, after any fetches in between (which keep the
/// envelopes and the history), leaves the mailbox as it is. So a migration
/// repeated after a partial failure indexes nothing twice, and re-delivers
/// nothing a recipient fetched in the meantime.
pub proof fn lemma_carry_again(v: MailboxView, e: EnvelopeView, recipient: Seq<u8>, payload: Seq<u8>, w: MailboxView)
    requires
        w.envelopes == carry_spec(v, e, recipient, payload).envelopes,
        w.history == carry_spec(v, e, recipient, payload).history,
    ensures
        carry_spec(w, e, recipient, payload) == w,
{
    let v1 = if stored(v, e) { v } else { MailboxView { envelopes: v.envelopes.push(e), ..v } };
    if !stored(v, e) {
        assert(v1.envelopes[v.envelopes.len() as int] == e);
    }
    assert(stored(v1, e));
    let x = EntryView { recipient, envelope: position_spec(v1.envelopes, e) as nat, payload };
    let u = carry_spec(v, e, recipient, payload);
    assert(u.envelopes == v1.envelopes);
    if !v1.history.contains(x) {
        assert(u.history[u.history.len() - 1] == x);
    }
    assert(u.history.contains(x));
    let k = choose|k: int| 0 <= k < v1.envelopes.len() && #[trigger] v1.envelopes[k] == e;
    assert(w.envelopes[k] == e);
    assert(stored(w, e));
}

/// Fetching leaves the envelopes and the history as they are.
pub proof fn lemma_fetch_keeps_history(v: MailboxView, r: Seq<u8>)
    ensures
        fetch_spec(v, r).0.envelopes == v.envelopes,
        fetch_spec(v, r).0.history == v.history,
{
}

} // verus!
