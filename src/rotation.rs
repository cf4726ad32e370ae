//! The epoch rotation manager: keeps exactly one enabled partition, the one
//! of the current epoch, and carries the index entries not yet fetched of
//! every other enabled partition into it before retiring that partition.

use vstd::prelude::*;
use crate::bytes::bytes_eq;
use crate::mailbox::{
    MessageOutput, OutputView, Envelope, EnvelopeView, Mailbox, MailboxView, carry_all, deliveries_view, delivers,
    deposit_spec, empty_mailbox, unique_recipients, fetch_spec, lists, mailbox_wf, pending_spec, pending_view, stored, lemma_carry_all,
    lemma_fetch_delivers, lemma_pending,
};

verus! {

/// What the host reports of one partition.
#[derive(Clone, Debug, PartialEq, Eq)]
pub struct PartitionInfo {
    /// The host's number for the partition; each partition has its own.
    pub clone_index: u64,
    /// The name of the partition's epoch.
    pub seed: Vec<u8>,
    /// Whether the partition accepts envelopes.
    pub enabled: bool,
}

pub struct InfoView {
    pub clone_index: nat,
    pub seed: Seq<u8>,
    pub enabled: bool,
}

impl View for PartitionInfo {
    type V = InfoView;

    open spec fn view(&self) -> InfoView {
        InfoView { clone_index: self.clone_index as nat, seed: self.seed@, enabled: self.enabled }
    }
}

pub open spec fn infos_view(is: Seq<PartitionInfo>) -> Seq<InfoView> {
    is.map_values(|i: PartitionInfo| i@)
}

/// One step of a rotation, for the host to perform.
#[derive(Clone, Debug, PartialEq, Eq)]
pub enum RotationStep {
    /// Create an enabled partition for the epoch named `seed`.
    Create { seed: Vec<u8> },
    /// Carry the index entries not yet fetched of partition `from` into the
    /// partition of the current epoch.
    Migrate { from: u64 },
    /// Stop partition `clone_index` from accepting envelopes.
    Disable { clone_index: u64 },
    /// Delete partition `clone_index`.
    Delete { clone_index: u64 },
}

pub enum StepView {
    Create { seed: Seq<u8> },
    Migrate { from: nat },
    Disable { clone_index: nat },
    Delete { clone_index: nat },
}

impl View for RotationStep {
    type V = StepView;

    open spec fn view(&self) -> StepView {
        match self {
            RotationStep::Create { seed } => StepView::Create { seed: seed@ },
            RotationStep::Migrate { from } => StepView::Migrate { from: *from as nat },
            RotationStep::Disable { clone_index } => StepView::Disable { clone_index: *clone_index as nat },
            RotationStep::Delete { clone_index } => StepView::Delete { clone_index: *clone_index as nat },
        }
    }
}

pub open spec fn steps_view(ss: Seq<RotationStep>) -> Seq<StepView> {
    ss.map_values(|s: RotationStep| s@)
}

/// An enabled partition of the epoch named `seed`.
pub open spec fn is_current(i: InfoView, seed: Seq<u8>) -> bool {
    i.enabled && i.seed == seed
}

/// An enabled partition of another epoch: one left behind by an earlier
/// rotation, finished or not.
pub open spec fn is_dangling(i: InfoView, seed: Seq<u8>) -> bool {
    i.enabled && i.seed != seed
}

pub open spec fn has_current(is: Seq<InfoView>, seed: Seq<u8>) -> bool {
    exists|k: int| 0 <= k < is.len() && is_current(#[trigger] is[k], seed)
}

/// Whether partition `k` is to be retired: it is enabled, and it is not
/// the last enabled partition of the epoch named `seed`.
pub open spec fn is_retired(is: Seq<InfoView>, seed: Seq<u8>, k: int) -> bool {
    is[k].enabled && (is[k].seed != seed || last_current_info(is, seed) != Some(k))
}

/// The steps that retire the partitions to be retired among the first `n`,
/// in order: for each, migrate, disable, delete.
pub open spec fn retire_steps(is: Seq<InfoView>, seed: Seq<u8>, n: nat) -> Seq<StepView>
    decreases n,
{
    if n == 0 {
        Seq::empty()
    } else {
        let rest = retire_steps(is, seed, (n - 1) as nat);
        let i = is[n - 1];
        if is_retired(is, seed, n - 1) {
            rest + seq![
                StepView::Migrate { from: i.clone_index },
                StepView::Disable { clone_index: i.clone_index },
                StepView::Delete { clone_index: i.clone_index },
            ]
        } else {
            rest
        }
    }
}

/// The rotation to the epoch named `seed`: create its partition unless an
/// enabled one exists, then retire every other enabled partition, of an
/// earlier epoch or a second one of this epoch.
pub open spec fn plan_spec(is: Seq<InfoView>, seed: Seq<u8>) -> Seq<StepView> {
    if has_current(is, seed) {
        retire_steps(is, seed, is.len())
    } else {
        seq![StepView::Create { seed }] + retire_steps(is, seed, is.len())
    }
}

fn copy_info(i: &PartitionInfo) -> (r: PartitionInfo)
    ensures
        r@ == i@,
{
    PartitionInfo { clone_index: i.clone_index, seed: i.seed.clone(), enabled: i.enabled }
}

/// The steps that rotate the partitions `infos` to the epoch named `seed`.
/// With an enabled partition for `seed` and no other enabled partition, there
/// is nothing to do.
pub fn plan_rotation(infos: &Vec<PartitionInfo>, seed: &Vec<u8>) -> (r: Vec<RotationStep>)
    ensures
        steps_view(r@) == plan_spec(infos_view(infos@), seed@),
{
    let ghost is = infos_view(infos@);
    let t = last_current_position(infos, seed);
    proof { lemma_last_current_info(is, seed@); }
    let mut steps: Vec<RotationStep> = Vec::new();
    let mut k: usize = 0;
    while k < infos.len()
        invariant
            k <= infos.len(),
            is == infos_view(infos@),
            match t { Some(p) => last_current_info(is, seed@) == Some(p as int), None => last_current_info(is, seed@) is None },
            steps_view(steps@) == retire_steps(is, seed@, k as nat),
        decreases infos.len() - k,
    {
        let i = &infos[k];
        let same = bytes_eq(&i.seed, seed);
        let kept = match t {
            Some(p) => p == k,
            None => false,
        };
        if i.enabled && (!same || !kept) {
            assert(is_retired(is, seed@, k as int));
            let ghost s0 = steps_view(steps@);
            steps.push(RotationStep::Migrate { from: i.clone_index });
            steps.push(RotationStep::Disable { clone_index: i.clone_index });
            steps.push(RotationStep::Delete { clone_index: i.clone_index });
            assert(steps_view(steps@) =~= s0 + seq![
                StepView::Migrate { from: i.clone_index as nat },
                StepView::Disable { clone_index: i.clone_index as nat },
                StepView::Delete { clone_index: i.clone_index as nat },
            ]);
        } else {
            assert(!is_retired(is, seed@, k as int));
        }
        k = k + 1;
    }
    if t.is_some() {
        steps
    } else {
        let mut r: Vec<RotationStep> = Vec::new();
        r.push(RotationStep::Create { seed: seed.clone() });
        let ghost s0 = steps_view(steps@);
        r.append(&mut steps);
        assert(steps_view(r@) =~= seq![StepView::Create { seed: seed@ }] + s0);
        r
    }
}

/// The position of the last enabled partition of the epoch named `seed`.
pub open spec fn last_current_info(is: Seq<InfoView>, seed: Seq<u8>) -> Option<int>
    decreases is.len(),
{
    if is.len() == 0 {
        None
    } else if is_current(is.last(), seed) {
        Some(is.len() - 1)
    } else {
        last_current_info(is.drop_last(), seed)
    }
}

fn last_current_position(infos: &Vec<PartitionInfo>, seed: &Vec<u8>) -> (r: Option<usize>)
    ensures
        match r {
            Some(t) => last_current_info(infos_view(infos@), seed@) == Some(t as int),
            None => last_current_info(infos_view(infos@), seed@) is None,
        },
{
    let ghost is = infos_view(infos@);
    let mut i: usize = infos.len();
    assert(is.take(i as int) =~= is);
    while i > 0
        invariant
            i <= is.len(),
            is == infos_view(infos@),
            last_current_info(is, seed@) == last_current_info(is.take(i as int), seed@),
        decreases i,
    {
        let j = i - 1;
        assert(is.take(i as int).drop_last() =~= is.take(j as int));
        assert(is.take(i as int).last() == is[j as int]);
        if infos[j].enabled && bytes_eq(&infos[j].seed, seed) {
            return Some(j);
        }
        i = j;
    }
    None
}

/// The number of the partition that takes new envelopes for the epoch
/// named `seed`: the last enabled one of that epoch, if any.
pub fn current_partition(infos: &Vec<PartitionInfo>, seed: &Vec<u8>) -> (r: Option<u64>)
    ensures
        match last_current_info(infos_view(infos@), seed@) {
            Some(t) => r == Some(infos@[t].clone_index),
            None => r is None,
        },
{
    proof { lemma_last_current_info(infos_view(infos@), seed@); }
    match last_current_position(infos, seed) {
        Some(t) => Some(infos[t].clone_index),
        None => None,
    }
}

proof fn lemma_last_current_info(is: Seq<InfoView>, seed: Seq<u8>)
    ensures
        last_current_info(is, seed) is Some <==> has_current(is, seed),
        last_current_info(is, seed) is Some ==> {
            let t = last_current_info(is, seed).unwrap();
            0 <= t < is.len() && is_current(is[t], seed)
        },
    decreases is.len(),
{
    if is.len() > 0 {
        let front = is.drop_last();
        lemma_last_current_info(front, seed);
        if has_current(front, seed) {
            let k = choose|k: int| 0 <= k < front.len() && is_current(#[trigger] front[k], seed);
            assert(is[k] == front[k]);
        }
        if has_current(is, seed) && !is_current(is.last(), seed) {
            let k = choose|k: int| 0 <= k < is.len() && is_current(#[trigger] is[k], seed);
            assert(front[k] == is[k]);
        }
    }
}

proof fn lemma_last_current_parts(ps: Seq<PartitionView>, seed: Seq<u8>)
    ensures
        last_current_info(parts_infos(ps), seed) == last_current(ps, seed),
    decreases ps.len(),
{
    if ps.len() > 0 {
        lemma_last_current_parts(ps.drop_last(), seed);
        assert(parts_infos(ps).drop_last() =~= parts_infos(ps.drop_last()));
        assert(parts_infos(ps).last() == info_of(ps.last()));
    }
}

proof fn lemma_no_retired(is: Seq<InfoView>, seed: Seq<u8>, n: nat)
    requires
        n <= is.len(),
        forall|k: int| 0 <= k < is.len() ==> !is_retired(is, seed, k),
    ensures
        retire_steps(is, seed, n) == Seq::<StepView>::empty(),
    decreases n,
{
    if n > 0 {
        lemma_no_retired(is, seed, (n - 1) as nat);
        assert(!is_retired(is, seed, n - 1));
    }
}

/// One partition of the mailbox, with its store.
pub struct Partition {
    pub clone_index: u64,
    pub seed: Vec<u8>,
    pub enabled: bool,
    pub mailbox: Mailbox,
}

pub struct PartitionView {
    pub clone_index: nat,
    pub seed: Seq<u8>,
    pub enabled: bool,
    pub mailbox: MailboxView,
}

impl View for Partition {
    type V = PartitionView;

    open spec fn view(&self) -> PartitionView {
        PartitionView { clone_index: self.clone_index as nat, seed: self.seed@, enabled: self.enabled, mailbox: self.mailbox@ }
    }
}

pub open spec fn info_of(p: PartitionView) -> InfoView {
    InfoView { clone_index: p.clone_index, seed: p.seed, enabled: p.enabled }
}

pub open spec fn parts_view(ps: Seq<Partition>) -> Seq<PartitionView> {
    ps.map_values(|p: Partition| p@)
}

pub open spec fn parts_infos(ps: Seq<PartitionView>) -> Seq<InfoView> {
    ps.map_values(|p: PartitionView| info_of(p))
}

/// The last enabled partition of the epoch named `seed`, if any.
pub open spec fn last_current(ps: Seq<PartitionView>, seed: Seq<u8>) -> Option<int>
    decreases ps.len(),
{
    if ps.len() == 0 {
        None
    } else if is_current(info_of(ps.last()), seed) {
        Some(ps.len() - 1)
    } else {
        last_current(ps.drop_last(), seed)
    }
}

/// The index entries not yet fetched of the dangling partitions among the
/// first `n`, partition after partition.
pub open spec fn gather(ps: Seq<PartitionView>, seed: Seq<u8>, n: nat) -> Seq<(EnvelopeView, Seq<u8>, Seq<u8>)>
    decreases n,
{
    if n == 0 {
        Seq::empty()
    } else if is_dangling(info_of(ps[n - 1]), seed) {
        gather(ps, seed, (n - 1) as nat) + pending_spec(ps[n - 1].mailbox)
    } else {
        gather(ps, seed, (n - 1) as nat)
    }
}

/// Every entry of `ts` is listed by its envelope.
pub open spec fn all_listed(ts: Seq<(EnvelopeView, Seq<u8>, Seq<u8>)>) -> bool {
    forall|i: int| 0 <= i < ts.len() ==> lists((#[trigger] ts[i]).0, ts[i].1, ts[i].2)
}

/// The partitions that are not dangling.
pub open spec fn keep(ps: Seq<PartitionView>, seed: Seq<u8>) -> Seq<PartitionView>
    decreases ps.len(),
{
    if ps.len() == 0 {
        ps
    } else if is_dangling(info_of(ps.last()), seed) {
        keep(ps.drop_last(), seed)
    } else {
        keep(ps.drop_last(), seed).push(ps.last())
    }
}

/// At most one partition is enabled.
pub open spec fn one_active(ps: Seq<PartitionView>) -> bool {
    forall|j: int, k: int| 0 <= j < ps.len() && 0 <= k < ps.len() && (#[trigger] ps[j]).enabled && (#[trigger] ps[k]).enabled ==> j == k
}

/// The partitions are sound and at most one of them accepts envelopes.
pub open spec fn partitions_wf(v: PartitionsView) -> bool {
    partitions_sound(v) && one_active(v.parts)
}

pub struct PartitionsView {
    pub parts: Seq<PartitionView>,
    /// The number the next created partition gets.
    pub next: nat,
}

/// Each partition's store is well formed, the partitions' numbers are
/// distinct, and all are below the next one.
pub open spec fn partitions_sound(v: PartitionsView) -> bool {
    &&& forall|k: int| 0 <= k < v.parts.len() ==> mailbox_wf(#[trigger] v.parts[k].mailbox)
    &&& forall|j: int, k: int| 0 <= j < v.parts.len() && 0 <= k < v.parts.len() && j != k ==>
        (#[trigger] v.parts[j]).clone_index != (#[trigger] v.parts[k]).clone_index
    &&& forall|k: int| 0 <= k < v.parts.len() ==> (#[trigger] v.parts[k]).clone_index < v.next
}

/// `v`, with a new empty partition for the epoch named `seed` appended when
/// it has no enabled partition of that epoch.
pub open spec fn with_current(v: PartitionsView, seed: Seq<u8>) -> PartitionsView {
    if has_current(parts_infos(v.parts), seed) {
        v
    } else {
        PartitionsView {
            parts: v.parts.push(PartitionView { clone_index: v.next, seed, enabled: true, mailbox: empty_mailbox() }),
            next: v.next + 1,
        }
    }
}

/// A rotation to the epoch named `seed`: its partition is created when
/// missing; the index entries not yet fetched of every dangling partition are
/// carried into it, in order; then the dangling partitions are retired.
pub open spec fn rotate_spec(v: PartitionsView, seed: Seq<u8>) -> PartitionsView {
    let w = with_current(v, seed);
    let ps = w.parts;
    let t = last_current(ps, seed).unwrap();
    let target = PartitionView { mailbox: carry_all(ps[t].mailbox, gather(ps, seed, ps.len())), ..ps[t] };
    PartitionsView { parts: keep(ps.update(t, target), seed), next: w.next }
}

/// The partitions held by one storage provider.
pub struct Partitions {
    parts: Vec<Partition>,
    next_clone_index: u64,
}

impl View for Partitions {
    type V = PartitionsView;

    closed spec fn view(&self) -> PartitionsView {
        PartitionsView { parts: parts_view(self.parts@), next: self.next_clone_index as nat }
    }
}

proof fn lemma_last_current(ps: Seq<PartitionView>, seed: Seq<u8>)
    ensures
        last_current(ps, seed) is Some <==> has_current(parts_infos(ps), seed),
        last_current(ps, seed) is Some ==> {
            let t = last_current(ps, seed).unwrap();
            0 <= t < ps.len() && is_current(info_of(ps[t]), seed)
        },
    decreases ps.len(),
{
    if ps.len() > 0 {
        let front = ps.drop_last();
        lemma_last_current(front, seed);
        let is = parts_infos(ps);
        let is0 = parts_infos(front);
        if has_current(is0, seed) {
            let k = choose|k: int| 0 <= k < is0.len() && is_current(#[trigger] is0[k], seed);
            assert(is[k] == is0[k]);
        }
        if has_current(is, seed) && !is_current(info_of(ps.last()), seed) {
            let k = choose|k: int| 0 <= k < is.len() && is_current(#[trigger] is[k], seed);
            assert(k != ps.len() - 1);
            assert(is0[k] == is[k]);
        }
        if is_current(info_of(ps.last()), seed) {
            assert(is[ps.len() - 1] == info_of(ps.last()));
        }
    } else {
        assert(!has_current(parts_infos(ps), seed));
    }
}

impl Partitions {
    /// The invariant of the partitions.
    pub open spec fn wf(&self) -> bool {
        partitions_wf(self@)
    }

    /// No partitions.
    pub fn new() -> (r: Partitions)
        ensures
            r.wf(),
            r@.parts.len() == 0,
            r@.next == 0,
    {
        Partitions { parts: Vec::new(), next_clone_index: 0 }
    }

    /// What the host would report of each partition.
    pub fn infos(&self) -> (r: Vec<PartitionInfo>)
        ensures
            infos_view(r@) == parts_infos(self@.parts),
    {
        let mut r: Vec<PartitionInfo> = Vec::new();
        let mut k: usize = 0;
        while k < self.parts.len()
            invariant
                k <= self.parts@.len(),
                infos_view(r@) == parts_infos(self@.parts).take(k as int),
            decreases self.parts@.len() - k,
        {
            let p = &self.parts[k];
            let ghost r0 = infos_view(r@);
            r.push(PartitionInfo { clone_index: p.clone_index, seed: p.seed.clone(), enabled: p.enabled });
            assert(infos_view(r@) =~= r0.push(parts_infos(self@.parts)[k as int]));
            assert(parts_infos(self@.parts).take(k + 1) =~= parts_infos(self@.parts).take(k as int).push(parts_infos(self@.parts)[k as int]));
            k = k + 1;
        }
        assert(parts_infos(self@.parts).take(k as int) =~= parts_infos(self@.parts));
        r
    }

    fn current_position(&self, seed: &Vec<u8>) -> (r: Option<usize>)
        ensures
            match r {
                Some(t) => last_current(self@.parts, seed@) == Some(t as int),
                None => last_current(self@.parts, seed@) is None,
            },
    {
        let ghost ps = self@.parts;
        let mut i: usize = self.parts.len();
        assert(ps.take(i as int) =~= ps);
        while i > 0
            invariant
                i <= ps.len(),
                ps == self@.parts,
                ps.len() == self.parts@.len(),
                last_current(ps, seed@) == last_current(ps.take(i as int), seed@),
            decreases i,
        {
            let j = i - 1;
            assert(ps.take(i as int).drop_last() =~= ps.take(j as int));
            assert(ps.take(i as int).last() == ps[j as int]);
            let p = &self.parts[j];
            if p.enabled && bytes_eq(&p.seed, seed) {
                return Some(j);
            }
            i = j;
        }
        None
    }

    /// The store of partition `clone_index`, if it exists.
    pub fn mailbox_of(&self, clone_index: u64) -> (r: Option<&Mailbox>)
        ensures
            match r {
                Some(m) => exists|k: int| 0 <= k < self@.parts.len() && #[trigger] self@.parts[k].clone_index == clone_index
                    && self@.parts[k].mailbox == m@,
                None => forall|k: int| 0 <= k < self@.parts.len() ==> (#[trigger] self@.parts[k]).clone_index != clone_index,
            },
    {
        let mut k: usize = 0;
        while k < self.parts.len()
            invariant
                k <= self.parts@.len(),
                forall|j: int| 0 <= j < k ==> (#[trigger] self@.parts[j]).clone_index != clone_index,
            decreases self.parts@.len() - k,
        {
            if self.parts[k].clone_index == clone_index {
                assert(self@.parts[k as int].clone_index == clone_index);
                return Some(&self.parts[k].mailbox);
            }
            k = k + 1;
        }
        None
    }

    /// Deposits `e` into the enabled partition of the epoch named `seed`.
    /// Returns `None` when there is no such partition, and otherwise whether
    /// the envelope was new there.
    pub fn deposit(&mut self, seed: &Vec<u8>, e: Envelope) -> (r: Option<bool>)
        requires
            old(self).wf(),
            unique_recipients(e@),
        ensures
            final(self).wf(),
            match last_current(old(self)@.parts, seed@) {
                None => r is None && final(self)@ == old(self)@,
                Some(t) => {
                    let p = old(self)@.parts[t];
                    &&& r == Some(!stored(p.mailbox, e@))
                    &&& final(self)@ == PartitionsView {
                        parts: old(self)@.parts.update(t, PartitionView { mailbox: deposit_spec(p.mailbox, e@), ..p }),
                        next: old(self)@.next,
                    }
                },
            },
    {
        proof { lemma_last_current(self@.parts, seed@); }
        match self.current_position(seed) {
            None => None,
            Some(t) => {
                let ghost v0 = self@;
                let mut p = self.parts.remove(t);
                assert(mailbox_wf(v0.parts[t as int].mailbox));
                let fresh = p.mailbox.deposit(e);
                let ghost pv = p@;
                self.parts.insert(t, p);
                assert(self@.parts =~= v0.parts.update(t as int, pv));
                proof { lemma_update_wf(v0, t as int, pv); }
                Some(fresh)
            },
        }
    }

    /// Fetches and clears the envelopes of `r` in the enabled partition of
    /// the epoch named `seed`; `None` when there is no such partition.
    pub fn fetch_and_clear(&mut self, seed: &Vec<u8>, r: &Vec<u8>) -> (out: Option<Vec<MessageOutput>>)
        requires
            old(self).wf(),
        ensures
            final(self).wf(),
            match last_current(old(self)@.parts, seed@) {
                None => out is None && final(self)@ == old(self)@,
                Some(t) => {
                    let p = old(self)@.parts[t];
                    &&& out is Some && deliveries_view(out.unwrap()@) == fetch_spec(p.mailbox, r@).1
                    &&& final(self)@ == PartitionsView {
                        parts: old(self)@.parts.update(t, PartitionView { mailbox: fetch_spec(p.mailbox, r@).0, ..p }),
                        next: old(self)@.next,
                    }
                },
            },
    {
        proof { lemma_last_current(self@.parts, seed@); }
        match self.current_position(seed) {
            None => None,
            Some(t) => {
                let ghost v0 = self@;
                let mut p = self.parts.remove(t);
                assert(mailbox_wf(v0.parts[t as int].mailbox));
                let got = p.mailbox.fetch_and_clear(r);
                let ghost pv = p@;
                self.parts.insert(t, p);
                assert(self@.parts =~= v0.parts.update(t as int, pv));
                proof { lemma_update_wf(v0, t as int, pv); }
                Some(got)
            },
        }
    }

    /// Rotates to the epoch named `seed`: creates its partition when there
    /// is no enabled one, carries the index entries not yet fetched of every other
    /// enabled partition into it, and retires those partitions.
    pub fn rotate(&mut self, seed: &Vec<u8>)
        requires
            old(self).wf(),
            old(self)@.next < u64::MAX,
        ensures
            final(self).wf(),
            final(self)@ == rotate_spec(old(self)@, seed@),
    {
        let ghost v0 = self@;
        proof { lemma_last_current(self@.parts, seed@); }
        if self.current_position(seed).is_none() {
            let ghost ps0 = self@.parts;
            self.parts.push(Partition {
                clone_index: self.next_clone_index,
                seed: seed.clone(),
                enabled: true,
                mailbox: Mailbox::new(),
            });
            self.next_clone_index = self.next_clone_index + 1;
            assert(self@.parts =~= ps0.push(PartitionView { clone_index: v0.next, seed: seed@, enabled: true, mailbox: empty_mailbox() }));
            proof { lemma_push_wf(v0, seed@); }
        }
        let ghost w = self@;
        assert(w == with_current(v0, seed@));
        proof { lemma_last_current(w.parts, seed@); }
        let t = self.current_position(seed).unwrap();
        let ghost ps = w.parts;

        let mut migrated: Vec<(Envelope, Vec<u8>, Vec<u8>)> = Vec::new();
        let mut k: usize = 0;
        while k < self.parts.len()
            invariant
                k <= self.parts@.len(),
                self@ == w,
                ps == w.parts,
                partitions_sound(w),
                pending_view(migrated@) == gather(ps, seed@, k as nat),
                all_listed(pending_view(migrated@)),
            decreases self.parts@.len() - k,
        {
            let p = &self.parts[k];
            if p.enabled && !bytes_eq(&p.seed, seed) {
                assert(mailbox_wf(ps[k as int].mailbox));
                let mut u = p.mailbox.export_pending();
                let ghost m0 = pending_view(migrated@);
                let ghost u0 = pending_view(u@);
                proof { lemma_pending(ps[k as int].mailbox, Seq::empty(), arbitrary()); }
                migrated.append(&mut u);
                assert(pending_view(migrated@) =~= m0 + u0);
                assert forall|i: int| 0 <= i < (m0 + u0).len() implies
                    lists((#[trigger] (m0 + u0)[i]).0, (m0 + u0)[i].1, (m0 + u0)[i].2) by {
                    if i >= m0.len() {
                        assert((m0 + u0)[i] == u0[i - m0.len()]);
                    }
                }
            }
            k = k + 1;
        }

        assert(pending_view(migrated@) == gather(ps, seed@, ps.len()));
        let mut target = self.parts.remove(t);
        let ghost m_all = pending_view(migrated@);
        let ghost tm = target.mailbox@;
        assert(tm == ps[t as int].mailbox);
        assert(mailbox_wf(ps[t as int].mailbox));
        let mut i: usize = 0;
        while i < migrated.len()
            invariant
                i <= migrated@.len(),
                t < ps.len(),
                m_all == pending_view(migrated@),
                all_listed(m_all),
                target.mailbox.wf(),
                target.mailbox@ == carry_all(tm, m_all.take(i as int)),
                target.clone_index == ps[t as int].clone_index,
                target.seed@ == ps[t as int].seed,
                target.enabled == ps[t as int].enabled,
            decreases migrated@.len() - i,
        {
            assert(m_all.take(i + 1).drop_last() =~= m_all.take(i as int));
            assert(lists(m_all[i as int].0, m_all[i as int].1, m_all[i as int].2));
            let item = &migrated[i];
            target.mailbox.carry(&item.0, &item.1, &item.2);
            i = i + 1;
        }
        assert(m_all.take(i as int) =~= m_all);
        let ghost tv = target@;
        self.parts.insert(t, target);
        let ghost ps2 = ps.update(t as int, tv);
        assert(tv == PartitionView { mailbox: carry_all(ps[t as int].mailbox, gather(ps, seed@, ps.len())), ..ps[t as int] });
        assert(self@.parts =~= ps2);
        proof { lemma_update_wf(w, t as int, tv); }

        let mut rest: Vec<Partition> = Vec::new();
        std::mem::swap(&mut rest, &mut self.parts);
        assert(parts_view(rest@) == ps2);
        let ghost n = ps2.len();
        let mut j: usize = 0;
        while rest.len() > 0
            invariant
                j <= n,
                n == ps2.len(),
                n <= usize::MAX,
                self.next_clone_index == w.next,
                parts_view(rest@) == ps2.skip(j as int),
                parts_view(self.parts@) == keep(ps2.take(j as int), seed@),
            decreases rest@.len(),
        {
            assert(parts_view(rest@).len() == rest@.len());
            assert(j < n);
            assert(ps2.take(j + 1).drop_last() =~= ps2.take(j as int));
            assert(ps2.take(j + 1).last() == ps2[j as int]);
            let ghost r0 = parts_view(rest@);
            let p = rest.remove(0);
            assert(r0[0] == ps2[j as int]);
            assert(p@ == ps2[j as int]);
            assert(ps2.skip(j + 1) =~= ps2.skip(j as int).remove(0));
            if !(p.enabled && !bytes_eq(&p.seed, seed)) {
                let ghost k0 = parts_view(self.parts@);
                let ghost pv = p@;
                self.parts.push(p);
                assert(parts_view(self.parts@) =~= k0.push(pv));
            }
            j = j + 1;
        }
        assert(ps2.take(j as int) =~= ps2);
        proof {
            lemma_keep_wf(PartitionsView { parts: ps2, next: w.next }, seed@);
            lemma_rotate_one_active(v0, seed@);
        }
    }
}

proof fn lemma_update_wf(v: PartitionsView, t: int, p: PartitionView)
    requires
        partitions_sound(v),
        0 <= t < v.parts.len(),
        p.clone_index == v.parts[t].clone_index,
        mailbox_wf(p.mailbox),
        p.enabled == v.parts[t].enabled,
    ensures
        partitions_sound(PartitionsView { parts: v.parts.update(t, p), next: v.next }),
        one_active(v.parts) ==> one_active(v.parts.update(t, p)),
{
    let us = v.parts.update(t, p);
    assert forall|j: int, k: int| 0 <= j < us.len() && 0 <= k < us.len() && (#[trigger] us[j]).enabled && (#[trigger] us[k]).enabled
        && one_active(v.parts) implies j == k by {
        assert(v.parts[j].enabled && v.parts[k].enabled);
    }
    let ps = v.parts.update(t, p);
    assert forall|j: int, k: int| 0 <= j < ps.len() && 0 <= k < ps.len() && j != k implies
        (#[trigger] ps[j]).clone_index != (#[trigger] ps[k]).clone_index by {
        assert(v.parts[j].clone_index != v.parts[k].clone_index);
    }
    assert forall|k: int| 0 <= k < ps.len() implies (#[trigger] ps[k]).clone_index < v.next by {
        assert(v.parts[k].clone_index < v.next);
    }
    assert forall|k: int| 0 <= k < ps.len() implies mailbox_wf(#[trigger] ps[k].mailbox) by {
        if k != t {
            assert(mailbox_wf(v.parts[k].mailbox));
        }
    }
}

proof fn lemma_push_wf(v: PartitionsView, seed: Seq<u8>)
    requires
        partitions_sound(v),
    ensures
        partitions_sound(PartitionsView {
            parts: v.parts.push(PartitionView { clone_index: v.next, seed, enabled: true, mailbox: empty_mailbox() }),
            next: v.next + 1,
        }),
{
    let np = PartitionView { clone_index: v.next, seed, enabled: true, mailbox: empty_mailbox() };
    let ps = v.parts.push(np);
    assert forall|j: int, k: int| 0 <= j < ps.len() && 0 <= k < ps.len() && j != k implies
        (#[trigger] ps[j]).clone_index != (#[trigger] ps[k]).clone_index by {
        if j < v.parts.len() && k < v.parts.len() {
            assert(v.parts[j].clone_index != v.parts[k].clone_index);
        } else if j < v.parts.len() {
            assert(v.parts[j].clone_index < v.next);
        } else {
            assert(v.parts[k].clone_index < v.next);
        }
    }
    assert forall|k: int| 0 <= k < ps.len() implies (#[trigger] ps[k]).clone_index < v.next + 1 by {
        if k < v.parts.len() {
            assert(v.parts[k].clone_index < v.next);
        }
    }
    assert forall|k: int| 0 <= k < ps.len() implies mailbox_wf(#[trigger] ps[k].mailbox) by {
        if k < v.parts.len() {
            assert(mailbox_wf(v.parts[k].mailbox));
        }
    }
}

/// After a rotation exactly one partition is enabled: the one of the
/// rotation's epoch.
proof fn lemma_rotate_one_active(v: PartitionsView, seed: Seq<u8>)
    requires
        partitions_wf(v),
    ensures
        one_active(rotate_spec(v, seed).parts),
{
    let w = with_current(v, seed);
    let ps = w.parts;
    lemma_last_current(v.parts, seed);
    if !has_current(parts_infos(v.parts), seed) {
        let n = v.parts.len() as int;
        assert(parts_infos(ps)[n] == info_of(ps[n]));
        assert(is_current(parts_infos(ps)[n], seed));
    }
    lemma_last_current(ps, seed);
    let t = last_current(ps, seed).unwrap();
    let target = PartitionView { mailbox: carry_all(ps[t].mailbox, gather(ps, seed, ps.len())), ..ps[t] };
    let ps2 = ps.update(t, target);
    let kk = keep(ps2, seed);
    lemma_keep(ps2, seed);
    let f = choose|f: spec_fn(int) -> int| #[trigger] keep_embeds(ps2, kk, f);
    assert forall|a: int, b: int| 0 <= a < kk.len() && 0 <= b < kk.len() && (#[trigger] kk[a]).enabled && (#[trigger] kk[b]).enabled
        implies a == b by {
        if a != b {
            if a < b {
                assert(f(a) < f(b));
            } else {
                assert(f(b) < f(a));
            }
            assert(!is_dangling(info_of(kk[a]), seed));
            assert(!is_dangling(info_of(kk[b]), seed));
            let fa = f(a);
            let fb = f(b);
            assert(ps2[fa].enabled && ps2[fb].enabled);
            assert(ps[fa].enabled && ps[fb].enabled);
            if !has_current(parts_infos(v.parts), seed) {
                let n = v.parts.len() as int;
                if fa < n {
                    assert(parts_infos(v.parts)[fa] == info_of(v.parts[fa]));
                    assert(ps[fa] == v.parts[fa]);
                } else if fb < n {
                    assert(parts_infos(v.parts)[fb] == info_of(v.parts[fb]));
                    assert(ps[fb] == v.parts[fb]);
                }
            }
        }
    }
}

/// What `keep` retains: elements of `ps` in their order, none dangling, and
/// every element that is not dangling.
pub proof fn lemma_keep(ps: Seq<PartitionView>, seed: Seq<u8>)
    ensures
        exists|f: spec_fn(int) -> int| #[trigger] keep_embeds(ps, keep(ps, seed), f),
        forall|k: int| 0 <= k < keep(ps, seed).len() ==> !is_dangling(info_of(#[trigger] keep(ps, seed)[k]), seed),
        forall|j: int| 0 <= j < ps.len() && !is_dangling(info_of(#[trigger] ps[j]), seed) ==> keep(ps, seed).contains(ps[j]),
    decreases ps.len(),
{
    if ps.len() > 0 {
        let front = ps.drop_last();
        lemma_keep(front, seed);
        let k0 = keep(front, seed);
        let kk = keep(ps, seed);
        let f0 = choose|f: spec_fn(int) -> int| #[trigger] keep_embeds(front, k0, f);
        if is_dangling(info_of(ps.last()), seed) {
            assert(keep_embeds(ps, kk, f0));
            assert forall|j: int| 0 <= j < ps.len() && !is_dangling(info_of(#[trigger] ps[j]), seed) implies kk.contains(ps[j]) by {
                assert(front[j] == ps[j]);
            }
        } else {
            let f = |k: int| if k < k0.len() { f0(k) } else { ps.len() - 1 };
            assert(keep_embeds(ps, kk, f)) by {
                assert forall|k: int| 0 <= k < kk.len() implies 0 <= #[trigger] f(k) < ps.len() && kk[k] == ps[f(k)] by {
                    if k < k0.len() {
                        assert(kk[k] == k0[k]);
                    }
                }
            }
            assert forall|k: int| 0 <= k < kk.len() implies !is_dangling(info_of(#[trigger] kk[k]), seed) by {
                if k < k0.len() {
                    assert(kk[k] == k0[k]);
                }
            }
            assert forall|j: int| 0 <= j < ps.len() && !is_dangling(info_of(#[trigger] ps[j]), seed) implies kk.contains(ps[j]) by {
                if j < front.len() {
                    assert(front[j] == ps[j]);
                    let k = choose|k: int| 0 <= k < k0.len() && k0[k] == front[j];
                    assert(kk[k] == ps[j]);
                } else {
                    assert(kk[kk.len() - 1] == ps[j]);
                }
            }
        }
    } else {
        assert(keep_embeds(ps, keep(ps, seed), |k: int| k));
    }
}

/// `sub` is `ps` with some elements left out: `f` maps positions of `sub`
/// to strictly increasing positions of `ps` holding the same element.
pub open spec fn keep_embeds(ps: Seq<PartitionView>, sub: Seq<PartitionView>, f: spec_fn(int) -> int) -> bool {
    &&& forall|k: int| 0 <= k < sub.len() ==> 0 <= #[trigger] f(k) < ps.len() && sub[k] == ps[f(k)]
    &&& forall|j: int, k: int| 0 <= j < k < sub.len() ==> #[trigger] f(j) < #[trigger] f(k)
}

proof fn lemma_keep_wf(v: PartitionsView, seed: Seq<u8>)
    requires
        partitions_sound(v),
    ensures
        partitions_sound(PartitionsView { parts: keep(v.parts, seed), next: v.next }),
{
    lemma_keep(v.parts, seed);
    let kk = keep(v.parts, seed);
    let f = choose|f: spec_fn(int) -> int| #[trigger] keep_embeds(v.parts, kk, f);
    assert forall|j: int, k: int| 0 <= j < kk.len() && 0 <= k < kk.len() && j != k implies
        (#[trigger] kk[j]).clone_index != (#[trigger] kk[k]).clone_index by {
        if j < k {
            assert(f(j) < f(k));
        } else {
            assert(f(k) < f(j));
        }
        assert(v.parts[f(j)].clone_index != v.parts[f(k)].clone_index);
    }
    assert forall|k: int| 0 <= k < kk.len() implies (#[trigger] kk[k]).clone_index < v.next by {
        assert(v.parts[f(k)].clone_index < v.next);
    }
    assert forall|k: int| 0 <= k < kk.len() implies mailbox_wf(#[trigger] kk[k].mailbox) by {
        assert(mailbox_wf(v.parts[f(k)].mailbox));
    }
}

proof fn lemma_none_dangling(ps: Seq<PartitionView>, seed: Seq<u8>, n: nat)
    requires
        n <= ps.len(),
        forall|k: int| 0 <= k < ps.len() ==> !is_dangling(info_of(#[trigger] ps[k]), seed),
    ensures
        gather(ps, seed, n) == Seq::<(EnvelopeView, Seq<u8>, Seq<u8>)>::empty(),
        n == ps.len() ==> keep(ps, seed) == ps,
    decreases n,
{
    if n > 0 {
        lemma_none_dangling(ps, seed, (n - 1) as nat);
        assert(!is_dangling(info_of(ps[n - 1]), seed));
        assert(parts_infos(ps)[n - 1] == info_of(ps[n - 1]));
        if n == ps.len() {
            let front = ps.drop_last();
            assert forall|k: int| 0 <= k < front.len() implies !is_dangling(info_of(#[trigger] front[k]), seed) by {
                assert(front[k] == ps[k]);
            }
            lemma_none_dangling(front, seed, front.len());
            assert(front.push(ps.last()) =~= ps);
        }
    }
}

/// Idempotent reconciliation: after a rotation exactly one partition is
/// enabled, the one of the rotation's epoch; a second rotation to the same
/// epoch plans no step and changes nothing.
pub proof fn lemma_rotation_idempotent(v: PartitionsView, seed: Seq<u8>)
    requires
        partitions_wf(v),
    ensures
        one_active(rotate_spec(v, seed).parts),
        exists|q: int| 0 <= q < rotate_spec(v, seed).parts.len() && (#[trigger] rotate_spec(v, seed).parts[q]).enabled
            && rotate_spec(v, seed).parts[q].seed == seed,
        plan_spec(parts_infos(rotate_spec(v, seed).parts), seed) == Seq::<StepView>::empty(),
        rotate_spec(rotate_spec(v, seed), seed) == rotate_spec(v, seed),
{
    let w = with_current(v, seed);
    let ps = w.parts;
    lemma_last_current(v.parts, seed);
    if !has_current(parts_infos(v.parts), seed) {
        let n = v.parts.len() as int;
        assert(parts_infos(ps)[n] == info_of(ps[n]));
        assert(is_current(parts_infos(ps)[n], seed));
    }
    lemma_last_current(ps, seed);
    let t = last_current(ps, seed).unwrap();
    let target = PartitionView { mailbox: carry_all(ps[t].mailbox, gather(ps, seed, ps.len())), ..ps[t] };
    let ps2 = ps.update(t, target);
    let v1 = rotate_spec(v, seed);
    let ps1 = v1.parts;
    assert(ps1 == keep(ps2, seed));
    lemma_keep(ps2, seed);
    assert(ps2[t] == target);
    assert(!is_dangling(info_of(ps2[t]), seed));
    assert(ps1.contains(target));
    let k = choose|k: int| 0 <= k < ps1.len() && ps1[k] == target;
    assert(parts_infos(ps1)[k] == info_of(ps1[k]));
    assert(has_current(parts_infos(ps1), seed));
    lemma_none_dangling(ps1, seed, ps1.len());
    assert(with_current(v1, seed) == v1);
    lemma_last_current(ps1, seed);
    let t1 = last_current(ps1, seed).unwrap();
    let again = PartitionView { mailbox: carry_all(ps1[t1].mailbox, gather(ps1, seed, ps1.len())), ..ps1[t1] };
    assert(again == ps1[t1]);
    assert(ps1.update(t1, again) =~= ps1);
    lemma_rotate_one_active(v, seed);
    assert(ps1[k].enabled && ps1[k].seed == seed);
    let is1 = parts_infos(ps1);
    lemma_last_current_parts(ps1, seed);
    assert forall|j: int| 0 <= j < is1.len() implies !is_retired(is1, seed, j) by {
        assert(is1[j] == info_of(ps1[j]));
        if is1[j].enabled {
            assert(!is_dangling(info_of(ps1[j]), seed));
            assert(ps1[t1].enabled);
            assert(t1 == j);
        }
    }
    lemma_no_retired(is1, seed, is1.len());
}

proof fn lemma_gather_one(ps: Seq<PartitionView>, seed: Seq<u8>, o: int, n: nat)
    requires
        n <= ps.len(),
        0 <= o < ps.len(),
        forall|k: int| 0 <= k < ps.len() && k != o ==> !is_dangling(info_of(#[trigger] ps[k]), seed),
        is_dangling(info_of(ps[o]), seed),
    ensures
        gather(ps, seed, n) == if n > o { pending_spec(ps[o].mailbox) } else { Seq::<(EnvelopeView, Seq<u8>, Seq<u8>)>::empty() },
    decreases n,
{
    if n > 0 {
        lemma_gather_one(ps, seed, o, (n - 1) as nat);
        if n - 1 == o {
            assert(Seq::<(EnvelopeView, Seq<u8>, Seq<u8>)>::empty() + pending_spec(ps[o].mailbox) =~= pending_spec(ps[o].mailbox));
        } else {
            assert(!is_dangling(info_of(ps[n - 1]), seed));
        }
    }
}

/// Migration losslessness: rotate a mailbox whose only enabled partition
/// belongs to an earlier epoch. Afterwards every recipient's fetch from the
/// new partition returns the same deliveries as it would have from the old
/// one (nothing already fetched comes back), and the old partition is gone.
pub proof fn lemma_migration_lossless(v: PartitionsView, seed: Seq<u8>, o: int, r: Seq<u8>, d: OutputView)
    requires
        partitions_wf(v),
        !has_current(parts_infos(v.parts), seed),
        0 <= o < v.parts.len(),
        v.parts[o].enabled,
        forall|k: int| 0 <= k < v.parts.len() && k != o ==> !(#[trigger] v.parts[k]).enabled,
    ensures
        ({
            let w = rotate_spec(v, seed);
            &&& last_current(w.parts, seed) is Some
            &&& fetch_spec(w.parts[last_current(w.parts, seed).unwrap()].mailbox, r).1.contains(d)
                <==> fetch_spec(v.parts[o].mailbox, r).1.contains(d)
            &&& forall|k: int| 0 <= k < w.parts.len() ==> (#[trigger] w.parts[k]).clone_index != v.parts[o].clone_index
        }),
{
    let n = v.parts.len() as int;
    let np = PartitionView { clone_index: v.next, seed, enabled: true, mailbox: empty_mailbox() };
    assert(parts_infos(v.parts)[o] == info_of(v.parts[o]));
    assert(v.parts[o].seed != seed);
    let ps = v.parts.push(np);
    assert(with_current(v, seed).parts == ps);
    assert(ps.drop_last() =~= v.parts);
    assert(last_current(ps, seed) == Some(n));
    assert forall|k: int| 0 <= k < ps.len() && k != o implies !is_dangling(info_of(#[trigger] ps[k]), seed) by {
        if k < n {
            assert(ps[k] == v.parts[k]);
        }
    }
    lemma_gather_one(ps, seed, o, ps.len());
    let old_box = v.parts[o].mailbox;
    let pend = pending_spec(old_box);
    let target = PartitionView { mailbox: carry_all(empty_mailbox(), pend), ..np };
    let ps2 = ps.update(n, target);
    assert(ps2.drop_last() =~= v.parts);
    assert(ps2.last() == target);
    let w = rotate_spec(v, seed);
    assert(w.parts == keep(v.parts, seed).push(target));
    assert(w.parts.drop_last() =~= keep(v.parts, seed));
    assert(last_current(w.parts, seed) == Some(w.parts.len() - 1));
    assert(mailbox_wf(old_box));
    assert(mailbox_wf(empty_mailbox()));
    lemma_pending(old_box, r, d);
    lemma_carry_all(empty_mailbox(), pend, r, d);
    assert(!delivers(empty_mailbox(), r, d));
    lemma_fetch_delivers(target.mailbox, r, d);
    lemma_fetch_delivers(old_box, r, d);
    lemma_keep(v.parts, seed);
    let kk = keep(v.parts, seed);
    let f = choose|f: spec_fn(int) -> int| #[trigger] keep_embeds(v.parts, kk, f);
    assert forall|k: int| 0 <= k < w.parts.len() implies (#[trigger] w.parts[k]).clone_index != v.parts[o].clone_index by {
        if k < kk.len() {
            assert(w.parts[k] == kk[k]);
            assert(kk[k] == v.parts[f(k)]);
            assert(!is_dangling(info_of(kk[k]), seed));
            assert(f(k) != o);
        } else {
            assert(v.parts[o].clone_index < v.next);
        }
    }
}

} // verus!
