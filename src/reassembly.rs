//! Reassembly of chunked messages: chunks are buffered per message and
//! sender until every index of the message is present.

use vstd::prelude::*;
use crate::bytes::bytes_eq;
use crate::chunk::{Chunk, ChunkView};

verus! {

/// Whether `c` belongs to message `message_id` from `provenance`.
pub open spec fn of_message(c: ChunkView, message_id: Seq<u8>, provenance: Seq<u8>) -> bool {
    c.message_id == message_id && c.provenance == provenance
}

/// The last buffered position of chunk `index` of a message, if any.
pub open spec fn find_piece(s: Seq<ChunkView>, message_id: Seq<u8>, provenance: Seq<u8>, index: nat) -> Option<int>
    decreases s.len(),
{
    if s.len() == 0 {
        None
    } else if of_message(s.last(), message_id, provenance) && s.last().index == index {
        Some(s.len() - 1)
    } else {
        find_piece(s.drop_last(), message_id, provenance, index)
    }
}

/// The number of buffered chunks of a message with chunk index `index`.
pub open spec fn count_index(s: Seq<ChunkView>, message_id: Seq<u8>, provenance: Seq<u8>, index: nat) -> nat
    decreases s.len(),
{
    if s.len() == 0 {
        0
    } else {
        count_index(s.drop_last(), message_id, provenance, index)
            + if of_message(s.last(), message_id, provenance) && s.last().index == index { 1nat } else { 0nat }
    }
}

/// Whether the buffered chunks of a message, sorted by index, are exactly
/// the chunks `0..total`: each index below `total` once, and no other.
pub open spec fn complete(s: Seq<ChunkView>, message_id: Seq<u8>, provenance: Seq<u8>, total: nat) -> bool {
    &&& total > 0
    &&& forall|i: nat| i < total ==> #[trigger] count_index(s, message_id, provenance, i) == 1
    &&& forall|k: int| 0 <= k < s.len() && of_message(#[trigger] s[k], message_id, provenance) ==> s[k].index < total
}

/// The contents of chunks `0..n` of a message, concatenated in index order.
pub open spec fn assembled(s: Seq<ChunkView>, message_id: Seq<u8>, provenance: Seq<u8>, n: nat) -> Seq<u8>
    decreases n,
{
    if n == 0 {
        Seq::empty()
    } else {
        assembled(s, message_id, provenance, (n - 1) as nat)
            + s[find_piece(s, message_id, provenance, (n - 1) as nat).unwrap()].contents
    }
}

/// `s` without the chunks of one message.
pub open spec fn without_message(s: Seq<ChunkView>, message_id: Seq<u8>, provenance: Seq<u8>) -> Seq<ChunkView>
    decreases s.len(),
{
    if s.len() == 0 {
        s
    } else if of_message(s.last(), message_id, provenance) {
        without_message(s.drop_last(), message_id, provenance)
    } else {
        without_message(s.drop_last(), message_id, provenance).push(s.last())
    }
}

/// The buffer after a check of message `message_id` from `provenance`
/// against `total` chunks, and the message, if the check finds it complete:
/// then its chunks leave the buffer.
pub open spec fn release_spec(s: Seq<ChunkView>, message_id: Seq<u8>, provenance: Seq<u8>, total: nat) -> (Seq<ChunkView>, Option<Seq<u8>>) {
    if complete(s, message_id, provenance, total) {
        (without_message(s, message_id, provenance), Some(assembled(s, message_id, provenance, total)))
    } else {
        (s, None)
    }
}

/// The chunks waiting for the rest of their message.
pub struct ChunkBuffer {
    chunks: Vec<Chunk>,
}

pub open spec fn chunks_view(cs: Seq<Chunk>) -> Seq<ChunkView> {
    cs.map_values(|c: Chunk| c@)
}

impl View for ChunkBuffer {
    type V = Seq<ChunkView>;

    closed spec fn view(&self) -> Seq<ChunkView> {
        chunks_view(self.chunks@)
    }
}

pub(crate) fn same_message(c: &Chunk, message_id: &Vec<u8>, provenance: &Vec<u8>) -> (r: bool)
    ensures
        r == of_message(c@, message_id@, provenance@),
{
    bytes_eq(&c.message_id, message_id) && bytes_eq(&c.provenance, provenance)
}

impl ChunkBuffer {
    /// An empty buffer.
    pub fn new() -> (r: ChunkBuffer)
        ensures
            r@ == Seq::<ChunkView>::empty(),
    {
        ChunkBuffer { chunks: Vec::new() }
    }

    /// A buffer holding `chunks`, in arrival order.
    pub fn from_chunks(chunks: Vec<Chunk>) -> (r: ChunkBuffer)
        ensures
            r@ == chunks_view(chunks@),
    {
        ChunkBuffer { chunks }
    }

    /// The buffered chunks, in arrival order.
    pub fn chunks(&self) -> (r: &Vec<Chunk>)
        ensures
            chunks_view(r@) == self@,
    {
        &self.chunks
    }

    fn find_piece(&self, message_id: &Vec<u8>, provenance: &Vec<u8>, index: usize) -> (r: Option<usize>)
        ensures
            match r {
                Some(j) => j < self@.len() && find_piece(self@, message_id@, provenance@, index as nat) == Some(j as int),
                None => find_piece(self@, message_id@, provenance@, index as nat) is None,
            },
    {
        let ghost s = self@;
        let mut i: usize = self.chunks.len();
        assert(s.take(i as int) =~= s);
        while i > 0
            invariant
                i <= s.len(),
                s == self@,
                s.len() == self.chunks@.len(),
                find_piece(s, message_id@, provenance@, index as nat)
                    == find_piece(s.take(i as int), message_id@, provenance@, index as nat),
            decreases i,
        {
            let j = i - 1;
            assert(s.take(i as int).drop_last() =~= s.take(j as int));
            assert(s.take(i as int).last() == s[j as int]);
            let c = &self.chunks[j];
            if same_message(c, message_id, provenance) && c.chunk_index == index {
                return Some(j);
            }
            i = j;
        }
        None
    }

    fn count_index(&self, message_id: &Vec<u8>, provenance: &Vec<u8>, index: usize) -> (r: usize)
        ensures
            r == count_index(self@, message_id@, provenance@, index as nat),
    {
        let ghost s = self@;
        let mut n: usize = 0;
        let mut i: usize = 0;
        while i < self.chunks.len()
            invariant
                i <= s.len(),
                s == self@,
                s.len() == self.chunks@.len(),
                n == count_index(s.take(i as int), message_id@, provenance@, index as nat),
                n <= i,
            decreases s.len() - i,
        {
            assert(s.take(i + 1).drop_last() =~= s.take(i as int));
            assert(s.take(i + 1).last() == s[i as int]);
            let c = &self.chunks[i];
            if same_message(c, message_id, provenance) && c.chunk_index == index {
                n = n + 1;
            }
            i = i + 1;
        }
        assert(s.take(i as int) =~= s);
        n
    }

    fn is_complete(&self, message_id: &Vec<u8>, provenance: &Vec<u8>, total: usize) -> (r: bool)
        ensures
            r == complete(self@, message_id@, provenance@, total as nat),
    {
        if total == 0 {
            return false;
        }
        let mut i: usize = 0;
        while i < total
            invariant
                i <= total,
                forall|k: nat| k < i ==> #[trigger] count_index(self@, message_id@, provenance@, k) == 1,
            decreases total - i,
        {
            if self.count_index(message_id, provenance, i) != 1 {
                return false;
            }
            i = i + 1;
        }
        let mut k: usize = 0;
        while k < self.chunks.len()
            invariant
                k <= self@.len(),
                self@.len() == self.chunks@.len(),
                forall|j: int| 0 <= j < k && of_message(#[trigger] self@[j], message_id@, provenance@) ==> self@[j].index < total,
            decreases self@.len() - k,
        {
            let c = &self.chunks[k];
            if same_message(c, message_id, provenance) && c.chunk_index >= total {
                assert(of_message(self@[k as int], message_id@, provenance@));
                return false;
            }
            k = k + 1;
        }
        true
    }

    fn assemble(&self, message_id: &Vec<u8>, provenance: &Vec<u8>, total: usize) -> (r: Vec<u8>)
        requires
            complete(self@, message_id@, provenance@, total as nat),
        ensures
            r@ == assembled(self@, message_id@, provenance@, total as nat),
    {
        let mut out: Vec<u8> = Vec::new();
        let mut i: usize = 0;
        while i < total
            invariant
                i <= total,
                complete(self@, message_id@, provenance@, total as nat),
                out@ == assembled(self@, message_id@, provenance@, i as nat),
            decreases total - i,
        {
            proof { lemma_count_piece(self@, message_id@, provenance@, i as nat); }
            assert(find_piece(self@, message_id@, provenance@, i as nat) is Some);
            let j = self.find_piece(message_id, provenance, i).unwrap();
            let contents = &self.chunks[j].contents;
            let ghost before = out@;
            let mut k: usize = 0;
            while k < contents.len()
                invariant
                    k <= contents.len(),
                    out@ == before + contents@.take(k as int),
                decreases contents.len() - k,
            {
                out.push(contents[k]);
                k = k + 1;
                assert(out@ =~= before + contents@.take(k as int));
            }
            assert(contents@.take(k as int) =~= contents@);
            assert(self@[j as int].contents == contents@);
            i = i + 1;
        }
        out
    }

    fn drop_message(&mut self, message_id: &Vec<u8>, provenance: &Vec<u8>)
        ensures
            final(self)@ == without_message(old(self)@, message_id@, provenance@),
    {
        let ghost s = self@;
        let mut kept: Vec<Chunk> = Vec::new();
        let mut old_chunks: Vec<Chunk> = Vec::new();
        std::mem::swap(&mut old_chunks, &mut self.chunks);
        assert(chunks_view(old_chunks@) == s);
        let mut i: usize = 0;
        while i < old_chunks.len()
            invariant
                i <= old_chunks.len(),
                chunks_view(old_chunks@) == s,
                chunks_view(kept@) == without_message(s.take(i as int), message_id@, provenance@),
            decreases old_chunks.len() - i,
        {
            assert(s.take(i + 1).drop_last() =~= s.take(i as int));
            assert(s.take(i + 1).last() == s[i as int]);
            let c = &old_chunks[i];
            if !same_message(c, message_id, provenance) {
                let ghost k0 = chunks_view(kept@);
                kept.push(c.duplicate());
                assert(chunks_view(kept@) =~= k0.push(s[i as int]));
            }
            i = i + 1;
        }
        assert(s.take(i as int) =~= s);
        self.chunks = kept;
    }

    /// Buffers one decrypted chunk, whatever its index.
    pub fn add(&mut self, chunk: Chunk)
        ensures
            final(self)@ == old(self)@.push(chunk@),
    {
        let ghost s = self@;
        let ghost c = chunk@;
        self.chunks.push(chunk);
        assert(self@ =~= s.push(c));
    }

    /// Checks message `message_id` from `provenance` against `total`
    /// chunks: when its buffered chunks, sorted by index, are exactly
    /// `0..total`, returns the whole message, whose chunks leave the buffer.
    pub fn release(&mut self, message_id: &Vec<u8>, provenance: &Vec<u8>, total: usize) -> (r: Option<Vec<u8>>)
        ensures
            (final(self)@, match r { Some(m) => Some(m@), None => None }) == release_spec(old(self)@, message_id@, provenance@, total as nat),
    {
        if total > 0 && self.is_complete(message_id, provenance, total) {
            let m = self.assemble(message_id, provenance, total);
            self.drop_message(message_id, provenance);
            Some(m)
        } else {
            None
        }
    }
}

/// Whether `h` is among `hs`.
pub open spec fn listed(hs: Seq<Seq<u8>>, h: Seq<u8>) -> bool {
    exists|k: int| 0 <= k < hs.len() && #[trigger] hs[k] == h
}

/// The chunks of `stored` whose entry was not deleted, in order.
pub open spec fn live_spec(stored: Seq<(Seq<u8>, ChunkView)>, deleted: Seq<Seq<u8>>) -> Seq<ChunkView>
    decreases stored.len(),
{
    if stored.len() == 0 {
        Seq::empty()
    } else if listed(deleted, stored.last().0) {
        live_spec(stored.drop_last(), deleted)
    } else {
        live_spec(stored.drop_last(), deleted).push(stored.last().1)
    }
}

pub open spec fn stored_view(s: Seq<(Vec<u8>, Chunk)>) -> Seq<(Seq<u8>, ChunkView)> {
    s.map_values(|p: (Vec<u8>, Chunk)| (p.0@, p.1@))
}

fn is_listed(hs: &Vec<Vec<u8>>, h: &Vec<u8>) -> (r: bool)
    ensures
        r == listed(hs@.map_values(|v: Vec<u8>| v@), h@),
{
    let ghost hv = hs@.map_values(|v: Vec<u8>| v@);
    let mut k: usize = 0;
    while k < hs.len()
        invariant
            k <= hs.len(),
            hv == hs@.map_values(|v: Vec<u8>| v@),
            forall|j: int| 0 <= j < k ==> hv[j] != h@,
        decreases hs.len() - k,
    {
        if bytes_eq(&hs[k], h) {
            assert(hv[k as int] == h@);
            return true;
        }
        k = k + 1;
    }
    false
}

/// The pending chunks: those stored (entry hash, chunk) whose entry has not
/// been deleted since.
pub fn live_chunks(stored: &Vec<(Vec<u8>, Chunk)>, deleted: &Vec<Vec<u8>>) -> (r: ChunkBuffer)
    ensures
        r@ == live_spec(stored_view(stored@), deleted@.map_values(|v: Vec<u8>| v@)),
{
    let ghost sv = stored_view(stored@);
    let ghost dv = deleted@.map_values(|v: Vec<u8>| v@);
    let mut out: Vec<Chunk> = Vec::new();
    let mut i: usize = 0;
    while i < stored.len()
        invariant
            i <= stored.len(),
            sv == stored_view(stored@),
            dv == deleted@.map_values(|v: Vec<u8>| v@),
            chunks_view(out@) == live_spec(sv.take(i as int), dv),
        decreases stored.len() - i,
    {
        assert(sv.take(i + 1).drop_last() =~= sv.take(i as int));
        assert(sv.take(i + 1).last() == sv[i as int]);
        if !is_listed(deleted, &stored[i].0) {
            let ghost o0 = chunks_view(out@);
            out.push(stored[i].1.duplicate());
            assert(chunks_view(out@) =~= o0.push(sv[i as int].1));
        }
        i = i + 1;
    }
    assert(sv.take(i as int) =~= sv);
    ChunkBuffer::from_chunks(out)
}

/// Whether `c` is among `s`.
pub open spec fn has_chunk(s: Seq<ChunkView>, c: ChunkView) -> bool {
    exists|k: int| 0 <= k < s.len() && #[trigger] s[k] == c
}

/// The hashes of the live stored chunks that are no longer pending.
pub open spec fn released_spec(stored: Seq<(Seq<u8>, ChunkView)>, deleted: Seq<Seq<u8>>, after: Seq<ChunkView>) -> Seq<Seq<u8>>
    decreases stored.len(),
{
    if stored.len() == 0 {
        Seq::empty()
    } else {
        let rest = released_spec(stored.drop_last(), deleted, after);
        let (h, c) = stored.last();
        if !listed(deleted, h) && !has_chunk(after, c) {
            rest.push(h)
        } else {
            rest
        }
    }
}

/// The pending chunks that no live stored entry holds yet.
pub open spec fn unsaved_spec(live: Seq<ChunkView>, after: Seq<ChunkView>) -> Seq<ChunkView>
    decreases after.len(),
{
    if after.len() == 0 {
        Seq::empty()
    } else if has_chunk(live, after.last()) {
        unsaved_spec(live, after.drop_last())
    } else {
        unsaved_spec(live, after.drop_last()).push(after.last())
    }
}

fn chunk_eq(a: &Chunk, b: &Chunk) -> (r: bool)
    ensures
        r == (a@ == b@),
{
    a.chunk_index == b.chunk_index && a.total_chunk_number == b.total_chunk_number
        && bytes_eq(&a.provenance, &b.provenance) && bytes_eq(&a.message_id, &b.message_id)
        && bytes_eq(&a.contents, &b.contents)
}

fn holds_chunk(s: &Vec<Chunk>, c: &Chunk) -> (r: bool)
    ensures
        r == has_chunk(chunks_view(s@), c@),
{
    let mut k: usize = 0;
    while k < s.len()
        invariant
            k <= s.len(),
            forall|j: int| 0 <= j < k ==> chunks_view(s@)[j] != c@,
        decreases s.len() - k,
    {
        if chunk_eq(&s[k], c) {
            assert(chunks_view(s@)[k as int] == c@);
            return true;
        }
        k = k + 1;
    }
    false
}

/// What to write back after a batch that started from the pending chunks
/// `live_chunks(stored, deleted)` and left `after`: the entry hashes to
/// delete, and the chunks to store.
pub fn pending_changes(stored: &Vec<(Vec<u8>, Chunk)>, deleted: &Vec<Vec<u8>>, after: &ChunkBuffer) -> (r: (Vec<Vec<u8>>, Vec<Chunk>))
    ensures
        r.0@.map_values(|v: Vec<u8>| v@) == released_spec(stored_view(stored@), deleted@.map_values(|v: Vec<u8>| v@), after@),
        chunks_view(r.1@) == unsaved_spec(live_spec(stored_view(stored@), deleted@.map_values(|v: Vec<u8>| v@)), after@),
{
    let ghost sv = stored_view(stored@);
    let ghost dv = deleted@.map_values(|v: Vec<u8>| v@);
    let mut released: Vec<Vec<u8>> = Vec::new();
    let mut i: usize = 0;
    while i < stored.len()
        invariant
            i <= stored.len(),
            sv == stored_view(stored@),
            dv == deleted@.map_values(|v: Vec<u8>| v@),
            released@.map_values(|v: Vec<u8>| v@) == released_spec(sv.take(i as int), dv, after@),
        decreases stored.len() - i,
    {
        assert(sv.take(i + 1).drop_last() =~= sv.take(i as int));
        assert(sv.take(i + 1).last() == sv[i as int]);
        if !is_listed(deleted, &stored[i].0) && !holds_chunk(&after.chunks, &stored[i].1) {
            let ghost r0 = released@.map_values(|v: Vec<u8>| v@);
            released.push(stored[i].0.clone());
            assert(released@.map_values(|v: Vec<u8>| v@) =~= r0.push(sv[i as int].0));
        }
        i = i + 1;
    }
    assert(sv.take(i as int) =~= sv);
    let live = live_chunks(stored, deleted);
    let ghost av = after@;
    let mut unsaved: Vec<Chunk> = Vec::new();
    let mut j: usize = 0;
    while j < after.chunks.len()
        invariant
            j <= after.chunks@.len(),
            av == after@,
            av == chunks_view(after.chunks@),
            chunks_view(unsaved@) == unsaved_spec(live@, av.take(j as int)),
        decreases after.chunks@.len() - j,
    {
        assert(av.take(j + 1).drop_last() =~= av.take(j as int));
        assert(av.take(j + 1).last() == av[j as int]);
        if !holds_chunk(&live.chunks, &after.chunks[j]) {
            let ghost u0 = chunks_view(unsaved@);
            unsaved.push(after.chunks[j].duplicate());
            assert(chunks_view(unsaved@) =~= u0.push(av[j as int]));
        }
        j = j + 1;
    }
    assert(av.take(j as int) =~= av);
    (released, unsaved)
}

/// What `find_piece` finds is a buffered chunk of the message with that
/// index, and it finds one whenever there is one.
pub proof fn lemma_find_piece(s: Seq<ChunkView>, message_id: Seq<u8>, provenance: Seq<u8>, index: nat)
    ensures
        find_piece(s, message_id, provenance, index) is Some ==> {
            let k = find_piece(s, message_id, provenance, index).unwrap();
            &&& 0 <= k < s.len()
            &&& of_message(s[k], message_id, provenance)
            &&& s[k].index == index
        },
        find_piece(s, message_id, provenance, index) is None ==>
            forall|k: int| 0 <= k < s.len() ==> !(of_message(#[trigger] s[k], message_id, provenance) && s[k].index == index),
    decreases s.len(),
{
    if s.len() > 0 {
        lemma_find_piece(s.drop_last(), message_id, provenance, index);
        if find_piece(s, message_id, provenance, index) is None {
            assert forall|k: int| 0 <= k < s.len() implies !(of_message(#[trigger] s[k], message_id, provenance) && s[k].index == index) by {
                if k < s.len() - 1 {
                    assert(s[k] == s.drop_last()[k]);
                }
            }
        }
    }
}

/// A chunk index is counted exactly when `find_piece` finds it.
pub proof fn lemma_count_piece(s: Seq<ChunkView>, message_id: Seq<u8>, provenance: Seq<u8>, index: nat)
    ensures
        (count_index(s, message_id, provenance, index) >= 1) == (find_piece(s, message_id, provenance, index) is Some),
    decreases s.len(),
{
    if s.len() > 0 {
        lemma_count_piece(s.drop_last(), message_id, provenance, index);
    }
}

/// No chunk of the message is left after it is dropped.
pub proof fn lemma_without_message(s: Seq<ChunkView>, message_id: Seq<u8>, provenance: Seq<u8>)
    ensures
        forall|k: int| 0 <= k < without_message(s, message_id, provenance).len() ==>
            !of_message(#[trigger] without_message(s, message_id, provenance)[k], message_id, provenance),
    decreases s.len(),
{
    if s.len() > 0 {
        lemma_without_message(s.drop_last(), message_id, provenance);
        let w0 = without_message(s.drop_last(), message_id, provenance);
        let w = without_message(s, message_id, provenance);
        if !of_message(s.last(), message_id, provenance) {
            assert forall|k: int| 0 <= k < w.len() implies !of_message(#[trigger] w[k], message_id, provenance) by {
                if k < w0.len() {
                    assert(w[k] == w0[k]);
                }
            }
        }
    }
}

} // verus!
