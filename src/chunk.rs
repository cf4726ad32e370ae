//! Chunks: the slices of a plaintext that are enveloped one by one.

use vstd::prelude::*;

verus! {

/// Plaintexts longer than this are split into several chunks.
pub const MAX_CHUNK_SIZE: usize = 50000;

/// One slice of a message, as it travels inside an envelope.
#[derive(Clone, Debug, PartialEq, Eq)]
pub struct Chunk {
    /// The identity of the sender.
    pub provenance: Vec<u8>,
    /// The identifier shared by all chunks of one message.
    pub message_id: Vec<u8>,
    /// The position of this chunk in the message.
    pub chunk_index: usize,
    /// The number of chunks of the message.
    pub total_chunk_number: usize,
    /// The bytes of this slice.
    pub contents: Vec<u8>,
}

/// The mathematical value of a [`Chunk`].
pub struct ChunkView {
    pub provenance: Seq<u8>,
    pub message_id: Seq<u8>,
    pub index: nat,
    pub total: nat,
    pub contents: Seq<u8>,
}

impl View for Chunk {
    type V = ChunkView;

    open spec fn view(&self) -> ChunkView {
        ChunkView {
            provenance: self.provenance@,
            message_id: self.message_id@,
            index: self.chunk_index as nat,
            total: self.total_chunk_number as nat,
            contents: self.contents@,
        }
    }
}

impl Chunk {
    /// A copy of this chunk.
    pub fn duplicate(&self) -> (r: Chunk)
        ensures
            r@ == self@,
    {
        Chunk {
            provenance: self.provenance.clone(),
            message_id: self.message_id.clone(),
            chunk_index: self.chunk_index,
            total_chunk_number: self.total_chunk_number,
            contents: self.contents.clone(),
        }
    }
}

/// The slices of `s` of at most `max` bytes, in order. A message that fits in
/// one chunk, the empty one included, is a single chunk.
pub open spec fn split_spec(s: Seq<u8>, max: nat) -> Seq<Seq<u8>>
    recommends
        max > 0,
    decreases s.len(),
{
    if s.len() <= max || max == 0 {
        seq![s]
    } else {
        seq![s.take(max as int)] + split_spec(s.skip(max as int), max)
    }
}

/// The concatenation of `parts`, in order.
pub open spec fn concat(parts: Seq<Seq<u8>>) -> Seq<u8>
    decreases parts.len(),
{
    if parts.len() == 0 {
        Seq::empty()
    } else {
        concat(parts.drop_last()) + parts.last()
    }
}

/// The number of chunks of a message of `len` bytes.
pub open spec fn count_spec(len: nat, max: nat) -> nat {
    if len <= max || max == 0 {
        1
    } else {
        ((len + max - 1) / max as int) as nat
    }
}

proof fn lemma_concat_prepend(a: Seq<u8>, parts: Seq<Seq<u8>>)
    ensures
        concat(seq![a] + parts) == a + concat(parts),
    decreases parts.len(),
{
    if parts.len() == 0 {
        assert((seq![a] + parts).drop_last() =~= Seq::<Seq<u8>>::empty());
        assert(concat(Seq::<Seq<u8>>::empty()) == Seq::<u8>::empty());
        assert(a + Seq::<u8>::empty() =~= a);
    } else {
        lemma_concat_prepend(a, parts.drop_last());
        assert((seq![a] + parts).drop_last() =~= seq![a] + parts.drop_last());
        assert(a + concat(parts.drop_last()) + parts.last() =~= a + (concat(parts.drop_last()) + parts.last()));
    }
}

/// Concatenating the chunks of a message gives the message back, every chunk
/// holds at most `max` bytes, and their number is `count_spec`.
pub proof fn lemma_split(s: Seq<u8>, max: nat)
    requires
        max > 0,
    ensures
        concat(split_spec(s, max)) == s,
        split_spec(s, max).len() == count_spec(s.len(), max),
        forall|i: int| 0 <= i < split_spec(s, max).len() ==> #[trigger] split_spec(s, max)[i].len() <= max,
    decreases s.len(),
{
    if s.len() <= max {
        let one = seq![s];
        assert(one.drop_last() =~= Seq::<Seq<u8>>::empty());
        assert(one.last() == s);
        assert(concat(one) == concat(one.drop_last()) + one.last());
        assert(Seq::<u8>::empty() + s =~= s);
    } else {
        let rest = s.skip(max as int);
        lemma_split(rest, max);
        lemma_concat_prepend(s.take(max as int), split_spec(rest, max));
        assert(s.take(max as int) + rest =~= s);
        let n = s.len();
        assert(count_spec(rest.len(), max) + 1 == count_spec(n, max)) by {
            if rest.len() <= max {
                assert((n + max - 1) / max as int == 2) by (nonlinear_arith)
                    requires max < n <= 2 * max, max > 0;
            } else {
                assert((n + max - 1) / max as int == ((n - max) + max - 1) / max as int + 1) by (nonlinear_arith)
                    requires n > max, max > 0;
            }
        }
        let sp = split_spec(s, max);
        assert forall|i: int| 0 <= i < sp.len() implies #[trigger] sp[i].len() <= max by {
            if i > 0 {
                assert(sp[i] == split_spec(rest, max)[i - 1]);
            }
        }
    }
}

/// The number of chunks of a message of `len` bytes.
pub fn chunk_count(len: usize, max: usize) -> (r: usize)
    requires
        max > 0,
    ensures
        r == count_spec(len as nat, max as nat),
{
    if len <= max {
        1
    } else {
        let q = len / max;
        let rm = len % max;
        proof {
            let n = len as int;
            let m = max as int;
            assert(n == q * m + rm) by (nonlinear_arith)
                requires q == n / m, rm == n % m, m > 0;
            if rm == 0 {
                assert((n + m - 1) / m == q) by (nonlinear_arith)
                    requires n == q * m, m > 0;
            } else {
                assert((n + m - 1) / m == q + 1) by (nonlinear_arith)
                    requires n == q * m + rm, 0 < rm < m;
                assert(q + 1 <= n) by (nonlinear_arith)
                    requires n == q * m + rm, 0 < rm < m, q >= 0;
            }
        }
        if rm == 0 { q } else { q + 1 }
    }
}

/// Splits `message` into chunks of at most `max` bytes.
pub fn split_into_chunks(message: &Vec<u8>, max: usize) -> (r: Vec<Vec<u8>>)
    requires
        max > 0,
    ensures
        r@.map_values(|c: Vec<u8>| c@) == split_spec(message@, max as nat),
{
    let mut r: Vec<Vec<u8>> = Vec::new();
    let mut start: usize = 0;
    assert(message@.skip(0) =~= message@);
    assert(r@.map_values(|c: Vec<u8>| c@) + split_spec(message@, max as nat) =~= split_spec(message@, max as nat));
    while message.len() - start > max
        invariant
            max > 0,
            start <= message.len(),
            r@.map_values(|c: Vec<u8>| c@) + split_spec(message@.skip(start as int), max as nat)
                == split_spec(message@, max as nat),
        decreases message.len() - start,
    {
        let ghost rest = message@.skip(start as int);
        let mut piece: Vec<u8> = Vec::with_capacity(max);
        let mut i: usize = 0;
        while i < max
            invariant
                i <= max,
                start + max < message.len(),
                piece@ == message@.subrange(start as int, start + i),
            decreases max - i,
        {
            piece.push(message[start + i]);
            i = i + 1;
            assert(piece@ =~= message@.subrange(start as int, start + i));
        }
        assert(piece@ =~= rest.take(max as int));
        assert(rest.skip(max as int) =~= message@.skip(start + max));
        let ghost before = r@.map_values(|c: Vec<u8>| c@);
        r.push(piece);
        assert(r@.map_values(|c: Vec<u8>| c@) =~= before.push(piece@));
        assert(before.push(piece@) + split_spec(message@.skip(start + max), max as nat)
            =~= before + split_spec(rest, max as nat));
        start = start + max;
    }
    let mut last: Vec<u8> = Vec::with_capacity(message.len() - start);
    let mut i: usize = start;
    while i < message.len()
        invariant
            start <= i <= message.len(),
            last@ == message@.subrange(start as int, i as int),
        decreases message.len() - i,
    {
        last.push(message[i]);
        i = i + 1;
        assert(last@ =~= message@.subrange(start as int, i as int));
    }
    assert(last@ =~= message@.skip(start as int));
    let ghost before = r@.map_values(|c: Vec<u8>| c@);
    r.push(last);
    assert(r@.map_values(|c: Vec<u8>| c@) =~= before.push(last@));
    assert(before + seq![last@] =~= before.push(last@));
    r
}

} // verus!
