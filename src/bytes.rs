//! Byte strings: the identities, keys and payloads of the mailbox.

use vstd::prelude::*;

verus! {

/// Compares two byte strings.
pub fn bytes_eq(a: &Vec<u8>, b: &Vec<u8>) -> (r: bool)
    ensures
        r == (a@ == b@),
{
    if a.len() != b.len() {
        return false;
    }
    let mut i: usize = 0;
    while i < a.len()
        invariant
            a.len() == b.len(),
            i <= a.len(),
            forall|j: int| 0 <= j < i ==> a@[j] == b@[j],
        decreases a.len() - i,
    {
        if a[i] != b[i] {
            return false;
        }
        i = i + 1;
    }
    assert(a@ =~= b@);
    true
}

/// `s` without repeats, each item at its first occurrence.
pub open spec fn distinct_spec(s: Seq<Seq<u8>>) -> Seq<Seq<u8>>
    decreases s.len(),
{
    if s.len() == 0 {
        s
    } else if distinct_spec(s.drop_last()).contains(s.last()) {
        distinct_spec(s.drop_last())
    } else {
        distinct_spec(s.drop_last()).push(s.last())
    }
}

pub open spec fn bytes_seq_view(v: Seq<Vec<u8>>) -> Seq<Seq<u8>> {
    v.map_values(|b: Vec<u8>| b@)
}

fn holds_bytes(v: &Vec<Vec<u8>>, x: &Vec<u8>) -> (r: bool)
    ensures
        r == bytes_seq_view(v@).contains(x@),
{
    let mut i: usize = 0;
    while i < v.len()
        invariant
            i <= v.len(),
            forall|j: int| 0 <= j < i ==> bytes_seq_view(v@)[j] != x@,
        decreases v.len() - i,
    {
        if bytes_eq(&v[i], x) {
            assert(bytes_seq_view(v@)[i as int] == x@);
            return true;
        }
        i = i + 1;
    }
    false
}

/// The items of `items` without repeats, in the order of first occurrence.
pub fn distinct_in_order(items: &Vec<Vec<u8>>) -> (r: Vec<Vec<u8>>)
    ensures
        bytes_seq_view(r@) == distinct_spec(bytes_seq_view(items@)),
{
    let ghost sv = bytes_seq_view(items@);
    let mut r: Vec<Vec<u8>> = Vec::new();
    let mut i: usize = 0;
    while i < items.len()
        invariant
            i <= items.len(),
            sv == bytes_seq_view(items@),
            bytes_seq_view(r@) == distinct_spec(sv.take(i as int)),
        decreases items.len() - i,
    {
        assert(sv.take(i + 1).drop_last() =~= sv.take(i as int));
        assert(sv.take(i + 1).last() == sv[i as int]);
        if !holds_bytes(&r, &items[i]) {
            let ghost r0 = bytes_seq_view(r@);
            r.push(items[i].clone());
            assert(bytes_seq_view(r@) =~= r0.push(sv[i as int]));
        }
        i = i + 1;
    }
    assert(sv.take(i as int) =~= sv);
    r
}

} // verus!
