//! How recorded actions lie in a file.
//!
//! Each action is written as its length, four bytes with the lowest first,
//! and then its bytes. A file holds such records one after the other, with
//! nothing between them.

use vstd::bytes::{
    lemma_auto_spec_u32_to_from_le_bytes, spec_u32_from_le_bytes, spec_u32_to_le_bytes,
    u32_from_le_bytes, u32_to_le_bytes,
};
use vstd::prelude::*;
use vstd::slice::slice_subrange;

verus! {

/// The most bytes that one record can hold.
pub const MAX_PAYLOAD: usize = 0xffff_ffff;

/// The record of one action: its length, then its bytes.
pub open spec fn framed(payload: Seq<u8>) -> Seq<u8> {
    spec_u32_to_le_bytes(payload.len() as u32) + payload
}

/// The file that holds the records of `payloads`, in order.
pub open spec fn record_of(payloads: Seq<Seq<u8>>) -> Seq<u8>
    decreases payloads.len(),
{
    if payloads.len() == 0 {
        Seq::empty()
    } else {
        framed(payloads[0]) + record_of(payloads.drop_first())
    }
}

/// What a file holds, read as records: `None` if the file ends within a
/// record.
pub open spec fn unframed(data: Seq<u8>) -> Option<Seq<Seq<u8>>>
    decreases data.len(),
{
    if data.len() == 0 {
        Some(Seq::empty())
    } else if data.len() < 4 {
        None
    } else {
        let n = spec_u32_from_le_bytes(data.subrange(0, 4)) as int;
        if data.len() < 4 + n {
            None
        } else {
            match unframed(data.skip(4 + n)) {
                Some(rest) => Some(seq![data.subrange(4, 4 + n)] + rest),
                None => None,
            }
        }
    }
}

/// The bytes of each of a list of byte strings.
pub open spec fn payloads_of(list: Seq<Vec<u8>>) -> Seq<Seq<u8>> {
    Seq::new(list.len(), |i: int| list[i]@)
}

/// The record of `payload`, or `None` if it is too long for its length to
/// be written in four bytes.
pub fn frame(payload: &[u8]) -> (r: Option<Vec<u8>>)
    ensures
        match r {
            Some(record) => payload@.len() <= MAX_PAYLOAD && record@ == framed(payload@),
            None => payload@.len() > MAX_PAYLOAD,
        },
{
    if payload.len() > MAX_PAYLOAD {
        return None;
    }
    let mut record = u32_to_le_bytes(payload.len() as u32);
    let ghost head = record@;
    let mut i: usize = 0;
    while i < payload.len()
        invariant
            i <= payload.len(),
            record@ == head + payload@.take(i as int),
        decreases payload.len() - i,
    {
        record.push(payload[i]);
        proof {
            assert(payload@.take(i + 1) =~= payload@.take(i as int).push(payload@[i as int]));
            assert(record@ =~= head + payload@.take(i + 1));
        }
        i = i + 1;
    }
    proof {
        assert(payload@.take(payload.len() as int) =~= payload@);
    }
    Some(record)
}

/// The bytes of the actions that `data` holds, in order, or `None` if `data`
/// ends within a record.
pub fn unframe(data: &[u8]) -> (r: Option<Vec<Vec<u8>>>)
    ensures
        match r {
            Some(list) => unframed(data@) == Some(payloads_of(list@)),
            None => unframed(data@) is None,
        },
{
    let mut list: Vec<Vec<u8>> = Vec::new();
    let mut at: usize = 0;
    proof {
        assert(data@.skip(0) =~= data@);
        assert(payloads_of(list@) =~= Seq::<Seq<u8>>::empty());
    }
    while at < data.len()
        invariant
            at <= data.len(),
            unframed(data@) == match unframed(data@.skip(at as int)) {
                Some(rest) => Some(payloads_of(list@) + rest),
                None => None,
            },
        decreases data.len() - at,
    {
        let ghost left = data@.skip(at as int);
        let ghost held = payloads_of(list@);
        if data.len() - at < 4 {
            return None;
        }
        let n = u32_from_le_bytes(slice_subrange(data, at, at + 4)) as usize;
        proof {
            assert(left.subrange(0, 4) =~= data@.subrange(at as int, at + 4));
        }
        if data.len() - at - 4 < n {
            return None;
        }
        let from = at + 4;
        let mut payload: Vec<u8> = Vec::new();
        let mut i: usize = 0;
        while i < n
            invariant
                from + n <= data.len(),
                i <= n,
                payload@ == data@.subrange(from as int, from + i),
            decreases n - i,
        {
            payload.push(data[from + i]);
            proof {
                assert(payload@ =~= data@.subrange(from as int, from + i + 1));
            }
            i = i + 1;
        }
        list.push(payload);
        at = from + n;
        proof {
            assert(left.subrange(4, 4 + n) =~= data@.subrange(from as int, from + n));
            assert(left.skip(4 + n) =~= data@.skip(at as int));
            assert(payloads_of(list@) =~= held.push(data@.subrange(from as int, from + n)));
            match unframed(data@.skip(at as int)) {
                Some(rest) => {
                    assert(held + (seq![left.subrange(4, 4 + n)] + rest) =~= payloads_of(list@)
                        + rest);
                },
                None => {},
            }
        }
    }
    proof {
        assert(data@.skip(at as int) =~= Seq::<u8>::empty());
        assert(payloads_of(list@) + Seq::<Seq<u8>>::empty() =~= payloads_of(list@));
    }
    Some(list)
}

/// Reading a file that holds the records of `payloads` gives `payloads`
/// back.
pub proof fn law_unframe_recovers(payloads: Seq<Seq<u8>>)
    requires
        forall|i: int| 0 <= i < payloads.len() ==> (#[trigger] payloads[i]).len() <= MAX_PAYLOAD,
    ensures
        unframed(record_of(payloads)) == Some(payloads),
    decreases payloads.len(),
{
    if payloads.len() > 0 {
        let first = payloads[0];
        let rest = payloads.drop_first();
        let data = record_of(payloads);
        lemma_auto_spec_u32_to_from_le_bytes();
        let head = spec_u32_to_le_bytes(first.len() as u32);
        assert(head.len() == 4);
        assert(data.subrange(0, 4) =~= head);
        assert(spec_u32_from_le_bytes(data.subrange(0, 4)) == first.len());
        let n = first.len() as int;
        assert(data.subrange(4, 4 + n) =~= first);
        assert(data.skip(4 + n) =~= record_of(rest));
        assert forall|i: int| 0 <= i < rest.len() implies (#[trigger] rest[i]).len()
            <= MAX_PAYLOAD by {
            assert(rest[i] == payloads[i + 1]);
        }
        law_unframe_recovers(rest);
        assert(seq![first] + rest =~= payloads);
    }
}

} // verus!
