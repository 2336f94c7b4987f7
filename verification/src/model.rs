//! What a run of added values leaves behind. A group of four is committed to
//! the packed form only when a fifth value arrives, so the last one to four
//! values of a run always wait in the staging buffer.

use crate::format::{
    group_header, lemma_pack_bytes_concat, lemma_pack_bytes_len, lemma_pack_headers_concat,
    lemma_pack_headers_len, lemma_unpack_pack, pack_bytes, pack_headers, payload_len,
    total_width, unpack,
};
use vstd::layout::size_of;
use vstd::prelude::*;

verus! {

/// How many of `n` added values are committed: all but the last one to four.
pub open spec fn committed_count(n: nat) -> nat {
    if n == 0 {
        0
    } else {
        (4 * ((n - 1) / 4)) as nat
    }
}

/// The values of a run that are committed to the packed form.
pub open spec fn committed(values: Seq<u32>) -> Seq<u32> {
    values.take(committed_count(values.len()) as int)
}

/// The values of a run that wait in the staging buffer.
pub open spec fn staged(values: Seq<u32>) -> Seq<u32> {
    values.skip(committed_count(values.len()) as int)
}

/// The header bytes after `values` were added in order.
pub open spec fn headers_of(values: Seq<u32>) -> Seq<u8> {
    pack_headers(committed(values))
}

/// The payload bytes after `values` were added in order.
pub open spec fn packed_of(values: Seq<u32>) -> Seq<u8> {
    pack_bytes(committed(values))
}

/// The values that headers, payload and staging buffer hold together.
pub open spec fn decoded(headers: Seq<u8>, packed: Seq<u8>, staging: Seq<u32>) -> Seq<u32> {
    unpack(headers, packed) + staging
}

/// Bytes that the encoded form of `values` is accounted at: one machine word,
/// the payload, the headers, and four bytes for each staged value.
pub open spec fn footprint(values: Seq<u32>) -> nat {
    size_of::<usize>() + packed_of(values).len() + headers_of(values).len() + 4 * staged(
        values,
    ).len()
}

/// Round trip: whatever was added reads back, value for value and in order.
pub proof fn lemma_round_trip(values: Seq<u32>)
    ensures
        decoded(headers_of(values), packed_of(values), staged(values)) == values,
{
    lemma_unpack_pack(committed(values));
}

/// The count of a run is four for each header byte plus the staged values,
/// of which there are at most four, and at least one once anything was added.
pub proof fn lemma_count(values: Seq<u32>)
    ensures
        values.len() == 4 * headers_of(values).len() + staged(values).len(),
        staged(values).len() <= 4,
        values.len() > 0 ==> staged(values).len() >= 1,
{
    lemma_pack_headers_len(committed(values));
}

/// The commit lags by one value: `n` values, if there are any, leave
/// `(n - 1) / 4` groups committed, rounded down, and the rest staged.
pub proof fn lemma_committed_groups(values: Seq<u32>)
    ensures
        headers_of(values).len() == if values.len() == 0 {
            0
        } else {
            (values.len() - 1) / 4
        },
        staged(values).len() == if values.len() == 0 {
            0
        } else {
            (values.len() - 1) % 4 + 1
        },
{
    lemma_pack_headers_len(committed(values));
}

/// The payload is as long as the headers say, which is as long as the
/// widths of the committed values add up to.
pub proof fn lemma_payload_len(values: Seq<u32>)
    ensures
        packed_of(values).len() == payload_len(headers_of(values)),
        packed_of(values).len() == total_width(committed(values)),
{
    lemma_unpack_pack(committed(values));
    lemma_pack_bytes_len(committed(values));
}

/// A run of up to four values commits nothing: no header, no payload, and
/// all of it staged, from where it still reads back.
pub proof fn lemma_first_group_stays_staged(values: Seq<u32>)
    requires
        values.len() <= 4,
    ensures
        headers_of(values) == Seq::<u8>::empty(),
        packed_of(values) == Seq::<u8>::empty(),
        staged(values) == values,
        decoded(headers_of(values), packed_of(values), staged(values)) == values,
{
    lemma_round_trip(values);
}

/// What one more value does. Onto a full staging buffer it commits the four
/// staged values, as one header byte and their payload, and is staged alone;
/// otherwise it joins the staged values and nothing else changes.
pub proof fn lemma_push(values: Seq<u32>, x: u32)
    ensures
        ({
            let s = staged(values);
            let after = values.push(x);
            if s.len() == 4 {
                &&& headers_of(after) == headers_of(values).push(
                    group_header(s[0], s[1], s[2], s[3]),
                )
                &&& packed_of(after) == packed_of(values) + pack_bytes(s)
                &&& staged(after) == seq![x]
            } else {
                &&& headers_of(after) == headers_of(values)
                &&& packed_of(after) == packed_of(values)
                &&& staged(after) == s.push(x)
            }
        }),
{
    let s = staged(values);
    let c = committed(values);
    if s.len() == 4 {
        assert(committed(values.push(x)) =~= c + s);
        lemma_pack_bytes_concat(c, s);
        lemma_pack_headers_concat(c, s);
        assert(pack_headers(s) =~= seq![group_header(s[0], s[1], s[2], s[3])]) by {
            reveal_with_fuel(pack_headers, 2);
        }
    } else {
        assert(committed(values.push(x)) =~= c);
    }
}

} // verus!
