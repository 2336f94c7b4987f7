//! The binary layout: what a run of values looks like once it is packed, and
//! what a packed run reads back as.

use crate::width::{byte_len, lemma_byte_len_bounds, lemma_width_is_byte_len, width};
use vstd::prelude::*;

verus! {

/// The low `n` base-256 digits of `x`, most significant first.
pub open spec fn be_bytes(x: nat, n: nat) -> Seq<u8>
    decreases n,
{
    if n == 0 {
        Seq::empty()
    } else {
        be_bytes(x / 256, (n - 1) as nat).push((x % 256) as u8)
    }
}

/// The number that `bytes` spell, most significant byte first.
pub open spec fn be_value(bytes: Seq<u8>) -> nat
    decreases bytes.len(),
{
    if bytes.len() == 0 {
        0
    } else {
        256 * be_value(bytes.drop_last()) + bytes.last() as nat
    }
}

/// Payload of one value: its big-endian bytes at its own width.
pub open spec fn value_bytes(x: u32) -> Seq<u8> {
    be_bytes(x as nat, width(x as nat))
}

/// Header byte of a group: four two-bit fields, the first value's in the two
/// highest bits, each holding the value's width less one.
pub open spec fn group_header(a: u32, b: u32, c: u32, d: u32) -> u8 {
    let fa = width(a as nat) - 1;
    let fb = width(b as nat) - 1;
    let fc = width(c as nat) - 1;
    let fd = width(d as nat) - 1;
    (64 * fa + 16 * fb + 4 * fc + fd) as u8
}

/// Width that field `i` of header `h` records. Field 0 is the highest and
/// field 3, which any other `i` stands for as well, the lowest.
pub open spec fn field_width(h: u8, i: int) -> nat {
    if i == 0 {
        ((h / 64) % 4 + 1) as nat
    } else if i == 1 {
        ((h / 16) % 4 + 1) as nat
    } else if i == 2 {
        ((h / 4) % 4 + 1) as nat
    } else {
        (h % 4 + 1) as nat
    }
}

/// Number of payload bytes that belong to the group under header `h`.
pub open spec fn group_len(h: u8) -> nat {
    field_width(h, 0) + field_width(h, 1) + field_width(h, 2) + field_width(h, 3)
}

/// Number of payload bytes that belong to all groups under `headers`.
pub open spec fn payload_len(headers: Seq<u8>) -> nat
    decreases headers.len(),
{
    if headers.len() == 0 {
        0
    } else {
        group_len(headers[0]) + payload_len(headers.skip(1))
    }
}

/// Header bytes of a run of values, one for each full group of four.
pub open spec fn pack_headers(values: Seq<u32>) -> Seq<u8>
    decreases values.len(),
{
    if values.len() < 4 {
        Seq::empty()
    } else {
        seq![group_header(values[0], values[1], values[2], values[3])] + pack_headers(
            values.skip(4),
        )
    }
}

/// Payload bytes of a run of values: each value's bytes in turn, no padding.
pub open spec fn pack_bytes(values: Seq<u32>) -> Seq<u8>
    decreases values.len(),
{
    if values.len() == 0 {
        Seq::empty()
    } else {
        value_bytes(values[0]) + pack_bytes(values.skip(1))
    }
}

/// Sum of the widths of a run of values.
pub open spec fn total_width(values: Seq<u32>) -> nat
    decreases values.len(),
{
    if values.len() == 0 {
        0
    } else {
        width(values[0] as nat) + total_width(values.skip(1))
    }
}

/// The value that the `n` bytes of `bytes` from `offset` on spell.
pub open spec fn read_value(bytes: Seq<u8>, offset: int, n: int) -> u32 {
    be_value(bytes.subrange(offset, offset + n)) as u32
}

/// The four values of the group under header `h` whose payload starts `bytes`.
pub open spec fn unpack_group(h: u8, bytes: Seq<u8>) -> Seq<u32> {
    let w0 = field_width(h, 0) as int;
    let w1 = field_width(h, 1) as int;
    let w2 = field_width(h, 2) as int;
    let w3 = field_width(h, 3) as int;
    seq![
        read_value(bytes, 0, w0),
        read_value(bytes, w0, w1),
        read_value(bytes, w0 + w1, w2),
        read_value(bytes, w0 + w1 + w2, w3),
    ]
}

/// The values that `headers` and the payload `bytes` hold, group by group.
pub open spec fn unpack(headers: Seq<u8>, bytes: Seq<u8>) -> Seq<u32>
    decreases headers.len(),
{
    if headers.len() == 0 {
        Seq::empty()
    } else {
        unpack_group(headers[0], bytes) + unpack(
            headers.skip(1),
            bytes.skip(group_len(headers[0]) as int),
        )
    }
}

/// `n` digits are `n` bytes.
pub proof fn lemma_be_bytes_len(x: nat, n: nat)
    ensures
        be_bytes(x, n).len() == n,
    decreases n,
{
    if n > 0 {
        lemma_be_bytes_len(x / 256, (n - 1) as nat);
    }
}

/// Reading back the big-endian bytes of a value gives the value, as long as
/// the bytes are at least as many as the value has digits.
pub proof fn lemma_be_round_trip(x: nat, n: nat)
    requires
        byte_len(x) <= n,
    ensures
        be_value(be_bytes(x, n)) == x,
    decreases n,
{
    lemma_byte_len_bounds(x / 256);
    let rest = be_bytes(x / 256, (n - 1) as nat);
    assert(be_bytes(x, n).drop_last() =~= rest);
    if n > 1 {
        lemma_be_round_trip(x / 256, (n - 1) as nat);
    }
    assert(be_value(rest) == x / 256);
}

/// A value's payload has its width in bytes and reads back as the value.
pub proof fn lemma_value_round_trip(x: u32)
    ensures
        value_bytes(x).len() == width(x as nat),
        be_value(value_bytes(x)) == x,
{
    lemma_be_bytes_len(x as nat, width(x as nat));
    lemma_width_is_byte_len(x as nat);
    lemma_be_round_trip(x as nat, width(x as nat));
}

/// Each field of a group's header records the width of its value.
pub proof fn lemma_header_fields(a: u32, b: u32, c: u32, d: u32)
    ensures
        field_width(group_header(a, b, c, d), 0) == width(a as nat),
        field_width(group_header(a, b, c, d), 1) == width(b as nat),
        field_width(group_header(a, b, c, d), 2) == width(c as nat),
        field_width(group_header(a, b, c, d), 3) == width(d as nat),
{
}

/// The header of a group by shifting: the fields of its four values, each
/// the value's width less one, sit at bits 7 to 6, 5 to 4, 3 to 2 and 1 to 0.
pub proof fn lemma_header_bits(a: u32, b: u32, c: u32, d: u32)
    ensures
        ({
            let fa = (width(a as nat) - 1) as u8;
            let fb = (width(b as nat) - 1) as u8;
            let fc = (width(c as nat) - 1) as u8;
            let fd = (width(d as nat) - 1) as u8;
            group_header(a, b, c, d) == fa << 6u8 | fb << 4u8 | fc << 2u8 | fd << 0u8
        }),
{
    let fa = (width(a as nat) - 1) as u8;
    let fb = (width(b as nat) - 1) as u8;
    let fc = (width(c as nat) - 1) as u8;
    let fd = (width(d as nat) - 1) as u8;
    assert(fa < 4 && fb < 4 && fc < 4 && fd < 4 ==> fa << 6u8 | fb << 4u8 | fc << 2u8 | fd << 0u8
        == 64 * fa + 16 * fb + 4 * fc + fd) by (bit_vector);
}

/// The base-256 digits of a 32-bit value, by shifting and by dividing.
proof fn lemma_value_digits(x: u32)
    by (bit_vector)
    ensures
        (x >> 0u32) as u8 == x % 256,
        (x >> 8u32) as u8 == (x / 256) % 256,
        (x >> 16u32) as u8 == ((x / 256) / 256) % 256,
        (x >> 24u32) as u8 == (((x / 256) / 256) / 256) % 256,
{
}

/// The payload of a value by shifting, byte by byte.
pub proof fn lemma_value_bytes(x: u32)
    ensures
        width(x as nat) == 1 ==> value_bytes(x) == seq![(x >> 0u32) as u8],
        width(x as nat) == 2 ==> value_bytes(x) == seq![(x >> 8u32) as u8, (x >> 0u32) as u8],
        width(x as nat) == 3 ==> value_bytes(x) == seq![
            (x >> 16u32) as u8,
            (x >> 8u32) as u8,
            (x >> 0u32) as u8,
        ],
        width(x as nat) == 4 ==> value_bytes(x) == seq![
            (x >> 24u32) as u8,
            (x >> 16u32) as u8,
            (x >> 8u32) as u8,
            (x >> 0u32) as u8,
        ],
{
    lemma_value_digits(x);
    reveal_with_fuel(be_bytes, 5);
}

/// The payload of a run is as long as the widths of its values add up to.
pub proof fn lemma_pack_bytes_len(values: Seq<u32>)
    ensures
        pack_bytes(values).len() == total_width(values),
    decreases values.len(),
{
    if values.len() > 0 {
        lemma_value_round_trip(values[0]);
        lemma_pack_bytes_len(values.skip(1));
    }
}

/// Packing a run that is made of two runs packs one after the other.
pub proof fn lemma_pack_bytes_concat(a: Seq<u32>, b: Seq<u32>)
    ensures
        pack_bytes(a + b) == pack_bytes(a) + pack_bytes(b),
    decreases a.len(),
{
    if a.len() > 0 {
        lemma_pack_bytes_concat(a.skip(1), b);
        assert((a + b).skip(1) =~= a.skip(1) + b);
    }
}

/// The headers of a run that is made of two runs, the first of full groups,
/// are the headers of one after those of the other.
pub proof fn lemma_pack_headers_concat(a: Seq<u32>, b: Seq<u32>)
    requires
        a.len() % 4 == 0,
    ensures
        pack_headers(a + b) == pack_headers(a) + pack_headers(b),
    decreases a.len(),
{
    if a.len() > 0 {
        lemma_pack_headers_concat(a.skip(4), b);
        assert((a + b).skip(4) =~= a.skip(4) + b);
    }
}

/// There is one header for every four values.
pub proof fn lemma_pack_headers_len(values: Seq<u32>)
    ensures
        pack_headers(values).len() == values.len() / 4,
    decreases values.len(),
{
    if values.len() >= 4 {
        lemma_pack_headers_len(values.skip(4));
    }
}

/// Every header stands for four values.
pub proof fn lemma_unpack_len(headers: Seq<u8>, bytes: Seq<u8>)
    ensures
        unpack(headers, bytes).len() == 4 * headers.len(),
    decreases headers.len(),
{
    if headers.len() > 0 {
        lemma_unpack_len(headers.skip(1), bytes.skip(group_len(headers[0]) as int));
    }
}

/// A group reads back from its header and its payload, whatever follows the
/// payload, and its payload is as long as its header says.
pub proof fn lemma_group_round_trip(a: u32, b: u32, c: u32, d: u32, rest: Seq<u8>)
    ensures
        ({
            let h = group_header(a, b, c, d);
            let payload = value_bytes(a) + value_bytes(b) + value_bytes(c) + value_bytes(d);
            &&& group_len(h) == payload.len()
            &&& unpack_group(h, payload + rest) == seq![a, b, c, d]
            &&& (payload + rest).skip(group_len(h) as int) == rest
        }),
{
    let (pa, pb, pc, pd) = (value_bytes(a), value_bytes(b), value_bytes(c), value_bytes(d));
    let bytes = pa + pb + pc + pd + rest;
    lemma_header_fields(a, b, c, d);
    lemma_value_round_trip(a);
    lemma_value_round_trip(b);
    lemma_value_round_trip(c);
    lemma_value_round_trip(d);
    let (w0, w1, w2, w3) = (pa.len() as int, pb.len() as int, pc.len() as int, pd.len() as int);
    assert(bytes.subrange(0, w0) =~= pa);
    assert(bytes.subrange(w0, w0 + w1) =~= pb);
    assert(bytes.subrange(w0 + w1, w0 + w1 + w2) =~= pc);
    assert(bytes.subrange(w0 + w1 + w2, w0 + w1 + w2 + w3) =~= pd);
}

/// Round trip of the packed form: a run of full groups reads back from its
/// headers and its payload, value for value and in order.
pub proof fn lemma_unpack_pack(values: Seq<u32>)
    requires
        values.len() % 4 == 0,
    ensures
        unpack(pack_headers(values), pack_bytes(values)) == values,
        payload_len(pack_headers(values)) == pack_bytes(values).len(),
    decreases values.len(),
{
    if values.len() >= 4 {
        let (a, b, c, d) = (values[0], values[1], values[2], values[3]);
        let tail = values.skip(4);
        let group = seq![a, b, c, d];
        assert(values =~= group + tail);
        lemma_pack_bytes_concat(group, tail);
        assert(pack_bytes(group) =~= value_bytes(a) + value_bytes(b) + value_bytes(c)
            + value_bytes(d)) by {
            reveal_with_fuel(pack_bytes, 5);
            assert(group.skip(1) =~= seq![b, c, d]);
            assert(group.skip(1).skip(1) =~= seq![c, d]);
            assert(group.skip(1).skip(1).skip(1) =~= seq![d]);
            assert(group.skip(1).skip(1).skip(1).skip(1) =~= Seq::<u32>::empty());
        }
        lemma_group_round_trip(a, b, c, d, pack_bytes(tail));
        lemma_unpack_pack(tail);
        assert(pack_headers(values).skip(1) =~= pack_headers(tail));
    }
}

/// Four bytes spell the number that their shifts or together; fewer bytes
/// spell what the last of them give.
pub proof fn lemma_be_value_bits(b0: u8, b1: u8, b2: u8, b3: u8)
    ensures
        be_value(seq![b3]) == (b3 as u32) << 0u32,
        be_value(seq![b2, b3]) == (b2 as u32) << 8u32 | (b3 as u32) << 0u32,
        be_value(seq![b1, b2, b3]) == (b1 as u32) << 16u32 | (b2 as u32) << 8u32 | (b3 as u32)
            << 0u32,
        be_value(seq![b0, b1, b2, b3]) == (b0 as u32) << 24u32 | (b1 as u32) << 16u32 | (b2 as u32)
            << 8u32 | (b3 as u32) << 0u32,
{
    assert((b3 as u32) << 0u32 == b3) by (bit_vector);
    assert((b2 as u32) << 8u32 | (b3 as u32) << 0u32 == 256 * b2 + b3) by (bit_vector);
    assert((b1 as u32) << 16u32 | (b2 as u32) << 8u32 | (b3 as u32) << 0u32 == 256 * (256 * b1
        + b2) + b3) by (bit_vector);
    assert((b0 as u32) << 24u32 | (b1 as u32) << 16u32 | (b2 as u32) << 8u32 | (b3 as u32) << 0u32
        == 256 * (256 * (256 * b0 + b1) + b2) + b3) by (bit_vector);
    reveal_with_fuel(be_value, 5);
}

/// The two bits of each field, by shifting and by dividing.
pub proof fn lemma_field_bits(h: u8)
    ensures
        (3 & (h >> 6u8)) + 1 == field_width(h, 0),
        (3 & (h >> 4u8)) + 1 == field_width(h, 1),
        (3 & (h >> 2u8)) + 1 == field_width(h, 2),
        (3 & (h >> 0u8)) + 1 == field_width(h, 3),
{
    assert(3 & (h >> 6u8) == (h / 64) % 4) by (bit_vector);
    assert(3 & (h >> 4u8) == (h / 16) % 4) by (bit_vector);
    assert(3 & (h >> 2u8) == (h / 4) % 4) by (bit_vector);
    assert(3 & (h >> 0u8) == h % 4) by (bit_vector);
}

/// Reading at a cursor: with `k` groups read into `done` and the cursor at
/// `offset`, the next group's four values lie one behind the other from
/// `offset` on, all within `bytes`, and the groups after it start where its
/// payload ends.
pub proof fn lemma_unpack_next(
    headers: Seq<u8>,
    bytes: Seq<u8>,
    k: int,
    offset: int,
    done: Seq<u32>,
)
    requires
        0 <= k < headers.len(),
        0 <= offset,
        offset + payload_len(headers.skip(k)) == bytes.len(),
    ensures
        ({
            let h = headers[k];
            let w0 = field_width(h, 0) as int;
            let w1 = field_width(h, 1) as int;
            let w2 = field_width(h, 2) as int;
            let w3 = field_width(h, 3) as int;
            let end = offset + w0 + w1 + w2 + w3;
            &&& end + payload_len(headers.skip(k + 1)) == bytes.len()
            &&& done + unpack(headers.skip(k), bytes.skip(offset)) == done.push(
                read_value(bytes, offset, w0),
            ).push(read_value(bytes, offset + w0, w1)).push(
                read_value(bytes, offset + w0 + w1, w2),
            ).push(read_value(bytes, offset + w0 + w1 + w2, w3)) + unpack(
                headers.skip(k + 1),
                bytes.skip(end),
            )
        }),
{
    let h = headers[k];
    let w0 = field_width(h, 0) as int;
    let w1 = field_width(h, 1) as int;
    let w2 = field_width(h, 2) as int;
    let w3 = field_width(h, 3) as int;
    let end = offset + w0 + w1 + w2 + w3;
    let bs = bytes.skip(offset);
    assert(headers.skip(k).skip(1) =~= headers.skip(k + 1));
    assert(bs.skip(group_len(h) as int) =~= bytes.skip(end));
    assert(bs.subrange(0, w0) =~= bytes.subrange(offset, offset + w0));
    assert(bs.subrange(w0, w0 + w1) =~= bytes.subrange(offset + w0, offset + w0 + w1));
    assert(bs.subrange(w0 + w1, w0 + w1 + w2) =~= bytes.subrange(
        offset + w0 + w1,
        offset + w0 + w1 + w2,
    ));
    assert(bs.subrange(w0 + w1 + w2, w0 + w1 + w2 + w3) =~= bytes.subrange(
        offset + w0 + w1 + w2,
        offset + w0 + w1 + w2 + w3,
    ));
}

} // verus!
