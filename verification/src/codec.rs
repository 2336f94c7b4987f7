//! The incremental encoder and its decoder.

use crate::format::{
    lemma_be_value_bits, lemma_field_bits, lemma_pack_bytes_concat, lemma_unpack_next,
    lemma_value_bytes, pack_bytes, payload_len, read_value, unpack, value_bytes,
};
use crate::model::{
    decoded, footprint, headers_of, lemma_count, lemma_first_group_stays_staged,
    lemma_payload_len, lemma_push, lemma_round_trip, packed_of, staged,
};
use crate::width::{byte_size, width};
use vstd::layout::size_of;
use vstd::prelude::*;

verus! {

/// A growing run of 32-bit values in group-varint form.
pub struct GVInt {
    /// How many values were added.
    size: usize,
    /// One byte for each committed group of four values.
    headers: Vec<u8>,
    /// The payload bytes of the committed groups.
    xs: Vec<u8>,
    /// The last one to four values added, which are not committed yet.
    buf: Vec<u32>,
}

/// Count, headers, payload and staging buffer are exactly what adding the
/// values that they hold, in order, leaves behind.
spec fn consistent(size: usize, headers: Seq<u8>, packed: Seq<u8>, staging: Seq<u32>) -> bool {
    let values = decoded(headers, packed, staging);
    &&& size == values.len()
    &&& headers == headers_of(values)
    &&& packed == packed_of(values)
    &&& staging == staged(values)
}

/// Field `k` of the header of the group `staging` while only the fields
/// before field `i` are set: the others are still zero.
spec fn field_so_far(staging: Seq<u32>, k: int, i: int) -> int {
    if k < i {
        width(staging[k] as nat) - 1
    } else {
        0
    }
}

/// The header of the group `staging` while only the fields before field `i`
/// are set.
spec fn header_prefix(staging: Seq<u32>, i: int) -> int {
    64 * field_so_far(staging, 0, i) + 16 * field_so_far(staging, 1, i) + 4 * field_so_far(
        staging,
        2,
        i,
    ) + field_so_far(staging, 3, i)
}

/// Setting a two-bit field that is still zero adds the field's value at its
/// place.
proof fn lemma_set_field(a: usize, b: usize, c: usize, d: usize)
    by (bit_vector)
    requires
        a < 4,
        b < 4,
        c < 4,
        d < 4,
    ensures
        0usize | (a << 6usize) == 64 * a,
        (64 * a) as usize | (b << 4usize) == 64 * a + 16 * b,
        (64 * a + 16 * b) as usize | (c << 2usize) == 64 * a + 16 * b + 4 * c,
        (64 * a + 16 * b + 4 * c) as usize | (d << 0usize) == 64 * a + 16 * b + 4 * c + d,
{
}

/// Or-ing the field of value `i` into a header that holds the fields before
/// it gives the header that holds the fields up to it.
proof fn lemma_header_step(staging: Seq<u32>, i: usize, header: usize, field: usize)
    requires
        staging.len() == 4,
        i < 4,
        header == header_prefix(staging, i as int),
        field == width(staging[i as int] as nat) - 1,
    ensures
        header | (field << ((6 - i * 2) as usize)) == header_prefix(staging, i + 1),
        header_prefix(staging, i + 1) < 256,
{
    let a = (width(staging[0] as nat) - 1) as usize;
    let b = (width(staging[1] as nat) - 1) as usize;
    let c = (width(staging[2] as nat) - 1) as usize;
    let d = (width(staging[3] as nat) - 1) as usize;
    lemma_set_field(a, b, c, d);
}

/// Packing one more value appends its payload.
proof fn lemma_pack_bytes_push(values: Seq<u32>, x: u32)
    ensures
        pack_bytes(values.push(x)) == pack_bytes(values) + value_bytes(x),
{
    lemma_pack_bytes_concat(values, seq![x]);
    assert(values.push(x) =~= values + seq![x]);
    assert(pack_bytes(seq![x]) =~= value_bytes(x)) by {
        reveal_with_fuel(pack_bytes, 2);
    }
}

impl View for GVInt {
    type V = Seq<u32>;

    /// Every value added so far, in the order of adding.
    closed spec fn view(&self) -> Seq<u32> {
        decoded(self.headers@, self.xs@, self.buf@)
    }
}

impl GVInt {
    /// Holds of every run: nothing but `new` and `add` makes or changes one.
    #[verifier::type_invariant]
    spec fn wf(&self) -> bool {
        consistent(self.size, self.headers@, self.xs@, self.buf@)
    }

    /// An empty run.
    pub fn new() -> (g: GVInt)
        ensures
            g@ == Seq::<u32>::empty(),
    {
        proof {
            lemma_first_group_stays_staged(Seq::<u32>::empty());
        }
        GVInt { size: 0, xs: Vec::new(), headers: Vec::new(), buf: Vec::new() }
    }

    /// Number of values added so far: four for each header byte, and the
    /// staged ones.
    pub fn size(&self) -> (n: usize)
        ensures
            n == self@.len(),
            n == 4 * headers_of(self@).len() + staged(self@).len(),
    {
        proof {
            use_type_invariant(self);
            lemma_count(self@);
        }
        self.size
    }

    /// Bytes that the encoded form is accounted at: one machine word for the
    /// count, the payload, the headers, and four bytes for each staged value.
    pub fn byte_size(&self) -> (n: usize)
        requires
            footprint(self@) <= usize::MAX,
        ensures
            n == size_of::<usize>() + packed_of(self@).len() + headers_of(self@).len() + 4 * staged(
                self@,
            ).len(),
    {
        proof {
            use_type_invariant(self);
        }
        core::mem::size_of::<usize>() + self.xs.len() + self.headers.len() + self.buf.len()
            * core::mem::size_of::<u32>()
    }

    /// Adds `x` at the end of the run. Four values that wait in the staging
    /// buffer are first committed: their widths to a new header byte, their
    /// big-endian bytes to the payload.
    pub fn add(&mut self, x: u32)
        requires
            old(self)@.len() < usize::MAX,
        ensures
            final(self)@ == old(self)@.push(x),
            final(self)@.len() == 4 * headers_of(final(self)@).len() + staged(final(self)@).len(),
    {
        proof {
            use_type_invariant(&*self);
            lemma_push(self@, x);
            lemma_count(self@);
            lemma_count(self@.push(x));
            lemma_round_trip(self@.push(x));
        }
        let mut this = GVInt::new();
        std::mem::swap(self, &mut this);
        let GVInt { size, mut headers, mut xs, mut buf } = this;
        if buf.len() == 4 {
            let ghost packed = xs@;
            let mut header: usize = 0;
            let mut i: usize = 0;
            while i < 4
                invariant
                    i <= 4,
                    buf@.len() == 4,
                    header == header_prefix(buf@, i as int),
                    xs@ == packed + pack_bytes(buf@.take(i as int)),
                decreases 4 - i,
            {
                let x = buf[i];
                let size = byte_size(x as usize);
                proof {
                    lemma_header_step(buf@, i, header, (size - 1) as usize);
                    lemma_value_bytes(x);
                    lemma_pack_bytes_push(buf@.take(i as int), x);
                    assert(buf@.take(i + 1) =~= buf@.take(i as int).push(x));
                }
                let ghost before = xs@;
                header |= (size - 1) << (6 - i * 2);
                match size {
                    1 => {
                        xs.push(#[verifier::truncate] ((x >> 0) as u8));
                    },
                    2 => {
                        xs.push(#[verifier::truncate] ((x >> 8) as u8));
                        xs.push(#[verifier::truncate] ((x >> 0) as u8));
                    },
                    3 => {
                        xs.push(#[verifier::truncate] ((x >> 16) as u8));
                        xs.push(#[verifier::truncate] ((x >> 8) as u8));
                        xs.push(#[verifier::truncate] ((x >> 0) as u8));
                    },
                    4 => {
                        xs.push(#[verifier::truncate] ((x >> 24) as u8));
                        xs.push(#[verifier::truncate] ((x >> 16) as u8));
                        xs.push(#[verifier::truncate] ((x >> 8) as u8));
                        xs.push(#[verifier::truncate] ((x >> 0) as u8));
                    },
                    _ => {},
                }
                assert(xs@ =~= before + value_bytes(x));
                i += 1;
            }
            assert(buf@.take(4) =~= buf@);
            headers.push(header as u8);
            buf.clear();
        }
        buf.push(x);
        *self = GVInt { size: size + 1, headers, xs, buf };
    }

    /// Reads one value of `size` bytes, most significant byte first, from
    /// `xs` at `offset`. A `size` outside one to four reads nothing and
    /// gives zero.
    pub fn _decode_one(&self, xs: &[u8], offset: usize, size: usize) -> (x: u32)
        requires
            1 <= size <= 4 ==> offset + size <= xs@.len(),
        ensures
            x == if 1 <= size <= 4 {
                read_value(xs@, offset as int, size as int)
            } else {
                0
            },
    {
        match size {
            4 => {
                proof {
                    lemma_be_value_bits(
                        xs@[offset + 0],
                        xs@[offset + 1],
                        xs@[offset + 2],
                        xs@[offset + 3],
                    );
                    assert(xs@.subrange(offset as int, offset + 4) =~= seq![
                        xs@[offset + 0],
                        xs@[offset + 1],
                        xs@[offset + 2],
                        xs@[offset + 3],
                    ]);
                }
                (xs[offset + 0] as u32) << 24 | (xs[offset + 1] as u32) << 16 | (xs[offset
                    + 2] as u32) << 8 | (xs[offset + 3] as u32) << 0
            },
            3 => {
                proof {
                    lemma_be_value_bits(0, xs@[offset + 0], xs@[offset + 1], xs@[offset + 2]);
                    assert(xs@.subrange(offset as int, offset + 3) =~= seq![
                        xs@[offset + 0],
                        xs@[offset + 1],
                        xs@[offset + 2],
                    ]);
                }
                (xs[offset + 0] as u32) << 16 | (xs[offset + 1] as u32) << 8 | (xs[offset
                    + 2] as u32) << 0
            },
            2 => {
                proof {
                    lemma_be_value_bits(0, 0, xs@[offset + 0], xs@[offset + 1]);
                    assert(xs@.subrange(offset as int, offset + 2) =~= seq![
                        xs@[offset + 0],
                        xs@[offset + 1],
                    ]);
                }
                (xs[offset + 0] as u32) << 8 | (xs[offset + 1] as u32) << 0
            },
            1 => {
                proof {
                    lemma_be_value_bits(0, 0, 0, xs@[offset + 0]);
                    assert(xs@.subrange(offset as int, offset + 1) =~= seq![xs@[offset + 0]]);
                }
                (xs[offset + 0] as u32) << 0
            },
            _ => 0,
        }
    }

    /// Every value added so far, in the order of adding: the committed groups
    /// read back from headers and payload, then the staged values.
    pub fn decode(&self) -> (r: Vec<u32>)
        ensures
            r@ == self@,
            r@ == decoded(headers_of(self@), packed_of(self@), staged(self@)),
    {
        proof {
            use_type_invariant(self);
            lemma_payload_len(self@);
        }
        let mut r: Vec<u32> = Vec::new();
        let mut offset: usize = 0;
        let mut k: usize = 0;
        assert(self.headers@.skip(0) =~= self.headers@);
        assert(self.xs@.skip(0) =~= self.xs@);
        while k < self.headers.len()
            invariant
                k <= self.headers@.len(),
                offset + payload_len(self.headers@.skip(k as int)) == self.xs.len(),
                r@ + unpack(self.headers@.skip(k as int), self.xs@.skip(offset as int)) == unpack(
                    self.headers@,
                    self.xs@,
                ),
            decreases self.headers@.len() - k,
        {
            let h = self.headers[k];
            proof {
                lemma_unpack_next(self.headers@, self.xs@, k as int, offset as int, r@);
                lemma_field_bits(h);
            }
            let size = (3 & (h >> 6)) as usize + 1;
            r.push(self._decode_one(self.xs.as_slice(), offset, size));
            offset += size;
            let size = (3 & (h >> 4)) as usize + 1;
            r.push(self._decode_one(self.xs.as_slice(), offset, size));
            offset += size;
            let size = (3 & (h >> 2)) as usize + 1;
            r.push(self._decode_one(self.xs.as_slice(), offset, size));
            offset += size;
            let size = (3 & (h >> 0)) as usize + 1;
            r.push(self._decode_one(self.xs.as_slice(), offset, size));
            offset += size;
            k += 1;
        }
        let mut j: usize = 0;
        while j < self.buf.len()
            invariant
                j <= self.buf@.len(),
                r@ == unpack(self.headers@, self.xs@) + self.buf@.take(j as int),
            decreases self.buf@.len() - j,
        {
            r.push(self.buf[j]);
            j += 1;
        }
        r
    }

    /// The header bytes, one for each committed group.
    pub fn headers(&self) -> (h: &[u8])
        ensures
            h@ == headers_of(self@),
    {
        proof {
            use_type_invariant(self);
        }
        self.headers.as_slice()
    }

    /// The payload bytes of the committed groups.
    pub fn packed(&self) -> (p: &[u8])
        ensures
            p@ == packed_of(self@),
    {
        proof {
            use_type_invariant(self);
        }
        self.xs.as_slice()
    }

    /// The values that wait in the staging buffer.
    pub fn staging(&self) -> (s: &[u32])
        ensures
            s@ == staged(self@),
    {
        proof {
            use_type_invariant(self);
        }
        self.buf.as_slice()
    }

    /// The run that adding `values` in order to an empty run gives.
    pub fn from_values(values: &[u32]) -> (g: GVInt)
        ensures
            g@ == values@,
    {
        let mut g = GVInt::new();
        let mut i: usize = 0;
        while i < values.len()
            invariant
                i <= values@.len(),
                g@ == values@.take(i as int),
            decreases values@.len() - i,
        {
            g.add(values[i]);
            i += 1;
        }
        g
    }
}

} // verus!
