//! The portable wire format: a cookie, the per-container descriptors, the
//! body offsets of larger files, and the container bodies in key order.

use vstd::prelude::*;

use crate::array_store::ArrayStore;
use crate::bitmap_store::{total_pop, BitmapStore};
use crate::bytes::{le16, le32, le64, push_u16, push_u32, push_u64, read_u16, read_u64, u16_of, u64_of};
use crate::container::Container;
use crate::roaring::{cs_wf, keys_sorted, lemma_container_len_bound, lemma_keys_count, RoaringBitmap};
use crate::store::Store;

verus! {

/// The cookie of a stream without run-encoded containers.
pub const SERIAL_COOKIE_NO_RUNS: u32 = 0x00003B31;

/// The low half of the cookie that announces run flags.
pub const SERIAL_COOKIE_RUNS: u16 = 0x3B30;

/// The failures of deserialization, one per malformed shape.
#[derive(Clone, Copy, PartialEq, Eq, Structural, Debug)]
pub enum DeserializeError {
    /// The first bytes name neither layout.
    InvalidCookie,
    /// The stream ends before the declared content.
    Truncated,
    /// A run flag is set; run containers are not read here.
    NonZeroRunFlag,
    /// A dense body holds a different count than its descriptor declared.
    PopulationMismatch,
    /// Keys or array values do not ascend strictly.
    OutOfOrder,
}

/// Whether a stream's first bytes name the run-flag layout; the error
/// contracts below read the stream's own headers through these.
pub open spec fn stream_long(bytes: Seq<u8>) -> bool {
    u16_of(bytes[0], bytes[1]) == SERIAL_COOKIE_RUNS
}

/// The container count a stream's count field declares.
pub open spec fn stream_count(bytes: Seq<u8>) -> int {
    if stream_long(bytes) {
        u16_of(bytes[2], bytes[3]) as int + 1
    } else {
        u16_of(bytes[4], bytes[5]) as int + 1
    }
}

/// Where a stream's descriptor block starts.
pub open spec fn stream_desc_start(bytes: Seq<u8>) -> int {
    if stream_long(bytes) {
        4 + (stream_count(bytes) + 7) / 8
    } else {
        6
    }
}

/// The key a stream's descriptor `j` declares.
pub open spec fn stream_key_at(bytes: Seq<u8>, j: int) -> u16 {
    u16_of(
        bytes[stream_desc_start(bytes) + 4 * j],
        bytes[stream_desc_start(bytes) + 4 * j + 1],
    )
}

/// The population a stream's descriptor `j` declares.
pub open spec fn stream_pop_at(bytes: Seq<u8>, j: int) -> int {
    u16_of(
        bytes[stream_desc_start(bytes) + 4 * j + 2],
        bytes[stream_desc_start(bytes) + 4 * j + 3],
    ) as int + 1
}

/// The body size a stream's descriptor `j` implies: the population picks
/// the representation.
pub open spec fn stream_body_size(bytes: Seq<u8>, j: int) -> int {
    if stream_pop_at(bytes, j) <= 4096 {
        2 * stream_pop_at(bytes, j)
    } else {
        8192
    }
}

/// The total size of the first `j` bodies a stream declares.
pub open spec fn stream_bodies_sum(bytes: Seq<u8>, j: int) -> int
    decreases j,
{
    if j <= 0 {
        0
    } else {
        stream_bodies_sum(bytes, j - 1) + stream_body_size(bytes, j - 1)
    }
}

/// Where body `j` starts in a stream, by its own headers.
pub open spec fn stream_body_start(bytes: Seq<u8>, j: int) -> int {
    stream_desc_start(bytes) + 4 * stream_count(bytes) + (if !stream_long(bytes)
        && stream_count(bytes) >= 4 {
        4 * stream_count(bytes)
    } else {
        0int
    }) + stream_bodies_sum(bytes, j)
}

/// The length a stream's own headers demand of it.
pub open spec fn stream_needed_len(bytes: Seq<u8>) -> int {
    stream_body_start(bytes, stream_count(bytes))
}

/// The dense words sitting at position `p` of a stream.
pub open spec fn stream_words_at(bytes: Seq<u8>, p: int) -> Seq<u64> {
    Seq::new(
        1024,
        |i: int|
            u64_of(
                bytes[p + 8 * i],
                bytes[p + 8 * i + 1],
                bytes[p + 8 * i + 2],
                bytes[p + 8 * i + 3],
                bytes[p + 8 * i + 4],
                bytes[p + 8 * i + 5],
                bytes[p + 8 * i + 6],
                bytes[p + 8 * i + 7],
            ),
    )
}

/// Declared body sizes are positive, so their sums grow.
proof fn lemma_stream_sum_mono(bytes: Seq<u8>, a: int, b: int)
    requires
        0 <= a <= b,
    ensures
        stream_bodies_sum(bytes, a) <= stream_bodies_sum(bytes, b),
        stream_bodies_sum(bytes, a) >= 0,
    decreases b,
{
    if a < b {
        lemma_stream_sum_mono(bytes, a, b - 1);
    } else if a > 0 {
        lemma_stream_sum_mono(bytes, a - 1, a - 1);
    }
}

/// The bytes of a sparse body: each value as two little-endian bytes, in
/// order.
pub open spec fn spec_array_body(s: Seq<u16>) -> Seq<u8>
    decreases s.len(),
{
    if s.len() == 0 {
        Seq::empty()
    } else {
        spec_array_body(s.drop_last()) + le16(s.last())
    }
}

/// The bytes of a dense body: 1024 words as eight little-endian bytes
/// each.
pub open spec fn spec_words_body(w: Seq<u64>) -> Seq<u8>
    decreases w.len(),
{
    if w.len() == 0 {
        Seq::empty()
    } else {
        spec_words_body(w.drop_last()) + le64(w.last())
    }
}

/// The body of one container.
pub open spec fn spec_body(c: Container) -> Seq<u8> {
    match c.store {
        Store::Array(a) => spec_array_body(a@),
        Store::Bitmap(b) => spec_words_body(b@),
    }
}

/// The byte size of one container's body.
pub open spec fn body_size(c: Container) -> int {
    if c.store is Array {
        2 * c.len
    } else {
        8192
    }
}

/// The descriptors of the first `n` containers: key and population less
/// one, two bytes each.
pub open spec fn spec_desc(s: Seq<Container>, n: int) -> Seq<u8>
    decreases n,
{
    if n <= 0 {
        Seq::empty()
    } else {
        spec_desc(s, n - 1) + le16(s[n - 1].key) + le16((s[n - 1].len - 1) as u16)
    }
}

/// The total size of the first `n` bodies.
pub open spec fn bodies_size(s: Seq<Container>, n: int) -> int
    decreases n,
{
    if n <= 0 {
        0
    } else {
        bodies_size(s, n - 1) + body_size(s[n - 1])
    }
}

/// The bytes before the first body: cookie, count, descriptors, and the
/// offset table once four containers call for one.
pub open spec fn header_size(n: int) -> int {
    6 + 4 * n + if n >= 4 {
        4 * n
    } else {
        0int
    }
}

/// The offset table: where each body starts, from the head of the
/// stream.
pub open spec fn spec_offsets(s: Seq<Container>, n: int) -> Seq<u8>
    decreases n,
{
    if n <= 0 {
        Seq::empty()
    } else {
        spec_offsets(s, n - 1) + le32((header_size(s.len() as int) + bodies_size(s, n - 1)) as u32)
    }
}

/// The count field: the container count less one; an empty bitmap writes
/// the all-ones field and nothing after it.
pub open spec fn spec_count_field(n: int) -> u16 {
    if n == 0 {
        0xFFFF
    } else {
        (n - 1) as u16
    }
}

/// The bodies of the first `n` containers, in order.
pub open spec fn spec_bodies(s: Seq<Container>, n: int) -> Seq<u8>
    decreases n,
{
    if n <= 0 {
        Seq::empty()
    } else {
        spec_bodies(s, n - 1) + spec_body(s[n - 1])
    }
}

/// The whole stream of a container sequence.
pub open spec fn spec_serialize(s: Seq<Container>) -> Seq<u8> {
    le32(SERIAL_COOKIE_NO_RUNS) + le16(spec_count_field(s.len() as int)) + spec_desc(
        s,
        s.len() as int,
    ) + (if s.len() >= 4 {
        spec_offsets(s, s.len() as int)
    } else {
        Seq::empty()
    }) + spec_bodies(s, s.len() as int)
}

/// The predicted size of the whole stream.
pub open spec fn spec_size(s: Seq<Container>) -> int {
    header_size(s.len() as int) + bodies_size(s, s.len() as int)
}

/// A sparse body is two bytes per element.
proof fn lemma_array_body_len(s: Seq<u16>)
    ensures
        spec_array_body(s).len() == 2 * s.len(),
    decreases s.len(),
{
    if s.len() > 0 {
        lemma_array_body_len(s.drop_last());
    }
}

/// A dense body is eight bytes per word.
proof fn lemma_words_body_len(w: Seq<u64>)
    ensures
        spec_words_body(w).len() == 8 * w.len(),
    decreases w.len(),
{
    if w.len() > 0 {
        lemma_words_body_len(w.drop_last());
    }
}

/// Each well-formed container's body takes exactly its declared size.
proof fn lemma_body_len(c: Container)
    requires
        c.wf(),
    ensures
        spec_body(c).len() == body_size(c),
{
    match c.store {
        Store::Array(a) => {
            lemma_array_body_len(a@);
        },
        Store::Bitmap(b) => {
            lemma_words_body_len(b@);
        },
    }
}

proof fn lemma_desc_len(s: Seq<Container>, n: int)
    requires
        0 <= n,
    ensures
        spec_desc(s, n).len() == 4 * n,
    decreases n,
{
    if n > 0 {
        lemma_desc_len(s, n - 1);
    }
}

proof fn lemma_offsets_len(s: Seq<Container>, n: int)
    requires
        0 <= n,
    ensures
        spec_offsets(s, n).len() == 4 * n,
    decreases n,
{
    if n > 0 {
        lemma_offsets_len(s, n - 1);
    }
}

proof fn lemma_bodies_len(s: Seq<Container>, n: int)
    requires
        0 <= n <= s.len(),
        cs_wf(s),
    ensures
        spec_bodies(s, n).len() == bodies_size(s, n),
    decreases n,
{
    if n > 0 {
        lemma_bodies_len(s, n - 1);
        lemma_body_len(s[n - 1]);
    }
}

/// Bodies never outgrow the dense form.
proof fn lemma_bodies_size_bound(s: Seq<Container>, n: int)
    requires
        0 <= n <= s.len(),
        cs_wf(s),
    ensures
        0 <= bodies_size(s, n) <= 8192 * n,
    decreases n,
{
    if n > 0 {
        lemma_bodies_size_bound(s, n - 1);
        lemma_container_len_bound(&s[n - 1]);
        if s[n - 1].store is Array {
            assert(s[n - 1].len <= 4096);
        }
    }
}

/// The stream is exactly as long as the size the library predicts; the
/// prediction can be made without producing a byte.
pub proof fn lemma_serialized_len(s: Seq<Container>)
    requires
        cs_wf(s),
    ensures
        spec_serialize(s).len() == spec_size(s),
{
    lemma_desc_len(s, s.len() as int);
    lemma_offsets_len(s, s.len() as int);
    lemma_bodies_len(s, s.len() as int);
}

/// Deserialization recovered the very containers that were written:
/// same keys, same counts, same contents.
pub open spec fn same_containers(c: Seq<Container>, s: Seq<Container>) -> bool {
    c.len() == s.len() && forall|i: int|
        0 <= i < c.len() ==> crate::container::container_eq_spec(&(#[trigger] c[i]), &s[i])
}

/// The descriptor bytes of container `i` inside the descriptor block.
proof fn lemma_desc_at(s: Seq<Container>, n: int, i: int)
    requires
        0 <= i < n,
    ensures
        spec_desc(s, n).subrange(4 * i, 4 * i + 2) == le16(s[i].key),
        spec_desc(s, n).subrange(4 * i + 2, 4 * i + 4) == le16((s[i].len - 1) as u16),
    decreases n,
{
    lemma_desc_len(s, n);
    lemma_desc_len(s, n - 1);
    if i < n - 1 {
        lemma_desc_at(s, n - 1, i);
        assert(spec_desc(s, n).subrange(4 * i, 4 * i + 2) =~= spec_desc(s, n - 1).subrange(
            4 * i,
            4 * i + 2,
        ));
        assert(spec_desc(s, n).subrange(4 * i + 2, 4 * i + 4) =~= spec_desc(s, n - 1).subrange(
            4 * i + 2,
            4 * i + 4,
        ));
    } else {
        assert(spec_desc(s, n).subrange(4 * i, 4 * i + 2) =~= le16(s[i].key));
        assert(spec_desc(s, n).subrange(4 * i + 2, 4 * i + 4) =~= le16((s[i].len - 1) as u16));
    }
}

/// The body block only reads the first `n` containers.
proof fn lemma_bodies_stable(s: Seq<Container>, c: Container, n: int)
    requires
        0 <= n <= s.len(),
    ensures
        spec_bodies(s.push(c), n) == spec_bodies(s, n),
    decreases n,
{
    if n > 0 {
        lemma_bodies_stable(s, c, n - 1);
        assert(s.push(c)[n - 1] == s[n - 1]);
    }
}

/// Pointwise equal body sizes sum to equal block sizes.
proof fn lemma_bodies_size_eq(c: Seq<Container>, s: Seq<Container>, n: int)
    requires
        0 <= n <= c.len(),
        n <= s.len(),
        forall|m: int| 0 <= m < n ==> body_size(#[trigger] c[m]) == body_size(s[m]),
    ensures
        bodies_size(c, n) == bodies_size(s, n),
    decreases n,
{
    if n > 0 {
        lemma_bodies_size_eq(c, s, n - 1);
    }
}

/// Equal body blocks with aligned body sizes force equal bodies.
proof fn lemma_bodies_match(c: Seq<Container>, s: Seq<Container>, n: int)
    requires
        0 <= n <= c.len(),
        n <= s.len(),
        cs_wf(c),
        cs_wf(s),
        forall|m: int| 0 <= m < n ==> body_size(#[trigger] c[m]) == body_size(s[m]),
        spec_bodies(c, n) == spec_bodies(s, n),
    ensures
        forall|m: int| 0 <= m < n ==> spec_body(#[trigger] c[m]) == spec_body(s[m]),
    decreases n,
{
    if n > 0 {
        lemma_bodies_len(c, n);
        lemma_bodies_len(s, n);
        lemma_bodies_len(c, n - 1);
        lemma_bodies_len(s, n - 1);
        lemma_body_len(c[n - 1]);
        lemma_body_len(s[n - 1]);
        lemma_bodies_size_eq(c, s, n - 1);
        assert(spec_bodies(c, n - 1) =~= spec_bodies(s, n - 1)) by {
            assert(spec_bodies(c, n - 1) =~= spec_bodies(c, n).subrange(0, bodies_size(c, n - 1)));
            assert(spec_bodies(s, n - 1) =~= spec_bodies(s, n).subrange(0, bodies_size(s, n - 1)));
        }
        lemma_bodies_match(c, s, n - 1);
        assert(spec_body(c[n - 1]) =~= spec_body(s[n - 1])) by {
            assert(spec_body(c[n - 1]) =~= spec_bodies(c, n).subrange(
                bodies_size(c, n - 1),
                bodies_size(c, n),
            ));
            assert(spec_body(s[n - 1]) =~= spec_bodies(s, n).subrange(
                bodies_size(s, n - 1),
                bodies_size(s, n),
            ));
        }
    }
}

/// Sparse bodies of equal length decode to equal values.
proof fn lemma_array_body_inj(x: Seq<u16>, y: Seq<u16>)
    requires
        x.len() == y.len(),
        spec_array_body(x) == spec_array_body(y),
    ensures
        x == y,
    decreases x.len(),
{
    if x.len() > 0 {
        lemma_array_body_len(x.drop_last());
        lemma_array_body_len(y.drop_last());
        assert(le16(x.last()) =~= le16(y.last())) by {
            let bx = spec_array_body(x);
            assert(le16(x.last()) =~= bx.subrange(bx.len() - 2, bx.len() as int));
            assert(le16(y.last()) =~= bx.subrange(bx.len() - 2, bx.len() as int));
        }
        crate::bytes::lemma_le16_injective(x.last(), y.last());
        assert(spec_array_body(x.drop_last()) =~= spec_array_body(y.drop_last())) by {
            let bx = spec_array_body(x);
            assert(spec_array_body(x.drop_last()) =~= bx.subrange(0, bx.len() - 2));
            assert(spec_array_body(y.drop_last()) =~= bx.subrange(0, bx.len() - 2));
        }
        lemma_array_body_inj(x.drop_last(), y.drop_last());
        assert(x =~= y) by {
            assert(forall|i: int|
                0 <= i < x.len() - 1 ==> #[trigger] x[i] == x.drop_last()[i] && y[i]
                    == y.drop_last()[i]);
        }
    } else {
        assert(x =~= y);
    }
}

/// Dense bodies decode to equal words.
proof fn lemma_words_body_inj(x: Seq<u64>, y: Seq<u64>)
    requires
        x.len() == y.len(),
        spec_words_body(x) == spec_words_body(y),
    ensures
        x == y,
    decreases x.len(),
{
    if x.len() > 0 {
        lemma_words_body_len(x.drop_last());
        lemma_words_body_len(y.drop_last());
        assert(le64(x.last()) =~= le64(y.last())) by {
            let bx = spec_words_body(x);
            assert(le64(x.last()) =~= bx.subrange(bx.len() - 8, bx.len() as int));
            assert(le64(y.last()) =~= bx.subrange(bx.len() - 8, bx.len() as int));
        }
        crate::bytes::lemma_le64_injective(x.last(), y.last());
        assert(spec_words_body(x.drop_last()) =~= spec_words_body(y.drop_last())) by {
            let bx = spec_words_body(x);
            assert(spec_words_body(x.drop_last()) =~= bx.subrange(0, bx.len() - 8));
            assert(spec_words_body(y.drop_last()) =~= bx.subrange(0, bx.len() - 8));
        }
        lemma_words_body_inj(x.drop_last(), y.drop_last());
        assert(x =~= y) by {
            assert(forall|i: int|
                0 <= i < x.len() - 1 ==> #[trigger] x[i] == x.drop_last()[i] && y[i]
                    == y.drop_last()[i]);
        }
    } else {
        assert(x =~= y);
    }
}

impl RoaringBitmap {
    /// The exact byte length `serialize` will produce, computed from the
    /// shape alone.
    pub fn serialized_size(&self) -> (r: u64)
        requires
            self.wf(),
        ensures
            r == spec_size(self@),
            r == spec_serialize(self@).len(),
    {
        let ghost s = self@;
        let cs = self.containers_ref();
        let n = self.container_count();
        proof {
            lemma_keys_count(s);
            lemma_serialized_len(s);
        }
        let mut acc: u64 = 6 + 4 * (n as u64);
        if n >= 4 {
            acc = acc + 4 * (n as u64);
        }
        let mut i: usize = 0;
        while i < n
            invariant
                self.wf(),
                s == self@,
                cs@ == s,
                n == s.len(),
                n <= 65536,
                i <= n,
                acc == header_size(n as int) + bodies_size(s, i as int),
                acc <= 6 + 8 * 65536 + 8192 * i,
            decreases n - i,
        {
            proof {
                lemma_container_len_bound(&s[i as int]);
                lemma_bodies_size_bound(s, i as int);
            }
            let c_is_array = match &cs[i].store {
                Store::Array(..) => true,
                Store::Bitmap(..) => false,
            };
            if c_is_array {
                acc = acc + 2 * cs[i].len;
            } else {
                acc = acc + 8192;
            }
            i += 1;
        }
        acc
    }

    /// Write the whole bitmap in the portable layout without run
    /// containers.
    pub fn serialize(&self) -> (r: Vec<u8>)
        requires
            self.wf(),
        ensures
            r@ == spec_serialize(self@),
            r@.len() == spec_size(self@),
    {
        let ghost s = self@;
        let cs = self.containers_ref();
        let n = self.container_count();
        proof {
            lemma_keys_count(s);
            lemma_serialized_len(s);
        }
        let mut out: Vec<u8> = Vec::new();
        push_u32(&mut out, SERIAL_COOKIE_NO_RUNS);
        if n == 0 {
            push_u16(&mut out, 0xFFFF);
            proof {
                assert(out@ =~= spec_serialize(s));
            }
            return out;
        }
        push_u16(&mut out, (n - 1) as u16);
        let ghost prefix0 = out@;
        let mut i: usize = 0;
        while i < n
            invariant
                self.wf(),
                s == self@,
                cs@ == s,
                n == s.len(),
                1 <= n <= 65536,
                i <= n,
                prefix0 == le32(SERIAL_COOKIE_NO_RUNS) + le16(spec_count_field(n as int)),
                out@ == prefix0 + spec_desc(s, i as int),
            decreases n - i,
        {
            proof {
                lemma_container_len_bound(&s[i as int]);
                assert(s[i as int].wf());
            }
            push_u16(&mut out, cs[i].key);
            push_u16(&mut out, (cs[i].len - 1) as u16);
            proof {
                assert(out@ =~= prefix0 + spec_desc(s, i + 1));
            }
            i += 1;
        }
        let ghost prefix1 = out@;
        if n >= 4 {
            let mut off: u64 = 6 + 8 * (n as u64);
            let mut i2: usize = 0;
            while i2 < n
                invariant
                    self.wf(),
                    s == self@,
                    cs@ == s,
                    n == s.len(),
                    4 <= n <= 65536,
                    i2 <= n,
                    off == header_size(n as int) + bodies_size(s, i2 as int),
                    off <= 6 + 8 * 65536 + 8192 * i2,
                    prefix1 == le32(SERIAL_COOKIE_NO_RUNS) + le16(spec_count_field(n as int))
                        + spec_desc(s, n as int),
                    out@ == prefix1 + spec_offsets(s, i2 as int),
                decreases n - i2,
            {
                proof {
                    lemma_container_len_bound(&s[i2 as int]);
                    lemma_bodies_size_bound(s, i2 as int);
                }
                push_u32(&mut out, off as u32);
                proof {
                    assert(out@ =~= prefix1 + spec_offsets(s, i2 + 1));
                }
                let c_is_array = match &cs[i2].store {
                    Store::Array(..) => true,
                    Store::Bitmap(..) => false,
                };
                if c_is_array {
                    off = off + 2 * cs[i2].len;
                } else {
                    off = off + 8192;
                }
                i2 += 1;
            }
        }
        let ghost prefix2 = out@;
        proof {
            assert(prefix2 == le32(SERIAL_COOKIE_NO_RUNS) + le16(spec_count_field(n as int))
                + spec_desc(s, n as int) + (if s.len() >= 4 {
                spec_offsets(s, n as int)
            } else {
                Seq::<u8>::empty()
            })) by {
                if n < 4 {
                    assert(prefix2 =~= prefix1 + Seq::<u8>::empty());
                }
            }
        }
        let mut i3: usize = 0;
        while i3 < n
            invariant
                self.wf(),
                s == self@,
                cs@ == s,
                n == s.len(),
                1 <= n <= 65536,
                i3 <= n,
                prefix2 == le32(SERIAL_COOKIE_NO_RUNS) + le16(spec_count_field(n as int))
                    + spec_desc(s, n as int) + (if s.len() >= 4 {
                    spec_offsets(s, n as int)
                } else {
                    Seq::<u8>::empty()
                }),
                out@ == prefix2 + spec_bodies(s, i3 as int),
            decreases n - i3,
        {
            let ghost pre = out@;
            match &cs[i3].store {
                Store::Array(a) => {
                    write_array_body(&mut out, a);
                },
                Store::Bitmap(b) => {
                    write_words_body(&mut out, b);
                },
            }
            proof {
                assert(out@ =~= prefix2 + spec_bodies(s, i3 + 1));
            }
            i3 += 1;
        }
        proof {
            assert(out@ =~= spec_serialize(s));
        }
        out
    }
}

/// Append a sparse body.
fn write_array_body(out: &mut Vec<u8>, a: &ArrayStore)
    ensures
        final(out)@ == old(out)@ + spec_array_body(a@),
{
    let ghost o = out@;
    let s = a.as_slice();
    let mut k: usize = 0;
    while k < s.len()
        invariant
            s@ == a@,
            k <= a@.len(),
            out@ == o + spec_array_body(a@.take(k as int)),
        decreases a@.len() - k,
    {
        push_u16(out, s[k]);
        proof {
            assert(a@.take(k + 1).drop_last() =~= a@.take(k as int));
            assert(a@.take(k + 1).last() == a@[k as int]);
            assert(out@ =~= o + spec_array_body(a@.take(k + 1)));
        }
        k += 1;
    }
    proof {
        assert(a@.take(a@.len() as int) =~= a@);
    }
}

/// Append a dense body.
fn write_words_body(out: &mut Vec<u8>, b: &BitmapStore)
    requires
        b.wf(),
    ensures
        final(out)@ == old(out)@ + spec_words_body(b@),
{
    let ghost o = out@;
    let mut k: usize = 0;
    while k < 1024
        invariant
            b.wf(),
            k <= 1024,
            out@ == o + spec_words_body(b@.take(k as int)),
        decreases 1024 - k,
    {
        push_u64(out, b.word_at(k));
        proof {
            assert(b@.take(k + 1).drop_last() =~= b@.take(k as int));
            assert(b@.take(k + 1).last() == b@[k as int]);
            assert(out@ =~= o + spec_words_body(b@.take(k + 1)));
        }
        k += 1;
    }
    proof {
        assert(b@.take(b@.len() as int) =~= b@);
    }
}

impl RoaringBitmap {
    /// Read a bitmap back from either layout, validating everything the
    /// representation invariant needs; a failure returns the shape that
    /// was malformed and no partial bitmap.
    #[verifier::rlimit(100)]
    pub fn deserialize(bytes: &Vec<u8>) -> (r: Result<RoaringBitmap, DeserializeError>)
        ensures
            match r {
                Ok(rb) => rb.wf(),
                Err(..) => true,
            },
            forall|s: Seq<Container>|
                (cs_wf(s) && keys_sorted(s) && bytes@ == #[trigger] spec_serialize(s)) ==> (
                r is Ok && same_containers(r->Ok_0@, s)),
            r matches Err(DeserializeError::InvalidCookie) ==> bytes@.len() >= 6 && bytes@.subrange(
                0,
                2,
            ) != le16(SERIAL_COOKIE_RUNS) && bytes@.subrange(0, 4) != le32(SERIAL_COOKIE_NO_RUNS),
            r matches Err(DeserializeError::NonZeroRunFlag) ==> bytes@.len() >= 4 && bytes@.subrange(
                0,
                2,
            ) == le16(SERIAL_COOKIE_RUNS) && exists|f: int|
                4 <= f < 4 + (u16_of(bytes@[2], bytes@[3]) as int + 8) / 8 && f < bytes@.len()
                    && bytes@[f] != 0,
            r matches Err(DeserializeError::Truncated) ==> bytes@.len() < stream_needed_len(
                bytes@,
            ),
            r matches Err(DeserializeError::OutOfOrder) ==> (exists|m: int|
                0 <= m < stream_count(bytes@) - 1 && #[trigger] stream_key_at(bytes@, m)
                    >= stream_key_at(bytes@, m + 1)) || (exists|j2: int, x: int|
                0 <= j2 < stream_count(bytes@) && #[trigger] stream_pop_at(bytes@, j2) <= 4096 && 1
                    <= x < stream_pop_at(bytes@, j2) && u16_of(
                    bytes@[stream_body_start(bytes@, j2) + 2 * (x - 1)],
                    bytes@[stream_body_start(bytes@, j2) + 2 * (x - 1) + 1],
                ) >= #[trigger] u16_of(
                    bytes@[stream_body_start(bytes@, j2) + 2 * x],
                    bytes@[stream_body_start(bytes@, j2) + 2 * x + 1],
                )),
            r matches Err(DeserializeError::PopulationMismatch) ==> exists|j2: int|
                0 <= j2 < stream_count(bytes@) && #[trigger] stream_pop_at(bytes@, j2) > 4096
                    && total_pop(
                    stream_words_at(bytes@, stream_body_start(bytes@, j2)),
                    1024,
                ) != stream_pop_at(bytes@, j2),
    {
        let total = bytes.len();
        if total < 4 {
            proof {
                assert forall|ss: Seq<Container>|
                    cs_wf(ss) && keys_sorted(ss) && bytes@ == #[trigger] spec_serialize(
                        ss,
                    ) implies false by {
                    lemma_enc_shape(bytes@, ss);
                }
                lemma_stream_sum_mono(bytes@, 0, stream_count(bytes@));
                assert(stream_count(bytes@) >= 1);
                assert(total < stream_needed_len(bytes@));
            }
            return Err(DeserializeError::Truncated);
        }
        let low2 = read_u16(bytes, 0);
        let ghost mut cfield: u16 = 0;
        let mut pos: usize;
        let count: usize;
        if low2 == SERIAL_COOKIE_RUNS {
            proof {
                assert forall|ss: Seq<Container>|
                    cs_wf(ss) && keys_sorted(ss) && bytes@ == #[trigger] spec_serialize(
                        ss,
                    ) implies false by {
                    lemma_enc_shape(bytes@, ss);
                    crate::bytes::lemma_le16_injective(low2, 0x3B31u16);
                }
            }
            let stored = read_u16(bytes, 2);
            count = (stored as usize) + 1;
            pos = 4;
            let flag_bytes = (count + 7) / 8;
            if pos + flag_bytes > total {
                proof {
                    lemma_stream_sum_mono(bytes@, 0, stream_count(bytes@));
                    assert(stream_long(bytes@));
                    assert(stream_count(bytes@) == count);
                    assert(total < stream_needed_len(bytes@));
                }
                return Err(DeserializeError::Truncated);
            }
            let mut f: usize = 0;
            while f < flag_bytes
                invariant
                    pos + flag_bytes <= total,
                    total == bytes@.len(),
                    f <= flag_bytes,
                    pos == 4,
                    total >= 4,
                    le16(low2) == bytes@.subrange(0, 2),
                    low2 == SERIAL_COOKIE_RUNS,
                    count == u16_of(bytes@[2], bytes@[3]) as int + 1,
                    flag_bytes == (count + 7) / 8,
                decreases flag_bytes - f,
            {
                if bytes[pos + f] != 0 {
                    proof {
                        assert forall|ss: Seq<Container>|
                            cs_wf(ss) && keys_sorted(ss) && bytes@ == #[trigger] spec_serialize(
                                ss,
                            ) implies false by {
                            lemma_enc_shape(bytes@, ss);
                            crate::bytes::lemma_le16_injective(low2, 0x3B31u16);
                        }
                        assert(bytes@.subrange(0, 2) == le16(SERIAL_COOKIE_RUNS));
                        assert(exists|fi: int|
                            4 <= fi < 4 + (u16_of(bytes@[2], bytes@[3]) as int + 8) / 8 && fi
                                < bytes@.len() && bytes@[fi] != 0) by {
                            assert(4 <= 4 + f < 4 + (u16_of(bytes@[2], bytes@[3]) as int + 8) / 8
                                && 4 + f < bytes@.len() && bytes@[4 + f] != 0);
                        }
                    }
                    return Err(DeserializeError::NonZeroRunFlag);
                }
                f += 1;
            }
            pos = pos + flag_bytes;
        } else {
            if total < 6 {
                proof {
                    assert forall|ss: Seq<Container>|
                        cs_wf(ss) && keys_sorted(ss) && bytes@ == #[trigger] spec_serialize(
                            ss,
                        ) implies false by {
                        lemma_enc_shape(bytes@, ss);
                    }
                    lemma_stream_sum_mono(bytes@, 0, stream_count(bytes@));
                    assert(!stream_long(bytes@));
                    assert(stream_count(bytes@) >= 1);
                    assert(total < stream_needed_len(bytes@));
                }
                return Err(DeserializeError::Truncated);
            }
            let hi2 = read_u16(bytes, 2);
            if !(low2 == 0x3B31 && hi2 == 0) {
                proof {
                    assert forall|ss: Seq<Container>|
                        cs_wf(ss) && keys_sorted(ss) && bytes@ == #[trigger] spec_serialize(
                            ss,
                        ) implies false by {
                        lemma_enc_shape(bytes@, ss);
                        crate::bytes::lemma_le16_injective(low2, 0x3B31u16);
                        crate::bytes::lemma_le16_injective(hi2, 0u16);
                    }
                    assert((0x00003B31u32 & 0xFF) as u8 == (0x3B31u16 & 0xFF) as u8 && ((
                    0x00003B31u32 >> 8) & 0xFF) as u8 == (0x3B31u16 >> 8) as u8 && ((0x00003B31u32
                        >> 16) & 0xFF) as u8 == (0u16 & 0xFF) as u8 && ((0x00003B31u32 >> 24)
                        & 0xFF) as u8 == (0u16 >> 8) as u8) by (bit_vector);
                    assert(bytes@.subrange(0, 2) != le16(SERIAL_COOKIE_RUNS)) by {
                        if bytes@.subrange(0, 2) == le16(SERIAL_COOKIE_RUNS) {
                            crate::bytes::lemma_le16_injective(low2, SERIAL_COOKIE_RUNS);
                        }
                    }
                    assert(bytes@.subrange(0, 4) != le32(SERIAL_COOKIE_NO_RUNS)) by {
                        if bytes@.subrange(0, 4) == le32(SERIAL_COOKIE_NO_RUNS) {
                            assert(le16(low2) =~= le16(0x3B31u16)) by {
                                assert(le16(low2)[0] == bytes@[0] && le16(low2)[1] == bytes@[1]);
                                assert(bytes@[0] == le32(SERIAL_COOKIE_NO_RUNS)[0] && bytes@[1]
                                    == le32(SERIAL_COOKIE_NO_RUNS)[1]);
                            }
                            crate::bytes::lemma_le16_injective(low2, 0x3B31u16);
                            assert(le16(hi2) =~= le16(0u16)) by {
                                assert(le16(hi2)[0] == bytes@[2] && le16(hi2)[1] == bytes@[3]);
                                assert(bytes@[2] == le32(SERIAL_COOKIE_NO_RUNS)[2] && bytes@[3]
                                    == le32(SERIAL_COOKIE_NO_RUNS)[3]);
                            }
                            crate::bytes::lemma_le16_injective(hi2, 0u16);
                        }
                    }
                }
                return Err(DeserializeError::InvalidCookie);
            }
            let stored = read_u16(bytes, 4);
            if stored == 0xFFFF && total == 6 {
                let rb = RoaringBitmap::new();
                proof {
                    assert forall|s: Seq<Container>|
                        cs_wf(s) && keys_sorted(s) && bytes@ == spec_serialize(s) implies same_containers(
                        rb@,
                        s,
                    ) by {
                        lemma_serialized_len(s);
                        lemma_bodies_size_bound(s, s.len() as int);
                        if s.len() > 0 {
                            assert(total >= 6 + 4 * s.len());
                        }
                    }
                }
                return Ok(rb);
            }
            count = (stored as usize) + 1;
            proof {
                cfield = stored;
            }
            pos = 6;
        }
        proof {
            assert(stream_long(bytes@) == (low2 == SERIAL_COOKIE_RUNS));
            assert(count == stream_count(bytes@));
            assert(pos == stream_desc_start(bytes@));
        }
        // The descriptors: keys must ascend strictly.
        if count > 65536 || pos + 4 * count > total {
            proof {
                assert forall|ss: Seq<Container>|
                    cs_wf(ss) && keys_sorted(ss) && bytes@ == #[trigger] spec_serialize(
                        ss,
                    ) implies false by {
                    lemma_enc_shape(bytes@, ss);
                    crate::bytes::lemma_le16_injective(low2, 0x3B31u16);
                    crate::bytes::lemma_le16_injective(
                        cfield,
                        spec_count_field(ss.len() as int),
                    );
                    if ss.len() == 0 {
                        assert(bytes@.len() == 6);
                    }
                    assert(count == ss.len());
                }
                lemma_stream_sum_mono(bytes@, 0, stream_count(bytes@));
                assert(count <= 65536);
                assert(total < stream_needed_len(bytes@));
            }
            return Err(DeserializeError::Truncated);
        }
        let ghost dpos = pos as int;
        let mut keys: Vec<u16> = Vec::new();
        let mut pops: Vec<u32> = Vec::new();
        let mut i: usize = 0;
        while i < count
            invariant
                total == bytes@.len(),
                count <= 65536,
                dpos == pos,
                pos + 4 * count <= total,
                i <= count,
                keys@.len() == i,
                pops@.len() == i,
                crate::util::sorted_strict(keys@),
                le16(low2) == bytes@.subrange(0, 2),
                low2 != SERIAL_COOKIE_RUNS ==> le16(cfield) == bytes@.subrange(4, 6) && !(cfield
                    == 0xFFFF && total == 6) && count == cfield as int + 1 && dpos == 6,
                count == stream_count(bytes@),
                dpos == stream_desc_start(bytes@),
                forall|m: int| 0 <= m < i ==> 1 <= #[trigger] pops@[m] <= 65536,
                forall|m: int|
                    0 <= m < i ==> le16(#[trigger] keys@[m]) == bytes@.subrange(
                        dpos + 4 * m,
                        dpos + 4 * m + 2,
                    ) && le16(((pops@[m] - 1) as u16)) == bytes@.subrange(
                        dpos + 4 * m + 2,
                        dpos + 4 * m + 4,
                    ),
                forall|m: int| 0 <= m < i ==> (#[trigger] keys@[m]) == stream_key_at(bytes@, m),
                forall|m: int| 0 <= m < i ==> (#[trigger] pops@[m]) == stream_pop_at(bytes@, m),
            decreases count - i,
        {
            let key = read_u16(bytes, pos + 4 * i);
            let stored_pop = read_u16(bytes, pos + 4 * i + 2);
            let pop: u32 = (stored_pop as u32) + 1;
            if i > 0 && keys[i - 1] >= key {
                proof {
                    assert forall|ss: Seq<Container>|
                        cs_wf(ss) && keys_sorted(ss) && bytes@ == #[trigger] spec_serialize(
                            ss,
                        ) implies false by {
                        lemma_desc_order_site(
                            bytes@,
                            ss,
                            low2,
                            cfield,
                            count as int,
                            dpos,
                            keys@[i - 1],
                            key,
                            i as int,
                        );
                    }
                    assert(key == stream_key_at(bytes@, i as int));
                    assert(keys@[i - 1] == stream_key_at(bytes@, i - 1));
                    assert(exists|m: int|
                        0 <= m < stream_count(bytes@) - 1 && #[trigger] stream_key_at(bytes@, m)
                            >= stream_key_at(bytes@, m + 1)) by {
                        assert(0 <= i - 1 < stream_count(bytes@) - 1 && stream_key_at(
                            bytes@,
                            i - 1,
                        ) >= stream_key_at(bytes@, (i - 1) + 1));
                    }
                }
                return Err(DeserializeError::OutOfOrder);
            }
            proof {
                if keys@.len() > 0 {
                    assert forall|m: int, j: int|
                        0 <= m < j < keys@.len() + 1 implies (keys@.push(key)[m]) < (keys@.push(
                        key,
                    )[j]) by {
                        if j == keys@.len() {
                            assert(m < keys@.len() - 1 ==> keys@[m] < keys@[keys@.len() - 1]);
                        }
                    }
                }
            }
            keys.push(key);
            pops.push(pop);
            proof {
                assert(keys@[i as int] == key && pops@[i as int] == pop);
                assert(le16(key) == bytes@.subrange(dpos + 4 * i, dpos + 4 * i + 2));
                assert((pop - 1) as u16 == stored_pop);
                assert(le16(stored_pop) == bytes@.subrange(dpos + 4 * i + 2, dpos + 4 * i + 4));
                assert(key == stream_key_at(bytes@, i as int));
                assert(pop == stream_pop_at(bytes@, i as int));
            }
            i += 1;
        }
        pos = pos + 4 * count;
        // Skip the offset table of the short layout.
        if low2 != SERIAL_COOKIE_RUNS && count >= 4 {
            if pos + 4 * count > total {
                proof {
                    assert forall|ss: Seq<Container>|
                        cs_wf(ss) && keys_sorted(ss) && bytes@ == #[trigger] spec_serialize(
                            ss,
                        ) implies false by {
                        lemma_enc_shape(bytes@, ss);
                        crate::bytes::lemma_le16_injective(low2, 0x3B31u16);
                        crate::bytes::lemma_le16_injective(
                            cfield,
                            spec_count_field(ss.len() as int),
                        );
                        if ss.len() == 0 {
                            assert(bytes@.len() == 6);
                        }
                        assert(count == ss.len());
                    }
                    lemma_stream_sum_mono(bytes@, 0, stream_count(bytes@));
                    assert(!stream_long(bytes@) && stream_count(bytes@) >= 4);
                    assert(total < stream_needed_len(bytes@));
                }
                return Err(DeserializeError::Truncated);
            }
            pos = pos + 4 * count;
        }
        // The bodies, in order; the population decides the representation.
        let ghost bpos = pos as int;
        let mut containers: Vec<Container> = Vec::new();
        let mut j: usize = 0;
        while j < count
            invariant
                total == bytes@.len(),
                count <= 65536,
                0 <= bpos <= pos <= total,
                j <= count,
                keys@.len() == count,
                pops@.len() == count,
                crate::util::sorted_strict(keys@),
                forall|m: int| 0 <= m < count ==> 1 <= #[trigger] pops@[m] <= 65536,
                containers@.len() == j,
                cs_wf(containers@),
                keys_sorted(containers@),
                forall|m: int| 0 <= m < j ==> (#[trigger] containers@[m]).key == keys@[m],
                forall|m: int|
                    0 <= m < j ==> (#[trigger] containers@[m]).len == pops@[m] && ((
                    containers@[m].store is Array) <==> pops@[m] <= 4096),
                spec_bodies(containers@, j as int) == bytes@.subrange(bpos, pos as int),
                count == stream_count(bytes@),
                dpos == stream_desc_start(bytes@),
                forall|m: int| 0 <= m < count ==> (#[trigger] keys@[m]) == stream_key_at(
                    bytes@,
                    m,
                ),
                forall|m: int| 0 <= m < count ==> (#[trigger] pops@[m]) == stream_pop_at(
                    bytes@,
                    m,
                ),
                pos == stream_body_start(bytes@, j as int),
                le16(low2) == bytes@.subrange(0, 2),
                low2 != SERIAL_COOKIE_RUNS ==> le16(cfield) == bytes@.subrange(4, 6) && !(cfield
                    == 0xFFFF && total == 6) && count == cfield as int + 1 && dpos == 6 && bpos == 6
                    + 4 * (count as int) + (if count >= 4 {
                    4 * (count as int)
                } else {
                    0int
                }),
                forall|m: int|
                    0 <= m < count ==> le16(#[trigger] keys@[m]) == bytes@.subrange(
                        dpos + 4 * m,
                        dpos + 4 * m + 2,
                    ) && le16(((pops@[m] - 1) as u16)) == bytes@.subrange(
                        dpos + 4 * m + 2,
                        dpos + 4 * m + 4,
                    ),
            decreases count - j,
        {
            let ghost pos0 = pos as int;
            let key = keys[j];
            let pop = pops[j];
            let c: Container;
            if pop <= 4096 {
                let body_len = 2 * (pop as usize);
                if body_len > total - pos {
                    proof {
                        assert forall|ss: Seq<Container>|
                            cs_wf(ss) && keys_sorted(ss) && bytes@ == #[trigger] spec_serialize(
                                ss,
                            ) implies false by {
                            assert(forall|m: int|
                                0 <= m < count ==> le16(#[trigger] keys@[m]) == bytes@.subrange(
                                    dpos + 4 * m,
                                    dpos + 4 * m + 2,
                                ) && le16(((pops@[m] - 1) as u16)) == bytes@.subrange(
                                    dpos + 4 * m + 2,
                                    dpos + 4 * m + 4,
                                ));
                            lemma_body_site(
                                bytes@,
                                ss,
                                low2,
                                cfield,
                                count as int,
                                dpos,
                                bpos,
                                pos as int,
                                keys@,
                                pops@,
                                containers@,
                                j as int,
                            );
                        }
                        lemma_stream_sum_mono(bytes@, j + 1, stream_count(bytes@));
                        assert(stream_body_size(bytes@, j as int) == 2 * pop);
                        assert(total < stream_needed_len(bytes@));
                    }
                    return Err(DeserializeError::Truncated);
                }
                let mut vals: Vec<u16> = Vec::new();
                let mut k: usize = 0;
                while k < pop as usize
                    invariant
                        total == bytes@.len(),
                        pop <= 4096,
                        pos + 2 * pop <= total,
                        k <= pop,
                        vals@.len() == k,
                        spec_array_body(vals@) == bytes@.subrange(pos as int, pos + 2 * k),
                        forall|i2: int|
                            0 <= i2 < k ==> #[trigger] vals@[i2] == u16_of(
                                bytes@[pos + 2 * i2],
                                bytes@[pos + 2 * i2 + 1],
                            ),
                    decreases pop - k,
                {
                    let v = read_u16(bytes, pos + 2 * k);
                    proof {
                        assert(vals@.push(v).drop_last() =~= vals@);
                        assert(spec_array_body(vals@.push(v)) =~= bytes@.subrange(
                            pos as int,
                            pos + 2 * (k + 1),
                        ));
                        assert(vals@.push(v)[k as int] == v);
                    }
                    vals.push(v);
                    k += 1;
                }
                pos = pos + body_len;
                let ghost gvals = vals@;
                let arr = match ArrayStore::try_from_vec(vals) {
                    Ok(a) => a,
                    Err(e) => {
                        proof {
                            assert forall|ss: Seq<Container>|
                                cs_wf(ss) && keys_sorted(ss) && bytes@
                                    == #[trigger] spec_serialize(ss) implies false by {
                                assert(forall|m: int|
                                0 <= m < count ==> le16(#[trigger] keys@[m]) == bytes@.subrange(
                                    dpos + 4 * m,
                                    dpos + 4 * m + 2,
                                ) && le16(((pops@[m] - 1) as u16)) == bytes@.subrange(
                                    dpos + 4 * m + 2,
                                    dpos + 4 * m + 4,
                                ));
                            lemma_body_site(
                                    bytes@,
                                    ss,
                                    low2,
                                    cfield,
                                    count as int,
                                    dpos,
                                    bpos,
                                    pos0,
                                    keys@,
                                    pops@,
                                    containers@,
                                    j as int,
                                );
                                assert(ss[j as int].store is Array);
                                assert(spec_array_body(gvals) == bytes@.subrange(
                                    pos0,
                                    pos0 + 2 * (pops@[j as int] as int),
                                ));
                                match ss[j as int].store {
                                    Store::Array(a2) => {
                                        assert(spec_array_body(gvals) == spec_array_body(a2@));
                                        assert(ss[j as int].wf());
                                        lemma_array_body_inj(gvals, a2@);
                                        assert(crate::util::sorted_strict(gvals));
                                    },
                                    Store::Bitmap(..) => {
                                        assert(false);
                                    },
                                }
                            }
                            assert(e.kind is Duplicate || e.kind is OutOfOrder);
                            assert(gvals[e.index - 1] >= gvals[e.index as int]);
                            assert(gvals[e.index - 1] == u16_of(
                                bytes@[pos0 + 2 * (e.index - 1)],
                                bytes@[pos0 + 2 * (e.index - 1) + 1],
                            ));
                            assert(gvals[e.index as int] == u16_of(
                                bytes@[pos0 + 2 * (e.index as int)],
                                bytes@[pos0 + 2 * (e.index as int) + 1],
                            ));
                            assert(pos0 == stream_body_start(bytes@, j as int));
                            assert(pop == stream_pop_at(bytes@, j as int));
                            assert(exists|j2: int, x: int|
                                0 <= j2 < stream_count(bytes@) && #[trigger] stream_pop_at(
                                    bytes@,
                                    j2,
                                ) <= 4096 && 1 <= x < stream_pop_at(bytes@, j2) && u16_of(
                                    bytes@[stream_body_start(bytes@, j2) + 2 * (x - 1)],
                                    bytes@[stream_body_start(bytes@, j2) + 2 * (x - 1) + 1],
                                ) >= #[trigger] u16_of(
                                    bytes@[stream_body_start(bytes@, j2) + 2 * x],
                                    bytes@[stream_body_start(bytes@, j2) + 2 * x + 1],
                                )) by {
                                assert(0 <= (j as int) < stream_count(bytes@) && stream_pop_at(
                                    bytes@,
                                    j as int,
                                ) <= 4096 && 1 <= (e.index as int) < stream_pop_at(bytes@, j as int)
                                    && u16_of(
                                    bytes@[stream_body_start(bytes@, j as int) + 2 * (e.index
                                        - 1)],
                                    bytes@[stream_body_start(bytes@, j as int) + 2 * (e.index - 1)
                                        + 1],
                                ) >= u16_of(
                                    bytes@[stream_body_start(bytes@, j as int) + 2 * (
                                    e.index as int)],
                                    bytes@[stream_body_start(bytes@, j as int) + 2 * (
                                    e.index as int) + 1],
                                ));
                            }
                        }
                        return Err(DeserializeError::OutOfOrder);
                    },
                };
                c = Container { key, len: pop as u64, store: Store::Array(arr) };
                proof {
                    assert(c.wf());
                    assert(spec_body(c) =~= bytes@.subrange(pos0, pos as int));
                }
            } else {
                if 8192 > total - pos {
                    proof {
                        assert forall|ss: Seq<Container>|
                            cs_wf(ss) && keys_sorted(ss) && bytes@ == #[trigger] spec_serialize(
                                ss,
                            ) implies false by {
                            assert(forall|m: int|
                                0 <= m < count ==> le16(#[trigger] keys@[m]) == bytes@.subrange(
                                    dpos + 4 * m,
                                    dpos + 4 * m + 2,
                                ) && le16(((pops@[m] - 1) as u16)) == bytes@.subrange(
                                    dpos + 4 * m + 2,
                                    dpos + 4 * m + 4,
                                ));
                            lemma_body_site(
                                bytes@,
                                ss,
                                low2,
                                cfield,
                                count as int,
                                dpos,
                                bpos,
                                pos as int,
                                keys@,
                                pops@,
                                containers@,
                                j as int,
                            );
                        }
                        lemma_stream_sum_mono(bytes@, j + 1, stream_count(bytes@));
                        assert(stream_body_size(bytes@, j as int) == 8192);
                        assert(total < stream_needed_len(bytes@));
                    }
                    return Err(DeserializeError::Truncated);
                }
                let mut words: Vec<u64> = Vec::new();
                let mut k: usize = 0;
                while k < 1024
                    invariant
                        total == bytes@.len(),
                        pos + 8192 <= total,
                        k <= 1024,
                        words@.len() == k,
                        spec_words_body(words@) == bytes@.subrange(pos as int, pos + 8 * k),
                        forall|i2: int|
                            0 <= i2 < k ==> #[trigger] words@[i2] == u64_of(
                                bytes@[pos + 8 * i2],
                                bytes@[pos + 8 * i2 + 1],
                                bytes@[pos + 8 * i2 + 2],
                                bytes@[pos + 8 * i2 + 3],
                                bytes@[pos + 8 * i2 + 4],
                                bytes@[pos + 8 * i2 + 5],
                                bytes@[pos + 8 * i2 + 6],
                                bytes@[pos + 8 * i2 + 7],
                            ),
                    decreases 1024 - k,
                {
                    let w = read_u64(bytes, pos + 8 * k);
                    proof {
                        assert(words@.push(w).drop_last() =~= words@);
                        assert(spec_words_body(words@.push(w)) =~= bytes@.subrange(
                            pos as int,
                            pos + 8 * (k + 1),
                        ));
                        assert(words@.push(w)[k as int] == w);
                    }
                    words.push(w);
                    k += 1;
                }
                pos = pos + 8192;
                let ghost gwords = words@;
                let bm = BitmapStore::from_words(words);
                if bm.len() != pop as u64 {
                    proof {
                        assert forall|ss: Seq<Container>|
                            cs_wf(ss) && keys_sorted(ss) && bytes@ == #[trigger] spec_serialize(
                                ss,
                            ) implies false by {
                            assert(forall|m: int|
                                0 <= m < count ==> le16(#[trigger] keys@[m]) == bytes@.subrange(
                                    dpos + 4 * m,
                                    dpos + 4 * m + 2,
                                ) && le16(((pops@[m] - 1) as u16)) == bytes@.subrange(
                                    dpos + 4 * m + 2,
                                    dpos + 4 * m + 4,
                                ));
                            lemma_body_site(
                                bytes@,
                                ss,
                                low2,
                                cfield,
                                count as int,
                                dpos,
                                bpos,
                                pos0,
                                keys@,
                                pops@,
                                containers@,
                                j as int,
                            );
                            assert(ss[j as int].store is Bitmap);
                            assert(spec_words_body(gwords) == bytes@.subrange(pos0, pos0 + 8192));
                            match ss[j as int].store {
                                Store::Bitmap(b2) => {
                                    assert(ss[j as int].wf());
                                    assert(spec_words_body(gwords) == spec_words_body(b2@));
                                    lemma_words_body_inj(gwords, b2@);
                                    assert(bm.len_spec() == ss[j as int].len);
                                },
                                Store::Array(..) => {
                                    assert(false);
                                },
                            }
                        }
                        assert(gwords =~= stream_words_at(bytes@, pos0)) by {
                            assert forall|i2: int|
                                0 <= i2 < 1024 implies gwords[i2] == stream_words_at(
                                bytes@,
                                pos0,
                            )[i2] by {
                                assert(gwords[i2] == u64_of(
                                    bytes@[pos0 + 8 * i2],
                                    bytes@[pos0 + 8 * i2 + 1],
                                    bytes@[pos0 + 8 * i2 + 2],
                                    bytes@[pos0 + 8 * i2 + 3],
                                    bytes@[pos0 + 8 * i2 + 4],
                                    bytes@[pos0 + 8 * i2 + 5],
                                    bytes@[pos0 + 8 * i2 + 6],
                                    bytes@[pos0 + 8 * i2 + 7],
                                ));
                            }
                        }
                        assert(pos0 == stream_body_start(bytes@, j as int));
                        assert(pop == stream_pop_at(bytes@, j as int));
                        assert(bm.len_spec() == total_pop(bm@, 1024) && bm@ == gwords);
                        assert(exists|j2: int|
                            0 <= j2 < stream_count(bytes@) && #[trigger] stream_pop_at(bytes@, j2)
                                > 4096 && total_pop(
                                stream_words_at(bytes@, stream_body_start(bytes@, j2)),
                                1024,
                            ) != stream_pop_at(bytes@, j2)) by {
                            assert(0 <= (j as int) < stream_count(bytes@) && stream_pop_at(
                                bytes@,
                                j as int,
                            ) > 4096 && total_pop(
                                stream_words_at(bytes@, stream_body_start(bytes@, j as int)),
                                1024,
                            ) != stream_pop_at(bytes@, j as int));
                        }
                    }
                    return Err(DeserializeError::PopulationMismatch);
                }
                c = Container { key, len: pop as u64, store: Store::Bitmap(bm) };
                proof {
                    assert(c.wf());
                    assert(spec_body(c) =~= bytes@.subrange(pos0, pos as int));
                }
            }
            proof {
                assert forall|m: int, m2: int|
                    0 <= m < m2 < containers@.push(c).len() implies (containers@.push(c)[m]).key
                    < (containers@.push(c)[m2]).key by {
                    if m2 == containers@.len() {
                        assert(containers@[m].key == keys@[m]);
                        assert(keys@[m] < keys@[j as int]);
                    }
                }
                lemma_bodies_stable(containers@, c, j as int);
                assert(0 <= bpos <= pos0 <= pos as int <= total as int);
                assert(bytes@.subrange(bpos, pos as int) =~= bytes@.subrange(bpos, pos0)
                    + bytes@.subrange(pos0, pos as int));
                assert(spec_bodies(containers@.push(c), j + 1) =~= bytes@.subrange(
                    bpos,
                    pos as int,
                ));
            }
            containers.push(c);
            j += 1;
        }
        let ghost parsed = containers@;
        let rb = RoaringBitmap::from_container_vec(containers);
        proof {
            assert(forall|m: int|
                0 <= m < parsed.len() ==> le16(#[trigger] keys@[m]) == bytes@.subrange(
                    dpos + 4 * m,
                    dpos + 4 * m + 2,
                ) && le16(((pops@[m] - 1) as u16)) == bytes@.subrange(
                    dpos + 4 * m + 2,
                    dpos + 4 * m + 4,
                ));
            assert forall|s: Seq<Container>|
                cs_wf(s) && keys_sorted(s) && bytes@ == #[trigger] spec_serialize(
                    s,
                ) implies same_containers(rb@, s) by {
                lemma_roundtrip_recovers(
                    bytes@,
                    s,
                    low2,
                    cfield,
                    dpos,
                    bpos,
                    pos as int,
                    keys@,
                    pops@,
                    parsed,
                );
            }
        }
        Ok(rb)
    }
}

/// The shape every exact encoding has: its length, its cookie, and its
/// count field.
#[verifier::rlimit(100)]
proof fn lemma_enc_shape(bytes: Seq<u8>, s: Seq<Container>)
    requires
        cs_wf(s),
        keys_sorted(s),
        bytes == spec_serialize(s),
    ensures
        bytes.len() == spec_size(s),
        bytes.len() >= 6 + 4 * s.len(),
        s.len() >= 4 ==> bytes.len() >= 6 + 8 * s.len(),
        s.len() == 0 ==> bytes.len() == 6,
        bytes.subrange(0, 2) == le16(0x3B31u16),
        bytes.subrange(2, 4) == le16(0u16),
        bytes.subrange(4, 6) == le16(spec_count_field(s.len() as int)),
        s.len() <= 65536,
{
    let n = s.len() as int;
    lemma_serialized_len(s);
    lemma_desc_len(s, n);
    lemma_offsets_len(s, n);
    lemma_bodies_len(s, n);
    lemma_bodies_size_bound(s, n);
    lemma_keys_count(s);
    assert((0x00003B31u32 & 0xFF) as u8 == (0x3B31u16 & 0xFF) as u8 && ((0x00003B31u32 >> 8)
        & 0xFF) as u8 == (0x3B31u16 >> 8) as u8 && ((0x00003B31u32 >> 16) & 0xFF) as u8 == (0u16
        & 0xFF) as u8 && ((0x00003B31u32 >> 24) & 0xFF) as u8 == (0u16 >> 8) as u8)
        by (bit_vector);
    assert(bytes.subrange(0, 2) =~= le16(0x3B31u16));
    assert(bytes.subrange(2, 4) =~= le16(0u16));
    assert(bytes.subrange(4, 6) =~= le16(spec_count_field(n)));
}

/// The descriptor bytes of an exact encoding, at their absolute
/// positions.
#[verifier::rlimit(100)]
proof fn lemma_enc_desc(bytes: Seq<u8>, s: Seq<Container>, m: int)
    requires
        cs_wf(s),
        keys_sorted(s),
        bytes == spec_serialize(s),
        0 <= m < s.len(),
    ensures
        bytes.subrange(6 + 4 * m, 6 + 4 * m + 2) == le16(s[m].key),
        bytes.subrange(6 + 4 * m + 2, 6 + 4 * m + 4) == le16((s[m].len - 1) as u16),
{
    let n = s.len() as int;
    lemma_serialized_len(s);
    lemma_desc_len(s, n);
    lemma_desc_at(s, n, m);
    assert(bytes.subrange(6 + 4 * m, 6 + 4 * m + 2) =~= spec_desc(s, n).subrange(
        4 * m,
        4 * m + 2,
    ));
    assert(bytes.subrange(6 + 4 * m + 2, 6 + 4 * m + 4) =~= spec_desc(s, n).subrange(
        4 * m + 2,
        4 * m + 4,
    ));
}

/// Body sizes accumulate monotonically.
proof fn lemma_bodies_mono(s: Seq<Container>, a: int, b: int)
    requires
        cs_wf(s),
        0 <= a <= b <= s.len(),
    ensures
        bodies_size(s, a) <= bodies_size(s, b),
    decreases b,
{
    if a < b {
        lemma_bodies_mono(s, a, b - 1);
        assert(s[b - 1].wf());
    }
}

/// The body bytes of container `j` inside the body block.
proof fn lemma_body_at(s: Seq<Container>, n: int, j: int)
    requires
        cs_wf(s),
        0 <= j < n <= s.len(),
    ensures
        spec_bodies(s, n).subrange(bodies_size(s, j), bodies_size(s, j) + body_size(s[j]))
            == spec_body(s[j]),
    decreases n,
{
    lemma_bodies_len(s, n);
    lemma_bodies_len(s, n - 1);
    lemma_body_len(s[j]);
    lemma_body_len(s[n - 1]);
    if j < n - 1 {
        lemma_bodies_mono(s, 0, j);
        lemma_bodies_mono(s, j + 1, n - 1);
        assert(bodies_size(s, j) + body_size(s[j]) == bodies_size(s, j + 1));
        lemma_body_at(s, n - 1, j);
        assert(spec_bodies(s, n).subrange(bodies_size(s, j), bodies_size(s, j) + body_size(s[j]))
            =~= spec_bodies(s, n - 1).subrange(
            bodies_size(s, j),
            bodies_size(s, j) + body_size(s[j]),
        ));
    } else {
        assert(spec_bodies(s, n).subrange(bodies_size(s, j), bodies_size(s, j) + body_size(s[j]))
            =~= spec_body(s[j]));
    }
}

/// The body bytes of an exact encoding, at their absolute positions.
#[verifier::rlimit(100)]
proof fn lemma_enc_body(bytes: Seq<u8>, s: Seq<Container>, j: int)
    requires
        cs_wf(s),
        keys_sorted(s),
        bytes == spec_serialize(s),
        0 <= j < s.len(),
    ensures
        bytes.subrange(
            header_size(s.len() as int) + bodies_size(s, j),
            header_size(s.len() as int) + bodies_size(s, j) + body_size(s[j]),
        ) == spec_body(s[j]),
        header_size(s.len() as int) + bodies_size(s, j) + body_size(s[j]) <= bytes.len(),
{
    let n = s.len() as int;
    lemma_serialized_len(s);
    lemma_desc_len(s, n);
    lemma_offsets_len(s, n);
    lemma_bodies_len(s, n);
    lemma_body_at(s, n, j);
    lemma_body_len(s[j]);
    lemma_bodies_mono(s, j + 1, n);
    lemma_bodies_mono(s, 0, j);
    assert(bodies_size(s, j) + body_size(s[j]) == bodies_size(s, j + 1));
    assert((le32(SERIAL_COOKIE_NO_RUNS) + le16(spec_count_field(n)) + spec_desc(s, n) + (
    if s.len() >= 4 {
        spec_offsets(s, n)
    } else {
        Seq::<u8>::empty()
    })).len() == header_size(n));
    assert(bytes.subrange(
        header_size(n) + bodies_size(s, j),
        header_size(n) + bodies_size(s, j) + body_size(s[j]),
    ) =~= spec_bodies(s, n).subrange(bodies_size(s, j), bodies_size(s, j) + body_size(s[j])));
}

/// At a descriptor step of an exact encoding the keys ascend.
proof fn lemma_desc_order_site(
    bytes: Seq<u8>,
    ss: Seq<Container>,
    low2: u16,
    cfield: u16,
    count: int,
    dpos: int,
    prev_key: u16,
    key: u16,
    i: int,
)
    requires
        cs_wf(ss),
        keys_sorted(ss),
        bytes == spec_serialize(ss),
        le16(low2) == bytes.subrange(0, 2),
        low2 != SERIAL_COOKIE_RUNS ==> le16(cfield) == bytes.subrange(4, 6) && !(cfield == 0xFFFF
            && bytes.len() == 6) && count == cfield as int + 1 && dpos == 6,
        1 <= i < count,
        le16(prev_key) == bytes.subrange(dpos + 4 * (i - 1), dpos + 4 * (i - 1) + 2),
        le16(key) == bytes.subrange(dpos + 4 * i, dpos + 4 * i + 2),
    ensures
        prev_key < key,
{
    lemma_enc_shape(bytes, ss);
    crate::bytes::lemma_le16_injective(low2, 0x3B31u16);
    crate::bytes::lemma_le16_injective(cfield, spec_count_field(ss.len() as int));
    if ss.len() == 0 {
        assert(bytes.len() == 6);
    }
    assert(count == ss.len());
    lemma_enc_desc(bytes, ss, i - 1);
    lemma_enc_desc(bytes, ss, i);
    crate::bytes::lemma_le16_injective(prev_key, ss[i - 1].key);
    crate::bytes::lemma_le16_injective(key, ss[i].key);
    assert(ss[i - 1].key < ss[i].key);
}

/// What must hold at a body-parsing step of an exact encoding: the
/// stream is the short layout, the descriptors named the written keys
/// and counts, and the next body sits fully inside the stream.
proof fn lemma_body_site(
    bytes: Seq<u8>,
    ss: Seq<Container>,
    low2: u16,
    cfield: u16,
    count: int,
    dpos: int,
    bpos: int,
    pos: int,
    keys: Seq<u16>,
    pops: Seq<u32>,
    parsed: Seq<Container>,
    j: int,
)
    requires
        cs_wf(ss),
        keys_sorted(ss),
        bytes == spec_serialize(ss),
        le16(low2) == bytes.subrange(0, 2),
        low2 != SERIAL_COOKIE_RUNS ==> le16(cfield) == bytes.subrange(4, 6) && !(cfield == 0xFFFF
            && bytes.len() == 6) && count == cfield as int + 1 && dpos == 6 && bpos == 6 + 4 * count
            + (if count >= 4 {
            4 * count
        } else {
            0int
        }),
        keys.len() == count,
        pops.len() == count,
        forall|m: int|
            0 <= m < count ==> le16(#[trigger] keys[m]) == bytes.subrange(
                dpos + 4 * m,
                dpos + 4 * m + 2,
            ) && le16(((pops[m] - 1) as u16)) == bytes.subrange(
                dpos + 4 * m + 2,
                dpos + 4 * m + 4,
            ),
        forall|m: int| 0 <= m < count ==> 1 <= #[trigger] pops[m] <= 65536,
        cs_wf(parsed),
        parsed.len() == j,
        0 <= j < count,
        forall|m: int|
            0 <= m < j ==> (#[trigger] parsed[m]).len == pops[m] && ((parsed[m].store is Array)
                <==> pops[m] <= 4096),
        spec_bodies(parsed, j) == bytes.subrange(bpos, pos),
        0 <= bpos <= pos <= bytes.len(),
    ensures
        count == ss.len(),
        1 <= ss.len() <= 65536,
        forall|m: int| 0 <= m < count ==> #[trigger] keys[m] == ss[m].key && pops[m] == ss[m].len,
        bpos == header_size(ss.len() as int),
        pos == header_size(ss.len() as int) + bodies_size(ss, j),
        pos + body_size(ss[j]) <= bytes.len(),
        bytes.subrange(pos, pos + body_size(ss[j])) == spec_body(ss[j]),
        (ss[j].store is Array) <==> pops[j] <= 4096,
        ss[j].store is Array ==> body_size(ss[j]) == 2 * pops[j],
        ss[j].store is Bitmap ==> body_size(ss[j]) == 8192,
        ss[j].wf(),
{
    let n = ss.len() as int;
    lemma_enc_shape(bytes, ss);
    crate::bytes::lemma_le16_injective(low2, 0x3B31u16);
    assert(low2 != SERIAL_COOKIE_RUNS) by {
        assert(0x3B31u16 != 0x3B30u16);
    }
    crate::bytes::lemma_le16_injective(cfield, spec_count_field(n));
    assert(n >= 1) by {
        if n == 0 {
            assert(bytes.len() == 6);
        }
    }
    assert(count == n) by {
        assert(cfield == (n - 1) as u16);
    }
    assert forall|m: int| 0 <= m < count implies #[trigger] keys[m] == ss[m].key by {
        lemma_enc_desc(bytes, ss, m);
        crate::bytes::lemma_le16_injective(keys[m], ss[m].key);
    }
    assert forall|m: int| 0 <= m < count implies #[trigger] pops[m] == ss[m].len by {
        lemma_enc_desc(bytes, ss, m);
        lemma_container_len_bound(&ss[m]);
        assert(ss[m].wf());
        assert(le16(keys[m]) == bytes.subrange(dpos + 4 * m, dpos + 4 * m + 2));
        crate::bytes::lemma_le16_injective(((pops[m] - 1) as u16), ((ss[m].len - 1) as u16));
    }
    assert(bpos == header_size(n));
    assert(ss[j].wf());
    assert(pops[j] == ss[j].len);
    assert((ss[j].store is Array) <==> ss[j].len <= 4096);
    assert forall|m: int|
        0 <= m < j implies body_size(#[trigger] parsed[m]) == body_size(ss[m]) by {
        assert(ss[m].wf());
        assert((ss[m].store is Array) <==> ss[m].len <= 4096);
        assert(parsed[m].len == pops[m] && ((parsed[m].store is Array) <==> pops[m] <= 4096));
        assert(pops[m] == ss[m].len);
    }
    lemma_bodies_size_eq(parsed, ss, j);
    lemma_bodies_len(parsed, j);
    assert(pos - bpos == bodies_size(ss, j));
    lemma_enc_body(bytes, ss, j);
    lemma_body_len(ss[j]);
}

/// What the parse of an exact encoding must have produced: the very
/// containers that were written.
#[verifier::spinoff_prover]
proof fn lemma_roundtrip_recovers(
    bytes: Seq<u8>,
    s: Seq<Container>,
    low2: u16,
    cfield: u16,
    dpos: int,
    bpos: int,
    pos: int,
    keys: Seq<u16>,
    pops: Seq<u32>,
    parsed: Seq<Container>,
)
    requires
        cs_wf(s),
        keys_sorted(s),
        bytes == spec_serialize(s),
        le16(low2) == bytes.subrange(0, 2),
        low2 != SERIAL_COOKIE_RUNS ==> le16(cfield) == bytes.subrange(4, 6) && !(cfield == 0xFFFF
            && bytes.len() == 6) && dpos == 6 && parsed.len() == (cfield as int) + 1,
        low2 != SERIAL_COOKIE_RUNS ==> bpos == 6 + 4 * (parsed.len() as int) + (if parsed.len()
            >= 4 {
            4 * (parsed.len() as int)
        } else {
            0int
        }),
        keys.len() == parsed.len(),
        pops.len() == parsed.len(),
        forall|m: int|
            0 <= m < parsed.len() ==> le16(#[trigger] keys[m]) == bytes.subrange(
                dpos + 4 * m,
                dpos + 4 * m + 2,
            ) && le16(((pops[m] - 1) as u16)) == bytes.subrange(
                dpos + 4 * m + 2,
                dpos + 4 * m + 4,
            ),
        forall|m: int| 0 <= m < parsed.len() ==> 1 <= #[trigger] pops[m] <= 65536,
        cs_wf(parsed),
        forall|m: int| 0 <= m < parsed.len() ==> (#[trigger] parsed[m]).key == keys[m],
        forall|m: int|
            0 <= m < parsed.len() ==> (#[trigger] parsed[m]).len == pops[m] && ((
            parsed[m].store is Array) <==> pops[m] <= 4096),
        spec_bodies(parsed, parsed.len() as int) == bytes.subrange(bpos, pos),
        bpos <= pos <= bytes.len(),
    ensures
        same_containers(parsed, s),
{
    let n = s.len() as int;
    lemma_serialized_len(s);
    lemma_desc_len(s, n);
    lemma_offsets_len(s, n);
    lemma_bodies_len(s, n);
    lemma_bodies_size_bound(s, n);
    lemma_keys_count(s);
    // The stream opens with the short cookie, so the short path ran.
    assert(bytes[0] == le32(SERIAL_COOKIE_NO_RUNS)[0]);
    assert(le16(low2)[0] == bytes[0]);
    assert(low2 != SERIAL_COOKIE_RUNS) by {
        assert((0x3B30u16 & 0xFF) as u8 == 0x30u8 && (0x00003B31u32 & 0xFF) as u8 == 0x31u8)
            by (bit_vector);
    }
    // The count field names the written count.
    assert(bytes.subrange(4, 6) =~= le16(spec_count_field(n)));
    crate::bytes::lemma_le16_injective(cfield, spec_count_field(n));
    assert(n >= 1) by {
        if n == 0 {
            assert(bytes.len() == 6);
        }
    }
    assert(parsed.len() == n) by {
        assert(cfield == (n - 1) as u16);
    }
    // Each descriptor names the written key and population.
    assert forall|m: int| 0 <= m < n implies #[trigger] keys[m] == s[m].key by {
        lemma_enc_desc(bytes, s, m);
        crate::bytes::lemma_le16_injective(keys[m], s[m].key);
    }
    assert forall|m: int| 0 <= m < n implies #[trigger] pops[m] == s[m].len by {
        lemma_enc_desc(bytes, s, m);
        lemma_container_len_bound(&s[m]);
        assert(s[m].wf());
        assert(le16(keys[m]) == bytes.subrange(dpos + 4 * m, dpos + 4 * m + 2));
        crate::bytes::lemma_le16_injective(((pops[m] - 1) as u16), ((s[m].len - 1) as u16));
    }
    // The density policy fixes each variant, so the body sizes align.
    assert forall|m: int|
        0 <= m < n implies body_size(#[trigger] parsed[m]) == body_size(s[m]) by {
        assert(s[m].wf());
        assert((s[m].store is Array) <==> s[m].len <= 4096);
    }
    // The parsed body block is the written body block.
    assert(bpos == header_size(n));
    lemma_bodies_size_eq(parsed, s, n);
    lemma_bodies_len(parsed, n);
    assert(pos == bytes.len());
    assert(spec_bodies(parsed, n) =~= spec_bodies(s, n)) by {
        assert(spec_bodies(s, n) =~= bytes.subrange(header_size(n), spec_size(s)));
    }
    lemma_bodies_match(parsed, s, n);
    // Equal bodies of equal shape are the same container.
    assert forall|m: int|
        0 <= m < n implies crate::container::container_eq_spec(&(#[trigger] parsed[m]), &s[m]) by {
        assert(parsed[m].wf() && s[m].wf());
        assert(spec_body(parsed[m]) == spec_body(s[m]));
        match (parsed[m].store, s[m].store) {
            (Store::Array(a1), Store::Array(a2)) => {
                lemma_array_body_inj(a1@, a2@);
            },
            (Store::Bitmap(b1), Store::Bitmap(b2)) => {
                lemma_words_body_inj(b1@, b2@);
            },
            _ => {
                assert(false);
            },
        }
    }
}

} // verus!
