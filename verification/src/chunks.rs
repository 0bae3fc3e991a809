use vstd::prelude::*;
use vstd::arithmetic::div_mod::lemma_fundamental_div_mod_converse;

verus! {

/// How many chunks of `chunk_size` bytes it takes to cover `total_size` bytes:
/// the ceiling of `total_size / chunk_size`.
pub open spec fn spec_total_chunks(total_size: int, chunk_size: int) -> int {
    (total_size + chunk_size - 1) / chunk_size
}

/// Computes the chunk count for a chunked upload of `total_size` bytes
/// delivered in pieces of `chunk_size` bytes.
pub fn total_chunks(total_size: u64, chunk_size: u64) -> (n: u64)
    requires
        chunk_size > 0,
    ensures
        n == spec_total_chunks(total_size as int, chunk_size as int),
{
    let q = total_size / chunk_size;
    let r = total_size % chunk_size;
    if r == 0 {
        assert(q == spec_total_chunks(total_size as int, chunk_size as int)) by (nonlinear_arith)
            requires
                chunk_size > 0,
                q == total_size / chunk_size,
                0 == total_size % chunk_size;
        q
    } else {
        assert(q * chunk_size + r == total_size) by (nonlinear_arith)
            requires chunk_size > 0, q == total_size / chunk_size, r == total_size % chunk_size;
        assert(q < u64::MAX) by (nonlinear_arith)
            requires chunk_size > 0, q * chunk_size + r == total_size, total_size <= u64::MAX, r > 0;
        let n = q + 1;
        assert(n == spec_total_chunks(total_size as int, chunk_size as int)) by (nonlinear_arith)
            requires
                chunk_size > 0,
                q == total_size / chunk_size,
                r == total_size % chunk_size,
                r != 0,
                n == q + 1;
        n
    }
}

/// The byte offset where chunk `i` (1-based) of a session with the given
/// chunk size begins.
pub open spec fn spec_chunk_offset(chunk_size: int, i: int) -> int {
    (i - 1) * chunk_size
}

/// The exclusive end of chunk `i` within contents of length `len`:
/// the last chunk may be short.
pub open spec fn spec_chunk_end(len: int, chunk_size: int, i: int) -> int {
    if i * chunk_size < len {
        i * chunk_size
    } else {
        len
    }
}

/// Chunk `i` of the contents `f`.
pub open spec fn spec_chunk_data(f: Seq<u8>, chunk_size: int, i: int) -> Seq<u8> {
    f.subrange(spec_chunk_offset(chunk_size, i), spec_chunk_end(f.len() as int, chunk_size, i))
}

/// A positional write of `data` into `s` starting at byte `off`.
/// Bytes outside the written window keep their old values; the length
/// never changes (a write never truncates or grows the file).
pub open spec fn spec_write(s: Seq<u8>, off: int, data: Seq<u8>) -> Seq<u8> {
    Seq::new(s.len(), |j: int| if off <= j < off + data.len() { data[j - off] } else { s[j] })
}

/// Writes `data` into `buf` at byte offset `offset`, in place,
/// leaving every byte outside the window unchanged.
pub fn write_at(buf: &mut Vec<u8>, offset: usize, data: &Vec<u8>)
    requires
        offset + data@.len() <= old(buf)@.len(),
    ensures
        final(buf)@ == spec_write(old(buf)@, offset as int, data@),
{
    let n = data.len();
    let m = buf.len();
    let mut i: usize = 0;
    while i < n
        invariant
            n == data@.len(),
            i <= n,
            offset + n <= m,
            m == buf@.len(),
            buf@.len() == old(buf)@.len(),
            forall|j: int| offset <= j < offset + i ==> buf@[j] == data@[j - offset],
            forall|j: int| 0 <= j < buf@.len() && !(offset <= j < offset + i) ==> buf@[j] == old(buf)@[j],
        decreases n - i,
    {
        let b = data[i];
        buf.set(offset + i, b);
        i = i + 1;
    }
    assert(buf@ =~= spec_write(old(buf)@, offset as int, data@));
}

/// Re-applying a write whose bytes already stand in the file leaves the
/// file unchanged: repeating a chunk with identical bytes is idempotent.
pub proof fn lemma_write_identical_is_noop(s: Seq<u8>, off: int, data: Seq<u8>)
    requires
        0 <= off,
        off + data.len() <= s.len(),
        data == s.subrange(off, off + data.len()),
    ensures
        spec_write(s, off, data) == s,
{
    assert(spec_write(s, off, data) =~= s);
}

/// Applying, front to back, the chunk writes named by `order`, where the
/// bytes written for chunk `i` are chunk `i` of the target contents `f`.
pub open spec fn spec_apply_chunk_writes(s: Seq<u8>, f: Seq<u8>, chunk_size: int, order: Seq<int>) -> Seq<u8>
    decreases order.len(),
{
    if order.len() == 0 {
        s
    } else {
        spec_apply_chunk_writes(
            spec_write(
                s,
                spec_chunk_offset(chunk_size, order[0]),
                spec_chunk_data(f, chunk_size, order[0]),
            ),
            f,
            chunk_size,
            order.drop_first(),
        )
    }
}

/// For a position `j` inside the contents, the (1-based) number of the
/// chunk that covers it.
pub open spec fn spec_chunk_of_pos(j: int, chunk_size: int) -> int {
    j / chunk_size + 1
}

proof fn lemma_chunk_arith(len: int, chunk_size: int, i: int)
    requires
        chunk_size > 0,
        1 <= i <= spec_total_chunks(len, chunk_size),
    ensures
        0 <= spec_chunk_offset(chunk_size, i) < len,
        spec_chunk_offset(chunk_size, i) < spec_chunk_end(len, chunk_size, i) <= len,
        forall|j: int|
            spec_chunk_offset(chunk_size, i) <= j < spec_chunk_end(len, chunk_size, i)
                ==> #[trigger] spec_chunk_of_pos(j, chunk_size) == i,
{
    let n = spec_total_chunks(len, chunk_size);
    assert((i - 1) * chunk_size < len && 0 <= (i - 1) * chunk_size
        && (i - 1) * chunk_size < i * chunk_size) by (nonlinear_arith)
        requires
            chunk_size > 0,
            1 <= i <= n,
            n == (len + chunk_size - 1) / chunk_size;
    assert forall|j: int|
        spec_chunk_offset(chunk_size, i) <= j < spec_chunk_end(len, chunk_size, i)
            implies #[trigger] spec_chunk_of_pos(j, chunk_size) == i by {
        let r = j - (i - 1) * chunk_size;
        assert(0 <= r < chunk_size) by (nonlinear_arith)
            requires
                chunk_size > 0,
                r == j - (i - 1) * chunk_size,
                (i - 1) * chunk_size <= j,
                j < spec_chunk_end(len, chunk_size, i),
                spec_chunk_end(len, chunk_size, i) <= i * chunk_size;
        lemma_fundamental_div_mod_converse(j, chunk_size, i - 1, r);
    }
}

proof fn lemma_pos_chunk_in_range(len: int, chunk_size: int, j: int)
    requires
        chunk_size > 0,
        0 <= j < len,
    ensures
        1 <= spec_chunk_of_pos(j, chunk_size) <= spec_total_chunks(len, chunk_size),
        spec_chunk_offset(chunk_size, spec_chunk_of_pos(j, chunk_size)) <= j
            < spec_chunk_end(len, chunk_size, spec_chunk_of_pos(j, chunk_size)),
{
    assert(1 <= j / chunk_size + 1 <= spec_total_chunks(len, chunk_size)
        && (j / chunk_size) * chunk_size <= j < (j / chunk_size + 1) * chunk_size)
        by (nonlinear_arith)
        requires
            chunk_size > 0,
            0 <= j < len;
}

proof fn lemma_apply_chunk_writes_pointwise(s: Seq<u8>, f: Seq<u8>, chunk_size: int, order: Seq<int>)
    requires
        chunk_size > 0,
        s.len() == f.len(),
        forall|k: int| 0 <= k < order.len()
            ==> 1 <= #[trigger] order[k] <= spec_total_chunks(f.len() as int, chunk_size),
    ensures
        spec_apply_chunk_writes(s, f, chunk_size, order).len() == s.len(),
        forall|j: int| 0 <= j < s.len()
            ==> #[trigger] spec_apply_chunk_writes(s, f, chunk_size, order)[j]
                == if order.contains(spec_chunk_of_pos(j, chunk_size)) { f[j] } else { s[j] },
    decreases order.len(),
{
    let len = f.len() as int;
    if order.len() == 0 {
        assert(forall|c: int| !order.contains(c));
    } else {
        let i0 = order[0];
        let off0 = spec_chunk_offset(chunk_size, i0);
        let end0 = spec_chunk_end(len, chunk_size, i0);
        let s1 = spec_write(s, off0, spec_chunk_data(f, chunk_size, i0));
        let rest = order.drop_first();
        lemma_chunk_arith(len, chunk_size, i0);
        lemma_apply_chunk_writes_pointwise(s1, f, chunk_size, rest);
        assert forall|j: int| 0 <= j < s.len()
            implies #[trigger] spec_apply_chunk_writes(s, f, chunk_size, order)[j]
                == if order.contains(spec_chunk_of_pos(j, chunk_size)) { f[j] } else { s[j] } by {
            let c = spec_chunk_of_pos(j, chunk_size);
            lemma_pos_chunk_in_range(len, chunk_size, j);
            if rest.contains(c) {
                let k = choose|k: int| 0 <= k < rest.len() && rest[k] == c;
                assert(order[k + 1] == c);
                assert(order.contains(c));
            } else if off0 <= j < end0 {
                assert(c == i0);
                assert(order.contains(c)) by { assert(order[0] == c); }
                assert(s1[j] == spec_chunk_data(f, chunk_size, i0)[j - off0]);
                assert(s1[j] == f[j]);
            } else {
                assert(s1[j] == s[j]);
                if order.contains(c) {
                    let k = choose|k: int| 0 <= k < order.len() && order[k] == c;
                    if k == 0 {
                        assert(c == i0);
                        assert(off0 <= j < end0);
                    } else {
                        assert(rest[k - 1] == c);
                        assert(rest.contains(c));
                    }
                }
                assert(!order.contains(c));
            }
        }
    }
}

/// Law: applying all chunks of a session, in any order and with repeats
/// allowed, yields exactly the target contents — out-of-order delivery
/// assembles the same bytes as in-order delivery.
pub proof fn lemma_out_of_order_assembly(s: Seq<u8>, f: Seq<u8>, chunk_size: int, order: Seq<int>)
    requires
        chunk_size > 0,
        s.len() == f.len(),
        forall|k: int| 0 <= k < order.len()
            ==> 1 <= #[trigger] order[k] <= spec_total_chunks(f.len() as int, chunk_size),
        forall|i: int| 1 <= i <= spec_total_chunks(f.len() as int, chunk_size)
            ==> order.contains(i),
    ensures
        spec_apply_chunk_writes(s, f, chunk_size, order) == f,
{
    lemma_apply_chunk_writes_pointwise(s, f, chunk_size, order);
    assert forall|j: int| 0 <= j < s.len()
        implies spec_apply_chunk_writes(s, f, chunk_size, order)[j] == f[j] by {
        lemma_pos_chunk_in_range(f.len() as int, chunk_size, j);
    }
    assert(spec_apply_chunk_writes(s, f, chunk_size, order) =~= f);
}

/// Law: any two complete delivery orders produce byte-identical files.
pub proof fn lemma_assembly_order_irrelevant(
    s: Seq<u8>,
    f: Seq<u8>,
    chunk_size: int,
    order1: Seq<int>,
    order2: Seq<int>,
)
    requires
        chunk_size > 0,
        s.len() == f.len(),
        forall|k: int| 0 <= k < order1.len()
            ==> 1 <= #[trigger] order1[k] <= spec_total_chunks(f.len() as int, chunk_size),
        forall|k: int| 0 <= k < order2.len()
            ==> 1 <= #[trigger] order2[k] <= spec_total_chunks(f.len() as int, chunk_size),
        forall|i: int| 1 <= i <= spec_total_chunks(f.len() as int, chunk_size)
            ==> order1.contains(i),
        forall|i: int| 1 <= i <= spec_total_chunks(f.len() as int, chunk_size)
            ==> order2.contains(i),
    ensures
        spec_apply_chunk_writes(s, f, chunk_size, order1)
            == spec_apply_chunk_writes(s, f, chunk_size, order2),
{
    lemma_out_of_order_assembly(s, f, chunk_size, order1);
    lemma_out_of_order_assembly(s, f, chunk_size, order2);
}

} // verus!
