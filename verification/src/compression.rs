//! Compact encodings: run-length coding of single-precision tensor data
//! (held as IEEE-754 bit patterns) and the header of the graph text format.
use vstd::prelude::*;
use vstd::string::*;
use crate::decimal::{decimal, parse_unsigned, u64_to_decimal, parse_unsigned_str, lemma_parse_decimal};

verus! {

/// Graph compression: run-length coding of tensor data and the graph file
/// header.
pub struct GraphCompressor;

/// Lossy and lossless transforms of floating-point sequences (delta coding,
/// quantisation); they compute on floating-point values and live with the
/// callers that hold such values.
pub struct CompressionAlgorithms;

/// The bit pattern of a single-precision NaN.
pub open spec fn f32_is_nan(b: u32) -> bool {
    (b & 0x7f80_0000u32) == 0x7f80_0000u32 && (b & 0x007f_ffffu32) != 0
}

/// The bit pattern of a single-precision zero of either sign.
pub open spec fn f32_is_zero(b: u32) -> bool {
    (b & 0x7fff_ffffu32) == 0
}

/// Equality of two single-precision values given by their bit patterns, as
/// IEEE 754 defines it: no NaN equals anything, the two zeros are equal, and
/// otherwise equal values have equal bits.
pub open spec fn f32_eq(a: u32, b: u32) -> bool {
    !f32_is_nan(a) && !f32_is_nan(b) && (a == b || (f32_is_zero(a) && f32_is_zero(b)))
}

/// The runs of `s`: maximal stretches of equal values, each as its length and
/// its first value.
pub open spec fn runs(s: Seq<u32>) -> Seq<(nat, u32)>
    decreases s.len(),
{
    if s.len() == 0 {
        Seq::empty()
    } else {
        let r = runs(s.drop_last());
        let x = s.last();
        if r.len() > 0 && f32_eq(r.last().1, x) {
            r.update(r.len() - 1, (r.last().0 + 1, r.last().1))
        } else {
            r.push((1, x))
        }
    }
}

/// The little-endian bytes of `x`.
pub open spec fn le_bytes(x: u32) -> Seq<u8> {
    seq![(x & 0xff) as u8, ((x >> 8u32) & 0xff) as u8, ((x >> 16u32) & 0xff) as u8, ((x >> 24u32) & 0xff) as u8]
}

/// The word whose little-endian bytes are `b0, b1, b2, b3`.
pub open spec fn le_word(b0: u8, b1: u8, b2: u8, b3: u8) -> u32 {
    (b0 as u32) | ((b1 as u32) << 8u32) | ((b2 as u32) << 16u32) | ((b3 as u32) << 24u32)
}

/// The eight bytes of one run: its length, then its value.
pub open spec fn run_bytes(run: (nat, u32)) -> Seq<u8> {
    le_bytes(run.0 as u32) + le_bytes(run.1)
}

/// The bytes of a list of runs.
pub open spec fn runs_bytes(r: Seq<(nat, u32)>) -> Seq<u8>
    decreases r.len(),
{
    if r.len() == 0 {
        Seq::empty()
    } else {
        runs_bytes(r.drop_last()) + run_bytes(r.last())
    }
}

/// The run-length encoding of `s`.
pub open spec fn rle_encode(s: Seq<u32>) -> Seq<u8> {
    runs_bytes(runs(s))
}

/// The values that the group of eight bytes at group index `g` stands for.
pub open spec fn group_values(b: Seq<u8>, g: nat) -> Seq<u32> {
    let k = 8 * g as int;
    let count = le_word(b[k], b[k + 1], b[k + 2], b[k + 3]);
    let value = le_word(b[k + 4], b[k + 5], b[k + 6], b[k + 7]);
    Seq::new(count as nat, |i: int| value)
}

/// The values of the first `g` groups of `b`.
pub open spec fn groups_values(b: Seq<u8>, g: nat) -> Seq<u32>
    decreases g,
{
    if g == 0 {
        Seq::empty()
    } else {
        groups_values(b, (g - 1) as nat) + group_values(b, (g - 1) as nat)
    }
}

/// The run-length decoding of `b`: every complete group of eight bytes, a
/// count then a value, stands for the value repeated; trailing bytes are
/// ignored.
pub open spec fn rle_decode(b: Seq<u8>) -> Seq<u32> {
    groups_values(b, b.len() / 8)
}

/// The values that a list of runs stands for.
pub open spec fn expand(r: Seq<(nat, u32)>) -> Seq<u32>
    decreases r.len(),
{
    if r.len() == 0 {
        Seq::empty()
    } else {
        expand(r.drop_last()) + Seq::new(r.last().0, |i: int| r.last().1)
    }
}

proof fn lemma_le_round_trip(x: u32)
    ensures
        le_word(le_bytes(x)[0], le_bytes(x)[1], le_bytes(x)[2], le_bytes(x)[3]) == x,
{
    let b0 = (x & 0xff) as u8;
    let b1 = ((x >> 8u32) & 0xff) as u8;
    let b2 = ((x >> 16u32) & 0xff) as u8;
    let b3 = ((x >> 24u32) & 0xff) as u8;
    assert((b0 as u32) | ((b1 as u32) << 8u32) | ((b2 as u32) << 16u32) | ((b3 as u32) << 24u32) == x) by (bit_vector)
        requires
            b0 == (x & 0xff) as u8,
            b1 == ((x >> 8u32) & 0xff) as u8,
            b2 == ((x >> 16u32) & 0xff) as u8,
            b3 == ((x >> 24u32) & 0xff) as u8,
    ;
}

proof fn lemma_runs_bytes_len(r: Seq<(nat, u32)>)
    ensures
        runs_bytes(r).len() == 8 * r.len(),
    decreases r.len(),
{
    if r.len() > 0 {
        lemma_runs_bytes_len(r.drop_last());
    }
}

proof fn lemma_groups_prefix(a: Seq<u8>, b: Seq<u8>, g: nat)
    requires
        8 * g <= a.len(),
        8 * g <= b.len(),
        a.subrange(0, 8 * g as int) == b.subrange(0, 8 * g as int),
    ensures
        groups_values(a, g) == groups_values(b, g),
    decreases g,
{
    if g > 0 {
        let h = (g - 1) as nat;
        assert(a.subrange(0, 8 * h as int) =~= a.subrange(0, 8 * g as int).subrange(0, 8 * h as int));
        assert(b.subrange(0, 8 * h as int) =~= b.subrange(0, 8 * g as int).subrange(0, 8 * h as int));
        lemma_groups_prefix(a, b, h);
        let k = 8 * h as int;
        assert forall|i: int| k <= i < k + 8 implies #[trigger] a[i] == b[i] by {
            assert(a[i] == a.subrange(0, 8 * g as int)[i]);
            assert(b[i] == b.subrange(0, 8 * g as int)[i]);
        }
    }
}

/// Decoding the bytes of runs gives back the values they stand for, when
/// every run fits a count word.
proof fn lemma_decode_runs(r: Seq<(nat, u32)>)
    requires
        forall|i: int| 0 <= i < r.len() ==> (#[trigger] r[i]).0 <= u32::MAX,
    ensures
        groups_values(runs_bytes(r), r.len()) == expand(r),
    decreases r.len(),
{
    if r.len() > 0 {
        let p = r.drop_last();
        let h = p.len();
        lemma_decode_runs(p);
        lemma_runs_bytes_len(p);
        lemma_runs_bytes_len(r);
        let whole = runs_bytes(r);
        assert(whole == runs_bytes(p) + run_bytes(r.last()));
        assert(whole.subrange(0, 8 * h as int) =~= runs_bytes(p));
        assert(runs_bytes(p).subrange(0, 8 * h as int) =~= runs_bytes(p));
        lemma_groups_prefix(whole, runs_bytes(p), h);
        let last = r.last();
        let k = 8 * h as int;
        lemma_le_round_trip(last.0 as u32);
        lemma_le_round_trip(last.1);
        assert(whole[k] == le_bytes(last.0 as u32)[0]);
        assert(whole[k + 1] == le_bytes(last.0 as u32)[1]);
        assert(whole[k + 2] == le_bytes(last.0 as u32)[2]);
        assert(whole[k + 3] == le_bytes(last.0 as u32)[3]);
        assert(whole[k + 4] == le_bytes(last.1)[0]);
        assert(whole[k + 5] == le_bytes(last.1)[1]);
        assert(whole[k + 6] == le_bytes(last.1)[2]);
        assert(whole[k + 7] == le_bytes(last.1)[3]);
        assert(group_values(whole, h) =~= Seq::new(last.0, |i: int| last.1));
    }
}

/// The runs of `s` are no longer than `s`, and never empty.
proof fn lemma_runs_shape(s: Seq<u32>)
    ensures
        forall|i: int| 0 <= i < runs(s).len() ==> 1 <= (#[trigger] runs(s)[i]).0 <= s.len(),
        s.len() > 0 ==> runs(s).len() > 0,
    decreases s.len(),
{
    if s.len() > 0 {
        let p = s.drop_last();
        lemma_runs_shape(p);
        let r = runs(p);
        let x = s.last();
        if r.len() > 0 && f32_eq(r.last().1, x) {
            let r2 = r.update(r.len() - 1, (r.last().0 + 1, r.last().1));
            assert forall|i: int| 0 <= i < r2.len() implies 1 <= (#[trigger] r2[i]).0 <= s.len() by {
                if i < r.len() - 1 {
                    assert(r2[i] == r[i]);
                }
            }
        } else {
            let r2 = r.push((1, x));
            assert forall|i: int| 0 <= i < r2.len() implies 1 <= (#[trigger] r2[i]).0 <= s.len() by {
                if i < r.len() {
                    assert(r2[i] == r[i]);
                }
            }
        }
    }
}

/// Every run of `s` is at most `i32::MAX` long, so that its length fits the
/// signed 32-bit count that the encoding writes.
pub open spec fn runs_fit(s: Seq<u32>) -> bool {
    forall|k: int| 0 <= k < runs(s).len() ==> (#[trigger] runs(s)[k]).0 <= i32::MAX
}

/// One more value extends the runs: no run gets shorter and none is lost.
proof fn lemma_runs_step(t: Seq<u32>, x: u32)
    ensures
        runs(t).len() <= runs(t.push(x)).len(),
        forall|k: int| 0 <= k < runs(t).len() ==> (#[trigger] runs(t)[k]).0 <= runs(t.push(x))[k].0,
{
    assert(t.push(x).drop_last() =~= t);
}

/// The runs of a prefix are, run by run, no longer than those of the whole.
proof fn lemma_runs_prefix(s: Seq<u32>, i: int)
    requires
        0 <= i <= s.len(),
    ensures
        runs(s.take(i)).len() <= runs(s).len(),
        forall|k: int| 0 <= k < runs(s.take(i)).len() ==> (#[trigger] runs(s.take(i))[k]).0 <= runs(s)[k].0,
    decreases s.len() - i,
{
    if i == s.len() {
        assert(s.take(i) =~= s);
    } else {
        assert(s.take(i + 1) =~= s.take(i).push(s[i]));
        lemma_runs_step(s.take(i), s[i]);
        lemma_runs_prefix(s, i + 1);
        assert forall|k: int| 0 <= k < runs(s.take(i)).len() implies (#[trigger] runs(s.take(i))[k]).0 <= runs(s)[k].0 by {
            assert(runs(s.take(i))[k].0 <= runs(s.take(i + 1))[k].0);
        }
    }
}

/// What the runs of `s` stand for is `s`, up to the sign of zeros.
proof fn lemma_expand_runs(s: Seq<u32>)
    ensures
        expand(runs(s)).len() == s.len(),
        forall|i: int| 0 <= i < s.len() ==> #[trigger] expand(runs(s))[i] == s[i]
            || (f32_is_zero(expand(runs(s))[i]) && f32_is_zero(s[i])),
    decreases s.len(),
{
    if s.len() > 0 {
        let p = s.drop_last();
        lemma_expand_runs(p);
        let r = runs(p);
        let x = s.last();
        if r.len() > 0 && f32_eq(r.last().1, x) {
            let last = r.last();
            let r2 = r.update(r.len() - 1, (last.0 + 1, last.1));
            assert(r2.drop_last() =~= r.drop_last());
            assert(Seq::new(last.0 + 1, |i: int| last.1) =~= Seq::new(last.0, |i: int| last.1).push(last.1));
            assert(expand(r2) =~= expand(r).push(last.1));
        } else {
            let r2 = r.push((1, x));
            assert(r2.drop_last() =~= r);
            assert(expand(r2) =~= expand(r).push(x));
        }
        assert forall|i: int| 0 <= i < s.len() implies #[trigger] expand(runs(s))[i] == s[i]
            || (f32_is_zero(expand(runs(s))[i]) && f32_is_zero(s[i])) by {
            if i < p.len() {
                assert(s[i] == p[i]);
                assert(expand(runs(s))[i] == expand(runs(p))[i]);
            }
        }
    }
}

/// Decoding what the run-length encoder wrote gives back as many values, each
/// equal to the one encoded except that a zero may come back with the sign
/// of the first zero of its run.
pub proof fn law_rle_round_trip(s: Seq<u32>)
    requires
        runs_fit(s),
    ensures
        rle_decode(rle_encode(s)).len() == s.len(),
        forall|i: int| 0 <= i < s.len() ==> #[trigger] rle_decode(rle_encode(s))[i] == s[i]
            || (f32_is_zero(rle_decode(rle_encode(s))[i]) && f32_is_zero(s[i])),
{
    let r = runs(s);
    lemma_runs_shape(s);
    lemma_runs_bytes_len(r);
    assert(rle_encode(s).len() / 8 == r.len());
    lemma_decode_runs(r);
    lemma_expand_runs(s);
}

fn f32_bits_equal(a: u32, b: u32) -> (r: bool)
    ensures
        r == f32_eq(a, b),
{
    let a_nan = (a & 0x7f80_0000u32) == 0x7f80_0000u32 && (a & 0x007f_ffffu32) != 0;
    let b_nan = (b & 0x7f80_0000u32) == 0x7f80_0000u32 && (b & 0x007f_ffffu32) != 0;
    !a_nan && !b_nan && (a == b || ((a & 0x7fff_ffffu32) == 0 && (b & 0x7fff_ffffu32) == 0))
}

fn push_word(out: &mut Vec<u8>, x: u32)
    ensures
        final(out)@ == old(out)@ + le_bytes(x),
{
    out.push((x & 0xff) as u8);
    out.push(((x >> 8u32) & 0xff) as u8);
    out.push(((x >> 16u32) & 0xff) as u8);
    out.push(((x >> 24u32) & 0xff) as u8);
    assert(final(out)@ =~= old(out)@ + le_bytes(x));
}

impl GraphCompressor {
    /// Run-length encodes single-precision values given by their bit
    /// patterns: each run of equal values (as `==` compares them) becomes its
    /// length as a little-endian 32-bit integer followed by the little-endian
    /// bits of its first value.
    pub fn compress_tensor_data(values: &Vec<u32>) -> (r: Vec<u8>)
        requires
            runs_fit(values@),
        ensures
            r@ == rle_encode(values@),
    {
        let mut out: Vec<u8> = Vec::new();
        let n = values.len();
        if n == 0 {
            assert(runs(values@) =~= Seq::<(nat, u32)>::empty());
            return out;
        }
        let mut current: u32 = values[0];
        let mut count: u32 = 1;
        let ghost mut done: Seq<(nat, u32)> = Seq::empty();
        proof {
            let s1 = values@.take(1);
            assert(s1.drop_last() =~= Seq::<u32>::empty());
            assert(runs(Seq::<u32>::empty()) =~= Seq::<(nat, u32)>::empty());
            assert(runs(s1) =~= seq![(1nat, values@[0])]);
            assert(runs(s1) =~= done.push((count as nat, current)));
        }
        let mut i: usize = 1;
        while i < n
            invariant
                n == values@.len(),
                runs_fit(values@),
                1 <= i <= n,
                1 <= count <= i,
                runs(values@.take(i as int)) == done.push((count as nat, current)),
                out@ == runs_bytes(done),
            decreases n - i,
        {
            let x = values[i];
            proof {
                let s = values@.take(i as int + 1);
                assert(s.drop_last() =~= values@.take(i as int));
                assert(s.last() == x);
            }
            if f32_bits_equal(current, x) {
                proof {
                    let r = done.push((count as nat, current));
                    assert(r.update(r.len() - 1, (count as nat + 1, current)) =~= done.push((count as nat + 1, current)));
                    lemma_runs_prefix(values@, i as int + 1);
                    let k = done.len() as int;
                    assert(runs(values@.take(i as int + 1))[k].0 == count + 1);
                    assert(runs(values@)[k].0 <= i32::MAX);
                }
                count = count + 1;
            } else {
                push_word(&mut out, count);
                push_word(&mut out, current);
                proof {
                    let d2 = done.push((count as nat, current));
                    assert(d2.drop_last() =~= done);
                    assert(out@ =~= runs_bytes(done) + run_bytes((count as nat, current)));
                    done = d2;
                }
                current = x;
                count = 1;
            }
            i = i + 1;
        }
        push_word(&mut out, count);
        push_word(&mut out, current);
        proof {
            let d2 = done.push((count as nat, current));
            assert(d2.drop_last() =~= done);
            assert(values@.take(n as int) =~= values@);
            assert(out@ =~= runs_bytes(done) + run_bytes((count as nat, current)));
        }
        out
    }

    /// Whether every run of equal values (as `==` compares them) is at most
    /// `i32::MAX` long, as the encoder's signed count needs.
    pub fn runs_fit_count(values: &Vec<u32>) -> (r: bool)
        ensures
            r == runs_fit(values@),
    {
        let n = values.len();
        if n == 0 {
            assert(runs(values@) =~= Seq::<(nat, u32)>::empty());
            return true;
        }
        let mut current: u32 = values[0];
        let mut count: usize = 1;
        let mut ok = true;
        let ghost mut done: Seq<(nat, u32)> = Seq::empty();
        proof {
            let s1 = values@.take(1);
            assert(s1.drop_last() =~= Seq::<u32>::empty());
            assert(runs(Seq::<u32>::empty()) =~= Seq::<(nat, u32)>::empty());
            assert(runs(s1) =~= seq![(1nat, values@[0])]);
            assert(runs(s1) =~= done.push((count as nat, current)));
        }
        let mut i: usize = 1;
        while i < n
            invariant
                n == values@.len(),
                1 <= i <= n,
                1 <= count <= i,
                runs(values@.take(i as int)) == done.push((count as nat, current)),
                ok == forall|k: int| 0 <= k < done.len() ==> (#[trigger] done[k]).0 <= i32::MAX,
            decreases n - i,
        {
            let x = values[i];
            proof {
                let s = values@.take(i as int + 1);
                assert(s.drop_last() =~= values@.take(i as int));
                assert(s.last() == x);
            }
            if f32_bits_equal(current, x) {
                proof {
                    let r = done.push((count as nat, current));
                    assert(r.update(r.len() - 1, (count as nat + 1, current)) =~= done.push((count as nat + 1, current)));
                }
                count = count + 1;
            } else {
                let ghost d2 = done.push((count as nat, current));
                let ghost old_ok = ok;
                if count > 0x7fff_ffff {
                    ok = false;
                }
                proof {
                    if ok {
                        assert forall|k: int| 0 <= k < d2.len() implies (#[trigger] d2[k]).0 <= i32::MAX by {
                            if k < done.len() {
                                assert(d2[k] == done[k]);
                            }
                        }
                    } else if !old_ok {
                        let k0 = choose|k: int| 0 <= k < done.len() && !((#[trigger] done[k]).0 <= i32::MAX);
                        assert(d2[k0] == done[k0]);
                        assert(!(d2[k0].0 <= i32::MAX));
                    } else {
                        assert(!(d2[done.len() as int].0 <= i32::MAX));
                    }
                    done = d2;
                }
                current = x;
                count = 1;
            }
            i = i + 1;
        }
        let r = ok && count <= 0x7fff_ffff;
        proof {
            assert(values@.take(n as int) =~= values@);
            let full = done.push((count as nat, current));
            assert(runs(values@) == full);
            if r {
                assert forall|k: int| 0 <= k < full.len() implies (#[trigger] full[k]).0 <= i32::MAX by {
                    if k < done.len() {
                        assert(full[k] == done[k]);
                    }
                }
            } else if !ok {
                let k0 = choose|k: int| 0 <= k < done.len() && !((#[trigger] done[k]).0 <= i32::MAX);
                assert(full[k0] == done[k0]);
                assert(!(full[k0].0 <= i32::MAX));
            } else {
                assert(!(full[done.len() as int].0 <= i32::MAX));
            }
        }
        r
    }

    /// Decodes run-length encoded data: each complete group of eight bytes
    /// is a little-endian 32-bit count and the little-endian bits of a value,
    /// which is repeated that many times. Trailing bytes are ignored.
    pub fn decompress_tensor_data(compressed: &Vec<u8>) -> (r: Vec<u32>)
        ensures
            r@ == rle_decode(compressed@),
    {
        let mut data: Vec<u32> = Vec::new();
        let len = compressed.len();
        let mut idx: usize = 0;
        while idx < len
            invariant
                len == compressed@.len(),
                idx % 8 == 0,
                idx <= len,
                data@ == groups_values(compressed@, (idx / 8) as nat),
            ensures
                idx % 8 == 0,
                idx <= len,
                len - idx < 8,
                data@ == groups_values(compressed@, (idx / 8) as nat),
            decreases len - idx,
        {
            if len - idx < 8 {
                break;
            }
            let count = compressed[idx] as u32 | (compressed[idx + 1] as u32) << 8u32
                | (compressed[idx + 2] as u32) << 16u32 | (compressed[idx + 3] as u32) << 24u32;
            let value = compressed[idx + 4] as u32 | (compressed[idx + 5] as u32) << 8u32
                | (compressed[idx + 6] as u32) << 16u32 | (compressed[idx + 7] as u32) << 24u32;
            let ghost before = data@;
            let mut j: u32 = 0;
            while j < count
                invariant
                    j <= count,
                    data@ == before + Seq::new(j as nat, |i: int| value),
                decreases count - j,
            {
                data.push(value);
                j = j + 1;
                assert(data@ =~= before + Seq::new(j as nat, |i: int| value));
            }
            proof {
                let g = (idx / 8) as nat;
                assert(8 * g == idx);
                assert(group_values(compressed@, g) =~= Seq::new(count as nat, |i: int| value));
                assert(((idx + 8) / 8) as nat == g + 1);
            }
            idx = idx + 8;
        }
        assert(idx / 8 == len / 8) by (nonlinear_arith)
            requires
                idx % 8 == 0,
                idx <= len,
                len - idx < 8,
        ;
        data
    }
}

/// The counts that open a graph file.
#[derive(Debug, Clone, Copy, PartialEq, Eq, Structural)]
pub struct GraphHeader {
    pub num_nodes: usize,
    pub num_edges: usize,
    pub num_relations: usize,
}

/// Why a graph file's header was refused.
#[derive(Debug, Clone, Copy, PartialEq, Eq, Structural)]
pub enum GraphFormatError {
    /// The file does not start with the format tag.
    InvalidFormat,
    InvalidNodeCount,
    InvalidEdgeCount,
    InvalidRelationCount,
}

/// The message that reports each refusal.
pub open spec fn format_error_message(e: GraphFormatError) -> Seq<char> {
    match e {
        GraphFormatError::InvalidFormat => "Invalid graph format"@,
        GraphFormatError::InvalidNodeCount => "Invalid node count"@,
        GraphFormatError::InvalidEdgeCount => "Invalid edge count"@,
        GraphFormatError::InvalidRelationCount => "Invalid relation count"@,
    }
}

impl GraphFormatError {
    /// The message that reports the refusal.
    pub fn message(&self) -> (r: &'static str)
        ensures
            r@ == format_error_message(*self),
    {
        match self {
            GraphFormatError::InvalidFormat => "Invalid graph format",
            GraphFormatError::InvalidNodeCount => "Invalid node count",
            GraphFormatError::InvalidEdgeCount => "Invalid edge count",
            GraphFormatError::InvalidRelationCount => "Invalid relation count",
        }
    }
}

/// The format tag on the first line of a graph file.
pub open spec fn format_tag() -> Seq<char> {
    "GRAPH_V1"@
}

/// The lines of a graph file's header: the tag, then the node, edge and
/// relation counts in decimal.
pub open spec fn header_lines(h: GraphHeader) -> Seq<Seq<char>> {
    seq![format_tag(), decimal(h.num_nodes as nat), decimal(h.num_edges as nat), decimal(h.num_relations as nat)]
}

/// The header text: each header line followed by a newline.
pub open spec fn header_text(h: GraphHeader) -> Seq<char> {
    format_tag() + "\n"@ + decimal(h.num_nodes as nat) + "\n"@ + decimal(h.num_edges as nat) + "\n"@
        + decimal(h.num_relations as nat) + "\n"@
}

/// What reading a header from the lines of a file gives: the tag must open
/// the file, then each count must parse as an unsigned machine word.
pub open spec fn read_header(lines: Seq<Seq<char>>) -> Result<GraphHeader, GraphFormatError> {
    if lines.len() == 0 || lines[0] != format_tag() {
        Err(GraphFormatError::InvalidFormat)
    } else {
        match parse_unsigned(lines[1], usize::MAX as nat) {
            None => Err(GraphFormatError::InvalidNodeCount),
            Some(n) => match parse_unsigned(lines[2], usize::MAX as nat) {
                None => Err(GraphFormatError::InvalidEdgeCount),
                Some(e) => match parse_unsigned(lines[3], usize::MAX as nat) {
                    None => Err(GraphFormatError::InvalidRelationCount),
                    Some(r) => Ok(GraphHeader { num_nodes: n as usize, num_edges: e as usize, num_relations: r as usize }),
                },
            },
        }
    }
}

/// Lines that `read_header` can read without running out: an empty file, a
/// file with another tag, or a tagged file with at least the three counts.
pub open spec fn header_readable(lines: Seq<Seq<char>>) -> bool {
    lines.len() == 0 || lines[0] != format_tag() || lines.len() >= 4
}

fn parse_count(s: &String) -> (r: Option<usize>)
    ensures
        match r {
            Some(v) => parse_unsigned(s@, usize::MAX as nat) == Some(v as nat),
            None => parse_unsigned(s@, usize::MAX as nat) is None,
        },
{
    match parse_unsigned_str(s.as_str(), usize::MAX as u64) {
        Some(v) => Some(v as usize),
        None => None,
    }
}

impl GraphCompressor {
    /// The header text of a graph file with the given counts.
    pub fn encode_header(header: &GraphHeader) -> (r: String)
        ensures
            r@ == header_text(*header),
    {
        let mut s = String::from_str("GRAPH_V1");
        s.append("\n");
        let n = u64_to_decimal(header.num_nodes as u64);
        s.append(n.as_str());
        s.append("\n");
        let e = u64_to_decimal(header.num_edges as u64);
        s.append(e.as_str());
        s.append("\n");
        let r = u64_to_decimal(header.num_relations as u64);
        s.append(r.as_str());
        s.append("\n");
        s
    }

    /// Reads the header from the lines of a graph file.
    pub fn decode_header(lines: &Vec<String>) -> (r: Result<GraphHeader, GraphFormatError>)
        requires
            header_readable(lines@.map_values(|l: String| l@)),
        ensures
            r == read_header(lines@.map_values(|l: String| l@)),
    {
        let ghost ls = lines@.map_values(|l: String| l@);
        let tag = String::from_str("GRAPH_V1");
        if lines.len() == 0 {
            return Err(GraphFormatError::InvalidFormat);
        }
        assert(ls[0] == lines@[0]@);
        if !(lines[0] == tag) {
            return Err(GraphFormatError::InvalidFormat);
        }
        assert(ls[1] == lines@[1]@ && ls[2] == lines@[2]@ && ls[3] == lines@[3]@);
        let n = match parse_count(&lines[1]) {
            Some(v) => v,
            None => {
                return Err(GraphFormatError::InvalidNodeCount);
            },
        };
        let e = match parse_count(&lines[2]) {
            Some(v) => v,
            None => {
                return Err(GraphFormatError::InvalidEdgeCount);
            },
        };
        let rel = match parse_count(&lines[3]) {
            Some(v) => v,
            None => {
                return Err(GraphFormatError::InvalidRelationCount);
            },
        };
        Ok(GraphHeader { num_nodes: n, num_edges: e, num_relations: rel })
    }
}

/// A header written by `encode_header`, split into its lines, reads back as
/// the same counts.
pub proof fn law_header_round_trip(h: GraphHeader)
    ensures
        header_readable(header_lines(h)),
        read_header(header_lines(h)) == Ok::<GraphHeader, GraphFormatError>(h),
        header_text(h) == header_lines(h)[0] + "\n"@ + header_lines(h)[1] + "\n"@ + header_lines(h)[2] + "\n"@
            + header_lines(h)[3] + "\n"@,
{
    lemma_parse_decimal(h.num_nodes as nat, usize::MAX as nat);
    lemma_parse_decimal(h.num_edges as nat, usize::MAX as nat);
    lemma_parse_decimal(h.num_relations as nat, usize::MAX as nat);
}

} // verus!
