use crate::common::FoldiffError;
use crate::compress::{
    decode_with_prefix, encode_with_prefix, io_message, prefix_decoded, prefix_decodes, PrefixSettings,
};
use vstd::prelude::*;

verus! {

/// The unsigned integer that a big-endian byte string denotes.
pub open spec fn be_value(s: Seq<u8>) -> nat
    decreases s.len(),
{
    if s.len() == 0 {
        0
    } else {
        be_value(s.drop_last()) * 256 + s.last() as nat
    }
}

/// The `n` low-order base-256 digits of `v`, most significant first.
pub open spec fn be_encode(v: nat, n: nat) -> Seq<u8>
    decreases n,
{
    if n == 0 {
        Seq::empty()
    } else {
        be_encode(v / 256, (n - 1) as nat).push((v % 256) as u8)
    }
}

pub open spec fn pow256(n: nat) -> nat
    decreases n,
{
    if n == 0 {
        1
    } else {
        256 * pow256((n - 1) as nat)
    }
}

/// Eight big-endian bytes of a `u64`.
pub open spec fn be8(v: u64) -> Seq<u8> {
    be_encode(v as nat, 8)
}

pub proof fn lemma_be_value_bound(s: Seq<u8>)
    ensures
        be_value(s) < pow256(s.len()),
    decreases s.len(),
{
    if s.len() > 0 {
        lemma_be_value_bound(s.drop_last());
        let a = be_value(s.drop_last());
        let p = pow256((s.len() - 1) as nat);
        assert(a * 256 + s.last() < p * 256) by (nonlinear_arith)
            requires
                a < p,
                s.last() < 256,
        ;
    }
}

pub proof fn lemma_be_encode_len(v: nat, n: nat)
    ensures
        be_encode(v, n).len() == n,
    decreases n,
{
    if n > 0 {
        lemma_be_encode_len(v / 256, (n - 1) as nat);
    }
}

/// Decoding the digits of a value that fits gives the value back.
pub proof fn lemma_be_round_trip(v: nat, n: nat)
    requires
        v < pow256(n),
    ensures
        be_value(be_encode(v, n)) == v,
        be_encode(v, n).len() == n,
    decreases n,
{
    lemma_be_encode_len(v, n);
    if n > 0 {
        let p = pow256((n - 1) as nat);
        assert(v / 256 < p) by (nonlinear_arith)
            requires
                v < 256 * p,
        ;
        lemma_be_round_trip(v / 256, (n - 1) as nat);
        let e = be_encode(v, n);
        assert(e.drop_last() =~= be_encode(v / 256, (n - 1) as nat));
        assert(v == (v / 256) * 256 + v % 256) by (nonlinear_arith);
    }
}

pub proof fn lemma_pow256_8()
    ensures
        pow256(8) == 0x1_0000_0000_0000_0000,
{
    reveal_with_fuel(pow256, 9);
}

/// Reads the big-endian `u64` stored at `pos`, if eight bytes are there.
pub fn read_u64(buf: &[u8], pos: usize) -> (r: Option<u64>)
    ensures
        pos + 8 <= buf@.len() ==> r == Some(be_value(buf@.subrange(pos as int, pos + 8)) as u64),
        pos + 8 > buf@.len() ==> r is None,
        r matches Some(v) ==> v as nat == be_value(buf@.subrange(pos as int, pos + 8)),
{
    if buf.len() < 8 || pos > buf.len() - 8 {
        return None;
    }
    let mut v: u64 = 0;
    let mut i: usize = 0;
    while i < 8
        invariant
            i <= 8,
            pos + 8 <= buf.len(),
            v as nat == be_value(buf@.subrange(pos as int, pos + i)),
        decreases 8 - i,
    {
        proof {
            lemma_be_value_bound(buf@.subrange(pos as int, pos + i));
            assert(pow256(i as nat) <= pow256(7)) by {
                reveal_with_fuel(pow256, 9);
            }
            assert(pow256(7) == 0x100_0000_0000_0000) by {
                reveal_with_fuel(pow256, 8);
            }
            assert(buf@.subrange(pos as int, pos + i + 1).drop_last() =~= buf@.subrange(pos as int, pos + i));
        }
        v = v * 256 + buf[pos + i] as u64;
        i = i + 1;
    }
    proof {
        lemma_be_value_bound(buf@.subrange(pos as int, pos + 8));
        lemma_pow256_8();
    }
    Some(v)
}

/// The `n` low-order big-endian digits of `v`.
fn be_bytes(v: u64, n: usize) -> (r: Vec<u8>)
    ensures
        r@ == be_encode(v as nat, n as nat),
    decreases n,
{
    if n == 0 {
        Vec::new()
    } else {
        let mut r = be_bytes(v / 256, n - 1);
        r.push((v % 256) as u8);
        r
    }
}

/// Appends the eight big-endian bytes of `v`.
pub fn push_u64(out: &mut Vec<u8>, v: u64)
    ensures
        final(out)@ == old(out)@ + be8(v),
        be_value(be8(v)) == v,
        be8(v).len() == 8,
{
    let b = be_bytes(v, 8);
    let mut i: usize = 0;
    proof {
        lemma_pow256_8();
        lemma_be_round_trip(v as nat, 8);
    }
    while i < 8
        invariant
            i <= 8,
            b@ == be8(v),
            b@.len() == 8,
            out@ == old(out)@ + b@.subrange(0, i as int),
        decreases 8 - i,
    {
        out.push(b[i]);
        i = i + 1;
        assert(b@.subrange(0, i as int) =~= b@.subrange(0, i - 1).push(b@[i - 1]));
    }
    assert(b@.subrange(0, 8) =~= b@);
}


/// Window log of the delta codec, for the encoder and as the decoder's cap: 2 GiB.
pub const WINDOW_LOG: u32 = 31;

/// Bytes per chunk: half of the compressor's 2 GiB window.
pub const CHUNK_SIZE: u64 = 0x4000_0000;

/// How many chunks a file of `old_len` bytes is cut into: `ceil(old_len / CHUNK_SIZE)`,
/// and one for an empty file.
pub open spec fn spec_chunk_num(old_len: nat) -> nat {
    if old_len == 0 {
        1
    } else if old_len % (CHUNK_SIZE as nat) == 0 {
        old_len / (CHUNK_SIZE as nat)
    } else {
        old_len / (CHUNK_SIZE as nat) + 1
    }
}

/// Where chunk `i` of `n` starts in a stream of `len` bytes: `floor(i * len / n)`.
pub open spec fn chunk_bound(i: nat, n: nat, len: nat) -> nat {
    if n == 0 {
        0
    } else {
        (i * len / n) as nat
    }
}

/// Chunk `i` of `n` of `s`.
pub open spec fn chunk(s: Seq<u8>, i: nat, n: nat) -> Seq<u8> {
    s.subrange(chunk_bound(i, n, s.len()) as int, chunk_bound(i + 1, n, s.len()) as int)
}

pub proof fn lemma_chunk_bounds(i: nat, j: nat, n: nat, len: nat)
    requires
        0 < n,
        i <= j <= n,
    ensures
        chunk_bound(i, n, len) <= chunk_bound(j, n, len) <= len,
        chunk_bound(0, n, len) == 0,
        chunk_bound(n, n, len) == len,
{
    assert(i * len <= j * len) by (nonlinear_arith)
        requires
            i <= j,
    ;
    assert(j * len <= n * len) by (nonlinear_arith)
        requires
            j <= n,
    ;
    vstd::arithmetic::div_mod::lemma_div_is_ordered((i * len) as int, (j * len) as int, n as int);
    vstd::arithmetic::div_mod::lemma_div_is_ordered((j * len) as int, (n * len) as int, n as int);
    assert((n * len) / n == len) by (nonlinear_arith)
        requires
            0 < n,
    ;
    assert(0 * len == 0);
}

/// Uses the length hint if one was given, the stream's own length otherwise.
pub fn resolve_len(s: &[u8], l: Option<u64>) -> (r: u64)
    ensures
        r == match l {
            Some(v) => v,
            None => s@.len() as u64,
        },
{
    match l {
        Some(v) => v,
        None => s.len() as u64,
    }
}

/// The number of chunks for an old stream of `old_len` bytes.
pub fn calc_chunk_num(old_len: u64) -> (n: u64)
    ensures
        n == spec_chunk_num(old_len as nat),
        1 <= n <= 0x4_0000_0000,
{
    if old_len == 0 {
        1
    } else if old_len % CHUNK_SIZE == 0 {
        old_len / CHUNK_SIZE
    } else {
        old_len / CHUNK_SIZE + 1
    }
}

/// Where chunk `i` of `n` starts in a stream of `len` bytes.
pub fn chunk_start(i: u64, n: u64, len: u64) -> (r: u64)
    requires
        0 < n,
        i <= n,
    ensures
        r == chunk_bound(i as nat, n as nat, len as nat),
        r <= len,
{
    proof {
        lemma_chunk_bounds(i as nat, i as nat, n as nat, len as nat);
        assert((i as u128) * (len as u128) <= 0xffff_ffff_ffff_ffffu128 * 0xffff_ffff_ffff_ffffu128) by (nonlinear_arith);
    }
    let p: u128 = (i as u128) * (len as u128);
    (p / (n as u128)) as u64
}

/// The `n + 1` chunk boundaries of a stream of `len` bytes cut into `n` chunks.
pub fn calc_chunks(n: u64, len: u64) -> (r: Vec<u64>)
    requires
        0 < n < 0xffff_ffff_ffff_ffff,
    ensures
        r@.len() == n + 1,
        forall|i: int| 0 <= i <= n ==> r@[i] == chunk_bound(i as nat, n as nat, len as nat),
{
    let mut r: Vec<u64> = Vec::new();
    let mut i: u64 = 0;
    while i <= n
        invariant
            0 < n < 0xffff_ffff_ffff_ffff,
            i <= n + 1,
            r@.len() == i,
            forall|k: int| 0 <= k < i ==> r@[k] == chunk_bound(k as nat, n as nat, len as nat),
        decreases n + 1 - i,
    {
        let b = chunk_start(i, n, len);
        r.push(b);
        i = i + 1;
    }
    r
}

/// The framing of a sequence of blobs: each one after its eight-byte big-endian length.
pub open spec fn frames(blobs: Seq<Seq<u8>>) -> Seq<u8>
    decreases blobs.len(),
{
    if blobs.len() == 0 {
        Seq::empty()
    } else {
        be8(blobs[0].len() as u64) + blobs[0] + frames(blobs.drop_first())
    }
}

/// Reads `count` length-prefixed blobs from `s` at `pos`: their ranges and where the last ends,
/// or nothing if a header or a blob runs past the end.
pub open spec fn parse_frames(s: Seq<u8>, pos: int, count: nat) -> Option<(Seq<(int, int)>, int)>
    decreases count,
{
    if count == 0 {
        Some((Seq::empty(), pos))
    } else if pos < 0 || pos + 8 > s.len() {
        None
    } else {
        let l = be_value(s.subrange(pos, pos + 8));
        if pos + 8 + l > s.len() {
            None
        } else {
            match parse_frames(s, pos + 8 + l, (count - 1) as nat) {
                Some((rs, end)) => Some((seq![(pos + 8, pos + 8 + l)] + rs, end)),
                None => None,
            }
        }
    }
}

/// The blobs that a list of ranges picks out of `s`.
pub open spec fn ranges_of(s: Seq<u8>, rs: Seq<(int, int)>) -> Seq<Seq<u8>> {
    rs.map_values(|r: (int, int)| s.subrange(r.0, r.1))
}

/// A chunked delta: the chunk count, then that many framed blobs.
pub open spec fn delta_bytes(blobs: Seq<Seq<u8>>) -> Seq<u8> {
    be8(blobs.len() as u64) + frames(blobs)
}

/// The chunk count and blob ranges of the chunked delta at the start of `d`, and its end.
pub open spec fn parse_delta(d: Seq<u8>) -> Option<(nat, Seq<(int, int)>, int)> {
    if d.len() < 8 {
        None
    } else {
        let n = be_value(d.subrange(0, 8));
        match parse_frames(d, 8, n) {
            Some((rs, end)) => Some((n, rs, end)),
            None => None,
        }
    }
}

/// The first `k` chunks of the output: each blob decoded against its chunk of `old`.
pub open spec fn joined(old: Seq<u8>, blobs: Seq<Seq<u8>>, n: nat, k: nat) -> Seq<u8>
    decreases k,
{
    if k == 0 {
        Seq::empty()
    } else {
        joined(old, blobs, n, (k - 1) as nat) + prefix_decoded(
            chunk(old, (k - 1) as nat, n),
            blobs[k - 1],
            WINDOW_LOG,
        )
    }
}

/// What applying the delta at the start of `d` to `old` yields, if its framing is whole.
pub open spec fn applied(old: Seq<u8>, d: Seq<u8>) -> Option<Seq<u8>> {
    match parse_delta(d) {
        Some((n, rs, _)) => Some(joined(old, ranges_of(d, rs), n, n)),
        None => None,
    }
}

/// Every one of the `n` blobs decodes against its chunk of `old`.
pub open spec fn chunks_decode(old: Seq<u8>, blobs: Seq<Seq<u8>>, n: nat) -> bool {
    forall|i: int| 0 <= i < n ==> #[trigger] prefix_decodes(chunk(old, i as nat, n), blobs[i], WINDOW_LOG)
}

/// The delta at the start of `d` is whole and each of its chunks decodes against `old`.
pub open spec fn delta_decodes(old: Seq<u8>, d: Seq<u8>) -> bool {
    match parse_delta(d) {
        Some((n, rs, _)) => chunks_decode(old, ranges_of(d, rs), n),
        None => false,
    }
}

/// `blobs` is a chunked delta from `old` to `new`: one blob per chunk of `old`, each of which
/// decodes against its chunk of `old` to the matching chunk of `new`.
pub open spec fn is_delta_of(old: Seq<u8>, new: Seq<u8>, blobs: Seq<Seq<u8>>) -> bool {
    let n = spec_chunk_num(old.len());
    &&& blobs.len() == n
    &&& chunks_decode(old, blobs, n)
    &&& forall|i: int|
        0 <= i < n ==> #[trigger] prefix_decoded(chunk(old, i as nat, n), blobs[i], WINDOW_LOG) == chunk(
            new,
            i as nat,
            n,
        )
}


/// A list of byte ranges as mathematical pairs.
pub open spec fn int_ranges(v: Seq<(usize, usize)>) -> Seq<(int, int)> {
    v.map_values(|p: (usize, usize)| (p.0 as int, p.1 as int))
}

/// Every range that a successful parse yields lies inside `s`, in order.
pub proof fn lemma_parse_frames_ranges(s: Seq<u8>, pos: int, count: nat)
    requires
        parse_frames(s, pos, count) is Some,
        0 <= pos <= s.len(),
    ensures
        ({
            let (rs, end) = parse_frames(s, pos, count)->0;
            &&& rs.len() == count
            &&& pos <= end <= s.len()
            &&& forall|i: int|
                0 <= i < rs.len() ==> pos <= #[trigger] rs[i].0 <= rs[i].1 <= end
        }),
    decreases count,
{
    if count > 0 {
        let l = be_value(s.subrange(pos, pos + 8));
        lemma_parse_frames_ranges(s, pos + 8 + l, (count - 1) as nat);
        let (rs, end) = parse_frames(s, pos + 8 + l, (count - 1) as nat)->0;
        let all = seq![(pos + 8, pos + 8 + l)] + rs;
        assert forall|i: int| 0 <= i < all.len() implies pos <= #[trigger] all[i].0 <= all[i].1 <= end by {
            if i > 0 {
                assert(all[i] == rs[i - 1]);
            }
        }
    }
}

/// Reads `count` length-prefixed blobs from `s` at `pos`: their ranges and where the last ends.
#[verifier::rlimit(40)]
pub fn read_frames(s: &[u8], pos: usize, count: u64) -> (r: Option<(Vec<(usize, usize)>, usize)>)
    requires
        pos <= s@.len(),
    ensures
        match r {
            Some((v, end)) => parse_frames(s@, pos as int, count as nat) == Some(
                (int_ranges(v@), end as int),
            ),
            None => parse_frames(s@, pos as int, count as nat) is None,
        },
{
    let mut acc: Vec<(usize, usize)> = Vec::new();
    let mut p: usize = pos;
    let mut k: u64 = 0;
    while k < count
        invariant
            k <= count,
            pos <= p <= s@.len(),
            parse_frames(s@, pos as int, count as nat) == match parse_frames(
                s@,
                p as int,
                (count - k) as nat,
            ) {
                Some((rs, e)) => Some((int_ranges(acc@) + rs, e)),
                None => None,
            },
        decreases count - k,
    {
        let l = match read_u64(s, p) {
            Some(l) => l,
            None => return None,
        };
        if l > (s.len() - p - 8) as u64 {
            return None;
        }
        let start = p + 8;
        let end = start + l as usize;
        proof {
            let rest = parse_frames(s@, end as int, (count - k - 1) as nat);
            if rest is Some {
                let (rs, e) = rest->0;
                assert(int_ranges(acc@.push((start, end))) + rs =~= int_ranges(acc@) + (seq![
                    (start as int, end as int),
                ] + rs));
            }
        }
        acc.push((start, end));
        p = end;
        k = k + 1;
    }
    assert(int_ranges(acc@) + Seq::<(int, int)>::empty() =~= int_ranges(acc@));
    Some((acc, p))
}

/// Appending a blob to a framing appends its header and its bytes.
pub proof fn lemma_frames_push(blobs: Seq<Seq<u8>>, b: Seq<u8>)
    ensures
        frames(blobs.push(b)) == frames(blobs) + be8(b.len() as u64) + b,
    decreases blobs.len(),
{
    if blobs.len() == 0 {
        let one = blobs.push(b);
        assert(one.drop_first() =~= Seq::<Seq<u8>>::empty());
        assert(frames(one.drop_first()) == Seq::<u8>::empty());
        assert(one[0] == b);
        assert(frames(one) =~= be8(b.len() as u64) + b);
        assert(frames(blobs) == Seq::<u8>::empty());
    } else {
        lemma_frames_push(blobs.drop_first(), b);
        assert(blobs.push(b).drop_first() =~= blobs.drop_first().push(b));
        assert(frames(blobs.push(b)) =~= frames(blobs) + be8(b.len() as u64) + b);
    }
}

/// Parsing a framing, whatever stands before and after it, finds exactly its blobs.
#[verifier::rlimit(40)]
pub proof fn lemma_parse_frames_of(x: Seq<u8>, blobs: Seq<Seq<u8>>, rest: Seq<u8>)
    requires
        forall|i: int| 0 <= i < blobs.len() ==> #[trigger] blobs[i].len() <= u64::MAX,
    ensures
        ({
            let s = x + frames(blobs) + rest;
            &&& parse_frames(s, x.len() as int, blobs.len()) is Some
            &&& parse_frames(s, x.len() as int, blobs.len()).unwrap().1 == x.len() + frames(blobs).len()
            &&& ranges_of(s, parse_frames(s, x.len() as int, blobs.len()).unwrap().0) == blobs
        }),
    decreases blobs.len(),
{
    let s = x + frames(blobs) + rest;
    if blobs.len() == 0 {
        assert(ranges_of(s, Seq::empty()) =~= blobs);
    } else {
        let b0 = blobs[0];
        let h = be8(b0.len() as u64);
        lemma_pow256_8();
        lemma_be_round_trip(b0.len(), 8);
        let x2 = x + h + b0;
        let tail = blobs.drop_first();
        assert forall|i: int| 0 <= i < tail.len() implies #[trigger] tail[i].len() <= u64::MAX by {
            assert(tail[i] == blobs[i + 1]);
        }
        lemma_parse_frames_of(x2, tail, rest);
        assert(s =~= x2 + frames(tail) + rest);
        let p = x.len() as int;
        assert(s.subrange(p, p + 8) =~= h);
        assert(s.subrange(p + 8, p + 8 + b0.len()) =~= b0);
        let (rs, e) = parse_frames(s, x2.len() as int, tail.len())->0;
        let all = seq![(p + 8, p + 8 + b0.len())] + rs;
        assert(ranges_of(s, all) =~= blobs) by {
            assert(ranges_of(s, rs) == tail);
            assert forall|i: int| 0 <= i < blobs.len() implies ranges_of(s, all)[i] == blobs[i] by {
                if i > 0 {
                    assert(ranges_of(s, rs)[i - 1] == tail[i - 1]);
                }
            }
        }
    }
}

/// The first `k` decoded chunks are the first `k` chunks of `new`.
#[verifier::rlimit(40)]
proof fn lemma_joined_prefix(old: Seq<u8>, new: Seq<u8>, blobs: Seq<Seq<u8>>, k: nat)
    requires
        is_delta_of(old, new, blobs),
        k <= spec_chunk_num(old.len()),
    ensures
        joined(old, blobs, spec_chunk_num(old.len()), k) == new.subrange(
            0,
            chunk_bound(k, spec_chunk_num(old.len()), new.len()) as int,
        ),
    decreases k,
{
    let n = spec_chunk_num(old.len());
    lemma_chunk_bounds(0, k, n, new.len());
    if k == 0 {
        assert(new.subrange(0, 0) =~= Seq::<u8>::empty());
    } else {
        lemma_joined_prefix(old, new, blobs, (k - 1) as nat);
        lemma_chunk_bounds((k - 1) as nat, k, n, new.len());
        let i = (k - 1) as int;
        assert(prefix_decoded(chunk(old, i as nat, n), blobs[i], WINDOW_LOG) == chunk(new, i as nat, n));
        assert(new.subrange(0, chunk_bound(k, n, new.len()) as int) =~= new.subrange(
            0,
            chunk_bound((k - 1) as nat, n, new.len()) as int,
        ) + chunk(new, (k - 1) as nat, n));
    }
}

/// Chunked delta self-consistency: applying to `old` a delta made from `old` and `new`
/// succeeds and reproduces `new` exactly, whatever bytes follow the delta.
#[verifier::rlimit(40)]
pub proof fn lemma_delta_round_trip(old: Seq<u8>, new: Seq<u8>, blobs: Seq<Seq<u8>>, rest: Seq<u8>)
    requires
        is_delta_of(old, new, blobs),
        forall|i: int| 0 <= i < blobs.len() ==> #[trigger] blobs[i].len() <= u64::MAX,
        old.len() <= u64::MAX,
    ensures
        applied(old, delta_bytes(blobs) + rest) == Some(new),
        delta_decodes(old, delta_bytes(blobs) + rest),
{
    let n = spec_chunk_num(old.len());
    let h = be8(n as u64);
    assert(n <= u64::MAX) by {
        assert(old.len() / (CHUNK_SIZE as nat) <= old.len());
    }
    lemma_pow256_8();
    lemma_be_round_trip(n, 8);
    lemma_parse_frames_of(h, blobs, rest);
    let d = delta_bytes(blobs) + rest;
    assert(d =~= h + frames(blobs) + rest);
    assert(d.subrange(0, 8) =~= h);
    lemma_joined_prefix(old, new, blobs, n);
    assert(ranges_of(d, parse_frames(d, 8, n).unwrap().0) == blobs);
    lemma_chunk_bounds(n, n, n, new.len());
    assert(new.subrange(0, new.len() as int) =~= new);
}

/// Writes a chunked delta from `old` to `new`: the chunk count, then for each chunk the
/// compressed new chunk against the old chunk as reference prefix, after its length.
/// Length hints, where given, are the lengths of the streams.
#[verifier::rlimit(40)]
pub fn diff(
    old: &[u8],
    new: &[u8],
    level: Option<u8>,
    threads: Option<usize>,
    old_len_hint: Option<u64>,
    new_len_hint: Option<u64>,
) -> (r: Result<Vec<u8>, FoldiffError>)
    requires
        old_len_hint matches Some(h) ==> h == old@.len(),
        new_len_hint matches Some(h) ==> h == new@.len(),
    ensures
        r matches Ok(d) ==> exists|blobs: Seq<Seq<u8>>|
            is_delta_of(old@, new@, blobs) && d@ == delta_bytes(blobs),
        r matches Err(e) ==> e is Codec,
{
    let cfg = PrefixSettings {
        level: match level {
            Some(l) => l as i32,
            None => 3,
        },
        threads: match threads {
            Some(t) => if t > u32::MAX as usize {
                u32::MAX
            } else {
                t as u32
            },
            None => 0,
        },
        window_log: WINDOW_LOG,
        long_distance_matching: true,
        dict_id: false,
        checksum: false,
        content_size: false,
    };
    let old_len = resolve_len(old, old_len_hint);
    let new_len = resolve_len(new, new_len_hint);
    let ghost ol = old.len();
    let ghost nl = new.len();
    assert(old_len == old@.len() && new_len == new@.len());
    let n = calc_chunk_num(old_len);
    let mut out: Vec<u8> = Vec::new();
    push_u64(&mut out, n);
    let ghost mut blobs: Seq<Seq<u8>> = Seq::empty();
    assert(out@ =~= be8(n) + frames(blobs));
    let mut i: u64 = 0;
    while i < n
        invariant
            i <= n,
            n == spec_chunk_num(old@.len()),
            old_len == old@.len(),
            new_len == new@.len(),
            old@.len() <= usize::MAX,
            new@.len() <= usize::MAX,
            blobs.len() == i,
            out@ == be8(n) + frames(blobs),
            cfg.window_log == WINDOW_LOG,
            forall|j: int|
                0 <= j < i ==> #[trigger] prefix_decoded(chunk(old@, j as nat, n as nat), blobs[j], WINDOW_LOG)
                    == chunk(new@, j as nat, n as nat),
            forall|j: int|
                0 <= j < i ==> #[trigger] prefix_decodes(chunk(old@, j as nat, n as nat), blobs[j], WINDOW_LOG),
            forall|j: int| 0 <= j < blobs.len() ==> #[trigger] blobs[j].len() <= u64::MAX,
        decreases n - i,
    {
        let oa = chunk_start(i, n, old_len);
        let ob = chunk_start(i + 1, n, old_len);
        let na = chunk_start(i, n, new_len);
        let nb = chunk_start(i + 1, n, new_len);
        proof {
            lemma_chunk_bounds(i as nat, (i + 1) as nat, n as nat, old_len as nat);
            lemma_chunk_bounds(i as nat, (i + 1) as nat, n as nat, new_len as nat);
        }
        match encode_with_prefix(&old[oa as usize..ob as usize], &new[na as usize..nb as usize], &cfg) {
            Ok(c) => {
                let mut c = c;
                push_u64(&mut out, c.len() as u64);
                proof {
                    lemma_frames_push(blobs, c@);
                    blobs = blobs.push(c@);
                }
                out.append(&mut c);
                assert(out@ =~= be8(n) + frames(blobs));
            },
            Err(e) => {
                return Err(FoldiffError::Codec(io_message(&e)));
            },
        }
        i = i + 1;
    }
    assert(chunks_decode(old@, blobs, n as nat));
    assert(is_delta_of(old@, new@, blobs));
    assert(out@ == delta_bytes(blobs));
    Ok(out)
}

/// One chunk of a delta: the range of the old stream it decodes against, and the range of
/// its compressed frame within the delta.
pub struct ChunkStep {
    pub old_start: usize,
    pub old_end: usize,
    pub frame_start: usize,
    pub frame_end: usize,
}

/// `steps` are the chunks of a delta with `n` chunks and frame ranges `rs`, applied to an old
/// stream of `old_len` bytes.
pub open spec fn steps_of(steps: Seq<ChunkStep>, n: nat, rs: Seq<(int, int)>, old_len: nat) -> bool {
    &&& steps.len() == n
    &&& rs.len() == n
    &&& forall|i: int|
        0 <= i < n ==> {
            &&& (#[trigger] steps[i]).old_start == chunk_bound(i as nat, n, old_len)
            &&& steps[i].old_end == chunk_bound((i + 1) as nat, n, old_len)
            &&& steps[i].frame_start == rs[i].0
            &&& steps[i].frame_end == rs[i].1
            &&& steps[i].old_start <= steps[i].old_end <= old_len
        }
}

/// Reads the framing of the delta at the start of `diff` and plans its chunks against an old
/// stream of `old_len` bytes, so that they can be applied one at a time.
/// `Truncated` exactly when the framing runs past the end of `diff`.
pub fn delta_plan(diff: &[u8], old_len: usize) -> (r: Result<Vec<ChunkStep>, FoldiffError>)
    ensures
        parse_delta(diff@) is None <==> r is Err,
        r matches Err(e) ==> e == FoldiffError::Truncated,
        r matches Ok(v) ==> parse_delta(diff@) matches Some((n, rs, _)) && steps_of(v@, n, rs, old_len as nat),
        r matches Ok(v) ==> forall|i: int| 0 <= i < v@.len() ==> #[trigger] v@[i].frame_start <= v@[i].frame_end <= diff@.len(),
{
    let n = match read_u64(diff, 0) {
        Some(n) => n,
        None => return Err(FoldiffError::Truncated),
    };
    let ranges = match read_frames(diff, 8, n) {
        Some((v, _)) => v,
        None => return Err(FoldiffError::Truncated),
    };
    proof {
        lemma_parse_frames_ranges(diff@, 8, n as nat);
    }
    let ghost rs = int_ranges(ranges@);
    let len = old_len as u64;
    let mut steps: Vec<ChunkStep> = Vec::new();
    let mut i: usize = 0;
    while i < ranges.len()
        invariant
            ranges@.len() == n,
            len == old_len,
            i <= ranges@.len(),
            steps@.len() == i,
            rs == int_ranges(ranges@),
            forall|j: int| 0 <= j < rs.len() ==> 8 <= #[trigger] rs[j].0 <= rs[j].1 <= diff@.len(),
            forall|j: int|
                0 <= j < i ==> {
                    &&& (#[trigger] steps@[j]).old_start == chunk_bound(j as nat, n as nat, old_len as nat)
                    &&& steps@[j].old_end == chunk_bound((j + 1) as nat, n as nat, old_len as nat)
                    &&& steps@[j].frame_start == rs[j].0
                    &&& steps@[j].frame_end == rs[j].1
                    &&& steps@[j].old_start <= steps@[j].old_end <= old_len
                },
        decreases ranges@.len() - i,
    {
        let a = chunk_start(i as u64, n, len);
        let b = chunk_start(i as u64 + 1, n, len);
        proof {
            lemma_chunk_bounds(i as nat, (i + 1) as nat, n as nat, len as nat);
            assert(rs[i as int] == (ranges@[i as int].0 as int, ranges@[i as int].1 as int));
        }
        let (s, e) = ranges[i];
        steps.push(ChunkStep { old_start: a as usize, old_end: b as usize, frame_start: s, frame_end: e });
        i = i + 1;
    }
    Ok(steps)
}

/// Decodes one chunk's frame against its chunk of the old stream.
pub fn apply_chunk(old_chunk: &[u8], frame: &[u8]) -> (r: Result<Vec<u8>, FoldiffError>)
    ensures
        r is Ok <==> prefix_decodes(old_chunk@, frame@, WINDOW_LOG),
        r matches Ok(v) ==> v@ == prefix_decoded(old_chunk@, frame@, WINDOW_LOG),
        r matches Err(e) ==> e is Codec,
{
    match decode_with_prefix(old_chunk, frame, WINDOW_LOG) {
        Ok(v) => Ok(v),
        Err(e) => Err(FoldiffError::Codec(io_message(&e))),
    }
}

/// Applies the chunked delta at the start of `diff` to `old` and returns the new stream.
/// `Truncated` exactly when the delta's framing runs past the end of `diff`; it succeeds
/// exactly when, besides, every chunk decodes against its chunk of `old`.
#[verifier::rlimit(40)]
pub fn apply(old: &[u8], diff: &[u8]) -> (r: Result<Vec<u8>, FoldiffError>)
    ensures
        parse_delta(diff@) is None <==> r == Err::<Vec<u8>, FoldiffError>(FoldiffError::Truncated),
        r is Ok <==> delta_decodes(old@, diff@),
        r matches Ok(out) ==> applied(old@, diff@) == Some(out@),
        parse_delta(diff@) is Some && r is Err ==> r matches Err(FoldiffError::Codec(_)),
{
    let steps = match delta_plan(diff, old.len()) {
        Ok(v) => v,
        Err(e) => return Err(e),
    };
    let ghost n = parse_delta(diff@).unwrap().0;
    let ghost rs = parse_delta(diff@).unwrap().1;
    let ghost blobs = ranges_of(diff@, rs);
    let mut out: Vec<u8> = Vec::new();
    let mut i: usize = 0;
    while i < steps.len()
        invariant
            parse_delta(diff@) == Some((n, rs, parse_delta(diff@).unwrap().2)),
            steps_of(steps@, n, rs, old@.len()),
            forall|j: int| 0 <= j < steps@.len() ==> #[trigger] steps@[j].frame_start <= steps@[j].frame_end <= diff@.len(),
            blobs == ranges_of(diff@, rs),
            i <= steps@.len(),
            out@ == joined(old@, blobs, n, i as nat),
            forall|j: int| 0 <= j < i ==> #[trigger] prefix_decodes(chunk(old@, j as nat, n), blobs[j], WINDOW_LOG),
        decreases steps@.len() - i,
    {
        let st = &steps[i];
        assert(steps@[i as int].old_start <= steps@[i as int].old_end <= old@.len());
        assert(old@.subrange(st.old_start as int, st.old_end as int) == chunk(old@, i as nat, n));
        assert(diff@.subrange(st.frame_start as int, st.frame_end as int) == blobs[i as int]);
        match apply_chunk(&old[st.old_start..st.old_end], &diff[st.frame_start..st.frame_end]) {
            Ok(v) => {
                let mut v = v;
                out.append(&mut v);
            },
            Err(e) => {
                assert(!prefix_decodes(chunk(old@, i as nat, n), blobs[i as int], WINDOW_LOG));
                assert(!chunks_decode(old@, blobs, n));
                return Err(e);
            },
        }
        i = i + 1;
    }
    assert(chunks_decode(old@, blobs, n));
    Ok(out)
}

} // verus!
