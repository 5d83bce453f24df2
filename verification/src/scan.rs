use vstd::prelude::*;
use vstd::arithmetic::div_mod::*;

verus! {

/// A value to search for in a process's memory.
///
/// Floating-point values are held by their IEEE-754 bit patterns
/// (`f32::to_bits`, `f64::to_bits`): the scan compares bytes only.
#[derive(Debug, Clone, Copy)]
pub enum Scan {
    Int32(i32),
    Uint32(u32),
    Float(u32),
    Double(u64),
}

/// The four bytes of `x`, least significant first.
pub open spec fn le_bytes_u32(x: u32) -> Seq<u8> {
    seq![
        (x & 0xff) as u8,
        ((x >> 8) & 0xff) as u8,
        ((x >> 16) & 0xff) as u8,
        ((x >> 24) & 0xff) as u8,
    ]
}

/// The eight bytes of `x`, least significant first.
pub open spec fn le_bytes_u64(x: u64) -> Seq<u8> {
    seq![
        (x & 0xff) as u8,
        ((x >> 8) & 0xff) as u8,
        ((x >> 16) & 0xff) as u8,
        ((x >> 24) & 0xff) as u8,
        ((x >> 32) & 0xff) as u8,
        ((x >> 40) & 0xff) as u8,
        ((x >> 48) & 0xff) as u8,
        ((x >> 56) & 0xff) as u8,
    ]
}

/// The `u32` whose bytes, least significant first, are the first four of `b`.
pub open spec fn u32_from_le(b: Seq<u8>) -> u32 {
    (b[0] as u32) | (b[1] as u32) << 8 | (b[2] as u32) << 16 | (b[3] as u32) << 24
}

/// The `u64` whose bytes, least significant first, are the first eight of `b`.
pub open spec fn u64_from_le(b: Seq<u8>) -> u64 {
    (b[0] as u64) | (b[1] as u64) << 8 | (b[2] as u64) << 16 | (b[3] as u64) << 24 | (b[4] as u64)
        << 32 | (b[5] as u64) << 40 | (b[6] as u64) << 48 | (b[7] as u64) << 56
}

/// The little-endian byte encoding of a searched value (a signed value by
/// its two's complement bits).
pub open spec fn scan_bytes_spec(s: Scan) -> Seq<u8> {
    match s {
        Scan::Int32(v) => le_bytes_u32(v as u32),
        Scan::Uint32(v) => le_bytes_u32(v),
        Scan::Float(bits) => le_bytes_u32(bits),
        Scan::Double(bits) => le_bytes_u64(bits),
    }
}

/// The width in bytes of a searched value.
pub open spec fn scan_len_spec(s: Scan) -> nat {
    match s {
        Scan::Double(_) => 8,
        _ => 4,
    }
}

/// The bytes of `x`, least significant first.
fn u32_le(x: u32) -> (b: Vec<u8>)
    ensures
        b@ == le_bytes_u32(x),
{
    let mut b: Vec<u8> = Vec::new();
    b.push((x & 0xff) as u8);
    b.push(((x >> 8) & 0xff) as u8);
    b.push(((x >> 16) & 0xff) as u8);
    b.push(((x >> 24) & 0xff) as u8);
    assert(b@ =~= le_bytes_u32(x));
    b
}

/// The bytes of `x`, least significant first.
fn u64_le(x: u64) -> (b: Vec<u8>)
    ensures
        b@ == le_bytes_u64(x),
{
    let mut b: Vec<u8> = Vec::new();
    b.push((x & 0xff) as u8);
    b.push(((x >> 8) & 0xff) as u8);
    b.push(((x >> 16) & 0xff) as u8);
    b.push(((x >> 24) & 0xff) as u8);
    b.push(((x >> 32) & 0xff) as u8);
    b.push(((x >> 40) & 0xff) as u8);
    b.push(((x >> 48) & 0xff) as u8);
    b.push(((x >> 56) & 0xff) as u8);
    assert(b@ =~= le_bytes_u64(x));
    b
}

impl Scan {
    /// The width in bytes of the value: 8 for a double, 4 otherwise.
    pub fn len(&self) -> (n: u32)
        ensures
            n == scan_len_spec(*self),
    {
        match self {
            Scan::Int32(_) => 4,
            Scan::Uint32(_) => 4,
            Scan::Float(_) => 4,
            Scan::Double(_) => 8,
        }
    }

    /// The value's bytes in little-endian order; as many as `len` says.
    pub fn bytes(&self) -> (b: Vec<u8>)
        ensures
            b@ == scan_bytes_spec(*self),
            b@.len() == scan_len_spec(*self),
    {
        match self {
            Scan::Uint32(value) => u32_le(*value),
            Scan::Int32(value) => u32_le(*value as u32),
            Scan::Float(bits) => u32_le(*bits),
            Scan::Double(bits) => u64_le(*bits),
        }
    }
}

/// A hit of a scan inside one region: the index of the value-sized chunk
/// of the region's bytes that equals the searched value.
#[derive(Debug, Clone, Copy)]
pub struct Discovered {
    pub count: u32,
}

/// A range of addresses in the scanned process.
#[derive(Debug, Clone, Copy)]
pub struct MemAddr {
    pub base: usize,
    pub size: usize,
}

/// How many chunks of `w` bytes a buffer of `len` bytes is cut into
/// (the last one may be shorter).
pub open spec fn chunk_count(len: nat, w: nat) -> nat
    recommends
        w > 0,
{
    if len % w == 0 {
        len / w
    } else {
        len / w + 1
    }
}

/// The `k`-th chunk of `data`, cut in pieces as long as `pat`, is whole
/// and equal to `pat`.
pub open spec fn chunk_matches(data: Seq<u8>, pat: Seq<u8>, k: int) -> bool {
    &&& 0 <= k
    &&& k * pat.len() + pat.len() <= data.len()
    &&& data.subrange(k * pat.len(), k * pat.len() + pat.len()) == pat
}

/// The indices, in increasing order, of the chunks below `n` that match.
pub open spec fn matching_chunks(data: Seq<u8>, pat: Seq<u8>, n: nat) -> Seq<int>
    decreases n,
{
    if n == 0 {
        Seq::empty()
    } else {
        let prev = matching_chunks(data, pat, (n - 1) as nat);
        if chunk_matches(data, pat, n - 1) {
            prev.push(n - 1)
        } else {
            prev
        }
    }
}

/// The indices of all chunks of `data` that equal the bytes of `s`.
pub open spec fn region_matches(data: Seq<u8>, s: Scan) -> Seq<int> {
    matching_chunks(data, scan_bytes_spec(s), chunk_count(data.len(), scan_len_spec(s)))
}

/// What a scan reports of one region whose bytes are `data`: on a first
/// scan, the address range of each matching value; otherwise the region
/// itself, once per matching value.
pub open spec fn region_hits(m: MemAddr, data: Seq<u8>, s: Scan, first_scan: bool) -> Seq<MemAddr> {
    region_matches(data, s).map_values(
        |k: int|
            if first_scan {
                MemAddr {
                    base: (m.base + k * scan_len_spec(s)) as usize,
                    size: scan_len_spec(s) as usize,
                }
            } else {
                m
            },
    )
}

/// The hits of the first `n` regions, region after region.
pub open spec fn scan_hits(
    regions: Seq<MemAddr>,
    contents: Seq<Seq<u8>>,
    s: Scan,
    first_scan: bool,
    n: nat,
) -> Seq<MemAddr>
    decreases n,
{
    if n == 0 {
        Seq::empty()
    } else {
        scan_hits(regions, contents, s, first_scan, (n - 1) as nat) + region_hits(
            regions[n - 1],
            contents[n - 1],
            s,
            first_scan,
        )
    }
}

/// A chunk index is below the chunk count exactly when the chunk starts
/// inside the buffer.
pub proof fn lemma_chunk_count(len: nat, w: nat, k: nat)
    requires
        w > 0,
    ensures
        (k < chunk_count(len, w)) == (k * w < len),
{
    lemma_fundamental_div_mod(len as int, w as int);
    let q = len / w;
    let r = len % w;
    assert(len == w * q + r);
    assert(0 <= r < w);
    if r == 0 {
        assert((k < q) == (k * w < len)) by (nonlinear_arith)
            requires
                len == w * q,
                w > 0,
        ;
    } else {
        assert((k < q + 1) == (k * w < len)) by (nonlinear_arith)
            requires
                len == w * q + r,
                0 < r < w,
        ;
    }
}

/// Whether `pat` stands in `data` at offset `off`.
fn bytes_at(data: &Vec<u8>, off: usize, pat: &Vec<u8>) -> (r: bool)
    requires
        off <= data.len(),
    ensures
        r == (off + pat.len() <= data.len() && data@.subrange(off as int, off + pat.len()) == pat@),
{
    if data.len() - off < pat.len() {
        return false;
    }
    let mut i: usize = 0;
    while i < pat.len()
        invariant
            off + pat.len() <= data.len(),
            i <= pat.len(),
            forall|j: int| 0 <= j < i ==> data@[off + j] == pat@[j],
        decreases pat.len() - i,
    {
        if data[off + i] != pat[i] {
            assert(data@.subrange(off as int, off + pat.len())[i as int] != pat@[i as int]);
            return false;
        }
        i = i + 1;
    }
    assert(data@.subrange(off as int, off + pat.len()) =~= pat@);
    true
}

/// Cuts the region's bytes into chunks as wide as the searched value and
/// reports the index of each chunk equal to the value's bytes, in order.
pub fn scan_single_region(region_vector: &Vec<u8>, search_val: &Scan) -> (found: Vec<Discovered>)
    requires
        chunk_count(region_vector@.len(), scan_len_spec(*search_val)) <= u32::MAX,
    ensures
        found@.map_values(|d: Discovered| d.count as int) == region_matches(
            region_vector@,
            *search_val,
        ),
{
    let pat = search_val.bytes();
    let w = search_val.len() as usize;
    let len = region_vector.len();
    let ghost cc = chunk_count(len as nat, w as nat);
    let mut off: usize = 0;
    let mut counter: u32 = 0;
    let mut found: Vec<Discovered> = Vec::new();
    while off < len
        invariant
            pat@ == scan_bytes_spec(*search_val),
            w == pat@.len(),
            w == 4 || w == 8,
            len == region_vector@.len(),
            cc == chunk_count(len as nat, w as nat),
            cc <= u32::MAX,
            counter <= cc,
            counter < cc ==> off == counter * w,
            counter == cc ==> off == len,
            found@.map_values(|d: Discovered| d.count as int) == matching_chunks(
                region_vector@,
                pat@,
                counter as nat,
            ),
        decreases len - off,
    {
        proof {
            lemma_chunk_count(len as nat, w as nat, counter as nat);
            lemma_chunk_count(len as nat, w as nat, (counter + 1) as nat);
            assert((counter + 1) * w == counter * w + w) by (nonlinear_arith);
        }
        let hit = bytes_at(region_vector, off, &pat);
        if hit {
            found.push(Discovered { count: counter });
        }
        assert(found@.map_values(|d: Discovered| d.count as int) =~= matching_chunks(
            region_vector@,
            pat@,
            (counter + 1) as nat,
        ));
        if len - off > w {
            off = off + w;
        } else {
            off = len;
        }
        counter = counter + 1;
    }
    proof {
        lemma_chunk_count(len as nat, w as nat, counter as nat);
    }
    found
}

/// The byte offset of every matching chunk fits in a `u32`.
pub open spec fn offsets_fit(data: Seq<u8>, s: Scan) -> bool {
    forall|j: int|
        0 <= j < region_matches(data, s).len() ==> #[trigger] region_matches(data, s)[j]
            * scan_len_spec(s) <= u32::MAX
}

/// The inputs a multi-region scan works on: each region's contents are as
/// long as the region, no region wraps the address space, the chunks of a
/// region can be counted in a `u32`, and on a first scan the offset of each
/// hit inside its region fits in a `u32`.
pub open spec fn scan_fits(
    regions: Seq<MemAddr>,
    contents: Seq<Seq<u8>>,
    s: Scan,
    first_scan: bool,
) -> bool {
    &&& regions.len() == contents.len()
    &&& forall|i: int|
        0 <= i < regions.len() ==> {
            &&& #[trigger] contents[i].len() == regions[i].size
            &&& regions[i].base + regions[i].size <= usize::MAX
            &&& chunk_count(regions[i].size as nat, scan_len_spec(s)) <= u32::MAX
            &&& first_scan ==> offsets_fit(contents[i], s)
        }
}

/// Scans each region's bytes (`region_contents[i]` was read from
/// `regions[i]`) for the searched value. On a first scan each hit is the
/// value-sized address range where the value stands; on a later scan each
/// hit is the whole region that holds it, once per occurrence.
pub fn scan_multiple_regions(
    regions: &Vec<MemAddr>,
    region_contents: &Vec<Vec<u8>>,
    search_val: &Scan,
    first_scan: bool,
) -> (results: Vec<MemAddr>)
    requires
        scan_fits(regions@, region_contents@.map_values(|v: Vec<u8>| v@), *search_val, first_scan),
    ensures
        results@ == scan_hits(
            regions@,
            region_contents@.map_values(|v: Vec<u8>| v@),
            *search_val,
            first_scan,
            regions@.len(),
        ),
{
    let ghost contents = region_contents@.map_values(|v: Vec<u8>| v@);
    let mut results: Vec<MemAddr> = Vec::new();
    let n = regions.len();
    let search_size: u32 = search_val.len();
    let mut i: usize = 0;
    while i < n
        invariant
            n == regions@.len(),
            i <= n,
            search_size == scan_len_spec(*search_val),
            contents == region_contents@.map_values(|v: Vec<u8>| v@),
            scan_fits(regions@, contents, *search_val, first_scan),
            results@ == scan_hits(regions@, contents, *search_val, first_scan, i as nat),
        decreases n - i,
    {
        let m = regions[i];
        let read_region = &region_contents[i];
        assert(contents[i as int] == read_region@);
        assert(read_region@.len() == m.size);
        let found_vals = scan_single_region(read_region, search_val);
        let ghost matches = region_matches(read_region@, *search_val);
        let ghost before = results@;
        let ghost hits = region_hits(m, read_region@, *search_val, first_scan);
        let mut j: usize = 0;
        while j < found_vals.len()
            invariant
                j <= found_vals@.len(),
                found_vals@.map_values(|d: Discovered| d.count as int) == matches,
                matches == region_matches(read_region@, *search_val),
                hits == region_hits(m, read_region@, *search_val, first_scan),
                search_size == scan_len_spec(*search_val),
                read_region@.len() == m.size,
                m.base + m.size <= usize::MAX,
                first_scan ==> offsets_fit(read_region@, *search_val),
                results@ == before + hits.take(j as int),
            decreases found_vals@.len() - j,
        {
            let found = found_vals[j];
            assert(matches[j as int] == found.count as int);
            proof {
                lemma_region_match_in_bounds(read_region@, *search_val, j as int);
            }
            if first_scan {
                let offset: u32 = found.count * search_size;
                let ma = MemAddr { base: m.base + offset as usize, size: search_size as usize };
                results.push(ma);
            } else {
                results.push(m);
            }
            assert(hits.take(j + 1) =~= hits.take(j as int).push(hits[j as int]));
            j = j + 1;
        }
        assert(hits.take(found_vals@.len() as int) =~= hits);
        assert(scan_hits(regions@, contents, *search_val, first_scan, (i + 1) as nat) == before
            + hits);
        i = i + 1;
    }
    results
}

/// Each matching chunk lies wholly inside the scanned bytes.
pub proof fn lemma_region_match_in_bounds(data: Seq<u8>, s: Scan, j: int)
    requires
        0 <= j < region_matches(data, s).len(),
    ensures
        chunk_matches(data, scan_bytes_spec(s), region_matches(data, s)[j]),
        0 <= region_matches(data, s)[j] * scan_len_spec(s) + scan_len_spec(s) <= data.len(),
{
    lemma_matching_chunks_match(
        data,
        scan_bytes_spec(s),
        chunk_count(data.len(), scan_len_spec(s)),
        j,
    );
    let k = region_matches(data, s)[j];
    assert(k * scan_len_spec(s) >= 0) by (nonlinear_arith)
        requires
            k >= 0,
    ;
    lemma_scan_len_bytes(s);
}

/// The bytes of a searched value are as many as its width.
pub proof fn lemma_scan_len_bytes(s: Scan)
    ensures
        scan_bytes_spec(s).len() == scan_len_spec(s),
{
}

/// Every index that `matching_chunks` lists is one of a matching chunk
/// below `n`.
pub proof fn lemma_matching_chunks_match(data: Seq<u8>, pat: Seq<u8>, n: nat, j: int)
    requires
        0 <= j < matching_chunks(data, pat, n).len(),
    ensures
        chunk_matches(data, pat, matching_chunks(data, pat, n)[j]),
        matching_chunks(data, pat, n)[j] < n,
    decreases n,
{
    if n > 0 {
        let prev = matching_chunks(data, pat, (n - 1) as nat);
        if j < prev.len() {
            lemma_matching_chunks_match(data, pat, (n - 1) as nat, j);
        }
    }
}

/// `hit` is a value-sized range inside `region`, and the region's bytes
/// `data` hold the searched value there.
pub open spec fn holds_value(hit: MemAddr, region: MemAddr, data: Seq<u8>, s: Scan) -> bool {
    &&& hit.size == scan_len_spec(s)
    &&& region.base <= hit.base
    &&& hit.base + hit.size <= region.base + region.size
    &&& data.subrange(hit.base - region.base, hit.base - region.base + hit.size)
        == scan_bytes_spec(s)
}

/// Every match that `matching_chunks` must find below `n` is listed.
pub proof fn lemma_matching_chunks_complete(data: Seq<u8>, pat: Seq<u8>, n: nat, k: int)
    requires
        0 <= k < n,
        chunk_matches(data, pat, k),
    ensures
        matching_chunks(data, pat, n).contains(k),
    decreases n,
{
    let prev = matching_chunks(data, pat, (n - 1) as nat);
    if k == n - 1 {
        assert(matching_chunks(data, pat, n) == prev.push(k));
        assert(matching_chunks(data, pat, n)[prev.len() as int] == k);
    } else {
        lemma_matching_chunks_complete(data, pat, (n - 1) as nat, k);
        let idx = choose|idx: int| 0 <= idx < prev.len() && prev[idx] == k;
        if chunk_matches(data, pat, n - 1) {
            assert(matching_chunks(data, pat, n)[idx] == k);
        }
    }
}

/// On a first scan, each reported range lies inside one of the scanned
/// regions and that region's bytes hold the searched value there.
pub proof fn lemma_first_scan_hits_hold_value(
    regions: Seq<MemAddr>,
    contents: Seq<Seq<u8>>,
    s: Scan,
    n: nat,
    h: int,
)
    requires
        scan_fits(regions, contents, s, true),
        n <= regions.len(),
        0 <= h < scan_hits(regions, contents, s, true, n).len(),
    ensures
        exists|i: int|
            0 <= i < n && holds_value(
                #[trigger] scan_hits(regions, contents, s, true, n)[h],
                regions[i],
                contents[i],
                s,
            ),
    decreases n,
{
    let prev = scan_hits(regions, contents, s, true, (n - 1) as nat);
    let i = n - 1;
    let hits = region_hits(regions[i], contents[i], s, true);
    if h < prev.len() {
        lemma_first_scan_hits_hold_value(regions, contents, s, (n - 1) as nat, h);
        let i0 = choose|i0: int|
            0 <= i0 < n - 1 && holds_value(
                #[trigger] scan_hits(regions, contents, s, true, (n - 1) as nat)[h],
                regions[i0],
                contents[i0],
                s,
            );
        assert(scan_hits(regions, contents, s, true, n)[h] == prev[h]);
        assert(holds_value(scan_hits(regions, contents, s, true, n)[h], regions[i0], contents[i0], s));
    } else {
        let j = h - prev.len();
        let data = contents[i];
        let m = regions[i];
        let w = scan_len_spec(s);
        lemma_region_match_in_bounds(data, s, j);
        let k = region_matches(data, s)[j];
        assert(scan_hits(regions, contents, s, true, n)[h] == hits[j]);
        assert(hits[j] == MemAddr { base: (m.base + k * w) as usize, size: w as usize });
        assert(data.len() == m.size);
        lemma_scan_len_bytes(s);
        assert(k * w + w <= m.size);
        assert(m.base + k * w <= usize::MAX);
        assert(hits[j].base == m.base + k * w);
        assert(hits[j].base - m.base == k * w);
        assert(holds_value(hits[j], m, data, s));
    }
}

/// On a first scan, every value-sized chunk of a region that equals the
/// searched value is reported, by the address where it starts.
pub proof fn lemma_first_scan_finds_every_match(
    regions: Seq<MemAddr>,
    contents: Seq<Seq<u8>>,
    s: Scan,
    n: nat,
    i: int,
    k: int,
)
    requires
        scan_fits(regions, contents, s, true),
        n <= regions.len(),
        0 <= i < n,
        chunk_matches(contents[i], scan_bytes_spec(s), k),
    ensures
        scan_hits(regions, contents, s, true, n).contains(
            MemAddr {
                base: (regions[i].base + k * scan_len_spec(s)) as usize,
                size: scan_len_spec(s) as usize,
            },
        ),
    decreases n,
{
    let target = MemAddr {
        base: (regions[i].base + k * scan_len_spec(s)) as usize,
        size: scan_len_spec(s) as usize,
    };
    let prev = scan_hits(regions, contents, s, true, (n - 1) as nat);
    if i < n - 1 {
        lemma_first_scan_finds_every_match(regions, contents, s, (n - 1) as nat, i, k);
        let idx = choose|idx: int| 0 <= idx < prev.len() && prev[idx] == target;
        assert(scan_hits(regions, contents, s, true, n)[idx] == target);
    } else {
        let data = contents[i];
        let w = scan_len_spec(s);
        lemma_scan_len_bytes(s);
        lemma_chunk_count(data.len(), w, k as nat);
        lemma_matching_chunks_complete(data, scan_bytes_spec(s), chunk_count(data.len(), w), k);
        let matches = region_matches(data, s);
        let idx = choose|idx: int| 0 <= idx < matches.len() && matches[idx] == k;
        let hits = region_hits(regions[i], data, s, true);
        assert(hits[idx] == target);
        assert(scan_hits(regions, contents, s, true, n)[prev.len() + idx] == target);
    }
}

/// The bytes searched for are the value's own little-endian encoding:
/// decoding them gives back the value (for a signed value, its two's
/// complement bits; for a float, its bit pattern).
pub proof fn lemma_scan_bytes_decode(s: Scan)
    ensures
        match s {
            Scan::Int32(v) => u32_from_le(scan_bytes_spec(s)) == v as u32,
            Scan::Uint32(v) => u32_from_le(scan_bytes_spec(s)) == v,
            Scan::Float(bits) => u32_from_le(scan_bytes_spec(s)) == bits,
            Scan::Double(bits) => u64_from_le(scan_bytes_spec(s)) == bits,
        },
{
    match s {
        Scan::Int32(v) => lemma_u32_le_roundtrip(v as u32),
        Scan::Uint32(v) => lemma_u32_le_roundtrip(v),
        Scan::Float(bits) => lemma_u32_le_roundtrip(bits),
        Scan::Double(bits) => lemma_u64_le_roundtrip(bits),
    }
}

/// Decoding the bytes of a `u32` gives it back.
pub proof fn lemma_u32_le_roundtrip(x: u32)
    ensures
        u32_from_le(le_bytes_u32(x)) == x,
{
    let b = le_bytes_u32(x);
    let (b0, b1, b2, b3) = (b[0], b[1], b[2], b[3]);
    assert((b0 as u32) | (b1 as u32) << 8 | (b2 as u32) << 16 | (b3 as u32) << 24 == x)
        by (bit_vector)
        requires
            b0 == (x & 0xff) as u8,
            b1 == ((x >> 8) & 0xff) as u8,
            b2 == ((x >> 16) & 0xff) as u8,
            b3 == ((x >> 24) & 0xff) as u8,
    ;
}

/// Decoding the bytes of a `u64` gives it back.
pub proof fn lemma_u64_le_roundtrip(x: u64)
    ensures
        u64_from_le(le_bytes_u64(x)) == x,
{
    let b = le_bytes_u64(x);
    let (b0, b1, b2, b3, b4, b5, b6, b7) = (b[0], b[1], b[2], b[3], b[4], b[5], b[6], b[7]);
    assert((b0 as u64) | (b1 as u64) << 8 | (b2 as u64) << 16 | (b3 as u64) << 24 | (b4 as u64)
        << 32 | (b5 as u64) << 40 | (b6 as u64) << 48 | (b7 as u64) << 56 == x) by (bit_vector)
        requires
            b0 == (x & 0xff) as u8,
            b1 == ((x >> 8) & 0xff) as u8,
            b2 == ((x >> 16) & 0xff) as u8,
            b3 == ((x >> 24) & 0xff) as u8,
            b4 == ((x >> 32) & 0xff) as u8,
            b5 == ((x >> 40) & 0xff) as u8,
            b6 == ((x >> 48) & 0xff) as u8,
            b7 == ((x >> 56) & 0xff) as u8,
    ;
}

/// Scanning two lists of regions one after the other gives the hits of the
/// first list followed by those of the second; no regions give no hits.
pub proof fn lemma_scan_hits_concat(
    a: Seq<MemAddr>,
    ca: Seq<Seq<u8>>,
    b: Seq<MemAddr>,
    cb: Seq<Seq<u8>>,
    s: Scan,
    first_scan: bool,
)
    requires
        a.len() == ca.len(),
        b.len() == cb.len(),
    ensures
        scan_hits(a + b, ca + cb, s, first_scan, a.len() + b.len()) == scan_hits(
            a,
            ca,
            s,
            first_scan,
            a.len(),
        ) + scan_hits(b, cb, s, first_scan, b.len()),
        scan_hits(a, ca, s, first_scan, 0) == Seq::<MemAddr>::empty(),
    decreases b.len(),
{
    lemma_scan_hits_prefix(a + b, ca + cb, a, ca, s, first_scan, a.len());
    if b.len() == 0 {
        assert(scan_hits(b, cb, s, first_scan, 0) =~= Seq::<MemAddr>::empty());
        assert(scan_hits(a, ca, s, first_scan, a.len()) + Seq::<MemAddr>::empty() =~= scan_hits(
            a,
            ca,
            s,
            first_scan,
            a.len(),
        ));
    } else {
        let b1 = b.drop_last();
        let cb1 = cb.drop_last();
        lemma_scan_hits_concat(a, ca, b1, cb1, s, first_scan);
        lemma_scan_hits_prefix(a + b, ca + cb, a + b1, ca + cb1, s, first_scan, a.len() + b1.len());
        lemma_scan_hits_prefix(b, cb, b1, cb1, s, first_scan, b1.len());
        let n = a.len() + b.len();
        assert((a + b)[n - 1] == b[b.len() - 1]);
        assert((ca + cb)[n - 1] == cb[cb.len() - 1]);
        let last = region_hits(b[b.len() - 1], cb[cb.len() - 1], s, first_scan);
        assert(scan_hits(a, ca, s, first_scan, a.len()) + scan_hits(b1, cb1, s, first_scan, b1.len())
            + last =~= scan_hits(a, ca, s, first_scan, a.len()) + (scan_hits(
            b1,
            cb1,
            s,
            first_scan,
            b1.len(),
        ) + last));
    }
}

/// The hits of the first `n` regions depend on those regions alone.
pub proof fn lemma_scan_hits_prefix(
    r1: Seq<MemAddr>,
    c1: Seq<Seq<u8>>,
    r2: Seq<MemAddr>,
    c2: Seq<Seq<u8>>,
    s: Scan,
    first_scan: bool,
    n: nat,
)
    requires
        n <= r1.len(),
        n <= r2.len(),
        n <= c1.len(),
        n <= c2.len(),
        forall|i: int| 0 <= i < n ==> r1[i] == r2[i] && c1[i] == c2[i],
    ensures
        scan_hits(r1, c1, s, first_scan, n) == scan_hits(r2, c2, s, first_scan, n),
    decreases n,
{
    if n > 0 {
        lemma_scan_hits_prefix(r1, c1, r2, c2, s, first_scan, (n - 1) as nat);
        assert(r1[n - 1] == r2[n - 1] && c1[n - 1] == c2[n - 1]);
    }
}

/// The bytes that a region of the process holds, with the process's memory
/// given address by address.
pub open spec fn read_region(mem: spec_fn(int) -> u8, m: MemAddr) -> Seq<u8> {
    Seq::new(m.size as nat, |k: int| mem(m.base + k))
}

/// A buffer that holds exactly the searched value is one hit, at its start.
proof fn lemma_value_alone_matches(s: Scan)
    ensures
        region_matches(scan_bytes_spec(s), s) == seq![0int],
{
    let pat = scan_bytes_spec(s);
    let w = scan_len_spec(s);
    assert(pat.subrange(0, w as int) =~= pat);
    assert(chunk_matches(pat, pat, 0));
    lemma_fundamental_div_mod(w as int, w as int);
    assert(chunk_count(w, w) == 1) by {
        vstd::arithmetic::div_mod::lemma_div_basics(w as int);
        vstd::arithmetic::div_mod::lemma_mod_self_0(w as int);
    }
    assert(matching_chunks(pat, pat, 0) =~= Seq::<int>::empty());
    assert(region_matches(pat, s) =~= seq![0int]);
}

/// Scanning again, on unchanged memory and as a later scan, the ranges that
/// a first scan found gives back exactly those ranges, each once, in order.
pub proof fn lemma_rescan_keeps_hits(
    mem: spec_fn(int) -> u8,
    regions: Seq<MemAddr>,
    contents: Seq<Seq<u8>>,
    s: Scan,
)
    requires
        scan_fits(regions, contents, s, true),
        forall|i: int| 0 <= i < regions.len() ==> #[trigger] contents[i] == read_region(mem, regions[i]),
    ensures
        ({
            let hits = scan_hits(regions, contents, s, true, regions.len());
            scan_hits(
                hits,
                hits.map_values(|m: MemAddr| read_region(mem, m)),
                s,
                false,
                hits.len(),
            ) == hits
        }),
{
    let hits = scan_hits(regions, contents, s, true, regions.len());
    let again = hits.map_values(|m: MemAddr| read_region(mem, m));
    assert forall|h: int| 0 <= h < hits.len() implies #[trigger] again[h] == scan_bytes_spec(s) by {
        lemma_first_scan_hits_hold_value(regions, contents, s, regions.len(), h);
        let i = choose|i: int|
            0 <= i < regions.len() && holds_value(
                #[trigger] scan_hits(regions, contents, s, true, regions.len())[h],
                regions[i],
                contents[i],
                s,
            );
        let hit = hits[h];
        let m = regions[i];
        let off = hit.base - m.base;
        assert(contents[i] == read_region(mem, m));
        assert(again[h] =~= contents[i].subrange(off, off + hit.size));
    }
    lemma_rescan_prefix(hits, again, s, hits.len());
    assert(hits.take(hits.len() as int) =~= hits);
}

/// Rescanning the first `n` ranges, each of which holds the value, as a
/// later scan gives them back.
proof fn lemma_rescan_prefix(hits: Seq<MemAddr>, again: Seq<Seq<u8>>, s: Scan, n: nat)
    requires
        n <= hits.len(),
        again.len() == hits.len(),
        forall|h: int| 0 <= h < hits.len() ==> #[trigger] again[h] == scan_bytes_spec(s),
    ensures
        scan_hits(hits, again, s, false, n) == hits.take(n as int),
    decreases n,
{
    if n == 0 {
        assert(hits.take(0) =~= Seq::<MemAddr>::empty());
    } else {
        lemma_rescan_prefix(hits, again, s, (n - 1) as nat);
        assert(again[n - 1] == scan_bytes_spec(s));
        lemma_value_alone_matches(s);
        let one = region_hits(hits[n - 1], again[n - 1], s, false);
        assert(one =~= seq![hits[n - 1]]);
        assert(hits.take(n - 1) + one =~= hits.take(n as int));
    }
}

} // verus!
