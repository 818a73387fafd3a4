//! The integer parts of the palette quantizer: posterization, color
//! clusters, the color count that the histogram starts from and its
//! re-keying under posterization, the layout of histogram items by
//! cluster, the partition step of the median cut, the compaction of the
//! final palette, search effort, and the 3x3 and box filters of the
//! contrast maps.

use vstd::arithmetic::div_mod::*;
use vstd::arithmetic::power2::*;
use vstd::bits::*;
use vstd::prelude::*;

use std::collections::HashMap;

use crate::pipeline::posterized_value;

verus! {

// ---------------------------------------------------------------- posterization

proof fn lemma_low_mask(c: u8, bits: u8)
    requires
        1 <= bits < 8,
    ensures
        1u8 << bits >= 1,
        c & !(((1u8 << bits) - 1) as u8) == posterized_value(c, bits),
        ((c & !(((1u8 << bits) - 1) as u8)) | (c >> ((8 - bits) as u8))) as int == posterized_value(c, bits)
            as int + c as int / pow2((8 - bits) as nat) as int,
{
    let m: u8 = ((1u8 << bits) - 1) as u8;
    assert(1u8 << bits >= 1) by (bit_vector)
        requires
            bits < 8,
    ;
    assert(c & !m == (c >> bits) << bits) by (bit_vector)
        requires
            m == ((1u8 << bits) - 1) as u8,
            bits < 8,
    ;
    let y = c >> bits;
    lemma_u8_shr_is_div(c, bits);
    lemma_pow2_pos(bits as nat);
    lemma_fundamental_div_mod(c as int, pow2(bits as nat) as int);
    assert(y * pow2(bits as nat) <= c) by (nonlinear_arith)
        requires
            y == c as nat / pow2(bits as nat),
            pow2(bits as nat) > 0,
    ;
    lemma_u8_shl_is_mul(y, bits);
    let s: u8 = (8 - bits) as u8;
    assert((c & !m) | (c >> s) == (c & !m) + (c >> s)) by (bit_vector)
        requires
            m == ((1u8 << bits) - 1) as u8,
            s == 8 - bits,
            1 <= bits < 8,
    ;
    lemma_u8_shr_is_div(c, s);
}

/// Clears the low `bits` bits of a channel.
pub fn posterize_channel(channel: u8, bits: u8) -> (r: u8)
    requires
        bits < 8,
    ensures
        r == posterized_value(channel, bits),
{
    if bits == 0 {
        channel
    } else {
        proof {
            lemma_low_mask(channel, bits);
        }
        channel & !((1u8 << bits) - 1)
    }
}

/// Clears the low `bits` bits of a channel and refills them with its top
/// `bits` bits, so that the output spans 0 to 255.
pub fn posterize_output_channel(channel: u8, bits: u8) -> (r: u8)
    requires
        bits < 8,
    ensures
        bits == 0 ==> r == channel,
        bits > 0 ==> r as int == posterized_value(channel, bits) as int + channel as int / pow2(
            (8 - bits) as nat,
        ) as int,
{
    if bits == 0 {
        channel
    } else {
        proof {
            lemma_low_mask(channel, bits);
        }
        (channel & !((1u8 << bits) - 1)) | (channel >> (8 - bits))
    }
}

/// The first four channels of `rgba`, each posterized.
pub fn posterized_rgba(rgba: &[u8], bits: u8) -> (r: [u8; 4])
    requires
        rgba@.len() >= 4,
        bits < 8,
    ensures
        forall|k: int| 0 <= k < 4 ==> #[trigger] r[k] == posterized_value(rgba@[k], bits),
{
    [
        posterize_channel(rgba[0], bits),
        posterize_channel(rgba[1], bits),
        posterize_channel(rgba[2], bits),
        posterize_channel(rgba[3], bits),
    ]
}

/// The cluster of a color: one bit per channel, set when the channel is at
/// least 128, red highest and alpha lowest.
pub open spec fn spec_cluster(rgba: [u8; 4]) -> u8 {
    ((if rgba[0] >= 128 { 8int } else { 0 }) + (if rgba[1] >= 128 { 4int } else { 0 }) + (if rgba[2]
        >= 128 { 2int } else { 0 }) + (if rgba[3] >= 128 { 1int } else { 0 })) as u8
}

/// The cluster of a color (see [`spec_cluster`]).
pub fn cluster_index(rgba: [u8; 4]) -> (r: u8)
    ensures
        r == spec_cluster(rgba),
{
    let (a, b, c, d) = (rgba[0], rgba[1], rgba[2], rgba[3]);
    let r = ((a >> 7) << 3) | ((b >> 7) << 2) | ((c >> 7) << 1) | (d >> 7);
    assert(r == ((if a >= 128 { 8u8 } else { 0u8 }) + (if b >= 128 { 4u8 } else { 0u8 }) + (if c >= 128 {
        2u8
    } else {
        0u8
    }) + (if d >= 128 { 1u8 } else { 0u8 }))) by (bit_vector)
        requires
            r == ((a >> 7) << 3) | ((b >> 7) << 2) | ((c >> 7) << 1) | (d >> 7),
    ;
    r
}

// ---------------------------------------------------------------- histogram

/// The number of whole pixels in an RGBA buffer.
pub open spec fn pixel_count(rgba: Seq<u8>) -> int {
    (rgba.len() / 4) as int
}

/// The key under which the histogram counts pixel `i`: its channels as the
/// digits of a base-256 number, red lowest, or zero when the pixel is fully
/// transparent, so that all such pixels share one entry.
pub open spec fn hist_key(rgba: Seq<u8>, i: int) -> int {
    if rgba[4 * i + 3] == 0 {
        0
    } else {
        rgba[4 * i] + 256 * rgba[4 * i + 1] + 65536 * rgba[4 * i + 2] + 16777216 * rgba[4 * i + 3]
    }
}

/// Whether pixel `i` is the first with its key.
pub open spec fn first_of_key(rgba: Seq<u8>, i: int) -> bool {
    forall|p: int| 0 <= p < i ==> hist_key(rgba, p) != hist_key(rgba, i)
}

/// The pixels below `n` that are the first with their key, in order.
pub open spec fn first_pixels(rgba: Seq<u8>, n: int) -> Seq<int>
    decreases n,
{
    if n <= 0 {
        seq![]
    } else if first_of_key(rgba, n - 1) {
        first_pixels(rgba, n - 1).push(n - 1)
    } else {
        first_pixels(rgba, n - 1)
    }
}

/// The importance of pixel `i`: its byte in the importance map, or 255
/// past the map's end or without a map.
pub open spec fn importance_at(imp: Option<Seq<u8>>, i: int) -> int {
    match imp {
        Some(m) => if i < m.len() {
            m[i] as int
        } else {
            255
        },
        None => 255,
    }
}

/// The importance of the pixels below `n` with key `k`, summed.
pub open spec fn key_importance(rgba: Seq<u8>, imp: Option<Seq<u8>>, k: int, n: int) -> int
    decreases n,
{
    if n <= 0 {
        0
    } else {
        key_importance(rgba, imp, k, n - 1) + if hist_key(rgba, n - 1) == k {
            importance_at(imp, n - 1)
        } else {
            0
        }
    }
}

/// `x`, or `u32::MAX` where it is larger.
pub open spec fn saturated(x: int) -> int {
    if x > u32::MAX {
        u32::MAX as int
    } else {
        x
    }
}

/// One histogram entry: the color it is keyed by, the first pixel counted
/// under it, the summed importance of its pixels and the cluster of that
/// first pixel.
#[derive(Clone, Copy, Debug)]
pub struct HistEntry {
    pub color: [u8; 4],
    pub representative: [u8; 4],
    pub importance_sum: u32,
    pub cluster_index: u8,
}

/// `e` is the entry opened by pixel `i`, after the first `n` pixels.
pub open spec fn entry_matches(e: HistEntry, rgba: Seq<u8>, imp: Option<Seq<u8>>, i: int, n: int) -> bool {
    &&& forall|c: int| 0 <= c < 4 ==> #[trigger] e.representative[c] == rgba[4 * i + c]
    &&& forall|c: int|
        0 <= c < 4 ==> #[trigger] e.color[c] == if rgba[4 * i + 3] == 0 {
            0u8
        } else {
            rgba[4 * i + c]
        }
    &&& e.cluster_index == spec_cluster(e.representative)
    &&& e.importance_sum == saturated(key_importance(rgba, imp, hist_key(rgba, i), n))
}

/// The importance map as a sequence.
pub open spec fn importance_view(importance_map: Option<&[u8]>) -> Option<Seq<u8>> {
    match importance_map {
        Some(m) => Some(m@),
        None => None,
    }
}

proof fn lemma_first_pixels(rgba: Seq<u8>, n: int)
    requires
        n >= 0,
    ensures
        forall|j: int|
            0 <= j < first_pixels(rgba, n).len() ==> 0 <= #[trigger] first_pixels(rgba, n)[j] < n
                && first_of_key(rgba, first_pixels(rgba, n)[j]),
        forall|j1: int, j2: int|
            0 <= j1 < j2 < first_pixels(rgba, n).len() ==> #[trigger] first_pixels(rgba, n)[j1]
                < #[trigger] first_pixels(rgba, n)[j2],
    decreases n,
{
    if n > 0 {
        lemma_first_pixels(rgba, n - 1);
        let prev = first_pixels(rgba, n - 1);
        if first_of_key(rgba, n - 1) {
            let cur = prev.push(n - 1);
            assert(first_pixels(rgba, n) == cur);
            assert forall|j: int| 0 <= j < cur.len() implies 0 <= #[trigger] cur[j] < n && first_of_key(
                rgba,
                cur[j],
            ) by {
                if j < prev.len() {
                    assert(cur[j] == prev[j]);
                }
            }
            assert forall|j1: int, j2: int| 0 <= j1 < j2 < cur.len() implies #[trigger] cur[j1]
                < #[trigger] cur[j2] by {
                assert(cur[j1] == prev[j1]);
                if j2 < prev.len() {
                    assert(cur[j2] == prev[j2]);
                }
            }
        }
    }
}

proof fn lemma_key_importance_absent(rgba: Seq<u8>, imp: Option<Seq<u8>>, k: int, n: int)
    requires
        forall|p: int| 0 <= p < n ==> hist_key(rgba, p) != k,
    ensures
        key_importance(rgba, imp, k, n) == 0,
    decreases n,
{
    if n > 0 {
        lemma_key_importance_absent(rgba, imp, k, n - 1);
    }
}

proof fn lemma_key_bound(rgba: Seq<u8>, i: int)
    requires
        0 <= i,
        4 * i + 3 < rgba.len(),
    ensures
        0 <= hist_key(rgba, i) <= u32::MAX,
{
}

proof fn lemma_first_pixels_cover(rgba: Seq<u8>, n: int, i: int)
    requires
        0 <= i < n,
    ensures
        exists|j: int|
            0 <= j < first_pixels(rgba, n).len() && hist_key(rgba, #[trigger] first_pixels(rgba, n)[j])
                == hist_key(rgba, i),
    decreases n,
{
    let prev = first_pixels(rgba, n - 1);
    if i < n - 1 {
        lemma_first_pixels_cover(rgba, n - 1, i);
        let j = choose|j: int| 0 <= j < prev.len() && hist_key(rgba, #[trigger] prev[j]) == hist_key(rgba, i);
        if first_of_key(rgba, n - 1) {
            assert(first_pixels(rgba, n)[j] == prev[j]);
        } else {
            assert(first_pixels(rgba, n) == prev);
        }
        assert(hist_key(rgba, first_pixels(rgba, n)[j]) == hist_key(rgba, i));
    } else if first_of_key(rgba, n - 1) {
        assert(first_pixels(rgba, n)[prev.len() as int] == n - 1);
    } else {
        let p = choose|p: int| 0 <= p < n - 1 && #[trigger] hist_key(rgba, p) == hist_key(rgba, n - 1);
        lemma_first_pixels_cover(rgba, n - 1, p);
        let j = choose|j: int| 0 <= j < prev.len() && hist_key(rgba, #[trigger] prev[j]) == hist_key(rgba, p);
        assert(first_pixels(rgba, n) == prev);
        assert(hist_key(rgba, first_pixels(rgba, n)[j]) == hist_key(rgba, i));
    }
}

/// Every pixel is counted in exactly one histogram entry: the entries of
/// [`build_histogram_entries`] have distinct keys, and the key of each
/// pixel is the key of one of them.
pub proof fn lemma_histogram_counts_each_pixel_once(rgba: Seq<u8>, i: int)
    requires
        0 <= i < pixel_count(rgba),
    ensures
        exists|j: int|
            0 <= j < first_pixels(rgba, pixel_count(rgba)).len() && hist_key(
                rgba,
                #[trigger] first_pixels(rgba, pixel_count(rgba))[j],
            ) == hist_key(rgba, i),
        forall|j1: int, j2: int|
            0 <= j1 < j2 < first_pixels(rgba, pixel_count(rgba)).len() ==> hist_key(
                rgba,
                #[trigger] first_pixels(rgba, pixel_count(rgba))[j1],
            ) != hist_key(rgba, #[trigger] first_pixels(rgba, pixel_count(rgba))[j2]),
{
    let n = pixel_count(rgba);
    lemma_first_pixels_cover(rgba, n, i);
    lemma_first_pixels(rgba, n);
}

/// Counts the pixels of `rgba` by color: one entry per key (see
/// [`hist_key`]), in the order in which the keys first occur, each holding
/// the first pixel with that key and the importance of all of them, summed
/// up to `u32::MAX`.
pub fn build_histogram_entries(rgba: &[u8], importance_map: Option<&[u8]>) -> (r: Vec<HistEntry>)
    ensures
        r@.len() == first_pixels(rgba@, pixel_count(rgba@)).len(),
        forall|j: int|
            0 <= j < r@.len() ==> entry_matches(
                #[trigger] r@[j],
                rgba@,
                importance_view(importance_map),
                first_pixels(rgba@, pixel_count(rgba@))[j],
                pixel_count(rgba@),
            ),
{
    broadcast use vstd::std_specs::hash::group_hash_axioms;

    let ghost src = rgba@;
    let ghost imp = importance_view(importance_map);
    let len = rgba.len();
    let npx = len / 4;
    let mut entries: Vec<HistEntry> = Vec::new();
    let mut index: HashMap<u32, usize> = HashMap::new();
    let mut n: usize = 0;
    while n < npx
        invariant
            src == rgba@,
            len == src.len(),
            imp == importance_view(importance_map),
            npx == pixel_count(src),
            n <= npx,
            entries@.len() == first_pixels(src, n as int).len(),
            forall|j: int|
                0 <= j < entries@.len() ==> entry_matches(
                    #[trigger] entries@[j],
                    src,
                    imp,
                    first_pixels(src, n as int)[j],
                    n as int,
                ),
            forall|j: int|
                0 <= j < entries@.len() ==> index@.contains_key(
                    hist_key(src, #[trigger] first_pixels(src, n as int)[j]) as u32,
                ) && index@[hist_key(src, first_pixels(src, n as int)[j]) as u32] == j,
            forall|k: u32|
                #[trigger] index@.contains_key(k) ==> index@[k] < entries@.len() && hist_key(
                    src,
                    first_pixels(src, n as int)[index@[k] as int],
                ) == k,
            forall|p: int| 0 <= p < n ==> #[trigger] index@.contains_key(hist_key(src, p) as u32),
        decreases npx - n,
    {
        proof {
            lemma_first_pixels(src, n as int);
            assert(4 * n + 3 < rgba@.len());
        }
        let base = 4 * n;
        let px: [u8; 4] = [rgba[base], rgba[base + 1], rgba[base + 2], rgba[base + 3]];
        let key: u32 = if px[3] == 0 {
            0
        } else {
            px[0] as u32 + 256 * (px[1] as u32) + 65536 * (px[2] as u32) + 16777216 * (px[3] as u32)
        };
        let importance: u32 = match importance_map {
            Some(m) => if n < m.len() {
                m[n] as u32
            } else {
                255
            },
            None => 255,
        };
        let ghost nn = n as int;
        assert(key as int == hist_key(src, nn));
        assert(importance as int == importance_at(imp, nn));
        let found = index.get(&key);
        match found {
            Some(j) => {
                let j = *j;
                let mut e = entries[j];
                e.importance_sum = e.importance_sum.saturating_add(importance);
                entries.set(j, e);
                proof {
                    let fp = first_pixels(src, nn);
                    assert(hist_key(src, fp[j as int]) == key);
                    assert(!first_of_key(src, nn));
                    assert(first_pixels(src, nn + 1) == fp);
                    assert forall|j2: int| 0 <= j2 < entries@.len() implies entry_matches(
                        #[trigger] entries@[j2],
                        src,
                        imp,
                        first_pixels(src, nn + 1)[j2],
                        nn + 1,
                    ) by {
                        let k2 = hist_key(src, fp[j2]);
                        assert(key_importance(src, imp, k2, nn + 1) == key_importance(src, imp, k2, nn) + if hist_key(
                            src,
                            nn,
                        ) == k2 {
                            importance_at(imp, nn)
                        } else {
                            0
                        });
                        if j2 != j {
                            assert(index@[k2 as u32] == j2);
                            assert(k2 != key);
                        }
                    }
                }
            },
            None => {
                let color: [u8; 4] = if px[3] == 0 {
                    [0u8, 0u8, 0u8, 0u8]
                } else {
                    px
                };
                let cluster = cluster_index(px);
                entries.push(
                    HistEntry { color, representative: px, importance_sum: importance, cluster_index: cluster },
                );
                index.insert(key, entries.len() - 1);
                proof {
                    let fp = first_pixels(src, nn);
                    assert forall|p: int| 0 <= p < nn implies hist_key(src, p) != hist_key(src, nn) by {
                        assert(index@.contains_key(hist_key(src, p) as u32));
                        lemma_key_bound(src, p);
                    }
                    assert(first_of_key(src, nn));
                    assert(first_pixels(src, nn + 1) == fp.push(nn));
                    lemma_key_importance_absent(src, imp, key as int, nn);
                    assert forall|j2: int| 0 <= j2 < entries@.len() implies entry_matches(
                        #[trigger] entries@[j2],
                        src,
                        imp,
                        first_pixels(src, nn + 1)[j2],
                        nn + 1,
                    ) by {
                        if j2 < fp.len() {
                            let k2 = hist_key(src, fp[j2]);
                            assert(index@.contains_key(k2 as u32));
                            assert(k2 != key);
                        }
                    }
                }
            },
        }
        n = n + 1;
    }
    entries
}

/// The key of entry `e` once its color is posterized by `bits`.
pub open spec fn masked_key(e: HistEntry, bits: u8) -> int {
    posterized_value(e.color[0], bits) + 256 * posterized_value(e.color[1], bits) + 65536 * posterized_value(
        e.color[2],
        bits,
    ) + 16777216 * posterized_value(e.color[3], bits)
}

/// Whether entry `i` is the first with its posterized key.
pub open spec fn first_of_masked(es: Seq<HistEntry>, bits: u8, i: int) -> bool {
    forall|p: int| 0 <= p < i ==> masked_key(es[p], bits) != masked_key(es[i], bits)
}

/// The entries below `n` that are the first with their posterized key, in
/// order.
pub open spec fn first_masked(es: Seq<HistEntry>, bits: u8, n: int) -> Seq<int>
    decreases n,
{
    if n <= 0 {
        seq![]
    } else if first_of_masked(es, bits, n - 1) {
        first_masked(es, bits, n - 1).push(n - 1)
    } else {
        first_masked(es, bits, n - 1)
    }
}

/// The last entry below `n` with posterized key `k`, or -1.
pub open spec fn last_masked(es: Seq<HistEntry>, bits: u8, k: int, n: int) -> int
    decreases n,
{
    if n <= 0 {
        -1
    } else if masked_key(es[n - 1], bits) == k {
        n - 1
    } else {
        last_masked(es, bits, k, n - 1)
    }
}

/// `e` is what re-keying the first `n` of `es` leaves for the key of
/// entry `f`: that entry's color posterized, and the counts of the last
/// entry with the same key.
pub open spec fn rekeyed_matches(e: HistEntry, es: Seq<HistEntry>, bits: u8, f: int, n: int) -> bool {
    let l = last_masked(es, bits, masked_key(es[f], bits), n);
    &&& forall|c: int| 0 <= c < 4 ==> #[trigger] e.color[c] == posterized_value(es[f].color[c], bits)
    &&& e.representative == es[l].representative
    &&& e.importance_sum == es[l].importance_sum
    &&& e.cluster_index == es[l].cluster_index
}

proof fn lemma_first_masked(es: Seq<HistEntry>, bits: u8, n: int)
    requires
        n >= 0,
    ensures
        forall|j: int|
            0 <= j < first_masked(es, bits, n).len() ==> 0 <= #[trigger] first_masked(es, bits, n)[j] < n
                && first_of_masked(es, bits, first_masked(es, bits, n)[j]),
    decreases n,
{
    if n > 0 {
        lemma_first_masked(es, bits, n - 1);
        let prev = first_masked(es, bits, n - 1);
        if first_of_masked(es, bits, n - 1) {
            let cur = prev.push(n - 1);
            assert(first_masked(es, bits, n) == cur);
            assert forall|j: int| 0 <= j < cur.len() implies 0 <= #[trigger] cur[j] < n && first_of_masked(
                es,
                bits,
                cur[j],
            ) by {
                if j < prev.len() {
                    assert(cur[j] == prev[j]);
                }
            }
        }
    }
}

/// Re-keys histogram entries under `bits` of posterization. `entries` come
/// in the order in which the histogram map is walked; the result has one
/// entry per posterized key, in the order the keys first occur, with the
/// posterized color of that first entry and the counts of the last entry
/// with the key (each later entry replaces the earlier ones).
pub fn reposterize_entries(entries: &Vec<HistEntry>, bits: u8) -> (r: Vec<HistEntry>)
    requires
        bits < 8,
    ensures
        r@.len() == first_masked(entries@, bits, entries@.len() as int).len(),
        forall|j: int|
            0 <= j < r@.len() ==> rekeyed_matches(
                #[trigger] r@[j],
                entries@,
                bits,
                first_masked(entries@, bits, entries@.len() as int)[j],
                entries@.len() as int,
            ),
{
    broadcast use vstd::std_specs::hash::group_hash_axioms;

    let ghost es = entries@;
    let mut out: Vec<HistEntry> = Vec::new();
    let mut index: HashMap<u32, usize> = HashMap::new();
    let mut n: usize = 0;
    while n < entries.len()
        invariant
            es == entries@,
            bits < 8,
            n <= es.len(),
            out@.len() == first_masked(es, bits, n as int).len(),
            forall|j: int|
                0 <= j < out@.len() ==> rekeyed_matches(
                    #[trigger] out@[j],
                    es,
                    bits,
                    first_masked(es, bits, n as int)[j],
                    n as int,
                ),
            forall|j: int|
                0 <= j < out@.len() ==> index@.contains_key(
                    masked_key(es[#[trigger] first_masked(es, bits, n as int)[j]], bits) as u32,
                ) && index@[masked_key(es[first_masked(es, bits, n as int)[j]], bits) as u32] == j,
            forall|k: u32|
                #[trigger] index@.contains_key(k) ==> index@[k] < out@.len() && masked_key(
                    es[first_masked(es, bits, n as int)[index@[k] as int]],
                    bits,
                ) == k,
            forall|p: int| 0 <= p < n ==> #[trigger] index@.contains_key(masked_key(es[p], bits) as u32),
        decreases es.len() - n,
    {
        proof {
            lemma_first_masked(es, bits, n as int);
        }
        let e = entries[n];
        let color: [u8; 4] = [
            posterize_channel(e.color[0], bits),
            posterize_channel(e.color[1], bits),
            posterize_channel(e.color[2], bits),
            posterize_channel(e.color[3], bits),
        ];
        let key: u32 = color[0] as u32 + 256 * (color[1] as u32) + 65536 * (color[2] as u32) + 16777216 * (
        color[3] as u32);
        let ghost nn = n as int;
        assert(key as int == masked_key(es[nn], bits));
        let found = index.get(&key);
        match found {
            Some(j) => {
                let j = *j;
                let kept = out[j];
                out.set(
                    j,
                    HistEntry {
                        color: kept.color,
                        representative: e.representative,
                        importance_sum: e.importance_sum,
                        cluster_index: e.cluster_index,
                    },
                );
                proof {
                    let fp = first_masked(es, bits, nn);
                    assert(masked_key(es[fp[j as int]], bits) == key);
                    assert(!first_of_masked(es, bits, nn));
                    assert(first_masked(es, bits, nn + 1) == fp);
                    assert forall|j2: int| 0 <= j2 < out@.len() implies rekeyed_matches(
                        #[trigger] out@[j2],
                        es,
                        bits,
                        first_masked(es, bits, nn + 1)[j2],
                        nn + 1,
                    ) by {
                        let k2 = masked_key(es[fp[j2]], bits);
                        if j2 != j {
                            assert(index@[k2 as u32] == j2);
                            assert(k2 != key);
                        }
                    }
                }
            },
            None => {
                out.push(
                    HistEntry {
                        color,
                        representative: e.representative,
                        importance_sum: e.importance_sum,
                        cluster_index: e.cluster_index,
                    },
                );
                index.insert(key, out.len() - 1);
                proof {
                    let fp = first_masked(es, bits, nn);
                    assert forall|p: int| 0 <= p < nn implies masked_key(es[p], bits) != masked_key(es[nn], bits) by {
                        assert(index@.contains_key(masked_key(es[p], bits) as u32));
                    }
                    assert(first_of_masked(es, bits, nn));
                    assert(first_masked(es, bits, nn + 1) == fp.push(nn));
                    assert forall|j2: int| 0 <= j2 < out@.len() implies rekeyed_matches(
                        #[trigger] out@[j2],
                        es,
                        bits,
                        first_masked(es, bits, nn + 1)[j2],
                        nn + 1,
                    ) by {
                        if j2 < fp.len() {
                            let k2 = masked_key(es[fp[j2]], bits);
                            assert(index@.contains_key(k2 as u32));
                            assert(k2 != key);
                        }
                    }
                }
            },
        }
        n = n + 1;
    }
    out
}

// ---------------------------------------------------------------- cluster layout

/// How many of the first `n` cluster ids equal `v`.
pub open spec fn count_eq(ids: Seq<u8>, v: int, n: int) -> int
    decreases n,
{
    if n <= 0 {
        0
    } else {
        count_eq(ids, v, n - 1) + if ids[n - 1] == v {
            1int
        } else {
            0
        }
    }
}

/// How many of the first `n` cluster ids are below `c`.
pub open spec fn count_below(ids: Seq<u8>, c: int, n: int) -> int
    decreases n,
{
    if n <= 0 {
        0
    } else {
        count_below(ids, c, n - 1) + if ids[n - 1] < c {
            1int
        } else {
            0
        }
    }
}

proof fn lemma_count_step(ids: Seq<u8>, c: int, n: int)
    requires
        0 <= n <= ids.len(),
    ensures
        count_below(ids, c + 1, n) == count_below(ids, c, n) + count_eq(ids, c, n),
        0 <= count_eq(ids, c, n) <= n,
        0 <= count_below(ids, c, n) <= n,
    decreases n,
{
    if n > 0 {
        lemma_count_step(ids, c, n - 1);
    }
}

proof fn lemma_count_all(ids: Seq<u8>, n: int)
    requires
        0 <= n <= ids.len(),
        forall|i: int| 0 <= i < ids.len() ==> #[trigger] ids[i] < 16,
    ensures
        count_below(ids, 16, n) == n,
        count_below(ids, 0, n) == 0,
    decreases n,
{
    if n > 0 {
        lemma_count_all(ids, n - 1);
    }
}

proof fn lemma_count_eq_mono(ids: Seq<u8>, v: int, m: int, n: int)
    requires
        0 <= m <= n <= ids.len(),
    ensures
        count_eq(ids, v, m) <= count_eq(ids, v, n),
    decreases n - m,
{
    if m < n {
        lemma_count_eq_mono(ids, v, m, n - 1);
    }
}

proof fn lemma_count_below_mono(ids: Seq<u8>, c1: int, c2: int, n: int)
    requires
        c1 <= c2,
        0 <= n <= ids.len(),
    ensures
        count_below(ids, c1, n) <= count_below(ids, c2, n),
    decreases n,
{
    if n > 0 {
        lemma_count_below_mono(ids, c1, c2, n - 1);
    }
}

/// Where each histogram item goes when the items are laid out by cluster,
/// clusters in order and items of one cluster in their input order:
/// returns the 17 bounds of the 16 clusters' ranges (the first at 0, the
/// last at the item count) and the slot of each item.
pub fn cluster_layout(cluster_ids: &[u8]) -> (r: (Vec<usize>, Vec<usize>))
    requires
        forall|i: int| 0 <= i < cluster_ids@.len() ==> #[trigger] cluster_ids@[i] < 16,
    ensures
        r.0@.len() == 17,
        forall|c: int| 0 <= c <= 16 ==> #[trigger] r.0@[c] == count_below(cluster_ids@, c, cluster_ids@.len() as int),
        r.1@.len() == cluster_ids@.len(),
        forall|i: int|
            0 <= i < cluster_ids@.len() ==> #[trigger] r.1@[i] == count_below(
                cluster_ids@,
                cluster_ids@[i] as int,
                cluster_ids@.len() as int,
            ) + count_eq(cluster_ids@, cluster_ids@[i] as int, i),
{
    let ghost ids = cluster_ids@;
    let n = cluster_ids.len();
    let mut counts: Vec<usize> = Vec::new();
    let mut c: usize = 0;
    while c < 16
        invariant
            c <= 16,
            counts@.len() == c,
            forall|k: int| 0 <= k < c ==> #[trigger] counts@[k] == 0,
        decreases 16 - c,
    {
        counts.push(0);
        c = c + 1;
    }
    let mut i: usize = 0;
    while i < n
        invariant
            ids == cluster_ids@,
            n == ids.len(),
            i <= n,
            counts@.len() == 16,
            forall|k: int| 0 <= k < ids.len() ==> #[trigger] ids[k] < 16,
            forall|k: int| 0 <= k < 16 ==> #[trigger] counts@[k] == count_eq(ids, k, i as int),
        decreases n - i,
    {
        let id = cluster_ids[i] as usize;
        proof {
            lemma_count_step(ids, id as int, i as int);
        }
        let bumped = counts[id] + 1;
        counts.set(id, bumped);
        i = i + 1;
    }
    proof {
        lemma_count_all(ids, n as int);
    }
    let mut bounds: Vec<usize> = Vec::new();
    let mut acc: usize = 0;
    let mut c: usize = 0;
    while c < 16
        invariant
            ids == cluster_ids@,
            n == ids.len(),
            c <= 16,
            counts@.len() == 16,
            forall|k: int| 0 <= k < 16 ==> #[trigger] counts@[k] == count_eq(ids, k, n as int),
            bounds@.len() == c,
            acc == count_below(ids, c as int, n as int),
            forall|k: int| 0 <= k < c ==> #[trigger] bounds@[k] == count_below(ids, k, n as int),
        decreases 16 - c,
    {
        proof {
            lemma_count_step(ids, c as int, n as int);
            lemma_count_step(ids, c as int + 1, n as int);
        }
        bounds.push(acc);
        acc = acc + counts[c];
        c = c + 1;
    }
    bounds.push(acc);
    let mut next: Vec<usize> = Vec::new();
    let mut c: usize = 0;
    while c < 16
        invariant
            c <= 16,
            bounds@.len() == 17,
            next@.len() == c,
            forall|k: int| 0 <= k < c ==> #[trigger] next@[k] == bounds@[k],
        decreases 16 - c,
    {
        next.push(bounds[c]);
        c = c + 1;
    }
    let mut slots: Vec<usize> = Vec::new();
    let mut i: usize = 0;
    while i < n
        invariant
            ids == cluster_ids@,
            n == ids.len(),
            i <= n,
            forall|k: int| 0 <= k < ids.len() ==> #[trigger] ids[k] < 16,
            bounds@.len() == 17,
            forall|k: int| 0 <= k <= 16 ==> #[trigger] bounds@[k] == count_below(ids, k, n as int),
            next@.len() == 16,
            forall|k: int| 0 <= k < 16 ==> #[trigger] next@[k] == bounds@[k] + count_eq(ids, k, i as int),
            slots@.len() == i,
            forall|k: int|
                0 <= k < i ==> #[trigger] slots@[k] == count_below(ids, ids[k] as int, n as int) + count_eq(
                    ids,
                    ids[k] as int,
                    k,
                ),
        decreases n - i,
    {
        let id = cluster_ids[i] as usize;
        proof {
            lemma_count_step(ids, id as int, n as int);
            lemma_count_step(ids, id as int, i as int + 1);
            lemma_count_eq_mono(ids, id as int, i as int + 1, n as int);
            lemma_count_step(ids, id as int + 1, n as int);
            assert(bounds@[id as int + 1] == count_below(ids, id as int + 1, n as int));
        }
        let slot = next[id];
        slots.push(slot);
        next.set(id, slot + 1);
        i = i + 1;
    }
    (bounds, slots)
}

/// The layout of [`cluster_layout`] gives every item a slot of its own, in
/// its cluster's range: the slot of an item with cluster `c` lies between
/// bounds `c` and `c + 1`, and two items never share a slot.
pub proof fn lemma_cluster_slots_distinct(ids: Seq<u8>, i: int, j: int)
    requires
        forall|k: int| 0 <= k < ids.len() ==> #[trigger] ids[k] < 16,
        0 <= i < ids.len(),
        0 <= j < ids.len(),
        i != j,
    ensures
        count_below(ids, ids[i] as int, ids.len() as int) <= count_below(ids, ids[i] as int, ids.len() as int)
            + count_eq(ids, ids[i] as int, i) < count_below(ids, ids[i] as int + 1, ids.len() as int),
        count_below(ids, ids[i] as int, ids.len() as int) + count_eq(ids, ids[i] as int, i) != count_below(
            ids,
            ids[j] as int,
            ids.len() as int,
        ) + count_eq(ids, ids[j] as int, j),
{
    let n = ids.len() as int;
    let vi = ids[i] as int;
    let vj = ids[j] as int;
    assert(count_eq(ids, vi, i + 1) == count_eq(ids, vi, i) + 1);
    assert(count_eq(ids, vj, j + 1) == count_eq(ids, vj, j) + 1);
    lemma_count_step(ids, vi, n);
    lemma_count_step(ids, vi, i);
    lemma_count_step(ids, vj, j);
    lemma_count_step(ids, vi, i + 1);
    lemma_count_eq_mono(ids, vi, i + 1, n);
    lemma_count_step(ids, vj, n);
    lemma_count_step(ids, vj, j + 1);
    lemma_count_eq_mono(ids, vj, j + 1, n);
    if vi == vj {
        if i < j {
            lemma_count_eq_mono(ids, vi, i + 1, j);
        } else {
            lemma_count_eq_mono(ids, vi, j + 1, i);
        }
    } else if vi < vj {
        lemma_count_below_mono(ids, vi + 1, vj, n);
    } else {
        lemma_count_below_mono(ids, vj + 1, vi, n);
    }
}

/// The ranges among the first `n` of `clusters` that hold items, in order.
pub open spec fn nonempty_ranges(clusters: Seq<(usize, usize)>, n: int) -> Seq<(usize, usize)>
    decreases n,
{
    if n <= 0 {
        seq![]
    } else if clusters[n - 1].0 != clusters[n - 1].1 {
        nonempty_ranges(clusters, n - 1).push(clusters[n - 1])
    } else {
        nonempty_ranges(clusters, n - 1)
    }
}

/// The item ranges the median cut starts from, one per cluster that holds
/// items, when some clusters do and they are at most a third of
/// `target_colors`; `None` where it starts from the whole histogram.
pub fn initial_box_ranges(clusters: &Vec<(usize, usize)>, target_colors: usize) -> (r: Option<
    Vec<(usize, usize)>,
>)
    ensures
        ({
            let used = nonempty_ranges(clusters@, clusters@.len() as int);
            match r {
                Some(v) => 0 < used.len() <= target_colors / 3 && v@ == used,
                None => !(0 < used.len() <= target_colors / 3),
            }
        }),
{
    let mut used: Vec<(usize, usize)> = Vec::new();
    let mut i: usize = 0;
    while i < clusters.len()
        invariant
            i <= clusters@.len(),
            used@ == nonempty_ranges(clusters@, i as int),
        decreases clusters@.len() - i,
    {
        let range = clusters[i];
        if range.0 != range.1 {
            used.push(range);
        }
        i = i + 1;
    }
    if used.len() > 0 && used.len() <= target_colors / 3 {
        Some(used)
    } else {
        None
    }
}

// ---------------------------------------------------------------- median-cut partition

/// The median of three values.
pub open spec fn median3(a: int, b: int, c: int) -> int {
    if a <= b {
        if b <= c {
            b
        } else if a <= c {
            c
        } else {
            a
        }
    } else if a <= c {
        a
    } else if b <= c {
        c
    } else {
        b
    }
}

/// The sort value that a partition of `s` pivots on: that of the middle
/// item of a short run, else the median of those at positions 8, `len / 2`
/// and `len - 1`.
pub open spec fn pivot_value<T>(s: Seq<(u32, T)>) -> int {
    if s.len() < 32 {
        s[(s.len() / 2) as int].0 as int
    } else {
        median3(s[8].0 as int, s[(s.len() / 2) as int].0 as int, s[s.len() - 1].0 as int)
    }
}

/// The position of the pivot: the middle of a run shorter than 32; else,
/// of positions 8, `len / 2` and `len - 1` ordered by sort value as a stable
/// sort orders them (equal values keep their order), the middle one.
pub open spec fn pivot_index<T>(s: Seq<(u32, T)>) -> int {
    let n = s.len() as int;
    if n < 32 {
        n / 2
    } else {
        let (a, b, c) = (8int, n / 2, n - 1);
        let (x, y) = if s[b].0 < s[a].0 {
            (b, a)
        } else {
            (a, b)
        };
        if s[c].0 < s[y].0 {
            if s[c].0 < s[x].0 {
                x
            } else {
                c
            }
        } else {
            y
        }
    }
}

/// The position of the pivot: the middle of a run shorter than 32, else
/// whichever of positions 8, `len / 2` and `len - 1` holds the median sort
/// value (of equal values, the earlier of them in a stable order).
pub fn qsort_pivot<T: Copy>(base: &Vec<(u32, T)>) -> (p: usize)
    requires
        base@.len() >= 1,
    ensures
        p < base@.len(),
        base@.len() < 32 ==> p == base@.len() / 2,
        base@.len() >= 32 ==> p == 8 || p == base@.len() / 2 || p == base@.len() - 1,
        base@[p as int].0 == pivot_value(base@),
        p == pivot_index(base@),
{
    let len = base.len();
    if len < 32 {
        return len / 2;
    }
    let a: usize = 8;
    let b: usize = len / 2;
    let c: usize = len - 1;
    let va = base[a].0;
    let vb = base[b].0;
    let vc = base[c].0;
    let (x, vx, y, vy) = if vb < va {
        (b, vb, a, va)
    } else {
        (a, va, b, vb)
    };
    if vc < vy {
        if vc < vx {
            x
        } else {
            c
        }
    } else {
        y
    }
}

/// Exchanges the items at `i` and `j`.
fn swap_items<T: Copy>(base: &mut Vec<(u32, T)>, i: usize, j: usize)
    requires
        i < old(base)@.len(),
        j < old(base)@.len(),
    ensures
        final(base)@ == old(base)@.update(i as int, old(base)@[j as int]).update(
            j as int,
            old(base)@[i as int],
        ),
        final(base)@.to_multiset() == old(base)@.to_multiset(),
{
    broadcast use vstd::seq_lib::group_to_multiset_ensures;
    broadcast use vstd::multiset::group_multiset_axioms;

    let ghost s = base@;
    let a = base[i];
    let b = base[j];
    base.set(i, b);
    base.set(j, a);
    proof {
        let s1 = s.update(i as int, b);
        assert(s1.to_multiset() == s.to_multiset().insert(b).remove(a));
        assert(base@ == s1.update(j as int, a));
        assert(base@.to_multiset() == s1.to_multiset().insert(a).remove(s1[j as int]));
        assert(s1[j as int] == b);
        assert(base@.to_multiset() =~= s.to_multiset());
    }
}

/// `s` with the items at `i` and `j` exchanged.
pub open spec fn swapped<T>(s: Seq<(u32, T)>, i: int, j: int) -> Seq<(u32, T)> {
    s.update(i, s[j]).update(j, s[i])
}

/// Moving left from `r`, the first position above `left` whose sort value
/// is above `pv` (or `left` itself).
pub open spec fn scan_down<T>(s: Seq<(u32, T)>, pv: int, left: int, r: int) -> int
    decreases r - left,
{
    if left < r && s[r].0 <= pv {
        scan_down(s, pv, left, r - 1)
    } else {
        r
    }
}

/// The sweep of the partition: items from `left` on with a value at least
/// `pv` stay; one below it is exchanged with the last not yet swept item
/// whose value is above `pv`, which closes the run of items at most `pv`
/// at the end. Gives the arrangement and where the sweeps met.
pub open spec fn sweep<T>(s: Seq<(u32, T)>, pv: int, left: int, right: int) -> (Seq<(u32, T)>, int)
    decreases right - left,
{
    if left >= right {
        (s, left)
    } else if s[left].0 >= pv {
        sweep(s, pv, left + 1, right)
    } else {
        let r2 = scan_down(s, pv, left, right - 1);
        if r2 < left || r2 >= right {
            (s, left)
        } else {
            sweep(swapped(s, left, r2), pv, left, r2)
        }
    }
}

/// The arrangement and pivot position one partition step gives: the pivot
/// moved to the front, the sweep from position 1, and the pivot moved to
/// just before the point where the sweeps met.
pub open spec fn partitioned<T>(s: Seq<(u32, T)>) -> (Seq<(u32, T)>, int) {
    let s1 = swapped(s, pivot_index(s), 0);
    let r = sweep(s1, s1[0].0 as int, 1, s.len() as int);
    (swapped(r.0, r.1 - 1, 0), r.1 - 1)
}

proof fn lemma_scan_down<T>(s: Seq<(u32, T)>, pv: int, left: int, r: int)
    requires
        left <= r,
    ensures
        left <= scan_down(s, pv, left, r) <= r,
    decreases r - left,
{
    if left < r && s[r].0 <= pv {
        lemma_scan_down(s, pv, left, r - 1);
    }
}

/// One partition step of the median cut: moves the item at the pivot (see
/// [`qsort_pivot`]) to position `p`, every item before it with a sort value
/// at least the pivot's and every item after it with one at most the
/// pivot's, and returns `p`. The items are only rearranged, exactly as
/// [`partitioned`] arranges them.
pub fn qsort_partition<T: Copy>(base: &mut Vec<(u32, T)>) -> (p: usize)
    requires
        old(base)@.len() >= 1,
    ensures
        (final(base)@, p as int) == partitioned(old(base)@),
        final(base)@.len() == old(base)@.len(),
        final(base)@.to_multiset() == old(base)@.to_multiset(),
        p < final(base)@.len(),
        final(base)@[p as int].0 == pivot_value(old(base)@),
        forall|i: int| 0 <= i < p ==> #[trigger] final(base)@[i].0 >= final(base)@[p as int].0,
        forall|i: int| p < i < final(base)@.len() ==> #[trigger] final(base)@[i].0 <= final(base)@[p as int].0,
{
    let ghost orig = base@;
    let len = base.len();
    let mut right = len;
    let pivot_at = qsort_pivot(base);
    swap_items(base, pivot_at, 0);
    let pivot = base[0].0;
    assert(pivot == pivot_value(orig));
    let ghost s1 = base@;
    let ghost target = sweep(s1, pivot as int, 1, len as int);
    assert(s1 == swapped(orig, pivot_index(orig), 0));
    let mut left: usize = 1;
    while left < right
        invariant
            len == base@.len(),
            1 <= left <= right <= len,
            base@[0].0 == pivot,
            base@.to_multiset() == orig.to_multiset(),
            forall|i: int| 1 <= i < left ==> #[trigger] base@[i].0 >= pivot,
            forall|i: int| right <= i < len ==> #[trigger] base@[i].0 <= pivot,
            sweep(base@, pivot as int, left as int, right as int) == target,
        decreases right - left,
    {
        if base[left].0 >= pivot {
            left = left + 1;
        } else {
            let ghost right0 = right;
            let ghost before = base@;
            right = right - 1;
            while left < right && base[right].0 <= pivot
                invariant
                    len == base@.len(),
                    base@ == before,
                    1 <= left <= right < len,
                    right < right0,
                    base@[left as int].0 < pivot,
                    forall|i: int| right < i < len ==> #[trigger] base@[i].0 <= pivot,
                    scan_down(before, pivot as int, left as int, right as int) == scan_down(
                        before,
                        pivot as int,
                        left as int,
                        right0 - 1,
                    ),
                decreases right,
            {
                right = right - 1;
            }
            proof {
                lemma_scan_down(before, pivot as int, left as int, right0 - 1);
                assert(scan_down(before, pivot as int, left as int, right as int) == right);
            }
            swap_items(base, left, right);
        }
    }
    let p = left - 1;
    swap_items(base, p, 0);
    p
}

// ---------------------------------------------------------------- palette compaction

/// How many of the palette entries below `o` are used (have a nonzero
/// count).
pub open spec fn kept_before(counts: Seq<usize>, o: int) -> int
    decreases o,
{
    if o <= 0 {
        0
    } else {
        kept_before(counts, o - 1) + if counts[o - 1] > 0 {
            1int
        } else {
            0
        }
    }
}

/// The used palette entries below `n`, in order.
pub open spec fn kept_indices(counts: Seq<usize>, n: int) -> Seq<int>
    decreases n,
{
    if n <= 0 {
        seq![]
    } else if counts[n - 1] > 0 {
        kept_indices(counts, n - 1).push(n - 1)
    } else {
        kept_indices(counts, n - 1)
    }
}

/// The new index of palette entry `o`: its place among the used entries,
/// or 0 where it is unused.
pub open spec fn renumbered(counts: Seq<usize>, o: int) -> int {
    if counts[o] > 0 {
        kept_before(counts, o)
    } else {
        0
    }
}

proof fn lemma_kept(counts: Seq<usize>, n: int)
    requires
        0 <= n <= counts.len(),
    ensures
        kept_indices(counts, n).len() == kept_before(counts, n),
        0 <= kept_before(counts, n) <= n,
        forall|o: int| 0 <= o < n && counts[o] > 0 ==> #[trigger] kept_indices(counts, n)[kept_before(counts, o)] == o,
    decreases n,
{
    if n > 0 {
        lemma_kept(counts, n - 1);
        let prev = kept_indices(counts, n - 1);
        assert forall|o: int| 0 <= o < n && counts[o] > 0 implies #[trigger] kept_indices(counts, n)[kept_before(
            counts,
            o,
        )] == o by {
            if o < n - 1 {
                lemma_kept(counts, o);
                lemma_kept(counts, o + 1);
                lemma_kept_mono(counts, o + 1, n - 1);
                if counts[n - 1] > 0 {
                    assert(kept_indices(counts, n)[kept_before(counts, o)] == prev[kept_before(counts, o)]);
                }
            } else {
                assert(kept_indices(counts, n) == prev.push(n - 1));
            }
        }
    }
}

proof fn lemma_kept_mono(counts: Seq<usize>, m: int, n: int)
    requires
        0 <= m <= n <= counts.len(),
    ensures
        kept_before(counts, m) <= kept_before(counts, n),
    decreases n - m,
{
    if m < n {
        lemma_kept_mono(counts, m, n - 1);
    }
}

/// Drops the palette entries that no pixel uses (count zero) and renumbers
/// the indices to match: returns the used colors in their order, and each
/// index becomes the place of its entry among them (0 for an unused one).
pub fn compact_palette(colors: &Vec<[u8; 4]>, counts: &Vec<usize>, indices: &mut Vec<u8>) -> (r: Vec<[u8; 4]>)
    requires
        colors@.len() == counts@.len(),
        colors@.len() <= 256,
        forall|k: int| 0 <= k < old(indices)@.len() ==> #[trigger] old(indices)@[k] < colors@.len(),
    ensures
        r@.len() == kept_indices(counts@, counts@.len() as int).len(),
        forall|j: int|
            0 <= j < r@.len() ==> #[trigger] r@[j] == colors@[kept_indices(counts@, counts@.len() as int)[j]],
        final(indices)@.len() == old(indices)@.len(),
        forall|k: int|
            0 <= k < old(indices)@.len() ==> #[trigger] final(indices)@[k] == renumbered(
                counts@,
                old(indices)@[k] as int,
            ),
        forall|k: int|
            0 <= k < old(indices)@.len() && counts@[old(indices)@[k] as int] > 0 ==> #[trigger] r@[
                final(indices)@[k] as int] == colors@[old(indices)@[k] as int],
{
    let n = colors.len();
    let ghost cs = counts@;
    let mut remap: Vec<u8> = Vec::new();
    let mut out: Vec<[u8; 4]> = Vec::new();
    let mut o: usize = 0;
    while o < n
        invariant
            n == colors@.len(),
            n == cs.len(),
            cs == counts@,
            n <= 256,
            o <= n,
            remap@.len() == o,
            forall|p: int| 0 <= p < o ==> #[trigger] remap@[p] == renumbered(cs, p),
            out@.len() == kept_indices(cs, o as int).len(),
            forall|j: int| 0 <= j < out@.len() ==> #[trigger] out@[j] == colors@[kept_indices(cs, o as int)[j]],
        decreases n - o,
    {
        proof {
            lemma_kept(cs, o as int);
        }
        if counts[o] > 0 {
            let next = out.len() as u8;
            remap.push(next);
            out.push(colors[o]);
            proof {
                assert(kept_indices(cs, o as int + 1) == kept_indices(cs, o as int).push(o as int));
            }
        } else {
            remap.push(0);
        }
        o = o + 1;
    }
    proof {
        lemma_kept(cs, n as int);
    }
    let ghost before = indices@;
    let mut k: usize = 0;
    while k < indices.len()
        invariant
            remap@.len() == n,
            n == colors@.len(),
            forall|p: int| 0 <= p < n ==> #[trigger] remap@[p] == renumbered(cs, p),
            indices@.len() == before.len(),
            forall|q: int| 0 <= q < before.len() ==> #[trigger] before[q] < n,
            k <= indices@.len(),
            forall|q: int| 0 <= q < k ==> #[trigger] indices@[q] == renumbered(cs, before[q] as int),
            forall|q: int| k <= q < before.len() ==> #[trigger] indices@[q] == before[q],
        decreases indices@.len() - k,
    {
        let v = indices[k];
        let renum = remap[v as usize];
        indices.set(k, renum);
        k = k + 1;
    }
    proof {
        assert forall|q: int| 0 <= q < before.len() && cs[before[q] as int] > 0 implies #[trigger] out@[
            indices@[q] as int] == colors@[before[q] as int] by {
            let v = before[q] as int;
            lemma_kept_mono(cs, v + 1, n as int);
            assert(indices@[q] == renumbered(cs, v));
            assert(kept_indices(cs, n as int)[kept_before(cs, v)] == v);
        }
    }
    out
}

// ---------------------------------------------------------------- search effort

/// One reduction of the feedback trials: three quarters, rounded up.
pub open spec fn reduced_trials(t: int) -> int {
    (t * 3 + 3) / 4
}

/// The feedback trials for a histogram of `hist_items` colors: reduced once
/// for each of 5000, 25000, 50000 and 100000 that the count exceeds.
pub open spec fn spec_feedback_trials(base: u16, hist_items: usize) -> int {
    let t1 = if hist_items > 5000 { reduced_trials(base as int) } else { base as int };
    let t2 = if hist_items > 25000 { reduced_trials(t1) } else { t1 };
    let t3 = if hist_items > 50000 { reduced_trials(t2) } else { t2 };
    if hist_items > 100000 { reduced_trials(t3) } else { t3 }
}

/// The feedback trials for a histogram size (see [`spec_feedback_trials`]).
pub fn effective_feedback_trials(base_trials: u16, hist_items: usize) -> (r: u16)
    requires
        base_trials <= 21844,
    ensures
        r == spec_feedback_trials(base_trials, hist_items),
        r <= base_trials,
{
    let mut trials = base_trials;
    if hist_items > 5_000 {
        trials = (trials * 3 + 3) / 4;
    }
    if hist_items > 25_000 {
        trials = (trials * 3 + 3) / 4;
    }
    if hist_items > 50_000 {
        trials = (trials * 3 + 3) / 4;
    }
    if hist_items > 100_000 {
        trials = (trials * 3 + 3) / 4;
    }
    trials
}

/// The k-means iterations for a histogram of `hist_items` colors: reduced
/// like the feedback trials, but at least one when a quality target is set
/// and the palette error is not yet known.
pub open spec fn spec_kmeans_iterations(
    base: u16,
    hist_items: usize,
    palette_error_is_known: bool,
    has_quality_target: bool,
) -> int {
    let it = spec_feedback_trials(base, hist_items);
    if it == 0 && !palette_error_is_known && has_quality_target { 1 } else { it }
}

/// The k-means iterations for a histogram size (see [`spec_kmeans_iterations`]).
pub fn effective_kmeans_iterations(
    base_iterations: u16,
    hist_items: usize,
    palette_error_is_known: bool,
    has_quality_target: bool,
) -> (r: u16)
    requires
        base_iterations <= 21844,
    ensures
        r == spec_kmeans_iterations(base_iterations, hist_items, palette_error_is_known, has_quality_target),
{
    let mut iterations = effective_feedback_trials(base_iterations, hist_items);
    if iterations == 0 && !palette_error_is_known && has_quality_target {
        iterations = 1;
    }
    iterations
}

/// The number of row bands dithered in parallel, for `threads` workers:
/// one for images of at most 128 rows, else one per 524288 pixels but at
/// most one per 128 rows, at least 2, at most `threads`, and never 0.
pub open spec fn spec_dither_chunks(width: usize, height: usize, threads: usize) -> int {
    if height <= 128 {
        1
    } else {
        let pixels: int = if width * height > usize::MAX { usize::MAX as int } else { (width * height) as int };
        let a = pixels / 524288;
        let b: int = if a < height / 128 { a } else { (height / 128) as int };
        let c: int = if b > 2 { b } else { 2 };
        let d = if c < threads { c } else { threads as int };
        if d > 1 { d } else { 1 }
    }
}

/// The number of dithering bands for `threads` workers (see [`spec_dither_chunks`]).
pub fn dither_chunks_for(width: usize, height: usize, threads: usize) -> (r: usize)
    ensures
        r == spec_dither_chunks(width, height, threads),
        r >= 1,
{
    if height <= 128 {
        return 1;
    }
    let pixels = match width.checked_mul(height) {
        Some(p) => p,
        None => usize::MAX,
    };
    let a = pixels / 524_288;
    let b = if a < height / 128 { a } else { height / 128 };
    let c = if b > 2 { b } else { 2 };
    let d = if c < threads { c } else { threads };
    if d > 1 { d } else { 1 }
}

/// `rayon::current_num_threads`: the size of the current thread pool, which
/// depends on the machine and the configuration.
#[verifier::external_body]
fn current_num_threads() -> (n: usize) {
    rayon::current_num_threads()
}

/// The number of row bands dithered in parallel on this machine.
pub fn effective_dither_chunks(width: usize, height: usize) -> (r: usize)
    ensures
        exists|threads: usize| r == spec_dither_chunks(width, height, threads),
        r >= 1,
        height <= 128 ==> r == 1,
{
    let threads = current_num_threads();
    dither_chunks_for(width, height, threads)
}

// ---------------------------------------------------------------- 3x3 filters

pub open spec fn max_u8(a: u8, b: u8) -> u8 {
    if a >= b { a } else { b }
}

pub open spec fn min_u8(a: u8, b: u8) -> u8 {
    if a <= b { a } else { b }
}

/// The filtered value at (`row`, `col`) of a `w` by `h` plane: `f` folded
/// over the sample, its left and right neighbors and the samples above and
/// below, with edges repeated. The last column takes the one before it as
/// its center.
pub open spec fn op3_at(src: Seq<u8>, w: int, h: int, f: spec_fn(u8, u8) -> u8, row: int, col: int) -> u8 {
    let base = row * w;
    let up = (if row > 0 { row - 1 } else { 0 }) * w;
    let down = (if row + 1 < h { row + 1 } else { h - 1 }) * w;
    let vert = f(src[down + col], src[up + col]);
    if col < w - 1 {
        let prev = if col == 0 { src[base] } else { src[base + col - 1] };
        let curr = src[base + col];
        let next = src[base + col + 1];
        f(curr, f(f(prev, next), vert))
    } else {
        let curr = if w >= 2 { src[base + w - 2] } else { src[base] };
        f(curr, f(f(curr, src[base + w - 1]), vert))
    }
}

proof fn lemma_row_offsets(row: int, w: int, h: int)
    requires
        0 <= row < h,
        w >= 1,
    ensures
        row * w + w <= w * h,
        (if row > 0 { row - 1 } else { 0 }) * w + w <= w * h,
        (if row + 1 < h { row + 1 } else { h - 1 }) * w + w <= w * h,
        0 <= row * w,
        0 <= (if row > 0 { row - 1 } else { 0 }) * w,
        0 <= (if row + 1 < h { row + 1 } else { h - 1 }) * w,
        row * w + w == (row + 1) * w,
{
    assert(row * w + w <= w * h) by (nonlinear_arith)
        requires
            row + 1 <= h,
            w >= 1,
    ;
    let up = if row > 0 { row - 1 } else { 0 };
    let down = if row + 1 < h { row + 1 } else { h - 1 };
    assert(up * w + w <= w * h) by (nonlinear_arith)
        requires
            0 <= up,
            up + 1 <= h,
            w >= 1,
    ;
    assert(down * w + w <= w * h) by (nonlinear_arith)
        requires
            0 <= down,
            down + 1 <= h,
            w >= 1,
    ;
    assert(0 <= row * w) by (nonlinear_arith)
        requires
            0 <= row,
            w >= 1,
    ;
    assert(0 <= up * w) by (nonlinear_arith)
        requires
            0 <= up,
            w >= 1,
    ;
    assert(0 <= down * w) by (nonlinear_arith)
        requires
            0 <= down,
            w >= 1,
    ;
    assert(row * w + w == (row + 1) * w) by (nonlinear_arith);
}

fn op3<F: Fn(u8, u8) -> u8>(
    src: &Vec<u8>,
    dst: &mut Vec<u8>,
    width: usize,
    height: usize,
    op: F,
    Ghost(f): Ghost<spec_fn(u8, u8) -> u8>,
)
    requires
        width >= 1,
        height >= 1,
        width * height <= src@.len(),
        width * height <= old(dst)@.len(),
        forall|a: u8, b: u8| op.requires((a, b)),
        forall|a: u8, b: u8, r: u8| op.ensures((a, b), r) ==> r == f(a, b),
    ensures
        final(dst)@.len() == old(dst)@.len(),
        forall|i: int|
            0 <= i < old(dst)@.len() ==> #[trigger] final(dst)@[i] == if i < width * height {
                op3_at(src@, width as int, height as int, f, i / width as int, i % width as int)
            } else {
                old(dst)@[i]
            },
{
    let ghost w = width as int;
    let ghost h = height as int;
    let ghost orig = dst@;
    assert(src@.len() == src.len());
    let mut row: usize = 0;
    while row < height
        invariant
            w == width,
            w * h <= usize::MAX,
            h == height,
            width >= 1,
            height >= 1,
            row <= height,
            w * h <= src@.len(),
            w * h <= orig.len(),
            dst@.len() == orig.len(),
            forall|a: u8, b: u8| op.requires((a, b)),
            forall|a: u8, b: u8, r: u8| op.ensures((a, b), r) ==> r == f(a, b),
            forall|i: int|
                0 <= i < orig.len() ==> #[trigger] dst@[i] == if i < row * w {
                    op3_at(src@, w, h, f, i / w, i % w)
                } else {
                    orig[i]
                },
        decreases height - row,
    {
        proof {
            lemma_row_offsets(row as int, w, h);
        }
        let base = row * width;
        let up = (if row > 0 { row - 1 } else { 0 }) * width;
        let down = (if row + 1 < height { row + 1 } else { height - 1 }) * width;
        let mut curr = src[base];
        let mut next = src[base];
        let mut col: usize = 0;
        while col < width - 1
            invariant
                w == width,
                h == height,
                width >= 1,
                row < height,
                base == row * w,
                up == (if row > 0 { row - 1 } else { 0 }) * w,
                down == (if row + 1 < h { row + 1 } else { h - 1 }) * w,
                base + w <= w * h,
                up + w <= w * h,
                down + w <= w * h,
                base + w == (row + 1) * w,
                w * h <= usize::MAX,
                w * h <= src@.len(),
                w * h <= orig.len(),
                dst@.len() == orig.len(),
                col <= width - 1,
                next == src@[base + col],
                col == 0 ==> curr == src@[base as int],
                col > 0 ==> curr == src@[base + col - 1],
                forall|a: u8, b: u8| op.requires((a, b)),
                forall|a: u8, b: u8, r: u8| op.ensures((a, b), r) ==> r == f(a, b),
                forall|i: int|
                    0 <= i < orig.len() ==> #[trigger] dst@[i] == if i < base + col {
                        op3_at(src@, w, h, f, i / w, i % w)
                    } else {
                        orig[i]
                    },
            decreases width - 1 - col,
        {
            let prev = curr;
            curr = next;
            next = src[base + col + 1];
            let t1 = op(prev, next);
            let t2 = op(src[down + col], src[up + col]);
            let inner = op(t1, t2);
            let v = op(curr, inner);
            proof {
                let i = base + col;
                lemma_fundamental_div_mod_converse(i, w, row as int, col as int);
            }
            dst.set(base + col, v);
            col = col + 1;
        }
        let t1 = op(curr, next);
        let t2 = op(src[down + width - 1], src[up + width - 1]);
        let inner = op(t1, t2);
        let v = op(curr, inner);
        proof {
            let i = base + width - 1;
            lemma_fundamental_div_mod_converse(i, w, row as int, w - 1);
            if width >= 2 {
                assert(curr == src@[base + w - 2]);
            }
        }
        dst.set(base + width - 1, v);
        row = row + 1;
    }
}

/// The 3x3 cross maximum of a `width` by `height` plane (see [`op3_at`]).
pub fn max3(src: &Vec<u8>, dst: &mut Vec<u8>, width: usize, height: usize)
    requires
        width >= 1,
        height >= 1,
        width * height <= src@.len(),
        width * height <= old(dst)@.len(),
    ensures
        final(dst)@.len() == old(dst)@.len(),
        forall|i: int|
            0 <= i < old(dst)@.len() ==> #[trigger] final(dst)@[i] == if i < width * height {
                op3_at(
                    src@,
                    width as int,
                    height as int,
                    (|a: u8, b: u8| max_u8(a, b)),
                    i / width as int,
                    i % width as int,
                )
            } else {
                old(dst)@[i]
            },
{
    let m = |a: u8, b: u8| -> (r: u8)
        ensures
            r == max_u8(a, b),
        {
            if a >= b { a } else { b }
        };
    op3(src, dst, width, height, m, Ghost(|a: u8, b: u8| max_u8(a, b)));
}

/// The 3x3 cross minimum of a `width` by `height` plane (see [`op3_at`]).
pub fn min3(src: &Vec<u8>, dst: &mut Vec<u8>, width: usize, height: usize)
    requires
        width >= 1,
        height >= 1,
        width * height <= src@.len(),
        width * height <= old(dst)@.len(),
    ensures
        final(dst)@.len() == old(dst)@.len(),
        forall|i: int|
            0 <= i < old(dst)@.len() ==> #[trigger] final(dst)@[i] == if i < width * height {
                op3_at(
                    src@,
                    width as int,
                    height as int,
                    (|a: u8, b: u8| min_u8(a, b)),
                    i / width as int,
                    i % width as int,
                )
            } else {
                old(dst)@[i]
            },
{
    let m = |a: u8, b: u8| -> (r: u8)
        ensures
            r == min_u8(a, b),
        {
            if a <= b { a } else { b }
        };
    op3(src, dst, width, height, m, Ghost(|a: u8, b: u8| min_u8(a, b)));
}

// ---------------------------------------------------------------- box blur

/// `k` clamped to a valid position of a row of `w` samples.
pub open spec fn clamp_index(k: int, w: int) -> int {
    if k < 0 {
        0
    } else if k >= w {
        w - 1
    } else {
        k
    }
}

/// The sum of the samples at positions `lo..=hi` of `row`, positions past
/// either end repeating the end sample.
pub open spec fn window_sum(row: Seq<u8>, lo: int, hi: int) -> int
    decreases hi + 1 - lo,
{
    if hi < lo {
        0
    } else {
        window_sum(row, lo, hi - 1) + row[clamp_index(hi, row.len() as int)]
    }
}

/// The box average at `col` of a row for radius `r`: the mean of the `2r`
/// samples from `col - r + 1` to `col + r`, rounded down.
pub open spec fn box_average(row: Seq<u8>, col: int, r: int) -> int {
    window_sum(row, col - r + 1, col + r) / (2 * r)
}

/// Sample `i` of the transposed, horizontally blurred image: `i` is column
/// `i / h` of row `i % h` of the `w` by `h` source.
pub open spec fn blur_pass_at(src: Seq<u8>, w: int, h: int, r: int, i: int) -> int {
    let row = i % h;
    box_average(src.subrange(row * w, row * w + w), i / h, r)
}

/// Whether a pass with radius `r` does anything on a `w` by `h` image.
pub open spec fn blur_applies(w: int, h: int, r: int) -> bool {
    w >= 2 * r + 1 && h >= 2 * r + 1
}

proof fn lemma_window_first(row: Seq<u8>, lo: int, hi: int)
    requires
        lo <= hi,
    ensures
        window_sum(row, lo, hi) == row[clamp_index(lo, row.len() as int)] + window_sum(row, lo + 1, hi),
    decreases hi + 1 - lo,
{
    if lo < hi {
        lemma_window_first(row, lo, hi - 1);
        assert(window_sum(row, lo + 1, hi) == window_sum(row, lo + 1, hi - 1) + row[clamp_index(
            hi,
            row.len() as int,
        )]);
    } else {
        assert(window_sum(row, lo, hi - 1) == 0);
        assert(window_sum(row, lo + 1, hi) == 0);
    }
}

proof fn lemma_window_bound(row: Seq<u8>, lo: int, hi: int)
    requires
        lo <= hi + 1,
    ensures
        0 <= window_sum(row, lo, hi) <= 255 * (hi - lo + 1),
    decreases hi + 1 - lo,
{
    if lo <= hi {
        lemma_window_bound(row, lo, hi - 1);
    }
}

proof fn lemma_window_left_pad(row: Seq<u8>, lo: int, hi: int)
    requires
        lo <= hi + 1,
        hi < 0,
        row.len() >= 1,
    ensures
        window_sum(row, lo, hi) == (hi - lo + 1) * row[0],
    decreases hi + 1 - lo,
{
    if lo <= hi {
        lemma_window_left_pad(row, lo, hi - 1);
        assert(clamp_index(hi, row.len() as int) == 0);
        assert(window_sum(row, lo, hi) == window_sum(row, lo, hi - 1) + row[0]);
        assert((hi - lo) * row[0] + row[0] == (hi - lo + 1) * row[0]) by (nonlinear_arith);
    } else {
        assert(window_sum(row, lo, hi) == 0);
        assert((hi - lo + 1) * row[0] == 0) by (nonlinear_arith)
            requires
                hi - lo + 1 == 0,
        ;
    }
}

proof fn lemma_div_mod_unique(i: int, h: int, q: int, r: int)
    requires
        h >= 1,
        0 <= i,
        i / h == q,
        i % h == r,
    ensures
        i == q * h + r,
{
    lemma_fundamental_div_mod(i, h);
    assert(h * q == q * h) by (nonlinear_arith);
}

proof fn lemma_transposed_index(col: int, h: int, row: int, w: int)
    requires
        0 <= col < w,
        0 <= row < h,
    ensures
        0 <= col * h + row < w * h,
        (col * h + row) / h == col,
        (col * h + row) % h == row,
{
    assert(col * h + row < w * h) by (nonlinear_arith)
        requires
            col + 1 <= w,
            row < h,
            0 <= row,
    ;
    assert(0 <= col * h) by (nonlinear_arith)
        requires
            0 <= col,
            0 <= h,
    ;
    lemma_fundamental_div_mod_converse(col * h + row, h, col, row);
}

/// Row `row` of a plane `w` samples wide.
pub open spec fn row_of(src: Seq<u8>, w: int, row: int) -> Seq<u8> {
    src.subrange(row * w, row * w + w)
}

/// The running window sums of a blur pass with radius `r` fit the `u16`
/// accumulator: the starting sum of each row and every window sum.
pub open spec fn blur_sums_fit(src: Seq<u8>, w: int, h: int, r: int) -> bool {
    &&& 2 * r <= u16::MAX
    &&& forall|row: int| 0 <= row < h ==> #[trigger] window_sum(row_of(src, w, row), -r, r - 1) <= u16::MAX
    &&& forall|row: int, col: int|
        0 <= row < h && 0 <= col < w ==> #[trigger] window_sum(row_of(src, w, row), col - r + 1, col + r)
            <= u16::MAX
}

/// A radius of at most 128 always fits: no window of `2r` bytes exceeds
/// `u16::MAX`.
pub proof fn lemma_small_radius_fits(src: Seq<u8>, w: int, h: int, r: int)
    requires
        0 <= r <= 128,
    ensures
        blur_sums_fit(src, w, h, r),
{
    assert forall|row: int| 0 <= row < h implies #[trigger] window_sum(row_of(src, w, row), -r, r - 1)
        <= u16::MAX by {
        lemma_window_bound(row_of(src, w, row), -r, r - 1);
    }
    assert forall|row: int, col: int| 0 <= row < h && 0 <= col < w implies #[trigger] window_sum(
        row_of(src, w, row),
        col - r + 1,
        col + r,
    ) <= u16::MAX by {
        lemma_window_bound(row_of(src, w, row), col - r + 1, col + r);
    }
}

proof fn lemma_window_mono(row: Seq<u8>, lo: int, hi1: int, hi2: int)
    requires
        lo <= hi1 + 1,
        hi1 <= hi2,
    ensures
        window_sum(row, lo, hi1) <= window_sum(row, lo, hi2),
    decreases hi2 - hi1,
{
    if hi1 < hi2 {
        lemma_window_mono(row, lo, hi1, hi2 - 1);
    }
}

/// One pass of the box blur: each row of the `width` by `height` source is
/// averaged over a window of `2 * size` samples and written transposed, as
/// a column of `dst`. Images smaller than `2 * size + 1` either way are
/// left alone.
pub fn transposing_1d_blur(src: &Vec<u8>, dst: &mut Vec<u8>, width: usize, height: usize, size: u16)
    requires
        blur_applies(width as int, height as int, size as int) ==> 1 <= size && blur_sums_fit(
            src@,
            width as int,
            height as int,
            size as int,
        ) && src@.len() == width * height && old(dst)@.len() >= width * height,
    ensures
        final(dst)@.len() == old(dst)@.len(),
        !blur_applies(width as int, height as int, size as int) ==> final(dst)@ == old(dst)@,
        blur_applies(width as int, height as int, size as int) ==> forall|i: int|
            0 <= i < old(dst)@.len() ==> #[trigger] final(dst)@[i] == if i < width * height {
                blur_pass_at(src@, width as int, height as int, size as int, i)
            } else {
                old(dst)@[i] as int
            },
{
    let radius = size as usize;
    if width < 2 * radius + 1 || height < 2 * radius + 1 {
        return;
    }
    let ghost w = width as int;
    let ghost h = height as int;
    let ghost r = radius as int;
    let ghost orig = dst@;
    assert(src@.len() == src.len());
    let mut row_idx: usize = 0;
    while row_idx < height
        invariant
            w == width,
            h == height,
            r == radius,
            radius == size,
            1 <= size,
            blur_sums_fit(src@, w, h, r),
            w >= 2 * r + 1,
            h >= 2 * r + 1,
            src@.len() == w * h,
            w * h <= usize::MAX,
            orig.len() >= w * h,
            dst@.len() == orig.len(),
            row_idx <= height,
            forall|i: int|
                0 <= i < orig.len() ==> #[trigger] dst@[i] == if i < w * h && i % h < row_idx {
                    blur_pass_at(src@, w, h, r, i)
                } else {
                    orig[i] as int
                },
        decreases height - row_idx,
    {
        let ghost rb = row_idx * w;
        proof {
            assert(rb + w <= w * h) by (nonlinear_arith)
                requires
                    rb == row_idx * w,
                    row_idx + 1 <= h,
                    w >= 0,
            ;
            assert(0 <= rb) by (nonlinear_arith)
                requires
                    rb == row_idx * w,
                    0 <= row_idx,
                    0 <= w,
            ;
        }
        let base = row_idx * width;
        let ghost row = src@.subrange(rb, rb + w);
        let first = src[base] as u16;
        proof {
            assert(row == row_of(src@, w, row_idx as int));
            assert(window_sum(row, -r, r - 1) <= u16::MAX);
            lemma_window_left_pad(row, -r, -1);
            lemma_window_mono(row, -r, -1, r - 1);
            assert(row[0] == src@[base as int]);
            assert(first * size == r * row[0]) by (nonlinear_arith)
                requires
                    first == row[0],
                    r == size,
            ;
        }
        let mut sum: u16 = first * size;
        let mut k: usize = 0;
        while k < radius
            invariant
                0 <= k <= radius,
                radius == r,
                window_sum(row, -r, r - 1) <= u16::MAX,
                w >= 2 * r + 1,
                base == rb,
                rb + w <= src@.len(),
                src@.len() <= usize::MAX,
                row == src@.subrange(rb, rb + w),
                sum == window_sum(row, -r, k - 1),
            decreases radius - k,
        {
            proof {
                lemma_window_mono(row, -r, k as int, r - 1);
                assert(clamp_index(k as int, row.len() as int) == k);
                assert(window_sum(row, -r, k as int) == sum + row[k as int]);
                assert(row[k as int] == src@[base + k]);
            }
            sum = sum + src[base + k] as u16;
            k = k + 1;
        }
        let ghost done = dst@;
        let mut col: usize = 0;
        while col < width
            invariant
                w == width,
                h == height,
                r == radius,
                radius == size,
                1 <= size,
                blur_sums_fit(src@, w, h, r),
                w >= 2 * r + 1,
                h >= 2 * r + 1,
                row_idx < height,
                base == rb,
                rb == row_idx * w,
                rb + w <= src@.len(),
                src@.len() == w * h,
                w * h <= usize::MAX,
                row == src@.subrange(rb, rb + w),
                col <= width,
                sum == window_sum(row, col - r, col + r - 1),
                dst@.len() == orig.len(),
                orig.len() >= w * h,
                forall|i: int|
                    0 <= i < orig.len() ==> #[trigger] dst@[i] == if i < w * h && i % h == row_idx && i / h
                        < col {
                        blur_pass_at(src@, w, h, r, i)
                    } else {
                        done[i] as int
                    },
            decreases width - col,
        {
            proof {
                lemma_window_first(row, col - r, col + r - 1);
                lemma_window_bound(row, col - r + 1, col + r - 1);
                lemma_window_bound(row, col - r + 1, col + r);
                assert(row == row_of(src@, w, row_idx as int));
                assert(window_sum(row_of(src@, w, row_idx as int), col - r + 1, col + r) <= u16::MAX);
                lemma_window_mono(row, col - r + 1, col + r - 1, col + r);
                assert(window_sum(row, col - r + 1, col + r) == window_sum(row, col - r + 1, col + r - 1)
                    + row[clamp_index(col + r, w)]);
                assert(col + r < w * h) by (nonlinear_arith)
                    requires
                        col < w,
                        r < w,
                        h >= 3,
                        w >= 1,
                ;
            }
            let drop_at: usize = if col < radius { 0 } else { col - radius };
            let add_at: usize = if col + radius < width { col + radius } else { width - 1 };
            proof {
                assert(drop_at == clamp_index(col - r, w));
                assert(add_at == clamp_index(col + r, w));
                assert(src@[base + drop_at] == row[drop_at as int]);
                assert(src@[base + add_at] == row[add_at as int]);
            }
            sum = sum - src[base + drop_at] as u16;
            sum = sum + src[base + add_at] as u16;
            let avg: u16 = sum / (size * 2);
            proof {
                lemma_transposed_index(col as int, h, row_idx as int, w);
                assert(avg <= 255) by (nonlinear_arith)
                    requires
                        avg as int == sum as int / (2 * r),
                        sum as int <= 255 * (2 * r),
                        r >= 1,
                ;
            }
            let ghost before = dst@;
            dst.set(col * height + row_idx, avg as u8);
            proof {
                let j = col * h + row_idx;
                assert(sum == window_sum(row, col - r + 1, col + r));
                assert(src@.subrange((j % h) * w, (j % h) * w + w) == row);
                assert(dst@[j] == blur_pass_at(src@, w, h, r, j));
                assert forall|i: int| 0 <= i < orig.len() implies #[trigger] dst@[i] == if i < w * h && i % h
                    == row_idx && i / h < col + 1 {
                    blur_pass_at(src@, w, h, r, i)
                } else {
                    done[i] as int
                } by {
                    if i != j {
                        assert(dst@[i] == before[i]);
                        if 0 <= i < w * h && i % h == row_idx && i / h == col {
                            lemma_div_mod_unique(i, h, col as int, row_idx as int);
                        }
                    }
                }
            }
            col = col + 1;
        }
        proof {
            assert forall|i: int| 0 <= i < orig.len() implies #[trigger] dst@[i] == if i < w * h && i % h
                < row_idx + 1 {
                blur_pass_at(src@, w, h, r, i)
            } else {
                orig[i] as int
            } by {
                if 0 <= i < w * h {
                    lemma_fundamental_div_mod(i, h);
                    assert(i / h < w) by (nonlinear_arith)
                        requires
                            0 <= i < w * h,
                            h >= 1,
                    ;
                }
            }
        }
        row_idx = row_idx + 1;
    }
}

/// The box blur: a horizontal then a vertical pass, through `tmp`.
pub fn blur(src_dst: &mut Vec<u8>, tmp: &mut Vec<u8>, width: usize, height: usize, size: u16)
    requires
        blur_applies(width as int, height as int, size as int) ==> 1 <= size && old(src_dst)@.len() == width
            * height && old(tmp)@.len() == width * height && blur_sums_fit(
            old(src_dst)@,
            width as int,
            height as int,
            size as int,
        ) && blur_sums_fit(
            Seq::new(
                (width * height) as nat,
                |i: int| blur_pass_at(old(src_dst)@, width as int, height as int, size as int, i) as u8,
            ),
            height as int,
            width as int,
            size as int,
        ),
    ensures
        final(src_dst)@.len() == old(src_dst)@.len(),
        final(tmp)@.len() == old(tmp)@.len(),
        !blur_applies(width as int, height as int, size as int) ==> final(src_dst)@ == old(src_dst)@
            && final(tmp)@ == old(tmp)@,
        blur_applies(width as int, height as int, size as int) ==> (forall|i: int|
            0 <= i < width * height ==> #[trigger] final(tmp)@[i] == blur_pass_at(
                old(src_dst)@,
                width as int,
                height as int,
                size as int,
                i,
            )) && (forall|i: int|
            0 <= i < width * height ==> #[trigger] final(src_dst)@[i] == blur_pass_at(
                final(tmp)@,
                height as int,
                width as int,
                size as int,
                i,
            )),
{
    transposing_1d_blur(src_dst, tmp, width, height, size);
    proof {
        if blur_applies(width as int, height as int, size as int) {
            assert(height * width == width * height) by (nonlinear_arith);
            let first = Seq::new(
                (width * height) as nat,
                |i: int| blur_pass_at(old(src_dst)@, width as int, height as int, size as int, i) as u8,
            );
            assert forall|i: int| 0 <= i < width * height implies tmp@[i] == first[i] by {
                assert(tmp@[i] == blur_pass_at(old(src_dst)@, width as int, height as int, size as int, i));
            }
            assert(tmp@ =~= first);
        }
    }
    transposing_1d_blur(tmp, src_dst, height, width, size);
}

} // verus!
