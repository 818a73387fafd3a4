//! Helpers of the development tooling: corrupting sample files for the
//! robustness corpus, and shortening text for reports.

use vstd::prelude::*;
use vstd::string::*;

use crate::pipeline::png_signature;
use crate::text::{owned, push_str};

verus! {

/// The corruption `mutate_bytes` applies, chosen by `seed % 5`:
/// 0 truncates to `seed % len` bytes (at least one), 1 flips bit `seed % 8`
/// of byte `seed % len`, 2 overwrites a block of up to 64 bytes from
/// `seed % len` with `(seed + 131 i) % 256`, 3 copies a block of up to 128
/// bytes from `seed % len` to position `7 seed % len`, and 4 appends
/// `seed % 128 + 1` bytes `(seed + 17 i) % 256`. An empty input becomes the
/// PNG signature. Positions use `seed` as a `usize`.
pub open spec fn mutated(src: Seq<u8>, seed: u64) -> Seq<u8> {
    let n = src.len() as int;
    let s = (seed as usize) as int;
    if n == 0 {
        png_signature()
    } else if seed % 5 == 0 {
        let k = s % n;
        src.take(if k < 1 { 1 } else { k })
    } else if seed % 5 == 1 {
        let idx = s % n;
        src.update(idx, src[idx] ^ (1u8 << ((s % 8) as u8)))
    } else if seed % 5 == 2 {
        let start = s % n;
        let block = if s % 64 + 1 < n - start { s % 64 + 1 } else { n - start };
        Seq::new(
            n as nat,
            |i: int|
                if start <= i < start + block {
                    ((seed + i * 131) % 256) as u8
                } else {
                    src[i]
                },
        )
    } else if seed % 5 == 3 {
        let start = s % n;
        let block = if s % 128 + 1 < n - start { s % 128 + 1 } else { n - start };
        let at = (s * 7) % n;
        src.take(at) + src.subrange(start, start + block) + src.skip(at)
    } else {
        src + Seq::new((s % 128 + 1) as nat, |i: int| ((seed + i * 17) % 256) as u8)
    }
}

/// The inputs on which the byte arithmetic of `mutate_bytes` stays within
/// its integer types.
pub open spec fn mutation_fits(len: nat, seed: u64) -> bool {
    let n = len as int;
    let s = (seed as usize) as int;
    if n == 0 {
        true
    } else if seed % 5 == 2 {
        let start = s % n;
        let block = if s % 64 + 1 < n - start { s % 64 + 1 } else { n - start };
        seed + (start + block - 1) * 131 <= u64::MAX
    } else if seed % 5 == 3 {
        s * 7 <= usize::MAX
    } else if seed % 5 == 4 {
        seed + (s % 128) * 17 <= u64::MAX
    } else {
        true
    }
}

/// A corrupted copy of `src` for robustness testing (see [`mutated`]).
pub fn mutate_bytes(src: &[u8], seed: u64) -> (r: Vec<u8>)
    requires
        mutation_fits(src@.len(), seed),
    ensures
        r@ == mutated(src@, seed),
{
    if src.len() == 0 {
        let sig: [u8; 8] = [137u8, 80u8, 78u8, 71u8, 13u8, 10u8, 26u8, 10u8];
        let mut out: Vec<u8> = Vec::new();
        out.extend_from_slice(sig.as_slice());
        proof {
            assert(out@ =~= png_signature());
        }
        return out;
    }
    let n = src.len();
    let s = seed as usize;
    let mode = seed % 5;
    let mut data: Vec<u8> = Vec::new();
    data.extend_from_slice(src);
    if mode == 0 {
        let k = s % n;
        let keep = if k < 1 { 1 } else { k };
        data.truncate(keep);
        proof {
            assert(data@ =~= src@.take(keep as int));
        }
        data
    } else if mode == 1 {
        let idx = s % n;
        let bit: u8 = 1u8 << ((s % 8) as u8);
        let v = data[idx] ^ bit;
        data.set(idx, v);
        data
    } else if mode == 2 {
        let start = s % n;
        let block = if s % 64 + 1 < n - start { s % 64 + 1 } else { n - start };
        let mut i = start;
        while i < start + block
            invariant
                start <= i <= start + block,
                start + block <= n,
                n == src@.len(),
                mutation_fits(src@.len(), seed),
                seed % 5 == 2,
                s == seed as usize,
                start == s % n,
                block == (if s % 64 + 1 < n - start { s % 64 + 1 } else { n - start }),
                data@.len() == n,
                forall|j: int|
                    0 <= j < n ==> #[trigger] data@[j] == if start <= j < i {
                        ((seed + j * 131) % 256) as u8
                    } else {
                        src@[j]
                    },
            decreases start + block - i,
        {
            let v = ((seed + (i as u64) * 131) % 256) as u8;
            data.set(i, v);
            i = i + 1;
        }
        proof {
            assert(data@ =~= mutated(src@, seed));
        }
        data
    } else if mode == 3 {
        let start = s % n;
        let block = if s % 128 + 1 < n - start { s % 128 + 1 } else { n - start };
        let at = (s * 7) % n;
        let mut out: Vec<u8> = Vec::new();
        out.extend_from_slice(&data.as_slice()[0..at]);
        out.extend_from_slice(&data.as_slice()[start..start + block]);
        out.extend_from_slice(&data.as_slice()[at..n]);
        proof {
            assert(data@ =~= src@);
            assert(out@ =~= mutated(src@, seed));
        }
        out
    } else {
        let noise_len = s % 128 + 1;
        let mut i: usize = 0;
        while i < noise_len
            invariant
                i <= noise_len,
                noise_len == s % 128 + 1,
                s == seed as usize,
                seed % 5 == 4,
                n == src@.len(),
                n > 0,
                mutation_fits(src@.len(), seed),
                data@ == src@ + Seq::new(i as nat, |j: int| ((seed + j * 17) % 256) as u8),
            decreases noise_len - i,
        {
            let v = ((seed + (i as u64) * 17) % 256) as u8;
            data.push(v);
            proof {
                assert(data@ =~= src@ + Seq::new((i + 1) as nat, |j: int| ((seed + j * 17) % 256) as u8));
            }
            i = i + 1;
        }
        data
    }
}

/// `s` unchanged when it has at most `max_len` bytes, else its first
/// `max_len` bytes followed by `...`.
pub fn truncate(s: &str, max_len: usize) -> (r: String)
    requires
        s.spec_bytes().len() > max_len ==> s.is_char_boundary(max_len),
    ensures
        s.spec_bytes().len() <= max_len ==> r@ == s@,
        s.spec_bytes().len() > max_len ==> exists|head: &str|
            #[trigger] head.spec_bytes() == s.spec_bytes().subrange(0, max_len as int) && r@ == head@ + "..."@,
{
    if s.as_bytes().len() <= max_len {
        return owned(s);
    }
    let (head, _tail) = s.split_at(max_len);
    let mut out = owned(head);
    push_str(&mut out, "...");
    proof {
        assert(head.spec_bytes() == s.spec_bytes().subrange(0, max_len as int));
        assert(out@ == head@ + "..."@);
        assert(exists|h: &str|
            #[trigger] h.spec_bytes() == s.spec_bytes().subrange(0, max_len as int) && out@ == h@ + "..."@);
    }
    out
}

} // verus!
