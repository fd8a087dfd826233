//! The executable slide of a single line: one merge pass over the non-zero
//! tiles, then compaction toward the target edge. Rows are slid directly;
//! columns are slid through the transpose taken in `game`.

use vstd::prelude::*;

use crate::model::{
    dbl, fwd_gain, merge_gain, merged_line, nonzeros, pad_right, rev_gain, sat32, slide_fwd,
    slide_rev, zero_row, lemma_merge_gain_nonneg, lemma_merged_len, lemma_nonzeros_all_nonzero,
    lemma_nonzeros_append, lemma_nonzeros_len, lemma_nonzeros_single, lemma_nonzeros_snoc,
    lemma_sat32_chain,
};

verus! {

/// The line in reverse order, for the slides that run toward the back edge.
fn reversed(line: &Vec<u32>) -> (r: Vec<u32>)
    ensures
        r@ == line@.reverse(),
{
    let n: usize = line.len();
    let mut r: Vec<u32> = Vec::new();
    let mut k: usize = 0;
    while k < n
        invariant
            n == line@.len(),
            k <= n,
            r@.len() == k,
            forall|t: int| 0 <= t < k ==> r@[t] == line@[n - 1 - t],
        decreases n - k,
    {
        r.push(line[n - 1 - k]);
        k += 1;
    }
    proof {
        assert(r@ =~= line@.reverse());
    }
    r
}

/// The non-zero tiles of the line, in order.
fn nonzero_tiles(line: &Vec<u32>) -> (nz: Vec<u32>)
    ensures
        nz@ == nonzeros(line@),
{
    let mut nz: Vec<u32> = Vec::new();
    let mut i: usize = 0;
    while i < line.len()
        invariant
            i <= line@.len(),
            nz@ == nonzeros(line@.take(i as int)),
        decreases line@.len() - i,
    {
        proof {
            assert(line@.take(i as int + 1) =~= line@.take(i as int).push(line@[i as int]));
            lemma_nonzeros_snoc(line@.take(i as int), line@[i as int]);
        }
        if line[i] != 0 {
            nz.push(line[i]);
        }
        i += 1;
    }
    proof {
        assert(line@.take(line@.len() as int) =~= line@);
    }
    nz
}

/// One slide of `line` toward its front: the first equal pair of non-zero
/// neighbours (ignoring the empty cells between them) merges into a doubled
/// tile, the scan resumes past the pair, and the survivors are compacted to
/// the front. The score takes the doubled value of every merged pair,
/// clamped at its range's top so that it can never wrap around.
pub fn slide_line_fwd(line: &Vec<u32>, score: &mut u32) -> (out: Vec<u32>)
    ensures
        out@ == slide_fwd(line@),
        *final(score) == sat32(*old(score) as int + fwd_gain(line@)),
{
    let ghost score0: u32 = *score;
    let nz: Vec<u32> = nonzero_tiles(line);
    let mut out: Vec<u32> = Vec::new();
    let mut k: usize = 0;
    let ghost mut gsofar: int = 0;
    proof {
        assert(nz@.skip(0) =~= nz@);
    }
    while k < nz.len()
        invariant
            k <= nz@.len(),
            nz@ == nonzeros(line@),
            out@.len() <= k,
            nonzeros(merged_line(nz@)) == out@ + nonzeros(merged_line(nz@.skip(k as int))),
            merge_gain(nz@) == gsofar + merge_gain(nz@.skip(k as int)),
            gsofar >= 0,
            *score == sat32(score0 as int + gsofar),
        decreases nz@.len() - k,
    {
        let ghost rest = nz@.skip(k as int);
        proof {
            assert(rest[0] == nz@[k as int]);
            assert(rest.len() == nz@.len() - k);
            if k + 1 < nz@.len() {
                assert(rest[1] == nz@[k as int + 1]);
            }
        }
        let a: u32 = nz[k];
        if k + 1 < nz.len() && nz[k + 1] == a {
            let d: u32 = a.wrapping_mul(2);
            proof {
                assert(d == dbl(a));
                assert(rest.skip(2) =~= nz@.skip(k as int + 2));
                assert(merged_line(rest) == seq![dbl(a)] + merged_line(rest.skip(2)));
                assert(merge_gain(rest) == dbl(a) + merge_gain(rest.skip(2)));
                lemma_nonzeros_append(seq![d], merged_line(nz@.skip(k as int + 2)));
                lemma_nonzeros_single(d);
                lemma_merge_gain_nonneg(nz@.skip(k as int + 2));
                lemma_sat32_chain(score0 as int + gsofar, d as int);
                if d != 0u32 {
                    assert(out@.push(d) + nonzeros(merged_line(nz@.skip(k as int + 2))) =~= out@
                        + (seq![d] + nonzeros(merged_line(nz@.skip(k as int + 2)))));
                } else {
                    assert(Seq::<u32>::empty() + nonzeros(merged_line(nz@.skip(k as int + 2)))
                        =~= nonzeros(merged_line(nz@.skip(k as int + 2))));
                }
            }
            if d != 0 {
                out.push(d);
            }
            *score = score.saturating_add(d);
            proof {
                gsofar = gsofar + d;
            }
            k += 2;
        } else {
            proof {
                assert(merged_line(rest) == seq![a] + merged_line(rest.skip(1)));
                assert(merge_gain(rest) == merge_gain(rest.skip(1)));
                assert(rest.skip(1) =~= nz@.skip(k as int + 1));
                lemma_nonzeros_append(seq![a], merged_line(nz@.skip(k as int + 1)));
                lemma_nonzeros_single(a);
                lemma_nonzeros_all_nonzero(line@);
                assert(a != 0u32);
                assert(out@.push(a) + nonzeros(merged_line(nz@.skip(k as int + 1))) =~= out@ + (
                seq![a] + nonzeros(merged_line(nz@.skip(k as int + 1)))));
            }
            out.push(a);
            k += 1;
        }
    }
    proof {
        assert(nz@.skip(nz@.len() as int) =~= Seq::<u32>::empty());
        assert(nonzeros(Seq::<u32>::empty()) == Seq::<u32>::empty());
        assert(merged_line(Seq::<u32>::empty()) == Seq::<u32>::empty());
        assert(out@ + Seq::<u32>::empty() =~= out@);
        assert(out@ == nonzeros(merged_line(nz@)));
        assert(merge_gain(nz@) == gsofar);
        lemma_nonzeros_len(line@);
        lemma_merged_len(nz@);
        lemma_nonzeros_len(merged_line(nz@));
    }
    let ghost nzm = out@;
    let w: usize = line.len();
    while out.len() < w
        invariant
            w == line@.len(),
            nzm == nonzeros(merged_line(nonzeros(line@))),
            nzm.len() <= out@.len() <= w,
            out@ == nzm + zero_row((out@.len() - nzm.len()) as nat),
        decreases w - out.len(),
    {
        proof {
            assert(zero_row((out@.len() + 1 - nzm.len()) as nat) =~= zero_row(
                (out@.len() - nzm.len()) as nat,
            ).push(0u32));
            assert((nzm + zero_row((out@.len() - nzm.len()) as nat)).push(0u32) =~= nzm + zero_row(
                (out@.len() - nzm.len()) as nat,
            ).push(0u32));
        }
        out.push(0);
    }
    proof {
        assert(out@ =~= pad_right(nzm, line@.len()));
    }
    out
}

/// One slide of `line` toward its back: the mirror image of
/// `slide_line_fwd`, taken by reversing, sliding forward, and reversing
/// back.
pub fn slide_line_rev(line: &Vec<u32>, score: &mut u32) -> (out: Vec<u32>)
    ensures
        out@ == slide_rev(line@),
        *final(score) == sat32(*old(score) as int + rev_gain(line@)),
{
    let rev: Vec<u32> = reversed(line);
    let slid: Vec<u32> = slide_line_fwd(&rev, score);
    let out: Vec<u32> = reversed(&slid);
    out
}

} // verus!
