use vstd::prelude::*;

verus! {

/// One part of a payload range that lies in a single file: the file's index, the offset
/// within that file, and the number of bytes.
pub type Segment = (usize, u64, u64);

/// Sum of the file lengths.
pub open spec fn total_of(ls: Seq<u64>) -> int
    decreases ls.len(),
{
    if ls.len() == 0 {
        0
    } else {
        total_of(ls.drop_last()) + ls.last()
    }
}

/// The parts of `len` bytes at payload offset `off`, looking from file `i`, which starts
/// at payload offset `base`: files that end before `off` are passed over, and each file
/// from the one holding `off` takes as many bytes as it still has room for.
pub open spec fn segments(ls: Seq<u64>, i: int, base: int, off: int, len: int) -> Seq<Segment>
    decreases ls.len() - i,
{
    if len <= 0 || i < 0 || i >= ls.len() {
        Seq::empty()
    } else if off >= base + ls[i] {
        segments(ls, i + 1, base + ls[i], off, len)
    } else {
        let fo = off - base;
        let n = if len < ls[i] - fo {
            len
        } else {
            ls[i] - fo
        };
        seq![(i as usize, fo as u64, n as u64)] + segments(ls, i + 1, base + ls[i], off + n, len - n)
    }
}

/// Where the `len` bytes at payload offset `offset` lie among files of the given lengths,
/// in torrent order; the lengths sum to a 64-bit number. `None` when the range runs past the end of the payload.
pub fn locate(file_lengths: &Vec<u64>, offset: u64, len: u64) -> (r: Option<Vec<Segment>>)
    requires
        total_of(file_lengths@) <= u64::MAX,
    ensures
        r is Some <==> offset + len <= total_of(file_lengths@),
        r matches Some(segs) ==> segs@ == segments(file_lengths@, 0, 0, offset as int, len as int),
{
    let ghost ls = file_lengths@;
    let mut total: u64 = 0;
    let mut k: usize = 0;
    while k < file_lengths.len()
        invariant
            k <= ls.len(),
            ls == file_lengths@,
            total_of(ls) <= u64::MAX,
            total == total_of(ls.subrange(0, k as int)),
        decreases ls.len() - k,
    {
        assert(ls.subrange(0, k + 1).drop_last() =~= ls.subrange(0, k as int));
        proof { lemma_total_prefix_le(ls, k as int + 1); }
        total = total + file_lengths[k];
        k = k + 1;
    }
    assert(ls.subrange(0, k as int) =~= ls);
    if len > total || offset > total - len {
        return None;
    }
    let mut out: Vec<Segment> = Vec::new();
    let mut i: usize = 0;
    let mut base: u64 = 0;
    let mut off: u64 = offset;
    let mut rem: u64 = len;
    while i < file_lengths.len() && rem > 0
        invariant
            ls == file_lengths@,
            i <= ls.len(),
            base == total_of(ls.subrange(0, i as int)),
            off + rem <= total_of(ls),
            total_of(ls) <= u64::MAX,
            base <= off || rem == 0,
            out@ + segments(ls, i as int, base as int, off as int, rem as int) == segments(
                ls,
                0,
                0,
                offset as int,
                len as int,
            ),
        decreases ls.len() - i,
    {
        let l = file_lengths[i];
        proof {
            assert(ls.subrange(0, i + 1).drop_last() =~= ls.subrange(0, i as int));
            lemma_total_prefix_le(ls, i as int + 1);
        }
        if off >= base + l {
            base = base + l;
        } else {
            let fo = off - base;
            let n = if rem < l - fo {
                rem
            } else {
                l - fo
            };
            let ghost before = out@;
            out.push((i, fo, n));
            assert(out@ + segments(ls, i + 1, base + l, off + n, rem - n) =~= before + segments(
                ls,
                i as int,
                base as int,
                off as int,
                rem as int,
            ));
            base = base + l;
            off = off + n;
            rem = rem - n;
        }
        i = i + 1;
    }
    proof {
        if rem > 0 {
            assert(ls.subrange(0, i as int) =~= ls);
        }
    }
    assert(out@ + Seq::<Segment>::empty() =~= out@);
    Some(out)
}

/// A prefix's total is at most the whole total.
proof fn lemma_total_prefix_le(ls: Seq<u64>, n: int)
    requires
        0 <= n <= ls.len(),
    ensures
        total_of(ls.subrange(0, n)) <= total_of(ls),
    decreases ls.len() - n,
{
    if n < ls.len() {
        assert(ls.subrange(0, n + 1).drop_last() =~= ls.subrange(0, n));
        lemma_total_prefix_le(ls, n + 1);
    } else {
        assert(ls.subrange(0, n) =~= ls);
    }
}

} // verus!
