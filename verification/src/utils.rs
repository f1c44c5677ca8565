//! Reshaping a flat sequence of cells into rows of a fixed width.

use vstd::prelude::*;

verus! {

/// The rows that [`unflatten`] builds from `flat`: rows of `w` cells each,
/// the last row possibly shorter, starting from one empty row. A
/// non-positive width turns every element into a row of its own after the
/// initial empty row.
pub open spec fn chunk_rows<T>(flat: Seq<T>, w: int) -> Seq<Seq<T>>
    decreases flat.len(),
{
    if w <= 0 {
        seq![Seq::<T>::empty()] + Seq::new(flat.len(), |i: int| seq![flat[i]])
    } else if flat.len() <= w {
        seq![flat]
    } else {
        seq![flat.take(w)] + chunk_rows(flat.skip(w), w)
    }
}

/// How many rows [`chunk_rows`] yields for a flat length `n`.
pub open spec fn chunk_len(n: int, w: int) -> int
    decreases n,
{
    if w <= 0 {
        n + 1
    } else if n <= w {
        1
    } else {
        1 + chunk_len(n - w, w)
    }
}

/// `chunk_rows` always yields `chunk_len` rows, at least one.
pub proof fn lemma_chunk_rows_len<T>(flat: Seq<T>, w: int)
    ensures
        chunk_rows(flat, w).len() == chunk_len(flat.len() as int, w),
        chunk_rows(flat, w).len() >= 1,
    decreases flat.len(),
{
    if w <= 0 {
    } else if flat.len() <= w {
    } else {
        lemma_chunk_rows_len(flat.skip(w), w);
    }
}

/// Appending one element either starts a fresh row (when the last row is
/// full) or extends the last row.
pub proof fn lemma_chunk_rows_push<T>(s: Seq<T>, e: T, w: int)
    ensures
        ({
            let cs = chunk_rows(s, w);
            chunk_rows(s.push(e), w) == if cs.last().len() >= w {
                cs.push(seq![e])
            } else {
                cs.update(cs.len() - 1, cs.last().push(e))
            }
        }),
    decreases s.len(),
{
    lemma_chunk_rows_len(s, w);
    let cs = chunk_rows(s, w);
    let ps = chunk_rows(s.push(e), w);
    if w <= 0 {
        assert(ps =~~= cs.push(seq![e]));
    } else if s.len() < w {
        assert(ps =~~= cs.update(cs.len() - 1, cs.last().push(e)));
    } else if s.len() == w {
        assert(s.push(e).take(w) =~= s);
        assert(s.push(e).skip(w) =~= seq![e]);
        assert(chunk_rows(seq![e], w) == seq![seq![e]]);
        assert(ps == seq![s] + seq![seq![e]]);
        assert(ps =~~= cs.push(seq![e]));
    } else {
        assert(s.push(e).take(w) =~= s.take(w));
        assert(s.push(e).skip(w) =~= s.skip(w).push(e));
        lemma_chunk_rows_push(s.skip(w), e, w);
        lemma_chunk_rows_len(s.skip(w), w);
        let ts = chunk_rows(s.skip(w), w);
        assert(ps == seq![s.take(w)] + chunk_rows(s.skip(w).push(e), w));
        assert(cs == seq![s.take(w)] + ts);
        assert(cs.last() == ts.last());
        if ts.last().len() >= w {
            assert(ps =~~= cs.push(seq![e]));
        } else {
            assert(ps =~~= cs.update(cs.len() - 1, cs.last().push(e)));
        }
    }
}

/// When the flat length is exactly `w * h`, the rows come out as `h` full
/// rows of width `w`, each a slice of the input.
pub proof fn lemma_chunk_rows_exact<T>(s: Seq<T>, w: int, h: int)
    requires
        w >= 1,
        h >= 1,
        s.len() == w * h,
    ensures
        chunk_rows(s, w).len() == h,
        forall|i: int| 0 <= i < h ==> #[trigger] chunk_rows(s, w)[i] =~= s.subrange(i * w, i * w + w),
    decreases h,
{
    if h == 1 {
        assert(s.len() == w) by (nonlinear_arith)
            requires
                s.len() == w * h,
                h == 1,
        ;
        assert(chunk_rows(s, w) == seq![s]);
        assert forall|i: int| 0 <= i < h implies #[trigger] chunk_rows(s, w)[i] =~= s.subrange(
            i * w,
            i * w + w,
        ) by {
            assert(i == 0);
            assert(i * w == 0) by (nonlinear_arith)
                requires
                    i == 0,
            ;
            assert(s.subrange(0, w) =~= s);
        }
    } else {
        assert(s.len() > w) by (nonlinear_arith)
            requires
                s.len() == w * h,
                w >= 1,
                h >= 2,
        ;
        assert(s.skip(w).len() == w * (h - 1)) by (nonlinear_arith)
            requires
                s.len() == w * h,
                s.skip(w).len() == s.len() - w,
        ;
        lemma_chunk_rows_exact(s.skip(w), w, h - 1);
        let cs = chunk_rows(s, w);
        assert forall|i: int| 0 <= i < h implies #[trigger] cs[i] =~= s.subrange(i * w, i * w + w) by {
            if i == 0 {
                assert(cs[0] == s.take(w));
                assert(s.take(w) =~= s.subrange(0, w));
            } else {
                assert((i - 1) * w >= 0 && (i - 1) * w + w == i * w && i * w + w <= w * h) by (nonlinear_arith)
                    requires
                        1 <= i < h,
                        w >= 1,
                ;
                assert(cs[i] == chunk_rows(s.skip(w), w)[i - 1]);
                assert(chunk_rows(s.skip(w), w)[i - 1] =~= s.skip(w).subrange(
                    (i - 1) * w,
                    (i - 1) * w + w,
                ));
                assert(s.skip(w).subrange((i - 1) * w, (i - 1) * w + w) =~= s.subrange(
                    i * w,
                    i * w + w,
                ));
            }
        }
    }
}

/// The rows concatenate back to the flat input.
pub proof fn lemma_chunk_rows_flatten<T>(s: Seq<T>, w: int)
    requires
        w >= 1,
    ensures
        chunk_rows(s, w).flatten() =~= s,
    decreases s.len(),
{
    if s.len() <= w {
        assert(chunk_rows(s, w) == seq![s]);
        assert(seq![s].flatten() == s + seq![s].drop_first().flatten());
        assert(seq![s].drop_first() =~= Seq::<Seq<T>>::empty());
        assert(Seq::<Seq<T>>::empty().flatten() =~= Seq::<T>::empty());
        assert(chunk_rows(s, w).flatten() =~= s);
    } else {
        lemma_chunk_rows_flatten(s.skip(w), w);
        let cs = chunk_rows(s, w);
        assert(cs == seq![s.take(w)] + chunk_rows(s.skip(w), w));
        assert(cs.first() == s.take(w));
        assert(cs.drop_first() =~= chunk_rows(s.skip(w), w));
        assert(cs.flatten() == cs.first() + cs.drop_first().flatten());
        assert(s.take(w) + s.skip(w) =~= s);
    }
}

/// Reshapes `flat_vec` into rows of `width` cells; fails unless that yields
/// exactly `height` rows.
pub fn unflatten<T: Copy>(flat_vec: Vec<T>, width: u8, height: u8) -> (r: Result<
    Vec<Vec<T>>,
    String,
>)
    ensures
        ({
            let rows = chunk_rows(flat_vec@, width as int);
            match r {
                Ok(v) => rows.len() == height && v@.len() == rows.len() && forall|i: int|
                    0 <= i < v@.len() ==> (#[trigger] v@[i])@ == rows[i],
                Err(_) => rows.len() != height,
            }
        }),
{
    let mut out: Vec<Vec<T>> = Vec::new();
    out.push(Vec::new());
    proof {
        assert(chunk_rows(flat_vec@.take(0), width as int) =~~= seq![Seq::<T>::empty()]);
        assert(out@[0]@ =~= Seq::<T>::empty());
    }
    let mut i: usize = 0;
    while i < flat_vec.len()
        invariant
            i <= flat_vec@.len(),
            out@.len() >= 1,
            out@.len() == chunk_rows(flat_vec@.take(i as int), width as int).len(),
            forall|k: int|
                0 <= k < out@.len() ==> (#[trigger] out@[k])@ == chunk_rows(
                    flat_vec@.take(i as int),
                    width as int,
                )[k],
        decreases flat_vec@.len() - i,
    {
        let ghost pre = flat_vec@.take(i as int);
        let elem = flat_vec[i];
        let last = out.len() - 1;
        if out[last].len() >= width as usize {
            let mut fresh: Vec<T> = Vec::new();
            fresh.push(elem);
            out.push(fresh);
        } else {
            let row = &mut out[last];
            row.push(elem);
        }
        proof {
            lemma_chunk_rows_push(pre, flat_vec@[i as int], width as int);
            assert(pre.push(flat_vec@[i as int]) =~= flat_vec@.take(i + 1));
            let rows = chunk_rows(flat_vec@.take(i + 1), width as int);
            assert(out@.len() == rows.len());
            assert forall|k: int| 0 <= k < out@.len() implies (#[trigger] out@[k])@ == rows[k] by {
                assert(out@[k]@ =~= rows[k]);
            }
        }
        i = i + 1;
    }
    proof {
        assert(flat_vec@.take(flat_vec@.len() as int) =~= flat_vec@);
    }
    if out.len() != height as usize {
        return Err("mismatch height".to_owned());
    }
    Ok(out)
}

} // verus!
