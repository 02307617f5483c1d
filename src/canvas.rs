use vstd::prelude::*;
use crate::fragment::{Fragment, lemma_index_in_range};

verus! {

/// Sum of the widths of the first `n` fragments.
pub open spec fn total_width(s: Seq<Fragment>, n: int) -> int
    decreases n,
{
    if n <= 0 {
        0
    } else {
        total_width(s, n - 1) + s[n - 1].width
    }
}

/// Largest height among the first `n` fragments, 0 when there are none.
pub open spec fn max_height(s: Seq<Fragment>, n: int) -> int
    decreases n,
{
    if n <= 0 {
        0
    } else {
        let h = max_height(s, n - 1);
        if s[n - 1].height > h {
            s[n - 1].height as int
        } else {
            h
        }
    }
}

/// Row `y` of fragment `f` as placed on the canvas: its pixels where it has
/// that row, black where it is shorter.
pub open spec fn placed_row(f: Fragment, y: int) -> Seq<u8> {
    if y < f.height {
        f.row(y)
    } else {
        Seq::new(3 * f.width as nat, |i: int| 0u8)
    }
}

/// Row `y` of the canvas as far as the first `n` fragments reach, left to
/// right.
pub open spec fn canvas_row(s: Seq<Fragment>, n: int, y: int) -> Seq<u8>
    decreases n,
{
    if n <= 0 {
        Seq::empty()
    } else {
        canvas_row(s, n - 1, y) + placed_row(s[n - 1], y)
    }
}

/// The first `y` rows of the canvas, top to bottom.
pub open spec fn canvas_rows(s: Seq<Fragment>, y: int) -> Seq<u8>
    decreases y,
{
    if y <= 0 {
        Seq::empty()
    } else {
        canvas_rows(s, y - 1) + canvas_row(s, s.len() as int, y - 1)
    }
}

proof fn lemma_canvas_row_len(s: Seq<Fragment>, n: int, y: int)
    requires
        0 <= n <= s.len(),
        0 <= y,
        forall|i: int| 0 <= i < s.len() ==> (#[trigger] s[i]).wf(),
    ensures
        canvas_row(s, n, y).len() == 3 * total_width(s, n),
    decreases n,
{
    if n > 0 {
        lemma_canvas_row_len(s, n - 1, y);
        let f = s[n - 1];
        if 0 <= y < f.height {
            assert(3 * (y + 1) * f.width == 3 * y * f.width + 3 * f.width) by (nonlinear_arith);
            assert(3 * (y + 1) * f.width <= 3 * f.width * f.height) by (nonlinear_arith)
                requires
                    y + 1 <= f.height,
                    0 <= f.width,
            ;
            assert(0 <= 3 * y * f.width) by (nonlinear_arith)
                requires
                    0 <= y,
                    0 <= f.width,
            ;
        }
    }
}

proof fn lemma_canvas_rows_len(s: Seq<Fragment>, y: int)
    requires
        0 <= y,
        forall|i: int| 0 <= i < s.len() ==> (#[trigger] s[i]).wf(),
    ensures
        canvas_rows(s, y).len() == 3 * total_width(s, s.len() as int) * y,
    decreases y,
{
    if y > 0 {
        lemma_canvas_rows_len(s, y - 1);
        lemma_canvas_row_len(s, s.len() as int, y - 1);
        let w = total_width(s, s.len() as int);
        assert(3 * w * (y - 1) + 3 * w == 3 * w * y) by (nonlinear_arith);
        assert(canvas_rows(s, y) == canvas_rows(s, y - 1) + canvas_row(s, s.len() as int, y - 1));
        assert(canvas_rows(s, y).len() == 3 * w * (y - 1) + 3 * w);
    } else {
        let w = total_width(s, s.len() as int);
        assert(3 * w * y == 0) by (nonlinear_arith)
            requires
                y == 0,
        ;
    }
}

proof fn lemma_total_width_mono(s: Seq<Fragment>, m: int, n: int)
    requires
        0 <= m <= n <= s.len(),
    ensures
        0 <= total_width(s, m) <= total_width(s, n),
    decreases n,
{
    if n > 0 {
        lemma_total_width_mono(s, if m < n { m } else { n - 1 }, n - 1);
    }
}

/// Composes the fragments left to right into one canvas as wide as their
/// widths together and as high as the highest of them, each fragment
/// top-aligned at the sum of the widths before it, the rest left black.
pub fn compose_canvas(images: &Vec<Fragment>) -> (r: Fragment)
    requires
        forall|i: int| 0 <= i < images@.len() ==> (#[trigger] images@[i]).wf(),
        total_width(images@, images@.len() as int) <= u32::MAX,
        3 * total_width(images@, images@.len() as int) * max_height(images@, images@.len() as int)
            <= usize::MAX,
    ensures
        r.wf(),
        r.width == total_width(images@, images@.len() as int),
        r.height == max_height(images@, images@.len() as int),
        r.pixels@ == canvas_rows(images@, r.height as int),
{
    let ghost s = images@;
    let ghost n = s.len() as int;
    let mut total: u32 = 0;
    let mut height: u32 = 0;
    let mut i: usize = 0;
    while i < images.len()
        invariant
            s == images@,
            n == s.len(),
            total_width(s, n) <= u32::MAX,
            0 <= i <= n,
            total == total_width(s, i as int),
            height == max_height(s, i as int),
        decreases n - i,
    {
        proof {
            lemma_total_width_mono(s, i as int + 1, n);
        }
        total = total + images[i].width;
        if images[i].height > height {
            height = images[i].height;
        }
        i = i + 1;
    }
    let ghost w = total as int;
    let mut out: Vec<u8> = Vec::new();
    let mut y: u32 = 0;
    while y < height
        invariant
            s == images@,
            n == s.len(),
            forall|q: int| 0 <= q < n ==> (#[trigger] s[q]).wf(),
            w == total == total_width(s, n),
            height == max_height(s, n),
            3 * w * height <= usize::MAX,
            y <= height,
            out@ == canvas_rows(s, y as int),
        decreases height - y,
    {
        proof {
            lemma_canvas_rows_len(s, y as int);
            assert(3 * w * y + 3 * w <= 3 * w * height) by (nonlinear_arith)
                requires
                    y < height,
                    0 <= w,
            ;
        }
        let ghost start = out@;
        let mut k: usize = 0;
        while k < images.len()
            invariant
                s == images@,
                n == s.len(),
                forall|q: int| 0 <= q < n ==> (#[trigger] s[q]).wf(),
                w == total_width(s, n),
                0 <= k <= n,
                start.len() + 3 * w <= usize::MAX,
                out@ == start + canvas_row(s, k as int, y as int),
            decreases n - k,
        {
            proof {
                lemma_canvas_row_len(s, k as int, y as int);
                lemma_canvas_row_len(s, k as int + 1, y as int);
                lemma_total_width_mono(s, k as int + 1, n);
            }
            let f = &images[k];
            let ghost before = out@;
            let fw: usize = f.width as usize;
            let plen: usize = f.pixels.len();
            let mut x: usize = 0;
            if y < f.height {
                proof {
                    assert(3 * (y + 1) * fw == 3 * y * fw + 3 * fw) by (nonlinear_arith);
                    assert(3 * (y + 1) * fw <= 3 * fw * f.height) by (nonlinear_arith)
                        requires
                            y + 1 <= f.height,
                            0 <= fw,
                    ;
                    assert(0 <= y * fw) by (nonlinear_arith);
                    assert(3 * y * fw == 3 * (y * fw)) by (nonlinear_arith);
                    assert(f.row(y as int).len() == 3 * fw);
                    assert(3 * (y as int + 1) * (f.width as int) == 3 * (y as int) * (f.width as int) + 3 * fw) by (nonlinear_arith)
                        requires fw == f.width;
                }
                let base: usize = 3 * ((y as usize) * fw);
                while x < 3 * fw
                    invariant
                        f.wf(),
                        fw == f.width,
                        plen == f.pixels@.len(),
                        y < f.height,
                        base == 3 * y * fw,
                        base + 3 * fw <= plen,
                        f.row(y as int).len() == 3 * fw,
                        3 * (y as int) * (f.width as int) == base,
                        3 * (y as int + 1) * (f.width as int) == base + 3 * fw,
                        before.len() + 3 * fw <= usize::MAX,
                        x <= 3 * fw,
                        out@ == before + f.row(y as int).subrange(0, x as int),
                    decreases 3 * fw - x,
                {
                    assert(base == 3 * (y as int) * (f.width as int));
                    assert(f.row(y as int)[x as int] == f.pixels@[base + x]);
                    out.push(f.pixels[base + x]);
                    x = x + 1;
                    proof {
                        assert(out@ =~= before + f.row(y as int).subrange(0, x as int));
                    }
                }
                proof {
                    assert(f.row(y as int).subrange(0, x as int) =~= f.row(y as int));
                }
            } else {
                while x < 3 * fw
                    invariant
                        fw == f.width,
                        before.len() + 3 * fw <= usize::MAX,
                        x <= 3 * fw,
                        out@ == before + Seq::new(x as nat, |i: int| 0u8),
                    decreases 3 * fw - x,
                {
                    out.push(0u8);
                    x = x + 1;
                    proof {
                        assert(out@ =~= before + Seq::new(x as nat, |i: int| 0u8));
                    }
                }
            }
            k = k + 1;
            proof {
                assert(out@ =~= start + canvas_row(s, k as int, y as int));
            }
        }
        y = y + 1;
        proof {
            assert(out@ =~= canvas_rows(s, y as int));
        }
    }
    proof {
        lemma_canvas_rows_len(s, height as int);
    }
    Fragment { width: total, height, pixels: out }
}

} // verus!
