use vstd::prelude::*;

verus! {

/// The largest value of one channel's squared difference, summed over the
/// three channels of a pixel.
pub open spec fn max_pixel_cost() -> int {
    195075int
}

/// One decoded image strip: `width` columns and `height` rows of RGB pixels,
/// stored row by row, three bytes per pixel.
pub struct Fragment {
    pub width: u32,
    pub height: u32,
    pub pixels: Vec<u8>,
}

impl Fragment {
    /// The buffer holds exactly three bytes for each of `width * height`
    /// pixels.
    pub open spec fn wf(&self) -> bool {
        self.pixels@.len() == 3 * (self.width as int) * (self.height as int)
    }

    /// Channel `c` of the pixel at column `x`, row `y`.
    pub open spec fn channel(&self, x: int, y: int, c: int) -> int {
        self.pixels@[3 * (y * self.width + x) + c] as int
    }

    /// The bytes of row `y`.
    pub open spec fn row(&self, y: int) -> Seq<u8> {
        self.pixels@.subrange(3 * y * self.width, 3 * (y + 1) * self.width)
    }

    /// Builds a fragment from its dimensions and its RGB bytes.
    pub fn new(width: u32, height: u32, pixels: Vec<u8>) -> (r: Fragment)
        ensures
            r.width == width,
            r.height == height,
            r.pixels@ == pixels@,
    {
        Fragment { width, height, pixels }
    }
}

/// The position of channel `c` of pixel (`x`, `y`) in a buffer `w` pixels wide
/// and `h` rows high lies inside the buffer.
pub proof fn lemma_index_in_range(w: int, h: int, x: int, y: int, c: int)
    requires
        0 <= x < w,
        0 <= y < h,
        0 <= c < 3,
    ensures
        0 <= 3 * (y * w + x) + c < 3 * w * h,
        0 <= y * w,
        3 * (y * w + x) + c == 3 * y * w + 3 * x + c,
{
    assert(y * w + x < w * h) by (nonlinear_arith)
        requires
            0 <= x < w,
            0 <= y < h,
    ;
    assert(0 <= y * w) by (nonlinear_arith)
        requires
            0 <= x < w,
            0 <= y < h,
    ;
    assert(3 * w * h == 3 * (w * h)) by (nonlinear_arith);
    assert(3 * y * w == 3 * (y * w)) by (nonlinear_arith);
}

/// Squared difference of one channel between the right edge of `a` and the
/// left edge of `b` at row `y`.
pub open spec fn channel_cost(a: Fragment, b: Fragment, y: int, c: int) -> int {
    let d = a.channel(a.width - 1, y, c) - b.channel(0, y, c);
    d * d
}

/// Cost of row `y`: the sum of squared per-channel differences between the
/// right boundary pixel of `a` and the left boundary pixel of `b`.
pub open spec fn row_cost(a: Fragment, b: Fragment, y: int) -> int {
    channel_cost(a, b, y, 0) + channel_cost(a, b, y, 1) + channel_cost(a, b, y, 2)
}

/// Sum of the row costs over rows `0 .. n`.
pub open spec fn rows_cost(a: Fragment, b: Fragment, n: int) -> int
    decreases n,
{
    if n <= 0 {
        0
    } else {
        rows_cost(a, b, n - 1) + row_cost(a, b, n - 1)
    }
}

/// The number of rows two fragments share.
pub open spec fn shared_height(a: Fragment, b: Fragment) -> int {
    if a.height <= b.height {
        a.height as int
    } else {
        b.height as int
    }
}

/// Dissimilarity of placing `b` directly to the right of `a`: the row costs
/// summed over the rows both fragments have.
pub open spec fn dissimilarity(a: Fragment, b: Fragment) -> int {
    rows_cost(a, b, shared_height(a, b))
}

proof fn lemma_rows_cost_bounds(a: Fragment, b: Fragment, n: int)
    requires
        0 <= n,
        a.wf(),
        b.wf(),
    ensures
        0 <= rows_cost(a, b, n) <= n * max_pixel_cost(),
    decreases n,
{
    if n > 0 {
        lemma_rows_cost_bounds(a, b, n - 1);
        assert forall|c: int| 0 <= c < 3 implies 0 <= #[trigger] channel_cost(a, b, n - 1, c)
            <= 255 * 255 by {
            let p = a.pixels@[3 * ((n - 1) * a.width + a.width - 1) + c] as int;
            let q = b.pixels@[3 * ((n - 1) * b.width + 0) + c] as int;
            assert(0 <= p <= 255 && 0 <= q <= 255);
            assert(0 <= (p - q) * (p - q) <= 255 * 255) by (nonlinear_arith)
                requires
                    0 <= p <= 255,
                    0 <= q <= 255,
            ;
        }
        assert(row_cost(a, b, n - 1) <= max_pixel_cost());
    }
}

/// Sum of squared per-channel differences between the right boundary column
/// of `slice1` and the left boundary column of `slice2`, over the rows both
/// have.
pub fn calculate_difference(slice1: &Fragment, slice2: &Fragment) -> (r: u64)
    requires
        slice1.wf(),
        slice2.wf(),
        slice1.width > 0,
        slice2.width > 0,
    ensures
        r == dissimilarity(*slice1, *slice2),
{
    let h: u32 = if slice1.height <= slice2.height {
        slice1.height
    } else {
        slice2.height
    };
    let w1: u32 = slice1.width;
    let w2: u32 = slice2.width;
    let n1: usize = slice1.pixels.len();
    let n2: usize = slice2.pixels.len();
    let mut sum: u64 = 0;
    let mut y: u32 = 0;
    while y < h
        invariant
            slice1.wf(),
            slice2.wf(),
            w1 == slice1.width > 0,
            w2 == slice2.width > 0,
            h == shared_height(*slice1, *slice2),
            h <= slice1.height,
            h <= slice2.height,
            n1 == slice1.pixels@.len(),
            n2 == slice2.pixels@.len(),
            y <= h,
            sum == rows_cost(*slice1, *slice2, y as int),
        decreases h - y,
    {
        proof {
            lemma_index_in_range(w1 as int, slice1.height as int, w1 - 1, y as int, 0);
            lemma_index_in_range(w1 as int, slice1.height as int, w1 - 1, y as int, 2);
            lemma_index_in_range(w2 as int, slice2.height as int, 0, y as int, 0);
            lemma_index_in_range(w2 as int, slice2.height as int, 0, y as int, 2);
            lemma_rows_cost_bounds(*slice1, *slice2, y as int + 1);
            assert((y as int + 1) * max_pixel_cost() <= 0x1_0000_0000 * max_pixel_cost())
                by (nonlinear_arith)
                requires
                    y < 0x1_0000_0000,
            ;
            assert((y as int) * (w1 as int) + (w1 as int - 1) < n1);
            assert((y as int) * (w2 as int) < n2);
        }
        let i1: usize = 3 * ((y as usize) * (w1 as usize) + (w1 as usize - 1));
        let i2: usize = 3 * ((y as usize) * (w2 as usize));
        let mut row: u64 = 0;
        let mut c: usize = 0;
        while c < 3
            invariant
                slice1.wf(),
                slice2.wf(),
                w1 == slice1.width > 0,
                w2 == slice2.width > 0,
                y < slice1.height,
                y < slice2.height,
                i1 == 3 * ((y as int) * (w1 as int) + (w1 as int - 1)),
                i2 == 3 * ((y as int) * (w2 as int) + 0),
                n1 == slice1.pixels@.len(),
                n2 == slice2.pixels@.len(),
                i1 + 2 < n1,
                i2 + 2 < n2,
                c <= 3,
                row <= c * 255 * 255,
                row == (if c == 0 {
                    0
                } else if c == 1 {
                    channel_cost(*slice1, *slice2, y as int, 0)
                } else if c == 2 {
                    channel_cost(*slice1, *slice2, y as int, 0) + channel_cost(
                        *slice1,
                        *slice2,
                        y as int,
                        1,
                    )
                } else {
                    row_cost(*slice1, *slice2, y as int)
                }),
            decreases 3 - c,
        {
            let p: u8 = slice1.pixels[i1 + c];
            let q: u8 = slice2.pixels[i2 + c];
            let d: i32 = p as i32 - q as i32;
            assert(0 <= d * d <= 255 * 255) by (nonlinear_arith)
                requires
                    -255 <= d <= 255,
            ;
            let sq: u64 = (d * d) as u64;
            row = row + sq;
            c = c + 1;
        }
        sum = sum + row;
        y = y + 1;
    }
    sum
}

/// The fragments that decoded, in their order.
pub open spec fn decoded(results: Seq<Option<Fragment>>) -> Seq<Fragment>
    decreases results.len(),
{
    if results.len() == 0 {
        Seq::empty()
    } else {
        let r = decoded(results.drop_last());
        match results.last() {
            Some(f) => r.push(f),
            None => r,
        }
    }
}

/// How many of the files failed to decode.
pub open spec fn failures(results: Seq<Option<Fragment>>) -> nat
    decreases results.len(),
{
    if results.len() == 0 {
        0
    } else {
        failures(results.drop_last()) + if results.last() is None {
            1nat
        } else {
            0nat
        }
    }
}

/// Keeps the fragments that decoded, in their order, and counts the files
/// that did not.
pub fn keep_decoded(results: Vec<Option<Fragment>>) -> (r: (Vec<Fragment>, usize))
    ensures
        r.0@ == decoded(results@),
        r.1 == failures(results@),
{
    let ghost input = results@;
    let mut rest = results;
    let mut rev: Vec<Option<Fragment>> = Vec::new();
    while rest.len() > 0
        invariant
            rev@.len() + rest@.len() == input.len(),
            forall|k: int| 0 <= k < rest@.len() ==> #[trigger] rest@[k] == input[k],
            forall|k: int| 0 <= k < rev@.len() ==> #[trigger] rev@[k] == input[input.len() - 1 - k],
        decreases rest@.len(),
    {
        let x = rest.pop().unwrap();
        rev.push(x);
    }
    let n: usize = rev.len();
    let mut kept: Vec<Fragment> = Vec::new();
    let mut failed: usize = 0;
    let mut i: usize = 0;
    assert(input.take(0) =~= Seq::<Option<Fragment>>::empty());
    while rev.len() > 0
        invariant
            n == input.len(),
            rev@.len() + i == n,
            forall|k: int| 0 <= k < rev@.len() ==> #[trigger] rev@[k] == input[n - 1 - k],
            kept@ == decoded(input.take(i as int)),
            failed == failures(input.take(i as int)),
            failed <= i,
        decreases rev@.len(),
    {
        let x = rev.pop().unwrap();
        proof {
            let t = input.take(i as int + 1);
            assert(t.drop_last() =~= input.take(i as int));
            assert(t.last() == x);
        }
        match x {
            Some(f) => {
                kept.push(f);
            },
            None => {
                failed = failed + 1;
            },
        }
        i = i + 1;
    }
    assert(input.take(n as int) =~= input);
    (kept, failed)
}

/// Every file is accounted for once: the fragments kept and the failures
/// counted add up to the files read, and each kept fragment is one that
/// decoded, so a file that failed appears nowhere in the output.
pub proof fn lemma_skip_on_failure(results: Seq<Option<Fragment>>)
    ensures
        decoded(results).len() + failures(results) == results.len(),
        forall|i: int|
            0 <= i < decoded(results).len() ==> exists|k: int|
                0 <= k < results.len() && #[trigger] results[k] == Some(
                    #[trigger] decoded(results)[i],
                ),
    decreases results.len(),
{
    if results.len() > 0 {
        let e = results.drop_last();
        lemma_skip_on_failure(e);
        assert forall|i: int|
            0 <= i < decoded(results).len() implies exists|k: int|
                0 <= k < results.len() && #[trigger] results[k] == Some(
                    #[trigger] decoded(results)[i],
                ) by {
            if i < decoded(e).len() {
                let k = choose|k: int| 0 <= k < e.len() && #[trigger] e[k] == Some(decoded(e)[i]);
                assert(results[k] == e[k]);
            } else {
                assert(results[results.len() - 1] == Some(decoded(results)[i]));
            }
        }
    }
}

} // verus!
