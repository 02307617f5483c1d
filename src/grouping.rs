use vstd::prelude::*;
use vstd::arithmetic::power2::{pow2, lemma_pow2_unfold, lemma2_to64};
use crate::fragment::Fragment;

verus! {

/// Side of the square grid the perceptual fingerprint is computed on.
pub const HASH_GRID: u32 = 16;

/// Largest fingerprint distance at which an image joins a group.
pub const SIMILARITY_THRESHOLD: u32 = 10;

/// The perceptual fingerprint of a `width` by `height` RGB image with the
/// given bytes, on a `grid` by `grid` hash.
pub uninterp spec fn perceptual_hash(grid: u32, width: u32, height: u32, pixels: Seq<u8>) -> Seq<u8>;

/// Relies on `img_hash::image::ImageBuffer::from_raw` (image 0.23), which
/// accepts a buffer of at least three bytes per pixel, and on
/// `img_hash::Hasher::hash_image` with the default algorithm, whose bytes
/// depend on the configuration and the image alone. `to_hasher` multiplies the
/// two grid sides as `u32`.
#[verifier::external_body]
fn compute_image_hash(grid: u32, f: &Fragment) -> (r: Option<Vec<u8>>)
    requires
        0 < grid <= 256,
        f.wf(),
        f.width > 0,
        f.height > 0,
    ensures
        r.is_some(),
        r.unwrap()@ == perceptual_hash(grid, f.width, f.height, f.pixels@),
{
    let buf = img_hash::image::RgbImage::from_raw(f.width, f.height, f.pixels.clone())?;
    let hasher = img_hash::HasherConfig::new().hash_size(grid, grid).to_hasher();
    let hash = hasher.hash_image(&img_hash::image::DynamicImage::ImageRgb8(buf));
    Some(hash.as_bytes().to_vec())
}

/// The fingerprints of the images of `s`.
pub open spec fn fingerprints(grid: u32, s: Seq<Fragment>) -> Seq<Seq<u8>> {
    Seq::new(s.len(), |i: int| perceptual_hash(grid, s[i].width, s[i].height, s[i].pixels@))
}

/// Number of one bits of `x`.
pub open spec fn popcount(x: nat) -> nat
    decreases x,
{
    if x == 0 {
        0
    } else {
        x % 2 + popcount(x / 2)
    }
}

proof fn lemma_popcount_bound(x: nat, k: nat)
    requires
        x < pow2(k),
    ensures
        popcount(x) <= k,
    decreases k,
{
    lemma2_to64();
    if k > 0 {
        lemma_pow2_unfold(k);
        assert(x / 2 < pow2((k - 1) as nat));
        lemma_popcount_bound(x / 2, (k - 1) as nat);
    }
}

/// Hamming distance of the first `n` bytes of `a` and `b`.
pub open spec fn bit_distance(a: Seq<u8>, b: Seq<u8>, n: int) -> nat
    decreases n,
{
    if n <= 0 {
        0
    } else {
        bit_distance(a, b, n - 1) + popcount((a[n - 1] ^ b[n - 1]) as nat)
    }
}

/// Hamming distance of two fingerprints: the differing bits over the bytes
/// they both have.
pub open spec fn hash_distance(a: Seq<u8>, b: Seq<u8>) -> nat {
    bit_distance(a, b, if a.len() <= b.len() { a.len() as int } else { b.len() as int })
}

/// Number of one bits of a byte.
fn count_ones_u8(x: u8) -> (r: u32)
    ensures
        r == popcount(x as nat),
        r <= 8,
{
    proof {
        lemma2_to64();
        lemma_popcount_bound(x as nat, 8);
    }
    let mut v: u8 = x;
    let mut c: u32 = 0;
    while v != 0
        invariant
            c + popcount(v as nat) == popcount(x as nat),
            popcount(x as nat) <= 8,
        decreases v,
    {
        c = c + (v % 2) as u32;
        v = v / 2;
    }
    c
}

/// Number of bits in which two 64-bit hashes differ.
pub fn hamming_distance(hash1: u64, hash2: u64) -> (r: u32)
    ensures
        r == popcount((hash1 ^ hash2) as nat),
        r <= 64,
{
    let x: u64 = hash1 ^ hash2;
    proof {
        lemma2_to64();
        lemma_popcount_bound(x as nat, 64);
    }
    let mut v: u64 = x;
    let mut c: u32 = 0;
    while v != 0
        invariant
            c + popcount(v as nat) == popcount(x as nat),
            popcount(x as nat) <= 64,
        decreases v,
    {
        c = c + (v % 2) as u32;
        v = v / 2;
    }
    c
}

/// Hamming distance of two fingerprints over the bytes they both have.
pub fn fingerprint_distance(a: &Vec<u8>, b: &Vec<u8>) -> (r: u128)
    ensures
        r == hash_distance(a@, b@),
{
    let n: usize = if a.len() <= b.len() {
        a.len()
    } else {
        b.len()
    };
    let mut d: u128 = 0;
    let mut i: usize = 0;
    while i < n
        invariant
            n <= a@.len(),
            n <= b@.len(),
            n == (if a@.len() <= b@.len() { a@.len() } else { b@.len() }),
            i <= n,
            d == bit_distance(a@, b@, i as int),
            d <= 8 * i,
        decreases n - i,
    {
        let c = count_ones_u8(a[i] ^ b[i]);
        d = d + c as u128;
        i = i + 1;
    }
    d
}

/// The fingerprints held in `v`, as sequences of bytes.
pub open spec fn views(v: Seq<Vec<u8>>) -> Seq<Seq<u8>> {
    Seq::new(v.len(), |i: int| v[i]@)
}

/// The first group from position `g` on whose key, the fingerprint of its
/// first member, lies within `t` of `h`; `keys.len()` when there is none.
pub open spec fn first_fit(keys: Seq<int>, hashes: Seq<Seq<u8>>, h: Seq<u8>, t: int, g: int) -> int
    decreases keys.len() - g,
{
    if g >= keys.len() {
        keys.len() as int
    } else if hash_distance(hashes[keys[g]], h) <= t {
        g
    } else {
        first_fit(keys, hashes, h, t, g + 1)
    }
}

/// The first members of the groups formed by the first `n` fingerprints, in
/// the order the groups were created.
pub open spec fn leaders(hashes: Seq<Seq<u8>>, t: int, n: int) -> Seq<int>
    decreases n,
{
    if n <= 0 {
        Seq::empty()
    } else {
        let l = leaders(hashes, t, n - 1);
        if first_fit(l, hashes, hashes[n - 1], t, 0) < l.len() {
            l
        } else {
            l.push(n - 1)
        }
    }
}

/// The group that image `i` joins: the first group existing when it comes
/// whose key is within `t` of its fingerprint, or else the new group it
/// starts.
pub open spec fn label(hashes: Seq<Seq<u8>>, t: int, i: int) -> int {
    first_fit(leaders(hashes, t, i), hashes, hashes[i], t, 0)
}

/// The members of group `g` among the first `n` images, in the order they
/// joined it.
pub open spec fn members(hashes: Seq<Seq<u8>>, t: int, g: int, n: int) -> Seq<int>
    decreases n,
{
    if n <= 0 {
        Seq::empty()
    } else {
        let m = members(hashes, t, g, n - 1);
        if label(hashes, t, n - 1) == g {
            m.push(n - 1)
        } else {
            m
        }
    }
}

/// The groups of all images, in the order they were created.
pub open spec fn clusters(hashes: Seq<Seq<u8>>, t: int) -> Seq<Seq<int>> {
    Seq::new(
        leaders(hashes, t, hashes.len() as int).len(),
        |g: int| members(hashes, t, g, hashes.len() as int),
    )
}

/// Indices held in `v`, as integers.
pub open spec fn as_ints(v: Seq<usize>) -> Seq<int> {
    Seq::new(v.len(), |i: int| v[i] as int)
}

proof fn lemma_first_fit_range(keys: Seq<int>, hashes: Seq<Seq<u8>>, h: Seq<u8>, t: int, g: int)
    requires
        0 <= g <= keys.len(),
    ensures
        g <= first_fit(keys, hashes, h, t, g) <= keys.len(),
    decreases keys.len() - g,
{
    if g < keys.len() {
        lemma_first_fit_range(keys, hashes, h, t, g + 1);
    }
}

proof fn lemma_leaders_range(hashes: Seq<Seq<u8>>, t: int, n: int)
    requires
        0 <= n,
    ensures
        leaders(hashes, t, n).len() <= n,
        forall|g: int|
            0 <= g < leaders(hashes, t, n).len() ==> 0 <= #[trigger] leaders(hashes, t, n)[g] < n,
    decreases n,
{
    if n > 0 {
        lemma_leaders_range(hashes, t, n - 1);
    }
}

/// Assigns each fingerprint, in order, to the first existing group whose key
/// is within `threshold` of it, or starts a new group keyed by it, and returns
/// the groups' members by index, in order of creation.
pub fn group_fingerprints(hashes: &Vec<Vec<u8>>, threshold: u32) -> (r: Vec<Vec<usize>>)
    ensures
        r@.len() == clusters(views(hashes@), threshold as int).len(),
        forall|g: int|
            0 <= g < r@.len() ==> as_ints(#[trigger] r@[g]@) == clusters(
                views(hashes@),
                threshold as int,
            )[g],
{
    let ghost hs = views(hashes@);
    let ghost t = threshold as int;
    let n: usize = hashes.len();
    let mut keys: Vec<usize> = Vec::new();
    let mut labels: Vec<usize> = Vec::new();
    let mut i: usize = 0;
    while i < n
        invariant
            n == hashes@.len(),
            hs == views(hashes@),
            t == threshold,
            i <= n,
            as_ints(keys@) == leaders(hs, t, i as int),
            labels@.len() == i,
            forall|j: int| 0 <= j < i ==> labels@[j] == label(hs, t, j),
        decreases n - i,
    {
        proof {
            lemma_leaders_range(hs, t, i as int);
        }
        let ghost l = leaders(hs, t, i as int);
        let mut g: usize = 0;
        let mut found: bool = false;
        while g < keys.len() && !found
            invariant
                n == hashes@.len(),
                hs == views(hashes@),
                t == threshold,
                i < n,
                as_ints(keys@) == l,
                forall|q: int| 0 <= q < l.len() ==> 0 <= #[trigger] l[q] < i,
                g <= keys@.len(),
                found ==> g < keys@.len() && first_fit(l, hs, hs[i as int], t, 0) == g,
                !found ==> first_fit(l, hs, hs[i as int], t, 0) == first_fit(
                    l,
                    hs,
                    hs[i as int],
                    t,
                    g as int,
                ),
            decreases keys@.len() - g + (if found { 0int } else { 1int }),
        {
            assert(l[g as int] == keys@[g as int]);
            let d = fingerprint_distance(&hashes[keys[g]], &hashes[i]);
            if d <= threshold as u128 {
                found = true;
            } else {
                g = g + 1;
            }
        }
        if found {
            labels.push(g);
        } else {
            labels.push(keys.len());
            keys.push(i);
        }
        proof {
            assert(as_ints(keys@) =~= leaders(hs, t, i as int + 1));
        }
        i = i + 1;
    }
    let mut out: Vec<Vec<usize>> = Vec::new();
    let mut g: usize = 0;
    while g < keys.len()
        invariant
            n == hashes@.len(),
            hs == views(hashes@),
            t == threshold,
            as_ints(keys@) == leaders(hs, t, n as int),
            labels@.len() == n,
            forall|j: int| 0 <= j < n ==> labels@[j] == label(hs, t, j),
            g <= keys@.len(),
            out@.len() == g,
            forall|q: int| 0 <= q < g ==> as_ints(#[trigger] out@[q]@) == members(hs, t, q, n as int),
        decreases keys@.len() - g,
    {
        let mut m: Vec<usize> = Vec::new();
        let mut j: usize = 0;
        while j < n
            invariant
                labels@.len() == n,
                forall|q: int| 0 <= q < n ==> labels@[q] == label(hs, t, q),
                j <= n,
                as_ints(m@) == members(hs, t, g as int, j as int),
            decreases n - j,
        {
            if labels[j] == g {
                m.push(j);
            }
            j = j + 1;
            proof {
                assert(as_ints(m@) =~= members(hs, t, g as int, j as int));
            }
        }
        out.push(m);
        g = g + 1;
    }
    proof {
        assert(keys@.len() == as_ints(keys@).len());
    }
    out
}

/// Fingerprints each image on a `grid` by `grid` hash and groups the images
/// first-fit by fingerprint distance at most `threshold`; returns the groups'
/// members by index, in order of creation.
pub fn group(images: &Vec<Fragment>, grid: u32, threshold: u32) -> (r: Vec<Vec<usize>>)
    requires
        0 < grid <= 256,
        forall|i: int|
            0 <= i < images@.len() ==> (#[trigger] images@[i]).wf() && images@[i].width > 0
                && images@[i].height > 0,
    ensures
        r@.len() == clusters(fingerprints(grid, images@), threshold as int).len(),
        forall|g: int|
            0 <= g < r@.len() ==> as_ints(#[trigger] r@[g]@) == clusters(
                fingerprints(grid, images@),
                threshold as int,
            )[g],
{
    let mut hashes: Vec<Vec<u8>> = Vec::new();
    let mut i: usize = 0;
    while i < images.len()
        invariant
            0 < grid <= 256,
            forall|q: int|
                0 <= q < images@.len() ==> (#[trigger] images@[q]).wf() && images@[q].width > 0
                    && images@[q].height > 0,
            i <= images@.len(),
            hashes@.len() == i,
            views(hashes@) =~= fingerprints(grid, images@).take(i as int),
        decreases images@.len() - i,
    {
        let ghost before = hashes@;
        let h = compute_image_hash(grid, &images[i]);
        match h {
            Some(v) => {
                hashes.push(v);
                assert(hashes@[i as int]@ == fingerprints(grid, images@)[i as int]);
                assert(forall|k: int| 0 <= k < i ==> hashes@[k] == before[k]);
            },
            None => {
                hashes.push(Vec::new());
            },
        }
        i = i + 1;
        proof {
            assert(views(hashes@) =~= fingerprints(grid, images@).take(i as int));
        }
    }
    proof {
        assert(i == images@.len());
        assert(fingerprints(grid, images@).len() == i);
        assert(fingerprints(grid, images@).take(i as int) =~= fingerprints(grid, images@));
    }
    group_fingerprints(&hashes, threshold)
}

proof fn lemma_label_range(hashes: Seq<Seq<u8>>, t: int, i: int, n: int)
    requires
        0 <= i < n,
    ensures
        0 <= label(hashes, t, i) < leaders(hashes, t, n).len(),
    decreases n - i,
{
    if i + 1 < n {
        lemma_label_range(hashes, t, i, n - 1);
    } else {
        lemma_first_fit_range(leaders(hashes, t, i), hashes, hashes[i], t, 0);
    }
}

proof fn lemma_members(hashes: Seq<Seq<u8>>, t: int, g: int, n: int)
    requires
        0 <= n,
    ensures
        forall|i: int| #[trigger]
            members(hashes, t, g, n).contains(i) <==> (0 <= i < n && label(hashes, t, i) == g),
        members(hashes, t, g, n).no_duplicates(),
        forall|k: int| 0 <= k < members(hashes, t, g, n).len() ==> #[trigger] members(hashes, t, g, n)[k] < n,
    decreases n,
{
    if n > 0 {
        lemma_members(hashes, t, g, n - 1);
        let m = members(hashes, t, g, n - 1);
        if label(hashes, t, n - 1) == g {
            let m2 = m.push(n - 1);
            assert(members(hashes, t, g, n) == m2);
            assert forall|i: int| #[trigger] m2.contains(i) implies (0 <= i < n && label(hashes, t, i) == g) by {
                let k = choose|k: int| 0 <= k < m2.len() && #[trigger] m2[k] == i;
                if k < m.len() {
                    assert(m[k] == i);
                    assert(m.contains(i));
                }
            }
            assert forall|i: int| 0 <= i < n && label(hashes, t, i) == g implies #[trigger] m2.contains(i) by {
                if i < n - 1 {
                    assert(m.contains(i));
                    let k = choose|k: int| 0 <= k < m.len() && #[trigger] m[k] == i;
                    assert(m2[k] == i);
                } else {
                    assert(m2[m.len() as int] == i);
                }
            }
            assert forall|k1: int, k2: int| 0 <= k1 < m2.len() && 0 <= k2 < m2.len() && k1 != k2 implies m2[k1] != m2[k2] by {
                if k1 < m.len() && k2 < m.len() {
                    assert(m[k1] != m[k2]);
                } else if k1 < m.len() {
                    assert(m[k1] < n - 1);
                } else if k2 < m.len() {
                    assert(m[k2] < n - 1);
                }
            }
        } else {
            assert forall|i: int| #[trigger] m.contains(i) implies i < n - 1 by {
                let k = choose|k: int| 0 <= k < m.len() && #[trigger] m[k] == i;
            }
        }
    }
}

/// The groups partition the images: every image is a member of exactly the
/// group it was assigned, and of no other; no group lists an image twice, and
/// every member of a group is one of the images.
pub proof fn lemma_clusters_partition(hashes: Seq<Seq<u8>>, t: int)
    ensures
        forall|i: int|
            0 <= i < hashes.len() ==> 0 <= #[trigger] label(hashes, t, i) < clusters(hashes, t).len()
                && clusters(hashes, t)[label(hashes, t, i)].contains(i),
        forall|g: int, i: int|
            0 <= g < clusters(hashes, t).len() && #[trigger] clusters(hashes, t)[g].contains(i)
                ==> 0 <= i < hashes.len() && g == label(hashes, t, i),
        forall|g: int|
            0 <= g < clusters(hashes, t).len() ==> #[trigger] clusters(hashes, t)[g].no_duplicates(),
{
    let n = hashes.len() as int;
    assert forall|i: int|
        0 <= i < hashes.len() implies 0 <= #[trigger] label(hashes, t, i) < clusters(hashes, t).len()
            && clusters(hashes, t)[label(hashes, t, i)].contains(i) by {
        lemma_label_range(hashes, t, i, n);
        lemma_members(hashes, t, label(hashes, t, i), n);
    }
    assert forall|g: int, i: int|
        0 <= g < clusters(hashes, t).len() && #[trigger] clusters(hashes, t)[g].contains(i)
            implies 0 <= i < hashes.len() && g == label(hashes, t, i) by {
        lemma_members(hashes, t, g, n);
    }
    assert forall|g: int|
        0 <= g < clusters(hashes, t).len() implies #[trigger] clusters(hashes, t)[g].no_duplicates() by {
        lemma_members(hashes, t, g, n);
    }
}

/// The threshold is inclusive: of two images, the second joins the group of
/// the first exactly when their fingerprints differ in at most `t` bits, and
/// otherwise starts a group of its own.
pub proof fn lemma_threshold_boundary(hashes: Seq<Seq<u8>>, t: int)
    requires
        hashes.len() == 2,
    ensures
        hash_distance(hashes[0], hashes[1]) <= t ==> clusters(hashes, t) == seq![seq![0int, 1int]],
        hash_distance(hashes[0], hashes[1]) > t ==> clusters(hashes, t) == seq![
            seq![0int],
            seq![1int],
        ],
{
    let l0 = leaders(hashes, t, 0);
    let l1 = leaders(hashes, t, 1);
    assert(l0 =~= Seq::<int>::empty());
    assert(label(hashes, t, 0) == 0);
    assert(l1 =~= seq![0int]);
    assert(first_fit(l1, hashes, hashes[1], t, 1) == 1);
    assert(l1[0] == 0);
    assert(hashes[l1[0]] == hashes[0]);
    if hash_distance(hashes[0], hashes[1]) <= t {
        assert(first_fit(l1, hashes, hashes[1], t, 0) == 0);
        assert(label(hashes, t, 1) == 0);
        assert(leaders(hashes, t, 2) == l1);
        assert(members(hashes, t, 0, 0) =~= Seq::<int>::empty());
        assert(members(hashes, t, 0, 1) =~= seq![0int]);
        assert(members(hashes, t, 0, 2) =~= seq![0int, 1int]);
        assert(clusters(hashes, t) =~= seq![seq![0int, 1int]]);
    } else {
        assert(first_fit(l1, hashes, hashes[1], t, 0) == first_fit(l1, hashes, hashes[1], t, 1));
        assert(label(hashes, t, 1) == 1);
        assert(leaders(hashes, t, 2) =~= seq![0int, 1int]);
        assert(members(hashes, t, 0, 0) =~= Seq::<int>::empty());
        assert(members(hashes, t, 0, 1) =~= seq![0int]);
        assert(members(hashes, t, 0, 2) =~= seq![0int]);
        assert(members(hashes, t, 1, 0) =~= Seq::<int>::empty());
        assert(members(hashes, t, 1, 1) =~= Seq::<int>::empty());
        assert(members(hashes, t, 1, 2) =~= seq![1int]);
        assert(clusters(hashes, t) =~= seq![seq![0int], seq![1int]]);
    }
}

} // verus!
