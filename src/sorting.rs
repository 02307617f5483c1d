use vstd::prelude::*;
use std::cmp::Ordering;
use crate::grouping::views;

verus! {

/// How `sort_files` orders paths.
#[derive(Clone, Copy, Debug)]
pub enum SortAlgorithm {
    Lexicographical,
    ByUuidFirstPart,
    ByUuidLatestPart,
    ReverseLexicographical,
}

/// The order of two paths as `std::path::Path` orders them.
pub uninterp spec fn path_order(a: Seq<char>, b: Seq<char>) -> Ordering;

/// Relies on `Ord for std::path::Path`, which compares paths component by
/// component; the result depends on the two paths alone.
#[verifier::external_body]
fn compare_paths(a: &str, b: &str) -> (r: Ordering)
    ensures
        r == path_order(a@, b@),
{
    std::path::Path::new(a).cmp(std::path::Path::new(b))
}

/// The UTF-8 bytes of the file stem of a path: its file name without the last
/// extension, empty when it has no file name.
pub uninterp spec fn stem_of(p: Seq<char>) -> Seq<u8>;

/// Relies on `std::path::Path::file_stem`; a stem taken from a `&str` is
/// valid UTF-8, so the lossy conversion keeps its bytes.
#[verifier::external_body]
fn file_stem(p: &str) -> (r: Vec<u8>)
    ensures
        r@ == stem_of(p@),
{
    match std::path::Path::new(p).file_stem() {
        Some(n) => n.to_string_lossy().as_bytes().to_vec(),
        None => Vec::new(),
    }
}

/// Orders two integers.
pub open spec fn int_order(a: int, b: int) -> Ordering {
    if a < b {
        Ordering::Less
    } else if a > b {
        Ordering::Greater
    } else {
        Ordering::Equal
    }
}

/// Byte-wise lexicographic order, a proper prefix first.
pub open spec fn lex_order(a: Seq<u8>, b: Seq<u8>) -> Ordering
    decreases a.len(),
{
    if a.len() == 0 && b.len() == 0 {
        Ordering::Equal
    } else if a.len() == 0 {
        Ordering::Less
    } else if b.len() == 0 {
        Ordering::Greater
    } else if a[0] != b[0] {
        int_order(a[0] as int, b[0] as int)
    } else {
        lex_order(a.drop_first(), b.drop_first())
    }
}

/// `s` split at every `-` byte; an empty `s` gives one empty part.
pub open spec fn split_dash(s: Seq<u8>) -> Seq<Seq<u8>>
    decreases s.len(),
{
    if s.len() == 0 {
        seq![Seq::empty()]
    } else {
        let p = split_dash(s.drop_last());
        if s.last() == 45 {
            p.push(Seq::empty())
        } else {
            p.update(p.len() - 1, p.last().push(s.last()))
        }
    }
}

/// The decimal value of a sequence of ASCII digits.
pub open spec fn digits_value(s: Seq<u8>) -> int
    decreases s.len(),
{
    if s.len() == 0 {
        0
    } else {
        digits_value(s.drop_last()) * 10 + (s.last() - 48)
    }
}

/// `s` without one leading `+`.
pub open spec fn unsigned_digits(s: Seq<u8>) -> Seq<u8> {
    if s.len() > 0 && s[0] == 43 {
        s.subrange(1, s.len() as int)
    } else {
        s
    }
}

/// The `u64` that `s` spells, as `u64::from_str` reads it: an optional `+`,
/// then one or more ASCII digits whose value fits.
pub open spec fn parse_spec(s: Seq<u8>) -> Option<u64> {
    let d = unsigned_digits(s);
    if d.len() > 0 && (forall|i: int| 0 <= i < d.len() ==> 48 <= #[trigger] d[i] <= 57)
        && digits_value(d) <= u64::MAX {
        Some(digits_value(d) as u64)
    } else {
        None
    }
}

/// Order of two parse results: a failure before any number, numbers by value.
pub open spec fn parsed_order(a: Option<u64>, b: Option<u64>) -> Ordering {
    match (a, b) {
        (None, None) => Ordering::Equal,
        (None, Some(_)) => Ordering::Less,
        (Some(_), None) => Ordering::Greater,
        (Some(x), Some(y)) => int_order(x as int, y as int),
    }
}

/// The first unequal order of paired parts from position `i` on, their
/// numeric values compared; `Equal` when every pair agrees.
pub open spec fn parts_order(pa: Seq<Seq<u8>>, pb: Seq<Seq<u8>>, i: int) -> Ordering
    decreases pa.len() - i,
{
    if i < 0 || i >= pa.len() || i >= pb.len() {
        Ordering::Equal
    } else {
        let c = parsed_order(parse_spec(pa[i]), parse_spec(pb[i]));
        if c != Ordering::Equal {
            c
        } else {
            parts_order(pa, pb, i + 1)
        }
    }
}

/// Order of two stems by their dash-separated numeric parts, paired from the
/// first; the stems' bytes decide when all pairs agree.
pub open spec fn first_part_order(a: Seq<u8>, b: Seq<u8>) -> Ordering {
    let c = parts_order(split_dash(a), split_dash(b), 0);
    if c != Ordering::Equal {
        c
    } else {
        lex_order(a, b)
    }
}

/// Order of two stems by the numeric value of their last dash-separated
/// part; the stems' bytes decide on a tie.
pub open spec fn latest_part_order(a: Seq<u8>, b: Seq<u8>) -> Ordering {
    let c = parsed_order(parse_spec(split_dash(a).last()), parse_spec(split_dash(b).last()));
    if c != Ordering::Equal {
        c
    } else {
        lex_order(a, b)
    }
}

proof fn lemma_digits_prefix(d: Seq<u8>, j: int)
    requires
        0 <= j <= d.len(),
        forall|i: int| 0 <= i < d.len() ==> 48 <= #[trigger] d[i] <= 57,
    ensures
        digits_value(d.take(j)) <= digits_value(d),
        0 <= digits_value(d.take(j)),
    decreases d.len(),
{
    if d.len() > 0 {
        if j < d.len() {
            let e = d.drop_last();
            assert(e.take(j) =~= d.take(j));
            lemma_digits_prefix(e, j);
            assert(e.take(e.len() as int) =~= e);
        } else {
            assert(d.take(j) =~= d);
            let e = d.drop_last();
            lemma_digits_prefix(e, 0);
            assert(e.take(0) =~= Seq::<u8>::empty());
        }
    }
}

/// Reads a `u64` as `u64::from_str` does: an optional `+`, then ASCII digits
/// whose value fits.
pub fn parse_u64(s: &Vec<u8>) -> (r: Option<u64>)
    ensures
        r == parse_spec(s@),
{
    let n: usize = s.len();
    let start: usize = if n > 0 && s[0] == 43 {
        1
    } else {
        0
    };
    let ghost d = unsigned_digits(s@);
    assert(d =~= s@.subrange(start as int, n as int));
    if start == n {
        return None;
    }
    let mut v: u64 = 0;
    let mut i: usize = start;
    while i < n
        invariant
            d == s@.subrange(start as int, n as int),
            d == unsigned_digits(s@),
            start < n == s@.len(),
            start <= i <= n,
            forall|k: int| 0 <= k < i - start ==> 48 <= #[trigger] d[k] <= 57,
            v == digits_value(d.take(i - start)),
        decreases n - i,
    {
        let c: u8 = s[i];
        if c < 48 || c > 57 {
            assert(!(48 <= d[i - start] <= 57));
            assert(!(forall|k: int| 0 <= k < d.len() ==> 48 <= #[trigger] d[k] <= 57));
            assert(unsigned_digits(s@) == d);
            assert(parse_spec(s@).is_none());
            return None;
        }
        let ghost t = d.take(i - start + 1);
        assert(t.drop_last() =~= d.take(i - start));
        let dv: u64 = (c - 48) as u64;
        if v > (u64::MAX - dv) / 10 {
            proof {
                assert(t.last() == c);
                assert(v * 10 + dv > u64::MAX) by (nonlinear_arith)
                    requires
                        v > (u64::MAX - dv) / 10,
                        dv <= 9,
                ;
                assert(digits_value(t) > u64::MAX);
                if forall|k: int| 0 <= k < d.len() ==> 48 <= #[trigger] d[k] <= 57 {
                    lemma_digits_prefix(d, i - start + 1);
                }
                assert(unsigned_digits(s@) == d);
            }
            return None;
        }
        v = v * 10 + dv;
        i = i + 1;
    }
    assert(d.take(i - start) =~= d);
    Some(v)
}

/// Compares two byte strings lexicographically.
pub fn compare_bytes(a: &[u8], b: &[u8]) -> (r: Ordering)
    ensures
        r == lex_order(a@, b@),
{
    let mut i: usize = 0;
    assert(a@.skip(0) =~= a@);
    assert(b@.skip(0) =~= b@);
    while i < a.len() && i < b.len()
        invariant
            i <= a@.len(),
            i <= b@.len(),
            lex_order(a@, b@) == lex_order(a@.skip(i as int), b@.skip(i as int)),
        decreases a@.len() - i,
    {
        if a[i] != b[i] {
            return if a[i] < b[i] {
                Ordering::Less
            } else {
                Ordering::Greater
            };
        }
        assert(a@.skip(i as int).drop_first() =~= a@.skip(i as int + 1));
        assert(b@.skip(i as int).drop_first() =~= b@.skip(i as int + 1));
        i = i + 1;
    }
    if a.len() == b.len() {
        Ordering::Equal
    } else if i == a.len() {
        Ordering::Less
    } else {
        Ordering::Greater
    }
}

/// Splits `s` at every `-` byte.
fn split_parts(s: &Vec<u8>) -> (r: Vec<Vec<u8>>)
    ensures
        views(r@) == split_dash(s@),
{
    let mut parts: Vec<Vec<u8>> = Vec::new();
    let mut cur: Vec<u8> = Vec::new();
    let mut i: usize = 0;
    assert(s@.take(0) =~= Seq::<u8>::empty());
    assert(views(parts@).push(cur@) =~= split_dash(s@.take(0)));
    while i < s.len()
        invariant
            i <= s@.len(),
            views(parts@).push(cur@) == split_dash(s@.take(i as int)),
        decreases s@.len() - i,
    {
        let ghost t = s@.take(i as int + 1);
        assert(t.drop_last() =~= s@.take(i as int));
        let b: u8 = s[i];
        if b == 45 {
            parts.push(cur);
            cur = Vec::new();
            assert(views(parts@).push(cur@) =~= split_dash(t));
        } else {
            cur.push(b);
            assert(views(parts@).push(cur@) =~= split_dash(t));
        }
        i = i + 1;
    }
    parts.push(cur);
    assert(s@.take(i as int) =~= s@);
    assert(views(parts@) =~= split_dash(s@));
    parts
}

/// Compares two parse results: a failure before any number, numbers by
/// value.
fn compare_parsed(a: Option<u64>, b: Option<u64>) -> (r: Ordering)
    ensures
        r == parsed_order(a, b),
{
    match (a, b) {
        (None, None) => Ordering::Equal,
        (None, Some(_)) => Ordering::Less,
        (Some(_), None) => Ordering::Greater,
        (Some(x), Some(y)) => if x < y {
            Ordering::Less
        } else if x > y {
            Ordering::Greater
        } else {
            Ordering::Equal
        },
    }
}

/// Compares two paths by the dash-separated numeric parts of their file
/// stems, paired from the first; the stems' bytes decide when all pairs agree.
pub fn sort_uuid_first_part(a: &String, b: &String) -> (r: Ordering)
    ensures
        r == first_part_order(stem_of(a@), stem_of(b@)),
{
    let name_a = file_stem(a.as_str());
    let name_b = file_stem(b.as_str());
    let parts_a = split_parts(&name_a);
    let parts_b = split_parts(&name_b);
    let ghost pa = views(parts_a@);
    let ghost pb = views(parts_b@);
    let mut i: usize = 0;
    while i < parts_a.len() && i < parts_b.len()
        invariant
            pa == views(parts_a@),
            pb == views(parts_b@),
            pa == split_dash(stem_of(a@)),
            pb == split_dash(stem_of(b@)),
            name_a@ == stem_of(a@),
            name_b@ == stem_of(b@),
            i <= parts_a@.len(),
            i <= parts_b@.len(),
            parts_order(pa, pb, 0) == parts_order(pa, pb, i as int),
        decreases parts_a@.len() - i,
    {
        let c = compare_parsed(parse_u64(&parts_a[i]), parse_u64(&parts_b[i]));
        assert(pa[i as int] == parts_a@[i as int]@);
        assert(pb[i as int] == parts_b@[i as int]@);
        match c {
            Ordering::Equal => {},
            _ => {
                assert(parts_order(pa, pb, i as int) == c);
                assert(pa == split_dash(stem_of(a@)));
                return c;
            },
        }
        i = i + 1;
    }
    compare_bytes(name_a.as_slice(), name_b.as_slice())
}

/// Compares two paths by the numeric value of the last dash-separated part of
/// their file stems; the stems' bytes decide on a tie.
pub fn sort_uuid_latest_part(a: &String, b: &String) -> (r: Ordering)
    ensures
        r == latest_part_order(stem_of(a@), stem_of(b@)),
{
    let name_a = file_stem(a.as_str());
    let name_b = file_stem(b.as_str());
    let parts_a = split_parts(&name_a);
    let parts_b = split_parts(&name_b);
    proof {
        lemma_split_nonempty(name_a@);
        lemma_split_nonempty(name_b@);
    }
    let la: usize = parts_a.len() - 1;
    let lb: usize = parts_b.len() - 1;
    assert(views(parts_a@)[la as int] == parts_a@[la as int]@);
    assert(views(parts_b@)[lb as int] == parts_b@[lb as int]@);
    let c = compare_parsed(parse_u64(&parts_a[la]), parse_u64(&parts_b[lb]));
    match c {
        Ordering::Equal => compare_bytes(name_a.as_slice(), name_b.as_slice()),
        _ => c,
    }
}

proof fn lemma_split_nonempty(s: Seq<u8>)
    ensures
        split_dash(s).len() >= 1,
    decreases s.len(),
{
    if s.len() > 0 {
        lemma_split_nonempty(s.drop_last());
    }
}

/// The order `algorithm` puts two paths in.
pub open spec fn order_by(algorithm: SortAlgorithm, a: Seq<char>, b: Seq<char>) -> Ordering {
    match algorithm {
        SortAlgorithm::Lexicographical => path_order(a, b),
        SortAlgorithm::ByUuidFirstPart => first_part_order(stem_of(a), stem_of(b)),
        SortAlgorithm::ByUuidLatestPart => latest_part_order(stem_of(a), stem_of(b)),
        SortAlgorithm::ReverseLexicographical => path_order(b, a),
    }
}

/// `x` inserted into `s` after the last element that does not order after it.
pub open spec fn insert_by(algorithm: SortAlgorithm, s: Seq<String>, x: String) -> Seq<String>
    decreases s.len(),
{
    if s.len() == 0 {
        seq![x]
    } else if order_by(algorithm, s.last()@, x@) == Ordering::Greater {
        insert_by(algorithm, s.drop_last(), x).push(s.last())
    } else {
        s.push(x)
    }
}

/// `s` stably sorted by `algorithm`: each element in turn inserted after the
/// sorted elements that do not order after it.
pub open spec fn sorted_by(algorithm: SortAlgorithm, s: Seq<String>) -> Seq<String>
    decreases s.len(),
{
    if s.len() == 0 {
        Seq::empty()
    } else {
        insert_by(algorithm, sorted_by(algorithm, s.drop_last()), s.last())
    }
}

proof fn lemma_insert_at(algorithm: SortAlgorithm, s: Seq<String>, x: String, j: int)
    requires
        0 <= j <= s.len(),
        forall|k: int| j <= k < s.len() ==> order_by(algorithm, (#[trigger] s[k])@, x@) == Ordering::Greater,
        j > 0 ==> order_by(algorithm, s[j - 1]@, x@) != Ordering::Greater,
    ensures
        insert_by(algorithm, s, x) == s.insert(j, x),
    decreases s.len(),
{
    if s.len() == 0 {
        assert(s.insert(j, x) =~= seq![x]);
    } else if j == s.len() {
        assert(s.insert(j, x) =~= s.push(x));
    } else {
        let e = s.drop_last();
        assert(s.last() == s[s.len() - 1]);
        lemma_insert_at(algorithm, e, x, j);
        assert(e.insert(j, x).push(s.last()) =~= s.insert(j, x));
    }
}

/// Compares two paths as `algorithm` orders them.
fn compare_by(algorithm: SortAlgorithm, a: &String, b: &String) -> (r: Ordering)
    ensures
        r == order_by(algorithm, a@, b@),
{
    match algorithm {
        SortAlgorithm::Lexicographical => compare_paths(a.as_str(), b.as_str()),
        SortAlgorithm::ByUuidFirstPart => sort_uuid_first_part(a, b),
        SortAlgorithm::ByUuidLatestPart => sort_uuid_latest_part(a, b),
        SortAlgorithm::ReverseLexicographical => compare_paths(b.as_str(), a.as_str()),
    }
}

/// Whether `algorithm` puts `a` after `b`.
fn orders_after(algorithm: SortAlgorithm, a: &String, b: &String) -> (r: bool)
    ensures
        r == (order_by(algorithm, a@, b@) == Ordering::Greater),
{
    match compare_by(algorithm, a, b) {
        Ordering::Greater => true,
        _ => false,
    }
}

/// Sorts the paths stably by `algorithm`: by path, by the numeric parts of
/// the file stem from the first or by its last part, or by path in reverse.
pub fn sort_files(files: Vec<String>, algorithm: SortAlgorithm) -> (r: Vec<String>)
    ensures
        r@ == sorted_by(algorithm, files@),
{
    let ghost input = files@;
    let mut rest = files;
    let mut rev: Vec<String> = Vec::new();
    while rest.len() > 0
        invariant
            rev@.len() + rest@.len() == input.len(),
            forall|k: int| 0 <= k < rest@.len() ==> #[trigger] rest@[k] == input[k],
            forall|k: int| 0 <= k < rev@.len() ==> #[trigger] rev@[k] == input[input.len() - 1 - k],
        decreases rest@.len(),
    {
        let x = rest.pop().unwrap();
        rev.push(x);
    }
    let mut out: Vec<String> = Vec::new();
    let mut i: usize = 0;
    let n: usize = rev.len();
    assert(input.take(0) =~= Seq::<String>::empty());
    while rev.len() > 0
        invariant
            n == input.len(),
            rev@.len() + i == n,
            forall|k: int| 0 <= k < rev@.len() ==> #[trigger] rev@[k] == input[n - 1 - k],
            out@ == sorted_by(algorithm, input.take(i as int)),
        decreases rev@.len(),
    {
        let x = rev.pop().unwrap();
        assert(x == input[i as int]);
        let mut j: usize = out.len();
        while j > 0 && orders_after(algorithm, &out[j - 1], &x)
            invariant
                j <= out@.len(),
                forall|k: int| j <= k < out@.len() ==> order_by(algorithm, (#[trigger] out@[k])@, x@) == Ordering::Greater,
            decreases j,
        {
            j = j - 1;
        }
        proof {
            let t = input.take(i as int + 1);
            assert(t.drop_last() =~= input.take(i as int));
            assert(t.last() == x);
            lemma_insert_at(algorithm, out@, x, j as int);
        }
        out.insert(j, x);
        i = i + 1;
    }
    assert(input.take(n as int) =~= input);
    out
}

} // verus!
