use vstd::prelude::*;
use vstd::slice::slice_subrange;
use vstd::string::StringSliceAdditionalSpecFns;
use vstd::utf8::encode_utf8;
use std::cmp::Ordering;
use crate::sorting::{lex_order, compare_bytes};

verus! {

/// The value of an ASCII hexadecimal digit.
pub open spec fn hex_value(c: u8) -> Option<int> {
    if 48 <= c <= 57 {
        Some(c - 48)
    } else if 97 <= c <= 102 {
        Some(c - 87)
    } else if 65 <= c <= 70 {
        Some(c - 55)
    } else {
        None
    }
}

/// The byte that two characters spell as `u8::from_str_radix(_, 16)` reads
/// them: two hex digits, or a `+` and one hex digit.
pub open spec fn hex_byte(a: u8, b: u8) -> Option<u8> {
    if a == 43 {
        match hex_value(b) {
            Some(v) => Some(v as u8),
            None => None,
        }
    } else {
        match (hex_value(a), hex_value(b)) {
            (Some(x), Some(y)) => Some((16 * x + y) as u8),
            _ => None,
        }
    }
}

/// The bytes that `s` spells two characters at a time; `None` when a pair
/// is not a hex byte or a character is left over.
pub open spec fn hex_decode(s: Seq<u8>) -> Option<Seq<u8>>
    decreases s.len(),
{
    if s.len() == 0 {
        Some(Seq::empty())
    } else if s.len() == 1 {
        None
    } else {
        match (hex_byte(s[0], s[1]), hex_decode(s.subrange(2, s.len() as int))) {
            (Some(b), Some(rest)) => Some(seq![b] + rest),
            _ => None,
        }
    }
}

/// `p` followed by what `o` holds, if it holds anything.
pub open spec fn prepend(p: Seq<u8>, o: Option<Seq<u8>>) -> Option<Seq<u8>> {
    match o {
        Some(r) => Some(p + r),
        None => None,
    }
}

fn hex_digit(c: u8) -> (r: Option<u8>)
    ensures
        r matches Some(v) ==> hex_value(c) == Some(v as int),
        r is None ==> hex_value(c) is None,
{
    if 48 <= c && c <= 57 {
        Some(c - 48)
    } else if 97 <= c && c <= 102 {
        Some(c - 87)
    } else if 65 <= c && c <= 70 {
        Some(c - 55)
    } else {
        None
    }
}

fn parse_hex_byte(a: u8, b: u8) -> (r: Option<u8>)
    ensures
        r == hex_byte(a, b),
{
    if a == 43 {
        hex_digit(b)
    } else {
        match (hex_digit(a), hex_digit(b)) {
            (Some(x), Some(y)) => Some(16 * x + y),
            _ => None,
        }
    }
}

/// Reads the text as hexadecimal, two characters per byte.
pub fn hex_to_ascii(hex: &[u8]) -> (r: Option<Vec<u8>>)
    ensures
        r matches Some(v) ==> hex_decode(hex@) == Some(v@),
        r is None ==> hex_decode(hex@) is None,
{
    let n: usize = hex.len();
    let mut out: Vec<u8> = Vec::new();
    let mut i: usize = 0;
    assert(hex@.subrange(0, n as int) =~= hex@);
    while i < n
        invariant
            n == hex@.len(),
            i <= n,
            hex_decode(hex@) == prepend(out@, hex_decode(hex@.subrange(i as int, n as int))),
        decreases n - i,
    {
        let ghost rest = hex@.subrange(i as int, n as int);
        if i + 1 >= n {
            return None;
        }
        assert(rest.subrange(2, rest.len() as int) =~= hex@.subrange(i + 2, n as int));
        match parse_hex_byte(hex[i], hex[i + 1]) {
            Some(b) => {
                let ghost before = out@;
                out.push(b);
                i = i + 2;
                proof {
                    match hex_decode(hex@.subrange(i as int, n as int)) {
                        Some(t) => {
                            assert(before + (seq![b] + t) =~= out@ + t);
                        },
                        None => {},
                    }
                }
            },
            None => {
                return None;
            },
        }
    }
    assert(hex@.subrange(n as int, n as int) =~= Seq::<u8>::empty());
    assert(out@ + Seq::<u8>::empty() =~= out@);
    Some(out)
}

/// What `base64::decode` makes of the bytes, `None` where it fails.
pub uninterp spec fn base64_decoded(input: Seq<u8>) -> Option<Seq<u8>>;

/// Relies on `base64::decode` with the standard alphabet; its result depends
/// on the input alone.
#[verifier::external_body]
fn base64_decode(input: &[u8]) -> (r: Option<Vec<u8>>)
    ensures
        r matches Some(v) ==> base64_decoded(input@) == Some(v@),
        r is None ==> base64_decoded(input@) is None,
{
    base64::decode(input).ok()
}

/// The text that the bytes encode in UTF-8, `None` where they are not UTF-8.
pub uninterp spec fn utf8_decoded(bytes: Seq<u8>) -> Option<Seq<char>>;

/// Relies on `String::from_utf8`, which fails exactly on invalid UTF-8.
#[verifier::external_body]
fn utf8_text(bytes: Vec<u8>) -> (r: Option<String>)
    ensures
        r matches Some(t) ==> utf8_decoded(bytes@) == Some(t@),
        r is None ==> utf8_decoded(bytes@) is None,
{
    String::from_utf8(bytes).ok()
}

/// What base64 text decodes to, read as UTF-8.
pub open spec fn base64_text(encoded: Seq<u8>) -> Option<Seq<char>> {
    match base64_decoded(encoded) {
        Some(b) => utf8_decoded(b),
        None => None,
    }
}

/// Decodes base64 text and reads the bytes as UTF-8.
pub fn decode_base64(encoded: &[u8]) -> (r: Option<String>)
    ensures
        r matches Some(t) ==> base64_text(encoded@) == Some(t@),
        r is None ==> base64_text(encoded@) is None,
{
    match base64_decode(encoded) {
        Some(bytes) => utf8_text(bytes),
        None => None,
    }
}

/// The texts between successive pairs of double quotes, each at least one
/// character long, as the pattern `"([^"]+)"` finds them from left to right.
pub uninterp spec fn quoted_values(text: Seq<char>) -> Seq<Seq<char>>;

/// Relies on `regex::Regex::captures_iter` with the pattern `"([^"]+)"`,
/// which compiles, and whose one group takes part in every match.
#[verifier::external_body]
fn quoted_parts(text: &str) -> (r: Vec<String>)
    ensures
        r@.len() == quoted_values(text@).len(),
        forall|i: int| 0 <= i < r@.len() ==> (#[trigger] r@[i])@ == quoted_values(text@)[i],
{
    let re = regex::Regex::new("\"([^\"]+)\"").unwrap();
    re.captures_iter(text).map(|c| c[1].to_string()).collect()
}

/// The bytes of `0x4153434949000000`, the marker of an ASCII user comment.
pub open spec fn ascii_marker() -> Seq<u8> {
    seq![48u8, 120, 52, 49, 53, 51, 52, 51, 52, 57, 52, 57, 48, 48, 48, 48, 48, 48]
}

/// The key and the value hidden in a metadata field's text: after the ASCII
/// marker, hexadecimal that spells base64, which decodes to UTF-8 text whose
/// first two quoted parts are the key and the value.
pub open spec fn payload_of(raw: Seq<u8>) -> Option<(Seq<char>, Seq<char>)> {
    if raw.len() >= 18 && raw.take(18) == ascii_marker() {
        match hex_decode(raw.skip(18)) {
            Some(a) => match base64_text(a) {
                Some(t) => {
                    let q = quoted_values(t);
                    if q.len() >= 2 {
                        Some((q[0], q[1]))
                    } else {
                        None
                    }
                },
                None => None,
            },
            None => None,
        }
    } else {
        None
    }
}

fn has_ascii_marker(raw: &[u8]) -> (r: bool)
    ensures
        r == (raw@.len() >= 18 && raw@.take(18) == ascii_marker()),
{
    let marker: [u8; 18] = [48, 120, 52, 49, 53, 51, 52, 51, 52, 57, 52, 57, 48, 48, 48, 48, 48, 48];
    assert(marker@ =~= ascii_marker());
    if raw.len() < 18 {
        return false;
    }
    let mut i: usize = 0;
    while i < 18
        invariant
            raw@.len() >= 18,
            marker@ == ascii_marker(),
            i <= 18,
            forall|k: int| 0 <= k < i ==> raw@[k] == marker@[k],
        decreases 18 - i,
    {
        if raw[i] != marker[i] {
            assert(raw@.take(18)[i as int] != ascii_marker()[i as int]);
            return false;
        }
        i = i + 1;
    }
    assert(raw@.take(18) =~= ascii_marker());
    true
}

/// Extracts the key and the value from a metadata field's text, as
/// `payload_of` describes.
pub fn decode_payload(raw: &str) -> (r: Option<(String, String)>)
    ensures
        r matches Some(kv) ==> payload_of(raw.spec_bytes()) == Some((kv.0@, kv.1@)),
        r is None ==> payload_of(raw.spec_bytes()) is None,
{
    let bytes: &[u8] = raw.as_bytes();
    if !has_ascii_marker(bytes) {
        return None;
    }
    let hex: &[u8] = slice_subrange(bytes, 18, bytes.len());
    assert(hex@ =~= bytes@.skip(18));
    let ascii = match hex_to_ascii(hex) {
        Some(a) => a,
        None => {
            return None;
        },
    };
    let text = match decode_base64(ascii.as_slice()) {
        Some(t) => t,
        None => {
            return None;
        },
    };
    let mut parts = quoted_parts(text.as_str());
    if parts.len() < 2 {
        return None;
    }
    let value = parts.remove(1);
    let key = parts.remove(0);
    Some((key, value))
}

/// `(k, v)` recorded in `s`, which is kept in ascending order of the keys'
/// UTF-8 bytes: it replaces the entry of an equal key, or goes in after the
/// last smaller key.
pub open spec fn record(s: Seq<(Seq<char>, Seq<char>)>, k: Seq<char>, v: Seq<char>) -> Seq<
    (Seq<char>, Seq<char>),
>
    decreases s.len(),
{
    if s.len() == 0 {
        seq![(k, v)]
    } else {
        let c = lex_order(encode_utf8(s.last().0), encode_utf8(k));
        if c == Ordering::Equal {
            s.update(s.len() - 1, (k, v))
        } else if c == Ordering::Greater {
            record(s.drop_last(), k, v).push(s.last())
        } else {
            s.push((k, v))
        }
    }
}

/// The entries of `pairs` recorded one after another, the last value of a key
/// winning.
pub open spec fn recorded(pairs: Seq<(Seq<char>, Seq<char>)>) -> Seq<(Seq<char>, Seq<char>)>
    decreases pairs.len(),
{
    if pairs.len() == 0 {
        Seq::empty()
    } else {
        record(recorded(pairs.drop_last()), pairs.last().0, pairs.last().1)
    }
}

/// The key and the value of each entry, as text.
pub open spec fn entry_views(v: Seq<(String, String)>) -> Seq<(Seq<char>, Seq<char>)> {
    Seq::new(v.len(), |i: int| (v[i].0@, v[i].1@))
}

proof fn lemma_record_at(s: Seq<(Seq<char>, Seq<char>)>, k: Seq<char>, v: Seq<char>, j: int)
    requires
        0 <= j <= s.len(),
        forall|q: int|
            j <= q < s.len() ==> lex_order(encode_utf8((#[trigger] s[q]).0), encode_utf8(k))
                == Ordering::Greater,
        j > 0 ==> lex_order(encode_utf8(s[j - 1].0), encode_utf8(k)) != Ordering::Greater,
    ensures
        j > 0 && lex_order(encode_utf8(s[j - 1].0), encode_utf8(k)) == Ordering::Equal ==> record(
            s,
            k,
            v,
        ) == s.update(j - 1, (k, v)),
        !(j > 0 && lex_order(encode_utf8(s[j - 1].0), encode_utf8(k)) == Ordering::Equal)
            ==> record(s, k, v) == s.insert(j, (k, v)),
    decreases s.len(),
{
    if s.len() == 0 {
        assert(s.insert(j, (k, v)) =~= seq![(k, v)]);
    } else if j == s.len() {
        assert(s.insert(j, (k, v)) =~= s.push((k, v)));
    } else {
        let e = s.drop_last();
        lemma_record_at(e, k, v, j);
        assert(e.insert(j, (k, v)).push(s.last()) =~= s.insert(j, (k, v)));
        if j > 0 {
            assert(e.update(j - 1, (k, v)).push(s.last()) =~= s.update(j - 1, (k, v)));
        }
    }
}

/// Collects the key/value pairs in ascending order of the keys, the last
/// value of a repeated key winning.
pub fn collect_entries(pairs: Vec<(String, String)>) -> (r: Vec<(String, String)>)
    ensures
        entry_views(r@) == recorded(entry_views(pairs@)),
{
    let ghost input = entry_views(pairs@);
    let mut rest = pairs;
    let mut rev: Vec<(String, String)> = Vec::new();
    while rest.len() > 0
        invariant
            rev@.len() + rest@.len() == input.len(),
            forall|q: int| 0 <= q < rest@.len() ==> (#[trigger] rest@[q]).0@ == input[q].0 && rest@[q].1@ == input[q].1,
            forall|q: int|
                0 <= q < rev@.len() ==> (#[trigger] rev@[q]).0@ == input[input.len() - 1 - q].0
                    && rev@[q].1@ == input[input.len() - 1 - q].1,
        decreases rest@.len(),
    {
        let x = rest.pop().unwrap();
        rev.push(x);
    }
    let n: usize = rev.len();
    let mut out: Vec<(String, String)> = Vec::new();
    let mut i: usize = 0;
    assert(input.take(0) =~= Seq::<(Seq<char>, Seq<char>)>::empty());
    assert(entry_views(out@) =~= Seq::<(Seq<char>, Seq<char>)>::empty());
    while rev.len() > 0
        invariant
            n == input.len(),
            rev@.len() + i == n,
            forall|q: int|
                0 <= q < rev@.len() ==> (#[trigger] rev@[q]).0@ == input[n - 1 - q].0
                    && rev@[q].1@ == input[n - 1 - q].1,
            entry_views(out@) == recorded(input.take(i as int)),
        decreases rev@.len(),
    {
        let x = rev.pop().unwrap();
        let ghost s = entry_views(out@);
        let kb: &[u8] = x.0.as_str().as_bytes();
        let mut j: usize = out.len();
        let mut c: Ordering = Ordering::Less;
        let mut stop: bool = false;
        while j > 0 && !stop
            invariant
                j <= out@.len(),
                s == entry_views(out@),
                kb@ == encode_utf8(x.0@),
                forall|q: int|
                    j <= q < s.len() ==> lex_order(encode_utf8((#[trigger] s[q]).0), encode_utf8(x.0@))
                        == Ordering::Greater,
                stop ==> j > 0 && c == lex_order(encode_utf8(s[j - 1].0), encode_utf8(x.0@))
                    && c != Ordering::Greater,
            decreases j + (if stop { 0int } else { 1int }),
        {
            let cc = compare_bytes(out[j - 1].0.as_str().as_bytes(), kb);
            match cc {
                Ordering::Greater => {
                    j = j - 1;
                },
                _ => {
                    c = cc;
                    stop = true;
                },
            }
        }
        proof {
            let t = input.take(i as int + 1);
            assert(t.drop_last() =~= input.take(i as int));
            assert(t.last() == (x.0@, x.1@));
            lemma_record_at(s, x.0@, x.1@, j as int);
        }
        let is_equal: bool = match c {
            Ordering::Equal => true,
            _ => false,
        };
        if stop && is_equal {
            out.remove(j - 1);
            out.insert(j - 1, x);
            assert(entry_views(out@) =~= s.update(j - 1, (x.0@, x.1@)));
        } else {
            out.insert(j, x);
            assert(entry_views(out@) =~= s.insert(j as int, (x.0@, x.1@)));
        }
        i = i + 1;
    }
    assert(input.take(n as int) =~= input);
    out
}

} // verus!
