use vstd::prelude::*;

use base64::Engine;

verus! {

/// What the standard, padded base64 alphabet decodes `s` to; `None` when
/// `s` is not valid base64 of that alphabet.
pub uninterp spec fn base64_standard_decoded(s: Seq<char>) -> Option<Seq<u8>>;

pub open spec fn opt_bytes(v: Option<Vec<u8>>) -> Option<Seq<u8>> {
    match v {
        Some(b) => Some(b@),
        None => None,
    }
}

/// Relies on base64's `Engine::decode` with the `STANDARD` engine: the
/// decoded bytes, or an error for input that is not valid base64.
#[verifier::external_body]
fn decode_base64(s: &str) -> (r: Option<Vec<u8>>)
    ensures
        opt_bytes(r) == base64_standard_decoded(s@),
{
    base64::engine::general_purpose::STANDARD.decode(s).ok()
}

/// The unsigned integer that the JSON document `doc` holds at JSON pointer
/// `pointer`; `None` when `doc` is not a JSON document or holds no unsigned
/// integer there.
pub uninterp spec fn json_u64_at(doc: Seq<u8>, pointer: Seq<char>) -> Option<u64>;

/// Relies on serde_json's `from_slice` into a `Value`, then `Value::pointer`
/// and `Value::as_u64`: one lookup whose result depends on the bytes and the
/// pointer alone.
#[verifier::external_body]
fn json_u64_lookup(doc: &[u8], pointer: &str) -> (r: Option<u64>)
    ensures
        r == json_u64_at(doc@, pointer@),
{
    let v: serde_json::Value = match serde_json::from_slice(doc) {
        Ok(v) => v,
        Err(_) => return None,
    };
    match v.pointer(pointer) {
        Some(x) => x.as_u64(),
        None => None,
    }
}

/// Why no asset identifier could be read from an image URL's path.
#[derive(Debug, Clone, Copy, PartialEq, Eq, Structural)]
pub enum BlobIdError {
    /// The path has fewer than three segments.
    MissingSegment,
    /// The encoded part of the segment is not valid base64.
    BadBase64,
    /// The decoded part is not JSON with a numeric `_rails.data`.
    BadJson,
}

/// How many times `c` occurs in `s`.
pub open spec fn count_char(s: Seq<char>, c: char) -> nat
    decreases s.len(),
{
    if s.len() == 0 {
        0
    } else {
        (if s[0] == c { 1nat } else { 0nat }) + count_char(s.subrange(1, s.len() as int), c)
    }
}

/// `s[a..b]` is the third segment from the end of `s` split at `/`.
pub open spec fn is_third_last_segment(s: Seq<char>, a: int, b: int) -> bool {
    &&& 0 <= a <= b < s.len()
    &&& s[b] == '/'
    &&& count_char(s.subrange(b, s.len() as int), '/') == 2
    &&& (a == 0 || s[a - 1] == '/')
    &&& count_char(s.subrange(a, b), '/') == 0
}

/// Two dashes start at position `i`.
pub open spec fn dashes_at(s: Seq<char>, i: int) -> bool {
    0 <= i && i + 1 < s.len() && s[i] == '-' && s[i + 1] == '-'
}

/// `s` up to the first `--`, or all of `s` when it has none.
pub open spec fn is_before_dashes(s: Seq<char>, r: Seq<char>) -> bool {
    &&& r.len() <= s.len()
    &&& r == s.subrange(0, r.len() as int)
    &&& (r.len() == s.len() || dashes_at(s, r.len() as int))
    &&& forall|j: int| 0 <= j < r.len() ==> !dashes_at(s, j)
}

proof fn lemma_count_step(s: Seq<char>, i: int, c: char)
    requires
        0 < i <= s.len(),
    ensures
        count_char(s.subrange(i - 1, s.len() as int), c) == (if s[i - 1] == c { 1nat } else { 0nat })
            + count_char(s.subrange(i, s.len() as int), c),
{
    assert(s.subrange(i - 1, s.len() as int).subrange(1, s.len() - i + 1) =~= s.subrange(i, s.len() as int));
}

proof fn lemma_count_step_to(s: Seq<char>, a: int, b: int, c: char)
    requires
        0 < a <= b <= s.len(),
    ensures
        count_char(s.subrange(a - 1, b), c) == (if s[a - 1] == c { 1nat } else { 0nat })
            + count_char(s.subrange(a, b), c),
{
    assert(s.subrange(a - 1, b).subrange(1, b - a + 1) =~= s.subrange(a, b));
}

proof fn lemma_count_concat(x: Seq<char>, y: Seq<char>, c: char)
    ensures
        count_char(x + y, c) == count_char(x, c) + count_char(y, c),
    decreases x.len(),
{
    if x.len() > 0 {
        assert((x + y).subrange(1, (x + y).len() as int) =~= x.subrange(1, x.len() as int) + y);
        lemma_count_concat(x.subrange(1, x.len() as int), y, c);
    } else {
        assert(x + y =~= y);
    }
}

proof fn lemma_count_pos(x: Seq<char>, i: int, c: char)
    requires
        0 <= i < x.len(),
        x[i] == c,
    ensures
        count_char(x, c) >= 1,
    decreases i,
{
    if i > 0 {
        lemma_count_pos(x.subrange(1, x.len() as int), i - 1, c);
    }
}

proof fn lemma_segment_unique(s: Seq<char>, a: int, b: int)
    requires
        is_third_last_segment(s, a, b),
    ensures
        forall|a2: int, b2: int| is_third_last_segment(s, a2, b2) ==> a2 == a && b2 == b,
{
    assert forall|a2: int, b2: int| is_third_last_segment(s, a2, b2) implies a2 == a && b2 == b by {
        let n = s.len() as int;
        if b < b2 {
            assert(s.subrange(b, n) =~= s.subrange(b, b2) + s.subrange(b2, n));
            lemma_count_concat(s.subrange(b, b2), s.subrange(b2, n), '/');
            lemma_count_pos(s.subrange(b, b2), 0, '/');
        } else if b2 < b {
            assert(s.subrange(b2, n) =~= s.subrange(b2, b) + s.subrange(b, n));
            lemma_count_concat(s.subrange(b2, b), s.subrange(b, n), '/');
            lemma_count_pos(s.subrange(b2, b), 0, '/');
        }
        if a < a2 {
            lemma_count_pos(s.subrange(a, b), a2 - 1 - a, '/');
        } else if a2 < a {
            lemma_count_pos(s.subrange(a2, b2), a - 1 - a2, '/');
        }
    }
}

proof fn lemma_segment_count(s: Seq<char>, a: int, b: int)
    requires
        is_third_last_segment(s, a, b),
    ensures
        count_char(s, '/') >= 2,
{
    assert(s =~= s.subrange(0, b) + s.subrange(b, s.len() as int));
    lemma_count_concat(s.subrange(0, b), s.subrange(b, s.len() as int), '/');
}

proof fn lemma_before_dashes_unique(s: Seq<char>, r: Seq<char>)
    requires
        is_before_dashes(s, r),
    ensures
        forall|r2: Seq<char>| is_before_dashes(s, r2) ==> r2 == r,
{
    assert forall|r2: Seq<char>| is_before_dashes(s, r2) implies r2 == r by {
        if r.len() < r2.len() {
            assert(!dashes_at(s, r.len() as int));
        } else if r2.len() < r.len() {
            assert(!dashes_at(s, r2.len() as int));
        }
    }
}

/// Finds the third segment from the end of a `/`-separated path.
pub fn third_last_segment(path: &str) -> (r: Option<(usize, usize)>)
    ensures
        match r {
            Some((a, b)) => is_third_last_segment(path@, a as int, b as int),
            None => count_char(path@, '/') < 2,
        },
{
    let n = path.unicode_len();
    let mut i: usize = n;
    let mut seen: usize = 0;
    assert(path@.subrange(n as int, n as int) =~= Seq::<char>::empty());
    while i > 0 && seen < 2
        invariant
            n == path@.len(),
            i <= n,
            seen <= 2,
            count_char(path@.subrange(i as int, n as int), '/') == seen,
            seen == 2 ==> path@[i as int] == '/',
            seen > 0 ==> i < n,
        decreases i,
    {
        let c = path.get_char(i - 1);
        proof {
            lemma_count_step(path@, i as int, '/');
        }
        if c == '/' {
            seen = seen + 1;
        }
        i = i - 1;
    }
    if seen < 2 {
        assert(path@.subrange(0, n as int) =~= path@);
        return None;
    }
    let b = i;
    let mut a: usize = b;
    assert(path@.subrange(b as int, b as int) =~= Seq::<char>::empty());
    while a > 0 && path.get_char(a - 1) != '/'
        invariant
            n == path@.len(),
            a <= b < n,
            count_char(path@.subrange(a as int, b as int), '/') == 0,
        decreases a,
    {
        proof {
            lemma_count_step_to(path@, a as int, b as int, '/');
        }
        a = a - 1;
    }
    Some((a, b))
}

/// The part of `s` before its first `--`.
pub fn before_dashes(s: &str) -> (r: usize)
    ensures
        r <= s@.len(),
        is_before_dashes(s@, s@.subrange(0, r as int)),
{
    let n = s.unicode_len();
    let mut i: usize = 0;
    while i < n
        invariant
            n == s@.len(),
            i <= n,
            forall|j: int| 0 <= j < i ==> !dashes_at(s@, j),
        decreases n - i,
    {
        if i + 1 < n && s.get_char(i) == '-' && s.get_char(i + 1) == '-' {
            return i;
        }
        i = i + 1;
    }
    i
}

/// Reads the storage service's asset id from an image URL's path: the third
/// segment from the end, up to its first `--`, is base64 of a JSON document
/// whose `_rails.data` is the id.
pub fn get_rails_blob_id(path: &str) -> (r: Result<u64, BlobIdError>)
    ensures
        count_char(path@, '/') < 2 <==> r == Err::<u64, BlobIdError>(BlobIdError::MissingSegment),
        r == Err::<u64, BlobIdError>(BlobIdError::BadBase64) <==> exists|a: int, b: int, e: Seq<char>|
            is_third_last_segment(path@, a, b) && is_before_dashes(path@.subrange(a, b), e)
                && base64_standard_decoded(e) is None,
        forall|a: int, b: int, e: Seq<char>, bytes: Seq<u8>|
            is_third_last_segment(path@, a, b) && is_before_dashes(path@.subrange(a, b), e)
                && base64_standard_decoded(e) == Some(bytes) ==> r == match json_u64_at(
                bytes,
                "/_rails/data"@,
            ) {
                Some(id) => Ok::<u64, BlobIdError>(id),
                None => Err(BlobIdError::BadJson),
            },
{
    let seg = third_last_segment(path);
    let (a, b) = match seg {
        None => {
            proof {
                assert forall|a2: int, b2: int| !is_third_last_segment(path@, a2, b2) by {
                    if is_third_last_segment(path@, a2, b2) {
                        lemma_segment_count(path@, a2, b2);
                    }
                }
            }
            return Err(BlobIdError::MissingSegment);
        },
        Some(p) => p,
    };
    proof {
        lemma_segment_count(path@, a as int, b as int);
    }
    let segment = path.substring_char(a, b);
    let k = before_dashes(segment);
    let encoded = segment.substring_char(0, k);
    proof {
        lemma_segment_unique(path@, a as int, b as int);
        lemma_before_dashes_unique(segment@, encoded@);
    }
    let bytes = match decode_base64(encoded) {
        None => return Err(BlobIdError::BadBase64),
        Some(v) => v,
    };
    assert(!exists|a2: int, b2: int, e: Seq<char>|
        is_third_last_segment(path@, a2, b2) && is_before_dashes(path@.subrange(a2, b2), e)
            && base64_standard_decoded(e) is None);
    match json_u64_lookup(bytes.as_slice(), "/_rails/data") {
        Some(id) => Ok(id),
        None => Err(BlobIdError::BadJson),
    }
}

} // verus!
