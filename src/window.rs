//! Slicing a source string into fixed-length probes over its wrapped extension.
use vstd::prelude::*;

verus! {

/// Length of every probe.
pub const WINDOW_LEN: usize = 30;

/// Distance between the starts of two consecutive probes.
pub const WINDOW_STEP: usize = 10;

/// How many leading characters of a source are appended to its end.
pub const WRAP_LEN: usize = 20;

/// Longest source accepted; it keeps every offset within `usize`.
pub const MAX_SOURCE_LEN: usize = 1_000_000_000;

pub open spec fn min_int(x: int, y: int) -> int {
    if x <= y {
        x
    } else {
        y
    }
}

/// The source followed by its own first `min(20, len)` characters.
pub open spec fn extended_source(s: Seq<char>) -> Seq<char> {
    s + s.subrange(0, min_int(WRAP_LEN as int, s.len() as int))
}

/// Number of probes of a source of length `len`: the offsets `10 * k` with
/// `10 * k + 30` within the extended source.
pub open spec fn window_count_spec(len: int) -> int {
    let n = (len + min_int(WRAP_LEN as int, len) - WINDOW_LEN as int) / WINDOW_STEP as int + 1;
    if n >= 0 {
        n
    } else {
        0
    }
}

/// The `k`-th probe of `s`.
pub open spec fn window_at(s: Seq<char>, k: int) -> Seq<char> {
    extended_source(s).subrange(WINDOW_STEP * k, WINDOW_STEP * k + WINDOW_LEN)
}

/// The probes of `s`, in ascending offset order.
pub open spec fn windows_spec(s: Seq<char>) -> Seq<Seq<char>> {
    Seq::new(window_count_spec(s.len() as int) as nat, |k: int| window_at(s, k))
}

/// A probe start is used exactly when a full probe fits in the extended source.
pub proof fn lemma_window_fits(len: int, k: int)
    requires
        0 <= len,
        0 <= k,
    ensures
        k < window_count_spec(len) <==> WINDOW_STEP * k + WINDOW_LEN <= len + min_int(
            WRAP_LEN as int,
            len,
        ),
{
    let e = len + min_int(WRAP_LEN as int, len);
    assert(0 <= e);
    assert(k < window_count_spec(len) <==> 10 * k + 30 <= e) by (nonlinear_arith)
        requires
            window_count_spec(len) == (if (e - 30) / 10 + 1 >= 0 {
                (e - 30) / 10 + 1
            } else {
                0
            }),
            0 <= k,
            0 <= e,
    ;
}

/// Number of probes of a source of `len` characters.
pub fn window_count(len: usize) -> (r: usize)
    requires
        len <= MAX_SOURCE_LEN,
    ensures
        r == window_count_spec(len as int),
{
    let wrap = if len < WRAP_LEN {
        len
    } else {
        WRAP_LEN
    };
    let extended = len + wrap;
    if extended < WINDOW_LEN {
        0
    } else {
        (extended - WINDOW_LEN) / WINDOW_STEP + 1
    }
}

/// The probes of `source`: each 30-character slice of the extended source
/// that starts at a multiple of 10, in ascending offset order.
pub fn windows(source: &str) -> (r: Vec<String>)
    requires
        source@.len() <= MAX_SOURCE_LEN,
    ensures
        r@.len() == window_count_spec(source@.len() as int),
        forall|k: int| 0 <= k < r@.len() ==> (#[trigger] r@[k])@ == windows_spec(source@)[k],
{
    let n = source.unicode_len();
    let wrap = if n < WRAP_LEN {
        n
    } else {
        WRAP_LEN
    };
    let extended = String::from_str(source).concat(source.substring_char(0, wrap));
    let ext = extended.as_str();
    let ext_len = n + wrap;
    assert(ext@ == extended_source(source@));
    let mut out: Vec<String> = Vec::new();
    let mut start: usize = 0;
    let ghost mut k: int = 0;
    while start + WINDOW_LEN <= ext_len
        invariant
            ext@ == extended_source(source@),
            ext_len == ext@.len(),
            ext_len == n + wrap,
            n == source@.len(),
            n <= MAX_SOURCE_LEN,
            wrap == min_int(WRAP_LEN as int, n as int),
            0 <= k,
            start == WINDOW_STEP * k,
            k <= window_count_spec(n as int),
            out@.len() == k,
            forall|t: int| 0 <= t < k ==> (#[trigger] out@[t])@ == window_at(source@, t),
        decreases ext_len - start,
    {
        proof {
            lemma_window_fits(n as int, k);
        }
        let piece = ext.substring_char(start, start + WINDOW_LEN);
        out.push(String::from_str(piece));
        start += WINDOW_STEP;
        proof {
            k = k + 1;
        }
    }
    proof {
        lemma_window_fits(n as int, k);
    }
    out
}

} // verus!
