//! Table cells in and out: folding loaded values to upper case, checking the
//! query length, finding a column by its header, and rendering a score list.
use vstd::prelude::*;

use crate::batch::{views, ResultRow};

verus! {

/// Length that every query must have once folded.
pub const QUERY_LEN: usize = 20;

/// The upper-case form of a string, as `str::to_uppercase` computes it.
pub uninterp spec fn upper_of(s: Seq<char>) -> Seq<char>;

/// Relies on `str::to_uppercase`: its result is a function of the characters alone.
#[verifier::external_body]
fn to_upper(s: &str) -> (r: String)
    ensures
        r@ == upper_of(s@),
{
    s.to_uppercase()
}

/// Every value folded to upper case, in order.
pub fn fold_case(values: &Vec<String>) -> (r: Vec<String>)
    ensures
        views(r@) == views(values@).map_values(|s: Seq<char>| upper_of(s)),
{
    let mut out: Vec<String> = Vec::new();
    let mut k: usize = 0;
    while k < values.len()
        invariant
            k <= values@.len(),
            out@.len() == k,
            forall|t: int| 0 <= t < k ==> (#[trigger] out@[t])@ == upper_of(values@[t]@),
        decreases values@.len() - k,
    {
        out.push(to_upper(values[k].as_str()));
        k += 1;
    }
    assert(views(out@) =~= views(values@).map_values(|s: Seq<char>| upper_of(s)));
    out
}

/// A query whose folded length is not `QUERY_LEN`.
#[derive(Clone, Copy, Debug, PartialEq, Eq, Structural)]
pub struct QueryLengthError {
    /// Position of the query in its list.
    pub index: usize,
    /// Its length in characters.
    pub length: usize,
}

/// `e` names the first value of `queries` whose length is not `QUERY_LEN`.
pub open spec fn first_bad_query(queries: Seq<Seq<char>>, e: QueryLengthError) -> bool {
    &&& e.index < queries.len()
    &&& queries[e.index as int].len() == e.length
    &&& e.length != QUERY_LEN
    &&& forall|i: int| 0 <= i < e.index ==> (#[trigger] queries[i]).len() == QUERY_LEN
}

/// Every query has length `QUERY_LEN`.
pub open spec fn all_queries_sized(queries: Seq<Seq<char>>) -> bool {
    forall|i: int| 0 <= i < queries.len() ==> (#[trigger] queries[i]).len() == QUERY_LEN
}

/// Succeeds exactly when every query has length `QUERY_LEN`; otherwise it
/// names the first one that does not.
pub fn check_queries(queries: &Vec<String>) -> (r: Result<(), QueryLengthError>)
    ensures
        r is Ok <==> all_queries_sized(views(queries@)),
        r matches Err(e) ==> first_bad_query(views(queries@), e),
{
    let mut k: usize = 0;
    while k < queries.len()
        invariant
            k <= queries@.len(),
            forall|i: int| 0 <= i < k ==> (#[trigger] queries@[i])@.len() == QUERY_LEN,
        decreases queries@.len() - k,
    {
        let length = queries[k].as_str().unicode_len();
        if length != QUERY_LEN {
            assert(views(queries@)[k as int].len() != QUERY_LEN);
            return Err(QueryLengthError { index: k, length });
        }
        k += 1;
    }
    Ok(())
}

/// The queries folded to upper case, or the first one whose folded length is
/// not `QUERY_LEN`.
pub fn load_queries(raw: &Vec<String>) -> (r: Result<Vec<String>, QueryLengthError>)
    ensures
        ({
            let folded = views(raw@).map_values(|s: Seq<char>| upper_of(s));
            match r {
                Ok(v) => views(v@) == folded && all_queries_sized(folded),
                Err(e) => !all_queries_sized(folded) && first_bad_query(folded, e),
            }
        }),
{
    let folded = fold_case(raw);
    match check_queries(&folded) {
        Ok(()) => Ok(folded),
        Err(e) => Err(e),
    }
}

/// The sources folded to upper case, in order.
pub fn load_sources(raw: &Vec<String>) -> (r: Vec<String>)
    ensures
        views(r@) == views(raw@).map_values(|s: Seq<char>| upper_of(s)),
{
    fold_case(raw)
}

/// Position of the first header equal to `name`, if any.
pub fn find_column(headers: &Vec<String>, name: &str) -> (r: Option<usize>)
    ensures
        r is None <==> forall|i: int| 0 <= i < headers@.len() ==> (#[trigger] headers@[i])@ != name@,
        r matches Some(i) ==> i < headers@.len() && headers@[i as int]@ == name@ && forall|k: int|
            0 <= k < i ==> (#[trigger] headers@[k])@ != name@,
{
    let target = String::from_str(name);
    let mut k: usize = 0;
    while k < headers.len()
        invariant
            target@ == name@,
            k <= headers@.len(),
            forall|i: int| 0 <= i < k ==> (#[trigger] headers@[i])@ != name@,
        decreases headers@.len() - k,
    {
        if headers[k] == target {
            return Some(k);
        }
        k += 1;
    }
    None
}

/// The character of a decimal digit.
pub open spec fn digit_char(d: int) -> char {
    if d == 0 {
        '0'
    } else if d == 1 {
        '1'
    } else if d == 2 {
        '2'
    } else if d == 3 {
        '3'
    } else if d == 4 {
        '4'
    } else if d == 5 {
        '5'
    } else if d == 6 {
        '6'
    } else if d == 7 {
        '7'
    } else if d == 8 {
        '8'
    } else {
        '9'
    }
}

/// Decimal digits of `n`, most significant first, without leading zeros.
pub open spec fn digits(n: nat) -> Seq<char>
    decreases n,
{
    if n < 10 {
        seq![digit_char(n as int)]
    } else {
        digits(n / 10).push(digit_char((n % 10) as int))
    }
}

/// Decimal form of `x`, with a leading `-` when negative.
pub open spec fn decimal(x: int) -> Seq<char> {
    if x < 0 {
        seq!['-'] + digits((-x) as nat)
    } else {
        digits(x as nat)
    }
}

/// Decimal forms of `xs`, separated by commas.
pub open spec fn joined(xs: Seq<int>) -> Seq<char>
    decreases xs.len(),
{
    if xs.len() == 0 {
        Seq::empty()
    } else if xs.len() == 1 {
        decimal(xs[0])
    } else {
        joined(xs.drop_last()) + seq![','] + decimal(xs.last())
    }
}

/// Relies on `i32`'s `Display`, through `to_string`: the decimal digits, after
/// a `-` when negative.
#[verifier::external_body]
fn decimal_string(x: i32) -> (r: String)
    ensures
        r@ == decimal(x as int),
{
    x.to_string()
}

/// The score list as output: decimal scores separated by commas.
pub fn similarity_string(scores: &Vec<i32>) -> (r: String)
    ensures
        r@ == joined(scores@.map_values(|x: i32| x as int)),
{
    let ghost xs = scores@.map_values(|x: i32| x as int);
    let mut out = String::new();
    let mut k: usize = 0;
    while k < scores.len()
        invariant
            xs == scores@.map_values(|x: i32| x as int),
            k <= scores@.len(),
            out@ == joined(xs.subrange(0, k as int)),
        decreases scores@.len() - k,
    {
        let piece = decimal_string(scores[k]);
        assert(xs.subrange(0, k + 1).drop_last() =~= xs.subrange(0, k as int));
        if k > 0 {
            let comma = ",";
            proof {
                reveal_strlit(",");
            }
            out.append(comma);
            assert(out@ =~= joined(xs.subrange(0, k as int)) + seq![',']);
        } else {
            assert(joined(xs.subrange(0, k as int)) =~= Seq::<char>::empty());
        }
        out.append(piece.as_str());
        assert(out@ =~= joined(xs.subrange(0, k + 1)));
        k += 1;
    }
    assert(xs.subrange(0, scores@.len() as int) =~= xs);
    out
}

impl ResultRow {
    /// The output record of the row: source, query and rendered score list.
    pub fn to_record(&self) -> (r: Vec<String>)
        ensures
            r@.len() == 3,
            r@[0]@ == self.source@,
            r@[1]@ == self.query@,
            r@[2]@ == joined(self@.2),
    {
        let mut record: Vec<String> = Vec::new();
        record.push(self.source.clone());
        record.push(self.query.clone());
        record.push(similarity_string(&self.scores));
        record
    }
}

} // verus!
