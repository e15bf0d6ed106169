//! Support for the query frontend: picking the query out of a request's
//! decoded parameter pairs. The frontend itself — routing, headers,
//! transport — stays outside the library; it hands the decoded pairs in
//! and gets the query string back.

use vstd::prelude::*;

verus! {

/// Find and return the value of the first parameter named `query`, or
/// `None` when no parameter has that name.
pub fn get_query(pairs: &Vec<(String, String)>) -> (r: Option<String>)
    ensures
        match r {
            Some(v) => exists|i: int|
                {
                    &&& 0 <= i < pairs@.len()
                    &&& (#[trigger] pairs@[i]).0@ == "query"@
                    &&& v@ == pairs@[i].1@
                    &&& forall|j: int| 0 <= j < i ==> (#[trigger] pairs@[j]).0@ != "query"@
                },
            None => forall|i: int| 0 <= i < pairs@.len() ==> (#[trigger] pairs@[i]).0@ != "query"@,
        },
{
    let needle: String = "query".to_owned();
    let n = pairs.len();
    let mut i: usize = 0;
    while i < n
        invariant
            n == pairs@.len(),
            i <= n,
            needle@ == "query"@,
            forall|j: int| 0 <= j < i ==> (#[trigger] pairs@[j]).0@ != "query"@,
        decreases n - i,
    {
        if pairs[i].0 == needle {
            return Some(pairs[i].1.clone());
        }
        i = i + 1;
    }
    None
}

} // verus!
