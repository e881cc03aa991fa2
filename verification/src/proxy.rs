//! Schemes that are described but not implemented here, with representative orders of
//! magnitude from the literature.
use vstd::prelude::*;

verus! {

/// One described scheme; the figures are texts for a table.
pub struct Proxy {
    pub name: &'static str,
    pub verify_note: &'static str,
    pub proof_bytes: &'static str,
    pub root_bytes: &'static str,
}

/// The described schemes: a vector commitment, and many proofs folded into one.
pub open spec fn proxy_table() -> Seq<Proxy> {
    seq![
        Proxy {
            name: "kzg-verkle",
            verify_note: "~1-2 ms (one pairing), O(1) in N",
            proof_bytes: "~48 B (constant)",
            root_bytes: "48 B",
        },
        Proxy {
            name: "recursive-snark",
            verify_note: "~2-10 ms, O(1) in N (N proofs folded into one)",
            proof_bytes: "~200 B - 1 KB (constant)",
            root_bytes: "~200 B",
        },
    ]
}

/// The rows of [`proxy_table`].
pub fn proxies() -> (r: Vec<Proxy>)
    ensures
        r@ == proxy_table(),
{
    vec![
        Proxy {
            name: "kzg-verkle",
            verify_note: "~1-2 ms (one pairing), O(1) in N",
            proof_bytes: "~48 B (constant)",
            root_bytes: "48 B",
        },
        Proxy {
            name: "recursive-snark",
            verify_note: "~2-10 ms, O(1) in N (N proofs folded into one)",
            proof_bytes: "~200 B - 1 KB (constant)",
            root_bytes: "~200 B",
        },
    ]
}

} // verus!
