//! What can go wrong when HMMs are built.

use vstd::prelude::*;
use vstd::string::StringExecFns;

use crate::text::{append_decimal, append_int, decimal, decimal_int};
use crate::types::PhoneId;

verus! {

/// Why HMMs cannot be built.
#[derive(Debug)]
pub enum HmmError {
    /// A topology is not valid, and why.
    Topology(String),
    /// A phone has no topology.
    UncoveredPhone(PhoneId),
    /// A context has no pdf.
    NoPdf { window: Vec<PhoneId>, pdf_class: i32 },
}

/// Numbers with a comma and a space between them.
pub open spec fn number_list(v: Seq<PhoneId>, n: int) -> Seq<char>
    decreases n,
{
    if n <= 0 {
        seq![]
    } else if n == 1 {
        decimal(v[0] as nat)
    } else {
        number_list(v, n - 1) + ", "@ + decimal(v[n - 1] as nat)
    }
}

/// The message for an error.
pub open spec fn hmm_message(e: HmmError) -> Seq<char> {
    match e {
        HmmError::Topology(why) => "invalid topology: "@ + why@,
        HmmError::UncoveredPhone(p) => "phone "@ + decimal(p as nat)
            + " is not covered by the topology"@,
        HmmError::NoPdf { window, pdf_class } => "context-dependency object gave no pdf for window ["@
            + number_list(window@, window@.len() as int) + "] pdf-class "@ + decimal_int(
            pdf_class as int,
        ),
    }
}

impl HmmError {
    pub fn to_string(&self) -> (r: String)
        ensures
            r@ == hmm_message(*self),
    {
        match self {
            HmmError::Topology(why) => crate::text::joined("invalid topology: ", why.as_str()),
            HmmError::UncoveredPhone(p) => {
                let mut s = String::from_str("phone ");
                append_decimal(&mut s, *p as u64);
                s.append(" is not covered by the topology");
                s
            },
            HmmError::NoPdf { window, pdf_class } => {
                let mut s = String::from_str("context-dependency object gave no pdf for window [");
                let ghost start = s@;
                assert(s@ =~= start + number_list(window@, 0));
                let mut i: usize = 0;
                while i < window.len()
                    invariant
                        i <= window@.len(),
                        s@ == start + number_list(window@, i as int),
                    decreases window.len() - i,
                {
                    if i > 0 {
                        s.append(", ");
                    }
                    append_decimal(&mut s, window[i] as u64);
                    assert(s@ =~= start + number_list(window@, i + 1));
                    i += 1;
                }
                s.append("] pdf-class ");
                append_int(&mut s, *pdf_class as i64);
                s
            },
        }
    }
}

} // verus!
