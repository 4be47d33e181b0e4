//! Numbers as text.
//!
//! Floating-point numbers are printed and read by functions of the caller, on their bits. What
//! such a function answers may depend on its arguments alone.

use vstd::prelude::*;

verus! {

/// How a number is printed.
#[derive(Clone, Copy, Debug, PartialEq, Eq, Structural)]
pub enum Style {
    /// The shortest digits that lead back to the number.
    Plain,
    /// The same digits, with an exponent.
    Scientific,
    /// So many digits after the point.
    Fixed(u32),
}

/// The function prints every number, and always the same way.
pub open spec fn is_printer<P: Fn(u64, Style) -> String>(p: P) -> bool {
    &&& forall|x: u64, s: Style| #[trigger] call_requires(p, (x, s))
    &&& forall|x: u64, s: Style, a: String, b: String|
        #![trigger call_ensures(p, (x, s), a), call_ensures(p, (x, s), b)]
        call_ensures(p, (x, s), a) && call_ensures(p, (x, s), b) ==> a@ == b@
}

/// What the function prints for a number.
pub open spec fn shown<P: Fn(u64, Style) -> String>(p: P, x: u64, s: Style) -> Seq<char> {
    (choose|r: String| call_ensures(p, (x, s), r))@
}

/// Print a number.
pub fn show<P: Fn(u64, Style) -> String>(p: &P, x: u64, s: Style) -> (r: String)
    requires
        is_printer(*p),
    ensures
        r@ == shown(*p, x, s),
{
    p(x, s)
}

/// The function reads every text, and answers the same for the same text.
pub open spec fn is_reader<T, Q: Fn(String) -> Option<T>>(q: Q) -> bool {
    &&& forall|s: String| #[trigger] call_requires(q, (s,))
    &&& forall|a: String, b: String, x: Option<T>, y: Option<T>|
        #![trigger call_ensures(q, (a,), x), call_ensures(q, (b,), y)]
        a@ == b@ && call_ensures(q, (a,), x) && call_ensures(q, (b,), y) ==> x == y
}

/// The function can answer so for a text.
pub open spec fn answers<T, Q: Fn(String) -> Option<T>>(q: Q, text: Seq<char>, x: Option<T>) -> bool {
    exists|s: String| s@ == text && #[trigger] call_ensures(q, (s,), x)
}

/// What the function reads in a text.
pub open spec fn read_in<T, Q: Fn(String) -> Option<T>>(q: Q, text: Seq<char>) -> Option<T> {
    choose|x: Option<T>| answers(q, text, x)
}

/// Read a number.
pub fn read<T, Q: Fn(String) -> Option<T>>(q: &Q, text: String) -> (r: Option<T>)
    requires
        is_reader(*q),
    ensures
        r == read_in(*q, text@),
{
    let ghost s = text;
    let r = q(text);
    proof {
        assert(call_ensures(*q, (s,), r));
        assert(answers(*q, s@, r));
        let x = read_in(*q, s@);
        assert(answers(*q, s@, x));
    }
    r
}

} // verus!
