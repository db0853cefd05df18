use std::rc::Rc;
use vstd::prelude::*;

verus! {

/// The name of a tradable instrument.
///
/// The text is immutable and shared: every quote and every position record
/// of one instrument may point at the same allocation. Two symbols are the
/// same instrument exactly when their texts are equal.
#[derive(Debug, PartialEq, Eq, Hash)]
pub struct TradingSymbol(Rc<String>);

impl View for TradingSymbol {
    type V = Seq<char>;

    closed spec fn view(&self) -> Seq<char> {
        self.0@
    }
}

/// `Rc::clone` on a shared string: a second handle to the same text.
#[verifier::external_body]
fn share(text: &Rc<String>) -> (handle: Rc<String>)
    ensures
        handle == *text,
{
    Rc::clone(text)
}

impl TradingSymbol {
    pub fn new(name: String) -> (symbol: TradingSymbol)
        ensures
            symbol@ == name@,
    {
        TradingSymbol(Rc::new(name))
    }

    /// The text of the symbol.
    pub fn as_str(&self) -> (text: &str)
        ensures
            text@ == self@,
    {
        self.0.as_str()
    }

    /// Content equality.
    pub fn same_as(&self, other: &TradingSymbol) -> (b: bool)
        ensures
            b == (self@ == other@),
    {
        *self.0 == *other.0
    }
}

impl Clone for TradingSymbol {
    fn clone(&self) -> (symbol: TradingSymbol)
        ensures
            symbol == *self,
    {
        TradingSymbol(share(&self.0))
    }
}

} // verus!
