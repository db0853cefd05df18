use crate::symbol::TradingSymbol;
use vstd::prelude::*;

verus! {

/// The bits of a 128-bit identifier that carry the version and the variant
/// of a UUID.
pub const VERSION_AND_VARIANT_BITS: u128 = 0x0000_0000_0000_F000_C000_0000_0000_0000;

/// Those bits as a random (version 4) UUID of the standard variant has
/// them.
pub const RANDOM_UUID_BITS: u128 = 0x0000_0000_0000_4000_8000_0000_0000_0000;

/// A volume-weighted average price, kept exact as a fraction: `notional`,
/// the sum of price times units over the fills, over `volume`, the units
/// filled. The book hands out no average over a `volume` of zero.
#[derive(Clone, Copy, Debug, PartialEq, Eq, Structural)]
pub struct AveragePrice {
    pub notional: i128,
    pub volume: usize,
}

/// The record of one execution.
///
/// `volume_weighted_average_price` is `None` exactly when nothing was
/// executed: an average over no fills does not exist.
#[derive(Debug)]
pub struct TradingResult {
    /// The identifier of this execution.
    pub id: u128,
    pub symbol: TradingSymbol,
    /// The units that changed hands; never more than were requested.
    pub volume_executed: usize,
    pub volume_requested: usize,
    pub volume_weighted_average_price: Option<AveragePrice>,
}

/// A fresh identifier for a trade: `uuid::Uuid::new_v4`, read as a number
/// with `Uuid::as_u128`.
///
/// The value is random. All that is claimed is what `new_v4` builds into
/// every identifier: the version is 4 and the variant is the standard one.
/// `new_v4` panics when the operating system hands out no random bytes.
#[verifier::external_body]
pub(crate) fn fresh_trade_id() -> (id: u128)
    ensures
        id & VERSION_AND_VARIANT_BITS == RANDOM_UUID_BITS,
{
    uuid::Uuid::new_v4().as_u128()
}

} // verus!
