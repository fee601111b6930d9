//! Command-line configuration and its validation rules.

use vstd::prelude::*;

use crate::exchanges::{is_binance_name, is_bitstamp_name, ExchangeType, ExchangeTypeError};

verus! {

/// Why the command line was rejected.
#[derive(Debug, Clone, Copy, PartialEq, Eq, Structural)]
pub enum CliError {
    /// The requested depth was zero.
    MaxDepthNotGreaterThanZeroError,
}

/// The program's configuration as parsed from the command line.
#[derive(Debug)]
pub struct Args {
    /// Maximum per-side depth of the merged view.
    pub max_depth: usize,
    /// Venue names to source orders from, case-insensitive.
    pub exchanges: Vec<String>,
    /// TCP port to expose the server on.
    pub port: String,
    /// Trading symbol in the venues' lowercase form.
    pub symbol: String,
}

impl Args {
    /// A depth of zero is rejected; anything positive is accepted.
    pub fn check_max_depth(&self) -> (r: Result<(), CliError>)
        ensures
            self.max_depth > 0 <==> r is Ok,
            self.max_depth == 0 ==> r == Err::<(), CliError>(
                CliError::MaxDepthNotGreaterThanZeroError,
            ),
    {
        if self.max_depth > 0 {
            Ok(())
        } else {
            Err(CliError::MaxDepthNotGreaterThanZeroError)
        }
    }

    /// Resolves every configured venue name, rejecting the first unknown
    /// one; succeeds exactly when all names are known.
    pub fn parse_exchanges(&self) -> (r: Result<Vec<ExchangeType>, ExchangeTypeError>)
        ensures
            r is Ok <==> (forall|i: int|
                0 <= i < self.exchanges@.len() ==> is_binance_name((#[trigger] self.exchanges@[i])@)
                    || is_bitstamp_name(self.exchanges@[i]@)),
            r matches Ok(v) ==> {
                &&& v@.len() == self.exchanges@.len()
                &&& (forall|i: int|
                    0 <= i < v@.len() ==> (is_binance_name((#[trigger] self.exchanges@[i])@) ==> v@[i]
                        == ExchangeType::Binance) && (is_bitstamp_name(self.exchanges@[i]@)
                        ==> v@[i] == ExchangeType::Bitstamp))
            },
            r matches Err(e) ==> e == ExchangeTypeError::UnknownTypeError,
    {
        let mut out: Vec<ExchangeType> = Vec::new();
        let n = self.exchanges.len();
        let mut i: usize = 0;
        while i < n
            invariant
                0 <= i <= n,
                n == self.exchanges@.len(),
                out@.len() == i,
                forall|j: int|
                    0 <= j < i ==> is_binance_name((#[trigger] self.exchanges@[j])@)
                        || is_bitstamp_name(self.exchanges@[j]@),
                forall|j: int|
                    0 <= j < i ==> (is_binance_name((#[trigger] self.exchanges@[j])@) ==> out@[j]
                        == ExchangeType::Binance) && (is_bitstamp_name(self.exchanges@[j]@)
                        ==> out@[j] == ExchangeType::Bitstamp),
            decreases n - i,
        {
            let name = &self.exchanges[i];
            match ExchangeType::from_str(name.as_str()) {
                Ok(e) => {
                    out.push(e);
                },
                Err(err) => {
                    return Err(err);
                },
            }
            i = i + 1;
        }
        Ok(out)
    }
}

} // verus!
