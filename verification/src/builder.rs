//! Staged assembly of an aggregator: depth, then symbol, then venues.
//!
//! The builder follows the typestate pattern: each stage exposes only the
//! next legal step, and `build` is the sole point where a misconfiguration
//! surfaces as an error.  Connecting the venue sockets is the caller's
//! part; `build` validates the configuration and hands back the merge
//! engine that the connected feeds will drive.

use vstd::prelude::*;

use crate::book::HeapedBook;
use crate::exchanges::ExchangeType;
use crate::levels::{AskLevel, BidLevel};

verus! {

/// Why an aggregator could not be assembled.
#[derive(Debug, Clone, Copy, PartialEq, Eq, Structural)]
pub enum BuildError {
    /// The configured depth is zero.
    DepthNotPositive,
    /// No venue was configured.
    NoExchanges,
}

/// A stage of the builder.
pub trait OrderbookBuilderState {

}

/// The builder's initial stage.
pub struct Empty {}

impl OrderbookBuilderState for Empty {

}

/// The builder holds a depth and expects a symbol.
pub struct WithMaxDepth {}

impl OrderbookBuilderState for WithMaxDepth {

}

/// The builder holds a symbol and expects the venue set.
pub struct WithSymbol {}

impl OrderbookBuilderState for WithSymbol {

}

/// The builder is fully configured and can be built.
pub struct WithExchange {}

impl OrderbookBuilderState for WithExchange {

}

/// A staged builder of aggregators.
pub struct OrderbookBuilder<State: OrderbookBuilderState> {
    pub exchanges: Vec<ExchangeType>,
    pub symbol: Vec<u8>,
    pub max_depth: usize,
    pub state: State,
}

impl<S: OrderbookBuilderState> OrderbookBuilder<S> {
    /// A fresh builder with nothing configured.
    pub fn new() -> (b: OrderbookBuilder<Empty>)
        ensures
            b.exchanges@ =~= Seq::<ExchangeType>::empty(),
            b.symbol@ =~= Seq::<u8>::empty(),
            b.max_depth == 0,
    {
        OrderbookBuilder { exchanges: Vec::new(), symbol: Vec::new(), max_depth: 0, state: Empty {  } }
    }

    /// Configures the per-side depth of the merged view.
    pub fn with_max_depth(self, max_depth: usize) -> (b: OrderbookBuilder<WithMaxDepth>)
        ensures
            b.exchanges@ == self.exchanges@,
            b.symbol@ == self.symbol@,
            b.max_depth == max_depth,
    {
        OrderbookBuilder {
            exchanges: self.exchanges,
            symbol: self.symbol,
            max_depth,
            state: WithMaxDepth {  },
        }
    }
}

impl OrderbookBuilder<WithMaxDepth> {
    /// Configures the trading symbol, in the venues' lowercase form.
    pub fn with_symbol(self, symbol: Vec<u8>) -> (b: OrderbookBuilder<WithSymbol>)
        ensures
            b.exchanges@ == self.exchanges@,
            b.symbol@ == symbol@,
            b.max_depth == self.max_depth,
    {
        OrderbookBuilder {
            exchanges: self.exchanges,
            symbol,
            max_depth: self.max_depth,
            state: WithSymbol {  },
        }
    }
}

impl OrderbookBuilder<WithSymbol> {
    /// Configures the venue set; a venue named twice is kept once.
    pub fn with_exchanges(self, exchanges: &Vec<ExchangeType>) -> (b: OrderbookBuilder<
        WithExchange,
    >)
        ensures
            b.symbol@ == self.symbol@,
            b.max_depth == self.max_depth,
            b.exchanges@.no_duplicates(),
            forall|e: ExchangeType| b.exchanges@.contains(e) <==> exchanges@.contains(e),
    {
        let mut kept: Vec<ExchangeType> = Vec::new();
        let n = exchanges.len();
        let mut i: usize = 0;
        while i < n
            invariant
                0 <= i <= n,
                n == exchanges@.len(),
                kept@.no_duplicates(),
                forall|e: ExchangeType|
                    kept@.contains(e) <==> exchanges@.subrange(0, i as int).contains(e),
            decreases n - i,
        {
            let e = exchanges[i];
            let mut seen = false;
            let m = kept.len();
            let mut j: usize = 0;
            while j < m
                invariant
                    0 <= j <= m,
                    m == kept@.len(),
                    seen <==> exists|x: int| 0 <= x < j && kept@[x] == e,
                decreases m - j,
            {
                if kept[j] == e {
                    seen = true;
                }
                j = j + 1;
            }
            proof {
                assert(seen <==> kept@.contains(e));
            }
            let ghost kept0 = kept@;
            if !seen {
                kept.push(e);
            }
            proof {
                let pre = exchanges@.subrange(0, i as int);
                let cur = exchanges@.subrange(0, i as int + 1);
                assert(kept@.no_duplicates()) by {
                    if !seen {
                        assert forall|a: int, b: int|
                            0 <= a < kept@.len() && 0 <= b < kept@.len() && a != b implies kept@[a]
                            != kept@[b] by {
                            if a < kept0.len() && b < kept0.len() {
                                assert(kept@[a] == kept0[a] && kept@[b] == kept0[b]);
                            } else if a < kept0.len() {
                                assert(kept@[b] == e && kept@[a] == kept0[a]);
                                assert(!kept0.contains(e));
                            } else {
                                assert(kept@[a] == e && kept@[b] == kept0[b]);
                                assert(!kept0.contains(e));
                            }
                        }
                    }
                }
                assert forall|x: ExchangeType| kept@.contains(x) implies cur.contains(x) by {
                    let w = choose|w: int| 0 <= w < kept@.len() && kept@[w] == x;
                    if w < kept0.len() {
                        assert(kept0[w] == x);
                        assert(kept0.contains(x));
                        assert(pre.contains(x));
                        let u = choose|u: int| 0 <= u < pre.len() && pre[u] == x;
                        assert(cur[u] == x);
                    } else {
                        assert(x == e);
                        assert(cur[i as int] == e);
                    }
                }
                assert forall|x: ExchangeType| cur.contains(x) implies kept@.contains(x) by {
                    let w = choose|w: int| 0 <= w < cur.len() && cur[w] == x;
                    if w < i {
                        assert(pre[w] == x);
                        assert(pre.contains(x));
                        assert(kept0.contains(x));
                        let u = choose|u: int| 0 <= u < kept0.len() && kept0[u] == x;
                        assert(kept@[u] == x);
                    } else {
                        assert(x == e);
                        if seen {
                            assert(kept0.contains(e));
                            let u = choose|u: int| 0 <= u < kept0.len() && kept0[u] == e;
                            assert(kept@[u] == e);
                        } else {
                            assert(kept@[kept0.len() as int] == e);
                        }
                    }
                }
            }
            i = i + 1;
        }
        proof {
            assert(exchanges@.subrange(0, n as int) =~= exchanges@);
        }
        OrderbookBuilder {
            exchanges: kept,
            symbol: self.symbol,
            max_depth: self.max_depth,
            state: WithExchange {  },
        }
    }
}

impl OrderbookBuilder<WithExchange> {
    /// Validates the configuration and yields the empty merge engine that
    /// the connected venue feeds will drive.  This is the sole point
    /// where a misconfiguration surfaces.
    pub fn build(&self) -> (r: Result<HeapedBook, BuildError>)
        ensures
            self.max_depth == 0 ==> r == Err::<HeapedBook, BuildError>(BuildError::DepthNotPositive),
            self.max_depth > 0 && self.exchanges@.len() == 0 ==> r == Err::<
                HeapedBook,
                BuildError,
            >(BuildError::NoExchanges),
            self.max_depth > 0 && self.exchanges@.len() > 0 ==> (r matches Ok(book) && book.inv()
                && book.depth() == self.max_depth && book.bids_view()
                =~= Seq::<BidLevel>::empty() && book.asks_view() =~= Seq::<AskLevel>::empty()),
    {
        if self.max_depth == 0 {
            Err(BuildError::DepthNotPositive)
        } else if self.exchanges.len() == 0 {
            Err(BuildError::NoExchanges)
        } else {
            Ok(HeapedBook::new(self.max_depth))
        }
    }
}

} // verus!
