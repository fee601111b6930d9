//! The merge engine: a bounded top-N book per side across all venues.
//!
//! The engine consumes one tagged snapshot at a time.  A snapshot from a
//! venue first displaces every level that venue contributed before, then
//! its rows are merged in, deduplicated by `(venue, price)` with the later
//! row winning, and each side is clipped to the `max_depth` best levels.
//! The contracts state the result exactly: the retained levels are
//! candidates (surviving levels of other venues, or effective rows of the
//! snapshot), they are sorted best-first without duplicates, no side
//! exceeds the depth, a side below the depth holds every candidate, and no
//! candidate that was left out ranks before a retained one.

use vstd::prelude::*;

use crate::exchanges::{AdapterError, ExchangeType, FeedSnapshot};
use crate::hash_heap::{
    clip, has_key, key_pos, keys_sorted, kv_insert, lemma_key_pos_brackets, HashHeap,
};
use crate::levels::{
    ask_key, ask_key_spec, ask_precedes, bid_key, bid_key_spec, bid_precedes, lemma_ask_key_order,
    lemma_bid_key_order, AskLevel, BidLevel,
};

verus! {

/// Error on the merged stream.
#[derive(Debug, Clone, Copy, PartialEq, Eq, Structural)]
pub enum OrderbookError {
    /// An adapter error, forwarded as the single item for that event.
    Adapter(AdapterError),
    /// The event stream ended.
    StreamCancelled,
}

/// A merged view fit to emit: both sides within `depth` and sorted
/// strictly best-first (hence free of duplicate `(venue, price)` keys).
pub open spec fn view_ok(view: (Vec<BidLevel>, Vec<AskLevel>), depth: nat) -> bool {
    &&& view.0@.len() <= depth
    &&& view.1@.len() <= depth
    &&& (forall|i: int, j: int| 0 <= i < j < view.0@.len() ==> bid_precedes(view.0@[i], view.0@[j]))
    &&& (forall|i: int, j: int| 0 <= i < j < view.1@.len() ==> ask_precedes(view.1@[i], view.1@[j]))
}

/// The merged view standing after the first `i` items of a replay's
/// output: the content of the last accepted emission among them, or the
/// initial view while every earlier event had failed.
pub open spec fn view_after(
    init: (Seq<BidLevel>, Seq<AskLevel>),
    outs: Seq<Result<(Vec<BidLevel>, Vec<AskLevel>), OrderbookError>>,
    i: int,
) -> (Seq<BidLevel>, Seq<AskLevel>)
    decreases i,
{
    if i <= 0 {
        init
    } else {
        match outs[i - 1] {
            Ok(v) => (v.0@, v.1@),
            Err(_) => view_after(init, outs, i - 1),
        }
    }
}

/// Appending an output leaves the view after any earlier prefix alone.
proof fn lemma_view_after_push(
    init: (Seq<BidLevel>, Seq<AskLevel>),
    outs: Seq<Result<(Vec<BidLevel>, Vec<AskLevel>), OrderbookError>>,
    x: Result<(Vec<BidLevel>, Vec<AskLevel>), OrderbookError>,
    i: int,
)
    requires
        0 <= i <= outs.len(),
    ensures
        view_after(init, outs.push(x), i) == view_after(init, outs, i),
    decreases i,
{
    if i > 0 {
        lemma_view_after_push(init, outs, x, i - 1);
        assert(outs.push(x)[i - 1] == outs[i - 1]);
    }
}

/// The values of keyed entries, in key order.
pub open spec fn entry_values<T>(s: Seq<(u128, T)>) -> Seq<T> {
    Seq::new(s.len(), |i: int| s[i].1)
}

/// `x` is the value of some entry of `s`.
pub open spec fn holds_val<T>(s: Seq<(u128, T)>, x: T) -> bool {
    exists|i: int| 0 <= i < s.len() && (#[trigger] s[i]).1 == x
}

/// Price `p` is quoted somewhere in `rows[k..]`.
pub open spec fn occurs_from(rows: Seq<(u64, u64)>, k: int, p: u64) -> bool {
    exists|i: int| k <= i < rows.len() && (#[trigger] rows[i]).0 == p
}

/// `(p, a)` is the effective row for price `p` in `rows[k..]`: it occurs
/// there and no later row quotes `p` again (the last quote wins).
pub open spec fn effective_from(rows: Seq<(u64, u64)>, k: int, p: u64, a: u64) -> bool {
    exists|i: int|
        k <= i < rows.len() && #[trigger] rows[i] == (p, a) && !occurs_from(rows, i + 1, p)
}

/// A quoted price has exactly one effective row.
proof fn lemma_occurs_effective(rows: Seq<(u64, u64)>, k: int, p: u64)
    requires
        occurs_from(rows, k, p),
    ensures
        exists|a: u64| #[trigger] effective_from(rows, k, p, a),
    decreases rows.len() - k,
{
    let i = choose|i: int| k <= i < rows.len() && (#[trigger] rows[i]).0 == p;
    if occurs_from(rows, i + 1, p) {
        lemma_occurs_effective(rows, i + 1, p);
        let a = choose|a: u64| #[trigger] effective_from(rows, i + 1, p, a);
        let w = choose|w: int|
            i + 1 <= w < rows.len() && #[trigger] rows[w] == (p, a) && !occurs_from(rows, w + 1, p);
        assert(k <= w < rows.len() && rows[w] == (p, a) && !occurs_from(rows, w + 1, p));
        assert(effective_from(rows, k, p, a));
    } else {
        let a = rows[i].1;
        assert(rows[i] == (p, a));
        assert(effective_from(rows, k, p, a));
    }
}

/// `l` is a candidate bid once `rows[k..]` of venue `v` have been merged
/// over the previously retained bids `prev`.
pub open spec fn bid_cand(
    prev: Seq<BidLevel>,
    v: ExchangeType,
    rows: Seq<(u64, u64)>,
    k: int,
    l: BidLevel,
) -> bool {
    ||| (l.exchange != v && prev.contains(l))
    ||| (l.exchange == v && effective_from(rows, k, l.price, l.amount))
}

/// `l` is a candidate ask; the mirror of `bid_cand`.
pub open spec fn ask_cand(
    prev: Seq<AskLevel>,
    v: ExchangeType,
    rows: Seq<(u64, u64)>,
    k: int,
    l: AskLevel,
) -> bool {
    ||| (l.exchange != v && prev.contains(l))
    ||| (l.exchange == v && effective_from(rows, k, l.price, l.amount))
}

/// How the candidate set changes when row `j` is uncovered: nothing
/// changes if a later row quotes the same price, otherwise exactly the
/// level built from row `j` joins the candidates.
proof fn lemma_bid_cand_step(
    prev: Seq<BidLevel>,
    v: ExchangeType,
    rows: Seq<(u64, u64)>,
    j: int,
    l: BidLevel,
)
    requires
        0 <= j < rows.len(),
    ensures
        occurs_from(rows, j + 1, rows[j].0) ==> (bid_cand(prev, v, rows, j, l) <==> bid_cand(
            prev,
            v,
            rows,
            j + 1,
            l,
        )),
        !occurs_from(rows, j + 1, rows[j].0) ==> (bid_cand(prev, v, rows, j, l) <==> (bid_cand(
            prev,
            v,
            rows,
            j + 1,
            l,
        ) || l == (BidLevel { price: rows[j].0, amount: rows[j].1, exchange: v }))),
{
    lemma_effective_step(rows, j, l.price, l.amount);
}

/// The same candidate step for the ask side.
proof fn lemma_ask_cand_step(
    prev: Seq<AskLevel>,
    v: ExchangeType,
    rows: Seq<(u64, u64)>,
    j: int,
    l: AskLevel,
)
    requires
        0 <= j < rows.len(),
    ensures
        occurs_from(rows, j + 1, rows[j].0) ==> (ask_cand(prev, v, rows, j, l) <==> ask_cand(
            prev,
            v,
            rows,
            j + 1,
            l,
        )),
        !occurs_from(rows, j + 1, rows[j].0) ==> (ask_cand(prev, v, rows, j, l) <==> (ask_cand(
            prev,
            v,
            rows,
            j + 1,
            l,
        ) || l == (AskLevel { price: rows[j].0, amount: rows[j].1, exchange: v }))),
{
    lemma_effective_step(rows, j, l.price, l.amount);
}

/// How the effective rows change when row `j` is uncovered.
proof fn lemma_effective_step(rows: Seq<(u64, u64)>, j: int, p: u64, a: u64)
    requires
        0 <= j < rows.len(),
    ensures
        p != rows[j].0 ==> (effective_from(rows, j, p, a) <==> effective_from(rows, j + 1, p, a)),
        p == rows[j].0 && occurs_from(rows, j + 1, p) ==> (effective_from(rows, j, p, a)
            <==> effective_from(rows, j + 1, p, a)),
        p == rows[j].0 && !occurs_from(rows, j + 1, p) ==> (effective_from(rows, j, p, a) <==> a
            == rows[j].1) && !effective_from(rows, j + 1, p, a),
{
    if p != rows[j].0 {
        if effective_from(rows, j, p, a) {
            let i = choose|i: int|
                j <= i < rows.len() && #[trigger] rows[i] == (p, a) && !occurs_from(
                    rows,
                    i + 1,
                    p,
                );
            assert(i != j);
            assert(effective_from(rows, j + 1, p, a));
        }
        if effective_from(rows, j + 1, p, a) {
            let i = choose|i: int|
                j + 1 <= i < rows.len() && #[trigger] rows[i] == (p, a) && !occurs_from(
                    rows,
                    i + 1,
                    p,
                );
            assert(j <= i < rows.len() && rows[i] == (p, a) && !occurs_from(rows, i + 1, p));
            assert(effective_from(rows, j, p, a));
        }
    } else {
        if occurs_from(rows, j + 1, p) {
            if effective_from(rows, j, p, a) {
                let i = choose|i: int|
                    j <= i < rows.len() && #[trigger] rows[i] == (p, a) && !occurs_from(
                        rows,
                        i + 1,
                        p,
                    );
                assert(i != j);
                assert(effective_from(rows, j + 1, p, a));
            }
            if effective_from(rows, j + 1, p, a) {
                let i = choose|i: int|
                    j + 1 <= i < rows.len() && #[trigger] rows[i] == (p, a) && !occurs_from(
                        rows,
                        i + 1,
                        p,
                    );
                assert(j <= i < rows.len() && rows[i] == (p, a) && !occurs_from(rows, i + 1, p));
                assert(effective_from(rows, j, p, a));
            }
        } else {
            if effective_from(rows, j, p, a) {
                let i = choose|i: int|
                    j <= i < rows.len() && #[trigger] rows[i] == (p, a) && !occurs_from(
                        rows,
                        i + 1,
                        p,
                    );
                if i > j {
                    assert(occurs_from(rows, j + 1, p));
                    assert(false);
                }
                assert(a == rows[j].1);
            }
            if a == rows[j].1 {
                assert(rows[j] == (p, a));
                assert(effective_from(rows, j, p, a));
            }
            if effective_from(rows, j + 1, p, a) {
                let i = choose|i: int|
                    j + 1 <= i < rows.len() && #[trigger] rows[i] == (p, a) && !occurs_from(
                        rows,
                        i + 1,
                        p,
                    );
                assert(occurs_from(rows, j + 1, p));
                assert(false);
            }
        }
    }
}

/// The merged bid side `cur` is exactly the best of the candidates:
/// bounded by `depth`, sorted strictly best-first, drawn from the
/// candidates, complete while below the depth, and undercut by no
/// candidate that was left out.
pub open spec fn bids_merged(
    prev: Seq<BidLevel>,
    v: ExchangeType,
    rows: Seq<(u64, u64)>,
    depth: nat,
    cur: Seq<BidLevel>,
) -> bool {
    &&& cur.len() <= depth
    &&& (forall|i: int, j: int| 0 <= i < j < cur.len() ==> bid_precedes(cur[i], cur[j]))
    &&& (forall|i: int| 0 <= i < cur.len() ==> bid_cand(prev, v, rows, 0, #[trigger] cur[i]))
    &&& (cur.len() == depth || (forall|l: BidLevel| #[trigger]
        bid_cand(prev, v, rows, 0, l) ==> cur.contains(l)))
    &&& (forall|l: BidLevel| #[trigger]
        bid_cand(prev, v, rows, 0, l) && !cur.contains(l) ==> (forall|i: int|
            0 <= i < cur.len() ==> !bid_precedes(l, #[trigger] cur[i])))
}

/// The merged ask side; the mirror of `bids_merged`.
pub open spec fn asks_merged(
    prev: Seq<AskLevel>,
    v: ExchangeType,
    rows: Seq<(u64, u64)>,
    depth: nat,
    cur: Seq<AskLevel>,
) -> bool {
    &&& cur.len() <= depth
    &&& (forall|i: int, j: int| 0 <= i < j < cur.len() ==> ask_precedes(cur[i], cur[j]))
    &&& (forall|i: int| 0 <= i < cur.len() ==> ask_cand(prev, v, rows, 0, #[trigger] cur[i]))
    &&& (cur.len() == depth || (forall|l: AskLevel| #[trigger]
        ask_cand(prev, v, rows, 0, l) ==> cur.contains(l)))
    &&& (forall|l: AskLevel| #[trigger]
        ask_cand(prev, v, rows, 0, l) && !cur.contains(l) ==> (forall|i: int|
            0 <= i < cur.len() ==> !ask_precedes(l, #[trigger] cur[i])))
}

/// Law: a merged bid side never lists one venue's price twice, so no
/// `(price, amount, venue)` triple repeats.
pub proof fn lemma_bids_no_duplicates(
    prev: Seq<BidLevel>,
    v: ExchangeType,
    rows: Seq<(u64, u64)>,
    depth: nat,
    cur: Seq<BidLevel>,
)
    requires
        bids_merged(prev, v, rows, depth, cur),
    ensures
        forall|i: int, j: int|
            0 <= i < j < cur.len() ==> !((#[trigger] cur[i]).price == (#[trigger] cur[j]).price
                && cur[i].exchange == cur[j].exchange),
{
    assert forall|i: int, j: int|
        0 <= i < j < cur.len() implies !((#[trigger] cur[i]).price == (#[trigger] cur[j]).price
        && cur[i].exchange == cur[j].exchange) by {
        assert(bid_precedes(cur[i], cur[j]));
    }
}

/// Law: a merged ask side never lists one venue's price twice, so no
/// `(price, amount, venue)` triple repeats.
pub proof fn lemma_asks_no_duplicates(
    prev: Seq<AskLevel>,
    v: ExchangeType,
    rows: Seq<(u64, u64)>,
    depth: nat,
    cur: Seq<AskLevel>,
)
    requires
        asks_merged(prev, v, rows, depth, cur),
    ensures
        forall|i: int, j: int|
            0 <= i < j < cur.len() ==> !((#[trigger] cur[i]).price == (#[trigger] cur[j]).price
                && cur[i].exchange == cur[j].exchange),
{
    assert forall|i: int, j: int|
        0 <= i < j < cur.len() implies !((#[trigger] cur[i]).price == (#[trigger] cur[j]).price
        && cur[i].exchange == cur[j].exchange) by {
        assert(ask_precedes(cur[i], cur[j]));
    }
}

/// Each bid entry's key is the sort key of its level.
pub open spec fn bid_linked(s: Seq<(u128, BidLevel)>) -> bool {
    forall|i: int| 0 <= i < s.len() ==> (#[trigger] s[i]).0 as int == bid_key_spec(s[i].1)
}

/// Each ask entry's key is the sort key of its level.
pub open spec fn ask_linked(s: Seq<(u128, AskLevel)>) -> bool {
    forall|i: int| 0 <= i < s.len() ==> (#[trigger] s[i]).0 as int == ask_key_spec(s[i].1)
}

/// One merge step of the bid side: `s_pre` satisfies the merge invariant
/// for the rows after `j`, the entry for row `j` has been offered to the
/// collection, and `s_post` is the outcome; then the invariant holds for
/// the rows from `j` on.
#[verifier::rlimit(80)]
proof fn lemma_bid_phase2_step(
    prev: Seq<BidLevel>,
    v: ExchangeType,
    rows: Seq<(u64, u64)>,
    j: int,
    depth: nat,
    s_pre: Seq<(u128, BidLevel)>,
    s_post: Seq<(u128, BidLevel)>,
    l: BidLevel,
    k: u128,
)
    requires
        0 <= j < rows.len(),
        l == (BidLevel { price: rows[j].0, amount: rows[j].1, exchange: v }),
        k as int == bid_key_spec(l),
        keys_sorted(s_pre),
        s_pre.len() <= depth,
        bid_linked(s_pre),
        forall|e: int|
            0 <= e < s_pre.len() ==> bid_cand(prev, v, rows, j + 1, (#[trigger] s_pre[e]).1),
        s_pre.len() == depth || (forall|lv: BidLevel| #[trigger]
            bid_cand(prev, v, rows, j + 1, lv) ==> holds_val(s_pre, lv)),
        forall|lv: BidLevel| #[trigger]
            bid_cand(prev, v, rows, j + 1, lv) && !holds_val(s_pre, lv) ==> (forall|e: int|
                0 <= e < s_pre.len() ==> bid_key_spec(lv) > (#[trigger] s_pre[e]).0 as int),
        has_key(s_pre, k) ==> s_post == s_pre,
        !has_key(s_pre, k) ==> s_post == clip(kv_insert(s_pre, k, l), depth),
        keys_sorted(s_post),
        s_post.len() <= depth,
    ensures
        bid_linked(s_post),
        forall|e: int| 0 <= e < s_post.len() ==> bid_cand(prev, v, rows, j, (#[trigger] s_post[e]).1),
        s_post.len() == depth || (forall|lv: BidLevel| #[trigger]
            bid_cand(prev, v, rows, j, lv) ==> holds_val(s_post, lv)),
        forall|lv: BidLevel| #[trigger]
            bid_cand(prev, v, rows, j, lv) && !holds_val(s_post, lv) ==> (forall|e: int|
                0 <= e < s_post.len() ==> bid_key_spec(lv) > (#[trigger] s_post[e]).0 as int),
{
    let p = rows[j].0;
    if has_key(s_pre, k) {
        assert(bid_linked(s_post)) by {
            assert(s_post == s_pre);
        }
        // The offered key is already held; its holder shares price and
        // venue with `l`, so the price occurs later and nothing changes.
        let e0 = choose|e0: int| 0 <= e0 < s_pre.len() && (#[trigger] s_pre[e0]).0 == k;
        lemma_bid_key_order(s_pre[e0].1, l);
        assert(s_pre[e0].1.exchange == v && s_pre[e0].1.price == p);
        assert(bid_cand(prev, v, rows, j + 1, s_pre[e0].1));
        assert(occurs_from(rows, j + 1, p)) by {
            assert(effective_from(rows, j + 1, p, s_pre[e0].1.amount));
            let w = choose|w: int|
                j + 1 <= w < rows.len() && #[trigger] rows[w] == (p, s_pre[e0].1.amount)
                    && !occurs_from(rows, w + 1, p);
            assert(rows[w].0 == p);
        }
        assert forall|lv: BidLevel| #[trigger]
            bid_cand(prev, v, rows, j, lv) == bid_cand(prev, v, rows, j + 1, lv) by {
            lemma_bid_cand_step(prev, v, rows, j, lv);
        }
        assert(s_post =~= s_pre);
    } else {
        let pos = key_pos(s_pre, k);
        lemma_key_pos_brackets(s_pre, k);
        assert forall|e: int| pos <= e < s_pre.len() implies (#[trigger] s_pre[e]).0 > k by {
            if s_pre[e].0 == k {
                assert(has_key(s_pre, k));
            }
        }
        let kv = kv_insert(s_pre, k, l);
        s_pre.insert_ensures(pos, (k, l));
        assert(kv.len() == s_pre.len() + 1);
        assert(bid_linked(kv)) by {
            assert forall|e: int| 0 <= e < kv.len() implies (#[trigger] kv[e]).0 as int
                == bid_key_spec(kv[e].1) by {
                if e < pos {
                    assert(kv[e] == s_pre[e]);
                } else if e == pos {
                    assert(kv[e] == (k, l));
                } else {
                    assert(kv[e] == s_pre[e - 1]);
                }
            }
        }
        assert(keys_sorted(kv)) by {
            assert forall|a: int, b: int| 0 <= a < b < kv.len() implies kv[a].0 < kv[b].0 by {
                if a < pos {
                    assert(kv[a] == s_pre[a]);
                } else if a == pos {
                    assert(kv[a] == (k, l));
                } else {
                    assert(kv[a] == s_pre[a - 1]);
                }
                if b < pos {
                    assert(kv[b] == s_pre[b]);
                } else if b == pos {
                    assert(kv[b] == (k, l));
                } else {
                    assert(kv[b] == s_pre[b - 1]);
                }
            }
        }
        assert(bid_linked(s_post)) by {
            assert forall|e: int| 0 <= e < s_post.len() implies (#[trigger] s_post[e]).0 as int
                == bid_key_spec(s_post[e].1) by {
                assert(s_post[e] == kv[e]);
            }
        }
        if occurs_from(rows, j + 1, p) {
            // A later row quotes the same price, so some effective level
            // with this key is a candidate that is not held: the
            // collection is full and every held key is below `k`, hence
            // the new entry is clipped straight back off.
            lemma_occurs_effective(rows, j + 1, p);
            let a_eff = choose|a: u64| #[trigger] effective_from(rows, j + 1, p, a);
            let l_eff = BidLevel { price: p, amount: a_eff, exchange: v };
            assert(bid_cand(prev, v, rows, j + 1, l_eff));
            assert(!holds_val(s_pre, l_eff)) by {
                if holds_val(s_pre, l_eff) {
                    let e = choose|e: int|
                        0 <= e < s_pre.len() && (#[trigger] s_pre[e]).1 == l_eff;
                    lemma_bid_key_order(l_eff, l);
                    assert(s_pre[e].0 == k);
                    assert(has_key(s_pre, k));
                }
            }
            assert(bid_key_spec(l_eff) == k as int) by {
                lemma_bid_key_order(l_eff, l);
            }
            assert forall|e: int| 0 <= e < s_pre.len() implies (#[trigger] s_pre[e]).0 < k by {
                assert(bid_key_spec(l_eff) > s_pre[e].0 as int);
            }
            assert(s_pre.len() == depth) by {
                if s_pre.len() != depth {
                    assert(holds_val(s_pre, l_eff));
                }
            }
            assert(pos == s_pre.len()) by {
                if pos < s_pre.len() {
                    assert(s_pre[pos].0 >= k);
                }
            }
            assert(s_post =~= s_pre) by {
                assert(kv.len() > depth);
                assert(s_post == kv.drop_last());
            }
            assert forall|lv: BidLevel| #[trigger]
                bid_cand(prev, v, rows, j, lv) == bid_cand(prev, v, rows, j + 1, lv) by {
                lemma_bid_cand_step(prev, v, rows, j, lv);
            }
        } else {
            // Row `j` is the effective quote for its price: exactly the
            // level `l` joins the candidates.
            assert forall|lv: BidLevel|
                #[trigger] bid_cand(prev, v, rows, j, lv) == (bid_cand(prev, v, rows, j + 1, lv)
                    || lv == l) by {
                lemma_bid_cand_step(prev, v, rows, j, lv);
            }
            if kv.len() <= depth {
                assert(s_post == kv);
                assert(s_pre.len() < depth);
                assert forall|e: int| 0 <= e < s_post.len() implies bid_cand(
                    prev,
                    v,
                    rows,
                    j,
                    (#[trigger] s_post[e]).1,
                ) by {
                    if e < pos {
                        assert(kv[e] == s_pre[e]);
                    } else if e == pos {
                        assert(kv[e] == (k, l));
                    } else {
                        assert(kv[e] == s_pre[e - 1]);
                    }
                }
                assert forall|lv: BidLevel| #[trigger]
                    bid_cand(prev, v, rows, j, lv) implies holds_val(s_post, lv) by {
                    if lv == l {
                        assert(s_post[pos].1 == l);
                    } else {
                        assert(bid_cand(prev, v, rows, j + 1, lv));
                        assert(holds_val(s_pre, lv));
                        let e = choose|e: int| 0 <= e < s_pre.len() && (#[trigger] s_pre[e]).1 == lv;
                        if e < pos {
                            assert(s_post[e].1 == lv);
                        } else {
                            assert(s_post[e + 1] == s_pre[e]);
                            assert(s_post[e + 1].1 == lv);
                        }
                    }
                }
            } else {
                assert(s_pre.len() == depth);
                assert(s_post == kv.drop_last());
                assert(s_post.len() == depth);
                let last = kv.len() - 1;
                assert forall|e: int| 0 <= e < s_post.len() implies bid_cand(
                    prev,
                    v,
                    rows,
                    j,
                    (#[trigger] s_post[e]).1,
                ) by {
                    assert(s_post[e] == kv[e]);
                    if e < pos {
                        assert(kv[e] == s_pre[e]);
                    } else if e == pos {
                        assert(kv[e] == (k, l));
                    } else {
                        assert(kv[e] == s_pre[e - 1]);
                    }
                }
                assert forall|lv: BidLevel| #[trigger]
                    bid_cand(prev, v, rows, j, lv) && !holds_val(s_post, lv) implies (forall|
                    e: int,
                |
                    0 <= e < s_post.len() ==> bid_key_spec(lv) > (#[trigger] s_post[e]).0 as int) by {
                    if lv == l {
                        // `l` sits at `pos` in `kv`; missing from the clip
                        // means it was the dropped maximum.
                        assert(kv[pos].1 == l);
                        if pos < last {
                            assert(s_post[pos].1 == l);
                            assert(holds_val(s_post, lv));
                        }
                        assert(pos == last);
                        assert forall|e: int| 0 <= e < s_post.len() implies bid_key_spec(lv) > (
                        #[trigger] s_post[e]).0 as int by {
                            assert(s_post[e] == kv[e]);
                            assert(kv[e].0 < kv[last].0);
                            assert(kv[last] == (k, l));
                        }
                    } else {
                        assert(bid_cand(prev, v, rows, j + 1, lv));
                        if holds_val(s_pre, lv) {
                            let e0 = choose|e0: int|
                                0 <= e0 < s_pre.len() && (#[trigger] s_pre[e0]).1 == lv;
                            let ei = if e0 < pos { e0 } else { e0 + 1 };
                            assert(kv[ei] == s_pre[e0]);
                            if ei < last {
                                assert(s_post[ei] == kv[ei]);
                                assert(holds_val(s_post, lv));
                            }
                            assert(ei == last);
                            assert(kv[last].0 as int == bid_key_spec(lv));
                            assert forall|e: int| 0 <= e < s_post.len() implies bid_key_spec(lv) > (
                            #[trigger] s_post[e]).0 as int by {
                                assert(s_post[e] == kv[e]);
                                assert(kv[e].0 < kv[last].0);
                            }
                        } else {
                            assert(forall|e: int|
                                0 <= e < s_pre.len() ==> bid_key_spec(lv) > (
                                #[trigger] s_pre[e]).0 as int);
                            assert forall|e: int| 0 <= e < s_post.len() implies bid_key_spec(lv) > (
                            #[trigger] s_post[e]).0 as int by {
                                assert(s_post[e] == kv[e]);
                                if e < pos {
                                    assert(kv[e] == s_pre[e]);
                                } else if e == pos {
                                    // `k` stayed only because a larger key
                                    // of the old entries was dropped.
                                    assert(pos < last);
                                    assert(kv[last] == s_pre[last - 1]);
                                    assert(bid_key_spec(lv) > s_pre[last - 1].0 as int);
                                    assert(kv[pos].0 < kv[last].0);
                                } else {
                                    assert(kv[e] == s_pre[e - 1]);
                                }
                            }
                        }
                    }
                }
            }
        }
    }
}

/// The merge invariant over entries, once every row has been processed,
/// yields the exact merged-side contract over the values.
proof fn lemma_bid_finish(
    prev: Seq<BidLevel>,
    v: ExchangeType,
    rows: Seq<(u64, u64)>,
    depth: nat,
    s: Seq<(u128, BidLevel)>,
)
    requires
        keys_sorted(s),
        bid_linked(s),
        s.len() <= depth,
        forall|e: int| 0 <= e < s.len() ==> bid_cand(prev, v, rows, 0, (#[trigger] s[e]).1),
        s.len() == depth || (forall|lv: BidLevel| #[trigger]
            bid_cand(prev, v, rows, 0, lv) ==> holds_val(s, lv)),
        forall|lv: BidLevel| #[trigger]
            bid_cand(prev, v, rows, 0, lv) && !holds_val(s, lv) ==> (forall|e: int|
                0 <= e < s.len() ==> bid_key_spec(lv) > (#[trigger] s[e]).0 as int),
    ensures
        bids_merged(prev, v, rows, depth, entry_values(s)),
{
    let cur = entry_values(s);
    assert forall|i: int, j: int| 0 <= i < j < cur.len() implies bid_precedes(cur[i], cur[j]) by {
        lemma_bid_key_order(s[i].1, s[j].1);
        assert(cur[i] == s[i].1);
        assert(cur[j] == s[j].1);
    }
    assert forall|l: BidLevel| holds_val(s, l) implies cur.contains(l) by {
        let e = choose|e: int| 0 <= e < s.len() && (#[trigger] s[e]).1 == l;
        assert(cur[e] == l);
    }
    assert forall|l: BidLevel| cur.contains(l) implies holds_val(s, l) by {
        let e = choose|e: int| 0 <= e < cur.len() && cur[e] == l;
        assert(s[e].1 == l);
    }
    assert forall|l: BidLevel| #[trigger] bid_cand(prev, v, rows, 0, l) && !cur.contains(l) implies (
    forall|i: int| 0 <= i < cur.len() ==> !bid_precedes(l, #[trigger] cur[i])) by {
        assert(!holds_val(s, l));
        assert forall|i: int| 0 <= i < cur.len() implies !bid_precedes(l, #[trigger] cur[i]) by {
            assert(bid_key_spec(l) > s[i].0 as int);
            lemma_bid_key_order(l, s[i].1);
            assert(cur[i] == s[i].1);
        }
    }
}

/// One merge step of the ask side: `s_pre` satisfies the merge invariant
/// for the rows after `j`, the entry for row `j` has been offered to the
/// collection, and `s_post` is the outcome; then the invariant holds for
/// the rows from `j` on.
#[verifier::rlimit(80)]
proof fn lemma_ask_phase2_step(
    prev: Seq<AskLevel>,
    v: ExchangeType,
    rows: Seq<(u64, u64)>,
    j: int,
    depth: nat,
    s_pre: Seq<(u128, AskLevel)>,
    s_post: Seq<(u128, AskLevel)>,
    l: AskLevel,
    k: u128,
)
    requires
        0 <= j < rows.len(),
        l == (AskLevel { price: rows[j].0, amount: rows[j].1, exchange: v }),
        k as int == ask_key_spec(l),
        keys_sorted(s_pre),
        s_pre.len() <= depth,
        ask_linked(s_pre),
        forall|e: int|
            0 <= e < s_pre.len() ==> ask_cand(prev, v, rows, j + 1, (#[trigger] s_pre[e]).1),
        s_pre.len() == depth || (forall|lv: AskLevel| #[trigger]
            ask_cand(prev, v, rows, j + 1, lv) ==> holds_val(s_pre, lv)),
        forall|lv: AskLevel| #[trigger]
            ask_cand(prev, v, rows, j + 1, lv) && !holds_val(s_pre, lv) ==> (forall|e: int|
                0 <= e < s_pre.len() ==> ask_key_spec(lv) > (#[trigger] s_pre[e]).0 as int),
        has_key(s_pre, k) ==> s_post == s_pre,
        !has_key(s_pre, k) ==> s_post == clip(kv_insert(s_pre, k, l), depth),
        keys_sorted(s_post),
        s_post.len() <= depth,
    ensures
        ask_linked(s_post),
        forall|e: int| 0 <= e < s_post.len() ==> ask_cand(prev, v, rows, j, (#[trigger] s_post[e]).1),
        s_post.len() == depth || (forall|lv: AskLevel| #[trigger]
            ask_cand(prev, v, rows, j, lv) ==> holds_val(s_post, lv)),
        forall|lv: AskLevel| #[trigger]
            ask_cand(prev, v, rows, j, lv) && !holds_val(s_post, lv) ==> (forall|e: int|
                0 <= e < s_post.len() ==> ask_key_spec(lv) > (#[trigger] s_post[e]).0 as int),
{
    let p = rows[j].0;
    if has_key(s_pre, k) {
        assert(ask_linked(s_post)) by {
            assert(s_post == s_pre);
        }
        // The offered key is already held; its holder shares price and
        // venue with `l`, so the price occurs later and nothing changes.
        let e0 = choose|e0: int| 0 <= e0 < s_pre.len() && (#[trigger] s_pre[e0]).0 == k;
        lemma_ask_key_order(s_pre[e0].1, l);
        assert(s_pre[e0].1.exchange == v && s_pre[e0].1.price == p);
        assert(ask_cand(prev, v, rows, j + 1, s_pre[e0].1));
        assert(occurs_from(rows, j + 1, p)) by {
            assert(effective_from(rows, j + 1, p, s_pre[e0].1.amount));
            let w = choose|w: int|
                j + 1 <= w < rows.len() && #[trigger] rows[w] == (p, s_pre[e0].1.amount)
                    && !occurs_from(rows, w + 1, p);
            assert(rows[w].0 == p);
        }
        assert forall|lv: AskLevel| #[trigger]
            ask_cand(prev, v, rows, j, lv) == ask_cand(prev, v, rows, j + 1, lv) by {
            lemma_ask_cand_step(prev, v, rows, j, lv);
        }
        assert(s_post =~= s_pre);
    } else {
        let pos = key_pos(s_pre, k);
        lemma_key_pos_brackets(s_pre, k);
        assert forall|e: int| pos <= e < s_pre.len() implies (#[trigger] s_pre[e]).0 > k by {
            if s_pre[e].0 == k {
                assert(has_key(s_pre, k));
            }
        }
        let kv = kv_insert(s_pre, k, l);
        s_pre.insert_ensures(pos, (k, l));
        assert(kv.len() == s_pre.len() + 1);
        assert(ask_linked(kv)) by {
            assert forall|e: int| 0 <= e < kv.len() implies (#[trigger] kv[e]).0 as int
                == ask_key_spec(kv[e].1) by {
                if e < pos {
                    assert(kv[e] == s_pre[e]);
                } else if e == pos {
                    assert(kv[e] == (k, l));
                } else {
                    assert(kv[e] == s_pre[e - 1]);
                }
            }
        }
        assert(keys_sorted(kv)) by {
            assert forall|a: int, b: int| 0 <= a < b < kv.len() implies kv[a].0 < kv[b].0 by {
                if a < pos {
                    assert(kv[a] == s_pre[a]);
                } else if a == pos {
                    assert(kv[a] == (k, l));
                } else {
                    assert(kv[a] == s_pre[a - 1]);
                }
                if b < pos {
                    assert(kv[b] == s_pre[b]);
                } else if b == pos {
                    assert(kv[b] == (k, l));
                } else {
                    assert(kv[b] == s_pre[b - 1]);
                }
            }
        }
        assert(ask_linked(s_post)) by {
            assert forall|e: int| 0 <= e < s_post.len() implies (#[trigger] s_post[e]).0 as int
                == ask_key_spec(s_post[e].1) by {
                assert(s_post[e] == kv[e]);
            }
        }
        if occurs_from(rows, j + 1, p) {
            // A later row quotes the same price, so some effective level
            // with this key is a candidate that is not held: the
            // collection is full and every held key is below `k`, hence
            // the new entry is clipped straight back off.
            lemma_occurs_effective(rows, j + 1, p);
            let a_eff = choose|a: u64| #[trigger] effective_from(rows, j + 1, p, a);
            let l_eff = AskLevel { price: p, amount: a_eff, exchange: v };
            assert(ask_cand(prev, v, rows, j + 1, l_eff));
            assert(!holds_val(s_pre, l_eff)) by {
                if holds_val(s_pre, l_eff) {
                    let e = choose|e: int|
                        0 <= e < s_pre.len() && (#[trigger] s_pre[e]).1 == l_eff;
                    lemma_ask_key_order(l_eff, l);
                    assert(s_pre[e].0 == k);
                    assert(has_key(s_pre, k));
                }
            }
            assert(ask_key_spec(l_eff) == k as int) by {
                lemma_ask_key_order(l_eff, l);
            }
            assert forall|e: int| 0 <= e < s_pre.len() implies (#[trigger] s_pre[e]).0 < k by {
                assert(ask_key_spec(l_eff) > s_pre[e].0 as int);
            }
            assert(s_pre.len() == depth) by {
                if s_pre.len() != depth {
                    assert(holds_val(s_pre, l_eff));
                }
            }
            assert(pos == s_pre.len()) by {
                if pos < s_pre.len() {
                    assert(s_pre[pos].0 >= k);
                }
            }
            assert(s_post =~= s_pre) by {
                assert(kv.len() > depth);
                assert(s_post == kv.drop_last());
            }
            assert forall|lv: AskLevel| #[trigger]
                ask_cand(prev, v, rows, j, lv) == ask_cand(prev, v, rows, j + 1, lv) by {
                lemma_ask_cand_step(prev, v, rows, j, lv);
            }
        } else {
            // Row `j` is the effective quote for its price: exactly the
            // level `l` joins the candidates.
            assert forall|lv: AskLevel|
                #[trigger] ask_cand(prev, v, rows, j, lv) == (ask_cand(prev, v, rows, j + 1, lv)
                    || lv == l) by {
                lemma_ask_cand_step(prev, v, rows, j, lv);
            }
            if kv.len() <= depth {
                assert(s_post == kv);
                assert(s_pre.len() < depth);
                assert forall|e: int| 0 <= e < s_post.len() implies ask_cand(
                    prev,
                    v,
                    rows,
                    j,
                    (#[trigger] s_post[e]).1,
                ) by {
                    if e < pos {
                        assert(kv[e] == s_pre[e]);
                    } else if e == pos {
                        assert(kv[e] == (k, l));
                    } else {
                        assert(kv[e] == s_pre[e - 1]);
                    }
                }
                assert forall|lv: AskLevel| #[trigger]
                    ask_cand(prev, v, rows, j, lv) implies holds_val(s_post, lv) by {
                    if lv == l {
                        assert(s_post[pos].1 == l);
                    } else {
                        assert(ask_cand(prev, v, rows, j + 1, lv));
                        assert(holds_val(s_pre, lv));
                        let e = choose|e: int| 0 <= e < s_pre.len() && (#[trigger] s_pre[e]).1 == lv;
                        if e < pos {
                            assert(s_post[e].1 == lv);
                        } else {
                            assert(s_post[e + 1] == s_pre[e]);
                            assert(s_post[e + 1].1 == lv);
                        }
                    }
                }
            } else {
                assert(s_pre.len() == depth);
                assert(s_post == kv.drop_last());
                assert(s_post.len() == depth);
                let last = kv.len() - 1;
                assert forall|e: int| 0 <= e < s_post.len() implies ask_cand(
                    prev,
                    v,
                    rows,
                    j,
                    (#[trigger] s_post[e]).1,
                ) by {
                    assert(s_post[e] == kv[e]);
                    if e < pos {
                        assert(kv[e] == s_pre[e]);
                    } else if e == pos {
                        assert(kv[e] == (k, l));
                    } else {
                        assert(kv[e] == s_pre[e - 1]);
                    }
                }
                assert forall|lv: AskLevel| #[trigger]
                    ask_cand(prev, v, rows, j, lv) && !holds_val(s_post, lv) implies (forall|
                    e: int,
                |
                    0 <= e < s_post.len() ==> ask_key_spec(lv) > (#[trigger] s_post[e]).0 as int) by {
                    if lv == l {
                        // `l` sits at `pos` in `kv`; missing from the clip
                        // means it was the dropped maximum.
                        assert(kv[pos].1 == l);
                        if pos < last {
                            assert(s_post[pos].1 == l);
                            assert(holds_val(s_post, lv));
                        }
                        assert(pos == last);
                        assert forall|e: int| 0 <= e < s_post.len() implies ask_key_spec(lv) > (
                        #[trigger] s_post[e]).0 as int by {
                            assert(s_post[e] == kv[e]);
                            assert(kv[e].0 < kv[last].0);
                            assert(kv[last] == (k, l));
                        }
                    } else {
                        assert(ask_cand(prev, v, rows, j + 1, lv));
                        if holds_val(s_pre, lv) {
                            let e0 = choose|e0: int|
                                0 <= e0 < s_pre.len() && (#[trigger] s_pre[e0]).1 == lv;
                            let ei = if e0 < pos { e0 } else { e0 + 1 };
                            assert(kv[ei] == s_pre[e0]);
                            if ei < last {
                                assert(s_post[ei] == kv[ei]);
                                assert(holds_val(s_post, lv));
                            }
                            assert(ei == last);
                            assert(kv[last].0 as int == ask_key_spec(lv));
                            assert forall|e: int| 0 <= e < s_post.len() implies ask_key_spec(lv) > (
                            #[trigger] s_post[e]).0 as int by {
                                assert(s_post[e] == kv[e]);
                                assert(kv[e].0 < kv[last].0);
                            }
                        } else {
                            assert(forall|e: int|
                                0 <= e < s_pre.len() ==> ask_key_spec(lv) > (
                                #[trigger] s_pre[e]).0 as int);
                            assert forall|e: int| 0 <= e < s_post.len() implies ask_key_spec(lv) > (
                            #[trigger] s_post[e]).0 as int by {
                                assert(s_post[e] == kv[e]);
                                if e < pos {
                                    assert(kv[e] == s_pre[e]);
                                } else if e == pos {
                                    // `k` stayed only because a larger key
                                    // of the old entries was dropped.
                                    assert(pos < last);
                                    assert(kv[last] == s_pre[last - 1]);
                                    assert(ask_key_spec(lv) > s_pre[last - 1].0 as int);
                                    assert(kv[pos].0 < kv[last].0);
                                } else {
                                    assert(kv[e] == s_pre[e - 1]);
                                }
                            }
                        }
                    }
                }
            }
        }
    }
}

/// The merge invariant over entries, once every row has been processed,
/// yields the exact merged-side contract over the values.
proof fn lemma_ask_finish(
    prev: Seq<AskLevel>,
    v: ExchangeType,
    rows: Seq<(u64, u64)>,
    depth: nat,
    s: Seq<(u128, AskLevel)>,
)
    requires
        keys_sorted(s),
        ask_linked(s),
        s.len() <= depth,
        forall|e: int| 0 <= e < s.len() ==> ask_cand(prev, v, rows, 0, (#[trigger] s[e]).1),
        s.len() == depth || (forall|lv: AskLevel| #[trigger]
            ask_cand(prev, v, rows, 0, lv) ==> holds_val(s, lv)),
        forall|lv: AskLevel| #[trigger]
            ask_cand(prev, v, rows, 0, lv) && !holds_val(s, lv) ==> (forall|e: int|
                0 <= e < s.len() ==> ask_key_spec(lv) > (#[trigger] s[e]).0 as int),
    ensures
        asks_merged(prev, v, rows, depth, entry_values(s)),
{
    let cur = entry_values(s);
    assert forall|i: int, j: int| 0 <= i < j < cur.len() implies ask_precedes(cur[i], cur[j]) by {
        lemma_ask_key_order(s[i].1, s[j].1);
        assert(cur[i] == s[i].1);
        assert(cur[j] == s[j].1);
    }
    assert forall|l: AskLevel| holds_val(s, l) implies cur.contains(l) by {
        let e = choose|e: int| 0 <= e < s.len() && (#[trigger] s[e]).1 == l;
        assert(cur[e] == l);
    }
    assert forall|l: AskLevel| cur.contains(l) implies holds_val(s, l) by {
        let e = choose|e: int| 0 <= e < cur.len() && cur[e] == l;
        assert(s[e].1 == l);
    }
    assert forall|l: AskLevel| #[trigger] ask_cand(prev, v, rows, 0, l) && !cur.contains(l) implies (
    forall|i: int| 0 <= i < cur.len() ==> !ask_precedes(l, #[trigger] cur[i])) by {
        assert(!holds_val(s, l));
        assert forall|i: int| 0 <= i < cur.len() implies !ask_precedes(l, #[trigger] cur[i]) by {
            assert(ask_key_spec(l) > s[i].0 as int);
            lemma_ask_key_order(l, s[i].1);
            assert(cur[i] == s[i].1);
        }
    }
}



/// The merge engine's state: one bounded best-N collection per side.
pub struct HeapedBook {
    max_depth: usize,
    bids: HashHeap<BidLevel>,
    asks: HashHeap<AskLevel>,
}

impl HeapedBook {
    /// The retained bids, best first.
    pub closed spec fn bids_view(&self) -> Seq<BidLevel> {
        entry_values(self.bids.contents())
    }

    /// The retained asks, best first.
    pub closed spec fn asks_view(&self) -> Seq<AskLevel> {
        entry_values(self.asks.contents())
    }

    /// Both sides of the merged view, best first.
    pub open spec fn views(&self) -> (Seq<BidLevel>, Seq<AskLevel>) {
        (self.bids_view(), self.asks_view())
    }

    /// The per-side bound of the merged view.
    pub closed spec fn depth(&self) -> nat {
        self.max_depth as nat
    }

    /// Both sides are sorted, within depth, duplicate-free, and keyed by
    /// their levels' sort keys.
    pub closed spec fn inv(&self) -> bool {
        &&& self.bids.wf()
        &&& self.asks.wf()
        &&& self.bids.cap() == self.max_depth as nat
        &&& self.asks.cap() == self.max_depth as nat
        &&& bid_linked(self.bids.contents())
        &&& ask_linked(self.asks.contents())
    }

    /// A fresh, empty book of the given depth.
    pub fn new(max_depth: usize) -> (b: Self)
        ensures
            b.inv(),
            b.depth() == max_depth,
            b.bids_view() =~= Seq::<BidLevel>::empty(),
            b.asks_view() =~= Seq::<AskLevel>::empty(),
    {
        HeapedBook {
            max_depth,
            bids: HashHeap::with_capacity(max_depth),
            asks: HashHeap::with_capacity(max_depth),
        }
    }

    /// Displaces every bid this venue contributed before, merges the fresh
    /// rows (last quote per price wins), and keeps the best `max_depth`.
    #[verifier::loop_isolation(false)]
    fn apply_bids(&mut self, exchange: ExchangeType, rows: &Vec<(u64, u64)>)
        requires
            old(self).inv(),
        ensures
            final(self).inv(),
            final(self).max_depth == old(self).max_depth,
            final(self).asks == old(self).asks,
            bids_merged(
                old(self).bids_view(),
                exchange,
                rows@,
                old(self).depth(),
                final(self).bids_view(),
            ),
    {
        let ghost prev = self.bids_view();
        let ghost s0 = self.bids.contents();
        let current: Vec<BidLevel> = self.bids.into_sorted_vec();
        proof {
            assert(current@ =~= prev);
            assert forall|a: int, b: int| 0 <= a < b < prev.len() implies bid_key_spec(
                #[trigger] prev[a],
            ) < bid_key_spec(#[trigger] prev[b]) by {
                assert(s0[a].0 < s0[b].0);
            }
        }
        let depth = self.max_depth;
        let mut heap: HashHeap<BidLevel> = HashHeap::with_capacity(depth);
        let n = current.len();
        let mut i: usize = 0;
        while i < n
            invariant
                heap.wf(),
                heap.cap() == depth as nat,
                bid_linked(heap.contents()),
                0 <= i <= n,
                heap.contents().len() <= i,
                forall|e: int|
                    0 <= e < heap.contents().len() ==> (#[trigger] heap.contents()[e]).1.exchange
                        != exchange && prev.contains(heap.contents()[e].1),
                forall|jx: int|
                    0 <= jx < i && (#[trigger] prev[jx]).exchange != exchange ==> holds_val(
                        heap.contents(),
                        prev[jx],
                    ),
                forall|e: int, jx: int|
                    #![trigger heap.contents()[e], prev[jx]]
                    0 <= e < heap.contents().len() && i <= jx < prev.len()
                        ==> (heap.contents()[e].0 as int) < bid_key_spec(prev[jx]),
            decreases n - i,
        {
            let l = current[i];
            if l.exchange != exchange {
                let k = bid_key(&l);
                let ghost s_pre = heap.contents();
                let _added = heap.insert(k, l);
                proof {
                    assert(l == prev[i as int]);
                    assert(!has_key(s_pre, k)) by {
                        if has_key(s_pre, k) {
                            let e = choose|e: int|
                                0 <= e < s_pre.len() && (#[trigger] s_pre[e]).0 == k;
                            assert((s_pre[e].0 as int) < bid_key_spec(prev[i as int]));
                        }
                    }
                    lemma_key_pos_brackets(s_pre, k);
                    let pos = key_pos(s_pre, k);
                    assert(pos == s_pre.len()) by {
                        if pos < s_pre.len() {
                            assert(s_pre[pos].0 >= k);
                            assert((s_pre[pos].0 as int) < bid_key_spec(prev[i as int]));
                        }
                    }
                    s_pre.insert_ensures(pos, (k, l));
                    let s2 = heap.contents();
                    assert(kv_insert(s_pre, k, l).len() == s_pre.len() + 1);
                    assert(s_pre.len() + 1 <= depth);
                    assert(s2 == kv_insert(s_pre, k, l));
                    assert(prev.contains(l)) by {
                        assert(prev[i as int] == l);
                    }
                    assert forall|e: int| 0 <= e < s2.len() implies (#[trigger] s2[e]).1.exchange
                        != exchange && prev.contains(s2[e].1) && s2[e].0 as int == bid_key_spec(
                        s2[e].1,
                    ) by {
                        if e < s_pre.len() {
                            assert(s2[e] == s_pre[e]);
                        } else {
                            assert(s2[e] == (k, l));
                        }
                    }
                    assert forall|jx: int|
                        0 <= jx < i + 1 && (#[trigger] prev[jx]).exchange != exchange implies
                    holds_val(s2, prev[jx]) by {
                        if jx < i {
                            let e = choose|e: int|
                                0 <= e < s_pre.len() && (#[trigger] s_pre[e]).1 == prev[jx];
                            assert(s2[e] == s_pre[e]);
                        } else {
                            assert(s2[s_pre.len() as int] == (k, l));
                        }
                    }
                    assert forall|e: int, jx: int|
                        #![trigger s2[e], prev[jx]]
                        0 <= e < s2.len() && i + 1 <= jx < prev.len() implies (s2[e].0 as int)
                        < bid_key_spec(prev[jx]) by {
                        if e < s_pre.len() {
                            assert(s2[e] == s_pre[e]);
                        } else {
                            assert(s2[e] == (k, l));
                        }
                    }
                }
            }
            i = i + 1;
        }
        let ghost svr = heap.contents();
        let m = rows.len();
        proof {
            assert forall|lv: BidLevel| #[trigger]
                bid_cand(prev, exchange, rows@, m as int, lv) implies holds_val(svr, lv) by {
                if lv.exchange == exchange {
                    assert(effective_from(rows@, m as int, lv.price, lv.amount));
                    let w = choose|w: int|
                        m <= w < rows@.len() && #[trigger] rows@[w] == (lv.price, lv.amount)
                            && !occurs_from(rows@, w + 1, lv.price);
                    assert(false);
                } else {
                    let e = choose|e: int| 0 <= e < prev.len() && prev[e] == lv;
                    assert(holds_val(svr, prev[e]));
                }
            }
        }
        let mut j: usize = m;
        while j > 0
            invariant
                heap.wf(),
                heap.cap() == depth as nat,
                bid_linked(heap.contents()),
                0 <= j <= m,
                forall|e: int|
                    0 <= e < heap.contents().len() ==> bid_cand(
                        prev,
                        exchange,
                        rows@,
                        j as int,
                        (#[trigger] heap.contents()[e]).1,
                    ),
                heap.contents().len() == depth as nat || (forall|lv: BidLevel| #[trigger]
                    bid_cand(prev, exchange, rows@, j as int, lv) ==> holds_val(
                        heap.contents(),
                        lv,
                    )),
                forall|lv: BidLevel| #[trigger]
                    bid_cand(prev, exchange, rows@, j as int, lv) && !holds_val(
                        heap.contents(),
                        lv,
                    ) ==> (forall|e: int|
                        0 <= e < heap.contents().len() ==> bid_key_spec(lv) > (
                        #[trigger] heap.contents()[e]).0 as int),
            decreases j,
        {
            j = j - 1;
            let row = rows[j];
            let l = BidLevel { price: row.0, amount: row.1, exchange };
            let k = bid_key(&l);
            let ghost s_pre = heap.contents();
            let _added = heap.insert(k, l);
            proof {
                lemma_bid_phase2_step(
                    prev,
                    exchange,
                    rows@,
                    j as int,
                    depth as nat,
                    s_pre,
                    heap.contents(),
                    l,
                    k,
                );
            }
        }
        self.bids = heap;
        proof {
            lemma_bid_finish(prev, exchange, rows@, depth as nat, self.bids.contents());
        }
    }
    /// Displaces every ask this venue contributed before, merges the fresh
    /// rows (last quote per price wins), and keeps the best `max_depth`.
    #[verifier::loop_isolation(false)]
    fn apply_asks(&mut self, exchange: ExchangeType, rows: &Vec<(u64, u64)>)
        requires
            old(self).inv(),
        ensures
            final(self).inv(),
            final(self).max_depth == old(self).max_depth,
            final(self).bids == old(self).bids,
            asks_merged(
                old(self).asks_view(),
                exchange,
                rows@,
                old(self).depth(),
                final(self).asks_view(),
            ),
    {
        let ghost prev = self.asks_view();
        let ghost s0 = self.asks.contents();
        let current: Vec<AskLevel> = self.asks.into_sorted_vec();
        proof {
            assert(current@ =~= prev);
            assert forall|a: int, b: int| 0 <= a < b < prev.len() implies ask_key_spec(
                #[trigger] prev[a],
            ) < ask_key_spec(#[trigger] prev[b]) by {
                assert(s0[a].0 < s0[b].0);
            }
        }
        let depth = self.max_depth;
        let mut heap: HashHeap<AskLevel> = HashHeap::with_capacity(depth);
        let n = current.len();
        let mut i: usize = 0;
        while i < n
            invariant
                heap.wf(),
                heap.cap() == depth as nat,
                ask_linked(heap.contents()),
                0 <= i <= n,
                heap.contents().len() <= i,
                forall|e: int|
                    0 <= e < heap.contents().len() ==> (#[trigger] heap.contents()[e]).1.exchange
                        != exchange && prev.contains(heap.contents()[e].1),
                forall|jx: int|
                    0 <= jx < i && (#[trigger] prev[jx]).exchange != exchange ==> holds_val(
                        heap.contents(),
                        prev[jx],
                    ),
                forall|e: int, jx: int|
                    #![trigger heap.contents()[e], prev[jx]]
                    0 <= e < heap.contents().len() && i <= jx < prev.len()
                        ==> (heap.contents()[e].0 as int) < ask_key_spec(prev[jx]),
            decreases n - i,
        {
            let l = current[i];
            if l.exchange != exchange {
                let k = ask_key(&l);
                let ghost s_pre = heap.contents();
                let _added = heap.insert(k, l);
                proof {
                    assert(l == prev[i as int]);
                    assert(!has_key(s_pre, k)) by {
                        if has_key(s_pre, k) {
                            let e = choose|e: int|
                                0 <= e < s_pre.len() && (#[trigger] s_pre[e]).0 == k;
                            assert((s_pre[e].0 as int) < ask_key_spec(prev[i as int]));
                        }
                    }
                    lemma_key_pos_brackets(s_pre, k);
                    let pos = key_pos(s_pre, k);
                    assert(pos == s_pre.len()) by {
                        if pos < s_pre.len() {
                            assert(s_pre[pos].0 >= k);
                            assert((s_pre[pos].0 as int) < ask_key_spec(prev[i as int]));
                        }
                    }
                    s_pre.insert_ensures(pos, (k, l));
                    let s2 = heap.contents();
                    assert(kv_insert(s_pre, k, l).len() == s_pre.len() + 1);
                    assert(s_pre.len() + 1 <= depth);
                    assert(s2 == kv_insert(s_pre, k, l));
                    assert(prev.contains(l)) by {
                        assert(prev[i as int] == l);
                    }
                    assert forall|e: int| 0 <= e < s2.len() implies (#[trigger] s2[e]).1.exchange
                        != exchange && prev.contains(s2[e].1) && s2[e].0 as int == ask_key_spec(
                        s2[e].1,
                    ) by {
                        if e < s_pre.len() {
                            assert(s2[e] == s_pre[e]);
                        } else {
                            assert(s2[e] == (k, l));
                        }
                    }
                    assert forall|jx: int|
                        0 <= jx < i + 1 && (#[trigger] prev[jx]).exchange != exchange implies
                    holds_val(s2, prev[jx]) by {
                        if jx < i {
                            let e = choose|e: int|
                                0 <= e < s_pre.len() && (#[trigger] s_pre[e]).1 == prev[jx];
                            assert(s2[e] == s_pre[e]);
                        } else {
                            assert(s2[s_pre.len() as int] == (k, l));
                        }
                    }
                    assert forall|e: int, jx: int|
                        #![trigger s2[e], prev[jx]]
                        0 <= e < s2.len() && i + 1 <= jx < prev.len() implies (s2[e].0 as int)
                        < ask_key_spec(prev[jx]) by {
                        if e < s_pre.len() {
                            assert(s2[e] == s_pre[e]);
                        } else {
                            assert(s2[e] == (k, l));
                        }
                    }
                }
            }
            i = i + 1;
        }
        let ghost svr = heap.contents();
        let m = rows.len();
        proof {
            assert forall|lv: AskLevel| #[trigger]
                ask_cand(prev, exchange, rows@, m as int, lv) implies holds_val(svr, lv) by {
                if lv.exchange == exchange {
                    assert(effective_from(rows@, m as int, lv.price, lv.amount));
                    let w = choose|w: int|
                        m <= w < rows@.len() && #[trigger] rows@[w] == (lv.price, lv.amount)
                            && !occurs_from(rows@, w + 1, lv.price);
                    assert(false);
                } else {
                    let e = choose|e: int| 0 <= e < prev.len() && prev[e] == lv;
                    assert(holds_val(svr, prev[e]));
                }
            }
        }
        let mut j: usize = m;
        while j > 0
            invariant
                heap.wf(),
                heap.cap() == depth as nat,
                ask_linked(heap.contents()),
                0 <= j <= m,
                forall|e: int|
                    0 <= e < heap.contents().len() ==> ask_cand(
                        prev,
                        exchange,
                        rows@,
                        j as int,
                        (#[trigger] heap.contents()[e]).1,
                    ),
                heap.contents().len() == depth as nat || (forall|lv: AskLevel| #[trigger]
                    ask_cand(prev, exchange, rows@, j as int, lv) ==> holds_val(
                        heap.contents(),
                        lv,
                    )),
                forall|lv: AskLevel| #[trigger]
                    ask_cand(prev, exchange, rows@, j as int, lv) && !holds_val(
                        heap.contents(),
                        lv,
                    ) ==> (forall|e: int|
                        0 <= e < heap.contents().len() ==> ask_key_spec(lv) > (
                        #[trigger] heap.contents()[e]).0 as int),
            decreases j,
        {
            j = j - 1;
            let row = rows[j];
            let l = AskLevel { price: row.0, amount: row.1, exchange };
            let k = ask_key(&l);
            let ghost s_pre = heap.contents();
            let _added = heap.insert(k, l);
            proof {
                lemma_ask_phase2_step(
                    prev,
                    exchange,
                    rows@,
                    j as int,
                    depth as nat,
                    s_pre,
                    heap.contents(),
                    l,
                    k,
                );
            }
        }
        self.asks = heap;
        proof {
            lemma_ask_finish(prev, exchange, rows@, depth as nat, self.asks.contents());
        }
    }

    /// Merges one tagged snapshot and returns the merged view: the
    /// venue's old levels are displaced, its rows merged with the last
    /// quote per price winning, and both sides clipped to the best
    /// `max_depth` levels, listed best first.
    pub fn on_snapshot(&mut self, exchange: ExchangeType, snapshot: &FeedSnapshot) -> (view: (
        Vec<BidLevel>,
        Vec<AskLevel>,
    ))
        requires
            old(self).inv(),
        ensures
            final(self).inv(),
            final(self).depth() == old(self).depth(),
            bids_merged(
                old(self).bids_view(),
                exchange,
                snapshot.bids@,
                old(self).depth(),
                final(self).bids_view(),
            ),
            asks_merged(
                old(self).asks_view(),
                exchange,
                snapshot.asks@,
                old(self).depth(),
                final(self).asks_view(),
            ),
            view.0@ == final(self).bids_view(),
            view.1@ == final(self).asks_view(),
    {
        self.apply_bids(exchange, &snapshot.bids);
        self.apply_asks(exchange, &snapshot.asks);
        let bids = self.bids.into_sorted_vec();
        let asks = self.asks.into_sorted_vec();
        proof {
            assert(bids@ =~= self.bids_view());
            assert(asks@ =~= self.asks_view());
        }
        (bids, asks)
    }

    /// Handles one multiplexer event: a snapshot updates the book and
    /// yields the merged view, an error leaves the book untouched and is
    /// forwarded as the single item for that event.
    pub fn on_message(
        &mut self,
        exchange: ExchangeType,
        message: Result<FeedSnapshot, AdapterError>,
    ) -> (out: Result<(Vec<BidLevel>, Vec<AskLevel>), OrderbookError>)
        requires
            old(self).inv(),
        ensures
            final(self).inv(),
            final(self).depth() == old(self).depth(),
            message is Ok <==> out is Ok,
            (message matches Ok(snapshot) ==> {
                &&& bids_merged(
                    old(self).bids_view(),
                    exchange,
                    snapshot.bids@,
                    old(self).depth(),
                    final(self).bids_view(),
                )
                &&& asks_merged(
                    old(self).asks_view(),
                    exchange,
                    snapshot.asks@,
                    old(self).depth(),
                    final(self).asks_view(),
                )
                &&& (out matches Ok(view) && view.0@ == final(self).bids_view() && view.1@
                    == final(self).asks_view())
            }),
            (message matches Err(e) ==> *final(self) == *old(self) && out == Err::<
                (Vec<BidLevel>, Vec<AskLevel>),
                OrderbookError,
            >(OrderbookError::Adapter(e))),
    {
        match message {
            Ok(snapshot) => Ok(self.on_snapshot(exchange, &snapshot)),
            Err(e) => Err(OrderbookError::Adapter(e)),
        }
    }

    /// Answers one poll of the fan-in multiplexer with the merged
    /// stream's single item for it: a tagged event is merged or forwarded
    /// exactly as `on_message` does, and exhaustion (every source has
    /// terminated) leaves the book untouched and yields the terminal
    /// cancellation error.
    pub fn on_event(
        &mut self,
        event: Option<(ExchangeType, Result<FeedSnapshot, AdapterError>)>,
    ) -> (out: Result<(Vec<BidLevel>, Vec<AskLevel>), OrderbookError>)
        requires
            old(self).inv(),
        ensures
            final(self).inv(),
            final(self).depth() == old(self).depth(),
            (event matches Some(ev) ==> {
                &&& (ev.1 is Ok <==> out is Ok)
                &&& (ev.1 matches Ok(snapshot) ==> {
                    &&& bids_merged(
                        old(self).bids_view(),
                        ev.0,
                        snapshot.bids@,
                        old(self).depth(),
                        final(self).bids_view(),
                    )
                    &&& asks_merged(
                        old(self).asks_view(),
                        ev.0,
                        snapshot.asks@,
                        old(self).depth(),
                        final(self).asks_view(),
                    )
                    &&& (out matches Ok(view) && view.0@ == final(self).bids_view() && view.1@
                        == final(self).asks_view())
                })
                &&& (ev.1 matches Err(e) ==> *final(self) == *old(self) && out == Err::<
                    (Vec<BidLevel>, Vec<AskLevel>),
                    OrderbookError,
                >(OrderbookError::Adapter(e)))
            }),
            (event is None ==> *final(self) == *old(self) && out == Err::<
                (Vec<BidLevel>, Vec<AskLevel>),
                OrderbookError,
            >(OrderbookError::StreamCancelled)),
    {
        match event {
            Some((exchange, message)) => self.on_message(exchange, message),
            None => Err(OrderbookError::StreamCancelled),
        }
    }

    /// Replays a finite prefix of the multiplexed event stream: exactly
    /// one output item per input event, in input order.  Every accepted
    /// snapshot advances the merged view by exactly one merge step over
    /// the view standing before it and is emitted as that new view; every
    /// failed event is forwarded as that event's single item and leaves
    /// the view alone; the book ends holding the view of the last
    /// emission.
    pub fn collect_events(
        &mut self,
        events: Vec<(ExchangeType, Result<FeedSnapshot, AdapterError>)>,
    ) -> (outs: Vec<Result<(Vec<BidLevel>, Vec<AskLevel>), OrderbookError>>)
        requires
            old(self).inv(),
        ensures
            final(self).inv(),
            final(self).depth() == old(self).depth(),
            outs@.len() == events@.len(),
            forall|i: int|
                0 <= i < events@.len() ==> ((#[trigger] events@[i]).1 is Ok <==> outs@[i] is Ok),
            forall|i: int|
                0 <= i < events@.len() ==> ((#[trigger] events@[i]).1 matches Ok(snapshot) ==> (
                outs@[i] matches Ok(view) && bids_merged(
                    view_after(old(self).views(), outs@, i).0,
                    events@[i].0,
                    snapshot.bids@,
                    old(self).depth(),
                    view.0@,
                ) && asks_merged(
                    view_after(old(self).views(), outs@, i).1,
                    events@[i].0,
                    snapshot.asks@,
                    old(self).depth(),
                    view.1@,
                ))),
            forall|i: int|
                0 <= i < events@.len() ==> ((#[trigger] events@[i]).1 matches Err(e) ==> outs@[i]
                    == Err::<(Vec<BidLevel>, Vec<AskLevel>), OrderbookError>(
                    OrderbookError::Adapter(e),
                )),
            final(self).views() == view_after(old(self).views(), outs@, events@.len() as int),
            forall|i: int|
                0 <= i < outs@.len() ==> ((#[trigger] outs@[i]) matches Ok(view) ==> view_ok(
                    view,
                    old(self).depth(),
                )),
    {
        let ghost all = events@;
        let ghost init = old(self).views();
        let mut events = events;
        let mut outs: Vec<Result<(Vec<BidLevel>, Vec<AskLevel>), OrderbookError>> = Vec::new();
        while events.len() > 0
            invariant
                self.inv(),
                self.depth() == old(self).depth(),
                outs@.len() + events@.len() == all.len(),
                events@ =~= all.subrange(outs@.len() as int, all.len() as int),
                self.views() == view_after(init, outs@, outs@.len() as int),
                forall|i: int|
                    0 <= i < outs@.len() ==> ((#[trigger] all[i]).1 is Ok <==> outs@[i] is Ok),
                forall|i: int|
                    0 <= i < outs@.len() ==> ((#[trigger] all[i]).1 matches Ok(snapshot) ==> (
                    outs@[i] matches Ok(view) && bids_merged(
                        view_after(init, outs@, i).0,
                        all[i].0,
                        snapshot.bids@,
                        old(self).depth(),
                        view.0@,
                    ) && asks_merged(
                        view_after(init, outs@, i).1,
                        all[i].0,
                        snapshot.asks@,
                        old(self).depth(),
                        view.1@,
                    ))),
                forall|i: int|
                    0 <= i < outs@.len() ==> ((#[trigger] all[i]).1 matches Err(e) ==> outs@[i]
                        == Err::<(Vec<BidLevel>, Vec<AskLevel>), OrderbookError>(
                        OrderbookError::Adapter(e),
                    )),
                forall|i: int|
                    0 <= i < outs@.len() ==> ((#[trigger] outs@[i]) matches Ok(view) ==> view_ok(
                        view,
                        old(self).depth(),
                    )),
            decreases events.len(),
        {
            let ghost k = outs@.len() as int;
            let ghost pre_views = self.views();
            let (exchange, message) = events.remove(0);
            let ghost msg = message;
            proof {
                assert(all[k].0 == exchange && all[k].1 == msg);
            }
            let out = self.on_message(exchange, message);
            let ghost outs_old = outs@;
            let ghost out_g = out;
            outs.push(out);
            proof {
                assert(outs@ == outs_old.push(out_g));
                lemma_view_after_push(init, outs_old, out_g, k);
                assert(view_after(init, outs@, k) == pre_views);
                // the view after this output is the book's current view
                assert(self.views() == view_after(init, outs@, k + 1)) by {
                    if out_g is Ok {
                        assert(outs@[k] == out_g);
                    } else {
                        assert(outs@[k] == out_g);
                        assert(view_after(init, outs@, k + 1) == view_after(init, outs@, k));
                    }
                }
                assert forall|i: int|
                    0 <= i < outs@.len() implies ((#[trigger] all[i]).1 matches Ok(snapshot) ==> (
                    outs@[i] matches Ok(view) && bids_merged(
                        view_after(init, outs@, i).0,
                        all[i].0,
                        snapshot.bids@,
                        old(self).depth(),
                        view.0@,
                    ) && asks_merged(
                        view_after(init, outs@, i).1,
                        all[i].0,
                        snapshot.asks@,
                        old(self).depth(),
                        view.1@,
                    ))) by {
                    lemma_view_after_push(init, outs_old, out_g, i);
                    if i < k {
                        assert(outs@[i] == outs_old[i]);
                    } else {
                        assert(outs@[k] == out_g);
                    }
                }
                assert forall|i: int|
                    0 <= i < outs@.len() implies ((#[trigger] all[i]).1 matches Err(e) ==> outs@[i]
                        == Err::<(Vec<BidLevel>, Vec<AskLevel>), OrderbookError>(
                        OrderbookError::Adapter(e),
                    )) by {
                    if i < k {
                        assert(outs@[i] == outs_old[i]);
                    } else {
                        assert(outs@[k] == out_g);
                    }
                }
            }
        }
        proof {
            assert(outs@.len() == all.len());
        }
        outs
    }
}

} // verus!
