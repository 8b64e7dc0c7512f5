# routeviz

DEX routing and arbitrage over constant-product (Uniswap-V2 style) pools,
with the routing logic verified by Verus.

## Layout

- `src/` — the verified library.
  - `uint`, `address`, `ratio`: 256-bit amounts (arithmetic delegated to
    alloy's `U256`), addresses, and exact fractions over big naturals.
  - `pool`, `token`, `graph`: pools and their exact swap maths, tokens, and
    the directed token graph (one edge per pool and direction).
  - `amount`: decimal amounts read into and written from base units.
  - `algo`: Dijkstra and Bellman-Ford over exact rate products, the
    bounded-hop path enumerator, amount-aware routing, split routing by a
    knapsack over chunks, the exact parts of Frank-Wolfe split routing and
    of the pool-disjoint split router, the targeted arbitrage scan, gas
    accounting, and traces.
- `tests/` — tests of the library on concrete graphs.
- `app/` — the command line, benchmarks, browser bindings, the graph
  generator and layouts, and the floating-point search loops of the two
  iterative split routers.

## What is proved

Public functions state their results over spec models. Beyond those
contracts, the library proves, among others:

- a reported route's output is what replaying its swaps gives, and a
  reported cycle's output likewise;
- Dijkstra's answer, traced or not, is fixed by the state its search stops
  in (it settles the unsettled token with the largest product, the first
  on ties), and its route carries the best product of marginal rates over
  all routes whenever no usable rate exceeds one;
- Bellman-Ford's answer, traced or not, is fixed by the best products and
  parent links its sweeps compute: a cycle it reports is the loop of parent
  links, reachable from the source, with a rate product above one (so none
  is reported without such a gaining loop), and it answers `NoPath` between
  known tokens only when the destination cannot be reached, a gaining loop
  is reachable, the best-pool walk fails, or its sweeps run out with an
  edge still relaxing;
- a pool-disjoint search finds a path whenever a direct hop or a single
  shortcut out of the source beats the equilibrium price, and its path
  delivers at least as much as any of them;
- a Bellman-Ford route's parent path has a rate product within the
  tolerance factor per hop of every route's;
- a cycle the targeted scan reports starts at the entry, has three to four
  distinct tokens and turns its input into more; the scan's depth-first
  search emits every simple cycle through the entry within its edge limit,
  each once;
- simulating a split leaves every pool that no leg uses as it was, and a
  one-hop replay is the swap through its pool;
- the enumerator lists simple walks, none twice, ordered by the product of
  their best hop rates; it always includes a direct usable hop, and every
  walk within the hop limit when no (hop count, token) holds more than
  `TOP_K` of them;
- a path found by the pool-disjoint router's discovery is simple, within
  the hop limit, avoids the used pools and beats the equilibrium price;
- amount-aware routing never nets less than the direct pool, when that
  pool nets anything after gas;
- the knapsack's allocation is optimal for its quotes (while their sums fit
  in 256 bits);
- a split answer's legs add up to its totals, and it nets at least its
  best-ranked single route; split-DP's legs share out the whole input
  whenever every leg given a share delivers;
- a swap never shrinks a pool's constant product, and a zero input gives
  zero output;
- building a graph gives two edges per pool;
- an amount written by `format_amount` reads back to the same value.
