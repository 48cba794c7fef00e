# minimalist_order_book

A limit order book, verified with Verus. There are two books with the same way of trading: best
price first, and at one price first come first served.

- `orderbook::OrderBook` takes any price and any number of orders.
- `fixed_orderbook::FixedOrderBook` has a fixed row of prices and room for a fixed number of orders
  at each; a cancelled order leaves a tombstone until its level is compacted.

Prices and quantities are decimals. Their arithmetic is that of `rust_decimal`, behind the few
functions of `decimal` whose contracts are taken on trust; the index of the fixed book is a map of
`rustc_hash`. Everything else in `src/` is proved.

| module | what it holds |
| --- | --- |
| `decimal`, `types`, `order` | numbers, and the vocabulary of the books |
| `matching` | trading with a queue of orders, and what is conserved by it |
| `ladder`, `orderbook` | the levels of one side by price, and the book made of two of them |
| `ring_level`, `slots` | a level with a fixed number of places |
| `grid`, `levels` | a row of prices, and the levels of one side along it |
| `fixed_state`, `fixed_orderbook` | what the fixed book holds, and the book itself |
| `book_laws`, `fixed_book_laws` | what holds of each book, whatever is done to it |
| `amounts`, `fixed_amounts` | what rests on a side, and what trades take from it |
| `splitting` | an order may as well come in two parts |
| `alike` | tombstones and compaction do not show |
| `agreement` | the two books agree |
| `runs` | what holds after any number of calls |

`app/` is a demonstration program.
