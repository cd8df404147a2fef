# kalshi_backtester

A tick-level backtester for binary contracts: order books are rebuilt from captured deltas, a
strategy is called for every event, and its orders are filled as they could have been filled, with
fees, queues, delays, slippage, liquidity rewards, limits on risk and settlement at expiry.

- `src/` is the library. Every function states what it returns, and Verus proves it.
- `tests/` runs the library on concrete values, with double-precision numbers and with decimals.
- `app/` is the program `kalshi-backtest`: arguments, files, the network, and printing.

## Layout of the library

| module | what it holds |
| --- | --- |
| `engine` | the event loop; `engine::state` says what each step does to the state, `engine::laws` what holds of every run |
| `orderbook`, `execution`, `fees`, `slippage`, `latency`, `rewards`, `settlement` | the market and how orders are filled in it |
| `portfolio`, `metrics`, `report`, `exports`, `base64` | the account, and what is reported of it |
| `strategy`, `event_curves`, `fit_logistic` | what a strategy sees, and the curves that are fitted through strikes |
| `optimize` | grids of parameters, metrics, and runs over a grid |
| `data`, `adapters` | captures, databases and the files of other venues |
| `cli` | what the commands decide and print |
| `text`, `strmap`, `intmap`, `json` | texts, maps and JSON values |
| `number`, `fixed` | the arithmetic, which is a parameter, and an exact decimal implementation of it |
| `foreign` | calls into other crates |

## Numbers

Prices, sizes and money are computed in a number type `N` with the operations of `number::Number`
(and `number::Analytic`, where logarithms are needed). Contracts say which formula a result is the
value of, operation by operation. The program runs the library on double-precision numbers;
`fixed::Fixed` is a verified implementation with six decimals. What rests on the order or on the
sums of numbers is proved of every type with the few facts that it needs, such as that a position
settles once and that the order of strikes does not change a curve, or else of `Fixed`: that no order
breaches a cap, that a drawdown is the deepest fall, that an order takes all that it can reach.
