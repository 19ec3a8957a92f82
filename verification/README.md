# utxo2webgraph

Turns a Bitcoin transaction list into the arc list of a directed graph, and the
arc list into a compressed graph.

A node is one transaction *output*, identified by `(txId, offset)`. An arc runs
from a spent output to every output of the transaction that spent it.

## Layout

* `src/` is the library. Every function in it is verified with Verus against
  the contract that stands at its head. It takes bytes and plain values, and
  gives bytes and plain values back.
* `app/` is the program around it: the command line, files, disks, threads, the
  logger and the graph compressor. It is ordinary Rust.
* `tests/` runs the library.

| module | what it holds |
|---|---|
| `record` | one line of a transaction list |
| `nodemap` | the ids of outputs, and the node map file |
| `edge_list` | the pass over a transaction list |
| `sorter`, `merge` | sorting arcs in runs, and merging the runs |
| `arcs` | arc files, as text and as records |
| `split`, `calendar` | cutting a transaction list into chunks of months |
| `compress` | what a graph compressor is given, and what it reports back |
| `plan`, `report`, `pipeline` | what a run decides, what it says, and the stages as one |
| `cli`, `memory`, `path`, `text`, `error` | options, budgets, names, texts and failures |

## Trusted items

What the library takes from other crates, and from the parts of `std` that
Verus has no contract for, stands behind functions marked
`#[verifier::external_body]` and a few declarations. The comment above each says
what is taken on trust: number formatting (`itoa`), sorting (`rdst`, `rayon`,
`sort_unstable`), time zones (`chrono`, `chrono-tz`), UTF-8, white space and the
quoting of texts.

## Reading a contract

A contract speaks of the views of values (`x@`) and of spec functions. The
record format is `record::line_of`, the state of the edge-list pass is
`edge_list::Pass`, a node map is a `nodemap::NodeMapView`, and a sorted arc list
is anything for which `merge::lists` holds. What holds of several functions
together is stated as a public proof function, at the end of the module that it
belongs to.
