# ds_decomp analysis (estreya)

A verified library for analysing assembly listings of a decompilation
project: each listing is read line by line into entries (`listing`), the
entries are grouped into nodes, one per definition (`graph_node`), and the
nodes form a graph (`graph`) whose edges follow `.word` references and branch
targets. The graph then classifies its nodes by their callers and words and
gathers simple leaves into trees. `references` holds a second, simpler
scanner of the same listings; `estreya` holds the command arguments, the
decisions of the directory crawl and the analysis that the `graph` command
runs.

All of `src/` is verified with Verus: contracts state each function's result
over mathematical models (`Seq`, views of the data types), and proof
functions state the laws that hold across calls (reads after writes of the
ordered map, the depth-first order of the crawl, the round trip of word
texts, that tree gathering adds no node, ...). `app/` is the command line
(`clap`), file system access and logging.
