# onpair

Search over dictionary-compressed string columns, without decoding rows. A
column is a token dictionary, a stream of token codes, and the offsets that cut
the stream into rows. The library answers which rows contain a pattern, and
which begin with one, and every answer is proved against the decoded bytes.

* `query`: three searchers for `contains` over any code stream. One walks the
  dense token automaton behind an anchor prefilter, one walks base destinations
  and their exceptions, and one walks classes of tokens.
* `search`: greedy tokenization, token lookup, prefix search, and the
  token-level substring automaton.
* `search::index`: the token-frequency index and its stored forms.
* `search::prefilter`: the prefilter for rows that are greedily tokenized. The
  alignment graph holds every way that a pattern can lie across token
  boundaries; a minimum cut of it is the cheapest sound set of probes; a scan
  finds the codes that are probed for; a walk of the graph verifies each hit.
* `search::contains_prefilter`: the prefilter that chooses its probes alignment
  by alignment.

The scan kernels are written lane by lane in safe code. `app` detects the
machine's vector features and reads the library's ratios as floating point.
