# rinha 2026

Fraud detection by vector search, with a core verified in Verus.

A transaction is turned into a vector of fourteen coordinates. An inverted-file
index holds labelled reference vectors in clusters; a search probes the clusters
nearest to the query and lets the five nearest vectors found there vote. Three
votes for fraud or more decline the transaction.

- `src/` is the library. `features` and `calendar` say how each coordinate is made;
  `distance`, `ranking` and `search` are the search; `words`, `index` and `builder`
  are the index image and its construction; `service` and `quality` hold the replies
  and the tally of verdicts.
- `app/` is the program around it: floating-point arithmetic, JSON, files, HTTP.
- `tests/` runs the library on concrete values.

Amounts and distances are single-precision numbers, which the library does not
compute with. It names each coordinate as a feature that the program evaluates, and
takes the distances to the centroids as keys: their bit patterns, which have the
order of the distances.

## Running

```
rinha-2026 preprocess references.json.gz index.bin 1024 10
INDEX_PATH=./index.bin rinha-2026
rinha-2026 quality_check index.bin test-data.json 32
```

The service listens on `PORT` (8080), or on the Unix socket `UDS_PATH`.
