# rinha_fraud

Fraud detection by nearest-neighbour search. A transaction becomes a vector of fourteen
features; the five nearest of a large set of labelled vectors vote on it, and it is
approved if fewer than three of them are frauds. The search goes through an inverted-file
index: vectors are grouped into clusters, and only the clusters whose centroids are nearest
are searched.

`src/` is a Verus library. Every function in it has a contract that Verus proves:

- `vectorize`, `timeutil`, `consts`: from a payload to features, and to a quantised row;
- `index`, `probe`, `neighbors`, `score`: the search and the decision;
- `blob`, `bytes`: the binary form of an index;
- `refs`, `document`: reading the reference data;
- `kmeans`, `reorder`: training of the clusters, and the order of the vectors;
- `http`, `text`, `config`, `balance`: requests, responses, settings, the load balancer;
- `stats`, `duplicates`: figures on decisions and on the reference data;
- `sums`: sums that the proofs about counting use.

Numbers in floating point are held in the library by their IEEE 754 bit pattern; arithmetic
on them is in `app/`, as are files, sockets, threads and JSON.

Decompression is `flate2`'s, behind `refs::gunzip`. It is the one thing in the library that is
trusted and not proved.

`app/` is one program with the commands `server` (the default), `lb`, `build_index`,
`validate`, `diag` and `analyze`.

    rinha_fraud build_index references.json.gz index.bin 2048
    INDEX_PATH=index.bin NPROBE=24 rinha_fraud server
