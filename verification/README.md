# diet-mac-and-cheese

Two-party generation of authenticated edaBits: random values that two peers
share both bit by bit and as an element of a prime field, with MACs on every
share.

The library in `src/` holds what a peer computes between two messages, proved in
Verus. What is drawn, sent and received is passed in and handed out as plain
values; `app/` does that over a channel.

| module | what it holds |
| --- | --- |
| `field`, `ring` | finite fields by canonical representatives, and what follows from their laws |
| `prime_fields`, `f40b` | the fields of 2, 2^61 - 1 and 2^40 elements |
| `serialization` | the bytes that elements are sent as |
| `homcom`, `mpc_homcom`, `share` | MACs in one and in both directions, and additively shared values with them |
| `bits`, `bit_adder`, `multiplication` | bit vectors, ripple-carry addition of shared bits, multiplication by triples |
| `mpc_conv`, `mpc_edabits_common`, `mpc_edabits` | shared edaBits: dealing, combining and opening them |
| `sharing_laws` | what two peers hold of what one of them has dealt, and what they open |
| `combination_laws` | what two peers hold after combining |
| `cut_and_choose`, `mpc_original_edabits`, `bucket_laws` | shuffling, opening a cut, checking buckets |
| `copee`, `mpc_spdz_conv`, `mpc_spdz_common`, `spdz_multiplication`, `spdz_products`, `spdz_combination`, `spdz_laws`, `mpc_original_edabits_spdz` | the same over SPDZ-style shares |
| `hd_quicksilver`, `mpc_chedda_edabits` | edaBits from daBits that are expanded out of a short seed |
| `flow` | the order in which a peer samples, checks and combines |
| `benchmark_tools` | what a benchmark records, and how its parties connect |
| `errors` | why a run is given up |

The laws are the public proof functions whose names start with `law_`.
