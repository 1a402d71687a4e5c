# sa_psi

Building blocks of a structure-aware private set intersection protocol, written in
Verus. Verus proves the functions under `src/` against their contracts, except the few
trusted wrappers around outside crates (listed below), whose contracts state what the
library assumes of those crates.

## Layout

- `src/` — the verified library.
  - `gf128`, `bytes`, `wire`: arithmetic in GF(2^128), little-endian conversions and the
    byte layouts of channel messages (with round-trip laws).
  - `okvs_utils`, `band_system`, `okvs_f2k`: the random-band oblivious key-value store;
    encoding succeeds exactly when the keys' rows are linearly independent, and then
    every key decodes to its value; the solution is the one that Gaussian elimination in
    row order gives (zero off its pivot columns, which are unique, and the only such
    solution); decoding is linear in the encoding.
  - `pre_ot`: lengthening of correlated oblivious transfers (the receiver unpads the
    message it chose). The correlation-robust hash of the precomputed OTs is applied by
    the caller: `store_hashed` takes its outputs.
  - `idcf_model`, `idcf_sender`, `idcf_receiver`, `idcf`: the incremental distributed
    comparison function (the two parties' shares differ by `beta` exactly on the nodes at
    or right of the input's path) and its consistency check.
  - `two_key_prp`, `spfss_model`, `spfss_sender_f2k`, `spfss_receiver_f2k`, `lpn_f2k`,
    `cope_f2k`, `mpfss_reg_f2k`, `base_svole_f2k`: the VOLE sub-protocols over GF(2^128).
  - `psi_config`, `psi_sender`, `psi_receiver`, `psi`, `params`, `points`, `ec_point`,
    `data_generator`: point preprocessing, prefix decompositions, the sender's search (sound
    and complete against the digests the receiver publishes with `path_point_hashes`),
    parameter checks, the text form of points, the SEC1 check of received curve points and
    the data generator's rules.
  - `aes_prf`, `hashing`, `ec_point::sec1_from_bytes`: the calls into `aes`, `blake3`,
    `blake2` and `p256`, each behind a small trusted wrapper whose contract names what it
    relies on; `spfss_sender_f2k::rand_u128` draws a random seed through `rand`.
- `tests/` — tests of the library on concrete values.
- `app/` — the programs: a TCP channel, point transfer over it, the data generator, and
  the protocol driver's set-up (configuration check, loading points, connecting); the
  protocol's cuckoo table, base OTs and VOLE triple generator are not part of this build,
  so the driver stops after connecting.

## What is proved, and of what

- The two-party relations of the sub-protocols are proved over what the parties' step
  functions ensure: `pre_ot::lemma_send_recv_transfer` (`send` then `recv`),
  `cope_f2k::lemma_cope_extend_agrees` and `lemma_cope_batch_extend_agrees`,
  `spfss_receiver_f2k::lemma_spfss_steps_agree` and `lemma_spfss_check_steps_agree`,
  `idcf_receiver::lemma_idcf_steps_agree`. Their premises are the step functions'
  postconditions plus what the channel and the base oblivious transfers deliver (the
  correlation of the OT keys, the message the receiver's bit selects); the channel and the
  base OTs themselves are outside the library.
- The tree expansion (`two_key_prp`: children `AES_k0(p) ^ p` and `AES_k1(p) ^ p` under the
  all-zero and all-one keys) and the LPN matrix (`lpn_f2k`: AES under the two seeds) are
  this library's own choice of PRP and PRG; nothing here shows that they coincide with any
  other implementation of the protocol.
- The receiver publishes, per point of a bin, exactly the digests of its path nodes, hashed
  as the sender's search hashes a node (bin index, prefix values, shares at the node) with
  the shared configuration of `psi_config` (`path_point_hashes`); the search finds every
  such point (`psi_sender::lemma_psi_bin_complete`), and everything it reports extends its
  start node and has its full-length digest among the published ones
  (`psi_sender::lemma_search_set_sound`). That a reported point is one the receiver holds
  would further need the hash to be collision-free, which nothing here states.
- The LPN step keeps VOLE correlations (`lpn_f2k::lemma_vole_correlation_survives`).
