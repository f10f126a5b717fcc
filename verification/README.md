# sc_opus

Verified building blocks of a CELT-only Opus codec and of the Ogg and MP4
containers around it, written in Verus.

- `src/` is the verified library: the range coder and its raw-bits tail,
  CWRS pulse-vector indexing, Laplace energy coding, time-frequency flags,
  the pulse-cost cache and bit allocation, the theta split coder and the bit
  budget of split bands, the decoder's side of the recursive partition of a
  mono band (split decisions, angles, the rebalancing of the halves' budgets,
  pulse counts, pulse vectors, block masks, noise seed) and of the
  time-frequency reshaping around it, the per-band budget and folding source of the
  all-bands pass, the frame-header decisions (silence, post-filter,
  transient and intra flags, spreading, allocation trim, anti-collapse
  reservation), the coarse and fine energy steps read from a frame, the VBR
  byte budget, the post-filter header, Opus TOC bytes, Ogg Opus paging and
  muxing, and AAC-in-MP4 muxing and demuxing. Every public function states
  its result over spec functions; the `lemma_*` proof functions state the
  laws that relate several of them (round trips, monotonicity, symmetry).
- `app/` is the unverified edge: decoding Ogg Opus to float PCM through the
  `opus-decoder` crate, chunked stream decoding, human-readable errors, and
  the floating-point drift gain of constrained VBR.
- `tests/` runs the library on concrete values.
