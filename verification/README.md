# bitsvec

A bit vector, read as a set of small integers: bit `i` is on exactly when `i`
is in the set.  The bits live in 256-bit containers of four `u64` lanes, kept
in a `smallvec::SmallVec` with room for four containers inline.

Every operation is verified with Verus against a model in which a vector of
length `n` is a `Seq<bool>` of length `n`:

- constructors (`zeros`, `ones`, `from_bool_iterator`, `from_slice`,
  `from_slice_copy`, `from_raw_copy`), `set`, `get`, `resize`, `shrink_to`,
  `set_all*`, `set_raw*`;
- set operations (`and`, `or`, `xor`, `difference`, `inverse`, their
  borrowed and in-place forms, and the operators `&`, `|`, `^`, `!`, `==`);
- queries (`count_ones`, `count_ones_before`, `leading_zeros`, `any`, `all`,
  `none`, `into_bools`, `into_usizes`).

The storage keeps an invariant: exactly as many containers as the length
needs, and every bit past the length off.

Layout:

- `src/model.rs`: the spec functions the contracts use;
- `src/storage.rs`: the containers held in a `SmallVec`, with the contract
  of each `smallvec` call that the library makes;
- `src/item.rs`, `src/container.rs`: the lane and container traits, with
  verified implementations for the unsigned integers and their arrays;
- `src/bitvec.rs`, `src/ops.rs`: the bit vector and its operators;
- `src/laws.rs`: properties that span several operations;
- `app/`: entry points on raw pointers and iterators, and a `Display` view.
