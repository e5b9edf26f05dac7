# edi_x12

The ASC X12 content contract: reading an interchange with the separators its
`ISA` declares, naming every departure of its envelope segments, and holding
its transaction sets to the one a contract is bound to. Written in Rust and
verified with Verus.

- `src/text.rs`: the operations on text, and what is taken from `std` unproved.
- `src/contract.rs`: descriptors, issues and verdicts.
- `src/syntax.rs`: segments, interchanges, and their soundness.
- `src/transaction_set.rs`: the transaction set a contract is bound to.
- `src/x12.rs`: the contract and its factory.
- `src/laws/`: what holds of the library as a whole.
- `tests/`: the library at work on concrete messages.
- `app/`: the contract behind the host's traits.
