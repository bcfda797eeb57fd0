# wide_hand_eval

A poker hand evaluator and Monte Carlo equity estimator, verified with Verus.

## Layout

- `src/card.rs` – cards, ranks and suits, their one-byte encoding, parsing and text.
- `src/card_order.rs` – cards compare by rank.
- `src/bits.rs` – bit vocabulary: single bits, masks from predicates, highest and
  lowest set bits, population counts.
- `src/score.rs` – what a seven-card hand scores, stated over rank counts.
- `src/hand.rs` – the evaluator (`score_cards`, and `Hand` for sixteen hands at once),
  proved to compute `hand_score`.
- `src/laws.rs` – properties across hands: a better category always scores higher,
  within a category the higher deciding ranks and kickers win, and renaming suits
  never changes a score.
- `src/equity.rs` – the card set of a hand, dealing from random bytes, scoring the
  hands of a batch of games sixteen at a time, and into how many parts each pot is
  split among its winners.
- `src/setup.rs` – the validation of a set-up before estimating equity.
- `app/main.rs` – the command line: argument parsing, random numbers, the parallel
  loop over batches and the final division.
