# gto_solver

Game logic for a poker solver, verified with Verus.

`src/` is the verified library:

- `hand_evaluator`: five- and seven-card hand evaluation, specified over the
  multiset of cards, and the order on hand values.
- `card_abstraction`: the 169 preflop groups of two-card hands.
- `action_abstraction`: mapping bets to standard fractions of the pot.
- `leduc`: the rules of Leduc poker (cards, deck, game state, information-set keys).
- `nlhe`: a heads-up no-limit hold'em hand with abstracted bet sizes.
- `table`: cards, hands, a 52-card deck and a multi-player chip table.
- `dcfr`: the private-card deals of Leduc poker.
- `cfr`: the terminal utilities of Kuhn poker.
- `text`: decimal notation of integers.

Each game module states its rules as spec functions over a model of the state
and proves the exported operations against them, together with laws such as
chip conservation and zero-sum payoffs.

`app/` holds what stays outside verification: the counterfactual-regret
trainers (floating point, and rayon for the parallel one), the Python bindings
(pyo3) and the demonstration program.
