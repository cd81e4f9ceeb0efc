# npc_system

A rule-based simulation of NPCs living in a network of towns: families, relationships,
beliefs and goals, migration, births and deaths, disasters, diseases, famines and wars,
year after year. The rules are a library verified with Verus; a command line program
runs them.

## Layout

- `src/`: the verified library. Its functions state in `requires`/`ensures` what they
  do, and Verus proves it; where a random draw decides, the contract states what holds of
  every outcome.
  - `id`, `belief`, `goal`, `relationship`, `relationship_map`, `npc`: the NPC model and
    its invariants.
  - `town`, `disaster`, `disease`, `war`, `crisis`: towns, their damage and recovery, and
    the crises that strike them.
  - `world`, `population`, `migration`, `family`: the world, how it is generated (a
    symmetric, connected and sparse road network), households and relatives.
  - `society`, `utility`, `health`: how NPCs relate, choose partners, react to events, and
    the counts behind the health of the relationship graph.
  - `statistics`, `timeline`, `history`, `text`: yearly statistics and the material of the
    printed timelines.
  - `economy`, `trade_game`, `extensions`: town markets, the trading game's account, and
    the economy extension, which the standard build includes.
  - `ledger`, `economy_cycle`: NPCs' cash and goods, transfers and purchases, and the
    economy's year: supply shocks at its start; each month employment and wages,
    support between relatives, purchases, productivity and prices; estates passed on at a
    death; and each town's economic statistics at its end. Money only moves between NPCs
    and treasuries.
  - `yearly`: the bookkeeping that closes a year.
  - `random`: the random generator, the only trusted part: each wrapper states only what
    the `rand` documentation promises (a value in the requested range, a permutation).
- `app/`: the command line program. It draws the floating point chances, performs I/O,
  prints, and serialises reports; every decision it takes is handed to the library.
- `tests/`: tests of the library from the outside.
