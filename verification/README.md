# paley

Searches for the smallest prime n = 3 (mod 4) such that every k vertices of the
Paley tournament on n vertices have a common dominator (the property S_k; OEIS
A362137, where the member with index k + 1 is the least n for S_k).

`src/` is a library whose functions are verified with Verus:

- `modular`, `residues`, `primes`: the number theory that the rest stands on.
- `tournament`: the tournament, common dominators and S_k as mathematics.
- `bitset`, `paley`: the tables that a search uses.
- `structural`, `seeded`, `sampling`: quick attempts at a counterexample.
- `canonical`, `enumerate`: the exhaustive verification.
- `bounds`, `weil`: where a search starts and ends.
- `search`: the search itself, and what it is sure not to miss.
- `text`, `bookmark`, `args`, `lists`: bookmarks, the command line, and lists.
- `outside`: what is taken from `rand`, `rayon` and the standard library
  without proof.

`app/` is the program around it: files, threads, Ctrl-C and printing.  `tests/`
runs the library on concrete values.
