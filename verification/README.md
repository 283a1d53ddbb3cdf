# retread-solve

Diagnosis and repair of failed `pixi` solves: what a solver's message says, which
pin to move next, what to write to a workspace manifest or to a pack's ledger, and
how to take it back.

The library under `src/` is verified with Verus; the code under `app/` runs `pixi`,
reads and writes files, and asks the library what to do.

| Module | What it holds |
|--------|---------------|
| `text`, `patterns`, `versions` | text, regular expressions, conda versions |
| `solve::parse` | what a solver's message reports |
| `solve::ranges` | version ranges: widened, narrowed, compared |
| `solve::document`, `solve::manifest` | a manifest as nodes, and its edits |
| `solve::declared`, `solve::workspace` | what a manifest declares: environments, features, packs |
| `solve::ledger`, `solve::session` | what was tried, and what a run keeps |
| `solve::ladder`, `solve::repair` | the next repair for each kind of conflict |
| `solve::ownership`, `solve::fallback`, `solve::unroute` | repairs for messages of no known kind |
| `solve::driver`, `solve::lock` | the rounds of `retread solve` and `retread lock` |
| `solve::audit`, `solve::shadow`, `solve::proposals`, `solve::order` | the read-only check of every environment |
| `solve_check`, `solver` | a conda solve over what a build would emit |

What holds of the library as a whole is stated by the proof functions whose names
begin with `law_`, next to what they speak of.
