# cut

Guillotine sheet cutting: given a stock sheet, the width of the saw cut and a list of
rectangular pieces, find placements on as few sheets as possible, all made by edge-to-edge cuts.

`src/` is the library. Its functions carry contracts that Verus proves: what every packer,
decoder, genetic operator, parser and bound returns is stated over mathematical models, and
laws that relate several functions are public proof functions whose names begin with `law_`.

| Modules | What they hold |
|---|---|
| `model`, `specs`, `expand`, `parse`, `parse_compact`, `reading` | problems, solutions, and how they are read and converted |
| `layout`, `cut_tree`, `guillotine`, `packing`, `tiling`, `sheets`, `turning`, `bounds` | what a cutting is, and what holds of every one |
| `score`, `offcuts`, `spread` | how good a solution is |
| `heuristic`, `group_fill` | greedy packers and portfolios of them |
| `slas`, `glas`, `gslas`, `decoder` | genomes, their decoders and operators |
| `crossover`, `ga`, `islands`, `runner`, `transport` | the genetic algorithm, its reports and the messages they become |
| `gpf`, `exact` | layout functions and branch and price |
| `cuts`, `generator` | random problems with a known solution |
| `render`, `report`, `text` | drawings and texts |
| `small`, `rng`, `sorting` | short lists, random numbers, orders |

`app/` is the program around it: command line, web server, threads, JSON, and the linear program
of the exact solver. `tests/` runs the library.
