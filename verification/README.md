# simulife

A plant-evolution cellular automaton with a verified core. Plants grow from
sprouts whose genome says what to put ahead, to the left and to the right of
them. Every copy of a genome mutates, so lineages drift; light, soil, poison
and being eaten select among them.

## Layout

- `src/` is the library: the simulation and everything that is decided around
  it, with contracts that Verus proves.
- `tests/` runs the compiled library.
- `app/` is the program: a server that runs the simulation, viewers that show
  it, files, sockets and windows.

| module | what it states |
|---|---|
| `protocol` | the data, their mathematical views, and what travels to viewers |
| `grid` | directions, neighbours, edges that wrap or wall off, and the flat view of a chunked world |
| `rng` | random numbers as a seed and a position in its stream |
| `genome` | copies of genomes with mutations |
| `sim` | the phases of a tick, one module each, the tick itself, the energy ledger, and what every tick keeps |
| `world` | building and planting a world |
| `state` | the server's state, its pacing, commands and requests |
| `persist` | snapshots, starting from them, and the steps of a save |
| `codec` | compressed frames for messages and snapshots |
| `digest`, `trial` | digests of worlds, and runs that show that a seed determines them |
| `text`, `tls` | seeds and other small texts; where the certificate comes from |
| `viewer` | what a viewer mirrors, shows and does with input |

## How a contract reads

A world is a sequence of cells by linear index (`grid::world_of`). Each phase of
a tick is a function from such a sequence to the next, stated cell by cell: what
becomes of a cell is said in terms of the cell and its neighbours before the
phase. `sim::tick::tick` puts the phases in order, and `mutate_world` is proved
to compute it. Mutation rates are whole numbers in units of 1/10000, so a seed
determines a run on every machine (`trial::lemma_same_seed_same_world`).

The random numbers come from `rand_chacha`, the compression from `zstd`. What is
believed of those crates is stated in `rng` and `codec`, next to each call.

## Running

    simulife server --start-running --world-file world.bin
    simulife viewer --server-addr 127.0.0.1:4433

The server starts paused unless it is told otherwise. In the viewer, `Space`
toggles the pause, `.` steps one tick, `1` to `5` switch layers and tints, `H`
hides the panels, and a right click opens the menu of a cell.
