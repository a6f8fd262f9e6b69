# skat_blend

A library, verified with Verus, for the Skat card game and for reading
Blender `.blend` files, with a few small programs around it.

## Layout

- `src/` — the library, verified by Verus. The few functions that call
  outside code are trusted instead (see below); one of them, which draws a
  random number, states nothing of its result.
  - Skat: `cards`, `orders`, `arrange`, `rules`, `players`, `deal`,
    `bidding`, `round`, `scoring`, `display`, `text`, `replay`.
  - Blender files: `blend`, `sdna`, `platform`.
  - Numbers: `numbers`, `sums`.
- `tests/` — tests of the library on concrete values.
- `app/` — the programs, which do the input and output and call the library:
  - `skat`: a game for three players at one terminal; `-i FILE` replays a
    recorded game and writes the reconstructed distribution of the cards,
    `-r` records a game played at a table;
  - `blend2render FILE`: prints the header of a Blender file and its
    cameras, objects, materials and meshes;
  - `read_blend_file FILE`: lists the blocks of a Blender file with its
    structure description;
  - `simple_ray_tracer`: draws three spheres with characters;
  - `thread_sum_div`: averages random numbers in three ways, first in one
    task, then in several.

The first argument of the program in `app/` names which of these runs.

## What the library relies on

The library calls `rand` (to shuffle the deck, to choose the first dealer
and to draw random values) and `ansi_term` (to paint cards in colour)
through small functions whose contracts are taken as given; their doc
comments say what they claim. Whether the machine stores numbers least
significant byte first is decided from what `u16::to_le` makes of the
number one: 1 on a little-endian machine, 256 on a big-endian one.

Files that cannot be read through (a code cut inside a character, a kind
out of its range, a body shorter than its struct, or, for the listing, a
read that finds too few bytes) are not given to the readers: the programs
first ask `can_read_blend_file` or `can_list_blend_file` and stop there.
