# petri

A Petri net player for the terminal, with a verified core.

Load a net from a plain text file, watch the marking, fire transitions by hand
or let a random run resolve the conflicts, and analyze the reachable state space
for deadlocks and place bounds.

    petri                     play the built-in net
    petri net.txt             play the net of a file
    petri --analyze net.txt   print the analysis; exit code 2 on a deadlock

## The net format

Two line shapes matter, all else is ignored:

    lock = 1                    place with initial tokens
    enter: idle lock -> crit    transition (repeat a place = weight)

A `#` begins a comment.

## Layout

`src/` is the library; Verus proves all of it. `app/` is the program around it:
arguments, files, the terminal. `tests/` runs the library.

| module | holds |
|---|---|
| `text` | characters, words, numerals, padding |
| `net` | nets, markings, the firing rule, conflicts |
| `parse` | the net format |
| `visited` | the set of markings that a search has met |
| `analysis` | breadth-first exploration up to a cap |
| `report` | nets, markings and analyses as text |
| `rng` | the generator of the automatic run |
| `app` | a session: marking, history, selection, log, keys |
| `screen`, `layout`, `style` | what the panes show, and where |
| `cli` | the command line: arguments, the printed analysis |
| `demo` | the built-in net |
| `firing`, `format`, `reach`, `legible`, `session` | laws |

## What is trusted

Contracts that are believed rather than proved stand on a few calls: the colour
codes of the terminal library (`style`), the clock (`rng`), and `String::push`
(`text`).
