# tm

Turing machine programs and static deciders for their behaviour, with
contracts proved by Verus.

- `instrs`, `prog`, `text`: instructions, program tables and their text form.
- `macros`: block and back-symbol macro machines.
- `graph`: the transition graph and its abstract analyses.
- `run`: runs from the blank tape, and the laws that tie the forward
  analyses below to them.
- `bkw`: backward reasoning from halting, blanking and spinning-out
  configurations, with the forward over-approximations that prune it:
  `windows` (three-cell windows with tallies), `sides` (whole-side colors
  and pairs), `prefixes` and `prefix` (side prefixes), `tails` (colors
  beyond the neighbors), `joint` (whole-side blank or dirty status),
  `excursions` and `pops` (one-sided returns and the colors they leave),
  `halfblank` (checkpoints with one side blank, and fresh frontiers),
  `cycle` (the history of growing edges that the second backward pass
  cuts), and `sound` (what the side filters keep of a configuration of
  the run).

Each forward analysis is a least fixed point computed by a worklist; its
contract states exactly which facts it holds.
