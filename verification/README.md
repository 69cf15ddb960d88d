# FPS Unlocker

A menu bar program for macOS that lifts the frame rate limit of Roblox, with a verified core.

The program attaches to the player, finds the frame interval of its scheduler and the display
sync flag of its Metal layer, and writes to both until the user switches it off again.

The core decides everything and touches nothing: each search is a value that says what it wants
to know next and is then handed the answer. What such a value asks, and what it ends with, is
stated as a tree of questions and answers (`src/script.rs`) and proved with Verus.

- `src/script.rs`: questions and answers; what a search gives in a world that does not change,
  in one that it changes, and whatever it is told
- `src/memory.rs`: what is asked of a process, and the answers
- `src/region.rs`, `src/bytes.rs`, `src/text.rs`: address ranges, bytes, numbers as text
- `src/metal.rs`: which bit of a Metal layer is its display sync
- `src/cstring.rs`, `src/images.rs`: attaching, and the player's image
- `src/macho.rs`: the segments of that image
- `src/name.rs`, `src/jobs.rs`, `src/scan.rs`, `src/scheduler.rs`: the scheduler
- `src/layer.rs`: the display sync flag
- `src/run.rs`, `src/start.rs`: a run, and how it is started
- `src/effect.rs`: what a run does to the memory of a process
- `src/menu.rs`, `src/sign.rs`: the menu, and signing the player
- `src/error.rs`: errors and their messages
- `app/`: the menu bar program: system calls, the menu, and the judgement of floating-point
  frame intervals

To use it: close Roblox, choose "Resign Roblox", open Roblox, choose "Unlock FPS".
