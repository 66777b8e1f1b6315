# cosmonaut

An operating system installer whose decisions are verified with Verus.

- `src/` is the library. Every command, step, refusal and page change of the
  installer is decided there, with a contract, and the laws that hold across
  functions are stated as `law_*` proof functions next to the code they speak
  of. The overview of the modules is in `src/lib.rs`.
- `tests/` runs the library on concrete disks, requests and sessions.
- `app/` is the program: it runs the commands, talks to the system bus, draws
  the wizard, and turns JSON into the library's types.

Work on the outside goes through plain values. The engine's `Pipeline` hands
out one order after the other and takes the reply; the partition planner does
the same with its stages; the wizard's `App::update` returns the effects of a
message. `app/` carries these out and hands back what came of them.
