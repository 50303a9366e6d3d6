# flatland

A verified library for a text-first PCB design tool: project data, design
rules, netlist editing, the pin-to-pin router's search, the Specctra and
Gerber/Excellon text formats, and the checks that trace written Gerbers back
to the netlist.

- `src/` is the library, written in Verus. Every function there carries a
  contract that Verus proves; the few calls into outside crates (Clipper2
  polygon operations, BLAKE3, the clock, a Unicode lower-casing) go through
  small wrappers whose contracts are stated next to them.
- `tests/` runs the library on concrete inputs.
- `app/` is the command-line program around the library: argument parsing,
  files, JSON, and the floating-point geometry (offsets, arcs, areas).
