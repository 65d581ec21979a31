# wlroots-bridge

A one-shot command line bridge between desktop automation and wlroots compositors
(Sway, Hyprland, Niri): screens, screenshots, windows and pointer input over Wayland,
with JSON results.

- `src/` is the logic, verified with Verus: what is bound, what events mean, how pixels
  are decoded, cropped and scaled, which pointer steps an action takes, when a wait ends.
  Scaling and dragging are defined by double-precision arithmetic; `double` carries it out
  on integers and `rounding` says what it means on real numbers.
- `app/` is the program around it: the Wayland connection, shared memory, processes,
  the command line and JSON.
- `tests/` run the library on concrete values and against the machine's doubles.

Two calls are trusted, both in `src/capture/encode.rs`: base64 and JPEG encoding.
