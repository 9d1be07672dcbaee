# ctl460_rust

The decisions of a user-mode driver for the Wacom Bamboo CTL-460, verified with Verus.

`src/` is the library. Every function in it carries a `requires`/`ensures` contract that
Verus proves:

- `protocol`, `device_selection`, `tablet_mode`: decoding pen reports, choosing the pen
  collection, and the pen-mode handshake.
- `button_actions`, `captured_chords`: side-button actions and keyboard shortcuts, and
  bindings that only ever release input they pressed themselves.
- `profile`, `presets`, `calibration`: the checks of a pressure profile, the library of
  named presets, and guided calibration.
- `lifecycle`, `startup_wait`, `reading`, `status`, `live_config`, `options`: pen
  lifecycle events, start-up timing, command-line options and status text.
- `wintab`: the WinTab provider: the shared session (contexts, managers, routing of
  samples between processes), each process's packet queues, saved contexts and the
  information categories.

`app/` is the command-line program around the library: HID access, files, Windows input
injection, and the real-valued parts of profiles (curve shapes, filter ranges, screen
mapping).

`tests/` exercises the library on concrete values.
