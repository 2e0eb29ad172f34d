# auralink

The verified core of AuraLink, a Wi-Fi, VPN and Bluetooth manager for Linux
that drives `nmcli`, `bluetoothctl`, `busctl`, `pactl` and `dbus-send`.

The library (`src/`) decides which helper programs to run with which
arguments and reads what they print. It never starts a program itself: each
function that needs one takes a `Runner`, which wraps a closure from an
`Invocation` to the program's `ProcessOutput` and notes every run in a ghost
history. Each contract states the exact runs the function appends to that
history, in order, and what it makes of every possible answer.

- `text`, `order`: character-sequence primitives (`str::lines`,
  `split_whitespace`, `find`, integer parsing) and a stable sort.
- `process`: invocations, outputs and the runner conventions.
- `bluetooth`, `bt_info`, `bt_devices`, `bt_trust`, `audio`: Bluetooth
  operations, `bluetoothctl info` parsing, battery discovery, trusted-device
  discovery over D-Bus, audio profiles.
- `nm`, `nm_ops`: Wi-Fi scanning, VPNs and saved-connection settings.
- `daemon`: one round of the auto-connect daemon and of the window's
  connection monitor, with a per-device retry cooldown.
- `cli`, `theme`: the command lines, the status-bar summary and the pywal
  palette.

`app/` is the program around it: it starts the helpers, prints JSON and runs
the daemon loop. It is `auralink-bt` when started under that name and
`auralink` otherwise.
