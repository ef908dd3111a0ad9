# soundcore_lib5_core

Control logic for Soundcore Liberty 5 earbuds, verified with Verus.

The earbuds are controlled over Bluetooth Classic RFCOMM with the Soundcore
v1 frame (`08 ee 00 00 00 | command u16-LE | length u16-LE | payload |
checksum` from the host, `09 ff 00 00 01 ...` from the device).

## Layout

- `src/frame.rs` — building host frames, extracting device frames from a
  receive buffer, the incremental frame reader; round-trip and chunking laws.
- `src/profile.rs` — the command profile (command codes and hexadecimal
  payloads), its validation and lookups; the embedded Liberty 5 profile.
- `src/device.rs` — noise control modes, battery and device information
  decoding, request building, acknowledgement checks, the retry rule.
- `src/finder.rs` — naming, filtering, merging and selecting discovered
  devices; the paired-device listing.
- `src/gatt.rs` — GATT characteristic properties and snapshots.
- `src/cli.rs` — helpers of the command line tool (hex text, command codes,
  confirmation).
- `src/hexcode.rs`, `src/text.rs` — hexadecimal and text helpers, and the
  trusted calls into `hex` and `str::trim`.
- `app/` — the Windows I/O shell (RFCOMM sockets, btleplug discovery, GATT,
  the `scanner` command line tool and the Tauri desktop shell).
- `tests/` — tests against the compiled library.
