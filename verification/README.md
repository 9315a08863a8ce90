# MassiveEQ

MassiveEQ is a system-wide playback equalizer for PipeWire: a user service
places a filter in front of each output that has an equalizer profile
assigned, and a control tool and a tray icon switch profiles and bypasses.

## Layout

- `src/` is the library, written in Verus and proved against its contracts:
  - `text`, `decimal`: text helpers over character sequences, and numbers as
    profile text writes them: decimals held exactly to 19 significant digits,
    infinities and NaNs;
  - `model`, `parser`, `session`: the profile model, one line of Equalizer APO
    text, and a parse that reads `Include:` files through its caller;
  - `devices`, `discovery`, `keyed`, `library`: outputs and their storage keys,
    the outputs of the PipeWire graph merged with the remembered ones, and the
    saved library (profiles, assignments, bypasses, comparison banks);
  - `filters`, `pipewire`, `compile`, `storage`: which outputs get a filter,
    under which names and when it is restarted, the PipeWire filter-chain
    configuration that places it in front of its output, the checks made
    before a profile is compiled, and where profiles and their audio files live;
  - `control`, `ui`: the command line of the control tool and what the tray
    and the editor show;
  - `laws`: properties that relate several of the functions above.
- `tests/` exercises the library on concrete values.
- `app/` is ordinary Rust around the library: file and process I/O, the D-Bus
  service and its clients, the tray icon, and the floating-point analysis and
  DSP, including the numbers that the filter configuration carries.
