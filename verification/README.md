# `vosd` (volume OSD)

`vosd` is a volume OSD for Linux (uses GTK). It listens to volume change events from PulseAudio
and displays a volume OSD when a volume change has been detected.

```
Usage: vosd [OPTIONS]

Options:
  -d, --daemon   Run as a daemon
  -h, --help     Print help
  -V, --version  Print version
```

## Layout

`src/` is a library, verified with Verus, that decides what the program shows and when:

- `json`, `missing`, `sinks`, `gather`: what is read of the default output sink, and how often the
  sinks are asked for.
- `subscription`: which events matter, and which readings are passed on.
- `double`, `double_order`, `volume`: the share of the base volume in binary floating point worked
  out on integers, and its icon and percentage.
- `window`, `osd`, `screen`: what each window does about a reading, which windows there are, and
  what is seen of them.
- `daemon`, `tasks`, `notices`, `report`, `error`, `text`: becoming a daemon, shutting down,
  and the texts of the program.

`app/` performs what the library decides: it runs `pactl`, the tasks and GTK.
