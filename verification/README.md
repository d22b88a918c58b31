# workstation

Looks after a macOS workstation: what fills the disk and what of it may be
emptied, which display sits where, which packages and apps are installed and
what an app leaves behind, which Android device is meant, and the audio bridge
that takes the echo out of a call.

- `src/` holds every rule: parsing, planning, sweeping, matching, arranging.
  Each function states what it returns and is proved to. Functions named
  `law_…` state what holds across several of them.
- `app/` asks the system and carries out the answers: the command line, files,
  processes, Core Audio, and the floating-point signal processing.
- `tests/` runs the library on concrete values.

What is taken on trust is marked `external_body` or `assume_specification`, in
`src/text.rs` and `src/json.rs`: a few string functions of the standard library,
and reading JSON with `serde_json`.

How the coding assistant of a machine goes by is told in the environment:
`WSCTL_ASSISTANT_TITLE` is its name, and `WSCTL_ASSISTANT` the name of its
directories. Either is `assistant` where it is not set.
