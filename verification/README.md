# gfh

A helper for signing git commits with resident SSH keys held on several FIDO
devices. A key file maps each device's serial number to the SSH key that
lives on it (`<serial>::<key path>` per line, with comments and blank lines
kept); git asks `gfh` for the key, and `gfh` answers with the key of the first
connected device that the file maps, loading it into the ssh-agent if needed.

Layout:

- `src/` — the verified library (Verus): the key file model, its reader and
  writer (`config`), the laws that relate them (`laws`), the device model and
  serial handling (`device`), the signing decisions (`signing`), the listing
  text (`listing`) and the character-level text rules they share (`text`).
- `app/` — the command-line program around it: argument handling, files,
  device enumeration over HID and PC/SC, prompts and `ssh-add`.
- `tests/` — tests of the library on concrete values.
