# ToolBox

Portable, relocatable tool environments. An *env* is an ordinary directory of
programs, libraries and scripts. It can be copied to another machine or moved to
another path, and what is inside keeps working: wherever a file refers to the
env's own location it carries a sentinel, `__TOOLBOX_PREFIX__`, which is rewritten
to the current path. Packages come from OCI registries or from local directories.

## Layout

- `src/` is the library, written in Verus. Every rule of ToolBox is a function
  here with a contract, and the properties that span functions are proof
  functions whose names start with `law_`.
  - `relocate`, `bytes`: finding the sentinel, patching text and binary files.
  - `manifest`, `registry`, `tomlp`: the TOML+ files and what reads back of them.
  - `scan`: telling the sources that the parser can hold from those it cannot.
  - `activate`, `activation_vars`: activation scripts, PATH, value templates.
  - `commands`: installing, uninstalling, updating, pruning and configuring.
  - `run`, `service`: running tools, background services, restart policies.
  - `oci`, `dockercfg`: packages as artifacts, digests and credentials.
  - `env`, `installed`, `paths`, `report`: envs, install records, places, output.
  - `text`, `strmap`: strings and ordered maps that the rest builds on.
- `tests/` runs the library on concrete values.
- `app/` is the `toolbox` program around the library: the command line, files,
  processes and registries.

## What is trusted

Calls into other crates stand behind small functions whose contracts are stated
and not proved: parsing, validating and dumping TOML+ (`tomlplus-syntax`), OCI
references (`oci-client`), zstd, SHA-256, hexadecimal and base64 text. The doc
comment on each says what is claimed of it.
