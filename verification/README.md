# rs_dotfiles

A symlink manager for a dotfiles repository. The library in `src/` holds the
rules, each function with a contract that Verus proves; `app/` is the
`dotfiles` program that reads files, makes symlinks and prints.

- `table.rs`: association lists in insertion order and the `Mappings` table.
- `defaults.rs`: the built-in mappings of `windows`, `unixlike`, `linux` and `darwin`.
- `mappings.rs`: checking, `~`-expanding and merging configured mappings over
  the defaults (`get_mappings`), and the single-link decisions
  (`create_link`, `get_link_source`).
- `paths.rs`: Unix path rules: joining, components, prefix, equality, order.
  Windows separators and prefixes are not modelled, so `list` and `clean`
  recognise links only on Unix-like systems.
- `util.rs`: `~` expansion; the one call into `directories` for the home directory.
- `repository.rs`: the repository path.
- `commands/link.rs`: the link command as a state machine (`execute`).
- `commands/clean.rs`: the clean command as a state machine (`execute`).
- `commands/list.rs`: the sorted, de-duplicated listing.
