# dtm

dtm, d(o)t(file)m(anager), manages dotfiles on Unix systems: a package
directory holds one directory per configured path (`home`, `config_home`, ...),
and `dtm stow` links each package file to its place below that path, rendering
`.tmpl` files with the configured variables. `pack` moves existing files into a
package, `rm` removes an installed package, `restore` puts back the files that
`stow --backup` moved aside, and `config` edits the runtime settings.

The decisions are a library verified with Verus (`src/`); the program around
it (`app/`) reads the file system, the environment and the terminal, hands the
library plain values, and carries out what it decides.

## Layout

- `src/text.rs`, `src/path.rs`: characters and Unix paths as sequences of
  components, with the orders and joins that `std::path` uses.
- `src/values.rs`: name-to-text maps kept in name order.
- `src/resolve.rs`, `src/config.rs`: evaluating the configuration file
  (`${name}` and `${$ENV}` references, predefined `home` and `root`, runtime
  directories, the default file location).
- `src/config_update.rs`: rewriting one key of the `config` section while
  keeping the rest of the file.
- `src/package.rs`: loading a package, templates, installing, removing,
  backup paths and restoring.
- `src/pack.rs`: choosing package paths for files to pack, checking the
  result of a pack, and what a failed pack undoes.
- `src/interactive.rs`: the tree of files offered by `pack -i`, its keys and
  its rows.
- `src/cli.rs`: the command line and its usage text; each error type has a
  `message` that words it.
- `app/`: `main`, file-system and terminal work, printing.
- `tests/`: tests of the library on in-memory listings and observations.
