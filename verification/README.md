# warden

A config-driven terminal multiplexer. One TOML file lists windows and the
project tabs inside them; warden builds its windows from that file and brings
them in line with it whenever it is saved. The logic is written in Verus: what
each function returns or changes is stated in its contract and proved.

## Layout

`src/` is the verified library.

| Modules | What they hold |
| --- | --- |
| `raw`, `resolve`, `model`, `load`, `colour`, `paths`, `text` | The configuration: as it is written, and as it resolves |
| `fmt`, `nesting`, `cli`, `watch`, `login`, `session`, `scanner` | The house style of the file and how deep a file nests, the command line, what is watched, the login environment, remembered tabs, discovered projects |
| `reconcile`, `plan`, `menu` | The difference between two configurations, and the windows, labels and menu rows that come of one |
| `registry`, `surface`, `ffi`, `input`, `notify` | The terminals of one window, and what passes between them and the application |
| `manager`, `lifecycle`, `popout`, `birth`, `commands` | All windows together: building, reopening, popping tabs out and back, and what the chrome asks for |
| `presence`, `probe` | What is known of each tab's session, and when to look again |
| `*_laws` | What holds across several operations: invariants, undoing, and that what is on screen is what the configuration lists |

`tests/` runs the library on concrete values. `app/` is the `warden` command
(`warden validate`, `warden fmt`) and everything that reads the disk, starts
processes or computes in floating point. A desktop shell implements its
`Desktop` trait and hands itself to `desktop::run`.

## What is trusted

The library believes, without proof, the contracts of the few calls that leave
it: `String::push`, `str::trim` and string equality of the standard library,
`Path::exists`, `dirs::home_dir`, and `taplo::formatter::format`. Each stands in
one small item whose comment says what is claimed of it. Nothing is claimed of
what the home directory is or of which directories exist, and the layout that
taplo gives a document has a name but no definition. A document is handed to it
only where it is short enough and nests values moderately.
