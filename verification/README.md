# nix-ninja

A driver that runs the edges of a ninja build as derivations of the Nix store.
Every edge becomes a task: its inputs are gathered and uploaded, its command is
spelled so that it runs in a sandbox, and a derivation is put together whose
outputs later tasks can ask for.

`src/` is the library. It decides; it does no I/O. Every function in it carries a
contract that Verus proves. What has to be looked up on disk, in the environment
or in the store is handed to it as plain values.

| module | what it decides |
| --- | --- |
| `text`, `path`, `order`, `views`, `vars`, `sets`, `seen` | texts, paths by component, orders, variables, sets |
| `shapes`, `derived`, `outputs` | what a name says of a file, files and where they come from, what a command writes |
| `command`, `arguments`, `invocation`, `readers` | what command lines, scripts and documents ask for |
| `rewrite`, `climb`, `apart`, `encoding`, `outer` | paths respelled for the sandbox, how deep it has to be, stand-ins for the outputs of the enclosing build |
| `builddir`, `upload`, `closure`, `python` | what lies in a build directory, the bytes of an upload, walks over files that refer to others |
| `graph`, `runner`, `inputs`, `resources`, `task` | the build graph, the state of a run, a task's inputs, tasks and their results |
| `discovery` | the includes of a compilation |
| `derivation`, `fresh`, `assembly` | the derivation of a task, stage by stage, and the uploads that are replaced in it |
| `store`, `admission`, `progress` | store paths and programs, how many tasks may run, reports |
| `outside` | the calls into other crates, with what is believed of them |

Public proof functions state what holds of several functions together: that
restoring undoes rewriting, that a walk looks at each file once, that naming one
output of an edge places all of them, that the order in which inputs were met
leaves no trace, and so on.

`app/` is the driver around the library: file system, environment, threads, and
traits for the store, the build graph and the include scanners. `tests/` runs the
library on concrete values.
