# ttrack-pro

A recorder for terminal sessions on Linux, with a daemon that keeps the sessions of all users
encrypted in a central store. What the program decides and computes is a library that Verus
verifies; the program around it reads, writes and prints.

## Layout

- `src/` is the library. Each function states in its contract what it computes, over sequences of
  characters and bytes. What holds across functions is proved by the functions named `law_...`.
  - `crypto`: the encrypted stream format, current and legacy, and the key.
  - `cast`: recordings, line by line.
  - `store`: the local directory and the central store: listing, finding, taking in, reading.
  - `audit`: searching, listing, following, playing and pruning what is kept.
  - `daemon`: what the daemon answers, and the sessions that are being recorded.
  - `record`: what is run, and where a recording goes.
  - `auth`: the passwords that guard playing and pruning.
  - `config`: defaults, configuration file and environment.
  - `ansible`, `incoming`: reports of Ansible runs, and the traces that runs leave in sessions.
  - `text`, `format`, `path`, `order`, `seconds`: strings, columns, paths, sorting and times.
  - `outside`: what is taken from the standard library and from other crates, and what is believed
    of it without proof.
- `app/` is the program: `ttrack`, and under the name `ttrackd` the daemon.
- `tests/` runs the library.

## Usage

```text
ttrack rec [-q] [-o file] [cmd...]        record a command or a shell
ttrack play [--speed N] <file|id>         play a recording
ttrack ls [--all | --user <name>]         list recordings
ttrack tail [-n N] <id>                   show the last lines of a session
ttrack tail -f <id>                       show a session that is being recorded
ttrack search [--user U] [-i] <pattern>   search the recordings
ttrack export [-o file] <id>              write a central session in plain
ttrack tree                               show users and sessions
ttrack prune [--yes]                      remove the central sessions older than thirty days
ttrackd                                   receive sessions and keep them encrypted
```

Default paths:

```text
socket:       /run/ttrackd.sock
central dir:  /var/lib/ttrack
key file:     /var/lib/ttrack/.ttrack.key
local dir:    ~/.local/share/ttrack
config:       /etc/ttrack/ttrack.conf
```
