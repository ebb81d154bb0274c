# keyjar

A minimal stash for API keys and small secrets, built for shells and scripts.
Entries are individual [age](https://age-encryption.org) encrypted files under a
store directory; the key lives apart from it. Unix only.

The library in `src/` touches no file: it says which files to read, takes in what
was found, and answers with what to say and the changes to make. It
is written in Verus, and each function is proved to do what its contract says.
The program in `app/` puts the steps of each command in order, takes the store
lock that each needs, reads and writes the files, and talks to the terminal.

| Module | What it decides |
| ------ | --------------- |
| `name`, `order` | which names are valid, and how they sort |
| `env` | variables for names, and quoting for the shell |
| `paths`, `components` | where the store and the identity live, and what is within what |
| `crypt`, `identity` | keys, encryption, and the identity file |
| `host`, `plan` | what was found on disk, and what is to be changed |
| `store`, `walk` | which file is which entry, and who may read and write it |
| `consent`, `commands`, `output`, `edit`, `rekey` | the commands |
| `tty`, `text`, `error`, `cli` | input, text, messages, invocations |
| `disk`, `layout`, `laws`, `finding`, `rotation` | a model of the disk, and what holds of a store on it |

The outside calls that the proofs rest on are in `crypt` (the age library) and
`text` (text and UTF-8 of the standard library), each with what is assumed of it.
