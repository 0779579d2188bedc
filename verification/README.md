# qex

qex (Queued EXecutor) is a job queue for long tasks on a local machine.

`src/` is the library: the rules of the queue as verified Verus code. Each
module states in its contracts what its functions give for every input, and the
public proof functions named `law_*` state what holds of the library as a whole.

| Module | What it decides |
| --- | --- |
| `text`, `units`, `stamp` | texts, sizes, times and dates |
| `pattern`, `logsel` | the search in a log, and the lines that a command shows |
| `logcap` | the limit on the output of a job: the head, the circular tail, the counts |
| `job`, `state`, `ids` | the records of the jobs, and their ids |
| `events` | the numbered events, and the stream that loses nothing in silence |
| `deps`, `lifecycle` | which jobs a command stops, and which records it deletes |
| `pause`, `pause_view`, `pause_text`, `context` | the requests that pause the queue, and what a reader learns of them |
| `paths`, `socket`, `system` | where the files are, and who listens at the socket |
| `peers` | the claims of the other coordinators of the machine |
| `pipeline`, `fanout` | the files that describe several jobs |
| `history`, `hook`, `enforce` | removed jobs, the command at the end of a job, kills for memory |
| `keys`, `help`, `completions`, `summary` | the terminal, the help texts, the shell |

The library does no input or output. `app/` is the program around it: it reads
the command line, the disk, the terminal and the socket, hands plain values to
the library, and does what the library decides.

What the proofs take as given about outside code stands in four places:
`text` (`String::push`), `ids` (the `uuid` crate), `system` (the constants of
`libc`) and `fanout` (`str::from_utf8`).
