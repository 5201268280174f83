# claude_tools

Small command-line tools for people who run coding sessions all day: scheduled
loops that stop when they break, a message bus between sessions, a registry that
keeps two sessions out of one working tree, and two audits of what is installed.

The rules that the tools go by live in `src/`, a library that is verified with
Verus: every function there carries a contract, and what holds of the tools as a
whole (that a halted loop stays halted, that a checkpoint is never overwritten,
that only old messages are archived, that a forged message is not shown, ...) is
stated and proved as a law beside the functions it is about.

| module | what it holds |
|---|---|
| `text`, `letters`, `lists`, `paths` | texts as sequences of characters, and what is done with them |
| `json`, `clock`, `package` | documents, points in time, the names of the tools |
| `double` | arithmetic with 53 binary digits, as processors round it |
| `loops` | prompts, intervals, the journal of a loop, pausing, the error sentinel and its mail |
| `mesh` | nodes, messages, signatures, delivery, the archive, presence, and the monitor |
| `session` | the registry of sessions and their worktrees |
| `budget`, `skills` | the fixed part of a prompt; the number of skills |

`app/` is the program around it: it reads arguments, files and the clock, runs git,
draws the screen, and hands plain values to the library. `tests/` runs the library.
