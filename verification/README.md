# hunkle

hunkle splits the staged changes of a git repository into commits. It shows the
staged hunks one after another, and each hunk, or single lines of it, is assigned
to a commit that is created on the fly. Without a terminal, `hunkle dump` prints
the staged changes as JSON, and `hunkle apply` reads a plan and makes its commits.

The library under `src/` is verified with Verus. The program under `app/` draws
the screen, runs git and reads and writes JSON.

| Module | What it holds |
| --- | --- |
| `text` | text as sequences of characters, numbers, white space |
| `diff` | reading the diff that git prints |
| `model` | assignments, file contents, plans |
| `app`, `steps` | the interactive session, and what each key does to it |
| `ui`, `report` | what the screen shows, and what is said at the end |
| `headless` | what is shown without a terminal, tokens, requests |
| `backend`, `reading`, `committing` | the commands that read a repository and make commits in it |
| `diff_laws`, `plan_laws`, `count_laws`, `key_laws`, `session_laws` | what holds across functions |

Commands are not run by the library. A session (`ReadSession`, `CommitSession`)
says which command comes next, and takes what the command gave.

## Keys

| Key | Action |
| --- | --- |
| `n` | define a new commit and assign the hunk to it |
| `1`–`9` | assign the hunk to that commit |
| `0<id>` | assign by commit number: `01` is the same as `1`, commit 10 is `010` |
| `m` | change the commit order, and with it the keys |
| `v` | pick single lines (`space` toggle, `a` all, then `1`–`9` or `n`) |
| `s` / `h` | next / previous pending hunk |
| `j` / `k` | scroll down / up |
| `u` | unassign all lines of the current hunk |
| `d` / `enter` | go to the list of commits before they are made |
| `q` | quit |

Binary files are skipped and remain staged.
