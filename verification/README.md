# ccs

Lists the coding-assistant sessions of a machine: the state of each, when it was last active and
how the sessions nest by working directory.

The library under `src/` is verified with Verus. The program under `app/` reads session files,
transcripts, processes and the clock, hands what it finds to the library and prints the answer. The
environment variable `CCS_DIR` names the assistant's directory, in which `sessions/` holds the
session files and `projects/` the transcripts.

| module       | what it holds                                                        |
|--------------|----------------------------------------------------------------------|
| `text`       | text as characters: searching, trimming, lines, decimal numbers      |
| `time`       | points in time, spans, and how both are read and written             |
| `json`       | JSON values                                                          |
| `order`      | stable sorting by a key                                              |
| `transcript` | what a transcript shows of its session                               |
| `session`    | sessions, put together from files, transcripts and processes         |
| `tree`       | sessions nested by working directory                                 |
| `forest`     | what holds of every such nesting                                     |
| `paint`      | labels of states, plain and coloured                                 |
| `render`     | the table and the JSON that are printed                              |
| `query`      | filters, selection and the whole answer                              |

Names that begin with `law_` are the properties that hold of the library as a whole.
