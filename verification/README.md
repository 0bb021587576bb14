# AuraShell

A command-line shell with an agentic layer. The library under `src/` computes
and decides, and is verified with Verus; the program under `app/` does the
system calls, the line editing and the HTTP requests that the library asks for,
and hands back what came of them.

| Module | What it holds |
|---|---|
| `text`, `number`, `output` | characters, strings, lines, integers, what is written |
| `environment` | environment variables, in order |
| `tokenizer` | a line as tokens: quoting, escapes, expansions, operators, comments |
| `parser` | tokens as a script of pipelines joined by `;`, `&&` and `\|\|` |
| `descriptors` | redirections, and the wiring of the children of a pipeline |
| `jobs` | the table of background jobs |
| `executor` | the state of the shell, and pipelines and scripts step by step |
| `builtins` | `cd`, `pwd`, `echo`, `export`, `unset`, `jobs`, `source`, `help`, `exit` |
| `agent` | requests to the language model, and what its replies mean |
| `repl` | prompts, and the dialogs that a line of input leads to |

Whatever alternates between decisions and the system is a machine that is fed
with outcomes and gives the next thing to do: `execute_pipeline` for processes,
`execute_script` for scripts, `run_builtin` and its `finish_` functions for
builtins, `run_line` and `resume` for dialogs.

Contracts speak of models: a string is the sequence of its characters, an
environment a sequence of names and values, a script, a job table or a dialog
the structure of the same shape over sequences and integers. Laws that relate
several functions stand as public proof functions at the end of each module.
