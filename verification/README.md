# chatbot

A local chatbot that answers questions about your own files, in the browser or in the
terminal. It talks to a local Ollama and to nothing else.

The deciding part is a library written in Verus, under `src/`. Disk, network and terminal
are the program under `app/`, which carries out what the library decides and reports back
what came of it.

| module | job |
|---|---|
| `governance` | what may be indexed and what counts as evidence: the knowledge store, the budget, refusals with a code and a remedy |
| `files` | which files and folders are worth reading; the walk, the folder picker, the survey |
| `tree` | what a walk through a whole folder tree promises |
| `chunking` | cutting text on paragraph and line boundaries, with overlap |
| `indexing` | an index request, step by step: admission, survey, budget, reading, embedding |
| `knowledge` | the index, and what it brings up for a question |
| `chat` | one turn of the conversation: grounding, request, history |
| `ollama` | messages, and putting a streamed reply together |
| `command`, `repl` | the terminal session |
| `web` | what the page is told |
| `startup` | flags, settings, notices |
| `error` | how failures are represented |
| `text`, `paths`, `single`, `order` | strings, Unix paths, single-precision numbers and sorting, each with its mathematical meaning |

Every function says in its `ensures` what it returns. Properties that span several functions
are the proof functions whose names start with `law_`.

Three conventions are worth knowing before reading on:

- A path is a sequence of bytes. What is on disk reaches the library as values:
  `StoreLookup`, `FolderLookup`, `Entry`.
- A similarity score is a `Single`, the bit pattern of a 32-bit float. The library orders and
  prints such numbers; multiplying and adding them is the program's part.
- Reading only happens inside the folder `knowledgestore` of the working directory. Create it
  before the first start.
