# toolbox

An MCP tool server (JSON-RPC over stdio) whose core is verified with Verus.

- `src/` — the verified library: line-aligned chunking with exclusive zones
  (`chunk`), stable top-n ranking (`rank`), LLM triage planning, region
  validation and reports (`triage_doc`), line search (`search_doc`), paged
  reads (`read_doc`), fetch replies (`fetch_url`), document ids (`store`),
  man-page rules (`man_page`), web result rendering (`search_web`), the JSON
  object of a model reply (`llm`), request routing (`server`), and shared
  text helpers (`text`). Laws are public proof functions named `law_*`.
- `app/` — the program around it: stdin/stdout loop, JSON-RPC types, HTTP,
  the `man` subprocess, the document store on disk, and the model calls.
- `tests/` — tests of the library on concrete values.
