# oracle_postprocess

Finds compiled Lua bytecode in script files and Roblox place files, has it decompiled by a remote
service, and writes the answers back into the document.

- `src/` is the library, verified with Verus. It decides what is to be done, and does no input
  or output.
  - `bytecode` recognises compiled code and finds it in text; `compiled` takes it from a file.
  - `decompiler::queue` keeps the requests: which bytecode is sent next, what is in flight, and who
    waits for which answer. `decompiler::transport` says what to do next on the connection.
  - `rbxlx::boundary` turns any bytes into text that XML allows; `rbxlx::document` and
    `rbxlx::cdata` say how each part of a document is written.
  - `outside` holds every function of another crate that the library calls, with what is taken for
    granted of it.
- `app/` is ordinary Rust around it: files, the connection, the XML parser and writer.
- `tests/` run the library.
