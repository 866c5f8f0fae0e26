# tool_artifacts

Large tool results from the history of an agent conversation are spilled to
artifact files and replaced inline by a short, recognisable summary with a
head-and-tail preview; a tool reads them back by path or by call id.

- `src/` is the verified library (Verus):
  - `text.rs`: character-level models of text (`lines`, `replace`, white
    space, decimal and hexadecimal numerals, '/'-separated path joins);
  - `preview.rs`: UTF-8 character boundaries and the head-and-tail preview;
  - `spill.rs`: configuration, path components, artifact paths, digests and
    the inline replacement of one spilled result;
  - `compaction.rs`: which historical results are spilled, how the messages
    change once artifacts are written, and the laws of compaction;
  - `reading.rs`: the read-back tool's request, finding an artifact by call
    id, and line-range excerpts;
  - `interlang.rs`: the request-compression hook and its savings snapshot;
  - `message.rs`: the conversation model.
- `app/` holds the file system, process-wide counters and JSON around it.
- `tests/` runs the library on concrete values.
