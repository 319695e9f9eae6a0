# luaux-lsp

A language server for [LuauX](https://github.com/luau-xml/luaux), JSX syntax in
Luau, whose logic is verified with Verus.

`src/` is the library. It holds everything the server decides: where a position
in a `.luaux` file stands in the Luau it compiles to, what a message on the wire
says, what to answer to a completion, a hover, a rename, and what a workspace has
to compile again. Every function there states what it returns, and every promise
that spans functions is a proof function whose name starts with `law_`.

| Modules | |
| --- | --- |
| `text`, `pieces`, `prose`, `decimal` | texts as bytes and characters |
| `json`, `jsonrpc`, `messages` | values and framing on the wire |
| `line_index`, `document` | positions, ranges, edits, open documents |
| `sourcemap`, `map_builder`, `remap` | from source to output and back |
| `syntax`, `regions`, `holes`, `tree`, `bindings` | the markup of a file |
| `luau`, `snags` | what the Luau parser and the compiler can be given |
| `settings`, `classes`, `naming`, `resolving`, `project` | how a project writes Roblox's names |
| `api`, `parameters` | Roblox's own definitions and documentation |
| `scan`, `completion`, `hover`, `rename`, `code_actions`, `symbols`, `semantic_tokens` | what an editor asks for |
| `analysis`, `walk`, `workspace`, `versions` | compiling, one file and all of them |

The compiler, `luaux`, and `serde_json` are called through functions marked
`#[verifier::external_body]`. What those claim is not proved; each says so above
its signature.

`app/` is the program around the library: arguments, streams and the file system.
