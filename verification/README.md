# pullcept

The rules of a conversation room shared by a person and several CLI sessions: who may
speak and what they have to read first, how topics are kept, how a session is launched
into a topic, and what it reports.

`src/` is a Verus library. Every function states what it returns or changes, and the laws
that span functions are public proof functions whose names begin with `law_`.

| module | what it holds |
| --- | --- |
| `floor` | the order of posts, and who is refused |
| `room`, `delivery`, `connection`, `frames` | rooms, seats, posts and the frames of a socket |
| `hooks`, `percent`, `hook_request` | the addresses sessions report to, and their requests |
| `topics`, `prose` | the index of topics and the lines of a log |
| `flags`, `line`, `cli`, `settings`, `server_name` | the arguments a session is launched with |
| `registration`, `migrate`, `config` | `.mcp.json`, saved accounts |
| `session`, `seats` | which line runs, whether it may, and who holds a seat |
| `clock`, `ids`, `json`, `text`, `text_map` | what the rest is built from |

`app/` is the program around it: the window, the socket, the terminals and the files. The
name of the CLI that is launched is taken from the environment, as `PULLCEPT_CLI_COMMAND`
and `PULLCEPT_CLI_NAME`.
