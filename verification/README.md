# copilot-agent

A verified library that reads the output of the GitHub Copilot agent, and the
Basalt plugin around it.

The agent prints one JSON object per line. For each line the library gives the
events that the host shows: a tool call or a message opens an entry, text is added
to it, a tool call is closed with what it printed, the session is over. Between
two lines the host keeps the parser's state as a few bytes.

`src/` is the library. Every function states in its contract what it returns, over
sequences of characters and bytes, and Verus proves that it does.

- `text`, `search`, `split`: characters and strings, searching, trimming, splitting.
  `text` holds what is taken from std on trust.
- `json`: single values out of a line of JSON.
- `state`: the open tool calls and the open message, and their byte form.
- `shell`, `tools`: label, category, files and raw command of a tool call.
- `events`, `metadata`: what the host is told, and how it starts the agent.
- `agent`: what one line does.
- `session`: what holds of two lines that belong together, and of all the lines of
  a session.

`app/` is the plugin: the entry points that the host calls, which need the plugin
SDK of the host. `tests/` runs the library.

A value is found by its key: the first place where the key stands between double
quotes, and the first colon after it. A string is read to its closing quote with
its escapes replaced, and an object to the brace that closes it, where braces
inside strings do not count. In an object that is cut short, so that a string in it
or the object itself is never closed, every brace counts.

There is one kind of line that the library does not take: one that begins a call of
a tool it does not know, whose arguments hold neither a command nor a path and whose
byte 120 falls inside a character. `agent::can_parse_line` tells, and the plugin
asks it first.
