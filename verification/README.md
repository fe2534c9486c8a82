# ircd

A small IRC server. The library (`src/`) holds its logic, verified with Verus:

- `parser` — IRC message lines (`[@tags] [:source] command params [:trailing]`) and
  IRCv3 message tags, with tag-value escaping;
- `transport` — cutting the incoming byte stream into lines and terminating outgoing ones;
- `server`, `handle_connection`, `commands` — what the server answers to each chunk a
  client sends (`MODE`, `QUIT`, `NICK`, `IRCVERS`);
- `config` — checking the listen addresses read from the configuration;
- `channels`, `connections` — the data kept about channels, members and users;
- `text` — character helpers shared by the above.

The program (`app/`) does the networking with tokio, reads the configuration files and
runs the connection loops, asking the library what to do at each step.
