# emailclient

The logic of an email client, in Rust with Verus contracts: reading messages,
talking to IMAP and SMTP servers, caching envelopes, and the background worker
and mailbox watcher that run it all.

The library under `src/` does no I/O. A backend, a conversation, a worker or a
watcher is a state machine: it says what to do next, is told what came of it,
and its contract says exactly what follows. `app/` holds the sockets, files and
threads that do what the library asks for.

| Module       | What it holds                                                  |
|--------------|----------------------------------------------------------------|
| `text`       | Characters: searching, splitting, trimming, numbers            |
| `codec`      | Base64, quoted-printable and UTF-8                             |
| `ffon`       | FFON documents, a message's structured bodies                  |
| `types`      | The values the rest works on                                   |
| `mime`       | Reading RFC 2822 messages and MIME bodies                      |
| `envelope`   | Message headers from FETCH results                             |
| `folders`    | Folders from LIST results                                      |
| `thread`     | Threads from THREAD responses                                  |
| `cache`      | The envelope cache                                             |
| `connection` | Server addresses, signing in, choosing a transport             |
| `raw`        | A minimal IMAP client for the THREAD extension                 |
| `imap`       | The IMAP backend                                               |
| `compose`    | Composing a message                                            |
| `smtp`       | The SMTP backend                                               |
| `worker`     | The background worker                                          |
| `idle`       | Watching a folder                                              |
| `http`       | Requests to the OAuth endpoints                                |

Each module ends with its laws: proof functions named `law_...` that state what
holds of the module as a whole, such as that a written message reads back, that
a moved message is never lost, or that credentials are never sent in the clear.

What other crates do is trusted, not proved. Every function that calls one is
marked `external_body`, and its documentation says what is claimed of the call.
