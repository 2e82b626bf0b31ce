# how2cli

Natural language to shell command: `h list all docker containers` asks an
OpenAI-compatible model and prints the command with a short explanation.

- `src/` is the library, verified with Verus: the system prompts, the reading
  of the model's reply, the base-command matching of the test bench, the
  session history format, configuration precedence, endpoint and reply
  handling of the API, and the decoder of streamed (server-sent event)
  answers. Each public function states its result exactly; the laws of the
  library (setup loses no setting, as long as loading still sees the
  variables the wizard saw; an exchange appended to a session file that is
  empty or ends with a line break comes back as the last pair; a reply in the
  prompted format reads back exactly, a leading `sudo` does not change what
  a command matches, chunking of a stream does not matter, ...) are proof
  functions beside the code.
- `app/` is the program around it: command-line parsing, HTTP requests,
  files, the terminal and the setup wizard.
- `tests/` runs the library on concrete values.
