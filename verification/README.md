# upbit_notice

Checks an Upbit notice for a phrase, and watches the Upbit notice list for
new notices to push to a Telegram chat.

- `src/` is the verified library: the text model (`text`), HTML-to-text
  rendering (`html`), reading a response (`scan`), the JSON document, its
  parse by serde_json and the searches in it (`json`), the checker's command
  line, URLs, choice of response and exit status (`cli`), decimal integers
  (`number`) and the watcher's decisions (`watch`).
- `app/` is the program around it: HTTP requests, printing, files,
  environment and the Telegram bot. Run under the name `telegram`, the
  binary is the watcher; under any other name it is the notice checker.
