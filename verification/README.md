# qrctrl

Turns a phone into a remote control for a PC: the PC shows a QR code, the
phone opens the encoded URL and sends text, keys, mouse moves, clipboard
contents and files over HTTP and a WebSocket.

## Layout

- `src/` — the verified library (Verus). Every function carries a contract.
  Verus proves all of them except the contracts of the small wrappers that
  call std or an outside crate (marked `#[verifier::external_body]`), which
  are trusted as they state what that code does:
  - `token`, `state`: access tokens and request authorization;
  - `ws`: the WebSocket protocol — command dispatch, replies, text truncation;
  - `file_transfer`: safe upload names, conflict renaming, download headers,
    the one-shot transfer registry with expiry, the upload size limit;
  - `clipboard`, `backend`: image payloads (base64, PNG) and error codes;
  - `net`: LAN address filters, virtual-adapter detection, interface
    selection and subnet preference;
  - `qr`: QR rendering to pixels and to terminal lines;
  - `config`, `api`: configuration validation and merging, the configuration
    page's JSON API;
  - `startup`, `assets`, `tray`: start-up decisions, the home page, the tray's
    reactions to events;
  - `text`, `json`: character-level helpers and JSON string escaping.
- `tests/` — tests of the library, run against the compiled crate.
- `app/` — the executable around the library: command line, configuration
  file, sockets, the axum server, keyboard/mouse/clipboard access and the
  system tray.
