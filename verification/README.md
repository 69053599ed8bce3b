# melon_player

The verified core of a desktop client for a music streaming service.

`src/` is the library, checked by Verus:

- `keystream` — the byte stream cipher that protects cached tracks: key
  scheduling, keystream generation, skipping ahead, and the content key
  built from a partial key.
- `aes`, `cbc`, `b64` — AES key schedules and block decryption, CBC
  decryption, and the base64 decoder that together recover a track's
  partial key.
- `decode` — the fixed key and initial vector, partial-key recovery, and the
  set-up of the stream cipher for a track.
- `player`, `song` — the playback state machine and its queue.
- `json`, `service` — the service's replies and what the player does with
  them: chart queues, stream plans, decrypted chunks, title checks.
- `login` — the local login server's answer to each request and the values
  of the login redirect.
- `media`, `text` — song tags and base64 audio; text helpers.

`app/` is the desktop shell around it (windows, audio output, network and
file access), and `tests/` runs the library on concrete values.
