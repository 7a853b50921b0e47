# petrel_mime

Charset decoding for a mail client, verified with Verus.

- `charset`: which labels are decoded here, vendor label aliases
  (`alias`), and the fallback for labels nobody can place.
- `legacy_cjk`: ISO-2022-KR, ISO-2022-CN(-EXT) and HZ-GB-2312, which the
  Encoding Standard refuses, as state machines over their escapes that hand
  the double-byte pairs to `encoding_rs` tables.
- `utf7`: UTF-7 (RFC 2152), fully specified and proved.
- `encoded_word`: the RFC 2047 encoded-word rewrite applied to a message's
  top-level header block (up to its first blank line) before parsing.
- `reindex`: the decisions of background re-extraction, as step functions.
- `tables`, `base64_text`, `text`: the calls into `encoding_rs`, `base64`
  and std that the proofs rest on, and shared character helpers.

`app/` holds the async loops that carry out re-extraction with `tokio`. It
also hands callers that want an `encoding_rs` object for a `Table` the
encoding it names; `tables` makes the same choice inside its own calls,
where the library decodes.
