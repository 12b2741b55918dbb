# octo (verified core)

The logic of the octo wallet service, written in Verus with contracts that are proved:

- `src/amount.rs` — Horizon decimal amount strings to integer stroops, exactly.
- `src/asset.rs` — Stellar credit-asset code validation (1 to 12 UTF-8 bytes).
- `src/horizon.rs` — payment records, the payments request URL, and the classification of replies.
- `src/sign.rs` — HMAC-SHA256 webhook signatures in lowercase hex, and their constant-time check.
- `src/crypto.rs` — the error type for sealing and opening secrets.
- `src/text.rs` — character-level helpers (white space, trimming, digit strings).

`app/` holds the HTTP client for Horizon and the serde / `std::error::Error` faces of the
library's types. `tests/` holds the tests.
