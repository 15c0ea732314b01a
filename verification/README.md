# browser_utils

Browser utilities — a deterministic password generator and a JSON Web Token
decoder — whose logic is a Verus-verified library.

- `src/text.rs`: whitespace trimming, splitting on a separator, HTML escaping.
- `src/password.rs`: the seed hash, character sets, password generation and
  reading the requested length.
- `src/codec.rs`: the trusted edges to the `base64` crate, UTF-8 decoding and
  the JavaScript engine's JSON functions.
- `src/jwt.rs`: token decoding, the highlighted overlay and what the decoder
  page shows.
- `src/router.rs`: page selection by location fragment and the home page.
- `app/`: the DOM wiring (web-sys, wasm-bindgen), built for `wasm32`.
