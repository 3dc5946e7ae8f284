# liveion_core

The decision logic of live777's recorder upload queue, data-channel forwarders
and a few HTTP routes, written in Verus and proved against its contracts.

- `src/text.rs`: decimal rendering, Unicode trimming, line framing of the queue
  file, with the framing round trip proved.
- `src/keyed.rs`: an insertion-ordered table under text keys whose view is a map.
- `src/uploader.rs`: the upload queue (`UploadManager`), backoff, liveman ping
  throttling, presign requests, header filtering, the temporary queue path.
- `src/forward.rs`: the plain UDP forwarder's step and the PTZ relay's client
  table and message format.
- `src/routes.rs`: cascade direction and the storage ping and presign answers.
- `src/outside.rs`: the trusted boundary to `http`, `serde_json`, `chrono` and
  the std functions that vstd leaves unspecified.
- `app/`: sockets, HTTP clients and servers, files and timers around the library.
