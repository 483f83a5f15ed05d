# weblite

A service that exposes ECHONET Lite devices through the ECHONET Lite Web API
guidelines, talking to the devices through a line-protocol backend.

- `src/` is the verified library (Verus): hex strings, the backend's line
  protocol and property maps, device descriptions and their schemas, converters
  between JSON values and EDT bytes, device instances and their descriptions,
  the `echoCommands` endpoint, and the errors and replies of the Web API. Each
  public function states its result in its contract; the laws of the library
  (round trips of the converters and of hex data, distinct keys of the
  collected maps, what a device instance keeps) are public proof functions.
- `app/` is the server around it: reading the configuration, descriptions and
  additional information from disk, the TCP connection to the backend, the
  JSON forms of the library's types, the HTTP handlers, and the number
  conversions, which compute in floating point.
- `tests/` runs the library on concrete values.
