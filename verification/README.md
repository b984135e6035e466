# fast-static-server

A static file server whose decisions are verified with Verus.

- `src/` is the verified library:
  - `resolve.rs`: percent-decoding a URL path and resolving it under the
    served root, refusing any `..` segment;
  - `html.rs`: HTML escaping and percent-encoding of file names for links;
  - `listing.rs`: sorting directory entries by name and rendering the
    listing page;
  - `route.rs`: the server's configuration and the request handler's
    decisions, one function per step, with the laws that span them;
  - `text.rs`: character helpers.
- `app/` is the program around it: the command line, the axum router, the
  file service and the file-system calls that the decisions ask for.
- `tests/` runs the library on concrete inputs.
