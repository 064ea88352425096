# Kealight

A web tool that edits the host reservations of a Kea DHCP4 configuration, and shows its leases.

`src/` is the library. Everything that decides something is in it, with a contract that Verus checks:

- `text`, `number`, `order`, `addr`, `mac`: texts, numbers, byte order and sorting, addresses
- `json`, `file`, `backup`, `save`: the configuration as a JSON document, its edits, its backups, and
  the steps in which it is written
- `domain`, `paste`, `paste_laws`: reservations, conflicts, and pasting many reservations at once
- `leases`: the lease file of the memfile backend
- `html`, `query`, `form`, `list`, `lease_page`, `web`: the pages and the answers to requests
- `state`, `operation`: the configuration in memory and the file on disk, and how a request goes on
  when someone else has changed that file
- `config`, `reload`, `arp`, `auth`, `error`: settings, Kea's control socket, neighbours, the login

What the library states as a whole stands in the proof functions whose names begin with `law_`.

`app/` is the server around it: it listens, reads and writes files, and talks to Kea. It brings the
script that its pages need; where `static/htmx.min.js` stands in the directory that the server is
started in, that one is served instead.

`tests/` runs the library on concrete values.
