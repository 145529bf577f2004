# mikrotik_api

A smartdns plugin that writes the addresses smartdns resolves into the firewall
address lists of a MikroTik router, over the RouterOS API. The list is named like
the smartdns group of the query, and the entry's timeout is the time to live that
the answer has left in smartdns's cache. The default group is left out.

## Layout

- `src/` is the library, verified with Verus:
  - `text` and `ip`: numerals, searching, and the text forms of IP addresses;
  - `smartdns`: DNS packets, the lookup in smartdns's cache, log levels, and the
    plugin's registration;
  - `plugin`: the configuration, the address to connect to, how the plugin starts
    and stops, and which queries lead to an entry;
  - `mikrotik_api`: the commands for the router, built with `mikrotik-rs`, and what
    its replies mean;
  - `pipeline`: a batch of additions over one connection;
  - `worker`: gathering, sending and remembering entries, with backoff;
  - `worker_laws`: what holds of the worker over more than one step.
- `app/` is the plugin around it: smartdns's C interface, the tokio runtime, the
  connection to the router.
- `tests/` run the library.

What waits or does I/O is driven from `app/`; the library says what to do next and
takes what came of it (`CacheLookup`, `Pipeline`, `EntrySearch`, `Worker`). Times are
nanoseconds of a clock that the caller reads.

## Settings

```
plugin libmikrotik_api.so
mikrotik-api.address 192.168.1.96:8728
mikrotik-api.username a user with the rights api, read and write
mikrotik-api.password that user's password
mikrotik-api.ssl yes or no: whether to use the api-ssl service
```
