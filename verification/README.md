# weir

Token budgets for the tenants of a gateway to language models. Each tenant may
use so many tokens in a rolling window. What a provider streams back is priced
chunk by chunk and held to the tenant's budget before it is passed on.

- `src/` is the library, verified with Verus. `budget` counts tokens in a rolling
  window and holds them against the tenants' ceilings; `budget::double` is the
  rounding of the window's weights and `budget::weighting` what is proved of it;
  `config` makes budgets and policies of a configuration and replaces them when it
  changes; `shared` is the cell that they are read from; `provider` reads server-sent
  events, counts tokens and prices answers; `enforcer`
  judges the chunks of a stream; `error` says how a client is told.
- `app/` connects the library to files, change notifications, HTTP and streams.
- `tests/` runs the library on concrete values.

The library's functions return `None` where a sum would leave the range of the
machine's integers, or a piece of a text could be too long for the
tokenizer. Counters and registries are borrowed mutably; a program with
several threads puts a registry behind a lock.
