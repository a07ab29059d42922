# transaction_ids

Which client requests and which federation transactions a Matrix homeserver has already answered,
and with what, as a library verified with Verus.

- `ids`, `keys`: the identifiers, and the keys that are made of them.
- `entries`: ordered entries with keys; `cache`: the `LruCache` of answers to federation
  transactions; `locks`: one holder at a time for each federation transaction.
- `database`: the orders to the database of answered client requests.
- `state`, `service`: what the service remembers, and its operations.
- `laws`, `history`: what holds across the operations, and after any sequence of them.

`app/` is the service inside the homeserver: database, configuration, and tasks that wait.
