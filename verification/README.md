# everscale_address_resolver

A collector for the validator map of `validators_clock`. It reads the current validator
set, resolves the ADNL address of each validator through the DHT, adds the place of each
ip, and writes the map and a full report as JSON.

- `src/` is the library. It decides and computes, with contracts that Verus proves: the
  sweep for an address (`sweep`), the reading of keys, endpoints and bootstrap nodes
  (`keys`, `resolution`, `bootstrap`), the gathering of results (`collect`), the geo
  refresh (`geo`), the map with its grace period (`validator_map`), the report and what
  is remembered (`report`), and the paths of the configuration (`paths`, `config`).
- `app/` is the programme: arguments, files, HTTP and the ADNL network.
- `tests/` runs the library.

The bootstrap configuration, `resolver.global_config_path`, is by default
`/home/admin/everscale_dht_bootstrap/everscale-bootstrap-global-config.json`.

Run one collection:

```bash
everscale_address_resolver run --config everscale_address_resolver.json --once
```
