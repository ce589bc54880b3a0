# metadata_engine

The core of a duplicate-metadata engine. Contracts of several chains carry metadata payloads; the
engine finds the pairs of contracts whose payloads match, joins them to components per scope
(within chains, across chains, and for each pair of chains) and counts the components in summary
rows.

`src/` is the verified library:

- `snapshot`: the input columns and what makes them consistent
- `scheduler`: the work catalog, the frozen order of its jobs, coverage certificates
- `scoring`: the walk along two rows of terms that scores are summed over
- `pipeline`: the stages of matching, memory plans, component reduction, summary
- `reduce`: edges, union-find, spanning forests, collectors, component snapshots
- `resource`, `progress`: the memory broker and progress events
- `columns`, `digest`, `identity`, `sorting`, `text`: what the others share

The theorem that ties the stages together is `pipeline::run::lemma_components_of_matches`: two
contracts have the same root in a scope exactly when matches of that scope connect them. It holds
whatever the memory plans decided; `pipeline::rescue_exact`, `pipeline::shared` and
`pipeline::summary_scope` state it for the single fallbacks.

`app/` is ordinary Rust around the library: files, worker pools, JSON, and scores in floating
point. `tests/` runs the library on values.
