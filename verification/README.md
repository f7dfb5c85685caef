# scheduler

The decisions of a Kubernetes scheduler, with proofs that they are right:
which pods wait for a node, which node a pod gets, which pods have to make room
for it, and what the API server is told about it.

- `src/` is the library. Everything in it is verified with Verus: each function
  states what it returns or changes, and the proof functions named `law_...`
  state what holds of several of them together. Two things are taken on trust,
  each with a comment that says what is claimed: `String::push`, and what
  `hyper::Uri` reads out of a text.
- `app/` connects the library to an API server: requests and watches over a
  client that the caller brings, objects as they are written on the wire, and
  the tally as it is shared between tasks.
- `tests/` runs the library on concrete values.

## The library

| modules | what they are about |
| --- | --- |
| `order`, `string_map`, `text`, `duplicate`, `json`, `error`, `uri` | texts, maps keyed by text, JSON values, failures, addresses |
| `quantity`, `double`, `resources`, `container` | quantities such as `500m` or `1.5Gi`, numbers in double precision, and what pods ask for |
| `pod`, `node`, `volumes`, `csi` | the objects that decisions are about |
| `selector`, `taints`, `ports`, `affinity`, `spread` | which nodes suit a pod |
| `select`, `victims`, `placement` | choosing a node, and making room for a pod |
| `tally`, `index`, `caches`, `waiters` | what is placed where, what is known of nodes, and which plans wait for it to change |
| `listing`, `counting` | what holds of the listings of pods and nodes, and of counted volumes |
| `booking`, `eviction` | what holds of a node's room across placements and evictions |
| `status`, `bind`, `events` | what is sent to the API server, and what its answers mean |
