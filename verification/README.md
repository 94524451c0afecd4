# modrun

Lightweight application wiring for Tokio services: register constructors,
pull the dependency graph, and manage start/stop in one place.

The crate is split in two:

* `src/` is the library, verified with Verus. It holds the decisions the
  runtime makes:
  * `scope` – the module tree and ancestor chains;
  * `container` – the registry of providers, supplied values, private
    bindings and groups; how a request from a module resolves; validation
    (missing dependencies, required groups, cycles) and the construction
    waves;
  * `graph` – longest-path layering of the dependency graph, or a cycle;
  * `lifecycle` – which hook starts or stops next, unwinding after a failed
    or cancelled start, and the registration window;
  * `error` – the error values and their messages;
  * `dot` – the Graphviz rendering of the graph;
  * `trace` – the text of every framework event line;
  * `phases` – builder settings, the startup banner, and what a timed,
    failed or interrupted phase reports;
  * `group`, `span`, `provider`, `lookup`, `text` – supporting types.
* `app/` is ordinary Rust around it: type-erased values and constructors,
  the async construction of each wave, hooks and their callbacks, OS
  signals, tracing output and the console subscriber.

Every public function in `src/` states its result in its contract; the
properties that span several calls (stop order reverses start order, a
failed start hook never stops, dependencies are built in earlier waves, a
cancelled stop is retried, a timeout setting keeps its last value, the DOT
graph has one node per key and one cluster per module holding nodes, a private provider is seen only from its module
and the modules nested in it, a successful start runs every OnStart once in
registration order, a finished construction wave leaves the construction
marks as they were) are proof functions named `law_*`.
