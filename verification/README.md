# sunray

The part of a real-time path tracer that decides: which passes a frame declares, which of
them run and in which order, where transient resources lie in memory, and which barriers
stand between the passes. All of it is verified with Verus. What touches a device, a file,
the environment or an engine stands in `app/`, around the library.

## Layout

- `src/render_graph/`: the graph of passes.
  - `graph`, `pass_builder`, `resource`, `access`: what is declared.
  - `analysis`, `components`, `schedule`, `dep_graph`, `liveness`: hazards, components, the
    order, and which passes are of use.
  - `alias`, `memory_plan`, `predecessors`, `interval_set`: which resources share memory.
  - `barriers`, `transient_resources`, `submission`: barriers, bindings, and what a frame
    waits for and signals.
  - `compile`, `internal_passes`: all of it put together.
  - `graph_debug`, `aliasing_report`, `bench_support`: frames as text, and random frames.
  - `*_laws`: what holds of every frame.
- `src/path_tracer.rs`, `src/path_tracer_laws.rs`: the passes of a path-traced frame, and
  what holds of them.
- `src/renderer.rs`, `src/scheduled.rs`, `src/settings.rs`: frames one after the other.
- `src/scene.rs`, `src/assets.rs`: scenes, and what is loaded of them.
- `src/shader_compiler.rs`: how shaders are compiled, and what is said where that fails.
- `src/bevy_integration/`: meshes, glTF hierarchies, input and an overlay of user
  interface, for an engine that drives the renderer.
- `app/`: Vulkan, gpu-allocator, Bevy and egui.

## Conventions

Device objects are 64-bit tokens. Formats, layouts, usages and stages are Vulkan's numbers.
Numbers in floating point are carried by their bits: the library moves them and never
computes with them.

A contract says what a function returns and changes for every input it accepts. Laws, the
public proof functions whose names begin with `law_`, relate several functions: that live
resources share no byte, that every hazard gets a barrier, that reused memory is entered
after its holders are done, that every pass of a frame runs its own pipeline and none is
dropped.

What is taken on trust are the functions of other crates that the library calls, and each
says so where it stands: `petgraph`'s graph and disjoint sets (`dep_graph`), `vk-sync-fork`'s
layouts and the names of its accesses (`access`), `rand`'s generator (`bench_support`), what
errors of `ash`, `gltf` and `gpu-allocator` say of themselves and backtraces (`error`), and
how text is quoted (`text`).
