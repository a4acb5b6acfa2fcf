# atlier

The data layer of a framework for applications built on an entity-component system, written
in Verus with its behaviour stated in contracts and proved.

- `src/store.rs`: a graph store keyed by the hash codes of its values, with XOR links (which
  may be declared before their nodes exist), walks and reference lookups, and the laws that its
  operations keep.
- `src/desc`: content identifiers, artifacts and a content store.
- `src/system`: attribute values and attributes with their stable/transient editing protocol,
  the filesystem graph, node descriptions and app state.
- `src/modules`: the node descriptions of the editor, filesystem, function and graphics modules.
- `app/`: what stays outside the verified library: serialisation and component registration of
  the library's types, display formatting, floating-point values and expressions, font loading,
  and the plugin plumbing.
- `tests/`: tests of the library.
