# qubit_config: verified structured configuration reads

This crate reads flat configuration properties (dotted names mapped to
stored values) as a structured tree, the way a typed target is deserialized
from them. The functions of `src/` carry Verus contracts; where a
contract states less than the code does, its doc comment says so.

## Layout

- `src/` is the verified library.
  - `value`, `read_node`, `read_view`: the value model (stored scalars,
    collections, JSON documents, string maps) and borrowed views of it.
  - `text`, `path`: character-level text handling, dotted keys, and
    diagnostic paths.
  - `index_capacity`, `counting_writer`, `error`: resource bounds and errors.
  - `selection`: the property stored exactly at a prefix, and whether keys
    lie below it.
  - `admission`: admission of the whole selected input (every value, the
    fields a target ignores among them) against the read's bounds, before
    and after interpolation; non-finite numbers are refused there too.
  - `source_index`, `source_location`, `source_segment`: where each value of
    a read is stored.
  - `arena`, `prepared_read`: the path index of a read. Properties below a
    prefix are placed at their relative paths and objects are merged key by
    key. A leaf already at a path, a non-object met on a dotted path, and
    a key that both sides of a merge hold without an object on each side
    are conflicts.
  - `string_policy`, `interpolation_overlay`: interpolation of string leaves
    and classification of blank ones.
  - `traversal`, `visit`: an iterative pre-order walk that holds only the
    ancestors of the next value.
  - `read_context`, `map_entries`, `sequence_values`, `source_deserializer`:
    the decisions taken for each deserialization request.
  - `unknown_properties`: sorted, distinct reports of unconsumed fields.
- `tests/` runs the library on concrete inputs.
- `app/` holds the Serde plumbing, the conversion session of
  `qubit-datatype`, and the conversion of `qubit-value` and `serde_json`
  values into the library's model.
