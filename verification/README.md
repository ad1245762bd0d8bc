# jsonb_schema

A schema-driven binary encoding for JSON values, and a JSON path selector
that reads the encoded bytes in place. The library is written in Verus:
each function carries a contract, and the laws below are proved.

## Layout

- `value`, `types`: JSON values (objects as entries in key order) and the
  schema, with their mathematical views.
- `varint`, `number`, `float64`, `render`, `datetime`, `netaddr`, `format`:
  the byte-level pieces — varints, compact numbers, IEEE-754 doubles in
  integer arithmetic, and the compressed forms of dates, times, addresses
  and UUIDs.
- `spec_enc`, `encoder`: the layout the encoder writes, as spec functions,
  and the encoder proved against it.
- `spec_dec`, `decoder`, `text`, `objects`: what the decoder reads back, and
  the decoder proved against it.
- `traverse`, `jsonpath`, `select_spec`, `selector`: walking the encoding
  without decoding it, and path selection over it.
- `from_json`: reading a schema from its JSON form.
- `roundtrip`, `schema_roundtrip`, `ordered`, `schema_wf`, `in_place`,
  `nested`, `literal_compare`, `descent`, `agree`: the laws.

## Laws

- Decoding the encoding of a value that conforms to its schema gives the
  value back, each number as `schema_roundtrip::canon_number` says
  (`schema_roundtrip::lemma_encode_decode`): a double that is a whole
  multiple of `multipleOf` comes back as the integer that its count of
  `multipleOf` stands for, which is the double's value where the count and
  its product with `multipleOf` fit in `i128`, `multipleOf` is exactly a
  double, and no `minimum` that is itself a multiple is added back
  (`schema_roundtrip::lemma_canon_double`,
  `schema_roundtrip::lemma_encode_decode_double`); a text that a format
  compresses comes back as the text its compressed form renders
  (`2001:0DB8::1` as `2001:db8::1`); a value with no such double or text
  comes back as itself (`schema_roundtrip::lemma_canon_exact`).
  Without a schema, any well-formed value comes back
  (`roundtrip::lemma_untyped_roundtrip`).
- Skipping a value ends where decoding it ends (`traverse::skip_value`,
  `traverse::skip_typed_value`), which for an encoded value is where its
  bytes end, non-canonical format texts included
  (`schema_roundtrip::lemma_skip_typed_encoded`).
- Decoded objects hold their keys in order, each once
  (`ordered::lemma_decode_sorted`).
- A schema read from JSON lists its properties and required names once, in
  order (`schema_wf::lemma_json_schema_wf`).
- Selecting a field, `[*]` or `[i]` reads in place what the encoded value
  holds (`in_place::lemma_field_select`, `in_place::lemma_select_field_path`,
  `in_place::lemma_wildcard_select`, `in_place::lemma_index_select`), and a
  path of field names reads the nested value (`nested::lemma_select_nested`).
- `$.**` selects, from a value in the untyped form, the value and every
  value inside it, in document order (`descent::lemma_descend_untyped`,
  `in_place::lemma_select_descent_path`).
- A schema changes how values are laid out, not what a path selects: a path
  of field names, `.*`, `[*]`, `[i, j, ...]` and `.**` segments selects the
  same values, in the same order and with the same repeats, from a value
  encoded under a schema it conforms to as from the same value without one
  (`agree::lemma_select_agrees`; also `nested::lemma_select_fields_agree`,
  `in_place::lemma_elements_agree`). Under a schema, `.*` and `.**` visit an
  object's members in key order, as the untyped form holds them.
- A predicate comparing `$`, or a path of field names under it, with a
  literal decides the same with the schema as without it, the shortcuts
  taken on the encoding included (`literal_compare::lemma_predicate_agrees`).

## The command line

`app/` holds a small program: it reads JSON Lines and an optional JSON
Schema, and writes each line's encoding behind its length.
