# svdpatch

Patching of the bit fields of a register in a device description (SVD), as a YAML document asks:
deleting, clearing, modifying, adding, merging, splitting and renaming fields, giving them
enumerated values or ranges of what may be written, and collecting them into arrays.

`src/` is the library. Every operation has a contract that gives the register afterwards and the
answer as a function of the register before and the document, also where an operation fails.

- `svd`, `yaml`, `error`: registers, documents and errors, each with its mathematical model
- `text`, `matching`: strings, and specifications that pick out fields by name
- `builder`, `make`: making fields and enumerated values from what a document says
- `fields`: picking out, dropping and updating fields in a list
- `edit`, `merge`, `split`, `collect`, `enums`: the operations; those whose names end in `_named`
  take the names of the fields instead of a specification
- `process`: all that a document says of a register, group by group
- `register`: the operations as methods of a register. Where one cannot be carried out, its
  `try_` form gives no answer and changes nothing
- `laws`: what holds of the operations taken together

`app/` applies the library to registers as `svd_parser` reads them and documents as `yaml_rust`
reads them. `tests/` holds the tests.
