# editor

Canonicalization of type annotations for the editor, verified with Verus.

A parsed type annotation (`ast::TypeAnnotation`) is turned into a `Type2`
whose parts live in a node pool (`pool::Pool`). Along the way rigid type
variables are bound to variables from the store, wildcards get fresh
variables, applied type names are resolved through the scope or through the
imported modules, and problems are reported to the environment.

Layout of `src/`:

- `region`, `symbol`, `subs`, `problem`, `ast`: regions, symbols and
  identifiers, type variables, problem values, and the parsed annotation.
- `pool`, `scope`, `env`: the node pool, the scope of names and aliases, and
  the environment that canonicalization works in.
- `canon`: what canonicalization does, as spec functions over the contents
  of the environment, the scope and the references (`World`).
- `types`: `Type2`, `Signature`, `Annotation2`, `References`, and the
  executable canonicalization (`to_type2`, `to_type_id`, `as_type_id`,
  `to_annotation2`), each proved to do what `canon` says.
- `laws`: properties proved of canonicalization as a whole.
- `assoc`: small association-list helpers.

## Inputs that are left out

Two kinds of annotation are not canonicalized, because what they would
need (collecting the variables of a type and substituting into it) has no
definition here:

- an alias applied to exactly as many arguments as it has parameters
  (alias instantiation);
- an `as` alias whose parameters are all bound variables.

On these, and where the pool, the variable store or the identifiers of a
module would overflow, `canon` is `None` (and so is `as_type_id_spec`
where it is handed a node outside the pool). The functions `try_to_type2`,
`try_to_type_id`, `try_as_type_id` and `try_to_annotation2` return `None`
there and the canonical result everywhere else; `to_type2`, `to_type_id`,
`as_type_id` and `to_annotation2` ask of their caller that `canon` be
`Some`.
