# whelk

Translation of OWL 2 axioms into the axioms of the whelk reasoner
(concept inclusions, role inclusions and role compositions), verified with
Verus.

- `src/owl.rs` — the OWL axioms and class expressions that the translation
  reads, and their mathematical views.
- `src/model.rs` — the reasoner's concepts and axioms.
- `src/order.rs` — the structural order of class expressions (a total order,
  proved), comparison and sorting.
- `src/translate.rs` — what each axiom stands for (`translation`,
  `concept_of`) and the executable translation proved against it.
- `src/laws.rs` — properties of the translation as a whole.
- `src/axiom_set.rs`, `src/pairs.rs`, `src/iri.rs` — the calls into `im`,
  `itertools` and `horned-owl`.
- `app/lib.rs` — reads horned-owl's model into the library's values.
