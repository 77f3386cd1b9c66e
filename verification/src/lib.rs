//! A disjoint-set (union-find) structure: nodes are grouped into disjoint
//! equivalence classes, merged with `union` and resolved to a canonical
//! representative with `find`.

pub mod unionfind;
