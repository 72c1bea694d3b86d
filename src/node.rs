//! The kinds of definition that the analysis looks at.
use vstd::prelude::*;

verus! {

#[derive(Clone, Copy, PartialEq, Eq, Structural, Debug)]
pub enum ItemKind {
    Fn,
    Static,
    Const,
    Other,
}

#[derive(Clone, Copy, PartialEq, Eq, Structural, Debug)]
pub enum ForeignItemKind {
    Fn,
    Static,
    Type,
}

#[derive(Clone, Copy, PartialEq, Eq, Structural, Debug)]
pub enum AssocItemKind {
    Method,
    Const,
    Type,
}

/// A definition of the crate under analysis.
#[derive(Clone, Copy, PartialEq, Eq, Structural, Debug)]
pub enum DefNode {
    Item(ItemKind),
    ForeignItem(ForeignItemKind),
    TraitItem(AssocItemKind),
    ImplItem(AssocItemKind),
    Other,
}

/// The definition is a function: a free or foreign function, or a trait or impl method.
pub open spec fn is_fn_node(n: DefNode) -> bool {
    match n {
        DefNode::Item(k) => k == ItemKind::Fn,
        DefNode::ForeignItem(k) => k == ForeignItemKind::Fn,
        DefNode::TraitItem(k) => k == AssocItemKind::Method,
        DefNode::ImplItem(k) => k == AssocItemKind::Method,
        DefNode::Other => false,
    }
}

/// Whether a definition is a function of the local crate (`None`: defined elsewhere).
/// Static bodies are not analyzed.
pub fn is_fn(node: Option<DefNode>) -> (r: bool)
    ensures
        r == match node {
            Some(n) => is_fn_node(n),
            None => false,
        },
{
    let n = match node {
        None => return false,
        Some(n) => n,
    };
    match n {
        DefNode::Item(k) => matches!(k, ItemKind::Fn),
        DefNode::ForeignItem(k) => matches!(k, ForeignItemKind::Fn),
        DefNode::TraitItem(k) => matches!(k, AssocItemKind::Method),
        DefNode::ImplItem(k) => matches!(k, AssocItemKind::Method),
        DefNode::Other => false,
    }
}

} // verus!
