use crate::context::command_context::{accepts, argument_examples, ArgumentType};
use vstd::prelude::*;

verus! {

/// What a node matches: nothing (the root), one fixed word, or one typed value.
#[derive(Debug)]
pub enum NodeKind {
    Root,
    Literal(String),
    Argument { name: String, argument_type: ArgumentType },
}

/// One node of a command tree. Children, and the redirect target, are the
/// indices of other nodes of the same tree.
#[derive(Debug)]
pub struct CommandNode {
    pub kind: NodeKind,
    pub children: Vec<usize>,
    pub command: Option<u64>,
    pub redirect: Option<usize>,
    pub forks: bool,
}

/// The name a node is known by among its siblings.
pub open spec fn node_name(kind: NodeKind) -> Seq<char> {
    match kind {
        NodeKind::Root => Seq::empty(),
        NodeKind::Literal(l) => l@,
        NodeKind::Argument { name, argument_type } => name@,
    }
}

/// Whether a node of this kind would match all of `s` taken alone.
pub open spec fn valid_input(kind: NodeKind, s: Seq<char>) -> bool {
    match kind {
        NodeKind::Root => false,
        NodeKind::Literal(l) => s == l@,
        NodeKind::Argument { name, argument_type } => accepts(argument_type, s),
    }
}

/// The sample inputs of a node of this kind.
pub open spec fn node_examples(kind: NodeKind) -> Seq<Seq<char>> {
    match kind {
        NodeKind::Root => Seq::empty(),
        NodeKind::Literal(l) => seq![l@],
        NodeKind::Argument { name, argument_type } => argument_examples(argument_type),
    }
}

/// The entries of `examples` that a node of kind `kind` accepts, in order.
pub open spec fn accepted_by(examples: Seq<Seq<char>>, kind: NodeKind) -> Seq<Seq<char>>
    decreases examples.len(),
{
    if examples.len() == 0 {
        examples
    } else {
        let before = accepted_by(examples.drop_last(), kind);
        if valid_input(kind, examples.last()) {
            before.push(examples.last())
        } else {
            before
        }
    }
}

impl CommandNode {
    pub fn new(kind: NodeKind) -> (r: CommandNode)
        ensures
            r.kind == kind,
            r.children@.len() == 0,
            r.command is None,
            r.redirect is None,
            !r.forks,
    {
        CommandNode { kind, children: Vec::new(), command: None, redirect: None, forks: false }
    }

    pub fn get_name(&self) -> (r: &str)
        ensures
            r@ == node_name(self.kind),
    {
        match &self.kind {
            NodeKind::Root => {
                proof {
                    reveal_strlit("");
                }
                assert(""@ =~= Seq::<char>::empty());
                ""
            },
            NodeKind::Literal(l) => l.as_str(),
            NodeKind::Argument { name, argument_type } => name.as_str(),
        }
    }

    pub fn is_fork(&self) -> (r: bool)
        ensures
            r == self.forks,
    {
        self.forks
    }
}

} // verus!
