use vstd::prelude::*;

use crate::ast::Statement;
use crate::cairo_type::Type;

verus! {

/// A grammar nonterminal, as recorded when its generation fails.
#[derive(Clone, Copy, Debug, PartialEq, Eq, Structural)]
pub enum NodeKind {
    TypeNode,
    ConstDeclaration,
    Statement,
    Expression,
}

/// A recursive production whose nesting is bounded.
#[derive(Clone, Copy, Debug, PartialEq, Eq, Structural)]
pub enum DepthKind {
    Tuple,
    Struct,
}

/// The configured maximum nesting of each recursive production.
#[derive(Clone, Copy, Debug, PartialEq, Eq, Structural)]
pub struct DepthBounds {
    pub tuple: u64,
    pub structure: u64,
}

impl DepthBounds {
    pub open spec fn bound(&self, kind: DepthKind) -> nat {
        match kind {
            DepthKind::Tuple => self.tuple as nat,
            DepthKind::Struct => self.structure as nat,
        }
    }
}

/// The recursion-depth state: the current nesting of each recursive
/// production and the bounds it is held to.
#[derive(Clone, Copy, Debug, PartialEq, Eq, Structural)]
pub struct NodeDepthState {
    pub tuple: u64,
    pub structure: u64,
    pub bounds: DepthBounds,
}

/// The state threaded through one generation call: recursion-depth
/// counters and their peaks, the statements accumulated per scope, the
/// required-type stack, the return-type constraints and the node kinds that
/// failed and were replaced.
pub struct Context {
    tuple_depth: u64,
    struct_depth: u64,
    peak_tuple_depth: u64,
    peak_struct_depth: u64,
    bounds: DepthBounds,
    current_function_name: String,
    statements_per_scope: Vec<Vec<Statement>>,
    required_type: Vec<Type>,
    return_expression_type: Option<Type>,
    return_loop_type: Option<Type>,
    failed_generation_nodes: Vec<NodeKind>,
}

impl Context {
    /// The current nesting of a recursive production.
    pub closed spec fn depth(&self, kind: DepthKind) -> nat {
        match kind {
            DepthKind::Tuple => self.tuple_depth as nat,
            DepthKind::Struct => self.struct_depth as nat,
        }
    }

    /// The deepest nesting reached so far.
    pub closed spec fn peak(&self, kind: DepthKind) -> nat {
        match kind {
            DepthKind::Tuple => self.peak_tuple_depth as nat,
            DepthKind::Struct => self.peak_struct_depth as nat,
        }
    }

    /// The configured bounds.
    pub closed spec fn limits(&self) -> DepthBounds {
        self.bounds
    }

    /// The node kinds that failed, in order.
    pub closed spec fn failures(&self) -> Seq<NodeKind> {
        self.failed_generation_nodes@
    }

    /// The required types, innermost last.
    pub closed spec fn required_stack(&self) -> Seq<Type> {
        self.required_type@
    }

    /// The type the function being generated returns, if constrained.
    pub closed spec fn return_expression(&self) -> Option<Type> {
        self.return_expression_type
    }

    /// The type a loop being generated exits with, if constrained.
    pub closed spec fn return_loop(&self) -> Option<Type> {
        self.return_loop_type
    }

    /// The statements accumulated in each open scope, innermost last.
    pub closed spec fn statement_scopes(&self) -> Seq<Seq<Statement>> {
        Seq::new(self.statements_per_scope@.len(), |i: int| self.statements_per_scope@[i]@)
    }

    /// The name of the function being generated.
    pub closed spec fn function_name(&self) -> Seq<char> {
        self.current_function_name@
    }

    /// Every counter is within its bound.
    pub open spec fn wf(&self) -> bool {
        &&& self.depth(DepthKind::Tuple) <= self.limits().bound(DepthKind::Tuple)
        &&& self.depth(DepthKind::Struct) <= self.limits().bound(DepthKind::Struct)
    }

    /// How many more nested recursive productions the bounds allow.
    pub open spec fn remaining(&self) -> nat {
        ((self.limits().bound(DepthKind::Tuple) - self.depth(DepthKind::Tuple)) + (
        self.limits().bound(DepthKind::Struct) - self.depth(DepthKind::Struct))) as nat
    }

    /// A context holding exactly the given state; each peak starts at the
    /// current depth.
    pub fn new(
        node_depth_state: NodeDepthState,
        current_function_name: String,
        statements_per_scope: Vec<Vec<Statement>>,
        required_type: Vec<Type>,
        return_expression_type: Option<Type>,
        return_loop_type: Option<Type>,
        failed_generation_nodes: Vec<NodeKind>,
    ) -> (r: Self)
        ensures
            r.wf() == (node_depth_state.tuple <= node_depth_state.bounds.tuple
                && node_depth_state.structure <= node_depth_state.bounds.structure),
            r.limits() == node_depth_state.bounds,
            r.depth(DepthKind::Tuple) == node_depth_state.tuple,
            r.depth(DepthKind::Struct) == node_depth_state.structure,
            forall|k: DepthKind| #[trigger] r.peak(k) == r.depth(k),
            r.function_name() == current_function_name@,
            r.statement_scopes() == Seq::new(
                statements_per_scope@.len(),
                |i: int| statements_per_scope@[i]@,
            ),
            r.required_stack() == required_type@,
            r.return_expression() == return_expression_type,
            r.return_loop() == return_loop_type,
            r.failures() == failed_generation_nodes@,
    {
        Context {
            tuple_depth: node_depth_state.tuple,
            struct_depth: node_depth_state.structure,
            peak_tuple_depth: node_depth_state.tuple,
            peak_struct_depth: node_depth_state.structure,
            bounds: node_depth_state.bounds,
            current_function_name,
            statements_per_scope,
            required_type,
            return_expression_type,
            return_loop_type,
            failed_generation_nodes,
        }
    }

    /// A context with the given depth state, function name and statement
    /// scopes, no required or return type and no failure.
    pub fn default(
        node_depth_state: NodeDepthState,
        current_function_name: String,
        statements_per_scope: Vec<Vec<Statement>>,
    ) -> (r: Self)
        ensures
            r.wf() == (node_depth_state.tuple <= node_depth_state.bounds.tuple
                && node_depth_state.structure <= node_depth_state.bounds.structure),
            r.limits() == node_depth_state.bounds,
            r.depth(DepthKind::Tuple) == node_depth_state.tuple,
            r.depth(DepthKind::Struct) == node_depth_state.structure,
            forall|k: DepthKind| #[trigger] r.peak(k) == r.depth(k),
            r.function_name() == current_function_name@,
            r.statement_scopes() == Seq::new(
                statements_per_scope@.len(),
                |i: int| statements_per_scope@[i]@,
            ),
            r.required_stack().len() == 0,
            r.return_expression() is None,
            r.return_loop() is None,
            r.failures().len() == 0,
    {
        Context::new(
            node_depth_state,
            current_function_name,
            statements_per_scope,
            Vec::new(),
            None,
            None,
            Vec::new(),
        )
    }

    /// The current nesting of a recursive production.
    pub fn depth_of(&self, kind: DepthKind) -> (r: u64)
        ensures
            r == self.depth(kind),
    {
        match kind {
            DepthKind::Tuple => self.tuple_depth,
            DepthKind::Struct => self.struct_depth,
        }
    }

    /// The deepest nesting reached so far.
    pub fn peak_of(&self, kind: DepthKind) -> (r: u64)
        ensures
            r == self.peak(kind),
    {
        match kind {
            DepthKind::Tuple => self.peak_tuple_depth,
            DepthKind::Struct => self.peak_struct_depth,
        }
    }

    /// Whether one more nested production of `kind` stays within its bound.
    pub fn can_enter(&self, kind: DepthKind) -> (r: bool)
        ensures
            r == (self.depth(kind) + 1 <= self.limits().bound(kind)),
    {
        match kind {
            DepthKind::Tuple => self.tuple_depth < self.bounds.tuple,
            DepthKind::Struct => self.struct_depth < self.bounds.structure,
        }
    }

    /// Enters a nested production of `kind`.
    pub fn enter(&mut self, kind: DepthKind)
        requires
            old(self).wf(),
            old(self).depth(kind) + 1 <= old(self).limits().bound(kind),
        ensures
            final(self).wf(),
            final(self).depth(kind) == old(self).depth(kind) + 1,
            forall|k: DepthKind| k != kind ==> final(self).depth(k) == old(self).depth(k),
            final(self).remaining() + 1 == old(self).remaining(),
            final(self).limits() == old(self).limits(),
            final(self).failures() == old(self).failures(),
            final(self).required_stack() == old(self).required_stack(),
            final(self).function_name() == old(self).function_name(),
            final(self).statement_scopes() == old(self).statement_scopes(),
    {
        match kind {
            DepthKind::Tuple => {
                self.tuple_depth = self.tuple_depth + 1;
                if self.tuple_depth > self.peak_tuple_depth {
                    self.peak_tuple_depth = self.tuple_depth;
                }
            },
            DepthKind::Struct => {
                self.struct_depth = self.struct_depth + 1;
                if self.struct_depth > self.peak_struct_depth {
                    self.peak_struct_depth = self.struct_depth;
                }
            },
        }
    }

    /// Leaves a nested production of `kind`.
    pub fn exit(&mut self, kind: DepthKind)
        requires
            old(self).wf(),
            old(self).depth(kind) >= 1,
        ensures
            final(self).wf(),
            final(self).depth(kind) + 1 == old(self).depth(kind),
            forall|k: DepthKind| k != kind ==> final(self).depth(k) == old(self).depth(k),
            final(self).limits() == old(self).limits(),
            final(self).failures() == old(self).failures(),
            final(self).required_stack() == old(self).required_stack(),
            final(self).function_name() == old(self).function_name(),
            final(self).statement_scopes() == old(self).statement_scopes(),
    {
        match kind {
            DepthKind::Tuple => {
                self.tuple_depth = self.tuple_depth - 1;
            },
            DepthKind::Struct => {
                self.struct_depth = self.struct_depth - 1;
            },
        }
    }

    /// Records that a node of `kind` failed and was replaced by a fallback.
    pub fn record_failure(&mut self, kind: NodeKind)
        ensures
            final(self).failures() == old(self).failures().push(kind),
            forall|k: DepthKind| #[trigger] final(self).depth(k) == old(self).depth(k),
            final(self).limits() == old(self).limits(),
            final(self).required_stack() == old(self).required_stack(),
            final(self).function_name() == old(self).function_name(),
            final(self).statement_scopes() == old(self).statement_scopes(),
    {
        self.failed_generation_nodes.push(kind);
    }

    /// The node kinds that failed and were replaced, in order.
    pub fn failed_nodes(&self) -> (r: &Vec<NodeKind>)
        ensures
            r@ == self.failures(),
    {
        &self.failed_generation_nodes
    }

    /// Pushes the type that the expression being built must have.
    pub fn push_required(&mut self, t: Type)
        ensures
            final(self).required_stack() == old(self).required_stack().push(t),
            forall|k: DepthKind| #[trigger] final(self).depth(k) == old(self).depth(k),
            final(self).limits() == old(self).limits(),
            final(self).failures() == old(self).failures(),
            final(self).function_name() == old(self).function_name(),
            final(self).statement_scopes() == old(self).statement_scopes(),
    {
        self.required_type.push(t);
    }

    /// Pops the innermost required type.
    pub fn pop_required(&mut self) -> (r: Option<Type>)
        ensures
            old(self).required_stack().len() == 0 ==> r is None && final(self).required_stack()
                == old(self).required_stack(),
            old(self).required_stack().len() > 0 ==> r == Some(old(self).required_stack().last())
                && final(self).required_stack() == old(self).required_stack().drop_last(),
            forall|k: DepthKind| #[trigger] final(self).depth(k) == old(self).depth(k),
            final(self).limits() == old(self).limits(),
            final(self).failures() == old(self).failures(),
            final(self).function_name() == old(self).function_name(),
            final(self).statement_scopes() == old(self).statement_scopes(),
    {
        self.required_type.pop()
    }

    /// The innermost required type, if any.
    pub fn required(&self) -> (r: Option<&Type>)
        ensures
            self.required_stack().len() == 0 ==> r is None,
            self.required_stack().len() > 0 ==> r == Some(&self.required_stack().last()),
    {
        if self.required_type.len() == 0 {
            None
        } else {
            Some(&self.required_type[self.required_type.len() - 1])
        }
    }

    /// The name of the function being generated.
    pub fn current_function_name(&self) -> (r: &String)
        ensures
            r@ == self.function_name(),
    {
        &self.current_function_name
    }

    /// Constrains the type that the function being generated returns.
    pub fn set_return_expression_type(&mut self, t: Option<Type>)
        ensures
            final(self).return_expression() == t,
            final(self).return_loop() == old(self).return_loop(),
            forall|k: DepthKind| #[trigger] final(self).depth(k) == old(self).depth(k),
            final(self).limits() == old(self).limits(),
            final(self).failures() == old(self).failures(),
            final(self).required_stack() == old(self).required_stack(),
            final(self).function_name() == old(self).function_name(),
            final(self).statement_scopes() == old(self).statement_scopes(),
    {
        self.return_expression_type = t;
    }

    /// Constrains the type that the loop being generated exits with.
    pub fn set_return_loop_type(&mut self, t: Option<Type>)
        ensures
            final(self).return_loop() == t,
            final(self).return_expression() == old(self).return_expression(),
            forall|k: DepthKind| #[trigger] final(self).depth(k) == old(self).depth(k),
            final(self).limits() == old(self).limits(),
            final(self).failures() == old(self).failures(),
            final(self).required_stack() == old(self).required_stack(),
            final(self).function_name() == old(self).function_name(),
            final(self).statement_scopes() == old(self).statement_scopes(),
    {
        self.return_loop_type = t;
    }

    /// The type the function being generated returns, if constrained.
    pub fn return_expression_type(&self) -> (r: &Option<Type>)
        ensures
            *r == self.return_expression(),
    {
        &self.return_expression_type
    }

    /// The type the loop being generated exits with, if constrained.
    pub fn return_loop_type(&self) -> (r: &Option<Type>)
        ensures
            *r == self.return_loop(),
    {
        &self.return_loop_type
    }

    /// Opens a scope that accumulates statements.
    pub fn open_statement_scope(&mut self)
        ensures
            final(self).statement_scopes() == old(self).statement_scopes().push(Seq::empty()),
            forall|k: DepthKind| #[trigger] final(self).depth(k) == old(self).depth(k),
            final(self).limits() == old(self).limits(),
            final(self).failures() == old(self).failures(),
            final(self).required_stack() == old(self).required_stack(),
            final(self).function_name() == old(self).function_name(),
    {
        self.statements_per_scope.push(Vec::new());
        assert(self.statement_scopes() =~= old(self).statement_scopes().push(Seq::empty()));
    }

    /// Appends a statement to the innermost open scope.
    pub fn add_statement(&mut self, statement: Statement)
        requires
            old(self).statement_scopes().len() > 0,
        ensures
            final(self).statement_scopes() == old(self).statement_scopes().update(
                old(self).statement_scopes().len() - 1,
                old(self).statement_scopes().last().push(statement),
            ),
            forall|k: DepthKind| #[trigger] final(self).depth(k) == old(self).depth(k),
            final(self).limits() == old(self).limits(),
            final(self).failures() == old(self).failures(),
            final(self).required_stack() == old(self).required_stack(),
            final(self).function_name() == old(self).function_name(),
    {
        let ghost before = self.statement_scopes();
        let ghost added = statement;
        let mut top = self.statements_per_scope.pop().unwrap();
        top.push(statement);
        self.statements_per_scope.push(top);
        assert(self.statement_scopes() =~= before.update(before.len() - 1, before.last().push(added)));
    }

    /// Closes the innermost open scope and hands back its statements.
    pub fn close_statement_scope(&mut self) -> (r: Vec<Statement>)
        requires
            old(self).statement_scopes().len() > 0,
        ensures
            r@ == old(self).statement_scopes().last(),
            final(self).statement_scopes() == old(self).statement_scopes().drop_last(),
            forall|k: DepthKind| #[trigger] final(self).depth(k) == old(self).depth(k),
            final(self).limits() == old(self).limits(),
            final(self).failures() == old(self).failures(),
            final(self).required_stack() == old(self).required_stack(),
            final(self).function_name() == old(self).function_name(),
    {
        let r = self.statements_per_scope.pop().unwrap();
        assert(self.statement_scopes() =~= old(self).statement_scopes().drop_last());
        r
    }

    /// The configured bounds.
    pub fn bounds(&self) -> (r: DepthBounds)
        ensures
            r == self.limits(),
    {
        self.bounds
    }
}

} // verus!
