//! Control-flow graph of one component body: basic blocks and directed
//! edges.
//!
//! A basic block is an ordered sequence of non-control statements with a
//! single entry and a single exit; the graph records, for every block, its
//! successor and predecessor blocks by index. Block 0 is the entry block.

use vstd::prelude::*;
use crate::ir::{Statement, is_simple};

verus! {

/// An ordered sequence of non-control statements executed without branching.
#[derive(Debug)]
pub struct BasicBlock {
    statements: Vec<Statement>,
}

impl BasicBlock {
    /// The statements of this block, in execution order.
    pub fn statements(&self) -> (r: &Vec<Statement>)
        ensures
            r@ == self.spec_statements(),
    {
        &self.statements
    }

    /// The statements of this block, in execution order.
    pub closed spec fn spec_statements(&self) -> Seq<Statement> {
        self.statements@
    }
}

impl BasicBlock {
    /// A block holding the given statements.
    pub(crate) fn from_statements(statements: Vec<Statement>) -> (r: BasicBlock)
        ensures
            r.spec_statements() == statements@,
    {
        BasicBlock { statements }
    }

    /// The statements of this block, by value.
    pub(crate) fn into_statements(self) -> (r: Vec<Statement>)
        ensures
            r@ == self.spec_statements(),
    {
        self.statements
    }
}

/// The statements of a sequence of blocks, concatenated in block order.
pub open spec fn blocks_statements(blocks: Seq<BasicBlock>) -> Seq<Statement>
    decreases blocks.len(),
{
    if blocks.len() == 0 {
        Seq::empty()
    } else {
        blocks_statements(blocks.drop_last()) + blocks.last().spec_statements()
    }
}

/// A control-flow graph: basic blocks plus directed edges between them,
/// identified by block index. The entry block has index 0.
#[derive(Debug)]
pub struct Cfg {
    blocks: Vec<BasicBlock>,
    successors: Vec<Vec<usize>>,
    predecessors: Vec<Vec<usize>>,
}

impl Cfg {
    /// Structural well-formedness: one successor and one predecessor list
    /// per block, every edge endpoint a valid block index, the successor and
    /// predecessor lists duplicate-free and mutually consistent, and every
    /// statement held by a block a non-control statement.
    pub closed spec fn well_formed(&self) -> bool {
        &&& self.successors@.len() == self.blocks@.len()
        &&& self.predecessors@.len() == self.blocks@.len()
        &&& forall|i: int, k: int|
            0 <= i < self.successors@.len() && 0 <= k < self.successors@[i]@.len()
                ==> self.successors@[i]@[k] < self.blocks@.len()
        &&& forall|i: int, k: int|
            0 <= i < self.predecessors@.len() && 0 <= k < self.predecessors@[i]@.len()
                ==> self.predecessors@[i]@[k] < self.blocks@.len()
        &&& forall|i: int, k1: int, k2: int|
            0 <= i < self.successors@.len() && 0 <= k1 < k2 < self.successors@[i]@.len()
                ==> self.successors@[i]@[k1] != self.successors@[i]@[k2]
        &&& forall|i: int, k1: int, k2: int|
            0 <= i < self.predecessors@.len() && 0 <= k1 < k2 < self.predecessors@[i]@.len()
                ==> self.predecessors@[i]@[k1] != self.predecessors@[i]@[k2]
        &&& forall|i: int, j: int|
            0 <= i < self.blocks@.len() && 0 <= j < self.blocks@.len()
                ==> (self.successors@[i]@.contains(j as usize)
                    <==> self.predecessors@[j]@.contains(i as usize))
        &&& forall|b: int, s: int|
            0 <= b < self.blocks@.len() && 0 <= s < self.blocks@[b].spec_statements().len()
                ==> is_simple(self.blocks@[b].spec_statements()[s])
    }

    /// The blocks of the graph, in order.
    pub closed spec fn spec_blocks(&self) -> Seq<BasicBlock> {
        self.blocks@
    }

    /// All statements of the graph: the blocks' statements concatenated in
    /// block order.
    pub open spec fn statements_in_order(&self) -> Seq<Statement> {
        blocks_statements(self.spec_blocks())
    }

    /// The successor lists, one per block.
    pub closed spec fn spec_successors(&self) -> Seq<Seq<usize>> {
        self.successors@.map_values(|v: Vec<usize>| v@)
    }

    /// The predecessor lists, one per block.
    pub closed spec fn spec_predecessors(&self) -> Seq<Seq<usize>> {
        self.predecessors@.map_values(|v: Vec<usize>| v@)
    }

    /// What structural well-formedness gives every user of the graph: one
    /// edge list per block, valid edge endpoints, and only non-control
    /// statements inside blocks.
    pub proof fn lemma_well_formed_facts(&self)
        requires
            self.well_formed(),
        ensures
            self.spec_successors().len() == self.spec_blocks().len(),
            self.spec_predecessors().len() == self.spec_blocks().len(),
            forall|b: int, k: int|
                0 <= b < self.spec_predecessors().len()
                    && 0 <= k < self.spec_predecessors()[b].len()
                    ==> (#[trigger] self.spec_predecessors()[b][k]) < self.spec_blocks().len(),
            forall|b: int, s: int|
                0 <= b < self.spec_blocks().len()
                    && 0 <= s < self.spec_blocks()[b].spec_statements().len()
                    ==> is_simple(#[trigger] self.spec_blocks()[b].spec_statements()[s]),
    {
        assert forall|b: int, s: int|
            0 <= b < self.spec_blocks().len()
                && 0 <= s < self.spec_blocks()[b].spec_statements().len()
            implies is_simple(#[trigger] self.spec_blocks()[b].spec_statements()[s]) by {
            assert(is_simple(self.blocks@[b].spec_statements()[s]));
        }
        assert forall|b: int, k: int|
            0 <= b < self.spec_predecessors().len()
                && 0 <= k < self.spec_predecessors()[b].len()
            implies (#[trigger] self.spec_predecessors()[b][k]) < self.spec_blocks().len() by {
            assert(self.predecessors@[b]@[k] < self.blocks@.len());
        }
    }

    /// The number of blocks.
    pub fn len(&self) -> (r: usize)
        ensures
            r == self.spec_blocks().len(),
    {
        self.blocks.len()
    }

    /// The block at index `i`.
    pub fn block(&self, i: usize) -> (r: &BasicBlock)
        requires
            i < self.spec_blocks().len(),
        ensures
            *r == self.spec_blocks()[i as int],
    {
        &self.blocks[i]
    }

    /// The successors of block `i`, as block indices.
    pub fn successors_of(&self, i: usize) -> (r: &Vec<usize>)
        requires
            self.well_formed(),
            i < self.spec_blocks().len(),
        ensures
            r@ == self.spec_successors()[i as int],
            forall|k: int| 0 <= k < r@.len() ==> r@[k] < self.spec_blocks().len(),
    {
        &self.successors[i]
    }

    /// Exchanges the graph's blocks for `new_blocks`, edge for edge, and
    /// hands the old blocks back.
    pub(crate) fn swap_blocks(&mut self, new_blocks: Vec<BasicBlock>) -> (r: Vec<BasicBlock>)
        requires
            old(self).well_formed(),
            new_blocks@.len() == old(self).spec_blocks().len(),
            forall|b: int, s: int|
                0 <= b < new_blocks@.len() && 0 <= s < new_blocks@[b].spec_statements().len()
                    ==> is_simple(#[trigger] new_blocks@[b].spec_statements()[s]),
        ensures
            final(self).well_formed(),
            r@ == old(self).spec_blocks(),
            final(self).spec_blocks() == new_blocks@,
            final(self).spec_successors() == old(self).spec_successors(),
            final(self).spec_predecessors() == old(self).spec_predecessors(),
    {
        let mut tmp = new_blocks;
        core::mem::swap(&mut self.blocks, &mut tmp);
        tmp
    }

    /// The same graph with its blocks replaced, edge for edge.
    pub(crate) fn replace_blocks(self, blocks: Vec<BasicBlock>) -> (r: Cfg)
        requires
            self.well_formed(),
            blocks@.len() == self.spec_blocks().len(),
            forall|b: int, s: int|
                0 <= b < blocks@.len() && 0 <= s < blocks@[b].spec_statements().len()
                    ==> is_simple(#[trigger] blocks@[b].spec_statements()[s]),
        ensures
            r.well_formed(),
            r.spec_blocks() == blocks@,
            r.spec_successors() == self.spec_successors(),
            r.spec_predecessors() == self.spec_predecessors(),
    {
        Cfg { blocks, successors: self.successors, predecessors: self.predecessors }
    }

    /// The predecessors of block `i`, as block indices.
    pub fn predecessors_of(&self, i: usize) -> (r: &Vec<usize>)
        requires
            self.well_formed(),
            i < self.spec_blocks().len(),
        ensures
            r@ == self.spec_predecessors()[i as int],
            forall|k: int| 0 <= k < r@.len() ==> r@[k] < self.spec_blocks().len(),
    {
        &self.predecessors[i]
    }
}

// ---------------------------------------------------------------------------
// Construction of a CFG from a structured statement sequence.
// ---------------------------------------------------------------------------

/// The non-control statements of a statement, in program order: a control
/// statement contributes the statements of its bodies, any other statement
/// contributes itself.
pub open spec fn flatten_stmt(s: Statement) -> Seq<Statement>
    decreases s,
{
    match s {
        Statement::IfThenElse { meta, cond, then_branch, else_branch } =>
            flatten_stmts(then_branch@) + flatten_stmts(else_branch@),
        Statement::While { meta, cond, body } => flatten_stmts(body@),
        _ => seq![s],
    }
}

/// The non-control statements of a statement sequence, in program order.
pub open spec fn flatten_stmts(ss: Seq<Statement>) -> Seq<Statement>
    decreases ss,
{
    if ss.len() == 0 {
        Seq::empty()
    } else {
        flatten_stmts(ss.drop_last()) + flatten_stmt(ss.last())
    }
}

/// The structural size of a statement, counting nested bodies.
spec fn stmt_height(s: Statement) -> nat
    decreases s,
{
    match s {
        Statement::IfThenElse { meta, cond, then_branch, else_branch } =>
            1 + stmts_height(then_branch@) + stmts_height(else_branch@),
        Statement::While { meta, cond, body } => 1 + stmts_height(body@),
        _ => 1,
    }
}

/// The structural size of a statement sequence.
spec fn stmts_height(ss: Seq<Statement>) -> nat
    decreases ss,
{
    if ss.len() == 0 {
        0
    } else {
        stmts_height(ss.drop_last()) + stmt_height(ss.last())
    }
}

/// Flattening a sequence processes its head first.
proof fn lemma_flatten_cons(ss: Seq<Statement>)
    requires
        ss.len() > 0,
    ensures
        flatten_stmts(ss) == flatten_stmt(ss[0]) + flatten_stmts(ss.drop_first()),
        stmts_height(ss) == stmt_height(ss[0]) + stmts_height(ss.drop_first()),
    decreases ss,
{
    if ss.len() == 1 {
        assert(ss.drop_last() =~= Seq::<Statement>::empty());
        assert(ss.drop_first() =~= Seq::<Statement>::empty());
        assert(ss.last() == ss[0]);
        assert(flatten_stmts(ss) =~= flatten_stmt(ss[0]) + flatten_stmts(ss.drop_first()));
    } else {
        lemma_flatten_cons(ss.drop_last());
        assert(ss.drop_last()[0] == ss[0]);
        assert(ss.drop_last().drop_first() =~= ss.drop_first().drop_last());
        assert(ss.drop_first().last() == ss.last());
        assert(flatten_stmts(ss.drop_first())
            == flatten_stmts(ss.drop_first().drop_last()) + flatten_stmt(ss.last()));
        assert(flatten_stmts(ss) =~= flatten_stmt(ss[0]) + flatten_stmts(ss.drop_first()));
    }
}

impl Cfg {
    /// An empty graph holding one empty entry block.
    fn with_entry() -> (r: Cfg)
        ensures
            r.well_formed(),
            r.spec_blocks().len() == 1,
            r.statements_in_order() == Seq::<Statement>::empty(),
            all_blocks_reachable(r),
    {
        let mut blocks: Vec<BasicBlock> = Vec::new();
        blocks.push(BasicBlock { statements: Vec::new() });
        let mut successors: Vec<Vec<usize>> = Vec::new();
        successors.push(Vec::new());
        let mut predecessors: Vec<Vec<usize>> = Vec::new();
        predecessors.push(Vec::new());
        let r = Cfg { blocks, successors, predecessors };
        assert(r.statements_in_order()
            =~= blocks_statements(r.blocks@.drop_last()) + r.blocks@.last().statements@);
        assert(r.blocks@.drop_last() =~= Seq::<BasicBlock>::empty());
        assert(r.statements_in_order() =~= Seq::<Statement>::empty());
        assert(all_blocks_reachable(r)) by {
            assert(reaches_block(r, 0, 0));
        }
        r
    }

    /// Appends a fresh empty block and returns its index.
    fn new_block(&mut self) -> (r: usize)
        requires
            old(self).well_formed(),
        ensures
            final(self).well_formed(),
            final(self).spec_blocks().len() == old(self).spec_blocks().len() + 1,
            r == old(self).spec_blocks().len(),
            final(self).statements_in_order() == old(self).statements_in_order(),
            forall|i: int, j: int| has_edge(*final(self), i, j)
                <==> has_edge(*old(self), i, j),
    {
        let r = self.blocks.len();
        self.blocks.push(BasicBlock { statements: Vec::new() });
        self.successors.push(Vec::new());
        self.predecessors.push(Vec::new());
        proof {
            assert(self.blocks@.drop_last() =~= old(self).blocks@);
            assert(self.blocks@.last().statements@ =~= Seq::<Statement>::empty());
            assert(self.statements_in_order()
                =~= old(self).statements_in_order());
            assert forall|i: int, j: int| has_edge(*self, i, j)
                <==> has_edge(*old(self), i, j) by {
                if 0 <= i < old(self).successors@.len() {
                    assert(self.successors@[i] == old(self).successors@[i]);
                }
            }
        }
        r
    }

    /// Appends a non-control statement to the last block.
    fn append_stmt(&mut self, s: Statement)
        requires
            old(self).well_formed(),
            old(self).spec_blocks().len() >= 1,
            is_simple(s),
        ensures
            final(self).well_formed(),
            final(self).spec_blocks().len() == old(self).spec_blocks().len(),
            final(self).statements_in_order()
                == old(self).statements_in_order() + seq![s],
            forall|i: int, j: int| has_edge(*final(self), i, j)
                <==> has_edge(*old(self), i, j),
    {
        let last = self.blocks.len() - 1;
        let ghost gs = s;
        let mut blk = self.blocks.remove(last);
        let ghost trimmed = self.blocks@;
        proof {
            assert(trimmed =~= old(self).blocks@.drop_last());
            assert(blk == old(self).blocks@.last());
        }
        blk.statements.push(s);
        self.blocks.push(blk);
        proof {
            assert(self.blocks@.drop_last() =~= trimmed);
            assert(self.blocks@.last().statements@
                == old(self).blocks@.last().statements@.push(gs));
            assert(self.statements_in_order()
                =~= old(self).statements_in_order() + seq![gs]);
            assert(forall|b: int| 0 <= b < old(self).blocks@.len() - 1
                ==> self.blocks@[b] == old(self).blocks@[b]);
        }
    }

    /// Adds a directed edge between two existing blocks; an edge already
    /// present is left alone.
    fn add_edge(&mut self, from: usize, to: usize)
        requires
            old(self).well_formed(),
            from < old(self).spec_blocks().len(),
            to < old(self).spec_blocks().len(),
        ensures
            final(self).well_formed(),
            final(self).spec_blocks() == old(self).spec_blocks(),
            final(self).statements_in_order() == old(self).statements_in_order(),
            forall|i: int, j: int| has_edge(*final(self), i, j)
                <==> has_edge(*old(self), i, j) || (i == from && j == to),
    {
        broadcast use vstd::seq_lib::lemma_seq_contains_after_push;

        let n_blocks = self.blocks.len();
        assert(n_blocks == self.spec_blocks().len());
        let mut present = false;
        let succ = &self.successors[from];
        let mut k: usize = 0;
        while k < succ.len()
            invariant
                k <= succ@.len(),
                succ@ == self.successors@[from as int]@,
                from < self.successors@.len(),
                present == exists|t: int| 0 <= t < k && succ@[t] == to,
            decreases succ@.len() - k,
        {
            if succ[k] == to {
                present = true;
                assert(succ@[k as int] == to);
            }
            k = k + 1;
        }
        assert(present == self.successors@[from as int]@.contains(to));
        if !present {
            let mut slist = self.successors.remove(from);
            slist.push(to);
            self.successors.insert(from, slist);
            let mut plist = self.predecessors.remove(to);
            plist.push(from);
            self.predecessors.insert(to, plist);
            proof {
                assert(self.successors@
                    =~= old(self).successors@.update(from as int,
                        self.successors@[from as int]));
                assert(self.successors@[from as int]@
                    == old(self).successors@[from as int]@.push(to));
                assert(self.predecessors@
                    =~= old(self).predecessors@.update(to as int,
                        self.predecessors@[to as int]));
                assert(self.predecessors@[to as int]@
                    == old(self).predecessors@[to as int]@.push(from));
                assert(!old(self).predecessors@[to as int]@.contains(from));
                assert forall|i: int, j: int|
                    0 <= i < self.blocks@.len() && 0 <= j < self.blocks@.len()
                    implies (self.successors@[i]@.contains(j as usize)
                        <==> self.predecessors@[j]@.contains(i as usize)) by {
                    if i == from && j == to {
                    } else if i == from {
                        assert(j != to && to != j as usize);
                        assert(self.successors@[i]@ == old(self).successors@[i]@.push(to));
                        vstd::seq_lib::lemma_seq_contains_after_push(
                            old(self).successors@[i]@, to, j as usize);
                    } else if j == to {
                        assert(i != from && from != i as usize);
                        assert(self.predecessors@[j]@ == old(self).predecessors@[j]@.push(from));
                        vstd::seq_lib::lemma_seq_contains_after_push(
                            old(self).predecessors@[j]@, from, i as usize);
                    }
                }
                assert forall|i: int, j: int| has_edge(*self, i, j)
                    <==> has_edge(*old(self), i, j) || (i == from && j == to) by {}
            }
        } else {
            assert(forall|i: int, j: int| has_edge(*final(self), i, j)
                <==> has_edge(*old(self), i, j) || (i == from && j == to));
        }
    }
}

/// Whether the graph has a directed edge from block `i` to block `j`.
pub open spec fn has_edge(c: Cfg, i: int, j: int) -> bool {
    &&& 0 <= i < c.spec_successors().len()
    &&& 0 <= j < c.spec_blocks().len()
    &&& c.spec_successors()[i].contains(j as usize)
}

/// Whether block `j` is reachable from the entry block in exactly `n`
/// edges.
pub open spec fn reaches_block(c: Cfg, j: int, n: nat) -> bool
    decreases n,
{
    if n == 0 {
        j == 0
    } else {
        exists|i: int| reaches_block(c, i, (n - 1) as nat) && has_edge(c, i, j)
    }
}

/// Whether block `j` is reachable from the entry block.
pub open spec fn block_reachable(c: Cfg, j: int) -> bool {
    exists|n: nat| reaches_block(c, j, n)
}

/// Every block of the graph is reachable from the entry block.
pub open spec fn all_blocks_reachable(c: Cfg) -> bool {
    forall|j: int| 0 <= j < c.spec_blocks().len() ==> block_reachable(c, j)
}

/// A path survives into any graph that keeps its edges.
pub proof fn lemma_reaches_preserved(c1: Cfg, c2: Cfg, j: int, n: nat)
    requires
        forall|a: int, b: int| has_edge(c1, a, b) ==> has_edge(c2, a, b),
        reaches_block(c1, j, n),
    ensures
        reaches_block(c2, j, n),
    decreases n,
{
    if n > 0 {
        let i = choose|i: int| reaches_block(c1, i, (n - 1) as nat) && has_edge(c1, i, j);
        lemma_reaches_preserved(c1, c2, i, (n - 1) as nat);
        assert(reaches_block(c2, i, (n - 1) as nat) && has_edge(c2, i, j));
    }
}

/// Reachability of the existing blocks survives into any graph that keeps
/// their edges.
pub proof fn lemma_reachable_preserved(c1: Cfg, c2: Cfg, upto: int)
    requires
        forall|a: int, b: int| has_edge(c1, a, b) ==> has_edge(c2, a, b),
        forall|j: int| 0 <= j < upto ==> block_reachable(c1, j),
    ensures
        forall|j: int| 0 <= j < upto ==> block_reachable(c2, j),
{
    assert forall|j: int| 0 <= j < upto implies block_reachable(c2, j) by {
        assert(block_reachable(c1, j));
        let n = choose|n: nat| reaches_block(c1, j, n);
        lemma_reaches_preserved(c1, c2, j, n);
        assert(reaches_block(c2, j, n));
    }
}

/// An edge from a reachable block makes its target reachable.
pub proof fn lemma_edge_reaches(c: Cfg, i: int, j: int)
    requires
        block_reachable(c, i),
        has_edge(c, i, j),
    ensures
        block_reachable(c, j),
{
    let n = choose|n: nat| reaches_block(c, i, n);
    assert(reaches_block(c, j, n + 1));
}

/// The number of blocks the builder appends while processing a statement:
/// a conditional appends its two branch chains and a join block, a loop
/// appends a header, its body chain and an exit block, and any other
/// statement appends none.
pub open spec fn stmt_new_blocks(s: Statement) -> nat
    decreases s,
{
    match s {
        Statement::IfThenElse { meta, cond, then_branch, else_branch } =>
            3 + seq_new_blocks(then_branch@) + seq_new_blocks(else_branch@),
        Statement::While { meta, cond, body } => 3 + seq_new_blocks(body@),
        _ => 0,
    }
}

/// The number of blocks the builder appends while processing a statement
/// sequence.
pub open spec fn seq_new_blocks(ss: Seq<Statement>) -> nat
    decreases ss,
{
    if ss.len() == 0 {
        0
    } else {
        stmt_new_blocks(ss[0]) + seq_new_blocks(ss.drop_first())
    }
}

/// The branching semantics of the builder, anchored at the block `cur`
/// that is current when the sequence starts: a conditional forks from `cur`
/// into a then chain and an else chain whose last blocks both merge at a
/// fresh join block; a loop runs from `cur` into a fresh header that
/// branches into the body chain and the exit block, with a back edge from
/// the body chain's last block to the header; a non-control statement
/// stays in `cur`.
pub open spec fn branch_shape(c: Cfg, cur: int, ss: Seq<Statement>) -> bool
    decreases ss,
{
    if ss.len() == 0 {
        true
    } else {
        match ss[0] {
            Statement::IfThenElse { meta, cond, then_branch, else_branch } => {
                let then_entry = cur + 1;
                let then_end = then_entry + seq_new_blocks(then_branch@);
                let else_entry = then_end + 1;
                let else_end = else_entry + seq_new_blocks(else_branch@);
                let join = else_end + 1;
                &&& has_edge(c, cur, then_entry)
                &&& has_edge(c, cur, else_entry)
                &&& has_edge(c, then_end, join)
                &&& has_edge(c, else_end, join)
                &&& branch_shape(c, then_entry, then_branch@)
                &&& branch_shape(c, else_entry, else_branch@)
                &&& branch_shape(c, join, ss.drop_first())
            }
            Statement::While { meta, cond, body } => {
                let header = cur + 1;
                let body_entry = header + 1;
                let body_end = body_entry + seq_new_blocks(body@);
                let exit = body_end + 1;
                &&& has_edge(c, cur, header)
                &&& has_edge(c, header, body_entry)
                &&& has_edge(c, body_end, header)
                &&& has_edge(c, header, exit)
                &&& branch_shape(c, body_entry, body@)
                &&& branch_shape(c, exit, ss.drop_first())
            }
            _ => branch_shape(c, cur, ss.drop_first()),
        }
    }
}

/// A branching shape survives into any graph that keeps the edges.
proof fn lemma_branch_shape_monotone(c1: Cfg, c2: Cfg, cur: int, ss: Seq<Statement>)
    requires
        forall|a: int, b: int| has_edge(c1, a, b) ==> has_edge(c2, a, b),
        branch_shape(c1, cur, ss),
    ensures
        branch_shape(c2, cur, ss),
    decreases ss,
{
    if ss.len() > 0 {
        match ss[0] {
            Statement::IfThenElse { meta, cond, then_branch, else_branch } => {
                let then_entry = cur + 1;
                let then_end = then_entry + seq_new_blocks(then_branch@);
                let else_entry = then_end + 1;
                let else_end = else_entry + seq_new_blocks(else_branch@);
                let join = else_end + 1;
                lemma_branch_shape_monotone(c1, c2, then_entry, then_branch@);
                lemma_branch_shape_monotone(c1, c2, else_entry, else_branch@);
                lemma_branch_shape_monotone(c1, c2, join, ss.drop_first());
            }
            Statement::While { meta, cond, body } => {
                let header = cur + 1;
                let body_entry = header + 1;
                lemma_branch_shape_monotone(c1, c2, body_entry, body@);
                lemma_branch_shape_monotone(
                    c1, c2, body_entry + seq_new_blocks(body@) + 1, ss.drop_first());
            }
            _ => {
                lemma_branch_shape_monotone(c1, c2, cur, ss.drop_first());
            }
        }
    }
}

/// Appends a fresh empty block together with the edge that makes it
/// reachable from `from`.
fn add_block_from(c: &mut Cfg, from: usize) -> (r: usize)
    requires
        old(c).well_formed(),
        from < old(c).spec_blocks().len(),
        all_blocks_reachable(*old(c)),
    ensures
        final(c).well_formed(),
        final(c).spec_blocks().len() == old(c).spec_blocks().len() + 1,
        r == old(c).spec_blocks().len(),
        final(c).statements_in_order() == old(c).statements_in_order(),
        all_blocks_reachable(*final(c)),
        has_edge(*final(c), from as int, r as int),
        forall|i: int, j: int| has_edge(*old(c), i, j) ==> has_edge(*final(c), i, j),
{
    let ghost c0 = *c;
    let r = c.new_block();
    c.add_edge(from, r);
    proof {
        lemma_reachable_preserved(c0, *c, c0.spec_blocks().len() as int);
        lemma_edge_reaches(*c, from as int, r as int);
        assert(all_blocks_reachable(*c));
    }
    r
}

/// Processes one structured statement sequence: non-control statements are
/// appended to the last block; a conditional branches into two sub-chains
/// that merge at a fresh join block; a loop runs through a fresh header
/// block with a back edge from the body's last block and a forward edge to
/// a fresh exit block.
fn build_seq(c: &mut Cfg, stmts: Vec<Statement>)
    requires
        old(c).well_formed(),
        old(c).spec_blocks().len() >= 1,
        all_blocks_reachable(*old(c)),
    ensures
        final(c).well_formed(),
        final(c).spec_blocks().len()
            == old(c).spec_blocks().len() + seq_new_blocks(stmts@),
        final(c).statements_in_order()
            == old(c).statements_in_order() + flatten_stmts(stmts@),
        all_blocks_reachable(*final(c)),
        forall|i: int, j: int| has_edge(*old(c), i, j) ==> has_edge(*final(c), i, j),
        branch_shape(*final(c), old(c).spec_blocks().len() - 1, stmts@),
    decreases stmts_height(stmts@),
{
    let mut rest = stmts;
    if rest.len() == 0 {
        assert(final(c).statements_in_order()
            =~= old(c).statements_in_order() + flatten_stmts(rest@));
        return;
    }
    let ghost whole = rest@;
    proof {
        lemma_flatten_cons(whole);
    }
    let first = rest.remove(0);
    proof {
        assert(rest@ =~= whole.drop_first());
        assert(first == whole[0]);
    }
    match first {
        Statement::IfThenElse { meta, cond, then_branch, else_branch } => {
            proof {
                assert(stmt_height(whole[0])
                    == 1 + stmts_height(then_branch@) + stmts_height(else_branch@));
            }
            let ghost gthen = then_branch@;
            let ghost gelse = else_branch@;
            let branch_point = c.len() - 1;
            let then_entry = add_block_from(c, branch_point);
            build_seq(c, then_branch);
            let ghost c_then = *c;
            let then_end = c.len() - 1;
            let else_entry = add_block_from(c, branch_point);
            build_seq(c, else_branch);
            let ghost c_else = *c;
            let else_end = c.len() - 1;
            let join = add_block_from(c, then_end);
            let ghost c_joined = *c;
            c.add_edge(else_end, join);
            proof {
                lemma_reachable_preserved(c_joined, *c, c_joined.spec_blocks().len() as int);
            }
            build_seq(c, rest);
            proof {
                assert(then_entry == branch_point + 1);
                assert(then_end == then_entry + seq_new_blocks(gthen));
                assert(else_entry == then_end + 1);
                assert(else_end == else_entry + seq_new_blocks(gelse));
                assert(join == else_end + 1);
                assert(has_edge(*c, branch_point as int, then_entry as int));
                assert(has_edge(*c, branch_point as int, else_entry as int));
                assert(has_edge(*c, then_end as int, join as int));
                assert(has_edge(*c, else_end as int, join as int));
                lemma_branch_shape_monotone(c_then, *c, then_entry as int, gthen);
                lemma_branch_shape_monotone(c_else, *c, else_entry as int, gelse);
                assert(branch_shape(*c, join as int, whole.drop_first()));
                assert(branch_shape(*c, branch_point as int, whole));
                assert(stmt_new_blocks(whole[0])
                    == 3 + seq_new_blocks(gthen) + seq_new_blocks(gelse));
                assert(seq_new_blocks(whole)
                    == stmt_new_blocks(whole[0]) + seq_new_blocks(whole.drop_first()));
            }
        }
        Statement::While { meta, cond, body } => {
            proof {
                assert(stmt_height(whole[0]) == 1 + stmts_height(body@));
            }
            let ghost gbody = body@;
            let before = c.len() - 1;
            let header = add_block_from(c, before);
            let body_entry = add_block_from(c, header);
            build_seq(c, body);
            let ghost c_body0 = *c;
            let body_end = c.len() - 1;
            let ghost c_body = *c;
            c.add_edge(body_end, header);
            proof {
                lemma_reachable_preserved(c_body, *c, c_body.spec_blocks().len() as int);
            }
            let exit = add_block_from(c, header);
            build_seq(c, rest);
            proof {
                assert(header == before + 1);
                assert(body_entry == header + 1);
                assert(body_end == body_entry + seq_new_blocks(gbody));
                assert(exit == body_end + 1);
                assert(has_edge(*c, before as int, header as int));
                assert(has_edge(*c, header as int, body_entry as int));
                assert(has_edge(*c, body_end as int, header as int));
                assert(has_edge(*c, header as int, exit as int));
                lemma_branch_shape_monotone(c_body0, *c, body_entry as int, gbody);
                assert(branch_shape(*c, exit as int, whole.drop_first()));
                assert(branch_shape(*c, before as int, whole));
                assert(stmt_new_blocks(whole[0]) == 3 + seq_new_blocks(gbody));
                assert(seq_new_blocks(whole)
                    == stmt_new_blocks(whole[0]) + seq_new_blocks(whole.drop_first()));
            }
        }
        _ => {
            proof {
                assert(is_simple(whole[0]));
                assert(flatten_stmt(whole[0]) =~= seq![whole[0]]);
            }
            let ghost c_before = *c;
            c.append_stmt(first);
            proof {
                lemma_reachable_preserved(c_before, *c, c_before.spec_blocks().len() as int);
            }
            build_seq(c, rest);
            proof {
                assert(branch_shape(*c, c_before.spec_blocks().len() - 1, whole.drop_first()));
                assert(branch_shape(*c, c_before.spec_blocks().len() - 1, whole));
                assert(stmt_new_blocks(whole[0]) == 0);
                assert(seq_new_blocks(whole)
                    == stmt_new_blocks(whole[0]) + seq_new_blocks(whole.drop_first()));
            }
        }
    }
    assert(final(c).statements_in_order()
        =~= old(c).statements_in_order() + flatten_stmts(whole));
}

/// Builds the control-flow graph of one component body from its structured
/// statement sequence: the blocks hold, in block order, exactly the
/// non-control statements of the sequence in program order, and the edges
/// record the branching of conditionals and loops.
pub fn build_cfg(stmts: Vec<Statement>) -> (r: Cfg)
    ensures
        r.well_formed(),
        r.spec_blocks().len() == 1 + seq_new_blocks(stmts@),
        r.statements_in_order() == flatten_stmts(stmts@),
        all_blocks_reachable(r),
        branch_shape(r, 0, stmts@),
{
    let mut c = Cfg::with_entry();
    build_seq(&mut c, stmts);
    c
}

} // verus!
