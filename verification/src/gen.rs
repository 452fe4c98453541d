use vstd::prelude::*;

use crate::ast::{
    block_consumed, lemma_stats_roundtrip, lemma_stmt_head, stats_tokens, stmt_consumed,
    stmt_head, stmt_tokens, NodeBlock, NodeStatement, Prog, Statement,
};
use crate::lex::Token;

verus! {

/// Code generation has no failure modes today; this error type is an
/// uninhabited extension point: no value of it can be constructed.
#[derive(Debug)]
pub struct Error(core::convert::Infallible);

/// A temporary value of the emitted procedure: the numbered scratch
/// temporaries, the cell pointer, and the tape base address.
#[derive(Clone, Copy, Debug, PartialEq, Eq, Structural)]
pub enum TmpVal {
    Num(u64),
    Ptr,
    Tape,
}

/// An operand: a temporary or an integer literal.
#[derive(Clone, Copy, Debug, PartialEq, Eq, Structural)]
pub enum IrVal {
    Temp(TmpVal),
    Lit(u64),
}

/// A block label of the emitted procedure. The numbered labels are allocated
/// from one shared counter, so no two coincide.
#[derive(Clone, Copy, Debug, PartialEq, Eq, Structural)]
pub enum Lbl {
    Runtime,
    Start,
    Loop(u64),
    End(u64),
    Cont(u64),
    Halt(u64),
}

/// The two base types used by the emitted code.
#[derive(Clone, Copy, Debug, PartialEq, Eq, Structural)]
pub enum IrTy {
    Word,
    Long,
}

/// An operation whose result is assigned to a temporary.
#[derive(Clone, Copy, Debug, PartialEq, Eq, Structural)]
pub enum IrOp {
    Add(IrVal, IrVal),
    Sub(IrVal, IrVal),
    Load(IrVal),
    Copy(IrVal),
    Alloc8(u64),
    CmpSgt(IrVal, IrVal),
}

/// The two byte-at-a-time runtime calls of the emitted code.
#[derive(Clone, Copy, Debug, PartialEq, Eq, Structural)]
pub enum CallFn {
    Read,
    Write,
}

/// A free-standing instruction: a store, a runtime call on the cell at the
/// pointer, a conditional branch, or a return.
#[derive(Clone, Copy, Debug, PartialEq, Eq, Structural)]
pub enum IrStmt {
    Store(IrVal, IrVal),
    Call(CallFn, u64, u64),
    Jnz(IrVal, Lbl, Lbl),
    Ret(u64),
}

/// One element of the emitted procedure body, in emission order: a block
/// label, an assignment, or a free-standing instruction.
#[derive(Clone, Copy, Debug, PartialEq, Eq, Structural)]
pub enum Item {
    Block(Lbl),
    Assign(TmpVal, IrTy, IrOp),
    Stmt(IrStmt),
}

#[verifier::external_type_specification]
#[verifier::external_body]
pub struct ExQbeFunction(qbe::Function);

#[verifier::external_type_specification]
#[verifier::external_body]
pub struct ExQbeValue(qbe::Value);

#[verifier::external_type_specification]
#[verifier::external_body]
pub struct ExQbeType(qbe::Type);

/// The sequence of items so far emitted into a function under construction.
pub uninterp spec fn sink_items(f: qbe::Function) -> Seq<Item>;

/// The module text that the backend library renders for a finished function
/// holding the given items. The text depends on the items alone, so equal
/// item sequences render byte-identically.
pub uninterp spec fn qbe_text(items: Seq<Item>) -> Seq<char>;

/// At least one block label has been emitted, so instructions have a block
/// to land in.
pub open spec fn has_block(items: Seq<Item>) -> bool {
    exists|i: int| 0 <= i < items.len() && (#[trigger] items[i]) is Block
}

/// Appending an item never removes the block that was already there.
pub broadcast proof fn lemma_has_block_push(items: Seq<Item>, x: Item)
    requires
        has_block(items),
    ensures
        #[trigger] has_block(items.push(x)),
{
    let i = choose|i: int| 0 <= i < items.len() && (#[trigger] items[i]) is Block;
    assert(items.push(x)[i] is Block);
}

/// Relies on qbe::Value::Temporary and qbe::Value::Const: renders a numbered
/// temporary as "v<n>", the pointer and tape temporaries by name, and a
/// literal as a constant.
#[verifier::external_body]
fn qbe_value(v: IrVal) -> qbe::Value {
    match v {
        IrVal::Temp(TmpVal::Num(c)) => qbe::Value::Temporary(format!("v{}", c)),
        IrVal::Temp(TmpVal::Ptr) => qbe::Value::Temporary("ptr".to_string()),
        IrVal::Temp(TmpVal::Tape) => qbe::Value::Temporary("tape".to_string()),
        IrVal::Lit(n) => qbe::Value::Const(n),
    }
}

/// Relies on qbe::Function::new: a fresh function (public linkage, named
/// "main", no parameters, word return) starts with no blocks.
#[verifier::external_body]
fn new_main_function() -> (f: qbe::Function)
    ensures
        sink_items(f) == Seq::<Item>::empty(),
{
    qbe::Function::new(
        qbe::Linkage::public(),
        "main".to_string(),
        Vec::new(),
        Some(qbe::Type::Word),
    )
}

/// Relies on qbe::Function::add_block: appends one empty labelled block.
/// The numbered labels carry their counter into the rendered name, so
/// distinct label values render as distinct strings.
#[verifier::external_body]
fn push_block(f: &mut qbe::Function, l: Lbl)
    ensures
        sink_items(*final(f)) == sink_items(*old(f)).push(Item::Block(l)),
{
    f.add_block(match l {
        Lbl::Runtime => "runtime".to_string(),
        Lbl::Start => "start".to_string(),
        Lbl::Loop(c) => format!("loop{}", c),
        Lbl::End(c) => format!("end{}", c),
        Lbl::Cont(c) => format!("cont{}", c),
        Lbl::Halt(c) => format!("halt{}", c),
    });
}

/// Relies on qbe::Type: renders the two base types the emitted code uses.
#[verifier::external_body]
fn qbe_ty(ty: IrTy) -> qbe::Type {
    match ty {
        IrTy::Word => qbe::Type::Word,
        IrTy::Long => qbe::Type::Long,
    }
}

/// Relies on qbe::Function::assign_instr: appends one assignment to the last
/// block. It panics without a block, hence the precondition.
#[verifier::external_body]
fn push_assign(f: &mut qbe::Function, dst: TmpVal, ty: IrTy, op: IrOp)
    requires
        has_block(sink_items(*old(f))),
    ensures
        sink_items(*final(f)) == sink_items(*old(f)).push(Item::Assign(dst, ty, op)),
{
    let t = qbe_ty(ty);
    let i = match op {
        IrOp::Add(a, b) => qbe::Instr::Add(qbe_value(a), qbe_value(b)),
        IrOp::Sub(a, b) => qbe::Instr::Sub(qbe_value(a), qbe_value(b)),
        IrOp::Load(a) => qbe::Instr::Load(qbe::Type::Word, qbe_value(a)),
        IrOp::Copy(a) => qbe::Instr::Copy(qbe_value(a)),
        IrOp::Alloc8(n) => qbe::Instr::Alloc8(n),
        IrOp::CmpSgt(a, b) => qbe::Instr::Cmp(qbe::Type::Long, qbe::Cmp::Sgt, qbe_value(a), qbe_value(b)),
    };
    f.assign_instr(qbe_value(IrVal::Temp(dst)), t, i);
}

/// Relies on qbe::Function::add_instr with qbe::Instr::Store: a word store
/// through an address. It panics without a block, hence the precondition.
#[verifier::external_body]
fn push_store(f: &mut qbe::Function, addr: IrVal, v: IrVal)
    requires
        has_block(sink_items(*old(f))),
    ensures
        sink_items(*final(f)) == sink_items(*old(f)).push(Item::Stmt(IrStmt::Store(addr, v))),
{
    f.add_instr(qbe::Instr::Store(qbe::Type::Word, qbe_value(addr), qbe_value(v)));
}

/// Relies on qbe::Function::add_instr with qbe::Instr::Call: a call to the
/// named byte routine on the cell at the pointer, with the given descriptor
/// and count. It panics without a block, hence the precondition.
#[verifier::external_body]
fn push_call(f: &mut qbe::Function, target: CallFn, fd: u64, count: u64)
    requires
        has_block(sink_items(*old(f))),
    ensures
        sink_items(*final(f)) == sink_items(*old(f)).push(
            Item::Stmt(IrStmt::Call(target, fd, count)),
        ),
{
    let name = match target {
        CallFn::Read => "read",
        CallFn::Write => "write",
    };
    f.add_instr(qbe::Instr::Call(
        name.to_string(),
        vec![
            (qbe::Type::Word, qbe::Value::Const(fd)),
            (qbe::Type::Long, qbe::Value::Temporary("ptr".to_string())),
            (qbe::Type::Long, qbe::Value::Const(count)),
        ],
        None,
    ));
}

/// Relies on qbe::Function::add_instr with qbe::Instr::Jnz: branch to the
/// first label on a nonzero value, else to the second. It panics without a
/// block, hence the precondition.
#[verifier::external_body]
fn push_jnz(f: &mut qbe::Function, v: IrVal, nonzero: Lbl, zero: Lbl)
    requires
        has_block(sink_items(*old(f))),
    ensures
        sink_items(*final(f)) == sink_items(*old(f)).push(
            Item::Stmt(IrStmt::Jnz(v, nonzero, zero)),
        ),
{
    let lbl = |l: Lbl| match l {
        Lbl::Runtime => "runtime".to_string(),
        Lbl::Start => "start".to_string(),
        Lbl::Loop(c) => format!("loop{}", c),
        Lbl::End(c) => format!("end{}", c),
        Lbl::Cont(c) => format!("cont{}", c),
        Lbl::Halt(c) => format!("halt{}", c),
    };
    f.add_instr(qbe::Instr::Jnz(qbe_value(v), lbl(nonzero), lbl(zero)));
}

/// Relies on qbe::Function::add_instr with qbe::Instr::Ret: return the given
/// constant status. It panics without a block, hence the precondition.
#[verifier::external_body]
fn push_ret(f: &mut qbe::Function, status: u64)
    requires
        has_block(sink_items(*old(f))),
    ensures
        sink_items(*final(f)) == sink_items(*old(f)).push(Item::Stmt(IrStmt::Ret(status))),
{
    f.add_instr(qbe::Instr::Ret(Some(qbe::Value::Const(status))));
}

/// Relies on qbe::Module::new, qbe::Module::add_function and the Display
/// impls of qbe::Module and its parts: the function is wrapped in a module
/// and rendered as text, followed by one newline. The rendering walks the
/// module's own vectors, so the text is a function of the items alone.
#[verifier::external_body]
fn finish_module(f: qbe::Function) -> (r: String)
    ensures
        r@ == qbe_text(sink_items(f)),
{
    let mut module = qbe::Module::new();
    module.add_function(f);
    format!("{}\n", module)
}

/// How many temporary ids lowering one statement consumes.
pub open spec fn stmt_tmps(s: Statement) -> nat
    decreases s,
{
    match s {
        Statement::MoveL(_) => 3,
        Statement::MoveR(_) => 3,
        Statement::Add(_) => 1,
        Statement::Sub(_) => 1,
        Statement::Read => 0,
        Statement::Write => 0,
        Statement::Loop(b) => 1 + stats_tmps(b.stats@),
    }
}

/// How many temporary ids lowering a statement list consumes.
pub open spec fn stats_tmps(ss: Seq<NodeStatement>) -> nat
    decreases ss,
{
    if ss.len() == 0 {
        0
    } else {
        stmt_tmps(ss[0].stat) + stats_tmps(ss.drop_first())
    }
}

/// How many label ids lowering one statement consumes.
pub open spec fn stmt_labels(s: Statement) -> nat
    decreases s,
{
    match s {
        Statement::MoveL(_) => 2,
        Statement::MoveR(_) => 2,
        Statement::Add(_) => 0,
        Statement::Sub(_) => 0,
        Statement::Read => 0,
        Statement::Write => 0,
        Statement::Loop(b) => 1 + stats_labels(b.stats@),
    }
}

/// How many label ids lowering a statement list consumes.
pub open spec fn stats_labels(ss: Seq<NodeStatement>) -> nat
    decreases ss,
{
    if ss.len() == 0 {
        0
    } else {
        stmt_labels(ss[0].stat) + stats_labels(ss.drop_first())
    }
}

/// Every pointer-move count in one statement is at most `b`, so the scaled
/// byte offset it emits fits the constant operand.
pub open spec fn stmt_moves_le(s: Statement, b: int) -> bool
    decreases s,
{
    match s {
        Statement::MoveL(n) => n <= b,
        Statement::MoveR(n) => n <= b,
        Statement::Loop(bk) => stats_moves_le(bk.stats@, b),
        _ => true,
    }
}

/// Every pointer-move count in a statement list is at most `b`.
pub open spec fn stats_moves_le(ss: Seq<NodeStatement>, b: int) -> bool
    decreases ss,
{
    ss.len() == 0 || (stmt_moves_le(ss[0].stat, b) && stats_moves_le(ss.drop_first(), b))
}

/// The bounds-check guard emitted directly after each pointer move, with
/// `tc` and `lc` the counter values on entry: compute the offset of the
/// pointer from the tape base, compare it against half the tape capacity,
/// and either continue or return status 1.
pub open spec fn guard_items(tc: int, lc: int, cap: u64) -> Seq<Item> {
    seq![
        Item::Assign(
            TmpVal::Num((tc + 1) as u64),
            IrTy::Long,
            IrOp::Sub(IrVal::Temp(TmpVal::Ptr), IrVal::Temp(TmpVal::Tape)),
        ),
        Item::Assign(
            TmpVal::Num((tc + 2) as u64),
            IrTy::Long,
            IrOp::CmpSgt(IrVal::Lit(cap / 2), IrVal::Temp(TmpVal::Num((tc + 1) as u64))),
        ),
        Item::Stmt(
            IrStmt::Jnz(
                IrVal::Temp(TmpVal::Num((tc + 2) as u64)),
                Lbl::Cont(lc as u64),
                Lbl::Halt((lc + 1) as u64),
            ),
        ),
        Item::Block(Lbl::Halt((lc + 1) as u64)),
        Item::Stmt(IrStmt::Ret(1)),
        Item::Block(Lbl::Cont(lc as u64)),
    ]
}

/// The items lowering one statement emits, with `tc` and `lc` the counter
/// values on entry.
pub open spec fn stmt_items(s: Statement, tc: int, lc: int, cap: u64) -> Seq<Item>
    decreases s,
{
    match s {
        Statement::MoveL(n) => seq![
            Item::Assign(
                TmpVal::Ptr,
                IrTy::Long,
                IrOp::Sub(IrVal::Temp(TmpVal::Ptr), IrVal::Lit((n * 8) as u64)),
            ),
        ] + guard_items(tc, lc, cap),
        Statement::MoveR(n) => seq![
            Item::Assign(
                TmpVal::Ptr,
                IrTy::Long,
                IrOp::Add(IrVal::Temp(TmpVal::Ptr), IrVal::Lit((n * 8) as u64)),
            ),
        ] + guard_items(tc, lc, cap),
        Statement::Add(n) => seq![
            Item::Assign(TmpVal::Num(tc as u64), IrTy::Word, IrOp::Load(IrVal::Temp(TmpVal::Ptr))),
            Item::Assign(
                TmpVal::Num(tc as u64),
                IrTy::Word,
                IrOp::Add(IrVal::Temp(TmpVal::Num(tc as u64)), IrVal::Lit(n as u64)),
            ),
            Item::Stmt(
                IrStmt::Store(IrVal::Temp(TmpVal::Ptr), IrVal::Temp(TmpVal::Num(tc as u64))),
            ),
        ],
        Statement::Sub(n) => seq![
            Item::Assign(TmpVal::Num(tc as u64), IrTy::Word, IrOp::Load(IrVal::Temp(TmpVal::Ptr))),
            Item::Assign(
                TmpVal::Num(tc as u64),
                IrTy::Word,
                IrOp::Sub(IrVal::Temp(TmpVal::Num(tc as u64)), IrVal::Lit(n as u64)),
            ),
            Item::Stmt(
                IrStmt::Store(IrVal::Temp(TmpVal::Ptr), IrVal::Temp(TmpVal::Num(tc as u64))),
            ),
        ],
        Statement::Read => seq![Item::Stmt(IrStmt::Call(CallFn::Read, 0, 1))],
        Statement::Write => seq![Item::Stmt(IrStmt::Call(CallFn::Write, 1, 1))],
        Statement::Loop(b) => seq![
            Item::Assign(TmpVal::Num(tc as u64), IrTy::Word, IrOp::Load(IrVal::Temp(TmpVal::Ptr))),
            Item::Stmt(
                IrStmt::Jnz(
                    IrVal::Temp(TmpVal::Num(tc as u64)),
                    Lbl::Loop(lc as u64),
                    Lbl::End(lc as u64),
                ),
            ),
            Item::Block(Lbl::Loop(lc as u64)),
        ] + stats_items(b.stats@, tc + 1, lc + 1, cap) + seq![
            Item::Assign(TmpVal::Num(tc as u64), IrTy::Word, IrOp::Load(IrVal::Temp(TmpVal::Ptr))),
            Item::Stmt(
                IrStmt::Jnz(
                    IrVal::Temp(TmpVal::Num(tc as u64)),
                    Lbl::Loop(lc as u64),
                    Lbl::End(lc as u64),
                ),
            ),
            Item::Block(Lbl::End(lc as u64)),
        ],
    }
}

/// The items lowering a statement list emits, threading the counters left
/// to right.
pub open spec fn stats_items(ss: Seq<NodeStatement>, tc: int, lc: int, cap: u64) -> Seq<Item>
    decreases ss,
{
    if ss.len() == 0 {
        Seq::empty()
    } else {
        stmt_items(ss[0].stat, tc, lc, cap) + stats_items(
            ss.drop_first(),
            tc + stmt_tmps(ss[0].stat),
            lc + stmt_labels(ss[0].stat),
            cap,
        )
    }
}

/// Everything the generated procedure holds: the runtime prologue that
/// allocates the tape and aims the pointer at its base, the lowered program,
/// and the final return of status 0.
pub open spec fn main_items(prog: NodeBlock, tc: int, lc: int, cap: u64) -> Seq<Item> {
    seq![
        Item::Block(Lbl::Runtime),
        Item::Assign(TmpVal::Tape, IrTy::Long, IrOp::Alloc8(cap)),
        Item::Assign(TmpVal::Ptr, IrTy::Long, IrOp::Copy(IrVal::Temp(TmpVal::Tape))),
        Item::Block(Lbl::Start),
    ] + stats_items(prog.stats@, tc, lc, cap) + seq![Item::Stmt(IrStmt::Ret(0))]
}

/// Lowering one statement spends at most three temporary ids and two label
/// ids per token it was parsed from, and every statement has a token.
pub proof fn lemma_stmt_budget(s: Statement)
    ensures
        stmt_tmps(s) <= 3 * stmt_tokens(s).len(),
        stmt_labels(s) <= 2 * stmt_tokens(s).len(),
        stmt_tokens(s).len() >= 1,
    decreases s,
{
    match s {
        Statement::Loop(b) => {
            lemma_stats_budget(b.stats@);
        },
        _ => {},
    }
}

/// Lowering a statement list spends at most three temporary ids and two
/// label ids per token.
pub proof fn lemma_stats_budget(ss: Seq<NodeStatement>)
    ensures
        stats_tmps(ss) <= 3 * stats_tokens(ss).len(),
        stats_labels(ss) <= 2 * stats_tokens(ss).len(),
    decreases ss,
{
    if ss.len() > 0 {
        lemma_stmt_budget(ss[0].stat);
        lemma_stats_budget(ss.drop_first());
    }
}

/// A statement's pointer-move counts are bounded by any bound on the run
/// lengths of the tokens it was parsed from.
pub proof fn lemma_stmt_moves_from_tokens(s: Statement, b: int)
    requires
        forall|j: int|
            0 <= j < stmt_tokens(s).len() ==> crate::lex::token_count_le(
                #[trigger] stmt_tokens(s)[j],
                b,
            ),
    ensures
        stmt_moves_le(s, b),
    decreases s,
{
    match s {
        Statement::MoveL(n) => {
            assert(stmt_tokens(s)[0] == Token::MoveL(n));
        },
        Statement::MoveR(n) => {
            assert(stmt_tokens(s)[0] == Token::MoveR(n));
        },
        Statement::Loop(bk) => {
            let inner = stats_tokens(bk.stats@);
            assert forall|j: int| 0 <= j < inner.len() implies crate::lex::token_count_le(
                #[trigger] inner[j],
                b,
            ) by {
                assert(stmt_tokens(s)[j + 1] == inner[j]);
            }
            lemma_stats_moves_from_tokens(bk.stats@, b);
        },
        _ => {},
    }
}

/// A statement list's pointer-move counts are bounded by any bound on the
/// run lengths of its tokens.
pub proof fn lemma_stats_moves_from_tokens(ss: Seq<NodeStatement>, b: int)
    requires
        forall|j: int|
            0 <= j < stats_tokens(ss).len() ==> crate::lex::token_count_le(
                #[trigger] stats_tokens(ss)[j],
                b,
            ),
    ensures
        stats_moves_le(ss, b),
    decreases ss,
{
    if ss.len() > 0 {
        let h = stmt_tokens(ss[0].stat);
        let t = stats_tokens(ss.drop_first());
        assert forall|j: int| 0 <= j < h.len() implies crate::lex::token_count_le(
            #[trigger] h[j],
            b,
        ) by {
            assert(stats_tokens(ss)[j] == h[j]);
        }
        assert forall|j: int| 0 <= j < t.len() implies crate::lex::token_count_le(
            #[trigger] t[j],
            b,
        ) by {
            assert(stats_tokens(ss)[h.len() + j] == t[j]);
        }
        lemma_stmt_moves_from_tokens(ss[0].stat, b);
        lemma_stats_moves_from_tokens(ss.drop_first(), b);
    }
}


/// How many pointer-move statements one statement holds, nested loops
/// included.
pub open spec fn stmt_moves(s: Statement) -> int
    decreases s,
{
    match s {
        Statement::MoveL(_) => 1,
        Statement::MoveR(_) => 1,
        Statement::Loop(b) => stats_moves(b.stats@),
        _ => 0,
    }
}

/// How many pointer-move statements a statement list holds.
pub open spec fn stats_moves(ss: Seq<NodeStatement>) -> int
    decreases ss,
{
    if ss.len() == 0 {
        0
    } else {
        stmt_moves(ss[0].stat) + stats_moves(ss.drop_first())
    }
}

/// How many bounds-check guards an item sequence holds, counted by their
/// halt blocks: nothing but a guard emits one.
pub open spec fn count_guards(items: Seq<Item>) -> int
    decreases items,
{
    if items.len() == 0 {
        0
    } else {
        (if items[0] matches Item::Block(Lbl::Halt(_)) {
            1int
        } else {
            0int
        }) + count_guards(items.drop_first())
    }
}

proof fn lemma_count_guards_concat(a: Seq<Item>, b: Seq<Item>)
    ensures
        count_guards(a + b) == count_guards(a) + count_guards(b),
    decreases a,
{
    if a.len() == 0 {
        assert(a + b =~= b);
    } else {
        assert((a + b).drop_first() =~= a.drop_first() + b);
        assert((a + b)[0] == a[0]);
        lemma_count_guards_concat(a.drop_first(), b);
    }
}

/// Bounds-guard placement, stated over the emitted items: lowering one
/// statement emits exactly one guard per pointer move it holds, and for a
/// move statement the guard directly follows the single pointer update.
pub proof fn lemma_guard_placement(s: Statement, tc: int, lc: int, cap: u64)
    ensures
        count_guards(stmt_items(s, tc, lc, cap)) == stmt_moves(s),
        (s matches Statement::MoveL(_) || s matches Statement::MoveR(_))
            ==> stmt_items(s, tc, lc, cap).skip(1) == guard_items(tc, lc, cap)
            && stmt_items(s, tc, lc, cap)[0] matches Item::Assign(TmpVal::Ptr, _, _),
    decreases s,
{
    reveal_with_fuel(count_guards, 9);
    match s {
        Statement::MoveL(_) => {
            lemma_count_guards_concat(
                seq![stmt_items(s, tc, lc, cap)[0]],
                guard_items(tc, lc, cap),
            );
            assert(seq![stmt_items(s, tc, lc, cap)[0]] + guard_items(tc, lc, cap) =~= stmt_items(
                s,
                tc,
                lc,
                cap,
            ));
            assert(stmt_items(s, tc, lc, cap).skip(1) =~= guard_items(tc, lc, cap));
        },
        Statement::MoveR(_) => {
            lemma_count_guards_concat(
                seq![stmt_items(s, tc, lc, cap)[0]],
                guard_items(tc, lc, cap),
            );
            assert(seq![stmt_items(s, tc, lc, cap)[0]] + guard_items(tc, lc, cap) =~= stmt_items(
                s,
                tc,
                lc,
                cap,
            ));
            assert(stmt_items(s, tc, lc, cap).skip(1) =~= guard_items(tc, lc, cap));
        },
        Statement::Loop(b) => {
            let head = stmt_items(s, tc, lc, cap).take(3);
            let mid = stats_items(b.stats@, tc + 1, lc + 1, cap);
            let tail = stmt_items(s, tc, lc, cap).skip(3 + mid.len() as int);
            assert(stmt_items(s, tc, lc, cap) =~= (head + mid) + tail);
            lemma_count_guards_concat(head + mid, tail);
            lemma_count_guards_concat(head, mid);
            lemma_stats_guard_placement(b.stats@, tc + 1, lc + 1, cap);
        },
        _ => {},
    }
}

/// Lowering a statement list emits exactly one guard per pointer move.
pub proof fn lemma_stats_guard_placement(ss: Seq<NodeStatement>, tc: int, lc: int, cap: u64)
    ensures
        count_guards(stats_items(ss, tc, lc, cap)) == stats_moves(ss),
    decreases ss,
{
    if ss.len() > 0 {
        lemma_count_guards_concat(
            stmt_items(ss[0].stat, tc, lc, cap),
            stats_items(
                ss.drop_first(),
                tc + stmt_tmps(ss[0].stat),
                lc + stmt_labels(ss[0].stat),
                cap,
            ),
        );
        lemma_guard_placement(ss[0].stat, tc, lc, cap);
        lemma_stats_guard_placement(
            ss.drop_first(),
            tc + stmt_tmps(ss[0].stat),
            lc + stmt_labels(ss[0].stat),
            cap,
        );
    }
}

/// A whole generated procedure holds exactly one guard per pointer move of
/// the program: the prologue and epilogue contribute none.
pub proof fn lemma_main_guard_placement(prog: NodeBlock, tc: int, lc: int, cap: u64)
    ensures
        count_guards(main_items(prog, tc, lc, cap)) == stats_moves(prog.stats@),
{
    reveal_with_fuel(count_guards, 6);
    let pre = seq![
        Item::Block(Lbl::Runtime),
        Item::Assign(TmpVal::Tape, IrTy::Long, IrOp::Alloc8(cap)),
        Item::Assign(TmpVal::Ptr, IrTy::Long, IrOp::Copy(IrVal::Temp(TmpVal::Tape))),
        Item::Block(Lbl::Start),
    ];
    let mid = stats_items(prog.stats@, tc, lc, cap);
    let post = seq![Item::Stmt(IrStmt::Ret(0))];
    assert(main_items(prog, tc, lc, cap) =~= (pre + mid) + post);
    lemma_count_guards_concat(pre + mid, post);
    lemma_count_guards_concat(pre, mid);
    lemma_stats_guard_placement(prog.stats@, tc, lc, cap);
}

/// Determinism: the rendered text is a function of the program and the
/// counter values on entry alone, so two results that both satisfy the
/// generator's contract for the same program and state are byte-identical.
pub proof fn lemma_gen_deterministic(
    prog: NodeBlock,
    tc: int,
    lc: int,
    cap: u64,
    out1: Seq<char>,
    out2: Seq<char>,
)
    requires
        out1 == qbe_text(main_items(prog, tc, lc, cap)),
        out2 == qbe_text(main_items(prog, tc, lc, cap)),
    ensures
        out1 == out2,
{
}


/// A closing bracket never starts a statement, so a block parse stops at
/// once in front of one.
proof fn lemma_close_stops(r: Seq<Token>)
    ensures
        block_consumed(seq![Token::JmpNoZero] + r) == 0,
{
    let t = seq![Token::JmpNoZero] + r;
    assert(t[0] == Token::JmpNoZero);
    assert(t.len() > 0);
    assert(stmt_consumed(t) == Err::<int, crate::ast::Error>(
        crate::ast::Error::UnexpectedToken(Token::JmpNoZero),
    ));
}

/// Two statements that render to the same tokens lower to the same items
/// and spend the same ids: the emitted code is determined by the tokens.
pub proof fn lemma_stmt_items_of_tokens(s1: Statement, s2: Statement, tc: int, lc: int, cap: u64)
    requires
        stmt_tokens(s1) == stmt_tokens(s2),
    ensures
        stmt_items(s1, tc, lc, cap) == stmt_items(s2, tc, lc, cap),
        stmt_tmps(s1) == stmt_tmps(s2),
        stmt_labels(s1) == stmt_labels(s2),
    decreases s1, 0int,
{
    lemma_stmt_head(s1);
    lemma_stmt_head(s2);
    assert(stmt_head(s1) == stmt_head(s2));
    match s1 {
        Statement::Loop(b1) => {
            assert(s2 is Loop);
            let b2 = s2->Loop_0;
            let inner1 = stats_tokens(b1.stats@);
            let inner2 = stats_tokens(b2.stats@);
            let u = stmt_tokens(s1).skip(1);
            assert(u =~= inner1 + seq![Token::JmpNoZero]);
            assert(u =~= inner2 + seq![Token::JmpNoZero]);
            lemma_stats_roundtrip(b1.stats@, seq![Token::JmpNoZero]);
            lemma_stats_roundtrip(b2.stats@, seq![Token::JmpNoZero]);
            lemma_close_stops(Seq::<Token>::empty());
            assert(seq![Token::JmpNoZero] + Seq::<Token>::empty() =~= seq![Token::JmpNoZero]);
            assert(block_consumed(seq![Token::JmpNoZero]) == 0);
            assert(inner1.len() == block_consumed(u));
            assert(inner2.len() == block_consumed(u));
            assert(inner1 =~= u.take(inner1.len() as int));
            assert(inner2 =~= u.take(inner2.len() as int));
            lemma_stats_items_of_tokens(b1.stats@, b2.stats@, tc + 1, lc + 1, cap);
            assert(stmt_items(s1, tc, lc, cap) =~= stmt_items(s2, tc, lc, cap));
        },
        _ => {
            assert(!(s2 is Loop));
        },
    }
}

/// Two statement lists that render to the same tokens lower to the same
/// items and spend the same ids.
pub proof fn lemma_stats_items_of_tokens(
    ss1: Seq<NodeStatement>,
    ss2: Seq<NodeStatement>,
    tc: int,
    lc: int,
    cap: u64,
)
    requires
        stats_tokens(ss1) == stats_tokens(ss2),
    ensures
        stats_items(ss1, tc, lc, cap) == stats_items(ss2, tc, lc, cap),
        stats_tmps(ss1) == stats_tmps(ss2),
        stats_labels(ss1) == stats_labels(ss2),
    decreases ss1, 1int,
{
    if ss1.len() == 0 {
        if ss2.len() > 0 {
            lemma_stmt_head(ss2[0].stat);
            assert(stats_tokens(ss2).len() >= stmt_tokens(ss2[0].stat).len());
        }
    } else if ss2.len() == 0 {
        lemma_stmt_head(ss1[0].stat);
        assert(stats_tokens(ss1).len() >= stmt_tokens(ss1[0].stat).len());
    } else {
        let h1 = stmt_tokens(ss1[0].stat);
        let h2 = stmt_tokens(ss2[0].stat);
        let w = stats_tokens(ss1);
        lemma_stmt_head(ss1[0].stat);
        lemma_stmt_head(ss2[0].stat);
        assert(w[0] == h1[0]);
        assert(w[0] == h2[0]);
        if ss1[0].stat is Loop {
            assert(stmt_head(ss2[0].stat) == Token::JmpZero);
            assert(ss2[0].stat is Loop);
            let a1 = stats_tokens(ss1[0].stat->Loop_0.stats@);
            let a2 = stats_tokens(ss2[0].stat->Loop_0.stats@);
            let u = w.skip(1);
            assert(u =~= a1 + (seq![Token::JmpNoZero] + stats_tokens(ss1.drop_first())));
            assert(u =~= a2 + (seq![Token::JmpNoZero] + stats_tokens(ss2.drop_first())));
            lemma_stats_roundtrip(
                ss1[0].stat->Loop_0.stats@,
                seq![Token::JmpNoZero] + stats_tokens(ss1.drop_first()),
            );
            lemma_stats_roundtrip(
                ss2[0].stat->Loop_0.stats@,
                seq![Token::JmpNoZero] + stats_tokens(ss2.drop_first()),
            );
            lemma_close_stops(stats_tokens(ss1.drop_first()));
            lemma_close_stops(stats_tokens(ss2.drop_first()));
            assert(a1.len() + 2 == h1.len());
            assert(a2.len() + 2 == h2.len());
            assert(a1.len() == block_consumed(u));
            assert(a2.len() == block_consumed(u));
            assert(h1.len() == h2.len());
        } else {
            assert(h1 == seq![stmt_head(ss1[0].stat)]);
            assert(h2 == seq![stmt_head(ss2[0].stat)]);
        }
        assert(h1.len() == h2.len());
        assert(h1 =~= w.take(h1.len() as int));
        assert(h2 =~= w.take(h2.len() as int));
        lemma_stmt_items_of_tokens(ss1[0].stat, ss2[0].stat, tc, lc, cap);
        assert(stats_tokens(ss1.drop_first()) =~= w.skip(h1.len() as int));
        assert(stats_tokens(ss2) =~= h2 + stats_tokens(ss2.drop_first()));
        assert(stats_tokens(ss2.drop_first()) =~= w.skip(h2.len() as int));
        assert(stats_tokens(ss1.drop_first()) =~= stats_tokens(ss2.drop_first()));
        lemma_stats_items_of_tokens(
            ss1.drop_first(),
            ss2.drop_first(),
            tc + stmt_tmps(ss1[0].stat),
            lc + stmt_labels(ss1[0].stat),
            cap,
        );
    }
}

/// Two programs that render to the same tokens generate the same items, so
/// the same module text: what the compiler emits is a function of the
/// source alone.
pub proof fn lemma_main_items_of_tokens(p1: NodeBlock, p2: NodeBlock, tc: int, lc: int, cap: u64)
    requires
        crate::ast::block_tokens(p1) == crate::ast::block_tokens(p2),
    ensures
        main_items(p1, tc, lc, cap) == main_items(p2, tc, lc, cap),
{
    lemma_stats_items_of_tokens(p1.stats@, p2.stats@, tc, lc, cap);
}

/// Generator state: the two monotone id counters and the tape capacity in
/// bytes.
pub struct QbeGenerator {
    label_counter: u64,
    tmp_counter: u64,
    tape_len: u64,
}

impl QbeGenerator {
    /// The next unused temporary id.
    pub closed spec fn tmps(self) -> u64 {
        self.tmp_counter
    }

    /// The next unused label id.
    pub closed spec fn labels(self) -> u64 {
        self.label_counter
    }

    /// The tape allocation size in bytes. Cells are addressed with an
    /// eight-byte stride, and the bounds guard admits offsets below half
    /// the allocation, so this holds 30,000 addressable cells.
    pub closed spec fn cap(self) -> u64 {
        self.tape_len
    }

    /// A fresh generator: both counters at zero, default tape capacity.
    pub fn new() -> (g: QbeGenerator)
        ensures
            g.tmps() == 0,
            g.labels() == 0,
            g.cap() == 480000,
    {
        QbeGenerator { tmp_counter: 0, label_counter: 0, tape_len: 16 * 30000 }
    }

    /// The pointer temporary.
    fn generate_ptr(&self) -> (t: TmpVal)
        ensures
            t == TmpVal::Ptr,
    {
        TmpVal::Ptr
    }

    /// Allocate a fresh temporary id.
    fn generate_tmp(&mut self) -> (t: TmpVal)
        requires
            old(self).tmps() < u64::MAX,
        ensures
            final(self).tmps() == old(self).tmps() + 1,
            final(self).labels() == old(self).labels(),
            final(self).cap() == old(self).cap(),
            t == TmpVal::Num(old(self).tmps()),
    {
        let c = self.tmp_counter;
        self.tmp_counter = c + 1;
        TmpVal::Num(c)
    }

    /// Allocate a fresh label id.
    fn generate_label(&mut self) -> (c: u64)
        requires
            old(self).labels() < u64::MAX,
        ensures
            final(self).labels() == old(self).labels() + 1,
            final(self).tmps() == old(self).tmps(),
            final(self).cap() == old(self).cap(),
            c == old(self).labels(),
    {
        let c = self.label_counter;
        self.label_counter = c + 1;
        c
    }

    /// Emit the runtime prologue: allocate the tape and point the cell
    /// pointer at its base.
    fn generate_runtime(&mut self, func: &mut qbe::Function)
        requires
            has_block(sink_items(*old(func))),
        ensures
            final(self).tmps() == old(self).tmps(),
            final(self).labels() == old(self).labels(),
            final(self).cap() == old(self).cap(),
            sink_items(*final(func)) == sink_items(*old(func)) + seq![
                Item::Assign(TmpVal::Tape, IrTy::Long, IrOp::Alloc8(old(self).cap())),
                Item::Assign(TmpVal::Ptr, IrTy::Long, IrOp::Copy(IrVal::Temp(TmpVal::Tape))),
            ],
    {
        broadcast use lemma_has_block_push;
        let ghost items0 = sink_items(*func);
        let cap = self.tape_len;
        push_assign(func, TmpVal::Tape, IrTy::Long, IrOp::Alloc8(cap));
        push_assign(func, TmpVal::Ptr, IrTy::Long, IrOp::Copy(IrVal::Temp(TmpVal::Tape)));
        proof {
            assert(sink_items(*func) =~= items0 + seq![
                Item::Assign(TmpVal::Tape, IrTy::Long, IrOp::Alloc8(cap)),
                Item::Assign(TmpVal::Ptr, IrTy::Long, IrOp::Copy(IrVal::Temp(TmpVal::Tape))),
            ]);
        }
    }

    /// Emit the bounds-check guard that follows every pointer move.
    fn generate_bounds_check(&mut self, func: &mut qbe::Function)
        requires
            old(self).tmps() + 3 <= u64::MAX,
            old(self).labels() + 2 <= u64::MAX,
            has_block(sink_items(*old(func))),
        ensures
            final(self).tmps() == old(self).tmps() + 3,
            final(self).labels() == old(self).labels() + 2,
            final(self).cap() == old(self).cap(),
            sink_items(*final(func)) == sink_items(*old(func)) + guard_items(
                old(self).tmps() as int,
                old(self).labels() as int,
                old(self).cap(),
            ),
    {
        broadcast use lemma_has_block_push;
        let ghost items0 = sink_items(*func);
        let cont = Lbl::Cont(self.generate_label());
        let halt = Lbl::Halt(self.generate_label());
        // One temporary id is spent on the guard predicate, though nothing
        // reads it.
        let _pred = self.generate_tmp();
        let offset = self.generate_tmp();
        push_assign(
            func,
            offset,
            IrTy::Long,
            IrOp::Sub(IrVal::Temp(TmpVal::Ptr), IrVal::Temp(TmpVal::Tape)),
        );
        let in_bounds = self.generate_tmp();
        push_assign(
            func,
            in_bounds,
            IrTy::Long,
            IrOp::CmpSgt(IrVal::Lit(self.tape_len / 2), IrVal::Temp(offset)),
        );
        push_jnz(func, IrVal::Temp(in_bounds), cont, halt);
        push_block(func, halt);
        push_ret(func, 1);
        push_block(func, cont);
        proof {
            assert(sink_items(*func) =~= items0 + guard_items(
                old(self).tmps() as int,
                old(self).labels() as int,
                old(self).cap(),
            ));
        }
    }

    /// Lower one statement, emitting exactly the items `stmt_items`
    /// describes for the counter values on entry.
    fn generate_statement(&mut self, func: &mut qbe::Function, stat: &NodeStatement)
        requires
            stmt_moves_le(stat.stat, u64::MAX as int / 8),
            old(self).tmps() + stmt_tmps(stat.stat) <= u64::MAX,
            old(self).labels() + stmt_labels(stat.stat) <= u64::MAX,
            sink_items(*old(func)).len() >= 1,
            sink_items(*old(func))[0] is Block,
        ensures
            final(self).tmps() == old(self).tmps() + stmt_tmps(stat.stat),
            final(self).labels() == old(self).labels() + stmt_labels(stat.stat),
            final(self).cap() == old(self).cap(),
            sink_items(*final(func)) == sink_items(*old(func)) + stmt_items(
                stat.stat,
                old(self).tmps() as int,
                old(self).labels() as int,
                old(self).cap(),
            ),
        decreases stat, 0int, 0int,
    {
        broadcast use lemma_has_block_push;
        let ghost items0 = sink_items(*func);
        let ghost tc = old(self).tmps() as int;
        let ghost lc = old(self).labels() as int;
        let ghost cap = old(self).cap();
        match &stat.stat {
            Statement::MoveL(n) => {
                let d: u64 = (*n as u64) * 8;
                push_assign(
                    func,
                    TmpVal::Ptr,
                    IrTy::Long,
                    IrOp::Sub(IrVal::Temp(TmpVal::Ptr), IrVal::Lit(d)),
                );
                proof {
                    assert(sink_items(*func)[0] is Block);
                    assert(has_block(sink_items(*func)));
                }
                self.generate_bounds_check(func);
                proof {
                    assert(sink_items(*func) =~= items0 + stmt_items(stat.stat, tc, lc, cap));
                }
            },
            Statement::MoveR(n) => {
                let d: u64 = (*n as u64) * 8;
                push_assign(
                    func,
                    TmpVal::Ptr,
                    IrTy::Long,
                    IrOp::Add(IrVal::Temp(TmpVal::Ptr), IrVal::Lit(d)),
                );
                proof {
                    assert(sink_items(*func)[0] is Block);
                    assert(has_block(sink_items(*func)));
                }
                self.generate_bounds_check(func);
                proof {
                    assert(sink_items(*func) =~= items0 + stmt_items(stat.stat, tc, lc, cap));
                }
            },
            Statement::Add(n) => {
                let tmp = self.generate_tmp();
                push_assign(func, tmp, IrTy::Word, IrOp::Load(IrVal::Temp(self.generate_ptr())));
                push_assign(
                    func,
                    tmp,
                    IrTy::Word,
                    IrOp::Add(IrVal::Temp(tmp), IrVal::Lit(*n as u64)),
                );
                push_store(func, IrVal::Temp(self.generate_ptr()), IrVal::Temp(tmp));
                proof {
                    assert(sink_items(*func) =~= items0 + stmt_items(stat.stat, tc, lc, cap));
                }
            },
            Statement::Sub(n) => {
                let tmp = self.generate_tmp();
                push_assign(func, tmp, IrTy::Word, IrOp::Load(IrVal::Temp(self.generate_ptr())));
                push_assign(
                    func,
                    tmp,
                    IrTy::Word,
                    IrOp::Sub(IrVal::Temp(tmp), IrVal::Lit(*n as u64)),
                );
                push_store(func, IrVal::Temp(self.generate_ptr()), IrVal::Temp(tmp));
                proof {
                    assert(sink_items(*func) =~= items0 + stmt_items(stat.stat, tc, lc, cap));
                }
            },
            Statement::Read => {
                push_call(func, CallFn::Read, 0, 1);
                proof {
                    assert(sink_items(*func) =~= items0 + stmt_items(stat.stat, tc, lc, cap));
                }
            },
            Statement::Write => {
                push_call(func, CallFn::Write, 1, 1);
                proof {
                    assert(sink_items(*func) =~= items0 + stmt_items(stat.stat, tc, lc, cap));
                }
            },
            Statement::Loop(b) => {
                let c = self.label_counter;
                self.label_counter = c + 1;
                let tmp = self.generate_tmp();
                push_assign(func, tmp, IrTy::Word, IrOp::Load(IrVal::Temp(TmpVal::Ptr)));
                push_jnz(func, IrVal::Temp(tmp), Lbl::Loop(c), Lbl::End(c));
                push_block(func, Lbl::Loop(c));
                proof {
                    assert(sink_items(*func)[0] is Block);
                }
                let ghost items1 = sink_items(*func);
                self.generate_block(func, b);
                proof {
                    assert(sink_items(*func)[0] == items1[0]);
                    assert(has_block(sink_items(*func)));
                }
                push_assign(func, tmp, IrTy::Word, IrOp::Load(IrVal::Temp(TmpVal::Ptr)));
                push_jnz(func, IrVal::Temp(tmp), Lbl::Loop(c), Lbl::End(c));
                push_block(func, Lbl::End(c));
                proof {
                    assert(sink_items(*func) =~= items0 + stmt_items(stat.stat, tc, lc, cap));
                }
            },
        }
    }

    /// Lower every statement of a block, in order.
    fn generate_block(&mut self, func: &mut qbe::Function, block: &NodeBlock)
        requires
            stats_moves_le(block.stats@, u64::MAX as int / 8),
            old(self).tmps() + stats_tmps(block.stats@) <= u64::MAX,
            old(self).labels() + stats_labels(block.stats@) <= u64::MAX,
            sink_items(*old(func)).len() >= 1,
            sink_items(*old(func))[0] is Block,
        ensures
            final(self).tmps() == old(self).tmps() + stats_tmps(block.stats@),
            final(self).labels() == old(self).labels() + stats_labels(block.stats@),
            final(self).cap() == old(self).cap(),
            sink_items(*final(func)) == sink_items(*old(func)) + stats_items(
                block.stats@,
                old(self).tmps() as int,
                old(self).labels() as int,
                old(self).cap(),
            ),
        decreases block, 0int, 0int,
    {
        proof {
            assert(block.stats@.skip(0) =~= block.stats@);
        }
        self.generate_stats(func, &block.stats, 0);
    }

    /// Lower the statements of `stats` from position `i` on.
    fn generate_stats(&mut self, func: &mut qbe::Function, stats: &Vec<NodeStatement>, i: usize)
        requires
            i <= stats@.len(),
            stats_moves_le(stats@.skip(i as int), u64::MAX as int / 8),
            old(self).tmps() + stats_tmps(stats@.skip(i as int)) <= u64::MAX,
            old(self).labels() + stats_labels(stats@.skip(i as int)) <= u64::MAX,
            sink_items(*old(func)).len() >= 1,
            sink_items(*old(func))[0] is Block,
        ensures
            final(self).tmps() == old(self).tmps() + stats_tmps(stats@.skip(i as int)),
            final(self).labels() == old(self).labels() + stats_labels(stats@.skip(i as int)),
            final(self).cap() == old(self).cap(),
            sink_items(*final(func)) == sink_items(*old(func)) + stats_items(
                stats@.skip(i as int),
                old(self).tmps() as int,
                old(self).labels() as int,
                old(self).cap(),
            ),
        decreases stats, stats@.len() - i, 1int,
    {
        let ghost ss = stats@.skip(i as int);
        if i == stats.len() {
            proof {
                assert(ss =~= Seq::<NodeStatement>::empty());
                assert(sink_items(*func) =~= sink_items(*func) + stats_items(
                    ss,
                    old(self).tmps() as int,
                    old(self).labels() as int,
                    old(self).cap(),
                ));
            }
            return ;
        }
        proof {
            assert(ss[0] == stats@[i as int]);
            assert(ss.drop_first() =~= stats@.skip(i as int + 1));
        }
        let ghost items0 = sink_items(*func);
        let st = &stats[i];
        self.generate_statement(func, st);
        proof {
            assert(sink_items(*func)[0] is Block);
        }
        self.generate_stats(func, stats, i + 1);
        proof {
            assert(sink_items(*func) =~= items0 + stats_items(
                ss,
                old(self).tmps() as int,
                old(self).labels() as int,
                old(self).cap(),
            ));
        }
    }

    /// Lower a whole program into the text of a module holding one public
    /// procedure. Generation never fails; the result is exactly the
    /// rendering of `main_items` for the counter values on entry, so equal
    /// programs and counters give byte-identical text.
    pub fn gen(&mut self, prog: &Prog) -> (r: Result<String, crate::ast::Error>)
        requires
            stats_moves_le(prog.stats@, u64::MAX as int / 8),
            old(self).tmps() + stats_tmps(prog.stats@) <= u64::MAX,
            old(self).labels() + stats_labels(prog.stats@) <= u64::MAX,
        ensures
            r is Ok,
            (r->Ok_0)@ == qbe_text(
                main_items(
                    *prog,
                    old(self).tmps() as int,
                    old(self).labels() as int,
                    old(self).cap(),
                ),
            ),
            final(self).tmps() == old(self).tmps() + stats_tmps(prog.stats@),
            final(self).labels() == old(self).labels() + stats_labels(prog.stats@),
            final(self).cap() == old(self).cap(),
    {
        broadcast use lemma_has_block_push;

        let mut func = new_main_function();
        push_block(&mut func, Lbl::Runtime);
        proof {
            assert(sink_items(func)[0] is Block);
            assert(has_block(sink_items(func)));
        }
        self.generate_runtime(&mut func);
        push_block(&mut func, Lbl::Start);
        proof {
            assert(sink_items(func)[0] is Block);
        }
        self.generate_block(&mut func, prog);
        proof {
            assert(sink_items(func)[0] is Block);
            assert(has_block(sink_items(func)));
        }
        push_ret(&mut func, 0);
        proof {
            assert(sink_items(func) =~= main_items(
                *prog,
                old(self).tmps() as int,
                old(self).labels() as int,
                old(self).cap(),
            ));
        }
        Ok(finish_module(func))
    }
}

} // verus!
