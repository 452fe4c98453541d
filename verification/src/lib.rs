use vstd::prelude::*;

pub mod ast;
pub mod gen;
pub mod lex;

verus! {

/// Run the whole pipeline: scan the source into tokens, parse them into a
/// program, and lower the program to module text. The result is the exact
/// rendering of the lowered program, or the parse error when the token
/// stream does not form one; nothing else can fail. The length bound keeps
/// every emitted constant and id within machine range.
pub fn compile(src: String) -> (r: Result<String, ast::Error>)
    requires
        8 * src@.len() <= u64::MAX,
    ensures
        match r {
            Ok(out) => {
                &&& ast::block_consumed(lex::lex_spec(src@)) == lex::lex_spec(src@).len()
                &&& exists|prog: ast::NodeBlock|
                    #[trigger] ast::block_tokens(prog) == lex::lex_spec(src@)
                &&& forall|prog: ast::NodeBlock|
                    #[trigger] ast::block_tokens(prog) == lex::lex_spec(src@) ==> out@
                        == gen::qbe_text(gen::main_items(prog, 0, 0, 480000))
            },
            Err(e) => {
                &&& ast::block_consumed(lex::lex_spec(src@)) < lex::lex_spec(src@).len()
                &&& ast::stmt_consumed(
                    lex::lex_spec(src@).skip(ast::block_consumed(lex::lex_spec(src@))),
                ) == Err::<int, ast::Error>(e)
            },
        },
{
    let ghost srcv = src@;
    let tokens = lex::lex(src);
    proof {
        lex::lemma_lex_from_counts(srcv, 0);
    }
    match ast::parse(tokens.as_slice()) {
        Err(e) => Err(e),
        Ok(prog) => {
            proof {
                assert(ast::block_tokens(prog) == tokens@);
                assert(srcv.len() <= u64::MAX as int / 8);
                assert forall|j: int|
                    0 <= j < ast::stats_tokens(prog.stats@).len() implies lex::token_count_le(
                    #[trigger] ast::stats_tokens(prog.stats@)[j],
                    u64::MAX as int / 8,
                ) by {
                    assert(ast::stats_tokens(prog.stats@)[j] == lex::lex_spec(srcv)[j]);
                    assert(lex::token_count_le(lex::lex_spec(srcv)[j], srcv.len() as int));
                }
                gen::lemma_stats_moves_from_tokens(prog.stats@, u64::MAX as int / 8);
                gen::lemma_stats_budget(prog.stats@);
            }
            let mut generator = gen::QbeGenerator::new();
            match generator.gen(&prog) {
                Ok(out) => {
                    proof {
                        assert(ast::block_tokens(prog) == lex::lex_spec(srcv));
                        assert forall|prog2: ast::NodeBlock|
                            #[trigger] ast::block_tokens(prog2) == lex::lex_spec(
                                srcv,
                            ) implies out@ == gen::qbe_text(
                            gen::main_items(prog2, 0, 0, 480000),
                        ) by {
                            gen::lemma_main_items_of_tokens(prog, prog2, 0, 0, 480000);
                        }
                    }
                    Ok(out)
                },
                Err(e) => Err(e),
            }
        },
    }
}

} // verus!
