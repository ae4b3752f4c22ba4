//! The code generator: so far it emits a prelude and one opening line per
//! statement.

use crate::parser::AST;
use vstd::prelude::*;
use vstd::string::StringExecFns;

verus! {

/// The text generated for a program of `statements` statements: the
/// prelude, then one opening line for each statement.
pub open spec fn generated(statements: nat) -> Seq<char>
    decreases statements,
{
    if statements == 0 {
        "use std::io::{self, Write};\n"@
    } else {
        generated((statements - 1) as nat) + "fn main() {\n"@
    }
}

/// Generates the text for `ast`.
pub fn generate(ast: &AST) -> (code: String)
    ensures
        code@ == generated(ast.statements@.len()),
{
    let mut code = String::new();
    code.append("use std::io::{self, Write};\n");
    assert(code@ =~= generated(0));
    let mut done: usize = 0;
    while done < ast.statements.len()
        invariant
            done <= ast.statements@.len(),
            code@ == generated(done as nat),
        decreases ast.statements@.len() - done,
    {
        code.append("fn main() {\n");
        done = done + 1;
    }
    code
}

} // verus!
