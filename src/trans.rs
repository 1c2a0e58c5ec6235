use vstd::prelude::*;

use crate::ast::Node;
use crate::comp::{decls, fns_view, pairs_view, top_spec, CompileError, Compiler, Function, FunctionView};

verus! {

/// Every function is well-formed for the declarations `d`.
pub open spec fn all_wf_in(fs: Seq<Function>, d: Seq<(String, usize)>) -> bool {
    forall|k: int| 0 <= k < fs.len() ==> (#[trigger] fs[k]).wf_in(d)
}

/// Builds the functions that a program defines at its top level, without a `main`.
pub struct Translator {}

impl Translator {
    /// The functions defined by a function definition, or by a block of them.
    pub fn translate(node: &Node) -> (r: Result<Vec<Function>, CompileError>)
        ensures
            match decls(node.view()) {
                None => r is Err && r->Err_0 is Unsupported,
                Some(dd) => match top_spec(node.view(), Seq::empty(), dd) {
                    Ok(fs) => r is Ok && fns_view(r->Ok_0@) == fs,
                    Err(e) => r is Err && r->Err_0.view() == e,
                },
            },
            r is Ok ==> exists|d: Seq<(String, usize)>| #[trigger] all_wf_in(r->Ok_0@, d),
    {
        let mut c = Compiler { fn_decls: Vec::new(), functions: Vec::new() };
        proof {
            assert(pairs_view(c.fn_decls@) =~= Seq::<(Seq<char>, nat)>::empty());
            assert(fns_view(c.functions@) =~= Seq::<FunctionView>::empty());
            if decls(node.view()) is Some {
                assert(Seq::<(Seq<char>, nat)>::empty() + decls(node.view())->Some_0 =~= decls(node.view())->Some_0);
            }
        }
        match c.translate_top_level(node) {
            Ok(()) => {},
            Err(e) => return Err(e),
        }
        let ghost d = c.fn_decls@;
        let fs = c.functions;
        assert(all_wf_in(fs@, d));
        let r: Result<Vec<Function>, CompileError> = Ok(fs);
        assert(r->Ok_0@ == fs@);
        assert(exists|d2: Seq<(String, usize)>| #[trigger] all_wf_in(r->Ok_0@, d2));
        r
    }
}

} // verus!
