//! Routing of a hook invocation to the handler registered under its name.
use vstd::prelude::*;

use crate::error::JujuError;
use crate::text::{owned, piece};

verus! {

/// A handler registered under the name of the hook it serves.
#[derive(Debug, PartialEq)]
pub struct Hook<F> {
    /// The name of the hook to call
    pub name: String,
    /// The function to call when the orchestrator runs this hook; it returns
    /// a message on failure.
    pub callback: F,
}

impl<F> Hook<F> {
    /// A handler for the hook `name`.
    pub fn new(name: &str, callback: F) -> (h: Hook<F>)
        ensures
            h.name@ == name@,
            h.callback == callback,
    {
        Hook { name: owned(name), callback }
    }
}

/// Whether `i` is the first entry of `registry` named `name`.
pub open spec fn is_first_match<F>(registry: Seq<Hook<F>>, name: Seq<char>, i: int) -> bool {
    &&& 0 <= i < registry.len()
    &&& registry[i].name@ == name
    &&& forall|j: int| 0 <= j < i ==> (#[trigger] registry[j]).name@ != name
}

/// No entry of `registry` is named `name`.
pub open spec fn no_match<F>(registry: Seq<Hook<F>>, name: Seq<char>) -> bool {
    forall|j: int| 0 <= j < registry.len() ==> (#[trigger] registry[j]).name@ != name
}

/// What the dispatcher returns for a callback's outcome.
pub open spec fn dispatch_result(out: Result<(), String>) -> Result<(), JujuError> {
    match out {
        Ok(()) => Ok(()),
        Err(m) => Err(JujuError::CallbackFailure(m)),
    }
}

/// The position of the first handler registered under exactly `name`.
pub fn find_hook<F>(registry: &Vec<Hook<F>>, name: &str) -> (r: Option<usize>)
    ensures
        match r {
            Some(i) => is_first_match(registry@, name@, i as int),
            None => no_match(registry@, name@),
        },
{
    let wanted = owned(name);
    let mut i: usize = 0;
    while i < registry.len()
        invariant
            i <= registry@.len(),
            wanted@ == name@,
            forall|j: int| 0 <= j < i ==> (#[trigger] registry@[j]).name@ != name@,
        decreases registry@.len() - i,
    {
        if registry[i].name == wanted {
            return Some(i);
        }
        i = i + 1;
    }
    None
}

/// Runs the handler registered first under exactly `hook_name`, once, and
/// returns its outcome, a failure carrying the callback's own message. Where
/// no handler carries that name, no callback runs and the error names the
/// hook.
pub fn process_hooks<F: Fn() -> Result<(), String>>(registry: Vec<Hook<F>>, hook_name: &str) -> (r: Result<
    (),
    JujuError,
>)
    requires
        forall|i: int| 0 <= i < registry@.len() ==> call_requires(#[trigger] registry@[i].callback, ()),
    ensures
        no_match(registry@, hook_name@) ==> r is Err && r->Err_0 is UnknownHook && r->Err_0.message()
            == hook_name@,
        forall|i: int|
            is_first_match(registry@, hook_name@, i) ==> exists|out: Result<(), String>|
                call_ensures(#[trigger] registry@[i].callback, (), out) && r == dispatch_result(out),
{
    match find_hook(&registry, hook_name) {
        Some(i) => {
            let f = &registry[i].callback;
            let out = f();
            let r = match out {
                Ok(()) => Ok(()),
                Err(m) => Err(JujuError::CallbackFailure(m)),
            };
            proof {
                assert(r == dispatch_result(out));
                assert forall|k: int| is_first_match(registry@, hook_name@, k) implies exists|o: Result<(), String>|
                    call_ensures(#[trigger] registry@[k].callback, (), o) && r == dispatch_result(o) by {
                    if k < i {
                        assert(registry@[k].name@ != hook_name@);
                    }
                    if i < k {
                        assert(registry@[i as int].name@ != hook_name@);
                    }
                    assert(k == i);
                    assert(call_ensures(registry@[k].callback, (), out));
                }
            }
            r
        },
        None => Err(JujuError::UnknownHook(owned(hook_name))),
    }
}

/// What follows the last `/` of `path`, or all of it where it has none.
pub open spec fn file_name(path: Seq<char>) -> Seq<char>
    decreases path.len(),
{
    if path.len() == 0 {
        path
    } else if path.last() == '/' {
        Seq::empty()
    } else {
        file_name(path.drop_last()).push(path.last())
    }
}

proof fn lemma_file_name(path: Seq<char>, j: int)
    requires
        0 <= j <= path.len(),
        j == 0 || path[j - 1] == '/',
        forall|m: int| j <= m < path.len() ==> path[m] != '/',
    ensures
        file_name(path) == path.subrange(j, path.len() as int),
    decreases path.len(),
{
    if path.len() == j {
        assert(path.subrange(j, j) =~= Seq::<char>::empty());
    } else {
        lemma_file_name(path.drop_last(), j);
        assert(path.subrange(j, path.len() as int) =~= path.drop_last().subrange(j, path.len() - 1).push(
            path.last(),
        ));
    }
}

/// The name of the running hook: the value given by the environment where
/// there is one, else the file name of the running program.
pub open spec fn hook_name_of(from_env: Option<Seq<char>>, program: Seq<char>) -> Seq<char> {
    match from_env {
        Some(n) => n,
        None => file_name(program),
    }
}

/// The name of the running hook, from the hook name that the environment
/// gives, if any, and the path of the running program.
pub fn hook_name(from_env: Option<String>, program: &str) -> (r: String)
    ensures
        r@ == hook_name_of(
            match from_env {
                Some(n) => Some(n@),
                None => None,
            },
            program@,
        ),
{
    match from_env {
        Some(n) => n,
        None => {
            let n = program.unicode_len();
            let mut j: usize = n;
            while j > 0 && program.get_char(j - 1) != '/'
                invariant
                    n == program@.len(),
                    j <= n,
                    forall|m: int| j <= m < n ==> program@[m] != '/',
                decreases j,
            {
                j = j - 1;
            }
            proof {
                lemma_file_name(program@, j as int);
            }
            piece(program, j, n)
        },
    }
}

} // verus!
