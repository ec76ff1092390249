//! The prompt handed to the language model with the retrieved context.

use vstd::prelude::*;
use vstd::string::StringExecFns;

verus! {

/// The prompt for `query`: the bare query when there is no context, else
/// `"Context: {context}\n\nQuestion: {query}"`.
pub fn build_prompt(context: &str, query: &str) -> (r: String)
    ensures
        r@ == if context@.len() == 0 {
            query@
        } else {
            "Context: "@ + context@ + "\n\nQuestion: "@ + query@
        },
{
    if context.is_empty() {
        return query.to_owned();
    }
    let mut p = String::from_str("Context: ");
    p.append(context);
    p.append("\n\nQuestion: ");
    p.append(query);
    p
}

} // verus!
