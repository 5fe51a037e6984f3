//! Reading a grammar from JSON text: an object that maps each rule name to its
//! alternatives, each a list of symbol strings.
use vstd::prelude::*;
use crate::grammar::{CompileError, Grammar, GrammarRust, compile_outcome};
use crate::model::{RuleModel, rule_names};

verus! {

#[verifier::external_type_specification]
#[verifier::external_body]
pub struct ExJsonError(serde_json::Error);

/// The rules that a JSON text describes, in the order of their names, or
/// nothing where the text is not such an object.
pub uninterp spec fn json_rules(text: Seq<u8>) -> Option<Seq<RuleModel>>;

/// Relies on serde_json::from_slice into a `BTreeMap`: on success each key of
/// the object is a rule, yielded once, in key order.
#[verifier::external_body]
fn parse_rules(text: &[u8]) -> (r: Result<Grammar, serde_json::Error>)
    ensures
        match r {
            Ok(g) => json_rules(text@) == Some(g.rules()) && rule_names(g.rules()).no_duplicates(),
            Err(_) => json_rules(text@) is None,
        },
{
    serde_json::from_slice::<std::collections::BTreeMap<String, Vec<Vec<String>>>>(text).map(
        |m| Grammar(m.into_iter().collect()),
    )
}

/// Reads a grammar from JSON text and compiles it. Fails with
/// `InvalidJsonError` where the text is not an object of rules, else as
/// `GrammarRust::new` does.
pub fn compile_json(text: &[u8]) -> (r: Result<GrammarRust, CompileError>)
    ensures
        (r matches Err(CompileError::InvalidJsonError)) <==> json_rules(text@) is None,
        json_rules(text@) is Some ==> compile_outcome(json_rules(text@)->Some_0, r),
{
    match parse_rules(text) {
        Ok(grammar) => GrammarRust::new(&grammar),
        Err(_) => Err(CompileError::InvalidJsonError),
    }
}

} // verus!
