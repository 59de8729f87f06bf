//! The rules that put back what an export to HTML drops, as a document's own
//! default show rules.

use vstd::prelude::*;
use vstd::string::*;

verus! {

/// One rule, as its module has it.
#[derive(Debug)]
pub enum ShimRule {
    /// It is no pair.
    NotPair,
    /// What its first half is as a selector, and its second as a function: nothing
    /// wrong, or what is wrong with it.
    Pair(Option<String>, Option<String>),
}

/// What the module of the rules came to.
#[derive(Debug)]
pub enum ShimModule {
    /// It did not compile, for a reason, where one was given.
    Broken(Option<String>),
    /// It exports no rules.
    NoRules,
    /// What it exports as its rules is not a list.
    NotList,
    /// Its rules.
    Rules(Vec<ShimRule>),
}

/// What is wrong with a rule, if anything is.
pub open spec fn rule_fault(rule: ShimRule) -> Option<Seq<char>> {
    match rule {
        ShimRule::NotPair => Some("a shim rule is not a (selector, function) pair"@),
        ShimRule::Pair(selector, function) => match selector {
            Some(e) => Some("a shim rule has no selector: "@ + e@),
            None => match function {
                Some(e) => Some("a shim rule has no function: "@ + e@),
                None => None,
            },
        },
    }
}

/// What is wrong with the first of some rules that anything is wrong with, from
/// one on.
pub open spec fn first_fault(rules: Seq<ShimRule>, from: int) -> Option<Seq<char>>
    decreases rules.len() - from,
{
    if from < 0 || from >= rules.len() {
        None
    } else {
        match rule_fault(rules[from]) {
            Some(e) => Some(e),
            None => first_fault(rules, from + 1),
        }
    }
}

/// What is wrong with the module of the rules, if anything is.
pub open spec fn module_fault(module: ShimModule) -> Option<Seq<char>> {
    match module {
        ShimModule::Broken(Some(e)) => Some("the HTML shims did not compile: "@ + e@),
        ShimModule::Broken(None) => Some("the HTML shims did not compile"@),
        ShimModule::NoRules => Some("the HTML shims export no rules"@),
        ShimModule::NotList => Some("the HTML shims' rules are not a list"@),
        ShimModule::Rules(rules) => first_fault(rules@, 0),
    }
}

/// Whether the rules of a module can be installed, or what is wrong with them.
pub fn check_shims(module: &ShimModule) -> (r: Result<(), String>)
    ensures
        match module_fault(*module) {
            Some(e) => r is Err && r->Err_0@ == e,
            None => r is Ok,
        },
{
    let rules: &Vec<ShimRule> = match module {
        ShimModule::Broken(why) => {
            return match why {
                Some(e) => {
                    let mut out: String = "the HTML shims did not compile: ".to_string();
                    out.append(e.as_str());
                    Err(out)
                },
                None => Err("the HTML shims did not compile".to_string()),
            };
        },
        ShimModule::NoRules => {
            return Err("the HTML shims export no rules".to_string());
        },
        ShimModule::NotList => {
            return Err("the HTML shims' rules are not a list".to_string());
        },
        ShimModule::Rules(rules) => rules,
    };
    let n: usize = rules.len();
    let mut i: usize = 0;
    while i < n
        invariant
            i <= n,
            n == rules@.len(),
            module_fault(*module) == first_fault(rules@, i as int),
        decreases n - i,
    {
        match &rules[i] {
            ShimRule::NotPair => {
                return Err("a shim rule is not a (selector, function) pair".to_string());
            },
            ShimRule::Pair(selector, function) => {
                if let Some(e) = selector {
                    let mut out: String = "a shim rule has no selector: ".to_string();
                    out.append(e.as_str());
                    return Err(out);
                }
                if let Some(e) = function {
                    let mut out: String = "a shim rule has no function: ".to_string();
                    out.append(e.as_str());
                    return Err(out);
                }
            },
        }
        i = i + 1;
    }
    Ok(())
}

} // verus!
