//! Texts that pass between the engine and its scripts.

use crate::text::{debug_form, debug_text, join, joined, parts, push_debug, split, text_eq, trim,
    trimmed};
use vstd::prelude::*;

verus! {

/// Whether an environment variable switches something on.
pub open spec fn is_on(value: Option<Seq<char>>) -> bool {
    match value {
        Some(v) => v == "1"@ || v == "true"@ || v == "TRUE"@ || v == "yes"@ || v == "YES"@,
        None => false,
    }
}

/// Whether an environment variable with that value switches something on.
pub fn flag_enabled(value: Option<&str>) -> (res: bool)
    ensures
        res == is_on(
            match value {
                Some(v) => Some(v@),
                None => None,
            },
        ),
{
    match value {
        Some(v) => text_eq(v, "1") || text_eq(v, "true") || text_eq(v, "TRUE") || text_eq(v, "yes")
            || text_eq(v, "YES"),
        None => false,
    }
}

/// The names in a comma-separated list, each in its debugging form.
pub open spec fn filter_names(list: Seq<Seq<char>>) -> Seq<Seq<char>>
    decreases list.len(),
{
    if list.len() == 0 {
        Seq::empty()
    } else if trimmed(list.last()).len() == 0 {
        filter_names(list.drop_last())
    } else {
        filter_names(list.drop_last()).push(debug_form(trimmed(list.last())))
    }
}

/// The script that narrows the custom-element trace to the elements whose names
/// are in the comma-separated list `filter`.
pub fn trace_filter_script(filter: &str) -> (res: String)
    ensures
        res@ == "globalThis.__aurora_ce_trace_filter__ = ["@ + joined(
            filter_names(parts(filter@, ',')),
            ","@,
        ) + "];"@,
{
    let pieces = split(filter, ',');
    let ghost all = pieces@.map_values(|p: Vec<char>| p@);
    let mut names: Vec<String> = Vec::new();
    let mut i: usize = 0;
    assert(names@.map_values(|t: String| t@) =~= filter_names(all.take(0)));
    while i < pieces.len()
        invariant
            i <= pieces.len(),
            all == pieces@.map_values(|p: Vec<char>| p@),
            names@.map_values(|t: String| t@) == filter_names(all.take(i as int)),
        decreases pieces.len() - i,
    {
        let ghost before = names@.map_values(|t: String| t@);
        proof {
            assert(all.take(i + 1).drop_last() =~= all.take(i as int));
            assert(all.take(i + 1).last() == pieces@[i as int]@);
        }
        let name = trim(&pieces[i]);
        let empty = text_eq(name.as_str(), "");
        proof {
            reveal_strlit("");
            assert(empty == (name@.len() == 0)) by {
                if name@.len() == 0 {
                    assert(name@ =~= ""@);
                }
            }
        }
        if !empty {
            let shown = debug_text(name.as_str());
            names.push(shown);
            assert(names@.map_values(|t: String| t@) =~= before.push(debug_form(name@)));
        }
        i = i + 1;
    }
    assert(all.take(i as int) =~= all);
    let list = join(&names, ",");
    let mut out = String::new();
    out.push_str("globalThis.__aurora_ce_trace_filter__ = [");
    out.push_str(list.as_str());
    out.push_str("];");
    assert(out@ =~= "globalThis.__aurora_ce_trace_filter__ = ["@ + list@ + "];"@);
    out
}

/// The script that fires a lifecycle event at the document and at the window,
/// without bubbling from one to the other.
pub fn lifecycle_event_script(event_type: &str) -> (res: String)
    ensures
        res@ == "(function(){ try { document.dispatchEvent(new Event("@ + debug_form(event_type@)
            + ", { bubbles: false })); window.dispatchEvent(new Event("@ + debug_form(event_type@)
            + ", { bubbles: false })); } catch (err) {} })();"@,
{
    let mut out = String::new();
    out.push_str("(function(){ try { document.dispatchEvent(new Event(");
    push_debug(&mut out, event_type);
    out.push_str(", { bubbles: false })); window.dispatchEvent(new Event(");
    push_debug(&mut out, event_type);
    out.push_str(", { bubbles: false })); } catch (err) {} })();");
    assert(out@ =~= "(function(){ try { document.dispatchEvent(new Event("@ + debug_form(
        event_type@,
    ) + ", { bubbles: false })); window.dispatchEvent(new Event("@ + debug_form(event_type@)
        + ", { bubbles: false })); } catch (err) {} })();"@);
    out
}

/// The line that `console.log` writes for its arguments.
pub fn console_line(args: &Vec<String>) -> (res: String)
    ensures
        res@ == joined(args@.map_values(|t: String| t@), " "@),
{
    join(args, " ")
}

/// The message for a script that failed: the exception, or `fallback` if there
/// is none, and on the next line the stack if it is known.
pub fn exception_message(exception: Option<&str>, fallback: &str, stack: Option<&str>) -> (res:
    String)
    ensures
        res@ == (match exception {
            Some(text) => text@,
            None => fallback@,
        }) + (match stack {
            Some(trace) => "\n"@ + trace@,
            None => Seq::empty(),
        }),
{
    let mut out = match exception {
        Some(text) => text.to_string(),
        None => fallback.to_string(),
    };
    let ghost message = out@;
    if let Some(trace) = stack {
        out.push_str("\n");
        out.push_str(trace);
        assert(out@ =~= message + ("\n"@ + trace@));
    } else {
        assert(out@ =~= message + Seq::<char>::empty());
    }
    out
}

} // verus!
