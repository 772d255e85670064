//! The words in which a lookup that failed is reported.

use crate::resolve::ImportError;
use crate::names::str_eq;
use vstd::prelude::*;
use vstd::string::StringExecFns;

verus! {

/// A report of a lookup that failed: its title, what is said at the place
/// of the lookup, and what is said below it.
#[derive(Debug)]
pub struct LookupReport {
    pub title: &'static str,
    pub line: String,
    pub text: Option<String>,
}

/// The title under which an error is reported.
pub open spec fn title_of(err: ImportError) -> &'static str {
    match err {
        ImportError::LibNotInstalled(_) => "library not found",
        ImportError::NotFound(_, _) => "identifier not found",
        ImportError::ModNotFound(_, _) => "module not found",
        ImportError::BadAccess(_, kind, _) => if kind@ == "module"@ {
            "module not found"
        } else {
            "identifier not found"
        },
    }
}

/// What is said at the place of the lookup, `kind` being the kind of
/// entity that was looked for and `module` the name of the module that an
/// error names.
pub open spec fn line_of(kind: Seq<char>, err: ImportError, module: Seq<char>) -> Seq<char> {
    match err {
        ImportError::LibNotInstalled(name) => "no library named "@ + name@ + " is installed"@,
        ImportError::NotFound(_, name) => "no "@ + kind + " named "@ + name@,
        ImportError::ModNotFound(_, name) => "`"@ + module + "` has no module named `"@ + name@
            + "`"@,
        ImportError::BadAccess(_, found, name) => if found@ == "module"@ {
            "there is a module named "@ + name@ + " but it's not public"@
        } else {
            Seq::empty()
        },
    }
}

/// What is said below the place of the lookup, if anything.
pub open spec fn text_of(err: ImportError) -> Option<Seq<char>> {
    match err {
        ImportError::BadAccess(_, found, name) => if found@ == "module"@ {
            None
        } else {
            Some("there is a "@ + found@ + " named "@ + name@ + " but it's not public"@)
        },
        _ => None,
    }
}

/// Puts a lookup error into words. `kind` is the kind of entity that was
/// looked for, `module` the name of the module that the error names.
pub fn lookup_err_report(kind: &str, err: ImportError, module: &str) -> (r: LookupReport)
    ensures
        r.title == title_of(err),
        r.line@ == line_of(kind@, err, module@),
        match r.text {
            Some(text) => text_of(err) == Some(text@),
            None => text_of(err) is None,
        },
{
    match err {
        ImportError::LibNotInstalled(name) => {
            let mut line = "no library named ".to_owned();
            line.append(name);
            line.append(" is installed");
            LookupReport { title: "library not found", line, text: None }
        },
        ImportError::NotFound(_, name) => {
            let mut line = "no ".to_owned();
            line.append(kind);
            line.append(" named ");
            line.append(name);
            LookupReport { title: "identifier not found", line, text: None }
        },
        ImportError::ModNotFound(_, name) => {
            let mut line = "`".to_owned();
            line.append(module);
            line.append("` has no module named `");
            line.append(name);
            line.append("`");
            LookupReport { title: "module not found", line, text: None }
        },
        ImportError::BadAccess(_, found, name) => {
            if str_eq(found, "module") {
                let mut line = "there is a module named ".to_owned();
                line.append(name);
                line.append(" but it's not public");
                LookupReport { title: "module not found", line, text: None }
            } else {
                let mut text = "there is a ".to_owned();
                text.append(found);
                text.append(" named ");
                text.append(name);
                text.append(" but it's not public");
                LookupReport { title: "identifier not found", line: String::new(), text: Some(text) }
            }
        },
    }
}

} // verus!
