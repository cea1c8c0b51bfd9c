//! Errors that carry the component they come from and a chain of causes.
use vstd::prelude::*;

verus! {

/// The part of the program that an error comes from.
#[derive(Debug, Clone, Copy, PartialEq, Eq, Structural)]
pub enum CodeComponent {
    External,
    Main,
    Executor,
    FileSearcher,
    DocumentPath,
    Document,
    DocumentParser,
    ItemList,
    ListParser,
    TodoItem,
    ItemParser,
    Date,
    DateParser,
}

pub open spec fn component_name(c: CodeComponent) -> Seq<char> {
    match c {
        CodeComponent::External => "EXTERNAL"@,
        CodeComponent::Main => "MAIN"@,
        CodeComponent::Executor => "EXECUTOR"@,
        CodeComponent::FileSearcher => "FILE_SEARCH"@,
        CodeComponent::DocumentPath => "DOCUMENT:PATH"@,
        CodeComponent::Document => "DOCUMENT:MAIN"@,
        CodeComponent::DocumentParser => "DOCUMENT:PARSER"@,
        CodeComponent::ItemList => "LIST:MAIN"@,
        CodeComponent::ListParser => "LIST:PARSER"@,
        CodeComponent::TodoItem => "ITEM:MAIN"@,
        CodeComponent::ItemParser => "ITEM:PARSER"@,
        CodeComponent::Date => "DATE:MAIN"@,
        CodeComponent::DateParser => "DATE:PARSER"@,
    }
}

/// The tag that starts an error line: the component's name in brackets.
pub open spec fn component_tag(c: CodeComponent) -> Seq<char> {
    "["@ + component_name(c) + "]"@
}

impl CodeComponent {
    pub fn format(self) -> (r: String)
        ensures
            r@ == component_tag(self),
    {
        let r = String::from_str("[");
        let r = r.concat(self.value());
        r.concat("]")
    }

    pub fn value(self) -> (r: &'static str)
        ensures
            r@ == component_name(self),
    {
        match self {
            CodeComponent::External => "EXTERNAL",
            CodeComponent::Main => "MAIN",
            CodeComponent::Executor => "EXECUTOR",
            CodeComponent::FileSearcher => "FILE_SEARCH",
            CodeComponent::DocumentPath => "DOCUMENT:PATH",
            CodeComponent::Document => "DOCUMENT:MAIN",
            CodeComponent::DocumentParser => "DOCUMENT:PARSER",
            CodeComponent::ItemList => "LIST:MAIN",
            CodeComponent::ListParser => "LIST:PARSER",
            CodeComponent::TodoItem => "ITEM:MAIN",
            CodeComponent::ItemParser => "ITEM:PARSER",
            CodeComponent::Date => "DATE:MAIN",
            CodeComponent::DateParser => "DATE:PARSER",
        }
    }
}

/// An error with the component it arose in, a message, and the error that caused it.
#[derive(Debug)]
pub struct Error {
    pub component: CodeComponent,
    pub message: String,
    pub child: Option<Box<Error>>,
}

pub open spec fn repeat(s: Seq<char>, n: nat) -> Seq<char>
    decreases n,
{
    if n == 0 {
        Seq::empty()
    } else {
        repeat(s, (n - 1) as nat) + s
    }
}

/// Indentation in front of the error line at depth `indent`.
pub open spec fn error_prefix(indent: nat) -> Seq<char> {
    (if indent > 1 {
        repeat("   "@, (indent - 1) as nat)
    } else {
        Seq::empty()
    }) + (if indent > 0 {
        " ╰ "@
    } else {
        Seq::empty()
    })
}

/// The cause trail: one line per error, each cause one level deeper.
pub open spec fn error_text(e: Error, indent: nat) -> Seq<char>
    decreases e,
{
    let line = error_prefix(indent) + component_tag(e.component) + " "@ + e.message@ + "\n"@;
    match e.child {
        Some(c) => line + error_text(*c, indent + 1),
        None => line,
    }
}

impl Error {
    pub fn new(component: CodeComponent, message: &str) -> (r: Error)
        ensures
            r.component == component,
            r.message@ == message@,
            r.child is None,
    {
        Error { component, message: String::from_str(message), child: None }
    }

    pub fn wrap(component: CodeComponent, message: &str, child: Error) -> (r: Error)
        ensures
            r.component == component,
            r.message@ == message@,
            r.child == Some(Box::new(child)),
    {
        Error { component, message: String::from_str(message), child: Some(Box::new(child)) }
    }

    pub fn format(&self, indent: usize) -> (r: String)
        requires
            self.depth() + indent < usize::MAX,
        ensures
            r@ == error_text(*self, indent as nat),
        decreases self,
    {
        let mut output = String::new();
        if indent > 1 {
            let mut k: usize = 1;
            while k < indent
                invariant
                    1 <= k <= indent,
                    output@ == repeat("   "@, (k - 1) as nat),
                decreases indent - k,
            {
                output.append("   ");
                k += 1;
            }
        }
        if indent > 0 {
            output.append(" ╰ ");
        }
        let tag = self.component.format();
        output.append(tag.as_str());
        output.append(" ");
        output.append(self.message.as_str());
        output.append("\n");
        match &self.child {
            Some(c) => {
                let rest = c.format(indent + 1);
                output.append(rest.as_str());
            },
            None => {},
        }
        output
    }

    /// Number of causes below this error.
    pub open spec fn depth(self) -> nat
        decreases self,
    {
        match self.child {
            Some(c) => 1 + c.depth(),
            None => 0,
        }
    }
}

} // verus!
