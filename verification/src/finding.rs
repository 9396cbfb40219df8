//! What a check is, and what it reports.

use vstd::prelude::*;

use crate::syntax::File;

verus! {

/// How serious a finding is.
#[derive(Clone, Copy, Debug, PartialEq, Eq, Structural)]
pub enum Severity {
    Medium,
    High,
}

/// A problem that a check found in a source file.
#[derive(Clone, Debug)]
pub struct Finding {
    /// Name of the check that reports the finding.
    pub check_name: String,
    pub severity: Severity,
    /// Path of the source file; a check leaves it empty, its caller fills it in.
    pub file_path: String,
    /// Line of the offending syntax, counted from 1.
    pub line: usize,
    /// Where in the file the offending syntax stands.
    pub function_name: String,
    pub description: String,
    /// Where the rule is documented.
    pub rule_url: Option<String>,
    /// How to mend the problem.
    pub suggestion: Option<String>,
}

/// The contents of a [`Finding`].
pub struct FindingView {
    pub check_name: Seq<char>,
    pub severity: Severity,
    pub file_path: Seq<char>,
    pub line: nat,
    pub function_name: Seq<char>,
    pub description: Seq<char>,
    pub rule_url: Option<Seq<char>>,
    pub suggestion: Option<Seq<char>>,
}

/// The characters of an optional string.
pub open spec fn option_text(s: Option<String>) -> Option<Seq<char>> {
    match s {
        Some(s) => Some(s@),
        None => None,
    }
}

impl View for Finding {
    type V = FindingView;

    open spec fn view(&self) -> FindingView {
        FindingView {
            check_name: self.check_name@,
            severity: self.severity,
            file_path: self.file_path@,
            line: self.line as nat,
            function_name: self.function_name@,
            description: self.description@,
            rule_url: option_text(self.rule_url),
            suggestion: option_text(self.suggestion),
        }
    }
}

/// The contents of each finding, in order.
pub open spec fn finding_views(findings: Seq<Finding>) -> Seq<FindingView> {
    findings.map_values(|f: Finding| f@)
}

/// A check of a source file.
pub trait Check {
    /// The name of the check.
    spec fn spec_name(&self) -> Seq<char>;

    /// The findings of the check in `file`, in the order they are reported.
    spec fn spec_findings(&self, file: File) -> Seq<FindingView>;

    /// The name of the check.
    fn name(&self) -> (r: &str)
        ensures
            r@ == self.spec_name(),
    ;

    /// The findings of the check in `file`. The source text itself is at hand for checks that
    /// need more than the syntax tree.
    fn run(&self, file: &File, source: &str) -> (r: Vec<Finding>)
        ensures
            finding_views(r@) == self.spec_findings(*file),
    ;
}

/// Nothing of a finding is lost in its contents.
pub proof fn law_contents_of_a_finding(f: Finding)
    ensures
        f@.check_name == f.check_name@,
        f@.severity == f.severity,
        f@.file_path == f.file_path@,
        f@.line == f.line,
        f@.function_name == f.function_name@,
        f@.description == f.description@,
        f.rule_url matches Some(url) ==> f@.rule_url == Some(url@),
        f.rule_url is None <==> f@.rule_url is None,
        f.suggestion matches Some(text) ==> f@.suggestion == Some(text@),
        f.suggestion is None <==> f@.suggestion is None,
{
}

/// The contents of some findings are those of each, in order.
pub proof fn law_contents_of_findings(findings: Seq<Finding>)
    ensures
        finding_views(findings).len() == findings.len(),
        forall|i: int|
            0 <= i < findings.len() ==> #[trigger] finding_views(findings)[i] == findings[i]@,
{
}

} // verus!
