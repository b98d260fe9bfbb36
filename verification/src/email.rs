//! The text of an outdated-component notification. The subject names the
//! component and the newly released version; the body names the owning
//! projects (one directly, two as "A and B", more as "A, B and others"),
//! the pinned version and the new one. A report with no owning project is
//! a data-integrity breach and a fatal construction error, never a silent
//! skip. Wrapping the text into a transport message is the caller's concern.

use vstd::prelude::*;
use vstd::string::StringExecFns;

use crate::outdated::OutdatedComponent;
use crate::version::version_string_of;

verus! {

/// An outdated component with no owning project: every component must be
/// owned by at least one project.
#[derive(Debug)]
pub struct InvariantViolation;

/// The subject line for a report.
pub open spec fn subject_text_of(name: Seq<char>, latest: Seq<u64>) -> Seq<char> {
    "package: "@ + name + " "@ + version_string_of(latest) + " is released!"@
}

/// The phrase naming the owning projects.
pub open spec fn containment_text_of(projects: Seq<Seq<char>>) -> Seq<char>
    recommends
        projects.len() > 0,
{
    if projects.len() == 1 {
        "project "@ + projects[0] + " contains"@
    } else if projects.len() == 2 {
        "projects "@ + projects[0] + " and "@ + projects[1] + " contain"@
    } else {
        "projects "@ + projects[0] + ", "@ + projects[1] + " and others contain"@
    }
}

/// The body for a report.
pub open spec fn body_text_of(
    projects: Seq<Seq<char>>,
    current: Seq<u64>,
    latest: Seq<u64>,
) -> Seq<char>
    recommends
        projects.len() > 0,
{
    containment_text_of(projects) + " "@ + version_string_of(current) + ", but "@
        + version_string_of(latest) + " has just been released."@
}

impl OutdatedComponent {
    /// The notification's subject line.
    pub fn subject(&self) -> (r: String)
        ensures
            r@ == subject_text_of(self.name@, self.latest_version@),
    {
        let mut out = String::from_str("package: ");
        out.append(self.name.as_str());
        out.append(" ");
        let latest = self.latest_version.to_string();
        out.append(latest.as_str());
        out.append(" is released!");
        out
    }

    /// The notification's body; fails when no project owns the component.
    pub fn body_text(&self) -> (r: Result<String, InvariantViolation>)
        ensures
            r is Ok <==> self.projects@.len() > 0,
            r is Ok ==> r->Ok_0@ == body_text_of(
                self@.projects,
                self.current_version@,
                self.latest_version@,
            ),
    {
        if self.projects.len() == 0 {
            return Err(InvariantViolation);
        }
        let mut out: String;
        if self.projects.len() == 1 {
            out = String::from_str("project ");
            out.append(self.projects[0].name.as_str());
            out.append(" contains");
        } else if self.projects.len() == 2 {
            out = String::from_str("projects ");
            out.append(self.projects[0].name.as_str());
            out.append(" and ");
            out.append(self.projects[1].name.as_str());
            out.append(" contain");
        } else {
            out = String::from_str("projects ");
            out.append(self.projects[0].name.as_str());
            out.append(", ");
            out.append(self.projects[1].name.as_str());
            out.append(" and others contain");
        }
        proof {
            assert(self@.projects[0] == self.projects@[0].name@);
            if self.projects@.len() > 1 {
                assert(self@.projects[1] == self.projects@[1].name@);
            }
            assert(out@ == containment_text_of(self@.projects));
        }
        out.append(" ");
        let current = self.current_version.to_string();
        out.append(current.as_str());
        out.append(", but ");
        let latest = self.latest_version.to_string();
        out.append(latest.as_str());
        out.append(" has just been released.");
        Ok(out)
    }
}

} // verus!
