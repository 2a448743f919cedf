//! Read-only configuration: the list of known projects, looked up by name.
//! Loading the list from disk is the caller's business; the lookup rules live
//! here.

use vstd::prelude::*;

use crate::base::{Project, ProjectModel};
use crate::bytes::eq_bytes;

verus! {

/// The models of a sequence of projects.
pub open spec fn project_models(s: Seq<Project>) -> Seq<ProjectModel> {
    s.map_values(|p: Project| p@)
}

/// The first project of `s` named `name`, if any.
pub open spec fn find_project(s: Seq<ProjectModel>, name: Seq<u8>) -> Option<ProjectModel>
    decreases s.len(),
{
    if s.len() == 0 {
        None
    } else if s.first().name == name {
        Some(s.first())
    } else {
        find_project(s.drop_first(), name)
    }
}

/// The projects this process serves, fixed at start-up.
pub struct Config {
    pub projects: Vec<Project>,
}

impl Config {
    /// Wraps a project list as the process configuration.
    pub fn new(projects: Vec<Project>) -> (c: Config)
        ensures
            c.projects == projects,
    {
        Config { projects }
    }

    /// Looks a project up by name: the first project carrying that name, or
    /// nothing when no project does.
    pub fn project_from_name(&self, name: &Vec<u8>) -> (r: Option<Project>)
        ensures
            match r {
                Some(p) => find_project(project_models(self.projects@), name@) == Some(p@),
                None => find_project(project_models(self.projects@), name@) is None,
            },
    {
        let ghost all = project_models(self.projects@);
        let mut i: usize = 0;
        proof {
            assert(all.skip(0) =~= all);
        }
        while i < self.projects.len()
            invariant
                i <= self.projects@.len(),
                all == project_models(self.projects@),
                find_project(all, name@) == find_project(all.skip(i as int), name@),
            decreases self.projects@.len() - i,
        {
            proof {
                assert(all.skip(i as int).first() == all[i as int]);
            }
            if eq_bytes(&self.projects[i].name, name) {
                return Some(self.projects[i].duplicate());
            }
            i = i + 1;
            proof {
                assert(all.skip(i as int - 1).drop_first() =~= all.skip(i as int));
            }
        }
        proof {
            assert(all.skip(all.len() as int) =~= Seq::<ProjectModel>::empty());
        }
        None
    }

    /// The full project list, copied.
    pub fn project_list(&self) -> (r: Vec<Project>)
        ensures
            project_models(r@) == project_models(self.projects@),
    {
        let mut out: Vec<Project> = Vec::new();
        let mut i: usize = 0;
        proof {
            assert(project_models(out@) =~= project_models(self.projects@).subrange(0, 0));
        }
        while i < self.projects.len()
            invariant
                i <= self.projects@.len(),
                project_models(out@) == project_models(self.projects@).subrange(0, i as int),
            decreases self.projects@.len() - i,
        {
            let ghost old_out = out@;
            let p = self.projects[i].duplicate();
            out.push(p);
            i = i + 1;
            proof {
                assert(project_models(out@) =~= project_models(old_out).push(p@));
                assert(project_models(out@) =~= project_models(self.projects@).subrange(
                    0,
                    i as int,
                ));
            }
        }
        proof {
            assert(project_models(self.projects@).subrange(
                0,
                self.projects@.len() as int,
            ) =~= project_models(self.projects@));
        }
        out
    }
}

} // verus!
