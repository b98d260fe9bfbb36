//! The tracked entities: components, their repositories, and the projects
//! that own them.

use vstd::prelude::*;

use crate::version::Version;

verus! {

/// Where a component's releases are published.
#[derive(Debug)]
pub enum Repository {
    GitHub(String),
}

/// A project that owns components.
#[derive(Debug)]
pub struct Project {
    pub name: String,
}

/// A tracked component: identity, human name, the currently pinned version,
/// and where its releases appear. The core never mutates a component.
#[derive(Debug)]
pub struct Component {
    pub id: i32,
    pub name: String,
    pub current_version: Version,
    pub repository: Repository,
}

impl Clone for Repository {
    fn clone(&self) -> (r: Self)
        ensures
            r == *self,
    {
        match self {
            Repository::GitHub(url) => Repository::GitHub(url.clone()),
        }
    }
}

impl Clone for Project {
    fn clone(&self) -> (r: Self)
        ensures
            r == *self,
    {
        Project { name: self.name.clone() }
    }
}

impl Clone for Component {
    fn clone(&self) -> (r: Self)
        ensures
            r.id == self.id,
            r.name == self.name,
            r.current_version@ == self.current_version@,
            r.repository == self.repository,
    {
        Component {
            id: self.id,
            name: self.name.clone(),
            current_version: self.current_version.clone(),
            repository: self.repository.clone(),
        }
    }
}

} // verus!
