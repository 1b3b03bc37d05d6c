//! Configuration surface: contest group, credential and an optional
//! problem allow/deny list.  Loading and saving the configuration file is
//! I/O and lives outside the library; this type only carries the values.

use vstd::prelude::*;

verus! {

/// How an explicit problem list is applied to the problem universe.
#[derive(Clone, Copy, Debug, PartialEq, Eq, Structural)]
pub enum ListType {
    BlackList,
    WhiteList,
}

impl Default for ListType {
    fn default() -> (r: Self)
        ensures
            r == ListType::BlackList,
    {
        ListType::BlackList
    }
}

/// The configuration: judge group, API token, and the optional problem
/// list with its interpretation.
#[derive(Clone, Debug, PartialEq, Eq)]
pub struct Metadata {
    pub group_id: u32,
    pub user_token: String,
    pub problem_list_type: ListType,
    pub problem_list: Option<Vec<u32>>,
}

impl Metadata {
    /// Bundles the configuration values.
    pub fn new(
        group_id: u32,
        user_token: String,
        problem_list_type: ListType,
        problem_list: Option<Vec<u32>>,
    ) -> (r: Metadata)
        ensures
            r.group_id == group_id,
            r.user_token == user_token,
            r.problem_list_type == problem_list_type,
            r.problem_list == problem_list,
    {
        Metadata { group_id, user_token, problem_list_type, problem_list }
    }

    /// The judge group this deployment watches.
    pub fn get_group(&self) -> (r: u32)
        ensures
            r == self.group_id,
    {
        self.group_id
    }

    /// The API credential.
    pub fn get_token(&self) -> (r: &str)
        ensures
            r@ == self.user_token@,
    {
        self.user_token.as_str()
    }

    /// How the problem list is meant to be applied.
    pub fn list_type(&self) -> (r: ListType)
        ensures
            r == self.problem_list_type,
    {
        self.problem_list_type
    }

    /// The configured problem list; an absent or empty list means no
    /// explicit list at all.
    pub fn problems(&self) -> (r: Option<&Vec<u32>>)
        ensures
            match r {
                Some(ps) => self.problem_list == Some(*ps) && ps@.len() > 0,
                None => self.problem_list matches None || (self.problem_list matches Some(ps)
                    && ps@.len() == 0),
            },
    {
        match &self.problem_list {
            Some(ps) => if ps.len() == 0 {
                None
            } else {
                Some(ps)
            },
            None => None,
        }
    }
}

impl Default for Metadata {
    fn default() -> (r: Self)
        ensures
            r.group_id == 0,
            r.user_token@ == Seq::<char>::empty(),
            r.problem_list_type == ListType::BlackList,
            r.problem_list matches None,
    {
        let r = Metadata {
            group_id: 0,
            user_token: String::new(),
            problem_list_type: ListType::BlackList,
            problem_list: None,
        };
        proof {
            assert(r.user_token@ =~= Seq::<char>::empty());
        }
        r
    }
}

} // verus!
