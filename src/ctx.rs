use vstd::prelude::*;

use crate::error::FlameError;
use crate::model::Application;

verus! {

/// The settings of a manager or an executor: its name, the endpoint of the
/// session manager, its slot description, the policy and storage it uses,
/// and the applications it can run.
#[derive(Clone, Debug)]
pub struct FlameContext {
    pub name: String,
    pub endpoint: String,
    pub slot: String,
    pub policy: String,
    pub storage: String,
    pub applications: Vec<Application>,
}

/// The index of the first application named `n`, if any.
pub open spec fn first_named(apps: Seq<Application>, n: Seq<char>) -> Option<int> {
    if exists|i: int| 0 <= i < apps.len() && apps[i].name@ == n {
        Some(choose|i: int| 0 <= i < apps.len() && apps[i].name@ == n && forall|j: int| 0 <= j < i ==> apps[j].name@ != n)
    } else {
        None
    }
}

impl Default for FlameContext {
    fn default() -> (r: FlameContext)
        ensures
            r.name@ == "flame"@,
            r.endpoint@ == "http://127.0.0.1:8080"@,
            r.slot@ == "cpu=1,mem=1g"@,
            r.policy@ == "priority"@,
            r.storage@ == "mem"@,
            r.applications@.len() == 1,
    {
        FlameContext {
            name: String::from_str("flame"),
            endpoint: String::from_str("http://127.0.0.1:8080"),
            slot: String::from_str("cpu=1,mem=1g"),
            policy: String::from_str("priority"),
            storage: String::from_str("mem"),
            applications: vec![Application::default()],
        }
    }
}

impl FlameContext {
    /// The first application named `n`.
    pub fn get_application(&self, n: &String) -> (r: Option<Application>)
        ensures
            match first_named(self.applications@, n@) {
                Some(i) => r is Some && r->Some_0@ == self.applications@[i]@,
                None => r is None,
            },
    {
        let mut i: usize = 0;
        while i < self.applications.len()
            invariant
                0 <= i <= self.applications@.len(),
                forall|j: int| 0 <= j < i ==> self.applications@[j].name@ != n@,
            decreases self.applications.len() - i,
        {
            if *n == self.applications[i].name {
                proof {
                    let apps = self.applications@;
                    assert(0 <= i < apps.len() && apps[i as int].name@ == n@);
                    let k = choose|k: int| 0 <= k < apps.len() && apps[k].name@ == n@ && forall|j: int| 0 <= j < k ==> apps[j].name@ != n@;
                    assert(0 <= i < apps.len() && apps[i as int].name@ == n@ && forall|j: int| 0 <= j < i ==> apps[j].name@ != n@);
                    if k < i {
                        assert(apps[k].name@ != n@);
                    }
                    if i < k {
                        assert(apps[i as int].name@ != n@);
                    }
                }
                return Some(self.applications[i].copied());
            }
            i = i + 1;
        }
        None
    }

    /// The application that an executor runs for a session of application
    /// `n`: the first one of that name, else `NotFound`.
    pub fn application_for(&self, n: &String) -> (r: Result<Application, FlameError>)
        ensures
            match first_named(self.applications@, n@) {
                Some(i) => r is Ok && r->Ok_0@ == self.applications@[i]@,
                None => r is Err && r->Err_0 is NotFound,
            },
    {
        match self.get_application(n) {
            Some(app) => Ok(app),
            None => Err(FlameError::NotFound(n.clone())),
        }
    }

    /// Checks a loaded configuration: it must name at least one application.
    pub fn validate(self) -> (r: Result<FlameContext, FlameError>)
        ensures
            self.applications@.len() > 0 <==> r is Ok,
            r is Ok ==> r->Ok_0 == self,
            r is Err ==> r->Err_0 is InvalidConfig && r->Err_0->InvalidConfig_0@ == "no application"@,
    {
        if self.applications.len() == 0 {
            return Err(FlameError::InvalidConfig(String::from_str("no application")));
        }
        Ok(self)
    }
}

} // verus!
