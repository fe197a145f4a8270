//! The data model of the engine: rule definitions, their mathematical
//! models, execution scopes, template bindings and findings.

use vstd::prelude::*;

verus! {

/// The granularity a rule applies at.
#[derive(Clone, Copy, PartialEq, Eq, Structural, Debug)]
pub enum RuleScope {
    Base,
    Cluster,
    Table,
    Schema,
}

impl RuleScope {
    /// The keyword that stands for this scope in catalog rows.
    pub open spec fn spec_code(self) -> Seq<char> {
        match self {
            RuleScope::Base => "BASE"@,
            RuleScope::Cluster => "CLUSTER"@,
            RuleScope::Table => "TABLE"@,
            RuleScope::Schema => "SCHEMA"@,
        }
    }

    /// The scope keyword as a string slice.
    pub fn as_code(self) -> (r: &'static str)
        ensures
            r@ == self.spec_code(),
    {
        match self {
            RuleScope::Base => "BASE",
            RuleScope::Cluster => "CLUSTER",
            RuleScope::Table => "TABLE",
            RuleScope::Schema => "SCHEMA",
        }
    }
}

/// One named value for the message templater to substitute.
#[derive(Clone, Debug)]
pub struct RuleParam {
    pub key: String,
    pub value: String,
}

/// The mathematical model of a template binding.
pub ghost struct RuleParamModel {
    pub key: Seq<char>,
    pub value: Seq<char>,
}

impl DeepView for RuleParam {
    type V = RuleParamModel;

    open spec fn deep_view(&self) -> RuleParamModel {
        self.view()
    }
}

impl View for RuleParam {
    type V = RuleParamModel;

    open spec fn view(&self) -> RuleParamModel {
        RuleParamModel { key: self.key@, value: self.value@ }
    }
}

/// One severity-classified, rendered outcome of evaluating a rule.
#[derive(Clone, Debug)]
pub struct RuleResult {
    pub ruleid: String,
    pub level: String,
    pub message: String,
    pub count: Option<i64>,
}

/// The mathematical model of a finding.
pub ghost struct RuleResultModel {
    pub ruleid: Seq<char>,
    pub level: Seq<char>,
    pub message: Seq<char>,
    pub count: Option<int>,
}

impl DeepView for RuleResult {
    type V = RuleResultModel;

    open spec fn deep_view(&self) -> RuleResultModel {
        self.view()
    }
}

impl View for RuleResult {
    type V = RuleResultModel;

    open spec fn view(&self) -> RuleResultModel {
        RuleResultModel {
            ruleid: self.ruleid@,
            level: self.level@,
            message: self.message@,
            count: match self.count {
                Some(c) => Some(c as int),
                None => None,
            },
        }
    }
}

/// One rule definition as the catalog stores it. A rule with `q1` and `q2`
/// both set runs in ratio mode; one with only `q1` runs in listing mode; one
/// with neither is inert.
#[derive(Clone, Debug)]
pub struct Rule {
    pub id: i64,
    pub code: String,
    pub name: String,
    pub description: String,
    pub scope: String,
    pub enable: bool,
    pub warning_level: i64,
    pub error_level: i64,
    pub message: String,
    pub fixes: Vec<String>,
    pub q1: Option<String>,
    pub q2: Option<String>,
    pub q3: Option<String>,
    pub q4: Option<String>,
}

/// The mathematical model of a rule definition.
pub ghost struct RuleModel {
    pub id: int,
    pub code: Seq<char>,
    pub name: Seq<char>,
    pub description: Seq<char>,
    pub scope: Seq<char>,
    pub enable: bool,
    pub warning_level: int,
    pub error_level: int,
    pub message: Seq<char>,
    pub fixes: Seq<Seq<char>>,
    pub q1: Option<Seq<char>>,
    pub q2: Option<Seq<char>>,
    pub q3: Option<Seq<char>>,
    pub q4: Option<Seq<char>>,
}

pub open spec fn spec_opt_string(o: Option<String>) -> Option<Seq<char>> {
    match o {
        Some(s) => Some(s@),
        None => None,
    }
}

impl DeepView for Rule {
    type V = RuleModel;

    open spec fn deep_view(&self) -> RuleModel {
        self.view()
    }
}

impl View for Rule {
    type V = RuleModel;

    open spec fn view(&self) -> RuleModel {
        RuleModel {
            id: self.id as int,
            code: self.code@,
            name: self.name@,
            description: self.description@,
            scope: self.scope@,
            enable: self.enable,
            warning_level: self.warning_level as int,
            error_level: self.error_level as int,
            message: self.message@,
            fixes: self.fixes.deep_view(),
            q1: spec_opt_string(self.q1),
            q2: spec_opt_string(self.q2),
            q3: spec_opt_string(self.q3),
            q4: spec_opt_string(self.q4),
        }
    }
}

impl RuleModel {
    /// Thresholds fit the catalog's integer columns.
    pub open spec fn wf(self) -> bool {
        &&& i32::MIN as int <= self.warning_level <= i32::MAX as int
        &&& i32::MIN as int <= self.error_level <= i32::MAX as int
    }
}

impl Rule {
    /// Thresholds fit the catalog's integer columns.
    pub open spec fn wf(self) -> bool {
        self@.wf()
    }
}

/// The row shape the executor works from: code, name, the one or two
/// queries, and the scope keyword.
#[derive(Clone, Debug)]
pub struct RuleData {
    pub code: String,
    pub name: String,
    pub q1: String,
    pub q2: Option<String>,
    pub scope: String,
}

/// The mathematical model of an execution row.
pub ghost struct RuleDataModel {
    pub code: Seq<char>,
    pub name: Seq<char>,
    pub q1: Seq<char>,
    pub q2: Option<Seq<char>>,
    pub scope: Seq<char>,
}

impl DeepView for RuleData {
    type V = RuleDataModel;

    open spec fn deep_view(&self) -> RuleDataModel {
        self.view()
    }
}

impl View for RuleData {
    type V = RuleDataModel;

    open spec fn view(&self) -> RuleDataModel {
        RuleDataModel {
            code: self.code@,
            name: self.name@,
            q1: self.q1@,
            q2: spec_opt_string(self.q2),
            scope: self.scope@,
        }
    }
}

} // verus!
