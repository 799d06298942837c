//! Indexer rules: the admission matrix the walker applies to each path.
//!
//! Four rule kinds. Glob rules are evaluated against the full path string
//! through `globset`; children-present rules are evaluated against the
//! directory snapshot by the walker itself.

use vstd::prelude::*;

verus! {

/// Whether `globset` accepts `pattern` as a valid glob and compiles it
/// into a usable matcher.
pub uninterp spec fn glob_ok(pattern: Seq<char>) -> bool;

/// Whether the glob compiled from `pattern` matches `path`. The result is a
/// function of the two strings alone.
pub uninterp spec fn glob_match(pattern: Seq<char>, path: Seq<char>) -> bool;

/// Relies on globset::Glob::new and globset::GlobSetBuilder::build:
/// whether a glob pattern parses and its matcher compiles is a function
/// of the pattern text alone. Building through the set builder surfaces
/// matcher-size limits as a failure here instead of as a panic at match
/// time.
#[verifier::external_body]
pub(crate) fn glob_compiles(pattern: &str) -> (r: bool)
    ensures
        r == glob_ok(pattern@),
{
    match globset::Glob::new(pattern) {
        Ok(glob) => {
            let mut builder = globset::GlobSetBuilder::new();
            builder.add(glob);
            builder.build().is_ok()
        },
        Err(_) => false,
    }
}

/// Relies on globset::Glob::new, globset::GlobSetBuilder::build and
/// globset::GlobSet::is_match: for a pattern whose matcher compiles,
/// whether the glob matches a path is a function of the pattern and the
/// path strings alone.
#[verifier::external_body]
pub(crate) fn glob_matches(pattern: &str, path: &str) -> (r: bool)
    requires
        glob_ok(pattern@),
    ensures
        r == glob_match(pattern@, path@),
{
    let mut builder = globset::GlobSetBuilder::new();
    builder.add(globset::Glob::new(pattern).unwrap());
    builder.build().unwrap().is_match(path)
}

/// The four admission rule kinds.
#[derive(Clone, Copy, PartialEq, Eq, Structural, Debug)]
pub enum RuleKind {
    AcceptFilesByGlob,
    RejectFilesByGlob,
    AcceptIfChildrenDirectoriesArePresent,
    RejectIfChildrenDirectoriesArePresent,
}

/// The parameters of one rule, one variant per kind: a glob pattern for the
/// glob kinds, a list of marker child names for the children-present kinds.
#[derive(Clone, Debug)]
pub enum ParametersPerKind {
    AcceptFilesByGlob(String),
    RejectFilesByGlob(String),
    AcceptIfChildrenDirectoriesArePresent(Vec<String>),
    RejectIfChildrenDirectoriesArePresent(Vec<String>),
}

/// One admission rule: a kind, a display name, and the kind's parameters.
#[derive(Clone, Debug)]
pub struct IndexerRule {
    pub kind: RuleKind,
    pub name: String,
    pub parameters: ParametersPerKind,
}

impl IndexerRule {
    /// The parameters carry the variant of the rule's kind, and a glob
    /// pattern compiles.
    pub open spec fn wf(self) -> bool {
        match self.parameters {
            ParametersPerKind::AcceptFilesByGlob(g) => self.kind
                == RuleKind::AcceptFilesByGlob && glob_ok(g@),
            ParametersPerKind::RejectFilesByGlob(g) => self.kind
                == RuleKind::RejectFilesByGlob && glob_ok(g@),
            ParametersPerKind::AcceptIfChildrenDirectoriesArePresent(_) => self.kind
                == RuleKind::AcceptIfChildrenDirectoriesArePresent,
            ParametersPerKind::RejectIfChildrenDirectoriesArePresent(_) => self.kind
                == RuleKind::RejectIfChildrenDirectoriesArePresent,
        }
    }

    /// Whether the parameters are the variant belonging to `kind`.
    pub open spec fn kind_matches(kind: RuleKind, parameters: ParametersPerKind) -> bool {
        match parameters {
            ParametersPerKind::AcceptFilesByGlob(_) => kind == RuleKind::AcceptFilesByGlob,
            ParametersPerKind::RejectFilesByGlob(_) => kind == RuleKind::RejectFilesByGlob,
            ParametersPerKind::AcceptIfChildrenDirectoriesArePresent(_) => kind
                == RuleKind::AcceptIfChildrenDirectoriesArePresent,
            ParametersPerKind::RejectIfChildrenDirectoriesArePresent(_) => kind
                == RuleKind::RejectIfChildrenDirectoriesArePresent,
        }
    }

    /// Builds a rule, checking that the parameters fit the kind and that a
    /// glob pattern compiles.
    pub fn new(kind: RuleKind, name: String, parameters: ParametersPerKind) -> (r: Option<
        IndexerRule,
    >)
        ensures
            r is Some ==> {
                &&& r->0.kind == kind
                &&& r->0.name == name
                &&& r->0.parameters == parameters
                &&& r->0.wf()
            },
            r is None <==> !Self::kind_matches(kind, parameters) || !Self::params_glob_ok(
                parameters,
            ),
    {
        let ok = match (&kind, &parameters) {
            (RuleKind::AcceptFilesByGlob, ParametersPerKind::AcceptFilesByGlob(g)) => {
                glob_compiles(g.as_str())
            },
            (RuleKind::RejectFilesByGlob, ParametersPerKind::RejectFilesByGlob(g)) => {
                glob_compiles(g.as_str())
            },
            (
                RuleKind::AcceptIfChildrenDirectoriesArePresent,
                ParametersPerKind::AcceptIfChildrenDirectoriesArePresent(_),
            ) => true,
            (
                RuleKind::RejectIfChildrenDirectoriesArePresent,
                ParametersPerKind::RejectIfChildrenDirectoriesArePresent(_),
            ) => true,
            _ => false,
        };
        if ok {
            Some(IndexerRule { kind, name, parameters })
        } else {
            None
        }
    }

    /// A glob parameter's pattern compiles; true for the children kinds.
    pub open spec fn params_glob_ok(parameters: ParametersPerKind) -> bool {
        match parameters {
            ParametersPerKind::AcceptFilesByGlob(g) => glob_ok(g@),
            ParametersPerKind::RejectFilesByGlob(g) => glob_ok(g@),
            _ => true,
        }
    }

    /// The glob pattern of a glob rule.
    pub open spec fn glob_pattern(self) -> Seq<char> {
        match self.parameters {
            ParametersPerKind::AcceptFilesByGlob(g) => g@,
            ParametersPerKind::RejectFilesByGlob(g) => g@,
            _ => Seq::empty(),
        }
    }

    /// The marker child names of a children-present rule.
    pub open spec fn child_names(self) -> Seq<Seq<char>> {
        match self.parameters {
            ParametersPerKind::AcceptIfChildrenDirectoriesArePresent(names) => names.deep_view(),
            ParametersPerKind::RejectIfChildrenDirectoriesArePresent(names) => names.deep_view(),
            _ => Seq::empty(),
        }
    }
}

/// The rules of a walk grouped by kind. An empty list means no rule of that
/// kind is configured.
#[derive(Clone, Debug)]
pub struct RulesByKind {
    pub accept_glob: Vec<IndexerRule>,
    pub reject_glob: Vec<IndexerRule>,
    pub accept_children: Vec<IndexerRule>,
    pub reject_children: Vec<IndexerRule>,
}

impl RulesByKind {
    /// Every rule sits in the list of its kind and is itself well formed.
    pub open spec fn wf(self) -> bool {
        &&& forall|i: int|
            0 <= i < self.accept_glob@.len() ==> (#[trigger] self.accept_glob@[i]).wf()
                && self.accept_glob@[i].kind == RuleKind::AcceptFilesByGlob
        &&& forall|i: int|
            0 <= i < self.reject_glob@.len() ==> (#[trigger] self.reject_glob@[i]).wf()
                && self.reject_glob@[i].kind == RuleKind::RejectFilesByGlob
        &&& forall|i: int|
            0 <= i < self.accept_children@.len() ==> (#[trigger] self.accept_children@[i]).wf()
                && self.accept_children@[i].kind
                == RuleKind::AcceptIfChildrenDirectoriesArePresent
        &&& forall|i: int|
            0 <= i < self.reject_children@.len() ==> (#[trigger] self.reject_children@[i]).wf()
                && self.reject_children@[i].kind
                == RuleKind::RejectIfChildrenDirectoriesArePresent
    }

    /// A rule set with no rules at all.
    pub fn empty() -> (r: RulesByKind)
        ensures
            r.wf(),
            r.accept_glob@.len() == 0,
            r.reject_glob@.len() == 0,
            r.accept_children@.len() == 0,
            r.reject_children@.len() == 0,
    {
        RulesByKind {
            accept_glob: Vec::new(),
            reject_glob: Vec::new(),
            accept_children: Vec::new(),
            reject_children: Vec::new(),
        }
    }

    /// Appends `rule` to the list of its kind. Returns false and leaves the
    /// set unchanged when the rule is not well formed.
    pub fn add(&mut self, rule: IndexerRule) -> (r: bool)
        ensures
            old(self).wf() ==> final(self).wf(),
            r == rule.wf(),
            !r ==> *final(self) == *old(self),
            r ==> match rule.kind {
                RuleKind::AcceptFilesByGlob => {
                    &&& final(self).accept_glob@ == old(self).accept_glob@.push(rule)
                    &&& final(self).reject_glob == old(self).reject_glob
                    &&& final(self).accept_children == old(self).accept_children
                    &&& final(self).reject_children == old(self).reject_children
                },
                RuleKind::RejectFilesByGlob => {
                    &&& final(self).reject_glob@ == old(self).reject_glob@.push(rule)
                    &&& final(self).accept_glob == old(self).accept_glob
                    &&& final(self).accept_children == old(self).accept_children
                    &&& final(self).reject_children == old(self).reject_children
                },
                RuleKind::AcceptIfChildrenDirectoriesArePresent => {
                    &&& final(self).accept_children@ == old(self).accept_children@.push(rule)
                    &&& final(self).accept_glob == old(self).accept_glob
                    &&& final(self).reject_glob == old(self).reject_glob
                    &&& final(self).reject_children == old(self).reject_children
                },
                RuleKind::RejectIfChildrenDirectoriesArePresent => {
                    &&& final(self).reject_children@ == old(self).reject_children@.push(rule)
                    &&& final(self).accept_glob == old(self).accept_glob
                    &&& final(self).reject_glob == old(self).reject_glob
                    &&& final(self).accept_children == old(self).accept_children
                },
            },
    {
        let wf = match (&rule.kind, &rule.parameters) {
            (RuleKind::AcceptFilesByGlob, ParametersPerKind::AcceptFilesByGlob(g)) => {
                glob_compiles(g.as_str())
            },
            (RuleKind::RejectFilesByGlob, ParametersPerKind::RejectFilesByGlob(g)) => {
                glob_compiles(g.as_str())
            },
            (
                RuleKind::AcceptIfChildrenDirectoriesArePresent,
                ParametersPerKind::AcceptIfChildrenDirectoriesArePresent(_),
            ) => true,
            (
                RuleKind::RejectIfChildrenDirectoriesArePresent,
                ParametersPerKind::RejectIfChildrenDirectoriesArePresent(_),
            ) => true,
            _ => false,
        };
        if !wf {
            return false;
        }
        match rule.kind {
            RuleKind::AcceptFilesByGlob => self.accept_glob.push(rule),
            RuleKind::RejectFilesByGlob => self.reject_glob.push(rule),
            RuleKind::AcceptIfChildrenDirectoriesArePresent => self.accept_children.push(rule),
            RuleKind::RejectIfChildrenDirectoriesArePresent => self.reject_children.push(rule),
        }
        true
    }

    /// Validates every rule list with the glob compiler.
    pub fn is_wf(&self) -> (r: bool)
        ensures
            r == self.wf(),
    {
        let mut ok = check_rule_list(&self.accept_glob, RuleKind::AcceptFilesByGlob);
        ok = ok && check_rule_list(&self.reject_glob, RuleKind::RejectFilesByGlob);
        ok = ok && check_rule_list(
            &self.accept_children,
            RuleKind::AcceptIfChildrenDirectoriesArePresent,
        );
        ok = ok && check_rule_list(
            &self.reject_children,
            RuleKind::RejectIfChildrenDirectoriesArePresent,
        );
        ok
    }
}

/// Checks that every rule in `list` is well formed and of kind `kind`.
fn check_rule_list(list: &Vec<IndexerRule>, kind: RuleKind) -> (r: bool)
    ensures
        r == forall|i: int|
            0 <= i < list@.len() ==> (#[trigger] list@[i]).wf() && list@[i].kind == kind,
{
    let mut i: usize = 0;
    while i < list.len()
        invariant
            0 <= i <= list@.len(),
            forall|k: int| 0 <= k < i ==> (#[trigger] list@[k]).wf() && list@[k].kind == kind,
        decreases list@.len() - i,
    {
        let rule = &list[i];
        if rule.kind != kind {
            return false;
        }
        let ok = match (&rule.kind, &rule.parameters) {
            (RuleKind::AcceptFilesByGlob, ParametersPerKind::AcceptFilesByGlob(g)) => {
                glob_compiles(g.as_str())
            },
            (RuleKind::RejectFilesByGlob, ParametersPerKind::RejectFilesByGlob(g)) => {
                glob_compiles(g.as_str())
            },
            (
                RuleKind::AcceptIfChildrenDirectoriesArePresent,
                ParametersPerKind::AcceptIfChildrenDirectoriesArePresent(_),
            ) => true,
            (
                RuleKind::RejectIfChildrenDirectoriesArePresent,
                ParametersPerKind::RejectIfChildrenDirectoriesArePresent(_),
            ) => true,
            _ => false,
        };
        if !ok {
            return false;
        }
        i += 1;
    }
    true
}

} // verus!
