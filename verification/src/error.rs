//! Errors of validation and of the Vulkan implementation.
use vstd::prelude::*;
use vstd::string::*;

verus! {

/// The texts behind a list of strings.
pub open spec fn texts(list: Seq<String>) -> Seq<Seq<char>> {
    list.map_values(|s: String| s@)
}

/// The texts behind a list of string literals.
pub open spec fn literals(list: Seq<&'static str>) -> Seq<Seq<char>> {
    list.map_values(|s: &'static str| s@)
}

/// What a use of the API needs from the device, where the device does not have it.
#[derive(Clone, Debug, PartialEq, Eq)]
pub struct RequirementNotMet {
    /// What the requirement is for.
    pub problem: String,
    /// The alternatives, one of which would have met the requirement.
    pub requires_one_of: Vec<String>,
}

/// The contents of a [`RequirementNotMet`].
#[verifier::ext_equal]
pub struct RequirementView {
    pub problem: Seq<char>,
    pub requires_one_of: Seq<Seq<char>>,
}

impl View for RequirementNotMet {
    type V = RequirementView;

    open spec fn view(&self) -> RequirementView {
        RequirementView { problem: self.problem@, requires_one_of: texts(self.requires_one_of@) }
    }
}

impl RequirementNotMet {
    /// A copy of the requirement.
    pub fn duplicate(&self) -> (r: RequirementNotMet)
        ensures
            r@ == self@,
    {
        let mut requires_one_of: Vec<String> = Vec::new();
        let mut i: usize = 0;
        while i < self.requires_one_of.len()
            invariant
                i <= self.requires_one_of.len(),
                requires_one_of.len() == i,
                forall|j: int|
                    0 <= j < i ==> #[trigger] requires_one_of@[j]@ == self.requires_one_of@[j]@,
            decreases self.requires_one_of.len() - i,
        {
            requires_one_of.push(self.requires_one_of[i].clone());
            i = i + 1;
        }
        assert(texts(requires_one_of@) =~= texts(self.requires_one_of@));
        RequirementNotMet { problem: self.problem.clone(), requires_one_of }
    }
}

/// An input that breaks a rule of the API.
#[derive(Clone, Debug, PartialEq, Eq)]
pub struct ValidationError {
    /// The part of the input that the error is about. It is empty if the error is about the input
    /// as a whole.
    pub context: String,
    /// What is wrong.
    pub problem: String,
    /// If the device lacks something, the alternatives that would have been enough.
    pub requires_one_of: Vec<String>,
    /// The identifiers that Vulkan gives to the broken rules.
    pub vuids: Vec<&'static str>,
}

/// The contents of a [`ValidationError`].
#[verifier::ext_equal]
pub struct ErrorView {
    pub context: Seq<char>,
    pub problem: Seq<char>,
    pub requires_one_of: Seq<Seq<char>>,
    pub vuids: Seq<Seq<char>>,
}

impl View for ValidationError {
    type V = ErrorView;

    open spec fn view(&self) -> ErrorView {
        ErrorView {
            context: self.context@,
            problem: self.problem@,
            requires_one_of: texts(self.requires_one_of@),
            vuids: literals(self.vuids@),
        }
    }
}

/// The error for a broken rule that no device could meet.
pub open spec fn broken_rule(context: Seq<char>, problem: Seq<char>, vuid: Seq<char>) -> ErrorView {
    ErrorView { context, problem, requires_one_of: Seq::empty(), vuids: seq![vuid] }
}

/// The error for something that the device lacks.
pub open spec fn lacking(
    context: Seq<char>,
    requirement: RequirementView,
    vuid: Seq<char>,
) -> ErrorView {
    ErrorView {
        context,
        problem: requirement.problem,
        requires_one_of: requirement.requires_one_of,
        vuids: seq![vuid],
    }
}

/// The same error, as part of the larger input `context`.
pub open spec fn within(context: Seq<char>, error: ErrorView) -> ErrorView {
    ErrorView {
        context: if error.context.len() == 0 {
            context
        } else {
            context + "."@ + error.context
        },
        ..error
    }
}

impl ValidationError {
    pub(crate) fn new(context: &str, problem: String, vuid: &'static str) -> (e: ValidationError)
        ensures
            e@ == broken_rule(context@, problem@, vuid@),
    {
        let requires_one_of: Vec<String> = Vec::new();
        let vuids: Vec<&'static str> = vec![vuid];
        assert(texts(requires_one_of@) =~= Seq::empty());
        assert(literals(vuids@) =~= seq![vuid@]);
        ValidationError { context: context.to_owned(), problem, requires_one_of, vuids }
    }

    /// The error for a requirement that the device does not meet. It has no context and names no
    /// rule.
    pub fn from_requirement(err: RequirementNotMet) -> (e: ValidationError)
        ensures
            e@ == (ErrorView {
                context: Seq::empty(),
                problem: err@.problem,
                requires_one_of: err@.requires_one_of,
                vuids: Seq::empty(),
            }),
    {
        let vuids: Vec<&'static str> = Vec::new();
        assert(literals(vuids@) =~= Seq::empty());
        ValidationError {
            context: String::new(),
            problem: err.problem,
            requires_one_of: err.requires_one_of,
            vuids,
        }
    }

    pub(crate) fn lacking(
        context: &str,
        err: RequirementNotMet,
        vuid: &'static str,
    ) -> (e: ValidationError)
        ensures
            e@ == lacking(context@, err@, vuid@),
    {
        let base = ValidationError::from_requirement(err);
        let vuids: Vec<&'static str> = vec![vuid];
        assert(literals(vuids@) =~= seq![vuid@]);
        ValidationError {
            context: context.to_owned(),
            problem: base.problem,
            requires_one_of: base.requires_one_of,
            vuids,
        }
    }

    /// Says that the error is about a part of the larger input `context`.
    pub fn add_context(self, context: &str) -> (e: ValidationError)
        ensures
            e@ == within(context@, self@),
    {
        let mut text = context.to_owned();
        if !self.context.as_str().is_empty() {
            text.append(".");
            text.append(self.context.as_str());
        }
        ValidationError {
            context: text,
            problem: self.problem,
            requires_one_of: self.requires_one_of,
            vuids: self.vuids,
        }
    }
}

/// An error that the Vulkan implementation returned.
#[derive(Clone, Copy, Debug, PartialEq, Eq, Structural)]
pub enum RuntimeError {
    OutOfHostMemory,
    OutOfDeviceMemory,
    /// Any other result code.
    Unnamed(i32),
}

/// The error that a Vulkan result code stands for.
pub open spec fn runtime_error(code: i32) -> RuntimeError {
    if code == -1 {
        RuntimeError::OutOfHostMemory
    } else if code == -2 {
        RuntimeError::OutOfDeviceMemory
    } else {
        RuntimeError::Unnamed(code)
    }
}

impl From<i32> for RuntimeError {
    fn from(code: i32) -> (e: RuntimeError) {
        if code == -1 {
            RuntimeError::OutOfHostMemory
        } else if code == -2 {
            RuntimeError::OutOfDeviceMemory
        } else {
            RuntimeError::Unnamed(code)
        }
    }
}

impl vstd::std_specs::convert::FromSpecImpl<i32> for RuntimeError {
    open spec fn obeys_from_spec() -> bool {
        true
    }

    open spec fn from_spec(code: i32) -> RuntimeError {
        runtime_error(code)
    }
}

/// Either kind of error.
#[derive(Clone, Debug, PartialEq, Eq)]
pub enum VulkanError {
    ValidationError(ValidationError),
    RuntimeError(RuntimeError),
}

/// An error within a larger input keeps what it says. Its context is that of the input, followed by
/// a dot and its own one where it has one.
pub proof fn law_within(context: Seq<char>, e: ErrorView)
    ensures
        within(context, e).problem == e.problem,
        within(context, e).requires_one_of == e.requires_one_of,
        within(context, e).vuids == e.vuids,
        e.context.len() == 0 ==> within(context, e).context == context,
        e.context.len() > 0 ==> {
            let whole = within(context, e).context;
            &&& whole.len() == context.len() + 1 + e.context.len()
            &&& whole.take(context.len() as int) == context
            &&& whole[context.len() as int] == '.'
            &&& whole.skip(context.len() as int + 1) == e.context
        },
{
    reveal_strlit(".");
    if e.context.len() > 0 {
        let whole = within(context, e).context;
        assert(whole.take(context.len() as int) =~= context);
        assert(whole.skip(context.len() as int + 1) =~= e.context);
    }
}

/// A context within a context is one context.
pub proof fn law_within_within(outer: Seq<char>, inner: Seq<char>, e: ErrorView)
    requires
        inner.len() > 0,
    ensures
        within(outer, within(inner, e)) == within(outer + "."@ + inner, e),
{
    let a = within(outer, within(inner, e));
    let b = within(outer + "."@ + inner, e);
    assert(a.context =~= b.context);
}

/// Each result code stands for its own error.
pub proof fn law_runtime_errors(code: i32)
    ensures
        runtime_error(code) == RuntimeError::OutOfHostMemory <==> code == -1,
        runtime_error(code) == RuntimeError::OutOfDeviceMemory <==> code == -2,
        code != -1 && code != -2 ==> runtime_error(code) == RuntimeError::Unnamed(code),
{
}

/// The contents of an error are its texts, each as it stands in the error.
pub proof fn law_contents_of_an_error(e: ValidationError)
    ensures
        e@.context == e.context@,
        e@.problem == e.problem@,
        e@.requires_one_of.len() == e.requires_one_of@.len(),
        forall|i: int|
            0 <= i < e.requires_one_of@.len() ==> (#[trigger] e@.requires_one_of[i])
                == e.requires_one_of@[i]@,
        e@.vuids.len() == e.vuids@.len(),
        forall|i: int| 0 <= i < e.vuids@.len() ==> (#[trigger] e@.vuids[i]) == e.vuids@[i]@,
{
}

} // verus!
