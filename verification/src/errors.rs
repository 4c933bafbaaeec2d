//! Skill-related error types.

use vstd::prelude::*;

verus! {

/// Base error for all skill-related failures.
#[derive(Debug, Clone, PartialEq, Eq)]
pub enum SkillError {
    /// `SKILL.md` parsing failed (missing file, malformed frontmatter,
    /// invalid YAML, ...).
    Parse(String),
    /// Skill properties are invalid; carries one or more messages.
    Validation { message: String, errors: Vec<String> },
}

impl SkillError {
    /// The first-line message of the error.
    pub open spec fn message_spec(&self) -> Seq<char> {
        match self {
            SkillError::Parse(m) => m@,
            SkillError::Validation { message, .. } => message@,
        }
    }

    /// The list of underlying messages.
    pub open spec fn errors_spec(&self) -> Seq<Seq<char>> {
        match self {
            SkillError::Parse(m) => seq![m@],
            SkillError::Validation { errors, .. } => errors@.map_values(|e: String| e@),
        }
    }

    /// A parse error with the given message.
    pub fn parse(message: String) -> (r: Self)
        ensures
            r == SkillError::Parse(message),
    {
        SkillError::Parse(message)
    }

    /// A validation error from a single message; `errors` holds exactly that message.
    pub fn validation(message: String) -> (r: Self)
        ensures
            r is Validation,
            r.message_spec() == message@,
            r.errors_spec() == seq![message@],
    {
        let copy = message.clone();
        let errors = vec![copy];
        let r = SkillError::Validation { errors, message };
        assert(r.errors_spec() =~= seq![r.message_spec()]);
        r
    }

    /// A validation error carrying an explicit list of messages; the
    /// `message` is the first of them, or empty.
    pub fn validation_many(errors: Vec<String>) -> (r: Self)
        ensures
            r matches SkillError::Validation { message: m, errors: es } && es@ == errors@ && m@ == (
            if errors@.len() > 0 {
                errors@[0]@
            } else {
                Seq::<char>::empty()
            }),
    {
        let message = if errors.len() > 0 {
            errors[0].clone()
        } else {
            String::new()
        };
        SkillError::Validation { message, errors }
    }

    /// The list of underlying error messages.
    pub fn errors(&self) -> (r: Vec<String>)
        ensures
            r@.map_values(|e: String| e@) == self.errors_spec(),
    {
        match self {
            SkillError::Parse(m) => {
                let v = vec![m.clone()];
                assert(v@.map_values(|e: String| e@) =~= seq![m@]);
                v
            },
            SkillError::Validation { errors, .. } => {
                let mut out: Vec<String> = Vec::new();
                let mut i: usize = 0;
                while i < errors.len()
                    invariant
                        i <= errors@.len(),
                        out@.len() == i,
                        forall|j: int| 0 <= j < i ==> #[trigger] out@[j]@ == errors@[j]@,
                    decreases errors@.len() - i,
                {
                    out.push(errors[i].clone());
                    i = i + 1;
                }
                assert(out@.map_values(|e: String| e@) =~= errors@.map_values(|e: String| e@));
                out
            },
        }
    }

    /// The error's message, as its `Display` rendering would show it.
    pub fn to_string(&self) -> (r: String)
        ensures
            r@ == self.message_spec(),
    {
        match self {
            SkillError::Parse(m) => m.clone(),
            SkillError::Validation { message, .. } => message.clone(),
        }
    }
}

/// Convenience alias used throughout the crate.
pub type Result<T> = core::result::Result<T, SkillError>;

} // verus!
