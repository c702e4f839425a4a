//! The models a conversation can be billed at, as far as the token
//! accounting goes: a name and a context window. Their prices per million
//! tokens are money amounts held by the front end.

use vstd::prelude::*;
use crate::storage::{parse_u64, parse_u64_of};
use crate::text::{chars_of, string_of, trim, trim_chars};

verus! {

/// A model: its display name and the size of its context window.
#[derive(Clone, Debug)]
pub struct ModelInfo {
    pub name: String,
    /// Maximum context window in tokens.
    pub context_window: u64,
}

/// What a model is, as plain values.
pub struct ModelRecord {
    pub name: Seq<char>,
    pub context_window: u64,
}

impl View for ModelInfo {
    type V = ModelRecord;

    open spec fn view(&self) -> ModelRecord {
        ModelRecord { name: self.name@, context_window: self.context_window }
    }
}

impl ModelInfo {
    /// A model with the given name and context window.
    pub fn new(name: &str, context_window: u64) -> (m: ModelInfo)
        ensures
            m@ == (ModelRecord { name: name@, context_window }),
    {
        ModelInfo { name: name.to_owned(), context_window }
    }

    /// An exact copy of this model.
    pub fn duplicate(&self) -> (m: ModelInfo)
        ensures
            m@ == self@,
    {
        ModelInfo { name: self.name.clone(), context_window: self.context_window }
    }
}

/// The names of the models shipped with the app, in order.
pub open spec fn default_model_names() -> Seq<Seq<char>> {
    seq!["Opus 4.8"@, "Sonnet 4.6"@, "Haiku 4.5"@, "GPT-5"@, "Gemini 2.5 Pro"@]
}

/// The set of common models shipped with the app, each with a context
/// window of a million tokens.
pub fn default_models() -> (v: Vec<ModelInfo>)
    ensures
        v@.len() == 5,
        forall|i: int|
            0 <= i < 5 ==> (#[trigger] v@[i])@ == (ModelRecord {
                name: default_model_names()[i],
                context_window: 1_000_000,
            }),
{
    let ctx: u64 = 1_000_000;
    let v = vec![
        ModelInfo::new("Opus 4.8", ctx),
        ModelInfo::new("Sonnet 4.6", ctx),
        ModelInfo::new("Haiku 4.5", ctx),
        ModelInfo::new("GPT-5", ctx),
        ModelInfo::new("Gemini 2.5 Pro", ctx),
    ];
    v
}

/// Why the custom-model form was refused.
#[derive(PartialEq, Eq, Structural, Clone, Copy, Debug)]
pub enum FormError {
    EmptyName,
    InputPrice,
    OutputPrice,
    CachedPrice,
    Context,
}

/// The message shown for a refused form.
pub open spec fn form_error_text(e: FormError) -> Seq<char> {
    match e {
        FormError::EmptyName => "Name cannot be empty"@,
        FormError::InputPrice => "Input price must be a number"@,
        FormError::OutputPrice => "Output price must be a number"@,
        FormError::CachedPrice => "Cached price must be a number"@,
        FormError::Context => "Context must be a whole number of tokens"@,
    }
}

impl FormError {
    /// The message shown for this refusal.
    pub fn message(&self) -> (s: String)
        ensures
            s@ == form_error_text(*self),
    {
        match self {
            FormError::EmptyName => "Name cannot be empty".to_owned(),
            FormError::InputPrice => "Input price must be a number".to_owned(),
            FormError::OutputPrice => "Output price must be a number".to_owned(),
            FormError::CachedPrice => "Cached price must be a number".to_owned(),
            FormError::Context => "Context must be a whole number of tokens".to_owned(),
        }
    }
}

/// What the custom-model form describes, checked in order: the trimmed
/// name must not be empty, each of the three prices must have read as a
/// number, and the trimmed context is a whole number of tokens, a million
/// when left blank.
pub open spec fn form_result(
    name: Seq<char>,
    input_ok: bool,
    output_ok: bool,
    cached_ok: bool,
    context: Seq<char>,
) -> Result<ModelRecord, FormError> {
    let n = trim(name);
    let c = trim(context);
    if n.len() == 0 {
        Err(FormError::EmptyName)
    } else if !input_ok {
        Err(FormError::InputPrice)
    } else if !output_ok {
        Err(FormError::OutputPrice)
    } else if !cached_ok {
        Err(FormError::CachedPrice)
    } else if c.len() == 0 {
        Ok(ModelRecord { name: n, context_window: 1_000_000 })
    } else {
        match parse_u64_of(c) {
            Some(v) => Ok(ModelRecord { name: n, context_window: v }),
            None => Err(FormError::Context),
        }
    }
}

/// Checks the custom-model form (see [`form_result`]). The prices are
/// money amounts read by the front end; it passes whether each read as a
/// number.
pub fn check_form(name: &str, input_ok: bool, output_ok: bool, cached_ok: bool, context: &str) -> (r:
    Result<ModelInfo, FormError>)
    ensures
        match form_result(name@, input_ok, output_ok, cached_ok, context@) {
            Ok(m) => r matches Ok(x) && x@ == m,
            Err(e) => r == Err::<ModelInfo, FormError>(e),
        },
{
    let n = trim_chars(&chars_of(name));
    if n.len() == 0 {
        return Err(FormError::EmptyName);
    }
    if !input_ok {
        return Err(FormError::InputPrice);
    }
    if !output_ok {
        return Err(FormError::OutputPrice);
    }
    if !cached_ok {
        return Err(FormError::CachedPrice);
    }
    let c = trim_chars(&chars_of(context));
    let window = if c.len() == 0 {
        1_000_000
    } else {
        match parse_u64(&c) {
            Some(v) => v,
            None => {
                return Err(FormError::Context);
            },
        }
    };
    Ok(ModelInfo { name: string_of(&n), context_window: window })
}

} // verus!
