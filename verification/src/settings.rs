//! The settings of the model provider that the rules need: the default
//! provider and whether the connection is configured.
use vstd::prelude::*;
use crate::text::{is_blank, trim};

verus! {

/// The provider used when none is set.
pub fn default_provider() -> (r: String)
    ensures
        r@ == "openai-compatible"@,
{
    "openai-compatible".to_owned()
}

/// The provider can be called: its address, key and model are all given (not blank).
pub fn is_configured(base_url: &str, api_key: &str, model: &str) -> (r: bool)
    ensures
        r == (trim(base_url@).len() > 0 && trim(api_key@).len() > 0 && trim(model@).len() > 0),
{
    !is_blank(base_url) && !is_blank(api_key) && !is_blank(model)
}

} // verus!
