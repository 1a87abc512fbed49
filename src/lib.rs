pub mod json;

use vstd::prelude::*;

use crate::json::laws::well_formed;
use crate::json::{document_of, get_path, render, result_view, set_path, Json, JsonError, JsonValue, Val};

verus! {

/// A configuration held as a JSON document and read and written by dotted paths.
pub struct Config(Json);

impl View for Config {
    type V = Val;

    closed spec fn view(&self) -> Val {
        self.0@
    }
}

impl Config {
    /// The configuration that `text` holds.
    pub fn from_text(text: &str) -> (r: Result<Config, JsonError>)
        ensures
            match document_of(text@) {
                Ok(v) => r is Ok && r->Ok_0@ == v,
                Err(e) => r matches Err(e2) && e2 == e,
            },
            r is Ok ==> well_formed(r->Ok_0@),
    {
        match Json::from_text(text) {
            Ok(j) => Ok(Config(j)),
            Err(e) => Err(e),
        }
    }

    /// The value at dotted path `key`.
    pub fn get(&self, key: &str) -> (r: Result<JsonValue, JsonError>)
        ensures
            result_view(r) == get_path(self@, key@),
    {
        self.0.get(key)
    }

    /// Sets the value at dotted path `key`.
    pub fn set(&mut self, key: &str, value: JsonValue) -> (r: Result<(), JsonError>)
        ensures
            match set_path(old(self)@, key@, value@) {
                Ok(v) => r is Ok && final(self)@ == v,
                Err(e) => r == Err::<(), JsonError>(e) && final(self)@ == old(self)@,
            },
            well_formed(old(self)@) && well_formed(value@) ==> well_formed(final(self)@),
    {
        self.0.set(key, value)
    }

    /// The JSON text of the configuration.
    pub fn to_string(&self) -> (r: String)
        ensures
            r@ == render(self@),
    {
        self.0.to_string()
    }
}

} // verus!
