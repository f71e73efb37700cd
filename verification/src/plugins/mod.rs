//! Plugin API trait and registry.
//!
//! Plugins extend the editor with documentation, validation rules, and
//! default value templates. One built-in plugin covers `Cargo.toml` files.

pub mod cargo_toml;

use vstd::prelude::*;

use crate::tree::{Path, Value};
use crate::validation::ValidationMessage;

verus! {

/// A plugin that adds domain-specific knowledge about a config file format.
///
/// Plugins can:
/// - Provide inline documentation for config keys (shown in the property panel)
/// - Add custom validation rules on top of the generic validators
/// - Supply default values for common keys
pub trait Plugin {
    /// Human-readable name (e.g. "Cargo.toml").
    fn name(&self) -> String;

    /// A short description of what this plugin covers.
    fn description(&self) -> String;

    /// Is this plugin applicable to files with the given name?
    spec fn applies_to(&self, file_name: Seq<char>) -> bool;

    /// Return `true` if this plugin is applicable to the given file name.
    fn matches_file(&self, file_name: &str) -> (r: bool)
        ensures
            r == self.applies_to(file_name@);

    /// Documentation for the given path, or `None` when the plugin has none.
    fn docs_for(&self, path: &Path) -> Option<String>;

    /// Custom validation for the given value at `path`, in addition to the
    /// generic validators. By default a plugin adds no messages.
    fn validate(&self, path: &Path, value: &Value) -> (r: Vec<ValidationMessage>)
        default_ensures
            r@.len() == 0,
    {
        Vec::new()
    }

    /// Default value template: an optional subtree to merge when the file is
    /// empty or missing common keys. By default a plugin has none.
    fn defaults(&self) -> (r: Option<Value>)
        default_ensures
            r is None,
    {
        None
    }
}

/// The plugin registry — a list of loaded plugins, in registration order.
///
/// The registry is generic over the plugin type (an application with several
/// kinds of plugin uses an enum of them).
pub struct PluginRegistry<P: Plugin> {
    plugins: Vec<P>,
}

impl<P: Plugin> PluginRegistry<P> {
    /// The registered plugins, in registration order.
    pub closed spec fn plugins(&self) -> Seq<P> {
        self.plugins@
    }

    /// Create an empty registry.
    pub fn new() -> (r: Self)
        ensures
            r.plugins() == Seq::<P>::empty(),
    {
        PluginRegistry { plugins: Vec::new() }
    }

    /// Register a plugin (it goes after those already registered).
    pub fn register(&mut self, plugin: P)
        ensures
            final(self).plugins() == old(self).plugins().push(plugin),
    {
        self.plugins.push(plugin);
    }

    /// Find the first plugin that matches the given file name.
    pub fn find_for_file(&self, file_name: &str) -> (r: Option<&P>)
        ensures
            match r {
                Some(p) => exists|i: int|
                    0 <= i < self.plugins().len() && self.plugins()[i] == *p
                        && p.applies_to(file_name@) && forall|j: int|
                        0 <= j < i ==> !#[trigger] self.plugins()[j].applies_to(file_name@),
                None => forall|j: int|
                    0 <= j < self.plugins().len() ==> !#[trigger] self.plugins()[j].applies_to(
                        file_name@,
                    ),
            },
    {
        let mut i: usize = 0;
        while i < self.plugins.len()
            invariant
                i <= self.plugins@.len(),
                forall|j: int| 0 <= j < i ==> !#[trigger] self.plugins@[j].applies_to(file_name@),
            decreases self.plugins@.len() - i,
        {
            if self.plugins[i].matches_file(file_name) {
                assert(self.plugins()[i as int] == self.plugins@[i as int]);
                return Some(&self.plugins[i]);
            }
            i = i + 1;
        }
        None
    }

    /// Return all registered plugins.
    pub fn all(&self) -> (r: &[P])
        ensures
            r@ == self.plugins(),
    {
        self.plugins.as_slice()
    }
}

} // verus!
