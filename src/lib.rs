//! Splits a stream of Kubernetes-style manifests into one document per
//! derived file name.
//!
//! The library holds the pure part of the work: a model of a parsed YAML
//! value, the rule that derives a file name key from one document, and the
//! partition of a whole stream of documents into a map from key to document.

pub mod node;
pub mod key;
pub mod partition;
