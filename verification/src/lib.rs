//! Schema-driven binary codecs for JSON-like documents.
//!
//! The shape of a document is given at run time by a schema, a tree of
//! [`ty::Ty`] nodes, and not by a type. Every codec walks schema and document
//! together, in schema order, and writes or reads a byte layout without
//! tags, names or per-field lengths: the bytes mean nothing without the
//! schema they were written against.
//!
//! * [`ty`] is the schema model and [`value`] the document value model.
//! * [`codec`] is the traversal that every backend shares, with what it
//!   writes and reads stated as functions of the models, and the laws that
//!   hold of them: a document that matches its schema is read back as it was
//!   written.
//! * [`layout`] holds the two byte layouts. [`binc`] is the variable-length
//!   backend and [`flatbin`] the flat one, with its reusable buffer and its
//!   incremental writer; [`slow`] is the reference codec on flat buffers.
//! * [`fast`] is the streaming codec between structured streams and flat
//!   buffers. It builds no document value, and it encodes, rejects and
//!   decodes exactly as the reference codec does.
//!
//! An encode that fails reports the first node at which schema and document
//! disagree. It does not roll back: a buffer that was being appended to keeps
//! the bytes written before the failure.

pub mod assoc;
pub mod text;
pub mod names;
pub mod error;
pub mod ty;
pub mod value;
pub mod equal;
pub mod layout;
pub mod codec;
pub mod binc;
pub mod flatbin;
pub mod slow;
pub mod fast;
