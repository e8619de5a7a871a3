//! A sparse Merkle Patricia trie of which parts can be hashed independently.
//!
//! The trie holds the nodes that have been revealed, and the hashes of those that have not. It is
//! split in two levels: the nodes with short paths are in one upper subtrie, all others in lower
//! subtries that the first nibbles of a path choose. Nodes are revealed ([`trie`], [`revealing`]),
//! leaves are removed ([`remove`]), and the root hash is computed anew where keys have changed
//! ([`changed`], [`root`]).
//!
//! Every type has a model ([`model`], [`hashing`], [`removal`]), over which the contracts are
//! stated. What holds of the library as a whole is in [`laws`]; what holds of its operations, one by
//! one, in [`laws_of_revealing`], [`laws_of_removal`], [`laws_of_hashing`] and [`laws_of_recording`].
//! What is believed of other crates is in [`outside`] and [`path_map`].

pub mod blinded;
pub mod canon;
pub mod changed;
pub mod described;
pub mod due;
pub mod error;
pub mod form;
pub mod hash_run;
pub mod hashing;
pub mod kept_hashes;
pub mod laws;
pub mod laws_of_hashing;
pub mod laws_of_models;
pub mod laws_of_recording;
pub mod laws_of_removal;
pub mod laws_of_revealing;
pub mod local;
pub mod lookup;
pub mod lower;
pub mod merkle;
pub mod model;
pub mod node;
pub mod normal;
pub mod notes;
pub mod order;
pub mod outside;
pub mod path;
pub mod path_map;
pub mod prefix_set;
pub mod provider;
pub mod recorded;
pub mod removal;
pub mod remove;
pub mod remove_sound;
pub mod revealed;
pub mod revealing;
pub mod root;
pub mod shown;
pub mod soundness;
pub mod subtrie;
pub mod trie;
pub mod twice;
pub mod updates;
pub mod values;
