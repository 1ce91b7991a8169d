//! Choosing a host of an SSH client configuration in the terminal.
//!
//! `ssh_config` reads the text of a configuration file into directives and
//! builds from them the options of each host. `selector` is the state of the
//! interactive choice: the hosts that can be chosen, narrowed by the query
//! that the user types, and the highlighted host that the user confirms.
//! `sorted_map` and `text` hold what both rest on: a map that is kept in the
//! order of its keys, and the characters and the order of strings.
//!
//! Every function states what it returns over the mathematical view of its
//! arguments, and is proved to return it. The proofs rest on the contracts
//! that `text` gives to three functions of the standard library:
//! `String::push`, `String::pop` and `str::contains`.

pub mod selector;
pub mod sorted_map;
pub mod ssh_config;
pub mod text;
