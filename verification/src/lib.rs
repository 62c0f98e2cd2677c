//! Symbolic analysis of multi-valued logical networks.
//!
//! A network is a finite set of bounded integer variables, each updated by a
//! prioritised table of guarded values. The state space and the asynchronous
//! transition relation are held as binary decision diagrams, and every
//! operation is specified over the set of valuations that a diagram denotes.
//!
//! The encodings of a variable are in `symbolic_domain`, `unary`, `binary`,
//! `gray` and `petri_net`. A network is made of `expression` and
//! `unprocessed`; `variable_update_fn` and `relation` compile it, and
//! `system` holds the result, with the steps of `image`. `reachability`
//! closes sets of states under these steps. What the steps and the closures
//! mean for the states of the network, whatever the encoding, is proved in
//! `semantics`, `closure`, `counting`, `agreement` and `components`;
//! `sameness` says when two networks are one.

pub mod agreement;
pub mod bdd;
pub mod binary;
pub mod closure;
pub mod components;
pub mod counting;
pub mod cross_check;
pub mod eager;
pub mod expression;
pub mod gray;
pub mod image;
pub mod names;
pub mod order;
pub mod petri_net;
pub mod reachability;
pub mod relation;
pub mod sameness;
pub mod semantics;
pub mod state_space;
pub mod symbolic_domain;
pub mod system;
pub mod unary;
pub mod unprocessed;
pub mod update_fn_bdd;
pub mod validate;
pub mod variable_update_fn;
