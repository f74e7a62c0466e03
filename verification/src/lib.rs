//! The layout of descriptor sets and push constants used by a pipeline.
//!
//! # Overview
//!
//! The layout itself only *describes* the descriptors and push constants, and does not contain
//! their content. It can be thought of as a `struct` definition that states which members there
//! are, what types they have, and in what order.
//!
//! - [`range`]: push constant ranges, their rules, their order, and their split into disjoint pieces
//! - [`create_info`]: the parameters of a layout, and the rules that they must keep
//! - [`acceptance`]: which parameters are accepted, and what is said of the others
//! - [`layout`]: the layout itself, compatibility of layouts, and the check against a shader
//! - [`stages`]: the parameters that the shaders of a pipeline require
//! - [`stage_union`]: what those parameters consist of
//! - [`count`] and [`limits`]: the number of descriptors, and what a device allows
//! - [`descriptor_set`], [`requirements`], [`shader`], [`device`]: what a layout is made of
//! - [`error`] and [`text`]: errors and their messages
//! - [`outside`]: the calls into other crates
//!
//! # Layout compatibility
//!
//! When binding descriptor sets or setting push constants, a pipeline layout must be provided. The
//! data can later be read by a pipeline only if its layout is *compatible* with the layout that was
//! used to bind the resources: the same object, or one in which the push constant ranges and
//! descriptor set layouts are identically defined.
//!
//! - An incompatible definition of the push constants invalidates all bound descriptor sets.
//! - An incompatible definition of set *N* invalidates all bound descriptor sets *N* and higher.
//! - If *N* is the highest set being bound, and it and all lower sets have compatible definitions,
//!   including the push constants, then descriptor sets above *N* remain valid.

pub mod acceptance;
pub mod count;
pub mod create_info;
pub mod descriptor_set;
pub mod device;
pub mod error;
pub mod layout;
pub mod limits;
pub mod outside;
pub mod range;
pub mod requirements;
pub mod shader;
pub mod stage_union;
pub mod stages;
pub mod text;
