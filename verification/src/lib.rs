//! The decision-making core of a small OpenGL scene viewer: how vertex data is
//! laid out in GPU buffers, which keys are held and what they do, when the
//! window must be resized or closed, and in which order the nodes of a scene
//! graph are drawn with which chain of local transformations.

pub mod draw;
pub mod input;
pub mod layout;
pub mod scene;
pub mod walk;
