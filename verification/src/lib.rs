//! EA APT movies, their auxiliary files, and their conversion to and from SWF.
pub mod apt;
pub mod apt_aux;
pub mod apt_convert;
pub mod paths;
pub mod text;
