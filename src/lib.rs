use vstd::prelude::*;

pub mod finder;
pub mod gui;
pub mod histogram;
pub mod image;
pub mod multiprocessing;
pub mod widgets;

verus! {

/// Why an operation of the application failed.
#[derive(Debug, Clone)]
pub enum Error {
    DialogClosed,
    NoImageFound,
    Io(String),
    ImageLoad(String),
    Image(String),
}

} // verus!
