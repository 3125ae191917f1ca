//! The signal a callback sends back to an enumeration: go on, or stop.
use vstd::prelude::*;

verus! {

/// A callback's answer: `Continue`, or `Break` carrying a value.
#[derive(Copy, Clone, Debug)]
pub enum Control<B> {
    Continue,
    Break(B),
}

impl<B> Control<B> {
    /// A `Break` that carries nothing.
    pub fn breaking() -> (r: Control<()>)
        ensures
            r == Control::<()>::Break(()),
    {
        Control::Break(())
    }

    /// The value inside `Break`, if any.
    pub fn break_value(self) -> (r: Option<B>)
        ensures
            r == (match self {
                Control::Continue => None,
                Control::Break(b) => Some(b),
            }),
    {
        match self {
            Control::Continue => None,
            Control::Break(b) => Some(b),
        }
    }
}

/// What an enumeration needs of a callback's result: a value that means
/// "go on", and a test for "stop here".
pub trait ControlFlow: Sized {
    /// Whether this value asks the enumeration to stop.
    spec fn breaks(&self) -> bool;

    /// The value that asks the enumeration to go on.
    fn continuing() -> (r: Self)
        ensures
            !r.breaks(),
    ;

    /// Tests whether this value asks the enumeration to stop.
    fn should_break(&self) -> (r: bool)
        ensures
            r == self.breaks(),
    ;
}

/// `()` never stops an enumeration.
impl ControlFlow for () {
    open spec fn breaks(&self) -> bool {
        false
    }

    fn continuing() -> (r: Self) {
    }

    fn should_break(&self) -> (r: bool) {
        false
    }
}

/// `Break` stops an enumeration, `Continue` lets it go on.
impl<B> ControlFlow for Control<B> {
    open spec fn breaks(&self) -> bool {
        self is Break
    }

    fn continuing() -> (r: Self) {
        Control::Continue
    }

    fn should_break(&self) -> (r: bool) {
        match self {
            Control::Continue => false,
            Control::Break(_) => true,
        }
    }
}

/// `Err` stops an enumeration, `Ok(())` lets it go on.
impl<E> ControlFlow for Result<(), E> {
    open spec fn breaks(&self) -> bool {
        self is Err
    }

    fn continuing() -> (r: Self) {
        Ok(())
    }

    fn should_break(&self) -> (r: bool) {
        match self {
            Ok(_) => false,
            Err(_) => true,
        }
    }
}

} // verus!
