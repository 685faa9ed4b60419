use vstd::prelude::*;

verus! {

/// A widget bound to the parameter it edits.
pub struct ParamWidget<T, U> {
    widget: T,
    param: U,
}

impl<T, U> ParamWidget<T, U> {
    pub closed spec fn spec_widget(self) -> T {
        self.widget
    }

    pub closed spec fn spec_param(self) -> U {
        self.param
    }

    pub fn new(widget: T, param: U) -> (r: Self)
        ensures
            r.spec_widget() == widget,
            r.spec_param() == param,
    {
        Self { widget, param }
    }
}

impl<T: Default, U> ParamWidget<T, U> {
    /// A default-built widget bound to `param`.
    pub fn default(param: U) -> (r: Self)
        ensures
            r.spec_param() == param,
    {
        Self { widget: T::default(), param }
    }
}

} // verus!
