use vstd::prelude::*;

verus! {

/// One value read from a saved tree: a number or a text.
#[derive(Debug)]
pub enum I32OrString {
    Num(i32),
    Str(String),
}

/// The model of a saved value: the number, or the characters of the text.
pub enum ValueView {
    Num(i32),
    Str(Seq<char>),
}

impl View for I32OrString {
    type V = ValueView;

    open spec fn view(&self) -> ValueView {
        match self {
            I32OrString::Num(n) => ValueView::Num(*n),
            I32OrString::Str(s) => ValueView::Str(s@),
        }
    }
}

pub open spec fn value_view_fn() -> spec_fn(I32OrString) -> ValueView {
    |v: I32OrString| v@
}

pub open spec fn values_view(s: Seq<I32OrString>) -> Seq<ValueView> {
    s.map_values(value_view_fn())
}

impl I32OrString {
    /// The number, if this is one.
    pub fn to_i32(&self) -> (r: Option<i32>)
        ensures
            r == match self {
                I32OrString::Num(n) => Some(*n),
                I32OrString::Str(_) => None::<i32>,
            },
    {
        match self {
            I32OrString::Num(num) => Some(*num),
            I32OrString::Str(_) => None,
        }
    }

    /// A copy of the text, if this is one.
    pub fn to_string(&self) -> (r: Option<String>)
        ensures
            r == match self {
                I32OrString::Num(_) => None::<String>,
                I32OrString::Str(s) => Some(*s),
            },
    {
        match self {
            I32OrString::Num(_) => None,
            I32OrString::Str(s) => Some(s.clone()),
        }
    }
}

} // verus!
