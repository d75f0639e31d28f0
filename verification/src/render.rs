//! Field values written the way `{:?}` writes them — numbers in decimal, strings quoted,
//! lists in brackets, pairs in parentheses — so two renderings can be reported side by side.

use vstd::prelude::*;
use vstd::string::*;

use crate::text::{decimal, decimal_string};

verus! {

/// What `{:?}` writes for a string: the text quoted, with its special characters escaped.
pub uninterp spec fn debug_escaped(s: Seq<char>) -> Seq<char>;

/// `format!("{:?}", s)` on a string slice (std's `Debug` for `str`). Claimed of it: the text
/// depends on `s` alone. How each character is escaped is not stated.
#[verifier::external_body]
pub(crate) fn debug_quoted(s: &str) -> (r: String)
    ensures
        r@ == debug_escaped(s@),
{
    format!("{:?}", s)
}

/// Items separated by `", "`.
pub open spec fn joined(items: Seq<Seq<char>>) -> Seq<char>
    decreases items.len(),
{
    if items.len() == 0 {
        Seq::empty()
    } else if items.len() == 1 {
        items[0]
    } else {
        joined(items.drop_last()) + ", "@ + items.last()
    }
}

/// A bracketed list of items, as `{:?}` writes a `Vec`.
pub open spec fn debug_list(items: Seq<Seq<char>>) -> Seq<char> {
    "["@ + joined(items) + "]"@
}

/// A parenthesised pair, as `{:?}` writes a 2-tuple.
pub open spec fn debug_pair(a: Seq<char>, b: Seq<char>) -> Seq<char> {
    "("@ + a + ", "@ + b + ")"@
}

/// A value with a `{:?}`-style rendering and an equality decided on its deep view.
pub trait Rendered: Sized + DeepView {
    /// The text `{:?}` writes for this value.
    spec fn rendering(&self) -> Seq<char>;

    /// Render this value.
    fn render(&self) -> (r: String)
        ensures
            r@ == self.rendering(),
    ;

    /// Whether two values are equal.
    fn equals(&self, other: &Self) -> (r: bool)
        ensures
            r == (self.deep_view() == other.deep_view()),
    ;
}

impl Rendered for u64 {
    open spec fn rendering(&self) -> Seq<char> {
        decimal(*self as nat)
    }

    fn render(&self) -> (r: String) {
        decimal_string(*self)
    }

    fn equals(&self, other: &Self) -> (r: bool) {
        *self == *other
    }
}

impl Rendered for u32 {
    open spec fn rendering(&self) -> Seq<char> {
        decimal(*self as nat)
    }

    fn render(&self) -> (r: String) {
        decimal_string(*self as u64)
    }

    fn equals(&self, other: &Self) -> (r: bool) {
        *self == *other
    }
}

impl Rendered for String {
    open spec fn rendering(&self) -> Seq<char> {
        debug_escaped(self@)
    }

    fn render(&self) -> (r: String) {
        debug_quoted(self.as_str())
    }

    fn equals(&self, other: &Self) -> (r: bool) {
        self.eq(other)
    }
}

impl<A: Rendered, B: Rendered> Rendered for (A, B) {
    open spec fn rendering(&self) -> Seq<char> {
        debug_pair(self.0.rendering(), self.1.rendering())
    }

    fn render(&self) -> (r: String) {
        let mut s = String::from_str("(");
        let a = self.0.render();
        s.append(a.as_str());
        s.append(", ");
        let b = self.1.render();
        s.append(b.as_str());
        s.append(")");
        s
    }

    fn equals(&self, other: &Self) -> (r: bool) {
        self.0.equals(&other.0) && self.1.equals(&other.1)
    }
}

impl<T: Rendered> Rendered for Option<T> {
    open spec fn rendering(&self) -> Seq<char> {
        match self {
            Some(x) => "Some("@ + x.rendering() + ")"@,
            None => "None"@,
        }
    }

    fn render(&self) -> (r: String) {
        match self {
            Some(x) => {
                let mut s = String::from_str("Some(");
                let t = x.render();
                s.append(t.as_str());
                s.append(")");
                s
            },
            None => String::from_str("None"),
        }
    }

    fn equals(&self, other: &Self) -> (r: bool) {
        match (self, other) {
            (Some(a), Some(b)) => a.equals(b),
            (None, None) => true,
            _ => false,
        }
    }
}

impl<T: Rendered> Rendered for Vec<T> {
    open spec fn rendering(&self) -> Seq<char> {
        debug_list(self@.map_values(|x: T| x.rendering()))
    }

    fn render(&self) -> (r: String) {
        let ghost items = self@.map_values(|x: T| x.rendering());
        let mut s = String::from_str("[");
        let mut i: usize = 0;
        while i < self.len()
            invariant
                i <= self@.len(),
                items == self@.map_values(|x: T| x.rendering()),
                s@ == "["@ + joined(items.take(i as int)),
            decreases self@.len() - i,
        {
            assert(items.take(i + 1).drop_last() =~= items.take(i as int));
            if i > 0 {
                s.append(", ");
            }
            let t = self[i].render();
            s.append(t.as_str());
            i += 1;
        }
        s.append("]");
        assert(items.take(self@.len() as int) =~= items);
        s
    }

    fn equals(&self, other: &Self) -> (r: bool) {
        if self.len() != other.len() {
            assert(self.deep_view().len() != other.deep_view().len());
            return false;
        }
        let mut i: usize = 0;
        while i < self.len()
            invariant
                i <= self@.len(),
                self@.len() == other@.len(),
                forall|j: int| 0 <= j < i ==> self@[j].deep_view() == other@[j].deep_view(),
            decreases self@.len() - i,
        {
            if !self[i].equals(&other[i]) {
                assert(self.deep_view()[i as int] != other.deep_view()[i as int]);
                return false;
            }
            i += 1;
        }
        assert(self.deep_view() =~= other.deep_view());
        true
    }
}

} // verus!
