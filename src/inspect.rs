use vstd::prelude::*;

verus! {

/// A type that can tell its name, as the archive browser shows it beside a
/// value.
pub trait TypeLabel {
    spec fn label_spec() -> Seq<char>;

    fn label() -> (r: &'static str)
        ensures
            r@ == Self::label_spec(),
    ;
}

impl TypeLabel for i16 {
    open spec fn label_spec() -> Seq<char> {
        "i16"@
    }

    fn label() -> (r: &'static str) {
        "i16"
    }
}

impl TypeLabel for i32 {
    open spec fn label_spec() -> Seq<char> {
        "i32"@
    }

    fn label() -> (r: &'static str) {
        "i32"
    }
}

impl TypeLabel for i64 {
    open spec fn label_spec() -> Seq<char> {
        "i64"@
    }

    fn label() -> (r: &'static str) {
        "i64"
    }
}

impl TypeLabel for String {
    open spec fn label_spec() -> Seq<char> {
        "alloc::string::String"@
    }

    fn label() -> (r: &'static str) {
        "alloc::string::String"
    }
}

/// The name of a value's type.
pub fn type_of<T: TypeLabel>(_v: &T) -> (r: String)
    ensures
        r@ == T::label_spec(),
{
    String::from_str(T::label())
}

} // verus!
