use vstd::prelude::*;
use crate::archive::{kind_of, Archive, Node, NodeValue, ResolutionError, ValueKind};

verus! {

/// A point or offset in pixels.
#[derive(Clone, Copy, Debug, PartialEq, Eq, Structural)]
pub struct Vec2 {
    pub x: i64,
    pub y: i64,
}

impl Vec2 {
    pub open spec fn fits_i32(&self) -> bool {
        i32::MIN <= self.x <= i32::MAX && i32::MIN <= self.y <= i32::MAX
    }
}

pub open spec fn mismatch(expected: ValueKind, v: NodeValue) -> ResolutionError {
    ResolutionError::TypeMismatch(expected, kind_of(v))
}

pub open spec fn int_of(a: Archive, n: int) -> Result<i32, ResolutionError> {
    match a.value_of(n) {
        NodeValue::Int(v) => Ok(v),
        v => Err(mismatch(ValueKind::Int, v)),
    }
}

pub open spec fn text_of(a: Archive, n: int) -> Result<Seq<char>, ResolutionError> {
    match a.value_of(n) {
        NodeValue::Text(s) => Ok(s@),
        v => Err(mismatch(ValueKind::Text, v)),
    }
}

pub open spec fn vector_of(a: Archive, n: int) -> Result<Vec2, ResolutionError> {
    match a.value_of(n) {
        NodeValue::Vector(x, y) => Ok(Vec2 { x: x as i64, y: y as i64 }),
        v => Err(mismatch(ValueKind::Vector, v)),
    }
}

/// Width and height of an image node.
pub open spec fn image_of(a: Archive, n: int) -> Result<(u32, u32), ResolutionError> {
    match a.value_of(n) {
        NodeValue::Image { width, height } => Ok((width, height)),
        v => Err(mismatch(ValueKind::Image, v)),
    }
}

pub open spec fn bool_of(a: Archive, n: int) -> Result<bool, ResolutionError> {
    match int_of(a, n) {
        Ok(v) => Ok(v != 0),
        Err(e) => Err(e),
    }
}

/// A required integer child.
pub open spec fn int_field(a: Archive, n: int, name: Seq<char>) -> Result<i32, ResolutionError> {
    match a.child(n, name) {
        Some(c) => int_of(a, c as int),
        None => Err(ResolutionError::NotFound),
    }
}

/// An optional integer child, with its default.
pub open spec fn int_field_or(a: Archive, n: int, name: Seq<char>, default: i32) -> Result<i32, ResolutionError> {
    match a.child(n, name) {
        Some(c) => int_of(a, c as int),
        None => Ok(default),
    }
}

pub open spec fn bool_field(a: Archive, n: int, name: Seq<char>) -> Result<bool, ResolutionError> {
    match a.child(n, name) {
        Some(c) => bool_of(a, c as int),
        None => Err(ResolutionError::NotFound),
    }
}

pub open spec fn text_field(a: Archive, n: int, name: Seq<char>) -> Result<Seq<char>, ResolutionError> {
    match a.child(n, name) {
        Some(c) => text_of(a, c as int),
        None => Err(ResolutionError::NotFound),
    }
}

pub open spec fn vector_field(a: Archive, n: int, name: Seq<char>) -> Result<Vec2, ResolutionError> {
    match a.child(n, name) {
        Some(c) => vector_of(a, c as int),
        None => Err(ResolutionError::NotFound),
    }
}

/// An exec text result agrees with a spec one.
pub open spec fn text_matches(r: Result<String, ResolutionError>, s: Result<Seq<char>, ResolutionError>) -> bool {
    match r {
        Ok(t) => s == Ok::<Seq<char>, ResolutionError>(t@),
        Err(e) => s == Err::<Seq<char>, ResolutionError>(e),
    }
}

impl Node {
    pub fn as_int(&self, a: &Archive) -> (r: Result<i32, ResolutionError>)
        requires
            a.wf(),
            a.valid(*self),
        ensures
            r == int_of(*a, self.id as int),
    {
        match &a.entries[self.id].value {
            NodeValue::Int(v) => Ok(*v),
            v => Err(ResolutionError::TypeMismatch(ValueKind::Int, kind(v))),
        }
    }

    pub fn as_text(&self, a: &Archive) -> (r: Result<String, ResolutionError>)
        requires
            a.wf(),
            a.valid(*self),
        ensures
            text_matches(r, text_of(*a, self.id as int)),
    {
        match &a.entries[self.id].value {
            NodeValue::Text(s) => Ok(s.clone()),
            v => Err(ResolutionError::TypeMismatch(ValueKind::Text, kind(v))),
        }
    }

    pub fn as_vector(&self, a: &Archive) -> (r: Result<Vec2, ResolutionError>)
        requires
            a.wf(),
            a.valid(*self),
        ensures
            r == vector_of(*a, self.id as int),
            r matches Ok(v) ==> v.fits_i32(),
    {
        match &a.entries[self.id].value {
            NodeValue::Vector(x, y) => Ok(Vec2 { x: *x as i64, y: *y as i64 }),
            v => Err(ResolutionError::TypeMismatch(ValueKind::Vector, kind(v))),
        }
    }

    pub fn as_image(&self, a: &Archive) -> (r: Result<(u32, u32), ResolutionError>)
        requires
            a.wf(),
            a.valid(*self),
        ensures
            r == image_of(*a, self.id as int),
    {
        match &a.entries[self.id].value {
            NodeValue::Image { width, height } => Ok((*width, *height)),
            v => Err(ResolutionError::TypeMismatch(ValueKind::Image, kind(v))),
        }
    }

    /// An integer node read as a flag: nonzero is true.
    pub fn as_bool(&self, a: &Archive) -> (r: Result<bool, ResolutionError>)
        requires
            a.wf(),
            a.valid(*self),
        ensures
            r == bool_of(*a, self.id as int),
    {
        match self.as_int(a) {
            Ok(v) => Ok(v != 0),
            Err(e) => Err(e),
        }
    }

    pub fn int_field(&self, a: &Archive, name: &str) -> (r: Result<i32, ResolutionError>)
        requires
            a.wf(),
            a.valid(*self),
        ensures
            r == int_field(*a, self.id as int, name@),
    {
        match self.try_get(a, name) {
            Some(c) => c.as_int(a),
            None => Err(ResolutionError::NotFound),
        }
    }

    pub fn int_field_or(&self, a: &Archive, name: &str, default: i32) -> (r: Result<i32, ResolutionError>)
        requires
            a.wf(),
            a.valid(*self),
        ensures
            r == int_field_or(*a, self.id as int, name@, default),
    {
        match self.try_get(a, name) {
            Some(c) => c.as_int(a),
            None => Ok(default),
        }
    }

    pub fn bool_field(&self, a: &Archive, name: &str) -> (r: Result<bool, ResolutionError>)
        requires
            a.wf(),
            a.valid(*self),
        ensures
            r == bool_field(*a, self.id as int, name@),
    {
        match self.try_get(a, name) {
            Some(c) => c.as_bool(a),
            None => Err(ResolutionError::NotFound),
        }
    }

    pub fn text_field(&self, a: &Archive, name: &str) -> (r: Result<String, ResolutionError>)
        requires
            a.wf(),
            a.valid(*self),
        ensures
            text_matches(r, text_field(*a, self.id as int, name@)),
    {
        match self.try_get(a, name) {
            Some(c) => c.as_text(a),
            None => Err(ResolutionError::NotFound),
        }
    }

    pub fn vector_field(&self, a: &Archive, name: &str) -> (r: Result<Vec2, ResolutionError>)
        requires
            a.wf(),
            a.valid(*self),
        ensures
            r == vector_field(*a, self.id as int, name@),
            r matches Ok(v) ==> v.fits_i32(),
    {
        match self.try_get(a, name) {
            Some(c) => c.as_vector(a),
            None => Err(ResolutionError::NotFound),
        }
    }
}

fn kind(v: &NodeValue) -> (r: ValueKind)
    ensures
        r == kind_of(*v),
{
    match v {
        NodeValue::Directory => ValueKind::Directory,
        NodeValue::Container => ValueKind::Container,
        NodeValue::Int(_) => ValueKind::Int,
        NodeValue::Text(_) => ValueKind::Text,
        NodeValue::Vector(_, _) => ValueKind::Vector,
        NodeValue::Image { .. } => ValueKind::Image,
        NodeValue::Other => ValueKind::Other,
    }
}

} // verus!
